//! Arbitrary-precision integers.
//!
//! [`BigUint`] is a little-endian vector of 32-bit limbs and [`BigInt`] adds a
//! sign. Both are specified by their views, the natural number or integer that
//! they stand for; the limb representation need not be canonical.
use vstd::arithmetic::div_mod::lemma_div_denominator;
use vstd::arithmetic::div_mod::lemma_fundamental_div_mod_converse;
use vstd::arithmetic::power2::lemma2_to64;
use vstd::arithmetic::power2::lemma_pow2_pos;
use vstd::arithmetic::power2::lemma_pow2_unfold;
use vstd::arithmetic::power2::pow2;
use vstd::prelude::*;

verus! {

/// The radix of one limb.
pub const LIMB_BASE: u64 = 0x1_0000_0000;

/// The natural number that a little-endian limb sequence stands for.
pub open spec fn limbs_value(s: Seq<u32>) -> nat
    decreases s.len(),
{
    if s.len() == 0 {
        0
    } else {
        s[0] as nat + 0x1_0000_0000 * limbs_value(s.skip(1))
    }
}

/// The weight of limb `i`.
pub open spec fn limb_weight(i: nat) -> nat
    decreases i,
{
    if i == 0 {
        1
    } else {
        0x1_0000_0000 * limb_weight((i - 1) as nat)
    }
}

proof fn lemma_value_skip(s: Seq<u32>, i: int)
    requires
        0 <= i < s.len(),
    ensures
        limbs_value(s.skip(i)) == s[i] as nat + 0x1_0000_0000 * limbs_value(s.skip(i + 1)),
{
    assert(s.skip(i).skip(1) =~= s.skip(i + 1));
}

proof fn lemma_value_push(s: Seq<u32>, x: u32)
    ensures
        limbs_value(s.push(x)) == limbs_value(s) + x as nat * limb_weight(s.len()),
    decreases s.len(),
{
    if s.len() == 0 {
        assert(s.push(x).skip(1) =~= Seq::<u32>::empty());
        assert(limbs_value(Seq::<u32>::empty()) == 0);
        assert(limb_weight(0) == 1);
        assert(x as nat * 1 == x as nat);
    } else {
        assert(s.push(x).skip(1) =~= s.skip(1).push(x));
        lemma_value_push(s.skip(1), x);
        let w = limb_weight((s.len() - 1) as nat);
        assert(0x1_0000_0000 * (x as nat * w) == x as nat * (0x1_0000_0000 * w)) by (nonlinear_arith);
    }
}

proof fn lemma_value_take(s: Seq<u32>, i: int)
    requires
        0 <= i < s.len(),
    ensures
        limbs_value(s.take(i + 1)) == limbs_value(s.take(i)) + s[i] as nat * limb_weight(i as nat),
{
    assert(s.take(i + 1) =~= s.take(i).push(s[i]));
    lemma_value_push(s.take(i), s[i]);
}

proof fn lemma_value_bound(s: Seq<u32>)
    ensures
        limbs_value(s) < limb_weight(s.len()),
    decreases s.len(),
{
    if s.len() > 0 {
        lemma_value_bound(s.skip(1));
    }
}

proof fn lemma_value_skip_le(s: Seq<u32>, i: int)
    requires
        0 <= i <= s.len(),
    ensures
        limbs_value(s.skip(i)) <= limbs_value(s),
    decreases i,
{
    if i == 0 {
        assert(s.skip(0) =~= s);
    } else {
        lemma_value_skip_le(s, i - 1);
        lemma_value_skip(s, i - 1);
    }
}

/// The number of binary digits of `n`, zero for zero.
pub open spec fn bit_length(n: nat) -> nat
    decreases n,
{
    if n == 0 {
        0
    } else {
        1 + bit_length(n / 2)
    }
}

/// `n` lies below the power of two of its bit length, and at or above the one
/// before it.
pub proof fn lemma_bit_length(n: nat)
    ensures
        n < pow2(bit_length(n)),
        n > 0 ==> bit_length(n) > 0 && pow2((bit_length(n) - 1) as nat) <= n,
    decreases n,
{
    if n == 0 {
        lemma_pow2_pos(0);
    } else {
        lemma_bit_length(n / 2);
        lemma_pow2_unfold(bit_length(n));
        if n / 2 > 0 {
            lemma_pow2_unfold((bit_length(n) - 1) as nat);
        } else {
            lemma2_to64();
        }
    }
}

/// `m` below `2^b` has at most `b` binary digits.
pub proof fn lemma_bit_length_bound(m: nat, b: nat)
    requires
        m < pow2(b),
    ensures
        bit_length(m) <= b,
    decreases b,
{
    if m > 0 {
        if b == 0 {
            lemma2_to64();
        } else {
            lemma_pow2_unfold(b);
            lemma_bit_length_bound(m / 2, (b - 1) as nat);
        }
    }
}

/// How two values stand to each other.
#[derive(Clone, Copy, Debug, PartialEq, Eq, Structural)]
pub enum Comparison {
    Less,
    Equal,
    Greater,
}

/// The comparison of two integers.
pub open spec fn comparison(a: int, b: int) -> Comparison {
    if a < b {
        Comparison::Less
    } else if a == b {
        Comparison::Equal
    } else {
        Comparison::Greater
    }
}

/// A natural number of any size.
#[derive(Debug)]
pub struct BigUint {
    limbs: Vec<u32>,
}

impl View for BigUint {
    type V = nat;

    closed spec fn view(&self) -> nat {
        limbs_value(self.limbs@)
    }
}

impl Clone for BigUint {
    fn clone(&self) -> (r: Self)
        ensures
            r@ == self@,
    {
        let limbs = self.limbs.clone();
        assert(limbs@ =~= self.limbs@);
        BigUint { limbs }
    }
}

impl BigUint {
    /// Zero.
    pub fn zero() -> (r: Self)
        ensures
            r@ == 0,
    {
        BigUint { limbs: Vec::new() }
    }

    /// The number `n`.
    pub fn from_u128(n: u128) -> (r: Self)
        ensures
            r@ == n as nat,
    {
        let mut limbs: Vec<u32> = Vec::new();
        let mut rest: u128 = n;
        proof {
            assert(limb_weight(0) == 1);
            assert(rest as nat * 1 == rest as nat);
        }
        while rest > 0
            invariant
                limbs_value(limbs@) + rest as nat * limb_weight(limbs@.len()) == n as nat,
            decreases rest,
        {
            let low: u32 = (rest % 0x1_0000_0000) as u32;
            proof {
                lemma_value_push(limbs@, low);
                let w = limb_weight(limbs@.len());
                let q = (rest / 0x1_0000_0000) as nat;
                assert(rest as nat == q * 0x1_0000_0000 + low as nat);
                assert((q * 0x1_0000_0000 + low as nat) * w == q * (0x1_0000_0000 * w) + low as nat * w)
                    by (nonlinear_arith);
            }
            limbs.push(low);
            rest = rest / 0x1_0000_0000;
        }
        proof {
            assert(0 * limb_weight(limbs@.len()) == 0);
        }
        BigUint { limbs }
    }

    /// The number as a `u128`, where it fits.
    pub fn to_u128(&self) -> (r: Option<u128>)
        ensures
            r == (if self@ <= u128::MAX {
                Some(self@ as u128)
            } else {
                None
            }),
    {
        let mut acc: u128 = 0;
        let mut i: usize = self.limbs.len();
        proof {
            assert(self.limbs@.skip(self.limbs@.len() as int) =~= Seq::<u32>::empty());
        }
        while i > 0
            invariant
                0 <= i <= self.limbs@.len(),
                acc as nat == limbs_value(self.limbs@.skip(i as int)),
            decreases i,
        {
            i = i - 1;
            proof {
                lemma_value_skip(self.limbs@, i as int);
                lemma_value_skip_le(self.limbs@, i as int);
            }
            let limb: u32 = self.limbs[i];
            if acc > 0xffff_ffff_ffff_ffff_ffff_ffff {
                return None;
            }
            acc = acc * 0x1_0000_0000 + limb as u128;
        }
        proof {
            assert(self.limbs@.skip(0) =~= self.limbs@);
        }
        Some(acc)
    }

    /// Whether the number is zero.
    pub fn is_zero(&self) -> (r: bool)
        ensures
            r == (self@ == 0),
    {
        let mut i: usize = self.limbs.len();
        proof {
            assert(self.limbs@.skip(self.limbs@.len() as int) =~= Seq::<u32>::empty());
        }
        while i > 0
            invariant
                0 <= i <= self.limbs@.len(),
                limbs_value(self.limbs@.skip(i as int)) == 0,
            decreases i,
        {
            i = i - 1;
            proof {
                lemma_value_skip(self.limbs@, i as int);
                lemma_value_skip_le(self.limbs@, i as int);
            }
            if self.limbs[i] != 0 {
                return false;
            }
        }
        proof {
            assert(self.limbs@.skip(0) =~= self.limbs@);
        }
        true
    }

    fn limb_at(&self, i: usize) -> (r: u32)
        ensures
            r == (if i < self.limbs@.len() {
                self.limbs@[i as int]
            } else {
                0u32
            }),
    {
        if i < self.limbs.len() {
            self.limbs[i]
        } else {
            0
        }
    }

    /// How `self` stands to `other`.
    pub fn compare(&self, other: &Self) -> (r: Comparison)
        ensures
            r == comparison(self@ as int, other@ as int),
    {
        let n: usize = if self.limbs.len() < other.limbs.len() {
            other.limbs.len()
        } else {
            self.limbs.len()
        };
        let ghost a = padded(self.limbs@, n as nat);
        let ghost b = padded(other.limbs@, n as nat);
        proof {
            lemma_padded(self.limbs@, n as nat);
            lemma_padded(other.limbs@, n as nat);
            assert(a.skip(n as int) =~= Seq::<u32>::empty());
            assert(b.skip(n as int) =~= Seq::<u32>::empty());
        }
        let mut i: usize = n;
        let mut r: Comparison = Comparison::Equal;
        while i > 0
            invariant
                0 <= i <= n,
                a == padded(self.limbs@, n as nat),
                b == padded(other.limbs@, n as nat),
                self.limbs@.len() <= n,
                other.limbs@.len() <= n,
                r == comparison(
                    limbs_value(a.skip(i as int)) as int,
                    limbs_value(b.skip(i as int)) as int,
                ),
            decreases i,
        {
            i = i - 1;
            proof {
                lemma_value_skip(a, i as int);
                lemma_value_skip(b, i as int);
            }
            if r == Comparison::Equal {
                let x: u32 = self.limb_at(i);
                let y: u32 = other.limb_at(i);
                if x < y {
                    r = Comparison::Less;
                } else if x > y {
                    r = Comparison::Greater;
                }
            }
        }
        proof {
            assert(a.skip(0) =~= a);
            assert(b.skip(0) =~= b);
        }
        r
    }

    /// The sum.
    pub fn plus(&self, other: &Self) -> (r: Self)
        ensures
            r@ == self@ + other@,
    {
        let n: usize = if self.limbs.len() < other.limbs.len() {
            other.limbs.len()
        } else {
            self.limbs.len()
        };
        let ghost a = padded(self.limbs@, n as nat);
        let ghost b = padded(other.limbs@, n as nat);
        proof {
            lemma_padded(self.limbs@, n as nat);
            lemma_padded(other.limbs@, n as nat);
            assert(a.take(0) =~= Seq::<u32>::empty());
            assert(b.take(0) =~= Seq::<u32>::empty());
        }
        let mut limbs: Vec<u32> = Vec::new();
        let mut carry: u64 = 0;
        let mut i: usize = 0;
        proof {
            assert(0 * limb_weight(0) == 0);
        }
        while i < n
            invariant
                0 <= i <= n,
                limbs@.len() == i,
                carry <= 1,
                a == padded(self.limbs@, n as nat),
                b == padded(other.limbs@, n as nat),
                self.limbs@.len() <= n,
                other.limbs@.len() <= n,
                limbs_value(limbs@) + carry as nat * limb_weight(i as nat) == limbs_value(
                    a.take(i as int),
                ) + limbs_value(b.take(i as int)),
            decreases n - i,
        {
            let x: u64 = self.limb_at(i) as u64;
            let y: u64 = other.limb_at(i) as u64;
            let total: u64 = x + y + carry;
            let low: u32 = (total % 0x1_0000_0000) as u32;
            let next: u64 = total / 0x1_0000_0000;
            proof {
                lemma_value_take(a, i as int);
                lemma_value_take(b, i as int);
                lemma_value_push(limbs@, low);
                let w = limb_weight(i as nat);
                assert(limb_weight((i + 1) as nat) == 0x1_0000_0000 * w);
                assert(low as nat * w + next as nat * (0x1_0000_0000 * w) == x as nat * w + y as nat * w
                    + carry as nat * w) by (nonlinear_arith)
                    requires
                        low as nat + next as nat * 0x1_0000_0000 == x as nat + y as nat
                            + carry as nat,
                ;
            }
            limbs.push(low);
            carry = next;
            i = i + 1;
        }
        proof {
            assert(a.take(n as int) =~= a);
            assert(b.take(n as int) =~= b);
            lemma_value_push(limbs@, carry as u32);
            assert(0 * limb_weight(n as nat) == 0);
        }
        if carry > 0 {
            limbs.push(carry as u32);
        }
        BigUint { limbs }
    }

    /// The difference `self - other`.
    pub fn minus(&self, other: &Self) -> (r: Self)
        requires
            other@ <= self@,
        ensures
            r@ == self@ - other@,
    {
        let n: usize = if self.limbs.len() < other.limbs.len() {
            other.limbs.len()
        } else {
            self.limbs.len()
        };
        let ghost a = padded(self.limbs@, n as nat);
        let ghost b = padded(other.limbs@, n as nat);
        proof {
            lemma_padded(self.limbs@, n as nat);
            lemma_padded(other.limbs@, n as nat);
            assert(a.take(0) =~= Seq::<u32>::empty());
            assert(b.take(0) =~= Seq::<u32>::empty());
        }
        let mut limbs: Vec<u32> = Vec::new();
        let mut borrow: u64 = 0;
        let mut i: usize = 0;
        proof {
            assert(0 * limb_weight(0) == 0);
        }
        while i < n
            invariant
                0 <= i <= n,
                limbs@.len() == i,
                borrow <= 1,
                a == padded(self.limbs@, n as nat),
                b == padded(other.limbs@, n as nat),
                self.limbs@.len() <= n,
                other.limbs@.len() <= n,
                limbs_value(limbs@) + limbs_value(b.take(i as int)) == limbs_value(
                    a.take(i as int),
                ) + borrow as nat * limb_weight(i as nat),
            decreases n - i,
        {
            let x: u64 = self.limb_at(i) as u64;
            let y: u64 = other.limb_at(i) as u64;
            let below: u64 = y + borrow;
            let next: u64 = if x < below {
                1
            } else {
                0
            };
            let low: u32 = (x + next * 0x1_0000_0000 - below) as u32;
            proof {
                lemma_value_take(a, i as int);
                lemma_value_take(b, i as int);
                lemma_value_push(limbs@, low);
                let w = limb_weight(i as nat);
                assert(limb_weight((i + 1) as nat) == 0x1_0000_0000 * w);
                assert(low as nat * w + y as nat * w + borrow as nat * w == x as nat * w + next as nat
                    * (0x1_0000_0000 * w)) by (nonlinear_arith)
                    requires
                        low as nat + y as nat + borrow as nat == x as nat + next as nat
                            * 0x1_0000_0000,
                ;
            }
            limbs.push(low);
            borrow = next;
            i = i + 1;
        }
        proof {
            assert(a.take(n as int) =~= a);
            assert(b.take(n as int) =~= b);
            lemma_value_bound(limbs@);
            assert(0 * limb_weight(n as nat) == 0);
            assert(1 * limb_weight(n as nat) == limb_weight(n as nat));
        }
        BigUint { limbs: trim(limbs) }
    }

    /// The quotient and the remainder of a division by `d`.
    pub fn divide_small(&self, d: u32) -> (r: (Self, u32))
        requires
            d > 0,
        ensures
            r.0@ == self@ / d as nat,
            r.1 as nat == self@ % d as nat,
    {
        let n: usize = self.limbs.len();
        let mut quotient: Vec<u32> = Vec::new();
        let mut k: usize = 0;
        while k < n
            invariant
                k <= n,
                quotient@.len() == k,
            decreases n - k,
        {
            quotient.push(0);
            k = k + 1;
        }
        let mut rem: u64 = 0;
        let mut i: usize = n;
        proof {
            assert(self.limbs@.skip(n as int) =~= Seq::<u32>::empty());
            assert(quotient@.skip(n as int) =~= Seq::<u32>::empty());
            assert(d as nat * 0 == 0);
        }
        while i > 0
            invariant
                0 <= i <= n,
                n == self.limbs@.len(),
                quotient@.len() == n,
                d > 0,
                rem < d as u64,
                limbs_value(self.limbs@.skip(i as int)) == d as nat * limbs_value(
                    quotient@.skip(i as int),
                ) + rem as nat,
            decreases i,
        {
            i = i - 1;
            let ghost before = quotient@;
            let cur: u64 = rem * 0x1_0000_0000 + self.limbs[i] as u64;
            let q: u64 = cur / d as u64;
            proof {
                assert(cur < d as u64 * 0x1_0000_0000);
                assert(q < 0x1_0000_0000) by (nonlinear_arith)
                    requires
                        cur < d as u64 * 0x1_0000_0000,
                        q == cur / d as u64,
                        d > 0,
                ;
            }
            quotient.set(i, q as u32);
            proof {
                lemma_value_skip(self.limbs@, i as int);
                lemma_value_skip(quotient@, i as int);
                assert(quotient@.skip(i + 1) =~= before.skip(i + 1));
                let upper = limbs_value(quotient@.skip(i + 1));
                let r2 = (cur % d as u64) as nat;
                assert(cur as nat == d as nat * q as nat + r2) by (nonlinear_arith)
                    requires
                        q == cur / d as u64,
                        r2 == (cur % d as u64) as nat,
                        d > 0,
                ;
                assert(d as nat * (q as nat + 0x1_0000_0000 * upper) == d as nat * q as nat + 0x1_0000_0000
                    * (d as nat * upper)) by (nonlinear_arith);
            }
            rem = cur % d as u64;
        }
        proof {
            assert(self.limbs@.skip(0) =~= self.limbs@);
            assert(quotient@.skip(0) =~= quotient@);
            let q = limbs_value(quotient@);
            assert(d as int * q as int == q as int * d as int) by (nonlinear_arith);
            lemma_fundamental_div_mod_converse(self@ as int, d as int, q as int, rem as int);
        }
        (BigUint { limbs: trim(quotient) }, rem as u32)
    }

    /// The number of binary digits, `usize::MAX` where it exceeds that.
    pub fn bits(&self) -> (r: usize)
        ensures
            r as nat == bit_length(self@) || (r == usize::MAX && bit_length(self@) > usize::MAX),
    {
        let mut rest = self.clone();
        let mut count: usize = 0;
        while !rest.is_zero()
            invariant
                count as nat + bit_length(rest@) == bit_length(self@),
            decreases rest@,
        {
            if count == usize::MAX {
                return usize::MAX;
            }
            rest = rest.divide_small(2).0;
            count = count + 1;
        }
        count
    }

    /// The number shifted right by `k` binary digits.
    pub fn shift_right(&self, k: usize) -> (r: Self)
        ensures
            r@ == self@ / pow2(k as nat),
    {
        let mut rest = self.clone();
        let mut done: usize = 0;
        proof {
            lemma2_to64();
        }
        while done < k
            invariant
                done <= k,
                rest@ == self@ / pow2(done as nat),
            decreases k - done,
        {
            proof {
                lemma_pow2_pos(done as nat);
                lemma_pow2_pos(k as nat);
            }
            if rest.is_zero() {
                proof {
                    lemma_zero_quotient(self@, done as nat, k as nat);
                }
                return rest;
            }
            proof {
                lemma_div_denominator(self@ as int, pow2(done as nat) as int, 2);
                lemma_pow2_unfold((done + 1) as nat);
                assert(pow2(done as nat) * 2 == 2 * pow2(done as nat));
            }
            rest = rest.divide_small(2).0;
            done = done + 1;
        }
        rest
    }

    /// The number shifted left by `k` binary digits.
    pub fn shift_left(&self, k: usize) -> (r: Self)
        ensures
            r@ == self@ * pow2(k as nat),
    {
        let mut acc = self.clone();
        let mut done: usize = 0;
        proof {
            lemma2_to64();
            assert(self@ * pow2(0) == self@);
        }
        while done < k
            invariant
                done <= k,
                acc@ == self@ * pow2(done as nat),
            decreases k - done,
        {
            acc = acc.plus(&acc);
            done = done + 1;
            proof {
                lemma_pow2_unfold(done as nat);
                let p = pow2((done - 1) as nat);
                assert(self@ * p + self@ * p == self@ * (2 * p)) by (nonlinear_arith);
            }
        }
        acc
    }

    /// The low `keep` binary digits.
    pub fn low_bits(&self, keep: usize) -> (r: Self)
        ensures
            r@ == self@ % pow2(keep as nat),
    {
        let high = self.shift_right(keep).shift_left(keep);
        proof {
            lemma_pow2_pos(keep as nat);
            vstd::arithmetic::div_mod::lemma_fundamental_div_mod(
                self@ as int,
                pow2(keep as nat) as int,
            );
            let q = self@ / pow2(keep as nat);
            assert(q * pow2(keep as nat) == pow2(keep as nat) * q) by (nonlinear_arith);
        }
        self.minus(&high)
    }

    /// The power of two `2^k`.
    pub fn power_of_two(k: usize) -> (r: Self)
        ensures
            r@ == pow2(k as nat),
    {
        let mut acc = BigUint::from_u128(1);
        let mut done: usize = 0;
        proof {
            lemma2_to64();
        }
        while done < k
            invariant
                done <= k,
                acc@ == pow2(done as nat),
            decreases k - done,
        {
            acc = acc.plus(&acc);
            done = done + 1;
            proof {
                lemma_pow2_unfold(done as nat);
            }
        }
        acc
    }

    /// The number whose little-endian bytes are `bytes`.
    pub fn from_bytes_le(bytes: &[u8]) -> (r: Self)
        ensures
            r@ == bytes_value(bytes@),
    {
        let mut limbs: Vec<u32> = Vec::new();
        let mut i: usize = 0;
        proof {
            assert(bytes@.skip(0) =~= bytes@);
            assert(limb_weight(0) == 1);
            assert(bytes_value(bytes@) * 1 == bytes_value(bytes@));
        }
        while i < bytes.len()
            invariant
                i <= bytes@.len(),
                bytes_value(bytes@) == limbs_value(limbs@) + bytes_value(bytes@.skip(i as int))
                    * limb_weight(limbs@.len()),
            decreases bytes@.len() - i,
        {
            let b0: u32 = byte_at(bytes, i) as u32;
            let b1: u32 = byte_at(bytes, i.saturating_add(1)) as u32;
            let b2: u32 = byte_at(bytes, i.saturating_add(2)) as u32;
            let b3: u32 = byte_at(bytes, i.saturating_add(3)) as u32;
            let limb: u32 = b0 + 0x100 * b1 + 0x1_0000 * b2 + 0x100_0000 * b3;
            let next: usize = if bytes.len() - i < 4 {
                bytes.len()
            } else {
                i + 4
            };
            proof {
                lemma_four_bytes(bytes@, i as int, next as int);
                lemma_value_push(limbs@, limb);
                let w = limb_weight(limbs@.len());
                let rest = bytes_value(bytes@.skip(next as int));
                assert((limb as nat + 0x1_0000_0000 * rest) * w == limb as nat * w + rest * (
                0x1_0000_0000 * w)) by (nonlinear_arith);
            }
            limbs.push(limb);
            i = next;
        }
        proof {
            assert(bytes@.skip(bytes@.len() as int) =~= Seq::<u8>::empty());
            assert(0 * limb_weight(limbs@.len()) == 0);
        }
        BigUint { limbs: trim(limbs) }
    }

    /// The low `count` little-endian bytes.
    pub fn to_bytes_le(&self, count: usize) -> (r: Vec<u8>)
        ensures
            r@.len() == count,
            forall|i: int|
                0 <= i < count ==> r@[i] as nat == (self@ / pow2((8 * i) as nat)) % 256,
    {
        let mut out: Vec<u8> = Vec::new();
        let mut rest = self.clone();
        proof {
            lemma2_to64();
            assert(pow2((8 * out@.len()) as nat) == 1);
        }
        while out.len() < count
            invariant
                out@.len() <= count,
                rest@ == self@ / pow2((8 * out@.len()) as nat),
                forall|i: int|
                    0 <= i < out@.len() ==> out@[i] as nat == (self@ / pow2((8 * i) as nat)) % 256,
            decreases count - out@.len(),
        {
            let (q, b) = rest.divide_small(256);
            proof {
                let k = (8 * out@.len()) as nat;
                lemma_pow2_pos(k);
                lemma2_to64();
                vstd::arithmetic::power2::lemma_pow2_adds(k, 8);
                lemma_div_denominator(self@ as int, pow2(k) as int, 256);
                assert(pow2(8) == 256);
            }
            out.push(b as u8);
            rest = q;
        }
        out
    }
}

proof fn lemma_zero_quotient(n: nat, a: nat, b: nat)
    requires
        a <= b,
        n / pow2(a) == 0,
    ensures
        n / pow2(b) == 0,
    decreases b - a,
{
    if a < b {
        lemma_pow2_pos(a);
        lemma_div_denominator(n as int, pow2(a) as int, 2);
        lemma_pow2_unfold((a + 1) as nat);
        assert(pow2(a) * 2 == 2 * pow2(a));
        lemma_zero_quotient(n, a + 1, b);
    }
}

/// The natural number that little-endian bytes stand for.
pub open spec fn bytes_value(s: Seq<u8>) -> nat
    decreases s.len(),
{
    if s.len() == 0 {
        0
    } else {
        s[0] as nat + 256 * bytes_value(s.skip(1))
    }
}

spec fn byte_or_zero(s: Seq<u8>, i: int) -> nat {
    if 0 <= i < s.len() {
        s[i] as nat
    } else {
        0
    }
}

proof fn lemma_one_byte(s: Seq<u8>, i: int)
    requires
        0 <= i,
    ensures
        bytes_value(s.skip(if i < s.len() {
            i
        } else {
            s.len() as int
        })) == byte_or_zero(s, i) + 256 * bytes_value(s.skip(if i + 1 < s.len() {
            i + 1
        } else {
            s.len() as int
        })),
{
    assert(s.skip(s.len() as int) =~= Seq::<u8>::empty());
    if i < s.len() {
        assert(s.skip(i).skip(1) =~= s.skip(i + 1));
        if i + 1 == s.len() {
            assert(s.skip(i + 1) =~= s.skip(s.len() as int));
        }
    }
}

proof fn lemma_four_bytes(s: Seq<u8>, i: int, next: int)
    requires
        0 <= i < s.len(),
        next == if s.len() - i < 4 {
            s.len() as int
        } else {
            i + 4
        },
    ensures
        bytes_value(s.skip(i)) == byte_or_zero(s, i) + 0x100 * byte_or_zero(s, i + 1) + 0x1_0000
            * byte_or_zero(s, i + 2) + 0x100_0000 * byte_or_zero(s, i + 3) + 0x1_0000_0000
            * bytes_value(s.skip(next)),
{
    lemma_one_byte(s, i);
    lemma_one_byte(s, i + 1);
    lemma_one_byte(s, i + 2);
    lemma_one_byte(s, i + 3);
}

fn byte_at(bytes: &[u8], i: usize) -> (r: u8)
    ensures
        r as nat == byte_or_zero(bytes@, i as int),
{
    if i < bytes.len() {
        bytes[i]
    } else {
        0
    }
}

/// `s` lengthened with zero limbs to `n` limbs.
spec fn padded(s: Seq<u32>, n: nat) -> Seq<u32> {
    Seq::new(
        n,
        |i: int|
            if i < s.len() {
                s[i]
            } else {
                0u32
            },
    )
}

proof fn lemma_padded(s: Seq<u32>, n: nat)
    requires
        s.len() <= n,
    ensures
        limbs_value(padded(s, n)) == limbs_value(s),
    decreases n,
{
    if n > 0 {
        if s.len() > 0 {
            assert(padded(s, n).skip(1) =~= padded(s.skip(1), (n - 1) as nat));
            lemma_padded(s.skip(1), (n - 1) as nat);
        } else {
            assert(padded(s, n).skip(1) =~= padded(s, (n - 1) as nat));
            lemma_padded(s, (n - 1) as nat);
        }
    } else {
        assert(padded(s, n) =~= s);
    }
}

/// `limbs` without its high zero limbs.
fn trim(limbs: Vec<u32>) -> (r: Vec<u32>)
    ensures
        limbs_value(r@) == limbs_value(limbs@),
        r@ == limbs@.take(r@.len() as int),
        r@.len() <= limbs@.len(),
        forall|i: int| r@.len() <= i < limbs@.len() ==> #[trigger] limbs@[i] == 0,
        r@.len() > 0 ==> r@.last() != 0,
{
    let mut out = limbs;
    assert(out@ =~= limbs@.take(out@.len() as int));
    while out.len() > 0 && out[out.len() - 1] == 0
        invariant
            limbs_value(out@) == limbs_value(limbs@),
            out@ == limbs@.take(out@.len() as int),
            out@.len() <= limbs@.len(),
            forall|i: int| out@.len() <= i < limbs@.len() ==> #[trigger] limbs@[i] == 0,
        decreases out@.len(),
    {
        let ghost before = out@;
        out.pop();
        proof {
            assert(limbs@[before.len() - 1] == before[before.len() - 1]);
            assert(out@ =~= limbs@.take(out@.len() as int));
            assert(before =~= out@.push(0u32));
            lemma_value_push(out@, 0);
            assert(0 * limb_weight(out@.len()) == 0);
        }
    }
    out
}

/// An integer of any size.
#[derive(Debug)]
pub struct BigInt {
    negative: bool,
    magnitude: BigUint,
}

impl View for BigInt {
    type V = int;

    closed spec fn view(&self) -> int {
        if self.negative {
            -(self.magnitude@ as int)
        } else {
            self.magnitude@ as int
        }
    }
}

impl Clone for BigInt {
    fn clone(&self) -> (r: Self)
        ensures
            r@ == self@,
    {
        BigInt { negative: self.negative, magnitude: self.magnitude.clone() }
    }
}

impl PartialEq for BigInt {
    fn eq(&self, other: &Self) -> (r: bool) {
        self.compare(other) == Comparison::Equal
    }
}

impl vstd::std_specs::cmp::PartialEqSpecImpl for BigInt {
    open spec fn obeys_eq_spec() -> bool {
        true
    }

    open spec fn eq_spec(&self, other: &Self) -> bool {
        self@ == other@
    }
}

impl Eq for BigInt {

}

/// The absolute value of an integer.
pub open spec fn magnitude_of(n: int) -> nat {
    if n < 0 {
        (-n) as nat
    } else {
        n as nat
    }
}

impl BigInt {
    /// Zero.
    pub fn zero() -> (r: Self)
        ensures
            r@ == 0,
    {
        BigInt { negative: false, magnitude: BigUint::zero() }
    }

    /// The integer `n`.
    pub fn from_u128(n: u128) -> (r: Self)
        ensures
            r@ == n,
    {
        BigInt { negative: false, magnitude: BigUint::from_u128(n) }
    }

    /// The integer `n`.
    pub fn from_i128(n: i128) -> (r: Self)
        ensures
            r@ == n,
    {
        if n < 0 {
            let below: u128 = (-(n + 1)) as u128;
            BigInt { negative: true, magnitude: BigUint::from_u128(below + 1) }
        } else {
            BigInt { negative: false, magnitude: BigUint::from_u128(n as u128) }
        }
    }

    /// The integer `n`.
    pub fn from_u64(n: u64) -> (r: Self)
        ensures
            r@ == n,
    {
        BigInt::from_u128(n as u128)
    }

    /// The integer `n`.
    pub fn from_i64(n: i64) -> (r: Self)
        ensures
            r@ == n,
    {
        BigInt::from_i128(n as i128)
    }

    /// The integer `n`.
    pub fn from_magnitude(n: BigUint) -> (r: Self)
        ensures
            r@ == n@,
    {
        BigInt { negative: false, magnitude: n }
    }

    /// The integer as an `i128`, where it fits.
    pub fn to_i128(&self) -> (r: Option<i128>)
        ensures
            r == (if i128::MIN <= self@ <= i128::MAX {
                Some(self@ as i128)
            } else {
                None
            }),
    {
        match self.magnitude.to_u128() {
            None => None,
            Some(m) => {
                if self.negative {
                    if m <= 0x7fff_ffff_ffff_ffff_ffff_ffff_ffff_ffff {
                        Some(-(m as i128))
                    } else if m == 0x8000_0000_0000_0000_0000_0000_0000_0000 {
                        Some(i128::MIN)
                    } else {
                        None
                    }
                } else if m <= 0x7fff_ffff_ffff_ffff_ffff_ffff_ffff_ffff {
                    Some(m as i128)
                } else {
                    None
                }
            },
        }
    }

    /// The integer as an `i64`, where it fits.
    pub fn to_i64(&self) -> (r: Option<i64>)
        ensures
            r == (if i64::MIN <= self@ <= i64::MAX {
                Some(self@ as i64)
            } else {
                None
            }),
    {
        match self.to_i128() {
            None => None,
            Some(n) => {
                if -0x8000_0000_0000_0000 <= n && n <= 0x7fff_ffff_ffff_ffff {
                    Some(n as i64)
                } else {
                    None
                }
            },
        }
    }

    /// The integer as a `u64`, where it fits.
    pub fn to_u64(&self) -> (r: Option<u64>)
        ensures
            r == (if 0 <= self@ <= u64::MAX {
                Some(self@ as u64)
            } else {
                None
            }),
    {
        match self.to_i128() {
            None => None,
            Some(n) => {
                if 0 <= n && n <= 0xffff_ffff_ffff_ffff {
                    Some(n as u64)
                } else {
                    None
                }
            },
        }
    }

    /// How `self` stands to `other`.
    pub fn compare(&self, other: &Self) -> (r: Comparison)
        ensures
            r == comparison(self@, other@),
    {
        let a = self.is_negative();
        let b = other.is_negative();
        if a && !b {
            Comparison::Less
        } else if b && !a {
            Comparison::Greater
        } else if a {
            other.magnitude.compare(&self.magnitude)
        } else {
            self.magnitude.compare(&other.magnitude)
        }
    }

    /// Whether `self < other`.
    pub fn less(&self, other: &Self) -> (r: bool)
        ensures
            r == (self@ < other@),
    {
        self.compare(other) == Comparison::Less
    }

    /// Whether `self <= other`.
    pub fn at_most(&self, other: &Self) -> (r: bool)
        ensures
            r == (self@ <= other@),
    {
        self.compare(other) != Comparison::Greater
    }

    /// Whether the integer is below zero.
    pub fn is_negative(&self) -> (r: bool)
        ensures
            r == (self@ < 0),
    {
        self.negative && !self.magnitude.is_zero()
    }

    /// Whether the integer is above zero.
    pub fn is_positive(&self) -> (r: bool)
        ensures
            r == (self@ > 0),
    {
        !self.negative && !self.magnitude.is_zero()
    }

    /// The absolute value.
    pub fn magnitude(&self) -> (r: BigUint)
        ensures
            r@ == magnitude_of(self@),
    {
        self.magnitude.clone()
    }

    /// The integer with its sign changed.
    pub fn negated(&self) -> (r: Self)
        ensures
            r@ == -self@,
    {
        BigInt { negative: !self.negative, magnitude: self.magnitude.clone() }
    }

    /// The sum.
    pub fn plus(&self, other: &Self) -> (r: Self)
        ensures
            r@ == self@ + other@,
    {
        if self.negative == other.negative {
            BigInt { negative: self.negative, magnitude: self.magnitude.plus(&other.magnitude) }
        } else if self.magnitude.compare(&other.magnitude) == Comparison::Less {
            BigInt { negative: other.negative, magnitude: other.magnitude.minus(&self.magnitude) }
        } else {
            BigInt { negative: self.negative, magnitude: self.magnitude.minus(&other.magnitude) }
        }
    }

    /// The difference `self - other`.
    pub fn minus(&self, other: &Self) -> (r: Self)
        ensures
            r@ == self@ - other@,
    {
        self.plus(&other.negated())
    }

    /// The larger of the two.
    pub fn larger(&self, other: &Self) -> (r: Self)
        ensures
            r@ == if self@ < other@ {
                other@
            } else {
                self@
            },
    {
        if self.less(other) {
            other.clone()
        } else {
            self.clone()
        }
    }
}

} // verus!
