//! Integers that bugs like: small numbers, powers, factorials and the limits of
//! the machine's integer types.
use vstd::arithmetic::power::lemma_pow_increases;
use vstd::arithmetic::power::pow;
use vstd::arithmetic::power2::lemma2_to64;
use vstd::arithmetic::power2::lemma2_to64_rest;
use vstd::arithmetic::power2::lemma_pow2_strictly_increases;
use vstd::arithmetic::power2::lemma_pow2_unfold;
use vstd::arithmetic::power2::pow2;
use vstd::prelude::*;

verus! {

/// Whether a sequence is in strictly rising order.
pub open spec fn ascending(s: Seq<i128>) -> bool {
    forall|i: int, j: int| 0 <= i < j < s.len() ==> s[i] < s[j]
}

/// The factorial.
pub open spec fn factorial(n: nat) -> nat
    decreases n,
{
    if n == 0 {
        1
    } else {
        n * factorial((n - 1) as nat)
    }
}

/// Whether a number is a product of the first seven, ten, thirteen or sixteen
/// primes.
pub open spec fn is_primorial(v: int) -> bool {
    v == 510_510 || v == 6_469_693_230 || v == 304_250_263_527_210 || v
        == 32_589_158_477_190_044_730
}

/// Whether a number is a large constant or lies next to one: a power of two
/// from the sixteenth to the sixty-fifth, a power of ten from the fifth to the
/// nineteenth, a factorial from that of nine to that of twenty, or a
/// primorial.
pub open spec fn is_large_base(v: int) -> bool {
    ||| exists|n: nat| 16 <= n < 66 && v == #[trigger] pow2(n)
    ||| exists|n: nat| 5 <= n < 20 && v == #[trigger] pow(10, n)
    ||| exists|n: nat| 9 <= n <= 20 && v == #[trigger] factorial(n)
    ||| is_primorial(v)
}

/// Whether a number is a large constant, one next to one, or the negative of
/// such a number.
pub open spec fn is_large_constant(v: int) -> bool {
    ||| is_large_base(v)
    ||| is_large_base(v - 1)
    ||| is_large_base(v + 1)
    ||| is_large_base(-v)
    ||| is_large_base(-v - 1)
    ||| is_large_base(-v + 1)
}

/// Whether a number is among the interesting ones: up to eight, a power of two
/// up to the thirteenth or one below it, either sign, and the limits of the
/// machine's integer types.
pub open spec fn is_interesting(v: int) -> bool {
    ||| -8 <= v <= 8
    ||| v == 15 || v == -15 || v == 16 || v == -16 || v == 31 || v == -31 || v == 32 || v == -32
    ||| v == 63 || v == -63 || v == 64 || v == -64 || v == 127 || v == -127 || v == 128 || v == -128
    ||| v == 255 || v == -255 || v == 256 || v == -256 || v == 511 || v == -511 || v == 512 || v
        == -512
    ||| v == 1023 || v == -1023 || v == 1024 || v == -1024 || v == 2047 || v == -2047 || v == 2048
        || v == -2048
    ||| v == 4095 || v == -4095 || v == 4096 || v == -4096 || v == 8191 || v == -8191 || v == 8192
        || v == -8192
    ||| v == i16::MAX || v == i16::MIN || v == i32::MAX || v == i32::MIN || v == i64::MAX || v
        == i64::MIN
}

/// How many members of a pool are below `x`.
pub fn first_at_least(pool: &Vec<i128>, x: i128) -> (r: usize)
    requires
        ascending(pool@),
    ensures
        r <= pool@.len(),
        forall|i: int| 0 <= i < r ==> pool@[i] < x,
        forall|i: int| r <= i < pool@.len() ==> pool@[i] >= x,
{
    let mut lo: usize = 0;
    let mut hi: usize = pool.len();
    while lo < hi
        invariant
            lo <= hi <= pool@.len(),
            ascending(pool@),
            forall|i: int| 0 <= i < lo ==> pool@[i] < x,
            forall|i: int| hi <= i < pool@.len() ==> pool@[i] >= x,
        decreases hi - lo,
    {
        let mid: usize = lo + (hi - lo) / 2;
        if pool[mid] < x {
            assert forall|i: int| 0 <= i < mid + 1 implies pool@[i] < x by {
                assert(pool@[i] <= pool@[mid as int]);
            }
            lo = mid + 1;
        } else {
            assert forall|i: int| mid <= i < pool@.len() implies pool@[i] >= x by {
                assert(pool@[i] >= pool@[mid as int]);
            }
            hi = mid;
        }
    }
    lo
}

/// How many members of a pool are at most `x`.
pub fn first_above(pool: &Vec<i128>, x: i128) -> (r: usize)
    requires
        ascending(pool@),
    ensures
        r <= pool@.len(),
        forall|i: int| 0 <= i < r ==> pool@[i] <= x,
        forall|i: int| r <= i < pool@.len() ==> pool@[i] > x,
{
    let at: usize = first_at_least(pool, x);
    if at < pool.len() && pool[at] == x {
        at + 1
    } else {
        at
    }
}

/// Adds a number to a pool, unless it is there.
fn add_to_pool(pool: &mut Vec<i128>, x: i128)
    requires
        ascending(old(pool)@),
    ensures
        ascending(final(pool)@),
        forall|v: i128|
            #![trigger final(pool)@.contains(v)]
            final(pool)@.contains(v) <==> old(pool)@.contains(v) || v == x,
{
    let at: usize = first_at_least(pool, x);
    if at < pool.len() && pool[at] == x {
        assert(pool@.contains(x));
        return;
    }
    let ghost before = pool@;
    pool.insert(at, x);
    proof {
        let after = pool@;
        assert(after == before.insert(at as int, x));
        assert forall|v: i128|
            #![trigger after.contains(v)]
            after.contains(v) <==> before.contains(v) || v == x by {
            if after.contains(v) {
                let i = choose|i: int| 0 <= i < after.len() && after[i] == v;
                if i < at {
                    assert(before[i] == v);
                } else if i > at {
                    assert(before[i - 1] == v);
                }
            }
            if before.contains(v) {
                let i = choose|i: int| 0 <= i < before.len() && before[i] == v;
                if i < at {
                    assert(after[i] == v);
                } else {
                    assert(after[i + 1] == v);
                }
            }
            assert(after[at as int] == x);
        }
    }
}

/// Whether a pool holds the numbers that satisfy `p`, each once, in order.
pub open spec fn holds_exactly(pool: Seq<i128>, p: spec_fn(int) -> bool) -> bool {
    &&& ascending(pool)
    &&& forall|v: i128| #[trigger] pool.contains(v) <==> p(v as int)
}

/// The interesting numbers, in order.
pub fn interesting_integers() -> (r: Vec<i128>)
    ensures
        holds_exactly(r@, |v: int| is_interesting(v)),
{
    let mut pool: Vec<i128> = Vec::new();
    let mut small: i128 = -8;
    while small <= 8
        invariant
            -8 <= small <= 9,
            ascending(pool@),
            forall|v: i128| #[trigger] pool@.contains(v) <==> -8 <= v < small,
        decreases 9 - small,
    {
        add_to_pool(&mut pool, small);
        small = small + 1;
    }
    add_both_signs(&mut pool, 15);
    add_both_signs(&mut pool, 16);
    add_both_signs(&mut pool, 31);
    add_both_signs(&mut pool, 32);
    add_both_signs(&mut pool, 63);
    add_both_signs(&mut pool, 64);
    add_both_signs(&mut pool, 127);
    add_both_signs(&mut pool, 128);
    add_both_signs(&mut pool, 255);
    add_both_signs(&mut pool, 256);
    add_both_signs(&mut pool, 511);
    add_both_signs(&mut pool, 512);
    add_both_signs(&mut pool, 1023);
    add_both_signs(&mut pool, 1024);
    add_both_signs(&mut pool, 2047);
    add_both_signs(&mut pool, 2048);
    add_both_signs(&mut pool, 4095);
    add_both_signs(&mut pool, 4096);
    add_both_signs(&mut pool, 8191);
    add_both_signs(&mut pool, 8192);
    add_to_pool(&mut pool, i16::MAX as i128);
    add_to_pool(&mut pool, i16::MIN as i128);
    add_to_pool(&mut pool, i32::MAX as i128);
    add_to_pool(&mut pool, i32::MIN as i128);
    add_to_pool(&mut pool, i64::MAX as i128);
    add_to_pool(&mut pool, i64::MIN as i128);
    pool
}

/// Adds a number and its negative to a pool.
fn add_both_signs(pool: &mut Vec<i128>, x: i128)
    requires
        ascending(old(pool)@),
        x > i128::MIN,
    ensures
        ascending(final(pool)@),
        forall|v: i128|
            #![trigger final(pool)@.contains(v)]
            final(pool)@.contains(v) <==> old(pool)@.contains(v) || v == x || v == -x,
{
    add_to_pool(pool, x);
    add_to_pool(pool, -x);
}

/// Whether a number is a base or next to it, up to its sign.
pub open spec fn is_beside(v: int, base: int) -> bool {
    v == base || v == base + 1 || v == base - 1 || -v == base || -v == base + 1 || -v == base - 1
}

/// Adds a number, the ones next to it, and their negatives to a pool.
fn add_around(pool: &mut Vec<i128>, base: i128)
    requires
        ascending(old(pool)@),
        0 < base < i128::MAX,
    ensures
        ascending(final(pool)@),
        forall|v: i128|
            #![trigger final(pool)@.contains(v)]
            final(pool)@.contains(v) <==> old(pool)@.contains(v) || is_beside(
                v as int,
                base as int,
            ),
{
    add_both_signs(pool, base);
    add_both_signs(pool, base - 1);
    add_both_signs(pool, base + 1);
}

/// Whether a number lies beside a power of two from the sixteenth to below the
/// `n`th.
spec fn beside_powers_of_two(v: int, n: nat) -> bool {
    exists|k: nat| 16 <= k < n && is_beside(v, #[trigger] pow2(k) as int)
}

spec fn beside_powers_of_ten(v: int, n: nat) -> bool {
    exists|k: nat| 5 <= k < n && is_beside(v, #[trigger] pow(10, k))
}

spec fn beside_factorials(v: int, n: nat) -> bool {
    exists|k: nat| 9 <= k < n && is_beside(v, #[trigger] factorial(k) as int)
}

/// Adds the powers of two and what lies beside them.
fn add_powers_of_two(pool: &mut Vec<i128>)
    requires
        ascending(old(pool)@),
    ensures
        ascending(final(pool)@),
        forall|v: i128|
            #![trigger final(pool)@.contains(v)]
            final(pool)@.contains(v) <==> old(pool)@.contains(v) || beside_powers_of_two(
                v as int,
                66,
            ),
{
    let ghost start = pool@;
    let mut p: i128 = 0x1_0000;
    let mut n: u32 = 16;
    proof {
        lemma2_to64();
        lemma2_to64_rest();
        lemma_pow2_unfold(65);
        lemma_pow2_unfold(66);
    }
    while n < 66
        invariant
            16 <= n <= 66,
            p == pow2(n as nat),
            0 < p <= pow2(66),
            pow2(66) == 0x4_0000_0000_0000_0000,
            ascending(pool@),
            forall|v: i128|
                #![trigger pool@.contains(v)]
                pool@.contains(v) <==> start.contains(v) || beside_powers_of_two(
                    v as int,
                    n as nat,
                ),
        decreases 66 - n,
    {
        let ghost before = pool@;
        add_around(pool, p);
        proof {
            assert forall|v: i128| true implies (beside_powers_of_two(v as int, (n + 1) as nat)
                <==> beside_powers_of_two(v as int, n as nat) || is_beside(v as int, p as int))
            by {
                if is_beside(v as int, p as int) {
                    assert(is_beside(v as int, pow2(n as nat) as int));
                }
            }
            lemma_pow2_unfold((n + 1) as nat);
            if n + 1 < 66 {
                lemma_pow2_strictly_increases((n + 1) as nat, 66);
            }
        }
        p = p * 2;
        n = n + 1;
    }
}

/// Adds the powers of ten and what lies beside them.
fn add_powers_of_ten(pool: &mut Vec<i128>)
    requires
        ascending(old(pool)@),
    ensures
        ascending(final(pool)@),
        forall|v: i128|
            #![trigger final(pool)@.contains(v)]
            final(pool)@.contains(v) <==> old(pool)@.contains(v) || beside_powers_of_ten(
                v as int,
                20,
            ),
{
    let ghost start = pool@;
    let mut p: i128 = 100_000;
    let mut n: u32 = 5;
    proof {
        reveal_with_fuel(pow, 21);
        assert(pow(10, 5) == 100_000);
        assert(pow(10, 20) == 100_000_000_000_000_000_000);
    }
    while n < 20
        invariant
            5 <= n <= 20,
            p == pow(10, n as nat),
            0 < p <= pow(10, 20),
            pow(10, 20) == 100_000_000_000_000_000_000,
            ascending(pool@),
            forall|v: i128|
                #![trigger pool@.contains(v)]
                pool@.contains(v) <==> start.contains(v) || beside_powers_of_ten(
                    v as int,
                    n as nat,
                ),
        decreases 20 - n,
    {
        let ghost before = pool@;
        add_around(pool, p);
        proof {
            assert forall|v: i128| true implies (beside_powers_of_ten(v as int, (n + 1) as nat)
                <==> beside_powers_of_ten(v as int, n as nat) || is_beside(v as int, p as int))
            by {
                if is_beside(v as int, p as int) {
                    assert(is_beside(v as int, pow(10, n as nat)));
                }
            }
            reveal(pow);
            assert(pow(10, (n + 1) as nat) == 10 * pow(10, n as nat));
            lemma_pow_increases(10, (n + 1) as nat, 20);
        }
        p = p * 10;
        n = n + 1;
    }
}

proof fn lemma_factorial_increases(a: nat, b: nat)
    requires
        a <= b,
    ensures
        0 < factorial(a) <= factorial(b),
    decreases b,
{
    if b > 0 {
        let c = (b - 1) as nat;
        if a < b {
            lemma_factorial_increases(a, c);
        } else {
            lemma_factorial_increases(0, c);
        }
        assert(b * factorial(c) >= factorial(c)) by (nonlinear_arith)
            requires
                b >= 1,
                factorial(c) >= 0,
        ;
    }
}

/// Adds the factorials and what lies beside them.
fn add_factorials(pool: &mut Vec<i128>)
    requires
        ascending(old(pool)@),
    ensures
        ascending(final(pool)@),
        forall|v: i128|
            #![trigger final(pool)@.contains(v)]
            final(pool)@.contains(v) <==> old(pool)@.contains(v) || beside_factorials(v as int, 21),
{
    let ghost start = pool@;
    let mut f: i128 = 362_880;
    let mut n: u32 = 9;
    proof {
        reveal_with_fuel(factorial, 22);
        assert(factorial(9) == 362_880);
        assert(factorial(21) == 51_090_942_171_709_440_000);
    }
    while n < 21
        invariant
            9 <= n <= 21,
            f == factorial(n as nat),
            0 < f <= factorial(21),
            factorial(21) == 51_090_942_171_709_440_000,
            ascending(pool@),
            forall|v: i128|
                #![trigger pool@.contains(v)]
                pool@.contains(v) <==> start.contains(v) || beside_factorials(v as int, n as nat),
        decreases 21 - n,
    {
        add_around(pool, f);
        proof {
            assert forall|v: i128| true implies (beside_factorials(v as int, (n + 1) as nat)
                <==> beside_factorials(v as int, n as nat) || is_beside(v as int, f as int)) by {
                if is_beside(v as int, f as int) {
                    assert(is_beside(v as int, factorial(n as nat) as int));
                }
            }
            lemma_factorial_increases((n + 1) as nat, 21);
            assert(factorial((n + 1) as nat) == (n + 1) * factorial(n as nat));
            assert(f * (n + 1) == (n + 1) * factorial(n as nat)) by (nonlinear_arith)
                requires
                    f == factorial(n as nat),
            ;
        }
        n = n + 1;
        f = f * (n as i128);
    }
}

proof fn lemma_beside(v: int)
    ensures
        is_large_constant(v) <==> beside_powers_of_two(v, 66) || beside_powers_of_ten(v, 20)
            || beside_factorials(v, 21) || is_beside(v, 510_510) || is_beside(v, 6_469_693_230)
            || is_beside(v, 304_250_263_527_210) || is_beside(v, 32_589_158_477_190_044_730),
{
    let others = beside_powers_of_two(v, 66) || beside_powers_of_ten(v, 20) || beside_factorials(
        v,
        21,
    ) || is_beside(v, 510_510) || is_beside(v, 6_469_693_230) || is_beside(v, 304_250_263_527_210)
        || is_beside(v, 32_589_158_477_190_044_730);
    assert forall|b: int| is_large_base(b) && is_beside(v, b) implies others by {
        if exists|n: nat| 16 <= n < 66 && b == #[trigger] pow2(n) {
            let n = choose|n: nat| 16 <= n < 66 && b == #[trigger] pow2(n);
            assert(is_beside(v, pow2(n) as int));
        } else if exists|n: nat| 5 <= n < 20 && b == #[trigger] pow(10, n) {
            let n = choose|n: nat| 5 <= n < 20 && b == #[trigger] pow(10, n);
            assert(is_beside(v, pow(10, n)));
        } else if exists|n: nat| 9 <= n <= 20 && b == #[trigger] factorial(n) {
            let n = choose|n: nat| 9 <= n <= 20 && b == #[trigger] factorial(n);
            assert(is_beside(v, factorial(n) as int));
        }
    }
    if is_large_constant(v) {
        assert(is_beside(v, v) && is_beside(v, v - 1) && is_beside(v, v + 1) && is_beside(v, -v)
            && is_beside(v, -v - 1) && is_beside(v, -v + 1));
    }
    if others {
        let b = if beside_powers_of_two(v, 66) {
            pow2(choose|k: nat| 16 <= k < 66 && is_beside(v, #[trigger] pow2(k) as int)) as int
        } else if beside_powers_of_ten(v, 20) {
            pow(10, choose|k: nat| 5 <= k < 20 && is_beside(v, #[trigger] pow(10, k)))
        } else if beside_factorials(v, 21) {
            factorial(
                choose|k: nat| 9 <= k < 21 && is_beside(v, #[trigger] factorial(k) as int),
            ) as int
        } else if is_beside(v, 510_510) {
            510_510
        } else if is_beside(v, 6_469_693_230) {
            6_469_693_230
        } else if is_beside(v, 304_250_263_527_210) {
            304_250_263_527_210
        } else {
            32_589_158_477_190_044_730
        };
        assert(is_large_base(b) && is_beside(v, b));
    }
}

/// The large constants, in order.
pub fn global_constants_integers() -> (r: Vec<i128>)
    ensures
        holds_exactly(r@, |v: int| is_large_constant(v)),
{
    let mut pool: Vec<i128> = Vec::new();
    add_powers_of_two(&mut pool);
    add_powers_of_ten(&mut pool);
    add_factorials(&mut pool);
    add_around(&mut pool, 510_510);
    add_around(&mut pool, 6_469_693_230);
    add_around(&mut pool, 304_250_263_527_210);
    add_around(&mut pool, 32_589_158_477_190_044_730);
    proof {
        assert forall|v: i128| #[trigger] pool@.contains(v) <==> is_large_constant(v as int) by {
            lemma_beside(v as int);
        }
    }
    pool
}

/// All numbers of two pools, in order.
fn merged(a: &Vec<i128>, b: &Vec<i128>) -> (r: Vec<i128>)
    requires
        ascending(a@),
        ascending(b@),
    ensures
        ascending(r@),
        forall|v: i128| #[trigger] r@.contains(v) <==> a@.contains(v) || b@.contains(v),
{
    let mut out: Vec<i128> = Vec::new();
    let mut i: usize = 0;
    while i < a.len()
        invariant
            i <= a@.len(),
            ascending(out@),
            forall|v: i128| #[trigger] out@.contains(v) <==> a@.take(i as int).contains(v),
        decreases a@.len() - i,
    {
        add_to_pool(&mut out, a[i]);
        proof {
            lemma_take_contains(a@, i as int);
        }
        i = i + 1;
    }
    assert(a@.take(i as int) =~= a@);
    let mut j: usize = 0;
    while j < b.len()
        invariant
            j <= b@.len(),
            ascending(out@),
            forall|v: i128| #[trigger]
                out@.contains(v) <==> a@.contains(v) || b@.take(j as int).contains(v),
        decreases b@.len() - j,
    {
        add_to_pool(&mut out, b[j]);
        proof {
            lemma_take_contains(b@, j as int);
        }
        j = j + 1;
    }
    assert(b@.take(j as int) =~= b@);
    out
}

proof fn lemma_take_contains(s: Seq<i128>, i: int)
    requires
        0 <= i < s.len(),
    ensures
        forall|v: i128| #[trigger]
            s.take(i + 1).contains(v) <==> s.take(i).contains(v) || v == s[i],
{
    let more = s.take(i + 1);
    let fewer = s.take(i);
    assert forall|v: i128| #[trigger] more.contains(v) <==> fewer.contains(v) || v == s[i] by {
        if more.contains(v) {
            let k = choose|k: int| 0 <= k < more.len() && more[k] == v;
            if k < i {
                assert(fewer[k] == v);
            }
        }
        if fewer.contains(v) {
            let k = choose|k: int| 0 <= k < fewer.len() && fewer[k] == v;
            assert(more[k] == v);
        }
        assert(more[i] == s[i]);
    }
}

/// The pools of numbers that sampling favours.
pub struct IntegerPools {
    interesting: Vec<i128>,
    large: Vec<i128>,
    nasty: Vec<i128>,
}

impl IntegerPools {
    #[verifier::type_invariant]
    closed spec fn complete(self) -> bool {
        &&& holds_exactly(self.interesting@, |v: int| is_interesting(v))
        &&& holds_exactly(self.large@, |v: int| is_large_constant(v))
        &&& holds_exactly(self.nasty@, |v: int| is_interesting(v) || is_large_constant(v))
    }

    /// The pools.
    pub fn new() -> (r: Self) {
        let interesting = interesting_integers();
        let large = global_constants_integers();
        let nasty = merged(&interesting, &large);
        IntegerPools { interesting, large, nasty }
    }

    /// The interesting numbers.
    pub fn interesting(&self) -> (r: &Vec<i128>)
        ensures
            holds_exactly(r@, |v: int| is_interesting(v)),
    {
        proof {
            use_type_invariant(self);
        }
        &self.interesting
    }

    /// The large constants.
    pub fn large(&self) -> (r: &Vec<i128>)
        ensures
            holds_exactly(r@, |v: int| is_large_constant(v)),
    {
        proof {
            use_type_invariant(self);
        }
        &self.large
    }

    /// The interesting numbers and the large constants.
    pub fn nasty(&self) -> (r: &Vec<i128>)
        ensures
            holds_exactly(r@, |v: int| is_interesting(v) || is_large_constant(v)),
    {
        proof {
            use_type_invariant(self);
        }
        &self.nasty
    }
}

} // verus!
