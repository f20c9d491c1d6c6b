//! Integers as two's-complement little-endian bytes.
use crate::bignum::bytes_value;
use crate::bignum::BigInt;
use crate::bignum::BigUint;
use vstd::arithmetic::power::lemma_pow0;
use vstd::arithmetic::power::lemma_pow_positive;
use vstd::arithmetic::power::pow;
use vstd::prelude::*;

verus! {

/// The integer that two's-complement little-endian bytes stand for.
pub open spec fn signed_value(s: Seq<u8>) -> int {
    if s.len() > 0 && s.last() >= 128 {
        bytes_value(s) - pow(256, s.len())
    } else {
        bytes_value(s) as int
    }
}

/// Whether no byte can be left out: the last one is there for more than the
/// sign.
pub open spec fn is_shortest(s: Seq<u8>) -> bool {
    &&& s.len() >= 1
    &&& s.len() >= 2 ==> {
        let before = s[s.len() - 2];
        !(s.last() == 0 && before < 128) && !(s.last() == 255 && before >= 128)
    }
}

/// Bytes with every bit flipped.
pub open spec fn flipped(s: Seq<u8>) -> Seq<u8> {
    s.map_values(|b: u8| (255 - b) as u8)
}

/// Half of the number of values that `n` bytes have.
pub open spec fn half(n: nat) -> int {
    if n == 0 {
        0
    } else {
        128 * pow(256, (n - 1) as nat)
    }
}

/// The power of the next length.
proof fn lemma_pow_step(n: nat)
    ensures
        pow(256, n + 1) == 256 * pow(256, n),
        pow(256, n) >= 1,
{
    reveal(pow);
    lemma_pow_positive(256, n);
}

/// The value of bytes with a last one.
proof fn lemma_value_of_last(s: Seq<u8>)
    requires
        s.len() > 0,
    ensures
        bytes_value(s) == bytes_value(s.drop_last()) + s.last() * pow(256, (s.len() - 1) as nat),
        bytes_value(s.drop_last()) < pow(256, (s.len() - 1) as nat),
        bytes_value(s) < pow(256, s.len()),
    decreases s.len(),
{
    lemma_pow0(256);
    lemma_pow_step((s.len() - 1) as nat);
    if s.len() == 1 {
        assert(s.skip(1) =~= Seq::empty());
        assert(s.drop_last() =~= Seq::empty());
        assert(s.last() * 1 == s.last());
    } else {
        let t = s.skip(1);
        let n = (s.len() - 2) as nat;
        lemma_value_of_last(t);
        lemma_pow_step(n);
        assert(s.drop_last().skip(1) =~= t.drop_last());
        assert(s.drop_last()[0] == s[0]);
        assert(t.last() == s.last());
        let (v, b, p) = (bytes_value(t.drop_last()) as int, s.last() as int, pow(256, n));
        assert(256 * (v + b * p) == 256 * v + b * (256 * p)) by (nonlinear_arith);
    }
    let (b, p) = (s.last() as int, pow(256, (s.len() - 1) as nat));
    assert(b * p <= 255 * p) by (nonlinear_arith)
        requires
            b <= 255,
            p >= 1,
    ;
}

/// Bytes and their complement add up to nothing but ones.
proof fn lemma_flipped_value(s: Seq<u8>)
    ensures
        bytes_value(s) + bytes_value(flipped(s)) + 1 == pow(256, s.len()),
    decreases s.len(),
{
    lemma_pow0(256);
    if s.len() > 0 {
        lemma_flipped_value(s.skip(1));
        assert(flipped(s).skip(1) =~= flipped(s.skip(1)));
        lemma_pow_step((s.len() - 1) as nat);
    }
}

/// The values that bytes of a length may stand for.
pub proof fn lemma_signed_range(s: Seq<u8>)
    requires
        s.len() >= 1,
    ensures
        -half(s.len()) <= signed_value(s) < half(s.len()),
{
    let n = (s.len() - 1) as nat;
    lemma_value_of_last(s);
    lemma_pow_step(n);
    let (b, p) = (s.last() as int, pow(256, n));
    assert(b <= 127 ==> b * p <= 127 * p) by (nonlinear_arith)
        requires
            p >= 1,
    ;
    assert(b >= 128 ==> b * p >= 128 * p) by (nonlinear_arith)
        requires
            p >= 1,
    ;
}

/// What is written with no byte to leave out is not in reach of fewer bytes.
proof fn lemma_shortest_needs_its_length(s: Seq<u8>)
    requires
        is_shortest(s),
        s.len() >= 2,
    ensures
        signed_value(s) >= half((s.len() - 1) as nat) || signed_value(s) < -half(
            (s.len() - 1) as nat,
        ),
{
    let n = (s.len() - 1) as nat;
    let m = (s.len() - 2) as nat;
    let t = s.drop_last();
    lemma_value_of_last(s);
    lemma_value_of_last(t);
    lemma_pow_step(n);
    lemma_pow_step(m);
    let (b, c, p, q) = (s.last() as int, t.last() as int, pow(256, n), pow(256, m));
    assert(b >= 1 ==> b * p >= p) by (nonlinear_arith)
        requires
            p >= 1,
    ;
    assert(b <= 254 ==> b * p <= 254 * p) by (nonlinear_arith)
        requires
            p >= 1,
    ;
    assert(c >= 128 ==> c * q >= 128 * q) by (nonlinear_arith)
        requires
            q >= 1,
    ;
    assert(c <= 127 ==> c * q <= 127 * q) by (nonlinear_arith)
        requires
            q >= 1,
    ;
    if b == 0 {
        assert(b * p == 0);
    }
    if b == 255 {
        assert(b * p == 255 * p);
    }
}

/// Longer encodings reach further.
proof fn lemma_half_increases(a: nat, b: nat)
    requires
        a <= b,
    ensures
        half(a) <= half(b),
    decreases b,
{
    if a < b {
        lemma_half_increases(a, (b - 1) as nat);
        if b >= 2 {
            lemma_pow_step((b - 2) as nat);
        } else {
            lemma_pow0(256);
        }
    }
}

/// An integer between two others needs no more bytes than the longer one of
/// them.
pub proof fn lemma_encodings_in_between_fit(min: Seq<u8>, max: Seq<u8>, s: Seq<u8>)
    requires
        min.len() >= 1,
        max.len() >= 1,
        is_shortest(s),
        signed_value(min) <= signed_value(s) <= signed_value(max),
    ensures
        s.len() <= min.len() || s.len() <= max.len(),
{
    lemma_signed_range(min);
    lemma_signed_range(max);
    if s.len() > min.len() && s.len() > max.len() {
        lemma_shortest_needs_its_length(s);
        lemma_half_increases(min.len(), (s.len() - 1) as nat);
        lemma_half_increases(max.len(), (s.len() - 1) as nat);
    }
}

/// Flips every bit of bytes.
fn flip(bytes: &[u8]) -> (r: Vec<u8>)
    ensures
        r@ == flipped(bytes@),
{
    let mut out: Vec<u8> = Vec::new();
    let mut i: usize = 0;
    while i < bytes.len()
        invariant
            i <= bytes@.len(),
            out@ == flipped(bytes@.take(i as int)),
        decreases bytes@.len() - i,
    {
        out.push(255 - bytes[i]);
        i = i + 1;
        assert(out@ =~= flipped(bytes@.take(i as int)));
    }
    assert(bytes@.take(i as int) =~= bytes@);
    out
}

/// The integer that bytes stand for.
pub fn from_signed_bytes_le(bytes: &[u8]) -> (r: BigInt)
    ensures
        r@ == signed_value(bytes@),
{
    let n: usize = bytes.len();
    if n > 0 && bytes[n - 1] >= 128 {
        let rest = flip(bytes);
        proof {
            lemma_flipped_value(bytes@);
        }
        let below = BigInt::from_magnitude(BigUint::from_bytes_le(rest.as_slice()));
        below.plus(&BigInt::from_i64(1)).negated()
    } else {
        BigInt::from_magnitude(BigUint::from_bytes_le(bytes))
    }
}

/// The value of bytes that were appended to.
proof fn lemma_value_of_push(s: Seq<u8>, b: u8)
    ensures
        bytes_value(s.push(b)) == bytes_value(s) + b * pow(256, s.len()),
{
    lemma_value_of_last(s.push(b));
    assert(s.push(b).drop_last() =~= s);
}

/// A natural number as bytes, of which the last one leaves room for the sign.
fn natural_bytes(n: &BigUint) -> (r: Vec<u8>)
    ensures
        bytes_value(r@) == n@,
        r@.last() < 128,
        is_shortest(r@),
{
    let mut out: Vec<u8> = Vec::new();
    let mut rest = n.clone();
    proof {
        lemma_pow0(256);
        assert(rest@ * 1 == rest@);
    }
    while !rest.is_zero()
        invariant
            n@ == bytes_value(out@) + rest@ * pow(256, out@.len()),
            rest@ == 0 ==> out@.len() > 0 ==> out@.last() != 0,
        decreases rest@,
    {
        let ghost before = rest@;
        let ghost len = out@.len();
        let ghost bytes = out@;
        let (next, low) = rest.divide_small(256);
        out.push(low as u8);
        rest = next;
        proof {
            lemma_value_of_push(bytes, low as u8);
            lemma_pow_step(len);
            let (p, x, y) = (pow(256, len), rest@ as int, low as int);
            assert(before * p == y * p + x * (256 * p)) by (nonlinear_arith)
                requires
                    before == 256 * x + y,
            ;
            if rest@ == 0 {
                assert(low != 0);
            }
        }
    }
    proof {
        assert(rest@ * pow(256, out@.len()) == 0);
    }
    let len: usize = out.len();
    if len == 0 || out[len - 1] >= 128 {
        proof {
            lemma_value_of_push(out@, 0);
            assert(0 * pow(256, out@.len()) == 0);
        }
        out.push(0);
    }
    out
}

/// The shortest bytes that stand for an integer.
pub fn to_signed_bytes_le(v: &BigInt) -> (r: Vec<u8>)
    ensures
        signed_value(r@) == v@,
        is_shortest(r@),
{
    if v.is_negative() {
        let below = v.negated().minus(&BigInt::from_i64(1)).magnitude();
        let bytes = natural_bytes(&below);
        let r = flip(bytes.as_slice());
        proof {
            lemma_flipped_value(bytes@);
            assert(flipped(bytes@).last() == 255 - bytes@.last());
            if bytes@.len() >= 2 {
                assert(r@[r@.len() - 2] == 255 - bytes@[bytes@.len() - 2]);
            }
        }
        r
    } else {
        natural_bytes(&v.magnitude())
    }
}

/// The same bytes, with the sign filled in up to a length, stand for the same
/// integer.
pub open spec fn sign_filled(s: Seq<u8>, len: nat) -> Seq<u8> {
    s + Seq::new(
        (len - s.len()) as nat,
        |i: int|
            if s.last() >= 128 {
                255u8
            } else {
                0u8
            },
    )
}

/// Filling in the sign changes nothing.
pub proof fn lemma_sign_fill_keeps_the_value(s: Seq<u8>, len: nat)
    requires
        1 <= s.len() <= len,
    ensures
        sign_filled(s, len).len() == len,
        signed_value(sign_filled(s, len)) == signed_value(s),
    decreases len,
{
    if len == s.len() {
        assert(sign_filled(s, len) =~= s);
    } else {
        let m = (len - 1) as nat;
        let shorter = sign_filled(s, m);
        let fill: u8 = if s.last() >= 128 {
            255
        } else {
            0
        };
        lemma_sign_fill_keeps_the_value(s, m);
        assert(sign_filled(s, len) =~= shorter.push(fill));
        lemma_value_of_push(shorter, fill);
        lemma_pow_step(m);
        assert(shorter.last() >= 128 <==> s.last() >= 128);
        assert(0 * pow(256, m) == 0);
    }
}

} // verus!
