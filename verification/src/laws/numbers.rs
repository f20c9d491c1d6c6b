//! Numbers: how they are written and ordered.
use crate::bignum::bytes_value;
use crate::bignum::BigInt;
use crate::bignum::BigUint;
use crate::choices::FloatChoice;
use crate::decimal::append_integer;
use crate::decimal::append_natural;
use crate::decimal::decimal;
use crate::decimal::digit;
use crate::float_order::biased_exponent;
use crate::float_order::float_order;
use crate::float_order::lemma_mirrored_fits;
use crate::float_order::lemma_places_differ;
use crate::float_order::lemma_whole_fits;
use crate::float_order::mantissa;
use crate::float_restriction::restrict;
use crate::float_rounding::halfway;
use crate::float_rounding::lemma_rounding_stays_between;
use crate::float_rounding::nearest_single;
use crate::float_rounding::stays_below;
use crate::floats::next_down;
use crate::floats::next_up;
use crate::floats::scaled;
use crate::floats::widened_magnitude;
use crate::signed_bytes::from_signed_bytes_le;
use crate::signed_bytes::lemma_encodings_in_between_fit;
use crate::signed_bytes::to_signed_bytes_le;
use vstd::arithmetic::div_mod::lemma_div_multiples_vanish;
use vstd::arithmetic::div_mod::lemma_mod_multiples_basic;
use vstd::arithmetic::power::pow;
use vstd::arithmetic::power2::lemma_pow2_pos;
use vstd::arithmetic::power2::pow2;
use vstd::prelude::*;

verus! {

/// The digit that a character stands for.
pub open spec fn digit_value(c: char) -> int {
    c as int - '0' as int
}

/// The number that digits stand for.
pub open spec fn digits_value(s: Seq<char>) -> int
    decreases s.len(),
{
    if s.len() == 0 {
        0
    } else {
        10 * digits_value(s.drop_last()) + digit_value(s.last())
    }
}

/// Digits in decimal notation stand for the number.
pub(crate) proof fn lemma_decimal_reads_back(n: nat)
    ensures
        digits_value(decimal(n)) == n,
        decimal(n).len() > 0,
        n > 0 ==> decimal(n)[0] != '0',
        n == 0 ==> decimal(n).len() == 1,
        forall|i: int| 0 <= i < decimal(n).len() ==> '0' <= #[trigger] decimal(n)[i] <= '9',
    decreases n,
{
    let s = decimal(n);
    if n < 10 {
        assert(s.drop_last() =~= Seq::empty());
        assert(digits_value(s.drop_last()) == 0);
        assert(s.last() == digit(n));
    } else {
        lemma_decimal_reads_back(n / 10);
        assert(s.drop_last() =~= decimal(n / 10));
        assert(s.last() == digit(n % 10));
        assert(s[0] == decimal(n / 10)[0]);
    }
}

/// A number is written in decimal digits that stand for it, without leading zeros, after
/// what was there. A negative one has a sign before them.
pub proof fn lemma_numbers_are_written_in_digits(
    before: String,
    after: String,
    n: &BigUint,
    before_signed: String,
    after_signed: String,
    v: &BigInt,
)
    requires
        exists|m: &mut String| #[trigger]
            call_ensures(append_natural, (m, n), ()) && *m == before && *final(m) == after,
        exists|m: &mut String| #[trigger]
            call_ensures(append_integer, (m, v), ()) && *m == before_signed && *final(m)
                == after_signed,
    ensures
        ({
            let digits = after@.skip(before@.len() as int);
            let signed = after_signed@.skip(before_signed@.len() as int);
            &&& after@ == before@ + digits
            &&& digits_value(digits) == n@
            &&& forall|i: int| 0 <= i < digits.len() ==> '0' <= #[trigger] digits[i] <= '9'
            &&& digits.len() > 0
            &&& digits.len() > 1 ==> digits[0] != '0'
            &&& after_signed@ == before_signed@ + signed
            &&& v@ >= 0 ==> digits_value(signed) == v@
            &&& v@ < 0 ==> signed.len() > 0 && signed[0] == '-' && digits_value(signed.skip(1))
                == -v@
        }),
{
    lemma_decimal_reads_back(n@);
    let digits = after@.skip(before@.len() as int);
    assert(digits =~= decimal(n@));
    let signed = after_signed@.skip(before_signed@.len() as int);
    if v@ < 0 {
        lemma_decimal_reads_back((-v@) as nat);
        assert(signed =~= seq!['-'] + decimal((-v@) as nat));
        assert(signed.skip(1) =~= decimal((-v@) as nat));
    } else {
        lemma_decimal_reads_back(v@ as nat);
        assert(signed =~= decimal(v@ as nat));
    }
}

/// Bytes that stand for an integer do so in two's complement, the least significant one
/// first: one byte stands for itself, or for that less two hundred and fifty-six from a
/// hundred and twenty-eight on, and with a byte before others it is that and two hundred
/// and fifty-six times what the others stand for. No bytes stand for zero.
pub proof fn lemma_signed_bytes_stand_for_integers(
    bytes: &[u8],
    rest: &[u8],
    r: BigInt,
    s: BigInt,
)
    requires
        call_ensures(from_signed_bytes_le, (bytes,), r),
        call_ensures(from_signed_bytes_le, (rest,), s),
        bytes@.len() > 0 ==> rest@ == bytes@.skip(1),
    ensures
        bytes@.len() == 0 ==> r@ == 0,
        bytes@.len() == 1 ==> r@ == if bytes@[0] >= 128 {
            bytes@[0] - 256
        } else {
            bytes@[0] as int
        },
        bytes@.len() > 1 ==> r@ == bytes@[0] + 256 * s@,
{
    reveal(pow);
    let b = bytes@;
    reveal_with_fuel(bytes_value, 3);
    if b.len() == 1 {
        assert(b.skip(1) =~= Seq::empty());
        assert(pow(256, 1) == 256 * pow(256, 0));
    } else if b.len() > 1 {
        assert(b.skip(1).last() == b.last());
        assert(pow(256, b.len()) == 256 * pow(256, (b.len() - 1) as nat));
    }
}

/// An integer comes back from its bytes, and no fewer bytes stand for it.
pub proof fn lemma_integers_come_back_from_their_bytes(
    v: &BigInt,
    bytes: Vec<u8>,
    slice: &[u8],
    back: BigInt,
    other: &[u8],
    r: BigInt,
)
    requires
        call_ensures(to_signed_bytes_le, (v,), bytes),
        call_ensures(from_signed_bytes_le, (slice,), back),
        slice@ == bytes@,
        call_ensures(from_signed_bytes_le, (other,), r),
        other@.len() > 0,
        r@ == v@,
    ensures
        back@ == v@,
        0 < bytes@.len() <= other@.len(),
{
    lemma_encodings_in_between_fit(other@, other@, bytes@);
}

/// Floating-point values are ordered so that the sign does not count, whole numbers come
/// first, as the numbers that they are, and no two magnitudes share a place.
pub proof fn lemma_whole_floats_come_first(a: u64, b: u64, v: int, e: int, r: u64, s: u64)
    requires
        call_ensures(float_order, (a,), r),
        call_ensures(float_order, (b,), s),
    ensures
        r == s <==> a as int % 0x8000_0000_0000_0000 == b as int % 0x8000_0000_0000_0000,
        a as int % 0x8000_0000_0000_0000 == 0 ==> r == 0,
        ({
            let exponent = a as int % 0x8000_0000_0000_0000 / 0x10_0000_0000_0000;
            let fraction = a as int % 0x10_0000_0000_0000;
            &&& exponent == e && 1023 <= e <= 1075 && 0x10_0000_0000_0000 + fraction == v * pow2(
                (1075 - e) as nat,
            ) ==> r == v
            &&& 0 < exponent < 1023 || exponent >= 1079 || (exponent == 0 && fraction > 0) ==> r
                >= 0x8000_0000_0000_0000
        }),
{
    if r == s {
        lemma_places_differ(a, b);
    }
    assert(a as int % 0x8000_0000_0000_0000 == b as int % 0x8000_0000_0000_0000 ==> biased_exponent(a)
        == biased_exponent(b) && mantissa(a) == mantissa(b));
    let p = pow2((1075 - e) as nat) as int;
    lemma_pow2_pos((1075 - e) as nat);
    if 1023 <= e <= 1075 {
        lemma_div_multiples_vanish(v, p);
        lemma_mod_multiples_basic(v, p);
        assert(v * p == p * v) by (nonlinear_arith);
    }
}

/// The place of a floating-point value among all of them.
pub open spec fn float_place(bits: u64) -> int {
    if bits >= 0x8000_0000_0000_0000 {
        0x8000_0000_0000_0000 - bits
    } else {
        bits as int
    }
}

/// Whether bits stand for a number, which may be infinite.
pub open spec fn is_float_number(bits: u64) -> bool {
    -0x7ff0_0000_0000_0000 <= float_place(bits) <= 0x7ff0_0000_0000_0000
}

/// The next value above a number is the least that is larger, and the next below the
/// greatest that is smaller. The infinities, and what is no number, are left as they are.
pub proof fn lemma_neighbouring_floats(bits: u64, up: u64, down: u64)
    requires
        call_ensures(next_up, (bits,), up),
        call_ensures(next_down, (bits,), down),
    ensures
        !is_float_number(bits) ==> up == bits && down == bits,
        is_float_number(bits) ==> {
            &&& float_place(bits) < 0x7ff0_0000_0000_0000 ==> float_place(up) == float_place(bits)
                + 1
            &&& float_place(bits) == 0x7ff0_0000_0000_0000 ==> up == bits
            &&& float_place(bits) > -0x7ff0_0000_0000_0000 ==> float_place(down) == float_place(
                bits,
            ) - 1
            &&& float_place(bits) == -0x7ff0_0000_0000_0000 ==> down == bits
        },
{
}

/// A value that is restricted to a range is finite and lies in it. One that lies in it,
/// and is zero or not too small, stays as it is.
pub proof fn lemma_restricted_floats(k: &FloatChoice, bits: u64, r: u64)
    requires
        call_ensures(restrict, (k, bits), r),
        is_float_number(k.min_bits),
        is_float_number(k.max_bits),
        float_place(k.min_bits) <= float_place(k.max_bits),
        float_place(k.min_bits) < 0x7ff0_0000_0000_0000,
        float_place(k.max_bits) > -0x7ff0_0000_0000_0000,
    ensures
        float_place(k.min_bits) <= float_place(r) <= float_place(k.max_bits),
        -0x7ff0_0000_0000_0000 < float_place(r) < 0x7ff0_0000_0000_0000,
        ({
            let m = bits as int % 0x8000_0000_0000_0000;
            &&& float_place(k.min_bits) <= float_place(bits) <= float_place(k.max_bits) && m
                < 0x7ff0_0000_0000_0000 && (m == 0 || m >= k.smallest_magnitude_bits as int
                % 0x8000_0000_0000_0000) ==> float_place(r) == float_place(bits)
        }),
{
}

/// Of values that are no whole numbers, those of at least one come before those below one.
/// Among the former a smaller exponent comes first, and among the latter a larger one.
/// What is no finite number comes last.
pub proof fn lemma_fractions_are_ordered_by_exponent(a: u64, b: u64, r: u64, s: u64)
    requires
        call_ensures(float_order, (a,), r),
        call_ensures(float_order, (b,), s),
        r >= 0x8000_0000_0000_0000,
        s >= 0x8000_0000_0000_0000,
    ensures
        ({
            let ea = a as int % 0x8000_0000_0000_0000 / 0x10_0000_0000_0000;
            let eb = b as int % 0x8000_0000_0000_0000 / 0x10_0000_0000_0000;
            &&& 1023 <= ea < eb ==> r < s
            &&& eb < ea < 1023 ==> r < s
            &&& 1023 <= ea < 2047 && eb < 1023 ==> r < s
            &&& ea < 1023 && eb == 2047 ==> r < s
        }),
{
    lemma_whole_fits(a);
    lemma_whole_fits(b);
    lemma_mirrored_fits(biased_exponent(a), mantissa(a));
    lemma_mirrored_fits(biased_exponent(b), mantissa(b));
}

/// A normal magnitude of single precision has as many fractions less in full precision as
/// it has digits more there.
proof fn lemma_normal_single_is_widened(n: int)
    requires
        0x80_0000 <= n < 0x7f80_0000,
    ensures
        widened_magnitude(n) == n * 0x2000_0000 + 0x3800_0000_0000_0000,
{
    let exponent = n / 0x80_0000;
    let fraction = n % 0x80_0000;
    assert(n == exponent * 0x80_0000 + fraction);
    assert(1 <= exponent < 255);
    assert(scaled(fraction + 0x80_0000, exponent + 896) == (exponent + 896) * 0x10_0000_0000_0000
        + fraction * 0x2000_0000);
}

/// A value within the normal ones of single precision is rounded to the nearest of them. One
/// that is halfway between two is rounded to the one whose last digit is even. Its sign is
/// kept.
pub proof fn lemma_rounding_is_to_the_nearest(bits: u64, r: u32)
    requires
        call_ensures(nearest_single, (bits,), r),
        0x3810_0000_0000_0000 <= bits as int % 0x8000_0000_0000_0000 < 0x47ef_ffff_e000_0000,
    ensures
        ({
            let m = bits as int % 0x8000_0000_0000_0000;
            let below = (m - 0x3800_0000_0000_0000) / 0x2000_0000;
            let dropped = m % 0x2000_0000;
            let n = r as int % 0x8000_0000;
            &&& r >= 0x8000_0000 <==> bits >= 0x8000_0000_0000_0000
            &&& n == below || n == below + 1
            &&& dropped < 0x1000_0000 ==> n == below
            &&& dropped > 0x1000_0000 ==> n == below + 1
            &&& dropped == 0x1000_0000 ==> n % 2 == 0
        }),
{
    let m = bits as int % 0x8000_0000_0000_0000;
    let below = (m - 0x3800_0000_0000_0000) / 0x2000_0000;
    let dropped = m % 0x2000_0000;
    let n = r as int % 0x8000_0000;
    assert(m == below * 0x2000_0000 + 0x3800_0000_0000_0000 + dropped);
    assert(0x80_0000 <= below < 0x7f7f_ffff);
    lemma_normal_single_is_widened(below);
    lemma_normal_single_is_widened(below + 1);
    lemma_rounding_stays_between(m, n, below, below + 1);
    assert(halfway(below) == widened_magnitude(below) + 0x1000_0000);
    if n == below {
        assert(stays_below(m, below));
    } else {
        assert(!stays_below(m, n - 1));
    }
}

} // verus!
