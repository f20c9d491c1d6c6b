//! The order in which floating-point values are simple.
//!
//! Whole numbers come first, from zero up. The other values follow: those with
//! exponents from zero up, then those with exponents from minus one down, and for
//! each exponent those with few binary digits behind the point first.
use vstd::arithmetic::power2::lemma2_to64;
use vstd::arithmetic::power2::lemma2_to64_rest;
use vstd::arithmetic::power2::lemma_pow2_adds;
use vstd::arithmetic::power2::lemma_pow2_pos;
use vstd::arithmetic::power2::lemma_pow2_strictly_increases;
use vstd::arithmetic::power2::lemma_pow2_unfold;
use vstd::arithmetic::power2::pow2;
use vstd::prelude::*;

verus! {

/// Two to the power of fifty-two: how many mantissas there are.
pub const MANTISSAS: u64 = 0x10_0000_0000_0000;

/// Two to the power of sixty-three: the sign, and the first place in the order
/// that is not one of a whole number.
pub const HALF_OF_ALL: u64 = 0x8000_0000_0000_0000;

/// The exponent of a value, with its bias.
pub open spec fn biased_exponent(bits: u64) -> int {
    bits as int % HALF_OF_ALL as int / MANTISSAS as int
}

/// The mantissa of a value, without its leading digit.
pub open spec fn mantissa(bits: u64) -> int {
    bits as int % MANTISSAS as int
}

/// The magnitude of a value, where that is a whole number with at most fifty-six
/// binary digits.
pub open spec fn whole_value(bits: u64) -> Option<int> {
    let e = biased_exponent(bits);
    let f = mantissa(bits);
    if e == 0 && f == 0 {
        Some(0)
    } else if 1023 <= e <= 1075 && (MANTISSAS + f) % pow2((1075 - e) as nat) as int == 0 {
        Some((MANTISSAS + f) / pow2((1075 - e) as nat) as int)
    } else if 1075 < e < 1079 {
        Some((MANTISSAS + f) * pow2((e - 1075) as nat))
    } else {
        None
    }
}

/// The rank of a biased exponent: from zero up, then from minus one down, and last
/// the one of what is no finite value.
pub open spec fn exponent_rank(e: int) -> int {
    if e == 2047 {
        2047
    } else if e >= 1023 {
        e - 1023
    } else {
        2046 - e
    }
}

/// How many digits of a mantissa are behind the point.
pub open spec fn fraction_digits(e: int) -> nat {
    if e <= 1023 {
        52
    } else if e <= 1075 {
        (1075 - e) as nat
    } else {
        0
    }
}

/// The lowest `k` binary digits of a number in reverse.
pub open spec fn reversed(x: nat, k: nat) -> nat
    decreases k,
{
    if k == 0 {
        0
    } else {
        (x % 2) * pow2((k - 1) as nat) + reversed(x / 2, (k - 1) as nat)
    }
}

/// A mantissa with the digits behind the point in reverse.
pub open spec fn mirrored(e: int, f: int) -> int {
    let p = pow2(fraction_digits(e)) as int;
    f / p * p + reversed((f % p) as nat, fraction_digits(e))
}

/// The place of a value in the order. The sign does not count.
pub open spec fn place_of(bits: u64) -> int {
    match whole_value(bits) {
        Some(v) => v,
        None => HALF_OF_ALL + exponent_rank(biased_exponent(bits)) * MANTISSAS + mirrored(
            biased_exponent(bits),
            mantissa(bits),
        ),
    }
}

/// The powers of two that matter here.
proof fn lemma_powers()
    ensures
        pow2(0) == 1,
        pow2(1) == 2,
        pow2(4) == 16,
        pow2(52) == MANTISSAS,
        pow2(54) == 4 * MANTISSAS,
{
    lemma2_to64();
    lemma2_to64_rest();
}

/// Digits in reverse make no larger number than there is room for.
proof fn lemma_reversed_fits(x: nat, k: nat)
    ensures
        reversed(x, k) < pow2(k),
    decreases k,
{
    lemma_pow2_pos(k);
    if k > 0 {
        lemma_reversed_fits(x / 2, (k - 1) as nat);
        lemma_pow2_unfold(k);
        let p = pow2((k - 1) as nat);
        assert((x % 2) * p <= p) by (nonlinear_arith)
            requires
                x % 2 <= 1,
        ;
    }
}

/// Numbers whose digits are the same in reverse are the same.
proof fn lemma_reversed_differ(x: nat, y: nat, k: nat)
    requires
        x < pow2(k),
        y < pow2(k),
        reversed(x, k) == reversed(y, k),
    ensures
        x == y,
    decreases k,
{
    if k == 0 {
        lemma_powers();
    } else {
        let p = pow2((k - 1) as nat);
        lemma_pow2_unfold(k);
        lemma_reversed_fits(x / 2, (k - 1) as nat);
        lemma_reversed_fits(y / 2, (k - 1) as nat);
        let (a, b) = (x % 2, y % 2);
        assert(a * p == if a == 0 { 0 } else { p as int }) by (nonlinear_arith)
            requires
                0 <= a <= 1,
        ;
        assert(b * p == if b == 0 { 0 } else { p as int }) by (nonlinear_arith)
            requires
                0 <= b <= 1,
        ;
        lemma_reversed_differ(x / 2, y / 2, (k - 1) as nat);
    }
}

/// A mantissa with digits in reverse is a mantissa.
pub(crate) proof fn lemma_mirrored_fits(e: int, f: int)
    requires
        0 <= f < MANTISSAS,
    ensures
        0 <= mirrored(e, f) < MANTISSAS,
        mirrored(e, f) / pow2(fraction_digits(e)) as int == f / pow2(fraction_digits(e)) as int,
        mirrored(e, f) % pow2(fraction_digits(e)) as int == reversed(
            (f % pow2(fraction_digits(e)) as int) as nat,
            fraction_digits(e),
        ),
{
    let k = fraction_digits(e);
    let p = pow2(k) as int;
    let q = pow2((52 - k) as nat) as int;
    lemma_powers();
    lemma_pow2_pos(k);
    lemma_pow2_adds(k, (52 - k) as nat);
    lemma_reversed_fits((f % p) as nat, k);
    let high = f / p;
    let low = reversed((f % p) as nat, k) as int;
    vstd::arithmetic::div_mod::lemma_fundamental_div_mod(f, p);
    assert(0 <= high * p + low < MANTISSAS) by (nonlinear_arith)
        requires
            0 <= f < MANTISSAS,
            f == p * high + f % p,
            0 <= f % p < p,
            0 <= low < p,
            p * q == MANTISSAS,
    ;
    vstd::arithmetic::div_mod::lemma_fundamental_div_mod_converse(high * p + low, p, high, low);
}

/// Whole numbers stand before everything else.
pub(crate) proof fn lemma_whole_fits(bits: u64)
    ensures
        0 <= biased_exponent(bits) <= 2047,
        0 <= mantissa(bits) < MANTISSAS,
        whole_value(bits) matches Some(v) ==> 0 <= v < HALF_OF_ALL,
        1023 <= biased_exponent(bits) ==> (whole_value(bits) matches Some(v) ==> pow2(
            (biased_exponent(bits) - 1023) as nat,
        ) <= v < pow2((biased_exponent(bits) - 1022) as nat)),
{
    let e = biased_exponent(bits);
    let f = mantissa(bits);
    lemma_powers();
    if let Some(v) = whole_value(bits) {
        if 1023 <= e <= 1075 {
            let k = (1075 - e) as nat;
            let p = pow2(k) as int;
            lemma_pow2_pos(k);
            lemma_pow2_adds(k, (e - 1023) as nat);
            lemma_pow2_unfold((e - 1022) as nat);
            let low = pow2((e - 1023) as nat) as int;
            vstd::arithmetic::div_mod::lemma_fundamental_div_mod(MANTISSAS + f, p);
            assert(low <= v < 2 * low) by (nonlinear_arith)
                requires
                    p * low == MANTISSAS,
                    MANTISSAS + f == p * v,
                    0 <= f < MANTISSAS,
                    p > 0,
            ;
            assert(low <= v < pow2((e - 1022) as nat));
            if e - 1022 < 54 {
                lemma_pow2_strictly_increases((e - 1022) as nat, 54);
            }
        } else if e > 1075 {
            let p = pow2((e - 1075) as nat) as int;
            lemma_pow2_pos((e - 1075) as nat);
            lemma_pow2_adds(52, (e - 1075) as nat);
            assert(pow2(52) * p == MANTISSAS * p) by (nonlinear_arith)
                requires
                    pow2(52) == MANTISSAS,
            ;
            lemma_pow2_unfold((e - 1022) as nat);
            lemma_pow2_strictly_increases((e - 1075) as nat, 4);
            assert(MANTISSAS * p <= (MANTISSAS + f) * p < 2 * MANTISSAS * p) by (nonlinear_arith)
                requires
                    0 <= f < MANTISSAS,
                    p > 0,
            ;
            assert(pow2((e - 1023) as nat) == MANTISSAS * p);
            assert(pow2((e - 1022) as nat) == 2 * MANTISSAS * p);
            assert(2 * MANTISSAS * p < HALF_OF_ALL) by (nonlinear_arith)
                requires
                    p < 16,
            ;
        }
    }
}

/// Values that are no whole numbers and have the same place in the order are the
/// same.
proof fn lemma_fractions_differ(ea: int, fa: int, eb: int, fb: int)
    requires
        0 <= ea <= 2047,
        0 <= eb <= 2047,
        0 <= fa < MANTISSAS,
        0 <= fb < MANTISSAS,
        exponent_rank(ea) * MANTISSAS + mirrored(ea, fa) == exponent_rank(eb) * MANTISSAS
            + mirrored(eb, fb),
    ensures
        ea == eb,
        fa == fb,
{
    lemma_mirrored_fits(ea, fa);
    lemma_mirrored_fits(eb, fb);
    let k = fraction_digits(ea);
    let p = pow2(k) as int;
    lemma_pow2_pos(k);
    vstd::arithmetic::div_mod::lemma_fundamental_div_mod(fa, p);
    vstd::arithmetic::div_mod::lemma_fundamental_div_mod(fb, p);
    assert(exponent_rank(ea) == exponent_rank(eb));
    lemma_reversed_differ((fa % p) as nat, (fb % p) as nat, k);
}

/// Whole numbers that are the same have the same exponent and mantissa.
proof fn lemma_wholes_differ(a: u64, b: u64)
    requires
        whole_value(a) is Some,
        whole_value(a) == whole_value(b),
    ensures
        biased_exponent(a) == biased_exponent(b),
        mantissa(a) == mantissa(b),
{
    let (ea, eb) = (biased_exponent(a), biased_exponent(b));
    lemma_whole_fits(a);
    lemma_whole_fits(b);
    if 1023 <= ea && 1023 <= eb {
        if ea < eb {
            lemma_no_overlap((ea - 1022) as nat, (eb - 1023) as nat);
        }
        if eb < ea {
            lemma_no_overlap((eb - 1022) as nat, (ea - 1023) as nat);
        }
        lemma_same_whole(ea, mantissa(a), mantissa(b), whole_value(a)->0);
    } else if 1023 <= ea {
        lemma_pow2_pos((ea - 1023) as nat);
    } else if 1023 <= eb {
        lemma_pow2_pos((eb - 1023) as nat);
    }
}

/// Values with the same place in the order differ at most in their signs.
pub proof fn lemma_places_differ(a: u64, b: u64)
    requires
        place_of(a) == place_of(b),
    ensures
        a as int % HALF_OF_ALL as int == b as int % HALF_OF_ALL as int,
{
    lemma_whole_fits(a);
    lemma_whole_fits(b);
    lemma_mirrored_fits(biased_exponent(a), mantissa(a));
    lemma_mirrored_fits(biased_exponent(b), mantissa(b));
    if whole_value(a) is Some && whole_value(b) is Some {
        lemma_wholes_differ(a, b);
    } else if whole_value(a) is None && whole_value(b) is None {
        lemma_fractions_differ(
            biased_exponent(a),
            mantissa(a),
            biased_exponent(b),
            mantissa(b),
        );
    }
}

/// A power of two is at most another one with a larger exponent.
proof fn lemma_no_overlap(i: nat, j: nat)
    requires
        i <= j,
    ensures
        pow2(i) <= pow2(j),
{
    if i < j {
        lemma_pow2_strictly_increases(i, j);
    }
}

/// A whole number has one mantissa for an exponent.
proof fn lemma_same_whole(e: int, fa: int, fb: int, v: int)
    requires
        1023 <= e < 1079,
        e <= 1075 ==> (MANTISSAS + fa) % pow2((1075 - e) as nat) as int == 0 && (MANTISSAS + fb)
            % pow2((1075 - e) as nat) as int == 0 && (MANTISSAS + fa) / pow2(
            (1075 - e) as nat,
        ) as int == v && (MANTISSAS + fb) / pow2((1075 - e) as nat) as int == v,
        e > 1075 ==> (MANTISSAS + fa) * pow2((e - 1075) as nat) == v && (MANTISSAS + fb) * pow2(
            (e - 1075) as nat,
        ) == v,
    ensures
        fa == fb,
{
    if e <= 1075 {
        let p = pow2((1075 - e) as nat) as int;
        lemma_pow2_pos((1075 - e) as nat);
        vstd::arithmetic::div_mod::lemma_fundamental_div_mod(MANTISSAS + fa, p);
        vstd::arithmetic::div_mod::lemma_fundamental_div_mod(MANTISSAS + fb, p);
    } else {
        let p = pow2((e - 1075) as nat) as int;
        lemma_pow2_pos((e - 1075) as nat);
        assert(fa == fb) by (nonlinear_arith)
            requires
                (MANTISSAS + fa) * p == (MANTISSAS + fb) * p,
                p > 0,
        ;
    }
}

/// Two to the power of `k`.
fn two_to(k: u64) -> (r: u64)
    requires
        k <= 52,
    ensures
        r == pow2(k as nat),
        0 < r <= MANTISSAS,
{
    let mut r: u64 = 1;
    let mut i: u64 = 0;
    proof {
        lemma_powers();
    }
    while i < k
        invariant
            i <= k <= 52,
            r == pow2(i as nat),
        decreases k - i,
    {
        proof {
            lemma_powers();
            lemma_pow2_unfold((i + 1) as nat);
            lemma_pow2_strictly_increases(i as nat, 52);
        }
        r = 2 * r;
        i = i + 1;
    }
    proof {
        lemma_powers();
        lemma_pow2_pos(k as nat);
        lemma_no_overlap(k as nat, 52);
    }
    r
}

/// The lowest `k` binary digits of a number in reverse.
fn reverse(x: u64, k: u64) -> (r: u64)
    requires
        k <= 52,
    ensures
        r == reversed(x as nat, k as nat),
        r < pow2(k as nat),
{
    let mut left: u64 = x;
    let mut r: u64 = 0;
    let mut i: u64 = 0;
    proof {
        lemma_powers();
        assert(0 * pow2(k as nat) == 0) by (nonlinear_arith);
    }
    while i < k
        invariant
            i <= k <= 52,
            r < pow2(i as nat),
            r * pow2((k - i) as nat) + reversed(left as nat, (k - i) as nat) == reversed(
                x as nat,
                k as nat,
            ),
        decreases k - i,
    {
        proof {
            lemma_powers();
            lemma_pow2_unfold((i + 1) as nat);
            lemma_pow2_strictly_increases(i as nat, 52);
            lemma_pow2_unfold((k - i) as nat);
            let p = pow2((k - i - 1) as nat);
            assert((2 * r + left % 2) * p == r * (2 * p) + (left % 2) * p) by (nonlinear_arith);
        }
        r = 2 * r + left % 2;
        left = left / 2;
        i = i + 1;
    }
    proof {
        lemma_powers();
        lemma_reversed_fits(x as nat, k as nat);
        assert(r * pow2(0) == r) by (nonlinear_arith)
            requires
                pow2(0) == 1,
        ;
    }
    r
}

/// The place of a value in the order. The sign does not count.
pub fn float_order(bits: u64) -> (r: u64)
    ensures
        r == place_of(bits),
{
    let e: u64 = bits % HALF_OF_ALL / MANTISSAS;
    let f: u64 = bits % MANTISSAS;
    proof {
        lemma_whole_fits(bits);
        lemma_mirrored_fits(biased_exponent(bits), mantissa(bits));
        lemma_powers();
    }
    if e == 0 && f == 0 {
        return 0;
    }
    if 1023 <= e && e <= 1075 {
        let p: u64 = two_to(1075 - e);
        if (MANTISSAS + f) % p == 0 {
            return (MANTISSAS + f) / p;
        }
    }
    if 1075 < e && e < 1079 {
        let p: u64 = two_to(e - 1075);
        return (MANTISSAS + f) * p;
    }
    let digits: u64 = if e <= 1023 {
        52
    } else if e <= 1075 {
        1075 - e
    } else {
        0
    };
    let rank: u64 = if e == 2047 {
        2047
    } else if e >= 1023 {
        e - 1023
    } else {
        2046 - e
    };
    let p: u64 = two_to(digits);
    let low: u64 = reverse(f % p, digits);
    proof {
        vstd::arithmetic::div_mod::lemma_fundamental_div_mod(f as int, p as int);
        assert(f / p * p <= f) by (nonlinear_arith)
            requires
                f == p * (f / p) + f % p,
                f % p >= 0,
        ;
    }
    let high: u64 = f / p * p;
    HALF_OF_ALL + rank * MANTISSAS + (high + low)
}

} // verus!
