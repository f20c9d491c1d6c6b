//! Requests for floating-point values. Values are held as their bits in the
//! binary64 format; those of the binary32 format are widened.
use crate::choices::float_magnitude;
use crate::choices::FLOAT_INFINITY_BITS;
use crate::decimal::append_usize;
use crate::decimal::decimal;
use vstd::prelude::*;
use vstd::string::StringExecFns;

verus! {

/// The sign of a binary64 value, as bits.
pub const SIGN_BIT: u64 = 0x8000_0000_0000_0000;

/// The sign of a binary32 value, as bits.
pub const SINGLE_SIGN_BIT: u32 = 0x8000_0000;

/// The magnitude of infinity in the binary32 format, as bits.
pub const SINGLE_INFINITY_BITS: u32 = 0x7f80_0000;

/// The largest finite binary32 value, as bits in the binary64 format.
pub const SINGLE_MAX_BITS: u64 = 0x47ef_ffff_e000_0000;

/// Whether bits stand for no number.
pub open spec fn is_nan(bits: u64) -> bool {
    float_magnitude(bits) > FLOAT_INFINITY_BITS
}

/// Whether bits stand for a finite number.
pub open spec fn is_finite(bits: u64) -> bool {
    float_magnitude(bits) < FLOAT_INFINITY_BITS
}

/// The place of a value among all values, with zero at zero. Values compare
/// as their places do.
pub open spec fn place(bits: u64) -> int {
    if bits >= SIGN_BIT {
        -float_magnitude(bits)
    } else {
        bits as int
    }
}

/// The least value above.
pub open spec fn above(bits: u64) -> u64 {
    if is_nan(bits) || bits == FLOAT_INFINITY_BITS {
        bits
    } else if float_magnitude(bits) == 0 {
        1
    } else if bits < SIGN_BIT {
        (bits + 1) as u64
    } else {
        (bits - 1) as u64
    }
}

/// The greatest value below.
pub open spec fn below(bits: u64) -> u64 {
    if is_nan(bits) || bits == SIGN_BIT + FLOAT_INFINITY_BITS {
        bits
    } else if float_magnitude(bits) == 0 {
        (SIGN_BIT + 1) as u64
    } else if bits < SIGN_BIT {
        (bits - 1) as u64
    } else {
        (bits + 1) as u64
    }
}

/// The least value above has the next place, and the greatest value below has
/// the one before, except at the infinities.
pub proof fn lemma_neighbours_are_next(bits: u64)
    requires
        !is_nan(bits),
    ensures
        bits != FLOAT_INFINITY_BITS ==> place(above(bits)) == place(bits) + 1,
        bits != SIGN_BIT + FLOAT_INFINITY_BITS ==> place(below(bits)) == place(bits) - 1,
        !is_nan(above(bits)),
        !is_nan(below(bits)),
{
}

/// The least binary32 value above.
pub open spec fn single_above(single: u32) -> u32 {
    if single == SINGLE_INFINITY_BITS {
        single
    } else if single as int % 0x8000_0000 == 0 {
        1
    } else if single < SINGLE_SIGN_BIT {
        (single + 1) as u32
    } else {
        (single - 1) as u32
    }
}

/// The greatest binary32 value below.
pub open spec fn single_below(single: u32) -> u32 {
    if single == SINGLE_SIGN_BIT + SINGLE_INFINITY_BITS {
        single
    } else if single as int % 0x8000_0000 == 0 {
        (SINGLE_SIGN_BIT + 1) as u32
    } else if single < SINGLE_SIGN_BIT {
        (single - 1) as u32
    } else {
        (single + 1) as u32
    }
}

/// The binary64 magnitude with a significand of twenty-four bits, which need
/// not be normalised, and a biased exponent.
pub open spec fn scaled(significand: int, exponent: int) -> int
    decreases 0x100_0000 - significand,
{
    if significand >= 0x80_0000 || significand <= 0 {
        exponent * 0x10_0000_0000_0000 + (significand - 0x80_0000) * 0x2000_0000
    } else {
        scaled(2 * significand, exponent - 1)
    }
}

/// The binary64 magnitude of the same number as a binary32 magnitude.
pub open spec fn widened_magnitude(m: int) -> int {
    let exponent = m / 0x80_0000;
    let fraction = m % 0x80_0000;
    if m == 0 {
        0
    } else if exponent == 0 {
        scaled(fraction, 897)
    } else if exponent == 255 {
        FLOAT_INFINITY_BITS + fraction * 0x2000_0000
    } else {
        scaled(fraction + 0x80_0000, exponent + 896)
    }
}

/// The binary64 value of the same number as a binary32 value.
pub open spec fn widened(single: u32) -> u64 {
    let magnitude = widened_magnitude(single as int % 0x8000_0000);
    if single >= SINGLE_SIGN_BIT {
        (SIGN_BIT + magnitude) as u64
    } else {
        magnitude as u64
    }
}

/// Whether bits are those of a number in the binary32 format.
pub open spec fn is_single_number(single: u32) -> bool {
    single as int % 0x8000_0000 <= SINGLE_INFINITY_BITS
}

/// Whether a value is exactly representable in the binary32 format.
pub open spec fn is_single(bits: u64) -> bool {
    exists|single: u32| is_single_number(single) && #[trigger] widened(single) == bits
}

/// A value in the binary32 format.
pub open spec fn single_of(bits: u64) -> u32 {
    choose|single: u32| is_single_number(single) && #[trigger] widened(single) == bits
}

/// A significand that is not normalised stands for less than one that is.
proof fn lemma_scaled_upper(significand: int, exponent: int)
    requires
        0 < significand < 0x100_0000,
    ensures
        significand < 0x80_0000 ==> scaled(significand, exponent) < exponent * 0x10_0000_0000_0000,
        scaled(significand, exponent) < (exponent + 1) * 0x10_0000_0000_0000,
    decreases 0x100_0000 - significand,
{
    if significand < 0x80_0000 {
        lemma_scaled_upper(2 * significand, exponent - 1);
    }
}

/// How little a significand may stand for.
pub(crate) proof fn lemma_scaled_lower(significand: int, exponent: int, doublings: nat)
    requires
        0 < significand < 0x100_0000,
        doublings <= 23,
        significand >= vstd::arithmetic::power2::pow2(doublings),
    ensures
        scaled(significand, exponent) >= (exponent - 23 + doublings) * 0x10_0000_0000_0000,
    decreases 0x100_0000 - significand,
{
    vstd::arithmetic::power2::lemma2_to64();
    if significand < 0x80_0000 {
        if doublings == 23 {
            assert(false);
        }
        vstd::arithmetic::power2::lemma_pow2_unfold(doublings + 1);
        lemma_scaled_lower(2 * significand, exponent - 1, doublings + 1);
    }
}

/// Larger significands stand for larger numbers.
proof fn lemma_scaled_increases(f: int, g: int, exponent: int)
    requires
        0 < f < g < 0x100_0000,
    ensures
        scaled(f, exponent) < scaled(g, exponent),
    decreases 0x100_0000 - f,
{
    if f >= 0x80_0000 {
    } else if g >= 0x80_0000 {
        lemma_scaled_upper(f, exponent);
    } else {
        lemma_scaled_increases(2 * f, 2 * g, exponent - 1);
    }
}

/// Widening keeps to the range of magnitudes.
pub(crate) proof fn lemma_widened_bounds(m: int)
    requires
        0 <= m <= SINGLE_INFINITY_BITS,
    ensures
        0 <= widened_magnitude(m) <= FLOAT_INFINITY_BITS,
        m > 0 ==> widened_magnitude(m) > 0,
        m < SINGLE_INFINITY_BITS ==> widened_magnitude(m) < 1151 * 0x10_0000_0000_0000,
{
    let exponent = m / 0x80_0000;
    let fraction = m % 0x80_0000;
    if m == 0 {
    } else if exponent == 0 {
        vstd::arithmetic::power2::lemma2_to64();
        lemma_scaled_lower(fraction, 897, 0);
        lemma_scaled_upper(fraction, 897);
    } else if exponent < 255 {
        lemma_scaled_upper(fraction + 0x80_0000, exponent + 896);
    }
}

/// Larger numbers have larger magnitudes in both formats.
pub proof fn lemma_widening_increases(m: int, n: int)
    requires
        0 <= m < n <= SINGLE_INFINITY_BITS,
    ensures
        widened_magnitude(m) < widened_magnitude(n),
{
    lemma_widened_bounds(m);
    lemma_widened_bounds(n);
    let (a, b) = (m / 0x80_0000, n / 0x80_0000);
    let (f, g) = (m % 0x80_0000, n % 0x80_0000);
    if m > 0 && b < 255 {
        if a == b {
            if a == 0 {
                lemma_scaled_increases(f, g, 897);
            }
        } else if a == 0 {
            lemma_scaled_upper(f, 897);
        }
    }
}

/// A number has one binary32 form.
proof fn lemma_single_is_unique(a: u32, b: u32)
    requires
        is_single_number(a),
        is_single_number(b),
        widened(a) == widened(b),
    ensures
        a == b,
{
    let (m, n) = (a as int % 0x8000_0000, b as int % 0x8000_0000);
    lemma_widened_bounds(m);
    lemma_widened_bounds(n);
    if m < n {
        lemma_widening_increases(m, n);
    }
    if n < m {
        lemma_widening_increases(n, m);
    }
}

/// Widens a binary32 magnitude.
pub(crate) fn widen_magnitude(m: u32) -> (r: u64)
    requires
        m <= SINGLE_INFINITY_BITS,
    ensures
        r == widened_magnitude(m as int),
{
    proof {
        lemma_widened_bounds(m as int);
    }
    if m == 0 {
        return 0;
    }
    let exponent: u64 = (m / 0x80_0000) as u64;
    let fraction: u64 = (m % 0x80_0000) as u64;
    if exponent == 255 {
        return FLOAT_INFINITY_BITS;
    }
    let mut significand: u64 = fraction;
    let mut biased: u64 = 897;
    if exponent > 0 {
        significand = fraction + 0x80_0000;
        biased = exponent + 896;
    }
    let ghost end = widened_magnitude(m as int);
    while significand < 0x80_0000
        invariant
            0 < significand < 0x100_0000,
            biased <= 1150,
            scaled(significand as int, biased as int) == end,
            end >= 0,
        decreases 0x100_0000 - significand,
    {
        proof {
            lemma_scaled_upper(significand as int, biased as int);
        }
        significand = significand * 2;
        biased = biased - 1;
    }
    biased * 0x10_0000_0000_0000 + (significand - 0x80_0000) * 0x2000_0000
}

/// Widens a binary32 number.
pub(crate) fn widen(single: u32) -> (r: u64)
    requires
        is_single_number(single),
    ensures
        r == widened(single),
{
    proof {
        lemma_widened_bounds(single as int % 0x8000_0000);
    }
    let magnitude: u64 = widen_magnitude(single % 0x8000_0000);
    if single >= SINGLE_SIGN_BIT {
        SIGN_BIT + magnitude
    } else {
        magnitude
    }
}

/// The binary32 form of a value that is not NaN, if it has one.
fn narrow(bits: u64) -> (r: Option<u32>)
    requires
        !is_nan(bits),
    ensures
        r is Some == is_single(bits),
        r matches Some(single) ==> {
            &&& is_single_number(single)
            &&& widened(single) == bits
            &&& single == single_of(bits)
        },
{
    let negative = bits >= SIGN_BIT;
    let magnitude: u64 = bits % SIGN_BIT;
    let mut low: u32 = 0;
    let mut high: u32 = SINGLE_INFINITY_BITS;
    while low < high
        invariant
            low <= high <= SINGLE_INFINITY_BITS,
            forall|x: int| 0 <= x < low ==> #[trigger] widened_magnitude(x) < magnitude,
            high < SINGLE_INFINITY_BITS ==> widened_magnitude(high as int) >= magnitude,
        decreases high - low,
    {
        let mid: u32 = low + (high - low) / 2;
        if widen_magnitude(mid) < magnitude {
            assert forall|x: int| 0 <= x < mid + 1 implies #[trigger] widened_magnitude(x)
                < magnitude by {
                if x < mid {
                    lemma_widening_increases(x, mid as int);
                }
            }
            low = mid + 1;
        } else {
            high = mid;
        }
    }
    proof {
        lemma_widened_bounds(low as int);
    }
    if widen_magnitude(low) != magnitude {
        proof {
            if is_single(bits) {
                let single = single_of(bits);
                let m = single as int % 0x8000_0000;
                lemma_widened_bounds(m);
                assert(widened_magnitude(m) == magnitude);
                if m > low {
                    lemma_widening_increases(low as int, m);
                }
            }
        }
        return None;
    }
    let single: u32 = if negative {
        SINGLE_SIGN_BIT + low
    } else {
        low
    };
    proof {
        assert(widened(single) == bits);
        lemma_single_is_unique(single, single_of(bits));
    }
    Some(single)
}

/// A request for a floating-point value.
#[derive(Clone, Copy, Debug, PartialEq, Eq, Structural)]
pub struct FloatSpec {
    /// The number of bits of the format, 32 or 64.
    pub width: u32,
    /// The bits of the smallest value.
    pub min_bits: u64,
    /// The bits of the largest value.
    pub max_bits: u64,
    /// Whether NaN may be drawn.
    pub allow_nan: bool,
    /// Whether infinities may be drawn.
    pub allow_infinity: bool,
    /// Whether the smallest value itself is excluded.
    pub exclude_min: bool,
    /// Whether the largest value itself is excluded.
    pub exclude_max: bool,
    /// The bits of the smallest magnitude besides zero.
    pub smallest_magnitude_bits: u64,
}

/// What is wrong with a request for a floating-point value.
#[derive(Clone, Copy, Debug, PartialEq, Eq, Structural)]
pub enum FloatFault {
    /// There is no such format.
    Width(u32),
    /// The smallest magnitude is not positive and finite.
    Magnitude,
    /// A bound is NaN.
    NanBound,
    /// NaN was allowed beside a finite bound.
    NanWithBounds,
    /// Infinities were allowed beside two finite bounds.
    InfinityWithBounds,
    /// The smallest value is not one of the format.
    MinInexact,
    /// The largest value is not one of the format.
    MaxInexact,
    /// The range between the bounds, given as bits, is empty.
    EmptyRange(u64, u64),
}

/// The range of a request for a floating-point value, as bits.
#[derive(Clone, Copy, Debug, PartialEq, Eq, Structural)]
pub struct FloatBounds {
    /// The bits of the smallest value.
    pub min_bits: u64,
    /// The bits of the largest value.
    pub max_bits: u64,
}

/// What real arithmetic makes of floating-point values, which are given as
/// bits. The results are examined before they are used.
pub trait FloatArithmetic {
    /// The value one above or one below, rounded.
    fn float_step(&self, bits: u64, up: bool) -> u64;

    /// The value that lies a share of the way from one finite value to another.
    /// The whole way has a share of two to the power of fifty-two, less one.
    fn float_between(&self, min: u64, max: u64, share: u64) -> u64;

    /// A value written out.
    fn float_text(&self, bits: u64) -> String;
}

impl FloatSpec {
    /// The smallest value that is not excluded.
    pub open spec fn open_min(self) -> u64 {
        if !self.exclude_min {
            self.min_bits
        } else if self.width == 32 {
            widened(single_above(single_of(self.min_bits)))
        } else {
            above(self.min_bits)
        }
    }

    /// The largest value that is not excluded.
    pub open spec fn open_max(self) -> u64 {
        if !self.exclude_max {
            self.max_bits
        } else if self.width == 32 {
            widened(single_below(single_of(self.max_bits)))
        } else {
            below(self.max_bits)
        }
    }

    /// The smallest value to be drawn.
    pub open spec fn least(self) -> u64 {
        if self.width == 32 && !self.allow_infinity && place(self.open_min()) < -SINGLE_MAX_BITS {
            (SIGN_BIT + SINGLE_MAX_BITS) as u64
        } else {
            self.open_min()
        }
    }

    /// The largest value to be drawn.
    pub open spec fn greatest(self) -> u64 {
        if self.width == 32 && !self.allow_infinity && place(self.open_max()) > SINGLE_MAX_BITS {
            SINGLE_MAX_BITS
        } else {
            self.open_max()
        }
    }

    /// What is wrong with the request.
    pub open spec fn fault(self) -> Option<FloatFault> {
        if self.width != 32 && self.width != 64 {
            Some(FloatFault::Width(self.width))
        } else if !(is_finite(self.smallest_magnitude_bits) && place(self.smallest_magnitude_bits)
            > 0) {
            Some(FloatFault::Magnitude)
        } else if is_nan(self.min_bits) || is_nan(self.max_bits) {
            Some(FloatFault::NanBound)
        } else if self.allow_nan && (is_finite(self.min_bits) || is_finite(self.max_bits)) {
            Some(FloatFault::NanWithBounds)
        } else if self.allow_infinity && is_finite(self.min_bits) && is_finite(self.max_bits) {
            Some(FloatFault::InfinityWithBounds)
        } else if self.width == 32 && !is_single(self.min_bits) {
            Some(FloatFault::MinInexact)
        } else if self.width == 32 && !is_single(self.max_bits) {
            Some(FloatFault::MaxInexact)
        } else if place(self.least()) > place(self.greatest()) {
            Some(FloatFault::EmptyRange(self.least(), self.greatest()))
        } else {
            None
        }
    }

    /// The range of the request, or what is wrong with it.
    ///
    /// A bound that is excluded gives way to the next value of the format, and
    /// binary32 values are finite unless infinities are allowed.
    pub fn bounds(self) -> (r: Result<FloatBounds, FloatFault>)
        ensures
            match self.fault() {
                Some(fault) => r == Err::<FloatBounds, FloatFault>(fault),
                None => r == Ok::<FloatBounds, FloatFault>(
                    FloatBounds { min_bits: self.least(), max_bits: self.greatest() },
                ),
            },
    {
        if self.width != 32 && self.width != 64 {
            return Err(FloatFault::Width(self.width));
        }
        if self.smallest_magnitude_bits == 0 || self.smallest_magnitude_bits
            >= FLOAT_INFINITY_BITS {
            return Err(FloatFault::Magnitude);
        }
        let min_magnitude: u64 = self.min_bits % SIGN_BIT;
        let max_magnitude: u64 = self.max_bits % SIGN_BIT;
        if min_magnitude > FLOAT_INFINITY_BITS || max_magnitude > FLOAT_INFINITY_BITS {
            return Err(FloatFault::NanBound);
        }
        let min_finite = min_magnitude < FLOAT_INFINITY_BITS;
        let max_finite = max_magnitude < FLOAT_INFINITY_BITS;
        if self.allow_nan && (min_finite || max_finite) {
            return Err(FloatFault::NanWithBounds);
        }
        if self.allow_infinity && min_finite && max_finite {
            return Err(FloatFault::InfinityWithBounds);
        }
        let mut min: u64 = self.min_bits;
        let mut max: u64 = self.max_bits;
        if self.width == 32 {
            let min_single: u32 = match narrow(self.min_bits) {
                Some(single) => single,
                None => {
                    return Err(FloatFault::MinInexact);
                },
            };
            let max_single: u32 = match narrow(self.max_bits) {
                Some(single) => single,
                None => {
                    return Err(FloatFault::MaxInexact);
                },
            };
            if self.exclude_min {
                min = widen(step_up(min_single));
            }
            if self.exclude_max {
                max = widen(step_down(max_single));
            }
            if !self.allow_infinity {
                if min > SIGN_BIT + SINGLE_MAX_BITS {
                    min = SIGN_BIT + SINGLE_MAX_BITS;
                }
                if max < SIGN_BIT && max > SINGLE_MAX_BITS {
                    max = SINGLE_MAX_BITS;
                }
            }
        } else {
            if self.exclude_min {
                min = next_up(min);
            }
            if self.exclude_max {
                max = next_down(max);
            }
        }
        if is_below(max, min) {
            return Err(FloatFault::EmptyRange(min, max));
        }
        Ok(FloatBounds { min_bits: min, max_bits: max })
    }
}

/// The least binary32 value above.
pub(crate) fn step_up(single: u32) -> (r: u32)
    requires
        is_single_number(single),
    ensures
        r == single_above(single),
        is_single_number(r),
{
    if single == SINGLE_INFINITY_BITS {
        single
    } else if single % 0x8000_0000 == 0 {
        1
    } else if single < SINGLE_SIGN_BIT {
        single + 1
    } else {
        single - 1
    }
}

/// The greatest binary32 value below.
pub(crate) fn step_down(single: u32) -> (r: u32)
    requires
        is_single_number(single),
    ensures
        r == single_below(single),
        is_single_number(r),
{
    if single == SINGLE_SIGN_BIT + SINGLE_INFINITY_BITS {
        single
    } else if single % 0x8000_0000 == 0 {
        SINGLE_SIGN_BIT + 1
    } else if single < SINGLE_SIGN_BIT {
        single - 1
    } else {
        single + 1
    }
}

/// The least binary64 value above.
pub fn next_up(bits: u64) -> (r: u64)
    ensures
        r == above(bits),
{
    let magnitude: u64 = bits % SIGN_BIT;
    if magnitude > FLOAT_INFINITY_BITS || bits == FLOAT_INFINITY_BITS {
        bits
    } else if magnitude == 0 {
        1
    } else if bits < SIGN_BIT {
        bits + 1
    } else {
        bits - 1
    }
}

/// The greatest binary64 value below.
pub fn next_down(bits: u64) -> (r: u64)
    ensures
        r == below(bits),
{
    let magnitude: u64 = bits % SIGN_BIT;
    if magnitude > FLOAT_INFINITY_BITS || bits == SIGN_BIT + FLOAT_INFINITY_BITS {
        bits
    } else if magnitude == 0 {
        SIGN_BIT + 1
    } else if bits < SIGN_BIT {
        bits - 1
    } else {
        bits + 1
    }
}

/// Whether one value is less than another.
pub(crate) fn is_below(a: u64, b: u64) -> (r: bool)
    ensures
        r == (place(a) < place(b)),
{
    let (m, n): (u64, u64) = (a % SIGN_BIT, b % SIGN_BIT);
    if a >= SIGN_BIT {
        if b >= SIGN_BIT {
            m > n
        } else {
            m > 0 || n > 0
        }
    } else {
        b < SIGN_BIT && m < n
    }
}

/// A request without fault has a range with a value in it, and a bound that
/// was excluded is not in it.
pub proof fn lemma_bounds_are_met(spec: FloatSpec)
    requires
        spec.fault() is None,
    ensures
        place(spec.least()) <= place(spec.greatest()),
        spec.exclude_min && spec.min_bits != FLOAT_INFINITY_BITS ==> place(spec.min_bits) < place(
            spec.least(),
        ),
        spec.exclude_max && spec.max_bits != SIGN_BIT + FLOAT_INFINITY_BITS ==> place(
            spec.greatest(),
        ) < place(spec.max_bits),
{
    if spec.width == 32 {
        lemma_single_neighbours(single_of(spec.min_bits));
        lemma_single_neighbours(single_of(spec.max_bits));
    }
}

/// The neighbours of a binary32 number are its neighbours when widened, too.
proof fn lemma_single_neighbours(single: u32)
    requires
        is_single_number(single),
    ensures
        widened(single) != FLOAT_INFINITY_BITS ==> place(widened(single)) < place(
            widened(single_above(single)),
        ),
        widened(single) != SIGN_BIT + FLOAT_INFINITY_BITS ==> place(widened(single_below(single)))
            < place(widened(single)),
{
    let (up, down) = (single_above(single), single_below(single));
    let (m, n, k) = (
        single as int % 0x8000_0000,
        up as int % 0x8000_0000,
        down as int % 0x8000_0000,
    );
    lemma_widened_bounds(m);
    lemma_widened_bounds(n);
    lemma_widened_bounds(k);
    if m < n {
        lemma_widening_increases(m, n);
    }
    if n < m {
        lemma_widening_increases(n, m);
    }
    if m < k {
        lemma_widening_increases(m, k);
    }
    if k < m {
        lemma_widening_increases(k, m);
    }
}

/// The message of a fault, with the bounds and the smallest magnitude of the
/// request written out.
pub open spec fn fault_text(
    fault: FloatFault,
    min: Seq<char>,
    max: Seq<char>,
    magnitude: Seq<char>,
) -> Seq<char> {
    match fault {
        FloatFault::Width(width) => "unsupported float width: "@ + decimal(width as nat)
            + " — Hegel supports widths 32 and 64"@,
        FloatFault::Magnitude =>
            "smallest_nonzero_magnitude must be a positive finite float, got "@ + magnitude,
        FloatFault::NanBound => "float bounds must not be NaN"@,
        FloatFault::NanWithBounds => "Cannot have allow_nan=true with min_value or max_value"@,
        FloatFault::InfinityWithBounds =>
            "Cannot have allow_infinity=true with both min_value and max_value"@,
        FloatFault::MinInexact => "min_value ("@ + min
            + ") cannot be exactly represented as a float of width 32"@,
        FloatFault::MaxInexact => "max_value ("@ + max
            + ") cannot be exactly represented as a float of width 32"@,
        FloatFault::EmptyRange(_, _) => "min_value ("@ + min + ") must be <= max_value ("@ + max
            + ") after exclusive-bound adjustment"@,
    }
}

/// The message of a fault. The texts are those of the bounds, or of the range
/// that is empty, and of the smallest magnitude.
pub fn fault_message(fault: FloatFault, min: &str, max: &str, magnitude: &str) -> (r: String)
    ensures
        r@ == fault_text(fault, min@, max@, magnitude@),
{
    match fault {
        FloatFault::Width(width) => {
            let mut m = String::from_str("unsupported float width: ");
            append_usize(&mut m, width as usize);
            m.append(" — Hegel supports widths 32 and 64");
            m
        },
        FloatFault::Magnitude => {
            let mut m = String::from_str(
                "smallest_nonzero_magnitude must be a positive finite float, got ",
            );
            m.append(magnitude);
            m
        },
        FloatFault::NanBound => String::from_str("float bounds must not be NaN"),
        FloatFault::NanWithBounds => String::from_str(
            "Cannot have allow_nan=true with min_value or max_value",
        ),
        FloatFault::InfinityWithBounds => String::from_str(
            "Cannot have allow_infinity=true with both min_value and max_value",
        ),
        FloatFault::MinInexact => {
            let mut m = String::from_str("min_value (");
            m.append(min);
            m.append(") cannot be exactly represented as a float of width 32");
            m
        },
        FloatFault::MaxInexact => {
            let mut m = String::from_str("max_value (");
            m.append(max);
            m.append(") cannot be exactly represented as a float of width 32");
            m
        },
        FloatFault::EmptyRange(_, _) => {
            let mut m = String::from_str("min_value (");
            m.append(min);
            m.append(") must be <= max_value (");
            m.append(max);
            m.append(") after exclusive-bound adjustment");
            m
        },
    }
}

} // verus!
