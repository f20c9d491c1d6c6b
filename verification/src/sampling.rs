//! Fresh values for choices.
//!
//! Each kind of choice has a sampler that favours values that bugs like. What
//! a sampler makes of the random numbers it gets is stated exactly by the
//! functions that take those numbers as arguments; of its own result it states
//! what holds whatever numbers came.
use crate::bignum::bit_length;
use crate::bignum::bytes_value;
use crate::bignum::lemma_bit_length;
use crate::bignum::BigInt;
use crate::bignum::BigUint;
use crate::bignum::Comparison;
use crate::choices::float_fits;
use crate::floats::FloatArithmetic;
use crate::choices::value_fits;
use crate::choices::FloatChoice;
use crate::choices::IntegerChoice;
use crate::choices::KindView;
use crate::choices::Probability;
use crate::choices::ValueView;
use crate::choices::PROBABILITY_ONE;
use crate::errors::InternalError;
use crate::float_weights::GenerationParameters;
use crate::integer_constants::ascending;
use crate::integer_constants::first_above;
use crate::integer_constants::first_at_least;
use crate::integer_constants::holds_exactly;
use crate::integer_constants::is_interesting;
use crate::integer_constants::is_large_constant;
use crate::integer_constants::IntegerPools;
use crate::rng::EngineRng;
use crate::rng::UNIT_STEPS;
use crate::text_constants::TextPool;
use vstd::arithmetic::power2::pow2;
use vstd::prelude::*;

verus! {

/// Laws of chance that need real arithmetic. What they return is brought into
/// range before it is used. A `share` is a random number below one, in units of
/// two to the minus fifty-third.
pub trait Distributions: FloatArithmetic + Copy {
    /// Whether the bounds of a range can be told apart, so that
    /// [`Distributions::middle_integer`] makes sense of it.
    fn tells_apart(&self, min: i128, max: i128) -> bool;

    /// The integer below which a share of the integers of `[min, max]` lies, where
    /// small ones are more frequent than large ones.
    fn middle_integer(&self, min: i128, max: i128, share: u64) -> i128;

    /// How many elements a collection of `[min_size, max_size]` elements has
    /// beyond `min_size`, for a share of such collections.
    fn extra_length(&self, min_size: usize, max_size: usize, share: u64) -> usize;
}

/// The weights of the categories from which an integer of a wide range is
/// drawn. What is left of the whole goes to the middle.
#[derive(Clone, Copy, Debug, PartialEq, Eq, Structural)]
pub struct IntegerGenerationParameters {
    /// The weight of the ends of the range and what lies next to them.
    pub endpoint: Probability,
    /// The weight of the interesting numbers.
    pub interesting: Probability,
    /// The weight of the large constants.
    pub diffuse: Probability,
}

/// What sampling draws on.
pub struct Sampler<D: Distributions> {
    /// The numbers to favour.
    pub integers: IntegerPools,
    /// The texts to favour.
    pub texts: TextPool,
    /// The chance of each favoured value.
    pub boundary: Probability,
    /// The width from which a range of integers is wide.
    pub curated_min_width: u128,
    /// The weights to use where a test case has none of its own.
    pub weights: GenerationParameters,
    /// The laws of chance.
    pub distributions: D,
}

/// The smaller of two numbers.
pub open spec fn least(a: int, b: int) -> int {
    if a < b {
        a
    } else {
        b
    }
}

/// The chance that one of `count` favoured values is drawn, in units: each has
/// the same chance, and together they have at most one half.
pub fn nasty_threshold(count: usize, boundary: Probability) -> (r: u64)
    ensures
        r == least(count * boundary.numerator, PROBABILITY_ONE as int / 2),
{
    let half: u64 = PROBABILITY_ONE / 2;
    assert(count * boundary.numerator <= u64::MAX * u64::MAX) by (nonlinear_arith)
        requires
            0 <= count <= u64::MAX,
            0 <= boundary.numerator <= u64::MAX,
    ;
    assert(0 <= count * boundary.numerator) by (nonlinear_arith);
    let all: u128 = (count as u128) * (boundary.numerator as u128);
    if all < half as u128 {
        all as u64
    } else {
        half
    }
}

/// The members of a pool that lie in `[min, max]`, in order.
pub fn window(pool: &Vec<i128>, min: i128, max: i128) -> (r: Vec<i128>)
    requires
        ascending(pool@),
    ensures
        ascending(r@),
        forall|v: i128| #[trigger] r@.contains(v) <==> pool@.contains(v) && min <= v <= max,
{
    let lo: usize = first_at_least(pool, min);
    let hi: usize = first_above(pool, max);
    let mut out: Vec<i128> = Vec::new();
    let mut i: usize = lo;
    while i < hi
        invariant
            lo <= hi ==> lo <= i <= hi,
            lo > hi ==> i == lo,
            hi <= pool@.len(),
            lo <= hi ==> out@ == pool@.subrange(lo as int, i as int),
            lo > hi ==> out@.len() == 0,
        decreases if i <= hi { hi - i } else { 0 },
    {
        out.push(pool[i]);
        assert(pool@.subrange(lo as int, i + 1) =~= pool@.subrange(lo as int, i as int).push(
            pool@[i as int],
        ));
        i = i + 1;
    }
    proof {
        assert forall|v: i128| #[trigger] out@.contains(v) <==> pool@.contains(v) && min <= v
            <= max by {
            if out@.contains(v) {
                let k = choose|k: int| 0 <= k < out@.len() && out@[k] == v;
                assert(pool@[lo + k] == v);
            }
            if pool@.contains(v) && min <= v <= max {
                let k = choose|k: int| 0 <= k < pool@.len() && pool@[k] == v;
                assert(lo <= k < hi);
                assert(out@[k - lo] == v);
            }
        }
    }
    out
}

/// The numbers that a narrow range favours, in order: its ends, and what it
/// holds of the pool.
pub fn narrow_candidates(pool: &Vec<i128>, min: i128, max: i128) -> (r: Vec<i128>)
    requires
        ascending(pool@),
        min < max,
    ensures
        holds_exactly(
            r@,
            |v: int|
                v == min || v == max || min <= v <= max && i128::MIN <= v <= i128::MAX
                    && pool@.contains(v as i128),
        ),
        r@.len() >= 2,
{
    let mut out = window(pool, min, max);
    let ghost inner = out@;
    if out.len() == 0 || out[0] != min {
        proof {
            assert forall|i: int| 0 <= i < inner.len() implies min < inner[i] by {
                assert(inner.contains(inner[i]));
                assert(inner[0] <= inner[i]);
                assert(inner.contains(inner[0]));
            }
        }
        out.insert(0, min);
    }
    let ghost low = out@;
    proof {
        assert(low[0] == min);
        assert forall|v: i128| #[trigger] low.contains(v) <==> inner.contains(v) || v == min by {
            if low.contains(v) && low != inner {
                let k = choose|k: int| 0 <= k < low.len() && low[k] == v;
                if k > 0 {
                    assert(inner[k - 1] == v);
                }
            }
            if inner.contains(v) && low != inner {
                let k = choose|k: int| 0 <= k < inner.len() && inner[k] == v;
                assert(low[k + 1] == v);
            }
            if v == min {
                assert(low[0] == v);
            }
        }
        assert(ascending(low));
    }
    let n: usize = out.len();
    if out[n - 1] != max {
        proof {
            assert forall|i: int| 0 <= i < low.len() implies low[i] < max by {
                assert(low.contains(low[i]));
                assert(low[i] <= low[low.len() - 1]);
                assert(low.contains(low[low.len() - 1]));
            }
        }
        out.push(max);
    }
    proof {
        let all = out@;
        assert(all[all.len() - 1] == max);
        assert(all[0] == min);
        assert forall|v: i128| #[trigger] all.contains(v) <==> low.contains(v) || v == max by {
            if all.contains(v) && all != low {
                let k = choose|k: int| 0 <= k < all.len() && all[k] == v;
                if k < low.len() {
                    assert(low[k] == v);
                }
            }
            if low.contains(v) {
                let k = choose|k: int| 0 <= k < low.len() && low[k] == v;
                assert(all[k] == v);
            }
            if v == max {
                assert(all[all.len() - 1] == v);
            }
        }
    }
    out
}

/// A number brought into `[min, max]`.
pub fn clamp_integer(v: i128, min: i128, max: i128) -> (r: i128)
    requires
        min <= max,
    ensures
        r == clamped(v as int, min as int, max as int),
{
    if v < min {
        min
    } else if v > max {
        max
    } else {
        v
    }
}

/// Whether a list holds exactly the numbers with a property, each once.
pub open spec fn lists(list: Seq<int>, p: spec_fn(int) -> bool) -> bool {
    &&& list.no_duplicates()
    &&& forall|v: int| #[trigger] list.contains(v) <==> p(v)
}

/// Whether the next number that is handed out is an index into a list, and `v`
/// is what stands there.
pub open spec fn picked(before: Seq<int>, after: Seq<int>, list: Seq<int>, v: int) -> bool {
    exists|i: int| 0 <= i < list.len() && after == before.push(i) && v == #[trigger] list[i]
}

/// A number brought into `[min, max]`.
pub open spec fn clamped(v: int, min: int, max: int) -> int {
    if v < min {
        min
    } else if v > max {
        max
    } else {
        v
    }
}

/// Whether the next number that is handed out decides where in `[min, max]` the
/// number `v` lies. Where the laws of chance tell the bounds apart, it is the share
/// from which they work `v` out, and else it is `v` itself.
pub open spec fn spread<D: Distributions>(
    d: D,
    before: Seq<int>,
    after: Seq<int>,
    min: int,
    max: int,
    v: int,
) -> bool {
    exists|apart: bool|
        #[trigger] call_ensures(D::tells_apart, (&d, min as i128, max as i128), apart) && if apart {
            middle_drawn(d, before, after, min, max, v)
        } else {
            min <= v <= max && after == before.push(v)
        }
}

/// Whether the next number that is handed out is the share from which the laws of
/// chance work out the number `v` of `[min, max]`.
pub open spec fn middle_drawn<D: Distributions>(
    d: D,
    before: Seq<int>,
    after: Seq<int>,
    min: int,
    max: int,
    v: int,
) -> bool {
    exists|share: u64, middle: i128|
        {
            &&& #[trigger] call_ensures(
                D::middle_integer,
                (&d, min as i128, max as i128, share),
                middle,
            )
            &&& share < UNIT_STEPS
            &&& after == before.push(share as int)
            &&& v == clamped(middle as int, min, max)
        }
}

/// Whether a number is favoured in a narrow range.
pub open spec fn is_narrow_candidate(v: int, min: int, max: int) -> bool {
    v == min || v == max || min <= v <= max && (is_interesting(v) || is_large_constant(v))
}

/// Whether `v` comes of a narrow range: the first number that is handed out
/// decides whether one of the favoured numbers is picked.
pub open spec fn narrow_outcome<D: Distributions>(
    d: D,
    before: Seq<int>,
    after: Seq<int>,
    boundary: Probability,
    min: int,
    max: int,
    v: int,
) -> bool {
    exists|u: int, list: Seq<int>| #[trigger]
        narrow_draw(d, before, after, boundary, min, max, v, u, list)
}

/// Whether `v` comes of a narrow range whose favoured numbers are listed, when
/// the first number that is handed out is `u`.
pub open spec fn narrow_draw<D: Distributions>(
    d: D,
    before: Seq<int>,
    after: Seq<int>,
    boundary: Probability,
    min: int,
    max: int,
    v: int,
    u: int,
    list: Seq<int>,
) -> bool {
    &&& 0 <= u < UNIT_STEPS
    &&& lists(list, |c: int| is_narrow_candidate(c, min, max))
    &&& if u < least(list.len() * boundary.numerator, PROBABILITY_ONE as int / 2) {
        picked(before.push(u), after, list, v)
    } else {
        spread(d, before.push(u), after, min, max, v)
    }
}

/// The numbers of a list.
pub open spec fn as_integers(list: Seq<i128>) -> Seq<int> {
    list.map_values(|v: i128| v as int)
}

proof fn lemma_as_integers(list: Seq<i128>)
    ensures
        as_integers(list).len() == list.len(),
        forall|i: int| 0 <= i < list.len() ==> #[trigger] as_integers(list)[i] == list[i],
        forall|v: int| #[trigger] as_integers(list).contains(v) <==> i128::MIN <= v <= i128::MAX
            && list.contains(v as i128),
        ascending(list) ==> as_integers(list).no_duplicates(),
{
    let all = as_integers(list);
    assert forall|v: int| #[trigger] all.contains(v) <==> i128::MIN <= v <= i128::MAX
        && list.contains(v as i128) by {
        if all.contains(v) {
            let i = choose|i: int| 0 <= i < all.len() && all[i] == v;
            assert(list[i] == v as i128);
        }
        if i128::MIN <= v <= i128::MAX && list.contains(v as i128) {
            let i = choose|i: int| 0 <= i < list.len() && list[i] == v as i128;
            assert(all[i] == v);
        }
    }
}

impl<D: Distributions> Sampler<D> {
    /// An integer of `[min, max]`, more often small than large. Each is as likely
    /// as any other where the bounds are too near to each other, or too far out,
    /// to be told apart.
    pub fn integer_sample_from_distribution(
        &self,
        min: i128,
        max: i128,
        rng: &mut EngineRng,
    ) -> (r: Result<i128, InternalError>)
        requires
            min <= max,
        ensures
            r matches Ok(v) && min <= v <= max && spread(
                self.distributions,
                old(rng).handed(),
                final(rng).handed(),
                min as int,
                max as int,
                v as int,
            ),
    {
        let ghost before = rng.handed();
        if self.distributions.tells_apart(min, max) {
            let share: u64 = rng.unit();
            let middle: i128 = self.distributions.middle_integer(min, max, share);
            let v: i128 = clamp_integer(middle, min, max);
            assert(middle_drawn(
                self.distributions,
                before,
                rng.handed(),
                min as int,
                max as int,
                v as int,
            ));
            Ok(v)
        } else {
            Ok(rng.range_wide(min, max))
        }
    }

    /// An integer of a narrow range.
    pub fn narrow_nasty_sample(&self, min: i128, max: i128, rng: &mut EngineRng) -> (r: Result<
        i128,
        InternalError,
    >)
        requires
            min < max,
        ensures
            r matches Ok(v) && min <= v <= max && narrow_outcome(
                self.distributions,
                old(rng).handed(),
                final(rng).handed(),
                self.boundary,
                min as int,
                max as int,
                v as int,
            ),
    {
        let pool = self.integers.nasty();
        let candidates = narrow_candidates(pool, min, max);
        let ghost list = as_integers(candidates@);
        let ghost before = rng.handed();
        proof {
            lemma_as_integers(candidates@);
            assert forall|c: int| #[trigger] list.contains(c) <==> is_narrow_candidate(
                c,
                min as int,
                max as int,
            ) by {
                if min <= c <= max {
                    assert(candidates@.contains(c as i128) <==> list.contains(c));
                    assert(pool@.contains(c as i128) <==> is_interesting(c) || is_large_constant(
                        c,
                    ));
                }
            }
        }
        let threshold: u64 = nasty_threshold(candidates.len(), self.boundary);
        let u: u64 = rng.unit();
        let r = if u < threshold {
            let idx: usize = rng.index(candidates.len());
            assert(candidates@.contains(candidates@[idx as int]));
            assert(list[idx as int] == candidates@[idx as int]);
            Ok(candidates[idx])
        } else {
            self.integer_sample_from_distribution(min, max, rng)
        };
        assert(narrow_draw(
            self.distributions,
            before,
            rng.handed(),
            self.boundary,
            min as int,
            max as int,
            r->Ok_0 as int,
            u as int,
            list,
        ));
        r
    }
}

/// The ends of a range and what lies next to them, each once.
pub open spec fn endpoint_values(min: int, max: int) -> Seq<int> {
    if max - min == 0 {
        seq![min]
    } else if max - min == 1 {
        seq![min, max]
    } else if max - min == 2 {
        seq![min, max, min + 1]
    } else {
        seq![min, max, min + 1, max - 1]
    }
}

/// A category of integers.
#[derive(Clone, Copy, Debug, PartialEq, Eq, Structural)]
pub enum IntegerCategory {
    Endpoint,
    Interesting,
    Diffuse,
    Middle,
}

/// The category that the number `u` selects. A category without members leaves
/// its weight to the next one.
pub open spec fn category_of(
    u: int,
    w: IntegerGenerationParameters,
    has_interesting: bool,
    has_diffuse: bool,
) -> IntegerCategory {
    if u < w.endpoint.numerator {
        IntegerCategory::Endpoint
    } else if u < w.endpoint.numerator + w.interesting.numerator && has_interesting {
        IntegerCategory::Interesting
    } else if u < w.endpoint.numerator + w.interesting.numerator + w.diffuse.numerator
        && has_diffuse {
        IntegerCategory::Diffuse
    } else {
        IntegerCategory::Middle
    }
}

/// Whether `v` comes of a wide range whose interesting numbers and large
/// constants are listed, when the first number that is handed out is `u`. It
/// selects the category.
pub open spec fn wide_draw<D: Distributions>(
    d: D,
    before: Seq<int>,
    after: Seq<int>,
    min: int,
    max: int,
    params: IntegerGenerationParameters,
    v: int,
    u: int,
    interesting: Seq<int>,
    diffuse: Seq<int>,
) -> bool {
    &&& 0 <= u < UNIT_STEPS
    &&& lists(interesting, |c: int| min <= c <= max && is_interesting(c))
    &&& lists(diffuse, |c: int| min <= c <= max && is_large_constant(c))
    &&& match category_of(u, params, interesting.len() > 0, diffuse.len() > 0) {
        IntegerCategory::Endpoint => picked(
            before.push(u),
            after,
            endpoint_values(min, max),
            v,
        ),
        IntegerCategory::Interesting => picked(before.push(u), after, interesting, v),
        IntegerCategory::Diffuse => picked(before.push(u), after, diffuse, v),
        IntegerCategory::Middle => spread(d, before.push(u), after, min, max, v),
    }
}

/// The category that the number `u` selects.
pub fn select_category(
    u: u64,
    w: IntegerGenerationParameters,
    has_interesting: bool,
    has_diffuse: bool,
) -> (r: IntegerCategory)
    ensures
        r == category_of(u as int, w, has_interesting, has_diffuse),
{
    let u: u128 = u as u128;
    let first: u128 = w.endpoint.numerator as u128;
    let second: u128 = first + w.interesting.numerator as u128;
    let third: u128 = second + w.diffuse.numerator as u128;
    if u < first {
        IntegerCategory::Endpoint
    } else if u < second && has_interesting {
        IntegerCategory::Interesting
    } else if u < third && has_diffuse {
        IntegerCategory::Diffuse
    } else {
        IntegerCategory::Middle
    }
}

/// The ends of a range and what lies next to them.
pub fn endpoints(min: i128, max: i128) -> (r: Vec<i128>)
    requires
        min <= max,
    ensures
        r@.map_values(|v: i128| v as int) == endpoint_values(min as int, max as int),
{
    let mut out: Vec<i128> = Vec::new();
    out.push(min);
    if max != min {
        out.push(max);
        if max != min + 1 {
            out.push(min + 1);
            if max - 1 != min + 1 {
                out.push(max - 1);
            }
        }
    }
    assert(out@.map_values(|v: i128| v as int) =~= endpoint_values(min as int, max as int));
    out
}

impl<D: Distributions> Sampler<D> {
    /// Whether `v` comes of the range `[min, max]`. A range of one number needs no
    /// random numbers.
    pub open spec fn sample_outcome(
        &self,
        before: Seq<int>,
        after: Seq<int>,
        min: int,
        max: int,
        params: IntegerGenerationParameters,
        v: int,
    ) -> bool {
        if min == max {
            v == min && after == before
        } else if self.is_wide(min, max) {
            exists|u: int, interesting: Seq<int>, diffuse: Seq<int>| #[trigger]
                wide_draw(
                    self.distributions,
                    before,
                    after,
                    min,
                    max,
                    params,
                    v,
                    u,
                    interesting,
                    diffuse,
                )
        } else {
            narrow_outcome(self.distributions, before, after, self.boundary, min, max, v)
        }
    }

    /// Whether a range is wide.
    pub open spec fn is_wide(&self, min: int, max: int) -> bool {
        max - min > i128::MAX || max - min >= self.curated_min_width
    }

    /// An integer of `[min, max]`.
    ///
    /// An integer of a wide range comes from one of four categories, weighted
    /// by `params`.
    pub fn biased_i128_sample(
        &self,
        min: i128,
        max: i128,
        rng: &mut EngineRng,
        params: IntegerGenerationParameters,
    ) -> (r: Result<i128, InternalError>)
        requires
            min <= max,
        ensures
            r matches Ok(v) && min <= v <= max && self.sample_outcome(
                old(rng).handed(),
                final(rng).handed(),
                min as int,
                max as int,
                params,
                v as int,
            ),
            min < max && self.is_wide(min as int, max as int) && params.endpoint.numerator
                >= PROBABILITY_ONE ==> (r matches Ok(v) && endpoint_values(
                min as int,
                max as int,
            ).contains(v as int)),
    {
        if min == max {
            return Ok(min);
        }
        let wide = match max.checked_sub(min) {
            Some(w) => w as u128 >= self.curated_min_width,
            None => true,
        };
        if !wide {
            return self.narrow_nasty_sample(min, max, rng);
        }
        let ends = endpoints(min, max);
        assert(ends@.len() == endpoint_values(min as int, max as int).len());
        let interesting = window(self.integers.interesting(), min, max);
        let diffuse = window(self.integers.large(), min, max);
        let ghost curated = as_integers(interesting@);
        let ghost large = as_integers(diffuse@);
        let ghost before = rng.handed();
        proof {
            lemma_as_integers(interesting@);
            lemma_as_integers(diffuse@);
            lemma_as_integers(ends@);
            assert(as_integers(ends@) =~= endpoint_values(min as int, max as int));
            assert forall|c: int| #[trigger] curated.contains(c) <==> min <= c <= max
                && is_interesting(c) by {
                if min <= c <= max {
                    assert(curated.contains(c) <==> interesting@.contains(c as i128));
                }
            }
            assert forall|c: int| #[trigger] large.contains(c) <==> min <= c <= max
                && is_large_constant(c) by {
                if min <= c <= max {
                    assert(large.contains(c) <==> diffuse@.contains(c as i128));
                }
            }
        }
        let u: u64 = rng.unit();
        let category = select_category(u, params, interesting.len() > 0, diffuse.len() > 0);
        let r = match category {
            IntegerCategory::Endpoint => {
                let idx: usize = rng.index(ends.len());
                proof {
                    assert(as_integers(ends@)[idx as int] == ends@[idx as int]);
                    assert(as_integers(ends@).contains(ends@[idx as int] as int));
                }
                Ok(ends[idx])
            },
            IntegerCategory::Interesting => {
                let idx: usize = rng.index(interesting.len());
                assert(interesting@.contains(interesting@[idx as int]));
                assert(curated[idx as int] == interesting@[idx as int]);
                Ok(interesting[idx])
            },
            IntegerCategory::Diffuse => {
                let idx: usize = rng.index(diffuse.len());
                assert(diffuse@.contains(diffuse@[idx as int]));
                assert(large[idx as int] == diffuse@[idx as int]);
                Ok(diffuse[idx])
            },
            IntegerCategory::Middle => self.integer_sample_from_distribution(min, max, rng),
        };
        assert(wide_draw(
            self.distributions,
            before,
            rng.handed(),
            min as int,
            max as int,
            params,
            r->Ok_0 as int,
            u as int,
            curated,
            large,
        ));
        r
    }
}

/// How often a number is drawn again before one that is too large is folded back:
/// as often as can be counted.
pub const SAMPLE_ATTEMPTS: u64 = 0xffff_ffff_ffff_ffff;

/// The number that random bytes make, cut to as many bits as `span` has, where
/// it is at most `span`.
pub fn biguint_candidate(span: &BigUint, bits: usize, bytes: &[u8]) -> (r: Option<BigUint>)
    ensures
        match r {
            Some(v) => v@ == bytes_value(bytes@) % pow2(bits as nat) && v@ <= span@,
            None => bytes_value(bytes@) % pow2(bits as nat) > span@,
        },
{
    let v = BigUint::from_bytes_le(bytes).low_bits(bits);
    if v.compare(span) == Comparison::Greater {
        None
    } else {
        Some(v)
    }
}

/// Bytes as the numbers that they are.
pub open spec fn byte_numbers(bytes: Seq<u8>) -> Seq<int> {
    bytes.map_values(|b: u8| b as int)
}

/// The next bytes that the generator hands out.
pub(crate) fn random_bytes(count: usize, rng: &mut EngineRng) -> (r: Vec<u8>)
    ensures
        r@.len() == count,
        final(rng).handed() == old(rng).handed() + byte_numbers(r@),
{
    let mut out: Vec<u8> = Vec::new();
    let ghost before = rng.handed();
    assert(before + byte_numbers(out@) =~= before);
    while out.len() < count
        invariant
            out@.len() <= count,
            rng.handed() == before + byte_numbers(out@),
        decreases count - out@.len(),
    {
        let ghost shorter = out@;
        let byte: u8 = rng.byte();
        out.push(byte);
        assert(before + byte_numbers(out@) =~= (before + byte_numbers(shorter)).push(byte as int));
    }
    out
}

/// How many bits a number has, as far as they can be counted.
pub open spec fn counted_bits(n: nat) -> nat {
    if bit_length(n) > usize::MAX {
        usize::MAX as nat
    } else {
        bit_length(n)
    }
}

/// How many bytes hold that many bits.
pub open spec fn bytes_for(bits: int) -> int {
    (bits + 7) / 8
}

/// The number that random bytes make, cut to as many bits as `span` has.
pub open spec fn made_of(span: nat, bytes: Seq<u8>) -> int {
    (bytes_value(bytes) % pow2(counted_bits(span))) as int
}

/// The numbers that have been handed out after some attempts.
pub open spec fn after_attempts(before: Seq<int>, attempts: Seq<Seq<u8>>) -> Seq<int>
    decreases attempts.len(),
{
    if attempts.len() == 0 {
        before
    } else {
        after_attempts(before, attempts.drop_last()) + byte_numbers(attempts.last())
    }
}

/// Whether `v` comes of the numbers up to `span`, when the bytes of some attempts
/// are handed out: it is the number that the last ones make, and those before made
/// numbers that are too large. Only after as many attempts as can be counted, a
/// number that is too large is lowered by `span + 1`.
pub open spec fn at_most_draw(
    before: Seq<int>,
    after: Seq<int>,
    span: nat,
    v: int,
    attempts: Seq<Seq<u8>>,
) -> bool {
    let made = made_of(span, attempts.last());
    &&& attempts.len() > 0
    &&& forall|i: int|
        0 <= i < attempts.len() ==> (#[trigger] attempts[i]).len() == bytes_for(
            counted_bits(span) as int,
        )
    &&& forall|i: int|
        0 <= i < attempts.len() - 1 ==> made_of(span, #[trigger] attempts[i]) > span
    &&& after == after_attempts(before, attempts)
    &&& if made <= span {
        v == made
    } else {
        attempts.len() == SAMPLE_ATTEMPTS + 1 && v == made - (span + 1)
    }
}

/// Whether `v` comes of the numbers up to `span`.
pub open spec fn at_most_outcome(before: Seq<int>, after: Seq<int>, span: nat, v: int) -> bool {
    exists|attempts: Seq<Seq<u8>>| #[trigger]
        at_most_draw(before, after, span, v, attempts)
}

/// A number of `[0, span]`: one of as many random bits as `span` has, drawn
/// again while it is too large. That happens to at most one draw in two, so that
/// it never comes to the last attempt that can be counted.
pub fn sample_biguint_at_most(span: &BigUint, rng: &mut EngineRng) -> (r: BigUint)
    requires
        span@ > 0,
    ensures
        r@ <= span@,
        at_most_outcome(old(rng).handed(), final(rng).handed(), span@, r@ as int),
{
    let bits: usize = span.bits();
    let count: usize = if bits % 8 == 0 {
        bits / 8
    } else {
        bits / 8 + 1
    };
    let ghost before = rng.handed();
    let ghost mut rejected = Seq::<Seq<u8>>::empty();
    let mut attempt: u64 = 0;
    while attempt < SAMPLE_ATTEMPTS
        invariant
            attempt <= SAMPLE_ATTEMPTS,
            bits == counted_bits(span@),
            count == bytes_for(bits as int),
            rng.handed() == after_attempts(before, rejected),
            rejected.len() == attempt,
            forall|i: int|
                0 <= i < rejected.len() ==> (#[trigger] rejected[i]).len() == count && made_of(
                    span@,
                    rejected[i],
                ) > span@,
            before == old(rng).handed(),
        decreases SAMPLE_ATTEMPTS - attempt,
    {
        let bytes = random_bytes(count, rng);
        let ghost more = rejected.push(bytes@);
        assert(more.drop_last() =~= rejected);
        match biguint_candidate(span, bits, bytes.as_slice()) {
            Some(v) => {
                assert(at_most_draw(before, rng.handed(), span@, v@ as int, more));
                return v;
            },
            None => {},
        }
        proof {
            rejected = more;
        }
        attempt = attempt + 1;
    }
    let bytes = random_bytes(count, rng);
    let v = BigUint::from_bytes_le(bytes.as_slice()).low_bits(bits);
    proof {
        lemma_bit_length(span@);
        vstd::arithmetic::power2::lemma_pow2_pos(bits as nat);
        vstd::arithmetic::power2::lemma_pow2_unfold(bit_length(span@));
        if bit_length(span@) > bits {
            lemma_pow2_monotone(bits as nat, (bit_length(span@) - 1) as nat);
        }
    }
    let r = if v.compare(span) == Comparison::Greater {
        v.minus(&span.plus(&BigUint::from_u128(1)))
    } else {
        v
    };
    proof {
        let more = rejected.push(bytes@);
        assert(more.drop_last() =~= rejected);
        assert(at_most_draw(before, rng.handed(), span@, r@ as int, more));
    }
    r
}

proof fn lemma_pow2_monotone(a: nat, b: nat)
    requires
        a <= b,
    ensures
        pow2(a) <= pow2(b),
{
    if a < b {
        vstd::arithmetic::power2::lemma_pow2_strictly_increases(a, b);
    }
}

/// The views of a sequence of integers.
pub open spec fn integers_view(s: Seq<BigInt>) -> Seq<int> {
    s.map_values(|v: BigInt| v@)
}

/// The ends of a range and what lies next to them.
pub fn big_endpoints(min: &BigInt, max: &BigInt) -> (r: Vec<BigInt>)
    requires
        min@ <= max@,
    ensures
        integers_view(r@) == endpoint_values(min@, max@),
{
    let one = BigInt::from_i64(1);
    let above = min.plus(&one);
    let below = max.minus(&one);
    let mut out: Vec<BigInt> = Vec::new();
    out.push(min.clone());
    if min.less(max) {
        out.push(max.clone());
        if above.less(max) {
            let apart = above.less(&below);
            out.push(above);
            if apart {
                out.push(below);
            }
        }
    }
    assert(integers_view(out@) =~= endpoint_values(min@, max@));
    out
}

/// Whether a number is a power of two with an exponent of `[1, top]`, or the
/// negative of one.
pub open spec fn is_signed_power(v: int, top: nat) -> bool {
    exists|k: nat| 1 <= k <= top && (v == #[trigger] pow2(k) || -v == pow2(k))
}

/// The powers of two up to the exponent `top`, and their negatives, that lie in
/// `[min, max]`.
pub fn powers_in_range(min: &BigInt, max: &BigInt, top: usize) -> (r: Vec<BigInt>)
    ensures
        forall|i: int|
            0 <= i < r@.len() ==> min@ <= (#[trigger] r@[i])@ <= max@ && is_signed_power(
                r@[i]@,
                top as nat,
            ),
        forall|v: int|
            min@ <= v <= max@ && #[trigger] is_signed_power(v, top as nat) ==> integers_view(
                r@,
            ).contains(v),
        integers_view(r@).no_duplicates(),
{
    let mut out: Vec<BigInt> = Vec::new();
    let mut k: usize = 0;
    while k < top
        invariant
            k <= top,
            forall|i: int|
                0 <= i < out@.len() ==> min@ <= (#[trigger] out@[i])@ <= max@ && is_signed_power(
                    out@[i]@,
                    k as nat,
                ),
            forall|v: int|
                min@ <= v <= max@ && #[trigger] is_signed_power(v, k as nat) ==> integers_view(
                    out@,
                ).contains(v),
            integers_view(out@).no_duplicates(),
        decreases top - k,
    {
        let ghost before = out@;
        k = k + 1;
        let power = BigInt::from_magnitude(BigUint::power_of_two(k));
        let opposite = power.negated();
        let ghost p = power@;
        if min.at_most(&power) && power.at_most(max) {
            out.push(power);
        }
        let ghost middle = out@;
        if min.at_most(&opposite) && opposite.at_most(max) {
            out.push(opposite);
        }
        proof {
            assert forall|i: int| 0 <= i < out@.len() implies min@ <= (#[trigger] out@[i])@ <= max@
                && is_signed_power(out@[i]@, k as nat) by {
                if i < before.len() {
                    assert(out@[i] == before[i]);
                    let e = choose|e: nat|
                        1 <= e <= k - 1 && (before[i]@ == #[trigger] pow2(e) || -before[i]@ == pow2(
                            e,
                        ));
                    assert(1 <= e <= k && (before[i]@ == pow2(e) || -before[i]@ == pow2(e)));
                } else {
                    assert(out@[i]@ == pow2(k as nat) || -out@[i]@ == pow2(k as nat));
                }
            }
            assert forall|i: int| 0 <= i < before.len() implies (#[trigger] before[i])@ != p
                && before[i]@ != -p by {
                let e = choose|e: nat|
                    1 <= e <= k - 1 && (before[i]@ == #[trigger] pow2(e) || -before[i]@ == pow2(e));
                vstd::arithmetic::power2::lemma_pow2_strictly_increases(e, k as nat);
                vstd::arithmetic::power2::lemma_pow2_pos(e);
            }
            assert(integers_view(out@).no_duplicates()) by {
                vstd::arithmetic::power2::lemma_pow2_pos(k as nat);
                let all = integers_view(out@);
                assert forall|i: int, j: int| 0 <= i < all.len() && 0 <= j < all.len() && i
                    != j implies all[i] != all[j] by {
                    if i < before.len() {
                        assert(all[i] == before[i]@);
                    }
                    if j < before.len() {
                        assert(all[j] == before[j]@);
                    }
                    if i < before.len() && j < before.len() {
                        assert(integers_view(before)[i] != integers_view(before)[j]);
                    }
                }
            }
            assert forall|v: int| min@ <= v <= max@ && #[trigger] is_signed_power(
                v,
                k as nat,
            ) implies integers_view(out@).contains(v) by {
                let e = choose|e: nat|
                    1 <= e <= k && (v == #[trigger] pow2(e) || -v == pow2(e));
                if e < k {
                    assert(is_signed_power(v, (k - 1) as nat));
                    let i = choose|i: int|
                        0 <= i < integers_view(before).len() && integers_view(before)[i] == v;
                    assert(integers_view(out@)[i] == v);
                } else if v == pow2(e) {
                    assert(integers_view(out@)[before.len() as int] == v);
                } else {
                    assert(integers_view(out@)[middle.len() as int] == v);
                }
            }
        }
    }
    out
}

/// The numbers of a pool that lie in `[min, max]`, in order.
fn big_window(pool: &Vec<i128>, min: &BigInt, max: &BigInt) -> (r: Vec<BigInt>)
    ensures
        integers_view(r@) == as_integers(pool@).filter(|v: int| min@ <= v <= max@),
{
    let ghost all = as_integers(pool@);
    let ghost inside = |v: int| min@ <= v <= max@;
    let mut out: Vec<BigInt> = Vec::new();
    let mut i: usize = 0;
    assert(all.take(0).filter(inside) =~= Seq::<int>::empty()) by {
        reveal(Seq::filter);
    }
    assert(integers_view(out@) =~= Seq::<int>::empty());
    while i < pool.len()
        invariant
            i <= pool@.len(),
            all == as_integers(pool@),
            inside == (|v: int| min@ <= v <= max@),
            integers_view(out@) == all.take(i as int).filter(inside),
        decreases pool@.len() - i,
    {
        let ghost shorter = out@;
        let v = BigInt::from_i128(pool[i]);
        let ghost value = v@;
        proof {
            reveal(Seq::filter);
            assert(all.take(i + 1).drop_last() =~= all.take(i as int));
            assert(all.take(i + 1).last() == value);
        }
        if min.at_most(&v) && v.at_most(max) {
            out.push(v);
            assert(integers_view(out@) =~= integers_view(shorter).push(value));
        }
        i = i + 1;
    }
    assert(all.take(all.len() as int) =~= all);
    out
}

/// What is left of a list holds exactly the numbers of the list with a property.
proof fn lemma_filter_lists(list: Seq<int>, p: spec_fn(int) -> bool)
    ensures
        forall|v: int| #[trigger] list.filter(p).contains(v) <==> list.contains(v) && p(v),
        list.no_duplicates() ==> list.filter(p).no_duplicates(),
    decreases list.len(),
{
    reveal(Seq::filter);
    if list.len() > 0 {
        let rest = list.drop_last();
        lemma_filter_lists(rest, p);
        let (kept, all) = (rest.filter(p), list.filter(p));
        assert forall|v: int| #[trigger] all.contains(v) <==> list.contains(v) && p(v) by {
            if rest.contains(v) {
                let i = choose|i: int| 0 <= i < rest.len() && rest[i] == v;
                assert(list[i] == v);
            }
            if list.contains(v) && v != list.last() {
                let i = choose|i: int| 0 <= i < list.len() && list[i] == v;
                assert(rest[i] == v);
            }
            if kept.contains(v) {
                let i = choose|i: int| 0 <= i < kept.len() && kept[i] == v;
                assert(all[i] == v);
            }
            if all.contains(v) {
                let i = choose|i: int| 0 <= i < all.len() && all[i] == v;
                if i < kept.len() {
                    assert(kept[i] == v);
                }
            }
            if p(list.last()) {
                assert(all[kept.len() as int] == list.last());
            }
            assert(list[list.len() - 1] == list.last());
        }
        if list.no_duplicates() {
            assert forall|i: int, j: int| 0 <= i < all.len() && 0 <= j < all.len() && i
                != j implies all[i] != all[j] by {
                assert(kept.no_duplicates());
                let (x, y) = (if i < j { i } else { j }, if i < j { j } else { i });
                if y == kept.len() {
                    assert(kept.contains(all[x]));
                    let t = choose|t: int| 0 <= t < rest.len() && rest[t] == all[x];
                    assert(list[t] != list[list.len() - 1]);
                }
            }
        }
    } else {
        assert(list.filter(p) =~= Seq::<int>::empty());
    }
}

/// The interesting numbers fit `i128`.
proof fn lemma_interesting_fits(v: int)
    requires
        is_interesting(v),
    ensures
        i128::MIN <= v <= i128::MAX,
{
}

/// The largest exponent of the powers of two that a range of a span favours.
pub open spec fn top_exponent(span: nat) -> nat {
    if bit_length(span) < 128 {
        bit_length(span)
    } else {
        128
    }
}

/// Whether `v` comes of a range that does not fit `i128`, and whose interesting
/// numbers and powers of two are listed, when the first number that is handed
/// out is `u`. It selects the category.
pub open spec fn big_draw(
    before: Seq<int>,
    after: Seq<int>,
    min: int,
    max: int,
    params: IntegerGenerationParameters,
    v: int,
    u: int,
    interesting: Seq<int>,
    diffuse: Seq<int>,
) -> bool {
    let span = (max - min) as nat;
    &&& 0 <= u < UNIT_STEPS
    &&& lists(interesting, |c: int| min <= c <= max && is_interesting(c))
    &&& lists(diffuse, |c: int| min <= c <= max && is_signed_power(c, top_exponent(span)))
    &&& match category_of(u, params, interesting.len() > 0, diffuse.len() > 0) {
        IntegerCategory::Endpoint => picked(
            before.push(u),
            after,
            endpoint_values(min, max),
            v,
        ),
        IntegerCategory::Interesting => picked(before.push(u), after, interesting, v),
        IntegerCategory::Diffuse => picked(before.push(u), after, diffuse, v),
        IntegerCategory::Middle => at_most_outcome(before.push(u), after, span, v - min),
    }
}

/// Whether `v` comes of a range that does not fit `i128`.
pub open spec fn big_outcome(
    before: Seq<int>,
    after: Seq<int>,
    min: int,
    max: int,
    params: IntegerGenerationParameters,
    v: int,
) -> bool {
    if min == max {
        v == min && after == before
    } else {
        exists|u: int, interesting: Seq<int>, diffuse: Seq<int>| #[trigger]
            big_draw(before, after, min, max, params, v, u, interesting, diffuse)
    }
}

/// Whether the values that a kind of floating-point values falls back on fit
/// it.
pub open spec fn float_kind_ok(k: FloatChoice) -> bool {
    float_fits(k, k.simplest) && float_fits(k, k.unit)
}

impl<D: Distributions> Sampler<D> {
    /// An integer of a range that does not fit `i128`.
    pub fn biguint_sample_in_range(
        &self,
        min: &BigInt,
        max: &BigInt,
        rng: &mut EngineRng,
        params: IntegerGenerationParameters,
    ) -> (r: BigInt)
        requires
            min@ <= max@,
        ensures
            min@ <= r@ <= max@,
            big_outcome(old(rng).handed(), final(rng).handed(), min@, max@, params, r@),
            params.endpoint.numerator >= PROBABILITY_ONE ==> endpoint_values(
                min@,
                max@,
            ).contains(r@),
    {
        let ends = big_endpoints(min, max);
        assert(ends@.len() == integers_view(ends@).len());
        if !min.less(max) {
            assert(endpoint_values(min@, max@)[0] == min@);
            return min.clone();
        }
        let span = max.minus(min).magnitude();
        let bits: usize = span.bits();
        let top: usize = if bits < 128 {
            bits
        } else {
            128
        };
        let diffuse = powers_in_range(min, max, top);
        let pool = self.integers.interesting();
        let interesting = big_window(pool, min, max);
        let ghost curated = integers_view(interesting@);
        let ghost powers = integers_view(diffuse@);
        let ghost before = rng.handed();
        proof {
            assert(span@ == (max@ - min@) as nat);
            lemma_as_integers(pool@);
            lemma_filter_lists(as_integers(pool@), |v: int| min@ <= v <= max@);
            assert forall|c: int| #[trigger] curated.contains(c) <==> min@ <= c <= max@
                && is_interesting(c) by {
                if i128::MIN <= c <= i128::MAX {
                    assert(pool@.contains(c as i128) <==> is_interesting(c));
                } else if is_interesting(c) {
                    lemma_interesting_fits(c);
                }
            }
            assert forall|c: int| #[trigger] powers.contains(c) <==> min@ <= c <= max@
                && is_signed_power(c, top as nat) by {
                if powers.contains(c) {
                    let i = choose|i: int| 0 <= i < powers.len() && powers[i] == c;
                    assert(diffuse@[i]@ == c);
                }
            }
        }
        let u: u64 = rng.unit();
        let r = match select_category(u, params, interesting.len() > 0, diffuse.len() > 0) {
            IntegerCategory::Endpoint => {
                let idx: usize = rng.index(ends.len());
                proof {
                    assert(integers_view(ends@)[idx as int] == ends@[idx as int]@);
                    assert(integers_view(ends@).contains(ends@[idx as int]@));
                }
                ends[idx].clone()
            },
            IntegerCategory::Interesting => {
                let idx: usize = rng.index(interesting.len());
                assert(curated[idx as int] == interesting@[idx as int]@);
                assert(curated.contains(curated[idx as int]));
                interesting[idx].clone()
            },
            IntegerCategory::Diffuse => {
                let idx: usize = rng.index(diffuse.len());
                assert(powers[idx as int] == diffuse@[idx as int]@);
                diffuse[idx].clone()
            },
            IntegerCategory::Middle => min.plus(
                &BigInt::from_magnitude(sample_biguint_at_most(&span, rng)),
            ),
        };
        assert(big_draw(
            before,
            rng.handed(),
            min@,
            max@,
            params,
            r@,
            u as int,
            curated,
            powers,
        ));
        r
    }

    /// An integer of the kind, favouring what bugs like.
    pub fn biased_integer_sample(
        &self,
        ic: &IntegerChoice,
        rng: &mut EngineRng,
        params: IntegerGenerationParameters,
    ) -> (r: Result<BigInt, InternalError>)
        requires
            ic@.min <= ic@.max,
        ensures
            r matches Ok(v) && value_fits(KindView::Integer(ic@), ValueView::Integer(v@))
                && if i128::MIN <= ic@.min && ic@.max <= i128::MAX {
                self.sample_outcome(
                    old(rng).handed(),
                    final(rng).handed(),
                    ic@.min,
                    ic@.max,
                    params,
                    v@,
                )
            } else {
                big_outcome(
                    old(rng).handed(),
                    final(rng).handed(),
                    ic@.min,
                    ic@.max,
                    params,
                    v@,
                )
            },
    {
        match (ic.min_value.to_i128(), ic.max_value.to_i128()) {
            (Some(min), Some(max)) => match self.biased_i128_sample(min, max, rng, params) {
                Ok(v) => Ok(BigInt::from_i128(v)),
                Err(e) => Err(e),
            },
            _ => Ok(self.biguint_sample_in_range(&ic.min_value, &ic.max_value, rng, params)),
        }
    }
}

} // verus!
