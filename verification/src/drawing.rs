//! The draws of a test case.
use crate::bignum::BigInt;
use crate::choices::BooleanChoice;
use crate::choices::BytesChoice;
use crate::choices::ChoiceNode;
use crate::choices::ChoiceValue;
use crate::choices::FloatChoice;
use crate::choices::FloatValue;
use crate::choices::IntegerChoice;
use crate::choices::IntegerKind;
use crate::choices::KindView;
use crate::choices::NodeView;
use crate::choices::Probability;
use crate::choices::StringChoice;
use crate::choices::StringKind;
use crate::choices::ValueView;
use crate::choices::PROBABILITY_ONE;
use crate::decimal::append_integer;
use crate::decimal::append_usize;
use crate::decimal::decimal;
use crate::decimal::signed_decimal;
use crate::errors::bug_notice;
use crate::errors::EngineError;
use crate::family::FamilyCore;
use crate::float_categories::float_outcome;
use crate::float_grids::FloatWidth;
use crate::float_weights::GenerationParameters;
use crate::intervalsets::constants_in_alphabet;
use crate::intervalsets::ranges_size;
use crate::intervalsets::IntervalSet;
use crate::rng::EngineRng;
use crate::sampling::big_outcome;
use crate::sampling::float_kind_ok;
use crate::sampling::Distributions;
use crate::sequence_sampling::bytes_outcome;
use crate::sequence_sampling::first_true_byte;
use crate::sequence_sampling::string_outcome;
use crate::sequence_sampling::total_weight;
use crate::sequence_sampling::weight_below;
use crate::sequence_sampling::weighted_boolean_sample;
use crate::sequence_sampling::weighted_boolean_sample_precise;
use crate::sequence_sampling::weighted_index_sample;
use crate::test_case::ChoiceSource;
use crate::test_case::DataObserver;
use crate::test_case::NativeTestCase;
use crate::test_case::Notice;
use crate::test_case::RandomSource;
use crate::test_case::Turn;
use crate::text::codepoints_to_string;
use crate::text::text_of;
use crate::variables::is_full;
use crate::variables::is_nearest;
use crate::variables::is_rising;
use crate::variables::is_smallest_unused;
use crate::variables::lemma_smallest_unused_is_next_at_most;
use crate::variables::lemma_some_unused_is_smallest;
use crate::variables::lemma_some_used_is_largest;
use crate::variables::max_used_of;
use crate::variables::smallest_unused_of;
use crate::variables::FreshIds;
use vstd::prelude::*;
use vstd::string::StringExecFns;

verus! {

/// The integers of a range, shrinking towards zero.
pub open spec fn integer_range(min: int, max: int) -> KindView {
    KindView::Integer(IntegerKind { min, max, towards: 0 })
}

/// An answer, as the value of a choice.
pub open spec fn integer_answer(r: Result<BigInt, EngineError>) -> Result<ValueView, EngineError> {
    match r {
        Ok(v) => Ok(ValueView::Integer(v@)),
        Err(e) => Err(e),
    }
}

/// An answer, as the value of a choice.
pub open spec fn boolean_answer(r: Result<bool, EngineError>) -> Result<ValueView, EngineError> {
    match r {
        Ok(v) => Ok(ValueView::Boolean(v)),
        Err(e) => Err(e),
    }
}

/// An answer, as the value of a choice.
pub open spec fn bytes_answer(r: Result<Vec<u8>, EngineError>) -> Result<ValueView, EngineError> {
    match r {
        Ok(v) => Ok(ValueView::Bytes(v@)),
        Err(e) => Err(e),
    }
}

/// An answer, as the value of a choice.
pub open spec fn float_answer(r: Result<FloatValue, EngineError>) -> Result<
    ValueView,
    EngineError,
> {
    match r {
        Ok(v) => Ok(ValueView::Float(v)),
        Err(e) => Err(e),
    }
}

/// Whether an error is the internal error that says `what`.
pub open spec fn says(e: EngineError, what: Seq<char>) -> bool {
    e matches EngineError::Internal(i) && i@ == what + bug_notice()
}

/// What is said of an empty range.
pub open spec fn invalid_range(min: int, max: int) -> Seq<char> {
    "Invalid range ["@ + signed_decimal(min) + ", "@ + signed_decimal(max) + "]"@
}

fn invalid_range_error(min: &BigInt, max: &BigInt) -> (r: EngineError)
    ensures
        says(r, invalid_range(min@, max@)),
{
    let mut what = String::from_str("Invalid range [");
    append_integer(&mut what, min);
    what.append(", ");
    append_integer(&mut what, max);
    what.append("]");
    EngineError::internal(what.as_str())
}

/// Whether an integer of a range is what the numbers that a random source handed
/// out make of it.
#[verifier::opaque]
pub open spec fn integer_sampled<D: Distributions>(
    before: RandomSource<D>,
    after: RandomSource<D>,
    family: FamilyCore,
    min: int,
    max: int,
    v: int,
) -> bool {
    exists|params: GenerationParameters| #[trigger]
        family.samples_with(before.sampler.weights, params) && if i128::MIN <= min && max
            <= i128::MAX {
            before.sampler.sample_outcome(
                before.rng.handed(),
                after.rng.handed(),
                min,
                max,
                params.integer,
                v,
            )
        } else {
            big_outcome(before.rng.handed(), after.rng.handed(), min, max, params.integer, v)
        }
}

/// Whether a floating-point value of a kind is what the numbers that a random
/// source handed out make of it.
#[verifier::opaque]
pub open spec fn float_sampled<D: Distributions>(
    before: RandomSource<D>,
    after: RandomSource<D>,
    family: FamilyCore,
    width: FloatWidth,
    kind: FloatChoice,
    v: FloatValue,
) -> bool {
    exists|params: GenerationParameters| #[trigger]
        family.samples_with(before.sampler.weights, params) && float_outcome(
            before.sampler.distributions,
            kind,
            width,
            params.float,
            before.rng.handed(),
            after.rng.handed(),
            v,
        )
}

/// Whether a byte string of a kind is what the numbers that a random source
/// handed out make of it.
#[verifier::opaque]
pub open spec fn bytes_sampled<D: Distributions>(
    before: RandomSource<D>,
    after: RandomSource<D>,
    kind: BytesChoice,
    v: Seq<u8>,
) -> bool {
    bytes_outcome(
        before.sampler.distributions,
        kind,
        before.sampler.boundary,
        before.rng.handed(),
        after.rng.handed(),
        v,
    )
}

/// Whether a string of a kind is what the numbers that a random source handed out
/// make of it.
#[verifier::opaque]
pub open spec fn string_sampled<D: Distributions>(
    before: RandomSource<D>,
    after: RandomSource<D>,
    kind: StringKind,
    v: Seq<u32>,
) -> bool {
    if ranges_size(kind.alphabet) > 0 {
        string_outcome(
            before.sampler.distributions,
            kind,
            before.sampler.boundary,
            before.rng.handed(),
            after.rng.handed(),
            v,
        )
    } else {
        after.rng.handed() == before.rng.handed()
    }
}

impl<D: Distributions, O: DataObserver> NativeTestCase<D, O> {
    /// The random source, where there is one.
    pub open spec fn random(&self) -> RandomSource<D> {
        self.source->Some_0
    }

    /// Whether a draw took from the random source what `outcome` says where it
    /// was answered at random, and left it alone where it was not.
    pub open spec fn took(&self, old: Self, family: FamilyCore, outcome: bool) -> bool {
        if old.turn(family) == Turn::Answered(ChoiceSource::Random) {
            &&& self.source is Some
            &&& self.random().sampler == old.random().sampler
            &&& outcome
        } else {
            self.source == old.source
        }
    }

    /// Whether a test case drew an integer of a range, or failed to.
    pub open spec fn drew_integer(
        &self,
        old: Self,
        family: FamilyCore,
        min: int,
        max: int,
        r: Result<ValueView, EngineError>,
    ) -> bool {
        &&& self.drew(old, family, integer_range(min, max), r)
        &&& self.took(
            old,
            family,
            r matches Ok(ValueView::Integer(v)) && integer_sampled(
                old.random(),
                self.random(),
                family,
                min,
                max,
                v,
            ),
        )
    }

    /// Whether a test case drew an integer of a range, each as likely as any
    /// other, or failed to.
    pub open spec fn drew_uniform(
        &self,
        old: Self,
        family: FamilyCore,
        min: int,
        max: int,
        r: Result<ValueView, EngineError>,
    ) -> bool {
        &&& self.drew(old, family, integer_range(min, max), r)
        &&& self.took(
            old,
            family,
            r matches Ok(ValueView::Integer(v)) && self.random().rng.handed()
                == old.random().rng.handed().push(v),
        )
    }

    /// Whether a test case drew a byte string of a kind, or failed to.
    pub open spec fn drew_bytes(
        &self,
        old: Self,
        family: FamilyCore,
        kind: BytesChoice,
        r: Result<ValueView, EngineError>,
    ) -> bool {
        &&& self.drew(old, family, KindView::Bytes(kind), r)
        &&& self.took(
            old,
            family,
            r matches Ok(ValueView::Bytes(v)) && bytes_sampled(
                old.random(),
                self.random(),
                kind,
                v,
            ),
        )
    }

    /// Whether a test case drew a floating-point value of a kind, or failed to.
    pub open spec fn drew_float(
        &self,
        old: Self,
        family: FamilyCore,
        width: FloatWidth,
        kind: FloatChoice,
        r: Result<ValueView, EngineError>,
    ) -> bool {
        &&& self.drew(old, family, KindView::Float(kind), r)
        &&& self.took(
            old,
            family,
            r matches Ok(ValueView::Float(v)) && float_sampled(
                old.random(),
                self.random(),
                family,
                width,
                kind,
                v,
            ),
        )
    }

    /// Whether a test case drew a string of a kind, or failed to.
    pub open spec fn drew_string(
        &self,
        old: Self,
        family: FamilyCore,
        kind: StringKind,
        r: Result<ValueView, EngineError>,
    ) -> bool {
        &&& self.drew(old, family, KindView::String(kind), r)
        &&& self.took(
            old,
            family,
            r matches Ok(ValueView::String(v)) && string_sampled(
                old.random(),
                self.random(),
                kind,
                v,
            ),
        )
    }

}

/// Whether a boolean is what a byte, or sixty-four bits, that were handed out
/// make of it.
pub open spec fn flipped(
    p: Probability,
    precise: bool,
    before: Seq<int>,
    after: Seq<int>,
    v: bool,
) -> bool {
    if precise {
        exists|bits: int|
            after == #[trigger] before.push(bits) && 0 <= bits <= u64::MAX && v == (bits
                < p.numerator * 2048)
    } else {
        exists|byte: int|
            after == #[trigger] before.push(byte) && 0 <= byte < 256 && v == (byte
                >= first_true_byte(p))
    }
}

/// A boolean that is true with probability `p`, for a byte of entropy or for
/// sixty-four bits.
fn flip(p: Probability, precise: bool, rng: &mut EngineRng) -> (r: bool)
    requires
        p.numerator < PROBABILITY_ONE,
    ensures
        flipped(p, precise, old(rng).handed(), final(rng).handed(), r),
{
    if precise {
        weighted_boolean_sample_precise(p, rng)
    } else {
        weighted_boolean_sample(p, rng)
    }
}

/// How a fresh integer is drawn.
enum IntegerSampling {
    /// Favouring what bugs like.
    Biased,
    /// Each integer of the range as likely as any other.
    Uniform(u64, u64),
}

impl<D: Distributions, O: DataObserver> NativeTestCase<D, O> {
    /// Draws an integer of `[min_value, max_value]`.
    pub fn draw_integer(
        &mut self,
        family: &mut FamilyCore,
        min_value: BigInt,
        max_value: BigInt,
    ) -> (r: Result<BigInt, EngineError>)
        ensures
            min_value@ > max_value@ ==> {
                &&& r matches Err(e) && says(e, invalid_range(min_value@, max_value@))
                &&& *final(self) == *old(self)
                &&& *final(family) == *old(family)
            },
            min_value@ <= max_value@ ==> {
                &&& final(self).drew_integer(
                    *old(self),
                    *old(family),
                    min_value@,
                    max_value@,
                    integer_answer(r),
                )
                &&& *final(family) == old(self).family_after(*old(family))
            },
    {
        if max_value.less(&min_value) {
            return Err(invalid_range_error(&min_value, &max_value));
        }
        let kind = IntegerChoice { min_value, max_value, shrink_towards: BigInt::zero() };
        self.draw_integer_from(family, kind, IntegerSampling::Biased)
    }

    /// Draws an integer of `[min_value, max_value]`, each as likely as any
    /// other.
    pub fn draw_integer_uniform(
        &mut self,
        family: &mut FamilyCore,
        min_value: u64,
        max_value: u64,
    ) -> (r: Result<u64, EngineError>)
        ensures
            min_value > max_value ==> {
                &&& r matches Err(e) && says(
                    e,
                    invalid_range(min_value as int, max_value as int),
                )
                &&& *final(self) == *old(self)
                &&& *final(family) == *old(family)
            },
            min_value <= max_value ==> {
                &&& r matches Ok(v) ==> min_value <= v <= max_value
                &&& final(self).drew_uniform(
                    *old(self),
                    *old(family),
                    min_value as int,
                    max_value as int,
                    match r {
                        Ok(v) => Ok(ValueView::Integer(v as int)),
                        Err(e) => Err(e),
                    },
                )
                &&& *final(family) == old(self).family_after(*old(family))
            },
    {
        let min = BigInt::from_u64(min_value);
        let max = BigInt::from_u64(max_value);
        if min_value > max_value {
            return Err(invalid_range_error(&min, &max));
        }
        let kind = IntegerChoice { min_value: min, max_value: max, shrink_towards: BigInt::zero() };
        let drawn = self.draw_integer_from(
            family,
            kind,
            IntegerSampling::Uniform(min_value, max_value),
        );
        match drawn {
            Ok(v) => {
                assert(min_value <= v@ <= max_value);
                Ok(v.to_u64().unwrap())
            },
            Err(e) => Err(e),
        }
    }

    /// Draws an integer of a kind.
    fn draw_integer_from(
        &mut self,
        family: &mut FamilyCore,
        kind: IntegerChoice,
        sampling: IntegerSampling,
    ) -> (r: Result<BigInt, EngineError>)
        requires
            kind@.min <= kind@.max,
            sampling matches IntegerSampling::Uniform(lo, hi) ==> lo == kind@.min && hi
                == kind@.max,
        ensures
            final(self).drew(
                *old(self),
                *old(family),
                KindView::Integer(kind@),
                integer_answer(r),
            ),
            r matches Ok(v) ==> kind@.min <= v@ <= kind@.max,
            final(self).took(
                *old(self),
                *old(family),
                r matches Ok(v) && match sampling {
                    IntegerSampling::Biased => integer_sampled(
                        old(self).random(),
                        final(self).random(),
                        *old(family),
                        kind@.min,
                        kind@.max,
                        v@,
                    ),
                    IntegerSampling::Uniform(_, _) => final(self).random().rng.handed()
                        == old(self).random().rng.handed().push(v@),
                },
            ),
            *final(family) == old(self).family_after(*old(family)),
    {
        reveal(integer_sampled);
        let ghost start = *self;
        let source = match self.resolve_choice(family) {
            Ok(source) => source,
            Err(e) => {
                return Err(e);
            },
        };
        let v: BigInt = match source {
            ChoiceSource::Prefix => {
                let fitting: Option<BigInt> = match &self.prefix[self.nodes.len()] {
                    ChoiceValue::Integer(n) => if kind.validate(n) {
                        Some(n.clone())
                    } else {
                        None
                    },
                    _ => None,
                };
                match fitting {
                    Some(n) => n,
                    None => match self.stale_is_simplest() {
                        Ok(true) => kind.simplest(),
                        Ok(false) => kind.unit(),
                        Err(e) => {
                            return Err(EngineError::Internal(e));
                        },
                    },
                }
            },
            ChoiceSource::Template => kind.simplest(),
            ChoiceSource::Random => match &mut self.source {
                Some(source) => match sampling {
                    IntegerSampling::Biased => {
                        let params = family.generation_parameters(source.sampler.weights);
                        assert(old(family).samples_with(start.random().sampler.weights, params));
                        match source.sampler.biased_integer_sample(
                            &kind,
                            &mut source.rng,
                            params.integer,
                        ) {
                            Ok(v) => v,
                            Err(e) => {
                                return Err(EngineError::Internal(e));
                            },
                        }
                    },
                    IntegerSampling::Uniform(lo, hi) => BigInt::from_u64(
                        source.rng.range_inclusive(lo, hi),
                    ),
                },
                None => kind.simplest(),
            },
        };
        self.record_integer(kind, &v, false);
        Ok(v)
    }
}

/// What is said of a forced value outside its range.
pub open spec fn forced_outside(forced: int, min: int, max: int) -> Seq<char> {
    "forced value "@ + signed_decimal(forced) + " outside ["@ + signed_decimal(min) + ", "@
        + signed_decimal(max) + "]"@
}

fn forced_outside_error(forced: &BigInt, min: &BigInt, max: &BigInt) -> (r: EngineError)
    ensures
        says(r, forced_outside(forced@, min@, max@)),
{
    let mut what = String::from_str("forced value ");
    append_integer(&mut what, forced);
    what.append(" outside [");
    append_integer(&mut what, min);
    what.append(", ");
    append_integer(&mut what, max);
    what.append("]");
    EngineError::internal(what.as_str())
}

impl<D: Distributions, O: DataObserver> NativeTestCase<D, O> {
    /// Whether a choice may be recorded without a value being looked for.
    pub open spec fn has_room(&self, family: FamilyCore) -> bool {
        family.verdict() is None && self.nodes@.len() < self.max_size && family.total_draws
            < family.budget
    }

    /// Whether a test case recorded a choice that had to be what it is, or
    /// failed to.
    pub open spec fn forced(
        &self,
        old: Self,
        family: FamilyCore,
        new_family: FamilyCore,
        kind: KindView,
        value: ValueView,
        error: Option<EngineError>,
    ) -> bool {
        if old.has_room(family) {
            &&& error is None
            &&& new_family == family.counted()
            &&& self.recorded(
                old,
                NodeView { kind, value, was_forced: true },
                Notice::Drawn(value, true),
            )
            &&& self.source == old.source
            &&& self.trailing_template == old.trailing_template
        } else {
            &&& error matches Some(e) && old.turned_away(family, e)
            &&& new_family == old.family_after(family)
            &&& *self == old
        }
    }

    /// Records an integer that has to be `forced`. Neither the replayed values
    /// nor the random source are consulted.
    pub fn draw_integer_forced(
        &mut self,
        family: &mut FamilyCore,
        min_value: BigInt,
        max_value: BigInt,
        forced: BigInt,
    ) -> (r: Result<(), EngineError>)
        ensures
            min_value@ <= forced@ <= max_value@ ==> final(self).forced(
                *old(self),
                *old(family),
                *final(family),
                integer_range(min_value@, max_value@),
                ValueView::Integer(forced@),
                match r {
                    Ok(()) => None,
                    Err(e) => Some(e),
                },
            ),
            !(min_value@ <= forced@ <= max_value@) ==> {
                &&& r matches Err(e) && says(
                    e,
                    forced_outside(forced@, min_value@, max_value@),
                )
                &&& *final(self) == *old(self)
                &&& *final(family) == *old(family)
            },
    {
        if forced.less(&min_value) || max_value.less(&forced) {
            return Err(forced_outside_error(&forced, &min_value, &max_value));
        }
        if let Err(e) = self.pre_choice(family) {
            return Err(e);
        }
        let kind = IntegerChoice { min_value, max_value, shrink_towards: BigInt::zero() };
        self.record_integer(kind, &forced, true);
        Ok(())
    }

    /// Whether a value may be replayed as a fresh identifier.
    pub open spec fn fresh_fits(used: Set<i64>, v: ValueView) -> bool {
        v matches ValueView::Integer(n) && 0 <= n <= max_used_of(used) + 2 && n <= i64::MAX
            && !used.contains(n as i64)
    }

    /// The identifier that answers a request for a fresh one.
    pub open spec fn fresh_answer(&self, source: ChoiceSource, used: Set<i64>) -> Option<
        ValueView,
    > {
        let fallback = Some(ValueView::Integer(smallest_unused_of(used) as int));
        self.settled(source, Self::fresh_fits(used, self.next_value()), fallback, fallback)
    }

    /// Whether a test case drew a fresh identifier, or failed to. It fails where every
    /// identifier is in use.
    pub open spec fn drew_fresh_id(
        &self,
        old: Self,
        family: FamilyCore,
        new_family: FamilyCore,
        r: Result<i64, EngineError>,
    ) -> bool {
        let used = family.fresh_ids@;
        if is_full(used) {
            &&& r matches Err(e) && says(e, "every identifier is in use"@)
            &&& *self == old
            &&& new_family == family
        } else {
            &&& new_family == (FamilyCore {
                fresh_ids: new_family.fresh_ids,
                ..old.family_after(family)
            })
            &&& self.trailing_template == old.template_after(family)
            &&& match (old.turn(family), r) {
                (Turn::Answered(source), Ok(id)) => {
                    &&& old.fresh_answer(source, used) == Some(
                        ValueView::Integer(id as int),
                    )
                    &&& 0 <= id && !used.contains(id)
                    &&& new_family.fresh_ids@ == used.insert(id)
                    &&& self.recorded(
                        old,
                        NodeView {
                            kind: integer_range(0, max_used_of(used) + 2),
                            value: ValueView::Integer(id as int),
                            was_forced: false,
                        },
                        Notice::Drawn(ValueView::Integer(id as int), false),
                    )
                },
                (Turn::Answered(source), Err(e)) => {
                    &&& old.fresh_answer(source, used) is None
                    &&& e is Internal
                    &&& new_family.fresh_ids == family.fresh_ids
                    &&& self.rests(old)
                },
                (_, Err(e)) => {
                    &&& old.turned_away(family, e)
                    &&& new_family.fresh_ids == family.fresh_ids
                    &&& *self == old
                },
                _ => false,
            }
        }
    }

    /// Draws an identifier that no stream of the test case has drawn before.
    ///
    /// A replayed identifier is kept while it is unused and not far beyond the
    /// ones in use, so that it survives the deletion of earlier draws; else it
    /// becomes the smallest unused one. Fresh identifiers are the smallest
    /// unused ones.
    pub fn draw_fresh_id(&mut self, family: &mut FamilyCore) -> (r: Result<i64, EngineError>)
        ensures
            final(self).source == old(self).source,
            final(self).drew_fresh_id(*old(self), *old(family), *final(family), r),
    {
        let ghost used = family.fresh_ids@;
        let max_used: i64 = family.fresh_ids.max_used();
        let window_hi: i128 = max_used as i128 + 2;
        let fallback: i64 = family.fresh_ids.smallest_unused();
        if family.fresh_ids.contains(fallback) {
            return Err(EngineError::internal("every identifier is in use"));
        }
        let source = match self.resolve_choice(family) {
            Ok(source) => source,
            Err(e) => {
                return Err(e);
            },
        };
        let id: i64 = match source {
            ChoiceSource::Prefix => {
                let fitting: Option<i64> = match &self.prefix[self.nodes.len()] {
                    ChoiceValue::Integer(n) => match n.to_i64() {
                        Some(id) => if 0 <= id && id as i128 <= window_hi
                            && !family.fresh_ids.contains(id) {
                            Some(id)
                        } else {
                            None
                        },
                        None => None,
                    },
                    _ => None,
                };
                match fitting {
                    Some(id) => id,
                    None => match self.stale_is_simplest() {
                        Ok(_) => fallback,
                        Err(e) => {
                            return Err(EngineError::Internal(e));
                        },
                    },
                }
            },
            _ => fallback,
        };
        let kind = IntegerChoice {
            min_value: BigInt::zero(),
            max_value: BigInt::from_i128(window_hi),
            shrink_towards: BigInt::zero(),
        };
        self.record_integer(kind, &BigInt::from_i64(id), false);
        family.fresh_ids.insert(id);
        Ok(id)
    }
}

/// A fresh identifier was not in use, and lies within the range that it is
/// recorded with. It is the next value to replay where that fits, and else the
/// smallest unused one.
pub proof fn lemma_fresh_ids_are_new<D: Distributions, O: DataObserver>(
    tc: NativeTestCase<D, O>,
    source: ChoiceSource,
    used: Set<i64>,
    id: i64,
)
    requires
        !is_full(used),
        forall|j: i64| used.contains(j) ==> 0 <= j,
        tc.fresh_answer(source, used) == Some(ValueView::Integer(id as int)),
    ensures
        0 <= id <= max_used_of(used) + 2,
        !used.contains(id),
        if source is Prefix && NativeTestCase::<D, O>::fresh_fits(used, tc.next_value()) {
            tc.next_value() == ValueView::Integer(id as int)
        } else {
            is_smallest_unused(used, id)
        },
{
    let free = choose|j: i64| 0 <= j && !used.contains(j);
    lemma_some_unused_is_smallest(used, free);
    lemma_some_used_is_largest(used, i64::MAX);
    lemma_smallest_unused_is_next_at_most(
        used,
        smallest_unused_of(used),
        max_used_of(used),
    );
}

/// Whether a member of a set is the one whose place in the rising order was
/// handed out.
pub open spec fn picked_member(
    before: Seq<int>,
    after: Seq<int>,
    set: Set<i64>,
    id: i64,
) -> bool {
    exists|list: Seq<i64>, i: int|
        #![trigger is_rising(list, set), before.push(i)]
        is_rising(list, set) && 0 <= i < list.len() && list[i] == id && after == before.push(i)
}

/// Whether an index is the one that a ticket falls to, where each index has as
/// many tickets as its weight says.
pub open spec fn drew_ticket(
    before: Seq<int>,
    after: Seq<int>,
    weights: Seq<u32>,
    i: int,
) -> bool {
    exists|ticket: int|
        after == #[trigger] before.push(ticket) && weight_below(weights, i) <= ticket
            < weight_below(weights, i + 1)
}

/// The members of a list.
pub open spec fn members_of(members: Seq<i64>) -> Set<i64> {
    members.to_set()
}

/// The members of a list, each once, in rising order.
fn sorted_members(members: &[i64]) -> (r: FreshIds)
    ensures
        r@ == members_of(members@),
{
    let mut out = FreshIds::default();
    let mut i: usize = 0;
    assert(out@ =~= members@.take(0).to_set());
    while i < members.len()
        invariant
            i <= members@.len(),
            out@ == members@.take(i as int).to_set(),
        decreases members@.len() - i,
    {
        out.insert(members[i]);
        proof {
            let more = members@.take(i + 1);
            let fewer = members@.take(i as int);
            assert(more =~= fewer.push(members@[i as int]));
            assert forall|x: i64| more.contains(x) <==> fewer.contains(x) || x == members@[i as int]
            by {
                if fewer.contains(x) {
                    let k = choose|k: int| 0 <= k < fewer.len() && fewer[k] == x;
                    assert(more[k] == x);
                }
                assert(more[i as int] == members@[i as int]);
                if more.contains(x) {
                    let k = choose|k: int| 0 <= k < more.len() && more[k] == x;
                    if k < i {
                        assert(fewer[k] == x);
                    }
                }
            }
            assert(out@ =~= more.to_set());
        }
        i = i + 1;
    }
    assert(members@.take(i as int) =~= members@);
    out
}

/// Why a list is no list of identifiers of a test case.
pub open spec fn member_fault(members: Set<i64>, used: Set<i64>) -> Option<Seq<char>> {
    if members == Set::<i64>::empty() {
        Some("draw_from_set requires at least one member"@)
    } else if exists|id: i64| members.contains(id) && id < 0 {
        Some("draw_from_set requires nonnegative members"@)
    } else if exists|id: i64| members.contains(id) && id > max_used_of(used) + 1 {
        Some("draw_from_set members must be identifiers from draw_fresh_id"@)
    } else {
        None
    }
}

impl<D: Distributions, O: DataObserver> NativeTestCase<D, O> {
    /// Whether a test case drew one of some members, or failed to.
    pub open spec fn drew_member(
        &self,
        old: Self,
        family: FamilyCore,
        new_family: FamilyCore,
        members: Seq<i64>,
        r: Result<i64, EngineError>,
    ) -> bool {
        match member_fault(members_of(members), family.fresh_ids@) {
            Some(what) => {
                &&& r matches Err(e) && says(e, what)
                &&& *self == old
                &&& new_family == family
            },
            None => {
                let used = family.fresh_ids@;
                let set = members_of(members);
                &&& new_family == old.family_after(family)
                &&& self.trailing_template == old.template_after(family)
                &&& self.took(
                    old,
                    family,
                    r matches Ok(id) && picked_member(
                        old.random().rng.handed(),
                        self.random().rng.handed(),
                        set,
                        id,
                    ),
                )
                &&& match (old.turn(family), r) {
                    (Turn::Answered(source), Ok(id)) => {
                        &&& set.contains(id)
                        &&& source is Template ==> is_nearest(set, 0, id)
                        &&& source is Prefix ==> is_nearest(
                            set,
                            Self::reference_to_replay(old.next_value(), used),
                            id,
                        )
                        &&& self.recorded(
                            old,
                            NodeView {
                                kind: integer_range(0, max_used_of(used) + 1),
                                value: ValueView::Integer(id as int),
                                was_forced: false,
                            },
                            Notice::Drawn(ValueView::Integer(id as int), false),
                        )
                    },
                    (Turn::Answered(source), Err(e)) => {
                        &&& source is Prefix
                        &&& old.settled(source, Self::reference_fits(
                            old.next_value(),
                            used,
                        ), Some(ValueView::Integer(0)), Some(ValueView::Integer(0))) is None
                        &&& e is Internal
                        &&& self.rests(old)
                    },
                    (_, Err(e)) => {
                        &&& old.turned_away(family, e)
                        &&& *self == old
                    },
                    _ => false,
                }
            },
        }
    }

    /// Draws one of `members`, identifiers that were drawn before.
    ///
    /// The member is recorded by its value. A replayed value that is no member
    /// any more becomes the largest member below it, or the smallest member,
    /// so that the deletion of other members never changes what a recorded
    /// choice refers to.
    pub fn draw_from_set(&mut self, family: &mut FamilyCore, members: &[i64]) -> (r: Result<
        i64,
        EngineError,
    >)
        ensures
            final(self).drew_member(*old(self), *old(family), *final(family), members@, r),
    {
        let ghost used = family.fresh_ids@;
        let ghost set = members_of(members@);
        let sorted = sorted_members(members);
        if sorted.len() == 0 {
            return Err(EngineError::internal("draw_from_set requires at least one member"));
        }
        let smallest: i64 = sorted.get(0);
        if smallest < 0 {
            return Err(EngineError::internal("draw_from_set requires nonnegative members"));
        }
        assert forall|id: i64| set.contains(id) implies id >= 0 by {
            assert(sorted@.contains(id));
        }
        let window_hi: i128 = family.fresh_ids.max_used() as i128 + 1;
        if (sorted.max_used() as i128) > window_hi {
            assert(set.contains(max_used_of(set)));
            return Err(
                EngineError::internal(
                    "draw_from_set members must be identifiers from draw_fresh_id",
                ),
            );
        }
        let source = match self.resolve_choice(family) {
            Ok(source) => source,
            Err(e) => {
                return Err(e);
            },
        };
        let raw: i64 = match source {
            ChoiceSource::Prefix => {
                let fitting: Option<i64> = match &self.prefix[self.nodes.len()] {
                    ChoiceValue::Integer(n) => match n.to_i64() {
                        Some(id) => if 0 <= id && id as i128 <= window_hi {
                            Some(id)
                        } else {
                            None
                        },
                        None => None,
                    },
                    _ => None,
                };
                match fitting {
                    Some(id) => id,
                    None => match self.stale_is_simplest() {
                        Ok(_) => 0,
                        Err(e) => {
                            return Err(EngineError::Internal(e));
                        },
                    },
                }
            },
            ChoiceSource::Template => 0,
            ChoiceSource::Random => match &mut self.source {
                Some(source) => {
                    let idx: usize = source.rng.index(sorted.len());
                    sorted.get(idx)
                },
                None => 0,
            },
        };
        let chosen: i64 = sorted.nearest(raw);
        let kind = IntegerChoice {
            min_value: BigInt::zero(),
            max_value: BigInt::from_i128(window_hi),
            shrink_towards: BigInt::zero(),
        };
        self.record_integer(kind, &BigInt::from_i64(chosen), false);
        Ok(chosen)
    }

    /// Whether a value may be replayed as a reference to a member.
    pub open spec fn reference_fits(v: ValueView, used: Set<i64>) -> bool {
        v matches ValueView::Integer(n) && 0 <= n <= max_used_of(used) + 1 && n <= i64::MAX
    }

    /// The reference that a replayed value stands for: itself, or the smallest
    /// where it cannot be one.
    pub open spec fn reference_to_replay(v: ValueView, used: Set<i64>) -> i64 {
        if Self::reference_fits(v, used) {
            v->Integer_0 as i64
        } else {
            0
        }
    }
}

/// What is said of an inverted pair of sizes.
pub open spec fn inverted_sizes(min: usize, max: usize) -> Seq<char> {
    "min_size ("@ + decimal(min as nat) + ") must be <= max_size ("@ + decimal(max as nat) + ")"@
}

fn inverted_sizes_error(min: usize, max: usize) -> (r: EngineError)
    ensures
        says(r, inverted_sizes(min, max)),
{
    let mut what = String::from_str("min_size (");
    append_usize(&mut what, min);
    what.append(") must be <= max_size (");
    append_usize(&mut what, max);
    what.append(")");
    EngineError::internal(what.as_str())
}

impl<D: Distributions, O: DataObserver> NativeTestCase<D, O> {
    /// Records a choice and tells the observer of it.
    fn record_bytes(&mut self, kind: BytesChoice, v: &Vec<u8>)
        ensures
            final(self).recorded(
                *old(self),
                NodeView {
                    kind: KindView::Bytes(kind),
                    value: ValueView::Bytes(v@),
                    was_forced: false,
                },
                Notice::Drawn(ValueView::Bytes(v@), false),
            ),
            final(self).trailing_template == old(self).trailing_template,
            final(self).source == old(self).source,
    {
        let copy: Vec<u8> = v.clone();
        assert(copy@ =~= v@);
        let node = ChoiceNode::bytes(kind, copy, false);
        self.nodes.push(node);
        assert(self.choices() =~= old(self).choices().push(node@));
        self.notify_bytes(v, false);
    }

    /// Draws a byte string with a length of `[min_size, max_size]`.
    pub fn draw_bytes(&mut self, family: &mut FamilyCore, min_size: usize, max_size: usize) -> (r:
        Result<Vec<u8>, EngineError>)
        ensures
            min_size > max_size ==> {
                &&& r matches Err(e) && says(e, inverted_sizes(min_size, max_size))
                &&& *final(self) == *old(self)
                &&& *final(family) == *old(family)
            },
            min_size <= max_size ==> {
                &&& final(self).drew_bytes(
                    *old(self),
                    *old(family),
                    BytesChoice { min_size, max_size },
                    bytes_answer(r),
                )
                &&& *final(family) == old(self).family_after(*old(family))
            },
    {
        reveal(bytes_sampled);
        if min_size > max_size {
            return Err(inverted_sizes_error(min_size, max_size));
        }
        let kind = BytesChoice { min_size, max_size };
        let source = match self.resolve_choice(family) {
            Ok(source) => source,
            Err(e) => {
                return Err(e);
            },
        };
        let v: Vec<u8> = match source {
            ChoiceSource::Prefix => {
                let fitting: Option<Vec<u8>> = match &self.prefix[self.nodes.len()] {
                    ChoiceValue::Bytes(b) => if kind.validate(b) {
                        let copy: Vec<u8> = b.clone();
                        assert(copy@ =~= b@);
                        Some(copy)
                    } else {
                        None
                    },
                    _ => None,
                };
                match fitting {
                    Some(b) => b,
                    None => match self.stale_is_simplest() {
                        Ok(true) => kind.simplest(),
                        Ok(false) => kind.unit(),
                        Err(e) => {
                            return Err(EngineError::Internal(e));
                        },
                    },
                }
            },
            ChoiceSource::Template => kind.simplest(),
            ChoiceSource::Random => match &mut self.source {
                Some(source) => match source.sampler.biased_bytes_sample(&kind, &mut source.rng) {
                    Ok(b) => b,
                    Err(e) => {
                        return Err(EngineError::Internal(e));
                    },
                },
                None => kind.simplest(),
            },
        };
        self.record_bytes(kind, &v);
        Ok(v)
    }

    /// Draws a floating-point value of a kind, with a view to a format.
    pub fn draw_float(
        &mut self,
        family: &mut FamilyCore,
        width: FloatWidth,
        kind: FloatChoice,
    ) -> (r: Result<FloatValue, EngineError>)
        requires
            float_kind_ok(kind),
        ensures
            final(self).drew_float(*old(self), *old(family), width, kind, float_answer(r)),
            *final(family) == old(self).family_after(*old(family)),
    {
        reveal(float_sampled);
        let source = match self.resolve_choice(family) {
            Ok(source) => source,
            Err(e) => {
                return Err(e);
            },
        };
        let v: FloatValue = match source {
            ChoiceSource::Prefix => {
                let fitting: Option<FloatValue> = match &self.prefix[self.nodes.len()] {
                    ChoiceValue::Float(f) => if kind.validate(f) {
                        Some(*f)
                    } else {
                        None
                    },
                    _ => None,
                };
                match fitting {
                    Some(f) => f,
                    None => match self.stale_is_simplest() {
                        Ok(true) => kind.simplest,
                        Ok(false) => kind.unit,
                        Err(e) => {
                            return Err(EngineError::Internal(e));
                        },
                    },
                }
            },
            ChoiceSource::Template => kind.simplest,
            ChoiceSource::Random => match &mut self.source {
                Some(source) => {
                    let params = family.generation_parameters(source.sampler.weights);
                    assert(old(family).samples_with(old(self).random().sampler.weights, params));
                    match source.sampler.biased_float_sample(
                        kind,
                        width,
                        &mut source.rng,
                        params.float,
                    ) {
                        Ok(f) => f,
                        Err(e) => {
                            return Err(EngineError::Internal(e));
                        },
                    }
                },
                None => kind.simplest,
            },
        };
        let ghost before = *self;
        let node = ChoiceNode::float(kind, v, false);
        self.nodes.push(node);
        assert(self.choices() =~= before.choices().push(node@));
        self.notify_float(v, false);
        Ok(v)
    }

    /// Draws a string over an alphabet with a length of
    /// `[min_size, max_size]`. The alphabet must not be empty, unless the
    /// string has to be.
    pub fn draw_string(
        &mut self,
        family: &mut FamilyCore,
        intervals: &mut IntervalSet,
        min_size: usize,
        max_size: usize,
    ) -> (r: Result<String, EngineError>)
        requires
            old(intervals).wf(),
        ensures
            final(intervals)@ == old(intervals)@,
            final(intervals).wf(),
            string_fault(old(intervals)@, min_size, max_size) matches Some(what) ==> {
                &&& r matches Err(e) && says(e, what)
                &&& *final(self) == *old(self)
                &&& *final(family) == *old(family)
            },
            string_fault(old(intervals)@, min_size, max_size) is None ==> {
                let kind = StringKind { alphabet: old(intervals)@, min_size, max_size };
                &&& *final(family) == old(self).family_after(*old(family))
                &&& match r {
                    Ok(text) => {
                        let v = final(self).choices().last().value;
                        &&& v matches ValueView::String(cps) && text@ == text_of(cps)
                        &&& final(self).drew_string(*old(self), *old(family), kind, Ok(v))
                    },
                    Err(e) => final(self).drew_string(*old(self), *old(family), kind, Err(e)),
                }
            },
    {
        reveal(string_sampled);
        if min_size > max_size {
            return Err(EngineError::internal("min_size <= max_size"));
        }
        if intervals.is_empty() && max_size > 0 {
            return Err(
                EngineError::internal("draw_string with empty alphabet must have max_size == 0"),
            );
        }
        let ghost alphabet = intervals@;
        let source = match self.resolve_choice(family) {
            Ok(source) => source,
            Err(e) => {
                return Err(e);
            },
        };
        if source == ChoiceSource::Random {
            constants_in_alphabet(intervals);
        }
        let mut kind = StringChoice { intervals: intervals.share(), min_size, max_size };
        let v: Vec<u32> = match source {
            ChoiceSource::Prefix => {
                let fitting: Option<Vec<u32>> = match &self.prefix[self.nodes.len()] {
                    ChoiceValue::String(s) => if kind.validate(s) {
                        let copy: Vec<u32> = s.clone();
                        assert(copy@ =~= s@);
                        Some(copy)
                    } else {
                        None
                    },
                    _ => None,
                };
                match fitting {
                    Some(s) => s,
                    None => {
                        let chosen = match self.stale_is_simplest() {
                            Ok(true) => kind.simplest(),
                            Ok(false) => kind.unit(),
                            Err(e) => Err(e),
                        };
                        match chosen {
                            Ok(s) => s,
                            Err(e) => {
                                return Err(EngineError::Internal(e));
                            },
                        }
                    },
                }
            },
            ChoiceSource::Template => match kind.simplest() {
                Ok(s) => s,
                Err(e) => {
                    return Err(EngineError::Internal(e));
                },
            },
            ChoiceSource::Random => match &mut self.source {
                Some(source) => match source.sampler.biased_string_sample(
                    &mut kind,
                    &mut source.rng,
                ) {
                    Ok(s) => s,
                    Err(e) => {
                        return Err(EngineError::Internal(e));
                    },
                },
                None => Vec::new(),
            },
        };
        let ghost before = *self;
        let text = codepoints_to_string(&v);
        let ghost cps = v@;
        let node = ChoiceNode::string(kind, v, false);
        self.nodes.push(node);
        assert(self.choices() =~= before.choices().push(node@));
        self.notify_string(text.as_str(), Ghost(cps), false);
        proof {
            assert(self.choices().last() == node@);
        }
        Ok(text)
    }

    /// Draws a boolean that is true with probability `p`, for one byte of
    /// entropy. A forced value is recorded as it is.
    pub fn weighted(&mut self, family: &mut FamilyCore, p: Probability, forced: Option<bool>) -> (r:
        Result<bool, EngineError>)
        ensures
            final(self).weighed(*old(self), *old(family), *final(family), p, forced, false, r),
    {
        self.weighted_with(family, p, forced, false)
    }

    /// Draws a boolean that is true with probability `p`, for sixty-four bits
    /// of entropy. A forced value is recorded as it is.
    pub fn weighted_precise(
        &mut self,
        family: &mut FamilyCore,
        p: Probability,
        forced: Option<bool>,
    ) -> (r: Result<bool, EngineError>)
        ensures
            final(self).weighed(*old(self), *old(family), *final(family), p, forced, true, r),
    {
        self.weighted_with(family, p, forced, true)
    }

    /// Whether a test case drew a boolean for a byte of entropy, or for sixty-four
    /// bits, or failed to.
    pub open spec fn weighed(
        &self,
        old: Self,
        family: FamilyCore,
        new_family: FamilyCore,
        p: Probability,
        forced: Option<bool>,
        precise: bool,
        r: Result<bool, EngineError>,
    ) -> bool {
        let kind = KindView::Boolean(BooleanChoice { p });
        match forced_boolean(p, forced) {
            Some(f) => {
                &&& r matches Ok(v) ==> v == f
                &&& self.forced(
                    old,
                    family,
                    new_family,
                    kind,
                    ValueView::Boolean(f),
                    match r {
                        Ok(_) => None,
                        Err(e) => Some(e),
                    },
                )
            },
            None => {
                &&& self.drew(old, family, kind, boolean_answer(r))
                &&& self.took(
                    old,
                    family,
                    r matches Ok(v) && flipped(
                        p,
                        precise,
                        old.random().rng.handed(),
                        self.random().rng.handed(),
                        v,
                    ),
                )
                &&& new_family == old.family_after(family)
            },
        }
    }

    fn weighted_with(
        &mut self,
        family: &mut FamilyCore,
        p: Probability,
        forced: Option<bool>,
        precise: bool,
    ) -> (r: Result<bool, EngineError>)
        ensures
            final(self).weighed(*old(self), *old(family), *final(family), p, forced, precise, r),
    {
        let kind = BooleanChoice { p };
        let forced_value: Option<bool> = match forced {
            Some(f) => Some(f),
            None => if p.numerator == 0 {
                Some(false)
            } else if p.numerator >= PROBABILITY_ONE {
                Some(true)
            } else {
                None
            },
        };
        let (v, was_forced) = match forced_value {
            Some(f) => {
                if let Err(e) = self.pre_choice(family) {
                    return Err(e);
                }
                (f, true)
            },
            None => {
                let source = match self.resolve_choice(family) {
                    Ok(source) => source,
                    Err(e) => {
                        return Err(e);
                    },
                };
                let v: bool = match source {
                    ChoiceSource::Prefix => {
                        let fitting: Option<bool> = match &self.prefix[self.nodes.len()] {
                            ChoiceValue::Boolean(b) => Some(*b),
                            _ => None,
                        };
                        match fitting {
                            Some(b) => b,
                            None => match self.stale_is_simplest() {
                                Ok(true) => kind.simplest(),
                                Ok(false) => kind.unit(),
                                Err(e) => {
                                    return Err(EngineError::Internal(e));
                                },
                            },
                        }
                    },
                    ChoiceSource::Template => kind.simplest(),
                    ChoiceSource::Random => match &mut self.source {
                        Some(source) => flip(p, precise, &mut source.rng),
                        None => false,
                    },
                };
                (v, false)
            },
        };
        let ghost before = *self;
        let node = ChoiceNode::boolean(kind, v, was_forced);
        self.nodes.push(node);
        assert(self.choices() =~= before.choices().push(node@));
        self.notify_boolean(v, was_forced);
        Ok(v)
    }
}

/// What a boolean has to be: what it is forced to, or the only value that its
/// probability leaves.
pub open spec fn forced_boolean(p: Probability, forced: Option<bool>) -> Option<bool> {
    match forced {
        Some(f) => Some(f),
        None => if p.numerator == 0 {
            Some(false)
        } else if p.numerator >= PROBABILITY_ONE {
            Some(true)
        } else {
            None
        },
    }
}

/// Why no string can be drawn.
pub open spec fn string_fault(
    alphabet: Seq<(u32, u32)>,
    min_size: usize,
    max_size: usize,
) -> Option<Seq<char>> {
    if min_size > max_size {
        Some("min_size <= max_size"@)
    } else if ranges_size(alphabet) == 0 && max_size > 0 {
        Some("draw_string with empty alphabet must have max_size == 0"@)
    } else {
        None
    }
}

/// How many of the first `n` weights are positive.
pub open spec fn positive_below(weights: Seq<u32>, n: int) -> int
    decreases n,
{
    if n <= 0 {
        0
    } else {
        positive_below(weights, n - 1) + if weights[n - 1] > 0 {
            1int
        } else {
            0int
        }
    }
}

/// The number of positive weights, and the last index with one.
fn positive_weights(weights: &Vec<u32>) -> (r: (usize, usize))
    ensures
        r.0 == positive_below(weights@, weights@.len() as int),
        r.0 > 0 ==> r.1 < weights@.len() && weights@[r.1 as int] > 0,
{
    let mut count: usize = 0;
    let mut last: usize = 0;
    let mut i: usize = 0;
    while i < weights.len()
        invariant
            i <= weights@.len(),
            count <= i,
            count == positive_below(weights@, i as int),
            count > 0 ==> last < i && weights@[last as int] > 0,
        decreases weights@.len() - i,
    {
        if weights[i] > 0 {
            count = count + 1;
            last = i;
        }
        i = i + 1;
    }
    (count, last)
}

impl<D: Distributions, O: DataObserver> NativeTestCase<D, O> {
    /// Draws an index of `weights`, each as likely as its weight says.
    ///
    /// Where one weight alone is positive, its index is forced. A replayed
    /// index is kept, whatever its weight.
    pub fn draw_index_weighted(&mut self, family: &mut FamilyCore, weights: &Vec<u32>) -> (r: Result<
        usize,
        EngineError,
    >)
        ensures
            ({
                let n = weights@.len() as int;
                let positive = positive_below(weights@, n);
                let kind = integer_range(0, n - 1);
                if positive == 0 || weight_below(weights@, n) > u64::MAX {
                    &&& r matches Err(e) && says(
                        e,
                        "draw_index_weighted requires a positive weight"@,
                    )
                    &&& *final(self) == *old(self)
                    &&& *final(family) == *old(family)
                } else if positive == 1 {
                    exists|i: int|
                        0 <= i < n && (#[trigger] weights@[i]) > 0 && (r matches Ok(v) ==> v == i)
                            && final(self).forced(
                            *old(self),
                            *old(family),
                            *final(family),
                            kind,
                            ValueView::Integer(i),
                            match r {
                                Ok(_) => None,
                                Err(e) => Some(e),
                            },
                        )
                } else {
                    &&& r matches Ok(v) ==> v < n
                    &&& final(self).drew(
                        *old(self),
                        *old(family),
                        kind,
                        match r {
                            Ok(v) => Ok(ValueView::Integer(v as int)),
                            Err(e) => Err(e),
                        },
                    )
                    &&& *final(family) == old(self).family_after(*old(family))
                    &&& final(self).took(
                        *old(self),
                        *old(family),
                        r matches Ok(v) && weights@[v as int] > 0 && drew_ticket(
                            old(self).random().rng.handed(),
                            final(self).random().rng.handed(),
                            weights@,
                            v as int,
                        ),
                    )
                }
            }),
    {
        let (positive, only) = positive_weights(weights);
        let total = total_weight(weights);
        if positive == 0 || total.is_none() {
            return Err(EngineError::internal("draw_index_weighted requires a positive weight"));
        }
        let n: usize = weights.len();
        proof {
            lemma_positive_weights(weights@, n as int);
        }
        let max = BigInt::from_u64((n - 1) as u64);
        if positive == 1 {
            assert(weights@[only as int] > 0);
            return match self.draw_integer_forced(
                family,
                BigInt::zero(),
                max,
                BigInt::from_u64(only as u64),
            ) {
                Ok(()) => Ok(only),
                Err(e) => Err(e),
            };
        }
        let kind = IntegerChoice {
            min_value: BigInt::zero(),
            max_value: max,
            shrink_towards: BigInt::zero(),
        };
        let source = match self.resolve_choice(family) {
            Ok(source) => source,
            Err(e) => {
                return Err(e);
            },
        };
        let v: BigInt = match source {
            ChoiceSource::Prefix => {
                let fitting: Option<BigInt> = match &self.prefix[self.nodes.len()] {
                    ChoiceValue::Integer(n) => if kind.validate(n) {
                        Some(n.clone())
                    } else {
                        None
                    },
                    _ => None,
                };
                match fitting {
                    Some(n) => n,
                    None => match self.stale_is_simplest() {
                        Ok(true) => kind.simplest(),
                        Ok(false) => kind.unit(),
                        Err(e) => {
                            return Err(EngineError::Internal(e));
                        },
                    },
                }
            },
            ChoiceSource::Template => kind.simplest(),
            ChoiceSource::Random => match &mut self.source {
                Some(source) => match weighted_index_sample(weights, &mut source.rng) {
                    Some(i) => BigInt::from_u64(i as u64),
                    None => kind.simplest(),
                },
                None => kind.simplest(),
            },
        };
        self.record_integer(kind, &v, false);
        let index: u64 = v.to_u64().unwrap();
        Ok(index as usize)
    }
}

proof fn lemma_positive_weights(weights: Seq<u32>, n: int)
    requires
        0 <= n <= weights.len(),
    ensures
        0 <= positive_below(weights, n) <= n,
        positive_below(weights, n) > 0 <==> weight_below(weights, n) > 0,
        weight_below(weights, n) >= 0,
    decreases n,
{
    if n > 0 {
        lemma_positive_weights(weights, n - 1);
    }
}

} // verus!
