//! Collections of a drawn length: one boolean before each element says
//! whether there is another.
use crate::choices::Probability;
use crate::choices::PROBABILITY_ONE;
use crate::drawing::says;
use crate::errors::EngineError;
use crate::errors::Status;
use crate::family::FamilyCore;
use crate::sampling::Distributions;
use crate::test_case::DataObserver;
use crate::test_case::NativeTestCase;
use vstd::arithmetic::power2::lemma2_to64;
use vstd::arithmetic::power2::lemma2_to64_rest;
use vstd::arithmetic::power2::lemma_pow2_strictly_increases;
use vstd::arithmetic::power2::lemma_pow2_unfold;
use vstd::arithmetic::power2::pow2;
use vstd::prelude::*;

verus! {

/// Ninety-nine percent, as a [`Probability`].
pub const NEARLY_CERTAIN: u64 = 8917127262193582;

/// The largest denominator of a fraction that [`fraction`] takes.
pub const MAX_DENOMINATOR: u128 = 0x4000_0000_0000_0000_0000_0000_0000_0000;

/// The probability `n / d`, rounded down.
pub open spec fn fraction_of(n: int, d: int) -> int {
    n * PROBABILITY_ONE / d
}

/// The probability `n / d`, rounded down.
pub fn fraction(n: u128, d: u128) -> (r: Probability)
    requires
        n <= d,
        0 < d <= MAX_DENOMINATOR,
    ensures
        r.numerator == fraction_of(n as int, d as int),
        r.numerator <= PROBABILITY_ONE,
{
    if n == d {
        proof {
            vstd::arithmetic::div_mod::lemma_div_multiples_vanish(
                PROBABILITY_ONE as int,
                d as int,
            );
        }
        return Probability { numerator: PROBABILITY_ONE };
    }
    let mut quotient: u64 = 0;
    let mut rest: u128 = n;
    let mut i: u32 = 0;
    proof {
        lemma2_to64();
        lemma2_to64_rest();
    }
    while i < 53
        invariant
            n < d <= MAX_DENOMINATOR,
            rest < d,
            i <= 53,
            pow2(53) == PROBABILITY_ONE,
            quotient < pow2(i as nat) <= PROBABILITY_ONE,
            n * pow2(i as nat) == quotient * d + rest,
        decreases 53 - i,
    {
        proof {
            let scale = pow2(i as nat);
            lemma_pow2_unfold((i + 1) as nat);
            if i + 1 < 53 {
                lemma_pow2_strictly_increases((i + 1) as nat, 53);
            }
            assert(n * (2 * scale) == (2 * quotient) * d + 2 * rest) by (nonlinear_arith)
                requires
                    n * scale == quotient * d + rest,
            ;
            assert((2 * quotient) * d + 2 * rest == (2 * quotient + 1) * d + (2 * rest - d))
                by (nonlinear_arith);
        }
        rest = rest * 2;
        quotient = quotient * 2;
        if rest >= d {
            rest = rest - d;
            quotient = quotient + 1;
        }
        i = i + 1;
    }
    proof {
        vstd::arithmetic::div_mod::lemma_fundamental_div_mod_converse(
            n * PROBABILITY_ONE,
            d as int,
            quotient as int,
            rest as int,
        );
    }
    Probability { numerator: quotient }
}

/// The probability of another element.
///
/// The lengths centre on twice the smallest one, or five more than it, but not
/// on more than half way to the largest one.
pub open spec fn continue_numerator(min_size: usize, max_size: Option<usize>) -> int {
    let desired: int = if min_size > 5 {
        min_size as int
    } else {
        5
    };
    match max_size {
        None => fraction_of(desired, 1 + desired),
        Some(max) => if max <= min_size {
            NEARLY_CERTAIN as int
        } else {
            let twice = if 2 * desired < max - min_size {
                2 * desired
            } else {
                max - min_size
            };
            fraction_of(2 + twice, 4 + twice)
        },
    }
}

/// The probability of another element.
pub fn length_p_continue(min_size: usize, max_size: Option<usize>) -> (r: Probability)
    ensures
        r.numerator == continue_numerator(min_size, max_size),
        r.numerator <= PROBABILITY_ONE,
{
    let desired: u128 = if min_size > 5 {
        min_size as u128
    } else {
        5
    };
    match max_size {
        None => fraction(desired, 1 + desired),
        Some(max) => if max <= min_size {
            Probability { numerator: NEARLY_CERTAIN }
        } else {
            let room: u128 = (max - min_size) as u128;
            let twice: u128 = if 2 * desired < room {
                2 * desired
            } else {
                room
            };
            fraction(2 + twice, 4 + twice)
        },
    }
}

/// The state of a collection that is being drawn.
#[derive(Clone, Copy, Debug, PartialEq, Eq, Structural)]
pub struct ManyState {
    /// The smallest length.
    pub min_size: usize,
    /// The largest length, if there is one.
    pub max_size: Option<usize>,
    /// The probability of another element.
    pub p_continue: Probability,
    /// How many elements there are.
    pub count: usize,
    /// How many elements were rejected.
    pub rejections: usize,
    /// Whether no element may follow.
    pub force_stop: bool,
}

impl ManyState {
    /// A collection without elements.
    pub fn new(min_size: usize, max_size: Option<usize>) -> (r: Self)
        ensures
            r.min_size == min_size,
            r.max_size == max_size,
            r.p_continue.numerator == continue_numerator(min_size, max_size),
            r.count == 0,
            r.rejections == 0,
            !r.force_stop,
    {
        ManyState {
            min_size,
            max_size,
            p_continue: length_p_continue(min_size, max_size),
            count: 0,
            rejections: 0,
            force_stop: false,
        }
    }

    /// Whether only one length is possible.
    pub open spec fn is_fixed(&self) -> bool {
        self.max_size == Some(self.min_size)
    }

    /// What the next boolean has to be, if that is settled. No collection has
    /// more than `usize::MAX` elements.
    pub open spec fn settled(&self) -> Option<bool> {
        if self.force_stop {
            Some(false)
        } else if self.count < self.min_size {
            Some(true)
        } else if self.count == usize::MAX || (self.max_size matches Some(max) && self.count
            >= max) {
            Some(false)
        } else {
            None
        }
    }

    /// The collection with one element more.
    pub open spec fn grown(&self) -> ManyState {
        ManyState { count: (self.count + 1) as usize, ..*self }
    }

    /// Whether too many elements were rejected.
    pub open spec fn is_exhausted(&self) -> bool {
        self.rejections + 1 > 3 && self.rejections + 1 > 2 * (self.count - 1)
    }
}

/// Whether it was decided if a collection has another element, or the request
/// failed.
pub open spec fn more_decided<D: Distributions, O: DataObserver>(
    new: NativeTestCase<D, O>,
    old: NativeTestCase<D, O>,
    family: FamilyCore,
    new_family: FamilyCore,
    new_state: ManyState,
    state: ManyState,
    r: Result<bool, EngineError>,
) -> bool {
    &&& if state.is_fixed() {
            &&& r == Ok::<bool, EngineError>(state.count < state.min_size)
            &&& new == old
            &&& new_family == family
        } else {
            new.weighed(
                old,
                family,
                new_family,
                state.p_continue,
                state.settled(),
                false,
                r,
            )
        }
    &&& new_state == if r == Ok::<bool, EngineError>(true) {
            state.grown()
        } else {
            state
        }
}

/// Asks whether a collection has another element.
///
/// A collection of fixed length draws nothing.
pub fn many_more<D: Distributions, O: DataObserver>(
    ntc: &mut NativeTestCase<D, O>,
    family: &mut FamilyCore,
    state: &mut ManyState,
) -> (r: Result<bool, EngineError>)
    ensures
        more_decided(
            *final(ntc),
            *old(ntc),
            *old(family),
            *final(family),
            *final(state),
            *old(state),
            r,
        ),
{
    let at_limit = state.count == usize::MAX || match state.max_size {
        Some(max) => state.count >= max,
        None => false,
    };
    let fixed = match state.max_size {
        Some(max) => max == state.min_size,
        None => false,
    };
    let more = if fixed {
        state.count < state.min_size
    } else {
        let forced: Option<bool> = if state.force_stop {
            Some(false)
        } else if state.count < state.min_size {
            Some(true)
        } else if at_limit {
            Some(false)
        } else {
            None
        };
        match ntc.weighted(family, state.p_continue, forced) {
            Ok(more) => more,
            Err(e) => {
                return Err(e);
            },
        }
    };
    if more {
        state.count = state.count + 1;
    }
    Ok(more)
}

/// Whether the last element of a collection was taken back, or the request
/// failed.
pub open spec fn element_rejected<D: Distributions, O: DataObserver>(
    new: NativeTestCase<D, O>,
    old: NativeTestCase<D, O>,
    family: FamilyCore,
    new_family: FamilyCore,
    new_state: ManyState,
    state: ManyState,
    r: Result<(), EngineError>,
) -> bool {
    &&& new == old
    &&& if state.count == 0 {
            &&& r matches Err(e) && says(e, "a rejection needs an element"@)
            &&& new_state == state
            &&& new_family == family
        } else {
            let hopeless = state.is_exhausted() && state.count - 1 < state.min_size;
            &&& new_state == (ManyState {
                count: (state.count - 1) as usize,
                rejections: if state.rejections == usize::MAX {
                    usize::MAX
                } else {
                    (state.rejections + 1) as usize
                },
                force_stop: state.force_stop || (state.is_exhausted() && !hopeless),
                ..state
            })
            &&& r == if hopeless {
                Err::<(), EngineError>(EngineError::InvalidTestCase)
            } else {
                Ok(())
            }
            &&& new_family == if hopeless {
                family.concluded(Status::Invalid, None)
            } else {
                family
            }
        }
}

/// Takes back the last element of a collection.
///
/// Where too many elements were taken back, the collection ends, or, if it is
/// not long enough, the test case is invalid.
pub fn many_reject<D: Distributions, O: DataObserver>(
    ntc: &mut NativeTestCase<D, O>,
    family: &mut FamilyCore,
    state: &mut ManyState,
) -> (r: Result<(), EngineError>)
    ensures
        element_rejected(
            *final(ntc),
            *old(ntc),
            *old(family),
            *final(family),
            *final(state),
            *old(state),
            r,
        ),
{
    if state.count == 0 {
        return Err(EngineError::internal("a rejection needs an element"));
    }
    let rejections: u128 = state.rejections as u128 + 1;
    state.count = state.count - 1;
    if state.rejections < usize::MAX {
        state.rejections = state.rejections + 1;
    }
    if rejections > 3 && rejections > 2 * (state.count as u128) {
        if state.count < state.min_size {
            ntc.conclude(family, Status::Invalid, None);
            return Err(EngineError::InvalidTestCase);
        }
        state.force_stop = true;
    }
    Ok(())
}

/// Whether a collection may still end with a length that it allows.
pub open spec fn length_in_reach(state: ManyState) -> bool {
    state.max_size matches Some(max) ==> state.min_size <= max && state.count <= max
}

/// A collection never grows past its largest length: where another element
/// was granted that was not more than allowed, there still are not more than
/// allowed.
pub proof fn lemma_growth_keeps_to_the_bounds(state: ManyState)
    requires
        length_in_reach(state),
        state.is_fixed() ==> state.count < state.min_size,
        !state.is_fixed() ==> state.settled() != Some(false),
    ensures
        length_in_reach(state.grown()),
        state.grown().count == state.count + 1,
{
}

/// A collection that ended by a draw is long enough.
pub proof fn lemma_end_is_long_enough(state: ManyState, more: bool)
    requires
        length_in_reach(state),
        !state.force_stop,
        !more,
        state.is_fixed() ==> more == (state.count < state.min_size),
        state.settled() matches Some(s) ==> more == s,
    ensures
        state.min_size <= state.count,
        state.max_size matches Some(max) ==> state.count <= max,
{
}

} // verus!
