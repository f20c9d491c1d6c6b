//! Collections: which lengths they can have.
use super::entropy;
use super::has_room_for;
use super::is_random;
use super::lemma_one_choice_more;
use super::recorded_one;
use super::replays;
use crate::choices::BooleanChoice;
use crate::choices::KindView;
use crate::choices::NodeView;
use crate::choices::Probability;
use crate::choices::ValueView;
use crate::collections::fraction_of;
use crate::collections::length_p_continue;
use crate::collections::many_more;
use crate::collections::many_reject;
use crate::collections::ManyState;
use crate::drawing::flipped;
use crate::errors::EngineError;
use crate::errors::InterestingOrigin;
use crate::errors::Status;
use crate::family::FamilyCore;
use crate::sampling::Distributions;
use crate::sequence_sampling::first_true_byte;
use crate::test_case::DataObserver;
use crate::test_case::NativeTestCase;
use vstd::arithmetic::div_mod::lemma_fundamental_div_mod;
use vstd::prelude::*;

verus! {

/// Between its bounds a collection goes on or ends as the choice says: nothing is
/// forced where there are as many elements as there have to be and fewer than there
/// may be. Below the smallest length it always goes on; at the largest one, and where
/// it was stopped, it always ends. An element more is counted as one.
pub proof fn lemma_collections_go_on_as_chosen<D: Distributions, O: DataObserver>(
    tc: NativeTestCase<D, O>,
    family: FamilyCore,
    before: ManyState,
    after: ManyState,
    b: bool,
    r: Result<bool, EngineError>,
)
    requires
        exists|m: &mut NativeTestCase<D, O>, f: &mut FamilyCore, s: &mut ManyState| #[trigger]
            call_ensures(many_more::<D, O>, (m, f, s), r) && *m == tc && *f == family && *s
                == before && *final(s) == after,
        has_room_for(tc, family, 1),
        0 < before.p_continue.numerator < 0x20_0000_0000_0000,
    ensures
        !before.force_stop && before.min_size <= before.count < usize::MAX && (before.max_size
            matches Some(max) ==> before.count < max) && replays(tc, 0, ValueView::Boolean(b))
            ==> r == Ok::<bool, EngineError>(b),
        !before.force_stop && before.count < before.min_size ==> r == Ok::<bool, EngineError>(true),
        before.count >= before.min_size && (before.force_stop || (before.max_size matches Some(max)
            && before.count >= max)) ==> r == Ok::<bool, EngineError>(false),
        r == Ok::<bool, EngineError>(true) ==> after == (ManyState {
            count: (before.count + 1) as usize,
            ..before
        }) && before.count < usize::MAX,
        r != Ok::<bool, EngineError>(true) ==> after == before,
{
}

/// At random, a collection between its bounds goes on for a share of the bytes that is
/// its probability of going on, to one part in two hundred and fifty-six. It can end
/// and it can go on, whatever that probability.
pub proof fn lemma_collections_go_on_with_their_probability<D: Distributions, O: DataObserver>(
    tc: NativeTestCase<D, O>,
    after: NativeTestCase<D, O>,
    family: FamilyCore,
    state: ManyState,
    r: Result<bool, EngineError>,
)
    requires
        exists|m: &mut NativeTestCase<D, O>, f: &mut FamilyCore, s: &mut ManyState| #[trigger]
            call_ensures(many_more::<D, O>, (m, f, s), r) && *m == tc && *final(m) == after && *f
                == family && *s == state,
        has_room_for(tc, family, 1),
        is_random(tc),
        0 < state.p_continue.numerator < 0x20_0000_0000_0000,
        !state.force_stop,
        state.min_size <= state.count < usize::MAX,
        state.max_size matches Some(max) ==> state.count < max,
    ensures
        exists|byte: int|
            {
                let ends = (0x20_0000_0000_0000 - state.p_continue.numerator) * 256;
                &&& entropy(after) == #[trigger] entropy(tc).push(byte)
                &&& 0 <= byte < 256
                &&& byte == 0 ==> r == Ok::<bool, EngineError>(false)
                &&& byte == 255 ==> r == Ok::<bool, EngineError>(true)
                &&& 0 < byte < 255 && (byte + 1) * 0x20_0000_0000_0000 <= ends ==> r == Ok::<
                    bool,
                    EngineError,
                >(false)
                &&& 0 < byte < 255 && byte * 0x20_0000_0000_0000 >= ends ==> r == Ok::<
                    bool,
                    EngineError,
                >(true)
                &&& r is Ok
            },
{
    let before = tc.source->Some_0.rng.handed();
    let handed = after.source->Some_0.rng.handed();
    assert(flipped(state.p_continue, false, before, handed, r->Ok_0));
    let byte = choose|byte: int|
        handed == #[trigger] before.push(byte) && 0 <= byte < 256 && r->Ok_0 == (byte
            >= first_true_byte(state.p_continue));
    assert(entropy(after) == entropy(tc).push(byte));
}

/// A collection ends with every length that its bounds allow, and with no other: where
/// it is replayed as so many `true`s and a `false`, it has that many elements.
///
/// This is the step of that: a collection with so many elements goes on to one more
/// where there may be one, and ends where there may be none or where it is told to and
/// has enough.
pub proof fn lemma_collections_have_every_length<D: Distributions, O: DataObserver>(
    tc: NativeTestCase<D, O>,
    family: FamilyCore,
    before: ManyState,
    after: ManyState,
    wanted: usize,
    r: Result<bool, EngineError>,
)
    requires
        exists|m: &mut NativeTestCase<D, O>, f: &mut FamilyCore, s: &mut ManyState| #[trigger]
            call_ensures(many_more::<D, O>, (m, f, s), r) && *m == tc && *f == family && *s
                == before && *final(s) == after,
        has_room_for(tc, family, 1),
        0 < before.p_continue.numerator < 0x20_0000_0000_0000,
        !before.force_stop,
        before.min_size <= wanted,
        before.max_size matches Some(max) ==> wanted <= max,
        before.count <= wanted < usize::MAX,
        replays(tc, 0, ValueView::Boolean(before.count < wanted)) || before.max_size == Some(
            before.min_size,
        ),
    ensures
        r == Ok::<bool, EngineError>(before.count < wanted),
        after.count == if before.count < wanted {
            before.count + 1
        } else {
            wanted as int
        },
{
}

/// A collection of one possible length draws nothing. Any other draws one choice for
/// each answer, with the probability of going on that it was made with.
pub proof fn lemma_collections_draw_one_choice_each<D: Distributions, O: DataObserver>(
    tc: NativeTestCase<D, O>,
    after: NativeTestCase<D, O>,
    family: FamilyCore,
    new_family: FamilyCore,
    state: ManyState,
    r: Result<bool, EngineError>,
)
    requires
        exists|m: &mut NativeTestCase<D, O>, f: &mut FamilyCore, s: &mut ManyState| #[trigger]
            call_ensures(many_more::<D, O>, (m, f, s), r) && *m == tc && *final(m) == after && *f
                == family && *final(f) == new_family && *s == state,
        r is Ok,
        family.total_draws < family.budget,
        0 < state.p_continue.numerator < 0x20_0000_0000_0000,
    ensures
        state.max_size == Some(state.min_size) ==> after == tc && new_family == family,
        state.max_size != Some(state.min_size) ==> {
            &&& recorded_one(
                tc,
                after,
                NodeView {
                    kind: KindView::Boolean(BooleanChoice { p: state.p_continue }),
                    value: ValueView::Boolean(r->Ok_0),
                    was_forced: state.force_stop || state.count < state.min_size || state.count
                        == usize::MAX || (state.max_size matches Some(max) && state.count >= max),
                },
            )
            &&& new_family.total_draws == family.total_draws + 1
        },
{
    if state.max_size != Some(state.min_size) {
        lemma_one_choice_more(tc, after);
    }
}

/// An element that is taken back is counted as one less, and as a rejection. Where there
/// were more than three rejections, and more than twice as many as there are elements,
/// the collection ends, or, where it is not long enough, the test case is invalid.
/// Before that, a rejection ends nothing.
pub proof fn lemma_rejections_end_collections<D: Distributions, O: DataObserver>(
    tc: NativeTestCase<D, O>,
    after_tc: NativeTestCase<D, O>,
    family: FamilyCore,
    new_family: FamilyCore,
    before: ManyState,
    after: ManyState,
    r: Result<(), EngineError>,
)
    requires
        exists|m: &mut NativeTestCase<D, O>, f: &mut FamilyCore, s: &mut ManyState| #[trigger]
            call_ensures(many_reject::<D, O>, (m, f, s), r) && *m == tc && *final(m) == after_tc
                && *f == family && *final(f) == new_family && *s == before && *final(s) == after,
        before.rejections < usize::MAX,
        family.conclusion is None,
    ensures
        after_tc == tc,
        before.count == 0 ==> r is Err && after == before && new_family == family,
        before.count > 0 ==> {
            let many = after.rejections > 3 && after.rejections > 2 * after.count;
            &&& after.count == before.count - 1
            &&& after.rejections == before.rejections + 1
            &&& after.min_size == before.min_size
            &&& after.max_size == before.max_size
            &&& after.p_continue == before.p_continue
            &&& r is Err <==> many && after.count < after.min_size
            &&& r is Err ==> r == Err::<(), EngineError>(EngineError::InvalidTestCase)
                && new_family.conclusion == Some((Status::Invalid, None::<InterestingOrigin>))
            &&& r is Ok ==> new_family == family
            &&& after.force_stop <==> before.force_stop || (many && after.count >= after.min_size)
        },
{
}

/// A quotient, rounded down, is the largest number that does not exceed it.
proof fn lemma_fraction_is_the_largest(n: int, d: int)
    requires
        0 <= n,
        0 < d,
    ensures
        fraction_of(n, d) * d <= n * 0x20_0000_0000_0000 < (fraction_of(n, d) + 1) * d,
{
    let top = n * 0x20_0000_0000_0000;
    lemma_fundamental_div_mod(top, d);
    let q = top / d;
    assert(q * d <= top < (q + 1) * d) by (nonlinear_arith)
        requires
            top == d * q + top % d,
            0 <= top % d < d,
    ;
}

/// The probability that a collection goes on is such that its lengths centre, above the
/// smallest one, on that or on five, whichever is more, but on no more than half of the
/// room there is: where they centre on `c`, it is `c / (c + 1)`, and where there is room
/// for twice that and no more, `(2 + 2c) / (4 + 2c)`. A new collection has that
/// probability, and nothing in it. It can always go on and always end.
pub proof fn lemma_lengths_centre_on_their_bounds(
    min_size: usize,
    max_size: Option<usize>,
    r: Probability,
    state: ManyState,
)
    requires
        call_ensures(length_p_continue, (min_size, max_size), r),
        call_ensures(ManyState::new, (min_size, max_size), state),
    ensures
        0 < r.numerator < 0x20_0000_0000_0000,
        state == (ManyState {
            min_size,
            max_size,
            p_continue: r,
            count: 0,
            rejections: 0,
            force_stop: false,
        }),
        ({
            let p = r.numerator as int;
            let centre: int = if min_size > 5 {
                min_size as int
            } else {
                5
            };
            match max_size {
                None => p * (centre + 1) <= centre * 0x20_0000_0000_0000 < (p + 1) * (centre + 1),
                Some(max) => if max <= min_size {
                    100 * p <= 99 * 0x20_0000_0000_0000 < 100 * (p + 1)
                } else {
                    let twice = if max - min_size <= 2 * centre {
                        max - min_size
                    } else {
                        2 * centre
                    };
                    p * (4 + twice) <= (2 + twice) * 0x20_0000_0000_0000 < (p + 1) * (4 + twice)
                },
            }
        }),
{
    let centre: int = if min_size > 5 {
        min_size as int
    } else {
        5
    };
    lemma_fraction_is_the_largest(centre, 1 + centre);
    let p = r.numerator as int;
    if max_size is None {
        assert(p > 0) by (nonlinear_arith)
            requires
                centre * 0x20_0000_0000_0000 < (p + 1) * (1 + centre),
                centre >= 5,
        ;
        assert(p < 0x20_0000_0000_0000) by (nonlinear_arith)
            requires
                p * (1 + centre) <= centre * 0x20_0000_0000_0000,
                centre >= 5,
        ;
        assert(p * (1 + centre) == p * (centre + 1));
    } else if max_size->Some_0 > min_size {
        let room = max_size->Some_0 - min_size;
        let twice = if room <= 2 * centre {
            room
        } else {
            2 * centre
        };
        lemma_fraction_is_the_largest(2 + twice, 4 + twice);
        assert(p > 0) by (nonlinear_arith)
            requires
                (2 + twice) * 0x20_0000_0000_0000 < (p + 1) * (4 + twice),
                twice >= 1,
        ;
        assert(p < 0x20_0000_0000_0000) by (nonlinear_arith)
            requires
                p * (4 + twice) <= (2 + twice) * 0x20_0000_0000_0000,
                twice >= 1,
        ;
    }
}

} // verus!
