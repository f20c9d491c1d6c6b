//! Single draws: what is replayed, what is recorded, and what chance decides.
use super::entropy;
use super::has_room_for;
use super::is_random;
use super::is_simplest;
use super::lemma_one_choice_more;
use super::recorded_one;
use super::replays;
use crate::bignum::BigInt;
use crate::choices::float_fits;
use crate::choices::BooleanChoice;
use crate::choices::BytesChoice;
use crate::choices::FloatChoice;
use crate::choices::FloatValue;
use crate::choices::IntegerKind;
use crate::choices::KindView;
use crate::choices::NodeView;
use crate::choices::Probability;
use crate::choices::ValueView;
use crate::drawing::flipped;
use crate::drawing::members_of;
use crate::draws::choose_from;
use crate::draws::draw_concurrency;
use crate::draws::draw_float_of_kind;
use crate::draws::fresh_id;
use crate::draws::generate_boolean;
use crate::draws::generate_bytes;
use crate::draws::generate_integer;
use crate::errors::EngineError;
use crate::family::FamilyCore;
use crate::float_grids::FloatWidth;
use crate::sampling::Distributions;
use crate::sequence_sampling::boolean_from_bits;
use crate::sequence_sampling::boolean_from_byte;
use crate::test_case::DataObserver;
use crate::test_case::NativeTestCase;
use crate::variables::lemma_some_unused_is_smallest;
use crate::variables::lemma_some_used_is_largest;
use crate::variables::max_used_of;
use vstd::prelude::*;

verus! {

/// A boolean is what is replayed where it can come out both ways. It is what it is
/// forced to be, and where its probability is zero or one it is `false` or `true`. It is
/// recorded as one choice, and nothing else is.
pub proof fn lemma_booleans_are_as_chosen<D: Distributions, O: DataObserver>(
    tc: NativeTestCase<D, O>,
    after: NativeTestCase<D, O>,
    family: FamilyCore,
    new_family: FamilyCore,
    p: Probability,
    written: &str,
    forced: Option<bool>,
    b: bool,
    r: Result<bool, EngineError>,
)
    requires
        exists|m: &mut NativeTestCase<D, O>, f: &mut FamilyCore| #[trigger]
            call_ensures(generate_boolean::<D, O>, (m, f, p, written, forced), r) && *m == tc && *final(m) == after && *f
                == family && *final(f) == new_family,
        has_room_for(tc, family, 1),
    ensures
        p.numerator > 0x20_0000_0000_0000 ==> r is Err && after == tc && new_family == family,
        forced is None && 0 < p.numerator < 0x20_0000_0000_0000 && replays(
            tc,
            0,
            ValueView::Boolean(b),
        ) ==> r == Ok::<bool, EngineError>(b),
        forced is None && 0 < p.numerator < 0x20_0000_0000_0000 && is_simplest(tc) ==> r == Ok::<
            bool,
            EngineError,
        >(false),
        forced == Some(b) && 0 < p.numerator < 0x20_0000_0000_0000 ==> r == Ok::<
            bool,
            EngineError,
        >(b),
        forced is None && p.numerator == 0 ==> r == Ok::<bool, EngineError>(false),
        forced is None && p.numerator == 0x20_0000_0000_0000 ==> r == Ok::<bool, EngineError>(true),
        r matches Ok(v) ==> {
            &&& recorded_one(
                tc,
                after,
                NodeView {
                    kind: KindView::Boolean(BooleanChoice { p }),
                    value: ValueView::Boolean(v),
                    was_forced: forced is Some || p.numerator == 0 || p.numerator
                        == 0x20_0000_0000_0000,
                },
            )
            &&& new_family.total_draws == family.total_draws + 1
            &&& new_family.conclusion is None
        },
{
    if r is Ok {
        lemma_one_choice_more(tc, after);
    }
}

/// At random, a boolean is true for as large a share of the sixty-four bit numbers as
/// its probability says: it is true exactly where the number, as a share of two to the
/// sixty-fourth, is less than the probability.
pub proof fn lemma_booleans_come_out_with_their_probability<D: Distributions, O: DataObserver>(
    tc: NativeTestCase<D, O>,
    after: NativeTestCase<D, O>,
    family: FamilyCore,
    new_family: FamilyCore,
    p: Probability,
    written: &str,
    r: Result<bool, EngineError>,
)
    requires
        exists|m: &mut NativeTestCase<D, O>, f: &mut FamilyCore| #[trigger]
            call_ensures(generate_boolean::<D, O>, (m, f, p, written, None), r) && *m == tc && *final(m) == after && *f
                == family && *final(f) == new_family,
        has_room_for(tc, family, 1),
        is_random(tc),
        0 < p.numerator < 0x20_0000_0000_0000,
    ensures
        r is Ok,
        exists|bits: int|
            {
                &&& entropy(after) == #[trigger] entropy(tc).push(bits)
                &&& 0 <= bits < 0x1_0000_0000_0000_0000
                &&& r->Ok_0 <==> bits * 0x20_0000_0000_0000 < p.numerator
                    * 0x1_0000_0000_0000_0000
            },
{
    let before = tc.source->Some_0.rng.handed();
    let handed = after.source->Some_0.rng.handed();
    assert(flipped(p, true, before, handed, r->Ok_0));
    let bits = choose|bits: int|
        handed == #[trigger] before.push(bits) && 0 <= bits <= u64::MAX && r->Ok_0 == (bits
            < p.numerator * 2048);
    assert(entropy(after) == entropy(tc).push(bits));
}

/// What a number makes of a boolean only grows with the probability, and whatever the
/// probability, a smaller number makes it true rather than a larger one. The number
/// zero makes it true wherever that is possible, and the largest number makes it false.
pub proof fn lemma_bits_follow_the_probability(
    p: Probability,
    q: Probability,
    low: u64,
    high: u64,
    r: bool,
    s: bool,
)
    requires
        call_ensures(boolean_from_bits, (p, high), r),
        call_ensures(boolean_from_bits, (q, low), s),
        p.numerator <= q.numerator < 0x20_0000_0000_0000,
        low <= high,
    ensures
        r ==> s,
        low == 0 && q.numerator > 0 ==> s,
        high == u64::MAX ==> !r,
        r <==> (high as int) * 0x20_0000_0000_0000 < p.numerator * 0x1_0000_0000_0000_0000,
{
}

/// What a byte makes of a boolean only grows with the byte and with the probability.
/// The byte of zeros makes it false and the byte of ones true. Any other byte makes it
/// true where all of its share of the bytes is beyond the probability of `false`, and
/// false where all of it is below.
pub proof fn lemma_bytes_follow_the_probability(
    p: Probability,
    q: Probability,
    low: u8,
    high: u8,
    r: bool,
    s: bool,
)
    requires
        call_ensures(boolean_from_byte, (p, low), r),
        call_ensures(boolean_from_byte, (q, high), s),
        p.numerator <= q.numerator <= 0x20_0000_0000_0000,
        low <= high,
    ensures
        r ==> s,
        low == 0 ==> !r,
        high == 255 ==> s,
        0 < low < 255 && low * 0x20_0000_0000_0000 >= (0x20_0000_0000_0000 - p.numerator) * 256
            ==> r,
        0 < low < 255 && (low + 1) * 0x20_0000_0000_0000 <= (0x20_0000_0000_0000 - p.numerator)
            * 256 ==> !r,
{
}

/// An integer is what is replayed where that lies in the range, and in any case it lies
/// in the range. The simplest one is the one that is nearest to zero. What is replayed
/// in place of a value that lies outside is the simplest but one. An empty range is
/// refused, and nothing is drawn from it.
pub proof fn lemma_integers_are_as_chosen<D: Distributions, O: DataObserver>(
    tc: NativeTestCase<D, O>,
    after: NativeTestCase<D, O>,
    family: FamilyCore,
    new_family: FamilyCore,
    min: &BigInt,
    max: &BigInt,
    v: int,
    r: Result<BigInt, EngineError>,
)
    requires
        exists|m: &mut NativeTestCase<D, O>, f: &mut FamilyCore| #[trigger]
            call_ensures(generate_integer::<D, O>, (m, f, min, max), r) && *m == tc && *final(m) == after && *f
                == family && *final(f) == new_family,
        has_room_for(tc, family, 1),
    ensures
        min@ > max@ ==> r is Err && after == tc && new_family == family,
        min@ <= max@ && replays(tc, 0, ValueView::Integer(v)) && min@ <= v <= max@ ==> r is Ok
            && r->Ok_0@ == v,
        min@ <= max@ && replays(tc, 0, ValueView::Integer(v)) && !(min@ <= v <= max@)
            && tc.prefix_nodes is None ==> {
            &&& r is Ok
            &&& min@ <= 0 < max@ ==> r->Ok_0@ == 1
            &&& 0 < min@ < max@ ==> r->Ok_0@ == min@ + 1
            &&& min@ < max@ <= 0 ==> r->Ok_0@ == max@ - 1
            &&& min@ == max@ ==> r->Ok_0@ == min@
        },
        min@ <= max@ && is_simplest(tc) ==> {
            &&& r is Ok
            &&& min@ <= 0 <= max@ ==> r->Ok_0@ == 0
            &&& min@ > 0 ==> r->Ok_0@ == min@
            &&& max@ < 0 ==> r->Ok_0@ == max@
        },
        min@ <= max@ && is_random(tc) ==> r is Ok,
        r matches Ok(n) ==> {
            &&& min@ <= n@ <= max@
            &&& recorded_one(
                tc,
                after,
                NodeView {
                    kind: KindView::Integer(IntegerKind { min: min@, max: max@, towards: 0 }),
                    value: ValueView::Integer(n@),
                    was_forced: false,
                },
            )
            &&& new_family.total_draws == family.total_draws + 1
            &&& new_family.conclusion is None
        },
{
    if r is Ok {
        lemma_one_choice_more(tc, after);
    }
}

/// A byte string is what is replayed where its length is allowed, and in any case its
/// length is. The simplest one is the shortest, of zeros. A pair of lengths that is the
/// wrong way round is refused, and nothing is drawn.
pub proof fn lemma_byte_strings_are_as_chosen<D: Distributions, O: DataObserver>(
    tc: NativeTestCase<D, O>,
    after: NativeTestCase<D, O>,
    family: FamilyCore,
    new_family: FamilyCore,
    min_size: usize,
    max_size: usize,
    v: Seq<u8>,
    r: Result<Vec<u8>, EngineError>,
)
    requires
        exists|m: &mut NativeTestCase<D, O>, f: &mut FamilyCore| #[trigger]
            call_ensures(generate_bytes::<D, O>, (m, f, min_size, max_size), r) && *m == tc && *final(m) == after && *f
                == family && *final(f) == new_family,
        has_room_for(tc, family, 1),
    ensures
        min_size > max_size ==> r is Err && after == tc && new_family == family,
        min_size <= v.len() <= max_size && replays(tc, 0, ValueView::Bytes(v)) ==> r is Ok
            && r->Ok_0@ == v,
        min_size <= max_size && is_simplest(tc) ==> {
            &&& r is Ok
            &&& r->Ok_0@.len() == min_size
            &&& forall|i: int| 0 <= i < min_size ==> #[trigger] r->Ok_0@[i] == 0
        },
        min_size <= max_size && is_random(tc) ==> r is Ok,
        r matches Ok(b) ==> {
            &&& min_size <= b@.len() <= max_size
            &&& recorded_one(
                tc,
                after,
                NodeView {
                    kind: KindView::Bytes(BytesChoice { min_size, max_size }),
                    value: ValueView::Bytes(b@),
                    was_forced: false,
                },
            )
            &&& new_family.total_draws == family.total_draws + 1
        },
{
    if r is Ok {
        lemma_one_choice_more(tc, after);
    }
}

/// A floating-point value is what is replayed where it may be drawn, and the simplest
/// one of its kind where nothing else is said.
pub proof fn lemma_floats_are_as_chosen<D: Distributions, O: DataObserver>(
    tc: NativeTestCase<D, O>,
    after: NativeTestCase<D, O>,
    family: FamilyCore,
    new_family: FamilyCore,
    width: FloatWidth,
    kind: FloatChoice,
    v: FloatValue,
    r: Result<FloatValue, EngineError>,
)
    requires
        exists|m: &mut NativeTestCase<D, O>, f: &mut FamilyCore| #[trigger]
            call_ensures(draw_float_of_kind::<D, O>, (m, f, width, kind), r) && *m == tc && *final(m) == after && *f
                == family && *final(f) == new_family,
        has_room_for(tc, family, 1),
    ensures
        replays(tc, 0, ValueView::Float(v)) && float_fits(kind, v) ==> r == Ok::<
            FloatValue,
            EngineError,
        >(v),
        is_simplest(tc) ==> r == Ok::<FloatValue, EngineError>(kind.simplest),
        is_random(tc) ==> r is Ok && float_fits(kind, r->Ok_0),
        r matches Ok(f) ==> {
            &&& recorded_one(
                tc,
                after,
                NodeView {
                    kind: KindView::Float(kind),
                    value: ValueView::Float(f),
                    was_forced: false,
                },
            )
            &&& new_family.total_draws == family.total_draws + 1
        },
{
    if r is Ok {
        lemma_one_choice_more(tc, after);
    }
}

/// A number of workers lies in its range. It is the largest one where the choice is
/// simplest, and as many fewer as is replayed. Nothing is drawn where only one number
/// is possible.
pub proof fn lemma_workers_are_as_chosen<D: Distributions, O: DataObserver>(
    tc: NativeTestCase<D, O>,
    after: NativeTestCase<D, O>,
    family: FamilyCore,
    new_family: FamilyCore,
    min: i64,
    max: i64,
    v: int,
    r: Result<i64, EngineError>,
)
    requires
        exists|m: &mut NativeTestCase<D, O>, f: &mut FamilyCore| #[trigger]
            call_ensures(draw_concurrency::<D, O>, (m, f, min, max), r) && *m == tc && *final(m) == after && *f
                == family && *final(f) == new_family,
        has_room_for(tc, family, 1),
        min <= max,
    ensures
        min == max ==> r == Ok::<i64, EngineError>(max) && after == tc && new_family == family,
        r matches Ok(n) ==> min <= n <= max,
        min < max && replays(tc, 0, ValueView::Integer(v)) && 0 <= v <= max - min ==> r is Ok
            && r->Ok_0 == max - v,
        min < max && is_simplest(tc) ==> r == Ok::<i64, EngineError>(max),
        min < max && r is Ok ==> recorded_one(
            tc,
            after,
            NodeView {
                kind: KindView::Integer(IntegerKind { min: 0, max: max - min, towards: 0 }),
                value: ValueView::Integer(max - r->Ok_0),
                was_forced: false,
            },
        ),
{
    if r is Ok && min < max {
        lemma_one_choice_more(tc, after);
    }
}

/// A fresh identifier is one that was not in use before, and is in use from then on,
/// beside those that were. It is what is replayed where that is not in use and at most
/// two more than the largest one that is, and else the smallest one that is not in use.
pub proof fn lemma_fresh_identifiers_are_fresh<D: Distributions, O: DataObserver>(
    tc: NativeTestCase<D, O>,
    after: NativeTestCase<D, O>,
    family: FamilyCore,
    new_family: FamilyCore,
    v: i64,
    used: i64,
    unused: i64,
    r: Result<i64, EngineError>,
)
    requires
        exists|m: &mut NativeTestCase<D, O>, f: &mut FamilyCore| #[trigger]
            call_ensures(fresh_id::<D, O>, (m, f), r) && *m == tc && *final(m) == after && *f
                == family && *final(f) == new_family,
        has_room_for(tc, family, 1),
        0 <= unused,
        !family.fresh_ids@.contains(unused),
    ensures
        replays(tc, 0, ValueView::Integer(v as int)) && 0 <= v && !family.fresh_ids@.contains(v)
            && family.fresh_ids@.contains(used) && v <= used + 2 ==> r == Ok::<i64, EngineError>(v),
        is_simplest(tc) || is_random(tc) ==> r is Ok && forall|k: i64|
            0 <= k < r->Ok_0 ==> #[trigger] family.fresh_ids@.contains(k),
        r matches Ok(id) ==> {
            &&& 0 <= id
            &&& !family.fresh_ids@.contains(id)
            &&& new_family.fresh_ids@ == family.fresh_ids@.insert(id)
        },
        r is Err ==> new_family.fresh_ids@ == family.fresh_ids@,
{
    lemma_some_used_is_largest(family.fresh_ids@, i64::MAX);
    lemma_some_unused_is_smallest(family.fresh_ids@, unused);
}

/// A member is one of those that it is chosen from. It is what is replayed where that is
/// a member, and the smallest one where the choice is simplest. No identifier comes into
/// use by it.
pub proof fn lemma_members_are_as_chosen<D: Distributions, O: DataObserver>(
    tc: NativeTestCase<D, O>,
    after: NativeTestCase<D, O>,
    family: FamilyCore,
    new_family: FamilyCore,
    members: &[i64],
    v: i64,
    r: Result<i64, EngineError>,
)
    requires
        exists|m: &mut NativeTestCase<D, O>, f: &mut FamilyCore| #[trigger]
            call_ensures(choose_from::<D, O>, (m, f, members), r) && *m == tc && *final(m) == after && *f
                == family && *final(f) == new_family,
        has_room_for(tc, family, 1),
        members@.len() > 0,
        forall|i: int| 0 <= i < members@.len() ==> family.fresh_ids@.contains(
            #[trigger] members@[i],
        ) && 0 <= members@[i],
        forall|k: i64| #[trigger] family.fresh_ids@.contains(k) ==> 0 <= k,
    ensures
        r matches Ok(id) ==> members@.contains(id),
        replays(tc, 0, ValueView::Integer(v as int)) && members@.contains(v) ==> r == Ok::<
            i64,
            EngineError,
        >(v),
        is_simplest(tc) ==> r is Ok && forall|i: int|
            0 <= i < members@.len() ==> r->Ok_0 <= #[trigger] members@[i],
        new_family.fresh_ids@ == family.fresh_ids@,
        r is Ok ==> new_family.total_draws == family.total_draws + 1,
{
    let used = family.fresh_ids@;
    lemma_some_used_is_largest(used, i64::MAX);
    assert(members@.to_set().contains(members@[0]));
    assert forall|id: i64| members_of(members@).contains(id) implies 0 <= id
        && id <= max_used_of(used) by {
        let i = choose|i: int| 0 <= i < members@.len() && members@[i] == id;
        assert(used.contains(members@[i]));
    }
    assert forall|i: int| 0 <= i < members@.len() implies members_of(members@).contains(
        #[trigger] members@[i],
    ) by {
    }
    if members@.contains(v) {
        assert(members_of(members@).contains(v));
    }
}

} // verus!
