//! What holds of every draw: a value that was drawn fits what was asked for,
//! and a replay gives back what was recorded.
use crate::choices::codepoint_at;
use crate::choices::simplest_of;
use crate::choices::unit_of;
use crate::choices::value_fits;
use crate::choices::KindView;
use crate::choices::NodeView;
use crate::choices::ValueView;
use crate::choices::PROBABILITY_ONE;
use crate::errors::EngineError;
use crate::family::FamilyCore;
use crate::intervalsets::lemma_shrink_order_is_total;
use crate::intervalsets::ranges_contain;
use crate::intervalsets::ranges_ok;
use crate::intervalsets::ranges_size;
use crate::intervalsets::shrink_position;
use crate::sampling::float_kind_ok;
use crate::sampling::Distributions;
use crate::test_case::ChoiceSource;
use crate::test_case::DataObserver;
use crate::test_case::NativeTestCase;
use crate::test_case::Turn;
use vstd::prelude::*;

verus! {

/// Whether a kind has values.
pub open spec fn kind_ok(k: KindView) -> bool {
    match k {
        KindView::Boolean(k) => k.p.numerator <= PROBABILITY_ONE,
        KindView::Integer(k) => k.min <= k.max,
        KindView::Float(k) => float_kind_ok(k),
        KindView::Bytes(k) => k.min_size <= k.max_size,
        KindView::String(k) => k.min_size <= k.max_size && ranges_ok(k.alphabet),
        KindView::Clone => true,
    }
}

/// The codepoint at a place of the shrink order belongs to the alphabet.
proof fn lemma_codepoint_belongs(s: Seq<(u32, u32)>, i: int)
    requires
        ranges_ok(s),
        0 <= i < ranges_size(s),
    ensures
        ranges_contain(s, codepoint_at(s, i) as int),
{
    let cp = lemma_shrink_order_is_total(s, i);
    assert(ranges_contain(s, cp as int) && shrink_position(s, cp as int) == i);
}

/// The values that a kind falls back on are values of the kind.
pub proof fn lemma_fallbacks_fit(k: KindView)
    requires
        kind_ok(k),
    ensures
        simplest_of(k) matches Some(v) ==> value_fits(k, v),
        unit_of(k) matches Some(v) ==> value_fits(k, v),
{
    if let KindView::String(s) = k {
        if ranges_size(s.alphabet) > 0 {
            lemma_codepoint_belongs(s.alphabet, 0);
            if ranges_size(s.alphabet) > 1 {
                lemma_codepoint_belongs(s.alphabet, 1);
            }
        }
    }
}

/// Whatever a draw gives, it fits what was asked for.
pub proof fn lemma_draws_fit<D: Distributions, O: DataObserver>(
    new: NativeTestCase<D, O>,
    old: NativeTestCase<D, O>,
    family: FamilyCore,
    kind: KindView,
    v: ValueView,
)
    requires
        kind_ok(kind),
        new.drew(old, family, kind, Ok(v)),
    ensures
        value_fits(kind, v),
        new.choices() == old.choices().push(NodeView { kind, value: v, was_forced: false }),
{
    lemma_fallbacks_fit(kind);
}

/// A replay gives back what was recorded: where the next value to replay is
/// the one of a recorded choice, a request of the same kind gives that value,
/// and records the same choice again.
pub proof fn lemma_replay_gives_back<D: Distributions, O: DataObserver>(
    new: NativeTestCase<D, O>,
    old: NativeTestCase<D, O>,
    family: FamilyCore,
    node: NodeView,
    r: Result<ValueView, EngineError>,
)
    requires
        value_fits(node.kind, node.value),
        old.turn(family) == Turn::Answered(ChoiceSource::Prefix),
        old.next_value() == node.value,
        new.drew(old, family, node.kind, r),
    ensures
        r == Ok::<ValueView, EngineError>(node.value),
        new.choices() == old.choices().push(NodeView { was_forced: false, ..node }),
{
}

/// Two runs of the same choices stay the same: where two test cases have made
/// the same choices, and the next value of one was recorded by the other,
/// their choices are the same after one more draw of the same kind.
pub proof fn lemma_replay_follows<D: Distributions, O: DataObserver>(
    first: NativeTestCase<D, O>,
    first_old: NativeTestCase<D, O>,
    first_family: FamilyCore,
    second: NativeTestCase<D, O>,
    second_old: NativeTestCase<D, O>,
    second_family: FamilyCore,
    kind: KindView,
    v: ValueView,
    r: Result<ValueView, EngineError>,
)
    requires
        kind_ok(kind),
        first_old.choices() == second_old.choices(),
        first.drew(first_old, first_family, kind, Ok(v)),
        second_old.turn(second_family) == Turn::Answered(ChoiceSource::Prefix),
        second_old.next_value() == v,
        second.drew(second_old, second_family, kind, r),
    ensures
        r == Ok::<ValueView, EngineError>(v),
        second.choices() == first.choices(),
{
    lemma_draws_fit(first, first_old, first_family, kind, v);
    lemma_replay_gives_back(
        second,
        second_old,
        second_family,
        NodeView { kind, value: v, was_forced: false },
        r,
    );
}

} // verus!
