//! Observations that test bodies make.
use crate::abi::cases::case_fault;
use crate::abi::cases::tc_guard;
use crate::abi::cases::FamilyShared;
use crate::abi::cases::HegelTestCase;
use crate::abi::ended;
use crate::abi::fault;
use crate::abi::hegel_result_t;
use crate::abi::required_utf8_arg;
use crate::abi::strings::first_fault;
use crate::abi::text_arg_fault;
use crate::abi::FaultView;
use crate::abi::HegelContext;
use crate::abi::TextArg;
use crate::abi::TextArgView;
use crate::choices::float_magnitude;
use crate::choices::FLOAT_INFINITY_BITS;
use crate::family::FamilyCore;
use vstd::prelude::*;

verus! {

/// The labels of observations.
pub open spec fn target_labels(v: Seq<(String, u64)>) -> Seq<Seq<char>> {
    v.map_values(|o: (String, u64)| o.0@)
}

/// What is wrong with a number.
pub open spec fn number_fault(func: Seq<char>, value_bits: u64) -> Option<FaultView> {
    if float_magnitude(value_bits) >= FLOAT_INFINITY_BITS {
        fault(hegel_result_t::HEGEL_E_INVALID_ARG, func + ": value must be finite"@)
    } else {
        None
    }
}

/// What is wrong with an observation to be maximised.
pub open spec fn target_fault(
    tc: Option<&HegelTestCase>,
    family: FamilyShared,
    value_bits: u64,
    label: TextArgView,
) -> Option<FaultView> {
    let func = "hegel_target"@;
    first_fault(
        case_fault(func, tc, family.completed),
        first_fault(
            text_arg_fault(func, "label"@, label),
            first_fault(
                number_fault(func, value_bits),
                if target_labels(family.core.target_observations@).contains(label->Text_0) {
                    fault(
                        hegel_result_t::HEGEL_E_INVALID_ARG,
                        func + ": label was recorded before in this test case"@,
                    )
                } else {
                    None
                },
            ),
        ),
    )
}

/// Whether a label is among those of observations.
fn is_recorded(v: &Vec<(String, u64)>, label: &String) -> (r: bool)
    ensures
        r == target_labels(v@).contains(label@),
{
    let n: usize = v.len();
    let mut i: usize = 0;
    while i < n
        invariant
            i <= n == v@.len(),
            forall|j: int| 0 <= j < i ==> (#[trigger] v@[j]).0@ != label@,
        decreases n - i,
    {
        if v[i].0 == *label {
            assert(target_labels(v@)[i as int] == label@);
            return true;
        }
        i = i + 1;
    }
    assert(!target_labels(v@).contains(label@)) by {
        if target_labels(v@).contains(label@) {
            let j = choose|j: int|
                0 <= j < target_labels(v@).len() && target_labels(v@)[j] == label@;
            assert(v@[j].0@ == label@);
        }
    }
    false
}

/// Records an observation to be maximised, once for each label of a test case.
/// The value is given by its bits in the binary64 format.
pub fn hegel_target(
    ctx: &mut HegelContext,
    tc: Option<&HegelTestCase>,
    family: &mut FamilyShared,
    value_bits: u64,
    label: &TextArg,
) -> (r: hegel_result_t)
    ensures
        ended(*final(ctx), r, target_fault(tc, *old(family), value_bits, label@)),
        if r == hegel_result_t::HEGEL_OK {
            let observations = final(family).core.target_observations;
            &&& *final(family) == (FamilyShared {
                core: FamilyCore { target_observations: observations, ..old(family).core },
                ..*old(family)
            })
            &&& observations@ == old(family).core.target_observations@.push(observations@.last())
            &&& label@ == TextArgView::Text(observations@.last().0@)
            &&& observations@.last().1 == value_bits
        } else {
            *final(family) == *old(family)
        },
{
    if let Err(code) = tc_guard(ctx, "hegel_target", tc, family.completed) {
        return code;
    }
    let label = match required_utf8_arg(ctx, "hegel_target", "label", label) {
        Ok(label) => label,
        Err(code) => {
            return code;
        },
    };
    if value_bits % 0x8000_0000_0000_0000 >= FLOAT_INFINITY_BITS {
        return ctx.fail(
            hegel_result_t::HEGEL_E_INVALID_ARG,
            "hegel_target",
            ": value must be finite",
        );
    }
    if is_recorded(&family.core.target_observations, &label) {
        return ctx.fail(
            hegel_result_t::HEGEL_E_INVALID_ARG,
            "hegel_target",
            ": label was recorded before in this test case",
        );
    }
    family.core.target_observations.push((label, value_bits));
    hegel_result_t::HEGEL_OK
}

/// What is wrong with an event.
pub open spec fn event_fault(
    func: Seq<char>,
    tc: Option<&HegelTestCase>,
    completed: bool,
    value_bits: Option<u64>,
    label: TextArgView,
) -> Option<FaultView> {
    first_fault(
        case_fault(func, tc, completed),
        first_fault(
            text_arg_fault(func, "label"@, label),
            match value_bits {
                Some(bits) => number_fault(func, bits),
                None => None,
            },
        ),
    )
}

/// Whether an event was recorded after those that were there.
pub open spec fn event_recorded(
    new: FamilyShared,
    old: FamilyShared,
    value_bits: Option<u64>,
    label: TextArgView,
) -> bool {
    let events = new.core.events;
    &&& new == (FamilyShared { core: FamilyCore { events, ..old.core }, ..old })
    &&& events@ == old.core.events@.push(events@.last())
    &&& label == TextArgView::Text(events@.last().0@)
    &&& events@.last().1 == value_bits
}

/// Records an event, with a number or without.
fn event_observation(
    ctx: &mut HegelContext,
    tc: Option<&HegelTestCase>,
    family: &mut FamilyShared,
    func: &str,
    label: &TextArg,
    value_bits: Option<u64>,
) -> (r: hegel_result_t)
    ensures
        ended(
            *final(ctx),
            r,
            event_fault(func@, tc, old(family).completed, value_bits, label@),
        ),
        if r == hegel_result_t::HEGEL_OK {
            event_recorded(*final(family), *old(family), value_bits, label@)
        } else {
            *final(family) == *old(family)
        },
{
    if let Err(code) = tc_guard(ctx, func, tc, family.completed) {
        return code;
    }
    let label = match required_utf8_arg(ctx, func, "label", label) {
        Ok(label) => label,
        Err(code) => {
            return code;
        },
    };
    if let Some(bits) = value_bits {
        if bits % 0x8000_0000_0000_0000 >= FLOAT_INFINITY_BITS {
            return ctx.fail(
                hegel_result_t::HEGEL_E_INVALID_ARG,
                func,
                ": value must be finite",
            );
        }
    }
    family.core.events.push((label, value_bits));
    hegel_result_t::HEGEL_OK
}

/// Records an event.
pub fn hegel_event(
    ctx: &mut HegelContext,
    tc: Option<&HegelTestCase>,
    family: &mut FamilyShared,
    label: &TextArg,
) -> (r: hegel_result_t)
    ensures
        ended(
            *final(ctx),
            r,
            event_fault("hegel_event"@, tc, old(family).completed, None, label@),
        ),
        if r == hegel_result_t::HEGEL_OK {
            event_recorded(*final(family), *old(family), None, label@)
        } else {
            *final(family) == *old(family)
        },
{
    event_observation(ctx, tc, family, "hegel_event", label, None)
}

/// Records an event with a number, which is given by its bits in the binary64
/// format.
pub fn hegel_event_value(
    ctx: &mut HegelContext,
    tc: Option<&HegelTestCase>,
    family: &mut FamilyShared,
    value_bits: u64,
    label: &TextArg,
) -> (r: hegel_result_t)
    ensures
        ended(
            *final(ctx),
            r,
            event_fault(
                "hegel_event_value"@,
                tc,
                old(family).completed,
                Some(value_bits),
                label@,
            ),
        ),
        if r == hegel_result_t::HEGEL_OK {
            event_recorded(*final(family), *old(family), Some(value_bits), label@)
        } else {
            *final(family) == *old(family)
        },
{
    event_observation(ctx, tc, family, "hegel_event_value", label, Some(value_bits))
}

/// Labels of observations stay different: one that was recorded is refused
/// from then on.
pub proof fn lemma_targets_are_recorded_once(
    tc: Option<&HegelTestCase>,
    family: FamilyShared,
    value_bits: u64,
    label: Seq<char>,
)
    requires
        target_labels(family.core.target_observations@).contains(label),
    ensures
        target_fault(tc, family, value_bits, TextArgView::Text(label)) is Some,
{
}

} // verus!
