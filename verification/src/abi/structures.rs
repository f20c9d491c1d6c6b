//! Collections, recursive values, pools and state machines.
use crate::abi::cases::case_fault;
use crate::abi::cases::draw_fault;
use crate::abi::cases::draw_guard;
use crate::abi::cases::drawn_from;
use crate::abi::cases::engine_fault;
use crate::abi::cases::size_arg;
use crate::abi::cases::tc_guard;
use crate::abi::cases::tell;
use crate::abi::cases::told;
use crate::abi::cases::translate_ds_error;
use crate::abi::cases::untouched;
use crate::abi::cases::FamilyShared;
use crate::abi::cases::HegelTestCase;
use crate::abi::ended;
use crate::abi::fault;
use crate::abi::gave;
use crate::abi::hegel_result_t;
use crate::abi::shown;
use crate::abi::strings::first_fault;
use crate::abi::strings::names_are;
use crate::abi::strings::names_from_c_array;
use crate::abi::strings::texts_fault;
use crate::abi::strings::TextsArg;
use crate::abi::values::size_of;
use crate::abi::FaultView;
use crate::abi::HegelContext;
use crate::abi::TextArg;
use crate::abi::TextArgView;
use crate::bignum::BigInt;
use crate::bignum::BigUint;
use crate::choices::FLOAT_INFINITY_BITS;
use crate::collections::element_rejected;
use crate::collections::many_more;
use crate::collections::many_reject;
use crate::collections::more_decided;
use crate::collections::continue_numerator;
use crate::collections::ManyState;
use crate::decimal::append_integer;
use crate::decimal::append_natural;
use crate::decimal::decimal;
use crate::decimal::signed_decimal;
use crate::draws::choose_from;
use crate::draws::fresh_id;
use crate::draws::fresh_id_drawn;
use crate::draws::member_chosen;
use crate::errors::bug_notice;
use crate::errors::EngineError;
use crate::family::FamilyCore;
use crate::recursion::attempt_given_up;
use crate::recursion::attempt_judged;
use crate::recursion::branch_decided;
use crate::recursion::new_recursion_state;
use crate::recursion::recursion_begun;
use crate::recursion::recursion_branch;
use crate::recursion::recursion_finish;
use crate::recursion::recursion_retry;
use crate::recursion::RecursionProfile;
use crate::recursion::RecursionState;
use crate::recursion::RecursionView;
use crate::sampling::Distributions;
use crate::test_case::DataObserver;
use crate::test_case::NativeTestCase;
use crate::variables::active_ids;
use crate::variables::trimmed;
use crate::variables::NativeVariables;
use vstd::prelude::*;
use vstd::string::StringExecFns;

verus! {

/// A collection that is being drawn, as a handle.
#[derive(Clone, Copy, Debug, PartialEq, Eq, Structural)]
pub struct HegelCollection {
    /// The state of the collection.
    pub state: ManyState,
    /// Whether another thread is using the handle.
    pub busy: bool,
}

/// The largest size of a collection. The largest number stands for none.
pub open spec fn max_of(max_size: u64) -> Option<usize> {
    if max_size == u64::MAX {
        None
    } else {
        Some(size_of(max_size))
    }
}

/// What is said of inverted sizes of a collection.
pub open spec fn inverted_sizes(min_size: u64, max_size: u64) -> Seq<char> {
    " requires min_size <= max_size, got ["@ + decimal(min_size as nat) + ", "@ + decimal(
        max_size as nat,
    ) + "]"@
}

/// What is wrong with a call that makes a collection.
pub open spec fn collection_sizes_fault(min_size: u64, max_size: u64) -> Option<FaultView> {
    if max_size != u64::MAX && min_size > max_size {
        fault(
            hegel_result_t::HEGEL_E_INVALID_ARG,
            "hegel_new_collection"@ + inverted_sizes(min_size, max_size),
        )
    } else {
        None
    }
}

/// A collection without elements.
pub fn hegel_new_collection(
    ctx: &mut HegelContext,
    tc: Option<&HegelTestCase>,
    family: &FamilyShared,
    min_size: u64,
    max_size: u64,
    out_is_null: bool,
) -> (r: Result<HegelCollection, hegel_result_t>)
    ensures
        match first_fault(
            draw_fault("hegel_new_collection"@, tc, family.completed, out_is_null),
            collection_sizes_fault(min_size, max_size),
        ) {
            Some(f) => r matches Err(code) && code == f.code && final(ctx)@ == shown(f.message),
            None => {
                &&& final(ctx)@ == Seq::<char>::empty()
                &&& r matches Ok(c) && !c.busy && c.state.min_size == size_of(min_size)
                    && c.state.max_size == max_of(max_size) && c.state.p_continue.numerator
                    == continue_numerator(size_of(min_size), max_of(max_size)) && c.state.count == 0
                    && c.state.rejections == 0 && !c.state.force_stop
            },
        },
{
    if let Err(code) = draw_guard(ctx, "hegel_new_collection", tc, family.completed, out_is_null) {
        return Err(code);
    }
    if max_size != u64::MAX && min_size > max_size {
        let mut what = String::from_str(" requires min_size <= max_size, got [");
        append_natural(&mut what, &BigUint::from_u128(min_size as u128));
        what.append(", ");
        append_natural(&mut what, &BigUint::from_u128(max_size as u128));
        what.append("]");
        return Err(
            ctx.fail(hegel_result_t::HEGEL_E_INVALID_ARG, "hegel_new_collection", what.as_str()),
        );
    }
    let max: Option<usize> = if max_size == u64::MAX {
        None
    } else {
        Some(size_arg(max_size))
    };
    Ok(HegelCollection { state: ManyState::new(size_arg(min_size), max), busy: false })
}

/// What is wrong with a handle that is null or in use.
pub open spec fn shared_fault(func: Seq<char>, what: Seq<char>, missing: bool, busy: bool) -> Option<
    FaultView,
> {
    if missing {
        fault(hegel_result_t::HEGEL_E_INVALID_HANDLE, func + (": "@ + what + " handle is null"@))
    } else if busy {
        fault(
            hegel_result_t::HEGEL_E_CONCURRENT_USE,
            func + (": "@ + what + " handle is in use on another thread"@),
        )
    } else {
        None
    }
}

/// Refuses a handle that is null.
fn refuse_missing(ctx: &mut HegelContext, func: &str, what: &str) -> (r: hegel_result_t)
    ensures
        ended(*final(ctx), r, shared_fault(func@, what@, true, false)),
{
    let mut message = String::from_str(": ");
    message.append(what);
    message.append(" handle is null");
    ctx.fail(hegel_result_t::HEGEL_E_INVALID_HANDLE, func, message.as_str())
}

/// Lets a call through that uses a collection.
pub fn collection_lock(ctx: &mut HegelContext, func: &str, busy: bool) -> (r: Result<
    (),
    hegel_result_t,
>)
    requires
        old(ctx)@ == Seq::<char>::empty(),
    ensures
        gave(*final(ctx), r, shared_fault(func@, "collection"@, false, busy), ()),
{
    if busy {
        let mut message = String::from_str(": ");
        message.append("collection");
        message.append(" handle is in use on another thread");
        Err(ctx.fail(hegel_result_t::HEGEL_E_CONCURRENT_USE, func, message.as_str()))
    } else {
        Ok(())
    }
}

/// What is wrong with asking for another element.
pub open spec fn more_fault(
    tc: Option<&HegelTestCase>,
    completed: bool,
    missing: bool,
    busy: bool,
    out_is_null: bool,
) -> Option<FaultView> {
    let func = "hegel_collection_more"@;
    first_fault(
        case_fault(func, tc, completed),
        first_fault(
            shared_fault(func, "collection"@, missing, false),
            if out_is_null {
                fault(hegel_result_t::HEGEL_E_INVALID_ARG, func + ": out parameter is null"@)
            } else {
                shared_fault(func, "collection"@, false, busy)
            },
        ),
    )
}

/// Asks whether a collection has another element.
pub fn hegel_collection_more<D: Distributions, O: DataObserver>(
    ctx: &mut HegelContext,
    tc: Option<&HegelTestCase>,
    family: &mut FamilyShared,
    stream: &mut NativeTestCase<D, O>,
    collection: Option<&mut HegelCollection>,
    out_is_null: bool,
) -> (r: Result<bool, hegel_result_t>)
    ensures
        match more_fault(
            tc,
            old(family).completed,
            collection is None,
            match collection {
                Some(c) => c.busy,
                None => false,
            },
            out_is_null,
        ) {
            Some(f) => {
                &&& r matches Err(code) && code == f.code
                &&& final(ctx)@ == shown(f.message)
                &&& untouched(*final(family), *old(family), *final(stream), *old(stream))
                &&& match collection {
                    Some(c) => *final(c) == *c,
                    None => true,
                }
            },
            None => match collection {
                Some(c) => {
                    &&& drawn_from(*final(family), *old(family))
                    &&& final(c).busy == c.busy
                    &&& exists|drawn: Result<bool, EngineError>|
                        {
                            &&& #[trigger] more_decided(
                                *final(stream),
                                *old(stream),
                                old(family).core,
                                final(family).core,
                                final(c).state,
                                c.state,
                                drawn,
                            )
                            &&& told(*final(ctx), r, drawn)
                        }
                },
                None => true,
            },
        },
{
    if let Err(code) = tc_guard(ctx, "hegel_collection_more", tc, family.completed) {
        return Err(code);
    }
    let c = match collection {
        Some(c) => c,
        None => {
            return Err(refuse_missing(ctx, "hegel_collection_more", "collection"));
        },
    };
    if out_is_null {
        return Err(
            ctx.fail(
                hegel_result_t::HEGEL_E_INVALID_ARG,
                "hegel_collection_more",
                ": out parameter is null",
            ),
        );
    }
    if let Err(code) = collection_lock(ctx, "hegel_collection_more", c.busy) {
        return Err(code);
    }
    let drawn = many_more(stream, &mut family.core, &mut c.state);
    tell(ctx, drawn)
}

/// What is wrong with taking back an element.
pub open spec fn reject_fault(
    tc: Option<&HegelTestCase>,
    completed: bool,
    missing: bool,
    busy: bool,
    why: TextArgView,
) -> Option<FaultView> {
    let func = "hegel_collection_reject"@;
    first_fault(
        case_fault(func, tc, completed),
        first_fault(
            shared_fault(func, "collection"@, missing, false),
            if why is NotUtf8 {
                fault(hegel_result_t::HEGEL_E_INVALID_ARG, func + ": why is not valid UTF-8"@)
            } else {
                shared_fault(func, "collection"@, false, busy)
            },
        ),
    )
}

/// Takes back the last element of a collection. The reason is not used.
pub fn hegel_collection_reject<D: Distributions, O: DataObserver>(
    ctx: &mut HegelContext,
    tc: Option<&HegelTestCase>,
    family: &mut FamilyShared,
    stream: &mut NativeTestCase<D, O>,
    collection: Option<&mut HegelCollection>,
    why: &TextArg,
) -> (r: Result<(), hegel_result_t>)
    ensures
        match reject_fault(
            tc,
            old(family).completed,
            collection is None,
            match collection {
                Some(c) => c.busy,
                None => false,
            },
            why@,
        ) {
            Some(f) => {
                &&& r matches Err(code) && code == f.code
                &&& final(ctx)@ == shown(f.message)
                &&& untouched(*final(family), *old(family), *final(stream), *old(stream))
                &&& match collection {
                    Some(c) => *final(c) == *c,
                    None => true,
                }
            },
            None => match collection {
                Some(c) => {
                    &&& drawn_from(*final(family), *old(family))
                    &&& final(c).busy == c.busy
                    &&& exists|drawn: Result<(), EngineError>|
                        {
                            &&& #[trigger] element_rejected(
                                *final(stream),
                                *old(stream),
                                old(family).core,
                                final(family).core,
                                final(c).state,
                                c.state,
                                drawn,
                            )
                            &&& told(*final(ctx), r, drawn)
                        }
                },
                None => true,
            },
        },
{
    if let Err(code) = tc_guard(ctx, "hegel_collection_reject", tc, family.completed) {
        return Err(code);
    }
    let c = match collection {
        Some(c) => c,
        None => {
            return Err(refuse_missing(ctx, "hegel_collection_reject", "collection"));
        },
    };
    if let TextArg::NotUtf8 = why {
        return Err(
            ctx.fail(
                hegel_result_t::HEGEL_E_INVALID_ARG,
                "hegel_collection_reject",
                ": why is not valid UTF-8",
            ),
        );
    }
    if let Err(code) = collection_lock(ctx, "hegel_collection_reject", c.busy) {
        return Err(code);
    }
    let drawn = many_reject(stream, &mut family.core, &mut c.state);
    tell(ctx, drawn)
}

/// A recursive value that is being drawn, as a handle.
pub struct HegelRecursion {
    /// The state of the value.
    pub state: RecursionState,
}

/// Begins a recursive value.
pub fn hegel_new_recursion<D: Distributions, O: DataObserver>(
    ctx: &mut HegelContext,
    tc: Option<&HegelTestCase>,
    family: &mut FamilyShared,
    stream: &mut NativeTestCase<D, O>,
    max_depth: u64,
    max_leaves: u64,
    out_is_null: bool,
) -> (r: Result<HegelRecursion, hegel_result_t>)
    ensures
        match draw_fault("hegel_new_recursion"@, tc, old(family).completed, out_is_null) {
            Some(f) => {
                &&& r matches Err(code) && code == f.code
                &&& final(ctx)@ == shown(f.message)
                &&& untouched(*final(family), *old(family), *final(stream), *old(stream))
            },
            None => {
                &&& drawn_from(*final(family), *old(family))
                &&& exists|drawn: Result<RecursionState, EngineError>|
                    {
                        &&& #[trigger] recursion_begun(
                            *final(stream),
                            *old(stream),
                            old(family).core,
                            final(family).core,
                            max_depth,
                            max_leaves,
                            drawn,
                        )
                        &&& match (drawn, r) {
                            (Ok(d), Ok(v)) => v.state == d && final(ctx)@ == Seq::<char>::empty(),
                            (Err(e), Err(code)) => code == engine_fault(e).code && final(ctx)@
                                == shown(engine_fault(e).message),
                            _ => false,
                        }
                    }
            },
        },
        r matches Ok(v) ==> v.state.wf(),
{
    if let Err(code) = draw_guard(ctx, "hegel_new_recursion", tc, family.completed, out_is_null) {
        return Err(code);
    }
    let drawn = new_recursion_state(stream, &mut family.core, max_depth, max_leaves);
    assert(recursion_begun(
        *stream,
        *old(stream),
        old(family).core,
        family.core,
        max_depth,
        max_leaves,
        drawn,
    ));
    match drawn {
        Ok(state) => Ok(HegelRecursion { state }),
        Err(e) => Err(translate_ds_error(ctx, e)),
    }
}

/// What is wrong with a call that uses a shared handle.
pub open spec fn handle_draw_fault(
    func: Seq<char>,
    what: Seq<char>,
    tc: Option<&HegelTestCase>,
    completed: bool,
    missing: bool,
    out_is_null: bool,
) -> Option<FaultView> {
    first_fault(
        case_fault(func, tc, completed),
        first_fault(
            shared_fault(func, what, missing, false),
            if out_is_null {
                fault(hegel_result_t::HEGEL_E_INVALID_ARG, func + ": out parameter is null"@)
            } else {
                None
            },
        ),
    )
}

/// Lets a call through that uses a shared handle.
pub fn handle_draw_guard(
    ctx: &mut HegelContext,
    func: &str,
    what: &str,
    tc: Option<&HegelTestCase>,
    completed: bool,
    missing: bool,
    out_is_null: bool,
) -> (r: Result<(), hegel_result_t>)
    ensures
        gave(
            *final(ctx),
            r,
            handle_draw_fault(func@, what@, tc, completed, missing, out_is_null),
            (),
        ),
{
    if let Err(code) = tc_guard(ctx, func, tc, completed) {
        return Err(code);
    }
    if missing {
        return Err(refuse_missing(ctx, func, what));
    }
    if out_is_null {
        return Err(ctx.fail(hegel_result_t::HEGEL_E_INVALID_ARG, func, ": out parameter is null"));
    }
    Ok(())
}

/// Draws whether a sub-value is a branch. `profile` is the growth profile for
/// the question that the recursion has at this depth.
pub fn hegel_recursion_branch<D: Distributions, O: DataObserver>(
    ctx: &mut HegelContext,
    tc: Option<&HegelTestCase>,
    family: &mut FamilyShared,
    stream: &mut NativeTestCase<D, O>,
    recursion: Option<&mut HegelRecursion>,
    depth: u64,
    profile: RecursionProfile,
    out_is_null: bool,
) -> (r: Result<bool, hegel_result_t>)
    requires
        match recursion {
            Some(v) => v.state.wf(),
            None => true,
        },
    ensures
        match handle_draw_fault(
            "hegel_recursion_branch"@,
            "recursion"@,
            tc,
            old(family).completed,
            recursion is None,
            out_is_null,
        ) {
            Some(f) => {
                &&& r matches Err(code) && code == f.code
                &&& final(ctx)@ == shown(f.message)
                &&& untouched(*final(family), *old(family), *final(stream), *old(stream))
                &&& match recursion {
                    Some(v) => *final(v) == *v,
                    None => true,
                }
            },
            None => match recursion {
                Some(v) => {
                    &&& drawn_from(*final(family), *old(family))
                    &&& final(v).state.wf()
                    &&& exists|drawn: Result<bool, EngineError>|
                        {
                            &&& #[trigger] branch_decided(
                                *final(stream),
                                *old(stream),
                                old(family).core,
                                final(family).core,
                                final(v).state@,
                                v.state@,
                                depth,
                                profile,
                                drawn,
                            )
                            &&& told(*final(ctx), r, drawn)
                        }
                },
                None => true,
            },
        },
{
    if let Err(code) = handle_draw_guard(
        ctx,
        "hegel_recursion_branch",
        "recursion",
        tc,
        family.completed,
        recursion.is_none(),
        out_is_null,
    ) {
        return Err(code);
    }
    match recursion {
        Some(v) => {
            let ghost before = v.state@;
            let drawn = recursion_branch(stream, &mut family.core, &mut v.state, depth, profile);
            assert(branch_decided(
                *stream,
                *old(stream),
                old(family).core,
                family.core,
                v.state@,
                before,
                depth,
                profile,
                drawn,
            ));
            tell(ctx, drawn)
        },
        None => Err(hegel_result_t::HEGEL_E_INVALID_HANDLE),
    }
}

/// What is said of a value that has too many leaves.
pub open spec fn too_many_leaves(max_leaves: u64) -> Seq<char> {
    "recursive value needs more than max_leaves = "@ + decimal(max_leaves as nat)
        + " leaves; discard the attempt with hegel_recursion_retry"@
}

/// Counts a leaf. Where there is no budget for it, the attempt has to be
/// retried.
pub fn hegel_recursion_leaf(
    ctx: &mut HegelContext,
    tc: Option<&HegelTestCase>,
    family: &FamilyShared,
    recursion: Option<&mut HegelRecursion>,
) -> (r: hegel_result_t)
    ensures
        match handle_draw_fault(
            "hegel_recursion_leaf"@,
            "recursion"@,
            tc,
            family.completed,
            recursion is None,
            false,
        ) {
            Some(f) => {
                &&& ended(*final(ctx), r, Some(f))
                &&& match recursion {
                    Some(v) => *final(v) == *v,
                    None => true,
                }
            },
            None => match recursion {
                Some(v) => if v.state.leaves < v.state.max_leaves {
                    &&& ended(*final(ctx), r, None)
                    &&& final(v).state@ == (RecursionView {
                        leaves: (v.state.leaves + 1) as u64,
                        ..v.state@
                    })
                } else {
                    &&& ended(
                        *final(ctx),
                        r,
                        fault(
                            hegel_result_t::HEGEL_E_RETRY,
                            too_many_leaves(v.state.max_leaves),
                        ),
                    )
                    &&& final(v).state@ == v.state@
                },
                None => true,
            },
        },
{
    if let Err(code) = handle_draw_guard(
        ctx,
        "hegel_recursion_leaf",
        "recursion",
        tc,
        family.completed,
        recursion.is_none(),
        false,
    ) {
        return code;
    }
    match recursion {
        Some(v) => if v.state.count_leaf() {
            hegel_result_t::HEGEL_OK
        } else {
            let mut message = String::from_str("recursive value needs more than max_leaves = ");
            append_natural(&mut message, &BigUint::from_u128(v.state.max_leaves as u128));
            message.append(" leaves; discard the attempt with hegel_recursion_retry");
            ctx.set_last_error(message.as_str());
            hegel_result_t::HEGEL_E_RETRY
        },
        None => hegel_result_t::HEGEL_E_INVALID_HANDLE,
    }
}

/// Gives up an attempt at a recursive value.
pub fn hegel_recursion_retry<D: Distributions, O: DataObserver>(
    ctx: &mut HegelContext,
    tc: Option<&HegelTestCase>,
    family: &mut FamilyShared,
    stream: &mut NativeTestCase<D, O>,
    recursion: Option<&mut HegelRecursion>,
) -> (r: Result<(), hegel_result_t>)
    requires
        match recursion {
            Some(v) => v.state.wf(),
            None => true,
        },
    ensures
        match handle_draw_fault(
            "hegel_recursion_retry"@,
            "recursion"@,
            tc,
            old(family).completed,
            recursion is None,
            false,
        ) {
            Some(f) => {
                &&& r matches Err(code) && code == f.code
                &&& final(ctx)@ == shown(f.message)
                &&& untouched(*final(family), *old(family), *final(stream), *old(stream))
                &&& match recursion {
                    Some(v) => *final(v) == *v,
                    None => true,
                }
            },
            None => match recursion {
                Some(v) => {
                    &&& drawn_from(*final(family), *old(family))
                    &&& final(v).state.wf()
                    &&& exists|drawn: Result<(), EngineError>|
                        {
                            &&& #[trigger] attempt_given_up(
                                *final(stream),
                                *old(stream),
                                old(family).core,
                                final(family).core,
                                final(v).state@,
                                v.state@,
                                drawn,
                            )
                            &&& told(*final(ctx), r, drawn)
                        }
                },
                None => true,
            },
        },
{
    if let Err(code) = handle_draw_guard(
        ctx,
        "hegel_recursion_retry",
        "recursion",
        tc,
        family.completed,
        recursion.is_none(),
        false,
    ) {
        return Err(code);
    }
    match recursion {
        Some(v) => {
            let ghost before = v.state@;
            let drawn = recursion_retry(stream, &mut family.core, &mut v.state);
            assert(attempt_given_up(
                *stream,
                *old(stream),
                old(family).core,
                family.core,
                v.state@,
                before,
                drawn,
            ));
            tell(ctx, drawn)
        },
        None => Err(hegel_result_t::HEGEL_E_INVALID_HANDLE),
    }
}

/// What is said of an attempt that was mispriced.
pub open spec fn mispriced() -> Seq<char> {
    "recursive value was priced for branches with more children than its branch function draws; regenerate it from the root"@
}

/// Judges a finished attempt at a recursive value. `profile` is the growth
/// profile for the question that the recursion has at its end.
pub fn hegel_recursion_finish<D: Distributions, O: DataObserver>(
    ctx: &mut HegelContext,
    tc: Option<&HegelTestCase>,
    family: &FamilyShared,
    stream: &mut NativeTestCase<D, O>,
    recursion: Option<&mut HegelRecursion>,
    profile: RecursionProfile,
) -> (r: hegel_result_t)
    requires
        match recursion {
            Some(v) => v.state.wf(),
            None => true,
        },
    ensures
        match handle_draw_fault(
            "hegel_recursion_finish"@,
            "recursion"@,
            tc,
            family.completed,
            recursion is None,
            false,
        ) {
            Some(f) => {
                &&& ended(*final(ctx), r, Some(f))
                &&& *final(stream) == *old(stream)
                &&& match recursion {
                    Some(v) => *final(v) == *v,
                    None => true,
                }
            },
            None => match recursion {
                Some(v) => {
                    &&& final(v).state.wf()
                    &&& exists|accepted: bool|
                        {
                            &&& #[trigger] attempt_judged(
                                *final(stream),
                                *old(stream),
                                final(v).state@,
                                v.state@,
                                profile,
                                accepted,
                            )
                            &&& ended(
                                *final(ctx),
                                r,
                                if accepted {
                                    None
                                } else {
                                    fault(hegel_result_t::HEGEL_E_RETRY, mispriced())
                                },
                            )
                        }
                },
                None => true,
            },
        },
{
    if let Err(code) = handle_draw_guard(
        ctx,
        "hegel_recursion_finish",
        "recursion",
        tc,
        family.completed,
        recursion.is_none(),
        false,
    ) {
        return code;
    }
    match recursion {
        Some(v) => {
            let ghost before = v.state@;
            let accepted = recursion_finish(stream, &mut v.state, profile);
            assert(attempt_judged(*stream, *old(stream), v.state@, before, profile, accepted));
            if accepted {
                hegel_result_t::HEGEL_OK
            } else {
                ctx.set_last_error(
                    "recursive value was priced for branches with more children than its branch function draws; regenerate it from the root",
                );
                hegel_result_t::HEGEL_E_RETRY
            }
        },
        None => hegel_result_t::HEGEL_E_INVALID_HANDLE,
    }
}

/// A pool, as a handle.
pub struct HegelPool {
    /// The variables of the pool.
    pub variables: NativeVariables,
}

/// An empty pool.
pub fn hegel_new_pool(
    ctx: &mut HegelContext,
    tc: Option<&HegelTestCase>,
    family: &FamilyShared,
    out_is_null: bool,
) -> (r: Result<HegelPool, hegel_result_t>)
    ensures
        match draw_fault("hegel_new_pool"@, tc, family.completed, out_is_null) {
            Some(f) => r matches Err(code) && code == f.code && final(ctx)@ == shown(f.message),
            None => {
                &&& final(ctx)@ == Seq::<char>::empty()
                &&& r matches Ok(p) && p.variables.variables() == Seq::<i64>::empty()
                    && p.variables.removed() == Set::<i64>::empty()
            },
        },
{
    match draw_guard(ctx, "hegel_new_pool", tc, family.completed, out_is_null) {
        Ok(_) => Ok(HegelPool { variables: NativeVariables::new() }),
        Err(code) => Err(code),
    }
}

/// Draws an identifier for a new variable of a pool.
pub fn hegel_pool_add<D: Distributions, O: DataObserver>(
    ctx: &mut HegelContext,
    tc: Option<&HegelTestCase>,
    family: &mut FamilyShared,
    stream: &mut NativeTestCase<D, O>,
    pool: Option<&mut HegelPool>,
    out_is_null: bool,
) -> (r: Result<i64, hegel_result_t>)
    ensures
        match handle_draw_fault(
            "hegel_pool_add"@,
            "pool"@,
            tc,
            old(family).completed,
            pool is None,
            out_is_null,
        ) {
            Some(f) => {
                &&& r matches Err(code) && code == f.code
                &&& final(ctx)@ == shown(f.message)
                &&& untouched(*final(family), *old(family), *final(stream), *old(stream))
                &&& match pool {
                    Some(p) => *final(p) == *p,
                    None => true,
                }
            },
            None => match pool {
                Some(p) => {
                    &&& drawn_from(*final(family), *old(family))
                    &&& final(p).variables.removed() == p.variables.removed()
                    &&& final(p).variables.variables() == match r {
                        Ok(id) => p.variables.variables().push(id),
                        Err(_) => p.variables.variables(),
                    }
                    &&& exists|drawn: Result<i64, EngineError>|
                        {
                            &&& #[trigger] fresh_id_drawn(
                                *final(stream),
                                *old(stream),
                                old(family).core,
                                final(family).core,
                                drawn,
                            )
                            &&& told(*final(ctx), r, drawn)
                        }
                },
                None => true,
            },
        },
{
    if let Err(code) = handle_draw_guard(
        ctx,
        "hegel_pool_add",
        "pool",
        tc,
        family.completed,
        pool.is_none(),
        out_is_null,
    ) {
        return Err(code);
    }
    match pool {
        Some(p) => {
            let drawn = fresh_id(stream, &mut family.core);
            assert(fresh_id_drawn(*stream, *old(stream), old(family).core, family.core, drawn));
            if let Ok(id) = &drawn {
                p.variables.add(*id);
            }
            tell(ctx, drawn)
        },
        None => Err(hegel_result_t::HEGEL_E_INVALID_HANDLE),
    }
}

/// What a pool is after one of its variables was drawn.
pub open spec fn pool_after(
    variables: Seq<i64>,
    removed: Set<i64>,
    id: i64,
    consume: bool,
) -> (Seq<i64>, Set<i64>) {
    if consume {
        trimmed(variables, removed.insert(id))
    } else {
        (variables, removed)
    }
}

/// Draws a variable of a pool, and takes it out where it is to be consumed.
///
/// A pool without variables fails as an assumption would.
pub fn hegel_pool_generate<D: Distributions, O: DataObserver>(
    ctx: &mut HegelContext,
    tc: Option<&HegelTestCase>,
    family: &mut FamilyShared,
    stream: &mut NativeTestCase<D, O>,
    pool: Option<&mut HegelPool>,
    consume: bool,
    out_is_null: bool,
) -> (r: Result<i64, hegel_result_t>)
    ensures
        match handle_draw_fault(
            "hegel_pool_generate"@,
            "pool"@,
            tc,
            old(family).completed,
            pool is None,
            out_is_null,
        ) {
            Some(f) => {
                &&& r matches Err(code) && code == f.code
                &&& final(ctx)@ == shown(f.message)
                &&& untouched(*final(family), *old(family), *final(stream), *old(stream))
                &&& match pool {
                    Some(p) => *final(p) == *p,
                    None => true,
                }
            },
            None => match pool {
                Some(p) => {
                    let ids = active_ids(p.variables.variables(), p.variables.removed());
                    if ids.len() == 0 {
                        &&& r == Err::<i64, hegel_result_t>(hegel_result_t::HEGEL_E_ASSUME)
                        &&& final(ctx)@ == Seq::<char>::empty()
                        &&& untouched(*final(family), *old(family), *final(stream), *old(stream))
                        &&& *final(p) == *p
                    } else {
                        &&& drawn_from(*final(family), *old(family))
                        &&& match r {
                            Ok(id) => (
                                final(p).variables.variables(),
                                final(p).variables.removed(),
                            ) == pool_after(
                                p.variables.variables(),
                                p.variables.removed(),
                                id,
                                consume,
                            ),
                            Err(_) => *final(p) == *p,
                        }
                        &&& exists|drawn: Result<i64, EngineError>|
                            {
                                &&& #[trigger] member_chosen(
                                    *final(stream),
                                    *old(stream),
                                    old(family).core,
                                    final(family).core,
                                    ids,
                                    drawn,
                                )
                                &&& told(*final(ctx), r, drawn)
                            }
                    }
                },
                None => true,
            },
        },
{
    if let Err(code) = handle_draw_guard(
        ctx,
        "hegel_pool_generate",
        "pool",
        tc,
        family.completed,
        pool.is_none(),
        out_is_null,
    ) {
        return Err(code);
    }
    match pool {
        Some(p) => {
            let ids = p.variables.active();
            if ids.len() == 0 {
                return Err(hegel_result_t::HEGEL_E_ASSUME);
            }
            let drawn = choose_from(stream, &mut family.core, ids.as_slice());
            assert(member_chosen(
                *stream,
                *old(stream),
                old(family).core,
                family.core,
                ids@,
                drawn,
            ));
            if let Ok(id) = &drawn {
                if consume {
                    p.variables.consume(*id);
                }
            }
            tell(ctx, drawn)
        },
        None => Err(hegel_result_t::HEGEL_E_INVALID_HANDLE),
    }
}

/// What says that there are no more rounds, or no more rules in a round.
pub const HEGEL_STATE_MACHINE_DONE: i64 = i64::MIN;

/// The weight one, as the bits of a binary64 number.
pub const WEIGHT_ONE: u64 = 0x3ff0_0000_0000_0000;

/// What a state machine is made of.
pub struct MachineSpec {
    /// The names of the rules.
    pub rules: Vec<String>,
    /// The concurrency group of each rule.
    pub rule_groups: Vec<i64>,
    /// The weight of each rule, as the bits of a binary64 number.
    pub rule_weights: Vec<u64>,
    /// The names of the invariants.
    pub invariants: Vec<String>,
    /// Whether each invariant is always checked.
    pub invariant_always_check: Vec<bool>,
    /// The smallest number of workers.
    pub min_concurrency: i64,
    /// The largest number of workers.
    pub max_concurrency: i64,
    /// How many rounds there may be.
    pub step_count: i64,
}

/// A state machine, as a handle.
pub struct HegelStateMachine {
    /// What the machine is made of.
    pub spec: MachineSpec,
    /// The number of workers.
    pub concurrency: i64,
}

/// What was handed over to make a state machine of.
pub struct MachineArgs {
    /// The names of the rules.
    pub rule_names: TextsArg,
    /// The groups of the rules, none for a null pointer.
    pub rule_groups: Option<Vec<i64>>,
    /// The weights of the rules, none for a null pointer.
    pub rule_weights: Option<Vec<u64>>,
    /// How many rules there are.
    pub num_rules: usize,
    /// The names of the invariants.
    pub invariant_names: TextsArg,
    /// Whether invariants are always checked, none for a null pointer.
    pub invariant_always_check: Option<Vec<bool>>,
    /// How many invariants there are.
    pub num_invariants: usize,
    /// The smallest number of workers.
    pub min_concurrency: i64,
    /// The largest number of workers.
    pub max_concurrency: i64,
    /// How many rounds there may be.
    pub step_count: i64,
}

impl MachineArgs {
    /// Whether the lists are as long as they are said to be.
    pub open spec fn wf(&self) -> bool {
        &&& match self.rule_names {
            TextsArg::Null(len) => len == self.num_rules,
            TextsArg::Texts(v) => v@.len() == self.num_rules,
        }
        &&& self.rule_groups matches Some(v) ==> v@.len() == self.num_rules
        &&& self.rule_weights matches Some(v) ==> v@.len() == self.num_rules
        &&& match self.invariant_names {
            TextsArg::Null(len) => len == self.num_invariants,
            TextsArg::Texts(v) => v@.len() == self.num_invariants,
        }
        &&& self.invariant_always_check matches Some(v) ==> v@.len() == self.num_invariants
    }

    /// The groups of the rules.
    pub open spec fn groups(&self) -> Seq<i64> {
        match self.rule_groups {
            Some(v) => v@,
            None => Seq::empty(),
        }
    }

    /// The weights of the rules: all the same, unless they are given.
    pub open spec fn weights(&self) -> Seq<u64> {
        match self.rule_weights {
            Some(v) => v@,
            None => Seq::new(self.num_rules as nat, |i: int| WEIGHT_ONE),
        }
    }

    /// Whether invariants are always checked: none is, unless that is said.
    pub open spec fn always(&self) -> Seq<bool> {
        match self.invariant_always_check {
            Some(v) => v@,
            None => Seq::new(self.num_invariants as nat, |i: int| false),
        }
    }
}

/// The first place of a value, or the length.
pub open spec fn first_place(s: Seq<i64>, x: i64, from: int) -> int
    decreases s.len() - from,
{
    if from >= s.len() {
        s.len() as int
    } else if s[from] == x {
        from
    } else {
        first_place(s, x, from + 1)
    }
}

/// What is said of a group that is reserved.
pub open spec fn reserved_group(rule: int) -> Seq<char> {
    ": rule_groups["@ + decimal(rule as nat) + "] is "@ + signed_decimal(
        HEGEL_STATE_MACHINE_DONE as int,
    )
        + " (HEGEL_STATE_MACHINE_DONE), which is reserved as the termination sentinel of hegel_state_machine_next_group"@
}

/// Whether a weight is positive and finite.
pub open spec fn is_weight(bits: u64) -> bool {
    0 < bits < FLOAT_INFINITY_BITS
}

/// What is wrong with the groups of rules.
pub open spec fn groups_fault(func: Seq<char>, a: MachineArgs) -> Option<FaultView> {
    if a.rule_groups is None && a.num_rules > 0 {
        fault(hegel_result_t::HEGEL_E_INVALID_ARG, func + ": rule_groups is null"@)
    } else {
        let rule = first_place(a.groups(), HEGEL_STATE_MACHINE_DONE, 0);
        if rule < a.groups().len() {
            fault(hegel_result_t::HEGEL_E_INVALID_ARG, func + reserved_group(rule))
        } else {
            None
        }
    }
}

/// What is wrong with the numbers of a state machine.
pub open spec fn bounds_fault(func: Seq<char>, a: MachineArgs) -> Option<FaultView> {
    if a.num_rules == 0 {
        fault(hegel_result_t::HEGEL_E_INVALID_ARG, func + ": a state machine needs a rule"@)
    } else if exists|i: int| 0 <= i < a.weights().len() && !is_weight(#[trigger] a.weights()[i]) {
        fault(
            hegel_result_t::HEGEL_E_INVALID_ARG,
            func + ": rule_weights must be finite and positive"@,
        )
    } else if a.min_concurrency < 1 {
        fault(
            hegel_result_t::HEGEL_E_INVALID_ARG,
            func + ": min_concurrency must be at least one"@,
        )
    } else if a.max_concurrency < a.min_concurrency {
        fault(
            hegel_result_t::HEGEL_E_INVALID_ARG,
            func + ": max_concurrency must be at least min_concurrency"@,
        )
    } else if a.step_count < 1 {
        fault(hegel_result_t::HEGEL_E_INVALID_ARG, func + ": step_count must be at least one"@)
    } else {
        None
    }
}

/// What is wrong with a call that makes a state machine.
pub open spec fn machine_fault(
    tc: Option<&HegelTestCase>,
    completed: bool,
    a: MachineArgs,
    out_is_null: bool,
) -> Option<FaultView> {
    let func = "hegel_new_state_machine"@;
    first_fault(
        draw_fault(func, tc, completed, out_is_null),
        first_fault(
            texts_fault(func, "rule_names"@, a.rule_names),
            first_fault(
                groups_fault(func, a),
                first_fault(
                    texts_fault(func, "invariant_names"@, a.invariant_names),
                    bounds_fault(func, a),
                ),
            ),
        ),
    )
}

/// Whether a state machine is made of what was handed over.
pub open spec fn machine_is(m: MachineSpec, a: MachineArgs) -> bool {
    &&& names_are(m.rules@, a.rule_names)
    &&& m.rule_groups@ == a.groups()
    &&& m.rule_weights@ == a.weights()
    &&& names_are(m.invariants@, a.invariant_names)
    &&& m.invariant_always_check@ == a.always()
    &&& m.min_concurrency == a.min_concurrency
    &&& m.max_concurrency == a.max_concurrency
    &&& m.step_count == a.step_count
}

/// The first rule with a reserved group.
fn reserved_place(groups: &Vec<i64>) -> (r: usize)
    ensures
        r == first_place(groups@, HEGEL_STATE_MACHINE_DONE, 0),
        r <= groups@.len(),
{
    let n: usize = groups.len();
    let mut i: usize = 0;
    while i < n
        invariant
            i <= n == groups@.len(),
            first_place(groups@, HEGEL_STATE_MACHINE_DONE, 0) == first_place(
                groups@,
                HEGEL_STATE_MACHINE_DONE,
                i as int,
            ),
        decreases n - i,
    {
        if groups[i] == HEGEL_STATE_MACHINE_DONE {
            return i;
        }
        i = i + 1;
    }
    n
}

/// Whether all weights are positive and finite.
fn weights_ok(weights: &Vec<u64>) -> (r: bool)
    ensures
        r == !(exists|i: int| 0 <= i < weights@.len() && !is_weight(#[trigger] weights@[i])),
{
    let n: usize = weights.len();
    let mut i: usize = 0;
    while i < n
        invariant
            i <= n == weights@.len(),
            forall|j: int| 0 <= j < i ==> is_weight(#[trigger] weights@[j]),
        decreases n - i,
    {
        let w: u64 = weights[i];
        if w == 0 || w >= FLOAT_INFINITY_BITS {
            assert(!is_weight(weights@[i as int]));
            return false;
        }
        i = i + 1;
    }
    true
}

/// Copies numbers, or repeats one.
fn numbers_or(list: &Option<Vec<u64>>, n: usize, x: u64) -> (r: Vec<u64>)
    ensures
        r@ == match *list {
            Some(v) => v@,
            None => Seq::new(n as nat, |i: int| x),
        },
{
    match list {
        Some(v) => {
            let copy = v.clone();
            assert(copy@ =~= v@);
            copy
        },
        None => {
            let mut out: Vec<u64> = Vec::new();
            while out.len() < n
                invariant
                    out@.len() <= n,
                    forall|i: int| 0 <= i < out@.len() ==> out@[i] == x,
                decreases n - out@.len(),
            {
                out.push(x);
            }
            assert(out@ =~= Seq::new(n as nat, |i: int| x));
            out
        },
    }
}

/// Copies flags, or repeats `false`.
fn flags_or(list: &Option<Vec<bool>>, n: usize) -> (r: Vec<bool>)
    ensures
        r@ == match *list {
            Some(v) => v@,
            None => Seq::new(n as nat, |i: int| false),
        },
{
    match list {
        Some(v) => {
            let copy = v.clone();
            assert(copy@ =~= v@);
            copy
        },
        None => {
            let mut out: Vec<bool> = Vec::new();
            while out.len() < n
                invariant
                    out@.len() <= n,
                    forall|i: int| 0 <= i < out@.len() ==> out@[i] == false,
                decreases n - out@.len(),
            {
                out.push(false);
            }
            assert(out@ =~= Seq::new(n as nat, |i: int| false));
            out
        },
    }
}

/// Whether `r` tells of a machine with the number of workers that was drawn. A
/// number outside the bounds is an internal error.
pub open spec fn machine_told(
    ctx: HegelContext,
    r: Result<HegelStateMachine, hegel_result_t>,
    a: MachineArgs,
    drawn: Result<i64, EngineError>,
) -> bool {
    match drawn {
        Ok(level) => if a.min_concurrency <= level <= a.max_concurrency {
            &&& r matches Ok(m)
            &&& machine_is(m.spec, a)
            &&& m.concurrency == level
            &&& ctx@ == Seq::<char>::empty()
        } else {
            &&& r matches Err(code)
            &&& code == hegel_result_t::HEGEL_E_INTERNAL
            &&& ctx@ == shown("concurrency level outside its bounds"@ + bug_notice())
        },
        Err(e) => {
            &&& r matches Err(code)
            &&& code == engine_fault(e).code
            &&& ctx@ == shown(engine_fault(e).message)
        },
    }
}

/// Makes a state machine with as many workers as were `drawn` for it.
///
/// A machine with several workers is not deterministic. That is noted, and
/// where the run did not know of it, the test case fails as an assumption
/// would.
pub fn hegel_new_state_machine(
    ctx: &mut HegelContext,
    tc: Option<&HegelTestCase>,
    family: &mut FamilyShared,
    args: &MachineArgs,
    drawn: Result<i64, EngineError>,
    out_is_null: bool,
) -> (r: Result<HegelStateMachine, hegel_result_t>)
    requires
        args.wf(),
    ensures
        match machine_fault(tc, old(family).completed, *args, out_is_null) {
            Some(f) => {
                &&& r matches Err(code) && code == f.code
                &&& final(ctx)@ == shown(f.message)
                &&& *final(family) == *old(family)
            },
            None => {
                let concurrent = args.max_concurrency > 1;
                &&& *final(family) == if concurrent {
                    (FamilyShared {
                        core: FamilyCore { concurrent_machine: true, ..old(family).core },
                        ..*old(family)
                    })
                } else {
                    *old(family)
                }
                &&& if concurrent && old(family).core.reject_concurrent_machine {
                    &&& r matches Err(code)
                    &&& code == hegel_result_t::HEGEL_E_ASSUME
                    &&& final(ctx)@ == Seq::<char>::empty()
                } else {
                    machine_told(*final(ctx), r, *args, drawn)
                }
            },
        },
{
    let func: &'static str = "hegel_new_state_machine";
    if let Err(code) = draw_guard(ctx, func, tc, family.completed, out_is_null) {
        return Err(code);
    }
    let rules = match names_from_c_array(ctx, func, "rule_names", &args.rule_names) {
        Ok(names) => names,
        Err(code) => {
            return Err(code);
        },
    };
    let rule_groups: Vec<i64> = match &args.rule_groups {
        Some(v) => {
            let copy = v.clone();
            assert(copy@ =~= v@);
            copy
        },
        None => {
            if args.num_rules > 0 {
                return Err(
                    ctx.fail(hegel_result_t::HEGEL_E_INVALID_ARG, func, ": rule_groups is null"),
                );
            }
            Vec::new()
        },
    };
    assert(rule_groups@ =~= args.groups());
    let rule: usize = reserved_place(&rule_groups);
    if rule < rule_groups.len() {
        let mut what = String::from_str(": rule_groups[");
        append_natural(&mut what, &BigUint::from_u128(rule as u128));
        what.append("] is ");
        append_integer(&mut what, &BigInt::from_i64(HEGEL_STATE_MACHINE_DONE));
        what.append(
            " (HEGEL_STATE_MACHINE_DONE), which is reserved as the termination sentinel of hegel_state_machine_next_group",
        );
        return Err(ctx.fail(hegel_result_t::HEGEL_E_INVALID_ARG, func, what.as_str()));
    }
    let rule_weights = numbers_or(&args.rule_weights, args.num_rules, WEIGHT_ONE);
    assert(rule_weights@ == args.weights());
    let invariants = match names_from_c_array(
        ctx,
        func,
        "invariant_names",
        &args.invariant_names,
    ) {
        Ok(names) => names,
        Err(code) => {
            return Err(code);
        },
    };
    let invariant_always_check = flags_or(&args.invariant_always_check, args.num_invariants);
    let bound: Option<&'static str> = if args.num_rules == 0 {
        Some(": a state machine needs a rule")
    } else if !weights_ok(&rule_weights) {
        Some(": rule_weights must be finite and positive")
    } else if args.min_concurrency < 1 {
        Some(": min_concurrency must be at least one")
    } else if args.max_concurrency < args.min_concurrency {
        Some(": max_concurrency must be at least min_concurrency")
    } else if args.step_count < 1 {
        Some(": step_count must be at least one")
    } else {
        None
    };
    if let Some(what) = bound {
        return Err(ctx.fail(hegel_result_t::HEGEL_E_INVALID_ARG, func, what));
    }
    if args.max_concurrency > 1 {
        family.core.set_concurrent_machine();
        if family.core.reject_concurrent_machine {
            return Err(hegel_result_t::HEGEL_E_ASSUME);
        }
    }
    let within = match drawn {
        Ok(level) => if args.min_concurrency <= level && level <= args.max_concurrency {
            Ok(level)
        } else {
            Err(EngineError::internal("concurrency level outside its bounds"))
        },
        Err(e) => Err(e),
    };
    let concurrency: i64 = match tell(ctx, within) {
        Ok(level) => level,
        Err(code) => {
            return Err(code);
        },
    };
    Ok(
        HegelStateMachine {
            concurrency,
            spec: MachineSpec {
                rules,
                rule_groups,
                rule_weights,
                invariants,
                invariant_always_check,
                min_concurrency: args.min_concurrency,
                max_concurrency: args.max_concurrency,
                step_count: args.step_count,
            },
        },
    )
}

/// What is asked of a state machine.
#[derive(Clone, Copy, Debug, PartialEq, Eq, Structural)]
pub enum MachineStep {
    /// The group of rules to run next.
    NextGroup,
    /// The rule that a worker runs next.
    NextRule(i64),
    /// To take back the last rule of a worker.
    RuleRejected(i64),
    /// Whether an invariant is checked now.
    ShouldCheckInvariant(i64),
}

/// What a machine is to be asked for the next group of rules.
pub fn hegel_state_machine_next_group(
    ctx: &mut HegelContext,
    tc: Option<&HegelTestCase>,
    completed: bool,
    machine: Option<&HegelStateMachine>,
    out_is_null: bool,
) -> (r: Result<MachineStep, hegel_result_t>)
    ensures
        gave(
            *final(ctx),
            r,
            handle_draw_fault(
                "hegel_state_machine_next_group"@,
                "state machine"@,
                tc,
                completed,
                machine is None,
                out_is_null,
            ),
            MachineStep::NextGroup,
        ),
{
    match handle_draw_guard(
        ctx,
        "hegel_state_machine_next_group",
        "state machine",
        tc,
        completed,
        machine.is_none(),
        out_is_null,
    ) {
        Ok(_) => Ok(MachineStep::NextGroup),
        Err(code) => Err(code),
    }
}

/// What a machine is to be asked for the next rule of a worker.
pub fn hegel_state_machine_next_rule(
    ctx: &mut HegelContext,
    tc: Option<&HegelTestCase>,
    completed: bool,
    machine: Option<&HegelStateMachine>,
    worker_index: i64,
    out_is_null: bool,
) -> (r: Result<MachineStep, hegel_result_t>)
    ensures
        gave(
            *final(ctx),
            r,
            handle_draw_fault(
                "hegel_state_machine_next_rule"@,
                "state machine"@,
                tc,
                completed,
                machine is None,
                out_is_null,
            ),
            MachineStep::NextRule(worker_index),
        ),
{
    match handle_draw_guard(
        ctx,
        "hegel_state_machine_next_rule",
        "state machine",
        tc,
        completed,
        machine.is_none(),
        out_is_null,
    ) {
        Ok(_) => Ok(MachineStep::NextRule(worker_index)),
        Err(code) => Err(code),
    }
}

/// What a machine is to be told of a rule that a worker could not run.
pub fn hegel_state_machine_rule_rejected(
    ctx: &mut HegelContext,
    tc: Option<&HegelTestCase>,
    completed: bool,
    machine: Option<&HegelStateMachine>,
    worker_index: i64,
) -> (r: Result<MachineStep, hegel_result_t>)
    ensures
        gave(
            *final(ctx),
            r,
            handle_draw_fault(
                "hegel_state_machine_rule_rejected"@,
                "state machine"@,
                tc,
                completed,
                machine is None,
                false,
            ),
            MachineStep::RuleRejected(worker_index),
        ),
{
    match handle_draw_guard(
        ctx,
        "hegel_state_machine_rule_rejected",
        "state machine",
        tc,
        completed,
        machine.is_none(),
        false,
    ) {
        Ok(_) => Ok(MachineStep::RuleRejected(worker_index)),
        Err(code) => Err(code),
    }
}

/// What a machine is to be asked of an invariant.
pub fn hegel_state_machine_should_check_invariant(
    ctx: &mut HegelContext,
    tc: Option<&HegelTestCase>,
    completed: bool,
    machine: Option<&HegelStateMachine>,
    invariant_index: i64,
    out_is_null: bool,
) -> (r: Result<MachineStep, hegel_result_t>)
    ensures
        gave(
            *final(ctx),
            r,
            handle_draw_fault(
                "hegel_state_machine_should_check_invariant"@,
                "state machine"@,
                tc,
                completed,
                machine is None,
                out_is_null,
            ),
            MachineStep::ShouldCheckInvariant(invariant_index),
        ),
{
    match handle_draw_guard(
        ctx,
        "hegel_state_machine_should_check_invariant",
        "state machine",
        tc,
        completed,
        machine.is_none(),
        out_is_null,
    ) {
        Ok(_) => Ok(MachineStep::ShouldCheckInvariant(invariant_index)),
        Err(code) => Err(code),
    }
}

/// Tells of what a state machine came to: a number, or that it is done.
pub fn machine_answer(ctx: &mut HegelContext, answer: Result<Option<i64>, EngineError>) -> (r:
    Result<i64, hegel_result_t>)
    requires
        old(ctx)@ == Seq::<char>::empty(),
    ensures
        match answer {
            Ok(Some(n)) => r == Ok::<i64, hegel_result_t>(n) && final(ctx)@ == Seq::<char>::empty(),
            Ok(None) => r == Ok::<i64, hegel_result_t>(HEGEL_STATE_MACHINE_DONE) && final(ctx)@
                == Seq::<char>::empty(),
            Err(e) => r == Err::<i64, hegel_result_t>(engine_fault(e).code) && final(ctx)@ == shown(
                engine_fault(e).message,
            ),
        },
{
    match answer {
        Ok(Some(n)) => Ok(n),
        Ok(None) => Ok(HEGEL_STATE_MACHINE_DONE),
        Err(e) => Err(translate_ds_error(ctx, e)),
    }
}

/// The end of a machine is told apart from every group: a machine that could
/// be made has no group that stands for the end.
pub proof fn lemma_done_is_no_group(
    tc: Option<&HegelTestCase>,
    completed: bool,
    a: MachineArgs,
    m: MachineSpec,
    i: int,
)
    requires
        machine_fault(tc, completed, a, false) is None,
        machine_is(m, a),
        0 <= i < m.rule_groups@.len(),
    ensures
        m.rule_groups@[i] != HEGEL_STATE_MACHINE_DONE,
{
    lemma_first_place(a.groups(), HEGEL_STATE_MACHINE_DONE, 0, i);
}

/// A value does not stand before its first place.
proof fn lemma_first_place(s: Seq<i64>, x: i64, from: int, i: int)
    requires
        0 <= from <= i < s.len(),
        first_place(s, x, from) >= s.len(),
    ensures
        s[i] != x,
    decreases i - from,
{
    if from < i {
        lemma_first_place(s, x, from + 1, i);
    }
}

} // verus!
