//! Test-case handles.
//!
//! The handles onto one test case share its family. Each draws from a stream
//! of its own, unless it is a block of another one.
use crate::abi::ended;
use crate::abi::fault;
use crate::abi::gave;
use crate::abi::hegel_result_t;
use crate::abi::runs::Failure;
use crate::abi::settings::TestLocation;
use crate::abi::shown;
use crate::abi::FaultView;
use crate::abi::HegelContext;
use crate::abi::TextArg;
use crate::abi::TextArgView;
use crate::bignum::BigInt;
use crate::bignum::BigUint;
use crate::decimal::append_integer;
use crate::decimal::append_natural;
use crate::decimal::decimal;
use crate::decimal::signed_decimal;
use crate::errors::EngineError;
use crate::errors::InterestingOrigin;
use crate::errors::Status;
use crate::family::FamilyCore;
use crate::labels::fnv1a;
use crate::labels::label_from_bytes;
use crate::sampling::Distributions;
use crate::structure::closed_at;
use crate::structure::opened;
use crate::test_case::DataObserver;
use crate::test_case::NativeTestCase;
use vstd::prelude::*;
use vstd::string::StringExecFns;

verus! {

/// How a test case ended, as callers say it.
#[allow(non_camel_case_types)]
#[derive(Clone, Copy, Debug, PartialEq, Eq, Structural)]
pub enum hegel_status_t {
    HEGEL_STATUS_VALID,
    HEGEL_STATUS_INVALID,
    HEGEL_STATUS_OVERRUN,
    HEGEL_STATUS_INTERESTING,
}

impl hegel_status_t {
    /// The number that callers say.
    pub open spec fn number(self) -> u32 {
        match self {
            hegel_status_t::HEGEL_STATUS_VALID => 0,
            hegel_status_t::HEGEL_STATUS_INVALID => 1,
            hegel_status_t::HEGEL_STATUS_OVERRUN => 2,
            hegel_status_t::HEGEL_STATUS_INTERESTING => 3,
        }
    }

    /// The number that callers say.
    pub fn code(self) -> (r: u32)
        ensures
            r == self.number(),
    {
        match self {
            hegel_status_t::HEGEL_STATUS_VALID => 0,
            hegel_status_t::HEGEL_STATUS_INVALID => 1,
            hegel_status_t::HEGEL_STATUS_OVERRUN => 2,
            hegel_status_t::HEGEL_STATUS_INTERESTING => 3,
        }
    }
}

/// How a test case ended.
#[derive(Debug)]
pub enum TestCaseResult {
    /// It passed.
    Valid,
    /// It broke an assumption.
    Invalid,
    /// It ran out of data.
    Overrun,
    /// It failed.
    Interesting(Failure),
}

/// The verdict of a result.
pub open spec fn status_of(outcome: TestCaseResult) -> Status {
    match outcome {
        TestCaseResult::Valid => Status::Valid,
        TestCaseResult::Invalid => Status::Invalid,
        TestCaseResult::Overrun => Status::EarlyStop,
        TestCaseResult::Interesting(_) => Status::Interesting,
    }
}

/// The width that documents are laid out to, unless it is set.
pub const DEFAULT_PRINTER_MAX_WIDTH: u64 = 79;

/// The worker of a handle that is attributed to none.
pub const NO_WORKER: i64 = -1;

/// What all handles onto one test case share.
pub struct FamilyShared {
    /// What all streams of the test case share.
    pub core: FamilyCore,
    /// Whether a handle has completed the test case.
    pub completed: bool,
    /// The width that the document is laid out to.
    pub printer_width: usize,
    /// Whether the width was set.
    pub printer_width_configured: bool,
    /// Where the verdict is reported for.
    pub reporter: Option<TestLocation>,
    /// The verdict that was reported: whether the test passed.
    pub reported: Option<bool>,
}

/// A handle onto a test case.
#[derive(Clone, Copy, Debug, PartialEq, Eq, Structural)]
pub struct HegelTestCase {
    /// Whether another thread is using the handle.
    pub busy: bool,
    /// Whether the handle has completed the test case.
    pub completed: bool,
    /// The worker that the output is attributed to.
    pub worker: i64,
}

/// A size, which stays absurdly large where it does not fit.
pub fn size_arg(v: u64) -> (r: usize)
    ensures
        r == if v <= usize::MAX {
            v as usize
        } else {
            usize::MAX
        },
{
    if v <= usize::MAX as u64 {
        v as usize
    } else {
        usize::MAX
    }
}

/// What is shared by the handles onto a new test case.
pub fn new_family(core: FamilyCore, reporter: Option<TestLocation>) -> (r: FamilyShared)
    ensures
        r == (FamilyShared {
            core,
            completed: false,
            printer_width: 79,
            printer_width_configured: false,
            reporter,
            reported: None,
        }),
{
    FamilyShared {
        core,
        completed: false,
        printer_width: size_arg(DEFAULT_PRINTER_MAX_WIDTH),
        printer_width_configured: false,
        reporter,
        reported: None,
    }
}

/// The first handle onto a test case.
pub fn handle_from_family() -> (r: HegelTestCase)
    ensures
        r == (HegelTestCase { busy: false, completed: false, worker: NO_WORKER }),
{
    handle_from_stream(NO_WORKER)
}

/// A handle that is attributed to a worker.
pub fn handle_from_stream(worker: i64) -> (r: HegelTestCase)
    ensures
        r == (HegelTestCase { busy: false, completed: false, worker }),
{
    HegelTestCase { busy: false, completed: false, worker }
}

impl FamilyShared {
    /// What is shared once a handle has completed the test case. The first
    /// completion stands: it concludes the test case and is reported.
    pub open spec fn after(self, outcome: TestCaseResult, origin: Option<InterestingOrigin>) -> Self {
        if self.completed {
            self
        } else {
            FamilyShared {
                core: self.core.concluded(status_of(outcome), origin),
                completed: true,
                reported: if self.reporter is Some {
                    Some(!(outcome is Interesting))
                } else {
                    self.reported
                },
                ..self
            }
        }
    }

    /// Completes the test case, unless a handle has done so before.
    pub fn complete(&mut self, outcome: &TestCaseResult)
        ensures
            exists|origin: Option<InterestingOrigin>|
                {
                    &&& *final(self) == #[trigger] old(self).after(*outcome, origin)
                    &&& match *outcome {
                        TestCaseResult::Interesting(f) => origin matches Some(o) && o@ == f.origin@,
                        _ => origin is None,
                    }
                },
    {
        let ghost before = *self;
        let (status, origin): (Status, Option<InterestingOrigin>) = match outcome {
            TestCaseResult::Valid => (Status::Valid, None),
            TestCaseResult::Invalid => (Status::Invalid, None),
            TestCaseResult::Overrun => (Status::EarlyStop, None),
            TestCaseResult::Interesting(f) => (
                Status::Interesting,
                Some(InterestingOrigin { description: f.origin.clone() }),
            ),
        };
        let ghost o = origin;
        if !self.completed {
            self.completed = true;
            self.core.conclude(status, origin);
            if self.reporter.is_some() {
                self.reported = Some(
                    match outcome {
                        TestCaseResult::Interesting(_) => false,
                        _ => true,
                    },
                );
            }
        }
        assert(*self == before.after(*outcome, o));
    }
}

/// Completion happens once: whatever is said after it changes nothing.
pub proof fn lemma_completion_happens_once(
    family: FamilyShared,
    first: TestCaseResult,
    first_origin: Option<InterestingOrigin>,
    second: TestCaseResult,
    second_origin: Option<InterestingOrigin>,
)
    ensures
        family.after(first, first_origin).completed,
        family.after(first, first_origin).after(second, second_origin) == family.after(
            first,
            first_origin,
        ),
{
}

/// What is wrong with a handle that is to be drawn from.
pub open spec fn case_fault(func: Seq<char>, tc: Option<&HegelTestCase>, completed: bool) -> Option<
    FaultView,
> {
    match tc {
        None => fault(
            hegel_result_t::HEGEL_E_INVALID_HANDLE,
            func + ": test case pointer is null"@,
        ),
        Some(h) => if completed {
            fault(
                hegel_result_t::HEGEL_E_ALREADY_COMPLETE,
                func + ": test case is already complete"@,
            )
        } else if h.busy {
            fault(
                hegel_result_t::HEGEL_E_CONCURRENT_USE,
                func + ": test case handle is in use on another thread"@,
            )
        } else {
            None
        },
    }
}

/// What is wrong with a call that draws a value.
pub open spec fn draw_fault(
    func: Seq<char>,
    tc: Option<&HegelTestCase>,
    completed: bool,
    out_is_null: bool,
) -> Option<FaultView> {
    match case_fault(func, tc, completed) {
        Some(f) => Some(f),
        None => if out_is_null {
            fault(hegel_result_t::HEGEL_E_INVALID_ARG, func + ": out parameter is null"@)
        } else {
            None
        },
    }
}

/// Whether a call is let through.
pub open spec fn admitted(
    ctx: HegelContext,
    r: Result<(), hegel_result_t>,
    fault: Option<FaultView>,
) -> bool {
    gave(ctx, r, fault, ())
}

/// Lets a call through that uses a handle.
pub fn tc_guard(
    ctx: &mut HegelContext,
    func: &str,
    tc: Option<&HegelTestCase>,
    completed: bool,
) -> (r: Result<(), hegel_result_t>)
    ensures
        admitted(*final(ctx), r, case_fault(func@, tc, completed)),
{
    ctx.clear_last_error();
    match tc {
        None => Err(
            ctx.fail(hegel_result_t::HEGEL_E_INVALID_HANDLE, func, ": test case pointer is null"),
        ),
        Some(h) => if completed {
            Err(
                ctx.fail(
                    hegel_result_t::HEGEL_E_ALREADY_COMPLETE,
                    func,
                    ": test case is already complete",
                ),
            )
        } else if h.busy {
            Err(
                ctx.fail(
                    hegel_result_t::HEGEL_E_CONCURRENT_USE,
                    func,
                    ": test case handle is in use on another thread",
                ),
            )
        } else {
            Ok(())
        },
    }
}

/// Lets a call through that draws a value.
pub fn draw_guard(
    ctx: &mut HegelContext,
    func: &str,
    tc: Option<&HegelTestCase>,
    completed: bool,
    out_is_null: bool,
) -> (r: Result<(), hegel_result_t>)
    ensures
        admitted(*final(ctx), r, draw_fault(func@, tc, completed, out_is_null)),
{
    match tc_guard(ctx, func, tc, completed) {
        Ok(_) => if out_is_null {
            Err(ctx.fail(hegel_result_t::HEGEL_E_INVALID_ARG, func, ": out parameter is null"))
        } else {
            Ok(())
        },
        Err(code) => Err(code),
    }
}

/// What a failed draw is told as. The end of a test case, and a broken
/// assumption, come without a message.
pub open spec fn engine_fault(e: EngineError) -> FaultView {
    match e {
        EngineError::Overrun => FaultView {
            code: hegel_result_t::HEGEL_E_STOP_TEST,
            message: Seq::empty(),
        },
        EngineError::InvalidTestCase => FaultView {
            code: hegel_result_t::HEGEL_E_ASSUME,
            message: Seq::empty(),
        },
        EngineError::InvalidArgument(m) => FaultView {
            code: hegel_result_t::HEGEL_E_INVALID_ARG,
            message: m@,
        },
        EngineError::Internal(i) => FaultView {
            code: hegel_result_t::HEGEL_E_INTERNAL,
            message: i@,
        },
    }
}

/// Tells of a failed draw.
pub fn translate_ds_error(ctx: &mut HegelContext, e: EngineError) -> (r: hegel_result_t)
    requires
        old(ctx)@ == Seq::<char>::empty(),
    ensures
        ended(*final(ctx), r, Some(engine_fault(e))),
{
    match e {
        EngineError::Overrun => hegel_result_t::HEGEL_E_STOP_TEST,
        EngineError::InvalidTestCase => hegel_result_t::HEGEL_E_ASSUME,
        EngineError::InvalidArgument(m) => {
            ctx.set_last_error(m.as_str());
            hegel_result_t::HEGEL_E_INVALID_ARG
        },
        EngineError::Internal(i) => {
            ctx.set_last_error(i.to_message().as_str());
            hegel_result_t::HEGEL_E_INTERNAL
        },
    }
}

/// Whether a call told of what a draw gave.
pub open spec fn told<T>(
    ctx: HegelContext,
    r: Result<T, hegel_result_t>,
    drawn: Result<T, EngineError>,
) -> bool {
    match drawn {
        Ok(v) => r == Ok::<T, hegel_result_t>(v) && ctx@ == Seq::<char>::empty(),
        Err(e) => r == Err::<T, hegel_result_t>(engine_fault(e).code) && ctx@ == shown(
            engine_fault(e).message,
        ),
    }
}

/// Tells of what a draw gave.
pub fn tell<T>(ctx: &mut HegelContext, drawn: Result<T, EngineError>) -> (r: Result<
    T,
    hegel_result_t,
>)
    requires
        old(ctx)@ == Seq::<char>::empty(),
    ensures
        told(*final(ctx), r, drawn),
{
    match drawn {
        Ok(v) => Ok(v),
        Err(e) => Err(translate_ds_error(ctx, e)),
    }
}

/// Whether nothing happened to a test case.
pub open spec fn untouched<D: Distributions, O: DataObserver>(
    family: FamilyShared,
    old_family: FamilyShared,
    stream: NativeTestCase<D, O>,
    old_stream: NativeTestCase<D, O>,
) -> bool {
    family == old_family && stream == old_stream
}

/// Whether at most what the streams share was changed.
pub open spec fn drawn_from(family: FamilyShared, old_family: FamilyShared) -> bool {
    family == (FamilyShared { core: family.core, ..old_family })
}

/// Opens a span. A test case whose spans nest too deeply becomes invalid.
pub fn hegel_start_span<D: Distributions, O: DataObserver>(
    ctx: &mut HegelContext,
    tc: Option<&HegelTestCase>,
    family: &mut FamilyShared,
    stream: &mut NativeTestCase<D, O>,
    label: u64,
) -> (r: hegel_result_t)
    ensures
        ended(*final(ctx), r, case_fault("hegel_start_span"@, tc, old(family).completed)),
        if r == hegel_result_t::HEGEL_OK {
            &&& drawn_from(*final(family), *old(family))
            &&& if old(stream).has_depth() {
                &&& final(family).core == old(family).core
                &&& final(stream).within_span(*old(stream)) == *old(stream)
                &&& final(stream).structure@ == opened(
                    old(stream).structure@,
                    old(stream).nodes@.len() as usize,
                    label,
                )
            } else {
                &&& final(family).core == old(family).core.concluded(Status::Invalid, None)
                &&& final(stream).choices() == old(stream).choices()
            }
        } else {
            untouched(*final(family), *old(family), *final(stream), *old(stream))
        },
{
    if let Err(code) = tc_guard(ctx, "hegel_start_span", tc, family.completed) {
        return code;
    }
    stream.start_span(&mut family.core, label);
    hegel_result_t::HEGEL_OK
}

/// Closes the innermost span.
pub fn hegel_stop_span<D: Distributions, O: DataObserver>(
    ctx: &mut HegelContext,
    tc: Option<&HegelTestCase>,
    family: &FamilyShared,
    stream: &mut NativeTestCase<D, O>,
    discard: bool,
) -> (r: hegel_result_t)
    ensures
        ended(*final(ctx), r, case_fault("hegel_stop_span"@, tc, family.completed)),
        if r == hegel_result_t::HEGEL_OK {
            &&& final(stream).within_span(*old(stream)) == *old(stream)
            &&& final(stream).structure@ == closed_at(
                old(stream).structure@,
                old(stream).nodes@.len() as usize,
                discard,
            )
        } else {
            *final(stream) == *old(stream)
        },
{
    if let Err(code) = tc_guard(ctx, "hegel_stop_span", tc, family.completed) {
        return code;
    }
    stream.stop_span(discard);
    hegel_result_t::HEGEL_OK
}

/// What is wrong with a call that reads a label off a name.
pub open spec fn label_fault(missing: bool, out_is_null: bool) -> Option<FaultView> {
    if missing {
        fault(hegel_result_t::HEGEL_E_INVALID_ARG, "hegel_label_from_name"@ + ": name is null"@)
    } else if out_is_null {
        fault(
            hegel_result_t::HEGEL_E_INVALID_ARG,
            "hegel_label_from_name"@ + ": out parameter is null"@,
        )
    } else {
        None
    }
}

/// The label of a generator with a name.
pub fn hegel_label_from_name(ctx: &mut HegelContext, name: Option<&[u8]>, out_is_null: bool) -> (r:
    Result<u64, hegel_result_t>)
    ensures
        gave(*final(ctx), r, label_fault(name is None, out_is_null), fnv1a(name->0@)),
{
    ctx.clear_last_error();
    match name {
        None => Err(
            ctx.fail(
                hegel_result_t::HEGEL_E_INVALID_ARG,
                "hegel_label_from_name",
                ": name is null",
            ),
        ),
        Some(name) => if out_is_null {
            Err(
                ctx.fail(
                    hegel_result_t::HEGEL_E_INVALID_ARG,
                    "hegel_label_from_name",
                    ": out parameter is null",
                ),
            )
        } else {
            Ok(label_from_bytes(name))
        },
    }
}

/// What is wrong with labels that are to be combined.
pub open spec fn combine_fault(labels_missing: bool, len: nat, out_is_null: bool) -> Option<
    FaultView,
> {
    if labels_missing && len > 0 {
        fault(
            hegel_result_t::HEGEL_E_INVALID_ARG,
            "hegel_label_combine"@ + ": labels is null"@,
        )
    } else if out_is_null {
        fault(
            hegel_result_t::HEGEL_E_INVALID_ARG,
            "hegel_label_combine"@ + ": out parameter is null"@,
        )
    } else {
        None
    }
}

/// The labels that are to be combined: `len` of them, of which none may be
/// missing.
pub fn hegel_label_combine(
    ctx: &mut HegelContext,
    labels: Option<Vec<u64>>,
    len: usize,
    out_is_null: bool,
) -> (r: Result<Vec<u64>, hegel_result_t>)
    ensures
        match combine_fault(labels is None, len as nat, out_is_null) {
            Some(f) => {
                &&& r matches Err(code) && code == f.code
                &&& final(ctx)@ == shown(f.message)
            },
            None => {
                &&& r matches Ok(v) && v@ == match labels {
                    Some(l) => if len == 0 {
                        Seq::<u64>::empty()
                    } else {
                        l@
                    },
                    None => Seq::<u64>::empty(),
                }
                &&& final(ctx)@ == Seq::<char>::empty()
            },
        },
{
    ctx.clear_last_error();
    let func: &'static str = "hegel_label_combine";
    if labels.is_none() && len > 0 {
        return Err(ctx.fail(hegel_result_t::HEGEL_E_INVALID_ARG, func, ": labels is null"));
    }
    if out_is_null {
        return Err(ctx.fail(hegel_result_t::HEGEL_E_INVALID_ARG, func, ": out parameter is null"));
    }
    match labels {
        Some(l) => if len == 0 {
            Ok(Vec::new())
        } else {
            Ok(l)
        },
        None => Ok(Vec::new()),
    }
}

/// Whether the run of a test case is known not to be deterministic.
pub fn hegel_test_case_is_nondeterministic<D: Distributions, O: DataObserver>(
    ctx: &mut HegelContext,
    tc: Option<&HegelTestCase>,
    family: &FamilyShared,
    stream: &NativeTestCase<D, O>,
    out_is_null: bool,
) -> (r: Result<bool, hegel_result_t>)
    ensures
        gave(
            *final(ctx),
            r,
            draw_fault(
                "hegel_test_case_is_nondeterministic"@,
                tc,
                family.completed,
                out_is_null,
            ),
            stream.is_nondeterministic,
        ),
{
    match draw_guard(
        ctx,
        "hegel_test_case_is_nondeterministic",
        tc,
        family.completed,
        out_is_null,
    ) {
        Ok(_) => Ok(stream.is_nondeterministic),
        Err(code) => Err(code),
    }
}

/// Whether a stream was cloned, or failed to be.
pub open spec fn stream_cloned<D: Distributions, O: DataObserver>(
    new: NativeTestCase<D, O>,
    old: NativeTestCase<D, O>,
    family: FamilyCore,
    new_family: FamilyCore,
    r: Result<usize, EngineError>,
) -> bool {
    if !old.has_room(family) {
        &&& r matches Err(e) && old.turned_away(family, e)
        &&& new_family == old.family_after(family)
        &&& new == old
    } else if old.clone_id@.len() >= family.max_clone_depth {
        &&& r == Err::<usize, EngineError>(EngineError::InvalidTestCase)
        &&& new_family == family.counted().concluded(Status::Invalid, None)
        &&& new.choices() == old.choices()
    } else {
        &&& r == Ok::<usize, EngineError>(old.clone_children@.len() as usize)
        &&& new_family == family.counted()
        &&& new.choices().len() == old.choices().len() + 1
        &&& new.clone_children@ == old.clone_children@.push(new.clone_children@.last())
        &&& new.clone_children@.last().0 == old.nodes@.len()
        &&& old.is_clone(new.clone_children@.last().1)
    }
}

/// A handle onto a clone of the stream of another handle, with the place of
/// the clone among those of the stream. It is attributed as the other handle
/// is.
pub fn hegel_test_case_clone<D: Distributions, O: DataObserver>(
    ctx: &mut HegelContext,
    tc: Option<&HegelTestCase>,
    family: &mut FamilyShared,
    stream: &mut NativeTestCase<D, O>,
    out_is_null: bool,
) -> (r: Result<(HegelTestCase, usize), hegel_result_t>)
    ensures
        match draw_fault("hegel_test_case_clone"@, tc, old(family).completed, out_is_null) {
            Some(f) => {
                &&& r matches Err(code) && code == f.code
                &&& final(ctx)@ == shown(f.message)
                &&& untouched(*final(family), *old(family), *final(stream), *old(stream))
            },
            None => {
                &&& drawn_from(*final(family), *old(family))
                &&& exists|k: Result<usize, EngineError>|
                    {
                        &&& #[trigger] stream_cloned(
                            *final(stream),
                            *old(stream),
                            old(family).core,
                            final(family).core,
                            k,
                        )
                        &&& match k {
                            Ok(k) => {
                                &&& r matches Ok((handle, place)) && place == k && handle
                                    == (HegelTestCase {
                                    busy: false,
                                    completed: false,
                                    worker: tc->0.worker,
                                })
                                &&& final(ctx)@ == Seq::<char>::empty()
                            },
                            Err(e) => {
                                &&& r matches Err(code) && code == engine_fault(e).code
                                &&& final(ctx)@ == shown(engine_fault(e).message)
                            },
                        }
                    }
            },
        },
{
    if let Err(code) = draw_guard(
        ctx,
        "hegel_test_case_clone",
        tc,
        family.completed,
        out_is_null,
    ) {
        return Err(code);
    }
    let worker: i64 = match tc {
        Some(h) => h.worker,
        None => NO_WORKER,
    };
    let cloned = stream.clone_stream(&mut family.core);
    assert(stream_cloned(*stream, *old(stream), old(family).core, family.core, cloned));
    match cloned {
        Ok(k) => Ok((handle_from_stream(worker), k)),
        Err(e) => Err(translate_ds_error(ctx, e)),
    }
}

/// What is wrong with a handle that need not be drawn from.
pub open spec fn handle_fault(func: Seq<char>, missing: bool) -> Option<FaultView> {
    if missing {
        fault(hegel_result_t::HEGEL_E_INVALID_HANDLE, func + ": test case pointer is null"@)
    } else {
        None
    }
}

/// A handle onto the same stream, attributed as the other handle is.
pub fn hegel_test_case_block(
    ctx: &mut HegelContext,
    tc: Option<&HegelTestCase>,
    out_is_null: bool,
) -> (r: Result<HegelTestCase, hegel_result_t>)
    ensures
        gave(
            *final(ctx),
            r,
            match handle_fault("hegel_test_case_block"@, tc is None) {
                Some(f) => Some(f),
                None => if out_is_null {
                    fault(
                        hegel_result_t::HEGEL_E_INVALID_ARG,
                        "hegel_test_case_block"@ + ": out parameter is null"@,
                    )
                } else {
                    None
                },
            },
            HegelTestCase { busy: false, completed: false, worker: tc->0.worker },
        ),
{
    ctx.clear_last_error();
    match tc {
        None => Err(
            ctx.fail(
                hegel_result_t::HEGEL_E_INVALID_HANDLE,
                "hegel_test_case_block",
                ": test case pointer is null",
            ),
        ),
        Some(h) => if out_is_null {
            Err(
                ctx.fail(
                    hegel_result_t::HEGEL_E_INVALID_ARG,
                    "hegel_test_case_block",
                    ": out parameter is null",
                ),
            )
        } else {
            Ok(handle_from_stream(h.worker))
        },
    }
}

/// What is said of a worker that is no index.
pub open spec fn bad_worker(worker_index: i64) -> Seq<char> {
    ": worker_index must be non-negative, got "@ + signed_decimal(worker_index as int)
}

/// Attributes the output of a handle to a worker.
pub fn hegel_test_case_set_worker(
    ctx: &mut HegelContext,
    tc: Option<&mut HegelTestCase>,
    worker_index: i64,
) -> (r: hegel_result_t)
    ensures
        ended(
            *final(ctx),
            r,
            match handle_fault("hegel_test_case_set_worker"@, tc is None) {
                Some(f) => Some(f),
                None => if worker_index < 0 {
                    fault(
                        hegel_result_t::HEGEL_E_INVALID_ARG,
                        "hegel_test_case_set_worker"@ + bad_worker(worker_index),
                    )
                } else {
                    None
                },
            },
        ),
        match tc {
            Some(h) => *final(h) == if worker_index < 0 {
                *h
            } else {
                (HegelTestCase { worker: worker_index, ..*h })
            },
            None => true,
        },
{
    ctx.clear_last_error();
    match tc {
        None => ctx.fail(
            hegel_result_t::HEGEL_E_INVALID_HANDLE,
            "hegel_test_case_set_worker",
            ": test case pointer is null",
        ),
        Some(h) => {
            if worker_index < 0 {
                let mut what = String::from_str(": worker_index must be non-negative, got ");
                append_integer(&mut what, &BigInt::from_i64(worker_index));
                return ctx.fail(
                    hegel_result_t::HEGEL_E_INVALID_ARG,
                    "hegel_test_case_set_worker",
                    what.as_str(),
                );
            }
            h.worker = worker_index;
            hegel_result_t::HEGEL_OK
        },
    }
}

/// The three digits of a number of thousandths.
pub open spec fn thousandths(n: nat) -> Seq<char> {
    if n < 10 {
        "00"@ + decimal(n)
    } else if n < 100 {
        "0"@ + decimal(n)
    } else {
        decimal(n)
    }
}

/// Who the lines of a handle are attributed to, and when the test case
/// started.
#[derive(Clone, Copy, Debug, PartialEq, Eq, Structural)]
pub struct Attribution {
    /// The worker.
    pub worker: i64,
    /// How many microseconds ago the test case started, or zero without a
    /// clock.
    pub elapsed_micros: u64,
}

impl Attribution {
    /// What a line of the worker begins with.
    pub open spec fn prefix(self) -> Option<Seq<char>> {
        if self.worker == NO_WORKER {
            None
        } else {
            Some(
                "[worker "@ + signed_decimal(self.worker as int) + " +"@ + decimal(
                    (self.elapsed_micros / 1000) as nat,
                ) + "."@ + thousandths((self.elapsed_micros % 1000) as nat) + "ms] "@,
            )
        }
    }

    /// What a line begins with: `[worker N +X.XXXms] `, or nothing while no
    /// worker is set.
    pub fn line_prefix(&self) -> (r: Option<String>)
        ensures
            match self.prefix() {
                Some(p) => r matches Some(s) && s@ == p,
                None => r is None,
            },
    {
        if self.worker == NO_WORKER {
            return None;
        }
        let mut s = String::from_str("[worker ");
        append_integer(&mut s, &BigInt::from_i64(self.worker));
        s.append(" +");
        append_natural(&mut s, &BigUint::from_u128((self.elapsed_micros / 1000) as u128));
        s.append(".");
        let rest: u64 = self.elapsed_micros % 1000;
        let ghost before = s@;
        if rest < 10 {
            s.append("00");
        } else if rest < 100 {
            s.append("0");
        }
        append_natural(&mut s, &BigUint::from_u128(rest as u128));
        assert(s@ =~= before + thousandths(rest as nat));
        s.append("ms] ");
        Some(s)
    }
}

/// Where a failure is said to have happened when nothing is said of it.
pub open spec fn unknown_origin() -> Seq<char> {
    "Panic at <unknown>"@
}

/// What is wrong with a completion.
pub open spec fn completion_fault(
    missing: bool,
    completed: bool,
    status: u32,
    origin: TextArgView,
) -> Option<FaultView> {
    if missing {
        handle_fault("hegel_mark_complete"@, missing)
    } else if completed {
        fault(hegel_result_t::HEGEL_E_ALREADY_COMPLETE, Seq::empty())
    } else if status == 3 && origin is NotUtf8 {
        fault(
            hegel_result_t::HEGEL_E_INVALID_ARG,
            "hegel_mark_complete"@ + ": origin is not valid UTF-8"@,
        )
    } else if status > 3 {
        fault(
            hegel_result_t::HEGEL_E_INVALID_ARG,
            "hegel_mark_complete"@ + (": unknown status "@ + decimal(status as nat)),
        )
    } else {
        None
    }
}

/// Whether a result is the one that a number stands for.
pub open spec fn is_outcome(outcome: TestCaseResult, status: u32, origin: TextArgView) -> bool {
    match outcome {
        TestCaseResult::Valid => status == 0,
        TestCaseResult::Invalid => status == 1,
        TestCaseResult::Overrun => status == 2,
        TestCaseResult::Interesting(f) => {
            &&& status == 3
            &&& f.reproduce_blob is None
            &&& f.origin@ == match origin {
                TextArgView::Text(t) => t,
                _ => unknown_origin(),
            }
        },
    }
}

/// Completes a test case.
///
/// A handle completes it once. The first of all handles decides on the
/// outcome.
pub fn hegel_mark_complete(
    ctx: &mut HegelContext,
    tc: Option<&mut HegelTestCase>,
    family: &mut FamilyShared,
    status: u32,
    origin: &TextArg,
) -> (r: hegel_result_t)
    ensures
        ended(
            *final(ctx),
            r,
            completion_fault(
                tc is None,
                match tc {
                    Some(h) => h.completed,
                    None => false,
                },
                status,
                origin@,
            ),
        ),
        if r == hegel_result_t::HEGEL_OK {
            exists|outcome: TestCaseResult, o: Option<InterestingOrigin>|
                {
                    &&& is_outcome(outcome, status, origin@)
                    &&& *final(family) == #[trigger] old(family).after(outcome, o)
                    &&& match outcome {
                        TestCaseResult::Interesting(f) => o matches Some(o) && o@ == f.origin@,
                        _ => o is None,
                    }
                }
        } else {
            *final(family) == *old(family)
        },
        match tc {
            Some(h) => *final(h) == if r == hegel_result_t::HEGEL_OK {
                (HegelTestCase { completed: true, ..*h })
            } else {
                *h
            },
            None => true,
        },
{
    ctx.clear_last_error();
    let h = match tc {
        Some(h) => h,
        None => {
            return ctx.fail(
                hegel_result_t::HEGEL_E_INVALID_HANDLE,
                "hegel_mark_complete",
                ": test case pointer is null",
            );
        },
    };
    if h.completed {
        return hegel_result_t::HEGEL_E_ALREADY_COMPLETE;
    }
    let outcome = if status == 0 {
        TestCaseResult::Valid
    } else if status == 1 {
        TestCaseResult::Invalid
    } else if status == 2 {
        TestCaseResult::Overrun
    } else if status == 3 {
        let origin: String = match origin {
            TextArg::Null => String::from_str("Panic at <unknown>"),
            TextArg::Text(t) => t.clone(),
            TextArg::NotUtf8 => {
                return ctx.fail(
                    hegel_result_t::HEGEL_E_INVALID_ARG,
                    "hegel_mark_complete",
                    ": origin is not valid UTF-8",
                );
            },
        };
        TestCaseResult::Interesting(Failure { origin, reproduce_blob: None })
    } else {
        let mut what = String::from_str(": unknown status ");
        append_natural(&mut what, &BigUint::from_u128(status as u128));
        return ctx.fail(
            hegel_result_t::HEGEL_E_INVALID_ARG,
            "hegel_mark_complete",
            what.as_str(),
        );
    };
    h.completed = true;
    family.complete(&outcome);
    hegel_result_t::HEGEL_OK
}

} // verus!
