//! Runs and their results.
//!
//! The caller of a run asks for one test case after the other. The engine is
//! resumed in between; what it came to is told to the run.
use crate::abi::cases::FamilyShared;
use crate::abi::cases::TestCaseResult;
use crate::abi::cstring_lossy;
use crate::abi::ended;
use crate::abi::fault;
use crate::abi::gave;
use crate::abi::hegel_result_t;
use crate::abi::settings::text_view;
use crate::abi::settings::HegelSettings;
use crate::abi::settings::TestLocation;
use crate::abi::shown;
use crate::abi::without_nul;
use crate::abi::FaultView;
use crate::abi::HegelContext;
use crate::abi::TextArg;
use crate::abi::TextArgView;
use crate::bignum::BigUint;
use crate::decimal::append_natural;
use crate::decimal::decimal;
use crate::errors::RunError;
use vstd::prelude::*;
use vstd::string::StringExecFns;

verus! {

/// A failure.
#[derive(Debug)]
pub struct Failure {
    /// What identifies the failure.
    pub origin: String,
    /// What the failing test case can be replayed from.
    pub reproduce_blob: Option<String>,
}

/// What the engine came to.
#[derive(Debug)]
pub struct TestRunResult {
    /// The failures.
    pub failures: Vec<Failure>,
    /// Whether the run turned out not to be deterministic.
    pub nondeterministic: bool,
}

/// The outcome of a run, as callers are told of it.
#[allow(non_camel_case_types)]
#[derive(Clone, Copy, Debug, PartialEq, Eq, Structural)]
pub enum hegel_run_status_t {
    HEGEL_RUN_STATUS_PASSED,
    HEGEL_RUN_STATUS_FAILED,
    HEGEL_RUN_STATUS_ERROR,
    HEGEL_RUN_STATUS_FAILED_NONDETERMINISTIC,
}

impl hegel_run_status_t {
    /// The number that callers say.
    pub open spec fn number(self) -> u32 {
        match self {
            hegel_run_status_t::HEGEL_RUN_STATUS_PASSED => 0,
            hegel_run_status_t::HEGEL_RUN_STATUS_FAILED => 1,
            hegel_run_status_t::HEGEL_RUN_STATUS_ERROR => 2,
            hegel_run_status_t::HEGEL_RUN_STATUS_FAILED_NONDETERMINISTIC => 3,
        }
    }

    /// The number that callers say.
    pub fn code(self) -> (r: u32)
        ensures
            r == self.number(),
    {
        match self {
            hegel_run_status_t::HEGEL_RUN_STATUS_PASSED => 0,
            hegel_run_status_t::HEGEL_RUN_STATUS_FAILED => 1,
            hegel_run_status_t::HEGEL_RUN_STATUS_ERROR => 2,
            hegel_run_status_t::HEGEL_RUN_STATUS_FAILED_NONDETERMINISTIC => 3,
        }
    }
}

/// A failure, as callers are told of it. There are no NULs in it.
#[derive(Debug)]
pub struct HegelFailure {
    /// What identifies the failure.
    pub origin: String,
    /// What the failing test case can be replayed from.
    pub reproduce_blob: Option<String>,
}

/// The view of a [`HegelFailure`].
pub struct FailureView {
    pub origin: Seq<char>,
    pub blob: Option<Seq<char>>,
}

impl View for HegelFailure {
    type V = FailureView;

    open spec fn view(&self) -> FailureView {
        FailureView { origin: self.origin@, blob: text_view(self.reproduce_blob) }
    }
}

/// A failure, as callers are told of it.
pub open spec fn failure_told(f: Failure) -> FailureView {
    FailureView {
        origin: without_nul(f.origin@),
        blob: match f.reproduce_blob {
            Some(b) => Some(without_nul(b@)),
            None => None,
        },
    }
}

impl HegelFailure {
    /// A failure, as callers are told of it.
    pub fn from_failure(f: &Failure) -> (r: Self)
        ensures
            r@ == failure_told(*f),
    {
        HegelFailure {
            origin: cstring_lossy(f.origin.as_str()),
            reproduce_blob: match &f.reproduce_blob {
                Some(b) => Some(cstring_lossy(b.as_str())),
                None => None,
            },
        }
    }

    /// A copy.
    pub fn copy(&self) -> (r: Self)
        ensures
            r@ == self@,
    {
        HegelFailure {
            origin: self.origin.clone(),
            reproduce_blob: match &self.reproduce_blob {
                Some(b) => Some(b.clone()),
                None => None,
            },
        }
    }
}

/// The result of a run.
#[derive(Debug)]
pub struct HegelRunResult {
    /// The failures.
    pub failures: Vec<HegelFailure>,
    /// The error that a run ended in without a verdict.
    pub error: Option<String>,
    /// Whether the run turned out not to be deterministic.
    pub nondeterministic: bool,
}

/// The view of a [`HegelRunResult`].
pub struct RunResultView {
    pub failures: Seq<FailureView>,
    pub error: Option<Seq<char>>,
    pub nondeterministic: bool,
}

impl View for HegelRunResult {
    type V = RunResultView;

    open spec fn view(&self) -> RunResultView {
        RunResultView {
            failures: self.failures@.map_values(|f: HegelFailure| f@),
            error: text_view(self.error),
            nondeterministic: self.nondeterministic,
        }
    }
}

impl RunResultView {
    /// The outcome: an error comes before everything else.
    pub open spec fn outcome(self) -> hegel_run_status_t {
        if self.error is Some {
            hegel_run_status_t::HEGEL_RUN_STATUS_ERROR
        } else if self.failures.len() == 0 {
            hegel_run_status_t::HEGEL_RUN_STATUS_PASSED
        } else if self.nondeterministic {
            hegel_run_status_t::HEGEL_RUN_STATUS_FAILED_NONDETERMINISTIC
        } else {
            hegel_run_status_t::HEGEL_RUN_STATUS_FAILED
        }
    }
}

/// The result of a run with a verdict.
pub open spec fn result_told(r: TestRunResult) -> RunResultView {
    RunResultView {
        failures: r.failures@.map_values(|f: Failure| failure_told(f)),
        error: None,
        nondeterministic: r.nondeterministic,
    }
}

/// The result of a run that ended in an error.
pub open spec fn error_told(message: Seq<char>) -> RunResultView {
    RunResultView {
        failures: Seq::empty(),
        error: Some(without_nul(message)),
        nondeterministic: false,
    }
}

impl HegelRunResult {
    /// The result of a run that ended in an error: no failures, and the
    /// message.
    pub fn from_error(message: &str) -> (r: Self)
        ensures
            r@ == error_told(message@),
    {
        let r = HegelRunResult {
            failures: Vec::new(),
            error: Some(cstring_lossy(message)),
            nondeterministic: false,
        };
        assert(r@.failures =~= Seq::empty());
        r
    }

    /// The result of a run with a verdict.
    pub fn from_result(result: &TestRunResult) -> (r: Self)
        ensures
            r@ == result_told(*result),
    {
        let mut failures: Vec<HegelFailure> = Vec::new();
        let mut i: usize = 0;
        while i < result.failures.len()
            invariant
                i <= result.failures@.len(),
                failures@.len() == i,
                forall|j: int|
                    0 <= j < i ==> (#[trigger] failures@[j])@ == failure_told(result.failures@[j]),
            decreases result.failures@.len() - i,
        {
            failures.push(HegelFailure::from_failure(&result.failures[i]));
            i = i + 1;
        }
        let r = HegelRunResult {
            failures,
            error: None,
            nondeterministic: result.nondeterministic,
        };
        assert(r@.failures =~= result_told(*result).failures);
        r
    }

    /// The outcome.
    pub fn status(&self) -> (r: hegel_run_status_t)
        ensures
            r == self@.outcome(),
    {
        if self.error.is_some() {
            hegel_run_status_t::HEGEL_RUN_STATUS_ERROR
        } else if self.failures.len() == 0 {
            hegel_run_status_t::HEGEL_RUN_STATUS_PASSED
        } else if self.nondeterministic {
            hegel_run_status_t::HEGEL_RUN_STATUS_FAILED_NONDETERMINISTIC
        } else {
            hegel_run_status_t::HEGEL_RUN_STATUS_FAILED
        }
    }

    /// A copy.
    pub fn copy(&self) -> (r: Self)
        ensures
            r@ == self@,
    {
        let mut failures: Vec<HegelFailure> = Vec::new();
        let mut i: usize = 0;
        while i < self.failures.len()
            invariant
                i <= self.failures@.len(),
                failures@.len() == i,
                forall|j: int| 0 <= j < i ==> (#[trigger] failures@[j])@ == self.failures@[j]@,
            decreases self.failures@.len() - i,
        {
            failures.push(self.failures[i].copy());
            i = i + 1;
        }
        let r = HegelRunResult {
            failures,
            error: match &self.error {
                Some(e) => Some(e.clone()),
                None => None,
            },
            nondeterministic: self.nondeterministic,
        };
        assert(r@.failures =~= self@.failures);
        r
    }
}

/// A run has passed only when it ended without an error and without failures,
/// and only then; a run that ended in an error has no failures to look at.
pub proof fn lemma_only_clean_runs_pass(r: TestRunResult, message: Seq<char>)
    ensures
        result_told(r).outcome() == hegel_run_status_t::HEGEL_RUN_STATUS_PASSED <==> r.failures@.len()
            == 0,
        result_told(r).outcome() != hegel_run_status_t::HEGEL_RUN_STATUS_ERROR,
        error_told(message).outcome() == hegel_run_status_t::HEGEL_RUN_STATUS_ERROR,
        error_told(message).failures.len() == 0,
{
}

/// A run.
pub struct HegelRun {
    /// Whether the engine may be resumed: the run has no result yet.
    pub running: bool,
    /// Whether there is a current test case.
    pub offered: bool,
    /// The result.
    pub result: Option<HegelRunResult>,
    /// Where the verdict is reported for.
    pub reporter: Option<TestLocation>,
    /// The verdict that was reported: whether the test passed.
    pub reported: Option<bool>,
}

/// What the engine came to when it was resumed.
pub enum EngineStep {
    /// It offers a test case.
    Offered,
    /// It offers none, though it should.
    Broken(String),
    /// It is done.
    Finished(Result<TestRunResult, RunError>),
}

/// What to do next.
#[derive(Clone, Copy, Debug, PartialEq, Eq, Structural)]
pub enum NextAction {
    /// Resume the engine.
    Resume,
    /// Nothing: the run is finished.
    Done,
}

/// The message of an error that a run ends in.
pub open spec fn run_error_text(e: RunError) -> Seq<char> {
    match e {
        RunError::Internal(i) => i@,
        RunError::Backend(m) => m@,
    }
}

/// The result that a step of the engine ends a run with.
pub open spec fn step_result(step: EngineStep) -> Option<RunResultView> {
    match step {
        EngineStep::Offered => None,
        EngineStep::Broken(m) => Some(error_told(m@)),
        EngineStep::Finished(Ok(r)) => Some(result_told(r)),
        EngineStep::Finished(Err(e)) => Some(error_told(run_error_text(e))),
    }
}

impl HegelRun {
    /// Whether a run has a result exactly when the engine cannot be resumed.
    pub open spec fn wf(&self) -> bool {
        self.running <==> self.result is None
    }

    /// Ends the run with a result. What is reported of it is whether the
    /// outcome is that of a run without failures.
    pub fn finish(&mut self, result: HegelRunResult)
        ensures
            final(self).wf(),
            *final(self) == (HegelRun {
                running: false,
                result: Some(result),
                reported: if old(self).reporter is Some {
                    Some(result@.outcome() == hegel_run_status_t::HEGEL_RUN_STATUS_PASSED)
                } else {
                    old(self).reported
                },
                ..*old(self)
            }),
    {
        if self.reporter.is_some() {
            self.reported = Some(
                result.status() == hegel_run_status_t::HEGEL_RUN_STATUS_PASSED,
            );
        }
        self.result = Some(result);
        self.running = false;
    }

    /// Takes notice of what the engine came to. The answer is whether there is
    /// a test case.
    pub fn step(&mut self, step: EngineStep) -> (r: bool)
        requires
            old(self).wf(),
            old(self).running,
        ensures
            final(self).wf(),
            r == (step is Offered),
            final(self).reporter == old(self).reporter,
            match step_result(step) {
                None => *final(self) == (HegelRun { offered: true, ..*old(self) }),
                Some(result) => {
                    &&& final(self).result matches Some(told) && told@ == result
                    &&& final(self).offered == old(self).offered
                    &&& old(self).reporter is Some ==> final(self).reported == Some(
                        result.outcome() == hegel_run_status_t::HEGEL_RUN_STATUS_PASSED,
                    )
                    &&& old(self).reporter is None ==> final(self).reported == old(self).reported
                },
            },
    {
        match step {
            EngineStep::Offered => {
                self.offered = true;
                true
            },
            EngineStep::Broken(message) => {
                self.finish(HegelRunResult::from_error(message.as_str()));
                false
            },
            EngineStep::Finished(Ok(result)) => {
                self.finish(HegelRunResult::from_result(&result));
                false
            },
            EngineStep::Finished(Err(e)) => {
                let message: String = match &e {
                    RunError::Internal(i) => i.to_message(),
                    RunError::Backend(m) => m.clone(),
                };
                self.finish(HegelRunResult::from_error(message.as_str()));
                false
            },
        }
    }
}

/// What is wrong with a call that starts a run.
pub open spec fn start_fault(missing: bool, out_is_null: bool) -> Option<FaultView> {
    if out_is_null {
        fault(hegel_result_t::HEGEL_E_INVALID_ARG, "hegel_run_start"@ + ": out parameter is null"@)
    } else if missing {
        fault(
            hegel_result_t::HEGEL_E_INVALID_HANDLE,
            "hegel_run_start"@ + ": settings pointer is null"@,
        )
    } else {
        None
    }
}

/// Starts a run: nothing is drawn before the first test case is asked for.
pub fn hegel_run_start(
    ctx: &mut HegelContext,
    settings: Option<&HegelSettings>,
    out_is_null: bool,
) -> (r: Result<HegelRun, hegel_result_t>)
    ensures
        match start_fault(settings is None, out_is_null) {
            Some(f) => r matches Err(code) && code == f.code && final(ctx)@ == shown(f.message),
            None => {
                &&& final(ctx)@ == Seq::<char>::empty()
                &&& r matches Ok(run) && run.wf() && run.running && !run.offered && run.reported
                    is None && match (settings->0.test_location, run.reporter) {
                    (Some(a), Some(b)) => b.same(&a),
                    (None, None) => true,
                    _ => false,
                }
            },
        },
{
    ctx.clear_last_error();
    if out_is_null {
        return Err(
            ctx.fail(
                hegel_result_t::HEGEL_E_INVALID_ARG,
                "hegel_run_start",
                ": out parameter is null",
            ),
        );
    }
    match settings {
        None => Err(
            ctx.fail(
                hegel_result_t::HEGEL_E_INVALID_HANDLE,
                "hegel_run_start",
                ": settings pointer is null",
            ),
        ),
        Some(h) => Ok(
            HegelRun {
                running: true,
                offered: false,
                result: None,
                reporter: h.reporter(),
                reported: None,
            },
        ),
    }
}

/// What is said of a test case that is not complete.
pub open spec fn not_complete() -> Seq<char> {
    ": previous test case was not marked complete (call hegel_mark_complete before requesting the next case)"@
}

/// What is wrong with asking for the next test case.
pub open spec fn next_fault(run: Option<HegelRun>, completed: bool, out_is_null: bool) -> Option<
    FaultView,
> {
    match run {
        None => fault(
            hegel_result_t::HEGEL_E_INVALID_HANDLE,
            "hegel_next_test_case"@ + ": run pointer is null"@,
        ),
        Some(run) => if out_is_null {
            fault(
                hegel_result_t::HEGEL_E_INVALID_ARG,
                "hegel_next_test_case"@ + ": out parameter is null"@,
            )
        } else if run.offered && !completed {
            fault(
                hegel_result_t::HEGEL_E_NOT_COMPLETE,
                "hegel_next_test_case"@ + not_complete(),
            )
        } else {
            None
        },
    }
}

/// Asks for the next test case. The answer says whether the engine is to be
/// resumed.
///
/// The current test case must be complete; it is given up.
pub fn hegel_next_test_case(
    ctx: &mut HegelContext,
    run: Option<&mut HegelRun>,
    completed: bool,
    out_is_null: bool,
) -> (r: Result<NextAction, hegel_result_t>)
    ensures
        gave(
            *final(ctx),
            r,
            next_fault(
                match run {
                    Some(run) => Some(*run),
                    None => None,
                },
                completed,
                out_is_null,
            ),
            match run {
                Some(run) => if run.running {
                    NextAction::Resume
                } else {
                    NextAction::Done
                },
                None => NextAction::Done,
            },
        ),
        match run {
            Some(run) => *final(run) == if r is Ok {
                (HegelRun { offered: false, ..*run })
            } else {
                *run
            },
            None => true,
        },
{
    ctx.clear_last_error();
    match run {
        None => Err(
            ctx.fail(
                hegel_result_t::HEGEL_E_INVALID_HANDLE,
                "hegel_next_test_case",
                ": run pointer is null",
            ),
        ),
        Some(run) => {
            if out_is_null {
                return Err(
                    ctx.fail(
                        hegel_result_t::HEGEL_E_INVALID_ARG,
                        "hegel_next_test_case",
                        ": out parameter is null",
                    ),
                );
            }
            if run.offered && !completed {
                return Err(
                    ctx.fail(
                        hegel_result_t::HEGEL_E_NOT_COMPLETE,
                        "hegel_next_test_case",
                        ": previous test case was not marked complete (call hegel_mark_complete before requesting the next case)",
                    ),
                );
            }
            run.offered = false;
            if run.running {
                Ok(NextAction::Resume)
            } else {
                Ok(NextAction::Done)
            }
        },
    }
}

/// What is wrong with reading the result of a run.
pub open spec fn result_fault(run: Option<&HegelRun>, out_is_null: bool) -> Option<FaultView> {
    match run {
        None => fault(
            hegel_result_t::HEGEL_E_INVALID_HANDLE,
            "hegel_run_result"@ + ": run pointer is null"@,
        ),
        Some(run) => if out_is_null {
            fault(
                hegel_result_t::HEGEL_E_INVALID_ARG,
                "hegel_run_result"@ + ": out parameter is null"@,
            )
        } else if run.result is None {
            fault(
                hegel_result_t::HEGEL_E_NOT_COMPLETE,
                "hegel_run_result"@ + ": run has not finished yet"@,
            )
        } else {
            None
        },
    }
}

/// A copy of the result of a run.
pub fn hegel_run_result(ctx: &mut HegelContext, run: Option<&HegelRun>, out_is_null: bool) -> (r:
    Result<HegelRunResult, hegel_result_t>)
    ensures
        match result_fault(run, out_is_null) {
            Some(f) => r matches Err(code) && code == f.code && final(ctx)@ == shown(f.message),
            None => r matches Ok(copy) && copy@ == run->0.result->0@ && final(ctx)@ == Seq::<
                char,
            >::empty(),
        },
{
    ctx.clear_last_error();
    match run {
        None => Err(
            ctx.fail(
                hegel_result_t::HEGEL_E_INVALID_HANDLE,
                "hegel_run_result",
                ": run pointer is null",
            ),
        ),
        Some(run) => {
            if out_is_null {
                return Err(
                    ctx.fail(
                        hegel_result_t::HEGEL_E_INVALID_ARG,
                        "hegel_run_result",
                        ": out parameter is null",
                    ),
                );
            }
            match &run.result {
                Some(result) => Ok(result.copy()),
                None => Err(
                    ctx.fail(
                        hegel_result_t::HEGEL_E_NOT_COMPLETE,
                        "hegel_run_result",
                        ": run has not finished yet",
                    ),
                ),
            }
        },
    }
}

/// Gives up a run. A test case that is still open is completed as one that
/// passed.
pub fn hegel_run_free(ctx: &mut HegelContext, current: Option<&mut FamilyShared>) -> (r:
    hegel_result_t)
    ensures
        ended(*final(ctx), r, None),
        match current {
            Some(family) => *final(family) == family.after(TestCaseResult::Valid, None),
            None => true,
        },
{
    ctx.clear_last_error();
    if let Some(family) = current {
        family.complete(&TestCaseResult::Valid);
    }
    hegel_result_t::HEGEL_OK
}

/// What is wrong with replaying a failure.
pub open spec fn blob_fault(missing: bool, out_is_null: bool, blob: TextArgView) -> Option<
    FaultView,
> {
    let func = "hegel_test_case_from_blob"@;
    if missing {
        fault(hegel_result_t::HEGEL_E_INVALID_HANDLE, func + ": settings pointer is null"@)
    } else if out_is_null {
        fault(hegel_result_t::HEGEL_E_INVALID_ARG, func + ": out parameter is null"@)
    } else if blob is Null {
        fault(hegel_result_t::HEGEL_E_INVALID_ARG, func + ": blob pointer is null"@)
    } else if blob is NotUtf8 {
        fault(hegel_result_t::HEGEL_E_INVALID_ARG, func + ": blob is not valid UTF-8"@)
    } else {
        None
    }
}

/// The blob that a failure is to be replayed from.
pub fn hegel_test_case_from_blob(
    ctx: &mut HegelContext,
    settings: Option<&HegelSettings>,
    blob: &TextArg,
    out_is_null: bool,
) -> (r: Result<String, hegel_result_t>)
    ensures
        match blob_fault(settings is None, out_is_null, blob@) {
            Some(f) => r matches Err(code) && code == f.code && final(ctx)@ == shown(f.message),
            None => r matches Ok(t) && blob@ == TextArgView::Text(t@) && final(ctx)@ == Seq::<
                char,
            >::empty(),
        },
{
    ctx.clear_last_error();
    if settings.is_none() {
        return Err(
            ctx.fail(
                hegel_result_t::HEGEL_E_INVALID_HANDLE,
                "hegel_test_case_from_blob",
                ": settings pointer is null",
            ),
        );
    }
    if out_is_null {
        return Err(
            ctx.fail(
                hegel_result_t::HEGEL_E_INVALID_ARG,
                "hegel_test_case_from_blob",
                ": out parameter is null",
            ),
        );
    }
    match blob {
        TextArg::Null => Err(
            ctx.fail(
                hegel_result_t::HEGEL_E_INVALID_ARG,
                "hegel_test_case_from_blob",
                ": blob pointer is null",
            ),
        ),
        TextArg::NotUtf8 => Err(
            ctx.fail(
                hegel_result_t::HEGEL_E_INVALID_ARG,
                "hegel_test_case_from_blob",
                ": blob is not valid UTF-8",
            ),
        ),
        TextArg::Text(t) => Ok(t.clone()),
    }
}

/// What is said of a blob that cannot be decoded.
pub open spec fn bad_blob() -> Seq<char> {
    ": the supplied failure blob could not be decoded. It may be corrupt or from an incompatible Hegel version."@
}

/// What came of decoding a blob.
pub fn blob_outcome(ctx: &mut HegelContext, decoded: bool) -> (r: hegel_result_t)
    ensures
        ended(
            *final(ctx),
            r,
            if decoded {
                None
            } else {
                fault(
                    hegel_result_t::HEGEL_E_INVALID_ARG,
                    "hegel_test_case_from_blob"@ + bad_blob(),
                )
            },
        ),
{
    ctx.clear_last_error();
    if decoded {
        hegel_result_t::HEGEL_OK
    } else {
        ctx.fail(
            hegel_result_t::HEGEL_E_INVALID_ARG,
            "hegel_test_case_from_blob",
            ": the supplied failure blob could not be decoded. It may be corrupt or from an incompatible Hegel version.",
        )
    }
}

/// What is wrong with reading from something.
pub open spec fn getter_fault(func: Seq<char>, what: Seq<char>, missing: bool, out_is_null: bool) -> Option<
    FaultView,
> {
    if missing {
        fault(hegel_result_t::HEGEL_E_INVALID_HANDLE, func + what)
    } else if out_is_null {
        fault(hegel_result_t::HEGEL_E_INVALID_ARG, func + ": out parameter is null"@)
    } else {
        None
    }
}

/// Lets a call through that reads from something.
fn getter_guard(
    ctx: &mut HegelContext,
    func: &str,
    what: &str,
    missing: bool,
    out_is_null: bool,
) -> (r: Result<(), hegel_result_t>)
    ensures
        gave(*final(ctx), r, getter_fault(func@, what@, missing, out_is_null), ()),
{
    ctx.clear_last_error();
    if missing {
        Err(ctx.fail(hegel_result_t::HEGEL_E_INVALID_HANDLE, func, what))
    } else if out_is_null {
        Err(ctx.fail(hegel_result_t::HEGEL_E_INVALID_ARG, func, ": out parameter is null"))
    } else {
        Ok(())
    }
}

/// The outcome of a run.
pub fn hegel_run_result_status(
    ctx: &mut HegelContext,
    r: Option<&HegelRunResult>,
    out_is_null: bool,
) -> (out: Result<hegel_run_status_t, hegel_result_t>)
    ensures
        gave(
            *final(ctx),
            out,
            getter_fault(
                "hegel_run_result_status"@,
                ": result pointer is null"@,
                r is None,
                out_is_null,
            ),
            r->0@.outcome(),
        ),
{
    match getter_guard(
        ctx,
        "hegel_run_result_status",
        ": result pointer is null",
        r.is_none(),
        out_is_null,
    ) {
        Ok(_) => match r {
            Some(r) => Ok(r.status()),
            None => Err(hegel_result_t::HEGEL_E_INVALID_HANDLE),
        },
        Err(code) => Err(code),
    }
}

/// The message of the error that a run ended in.
pub fn hegel_run_result_error(
    ctx: &mut HegelContext,
    r: Option<&HegelRunResult>,
    out_is_null: bool,
) -> (out: Result<Option<String>, hegel_result_t>)
    ensures
        match getter_fault(
            "hegel_run_result_error"@,
            ": result pointer is null"@,
            r is None,
            out_is_null,
        ) {
            Some(f) => out matches Err(code) && code == f.code && final(ctx)@ == shown(f.message),
            None => out matches Ok(t) && text_view(t) == r->0@.error && final(ctx)@ == Seq::<
                char,
            >::empty(),
        },
{
    match getter_guard(
        ctx,
        "hegel_run_result_error",
        ": result pointer is null",
        r.is_none(),
        out_is_null,
    ) {
        Ok(_) => match r {
            Some(r) => Ok(
                match &r.error {
                    Some(e) => Some(e.clone()),
                    None => None,
                },
            ),
            None => Err(hegel_result_t::HEGEL_E_INVALID_HANDLE),
        },
        Err(code) => Err(code),
    }
}

/// How many failures a run has.
pub fn hegel_run_result_failure_count(
    ctx: &mut HegelContext,
    r: Option<&HegelRunResult>,
    out_is_null: bool,
) -> (out: Result<usize, hegel_result_t>)
    ensures
        gave(
            *final(ctx),
            out,
            getter_fault(
                "hegel_run_result_failure_count"@,
                ": result pointer is null"@,
                r is None,
                out_is_null,
            ),
            r->0@.failures.len() as usize,
        ),
{
    match getter_guard(
        ctx,
        "hegel_run_result_failure_count",
        ": result pointer is null",
        r.is_none(),
        out_is_null,
    ) {
        Ok(_) => match r {
            Some(r) => Ok(r.failures.len()),
            None => Err(hegel_result_t::HEGEL_E_INVALID_HANDLE),
        },
        Err(code) => Err(code),
    }
}

/// What is said of a failure that there is not.
pub open spec fn no_failure(index: usize, count: nat) -> Seq<char> {
    ": index "@ + decimal(index as nat) + " is out of range (the result has "@ + decimal(count)
        + " failures)"@
}

/// What is wrong with reading a failure of a run.
pub open spec fn failure_fault(r: Option<&HegelRunResult>, index: usize, out_is_null: bool) -> Option<
    FaultView,
> {
    let func = "hegel_run_result_failure"@;
    match getter_fault(func, ": result pointer is null"@, r is None, out_is_null) {
        Some(f) => Some(f),
        None => if index >= r->0@.failures.len() {
            fault(
                hegel_result_t::HEGEL_E_INVALID_ARG,
                func + no_failure(index, r->0@.failures.len()),
            )
        } else {
            None
        },
    }
}

/// A copy of a failure of a run.
pub fn hegel_run_result_failure(
    ctx: &mut HegelContext,
    r: Option<&HegelRunResult>,
    index: usize,
    out_is_null: bool,
) -> (out: Result<HegelFailure, hegel_result_t>)
    ensures
        match failure_fault(r, index, out_is_null) {
            Some(f) => out matches Err(code) && code == f.code && final(ctx)@ == shown(f.message),
            None => out matches Ok(copy) && copy@ == r->0@.failures[index as int] && final(ctx)@
                == Seq::<char>::empty(),
        },
{
    match getter_guard(
        ctx,
        "hegel_run_result_failure",
        ": result pointer is null",
        r.is_none(),
        out_is_null,
    ) {
        Ok(_) => match r {
            Some(r) => {
                if index >= r.failures.len() {
                    let mut what = String::from_str(": index ");
                    append_natural(&mut what, &BigUint::from_u128(index as u128));
                    what.append(" is out of range (the result has ");
                    append_natural(&mut what, &BigUint::from_u128(r.failures.len() as u128));
                    what.append(" failures)");
                    return Err(
                        ctx.fail(
                            hegel_result_t::HEGEL_E_INVALID_ARG,
                            "hegel_run_result_failure",
                            what.as_str(),
                        ),
                    );
                }
                Ok(r.failures[index].copy())
            },
            None => Err(hegel_result_t::HEGEL_E_INVALID_HANDLE),
        },
        Err(code) => Err(code),
    }
}

/// What identifies a failure.
pub fn hegel_failure_origin(ctx: &mut HegelContext, f: Option<&HegelFailure>, out_is_null: bool) -> (out:
    Result<String, hegel_result_t>)
    ensures
        match getter_fault(
            "hegel_failure_origin"@,
            ": failure pointer is null"@,
            f is None,
            out_is_null,
        ) {
            Some(e) => out matches Err(code) && code == e.code && final(ctx)@ == shown(e.message),
            None => out matches Ok(t) && t@ == f->0@.origin && final(ctx)@ == Seq::<char>::empty(),
        },
{
    match getter_guard(
        ctx,
        "hegel_failure_origin",
        ": failure pointer is null",
        f.is_none(),
        out_is_null,
    ) {
        Ok(_) => match f {
            Some(f) => Ok(f.origin.clone()),
            None => Err(hegel_result_t::HEGEL_E_INVALID_HANDLE),
        },
        Err(code) => Err(code),
    }
}

/// What a failing test case can be replayed from.
pub fn hegel_failure_reproduction_blob(
    ctx: &mut HegelContext,
    f: Option<&HegelFailure>,
    out_is_null: bool,
) -> (out: Result<Option<String>, hegel_result_t>)
    ensures
        match getter_fault(
            "hegel_failure_reproduction_blob"@,
            ": failure pointer is null"@,
            f is None,
            out_is_null,
        ) {
            Some(e) => out matches Err(code) && code == e.code && final(ctx)@ == shown(e.message),
            None => out matches Ok(t) && text_view(t) == f->0@.blob && final(ctx)@ == Seq::<
                char,
            >::empty(),
        },
{
    match getter_guard(
        ctx,
        "hegel_failure_reproduction_blob",
        ": failure pointer is null",
        f.is_none(),
        out_is_null,
    ) {
        Ok(_) => match f {
            Some(f) => Ok(
                match &f.reproduce_blob {
                    Some(b) => Some(b.clone()),
                    None => None,
                },
            ),
            None => Err(hegel_result_t::HEGEL_E_INVALID_HANDLE),
        },
        Err(code) => Err(code),
    }
}

} // verus!
