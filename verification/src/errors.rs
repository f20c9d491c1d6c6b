//! The error types of the engine.
use vstd::prelude::*;
use vstd::string::StringExecFns;

verus! {

/// A violated internal invariant: a bug in the engine, never in a test.
#[derive(Debug)]
pub struct InternalError {
    /// What was violated.
    pub message: String,
}

impl View for InternalError {
    type V = Seq<char>;

    open spec fn view(&self) -> Seq<char> {
        self.message@
    }
}

impl Clone for InternalError {
    fn clone(&self) -> (r: Self)
        ensures
            r@ == self@,
    {
        InternalError { message: self.message.clone() }
    }
}

/// What every internal error says after its own words.
pub open spec fn bug_notice() -> Seq<char> {
    " (this is a bug in hegel, please report it)"@
}

impl InternalError {
    /// An internal error that says `what`.
    pub fn new(what: &str) -> (r: Self)
        ensures
            r@ == what@ + bug_notice(),
    {
        let mut message = String::from_str(what);
        message.append(" (this is a bug in hegel, please report it)");
        InternalError { message }
    }

    /// The message.
    pub fn to_message(&self) -> (r: String)
        ensures
            r@ == self@,
    {
        self.message.clone()
    }
}

/// The verdict on one test case.
#[derive(Clone, Copy, Debug, PartialEq, Eq, Structural)]
pub enum Status {
    /// The case ran out of data.
    EarlyStop,
    /// The case broke an assumption.
    Invalid,
    /// The case passed.
    Valid,
    /// The case failed.
    Interesting,
}

/// What identifies the failure of an interesting test case.
#[derive(Debug)]
pub struct InterestingOrigin {
    /// Where and how the test case failed.
    pub description: String,
}

impl View for InterestingOrigin {
    type V = Seq<char>;

    open spec fn view(&self) -> Seq<char> {
        self.description@
    }
}

impl Clone for InterestingOrigin {
    fn clone(&self) -> (r: Self)
        ensures
            r@ == self@,
    {
        InterestingOrigin { description: self.description.clone() }
    }
}

/// Why a draw gave no value.
#[derive(Debug)]
pub enum EngineError {
    /// The test case ran out of data, or has already concluded.
    Overrun,
    /// The test case has been marked invalid.
    InvalidTestCase,
    /// The request was malformed.
    InvalidArgument(String),
    /// The engine broke one of its own invariants.
    Internal(InternalError),
}

impl EngineError {
    /// The internal error that says `what`.
    pub fn internal(what: &str) -> (r: Self)
        ensures
            r is Internal,
            r->Internal_0@ == what@ + bug_notice(),
    {
        EngineError::Internal(InternalError::new(what))
    }

    /// The error as a message.
    pub fn to_message(&self) -> (r: String)
        ensures
            r@ == match self {
                EngineError::Overrun => "test case overrun"@,
                EngineError::InvalidTestCase => "invalid test case"@,
                EngineError::InvalidArgument(m) => m@,
                EngineError::Internal(e) => e@,
            },
    {
        match self {
            EngineError::Overrun => String::from_str("test case overrun"),
            EngineError::InvalidTestCase => String::from_str("invalid test case"),
            EngineError::InvalidArgument(m) => m.clone(),
            EngineError::Internal(e) => e.to_message(),
        }
    }
}

/// A failure of a whole run.
#[derive(Debug)]
pub enum RunError {
    /// The engine broke one of its own invariants.
    Internal(InternalError),
    /// The embedding could not execute a test case.
    Backend(String),
}

} // verus!
