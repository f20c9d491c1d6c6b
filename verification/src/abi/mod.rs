//! The interface that other languages call the engine through.
//!
//! Every call takes a context, which keeps the message of the last error.
//! Handles that may be null are options; a null out parameter is told by a
//! flag, and what would be written to it is given back.
pub mod cases;
pub mod documents;
pub mod observations;
pub mod printing;
pub mod runs;
pub mod settings;
pub mod strings;
pub mod structures;
pub mod values;

use vstd::prelude::*;
use vstd::string::StringExecFns;
use vstd::string::StrSliceExecFns;

verus! {

/// The result of a call.
#[allow(non_camel_case_types)]
#[must_use]
#[derive(Clone, Copy, Debug, PartialEq, Eq, Structural)]
pub enum hegel_result_t {
    /// The call succeeded.
    HEGEL_OK,
    /// The test case is over; the body should unwind.
    HEGEL_E_STOP_TEST,
    /// An assumption was not met; the body should unwind.
    HEGEL_E_ASSUME,
    /// The engine failed.
    HEGEL_E_BACKEND,
    /// A handle is null.
    HEGEL_E_INVALID_HANDLE,
    /// An argument is not acceptable.
    HEGEL_E_INVALID_ARG,
    /// The test case is complete already.
    HEGEL_E_ALREADY_COMPLETE,
    /// A test case or a run is not complete yet.
    HEGEL_E_NOT_COMPLETE,
    /// The engine broke one of its own invariants.
    HEGEL_E_INTERNAL,
    /// A handle is in use on another thread.
    HEGEL_E_CONCURRENT_USE,
    /// The attempt at a recursive value has to be retried.
    HEGEL_E_RETRY,
}

impl hegel_result_t {
    /// The number of the result.
    pub open spec fn number(self) -> int {
        match self {
            hegel_result_t::HEGEL_OK => 0,
            hegel_result_t::HEGEL_E_STOP_TEST => -1,
            hegel_result_t::HEGEL_E_ASSUME => -2,
            hegel_result_t::HEGEL_E_BACKEND => -3,
            hegel_result_t::HEGEL_E_INVALID_HANDLE => -4,
            hegel_result_t::HEGEL_E_INVALID_ARG => -5,
            hegel_result_t::HEGEL_E_ALREADY_COMPLETE => -6,
            hegel_result_t::HEGEL_E_NOT_COMPLETE => -7,
            hegel_result_t::HEGEL_E_INTERNAL => -8,
            hegel_result_t::HEGEL_E_CONCURRENT_USE => -9,
            hegel_result_t::HEGEL_E_RETRY => -10,
        }
    }

    /// The number of the result.
    pub fn code(self) -> (r: i32)
        ensures
            r == self.number(),
    {
        match self {
            hegel_result_t::HEGEL_OK => 0,
            hegel_result_t::HEGEL_E_STOP_TEST => -1,
            hegel_result_t::HEGEL_E_ASSUME => -2,
            hegel_result_t::HEGEL_E_BACKEND => -3,
            hegel_result_t::HEGEL_E_INVALID_HANDLE => -4,
            hegel_result_t::HEGEL_E_INVALID_ARG => -5,
            hegel_result_t::HEGEL_E_ALREADY_COMPLETE => -6,
            hegel_result_t::HEGEL_E_NOT_COMPLETE => -7,
            hegel_result_t::HEGEL_E_INTERNAL => -8,
            hegel_result_t::HEGEL_E_CONCURRENT_USE => -9,
            hegel_result_t::HEGEL_E_RETRY => -10,
        }
    }
}

/// Results have different numbers, and only success is not negative.
pub proof fn lemma_results_are_told_apart(a: hegel_result_t, b: hegel_result_t)
    ensures
        a.number() == b.number() <==> a == b,
        a.number() >= 0 <==> a == hegel_result_t::HEGEL_OK,
{
}

/// A context: the message of the last error.
#[derive(Debug)]
pub struct HegelContext {
    /// The message, empty after a call that succeeded.
    pub last_error: String,
}

impl View for HegelContext {
    type V = Seq<char>;

    open spec fn view(&self) -> Seq<char> {
        self.last_error@
    }
}

/// What a context says of an error. A message with a NUL in it cannot be
/// handed out.
pub open spec fn shown(message: Seq<char>) -> Seq<char> {
    if message.contains('\0') {
        "error message contained NUL"@
    } else {
        message
    }
}

/// Whether a text has a NUL in it.
fn has_nul(text: &str) -> (r: bool)
    ensures
        r == text@.contains('\0'),
{
    let n: usize = text.unicode_len();
    let mut i: usize = 0;
    while i < n
        invariant
            i <= n == text@.len(),
            forall|j: int| 0 <= j < i ==> text@[j] != '\0',
        decreases n - i,
    {
        if text.get_char(i) == '\0' {
            return true;
        }
        i = i + 1;
    }
    false
}

/// A text without the NULs in it, which become replacement characters.
pub open spec fn without_nul(text: Seq<char>) -> Seq<char> {
    text.map_values(
        |c: char|
            if c == '\0' {
                '\u{FFFD}'
            } else {
                c
            },
    )
}

/// Replaces the NULs of a text.
pub fn cstring_lossy(text: &str) -> (r: String)
    ensures
        r@ == without_nul(text@),
        !r@.contains('\0'),
{
    let n: usize = text.unicode_len();
    let mut out: String = String::from_str("");
    proof {
        reveal_strlit("");
        assert(out@ =~= Seq::empty());
    }
    let mut i: usize = 0;
    while i < n
        invariant
            i <= n == text@.len(),
            out@ == without_nul(text@.take(i as int)),
        decreases n - i,
    {
        let c = text.get_char(i);
        let c = if c == '\0' {
            '\u{FFFD}'
        } else {
            c
        };
        out.push(c);
        i = i + 1;
        assert(out@ =~= without_nul(text@.take(i as int)));
    }
    assert(text@.take(n as int) =~= text@);
    out
}

/// What went wrong with a call: its result, and the message.
pub struct FaultView {
    pub code: hegel_result_t,
    pub message: Seq<char>,
}

/// A fault.
pub open spec fn fault(code: hegel_result_t, message: Seq<char>) -> Option<FaultView> {
    Some(FaultView { code, message })
}

/// Whether a call ended with a fault, or succeeded.
pub open spec fn ended(ctx: HegelContext, r: hegel_result_t, fault: Option<FaultView>) -> bool {
    match fault {
        Some(f) => r == f.code && ctx@ == shown(f.message),
        None => r == hegel_result_t::HEGEL_OK && ctx@ == Seq::<char>::empty(),
    }
}

/// Whether a call ended with a fault, or gave back a value.
pub open spec fn gave<T>(
    ctx: HegelContext,
    r: Result<T, hegel_result_t>,
    fault: Option<FaultView>,
    value: T,
) -> bool {
    match fault {
        Some(f) => r == Err::<T, hegel_result_t>(f.code) && ctx@ == shown(f.message),
        None => r == Ok::<T, hegel_result_t>(value) && ctx@ == Seq::<char>::empty(),
    }
}

impl HegelContext {
    /// A context without a message.
    pub fn new() -> (r: Self)
        ensures
            r@ == Seq::<char>::empty(),
    {
        proof {
            reveal_strlit("");
        }
        let last_error: String = String::from_str("");
        assert(last_error@ =~= Seq::empty());
        HegelContext { last_error }
    }

    /// Notes the message of an error.
    pub fn set_last_error(&mut self, message: &str)
        ensures
            final(self)@ == shown(message@),
    {
        if has_nul(message) {
            self.last_error = String::from_str("error message contained NUL");
        } else {
            self.last_error = String::from_str(message);
        }
    }

    /// Forgets the message.
    pub fn clear_last_error(&mut self)
        ensures
            final(self)@ == Seq::<char>::empty(),
    {
        proof {
            reveal_strlit("");
        }
        self.last_error = String::from_str("");
        assert(self.last_error@ =~= Seq::empty());
    }

    /// Notes the message `<func>: <what>`, and gives back the result of the
    /// call.
    pub fn fail(&mut self, code: hegel_result_t, func: &str, what: &str) -> (r: hegel_result_t)
        ensures
            r == code,
            final(self)@ == shown(func@ + what@),
    {
        let mut message: String = String::from_str(func);
        message.append(what);
        self.set_last_error(message.as_str());
        code
    }
}

/// A context without a message.
pub fn hegel_context_new() -> (r: HegelContext)
    ensures
        r@ == Seq::<char>::empty(),
{
    HegelContext::new()
}

/// The message of the last error, or nothing for a null context.
pub fn hegel_context_last_error(ctx: Option<&HegelContext>) -> (r: Option<String>)
    ensures
        match ctx {
            Some(c) => r matches Some(m) && m@ == c@,
            None => r is None,
        },
{
    match ctx {
        Some(c) => Some(c.last_error.clone()),
        None => None,
    }
}

/// A text that was handed over.
pub enum TextArg {
    /// A null pointer.
    Null,
    /// Bytes that are not UTF-8.
    NotUtf8,
    /// A text.
    Text(String),
}

/// The view of a [`TextArg`].
pub enum TextArgView {
    Null,
    NotUtf8,
    Text(Seq<char>),
}

impl View for TextArg {
    type V = TextArgView;

    open spec fn view(&self) -> TextArgView {
        match self {
            TextArg::Null => TextArgView::Null,
            TextArg::NotUtf8 => TextArgView::NotUtf8,
            TextArg::Text(t) => TextArgView::Text(t@),
        }
    }
}

/// What is wrong with a text that must be there.
pub open spec fn text_arg_fault(func: Seq<char>, name: Seq<char>, arg: TextArgView) -> Option<
    FaultView,
> {
    match arg {
        TextArgView::Null => fault(
            hegel_result_t::HEGEL_E_INVALID_ARG,
            func + ": "@ + name + " is null"@,
        ),
        TextArgView::NotUtf8 => fault(
            hegel_result_t::HEGEL_E_INVALID_ARG,
            func + ": "@ + name + " is not valid UTF-8"@,
        ),
        TextArgView::Text(_) => None,
    }
}

/// The text of an argument that must be there.
pub fn required_utf8_arg(ctx: &mut HegelContext, func: &str, name: &str, arg: &TextArg) -> (r:
    Result<String, hegel_result_t>)
    ensures
        match text_arg_fault(func@, name@, arg@) {
            Some(f) => r == Err::<String, hegel_result_t>(f.code) && final(ctx)@ == shown(
                f.message,
            ),
            None => r matches Ok(t) && arg@ == TextArgView::Text(t@) && *final(ctx) == *old(ctx),
        },
{
    match arg {
        TextArg::Text(t) => Ok(t.clone()),
        TextArg::Null => {
            let what = named(func, name, " is null");
            ctx.set_last_error(what.as_str());
            Err(hegel_result_t::HEGEL_E_INVALID_ARG)
        },
        TextArg::NotUtf8 => {
            let what = named(func, name, " is not valid UTF-8");
            ctx.set_last_error(what.as_str());
            Err(hegel_result_t::HEGEL_E_INVALID_ARG)
        },
    }
}

/// The text `<func>: <name><rest>`.
fn named(func: &str, name: &str, rest: &str) -> (r: String)
    ensures
        r@ == func@ + ": "@ + name@ + rest@,
{
    let mut s = String::from_str(func);
    s.append(": ");
    s.append(name);
    s.append(rest);
    s
}

/// The text of an argument that may be left out.
pub fn optional_utf8_arg(ctx: &mut HegelContext, func: &str, name: &str, arg: &TextArg) -> (r:
    Result<Option<String>, hegel_result_t>)
    ensures
        match arg@ {
            TextArgView::Null => r matches Ok(None) && *final(ctx) == *old(ctx),
            TextArgView::NotUtf8 => r matches Err(code) && code
                == hegel_result_t::HEGEL_E_INVALID_ARG && final(ctx)@ == shown(
                func@ + ": "@ + name@ + " is not valid UTF-8"@,
            ),
            TextArgView::Text(t) => r matches Ok(Some(s)) && s@ == t && *final(ctx) == *old(ctx),
        },
{
    match arg {
        TextArg::Null => Ok(None),
        TextArg::Text(t) => Ok(Some(t.clone())),
        TextArg::NotUtf8 => {
            let what = named(func, name, " is not valid UTF-8");
            ctx.set_last_error(what.as_str());
            Err(hegel_result_t::HEGEL_E_INVALID_ARG)
        },
    }
}

} // verus!
