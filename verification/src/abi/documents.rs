//! What is printed to a document. A call is made out to be one thing that is
//! asked of the document, or refused; what the document answers is told in the
//! same terms.

use crate::abi::cases::size_arg;
use crate::abi::cases::Attribution;
use crate::abi::cases::HegelTestCase;
use crate::abi::cases::handle_fault;
use crate::abi::ended;
use crate::abi::fault;
use crate::abi::gave;
use crate::abi::hegel_result_t;
use crate::abi::printing::buffer_fault;
use crate::abi::printing::buffer_text;
use crate::abi::printing::indent_arg;
use crate::abi::printing::line_fault;
use crate::abi::printing::note_text_arg;
use crate::abi::printing::printer_fault;
use crate::abi::printing::printer_guard;
use crate::abi::printing::printer_text_arg;
use crate::abi::printing::root_fault;
use crate::abi::printing::root_guard;
use crate::abi::printing::translate_printer_error;
use crate::abi::printing::HegelPrinter;
use crate::abi::printing::PrinterError;
use crate::abi::printing::PrinterTarget;
use crate::abi::shown;
use crate::abi::strings::first_fault;
use crate::abi::values::size_of;
use crate::abi::FaultView;
use crate::abi::HegelContext;
use crate::abi::TextArg;
use crate::abi::TextArgView;
use vstd::prelude::*;

verus! {

/// What is asked of a document.
#[derive(Debug)]
pub enum PrinterOp {
    /// To print a text.
    Text(String),
    /// To print a text where the innermost group is broken over lines.
    IfBreak(String),
    /// To print a text, or a new line in its place.
    Breakable(String),
    /// To print a comment.
    Comment(String),
    /// To begin a new line.
    HardBreak,
    /// To begin a group that is indented, with a text.
    BeginGroup(usize, String),
    /// To end a group, with a text.
    EndGroup(String),
    /// To change the indentation.
    ShiftIndent(isize),
    /// To begin something that may be taken back.
    BeginSpeculative,
    /// To keep it.
    CommitSpeculative,
    /// To take it back.
    AbortSpeculative,
    /// To settle what is still open.
    Resolve,
}

/// The view of what is asked of a document.
pub enum PrinterOpView {
    Text(Seq<char>),
    IfBreak(Seq<char>),
    Breakable(Seq<char>),
    Comment(Seq<char>),
    HardBreak,
    BeginGroup(usize, Seq<char>),
    EndGroup(Seq<char>),
    ShiftIndent(int),
    BeginSpeculative,
    CommitSpeculative,
    AbortSpeculative,
    Resolve,
}

impl View for PrinterOp {
    type V = PrinterOpView;

    open spec fn view(&self) -> PrinterOpView {
        match *self {
            PrinterOp::Text(t) => PrinterOpView::Text(t@),
            PrinterOp::IfBreak(t) => PrinterOpView::IfBreak(t@),
            PrinterOp::Breakable(t) => PrinterOpView::Breakable(t@),
            PrinterOp::Comment(t) => PrinterOpView::Comment(t@),
            PrinterOp::HardBreak => PrinterOpView::HardBreak,
            PrinterOp::BeginGroup(n, t) => PrinterOpView::BeginGroup(n, t@),
            PrinterOp::EndGroup(t) => PrinterOpView::EndGroup(t@),
            PrinterOp::ShiftIndent(d) => PrinterOpView::ShiftIndent(d as int),
            PrinterOp::BeginSpeculative => PrinterOpView::BeginSpeculative,
            PrinterOp::CommitSpeculative => PrinterOpView::CommitSpeculative,
            PrinterOp::AbortSpeculative => PrinterOpView::AbortSpeculative,
            PrinterOp::Resolve => PrinterOpView::Resolve,
        }
    }
}

impl PrinterOp {
    /// Whether what is asked puts something on a line that is attributed to a
    /// worker.
    pub open spec fn stamps(self) -> bool {
        self is Text || self is IfBreak || self is BeginGroup || self is EndGroup
    }

    /// What a line is stamped with before it is done.
    pub fn stamp(&self, printer: &HegelPrinter, now: &Attribution, at_line_start: bool) -> (r:
        Option<String>)
        ensures
            if self.stamps() && printer.attributed && at_line_start {
                match now.prefix() {
                    Some(p) => r matches Some(s) && s@ == p,
                    None => r is None,
                }
            } else {
                r is None
            },
    {
        match self {
            PrinterOp::Text(_) | PrinterOp::IfBreak(_) | PrinterOp::BeginGroup(_, _)
            | PrinterOp::EndGroup(_) => printer.record(now, at_line_start),
            _ => None,
        }
    }
}

/// Whether a call was made out to be one thing that is asked, or refused.
pub open spec fn asked(
    ctx: HegelContext,
    r: Result<PrinterOp, hegel_result_t>,
    fault: Option<FaultView>,
    op: PrinterOpView,
) -> bool {
    match fault {
        Some(f) => r == Err::<PrinterOp, hegel_result_t>(f.code) && ctx@ == shown(f.message),
        None => (r matches Ok(o) && o@ == op) && ctx@ == Seq::<char>::empty(),
    }
}

/// What is wrong with a call that prints one line of text.
pub open spec fn text_op_fault(
    func: Seq<char>,
    name: Seq<char>,
    printer: Option<&HegelPrinter>,
    arg: TextArgView,
    len: usize,
) -> Option<FaultView> {
    first_fault(printer_fault(func, printer), line_fault(func, name, arg, len))
}

/// Reads the text of a call that prints one line of text.
fn text_op(
    ctx: &mut HegelContext,
    func: &str,
    name: &str,
    printer: Option<&HegelPrinter>,
    arg: &TextArg,
    len: usize,
) -> (r: Result<String, hegel_result_t>)
    ensures
        match text_op_fault(func@, name@, printer, arg@, len) {
            Some(f) => r == Err::<String, hegel_result_t>(f.code) && final(ctx)@ == shown(
                f.message,
            ),
            None => (r matches Ok(t) && t@ == buffer_text(arg@)) && final(ctx)@ == Seq::<
                char,
            >::empty(),
        },
{
    if let Err(code) = printer_guard(ctx, func, printer) {
        return Err(code);
    }
    printer_text_arg(ctx, func, name, arg, len)
}

/// Prints a text.
pub fn hegel_printer_text(
    ctx: &mut HegelContext,
    printer: Option<&HegelPrinter>,
    text: &TextArg,
    len: usize,
) -> (r: Result<PrinterOp, hegel_result_t>)
    ensures
        asked(
            *final(ctx),
            r,
            text_op_fault("hegel_printer_text"@, "text"@, printer, text@, len),
            PrinterOpView::Text(buffer_text(text@)),
        ),
{
    match text_op(ctx, "hegel_printer_text", "text", printer, text, len) {
        Ok(t) => Ok(PrinterOp::Text(t)),
        Err(code) => Err(code),
    }
}

/// Prints a text where the innermost group is broken over lines.
pub fn hegel_printer_if_break(
    ctx: &mut HegelContext,
    printer: Option<&HegelPrinter>,
    text: &TextArg,
    len: usize,
) -> (r: Result<PrinterOp, hegel_result_t>)
    ensures
        asked(
            *final(ctx),
            r,
            text_op_fault("hegel_printer_if_break"@, "text"@, printer, text@, len),
            PrinterOpView::IfBreak(buffer_text(text@)),
        ),
{
    match text_op(ctx, "hegel_printer_if_break", "text", printer, text, len) {
        Ok(t) => Ok(PrinterOp::IfBreak(t)),
        Err(code) => Err(code),
    }
}

/// Prints a text, or a new line in its place.
pub fn hegel_printer_breakable(
    ctx: &mut HegelContext,
    printer: Option<&HegelPrinter>,
    sep: &TextArg,
    len: usize,
) -> (r: Result<PrinterOp, hegel_result_t>)
    ensures
        asked(
            *final(ctx),
            r,
            text_op_fault("hegel_printer_breakable"@, "sep"@, printer, sep@, len),
            PrinterOpView::Breakable(buffer_text(sep@)),
        ),
{
    match text_op(ctx, "hegel_printer_breakable", "sep", printer, sep, len) {
        Ok(t) => Ok(PrinterOp::Breakable(t)),
        Err(code) => Err(code),
    }
}

/// Prints a comment.
pub fn hegel_printer_comment(
    ctx: &mut HegelContext,
    printer: Option<&HegelPrinter>,
    text: &TextArg,
    len: usize,
) -> (r: Result<PrinterOp, hegel_result_t>)
    ensures
        asked(
            *final(ctx),
            r,
            text_op_fault("hegel_printer_comment"@, "text"@, printer, text@, len),
            PrinterOpView::Comment(buffer_text(text@)),
        ),
{
    match text_op(ctx, "hegel_printer_comment", "text", printer, text, len) {
        Ok(t) => Ok(PrinterOp::Comment(t)),
        Err(code) => Err(code),
    }
}

/// Begins a group.
pub fn hegel_printer_begin_group(
    ctx: &mut HegelContext,
    printer: Option<&HegelPrinter>,
    indent: u64,
    open_text: &TextArg,
    open_len: usize,
) -> (r: Result<PrinterOp, hegel_result_t>)
    ensures
        asked(
            *final(ctx),
            r,
            text_op_fault("hegel_printer_begin_group"@, "open"@, printer, open_text@, open_len),
            PrinterOpView::BeginGroup(size_of(indent), buffer_text(open_text@)),
        ),
{
    match text_op(ctx, "hegel_printer_begin_group", "open", printer, open_text, open_len) {
        Ok(t) => Ok(PrinterOp::BeginGroup(size_arg(indent), t)),
        Err(code) => Err(code),
    }
}

/// Ends a group.
pub fn hegel_printer_end_group(
    ctx: &mut HegelContext,
    printer: Option<&HegelPrinter>,
    close: &TextArg,
    close_len: usize,
) -> (r: Result<PrinterOp, hegel_result_t>)
    ensures
        asked(
            *final(ctx),
            r,
            text_op_fault("hegel_printer_end_group"@, "close"@, printer, close@, close_len),
            PrinterOpView::EndGroup(buffer_text(close@)),
        ),
{
    match text_op(ctx, "hegel_printer_end_group", "close", printer, close, close_len) {
        Ok(t) => Ok(PrinterOp::EndGroup(t)),
        Err(code) => Err(code),
    }
}

/// Begins a new line.
pub fn hegel_printer_hard_break(ctx: &mut HegelContext, printer: Option<&HegelPrinter>) -> (r:
    Result<PrinterOp, hegel_result_t>)
    ensures
        asked(
            *final(ctx),
            r,
            printer_fault("hegel_printer_hard_break"@, printer),
            PrinterOpView::HardBreak,
        ),
{
    match printer_guard(ctx, "hegel_printer_hard_break", printer) {
        Ok(_) => Ok(PrinterOp::HardBreak),
        Err(code) => Err(code),
    }
}

/// How far an indentation shifts, brought into the range of a size.
pub open spec fn shift_of(delta: i64) -> int {
    if delta < isize::MIN {
        isize::MIN as int
    } else if delta > isize::MAX {
        isize::MAX as int
    } else {
        delta as int
    }
}

/// Changes the indentation.
pub fn hegel_printer_shift_indent(
    ctx: &mut HegelContext,
    printer: Option<&HegelPrinter>,
    delta: i64,
) -> (r: Result<PrinterOp, hegel_result_t>)
    ensures
        asked(
            *final(ctx),
            r,
            printer_fault("hegel_printer_shift_indent"@, printer),
            PrinterOpView::ShiftIndent(shift_of(delta)),
        ),
{
    match printer_guard(ctx, "hegel_printer_shift_indent", printer) {
        Ok(_) => Ok(PrinterOp::ShiftIndent(indent_arg(delta))),
        Err(code) => Err(code),
    }
}

/// Begins something that may be taken back.
pub fn hegel_printer_begin_speculative(
    ctx: &mut HegelContext,
    printer: Option<&HegelPrinter>,
) -> (r: Result<PrinterOp, hegel_result_t>)
    ensures
        asked(
            *final(ctx),
            r,
            printer_fault("hegel_printer_begin_speculative"@, printer),
            PrinterOpView::BeginSpeculative,
        ),
{
    match printer_guard(ctx, "hegel_printer_begin_speculative", printer) {
        Ok(_) => Ok(PrinterOp::BeginSpeculative),
        Err(code) => Err(code),
    }
}

/// Keeps what may be taken back.
pub fn hegel_printer_commit_speculative(
    ctx: &mut HegelContext,
    printer: Option<&HegelPrinter>,
) -> (r: Result<PrinterOp, hegel_result_t>)
    ensures
        asked(
            *final(ctx),
            r,
            printer_fault("hegel_printer_commit_speculative"@, printer),
            PrinterOpView::CommitSpeculative,
        ),
{
    match printer_guard(ctx, "hegel_printer_commit_speculative", printer) {
        Ok(_) => Ok(PrinterOp::CommitSpeculative),
        Err(code) => Err(code),
    }
}

/// Takes back what may be taken back.
pub fn hegel_printer_abort_speculative(
    ctx: &mut HegelContext,
    printer: Option<&HegelPrinter>,
) -> (r: Result<PrinterOp, hegel_result_t>)
    ensures
        asked(
            *final(ctx),
            r,
            printer_fault("hegel_printer_abort_speculative"@, printer),
            PrinterOpView::AbortSpeculative,
        ),
{
    match printer_guard(ctx, "hegel_printer_abort_speculative", printer) {
        Ok(_) => Ok(PrinterOp::AbortSpeculative),
        Err(code) => Err(code),
    }
}

/// Settles what is still open in a whole document.
pub fn hegel_printer_resolve(ctx: &mut HegelContext, printer: Option<&HegelPrinter>) -> (r: Result<
    PrinterOp,
    hegel_result_t,
>)
    ensures
        asked(
            *final(ctx),
            r,
            root_fault("hegel_printer_resolve"@, printer, false),
            PrinterOpView::Resolve,
        ),
{
    match root_guard(ctx, "hegel_printer_resolve", printer, false) {
        Ok(_) => Ok(PrinterOp::Resolve),
        Err(code) => Err(code),
    }
}

/// What went wrong where a document answers with an error.
pub open spec fn document_fault(func: Seq<char>, e: PrinterError) -> Option<FaultView> {
    match e {
        PrinterError::DeadSlot(m) => fault(
            hegel_result_t::HEGEL_E_INVALID_HANDLE,
            func + (": "@ + m@),
        ),
        PrinterError::Misuse(m) => fault(hegel_result_t::HEGEL_E_INVALID_ARG, func + (": "@ + m@)),
    }
}

/// Tells what a document answers.
pub fn document_answer(
    ctx: &mut HegelContext,
    func: &str,
    answer: Result<(), PrinterError>,
) -> (r: hegel_result_t)
    ensures
        ended(
            *final(ctx),
            r,
            match answer {
                Ok(_) => None,
                Err(e) => document_fault(func@, e),
            },
        ),
{
    match answer {
        Ok(_) => {
            ctx.clear_last_error();
            hegel_result_t::HEGEL_OK
        },
        Err(e) => translate_printer_error(ctx, func, &e),
    }
}

/// What is wrong with a call that gives something back of a region.
pub open spec fn region_fault(
    func: Seq<char>,
    printer: Option<&HegelPrinter>,
    out_is_null: bool,
) -> Option<FaultView> {
    first_fault(
        printer_fault(func, printer),
        if out_is_null {
            fault(hegel_result_t::HEGEL_E_INVALID_ARG, func + ": out parameter is null"@)
        } else {
            None
        },
    )
}

/// The region of a call that gives something back of it.
fn region(
    ctx: &mut HegelContext,
    func: &str,
    printer: Option<&HegelPrinter>,
    out_is_null: bool,
) -> (r: Result<PrinterTarget, hegel_result_t>)
    ensures
        gave(
            *final(ctx),
            r,
            region_fault(func@, printer, out_is_null),
            (printer->0).target,
        ),
{
    if let Err(code) = printer_guard(ctx, func, printer) {
        return Err(code);
    }
    if out_is_null {
        return Err(ctx.fail(hegel_result_t::HEGEL_E_INVALID_ARG, func, ": out parameter is null"));
    }
    match printer {
        Some(p) => Ok(p.target),
        None => Err(hegel_result_t::HEGEL_E_INVALID_HANDLE),
    }
}

/// The region in which a place is left open.
pub fn hegel_printer_deferred(
    ctx: &mut HegelContext,
    printer: Option<&HegelPrinter>,
    out_is_null: bool,
) -> (r: Result<PrinterTarget, hegel_result_t>)
    ensures
        gave(
            *final(ctx),
            r,
            region_fault("hegel_printer_deferred"@, printer, out_is_null),
            (printer->0).target,
        ),
{
    region(ctx, "hegel_printer_deferred", printer, out_is_null)
}

/// A handle onto the place that was left open. Its lines are attributed as
/// those of the region around it are.
pub fn deferred_answer(
    ctx: &mut HegelContext,
    printer: &HegelPrinter,
    answer: Result<u64, PrinterError>,
) -> (r: Result<HegelPrinter, hegel_result_t>)
    ensures
        gave(
            *final(ctx),
            r,
            match answer {
                Ok(_) => None,
                Err(e) => document_fault("hegel_printer_deferred"@, e),
            },
            HegelPrinter {
                target: PrinterTarget::Slot(answer->Ok_0),
                busy: false,
                attributed: printer.attributed,
            },
        ),
{
    match answer {
        Ok(slot) => {
            ctx.clear_last_error();
            Ok(
                HegelPrinter {
                    target: PrinterTarget::Slot(slot),
                    busy: false,
                    attributed: printer.attributed,
                },
            )
        },
        Err(e) => Err(translate_printer_error(ctx, "hegel_printer_deferred", &e)),
    }
}

/// The region of which it is asked whether it can still be printed to.
pub fn hegel_printer_is_live(
    ctx: &mut HegelContext,
    printer: Option<&HegelPrinter>,
    out_is_null: bool,
) -> (r: Result<PrinterTarget, hegel_result_t>)
    ensures
        gave(
            *final(ctx),
            r,
            region_fault("hegel_printer_is_live"@, printer, out_is_null),
            (printer->0).target,
        ),
{
    region(ctx, "hegel_printer_is_live", printer, out_is_null)
}

/// Lets a call through that asks for the text of a whole document.
pub fn hegel_printer_value(
    ctx: &mut HegelContext,
    printer: Option<&HegelPrinter>,
    out_is_null: bool,
) -> (r: Result<(), hegel_result_t>)
    ensures
        gave(*final(ctx), r, root_fault("hegel_printer_value"@, printer, out_is_null), ()),
{
    root_guard(ctx, "hegel_printer_value", printer, out_is_null)
}

/// The text of a whole document, where there is one.
pub fn value_answer(ctx: &mut HegelContext, answer: Result<String, PrinterError>) -> (r: Result<
    String,
    hegel_result_t,
>)
    ensures
        gave(
            *final(ctx),
            r,
            match answer {
                Ok(_) => None,
                Err(e) => document_fault("hegel_printer_value"@, e),
            },
            answer->Ok_0,
        ),
{
    match answer {
        Ok(text) => {
            ctx.clear_last_error();
            Ok(text)
        },
        Err(e) => Err(translate_printer_error(ctx, "hegel_printer_value", &e)),
    }
}

/// A note: its text, and what its lines begin with.
#[derive(Debug)]
pub struct Note {
    /// The text, which may have several lines.
    pub text: String,
    /// What each line begins with.
    pub prefix: Option<String>,
}

/// What is wrong with a note.
pub open spec fn note_fault(missing: bool, text: TextArgView, len: usize) -> Option<FaultView> {
    first_fault(
        handle_fault("hegel_note"@, missing),
        buffer_fault("hegel_note"@, "text"@, text, len),
    )
}

/// Makes out a note of the worker that a handle is attributed to.
pub fn hegel_note(
    ctx: &mut HegelContext,
    tc: Option<&HegelTestCase>,
    elapsed_micros: u64,
    text: &TextArg,
    len: usize,
) -> (r: Result<Note, hegel_result_t>)
    ensures
        match note_fault(tc is None, text@, len) {
            Some(f) => r == Err::<Note, hegel_result_t>(f.code) && final(ctx)@ == shown(f.message),
            None => {
                let now = Attribution { worker: (tc->0).worker, elapsed_micros };
                &&& final(ctx)@ == Seq::<char>::empty()
                &&& r matches Ok(n) && n.text@ == buffer_text(text@) && match now.prefix() {
                    Some(p) => n.prefix matches Some(s) && s@ == p,
                    None => n.prefix is None,
                }
            },
        },
{
    ctx.clear_last_error();
    match tc {
        None => Err(
            ctx.fail(
                hegel_result_t::HEGEL_E_INVALID_HANDLE,
                "hegel_note",
                ": test case pointer is null",
            ),
        ),
        Some(tc) => match note_text_arg(ctx, "hegel_note", "text", text, len) {
            Ok(t) => {
                let now = Attribution { worker: tc.worker, elapsed_micros };
                Ok(Note { text: t, prefix: now.line_prefix() })
            },
            Err(code) => Err(code),
        },
    }
}

/// A text is printed as it is, on one line, whoever prints it.
pub proof fn lemma_printed_text_is_one_line(
    func: Seq<char>,
    name: Seq<char>,
    printer: Option<&HegelPrinter>,
    arg: TextArgView,
    len: usize,
)
    requires
        text_op_fault(func, name, printer, arg, len) is None,
    ensures
        !buffer_text(arg).contains('\n'),
        arg matches TextArgView::Text(t) ==> buffer_text(arg) == t,
{
}

} // verus!
