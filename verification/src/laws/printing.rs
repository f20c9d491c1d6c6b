//! Printing: what is asked of a document is what its caller prints.
use crate::abi::documents::deferred_answer;
use crate::abi::documents::document_answer;
use crate::abi::documents::hegel_note;
use crate::abi::documents::hegel_printer_abort_speculative;
use crate::abi::documents::hegel_printer_begin_group;
use crate::abi::documents::hegel_printer_begin_speculative;
use crate::abi::documents::hegel_printer_breakable;
use crate::abi::documents::hegel_printer_comment;
use crate::abi::documents::hegel_printer_commit_speculative;
use crate::abi::documents::hegel_printer_end_group;
use crate::abi::documents::hegel_printer_hard_break;
use crate::abi::documents::hegel_printer_if_break;
use crate::abi::documents::hegel_printer_resolve;
use crate::abi::documents::hegel_printer_shift_indent;
use crate::abi::documents::hegel_printer_text;
use crate::abi::documents::value_answer;
use crate::abi::documents::Note;
use crate::abi::documents::PrinterOp;
use crate::abi::cases::HegelTestCase;
use crate::abi::hegel_result_t;
use crate::abi::printing::hegel_printer_options_set_max_width;
use crate::abi::printing::HegelPrinter;
use crate::abi::printing::HegelPrinterOptions;
use crate::abi::printing::PrinterError;
use crate::abi::printing::PrinterTarget;
use crate::abi::HegelContext;
use crate::abi::TextArg;
use vstd::prelude::*;

verus! {

/// A text that is printed is handed on as it is, where it is on one line, and refused
/// where it is not.
pub proof fn lemma_texts_are_printed_as_they_are(
    printer: &HegelPrinter,
    text: &TextArg,
    len: usize,
    printed: Result<PrinterOp, hegel_result_t>,
    if_broken: Result<PrinterOp, hegel_result_t>,
    breakable: Result<PrinterOp, hegel_result_t>,
    comment: Result<PrinterOp, hegel_result_t>,
)
    requires
        exists|c: &mut HegelContext| #[trigger]
            call_ensures(hegel_printer_text, (c, Some(printer), text, len), printed),
        exists|c: &mut HegelContext| #[trigger]
            call_ensures(hegel_printer_if_break, (c, Some(printer), text, len), if_broken),
        exists|c: &mut HegelContext| #[trigger]
            call_ensures(hegel_printer_breakable, (c, Some(printer), text, len), breakable),
        exists|c: &mut HegelContext| #[trigger]
            call_ensures(hegel_printer_comment, (c, Some(printer), text, len), comment),
        !printer.busy,
    ensures
        *text matches TextArg::Text(t) ==> {
            &&& !t@.contains('\n') ==> (printed matches Ok(PrinterOp::Text(s)) && s@ == t@)
            &&& t@.contains('\n') ==> printed is Err && printed->Err_0 == hegel_result_t::HEGEL_E_INVALID_ARG
            &&& !t@.contains('\n') ==> (if_broken matches Ok(PrinterOp::IfBreak(s)) && s@ == t@)
            &&& t@.contains('\n') ==> if_broken is Err && if_broken->Err_0 == hegel_result_t::HEGEL_E_INVALID_ARG
            &&& !t@.contains('\n') ==> (breakable matches Ok(PrinterOp::Breakable(s)) && s@ == t@)
            &&& t@.contains('\n') ==> breakable is Err && breakable->Err_0 == hegel_result_t::HEGEL_E_INVALID_ARG
            &&& !t@.contains('\n') ==> (comment matches Ok(PrinterOp::Comment(s)) && s@ == t@)
            &&& t@.contains('\n') ==> comment is Err && comment->Err_0 == hegel_result_t::HEGEL_E_INVALID_ARG
        },
        text is NotUtf8 ==> printed is Err && if_broken is Err && breakable is Err && comment is Err,
{
}

/// A group is begun and ended with the texts that its caller says, and indented as far.
/// An indentation is shifted as far as its caller says.
pub proof fn lemma_groups_are_printed_as_they_are(
    printer: &HegelPrinter,
    text: &TextArg,
    len: usize,
    indent: u64,
    delta: i64,
    begun: Result<PrinterOp, hegel_result_t>,
    ended: Result<PrinterOp, hegel_result_t>,
    shifted: Result<PrinterOp, hegel_result_t>,
)
    requires
        exists|c: &mut HegelContext| #[trigger]
            call_ensures(hegel_printer_begin_group, (c, Some(printer), indent, text, len), begun),
        exists|c: &mut HegelContext| #[trigger]
            call_ensures(hegel_printer_end_group, (c, Some(printer), text, len), ended),
        exists|c: &mut HegelContext| #[trigger]
            call_ensures(hegel_printer_shift_indent, (c, Some(printer), delta), shifted),
        !printer.busy,
        indent <= usize::MAX,
        isize::MIN <= delta <= isize::MAX,
    ensures
        *text matches TextArg::Text(t) ==> {
            &&& !t@.contains('\n') ==> (begun matches Ok(PrinterOp::BeginGroup(n, s)) && n == indent
                && s@ == t@)
            &&& !t@.contains('\n') ==> (ended matches Ok(PrinterOp::EndGroup(s)) && s@ == t@)
        },
        shifted matches Ok(PrinterOp::ShiftIndent(d)) && d == delta,
{
}

/// What has no text is asked for as it is.
pub proof fn lemma_marks_are_printed_as_they_are(
    printer: &HegelPrinter,
    broken: Result<PrinterOp, hegel_result_t>,
    begun: Result<PrinterOp, hegel_result_t>,
    kept: Result<PrinterOp, hegel_result_t>,
    taken_back: Result<PrinterOp, hegel_result_t>,
)
    requires
        exists|c: &mut HegelContext| #[trigger]
            call_ensures(hegel_printer_hard_break, (c, Some(printer)), broken),
        exists|c: &mut HegelContext| #[trigger]
            call_ensures(hegel_printer_begin_speculative, (c, Some(printer)), begun),
        exists|c: &mut HegelContext| #[trigger]
            call_ensures(hegel_printer_commit_speculative, (c, Some(printer)), kept),
        exists|c: &mut HegelContext| #[trigger]
            call_ensures(hegel_printer_abort_speculative, (c, Some(printer)), taken_back),
        !printer.busy,
    ensures
        broken matches Ok(PrinterOp::HardBreak),
        begun matches Ok(PrinterOp::BeginSpeculative),
        kept matches Ok(PrinterOp::CommitSpeculative),
        taken_back matches Ok(PrinterOp::AbortSpeculative),
{
}

/// Only the handle onto the whole document resolves what was left open in it.
pub proof fn lemma_only_the_root_resolves(
    printer: &HegelPrinter,
    r: Result<PrinterOp, hegel_result_t>,
)
    requires
        exists|c: &mut HegelContext| #[trigger]
            call_ensures(hegel_printer_resolve, (c, Some(printer)), r),
        !printer.busy,
    ensures
        r is Ok <==> printer.target == PrinterTarget::Main,
        r is Ok ==> r->Ok_0 is Resolve,
        r is Err ==> r->Err_0 == hegel_result_t::HEGEL_E_INVALID_ARG,
{
}

/// What a document answers is told: that it was done, its text, or a handle onto the
/// place that it left open. A place that is gone is told apart from misuse.
pub proof fn lemma_documents_are_answered(
    func: &str,
    answer: Result<(), PrinterError>,
    r: hegel_result_t,
    text: Result<String, PrinterError>,
    s: Result<String, hegel_result_t>,
    printer: &HegelPrinter,
    slot: Result<u64, PrinterError>,
    t: Result<HegelPrinter, hegel_result_t>,
)
    requires
        exists|c: &mut HegelContext| #[trigger]
            call_ensures(document_answer, (c, func, answer), r),
        exists|c: &mut HegelContext| #[trigger] call_ensures(value_answer, (c, text), s),
        exists|c: &mut HegelContext| #[trigger]
            call_ensures(deferred_answer, (c, printer, slot), t),
    ensures
        r == hegel_result_t::HEGEL_OK <==> answer is Ok,
        answer matches Err(e) ==> (r == hegel_result_t::HEGEL_E_INVALID_HANDLE <==> e is DeadSlot)
            && (r == hegel_result_t::HEGEL_E_INVALID_ARG <==> e is Misuse),
        s is Ok <==> text is Ok,
        text is Ok ==> s->Ok_0 == text->Ok_0,
        t is Ok <==> slot is Ok,
        slot is Ok ==> t->Ok_0 == (HegelPrinter {
            target: PrinterTarget::Slot(slot->Ok_0),
            busy: false,
            attributed: printer.attributed,
        }),
{
}

/// A note has the text that its caller says, of any number of lines, and begins its lines
/// with something only where it is attributed to a worker.
pub proof fn lemma_notes_are_what_is_said(
    tc: &HegelTestCase,
    micros: u64,
    text: &TextArg,
    len: usize,
    r: Result<Note, hegel_result_t>,
)
    requires
        exists|c: &mut HegelContext| #[trigger]
            call_ensures(hegel_note, (c, Some(tc), micros, text, len), r),
    ensures
        *text matches TextArg::Text(t) ==> r is Ok && r->Ok_0.text@ == t@,
        text is NotUtf8 ==> r is Err,
        r is Ok ==> (r->Ok_0.prefix is None <==> tc.worker == -1),
{
}

/// A width is set unless it is zero.
pub proof fn lemma_widths_are_positive(
    before: HegelPrinterOptions,
    after: HegelPrinterOptions,
    width: u64,
    r: hegel_result_t,
)
    requires
        exists|c: &mut HegelContext, o: &mut HegelPrinterOptions| #[trigger]
            call_ensures(hegel_printer_options_set_max_width, (c, Some(o), width), r) && *o
                == before && *final(o) == after,
    ensures
        width > 0 ==> r == hegel_result_t::HEGEL_OK && after.max_width == Some(width),
        width == 0 ==> r == hegel_result_t::HEGEL_E_INVALID_ARG && after.max_width
            == before.max_width,
{
}

} // verus!
