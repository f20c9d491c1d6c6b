//! Printer handles and their options.
use crate::abi::cases::handle_fault;
use crate::abi::cases::size_arg;
use crate::abi::cases::Attribution;
use crate::abi::cases::FamilyShared;
use crate::abi::cases::HegelTestCase;
use crate::abi::cases::DEFAULT_PRINTER_MAX_WIDTH;
use crate::abi::ended;
use crate::abi::fault;
use crate::abi::gave;
use crate::abi::hegel_result_t;
use crate::abi::optional_utf8_arg;
use crate::abi::shown;
use crate::abi::strings::first_fault;
use crate::abi::strings::out_fault;
use crate::abi::strings::out_guard;
use crate::abi::values::size_of;
use crate::abi::FaultView;
use crate::abi::HegelContext;
use crate::abi::TextArg;
use crate::abi::TextArgView;
use crate::bignum::BigUint;
use crate::decimal::append_natural;
use crate::decimal::decimal;
use vstd::prelude::*;
use vstd::string::StrSliceExecFns;
use vstd::string::StringExecFns;

verus! {

/// Options of a document.
#[derive(Clone, Copy, Debug, PartialEq, Eq, Structural)]
pub struct HegelPrinterOptions {
    /// The width that it is laid out to, if it is set.
    pub max_width: Option<u64>,
}

/// The width that a document is laid out to.
pub open spec fn width_of(options: Option<&HegelPrinterOptions>) -> u64 {
    match options {
        Some(o) => match o.max_width {
            Some(w) => w,
            None => DEFAULT_PRINTER_MAX_WIDTH,
        },
        None => DEFAULT_PRINTER_MAX_WIDTH,
    }
}

impl HegelPrinterOptions {
    /// The width that a document is laid out to: the one that was set, or the
    /// default.
    pub fn resolve_max_width(options: Option<&HegelPrinterOptions>) -> (r: u64)
        ensures
            r == width_of(options),
    {
        match options {
            Some(o) => match o.max_width {
                Some(w) => w,
                None => DEFAULT_PRINTER_MAX_WIDTH,
            },
            None => DEFAULT_PRINTER_MAX_WIDTH,
        }
    }
}

/// Options, none of which is set.
pub fn hegel_printer_options_new(ctx: &mut HegelContext, out_is_null: bool) -> (r: Result<
    HegelPrinterOptions,
    hegel_result_t,
>)
    ensures
        gave(
            *final(ctx),
            r,
            out_fault("hegel_printer_options_new"@, out_is_null),
            HegelPrinterOptions { max_width: None },
        ),
{
    match out_guard(ctx, "hegel_printer_options_new", out_is_null) {
        Ok(_) => Ok(HegelPrinterOptions { max_width: None }),
        Err(code) => Err(code),
    }
}

/// Sets the width. Nothing can be laid out to a width of zero.
pub fn hegel_printer_options_set_max_width(
    ctx: &mut HegelContext,
    options: Option<&mut HegelPrinterOptions>,
    max_width: u64,
) -> (r: hegel_result_t)
    ensures
        ended(
            *final(ctx),
            r,
            if options is None {
                fault(
                    hegel_result_t::HEGEL_E_INVALID_HANDLE,
                    "hegel_printer_options_set_max_width"@ + ": options pointer is null"@,
                )
            } else if max_width == 0 {
                fault(
                    hegel_result_t::HEGEL_E_INVALID_ARG,
                    "hegel_printer_options_set_max_width"@ + ": max_width must be positive"@,
                )
            } else {
                None
            },
        ),
        match options {
            Some(o) => final(o).max_width == if max_width == 0 {
                o.max_width
            } else {
                Some(max_width)
            },
            None => true,
        },
{
    ctx.clear_last_error();
    match options {
        None => ctx.fail(
            hegel_result_t::HEGEL_E_INVALID_HANDLE,
            "hegel_printer_options_set_max_width",
            ": options pointer is null",
        ),
        Some(o) => {
            if max_width == 0 {
                return ctx.fail(
                    hegel_result_t::HEGEL_E_INVALID_ARG,
                    "hegel_printer_options_set_max_width",
                    ": max_width must be positive",
                );
            }
            o.max_width = Some(max_width);
            hegel_result_t::HEGEL_OK
        },
    }
}

/// A region of a document.
#[derive(Clone, Copy, Debug, PartialEq, Eq, Structural)]
pub enum PrinterTarget {
    /// The whole document.
    Main,
    /// What was left open, to be filled in later.
    Slot(u64),
}

/// A handle onto a region of a document.
#[derive(Clone, Copy, Debug, PartialEq, Eq, Structural)]
pub struct HegelPrinter {
    /// The region.
    pub target: PrinterTarget,
    /// Whether another thread is using the handle.
    pub busy: bool,
    /// Whether the lines are attributed to the worker of a test-case handle.
    pub attributed: bool,
}

impl HegelPrinter {
    /// What is stamped on a line before something is recorded now: the worker
    /// it is attributed to, where the line starts with it.
    pub fn record(&self, now: &Attribution, at_line_start: bool) -> (r: Option<String>)
        ensures
            if self.attributed && at_line_start {
                match now.prefix() {
                    Some(p) => r matches Some(s) && s@ == p,
                    None => r is None,
                }
            } else {
                r is None
            },
    {
        if self.attributed && at_line_start {
            now.line_prefix()
        } else {
            None
        }
    }
}

/// A document of its own, and the width it is laid out to.
pub fn hegel_printer_new(
    ctx: &mut HegelContext,
    options: Option<&HegelPrinterOptions>,
    out_is_null: bool,
) -> (r: Result<(HegelPrinter, usize), hegel_result_t>)
    ensures
        gave(
            *final(ctx),
            r,
            out_fault("hegel_printer_new"@, out_is_null),
            (
                HegelPrinter { target: PrinterTarget::Main, busy: false, attributed: false },
                size_of(width_of(options)),
            ),
        ),
{
    match out_guard(ctx, "hegel_printer_new", out_is_null) {
        Ok(_) => Ok(
            (
                HegelPrinter { target: PrinterTarget::Main, busy: false, attributed: false },
                size_arg(HegelPrinterOptions::resolve_max_width(options)),
            ),
        ),
        Err(code) => Err(code),
    }
}

/// What is wrong with a printer handle.
pub open spec fn printer_fault(func: Seq<char>, printer: Option<&HegelPrinter>) -> Option<FaultView> {
    match printer {
        None => fault(
            hegel_result_t::HEGEL_E_INVALID_HANDLE,
            func + ": printer handle is null"@,
        ),
        Some(p) => if p.busy {
            fault(
                hegel_result_t::HEGEL_E_CONCURRENT_USE,
                func + ": printer handle is in use by another thread"@,
            )
        } else {
            None
        },
    }
}

/// Lets a call through that uses a printer handle.
pub fn printer_guard(ctx: &mut HegelContext, func: &str, printer: Option<&HegelPrinter>) -> (r:
    Result<(), hegel_result_t>)
    ensures
        gave(*final(ctx), r, printer_fault(func@, printer), ()),
{
    ctx.clear_last_error();
    match printer {
        None => Err(
            ctx.fail(hegel_result_t::HEGEL_E_INVALID_HANDLE, func, ": printer handle is null"),
        ),
        Some(p) => if p.busy {
            Err(
                ctx.fail(
                    hegel_result_t::HEGEL_E_CONCURRENT_USE,
                    func,
                    ": printer handle is in use by another thread",
                ),
            )
        } else {
            Ok(())
        },
    }
}

/// What is wrong with a handle that must be onto the whole document.
pub open spec fn root_fault(func: Seq<char>, printer: Option<&HegelPrinter>, out_is_null: bool) -> Option<
    FaultView,
> {
    first_fault(
        printer_fault(func, printer),
        if out_is_null {
            fault(hegel_result_t::HEGEL_E_INVALID_ARG, func + ": out parameter is null"@)
        } else if printer->0.target != PrinterTarget::Main {
            fault(hegel_result_t::HEGEL_E_INVALID_ARG, func + ": not the document's root handle"@)
        } else {
            None
        },
    )
}

/// Lets a call through that needs the whole document.
pub fn root_guard(
    ctx: &mut HegelContext,
    func: &str,
    printer: Option<&HegelPrinter>,
    out_is_null: bool,
) -> (r: Result<(), hegel_result_t>)
    ensures
        gave(*final(ctx), r, root_fault(func@, printer, out_is_null), ()),
{
    if let Err(code) = printer_guard(ctx, func, printer) {
        return Err(code);
    }
    if out_is_null {
        return Err(ctx.fail(hegel_result_t::HEGEL_E_INVALID_ARG, func, ": out parameter is null"));
    }
    match printer {
        Some(p) => if p.target == PrinterTarget::Main {
            Ok(())
        } else {
            Err(
                ctx.fail(
                    hegel_result_t::HEGEL_E_INVALID_ARG,
                    func,
                    ": not the document's root handle",
                ),
            )
        },
        None => Err(hegel_result_t::HEGEL_E_INVALID_HANDLE),
    }
}

/// Why something could not be printed.
#[derive(Debug)]
pub enum PrinterError {
    /// The region is gone.
    DeadSlot(String),
    /// The call makes no sense.
    Misuse(String),
}

/// Tells why something could not be printed. That the region is gone is the
/// fault of the handle.
pub fn translate_printer_error(ctx: &mut HegelContext, func: &str, e: &PrinterError) -> (r:
    hegel_result_t)
    ensures
        ended(
            *final(ctx),
            r,
            match *e {
                PrinterError::DeadSlot(m) => fault(
                    hegel_result_t::HEGEL_E_INVALID_HANDLE,
                    func@ + (": "@ + m@),
                ),
                PrinterError::Misuse(m) => fault(
                    hegel_result_t::HEGEL_E_INVALID_ARG,
                    func@ + (": "@ + m@),
                ),
            },
        ),
{
    let mut what = String::from_str(": ");
    match e {
        PrinterError::DeadSlot(m) => {
            what.append(m.as_str());
            ctx.fail(hegel_result_t::HEGEL_E_INVALID_HANDLE, func, what.as_str())
        },
        PrinterError::Misuse(m) => {
            what.append(m.as_str());
            ctx.fail(hegel_result_t::HEGEL_E_INVALID_ARG, func, what.as_str())
        },
    }
}

/// The text of a buffer, which may be null only where it is empty.
pub open spec fn buffer_text(arg: TextArgView) -> Seq<char> {
    match arg {
        TextArgView::Text(t) => t,
        _ => Seq::empty(),
    }
}

/// What is wrong with a text that is to be printed.
pub open spec fn buffer_fault(func: Seq<char>, name: Seq<char>, arg: TextArgView, len: usize) -> Option<
    FaultView,
> {
    match arg {
        TextArgView::NotUtf8 => fault(
            hegel_result_t::HEGEL_E_INVALID_ARG,
            func + ": "@ + name + " is not valid UTF-8"@,
        ),
        TextArgView::Null => if len == 0 {
            None
        } else {
            fault(hegel_result_t::HEGEL_E_INVALID_ARG, func + ": "@ + name + " is null"@)
        },
        TextArgView::Text(_) => None,
    }
}

/// What is wrong with a text that is to be printed on one line.
pub open spec fn line_fault(func: Seq<char>, name: Seq<char>, arg: TextArgView, len: usize) -> Option<
    FaultView,
> {
    first_fault(
        buffer_fault(func, name, arg, len),
        if buffer_text(arg).contains('\n') {
            fault(
                hegel_result_t::HEGEL_E_INVALID_ARG,
                func + ": "@ + name + " must not contain newlines"@,
            )
        } else {
            None
        },
    )
}

/// Reads a text that is to be printed.
pub fn note_text_arg(ctx: &mut HegelContext, func: &str, name: &str, arg: &TextArg, len: usize) -> (r:
    Result<String, hegel_result_t>)
    ensures
        match buffer_fault(func@, name@, arg@, len) {
            Some(f) => r matches Err(code) && code == f.code && final(ctx)@ == shown(f.message),
            None => r matches Ok(t) && t@ == buffer_text(arg@) && *final(ctx) == *old(ctx),
        },
{
    match optional_utf8_arg(ctx, func, name, arg) {
        Err(code) => Err(code),
        Ok(Some(t)) => Ok(t),
        Ok(None) => {
            if len == 0 {
                proof {
                    reveal_strlit("");
                }
                let empty: String = String::from_str("");
                assert(empty@ =~= Seq::empty());
                return Ok(empty);
            }
            let mut message = String::from_str(func);
            message.append(": ");
            message.append(name);
            message.append(" is null");
            ctx.set_last_error(message.as_str());
            Err(hegel_result_t::HEGEL_E_INVALID_ARG)
        },
    }
}

/// Whether a text has a newline in it.
fn has_newline(text: &str) -> (r: bool)
    ensures
        r == text@.contains('\n'),
{
    let n: usize = text.unicode_len();
    let mut i: usize = 0;
    while i < n
        invariant
            i <= n == text@.len(),
            forall|j: int| 0 <= j < i ==> text@[j] != '\n',
        decreases n - i,
    {
        if text.get_char(i) == '\n' {
            return true;
        }
        i = i + 1;
    }
    false
}

/// Reads a text that is to be printed on one line.
pub fn printer_text_arg(
    ctx: &mut HegelContext,
    func: &str,
    name: &str,
    arg: &TextArg,
    len: usize,
) -> (r: Result<String, hegel_result_t>)
    ensures
        match line_fault(func@, name@, arg@, len) {
            Some(f) => r matches Err(code) && code == f.code && final(ctx)@ == shown(f.message),
            None => r matches Ok(t) && t@ == buffer_text(arg@) && *final(ctx) == *old(ctx),
        },
{
    let text = match note_text_arg(ctx, func, name, arg, len) {
        Ok(text) => text,
        Err(code) => {
            return Err(code);
        },
    };
    if has_newline(text.as_str()) {
        let mut message = String::from_str(func);
        message.append(": ");
        message.append(name);
        message.append(" must not contain newlines");
        ctx.set_last_error(message.as_str());
        return Err(hegel_result_t::HEGEL_E_INVALID_ARG);
    }
    Ok(text)
}

/// How far an indentation shifts, which stays absurdly far where it does not
/// fit.
pub fn indent_arg(delta: i64) -> (r: isize)
    ensures
        r == if delta < isize::MIN {
            isize::MIN as int
        } else if delta > isize::MAX {
            isize::MAX as int
        } else {
            delta as int
        },
{
    if delta < isize::MIN as i64 {
        isize::MIN
    } else if delta > isize::MAX as i64 {
        isize::MAX
    } else {
        delta as isize
    }
}

/// What is said of a width that cannot be changed.
pub open spec fn width_conflict(actual: usize, requested: u64) -> Seq<char> {
    ": the family's document is laid out to max_width "@ + decimal(actual as nat)
        + " and cannot change to "@ + decimal(requested as nat)
}

/// The width that is asked for.
pub open spec fn requested_width(options: Option<&HegelPrinterOptions>) -> Option<u64> {
    match options {
        Some(o) => o.max_width,
        None => None,
    }
}

/// What is wrong with asking for the printer of a test case.
pub open spec fn case_printer_fault(
    missing: bool,
    out_is_null: bool,
    options: Option<&HegelPrinterOptions>,
    family: FamilyShared,
) -> Option<FaultView> {
    let func = "hegel_test_case_printer"@;
    first_fault(
        handle_fault(func, missing),
        if out_is_null {
            fault(hegel_result_t::HEGEL_E_INVALID_ARG, func + ": out parameter is null"@)
        } else {
            match requested_width(options) {
                Some(w) => if family.printer_width_configured && family.printer_width != size_of(
                    w,
                ) {
                    fault(
                        hegel_result_t::HEGEL_E_INVALID_ARG,
                        func + width_conflict(family.printer_width, w),
                    )
                } else {
                    None
                },
                None => None,
            }
        },
    )
}

/// What handles share once a width was asked for: the first one stands.
pub open spec fn with_width(family: FamilyShared, requested: Option<u64>) -> FamilyShared {
    match requested {
        Some(w) => if family.printer_width_configured {
            family
        } else {
            FamilyShared { printer_width: size_of(w), printer_width_configured: true, ..family }
        },
        None => family,
    }
}

/// A handle onto the region of a test-case handle.
///
/// The first width that is asked for is the one of the document. It may be
/// asked for again, but no other.
pub fn hegel_test_case_printer(
    ctx: &mut HegelContext,
    tc: Option<&HegelTestCase>,
    family: &mut FamilyShared,
    options: Option<&HegelPrinterOptions>,
    target: PrinterTarget,
    out_is_null: bool,
) -> (r: Result<HegelPrinter, hegel_result_t>)
    ensures
        gave(
            *final(ctx),
            r,
            case_printer_fault(tc is None, out_is_null, options, *old(family)),
            HegelPrinter { target, busy: false, attributed: true },
        ),
        *final(family) == if r is Ok {
            with_width(*old(family), requested_width(options))
        } else {
            *old(family)
        },
{
    ctx.clear_last_error();
    if tc.is_none() {
        return Err(
            ctx.fail(
                hegel_result_t::HEGEL_E_INVALID_HANDLE,
                "hegel_test_case_printer",
                ": test case pointer is null",
            ),
        );
    }
    if out_is_null {
        return Err(
            ctx.fail(
                hegel_result_t::HEGEL_E_INVALID_ARG,
                "hegel_test_case_printer",
                ": out parameter is null",
            ),
        );
    }
    let requested: Option<u64> = match options {
        Some(o) => o.max_width,
        None => None,
    };
    if let Some(w) = requested {
        if !family.printer_width_configured {
            family.printer_width = size_arg(w);
            family.printer_width_configured = true;
        } else if family.printer_width != size_arg(w) {
            let mut what = String::from_str(": the family's document is laid out to max_width ");
            append_natural(&mut what, &BigUint::from_u128(family.printer_width as u128));
            what.append(" and cannot change to ");
            append_natural(&mut what, &BigUint::from_u128(w as u128));
            return Err(
                ctx.fail(
                    hegel_result_t::HEGEL_E_INVALID_ARG,
                    "hegel_test_case_printer",
                    what.as_str(),
                ),
            );
        }
    }
    Ok(HegelPrinter { target, busy: false, attributed: true })
}

/// The first width stands: it may be asked for again, and no other may be.
pub proof fn lemma_first_width_stands(
    family: FamilyShared,
    first: u64,
    options: Option<&HegelPrinterOptions>,
)
    requires
        !family.printer_width_configured,
    ensures
        with_width(family, Some(first)).printer_width == size_of(first),
        ({
            let set = with_width(family, Some(first));
            case_printer_fault(false, false, options, set) is None <==> match requested_width(
                options,
            ) {
                Some(w) => size_of(w) == size_of(first),
                None => true,
            }
        }),
{
}

} // verus!
