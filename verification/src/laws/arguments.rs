//! Arguments: which of them are taken, which are refused, and the numbers that stand for
//! what callers say.
use crate::abi::cases::hegel_status_t;
use crate::abi::cases::FamilyShared;
use crate::abi::cases::HegelTestCase;
use crate::abi::cstring_lossy;
use crate::abi::hegel_result_t;
use crate::abi::optional_utf8_arg;
use crate::abi::printing::hegel_printer_new;
use crate::abi::printing::hegel_test_case_printer;
use crate::abi::printing::indent_arg;
use crate::abi::printing::note_text_arg;
use crate::abi::printing::printer_guard;
use crate::abi::printing::printer_text_arg;
use crate::abi::printing::root_guard;
use crate::abi::printing::translate_printer_error;
use crate::abi::printing::HegelPrinter;
use crate::abi::printing::HegelPrinterOptions;
use crate::abi::printing::PrinterError;
use crate::abi::printing::PrinterTarget;
use crate::abi::required_utf8_arg;
use crate::abi::runs::hegel_run_status_t;
use crate::abi::settings::health_check_bit;
use crate::abi::settings::health_check_bits;
use crate::abi::settings::health_check_bits_of;
use crate::abi::settings::hegel_health_check_t;
use crate::abi::settings::hegel_phase_t;
use crate::abi::settings::hegel_settings_set_database_key;
use crate::abi::settings::hegel_settings_set_test_location;
use crate::abi::settings::phase_bit;
use crate::abi::settings::phases_bits;
use crate::abi::settings::phases_bits_of;
use crate::abi::settings::profile_outcome;
use crate::abi::settings::settings_new_for_profile;
use crate::abi::settings::HealthCheck;
use crate::abi::settings::HegelSettings;
use crate::abi::settings::Phase;
use crate::abi::settings::Settings;
use crate::abi::strings::entries_fault;
use crate::abi::strings::names_from_c_array;
use crate::abi::strings::read_alphabet;
use crate::abi::strings::texts_view;
use crate::abi::strings::AlphabetArgs;
use crate::abi::strings::TextAlphabet;
use crate::abi::strings::TextsArg;
use crate::abi::HegelContext;
use crate::abi::TextArg;
use crate::abi::TextArgView;
use vstd::prelude::*;

verus! {

/// A text that has to be there is taken as it is, and refused where it is missing or not
/// written in Unicode. One that need not be there may be missing.
pub proof fn lemma_texts_are_taken_as_said(
    func: &str,
    name: &str,
    arg: &TextArg,
    needed: Result<String, hegel_result_t>,
    wanted: Result<Option<String>, hegel_result_t>,
)
    requires
        exists|c: &mut HegelContext| #[trigger]
            call_ensures(required_utf8_arg, (c, func, name, arg), needed),
        exists|c: &mut HegelContext| #[trigger]
            call_ensures(optional_utf8_arg, (c, func, name, arg), wanted),
    ensures
        match arg@ {
            TextArgView::Text(t) => needed is Ok && needed->Ok_0@ == t && wanted is Ok
                && wanted->Ok_0 is Some && wanted->Ok_0->Some_0@ == t,
            TextArgView::NotUtf8 => needed == Err::<String, hegel_result_t>(
                hegel_result_t::HEGEL_E_INVALID_ARG,
            ) && wanted == Err::<Option<String>, hegel_result_t>(
                hegel_result_t::HEGEL_E_INVALID_ARG,
            ),
            TextArgView::Null => needed == Err::<String, hegel_result_t>(
                hegel_result_t::HEGEL_E_INVALID_ARG,
            ) && wanted == Ok::<Option<String>, hegel_result_t>(None),
        },
{
}

/// A text that is handed over has a replacement for each character that would end it, and
/// is otherwise as it was.
pub proof fn lemma_texts_are_handed_over(text: &str, r: String, i: int)
    requires
        call_ensures(cstring_lossy, (text,), r),
        0 <= i < text@.len(),
    ensures
        r@.len() == text@.len(),
        text@[i] != '\0' ==> r@[i] == text@[i],
        text@[i] == '\0' ==> r@[i] == '\u{FFFD}',
{
}

/// A text that is printed is what is said, and may be missing only where its length is
/// none. In a line it has no line breaks.
pub proof fn lemma_printed_texts_are_taken_as_said(
    func: &str,
    name: &str,
    arg: &TextArg,
    len: usize,
    note: Result<String, hegel_result_t>,
    line: Result<String, hegel_result_t>,
)
    requires
        exists|c: &mut HegelContext| #[trigger]
            call_ensures(note_text_arg, (c, func, name, arg, len), note),
        exists|c: &mut HegelContext| #[trigger]
            call_ensures(printer_text_arg, (c, func, name, arg, len), line),
    ensures
        match arg@ {
            TextArgView::Text(t) => {
                &&& note is Ok && note->Ok_0@ == t
                &&& line is Ok <==> !t.contains('\n')
                &&& line is Ok ==> line->Ok_0@ == t
            },
            TextArgView::NotUtf8 => note is Err && line is Err,
            TextArgView::Null => {
                &&& note is Ok <==> len == 0
                &&& line is Ok <==> len == 0
                &&& len == 0 ==> note->Ok_0@.len() == 0 && line->Ok_0@.len() == 0
            },
        },
        note is Err ==> note->Err_0 == hegel_result_t::HEGEL_E_INVALID_ARG,
        line is Err ==> line->Err_0 == hegel_result_t::HEGEL_E_INVALID_ARG,
{
}

/// Of a list of texts something is wrong from a place on exactly where one of the texts
/// from there is none, and that is then a wrong argument.
pub proof fn lemma_some_entry_is_wrong(
    func: Seq<char>,
    what: Seq<char>,
    texts: Seq<TextArgView>,
    i: int,
)
    requires
        0 <= i <= texts.len(),
    ensures
        entries_fault(func, what, texts, i) is Some <==> exists|j: int|
            i <= j < texts.len() && !((#[trigger] texts[j]) is Text),
        entries_fault(func, what, texts, i) is Some ==> entries_fault(
            func,
            what,
            texts,
            i,
        )->Some_0.code == hegel_result_t::HEGEL_E_INVALID_ARG,
    decreases texts.len() - i,
{
    if i < texts.len() {
        lemma_some_entry_is_wrong(func, what, texts, i + 1);
    }
}

/// A list of texts is taken as it is, each in its place, and is refused where one of them
/// is missing or not written in Unicode. A list that is missing has no texts.
pub proof fn lemma_lists_are_taken_as_said(
    func: &str,
    what: &str,
    arg: &TextsArg,
    r: Result<Vec<String>, hegel_result_t>,
    i: int,
)
    requires
        exists|c: &mut HegelContext| #[trigger]
            call_ensures(names_from_c_array, (c, func, what, arg), r),
    ensures
        match *arg {
            TextsArg::Null(len) => {
                &&& r is Ok <==> len == 0
                &&& r is Ok ==> r->Ok_0@.len() == 0
            },
            TextsArg::Texts(v) => {
                &&& r is Ok <==> forall|j: int| 0 <= j < v@.len() ==> (#[trigger] v@[j])@ is Text
                &&& r is Ok ==> r->Ok_0@.len() == v@.len()
                &&& r is Ok && 0 <= i < v@.len() ==> v@[i]@ == TextArgView::Text(r->Ok_0@[i]@)
            },
        },
        r is Err ==> r->Err_0 == hegel_result_t::HEGEL_E_INVALID_ARG,
{
    if let TextsArg::Texts(v) = *arg {
        let texts = texts_view(v@);
        lemma_some_entry_is_wrong(func@, what@, texts, 0);
        assert(forall|j: int| 0 <= j < v@.len() ==> #[trigger] texts[j] == v@[j]@);
        if entries_fault(func@, what@, texts, 0) is Some {
            let j = choose|j: int| 0 <= j < texts.len() && !((#[trigger] texts[j]) is Text);
            assert(!(v@[j]@ is Text));
        } else {
            assert forall|j: int| 0 <= j < v@.len() implies (#[trigger] v@[j])@ is Text by {
                assert(texts[j] is Text);
            }
        }
    }
}

/// An alphabet is what is said of it: its bounds, its codec, and the characters that are
/// added and taken away, each of which may be missing.
pub proof fn lemma_alphabets_are_taken_as_said(
    a: &AlphabetArgs,
    r: Result<TextAlphabet, hegel_result_t>,
)
    requires
        exists|c: &mut HegelContext| #[trigger] call_ensures(read_alphabet, (c, a), r),
    ensures
        a.codec@ is NotUtf8 || a.include_characters@ is NotUtf8 || a.exclude_characters@ is NotUtf8
            ==> r is Err,
        a.categories is Null && a.exclude_categories is Null && !(a.codec@ is NotUtf8)
            && !(a.include_characters@ is NotUtf8) && !(a.exclude_characters@ is NotUtf8) ==> r is Ok
            && r->Ok_0.categories is None && r->Ok_0.exclude_categories is None,
        r matches Ok(t) ==> {
            &&& t.min_codepoint == a.min_codepoint
            &&& t.max_codepoint == a.max_codepoint
            &&& is_said(t.codec, a.codec@)
            &&& is_said(t.include_characters, a.include_characters@)
            &&& is_said(t.exclude_characters, a.exclude_characters@)
        },
{
}

/// Whether a text, or none, is what was said.
pub open spec fn is_said(text: Option<String>, arg: TextArgView) -> bool {
    match text {
        Some(t) => arg == TextArgView::Text(t@),
        None => !(arg is Text),
    }
}

/// A printer may be used where it is there and not in use, and the whole document may be
/// asked for only by its root, with a place for it.
pub proof fn lemma_printers_are_let_through(
    func: &str,
    printer: Option<&HegelPrinter>,
    out_is_null: bool,
    r: Result<(), hegel_result_t>,
    root: Result<(), hegel_result_t>,
)
    requires
        exists|c: &mut HegelContext| #[trigger] call_ensures(printer_guard, (c, func, printer), r),
        exists|c: &mut HegelContext| #[trigger]
            call_ensures(root_guard, (c, func, printer, out_is_null), root),
    ensures
        r is Ok <==> printer is Some && !printer->Some_0.busy,
        printer is None ==> r == Err::<(), hegel_result_t>(hegel_result_t::HEGEL_E_INVALID_HANDLE),
        printer is Some && printer->Some_0.busy ==> r == Err::<(), hegel_result_t>(
            hegel_result_t::HEGEL_E_CONCURRENT_USE,
        ),
        root is Ok <==> r is Ok && !out_is_null && printer->Some_0.target == PrinterTarget::Main,
        r is Err ==> root == r,
        r is Ok && root is Err ==> root == Err::<(), hegel_result_t>(
            hegel_result_t::HEGEL_E_INVALID_ARG,
        ),
{
}

/// What was written to a part of a document that is gone is told as a wrong handle, and
/// any other misuse as a wrong argument.
pub proof fn lemma_misuse_is_told_apart(func: &str, e: &PrinterError, r: hegel_result_t)
    requires
        exists|c: &mut HegelContext| #[trigger]
            call_ensures(translate_printer_error, (c, func, e), r),
    ensures
        *e is DeadSlot ==> r == hegel_result_t::HEGEL_E_INVALID_HANDLE,
        *e is Misuse ==> r == hegel_result_t::HEGEL_E_INVALID_ARG,
{
}

/// A document is as wide as it is asked to be, or has seventy-nine columns. The document of a
/// test case is as wide as it was first asked to be, and another width is refused.
pub proof fn lemma_documents_are_as_wide_as_asked(
    options: Option<&HegelPrinterOptions>,
    tc: Option<&HegelTestCase>,
    before: FamilyShared,
    after: FamilyShared,
    target: PrinterTarget,
    alone: Result<(HegelPrinter, usize), hegel_result_t>,
    shared: Result<HegelPrinter, hegel_result_t>,
    w: u64,
)
    requires
        exists|c: &mut HegelContext| #[trigger]
            call_ensures(hegel_printer_new, (c, options, false), alone),
        exists|c: &mut HegelContext, f: &mut FamilyShared| #[trigger]
            call_ensures(hegel_test_case_printer, (c, tc, f, options, target, false), shared) && *f
                == before && *final(f) == after,
        w <= usize::MAX,
    ensures
        alone is Ok,
        alone->Ok_0.0.target == PrinterTarget::Main,
        options is None || options->Some_0.max_width is None ==> alone->Ok_0.1 == 79 && after
            == before,
        options is Some && options->Some_0.max_width == Some(w) ==> {
            &&& alone->Ok_0.1 == w
            &&& tc is Some && !before.printer_width_configured ==> shared is Ok
                && after.printer_width == w && after.printer_width_configured
            &&& tc is Some && before.printer_width_configured ==> (shared is Ok <==> w
                == before.printer_width) && after == before
        },
        tc is None ==> shared is Err && shared->Err_0 == hegel_result_t::HEGEL_E_INVALID_HANDLE,
        shared is Ok ==> shared->Ok_0.target == target,
{
}

/// An indentation is what is said, as far as it can be.
pub proof fn lemma_indentations_are_taken_as_said(delta: i64, r: isize)
    requires
        call_ensures(indent_arg, (delta,), r),
    ensures
        isize::MIN <= delta <= isize::MAX ==> r == delta,
        delta > isize::MAX ==> r == isize::MAX,
        delta < isize::MIN ==> r == isize::MIN,
{
}

/// The location of a test is what is said of it, where all of it is said. Nothing else of
/// the settings changes, and nothing at all where it is refused.
pub proof fn lemma_locations_are_taken_as_said(
    before: HegelSettings,
    after: HegelSettings,
    file: &TextArg,
    line: u32,
    class: &TextArg,
    function: &TextArg,
    r: hegel_result_t,
)
    requires
        exists|c: &mut HegelContext, s: &mut HegelSettings| #[trigger]
            call_ensures(
                hegel_settings_set_test_location,
                (c, Some(s), file, line, class, function),
                r,
            ) && *s == before && *final(s) == after,
    ensures
        r == hegel_result_t::HEGEL_OK <==> file@ is Text && class@ is Text && function@ is Text,
        r != hegel_result_t::HEGEL_OK ==> r == hegel_result_t::HEGEL_E_INVALID_ARG && after
            == before,
        r == hegel_result_t::HEGEL_OK ==> {
            &&& after.test_location is Some
            &&& after.test_location->Some_0.file@ == file@->Text_0
            &&& after.test_location->Some_0.class@ == class@->Text_0
            &&& after.test_location->Some_0.function@ == function@->Text_0
            &&& after.test_location->Some_0.begin_line == line
            &&& after.inner == before.inner
            &&& after.database_key == before.database_key
        },
{
}

/// The key of a test is what is said, or none.
pub proof fn lemma_keys_are_taken_as_said(
    before: HegelSettings,
    after: HegelSettings,
    key: &TextArg,
    r: hegel_result_t,
)
    requires
        exists|c: &mut HegelContext, s: &mut HegelSettings| #[trigger]
            call_ensures(hegel_settings_set_database_key, (c, Some(s), key), r) && *s == before
                && *final(s) == after,
    ensures
        r == if key@ is NotUtf8 {
            hegel_result_t::HEGEL_E_INVALID_ARG
        } else {
            hegel_result_t::HEGEL_OK
        },
        r == hegel_result_t::HEGEL_OK ==> is_said(after.database_key, key@),
        after.inner == before.inner,
        after.test_location == before.test_location,
        key@ is NotUtf8 ==> after == before,
{
}

/// The settings of a profile are those that it resolves to, and a profile that does not
/// resolve, or cannot be kept, is a wrong argument.
pub proof fn lemma_profiles_are_resolved(
    func: &str,
    out_is_null: bool,
    resolved: Result<Settings, String>,
    r: Result<HegelSettings, hegel_result_t>,
    outcome: Result<(), String>,
    kept: hegel_result_t,
)
    requires
        exists|c: &mut HegelContext| #[trigger]
            call_ensures(settings_new_for_profile, (c, func, out_is_null, resolved), r),
        exists|c: &mut HegelContext| #[trigger]
            call_ensures(profile_outcome, (c, func, outcome), kept),
    ensures
        r is Ok <==> !out_is_null && resolved is Ok,
        r is Ok ==> r->Ok_0.inner == resolved->Ok_0 && r->Ok_0.database_key is None
            && r->Ok_0.test_location is None,
        r is Err ==> r->Err_0 == hegel_result_t::HEGEL_E_INVALID_ARG,
        kept == if outcome is Ok {
            hegel_result_t::HEGEL_OK
        } else {
            hegel_result_t::HEGEL_E_INVALID_ARG
        },
{
}

/// Success is zero and everything else is negative. No two results have the same number,
/// and the more there are, the lower they go.
pub proof fn lemma_results_have_their_numbers(a: hegel_result_t, b: hegel_result_t, r: i32, s: i32)
    requires
        call_ensures(hegel_result_t::code, (a,), r),
        call_ensures(hegel_result_t::code, (b,), s),
    ensures
        -10 <= r <= 0,
        r == 0 <==> a == hegel_result_t::HEGEL_OK,
        r == s <==> a == b,
{
}

/// Statuses have different numbers, from zero on, and only a test case that is valid and a
/// run that passed have zero.
pub proof fn lemma_statuses_have_their_numbers(
    a: hegel_status_t,
    b: hegel_status_t,
    r: u32,
    s: u32,
    c: hegel_run_status_t,
    d: hegel_run_status_t,
    t: u32,
    u: u32,
)
    requires
        call_ensures(hegel_status_t::code, (a,), r),
        call_ensures(hegel_status_t::code, (b,), s),
        call_ensures(hegel_run_status_t::code, (c,), t),
        call_ensures(hegel_run_status_t::code, (d,), u),
    ensures
        r < 4 && t < 4,
        r == s <==> a == b,
        t == u <==> c == d,
        r == 0 <==> a == hegel_status_t::HEGEL_STATUS_VALID,
        t == 0 <==> c == hegel_run_status_t::HEGEL_RUN_STATUS_PASSED,
{
}

/// Phases have one bit each, in the order in which they run, and all of them together have
/// all of these. Health checks have one bit each.
pub proof fn lemma_flags_are_bits(
    a: hegel_phase_t,
    b: hegel_phase_t,
    r: u32,
    s: u32,
    c: hegel_health_check_t,
    d: hegel_health_check_t,
    t: u32,
    u: u32,
)
    requires
        call_ensures(hegel_phase_t::code, (a,), r),
        call_ensures(hegel_phase_t::code, (b,), s),
        call_ensures(hegel_health_check_t::code, (c,), t),
        call_ensures(hegel_health_check_t::code, (d,), u),
    ensures
        r == s <==> a == b,
        a == hegel_phase_t::HEGEL_PHASE_ALL ==> r == 1 + 2 + 4 + 8 + 16,
        a != hegel_phase_t::HEGEL_PHASE_ALL ==> (r == 1 || r == 2 || r == 4 || r == 8 || r == 16),
        t == u <==> c == d,
        t == 1 || t == 2 || t == 4 || t == 8,
{
}

/// A bit that is set by another is that one, or was set before.
proof fn lemma_one_bit_more(x: u32, a: u32, b: u32)
    requires
        a == 1 || a == 2 || a == 4 || a == 8 || a == 16,
        b == 1 || b == 2 || b == 4 || b == 8 || b == 16,
    ensures
        (x | a) & b != 0 <==> x & b != 0 || a == b,
        0 & b == 0,
{
    assert((x | a) & b != 0 <==> x & b != 0 || a == b) by (bit_vector)
        requires
            a == 1 || a == 2 || a == 4 || a == 8 || a == 16,
            b == 1 || b == 2 || b == 4 || b == 8 || b == 16,
    ;
    assert(0 & b == 0) by (bit_vector);
}

/// The bits of phases have the bit of a phase exactly where it is among them.
proof fn lemma_phases_have_their_bits(list: Seq<Phase>, p: Phase)
    ensures
        phases_bits_of(list) & phase_bit(p) != 0 <==> list.contains(p),
    decreases list.len(),
{
    if list.len() == 0 {
        lemma_one_bit_more(0, 1, phase_bit(p));
    } else {
        lemma_phases_have_their_bits(list.drop_last(), p);
        lemma_one_bit_more(phases_bits_of(list.drop_last()), phase_bit(list.last()), phase_bit(p));
        if list.contains(p) && list.last() != p {
            let i = choose|i: int| 0 <= i < list.len() && list[i] == p;
            assert(list.drop_last()[i] == p);
        }
        if list.drop_last().contains(p) {
            let i = choose|i: int| 0 <= i < list.len() - 1 && list.drop_last()[i] == p;
            assert(list[i] == p);
        }
        assert(list.last() == list[list.len() - 1]);
    }
}

/// The bits of health checks have the bit of one exactly where it is among them.
proof fn lemma_health_checks_have_their_bits(list: Seq<HealthCheck>, p: HealthCheck)
    ensures
        health_check_bits_of(list) & health_check_bit(p) != 0 <==> list.contains(p),
    decreases list.len(),
{
    if list.len() == 0 {
        lemma_one_bit_more(0, 1, health_check_bit(p));
    } else {
        lemma_health_checks_have_their_bits(list.drop_last(), p);
        lemma_one_bit_more(
            health_check_bits_of(list.drop_last()),
            health_check_bit(list.last()),
            health_check_bit(p),
        );
        if list.contains(p) && list.last() != p {
            let i = choose|i: int| 0 <= i < list.len() && list[i] == p;
            assert(list.drop_last()[i] == p);
        }
        if list.drop_last().contains(p) {
            let i = choose|i: int| 0 <= i < list.len() - 1 && list.drop_last()[i] == p;
            assert(list[i] == p);
        }
        assert(list.last() == list[list.len() - 1]);
    }
}

/// A list of phases, and one of health checks, is told by the bits of what is in it.
pub proof fn lemma_lists_are_told_by_their_bits(
    phases: &Vec<Phase>,
    checks: &Vec<HealthCheck>,
    r: u32,
    s: u32,
)
    requires
        call_ensures(phases_bits, (phases,), r),
        call_ensures(health_check_bits, (checks,), s),
    ensures
        r & 1 != 0 <==> phases@.contains(Phase::Explicit),
        r & 2 != 0 <==> phases@.contains(Phase::Reuse),
        r & 4 != 0 <==> phases@.contains(Phase::Generate),
        r & 8 != 0 <==> phases@.contains(Phase::Target),
        r & 16 != 0 <==> phases@.contains(Phase::Shrink),
        s & 1 != 0 <==> checks@.contains(HealthCheck::FilterTooMuch),
        s & 2 != 0 <==> checks@.contains(HealthCheck::TooSlow),
        s & 4 != 0 <==> checks@.contains(HealthCheck::TestCasesTooLarge),
        s & 8 != 0 <==> checks@.contains(HealthCheck::LargeInitialTestCase),
{
    lemma_phases_have_their_bits(phases@, Phase::Explicit);
    lemma_phases_have_their_bits(phases@, Phase::Reuse);
    lemma_phases_have_their_bits(phases@, Phase::Generate);
    lemma_phases_have_their_bits(phases@, Phase::Target);
    lemma_phases_have_their_bits(phases@, Phase::Shrink);
    lemma_health_checks_have_their_bits(checks@, HealthCheck::FilterTooMuch);
    lemma_health_checks_have_their_bits(checks@, HealthCheck::TooSlow);
    lemma_health_checks_have_their_bits(checks@, HealthCheck::TestCasesTooLarge);
    lemma_health_checks_have_their_bits(checks@, HealthCheck::LargeInitialTestCase);
}

} // verus!
