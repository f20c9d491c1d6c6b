//! Settings: what is set is what is read.
use crate::abi::settings::check_if_set;
use crate::abi::settings::health_check_bit;
use crate::abi::settings::hegel_settings_get_backend;
use crate::abi::settings::hegel_settings_get_database;
use crate::abi::settings::hegel_settings_get_derandomize;
use crate::abi::settings::hegel_settings_get_phases;
use crate::abi::settings::hegel_settings_get_print_blob;
use crate::abi::settings::hegel_settings_get_report_multiple_failures;
use crate::abi::settings::hegel_settings_get_seed;
use crate::abi::settings::hegel_settings_get_show_statistics;
use crate::abi::settings::hegel_settings_get_suppress_health_check;
use crate::abi::settings::hegel_settings_get_test_cases;
use crate::abi::settings::hegel_settings_get_unbounded_choices;
use crate::abi::settings::hegel_settings_get_verbosity;
use crate::abi::settings::hegel_settings_set_backend;
use crate::abi::settings::hegel_settings_set_database;
use crate::abi::settings::hegel_settings_set_derandomize;
use crate::abi::settings::hegel_settings_set_phases;
use crate::abi::settings::hegel_settings_set_print_blob;
use crate::abi::settings::hegel_settings_set_report_multiple_failures;
use crate::abi::settings::hegel_settings_set_seed;
use crate::abi::settings::hegel_settings_set_show_statistics;
use crate::abi::settings::hegel_settings_set_suppress_health_check;
use crate::abi::settings::hegel_settings_set_test_cases;
use crate::abi::settings::hegel_settings_set_unbounded_choices;
use crate::abi::settings::hegel_settings_set_verbosity;
use crate::abi::settings::lemma_health_checks_round_trip;
use crate::abi::settings::lemma_phases_round_trip;
use crate::abi::settings::phase_bit;
use crate::abi::settings::phase_if_set;
use crate::abi::settings::Database;
use crate::abi::settings::HealthCheck;
use crate::abi::settings::HegelSettings;
use crate::abi::settings::Phase;
use crate::abi::settings::Settings;
use crate::abi::settings::hegel_backend_t;
use crate::abi::settings::hegel_verbosity_t;
use crate::abi::hegel_result_t;
use crate::abi::HegelContext;
use crate::abi::TextArg;
use vstd::prelude::*;

verus! {

/// The number of test cases is read back as it was set, and nothing else changes.
pub proof fn lemma_test_cases_are_read_back(
    before: HegelSettings,
    after: HegelSettings,
    n: u64,
    r: hegel_result_t,
    got: Result<u64, hegel_result_t>,
)
    requires
        exists|c: &mut HegelContext, h: &mut HegelSettings| #[trigger]
            call_ensures(hegel_settings_set_test_cases, (c, Some(h), n), r) && *h == before && *final(h) == after,
        exists|c: &mut HegelContext| #[trigger]
            call_ensures(hegel_settings_get_test_cases, (c, Some(&after), false), got),
    ensures
        r == hegel_result_t::HEGEL_OK,
        got == Ok::<u64, hegel_result_t>(n),
        after.inner == (Settings { test_cases: after.inner.test_cases, ..before.inner }),
{
}

/// Whether runs of the same test are the same is read back as it was set, and nothing else changes.
pub proof fn lemma_derandomize_is_read_back(
    before: HegelSettings,
    after: HegelSettings,
    yes: bool,
    r: hegel_result_t,
    got: Result<bool, hegel_result_t>,
)
    requires
        exists|c: &mut HegelContext, h: &mut HegelSettings| #[trigger]
            call_ensures(hegel_settings_set_derandomize, (c, Some(h), yes), r) && *h == before && *final(h) == after,
        exists|c: &mut HegelContext| #[trigger]
            call_ensures(hegel_settings_get_derandomize, (c, Some(&after), false), got),
    ensures
        r == hegel_result_t::HEGEL_OK,
        got == Ok::<bool, hegel_result_t>(yes),
        after.inner == (Settings { derandomize: after.inner.derandomize, ..before.inner }),
{
}

/// Whether a run goes on to other failures is read back as it was set, and nothing else changes.
pub proof fn lemma_report_multiple_failures_are_read_back(
    before: HegelSettings,
    after: HegelSettings,
    yes: bool,
    r: hegel_result_t,
    got: Result<bool, hegel_result_t>,
)
    requires
        exists|c: &mut HegelContext, h: &mut HegelSettings| #[trigger]
            call_ensures(hegel_settings_set_report_multiple_failures, (c, Some(h), yes), r) && *h == before && *final(h) == after,
        exists|c: &mut HegelContext| #[trigger]
            call_ensures(hegel_settings_get_report_multiple_failures, (c, Some(&after), false), got),
    ensures
        r == hegel_result_t::HEGEL_OK,
        got == Ok::<bool, hegel_result_t>(yes),
        after.inner == (Settings { report_multiple_failures: after.inner.report_multiple_failures, ..before.inner }),
{
}

/// Whether statistics are shown is read back as it was set, and nothing else changes.
pub proof fn lemma_show_statistics_are_read_back(
    before: HegelSettings,
    after: HegelSettings,
    yes: bool,
    r: hegel_result_t,
    got: Result<bool, hegel_result_t>,
)
    requires
        exists|c: &mut HegelContext, h: &mut HegelSettings| #[trigger]
            call_ensures(hegel_settings_set_show_statistics, (c, Some(h), yes), r) && *h == before && *final(h) == after,
        exists|c: &mut HegelContext| #[trigger]
            call_ensures(hegel_settings_get_show_statistics, (c, Some(&after), false), got),
    ensures
        r == hegel_result_t::HEGEL_OK,
        got == Ok::<bool, hegel_result_t>(yes),
        after.inner == (Settings { show_statistics: after.inner.show_statistics, ..before.inner }),
{
}

/// Whether a test case may make any number of choices is read back as it was set, and nothing else changes.
pub proof fn lemma_unbounded_choices_is_read_back(
    before: HegelSettings,
    after: HegelSettings,
    yes: bool,
    r: hegel_result_t,
    got: Result<bool, hegel_result_t>,
)
    requires
        exists|c: &mut HegelContext, h: &mut HegelSettings| #[trigger]
            call_ensures(hegel_settings_set_unbounded_choices, (c, Some(h), yes), r) && *h == before && *final(h) == after,
        exists|c: &mut HegelContext| #[trigger]
            call_ensures(hegel_settings_get_unbounded_choices, (c, Some(&after), false), got),
    ensures
        r == hegel_result_t::HEGEL_OK,
        got == Ok::<bool, hegel_result_t>(yes),
        after.inner == (Settings { unbounded_choices: after.inner.unbounded_choices, ..before.inner }),
{
}

/// Whether failures are printed as blobs is read back as it was set, and nothing else changes.
pub proof fn lemma_print_blob_is_read_back(
    before: HegelSettings,
    after: HegelSettings,
    yes: bool,
    r: hegel_result_t,
    got: Result<bool, hegel_result_t>,
)
    requires
        exists|c: &mut HegelContext, h: &mut HegelSettings| #[trigger]
            call_ensures(hegel_settings_set_print_blob, (c, Some(h), yes), r) && *h == before && *final(h) == after,
        exists|c: &mut HegelContext| #[trigger]
            call_ensures(hegel_settings_get_print_blob, (c, Some(&after), false), got),
    ensures
        r == hegel_result_t::HEGEL_OK,
        got == Ok::<bool, hegel_result_t>(yes),
        after.inner == (Settings { print_blob: after.inner.print_blob, ..before.inner }),
{
}

/// The seed is read back as it was set, and nothing else changes. Without one, none is
/// read back.
pub proof fn lemma_seed_is_read_back(
    before: HegelSettings,
    after: HegelSettings,
    seed: u64,
    has_seed: bool,
    r: hegel_result_t,
    got: Result<(u64, bool), hegel_result_t>,
)
    requires
        exists|c: &mut HegelContext, h: &mut HegelSettings| #[trigger]
            call_ensures(hegel_settings_set_seed, (c, Some(h), seed, has_seed), r) && *h == before && *final(h) == after,
        exists|c: &mut HegelContext| #[trigger]
            call_ensures(hegel_settings_get_seed, (c, Some(&after), false), got),
    ensures
        r == hegel_result_t::HEGEL_OK,
        got is Ok && got->Ok_0.1 == has_seed,
        has_seed ==> got->Ok_0.0 == seed,
        after.inner == (Settings { seed: after.inner.seed, ..before.inner }),
{
}

/// The phases are read back as the bits that were set, of those that stand for a phase:
/// explicit examples, reuse, generation, targeting and shrinking, from the lowest bit on.
pub proof fn lemma_phases_are_read_back(
    before: HegelSettings,
    after: HegelSettings,
    bits: u32,
    r: hegel_result_t,
    got: Result<u32, hegel_result_t>,
)
    requires
        exists|c: &mut HegelContext, h: &mut HegelSettings| #[trigger]
            call_ensures(hegel_settings_set_phases, (c, Some(h), bits), r) && *h == before && *final(h) == after,
        exists|c: &mut HegelContext| #[trigger]
            call_ensures(hegel_settings_get_phases, (c, Some(&after), false), got),
    ensures
        r == hegel_result_t::HEGEL_OK,
        got == Ok::<u32, hegel_result_t>(bits & 31),
        after.inner.phases@.contains(Phase::Explicit) <==> bits & 1 != 0,
        after.inner.phases@.contains(Phase::Reuse) <==> bits & 2 != 0,
        after.inner.phases@.contains(Phase::Generate) <==> bits & 4 != 0,
        after.inner.phases@.contains(Phase::Target) <==> bits & 8 != 0,
        after.inner.phases@.contains(Phase::Shrink) <==> bits & 16 != 0,
        after.inner == (Settings { phases: after.inner.phases, ..before.inner }),
{
    lemma_phases_round_trip(bits);
    let a = phase_if_set(bits, Phase::Explicit);
    let b = phase_if_set(bits, Phase::Reuse);
    let c = phase_if_set(bits, Phase::Generate);
    let d = phase_if_set(bits, Phase::Target);
    let e = phase_if_set(bits, Phase::Shrink);
    lemma_joined(a, b, c, d, e);
    assert forall|x: Phase, y: Phase| #[trigger] phase_if_set(bits, x).contains(y) <==> x == y
        && bits & phase_bit(x) != 0 by {
        if bits & phase_bit(x) != 0 {
            assert(phase_if_set(bits, x)[0] == x);
        }
    }
}

/// The health checks that are not made are read back as the bits that were set, of those
/// that stand for one: too much filtering, slowness, test cases that are too large, and
/// a large first test case, from the lowest bit on.
pub proof fn lemma_health_checks_are_read_back(
    before: HegelSettings,
    after: HegelSettings,
    bits: u32,
    r: hegel_result_t,
    got: Result<u32, hegel_result_t>,
)
    requires
        exists|c: &mut HegelContext, h: &mut HegelSettings| #[trigger]
            call_ensures(hegel_settings_set_suppress_health_check, (c, Some(h), bits), r) && *h == before && *final(h) == after,
        exists|c: &mut HegelContext| #[trigger]
            call_ensures(hegel_settings_get_suppress_health_check, (c, Some(&after), false), got),
    ensures
        r == hegel_result_t::HEGEL_OK,
        got == Ok::<u32, hegel_result_t>(bits & 15),
        after.inner.suppress_health_check@.contains(HealthCheck::FilterTooMuch) <==> bits & 1 != 0,
        after.inner.suppress_health_check@.contains(HealthCheck::TooSlow) <==> bits & 2 != 0,
        after.inner.suppress_health_check@.contains(HealthCheck::TestCasesTooLarge) <==> bits & 4
            != 0,
        after.inner.suppress_health_check@.contains(HealthCheck::LargeInitialTestCase) <==> bits & 8
            != 0,
        after.inner == (Settings { suppress_health_check: after.inner.suppress_health_check, ..before.inner }),
{
    lemma_health_checks_round_trip(bits);
    let a = check_if_set(bits, HealthCheck::FilterTooMuch);
    let b = check_if_set(bits, HealthCheck::TooSlow);
    let c = check_if_set(bits, HealthCheck::TestCasesTooLarge);
    let d = check_if_set(bits, HealthCheck::LargeInitialTestCase);
    lemma_joined(a, b, c, d, Seq::empty());
    assert(a + b + c + d + Seq::empty() =~= a + b + c + d);
    assert forall|x: HealthCheck, y: HealthCheck| #[trigger] check_if_set(bits, x).contains(y)
        <==> x == y && bits & health_check_bit(x) != 0 by {
        if bits & health_check_bit(x) != 0 {
            assert(check_if_set(bits, x)[0] == x);
        }
    }
}

/// What five lists hold together.
proof fn lemma_joined<T>(a: Seq<T>, b: Seq<T>, c: Seq<T>, d: Seq<T>, e: Seq<T>)
    requires
        a.len() <= 1,
        b.len() <= 1,
        c.len() <= 1,
        d.len() <= 1,
        e.len() <= 1,
    ensures
        forall|x: T| #[trigger]
            (a + b + c + d + e).contains(x) <==> a.contains(x) || b.contains(x) || c.contains(x)
                || d.contains(x) || e.contains(x),
{
    let all = a + b + c + d + e;
    assert forall|x: T| #[trigger] all.contains(x) <==> a.contains(x) || b.contains(x)
        || c.contains(x) || d.contains(x) || e.contains(x) by {
        if a.contains(x) {
            assert(all[0] == x);
        }
        if b.contains(x) {
            assert(all[a.len() as int] == x);
        }
        if c.contains(x) {
            assert(all[(a.len() + b.len()) as int] == x);
        }
        if d.contains(x) {
            assert(all[(a.len() + b.len() + c.len()) as int] == x);
        }
        if e.contains(x) {
            assert(all[(a.len() + b.len() + c.len() + d.len()) as int] == x);
        }
        if all.contains(x) {
            let i = choose|i: int| 0 <= i < all.len() && all[i] == x;
            if i < a.len() {
                assert(a[i] == x);
            } else if i < a.len() + b.len() {
                assert(b[i - a.len()] == x);
            } else if i < a.len() + b.len() + c.len() {
                assert(c[i - a.len() - b.len()] == x);
            } else if i < a.len() + b.len() + c.len() + d.len() {
                assert(d[i - a.len() - b.len() - c.len()] == x);
            } else {
                assert(e[i - a.len() - b.len() - c.len() - d.len()] == x);
            }
        }
    }
}

/// How much is said is picked by a number from zero to three, for normal, quiet, verbose
/// and debug, and read back as such. Another number is refused, and nothing changes.
pub proof fn lemma_verbosity_is_read_back(
    before: HegelSettings,
    after: HegelSettings,
    v: u32,
    r: hegel_result_t,
    got: Result<hegel_verbosity_t, hegel_result_t>,
)
    requires
        exists|c: &mut HegelContext, h: &mut HegelSettings| #[trigger]
            call_ensures(hegel_settings_set_verbosity, (c, Some(h), v), r) && *h == before && *final(h) == after,
        exists|c: &mut HegelContext| #[trigger]
            call_ensures(hegel_settings_get_verbosity, (c, Some(&after), false), got),
    ensures
        r == hegel_result_t::HEGEL_OK <==> v <= 3,
        v > 3 ==> r == hegel_result_t::HEGEL_E_INVALID_ARG && after == before,
        v == 0 ==> got == Ok::<hegel_verbosity_t, hegel_result_t>(
            hegel_verbosity_t::HEGEL_VERBOSITY_NORMAL,
        ),
        v == 1 ==> got == Ok::<hegel_verbosity_t, hegel_result_t>(
            hegel_verbosity_t::HEGEL_VERBOSITY_QUIET,
        ),
        v == 2 ==> got == Ok::<hegel_verbosity_t, hegel_result_t>(
            hegel_verbosity_t::HEGEL_VERBOSITY_VERBOSE,
        ),
        v == 3 ==> got == Ok::<hegel_verbosity_t, hegel_result_t>(
            hegel_verbosity_t::HEGEL_VERBOSITY_DEBUG,
        ),
        after.inner == (Settings { verbosity: after.inner.verbosity, ..before.inner }),
{
}

/// Where random numbers come from is picked by one or two, for the default and for the
/// system, and read back as such. Another number is refused, and nothing changes.
pub proof fn lemma_backend_is_read_back(
    before: HegelSettings,
    after: HegelSettings,
    backend: u32,
    r: hegel_result_t,
    got: Result<hegel_backend_t, hegel_result_t>,
)
    requires
        exists|c: &mut HegelContext, h: &mut HegelSettings| #[trigger]
            call_ensures(hegel_settings_set_backend, (c, Some(h), backend), r) && *h == before && *final(h) == after,
        exists|c: &mut HegelContext| #[trigger]
            call_ensures(hegel_settings_get_backend, (c, Some(&after), false), got),
    ensures
        r == hegel_result_t::HEGEL_OK <==> backend == 1 || backend == 2,
        backend == 0 || backend > 2 ==> r == hegel_result_t::HEGEL_E_INVALID_ARG && after == before,
        backend == 1 ==> got == Ok::<hegel_backend_t, hegel_result_t>(
            hegel_backend_t::HEGEL_BACKEND_DEFAULT,
        ),
        backend == 2 ==> got == Ok::<hegel_backend_t, hegel_result_t>(
            hegel_backend_t::HEGEL_BACKEND_URANDOM,
        ),
        after.inner == (Settings { backend: after.inner.backend, ..before.inner }),
{
}

/// Where failures are kept is read back as it was set: no place of its own, no place at
/// all for an empty text, or a directory, but for its NULs. A text that is not UTF-8 is
/// refused, and nothing changes.
pub proof fn lemma_database_is_read_back(
    before: HegelSettings,
    after: HegelSettings,
    database: &TextArg,
    r: hegel_result_t,
    got: Result<Option<String>, hegel_result_t>,
)
    requires
        exists|c: &mut HegelContext, h: &mut HegelSettings| #[trigger]
            call_ensures(hegel_settings_set_database, (c, Some(h), database), r) && *h == before && *final(h) == after,
        exists|c: &mut HegelContext| #[trigger]
            call_ensures(hegel_settings_get_database, (c, Some(&after), false), got),
    ensures
        r == hegel_result_t::HEGEL_OK <==> !(database is NotUtf8),
        database is NotUtf8 ==> r == hegel_result_t::HEGEL_E_INVALID_ARG && after == before,
        database is Null ==> got is Ok && got->Ok_0 is None && after.inner.database is Unset,
        *database matches TextArg::Text(t) ==> {
            &&& got is Ok && got->Ok_0 is Some
            &&& t@.len() == 0 ==> got->Ok_0->Some_0@.len() == 0 && after.inner.database is Disabled
            &&& t@.len() > 0 ==> (after.inner.database matches Database::Path(p) && p@ == t@)
            &&& (forall|i: int| 0 <= i < t@.len() ==> #[trigger] t@[i] != '\0')
                ==> got->Ok_0->Some_0@ == t@
        },
{
    if let TextArg::Text(t) = *database {
        if forall|i: int| 0 <= i < t@.len() ==> #[trigger] t@[i] != '\0' {
            lemma_nothing_to_drop(t@);
        }
    }
}

/// A text without NULs is left as it is.
proof fn lemma_nothing_to_drop(t: Seq<char>)
    requires
        forall|i: int| 0 <= i < t.len() ==> #[trigger] t[i] != '\0',
    ensures
        t.filter(|c: char| c != '\0') == t,
    decreases t.len(),
{
    reveal(Seq::filter);
    let p = |c: char| c != '\0';
    if t.len() > 0 {
        lemma_nothing_to_drop(t.drop_last());
        assert(p(t.last()));
        assert(t.drop_last().push(t.last()) =~= t);
    }
}

} // verus!
