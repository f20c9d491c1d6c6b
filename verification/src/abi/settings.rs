//! Settings handles.
use crate::abi::ended;
use crate::abi::fault;
use crate::abi::gave;
use crate::abi::hegel_result_t;
use crate::abi::required_utf8_arg;
use crate::abi::shown;
use crate::abi::text_arg_fault;
use crate::abi::FaultView;
use crate::abi::HegelContext;
use crate::abi::TextArg;
use crate::abi::TextArgView;
use crate::bignum::BigUint;
use crate::decimal::append_natural;
use crate::decimal::decimal;
use vstd::prelude::*;
use vstd::string::StrSliceExecFns;
use vstd::string::StringExecFns;

verus! {

/// Where random numbers come from.
#[derive(Clone, Copy, Debug, PartialEq, Eq, Structural)]
pub enum Backend {
    /// A generator with a seed.
    Default,
    /// The randomness of the operating system.
    Urandom,
}

/// Where random numbers come from, as callers say it.
#[allow(non_camel_case_types)]
#[derive(Clone, Copy, Debug, PartialEq, Eq, Structural)]
pub enum hegel_backend_t {
    HEGEL_BACKEND_DEFAULT,
    HEGEL_BACKEND_URANDOM,
}

impl hegel_backend_t {
    /// The number that callers say.
    pub open spec fn number(self) -> u32 {
        match self {
            hegel_backend_t::HEGEL_BACKEND_DEFAULT => 1,
            hegel_backend_t::HEGEL_BACKEND_URANDOM => 2,
        }
    }

    /// The number that callers say.
    pub fn code(self) -> (r: u32)
        ensures
            r == self.number(),
    {
        match self {
            hegel_backend_t::HEGEL_BACKEND_DEFAULT => 1,
            hegel_backend_t::HEGEL_BACKEND_URANDOM => 2,
        }
    }
}

/// The number of a backend.
pub open spec fn backend_number(b: Backend) -> u32 {
    match b {
        Backend::Default => 1,
        Backend::Urandom => 2,
    }
}

/// How much the engine says.
#[derive(Clone, Copy, Debug, PartialEq, Eq, Structural)]
pub enum Verbosity {
    Quiet,
    Normal,
    Verbose,
    Debug,
}

/// How much the engine says, as callers say it.
#[allow(non_camel_case_types)]
#[derive(Clone, Copy, Debug, PartialEq, Eq, Structural)]
pub enum hegel_verbosity_t {
    HEGEL_VERBOSITY_NORMAL,
    HEGEL_VERBOSITY_QUIET,
    HEGEL_VERBOSITY_VERBOSE,
    HEGEL_VERBOSITY_DEBUG,
}

impl hegel_verbosity_t {
    /// The number that callers say.
    pub open spec fn number(self) -> u32 {
        match self {
            hegel_verbosity_t::HEGEL_VERBOSITY_NORMAL => 0,
            hegel_verbosity_t::HEGEL_VERBOSITY_QUIET => 1,
            hegel_verbosity_t::HEGEL_VERBOSITY_VERBOSE => 2,
            hegel_verbosity_t::HEGEL_VERBOSITY_DEBUG => 3,
        }
    }

    /// The number that callers say.
    pub fn code(self) -> (r: u32)
        ensures
            r == self.number(),
    {
        match self {
            hegel_verbosity_t::HEGEL_VERBOSITY_NORMAL => 0,
            hegel_verbosity_t::HEGEL_VERBOSITY_QUIET => 1,
            hegel_verbosity_t::HEGEL_VERBOSITY_VERBOSE => 2,
            hegel_verbosity_t::HEGEL_VERBOSITY_DEBUG => 3,
        }
    }
}

/// The number of a verbosity.
pub open spec fn verbosity_number(v: Verbosity) -> u32 {
    match v {
        Verbosity::Normal => 0,
        Verbosity::Quiet => 1,
        Verbosity::Verbose => 2,
        Verbosity::Debug => 3,
    }
}

/// A phase of a run.
#[derive(Clone, Copy, Debug, PartialEq, Eq, Structural)]
pub enum Phase {
    Explicit,
    Reuse,
    Generate,
    Target,
    Shrink,
}

/// A phase of a run, as callers say it: a bit.
#[allow(non_camel_case_types)]
#[derive(Clone, Copy, Debug, PartialEq, Eq, Structural)]
pub enum hegel_phase_t {
    HEGEL_PHASE_EXPLICIT,
    HEGEL_PHASE_REUSE,
    HEGEL_PHASE_GENERATE,
    HEGEL_PHASE_TARGET,
    HEGEL_PHASE_SHRINK,
    HEGEL_PHASE_ALL,
}

impl hegel_phase_t {
    /// The number that callers say.
    pub open spec fn number(self) -> u32 {
        match self {
            hegel_phase_t::HEGEL_PHASE_EXPLICIT => 1,
            hegel_phase_t::HEGEL_PHASE_REUSE => 2,
            hegel_phase_t::HEGEL_PHASE_GENERATE => 4,
            hegel_phase_t::HEGEL_PHASE_TARGET => 8,
            hegel_phase_t::HEGEL_PHASE_SHRINK => 16,
            hegel_phase_t::HEGEL_PHASE_ALL => 31,
        }
    }

    /// The number that callers say.
    pub fn code(self) -> (r: u32)
        ensures
            r == self.number(),
    {
        match self {
            hegel_phase_t::HEGEL_PHASE_EXPLICIT => 1,
            hegel_phase_t::HEGEL_PHASE_REUSE => 2,
            hegel_phase_t::HEGEL_PHASE_GENERATE => 4,
            hegel_phase_t::HEGEL_PHASE_TARGET => 8,
            hegel_phase_t::HEGEL_PHASE_SHRINK => 16,
            hegel_phase_t::HEGEL_PHASE_ALL => 31,
        }
    }
}

/// The bit of a phase.
pub open spec fn phase_bit(p: Phase) -> u32 {
    match p {
        Phase::Explicit => 1,
        Phase::Reuse => 2,
        Phase::Generate => 4,
        Phase::Target => 8,
        Phase::Shrink => 16,
    }
}

/// A health check.
#[derive(Clone, Copy, Debug, PartialEq, Eq, Structural)]
pub enum HealthCheck {
    FilterTooMuch,
    TooSlow,
    TestCasesTooLarge,
    LargeInitialTestCase,
}

/// A health check, as callers say it: a bit.
#[allow(non_camel_case_types)]
#[derive(Clone, Copy, Debug, PartialEq, Eq, Structural)]
pub enum hegel_health_check_t {
    HEGEL_HC_FILTER_TOO_MUCH,
    HEGEL_HC_TOO_SLOW,
    HEGEL_HC_TEST_CASES_TOO_LARGE,
    HEGEL_HC_LARGE_INITIAL_TEST_CASE,
}

impl hegel_health_check_t {
    /// The number that callers say.
    pub open spec fn number(self) -> u32 {
        match self {
            hegel_health_check_t::HEGEL_HC_FILTER_TOO_MUCH => 1,
            hegel_health_check_t::HEGEL_HC_TOO_SLOW => 2,
            hegel_health_check_t::HEGEL_HC_TEST_CASES_TOO_LARGE => 4,
            hegel_health_check_t::HEGEL_HC_LARGE_INITIAL_TEST_CASE => 8,
        }
    }

    /// The number that callers say.
    pub fn code(self) -> (r: u32)
        ensures
            r == self.number(),
    {
        match self {
            hegel_health_check_t::HEGEL_HC_FILTER_TOO_MUCH => 1,
            hegel_health_check_t::HEGEL_HC_TOO_SLOW => 2,
            hegel_health_check_t::HEGEL_HC_TEST_CASES_TOO_LARGE => 4,
            hegel_health_check_t::HEGEL_HC_LARGE_INITIAL_TEST_CASE => 8,
        }
    }
}

/// The bit of a health check.
pub open spec fn health_check_bit(c: HealthCheck) -> u32 {
    match c {
        HealthCheck::FilterTooMuch => 1,
        HealthCheck::TooSlow => 2,
        HealthCheck::TestCasesTooLarge => 4,
        HealthCheck::LargeInitialTestCase => 8,
    }
}

/// Where failures are kept.
#[derive(Debug)]
pub enum Database {
    /// In the default place.
    Unset,
    /// Nowhere.
    Disabled,
    /// In a directory.
    Path(String),
}

/// The view of a [`Database`].
pub enum DatabaseView {
    Unset,
    Disabled,
    Path(Seq<char>),
}

impl View for Database {
    type V = DatabaseView;

    open spec fn view(&self) -> DatabaseView {
        match self {
            Database::Unset => DatabaseView::Unset,
            Database::Disabled => DatabaseView::Disabled,
            Database::Path(p) => DatabaseView::Path(p@),
        }
    }
}

/// Settings.
#[derive(Debug)]
pub struct Settings {
    /// How many test cases a run has.
    pub test_cases: u64,
    /// How much the engine says.
    pub verbosity: Verbosity,
    /// The seed, if it is fixed.
    pub seed: Option<u64>,
    /// Whether runs of the same test are the same.
    pub derandomize: bool,
    /// Where failures are kept.
    pub database: Database,
    /// The phases of a run.
    pub phases: Vec<Phase>,
    /// The health checks that are not made.
    pub suppress_health_check: Vec<HealthCheck>,
    /// Whether a run goes on to other failures.
    pub report_multiple_failures: bool,
    /// Whether statistics are shown.
    pub show_statistics: bool,
    /// Whether a test case may make any number of choices.
    pub unbounded_choices: bool,
    /// Whether failures are printed as blobs.
    pub print_blob: bool,
    /// Where random numbers come from.
    pub backend: Backend,
}

/// Where a test lives.
#[derive(Debug)]
pub struct TestLocation {
    pub function: String,
    pub class: String,
    pub file: String,
    pub begin_line: u32,
}

/// A settings handle.
#[derive(Debug)]
pub struct HegelSettings {
    /// The settings.
    pub inner: Settings,
    /// What stored failures are kept under.
    pub database_key: Option<String>,
    /// The database as callers are told of it.
    pub database_c: Option<String>,
    /// Where the test lives.
    pub test_location: Option<TestLocation>,
}

/// The database as callers are told of it: nothing for the default place, an
/// empty text for none, else the directory. NULs cannot be handed out.
pub open spec fn database_text(d: DatabaseView) -> Option<Seq<char>> {
    match d {
        DatabaseView::Unset => None,
        DatabaseView::Disabled => Some(Seq::empty()),
        DatabaseView::Path(p) => Some(p.filter(|c: char| c != '\0')),
    }
}

/// The view of an optional text.
pub open spec fn text_view(t: Option<String>) -> Option<Seq<char>> {
    match t {
        Some(t) => Some(t@),
        None => None,
    }
}

/// A text without its NULs.
fn drop_nul(text: &str) -> (r: String)
    ensures
        r@ == text@.filter(|c: char| c != '\0'),
{
    reveal(Seq::filter);
    let n: usize = text.unicode_len();
    let mut out: String = String::from_str("");
    proof {
        reveal_strlit("");
        assert(out@ =~= text@.take(0).filter(|c: char| c != '\0'));
    }
    let mut i: usize = 0;
    while i < n
        invariant
            i <= n == text@.len(),
            out@ == text@.take(i as int).filter(|c: char| c != '\0'),
        decreases n - i,
    {
        reveal(Seq::filter);
        let c = text.get_char(i);
        assert(text@.take(i + 1).drop_last() =~= text@.take(i as int));
        if c != '\0' {
            out.push(c);
        }
        i = i + 1;
    }
    assert(text@.take(n as int) =~= text@);
    out
}

impl TestLocation {
    /// Whether two locations are the same.
    pub open spec fn same(&self, other: &TestLocation) -> bool {
        &&& self.function@ == other.function@
        &&& self.class@ == other.class@
        &&& self.file@ == other.file@
        &&& self.begin_line == other.begin_line
    }
}

impl HegelSettings {
    /// Whether callers are told of the database as it is.
    pub open spec fn wf(&self) -> bool {
        text_view(self.database_c) == database_text(self.inner.database@)
    }

    /// A handle on settings, without a database key and a test location.
    pub fn from_settings(inner: Settings) -> (r: Self)
        ensures
            r.inner == inner,
            r.database_key is None,
            r.test_location is None,
            r.wf(),
    {
        let database_c: Option<String> = match &inner.database {
            Database::Unset => None,
            Database::Disabled => {
                proof {
                    reveal_strlit("");
                }
                let empty: String = String::from_str("");
                assert(empty@ =~= Seq::empty());
                Some(empty)
            },
            Database::Path(path) => Some(drop_nul(path.as_str())),
        };
        HegelSettings { inner, database_key: None, database_c, test_location: None }
    }

    /// Where a verdict is reported for: nowhere unless a location was set.
    pub fn reporter(&self) -> (r: Option<TestLocation>)
        ensures
            match self.test_location {
                Some(location) => r matches Some(l) && l.same(&location),
                None => r is None,
            },
    {
        match &self.test_location {
            Some(l) => Some(
                TestLocation {
                    function: l.function.clone(),
                    class: l.class.clone(),
                    file: l.file.clone(),
                    begin_line: l.begin_line,
                },
            ),
            None => None,
        }
    }
}

/// What is wrong with a call that changes settings.
pub open spec fn writing(func: Seq<char>, missing: bool) -> Option<FaultView> {
    if missing {
        fault(hegel_result_t::HEGEL_E_INVALID_HANDLE, func + ": settings pointer is null"@)
    } else {
        None
    }
}

/// What is wrong with a call that reads settings.
pub open spec fn reading(func: Seq<char>, missing: bool, out_is_null: bool) -> Option<FaultView> {
    if missing {
        writing(func, missing)
    } else if out_is_null {
        fault(hegel_result_t::HEGEL_E_INVALID_ARG, func + ": out parameter is null"@)
    } else {
        None
    }
}

/// The settings of a call that reads them.
fn read<'a>(
    ctx: &mut HegelContext,
    func: &str,
    s: Option<&'a HegelSettings>,
    out_is_null: bool,
) -> (r: Result<&'a HegelSettings, hegel_result_t>)
    ensures
        match reading(func@, s is None, out_is_null) {
            Some(f) => r matches Err(code) && code == f.code && final(ctx)@ == shown(f.message),
            None => r matches Ok(h) && s == Some(h) && final(ctx)@ == Seq::<char>::empty(),
        },
{
    ctx.clear_last_error();
    match s {
        Some(h) => if out_is_null {
            Err(ctx.fail(hegel_result_t::HEGEL_E_INVALID_ARG, func, ": out parameter is null"))
        } else {
            Ok(h)
        },
        None => Err(
            ctx.fail(hegel_result_t::HEGEL_E_INVALID_HANDLE, func, ": settings pointer is null"),
        ),
    }
}

/// Refuses a call that changes settings.
fn refuse(ctx: &mut HegelContext, func: &str) -> (r: hegel_result_t)
    ensures
        ended(*final(ctx), r, writing(func@, true)),
{
    ctx.fail(hegel_result_t::HEGEL_E_INVALID_HANDLE, func, ": settings pointer is null")
}

/// A handle on the settings that a profile was resolved to, or the message of
/// why it could not be.
pub fn settings_new_for_profile(
    ctx: &mut HegelContext,
    func: &str,
    out_is_null: bool,
    resolved: Result<Settings, String>,
) -> (r: Result<HegelSettings, hegel_result_t>)
    ensures
        if out_is_null {
            &&& r matches Err(code) && code == hegel_result_t::HEGEL_E_INVALID_ARG
            &&& final(ctx)@ == shown(func@ + ": out parameter is null"@)
        } else {
            match resolved {
                Ok(settings) => {
                    &&& r matches Ok(h) && h.inner == settings && h.wf() && h.database_key is None
                        && h.test_location is None
                    &&& final(ctx)@ == Seq::<char>::empty()
                },
                Err(why) => {
                    &&& r matches Err(code) && code == hegel_result_t::HEGEL_E_INVALID_ARG
                    &&& final(ctx)@ == shown(func@ + ": "@ + why@)
                },
            }
        },
{
    ctx.clear_last_error();
    if out_is_null {
        return Err(
            ctx.fail(hegel_result_t::HEGEL_E_INVALID_ARG, func, ": out parameter is null"),
        );
    }
    match resolved {
        Ok(settings) => Ok(HegelSettings::from_settings(settings)),
        Err(why) => {
            let mut message = String::from_str(func);
            message.append(": ");
            message.append(why.as_str());
            ctx.set_last_error(message.as_str());
            Err(hegel_result_t::HEGEL_E_INVALID_ARG)
        },
    }
}

/// A handle on the settings that the profile of the environment was resolved
/// to.
pub fn hegel_settings_new(
    ctx: &mut HegelContext,
    out_is_null: bool,
    resolved: Result<Settings, String>,
) -> (r: Result<HegelSettings, hegel_result_t>)
    ensures
        if out_is_null {
            &&& r matches Err(code) && code == hegel_result_t::HEGEL_E_INVALID_ARG
            &&& final(ctx)@ == shown("hegel_settings_new"@ + ": out parameter is null"@)
        } else {
            match resolved {
                Ok(settings) => {
                    &&& r matches Ok(h) && h.inner == settings && h.wf() && h.database_key is None
                        && h.test_location is None
                    &&& final(ctx)@ == Seq::<char>::empty()
                },
                Err(why) => {
                    &&& r matches Err(code) && code == hegel_result_t::HEGEL_E_INVALID_ARG
                    &&& final(ctx)@ == shown("hegel_settings_new"@ + ": "@ + why@)
                },
            }
        },
{
    settings_new_for_profile(ctx, "hegel_settings_new", out_is_null, resolved)
}

/// The name of a profile, for a call that needs one.
pub fn profile_name(ctx: &mut HegelContext, func: &str, name: &TextArg) -> (r: Result<
    String,
    hegel_result_t,
>)
    ensures
        match text_arg_fault(func@, "name"@, name@) {
            Some(f) => r == Err::<String, hegel_result_t>(f.code) && final(ctx)@ == shown(
                f.message,
            ),
            None => r matches Ok(t) && name@ == TextArgView::Text(t@) && final(ctx)@ == Seq::<
                char,
            >::empty(),
        },
{
    ctx.clear_last_error();
    required_utf8_arg(ctx, func, "name", name)
}

/// The profile that settings are to be made from.
pub fn hegel_settings_new_for_profile(ctx: &mut HegelContext, name: &TextArg) -> (r: Result<
    String,
    hegel_result_t,
>)
    ensures
        match text_arg_fault("hegel_settings_new_for_profile"@, "name"@, name@) {
            Some(f) => r == Err::<String, hegel_result_t>(f.code) && final(ctx)@ == shown(
                f.message,
            ),
            None => r matches Ok(t) && name@ == TextArgView::Text(t@) && final(ctx)@ == Seq::<
                char,
            >::empty(),
        },
{
    profile_name(ctx, "hegel_settings_new_for_profile", name)
}

/// What is to be registered as a profile: its name and its settings. A null
/// name, or one that is not UTF-8, and null settings are refused.
pub fn hegel_settings_register_profile<'a>(
    ctx: &mut HegelContext,
    name: &TextArg,
    settings: Option<&'a HegelSettings>,
) -> (r: Result<(String, &'a Settings), hegel_result_t>)
    ensures
        match text_arg_fault("hegel_settings_register_profile"@, "name"@, name@) {
            Some(f) => r matches Err(code) && code == f.code && final(ctx)@ == shown(f.message),
            None => match settings {
                Some(h) => {
                    &&& r matches Ok((n, s)) && name@ == TextArgView::Text(n@) && *s == h.inner
                    &&& final(ctx)@ == Seq::<char>::empty()
                },
                None => {
                    &&& r matches Err(code) && code == hegel_result_t::HEGEL_E_INVALID_HANDLE
                    &&& final(ctx)@ == shown(
                        "hegel_settings_register_profile"@ + ": settings pointer is null"@,
                    )
                },
            },
        },
{
    let name = match profile_name(ctx, "hegel_settings_register_profile", name) {
        Ok(name) => name,
        Err(code) => {
            return Err(code);
        },
    };
    match read(ctx, "hegel_settings_register_profile", settings, false) {
        Ok(h) => Ok((name, &h.inner)),
        Err(code) => Err(code),
    }
}

/// What came of a call that registers or selects a profile.
pub fn profile_outcome(ctx: &mut HegelContext, func: &str, outcome: Result<(), String>) -> (r:
    hegel_result_t)
    ensures
        ended(
            *final(ctx),
            r,
            match outcome {
                Ok(_) => None,
                Err(why) => fault(
                    hegel_result_t::HEGEL_E_INVALID_ARG,
                    func@ + ": "@ + why@,
                ),
            },
        ),
{
    ctx.clear_last_error();
    match outcome {
        Ok(_) => hegel_result_t::HEGEL_OK,
        Err(why) => {
            let mut message = String::from_str(func);
            message.append(": ");
            message.append(why.as_str());
            ctx.set_last_error(message.as_str());
            hegel_result_t::HEGEL_E_INVALID_ARG
        },
    }
}

/// The name of the default profile to be: nothing to clear it.
pub fn hegel_set_default_profile(ctx: &mut HegelContext, name: &TextArg) -> (r: Result<
    Option<String>,
    hegel_result_t,
>)
    ensures
        match name@ {
            TextArgView::NotUtf8 => r matches Err(code) && code
                == hegel_result_t::HEGEL_E_INVALID_ARG && final(ctx)@ == shown(
                "hegel_set_default_profile"@ + ": "@ + "name"@ + " is not valid UTF-8"@,
            ),
            TextArgView::Null => r matches Ok(None) && final(ctx)@ == Seq::<char>::empty(),
            TextArgView::Text(t) => r matches Ok(Some(s)) && s@ == t && final(ctx)@ == Seq::<
                char,
            >::empty(),
        },
{
    ctx.clear_last_error();
    crate::abi::optional_utf8_arg(ctx, "hegel_set_default_profile", "name", name)
}

/// A backend with a number.
pub open spec fn backend_of(number: u32) -> Option<Backend> {
    if number == 1 {
        Some(Backend::Default)
    } else if number == 2 {
        Some(Backend::Urandom)
    } else {
        None
    }
}

/// A verbosity with a number.
pub open spec fn verbosity_of(number: u32) -> Option<Verbosity> {
    if number == 0 {
        Some(Verbosity::Normal)
    } else if number == 1 {
        Some(Verbosity::Quiet)
    } else if number == 2 {
        Some(Verbosity::Verbose)
    } else if number == 3 {
        Some(Verbosity::Debug)
    } else {
        None
    }
}

/// Backends and verbosities are the ones that their numbers stand for, and
/// what is told of them stands for the same.
pub proof fn lemma_numbers_round_trip(b: Backend, v: Verbosity)
    ensures
        backend_of(backend_number(b)) == Some(b),
        verbosity_of(verbosity_number(v)) == Some(v),
        backend_told(b).number() == backend_number(b),
        verbosity_told(v).number() == verbosity_number(v),
{
}

/// What is wrong with a call that changes settings to something that is
/// picked by number.
pub open spec fn picking(
    func: Seq<char>,
    missing: bool,
    known: bool,
    what: Seq<char>,
    number: u32,
) -> Option<FaultView> {
    if missing {
        writing(func, missing)
    } else if !known {
        fault(
            hegel_result_t::HEGEL_E_INVALID_ARG,
            func + (": unknown "@ + what + " "@ + decimal(number as nat)),
        )
    } else {
        None
    }
}

/// Refuses a number.
fn refuse_number(ctx: &mut HegelContext, func: &str, what: &str, number: u32) -> (r: hegel_result_t)
    ensures
        ended(*final(ctx), r, picking(func@, false, false, what@, number)),
{
    let mut message = String::from_str(": unknown ");
    message.append(what);
    message.append(" ");
    append_natural(&mut message, &BigUint::from_u128(number as u128));
    ctx.fail(hegel_result_t::HEGEL_E_INVALID_ARG, func, message.as_str())
}

/// Picks a backend by its number.
pub fn hegel_settings_set_backend(
    ctx: &mut HegelContext,
    s: Option<&mut HegelSettings>,
    backend: u32,
) -> (r: hegel_result_t)
    ensures
        ended(
            *final(ctx),
            r,
            picking(
                "hegel_settings_set_backend"@,
                s is None,
                backend_of(backend) is Some,
                "backend"@,
                backend,
            ),
        ),
        match s {
            Some(h) => *final(h) == match backend_of(backend) {
                Some(backend) => (HegelSettings {
                    inner: Settings { backend, ..h.inner },
                    ..*h
                }),
                None => *h,
            },
            None => true,
        },
{
    ctx.clear_last_error();
    match s {
        Some(h) => {
            if backend == 1 {
                h.inner.backend = Backend::Default;
            } else if backend == 2 {
                h.inner.backend = Backend::Urandom;
            } else {
                return refuse_number(ctx, "hegel_settings_set_backend", "backend", backend);
            }
            hegel_result_t::HEGEL_OK
        },
        None => refuse(ctx, "hegel_settings_set_backend"),
    }
}

/// Picks a verbosity by its number.
pub fn hegel_settings_set_verbosity(
    ctx: &mut HegelContext,
    s: Option<&mut HegelSettings>,
    v: u32,
) -> (r: hegel_result_t)
    ensures
        ended(
            *final(ctx),
            r,
            picking(
                "hegel_settings_set_verbosity"@,
                s is None,
                verbosity_of(v) is Some,
                "verbosity"@,
                v,
            ),
        ),
        match s {
            Some(h) => *final(h) == match verbosity_of(v) {
                Some(verbosity) => (HegelSettings {
                    inner: Settings { verbosity, ..h.inner },
                    ..*h
                }),
                None => *h,
            },
            None => true,
        },
{
    ctx.clear_last_error();
    match s {
        Some(h) => {
            if v == 0 {
                h.inner.verbosity = Verbosity::Normal;
            } else if v == 1 {
                h.inner.verbosity = Verbosity::Quiet;
            } else if v == 2 {
                h.inner.verbosity = Verbosity::Verbose;
            } else if v == 3 {
                h.inner.verbosity = Verbosity::Debug;
            } else {
                return refuse_number(ctx, "hegel_settings_set_verbosity", "verbosity", v);
            }
            hegel_result_t::HEGEL_OK
        },
        None => refuse(ctx, "hegel_settings_set_verbosity"),
    }
}

/// Sets how many test cases a run has.
pub fn hegel_settings_set_test_cases(
    ctx: &mut HegelContext,
    s: Option<&mut HegelSettings>,
    n: u64,
) -> (r: hegel_result_t)
    ensures
        ended(*final(ctx), r, writing("hegel_settings_set_test_cases"@, s is None)),
        match s {
            Some(h) => *final(h) == (HegelSettings {
                inner: Settings { test_cases: n, ..h.inner },
                ..*h
            }),
            None => true,
        },
{
    ctx.clear_last_error();
    match s {
        Some(h) => {
            h.inner.test_cases = n;
            hegel_result_t::HEGEL_OK
        },
        None => refuse(ctx, "hegel_settings_set_test_cases"),
    }
}

/// Sets whether runs of the same test are the same.
pub fn hegel_settings_set_derandomize(
    ctx: &mut HegelContext,
    s: Option<&mut HegelSettings>,
    derandomize: bool,
) -> (r: hegel_result_t)
    ensures
        ended(*final(ctx), r, writing("hegel_settings_set_derandomize"@, s is None)),
        match s {
            Some(h) => *final(h) == (HegelSettings {
                inner: Settings { derandomize: derandomize, ..h.inner },
                ..*h
            }),
            None => true,
        },
{
    ctx.clear_last_error();
    match s {
        Some(h) => {
            h.inner.derandomize = derandomize;
            hegel_result_t::HEGEL_OK
        },
        None => refuse(ctx, "hegel_settings_set_derandomize"),
    }
}

/// Sets whether a run goes on to other failures.
pub fn hegel_settings_set_report_multiple_failures(
    ctx: &mut HegelContext,
    s: Option<&mut HegelSettings>,
    yes: bool,
) -> (r: hegel_result_t)
    ensures
        ended(*final(ctx), r, writing("hegel_settings_set_report_multiple_failures"@, s is None)),
        match s {
            Some(h) => *final(h) == (HegelSettings {
                inner: Settings { report_multiple_failures: yes, ..h.inner },
                ..*h
            }),
            None => true,
        },
{
    ctx.clear_last_error();
    match s {
        Some(h) => {
            h.inner.report_multiple_failures = yes;
            hegel_result_t::HEGEL_OK
        },
        None => refuse(ctx, "hegel_settings_set_report_multiple_failures"),
    }
}

/// Sets whether statistics are shown.
pub fn hegel_settings_set_show_statistics(
    ctx: &mut HegelContext,
    s: Option<&mut HegelSettings>,
    yes: bool,
) -> (r: hegel_result_t)
    ensures
        ended(*final(ctx), r, writing("hegel_settings_set_show_statistics"@, s is None)),
        match s {
            Some(h) => *final(h) == (HegelSettings {
                inner: Settings { show_statistics: yes, ..h.inner },
                ..*h
            }),
            None => true,
        },
{
    ctx.clear_last_error();
    match s {
        Some(h) => {
            h.inner.show_statistics = yes;
            hegel_result_t::HEGEL_OK
        },
        None => refuse(ctx, "hegel_settings_set_show_statistics"),
    }
}

/// Sets whether a test case may make any number of choices.
pub fn hegel_settings_set_unbounded_choices(
    ctx: &mut HegelContext,
    s: Option<&mut HegelSettings>,
    yes: bool,
) -> (r: hegel_result_t)
    ensures
        ended(*final(ctx), r, writing("hegel_settings_set_unbounded_choices"@, s is None)),
        match s {
            Some(h) => *final(h) == (HegelSettings {
                inner: Settings { unbounded_choices: yes, ..h.inner },
                ..*h
            }),
            None => true,
        },
{
    ctx.clear_last_error();
    match s {
        Some(h) => {
            h.inner.unbounded_choices = yes;
            hegel_result_t::HEGEL_OK
        },
        None => refuse(ctx, "hegel_settings_set_unbounded_choices"),
    }
}

/// Sets whether failures are printed as blobs.
pub fn hegel_settings_set_print_blob(
    ctx: &mut HegelContext,
    s: Option<&mut HegelSettings>,
    yes: bool,
) -> (r: hegel_result_t)
    ensures
        ended(*final(ctx), r, writing("hegel_settings_set_print_blob"@, s is None)),
        match s {
            Some(h) => *final(h) == (HegelSettings {
                inner: Settings { print_blob: yes, ..h.inner },
                ..*h
            }),
            None => true,
        },
{
    ctx.clear_last_error();
    match s {
        Some(h) => {
            h.inner.print_blob = yes;
            hegel_result_t::HEGEL_OK
        },
        None => refuse(ctx, "hegel_settings_set_print_blob"),
    }
}

/// The seed of a call.
pub open spec fn seed_of(seed: u64, has_seed: bool) -> Option<u64> {
    if has_seed {
        Some(seed)
    } else {
        None
    }
}

/// Fixes the seed, or leaves it open.
pub fn hegel_settings_set_seed(
    ctx: &mut HegelContext,
    s: Option<&mut HegelSettings>,
    seed: u64,
    has_seed: bool,
) -> (r: hegel_result_t)
    ensures
        ended(*final(ctx), r, writing("hegel_settings_set_seed"@, s is None)),
        match s {
            Some(h) => *final(h) == (HegelSettings {
                inner: Settings { seed: seed_of(seed, has_seed), ..h.inner },
                ..*h
            }),
            None => true,
        },
{
    ctx.clear_last_error();
    match s {
        Some(h) => {
            h.inner.seed = if has_seed {
                Some(seed)
            } else {
                None
            };
            hegel_result_t::HEGEL_OK
        },
        None => refuse(ctx, "hegel_settings_set_seed"),
    }
}

/// What is wrong with a call that changes settings to a text.
pub open spec fn wording(func: Seq<char>, missing: bool, name: Seq<char>, arg: TextArgView) -> Option<
    FaultView,
> {
    if missing {
        writing(func, missing)
    } else if arg is NotUtf8 {
        fault(
            hegel_result_t::HEGEL_E_INVALID_ARG,
            func + (": "@ + name + " is not valid UTF-8"@),
        )
    } else {
        None
    }
}

/// The database that a text stands for: the default place where there is no
/// text, nowhere for an empty one, else a directory.
pub open spec fn database_of(arg: TextArgView) -> DatabaseView {
    match arg {
        TextArgView::Text(t) => if t.len() == 0 {
            DatabaseView::Disabled
        } else {
            DatabaseView::Path(t)
        },
        _ => DatabaseView::Unset,
    }
}

/// Sets where failures are kept.
pub fn hegel_settings_set_database(
    ctx: &mut HegelContext,
    s: Option<&mut HegelSettings>,
    database: &TextArg,
) -> (r: hegel_result_t)
    ensures
        ended(
            *final(ctx),
            r,
            wording("hegel_settings_set_database"@, s is None, "path"@, database@),
        ),
        match s {
            Some(h) => if database@ is NotUtf8 {
                *final(h) == *h
            } else {
                &&& final(h).inner.database@ == database_of(database@)
                &&& final(h).wf()
                &&& *final(h) == (HegelSettings {
                    inner: Settings { database: final(h).inner.database, ..h.inner },
                    database_c: final(h).database_c,
                    ..*h
                })
            },
            None => true,
        },
{
    ctx.clear_last_error();
    match s {
        Some(h) => {
            match database {
                TextArg::Null => {
                    h.inner.database = Database::Unset;
                    h.database_c = None;
                },
                TextArg::NotUtf8 => {
                    return ctx.fail(
                        hegel_result_t::HEGEL_E_INVALID_ARG,
                        "hegel_settings_set_database",
                        refusal_of("path").as_str(),
                    );
                },
                TextArg::Text(t) => {
                    if t.as_str().unicode_len() == 0 {
                        assert(t@ =~= Seq::empty());
                        h.inner.database = Database::Disabled;
                        h.database_c = Some(t.clone());
                    } else {
                        h.inner.database = Database::Path(t.clone());
                        h.database_c = Some(drop_nul(t.as_str()));
                    }
                },
            }
            hegel_result_t::HEGEL_OK
        },
        None => refuse(ctx, "hegel_settings_set_database"),
    }
}

/// What is said of a text that is not UTF-8.
fn refusal_of(name: &str) -> (r: String)
    ensures
        r@ == ": "@ + name@ + " is not valid UTF-8"@,
{
    let mut s = String::from_str(": ");
    s.append(name);
    s.append(" is not valid UTF-8");
    s
}

/// Sets what stored failures are kept under, or clears it.
pub fn hegel_settings_set_database_key(
    ctx: &mut HegelContext,
    s: Option<&mut HegelSettings>,
    key: &TextArg,
) -> (r: hegel_result_t)
    ensures
        ended(
            *final(ctx),
            r,
            wording("hegel_settings_set_database_key"@, s is None, "key"@, key@),
        ),
        match s {
            Some(h) => if key@ is NotUtf8 {
                *final(h) == *h
            } else {
                &&& text_view(final(h).database_key) == match key@ {
                    TextArgView::Text(t) => Some(t),
                    _ => None,
                }
                &&& *final(h) == (HegelSettings { database_key: final(h).database_key, ..*h })
            },
            None => true,
        },
{
    ctx.clear_last_error();
    match s {
        Some(h) => {
            match key {
                TextArg::Null => {
                    h.database_key = None;
                },
                TextArg::NotUtf8 => {
                    return ctx.fail(
                        hegel_result_t::HEGEL_E_INVALID_ARG,
                        "hegel_settings_set_database_key",
                        refusal_of("key").as_str(),
                    );
                },
                TextArg::Text(t) => {
                    h.database_key = Some(t.clone());
                },
            }
            hegel_result_t::HEGEL_OK
        },
        None => refuse(ctx, "hegel_settings_set_database_key"),
    }
}

/// What is wrong with a test location. Of several things that are wrong, the
/// message is about the last one.
pub open spec fn location_fault(
    missing: bool,
    file: TextArgView,
    class_name: TextArgView,
    function: TextArgView,
) -> Option<FaultView> {
    let func = "hegel_settings_set_test_location"@;
    if missing {
        writing(func, missing)
    } else {
        match text_arg_fault(func, "function"@, function) {
            Some(f) => Some(f),
            None => match text_arg_fault(func, "class_name"@, class_name) {
                Some(f) => Some(f),
                None => text_arg_fault(func, "file"@, file),
            },
        }
    }
}

/// Sets where the test lives.
pub fn hegel_settings_set_test_location(
    ctx: &mut HegelContext,
    s: Option<&mut HegelSettings>,
    file: &TextArg,
    begin_line: u32,
    class_name: &TextArg,
    function: &TextArg,
) -> (r: hegel_result_t)
    ensures
        ended(*final(ctx), r, location_fault(s is None, file@, class_name@, function@)),
        match s {
            Some(h) => if r == hegel_result_t::HEGEL_OK {
                &&& *final(h) == (HegelSettings { test_location: final(h).test_location, ..*h })
                &&& final(h).test_location matches Some(l) && file@ == TextArgView::Text(l.file@)
                    && class_name@ == TextArgView::Text(l.class@) && function@
                    == TextArgView::Text(l.function@) && l.begin_line == begin_line
            } else {
                *final(h) == *h
            },
            None => true,
        },
{
    ctx.clear_last_error();
    match s {
        Some(h) => {
            let file = required_utf8_arg(ctx, "hegel_settings_set_test_location", "file", file);
            let class = required_utf8_arg(
                ctx,
                "hegel_settings_set_test_location",
                "class_name",
                class_name,
            );
            let function = required_utf8_arg(
                ctx,
                "hegel_settings_set_test_location",
                "function",
                function,
            );
            match (file, class, function) {
                (Ok(file), Ok(class), Ok(function)) => {
                    h.test_location = Some(TestLocation { function, class, file, begin_line });
                    hegel_result_t::HEGEL_OK
                },
                _ => hegel_result_t::HEGEL_E_INVALID_ARG,
            }
        },
        None => refuse(ctx, "hegel_settings_set_test_location"),
    }
}

/// The phase with a bit of a number, if it is set.
pub open spec fn phase_if_set(bits: u32, x: Phase) -> Seq<Phase> {
    if bits & phase_bit(x) != 0 {
        seq![x]
    } else {
        Seq::empty()
    }
}

/// The phases whose bits are set.
pub open spec fn phases_with(bits: u32) -> Seq<Phase> {
    phase_if_set(bits, Phase::Explicit) + phase_if_set(bits, Phase::Reuse) + phase_if_set(
        bits,
        Phase::Generate,
    ) + phase_if_set(bits, Phase::Target) + phase_if_set(bits, Phase::Shrink)
}

/// The bits of phases.
pub open spec fn phases_bits_of(list: Seq<Phase>) -> u32
    decreases list.len(),
{
    if list.len() == 0 {
        0
    } else {
        phases_bits_of(list.drop_last()) | phase_bit(list.last())
    }
}

/// The bits of phases.
pub fn phases_bits(list: &Vec<Phase>) -> (r: u32)
    ensures
        r == phases_bits_of(list@),
{
    let mut bits: u32 = 0;
    let mut i: usize = 0;
    assert(list@.take(0) =~= Seq::empty());
    while i < list.len()
        invariant
            i <= list@.len(),
            bits == phases_bits_of(list@.take(i as int)),
        decreases list@.len() - i,
    {
        let bit: u32 = match list[i] {
            Phase::Explicit => 1,
            Phase::Reuse => 2,
            Phase::Generate => 4,
            Phase::Target => 8,
            Phase::Shrink => 16,
        };
        assert(list@.take(i + 1).drop_last() =~= list@.take(i as int));
        bits = bits | bit;
        i = i + 1;
    }
    assert(list@.take(i as int) =~= list@);
    bits
}

/// The bits of two lists together.
proof fn lemma_phases_add(a: Seq<Phase>, b: Seq<Phase>)
    ensures
        phases_bits_of(a + b) == phases_bits_of(a) | phases_bits_of(b),
    decreases b.len(),
{
    if b.len() == 0 {
        assert(a + b =~= a);
        let x = phases_bits_of(a);
        assert(x | 0u32 == x) by (bit_vector);
    } else {
        assert((a + b).drop_last() =~= a + b.drop_last());
        lemma_phases_add(a, b.drop_last());
        let (x, y, z) = (phases_bits_of(a), phases_bits_of(b.drop_last()), phase_bit(b.last()));
        assert((x | y) | z == x | (y | z)) by (bit_vector);
    }
}

/// The bits of a phase that may be there.
proof fn lemma_phases_single(bits: u32, x: Phase)
    ensures
        phases_bits_of(phase_if_set(bits, x)) == bits & phase_bit(x),
{
    reveal_with_fuel(phases_bits_of, 2);
    assert(seq![x].drop_last() =~= Seq::<Phase>::empty());
    let b = phase_bit(x);
    assert(0u32 | b == b) by (bit_vector);
    assert((b == 1 || b == 2 || b == 4 || b == 8 || b == 16) && bits & b != 0 ==> bits & b == b)
        by (bit_vector);
}

/// Reading what was set gives back the bits that stand for phases.
pub proof fn lemma_phases_round_trip(bits: u32)
    ensures
        phases_bits_of(phases_with(bits)) == bits & 31,
{
    lemma_phases_single(bits, Phase::Explicit);
    lemma_phases_single(bits, Phase::Reuse);
    lemma_phases_single(bits, Phase::Generate);
    lemma_phases_single(bits, Phase::Target);
    lemma_phases_single(bits, Phase::Shrink);
    let (a, b, c, d, e) = (
        phase_if_set(bits, Phase::Explicit),
        phase_if_set(bits, Phase::Reuse),
        phase_if_set(bits, Phase::Generate),
        phase_if_set(bits, Phase::Target),
        phase_if_set(bits, Phase::Shrink),
    );
    lemma_phases_add(a, b);
    lemma_phases_add(a + b, c);
    lemma_phases_add(a + b + c, d);
    lemma_phases_add(a + b + c + d, e);
    assert(((((bits & 1) | (bits & 2)) | (bits & 4)) | (bits & 8)) | (bits & 16) == bits & 31)
        by (bit_vector);
}

/// Sets the phases whose bits are given.
pub fn hegel_settings_set_phases(
    ctx: &mut HegelContext,
    s: Option<&mut HegelSettings>,
    bits: u32,
) -> (r: hegel_result_t)
    ensures
        ended(*final(ctx), r, writing("hegel_settings_set_phases"@, s is None)),
        match s {
            Some(h) => {
                &&& final(h).inner.phases@ == phases_with(bits)
                &&& *final(h) == (HegelSettings {
                    inner: Settings { phases: final(h).inner.phases, ..h.inner },
                    ..*h
                })
            },
            None => true,
        },
{
    ctx.clear_last_error();
    match s {
        Some(h) => {
            let mut list: Vec<Phase> = Vec::new();
            if bits & 1 != 0 {
                list.push(Phase::Explicit);
            }
            if bits & 2 != 0 {
                list.push(Phase::Reuse);
            }
            if bits & 4 != 0 {
                list.push(Phase::Generate);
            }
            if bits & 8 != 0 {
                list.push(Phase::Target);
            }
            if bits & 16 != 0 {
                list.push(Phase::Shrink);
            }
            assert(list@ =~= phases_with(bits));
            h.inner.phases = list;
            hegel_result_t::HEGEL_OK
        },
        None => refuse(ctx, "hegel_settings_set_phases"),
    }
}

/// The bits of the phases that are set.
pub fn hegel_settings_get_phases(
    ctx: &mut HegelContext,
    s: Option<&HegelSettings>,
    out_is_null: bool,
) -> (r: Result<u32, hegel_result_t>)
    ensures
        gave(
            *final(ctx),
            r,
            reading("hegel_settings_get_phases"@, s is None, out_is_null),
            phases_bits_of(s->0.inner.phases@),
        ),
{
    match read(ctx, "hegel_settings_get_phases", s, out_is_null) {
        Ok(h) => Ok(phases_bits(&h.inner.phases)),
        Err(code) => Err(code),
    }
}

/// The health check with a bit of a number, if it is set.
pub open spec fn check_if_set(bits: u32, x: HealthCheck) -> Seq<HealthCheck> {
    if bits & health_check_bit(x) != 0 {
        seq![x]
    } else {
        Seq::empty()
    }
}

/// The health checks whose bits are set.
pub open spec fn health_checks_with(bits: u32) -> Seq<HealthCheck> {
    check_if_set(bits, HealthCheck::FilterTooMuch) + check_if_set(bits, HealthCheck::TooSlow)
        + check_if_set(bits, HealthCheck::TestCasesTooLarge) + check_if_set(
        bits,
        HealthCheck::LargeInitialTestCase,
    )
}

/// The bits of health checks.
pub open spec fn health_check_bits_of(list: Seq<HealthCheck>) -> u32
    decreases list.len(),
{
    if list.len() == 0 {
        0
    } else {
        health_check_bits_of(list.drop_last()) | health_check_bit(list.last())
    }
}

/// The bits of health checks.
pub fn health_check_bits(list: &Vec<HealthCheck>) -> (r: u32)
    ensures
        r == health_check_bits_of(list@),
{
    let mut bits: u32 = 0;
    let mut i: usize = 0;
    assert(list@.take(0) =~= Seq::empty());
    while i < list.len()
        invariant
            i <= list@.len(),
            bits == health_check_bits_of(list@.take(i as int)),
        decreases list@.len() - i,
    {
        let bit: u32 = match list[i] {
            HealthCheck::FilterTooMuch => 1,
            HealthCheck::TooSlow => 2,
            HealthCheck::TestCasesTooLarge => 4,
            HealthCheck::LargeInitialTestCase => 8,
        };
        assert(list@.take(i + 1).drop_last() =~= list@.take(i as int));
        bits = bits | bit;
        i = i + 1;
    }
    assert(list@.take(i as int) =~= list@);
    bits
}

/// The bits of two lists together.
proof fn lemma_health_checks_add(a: Seq<HealthCheck>, b: Seq<HealthCheck>)
    ensures
        health_check_bits_of(a + b) == health_check_bits_of(a) | health_check_bits_of(b),
    decreases b.len(),
{
    if b.len() == 0 {
        assert(a + b =~= a);
        let x = health_check_bits_of(a);
        assert(x | 0u32 == x) by (bit_vector);
    } else {
        assert((a + b).drop_last() =~= a + b.drop_last());
        lemma_health_checks_add(a, b.drop_last());
        let (x, y, z) = (health_check_bits_of(a), health_check_bits_of(b.drop_last()), health_check_bit(b.last()));
        assert((x | y) | z == x | (y | z)) by (bit_vector);
    }
}

/// The bits of a health check that may be there.
proof fn lemma_health_checks_single(bits: u32, x: HealthCheck)
    ensures
        health_check_bits_of(check_if_set(bits, x)) == bits & health_check_bit(x),
{
    reveal_with_fuel(health_check_bits_of, 2);
    assert(seq![x].drop_last() =~= Seq::<HealthCheck>::empty());
    let b = health_check_bit(x);
    assert(0u32 | b == b) by (bit_vector);
    assert((b == 1 || b == 2 || b == 4 || b == 8) && bits & b != 0 ==> bits & b == b)
        by (bit_vector);
}

/// Reading what was set gives back the bits that stand for health checks.
pub proof fn lemma_health_checks_round_trip(bits: u32)
    ensures
        health_check_bits_of(health_checks_with(bits)) == bits & 15,
{
    lemma_health_checks_single(bits, HealthCheck::FilterTooMuch);
    lemma_health_checks_single(bits, HealthCheck::TooSlow);
    lemma_health_checks_single(bits, HealthCheck::TestCasesTooLarge);
    lemma_health_checks_single(bits, HealthCheck::LargeInitialTestCase);
    let (a, b, c, d) = (
        check_if_set(bits, HealthCheck::FilterTooMuch),
        check_if_set(bits, HealthCheck::TooSlow),
        check_if_set(bits, HealthCheck::TestCasesTooLarge),
        check_if_set(bits, HealthCheck::LargeInitialTestCase),
    );
    lemma_health_checks_add(a, b);
    lemma_health_checks_add(a + b, c);
    lemma_health_checks_add(a + b + c, d);
    assert((((bits & 1) | (bits & 2)) | (bits & 4)) | (bits & 8) == bits & 15) by (bit_vector);
}

/// Sets the health checks whose bits are given, in place of those that were set before.
pub fn hegel_settings_set_suppress_health_check(
    ctx: &mut HegelContext,
    s: Option<&mut HegelSettings>,
    bits: u32,
) -> (r: hegel_result_t)
    ensures
        ended(*final(ctx), r, writing("hegel_settings_set_suppress_health_check"@, s is None)),
        match s {
            Some(h) => {
                &&& final(h).inner.suppress_health_check@ == health_checks_with(bits)
                &&& *final(h) == (HegelSettings {
                    inner: Settings { suppress_health_check: final(h).inner.suppress_health_check, ..h.inner },
                    ..*h
                })
            },
            None => true,
        },
{
    ctx.clear_last_error();
    match s {
        Some(h) => {
            let mut list: Vec<HealthCheck> = Vec::new();
            if bits & 1 != 0 {
                list.push(HealthCheck::FilterTooMuch);
            }
            if bits & 2 != 0 {
                list.push(HealthCheck::TooSlow);
            }
            if bits & 4 != 0 {
                list.push(HealthCheck::TestCasesTooLarge);
            }
            if bits & 8 != 0 {
                list.push(HealthCheck::LargeInitialTestCase);
            }
            assert(list@ =~= health_checks_with(bits));
            h.inner.suppress_health_check = list;
            hegel_result_t::HEGEL_OK
        },
        None => refuse(ctx, "hegel_settings_set_suppress_health_check"),
    }
}

/// The bits of the health checks that are set.
pub fn hegel_settings_get_suppress_health_check(
    ctx: &mut HegelContext,
    s: Option<&HegelSettings>,
    out_is_null: bool,
) -> (r: Result<u32, hegel_result_t>)
    ensures
        gave(
            *final(ctx),
            r,
            reading("hegel_settings_get_suppress_health_check"@, s is None, out_is_null),
            health_check_bits_of(s->0.inner.suppress_health_check@),
        ),
{
    match read(ctx, "hegel_settings_get_suppress_health_check", s, out_is_null) {
        Ok(h) => Ok(health_check_bits(&h.inner.suppress_health_check)),
        Err(code) => Err(code),
    }
}

/// How many test cases a run has.
pub fn hegel_settings_get_test_cases(
    ctx: &mut HegelContext,
    s: Option<&HegelSettings>,
    out_is_null: bool,
) -> (r: Result<u64, hegel_result_t>)
    ensures
        gave(
            *final(ctx),
            r,
            reading("hegel_settings_get_test_cases"@, s is None, out_is_null),
            s->0.inner.test_cases,
        ),
{
    match read(ctx, "hegel_settings_get_test_cases", s, out_is_null) {
        Ok(h) => Ok(h.inner.test_cases),
        Err(code) => Err(code),
    }
}

/// Whether runs of the same test are the same.
pub fn hegel_settings_get_derandomize(
    ctx: &mut HegelContext,
    s: Option<&HegelSettings>,
    out_is_null: bool,
) -> (r: Result<bool, hegel_result_t>)
    ensures
        gave(
            *final(ctx),
            r,
            reading("hegel_settings_get_derandomize"@, s is None, out_is_null),
            s->0.inner.derandomize,
        ),
{
    match read(ctx, "hegel_settings_get_derandomize", s, out_is_null) {
        Ok(h) => Ok(h.inner.derandomize),
        Err(code) => Err(code),
    }
}

/// Whether a run goes on to other failures.
pub fn hegel_settings_get_report_multiple_failures(
    ctx: &mut HegelContext,
    s: Option<&HegelSettings>,
    out_is_null: bool,
) -> (r: Result<bool, hegel_result_t>)
    ensures
        gave(
            *final(ctx),
            r,
            reading("hegel_settings_get_report_multiple_failures"@, s is None, out_is_null),
            s->0.inner.report_multiple_failures,
        ),
{
    match read(ctx, "hegel_settings_get_report_multiple_failures", s, out_is_null) {
        Ok(h) => Ok(h.inner.report_multiple_failures),
        Err(code) => Err(code),
    }
}

/// Whether statistics are shown.
pub fn hegel_settings_get_show_statistics(
    ctx: &mut HegelContext,
    s: Option<&HegelSettings>,
    out_is_null: bool,
) -> (r: Result<bool, hegel_result_t>)
    ensures
        gave(
            *final(ctx),
            r,
            reading("hegel_settings_get_show_statistics"@, s is None, out_is_null),
            s->0.inner.show_statistics,
        ),
{
    match read(ctx, "hegel_settings_get_show_statistics", s, out_is_null) {
        Ok(h) => Ok(h.inner.show_statistics),
        Err(code) => Err(code),
    }
}

/// Whether a test case may make any number of choices.
pub fn hegel_settings_get_unbounded_choices(
    ctx: &mut HegelContext,
    s: Option<&HegelSettings>,
    out_is_null: bool,
) -> (r: Result<bool, hegel_result_t>)
    ensures
        gave(
            *final(ctx),
            r,
            reading("hegel_settings_get_unbounded_choices"@, s is None, out_is_null),
            s->0.inner.unbounded_choices,
        ),
{
    match read(ctx, "hegel_settings_get_unbounded_choices", s, out_is_null) {
        Ok(h) => Ok(h.inner.unbounded_choices),
        Err(code) => Err(code),
    }
}

/// Whether failures are printed as blobs.
pub fn hegel_settings_get_print_blob(
    ctx: &mut HegelContext,
    s: Option<&HegelSettings>,
    out_is_null: bool,
) -> (r: Result<bool, hegel_result_t>)
    ensures
        gave(
            *final(ctx),
            r,
            reading("hegel_settings_get_print_blob"@, s is None, out_is_null),
            s->0.inner.print_blob,
        ),
{
    match read(ctx, "hegel_settings_get_print_blob", s, out_is_null) {
        Ok(h) => Ok(h.inner.print_blob),
        Err(code) => Err(code),
    }
}

/// A verbosity, as callers say it.
pub open spec fn verbosity_told(v: Verbosity) -> hegel_verbosity_t {
    match v {
        Verbosity::Quiet => hegel_verbosity_t::HEGEL_VERBOSITY_QUIET,
        Verbosity::Normal => hegel_verbosity_t::HEGEL_VERBOSITY_NORMAL,
        Verbosity::Verbose => hegel_verbosity_t::HEGEL_VERBOSITY_VERBOSE,
        Verbosity::Debug => hegel_verbosity_t::HEGEL_VERBOSITY_DEBUG,
    }
}

/// A backend, as callers say it.
pub open spec fn backend_told(b: Backend) -> hegel_backend_t {
    match b {
        Backend::Default => hegel_backend_t::HEGEL_BACKEND_DEFAULT,
        Backend::Urandom => hegel_backend_t::HEGEL_BACKEND_URANDOM,
    }
}

/// How much the engine says.
pub fn hegel_settings_get_verbosity(
    ctx: &mut HegelContext,
    s: Option<&HegelSettings>,
    out_is_null: bool,
) -> (r: Result<hegel_verbosity_t, hegel_result_t>)
    ensures
        gave(
            *final(ctx),
            r,
            reading("hegel_settings_get_verbosity"@, s is None, out_is_null),
            verbosity_told(s->0.inner.verbosity),
        ),
{
    match read(ctx, "hegel_settings_get_verbosity", s, out_is_null) {
        Ok(h) => Ok(match h.inner.verbosity {
            Verbosity::Quiet => hegel_verbosity_t::HEGEL_VERBOSITY_QUIET,
            Verbosity::Normal => hegel_verbosity_t::HEGEL_VERBOSITY_NORMAL,
            Verbosity::Verbose => hegel_verbosity_t::HEGEL_VERBOSITY_VERBOSE,
            Verbosity::Debug => hegel_verbosity_t::HEGEL_VERBOSITY_DEBUG,
        }),
        Err(code) => Err(code),
    }
}

/// Where random numbers come from.
pub fn hegel_settings_get_backend(
    ctx: &mut HegelContext,
    s: Option<&HegelSettings>,
    out_is_null: bool,
) -> (r: Result<hegel_backend_t, hegel_result_t>)
    ensures
        gave(
            *final(ctx),
            r,
            reading("hegel_settings_get_backend"@, s is None, out_is_null),
            backend_told(s->0.inner.backend),
        ),
{
    match read(ctx, "hegel_settings_get_backend", s, out_is_null) {
        Ok(h) => Ok(match h.inner.backend {
            Backend::Default => hegel_backend_t::HEGEL_BACKEND_DEFAULT,
            Backend::Urandom => hegel_backend_t::HEGEL_BACKEND_URANDOM,
        }),
        Err(code) => Err(code),
    }
}

/// The seed, or zero, and whether it is fixed.
pub fn hegel_settings_get_seed(
    ctx: &mut HegelContext,
    s: Option<&HegelSettings>,
    out_is_null: bool,
) -> (r: Result<(u64, bool), hegel_result_t>)
    ensures
        gave(
            *final(ctx),
            r,
            reading("hegel_settings_get_seed"@, s is None, out_is_null),
            (
                match s->0.inner.seed {
                    Some(seed) => seed,
                    None => 0u64,
                },
                s->0.inner.seed is Some,
            ),
        ),
{
    match read(ctx, "hegel_settings_get_seed", s, out_is_null) {
        Ok(h) => Ok(match h.inner.seed {
            Some(seed) => (seed, true),
            None => (0, false),
        }),
        Err(code) => Err(code),
    }
}

/// The database: nothing for the default place, an empty text for none, else
/// the directory.
pub fn hegel_settings_get_database(
    ctx: &mut HegelContext,
    s: Option<&HegelSettings>,
    out_is_null: bool,
) -> (r: Result<Option<String>, hegel_result_t>)
    ensures
        match reading("hegel_settings_get_database"@, s is None, out_is_null) {
            Some(f) => r matches Err(code) && code == f.code && final(ctx)@ == shown(f.message),
            None => r matches Ok(t) && text_view(t) == text_view(s->0.database_c) && final(ctx)@
                == Seq::<char>::empty(),
        },
{
    match read(ctx, "hegel_settings_get_database", s, out_is_null) {
        Ok(h) => Ok(
            match &h.database_c {
                Some(t) => Some(t.clone()),
                None => None,
            },
        ),
        Err(code) => Err(code),
    }
}

/// Reading the database gives back what was set, where there is no NUL in it.
pub proof fn lemma_database_round_trip(arg: TextArgView)
    requires
        !(arg is NotUtf8),
        arg matches TextArgView::Text(t) ==> !t.contains('\0'),
    ensures
        database_text(database_of(arg)) == match arg {
            TextArgView::Text(t) => Some(t),
            _ => None,
        },
{
    if let TextArgView::Text(t) = arg {
        lemma_nothing_to_drop(t);
        assert(t.len() == 0 ==> t =~= Seq::empty());
    }
}

/// A text without NULs stays as it is.
proof fn lemma_nothing_to_drop(t: Seq<char>)
    requires
        !t.contains('\0'),
    ensures
        t.filter(|c: char| c != '\0') == t,
    decreases t.len(),
{
    reveal(Seq::filter);
    if t.len() > 0 {
        assert(!t.drop_last().contains('\0')) by {
            if t.drop_last().contains('\0') {
                let i = choose|i: int| 0 <= i < t.drop_last().len() && t.drop_last()[i] == '\0';
                assert(t[i] == '\0');
            }
        }
        lemma_nothing_to_drop(t.drop_last());
        assert(t.last() != '\0') by {
            assert(t[t.len() - 1] == t.last());
        }
        assert(t.drop_last().push(t.last()) =~= t);
    } else {
        assert(t.filter(|c: char| c != '\0') =~= t);
    }
}

} // verus!
