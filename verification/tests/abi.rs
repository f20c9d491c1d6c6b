//! The calls of the library: what they give back, and what they refuse.

use hegel::abi::cases::{
    handle_from_family, hegel_label_combine, hegel_label_from_name, hegel_mark_complete,
    hegel_start_span, hegel_status_t, hegel_stop_span, hegel_test_case_block,
    hegel_test_case_clone, hegel_test_case_is_nondeterministic, hegel_test_case_set_worker,
    new_family, Attribution, FamilyShared, HegelTestCase,
};
use hegel::abi::documents::{
    deferred_answer, document_answer, hegel_note, hegel_printer_begin_group,
    hegel_printer_breakable, hegel_printer_comment, hegel_printer_deferred,
    hegel_printer_end_group, hegel_printer_hard_break, hegel_printer_if_break,
    hegel_printer_is_live, hegel_printer_resolve, hegel_printer_shift_indent, hegel_printer_text,
    hegel_printer_value, value_answer, PrinterOp,
};
use hegel::abi::observations::{hegel_event, hegel_event_value, hegel_target};
use hegel::abi::printing::{
    hegel_printer_new, hegel_printer_options_new, hegel_printer_options_set_max_width,
    hegel_test_case_printer, HegelPrinter, HegelPrinterOptions, PrinterError, PrinterTarget,
};
use hegel::abi::runs::{
    hegel_failure_origin, hegel_failure_reproduction_blob, hegel_next_test_case, hegel_run_free,
    hegel_run_result, hegel_run_result_error, hegel_run_result_failure,
    hegel_run_result_failure_count, hegel_run_result_status, hegel_run_start, hegel_run_status_t,
    hegel_test_case_from_blob, EngineStep, Failure, HegelRunResult, NextAction, TestRunResult,
};
use hegel::abi::settings::{
    hegel_backend_t, hegel_health_check_t, hegel_phase_t, hegel_set_default_profile,
    hegel_settings_get_backend, hegel_settings_get_database, hegel_settings_get_phases,
    hegel_settings_get_seed, hegel_settings_get_suppress_health_check,
    hegel_settings_get_test_cases, hegel_settings_get_verbosity, hegel_settings_new,
    hegel_settings_new_for_profile, hegel_settings_register_profile, hegel_settings_set_backend,
    hegel_settings_set_database, hegel_settings_set_phases, hegel_settings_set_seed,
    hegel_settings_set_suppress_health_check, hegel_settings_set_test_cases,
    hegel_settings_set_test_location, hegel_settings_set_verbosity, hegel_verbosity_t,
    profile_outcome, Backend, Database, HegelSettings, Settings, Verbosity,
};
use hegel::abi::strings::{
    hegel_string_generator_domain, hegel_string_generator_email, hegel_string_generator_regex,
    hegel_string_generator_text, AlphabetArgs, HegelStringGenerator, TextAlphabet, TextsArg,
};
use hegel::abi::structures::{
    hegel_collection_more, hegel_collection_reject, hegel_new_collection, hegel_new_pool,
    hegel_new_recursion, hegel_new_state_machine, hegel_pool_add, hegel_pool_generate,
    hegel_recursion_branch, hegel_recursion_finish, hegel_recursion_leaf, hegel_recursion_retry,
    hegel_state_machine_next_group, hegel_state_machine_next_rule,
    hegel_state_machine_rule_rejected, hegel_state_machine_should_check_invariant,
    machine_answer, MachineArgs, MachineStep, HEGEL_STATE_MACHINE_DONE,
};
use hegel::abi::values::{
    hegel_date_t, hegel_generate_boolean, hegel_generate_bytes, hegel_generate_date,
    hegel_generate_float, hegel_generate_integer, hegel_generate_integer_big,
    hegel_generate_ipv4, hegel_generate_ipv6,
    hegel_generate_string, hegel_generate_uuid, start_string_draw,
};
use hegel::abi::{hegel_context_last_error, hegel_context_new, hegel_result_t, HegelContext, TextArg};
use hegel::alphabets::{characters, CategorySets};
use hegel::bignum::BigInt;
use hegel::choices::{ChoiceValue, FloatValue, Probability, PROBABILITY_ONE};
use hegel::collections::length_p_continue;
use hegel::draws::draw_concurrency;
use hegel::errors::{EngineError, RunError, Status};
use hegel::family::FamilyCore;
use hegel::float_order::float_order;
use hegel::float_weights::{FloatGenerationParameters, GenerationParameters};
use hegel::float_draws::fallbacks_fit;
use hegel::floats::{FloatArithmetic, FloatSpec};
use hegel::integer_constants::IntegerPools;
use hegel::intervalsets::IntervalSet;
use hegel::labels::{draw_label, label_from_bytes, DrawKind};
use hegel::recursion::RecursionProfile;
use hegel::rng::EngineRng;
use hegel::sampling::{Distributions, IntegerGenerationParameters, Sampler};
use hegel::test_case::{NativeTestCase, NoObserver};
use hegel::text_constants::TextPool;
use std::sync::Arc;

/// Chances for tests: even where a real distribution would be lopsided.
#[derive(Clone, Copy)]
struct Even;

impl FloatArithmetic for Even {
    fn float_step(&self, bits: u64, up: bool) -> u64 {
        let v = f64::from_bits(bits);
        if up { v + 1.0 } else { v - 1.0 }.to_bits()
    }

    fn float_between(&self, min: u64, max: u64, share: u64) -> u64 {
        let (min, max) = (f64::from_bits(min), f64::from_bits(max));
        let share = share as f64 / ((1u64 << 52) - 1) as f64;
        (min + (max - min).min(f64::MAX) * share).to_bits()
    }

    fn float_text(&self, bits: u64) -> String {
        format!("{}", f64::from_bits(bits))
    }
}

impl Distributions for Even {
    fn tells_apart(&self, min: i128, max: i128) -> bool {
        let _ = (min, max);
        false
    }

    fn middle_integer(&self, min: i128, max: i128, share: u64) -> i128 {
        let _ = (max, share);
        min
    }

    fn extra_length(&self, min_size: usize, max_size: usize, share: u64) -> usize {
        let p = length_p_continue(min_size, Some(max_size)).numerator as f64
            / PROBABILITY_ONE as f64;
        let u = (share as f64 + 0.5) / PROBABILITY_ONE as f64;
        (u.ln() / p.ln()).floor() as usize
    }
}

/// How many choices a test case may make.
const BUFFER_SIZE: usize = 8192;

/// How deep streams may be cloned.
const CLONE_DEPTH: usize = 8;

fn chance(p: f64) -> Probability {
    Probability { numerator: (p * PROBABILITY_ONE as f64) as u64 }
}

fn weights(endpoint: f64, interesting: f64, diffuse: f64) -> IntegerGenerationParameters {
    IntegerGenerationParameters {
        endpoint: chance(endpoint),
        interesting: chance(interesting),
        diffuse: chance(diffuse),
    }
}

fn usual_weights() -> IntegerGenerationParameters {
    weights(0.025, 0.25, 0.0375)
}

fn usual_parameters() -> GenerationParameters {
    GenerationParameters {
        integer: usual_weights(),
        float: FloatGenerationParameters::from_weights([PROBABILITY_ONE / 17; 17]),
    }
}

fn sampler() -> Sampler<Even> {
    Sampler {
        integers: IntegerPools::new(),
        texts: TextPool::new(),
        boundary: chance(0.01),
        curated_min_width: 1 << 8,
        weights: usual_parameters(),
        distributions: Even,
    }
}

type Case = NativeTestCase<Even, NoObserver>;

/// A test case that draws at random.
fn new_random(seed: u64) -> (Case, FamilyCore) {
    NativeTestCase::new_random_with_params(
        EngineRng::seeded(seed),
        Arc::new(sampler()),
        usual_parameters(),
        BUFFER_SIZE,
        None,
        CLONE_DEPTH,
    )
}

/// A test case that replays choices.
fn for_choices(choices: &[ChoiceValue]) -> (Case, FamilyCore) {
    NativeTestCase::for_choices(choices, None, None, CLONE_DEPTH)
}

/// A test case that makes the simplest choices.
fn for_simplest(max_size: usize) -> (Case, FamilyCore) {
    NativeTestCase::for_simplest(max_size, None, CLONE_DEPTH).unwrap()
}

fn big(v: i128) -> BigInt {
    BigInt::from_i128(v)
}

fn text(t: &str) -> TextArg {
    TextArg::Text(t.to_string())
}

fn message(ctx: &HegelContext) -> String {
    hegel_context_last_error(Some(ctx)).unwrap_or_default()
}

/// A test case behind a handle.
struct Handle {
    ctx: HegelContext,
    handle: HegelTestCase,
    family: FamilyShared,
    stream: Case,
}

fn handle_on((stream, core): (Case, FamilyCore)) -> Handle {
    Handle {
        ctx: hegel_context_new(),
        handle: handle_from_family(),
        family: new_family(core, None),
        stream,
    }
}

fn replaying(choices: &[ChoiceValue]) -> Handle {
    handle_on(for_choices(choices))
}

fn integers(values: &[i128]) -> Vec<ChoiceValue> {
    values.iter().map(|&v| ChoiceValue::Integer(big(v))).collect()
}

fn base_settings() -> Settings {
    Settings {
        test_cases: 100,
        verbosity: Verbosity::Normal,
        seed: None,
        derandomize: false,
        database: Database::Unset,
        phases: Vec::new(),
        suppress_health_check: Vec::new(),
        report_multiple_failures: true,
        show_statistics: false,
        unbounded_choices: false,
        print_blob: true,
        backend: Backend::Default,
    }
}

fn settings() -> HegelSettings {
    let mut ctx = hegel_context_new();
    hegel_settings_new(&mut ctx, false, Ok(base_settings())).unwrap()
}

#[test]
fn results_have_their_numbers() {
    assert_eq!(hegel_result_t::HEGEL_OK.code(), 0);
    assert_eq!(hegel_result_t::HEGEL_E_STOP_TEST.code(), -1);
    assert_eq!(hegel_result_t::HEGEL_E_RETRY.code(), -10);
    assert_eq!(hegel_status_t::HEGEL_STATUS_INTERESTING.code(), 3);
    assert_eq!(hegel_run_status_t::HEGEL_RUN_STATUS_ERROR.code(), 2);
    assert_eq!(hegel_phase_t::HEGEL_PHASE_ALL.code(), 0x1f);
    assert_eq!(hegel_health_check_t::HEGEL_HC_LARGE_INITIAL_TEST_CASE.code(), 8);
}

#[test]
fn a_context_keeps_the_last_error_without_nul() {
    let mut ctx = hegel_context_new();
    assert_eq!(hegel_context_last_error(Some(&ctx)), Some(String::new()));
    assert_eq!(hegel_context_last_error(None), None);
    ctx.set_last_error("a\0b");
    assert!(!message(&ctx).contains('\0'));
    ctx.clear_last_error();
    assert_eq!(message(&ctx), "");
}

#[test]
fn settings_are_read_back_as_they_were_set() {
    let mut ctx = hegel_context_new();
    let mut s = settings();
    assert_eq!(
        hegel_settings_set_backend(&mut ctx, Some(&mut s), 2),
        hegel_result_t::HEGEL_OK
    );
    assert_eq!(
        hegel_settings_get_backend(&mut ctx, Some(&s), false),
        Ok(hegel_backend_t::HEGEL_BACKEND_URANDOM)
    );
    assert_eq!(
        hegel_settings_set_verbosity(&mut ctx, Some(&mut s), 3),
        hegel_result_t::HEGEL_OK
    );
    assert_eq!(
        hegel_settings_get_verbosity(&mut ctx, Some(&s), false),
        Ok(hegel_verbosity_t::HEGEL_VERBOSITY_DEBUG)
    );
    assert_eq!(
        hegel_settings_set_seed(&mut ctx, Some(&mut s), 7, true),
        hegel_result_t::HEGEL_OK
    );
    assert_eq!(hegel_settings_get_seed(&mut ctx, Some(&s), false), Ok((7, true)));
    assert_eq!(
        hegel_settings_set_phases(&mut ctx, Some(&mut s), 0x15),
        hegel_result_t::HEGEL_OK
    );
    assert_eq!(hegel_settings_get_phases(&mut ctx, Some(&s), false), Ok(0x15));
    assert_eq!(
        hegel_settings_set_suppress_health_check(&mut ctx, Some(&mut s), 0xa),
        hegel_result_t::HEGEL_OK
    );
    assert_eq!(hegel_settings_get_suppress_health_check(&mut ctx, Some(&s), false), Ok(0xa));
    assert_eq!(
        hegel_settings_set_database(&mut ctx, Some(&mut s), &text("somewhere")),
        hegel_result_t::HEGEL_OK
    );
    assert_eq!(
        hegel_settings_get_database(&mut ctx, Some(&s), false),
        Ok(Some("somewhere".to_string()))
    );
}

#[test]
fn settings_refuse_what_they_cannot_be() {
    let mut ctx = hegel_context_new();
    let mut s = settings();
    assert_eq!(
        hegel_settings_set_backend(&mut ctx, Some(&mut s), 0),
        hegel_result_t::HEGEL_E_INVALID_ARG
    );
    assert!(message(&ctx).starts_with("hegel_settings_set_backend: "));
    assert_eq!(
        hegel_settings_set_verbosity(&mut ctx, None, 1),
        hegel_result_t::HEGEL_E_INVALID_HANDLE
    );
    assert_eq!(message(&ctx), "hegel_settings_set_verbosity: settings pointer is null");
    assert_eq!(
        hegel_settings_get_test_cases(&mut ctx, Some(&s), true),
        Err(hegel_result_t::HEGEL_E_INVALID_ARG)
    );
    assert_eq!(
        hegel_settings_set_test_cases(&mut ctx, Some(&mut s), 5),
        hegel_result_t::HEGEL_OK
    );
    assert_eq!(hegel_settings_get_test_cases(&mut ctx, Some(&s), false), Ok(5));
    assert_eq!(
        hegel_settings_set_database(&mut ctx, Some(&mut s), &TextArg::NotUtf8),
        hegel_result_t::HEGEL_E_INVALID_ARG
    );
    assert_eq!(
        hegel_settings_set_test_location(
            &mut ctx,
            Some(&mut s),
            &TextArg::Null,
            3,
            &text("Class"),
            &text("function"),
        ),
        hegel_result_t::HEGEL_E_INVALID_ARG
    );
    assert!(s.test_location.is_none());
}

#[test]
fn profiles_are_named_and_resolved() {
    let mut ctx = hegel_context_new();
    assert_eq!(
        hegel_settings_new_for_profile(&mut ctx, &text("ci")),
        Ok("ci".to_string())
    );
    assert_eq!(
        hegel_settings_new_for_profile(&mut ctx, &TextArg::Null),
        Err(hegel_result_t::HEGEL_E_INVALID_ARG)
    );
    assert_eq!(message(&ctx), "hegel_settings_new_for_profile: name is null");
    assert!(hegel_settings_new(&mut ctx, false, Err("no such profile".to_string())).is_err());
    assert_eq!(message(&ctx), "hegel_settings_new: no such profile");
    let s = settings();
    let (name, inner) =
        hegel_settings_register_profile(&mut ctx, &text("mine"), Some(&s)).unwrap();
    assert_eq!(name, "mine");
    assert_eq!(inner.test_cases, 100);
    assert_eq!(hegel_set_default_profile(&mut ctx, &TextArg::Null), Ok(None));
    assert_eq!(
        profile_outcome(&mut ctx, "hegel_set_default_profile", Err("unknown".to_string())),
        hegel_result_t::HEGEL_E_INVALID_ARG
    );
    assert_eq!(message(&ctx), "hegel_set_default_profile: unknown");
}

#[test]
fn an_integer_is_replayed_and_recorded() {
    let mut h = replaying(&integers(&[42]));
    let r = hegel_generate_integer(
        &mut h.ctx,
        Some(&h.handle),
        &mut h.family,
        &mut h.stream,
        0,
        100,
        false,
    );
    assert_eq!(r, Ok(42));
    assert_eq!(h.stream.nodes.len(), 1);
    let r = hegel_generate_integer(
        &mut h.ctx,
        Some(&h.handle),
        &mut h.family,
        &mut h.stream,
        0,
        100,
        false,
    );
    assert_eq!(r, Err(hegel_result_t::HEGEL_E_STOP_TEST));
}

#[test]
fn a_draw_is_refused_before_it_touches_the_test_case() {
    let mut h = replaying(&integers(&[42]));
    let r = hegel_generate_integer(
        &mut h.ctx,
        None,
        &mut h.family,
        &mut h.stream,
        0,
        100,
        false,
    );
    assert_eq!(r, Err(hegel_result_t::HEGEL_E_INVALID_HANDLE));
    assert_eq!(message(&h.ctx), "hegel_generate_integer: test case pointer is null");
    let busy = HegelTestCase { busy: true, ..h.handle };
    let r = hegel_generate_integer(
        &mut h.ctx,
        Some(&busy),
        &mut h.family,
        &mut h.stream,
        0,
        100,
        false,
    );
    assert_eq!(r, Err(hegel_result_t::HEGEL_E_CONCURRENT_USE));
    let r = hegel_generate_integer(
        &mut h.ctx,
        Some(&h.handle),
        &mut h.family,
        &mut h.stream,
        5,
        4,
        false,
    );
    assert_eq!(r, Err(hegel_result_t::HEGEL_E_INVALID_ARG));
    let r = hegel_generate_integer(
        &mut h.ctx,
        Some(&h.handle),
        &mut h.family,
        &mut h.stream,
        0,
        100,
        true,
    );
    assert_eq!(r, Err(hegel_result_t::HEGEL_E_INVALID_ARG));
    assert_eq!(message(&h.ctx), "hegel_generate_integer: out parameter is null");
    assert!(h.stream.nodes.is_empty());
}

#[test]
fn big_integers_fill_the_buffer_with_their_sign() {
    let mut h = replaying(&integers(&[-2]));
    let min = [0x00u8, 0x80];
    let max = [0x7fu8];
    let r = hegel_generate_integer_big(
        &mut h.ctx,
        Some(&h.handle),
        &mut h.family,
        &mut h.stream,
        Some(&min[..]),
        Some(&max[..]),
        4,
        false,
    );
    let (bytes, len) = r.unwrap();
    assert_eq!(bytes, vec![0xfe, 0xff, 0xff, 0xff]);
    assert_eq!(len, 1);

    let mut h = replaying(&integers(&[1000]));
    let max = [0xffu8, 0x7f];
    let r = hegel_generate_integer_big(
        &mut h.ctx,
        Some(&h.handle),
        &mut h.family,
        &mut h.stream,
        Some(&[0u8][..]),
        Some(&max[..]),
        1,
        false,
    );
    assert_eq!(r.map(|v| v.1), Err(hegel_result_t::HEGEL_E_INVALID_ARG));
    assert_eq!(
        message(&h.ctx),
        "hegel_generate_integer_big: out buffer too small (need 2, have 1)"
    );
}

#[test]
fn booleans_bytes_dates_and_uuids_are_replayed() {
    let mut h = replaying(&[ChoiceValue::Boolean(true)]);
    let r = hegel_generate_boolean(
        &mut h.ctx,
        Some(&h.handle),
        &mut h.family,
        &mut h.stream,
        chance(0.5),
        "0.5",
        false,
        false,
        false,
    );
    assert_eq!(r, Ok(true));
    let r = hegel_generate_boolean(
        &mut h.ctx,
        Some(&h.handle),
        &mut h.family,
        &mut h.stream,
        chance(1.5),
        "1.5",
        false,
        false,
        false,
    );
    assert_eq!(r, Err(hegel_result_t::HEGEL_E_INVALID_ARG));
    assert_eq!(
        message(&h.ctx),
        "generate_boolean(p = 1.5) requires a probability in [0.0, 1.0]"
    );

    let mut h = replaying(&[ChoiceValue::Bytes(vec![1, 2, 3])]);
    let r = hegel_generate_bytes(
        &mut h.ctx,
        Some(&h.handle),
        &mut h.family,
        &mut h.stream,
        0,
        u64::MAX,
        false,
    );
    assert_eq!(r.unwrap().data, vec![1, 2, 3]);

    let day = |year, month, day| hegel_date_t { year, month, day };
    let mut h = replaying(&integers(&[0]));
    let r = hegel_generate_date(
        &mut h.ctx,
        Some(&h.handle),
        &mut h.family,
        &mut h.stream,
        day(1990, 1, 1),
        day(2010, 12, 31),
        false,
    );
    assert_eq!(r, Ok(day(2000, 1, 1)));

    let mut h = handle_on(new_random(1));
    let r = hegel_generate_uuid(
        &mut h.ctx,
        Some(&h.handle),
        &mut h.family,
        &mut h.stream,
        4,
        true,
        false,
    );
    let bytes = r.unwrap();
    assert_eq!(bytes.len(), 16);
    assert_eq!(bytes[6] >> 4, 4);
    assert_eq!(bytes[8] >> 6, 2);
}

fn floats_between(width: u32, min: f64, max: f64) -> FloatSpec {
    FloatSpec {
        width,
        min_bits: min.to_bits(),
        max_bits: max.to_bits(),
        allow_nan: false,
        allow_infinity: false,
        exclude_min: false,
        exclude_max: false,
        smallest_magnitude_bits: 5e-324f64.to_bits(),
    }
}

fn float_value(v: f64) -> FloatValue {
    FloatValue { bits: v.to_bits(), order: float_order(v.to_bits()) }
}

fn fallbacks(spec: FloatSpec) -> (FloatValue, FloatValue) {
    let (min, max) = match spec.bounds() {
        Ok(bounds) => (f64::from_bits(bounds.min_bits), f64::from_bits(bounds.max_bits)),
        Err(_) => (0.0, 0.0),
    };
    (float_value(0.0f64.max(min).min(max)), float_value(1.0f64.max(min).min(max)))
}

fn float_of(h: &mut Handle, spec: FloatSpec) -> Result<f64, hegel_result_t> {
    let (simplest, unit) = fallbacks(spec);
    assert!(fallbacks_fit(spec, simplest, unit));
    hegel_generate_float(
        &mut h.ctx,
        Some(&h.handle),
        &mut h.family,
        &mut h.stream,
        spec,
        simplest,
        unit,
        &Even,
        false,
    )
    .map(|v| f64::from_bits(v.bits))
}

fn float(v: f64) -> ChoiceValue {
    ChoiceValue::Float(float_value(v))
}

#[test]
fn single_floats_are_rounded() {
    let mut h = replaying(&[float(0.1), float(1.0 + 2f64.powi(-24)), float(-7.25)]);
    let spec = floats_between(32, -10.0, 10.0);
    assert_eq!(float_of(&mut h, spec), Ok(f64::from(0.1f32)));
    assert_eq!(float_of(&mut h, spec), Ok(1.0));
    assert_eq!(float_of(&mut h, spec), Ok(-7.25));
    let mut h = replaying(&[float(0.1)]);
    assert_eq!(float_of(&mut h, floats_between(64, -10.0, 10.0)), Ok(0.1));
}

#[test]
fn large_doubles_stay_finite_singles() {
    let spec = FloatSpec {
        allow_infinity: true,
        ..floats_between(32, f64::NEG_INFINITY, f64::INFINITY)
    };
    let mut h = replaying(&[float(1e300), float(f64::INFINITY), float(-1e300)]);
    let v = float_of(&mut h, spec).unwrap();
    assert!(v.is_finite() && f64::from(v as f32) == v);
    assert_eq!(float_of(&mut h, spec), Ok(f64::INFINITY));
    assert!(float_of(&mut h, spec).unwrap().is_finite());
}

#[test]
fn random_singles_are_singles_of_the_range() {
    for seed in 0..200 {
        let mut h = handle_on(new_random(seed));
        let spec = FloatSpec { exclude_max: true, ..floats_between(32, -3.5, 1e30f32 as f64) };
        let v = float_of(&mut h, spec).unwrap();
        assert_eq!(f64::from(v as f32), v);
        assert!((-3.5..1e30f32 as f64).contains(&v));
    }
}

#[test]
fn unsound_float_requests_are_refused() {
    let mut h = replaying(&[float(0.5)]);
    let refuse = |h: &mut Handle, spec: FloatSpec, what: &str| {
        assert_eq!(float_of(h, spec), Err(hegel_result_t::HEGEL_E_INVALID_ARG));
        assert_eq!(message(&h.ctx), what);
    };
    refuse(
        &mut h,
        floats_between(16, 0.0, 1.0),
        "unsupported float width: 16 — Hegel supports widths 32 and 64",
    );
    refuse(
        &mut h,
        FloatSpec { smallest_magnitude_bits: 0, ..floats_between(64, 0.0, 1.0) },
        "smallest_nonzero_magnitude must be a positive finite float, got 0",
    );
    refuse(&mut h, floats_between(64, f64::NAN, 1.0), "float bounds must not be NaN");
    refuse(
        &mut h,
        FloatSpec { allow_nan: true, ..floats_between(64, 0.0, 1.0) },
        "Cannot have allow_nan=true with min_value or max_value",
    );
    refuse(
        &mut h,
        FloatSpec { allow_infinity: true, ..floats_between(64, 0.0, 1.0) },
        "Cannot have allow_infinity=true with both min_value and max_value",
    );
    refuse(
        &mut h,
        floats_between(32, 0.1, 1.0),
        "min_value (0.1) cannot be exactly represented as a float of width 32",
    );
    refuse(
        &mut h,
        floats_between(32, 0.0, 0.3),
        "max_value (0.3) cannot be exactly represented as a float of width 32",
    );
    refuse(
        &mut h,
        floats_between(64, 2.0, 1.0),
        "min_value (2) must be <= max_value (1) after exclusive-bound adjustment",
    );
    assert!(h.stream.nodes.is_empty());
    let open = FloatSpec { exclude_min: true, ..floats_between(64, 0.0, 1.0) };
    assert_eq!(float_of(&mut h, open), Ok(0.5));
}

#[test]
fn a_test_case_is_completed_once() {
    let mut h = replaying(&[]);
    assert_eq!(
        hegel_mark_complete(&mut h.ctx, Some(&mut h.handle), &mut h.family, 9, &TextArg::Null),
        hegel_result_t::HEGEL_E_INVALID_ARG
    );
    assert_eq!(message(&h.ctx), "hegel_mark_complete: unknown status 9");
    assert_eq!(
        hegel_mark_complete(&mut h.ctx, Some(&mut h.handle), &mut h.family, 3, &text("here")),
        hegel_result_t::HEGEL_OK
    );
    assert_eq!(h.family.core.status(), Some(Status::Interesting));
    assert_eq!(
        hegel_mark_complete(&mut h.ctx, Some(&mut h.handle), &mut h.family, 0, &TextArg::Null),
        hegel_result_t::HEGEL_E_ALREADY_COMPLETE
    );
    let mut other = handle_from_family();
    assert_eq!(
        hegel_mark_complete(&mut h.ctx, Some(&mut other), &mut h.family, 0, &TextArg::Null),
        hegel_result_t::HEGEL_OK
    );
    assert_eq!(h.family.core.status(), Some(Status::Interesting));
    let r = hegel_generate_integer(
        &mut h.ctx,
        Some(&other),
        &mut h.family,
        &mut h.stream,
        0,
        1,
        false,
    );
    assert_eq!(r, Err(hegel_result_t::HEGEL_E_ALREADY_COMPLETE));
}

#[test]
fn spans_open_and_close() {
    let mut h = replaying(&[]);
    assert_eq!(
        hegel_start_span(&mut h.ctx, Some(&h.handle), &mut h.family, &mut h.stream, 5),
        hegel_result_t::HEGEL_OK
    );
    assert_eq!(
        hegel_stop_span(&mut h.ctx, Some(&h.handle), &h.family, &mut h.stream, true),
        hegel_result_t::HEGEL_OK
    );
    let spans = h.stream.structure.spans.as_slice();
    assert_eq!(spans.len(), 1);
    assert_eq!((spans[0].label, spans[0].discarded), (5, true));
}

#[test]
fn labels_come_from_names() {
    let mut ctx = hegel_context_new();
    let name = "hegel.integer".as_bytes();
    assert_eq!(
        hegel_label_from_name(&mut ctx, Some(name), false),
        Ok(label_from_bytes(name))
    );
    assert_eq!(label_from_bytes(b""), 0xcbf2_9ce4_8422_2325);
    assert_eq!(label_from_bytes(b"a"), 0xaf63_dc4c_8601_ec8c);
    assert_eq!(
        hegel_label_from_name(&mut ctx, None, false),
        Err(hegel_result_t::HEGEL_E_INVALID_ARG)
    );
    assert_eq!(hegel_label_combine(&mut ctx, None, 0, false), Ok(vec![]));
    assert_eq!(hegel_label_combine(&mut ctx, Some(vec![1, 2]), 2, false), Ok(vec![1, 2]));
    assert_eq!(
        hegel_label_combine(&mut ctx, None, 2, false),
        Err(hegel_result_t::HEGEL_E_INVALID_ARG)
    );
    assert_eq!(message(&ctx), "hegel_label_combine: labels is null");
}

#[test]
fn handles_are_cloned_blocked_and_attributed() {
    let mut h = handle_on(new_random(2));
    let (clone, place) =
        hegel_test_case_clone(&mut h.ctx, Some(&h.handle), &mut h.family, &mut h.stream, false)
            .unwrap();
    assert_eq!(clone, h.handle);
    assert_eq!(h.stream.clone_children.len(), 1);
    assert_eq!(place, 0);
    assert_eq!(
        hegel_test_case_set_worker(&mut h.ctx, Some(&mut h.handle), 3),
        hegel_result_t::HEGEL_OK
    );
    let block = hegel_test_case_block(&mut h.ctx, Some(&h.handle), false).unwrap();
    assert_eq!(block.worker, 3);
    assert_eq!(
        hegel_test_case_set_worker(&mut h.ctx, Some(&mut h.handle), -5),
        hegel_result_t::HEGEL_E_INVALID_ARG
    );
    assert_eq!(
        hegel_test_case_is_nondeterministic(
            &mut h.ctx,
            Some(&h.handle),
            &h.family,
            &h.stream,
            false,
        ),
        Ok(false)
    );
    let now = Attribution { worker: 3, elapsed_micros: 12_045 };
    assert_eq!(now.line_prefix(), Some("[worker 3 +12.045ms] ".to_string()));
    let nobody = Attribution { worker: -1, elapsed_micros: 1 };
    assert_eq!(nobody.line_prefix(), None);
}

#[test]
fn targets_and_events_are_recorded() {
    let mut h = replaying(&[]);
    let one = 1.0f64.to_bits();
    assert_eq!(
        hegel_target(&mut h.ctx, Some(&h.handle), &mut h.family, one, &text("size")),
        hegel_result_t::HEGEL_OK
    );
    assert_eq!(h.family.core.target_observations, vec![("size".to_string(), one)]);
    assert_eq!(
        hegel_target(&mut h.ctx, Some(&h.handle), &mut h.family, one, &text("size")),
        hegel_result_t::HEGEL_E_INVALID_ARG
    );
    assert_eq!(
        hegel_target(
            &mut h.ctx,
            Some(&h.handle),
            &mut h.family,
            f64::NAN.to_bits(),
            &text("other"),
        ),
        hegel_result_t::HEGEL_E_INVALID_ARG
    );
    assert_eq!(
        hegel_event(&mut h.ctx, Some(&h.handle), &mut h.family, &text("seen")),
        hegel_result_t::HEGEL_OK
    );
    assert_eq!(
        hegel_event_value(&mut h.ctx, Some(&h.handle), &mut h.family, one, &text("seen")),
        hegel_result_t::HEGEL_OK
    );
    assert_eq!(
        h.family.core.events,
        vec![("seen".to_string(), None), ("seen".to_string(), Some(one))]
    );
}

#[test]
fn a_collection_grows_within_its_bounds() {
    let mut h = handle_on(new_random(4));
    let mut c =
        hegel_new_collection(&mut h.ctx, Some(&h.handle), &h.family, 2, 5, false).unwrap();
    let mut size = 0;
    while hegel_collection_more(
        &mut h.ctx,
        Some(&h.handle),
        &mut h.family,
        &mut h.stream,
        Some(&mut c),
        false,
    )
    .unwrap()
    {
        size += 1;
    }
    assert!((2..=5).contains(&size));
    assert_eq!(
        hegel_new_collection(&mut h.ctx, Some(&h.handle), &h.family, 3, 2, false),
        Err(hegel_result_t::HEGEL_E_INVALID_ARG)
    );
    assert_eq!(
        message(&h.ctx),
        "hegel_new_collection requires min_size <= max_size, got [3, 2]"
    );
    c.busy = true;
    assert_eq!(
        hegel_collection_more(
            &mut h.ctx,
            Some(&h.handle),
            &mut h.family,
            &mut h.stream,
            Some(&mut c),
            false,
        ),
        Err(hegel_result_t::HEGEL_E_CONCURRENT_USE)
    );
    assert_eq!(
        hegel_collection_more(
            &mut h.ctx,
            Some(&h.handle),
            &mut h.family,
            &mut h.stream,
            None,
            false,
        ),
        Err(hegel_result_t::HEGEL_E_INVALID_HANDLE)
    );
    assert_eq!(message(&h.ctx), "hegel_collection_more: collection handle is null");
}

#[test]
fn too_many_rejections_give_the_test_case_up() {
    let mut h = handle_on(new_random(5));
    let mut c =
        hegel_new_collection(&mut h.ctx, Some(&h.handle), &h.family, 1, 5, false).unwrap();
    let mut last = Ok(());
    for _ in 0..20 {
        let more = hegel_collection_more(
            &mut h.ctx,
            Some(&h.handle),
            &mut h.family,
            &mut h.stream,
            Some(&mut c),
            false,
        );
        if more.is_err() {
            break;
        }
        last = hegel_collection_reject(
            &mut h.ctx,
            Some(&h.handle),
            &mut h.family,
            &mut h.stream,
            Some(&mut c),
            &TextArg::Null,
        );
        if last.is_err() {
            break;
        }
    }
    assert_eq!(last, Err(hegel_result_t::HEGEL_E_ASSUME));
    assert_eq!(h.family.core.status(), Some(Status::Invalid));
}

#[test]
fn a_pool_hands_out_and_takes_back_variables() {
    let mut h = handle_on(new_random(6));
    let mut pool = hegel_new_pool(&mut h.ctx, Some(&h.handle), &h.family, false).unwrap();
    assert_eq!(
        hegel_pool_generate(
            &mut h.ctx,
            Some(&h.handle),
            &mut h.family,
            &mut h.stream,
            Some(&mut pool),
            false,
            false,
        ),
        Err(hegel_result_t::HEGEL_E_ASSUME)
    );
    let mut h = handle_on(new_random(6));
    for id in 0..3 {
        assert_eq!(
            hegel_pool_add(
                &mut h.ctx,
                Some(&h.handle),
                &mut h.family,
                &mut h.stream,
                Some(&mut pool),
                false,
            ),
            Ok(id)
        );
    }
    let taken = hegel_pool_generate(
        &mut h.ctx,
        Some(&h.handle),
        &mut h.family,
        &mut h.stream,
        Some(&mut pool),
        true,
        false,
    )
    .unwrap();
    assert!((0..3).contains(&taken));
    assert!(!pool.variables.active().contains(&taken));
    assert_eq!(pool.variables.active().len(), 2);
}

/// A profile that branches at every depth.
fn half() -> RecursionProfile {
    RecursionProfile { boundary_depth: 5, boundary_probability: chance(0.5), reaches_half: true }
}

#[test]
fn a_recursion_ends_in_leaves() {
    let mut h = handle_on(new_random(8));
    let mut rec = hegel_new_recursion(
        &mut h.ctx,
        Some(&h.handle),
        &mut h.family,
        &mut h.stream,
        5,
        10,
        false,
    )
    .unwrap();
    let question = rec.state.branch_question(5);
    assert_eq!((question.arity_numerator, question.arity_denominator), (2, 1));
    assert_eq!(question.max_depth, 5);
    assert_eq!(rec.state.finish_question().tail.numerator, 0);
    let branch = hegel_recursion_branch(
        &mut h.ctx,
        Some(&h.handle),
        &mut h.family,
        &mut h.stream,
        Some(&mut rec),
        5,
        half(),
        false,
    );
    assert_eq!(branch, Ok(false));
    for _ in 0..10 {
        assert_eq!(
            hegel_recursion_leaf(&mut h.ctx, Some(&h.handle), &h.family, Some(&mut rec)),
            hegel_result_t::HEGEL_OK
        );
    }
    assert_eq!(
        hegel_recursion_leaf(&mut h.ctx, Some(&h.handle), &h.family, Some(&mut rec)),
        hegel_result_t::HEGEL_E_RETRY
    );
    assert_eq!(
        hegel_recursion_retry(
            &mut h.ctx,
            Some(&h.handle),
            &mut h.family,
            &mut h.stream,
            Some(&mut rec),
        ),
        Ok(())
    );
    assert_eq!(rec.state.leaves, 0);
    let done = hegel_recursion_finish(
        &mut h.ctx,
        Some(&h.handle),
        &h.family,
        &mut h.stream,
        Some(&mut rec),
        half(),
    );
    assert!(done == hegel_result_t::HEGEL_OK || done == hegel_result_t::HEGEL_E_RETRY);
    assert_eq!(
        hegel_recursion_finish(
            &mut h.ctx,
            Some(&h.handle),
            &h.family,
            &mut h.stream,
            None,
            half(),
        ),
        hegel_result_t::HEGEL_E_INVALID_HANDLE
    );
    let mut h = replaying(&[]);
    let small = hegel_new_recursion(
        &mut h.ctx,
        Some(&h.handle),
        &mut h.family,
        &mut h.stream,
        5,
        1,
        false,
    )
    .ok()
    .unwrap();
    assert_eq!(small.state.target, 1);
    assert!(h.stream.nodes.is_empty());
}

fn machine_args() -> MachineArgs {
    MachineArgs {
        rule_names: TextsArg::Texts(vec![text("push"), text("pop")]),
        rule_groups: Some(vec![0, 1]),
        rule_weights: Some(vec![1, 2]),
        num_rules: 2,
        invariant_names: TextsArg::Texts(vec![text("bounded")]),
        invariant_always_check: Some(vec![true]),
        num_invariants: 1,
        min_concurrency: 1,
        max_concurrency: 1,
        step_count: 10,
    }
}

#[test]
fn a_state_machine_is_made_and_asked() {
    let mut h = replaying(&[]);
    let machine = hegel_new_state_machine(
        &mut h.ctx,
        Some(&h.handle),
        &mut h.family,
        &machine_args(),
        Ok(1),
        false,
    );
    assert!(machine.is_ok(), "{}", message(&h.ctx));
    let machine = machine.ok();
    assert_eq!(machine.as_ref().map(|m| m.concurrency), Some(1));
    assert!(!h.family.core.concurrent_machine);
    let tc = Some(&h.handle);
    let ctx = &mut h.ctx;
    assert_eq!(
        hegel_state_machine_next_group(ctx, tc, false, machine.as_ref(), false),
        Ok(MachineStep::NextGroup)
    );
    assert_eq!(
        hegel_state_machine_next_rule(ctx, tc, false, machine.as_ref(), 4, false),
        Ok(MachineStep::NextRule(4))
    );
    assert_eq!(
        hegel_state_machine_rule_rejected(ctx, tc, false, machine.as_ref(), 4),
        Ok(MachineStep::RuleRejected(4))
    );
    assert_eq!(
        hegel_state_machine_should_check_invariant(ctx, tc, false, machine.as_ref(), 0, false),
        Ok(MachineStep::ShouldCheckInvariant(0))
    );
    assert_eq!(
        hegel_state_machine_next_rule(ctx, tc, false, None, 0, false),
        Err(hegel_result_t::HEGEL_E_INVALID_HANDLE)
    );
    assert_eq!(message(ctx), "hegel_state_machine_next_rule: state machine handle is null");
    ctx.clear_last_error();
    assert_eq!(machine_answer(ctx, Ok(Some(1))), Ok(1));
    assert_eq!(machine_answer(ctx, Ok(None)), Ok(HEGEL_STATE_MACHINE_DONE));
    assert_eq!(
        machine_answer(ctx, Err(EngineError::Overrun)),
        Err(hegel_result_t::HEGEL_E_STOP_TEST)
    );
}

#[test]
fn an_unsound_state_machine_is_refused() {
    let mut h = replaying(&[]);
    let mut args = machine_args();
    args.rule_groups = Some(vec![0, HEGEL_STATE_MACHINE_DONE]);
    assert!(hegel_new_state_machine(
        &mut h.ctx,
        Some(&h.handle),
        &mut h.family,
        &args,
        Ok(1),
        false,
    )
    .is_err());
    assert!(message(&h.ctx).starts_with("hegel_new_state_machine: rule_groups[1] is "));
    let mut args = machine_args();
    args.rule_names = TextsArg::Texts(vec![text("push"), TextArg::NotUtf8]);
    assert!(hegel_new_state_machine(
        &mut h.ctx,
        Some(&h.handle),
        &mut h.family,
        &args,
        Ok(1),
        false,
    )
    .is_err());
    let mut args = machine_args();
    args.max_concurrency = 3;
    h.family.core.set_reject_concurrent_machine(true);
    assert_eq!(
        hegel_new_state_machine(&mut h.ctx, Some(&h.handle), &mut h.family, &args, Ok(2), false)
            .err(),
        Some(hegel_result_t::HEGEL_E_ASSUME)
    );
    assert!(h.family.core.concurrent_machine);
}

#[test]
fn a_state_machine_has_the_workers_that_were_drawn() {
    let mut h = replaying(&[]);
    let mut args = machine_args();
    args.min_concurrency = 2;
    args.max_concurrency = 5;
    let mut made = |drawn| {
        let r = hegel_new_state_machine(
            &mut h.ctx,
            Some(&h.handle),
            &mut h.family,
            &args,
            drawn,
            false,
        );
        (r.map(|m| m.concurrency), message(&h.ctx))
    };
    assert_eq!(made(Ok(2)), (Ok(2), String::new()));
    assert_eq!(made(Ok(5)), (Ok(5), String::new()));
    assert_eq!(
        made(Err(EngineError::Overrun)),
        (Err(hegel_result_t::HEGEL_E_STOP_TEST), String::new())
    );
    let (r, said) = made(Ok(6));
    assert_eq!(r, Err(hegel_result_t::HEGEL_E_INTERNAL));
    assert!(said.starts_with("concurrency level outside its bounds"));
}

/// Categories with the given codepoints, to be included and excluded.
fn categories(
    included: Vec<(u32, u32)>,
    excluded: Vec<(u32, u32)>,
) -> Result<CategorySets, EngineError> {
    let set = |ranges| IntervalSet::new(ranges).map_err(EngineError::Internal);
    Ok(CategorySets { included: set(included)?, excluded: set(excluded)? })
}

fn text_generator(
    ctx: &mut HegelContext,
    min_size: u64,
    max_size: u64,
    args: &AlphabetArgs,
) -> Result<HegelStringGenerator, hegel_result_t> {
    let sets = categories(vec![], vec![]);
    hegel_string_generator_text(ctx, min_size, max_size, args, sets, false)
}

fn any_alphabet() -> AlphabetArgs {
    AlphabetArgs {
        codec: TextArg::Null,
        min_codepoint: 0,
        max_codepoint: 0x10ffff,
        categories: TextsArg::Null(0),
        exclude_categories: TextsArg::Null(0),
        include_characters: TextArg::Null,
        exclude_characters: TextArg::Null,
    }
}

#[test]
fn texts_are_drawn_over_their_alphabet() {
    let mut ctx = hegel_context_new();
    let mut lower = any_alphabet();
    lower.min_codepoint = 'a' as u32;
    lower.max_codepoint = 'z' as u32;
    let made = text_generator(&mut ctx, 1, 4, &lower).ok();
    let mut generator = made.unwrap();
    for seed in 0..50 {
        let mut h = handle_on(new_random(seed));
        let s = hegel_generate_string(
            &mut h.ctx,
            Some(&h.handle),
            &mut h.family,
            &mut h.stream,
            Some(&mut generator),
            Err(EngineError::Overrun),
            false,
        )
        .unwrap();
        assert!((1..=4).contains(&s.len()));
        assert!(s.chars().all(|c| c.is_ascii_lowercase()));
    }
    assert!(text_generator(&mut ctx, 4, 1, &any_alphabet()).is_err());
    let mut args = any_alphabet();
    args.codec = text("none");
    assert!(text_generator(&mut ctx, 0, 1, &args).is_err());
    assert_eq!(message(&ctx), "unknown codec: none");
    let mut none = any_alphabet();
    none.categories = TextsArg::Texts(vec![]);
    assert!(text_generator(&mut ctx, 1, 4, &none).is_err());
    assert!(text_generator(&mut ctx, 0, 0, &none).is_ok());
    assert!(hegel_string_generator_email(&mut ctx, false).is_ok());
    assert!(hegel_string_generator_regex(&mut ctx, &text("a+"), true, None, Ok(()), false).is_ok());
    let malformed = Err(EngineError::InvalidArgument("missing )".to_string()));
    assert_eq!(
        hegel_string_generator_regex(&mut ctx, &text("("), true, None, malformed, false).err(),
        Some(hegel_result_t::HEGEL_E_INVALID_ARG)
    );
    assert_eq!(message(&ctx), "missing )");
    assert!(hegel_string_generator_domain(&mut ctx, 255, false).is_ok());
    assert!(hegel_string_generator_domain(&mut ctx, 3, false).is_err());
    assert!(hegel_string_generator_domain(&mut ctx, 256, false).is_err());
}

#[test]
fn alphabets_have_what_is_described() {
    let described = |codec: Option<&str>, min: u32, max: u32| TextAlphabet {
        codec: codec.map(str::to_string),
        min_codepoint: min,
        max_codepoint: max,
        categories: None,
        exclude_categories: None,
        include_characters: None,
        exclude_characters: None,
    };
    let ranges = |a: &TextAlphabet, sets| {
        let set = characters(a, sets).unwrap();
        let mut found: Vec<(u32, u32)> = Vec::new();
        for i in 0..set.len() {
            let cp = set.get(i);
            match found.last_mut() {
                Some(range) if range.1 + 1 == cp => range.1 = cp,
                _ => found.push((cp, cp)),
            }
        }
        found
    };
    let none = || categories(vec![], vec![]);
    let all = described(None, 0, u32::MAX);
    assert_eq!(ranges(&all, none()), vec![(0, 0xd7ff), (0xe000, 0x10_ffff)]);
    assert_eq!(ranges(&described(Some("ascii"), 0, u32::MAX), none()), vec![(0, 0x7f)]);
    assert_eq!(ranges(&described(Some("latin-1"), 0x80, u32::MAX), none()), vec![(0x80, 0xff)]);
    let mut a = described(Some("utf-8"), 0x41, 0x5a);
    a.categories = Some(vec!["Lu".to_string()]);
    a.include_characters = Some("az".to_string());
    a.exclude_characters = Some("Cz".to_string());
    let sets = categories(vec![(0x41, 0x45), (0x50, 0x60)], vec![(0x50, 0x58)]);
    let expected = vec![(0x41, 0x42), (0x44, 0x45), (0x59, 0x5a), (0x61, 0x61)];
    assert_eq!(ranges(&a, sets), expected);
    let refused = characters(&described(Some("ebcdic"), 0, 9), none()).err();
    assert!(matches!(refused, Some(EngineError::InvalidArgument(m)) if m == "unknown codec: ebcdic"));
    assert!(matches!(characters(&all, Err(EngineError::Overrun)), Err(EngineError::Overrun)));
}

#[test]
fn workers_are_drawn_from_the_most_down() {
    for (choice, level) in [(0, 5), (3, 2)] {
        let mut h = replaying(&integers(&[choice]));
        let drawn = draw_concurrency(&mut h.stream, &mut h.family.core, 2, 5);
        assert_eq!(drawn.ok(), Some(level));
        assert_eq!(h.stream.nodes.len(), 1);
        assert_eq!(h.stream.structure.spans.at(0).label, draw_label(DrawKind::Concurrency));
    }
    let mut h = replaying(&[]);
    assert_eq!(draw_concurrency(&mut h.stream, &mut h.family.core, 4, 4).ok(), Some(4));
    assert!(h.stream.nodes.is_empty() && h.stream.structure.spans.is_empty());
    let drawn = draw_concurrency(&mut h.stream, &mut h.family.core, 1, 4);
    assert!(matches!(drawn, Err(EngineError::Overrun)));
}

#[test]
fn addresses_have_their_bytes() {
    let mut h = replaying(&[]);
    let tc = Some(&h.handle);
    let four = hegel_generate_ipv4(&mut h.ctx, tc, false, Ok(vec![127, 0, 0, 1]), false);
    assert_eq!(four, Ok(vec![127, 0, 0, 1]));
    let six = hegel_generate_ipv6(&mut h.ctx, tc, false, Ok(vec![0; 16]), false);
    assert_eq!(six, Ok(vec![0; 16]));
    let short = hegel_generate_ipv6(&mut h.ctx, tc, false, Ok(vec![0; 4]), false);
    assert_eq!(short, Err(hegel_result_t::HEGEL_E_INTERNAL));
    assert!(message(&h.ctx).starts_with("address with a wrong number of bytes"));
    let over = hegel_generate_ipv4(&mut h.ctx, tc, false, Err(EngineError::Overrun), false);
    assert_eq!(over, Err(hegel_result_t::HEGEL_E_STOP_TEST));
    let null = hegel_generate_ipv4(&mut h.ctx, tc, false, Ok(vec![0; 4]), true);
    assert_eq!(null, Err(hegel_result_t::HEGEL_E_INVALID_ARG));
}

#[test]
fn other_strings_are_drawn_in_a_span_of_their_own() {
    let mut h = replaying(&[ChoiceValue::Integer(BigInt::from_i64(3))]);
    let mut generator = hegel_string_generator_email(&mut h.ctx, false).ok().unwrap();
    let started = start_string_draw(
        &mut h.ctx,
        Some(&h.handle),
        &mut h.family,
        &mut h.stream,
        Some(&generator),
        false,
    );
    assert_eq!(started, Ok(true));
    let (low, high) = (BigInt::zero(), BigInt::from_i64(9));
    let n = h.stream.draw_integer(&mut h.family.core, low, high).unwrap().to_i64().unwrap();
    let mut finish = |drawn| {
        let r = hegel_generate_string(
            &mut h.ctx,
            Some(&h.handle),
            &mut h.family,
            &mut h.stream,
            Some(&mut generator),
            drawn,
            false,
        );
        (r, h.stream.structure.spans.len())
    };
    assert_eq!(finish(Ok(format!("user{n}@example.com"))), (Ok("user3@example.com".into()), 1));
    assert_eq!(
        finish(Err(EngineError::InvalidTestCase)),
        (Err(hegel_result_t::HEGEL_E_ASSUME), 1)
    );
    let span = h.stream.structure.spans.at(0);
    assert_eq!((span.start, span.end), (0, 1));
    assert_eq!(span.label, draw_label(DrawKind::Email));
    assert_eq!(h.stream.span_depth(), 0);
}

#[test]
fn a_run_offers_cases_until_it_has_a_result() {
    let mut ctx = hegel_context_new();
    let s = settings();
    let mut run = hegel_run_start(&mut ctx, Some(&s), false).ok().unwrap();
    assert_eq!(
        hegel_next_test_case(&mut ctx, Some(&mut run), true, false),
        Ok(NextAction::Resume)
    );
    assert!(run.step(EngineStep::Offered));
    assert_eq!(
        hegel_next_test_case(&mut ctx, Some(&mut run), false, false),
        Err(hegel_result_t::HEGEL_E_NOT_COMPLETE)
    );
    assert_eq!(
        hegel_run_result(&mut ctx, Some(&run), false).err(),
        Some(hegel_result_t::HEGEL_E_NOT_COMPLETE)
    );
    assert_eq!(message(&ctx), "hegel_run_result: run has not finished yet");
    assert_eq!(
        hegel_next_test_case(&mut ctx, Some(&mut run), true, false),
        Ok(NextAction::Resume)
    );
    let result = TestRunResult {
        failures: vec![Failure {
            origin: "here".to_string(),
            reproduce_blob: Some("blob".to_string()),
        }],
        nondeterministic: false,
    };
    assert!(!run.step(EngineStep::Finished(Ok(result))));
    assert_eq!(
        hegel_next_test_case(&mut ctx, Some(&mut run), true, false),
        Ok(NextAction::Done)
    );
    let r = hegel_run_result(&mut ctx, Some(&run), false).ok().unwrap();
    assert_eq!(
        hegel_run_result_status(&mut ctx, Some(&r), false),
        Ok(hegel_run_status_t::HEGEL_RUN_STATUS_FAILED)
    );
    assert_eq!(hegel_run_result_error(&mut ctx, Some(&r), false), Ok(None));
    assert_eq!(hegel_run_result_failure_count(&mut ctx, Some(&r), false), Ok(1));
    let f = hegel_run_result_failure(&mut ctx, Some(&r), 0, false).ok().unwrap();
    assert_eq!(hegel_failure_origin(&mut ctx, Some(&f), false), Ok("here".to_string()));
    assert_eq!(
        hegel_failure_reproduction_blob(&mut ctx, Some(&f), false),
        Ok(Some("blob".to_string()))
    );
    assert!(hegel_run_result_failure(&mut ctx, Some(&r), 1, false).is_err());
    assert_eq!(
        message(&ctx),
        "hegel_run_result_failure: index 1 is out of range (the result has 1 failures)"
    );
    assert_eq!(hegel_run_free(&mut ctx, None), hegel_result_t::HEGEL_OK);
}

#[test]
fn results_say_how_a_run_ended() {
    let clean = TestRunResult { failures: vec![], nondeterministic: true };
    assert_eq!(
        HegelRunResult::from_result(&clean).status(),
        hegel_run_status_t::HEGEL_RUN_STATUS_PASSED
    );
    let flaky = TestRunResult {
        failures: vec![Failure { origin: "x".to_string(), reproduce_blob: None }],
        nondeterministic: true,
    };
    assert_eq!(
        HegelRunResult::from_result(&flaky).status(),
        hegel_run_status_t::HEGEL_RUN_STATUS_FAILED_NONDETERMINISTIC
    );
    assert_eq!(
        HegelRunResult::from_error("broken").status(),
        hegel_run_status_t::HEGEL_RUN_STATUS_ERROR
    );
    let mut ctx = hegel_context_new();
    let s = settings();
    let mut run = hegel_run_start(&mut ctx, Some(&s), false).ok().unwrap();
    assert!(!run.step(EngineStep::Finished(Err(RunError::Backend("gone".to_string())))));
    let r = hegel_run_result(&mut ctx, Some(&run), false).ok().unwrap();
    assert!(hegel_run_result_error(&mut ctx, Some(&r), false).unwrap().is_some());
    assert_eq!(
        hegel_run_result_status(&mut ctx, None, false),
        Err(hegel_result_t::HEGEL_E_INVALID_HANDLE)
    );
}

#[test]
fn blobs_are_read_as_text() {
    let mut ctx = hegel_context_new();
    let s = settings();
    assert_eq!(
        hegel_test_case_from_blob(&mut ctx, Some(&s), &text("AAA"), false),
        Ok("AAA".to_string())
    );
    assert_eq!(
        hegel_test_case_from_blob(&mut ctx, Some(&s), &TextArg::NotUtf8, false),
        Err(hegel_result_t::HEGEL_E_INVALID_ARG)
    );
}

#[test]
fn printers_have_one_width() {
    let mut ctx = hegel_context_new();
    let (printer, width) = hegel_printer_new(&mut ctx, None, false).unwrap();
    assert_eq!(width, 79);
    assert_eq!(printer.target, PrinterTarget::Main);
    let mut options = hegel_printer_options_new(&mut ctx, false).unwrap();
    assert_eq!(
        hegel_printer_options_set_max_width(&mut ctx, Some(&mut options), 0),
        hegel_result_t::HEGEL_E_INVALID_ARG
    );
    assert_eq!(
        hegel_printer_options_set_max_width(&mut ctx, Some(&mut options), 40),
        hegel_result_t::HEGEL_OK
    );
    assert_eq!(options, HegelPrinterOptions { max_width: Some(40) });
    let mut h = replaying(&[]);
    let target = PrinterTarget::Main;
    assert!(hegel_test_case_printer(
        &mut h.ctx,
        Some(&h.handle),
        &mut h.family,
        Some(&options),
        target,
        false,
    )
    .is_ok());
    let wider = HegelPrinterOptions { max_width: Some(50) };
    assert!(hegel_test_case_printer(
        &mut h.ctx,
        Some(&h.handle),
        &mut h.family,
        Some(&wider),
        target,
        false,
    )
    .is_err());
    assert_eq!(
        message(&h.ctx),
        "hegel_test_case_printer: the family's document is laid out to max_width 40 and cannot \
         change to 50"
    );
    assert!(hegel_test_case_printer(
        &mut h.ctx,
        Some(&h.handle),
        &mut h.family,
        None,
        target,
        false,
    )
    .is_ok());
}

#[test]
fn what_is_printed_is_made_out() {
    let mut ctx = hegel_context_new();
    let main = HegelPrinter { target: PrinterTarget::Main, busy: false, attributed: true };
    let p = Some(&main);
    assert!(matches!(
        hegel_printer_text(&mut ctx, p, &text("word"), 4),
        Ok(PrinterOp::Text(t)) if t == "word"
    ));
    assert!(matches!(
        hegel_printer_if_break(&mut ctx, p, &text(","), 1),
        Ok(PrinterOp::IfBreak(t)) if t == ","
    ));
    assert!(matches!(
        hegel_printer_breakable(&mut ctx, p, &TextArg::Null, 0),
        Ok(PrinterOp::Breakable(t)) if t.is_empty()
    ));
    assert!(matches!(
        hegel_printer_comment(&mut ctx, p, &text("note"), 4),
        Ok(PrinterOp::Comment(t)) if t == "note"
    ));
    assert!(matches!(
        hegel_printer_begin_group(&mut ctx, p, 4, &text("["), 1),
        Ok(PrinterOp::BeginGroup(4, t)) if t == "["
    ));
    assert!(matches!(
        hegel_printer_end_group(&mut ctx, p, &text("]"), 1),
        Ok(PrinterOp::EndGroup(t)) if t == "]"
    ));
    assert!(matches!(hegel_printer_hard_break(&mut ctx, p), Ok(PrinterOp::HardBreak)));
    assert!(matches!(
        hegel_printer_shift_indent(&mut ctx, p, -3),
        Ok(PrinterOp::ShiftIndent(-3))
    ));
    assert!(matches!(hegel_printer_resolve(&mut ctx, p), Ok(PrinterOp::Resolve)));
    assert!(hegel_printer_text(&mut ctx, p, &text("two\nlines"), 9).is_err());
    assert_eq!(message(&ctx), "hegel_printer_text: text must not contain newlines");
    assert!(hegel_printer_text(&mut ctx, p, &TextArg::Null, 3).is_err());
    assert_eq!(message(&ctx), "hegel_printer_text: text is null");
    assert!(hegel_printer_hard_break(&mut ctx, None).is_err());
    assert_eq!(message(&ctx), "hegel_printer_hard_break: printer handle is null");

    let now = Attribution { worker: 1, elapsed_micros: 2_003 };
    let op = hegel_printer_text(&mut ctx, p, &text("word"), 4).ok().unwrap();
    assert_eq!(op.stamp(&main, &now, true), Some("[worker 1 +2.003ms] ".to_string()));
    assert_eq!(op.stamp(&main, &now, false), None);
    let op = hegel_printer_hard_break(&mut ctx, p).ok().unwrap();
    assert_eq!(op.stamp(&main, &now, true), None);
}

#[test]
fn what_a_document_answers_is_told() {
    let mut ctx = hegel_context_new();
    let main = HegelPrinter { target: PrinterTarget::Main, busy: false, attributed: true };
    assert_eq!(
        document_answer(&mut ctx, "hegel_printer_text", Ok(())),
        hegel_result_t::HEGEL_OK
    );
    assert_eq!(
        document_answer(
            &mut ctx,
            "hegel_printer_text",
            Err(PrinterError::DeadSlot("the slot is gone".to_string())),
        ),
        hegel_result_t::HEGEL_E_INVALID_HANDLE
    );
    assert_eq!(message(&ctx), "hegel_printer_text: the slot is gone");
    assert_eq!(
        document_answer(
            &mut ctx,
            "hegel_printer_end_group",
            Err(PrinterError::Misuse("no open group".to_string())),
        ),
        hegel_result_t::HEGEL_E_INVALID_ARG
    );
    assert_eq!(
        hegel_printer_deferred(&mut ctx, Some(&main), false),
        Ok(PrinterTarget::Main)
    );
    let slot = deferred_answer(&mut ctx, &main, Ok(8)).ok().unwrap();
    assert_eq!(slot, HegelPrinter { target: PrinterTarget::Slot(8), busy: false, attributed: true });
    assert_eq!(
        hegel_printer_is_live(&mut ctx, Some(&slot), false),
        Ok(PrinterTarget::Slot(8))
    );
    assert_eq!(
        hegel_printer_value(&mut ctx, Some(&slot), false),
        Err(hegel_result_t::HEGEL_E_INVALID_ARG)
    );
    assert_eq!(message(&ctx), "hegel_printer_value: not the document's root handle");
    assert_eq!(hegel_printer_value(&mut ctx, Some(&main), false), Ok(()));
    assert_eq!(value_answer(&mut ctx, Ok("doc".to_string())), Ok("doc".to_string()));
    let busy = HegelPrinter { busy: true, ..main };
    assert_eq!(
        hegel_printer_value(&mut ctx, Some(&busy), false),
        Err(hegel_result_t::HEGEL_E_CONCURRENT_USE)
    );
}

#[test]
fn notes_carry_their_worker() {
    let mut ctx = hegel_context_new();
    let mut tc = handle_from_family();
    let note = hegel_note(&mut ctx, Some(&tc), 5, &text("two\nlines"), 9).ok().unwrap();
    assert_eq!((note.text.as_str(), note.prefix), ("two\nlines", None));
    tc.worker = 2;
    let note = hegel_note(&mut ctx, Some(&tc), 1_000, &TextArg::Null, 0).ok().unwrap();
    assert_eq!(note.text, "");
    assert_eq!(note.prefix, Some("[worker 2 +1.000ms] ".to_string()));
    assert!(hegel_note(&mut ctx, None, 0, &text("x"), 1).is_err());
    assert_eq!(message(&ctx), "hegel_note: test case pointer is null");
    assert!(hegel_note(&mut ctx, Some(&tc), 0, &TextArg::Null, 1).is_err());
    assert_eq!(message(&ctx), "hegel_note: text is null");
}

#[test]
fn fallbacks_outside_the_range_do_not_fit() {
    let spec = floats_between(64, 2.0, 3.0);
    assert!(fallbacks_fit(spec, float_value(2.0), float_value(3.0)));
    assert!(!fallbacks_fit(spec, float_value(0.0), float_value(3.0)));
    assert!(!fallbacks_fit(spec, float_value(2.0), float_value(4.0)));
    assert!(fallbacks_fit(floats_between(64, 3.0, 2.0), float_value(0.0), float_value(0.0)));
}
