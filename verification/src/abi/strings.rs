//! String generators.
use crate::abi::cases::size_arg;
use crate::abi::fault;
use crate::abi::gave;
use crate::abi::hegel_result_t;
use crate::abi::optional_utf8_arg;
use crate::abi::required_utf8_arg;
use crate::abi::settings::text_view;
use crate::abi::shown;
use crate::abi::text_arg_fault;
use crate::abi::values::size_of;
use crate::abi::FaultView;
use crate::abi::HegelContext;
use crate::abi::TextArg;
use crate::abi::TextArgView;
use crate::alphabets::characters;
use crate::alphabets::made_out;
use crate::alphabets::CategorySets;
use crate::bignum::BigUint;
use crate::decimal::append_natural;
use crate::decimal::decimal;
use crate::draws::domain_length_outside;
use crate::draws::regex_specified;
use crate::draws::text_specified;
use crate::draws::StringSpec;
use crate::draws::MAX_DOMAIN_LENGTH;
use crate::draws::MIN_DOMAIN_LENGTH;
use crate::errors::EngineError;
use crate::intervalsets::IntervalSet;
use vstd::prelude::*;
use vstd::string::StringExecFns;

verus! {

/// What strings are to be drawn, as a handle.
pub struct HegelStringGenerator {
    /// What strings are to be drawn.
    pub spec: StringSpec,
}

/// The result of a call that fails to make something. Whatever is not a bug
/// of the engine is the fault of the arguments.
pub open spec fn construct_code(e: EngineError) -> hegel_result_t {
    match e {
        EngineError::Internal(_) => hegel_result_t::HEGEL_E_INTERNAL,
        _ => hegel_result_t::HEGEL_E_INVALID_ARG,
    }
}

/// The message of an error.
pub open spec fn error_text(e: EngineError) -> Seq<char> {
    match e {
        EngineError::Overrun => "test case overrun"@,
        EngineError::InvalidTestCase => "invalid test case"@,
        EngineError::InvalidArgument(m) => m@,
        EngineError::Internal(e) => e@,
    }
}

/// Tells of an error that something could not be made for.
pub fn translate_construct_error(ctx: &mut HegelContext, e: EngineError) -> (r: hegel_result_t)
    ensures
        r == construct_code(e),
        final(ctx)@ == shown(error_text(e)),
{
    ctx.set_last_error(e.to_message().as_str());
    match e {
        EngineError::Internal(_) => hegel_result_t::HEGEL_E_INTERNAL,
        _ => hegel_result_t::HEGEL_E_INVALID_ARG,
    }
}

/// A list of texts that was handed over.
pub enum TextsArg {
    /// A null pointer, with a length.
    Null(usize),
    /// A list.
    Texts(Vec<TextArg>),
}

/// The view of a list of texts.
pub open spec fn texts_view(v: Seq<TextArg>) -> Seq<TextArgView> {
    v.map_values(|a: TextArg| a@)
}

/// What is wrong with an entry of a list of texts.
pub open spec fn entry_fault(func: Seq<char>, what: Seq<char>, i: int, arg: TextArgView) -> Option<
    FaultView,
> {
    let place = func + ": "@ + what + "["@ + decimal(i as nat) + "]"@;
    match arg {
        TextArgView::Null => fault(hegel_result_t::HEGEL_E_INVALID_ARG, place + " is null"@),
        TextArgView::NotUtf8 => fault(
            hegel_result_t::HEGEL_E_INVALID_ARG,
            place + " is not valid UTF-8"@,
        ),
        TextArgView::Text(_) => None,
    }
}

/// What is wrong with the first entry of a list of texts that something is
/// wrong with, from place `i` on.
pub open spec fn entries_fault(
    func: Seq<char>,
    what: Seq<char>,
    texts: Seq<TextArgView>,
    i: int,
) -> Option<FaultView>
    decreases texts.len() - i,
{
    if i >= texts.len() {
        None
    } else {
        match entry_fault(func, what, i, texts[i]) {
            Some(f) => Some(f),
            None => entries_fault(func, what, texts, i + 1),
        }
    }
}

/// What is wrong with a list of texts that must be there unless it is empty.
pub open spec fn texts_fault(func: Seq<char>, what: Seq<char>, arg: TextsArg) -> Option<FaultView> {
    match arg {
        TextsArg::Null(len) => if len > 0 {
            fault(
                hegel_result_t::HEGEL_E_INVALID_ARG,
                func + ": "@ + what + " pointer is null"@,
            )
        } else {
            None
        },
        TextsArg::Texts(v) => entries_fault(func, what, texts_view(v@), 0),
    }
}

/// Whether names are those of a list of texts.
pub open spec fn names_are(names: Seq<String>, arg: TextsArg) -> bool {
    match arg {
        TextsArg::Null(_) => names.len() == 0,
        TextsArg::Texts(v) => {
            &&& names.len() == v@.len()
            &&& forall|i: int|
                0 <= i < names.len() ==> v@[i]@ == TextArgView::Text((#[trigger] names[i])@)
        },
    }
}

/// Reads a list of texts.
pub fn names_from_c_array(ctx: &mut HegelContext, func: &str, what: &str, arg: &TextsArg) -> (r:
    Result<Vec<String>, hegel_result_t>)
    ensures
        match texts_fault(func@, what@, *arg) {
            Some(f) => r matches Err(code) && code == f.code && final(ctx)@ == shown(f.message),
            None => r matches Ok(names) && names_are(names@, *arg) && *final(ctx) == *old(ctx),
        },
{
    let texts = match arg {
        TextsArg::Null(len) => {
            if *len > 0 {
                let mut message = String::from_str(func);
                message.append(": ");
                message.append(what);
                message.append(" pointer is null");
                ctx.set_last_error(message.as_str());
                return Err(hegel_result_t::HEGEL_E_INVALID_ARG);
            }
            return Ok(Vec::new());
        },
        TextsArg::Texts(texts) => texts,
    };
    let mut names: Vec<String> = Vec::new();
    let ghost view = texts_view(texts@);
    while names.len() < texts.len()
        invariant
            *arg == TextsArg::Texts(*texts),
            view == texts_view(texts@),
            *ctx == *old(ctx),
            names@.len() <= texts@.len(),
            entries_fault(func@, what@, view, 0) == entries_fault(
                func@,
                what@,
                view,
                names@.len() as int,
            ),
            forall|i: int|
                0 <= i < names@.len() ==> texts@[i]@ == TextArgView::Text((#[trigger] names@[i])@),
        decreases texts@.len() - names@.len(),
    {
        let i: usize = names.len();
        assert(view[i as int] == texts@[i as int]@);
        let end: &'static str = match &texts[i] {
            TextArg::Text(t) => {
                names.push(t.clone());
                continue ;
            },
            TextArg::Null => " is null",
            TextArg::NotUtf8 => " is not valid UTF-8",
        };
        let mut message = String::from_str(func);
        message.append(": ");
        message.append(what);
        message.append("[");
        append_natural(&mut message, &BigUint::from_u128(i as u128));
        message.append("]");
        message.append(end);
        ctx.set_last_error(message.as_str());
        return Err(hegel_result_t::HEGEL_E_INVALID_ARG);
    }
    Ok(names)
}

/// Reads a list of texts that may be left out.
fn optional_utf8_array_arg(
    ctx: &mut HegelContext,
    func: &str,
    what: &str,
    arg: &TextsArg,
) -> (r: Result<Option<Vec<String>>, hegel_result_t>)
    ensures
        match optional_texts_fault(func@, what@, *arg) {
            Some(f) => r matches Err(code) && code == f.code && final(ctx)@ == shown(f.message),
            None => r matches Ok(names) && list_is(names, *arg) && *final(ctx) == *old(ctx),
        },
{
    match arg {
        TextsArg::Null(_) => Ok(None),
        TextsArg::Texts(_) => match names_from_c_array(ctx, func, what, arg) {
            Ok(names) => Ok(Some(names)),
            Err(code) => Err(code),
        },
    }
}

/// What is wrong with a list of texts that may be left out.
pub open spec fn optional_texts_fault(func: Seq<char>, what: Seq<char>, arg: TextsArg) -> Option<
    FaultView,
> {
    if arg is Null {
        None
    } else {
        texts_fault(func, what, arg)
    }
}

/// Whether a list is the one that was handed over.
pub open spec fn list_is(names: Option<Vec<String>>, arg: TextsArg) -> bool {
    match names {
        None => arg is Null,
        Some(names) => !(arg is Null) && names_are(names@, arg),
    }
}

/// What is wrong with a text that may be left out.
pub open spec fn optional_text_fault(func: Seq<char>, name: Seq<char>, arg: TextArgView) -> Option<
    FaultView,
> {
    if arg is Null {
        None
    } else {
        text_arg_fault(func, name, arg)
    }
}

/// The text of an argument.
pub open spec fn text_of_arg(arg: TextArgView) -> Option<Seq<char>> {
    match arg {
        TextArgView::Text(t) => Some(t),
        _ => None,
    }
}

/// Which characters a text may have.
pub struct TextAlphabet {
    /// What the characters are written in.
    pub codec: Option<String>,
    /// The smallest codepoint.
    pub min_codepoint: u32,
    /// The largest codepoint.
    pub max_codepoint: u32,
    /// The categories that the characters are of.
    pub categories: Option<Vec<String>>,
    /// The categories that the characters are not of.
    pub exclude_categories: Option<Vec<String>>,
    /// Characters that are added.
    pub include_characters: Option<String>,
    /// Characters that are taken away after that.
    pub exclude_characters: Option<String>,
}

/// A description of an alphabet that was handed over.
pub struct AlphabetArgs {
    pub codec: TextArg,
    pub min_codepoint: u32,
    pub max_codepoint: u32,
    pub categories: TextsArg,
    pub exclude_categories: TextsArg,
    pub include_characters: TextArg,
    pub exclude_characters: TextArg,
}

/// The first of two faults.
pub open spec fn first_fault(a: Option<FaultView>, b: Option<FaultView>) -> Option<FaultView> {
    match a {
        Some(f) => Some(f),
        None => b,
    }
}

/// What is wrong with the description of an alphabet.
pub open spec fn alphabet_fault(a: AlphabetArgs) -> Option<FaultView> {
    let func = "hegel_string_generator_text"@;
    first_fault(
        optional_text_fault(func, "codec"@, a.codec@),
        first_fault(
            optional_texts_fault(func, "categories"@, a.categories),
            first_fault(
                optional_texts_fault(func, "exclude_categories"@, a.exclude_categories),
                first_fault(
                    optional_text_fault(func, "include_characters"@, a.include_characters@),
                    optional_text_fault(func, "exclude_characters"@, a.exclude_characters@),
                ),
            ),
        ),
    )
}

/// Whether an alphabet is the one that was described.
pub open spec fn alphabet_is(t: TextAlphabet, a: AlphabetArgs) -> bool {
    &&& text_view(t.codec) == text_of_arg(a.codec@)
    &&& t.min_codepoint == a.min_codepoint
    &&& t.max_codepoint == a.max_codepoint
    &&& list_is(t.categories, a.categories)
    &&& list_is(t.exclude_categories, a.exclude_categories)
    &&& text_view(t.include_characters) == text_of_arg(a.include_characters@)
    &&& text_view(t.exclude_characters) == text_of_arg(a.exclude_characters@)
}

/// Reads the description of an alphabet.
pub fn read_alphabet(ctx: &mut HegelContext, a: &AlphabetArgs) -> (r: Result<
    TextAlphabet,
    hegel_result_t,
>)
    ensures
        match alphabet_fault(*a) {
            Some(f) => r matches Err(code) && code == f.code && final(ctx)@ == shown(f.message),
            None => r matches Ok(t) && alphabet_is(t, *a) && *final(ctx) == *old(ctx),
        },
{
    let func: &'static str = "hegel_string_generator_text";
    let codec = match optional_utf8_arg(ctx, func, "codec", &a.codec) {
        Ok(t) => t,
        Err(code) => {
            return Err(code);
        },
    };
    let categories = match optional_utf8_array_arg(ctx, func, "categories", &a.categories) {
        Ok(t) => t,
        Err(code) => {
            return Err(code);
        },
    };
    let exclude_categories = match optional_utf8_array_arg(
        ctx,
        func,
        "exclude_categories",
        &a.exclude_categories,
    ) {
        Ok(t) => t,
        Err(code) => {
            return Err(code);
        },
    };
    let include_characters = match optional_utf8_arg(
        ctx,
        func,
        "include_characters",
        &a.include_characters,
    ) {
        Ok(t) => t,
        Err(code) => {
            return Err(code);
        },
    };
    let exclude_characters = match optional_utf8_arg(
        ctx,
        func,
        "exclude_characters",
        &a.exclude_characters,
    ) {
        Ok(t) => t,
        Err(code) => {
            return Err(code);
        },
    };
    Ok(
        TextAlphabet {
            codec,
            min_codepoint: a.min_codepoint,
            max_codepoint: a.max_codepoint,
            categories,
            exclude_categories,
            include_characters,
            exclude_characters,
        },
    )
}

/// Whether a generator was handed out for a specification, or an error was
/// told of.
pub open spec fn generator_made(
    ctx: HegelContext,
    r: Result<HegelStringGenerator, hegel_result_t>,
    spec: Result<StringSpec, EngineError>,
) -> bool {
    match spec {
        Ok(spec) => r matches Ok(g) && g.spec == spec && ctx@ == Seq::<char>::empty(),
        Err(e) => r matches Err(code) && code == construct_code(e) && ctx@ == shown(error_text(e)),
    }
}

/// Hands out a generator.
fn make_generator(ctx: &mut HegelContext, spec: Result<StringSpec, EngineError>) -> (r: Result<
    HegelStringGenerator,
    hegel_result_t,
>)
    requires
        old(ctx)@ == Seq::<char>::empty(),
    ensures
        generator_made(*final(ctx), r, spec),
{
    match spec {
        Ok(spec) => Ok(HegelStringGenerator { spec }),
        Err(e) => Err(translate_construct_error(ctx, e)),
    }
}

/// What is wrong with a call that makes something.
pub open spec fn out_fault(func: Seq<char>, out_is_null: bool) -> Option<FaultView> {
    if out_is_null {
        fault(hegel_result_t::HEGEL_E_INVALID_ARG, func + ": out parameter is null"@)
    } else {
        None
    }
}

/// Lets a call through that makes something.
pub fn out_guard(ctx: &mut HegelContext, func: &str, out_is_null: bool) -> (r: Result<
    (),
    hegel_result_t,
>)
    ensures
        gave(*final(ctx), r, out_fault(func@, out_is_null), ()),
{
    ctx.clear_last_error();
    if out_is_null {
        Err(ctx.fail(hegel_result_t::HEGEL_E_INVALID_ARG, func, ": out parameter is null"))
    } else {
        Ok(())
    }
}

/// Whether texts are specified over the alphabet that was described, or cannot be.
pub open spec fn text_described(
    args: AlphabetArgs,
    sets: Result<CategorySets, EngineError>,
    min_size: usize,
    max_size: usize,
    spec: Result<StringSpec, EngineError>,
) -> bool {
    exists|t: TextAlphabet, built: Result<IntervalSet, EngineError>|
        {
            &&& alphabet_is(t, args)
            &&& #[trigger] made_out(t, sets, built)
            &&& text_specified(built, min_size, max_size, spec)
        }
}

/// A generator of texts over an alphabet. `sets` has the codepoints of the
/// categories that its description names, or says why there are none.
pub fn hegel_string_generator_text(
    ctx: &mut HegelContext,
    min_size: u64,
    max_size: u64,
    alphabet: &AlphabetArgs,
    sets: Result<CategorySets, EngineError>,
    out_is_null: bool,
) -> (r: Result<HegelStringGenerator, hegel_result_t>)
    ensures
        match first_fault(
            out_fault("hegel_string_generator_text"@, out_is_null),
            alphabet_fault(*alphabet),
        ) {
            Some(f) => r matches Err(code) && code == f.code && final(ctx)@ == shown(f.message),
            None => exists|spec: Result<StringSpec, EngineError>|
                {
                    &&& #[trigger] text_described(
                        *alphabet,
                        sets,
                        size_of(min_size),
                        size_of(max_size),
                        spec,
                    )
                    &&& generator_made(*final(ctx), r, spec)
                },
        },
        r matches Ok(g) ==> g.spec.wf() && g.spec is Text,
{
    if let Err(code) = out_guard(ctx, "hegel_string_generator_text", out_is_null) {
        return Err(code);
    }
    let described = match read_alphabet(ctx, alphabet) {
        Ok(t) => t,
        Err(code) => {
            return Err(code);
        },
    };
    let built = characters(&described, sets);
    let spec = StringSpec::text(built, size_arg(min_size), size_arg(max_size));
    assert(made_out(described, sets, built));
    assert(text_described(*alphabet, sets, size_of(min_size), size_of(max_size), spec));
    make_generator(ctx, spec)
}

/// What a generator draws.
pub open spec fn spec_of(generator: Option<&HegelStringGenerator>) -> Option<&StringSpec> {
    match generator {
        Some(g) => Some(&g.spec),
        None => None,
    }
}

/// A generator of strings that match a pattern. `compiled` says whether the
/// pattern could be compiled for the alphabet.
pub fn hegel_string_generator_regex(
    ctx: &mut HegelContext,
    pattern: &TextArg,
    fullmatch: bool,
    alphabet: Option<&HegelStringGenerator>,
    compiled: Result<(), EngineError>,
    out_is_null: bool,
) -> (r: Result<HegelStringGenerator, hegel_result_t>)
    ensures
        match first_fault(
            out_fault("hegel_string_generator_regex"@, out_is_null),
            text_arg_fault("hegel_string_generator_regex"@, "pattern"@, pattern@),
        ) {
            Some(f) => r matches Err(code) && code == f.code && final(ctx)@ == shown(f.message),
            None => exists|spec: Result<StringSpec, EngineError>|
                {
                    &&& #[trigger] regex_specified(
                        text_of_arg(pattern@)->0,
                        fullmatch,
                        spec_of(alphabet),
                        compiled,
                        spec,
                    )
                    &&& generator_made(*final(ctx), r, spec)
                },
        },
{
    if let Err(code) = out_guard(ctx, "hegel_string_generator_regex", out_is_null) {
        return Err(code);
    }
    let wanted = match required_utf8_arg(ctx, "hegel_string_generator_regex", "pattern", pattern) {
        Ok(t) => t,
        Err(code) => {
            return Err(code);
        },
    };
    let text = match alphabet {
        Some(g) => Some(&g.spec),
        None => None,
    };
    let spec = StringSpec::regex(wanted.as_str(), fullmatch, text, compiled);
    assert(regex_specified(
        text_of_arg(pattern@)->0,
        fullmatch,
        spec_of(alphabet),
        compiled,
        spec,
    ));
    make_generator(ctx, spec)
}

/// A generator of email addresses.
pub fn hegel_string_generator_email(ctx: &mut HegelContext, out_is_null: bool) -> (r: Result<
    HegelStringGenerator,
    hegel_result_t,
>)
    ensures
        gave(
            *final(ctx),
            r,
            out_fault("hegel_string_generator_email"@, out_is_null),
            HegelStringGenerator { spec: StringSpec::Email },
        ),
{
    match out_guard(ctx, "hegel_string_generator_email", out_is_null) {
        Ok(_) => Ok(HegelStringGenerator { spec: StringSpec::email() }),
        Err(code) => Err(code),
    }
}

/// A generator of URLs.
pub fn hegel_string_generator_url(ctx: &mut HegelContext, out_is_null: bool) -> (r: Result<
    HegelStringGenerator,
    hegel_result_t,
>)
    ensures
        gave(
            *final(ctx),
            r,
            out_fault("hegel_string_generator_url"@, out_is_null),
            HegelStringGenerator { spec: StringSpec::Url },
        ),
{
    match out_guard(ctx, "hegel_string_generator_url", out_is_null) {
        Ok(_) => Ok(HegelStringGenerator { spec: StringSpec::url() }),
        Err(code) => Err(code),
    }
}

/// A generator of domain names up to a length.
pub fn hegel_string_generator_domain(ctx: &mut HegelContext, max_length: u64, out_is_null: bool) -> (r:
    Result<HegelStringGenerator, hegel_result_t>)
    ensures
        gave(
            *final(ctx),
            r,
            first_fault(
                out_fault("hegel_string_generator_domain"@, out_is_null),
                if MIN_DOMAIN_LENGTH <= size_of(max_length) <= MAX_DOMAIN_LENGTH {
                    None
                } else {
                    fault(
                        hegel_result_t::HEGEL_E_INVALID_ARG,
                        domain_length_outside(size_of(max_length)),
                    )
                },
            ),
            HegelStringGenerator { spec: StringSpec::Domain { max_length: size_of(max_length) } },
        ),
{
    match out_guard(ctx, "hegel_string_generator_domain", out_is_null) {
        Ok(_) => make_generator(ctx, StringSpec::domain(size_arg(max_length))),
        Err(code) => Err(code),
    }
}

} // verus!
