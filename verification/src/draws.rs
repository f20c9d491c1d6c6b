//! The draws that are offered to test bodies. Each is wrapped in a span, so
//! that the shrinker sees it as a unit.
use crate::bignum::BigInt;
use crate::choices::BytesChoice;
use crate::choices::FloatChoice;
use crate::choices::FloatValue;
use crate::choices::Probability;
use crate::choices::StringKind;
use crate::choices::ValueView;
use crate::choices::PROBABILITY_ONE;
use crate::decimal::append_integer;
use crate::decimal::append_usize;
use crate::decimal::decimal;
use crate::decimal::signed_decimal;
use crate::drawing::bytes_answer;
use crate::drawing::float_answer;
use crate::drawing::integer_answer;
use crate::drawing::integer_range;
use crate::drawing::member_fault;
use crate::drawing::members_of;
use crate::drawing::says;
use crate::errors::EngineError;
use crate::errors::Status;
use crate::family::refusal;
use crate::family::FamilyCore;
use crate::float_grids::FloatWidth;
use crate::intervalsets::ranges_size;
use crate::intervalsets::IntervalSet;
use crate::labels::draw_label;
use crate::labels::draw_name;
use crate::labels::fnv1a;
use crate::labels::DrawKind;
use crate::sampling::float_kind_ok;
use crate::replay::lemma_draws_fit;
use crate::sampling::Distributions;
use crate::spans::MAX_DEPTH;
use crate::structure::closed_at;
use crate::structure::opened;
use crate::test_case::DataObserver;
use crate::test_case::NativeTestCase;
use crate::text::text_of;
use crate::variables::is_full;
use vstd::prelude::*;
use vstd::string::StringExecFns;

verus! {

/// Whether an error says that the request was malformed, in the words `what`.
pub open spec fn complains(e: EngineError, what: Seq<char>) -> bool {
    e matches EngineError::InvalidArgument(m) && m@ == what
}

impl<D: Distributions, O: DataObserver> NativeTestCase<D, O> {
    /// Whether a span can be opened without the test case becoming invalid.
    pub open spec fn has_depth(&self) -> bool {
        self.structure@.stack.len() < MAX_DEPTH
    }

    /// The test case without what became of its structure since `old`.
    pub open spec fn within_span(&self, old: Self) -> Self {
        NativeTestCase { structure: old.structure, ..*self }
    }

    /// Whether the structure is the one of `old` with a span more, which
    /// covers what was drawn since.
    pub open spec fn wrapped(&self, old: Self, kind: DrawKind) -> bool {
        self.structure@ == closed_at(
            opened(old.structure@, old.nodes@.len() as usize, fnv1a(draw_name(kind))),
            self.nodes@.len() as usize,
            false,
        )
    }

    /// How a test case relates to the one before the span of a draw was opened too
    /// deep: it is invalid, and the stream has ended. Nothing was drawn in the span.
    pub open spec fn sank(
        &self,
        old: Self,
        family: FamilyCore,
        new_family: FamilyCore,
        kind: DrawKind,
    ) -> bool {
        let at = old.nodes@.len() as usize;
        let started = opened(old.structure@, at, fnv1a(draw_name(kind)));
        &&& new_family == family.concluded(Status::Invalid, None)
        &&& if old.frozen {
            &&& *self == (NativeTestCase { structure: self.structure, ..old })
            &&& self.structure@ == closed_at(started, at, false)
        } else {
            self.froze(
                NativeTestCase { structure: self.structure, ..old },
                started,
                new_family,
            )
        }
    }

    /// Whether a request was turned away because its span would nest too
    /// deeply.
    pub open spec fn too_deep(
        &self,
        old: Self,
        family: FamilyCore,
        new_family: FamilyCore,
        kind: DrawKind,
        e: EngineError,
    ) -> bool {
        &&& self.sank(old, family, new_family, kind)
        &&& e == refusal(new_family.verdict()->0)
    }

    /// Opens the span of a draw. The answer is whether it nests too deeply.
    pub(crate) fn enter(&mut self, family: &mut FamilyCore, kind: DrawKind) -> (r: bool)
        ensures
            r == old(self).has_depth(),
            r ==> {
                &&& final(self).within_span(*old(self)) == *old(self)
                &&& final(self).structure@ == opened(
                    old(self).structure@,
                    old(self).nodes@.len() as usize,
                    fnv1a(draw_name(kind)),
                )
                &&& *final(family) == *old(family)
            },
            !r ==> final(self).span_started(
                *old(self),
                *old(family),
                *final(family),
                fnv1a(draw_name(kind)),
            ),
    {
        let depth = self.span_depth() < MAX_DEPTH as usize;
        self.start_span(family, draw_label(kind));
        depth
    }
}

/// What is said of an empty range.
pub open spec fn empty_integer_range(min: int, max: int) -> Seq<char> {
    "generate_integer requires min_value <= max_value, got ["@ + signed_decimal(min) + ", "@
        + signed_decimal(max) + "]"@
}

/// What is said of an inverted pair of sizes.
pub open spec fn inverted_byte_sizes(min: usize, max: usize) -> Seq<char> {
    "generate_bytes requires min_size <= max_size, got ["@ + decimal(min as nat) + ", "@ + decimal(
        max as nat,
    ) + "]"@
}

/// Whether an integer of `[min, max]` was drawn, or the request failed.
pub open spec fn integer_drawn<D: Distributions, O: DataObserver>(
    new: NativeTestCase<D, O>,
    old: NativeTestCase<D, O>,
    family: FamilyCore,
    new_family: FamilyCore,
    min_value: BigInt,
    max_value: BigInt,
    r: Result<BigInt, EngineError>,
) -> bool {
    if min_value@ > max_value@ {
        &&& r matches Err(e) && complains(e, empty_integer_range(min_value@, max_value@))
        &&& new == old
        &&& new_family == family
    } else if !old.has_depth() {
        r matches Err(e) && new.too_deep(old, family, new_family, DrawKind::Integer, e)
    } else {
        &&& new.wrapped(old, DrawKind::Integer)
        &&& new.within_span(old).drew_integer(
            old,
            family,
            min_value@,
            max_value@,
            integer_answer(r),
        )
        &&& new_family == old.family_after(family)
    }
}

/// Draws an integer of `[min_value, max_value]`.
pub fn generate_integer<D: Distributions, O: DataObserver>(
    ntc: &mut NativeTestCase<D, O>,
    family: &mut FamilyCore,
    min_value: &BigInt,
    max_value: &BigInt,
) -> (r: Result<BigInt, EngineError>)
    ensures
        integer_drawn(
            *final(ntc),
            *old(ntc),
            *old(family),
            *final(family),
            *min_value,
            *max_value,
            r,
        ),
{
    if max_value.less(min_value) {
        let mut what = String::from_str("generate_integer requires min_value <= max_value, got [");
        append_integer(&mut what, min_value);
        what.append(", ");
        append_integer(&mut what, max_value);
        what.append("]");
        return Err(EngineError::InvalidArgument(what));
    }
    ntc.enter(family, DrawKind::Integer);
    let r = ntc.draw_integer(family, min_value.clone(), max_value.clone());
    ntc.stop_span(false);
    r
}

/// Whether a fresh identifier was drawn, or the request failed. (It is left
/// open what happens once every identifier is in use.)
pub open spec fn fresh_id_drawn<D: Distributions, O: DataObserver>(
    new: NativeTestCase<D, O>,
    old: NativeTestCase<D, O>,
    family: FamilyCore,
    new_family: FamilyCore,
    r: Result<i64, EngineError>,
) -> bool {
    if !old.has_depth() {
        &&& new.sank(old, family, new_family, DrawKind::FreshId)
        &&& r matches Err(e) && if is_full(family.fresh_ids@) {
            says(e, "every identifier is in use"@)
        } else {
            e == refusal(new_family.verdict()->0)
        }
    } else {
        &&& new.wrapped(old, DrawKind::FreshId)
        &&& new.within_span(old).drew_fresh_id(old, family, new_family, r)
    }
}

/// Draws an identifier that no stream of the test case has drawn before.
pub fn fresh_id<D: Distributions, O: DataObserver>(
    ntc: &mut NativeTestCase<D, O>,
    family: &mut FamilyCore,
) -> (r: Result<i64, EngineError>)
    ensures
        fresh_id_drawn(*final(ntc), *old(ntc), *old(family), *final(family), r),
{
    ntc.enter(family, DrawKind::FreshId);
    let r = ntc.draw_fresh_id(family);
    ntc.stop_span(false);
    r
}

/// Whether one of the members was chosen, or the request failed.
pub open spec fn member_chosen<D: Distributions, O: DataObserver>(
    new: NativeTestCase<D, O>,
    old: NativeTestCase<D, O>,
    family: FamilyCore,
    new_family: FamilyCore,
    members: Seq<i64>,
    r: Result<i64, EngineError>,
) -> bool {
    if !old.has_depth() {
        &&& new.sank(old, family, new_family, DrawKind::SetChoice)
        &&& r matches Err(e) && match member_fault(members_of(members), family.fresh_ids@) {
            Some(what) => says(e, what),
            None => e == refusal(new_family.verdict()->0),
        }
    } else {
        &&& new.wrapped(old, DrawKind::SetChoice)
        &&& new.within_span(old).drew_member(old, family, new_family, members, r)
    }
}

/// Draws one of `members`, identifiers that were drawn before.
pub fn choose_from<D: Distributions, O: DataObserver>(
    ntc: &mut NativeTestCase<D, O>,
    family: &mut FamilyCore,
    members: &[i64],
) -> (r: Result<i64, EngineError>)
    ensures
        member_chosen(*final(ntc), *old(ntc), *old(family), *final(family), members@, r),
{
    ntc.enter(family, DrawKind::SetChoice);
    let r = ntc.draw_from_set(family, members);
    ntc.stop_span(false);
    r
}

/// Whether a byte string was drawn, or the request failed.
pub open spec fn bytes_drawn<D: Distributions, O: DataObserver>(
    new: NativeTestCase<D, O>,
    old: NativeTestCase<D, O>,
    family: FamilyCore,
    new_family: FamilyCore,
    min_size: usize,
    max_size: usize,
    r: Result<Vec<u8>, EngineError>,
) -> bool {
    if min_size > max_size {
        &&& r matches Err(e) && complains(e, inverted_byte_sizes(min_size, max_size))
        &&& new == old
        &&& new_family == family
    } else if !old.has_depth() {
        r matches Err(e) && new.too_deep(old, family, new_family, DrawKind::Bytes, e)
    } else {
        &&& new.wrapped(old, DrawKind::Bytes)
        &&& new.within_span(old).drew_bytes(
            old,
            family,
            BytesChoice { min_size, max_size },
            bytes_answer(r),
        )
        &&& new_family == old.family_after(family)
    }
}

/// Draws a byte string with a length of `[min_size, max_size]`.
pub fn generate_bytes<D: Distributions, O: DataObserver>(
    ntc: &mut NativeTestCase<D, O>,
    family: &mut FamilyCore,
    min_size: usize,
    max_size: usize,
) -> (r: Result<Vec<u8>, EngineError>)
    ensures
        bytes_drawn(*final(ntc), *old(ntc), *old(family), *final(family), min_size, max_size, r),
{
    if min_size > max_size {
        let mut what = String::from_str("generate_bytes requires min_size <= max_size, got [");
        append_usize(&mut what, min_size);
        what.append(", ");
        append_usize(&mut what, max_size);
        what.append("]");
        return Err(EngineError::InvalidArgument(what));
    }
    ntc.enter(family, DrawKind::Bytes);
    let r = ntc.draw_bytes(family, min_size, max_size);
    ntc.stop_span(false);
    r
}

/// What is said of what is no probability.
pub open spec fn no_probability(written: Seq<char>) -> Seq<char> {
    "generate_boolean(p = "@ + written + ") requires a probability in [0.0, 1.0]"@
}

/// Why no boolean can be drawn with a probability that is written as given.
pub open spec fn boolean_fault(
    p: Probability,
    written: Seq<char>,
    forced: Option<bool>,
) -> Option<Seq<char>> {
    if p.numerator > PROBABILITY_ONE {
        Some(no_probability(written))
    } else if forced == Some(true) && p.numerator == 0 {
        Some("generate_boolean: cannot force true when p = 0.0"@)
    } else if forced == Some(false) && p.numerator == PROBABILITY_ONE {
        Some("generate_boolean: cannot force false when p = 1.0"@)
    } else {
        None
    }
}

/// Whether a boolean was drawn, or the request failed.
pub open spec fn boolean_drawn<D: Distributions, O: DataObserver>(
    new: NativeTestCase<D, O>,
    old: NativeTestCase<D, O>,
    family: FamilyCore,
    new_family: FamilyCore,
    p: Probability,
    written: Seq<char>,
    forced: Option<bool>,
    r: Result<bool, EngineError>,
) -> bool {
    match boolean_fault(p, written, forced) {
        Some(what) => {
            &&& r matches Err(e) && complains(e, what)
            &&& new == old
            &&& new_family == family
        },
        None => decided(new, old, family, new_family, p, forced, r),
    }
}

/// Draws a boolean that is true with probability `p`, which is `written` in
/// what is said of it.
pub fn generate_boolean<D: Distributions, O: DataObserver>(
    ntc: &mut NativeTestCase<D, O>,
    family: &mut FamilyCore,
    p: Probability,
    written: &str,
    forced: Option<bool>,
) -> (r: Result<bool, EngineError>)
    ensures
        boolean_drawn(
            *final(ntc),
            *old(ntc),
            *old(family),
            *final(family),
            p,
            written@,
            forced,
            r,
        ),
{
    if p.numerator > PROBABILITY_ONE {
        let mut what = String::from_str("generate_boolean(p = ");
        what.append(written);
        what.append(") requires a probability in [0.0, 1.0]");
        return Err(EngineError::InvalidArgument(what));
    }
    if let Some(f) = forced {
        if f && p.numerator == 0 {
            return Err(
                EngineError::InvalidArgument(
                    String::from_str("generate_boolean: cannot force true when p = 0.0"),
                ),
            );
        }
        if !f && p.numerator == PROBABILITY_ONE {
            return Err(
                EngineError::InvalidArgument(
                    String::from_str("generate_boolean: cannot force false when p = 1.0"),
                ),
            );
        }
    }
    decide(ntc, family, p, forced)
}

/// Whether a boolean was drawn in a span of its own, or failed to.
pub open spec fn decided<D: Distributions, O: DataObserver>(
    ntc: NativeTestCase<D, O>,
    old: NativeTestCase<D, O>,
    family: FamilyCore,
    new_family: FamilyCore,
    p: Probability,
    forced: Option<bool>,
    r: Result<bool, EngineError>,
) -> bool {
    if !old.has_depth() {
        r matches Err(e) && ntc.too_deep(old, family, new_family, DrawKind::Boolean, e)
    } else {
        &&& ntc.wrapped(old, DrawKind::Boolean)
        &&& ntc.within_span(old).weighed(old, family, new_family, p, forced, true, r)
    }
}

/// Draws a boolean in a span of its own.
pub(crate) fn decide<D: Distributions, O: DataObserver>(
    ntc: &mut NativeTestCase<D, O>,
    family: &mut FamilyCore,
    p: Probability,
    forced: Option<bool>,
) -> (r: Result<bool, EngineError>)
    ensures
        decided(*final(ntc), *old(ntc), *old(family), *final(family), p, forced, r),
{
    ntc.enter(family, DrawKind::Boolean);
    let r = ntc.weighted_precise(family, p, forced);
    ntc.stop_span(false);
    r
}

/// Whether an integer was drawn in a span of its own, or failed to.
pub open spec fn uniformly<D: Distributions, O: DataObserver>(
    ntc: NativeTestCase<D, O>,
    old: NativeTestCase<D, O>,
    family: FamilyCore,
    new_family: FamilyCore,
    min_value: u64,
    max_value: u64,
    r: Result<u64, EngineError>,
) -> bool {
    if !old.has_depth() {
        r matches Err(e) && ntc.too_deep(old, family, new_family, DrawKind::Integer, e)
    } else {
        &&& ntc.wrapped(old, DrawKind::Integer)
        &&& r matches Ok(v) ==> min_value <= v <= max_value
        &&& ntc.within_span(old).drew_uniform(
            old,
            family,
            min_value as int,
            max_value as int,
            match r {
                Ok(v) => Ok(ValueView::Integer(v as int)),
                Err(e) => Err(e),
            },
        )
        &&& new_family == old.family_after(family)
    }
}

/// Draws an integer of `[min_value, max_value]` in a span of its own, each as
/// likely as any other.
pub(crate) fn uniform<D: Distributions, O: DataObserver>(
    ntc: &mut NativeTestCase<D, O>,
    family: &mut FamilyCore,
    min_value: u64,
    max_value: u64,
) -> (r: Result<u64, EngineError>)
    requires
        min_value <= max_value,
    ensures
        uniformly(
            *final(ntc),
            *old(ntc),
            *old(family),
            *final(family),
            min_value,
            max_value,
            r,
        ),
{
    ntc.enter(family, DrawKind::Integer);
    let r = ntc.draw_integer_uniform(family, min_value, max_value);
    ntc.stop_span(false);
    r
}

/// Whether a number of workers was drawn, as how many fewer than the most there can
/// be, or the request failed. Nothing is drawn where there is only one such number.
pub open spec fn concurrency_drawn<D: Distributions, O: DataObserver>(
    new: NativeTestCase<D, O>,
    old: NativeTestCase<D, O>,
    family: FamilyCore,
    new_family: FamilyCore,
    min: i64,
    max: i64,
    r: Result<i64, EngineError>,
) -> bool {
    if min == max {
        &&& r == Ok::<i64, EngineError>(max)
        &&& new == old
        &&& new_family == family
    } else if !old.has_depth() {
        r matches Err(e) && new.too_deep(old, family, new_family, DrawKind::Concurrency, e)
    } else {
        &&& new.wrapped(old, DrawKind::Concurrency)
        &&& r matches Ok(level) ==> min <= level <= max
        &&& new.within_span(old).drew_integer(
            old,
            family,
            0,
            max - min,
            match r {
                Ok(level) => Ok(ValueView::Integer(max - level)),
                Err(e) => Err(e),
            },
        )
        &&& new_family == old.family_after(family)
    }
}

/// Draws a number of workers of `[min, max]`. It is simplest, and most often, the
/// largest.
pub fn draw_concurrency<D: Distributions, O: DataObserver>(
    ntc: &mut NativeTestCase<D, O>,
    family: &mut FamilyCore,
    min: i64,
    max: i64,
) -> (r: Result<i64, EngineError>)
    requires
        min <= max,
    ensures
        concurrency_drawn(*final(ntc), *old(ntc), *old(family), *final(family), min, max, r),
{
    if min == max {
        return Ok(max);
    }
    let most = BigInt::from_i128(max as i128 - min as i128);
    ntc.enter(family, DrawKind::Concurrency);
    let ghost entered = (*ntc, *family);
    let drawn = ntc.draw_integer(family, BigInt::zero(), most);
    proof {
        if drawn is Ok {
            lemma_draws_fit(
                *ntc,
                entered.0,
                entered.1,
                integer_range(0, max - min),
                ValueView::Integer(drawn->Ok_0@),
            );
        }
    }
    ntc.stop_span(false);
    match drawn {
        Ok(n) => match n.to_i128() {
            Some(fewer) => Ok((max as i128 - fewer) as i64),
            None => Ok(max),
        },
        Err(e) => Err(e),
    }
}

/// Whether a floating-point value was drawn, or the request failed.
pub open spec fn float_drawn<D: Distributions, O: DataObserver>(
    new: NativeTestCase<D, O>,
    old: NativeTestCase<D, O>,
    family: FamilyCore,
    new_family: FamilyCore,
    width: FloatWidth,
    kind: FloatChoice,
    r: Result<FloatValue, EngineError>,
) -> bool {
    if !old.has_depth() {
        r matches Err(e) && new.too_deep(old, family, new_family, DrawKind::Float, e)
    } else {
        &&& new.wrapped(old, DrawKind::Float)
        &&& new.within_span(old).drew_float(old, family, width, kind, float_answer(r))
        &&& new_family == old.family_after(family)
    }
}

/// Draws a floating-point value of a kind, with a view to a format.
pub fn draw_float_of_kind<D: Distributions, O: DataObserver>(
    ntc: &mut NativeTestCase<D, O>,
    family: &mut FamilyCore,
    width: FloatWidth,
    kind: FloatChoice,
) -> (r: Result<FloatValue, EngineError>)
    requires
        float_kind_ok(kind),
    ensures
        float_drawn(*final(ntc), *old(ntc), *old(family), *final(family), width, kind, r),
{
    ntc.enter(family, DrawKind::Float);
    let r = ntc.draw_float(family, width, kind);
    ntc.stop_span(false);
    r
}

/// What strings are to be drawn.
pub enum StringSpec {
    /// Strings over an alphabet.
    Text { intervals: IntervalSet, min_size: usize, max_size: usize },
    /// Strings that match a pattern.
    Regex { pattern: String, fullmatch: bool, alphabet: Option<IntervalSet> },
    /// Email addresses.
    Email,
    /// URLs.
    Url,
    /// Domain names up to a length.
    Domain { max_length: usize },
}

/// The shortest bound on the length of a domain name.
pub const MIN_DOMAIN_LENGTH: usize = 4;

/// The longest bound on the length of a domain name.
pub const MAX_DOMAIN_LENGTH: usize = 255;

/// What is said of an inverted pair of sizes.
pub open spec fn inverted_text_sizes(min: usize, max: usize) -> Seq<char> {
    "text requires min_size <= max_size, got ["@ + decimal(min as nat) + ", "@ + decimal(
        max as nat,
    ) + "]"@
}

/// What is said of an alphabet without characters.
pub open spec fn no_characters() -> Seq<char> {
    "InvalidArgument: No valid characters in the specified range. The alphabet's codec/codepoint/category/include/exclude constraints leave no characters available."@
}

/// Why there are no strings of the given sizes.
pub open spec fn text_fault(
    alphabet: Seq<(u32, u32)>,
    min_size: usize,
    max_size: usize,
) -> Option<Seq<char>> {
    if min_size > max_size {
        Some(inverted_text_sizes(min_size, max_size))
    } else if ranges_size(alphabet) == 0 && max_size > 0 {
        Some(no_characters())
    } else {
        None
    }
}

/// Whether texts are specified over an alphabet, or cannot be.
pub open spec fn text_specified(
    alphabet: Result<IntervalSet, EngineError>,
    min_size: usize,
    max_size: usize,
    r: Result<StringSpec, EngineError>,
) -> bool {
    match alphabet {
        Ok(intervals) => match text_fault(intervals@, min_size, max_size) {
            Some(what) => r matches Err(e) && complains(e, what),
            None => {
                &&& r matches Ok(StringSpec::Text { intervals: i, min_size: a, max_size: b })
                    && i@ == intervals@ && a == min_size && b == max_size
                &&& r->Ok_0.wf()
            },
        },
        Err(e) => if min_size > max_size {
            r matches Err(f) && complains(f, inverted_text_sizes(min_size, max_size))
        } else {
            r matches Err(f) && f == e
        },
    }
}

/// Whether strings that match a pattern are specified, or cannot be: the alphabet
/// has to be that of a text, and the pattern has to compile.
pub open spec fn regex_specified(
    pattern: Seq<char>,
    fullmatch: bool,
    alphabet: Option<&StringSpec>,
    compiled: Result<(), EngineError>,
    r: Result<StringSpec, EngineError>,
) -> bool {
    if alphabet matches Some(spec) && !(spec is Text) {
        r matches Err(e) && complains(e, "regex alphabet must be a text string generator"@)
    } else {
        match compiled {
            Ok(_) => {
                &&& r matches Ok(StringSpec::Regex { pattern: p, fullmatch: f, alphabet: a })
                &&& p@ == pattern
                &&& f == fullmatch
                &&& match (alphabet, a) {
                    (Some(spec), Some(a)) => a@ == spec->intervals@ && a.wf(),
                    (None, None) => true,
                    _ => false,
                }
            },
            Err(e) => r == Err::<StringSpec, EngineError>(e),
        }
    }
}

/// What the draw of a string is labelled as.
pub open spec fn string_kind(spec: StringSpec) -> DrawKind {
    match spec {
        StringSpec::Text { .. } => DrawKind::Text,
        StringSpec::Regex { .. } => DrawKind::Regex,
        StringSpec::Email => DrawKind::Email,
        StringSpec::Url => DrawKind::Url,
        StringSpec::Domain { .. } => DrawKind::Domain,
    }
}

impl StringSpec {
    /// Whether strings can be drawn as specified.
    pub open spec fn wf(&self) -> bool {
        match self {
            StringSpec::Text { intervals, min_size, max_size } => intervals.wf() && text_fault(
                intervals@,
                *min_size,
                *max_size,
            ) is None,
            StringSpec::Domain { max_length } => MIN_DOMAIN_LENGTH <= *max_length
                <= MAX_DOMAIN_LENGTH,
            _ => true,
        }
    }

    /// Strings with a length of `[min_size, max_size]` over an alphabet, where
    /// it could be made out.
    pub fn text(
        alphabet: Result<IntervalSet, EngineError>,
        min_size: usize,
        max_size: usize,
    ) -> (r: Result<StringSpec, EngineError>)
        ensures
            text_specified(alphabet, min_size, max_size, r),
    {
        if min_size > max_size {
            let mut what = String::from_str("text requires min_size <= max_size, got [");
            append_usize(&mut what, min_size);
            what.append(", ");
            append_usize(&mut what, max_size);
            what.append("]");
            return Err(EngineError::InvalidArgument(what));
        }
        let intervals = match alphabet {
            Ok(intervals) => intervals.clone(),
            Err(e) => {
                return Err(e);
            },
        };
        if intervals.is_empty() && max_size > 0 {
            return Err(
                EngineError::InvalidArgument(
                    String::from_str(
                        "InvalidArgument: No valid characters in the specified range. The alphabet's codec/codepoint/category/include/exclude constraints leave no characters available.",
                    ),
                ),
            );
        }
        Ok(StringSpec::Text { intervals, min_size, max_size })
    }

    /// Strings that match a pattern. An alphabet, where one is given, must be
    /// that of a text. `compiled` says whether the pattern could be compiled for
    /// it.
    pub fn regex(
        pattern: &str,
        fullmatch: bool,
        alphabet: Option<&StringSpec>,
        compiled: Result<(), EngineError>,
    ) -> (r: Result<StringSpec, EngineError>)
        ensures
            regex_specified(pattern@, fullmatch, alphabet, compiled, r),
    {
        let alphabet: Option<IntervalSet> = match alphabet {
            None => None,
            Some(StringSpec::Text { intervals, .. }) => Some(intervals.clone()),
            Some(_) => {
                return Err(
                    EngineError::InvalidArgument(
                        String::from_str("regex alphabet must be a text string generator"),
                    ),
                );
            },
        };
        match compiled {
            Ok(_) => Ok(
                StringSpec::Regex { pattern: String::from_str(pattern), fullmatch, alphabet },
            ),
            Err(e) => Err(e),
        }
    }

    /// Email addresses.
    pub fn email() -> (r: StringSpec)
        ensures
            r == StringSpec::Email,
    {
        StringSpec::Email
    }

    /// URLs.
    pub fn url() -> (r: StringSpec)
        ensures
            r == StringSpec::Url,
    {
        StringSpec::Url
    }

    /// Domain names with a total length of at most `max_length`.
    pub fn domain(max_length: usize) -> (r: Result<StringSpec, EngineError>)
        ensures
            MIN_DOMAIN_LENGTH <= max_length <= MAX_DOMAIN_LENGTH ==> r == Ok::<
                StringSpec,
                EngineError,
            >(StringSpec::Domain { max_length }),
            !(MIN_DOMAIN_LENGTH <= max_length <= MAX_DOMAIN_LENGTH) ==> (r matches Err(e)
                && complains(e, domain_length_outside(max_length))),
    {
        if max_length < MIN_DOMAIN_LENGTH || max_length > MAX_DOMAIN_LENGTH {
            let mut what = String::from_str("domain requires a max_length in 4..=255, got ");
            append_usize(&mut what, max_length);
            return Err(EngineError::InvalidArgument(what));
        }
        Ok(StringSpec::Domain { max_length })
    }
}

/// What is said of a bound on the length of a domain name.
pub open spec fn domain_length_outside(max_length: usize) -> Seq<char> {
    "domain requires a max_length in 4..=255, got "@ + decimal(max_length as nat)
}

/// Whether a text over an alphabet was drawn, or the request failed.
pub open spec fn text_drawn<D: Distributions, O: DataObserver>(
    new: NativeTestCase<D, O>,
    old: NativeTestCase<D, O>,
    family: FamilyCore,
    new_family: FamilyCore,
    kind: StringKind,
    r: Result<String, EngineError>,
) -> bool {
    if !old.has_depth() {
        r matches Err(e) && new.too_deep(old, family, new_family, DrawKind::Text, e)
    } else {
        &&& new.wrapped(old, DrawKind::Text)
        &&& new_family == old.family_after(family)
        &&& match r {
            Ok(text) => {
                let v = new.choices().last().value;
                &&& v matches ValueView::String(cps) && text@ == text_of(cps)
                &&& new.within_span(old).drew_string(old, family, kind, Ok(v))
            },
            Err(e) => new.within_span(old).drew_string(old, family, kind, Err(e)),
        }
    }
}

/// Opens the span of a string that is no text, in which the generator of such
/// strings draws. The answer is whether there is one to draw in it.
pub fn start_string<D: Distributions, O: DataObserver>(
    ntc: &mut NativeTestCase<D, O>,
    family: &mut FamilyCore,
    spec: &StringSpec,
) -> (r: bool)
    ensures
        r == !(spec is Text),
        if spec is Text {
            *final(ntc) == *old(ntc) && *final(family) == *old(family)
        } else {
            final(ntc).span_started(
                *old(ntc),
                *old(family),
                *final(family),
                fnv1a(draw_name(string_kind(*spec))),
            )
        },
{
    let kind = match spec {
        StringSpec::Text { .. } => {
            return false;
        },
        StringSpec::Regex { .. } => DrawKind::Regex,
        StringSpec::Email => DrawKind::Email,
        StringSpec::Url => DrawKind::Url,
        StringSpec::Domain { .. } => DrawKind::Domain,
    };
    ntc.start_span(family, draw_label(kind));
    true
}

/// Draws a string. A text is drawn here. Any other string was `drawn` by its
/// generator in the span that [`start_string`] opened, which ends with it,
/// whether or not there is one.
pub fn generate_string<D: Distributions, O: DataObserver>(
    ntc: &mut NativeTestCase<D, O>,
    family: &mut FamilyCore,
    spec: &mut StringSpec,
    drawn: Result<String, EngineError>,
) -> (r: Result<String, EngineError>)
    requires
        old(spec).wf(),
    ensures
        final(spec).wf(),
        match *old(spec) {
            StringSpec::Text { intervals, min_size, max_size } => {
                &&& text_drawn(
                    *final(ntc),
                    *old(ntc),
                    *old(family),
                    *final(family),
                    StringKind { alphabet: intervals@, min_size, max_size },
                    r,
                )
                &&& *final(spec) matches StringSpec::Text {
                    intervals: i,
                    min_size: a,
                    max_size: b,
                } && i@ == intervals@ && a == min_size && b == max_size
            },
            _ => {
                &&& r == drawn
                &&& *final(ntc) == (NativeTestCase {
                    structure: final(ntc).structure,
                    ..*old(ntc)
                })
                &&& final(ntc).structure@ == closed_at(
                    old(ntc).structure@,
                    old(ntc).nodes@.len() as usize,
                    false,
                )
                &&& *final(family) == *old(family)
                &&& *final(spec) == *old(spec)
            },
        },
{
    match spec {
        StringSpec::Text { intervals, min_size, max_size } => {
            ntc.enter(family, DrawKind::Text);
            let r = ntc.draw_string(family, intervals, *min_size, *max_size);
            ntc.stop_span(false);
            r
        },
        _ => {
            ntc.stop_span(false);
            drawn
        },
    }
}

} // verus!
