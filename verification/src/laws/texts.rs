//! Texts, uniform numbers and weighted indices: what is replayed and what chance
//! decides.
use super::entropy;
use super::has_room_for;
use super::is_random;
use super::is_simplest;
use super::lemma_one_choice_more;
use super::recorded_one;
use super::replays;
use crate::choices::IntegerKind;
use crate::choices::KindView;
use crate::choices::NodeView;
use crate::choices::StringKind;
use crate::choices::ValueView;
use crate::drawing::drew_ticket;
use crate::drawing::positive_below;
use crate::draws::generate_string;
use crate::draws::StringSpec;
use crate::errors::EngineError;
use crate::family::FamilyCore;
use crate::intervalsets::ranges_contain;
use crate::intervalsets::IntervalSet;
use crate::sampling::Distributions;
use crate::sequence_sampling::weight_below;
use crate::test_case::DataObserver;
use crate::test_case::NativeTestCase;
use crate::text::codepoints_to_string;
use crate::text::is_scalar;
use crate::text::lemma_text_keeps_scalars;
use vstd::prelude::*;

verus! {

/// Whether every codepoint of a text lies in one of some ranges.
pub open spec fn lies_within(ranges: Seq<(u32, u32)>, text: Seq<u32>) -> bool {
    forall|i: int| 0 <= i < text.len() ==> is_in_ranges(ranges, #[trigger] text[i])
}

/// Whether a codepoint lies in one of some ranges.
pub open spec fn is_in_ranges(ranges: Seq<(u32, u32)>, cp: u32) -> bool {
    exists|j: int| 0 <= j < ranges.len() && (#[trigger] ranges[j]).0 <= cp <= ranges[j].1
}

/// A text is what is replayed where its length is allowed and it is written in the
/// alphabet, character by character. A text that was drawn is recorded as its
/// codepoints, as many as are allowed and all of the alphabet.
pub proof fn lemma_texts_are_as_chosen<D: Distributions, O: DataObserver>(
    tc: NativeTestCase<D, O>,
    after: NativeTestCase<D, O>,
    family: FamilyCore,
    spec: StringSpec,
    drawn: Result<String, EngineError>,
    ranges: Seq<(u32, u32)>,
    min_size: usize,
    max_size: usize,
    v: Seq<u32>,
    r: Result<String, EngineError>,
)
    requires
        exists|m: &mut NativeTestCase<D, O>, f: &mut FamilyCore, s: &mut StringSpec| #[trigger]
            call_ensures(generate_string::<D, O>, (m, f, s, drawn), r) && *m == tc && *final(m)
                == after && *f == family && *s == spec,
        spec.wf(),
        spec matches StringSpec::Text { intervals, min_size: a, max_size: b } && intervals@ == ranges
            && a == min_size && b == max_size,
        has_room_for(tc, family, 1),
        forall|i: int| 0 <= i < v.len() ==> {
            ||| #[trigger] v[i] < 0xd800
            ||| 0xe000 <= v[i] < 0x11_0000
        },
    ensures
        replays(tc, 0, ValueView::String(v)) && min_size <= v.len() <= max_size && lies_within(
            ranges,
            v,
        ) ==> {
            &&& r is Ok
            &&& r->Ok_0@.len() == v.len()
            &&& forall|i: int| 0 <= i < v.len() ==> #[trigger] r->Ok_0@[i] == v[i] as char
        },
        r is Ok ==> {
            let node = after.nodes@[tc.nodes@.len() as int]@;
            &&& after.nodes@.len() == tc.nodes@.len() + 1
            &&& node.kind == KindView::String(
                StringKind { alphabet: ranges, min_size, max_size },
            )
            &&& node.value is String
            &&& !node.was_forced
            &&& is_random(tc) ==> min_size <= node.value->String_0.len() <= max_size && lies_within(
                ranges,
                node.value->String_0,
            )
        },
{
    if lies_within(ranges, v) {
        assert forall|i: int| 0 <= i < v.len() implies ranges_contain(ranges, #[trigger] v[i] as int)
            by {
            assert(is_in_ranges(ranges, v[i]));
        }
    }
    assert forall|i: int| 0 <= i < v.len() implies is_scalar(#[trigger] v[i]) by {}
    lemma_text_keeps_scalars(v);
    if r is Ok {
        lemma_one_choice_more(tc, after);
        let cps = after.nodes@[tc.nodes@.len() as int]@.value->String_0;
        if is_random(tc) {
            assert forall|i: int| 0 <= i < cps.len() implies is_in_ranges(ranges, #[trigger] cps[i])
                by {
                assert(ranges_contain(ranges, cps[i] as int));
            }
        }
    }
}

/// What is no text is handed on as its generator drew it.
pub proof fn lemma_other_strings_are_handed_on<D: Distributions, O: DataObserver>(
    tc: NativeTestCase<D, O>,
    after: NativeTestCase<D, O>,
    spec: StringSpec,
    drawn: Result<String, EngineError>,
    r: Result<String, EngineError>,
)
    requires
        exists|m: &mut NativeTestCase<D, O>, f: &mut FamilyCore, s: &mut StringSpec| #[trigger]
            call_ensures(generate_string::<D, O>, (m, f, s, drawn), r) && *m == tc && *final(m)
                == after && *s == spec,
        spec.wf(),
        !(spec is Text),
    ensures
        r == drawn,
        after.nodes@ == tc.nodes@,
{
}

/// Which strings are texts, and within which bounds, is checked when they are
/// specified: the lengths are the right way round, and there are characters to write
/// them in. The bound on a domain name lies between four and two hundred and fifty-five.
pub proof fn lemma_string_bounds_are_checked(
    alphabet: IntervalSet,
    min_size: usize,
    max_size: usize,
    size: usize,
    r: Result<StringSpec, EngineError>,
    max_length: usize,
    s: Result<StringSpec, EngineError>,
)
    requires
        call_ensures(StringSpec::text, (Ok(alphabet), min_size, max_size), r),
        call_ensures(IntervalSet::len, (&alphabet,), size),
        call_ensures(StringSpec::domain, (max_length,), s),
    ensures
        r is Ok <==> min_size <= max_size && (size > 0 || max_size == 0),
        r is Ok ==> (r->Ok_0 matches StringSpec::Text { intervals, min_size: a, max_size: b }
            && intervals@ == alphabet@ && a == min_size && b == max_size),
        s is Ok <==> 4 <= max_length <= 255,
        s is Ok ==> s->Ok_0 == (StringSpec::Domain { max_length }),
{
}

/// A text has a character for each codepoint that is one, in their order.
pub proof fn lemma_codepoints_are_characters(cps: &Vec<u32>, r: String)
    requires
        call_ensures(codepoints_to_string, (cps,), r),
        forall|i: int| 0 <= i < cps@.len() ==> {
            ||| #[trigger] cps@[i] < 0xd800
            ||| 0xe000 <= cps@[i] < 0x11_0000
        },
    ensures
        r@.len() == cps@.len(),
        forall|i: int| 0 <= i < cps@.len() ==> #[trigger] r@[i] == cps@[i] as char,
{
    assert forall|i: int| 0 <= i < cps@.len() implies is_scalar(#[trigger] cps@[i]) by {}
    lemma_text_keeps_scalars(cps@);
}

/// A number that is drawn uniformly is what is replayed where it lies in the range, and
/// at random the one that is handed out.
pub proof fn lemma_uniform_numbers_are_as_chosen<D: Distributions, O: DataObserver>(
    tc: NativeTestCase<D, O>,
    after: NativeTestCase<D, O>,
    family: FamilyCore,
    min: u64,
    max: u64,
    v: u64,
    r: Result<u64, EngineError>,
)
    requires
        exists|m: &mut NativeTestCase<D, O>, f: &mut FamilyCore| #[trigger]
            call_ensures(NativeTestCase::<D, O>::draw_integer_uniform, (m, f, min, max), r) && *m
                == tc && *final(m) == after && *f == family,
        has_room_for(tc, family, 1),
    ensures
        min > max ==> r is Err && after == tc,
        min <= v <= max && replays(tc, 0, ValueView::Integer(v as int)) ==> r == Ok::<
            u64,
            EngineError,
        >(v),
        min <= max && is_simplest(tc) ==> r == Ok::<u64, EngineError>(min),
        min <= max && is_random(tc) ==> r is Ok && entropy(after) == entropy(tc).push(
            r->Ok_0 as int,
        ),
        r matches Ok(n) ==> min <= n <= max && recorded_one(
            tc,
            after,
            NodeView {
                kind: KindView::Integer(
                    IntegerKind { min: min as int, max: max as int, towards: 0 },
                ),
                value: ValueView::Integer(n as int),
                was_forced: false,
            },
        ),
{
    if r is Ok {
        lemma_one_choice_more(tc, after);
    }
}

/// An index is what is replayed where it is one, if more than one has a weight. At random
/// it is the one that the ticket handed out falls to, so that one without a weight never
/// comes. Without weights there is no index.
pub proof fn lemma_weighted_indices_are_as_chosen<D: Distributions, O: DataObserver>(
    tc: NativeTestCase<D, O>,
    after: NativeTestCase<D, O>,
    family: FamilyCore,
    weights: &Vec<u32>,
    i: int,
    j: int,
    v: usize,
    r: Result<usize, EngineError>,
)
    requires
        exists|m: &mut NativeTestCase<D, O>, f: &mut FamilyCore| #[trigger]
            call_ensures(NativeTestCase::<D, O>::draw_index_weighted, (m, f, weights), r) && *m
                == tc && *final(m) == after && *f == family,
        has_room_for(tc, family, 1),
        0 <= i < j < weights@.len(),
        weights@[i] > 0,
        weights@[j] > 0,
        weight_below(weights@, weights@.len() as int) <= u64::MAX,
    ensures
        v < weights@.len() && replays(tc, 0, ValueView::Integer(v as int)) ==> r == Ok::<
            usize,
            EngineError,
        >(v),
        is_simplest(tc) ==> r == Ok::<usize, EngineError>(0),
        is_random(tc) ==> {
            &&& r is Ok
            &&& r->Ok_0 < weights@.len()
            &&& weights@[r->Ok_0 as int] > 0
            &&& exists|ticket: int|
                {
                    &&& entropy(after) == #[trigger] entropy(tc).push(ticket)
                    &&& weight_below(weights@, r->Ok_0 as int) <= ticket < weight_below(
                        weights@,
                        r->Ok_0 + 1,
                    )
                }
        },
{
    lemma_two_are_positive(weights@, i, j, weights@.len() as int);
    if is_random(tc) {
        let before = tc.source->Some_0.rng.handed();
        let handed = after.source->Some_0.rng.handed();
        assert(drew_ticket(before, handed, weights@, r->Ok_0 as int));
        let ticket = choose|ticket: int|
            handed == #[trigger] before.push(ticket) && weight_below(weights@, r->Ok_0 as int)
                <= ticket < weight_below(weights@, r->Ok_0 + 1);
        assert(entropy(after) == entropy(tc).push(ticket));
    }
}

/// Two positive weights are counted.
proof fn lemma_two_are_positive(weights: Seq<u32>, i: int, j: int, n: int)
    requires
        0 <= i < j < weights.len(),
        weights[i] > 0,
        weights[j] > 0,
        0 <= n <= weights.len(),
    ensures
        positive_below(weights, n) >= if n > j {
            2int
        } else if n > i {
            1
        } else {
            0
        },
    decreases n,
{
    if n > 0 {
        lemma_two_are_positive(weights, i, j, n - 1);
    }
}

/// Strings that match a pattern are specified by it, over the alphabet of a text if one is
/// given. What is no text has no alphabet to give, and a pattern that could not be compiled
/// is refused for that reason.
pub proof fn lemma_patterns_are_taken_as_said(
    pattern: &str,
    fullmatch: bool,
    alphabet: Option<&StringSpec>,
    compiled: Result<(), EngineError>,
    r: Result<StringSpec, EngineError>,
)
    requires
        call_ensures(StringSpec::regex, (pattern, fullmatch, alphabet, compiled), r),
    ensures
        r is Ok <==> compiled is Ok && (alphabet is Some ==> *alphabet->Some_0 is Text),
        r is Ok ==> {
            &&& r->Ok_0 is Regex
            &&& r->Ok_0->pattern@ == pattern@
            &&& r->Ok_0->fullmatch == fullmatch
            &&& r->Ok_0->alphabet is Some <==> alphabet is Some
            &&& alphabet matches Some(StringSpec::Text { intervals, .. })
                ==> r->Ok_0->alphabet->Some_0@ == intervals@
        },
        alphabet is None && compiled is Err ==> r == Err::<StringSpec, EngineError>(
            compiled->Err_0,
        ),
        alphabet is Some && !(*alphabet->Some_0 is Text) ==> r is Err && r->Err_0
            is InvalidArgument,
{
}

} // verus!
