//! Alphabets and members: what belongs to them, and what is drawn of them.
use super::entropy;
use super::has_room_for;
use super::is_random;
use super::texts::is_in_ranges;
use super::texts::lies_within;
use crate::abi::strings::TextAlphabet;
use crate::alphabets::characters;
use crate::alphabets::CategorySets;
use crate::choices::FloatChoice;
use crate::choices::FloatValue;
use crate::choices::StringChoice;
use crate::drawing::members_of;
use crate::drawing::picked_member;
use crate::draws::choose_from;
use crate::errors::EngineError;
use crate::errors::InternalError;
use crate::family::FamilyCore;
use crate::intervalsets::constants_in_alphabet;
use crate::intervalsets::ranges_contain;
use crate::intervalsets::written_in;
use crate::intervalsets::IntervalSet;
use crate::sampling::Distributions;
use crate::sampling::Sampler;
use crate::sequence_sampling::lemma_string_candidates_fit;
use crate::sequence_sampling::small_candidates;
use crate::sequence_sampling::string_candidates_of;
use crate::sequence_sampling::text_fits;
use crate::test_case::DataObserver;
use crate::test_case::NativeTestCase;
use crate::text_constants::codepoints;
use crate::text_constants::constant_texts;
use crate::text_constants::texts_codepoints;
use crate::text_constants::texts_view;
use crate::variables::is_rising;
use crate::variables::lemma_some_used_is_largest;
use crate::variables::max_used_of;
use vstd::prelude::*;

verus! {

/// Whether a text has a character.
pub open spec fn has_character(text: Option<String>, c: char) -> bool {
    text is Some && text->Some_0@.contains(c)
}

/// An alphabet without a codec, or with that of Unicode, has the characters between its
/// bounds that are of its categories, if it has any, and of none that it excludes, and
/// those that are added to it, but none of those that are taken away, and no surrogates.
/// ASCII ends at seven bits, and Latin-1 at eight. Another codec is refused.
pub proof fn lemma_alphabets_have_what_belongs(
    a: &TextAlphabet,
    sets: CategorySets,
    r: Result<IntervalSet, EngineError>,
    cp: u32,
)
    requires
        call_ensures(characters, (a, Ok(sets)), r),
    ensures
        ({
            let ascii = a.codec is Some && a.codec->Some_0@ == "ascii"@;
            let latin = a.codec is Some && (a.codec->Some_0@ == "latin-1"@ || a.codec->Some_0@
                == "iso-8859-1"@);
            let unicode = a.codec is None || a.codec->Some_0@ == "utf-8"@;
            &&& r is Ok <==> ascii || latin || unicode
            &&& r is Ok ==> {
                let member = is_in_ranges(r->Ok_0@, cp);
                let between = a.min_codepoint <= cp <= a.max_codepoint && (ascii && !unicode ==> cp
                    <= 0x7f) && (latin && !unicode && !ascii ==> cp <= 0xff);
                let admitted = between && (a.categories is Some ==> is_in_ranges(
                    sets.included@,
                    cp,
                )) && !is_in_ranges(sets.excluded@, cp);
                let is_character = cp < 0xd800 || 0xe000 <= cp < 0x11_0000;
                &&& member ==> is_character
                &&& is_character && admitted && a.exclude_characters is None ==> member
                &&& member && a.include_characters is None ==> admitted
            }
        }),
{
    if r is Ok {
        assert(is_in_ranges(r->Ok_0@, cp) == ranges_contain(r->Ok_0@, cp as int)) by {
            if ranges_contain(r->Ok_0@, cp as int) {
                let i = choose|i: int|
                    0 <= i < r->Ok_0@.len() && (#[trigger] r->Ok_0@[i]).0 <= cp as int
                        <= r->Ok_0@[i].1;
                assert(r->Ok_0@[i].0 <= cp <= r->Ok_0@[i].1);
            }
        }
        assert(is_in_ranges(sets.included@, cp) == ranges_contain(sets.included@, cp as int)) by {
            if ranges_contain(sets.included@, cp as int) {
                let i = choose|i: int|
                    0 <= i < sets.included@.len() && (#[trigger] sets.included@[i]).0 <= cp as int
                        <= sets.included@[i].1;
                assert(sets.included@[i].0 <= cp <= sets.included@[i].1);
            }
        }
        assert(is_in_ranges(sets.excluded@, cp) == ranges_contain(sets.excluded@, cp as int)) by {
            if ranges_contain(sets.excluded@, cp as int) {
                let i = choose|i: int|
                    0 <= i < sets.excluded@.len() && (#[trigger] sets.excluded@[i]).0 <= cp as int
                        <= sets.excluded@[i].1;
                assert(sets.excluded@[i].0 <= cp <= sets.excluded@[i].1);
            }
        }
    }
    reveal_strlit("ascii");
    reveal_strlit("utf-8");
    reveal_strlit("latin-1");
    reveal_strlit("iso-8859-1");
}

/// Characters with the same codepoint are the same.
proof fn lemma_characters_differ(a: char, b: char)
    requires
        a as u32 == b as u32,
    ensures
        a == b,
{
}

/// A character that is added to an alphabet belongs to it, whatever its bounds and
/// categories, unless it is taken away. One that is taken away does not.
pub proof fn lemma_characters_are_added_and_taken_away(
    a: &TextAlphabet,
    sets: CategorySets,
    r: Result<IntervalSet, EngineError>,
    c: char,
)
    requires
        call_ensures(characters, (a, Ok(sets)), r),
        r is Ok,
    ensures
        has_character(a.include_characters, c) && !has_character(a.exclude_characters, c)
            ==> is_in_ranges(r->Ok_0@, c as u32),
        has_character(a.exclude_characters, c) ==> !is_in_ranges(r->Ok_0@, c as u32),
{
    let cp = c as u32;
    if has_character(a.include_characters, c) {
        let t = a.include_characters->Some_0@;
        let i = choose|i: int| 0 <= i < t.len() && t[i] == c;
        assert(codepoints(t)[i] == cp);
        assert(codepoints(t).contains(cp));
    }
    if has_character(a.exclude_characters, c) {
        let t = a.exclude_characters->Some_0@;
        let i = choose|i: int| 0 <= i < t.len() && t[i] == c;
        assert(codepoints(t)[i] == cp);
        assert(codepoints(t).contains(cp));
    } else if a.exclude_characters is Some {
        let t = a.exclude_characters->Some_0@;
        assert(!codepoints(t).contains(cp)) by {
            if codepoints(t).contains(cp) {
                let i = choose|i: int| 0 <= i < codepoints(t).len() && codepoints(t)[i] == cp;
                lemma_characters_differ(t[i], c);
                assert(t.contains(t[i]));
            }
        }
    }
    let ranges = r->Ok_0@;
    if ranges_contain(ranges, cp as int) {
        let i = choose|i: int|
            0 <= i < ranges.len() && (#[trigger] ranges[i]).0 <= cp as int <= ranges[i].1;
        assert(ranges[i].0 <= cp <= ranges[i].1);
    }
}

/// The place of a floating-point value among all of them, with the negative zero before
/// the positive one.
pub open spec fn float_step(bits: u64) -> int {
    if bits >= 0x8000_0000_0000_0000 {
        0x8000_0000_0000_0000 - bits - 1
    } else {
        bits as int
    }
}

/// A floating-point value fits its kind where it lies between the bounds and is zero or
/// no smaller than the kind allows. What is infinite or no number has to be allowed.
pub proof fn lemma_floats_that_fit(k: &FloatChoice, v: &FloatValue, r: bool)
    requires
        call_ensures(FloatChoice::validate, (k, v), r),
    ensures
        ({
            let m = v.bits as int % 0x8000_0000_0000_0000;
            let smallest = k.smallest_magnitude_bits as int % 0x8000_0000_0000_0000;
            &&& m > 0x7ff0_0000_0000_0000 ==> (r <==> k.allow_nan)
            &&& m <= 0x7ff0_0000_0000_0000 ==> (r <==> (m == 0x7ff0_0000_0000_0000
                ==> k.allow_infinity) && float_step(k.min_bits) <= float_step(v.bits)
                <= float_step(k.max_bits) && (m == 0 || m >= smallest))
        }),
{
}

/// At random, a member is the one whose place among all of them, in rising order, is
/// handed out, so that each is as likely as any other.
pub proof fn lemma_members_are_drawn_by_their_place<D: Distributions, O: DataObserver>(
    tc: NativeTestCase<D, O>,
    after: NativeTestCase<D, O>,
    family: FamilyCore,
    members: &[i64],
    r: Result<i64, EngineError>,
)
    requires
        exists|m: &mut NativeTestCase<D, O>, f: &mut FamilyCore| #[trigger]
            call_ensures(choose_from::<D, O>, (m, f, members), r) && *m == tc && *final(m) == after
                && *f == family,
        has_room_for(tc, family, 1),
        is_random(tc),
        members@.len() > 0,
        forall|i: int| 0 <= i < members@.len() ==> family.fresh_ids@.contains(
            #[trigger] members@[i],
        ) && 0 <= members@[i],
    ensures
        r is Ok,
        exists|list: Seq<i64>, place: int|
            {
                &&& 0 <= place < list.len()
                &&& #[trigger] list[place] == r->Ok_0
                &&& entropy(after) == entropy(tc).push(place)
                &&& forall|i: int, j: int| 0 <= i < j < list.len() ==> list[i] < list[j]
                &&& forall|id: i64| #[trigger] list.contains(id) <==> members@.contains(id)
            },
{
    let used = family.fresh_ids@;
    let set = members_of(members@);
    lemma_some_used_is_largest(used, i64::MAX);
    assert(set.contains(members@[0]));
    assert forall|id: i64| set.contains(id) implies 0 <= id && id <= max_used_of(used) by {
        let i = choose|i: int| 0 <= i < members@.len() && members@[i] == id;
        assert(used.contains(members@[i]));
    }
    let before = tc.source->Some_0.rng.handed();
    let handed = after.source->Some_0.rng.handed();
    assert(picked_member(before, handed, set, r->Ok_0));
    let (list, place) = choose|list: Seq<i64>, place: int|
        #![trigger is_rising(list, set), before.push(place)]
        is_rising(list, set) && 0 <= place < list.len() && list[place] == r->Ok_0 && handed
            == before.push(place);
    assert(list[place] == r->Ok_0);
    assert forall|id: i64| #[trigger] list.contains(id) <==> members@.contains(id) by {
        assert(list.to_set().contains(id) <==> list.contains(id));
        assert(members@.to_set().contains(id) <==> members@.contains(id));
    }
}

/// A constant text counts for an alphabet exactly where each of its codepoints lies in one
/// of the ranges of the alphabet, and finding that out leaves the ranges as they are.
pub proof fn lemma_constant_texts_are_told_by_their_codepoints(
    before: IntervalSet,
    after: IntervalSet,
    r: &Vec<bool>,
    i: int,
)
    requires
        exists|s: &mut IntervalSet| #[trigger]
            call_ensures(constants_in_alphabet, (s,), r) && *s == before && *final(s) == after,
        before.wf(),
        0 <= i < constant_texts().len(),
    ensures
        after@ == before@,
        r@.len() == constant_texts().len(),
        r@[i] <==> lies_within(before@, codepoints(constant_texts()[i])),
{
    let texts = texts_codepoints(constant_texts());
    let text = texts[i];
    assert(text == codepoints(constant_texts()[i]));
    assert(r@[i] == written_in(before@, text));
    lemma_written_as_within(before@, text);
}

/// A text is written in an alphabet where each codepoint lies in one of its ranges.
proof fn lemma_written_as_within(ranges: Seq<(u32, u32)>, text: Seq<u32>)
    ensures
        written_in(ranges, text) <==> lies_within(ranges, text),
{
    if written_in(ranges, text) {
        assert forall|i: int| 0 <= i < text.len() implies is_in_ranges(
            ranges,
            #[trigger] text[i],
        ) by {
            assert(ranges_contain(ranges, text[i] as int));
        }
    }
    if lies_within(ranges, text) {
        assert forall|i: int| 0 <= i < text.len() implies ranges_contain(
            ranges,
            #[trigger] text[i] as int,
        ) by {
            assert(is_in_ranges(ranges, text[i]));
        }
    }
}

/// A string that is favoured has an allowed length and is written in the alphabet. A
/// constant text of which that holds is favoured, and so is a string of none, one or two
/// codepoints, and one as short as is allowed, as far as these lengths are allowed.
pub proof fn lemma_favoured_strings_fit<D: Distributions>(
    sampler: &Sampler<D>,
    before: StringChoice,
    after: StringChoice,
    r: Result<Vec<Vec<u32>>, InternalError>,
    text: Seq<u32>,
    length: nat,
)
    requires
        exists|c: &mut StringChoice| #[trigger]
            call_ensures(Sampler::<D>::string_candidates, (sampler, c), r) && *c == before
                && *final(c) == after,
        before.intervals.wf(),
        r is Ok,
        before.min_size <= before.max_size,
    ensures
        ({
            let fits = before.min_size <= text.len() <= before.max_size && lies_within(
                before.intervals@,
                text,
            );
            let favoured = exists|i: int|
                0 <= i < r->Ok_0@.len() && (#[trigger] r->Ok_0@[i])@ == text;
            &&& favoured ==> fits
            &&& fits && (exists|i: int|
                0 <= i < constant_texts().len() && text == codepoints(
                    #[trigger] constant_texts()[i],
                )) ==> favoured
        }),
        before.min_size <= length <= before.max_size && (length <= 2 || length == before.min_size) ==> exists|i: int|
            0 <= i < r->Ok_0@.len() && (#[trigger] r->Ok_0@[i])@.len() == length,
{
    let k = before@;
    let out = r->Ok_0@;
    let all = string_candidates_of(k);
    assert(texts_view(out) == all);
    assert(k.alphabet == before.intervals@);
    assert(k.min_size == before.min_size && k.max_size == before.max_size);
    assert forall|i: int| 0 <= i < out.len() implies (#[trigger] out[i])@ == all[i] by {
        assert(texts_view(out)[i] == out[i]@);
    }
    assert(all.len() == out.len());
    lemma_written_as_within(k.alphabet, text);
    if exists|i: int| 0 <= i < out.len() && (#[trigger] out[i])@ == text {
        let i = choose|i: int| 0 <= i < out.len() && (#[trigger] out[i])@ == text;
        lemma_string_candidates_fit(k, i);
    }
    let constants = texts_codepoints(constant_texts());
    let fit = |t: Seq<u32>| text_fits(k, t);
    let kept = constants.filter(fit);
    let small = small_candidates(k);
    if text_fits(k, text) && exists|i: int|
        0 <= i < constant_texts().len() && text == codepoints(#[trigger] constant_texts()[i]) {
        let i = choose|i: int|
            0 <= i < constant_texts().len() && text == codepoints(#[trigger] constant_texts()[i]);
        assert(constants[i] == text);
        assert(fit(constants[i]));
        constants.lemma_filter_contains(fit, i);
        let at = choose|at: int| 0 <= at < kept.len() && kept[at] == text;
        assert(all[small.len() + at] == text);
        assert(out[small.len() + at]@ == text);
    }
    let simplest: nat = 1;
    let nothing: nat = if k.min_size == 0 && k.max_size > 0 {
        1
    } else {
        0
    };
    let one: nat = if k.min_size <= 1 && k.max_size >= 1 {
        1
    } else {
        0
    };
    if k.min_size <= length <= k.max_size && (length <= 2 || length == k.min_size) {
        let at: int = if length == k.min_size {
            0
        } else if length == 1 {
            (simplest + nothing) as int
        } else {
            (simplest + nothing + one) as int
        };
        assert(small[at].len() == length);
        assert(all[at] == small[at]);
        assert(out[at]@.len() == length);
    }
}

} // verus!
