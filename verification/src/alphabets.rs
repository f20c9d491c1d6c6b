//! The characters that an alphabet is described to have.
use crate::abi::settings::text_view;
use crate::abi::strings::TextAlphabet;
use crate::draws::complains;
use crate::errors::EngineError;
use crate::intervalsets::ranges_contain;
use crate::intervalsets::ranges_ok;
use crate::intervalsets::IntervalSet;
use crate::intervalsets::CODEPOINT_LIMIT;
use crate::text_constants::codepoints;
use crate::text_constants::codepoints_of;
use vstd::prelude::*;
use vstd::string::StringExecFns;

verus! {

/// The codepoints of the categories that the description of an alphabet names.
pub struct CategorySets {
    /// Those of the categories that the characters are of.
    pub included: IntervalSet,
    /// Those of the categories that the characters are not of.
    pub excluded: IntervalSet,
}

/// The largest codepoint of a codec, where it is known.
pub open spec fn last_codepoint(codec: Option<Seq<char>>) -> Option<u32> {
    match codec {
        None => Some(0x10_ffff),
        Some(name) => if name == "utf-8"@ {
            Some(0x10_ffff)
        } else if name == "ascii"@ {
            Some(0x7f)
        } else if name == "latin-1"@ || name == "iso-8859-1"@ {
            Some(0xff)
        } else {
            None
        },
    }
}

/// What is said of a codec that is not known.
pub open spec fn unknown_codec(name: Seq<char>) -> Seq<char> {
    "unknown codec: "@ + name
}

/// Whether a codepoint is one of a character, not a surrogate.
pub open spec fn is_character(cp: int) -> bool {
    0 <= cp < 0xd800 || 0xe000 <= cp < CODEPOINT_LIMIT
}

/// Whether a text has a codepoint.
pub open spec fn has_codepoint(text: Option<Seq<char>>, cp: int) -> bool {
    match text {
        Some(t) => 0 <= cp <= u32::MAX && codepoints(t).contains(cp as u32),
        None => false,
    }
}

/// Whether a codepoint belongs to an alphabet: the bounds and the categories admit
/// it, or it is added, and it is not taken away.
pub open spec fn belongs(a: TextAlphabet, sets: CategorySets, cp: int) -> bool {
    let last = last_codepoint(text_view(a.codec))->0;
    let admitted = {
        &&& a.min_codepoint <= cp <= a.max_codepoint
        &&& cp <= last
        &&& a.categories is Some ==> ranges_contain(sets.included@, cp)
        &&& !ranges_contain(sets.excluded@, cp)
    };
    &&& is_character(cp)
    &&& admitted || has_codepoint(text_view(a.include_characters), cp)
    &&& !has_codepoint(text_view(a.exclude_characters), cp)
}

/// Whether no two ranges touch.
pub open spec fn ranges_apart(s: Seq<(u32, u32)>) -> bool {
    forall|i: int, j: int| 0 <= i < j < s.len() ==> (#[trigger] s[i]).1 + 1 < (#[trigger] s[j]).0
}

/// Whether the characters of an alphabet were made out, or cannot be.
pub open spec fn made_out(
    a: TextAlphabet,
    sets: Result<CategorySets, EngineError>,
    r: Result<IntervalSet, EngineError>,
) -> bool {
    match last_codepoint(text_view(a.codec)) {
        None => r matches Err(e) && complains(e, unknown_codec(text_view(a.codec)->0)),
        Some(_) => match sets {
            Err(e) => r == Err::<IntervalSet, EngineError>(e),
            Ok(sets) => {
                &&& r matches Ok(set)
                &&& set.wf()
                &&& ranges_apart(set@)
                &&& forall|cp: int| #[trigger]
                    ranges_contain(set@, cp) <==> belongs(a, sets, cp)
            },
        },
    }
}

/// Whether a text is the given one.
fn is_named(name: &String, text: &str) -> (r: bool)
    ensures
        r == (name@ == text@),
{
    *name == String::from_str(text)
}

/// The largest codepoint of a codec, where it is known.
fn last_of(codec: &Option<String>) -> (r: Option<u32>)
    ensures
        r == last_codepoint(text_view(*codec)),
{
    match codec {
        None => Some(0x10_ffff),
        Some(name) => {
            if is_named(name, "utf-8") {
                Some(0x10_ffff)
            } else if is_named(name, "ascii") {
                Some(0x7f)
            } else if is_named(name, "latin-1") || is_named(name, "iso-8859-1") {
                Some(0xff)
            } else {
                None
            }
        },
    }
}

/// The codepoints of a text, none where there is no text.
fn codepoints_or_none(text: &Option<String>) -> (r: Vec<u32>)
    ensures
        forall|cp: u32| #[trigger] r@.contains(cp) == has_codepoint(text_view(*text), cp as int),
{
    match text {
        Some(t) => codepoints_of(t.as_str()),
        None => Vec::new(),
    }
}

/// Whether a list has a codepoint.
fn holds(list: &Vec<u32>, cp: u32) -> (r: bool)
    ensures
        r == list@.contains(cp),
{
    let mut i: usize = 0;
    while i < list.len()
        invariant
            i <= list@.len(),
            forall|j: int| 0 <= j < i ==> list@[j] != cp,
        decreases list@.len() - i,
    {
        if list[i] == cp {
            return true;
        }
        i = i + 1;
    }
    false
}

/// Adds the next codepoint to ascending ranges that do not touch.
fn add_codepoint(ranges: &mut Vec<(u32, u32)>, cp: u32)
    requires
        cp < CODEPOINT_LIMIT,
        ranges_ok(old(ranges)@),
        ranges_apart(old(ranges)@),
        forall|i: int| 0 <= i < old(ranges)@.len() ==> (#[trigger] old(ranges)@[i]).1 < cp,
    ensures
        ranges_ok(final(ranges)@),
        ranges_apart(final(ranges)@),
        forall|i: int| 0 <= i < final(ranges)@.len() ==> (#[trigger] final(ranges)@[i]).1 <= cp,
        forall|c: int| #[trigger]
            ranges_contain(final(ranges)@, c) <==> ranges_contain(old(ranges)@, c) || c == cp,
{
    let ghost before = ranges@;
    let n: usize = ranges.len();
    if n > 0 && ranges[n - 1].1 + 1 == cp {
        let lo: u32 = ranges[n - 1].0;
        ranges.set(n - 1, (lo, cp));
    } else {
        ranges.push((cp, cp));
    }
    proof {
        let after = ranges@;
        assert forall|c: int| #[trigger] ranges_contain(after, c) <==> ranges_contain(before, c)
            || c == cp by {
            if ranges_contain(after, c) {
                let i = choose|i: int| 0 <= i < after.len() && (#[trigger] after[i]).0 <= c
                    <= after[i].1;
                if i < before.len() && c <= before[i].1 {
                    assert(before[i].0 <= c <= before[i].1);
                }
            }
            if ranges_contain(before, c) {
                let i = choose|i: int| 0 <= i < before.len() && (#[trigger] before[i]).0 <= c
                    <= before[i].1;
                assert(after[i].0 <= c <= after[i].1);
            }
            if c == cp {
                assert(after[after.len() - 1].0 <= c <= after[after.len() - 1].1);
            }
        }
    }
}

/// Makes out the characters of an alphabet. `sets` has the codepoints of the
/// categories that it names, or says why there are none.
pub fn characters(a: &TextAlphabet, sets: Result<CategorySets, EngineError>) -> (r: Result<
    IntervalSet,
    EngineError,
>)
    ensures
        made_out(*a, sets, r),
{
    let last: u32 = match last_of(&a.codec) {
        Some(last) => last,
        None => {
            let mut what = String::from_str("unknown codec: ");
            if let Some(name) = &a.codec {
                what.append(name.as_str());
            }
            return Err(EngineError::InvalidArgument(what));
        },
    };
    let sets = match sets {
        Ok(sets) => sets,
        Err(e) => {
            return Err(e);
        },
    };
    let added = codepoints_or_none(&a.include_characters);
    let removed = codepoints_or_none(&a.exclude_characters);
    let mut ranges: Vec<(u32, u32)> = Vec::new();
    let mut cp: u32 = 0;
    while cp < CODEPOINT_LIMIT
        invariant
            cp <= CODEPOINT_LIMIT,
            last_codepoint(text_view(a.codec)) == Some(last),
            forall|c: u32| #[trigger]
                added@.contains(c) == has_codepoint(text_view(a.include_characters), c as int),
            forall|c: u32| #[trigger]
                removed@.contains(c) == has_codepoint(text_view(a.exclude_characters), c as int),
            ranges_ok(ranges@),
            ranges_apart(ranges@),
            forall|i: int| 0 <= i < ranges@.len() ==> (#[trigger] ranges@[i]).1 < cp,
            forall|c: int| #[trigger]
                ranges_contain(ranges@, c) <==> c < cp && belongs(*a, sets, c),
        decreases CODEPOINT_LIMIT - cp,
    {
        let ghost before = ranges@;
        if cp < 0xd800 || cp >= 0xe000 {
            let admitted = a.min_codepoint <= cp && cp <= a.max_codepoint && cp <= last && (
            a.categories.is_none() || sets.included.contains(cp)) && !sets.excluded.contains(cp);
            if (admitted || holds(&added, cp)) && !holds(&removed, cp) {
                add_codepoint(&mut ranges, cp);
            }
        }
        proof {
            assert forall|c: int| #[trigger] ranges_contain(ranges@, c) <==> c < cp + 1 && belongs(
                *a,
                sets,
                c,
            ) by {
                assert(ranges_contain(before, c) <==> c < cp && belongs(*a, sets, c));
                if c == cp {
                    assert(added@.contains(cp) == has_codepoint(
                        text_view(a.include_characters),
                        cp as int,
                    ));
                    assert(removed@.contains(cp) == has_codepoint(
                        text_view(a.exclude_characters),
                        cp as int,
                    ));
                }
            }
        }
        cp = cp + 1;
    }
    match IntervalSet::new(ranges) {
        Ok(set) => Ok(set),
        Err(e) => Err(EngineError::Internal(e)),
    }
}

} // verus!
