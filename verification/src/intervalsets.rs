//! Alphabets as sorted, disjoint ranges of codepoints.
use crate::errors::InternalError;
use crate::once::mask_cell_contents;
use crate::once::mask_cell_get;
use crate::once::mask_cell_new;
use crate::once::mask_cell_set;
use crate::text_constants::constant_texts;
use crate::text_constants::global_constants_strings;
use crate::text_constants::texts_codepoints;
use crate::text_constants::texts_view;
use once_cell::race::OnceBox;
use std::sync::Arc;
use vstd::prelude::*;

verus! {

/// One more than the largest codepoint.
pub const CODEPOINT_LIMIT: u32 = 0x11_0000;

/// The codepoint of `0`, first in shrink order where the alphabet has it.
pub const CODEPOINT_ZERO: u32 = 0x30;

/// The codepoint of `Z`.
pub const CODEPOINT_UPPER_Z: u32 = 0x5a;

/// The ranges are nonempty, ascending, disjoint and made of codepoints.
pub open spec fn ranges_ok(s: Seq<(u32, u32)>) -> bool {
    &&& forall|i: int| 0 <= i < s.len() ==> (#[trigger] s[i]).0 <= s[i].1 < CODEPOINT_LIMIT
    &&& forall|i: int, j: int| 0 <= i < j < s.len() ==> (#[trigger] s[i]).1 < (#[trigger] s[j]).0
}

/// Whether some range holds `cp`.
pub open spec fn ranges_contain(s: Seq<(u32, u32)>, cp: int) -> bool {
    exists|i: int| 0 <= i < s.len() && (#[trigger] s[i]).0 <= cp <= s[i].1
}

/// How many codepoints of one range lie below `x`.
pub open spec fn range_below(r: (u32, u32), x: int) -> nat {
    if x <= r.0 {
        0
    } else if x > r.1 {
        (r.1 - r.0 + 1) as nat
    } else {
        (x - r.0) as nat
    }
}

/// How many codepoints of the ranges lie below `x`.
pub open spec fn count_below(s: Seq<(u32, u32)>, x: int) -> nat
    decreases s.len(),
{
    if s.len() == 0 {
        0
    } else {
        count_below(s.drop_last(), x) + range_below(s.last(), x)
    }
}

/// How many codepoints the ranges hold.
pub open spec fn ranges_size(s: Seq<(u32, u32)>) -> nat {
    count_below(s, CODEPOINT_LIMIT as int)
}

/// The position in ascending order that the shrink order puts at `i`, for an
/// alphabet of `size` codepoints of which `zero` lie below `0` and `upper`
/// below `Z`: from `0` up to `Z`, then from below `0` downwards, then what is
/// above `Z`.
pub open spec fn unshuffled(size: int, zero: int, upper: int, i: int) -> int {
    let z = if upper < size {
        upper
    } else {
        size - 1
    };
    let n = z - zero;
    if i > z {
        i
    } else if i <= n {
        i + zero
    } else {
        zero - (i - n)
    }
}

/// The place in shrink order of the codepoint at ascending position `i`.
pub open spec fn shuffled(size: int, zero: int, upper: int, i: int) -> int {
    let z = if upper < size {
        upper
    } else {
        size - 1
    };
    let n = z - zero;
    if i > z {
        i
    } else if zero <= i {
        i - zero
    } else {
        zero - i + n
    }
}

/// The shrink order is a permutation of the ascending positions.
pub proof fn lemma_shrink_order_is_a_permutation(size: int, zero: int, upper: int, i: int)
    requires
        0 <= zero <= upper <= size,
        0 <= i < size,
    ensures
        0 <= unshuffled(size, zero, upper, i) < size,
        0 <= shuffled(size, zero, upper, i) < size,
        shuffled(size, zero, upper, unshuffled(size, zero, upper, i)) == i,
        unshuffled(size, zero, upper, shuffled(size, zero, upper, i)) == i,
{
}

/// The place of `cp` in the shrink order of the alphabet.
pub open spec fn shrink_position(s: Seq<(u32, u32)>, cp: int) -> int {
    shuffled(
        ranges_size(s) as int,
        count_below(s, CODEPOINT_ZERO as int) as int,
        count_below(s, CODEPOINT_UPPER_Z as int) as int,
        count_below(s, cp) as int,
    )
}

proof fn lemma_count_monotone(s: Seq<(u32, u32)>, x: int, y: int)
    requires
        x <= y,
        forall|i: int| 0 <= i < s.len() ==> (#[trigger] s[i]).0 <= s[i].1,
    ensures
        count_below(s, x) <= count_below(s, y),
    decreases s.len(),
{
    if s.len() > 0 {
        lemma_count_monotone(s.drop_last(), x, y);
        assert(s.last() == s[s.len() - 1]);
    }
}

proof fn lemma_count_at_most_size(s: Seq<(u32, u32)>, x: int)
    requires
        ranges_ok(s),
    ensures
        count_below(s, x) <= ranges_size(s),
    decreases s.len(),
{
    if s.len() > 0 {
        lemma_count_at_most_size(s.drop_last(), x);
        assert(s.last() == s[s.len() - 1]);
    }
}

proof fn lemma_count_limit(s: Seq<(u32, u32)>)
    requires
        ranges_ok(s),
    ensures
        s.len() > 0 ==> ranges_size(s) <= s.last().1 + 1,
        s.len() == 0 ==> ranges_size(s) == 0,
        s.len() <= ranges_size(s),
    decreases s.len(),
{
    if s.len() > 0 {
        lemma_count_limit(s.drop_last());
        if s.len() > 1 {
            assert(s.drop_last().last() == s[s.len() - 2]);
            assert(s[s.len() - 2].1 < s[s.len() - 1].0);
        }
    }
}

/// Two members of the alphabet at the same ascending position are the same.
pub proof fn lemma_position_is_unique(s: Seq<(u32, u32)>, a: int, b: int)
    requires
        ranges_ok(s),
        ranges_contain(s, a),
        ranges_contain(s, b),
        count_below(s, a) == count_below(s, b),
    ensures
        a == b,
{
    if a < b {
        lemma_count_grows(s, a);
        lemma_count_monotone(s, a + 1, b);
    } else if b < a {
        lemma_count_grows(s, b);
        lemma_count_monotone(s, b + 1, a);
    }
}

/// Two members of the alphabet at the same place of the shrink order are the
/// same.
pub proof fn lemma_shrink_position_is_unique(s: Seq<(u32, u32)>, a: int, b: int)
    requires
        ranges_ok(s),
        ranges_contain(s, a),
        ranges_contain(s, b),
        shrink_position(s, a) == shrink_position(s, b),
    ensures
        a == b,
{
    let size = ranges_size(s) as int;
    let zero = count_below(s, CODEPOINT_ZERO as int) as int;
    let upper = count_below(s, CODEPOINT_UPPER_Z as int) as int;
    lemma_count_monotone(s, CODEPOINT_ZERO as int, CODEPOINT_UPPER_Z as int);
    lemma_count_at_most_size(s, CODEPOINT_UPPER_Z as int);
    lemma_count_grows(s, a);
    lemma_count_grows(s, b);
    lemma_count_at_most_size(s, a + 1);
    lemma_count_at_most_size(s, b + 1);
    lemma_shrink_order_is_a_permutation(size, zero, upper, count_below(s, a) as int);
    lemma_shrink_order_is_a_permutation(size, zero, upper, count_below(s, b) as int);
    lemma_position_is_unique(s, a, b);
}

/// A member of the alphabet is counted above it.
pub(crate) proof fn lemma_count_grows(s: Seq<(u32, u32)>, a: int)
    requires
        ranges_ok(s),
        ranges_contain(s, a),
    ensures
        count_below(s, a) < count_below(s, a + 1),
    decreases s.len(),
{
    let i = choose|i: int| 0 <= i < s.len() && (#[trigger] s[i]).0 <= a <= s[i].1;
    lemma_count_monotone(s.drop_last(), a, a + 1);
    if i < s.len() - 1 {
        assert(s.drop_last()[i] == s[i]);
        lemma_count_grows(s.drop_last(), a);
    }
}

#[derive(Debug)]
struct Ranges {
    entries: Arc<Vec<(u32, u32)>>,
}

impl Ranges {
    #[verifier::type_invariant]
    spec fn in_order(self) -> bool {
        ranges_ok(self.entries@)
    }
}

/// An alphabet.
#[derive(Debug)]
pub struct IntervalSet {
    ranges: Ranges,
    string_constants_mask: OnceBox<Vec<bool>>,
}

impl View for IntervalSet {
    type V = Seq<(u32, u32)>;

    closed spec fn view(&self) -> Seq<(u32, u32)> {
        self.ranges.entries@
    }
}

impl Clone for IntervalSet {
    fn clone(&self) -> (r: Self)
        ensures
            r@ == self@,
            r.wf(),
            r.memo().len() == 0,
    {
        proof {
            use_type_invariant(&self.ranges);
        }
        let ranges = Ranges { entries: Arc::clone(&self.ranges.entries) };
        IntervalSet { ranges, string_constants_mask: mask_cell_new() }
    }
}

/// Which of the constant texts are written in the alphabet alone.
pub open spec fn contained_constants(s: Seq<(u32, u32)>) -> Seq<bool> {
    texts_codepoints(constant_texts()).map_values(|t: Seq<u32>| written_in(s, t))
}

/// Whether every codepoint of `text` belongs to the alphabet.
pub open spec fn written_in(s: Seq<(u32, u32)>, text: Seq<u32>) -> bool {
    forall|i: int| 0 <= i < text.len() ==> ranges_contain(s, #[trigger] text[i] as int)
}

impl IntervalSet {
    /// The memoised mask: nothing before the first use.
    pub closed spec fn memo(&self) -> Seq<Seq<bool>> {
        mask_cell_contents(self.string_constants_mask)
    }

    /// A memoised mask is the one of this alphabet.
    pub open spec fn wf(&self) -> bool {
        self.memo().len() > 0 ==> self.memo() == seq![contained_constants(self@)]
    }

    /// The alphabet made of `ranges`, which must be nonempty, ascending,
    /// disjoint ranges of codepoints.
    pub fn new(ranges: Vec<(u32, u32)>) -> (r: Result<Self, InternalError>)
        ensures
            r is Ok <==> ranges_ok(ranges@),
            match r {
                Ok(set) => set@ == ranges@ && set.wf() && set.memo().len() == 0,
                Err(_) => true,
            },
    {
        let mut i: usize = 0;
        while i < ranges.len()
            invariant
                i <= ranges@.len(),
                ranges_ok(ranges@.take(i as int)),
            decreases ranges@.len() - i,
        {
            let (lo, hi) = ranges[i];
            let ghost before = ranges@.take(i as int);
            let ghost upto = ranges@.take(i + 1);
            if lo > hi || hi >= CODEPOINT_LIMIT {
                assert(ranges@[i as int] == (lo, hi));
                return Err(InternalError::new("IntervalSet range is empty or out of range"));
            }
            if i > 0 && ranges[i - 1].1 >= lo {
                assert(ranges@[i - 1].1 >= ranges@[i as int].0);
                return Err(InternalError::new("IntervalSet ranges are not ascending"));
            }
            proof {
                assert forall|a: int, b: int| 0 <= a < b < upto.len() implies (
                #[trigger] upto[a]).1 < (#[trigger] upto[b]).0 by {
                    if b < i {
                        assert(before[a].1 < before[b].0);
                    } else if a < i - 1 {
                        assert(before[a].1 < before[i - 1].0);
                        assert(before[i - 1].0 <= before[i - 1].1);
                    }
                }
                assert forall|a: int| 0 <= a < upto.len() implies (#[trigger] upto[a]).0
                    <= upto[a].1 < CODEPOINT_LIMIT by {
                    if a < i {
                        assert(before[a].0 <= before[a].1);
                    }
                }
            }
            i = i + 1;
        }
        proof {
            assert(ranges@.take(ranges@.len() as int) =~= ranges@);
        }
        let ranges = Ranges { entries: Arc::new(ranges) };
        Ok(IntervalSet { ranges, string_constants_mask: mask_cell_new() })
    }

    /// Whether the alphabet has no codepoints.
    pub fn is_empty(&self) -> (r: bool)
        ensures
            r == (ranges_size(self@) == 0),
            r == (self@.len() == 0),
            ranges_ok(self@),
    {
        proof {
            use_type_invariant(&self.ranges);
            lemma_count_limit(self@);
        }
        self.ranges.entries.len() == 0
    }

    /// Whether `cp` belongs to the alphabet.
    pub fn contains(&self, cp: u32) -> (r: bool)
        ensures
            r == ranges_contain(self@, cp as int),
    {
        let mut i: usize = 0;
        while i < self.ranges.entries.len()
            invariant
                i <= self@.len(),
                forall|j: int|
                    0 <= j < i ==> !((#[trigger] self@[j]).0 <= cp as int <= self@[j].1),
            decreases self@.len() - i,
        {
            let (lo, hi) = self.ranges.entries[i];
            if lo <= cp && cp <= hi {
                assert(self@[i as int].0 <= cp as int <= self@[i as int].1);
                return true;
            }
            i = i + 1;
        }
        false
    }

    /// How many codepoints of the alphabet lie below `x`.
    pub fn count_below(&self, x: u32) -> (r: usize)
        ensures
            r as nat == count_below(self@, x as int),
            r <= CODEPOINT_LIMIT,
            r as nat <= ranges_size(self@),
    {
        let mut total: u32 = 0;
        let mut i: usize = 0;
        proof {
            use_type_invariant(&self.ranges);
            lemma_count_at_most_size(self@, x as int);
            lemma_count_limit(self@);
        }
        while i < self.ranges.entries.len()
            invariant
                i <= self@.len(),
                ranges_ok(self@),
                total as nat == count_below(self@.take(i as int), x as int),
                total <= if i == 0 {
                    0
                } else {
                    self@[i - 1].1 + 1
                },
            decreases self@.len() - i,
        {
            let (lo, hi) = self.ranges.entries[i];
            proof {
                assert(self@.take(i + 1).drop_last() =~= self@.take(i as int));
                assert(self@.take(i + 1).last() == self@[i as int]);
                if i > 0 {
                    assert(self@[i - 1].1 < self@[i as int].0);
                }
            }
            if x <= lo {
            } else if x > hi {
                total = total + (hi - lo + 1);
            } else {
                total = total + (x - lo);
            }
            i = i + 1;
        }
        proof {
            assert(self@.take(self@.len() as int) =~= self@);
        }
        total as usize
    }

    /// How many codepoints the alphabet has.
    pub fn len(&self) -> (r: usize)
        ensures
            r as nat == ranges_size(self@),
            ranges_ok(self@),
    {
        proof {
            use_type_invariant(&self.ranges);
        }
        self.count_below(CODEPOINT_LIMIT)
    }

    /// The codepoint at ascending position `index`.
    pub fn get(&self, index: usize) -> (r: u32)
        requires
            index < ranges_size(self@),
        ensures
            ranges_contain(self@, r as int),
            count_below(self@, r as int) == index,
    {
        proof {
            use_type_invariant(&self.ranges);
        }
        let mut rest: usize = index;
        let mut i: usize = 0;
        let n: usize = self.ranges.entries.len();
        let ghost s = self@;
        loop
            invariant
                s == self@,
                n == s.len(),
                i <= n,
                ranges_ok(s),
                rest as nat + count_below(s.take(i as int), CODEPOINT_LIMIT as int) == index,
                index < ranges_size(s),
            decreases s.len() - i,
        {
            proof {
                if i == s.len() {
                    assert(s.take(i as int) =~= s);
                    assert(false);
                }
                assert(s.take(i + 1).drop_last() =~= s.take(i as int));
                assert(s.take(i + 1).last() == s[i as int]);
            }
            let (lo, hi) = self.ranges.entries[i];
            let width: usize = (hi - lo) as usize + 1;
            if rest < width {
                let cp: u32 = lo + rest as u32;
                proof {
                    assert(s[i as int].0 <= cp as int <= s[i as int].1);
                    lemma_count_split(s, i as int, cp as int);
                }
                return cp;
            }
            rest = rest - width;
            i = i + 1;
        }
    }

    /// The codepoint at place `index` of the shrink order.
    pub fn char_in_shrink_order(&self, index: usize) -> (r: u32)
        requires
            index < ranges_size(self@),
        ensures
            ranges_contain(self@, r as int),
            shrink_position(self@, r as int) == index,
    {
        let size: usize = self.len();
        let zero: usize = self.count_below(CODEPOINT_ZERO);
        let upper: usize = self.count_below(CODEPOINT_UPPER_Z);
        proof {
            lemma_count_monotone(self@, CODEPOINT_ZERO as int, CODEPOINT_UPPER_Z as int);
            lemma_count_monotone(self@, CODEPOINT_UPPER_Z as int, CODEPOINT_LIMIT as int);
            lemma_shrink_order_is_a_permutation(
                size as int,
                zero as int,
                upper as int,
                index as int,
            );
        }
        let z: usize = if upper < size {
            upper
        } else {
            size - 1
        };
        let position: usize = if index > z {
            index
        } else if zero <= z && index <= z - zero {
            index + zero
        } else {
            zero + z - zero - index
        };
        self.get(position)
    }

    /// The place in shrink order of `cp`.
    pub fn position_in_shrink_order(&self, cp: u32) -> (r: usize)
        ensures
            r as int == shrink_position(self@, cp as int),
    {
        let size: usize = self.len();
        let zero: usize = self.count_below(CODEPOINT_ZERO);
        let upper: usize = self.count_below(CODEPOINT_UPPER_Z);
        let index: usize = self.count_below(cp);
        proof {
            lemma_count_monotone(self@, CODEPOINT_ZERO as int, CODEPOINT_UPPER_Z as int);
        }
        if size == 0 {
            return 0;
        }
        let z: usize = if upper < size {
            upper
        } else {
            size - 1
        };
        if index > z {
            index
        } else if zero <= index {
            index - zero
        } else {
            z - index
        }
    }

    /// Whether the two alphabets are equal.
    pub fn same(&self, other: &Self) -> (r: bool)
        ensures
            r == (self@ == other@),
    {
        let n: usize = self.ranges.entries.len();
        if n != other.ranges.entries.len() {
            return false;
        }
        let mut i: usize = 0;
        while i < n
            invariant
                i <= n,
                n == self@.len(),
                n == other@.len(),
                forall|j: int| 0 <= j < i ==> self@[j] == other@[j],
            decreases n - i,
        {
            let (a, b) = self.ranges.entries[i];
            let (c, d) = other.ranges.entries[i];
            if a != c || b != d {
                return false;
            }
            i = i + 1;
        }
        assert(self@ =~= other@);
        true
    }

    /// A copy that keeps what is memoised.
    pub fn share(&self) -> (r: Self)
        requires
            self.wf(),
        ensures
            r@ == self@,
            r.wf(),
            r.memo() == self.memo(),
    {
        let mut r = self.clone();
        if let Some(mask) = mask_cell_get(&self.string_constants_mask) {
            let copy: Vec<bool> = mask.clone();
            assert(copy@ =~= mask@);
            mask_cell_set(&mut r.string_constants_mask, copy);
        }
        r
    }

    /// Whether the mask of constant texts has been memoised.
    pub fn is_memoised(&self) -> (r: bool)
        ensures
            r == (self.memo().len() > 0),
    {
        mask_cell_get(&self.string_constants_mask).is_some()
    }
}

/// Every position of the ascending order is that of a codepoint.
proof fn lemma_position_is_taken(s: Seq<(u32, u32)>, p: int) -> (cp: u32)
    requires
        ranges_ok(s),
        0 <= p < ranges_size(s),
    ensures
        ranges_contain(s, cp as int),
        count_below(s, cp as int) == p,
    decreases s.len(),
{
    let rest = s.drop_last();
    let last = s.last();
    assert(last == s[s.len() - 1]);
    assert forall|i: int| 0 <= i < rest.len() implies (#[trigger] rest[i]).0 <= rest[i].1
        < last.0 by {
        assert(rest[i] == s[i]);
        assert(s[i].1 < s[s.len() - 1].0);
    }
    if p >= ranges_size(rest) {
        let cp = (last.0 + (p - ranges_size(rest))) as u32;
        lemma_all_below(rest, cp as int);
        assert(s[s.len() - 1].0 <= cp <= s[s.len() - 1].1);
        cp
    } else {
        let cp = lemma_position_is_taken(rest, p);
        let i = choose|i: int| 0 <= i < rest.len() && (#[trigger] rest[i]).0 <= cp <= rest[i].1;
        assert(s[i].0 <= cp <= s[i].1);
        cp
    }
}

/// Every place of the shrink order is that of a codepoint.
pub proof fn lemma_shrink_order_is_total(s: Seq<(u32, u32)>, i: int) -> (cp: u32)
    requires
        ranges_ok(s),
        0 <= i < ranges_size(s),
    ensures
        ranges_contain(s, cp as int),
        shrink_position(s, cp as int) == i,
{
    let size = ranges_size(s) as int;
    let zero = count_below(s, CODEPOINT_ZERO as int) as int;
    let upper = count_below(s, CODEPOINT_UPPER_Z as int) as int;
    lemma_count_monotone(s, CODEPOINT_ZERO as int, CODEPOINT_UPPER_Z as int);
    lemma_count_at_most_size(s, CODEPOINT_UPPER_Z as int);
    lemma_shrink_order_is_a_permutation(size, zero, upper, i);
    lemma_position_is_taken(s, unshuffled(size, zero, upper, i))
}

proof fn lemma_count_split(s: Seq<(u32, u32)>, i: int, cp: int)
    requires
        ranges_ok(s),
        0 <= i < s.len(),
        s[i].0 <= cp <= s[i].1,
    ensures
        count_below(s, cp) == count_below(s.take(i), CODEPOINT_LIMIT as int) + (cp - s[i].0),
    decreases s.len(),
{
    if i == s.len() - 1 {
        assert(s.take(i) =~= s.drop_last());
        lemma_all_below(s.drop_last(), cp);
    } else {
        assert(s.take(i) =~= s.drop_last().take(i));
        assert(s.drop_last()[i] == s[i]);
        assert(s[i].1 < s[s.len() - 1].0);
        lemma_count_split(s.drop_last(), i, cp);
    }
}

proof fn lemma_all_below(s: Seq<(u32, u32)>, cp: int)
    requires
        forall|i: int| 0 <= i < s.len() ==> (#[trigger] s[i]).0 <= s[i].1 < cp,
        cp < CODEPOINT_LIMIT,
    ensures
        count_below(s, cp) == count_below(s, CODEPOINT_LIMIT as int),
    decreases s.len(),
{
    if s.len() > 0 {
        assert(s.last() == s[s.len() - 1]);
        lemma_all_below(s.drop_last(), cp);
    }
}

/// Whether every codepoint of `text` belongs to `intervals`.
pub fn is_written_in(intervals: &IntervalSet, text: &Vec<u32>) -> (r: bool)
    ensures
        r == written_in(intervals@, text@),
{
    let mut i: usize = 0;
    while i < text.len()
        invariant
            i <= text@.len(),
            forall|j: int|
                0 <= j < i ==> ranges_contain(intervals@, #[trigger] text@[j] as int),
        decreases text@.len() - i,
    {
        if !intervals.contains(text[i]) {
            return false;
        }
        i = i + 1;
    }
    true
}

/// Which of the constant texts are written in the alphabet alone.
///
/// The answer depends on the alphabet only, so it is memoised on it.
pub fn constants_in_alphabet(intervals: &mut IntervalSet) -> (r: &Vec<bool>)
    requires
        old(intervals).wf(),
    ensures
        r@ == contained_constants(old(intervals)@),
        final(intervals)@ == old(intervals)@,
        final(intervals).wf(),
        final(intervals).memo() == seq![contained_constants(old(intervals)@)],
{
    if !intervals.is_memoised() {
        let texts = global_constants_strings();
        let mut mask: Vec<bool> = Vec::new();
        let mut i: usize = 0;
        while i < texts.len()
            invariant
                i <= texts@.len(),
                mask@.len() == i,
                texts_view(texts@) == texts_codepoints(constant_texts()),
                forall|j: int|
                    0 <= j < i ==> mask@[j] == written_in(intervals@, #[trigger] texts@[j]@),
            decreases texts@.len() - i,
        {
            mask.push(is_written_in(&*intervals, &texts[i]));
            i = i + 1;
        }
        proof {
            assert(texts_view(texts@).len() == texts@.len());
            assert forall|j: int| 0 <= j < mask@.len() implies mask@[j] == contained_constants(
                intervals@,
            )[j] by {
                assert(texts_view(texts@)[j] == texts@[j]@);
            }
            assert(mask@ =~= contained_constants(intervals@));
        }
        mask_cell_set(&mut intervals.string_constants_mask, mask);
    }
    assert(intervals.memo().len() == 1);
    let mask = mask_cell_get(&intervals.string_constants_mask).unwrap();
    proof {
        assert(seq![mask@][0] == seq![contained_constants(intervals@)][0]);
    }
    mask
}

} // verus!
