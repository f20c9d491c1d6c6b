//! Choices: which values are simpler than others, and how they are numbered.
use crate::bignum::BigInt;
use crate::bignum::BigUint;
use crate::bignum::Comparison;
use crate::choices::lemma_integer_index_is_a_bijection;
use crate::choices::nodes_view;
use crate::choices::simplest_of;
use crate::choices::BooleanChoice;
use crate::choices::BytesChoice;
use crate::choices::ChoiceData;
use crate::choices::ChoiceNode;
use crate::choices::ChoiceValue;
use crate::choices::IntegerChoice;
use crate::choices::KindView;
use crate::choices::NodeView;
use crate::choices::StringChoice;
use crate::choices::ValueView;
use crate::errors::InternalError;
use crate::family::FamilyCore;
use crate::intervalsets::count_below;
use crate::intervalsets::lemma_count_grows;
use crate::intervalsets::lemma_position_is_unique;
use crate::intervalsets::lemma_shrink_position_is_unique;
use crate::intervalsets::ranges_contain;
use crate::intervalsets::ranges_ok;
use crate::intervalsets::ranges_size;
use crate::intervalsets::shrink_position;
use crate::intervalsets::IntervalSet;
use crate::order::compare_keys;
use crate::order::flat_keys;
use crate::order::key_before;
use crate::order::lemma_key_irreflexive;
use crate::order::lemma_key_total;
use crate::order::lemma_simpler_is_no_longer;
use crate::order::node_key;
use crate::order::simpler;
use crate::order::sort_key;
use crate::order::sort_key_of;
use crate::spans::covered;
use crate::spans::is_trivial_node;
use crate::spans::trivial_prefix;
use crate::spans::Spans;
use std::sync::Arc;
use vstd::prelude::*;

verus! {

/// The number of a range that is nearest to another one.
pub open spec fn nearest_in(n: int, min: int, max: int) -> int {
    if n < min {
        min
    } else if n > max {
        max
    } else {
        n
    }
}

/// The distance of two numbers.
pub open spec fn distance(a: int, b: int) -> int {
    if a < b {
        b - a
    } else {
        a - b
    }
}

/// Whether an integer is nearer to a goal than another, or as near and above it where
/// the other one is below.
pub open spec fn comes_first(goal: int, a: int, b: int) -> bool {
    distance(a, goal) < distance(b, goal) || distance(a, goal) == distance(b, goal) && b < goal < a
}

/// The integers of a range are numbered from zero on, without gaps, by how near they are
/// to the value that they shrink towards, the one above before the one below. What lies
/// outside the range has no number.
pub proof fn lemma_integers_are_numbered_by_distance(
    k: Arc<IntegerChoice>,
    x: BigInt,
    y: BigInt,
    r: Option<BigUint>,
    s: Option<BigUint>,
)
    requires
        call_ensures(ChoiceData::to_index, (&ChoiceData::Integer(k, x),), r),
        call_ensures(ChoiceData::to_index, (&ChoiceData::Integer(k, y),), s),
        k@.min <= k@.max,
    ensures
        r is Some <==> k@.min <= x@ <= k@.max,
        r is Some && s is Some ==> {
            let goal = nearest_in(k@.towards, k@.min, k@.max);
            &&& r->Some_0@ < s->Some_0@ <==> comes_first(goal, x@, y@)
            &&& r->Some_0@ == s->Some_0@ <==> x@ == y@
            &&& r->Some_0@ == 0 <==> x@ == goal
            &&& r->Some_0@ <= k@.max - k@.min
        },
{
}

/// The number of a value gives the value back, and the value with a number has that
/// number. There are as many numbers as the range has integers.
pub proof fn lemma_numbers_give_values_back(
    k: Arc<IntegerChoice>,
    x: BigInt,
    n: BigUint,
    i: Option<BigUint>,
    max: Option<BigUint>,
    v: Option<ChoiceValue>,
)
    requires
        call_ensures(ChoiceData::to_index, (&ChoiceData::Integer(k, x),), i),
        call_ensures(ChoiceData::max_index, (&ChoiceData::Integer(k, x),), max),
        call_ensures(ChoiceData::from_index, (&ChoiceData::Integer(k, x), &n), v),
        k@.min <= k@.max,
    ensures
        max is Some && max->Some_0@ == k@.max - k@.min,
        v is Some <==> n@ <= k@.max - k@.min,
        v is Some ==> v->Some_0@ is Integer && k@.min <= v->Some_0@->Integer_0 <= k@.max,
        i is Some && v is Some ==> (i->Some_0@ == n@ <==> v->Some_0@ == ValueView::Integer(x@)),
{
    if n@ <= k@.max - k@.min {
        lemma_integer_index_is_a_bijection(k@, k@.min, n@ as int);
    }
    if k@.min <= x@ <= k@.max {
        lemma_integer_index_is_a_bijection(k@, x@, 0);
    }
}

/// Of the booleans that may come out, `false` has the number zero and `true` one. Where
/// only one may, that is the one with number zero.
pub proof fn lemma_booleans_are_numbered(
    k: BooleanChoice,
    b: bool,
    n: BigUint,
    i: Option<BigUint>,
    max: Option<BigUint>,
    v: Option<ChoiceValue>,
)
    requires
        call_ensures(ChoiceData::to_index, (&ChoiceData::Boolean(k, b),), i),
        call_ensures(ChoiceData::max_index, (&ChoiceData::Boolean(k, b),), max),
        call_ensures(ChoiceData::from_index, (&ChoiceData::Boolean(k, b), &n), v),
        k.p.numerator <= 0x20_0000_0000_0000,
    ensures
        ({
            let possible = if b {
                k.p.numerator > 0
            } else {
                k.p.numerator < 0x20_0000_0000_0000
            };
            let both = 0 < k.p.numerator < 0x20_0000_0000_0000;
            &&& i is Some <==> possible
            &&& i is Some ==> i->Some_0@ == if both && b {
                1nat
            } else {
                0nat
            }
            &&& max is Some && max->Some_0@ == if both {
                1nat
            } else {
                0nat
            }
            &&& v is Some <==> n@ <= max->Some_0@
            &&& v is Some && i is Some ==> (v->Some_0@ == ValueView::Boolean(b) <==> i->Some_0@
                == n@)
        }),
{
}

/// The simplest value of a kind: `false` unless `true` is certain, the integer that is
/// nearest to the one it shrinks towards, and as few zeros as a byte string may have.
pub proof fn lemma_simplest_values(
    boolean: BooleanChoice,
    b: bool,
    integer: Arc<IntegerChoice>,
    n: BigInt,
    bytes: BytesChoice,
    v: Vec<u8>,
    r: Result<ChoiceValue, InternalError>,
    s: Result<ChoiceValue, InternalError>,
    t: Result<ChoiceValue, InternalError>,
)
    requires
        call_ensures(ChoiceData::simplest_value, (&ChoiceData::Boolean(boolean, b),), r),
        call_ensures(ChoiceData::simplest_value, (&ChoiceData::Integer(integer, n),), s),
        call_ensures(ChoiceData::simplest_value, (&ChoiceData::Bytes(bytes, v),), t),
        integer@.min <= integer@.max,
    ensures
        r is Ok && r->Ok_0@ == ValueView::Boolean(boolean.p.numerator >= 0x20_0000_0000_0000),
        s is Ok && s->Ok_0@ == ValueView::Integer(
            nearest_in(integer@.towards, integer@.min, integer@.max),
        ),
        t is Ok && t->Ok_0@ is Bytes,
        t->Ok_0@->Bytes_0.len() == bytes.min_size,
        forall|i: int| 0 <= i < bytes.min_size ==> #[trigger] t->Ok_0@->Bytes_0[i] == 0,
{
}

/// A value fits its kind where it lies in the range, has one of the lengths, and is
/// written in the alphabet.
pub proof fn lemma_values_that_fit(
    integer: &IntegerChoice,
    n: &BigInt,
    fits_integer: bool,
    boolean: &BooleanChoice,
    b: bool,
    fits_boolean: bool,
    bytes: &BytesChoice,
    v: &Vec<u8>,
    fits_bytes: bool,
    string: &StringChoice,
    text: &Vec<u32>,
    i: int,
    fits_string: bool,
)
    requires
        call_ensures(IntegerChoice::validate, (integer, n), fits_integer),
        call_ensures(BooleanChoice::validate, (boolean, b), fits_boolean),
        call_ensures(BytesChoice::validate, (bytes, v), fits_bytes),
        call_ensures(StringChoice::validate, (string, text), fits_string),
        boolean.p.numerator <= 0x20_0000_0000_0000,
    ensures
        fits_integer <==> integer.min_value@ <= n@ <= integer.max_value@,
        fits_boolean <==> if b {
            boolean.p.numerator > 0
        } else {
            boolean.p.numerator < 0x20_0000_0000_0000
        },
        fits_bytes <==> bytes.min_size <= v@.len() <= bytes.max_size,
        fits_string ==> string.min_size <= text@.len() <= string.max_size,
        fits_string && 0 <= i < text@.len() ==> exists|j: int|
            0 <= j < string.intervals@.len() && (#[trigger] string.intervals@[j]).0 <= text@[i]
                <= string.intervals@[j].1,
        !fits_string && string.min_size <= text@.len() <= string.max_size ==> exists|i: int|
            0 <= i < text@.len() && forall|j: int|
                0 <= j < string.intervals@.len() ==> !((#[trigger] string.intervals@[j]).0
                    <= #[trigger] text@[i] <= string.intervals@[j].1),
{
    if fits_string && 0 <= i < text@.len() {
        assert(ranges_contain(string.intervals@, text@[i] as int));
    }
    if !fits_string && string.min_size <= text@.len() <= string.max_size {
        let i = choose|i: int|
            0 <= i < text@.len() && !ranges_contain(string.intervals@, #[trigger] text@[i] as int);
        assert(forall|j: int|
            0 <= j < string.intervals@.len() ==> !((#[trigger] string.intervals@[j]).0 <= text@[i]
                <= string.intervals@[j].1));
        assert(text@[i] == text@[i]);
    }
}

/// Counting stops nowhere: a larger bound has no fewer codepoints below it.
proof fn lemma_counts_ascend(s: Seq<(u32, u32)>, x: int, y: int)
    requires
        x <= y,
        forall|i: int| 0 <= i < s.len() ==> (#[trigger] s[i]).0 <= s[i].1,
    ensures
        count_below(s, x) <= count_below(s, y),
    decreases s.len(),
{
    if s.len() > 0 {
        assert forall|i: int| 0 <= i < s.drop_last().len() implies (#[trigger] s.drop_last()[i]).0
            <= s.drop_last()[i].1 by {
            assert(s.drop_last()[i] == s[i]);
        }
        lemma_counts_ascend(s.drop_last(), x, y);
        assert(s[s.len() - 1].0 <= s[s.len() - 1].1);
    }
}

/// The codepoints of an alphabet are in order: from `0` to `Z` in rising order, then
/// those below `0` in falling order, then those above `Z` in rising order, of which the
/// first may come before those below `0`.
pub proof fn lemma_codepoints_are_ordered(
    set: &IntervalSet,
    a: u32,
    b: u32,
    has_a: bool,
    has_b: bool,
    size: usize,
    r: usize,
    s: usize,
)
    requires
        call_ensures(IntervalSet::contains, (set, a), has_a),
        call_ensures(IntervalSet::contains, (set, b), has_b),
        call_ensures(IntervalSet::len, (set,), size),
        call_ensures(IntervalSet::position_in_shrink_order, (set, a), r),
        call_ensures(IntervalSet::position_in_shrink_order, (set, b), s),
        has_a,
        has_b,
        a < 0x11_0000,
        b < 0x11_0000,
    ensures
        48 <= a < b <= 90 ==> r < s,
        48 <= a <= 90 && b < 48 ==> r < s,
        b < a < 48 ==> r < s,
        90 < a < b ==> r < s,
        a <= 90 && b > 90 && (exists|c: u32|
            90 <= c < b && #[trigger] ranges_contain(set@, c as int)) ==> r < s,
        r == s <==> a == b,
        has_a <==> exists|j: int| 0 <= j < set@.len() && (#[trigger] set@[j]).0 <= a <= set@[j].1,
{
    let ranges = set@;
    assert(ranges_ok(ranges));
    lemma_counts_ascend(ranges, 48, 90);
    lemma_counts_ascend(ranges, 90, 0x11_0000);
    lemma_counts_ascend(ranges, 0, 48);
    lemma_counts_ascend(ranges, a as int, 0x11_0000);
    lemma_counts_ascend(ranges, b as int, 0x11_0000);
    lemma_count_grows(ranges, a as int);
    lemma_count_grows(ranges, b as int);
    if a < b {
        lemma_counts_ascend(ranges, a + 1, b as int);
    } else if b < a {
        lemma_counts_ascend(ranges, b + 1, a as int);
    }
    if a < 48 {
        lemma_counts_ascend(ranges, a + 1, 48);
    }
    if b < 48 {
        lemma_counts_ascend(ranges, b + 1, 48);
    }
    lemma_counts_ascend(ranges, a + 1, 0x11_0000);
    lemma_counts_ascend(ranges, b + 1, 0x11_0000);
    if a >= 48 {
        lemma_counts_ascend(ranges, 48, a as int);
    } else {
        lemma_counts_ascend(ranges, a as int, 48);
    }
    if b >= 48 {
        lemma_counts_ascend(ranges, 48, b as int);
    } else {
        lemma_counts_ascend(ranges, b as int, 48);
    }
    if a >= 90 {
        lemma_counts_ascend(ranges, 90, a as int);
    } else {
        lemma_counts_ascend(ranges, a as int, 90);
    }
    if b >= 90 {
        lemma_counts_ascend(ranges, 90, b as int);
    } else {
        lemma_counts_ascend(ranges, b as int, 90);
    }
    if count_below(ranges, a as int) == count_below(ranges, b as int) {
        lemma_position_is_unique(ranges, a as int, b as int);
    }
    if r == s {
        lemma_shrink_position_is_unique(ranges, a as int, b as int);
    }
    if exists|c: u32| 90 <= c < b && #[trigger] ranges_contain(ranges, c as int) {
        let c = choose|c: u32| 90 <= c < b && #[trigger] ranges_contain(ranges, c as int);
        lemma_counts_ascend(ranges, 90, c as int);
        lemma_counts_ascend(ranges, c as int, b as int);
        lemma_count_grows(ranges, c as int);
        lemma_counts_ascend(ranges, c + 1, b as int);
        if count_below(ranges, c as int) == count_below(ranges, b as int) {
            lemma_position_is_unique(ranges, c as int, b as int);
        }
    }
}

/// A common beginning decides nothing.
proof fn lemma_common_beginning(p: Seq<nat>, a: Seq<nat>, b: Seq<nat>)
    ensures
        key_before(p + a, p + b) == key_before(a, b),
    decreases p.len(),
{
    if p.len() == 0 {
        assert(p + a =~= a);
        assert(p + b =~= b);
    } else {
        assert((p + a).skip(1) =~= p.skip(1) + a);
        assert((p + b).skip(1) =~= p.skip(1) + b);
        lemma_common_beginning(p.skip(1), a, b);
    }
}

/// The keys of some choices and of those that follow.
proof fn lemma_keys_split(s: Seq<NodeView>, i: int)
    requires
        0 <= i <= s.len(),
    ensures
        flat_keys(s) == flat_keys(s.take(i)) + flat_keys(s.skip(i)),
    decreases s.len(),
{
    if i == s.len() {
        assert(s.take(i) =~= s);
        assert(s.skip(i) =~= Seq::empty());
        assert(flat_keys(s.skip(i)) =~= Seq::empty());
    } else {
        lemma_keys_split(s.drop_last(), i);
        assert(s.drop_last().take(i) =~= s.take(i));
        assert(s.drop_last().skip(i) =~= s.skip(i).drop_last());
        assert(s.skip(i).last() == s.last());
        assert(flat_keys(s) =~= flat_keys(s.take(i)) + flat_keys(s.skip(i)));
    }
}

/// The keys of a choice and of those that follow.
proof fn lemma_keys_begin(s: Seq<NodeView>)
    requires
        s.len() > 0,
    ensures
        flat_keys(s) == node_key(s[0]) + flat_keys(s.skip(1)),
{
    lemma_keys_split(s, 1);
    assert(s.take(1).drop_last() =~= Seq::empty());
    assert(flat_keys(s.take(1).drop_last()) =~= Seq::empty());
    assert(flat_keys(s.take(1)) =~= node_key(s[0]));
}

/// The first choice that differs decides, where the first number in which its keys
/// differ is smaller.
proof fn lemma_first_difference_decides(a: Seq<NodeView>, b: Seq<NodeView>, i: int, j: int)
    requires
        a.len() == b.len(),
        0 <= i < a.len(),
        forall|x: int| 0 <= x < i ==> a[x] == b[x],
        0 <= j < node_key(a[i]).len(),
        j < node_key(b[i]).len(),
        forall|x: int| 0 <= x < j ==> node_key(a[i])[x] == node_key(b[i])[x],
        node_key(a[i])[j] < node_key(b[i])[j],
    ensures
        simpler(a, b),
{
    lemma_keys_split(a, i);
    lemma_keys_split(b, i);
    assert(a.take(i) =~= b.take(i));
    lemma_keys_begin(a.skip(i));
    lemma_keys_begin(b.skip(i));
    let x = node_key(a[i]) + flat_keys(a.skip(i).skip(1));
    let y = node_key(b[i]) + flat_keys(b.skip(i).skip(1));
    let p = seq![a.len()] + flat_keys(a.take(i));
    assert(sort_key_of(a) =~= p + x);
    assert(sort_key_of(b) =~= p + y);
    lemma_common_beginning(p, x, y);
    let q = x.take(j);
    assert(q =~= y.take(j));
    assert(x =~= q + x.skip(j));
    assert(y =~= q + y.skip(j));
    lemma_common_beginning(q, x.skip(j), y.skip(j));
}

/// Fewer choices are simpler than more. Of as many, those are simpler whose first choice
/// that differs is: an integer is simpler where it is nearer to the value that it shrinks
/// towards, or as near and above it; a byte string where it is shorter, or as long and
/// smaller in the first byte that differs; a string where it is shorter; `false` is
/// simpler than `true`. The same choices are as simple as each other.
pub proof fn lemma_fewer_and_nearer_is_simpler(
    a: &[ChoiceNode],
    b: &[ChoiceNode],
    key_a: Vec<BigUint>,
    key_b: Vec<BigUint>,
    r: Comparison,
    i: int,
    j: int,
)
    requires
        call_ensures(sort_key, (a,), key_a),
        call_ensures(sort_key, (b,), key_b),
        call_ensures(compare_keys, (&key_a, &key_b), r),
    ensures
        a@.len() < b@.len() ==> r is Less,
        a@.len() > b@.len() ==> r is Greater,
        nodes_view(a@) == nodes_view(b@) ==> r is Equal,
        a@.len() == b@.len() && 0 <= i < a@.len() && (forall|x: int|
            0 <= x < i ==> (#[trigger] a@[x])@ == b@[x]@) && a@[i]@.kind == b@[i]@.kind ==> match (
            a@[i]@.kind,
            a@[i]@.value,
            b@[i]@.value,
        ) {
            (KindView::Integer(k), ValueView::Integer(x), ValueView::Integer(y)) => comes_first(
                nearest_in(k.towards, k.min, k.max),
                x,
                y,
            ) ==> r is Less,
            (KindView::Boolean(k), ValueView::Boolean(x), ValueView::Boolean(y)) => !x && y
                && k.p.numerator < 0x20_0000_0000_0000 ==> r is Less,
            (KindView::Bytes(_), ValueView::Bytes(x), ValueView::Bytes(y)) => {
                &&& x.len() < y.len() ==> r is Less
                &&& x.len() == y.len() && 0 <= j < x.len() && x.take(j) == y.take(j) && x[j] < y[j]
                    ==> r is Less
            },
            (KindView::String(k), ValueView::String(x), ValueView::String(y)) => {
                &&& x.len() < y.len() ==> r is Less
                &&& x.len() == y.len() && 0 <= j < x.len() && x.take(j) == y.take(j) && 0
                    <= shrink_position(k.alphabet, x[j] as int) < shrink_position(
                    k.alphabet,
                    y[j] as int,
                ) ==> r is Less
            },
            (KindView::Float(_), ValueView::Float(x), ValueView::Float(y)) => x.order < y.order
                ==> r is Less,
            _ => true,
        },
{
    let s = nodes_view(a@);
    let t = nodes_view(b@);
    lemma_simpler_is_no_longer(s, t);
    lemma_simpler_is_no_longer(t, s);
    lemma_key_total(sort_key_of(s), sort_key_of(t));
    lemma_key_irreflexive(sort_key_of(s));
    if a@.len() == b@.len() && 0 <= i < a@.len() && (forall|x: int|
        0 <= x < i ==> (#[trigger] a@[x])@ == b@[x]@) && a@[i]@.kind == b@[i]@.kind {
        assert forall|x: int| 0 <= x < i implies s[x] == t[x] by {
            assert(a@[x]@ == b@[x]@);
        }
        assert(s[i] == a@[i]@ && t[i] == b@[i]@);
        match (a@[i]@.kind, a@[i]@.value, b@[i]@.value) {
            (KindView::Integer(k), ValueView::Integer(x), ValueView::Integer(y)) => {
                if comes_first(nearest_in(k.towards, k.min, k.max), x, y) {
                    lemma_first_difference_decides(s, t, i, 0);
                }
            },
            (KindView::Boolean(k), ValueView::Boolean(x), ValueView::Boolean(y)) => {
                if !x && y && k.p.numerator < 0x20_0000_0000_0000 {
                    lemma_first_difference_decides(s, t, i, 0);
                }
            },
            (KindView::Bytes(_), ValueView::Bytes(x), ValueView::Bytes(y)) => {
                if x.len() < y.len() {
                    lemma_first_difference_decides(s, t, i, 0);
                }
                if x.len() == y.len() && 0 <= j < x.len() && x.take(j) == y.take(j) && x[j] < y[j] {
                    assert forall|z: int| 0 <= z < j + 1 implies node_key(s[i])[z] == node_key(
                        t[i],
                    )[z] by {
                        if z > 0 {
                            assert(x.take(j)[z - 1] == y.take(j)[z - 1]);
                        }
                    }
                    lemma_first_difference_decides(s, t, i, j + 1);
                }
            },
            (KindView::String(k), ValueView::String(x), ValueView::String(y)) => {
                if x.len() < y.len() {
                    lemma_first_difference_decides(s, t, i, 0);
                }
                if x.len() == y.len() && 0 <= j < x.len() && x.take(j) == y.take(j) && 0
                    <= shrink_position(k.alphabet, x[j] as int) < shrink_position(
                    k.alphabet,
                    y[j] as int,
                ) {
                    assert forall|z: int| 0 <= z < j + 1 implies node_key(s[i])[z] == node_key(
                        t[i],
                    )[z] by {
                        if z > 0 {
                            assert(x.take(j)[z - 1] == y.take(j)[z - 1]);
                        }
                    }
                    lemma_first_difference_decides(s, t, i, j + 1);
                }
            },
            (KindView::Float(_), ValueView::Float(x), ValueView::Float(y)) => {
                if x.order < y.order {
                    lemma_first_difference_decides(s, t, i, 0);
                }
            },
            _ => {},
        }
    }
}

/// What stands in for a value that does not fit is the simplest but one: for an integer
/// the next one above the simplest, or the one below where there is none above; for a
/// byte string one zero where it may be empty, and else as few bytes as it may have, all
/// zeros but the last, which is one; for a boolean `true`, where that may come out. Where
/// there is only one value, it is that.
pub proof fn lemma_values_that_stand_in(
    integer: &IntegerChoice,
    n: BigInt,
    boolean: &BooleanChoice,
    b: bool,
    bytes: &BytesChoice,
    v: Vec<u8>,
    i: int,
)
    requires
        call_ensures(IntegerChoice::unit, (integer,), n),
        call_ensures(BooleanChoice::unit, (boolean,), b),
        call_ensures(BytesChoice::unit, (bytes,), v),
        integer.min_value@ <= integer.max_value@,
        boolean.p.numerator <= 0x20_0000_0000_0000,
        bytes.min_size <= bytes.max_size,
    ensures
        ({
            let goal = nearest_in(
                integer.shrink_towards@,
                integer.min_value@,
                integer.max_value@,
            );
            &&& goal < integer.max_value@ ==> n@ == goal + 1
            &&& integer.min_value@ < goal == integer.max_value@ ==> n@ == goal - 1
            &&& integer.min_value@ == integer.max_value@ ==> n@ == goal
        }),
        b <==> boolean.p.numerator > 0,
        bytes.max_size == 0 ==> v@.len() == 0,
        bytes.min_size == 0 && bytes.max_size > 0 ==> v@ == seq![0u8],
        bytes.min_size > 0 ==> v@.len() == bytes.min_size && v@.last() == 1,
        0 <= i < v@.len() - 1 ==> v@[i] == 0,
{
}

/// A span is trivial where each of its choices was forced or has the simplest value of
/// its kind, as far as each kind has one.
pub proof fn lemma_trivial_spans(
    spans: &Spans,
    at: usize,
    nodes: &[ChoiceNode],
    i: int,
    r: Result<bool, InternalError>,
)
    requires
        call_ensures(Spans::trivial, (spans, at, nodes), r),
        at < spans@.len(),
        spans@[at as int].start <= spans@[at as int].end <= nodes@.len(),
    ensures
        r == Ok::<bool, InternalError>(true) && spans@[at as int].start <= i < spans@[at as int].end
            ==> nodes@[i]@.was_forced || simplest_of(nodes@[i]@.kind) == Some(nodes@[i]@.value),
        r == Ok::<bool, InternalError>(false) ==> exists|j: int|
            {
                &&& spans@[at as int].start <= j < spans@[at as int].end
                &&& !(#[trigger] nodes@[j])@.was_forced
                &&& simplest_of(nodes@[j]@.kind) != Some(nodes@[j]@.value)
            },
        r is Err ==> exists|j: int|
            spans@[at as int].start <= j < spans@[at as int].end && simplest_of(
                (#[trigger] nodes@[j])@.kind,
            ) is None,
{
    let span = spans@[at as int];
    let views = nodes_view(nodes@);
    let inside = covered(span, views);
    let k = trivial_prefix(inside) as int;
    lemma_prefix_is_trivial(inside);
    assert forall|j: int| 0 <= j < inside.len() implies #[trigger] inside[j] == nodes@[span.start
        + j]@ by {}
    if r == Ok::<bool, InternalError>(true) && span.start <= i < span.end {
        assert(is_trivial_node(inside[i - span.start]));
    }
    if r != Ok::<bool, InternalError>(true) {
        assert(!is_trivial_node(inside[k]));
        assert(inside[k] == nodes@[span.start + k]@);
    }
}

/// What lies before the first choice that is not trivial is.
proof fn lemma_prefix_is_trivial(s: Seq<NodeView>)
    ensures
        trivial_prefix(s) <= s.len(),
        forall|i: int| 0 <= i < trivial_prefix(s) ==> is_trivial_node(#[trigger] s[i]),
        trivial_prefix(s) < s.len() ==> !is_trivial_node(s[trivial_prefix(s) as int]),
    decreases s.len(),
{
    if s.len() > 0 && is_trivial_node(s[0]) {
        lemma_prefix_is_trivial(s.skip(1));
        assert forall|i: int| 0 <= i < trivial_prefix(s) implies is_trivial_node(#[trigger] s[i]) by {
            if i > 0 {
                assert(s.skip(1)[i - 1] == s[i]);
            }
        }
    }
}

/// A draw is within the budget while fewer draws were made than it allows, and is
/// counted.
pub proof fn lemma_draws_are_counted(before: FamilyCore, after: FamilyCore, r: bool)
    requires
        exists|m: &mut FamilyCore| #[trigger]
            call_ensures(FamilyCore::try_take_draw, (m,), r) && *m == before && *final(m) == after,
        before.total_draws < usize::MAX,
    ensures
        r <==> before.total_draws < before.budget,
        after.total_draws == before.total_draws + 1,
        after.budget == before.budget,
        after.conclusion == before.conclusion,
{
}

/// A choice that is given another value keeps its kind and whether it was forced. An
/// integer is given one exactly where it lies in its range, and a byte string where its
/// length is allowed.
pub proof fn lemma_choices_are_given_values(
    node: &ChoiceNode,
    v: &ChoiceValue,
    r: Option<ChoiceNode>,
    s: Result<ChoiceNode, InternalError>,
)
    requires
        call_ensures(ChoiceNode::with_value, (node, v), r),
        call_ensures(ChoiceNode::with_simplest, (node,), s),
    ensures
        r is Some ==> r->Some_0@.value == v@ && r->Some_0@.kind == node@.kind
            && r->Some_0@.was_forced == node@.was_forced,
        s is Ok ==> s->Ok_0@.kind == node@.kind && s->Ok_0@.was_forced == node@.was_forced,
        node@.kind is Integer && v@ is Integer ==> (r is Some
            <==> node@.kind->Integer_0.min <= v@->Integer_0 <= node@.kind->Integer_0.max),
        node@.kind is Bytes && v@ is Bytes ==> (r is Some <==> node@.kind->Bytes_0.min_size
            <= v@->Bytes_0.len() <= node@.kind->Bytes_0.max_size),
        node@.kind is Integer && !(v@ is Integer) ==> r is None,
        node@.kind is Integer && node@.kind->Integer_0.min <= node@.kind->Integer_0.max ==> s is Ok
            && s->Ok_0@.value == ValueView::Integer(
            nearest_in(
                node@.kind->Integer_0.towards,
                node@.kind->Integer_0.min,
                node@.kind->Integer_0.max,
            ),
        ),
        node@.kind is Boolean ==> s is Ok && s->Ok_0@.value == ValueView::Boolean(
            node@.kind->Boolean_0.p.numerator >= 0x20_0000_0000_0000,
        ),
{
}

/// An alphabet gives its codepoints by their place, in rising order, and in shrink order by
/// the place that each has there.
pub proof fn lemma_alphabets_give_codepoints_back(
    set: &IntervalSet,
    i: usize,
    j: usize,
    a: u32,
    b: u32,
    c: u32,
    has_a: bool,
    has_c: bool,
    place: usize,
)
    requires
        i < j < ranges_size(set@),
        call_ensures(IntervalSet::get, (set, i), a),
        call_ensures(IntervalSet::get, (set, j), b),
        call_ensures(IntervalSet::char_in_shrink_order, (set, i), c),
        call_ensures(IntervalSet::contains, (set, a), has_a),
        call_ensures(IntervalSet::contains, (set, c), has_c),
        call_ensures(IntervalSet::position_in_shrink_order, (set, c), place),
        forall|k: int| 0 <= k < set@.len() ==> (#[trigger] set@[k]).0 <= set@[k].1,
    ensures
        has_a && has_c,
        a < b,
        place == i,
{
    if b <= a {
        lemma_counts_ascend(set@, b as int, a as int);
    }
}

} // verus!
