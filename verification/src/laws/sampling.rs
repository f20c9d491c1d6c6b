//! Sampling: which numbers are favoured, and that every number can come out.
use crate::bignum::bytes_value;
use crate::bignum::BigInt;
use crate::bignum::BigUint;
use crate::choices::BytesChoice;
use crate::choices::PROBABILITY_ONE;
use crate::choices::Probability;
use crate::choices::StringChoice;
use crate::errors::InternalError;
use crate::integer_constants::factorial;
use crate::integer_constants::global_constants_integers;
use crate::integer_constants::interesting_integers;
use crate::integer_constants::is_large_base;
use crate::integer_constants::is_large_constant;
use crate::intervalsets::ranges_contain;
use crate::intervalsets::ranges_size;
use crate::intervalsets::shrink_position;
use crate::intervalsets::IntervalSet;
use crate::rng::EngineRng;
use crate::rng::UNIT_STEPS;
use crate::sampling::after_attempts;
use crate::sampling::at_most_draw;
use crate::sampling::at_most_outcome;
use crate::sampling::big_draw;
use crate::sampling::biguint_candidate;
use crate::sampling::byte_numbers;
use crate::sampling::endpoint_values;
use crate::sampling::endpoints;
use crate::sampling::least;
use crate::sampling::narrow_draw;
use crate::sampling::nasty_threshold;
use crate::sampling::picked;
use crate::sampling::select_category;
use crate::sampling::spread;
use crate::sampling::wide_draw;
use crate::sampling::window;
use crate::sampling::Distributions;
use crate::sampling::IntegerCategory;
use crate::sampling::IntegerGenerationParameters;
use crate::sampling::Sampler;
use crate::sequence_sampling::bounded_length;
use crate::sequence_sampling::bytes_candidates;
use crate::sequence_sampling::bytes_drawn;
use crate::sequence_sampling::codepoints_drawn;
use crate::sequence_sampling::position_drawn;
use crate::sequence_sampling::string_candidates_of;
use crate::sequence_sampling::string_drawn;
use crate::sequence_sampling::HEAD_SIZE;
use crate::sequence_sampling::TAIL_SHARE;
use vstd::arithmetic::power::pow;
use vstd::arithmetic::power2::lemma2_to64;
use vstd::arithmetic::power2::pow2;
use vstd::prelude::*;

verus! {

/// The magnitude of a number.
pub open spec fn size_of_integer(v: int) -> int {
    if v < 0 {
        -v
    } else {
        v
    }
}

/// Whether a number is a power of two up to the thirteenth, or one less, of either sign.
pub open spec fn is_at_small_power(v: int) -> bool {
    exists|k: nat| 3 <= k <= 13 && (size_of_integer(v) == #[trigger] pow2(k) || size_of_integer(v)
        == pow2(k) - 1)
}

/// The small powers of two, one by one.
proof fn lemma_small_powers(v: int)
    ensures
        is_at_small_power(v) <==> {
            let n = size_of_integer(v);
            ||| n == 7 || n == 8 || n == 15 || n == 16 || n == 31 || n == 32 || n == 63 || n == 64
            ||| n == 127 || n == 128 || n == 255 || n == 256 || n == 511 || n == 512
            ||| n == 1023 || n == 1024 || n == 2047 || n == 2048 || n == 4095 || n == 4096
            ||| n == 8191 || n == 8192
        },
{
    lemma2_to64();
    let n = size_of_integer(v);
    if is_at_small_power(v) {
        let k = choose|k: nat|
            3 <= k <= 13 && (size_of_integer(v) == #[trigger] pow2(k) || size_of_integer(v) == pow2(
                k,
            ) - 1);
        assert(k == 3 || k == 4 || k == 5 || k == 6 || k == 7 || k == 8 || k == 9 || k == 10 || k
            == 11 || k == 12 || k == 13);
    }
    assert(pow2(3) == 8 && pow2(4) == 16 && pow2(5) == 32 && pow2(6) == 64 && pow2(7) == 128
        && pow2(8) == 256 && pow2(9) == 512 && pow2(10) == 1024 && pow2(11) == 2048 && pow2(12)
        == 4096 && pow2(13) == 8192);
}

/// The interesting numbers are those up to eight, the powers of two up to the thirteenth
/// and the numbers one below them, of either sign, and the limits of the signed machine
/// types. They come in order, each once.
pub proof fn lemma_interesting_numbers(r: Vec<i128>, v: i128, i: int, j: int)
    requires
        call_ensures(interesting_integers, (), r),
    ensures
        r@.contains(v) <==> {
            ||| -8 <= v <= 8
            ||| is_at_small_power(v as int)
            ||| v == 0x7fff || v == -0x8000 || v == 0x7fff_ffff || v == -0x8000_0000
            ||| v == 0x7fff_ffff_ffff_ffff || v == -0x8000_0000_0000_0000
        },
        0 <= i < j < r@.len() ==> r@[i] < r@[j],
{
    lemma_small_powers(v as int);
}

/// The large constants hold, of either sign, each power of two from the sixteenth to the
/// sixty-fifth, each power of ten from the fifth to the nineteenth, each factorial from
/// that of nine to that of twenty, and what lies next to them. They come in order, each
/// once.
pub proof fn lemma_large_constants(r: Vec<i128>, n: nat, v: int, i: int, j: int)
    requires
        call_ensures(global_constants_integers, (), r),
        i128::MIN <= v <= i128::MAX,
        ({
            let m = size_of_integer(v);
            ||| 16 <= n <= 65 && -1 <= m - pow2(n) <= 1
            ||| 5 <= n <= 19 && -1 <= m - pow(10, n) <= 1
            ||| 9 <= n <= 20 && -1 <= m - factorial(n) <= 1
        }),
    ensures
        r@.contains(v as i128),
        0 <= i < j < r@.len() ==> r@[i] < r@[j],
{
    let m = size_of_integer(v);
    if 16 <= n <= 65 && -1 <= m - pow2(n) <= 1 {
        assert(is_large_base(pow2(n) as int));
    } else if 5 <= n <= 19 && -1 <= m - pow(10, n) <= 1 {
        assert(is_large_base(pow(10, n)));
    } else {
        assert(is_large_base(factorial(n) as int));
    }
    assert(is_large_constant(v));
    assert(r@.contains(v as i128) <==> is_large_constant(v as i128 as int));
}

/// The end points of a range are its ends and what lies next to them within it, each
/// once.
pub proof fn lemma_end_points(min: i128, max: i128, r: Vec<i128>, v: i128)
    requires
        call_ensures(endpoints, (min, max), r),
        min <= max,
    ensures
        r@.contains(v) <==> min <= v <= max && (v == min || v == max || v == min + 1 || v == max - 1),
        r@.no_duplicates(),
{
    let w = r@.map_values(|v: i128| v as int);
    let e = endpoint_values(min as int, max as int);
    assert(w == e);
    assert forall|i: int| 0 <= i < r@.len() implies #[trigger] r@[i] == e[i] by {
        assert(w[i] == r@[i]);
    }
    assert(r@.len() == e.len());
    if r@.contains(v) {
        let i = choose|i: int| 0 <= i < r@.len() && r@[i] == v;
        assert(e[i] == v);
    }
    if min <= v <= max && (v == min || v == max || v == min + 1 || v == max - 1) {
        assert(e.contains(v as int)) by {
            if v == min {
                assert(e[0] == v);
            } else if v == max {
                assert(e[1] == v);
            } else if v == min + 1 {
                assert(e[2] == v);
            } else {
                assert(e[3] == v);
            }
        }
        let i = choose|i: int| 0 <= i < e.len() && e[i] == v;
        assert(r@[i] == v);
    }
    assert forall|i: int, j: int| 0 <= i < r@.len() && 0 <= j < r@.len() && i != j implies r@[i]
        != r@[j] by {
        assert(r@[i] == e[i] && r@[j] == e[j]);
    }
}

/// The categories share the numbers below two to the fifty-third by their weights, in
/// this order: end points, interesting numbers, large constants, and what is left. A
/// category without members leaves its share to those that follow.
pub proof fn lemma_categories_share_by_weight(
    u: u64,
    w: IntegerGenerationParameters,
    has_interesting: bool,
    has_diffuse: bool,
    r: IntegerCategory,
)
    requires
        call_ensures(select_category, (u, w, has_interesting, has_diffuse), r),
    ensures
        r is Endpoint <==> u < w.endpoint.numerator,
        r is Interesting <==> has_interesting && w.endpoint.numerator <= u
            < w.endpoint.numerator + w.interesting.numerator,
        r is Diffuse <==> {
            &&& has_diffuse
            &&& w.endpoint.numerator + if has_interesting {
                w.interesting.numerator as int
            } else {
                0
            } <= u
            &&& u < w.endpoint.numerator + w.interesting.numerator + w.diffuse.numerator
        },
        u >= w.endpoint.numerator + w.interesting.numerator + w.diffuse.numerator ==> r is Middle,
{
}

/// Favoured numbers come as often as there are of them times the chance of each, but in
/// no more than half of all cases.
pub proof fn lemma_favours_are_limited(count: usize, boundary: Probability, r: u64)
    requires
        call_ensures(nasty_threshold, (count, boundary), r),
    ensures
        2 * r <= 0x20_0000_0000_0000,
        count * boundary.numerator <= 0x10_0000_0000_0000 ==> r == count * boundary.numerator,
        count * boundary.numerator >= 0x10_0000_0000_0000 ==> r == 0x10_0000_0000_0000,
{
}

/// The part of a pool that lies in a range is all of it that does, in order.
pub proof fn lemma_windows_hold_what_lies_within(
    pool: &Vec<i128>,
    min: i128,
    max: i128,
    r: Vec<i128>,
    v: i128,
    i: int,
    j: int,
)
    requires
        call_ensures(window, (pool, min, max), r),
        forall|i: int, j: int| 0 <= i < j < pool@.len() ==> pool@[i] < pool@[j],
    ensures
        r@.contains(v) <==> pool@.contains(v) && min <= v <= max,
        0 <= i < j < r@.len() ==> r@[i] < r@[j],
{
}

/// An integer that is sampled lies in its range. In a wide range the first number that
/// is handed out decides where it comes from. Where that falls to the end points, the
/// integer is one of them. Where it falls to none of the favoured numbers and the laws of
/// chance do not tell the bounds apart, the integer is the next number that is handed
/// out, so that any integer of the range can come out.
pub proof fn lemma_sampled_integers<D: Distributions>(
    sampler: &Sampler<D>,
    min: i128,
    max: i128,
    before: EngineRng,
    after: EngineRng,
    params: IntegerGenerationParameters,
    r: Result<i128, InternalError>,
)
    requires
        exists|m: &mut EngineRng| #[trigger]
            call_ensures(Sampler::<D>::biased_i128_sample, (sampler, min, max, m, params), r) && *m
                == before && *final(m) == after,
        min <= max,
    ensures
        r is Ok,
        min <= r->Ok_0 <= max,
        min < max && max - min >= sampler.curated_min_width ==> {
            let n = before.handed().len() as int;
            let u = after.handed()[n];
            &&& after.handed().len() == n + 2
            &&& after.handed().take(n) == before.handed()
            &&& 0 <= u < 0x20_0000_0000_0000
            &&& u < params.endpoint.numerator ==> r->Ok_0 == min || r->Ok_0 == max || r->Ok_0 == min
                + 1 || r->Ok_0 == max - 1
            &&& u >= params.endpoint.numerator + params.interesting.numerator
                + params.diffuse.numerator && (forall|apart: bool| #[trigger]
                call_ensures(D::tells_apart, (&sampler.distributions, min, max), apart) ==> !apart)
                ==> r->Ok_0 == after.handed()[n + 1]
        },
{
    if min < max && max - min >= sampler.curated_min_width {
        let v = r->Ok_0 as int;
        let d = sampler.distributions;
        let a = before.handed();
        let b = after.handed();
        let (u, interesting, diffuse) = choose|u: int, interesting: Seq<int>, diffuse: Seq<int>|
            #[trigger]
            wide_draw(d, a, b, min as int, max as int, params, v, u, interesting, diffuse);
        let e = endpoint_values(min as int, max as int);
        let mid = a.push(u);
        assert(b.len() == a.len() + 2 && b[a.len() as int] == u && b.take(a.len() as int) =~= a) by {
            if picked(mid, b, e, v) {
                let i = choose|i: int| 0 <= i < e.len() && b == mid.push(i) && v == #[trigger] e[i];
                assert(b == mid.push(i));
            } else if picked(mid, b, interesting, v) {
                let i = choose|i: int|
                    0 <= i < interesting.len() && b == mid.push(i) && v == #[trigger] interesting[i];
                assert(b == mid.push(i));
            } else if picked(mid, b, diffuse, v) {
                let i = choose|i: int|
                    0 <= i < diffuse.len() && b == mid.push(i) && v == #[trigger] diffuse[i];
                assert(b == mid.push(i));
            } else {
                assert(spread(d, mid, b, min as int, max as int, v));
            }
        }
        if u < params.endpoint.numerator {
            let i = choose|i: int| 0 <= i < e.len() && b == mid.push(i) && v == #[trigger] e[i];
            assert(e[i] == v);
        }
    }
}

/// A length is as much above the smallest as is asked for, where that is not too much,
/// and else the largest.
pub proof fn lemma_lengths_are_bounded(min_size: usize, max_size: usize, extra: usize, r: usize)
    requires
        call_ensures(bounded_length, (min_size, max_size, extra), r),
        min_size <= max_size,
    ensures
        min_size <= r <= max_size,
        min_size + extra <= max_size ==> r == min_size + extra,
        min_size + extra > max_size ==> r == max_size,
{
}

/// A length that is sampled lies in its range, and is as much above the smallest as the
/// laws of chance make of the share that is handed out.
pub proof fn lemma_sampled_lengths<D: Distributions>(
    sampler: &Sampler<D>,
    before: EngineRng,
    after: EngineRng,
    min_size: usize,
    max_size: usize,
    r: Result<usize, InternalError>,
)
    requires
        exists|m: &mut EngineRng| #[trigger]
            call_ensures(Sampler::<D>::many_draw_length, (sampler, m, min_size, max_size), r) && *m
                == before && *final(m) == after,
        min_size <= max_size,
    ensures
        r is Ok && min_size <= r->Ok_0 <= max_size,
        min_size < max_size ==> exists|share: u64, extra: usize|
            {
                &&& #[trigger] call_ensures(
                    D::extra_length,
                    (&sampler.distributions, min_size, max_size, share),
                    extra,
                )
                &&& after.handed() == before.handed().push(share as int)
                &&& min_size + extra <= max_size ==> r->Ok_0 == min_size + extra
                &&& min_size + extra > max_size ==> r->Ok_0 == max_size
            },
{
}

/// A byte string that is sampled has one of its lengths. The first number that is handed
/// out decides whether it is one of those that are favoured: its simplest one, a single
/// zero or a single byte of ones. Otherwise its bytes are the last numbers that are
/// handed out, so that any byte can come out at any place.
pub proof fn lemma_sampled_byte_strings<D: Distributions>(
    sampler: &Sampler<D>,
    kind: &BytesChoice,
    before: EngineRng,
    after: EngineRng,
    r: Result<Vec<u8>, InternalError>,
)
    requires
        exists|m: &mut EngineRng| #[trigger]
            call_ensures(Sampler::<D>::biased_bytes_sample, (sampler, kind, m), r) && *m == before
                && *final(m) == after,
        kind.min_size <= kind.max_size,
    ensures
        r is Ok,
        kind.min_size <= r->Ok_0@.len() <= kind.max_size,
        exists|u: int|
            {
                let b = r->Ok_0@;
                let handed = after.handed();
                &&& 0 <= u < 0x20_0000_0000_0000
                &&& handed.len() > before.handed().len()
                &&& handed.take(before.handed().len() as int + 1) == #[trigger]
                    before.handed().push(u)
                &&& u >= 3 * sampler.boundary.numerator ==> handed.len() >= b.len() && forall|
                    i: int,
                |
                    0 <= i < b.len() ==> #[trigger] b[i] == handed[handed.len() - b.len() + i]
                &&& u < sampler.boundary.numerator ==> b == seq![0u8] || b == seq![0xffu8] || (
                b.len() == kind.min_size && forall|i: int| 0 <= i < b.len() ==> #[trigger] b[i] == 0)
            },
{
    let b = r->Ok_0@;
    let a = before.handed();
    let handed = after.handed();
    let (u, middle) = choose|u: int, middle: Seq<int>| #[trigger]
        bytes_drawn(sampler.distributions, *kind, sampler.boundary, a, middle, handed, u, b);
    let favoured = bytes_candidates(*kind);
    assert(1 <= favoured.len() <= 3);
    let p = sampler.boundary.numerator as int;
    assert(p <= favoured.len() * p <= 3 * p) by (nonlinear_arith)
        requires
            1 <= favoured.len() <= 3,
            p >= 0,
    ;
    let start = a.push(u);
    if u < favoured.len() * p {
        let i = choose|i: int|
            0 <= i < favoured.len() && b == #[trigger] favoured[i] && handed == a.push(u).push(i);
        assert(handed.take(a.len() as int + 1) =~= start);
        assert(b == seq![0u8] || b == seq![0xffu8] || (b.len() == kind.min_size && forall|j: int|
            0 <= j < b.len() ==> #[trigger] b[j] == 0));
    } else {
        assert(middle == start || exists|share: u64| middle == #[trigger] start.push(share as int))
            by {
            if kind.min_size != kind.max_size {
                let (share, extra) = choose|share: u64, extra: usize|
                    {
                        &&& #[trigger] call_ensures(
                            D::extra_length,
                            (
                                &sampler.distributions,
                                kind.min_size as int as usize,
                                kind.max_size as int as usize,
                                share,
                            ),
                            extra,
                        )
                        &&& share < UNIT_STEPS
                        &&& middle == start.push(share as int)
                        &&& b.len() == least(kind.min_size + extra, kind.max_size as int)
                    };
                assert(middle == start.push(share as int));
            }
        }
        assert(handed.take(a.len() as int + 1) =~= start);
        assert forall|i: int| 0 <= i < b.len() implies #[trigger] b[i] == handed[handed.len()
            - b.len() + i] by {
            assert(byte_numbers(b)[i] == b[i]);
            assert(handed[middle.len() + i] == byte_numbers(b)[i]);
        }
    }
    assert(start == before.handed().push(u));
}

/// A text that is sampled has one of its lengths, and is written in the alphabet.
pub proof fn lemma_sampled_texts<D: Distributions>(
    sampler: &Sampler<D>,
    kind: StringChoice,
    before: EngineRng,
    i: int,
    r: Result<Vec<u32>, InternalError>,
)
    requires
        exists|k: &mut StringChoice, m: &mut EngineRng| #[trigger]
            call_ensures(Sampler::<D>::biased_string_sample, (sampler, k, m), r) && *k == kind && *m
                == before,
        kind.min_size <= kind.max_size,
        kind.intervals.wf(),
        ranges_size(kind.intervals@) > 0,
    ensures
        r is Ok,
        kind.min_size <= r->Ok_0@.len() <= kind.max_size,
        0 <= i < r->Ok_0@.len() ==> exists|j: int|
            0 <= j < kind.intervals@.len() && (#[trigger] kind.intervals@[j]).0 <= r->Ok_0@[i]
                <= kind.intervals@[j].1,
{
    if 0 <= i < r->Ok_0@.len() {
        assert(ranges_contain(kind.intervals@, r->Ok_0@[i] as int));
    }
}

/// The numbers that were handed out for some codepoints begin with those for the first of
/// them, one or two for each.
proof fn lemma_marks_are_extended(
    alphabet: Seq<(u32, u32)>,
    marks: Seq<Seq<int>>,
    few: Seq<u32>,
    stride: int,
    m: int,
    n: int,
)
    requires
        codepoints_drawn(alphabet, marks, few),
        stride == if ranges_size(alphabet) > 256 {
            2int
        } else {
            1
        },
        0 <= m <= n <= few.len(),
    ensures
        marks[n].len() == marks[m].len() + stride * (n - m),
        forall|i: int| 0 <= i < marks[m].len() ==> #[trigger] marks[n][i] == marks[m][i],
    decreases n - m,
{
    if m < n {
        lemma_marks_are_extended(alphabet, marks, few, stride, m, n - 1);
        let cp = few[n - 1];
        assert(position_drawn(
            ranges_size(alphabet) as int,
            marks[n - 1],
            marks[n],
            shrink_position(alphabet, cp as int),
        ));
        assert(stride * (n - m) == stride * (n - 1 - m) + stride) by (nonlinear_arith);
    } else {
        assert(stride * (n - m) == 0) by (nonlinear_arith)
            requires
                n == m,
        ;
    }
}

/// A text that is sampled is spelled in up to ten codepoints. Where the first number that
/// is handed out lies beyond half of them, the next says how many codepoints there are, and
/// those after it which, by their places in shrink order. In an alphabet of more than two
/// hundred and fifty-six codepoints, each comes from beyond the first two hundred and
/// fifty-six of them one time in five, as the number before its place says. The last
/// numbers say which of the codepoints comes at each place of the text.
pub proof fn lemma_sampled_texts_are_spelled<D: Distributions>(
    sampler: &Sampler<D>,
    kind: StringChoice,
    before: EngineRng,
    after: EngineRng,
    r: Result<Vec<u32>, InternalError>,
    size: usize,
    i: int,
    place: usize,
)
    requires
        exists|k: &mut StringChoice, m: &mut EngineRng| #[trigger]
            call_ensures(Sampler::<D>::biased_string_sample, (sampler, k, m), r) && *k == kind && *m
                == before && *final(m) == after,
        kind.min_size <= kind.max_size,
        kind.intervals.wf(),
        call_ensures(IntervalSet::len, (&kind.intervals,), size),
        size > 0,
        0 <= i < r->Ok_0@.len(),
        call_ensures(IntervalSet::position_in_shrink_order, (&kind.intervals, r->Ok_0@[i]), place),
        after.handed()[before.handed().len() as int] >= 0x10_0000_0000_0000,
    ensures
        ({
            let b = before.handed().len() as int;
            let h = after.handed();
            let n = r->Ok_0@.len() as int;
            let few = h[b + 1];
            let which = h[h.len() - n + i];
            &&& 1 <= few <= 10
            &&& few <= size
            &&& h.len() > b + 1
            &&& 0 <= which < few
            &&& size <= 256 ==> place == h[b + 2 + which]
            &&& size > 256 ==> place == h[b + 2 + 2 * which + 1]
            &&& size > 256 ==> (place >= 256 <==> 5 * h[b + 2 + 2 * which] < 0x20_0000_0000_0000)
        }),
{
    let text = r->Ok_0@;
    let a = before.handed();
    let h = after.handed();
    let k = kind@;
    assert(size == ranges_size(k.alphabet));
    let (u, few, marks, middle, indices) = choose|
        u: int,
        few: Seq<u32>,
        marks: Seq<Seq<int>>,
        middle: Seq<int>,
        indices: Seq<int>,
    | #[trigger]
        string_drawn(
            sampler.distributions,
            k,
            sampler.boundary,
            a,
            h,
            text,
            u,
            few,
            marks,
            middle,
            indices,
        );
    let favoured = string_candidates_of(k);
    let limit = least(favoured.len() * sampler.boundary.numerator, PROBABILITY_ONE as int / 2);
    assert(limit <= 0x10_0000_0000_0000);
    if u < limit {
        let j = choose|j: int|
            0 <= j < favoured.len() && text == #[trigger] favoured[j] && h == a.push(u).push(j);
        assert(h[a.len() as int] == u);
        assert(false);
    }
    let stride: int = if size > 256 {
        2
    } else {
        1
    };
    let c = few.len() as int;
    assert(marks[0] == a.push(u).push(c));
    lemma_marks_are_extended(k.alphabet, marks, few, stride, 0, c);
    assert(marks.last() == marks[c]);
    assert(middle == marks.last() || exists|share: u64| middle == #[trigger] marks.last().push(
        share as int,
    )) by {
        if kind.min_size != kind.max_size {
            let (share, extra) = choose|share: u64, extra: usize|
                {
                    &&& #[trigger] call_ensures(
                        D::extra_length,
                        (
                            &sampler.distributions,
                            k.min_size as int as usize,
                            k.max_size as int as usize,
                            share,
                        ),
                        extra,
                    )
                    &&& share < UNIT_STEPS
                    &&& middle == marks.last().push(share as int)
                    &&& text.len() == least(k.min_size + extra, k.max_size as int)
                };
            assert(middle == marks.last().push(share as int));
        }
    }
    assert(stride * (c - 0) >= c) by (nonlinear_arith)
        requires
            stride >= 1,
            c >= 0,
    ;
    assert forall|j: int| 0 <= j < marks[c].len() implies #[trigger] h[j] == marks[c][j] by {
        assert(h[j] == middle[j]);
    }
    let b = a.len() as int;
    assert(marks[0][b + 1] == c);
    assert(marks[c][b + 1] == marks[0][b + 1]);
    assert(h[b + 1] == c);
    let which = indices[i];
    assert(text[i] == few[which]);
    assert(h[h.len() - text.len() + i] == which);
    lemma_marks_are_extended(k.alphabet, marks, few, stride, 0, which);
    lemma_marks_are_extended(k.alphabet, marks, few, stride, which, c);
    lemma_marks_are_extended(k.alphabet, marks, few, stride, which + 1, c);
    lemma_marks_are_extended(k.alphabet, marks, few, stride, which, which + 1);
    let pos = shrink_position(k.alphabet, few[which] as int);
    assert(position_drawn(size as int, marks[which], marks[which + 1], pos));
    assert(marks[which].len() == b + 2 + stride * which);
    assert(place == pos);
    let at = marks[which].len() as int;
    assert(stride * (which - 0) + stride <= stride * (c - 0)) by (nonlinear_arith)
        requires
            which + 1 <= c,
            stride >= 1,
    ;
    if size > 256 {
        let share = choose|share: int|
            marks[which + 1] == #[trigger] marks[which].push(share).push(pos as int) && (share
                < TAIL_SHARE <==> pos >= HEAD_SIZE);
        assert(marks[which + 1][at] == share);
        assert(marks[which + 1][at + 1] == pos);
        assert(marks[c][at] == share);
        assert(marks[c][at + 1] == pos);
        assert(h[at] == share && h[at + 1] == pos);
    } else {
        assert(marks[which + 1][at] == pos);
        assert(marks[c][at] == pos);
        assert(h[at] == pos);
    }
}

/// In a narrow range an integer is one of those that are favoured, or one that the laws of
/// chance pick. The ends of the range, and the interesting numbers and large constants in
/// it, are favoured, as often as there are of them times the chance of each. Beyond half of
/// the numbers that are handed out none is favoured, so that any integer can come out.
pub proof fn lemma_sampled_integers_of_narrow_ranges<D: Distributions>(
    sampler: &Sampler<D>,
    min: i128,
    max: i128,
    before: EngineRng,
    after: EngineRng,
    r: Result<i128, InternalError>,
)
    requires
        exists|m: &mut EngineRng| #[trigger]
            call_ensures(Sampler::<D>::narrow_nasty_sample, (sampler, min, max, m), r) && *m
                == before && *final(m) == after,
        min < max,
    ensures
        r is Ok && min <= r->Ok_0 <= max,
        exists|u: int, list: Seq<int>|
            {
                let n = before.handed().len() as int;
                &&& (#[trigger] list.no_duplicates())
                &&& list.contains(min as int) && list.contains(max as int)
                &&& forall|c: int|
                    -8 <= c <= 8 && min <= c <= max ==> #[trigger] list.contains(c)
                &&& forall|n: nat|
                    16 <= n <= 65 && min <= #[trigger] pow2(n) <= max ==> list.contains(
                        pow2(n) as int,
                    )
                &&& after.handed().len() == n + 2
                &&& (#[trigger] before.handed().push(u)) == after.handed().take(n + 1)
                &&& 0 <= u < 0x20_0000_0000_0000
                &&& u < 0x10_0000_0000_0000 && u < list.len() * sampler.boundary.numerator
                    ==> list.contains(r->Ok_0 as int) && 0 <= after.handed()[n + 1] < list.len()
                    && list[after.handed()[n + 1]] == r->Ok_0
                &&& (u >= 0x10_0000_0000_0000 || u >= list.len() * sampler.boundary.numerator) && (
                forall|apart: bool| #[trigger]
                    call_ensures(D::tells_apart, (&sampler.distributions, min, max), apart)
                        ==> !apart) ==> r->Ok_0 == after.handed()[n + 1]
            },
{
    let a = before.handed();
    let b = after.handed();
    let v = r->Ok_0 as int;
    let (u, list) = choose|u: int, list: Seq<int>| #[trigger]
        narrow_draw(
            sampler.distributions,
            a,
            b,
            sampler.boundary,
            min as int,
            max as int,
            v,
            u,
            list,
        );
    let start = a.push(u);
    assert(list.no_duplicates());
    assert(list.contains(min as int) && list.contains(max as int));
    assert forall|n: nat| 16 <= n <= 65 && min <= #[trigger] pow2(n) <= max implies list.contains(
        pow2(n) as int,
    ) by {
        assert(is_large_base(pow2(n) as int));
    }
    if u < least(list.len() * sampler.boundary.numerator, PROBABILITY_ONE as int / 2) {
        let i = choose|i: int| 0 <= i < list.len() && b == start.push(i) && v == #[trigger] list[i];
        assert(list.contains(list[i]));
        assert(b.take(a.len() as int + 1) =~= start);
    } else {
        assert(spread(sampler.distributions, start, b, min as int, max as int, v));
        assert(b.take(a.len() as int + 1) =~= start);
    }
    assert(start == before.handed().push(u));
}

/// An integer of a range beyond the machine's lies in it, and any can come out: where the
/// first number that is handed out falls to no favoured ones, it lies as far above the
/// smallest as the bytes that are handed out last say, as many bits of them as the range
/// needs, and bytes that say too much are passed over.
pub proof fn lemma_sampled_integers_of_great_ranges<D: Distributions>(
    sampler: &Sampler<D>,
    min: &BigInt,
    max: &BigInt,
    before: EngineRng,
    after: EngineRng,
    params: IntegerGenerationParameters,
    r: BigInt,
)
    requires
        exists|m: &mut EngineRng| #[trigger]
            call_ensures(
                Sampler::<D>::biguint_sample_in_range,
                (sampler, min, max, m, params),
                r,
            ) && *m == before && *final(m) == after,
        min@ < max@,
    ensures
        min@ <= r@ <= max@,
        exists|u: int|
            {
                &&& 0 <= u < 0x20_0000_0000_0000
                &&& (#[trigger] before.handed().push(u)).len() <= after.handed().len()
                &&& u < params.endpoint.numerator ==> r@ == min@ || r@ == max@ || r@ == min@ + 1
                    || r@ == max@ - 1
                &&& u >= params.endpoint.numerator + params.interesting.numerator
                    + params.diffuse.numerator ==> at_most_outcome(
                    before.handed().push(u),
                    after.handed(),
                    (max@ - min@) as nat,
                    r@ - min@,
                )
            },
{
    let a = before.handed();
    let b = after.handed();
    let (u, interesting, diffuse) = choose|u: int, interesting: Seq<int>, diffuse: Seq<int>|
        #[trigger]
        big_draw(a, b, min@, max@, params, r@, u, interesting, diffuse);
    let start = a.push(u);
    let e = endpoint_values(min@, max@);
    if u < params.endpoint.numerator {
        let i = choose|i: int| 0 <= i < e.len() && b == start.push(i) && r@ == #[trigger] e[i];
        assert(e[i] == r@);
    }
    assert(start.len() <= b.len()) by {
        if picked(start, b, e, r@) || picked(start, b, interesting, r@) || picked(
            start,
            b,
            diffuse,
            r@,
        ) {
        } else {
            let span = (max@ - min@) as nat;
            let attempts = choose|attempts: Seq<Seq<u8>>| #[trigger]
                at_most_draw(start, b, span, r@ - min@, attempts);
            lemma_attempts_add(start, attempts);
        }
    }
    assert(a.push(u).len() <= b.len());
}

/// Attempts only add to what was handed out.
proof fn lemma_attempts_add(before: Seq<int>, attempts: Seq<Seq<u8>>)
    ensures
        before.len() <= after_attempts(before, attempts).len(),
    decreases attempts.len(),
{
    if attempts.len() > 0 {
        lemma_attempts_add(before, attempts.drop_last());
    }
}

/// A number up to another one is what its bytes say, cut to as many bits as the other one
/// has, where that is not too much. Otherwise the bytes are passed over.
pub proof fn lemma_bytes_say_numbers(
    span: &BigUint,
    bits: usize,
    bytes: &[u8],
    r: Option<BigUint>,
)
    requires
        call_ensures(biguint_candidate, (span, bits, bytes), r),
    ensures
        ({
            let said = bytes_value(bytes@) % pow2(bits as nat);
            &&& r is Some <==> said <= span@
            &&& r is Some ==> r->Some_0@ == said
        }),
{
}

} // verus!
