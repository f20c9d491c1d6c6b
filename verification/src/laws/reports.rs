//! Reports on shrinking, tracked changes, and the weights of floating-point values.
use super::shrinking::are_alike;
use crate::choices::nodes_view;
use crate::choices::same_sort;
use crate::choices::ChoiceNode;
use crate::choices::NodeView;
use crate::float_weights::float_category_of;
use crate::float_weights::weight_before;
use crate::float_weights::FloatCategory;
use crate::float_weights::FloatGenerationParameters;
use crate::shrinker::report::list_passes;
use crate::shrinker::report::listed_before;
use crate::shrinker::report::listed_with;
use crate::shrinker::report::listing;
use crate::shrinker::report::PassStats;
use crate::shrinker::update_change_tracking;
use std::collections::HashSet;
use vstd::prelude::*;

verus! {

/// Whether a listing is in the order of the report.
pub open spec fn is_in_order(s: Seq<PassStats>) -> bool {
    forall|i: int, j: int| 0 <= i < j < s.len() ==> !listed_before(#[trigger] s[j], #[trigger] s[i])
}

/// Adding a pass keeps the order and adds nothing else.
proof fn lemma_listed_with_keeps_order(s: Seq<PassStats>, x: PassStats)
    requires
        is_in_order(s),
    ensures
        is_in_order(listed_with(s, x)),
        listed_with(s, x).len() == s.len() + 1,
        forall|p: PassStats| #[trigger] listed_with(s, x).contains(p) <==> s.contains(p) || p == x,
    decreases s.len(),
{
    let r = listed_with(s, x);
    if s.len() > 0 && listed_before(x, s.last()) {
        let front = listed_with(s.drop_last(), x);
        lemma_listed_with_keeps_order(s.drop_last(), x);
        assert(r == front.push(s.last()));
        assert forall|i: int, j: int| 0 <= i < j < r.len() implies !listed_before(
            #[trigger] r[j],
            #[trigger] r[i],
        ) by {
            if j < front.len() {
                assert(!listed_before(front[j], front[i]));
            } else {
                assert(front.contains(front[i]));
                if front[i] != x {
                    let k = choose|k: int| 0 <= k < s.drop_last().len() && s.drop_last()[k] == front[i];
                    assert(s[k] == front[i]);
                    assert(!listed_before(s[s.len() - 1], s[k]));
                }
            }
        }
        assert forall|p: PassStats| #[trigger] r.contains(p) <==> s.contains(p) || p == x by {
            if r.contains(p) {
                let k = choose|k: int| 0 <= k < r.len() && r[k] == p;
                if k < front.len() {
                    assert(front.contains(p));
                    if p != x {
                        let l = choose|l: int| 0 <= l < s.drop_last().len() && s.drop_last()[l] == p;
                        assert(s[l] == p);
                    }
                } else {
                    assert(s[s.len() - 1] == p);
                }
            }
            if s.contains(p) {
                let k = choose|k: int| 0 <= k < s.len() && s[k] == p;
                if k < s.len() - 1 {
                    assert(s.drop_last()[k] == p);
                    assert(front.contains(p));
                    let l = choose|l: int| 0 <= l < front.len() && front[l] == p;
                    assert(r[l] == p);
                } else {
                    assert(r[r.len() - 1] == p);
                }
            }
            if p == x {
                assert(front.contains(x));
                let l = choose|l: int| 0 <= l < front.len() && front[l] == x;
                assert(r[l] == x);
            }
        }
    } else {
        assert(r == s.push(x));
        assert forall|i: int, j: int| 0 <= i < j < r.len() implies !listed_before(
            #[trigger] r[j],
            #[trigger] r[i],
        ) by {
            if j == s.len() && i < s.len() - 1 {
                assert(!listed_before(s[s.len() - 1], s[i]));
            }
        }
        assert forall|p: PassStats| #[trigger] r.contains(p) <==> s.contains(p) || p == x by {
            if s.contains(p) {
                let k = choose|k: int| 0 <= k < s.len() && s[k] == p;
                assert(r[k] == p);
            }
            if p == x {
                assert(r[s.len() as int] == x);
            }
            if r.contains(p) && p != x {
                let k = choose|k: int| 0 <= k < r.len() && r[k] == p;
                assert(s[k] == p);
            }
        }
    }
}

/// A listing is in order and holds what it is to hold.
proof fn lemma_listing_is_complete(s: Seq<PassStats>, useful: bool)
    ensures
        is_in_order(listing(s, useful)),
        forall|p: PassStats| #[trigger]
            listing(s, useful).contains(p) <==> s.contains(p) && p.calls > 0 && (p.shrinks > 0)
                == useful,
    decreases s.len(),
{
    if s.len() > 0 {
        let front = s.drop_last();
        let x = s.last();
        lemma_listing_is_complete(front, useful);
        lemma_listed_with_keeps_order(listing(front, useful), x);
        assert forall|p: PassStats| #[trigger] listing(s, useful).contains(p) <==> s.contains(p)
            && p.calls > 0 && (p.shrinks > 0) == useful by {
            assert(s.contains(p) <==> front.contains(p) || p == x) by {
                if s.contains(p) {
                    let k = choose|k: int| 0 <= k < s.len() && s[k] == p;
                    if k < s.len() - 1 {
                        assert(front[k] == p);
                    }
                }
                if front.contains(p) {
                    let k = choose|k: int| 0 <= k < front.len() && front[k] == p;
                    assert(s[k] == p);
                }
                assert(s[s.len() - 1] == x);
            }
            assert(listing(front, useful).contains(p) <==> front.contains(p) && p.calls > 0 && (
            p.shrinks > 0) == useful);
        }
    }
}

/// A report lists exactly the passes that ran and brought an improvement, or those that
/// ran and brought none. Those that made more calls come first, and of these those that
/// removed fewer choices.
pub proof fn lemma_reports_list_what_ran(
    stats: &Vec<PassStats>,
    useful: bool,
    r: Vec<PassStats>,
    p: PassStats,
    i: int,
    j: int,
)
    requires
        call_ensures(list_passes, (stats, useful), r),
    ensures
        r@.contains(p) <==> stats@.contains(p) && p.calls > 0 && (p.shrinks > 0 <==> useful),
        0 <= i < j < r@.len() ==> {
            &&& r@[i].calls >= r@[j].calls
            &&& r@[i].calls == r@[j].calls ==> r@[i].deletions <= r@[j].deletions
            &&& r@[i].calls == r@[j].calls && r@[i].deletions == r@[j].deletions ==> r@[i].shrinks
                <= r@[j].shrinks
        },
{
    lemma_listing_is_complete(stats@, useful);
    if 0 <= i < j < r@.len() {
        assert(!listed_before(r@[j], r@[i]));
    }
}

/// The positions whose values differ are tracked, beside those that were, where the
/// choices are of the same sorts. Where they are not, nothing is tracked.
pub proof fn lemma_changes_are_tracked(
    prev: &[ChoiceNode],
    new: &[ChoiceNode],
    before: HashSet<usize>,
    after: HashSet<usize>,
    i: usize,
)
    requires
        exists|m: &mut HashSet<usize>| #[trigger]
            call_ensures(update_change_tracking, (prev, new, m), ()) && *m == before && *final(m)
                == after,
    ensures
        prev@.len() != new@.len() ==> after@ == Set::<usize>::empty(),
        prev@.len() == new@.len() && (forall|j: int|
            0 <= j < prev@.len() ==> have_same_sort((#[trigger] prev@[j])@, new@[j]@)) ==> (
        after@.contains(i) <==> before@.contains(i) || (i < new@.len() && prev@[i as int]@.value
            != new@[i as int]@.value)),
        prev@.len() == new@.len() && i < new@.len() && !have_same_sort(
            prev@[i as int]@,
            new@[i as int]@,
        ) ==> after@ == Set::<usize>::empty(),
{
    let a = nodes_view(prev@);
    let b = nodes_view(new@);
    assert(a.len() == prev@.len() && b.len() == new@.len());
    if prev@.len() == new@.len() {
        if forall|j: int| 0 <= j < prev@.len() ==> have_same_sort((#[trigger] prev@[j])@, new@[j]@) {
            assert forall|j: int| 0 <= j < a.len() implies same_sort(
                (#[trigger] a[j]).kind,
                b[j].kind,
            ) by {
                assert(have_same_sort(prev@[j]@, new@[j]@));
            }
        }
        if i < new@.len() {
            assert(a[i as int] == prev@[i as int]@);
            assert(b[i as int] == new@[i as int]@);
        }
    }
}

/// Whether two choices are of the same sort.
pub open spec fn have_same_sort(a: NodeView, b: NodeView) -> bool {
    are_alike(a, NodeView { value: a.value, ..b })
}

/// The categories of floating-point values share the numbers by their weights, in their
/// order: a larger number falls to no earlier category, no category but the last has more
/// numbers than its weight, and the first has all the numbers below its weight.
pub proof fn lemma_float_categories_share_by_weight(
    params: &FloatGenerationParameters,
    u: u64,
    v: u64,
    r: FloatCategory,
    s: FloatCategory,
)
    requires
        call_ensures(float_category_of, (u, params), r),
        call_ensures(float_category_of, (v, params), s),
        u <= v,
    ensures
        r.place() <= s.place(),
        r == s && !(r is Ordinary) ==> v - u < params.numbers()[r.place()],
        r is Endpoint <==> u < params.endpoint.numerator,
        r is NearZero <==> params.endpoint.numerator <= u < params.endpoint.numerator
            + params.near_zero.numerator,
{
    let w = params.numbers();
    reveal_with_fuel(weight_before, 3);
    if s.place() < r.place() {
        lemma_float_weights_ascend(w, s.place() + 1, r.place());
    }
    lemma_float_weights_ascend(w, 2, 16);
    if r.place() >= 2 {
        lemma_float_weights_ascend(w, 2, r.place());
    }
}

/// Sums of weights only grow.
proof fn lemma_float_weights_ascend(weights: Seq<u64>, m: int, n: int)
    requires
        0 <= m <= n,
    ensures
        0 <= weight_before(weights, m) <= weight_before(weights, n),
    decreases n,
{
    if n > 0 {
        if m < n {
            lemma_float_weights_ascend(weights, m, n - 1);
        } else {
            lemma_float_weights_ascend(weights, m - 1, n - 1);
        }
    }
}

} // verus!
