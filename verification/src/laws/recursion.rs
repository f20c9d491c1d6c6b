//! Recursive values: how likely their branches are, and what decides on them.
use super::entropy;
use super::has_room_for;
use super::is_random;
use super::lemma_one_choice_more;
use super::replays;
use crate::choices::IntegerKind;
use crate::choices::KindView;
use crate::choices::Probability;
use crate::choices::ValueView;
use crate::choices::PROBABILITY_ONE;
use crate::collections::fraction_of;
use crate::drawing::flipped;
use crate::draws::decided;
use crate::draws::uniformly;
use crate::errors::EngineError;
use crate::errors::InterestingOrigin;
use crate::errors::Status;
use crate::family::FamilyCore;
use crate::recursion::branch_price;
use crate::recursion::children;
use crate::recursion::lemma_decisions_follow_the_path;
use crate::recursion::new_recursion_state;
use crate::recursion::priced_budget;
use crate::recursion::recursion_branch;
use crate::recursion::recursion_branch_probability;
use crate::recursion::recursion_finish;
use crate::recursion::recursion_retry;
use crate::recursion::spans_above;
use crate::recursion::still_open;
use crate::recursion::unwound;
use crate::recursion::ProfileQuery;
use crate::recursion::RecursionProfile;
use crate::recursion::RecursionState;
use crate::recursion::LARGE_TARGET;
use crate::sampling::Distributions;
use crate::structure::closed_at;
use crate::structure::StructureView;
use crate::test_case::DataObserver;
use crate::test_case::NativeTestCase;
use vstd::arithmetic::div_mod::lemma_fundamental_div_mod;
use vstd::arithmetic::power2::lemma_pow2_pos;
use vstd::arithmetic::power2::pow2;
use vstd::prelude::*;

verus! {

/// Whether a branch is as likely as it can be when branches have `n / d` children and
/// values are to have at most `b` leaves on average, but at most ninety-five percent.
///
/// Where a branch has the probability `x` and `a` children, the average `l` of the
/// number of leaves satisfies `l == (1 - x) + x * a * l`.
pub open spec fn is_priced(p: int, n: int, d: int, b: int) -> bool {
    &&& 0 <= p
    &&& 20 * p <= 19 * 0x20_0000_0000_0000
    &&& (0x20_0000_0000_0000 - p) * d <= b * (0x20_0000_0000_0000 * d - p * n)
    &&& 20 * (p + 1) > 19 * 0x20_0000_0000_0000 || (0x20_0000_0000_0000 - (p + 1)) * d > b * (
    0x20_0000_0000_0000 * d - (p + 1) * n)
}

/// The larger of two numbers.
pub open spec fn larger_of(a: int, b: int) -> int {
    if a < b {
        b
    } else {
        a
    }
}

/// A price is as high as the budget and the cap allow.
proof fn lemma_price_is_right(n: int, d: int, budget: int)
    requires
        0 < d,
        d <= n,
    ensures
        is_priced(branch_price(n, d, budget), n, d, priced_budget(budget)),
        n <= d * 0x10_0000_0000_0000 ==> branch_price(n, d, budget) > 0,
{
    let b = priced_budget(budget);
    let top = (b - 1) * d * PROBABILITY_ONE;
    let under = b * n - d;
    assert(under > 0) by (nonlinear_arith)
        requires
            b >= 2,
            n >= d,
            d > 0,
            under == b * n - d,
    ;
    let q = fraction_of((b - 1) * d, under);
    lemma_fundamental_div_mod(top, under);
    assert(q == top / under);
    assert(under * q <= top);
    assert(top < under * (q + 1)) by (nonlinear_arith)
        requires
            top == under * q + top % under,
            top % under < under,
    ;
    assert(top >= 0) by (nonlinear_arith)
        requires
            b >= 2,
            d > 0,
            top == (b - 1) * d * 0x20_0000_0000_0000,
    ;
    assert(q >= 0) by (nonlinear_arith)
        requires
            top < under * (q + 1),
            top >= 0,
            under > 0,
    ;
    let p = branch_price(n, d, budget);
    let x = p;
    assert(b * (0x20_0000_0000_0000 * d - x * n) - (0x20_0000_0000_0000 - x) * d == (b - 1) * d
        * 0x20_0000_0000_0000 - (b * n - d) * x) by (nonlinear_arith);
    assert(b * (0x20_0000_0000_0000 * d - (x + 1) * n) - (0x20_0000_0000_0000 - (x + 1)) * d == (b
        - 1) * d * 0x20_0000_0000_0000 - (b * n - d) * (x + 1)) by (nonlinear_arith);
    assert(under * p <= under * q) by (nonlinear_arith)
        requires
            p <= q,
            under > 0,
    ;
    if n <= d * 0x10_0000_0000_0000 {
        assert(under <= top) by (nonlinear_arith)
            requires
                b >= 2,
                d > 0,
                n <= d * 0x10_0000_0000_0000,
                under == b * n - d,
                top == (b - 1) * d * 0x20_0000_0000_0000,
        ;
        assert(q >= 1) by (nonlinear_arith)
            requires
                top < under * (q + 1),
                under <= top,
                under > 0,
        ;
    }
}

/// The price of a branch is as high as the number of leaves allows: with that
/// probability values have at most as many leaves as they may on average, and with any
/// higher one they have more, or it is above ninety-five percent. A branch is taken to
/// have at least one child, and the number of leaves to be at least two. It is never
/// impossible, unless its children are more than can be told apart.
pub proof fn lemma_branches_are_priced_by_their_leaves(
    n: u128,
    d: u128,
    max_leaves: u64,
    r: Probability,
)
    requires
        call_ensures(recursion_branch_probability, (n, d, max_leaves), r),
        0 < d,
    ensures
        is_priced(
            r.numerator as int,
            if n < d {
                d as int
            } else {
                n as int
            },
            d as int,
            if max_leaves < 2 {
                2
            } else if max_leaves > 0x1_0000_0000 {
                0x1_0000_0000
            } else {
                max_leaves as int
            },
        ),
        n <= d * 0x10_0000_0000_0000 ==> r.numerator > 0,
{
    let n1 = if n < d {
        d as int
    } else {
        n as int
    };
    assert(d <= d * 0x10_0000_0000_0000);
    lemma_price_is_right(n1, d as int, max_leaves as int);
    assert(branch_price(n as int, d as int, max_leaves as int) == branch_price(
        n1,
        d as int,
        max_leaves as int,
    ));
}

/// Above its largest depth a recursive value can branch: the decision is recorded with a
/// probability that is strictly between zero and one, and comes out as it is replayed.
/// While the value is to grow, which is above the depth of the profile's boundary where
/// more than one leaf is aimed at, that probability is ninety-five percent. At the
/// boundary it is the profile's. Below it, and where one leaf is aimed at, it is the
/// price for two leaves, where a branch has as many children as was seen, and one more
/// for each attempt that was given up. From the largest depth on there are no branches.
pub proof fn lemma_recursion_branches_as_chosen<D: Distributions, O: DataObserver>(
    tc: NativeTestCase<D, O>,
    new_tc: NativeTestCase<D, O>,
    family: FamilyCore,
    before: RecursionState,
    after: RecursionState,
    depth: u64,
    profile: RecursionProfile,
    b: bool,
    r: Result<bool, EngineError>,
)
    requires
        exists|m: &mut NativeTestCase<D, O>, f: &mut FamilyCore, s: &mut RecursionState| #[trigger]
            call_ensures(recursion_branch::<D, O>, (m, f, s, depth, profile), r) && *m == tc
                && *final(m) == new_tc && *f == family && *s == before && *final(s) == after,
        has_room_for(tc, family, 1),
        before.attempt <= 9,
        after.closed_children < 0x1_0000_0000_0000,
        0 < profile.boundary_probability.numerator < 0x20_0000_0000_0000,
    ensures
        depth >= before.max_depth ==> r == Ok::<bool, EngineError>(false),
        depth < before.max_depth && replays(tc, 0, ValueView::Boolean(b)) ==> r == Ok::<
            bool,
            EngineError,
        >(b),
        r is Ok && depth < before.max_depth ==> {
            let node = new_tc.nodes@[tc.nodes@.len() as int]@;
            let p = node.kind->Boolean_0.p.numerator;
            let grows = before.target >= 2 * pow2(before.attempt as nat);
            &&& new_tc.nodes@.len() == tc.nodes@.len() + 1
            &&& node.kind is Boolean
            &&& node.value == ValueView::Boolean(r->Ok_0)
            &&& !node.was_forced
            &&& 0 < p < 0x20_0000_0000_0000
            &&& grows && depth < profile.boundary_depth ==> 20 * p <= 19 * 0x20_0000_0000_0000 < 20
                * (p + 1)
            &&& grows && depth == profile.boundary_depth ==> p
                == profile.boundary_probability.numerator
            &&& !grows || depth > profile.boundary_depth ==> {
                let d = 1 + 4 * after.closed_branches;
                let n = 2 + 4 * after.closed_children + before.attempt * d;
                is_priced(
                    p as int,
                    larger_of(n, d),
                    d,
                    2,
                )
            }
        },
{
    lemma_pow2_pos(before.attempt as nat);
    let scale = pow2(before.attempt as nat) as int;
    let t = before.target as int;
    lemma_fundamental_div_mod(t, scale);
    let e = t / scale;
    assert(e >= 2 <==> t >= 2 * scale) by (nonlinear_arith)
        requires
            t == scale * e + t % scale,
            0 <= t % scale < scale,
            scale > 0,
    ;
    if r is Ok {
        lemma_one_choice_more(tc, new_tc);
    }
    let d = 1 + 4 * after.closed_branches;
    let n = 2 + 4 * after.closed_children + before.attempt * d;
    let n1 = if n < d {
        d
    } else {
        n
    };
    assert(before.attempt * d <= 9 * d) by (nonlinear_arith)
        requires
            before.attempt <= 9,
            d > 0,
    ;
    lemma_price_is_right(n1, d, 2);
    lemma_price_is_right(n1, d, 1);
    assert(branch_price(n1, d, 2) == branch_price(n, d, 2));
    assert(branch_price(n1, d, 1) == branch_price(n, d, 1));
    let w = before@.decision_observed(depth);
    assert(w.closed_branches == after.closed_branches);
    assert(w.closed_children == after.closed_children);
    assert(w.tail_price() == branch_price(n, d, 2));
}

/// At random, a recursive value branches with the probability that the decision is
/// recorded with.
pub proof fn lemma_recursion_branches_with_its_probability<D: Distributions, O: DataObserver>(
    tc: NativeTestCase<D, O>,
    new_tc: NativeTestCase<D, O>,
    family: FamilyCore,
    before: RecursionState,
    after: RecursionState,
    depth: u64,
    profile: RecursionProfile,
    r: Result<bool, EngineError>,
)
    requires
        exists|m: &mut NativeTestCase<D, O>, f: &mut FamilyCore, s: &mut RecursionState| #[trigger]
            call_ensures(recursion_branch::<D, O>, (m, f, s, depth, profile), r) && *m == tc
                && *final(m) == new_tc && *f == family && *s == before && *final(s) == after,
        has_room_for(tc, family, 1),
        is_random(tc),
        before.attempt <= 9,
        after.closed_children < 0x1_0000_0000_0000,
        0 < profile.boundary_probability.numerator < 0x20_0000_0000_0000,
        depth < before.max_depth,
    ensures
        r is Ok,
        exists|bits: int|
            {
                &&& entropy(new_tc) == #[trigger] entropy(tc).push(bits)
                &&& 0 <= bits < 0x1_0000_0000_0000_0000
                &&& r->Ok_0 <==> bits * 0x20_0000_0000_0000 < (new_tc.nodes@[
                    tc.nodes@.len() as int
                ]@.kind->Boolean_0.p.numerator) * 0x1_0000_0000_0000_0000
            },
{
    lemma_recursion_branches_as_chosen(
        tc,
        new_tc,
        family,
        before,
        after,
        depth,
        profile,
        true,
        r,
    );
    if r is Ok {
        lemma_one_choice_more(tc, new_tc);
    }
    let p = new_tc.nodes@[tc.nodes@.len() as int]@.kind->Boolean_0.p;
    let old_handed = tc.source->Some_0.rng.handed();
    let handed = new_tc.source->Some_0.rng.handed();
    assert(flipped(p, true, old_handed, handed, r->Ok_0));
    let bits = choose|bits: int|
        handed == #[trigger] old_handed.push(bits) && 0 <= bits <= u64::MAX && r->Ok_0 == (bits
            < p.numerator * 2048);
    assert(entropy(new_tc) == entropy(tc).push(bits));
}

/// A recursive value is meant to be large with a probability of three quarters. Where it
/// is, it aims at a number of leaves from two to the most it may have, each as likely as
/// any other, and at one leaf where it is not. Where it may have only one leaf, nothing
/// is drawn. Its first attempt has no leaves, and nothing is known of its branches.
pub proof fn lemma_recursion_begins_as_chosen<D: Distributions, O: DataObserver>(
    tc: NativeTestCase<D, O>,
    after: NativeTestCase<D, O>,
    family: FamilyCore,
    new_family: FamilyCore,
    max_depth: u64,
    max_leaves: u64,
    large: bool,
    target: int,
    r: Result<RecursionState, EngineError>,
)
    requires
        exists|m: &mut NativeTestCase<D, O>, f: &mut FamilyCore| #[trigger]
            call_ensures(new_recursion_state::<D, O>, (m, f, max_depth, max_leaves), r) && *m == tc
                && *final(m) == after && *f == family && *final(f) == new_family,
        has_room_for(tc, family, 2),
        replays(tc, 0, ValueView::Boolean(large)),
        replays(tc, 1, ValueView::Integer(target)),
        2 <= target <= max_leaves || max_leaves < 2,
    ensures
        r is Ok,
        r->Ok_0.target == if large && max_leaves >= 2 {
            target
        } else {
            1
        },
        r->Ok_0.max_depth == max_depth,
        r->Ok_0.max_leaves == max_leaves,
        r->Ok_0.attempt == 0,
        r->Ok_0.leaves == 0,
        r->Ok_0.reprices == 0,
        r->Ok_0.closed_branches == 0,
        r->Ok_0.closed_children == 0,
        r->Ok_0.open_branches@.len() == 0,
        r->Ok_0.base_span_depth == tc.structure@.stack.len(),
        max_leaves < 2 ==> after == tc && new_family == family,
        max_leaves >= 2 ==> {
            let first = after.nodes@[tc.nodes@.len() as int]@;
            &&& after.nodes@.len() == tc.nodes@.len() + if large {
                2int
            } else {
                1
            }
            &&& first.value == ValueView::Boolean(large)
            &&& first.kind is Boolean
            &&& 4 * first.kind->Boolean_0.p.numerator == 3 * 0x20_0000_0000_0000
            &&& large ==> {
                let second = after.nodes@[tc.nodes@.len() as int + 1]@;
                &&& second.value == ValueView::Integer(target)
                &&& second.kind == KindView::Integer(
                    IntegerKind { min: 2, max: max_leaves as int, towards: 0 },
                )
            }
        },
{
    assert(tc.structure@.stack.len() <= usize::MAX);
    if max_leaves >= 2 {
        let three_quarters = Probability { numerator: LARGE_TARGET };
        let (mid, mid_family, first) = choose|
            mid: NativeTestCase<D, O>,
            mid_family: FamilyCore,
            first: Result<bool, EngineError>,
        |
            {
                &&& #[trigger] decided(mid, tc, family, mid_family, three_quarters, None, first)
                &&& match first {
                    Ok(true) => {
                        uniformly(
                            after,
                            mid,
                            mid_family,
                            new_family,
                            2,
                            max_leaves,
                            match r {
                                Ok(state) => Ok(state.target),
                                Err(e) => Err(e),
                            },
                        )
                    },
                    Ok(false) => {
                        &&& r matches Ok(state) && state.target == 1
                        &&& after == mid
                        &&& new_family == mid_family
                    },
                    Err(e) => {
                        &&& r matches Err(f) && f == e
                        &&& after == mid
                        &&& new_family == mid_family
                    },
                }
            };
        assert(first == Ok::<bool, EngineError>(large));
        lemma_one_choice_more(tc, mid);
        if large {
            lemma_one_choice_more(mid, after);
        }
    }
}

/// A leaf is counted as one, and is refused where there are as many as there may be.
pub proof fn lemma_leaves_are_counted(before: RecursionState, after: RecursionState, r: bool)
    requires
        exists|m: &mut RecursionState| #[trigger]
            call_ensures(RecursionState::count_leaf, (m,), r) && *m == before && *final(m) == after,
    ensures
        r <==> before.leaves < before.max_leaves,
        after.leaves == before.leaves + if r {
            1int
        } else {
            0
        },
        after.max_leaves == before.max_leaves,
        after.max_depth == before.max_depth,
        after.target == before.target,
        after.attempt == before.attempt,
        after.reprices == before.reprices,
        after.closed_branches == before.closed_branches,
        after.closed_children == before.closed_children,
        after.open_branches@ == before.open_branches@,
        after.branch_probability == before.branch_probability,
{
}

/// The spans that are closed are the innermost ones.
proof fn lemma_unwinding_pops(v: StructureView, at: usize, n: nat)
    requires
        n <= v.stack.len(),
    ensures
        unwound(v, at, n).stack == v.stack.take(v.stack.len() - n),
        unwound(v, at, n).spans.len() == v.spans.len(),
    decreases n,
{
    if n > 0 {
        let w = closed_at(v, at, true);
        lemma_unwinding_pops(w, at, (n - 1) as nat);
        assert(w.stack.take(w.stack.len() - (n - 1)) =~= v.stack.take(v.stack.len() - n));
    } else {
        assert(v.stack.take(v.stack.len() as int) =~= v.stack);
    }
}

/// An attempt that had too many leaves is given up: the next one begins without leaves
/// and without open branches, and its spans are closed down to where the value began.
/// After eight attempts there is no next one, and the test case is invalid.
pub proof fn lemma_attempts_are_given_up<D: Distributions, O: DataObserver>(
    tc: NativeTestCase<D, O>,
    new_tc: NativeTestCase<D, O>,
    family: FamilyCore,
    new_family: FamilyCore,
    before: RecursionState,
    after: RecursionState,
    r: Result<(), EngineError>,
)
    requires
        exists|m: &mut NativeTestCase<D, O>, f: &mut FamilyCore, s: &mut RecursionState| #[trigger]
            call_ensures(recursion_retry::<D, O>, (m, f, s), r) && *m == tc && *final(m) == new_tc
                && *f == family && *final(f) == new_family && *s == before && *final(s) == after,
        before.attempt <= 9,
        family.conclusion is None,
    ensures
        r is Ok <==> before.attempt < 8,
        r is Ok ==> after.attempt == before.attempt + 1 && new_family == family,
        r is Err ==> r == Err::<(), EngineError>(EngineError::InvalidTestCase)
            && new_family.conclusion == Some((Status::Invalid, None::<InterestingOrigin>)),
        after.leaves == 0,
        after.open_branches@.len() == 0,
        after.closed_branches == before.closed_branches,
        after.closed_children == before.closed_children,
        after.reprices == before.reprices,
        after.target == before.target,
        after.max_leaves == before.max_leaves,
        after.max_depth == before.max_depth,
        new_tc.nodes@ == tc.nodes@,
        new_tc.structure@.stack == if tc.structure@.stack.len() > before.base_span_depth {
            tc.structure@.stack.take(before.base_span_depth as int)
        } else {
            tc.structure@.stack
        },
{
    let n = spans_above(tc.structure@, before.base_span_depth);
    lemma_unwinding_pops(tc.structure@, tc.nodes@.len() as usize, n);
    assert(tc.structure@.stack.take(tc.structure@.stack.len() as int) =~= tc.structure@.stack);
}

/// A finished attempt stands unless it came out less than half as large as it was meant
/// to, although its branches would have allowed for half, or, where it aimed at one
/// leaf, unless its branches turned out cheaper by more than five percent. At most two
/// finished attempts do not stand. Where one does not, the next begins without leaves,
/// and its spans are closed down to where the value began.
pub proof fn lemma_finished_attempts_are_judged<D: Distributions, O: DataObserver>(
    tc: NativeTestCase<D, O>,
    new_tc: NativeTestCase<D, O>,
    before: RecursionState,
    after: RecursionState,
    profile: RecursionProfile,
    r: bool,
)
    requires
        exists|m: &mut NativeTestCase<D, O>, s: &mut RecursionState| #[trigger]
            call_ensures(recursion_finish::<D, O>, (m, s, profile), r) && *m == tc && *final(m)
                == new_tc && *s == before && *final(s) == after,
        before.attempt <= 9,
    ensures
        before.reprices >= 2 ==> r,
        before.reprices < 2 && before.target >= 2 * pow2(before.attempt as nat) ==> (r <==> 2
            * before.leaves >= before.target as int / pow2(before.attempt as nat) as int
            || !profile.reaches_half),
        before.reprices < 2 && before.target < 2 * pow2(before.attempt as nat) ==> {
            let d = 1 + 4 * after.closed_branches;
            let n = 2 + 4 * after.closed_children + before.attempt * d;
            exists|price: int|
                {
                    &&& #[trigger] is_priced(
                        price,
                        larger_of(n, d),
                        d,
                        2,
                    )
                    &&& r <==> 20 * (price - before.branch_probability.numerator)
                        < 0x20_0000_0000_0000
                }
        },
        r ==> new_tc == tc && after.leaves == before.leaves && after.reprices == before.reprices,
        !r ==> {
            &&& after.leaves == 0
            &&& after.reprices == before.reprices + 1
            &&& new_tc.nodes@ == tc.nodes@
            &&& new_tc.structure@.stack == if tc.structure@.stack.len() > before.base_span_depth {
                tc.structure@.stack.take(before.base_span_depth as int)
            } else {
                tc.structure@.stack
            }
        },
        after.open_branches@.len() == 0,
        after.attempt == before.attempt,
        after.target == before.target,
{
    let n = spans_above(tc.structure@, before.base_span_depth);
    lemma_unwinding_pops(tc.structure@, tc.nodes@.len() as usize, n);
    assert(tc.structure@.stack.take(tc.structure@.stack.len() as int) =~= tc.structure@.stack);
    lemma_pow2_pos(before.attempt as nat);
    let scale = pow2(before.attempt as nat) as int;
    let t = before.target as int;
    lemma_fundamental_div_mod(t, scale);
    let e = t / scale;
    assert(e >= 2 <==> t >= 2 * scale) by (nonlinear_arith)
        requires
            t == scale * e + t % scale,
            0 <= t % scale < scale,
            scale > 0,
    ;
    assert(e >= 0) by (nonlinear_arith)
        requires
            t == scale * e + t % scale,
            0 <= t % scale < scale,
            scale > 0,
            t >= 0,
    ;
    let d = 1 + 4 * after.closed_branches;
    let k = 2 + 4 * after.closed_children + before.attempt * d;
    let k1 = if k < d {
        d
    } else {
        k
    };
    lemma_price_is_right(k1, d, 1);
    assert(branch_price(k1, d, 1) == branch_price(k, d, 1));
    assert(is_priced(branch_price(k, d, 1), larger_of(k, d), d, 2));
    let w = before@.closed_from(0);
    assert(w.open_branches.len() == 0);
    if e < 2 {
        assert(w.effective_target() == 1);
        assert(w.target_price() == branch_price(k, d, 1));
    }
}

/// The branches that are open are those above the decision: a decision leaves those that
/// are nearer to the root open, closes the others, and is one child more of the last one
/// that stays open. Where it comes out as a branch, that one is open too, without
/// children. No branch and no child is lost by it.
pub proof fn lemma_decisions_keep_their_branches<D: Distributions, O: DataObserver>(
    tc: NativeTestCase<D, O>,
    family: FamilyCore,
    before: RecursionState,
    after: RecursionState,
    depth: u64,
    profile: RecursionProfile,
    i: int,
    r: Result<bool, EngineError>,
)
    requires
        exists|m: &mut NativeTestCase<D, O>, f: &mut FamilyCore, s: &mut RecursionState| #[trigger]
            call_ensures(recursion_branch::<D, O>, (m, f, s, depth, profile), r) && *m == tc && *f
                == family && *s == before && *final(s) == after,
        before.attempt <= 9,
        forall|i: int, j: int|
            0 <= i < j < before.open_branches@.len() ==> before.open_branches@[i].0
                < before.open_branches@[j].0,
        before.closed_branches + before.open_branches@.len() <= u64::MAX,
    ensures
        ({
            let branched = r == Ok::<bool, EngineError>(true);
            let kept = after.open_branches@.len() - if branched {
                1int
            } else {
                0
            };
            &&& 0 <= kept <= before.open_branches@.len()
            &&& branched ==> after.open_branches@[kept] == (depth, 0u64)
            &&& 0 <= i < before.open_branches@.len() ==> (before.open_branches@[i].0 < depth <==> i
                < kept)
            &&& 0 <= i < kept ==> after.open_branches@[i].0 == before.open_branches@[i].0
            &&& 0 <= i < kept - 1 ==> after.open_branches@[i].1 == before.open_branches@[i].1
            &&& i == kept - 1 >= 0 && depth > 0 && before.open_branches@[i].1 < u64::MAX
                ==> after.open_branches@[i].1 == before.open_branches@[i].1 + 1
            &&& after.closed_branches == before.closed_branches + before.open_branches@.len() - kept
        }),
        after.leaves == before.leaves,
        after.attempt == before.attempt,
        after.target == before.target,
        after.reprices == before.reprices,
        after.max_leaves == before.max_leaves,
        after.max_depth == before.max_depth,
{
    lemma_decisions_follow_the_path(before@, depth);
    let w = before@.decision_observed(depth);
    lemma_still_open_is_bounded(before.open_branches@, depth);
    let kept = still_open(before.open_branches@, depth) as int;
    assert(w.open_branches.len() == kept);
    if r == Ok::<bool, EngineError>(true) {
        assert(after.open_branches@ == w.open_branches.push((depth, 0u64)));
    } else {
        assert(after.open_branches@ == w.open_branches);
    }
}

/// No more branches stay open than there are.
proof fn lemma_still_open_is_bounded(open: Seq<(u64, u64)>, depth: u64)
    ensures
        still_open(open, depth) <= open.len(),
    decreases open.len(),
{
    if open.len() > 0 && open.last().0 >= depth {
        lemma_still_open_is_bounded(open.drop_last(), depth);
    }
}

/// What a growth profile is asked for: the number of leaves that the attempt aims at,
/// which is half for each attempt that was given up and at least one, how many children
/// branches have had, and how deep they may nest. Past the boundary a branch is to have
/// the price for two leaves, and none where the attempt is over.
pub proof fn lemma_profiles_are_asked_for(
    state: &RecursionState,
    depth: u64,
    q: ProfileQuery,
    end: ProfileQuery,
)
    requires
        call_ensures(RecursionState::branch_question, (state, depth), q),
        call_ensures(RecursionState::finish_question, (state,), end),
        state.attempt <= 9,
        state.open_branches@.len() == 0,
    ensures
        ({
            let aimed = state.target as int / pow2(state.attempt as nat) as int;
            let d = 1 + 4 * state.closed_branches;
            let n = 2 + 4 * state.closed_children;
            &&& q.target == larger_of(aimed, 1)
            &&& end.target == larger_of(aimed, 1)
            &&& q.max_depth == state.max_depth && end.max_depth == state.max_depth
            &&& q.arity_numerator == n && q.arity_denominator == d
            &&& end.arity_numerator == n && end.arity_denominator == d
            &&& is_priced(
                q.tail.numerator as int,
                larger_of(n + state.attempt * d, d),
                d,
                2,
            )
            &&& end.tail.numerator == 0
        }),
{
    let d = 1 + 4 * state.closed_branches;
    let n = 2 + 4 * state.closed_children;
    let k = n + state.attempt * d;
    lemma_pow2_pos(state.attempt as nat);
    let scale = pow2(state.attempt as nat) as int;
    let t = state.target as int;
    lemma_fundamental_div_mod(t, scale);
    assert(0 <= t / scale <= t) by (nonlinear_arith)
        requires
            scale >= 1,
            t >= 0,
            t == scale * (t / scale) + t % scale,
            0 <= t % scale < scale,
    ;
    let k1 = larger_of(k, d);
    lemma_price_is_right(k1, d, 2);
    assert(branch_price(k1, d, 2) == branch_price(k, d, 2));
    let open = state.open_branches@;
    assert(still_open(open, depth) == 0);
    let w = state@.decision_observed(depth);
    assert(open.skip(0) =~= open && open.take(0) =~= open);
    assert(children(open) == 0);
    assert(w.closed_children == state.closed_children);
    assert(w.closed_branches == state.closed_branches);
    assert(w.tail_price() == branch_price(k, d, 2));
    let e = state@.closed_from(0);
    assert(e.closed_children == state.closed_children);
    assert(e.closed_branches == state.closed_branches);
}

} // verus!
