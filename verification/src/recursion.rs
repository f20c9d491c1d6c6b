//! Recursive values: the decisions between leaf and branch, and the budget of
//! leaves that they have to keep to.
//!
//! A recursive value is drawn depth first. One decision per sub-value says
//! whether it is a leaf or a branch. The probability of a branch is priced
//! from how many children the branches had so far.
use crate::choices::Probability;
use crate::choices::PROBABILITY_ONE;
use crate::collections::fraction;
use crate::collections::fraction_of;
use crate::draws::decide;
use crate::draws::decided;
use crate::draws::uniform;
use crate::draws::uniformly;
use crate::errors::EngineError;
use crate::errors::Status;
use crate::family::FamilyCore;
use crate::sampling::Distributions;
use crate::structure::closed_at;
use crate::structure::StructureView;
use crate::test_case::DataObserver;
use crate::test_case::NativeTestCase;
use vstd::arithmetic::power2::pow2;
use vstd::prelude::*;

verus! {

/// How many attempts a recursive value gets to keep to its budget.
pub const RECURSION_MAX_ATTEMPTS: u64 = 9;

/// How many finished attempts are discarded because they were mispriced.
pub const RECURSION_MAX_REPRICES: u64 = 2;

/// The probability that a recursive value is meant to be large, three
/// quarters.
pub const LARGE_TARGET: u64 = 6755399441055744;

/// The largest probability of a branch, ninety-five percent.
pub const MAX_BRANCH: u64 = 8556839292003942;

/// How much the price may rise before an attempt counts as mispriced, five
/// percent.
pub const REPRICE_THRESHOLD: u64 = 450359962737049;

/// The largest budget that makes a difference to the price.
pub const MAX_PRICED_BUDGET: u64 = 0x1_0000_0000;

/// The state of a recursive value that is being drawn.
#[derive(Debug)]
pub struct RecursionState {
    /// How deep branches may nest.
    pub max_depth: u64,
    /// How many leaves an attempt may have.
    pub max_leaves: u64,
    /// How many attempts exceeded their budget.
    pub attempt: u64,
    /// How many leaves the current attempt has.
    pub leaves: u64,
    /// How many spans were open before the value.
    pub base_span_depth: usize,
    /// How many leaves the value is meant to have.
    pub target: u64,
    /// The probability of a branch that the current attempt started with.
    pub branch_probability: Probability,
    /// How many children the closed branches have.
    pub closed_children: u64,
    /// How many branches are closed: have all their children.
    pub closed_branches: u64,
    /// The depths of the branches that may still get children, and how many
    /// children they have.
    pub open_branches: Vec<(u64, u64)>,
    /// How many finished attempts were discarded because they were mispriced.
    pub reprices: u64,
}

/// The view of a [`RecursionState`].
pub struct RecursionView {
    pub max_depth: u64,
    pub max_leaves: u64,
    pub attempt: u64,
    pub leaves: u64,
    pub base_span_depth: usize,
    pub target: u64,
    pub branch_probability: Probability,
    pub closed_children: u64,
    pub closed_branches: u64,
    pub open_branches: Seq<(u64, u64)>,
    pub reprices: u64,
}

impl View for RecursionState {
    type V = RecursionView;

    open spec fn view(&self) -> RecursionView {
        RecursionView {
            max_depth: self.max_depth,
            max_leaves: self.max_leaves,
            attempt: self.attempt,
            leaves: self.leaves,
            base_span_depth: self.base_span_depth,
            target: self.target,
            branch_probability: self.branch_probability,
            closed_children: self.closed_children,
            closed_branches: self.closed_branches,
            open_branches: self.open_branches@,
            reprices: self.reprices,
        }
    }
}

/// A count. Counts end at the largest number there is.
pub open spec fn count(n: int) -> u64 {
    if n > u64::MAX {
        u64::MAX
    } else {
        n as u64
    }
}

/// How many of the open branches may still get children when the next
/// decision is at a depth.
pub open spec fn still_open(open: Seq<(u64, u64)>, depth: u64) -> nat
    decreases open.len(),
{
    if open.len() == 0 || open.last().0 < depth {
        open.len()
    } else {
        still_open(open.drop_last(), depth)
    }
}

/// How many children branches have.
pub open spec fn children(branches: Seq<(u64, u64)>) -> nat
    decreases branches.len(),
{
    if branches.len() == 0 {
        0
    } else {
        children(branches.drop_last()) + branches.last().1 as nat
    }
}

/// Branches, the last of which has one child more.
pub open spec fn with_child(open: Seq<(u64, u64)>) -> Seq<(u64, u64)> {
    if open.len() == 0 {
        open
    } else {
        open.update(open.len() - 1, (open.last().0, count(open.last().1 + 1)))
    }
}

impl RecursionView {
    /// The state with the branches from `from` on closed.
    pub open spec fn closed_from(self, from: int) -> RecursionView {
        RecursionView {
            open_branches: self.open_branches.take(from),
            closed_children: count(self.closed_children + children(self.open_branches.skip(from))),
            closed_branches: count(self.closed_branches + self.open_branches.len() - from),
            ..self
        }
    }

    /// The state after a decision at `depth` was taken notice of. The decision
    /// is one child more of the deepest branch above it; the branches that are
    /// not above it are closed.
    pub open spec fn decision_observed(self, depth: u64) -> RecursionView {
        let closed = self.closed_from(still_open(self.open_branches, depth) as int);
        RecursionView {
            open_branches: if depth > 0 {
                with_child(closed.open_branches)
            } else {
                closed.open_branches
            },
            ..closed
        }
    }

    /// The state after a decision at `depth` came out as a branch.
    pub open spec fn branch_observed(self, depth: u64) -> RecursionView {
        RecursionView { open_branches: self.open_branches.push((depth, 0)), ..self }
    }

    /// How many leaves the current attempt is meant to have.
    pub open spec fn effective_target(self) -> int {
        let shrunk = self.target as int / pow2(self.attempt as nat) as int;
        if shrunk < 1 {
            1
        } else {
            shrunk
        }
    }

    /// The number of children that a branch is assumed to have is the
    /// quotient of this and [`RecursionView::arity_denominator`]. Before any
    /// branch is closed it is two.
    pub open spec fn arity_numerator(self) -> int {
        2 + 4 * self.closed_children
    }

    /// See [`RecursionView::arity_numerator`].
    pub open spec fn arity_denominator(self) -> int {
        1 + 4 * self.closed_branches
    }

    /// The price of a branch for a budget of leaves. Each attempt that
    /// exceeded its budget adds one assumed child per branch.
    pub open spec fn price(self, budget: int) -> int {
        branch_price(
            self.arity_numerator() + self.attempt * self.arity_denominator(),
            self.arity_denominator(),
            budget,
        )
    }

    /// The price of a branch for what the attempt is meant to be.
    pub open spec fn target_price(self) -> int {
        self.price(self.effective_target())
    }

    /// The price of a branch past the depth where a value stops growing.
    pub open spec fn tail_price(self) -> int {
        self.price(2)
    }

    /// What a growth profile is asked for.
    pub open spec fn profile_query(self, tail: Probability) -> ProfileQuery {
        ProfileQuery {
            target: self.effective_target() as u64,
            arity_numerator: self.arity_numerator() as u128,
            arity_denominator: self.arity_denominator() as u128,
            tail,
            max_depth: self.max_depth,
        }
    }
}

/// The probability of a branch, so that values whose branches have `n / d`
/// children have `budget` leaves on average.
pub open spec fn branch_price(n: int, d: int, budget: int) -> int {
    let n = if n < d {
        d
    } else {
        n
    };
    let b = priced_budget(budget);
    let p = fraction_of((b - 1) * d, b * n - d);
    if p > MAX_BRANCH {
        MAX_BRANCH as int
    } else {
        p
    }
}

/// Computes [`branch_price`].
pub fn recursion_branch_probability(n: u128, d: u128, max_leaves: u64) -> (r: Probability)
    requires
        0 < d <= 0x1_0000_0000_0000_0000_00,
        n <= 0x1_0000_0000_0000_0000_000,
    ensures
        r.numerator == branch_price(n as int, d as int, max_leaves as int),
        r.numerator <= MAX_BRANCH,
{
    let n: u128 = if n < d {
        d
    } else {
        n
    };
    let b: u128 = if max_leaves < 2 {
        2
    } else if max_leaves > MAX_PRICED_BUDGET {
        MAX_PRICED_BUDGET as u128
    } else {
        max_leaves as u128
    };
    proof {
        assert(b * n <= 0x1_0000_0000 * 0x1_0000_0000_0000_0000_000) by (nonlinear_arith)
            requires
                0 <= b <= 0x1_0000_0000,
                0 <= n <= 0x1_0000_0000_0000_0000_000,
        ;
        assert(b * d <= b * n) by (nonlinear_arith)
            requires
                d <= n,
                0 <= b,
        ;
        assert((b - 1) * d == b * d - d) by (nonlinear_arith);
        assert(b * d >= 2 * d) by (nonlinear_arith)
            requires
                2 <= b,
                0 <= d,
        ;
    }
    let p = fraction((b - 1) * d, b * n - d);
    if p.numerator > MAX_BRANCH {
        Probability { numerator: MAX_BRANCH }
    } else {
        p
    }
}

/// A question for a growth profile: at which depths values whose branches
/// have `arity_numerator / arity_denominator` children should branch, so that
/// they have `target` leaves on average.
#[derive(Clone, Copy, Debug, PartialEq, Eq, Structural)]
pub struct ProfileQuery {
    /// How many leaves there should be.
    pub target: u64,
    /// The numerator of the number of children of a branch.
    pub arity_numerator: u128,
    /// The denominator of the number of children of a branch.
    pub arity_denominator: u128,
    /// The probability of a branch past the boundary.
    pub tail: Probability,
    /// How deep branches may nest.
    pub max_depth: u64,
}

/// A growth profile: values branch with the largest probability above a
/// boundary, with a probability of its own at the boundary, and with the tail
/// probability past it.
#[derive(Clone, Copy, Debug, PartialEq, Eq, Structural)]
pub struct RecursionProfile {
    /// The depth of the boundary.
    pub boundary_depth: u64,
    /// The probability of a branch at the boundary.
    pub boundary_probability: Probability,
    /// Whether the average number of leaves is at least half of the target.
    pub reaches_half: bool,
}

/// The probability of a branch at a depth.
pub open spec fn profiled(profile: RecursionProfile, tail: Probability, depth: u64) -> Probability {
    if depth < profile.boundary_depth {
        Probability { numerator: MAX_BRANCH }
    } else if depth == profile.boundary_depth {
        profile.boundary_probability
    } else {
        tail
    }
}

/// The probability of a branch at a depth.
pub fn profile_probability(profile: RecursionProfile, tail: Probability, depth: u64) -> (r:
    Probability)
    ensures
        r == profiled(profile, tail, depth),
{
    if depth < profile.boundary_depth {
        Probability { numerator: MAX_BRANCH }
    } else if depth == profile.boundary_depth {
        profile.boundary_probability
    } else {
        tail
    }
}

/// A probability with a numerator.
pub open spec fn probability(numerator: int) -> Probability {
    Probability { numerator: numerator as u64 }
}

/// The probability of a branch at a depth, with the growth profile for what is
/// asked of one.
pub open spec fn decision_probability(
    v: RecursionView,
    depth: u64,
    profile: RecursionProfile,
) -> Probability {
    if depth >= v.max_depth {
        probability(0)
    } else if v.effective_target() == 1 {
        probability(v.target_price())
    } else {
        profiled(profile, probability(v.tail_price()), depth)
    }
}

impl RecursionState {
    /// Whether the attempts were counted.
    pub open spec fn wf(&self) -> bool {
        self.attempt <= RECURSION_MAX_ATTEMPTS
    }

    /// Counts a leaf. The answer is whether there was budget for it.
    pub fn count_leaf(&mut self) -> (r: bool)
        ensures
            r == (old(self).leaves < old(self).max_leaves),
            final(self)@ == (RecursionView {
                leaves: if r {
                    (old(self).leaves + 1) as u64
                } else {
                    old(self).leaves
                },
                ..old(self)@
            }),
    {
        if self.leaves >= self.max_leaves {
            return false;
        }
        self.leaves = self.leaves + 1;
        true
    }

    /// Closes the last of the open branches.
    fn close_last(&mut self)
        requires
            old(self).open_branches@.len() > 0,
        ensures
            final(self)@ == old(self)@.closed_from(old(self).open_branches@.len() - 1),
    {
        let ghost open = self.open_branches@;
        let ghost from = open.len() - 1;
        proof {
            assert(open.skip(from) =~= seq![open.last()]);
            assert(seq![open.last()].drop_last() =~= Seq::<(u64, u64)>::empty());
            reveal_with_fuel(children, 2);
            assert(open.drop_last() =~= open.take(from));
        }
        if let Some(branch) = self.open_branches.pop() {
            self.closed_children = self.closed_children.saturating_add(branch.1);
            self.closed_branches = self.closed_branches.saturating_add(1);
        }
    }

    /// Closes the open branches down to those above `depth`, or all of them.
    fn close_down_to(&mut self, depth: Option<u64>)
        ensures
            final(self)@ == old(self)@.closed_from(
                match depth {
                    Some(depth) => still_open(old(self).open_branches@, depth) as int,
                    None => 0,
                },
            ),
    {
        let ghost start = self@;
        let ghost open = self.open_branches@;
        let ghost end: int = match depth {
            Some(depth) => still_open(open, depth) as int,
            None => 0,
        };
        proof {
            assert(open.skip(open.len() as int) =~= Seq::empty());
            assert(open.take(open.len() as int) =~= open);
        }
        loop
            invariant_except_break
                self@ == start.closed_from(self.open_branches@.len() as int),
                self.open_branches@.len() <= open.len(),
                start.open_branches == open,
                end == match depth {
                    Some(depth) => still_open(self.open_branches@, depth) as int,
                    None => 0,
                },
            ensures
                self@ == start.closed_from(end),
            decreases self.open_branches@.len(),
        {
            let len: usize = self.open_branches.len();
            if len == 0 {
                break;
            }
            if let Some(depth) = depth {
                if self.open_branches[len - 1].0 < depth {
                    break;
                }
            }
            proof {
                lemma_closing_accumulates(start, len as int);
                assert(self.open_branches@.drop_last() =~= self.open_branches@.take(len - 1));
            }
            self.close_last();
        }
    }

    /// Takes notice of a decision at `depth`.
    pub fn observe_decision(&mut self, depth: u64)
        ensures
            final(self)@ == old(self)@.decision_observed(depth),
    {
        self.close_down_to(Some(depth));
        let len: usize = self.open_branches.len();
        if depth > 0 && len > 0 {
            let parent = self.open_branches[len - 1];
            self.open_branches.set(len - 1, (parent.0, parent.1.saturating_add(1)));
        }
        assert(self@.open_branches =~= old(self)@.decision_observed(depth).open_branches);
    }

    /// Takes notice that the decision at `depth` came out as a branch.
    pub fn observe_branch(&mut self, depth: u64)
        ensures
            final(self)@ == old(self)@.branch_observed(depth),
    {
        self.open_branches.push((depth, 0));
    }

    /// Closes the open branches of a finished value.
    pub fn close_remaining_branches(&mut self)
        ensures
            final(self)@ == old(self)@.closed_from(0),
    {
        self.close_down_to(None);
    }

    /// Drops the open branches of an abandoned attempt.
    pub fn discard_open_branches(&mut self)
        ensures
            final(self)@ == (RecursionView { open_branches: Seq::empty(), ..old(self)@ }),
    {
        self.open_branches.clear();
    }

    /// How many leaves the current attempt is meant to have.
    fn recursion_effective_target(&self) -> (r: u64)
        requires
            self.wf(),
        ensures
            r == self@.effective_target(),
            r >= 1,
    {
        let attempt: u64 = self.attempt;
        let target: u64 = self.target;
        proof {
            vstd::bits::lemma_u64_shr_is_div(target, attempt);
        }
        let shrunk: u64 = target >> attempt;
        if shrunk < 1 {
            1
        } else {
            shrunk
        }
    }

    /// The price of a branch for a budget.
    fn price_for(&self, budget: u64) -> (r: Probability)
        requires
            self.wf(),
        ensures
            r.numerator == self@.price(budget as int),
            r.numerator <= MAX_BRANCH,
    {
        let d: u128 = 1 + 4 * (self.closed_branches as u128);
        let attempt: u128 = self.attempt as u128;
        proof {
            assert(attempt * d <= 9 * d) by (nonlinear_arith)
                requires
                    0 <= attempt <= 9,
                    0 <= d,
            ;
        }
        let n: u128 = 2 + 4 * (self.closed_children as u128) + attempt * d;
        recursion_branch_probability(n, d, budget)
    }

    /// The price of a branch for what the attempt is meant to be.
    fn recursion_priced_probability(&self) -> (r: Probability)
        requires
            self.wf(),
        ensures
            r == probability(self@.target_price()),
            r.numerator == self@.target_price(),
    {
        self.price_for(self.recursion_effective_target())
    }

    /// The price of a branch past the boundary of a growth profile.
    fn recursion_tail_probability(&self) -> (r: Probability)
        requires
            self.wf(),
        ensures
            r == probability(self@.tail_price()),
            r.numerator == self@.tail_price(),
    {
        self.price_for(2)
    }

    /// What a growth profile is asked for.
    fn query(&self, tail: Probability) -> (r: ProfileQuery)
        requires
            self.wf(),
        ensures
            r == self@.profile_query(tail),
    {
        ProfileQuery {
            target: self.recursion_effective_target(),
            arity_numerator: 2 + 4 * (self.closed_children as u128),
            arity_denominator: 1 + 4 * (self.closed_branches as u128),
            tail,
            max_depth: self.max_depth,
        }
    }

    /// The probability of a branch at a depth.
    fn recursion_decision_probability(&self, depth: u64, profile: RecursionProfile) -> (r:
        Probability)
        requires
            self.wf(),
        ensures
            r == decision_probability(self@, depth, profile),
    {
        if depth >= self.max_depth {
            Probability { numerator: 0 }
        } else if self.recursion_effective_target() == 1 {
            self.recursion_priced_probability()
        } else {
            profile_probability(profile, self.recursion_tail_probability(), depth)
        }
    }

    /// A copy of the state.
    fn copied(&self) -> (r: Self)
        ensures
            r@ == self@,
            r.attempt == self.attempt,
    {
        let mut open: Vec<(u64, u64)> = Vec::new();
        let mut k: usize = 0;
        while k < self.open_branches.len()
            invariant
                k <= self.open_branches@.len(),
                open@ == self.open_branches@.take(k as int),
            decreases self.open_branches@.len() - k,
        {
            open.push(self.open_branches[k]);
            assert(self.open_branches@.take(k + 1) =~= self.open_branches@.take(k as int).push(
                self.open_branches@[k as int],
            ));
            k = k + 1;
        }
        assert(self.open_branches@.take(k as int) =~= self.open_branches@);
        RecursionState {
            max_depth: self.max_depth,
            max_leaves: self.max_leaves,
            attempt: self.attempt,
            leaves: self.leaves,
            base_span_depth: self.base_span_depth,
            target: self.target,
            branch_probability: self.branch_probability,
            closed_children: self.closed_children,
            closed_branches: self.closed_branches,
            open_branches: open,
            reprices: self.reprices,
        }
    }

    /// What a growth profile is asked for by the decision at a depth.
    pub fn branch_question(&self, depth: u64) -> (r: ProfileQuery)
        requires
            self.wf(),
        ensures
            r == branch_query(self@, depth),
    {
        let mut next = self.copied();
        next.observe_decision(depth);
        next.query(next.recursion_tail_probability())
    }

    /// What a growth profile is asked for by the end of an attempt.
    pub fn finish_question(&self) -> (r: ProfileQuery)
        requires
            self.wf(),
        ensures
            r == finish_query(self@),
    {
        let mut next = self.copied();
        next.close_remaining_branches();
        next.query(Probability { numerator: 0 })
    }
}

/// What a growth profile is asked for by the decision at a depth.
pub open spec fn branch_query(v: RecursionView, depth: u64) -> ProfileQuery {
    let decided = v.decision_observed(depth);
    decided.profile_query(probability(decided.tail_price()))
}

/// What a growth profile is asked for by the end of an attempt.
pub open spec fn finish_query(v: RecursionView) -> ProfileQuery {
    v.closed_from(0).profile_query(probability(0))
}

/// Closing one branch more adds its children to those that were counted.
proof fn lemma_closing_accumulates(v: RecursionView, n: int)
    requires
        0 < n <= v.open_branches.len(),
    ensures
        v.closed_from(n).closed_from(n - 1) == v.closed_from(n - 1),
{
    let open = v.open_branches;
    let once = v.closed_from(n);
    assert(once.open_branches.take(n - 1) =~= open.take(n - 1));
    let last = once.open_branches.skip(n - 1);
    assert(last =~= seq![open[n - 1]]);
    assert(last.drop_last() =~= Seq::<(u64, u64)>::empty());
    reveal_with_fuel(children, 2);
    lemma_children_add(last, open.skip(n));
    assert(last + open.skip(n) =~= open.skip(n - 1));
}

/// The children of two lists of branches.
proof fn lemma_children_add(a: Seq<(u64, u64)>, b: Seq<(u64, u64)>)
    ensures
        children(a + b) == children(a) + children(b),
    decreases b.len(),
{
    if b.len() == 0 {
        assert(a + b =~= a);
    } else {
        assert((a + b).drop_last() =~= a + b.drop_last());
        lemma_children_add(a, b.drop_last());
    }
}

/// Whether a state is that of a value whose draw begins, with a target.
pub open spec fn begun(
    v: RecursionView,
    max_depth: u64,
    max_leaves: u64,
    base: usize,
    target: u64,
) -> bool {
    let fresh = RecursionView {
        max_depth,
        max_leaves,
        attempt: 0,
        leaves: 0,
        base_span_depth: base,
        target,
        branch_probability: v.branch_probability,
        closed_children: 0,
        closed_branches: 0,
        open_branches: Seq::empty(),
        reprices: 0,
    };
    &&& v == fresh
    &&& v.branch_probability == probability(v.target_price())
}

/// Whether a recursive value was begun, or the request failed.
pub open spec fn recursion_begun<D: Distributions, O: DataObserver>(
    new: NativeTestCase<D, O>,
    old: NativeTestCase<D, O>,
    family: FamilyCore,
    new_family: FamilyCore,
    max_depth: u64,
    max_leaves: u64,
    r: Result<RecursionState, EngineError>,
) -> bool {
    &&& r matches Ok(state) ==> {
            &&& state.wf()
            &&& 1 <= state.target
            &&& state.target <= max_leaves || state.target == 1
            &&& begun(
                state@,
                max_depth,
                max_leaves,
                old.structure@.stack.len() as usize,
                state.target,
            )
        }
    &&& max_leaves < 2 ==> (r is Ok && new == old && new_family == family)
    &&& max_leaves >= 2 ==> exists|mid: NativeTestCase<D, O>, mid_family: FamilyCore, large: Result<
            bool,
            EngineError,
        >|
            {
                &&& #[trigger] decided(
                    mid,
                    old,
                    family,
                    mid_family,
                    Probability { numerator: LARGE_TARGET },
                    None,
                    large,
                )
                &&& match large {
                    Ok(true) => {
                        &&& uniformly(
                            new,
                            mid,
                            mid_family,
                            new_family,
                            2,
                            max_leaves,
                            match r {
                                Ok(state) => Ok(state.target),
                                Err(e) => Err(e),
                            },
                        )
                    },
                    Ok(false) => {
                        &&& r matches Ok(state) && state.target == 1
                        &&& new == mid
                        &&& new_family == mid_family
                    },
                    Err(e) => {
                        &&& r matches Err(f) && f == e
                        &&& new == mid
                        &&& new_family == mid_family
                    },
                }
            }
}

/// Begins a recursive value, and draws how large it is meant to be.
///
/// It is meant to be large with a probability of three quarters; then its
/// target is any number of leaves in `[2, max_leaves]`. Else, or where the
/// budget is less than two leaves, it is meant to be a single leaf.
pub fn new_recursion_state<D: Distributions, O: DataObserver>(
    ntc: &mut NativeTestCase<D, O>,
    family: &mut FamilyCore,
    max_depth: u64,
    max_leaves: u64,
) -> (r: Result<RecursionState, EngineError>)
    ensures
        recursion_begun(
            *final(ntc),
            *old(ntc),
            *old(family),
            *final(family),
            max_depth,
            max_leaves,
            r,
        ),
{
    let base_span_depth: usize = ntc.span_depth();
    let target: u64 = if max_leaves < 2 {
        1
    } else {
        let large = decide(ntc, family, Probability { numerator: LARGE_TARGET }, None);
        let ghost mid = *ntc;
        let ghost mid_family = *family;
        assert(decided(
            mid,
            *old(ntc),
            *old(family),
            mid_family,
            Probability { numerator: LARGE_TARGET },
            None,
            large,
        ));
        match large {
            Ok(true) => match uniform(ntc, family, 2, max_leaves) {
                Ok(target) => target,
                Err(e) => {
                    return Err(e);
                },
            },
            Ok(false) => 1,
            Err(e) => {
                return Err(e);
            },
        }
    };
    let mut state = RecursionState {
        max_depth,
        max_leaves,
        attempt: 0,
        leaves: 0,
        base_span_depth,
        target,
        branch_probability: Probability { numerator: 0 },
        closed_children: 0,
        closed_branches: 0,
        open_branches: Vec::new(),
        reprices: 0,
    };
    state.branch_probability = state.recursion_priced_probability();
    Ok(state)
}

/// Whether it was decided if a sub-value is a branch, or the request failed.
pub open spec fn branch_decided<D: Distributions, O: DataObserver>(
    new: NativeTestCase<D, O>,
    old: NativeTestCase<D, O>,
    family: FamilyCore,
    new_family: FamilyCore,
    new_state: RecursionView,
    state: RecursionView,
    depth: u64,
    profile: RecursionProfile,
    r: Result<bool, EngineError>,
) -> bool {
    &&& new_state == if r == Ok::<bool, EngineError>(true) {
            state.decision_observed(depth).branch_observed(depth)
        } else {
            state.decision_observed(depth)
        }
    &&& decided(
            new,
            old,
            family,
            new_family,
            decision_probability(state.decision_observed(depth), depth, profile),
            None,
            r,
        )
}

/// Draws whether the sub-value at `depth` is a branch.
///
/// At the depth limit the decision is drawn with probability zero, so that the
/// choices have the same shape whether or not the limit was met. `profile` is
/// the growth profile for the question that the state has at this depth.
pub fn recursion_branch<D: Distributions, O: DataObserver>(
    ntc: &mut NativeTestCase<D, O>,
    family: &mut FamilyCore,
    state: &mut RecursionState,
    depth: u64,
    profile: RecursionProfile,
) -> (r: Result<bool, EngineError>)
    requires
        old(state).wf(),
    ensures
        final(state).wf(),
        branch_decided(
            *final(ntc),
            *old(ntc),
            *old(family),
            *final(family),
            final(state)@,
            old(state)@,
            depth,
            profile,
            r,
        ),
{
    state.observe_decision(depth);
    let p = state.recursion_decision_probability(depth, profile);
    let r = decide(ntc, family, p, None);
    if let Ok(true) = r {
        state.observe_branch(depth);
    }
    r
}

/// The structure after its innermost `n` spans were closed as discarded.
pub open spec fn unwound(v: StructureView, at: usize, n: nat) -> StructureView
    decreases n,
{
    if n == 0 {
        v
    } else {
        unwound(closed_at(v, at, true), at, (n - 1) as nat)
    }
}

/// How many spans are open above `base`.
pub open spec fn spans_above(v: StructureView, base: usize) -> nat {
    if v.stack.len() > base {
        (v.stack.len() - base) as nat
    } else {
        0
    }
}

/// Closes the spans that an attempt left open, as discarded.
fn unwind<D: Distributions, O: DataObserver>(ntc: &mut NativeTestCase<D, O>, base: usize)
    ensures
        *final(ntc) == (NativeTestCase { structure: final(ntc).structure, ..*old(ntc) }),
        final(ntc).structure@ == unwound(
            old(ntc).structure@,
            old(ntc).nodes@.len() as usize,
            spans_above(old(ntc).structure@, base),
        ),
{
    let ghost start = ntc.structure@;
    let ghost at = ntc.nodes@.len() as usize;
    while ntc.span_depth() > base
        invariant
            *ntc == (NativeTestCase { structure: ntc.structure, ..*old(ntc) }),
            at == old(ntc).nodes@.len() as usize,
            unwound(start, at, spans_above(start, base)) == unwound(
                ntc.structure@,
                at,
                spans_above(ntc.structure@, base),
            ),
        decreases ntc.structure@.stack.len(),
    {
        ntc.stop_span(true);
    }
}

/// Whether an attempt was given up, or it was the last one.
pub open spec fn attempt_given_up<D: Distributions, O: DataObserver>(
    new: NativeTestCase<D, O>,
    old: NativeTestCase<D, O>,
    family: FamilyCore,
    new_family: FamilyCore,
    new_state: RecursionView,
    state: RecursionView,
    r: Result<(), EngineError>,
) -> bool {
    &&& new == (NativeTestCase { structure: new.structure, ..old })
    &&& new.structure@ == unwound(
            old.structure@,
            old.nodes@.len() as usize,
            spans_above(old.structure@, state.base_span_depth),
        )
    &&& ({
            let last = state.attempt + 1 >= RECURSION_MAX_ATTEMPTS;
            let next = RecursionView {
                open_branches: Seq::empty(),
                leaves: 0,
                attempt: if last {
                    RECURSION_MAX_ATTEMPTS
                } else {
                    (state.attempt + 1) as u64
                },
                ..state
            };
            if last {
                &&& r == Err::<(), EngineError>(EngineError::InvalidTestCase)
                &&& new_state == next
                &&& new_family == family.concluded(Status::Invalid, None)
            } else {
                &&& r == Ok::<(), EngineError>(())
                &&& new_state == (RecursionView {
                    branch_probability: probability(next.target_price()),
                    ..next
                })
                &&& new_family == family
            }
        })
}

/// Gives up an attempt that exceeded its budget.
///
/// The spans that it left open are closed as discarded, and the next attempt
/// branches less. After the last attempt the test case is invalid.
pub fn recursion_retry<D: Distributions, O: DataObserver>(
    ntc: &mut NativeTestCase<D, O>,
    family: &mut FamilyCore,
    state: &mut RecursionState,
) -> (r: Result<(), EngineError>)
    requires
        old(state).wf(),
    ensures
        final(state).wf(),
        attempt_given_up(
            *final(ntc),
            *old(ntc),
            *old(family),
            *final(family),
            final(state)@,
            old(state)@,
            r,
        ),
{
    unwind(ntc, state.base_span_depth);
    state.discard_open_branches();
    state.leaves = 0;
    if state.attempt < RECURSION_MAX_ATTEMPTS {
        state.attempt = state.attempt + 1;
    }
    if state.attempt >= RECURSION_MAX_ATTEMPTS {
        ntc.conclude(family, Status::Invalid, None);
        return Err(EngineError::InvalidTestCase);
    }
    state.branch_probability = state.recursion_priced_probability();
    Ok(())
}

/// Whether a finished attempt, all of whose branches are closed, was far from
/// what it was meant to be although its branches would have allowed for it.
pub open spec fn is_mispriced(v: RecursionView, reaches_half: bool) -> bool {
    if v.effective_target() == 1 {
        v.target_price() - v.branch_probability.numerator > REPRICE_THRESHOLD
    } else {
        2 * v.leaves < v.effective_target() && reaches_half
    }
}

/// Whether a finished attempt was judged.
pub open spec fn attempt_judged<D: Distributions, O: DataObserver>(
    new: NativeTestCase<D, O>,
    old: NativeTestCase<D, O>,
    new_state: RecursionView,
    state: RecursionView,
    profile: RecursionProfile,
    r: bool,
) -> bool {
    &&& ({
            let finished = state.closed_from(0);
            let retried = RecursionView {
                leaves: 0,
                reprices: (state.reprices + 1) as u64,
                ..finished
            };
            &&& r == (state.reprices >= RECURSION_MAX_REPRICES || !is_mispriced(
                finished,
                profile.reaches_half,
            ))
            &&& r ==> new_state == finished && new == old
            &&& !r ==> {
                &&& new_state == (RecursionView {
                    branch_probability: probability(retried.target_price()),
                    ..retried
                })
                &&& new == (NativeTestCase {
                    structure: new.structure,
                    ..old
                })
                &&& new.structure@ == unwound(
                    old.structure@,
                    old.nodes@.len() as usize,
                    spans_above(old.structure@, state.base_span_depth),
                )
            }
        })
}

/// Decides whether a finished attempt is accepted.
///
/// One that was mispriced is discarded: the spans that it left open are closed
/// as discarded, and the value is to be drawn again at a new price. That
/// happens only so often. `profile` is the growth profile for the question that
/// the state has at its end.
pub fn recursion_finish<D: Distributions, O: DataObserver>(
    ntc: &mut NativeTestCase<D, O>,
    state: &mut RecursionState,
    profile: RecursionProfile,
) -> (r: bool)
    requires
        old(state).wf(),
    ensures
        final(state).wf(),
        attempt_judged(*final(ntc), *old(ntc), final(state)@, old(state)@, profile, r),
{
    state.close_remaining_branches();
    if state.reprices >= RECURSION_MAX_REPRICES {
        return true;
    }
    let target: u64 = state.recursion_effective_target();
    let price = state.recursion_priced_probability();
    let mispriced = if target == 1 {
        price.numerator > state.branch_probability.numerator && price.numerator
            - state.branch_probability.numerator > REPRICE_THRESHOLD
    } else {
        (state.leaves as u128) * 2 < target as u128 && profile.reaches_half
    };
    if !mispriced {
        return true;
    }
    unwind(ntc, state.base_span_depth);
    state.leaves = 0;
    state.reprices = state.reprices + 1;
    state.branch_probability = state.recursion_priced_probability();
    false
}

/// Whether the depths of branches increase.
pub open spec fn deepening(open: Seq<(u64, u64)>) -> bool {
    forall|i: int, j: int| 0 <= i < j < open.len() ==> open[i].0 < open[j].0
}

/// The open branches are those on the way to the next sub-value: their depths
/// increase, and a decision closes exactly those that are not above it.
pub proof fn lemma_decisions_follow_the_path(v: RecursionView, depth: u64)
    requires
        deepening(v.open_branches),
    ensures
        deepening(v.decision_observed(depth).open_branches),
        deepening(v.decision_observed(depth).branch_observed(depth).open_branches),
        forall|i: int|
            0 <= i < v.open_branches.len() ==> (#[trigger] v.open_branches[i].0 < depth <==> i
                < v.decision_observed(depth).open_branches.len()),
    decreases v.open_branches.len(),
{
    lemma_still_open(v.open_branches, depth);
}

/// The branches that stay open are those above the depth.
proof fn lemma_still_open(open: Seq<(u64, u64)>, depth: u64)
    requires
        deepening(open),
    ensures
        still_open(open, depth) <= open.len(),
        forall|i: int|
            0 <= i < open.len() ==> (#[trigger] open[i].0 < depth <==> i < still_open(open, depth)),
    decreases open.len(),
{
    if open.len() > 0 && open.last().0 >= depth {
        let rest = open.drop_last();
        lemma_still_open(rest, depth);
        assert forall|i: int| 0 <= i < open.len() implies (#[trigger] open[i].0 < depth <==> i
            < still_open(open, depth)) by {
            if i < rest.len() {
                assert(rest[i] == open[i]);
            }
        }
    }
}

/// No child is lost: a decision below an open branch is one child more, of
/// open and closed branches together, and no branch is lost either. (Counts
/// that have reached the largest number there is are left aside.)
pub proof fn lemma_decisions_are_counted(v: RecursionView, depth: u64)
    requires
        depth > 0,
        still_open(v.open_branches, depth) > 0,
        v.closed_children + children(v.open_branches) < u64::MAX,
        v.closed_branches + v.open_branches.len() <= u64::MAX,
    ensures
        ({
            let w = v.decision_observed(depth);
            &&& w.closed_children + children(w.open_branches) == v.closed_children + children(
                v.open_branches,
            ) + 1
            &&& w.closed_branches + w.open_branches.len() == v.closed_branches
                + v.open_branches.len()
        }),
{
    let open = v.open_branches;
    let kept = still_open(open, depth) as int;
    lemma_still_open_bounded(open, depth);
    lemma_children_add(open.take(kept), open.skip(kept));
    assert(open.take(kept) + open.skip(kept) =~= open);
    let above = open.take(kept);
    let w = with_child(above);
    assert(w.drop_last() =~= above.drop_last());
    assert(children(above) == children(above.drop_last()) + above.last().1);
}

/// No more branches stay open than there are.
proof fn lemma_still_open_bounded(open: Seq<(u64, u64)>, depth: u64)
    ensures
        still_open(open, depth) <= open.len(),
    decreases open.len(),
{
    if open.len() > 0 {
        lemma_still_open_bounded(open.drop_last(), depth);
    }
}

/// Branches with two children each, which is what is assumed before any was
/// seen, do not move the price.
pub proof fn lemma_binary_branches_keep_the_price(v: RecursionView, w: RecursionView, budget: int)
    requires
        v.closed_children == 2 * v.closed_branches,
        w.closed_children == 2 * w.closed_branches,
        v.attempt == w.attempt,
    ensures
        v.price(budget) == w.price(budget),
{
    lemma_whole_arity(v.attempt + 2, v.arity_denominator(), budget);
    lemma_whole_arity(w.attempt + 2, w.arity_denominator(), budget);
    assert(v.arity_numerator() + v.attempt * v.arity_denominator() == (v.attempt + 2)
        * v.arity_denominator()) by (nonlinear_arith)
        requires
            v.arity_numerator() == 2 * v.arity_denominator(),
    ;
    assert(w.arity_numerator() + w.attempt * w.arity_denominator() == (w.attempt + 2)
        * w.arity_denominator()) by (nonlinear_arith)
        requires
            w.arity_numerator() == 2 * w.arity_denominator(),
    ;
}

/// The price for a whole number of children does not depend on how it is
/// written as a fraction.
proof fn lemma_whole_arity(k: int, d: int, budget: int)
    requires
        k >= 1,
        d >= 1,
    ensures
        branch_price(k * d, d, budget) == branch_price(k, 1, budget),
{
    assert(k * d >= d) by (nonlinear_arith)
        requires
            k >= 1,
            d >= 1,
    ;
    let b = priced_budget(budget);
    let x = (b - 1) * PROBABILITY_ONE;
    let y = b * k - 1;
    assert(((b - 1) * d) * PROBABILITY_ONE == d * x) by (nonlinear_arith)
        requires
            x == (b - 1) * PROBABILITY_ONE,
    ;
    assert(b * (k * d) - d == d * y) by (nonlinear_arith)
        requires
            y == b * k - 1,
    ;
    assert(y >= 1) by (nonlinear_arith)
        requires
            y == b * k - 1,
            b >= 2,
            k >= 1,
    ;
    assert(x >= 0) by (nonlinear_arith)
        requires
            x == (b - 1) * PROBABILITY_ONE,
            b >= 2,
    ;
    vstd::arithmetic::div_mod::lemma_div_denominator(d * x, d, y);
    vstd::arithmetic::div_mod::lemma_div_multiples_vanish(x, d);
    assert((b - 1) * 1 == b - 1);
}

/// Each attempt that exceeded its budget makes branches no likelier in the
/// next one.
pub proof fn lemma_retries_lower_the_price(v: RecursionView)
    requires
        v.attempt < RECURSION_MAX_ATTEMPTS,
    ensures
        (RecursionView { attempt: (v.attempt + 1) as u64, ..v }).target_price() <= v.target_price(),
{
    let w = RecursionView { attempt: (v.attempt + 1) as u64, ..v };
    let d = v.arity_denominator();
    let n = v.arity_numerator() + v.attempt * d;
    assert(w.arity_numerator() + w.attempt * d == n + d) by (nonlinear_arith)
        requires
            w.arity_numerator() == v.arity_numerator(),
            w.attempt == v.attempt + 1,
            n == v.arity_numerator() + v.attempt * d,
    ;
    assert(w.effective_target() <= v.effective_target()) by {
        let scale = pow2(v.attempt as nat) as int;
        vstd::arithmetic::power2::lemma_pow2_pos(v.attempt as nat);
        vstd::arithmetic::power2::lemma_pow2_unfold(w.attempt as nat);
        vstd::arithmetic::div_mod::lemma_div_is_ordered_by_denominator(
            v.target as int,
            scale,
            2 * scale,
        );
    }
    let (b, c) = (priced_budget(v.effective_target()), priced_budget(w.effective_target()));
    let k = if n < d {
        d
    } else {
        n
    };
    assert((c - 1) * d * (b * k - d) <= (b - 1) * d * (c * (n + d) - d)) by (nonlinear_arith)
        requires
            2 <= c <= b,
            d >= 1,
            k >= d,
            k <= n + d,
    {
        assert(c * k <= c * (n + d));
        assert((c - 1) * (b * k - d) <= (b - 1) * (c * k - d)) by {
            assert((b - 1) * (c * k - d) - (c - 1) * (b * k - d) == (k - d) * (b - c));
            assert((k - d) * (b - c) >= 0);
        }
        assert((b - 1) * (c * k - d) <= (b - 1) * (c * (n + d) - d));
        assert((c - 1) * d * (b * k - d) == d * ((c - 1) * (b * k - d)));
        assert((b - 1) * d * (c * (n + d) - d) == d * ((b - 1) * (c * (n + d) - d)));
    }
    assert(b * k - d >= 1 && c * (n + d) - d >= 1) by (nonlinear_arith)
        requires
            2 <= c <= b,
            d >= 1,
            k >= d,
            n >= 0,
    ;
    assert((c - 1) * d >= 0 && (b - 1) * d >= 0) by (nonlinear_arith)
        requires
            2 <= c <= b,
            d >= 1,
    ;
    assert(n >= 0) by (nonlinear_arith)
        requires
            n == v.arity_numerator() + v.attempt * d,
            v.arity_numerator() >= 0,
            d >= 1,
    ;
    lemma_fractions_ordered((c - 1) * d, c * (n + d) - d, (b - 1) * d, b * k - d);
}

/// The budget that a price is for.
pub open spec fn priced_budget(budget: int) -> int {
    if budget < 2 {
        2
    } else if budget > MAX_PRICED_BUDGET {
        MAX_PRICED_BUDGET as int
    } else {
        budget
    }
}

/// The order of two fractions.
proof fn lemma_fractions_ordered(n: int, d: int, m: int, e: int)
    requires
        0 <= n,
        0 <= m,
        0 < d,
        0 < e,
        n * e <= m * d,
    ensures
        fraction_of(n, d) <= fraction_of(m, e),
{
    let q = fraction_of(n, d);
    vstd::arithmetic::div_mod::lemma_fundamental_div_mod(n * PROBABILITY_ONE, d);
    vstd::arithmetic::div_mod::lemma_mod_bound(n * PROBABILITY_ONE, d);
    assert(q * e <= m * PROBABILITY_ONE) by (nonlinear_arith)
        requires
            d * q <= n * PROBABILITY_ONE,
            n * e <= m * d,
            0 < d,
            0 < e,
    {
        assert((d * q) * e <= (n * PROBABILITY_ONE) * e);
        assert((n * PROBABILITY_ONE) * e == (n * e) * PROBABILITY_ONE);
        assert((n * e) * PROBABILITY_ONE <= (m * d) * PROBABILITY_ONE);
        assert(d * (q * e) <= d * (m * PROBABILITY_ONE));
    }
    vstd::arithmetic::div_mod::lemma_div_is_ordered(q * e, m * PROBABILITY_ONE, e);
    assert(q * e == e * q) by (nonlinear_arith);
    vstd::arithmetic::div_mod::lemma_div_multiples_vanish(q, e);
}

/// Whatever was seen, a branch is never certain.
pub proof fn lemma_no_branch_is_certain(n: int, d: int, budget: int)
    ensures
        branch_price(n, d, budget) < PROBABILITY_ONE,
{
}

} // verus!
