//! The shrink pass on choices that have the same value.
use super::absorb_node_gone;
use super::extends;
use super::halt_of;
use super::integers::counted_bits;
use super::integers::halted;
use super::integers::integer_node;
use super::lemma_tried_stays;
use super::reps_view;
use super::search::FindInteger;
use super::tried;
use super::Offer;
use super::PassExit;
use super::ShrinkHalt;
use super::ShrinkProbe;
use super::Shrinker;
use crate::bignum::magnitude_of;
use crate::bignum::BigInt;
use crate::bignum::BigUint;
use crate::choices::copy_nodes;
use crate::choices::integer_target;
use crate::choices::is_same_sort;
use crate::choices::nodes_view;
use crate::choices::same_sort;
use crate::choices::simplest_of;
use crate::choices::ChoiceNode;
use crate::choices::ChoiceValue;
use crate::choices::IntegerChoice;
use crate::choices::NodeView;
use crate::choices::ValueView;
use vstd::arithmetic::power2::pow2;
use vstd::prelude::*;

verus! {

/// Whether two choices are duplicates: of the same sort, with equal values.
pub open spec fn duplicates(a: NodeView, b: NodeView) -> bool {
    same_sort(a.kind, b.kind) && a.value == b.value
}

/// The positions below `n` of the duplicates of the choice at `i`.
pub open spec fn group_upto(t: Seq<NodeView>, i: int, n: int) -> Seq<usize>
    decreases n,
{
    if n <= 0 {
        Seq::empty()
    } else {
        let front = group_upto(t, i, n - 1);
        if duplicates(t[n - 1], t[i]) {
            front.push((n - 1) as usize)
        } else {
            front
        }
    }
}

/// The positions of the duplicates of the choice at `i`.
pub open spec fn group_of(t: Seq<NodeView>, i: int) -> Seq<usize> {
    group_upto(t, i, t.len() as int)
}

/// Whether the choice at `i` has no duplicate before it.
pub open spec fn is_first(t: Seq<NodeView>, i: int) -> bool {
    forall|j: int| 0 <= j < i ==> !duplicates(#[trigger] t[j], t[i])
}

/// The replacements that give all positions of a group the same value.
pub open spec fn group_reps(g: Seq<usize>, v: ValueView) -> Seq<(usize, ValueView)> {
    g.map_values(|j: usize| (j, v))
}

/// Whether all positions of a group exist.
pub open spec fn in_range(g: Seq<usize>, t: Seq<NodeView>) -> bool {
    g.len() >= 2 && forall|k: int| 0 <= k < g.len() ==> (#[trigger] g[k]) < t.len()
}

/// Whether a group of integers was tried with value `v`.
pub open spec fn group_tried(
    h: Seq<Offer>,
    from: nat,
    t: Seq<NodeView>,
    g: Seq<usize>,
    v: int,
) -> bool {
    tried(h, from, t, group_reps(g, ValueView::Integer(v)))
}

/// The larger of `n` and zero.
pub open spec fn at_least_zero(n: int) -> int {
    if n < 0 {
        0
    } else {
        n
    }
}

/// The values that a group of integers is sure to be tried with: halfway to
/// where shrinking aims for on the same side of zero, and two steps or one in
/// that direction.
pub open spec fn group_values_tried(
    h: Seq<Offer>,
    from: nat,
    t: Seq<NodeView>,
    g: Seq<usize>,
    goal: int,
    v: int,
) -> bool {
    let lo = at_least_zero(goal);
    let hi = -at_least_zero(-goal);
    &&& v > lo ==> group_tried(h, from, t, g, lo + (v - lo) / (pow2(1) as int)) && group_tried(
        h,
        from,
        t,
        g,
        v - 2,
    ) && group_tried(h, from, t, g, v - 1)
    &&& v < hi ==> group_tried(h, from, t, g, hi - (hi - v) / (pow2(1) as int)) && group_tried(
        h,
        from,
        t,
        g,
        v + 2,
    ) && group_tried(h, from, t, g, v + 1)
}

/// The positions in `nodes` of the duplicates of the choice at `i`.
fn group_members(nodes: &Vec<ChoiceNode>, i: usize) -> (r: Vec<usize>)
    requires
        i < nodes@.len(),
    ensures
        r@ == group_of(nodes_view(nodes@), i as int),
        forall|k: int| 0 <= k < r@.len() ==> (#[trigger] r@[k]) < nodes@.len() && duplicates(
            nodes@[r@[k] as int]@,
            nodes@[i as int]@,
        ),
{
    let ghost t = nodes_view(nodes@);
    let mut out: Vec<usize> = Vec::new();
    let mut j: usize = 0;
    while j < nodes.len()
        invariant
            j <= nodes@.len(),
            i < nodes@.len(),
            t == nodes_view(nodes@),
            out@ == group_upto(t, i as int, j as int),
            forall|k: int| 0 <= k < out@.len() ==> (#[trigger] out@[k]) < nodes@.len()
                && duplicates(nodes@[out@[k] as int]@, nodes@[i as int]@),
        decreases nodes@.len() - j,
    {
        if is_duplicate(&nodes[j], &nodes[i]) {
            out.push(j);
        }
        j = j + 1;
    }
    out
}

fn is_duplicate(a: &ChoiceNode, b: &ChoiceNode) -> (r: bool)
    ensures
        r == duplicates(a@, b@),
{
    is_same_sort(&a.data, &b.data) && a.value().same(&b.value())
}

fn is_first_of_group(nodes: &Vec<ChoiceNode>, i: usize) -> (r: bool)
    requires
        i < nodes@.len(),
    ensures
        r == is_first(nodes_view(nodes@), i as int),
{
    let ghost t = nodes_view(nodes@);
    let mut j: usize = 0;
    while j < i
        invariant
            j <= i < nodes@.len(),
            t == nodes_view(nodes@),
            forall|k: int| 0 <= k < j ==> !duplicates(#[trigger] t[k], t[i as int]),
        decreases i - j,
    {
        assert(t[j as int] == nodes@[j as int]@);
        if is_duplicate(&nodes[j], &nodes[i]) {
            return false;
        }
        j = j + 1;
    }
    true
}

fn same_value_at(positions: &Vec<usize>, v: &ChoiceValue) -> (r: Vec<(usize, ChoiceValue)>)
    ensures
        reps_view(r@) == group_reps(positions@, v@),
{
    let mut out: Vec<(usize, ChoiceValue)> = Vec::new();
    let mut k: usize = 0;
    while k < positions.len()
        invariant
            k <= positions@.len(),
            out@.len() == k,
            forall|j: int| 0 <= j < k ==> (#[trigger] out@[j]).0 == positions@[j] && out@[j].1@
                == v@,
        decreases positions@.len() - k,
    {
        out.push((positions[k], v.clone()));
        k = k + 1;
    }
    assert(reps_view(out@) =~= group_reps(positions@, v@));
    out
}

/// Those of the positions that are below `n`.
pub open spec fn present(g: Seq<usize>, n: int) -> Seq<usize>
    decreases g.len(),
{
    if g.len() == 0 {
        Seq::empty()
    } else {
        let front = present(g.drop_last(), n);
        if g.last() < n {
            front.push(g.last())
        } else {
            front
        }
    }
}

/// Those of the positions whose choice is a duplicate of `node`.
pub open spec fn members(t: Seq<NodeView>, node: NodeView, g: Seq<usize>) -> Seq<usize>
    decreases g.len(),
{
    if g.len() == 0 {
        Seq::empty()
    } else {
        let front = members(t, node, g.drop_last());
        if g.last() < t.len() && duplicates(t[g.last() as int], node) {
            front.push(g.last())
        } else {
            front
        }
    }
}

/// Whether the first integer of a group is beyond a bound.
pub open spec fn beyond(t: Seq<NodeView>, g: Seq<usize>, bound: int, negative: bool) -> bool {
    integer_node(t, g[0] as int) matches Some((_, v)) && if negative {
        v < bound
    } else {
        v > bound
    }
}

impl<P: ShrinkProbe> Shrinker<P> {
    /// Whether a group of integers was tried with value `v`, where two positions
    /// of it at least exist.
    pub open spec fn group_offered(a: Self, b: Self, g: Seq<usize>, v: int, ok: bool) -> bool {
        let current = present(g, a.target().len() as int);
        if current.len() < 2 {
            !ok && b == a
        } else {
            b.replaced(a, group_reps(current, ValueView::Integer(v)), Ok(ok))
        }
    }

    /// How shifting a group asks for `n` bits.
    pub open spec fn group_shift_step(
        g: Seq<usize>,
        lo: int,
        dist: nat,
        negative: bool,
    ) -> spec_fn(Self, Self, int, bool) -> bool {
        |a: Self, b: Self, n: int, ok: bool|
            {
                let most = if counted_bits(dist) < usize::MAX {
                    counted_bits(dist) + 1
                } else {
                    usize::MAX as int
                };
                let shift = if n < most {
                    n
                } else {
                    most
                };
                let magnitude = lo + dist / pow2(shift as nat);
                Self::group_offered(
                    a,
                    b,
                    g,
                    if negative {
                        -magnitude
                    } else {
                        magnitude
                    },
                    ok,
                )
            }
    }

    /// How subtracting from a group asks for `n` steps from where it is.
    pub open spec fn group_subtract_step(g: Seq<usize>, step: int, negative: bool) -> spec_fn(
        Self,
        Self,
        int,
        bool,
    ) -> bool {
        |a: Self, b: Self, n: int, ok: bool|
            {
                let amount = if step == 2 {
                    n + n
                } else {
                    n
                };
                integer_node(a.target(), g[0] as int) matches Some((_, v)) && Self::group_offered(
                    a,
                    b,
                    g,
                    if negative {
                        v + amount
                    } else {
                        v - amount
                    },
                    ok,
                )
            }
    }

    /// Whether a search on a group broke off because its first integer was gone.
    pub open spec fn broke_off(
        a: Self,
        b: Self,
        g: Seq<usize>,
        step: spec_fn(Self, Self, int, bool) -> bool,
    ) -> bool {
        exists|marks: Seq<(FindInteger, Self)>| #[trigger]
            Self::searching(marks, a, step) && marks.last().1 == b && marks.last().0.phase !is Done
                && integer_node(b.target(), g[0] as int) is None
    }

    /// Whether steps were subtracted from a group that is beyond a bound.
    pub open spec fn group_stepped(
        a: Self,
        b: Self,
        g: Seq<usize>,
        bound: int,
        negative: bool,
        step: int,
        gone: bool,
    ) -> bool {
        if !beyond(a.target(), g, bound, negative) {
            !gone && b == a
        } else if gone {
            Self::broke_off(a, b, g, Self::group_subtract_step(g, step, negative))
        } else {
            Self::searched(a, b, Self::group_subtract_step(g, step, negative))
        }
    }

    /// Whether two steps and then one were subtracted from a group over and over.
    pub open spec fn group_steps(
        a: Self,
        b: Self,
        g: Seq<usize>,
        bound: int,
        negative: bool,
        gone: bool,
    ) -> bool {
        gone && Self::group_stepped(a, b, g, bound, negative, 2, true) || exists|mid: Self|
            #[trigger] Self::group_stepped(a, mid, g, bound, negative, 2, false)
                && Self::group_stepped(mid, b, g, bound, negative, 1, gone)
    }

    /// Whether a group was brought nearer to `lo`, on the negative side where
    /// asked for.
    pub open spec fn group_descended(
        a: Self,
        b: Self,
        g: Seq<usize>,
        lo: int,
        dist: nat,
        negative: bool,
        gone: bool,
    ) -> bool {
        exists|mid: Self| #[trigger]
            Self::searched(a, mid, Self::group_shift_step(g, lo, dist, negative))
                && Self::group_steps(
                mid,
                b,
                g,
                if negative {
                    -lo
                } else {
                    lo
                },
                negative,
                gone,
            )
    }

    /// Whether a group of integers was tried at its simplest value, where it is
    /// not there.
    pub open spec fn simplest_tried(
        a: Self,
        b: Self,
        g: Seq<usize>,
        goal: int,
        value: int,
    ) -> bool {
        if value != goal {
            Self::offered_once(a, b, group_reps(g, ValueView::Integer(goal)))
        } else {
            b == a
        }
    }

    /// Whether a group of integers came nearer to where shrinking aims for on its
    /// side of zero.
    pub open spec fn group_lowered(
        a: Self,
        b: Self,
        g: Seq<usize>,
        goal: int,
        gone: bool,
    ) -> bool {
        match integer_node(a.target(), g[0] as int) {
            None => gone && b == a,
            Some((_, v)) => {
                let lo = at_least_zero(
                    if v < 0 {
                        -goal
                    } else {
                        goal
                    },
                );
                if magnitude_of(v) > lo {
                    Self::group_descended(a, b, g, lo, (magnitude_of(v) - lo) as nat, v < 0, gone)
                } else {
                    !gone && b == a
                }
            },
        }
    }

    /// Whether a group of equal integers was shrunk together: to the simplest
    /// value at once, and from what came of that step by step.
    pub open spec fn int_group_shrunk(
        a: Self,
        b: Self,
        g: Seq<usize>,
        goal: int,
        value: int,
        gone: bool,
    ) -> bool {
        exists|mid: Self| #[trigger]
            Self::simplest_tried(a, mid, g, goal, value) && Self::group_lowered(
                mid,
                b,
                g,
                goal,
                gone,
            )
    }

    /// Whether those of a group that still are duplicates of `node` were shrunk
    /// together, where there are two at least.
    pub open spec fn group_done(
        a: Self,
        b: Self,
        node: NodeView,
        positions: Seq<usize>,
    ) -> bool {
        let g = members(a.target(), node, positions);
        if positions.len() < 2 || g.len() < 2 {
            b == a
        } else {
            let first = g[0] as int;
            match integer_node(a.target(), first) {
                Some((k, v)) => Self::int_group_shrunk(a, b, g, integer_target(k), v, true)
                    || Self::int_group_shrunk(a, b, g, integer_target(k), v, false),
                None => simplest_of(a.target()[first].kind) matches Some(s) && if s == node.value {
                    b == a
                } else {
                    Self::offered_once(a, b, group_reps(g, s))
                },
            }
        }
    }

    /// How a pass on the duplicates of `t` deals with the choice at a position:
    /// with its group, where it is the first of it.
    pub open spec fn duplicates_step(t: Seq<NodeView>) -> spec_fn(Self, Self, int) -> bool {
        |a: Self, b: Self, i: int|
            if is_first(t, i) {
                Self::group_done(a, b, t[i], group_of(t, i))
            } else {
                b == a
            }
    }

    /// Whether a group of integers was offered with value `v`, which ended something
    /// as `halt` says.
    pub open spec fn group_offer_cut(
        a: Self,
        b: Self,
        g: Seq<usize>,
        v: int,
        halt: ShrinkHalt,
    ) -> bool {
        let current = present(g, a.target().len() as int);
        current.len() >= 2 && b.replaced(
            a,
            group_reps(current, ValueView::Integer(v)),
            Err(halt),
        )
    }

    /// How shifting a group ends at `n` bits.
    pub open spec fn group_shift_part(
        g: Seq<usize>,
        lo: int,
        dist: nat,
        negative: bool,
        halt: ShrinkHalt,
    ) -> spec_fn(Self, Self, int) -> bool {
        |a: Self, b: Self, n: int|
            {
                let most = if counted_bits(dist) < usize::MAX {
                    counted_bits(dist) + 1
                } else {
                    usize::MAX as int
                };
                let shift = if n < most {
                    n
                } else {
                    most
                };
                let magnitude = lo + dist / pow2(shift as nat);
                Self::group_offer_cut(
                    a,
                    b,
                    g,
                    if negative {
                        -magnitude
                    } else {
                        magnitude
                    },
                    halt,
                )
            }
    }

    /// How subtracting from a group ends at `n` steps from where it is.
    pub open spec fn group_subtract_part(
        g: Seq<usize>,
        step: int,
        negative: bool,
        halt: ShrinkHalt,
    ) -> spec_fn(Self, Self, int) -> bool {
        |a: Self, b: Self, n: int|
            {
                let amount = if step == 2 {
                    n + n
                } else {
                    n
                };
                integer_node(a.target(), g[0] as int) matches Some((_, v))
                    && Self::group_offer_cut(
                    a,
                    b,
                    g,
                    if negative {
                        v + amount
                    } else {
                        v - amount
                    },
                    halt,
                )
            }
    }

    /// Whether steps were subtracted from a group that is beyond a bound until that
    /// ended as `halt` says.
    pub open spec fn group_step_cut(
        a: Self,
        b: Self,
        g: Seq<usize>,
        bound: int,
        negative: bool,
        step: int,
        halt: ShrinkHalt,
    ) -> bool {
        beyond(a.target(), g, bound, negative) && Self::search_cut(
            a,
            b,
            Self::group_subtract_step(g, step, negative),
            Self::group_subtract_part(g, step, negative, halt),
        )
    }

    /// Whether two steps and then one were subtracted from a group until that ended
    /// as `halt` says.
    pub open spec fn group_steps_cut(
        a: Self,
        b: Self,
        g: Seq<usize>,
        bound: int,
        negative: bool,
        halt: ShrinkHalt,
    ) -> bool {
        Self::group_step_cut(a, b, g, bound, negative, 2, halt) || exists|mid: Self| #[trigger]
            Self::group_stepped(a, mid, g, bound, negative, 2, false) && Self::group_step_cut(
                mid,
                b,
                g,
                bound,
                negative,
                1,
                halt,
            )
    }

    /// Whether a group was brought nearer to `lo` until that ended as `halt` says.
    pub open spec fn group_descent_cut(
        a: Self,
        b: Self,
        g: Seq<usize>,
        lo: int,
        dist: nat,
        negative: bool,
        halt: ShrinkHalt,
    ) -> bool {
        Self::search_cut(
            a,
            b,
            Self::group_shift_step(g, lo, dist, negative),
            Self::group_shift_part(g, lo, dist, negative, halt),
        ) || exists|mid: Self| #[trigger]
            Self::searched(a, mid, Self::group_shift_step(g, lo, dist, negative))
                && Self::group_steps_cut(
                mid,
                b,
                g,
                if negative {
                    -lo
                } else {
                    lo
                },
                negative,
                halt,
            )
    }

    /// Whether a group of integers came nearer to where shrinking aims for until that
    /// ended as `halt` says.
    pub open spec fn group_lower_cut(
        a: Self,
        b: Self,
        g: Seq<usize>,
        goal: int,
        halt: ShrinkHalt,
    ) -> bool {
        match integer_node(a.target(), g[0] as int) {
            None => false,
            Some((_, v)) => {
                let lo = at_least_zero(
                    if v < 0 {
                        -goal
                    } else {
                        goal
                    },
                );
                magnitude_of(v) > lo && Self::group_descent_cut(
                    a,
                    b,
                    g,
                    lo,
                    (magnitude_of(v) - lo) as nat,
                    v < 0,
                    halt,
                )
            },
        }
    }

    /// Whether a group of equal integers was shrunk together until that ended as
    /// `halt` says.
    pub open spec fn int_group_cut(
        a: Self,
        b: Self,
        g: Seq<usize>,
        goal: int,
        value: int,
        halt: ShrinkHalt,
    ) -> bool {
        ||| value != goal && b.replaced(a, group_reps(g, ValueView::Integer(goal)), Err(halt))
        ||| exists|mid: Self| #[trigger]
            Self::simplest_tried(a, mid, g, goal, value) && Self::group_lower_cut(
                mid,
                b,
                g,
                goal,
                halt,
            )
    }

    /// Whether those of a group that still are duplicates of `node` were shrunk
    /// together until that ended as `halt` says, or have no simplest value.
    pub open spec fn group_cut(
        a: Self,
        b: Self,
        node: NodeView,
        positions: Seq<usize>,
        halt: ShrinkHalt,
    ) -> bool {
        let g = members(a.target(), node, positions);
        let first = g[0] as int;
        &&& positions.len() >= 2
        &&& g.len() >= 2
        &&& match integer_node(a.target(), first) {
            Some((k, v)) => Self::int_group_cut(a, b, g, integer_target(k), v, halt),
            None => match simplest_of(a.target()[first].kind) {
                Some(s) => s != node.value && b.replaced(a, group_reps(g, s), Err(halt)),
                None => b == a && Self::halted_in(a, b, halt),
            },
        }
    }

    /// How a pass on the duplicates of `t` ends at the group of a position.
    pub open spec fn duplicates_part(t: Seq<NodeView>, halt: ShrinkHalt) -> spec_fn(
        Self,
        Self,
        int,
    ) -> bool {
        |a: Self, b: Self, i: int|
            is_first(t, i) && Self::group_cut(a, b, t[i], group_of(t, i), halt)
    }

    /// Those of the positions whose choice still is a duplicate of `node`.
    fn still_members(&self, node: &ChoiceNode, positions: &Vec<usize>) -> (r: Vec<usize>)
        ensures
            r@ == members(self.target(), node@, positions@),
            forall|k: int| 0 <= k < r@.len() ==> (#[trigger] r@[k]) < self.target().len()
                && duplicates(self.target()[r@[k] as int], node@),
            (forall|k: int| 0 <= k < positions@.len() ==> (#[trigger] positions@[k])
                < self.target().len() && duplicates(self.target()[positions@[k] as int], node@))
                ==> r@ == positions@,
    {
        let ghost t = self.target();
        let mut out: Vec<usize> = Vec::new();
        let mut k: usize = 0;
        assert(positions@.take(0) =~= Seq::empty());
        while k < positions.len()
            invariant
                k <= positions@.len(),
                t == self.target(),
                out@ == members(t, node@, positions@.take(k as int)),
                forall|j: int| 0 <= j < out@.len() ==> (#[trigger] out@[j]) < t.len() && duplicates(
                    t[out@[j] as int],
                    node@,
                ),
                (forall|j: int| 0 <= j < k ==> (#[trigger] positions@[j]) < t.len() && duplicates(
                    t[positions@[j] as int],
                    node@,
                )) ==> out@ == positions@.take(k as int),
            decreases positions@.len() - k,
        {
            proof {
                assert(positions@.take(k + 1).drop_last() =~= positions@.take(k as int));
                assert(positions@.take(k + 1).last() == positions@[k as int]);
            }
            let i: usize = positions[k];
            if i < self.current_nodes.len() {
                assert(t[i as int] == self.current_nodes@[i as int]@);
                if is_duplicate(&self.current_nodes[i], node) {
                    out.push(i);
                }
            }
            assert(positions@.take(k + 1) =~= positions@.take(k as int).push(positions@[k as int]));
            k = k + 1;
        }
        assert(positions@.take(positions@.len() as int) =~= positions@);
        out
    }

    /// Offers the target with `candidate` at those of the positions that
    /// exist, where there are two at least.
    fn group_replace(&mut self, valid: &Vec<usize>, candidate: &BigInt) -> (r: Result<
        bool,
        ShrinkHalt,
    >)
        requires
            old(self).wf(),
        ensures
            final(self).follows(*old(self)),
            final(self).ends(*old(self), r.err()),
            r matches Ok(ok) ==> Self::group_offered(
                *old(self),
                *final(self),
                valid@,
                candidate@,
                ok,
            ),
            r matches Err(halt) ==> Self::group_offer_cut(
                *old(self),
                *final(self),
                valid@,
                candidate@,
                halt,
            ),
            r != Ok::<bool, ShrinkHalt>(true) ==> final(self).improvements
                == old(self).improvements,
            in_range(valid@, old(self).target()) ==> group_tried(
                final(self).history@,
                old(self).history@.len(),
                old(self).target(),
                valid@,
                candidate@,
            ),
    {
        let ghost t = self.target();
        let mut current: Vec<usize> = Vec::new();
        let mut k: usize = 0;
        assert(valid@.take(0) =~= Seq::empty());
        while k < valid.len()
            invariant
                k <= valid@.len(),
                t == self.target(),
                *self == *old(self),
                self.wf(),
                current@ == present(valid@.take(k as int), t.len() as int),
                (forall|j: int| 0 <= j < k ==> (#[trigger] valid@[j]) < t.len()) ==> current@
                    == valid@.take(k as int),
            decreases valid@.len() - k,
        {
            proof {
                assert(valid@.take(k + 1).drop_last() =~= valid@.take(k as int));
                assert(valid@.take(k + 1).last() == valid@[k as int]);
            }
            if valid[k] < self.current_nodes.len() {
                current.push(valid[k]);
            }
            assert(valid@.take(k + 1) =~= valid@.take(k as int).push(valid@[k as int]));
            k = k + 1;
        }
        assert(valid@.take(valid@.len() as int) =~= valid@);
        if current.len() < 2 {
            return Ok(false);
        }
        let values = same_value_at(&current, &ChoiceValue::Integer(candidate.clone()));
        self.replace(&values)
    }

    /// Tries a group of integers at `lo` plus ever less of `dist`, on the
    /// negative side where asked for.
    fn group_shift(
        &mut self,
        valid: &Vec<usize>,
        lo: &BigInt,
        dist: &BigUint,
        negative: bool,
    ) -> (r: Result<(), ShrinkHalt>)
        requires
            old(self).wf(),
            dist@ > 0,
        ensures
            final(self).follows(*old(self)),
            final(self).ends(*old(self), r.err()),
            r is Ok ==> Self::searched(
                *old(self),
                *final(self),
                Self::group_shift_step(valid@, lo@, dist@, negative),
            ),
            r matches Err(halt) ==> Self::search_cut(
                *old(self),
                *final(self),
                Self::group_shift_step(valid@, lo@, dist@, negative),
                Self::group_shift_part(valid@, lo@, dist@, negative, halt),
            ),
            r is Ok && final(self).improvements == old(self).improvements && in_range(
                valid@,
                old(self).target(),
            ) ==> group_tried(
                final(self).history@,
                old(self).history@.len(),
                old(self).target(),
                valid@,
                if negative {
                    -(lo@ + dist@ / pow2(1))
                } else {
                    lo@ + dist@ / pow2(1)
                },
            ),
    {
        let ghost start = *self;
        let ghost t = self.target();
        let ghost from = self.history@.len();
        let ghost first = if negative {
            -(lo@ + dist@ / pow2(1))
        } else {
            lo@ + dist@ / pow2(1)
        };
        let max_shift: usize = dist.bits().saturating_add(1);
        let ghost ask = Self::group_shift_step(valid@, lo@, dist@, negative);
        let mut search = FindInteger::new();
        let ghost mut marks = seq![(search, *self)];
        loop
            invariant
                start == *old(self),
                self.follows(start),
                self.goes_on(start),
                t == start.target(),
                from == start.history@.len(),
                search.wf(),
                ask == Self::group_shift_step(valid@, lo@, dist@, negative),
                Self::searching(marks, start, ask),
                marks.last() == (search, *self),
                max_shift >= 1,
                max_shift == if counted_bits(dist@) < usize::MAX {
                    counted_bits(dist@) + 1
                } else {
                    usize::MAX as int
                },
                first == if negative {
                    -(lo@ + dist@ / pow2(1))
                } else {
                    lo@ + dist@ / pow2(1)
                },
                (search.phase is Linear && search.lo == 0) || (self.improvements
                    == start.improvements && in_range(valid@, t) ==> group_tried(
                    self.history@,
                    from,
                    t,
                    valid@,
                    first,
                )),
            decreases search.stage(), search.room(),
        {
            match search.probe() {
                None => {
                    return Ok(());
                },
                Some(k) => {
                    let ghost before = *self;
                    let ghost fresh = search.phase is Linear && search.lo == 0;
                    let shift: usize = if k < max_shift {
                        k
                    } else {
                        max_shift
                    };
                    let magnitude = lo.plus(&BigInt::from_magnitude(dist.shift_right(shift)));
                    let candidate = if negative {
                        magnitude.negated()
                    } else {
                        magnitude
                    };
                    let ok = match self.group_replace(valid, &candidate) {
                        Ok(b) => b,
                        Err(halt) => {
                            proof {
                                Self::lemma_follows_transitive(start, before, *self);
                            }
                            return Err(halt);
                        },
                    };
                    proof {
                        Self::lemma_follows_transitive(start, before, *self);
                        if self.improvements == start.improvements && in_range(valid@, t) {
                            let h = if fresh {
                                self.history@
                            } else {
                                before.history@
                            };
                            let f = if fresh {
                                before.history@.len()
                            } else {
                                from
                            };
                            lemma_tried_stays(
                                h,
                                self.history@,
                                f,
                                from,
                                t,
                                group_reps(valid@, ValueView::Integer(first)),
                            );
                        }
                        Self::lemma_asked(marks, start, ask, ok, *self);
                        marks = marks.push((search.after(ok), *self));
                    }
                    search.record(ok);
                },
            }
        }
    }

    /// Tries a group of integers ever larger multiples of `step` below the
    /// value that they have, or above it where asked for.
    fn group_subtract(&mut self, valid: &Vec<usize>, step: u32, negative: bool) -> (r: Result<
        (),
        PassExit,
    >)
        requires
            old(self).wf(),
            valid@.len() > 0,
            step == 1 || step == 2,
        ensures
            final(self).follows(*old(self)),
            final(self).ends(*old(self), halt_of(r)),
            r is Ok ==> Self::searched(
                *old(self),
                *final(self),
                Self::group_subtract_step(valid@, step as int, negative),
            ),
            r is Err && !halted(r) ==> Self::broke_off(
                *old(self),
                *final(self),
                valid@,
                Self::group_subtract_step(valid@, step as int, negative),
            ),
            halt_of(r) matches Some(halt) ==> Self::search_cut(
                *old(self),
                *final(self),
                Self::group_subtract_step(valid@, step as int, negative),
                Self::group_subtract_part(valid@, step as int, negative, halt),
            ),
            final(self).improvements == old(self).improvements && !halted(r) && in_range(
                valid@,
                old(self).target(),
            ) ==> (integer_node(old(self).target(), valid@[0] as int) matches Some((_, v)) ==> r
                is Ok && group_tried(
                final(self).history@,
                old(self).history@.len(),
                old(self).target(),
                valid@,
                if negative {
                    v + step
                } else {
                    v - step
                },
            )),
    {
        let ghost start = *self;
        let ghost t = self.target();
        let ghost from = self.history@.len();
        let ghost v = integer_node(t, valid@[0] as int).unwrap().1;
        let ghost first = if negative {
            v + step
        } else {
            v - step
        };
        let ghost ask = Self::group_subtract_step(valid@, step as int, negative);
        let mut search = FindInteger::new();
        let ghost mut marks = seq![(search, *self)];
        loop
            invariant
                start == *old(self),
                self.follows(start),
                self.goes_on(start),
                t == start.target(),
                from == start.history@.len(),
                search.wf(),
                ask == Self::group_subtract_step(valid@, step as int, negative),
                Self::searching(marks, start, ask),
                marks.last() == (search, *self),
                valid@.len() > 0,
                step == 1 || step == 2,
                v == integer_node(t, valid@[0] as int).unwrap().1,
                first == if negative {
                    v + step
                } else {
                    v - step
                },
                (search.phase is Linear && search.lo == 0) || (self.improvements
                    == start.improvements && in_range(valid@, t) ==> group_tried(
                    self.history@,
                    from,
                    t,
                    valid@,
                    first,
                )),
            decreases search.stage(), search.room(),
        {
            match search.probe() {
                None => {
                    return Ok(());
                },
                Some(n) => {
                    let ghost before = *self;
                    let ghost fresh = search.phase is Linear && search.lo == 0;
                    let base = match self.int_value_bigint(valid[0]) {
                        Some(b) => b,
                        None => {
                            return Err(PassExit::NodeGone);
                        },
                    };
                    let mut amount = BigInt::from_u128(n as u128);
                    if step == 2 {
                        amount = amount.plus(&amount);
                    }
                    let attempt = if negative {
                        base.plus(&amount)
                    } else {
                        base.minus(&amount)
                    };
                    let ok = match self.group_replace(valid, &attempt) {
                        Ok(b) => b,
                        Err(halt) => {
                            proof {
                                Self::lemma_follows_transitive(start, before, *self);
                            }
                            return Err(PassExit::Halt(halt));
                        },
                    };
                    proof {
                        Self::lemma_follows_transitive(start, before, *self);
                        if self.improvements == start.improvements && in_range(valid@, t) {
                            let h = if fresh {
                                self.history@
                            } else {
                                before.history@
                            };
                            let f = if fresh {
                                before.history@.len()
                            } else {
                                from
                            };
                            lemma_tried_stays(
                                h,
                                self.history@,
                                f,
                                from,
                                t,
                                group_reps(valid@, ValueView::Integer(first)),
                            );
                        }
                        Self::lemma_asked(marks, start, ask, ok, *self);
                        marks = marks.push((search.after(ok), *self));
                    }
                    search.record(ok);
                },
            }
        }
    }

    /// Whether the first integer of a group is beyond `bound`: above it, or
    /// below it where asked for.
    fn is_beyond(&self, valid: &Vec<usize>, bound: &BigInt, negative: bool) -> (r: bool)
        requires
            valid@.len() > 0,
        ensures
            r == (integer_node(self.target(), valid@[0] as int) matches Some((_, v)) && if negative {
                v < bound@
            } else {
                v > bound@
            }),
    {
        match self.int_value_bigint(valid[0]) {
            Some(v) => {
                if negative {
                    v.less(bound)
                } else {
                    bound.less(&v)
                }
            },
            None => false,
        }
    }

    /// Brings a group of equal integers on one side of zero nearer to zero:
    /// to `lo` plus part of `dist`, then by steps of two, then of one.
    fn descend_group(
        &mut self,
        valid: &Vec<usize>,
        lo: &BigInt,
        dist: &BigUint,
        negative: bool,
    ) -> (r: Result<(), PassExit>)
        requires
            old(self).wf(),
            valid@.len() > 0,
            dist@ > 0,
        ensures
            final(self).follows(*old(self)),
            final(self).ends(*old(self), halt_of(r)),
            !halted(r) ==> Self::group_descended(
                *old(self),
                *final(self),
                valid@,
                lo@,
                dist@,
                negative,
                r is Err,
            ),
            halt_of(r) matches Some(halt) ==> Self::group_descent_cut(
                *old(self),
                *final(self),
                valid@,
                lo@,
                dist@,
                negative,
                halt,
            ),
            final(self).improvements == old(self).improvements && !halted(r) && in_range(
                valid@,
                old(self).target(),
            ) ==> (integer_node(old(self).target(), valid@[0] as int) matches Some((_, v)) ==> {
                &&& r is Ok
                &&& group_tried(
                    final(self).history@,
                    old(self).history@.len(),
                    old(self).target(),
                    valid@,
                    if negative {
                        -(lo@ + dist@ / pow2(1))
                    } else {
                        lo@ + dist@ / pow2(1)
                    },
                )
                &&& (if negative {
                    v < -lo@
                } else {
                    v > lo@
                }) ==> group_tried(
                    final(self).history@,
                    old(self).history@.len(),
                    old(self).target(),
                    valid@,
                    if negative {
                        v + 2
                    } else {
                        v - 2
                    },
                ) && group_tried(
                    final(self).history@,
                    old(self).history@.len(),
                    old(self).target(),
                    valid@,
                    if negative {
                        v + 1
                    } else {
                        v - 1
                    },
                )
            }),
    {
        let ghost start = *self;
        let ghost t = self.target();
        let ghost from = self.history@.len();
        match self.group_shift(valid, lo, dist, negative) {
            Ok(()) => {},
            Err(halt) => {
                return Err(PassExit::Halt(halt));
            },
        }
        let ghost s1 = *self;
        assert(Self::searched(
            start,
            s1,
            Self::group_shift_step(valid@, lo@, dist@, negative),
        ));
        let bound = if negative {
            lo.negated()
        } else {
            lo.clone()
        };
        if self.is_beyond(valid, &bound, negative) {
            match self.group_subtract(valid, 2, negative) {
                Ok(()) => {},
                Err(exit) => {
                    proof {
                        Self::lemma_follows_transitive(start, s1, *self);
                        if let Some(halt) = halt_of(Err::<(), PassExit>(exit)) {
                            assert(Self::group_steps_cut(
                                s1,
                                *self,
                                valid@,
                                bound@,
                                negative,
                                halt,
                            ));
                        }
                        if !halted(Err::<(), PassExit>(exit)) {
                            assert(Self::group_stepped(
                                s1,
                                *self,
                                valid@,
                                bound@,
                                negative,
                                2,
                                true,
                            ));
                            assert(Self::group_steps(s1, *self, valid@, bound@, negative, true));
                        }
                    }
                    return Err(exit);
                },
            }
        }
        let ghost s2 = *self;
        assert(Self::group_stepped(s1, s2, valid@, bound@, negative, 2, false));
        proof {
            Self::lemma_follows_transitive(start, s1, s2);
        }
        if self.is_beyond(valid, &bound, negative) {
            match self.group_subtract(valid, 1, negative) {
                Ok(()) => {},
                Err(exit) => {
                    proof {
                        Self::lemma_follows_transitive(start, s2, *self);
                        if let Some(halt) = halt_of(Err::<(), PassExit>(exit)) {
                            assert(Self::group_steps_cut(
                                s1,
                                *self,
                                valid@,
                                bound@,
                                negative,
                                halt,
                            ));
                        }
                        if !halted(Err::<(), PassExit>(exit)) {
                            assert(Self::group_stepped(
                                s2,
                                *self,
                                valid@,
                                bound@,
                                negative,
                                1,
                                true,
                            ));
                            assert(Self::group_steps(s1, *self, valid@, bound@, negative, true));
                        }
                    }
                    return Err(exit);
                },
            }
        }
        proof {
            assert(Self::group_stepped(s2, *self, valid@, bound@, negative, 1, false));
            assert(Self::group_steps(s1, *self, valid@, bound@, negative, false));
            Self::lemma_follows_transitive(start, s2, *self);
            Self::lemma_follows_transitive(s1, s2, *self);
            if self.improvements == start.improvements && in_range(valid@, t) && integer_node(
                t,
                valid@[0] as int,
            ) is Some {
                let v = integer_node(t, valid@[0] as int).unwrap().1;
                let h = self.history@;
                let half = if negative {
                    -(lo@ + dist@ / pow2(1))
                } else {
                    lo@ + dist@ / pow2(1)
                };
                lemma_tried_stays(
                    s1.history@,
                    h,
                    from,
                    from,
                    t,
                    group_reps(valid@, ValueView::Integer(half)),
                );
                if (if negative {
                    v < -lo@
                } else {
                    v > lo@
                }) {
                    let two = if negative {
                        v + 2
                    } else {
                        v - 2
                    };
                    let one = if negative {
                        v + 1
                    } else {
                        v - 1
                    };
                    lemma_tried_stays(
                        s2.history@,
                        h,
                        s1.history@.len(),
                        from,
                        t,
                        group_reps(valid@, ValueView::Integer(two)),
                    );
                    lemma_tried_stays(
                        h,
                        h,
                        s2.history@.len(),
                        from,
                        t,
                        group_reps(valid@, ValueView::Integer(one)),
                    );
                }
            }
        }
        Ok(())
    }

    /// Shrinks a group of equal integers together: to the simplest value at
    /// once, and failing that step by step.
    pub fn shrink_int_duplicate_group(
        &mut self,
        value: &BigInt,
        valid: &Vec<usize>,
        kind: &IntegerChoice,
    ) -> (r: Result<(), PassExit>)
        requires
            old(self).wf(),
            valid@.len() > 0,
        ensures
            final(self).follows(*old(self)),
            final(self).ends(*old(self), halt_of(r)),
            !halted(r) ==> Self::int_group_shrunk(
                *old(self),
                *final(self),
                valid@,
                integer_target(kind@),
                value@,
                r is Err,
            ),
            halt_of(r) matches Some(halt) ==> Self::int_group_cut(
                *old(self),
                *final(self),
                valid@,
                integer_target(kind@),
                value@,
                halt,
            ),
            final(self).improvements == old(self).improvements && !halted(r) ==> {
                let t = old(self).target();
                &&& value@ != integer_target(kind@) ==> group_tried(
                    final(self).history@,
                    old(self).history@.len(),
                    t,
                    valid@,
                    integer_target(kind@),
                )
                &&& in_range(valid@, t) ==> (integer_node(t, valid@[0] as int) matches Some((_, v))
                    ==> r is Ok && group_values_tried(
                    final(self).history@,
                    old(self).history@.len(),
                    t,
                    valid@,
                    integer_target(kind@),
                    v,
                ))
            },
    {
        let ghost start = *self;
        let ghost t = self.target();
        let ghost from = self.history@.len();
        let simplest = kind.simplest();
        if *value != simplest {
            let values = same_value_at(valid, &ChoiceValue::Integer(simplest.clone()));
            match self.replace(&values) {
                Ok(_) => {},
                Err(halt) => {
                    return Err(PassExit::Halt(halt));
                },
            }
        }
        let ghost s1 = *self;
        assert(Self::simplest_tried(start, s1, valid@, integer_target(kind@), value@));
        let current = match self.int_value_bigint(valid[0]) {
            Some(v) => v,
            None => {
                assert(Self::group_lowered(s1, *self, valid@, integer_target(kind@), true));
                return Err(PassExit::NodeGone);
            },
        };
        let negative = current.is_negative();
        let toward = if negative {
            simplest.negated()
        } else {
            simplest.clone()
        };
        let lo = toward.larger(&BigInt::zero());
        let magnitude = BigInt::from_magnitude(current.magnitude());
        let dist = magnitude.minus(&lo);
        if dist.is_positive() {
            match self.descend_group(valid, &lo, &dist.magnitude(), negative) {
                Ok(()) => {},
                Err(exit) => {
                    proof {
                        Self::lemma_follows_transitive(start, s1, *self);
                        if let Some(halt) = halt_of(Err::<(), PassExit>(exit)) {
                            assert(Self::group_lower_cut(
                                s1,
                                *self,
                                valid@,
                                integer_target(kind@),
                                halt,
                            ));
                        }
                        if !halted(Err::<(), PassExit>(exit)) {
                            assert(Self::group_lowered(
                                s1,
                                *self,
                                valid@,
                                integer_target(kind@),
                                true,
                            ));
                        }
                        if self.improvements == start.improvements && !halted(
                            Err::<(), PassExit>(exit),
                        ) && value@ != integer_target(kind@) {
                            lemma_tried_stays(
                                s1.history@,
                                self.history@,
                                from,
                                from,
                                t,
                                group_reps(valid@, ValueView::Integer(simplest@)),
                            );
                        }
                    }
                    return Err(exit);
                },
            }
        }
        proof {
            assert(Self::group_lowered(s1, *self, valid@, integer_target(kind@), false));
            Self::lemma_follows_transitive(start, s1, *self);
            if self.improvements == start.improvements {
                let h = self.history@;
                if value@ != integer_target(kind@) {
                    lemma_tried_stays(
                        s1.history@,
                        h,
                        from,
                        from,
                        t,
                        group_reps(valid@, ValueView::Integer(simplest@)),
                    );
                }
                if in_range(valid@, t) && integer_node(t, valid@[0] as int) is Some {
                    let v = integer_node(t, valid@[0] as int).unwrap().1;
                    let f = s1.history@.len();
                    let goal = integer_target(kind@);
                    if v > at_least_zero(goal) {
                        let half = at_least_zero(goal) + (v - at_least_zero(goal)) / (pow2(1) as int);
                        lemma_tried_stays(h, h, f, from, t, group_reps(valid@, ValueView::Integer(half)));
                        lemma_tried_stays(h, h, f, from, t, group_reps(valid@, ValueView::Integer(v - 2)));
                        lemma_tried_stays(h, h, f, from, t, group_reps(valid@, ValueView::Integer(v - 1)));
                    }
                    let hi = -at_least_zero(-goal);
                    if v < hi {
                        let half = hi - (hi - v) / (pow2(1) as int);
                        lemma_tried_stays(h, h, f, from, t, group_reps(valid@, ValueView::Integer(half)));
                        lemma_tried_stays(h, h, f, from, t, group_reps(valid@, ValueView::Integer(v + 2)));
                        lemma_tried_stays(h, h, f, from, t, group_reps(valid@, ValueView::Integer(v + 1)));
                    }
                }
            }
        }
        Ok(())
    }
}

/// What a pass over one group is sure to try: the simplest value for all of
/// it, and for integers the values on the way there.
pub open spec fn group_shrunk(
    h: Seq<Offer>,
    from: nat,
    t: Seq<NodeView>,
    i: int,
) -> bool {
    let g = group_of(t, i);
    g.len() >= 2 ==> {
        &&& simplest_of(t[i].kind) matches Some(s) ==> s != t[i].value ==> tried(
            h,
            from,
            t,
            group_reps(g, s),
        )
        &&& integer_node(t, i) matches Some((k, v)) ==> group_values_tried(
            h,
            from,
            t,
            g,
            integer_target(k),
            v,
        )
    }
}

/// Whether every group of duplicates was tried as a whole.
pub open spec fn groups_tried(h: Seq<Offer>, from: nat, t: Seq<NodeView>) -> bool {
    forall|i: int|
        0 <= i < t.len() && #[trigger] is_first(t, i) ==> group_shrunk(h, from, t, i)
}

/// Whether no choice has a duplicate.
pub open spec fn all_solitary(t: Seq<NodeView>) -> bool {
    forall|i: int| 0 <= i < t.len() && #[trigger] is_first(t, i) ==> group_of(t, i).len() < 2
}

pub(crate) proof fn lemma_groups_stay(
    h1: Seq<Offer>,
    h2: Seq<Offer>,
    from1: nat,
    from2: nat,
    t: Seq<NodeView>,
)
    requires
        extends(h1, h2),
        from2 <= from1,
        groups_tried(h1, from1, t),
    ensures
        groups_tried(h2, from2, t),
{
    assert forall|i: int| 0 <= i < t.len() && #[trigger] is_first(t, i) implies group_shrunk(
        h2,
        from2,
        t,
        i,
    ) by {
        lemma_group_shrunk_stays(h1, h2, from1, from2, t, i);
    }
}

proof fn lemma_group_shrunk_stays(
    h1: Seq<Offer>,
    h2: Seq<Offer>,
    from1: nat,
    from2: nat,
    t: Seq<NodeView>,
    i: int,
)
    requires
        extends(h1, h2),
        from2 <= from1,
        group_shrunk(h1, from1, t, i),
    ensures
        group_shrunk(h2, from2, t, i),
{
    let g = group_of(t, i);
    if g.len() >= 2 {
        if let Some(s) = simplest_of(t[i].kind) {
            if s != t[i].value {
                lemma_tried_stays(h1, h2, from1, from2, t, group_reps(g, s));
            }
        }
        if let Some((k, v)) = integer_node(t, i) {
            let goal = integer_target(k);
            let lo = at_least_zero(goal);
            let hi = -at_least_zero(-goal);
            if v > lo {
                let half = lo + (v - lo) / (pow2(1) as int);
                lemma_tried_stays(h1, h2, from1, from2, t, group_reps(g, ValueView::Integer(half)));
                lemma_tried_stays(h1, h2, from1, from2, t, group_reps(g, ValueView::Integer(v - 2)));
                lemma_tried_stays(h1, h2, from1, from2, t, group_reps(g, ValueView::Integer(v - 1)));
            }
            if v < hi {
                let half = hi - (hi - v) / (pow2(1) as int);
                lemma_tried_stays(h1, h2, from1, from2, t, group_reps(g, ValueView::Integer(half)));
                lemma_tried_stays(h1, h2, from1, from2, t, group_reps(g, ValueView::Integer(v + 2)));
                lemma_tried_stays(h1, h2, from1, from2, t, group_reps(g, ValueView::Integer(v + 1)));
            }
        }
    }
}

/// The group of a choice that is the first of it starts with that choice.
proof fn lemma_group_starts_with_first(t: Seq<NodeView>, i: int, n: int)
    requires
        0 <= i < n <= t.len(),
        t.len() <= usize::MAX,
        is_first(t, i),
        duplicates(t[i], t[i]),
    ensures
        group_upto(t, i, n).len() > 0,
        group_upto(t, i, n)[0] == i,
    decreases n,
{
    if n - 1 > i {
        lemma_group_starts_with_first(t, i, n - 1);
    } else {
        lemma_group_empty_before_first(t, i, i);
    }
}

proof fn lemma_group_empty_before_first(t: Seq<NodeView>, i: int, n: int)
    requires
        0 <= n <= i < t.len(),
        is_first(t, i),
    ensures
        group_upto(t, i, n).len() == 0,
    decreases n,
{
    if n > 0 {
        lemma_group_empty_before_first(t, i, n - 1);
        assert(!duplicates(t[n - 1], t[i]));
    }
}

impl<P: ShrinkProbe> Shrinker<P> {
    /// Shrinks one group of duplicates, given by its positions and one of its
    /// choices.
    fn shrink_group(&mut self, node: &ChoiceNode, positions: &Vec<usize>) -> (r: Result<
        (),
        ShrinkHalt,
    >)
        requires
            old(self).wf(),
        ensures
            final(self).follows(*old(self)),
            final(self).ends(*old(self), r.err()),
            r is Ok ==> Self::group_done(*old(self), *final(self), node@, positions@),
            r matches Err(halt) ==> Self::group_cut(
                *old(self),
                *final(self),
                node@,
                positions@,
                halt,
            ),
            positions@.len() < 2 ==> r == Ok::<(), ShrinkHalt>(()) && *final(self) == *old(self),
            r is Ok && final(self).improvements == old(self).improvements ==> forall|i: int|
                0 <= i < old(self).target().len() && #[trigger] is_first(old(self).target(), i)
                    && node@ == old(self).target()[i] && positions@ == group_of(
                    old(self).target(),
                    i,
                ) && (forall|k: int|
                    0 <= k < positions@.len() ==> (#[trigger] positions@[k])
                        < old(self).target().len() && duplicates(
                        old(self).target()[positions@[k] as int],
                        node@,
                    )) ==> group_shrunk(
                    final(self).history@,
                    old(self).history@.len(),
                    old(self).target(),
                    i,
                ),
    {
        let ghost start = *self;
        let ghost t = self.target();
        if positions.len() < 2 {
            return Ok(());
        }
        let valid = self.still_members(node, positions);
        if valid.len() < 2 {
            return Ok(());
        }
        let len: usize = self.current_nodes.len();
        proof {
            assert(t.len() == len);
            assert forall|i: int|
                0 <= i < t.len() && #[trigger] is_first(t, i) && node@ == t[i] && positions@
                    == group_of(t, i) && valid@ == positions@ implies valid@[0] == i by {
                let first = valid@[0] as int;
                assert(duplicates(t[first], node@));
                lemma_group_starts_with_first(t, i, t.len() as int);
            }
            assert(t[valid@[0] as int] == self.current_nodes@[valid@[0] as int]@);
        }
        if let Some((kind, value)) = self.integer_choice(valid[0]) {
            let outcome = self.shrink_int_duplicate_group(&value, &valid, &kind);
            return absorb_node_gone(outcome);
        }
        match self.current_nodes[valid[0]].data.simplest_value() {
            Err(e) => Err(ShrinkHalt::internal(e)),
            Ok(simplest) => {
                if simplest.same(&node.value()) {
                    Ok(())
                } else {
                    let values = same_value_at(&valid, &simplest);
                    match self.replace(&values) {
                        Ok(_) => Ok(()),
                        Err(halt) => Err(halt),
                    }
                }
            },
        }
    }

    /// Shrinks choices that have the same value together, so that they stay
    /// equal. Groups are taken in the order in which they first appear, each
    /// to its end.
    ///
    /// Unless something better turns up, every group is tried at its simplest
    /// value, and a group of integers halfway there and one and two steps
    /// nearer. Choices without a duplicate are left alone.
    pub fn shrink_duplicates(&mut self) -> (r: Result<(), ShrinkHalt>)
        requires
            old(self).wf(),
        ensures
            final(self).follows(*old(self)),
            final(self).ends(*old(self), r.err()),
            r is Ok ==> Self::walked(
                *old(self),
                *final(self),
                old(self).target().len() as int,
                Self::duplicates_step(old(self).target()),
            ),
            r matches Err(halt) ==> Self::walk_cut(
                *old(self),
                *final(self),
                old(self).target().len() as int,
                Self::duplicates_step(old(self).target()),
                Self::duplicates_part(old(self).target(), halt),
            ),
            all_solitary(old(self).target()) ==> r == Ok::<(), ShrinkHalt>(()) && *final(self)
                == *old(self),
            r is Ok && final(self).improvements == old(self).improvements ==> groups_tried(
                final(self).history@,
                old(self).history@.len(),
                old(self).target(),
            ),
    {
        let ghost start = *self;
        let ghost t = self.target();
        let ghost from = self.history@.len();
        let snapshot = copy_nodes(self.current_nodes.as_slice());
        let mut i: usize = 0;
        let ghost step = Self::duplicates_step(t);
        let ghost mut marks = seq![*self];
        assert(nodes_view(snapshot@).len() == snapshot@.len());
        while i < snapshot.len()
            invariant
                step == Self::duplicates_step(t),
                Self::walking(marks, start, step),
                marks.last() == *self,
                marks.len() == i + 1,
                start == *old(self),
                self.follows(start),
                self.goes_on(start),
                t == start.target(),
                from == start.history@.len(),
                nodes_view(snapshot@) == t,
                snapshot@.len() == t.len(),
                i <= snapshot@.len(),
                all_solitary(t) ==> *self == start,
                self.improvements == start.improvements ==> forall|j: int|
                    0 <= j < i && #[trigger] is_first(t, j) ==> group_shrunk(
                        self.history@,
                        from,
                        t,
                        j,
                    ),
            decreases snapshot@.len() - i,
        {
            let ghost before = *self;
            let first = is_first_of_group(&snapshot, i);
            if first {
                let positions = group_members(&snapshot, i);
                proof {
                    assert(t[i as int] == snapshot@[i as int]@);
                    assert forall|k: int| 0 <= k < positions@.len() implies (
                    #[trigger] positions@[k]) < t.len() && duplicates(
                        t[positions@[k] as int],
                        snapshot@[i as int]@,
                    ) by {
                        assert(t[positions@[k] as int] == snapshot@[positions@[k] as int]@);
                    }
                }
                let outcome = self.shrink_group(&snapshot[i], &positions);
                proof {
                    Self::lemma_follows_transitive(start, before, *self);
                    assert(Self::walked(start, before, i as int, step));
                }
                match outcome {
                    Ok(()) => {},
                    Err(halt) => {
                        return Err(halt);
                    },
                }
            }
            proof {
                if self.improvements == start.improvements {
                    assert forall|j: int|
                        0 <= j < i + 1 && #[trigger] is_first(t, j) implies group_shrunk(
                        self.history@,
                        from,
                        t,
                        j,
                    ) by {
                        let h = if j == i {
                            self.history@
                        } else {
                            before.history@
                        };
                        let f = if j == i {
                            before.history@.len()
                        } else {
                            from
                        };
                        lemma_group_shrunk_stays(h, self.history@, f, from, t, j);
                    }
                }
            }
            proof {
                Self::lemma_stepped(marks, start, step, *self);
                marks = marks.push(*self);
            }
            i = i + 1;
        }
        assert(Self::walked(start, *self, t.len() as int, step));
        Ok(())
    }
}

} // verus!
