//! The shrink pass on integers that have been changing together.
use super::extends;
use super::integers::integer_node;
use super::lemma_tried_stays;
use super::reps_view;
use super::search::FindInteger;
use super::tried;
use super::Offer;
use super::ShrinkHalt;
use super::ShrinkProbe;
use super::Shrinker;
use crate::bignum::magnitude_of;
use crate::bignum::BigInt;
use crate::bignum::BigUint;
use crate::bignum::Comparison;
use crate::choices::integer_target;
use crate::choices::nodes_view;
use crate::choices::ChoiceValue;
use crate::choices::NodeView;
use crate::choices::ValueView;
use vstd::prelude::*;

verus! {

broadcast use vstd::std_specs::hash::group_hash_axioms;

/// The tracked positions below `n`, in ascending order.
pub open spec fn changed_upto(changed: Set<usize>, n: int) -> Seq<usize>
    decreases n,
{
    if n <= 0 {
        Seq::empty()
    } else {
        let front = changed_upto(changed, n - 1);
        if changed.contains((n - 1) as usize) {
            front.push((n - 1) as usize)
        } else {
            front
        }
    }
}

/// The integers at the given positions that are not at their goal.
pub open spec fn movers_of(t: Seq<NodeView>, positions: Seq<usize>) -> Seq<(usize, int, int)>
    decreases positions.len(),
{
    if positions.len() == 0 {
        Seq::empty()
    } else {
        let front = movers_of(t, positions.drop_last());
        let i = positions.last();
        match integer_node(t, i as int) {
            Some((k, v)) => if v == integer_target(k) {
                front
            } else {
                front.push((i, integer_target(k), v))
            },
            None => front,
        }
    }
}

/// The value at distance `n` less from its goal, or on the other side of it.
pub open spec fn nearer(goal: int, v: int, n: int, flip: bool) -> int {
    let d = magnitude_of(v - goal) - n;
    if (v > goal) != flip {
        goal + d
    } else {
        goal - d
    }
}

/// The replacements that bring every mover `n` steps nearer to its goal.
pub open spec fn nearer_reps(
    movers: Seq<(usize, int, int)>,
    n: int,
    flip: bool,
) -> Seq<(usize, ValueView)> {
    movers.map_values(|m: (usize, int, int)| (m.0, ValueView::Integer(nearer(m.1, m.2, n, flip))))
}

/// Whether two or more tracked integers are not at their goals.
pub open spec fn has_common_offset(t: Seq<NodeView>, changed: Set<usize>) -> bool {
    let positions = changed_upto(changed, t.len() as int);
    positions.len() > 1 && movers_of(t, positions).len() > 1
}

/// Whether all tracked integers were offered one step nearer to their goals,
/// on their own sides and on the other ones.
pub open spec fn offsets_tried(
    h: Seq<Offer>,
    from: nat,
    t: Seq<NodeView>,
    changed: Set<usize>,
) -> bool {
    let movers = movers_of(t, changed_upto(changed, t.len() as int));
    has_common_offset(t, changed) ==> tried(h, from, t, nearer_reps(movers, 1, false)) && tried(
        h,
        from,
        t,
        nearer_reps(movers, 1, true),
    )
}

/// What was tried stays so in a longer history.
pub(super) proof fn lemma_offsets_stay(
    h1: Seq<Offer>,
    h2: Seq<Offer>,
    from1: nat,
    from2: nat,
    t: Seq<NodeView>,
    changed: Set<usize>,
)
    requires
        extends(h1, h2),
        from2 <= from1,
        offsets_tried(h1, from1, t, changed),
    ensures
        offsets_tried(h2, from2, t, changed),
{
    if has_common_offset(t, changed) {
        let movers = movers_of(t, changed_upto(changed, t.len() as int));
        lemma_tried_stays(h1, h2, from1, from2, t, nearer_reps(movers, 1, false));
        lemma_tried_stays(h1, h2, from1, from2, t, nearer_reps(movers, 1, true));
    }
}

/// Whether every mover is at least `n` steps from its goal.
pub open spec fn all_reach(movers: Seq<(usize, int, int)>, n: int) -> bool {
    forall|k: int|
        0 <= k < movers.len() ==> magnitude_of((#[trigger] movers[k]).2 - movers[k].1) >= n
}

struct Mover {
    index: usize,
    goal: BigInt,
    value: BigInt,
    distance: BigUint,
}

spec fn movers_view(s: Seq<Mover>) -> Seq<(usize, int, int)> {
    s.map_values(|m: Mover| (m.index, m.goal@, m.value@))
}

spec fn movers_wf(s: Seq<Mover>) -> bool {
    forall|k: int| 0 <= k < s.len() ==> (#[trigger] s[k]).distance@ == magnitude_of(
        s[k].value@ - s[k].goal@,
    ) && s[k].distance@ > 0
}

impl<P: ShrinkProbe> Shrinker<P> {
    /// The tracked positions, in ascending order.
    fn changed_positions(&self) -> (r: Vec<usize>)
        ensures
            r@ == changed_upto(self.all_changed_nodes@, self.target().len() as int),
    {
        let n: usize = self.current_nodes.len();
        let mut out: Vec<usize> = Vec::new();
        let mut i: usize = 0;
        while i < n
            invariant
                i <= n,
                n == self.target().len(),
                out@ == changed_upto(self.all_changed_nodes@, i as int),
            decreases n - i,
        {
            if self.changed_nodes().contains(&i) {
                out.push(i);
            }
            i = i + 1;
        }
        out
    }

    fn collect_movers(&self, positions: &Vec<usize>) -> (r: Vec<Mover>)
        ensures
            movers_view(r@) == movers_of(self.target(), positions@),
            movers_wf(r@),
    {
        let ghost t = self.target();
        let mut out: Vec<Mover> = Vec::new();
        let mut k: usize = 0;
        assert(positions@.take(0) =~= Seq::empty());
        assert(movers_view(out@) =~= Seq::empty());
        while k < positions.len()
            invariant
                k <= positions@.len(),
                t == self.target(),
                movers_view(out@) == movers_of(t, positions@.take(k as int)),
                movers_wf(out@),
            decreases positions@.len() - k,
        {
            proof {
                assert(positions@.take(k + 1).drop_last() =~= positions@.take(k as int));
                assert(positions@.take(k + 1).last() == positions@[k as int]);
            }
            let index: usize = positions[k];
            match self.integer_choice(index) {
                Some((kind, value)) => {
                    let goal = kind.clamped_shrink_towards();
                    if value != goal {
                        let distance = value.minus(&goal).magnitude();
                        let ghost before = out@;
                        let ghost view = (index, goal@, value@);
                        out.push(Mover { index, goal, value, distance });
                        assert(movers_view(out@) =~= movers_view(before).push(view));
                    }
                },
                None => {},
            }
            k = k + 1;
        }
        assert(positions@.take(positions@.len() as int) =~= positions@);
        out
    }

    /// How lowering a common offset asks for a number of steps: none of the movers
    /// goes beyond its goal, and the candidate has all of them nearer by that
    /// much.
    pub open spec fn offset_step(movers: Seq<(usize, int, int)>, flip: bool) -> spec_fn(
        Self,
        Self,
        int,
        bool,
    ) -> bool {
        |a: Self, b: Self, n: int, ok: bool|
            if all_reach(movers, n) {
                b.replaced(a, nearer_reps(movers, n, flip), Ok(ok))
            } else {
                !ok && b == a
            }
    }

    /// How lowering a common offset ends at an amount.
    pub open spec fn offset_part(
        movers: Seq<(usize, int, int)>,
        flip: bool,
        halt: ShrinkHalt,
    ) -> spec_fn(Self, Self, int) -> bool {
        |a: Self, b: Self, n: int|
            all_reach(movers, n) && b.replaced(a, nearer_reps(movers, n, flip), Err(halt))
    }

    /// Whether a common offset was lowered as far as the test allows, first with
    /// the movers on their own sides and then on the other ones.
    pub open spec fn offset_lowered(a: Self, b: Self) -> bool {
        if has_common_offset(a.target(), a.all_changed_nodes@) {
            Self::both_offsets(
                a,
                b,
                movers_of(
                    a.target(),
                    changed_upto(a.all_changed_nodes@, a.target().len() as int),
                ),
            )
        } else {
            b == a
        }
    }

    /// Whether the movers were brought nearer to their goals on both sides.
    pub open spec fn both_offsets(a: Self, b: Self, movers: Seq<(usize, int, int)>) -> bool {
        exists|mid: Self| #[trigger]
            Self::searched(a, mid, Self::offset_step(movers, false)) && Self::searched(
                mid,
                b,
                Self::offset_step(movers, true),
            )
    }

    /// Whether a common offset was lowered, and changes are then tracked from the
    /// new target on.
    pub open spec fn offset_passed(a: Self, b: Self) -> bool {
        exists|mid: Self| #[trigger]
            Self::offset_lowered(a, mid) && b == (Shrinker {
                all_changed_nodes: b.all_changed_nodes,
                last_checkpoint_nodes: b.last_checkpoint_nodes,
                ..mid
            })
    }

    /// Whether a common offset was lowered until that ended as `halt` says, in the
    /// first search or in the second one.
    pub open spec fn offset_cut(a: Self, b: Self, halt: ShrinkHalt) -> bool {
        let movers = movers_of(
            a.target(),
            changed_upto(a.all_changed_nodes@, a.target().len() as int),
        );
        &&& has_common_offset(a.target(), a.all_changed_nodes@)
        &&& Self::search_cut(
            a,
            b,
            Self::offset_step(movers, false),
            Self::offset_part(movers, false, halt),
        ) || exists|mid: Self|
            #[trigger]
            Self::searched(a, mid, Self::offset_step(movers, false)) && Self::search_cut(
                mid,
                b,
                Self::offset_step(movers, true),
                Self::offset_part(movers, true, halt),
            )
    }

    /// Whether lowering a common offset ended as `halt` says, and changes are then
    /// tracked from the new target on.
    pub open spec fn offset_pass_cut(a: Self, b: Self, halt: ShrinkHalt) -> bool {
        exists|mid: Self| #[trigger]
            Self::offset_cut(a, mid, halt) && b == (Shrinker {
                all_changed_nodes: b.all_changed_nodes,
                last_checkpoint_nodes: b.last_checkpoint_nodes,
                ..mid
            })
    }

    /// Brings all movers ever nearer to their goals at once.
    fn search_offset(&mut self, movers: &Vec<Mover>, flip: bool) -> (r: Result<(), ShrinkHalt>)
        requires
            old(self).wf(),
            movers_wf(movers@),
        ensures
            final(self).follows(*old(self)),
            final(self).ends(*old(self), r.err()),
            r is Ok ==> Self::searched(
                *old(self),
                *final(self),
                Self::offset_step(movers_view(movers@), flip),
            ),
            r matches Err(halt) ==> Self::search_cut(
                *old(self),
                *final(self),
                Self::offset_step(movers_view(movers@), flip),
                Self::offset_part(movers_view(movers@), flip, halt),
            ),
            r is Ok && final(self).improvements == old(self).improvements ==> tried(
                final(self).history@,
                old(self).history@.len(),
                old(self).target(),
                nearer_reps(movers_view(movers@), 1, flip),
            ),
    {
        let ghost start = *self;
        let ghost t = self.target();
        let ghost from = self.history@.len();
        let ghost first = nearer_reps(movers_view(movers@), 1, flip);
        let ghost ask = Self::offset_step(movers_view(movers@), flip);
        let mut search = FindInteger::new();
        let ghost mut marks = seq![(search, *self)];
        loop
            invariant
                start == *old(self),
                self.follows(start),
                self.goes_on(start),
                t == start.target(),
                from == start.history@.len(),
                search.wf(),
                ask == Self::offset_step(movers_view(movers@), flip),
                Self::searching(marks, start, ask),
                marks.last() == (search, *self),
                movers_wf(movers@),
                first == nearer_reps(movers_view(movers@), 1, flip),
                (search.phase is Linear && search.lo == 0) || (self.improvements
                    == start.improvements ==> tried(self.history@, from, t, first)),
            decreases search.stage(), search.room(),
        {
            match search.probe() {
                None => {
                    return Ok(());
                },
                Some(n) => {
                    let ghost before = *self;
                    let ghost fresh = search.phase is Linear && search.lo == 0;
                    let ok = match nearer_values(movers, n, flip) {
                        None => false,
                        Some(values) => match self.replace(&values) {
                            Ok(b) => b,
                            Err(halt) => {
                                proof {
                                    Self::lemma_follows_transitive(start, before, *self);
                                }
                                return Err(halt);
                            },
                        },
                    };
                    proof {
                        Self::lemma_follows_transitive(start, before, *self);
                        if self.improvements == start.improvements {
                            let h = if fresh {
                                self.history@
                            } else {
                                before.history@
                            };
                            let f = if fresh {
                                before.history@.len()
                            } else {
                                from
                            };
                            lemma_tried_stays(h, self.history@, f, from, t, first);
                        }
                        Self::lemma_asked(marks, start, ask, ok, *self);
                        marks = marks.push((search.after(ok), *self));
                    }
                    search.record(ok);
                },
            }
        }
    }

    /// Brings all integers that changed since tracking was last cleared nearer
    /// to their goals by the same amount, on their own sides or on the other
    /// ones. Then, however that went, tracks changes from the new target on.
    ///
    /// Two integers that hold each other in place, such as by how far they
    /// are apart, come down together this way.
    pub fn lower_common_node_offset(&mut self) -> (r: Result<(), ShrinkHalt>)
        requires
            old(self).wf(),
        ensures
            final(self).advances(*old(self)),
            final(self).debug == old(self).debug,
            final(self).ends(*old(self), r.err()),
            r is Ok ==> Self::offset_passed(*old(self), *final(self)),
            r matches Err(halt) ==> Self::offset_pass_cut(*old(self), *final(self), halt),
            final(self).all_changed_nodes@ == Set::<usize>::empty(),
            nodes_view(final(self).last_checkpoint_nodes@) == final(self).target(),
            !has_common_offset(old(self).target(), old(self).all_changed_nodes@) ==> {
                &&& r == Ok::<(), ShrinkHalt>(())
                &&& *final(self) == (Shrinker {
                    all_changed_nodes: final(self).all_changed_nodes,
                    last_checkpoint_nodes: final(self).last_checkpoint_nodes,
                    ..*old(self)
                })
            },
            r is Ok && final(self).improvements == old(self).improvements ==> offsets_tried(
                final(self).history@,
                old(self).history@.len(),
                old(self).target(),
                old(self).all_changed_nodes@,
            ),
    {
        let ghost start = *self;
        let r = self.lower_offset();
        let ghost lowered = *self;
        self.clear_change_tracking();
        proof {
            assert(self.target() == lowered.target());
            if r is Err {
                assert(Self::offset_cut(start, lowered, r->Err_0));
            }
        }
        r
    }

    /// Brings all integers that changed since tracking was last cleared nearer
    /// to their goals by the same amount.
    fn lower_offset(&mut self) -> (r: Result<(), ShrinkHalt>)
        requires
            old(self).wf(),
        ensures
            final(self).follows(*old(self)),
            final(self).ends(*old(self), r.err()),
            r is Ok ==> Self::offset_lowered(*old(self), *final(self)),
            r matches Err(halt) ==> Self::offset_cut(*old(self), *final(self), halt),
            !has_common_offset(old(self).target(), old(self).all_changed_nodes@) ==> r == Ok::<
                (),
                ShrinkHalt,
            >(()) && *final(self) == *old(self),
            r is Ok && final(self).improvements == old(self).improvements ==> offsets_tried(
                final(self).history@,
                old(self).history@.len(),
                old(self).target(),
                old(self).all_changed_nodes@,
            ),
    {
        let ghost start = *self;
        let ghost t = self.target();
        let ghost from = self.history@.len();
        let changed = self.changed_positions();
        if changed.len() <= 1 {
            return Ok(());
        }
        let movers = self.collect_movers(&changed);
        let ghost view = movers_view(movers@);
        assert(view.len() == movers@.len());
        if movers.len() <= 1 {
            return Ok(());
        }
        match self.search_offset(&movers, false) {
            Ok(()) => {},
            Err(halt) => {
                return Err(halt);
            },
        }
        let ghost s1 = *self;
        let outcome = self.search_offset(&movers, true);
        proof {
            Self::lemma_follows_transitive(start, s1, *self);
            assert(Self::searched(start, s1, Self::offset_step(view, false)));
            assert(outcome is Ok ==> Self::both_offsets(start, *self, view));
            if outcome is Ok && self.improvements == start.improvements {
                lemma_tried_stays(
                    s1.history@,
                    self.history@,
                    from,
                    from,
                    t,
                    nearer_reps(view, 1, false),
                );
                lemma_tried_stays(
                    self.history@,
                    self.history@,
                    s1.history@.len(),
                    from,
                    t,
                    nearer_reps(view, 1, true),
                );
            }
        }
        outcome
    }
}

/// The replacements that bring every mover `n` steps nearer to its goal, where
/// none is nearer than that already.
fn nearer_values(movers: &Vec<Mover>, n: usize, flip: bool) -> (r: Option<
    Vec<(usize, ChoiceValue)>,
>)
    requires
        movers_wf(movers@),
    ensures
        match r {
            Some(values) => reps_view(values@) == nearer_reps(
                movers_view(movers@),
                n as int,
                flip,
            ),
            None => n > 1 && !all_reach(movers_view(movers@), n as int),
        },
        r is Some ==> all_reach(movers_view(movers@), n as int),
{
    let step = BigUint::from_u128(n as u128);
    let mut out: Vec<(usize, ChoiceValue)> = Vec::new();
    let mut k: usize = 0;
    while k < movers.len()
        invariant
            k <= movers@.len(),
            out@.len() == k,
            step@ == n,
            movers_wf(movers@),
            forall|j: int| 0 <= j < k ==> (#[trigger] movers@[j]).distance@ >= n,
            forall|j: int|
                0 <= j < k ==> (#[trigger] out@[j]).0 == movers@[j].index && out@[j].1@
                    == ValueView::Integer(
                    nearer(movers@[j].goal@, movers@[j].value@, n as int, flip),
                ),
        decreases movers@.len() - k,
    {
        let mover = &movers[k];
        if mover.distance.compare(&step) == Comparison::Less {
            proof {
                let m = movers_view(movers@)[k as int];
                assert(magnitude_of(m.2 - m.1) < n);
            }
            return None;
        }
        let rest = BigInt::from_magnitude(mover.distance.minus(&step));
        let above = mover.goal.less(&mover.value);
        let value = if above != flip {
            mover.goal.plus(&rest)
        } else {
            mover.goal.minus(&rest)
        };
        out.push((mover.index, ChoiceValue::Integer(value)));
        k = k + 1;
    }
    assert(reps_view(out@) =~= nearer_reps(movers_view(movers@), n as int, flip));
    assert forall|j: int| 0 <= j < movers_view(movers@).len() implies magnitude_of(
        (#[trigger] movers_view(movers@)[j]).2 - movers_view(movers@)[j].1,
    ) >= n by {
        assert(movers@[j].distance@ >= n);
    }
    Some(out)
}

} // verus!
