//! Shrink passes on integer choices.
use super::absorb_node_gone;
use super::applicable;
use super::applied;
use super::extends;
use super::halt_of;
use super::lemma_tried_stays;
use super::reps_view;
use super::tried;
use super::search::BinSearchDownBig;
use super::search::FindInteger;
use super::Offer;
use super::PassExit;
use super::ShrinkHalt;
use super::ShrinkProbe;
use super::Shrinker;
use crate::bignum::bit_length;
use crate::bignum::lemma_bit_length;
use crate::bignum::magnitude_of;
use crate::bignum::BigInt;
use crate::bignum::BigUint;
use crate::bignum::Comparison;
use crate::choices::integer_target;
use crate::choices::simplest_of;
use crate::choices::ChoiceData;
use crate::choices::ChoiceValue;
use crate::choices::IntegerChoice;
use crate::choices::IntegerKind;
use crate::choices::KindView;
use crate::choices::NodeView;
use crate::choices::ValueView;
use crate::order::sort_key_of;
use std::sync::Arc;
use vstd::arithmetic::power2::pow2;
use vstd::prelude::*;

verus! {

/// The kind and value of an integer choice.
pub open spec fn as_integer(n: NodeView) -> Option<(IntegerKind, int)> {
    match (n.kind, n.value) {
        (KindView::Integer(k), ValueView::Integer(v)) => Some((k, v)),
        _ => None,
    }
}

/// The kind and value of the integer choice at position `i`, where there is
/// one.
pub open spec fn integer_node(t: Seq<NodeView>, i: int) -> Option<(IntegerKind, int)> {
    if 0 <= i < t.len() {
        as_integer(t[i])
    } else {
        None
    }
}

/// The replacement of one integer.
pub open spec fn set_int(i: usize, v: int) -> Seq<(usize, ValueView)> {
    seq![(i, ValueView::Integer(v))]
}

/// The replacement of two integers.
pub open spec fn set_two(i: usize, vi: int, j: usize, vj: int) -> Seq<(usize, ValueView)> {
    seq![(i, ValueView::Integer(vi)), (j, ValueView::Integer(vj))]
}

/// Whether a choice has the simplest value of its kind.
pub open spec fn is_simplest_node(n: NodeView) -> bool {
    simplest_of(n.kind) == Some(n.value)
}

/// The replacements that make the choices from `a` up to `b` simplest.
pub open spec fn zero_reps(t: Seq<NodeView>, a: int, b: int) -> Seq<(usize, ValueView)>
    recommends
        0 <= a <= b <= t.len(),
{
    Seq::new(
        (b - a) as nat,
        |j: int| ((a + j) as usize, simplest_of(t[a + j].kind).unwrap()),
    )
}

/// A sweep from `i` on steps over each choice that is simplest and tries to
/// make each block of `k` choices that starts with another simplest.
pub open spec fn sweep_tried(
    h: Seq<Offer>,
    from: nat,
    t: Seq<NodeView>,
    k: int,
    i: int,
) -> bool
    decreases t.len() - i,
{
    if k < 1 || i < 0 || i + k > t.len() {
        true
    } else if is_simplest_node(t[i]) {
        sweep_tried(h, from, t, k, i + 1)
    } else {
        tried(h, from, t, zero_reps(t, i, i + k)) && sweep_tried(h, from, t, k, i + k)
    }
}

/// Sweeps with block size `k`, and each time half of that.
pub open spec fn sweeps_tried(h: Seq<Offer>, from: nat, t: Seq<NodeView>, k: int) -> bool
    decreases k,
{
    if k <= 0 {
        true
    } else {
        sweep_tried(h, from, t, k, 0) && sweeps_tried(h, from, t, k / 2)
    }
}

proof fn lemma_sweep_stays(
    h1: Seq<Offer>,
    h2: Seq<Offer>,
    from1: nat,
    from2: nat,
    t: Seq<NodeView>,
    k: int,
    i: int,
)
    requires
        extends(h1, h2),
        from2 <= from1,
        sweep_tried(h1, from1, t, k, i),
    ensures
        sweep_tried(h2, from2, t, k, i),
    decreases t.len() - i,
{
    if k < 1 || i < 0 || i + k > t.len() {
    } else if is_simplest_node(t[i]) {
        lemma_sweep_stays(h1, h2, from1, from2, t, k, i + 1);
    } else {
        lemma_tried_stays(h1, h2, from1, from2, t, zero_reps(t, i, i + k));
        lemma_sweep_stays(h1, h2, from1, from2, t, k, i + k);
    }
}

/// Every choice that is not simplest has been offered alone as simplest once
/// the sweeps are through.
pub proof fn lemma_sweeps_try_each_choice(
    h: Seq<Offer>,
    from: nat,
    t: Seq<NodeView>,
    k: int,
    i: int,
)
    requires
        sweeps_tried(h, from, t, k),
        1 <= k,
        0 <= i < t.len(),
        !is_simplest_node(t[i]),
    ensures
        tried(h, from, t, zero_reps(t, i, i + 1)),
    decreases k,
{
    if k == 1 {
        lemma_unit_sweep(h, from, t, 0, i);
    } else {
        lemma_sweeps_try_each_choice(h, from, t, k / 2, i);
    }
}

proof fn lemma_unit_sweep(h: Seq<Offer>, from: nat, t: Seq<NodeView>, a: int, i: int)
    requires
        sweep_tried(h, from, t, 1, a),
        0 <= a <= i < t.len(),
        !is_simplest_node(t[i]),
    ensures
        tried(h, from, t, zero_reps(t, i, i + 1)),
    decreases i - a,
{
    if a < i {
        lemma_unit_sweep(h, from, t, a + 1, i);
    }
}

impl<P: ShrinkProbe> Shrinker<P> {
    /// The value of the integer choice at position `i`, or `None` where there
    /// is none.
    pub fn int_value_bigint(&self, i: usize) -> (r: Option<BigInt>)
        ensures
            match r {
                Some(v) => integer_node(self.target(), i as int) matches Some((_, w)) && v@ == w,
                None => integer_node(self.target(), i as int) is None,
            },
    {
        if i < self.current_nodes.len() {
            assert(self.target()[i as int] == self.current_nodes@[i as int]@);
            match &self.current_nodes[i].data {
                ChoiceData::Integer(_, v) => Some(v.clone()),
                _ => None,
            }
        } else {
            None
        }
    }

    /// The kind and value of the integer choice at position `i`, or `None`
    /// where there is none.
    pub fn integer_choice(&self, i: usize) -> (r: Option<(Arc<IntegerChoice>, BigInt)>)
        ensures
            match r {
                Some((k, v)) => integer_node(self.target(), i as int) == Some((k@, v@)),
                None => integer_node(self.target(), i as int) is None,
            },
    {
        if i < self.current_nodes.len() {
            assert(self.target()[i as int] == self.current_nodes@[i as int]@);
            match &self.current_nodes[i].data {
                ChoiceData::Integer(k, v) => Some((Arc::clone(k), v.clone())),
                _ => None,
            }
        } else {
            None
        }
    }

    /// Offers the target with `candidate` at position `i`.
    pub fn replace_int(&mut self, i: usize, candidate: &BigInt) -> (r: Result<bool, ShrinkHalt>)
        requires
            old(self).wf(),
        ensures
            final(self).answered(*old(self), set_int(i, candidate@), r),
    {
        let mut values: Vec<(usize, ChoiceValue)> = Vec::new();
        values.push((i, ChoiceValue::Integer(candidate.clone())));
        assert(reps_view(values@) =~= set_int(i, candidate@));
        self.replace(&values)
    }

    /// Offers the target with `vi` at position `i` and `vj` at position `j`.
    pub fn replace_two(&mut self, i: usize, vi: &BigInt, j: usize, vj: &BigInt) -> (r: Result<
        bool,
        ShrinkHalt,
    >)
        requires
            old(self).wf(),
        ensures
            final(self).answered(*old(self), set_two(i, vi@, j, vj@), r),
    {
        let mut values: Vec<(usize, ChoiceValue)> = Vec::new();
        values.push((i, ChoiceValue::Integer(vi.clone())));
        values.push((j, ChoiceValue::Integer(vj.clone())));
        assert(reps_view(values@) =~= set_two(i, vi@, j, vj@));
        self.replace(&values)
    }

    /// Whether one choice of a sweep was passed over because it is simplest, or
    /// the block of `k` choices from it on was tried at its simplest values.
    pub open spec fn swept_on(marks: Seq<(int, Self)>, t: int, k: int) -> bool {
        let (i, a) = marks[t];
        let (next, b) = marks[t + 1];
        &&& i + k <= a.target().len()
        &&& if is_simplest_node(a.target()[i]) {
            next == i + 1 && b == a
        } else {
            next == i + k && Self::offered_once(a, b, zero_reps(a.target(), i, i + k))
        }
    }

    /// Whether the marks are the beginning of a sweep from a state on.
    pub open spec fn sweeping(marks: Seq<(int, Self)>, a: Self, k: int) -> bool {
        &&& marks.len() > 0
        &&& marks[0] == (0int, a)
        &&& forall|t: int| 0 <= t < marks.len() - 1 ==> #[trigger] Self::swept_on(marks, t, k)
    }

    /// Whether a sweep with blocks of `k` choices led from one state to another.
    pub open spec fn swept(a: Self, b: Self, k: int) -> bool {
        exists|marks: Seq<(int, Self)>| #[trigger]
            Self::sweeping(marks, a, k) && marks.last().1 == b && marks.last().0 + k
                > b.target().len()
    }

    /// Whether sweeps with blocks of `k` choices, of half as many and so on were
    /// made.
    pub open spec fn swept_down(a: Self, b: Self, k: int) -> bool
        decreases k,
    {
        if k <= 0 {
            b == a
        } else {
            exists|mid: Self| #[trigger]
                Self::swept(a, mid, k) && Self::swept_down(mid, b, k / 2)
        }
    }

    /// Whether a block of `k` choices from `i` on was offered and ended something
    /// as `halt` says, or could not be made.
    pub open spec fn block_cut(a: Self, b: Self, i: int, k: int, halt: ShrinkHalt) -> bool {
        ||| b == a && Self::halted_in(a, b, halt)
        ||| b.replaced(a, zero_reps(a.target(), i, i + k), Err(halt))
    }

    /// Whether a sweep with blocks of `k` choices was made up to a block that ended
    /// it as `halt` says.
    pub open spec fn sweep_cut(a: Self, b: Self, k: int, halt: ShrinkHalt) -> bool {
        exists|marks: Seq<(int, Self)>| #[trigger]
            Self::sweeping(marks, a, k) && marks.last().0 + k <= marks.last().1.target().len()
                && Self::block_cut(marks.last().1, b, marks.last().0, k, halt)
    }

    /// Whether sweeps were made until one ended as `halt` says.
    pub open spec fn sweeps_cut(a: Self, b: Self, k: int, halt: ShrinkHalt) -> bool
        decreases k,
    {
        if k <= 0 {
            false
        } else {
            Self::sweep_cut(a, b, k, halt) || exists|mid: Self| #[trigger]
                Self::swept(a, mid, k) && Self::sweeps_cut(mid, b, k / 2, halt)
        }
    }

    /// A sweep goes on.
    proof fn lemma_swept_on(marks: Seq<(int, Self)>, a: Self, k: int, next: int, b: Self)
        requires
            Self::sweeping(marks, a, k),
            ({
                let (i, x) = marks.last();
                &&& i + k <= x.target().len()
                &&& if is_simplest_node(x.target()[i]) {
                    next == i + 1 && b == x
                } else {
                    next == i + k && Self::offered_once(x, b, zero_reps(x.target(), i, i + k))
                }
            }),
        ensures
            Self::sweeping(marks.push((next, b)), a, k),
    {
        let more = marks.push((next, b));
        assert forall|t: int| 0 <= t < more.len() - 1 implies #[trigger] Self::swept_on(
            more,
            t,
            k,
        ) by {
            if t < marks.len() - 1 {
                assert(Self::swept_on(marks, t, k));
            }
        }
    }

    /// Tries to make the choices from `a` up to `b` simplest.
    fn zero_block(&mut self, a: usize, b: usize) -> (r: Result<(), ShrinkHalt>)
        requires
            old(self).wf(),
            a <= b <= old(self).target().len(),
        ensures
            final(self).follows(*old(self)),
            final(self).ends(*old(self), r.err()),
            r is Ok ==> Self::offered_once(
                *old(self),
                *final(self),
                zero_reps(old(self).target(), a as int, b as int),
            ),
            r matches Err(halt) ==> Self::block_cut(
                *old(self),
                *final(self),
                a as int,
                b - a,
                halt,
            ),
            r is Ok ==> tried(
                final(self).history@,
                old(self).history@.len(),
                old(self).target(),
                zero_reps(old(self).target(), a as int, b as int),
            ),
    {
        let ghost t = self.target();
        let mut values: Vec<(usize, ChoiceValue)> = Vec::new();
        let mut j: usize = a;
        while j < b
            invariant
                a <= j <= b <= t.len(),
                self.wf(),
                *self == *old(self),
                t == self.target(),
                values@.len() == j - a,
                forall|m: int|
                    0 <= m < values@.len() ==> (#[trigger] values@[m]).0 == a + m && simplest_of(
                        t[a + m].kind,
                    ) == Some(values@[m].1@),
            decreases b - j,
        {
            assert(t[j as int] == self.current_nodes@[j as int]@);
            match self.current_nodes[j].data.simplest_value() {
                Ok(v) => {
                    values.push((j, v));
                },
                Err(e) => {
                    return Err(ShrinkHalt::internal(e));
                },
            }
            j = j + 1;
        }
        assert(reps_view(values@) =~= zero_reps(t, a as int, b as int));
        match self.replace(&values) {
            Ok(_) => Ok(()),
            Err(halt) => Err(halt),
        }
    }

    /// One sweep with blocks of `k` choices.
    fn zero_sweep(&mut self, k: usize) -> (r: Result<(), ShrinkHalt>)
        requires
            old(self).wf(),
            k >= 1,
        ensures
            final(self).follows(*old(self)),
            final(self).ends(*old(self), r.err()),
            r is Ok ==> Self::swept(*old(self), *final(self), k as int),
            r matches Err(halt) ==> Self::sweep_cut(*old(self), *final(self), k as int, halt),
            all_simplest(old(self).target()) ==> r == Ok::<(), ShrinkHalt>(()) && *final(self)
                == *old(self),
            r is Ok && final(self).improvements == old(self).improvements ==> sweep_tried(
                final(self).history@,
                old(self).history@.len(),
                old(self).target(),
                k as int,
                0,
            ),
    {
        let ghost start = *self;
        let ghost t = self.target();
        let ghost from = self.history@.len();
        let mut i: usize = 0;
        let ghost mut marks = seq![(0int, *self)];
        while k <= self.current_nodes.len() && i <= self.current_nodes.len() - k
            invariant
                k >= 1,
                Self::sweeping(marks, start, k as int),
                marks.last() == (i as int, *self),
                start == *old(self),
                self.follows(start),
                self.goes_on(start),
                t == start.target(),
                from == start.history@.len(),
                all_simplest(t) ==> *self == start,
                self.improvements == start.improvements ==> forall|h: Seq<Offer>|
                    extends(self.history@, h) && #[trigger] sweep_tried(h, from, t, k as int, i as int)
                        ==> sweep_tried(h, from, t, k as int, 0),
            decreases
                if i <= self.current_nodes@.len() {
                    self.current_nodes@.len() - i
                } else {
                    0
                },
        {
            let ghost before = *self;
            let ghost c = self.target();
            assert(c[i as int] == self.current_nodes@[i as int]@);
            assert(c.len() == self.current_nodes@.len());
            match self.current_nodes[i].data.is_simplest() {
                Err(e) => {
                    let halt = ShrinkHalt::internal(e);
                    assert(Self::block_cut(before, *self, i as int, k as int, halt));
                    return Err(halt);
                },
                Ok(true) => {
                    proof {
                        assert(self.target().len() == self.current_nodes@.len());
                        Self::lemma_swept_on(marks, start, k as int, i + 1, *self);
                        marks = marks.push((i + 1, *self));
                        if self.improvements == start.improvements {
                            assert forall|h: Seq<Offer>|
                                extends(self.history@, h) && #[trigger] sweep_tried(
                                    h,
                                    from,
                                    t,
                                    k as int,
                                    i + 1,
                                ) implies sweep_tried(h, from, t, k as int, 0) by {
                                assert(sweep_tried(h, from, t, k as int, i as int));
                            }
                        }
                    }
                    i = i + 1;
                },
                Ok(false) => {
                    match self.zero_block(i, i + k) {
                        Ok(()) => {},
                        Err(halt) => {
                            proof {
                                Self::lemma_follows_transitive(start, before, *self);
                            }
                            return Err(halt);
                        },
                    }
                    proof {
                        Self::lemma_follows_transitive(start, before, *self);
                        assert(self.target().len() == self.current_nodes@.len());
                        assert(before.target().len() == before.current_nodes@.len());
                        Self::lemma_swept_on(marks, start, k as int, i + k, *self);
                        marks = marks.push((i + k, *self));
                        if self.improvements == start.improvements {
                            assert forall|h: Seq<Offer>|
                                extends(self.history@, h) && #[trigger] sweep_tried(
                                    h,
                                    from,
                                    t,
                                    k as int,
                                    i + k,
                                ) implies sweep_tried(h, from, t, k as int, 0) by {
                                lemma_tried_stays(
                                    self.history@,
                                    h,
                                    before.history@.len(),
                                    from,
                                    t,
                                    zero_reps(t, i as int, i + k),
                                );
                                assert(extends(before.history@, h)) by {
                                    assert forall|x: int|
                                        0 <= x < before.history@.len() implies #[trigger] h[x]
                                        == before.history@[x] by {
                                        assert(self.history@[x] == before.history@[x]);
                                    }
                                }
                                assert(sweep_tried(h, from, t, k as int, i as int));
                            }
                        }
                    }
                    i = i + k;
                },
            }
        }
        proof {
            assert(self.target().len() == self.current_nodes@.len());
            assert(Self::swept(start, *self, k as int));
            if self.improvements == start.improvements {
                assert(sweep_tried(self.history@, from, t, k as int, i as int));
            }
        }
        Ok(())
    }

    /// Replaces blocks of choices with their simplest values: the whole
    /// target, then halves, and so on down to single choices.
    pub fn zero_choices(&mut self) -> (r: Result<(), ShrinkHalt>)
        requires
            old(self).wf(),
        ensures
            final(self).follows(*old(self)),
            final(self).ends(*old(self), r.err()),
            r is Ok ==> Self::swept_down(
                *old(self),
                *final(self),
                old(self).target().len() as int,
            ),
            r matches Err(halt) ==> Self::sweeps_cut(
                *old(self),
                *final(self),
                old(self).target().len() as int,
                halt,
            ),
            all_simplest(old(self).target()) ==> r == Ok::<(), ShrinkHalt>(()) && *final(self)
                == *old(self),
            r is Ok && final(self).improvements == old(self).improvements ==> sweeps_tried(
                final(self).history@,
                old(self).history@.len(),
                old(self).target(),
                old(self).target().len() as int,
            ),
    {
        let ghost start = *self;
        let ghost t = self.target();
        let ghost from = self.history@.len();
        let mut k: usize = self.current_nodes.len();
        let ghost n = t.len() as int;
        while k > 0
            invariant
                start == *old(self),
                self.follows(start),
                self.goes_on(start),
                t == start.target(),
                from == start.history@.len(),
                n == t.len(),
                k <= n,
                forall|b: Self| #[trigger]
                    Self::swept_down(*self, b, k as int) ==> Self::swept_down(start, b, n),
                forall|b: Self, halt: ShrinkHalt| #[trigger]
                    Self::sweeps_cut(*self, b, k as int, halt) ==> Self::sweeps_cut(
                        start,
                        b,
                        n,
                        halt,
                    ),
                all_simplest(t) ==> *self == start,
                self.improvements == start.improvements ==> forall|h: Seq<Offer>|
                    extends(self.history@, h) && #[trigger] sweeps_tried(h, from, t, k as int)
                        ==> sweeps_tried(h, from, t, n),
            decreases k,
        {
            let ghost before = *self;
            match self.zero_sweep(k) {
                Ok(()) => {},
                Err(halt) => {
                    proof {
                        Self::lemma_follows_transitive(start, before, *self);
                        assert(Self::sweeps_cut(before, *self, k as int, halt));
                    }
                    return Err(halt);
                },
            }
            proof {
                Self::lemma_follows_transitive(start, before, *self);
                assert forall|b: Self| #[trigger]
                    Self::swept_down(*self, b, (k / 2) as int) implies Self::swept_down(
                    start,
                    b,
                    n,
                ) by {
                    assert(Self::swept(before, *self, k as int));
                    assert(Self::swept_down(before, b, k as int));
                }
                assert forall|b: Self, halt: ShrinkHalt| #[trigger]
                    Self::sweeps_cut(*self, b, (k / 2) as int, halt) implies Self::sweeps_cut(
                    start,
                    b,
                    n,
                    halt,
                ) by {
                    assert(Self::swept(before, *self, k as int));
                    assert(Self::sweeps_cut(before, b, k as int, halt));
                }
                if self.improvements == start.improvements {
                    assert forall|h: Seq<Offer>|
                        extends(self.history@, h) && #[trigger] sweeps_tried(
                            h,
                            from,
                            t,
                            (k / 2) as int,
                        ) implies sweeps_tried(h, from, t, n) by {
                        lemma_sweep_stays(
                            self.history@,
                            h,
                            before.history@.len(),
                            from,
                            t,
                            k as int,
                            0,
                        );
                        assert(extends(before.history@, h)) by {
                            assert forall|x: int|
                                0 <= x < before.history@.len() implies #[trigger] h[x]
                                == before.history@[x] by {
                                assert(self.history@[x] == before.history@[x]);
                            }
                        }
                        assert(sweeps_tried(h, from, t, k as int));
                    }
                }
            }
            k = k / 2;
        }
        proof {
            assert(Self::swept_down(*self, *self, 0));
            assert(sweeps_tried(self.history@, from, t, 0));
        }
        Ok(())
    }
}

/// Whether no choice is an integer that may change.
pub open spec fn no_integers(t: Seq<NodeView>) -> bool {
    forall|i: int| 0 <= i < t.len() ==> #[trigger] integer_node(t, i) is None
}

/// Whether every choice has its simplest value.
pub open spec fn all_simplest(t: Seq<NodeView>) -> bool {
    forall|i: int| 0 <= i < t.len() ==> is_simplest_node(#[trigger] t[i])
}

/// Whether the replacements fit and leave the target as simple as it is.
pub open spec fn same_key(t: Seq<NodeView>, reps: Seq<(usize, ValueView)>) -> bool {
    applicable(t, reps) && sort_key_of(applied(t, reps)) == sort_key_of(t)
}

/// Whether the integer at `i` was tried at distance `d` from `goal`: above
/// it, and unless that left the target as it is also below it.
pub open spec fn tried_at(
    h: Seq<Offer>,
    from: nat,
    t: Seq<NodeView>,
    i: usize,
    k: IntegerKind,
    goal: int,
    d: nat,
) -> bool {
    &&& k.min <= goal + d <= k.max ==> tried(h, from, t, set_int(i, goal + d))
    &&& d > 0 && k.min <= goal - d <= k.max ==> tried(h, from, t, set_int(i, goal - d)) || same_key(
        t,
        set_int(i, goal + d),
    )
}

proof fn lemma_tried_at_stays(
    h1: Seq<Offer>,
    h2: Seq<Offer>,
    from1: nat,
    from2: nat,
    t: Seq<NodeView>,
    i: usize,
    k: IntegerKind,
    goal: int,
    d: nat,
)
    requires
        extends(h1, h2),
        from2 <= from1,
        tried_at(h1, from1, t, i, k, goal, d),
    ensures
        tried_at(h2, from2, t, i, k, goal, d),
{
    if k.min <= goal + d <= k.max {
        lemma_tried_stays(h1, h2, from1, from2, t, set_int(i, goal + d));
    }
    if d > 0 && k.min <= goal - d <= k.max && tried(h1, from1, t, set_int(i, goal - d)) {
        lemma_tried_stays(h1, h2, from1, from2, t, set_int(i, goal - d));
    }
}

/// The distances that a search from distance `d` is sure to try.
pub open spec fn distances_tried(
    h: Seq<Offer>,
    from: nat,
    t: Seq<NodeView>,
    i: usize,
    k: IntegerKind,
    goal: int,
    d: nat,
) -> bool {
    let bits = bit_length(d);
    &&& tried_at(h, from, t, i, k, goal, 0)
    &&& tried_at(h, from, t, i, k, goal, 1)
    &&& 1 < bits < usize::MAX ==> tried_at(
        h,
        from,
        t,
        i,
        k,
        goal,
        d % pow2((bits - 1) as nat),
    )
    &&& 8 < bits < usize::MAX ==> tried_at(
        h,
        from,
        t,
        i,
        k,
        goal,
        d / pow2((bits - 8) as nat),
    ) && tried_at(h, from, t, i, k, goal, d % pow2(8))
    &&& descent_tried(h, from, t, i, k, goal, d)
}

impl<P: ShrinkProbe> Shrinker<P> {
    /// Whether an integer was tried at its goal, where it is not there.
    pub open spec fn goal_tried(a: Self, b: Self, i: usize, k: IntegerKind, v: int) -> bool {
        if v != integer_target(k) {
            Self::offered_once(a, b, set_int(i, integer_target(k)))
        } else {
            b == a
        }
    }

    /// Whether an integer was tried with its sign changed, where it is negative.
    pub open spec fn negation_tried(a: Self, b: Self, i: usize) -> bool {
        match integer_node(a.target(), i as int) {
            Some((_, w)) => if w < 0 {
                Self::offered_once(a, b, set_int(i, -w))
            } else {
                b == a
            },
            None => b == a,
        }
    }

    /// Whether the integer at `i` was tried at its goal, and what came of that
    /// with its sign changed.
    pub open spec fn sign_swapped(a: Self, b: Self, i: usize) -> bool {
        match integer_node(a.target(), i as int) {
            Some((k, v)) => Self::sign_tried(a, b, i, k, v),
            None => b == a,
        }
    }

    /// Whether an integer was tried at its goal and with its sign changed.
    pub open spec fn sign_tried(a: Self, b: Self, i: usize, k: IntegerKind, v: int) -> bool {
        exists|mid: Self| #[trigger]
            Self::goal_tried(a, mid, i, k, v) && Self::negation_tried(mid, b, i)
    }

    /// Whether an integer was offered with its sign changed, which ended something
    /// as `halt` says.
    pub open spec fn negation_cut(a: Self, b: Self, i: usize, halt: ShrinkHalt) -> bool {
        integer_node(a.target(), i as int) matches Some((_, w)) && w < 0 && b.replaced(
            a,
            set_int(i, -w),
            Err(halt),
        )
    }

    /// Whether an integer was tried at its goal and then with its sign changed until
    /// one of them ended that as `halt` says.
    pub open spec fn sign_cut(a: Self, b: Self, i: usize, halt: ShrinkHalt) -> bool {
        integer_node(a.target(), i as int) matches Some((k, v)) && Self::sign_cut_at(
            a,
            b,
            i,
            k,
            v,
            halt,
        )
    }

    /// Whether the integer `v` was tried at its goal and then with its sign changed
    /// until one of them ended that as `halt` says.
    pub open spec fn sign_cut_at(
        a: Self,
        b: Self,
        i: usize,
        k: IntegerKind,
        v: int,
        halt: ShrinkHalt,
    ) -> bool {
        ||| v != integer_target(k) && b.replaced(a, set_int(i, integer_target(k)), Err(halt))
        ||| exists|mid: Self| #[trigger]
            Self::goal_tried(a, mid, i, k, v) && Self::negation_cut(mid, b, i, halt)
    }

    /// How a pass ends at the sign of one choice.
    pub open spec fn sign_part(halt: ShrinkHalt) -> spec_fn(Self, Self, int) -> bool {
        |a: Self, b: Self, t: int| Self::sign_cut(a, b, t as usize, halt)
    }

    /// How a pass deals with the sign of one choice.
    pub open spec fn sign_step() -> spec_fn(Self, Self, int) -> bool {
        |a: Self, b: Self, t: int| t < a.target().len() && Self::sign_swapped(a, b, t as usize)
    }

    /// Tries every integer at the value that its shrinking aims for, and every
    /// negative one with its sign changed.
    pub fn swap_integer_sign(&mut self) -> (r: Result<(), ShrinkHalt>)
        requires
            old(self).wf(),
        ensures
            final(self).follows(*old(self)),
            final(self).ends(*old(self), r.err()),
            r is Ok ==> Self::walked_through(*old(self), *final(self), Self::sign_step()),
            r matches Err(halt) ==> Self::walk_through_cut(
                *old(self),
                *final(self),
                Self::sign_step(),
                Self::sign_part(halt),
            ),
            no_integers(old(self).target()) ==> r == Ok::<(), ShrinkHalt>(()) && *final(self)
                == *old(self),
            r is Ok && final(self).improvements == old(self).improvements ==> signs_tried(
                final(self).history@,
                old(self).history@.len(),
                old(self).target(),
            ),
    {
        let ghost start = *self;
        let ghost t = self.target();
        let ghost from = self.history@.len();
        let mut i: usize = 0;
        let ghost step = Self::sign_step();
        let ghost mut marks = seq![*self];
        while i < self.current_nodes.len()
            invariant
                step == Self::sign_step(),
                Self::walking(marks, start, step),
                marks.last() == *self,
                marks.len() == i + 1,
                start == *old(self),
                self.follows(start),
                self.goes_on(start),
                t == start.target(),
                from == start.history@.len(),
                no_integers(t) ==> *self == start,
                self.improvements == start.improvements ==> forall|j: usize|
                    j < i ==> ((#[trigger] integer_node(t, j as int)) matches Some((k, v)) ==> {
                        &&& v != integer_target(k) ==> tried(
                            self.history@,
                            from,
                            t,
                            set_int(j, integer_target(k)),
                        )
                        &&& v < 0 ==> tried(self.history@, from, t, set_int(j, -v))
                    }),
            decreases
                if i <= self.current_nodes@.len() {
                    self.current_nodes@.len() - i
                } else {
                    0
                },
        {
            let ghost before = *self;
            match self.swap_sign_at(i) {
                Ok(()) => {},
                Err(halt) => {
                    proof {
                        Self::lemma_follows_transitive(start, before, *self);
                        assert(Self::walked(start, before, i as int, step));
                        assert(before.target().len() == before.current_nodes@.len());
                    }
                    return Err(halt);
                },
            }
            proof {
                Self::lemma_follows_transitive(start, before, *self);
                assert(self.target().len() == self.current_nodes@.len());
                assert(before.target().len() == before.current_nodes@.len());
                if self.improvements == start.improvements {
                    assert forall|j: usize| j < i + 1 implies ((#[trigger] integer_node(
                        t,
                        j as int,
                    )) matches Some((k, v)) ==> {
                        &&& v != integer_target(k) ==> tried(
                            self.history@,
                            from,
                            t,
                            set_int(j, integer_target(k)),
                        )
                        &&& v < 0 ==> tried(self.history@, from, t, set_int(j, -v))
                    }) by {
                        if let Some((k, v)) = integer_node(t, j as int) {
                            let h = if j < i {
                                before.history@
                            } else {
                                self.history@
                            };
                            let f = if j < i {
                                from
                            } else {
                                before.history@.len()
                            };
                            if v != integer_target(k) {
                                lemma_tried_stays(
                                    h,
                                    self.history@,
                                    f,
                                    from,
                                    t,
                                    set_int(j, integer_target(k)),
                                );
                            }
                            if v < 0 {
                                lemma_tried_stays(h, self.history@, f, from, t, set_int(j, -v));
                            }
                        }
                    }
                }
            }
            proof {
                Self::lemma_stepped(marks, start, step, *self);
                marks = marks.push(*self);
            }
            i = i + 1;
        }
        proof {
            assert(self.target().len() == self.current_nodes@.len());
            assert(Self::walked(start, *self, i as int, step));
        }
        Ok(())
    }

    fn swap_sign_at(&mut self, i: usize) -> (r: Result<(), ShrinkHalt>)
        requires
            old(self).wf(),
        ensures
            final(self).follows(*old(self)),
            final(self).ends(*old(self), r.err()),
            r is Ok ==> Self::sign_swapped(*old(self), *final(self), i),
            r matches Err(halt) ==> Self::sign_cut(*old(self), *final(self), i, halt),
            integer_node(old(self).target(), i as int) is None ==> r == Ok::<(), ShrinkHalt>(()) && *final(self)
                == *old(self),
            r is Ok && final(self).improvements == old(self).improvements ==> (integer_node(
                old(self).target(),
                i as int,
            ) matches Some((k, v)) ==> {
                &&& v != integer_target(k) ==> tried(
                    final(self).history@,
                    old(self).history@.len(),
                    old(self).target(),
                    set_int(i, integer_target(k)),
                )
                &&& v < 0 ==> tried(
                    final(self).history@,
                    old(self).history@.len(),
                    old(self).target(),
                    set_int(i, -v),
                )
            }),
    {
        let ghost start = *self;
        if let Some((kind, v)) = self.integer_choice(i) {
            let simplest = kind.simplest();
            if v != simplest {
                match self.replace_int(i, &simplest) {
                    Ok(_) => {},
                    Err(halt) => {
                        return Err(halt);
                    },
                }
            }
            let ghost middle = *self;
            assert(Self::goal_tried(start, middle, i, kind@, v@));
            if let Some(w) = self.int_value_bigint(i) {
                if w.is_negative() {
                    match self.replace_int(i, &w.negated()) {
                        Ok(_) => {},
                        Err(halt) => {
                            proof {
                                Self::lemma_follows_transitive(start, middle, *self);
                            }
                            return Err(halt);
                        },
                    }
                }
            }
            proof {
                assert(Self::negation_tried(middle, *self, i));
                assert(Self::sign_tried(start, *self, i, kind@, v@));
                Self::lemma_follows_transitive(start, middle, *self);
                if self.improvements == start.improvements {
                    if v@ != integer_target(kind@) {
                        lemma_tried_stays(
                            middle.history@,
                            self.history@,
                            start.history@.len(),
                            start.history@.len(),
                            start.target(),
                            set_int(i, integer_target(kind@)),
                        );
                    }
                    if v@ < 0 {
                        lemma_tried_stays(
                            self.history@,
                            self.history@,
                            middle.history@.len(),
                            start.history@.len(),
                            start.target(),
                            set_int(i, -v@),
                        );
                    }
                }
            }
        }
        Ok(())
    }

    /// How far the integer at `i` is from `goal`, or `None` where there is no
    /// integer.
    pub fn distance_from(&self, i: usize, goal: &BigInt) -> (r: Option<BigUint>)
        ensures
            match r {
                Some(d) => integer_node(self.target(), i as int) matches Some((_, v)) && d@
                    == magnitude_of(v - goal@),
                None => integer_node(self.target(), i as int) is None,
            },
    {
        match self.int_value_bigint(i) {
            Some(v) => Some(v.minus(goal).magnitude()),
            None => None,
        }
    }

    /// Tries the integer at `i` at distance `d` above `goal`, and where that
    /// is refused below it.
    pub fn try_at_distance(
        &mut self,
        i: usize,
        kind: &IntegerChoice,
        goal: &BigInt,
        d: &BigUint,
    ) -> (r: Result<bool, ShrinkHalt>)
        requires
            old(self).wf(),
        ensures
            final(self).follows(*old(self)),
            final(self).ends(*old(self), r.err()),
            r matches Ok(ok) ==> Self::at_distance(
                *old(self),
                *final(self),
                i,
                kind@,
                goal@,
                d@,
                ok,
            ),
            r matches Err(halt) ==> Self::distance_cut(
                *old(self),
                *final(self),
                i,
                kind@,
                goal@,
                d@,
                halt,
            ),
            r != Ok::<bool, ShrinkHalt>(true) ==> final(self).improvements
                == old(self).improvements,
            r is Ok && final(self).improvements == old(self).improvements ==> tried_at(
                final(self).history@,
                old(self).history@.len(),
                old(self).target(),
                i,
                kind@,
                goal@,
                d@,
            ),
    {
        let ghost start = *self;
        let distance = BigInt::from_magnitude(d.clone());
        let above = goal.plus(&distance);
        let mut accepted = false;
        if kind.validate(&above) {
            match self.replace_int(i, &above) {
                Ok(b) => {
                    accepted = b;
                },
                Err(halt) => {
                    return Err(halt);
                },
            }
        }
        let ghost middle = *self;
        assert(Self::above_tried(start, middle, i, kind@, goal@, d@, accepted));
        if !accepted && distance.is_positive() {
            let below = goal.minus(&distance);
            if kind.validate(&below) {
                match self.replace_int(i, &below) {
                    Ok(b) => {
                        accepted = b;
                    },
                    Err(halt) => {
                        proof {
                            Self::lemma_follows_transitive(start, middle, *self);
                        }
                        return Err(halt);
                    },
                }
            }
        }
        proof {
            Self::lemma_follows_transitive(start, middle, *self);
            if self.improvements == start.improvements {
                if kind@.min <= goal@ + d@ <= kind@.max {
                    lemma_tried_stays(
                        middle.history@,
                        self.history@,
                        start.history@.len(),
                        start.history@.len(),
                        start.target(),
                        set_int(i, goal@ + d@),
                    );
                }
                if tried(
                    self.history@,
                    middle.history@.len(),
                    start.target(),
                    set_int(i, goal@ - d@),
                ) {
                    lemma_tried_stays(
                        self.history@,
                        self.history@,
                        middle.history@.len(),
                        start.history@.len(),
                        start.target(),
                        set_int(i, goal@ - d@),
                    );
                }
            }
        }
        Ok(accepted)
    }
}

/// How many bits a number has, at most as many as can be counted.
pub open spec fn counted_bits(n: nat) -> int {
    if bit_length(n) > usize::MAX {
        usize::MAX as int
    } else {
        bit_length(n) as int
    }
}

impl<P: ShrinkProbe> Shrinker<P> {
    /// Whether the integer at `i` was tried at a distance above its goal, where
    /// its range goes that far.
    pub open spec fn above_tried(
        a: Self,
        b: Self,
        i: usize,
        k: IntegerKind,
        goal: int,
        d: nat,
        ok: bool,
    ) -> bool {
        if k.min <= goal + d <= k.max {
            b.replaced(a, set_int(i, goal + d), Ok(ok))
        } else {
            !ok && b == a
        }
    }

    /// Whether the integer at `i` was tried at a distance above its goal, and
    /// below it where that was refused. `ok` says whether one was taken.
    pub open spec fn at_distance(
        a: Self,
        b: Self,
        i: usize,
        k: IntegerKind,
        goal: int,
        d: nat,
        ok: bool,
    ) -> bool {
        exists|mid: Self, first: bool| #[trigger]
            Self::above_tried(a, mid, i, k, goal, d, first) && if !first && d > 0 && k.min <= goal
                - d <= k.max {
                b.replaced(mid, set_int(i, goal - d), Ok(ok))
            } else {
                ok == first && b == mid
            }
    }

    /// How dropping top bits of a distance asks for `n` of them.
    pub open spec fn mask_step(i: usize, k: IntegerKind, goal: int, base: nat) -> spec_fn(
        Self,
        Self,
        int,
        bool,
    ) -> bool {
        |a: Self, b: Self, n: int, ok: bool|
            if n >= counted_bits(base) {
                !ok && b == a
            } else {
                Self::at_distance(
                    a,
                    b,
                    i,
                    k,
                    goal,
                    base % pow2((counted_bits(base) - n) as nat),
                    ok,
                )
            }
    }

    /// How shifting a distance asks for `n` bits.
    pub open spec fn shift_step(i: usize, k: IntegerKind, goal: int, base: nat) -> spec_fn(
        Self,
        Self,
        int,
        bool,
    ) -> bool {
        |a: Self, b: Self, n: int, ok: bool|
            {
                let most = if counted_bits(base) < usize::MAX {
                    counted_bits(base) + 1
                } else {
                    usize::MAX as int
                };
                let shift = if n < most {
                    n
                } else {
                    most
                };
                Self::at_distance(a, b, i, k, goal, base / pow2(shift as nat), ok)
            }
    }

    /// How subtracting from a distance asks for `n` steps.
    pub open spec fn subtract_step(
        i: usize,
        k: IntegerKind,
        goal: int,
        base: nat,
        step: int,
    ) -> spec_fn(Self, Self, int, bool) -> bool {
        |a: Self, b: Self, n: int, ok: bool|
            {
                let less = if step == 2 {
                    n + n
                } else {
                    n
                };
                if less > base {
                    !ok && b == a
                } else {
                    Self::at_distance(a, b, i, k, goal, (base - less) as nat, ok)
                }
            }
    }

    /// Whether the top and then the bottom eight bits of a distance were tried
    /// alone, where there are more.
    pub open spec fn bytes_tried(
        a: Self,
        b: Self,
        i: usize,
        k: IntegerKind,
        goal: int,
        base: nat,
    ) -> bool {
        if counted_bits(base) <= 8 {
            b == a
        } else {
            Self::both_tried(
                a,
                b,
                i,
                k,
                goal,
                base / pow2((counted_bits(base) - 8) as nat),
                base % pow2(8),
            )
        }
    }

    /// Whether the integer at `i` was tried at one distance and then at another.
    pub open spec fn both_tried(
        a: Self,
        b: Self,
        i: usize,
        k: IntegerKind,
        goal: int,
        d1: nat,
        d2: nat,
    ) -> bool {
        exists|mid: Self, first: bool, second: bool|
            #![trigger Self::at_distance(a, mid, i, k, goal, d1, first), Self::at_distance(
                mid,
                b,
                i,
                k,
                goal,
                d2,
                second,
            )]
            Self::at_distance(a, mid, i, k, goal, d1, first) && Self::at_distance(
                mid,
                b,
                i,
                k,
                goal,
                d2,
                second,
            )
    }

    /// Whether the integer at `i` was tried at a distance above its goal, and below it
    /// where that was refused, until one ended that as `halt` says.
    pub open spec fn distance_cut(
        a: Self,
        b: Self,
        i: usize,
        k: IntegerKind,
        goal: int,
        d: nat,
        halt: ShrinkHalt,
    ) -> bool {
        ||| k.min <= goal + d <= k.max && b.replaced(a, set_int(i, goal + d), Err(halt))
        ||| d > 0 && k.min <= goal - d <= k.max && exists|mid: Self| #[trigger]
            Self::above_tried(a, mid, i, k, goal, d, false) && b.replaced(
                mid,
                set_int(i, goal - d),
                Err(halt),
            )
    }

    /// How dropping top bits of a distance ends at `n` of them.
    pub open spec fn mask_part(
        i: usize,
        k: IntegerKind,
        goal: int,
        base: nat,
        halt: ShrinkHalt,
    ) -> spec_fn(Self, Self, int) -> bool {
        |a: Self, b: Self, n: int|
            n < counted_bits(base) && Self::distance_cut(
                a,
                b,
                i,
                k,
                goal,
                base % pow2((counted_bits(base) - n) as nat),
                halt,
            )
    }

    /// How shifting a distance ends at `n` bits.
    pub open spec fn shift_part(
        i: usize,
        k: IntegerKind,
        goal: int,
        base: nat,
        halt: ShrinkHalt,
    ) -> spec_fn(Self, Self, int) -> bool {
        |a: Self, b: Self, n: int|
            {
                let most = if counted_bits(base) < usize::MAX {
                    counted_bits(base) + 1
                } else {
                    usize::MAX as int
                };
                let shift = if n < most {
                    n
                } else {
                    most
                };
                Self::distance_cut(a, b, i, k, goal, base / pow2(shift as nat), halt)
            }
    }

    /// How subtracting from a distance ends at `n` steps.
    pub open spec fn subtract_part(
        i: usize,
        k: IntegerKind,
        goal: int,
        base: nat,
        step: int,
        halt: ShrinkHalt,
    ) -> spec_fn(Self, Self, int) -> bool {
        |a: Self, b: Self, n: int|
            {
                let less = if step == 2 {
                    n + n
                } else {
                    n
                };
                less <= base && Self::distance_cut(
                    a,
                    b,
                    i,
                    k,
                    goal,
                    (base - less) as nat,
                    halt,
                )
            }
    }

    /// Whether the integer at `i` was tried at one distance and then at another until
    /// one ended that as `halt` says.
    pub open spec fn distances_cut(
        a: Self,
        b: Self,
        i: usize,
        k: IntegerKind,
        goal: int,
        d1: nat,
        d2: nat,
        halt: ShrinkHalt,
    ) -> bool {
        Self::distance_cut(a, b, i, k, goal, d1, halt) || exists|mid: Self, first: bool|
            #[trigger]
            Self::at_distance(a, mid, i, k, goal, d1, first) && Self::distance_cut(
                mid,
                b,
                i,
                k,
                goal,
                d2,
                halt,
            )
    }

    /// Whether the top and then the bottom eight bits of a distance were tried alone
    /// until one ended that as `halt` says.
    pub open spec fn bytes_cut(
        a: Self,
        b: Self,
        i: usize,
        k: IntegerKind,
        goal: int,
        base: nat,
        halt: ShrinkHalt,
    ) -> bool {
        counted_bits(base) > 8 && Self::distances_cut(
            a,
            b,
            i,
            k,
            goal,
            base / pow2((counted_bits(base) - 8) as nat),
            base % pow2(8),
            halt,
        )
    }

    /// Drops ever more of the top bits of the distance `base`.
    fn search_mask(
        &mut self,
        i: usize,
        kind: &IntegerChoice,
        goal: &BigInt,
        base: &BigUint,
    ) -> (r: Result<(), ShrinkHalt>)
        requires
            old(self).wf(),
        ensures
            final(self).follows(*old(self)),
            final(self).ends(*old(self), r.err()),
            r is Ok ==> Self::searched(
                *old(self),
                *final(self),
                Self::mask_step(i, kind@, goal@, base@),
            ),
            r matches Err(halt) ==> Self::search_cut(
                *old(self),
                *final(self),
                Self::mask_step(i, kind@, goal@, base@),
                Self::mask_part(i, kind@, goal@, base@, halt),
            ),
            r is Ok && 1 < bit_length(base@) < usize::MAX && final(self).improvements == old(self).improvements ==> tried_at(
                final(self).history@,
                old(self).history@.len(),
                old(self).target(),
                i,
                kind@,
                goal@,
                base@ % pow2((bit_length(base@) - 1) as nat),
            ),
    {
        let ghost start = *self;
        let ghost t = self.target();
        let ghost from = self.history@.len();
        let bits: usize = base.bits();
        let ghost ask = Self::mask_step(i, kind@, goal@, base@);
        let mut search = FindInteger::new();
        let ghost mut marks = seq![(search, *self)];
        loop
            invariant
                start == *old(self),
                self.follows(start),
                self.goes_on(start),
                t == start.target(),
                from == start.history@.len(),
                search.wf(),
                ask == Self::mask_step(i, kind@, goal@, base@),
                Self::searching(marks, start, ask),
                marks.last() == (search, *self),
                bits == counted_bits(base@),
                bits == bit_length(base@) || bit_length(base@) > usize::MAX,
                (search.phase is Linear && search.lo == 0) || (1 < bit_length(base@) < usize::MAX && self.improvements
                    == start.improvements ==> tried_at(
                    self.history@,
                    from,
                    t,
                    i,
                    kind@,
                    goal@,
                    base@ % pow2((bit_length(base@) - 1) as nat),
                )),
            decreases search.stage(), search.room(),
        {
            match search.probe() {
                None => {
                    return Ok(());
                },
                Some(n) => {
                    let ghost before = *self;
                    let ghost fresh = search.phase is Linear && search.lo == 0;
                    let ok = if n >= bits {
                        false
                    } else {
                        let masked = base.low_bits(bits - n);
                        match self.try_at_distance(i, kind, goal, &masked) {
                            Ok(b) => b,
                            Err(halt) => {
                                proof {
                                    Self::lemma_follows_transitive(start, before, *self);
                                }
                                return Err(halt);
                            },
                        }
                    };
                    proof {
                        Self::lemma_follows_transitive(start, before, *self);
                        if 1 < bit_length(base@) < usize::MAX && self.improvements == start.improvements {
                            let f = if fresh {
                                before.history@.len()
                            } else {
                                from
                            };
                            let h = if fresh {
                                self.history@
                            } else {
                                before.history@
                            };
                            lemma_tried_at_stays(
                                h,
                                self.history@,
                                f,
                                from,
                                t,
                                i,
                                kind@,
                                goal@,
                                base@ % pow2((bit_length(base@) - 1) as nat),
                            );
                        }
                        Self::lemma_asked(marks, start, ask, ok, *self);
                        marks = marks.push((search.after(ok), *self));
                    }
                    search.record(ok);
                },
            }
        }
    }

    /// Shifts the distance `base` right by ever more bits.
    fn search_shift(
        &mut self,
        i: usize,
        kind: &IntegerChoice,
        goal: &BigInt,
        base: &BigUint,
    ) -> (r: Result<(), ShrinkHalt>)
        requires
            old(self).wf(),
            base@ > 0,
        ensures
            final(self).follows(*old(self)),
            final(self).ends(*old(self), r.err()),
            r is Ok ==> Self::searched(
                *old(self),
                *final(self),
                Self::shift_step(i, kind@, goal@, base@),
            ),
            r matches Err(halt) ==> Self::search_cut(
                *old(self),
                *final(self),
                Self::shift_step(i, kind@, goal@, base@),
                Self::shift_part(i, kind@, goal@, base@, halt),
            ),
            r is Ok && final(self).improvements == old(self).improvements ==> tried_at(
                final(self).history@,
                old(self).history@.len(),
                old(self).target(),
                i,
                kind@,
                goal@,
                base@ / pow2(1),
            ),
    {
        let ghost start = *self;
        let ghost t = self.target();
        let ghost from = self.history@.len();
        let max_shift: usize = base.bits().saturating_add(1);
        proof {
            lemma_bit_length(base@);
        }
        let ghost ask = Self::shift_step(i, kind@, goal@, base@);
        let mut search = FindInteger::new();
        let ghost mut marks = seq![(search, *self)];
        loop
            invariant
                start == *old(self),
                self.follows(start),
                self.goes_on(start),
                t == start.target(),
                from == start.history@.len(),
                search.wf(),
                ask == Self::shift_step(i, kind@, goal@, base@),
                Self::searching(marks, start, ask),
                marks.last() == (search, *self),
                base@ > 0,
                max_shift >= 1,
                max_shift == if counted_bits(base@) < usize::MAX {
                    counted_bits(base@) + 1
                } else {
                    usize::MAX as int
                },
                (search.phase is Linear && search.lo == 0) || (self.improvements
                    == start.improvements ==> tried_at(
                    self.history@,
                    from,
                    t,
                    i,
                    kind@,
                    goal@,
                    base@ / pow2(1),
                )),
            decreases search.stage(), search.room(),
        {
            match search.probe() {
                None => {
                    return Ok(());
                },
                Some(n) => {
                    let ghost before = *self;
                    let ghost fresh = search.phase is Linear && search.lo == 0;
                    let shift: usize = if n < max_shift {
                        n
                    } else {
                        max_shift
                    };
                    let candidate = base.shift_right(shift);
                    let ok = match self.try_at_distance(i, kind, goal, &candidate) {
                            Ok(b) => b,
                            Err(halt) => {
                                proof {
                                    Self::lemma_follows_transitive(start, before, *self);
                                }
                                return Err(halt);
                            },
                        };
                    proof {
                        Self::lemma_follows_transitive(start, before, *self);
                        if self.improvements == start.improvements {
                            let f = if fresh {
                                before.history@.len()
                            } else {
                                from
                            };
                            let h = if fresh {
                                self.history@
                            } else {
                                before.history@
                            };
                            lemma_tried_at_stays(
                                h,
                                self.history@,
                                f,
                                from,
                                t,
                                i,
                                kind@,
                                goal@,
                                base@ / pow2(1),
                            );
                        }
                        Self::lemma_asked(marks, start, ask, ok, *self);
                        marks = marks.push((search.after(ok), *self));
                    }
                    search.record(ok);
                },
            }
        }
    }

    /// Subtracts ever larger multiples of `step` from the distance `base`.
    fn search_subtract(
        &mut self,
        i: usize,
        kind: &IntegerChoice,
        goal: &BigInt,
        base: &BigUint,
        step: u32,
    ) -> (r: Result<(), ShrinkHalt>)
        requires
            old(self).wf(),
            step == 1 || step == 2,
        ensures
            final(self).follows(*old(self)),
            final(self).ends(*old(self), r.err()),
            r is Ok ==> Self::searched(
                *old(self),
                *final(self),
                Self::subtract_step(i, kind@, goal@, base@, step as int),
            ),
            r matches Err(halt) ==> Self::search_cut(
                *old(self),
                *final(self),
                Self::subtract_step(i, kind@, goal@, base@, step as int),
                Self::subtract_part(i, kind@, goal@, base@, step as int, halt),
            ),
            r is Ok && base@ >= step && final(self).improvements == old(self).improvements ==> tried_at(
                final(self).history@,
                old(self).history@.len(),
                old(self).target(),
                i,
                kind@,
                goal@,
                (base@ - step) as nat,
            ),
    {
        let ghost start = *self;
        let ghost t = self.target();
        let ghost from = self.history@.len();
        let ghost ask = Self::subtract_step(i, kind@, goal@, base@, step as int);
        let mut search = FindInteger::new();
        let ghost mut marks = seq![(search, *self)];
        loop
            invariant
                start == *old(self),
                self.follows(start),
                self.goes_on(start),
                t == start.target(),
                from == start.history@.len(),
                search.wf(),
                ask == Self::subtract_step(i, kind@, goal@, base@, step as int),
                Self::searching(marks, start, ask),
                marks.last() == (search, *self),
                step == 1 || step == 2,
                (search.phase is Linear && search.lo == 0) || (base@ >= step && self.improvements
                    == start.improvements ==> tried_at(
                    self.history@,
                    from,
                    t,
                    i,
                    kind@,
                    goal@,
                    (base@ - step) as nat,
                )),
            decreases search.stage(), search.room(),
        {
            match search.probe() {
                None => {
                    return Ok(());
                },
                Some(n) => {
                    let ghost before = *self;
                    let ghost fresh = search.phase is Linear && search.lo == 0;
                    let mut sub = BigUint::from_u128(n as u128);
                    if step == 2 {
                        sub = sub.plus(&sub);
                    }
                    let ok = if sub.compare(base) == Comparison::Greater {
                        false
                    } else {
                        let candidate = base.minus(&sub);
                        match self.try_at_distance(i, kind, goal, &candidate) {
                            Ok(b) => b,
                            Err(halt) => {
                                proof {
                                    Self::lemma_follows_transitive(start, before, *self);
                                }
                                return Err(halt);
                            },
                        }
                    };
                    proof {
                        Self::lemma_follows_transitive(start, before, *self);
                        if base@ >= step && self.improvements == start.improvements {
                            let f = if fresh {
                                before.history@.len()
                            } else {
                                from
                            };
                            let h = if fresh {
                                self.history@
                            } else {
                                before.history@
                            };
                            lemma_tried_at_stays(
                                h,
                                self.history@,
                                f,
                                from,
                                t,
                                i,
                                kind@,
                                goal@,
                                (base@ - step) as nat,
                            );
                        }
                        Self::lemma_asked(marks, start, ask, ok, *self);
                        marks = marks.push((search.after(ok), *self));
                    }
                    search.record(ok);
                },
            }
        }
    }

    /// Tries the top and the bottom eight bits of the distance `base` alone.
    fn try_bytes(
        &mut self,
        i: usize,
        kind: &IntegerChoice,
        goal: &BigInt,
        base: &BigUint,
    ) -> (r: Result<(), ShrinkHalt>)
        requires
            old(self).wf(),
        ensures
            final(self).follows(*old(self)),
            final(self).ends(*old(self), r.err()),
            r is Ok ==> Self::bytes_tried(*old(self), *final(self), i, kind@, goal@, base@),
            r matches Err(halt) ==> Self::bytes_cut(
                *old(self),
                *final(self),
                i,
                kind@,
                goal@,
                base@,
                halt,
            ),
            r is Ok && final(self).improvements == old(self).improvements && 8 < bit_length(base@)
                < usize::MAX ==> {
                &&& tried_at(
                    final(self).history@,
                    old(self).history@.len(),
                    old(self).target(),
                    i,
                    kind@,
                    goal@,
                    base@ / pow2((bit_length(base@) - 8) as nat),
                )
                &&& tried_at(
                    final(self).history@,
                    old(self).history@.len(),
                    old(self).target(),
                    i,
                    kind@,
                    goal@,
                    base@ % pow2(8),
                )
            },
    {
        let ghost start = *self;
        let bits: usize = base.bits();
        if bits > 8 {
            let top = base.shift_right(bits - 8);
            let first = match self.try_at_distance(i, kind, goal, &top) {
                Ok(ok) => ok,
                Err(halt) => {
                    return Err(halt);
                },
            };
            let ghost middle = *self;
            assert(Self::at_distance(start, middle, i, kind@, goal@, top@, first));
            let bottom = base.low_bits(8);
            let second = match self.try_at_distance(i, kind, goal, &bottom) {
                Ok(ok) => ok,
                Err(halt) => {
                    proof {
                        Self::lemma_follows_transitive(start, middle, *self);
                    }
                    return Err(halt);
                },
            };
            assert(Self::at_distance(middle, *self, i, kind@, goal@, bottom@, second));
            assert(Self::both_tried(start, *self, i, kind@, goal@, top@, bottom@));
            proof {
                Self::lemma_follows_transitive(start, middle, *self);
                let t = start.target();
                let from = start.history@.len();
                if self.improvements == start.improvements {
                    lemma_tried_at_stays(
                        middle.history@,
                        self.history@,
                        from,
                        from,
                        t,
                        i,
                        kind@,
                        goal@,
                        top@,
                    );
                    lemma_tried_at_stays(
                        self.history@,
                        self.history@,
                        middle.history@.len(),
                        from,
                        t,
                        i,
                        kind@,
                        goal@,
                        bottom@,
                    );
                }
            }
        }
        Ok(())
    }
}

/// The distances that a descent from distance `d` is sure to try.
pub open spec fn descent_tried(
    h: Seq<Offer>,
    from: nat,
    t: Seq<NodeView>,
    i: usize,
    k: IntegerKind,
    goal: int,
    d: nat,
) -> bool {
    &&& d > 0 ==> tried_at(h, from, t, i, k, goal, d / pow2(1)) && tried_at(
        h,
        from,
        t,
        i,
        k,
        goal,
        (d - 1) as nat,
    )
    &&& d > 1 ==> tried_at(h, from, t, i, k, goal, (d - 2) as nat)
}

proof fn lemma_descent_stays(
    h1: Seq<Offer>,
    h2: Seq<Offer>,
    from1: nat,
    from2: nat,
    t: Seq<NodeView>,
    i: usize,
    k: IntegerKind,
    goal: int,
    d: nat,
)
    requires
        extends(h1, h2),
        from2 <= from1,
        descent_tried(h1, from1, t, i, k, goal, d),
    ensures
        descent_tried(h2, from2, t, i, k, goal, d),
{
    if d > 0 {
        lemma_tried_at_stays(h1, h2, from1, from2, t, i, k, goal, d / pow2(1));
        lemma_tried_at_stays(h1, h2, from1, from2, t, i, k, goal, (d - 1) as nat);
    }
    if d > 1 {
        lemma_tried_at_stays(h1, h2, from1, from2, t, i, k, goal, (d - 2) as nat);
    }
}

/// The distance of the integer at `i` from `goal`, where there is one.
pub open spec fn distance_at(t: Seq<NodeView>, i: usize, goal: int) -> Option<nat> {
    match integer_node(t, i as int) {
        Some((_, v)) => Some(magnitude_of(v - goal)),
        None => None,
    }
}

/// Whether a pass on one node ended the whole shrink.
pub open spec fn halted<T>(r: Result<T, PassExit>) -> bool {
    r matches Err(PassExit::Halt(_))
}

impl<P: ShrinkProbe> Shrinker<P> {
    /// Whether the descent went on from where the distance was shifted: two steps
    /// and then one were subtracted over and over. `r` says whether the distance
    /// changed from `d`, and is `None` where the integer was gone.
    pub open spec fn subtracted(
        a: Self,
        b: Self,
        i: usize,
        k: IntegerKind,
        goal: int,
        d: nat,
        r: Option<bool>,
    ) -> bool {
        match distance_at(a.target(), i, goal) {
            None => r is None && b == a,
            Some(base) => Self::subtracted_twos(a, b, i, k, goal, base, d, r),
        }
    }

    /// Whether two steps and then one were subtracted from the distance `base`
    /// over and over.
    pub open spec fn subtracted_twos(
        a: Self,
        b: Self,
        i: usize,
        k: IntegerKind,
        goal: int,
        base: nat,
        d: nat,
        r: Option<bool>,
    ) -> bool {
        exists|mid: Self| #[trigger]
            Self::searched(a, mid, Self::subtract_step(i, k, goal, base, 2)) && match distance_at(
                mid.target(),
                i,
                goal,
            ) {
                None => r is None && b == mid,
                Some(rest) => {
                    &&& Self::searched(mid, b, Self::subtract_step(i, k, goal, rest, 1))
                    &&& r == Some(distance_at(b.target(), i, goal) != Some(d))
                },
            }
    }

    /// Whether one round of the descent was made.
    pub open spec fn descended_once(
        a: Self,
        b: Self,
        i: usize,
        k: IntegerKind,
        goal: int,
        r: Option<bool>,
    ) -> bool {
        match distance_at(a.target(), i, goal) {
            None => r is None && b == a,
            Some(d) => if d == 0 {
                r == Some(false) && b == a
            } else {
                Self::shifted_from(a, b, i, k, goal, d, r)
            },
        }
    }

    /// Whether the distance `d` was shifted and then subtracted from.
    pub open spec fn shifted_from(
        a: Self,
        b: Self,
        i: usize,
        k: IntegerKind,
        goal: int,
        d: nat,
        r: Option<bool>,
    ) -> bool {
        exists|mid: Self| #[trigger]
            Self::searched(a, mid, Self::shift_step(i, k, goal, d)) && Self::subtracted(
                mid,
                b,
                i,
                k,
                goal,
                d,
                r,
            )
    }

    /// A round of the descent that is worth another one.
    pub open spec fn descent_step(i: usize, k: IntegerKind, goal: int) -> spec_fn(
        Self,
        Self,
        int,
    ) -> bool {
        |a: Self, b: Self, t: int| Self::descended_once(a, b, i, k, goal, Some(true))
    }

    /// Whether rounds of the descent were made until the distance stayed as it
    /// was, or the integer was gone.
    pub open spec fn descended(
        a: Self,
        b: Self,
        i: usize,
        k: IntegerKind,
        goal: int,
        gone: bool,
    ) -> bool {
        exists|mid: Self, n: int| #[trigger]
            Self::walked(a, mid, n, Self::descent_step(i, k, goal)) && Self::descended_once(
                mid,
                b,
                i,
                k,
                goal,
                if gone {
                    None
                } else {
                    Some(false)
                },
            )
    }

    /// Whether the search for an integer went on from where its bits were
    /// masked.
    pub open spec fn searched_bytes(
        a: Self,
        b: Self,
        i: usize,
        k: IntegerKind,
        goal: int,
        gone: bool,
    ) -> bool {
        match distance_at(a.target(), i, goal) {
            None => gone && b == a,
            Some(d) => Self::bytes_then_descent(a, b, i, k, goal, d, gone),
        }
    }

    /// Whether the top and bottom bits of a distance were tried, and then a
    /// descent was made.
    pub open spec fn bytes_then_descent(
        a: Self,
        b: Self,
        i: usize,
        k: IntegerKind,
        goal: int,
        d: nat,
        gone: bool,
    ) -> bool {
        exists|mid: Self| #[trigger]
            Self::bytes_tried(a, mid, i, k, goal, d) && Self::descended(mid, b, i, k, goal, gone)
    }

    /// Whether the search for an integer went on from where it was tried at its
    /// goal and next to it.
    pub open spec fn searched_bits(
        a: Self,
        b: Self,
        i: usize,
        k: IntegerKind,
        goal: int,
        gone: bool,
    ) -> bool {
        match distance_at(a.target(), i, goal) {
            None => gone && b == a,
            Some(d) => Self::masked_from(a, b, i, k, goal, d, gone),
        }
    }

    /// Whether ever fewer bits of a distance were tried, and the search went on
    /// from there.
    pub open spec fn masked_from(
        a: Self,
        b: Self,
        i: usize,
        k: IntegerKind,
        goal: int,
        d: nat,
        gone: bool,
    ) -> bool {
        exists|mid: Self| #[trigger]
            Self::searched(a, mid, Self::mask_step(i, k, goal, d)) && Self::searched_bytes(
                mid,
                b,
                i,
                k,
                goal,
                gone,
            )
    }

    /// Whether the integer at `i` was brought nearer to its goal: it was tried
    /// there and one step from it, with ever fewer of its bits, with its top and
    /// bottom bits alone, and then in a descent. It may be gone before the end,
    /// where the test makes other choices.
    pub open spec fn node_searched(a: Self, b: Self, i: usize, gone: bool) -> bool {
        match integer_node(a.target(), i as int) {
            None => gone && b == a,
            Some((k, _)) => Self::searched_for(a, b, i, k, integer_target(k), gone),
        }
    }

    /// Whether the integer at `i` was brought nearer to a goal.
    pub open spec fn searched_for(
        a: Self,
        b: Self,
        i: usize,
        k: IntegerKind,
        goal: int,
        gone: bool,
    ) -> bool {
        exists|mid: Self| #[trigger]
            Self::both_tried(a, mid, i, k, goal, 0, 1) && Self::searched_bits(
                mid,
                b,
                i,
                k,
                goal,
                gone,
            )
    }

    /// How a pass brings the integers nearer to their goals one by one.
    pub open spec fn node_step() -> spec_fn(Self, Self, int) -> bool {
        |a: Self, b: Self, t: int|
            t < a.target().len() && (Self::node_searched(a, b, t as usize, true)
                || Self::node_searched(a, b, t as usize, false))
    }

    /// Whether a distance was subtracted from, by twos and then by ones, until that
    /// ended as `halt` says.
    pub open spec fn subtraction_cut(
        a: Self,
        b: Self,
        i: usize,
        k: IntegerKind,
        goal: int,
        base: nat,
        halt: ShrinkHalt,
    ) -> bool {
        Self::search_cut(
            a,
            b,
            Self::subtract_step(i, k, goal, base, 2),
            Self::subtract_part(i, k, goal, base, 2, halt),
        ) || exists|mid: Self| #[trigger]
            Self::searched(a, mid, Self::subtract_step(i, k, goal, base, 2)) && (distance_at(
                mid.target(),
                i,
                goal,
            ) matches Some(rest) && Self::search_cut(
                mid,
                b,
                Self::subtract_step(i, k, goal, rest, 1),
                Self::subtract_part(i, k, goal, rest, 1, halt),
            ))
    }

    /// Whether the distance `d` was shifted and then subtracted from until that ended
    /// as `halt` says.
    pub open spec fn shift_cut(
        a: Self,
        b: Self,
        i: usize,
        k: IntegerKind,
        goal: int,
        d: nat,
        halt: ShrinkHalt,
    ) -> bool {
        Self::search_cut(
            a,
            b,
            Self::shift_step(i, k, goal, d),
            Self::shift_part(i, k, goal, d, halt),
        ) || exists|mid: Self| #[trigger]
            Self::searched(a, mid, Self::shift_step(i, k, goal, d)) && (distance_at(
                mid.target(),
                i,
                goal,
            ) matches Some(base) && Self::subtraction_cut(mid, b, i, k, goal, base, halt))
    }

    /// Whether a round of the descent was made until it ended as `halt` says.
    pub open spec fn round_of_descent_cut(
        a: Self,
        b: Self,
        i: usize,
        k: IntegerKind,
        goal: int,
        halt: ShrinkHalt,
    ) -> bool {
        distance_at(a.target(), i, goal) matches Some(d) && d != 0 && Self::shift_cut(
            a,
            b,
            i,
            k,
            goal,
            d,
            halt,
        )
    }

    /// Whether rounds of the descent were made until one ended as `halt` says.
    pub open spec fn descent_cut(
        a: Self,
        b: Self,
        i: usize,
        k: IntegerKind,
        goal: int,
        halt: ShrinkHalt,
    ) -> bool {
        exists|mid: Self, n: int| #[trigger]
            Self::walked(a, mid, n, Self::descent_step(i, k, goal)) && Self::round_of_descent_cut(
                mid,
                b,
                i,
                k,
                goal,
                halt,
            )
    }

    /// Whether the top and bottom bits of a distance were tried and a descent was made
    /// until that ended as `halt` says.
    pub open spec fn bytes_then_descent_cut(
        a: Self,
        b: Self,
        i: usize,
        k: IntegerKind,
        goal: int,
        d: nat,
        halt: ShrinkHalt,
    ) -> bool {
        Self::bytes_cut(a, b, i, k, goal, d, halt) || exists|mid: Self| #[trigger]
            Self::bytes_tried(a, mid, i, k, goal, d) && Self::descent_cut(
                mid,
                b,
                i,
                k,
                goal,
                halt,
            )
    }

    /// Whether ever fewer bits of a distance were tried, and the search went on from
    /// there until it ended as `halt` says.
    pub open spec fn mask_cut(
        a: Self,
        b: Self,
        i: usize,
        k: IntegerKind,
        goal: int,
        d: nat,
        halt: ShrinkHalt,
    ) -> bool {
        Self::search_cut(
            a,
            b,
            Self::mask_step(i, k, goal, d),
            Self::mask_part(i, k, goal, d, halt),
        ) || exists|mid: Self| #[trigger]
            Self::searched(a, mid, Self::mask_step(i, k, goal, d)) && (distance_at(
                mid.target(),
                i,
                goal,
            ) matches Some(rest) && Self::bytes_then_descent_cut(mid, b, i, k, goal, rest, halt))
    }

    /// Whether the integer at `i` was brought nearer to a goal until that ended as
    /// `halt` says.
    pub open spec fn approach_cut(
        a: Self,
        b: Self,
        i: usize,
        k: IntegerKind,
        goal: int,
        halt: ShrinkHalt,
    ) -> bool {
        Self::distances_cut(a, b, i, k, goal, 0, 1, halt) || exists|mid: Self| #[trigger]
            Self::both_tried(a, mid, i, k, goal, 0, 1) && (distance_at(
                mid.target(),
                i,
                goal,
            ) matches Some(d) && Self::mask_cut(mid, b, i, k, goal, d, halt))
    }

    /// Whether the integer at `i` was brought nearer to its goal until that ended as
    /// `halt` says.
    pub open spec fn node_cut(a: Self, b: Self, i: usize, halt: ShrinkHalt) -> bool {
        integer_node(a.target(), i as int) matches Some((k, _)) && Self::approach_cut(
            a,
            b,
            i,
            k,
            integer_target(k),
            halt,
        )
    }

    /// How a pass that brings the integers nearer to their goals ends at one of them.
    pub open spec fn node_part(halt: ShrinkHalt) -> spec_fn(Self, Self, int) -> bool {
        |a: Self, b: Self, t: int| Self::node_cut(a, b, t as usize, halt)
    }

    /// One round of the descent: shifts the distance, then subtracts from it.
    /// The answer is whether it is worth another round.
    fn descend_once(&mut self, i: usize, kind: &IntegerChoice, goal: &BigInt) -> (r: Result<
        bool,
        PassExit,
    >)
        requires
            old(self).wf(),
        ensures
            final(self).follows(*old(self)),
            final(self).ends(*old(self), halt_of(r)),
            !halted(r) ==> Self::descended_once(
                *old(self),
                *final(self),
                i,
                kind@,
                goal@,
                r.ok(),
            ),
            halt_of(r) matches Some(halt) ==> Self::round_of_descent_cut(
                *old(self),
                *final(self),
                i,
                kind@,
                goal@,
                halt,
            ),
            distance_at(old(self).target(), i, goal@) is None ==> r == Err::<bool, PassExit>(
                PassExit::NodeGone,
            ) && *final(self) == *old(self),
            r == Ok::<bool, PassExit>(true) ==> final(self).improvements > old(self).improvements,
            final(self).improvements == old(self).improvements && !halted(r) ==> (distance_at(
                old(self).target(),
                i,
                goal@,
            ) matches Some(d) ==> r == Ok::<bool, PassExit>(false) && descent_tried(
                final(self).history@,
                old(self).history@.len(),
                old(self).target(),
                i,
                kind@,
                goal@,
                d,
            )),
    {
        let ghost start = *self;
        let ghost t = self.target();
        let ghost from = self.history@.len();
        let before = match self.distance_from(i, goal) {
            Some(d) => d,
            None => {
                return Err(PassExit::NodeGone);
            },
        };
        if before.is_zero() {
            return Ok(false);
        }
        match self.search_shift(i, kind, goal, &before) {
            Ok(()) => {},
            Err(halt) => {
                return Err(PassExit::Halt(halt));
            },
        }
        let ghost shifted = *self;
        assert(Self::searched(start, shifted, Self::shift_step(i, kind@, goal@, before@)));
        let base = match self.distance_from(i, goal) {
            Some(d) => d,
            None => {
                proof {
                    assert(Self::subtracted(shifted, *self, i, kind@, goal@, before@, None));
                    assert(Self::shifted_from(start, *self, i, kind@, goal@, before@, None));
                }
                return Err(PassExit::NodeGone);
            },
        };
        match self.search_subtract(i, kind, goal, &base, 2) {
            Ok(()) => {},
            Err(halt) => {
                proof {
                    Self::lemma_follows_transitive(start, shifted, *self);
                    assert(Self::subtraction_cut(shifted, *self, i, kind@, goal@, base@, halt));
                    assert(Self::shift_cut(start, *self, i, kind@, goal@, before@, halt));
                }
                return Err(PassExit::Halt(halt));
            },
        }
        let ghost twos = *self;
        proof {
            Self::lemma_follows_transitive(start, shifted, twos);
            assert(Self::searched(
                shifted,
                twos,
                Self::subtract_step(i, kind@, goal@, base@, 2),
            ));
        }
        let base1 = match self.distance_from(i, goal) {
            Some(d) => d,
            None => {
                proof {
                    assert(Self::subtracted_twos(
                        shifted,
                        *self,
                        i,
                        kind@,
                        goal@,
                        base@,
                        before@,
                        None,
                    ));
                    assert(Self::subtracted(shifted, *self, i, kind@, goal@, before@, None));
                    assert(Self::shifted_from(start, *self, i, kind@, goal@, before@, None));
                }
                return Err(PassExit::NodeGone);
            },
        };
        match self.search_subtract(i, kind, goal, &base1, 1) {
            Ok(()) => {},
            Err(halt) => {
                proof {
                    Self::lemma_follows_transitive(start, twos, *self);
                    assert(Self::subtraction_cut(shifted, *self, i, kind@, goal@, base@, halt));
                    assert(Self::shift_cut(start, *self, i, kind@, goal@, before@, halt));
                }
                return Err(PassExit::Halt(halt));
            },
        }
        proof {
            Self::lemma_follows_transitive(start, twos, *self);
            Self::lemma_follows_transitive(shifted, twos, *self);
            if self.improvements == start.improvements {
                let d = before@;
                lemma_tried_at_stays(
                    shifted.history@,
                    self.history@,
                    from,
                    from,
                    t,
                    i,
                    kind@,
                    goal@,
                    d / pow2(1),
                );
                if d > 1 {
                    lemma_tried_at_stays(
                        twos.history@,
                        self.history@,
                        shifted.history@.len(),
                        from,
                        t,
                        i,
                        kind@,
                        goal@,
                        (d - 2) as nat,
                    );
                }
                lemma_tried_at_stays(
                    self.history@,
                    self.history@,
                    twos.history@.len(),
                    from,
                    t,
                    i,
                    kind@,
                    goal@,
                    (d - 1) as nat,
                );
            }
        }
        let r = match self.distance_from(i, goal) {
            Some(now) => now.compare(&before) != Comparison::Equal,
            None => true,
        };
        proof {
            assert(Self::searched(
                twos,
                *self,
                Self::subtract_step(i, kind@, goal@, base1@, 1),
            ));
            assert(distance_at(twos.target(), i, goal@) == Some(base1@));
            assert(Self::subtracted_twos(
                shifted,
                *self,
                i,
                kind@,
                goal@,
                base@,
                before@,
                Some(r),
            ));
            assert(Self::subtracted(shifted, *self, i, kind@, goal@, before@, Some(r)));
            assert(Self::shifted_from(start, *self, i, kind@, goal@, before@, Some(r)));
        }
        Ok(r)
    }

    /// Rounds of the descent until the distance stays as it is.
    fn descend(&mut self, i: usize, kind: &IntegerChoice, goal: &BigInt) -> (r: Result<
        (),
        PassExit,
    >)
        requires
            old(self).wf(),
        ensures
            final(self).follows(*old(self)),
            final(self).ends(*old(self), halt_of(r)),
            !halted(r) ==> Self::descended(
                *old(self),
                *final(self),
                i,
                kind@,
                goal@,
                r is Err,
            ),
            halt_of(r) matches Some(halt) ==> Self::descent_cut(
                *old(self),
                *final(self),
                i,
                kind@,
                goal@,
                halt,
            ),
            final(self).improvements == old(self).improvements && !halted(r) ==> (distance_at(
                old(self).target(),
                i,
                goal@,
            ) matches Some(d) ==> r is Ok && descent_tried(
                final(self).history@,
                old(self).history@.len(),
                old(self).target(),
                i,
                kind@,
                goal@,
                d,
            )),
    {
        let ghost start = *self;
        let ghost step = Self::descent_step(i, kind@, goal@);
        let ghost mut marks = seq![*self];
        loop
            invariant
                step == Self::descent_step(i, kind@, goal@),
                Self::walking(marks, start, step),
                marks.last() == *self,
                start == *old(self),
                self.follows(start),
                self.goes_on(start),
                self.improvements == start.improvements ==> *self == start,
            decreases self.max_improvements - self.improvements,
        {
            let ghost before = *self;
            let again = self.descend_once(i, kind, goal);
            proof {
                Self::lemma_follows_transitive(start, before, *self);
            }
            assert(Self::walked(start, before, marks.len() - 1, step));
            match again {
                Ok(true) => {
                    proof {
                        Self::lemma_stepped(marks, start, step, *self);
                        marks = marks.push(*self);
                    }
                },
                Ok(false) => {
                    return Ok(());
                },
                Err(exit) => {
                    return Err(exit);
                },
            }
        }
    }

    /// Brings the integer at `i` nearer to the value that shrinking aims for,
    /// on either side of it.
    #[verifier::spinoff_prover]
    #[verifier::rlimit(40)]
    fn binary_search_node_towards_zero(&mut self, i: usize) -> (r: Result<(), PassExit>)
        requires
            old(self).wf(),
        ensures
            final(self).follows(*old(self)),
            final(self).ends(*old(self), halt_of(r)),
            !halted(r) ==> Self::node_searched(*old(self), *final(self), i, r is Err),
            halt_of(r) matches Some(halt) ==> Self::node_cut(*old(self), *final(self), i, halt),
            integer_node(old(self).target(), i as int) is None ==> r == Err::<(), PassExit>(
                PassExit::NodeGone,
            ) && *final(self) == *old(self),
            final(self).improvements == old(self).improvements && !halted(r) ==> (integer_node(
                old(self).target(),
                i as int,
            ) matches Some((k, v)) ==> r is Ok && distances_tried(
                final(self).history@,
                old(self).history@.len(),
                old(self).target(),
                i,
                k,
                integer_target(k),
                magnitude_of(v - integer_target(k)),
            )),
    {
        let ghost start = *self;
        let ghost t = self.target();
        let ghost from = self.history@.len();
        let (kind, _value) = match self.integer_choice(i) {
            Some(found) => found,
            None => {
                return Err(PassExit::NodeGone);
            },
        };
        let goal = kind.clamped_shrink_towards();
        let ok1 = match self.try_at_distance(i, &kind, &goal, &BigUint::zero()) {
            Ok(ok) => ok,
            Err(halt) => {
                return Err(PassExit::Halt(halt));
            },
        };
        let ghost s1 = *self;
        assert(Self::at_distance(start, s1, i, kind@, goal@, 0, ok1));
        let ok2 = match self.try_at_distance(i, &kind, &goal, &BigUint::from_u128(1)) {
            Ok(ok) => ok,
            Err(halt) => {
                proof {
                    Self::lemma_follows_transitive(start, s1, *self);
                    assert(Self::distances_cut(start, *self, i, kind@, goal@, 0, 1, halt));
                }
                return Err(PassExit::Halt(halt));
            },
        };
        let ghost s2 = *self;
        assert(Self::at_distance(s1, s2, i, kind@, goal@, 1, ok2));
        assert(Self::both_tried(start, s2, i, kind@, goal@, 0, 1));
        proof {
            Self::lemma_follows_transitive(start, s1, s2);
        }
        let base = match self.distance_from(i, &goal) {
            Some(d) => d,
            None => {
                proof {
                    assert(Self::searched_bits(s2, *self, i, kind@, goal@, true));
                    assert(Self::searched_for(start, *self, i, kind@, goal@, true));
                }
                return Err(PassExit::NodeGone);
            },
        };
        match self.search_mask(i, &kind, &goal, &base) {
            Ok(()) => {},
            Err(halt) => {
                proof {
                    Self::lemma_follows_transitive(start, s2, *self);
                    assert(Self::mask_cut(s2, *self, i, kind@, goal@, base@, halt));
                    assert(Self::approach_cut(start, *self, i, kind@, goal@, halt));
                }
                return Err(PassExit::Halt(halt));
            },
        }
        let ghost s3 = *self;
        proof {
            Self::lemma_follows_transitive(start, s2, s3);
            assert(Self::searched(s2, s3, Self::mask_step(i, kind@, goal@, base@)));
        }
        let base2 = match self.distance_from(i, &goal) {
            Some(d) => d,
            None => {
                proof {
                    assert(Self::searched_bytes(s3, *self, i, kind@, goal@, true));
                    assert(Self::masked_from(s2, *self, i, kind@, goal@, base@, true));
                    assert(Self::searched_bits(s2, *self, i, kind@, goal@, true));
                    assert(Self::searched_for(start, *self, i, kind@, goal@, true));
                }
                return Err(PassExit::NodeGone);
            },
        };
        match self.try_bytes(i, &kind, &goal, &base2) {
            Ok(()) => {},
            Err(halt) => {
                proof {
                    Self::lemma_follows_transitive(start, s3, *self);
                    assert(Self::bytes_then_descent_cut(
                        s3,
                        *self,
                        i,
                        kind@,
                        goal@,
                        base2@,
                        halt,
                    ));
                    assert(Self::mask_cut(s2, *self, i, kind@, goal@, base@, halt));
                    assert(Self::approach_cut(start, *self, i, kind@, goal@, halt));
                }
                return Err(PassExit::Halt(halt));
            },
        }
        let ghost s4 = *self;
        proof {
            Self::lemma_follows_transitive(start, s3, s4);
            assert(Self::bytes_tried(s3, s4, i, kind@, goal@, base2@));
        }
        let r = self.descend(i, &kind, &goal);
        proof {
            Self::lemma_follows_transitive(start, s4, *self);
            Self::lemma_follows_transitive(s3, s4, *self);
            Self::lemma_follows_transitive(s2, s3, *self);
            Self::lemma_follows_transitive(s1, s2, *self);
            if halted(r) {
                let halt = halt_of(r).unwrap();
                assert(Self::bytes_then_descent_cut(s3, *self, i, kind@, goal@, base2@, halt));
                assert(Self::mask_cut(s2, *self, i, kind@, goal@, base@, halt));
                assert(Self::approach_cut(start, *self, i, kind@, goal@, halt));
            }
            if !halted(r) {
                assert(Self::bytes_then_descent(s3, *self, i, kind@, goal@, base2@, r is Err));
                assert(Self::searched_bytes(s3, *self, i, kind@, goal@, r is Err));
                assert(Self::masked_from(s2, *self, i, kind@, goal@, base@, r is Err));
                assert(Self::searched_bits(s2, *self, i, kind@, goal@, r is Err));
                assert(Self::searched_for(start, *self, i, kind@, goal@, r is Err));
            }
            if self.improvements == start.improvements && !halted(r) {
                let k = kind@;
                let g = goal@;
                let d = base@;
                let h = self.history@;
                lemma_tried_at_stays(s1.history@, h, from, from, t, i, k, g, 0);
                lemma_tried_at_stays(s2.history@, h, s1.history@.len(), from, t, i, k, g, 1);
                if 1 < bit_length(d) < usize::MAX {
                    lemma_tried_at_stays(
                        s3.history@,
                        h,
                        s2.history@.len(),
                        from,
                        t,
                        i,
                        k,
                        g,
                        d % pow2((bit_length(d) - 1) as nat),
                    );
                }
                if 8 < bit_length(d) < usize::MAX {
                    lemma_tried_at_stays(
                        s4.history@,
                        h,
                        s3.history@.len(),
                        from,
                        t,
                        i,
                        k,
                        g,
                        d / pow2((bit_length(d) - 8) as nat),
                    );
                    lemma_tried_at_stays(
                        s4.history@,
                        h,
                        s3.history@.len(),
                        from,
                        t,
                        i,
                        k,
                        g,
                        d % pow2(8),
                    );
                }
                lemma_descent_stays(h, h, s4.history@.len(), from, t, i, k, g, d);
            }
        }
        r
    }

    /// Brings each integer nearer to the value that its shrinking aims for.
    ///
    /// Unless something better turns up, an integer at distance `d` is tried
    /// at distances zero, one, `d - 1` and `d - 2`, at half the distance, and
    /// with its top or its bottom bits alone.
    pub fn binary_search_integer_towards_zero(&mut self) -> (r: Result<(), ShrinkHalt>)
        requires
            old(self).wf(),
        ensures
            final(self).follows(*old(self)),
            final(self).ends(*old(self), r.err()),
            r is Ok ==> Self::walked_through(*old(self), *final(self), Self::node_step()),
            r matches Err(halt) ==> Self::walk_through_cut(
                *old(self),
                *final(self),
                Self::node_step(),
                Self::node_part(halt),
            ),
            no_integers(old(self).target()) ==> r == Ok::<(), ShrinkHalt>(()) && *final(self)
                == *old(self),
            r is Ok && final(self).improvements == old(self).improvements ==> all_distances_tried(
                final(self).history@,
                old(self).history@.len(),
                old(self).target(),
            ),
    {
        let ghost start = *self;
        let ghost t = self.target();
        let ghost from = self.history@.len();
        let mut i: usize = 0;
        let ghost step = Self::node_step();
        let ghost mut marks = seq![*self];
        while i < self.current_nodes.len()
            invariant
                step == Self::node_step(),
                Self::walking(marks, start, step),
                marks.last() == *self,
                marks.len() == i + 1,
                start == *old(self),
                self.follows(start),
                self.goes_on(start),
                t == start.target(),
                from == start.history@.len(),
                no_integers(t) ==> *self == start,
                self.improvements == start.improvements ==> forall|j: usize|
                    j < i ==> ((#[trigger] integer_node(t, j as int)) matches Some((k, v))
                        ==> distances_tried(
                        self.history@,
                        from,
                        t,
                        j,
                        k,
                        integer_target(k),
                        magnitude_of(v - integer_target(k)),
                    )),
            decreases
                if i <= self.current_nodes@.len() {
                    self.current_nodes@.len() - i
                } else {
                    0
                },
        {
            let ghost before = *self;
            let outcome = self.binary_search_node_towards_zero(i);
            proof {
                Self::lemma_follows_transitive(start, before, *self);
                assert(Self::walked(start, before, i as int, step));
                assert(self.target().len() == self.current_nodes@.len());
                assert(before.target().len() == before.current_nodes@.len());
                if self.improvements == start.improvements && !halted(outcome) {
                    assert forall|j: usize| j < i + 1 implies ((#[trigger] integer_node(
                        t,
                        j as int,
                    )) matches Some((k, v)) ==> distances_tried(
                        self.history@,
                        from,
                        t,
                        j,
                        k,
                        integer_target(k),
                        magnitude_of(v - integer_target(k)),
                    )) by {
                        if let Some((k, v)) = integer_node(t, j as int) {
                            let h = if j < i {
                                before.history@
                            } else {
                                self.history@
                            };
                            let f = if j < i {
                                from
                            } else {
                                before.history@.len()
                            };
                            lemma_distances_stay(
                                h,
                                self.history@,
                                f,
                                from,
                                t,
                                j,
                                k,
                                integer_target(k),
                                magnitude_of(v - integer_target(k)),
                            );
                        }
                    }
                }
            }
            match absorb_node_gone(outcome) {
                Ok(()) => {
                    proof {
                        Self::lemma_stepped(marks, start, step, *self);
                        marks = marks.push(*self);
                    }
                },
                Err(halt) => {
                    return Err(halt);
                },
            }
            i = i + 1;
        }
        proof {
            assert(self.target().len() == self.current_nodes@.len());
            assert(Self::walked(start, *self, i as int, step));
        }
        Ok(())
    }
}

proof fn lemma_distances_stay(
    h1: Seq<Offer>,
    h2: Seq<Offer>,
    from1: nat,
    from2: nat,
    t: Seq<NodeView>,
    i: usize,
    k: IntegerKind,
    goal: int,
    d: nat,
)
    requires
        extends(h1, h2),
        from2 <= from1,
        distances_tried(h1, from1, t, i, k, goal, d),
    ensures
        distances_tried(h2, from2, t, i, k, goal, d),
{
    let bits = bit_length(d);
    lemma_tried_at_stays(h1, h2, from1, from2, t, i, k, goal, 0);
    lemma_tried_at_stays(h1, h2, from1, from2, t, i, k, goal, 1);
    if 1 < bits < usize::MAX {
        let m = d % pow2((bits - 1) as nat);
        lemma_tried_at_stays(h1, h2, from1, from2, t, i, k, goal, m);
    }
    if 8 < bits < usize::MAX {
        let top = d / pow2((bits - 8) as nat);
        lemma_tried_at_stays(h1, h2, from1, from2, t, i, k, goal, top);
        lemma_tried_at_stays(h1, h2, from1, from2, t, i, k, goal, d % pow2(8));
    }
    lemma_descent_stays(h1, h2, from1, from2, t, i, k, goal, d);
}

/// The integer choices: position, kind and value of each.
pub open spec fn entries_of(t: Seq<NodeView>) -> Seq<(usize, IntegerKind, int)>
    decreases t.len(),
{
    if t.len() == 0 {
        Seq::empty()
    } else {
        let front = entries_of(t.drop_last());
        match as_integer(t.last()) {
            Some((k, v)) => front.push(((t.len() - 1) as usize, k, v)),
            None => front,
        }
    }
}

proof fn lemma_entries_bound(t: Seq<NodeView>)
    ensures
        entries_of(t).len() <= t.len(),
    decreases t.len(),
{
    if t.len() > 0 {
        lemma_entries_bound(t.drop_last());
    }
}

/// An integer choice as found by [`Shrinker::integer_entries`].
pub struct IntegerEntry {
    /// The position.
    pub index: usize,
    /// The kind.
    pub kind: Arc<IntegerChoice>,
    /// The value.
    pub value: BigInt,
}

impl View for IntegerEntry {
    type V = (usize, IntegerKind, int);

    open spec fn view(&self) -> (usize, IntegerKind, int) {
        (self.index, self.kind@, self.value@)
    }
}

/// The views of a list of entries.
pub open spec fn entries_view(s: Seq<IntegerEntry>) -> Seq<(usize, IntegerKind, int)> {
    s.map_values(|e: IntegerEntry| e@)
}

/// What moving all of the surplus of the `p`th integer to the one `gap`
/// places later replaces.
pub open spec fn moved_all(
    e: Seq<(usize, IntegerKind, int)>,
    p: int,
    gap: int,
) -> Seq<(usize, ValueView)> {
    let goal = integer_target(e[p].1);
    set_two(e[p].0, goal, e[p + gap].0, e[p + gap].2 + (e[p].2 - goal))
}

/// What moving the `p`th integer and the one `gap` places later one step in
/// the direction of the first one's goal replaces.
pub open spec fn both_nearer(
    e: Seq<(usize, IntegerKind, int)>,
    p: int,
    gap: int,
) -> Seq<(usize, ValueView)> {
    let step = if e[p].2 > integer_target(e[p].1) {
        -1int
    } else {
        1int
    };
    set_two(e[p].0, e[p].2 + step, e[p + gap].0, e[p + gap].2 + step)
}

impl<P: ShrinkProbe> Shrinker<P> {
    /// The integer choices of the target.
    pub fn integer_entries(&self) -> (r: Vec<IntegerEntry>)
        ensures
            entries_view(r@) == entries_of(self.target()),
            r@.len() <= self.target().len(),
    {
        let ghost t = self.target();
        let mut out: Vec<IntegerEntry> = Vec::new();
        let mut i: usize = 0;
        assert(t.take(0) =~= Seq::empty());
        assert(entries_view(out@) =~= Seq::empty());
        while i < self.current_nodes.len()
            invariant
                i <= self.current_nodes@.len(),
                t == self.target(),
                entries_view(out@) == entries_of(t.take(i as int)),
            decreases self.current_nodes@.len() - i,
        {
            proof {
                assert(t.take(i + 1).drop_last() =~= t.take(i as int));
                assert(t.take(i + 1).last() == t[i as int]);
            }
            match self.integer_choice(i) {
                Some((kind, value)) => {
                    let ghost before = out@;
                    let entry = IntegerEntry { index: i, kind, value };
                    let ghost view = entry@;
                    out.push(entry);
                    assert(entries_view(out@) =~= entries_view(before).push(view));
                },
                None => {},
            }
            i = i + 1;
        }
        proof {
            assert(t.take(t.len() as int) =~= t);
            lemma_entries_bound(t);
        }
        out
    }

    /// How moving value from one integer to another asks for the distance that
    /// the first keeps from its goal.
    pub open spec fn move_step(i: usize, goal: int, vi: int, j: usize, vj: int) -> spec_fn(
        Self,
        Self,
        int,
        bool,
    ) -> bool {
        |a: Self, b: Self, d: int, ok: bool|
            {
                let new_i = if vi < goal {
                    goal - d
                } else {
                    goal + d
                };
                b.replaced(a, set_two(i, new_i, j, vj + (vi - new_i)), Ok(ok))
            }
    }

    /// Whether value was moved from one integer to another, as much as the test
    /// lets it.
    pub open spec fn pair_moved(
        a: Self,
        b: Self,
        i: usize,
        goal: int,
        vi: int,
        j: usize,
        vj: int,
    ) -> bool {
        if vi == goal {
            b == a
        } else {
            Self::searched_down(
                a,
                b,
                magnitude_of(vi - goal),
                Self::move_step(i, goal, vi, j, vj),
            )
        }
    }

    /// How moving value from one integer to another ends at a distance.
    pub open spec fn move_part(
        i: usize,
        goal: int,
        vi: int,
        j: usize,
        vj: int,
        halt: ShrinkHalt,
    ) -> spec_fn(Self, Self, int) -> bool {
        |a: Self, b: Self, d: int|
            {
                let new_i = if vi < goal {
                    goal - d
                } else {
                    goal + d
                };
                b.replaced(a, set_two(i, new_i, j, vj + (vi - new_i)), Err(halt))
            }
    }

    /// Whether value was moved from one integer to another until that ended as
    /// `halt` says.
    pub open spec fn move_cut(
        a: Self,
        b: Self,
        i: usize,
        goal: int,
        vi: int,
        j: usize,
        vj: int,
        halt: ShrinkHalt,
    ) -> bool {
        vi != goal && Self::search_down_cut(
            a,
            b,
            magnitude_of(vi - goal),
            Self::move_step(i, goal, vi, j, vj),
            Self::move_part(i, goal, vi, j, vj, halt),
        )
    }

    /// How moving value between integers that are `gap` places apart ends at a
    /// pair.
    pub open spec fn gap_part(n: int, gap: int, halt: ShrinkHalt) -> spec_fn(
        Self,
        Self,
        int,
    ) -> bool {
        |a: Self, b: Self, t: int|
            {
                let e = entries_of(a.target());
                let p = n - gap - 1 - t;
                gap < e.len() && p < e.len() - gap && Self::move_cut(
                    a,
                    b,
                    e[p].0,
                    integer_target(e[p].1),
                    e[p].2,
                    e[p + gap].0,
                    e[p + gap].2,
                    halt,
                )
            }
    }

    /// How moving value between pairs ends among those that are as far apart.
    pub open spec fn gaps_part(n: int, halt: ShrinkHalt) -> spec_fn(Self, Self, int) -> bool {
        |a: Self, b: Self, t: int|
            Self::walk_cut(
                a,
                b,
                n - (t + 1),
                Self::gap_step(n, t + 1),
                Self::gap_part(n, t + 1, halt),
            )
    }

    /// How value is moved between two integers, the later one `gap` places
    /// after the other, in steps from the last pair of `n` integers to the first.
    pub open spec fn gap_step(n: int, gap: int) -> spec_fn(Self, Self, int) -> bool {
        |a: Self, b: Self, t: int|
            {
                let e = entries_of(a.target());
                let p = n - gap - 1 - t;
                if gap < e.len() && p < e.len() - gap {
                    Self::pair_moved(
                        a,
                        b,
                        e[p].0,
                        integer_target(e[p].1),
                        e[p].2,
                        e[p + gap].0,
                        e[p + gap].2,
                    )
                } else {
                    b == a
                }
            }
    }

    /// How value is moved between the pairs that are one place apart, then two
    /// places, and so on.
    pub open spec fn gaps_step(n: int) -> spec_fn(Self, Self, int) -> bool {
        |a: Self, b: Self, t: int| Self::walked(a, b, n - (t + 1), Self::gap_step(n, t + 1))
    }

    /// How many places apart the pairs are at most between which value is moved,
    /// where there are `n` integers.
    pub open spec fn gaps_of(n: int) -> int {
        if n == 0 {
            0
        } else if n < 8 {
            n - 1
        } else {
            7
        }
    }

    /// Whether value was moved between all pairs at most seven places apart.
    pub open spec fn redistributed(a: Self, b: Self) -> bool {
        let n = entries_of(a.target()).len() as int;
        Self::walked(a, b, Self::gaps_of(n), Self::gaps_step(n))
    }

    /// Whether value was moved between pairs until that ended as `halt` says.
    pub open spec fn redistribution_cut(a: Self, b: Self, halt: ShrinkHalt) -> bool {
        let n = entries_of(a.target()).len() as int;
        Self::walk_cut(a, b, Self::gaps_of(n), Self::gaps_step(n), Self::gaps_part(n, halt))
    }

    /// Moves value from the integer at `i` to the one at `j`, as much as the
    /// test lets it.
    fn redistribute_pair(
        &mut self,
        i: usize,
        kind: &IntegerChoice,
        vi: &BigInt,
        j: usize,
        vj: &BigInt,
    ) -> (r: Result<(), ShrinkHalt>)
        requires
            old(self).wf(),
        ensures
            final(self).follows(*old(self)),
            final(self).ends(*old(self), r.err()),
            r is Ok ==> Self::pair_moved(
                *old(self),
                *final(self),
                i,
                integer_target(kind@),
                vi@,
                j,
                vj@,
            ),
            r matches Err(halt) ==> Self::move_cut(
                *old(self),
                *final(self),
                i,
                integer_target(kind@),
                vi@,
                j,
                vj@,
                halt,
            ),
            r is Ok && final(self).improvements == old(self).improvements && vi@ != integer_target(
                kind@,
            ) ==> tried(
                final(self).history@,
                old(self).history@.len(),
                old(self).target(),
                set_two(
                    i,
                    integer_target(kind@),
                    j,
                    vj@ + (vi@ - integer_target(kind@)),
                ),
            ),
    {
        let ghost start = *self;
        let ghost t = self.target();
        let ghost from = self.history@.len();
        let goal = kind.clamped_shrink_towards();
        let surplus = vi.minus(&goal);
        let distance = surplus.magnitude();
        if distance.is_zero() {
            return Ok(());
        }
        let on_low_side = vi.less(&goal);
        let ghost first = set_two(i, goal@, j, vj@ + (vi@ - goal@));
        let ghost ask = Self::move_step(i, goal@, vi@, j, vj@);
        let ghost top = distance@;
        let mut search = BinSearchDownBig::new(BigUint::zero(), distance);
        let ghost mut marks = seq![(search@, *self)];
        loop
            invariant
                start == *old(self),
                self.follows(start),
                self.goes_on(start),
                t == start.target(),
                from == start.history@.len(),
                search.wf(),
                search.phase is Bottom ==> search.lo@ < search.hi@,
                on_low_side == (vi@ < goal@),
                top == magnitude_of(vi@ - goal@),
                vi@ != goal@,
                ask == Self::move_step(i, goal@, vi@, j, vj@),
                Self::searching_down(marks, start, top, ask),
                marks.last() == (search@, *self),
                goal@ == integer_target(kind@),
                first == set_two(i, goal@, j, vj@ + (vi@ - goal@)),
                (search.phase is Bottom && search.lo@ == 0) || (search.phase !is Bottom && (
                self.improvements == start.improvements ==> tried(self.history@, from, t, first))),
            decreases search.stage(), search.room(),
        {
            match search.probe() {
                None => {
                    return Ok(());
                },
                Some(d) => {
                    let ghost before = *self;
                    let step = BigInt::from_magnitude(d);
                    let new_i = if on_low_side {
                        goal.minus(&step)
                    } else {
                        goal.plus(&step)
                    };
                    let new_j = vj.plus(&vi.minus(&new_i));
                    let ok = match self.replace_two(i, &new_i, j, &new_j) {
                        Ok(b) => b,
                        Err(halt) => {
                            proof {
                                Self::lemma_follows_transitive(start, before, *self);
                            }
                            return Err(halt);
                        },
                    };
                    proof {
                        Self::lemma_follows_transitive(start, before, *self);
                        if self.improvements == start.improvements {
                            let fresh = search.phase is Bottom;
                            let h = if fresh {
                                self.history@
                            } else {
                                before.history@
                            };
                            let f = if fresh {
                                before.history@.len()
                            } else {
                                from
                            };
                            lemma_tried_stays(h, self.history@, f, from, t, first);
                        }
                        Self::lemma_asked_down(marks, start, top, ask, ok, *self);
                        marks = marks.push((search@.after(ok), *self));
                    }
                    search.record(ok);
                },
            }
        }
    }

    fn redistribute_gap(&mut self, n: usize, gap: usize) -> (r: Result<(), ShrinkHalt>)
        requires
            old(self).wf(),
            1 <= gap < n,
        ensures
            final(self).follows(*old(self)),
            final(self).ends(*old(self), r.err()),
            r is Ok ==> Self::walked(
                *old(self),
                *final(self),
                n - gap,
                Self::gap_step(n as int, gap as int),
            ),
            r matches Err(halt) ==> Self::walk_cut(
                *old(self),
                *final(self),
                n - gap,
                Self::gap_step(n as int, gap as int),
                Self::gap_part(n as int, gap as int, halt),
            ),
            r is Ok && final(self).improvements == old(self).improvements && n == entries_of(
                old(self).target(),
            ).len() ==> {
                let e = entries_of(old(self).target());
                forall|p: int|
                    0 <= p < n - gap && (#[trigger] e[p]).2 != integer_target(e[p].1) ==> tried(
                        final(self).history@,
                        old(self).history@.len(),
                        old(self).target(),
                        moved_all(e, p, gap as int),
                    )
            },
    {
        let ghost start = *self;
        let ghost t = self.target();
        let ghost from = self.history@.len();
        let ghost e = entries_of(t);
        let mut next: usize = n - gap;
        let ghost step = Self::gap_step(n as int, gap as int);
        let ghost mut marks = seq![*self];
        while next > 0
            invariant
                step == Self::gap_step(n as int, gap as int),
                Self::walking(marks, start, step),
                marks.last() == *self,
                marks.len() == n - gap - next + 1,
                start == *old(self),
                self.follows(start),
                self.goes_on(start),
                t == start.target(),
                from == start.history@.len(),
                e == entries_of(t),
                1 <= gap < n,
                next <= n - gap,
                self.improvements == start.improvements && n == e.len() ==> forall|p: int|
                    next <= p < n - gap && (#[trigger] e[p]).2 != integer_target(e[p].1) ==> tried(
                        self.history@,
                        from,
                        t,
                        moved_all(e, p, gap as int),
                    ),
            decreases next,
        {
            let ghost before = *self;
            next = next - 1;
            let entries = self.integer_entries();
            assert(entries_view(entries@).len() == entries@.len());
            if gap < entries.len() && next < entries.len() - gap {
                let ghost now = entries_view(entries@);
                assert(now[next as int] == entries@[next as int]@);
                assert(now[next + gap] == entries@[next + gap]@);
                let outcome = self.redistribute_pair(
                    entries[next].index,
                    &entries[next].kind,
                    &entries[next].value,
                    entries[next + gap].index,
                    &entries[next + gap].value,
                );
                proof {
                    Self::lemma_follows_transitive(start, before, *self);
                    assert(Self::walked(start, before, n - gap - 1 - next, step));
                }
                match outcome {
                    Ok(()) => {},
                    Err(halt) => {
                        return Err(halt);
                    },
                }
            }
            proof {
                Self::lemma_stepped(marks, start, step, *self);
                marks = marks.push(*self);
                if self.improvements == start.improvements && n == e.len() {
                    assert forall|p: int|
                        next <= p < n - gap && (#[trigger] e[p]).2 != integer_target(
                            e[p].1,
                        ) implies tried(self.history@, from, t, moved_all(e, p, gap as int)) by {
                        let h = if p == next {
                            self.history@
                        } else {
                            before.history@
                        };
                        let f = if p == next {
                            before.history@.len()
                        } else {
                            from
                        };
                        lemma_tried_stays(
                            h,
                            self.history@,
                            f,
                            from,
                            t,
                            moved_all(e, p, gap as int),
                        );
                    }
                }
            }
        }
        assert(Self::walked(start, *self, n - gap, step));
        Ok(())
    }

    /// Moves value between pairs of integers near each other, so that their
    /// sum stays: the first of the pair comes nearer to its goal.
    ///
    /// Unless something better turns up, each pair at most seven integers
    /// apart is tried with the whole surplus moved.
    pub fn redistribute_integers(&mut self) -> (r: Result<(), ShrinkHalt>)
        requires
            old(self).wf(),
        ensures
            final(self).follows(*old(self)),
            final(self).ends(*old(self), r.err()),
            r is Ok ==> Self::redistributed(*old(self), *final(self)),
            r matches Err(halt) ==> Self::redistribution_cut(*old(self), *final(self), halt),
            entries_of(old(self).target()).len() < 2 ==> r == Ok::<(), ShrinkHalt>(()) && *final(self)
                == *old(self),
            r is Ok && final(self).improvements == old(self).improvements ==> moves_tried(
                final(self).history@,
                old(self).history@.len(),
                old(self).target(),
            ),
    {
        let ghost start = *self;
        let ghost t = self.target();
        let ghost from = self.history@.len();
        let ghost e = entries_of(t);
        let n: usize = self.integer_entries().len();
        let max_gap: usize = if n < 8 {
            n
        } else {
            8
        };
        let mut gap: usize = 1;
        let ghost step = Self::gaps_step(n as int);
        let ghost mut marks = seq![*self];
        while gap < max_gap
            invariant
                step == Self::gaps_step(n as int),
                Self::walking(marks, start, step),
                marks.last() == *self,
                marks.len() == gap,
                gap <= max_gap || gap == 1,
                start == *old(self),
                self.follows(start),
                self.goes_on(start),
                t == start.target(),
                from == start.history@.len(),
                e == entries_of(t),
                n == e.len(),
                n < 2 ==> *self == start,
                max_gap == if n < 8 {
                    n
                } else {
                    8
                },
                1 <= gap,
                self.improvements == start.improvements ==> forall|p: int, g: int|
                    #![trigger moved_all(e, p, g)]
                    1 <= g < gap && 0 <= p < n - g && e[p].2 != integer_target(e[p].1) ==> tried(
                        self.history@,
                        from,
                        t,
                        moved_all(e, p, g),
                    ),
            decreases max_gap - gap,
        {
            let ghost before = *self;
            let outcome = self.redistribute_gap(n, gap);
            proof {
                Self::lemma_follows_transitive(start, before, *self);
                assert(Self::walked(start, before, gap - 1, step));
            }
            match outcome {
                Ok(()) => {},
                Err(halt) => {
                    return Err(halt);
                },
            }
            proof {
                if self.improvements == start.improvements {
                    assert forall|p: int, g: int|
                        #![trigger moved_all(e, p, g)]
                        1 <= g < gap + 1 && 0 <= p < n - g && e[p].2 != integer_target(
                            e[p].1,
                        ) implies tried(self.history@, from, t, moved_all(e, p, g)) by {
                        let h = if g == gap {
                            self.history@
                        } else {
                            before.history@
                        };
                        let f = if g == gap {
                            before.history@.len()
                        } else {
                            from
                        };
                        lemma_tried_stays(h, self.history@, f, from, t, moved_all(e, p, g));
                    }
                }
            }
            proof {
                Self::lemma_stepped(marks, start, step, *self);
                marks = marks.push(*self);
            }
            gap = gap + 1;
        }
        assert(Self::walked(start, *self, gap - 1, step));
        Ok(())
    }

    /// How lowering a pair asks for an amount: neither passes beyond the goal of
    /// the first, and the candidate has both nearer to it by that much.
    pub open spec fn pair_step(i: usize, goal: int, vi: int, j: usize, vj: int) -> spec_fn(
        Self,
        Self,
        int,
        bool,
    ) -> bool {
        |a: Self, b: Self, n: int, ok: bool|
            if n > magnitude_of(vi - goal) {
                !ok && b == a
            } else if vi > goal {
                b.replaced(a, set_two(i, vi - n, j, vj - n), Ok(ok))
            } else {
                b.replaced(a, set_two(i, vi + n, j, vj + n), Ok(ok))
            }
    }

    /// Whether a pair was brought nearer to the goal of the first as far as the
    /// test allows.
    pub open spec fn pair_lowered(
        a: Self,
        b: Self,
        i: usize,
        goal: int,
        vi: int,
        j: usize,
        vj: int,
    ) -> bool {
        if vi == goal {
            b == a
        } else {
            Self::searched(a, b, Self::pair_step(i, goal, vi, j, vj))
        }
    }

    /// How lowering a pair ends at an amount.
    pub open spec fn pair_part(
        i: usize,
        goal: int,
        vi: int,
        j: usize,
        vj: int,
        halt: ShrinkHalt,
    ) -> spec_fn(Self, Self, int) -> bool {
        |a: Self, b: Self, n: int|
            n <= magnitude_of(vi - goal) && if vi > goal {
                b.replaced(a, set_two(i, vi - n, j, vj - n), Err(halt))
            } else {
                b.replaced(a, set_two(i, vi + n, j, vj + n), Err(halt))
            }
    }

    /// Whether a pair was brought nearer to the goal of the first until that ended as
    /// `halt` says.
    pub open spec fn pair_cut(
        a: Self,
        b: Self,
        i: usize,
        goal: int,
        vi: int,
        j: usize,
        vj: int,
        halt: ShrinkHalt,
    ) -> bool {
        vi != goal && Self::search_cut(
            a,
            b,
            Self::pair_step(i, goal, vi, j, vj),
            Self::pair_part(i, goal, vi, j, vj, halt),
        )
    }

    /// Lowers the integers at `i` and `j` by the same amount, or raises them
    /// where `i` is below its goal.
    fn lower_pair(
        &mut self,
        i: usize,
        kind: &IntegerChoice,
        vi: &BigInt,
        j: usize,
        vj: &BigInt,
    ) -> (r: Result<(), ShrinkHalt>)
        requires
            old(self).wf(),
        ensures
            final(self).follows(*old(self)),
            final(self).ends(*old(self), r.err()),
            r is Ok ==> Self::pair_lowered(
                *old(self),
                *final(self),
                i,
                integer_target(kind@),
                vi@,
                j,
                vj@,
            ),
            r matches Err(halt) ==> Self::pair_cut(
                *old(self),
                *final(self),
                i,
                integer_target(kind@),
                vi@,
                j,
                vj@,
                halt,
            ),
            r is Ok && final(self).improvements == old(self).improvements ==> {
                let goal = integer_target(kind@);
                &&& vi@ > goal ==> tried(
                    final(self).history@,
                    old(self).history@.len(),
                    old(self).target(),
                    set_two(i, vi@ - 1, j, vj@ - 1),
                )
                &&& vi@ < goal ==> tried(
                    final(self).history@,
                    old(self).history@.len(),
                    old(self).target(),
                    set_two(i, vi@ + 1, j, vj@ + 1),
                )
            },
    {
        let ghost start = *self;
        let ghost t = self.target();
        let ghost from = self.history@.len();
        let goal = kind.clamped_shrink_towards();
        let surplus = vi.minus(&goal);
        let limit = surplus.magnitude();
        if limit.is_zero() {
            return Ok(());
        }
        let down = surplus.is_positive();
        let ghost step = if down {
            -1int
        } else {
            1int
        };
        let ghost first = set_two(i, vi@ + step, j, vj@ + step);
        let ghost ask = Self::pair_step(i, integer_target(kind@), vi@, j, vj@);
        let mut search = FindInteger::new();
        let ghost mut marks = seq![(search, *self)];
        loop
            invariant
                start == *old(self),
                self.follows(start),
                self.goes_on(start),
                t == start.target(),
                from == start.history@.len(),
                search.wf(),
                ask == Self::pair_step(i, integer_target(kind@), vi@, j, vj@),
                Self::searching(marks, start, ask),
                marks.last() == (search, *self),
                limit@ == magnitude_of(vi@ - integer_target(kind@)),
                limit@ > 0,
                down == (vi@ > integer_target(kind@)),
                !down ==> vi@ < integer_target(kind@),
                step == if down {
                    -1int
                } else {
                    1int
                },
                first == set_two(i, vi@ + step, j, vj@ + step),
                (search.phase is Linear && search.lo == 0) || (self.improvements
                    == start.improvements ==> tried(self.history@, from, t, first)),
            decreases search.stage(), search.room(),
        {
            match search.probe() {
                None => {
                    return Ok(());
                },
                Some(n) => {
                    let ghost before = *self;
                    let ghost fresh = search.phase is Linear && search.lo == 0;
                    let amount = BigUint::from_u128(n as u128);
                    let ok = if amount.compare(&limit) == Comparison::Greater {
                        false
                    } else {
                        let k = BigInt::from_magnitude(amount);
                        let (new_i, new_j) = if down {
                            (vi.minus(&k), vj.minus(&k))
                        } else {
                            (vi.plus(&k), vj.plus(&k))
                        };
                        match self.replace_two(i, &new_i, j, &new_j) {
                            Ok(b) => b,
                            Err(halt) => {
                                proof {
                                    Self::lemma_follows_transitive(start, before, *self);
                                }
                                return Err(halt);
                            },
                        }
                    };
                    proof {
                        Self::lemma_follows_transitive(start, before, *self);
                        if self.improvements == start.improvements {
                            let h = if fresh {
                                self.history@
                            } else {
                                before.history@
                            };
                            let f = if fresh {
                                before.history@.len()
                            } else {
                                from
                            };
                            lemma_tried_stays(h, self.history@, f, from, t, first);
                        }
                        Self::lemma_asked(marks, start, ask, ok, *self);
                        marks = marks.push((search.after(ok), *self));
                    }
                    search.record(ok);
                },
            }
        }
    }

    /// Whether the `p`th integer was lowered with each of those that are `gap` to
    /// three after it, as far as there are any. `r` says whether there was such
    /// an integer to the end.
    pub open spec fn lowered_from(a: Self, b: Self, p: int, gap: int, r: bool) -> bool
        decreases 4 - gap,
    {
        let e = entries_of(a.target());
        if gap > 3 {
            r && b == a
        } else if p >= e.len() {
            !r && b == a
        } else if p + gap >= e.len() {
            r && b == a
        } else {
            exists|mid: Self| #[trigger]
                Self::pair_lowered(
                    a,
                    mid,
                    e[p].0,
                    integer_target(e[p].1),
                    e[p].2,
                    e[p + gap].0,
                    e[p + gap].2,
                ) && Self::lowered_from(mid, b, p, gap + 1, r)
        }
    }

    /// Whether the `p`th integer was lowered with those that are `gap` to three after
    /// it until that ended as `halt` says.
    pub open spec fn lower_cut(a: Self, b: Self, p: int, gap: int, halt: ShrinkHalt) -> bool
        decreases 4 - gap,
    {
        let e = entries_of(a.target());
        if gap > 3 || p + gap >= e.len() {
            false
        } else {
            Self::pair_cut(
                a,
                b,
                e[p].0,
                integer_target(e[p].1),
                e[p].2,
                e[p + gap].0,
                e[p + gap].2,
                halt,
            ) || exists|mid: Self| #[trigger]
                Self::pair_lowered(
                    a,
                    mid,
                    e[p].0,
                    integer_target(e[p].1),
                    e[p].2,
                    e[p + gap].0,
                    e[p + gap].2,
                ) && Self::lower_cut(mid, b, p, gap + 1, halt)
        }
    }

    /// How lowering integers together deals with the `p`th one.
    pub open spec fn lower_step() -> spec_fn(Self, Self, int) -> bool {
        |a: Self, b: Self, p: int| Self::lowered_from(a, b, p, 1, true)
    }

    /// Whether the integers were lowered with those after them, one after the
    /// other until there were no more.
    pub open spec fn lowered_together(a: Self, b: Self) -> bool {
        exists|mid: Self, n: int| #[trigger]
            Self::walked(a, mid, n, Self::lower_step()) && Self::lowered_from(
                mid,
                b,
                n,
                1,
                false,
            )
    }

    /// Whether integers were lowered with those after them until that ended as
    /// `halt` says.
    pub open spec fn lowering_cut(a: Self, b: Self, halt: ShrinkHalt) -> bool {
        exists|mid: Self, n: int| #[trigger]
            Self::walked(a, mid, n, Self::lower_step()) && Self::lower_cut(mid, b, n, 1, halt)
    }

    /// Lowers the `p`th integer with each of the three after it; the answer is
    /// whether there was such an integer.
    fn lower_at(&mut self, p: usize) -> (r: Result<bool, ShrinkHalt>)
        requires
            old(self).wf(),
        ensures
            final(self).follows(*old(self)),
            final(self).ends(*old(self), r.err()),
            r matches Ok(more) ==> Self::lowered_from(
                *old(self),
                *final(self),
                p as int,
                1,
                more,
            ),
            r matches Err(halt) ==> Self::lower_cut(*old(self), *final(self), p as int, 1, halt),
            entries_of(old(self).target()).len() <= p + 1 ==> r == Ok::<bool, ShrinkHalt>(
                p < entries_of(old(self).target()).len(),
            ) && *final(self) == *old(self),
            r == Ok::<bool, ShrinkHalt>(true) ==> p < old(self).target().len() && p < usize::MAX,
            r is Ok && final(self).improvements == old(self).improvements ==> {
                let e = entries_of(old(self).target());
                &&& r == Ok::<bool, ShrinkHalt>(p < e.len())
                &&& forall|gap: int|
                    #![trigger both_nearer(e, p as int, gap)]
                    1 <= gap <= 3 && p + gap < e.len() && e[p as int].2 != integer_target(
                        e[p as int].1,
                    ) ==> tried(
                        final(self).history@,
                        old(self).history@.len(),
                        old(self).target(),
                        both_nearer(e, p as int, gap),
                    )
            },
    {
        let ghost start = *self;
        let ghost t = self.target();
        let ghost from = self.history@.len();
        let ghost e = entries_of(t);
        let mut gap: usize = 1;
        proof {
            lemma_entries_bound(t);
        }
        while gap <= 3
            invariant
                start == *old(self),
                self.follows(start),
                self.goes_on(start),
                t == start.target(),
                from == start.history@.len(),
                e == entries_of(t),
                e.len() <= t.len(),
                gap > 1 ==> e.len() > p + 1,
                gap == 1 ==> *self == start,
                1 <= gap <= 4,
                forall|b: Self, r: bool| #[trigger]
                    Self::lowered_from(*self, b, p as int, gap as int, r) ==> Self::lowered_from(
                        start,
                        b,
                        p as int,
                        1,
                        r,
                    ),
                forall|b: Self, halt: ShrinkHalt| #[trigger]
                    Self::lower_cut(*self, b, p as int, gap as int, halt) ==> Self::lower_cut(
                        start,
                        b,
                        p as int,
                        1,
                        halt,
                    ),
                gap > 1 ==> p < t.len() && p < usize::MAX,
                gap > 1 && self.improvements == start.improvements ==> p < e.len(),
                self.improvements == start.improvements ==> forall|g: int|
                    #![trigger both_nearer(e, p as int, g)]
                    1 <= g < gap && p + g < e.len() && e[p as int].2 != integer_target(
                        e[p as int].1,
                    ) ==> tried(self.history@, from, t, both_nearer(e, p as int, g)),
            decreases 4 - gap,
        {
            let ghost before = *self;
            let entries = self.integer_entries();
            let ghost now = entries_view(entries@);
            assert(now.len() == entries@.len());
            if p >= entries.len() {
                assert(Self::lowered_from(*self, *self, p as int, gap as int, false));
                return Ok(false);
            }
            if gap >= entries.len() || p >= entries.len() - gap {
                assert(Self::lowered_from(*self, *self, p as int, gap as int, true));
                return Ok(true);
            }
            assert(now[p as int] == entries@[p as int]@);
            assert(now[p + gap] == entries@[p + gap]@);
            let outcome = self.lower_pair(
                entries[p].index,
                &entries[p].kind,
                &entries[p].value,
                entries[p + gap].index,
                &entries[p + gap].value,
            );
            proof {
                Self::lemma_follows_transitive(start, before, *self);
                if outcome is Err {
                    assert(Self::lower_cut(before, *self, p as int, gap as int, outcome->Err_0));
                }
            }
            match outcome {
                Ok(()) => {},
                Err(halt) => {
                    return Err(halt);
                },
            }
            proof {
                assert forall|b: Self, halt: ShrinkHalt| #[trigger]
                    Self::lower_cut(
                        *self,
                        b,
                        p as int,
                        gap + 1,
                        halt,
                    ) implies Self::lower_cut(start, b, p as int, 1, halt) by {
                    let at = entries_of(before.target());
                    assert(Self::pair_lowered(
                        before,
                        *self,
                        at[p as int].0,
                        integer_target(at[p as int].1),
                        at[p as int].2,
                        at[p + gap].0,
                        at[p + gap].2,
                    ));
                    assert(Self::lower_cut(before, b, p as int, gap as int, halt));
                }
                assert forall|b: Self, r: bool| #[trigger]
                    Self::lowered_from(
                        *self,
                        b,
                        p as int,
                        gap + 1,
                        r,
                    ) implies Self::lowered_from(start, b, p as int, 1, r) by {
                    let at = entries_of(before.target());
                    assert(Self::pair_lowered(
                        before,
                        *self,
                        at[p as int].0,
                        integer_target(at[p as int].1),
                        at[p as int].2,
                        at[p + gap].0,
                        at[p + gap].2,
                    ));
                    assert(Self::lowered_from(before, b, p as int, gap as int, r));
                }
                if self.improvements == start.improvements {
                    assert forall|g: int|
                        #![trigger both_nearer(e, p as int, g)]
                        1 <= g < gap + 1 && p + g < e.len() && e[p as int].2 != integer_target(
                            e[p as int].1,
                        ) implies tried(self.history@, from, t, both_nearer(e, p as int, g)) by {
                        let h = if g == gap {
                            self.history@
                        } else {
                            before.history@
                        };
                        let f = if g == gap {
                            before.history@.len()
                        } else {
                            from
                        };
                        lemma_tried_stays(
                            h,
                            self.history@,
                            f,
                            from,
                            t,
                            both_nearer(e, p as int, g),
                        );
                    }
                }
            }
            gap = gap + 1;
        }
        assert(Self::lowered_from(*self, *self, p as int, 4, true));
        Ok(true)
    }

    /// Lowers pairs of integers near each other by the same amount, so that
    /// their difference stays.
    ///
    /// Unless something better turns up, each pair at most three integers
    /// apart is tried one step nearer to the first one's goal.
    pub fn lower_integers_together(&mut self) -> (r: Result<(), ShrinkHalt>)
        requires
            old(self).wf(),
        ensures
            final(self).follows(*old(self)),
            final(self).ends(*old(self), r.err()),
            r is Ok ==> Self::lowered_together(*old(self), *final(self)),
            r matches Err(halt) ==> Self::lowering_cut(*old(self), *final(self), halt),
            entries_of(old(self).target()).len() < 2 ==> r == Ok::<(), ShrinkHalt>(()) && *final(self)
                == *old(self),
            r is Ok && final(self).improvements == old(self).improvements ==> pairs_tried(
                final(self).history@,
                old(self).history@.len(),
                old(self).target(),
            ),
    {
        let ghost start = *self;
        let ghost t = self.target();
        let ghost from = self.history@.len();
        let ghost e = entries_of(t);
        let mut pair_idx: usize = 0;
        let ghost step = Self::lower_step();
        let ghost mut marks = seq![*self];
        loop
            invariant
                step == Self::lower_step(),
                Self::walking(marks, start, step),
                marks.last() == *self,
                marks.len() == pair_idx + 1,
                start == *old(self),
                self.follows(start),
                self.goes_on(start),
                t == start.target(),
                from == start.history@.len(),
                e == entries_of(t),
                e.len() < 2 ==> *self == start && pair_idx <= e.len(),
                self.improvements == start.improvements ==> forall|p: int, g: int|
                    #![trigger both_nearer(e, p, g)]
                    1 <= g <= 3 && 0 <= p < pair_idx && p < e.len() - g && e[p].2 != integer_target(
                        e[p].1,
                    ) ==> tried(self.history@, from, t, both_nearer(e, p, g)),
            decreases
                if pair_idx <= self.target().len() {
                    self.target().len() - pair_idx
                } else {
                    0
                },
        {
            let ghost before = *self;
            let outcome = self.lower_at(pair_idx);
            proof {
                Self::lemma_follows_transitive(start, before, *self);
                assert(Self::walked(start, before, pair_idx as int, step));
                if outcome is Ok && self.improvements == start.improvements {
                    assert forall|p: int, g: int|
                        #![trigger both_nearer(e, p, g)]
                        1 <= g <= 3 && 0 <= p < pair_idx + 1 && p < e.len() - g && e[p].2
                            != integer_target(e[p].1) implies tried(
                        self.history@,
                        from,
                        t,
                        both_nearer(e, p, g),
                    ) by {
                        let h = if p == pair_idx {
                            self.history@
                        } else {
                            before.history@
                        };
                        let f = if p == pair_idx {
                            before.history@.len()
                        } else {
                            from
                        };
                        lemma_tried_stays(h, self.history@, f, from, t, both_nearer(e, p, g));
                    }
                }
            }
            match outcome {
                Ok(true) => {
                    proof {
                        Self::lemma_stepped(marks, start, step, *self);
                        marks = marks.push(*self);
                    }
                },
                Ok(false) => {
                    assert(Self::walked(start, before, pair_idx as int, step));
                    return Ok(());
                },
                Err(halt) => {
                    return Err(halt);
                },
            }
            pair_idx = pair_idx + 1;
        }
    }
}

/// Whether every integer was tried at its goal, and every negative one with
/// its sign changed.
pub open spec fn signs_tried(h: Seq<Offer>, from: nat, t: Seq<NodeView>) -> bool {
    forall|i: usize|
        (#[trigger] integer_node(t, i as int)) matches Some((k, v)) ==> {
            &&& v != integer_target(k) ==> tried(h, from, t, set_int(i, integer_target(k)))
            &&& v < 0 ==> tried(h, from, t, set_int(i, -v))
        }
}

/// Whether every integer was tried at the distances that a search tries.
pub open spec fn all_distances_tried(h: Seq<Offer>, from: nat, t: Seq<NodeView>) -> bool {
    forall|i: usize|
        (#[trigger] integer_node(t, i as int)) matches Some((k, v)) ==> distances_tried(
            h,
            from,
            t,
            i,
            k,
            integer_target(k),
            magnitude_of(v - integer_target(k)),
        )
}

/// Whether every pair of integers at most seven apart was tried with all of
/// the surplus of the first moved to the second.
pub open spec fn moves_tried(h: Seq<Offer>, from: nat, t: Seq<NodeView>) -> bool {
    let e = entries_of(t);
    forall|p: int, gap: int|
        #![trigger moved_all(e, p, gap)]
        1 <= gap < 8 && 0 <= p < e.len() - gap && e[p].2 != integer_target(e[p].1) ==> tried(
            h,
            from,
            t,
            moved_all(e, p, gap),
        )
}

/// Whether every pair of integers at most three apart was tried one step
/// nearer to the goal of the first.
pub open spec fn pairs_tried(h: Seq<Offer>, from: nat, t: Seq<NodeView>) -> bool {
    let e = entries_of(t);
    forall|p: int, gap: int|
        #![trigger both_nearer(e, p, gap)]
        1 <= gap <= 3 && 0 <= p < e.len() - gap && e[p].2 != integer_target(e[p].1) ==> tried(
            h,
            from,
            t,
            both_nearer(e, p, gap),
        )
}

pub(crate) proof fn lemma_integer_passes_stay(
    h1: Seq<Offer>,
    h2: Seq<Offer>,
    from1: nat,
    from2: nat,
    t: Seq<NodeView>,
)
    requires
        extends(h1, h2),
        from2 <= from1,
    ensures
        signs_tried(h1, from1, t) ==> signs_tried(h2, from2, t),
        all_distances_tried(h1, from1, t) ==> all_distances_tried(h2, from2, t),
        moves_tried(h1, from1, t) ==> moves_tried(h2, from2, t),
        pairs_tried(h1, from1, t) ==> pairs_tried(h2, from2, t),
        sweeps_tried(h1, from1, t, t.len() as int) ==> sweeps_tried(h2, from2, t, t.len() as int),
{
    let e = entries_of(t);
    if signs_tried(h1, from1, t) {
        assert forall|i: usize| true implies ((#[trigger] integer_node(t, i as int)) matches Some(
            (k, v),
        ) ==> {
            &&& v != integer_target(k) ==> tried(h2, from2, t, set_int(i, integer_target(k)))
            &&& v < 0 ==> tried(h2, from2, t, set_int(i, -v))
        }) by {
            if let Some((k, v)) = integer_node(t, i as int) {
                if v != integer_target(k) {
                    lemma_tried_stays(h1, h2, from1, from2, t, set_int(i, integer_target(k)));
                }
                if v < 0 {
                    lemma_tried_stays(h1, h2, from1, from2, t, set_int(i, -v));
                }
            }
        }
    }
    if all_distances_tried(h1, from1, t) {
        assert forall|i: usize| true implies ((#[trigger] integer_node(t, i as int)) matches Some(
            (k, v),
        ) ==> distances_tried(
            h2,
            from2,
            t,
            i,
            k,
            integer_target(k),
            magnitude_of(v - integer_target(k)),
        )) by {
            if let Some((k, v)) = integer_node(t, i as int) {
                lemma_distances_stay(
                    h1,
                    h2,
                    from1,
                    from2,
                    t,
                    i,
                    k,
                    integer_target(k),
                    magnitude_of(v - integer_target(k)),
                );
            }
        }
    }
    if moves_tried(h1, from1, t) {
        assert forall|p: int, gap: int|
            #![trigger moved_all(e, p, gap)]
            1 <= gap < 8 && 0 <= p < e.len() - gap && e[p].2 != integer_target(
                e[p].1,
            ) implies tried(h2, from2, t, moved_all(e, p, gap)) by {
            lemma_tried_stays(h1, h2, from1, from2, t, moved_all(e, p, gap));
        }
    }
    if pairs_tried(h1, from1, t) {
        assert forall|p: int, gap: int|
            #![trigger both_nearer(e, p, gap)]
            1 <= gap <= 3 && 0 <= p < e.len() - gap && e[p].2 != integer_target(
                e[p].1,
            ) implies tried(h2, from2, t, both_nearer(e, p, gap)) by {
            lemma_tried_stays(h1, h2, from1, from2, t, both_nearer(e, p, gap));
        }
    }
    if sweeps_tried(h1, from1, t, t.len() as int) {
        lemma_sweeps_stay(h1, h2, from1, from2, t, t.len() as int);
    }
}

proof fn lemma_sweeps_stay(
    h1: Seq<Offer>,
    h2: Seq<Offer>,
    from1: nat,
    from2: nat,
    t: Seq<NodeView>,
    k: int,
)
    requires
        extends(h1, h2),
        from2 <= from1,
        sweeps_tried(h1, from1, t, k),
    ensures
        sweeps_tried(h2, from2, t, k),
    decreases k,
{
    if k > 0 {
        lemma_sweep_stays(h1, h2, from1, from2, t, k, 0);
        lemma_sweeps_stay(h1, h2, from1, from2, t, k / 2);
    }
}

} // verus!
