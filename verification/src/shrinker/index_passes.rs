//! Shrink passes that work on the indices of choices, whatever their kind.
use super::extends;
use super::integers::same_key;
use super::lacks_simplest;
use super::lemma_offered_stays;
use super::lemma_tried_stays;
use super::offered;
use super::reps_view;
use super::tried;
use super::Offer;
use super::ShrinkHalt;
use super::ShrinkProbe;
use super::Shrinker;
use crate::bignum::BigUint;
use crate::bignum::Comparison;
use crate::choices::copy_nodes;
use crate::choices::data_value;
use crate::choices::index_of;
use crate::choices::kind_view;
use crate::choices::lemma_index_round_trip;
use crate::choices::max_index_of;
use crate::choices::node_with;
use crate::choices::nodes_view;
use crate::choices::simplest_of;
use crate::choices::value_at;
use crate::choices::value_fits;
use crate::choices::values_view;
use crate::choices::ChoiceData;
use crate::choices::ChoiceNode;
use crate::choices::ChoiceValue;
use crate::choices::KindView;
use crate::choices::NodeView;
use crate::choices::ValueView;
use crate::errors::InternalError;
use vstd::arithmetic::power2::lemma2_to64;
use vstd::arithmetic::power2::lemma_pow2_unfold;
use vstd::arithmetic::power2::pow2;
use vstd::prelude::*;

verus! {

/// Whether a choice is a string or a byte string.
pub open spec fn is_sequence_kind(k: KindView) -> bool {
    k is Bytes || k is String
}

/// Whether a choice is a string or a byte string. The passes here leave those
/// to passes of their own.
pub fn is_sequence(data: &ChoiceData) -> (r: bool)
    ensures
        r == is_sequence_kind(kind_view(*data)),
{
    match data {
        ChoiceData::Bytes(_, _) => true,
        ChoiceData::String(_, _) => true,
        _ => false,
    }
}

/// The index of a choice that the passes here work on.
pub open spec fn index_at(t: Seq<NodeView>, i: int) -> Option<nat> {
    if 0 <= i < t.len() && !is_sequence_kind(t[i].kind) {
        index_of(t[i].kind, t[i].value)
    } else {
        None
    }
}

/// The choices with `v` at position `i`.
pub open spec fn with_value_at(t: Seq<NodeView>, i: int, v: ValueView) -> Seq<NodeView> {
    t.update(i, node_with(t[i], v))
}

/// Whether every choice from `a` on has a simplest value.
pub open spec fn have_simplest(t: Seq<NodeView>, a: int) -> bool {
    forall|x: int| a <= x < t.len() ==> simplest_of((#[trigger] t[x]).kind) is Some
}

/// The choices with those from `a` on made simplest.
pub open spec fn zeroed_from(t: Seq<NodeView>, a: int) -> Seq<NodeView> {
    Seq::new(
        t.len(),
        |x: int|
            if x < a {
                t[x]
            } else {
                node_with(t[x], simplest_of(t[x].kind).unwrap())
            },
    )
}

/// The values that `lower_and_bump` lowers a choice with index `c` to: the
/// simplest, and the one just before.
pub open spec fn is_lowering(k: KindView, c: nat, v: ValueView) -> bool {
    c > 0 && (value_at(k, 0) == Some(v) || value_at(k, (c - 1) as nat) == Some(v))
}

/// The replacement of the choices at `i` and `j`.
pub open spec fn pair_reps(i: usize, v: ValueView, j: usize, w: ValueView) -> Seq<
    (usize, ValueView),
> {
    seq![(i, v), (j, w)]
}

/// Whether `v` at `i` was tried together with the value of index `k` at `j`.
pub open spec fn bump_tried(
    h: Seq<Offer>,
    from: nat,
    t: Seq<NodeView>,
    i: usize,
    v: ValueView,
    j: usize,
    k: nat,
) -> bool {
    value_at(t[j as int].kind, k) matches Some(w) ==> tried(h, from, t, pair_reps(i, v, j, w))
}

/// Whether `v` at `i` together with the value of index `k` at `j` leaves the
/// target as simple as it is.
pub open spec fn bump_same(t: Seq<NodeView>, i: usize, v: ValueView, j: usize, k: nat) -> bool {
    value_at(t[j as int].kind, k) matches Some(w) && same_key(t, pair_reps(i, v, j, w))
}

/// Whether `v` at `i` was tried together with the indices a little above the
/// one at `j`.
pub open spec fn relative_bumps_tried(
    h: Seq<Offer>,
    from: nat,
    t: Seq<NodeView>,
    i: usize,
    v: ValueView,
    j: usize,
    c: nat,
) -> bool {
    &&& bump_tried(h, from, t, i, v, j, c + 1)
    &&& bump_same(t, i, v, j, c + 1) || {
        &&& bump_tried(h, from, t, i, v, j, c + 2)
        &&& bump_same(t, i, v, j, c + 2) || bump_tried(h, from, t, i, v, j, c + 4)
    }
}

/// Whether one of the indices a little above the one at `j` leaves the target
/// as simple as it is.
pub open spec fn some_bump_same(
    t: Seq<NodeView>,
    i: usize,
    v: ValueView,
    j: usize,
    c: nat,
) -> bool {
    bump_same(t, i, v, j, c + 1) || bump_same(t, i, v, j, c + 2) || bump_same(t, i, v, j, c + 4)
}

/// Whether `v` at `i` was tried together with the small powers of two and
/// their predecessors as the index at `j`.
pub open spec fn absolute_bumps_tried(
    h: Seq<Offer>,
    from: nat,
    t: Seq<NodeView>,
    i: usize,
    v: ValueView,
    j: usize,
    m: nat,
) -> bool {
    forall|e: nat|
        e < 8 && (#[trigger] pow2(e)) <= m ==> bump_tried(
            h,
            from,
            t,
            i,
            v,
            j,
            (pow2(e) - 1) as nat,
        ) && bump_tried(h, from, t, i, v, j, pow2(e))
}

/// Whether lowering the choice at `i` to `v` was tried together with raising
/// the one at `j`.
pub open spec fn bumps_tried(
    h: Seq<Offer>,
    from: nat,
    t: Seq<NodeView>,
    i: usize,
    v: ValueView,
    j: usize,
) -> bool {
    index_at(t, j as int) matches Some(c) ==> (max_index_of(t[j as int].kind) matches Some(m) ==> {
        &&& relative_bumps_tried(h, from, t, i, v, j, c)
        &&& some_bump_same(t, i, v, j, c) || absolute_bumps_tried(h, from, t, i, v, j, m)
    })
}

proof fn lemma_bump_stays(
    h1: Seq<Offer>,
    h2: Seq<Offer>,
    from1: nat,
    from2: nat,
    t: Seq<NodeView>,
    i: usize,
    v: ValueView,
    j: usize,
    k: nat,
)
    requires
        extends(h1, h2),
        from2 <= from1,
        bump_tried(h1, from1, t, i, v, j, k),
    ensures
        bump_tried(h2, from2, t, i, v, j, k),
{
    if let Some(w) = value_at(t[j as int].kind, k) {
        lemma_tried_stays(h1, h2, from1, from2, t, pair_reps(i, v, j, w));
    }
}

proof fn lemma_bumps_stay(
    h1: Seq<Offer>,
    h2: Seq<Offer>,
    from1: nat,
    from2: nat,
    t: Seq<NodeView>,
    i: usize,
    v: ValueView,
    j: usize,
)
    requires
        extends(h1, h2),
        from2 <= from1,
        bumps_tried(h1, from1, t, i, v, j),
    ensures
        bumps_tried(h2, from2, t, i, v, j),
{
    if let Some(c) = index_at(t, j as int) {
        if let Some(m) = max_index_of(t[j as int].kind) {
            lemma_bump_stays(h1, h2, from1, from2, t, i, v, j, c + 1);
            if bump_tried(h1, from1, t, i, v, j, c + 2) {
                lemma_bump_stays(h1, h2, from1, from2, t, i, v, j, c + 2);
            }
            if bump_tried(h1, from1, t, i, v, j, c + 4) {
                lemma_bump_stays(h1, h2, from1, from2, t, i, v, j, c + 4);
            }
            if absolute_bumps_tried(h1, from1, t, i, v, j, m) {
                assert forall|e: nat| e < 8 && (#[trigger] pow2(e)) <= m implies bump_tried(
                    h2,
                    from2,
                    t,
                    i,
                    v,
                    j,
                    (pow2(e) - 1) as nat,
                ) && bump_tried(h2, from2, t, i, v, j, pow2(e)) by {
                    lemma_bump_stays(h1, h2, from1, from2, t, i, v, j, (pow2(e) - 1) as nat);
                    lemma_bump_stays(h1, h2, from1, from2, t, i, v, j, pow2(e));
                }
            }
        }
    }
}

/// A copy of the choices with those from `a` on made simplest.
pub(crate) fn zero_from(nodes: &Vec<ChoiceNode>, a: usize) -> (r: Result<Vec<ChoiceNode>, InternalError>)
    ensures
        match r {
            Ok(out) => have_simplest(nodes_view(nodes@), a as int) && nodes_view(out@)
                == zeroed_from(nodes_view(nodes@), a as int),
            Err(_) => !have_simplest(nodes_view(nodes@), a as int),
        },
{
    let ghost t = nodes_view(nodes@);
    let mut out: Vec<ChoiceNode> = Vec::new();
    let mut x: usize = 0;
    while x < nodes.len()
        invariant
            x <= nodes@.len(),
            t == nodes_view(nodes@),
            out@.len() == x,
            forall|y: int| a <= y < x ==> simplest_of((#[trigger] t[y]).kind) is Some,
            forall|y: int| 0 <= y < x ==> (#[trigger] out@[y])@ == zeroed_from(t, a as int)[y],
        decreases nodes@.len() - x,
    {
        assert(t[x as int] == nodes@[x as int]@);
        if x < a {
            out.push(nodes[x].clone());
        } else {
            match nodes[x].with_simplest() {
                Ok(n) => {
                    out.push(n);
                },
                Err(e) => {
                    return Err(e);
                },
            }
        }
        x = x + 1;
    }
    assert(nodes_view(out@) =~= zeroed_from(t, a as int));
    Ok(out)
}

fn holds_value(values: &Vec<ChoiceValue>, v: &ChoiceValue) -> (r: bool)
    ensures
        r == values_view(values@).contains(v@),
{
    let mut k: usize = 0;
    while k < values.len()
        invariant
            k <= values@.len(),
            forall|j: int| 0 <= j < k ==> values_view(values@)[j] != v@,
        decreases values@.len() - k,
    {
        assert(values_view(values@)[k as int] == values@[k as int]@);
        if values[k].same(v) {
            assert(values_view(values@).contains(v@));
            return true;
        }
        k = k + 1;
    }
    false
}

pub(crate) fn push_new(values: &mut Vec<ChoiceValue>, v: ChoiceValue)
    ensures
        values_view(final(values)@) == if values_view(old(values)@).contains(v@) {
            values_view(old(values)@)
        } else {
            values_view(old(values)@).push(v@)
        },
        extends(values_view(old(values)@), values_view(final(values)@)),
        values_view(final(values)@).contains(v@),
        forall|x: ValueView| #[trigger]
            values_view(final(values)@).contains(x) ==> values_view(old(values)@).contains(x) || x
                == v@,
{
    let ghost before = values_view(values@);
    if !holds_value(values, &v) {
        let ghost view = v@;
        values.push(v);
        proof {
            assert(values_view(values@) =~= before.push(view));
            assert(values_view(values@)[before.len() as int] == view);
            assert forall|x: ValueView| #[trigger]
                values_view(values@).contains(x) implies before.contains(x) || x == view by {
                let k = choose|k: int| 0 <= k < values@.len() && values_view(values@)[k] == x;
                if k < before.len() {
                    assert(before[k] == x);
                }
            }
        }
    }
}

/// The values that a choice is lowered to.
fn lowerings(data: &ChoiceData, current: &BigUint) -> (r: Vec<ChoiceValue>)
    requires
        index_of(kind_view(*data), data_value(*data)) == Some(current@),
        current@ > 0,
    ensures
        values_view(r@) == lowering_values(kind_view(*data), current@),
        forall|v: ValueView| #[trigger]
            values_view(r@).contains(v) <==> is_lowering(kind_view(*data), current@, v),
{
    let mut out: Vec<ChoiceValue> = Vec::new();
    let one = BigUint::from_u128(1);
    let ghost k = kind_view(*data);
    proof {
        lemma_index_round_trip(k, data_value(*data), 0);
        assert(values_view(out@).len() == 0);
    }
    if let Some(v) = data.from_index(&BigUint::zero()) {
        if current.compare(&one) == Comparison::Greater {
            push_new(&mut out, v);
        }
    }
    let ghost middle = values_view(out@);
    proof {
        assert(middle =~= match value_at(k, 0) {
            Some(v) => if current@ > 1 {
                seq![v]
            } else {
                Seq::empty()
            },
            None => Seq::empty(),
        });
    }
    if let Some(v) = data.from_index(&current.minus(&one)) {
        push_new(&mut out, v);
    }
    proof {
        assert forall|v: ValueView| is_lowering(k, current@, v) implies #[trigger] values_view(
            out@,
        ).contains(v) by {
            if middle.contains(v) {
                let x = choose|x: int| 0 <= x < middle.len() && middle[x] == v;
                assert(values_view(out@)[x] == v);
            }
        }
    }
    out
}

/// The values that a choice with index `c` is lowered to, in this order.
pub open spec fn lowering_values(k: KindView, c: nat) -> Seq<ValueView> {
    let first = match value_at(k, 0) {
        Some(v) => if c > 1 {
            seq![v]
        } else {
            Seq::empty()
        },
        None => Seq::empty(),
    };
    match value_at(k, (c - 1) as nat) {
        Some(v) => if first.contains(v) {
            first
        } else {
            first.push(v)
        },
        None => first,
    }
}

impl<P: ShrinkProbe> Shrinker<P> {
    /// Whether `v` at `i` was tried together with the value of index `n` at `j`,
    /// where the choice there has such a value.
    pub open spec fn bumped(
        a: Self,
        b: Self,
        i: usize,
        v: ValueView,
        j: usize,
        k: KindView,
        n: nat,
        ok: bool,
    ) -> bool {
        match value_at(k, n) {
            Some(w) => b.replaced(a, pair_reps(i, v, j, w), Ok(ok)),
            None => !ok && b == a,
        }
    }

    /// Whether an index was tried at `j`, and another one where that was refused.
    pub open spec fn bumped_either(
        a: Self,
        b: Self,
        i: usize,
        v: ValueView,
        j: usize,
        k: KindView,
        n: nat,
        m: nat,
        ok: bool,
    ) -> bool {
        ok && Self::bumped(a, b, i, v, j, k, n, true) || exists|mid: Self| #[trigger]
            Self::bumped(a, mid, i, v, j, k, n, false) && Self::bumped(
                mid,
                b,
                i,
                v,
                j,
                k,
                m,
                ok,
            )
    }

    /// Whether the indices one, two and four above `c` were tried at `j` until
    /// one was taken.
    pub open spec fn bumped_relative(
        a: Self,
        b: Self,
        i: usize,
        v: ValueView,
        j: usize,
        k: KindView,
        c: nat,
        ok: bool,
    ) -> bool {
        ok && Self::bumped(a, b, i, v, j, k, c + 1, true) || exists|mid: Self| #[trigger]
            Self::bumped(a, mid, i, v, j, k, c + 1, false) && Self::bumped_either(
                mid,
                b,
                i,
                v,
                j,
                k,
                c + 2,
                c + 4,
                ok,
            )
    }

    /// Whether the index before `p` and then `p` were tried at `j`.
    pub open spec fn bumped_around(
        a: Self,
        b: Self,
        i: usize,
        v: ValueView,
        j: usize,
        k: KindView,
        p: nat,
    ) -> bool {
        exists|mid: Self, first: bool, second: bool|
            #![trigger Self::bumped(a, mid, i, v, j, k, (p - 1) as nat, first), Self::bumped(
                mid,
                b,
                i,
                v,
                j,
                k,
                p,
                second,
            )]
            Self::bumped(a, mid, i, v, j, k, (p - 1) as nat, first) && Self::bumped(
                mid,
                b,
                i,
                v,
                j,
                k,
                p,
                second,
            )
    }

    /// Whether the powers of two from the `e`th to the eighth that are at most
    /// `m`, each with its predecessor, were tried as the index at `j`.
    pub open spec fn bumped_absolute(
        a: Self,
        b: Self,
        i: usize,
        v: ValueView,
        j: usize,
        k: KindView,
        m: nat,
        e: nat,
    ) -> bool
        decreases 8 - e,
    {
        if e >= 8 || pow2(e) > m {
            b == a
        } else {
            exists|mid: Self| #[trigger]
                Self::bumped_around(a, mid, i, v, j, k, pow2(e)) && Self::bumped_absolute(
                    mid,
                    b,
                    i,
                    v,
                    j,
                    k,
                    m,
                    e + 1,
                )
        }
    }

    /// Whether `v` at `i` was tried together with other indices at `j`: those a
    /// little above its own, and where none was taken the powers of two.
    pub open spec fn bumped_with(
        a: Self,
        b: Self,
        i: usize,
        v: ValueView,
        j: usize,
        k: KindView,
        c: nat,
        m: nat,
    ) -> bool {
        Self::bumped_relative(a, b, i, v, j, k, c, true) || exists|mid: Self| #[trigger]
            Self::bumped_relative(a, mid, i, v, j, k, c, false) && Self::bumped_absolute(
                mid,
                b,
                i,
                v,
                j,
                k,
                m,
                0,
            )
    }

    /// Whether `v` at `i` was tried together with other values at `j`, where the
    /// choice there has an index.
    pub open spec fn bumps_made(a: Self, b: Self, i: usize, v: ValueView, j: usize) -> bool {
        let k = a.target()[j as int].kind;
        match index_at(a.target(), j as int) {
            Some(c) => match max_index_of(k) {
                Some(m) => Self::bumped_with(a, b, i, v, j, k, c, m),
                None => b == a,
            },
            None => b == a,
        }
    }

    /// Whether `v` was tried at `i`, and then the same with all that follows made
    /// simplest.
    pub open spec fn lowered_alone(a: Self, b: Self, i: usize, v: ValueView) -> bool {
        let t = a.target();
        if i < t.len() && value_fits(t[i as int].kind, v) {
            Self::both_considered(
                a,
                b,
                with_value_at(t, i as int, v),
                zeroed_from(with_value_at(t, i as int, v), i + 1),
            )
        } else {
            b == a
        }
    }

    /// Whether one candidate was considered and then another.
    pub open spec fn both_considered(
        a: Self,
        b: Self,
        first: Seq<NodeView>,
        second: Seq<NodeView>,
    ) -> bool {
        exists|mid: Self| #[trigger]
            Self::considered_once(a, mid, first) && Self::considered_once(mid, b, second)
    }

    /// Whether the choice at `i` was lowered to `v`: alone where `gap` is one, and
    /// together with raising the choice `gap` places later.
    pub open spec fn lowered_to(a: Self, b: Self, i: usize, v: ValueView, gap: int) -> bool {
        if gap == 1 {
            exists|mid: Self| #[trigger]
                Self::lowered_alone(a, mid, i, v) && Self::bumps_made(
                    mid,
                    b,
                    i,
                    v,
                    (i + gap) as usize,
                )
        } else {
            Self::bumps_made(a, b, i, v, (i + gap) as usize)
        }
    }

    /// How a choice is lowered to one value after the other.
    pub open spec fn value_step(i: usize, gap: int, values: Seq<ValueView>) -> spec_fn(
        Self,
        Self,
        int,
    ) -> bool {
        |a: Self, b: Self, t: int| Self::lowered_to(a, b, i, values[t], gap)
    }

    /// Whether all lowerings of the choice at `i` were tried, where it has an
    /// index above zero and there is a choice `gap` places later.
    pub open spec fn lowered_all(a: Self, b: Self, i: usize, gap: int) -> bool {
        match index_at(a.target(), i as int) {
            Some(c) => if c > 0 && i + gap < a.target().len() {
                Self::lowered_through(a, b, i, gap, lowering_values(a.target()[i as int].kind, c))
            } else {
                b == a
            },
            None => b == a,
        }
    }

    /// Whether the choice at `i` was lowered to all values of a list.
    pub open spec fn lowered_through(
        a: Self,
        b: Self,
        i: usize,
        gap: int,
        values: Seq<ValueView>,
    ) -> bool {
        Self::walked(a, b, values.len() as int, Self::value_step(i, gap, values))
    }

    /// How a pass lowers the choices and raises those `gap` places later.
    pub open spec fn bump_step(gap: int) -> spec_fn(Self, Self, int) -> bool {
        |a: Self, b: Self, t: int|
            t < a.target().len() && Self::lowered_all(a, b, t as usize, gap)
    }

    /// How a pass raises the next choices, then those two places later, and so
    /// on.
    pub open spec fn bump_gaps_step() -> spec_fn(Self, Self, int) -> bool {
        |a: Self, b: Self, t: int| Self::walked_through(a, b, Self::bump_step(t + 1))
    }

    /// Whether `v` at `i` was offered together with the value of index `n` at `j`,
    /// which ended something as `halt` says.
    pub open spec fn bump_cut(
        a: Self,
        b: Self,
        i: usize,
        v: ValueView,
        j: usize,
        k: KindView,
        n: nat,
        halt: ShrinkHalt,
    ) -> bool {
        value_at(k, n) matches Some(w) && b.replaced(a, pair_reps(i, v, j, w), Err(halt))
    }

    /// Whether an index was tried at `j`, and another one where that was refused,
    /// until one of them ended that as `halt` says.
    pub open spec fn either_cut(
        a: Self,
        b: Self,
        i: usize,
        v: ValueView,
        j: usize,
        k: KindView,
        n: nat,
        m: nat,
        halt: ShrinkHalt,
    ) -> bool {
        Self::bump_cut(a, b, i, v, j, k, n, halt) || exists|mid: Self| #[trigger]
            Self::bumped(a, mid, i, v, j, k, n, false) && Self::bump_cut(
                mid,
                b,
                i,
                v,
                j,
                k,
                m,
                halt,
            )
    }

    /// Whether the indices one, two and four above `c` were tried at `j` until one
    /// ended that as `halt` says.
    pub open spec fn relative_cut(
        a: Self,
        b: Self,
        i: usize,
        v: ValueView,
        j: usize,
        k: KindView,
        c: nat,
        halt: ShrinkHalt,
    ) -> bool {
        Self::bump_cut(a, b, i, v, j, k, c + 1, halt) || exists|mid: Self| #[trigger]
            Self::bumped(a, mid, i, v, j, k, c + 1, false) && Self::either_cut(
                mid,
                b,
                i,
                v,
                j,
                k,
                c + 2,
                c + 4,
                halt,
            )
    }

    /// Whether the index before `p` and then `p` were tried at `j` until one ended
    /// that as `halt` says.
    pub open spec fn around_cut(
        a: Self,
        b: Self,
        i: usize,
        v: ValueView,
        j: usize,
        k: KindView,
        p: nat,
        halt: ShrinkHalt,
    ) -> bool {
        Self::bump_cut(a, b, i, v, j, k, (p - 1) as nat, halt) || exists|mid: Self, first: bool|
            #[trigger]
            Self::bumped(a, mid, i, v, j, k, (p - 1) as nat, first) && Self::bump_cut(
                mid,
                b,
                i,
                v,
                j,
                k,
                p,
                halt,
            )
    }

    /// Whether powers of two, each with its predecessor, were tried as the index at
    /// `j` until one ended that as `halt` says.
    pub open spec fn absolute_cut(
        a: Self,
        b: Self,
        i: usize,
        v: ValueView,
        j: usize,
        k: KindView,
        m: nat,
        e: nat,
        halt: ShrinkHalt,
    ) -> bool
        decreases 8 - e,
    {
        if e >= 8 || pow2(e) > m {
            false
        } else {
            Self::around_cut(a, b, i, v, j, k, pow2(e), halt) || exists|mid: Self| #[trigger]
                Self::bumped_around(a, mid, i, v, j, k, pow2(e)) && Self::absolute_cut(
                    mid,
                    b,
                    i,
                    v,
                    j,
                    k,
                    m,
                    e + 1,
                    halt,
                )
        }
    }

    /// Whether `v` at `i` was tried together with other indices at `j` until one
    /// ended that as `halt` says.
    pub open spec fn bumps_with_cut(
        a: Self,
        b: Self,
        i: usize,
        v: ValueView,
        j: usize,
        k: KindView,
        c: nat,
        m: nat,
        halt: ShrinkHalt,
    ) -> bool {
        Self::relative_cut(a, b, i, v, j, k, c, halt) || exists|mid: Self| #[trigger]
            Self::bumped_relative(a, mid, i, v, j, k, c, false) && Self::absolute_cut(
                mid,
                b,
                i,
                v,
                j,
                k,
                m,
                0,
                halt,
            )
    }

    /// Whether `v` at `i` was tried together with other values at `j` until one
    /// ended that as `halt` says.
    pub open spec fn bumps_cut(
        a: Self,
        b: Self,
        i: usize,
        v: ValueView,
        j: usize,
        halt: ShrinkHalt,
    ) -> bool {
        let k = a.target()[j as int].kind;
        match (index_at(a.target(), j as int), max_index_of(k)) {
            (Some(c), Some(m)) => Self::bumps_with_cut(a, b, i, v, j, k, c, m, halt),
            _ => false,
        }
    }

    /// Whether one candidate was considered and then another until one ended that
    /// as `halt` says, or the second could not be made.
    pub open spec fn both_cut(
        a: Self,
        b: Self,
        first: Seq<NodeView>,
        second: Seq<NodeView>,
        halt: ShrinkHalt,
    ) -> bool {
        b.considered(a, first, Err(halt)) || exists|mid: Self| #[trigger]
            Self::considered_once(a, mid, first) && (b.considered(mid, second, Err(halt)) || b
                == mid && Self::halted_in(a, b, halt))
    }

    /// Whether `v` was tried at `i`, and then the same with all that follows made
    /// simplest, until one ended that as `halt` says.
    pub open spec fn alone_cut(
        a: Self,
        b: Self,
        i: usize,
        v: ValueView,
        halt: ShrinkHalt,
    ) -> bool {
        let t = a.target();
        i < t.len() && value_fits(t[i as int].kind, v) && Self::both_cut(
            a,
            b,
            with_value_at(t, i as int, v),
            zeroed_from(with_value_at(t, i as int, v), i + 1),
            halt,
        )
    }

    /// Whether the choice at `i` was lowered to `v` until that ended as `halt` says.
    pub open spec fn lower_to_cut(
        a: Self,
        b: Self,
        i: usize,
        v: ValueView,
        gap: int,
        halt: ShrinkHalt,
    ) -> bool {
        if gap == 1 {
            Self::alone_cut(a, b, i, v, halt) || exists|mid: Self| #[trigger]
                Self::lowered_alone(a, mid, i, v) && Self::bumps_cut(
                    mid,
                    b,
                    i,
                    v,
                    (i + gap) as usize,
                    halt,
                )
        } else {
            Self::bumps_cut(a, b, i, v, (i + gap) as usize, halt)
        }
    }

    /// How lowering a choice ends at a value.
    pub open spec fn value_part(
        i: usize,
        gap: int,
        values: Seq<ValueView>,
        halt: ShrinkHalt,
    ) -> spec_fn(Self, Self, int) -> bool {
        |a: Self, b: Self, t: int| Self::lower_to_cut(a, b, i, values[t], gap, halt)
    }

    /// Whether the choice at `i` was lowered to values of a list until that ended as
    /// `halt` says.
    pub open spec fn lowering_through_cut(
        a: Self,
        b: Self,
        i: usize,
        gap: int,
        values: Seq<ValueView>,
        halt: ShrinkHalt,
    ) -> bool {
        Self::walk_cut(
            a,
            b,
            values.len() as int,
            Self::value_step(i, gap, values),
            Self::value_part(i, gap, values, halt),
        )
    }

    /// Whether lowerings of the choice at `i` were tried until that ended as `halt`
    /// says.
    pub open spec fn lower_all_cut(
        a: Self,
        b: Self,
        i: usize,
        gap: int,
        halt: ShrinkHalt,
    ) -> bool {
        index_at(a.target(), i as int) matches Some(c) && c > 0 && i + gap < a.target().len()
            && Self::lowering_through_cut(
            a,
            b,
            i,
            gap,
            lowering_values(a.target()[i as int].kind, c),
            halt,
        )
    }

    /// How a pass that raises the choices `gap` places later ends at a choice.
    pub open spec fn bump_part(gap: int, halt: ShrinkHalt) -> spec_fn(Self, Self, int) -> bool {
        |a: Self, b: Self, t: int| Self::lower_all_cut(a, b, t as usize, gap, halt)
    }

    /// How a pass ends that raises the next choices, then those two places later, and
    /// so on.
    pub open spec fn bump_gaps_part(halt: ShrinkHalt) -> spec_fn(Self, Self, int) -> bool {
        |a: Self, b: Self, t: int|
            Self::walk_through_cut(
                a,
                b,
                Self::bump_step(t + 1),
                Self::bump_part(t + 1, halt),
            )
    }

    /// Offers the target with `new_val` at position `i` and `bump_val` at
    /// position `j`.
    pub fn try_bump_ij(
        &mut self,
        i: usize,
        new_val: &ChoiceValue,
        j: usize,
        bump_val: &ChoiceValue,
    ) -> (r: Result<bool, ShrinkHalt>)
        requires
            old(self).wf(),
        ensures
            final(self).answered(*old(self), pair_reps(i, new_val@, j, bump_val@), r),
    {
        let mut values: Vec<(usize, ChoiceValue)> = Vec::new();
        values.push((i, new_val.clone()));
        values.push((j, bump_val.clone()));
        assert(reps_view(values@) =~= pair_reps(i, new_val@, j, bump_val@));
        self.replace(&values)
    }

    /// Tries `new_val` at `i` together with the value of index `k` at `j`.
    fn try_bump(
        &mut self,
        i: usize,
        new_val: &ChoiceValue,
        j: usize,
        data_j: &ChoiceData,
        k: &BigUint,
    ) -> (r: Result<bool, ShrinkHalt>)
        requires
            old(self).wf(),
        ensures
            final(self).follows(*old(self)),
            final(self).ends(*old(self), r.err()),
            r matches Ok(ok) ==> Self::bumped(
                *old(self),
                *final(self),
                i,
                new_val@,
                j,
                kind_view(*data_j),
                k@,
                ok,
            ),
            r matches Err(halt) ==> Self::bump_cut(
                *old(self),
                *final(self),
                i,
                new_val@,
                j,
                kind_view(*data_j),
                k@,
                halt,
            ),
            r != Ok::<bool, ShrinkHalt>(true) ==> final(self).improvements
                == old(self).improvements,
            r is Ok && final(self).improvements == old(self).improvements && j
                < old(self).target().len() && kind_view(*data_j) == old(self).target()[j as int].kind ==> {
                &&& bump_tried(
                    final(self).history@,
                    old(self).history@.len(),
                    old(self).target(),
                    i,
                    new_val@,
                    j,
                    k@,
                )
                &&& r == Ok::<bool, ShrinkHalt>(true) ==> bump_same(
                    old(self).target(),
                    i,
                    new_val@,
                    j,
                    k@,
                )
            },
    {
        match data_j.from_index(k) {
            Some(w) => self.try_bump_ij(i, new_val, j, &w),
            None => Ok(false),
        }
    }

    /// Tries `new_val` at `i` together with the indices a little above `c` at
    /// `j`; the answer is whether one was taken.
    fn try_relative_bumps(
        &mut self,
        i: usize,
        new_val: &ChoiceValue,
        j: usize,
        data_j: &ChoiceData,
        c: &BigUint,
    ) -> (r: Result<bool, ShrinkHalt>)
        requires
            old(self).wf(),
        ensures
            final(self).follows(*old(self)),
            final(self).ends(*old(self), r.err()),
            r matches Ok(ok) ==> Self::bumped_relative(
                *old(self),
                *final(self),
                i,
                new_val@,
                j,
                kind_view(*data_j),
                c@,
                ok,
            ),
            r matches Err(halt) ==> Self::relative_cut(
                *old(self),
                *final(self),
                i,
                new_val@,
                j,
                kind_view(*data_j),
                c@,
                halt,
            ),
            r is Ok && final(self).improvements == old(self).improvements && j
                < old(self).target().len() && kind_view(*data_j) == old(self).target()[j as int].kind ==> {
                &&& relative_bumps_tried(
                    final(self).history@,
                    old(self).history@.len(),
                    old(self).target(),
                    i,
                    new_val@,
                    j,
                    c@,
                )
                &&& r == Ok::<bool, ShrinkHalt>(true) ==> some_bump_same(
                    old(self).target(),
                    i,
                    new_val@,
                    j,
                    c@,
                )
            },
    {
        let ghost start = *self;
        let ghost t = self.target();
        let ghost from = self.history@.len();
        let ghost known = j < t.len() && kind_view(*data_j) == t[j as int].kind;
        let k1 = c.plus(&BigUint::from_u128(1));
        match self.try_bump(i, new_val, j, data_j, &k1) {
            Ok(true) => {
                return Ok(true);
            },
            Ok(false) => {},
            Err(halt) => {
                return Err(halt);
            },
        }
        let ghost s1 = *self;
        let ghost kj = kind_view(*data_j);
        assert(Self::bumped(start, s1, i, new_val@, j, kj, c@ + 1, false));
        let k2 = c.plus(&BigUint::from_u128(2));
        let second = self.try_bump(i, new_val, j, data_j, &k2);
        proof {
            Self::lemma_follows_transitive(start, s1, *self);
            if self.improvements == start.improvements && known {
                lemma_bump_stays(s1.history@, self.history@, from, from, t, i, new_val@, j, c@ + 1);
                if second is Ok {
                    lemma_bump_stays(
                        self.history@,
                        self.history@,
                        s1.history@.len(),
                        from,
                        t,
                        i,
                        new_val@,
                        j,
                        c@ + 2,
                    );
                }
            }
        }
        match second {
            Ok(true) => {
                assert(Self::bumped_either(
                    s1,
                    *self,
                    i,
                    new_val@,
                    j,
                    kj,
                    c@ + 2,
                    c@ + 4,
                    true,
                ));
                return Ok(true);
            },
            Ok(false) => {},
            Err(halt) => {
                assert(Self::either_cut(
                    s1,
                    *self,
                    i,
                    new_val@,
                    j,
                    kj,
                    c@ + 2,
                    c@ + 4,
                    halt,
                ));
                return Err(halt);
            },
        }
        let ghost s2 = *self;
        assert(Self::bumped(s1, s2, i, new_val@, j, kj, c@ + 2, false));
        let k4 = c.plus(&BigUint::from_u128(4));
        let third = self.try_bump(i, new_val, j, data_j, &k4);
        proof {
            Self::lemma_follows_transitive(start, s2, *self);
            if self.improvements == start.improvements && known && third is Ok {
                lemma_bump_stays(s2.history@, self.history@, from, from, t, i, new_val@, j, c@ + 1);
                lemma_bump_stays(s2.history@, self.history@, from, from, t, i, new_val@, j, c@ + 2);
                lemma_bump_stays(
                    self.history@,
                    self.history@,
                    s2.history@.len(),
                    from,
                    t,
                    i,
                    new_val@,
                    j,
                    c@ + 4,
                );
            }
        }
        proof {
            if third is Err {
                assert(Self::either_cut(
                    s1,
                    *self,
                    i,
                    new_val@,
                    j,
                    kj,
                    c@ + 2,
                    c@ + 4,
                    third->Err_0,
                ));
            }
            if let Ok(ok) = third {
                assert(Self::bumped_either(
                    s1,
                    *self,
                    i,
                    new_val@,
                    j,
                    kj,
                    c@ + 2,
                    c@ + 4,
                    ok,
                ));
            }
        }
        third
    }

    /// Tries `new_val` at `i` together with small powers of two and their
    /// predecessors as the index at `j`.
    fn try_absolute_bumps(
        &mut self,
        i: usize,
        new_val: &ChoiceValue,
        j: usize,
        data_j: &ChoiceData,
        m: &BigUint,
    ) -> (r: Result<(), ShrinkHalt>)
        requires
            old(self).wf(),
        ensures
            final(self).follows(*old(self)),
            final(self).ends(*old(self), r.err()),
            r is Ok ==> Self::bumped_absolute(
                *old(self),
                *final(self),
                i,
                new_val@,
                j,
                kind_view(*data_j),
                m@,
                0,
            ),
            r matches Err(halt) ==> Self::absolute_cut(
                *old(self),
                *final(self),
                i,
                new_val@,
                j,
                kind_view(*data_j),
                m@,
                0,
                halt,
            ),
            r is Ok && final(self).improvements == old(self).improvements && j
                < old(self).target().len() && kind_view(*data_j) == old(self).target()[j as int].kind ==> absolute_bumps_tried(
                final(self).history@,
                old(self).history@.len(),
                old(self).target(),
                i,
                new_val@,
                j,
                m@,
            ),
    {
        let ghost start = *self;
        let ghost t = self.target();
        let ghost from = self.history@.len();
        let ghost known = j < t.len() && kind_view(*data_j) == t[j as int].kind;
        let ghost kj = kind_view(*data_j);
        let one = BigUint::from_u128(1);
        let mut p = BigUint::from_u128(1);
        let mut e: u32 = 0;
        proof {
            lemma2_to64();
        }
        while e < 8
            invariant
                start == *old(self),
                self.follows(start),
                self.goes_on(start),
                t == start.target(),
                from == start.history@.len(),
                known == (j < t.len() && kind_view(*data_j) == t[j as int].kind),
                one@ == 1,
                kj == kind_view(*data_j),
                forall|b: Self| #[trigger]
                    Self::bumped_absolute(
                        *self,
                        b,
                        i,
                        new_val@,
                        j,
                        kj,
                        m@,
                        e as nat,
                    ) ==> Self::bumped_absolute(start, b, i, new_val@, j, kj, m@, 0),
                forall|b: Self, halt: ShrinkHalt| #[trigger]
                    Self::absolute_cut(
                        *self,
                        b,
                        i,
                        new_val@,
                        j,
                        kj,
                        m@,
                        e as nat,
                        halt,
                    ) ==> Self::absolute_cut(start, b, i, new_val@, j, kj, m@, 0, halt),
                e <= 8,
                p@ == pow2(e as nat),
                p@ >= 1,
                self.improvements == start.improvements && known ==> forall|x: nat|
                    x < e && (#[trigger] pow2(x)) <= m@ ==> bump_tried(
                        self.history@,
                        from,
                        t,
                        i,
                        new_val@,
                        j,
                        (pow2(x) - 1) as nat,
                    ) && bump_tried(self.history@, from, t, i, new_val@, j, pow2(x)),
            decreases 8 - e,
        {
            if p.compare(m) == Comparison::Greater {
                proof {
                    assert(Self::bumped_absolute(
                        *self,
                        *self,
                        i,
                        new_val@,
                        j,
                        kj,
                        m@,
                        e as nat,
                    ));
                    assert forall|x: nat| x < 8 && (#[trigger] pow2(x)) <= m@ implies x < e by {
                        if x >= e {
                            lemma_pow2_grows(e as nat, x);
                        }
                    }
                }
                return Ok(());
            }
            let ghost before = *self;
            let first = self.try_bump(i, new_val, j, data_j, &p.minus(&one));
            proof {
                Self::lemma_follows_transitive(start, before, *self);
            }
            let taken1 = match first {
                Ok(ok) => ok,
                Err(halt) => {
                    assert(Self::absolute_cut(
                        before,
                        *self,
                        i,
                        new_val@,
                        j,
                        kj,
                        m@,
                        e as nat,
                        halt,
                    ));
                    return Err(halt);
                },
            };
            let ghost middle = *self;
            assert(Self::bumped(
                before,
                middle,
                i,
                new_val@,
                j,
                kj,
                (pow2(e as nat) - 1) as nat,
                taken1,
            ));
            let second = self.try_bump(i, new_val, j, data_j, &p);
            proof {
                Self::lemma_follows_transitive(start, middle, *self);
                Self::lemma_follows_transitive(before, middle, *self);
            }
            let taken2 = match second {
                Ok(ok) => ok,
                Err(halt) => {
                    assert(Self::around_cut(
                        before,
                        *self,
                        i,
                        new_val@,
                        j,
                        kj,
                        pow2(e as nat),
                        halt,
                    ));
                    assert(Self::absolute_cut(
                        before,
                        *self,
                        i,
                        new_val@,
                        j,
                        kj,
                        m@,
                        e as nat,
                        halt,
                    ));
                    return Err(halt);
                },
            };
            proof {
                assert(Self::bumped(middle, *self, i, new_val@, j, kj, pow2(e as nat), taken2));
                assert(Self::bumped_around(before, *self, i, new_val@, j, kj, pow2(e as nat)));
                assert forall|b: Self, halt: ShrinkHalt| #[trigger]
                    Self::absolute_cut(
                        *self,
                        b,
                        i,
                        new_val@,
                        j,
                        kj,
                        m@,
                        (e + 1) as nat,
                        halt,
                    ) implies Self::absolute_cut(start, b, i, new_val@, j, kj, m@, 0, halt) by {
                    assert(Self::absolute_cut(
                        before,
                        b,
                        i,
                        new_val@,
                        j,
                        kj,
                        m@,
                        e as nat,
                        halt,
                    ));
                }
                assert forall|b: Self| #[trigger]
                    Self::bumped_absolute(
                        *self,
                        b,
                        i,
                        new_val@,
                        j,
                        kj,
                        m@,
                        (e + 1) as nat,
                    ) implies Self::bumped_absolute(start, b, i, new_val@, j, kj, m@, 0) by {
                    assert(Self::bumped_absolute(
                        before,
                        b,
                        i,
                        new_val@,
                        j,
                        kj,
                        m@,
                        e as nat,
                    ));
                }
                if self.improvements == start.improvements && known {
                    let h = self.history@;
                    assert forall|x: nat| x < e + 1 && (#[trigger] pow2(x)) <= m@ implies bump_tried(
                        h,
                        from,
                        t,
                        i,
                        new_val@,
                        j,
                        (pow2(x) - 1) as nat,
                    ) && bump_tried(h, from, t, i, new_val@, j, pow2(x)) by {
                        let low = (pow2(x) - 1) as nat;
                        if x == e {
                            let f = before.history@.len();
                            let g = middle.history@.len();
                            lemma_bump_stays(middle.history@, h, f, from, t, i, new_val@, j, low);
                            lemma_bump_stays(h, h, g, from, t, i, new_val@, j, pow2(x));
                        } else {
                            let o = before.history@;
                            lemma_bump_stays(o, h, from, from, t, i, new_val@, j, low);
                            lemma_bump_stays(o, h, from, from, t, i, new_val@, j, pow2(x));
                        }
                    }
                }
                lemma_pow2_unfold((e + 1) as nat);
            }
            p = p.plus(&p);
            e = e + 1;
        }
        assert(Self::bumped_absolute(*self, *self, i, new_val@, j, kj, m@, 8));
        Ok(())
    }

    /// Tries `new_val` at `i` together with other values at `j`.
    fn try_bumps(&mut self, i: usize, new_val: &ChoiceValue, j: usize) -> (r: Result<
        (),
        ShrinkHalt,
    >)
        requires
            old(self).wf(),
        ensures
            final(self).follows(*old(self)),
            final(self).ends(*old(self), r.err()),
            r is Ok ==> Self::bumps_made(*old(self), *final(self), i, new_val@, j),
            r matches Err(halt) ==> Self::bumps_cut(*old(self), *final(self), i, new_val@, j, halt),
            r is Ok && final(self).improvements == old(self).improvements ==> bumps_tried(
                final(self).history@,
                old(self).history@.len(),
                old(self).target(),
                i,
                new_val@,
                j,
            ),
    {
        let ghost start = *self;
        let ghost t = self.target();
        let ghost from = self.history@.len();
        if j >= self.current_nodes.len() || is_sequence(&self.current_nodes[j].data) {
            proof {
                if j < t.len() {
                    assert(t[j as int] == self.current_nodes@[j as int]@);
                }
            }
            return Ok(());
        }
        assert(t[j as int] == self.current_nodes@[j as int]@);
        let data_j = self.current_nodes[j].data.clone();
        let c = match self.current_nodes[j].data.to_index() {
            Some(c) => c,
            None => {
                return Ok(());
            },
        };
        let m = match data_j.max_index() {
            Some(m) => m,
            None => {
                return Ok(());
            },
        };
        let taken = match self.try_relative_bumps(i, new_val, j, &data_j, &c) {
            Ok(b) => b,
            Err(halt) => {
                return Err(halt);
            },
        };
        if taken {
            return Ok(());
        }
        let ghost s1 = *self;
        let ghost kj = t[j as int].kind;
        assert(Self::bumped_relative(start, s1, i, new_val@, j, kj, c@, false));
        let outcome = self.try_absolute_bumps(i, new_val, j, &data_j, &m);
        proof {
            Self::lemma_follows_transitive(start, s1, *self);
            if outcome is Err {
                assert(Self::bumps_with_cut(
                    start,
                    *self,
                    i,
                    new_val@,
                    j,
                    kj,
                    c@,
                    m@,
                    outcome->Err_0,
                ));
            }
            if outcome is Ok {
                assert(Self::bumped_with(start, *self, i, new_val@, j, kj, c@, m@));
            }
            if outcome is Ok && self.improvements == start.improvements {
                let h = self.history@;
                let f = s1.history@.len();
                lemma_bump_stays(s1.history@, h, from, from, t, i, new_val@, j, c@ + 1);
                if bump_tried(s1.history@, from, t, i, new_val@, j, c@ + 2) {
                    lemma_bump_stays(s1.history@, h, from, from, t, i, new_val@, j, c@ + 2);
                }
                if bump_tried(s1.history@, from, t, i, new_val@, j, c@ + 4) {
                    lemma_bump_stays(s1.history@, h, from, from, t, i, new_val@, j, c@ + 4);
                }
                assert forall|x: nat| x < 8 && (#[trigger] pow2(x)) <= m@ implies bump_tried(
                    h,
                    from,
                    t,
                    i,
                    new_val@,
                    j,
                    (pow2(x) - 1) as nat,
                ) && bump_tried(h, from, t, i, new_val@, j, pow2(x)) by {
                    lemma_bump_stays(h, h, f, from, t, i, new_val@, j, (pow2(x) - 1) as nat);
                    lemma_bump_stays(h, h, f, from, t, i, new_val@, j, pow2(x));
                }
            }
        }
        outcome
    }
}

proof fn lemma_pow2_grows(a: nat, b: nat)
    requires
        a <= b,
    ensures
        pow2(a) <= pow2(b),
    decreases b - a,
{
    if a < b {
        lemma_pow2_grows(a, (b - 1) as nat);
        lemma_pow2_unfold(b);
    }
}

/// Whether lowering the choice at `i` to `v` was tried: alone, with all that
/// follows made simplest, and together with raising the choice `gap` places
/// later.
pub open spec fn lowering_tried(
    h: Seq<Offer>,
    from: nat,
    t: Seq<NodeView>,
    i: usize,
    v: ValueView,
    gap: int,
) -> bool {
    &&& gap == 1 ==> offered(h, from, t, with_value_at(t, i as int, v)) && offered(
        h,
        from,
        t,
        zeroed_from(with_value_at(t, i as int, v), i + 1),
    )
    &&& bumps_tried(h, from, t, i, v, (i + gap) as usize)
}

/// Whether all lowerings of the choice at `i` were tried.
pub open spec fn lowerings_tried(
    h: Seq<Offer>,
    from: nat,
    t: Seq<NodeView>,
    i: usize,
    gap: int,
) -> bool {
    index_at(t, i as int) matches Some(c) ==> i + gap < t.len() ==> forall|v: ValueView| #[trigger]
        is_lowering(t[i as int].kind, c, v) ==> lowering_tried(h, from, t, i, v, gap)
}

/// Whether all lowerings of all choices were tried.
pub open spec fn all_lowerings_tried(h: Seq<Offer>, from: nat, t: Seq<NodeView>) -> bool {
    forall|i: usize, gap: int|
        1 <= gap < 4 && gap < t.len() ==> #[trigger] lowerings_tried(h, from, t, i, gap)
}

pub(crate) proof fn lemma_all_lowerings_stay(
    h1: Seq<Offer>,
    h2: Seq<Offer>,
    from1: nat,
    from2: nat,
    t: Seq<NodeView>,
)
    requires
        extends(h1, h2),
        from2 <= from1,
        all_lowerings_tried(h1, from1, t),
    ensures
        all_lowerings_tried(h2, from2, t),
{
    assert forall|i: usize, gap: int| 1 <= gap < 4 && gap < t.len() implies #[trigger] lowerings_tried(
        h2,
        from2,
        t,
        i,
        gap,
    ) by {
        assert(lowerings_tried(h1, from1, t, i, gap));
        lemma_lowerings_stay(h1, h2, from1, from2, t, i, gap);
    }
}

proof fn lemma_lowering_stays(
    h1: Seq<Offer>,
    h2: Seq<Offer>,
    from1: nat,
    from2: nat,
    t: Seq<NodeView>,
    i: usize,
    v: ValueView,
    gap: int,
)
    requires
        extends(h1, h2),
        from2 <= from1,
        lowering_tried(h1, from1, t, i, v, gap),
    ensures
        lowering_tried(h2, from2, t, i, v, gap),
{
    if gap == 1 {
        lemma_offered_moves(h1, h2, from1, from2, t, with_value_at(t, i as int, v));
        lemma_offered_moves(
            h1,
            h2,
            from1,
            from2,
            t,
            zeroed_from(with_value_at(t, i as int, v), i + 1),
        );
    }
    lemma_bumps_stay(h1, h2, from1, from2, t, i, v, (i + gap) as usize);
}

pub(crate) proof fn lemma_offered_moves(
    h1: Seq<Offer>,
    h2: Seq<Offer>,
    from1: nat,
    from2: nat,
    t: Seq<NodeView>,
    c: Seq<NodeView>,
)
    requires
        extends(h1, h2),
        from2 <= from1,
        offered(h1, from1, t, c),
    ensures
        offered(h2, from2, t, c),
{
    let x = choose|x: int|
        from1 <= x < h1.len() && (#[trigger] h1[x]).target == t && h1[x].candidate == c;
    assert(h2[x] == h1[x]);
}

proof fn lemma_lowerings_stay(
    h1: Seq<Offer>,
    h2: Seq<Offer>,
    from1: nat,
    from2: nat,
    t: Seq<NodeView>,
    i: usize,
    gap: int,
)
    requires
        extends(h1, h2),
        from2 <= from1,
        lowerings_tried(h1, from1, t, i, gap),
    ensures
        lowerings_tried(h2, from2, t, i, gap),
{
    if let Some(c) = index_at(t, i as int) {
        if i + gap < t.len() {
            assert forall|v: ValueView| #[trigger]
                is_lowering(t[i as int].kind, c, v) implies lowering_tried(
                h2,
                from2,
                t,
                i,
                v,
                gap,
            ) by {
                lemma_lowering_stays(h1, h2, from1, from2, t, i, v, gap);
            }
        }
    }
}

impl<P: ShrinkProbe> Shrinker<P> {
    /// Offers the target with `v` at `i`, and the same with all that follows
    /// made simplest.
    fn offer_lowered(&mut self, i: usize, v: &ChoiceValue) -> (r: Result<(), ShrinkHalt>)
        requires
            old(self).wf(),
        ensures
            final(self).follows(*old(self)),
            final(self).ends(*old(self), r.err()),
            r is Ok ==> Self::lowered_alone(*old(self), *final(self), i, v@),
            r matches Err(halt) ==> Self::alone_cut(*old(self), *final(self), i, v@, halt),
            r is Ok && final(self).improvements == old(self).improvements && i
                < old(self).target().len() && value_fits(
                old(self).target()[i as int].kind,
                v@,
            ) ==> {
                let t = old(self).target();
                &&& offered(
                    final(self).history@,
                    old(self).history@.len(),
                    t,
                    with_value_at(t, i as int, v@),
                )
                &&& offered(
                    final(self).history@,
                    old(self).history@.len(),
                    t,
                    zeroed_from(with_value_at(t, i as int, v@), i + 1),
                )
            },
    {
        let ghost start = *self;
        let ghost t = self.target();
        let ghost from = self.history@.len();
        if i >= self.current_nodes.len() {
            return Ok(());
        }
        let mut attempt = copy_nodes(self.current_nodes.as_slice());
        assert(nodes_view(attempt@).len() == attempt@.len());
        assert(nodes_view(attempt@)[i as int] == attempt@[i as int]@);
        match attempt[i].with_value(v) {
            None => {
                return Ok(());
            },
            Some(lowered) => {
                attempt.set(i, lowered);
            },
        }
        assert(nodes_view(attempt@) =~= with_value_at(t, i as int, v@));
        match self.consider(attempt.as_slice()) {
            Ok(_) => {},
            Err(halt) => {
                return Err(halt);
            },
        }
        let ghost s1 = *self;
        assert(Self::considered_once(start, s1, with_value_at(t, i as int, v@)));
        assert(s1.history@[from as int].candidate == with_value_at(t, i as int, v@));
        let zeroed = match zero_from(&attempt, i + 1) {
            Ok(nodes) => nodes,
            Err(e) => {
                proof {
                    let x = choose|x: int|
                        i + 1 <= x < t.len() && simplest_of((#[trigger] t[x]).kind) is None;
                    assert(lacks_simplest(self.history@[from as int].target));
                }
                let halt = ShrinkHalt::internal(e);
                assert(Self::both_cut(
                    start,
                    *self,
                    with_value_at(t, i as int, v@),
                    zeroed_from(with_value_at(t, i as int, v@), i + 1),
                    halt,
                ));
                return Err(halt);
            },
        };
        let outcome = self.consider(zeroed.as_slice());
        proof {
            Self::lemma_follows_transitive(start, s1, *self);
            let last = self.history@[s1.history@.len() as int];
            assert(last.candidate == zeroed_from(with_value_at(t, i as int, v@), i + 1));
            assert(self.history@[from as int] == s1.history@[from as int]);
            if outcome is Ok {
                assert(Self::both_considered(
                    start,
                    *self,
                    with_value_at(t, i as int, v@),
                    zeroed_from(with_value_at(t, i as int, v@), i + 1),
                ));
            }
        }
        match outcome {
            Ok(_) => Ok(()),
            Err(halt) => Err(halt),
        }
    }

    /// Tries to lower the choice at `i` to `v`.
    fn lower_to(&mut self, i: usize, v: &ChoiceValue, gap: usize) -> (r: Result<(), ShrinkHalt>)
        requires
            old(self).wf(),
            1 <= gap,
            i + gap <= usize::MAX,
        ensures
            final(self).follows(*old(self)),
            final(self).ends(*old(self), r.err()),
            r is Ok ==> Self::lowered_to(*old(self), *final(self), i, v@, gap as int),
            r matches Err(halt) ==> Self::lower_to_cut(
                *old(self),
                *final(self),
                i,
                v@,
                gap as int,
                halt,
            ),
            r is Ok && final(self).improvements == old(self).improvements && i
                < old(self).target().len() && value_fits(
                old(self).target()[i as int].kind,
                v@,
            ) ==> lowering_tried(
                final(self).history@,
                old(self).history@.len(),
                old(self).target(),
                i,
                v@,
                gap as int,
            ),
    {
        let ghost start = *self;
        let ghost t = self.target();
        let ghost from = self.history@.len();
        if gap == 1 {
            match self.offer_lowered(i, v) {
                Ok(()) => {},
                Err(halt) => {
                    return Err(halt);
                },
            }
        }
        let ghost s1 = *self;
        assert(gap == 1 ==> Self::lowered_alone(start, s1, i, v@));
        let outcome = self.try_bumps(i, v, i + gap);
        proof {
            Self::lemma_follows_transitive(start, s1, *self);
            if outcome is Ok && self.improvements == start.improvements && i < t.len()
                && value_fits(t[i as int].kind, v@) {
                let h = self.history@;
                let f = s1.history@.len();
                lemma_bumps_stay(h, h, f, from, t, i, v@, (i + gap) as usize);
                if gap == 1 {
                    lemma_offered_stays(
                        s1.history@,
                        h,
                        from,
                        t,
                        with_value_at(t, i as int, v@),
                    );
                    lemma_offered_stays(
                        s1.history@,
                        h,
                        from,
                        t,
                        zeroed_from(with_value_at(t, i as int, v@), i + 1),
                    );
                }
            }
        }
        outcome
    }

    /// Tries all lowerings of the choice at `i`.
    fn lower_and_bump_at(&mut self, i: usize, gap: usize) -> (r: Result<(), ShrinkHalt>)
        requires
            old(self).wf(),
            1 <= gap,
        ensures
            final(self).follows(*old(self)),
            final(self).ends(*old(self), r.err()),
            r is Ok ==> Self::lowered_all(*old(self), *final(self), i, gap as int),
            r matches Err(halt) ==> Self::lower_all_cut(
                *old(self),
                *final(self),
                i,
                gap as int,
                halt,
            ),
            r is Ok && final(self).improvements == old(self).improvements ==> lowerings_tried(
                final(self).history@,
                old(self).history@.len(),
                old(self).target(),
                i,
                gap as int,
            ),
    {
        let ghost start = *self;
        let ghost t = self.target();
        let ghost from = self.history@.len();
        let len: usize = self.current_nodes.len();
        if i >= len {
            return Ok(());
        }
        assert(t[i as int] == self.current_nodes@[i as int]@);
        if is_sequence(&self.current_nodes[i].data) {
            return Ok(());
        }
        let current = match self.current_nodes[i].data.to_index() {
            Some(c) => c,
            None => {
                return Ok(());
            },
        };
        if current.is_zero() {
            return Ok(());
        }
        if gap >= len - i {
            return Ok(());
        }
        let values = lowerings(&self.current_nodes[i].data, &current);
        let mut x: usize = 0;
        let ghost list = values_view(values@);
        let ghost step = Self::value_step(i, gap as int, list);
        let ghost mut marks = seq![*self];
        while x < values.len()
            invariant
                list == values_view(values@),
                list.len() == values@.len(),
                step == Self::value_step(i, gap as int, list),
                Self::walking(marks, start, step),
                marks.last() == *self,
                marks.len() == x + 1,
                start == *old(self),
                self.follows(start),
                self.goes_on(start),
                t == start.target(),
                from == start.history@.len(),
                i < t.len(),
                1 <= gap,
                i + gap <= usize::MAX,
                x <= values@.len(),
                index_of(t[i as int].kind, t[i as int].value) == Some(current@),
                index_at(t, i as int) == Some(current@),
                current@ > 0,
                i + gap < t.len(),
                list == lowering_values(t[i as int].kind, current@),
                forall|v: ValueView| #[trigger]
                    values_view(values@).contains(v) <==> is_lowering(
                        t[i as int].kind,
                        current@,
                        v,
                    ),
                self.improvements == start.improvements ==> forall|y: int|
                    0 <= y < x ==> lowering_tried(
                        self.history@,
                        from,
                        t,
                        i,
                        #[trigger] values_view(values@)[y],
                        gap as int,
                    ),
            decreases values@.len() - x,
        {
            let ghost before = *self;
            let outcome = self.lower_to(i, &values[x], gap);
            proof {
                Self::lemma_follows_transitive(start, before, *self);
                assert(Self::walked(start, before, x as int, step));
                assert(values_view(values@)[x as int] == values@[x as int]@);
                assert(values_view(values@).contains(values@[x as int]@));
                lemma_index_round_trip(t[i as int].kind, t[i as int].value, 0);
                lemma_index_round_trip(
                    t[i as int].kind,
                    t[i as int].value,
                    (current@ - 1) as nat,
                );
                if outcome is Ok && self.improvements == start.improvements {
                    assert forall|y: int| 0 <= y < x + 1 implies lowering_tried(
                        self.history@,
                        from,
                        t,
                        i,
                        #[trigger] values_view(values@)[y],
                        gap as int,
                    ) by {
                        let h = if y == x {
                            self.history@
                        } else {
                            before.history@
                        };
                        let f = if y == x {
                            before.history@.len()
                        } else {
                            from
                        };
                        lemma_lowering_stays(
                            h,
                            self.history@,
                            f,
                            from,
                            t,
                            i,
                            values_view(values@)[y],
                            gap as int,
                        );
                    }
                }
            }
            match outcome {
                Ok(()) => {},
                Err(halt) => {
                    return Err(halt);
                },
            }
            proof {
                Self::lemma_stepped(marks, start, step, *self);
                marks = marks.push(*self);
            }
            x = x + 1;
        }
        assert(Self::walked(start, *self, list.len() as int, step));
        assert(Self::lowered_through(start, *self, i, gap as int, list));
        proof {
            if self.improvements == start.improvements {
                assert forall|v: ValueView| #[trigger]
                    is_lowering(t[i as int].kind, current@, v) implies lowering_tried(
                    self.history@,
                    from,
                    t,
                    i,
                    v,
                    gap as int,
                ) by {
                    assert(values_view(values@).contains(v));
                    let y = choose|y: int|
                        0 <= y < values_view(values@).len() && values_view(values@)[y] == v;
                    assert(values_view(values@)[y] == v);
                }
            }
        }
        Ok(())
    }

    fn lower_and_bump_gap(&mut self, gap: usize) -> (r: Result<(), ShrinkHalt>)
        requires
            old(self).wf(),
            1 <= gap,
        ensures
            final(self).follows(*old(self)),
            final(self).ends(*old(self), r.err()),
            r is Ok ==> Self::walked_through(
                *old(self),
                *final(self),
                Self::bump_step(gap as int),
            ),
            r matches Err(halt) ==> Self::walk_through_cut(
                *old(self),
                *final(self),
                Self::bump_step(gap as int),
                Self::bump_part(gap as int, halt),
            ),
            r is Ok && final(self).improvements == old(self).improvements ==> forall|i: usize|
                #[trigger]
                lowerings_tried(
                    final(self).history@,
                    old(self).history@.len(),
                    old(self).target(),
                    i,
                    gap as int,
                ),
    {
        let ghost start = *self;
        let ghost t = self.target();
        let ghost from = self.history@.len();
        let mut i: usize = 0;
        let ghost step = Self::bump_step(gap as int);
        let ghost mut marks = seq![*self];
        while i < self.current_nodes.len()
            invariant
                step == Self::bump_step(gap as int),
                Self::walking(marks, start, step),
                marks.last() == *self,
                marks.len() == i + 1,
                start == *old(self),
                self.follows(start),
                self.goes_on(start),
                t == start.target(),
                from == start.history@.len(),
                1 <= gap,
                self.improvements == start.improvements ==> forall|j: usize|
                    j < i ==> #[trigger] lowerings_tried(self.history@, from, t, j, gap as int),
            decreases
                if i <= self.current_nodes@.len() {
                    self.current_nodes@.len() - i
                } else {
                    0
                },
        {
            let ghost before = *self;
            let outcome = self.lower_and_bump_at(i, gap);
            proof {
                Self::lemma_follows_transitive(start, before, *self);
                assert(Self::walked(start, before, i as int, step));
                assert(self.target().len() == self.current_nodes@.len());
                assert(before.target().len() == before.current_nodes@.len());
                if outcome is Ok && self.improvements == start.improvements {
                    assert forall|j: usize| j < i + 1 implies #[trigger] lowerings_tried(
                        self.history@,
                        from,
                        t,
                        j,
                        gap as int,
                    ) by {
                        let h = if j == i {
                            self.history@
                        } else {
                            before.history@
                        };
                        let f = if j == i {
                            before.history@.len()
                        } else {
                            from
                        };
                        assert(lowerings_tried(h, f, t, j, gap as int));
                        lemma_lowerings_stay(h, self.history@, f, from, t, j, gap as int);
                    }
                }
            }
            match outcome {
                Ok(()) => {},
                Err(halt) => {
                    return Err(halt);
                },
            }
            proof {
                Self::lemma_stepped(marks, start, step, *self);
                marks = marks.push(*self);
            }
            i = i + 1;
        }
        proof {
            assert(self.target().len() == self.current_nodes@.len());
            assert(Self::walked(start, *self, i as int, step));
        }
        Ok(())
    }

    /// Lowers each choice that has an index and is not simplest, and raises a
    /// later one to make up for it.
    ///
    /// Unless something better turns up, each is tried at its simplest value
    /// and at the one just before its own: alone, with all that follows made
    /// simplest, and together with other values up to three places later.
    pub fn lower_and_bump(&mut self) -> (r: Result<(), ShrinkHalt>)
        requires
            old(self).wf(),
        ensures
            final(self).follows(*old(self)),
            final(self).ends(*old(self), r.err()),
            r is Ok ==> Self::walked(
                *old(self),
                *final(self),
                if old(self).target().len() == 0 {
                    0
                } else if old(self).target().len() < 4 {
                    old(self).target().len() - 1
                } else {
                    3
                },
                Self::bump_gaps_step(),
            ),
            r matches Err(halt) ==> Self::walk_cut(
                *old(self),
                *final(self),
                if old(self).target().len() < 4 {
                    old(self).target().len() - 1
                } else {
                    3
                },
                Self::bump_gaps_step(),
                Self::bump_gaps_part(halt),
            ),
            old(self).target().len() < 2 ==> r == Ok::<(), ShrinkHalt>(()) && *final(self)
                == *old(self),
            r is Ok && final(self).improvements == old(self).improvements ==> all_lowerings_tried(
                final(self).history@,
                old(self).history@.len(),
                old(self).target(),
            ),
    {
        let ghost start = *self;
        let ghost t = self.target();
        let ghost from = self.history@.len();
        let max_gap: usize = if self.current_nodes.len() < 4 {
            self.current_nodes.len()
        } else {
            4
        };
        let mut gap: usize = 1;
        assert(t.len() == self.current_nodes@.len());
        let ghost step = Self::bump_gaps_step();
        let ghost mut marks = seq![*self];
        while gap < max_gap
            invariant
                step == Self::bump_gaps_step(),
                Self::walking(marks, start, step),
                marks.last() == *self,
                marks.len() == gap,
                gap <= max_gap || gap == 1,
                start == *old(self),
                self.follows(start),
                self.goes_on(start),
                t == start.target(),
                from == start.history@.len(),
                1 <= gap,
                max_gap == if t.len() < 4 {
                    t.len()
                } else {
                    4
                },
                t.len() < 2 ==> *self == start,
                self.improvements == start.improvements ==> forall|i: usize, g: int|
                    1 <= g < gap ==> #[trigger] lowerings_tried(self.history@, from, t, i, g),
            decreases max_gap - gap,
        {
            let ghost before = *self;
            let outcome = self.lower_and_bump_gap(gap);
            proof {
                Self::lemma_follows_transitive(start, before, *self);
                assert(Self::walked(start, before, gap - 1, step));
                if outcome is Ok && self.improvements == start.improvements {
                    assert forall|i: usize, g: int| 1 <= g < gap + 1 implies #[trigger] lowerings_tried(
                        self.history@,
                        from,
                        t,
                        i,
                        g,
                    ) by {
                        let h = if g == gap {
                            self.history@
                        } else {
                            before.history@
                        };
                        let f = if g == gap {
                            before.history@.len()
                        } else {
                            from
                        };
                        assert(lowerings_tried(h, f, t, i, g));
                        lemma_lowerings_stay(h, self.history@, f, from, t, i, g);
                    }
                }
            }
            match outcome {
                Ok(()) => {},
                Err(halt) => {
                    return Err(halt);
                },
            }
            proof {
                Self::lemma_stepped(marks, start, step, *self);
                marks = marks.push(*self);
            }
            gap = gap + 1;
        }
        assert(Self::walked(start, *self, gap - 1, step));
        Ok(())
    }
}

} // verus!
