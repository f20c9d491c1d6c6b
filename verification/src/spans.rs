//! Spans: the nested structure that a test case records over its choices.
use crate::choices::nodes_view;
use crate::choices::simplest_of;
use crate::choices::ChoiceNode;
use crate::choices::NodeView;
use crate::errors::InternalError;
use vstd::prelude::*;

verus! {

/// The span nesting depth beyond which a test case is marked invalid.
///
/// A guard against runaway recursion. It sits far above any depth that
/// legitimate generation reaches, and usually below the depth at which a
/// drawing stack overflows.
pub const MAX_DEPTH: u32 = 1000;

/// A span within the choice sequence.
#[derive(Clone, Copy, Debug, PartialEq, Eq, Structural)]
pub struct Span {
    /// The position of the first choice.
    pub start: usize,
    /// One past the position of the last choice.
    pub end: usize,
    /// The label that the span was opened with.
    pub label: u64,
    /// How many spans enclose this one.
    pub depth: u32,
    /// The index of the span that directly encloses this one.
    pub parent: Option<usize>,
    /// Whether the span was closed as discarded.
    pub discarded: bool,
}

/// The structural-coverage class of a span label.
#[derive(Clone, Copy, Debug, PartialEq, Eq, Hash, Structural)]
pub struct CoverageTag {
    /// The label.
    pub label: u64,
}

/// The coverage tag of `label`. Equal labels have equal tags, and different
/// labels different ones.
pub fn structural_coverage(label: u64) -> (r: CoverageTag)
    ensures
        r == (CoverageTag { label }),
{
    CoverageTag { label }
}

/// The spans recorded during one test case.
#[derive(Debug)]
pub struct Spans {
    inner: Vec<Span>,
}

impl View for Spans {
    type V = Seq<Span>;

    closed spec fn view(&self) -> Seq<Span> {
        self.inner@
    }
}

impl Clone for Spans {
    fn clone(&self) -> (r: Self)
        ensures
            r@ == self@,
    {
        let inner = self.inner.clone();
        assert(inner@ =~= self.inner@);
        Spans { inner }
    }
}

/// Whether a choice cannot be made simpler: it was forced, or it has the
/// simplest value of its kind.
pub open spec fn is_trivial_node(n: NodeView) -> bool {
    n.was_forced || simplest_of(n.kind) == Some(n.value)
}

/// The simplest value of the choice cannot be told, where it would be needed.
pub open spec fn has_no_simplest(n: NodeView) -> bool {
    !n.was_forced && simplest_of(n.kind) is None
}

/// The choices that a span covers, as far as there are that many.
pub open spec fn covered(span: Span, nodes: Seq<NodeView>) -> Seq<NodeView> {
    nodes.subrange(
        span.start as int,
        if span.end < nodes.len() {
            span.end as int
        } else {
            nodes.len() as int
        },
    )
}

/// The first choice that is not trivial, or the length where all are.
pub open spec fn trivial_prefix(s: Seq<NodeView>) -> nat
    decreases s.len(),
{
    if s.len() == 0 || !is_trivial_node(s[0]) {
        0
    } else {
        1 + trivial_prefix(s.skip(1))
    }
}

proof fn lemma_trivial_prefix(s: Seq<NodeView>, k: int)
    requires
        0 <= k <= s.len(),
        forall|i: int| 0 <= i < k ==> is_trivial_node(#[trigger] s[i]),
        k < s.len() ==> !is_trivial_node(s[k]),
    ensures
        trivial_prefix(s) == k,
    decreases k,
{
    if k > 0 {
        assert(s[0] == s[0]);
        assert forall|i: int| 0 <= i < k - 1 implies is_trivial_node(#[trigger] s.skip(1)[i]) by {
            assert(s.skip(1)[i] == s[i + 1]);
        }
        lemma_trivial_prefix(s.skip(1), k - 1);
    }
}

impl Spans {
    /// No spans.
    pub fn new() -> (r: Self)
        ensures
            r@ == Seq::<Span>::empty(),
    {
        Spans { inner: Vec::new() }
    }

    /// The given spans.
    pub fn from_vec(inner: Vec<Span>) -> (r: Self)
        ensures
            r@ == inner@,
    {
        Spans { inner }
    }

    /// How many spans there are.
    pub fn len(&self) -> (r: usize)
        ensures
            r == self@.len(),
    {
        self.inner.len()
    }

    /// Whether there are no spans.
    pub fn is_empty(&self) -> (r: bool)
        ensures
            r == (self@.len() == 0),
    {
        self.inner.len() == 0
    }

    /// Appends a span.
    pub fn push(&mut self, span: Span)
        ensures
            final(self)@ == old(self)@.push(span),
    {
        self.inner.push(span);
    }

    /// Mutable access to the span at `i`, or `None` past the end.
    pub fn get_mut(&mut self, i: usize) -> (r: Option<&mut Span>)
        ensures
            match r {
                Some(span) => {
                    &&& i < old(self)@.len()
                    &&& *span == old(self)@[i as int]
                    &&& final(self)@ == old(self)@.update(i as int, *final(span))
                },
                None => i >= old(self)@.len() && final(self)@ == old(self)@,
            },
    {
        if i < self.inner.len() {
            Some(&mut self.inner[i])
        } else {
            None
        }
    }

    /// The span at `i`, or `None` past the end.
    pub fn get(&self, i: usize) -> (r: Option<&Span>)
        ensures
            match r {
                Some(span) => i < self@.len() && *span == self@[i as int],
                None => i >= self@.len(),
            },
    {
        if i < self.inner.len() {
            Some(&self.inner[i])
        } else {
            None
        }
    }

    /// The span at `i`, counted from the end where `i` is negative.
    pub fn at(&self, i: i64) -> (r: &Span)
        requires
            -self@.len() <= i < self@.len(),
        ensures
            *r == self@[if i < 0 {
                self@.len() + i
            } else {
                i as int
            }],
    {
        let n: usize = self.inner.len();
        if i < 0 {
            &self.inner[(n as i128 + i as i128) as usize]
        } else {
            &self.inner[i as usize]
        }
    }

    /// Whether every choice of the span at `span_idx` that was not forced has
    /// the simplest value of its kind. There is no such span past the end of
    /// the spans or of the choices.
    pub fn trivial(&self, span_idx: usize, nodes: &[ChoiceNode]) -> (r: Result<
        bool,
        InternalError,
    >)
        ensures
            span_idx >= self@.len() || self@[span_idx as int].start > self@[span_idx as int].end
                || self@[span_idx as int].start > nodes@.len() ==> r == Ok::<bool, InternalError>(
                false,
            ),
            span_idx < self@.len() && self@[span_idx as int].start <= self@[span_idx as int].end
                && self@[span_idx as int].start <= nodes@.len() ==> {
                let inside = covered(self@[span_idx as int], nodes_view(nodes@));
                let k = trivial_prefix(inside);
                match r {
                    Ok(b) => b == (k == inside.len()) && (k < inside.len() ==> !has_no_simplest(
                        inside[k as int],
                    )),
                    Err(_) => k < inside.len() && has_no_simplest(inside[k as int]),
                }
            },
    {
        if span_idx >= self.inner.len() {
            return Ok(false);
        }
        let span = self.inner[span_idx];
        let end: usize = if span.end < nodes.len() {
            span.end
        } else {
            nodes.len()
        };
        if span.start > end {
            return Ok(false);
        }
        let ghost inside = covered(span, nodes_view(nodes@));
        let mut i: usize = span.start;
        while i < end
            invariant
                span.start <= i <= end <= nodes@.len(),
                span_idx < self@.len(),
                span == self@[span_idx as int],
                end <= span.end,
                inside == covered(span, nodes_view(nodes@)),
                inside.len() == end - span.start,
                forall|j: int| 0 <= j < inside.len() ==> #[trigger] inside[j] == nodes@[span.start + j]@,
                forall|j: int| 0 <= j < i - span.start ==> is_trivial_node(#[trigger] inside[j]),
            decreases end - i,
        {
            let ghost k = i - span.start;
            assert(inside[k] == nodes@[i as int]@);
            if !nodes[i].was_forced {
                match nodes[i].data.is_simplest() {
                    Ok(true) => {},
                    Ok(false) => {
                        proof {
                            lemma_trivial_prefix(inside, k);
                        }
                        return Ok(false);
                    },
                    Err(e) => {
                        proof {
                            lemma_trivial_prefix(inside, k);
                        }
                        return Err(e);
                    },
                }
            }
            i = i + 1;
        }
        proof {
            lemma_trivial_prefix(inside, inside.len() as int);
        }
        Ok(true)
    }

    /// The spans as a slice.
    pub fn as_slice(&self) -> (r: &[Span])
        ensures
            r@ == self@,
    {
        self.inner.as_slice()
    }

    /// The spans as a vector.
    pub fn into_vec(self) -> (r: Vec<Span>)
        ensures
            r@ == self@,
    {
        self.inner
    }
}

/// A span whose choices are all trivial stays trivial when the choices behind
/// it change.
pub proof fn lemma_triviality_is_local(span: Span, a: Seq<NodeView>, b: Seq<NodeView>)
    requires
        span.start <= span.end <= a.len(),
        span.end <= b.len(),
        a.take(span.end as int) == b.take(span.end as int),
    ensures
        covered(span, a) == covered(span, b),
        trivial_prefix(covered(span, a)) == trivial_prefix(covered(span, b)),
{
    assert forall|i: int| span.start <= i < span.end implies a[i] == b[i] by {
        assert(a.take(span.end as int)[i] == a[i]);
        assert(b.take(span.end as int)[i] == b[i]);
    }
    assert(covered(span, a) =~= covered(span, b));
}

} // verus!
