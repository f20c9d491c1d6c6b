//! The structure that a test case records while it runs: spans that open and
//! close over its choices, and the labels of what they covered.
use crate::spans::Span;
use crate::spans::Spans;
use std::collections::HashSet;
use vstd::prelude::*;

verus! {

broadcast use vstd::std_specs::hash::group_hash_axioms;

/// The view of a [`SpanStructure`].
pub struct StructureView {
    /// All spans, in the order in which they opened.
    pub spans: Seq<Span>,
    /// The indices of the open spans, the innermost last.
    pub stack: Seq<usize>,
    /// For each open span, the labels of it and of what it has kept.
    pub frames: Seq<Set<u64>>,
    /// The labels of everything that was kept at the outermost level.
    pub tags: Set<u64>,
    /// Whether any span was discarded.
    pub has_discards: bool,
}

/// The depth of a span that opens under `open` others.
pub open spec fn depth_under(open: nat) -> u32 {
    if open > u32::MAX {
        u32::MAX
    } else {
        open as u32
    }
}

/// The index of the innermost open span.
pub open spec fn innermost(stack: Seq<usize>) -> Option<usize> {
    if stack.len() == 0 {
        None
    } else {
        Some(stack.last())
    }
}

/// The structure after a span opened at the choice position `at`.
pub open spec fn opened(v: StructureView, at: usize, label: u64) -> StructureView {
    StructureView {
        spans: v.spans.push(
            Span {
                start: at,
                end: at,
                label,
                depth: depth_under(v.stack.len()),
                parent: innermost(v.stack),
                discarded: false,
            },
        ),
        stack: v.stack.push(v.spans.len() as usize),
        frames: v.frames.push(Set::<u64>::empty().insert(label)),
        ..v
    }
}

/// The spans after the one at `i` ended.
pub open spec fn ended(spans: Seq<Span>, i: int, at: usize, discard: bool) -> Seq<Span> {
    if 0 <= i < spans.len() {
        spans.update(i, Span { end: at, discarded: discard, ..spans[i] })
    } else {
        spans
    }
}

/// The structure after the innermost span closed at the choice position `at`.
/// The labels of a span that is kept go to the span around it, or to the tags
/// where there is none. The labels of a discarded span are dropped.
pub open spec fn closed_at(v: StructureView, at: usize, discard: bool) -> StructureView {
    if v.stack.len() == 0 {
        v
    } else {
        let rest = if v.frames.len() == 0 {
            v.frames
        } else {
            v.frames.drop_last()
        };
        let labels = if v.frames.len() == 0 {
            Set::empty()
        } else {
            v.frames.last()
        };
        StructureView {
            spans: ended(v.spans, v.stack.last() as int, at, discard),
            stack: v.stack.drop_last(),
            frames: if !discard && rest.len() > 0 {
                rest.drop_last().push(rest.last().union(labels))
            } else {
                rest
            },
            tags: if !discard && rest.len() == 0 {
                v.tags.union(labels)
            } else {
                v.tags
            },
            has_discards: v.has_discards || discard,
        }
    }
}

/// The spans after all those of `stack` ended.
pub open spec fn all_ended(spans: Seq<Span>, stack: Seq<usize>, at: usize) -> Seq<Span>
    decreases stack.len(),
{
    if stack.len() == 0 {
        spans
    } else {
        let i = stack.last() as int;
        let next = if 0 <= i < spans.len() {
            spans.update(i, Span { end: at, ..spans[i] })
        } else {
            spans
        };
        all_ended(next, stack.drop_last(), at)
    }
}

/// Ending spans changes nothing but where they end.
pub proof fn lemma_ending_keeps_the_rest(spans: Seq<Span>, stack: Seq<usize>, at: usize)
    ensures
        all_ended(spans, stack, at).len() == spans.len(),
        forall|j: int|
            0 <= j < spans.len() ==> #[trigger] all_ended(spans, stack, at)[j] == (Span {
                end: all_ended(spans, stack, at)[j].end,
                ..spans[j]
            }),
    decreases stack.len(),
{
    if stack.len() > 0 {
        let i = stack.last() as int;
        let next = if 0 <= i < spans.len() {
            spans.update(i, Span { end: at, ..spans[i] })
        } else {
            spans
        };
        lemma_ending_keeps_the_rest(next, stack.drop_last(), at);
        assert forall|j: int| 0 <= j < spans.len() implies #[trigger] all_ended(spans, stack, at)[j]
            == (Span { end: all_ended(spans, stack, at)[j].end, ..spans[j] }) by {
            assert(all_ended(next, stack.drop_last(), at)[j] == (Span {
                end: all_ended(next, stack.drop_last(), at)[j].end,
                ..next[j]
            }));
        }
    }
}

/// The structure after every open span ended at the choice position `at`.
pub open spec fn frozen_at(v: StructureView, at: usize) -> StructureView {
    StructureView { spans: all_ended(v.spans, v.stack, at), stack: Seq::empty(), ..v }
}

/// Whether the open spans nest properly: each is a recorded span, directly
/// inside the one before it.
pub open spec fn well_nested(v: StructureView) -> bool {
    &&& v.frames.len() == v.stack.len()
    &&& forall|k: int|
        0 <= k < v.stack.len() ==> {
            let span = v.spans[#[trigger] v.stack[k] as int];
            &&& v.stack[k] < v.spans.len()
            &&& span.depth == depth_under(k as nat)
            &&& span.parent == innermost(v.stack.take(k))
        }
    &&& forall|i: int, j: int| 0 <= i < j < v.stack.len() ==> v.stack[i] < v.stack[j]
}

/// Opening a span keeps the nesting proper.
pub proof fn lemma_opening_nests(v: StructureView, at: usize, label: u64)
    requires
        well_nested(v),
        v.spans.len() < usize::MAX,
    ensures
        well_nested(opened(v, at, label)),
{
    let w = opened(v, at, label);
    assert forall|k: int| 0 <= k < w.stack.len() implies ({
        let span = w.spans[#[trigger] w.stack[k] as int];
        &&& w.stack[k] < w.spans.len()
        &&& span.depth == depth_under(k as nat)
        &&& span.parent == innermost(w.stack.take(k))
    }) by {
        if k < v.stack.len() {
            assert(w.stack[k] == v.stack[k]);
            assert(w.stack.take(k) =~= v.stack.take(k));
        } else {
            assert(w.stack.take(k) =~= v.stack);
        }
    }
}

/// Closing a span keeps the nesting proper.
pub proof fn lemma_closing_nests(v: StructureView, at: usize, discard: bool)
    requires
        well_nested(v),
    ensures
        well_nested(closed_at(v, at, discard)),
{
    if v.stack.len() > 0 {
        let w = closed_at(v, at, discard);
        assert forall|k: int| 0 <= k < w.stack.len() implies ({
            let span = w.spans[#[trigger] w.stack[k] as int];
            &&& w.stack[k] < w.spans.len()
            &&& span.depth == depth_under(k as nat)
            &&& span.parent == innermost(w.stack.take(k))
        }) by {
            assert(w.stack[k] == v.stack[k]);
            assert(w.stack.take(k) =~= v.stack.take(k));
        }
    }
}

/// Closing undoes opening: the open spans are again the ones from before, and
/// one span more is recorded, which covers the positions in between.
pub proof fn lemma_closing_undoes_opening(
    v: StructureView,
    label: u64,
    from: usize,
    to: usize,
    discard: bool,
)
    requires
        v.spans.len() < usize::MAX,
    ensures
        ({
            let w = closed_at(opened(v, from, label), to, discard);
            &&& w.stack == v.stack
            &&& w.frames.len() == v.frames.len()
            &&& discard ==> w.frames == v.frames && w.tags == v.tags && w.has_discards
            &&& !discard ==> w.has_discards == v.has_discards
            &&& w.spans == v.spans.push(
                Span {
                    start: from,
                    end: to,
                    label,
                    depth: depth_under(v.stack.len()),
                    parent: innermost(v.stack),
                    discarded: discard,
                },
            )
        }),
{
    let u = opened(v, from, label);
    let w = closed_at(u, to, discard);
    assert(u.stack.drop_last() =~= v.stack);
    assert(u.frames.drop_last() =~= v.frames);
    assert(w.spans =~= v.spans.push(
        Span {
            start: from,
            end: to,
            label,
            depth: depth_under(v.stack.len()),
            parent: innermost(v.stack),
            discarded: discard,
        },
    ));
}

/// A span that is kept at the outermost level leaves its label among the tags,
/// and a discarded one leaves the tags as they were.
pub proof fn lemma_kept_labels_become_tags(v: StructureView, label: u64, from: usize, to: usize)
    requires
        v.frames.len() == 0,
        v.spans.len() < usize::MAX,
    ensures
        closed_at(opened(v, from, label), to, false).tags == v.tags.insert(label),
        closed_at(opened(v, from, label), to, true).tags == v.tags,
{
    let u = opened(v, from, label);
    assert(u.frames.drop_last() =~= v.frames);
    assert(u.frames.last() == Set::<u64>::empty().insert(label));
    assert(closed_at(u, to, false).tags =~= v.tags.insert(label));
}

/// The structure that a test case records.
pub struct SpanStructure {
    /// The spans.
    pub spans: Spans,
    /// The indices of the open spans, the innermost last.
    pub span_stack: Vec<usize>,
    /// Whether any span was discarded.
    pub has_discards: bool,
    /// The labels of everything that was kept at the outermost level. Each
    /// stands for its coverage tag.
    pub tags: HashSet<u64>,
    /// For each open span, the labels of it and of what it has kept.
    pub frames: Vec<Vec<u64>>,
}

/// The labels of open spans.
pub open spec fn frames_view(frames: Seq<Vec<u64>>) -> Seq<Set<u64>> {
    frames.map_values(|f: Vec<u64>| f@.to_set())
}

impl View for SpanStructure {
    type V = StructureView;

    open spec fn view(&self) -> StructureView {
        StructureView {
            spans: self.spans@,
            stack: self.span_stack@,
            frames: frames_view(self.frames@),
            tags: self.tags@,
            has_discards: self.has_discards,
        }
    }
}

/// Adds the labels of one frame to another.
fn merge_frame(into: &mut Vec<u64>, from: &Vec<u64>)
    ensures
        final(into)@.to_set() == old(into)@.to_set().union(from@.to_set()),
{
    let ghost start = into@;
    let mut i: usize = 0;
    assert(into@.to_set() =~= start.to_set().union(from@.take(0).to_set()));
    while i < from.len()
        invariant
            i <= from@.len(),
            into@.to_set() == start.to_set().union(from@.take(i as int).to_set()),
        decreases from@.len() - i,
    {
        let label: u64 = from[i];
        let known = holds_label(into, label);
        let ghost before = into@;
        if !known {
            into.push(label);
        }
        proof {
            let more = from@.take(i + 1);
            let fewer = from@.take(i as int);
            assert(more =~= fewer.push(label));
            assert forall|x: u64| into@.to_set().contains(x) <==> start.to_set().union(
                more.to_set(),
            ).contains(x) by {
                lemma_push_contains(fewer, label, x);
                lemma_push_contains(before, label, x);
                assert(before.to_set().contains(x) <==> start.to_set().union(
                    fewer.to_set(),
                ).contains(x));
            }
            assert(into@.to_set() =~= start.to_set().union(more.to_set()));
        }
        i = i + 1;
    }
    assert(from@.take(i as int) =~= from@);
}

proof fn lemma_push_contains(s: Seq<u64>, label: u64, x: u64)
    ensures
        s.push(label).contains(x) <==> s.contains(x) || x == label,
{
    if s.contains(x) {
        let i = choose|i: int| 0 <= i < s.len() && s[i] == x;
        assert(s.push(label)[i] == x);
    }
    assert(s.push(label)[s.len() as int] == label);
    if s.push(label).contains(x) {
        let i = choose|i: int| 0 <= i < s.push(label).len() && s.push(label)[i] == x;
        if i < s.len() {
            assert(s[i] == x);
        }
    }
}

fn holds_label(frame: &Vec<u64>, label: u64) -> (r: bool)
    ensures
        r == frame@.contains(label),
{
    let mut i: usize = 0;
    while i < frame.len()
        invariant
            i <= frame@.len(),
            forall|j: int| 0 <= j < i ==> frame@[j] != label,
        decreases frame@.len() - i,
    {
        if frame[i] == label {
            assert(frame@[i as int] == label);
            return true;
        }
        i = i + 1;
    }
    false
}

impl SpanStructure {
    /// No spans.
    pub fn new() -> (r: Self)
        ensures
            r@.spans == Seq::<Span>::empty(),
            r@.stack == Seq::<usize>::empty(),
            r@.frames == Seq::<Set<u64>>::empty(),
            r@.tags == Set::<u64>::empty(),
            !r@.has_discards,
    {
        let r = SpanStructure {
            spans: Spans::new(),
            span_stack: Vec::new(),
            has_discards: false,
            tags: HashSet::new(),
            frames: Vec::new(),
        };
        assert(r@.frames =~= Seq::<Set<u64>>::empty());
        r
    }

    /// How many spans are open.
    pub fn span_depth(&self) -> (r: usize)
        ensures
            r == self@.stack.len(),
    {
        self.span_stack.len()
    }

    /// Opens a span at the choice position `at`. The result is its index.
    pub fn open(&mut self, at: usize, label: u64) -> (r: usize)
        ensures
            r == old(self)@.spans.len(),
            final(self)@ == opened(old(self)@, at, label),
    {
        let open: usize = self.span_stack.len();
        let parent: Option<usize> = if open == 0 {
            None
        } else {
            Some(self.span_stack[open - 1])
        };
        let depth: u32 = if open > 0xffff_ffff {
            0xffff_ffff
        } else {
            open as u32
        };
        let idx: usize = self.spans.len();
        self.spans.push(Span { start: at, end: at, label, depth, parent, discarded: false });
        self.span_stack.push(idx);
        let mut frame: Vec<u64> = Vec::new();
        frame.push(label);
        proof {
            assert(frame@ =~= seq![label]);
            assert forall|x: u64| frame@.to_set().contains(x) <==> x == label by {
                assert(frame@[0] == label);
            }
            assert(frame@.to_set() =~= Set::<u64>::empty().insert(label));
        }
        self.frames.push(frame);
        assert(frames_view(self.frames@) =~= frames_view(old(self).frames@).push(
            Set::<u64>::empty().insert(label),
        ));
        idx
    }

    /// Closes the innermost span at the choice position `at`.
    pub fn close(&mut self, at: usize, discard: bool)
        ensures
            final(self)@ == closed_at(old(self)@, at, discard),
    {
        let ghost v = self@;
        let idx: usize = match self.span_stack.pop() {
            Some(idx) => idx,
            None => {
                return;
            },
        };
        assert(self.span_stack@ =~= v.stack.drop_last());
        if let Some(span) = self.spans.get_mut(idx) {
            span.end = at;
            span.discarded = discard;
        }
        assert(self.spans@ =~= ended(v.spans, idx as int, at, discard));
        if discard {
            self.has_discards = true;
        }
        let ghost frames = self.frames@;
        let labels: Vec<u64> = match self.frames.pop() {
            Some(labels) => labels,
            None => Vec::new(),
        };
        let ghost rest = self.frames@;
        proof {
            if frames.len() > 0 {
                assert(frames_view(rest) =~= frames_view(frames).drop_last());
                assert(frames_view(frames).last() == labels@.to_set());
            } else {
                assert(labels@.to_set() =~= Set::<u64>::empty());
            }
        }
        if !discard {
            let n: usize = self.frames.len();
            if n > 0 {
                let mut parent: Vec<u64> = match self.frames.pop() {
                    Some(parent) => parent,
                    None => Vec::new(),
                };
                merge_frame(&mut parent, &labels);
                self.frames.push(parent);
                assert(frames_view(self.frames@) =~= frames_view(rest).drop_last().push(
                    frames_view(rest).last().union(labels@.to_set()),
                ));
            } else {
                self.keep_labels(&labels);
            }
        }
    }

    /// Adds labels to the tags.
    fn keep_labels(&mut self, labels: &Vec<u64>)
        ensures
            final(self)@ == (StructureView {
                tags: old(self)@.tags.union(labels@.to_set()),
                ..old(self)@
            }),
    {
        let ghost v = self@;
        let mut i: usize = 0;
        assert(self.tags@ =~= v.tags.union(labels@.take(0).to_set()));
        while i < labels.len()
            invariant
                i <= labels@.len(),
                self@ == (StructureView {
                    tags: v.tags.union(labels@.take(i as int).to_set()),
                    ..v
                }),
            decreases labels@.len() - i,
        {
            let label: u64 = labels[i];
            self.tags.insert(label);
            proof {
                let more = labels@.take(i + 1);
                let fewer = labels@.take(i as int);
                assert(more =~= fewer.push(label));
                assert forall|x: u64| more.to_set().contains(x) <==> fewer.to_set().insert(
                    label,
                ).contains(x) by {
                    lemma_push_contains(fewer, label, x);
                }
                assert(self.tags@ =~= v.tags.union(more.to_set()));
            }
            i = i + 1;
        }
        assert(labels@.take(i as int) =~= labels@);
    }

    /// Ends every open span at the choice position `at`.
    pub fn freeze(&mut self, at: usize)
        ensures
            final(self)@ == frozen_at(old(self)@, at),
    {
        let ghost v = self@;
        while self.span_stack.len() > 0
            invariant
                all_ended(self@.spans, self@.stack, at) == all_ended(v.spans, v.stack, at),
                self@ == (StructureView { spans: self@.spans, stack: self@.stack, ..v }),
            decreases self.span_stack@.len(),
        {
            let ghost before = self@;
            let idx: usize = match self.span_stack.pop() {
                Some(idx) => idx,
                None => 0,
            };
            assert(self.span_stack@ =~= before.stack.drop_last());
            if let Some(span) = self.spans.get_mut(idx) {
                span.end = at;
            }
        }
        assert(self.span_stack@ =~= Seq::<usize>::empty());
    }
}

} // verus!
