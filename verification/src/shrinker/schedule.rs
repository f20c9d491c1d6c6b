//! The order in which the shrink passes run.
use super::absorb_stop;
use super::all_in_vain;
use super::debug_view;
use super::duplicates::groups_tried;
use super::duplicates::lemma_groups_stay;
use super::extends;
use super::index_passes::all_lowerings_tried;
use super::index_passes::lemma_all_lowerings_stay;
use super::integers::all_distances_tried;
use super::integers::lemma_integer_passes_stay;
use super::integers::moves_tried;
use super::integers::pairs_tried;
use super::integers::signs_tried;
use super::integers::sweeps_tried;
use super::lacks_simplest;
use super::offsets::lemma_offsets_stay;
use super::offsets::offsets_tried;
use super::report::PassStats;
use super::shortening::all_increments_offered;
use super::shortening::lemma_all_increments_stay;
use super::Offer;
use super::Run;
use super::ShrinkHalt;
use super::ShrinkProbe;
use super::Shrinker;
use crate::choices::NodeView;
use crate::errors::RunError;
use vstd::prelude::*;
use vstd::string::StringExecFns;

verus! {

/// A shrink pass.
#[derive(Clone, Copy, Debug, PartialEq, Eq, Structural)]
pub enum ShrinkPass {
    ShrinkDuplicates,
    ZeroChoices,
    SwapIntegerSign,
    BinarySearchIntegerTowardsZero,
    LowerCommonNodeOffset,
    RedistributeIntegers,
    LowerIntegersTogether,
    LowerAndBump,
    TryShorteningViaIncrement,
}

/// The passes in the order in which a round runs them.
///
/// Duplicates come before the zeroing: a size that was drawn twice must be
/// lowered while the values that it governs still vary, since once they are
/// zeroed no smaller size may fail.
pub open spec fn pass_order() -> Seq<ShrinkPass> {
    seq![
        ShrinkPass::ShrinkDuplicates,
        ShrinkPass::ZeroChoices,
        ShrinkPass::SwapIntegerSign,
        ShrinkPass::BinarySearchIntegerTowardsZero,
        ShrinkPass::LowerCommonNodeOffset,
        ShrinkPass::RedistributeIntegers,
        ShrinkPass::LowerIntegersTogether,
        ShrinkPass::LowerAndBump,
        ShrinkPass::TryShorteningViaIncrement,
    ]
}

/// The name of a pass.
pub open spec fn pass_name(p: ShrinkPass) -> Seq<char> {
    match p {
        ShrinkPass::ShrinkDuplicates => "shrink_duplicates"@,
        ShrinkPass::ZeroChoices => "zero_choices"@,
        ShrinkPass::SwapIntegerSign => "swap_integer_sign"@,
        ShrinkPass::BinarySearchIntegerTowardsZero => "binary_search_integer_towards_zero"@,
        ShrinkPass::LowerCommonNodeOffset => "lower_common_node_offset"@,
        ShrinkPass::RedistributeIntegers => "redistribute_integers"@,
        ShrinkPass::LowerIntegersTogether => "lower_integers_together"@,
        ShrinkPass::LowerAndBump => "lower_and_bump"@,
        ShrinkPass::TryShorteningViaIncrement => "try_shortening_via_increment"@,
    }
}

/// What a pass is sure to have tried where it left the target as it was, with
/// the positions that were tracked when it began.
pub open spec fn pass_tried(
    p: ShrinkPass,
    h: Seq<Offer>,
    from: nat,
    runs: Seq<Run>,
    t: Seq<NodeView>,
    changed: Set<usize>,
) -> bool {
    match p {
        ShrinkPass::ShrinkDuplicates => groups_tried(h, from, t),
        ShrinkPass::ZeroChoices => sweeps_tried(h, from, t, t.len() as int),
        ShrinkPass::SwapIntegerSign => signs_tried(h, from, t),
        ShrinkPass::BinarySearchIntegerTowardsZero => all_distances_tried(h, from, t),
        ShrinkPass::LowerCommonNodeOffset => offsets_tried(h, from, t, changed),
        ShrinkPass::RedistributeIntegers => moves_tried(h, from, t),
        ShrinkPass::LowerIntegersTogether => pairs_tried(h, from, t),
        ShrinkPass::LowerAndBump => all_lowerings_tried(h, from, t),
        ShrinkPass::TryShorteningViaIncrement => all_increments_offered(h, from, runs, t),
    }
}

/// Whether every pass has tried its candidates on `t` since the history had
/// `from` entries, with the positions that were tracked then.
pub open spec fn all_passes_tried(
    h: Seq<Offer>,
    from: nat,
    runs: Seq<Run>,
    t: Seq<NodeView>,
    changed: Set<usize>,
) -> bool {
    forall|k: int|
        0 <= k < pass_order().len() ==> pass_tried(
            #[trigger] pass_order()[k],
            h,
            from,
            runs,
            t,
            changed,
        )
}

/// Whether the search has come to an end of its own: every pass was run on the
/// target as it is, and no run of the test on what it tried failed with
/// anything simpler.
pub open spec fn is_fixed_point(h: Seq<Offer>, runs: Seq<Run>, t: Seq<NodeView>) -> bool {
    exists|from: nat, changed: Set<usize>|
        from <= h.len() && #[trigger] all_passes_tried(h, from, runs, t, changed) && all_in_vain(
            h,
            from as int,
            runs,
            t,
        )
}

proof fn lemma_pass_tried_stays(
    p: ShrinkPass,
    h1: Seq<Offer>,
    h2: Seq<Offer>,
    from1: nat,
    from2: nat,
    runs1: Seq<Run>,
    runs2: Seq<Run>,
    t: Seq<NodeView>,
    changed: Set<usize>,
)
    requires
        extends(h1, h2),
        extends(runs1, runs2),
        from2 <= from1,
        pass_tried(p, h1, from1, runs1, t, changed),
    ensures
        pass_tried(p, h2, from2, runs2, t, changed),
{
    if p is LowerCommonNodeOffset {
        lemma_offsets_stay(h1, h2, from1, from2, t, changed);
    }
    lemma_integer_passes_stay(h1, h2, from1, from2, t);
    if p is ShrinkDuplicates {
        lemma_groups_stay(h1, h2, from1, from2, t);
    }
    if p is LowerAndBump {
        lemma_all_lowerings_stay(h1, h2, from1, from2, t);
    }
    if p is TryShorteningViaIncrement {
        lemma_all_increments_stay(h1, h2, from1, from2, runs1, runs2, t);
    }
}

impl ShrinkPass {
    /// The name of the pass.
    pub fn name(&self) -> (r: &'static str)
        ensures
            r@ == pass_name(*self),
    {
        match self {
            ShrinkPass::ShrinkDuplicates => "shrink_duplicates",
            ShrinkPass::ZeroChoices => "zero_choices",
            ShrinkPass::SwapIntegerSign => "swap_integer_sign",
            ShrinkPass::BinarySearchIntegerTowardsZero => "binary_search_integer_towards_zero",
            ShrinkPass::LowerCommonNodeOffset => "lower_common_node_offset",
            ShrinkPass::RedistributeIntegers => "redistribute_integers",
            ShrinkPass::LowerIntegersTogether => "lower_integers_together",
            ShrinkPass::LowerAndBump => "lower_and_bump",
            ShrinkPass::TryShorteningViaIncrement => "try_shortening_via_increment",
        }
    }
}

/// The passes in the order in which a round runs them.
pub fn shrink_passes() -> (r: Vec<ShrinkPass>)
    ensures
        r@ == pass_order(),
{
    let mut out: Vec<ShrinkPass> = Vec::new();
    out.push(ShrinkPass::ShrinkDuplicates);
    out.push(ShrinkPass::ZeroChoices);
    out.push(ShrinkPass::SwapIntegerSign);
    out.push(ShrinkPass::BinarySearchIntegerTowardsZero);
    out.push(ShrinkPass::LowerCommonNodeOffset);
    out.push(ShrinkPass::RedistributeIntegers);
    out.push(ShrinkPass::LowerIntegersTogether);
    out.push(ShrinkPass::LowerAndBump);
    out.push(ShrinkPass::TryShorteningViaIncrement);
    assert(out@ =~= pass_order());
    out
}

/// Whether the statistics are about the passes, in their order.
pub open spec fn stats_match(stats: Seq<PassStats>) -> bool {
    stats.len() == pass_order().len() && forall|k: int|
        0 <= k < stats.len() ==> (#[trigger] stats[k]).name@ == pass_name(pass_order()[k])
}

/// A count after `more` were added, at most the largest that fits.
pub open spec fn counted(count: usize, more: int) -> int {
    if count + more > usize::MAX {
        usize::MAX as int
    } else {
        count + more
    }
}

/// Statistics of passes that have not run.
pub fn no_stats() -> (r: Vec<PassStats>)
    ensures
        stats_match(r@),
        forall|k: int| 0 <= k < r@.len() ==> (#[trigger] r@[k]).calls == 0 && r@[k].shrinks == 0
            && r@[k].deletions == 0,
{
    let passes = shrink_passes();
    let mut out: Vec<PassStats> = Vec::new();
    let mut k: usize = 0;
    while k < passes.len()
        invariant
            k <= passes@.len(),
            passes@ == pass_order(),
            out@.len() == k,
            forall|j: int| 0 <= j < k ==> (#[trigger] out@[j]).name@ == pass_name(pass_order()[j])
                && out@[j].calls == 0 && out@[j].shrinks == 0 && out@[j].deletions == 0,
        decreases passes@.len() - k,
    {
        out.push(PassStats { name: passes[k].name(), calls: 0, shrinks: 0, deletions: 0 });
        k = k + 1;
    }
    out
}

impl<P: ShrinkProbe> Shrinker<P> {
    /// Whether the target is one on which no pass finds anything simpler.
    pub open spec fn is_settled(&self) -> bool {
        is_fixed_point(self.history@, self.runs@, self.target())
    }

    /// How a later state of the search relates to an earlier one, debug output
    /// aside.
    pub open spec fn progressed(&self, old: Self) -> bool {
        &&& self.advances(old)
        &&& match (debug_view(old.debug), debug_view(self.debug)) {
            (Some(before), Some(after)) => extends(before, after),
            (None, None) => true,
            _ => false,
        }
    }

    /// What follows a later state follows the earlier ones, debug output
    /// aside.
    pub proof fn lemma_progressed_transitive(a: Self, b: Self, c: Self)
        requires
            b.progressed(a),
            c.progressed(b),
        ensures
            c.progressed(a),
            b.goes_on(a) ==> c.goes_on(a) == c.goes_on(b),
    {
        Self::lemma_advances_transitive(a, b, c);
        if let (Some(x), Some(y), Some(z)) = (
            debug_view(a.debug),
            debug_view(b.debug),
            debug_view(c.debug),
        ) {
            assert forall|k: int| 0 <= k < x.len() implies #[trigger] z[k] == x[k] by {
                assert(y[k] == x[k]);
            }
        }
    }

    /// Whether a pass led from one state to another.
    pub open spec fn pass_made(p: ShrinkPass, a: Self, b: Self) -> bool {
        let n = a.target().len() as int;
        match p {
            ShrinkPass::ShrinkDuplicates => Self::walked(
                a,
                b,
                n,
                Self::duplicates_step(a.target()),
            ),
            ShrinkPass::ZeroChoices => Self::swept_down(a, b, n),
            ShrinkPass::SwapIntegerSign => Self::walked_through(a, b, Self::sign_step()),
            ShrinkPass::BinarySearchIntegerTowardsZero => Self::walked_through(
                a,
                b,
                Self::node_step(),
            ),
            ShrinkPass::LowerCommonNodeOffset => Self::offset_passed(a, b),
            ShrinkPass::RedistributeIntegers => Self::redistributed(a, b),
            ShrinkPass::LowerIntegersTogether => Self::lowered_together(a, b),
            ShrinkPass::LowerAndBump => Self::walked(
                a,
                b,
                if n == 0 {
                    0
                } else if n < 4 {
                    n - 1
                } else {
                    3
                },
                Self::bump_gaps_step(),
            ),
            ShrinkPass::TryShorteningViaIncrement => Self::walked_through(
                a,
                b,
                Self::increments_step(),
            ),
        }
    }

    /// Whether a pass was made up to a point where it ended as `halt` says.
    pub open spec fn pass_cut(p: ShrinkPass, a: Self, b: Self, halt: ShrinkHalt) -> bool {
        let n = a.target().len() as int;
        match p {
            ShrinkPass::ShrinkDuplicates => Self::walk_cut(
                a,
                b,
                n,
                Self::duplicates_step(a.target()),
                Self::duplicates_part(a.target(), halt),
            ),
            ShrinkPass::ZeroChoices => Self::sweeps_cut(a, b, n, halt),
            ShrinkPass::SwapIntegerSign => Self::walk_through_cut(
                a,
                b,
                Self::sign_step(),
                Self::sign_part(halt),
            ),
            ShrinkPass::BinarySearchIntegerTowardsZero => Self::walk_through_cut(
                a,
                b,
                Self::node_step(),
                Self::node_part(halt),
            ),
            ShrinkPass::LowerCommonNodeOffset => Self::offset_pass_cut(a, b, halt),
            ShrinkPass::RedistributeIntegers => Self::redistribution_cut(a, b, halt),
            ShrinkPass::LowerIntegersTogether => Self::lowering_cut(a, b, halt),
            ShrinkPass::LowerAndBump => Self::walk_cut(
                a,
                b,
                if n < 4 {
                    n - 1
                } else {
                    3
                },
                Self::bump_gaps_step(),
                Self::bump_gaps_part(halt),
            ),
            ShrinkPass::TryShorteningViaIncrement => Self::walk_through_cut(
                a,
                b,
                Self::increments_step(),
                Self::increments_part(halt),
            ),
        }
    }

    /// Whether a state differs from another in the debug output alone.
    pub open spec fn noted(a: Self, b: Self) -> bool {
        b == (Shrinker { debug: b.debug, ..a })
    }

    /// Whether a pass was announced and made.
    pub open spec fn pass_run(p: ShrinkPass, a: Self, b: Self) -> bool {
        exists|mid: Self| #[trigger] Self::noted(a, mid) && Self::pass_made(p, mid, b)
    }

    /// Whether a pass was announced and made up to a point where it ended as
    /// `halt` says.
    pub open spec fn pass_run_cut(p: ShrinkPass, a: Self, b: Self, halt: ShrinkHalt) -> bool {
        exists|mid: Self| #[trigger] Self::noted(a, mid) && Self::pass_cut(p, mid, b, halt)
    }

    /// How a round runs the passes in their order.
    pub open spec fn round_step() -> spec_fn(Self, Self, int) -> bool {
        |a: Self, b: Self, t: int| Self::pass_run(pass_order()[t], a, b)
    }

    /// Whether a round was made: every pass in turn, with a new allowance of calls
    /// that bring no improvement.
    pub open spec fn round_made(a: Self, b: Self) -> bool {
        Self::walked(
            Shrinker { calls_at_last_shrink: a.calls, ..a },
            b,
            pass_order().len() as int,
            Self::round_step(),
        )
    }

    /// Whether a round was made up to a pass that ended it as `halt` says: the
    /// passes before that one were made in their order.
    pub open spec fn round_cut(a: Self, b: Self, halt: ShrinkHalt) -> bool {
        exists|mid: Self, k: int| #[trigger]
            Self::walked(
                Shrinker { calls_at_last_shrink: a.calls, ..a },
                mid,
                k,
                Self::round_step(),
            ) && k < pass_order().len() && Self::pass_run_cut(pass_order()[k], mid, b, halt)
    }

    /// How rounds follow each other while they bring improvements.
    pub open spec fn rounds_step() -> spec_fn(Self, Self, int) -> bool {
        |a: Self, b: Self, t: int| Self::round_made(a, b) && b.improvements > a.improvements
    }

    /// Whether rounds were made until one brought no improvement.
    pub open spec fn rounds_made(a: Self, b: Self) -> bool {
        exists|mid: Self, n: int| #[trigger]
            Self::walked(a, mid, n, Self::rounds_step()) && Self::round_made(mid, b)
                && b.improvements == mid.improvements
    }

    /// Whether rounds that brought improvements were made until one ended as
    /// `halt` says.
    pub open spec fn rounds_cut(a: Self, b: Self, halt: ShrinkHalt) -> bool {
        exists|mid: Self, n: int| #[trigger]
            Self::walked(a, mid, n, Self::rounds_step()) && Self::round_cut(mid, b, halt)
    }

    /// Whether a search was made until it ended as `halt` says, the debug output
    /// aside.
    pub open spec fn shrink_cut(a: Self, b: Self, halt: ShrinkHalt) -> bool {
        exists|mid: Self| #[trigger] Self::rounds_cut(a, mid, halt) && Self::noted(mid, b)
    }

    /// Whether a search was made to its end, the debug output aside.
    pub open spec fn shrunk(a: Self, b: Self) -> bool {
        exists|mid: Self| #[trigger] Self::rounds_made(a, mid) && Self::noted(mid, b)
    }

    /// Runs one pass.
    pub fn run_pass(&mut self, pass: ShrinkPass) -> (r: Result<(), ShrinkHalt>)
        requires
            old(self).wf(),
        ensures
            final(self).advances(*old(self)),
            final(self).debug == old(self).debug,
            if pass is LowerCommonNodeOffset {
                final(self).all_changed_nodes@ == Set::<usize>::empty()
            } else {
                final(self).tracks(*old(self))
            },
            final(self).ends(*old(self), r.err()),
            r is Ok ==> Self::pass_made(pass, *old(self), *final(self)),
            r matches Err(halt) ==> Self::pass_cut(pass, *old(self), *final(self), halt),
            r is Ok && final(self).improvements == old(self).improvements ==> pass_tried(
                pass,
                final(self).history@,
                old(self).history@.len(),
                final(self).runs@,
                old(self).target(),
                old(self).all_changed_nodes@,
            ),
    {
        match pass {
            ShrinkPass::ShrinkDuplicates => self.shrink_duplicates(),
            ShrinkPass::ZeroChoices => self.zero_choices(),
            ShrinkPass::SwapIntegerSign => self.swap_integer_sign(),
            ShrinkPass::BinarySearchIntegerTowardsZero => self.binary_search_integer_towards_zero(),
            ShrinkPass::LowerCommonNodeOffset => self.lower_common_node_offset(),
            ShrinkPass::RedistributeIntegers => self.redistribute_integers(),
            ShrinkPass::LowerIntegersTogether => self.lower_integers_together(),
            ShrinkPass::LowerAndBump => self.lower_and_bump(),
            ShrinkPass::TryShorteningViaIncrement => self.try_shortening_via_increment(),
        }
    }

    /// Runs one pass, says so in the debug output and counts what it did.
    fn run_counted(&mut self, pass: ShrinkPass, stats: &mut PassStats) -> (r: Result<
        (),
        ShrinkHalt,
    >)
        requires
            old(self).wf(),
        ensures
            final(self).progressed(*old(self)),
            final(self).ends(*old(self), r.err()),
            r is Ok ==> Self::pass_run(pass, *old(self), *final(self)),
            r matches Err(halt) ==> Self::pass_run_cut(pass, *old(self), *final(self), halt),
            final(stats).name == old(stats).name,
            final(stats).calls == counted(
                old(stats).calls,
                final(self).calls - old(self).calls,
            ),
            final(stats).shrinks == counted(
                old(stats).shrinks,
                final(self).improvements - old(self).improvements,
            ),
            final(stats).deletions == counted(
                old(stats).deletions,
                old(self).target().len() - final(self).target().len(),
            ),
            if pass is LowerCommonNodeOffset {
                final(self).all_changed_nodes@ == Set::<usize>::empty()
            } else {
                final(self).tracks(*old(self))
            },
            r is Ok && final(self).improvements == old(self).improvements ==> pass_tried(
                pass,
                final(self).history@,
                old(self).history@.len(),
                final(self).runs@,
                old(self).target(),
                old(self).all_changed_nodes@,
            ),
            debug_view(final(self).debug) == match debug_view(old(self).debug) {
                Some(lines) => Some(lines.push("Trying shrink pass: "@ + pass_name(pass))),
                None => None,
            },
    {
        let mut line = String::from_str("Trying shrink pass: ");
        line.append(pass.name());
        self.debug_msg(line.as_str());
        let calls: usize = self.calls;
        let improvements: usize = self.improvements;
        let size: usize = self.current_nodes.len();
        let ghost middle = *self;
        assert(middle.target() == old(self).target());
        assert(Self::noted(*old(self), middle));
        let r = self.run_pass(pass);
        stats.calls = stats.calls.saturating_add(self.calls.saturating_sub(calls));
        stats.shrinks = stats.shrinks.saturating_add(
            self.improvements.saturating_sub(improvements),
        );
        stats.deletions = stats.deletions.saturating_add(
            size.saturating_sub(self.current_nodes.len()),
        );
        r
    }

    /// One round: every pass in turn, each with the same allowance of calls
    /// that bring no improvement.
    fn run_round(&mut self, stats: &mut Vec<PassStats>) -> (r: Result<(), ShrinkHalt>)
        requires
            old(self).wf(),
            stats_match(old(stats)@),
        ensures
            final(self).progressed(*old(self)),
            final(self).ends(*old(self), r.err()),
            r is Ok ==> Self::round_made(*old(self), *final(self)),
            r matches Err(halt) ==> Self::round_cut(*old(self), *final(self), halt),
            stats_match(final(stats)@),
            r is Ok && final(self).improvements == old(self).improvements ==> all_passes_tried(
                final(self).history@,
                old(self).history@.len(),
                final(self).runs@,
                old(self).target(),
                old(self).all_changed_nodes@,
            ),
    {
        let ghost start = *self;
        let ghost t = self.target();
        let ghost from = self.history@.len();
        let ghost changed = self.all_changed_nodes@;
        self.calls_at_last_shrink = self.calls;
        assert(self.target() == t);
        let passes = shrink_passes();
        let mut k: usize = 0;
        let ghost step = Self::round_step();
        let ghost fresh = *self;
        let ghost mut marks = seq![*self];
        while k < passes.len()
            invariant
                fresh == (Shrinker { calls_at_last_shrink: start.calls, ..start }),
                step == Self::round_step(),
                Self::walking(marks, fresh, step),
                marks.last() == *self,
                marks.len() == k + 1,
                start == *old(self),
                self.wf(),
                self.progressed(start),
                self.goes_on(start),
                t == start.target(),
                from == start.history@.len(),
                changed == start.all_changed_nodes@,
                passes@ == pass_order(),
                self.improvements == start.improvements && k <= 4 ==> self.all_changed_nodes@
                    == changed,
                stats_match(stats@),
                k <= passes@.len(),
                self.improvements == start.improvements ==> forall|j: int|
                    0 <= j < k ==> pass_tried(
                        #[trigger] pass_order()[j],
                        self.history@,
                        from,
                        self.runs@,
                        t,
                        changed,
                    ),
            decreases passes@.len() - k,
        {
            let ghost before = *self;
            let mut entry: PassStats = stats[k];
            let outcome = self.run_counted(passes[k], &mut entry);
            stats.set(k, entry);
            proof {
                Self::lemma_progressed_transitive(start, before, *self);
                assert(Self::walked(fresh, before, k as int, step));
                if outcome is Ok && self.improvements == start.improvements {
                    assert(before.target() == t);
                    assert forall|j: int| 0 <= j < k + 1 implies pass_tried(
                        #[trigger] pass_order()[j],
                        self.history@,
                        from,
                        self.runs@,
                        t,
                        changed,
                    ) by {
                        let h = if j == k {
                            self.history@
                        } else {
                            before.history@
                        };
                        let f = if j == k {
                            before.history@.len()
                        } else {
                            from
                        };
                        let runs = if j == k {
                            self.runs@
                        } else {
                            before.runs@
                        };
                        lemma_pass_tried_stays(
                            pass_order()[j],
                            h,
                            self.history@,
                            f,
                            from,
                            runs,
                            self.runs@,
                            t,
                            changed,
                        );
                    }
                }
            }
            match outcome {
                Ok(()) => {},
                Err(halt) => {
                    return Err(halt);
                },
            }
            proof {
                Self::lemma_stepped(marks, fresh, step, *self);
                marks = marks.push(*self);
            }
            k = k + 1;
        }
        assert(Self::walked(fresh, *self, pass_order().len() as int, step));
        Ok(())
    }

    /// Rounds of all passes until one brings no improvement.
    pub fn fixate_shrink_passes(&mut self, stats: &mut Vec<PassStats>) -> (r: Result<
        (),
        ShrinkHalt,
    >)
        requires
            old(self).wf(),
            stats_match(old(stats)@),
        ensures
            final(self).progressed(*old(self)),
            final(self).ends(*old(self), r.err()),
            stats_match(final(stats)@),
            r is Ok ==> final(self).is_settled() && Self::rounds_made(*old(self), *final(self)),
            r matches Err(halt) ==> Self::rounds_cut(*old(self), *final(self), halt),
    {
        let ghost start = *self;
        let ghost step = Self::rounds_step();
        let ghost mut marks = seq![*self];
        loop
            invariant
                step == Self::rounds_step(),
                Self::walking(marks, start, step),
                marks.last() == *self,
                start == *old(self),
                self.wf(),
                self.progressed(start),
                self.goes_on(start),
                stats_match(stats@),
            decreases self.max_improvements - self.improvements,
        {
            let ghost before = *self;
            let improvements: usize = self.improvements;
            let outcome = self.run_round(stats);
            proof {
                Self::lemma_progressed_transitive(start, before, *self);
                assert(Self::walked(start, before, marks.len() - 1, step));
                if outcome is Ok && self.improvements == before.improvements {
                    assert(all_passes_tried(
                        self.history@,
                        before.history@.len(),
                        self.runs@,
                        self.target(),
                        before.all_changed_nodes@,
                    ));
                }
            }
            match outcome {
                Ok(()) => {},
                Err(halt) => {
                    return Err(halt);
                },
            }
            if self.improvements == improvements {
                return Ok(());
            }
            proof {
                Self::lemma_stepped(marks, start, step, *self);
                marks = marks.push(*self);
            }
        }
    }

    /// Runs all passes, round after round, until no round brings an
    /// improvement, and reports on them.
    ///
    /// The search also ends at the deadline and when enough improvements were
    /// made, with the best target found so far; that is no error.
    fn shrink_inner(&mut self) -> (r: Result<(), RunError>)
        requires
            old(self).wf(),
        ensures
            final(self).progressed(*old(self)),
            match r {
                Ok(()) => final(self).goes_on(*old(self)) && final(self).is_settled()
                    && Self::shrunk(*old(self), *final(self)) || final(self).excused(
                    *old(self),
                    ShrinkHalt::Stop,
                ) && Self::shrink_cut(*old(self), *final(self), ShrinkHalt::Stop),
                Err(e) => final(self).excused(*old(self), ShrinkHalt::Error(e))
                    && Self::shrink_cut(*old(self), *final(self), ShrinkHalt::Error(e)),
            },
            final(self).was_late(*old(self)) ==> {
                &&& final(self).runs@ == old(self).runs@
                &&& final(self).kept() == old(self).kept()
                &&& final(self).calls == old(self).calls
                &&& final(self).downgraded@ == old(self).downgraded@
                &&& !lacks_simplest(old(self).target()) ==> r == Ok::<(), RunError>(())
            },
            !final(self).goes_on(*old(self)) ==> r == match final(self).runs@.last().halt {
                Some(ShrinkHalt::Error(e)) => Err::<(), RunError>(e),
                _ => Ok(()),
            },
            old(self).deadline is None && !old(self).timed_out && final(self).goes_on(
                *old(self),
            ) ==> match r {
                Ok(()) => final(self).is_settled() && Self::shrunk(*old(self), *final(self))
                    || final(self).improvements >= final(self).max_improvements,
                Err(_) => final(self).met_no_simplest(*old(self)),
            },
    {
        let mut stats = no_stats();
        let initial_size: usize = self.current_nodes.len();
        let initial_calls: usize = self.calls;
        let outcome = self.fixate_shrink_passes(&mut stats);
        let ghost middle = *self;
        self.emit_profile_report(&stats, initial_size, initial_calls);
        proof {
            assert(self.target() == middle.target());
            assert(Self::noted(middle, *self));
            if self.was_late(*old(self)) {
                Self::lemma_late_search_rests(*old(self), *self);
            }
        }
        absorb_stop(outcome)
    }

    /// Shrinks the target as far as the passes can.
    ///
    /// The target that remains is one on which no pass finds anything simpler,
    /// unless the search was cut short.
    pub fn shrink(&mut self) -> (r: Result<(), RunError>)
        requires
            old(self).wf(),
        ensures
            final(self).progressed(*old(self)),
            match r {
                Ok(()) => final(self).goes_on(*old(self)) && final(self).is_settled()
                    && Self::shrunk(*old(self), *final(self)) || final(self).excused(
                    *old(self),
                    ShrinkHalt::Stop,
                ) && Self::shrink_cut(*old(self), *final(self), ShrinkHalt::Stop),
                Err(e) => final(self).excused(*old(self), ShrinkHalt::Error(e))
                    && Self::shrink_cut(*old(self), *final(self), ShrinkHalt::Error(e)),
            },
            final(self).was_late(*old(self)) ==> {
                &&& final(self).runs@ == old(self).runs@
                &&& final(self).kept() == old(self).kept()
                &&& final(self).calls == old(self).calls
                &&& final(self).downgraded@ == old(self).downgraded@
                &&& !lacks_simplest(old(self).target()) ==> r == Ok::<(), RunError>(())
            },
            !final(self).goes_on(*old(self)) ==> r == match final(self).runs@.last().halt {
                Some(ShrinkHalt::Error(e)) => Err::<(), RunError>(e),
                _ => Ok(()),
            },
            old(self).deadline is None && !old(self).timed_out && final(self).goes_on(
                *old(self),
            ) ==> match r {
                Ok(()) => final(self).is_settled() && Self::shrunk(*old(self), *final(self))
                    || final(self).improvements >= final(self).max_improvements,
                Err(_) => final(self).met_no_simplest(*old(self)),
            },
    {
        self.shrink_inner()
    }
}

} // verus!
