//! The profile of a shrink: what each pass did.
use super::debug_view;
use super::gap;
use super::ShrinkProbe;
use super::Shrinker;
use crate::decimal::append_usize;
use crate::decimal::decimal;
use vstd::prelude::*;
use vstd::string::StringExecFns;

verus! {

/// What one pass did.
#[derive(Clone, Copy, Debug)]
pub struct PassStats {
    /// The name of the pass.
    pub name: &'static str,
    /// How many tests it ran.
    pub calls: usize,
    /// How many improvements it made.
    pub shrinks: usize,
    /// How many choices it removed.
    pub deletions: usize,
}

/// The order of passes in the report: more calls first, then fewer deletions,
/// then fewer improvements.
pub open spec fn listed_before(a: PassStats, b: PassStats) -> bool {
    a.calls > b.calls || (a.calls == b.calls && (a.deletions < b.deletions || (a.deletions
        == b.deletions && a.shrinks < b.shrinks)))
}

/// A listing with `x` added behind all that it does not come before.
pub open spec fn listed_with(s: Seq<PassStats>, x: PassStats) -> Seq<PassStats>
    decreases s.len(),
{
    if s.len() > 0 && listed_before(x, s.last()) {
        listed_with(s.drop_last(), x).push(s.last())
    } else {
        s.push(x)
    }
}

/// The passes that ran and were useful, or were not, in the order of the
/// report.
pub open spec fn listing(s: Seq<PassStats>, useful: bool) -> Seq<PassStats>
    decreases s.len(),
{
    if s.len() == 0 {
        Seq::empty()
    } else {
        let front = listing(s.drop_last(), useful);
        if s.last().calls > 0 && (s.last().shrinks > 0) == useful {
            listed_with(front, s.last())
        } else {
            front
        }
    }
}

/// The plural ending.
pub open spec fn plural(n: nat) -> Seq<char> {
    if n == 1 {
        ""@
    } else {
        "s"@
    }
}

/// The line on one pass.
pub open spec fn pass_line(p: PassStats) -> Seq<char> {
    "  * "@ + p.name@ + " made "@ + decimal(p.calls as nat) + " call"@ + plural(p.calls as nat)
        + " of which "@ + decimal(p.shrinks as nat) + " shrank, deleting "@ + decimal(
        p.deletions as nat,
    ) + " choice"@ + plural(p.deletions as nat) + "."@
}

/// The line on the whole shrink.
pub open spec fn summary_line(calls: nat, shrinks: nat, deleted: nat, size: nat) -> Seq<char> {
    "Shrinking made a total of "@ + decimal(calls) + " call"@ + plural(calls) + " of which "@
        + decimal(shrinks) + " shrank. This deleted "@ + decimal(deleted) + " choice"@ + plural(
        deleted,
    ) + " out of "@ + decimal(size) + "."@
}

/// The lines on the useful or the useless passes.
pub open spec fn bucket_lines(s: Seq<PassStats>, useful: bool) -> Seq<Seq<char>> {
    seq![
        ""@,
        if useful {
            "Useful passes:"@
        } else {
            "Useless passes:"@
        },
        ""@,
    ] + listing(s, useful).map_values(|p: PassStats| pass_line(p))
}

/// The whole report.
pub open spec fn report_lines(
    s: Seq<PassStats>,
    calls: nat,
    shrinks: nat,
    deleted: nat,
    size: nat,
) -> Seq<Seq<char>> {
    seq![
        "---------------------"@,
        "Shrink pass profiling"@,
        "---------------------"@,
        ""@,
        summary_line(calls, shrinks, deleted, size),
    ] + bucket_lines(s, true) + bucket_lines(s, false) + seq![""@]
}

fn plural_text(n: usize) -> (r: &'static str)
    ensures
        r@ == plural(n as nat),
{
    if n == 1 {
        ""
    } else {
        "s"
    }
}

fn is_listed_before(a: &PassStats, b: &PassStats) -> (r: bool)
    ensures
        r == listed_before(*a, *b),
{
    a.calls > b.calls || (a.calls == b.calls && (a.deletions < b.deletions || (a.deletions
        == b.deletions && a.shrinks < b.shrinks)))
}

proof fn lemma_listed_with_split(s: Seq<PassStats>, x: PassStats, k: int)
    requires
        0 <= k <= s.len(),
        forall|j: int| k <= j < s.len() ==> listed_before(x, #[trigger] s[j]),
        k > 0 ==> !listed_before(x, s[k - 1]),
    ensures
        listed_with(s, x) == s.insert(k, x),
    decreases s.len(),
{
    if k < s.len() {
        lemma_listed_with_split(s.drop_last(), x, k);
        assert(s.insert(k, x) =~= s.drop_last().insert(k, x).push(s.last()));
    } else {
        assert(s.insert(k, x) =~= s.push(x));
    }
}

/// The passes that ran and were useful, or were not, in the order of the
/// report.
pub fn list_passes(stats: &Vec<PassStats>, useful: bool) -> (r: Vec<PassStats>)
    ensures
        r@ == listing(stats@, useful),
{
    let mut out: Vec<PassStats> = Vec::new();
    let mut i: usize = 0;
    assert(stats@.take(0) =~= Seq::empty());
    while i < stats.len()
        invariant
            i <= stats@.len(),
            out@ == listing(stats@.take(i as int), useful),
        decreases stats@.len() - i,
    {
        let x = stats[i];
        proof {
            assert(stats@.take(i + 1).drop_last() =~= stats@.take(i as int));
            assert(stats@.take(i + 1).last() == x);
        }
        if x.calls > 0 && (x.shrinks > 0) == useful {
            let mut k: usize = out.len();
            while k > 0 && is_listed_before(&x, &out[k - 1])
                invariant
                    k <= out@.len(),
                    forall|j: int| k <= j < out@.len() ==> listed_before(x, #[trigger] out@[j]),
                decreases k,
            {
                k = k - 1;
            }
            proof {
                lemma_listed_with_split(out@, x, k as int);
            }
            out.insert(k, x);
        }
        i = i + 1;
    }
    assert(stats@.take(stats@.len() as int) =~= stats@);
    out
}

fn pass_text(p: &PassStats) -> (r: String)
    ensures
        r@ == pass_line(*p),
{
    let mut out = String::from_str("  * ");
    out.append(p.name);
    out.append(" made ");
    append_usize(&mut out, p.calls);
    out.append(" call");
    out.append(plural_text(p.calls));
    out.append(" of which ");
    append_usize(&mut out, p.shrinks);
    out.append(" shrank, deleting ");
    append_usize(&mut out, p.deletions);
    out.append(" choice");
    out.append(plural_text(p.deletions));
    out.append(".");
    out
}

fn summary_text(calls: usize, shrinks: usize, deleted: usize, size: usize) -> (r: String)
    ensures
        r@ == summary_line(calls as nat, shrinks as nat, deleted as nat, size as nat),
{
    let mut out = String::from_str("Shrinking made a total of ");
    append_usize(&mut out, calls);
    out.append(" call");
    out.append(plural_text(calls));
    out.append(" of which ");
    append_usize(&mut out, shrinks);
    out.append(" shrank. This deleted ");
    append_usize(&mut out, deleted);
    out.append(" choice");
    out.append(plural_text(deleted));
    out.append(" out of ");
    append_usize(&mut out, size);
    out.append(".");
    out
}

impl<P: ShrinkProbe> Shrinker<P> {
    fn emit_bucket(&mut self, stats: &Vec<PassStats>, useful: bool)
        requires
            old(self).debug is Some,
        ensures
            debug_view(final(self).debug) == Some(
                debug_view(old(self).debug).unwrap() + bucket_lines(stats@, useful),
            ),
            *final(self) == (Shrinker { debug: final(self).debug, ..*old(self) }),
    {
        let ghost before = debug_view(self.debug).unwrap();
        self.debug_msg("");
        if useful {
            self.debug_msg("Useful passes:");
        } else {
            self.debug_msg("Useless passes:");
        }
        self.debug_msg("");
        let bucket = list_passes(stats, useful);
        let ghost all = listing(stats@, useful).map_values(|p: PassStats| pass_line(p));
        let ghost head = seq![
            ""@,
            if useful {
                "Useful passes:"@
            } else {
                "Useless passes:"@
            },
            ""@,
        ];
        let mut i: usize = 0;
        assert(all.take(0) =~= Seq::empty());
        assert(debug_view(self.debug).unwrap() =~= before + head + all.take(0));
        while i < bucket.len()
            invariant
                i <= bucket@.len(),
                bucket@ == listing(stats@, useful),
                all == bucket@.map_values(|p: PassStats| pass_line(p)),
                self.debug is Some,
                debug_view(self.debug) == Some(before + head + all.take(i as int)),
                *self == (Shrinker { debug: self.debug, ..*old(self) }),
            decreases bucket@.len() - i,
        {
            let line = pass_text(&bucket[i]);
            self.debug_msg(line.as_str());
            proof {
                assert(all[i as int] == pass_line(bucket@[i as int]));
                assert(all.take(i + 1) =~= all.take(i as int).push(all[i as int]));
                assert(debug_view(self.debug).unwrap() =~= before + head + all.take(i + 1));
            }
            i = i + 1;
        }
        proof {
            assert(all.take(all.len() as int) =~= all);
            assert(debug_view(self.debug).unwrap() =~= before + bucket_lines(stats@, useful));
        }
    }

    /// Writes the report to the debug output, where that is wanted. The passes
    /// that ran are listed by calls, the useful ones apart from the others.
    pub fn emit_profile_report(
        &mut self,
        stats: &Vec<PassStats>,
        initial_size: usize,
        initial_calls: usize,
    )
        ensures
            debug_view(final(self).debug) == match debug_view(old(self).debug) {
                None => None,
                Some(lines) => Some(
                    lines + report_lines(
                        stats@,
                        gap(old(self).calls, initial_calls) as nat,
                        old(self).improvements as nat,
                        gap(initial_size, old(self).current_nodes.len()) as nat,
                        initial_size as nat,
                    ),
                ),
            },
            *final(self) == (Shrinker { debug: final(self).debug, ..*old(self) }),
    {
        if self.debug.is_none() {
            return;
        }
        let ghost before = debug_view(self.debug).unwrap();
        let total_calls: usize = self.calls.saturating_sub(initial_calls);
        let total_deleted: usize = initial_size.saturating_sub(self.current_nodes.len());
        let shrinks: usize = self.improvements;
        self.debug_msg("---------------------");
        self.debug_msg("Shrink pass profiling");
        self.debug_msg("---------------------");
        self.debug_msg("");
        let summary = summary_text(total_calls, shrinks, total_deleted, initial_size);
        self.debug_msg(summary.as_str());
        let ghost head = seq![
            "---------------------"@,
            "Shrink pass profiling"@,
            "---------------------"@,
            ""@,
            summary@,
        ];
        assert(debug_view(self.debug).unwrap() =~= before + head);
        self.emit_bucket(stats, true);
        self.emit_bucket(stats, false);
        self.debug_msg("");
        proof {
            let body = head + bucket_lines(stats@, true) + bucket_lines(stats@, false);
            assert(debug_view(self.debug).unwrap() =~= before + (body + seq![""@]));
        }
    }
}

} // verus!
