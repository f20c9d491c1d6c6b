//! Searches that ask one question at a time.
//!
//! A search is driven from outside: `probe` gives the next number to try and
//! `record` takes the answer. So a question may be as costly as a test run.
use crate::bignum::BigUint;
use crate::bignum::Comparison;
use vstd::prelude::*;

verus! {

/// How far a [`FindInteger`] search has come.
#[derive(Clone, Copy, Debug, PartialEq, Eq, Structural)]
pub enum FindPhase {
    /// Trying one number after the other.
    Linear,
    /// Doubling.
    Growing,
    /// Halving the gap.
    Narrowing,
    /// Nothing is left to ask.
    Done,
}

/// A search for a number that answers yes while its successor answers no,
/// where zero is taken to answer yes. Small answers are found one by one,
/// large ones by doubling and halving.
#[derive(Debug)]
pub struct FindInteger {
    /// How far the search has come.
    pub phase: FindPhase,
    /// The largest number known to answer yes.
    pub lo: usize,
    /// The number to ask next while growing, and one that answers no after.
    pub hi: usize,
}

impl FindInteger {
    /// The fields belong together.
    pub open spec fn wf(&self) -> bool {
        match self.phase {
            FindPhase::Linear => self.lo < 4,
            FindPhase::Growing => 4 <= self.lo < self.hi,
            FindPhase::Narrowing => self.lo + 1 < self.hi,
            FindPhase::Done => true,
        }
    }

    /// What `probe` gives.
    pub open spec fn question(&self) -> Option<usize> {
        match self.phase {
            FindPhase::Linear => Some((self.lo + 1) as usize),
            FindPhase::Growing => Some(self.hi),
            FindPhase::Narrowing => Some((self.lo + (self.hi - self.lo) / 2) as usize),
            FindPhase::Done => None,
        }
    }

    /// The major part of the measure that each answer decreases.
    pub open spec fn stage(&self) -> int {
        match self.phase {
            FindPhase::Linear => 3,
            FindPhase::Growing => 2,
            FindPhase::Narrowing => 1,
            FindPhase::Done => 0,
        }
    }

    /// The minor part of the measure that each answer decreases.
    pub open spec fn room(&self) -> int {
        match self.phase {
            FindPhase::Linear => 4 - self.lo,
            FindPhase::Growing => usize::MAX - self.hi,
            FindPhase::Narrowing => self.hi - self.lo,
            FindPhase::Done => 0,
        }
    }

    /// What the search has found out about the predicate `f`. A search that
    /// is done has found the number, unless the numbers ran out.
    pub open spec fn agrees_with(&self, f: spec_fn(int) -> bool) -> bool {
        &&& self.lo == 0 || f(self.lo as int)
        &&& self.phase is Narrowing ==> !f(self.hi as int)
        &&& self.phase is Done ==> !f(self.lo + 1) || self.lo > usize::MAX / 2
    }

    /// A search that has asked nothing.
    pub open spec fn fresh() -> Self {
        FindInteger { phase: FindPhase::Linear, lo: 0, hi: 5 }
    }

    /// The search after an answer.
    pub open spec fn after(&self, ok: bool) -> Self {
        match self.phase {
            FindPhase::Linear => if !ok {
                FindInteger { phase: FindPhase::Done, ..*self }
            } else if self.lo == 3 {
                FindInteger { phase: FindPhase::Growing, lo: 4, hi: 5 }
            } else {
                FindInteger { lo: (self.lo + 1) as usize, ..*self }
            },
            FindPhase::Growing => if ok && self.hi > usize::MAX / 2 {
                FindInteger { phase: FindPhase::Done, lo: self.hi, ..*self }
            } else if ok {
                FindInteger { lo: self.hi, hi: (self.hi * 2) as usize, ..*self }
            } else if self.lo + 1 < self.hi {
                FindInteger { phase: FindPhase::Narrowing, ..*self }
            } else {
                FindInteger { phase: FindPhase::Done, ..*self }
            },
            FindPhase::Narrowing => {
                let mid = (self.lo + (self.hi - self.lo) / 2) as usize;
                let lo = if ok {
                    mid
                } else {
                    self.lo
                };
                let hi = if ok {
                    self.hi
                } else {
                    mid
                };
                let phase = if hi - lo <= 1 {
                    FindPhase::Done
                } else {
                    self.phase
                };
                FindInteger { phase, lo, hi }
            },
            FindPhase::Done => *self,
        }
    }

    /// A search that has asked nothing.
    pub fn new() -> (r: Self)
        ensures
            r == Self::fresh(),
            r.wf(),
            r.phase is Linear,
            r.lo == 0,
            forall|f: spec_fn(int) -> bool| r.agrees_with(f),
    {
        FindInteger { phase: FindPhase::Linear, lo: 0, hi: 5 }
    }

    /// The next number to try.
    pub fn probe(&self) -> (r: Option<usize>)
        requires
            self.wf(),
        ensures
            r == self.question(),
            r is None <==> self.phase is Done,
    {
        match self.phase {
            FindPhase::Linear => Some(self.lo + 1),
            FindPhase::Growing => Some(self.hi),
            FindPhase::Narrowing => Some(self.lo + (self.hi - self.lo) / 2),
            FindPhase::Done => None,
        }
    }

    /// Takes the answer to the last question.
    pub fn record(&mut self, ok: bool)
        requires
            old(self).wf(),
            old(self).phase !is Done,
        ensures
            *final(self) == old(self).after(ok),
            final(self).wf(),
            final(self).stage() < old(self).stage() || (final(self).stage() == old(self).stage()
                && 0 <= final(self).room() < old(self).room()),
            final(self).stage() >= 0,
            final(self).lo == if ok {
                old(self).question().unwrap()
            } else {
                old(self).lo
            },
            !ok && old(self).phase is Linear ==> final(self).phase is Done,
            forall|f: spec_fn(int) -> bool| #[trigger]
                old(self).agrees_with(f) && ok == f(old(self).question().unwrap() as int)
                    ==> final(self).agrees_with(f),
    {
        match self.phase {
            FindPhase::Linear => {
                if !ok {
                    self.phase = FindPhase::Done;
                } else {
                    self.lo = self.lo + 1;
                    if self.lo == 4 {
                        self.phase = FindPhase::Growing;
                        self.hi = 5;
                    }
                }
            },
            FindPhase::Growing => {
                if ok {
                    self.lo = self.hi;
                    if self.hi > usize::MAX / 2 {
                        self.phase = FindPhase::Done;
                    } else {
                        self.hi = self.hi * 2;
                    }
                } else if self.lo + 1 < self.hi {
                    self.phase = FindPhase::Narrowing;
                } else {
                    self.phase = FindPhase::Done;
                }
            },
            FindPhase::Narrowing => {
                let mid: usize = self.lo + (self.hi - self.lo) / 2;
                if ok {
                    self.lo = mid;
                } else {
                    self.hi = mid;
                }
                if self.hi - self.lo <= 1 {
                    self.phase = FindPhase::Done;
                }
            },
            FindPhase::Done => {},
        }
    }

    /// The largest number known to answer yes.
    pub fn found(&self) -> (r: usize)
        ensures
            r == self.lo,
    {
        self.lo
    }
}

/// How far a [`BinSearchDownBig`] search has come.
#[derive(Clone, Copy, Debug, PartialEq, Eq, Structural)]
pub enum DownPhase {
    /// The lower end is to be asked.
    Bottom,
    /// Halving the gap.
    Narrowing,
    /// Nothing is left to ask.
    Done,
}

/// A search between two numbers for the smallest that answers yes, where the
/// upper one is taken to answer yes.
#[derive(Debug)]
pub struct BinSearchDownBig {
    /// How far the search has come.
    pub phase: DownPhase,
    /// Once asked, a number that answers no.
    pub lo: BigUint,
    /// The smallest number known to answer yes.
    pub hi: BigUint,
}

/// The view of a [`BinSearchDownBig`].
pub struct DownView {
    pub phase: DownPhase,
    pub lo: nat,
    pub hi: nat,
}

impl DownView {
    /// What is asked next.
    pub open spec fn question(self) -> Option<nat> {
        match self.phase {
            DownPhase::Bottom => Some(self.lo),
            DownPhase::Narrowing => Some((self.lo + self.hi) / 2),
            DownPhase::Done => None,
        }
    }

    /// The search after an answer.
    pub open spec fn after(self, ok: bool) -> Self {
        let mid = (self.lo + self.hi) / 2;
        let lo = if self.phase is Narrowing && !ok {
            mid
        } else {
            self.lo
        };
        let hi = if !ok {
            self.hi
        } else if self.phase is Bottom {
            self.lo
        } else {
            mid
        };
        let phase = if self.phase is Bottom && ok || lo + 1 >= hi {
            DownPhase::Done
        } else {
            DownPhase::Narrowing
        };
        DownView { phase, lo, hi }
    }
}

impl View for BinSearchDownBig {
    type V = DownView;

    open spec fn view(&self) -> DownView {
        DownView { phase: self.phase, lo: self.lo@, hi: self.hi@ }
    }
}

impl BinSearchDownBig {
    /// The fields belong together.
    pub open spec fn wf(&self) -> bool {
        self.phase is Narrowing ==> self.lo@ + 1 < self.hi@
    }

    /// What `probe` gives.
    pub open spec fn question(&self) -> Option<nat> {
        match self.phase {
            DownPhase::Bottom => Some(self.lo@),
            DownPhase::Narrowing => Some((self.lo@ + self.hi@) / 2),
            DownPhase::Done => None,
        }
    }

    /// The major part of the measure that each answer decreases.
    pub open spec fn stage(&self) -> int {
        match self.phase {
            DownPhase::Bottom => 2,
            DownPhase::Narrowing => 1,
            DownPhase::Done => 0,
        }
    }

    /// The minor part of the measure that each answer decreases.
    pub open spec fn room(&self) -> int {
        if self.phase is Narrowing {
            self.hi@ - self.lo@
        } else {
            0
        }
    }

    /// What the search has found out about the predicate `f`.
    pub open spec fn agrees_with(&self, f: spec_fn(int) -> bool) -> bool {
        &&& f(self.hi@ as int)
        &&& self.phase is Narrowing ==> !f(self.lo@ as int)
        &&& self.phase is Done ==> self.lo@ == self.hi@ || (!f(self.lo@ as int) && self.hi@
            <= self.lo@ + 1)
    }

    /// A search between `lo` and `hi` that has asked nothing.
    pub fn new(lo: BigUint, hi: BigUint) -> (r: Self)
        ensures
            r.wf(),
            r.phase is Bottom,
            r.lo@ == lo@,
            r.hi@ == hi@,
    {
        BinSearchDownBig { phase: DownPhase::Bottom, lo, hi }
    }

    /// The next number to try.
    pub fn probe(&self) -> (r: Option<BigUint>)
        requires
            self.wf(),
        ensures
            match r {
                Some(n) => self.question() == Some(n@) && self.phase !is Done,
                None => self.phase is Done,
            },
    {
        match self.phase {
            DownPhase::Bottom => Some(self.lo.clone()),
            DownPhase::Narrowing => Some(self.lo.plus(&self.hi).divide_small(2).0),
            DownPhase::Done => None,
        }
    }

    /// Takes the answer to the last question.
    pub fn record(&mut self, ok: bool)
        requires
            old(self).wf(),
            old(self).phase !is Done,
        ensures
            final(self)@ == old(self)@.after(ok),
            final(self).wf(),
            final(self).stage() < old(self).stage() || (final(self).stage() == old(self).stage()
                && 0 <= final(self).room() < old(self).room()),
            final(self).stage() >= 0,
            final(self).hi@ == if ok {
                old(self).question().unwrap()
            } else {
                old(self).hi@
            },
            forall|f: spec_fn(int) -> bool| #[trigger]
                old(self).agrees_with(f) && ok == f(old(self).question().unwrap() as int)
                    ==> final(self).agrees_with(f),
    {
        match self.phase {
            DownPhase::Bottom => {
                if ok {
                    self.hi = self.lo.clone();
                    self.phase = DownPhase::Done;
                    return;
                }
            },
            DownPhase::Narrowing => {
                let mid = self.lo.plus(&self.hi).divide_small(2).0;
                if ok {
                    self.hi = mid;
                } else {
                    self.lo = mid;
                }
            },
            DownPhase::Done => {},
        }
        let next = self.lo.plus(&BigUint::from_u128(1));
        if next.compare(&self.hi) == Comparison::Less {
            self.phase = DownPhase::Narrowing;
        } else {
            self.phase = DownPhase::Done;
        }
    }

    /// The smallest number known to answer yes.
    pub fn found(&self) -> (r: BigUint)
        ensures
            r@ == self.hi@,
    {
        self.hi.clone()
    }
}

} // verus!
