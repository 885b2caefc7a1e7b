//! The statistics of a run.

use vstd::prelude::*;

verus! {

/// How many references a run has seen, and what became of them.
#[derive(Clone, Copy, Debug, PartialEq, Eq)]
pub struct Counts {
    /// Reference targets seen.
    pub urls: usize,
    /// Targets that are paths: no web address and no bare fragment.
    pub paths: usize,
    /// Paths that lead to no file.
    pub missing: usize,
    /// Missing paths whose base name some known file bears.
    pub matches: usize,
    /// Matches with more than one known file of that base name.
    pub ambiguous: usize,
    /// Matches where two or more candidates ranked best.
    pub ties: usize,
}

impl Counts {
    /// Counters that are all zero.
    pub open spec fn zero() -> Counts {
        Counts { urls: 0, paths: 0, missing: 0, matches: 0, ambiguous: 0, ties: 0 }
    }

    /// Every counter can still grow by `n`.
    pub open spec fn has_room(self, n: int) -> bool {
        &&& self.urls + n <= usize::MAX
        &&& self.paths + n <= usize::MAX
        &&& self.missing + n <= usize::MAX
        &&& self.matches + n <= usize::MAX
        &&& self.ambiguous + n <= usize::MAX
        &&& self.ties + n <= usize::MAX
    }

    /// No counter is above `n`.
    pub open spec fn at_most(self, n: int) -> bool {
        &&& self.urls <= n
        &&& self.paths <= n
        &&& self.missing <= n
        &&& self.matches <= n
        &&& self.ambiguous <= n
        &&& self.ties <= n
    }

    /// The counters with those of `other` added, one by one.
    pub open spec fn plus(self, other: Counts) -> Counts {
        Counts {
            urls: (self.urls + other.urls) as usize,
            paths: (self.paths + other.paths) as usize,
            missing: (self.missing + other.missing) as usize,
            matches: (self.matches + other.matches) as usize,
            ambiguous: (self.ambiguous + other.ambiguous) as usize,
            ties: (self.ties + other.ties) as usize,
        }
    }

    /// Counters that are all zero.
    pub fn new() -> (res: Counts)
        ensures
            res == Counts::zero(),
    {
        Counts { urls: 0, paths: 0, missing: 0, matches: 0, ambiguous: 0, ties: 0 }
    }

    /// Whether every counter can still grow by `n`.
    pub fn can_grow_by(&self, n: usize) -> (res: bool)
        ensures
            res == self.has_room(n as int),
    {
        let limit = usize::MAX - n;
        self.urls <= limit && self.paths <= limit && self.missing <= limit && self.matches <= limit
            && self.ambiguous <= limit && self.ties <= limit
    }
}

impl Default for Counts {
    fn default() -> (res: Counts)
        ensures
            res == Counts::zero(),
    {
        Counts::new()
    }
}

} // verus!
