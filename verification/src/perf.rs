use vstd::prelude::*;

verus! {

/// The kinds of transition that the engine counts.
#[derive(Clone, Copy, Debug, PartialEq, Eq, Hash, Structural)]
pub enum Transition {
    /// A literal was copied out of its object into the root basket.
    CPY,
    /// A body that is not applied was followed within the same basket.
    DEC,
    /// A basket was opened for an applied binding.
    NEW,
}

/// One more, unless the counter is full.
pub open spec fn bump(n: usize) -> usize {
    if n < usize::MAX {
        (n + 1) as usize
    } else {
        n
    }
}

/// How often each kind of transition was taken.
#[derive(Clone, Copy, Debug, PartialEq, Eq, Structural)]
pub struct Hits {
    pub cpy: usize,
    pub dec: usize,
    pub new: usize,
}

impl Hits {
    /// The count kept for a kind of transition.
    pub open spec fn count(self, t: Transition) -> usize {
        match t {
            Transition::CPY => self.cpy,
            Transition::DEC => self.dec,
            Transition::NEW => self.new,
        }
    }

    /// The counts after one more transition of kind `t`.
    pub open spec fn after(self, t: Transition) -> Hits {
        match t {
            Transition::CPY => Hits { cpy: bump(self.cpy), ..self },
            Transition::DEC => Hits { dec: bump(self.dec), ..self },
            Transition::NEW => Hits { new: bump(self.new), ..self },
        }
    }

    /// How often a transition of kind `t` was taken; `None` where it never
    /// was.
    pub fn get(&self, t: &Transition) -> (r: Option<usize>)
        ensures
            r == (if self.count(*t) == 0 {
                None
            } else {
                Some(self.count(*t))
            }),
    {
        let n = match t {
            Transition::CPY => self.cpy,
            Transition::DEC => self.dec,
            Transition::NEW => self.new,
        };
        if n == 0 {
            None
        } else {
            Some(n)
        }
    }
}

/// A snapshot of the engine's counters.
#[derive(Clone, Copy, Debug, PartialEq, Eq, Structural)]
pub struct Perf {
    /// How many times an operation was invoked.
    pub atoms: usize,
    /// How often each kind of transition was taken.
    pub hits: Hits,
}

impl Perf {
    /// The counters before anything happened.
    pub open spec fn zero() -> Perf {
        Perf { atoms: 0, hits: Hits { cpy: 0, dec: 0, new: 0 } }
    }

    /// No counter of `self` is above the same counter of `later`.
    pub open spec fn le(self, later: Perf) -> bool {
        &&& self.atoms <= later.atoms
        &&& self.hits.cpy <= later.hits.cpy
        &&& self.hits.dec <= later.hits.dec
        &&& self.hits.new <= later.hits.new
    }

    /// The counters before anything happened.
    pub fn new() -> (r: Perf)
        ensures
            r == Perf::zero(),
    {
        Perf { atoms: 0, hits: Hits { cpy: 0, dec: 0, new: 0 } }
    }

    /// Counts one invocation of an operation.
    pub fn atom(&mut self)
        ensures
            *final(self) == (Perf { atoms: bump(old(self).atoms), ..*old(self) }),
    {
        if self.atoms < usize::MAX {
            self.atoms = self.atoms + 1;
        }
    }

    /// Counts one transition of kind `t`.
    pub fn hit(&mut self, t: Transition)
        ensures
            *final(self) == (Perf { hits: old(self).hits.after(t), ..*old(self) }),
    {
        match t {
            Transition::CPY => {
                if self.hits.cpy < usize::MAX {
                    self.hits.cpy = self.hits.cpy + 1;
                }
            },
            Transition::DEC => {
                if self.hits.dec < usize::MAX {
                    self.hits.dec = self.hits.dec + 1;
                }
            },
            Transition::NEW => {
                if self.hits.new < usize::MAX {
                    self.hits.new = self.hits.new + 1;
                }
            },
        }
    }

    /// How many times an operation was invoked.
    pub fn total_atoms(&self) -> (r: usize)
        ensures
            r == self.atoms,
    {
        self.atoms
    }
}

} // verus!
