//! Choice of the next cell to fix and of the orientation it gets.

use vstd::prelude::*;
use crate::domain::Domain;
use crate::grid::{Grid, UsageCounts};

verus! {

/// What to do next.
#[derive(Clone, Copy, Debug, PartialEq, Eq, Structural)]
pub enum Pick {
    /// The cell has a single orientation left and only needs to be shown.
    Forced { cell: usize, orientation: usize },
    /// The cell is the most constrained one; the orientation was chosen by
    /// the usage counts.
    Weighted { cell: usize, orientation: usize },
    /// Every cell is resolved.
    Done,
}

/// Which way the choice of an orientation moves the entropy of the usage
/// counts.
#[derive(Clone, Copy, Debug, PartialEq, Eq, Structural)]
pub enum EntropyPolicy {
    /// Choose the orientation after whose use the counts are most even.
    Maximise,
    /// Choose the orientation after whose use the counts are least even.
    Minimise,
}

/// Whether orientation `o` is to be preferred to orientation `k`. To maximise
/// the entropy the orientation used less often is preferred, to minimise it
/// the one used more often; of two used equally often, the lower one.
pub open spec fn preferred(policy: EntropyPolicy, usage: UsageCounts, o: int, k: int) -> bool {
    match policy {
        EntropyPolicy::Maximise => usage.of(o) < usage.of(k) || (usage.of(o) == usage.of(k) && o
            <= k),
        EntropyPolicy::Minimise => usage.of(o) > usage.of(k) || (usage.of(o) == usage.of(k) && o
            <= k),
    }
}

/// Whether `o` is the member of `dom` that is preferred to all its members.
///
/// Of the distributions of usage that would result from one more use of a
/// member of `dom`, all with the same total, the one that adds to the smallest
/// count is the most even, that is, the one with the greatest Shannon entropy,
/// and the one that adds to the greatest count has the smallest. Ties go to
/// the lowest orientation.
pub open spec fn favoured(policy: EntropyPolicy, usage: UsageCounts, dom: Domain, o: int) -> bool {
    &&& 0 <= o < 4
    &&& dom.has(o)
    &&& dom.has(0) ==> preferred(policy, usage, o, 0)
    &&& dom.has(1) ==> preferred(policy, usage, o, 1)
    &&& dom.has(2) ==> preferred(policy, usage, o, 2)
    &&& dom.has(3) ==> preferred(policy, usage, o, 3)
}

/// Cell `i` is unresolved and has a single orientation left.
pub open spec fn forced_at(g: Grid, i: int) -> bool {
    g.map@[i] == 0 && g.domains@[i].size() == 1
}

/// Cell `i` is unresolved and has a choice of orientations.
pub open spec fn open_at(g: Grid, i: int) -> bool {
    g.map@[i] == 0 && g.domains@[i].size() >= 2
}

/// Cell `cell` is the first, row by row, among the unresolved cells with a
/// single orientation left.
pub open spec fn first_forced(g: Grid, cell: int) -> bool {
    &&& 0 <= cell < g.cells()
    &&& forced_at(g, cell)
    &&& forall|j: int| 0 <= j < cell ==> !forced_at(g, j)
}

/// No unresolved cell has a single orientation left.
pub open spec fn none_forced(g: Grid) -> bool {
    forall|j: int| 0 <= j < g.cells() ==> !forced_at(g, j)
}

/// Cell `cell` is the first, row by row, among the unresolved cells that have
/// a choice and the fewest orientations left.
pub open spec fn most_constrained(g: Grid, cell: int) -> bool {
    &&& 0 <= cell < g.cells()
    &&& open_at(g, cell)
    &&& forall|j: int|
        0 <= j < g.cells() && open_at(g, j) ==> g.domains@[cell].size() <= g.domains@[j].size()
    &&& forall|j: int|
        0 <= j < cell && open_at(g, j) ==> g.domains@[cell].size() < g.domains@[j].size()
}

/// No unresolved cell has a choice of orientations.
pub open spec fn none_open(g: Grid) -> bool {
    forall|j: int| 0 <= j < g.cells() ==> !open_at(g, j)
}

/// Whether `p` is what is to be done next on `g`: the first forced cell if
/// there is one; else the most constrained cell with the orientation that the
/// policy favours; else nothing.
pub open spec fn pick_ok(g: Grid, policy: EntropyPolicy, p: Pick) -> bool {
    match p {
        Pick::Forced { cell, orientation } => {
            &&& first_forced(g, cell as int)
            &&& orientation == g.domains@[cell as int].lowest()
        },
        Pick::Weighted { cell, orientation } => {
            &&& none_forced(g)
            &&& most_constrained(g, cell as int)
            &&& favoured(policy, g.usage, g.domains@[cell as int], orientation as int)
        },
        Pick::Done => none_forced(g) && none_open(g),
    }
}

/// There is only one thing to be done next.
pub proof fn lemma_pick_unique(g: Grid, policy: EntropyPolicy, a: Pick, b: Pick)
    requires
        pick_ok(g, policy, a),
        pick_ok(g, policy, b),
    ensures
        a == b,
{
}

/// What is to be done next depends on the domains, the values shown and the
/// usage counts alone.
pub proof fn lemma_pick_by_contents(g: Grid, h: Grid, policy: EntropyPolicy, p: Pick)
    requires
        g.domains@ == h.domains@,
        g.map@ == h.map@,
        g.usage.counts@ == h.usage.counts@,
        pick_ok(g, policy, p),
    ensures
        pick_ok(h, policy, p),
{
    assert forall|j: int| forced_at(g, j) == forced_at(h, j) by {}
    assert forall|j: int| open_at(g, j) == open_at(h, j) by {}
    match p {
        Pick::Forced { cell, orientation } => {
            assert forall|j: int| 0 <= j < cell implies !forced_at(h, j) by {
                assert(!forced_at(g, j));
            }
        },
        Pick::Weighted { cell, orientation } => {
            assert forall|j: int| 0 <= j < h.cells() implies !forced_at(h, j) by {
                assert(!forced_at(g, j));
            }
            assert forall|j: int| 0 <= j < h.cells() && open_at(h, j) implies h.domains@[cell as int].size()
                <= h.domains@[j].size() by {
                assert(open_at(g, j));
            }
            assert forall|j: int| 0 <= j < cell && open_at(h, j) implies h.domains@[cell as int].size()
                < h.domains@[j].size() by {
                assert(open_at(g, j));
            }
        },
        Pick::Done => {
            assert forall|j: int| 0 <= j < h.cells() implies !forced_at(h, j) by {
                assert(!forced_at(g, j));
            }
            assert forall|j: int| 0 <= j < h.cells() implies !open_at(h, j) by {
                assert(!open_at(g, j));
            }
        },
    }
}

/// Where nothing is left to be done on a well-formed grid, every cell is
/// resolved.
pub proof fn lemma_done_is_complete(g: Grid, policy: EntropyPolicy)
    requires
        g.wf(),
        pick_ok(g, policy, Pick::Done),
    ensures
        g.complete(),
{
    assert forall|i: int| 0 <= i < g.map@.len() implies #[trigger] g.map@[i] != 0 by {
        assert(!forced_at(g, i) && !open_at(g, i));
        assert(g.domains@[i].size() >= 1);
    }
}

impl UsageCounts {
    /// The member of `dom` that the policy favours: the one used least to
    /// maximise the entropy, the one used most to minimise it, the lowest of
    /// them where several have been used equally often; `None` where `dom` is
    /// empty.
    pub fn favoured_in(&self, dom: Domain, policy: EntropyPolicy) -> (r: Option<usize>)
        ensures
            match r {
                Some(o) => favoured(policy, *self, dom, o as int),
                None => dom.size() == 0,
            },
    {
        let mut best: Option<usize> = None;
        let mut o: usize = 0;
        while o < 4
            invariant
                o <= 4,
                match best {
                    Some(b) => b < o && dom.has(b as int) && forall|k: int|
                        0 <= k < o && dom.has(k) ==> preferred(policy, *self, b as int, k),
                    None => forall|k: int| 0 <= k < o ==> !dom.has(k),
                },
            decreases 4 - o,
        {
            if dom.contains(o) {
                match best {
                    Some(b) => {
                        let better: bool = match policy {
                            EntropyPolicy::Maximise => self.get(o) < self.get(b),
                            EntropyPolicy::Minimise => self.get(o) > self.get(b),
                        };
                        if better {
                            best = Some(o);
                        }
                    },
                    None => {
                        best = Some(o);
                    },
                }
            }
            o += 1;
        }
        best
    }
}

impl Grid {
    /// The first unresolved cell with a single orientation left, if any.
    pub fn find_forced(&self) -> (r: Option<usize>)
        requires
            self.wf(),
        ensures
            match r {
                Some(cell) => first_forced(*self, cell as int),
                None => none_forced(*self),
            },
    {
        let n: usize = self.domains.len();
        let mut i: usize = 0;
        while i < n
            invariant
                self.wf(),
                n == self.cells(),
                i <= n,
                forall|j: int| 0 <= j < i ==> !forced_at(*self, j),
            decreases n - i,
        {
            if self.map[i] == 0 && self.domains[i].len() == 1 {
                return Some(i);
            }
            i += 1;
        }
        None
    }

    /// The first of the unresolved cells that have a choice and the fewest
    /// orientations left, if any.
    pub fn find_most_constrained(&self) -> (r: Option<usize>)
        requires
            self.wf(),
        ensures
            match r {
                Some(cell) => most_constrained(*self, cell as int),
                None => none_open(*self),
            },
    {
        let n: usize = self.domains.len();
        let mut best: Option<usize> = None;
        let mut least: usize = 5;
        let mut i: usize = 0;
        while i < n
            invariant
                self.wf(),
                n == self.cells(),
                i <= n,
                match best {
                    Some(b) => {
                        &&& b < i
                        &&& open_at(*self, b as int)
                        &&& least == self.domains@[b as int].size()
                        &&& forall|j: int|
                            0 <= j < i && open_at(*self, j) ==> least <= self.domains@[j].size()
                        &&& forall|j: int|
                            0 <= j < b && open_at(*self, j) ==> least < self.domains@[j].size()
                    },
                    None => least == 5 && forall|j: int| 0 <= j < i ==> !open_at(*self, j),
                },
            decreases n - i,
        {
            if self.map[i] == 0 {
                let size: usize = self.domains[i].len();
                if size >= 2 && size < least {
                    best = Some(i);
                    least = size;
                }
            }
            i += 1;
        }
        best
    }

    /// What is to be done next: show the first forced cell; else fix the most
    /// constrained cell to the orientation that the policy favours; else
    /// nothing.
    pub fn pick(&self, policy: EntropyPolicy) -> (p: Pick)
        requires
            self.wf(),
        ensures
            pick_ok(*self, policy, p),
    {
        if let Some(cell) = self.find_forced() {
            let orientation: usize = match self.domains[cell].first() {
                Some(o) => o,
                None => 0,
            };
            return Pick::Forced { cell, orientation };
        }
        if let Some(cell) = self.find_most_constrained() {
            match self.usage.favoured_in(self.domains[cell], policy) {
                Some(orientation) => {
                    return Pick::Weighted { cell, orientation };
                },
                None => {},
            }
        }
        Pick::Done
    }
}

} // verus!
