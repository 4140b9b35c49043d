//! The grid of cells: for each cell the orientations still possible and the
//! value shown for it, with the count of how often each orientation was used.

use vstd::prelude::*;
use crate::domain::{full_domain, indicator, lemma_subset_size, singleton_of, Domain};

verus! {

/// How often `v` occurs in `s`.
pub open spec fn occurrences(s: Seq<u8>, v: u8) -> int
    decreases s.len(),
{
    if s.len() == 0 {
        0
    } else {
        occurrences(s.drop_last(), v) + indicator(s.last() == v)
    }
}

/// The number of orientations that are still possible, summed over all cells.
pub open spec fn remaining(s: Seq<Domain>) -> int
    decreases s.len(),
{
    if s.len() == 0 {
        0
    } else {
        remaining(s.drop_last()) + s.last().size()
    }
}

/// The value shown for a cell resolved to orientation `o`.
pub open spec fn shown(o: int) -> u8 {
    (o + 1) as u8
}

/// Replacing one element changes the count of `v` by what left and what came.
pub proof fn lemma_occurrences_update(s: Seq<u8>, i: int, x: u8, v: u8)
    requires
        0 <= i < s.len(),
    ensures
        occurrences(s.update(i, x), v) == occurrences(s, v) - indicator(s[i] == v) + indicator(
            x == v,
        ),
    decreases s.len(),
{
    let t = s.update(i, x);
    if i == s.len() - 1 {
        assert(t.drop_last() =~= s.drop_last());
    } else {
        assert(t.drop_last() =~= s.drop_last().update(i, x));
        lemma_occurrences_update(s.drop_last(), i, x, v);
    }
}

/// A value occurs at most as often as the sequence is long, and less often
/// where some element differs from it.
pub proof fn lemma_occurrences_bound(s: Seq<u8>, v: u8)
    ensures
        0 <= occurrences(s, v) <= s.len(),
        (exists|i: int| 0 <= i < s.len() && s[i] != v) ==> occurrences(s, v) < s.len(),
        (forall|i: int| 0 <= i < s.len() ==> s[i] != v) ==> occurrences(s, v) == 0,
    decreases s.len(),
{
    if s.len() > 0 {
        let t = s.drop_last();
        lemma_occurrences_bound(t, v);
        if exists|i: int| 0 <= i < s.len() && s[i] != v {
            let i = choose|i: int| 0 <= i < s.len() && s[i] != v;
            if i < s.len() - 1 {
                assert(t[i] != v);
            }
        }
        if forall|i: int| 0 <= i < s.len() ==> s[i] != v {
            assert forall|i: int| 0 <= i < t.len() implies t[i] != v by {
                assert(t[i] == s[i]);
            }
        }
    }
}

/// Replacing one domain changes the sum by the difference of the two sizes.
pub proof fn lemma_remaining_update(s: Seq<Domain>, i: int, d: Domain)
    requires
        0 <= i < s.len(),
    ensures
        remaining(s.update(i, d)) == remaining(s) - s[i].size() + d.size(),
    decreases s.len(),
{
    let t = s.update(i, d);
    if i == s.len() - 1 {
        assert(t.drop_last() =~= s.drop_last());
    } else {
        assert(t.drop_last() =~= s.drop_last().update(i, d));
        lemma_remaining_update(s.drop_last(), i, d);
    }
}

/// With one to four orientations in every cell, the sum lies between the
/// number of cells and four times that number; it is four times that number
/// where every domain is full, and the number itself only where every cell
/// has a single orientation left.
pub proof fn lemma_remaining_bounds(s: Seq<Domain>)
    requires
        forall|i: int| 0 <= i < s.len() ==> 1 <= (#[trigger] s[i]).size(),
    ensures
        s.len() <= remaining(s) <= 4 * s.len(),
        (forall|i: int| 0 <= i < s.len() ==> #[trigger] s[i] == full_domain()) ==> remaining(s)
            == 4 * s.len(),
        (forall|i: int| 0 <= i < s.len() ==> (#[trigger] s[i]).size() == 1) ==> remaining(s)
            == s.len(),
    decreases s.len(),
{
    if s.len() > 0 {
        let t = s.drop_last();
        assert forall|i: int| 0 <= i < t.len() implies 1 <= (#[trigger] t[i]).size() by {
            assert(t[i] == s[i]);
        }
        lemma_remaining_bounds(t);
        if forall|i: int| 0 <= i < s.len() ==> #[trigger] s[i] == full_domain() {
            assert forall|i: int| 0 <= i < t.len() implies #[trigger] t[i] == full_domain() by {
                assert(t[i] == s[i]);
            }
            assert(s.last() == full_domain());
        }
        if forall|i: int| 0 <= i < s.len() ==> (#[trigger] s[i]).size() == 1 {
            assert forall|i: int| 0 <= i < t.len() implies (#[trigger] t[i]).size() == 1 by {
                assert(t[i] == s[i]);
            }
            assert(s.last().size() == 1);
        }
    }
}

/// However a grid of `n` cells is solved, the domains of its cells lose
/// members at most three times for each cell, and so fewer than `4 * n` times
/// in all: what is left to lose is at most `4 * n` less the orientations that
/// are still possible, of which each cell keeps one.
pub proof fn lemma_shrinks_bounded(g: Grid)
    requires
        g.wf(),
    ensures
        g.shrinks <= 3 * g.cells(),
        g.shrinks <= 4 * g.cells(),
        g.shrinks + remaining(g.domains@) <= 4 * g.cells(),
        g.cells() <= remaining(g.domains@),
{
    lemma_remaining_bounds(g.domains@);
}

/// The domain of a cell would become empty.
#[derive(Clone, Copy, Debug, PartialEq, Eq, Structural)]
pub struct Contradiction {
    /// The cell for which no orientation is left.
    pub cell: usize,
}

/// How many resolved cells hold each orientation.
#[derive(Clone, Copy, Debug)]
pub struct UsageCounts {
    pub counts: [u64; 4],
}

impl UsageCounts {
    /// The count for each orientation is the number of cells of `map` that
    /// show it.
    pub open spec fn tallies(self, map: Seq<u8>) -> bool {
        forall|o: int| 0 <= o < 4 ==> (#[trigger] self.counts@[o]) == occurrences(map, shown(o))
    }

    /// The count for orientation `o`.
    pub open spec fn of(self, o: int) -> int {
        self.counts@[o] as int
    }

    /// Counts that are all zero.
    pub fn new() -> (u: UsageCounts)
        ensures
            forall|o: int| 0 <= o < 4 ==> u.of(o) == 0,
    {
        UsageCounts { counts: [0; 4] }
    }

    /// The count for orientation `o`.
    pub fn get(&self, o: usize) -> (n: u64)
        requires
            o < 4,
        ensures
            n == self.of(o as int),
    {
        self.counts[o]
    }
}

/// A grid of `width` by `height` cells, row by row. For each cell, `domains`
/// holds the orientations that are still possible and `map` the value shown:
/// 0 while the cell is unresolved, else its orientation plus one.
#[derive(Debug)]
pub struct Grid {
    pub width: usize,
    pub height: usize,
    pub domains: Vec<Domain>,
    pub map: Vec<u8>,
    pub usage: UsageCounts,
    /// How often the domain of a cell has lost members so far.
    pub shrinks: usize,
}

impl Grid {
    /// Number of cells.
    pub open spec fn cells(self) -> int {
        self.domains@.len() as int
    }

    /// Whether cell `i` has a value.
    pub open spec fn resolved(self, i: int) -> bool {
        self.map@[i] != 0
    }

    /// The invariant of the grid: both buffers hold one entry for each cell;
    /// no domain is empty; a resolved cell shows the only orientation of its
    /// domain; the counts tally the values shown; and each loss of members was
    /// paid for out of the four orientations that each cell began with.
    pub open spec fn wf(self) -> bool {
        &&& self.width * self.height == self.domains@.len()
        &&& 4 * self.domains@.len() <= usize::MAX
        &&& self.map@.len() == self.domains@.len()
        &&& forall|i: int|
            0 <= i < self.domains@.len() ==> (#[trigger] self.domains@[i]).wf()
                && self.domains@[i].size() >= 1
        &&& forall|i: int|
            0 <= i < self.map@.len() ==> (#[trigger] self.map@[i]) <= 4 && (self.map@[i] != 0
                ==> self.domains@[i] == singleton_of(self.map@[i] - 1))
        &&& self.usage.tallies(self.map@)
        &&& self.shrinks + remaining(self.domains@) <= 4 * self.domains@.len()
    }

    /// Every cell is unresolved and may take any orientation, nothing has been
    /// counted and no domain has shrunk.
    pub open spec fn blank(self) -> bool {
        &&& forall|i: int| 0 <= i < self.cells() ==> #[trigger] self.domains@[i] == full_domain()
        &&& forall|i: int| 0 <= i < self.cells() ==> #[trigger] self.map@[i] == 0
        &&& forall|o: int| 0 <= o < 4 ==> self.usage.of(o) == 0
        &&& self.shrinks == 0
    }

    /// Every cell has a value.
    pub open spec fn complete(self) -> bool {
        forall|i: int| 0 <= i < self.map@.len() ==> #[trigger] self.map@[i] != 0
    }

    /// A grid in which every cell is unresolved and may take any orientation.
    pub fn initialize(width: usize, height: usize) -> (g: Grid)
        requires
            4 * (width * height) <= usize::MAX,
        ensures
            g.wf(),
            g.width == width,
            g.height == height,
            g.cells() == width * height,
            g.blank(),
    {
        let n: usize = width * height;
        let mut domains: Vec<Domain> = Vec::new();
        let mut map: Vec<u8> = Vec::new();
        let mut i: usize = 0;
        while i < n
            invariant
                i <= n,
                domains@.len() == i,
                map@.len() == i,
                forall|k: int| 0 <= k < i ==> #[trigger] domains@[k] == full_domain(),
                forall|k: int| 0 <= k < i ==> #[trigger] map@[k] == 0,
            decreases n - i,
        {
            domains.push(Domain::full());
            map.push(0);
            i += 1;
        }
        let g = Grid { width, height, domains, map, usage: UsageCounts::new(), shrinks: 0 };
        proof {
            lemma_remaining_bounds(g.domains@);
            assert forall|o: int| 0 <= o < 4 implies (#[trigger] g.usage.counts@[o])
                == occurrences(g.map@, shown(o)) by {
                lemma_occurrences_bound(g.map@, shown(o));
                assert(g.usage.of(o) == 0);
            }
        }
        g
    }

    /// Number of cells.
    pub fn len(&self) -> (n: usize)
        ensures
            n == self.cells(),
    {
        self.domains.len()
    }

    /// The orientations still possible for `cell`.
    pub fn domain(&self, cell: usize) -> (d: Domain)
        requires
            cell < self.cells(),
        ensures
            d == self.domains@[cell as int],
    {
        self.domains[cell]
    }

    /// How many orientations are still possible for `cell`.
    pub fn domain_size(&self, cell: usize) -> (n: usize)
        requires
            cell < self.cells(),
        ensures
            n == self.domains@[cell as int].size(),
    {
        self.domains[cell].len()
    }

    /// The value shown for `cell`: 0 while unresolved, else its orientation
    /// plus one.
    pub fn value(&self, cell: usize) -> (v: u8)
        requires
            self.map@.len() == self.cells(),
            cell < self.cells(),
        ensures
            v == self.map@[cell as int],
    {
        self.map[cell]
    }

    /// Whether every cell has a value.
    pub fn is_complete(&self) -> (b: bool)
        ensures
            b == self.complete(),
    {
        let n: usize = self.map.len();
        let mut i: usize = 0;
        while i < n
            invariant
                n == self.map@.len(),
                i <= n,
                forall|j: int| 0 <= j < i ==> #[trigger] self.map@[j] != 0,
            decreases n - i,
        {
            if self.map[i] == 0 {
                return false;
            }
            i += 1;
        }
        true
    }

    /// Fixes `cell` to `orientation`: its domain becomes that single
    /// orientation and its value the orientation plus one. A cell that had no
    /// value yet is counted under its orientation; a domain that had other
    /// members counts as having shrunk.
    pub fn resolve(&mut self, cell: usize, orientation: usize)
        requires
            old(self).wf(),
            cell < old(self).cells(),
            orientation < 4,
            old(self).domains@[cell as int].has(orientation as int),
        ensures
            final(self).wf(),
            final(self).width == old(self).width,
            final(self).height == old(self).height,
            final(self).domains@ == old(self).domains@.update(
                cell as int,
                singleton_of(orientation as int),
            ),
            final(self).map@ == old(self).map@.update(cell as int, shown(orientation as int)),
            forall|o: int|
                0 <= o < 4 ==> final(self).usage.of(o) == old(self).usage.of(o) + indicator(
                    o == orientation && !old(self).resolved(cell as int),
                ),
            final(self).shrinks == old(self).shrinks + indicator(
                old(self).domains@[cell as int].size() > 1,
            ),
    {
        let before: Domain = self.domains[cell];
        let single: Domain = Domain::singleton(orientation);
        let fresh: bool = self.map[cell] == 0;
        let value: u8 = (orientation + 1) as u8;
        proof {
            lemma_subset_size(single, before);
            lemma_remaining_update(self.domains@, cell as int, single);
            assert forall|o: int| 0 <= o < 4 implies occurrences(
                self.map@.update(cell as int, value),
                shown(o),
            ) == occurrences(self.map@, shown(o)) + indicator(o == orientation && fresh) by {
                lemma_occurrences_update(self.map@, cell as int, value, shown(o));
            }
            lemma_occurrences_bound(self.map@, value);
            assert(self.usage.counts@[orientation as int] == occurrences(self.map@, value));
            if fresh {
                assert(self.map@[cell as int] != value);
            }
            lemma_remaining_bounds(self.domains@.update(cell as int, single));
        }
        if before.len() > 1 {
            self.shrinks = self.shrinks + 1;
        }
        self.domains[cell] = single;
        self.map[cell] = value;
        if fresh {
            let n: u64 = self.usage.counts[orientation];
            self.usage.counts[orientation] = n + 1;
        }
        proof {
            assert forall|o: int| 0 <= o < 4 implies (#[trigger] self.usage.counts@[o])
                == occurrences(self.map@, shown(o)) by {
                assert(old(self).usage.counts@[o] == occurrences(old(self).map@, shown(o)));
            }
        }
    }

    /// Removes from the domain of `cell` every orientation that is not in
    /// `allowed`, and says whether any was removed. If none would be left, the
    /// grid stays as it is and the contradiction is reported.
    pub fn restrict(&mut self, cell: usize, allowed: Domain) -> (r: Result<bool, Contradiction>)
        requires
            old(self).wf(),
            cell < old(self).cells(),
            allowed.wf(),
        ensures
            final(self).wf(),
            final(self).width == old(self).width,
            final(self).height == old(self).height,
            final(self).map@ == old(self).map@,
            final(self).usage == old(self).usage,
            match r {
                Ok(shrank) => {
                    &&& old(self).domains@[cell as int].meet(allowed).size() > 0
                    &&& final(self).domains@ == old(self).domains@.update(
                        cell as int,
                        old(self).domains@[cell as int].meet(allowed),
                    )
                    &&& shrank == !old(self).domains@[cell as int].subset_of(allowed)
                    &&& final(self).shrinks == old(self).shrinks + indicator(shrank)
                    &&& remaining(final(self).domains@) + indicator(shrank) <= remaining(
                        old(self).domains@,
                    )
                },
                Err(e) => {
                    &&& old(self).domains@[cell as int].meet(allowed).size() == 0
                    &&& e.cell == cell
                    &&& final(self).domains@ == old(self).domains@
                    &&& final(self).shrinks == old(self).shrinks
                },
            },
    {
        let before: Domain = self.domains[cell];
        let after: Domain = before.intersect(&allowed);
        if after.is_empty() {
            return Err(Contradiction { cell });
        }
        if after == before {
            assert(self.domains@ =~= self.domains@.update(cell as int, after));
            return Ok(false);
        }
        proof {
            lemma_subset_size(after, before);
            lemma_remaining_update(self.domains@, cell as int, after);
            lemma_remaining_bounds(self.domains@.update(cell as int, after));
        }
        self.domains[cell] = after;
        self.shrinks = self.shrinks + 1;
        Ok(true)
    }
}

} // verus!
