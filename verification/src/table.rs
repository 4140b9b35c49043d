//! Directions on the grid and the table that says which orientations may sit
//! next to each other.

use vstd::prelude::*;
use crate::domain::{lemma_same_members, Domain};

verus! {

/// The direction that points back from a neighbour reached in direction `d`.
/// Direction 0 leads to the next row, 1 to the next column, 2 to the previous
/// row and 3 to the previous column.
pub open spec fn opposite(d: int) -> int {
    (d + 2) % 4
}

/// The edge of the unrotated tile that a tile in orientation `o` shows toward
/// direction `d`. Edge 0 is the last pixel row, 1 the first pixel column, 2 the
/// first pixel row and 3 the last pixel column.
pub open spec fn facing_edge(o: int, d: int) -> int {
    (o + 4 - d) % 4
}

/// Whether orientation `o1` may have orientation `o2` as its neighbour in
/// direction `d`, for a tile whose four edges have the fingerprints `fp`: the
/// edge that `o1` shows toward `d` equals the edge that `o2` shows back.
pub open spec fn derived_compatible(fp: Seq<u64>, o1: int, o2: int, d: int) -> bool {
    fp[facing_edge(o1, d)] == fp[facing_edge(o2, opposite(d))]
}

/// Position of the row for orientation `o` and direction `d`.
pub open spec fn row_index(o: int, d: int) -> int {
    o * 4 + d
}

/// The direction opposite to `d`.
pub fn opposite_direction(d: usize) -> (r: usize)
    requires
        d < 4,
    ensures
        r == opposite(d as int),
        r < 4,
        opposite(r as int) == d,
{
    (d + 2) % 4
}

/// The edge of the unrotated tile that orientation `o` shows toward `d`.
pub fn edge_facing(o: usize, d: usize) -> (e: usize)
    requires
        o < 4,
        d < 4,
    ensures
        e == facing_edge(o as int, d as int),
        e < 4,
{
    (o + 4 - d) % 4
}

/// For each orientation `o1`, orientation `o2` and direction `d`, whether `o2`
/// may be the neighbour of `o1` in direction `d`. Row `o1 * 4 + d` holds the
/// orientations `o2` for which that is so.
#[derive(Clone, Copy, Debug)]
pub struct CompatibilityTable {
    pub rows: [Domain; 16],
}

impl CompatibilityTable {
    /// Every row is a well-formed domain.
    pub open spec fn wf(self) -> bool {
        forall|i: int| 0 <= i < 16 ==> (#[trigger] self.rows@[i]).wf()
    }

    /// The orientations that may be the neighbour of `o` in direction `d`.
    pub open spec fn allowed(self, o: int, d: int) -> Domain
        recommends
            0 <= o < 4,
            0 <= d < 4,
    {
        self.rows@[row_index(o, d)]
    }

    /// The entry for `o1`, `o2` and `d`.
    pub open spec fn compatible(self, o1: int, o2: int, d: int) -> bool
        recommends
            0 <= o1 < 4,
            0 <= o2 < 4,
            0 <= d < 4,
    {
        self.allowed(o1, d).has(o2)
    }

    /// The table holds, entry by entry, what the fingerprints `fp` give.
    pub open spec fn derived_from(self, fp: Seq<u64>) -> bool {
        forall|o1: int, o2: int, d: int|
            0 <= o1 < 4 && 0 <= o2 < 4 && 0 <= d < 4 ==> #[trigger] self.compatible(o1, o2, d)
                == derived_compatible(fp, o1, o2, d)
    }

    /// Swapping the two orientations and reversing the direction keeps every
    /// entry.
    pub open spec fn symmetric(self) -> bool {
        forall|o1: int, o2: int, d: int|
            0 <= o1 < 4 && 0 <= o2 < 4 && 0 <= d < 4 ==> #[trigger] self.compatible(o1, o2, d)
                == self.compatible(o2, o1, opposite(d))
    }

    /// The table in which every entry is `value`.
    pub fn uniform(value: bool) -> (t: CompatibilityTable)
        ensures
            t.wf(),
            forall|o1: int, o2: int, d: int|
                0 <= o1 < 4 && 0 <= o2 < 4 && 0 <= d < 4 ==> #[trigger] t.compatible(o1, o2, d)
                    == value,
    {
        let row = Domain::from_flags(value, value, value, value);
        let t = CompatibilityTable { rows: [row; 16] };
        assert forall|o1: int, o2: int, d: int|
            0 <= o1 < 4 && 0 <= o2 < 4 && 0 <= d < 4 implies #[trigger] t.compatible(o1, o2, d)
            == value by {
            assert(t.rows@[row_index(o1, d)] == row);
        }
        t
    }

    /// The table of a tile whose four edges have the fingerprints `fp`.
    pub fn from_fingerprints(fp: &[u64; 4]) -> (t: CompatibilityTable)
        ensures
            t.wf(),
            t.derived_from(fp@),
            t.symmetric(),
    {
        let mut t = CompatibilityTable::uniform(false);
        let mut i: usize = 0;
        while i < 16
            invariant
                i <= 16,
                t.wf(),
                forall|k: int, o2: int|
                    0 <= k < i && 0 <= o2 < 4 ==> (#[trigger] t.rows@[k].has(o2))
                        == derived_compatible(fp@, k / 4, o2, k % 4),
            decreases 16 - i,
        {
            let o1: usize = i / 4;
            let d: usize = i % 4;
            let back: usize = opposite_direction(d);
            let shown: u64 = fp[edge_facing(o1, d)];
            let row = Domain::from_flags(
                shown == fp[edge_facing(0, back)],
                shown == fp[edge_facing(1, back)],
                shown == fp[edge_facing(2, back)],
                shown == fp[edge_facing(3, back)],
            );
            t.rows[i] = row;
            i += 1;
        }
        proof {
            assert forall|o1: int, o2: int, d: int|
                0 <= o1 < 4 && 0 <= o2 < 4 && 0 <= d < 4 implies #[trigger] t.compatible(
                o1,
                o2,
                d,
            ) == derived_compatible(fp@, o1, o2, d) by {
                let k = row_index(o1, d);
                assert(k / 4 == o1 && k % 4 == d);
                assert(t.rows@[k].has(o2) == derived_compatible(fp@, k / 4, o2, k % 4));
            }
            lemma_derived_table_symmetric(t, fp@);
        }
        t
    }

    /// The entry for `o1`, `o2` and `d`.
    pub fn get(&self, o1: usize, o2: usize, d: usize) -> (b: bool)
        requires
            o1 < 4,
            o2 < 4,
            d < 4,
        ensures
            b == self.compatible(o1 as int, o2 as int, d as int),
    {
        self.rows[o1 * 4 + d].contains(o2)
    }

    /// The orientations that may be the neighbour of `o` in direction `d`.
    pub fn row(&self, o: usize, d: usize) -> (r: Domain)
        requires
            o < 4,
            d < 4,
        ensures
            r == self.allowed(o as int, d as int),
    {
        self.rows[o * 4 + d]
    }

    /// Sets the entry for `o1`, `o2` and `d` to `value` and keeps all others.
    pub fn set(&mut self, o1: usize, o2: usize, d: usize, value: bool)
        requires
            old(self).wf(),
            o1 < 4,
            o2 < 4,
            d < 4,
        ensures
            final(self).wf(),
            final(self).compatible(o1 as int, o2 as int, d as int) == value,
            forall|a: int, b: int, c: int|
                0 <= a < 4 && 0 <= b < 4 && 0 <= c < 4 && !(a == o1 && b == o2 && c == d)
                    ==> #[trigger] final(self).compatible(a, b, c) == old(self).compatible(
                    a,
                    b,
                    c,
                ),
    {
        let i: usize = o1 * 4 + d;
        let row = self.rows[i];
        let m0 = if o2 == 0 {
            value
        } else {
            row.contains(0)
        };
        let m1 = if o2 == 1 {
            value
        } else {
            row.contains(1)
        };
        let m2 = if o2 == 2 {
            value
        } else {
            row.contains(2)
        };
        let m3 = if o2 == 3 {
            value
        } else {
            row.contains(3)
        };
        self.rows[i] = Domain::from_flags(m0, m1, m2, m3);
    }
}

/// The compatibility of a tile with itself is symmetric: `o2` may follow `o1`
/// in direction `d` exactly when `o1` may follow `o2` in the opposite direction.
pub proof fn lemma_derived_symmetric(fp: Seq<u64>, o1: int, o2: int, d: int)
    requires
        0 <= o1 < 4,
        0 <= o2 < 4,
        0 <= d < 4,
    ensures
        derived_compatible(fp, o1, o2, d) == derived_compatible(fp, o2, o1, opposite(d)),
{
    assert(opposite(opposite(d)) == d);
}

/// A table that holds what the fingerprints of a tile give is symmetric.
pub proof fn lemma_derived_table_symmetric(t: CompatibilityTable, fp: Seq<u64>)
    requires
        t.derived_from(fp),
    ensures
        t.symmetric(),
{
    assert forall|o1: int, o2: int, d: int|
        0 <= o1 < 4 && 0 <= o2 < 4 && 0 <= d < 4 implies #[trigger] t.compatible(o1, o2, d)
        == t.compatible(o2, o1, opposite(d)) by {
        lemma_derived_symmetric(fp, o1, o2, d);
        assert(t.compatible(o2, o1, opposite(d)) == derived_compatible(fp, o2, o1, opposite(d)));
    }
}

/// In a table derived from fingerprints, every orientation may stand beside
/// the orientation turned by half a turn from it, in every direction: the two
/// show each other the same edge of the tile.
pub proof fn lemma_derived_half_turn(fp: Seq<u64>, o: int, d: int)
    requires
        0 <= o < 4,
        0 <= d < 4,
    ensures
        derived_compatible(fp, o, (o + 2) % 4, d),
        facing_edge((o + 2) % 4, opposite(d)) == facing_edge(o, d),
{
}

/// The fingerprints of a tile determine its table.
pub proof fn lemma_derived_table_unique(a: CompatibilityTable, b: CompatibilityTable, fp: Seq<u64>)
    requires
        a.wf(),
        b.wf(),
        a.derived_from(fp),
        b.derived_from(fp),
    ensures
        a == b,
{
    assert forall|i: int| 0 <= i < 16 implies a.rows[i] == b.rows[i] by {
        let o = i / 4;
        let d = i % 4;
        assert(row_index(o, d) == i);
        assert(a.rows@[i].wf() && b.rows@[i].wf());
        assert(a.compatible(o, 0, d) == b.compatible(o, 0, d));
        assert(a.compatible(o, 1, d) == b.compatible(o, 1, d));
        assert(a.compatible(o, 2, d) == b.compatible(o, 2, d));
        assert(a.compatible(o, 3, d) == b.compatible(o, 3, d));
        lemma_same_members(a.rows@[i], b.rows@[i]);
    }
    assert(a.rows =~= b.rows);
}

/// In the table of a tile, two orientations allow the same neighbours in a
/// direction exactly when they show edges with the same fingerprint in that
/// direction.
pub proof fn lemma_same_row_same_edge(t: CompatibilityTable, fp: Seq<u64>, a: int, b: int, d: int)
    requires
        t.wf(),
        t.derived_from(fp),
        0 <= a < 4,
        0 <= b < 4,
        0 <= d < 4,
    ensures
        (t.allowed(a, d) == t.allowed(b, d)) <==> fp[facing_edge(a, d)] == fp[facing_edge(b, d)],
{
    let ra = t.allowed(a, d);
    let rb = t.allowed(b, d);
    assert(t.rows@[row_index(a, d)].wf() && t.rows@[row_index(b, d)].wf());
    assert(t.compatible(a, 0, d) == derived_compatible(fp, a, 0, d));
    assert(t.compatible(a, 1, d) == derived_compatible(fp, a, 1, d));
    assert(t.compatible(a, 2, d) == derived_compatible(fp, a, 2, d));
    assert(t.compatible(a, 3, d) == derived_compatible(fp, a, 3, d));
    assert(t.compatible(b, 0, d) == derived_compatible(fp, b, 0, d));
    assert(t.compatible(b, 1, d) == derived_compatible(fp, b, 1, d));
    assert(t.compatible(b, 2, d) == derived_compatible(fp, b, 2, d));
    assert(t.compatible(b, 3, d) == derived_compatible(fp, b, 3, d));
    lemma_same_members(ra, rb);
    if ra == rb {
        let turned = (a + 2) % 4;
        lemma_derived_half_turn(fp, a, d);
        assert(t.compatible(a, turned, d));
        assert(t.compatible(b, turned, d));
    }
}

} // verus!
