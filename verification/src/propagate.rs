//! Propagation: after a cell has been fixed, the domains of the cells around
//! it are narrowed until nothing more follows.

use vstd::prelude::*;
use crate::domain::{lemma_meet, lemma_same_members, Domain};
use crate::grid::{lemma_remaining_bounds, remaining, Contradiction, Grid};
use crate::table::CompatibilityTable;

verus! {

/// The cell next to `cell` in direction `d`, in a grid of `cells` cells in rows
/// of `width`, if there is one. Direction 0 leads to the next row, 1 to the
/// next column, 2 to the previous row and 3 to the previous column.
pub open spec fn neighbour(width: int, cells: int, cell: int, d: int) -> Option<int> {
    if d == 0 {
        if cell + width < cells {
            Some(cell + width)
        } else {
            None
        }
    } else if d == 1 {
        if cell % width + 1 < width {
            Some(cell + 1)
        } else {
            None
        }
    } else if d == 2 {
        if cell >= width {
            Some(cell - width)
        } else {
            None
        }
    } else {
        if cell % width >= 1 {
            Some(cell - 1)
        } else {
            None
        }
    }
}

/// A neighbour is a cell of the grid, and never the cell itself.
pub proof fn lemma_neighbour_in_grid(width: int, height: int, cell: int, d: int)
    requires
        0 <= cell < width * height,
        0 <= width,
        0 <= height,
        0 <= d < 4,
    ensures
        width > 0,
        match neighbour(width, width * height, cell, d) {
            Some(n) => 0 <= n < width * height && n != cell,
            None => true,
        },
{
    assert(width > 0) by (nonlinear_arith)
        requires
            0 <= cell < width * height,
            0 <= width,
    ;
    if d == 1 && cell % width + 1 < width {
        let q = cell / width;
        let r = cell % width;
        assert(cell == q * width + r) by {
            vstd::arithmetic::div_mod::lemma_fundamental_div_mod(cell, width);
            assert(width * q == q * width) by (nonlinear_arith);
        }
        assert(q < height) by (nonlinear_arith)
            requires
                q * width + r < width * height,
                0 <= r,
                0 < width,
        ;
        assert(q * width + width <= width * height) by (nonlinear_arith)
            requires
                q < height,
                0 < width,
        ;
        assert(cell + 1 < width * height);
    }
    if d == 3 && cell % width >= 1 {
        if cell == 0 {
            assert(0int % width == 0);
        }
        assert(cell >= 1);
    }
}

/// Whether all members of `dom` allow the same neighbours in direction `d`.
pub open spec fn agrees(table: CompatibilityTable, dom: Domain, d: int) -> bool {
    let row = table.allowed(dom.lowest(), d);
    &&& dom.has(0) ==> table.allowed(0, d) == row
    &&& dom.has(1) ==> table.allowed(1, d) == row
    &&& dom.has(2) ==> table.allowed(2, d) == row
    &&& dom.has(3) ==> table.allowed(3, d) == row
}

/// The constraint that cell `c` puts on its neighbour in direction `d` is met:
/// where the members of the domain of `c` agree, the neighbour holds only
/// orientations that they allow.
pub open spec fn arc_holds(
    table: CompatibilityTable,
    width: int,
    domains: Seq<Domain>,
    c: int,
    d: int,
) -> bool {
    match neighbour(width, domains.len() as int, c, d) {
        Some(n) => agrees(table, domains[c], d) ==> domains[n].subset_of(
            table.allowed(domains[c].lowest(), d),
        ),
        None => true,
    }
}

/// Cell `c` puts no constraint on a neighbour that is not met.
pub open spec fn source_stable(
    table: CompatibilityTable,
    width: int,
    domains: Seq<Domain>,
    c: int,
) -> bool {
    &&& arc_holds(table, width, domains, c, 0)
    &&& arc_holds(table, width, domains, c, 1)
    &&& arc_holds(table, width, domains, c, 2)
    &&& arc_holds(table, width, domains, c, 3)
}

/// Every domain is well formed and not empty.
pub open spec fn inhabited(f: Seq<Domain>) -> bool {
    forall|i: int| 0 <= i < f.len() ==> (#[trigger] f[i]).wf() && f[i].size() >= 1
}

/// Cell by cell, `f` holds no orientation that `g` does not hold.
pub open spec fn refines(f: Seq<Domain>, g: Seq<Domain>) -> bool {
    &&& f.len() == g.len()
    &&& forall|i: int| 0 <= i < f.len() ==> (#[trigger] f[i]).subset_of(g[i])
}

/// `f` is an outcome that propagation from `origin` may leave of `pre`: it
/// narrows `pre`, leaves no domain empty, and both `origin` and every cell
/// whose domain it has narrowed put no constraint on a neighbour that is not
/// met.
pub open spec fn settled_below(
    table: CompatibilityTable,
    width: int,
    pre: Seq<Domain>,
    origin: int,
    f: Seq<Domain>,
) -> bool {
    &&& inhabited(f)
    &&& refines(f, pre)
    &&& forall|c: int|
        0 <= c < f.len() && (c == origin || f[c] != pre[c]) ==> #[trigger] source_stable(
            table,
            width,
            f,
            c,
        )
}

/// `g` is the largest outcome of propagation from `origin` on `pre`: it is an
/// outcome, and every outcome narrows it.
pub open spec fn greatest_outcome(
    table: CompatibilityTable,
    width: int,
    pre: Seq<Domain>,
    origin: int,
    g: Seq<Domain>,
) -> bool {
    &&& settled_below(table, width, pre, origin, g)
    &&& forall|f: Seq<Domain>| #[trigger]
        settled_below(table, width, pre, origin, f) ==> refines(f, g)
}

/// There is no outcome of propagation from `origin` on `pre`.
pub open spec fn no_outcome(
    table: CompatibilityTable,
    width: int,
    pre: Seq<Domain>,
    origin: int,
) -> bool {
    forall|f: Seq<Domain>| !#[trigger] settled_below(table, width, pre, origin, f)
}

/// Every cell with a single orientation left puts no constraint on a
/// neighbour that is not met.
pub open spec fn singles_settled(table: CompatibilityTable, width: int, g: Seq<Domain>) -> bool {
    forall|c: int|
        0 <= c < g.len() && g[c].size() == 1 ==> #[trigger] source_stable(table, width, g, c)
}

/// The largest outcome is unique: what propagation leaves does not depend on
/// the order in which it visits the cells.
pub proof fn lemma_greatest_unique(
    table: CompatibilityTable,
    width: int,
    pre: Seq<Domain>,
    origin: int,
    a: Seq<Domain>,
    b: Seq<Domain>,
)
    requires
        greatest_outcome(table, width, pre, origin, a),
        greatest_outcome(table, width, pre, origin, b),
    ensures
        a == b,
{
    assert(refines(a, b));
    assert(refines(b, a));
    assert forall|i: int| 0 <= i < a.len() implies a[i] == b[i] by {
        assert(a[i].subset_of(b[i]));
        assert(b[i].subset_of(a[i]));
        assert(a[i].wf() && b[i].wf());
        lemma_same_members(a[i], b[i]);
    }
    assert(a =~= b);
}

/// A cell whose domain is the same in a narrower grid puts no constraint
/// there that is not met, if it put none before.
pub proof fn lemma_stable_below(
    table: CompatibilityTable,
    width: int,
    height: int,
    g: Seq<Domain>,
    f: Seq<Domain>,
    c: int,
)
    requires
        0 <= width,
        0 <= height,
        g.len() == width * height,
        refines(f, g),
        0 <= c < g.len(),
        f[c] == g[c],
        source_stable(table, width, g, c),
    ensures
        source_stable(table, width, f, c),
{
    lemma_neighbour_in_grid(width, height, c, 0);
    lemma_neighbour_in_grid(width, height, c, 1);
    lemma_neighbour_in_grid(width, height, c, 2);
    lemma_neighbour_in_grid(width, height, c, 3);
    assert(arc_holds(table, width, g, c, 0));
    assert(arc_holds(table, width, g, c, 1));
    assert(arc_holds(table, width, g, c, 2));
    assert(arc_holds(table, width, g, c, 3));
    assert forall|d: int| 0 <= d < 4 implies #[trigger] arc_holds(table, width, f, c, d) by {
        match neighbour(width, g.len() as int, c, d) {
            Some(n) => {
                assert(f[n].subset_of(g[n]));
            },
            None => {},
        }
    }
}

/// Where every cell with a single orientation had its constraints met before
/// a cell was fixed, they are all met in the largest outcome of the
/// propagation from that cell.
pub proof fn lemma_outcome_settles_singles(
    table: CompatibilityTable,
    width: int,
    height: int,
    before: Seq<Domain>,
    origin: int,
    fixed: Domain,
    g: Seq<Domain>,
)
    requires
        0 <= width,
        0 <= height,
        before.len() == width * height,
        0 <= origin < before.len(),
        fixed.subset_of(before[origin]),
        singles_settled(table, width, before),
        settled_below(table, width, before.update(origin, fixed), origin, g),
    ensures
        singles_settled(table, width, g),
{
    let mid = before.update(origin, fixed);
    assert forall|c: int| 0 <= c < g.len() && g[c].size() == 1 implies #[trigger] source_stable(
        table,
        width,
        g,
        c,
    ) by {
        if c == origin || g[c] != mid[c] {
        } else {
            assert(mid[c] == before[c]);
            assert(source_stable(table, width, before, c));
            lemma_stable_kept(table, width, height, before, origin, fixed, c);
            lemma_stable_below(table, width, height, mid, g, c);
        }
    }
}

impl Grid {
    /// The cell next to `cell` in direction `d`, if there is one.
    pub fn neighbour_of(&self, cell: usize, d: usize) -> (r: Option<usize>)
        requires
            self.wf(),
            cell < self.cells(),
            d < 4,
        ensures
            match r {
                Some(n) => neighbour(self.width as int, self.cells(), cell as int, d as int)
                    == Some(n as int) && n < self.cells() && n != cell,
                None => neighbour(self.width as int, self.cells(), cell as int, d as int)
                    is None,
            },
    {
        proof {
            lemma_neighbour_in_grid(self.width as int, self.height as int, cell as int, d as int);
        }
        let cells: usize = self.domains.len();
        let width: usize = self.width;
        if d == 0 {
            if width < cells - cell {
                Some(cell + width)
            } else {
                None
            }
        } else if d == 1 {
            if cell % width + 1 < width {
                Some(cell + 1)
            } else {
                None
            }
        } else if d == 2 {
            if cell >= width {
                Some(cell - width)
            } else {
                None
            }
        } else {
            if cell % width >= 1 {
                Some(cell - 1)
            } else {
                None
            }
        }
    }
}

/// The orientations that every member of `dom` allows in direction `d`, if
/// the members agree on them.
pub fn agreed_row(table: &CompatibilityTable, dom: Domain, d: usize) -> (r: Option<Domain>)
    requires
        table.wf(),
        dom.size() >= 1,
        d < 4,
    ensures
        match r {
            Some(row) => agrees(*table, dom, d as int) && row == table.allowed(
                dom.lowest(),
                d as int,
            ) && row.wf(),
            None => !agrees(*table, dom, d as int),
        },
{
    let first: usize = match dom.first() {
        Some(o) => o,
        None => 0,
    };
    let row: Domain = table.row(first, d);
    assert(row == table.rows@[crate::table::row_index(first as int, d as int)]);
    let mut o: usize = 0;
    while o < 4
        invariant
            o <= 4,
            d < 4,
            table.wf(),
            row == table.allowed(dom.lowest(), d as int),
            forall|k: int| 0 <= k < o && dom.has(k) ==> table.allowed(k, d as int) == row,
        decreases 4 - o,
    {
        if dom.contains(o) && table.row(o, d) != row {
            return None;
        }
        o += 1;
    }
    Some(row)
}

/// Narrowing the domain of one cell breaks no constraint that another cell
/// puts on its neighbours.
pub proof fn lemma_stable_kept(
    table: CompatibilityTable,
    width: int,
    height: int,
    g: Seq<Domain>,
    n: int,
    x: Domain,
    c: int,
)
    requires
        0 <= width,
        0 <= height,
        g.len() == width * height,
        0 <= n < g.len(),
        0 <= c < g.len(),
        c != n,
        x.subset_of(g[n]),
    ensures
        forall|d: int|
            0 <= d < 4 && arc_holds(table, width, g, c, d) ==> #[trigger] arc_holds(
                table,
                width,
                g.update(n, x),
                c,
                d,
            ),
        source_stable(table, width, g, c) ==> source_stable(table, width, g.update(n, x), c),
{
    assert forall|d: int| 0 <= d < 4 && arc_holds(table, width, g, c, d) implies #[trigger] arc_holds(
        table,
        width,
        g.update(n, x),
        c,
        d,
    ) by {
        lemma_neighbour_in_grid(width, height, c, d);
    }
}

/// What cell `c` enforces on its neighbour `n` in direction `d` holds in every
/// outcome of the propagation that lies below the grid `g` reached so far,
/// provided `c` is the origin or has been narrowed.
pub proof fn lemma_outcome_below_meet(
    table: CompatibilityTable,
    width: int,
    height: int,
    pre: Seq<Domain>,
    origin: int,
    g: Seq<Domain>,
    c: int,
    d: int,
    n: int,
    f: Seq<Domain>,
)
    requires
        table.wf(),
        0 <= width,
        0 <= height,
        g.len() == width * height,
        inhabited(pre),
        inhabited(g),
        refines(g, pre),
        0 <= c < g.len(),
        0 <= d < 4,
        c == origin || g[c] != pre[c],
        neighbour(width, g.len() as int, c, d) == Some(n),
        agrees(table, g[c], d),
        settled_below(table, width, pre, origin, f),
        refines(f, g),
    ensures
        f[n].subset_of(g[n].meet(table.allowed(g[c].lowest(), d))),
{
    lemma_neighbour_in_grid(width, height, c, d);
    assert(f[c].subset_of(g[c]));
    assert(g[c].subset_of(pre[c]));
    assert(f[c].wf() && f[c].size() >= 1);
    assert(g[c].wf() && pre[c].wf());
    if f[c] == pre[c] {
        lemma_same_members(g[c], pre[c]);
    }
    assert(source_stable(table, width, f, c));
    assert(arc_holds(table, width, f, c, d));
    assert(agrees(table, f[c], d));
    assert(table.allowed(f[c].lowest(), d) == table.allowed(g[c].lowest(), d));
    assert(f[n].subset_of(g[n]));
    assert(g[n].wf());
    assert(table.rows@[crate::table::row_index(g[c].lowest(), d)].wf());
    lemma_meet(g[n], table.allowed(g[c].lowest(), d));
}

/// The state that propagation keeps between two steps: the grid `g` narrows
/// `pre` and leaves no domain empty, every cell in `work` is the origin or has
/// been narrowed, and every outcome lies below `g`.
spec fn on_course(
    table: CompatibilityTable,
    width: int,
    height: int,
    pre: Seq<Domain>,
    origin: int,
    g: Seq<Domain>,
    work: Seq<usize>,
) -> bool {
    &&& table.wf()
    &&& 0 <= width
    &&& 0 <= height
    &&& g.len() == width * height
    &&& 0 <= origin < g.len()
    &&& inhabited(pre)
    &&& inhabited(g)
    &&& refines(g, pre)
    &&& forall|k: int|
        0 <= k < work.len() ==> (#[trigger] work[k]) < g.len() && (work[k] == origin
            || g[work[k] as int] != pre[work[k] as int])
    &&& forall|f: Seq<Domain>| #[trigger]
        settled_below(table, width, pre, origin, f) ==> refines(f, g)
}

/// Cell `x` waits in the work list.
spec fn waiting(work: Seq<usize>, x: int) -> bool {
    exists|k: int| 0 <= k < work.len() && #[trigger] work[k] == x
}

/// Every cell other than `skip` that is the origin or has been narrowed waits
/// in `work` or puts no constraint on a neighbour that is not met.
spec fn covered(
    table: CompatibilityTable,
    width: int,
    pre: Seq<Domain>,
    origin: int,
    g: Seq<Domain>,
    work: Seq<usize>,
    skip: int,
) -> bool {
    forall|x: int|
        0 <= x < g.len() && x != skip && (x == origin || g[x] != pre[x]) ==> waiting(work, x)
            || #[trigger] source_stable(table, width, g, x)
}

/// The constraints that `c` puts on its neighbours in the directions below
/// `d` are met.
spec fn arcs_done(
    table: CompatibilityTable,
    width: int,
    g: Seq<Domain>,
    c: int,
    d: int,
) -> bool {
    forall|k: int| 0 <= k < d ==> #[trigger] arc_holds(table, width, g, c, k)
}

/// The domain to which cell `c` narrows its neighbour `n` in direction `d`.
spec fn narrowed_by(
    table: CompatibilityTable,
    g: Seq<Domain>,
    c: int,
    d: int,
    n: int,
) -> Domain {
    g[n].meet(table.allowed(g[c].lowest(), d))
}

/// One step of propagation that leaves the neighbour with at least one
/// orientation keeps the state on course, with the neighbour waiting in the
/// work list if it was narrowed.
proof fn lemma_narrowing_step(
    table: CompatibilityTable,
    width: int,
    height: int,
    pre: Seq<Domain>,
    origin: int,
    g: Seq<Domain>,
    work: Seq<usize>,
    c: int,
    d: int,
    n: usize,
)
    requires
        on_course(table, width, height, pre, origin, g, work),
        covered(table, width, pre, origin, g, work, c),
        arcs_done(table, width, g, c, d),
        0 <= c < g.len(),
        0 <= d < 4,
        c == origin || g[c] != pre[c],
        neighbour(width, g.len() as int, c, d) == Some(n as int),
        agrees(table, g[c], d),
        narrowed_by(table, g, c, d, n as int).size() >= 1,
    ensures
        ({
            let narrowed = narrowed_by(table, g, c, d, n as int);
            let g2 = g.update(n as int, narrowed);
            let work2 = if narrowed != g[n as int] {
                work.push(n)
            } else {
                work
            };
            &&& on_course(table, width, height, pre, origin, g2, work2)
            &&& covered(table, width, pre, origin, g2, work2, c)
            &&& arcs_done(table, width, g2, c, d + 1)
            &&& g2[c] == g[c]
            &&& narrowed == g[n as int] ==> g2 == g
        }),
{
    let allowed = table.allowed(g[c].lowest(), d);
    let narrowed = narrowed_by(table, g, c, d, n as int);
    let g2 = g.update(n as int, narrowed);
    let work2 = if narrowed != g[n as int] {
        work.push(n)
    } else {
        work
    };
    lemma_neighbour_in_grid(width, height, c, d);
    assert(table.rows@[crate::table::row_index(g[c].lowest(), d)].wf());
    lemma_meet(g[n as int], allowed);
    assert(g[n as int].subset_of(pre[n as int]));
    if narrowed == g[n as int] {
        assert(g2 =~= g);
    } else {
        if narrowed == pre[n as int] {
            lemma_same_members(g[n as int], pre[n as int]);
        }
        assert(work2[work.len() as int] == n);
        assert(waiting(work2, n as int));
    }
    assert forall|x: int| waiting(work, x) implies waiting(work2, x) by {
        let k = choose|k: int| 0 <= k < work.len() && #[trigger] work[k] == x;
        assert(work2[k] == x);
    }
    assert forall|k: int| 0 <= k < work2.len() implies (#[trigger] work2[k]) < g2.len() && (
    work2[k] == origin || g2[work2[k] as int] != pre[work2[k] as int]) by {
        if k < work.len() {
            assert(work2[k] == work[k]);
        }
    }
    assert forall|f: Seq<Domain>| #[trigger]
        settled_below(table, width, pre, origin, f) implies refines(f, g2) by {
        lemma_outcome_below_meet(table, width, height, pre, origin, g, c, d, n as int, f);
        assert(refines(f, g));
        assert forall|i: int| 0 <= i < f.len() implies (#[trigger] f[i]).subset_of(g2[i]) by {
            if i != n {
                assert(f[i].subset_of(g[i]));
            }
        }
    }
    assert forall|x: int|
        0 <= x < g2.len() && x != c && (x == origin || g2[x] != pre[x]) implies waiting(work2, x)
        || #[trigger] source_stable(table, width, g2, x) by {
        if x != n {
            lemma_stable_kept(table, width, height, g, n as int, narrowed, x);
            assert(g2[x] == g[x]);
            if !waiting(work, x) {
                assert(source_stable(table, width, g, x));
            }
        }
    }
    assert forall|k: int| 0 <= k < d + 1 implies #[trigger] arc_holds(table, width, g2, c, k) by {
        lemma_stable_kept(table, width, height, g, n as int, narrowed, c);
        if k < d {
            assert(arc_holds(table, width, g, c, k));
        }
    }
}

/// Where a step of propagation would leave the neighbour without any
/// orientation, there is no outcome.
proof fn lemma_no_outcome(
    table: CompatibilityTable,
    width: int,
    height: int,
    pre: Seq<Domain>,
    origin: int,
    g: Seq<Domain>,
    work: Seq<usize>,
    c: int,
    d: int,
    n: int,
)
    requires
        on_course(table, width, height, pre, origin, g, work),
        0 <= c < g.len(),
        0 <= d < 4,
        c == origin || g[c] != pre[c],
        neighbour(width, g.len() as int, c, d) == Some(n),
        agrees(table, g[c], d),
        narrowed_by(table, g, c, d, n).size() == 0,
    ensures
        forall|f: Seq<Domain>| !#[trigger] settled_below(table, width, pre, origin, f),
{
    assert forall|f: Seq<Domain>| !#[trigger] settled_below(table, width, pre, origin, f) by {
        if settled_below(table, width, pre, origin, f) {
            lemma_outcome_below_meet(table, width, height, pre, origin, g, c, d, n, f);
            lemma_neighbour_in_grid(width, height, c, d);
            assert(f[n].size() >= 1);
        }
    }
}

/// A step in a direction in which `c` has no neighbour, or in which the
/// orientations of `c` do not agree, leaves nothing to do.
proof fn lemma_idle_step(table: CompatibilityTable, width: int, g: Seq<Domain>, c: int, d: int)
    requires
        arcs_done(table, width, g, c, d),
        neighbour(width, g.len() as int, c, d) is None || !agrees(table, g[c], d),
    ensures
        arcs_done(table, width, g, c, d + 1),
{
}

/// Once `c` has been dealt with in all four directions, it need not wait in
/// the work list any more.
proof fn lemma_cell_done(
    table: CompatibilityTable,
    width: int,
    pre: Seq<Domain>,
    origin: int,
    g: Seq<Domain>,
    work: Seq<usize>,
    c: int,
)
    requires
        covered(table, width, pre, origin, g, work, c),
        arcs_done(table, width, g, c, 4),
    ensures
        covered(table, width, pre, origin, g, work, -1),
{
    assert(arc_holds(table, width, g, c, 0));
    assert(arc_holds(table, width, g, c, 1));
    assert(arc_holds(table, width, g, c, 2));
    assert(arc_holds(table, width, g, c, 3));
}

/// Taking the last cell `c` off the work list leaves all others covered.
proof fn lemma_cell_taken(
    table: CompatibilityTable,
    width: int,
    pre: Seq<Domain>,
    origin: int,
    g: Seq<Domain>,
    work: Seq<usize>,
)
    requires
        work.len() > 0,
        covered(table, width, pre, origin, g, work, -1),
    ensures
        covered(table, width, pre, origin, g, work.drop_last(), work.last() as int),
{
    let rest = work.drop_last();
    assert forall|x: int|
        0 <= x < g.len() && x != work.last() as int && (x == origin || g[x] != pre[x])
            implies waiting(rest, x) || #[trigger] source_stable(table, width, g, x) by {
        if waiting(work, x) {
            let k = choose|k: int| 0 <= k < work.len() && #[trigger] work[k] == x;
            assert(rest[k] == x);
        }
    }
}

/// Narrows the domains of the cells around `origin`, and of the cells around
/// every cell that was narrowed, until no constraint is left unmet. A cell
/// puts a constraint on a neighbour only while all orientations in its domain
/// allow the same neighbours in that direction.
///
/// On success the grid holds the largest outcome below what it held before:
/// every other outcome narrows it further. A contradiction is reported exactly
/// when there is no outcome, that is, when some domain is bound to become
/// empty.
pub fn propagate(grid: &mut Grid, table: &CompatibilityTable, origin: usize) -> (r: Result<
    (),
    Contradiction,
>)
    requires
        old(grid).wf(),
        table.wf(),
        origin < old(grid).cells(),
    ensures
        final(grid).wf(),
        final(grid).width == old(grid).width,
        final(grid).height == old(grid).height,
        final(grid).map@ == old(grid).map@,
        final(grid).usage == old(grid).usage,
        refines(final(grid).domains@, old(grid).domains@),
        final(grid).shrinks >= old(grid).shrinks,
        final(grid).shrinks + remaining(final(grid).domains@) <= old(grid).shrinks + remaining(
            old(grid).domains@,
        ),
        match r {
            Ok(()) => greatest_outcome(
                *table,
                old(grid).width as int,
                old(grid).domains@,
                origin as int,
                final(grid).domains@,
            ),
            Err(e) => {
                &&& e.cell < old(grid).cells()
                &&& no_outcome(*table, old(grid).width as int, old(grid).domains@, origin as int)
            },
        },
{
    let ghost pre = grid.domains@;
    let ghost width = grid.width as int;
    let ghost height = grid.height as int;
    let mut work: Vec<usize> = Vec::new();
    work.push(origin);
    proof {
        assert(work@[0] == origin);
        assert(waiting(work@, origin as int));
    }
    while work.len() > 0
        invariant
            grid.wf(),
            grid.width == width,
            grid.height == height,
            width == old(grid).width,
            height == old(grid).height,
            pre == old(grid).domains@,
            origin < grid.cells(),
            grid.map@ == old(grid).map@,
            grid.usage == old(grid).usage,
            grid.shrinks >= old(grid).shrinks,
            grid.shrinks + remaining(grid.domains@) <= old(grid).shrinks + remaining(pre),
            on_course(*table, width, height, pre, origin as int, grid.domains@, work@),
            covered(*table, width, pre, origin as int, grid.domains@, work@, -1),
        decreases 2 * remaining(grid.domains@) + work@.len(),
    {
        let ghost budget = 2 * remaining(grid.domains@) + work@.len();
        proof {
            lemma_cell_taken(*table, width, pre, origin as int, grid.domains@, work@);
            lemma_remaining_bounds(grid.domains@);
        }
        let c: usize = match work.pop() {
            Some(c) => c,
            None => origin,
        };
        let mut d: usize = 0;
        while d < 4
            invariant
                d <= 4,
                grid.wf(),
                grid.width == width,
                grid.height == height,
                width == old(grid).width,
                height == old(grid).height,
                pre == old(grid).domains@,
                origin < grid.cells(),
                c < grid.cells(),
                c == origin || grid.domains@[c as int] != pre[c as int],
                grid.map@ == old(grid).map@,
                grid.usage == old(grid).usage,
                grid.shrinks >= old(grid).shrinks,
                grid.shrinks + remaining(grid.domains@) <= old(grid).shrinks + remaining(pre),
                on_course(*table, width, height, pre, origin as int, grid.domains@, work@),
                covered(*table, width, pre, origin as int, grid.domains@, work@, c as int),
                arcs_done(*table, width, grid.domains@, c as int, d as int),
                2 * remaining(grid.domains@) + work@.len() < budget,
            decreases 4 - d,
        {
            let ghost g = grid.domains@;
            let ghost queued = work@;
            let next: Option<usize> = grid.neighbour_of(c, d);
            let row: Option<Domain> = agreed_row(table, grid.domain(c), d);
            match (next, row) {
                (Some(n), Some(allowed)) => {
                    match grid.restrict(n, allowed) {
                        Ok(shrank) => {
                            proof {
                                lemma_narrowing_step(
                                    *table,
                                    width,
                                    height,
                                    pre,
                                    origin as int,
                                    g,
                                    queued,
                                    c as int,
                                    d as int,
                                    n,
                                );
                                lemma_meet(g[n as int], allowed);
                            }
                            if shrank {
                                work.push(n);
                            }
                        },
                        Err(e) => {
                            proof {
                                lemma_no_outcome(
                                    *table,
                                    width,
                                    height,
                                    pre,
                                    origin as int,
                                    g,
                                    queued,
                                    c as int,
                                    d as int,
                                    n as int,
                                );
                            }
                            return Err(e);
                        },
                    }
                },
                _ => {
                    proof {
                        lemma_idle_step(*table, width, g, c as int, d as int);
                    }
                },
            }
            d += 1;
        }
        proof {
            lemma_cell_done(*table, width, pre, origin as int, grid.domains@, work@, c as int);
            lemma_remaining_bounds(grid.domains@);
        }
    }
    proof {
        assert forall|x: int|
            0 <= x < grid.cells() && (x == origin || grid.domains@[x] != pre[x])
                implies #[trigger] source_stable(*table, width, grid.domains@, x) by {
            assert(!waiting(work@, x));
        }
    }
    Ok(())
}

} // verus!
