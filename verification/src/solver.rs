//! The solver: one grid, one compatibility table, and a step that fixes at
//! most one cell each time it is called.

use vstd::prelude::*;
use crate::domain::{indicator, lemma_same_members, lemma_single_member, singleton_of, Domain};
use crate::grid::{shown, Contradiction, Grid};
use crate::propagate::{
    agrees, arc_holds, greatest_outcome, lemma_greatest_unique, lemma_neighbour_in_grid,
    lemma_outcome_settles_singles, neighbour, no_outcome, propagate, refines, singles_settled,
    source_stable,
};
use crate::select::{
    first_forced, lemma_pick_by_contents, lemma_pick_unique, pick_ok, EntropyPolicy, Pick,
};
use crate::table::CompatibilityTable;
use crate::tile::{border_fingerprints, tile_error, LoadError, Tile};

verus! {

/// Width of the grid that `Context::new` makes.
pub const DEFAULT_WIDTH: usize = 60;

/// Height of the grid that `Context::new` makes.
pub const DEFAULT_HEIGHT: usize = 60;

/// Cooldown of the solver that `Context::new` makes: a tenth of the time of a
/// frame at sixty frames a second, in microseconds.
pub const DEFAULT_COOLDOWN: u64 = 1667;

/// The solver. `cooldown` is the time that must pass after a step that fixed a
/// cell before the next step does anything, and `cooldown_start` the time of
/// the last such step, both in the unit of the clock readings handed to
/// `update`. `policy` says which orientation a cell with a choice gets.
/// `loaded` says whether a table is in place, and `fault` holds the
/// contradiction on which the solver has stopped.
#[derive(Debug)]
pub struct Context {
    pub grid: Grid,
    pub table: CompatibilityTable,
    pub policy: EntropyPolicy,
    pub cooldown: u64,
    pub cooldown_start: u64,
    pub loaded: bool,
    pub fault: Option<Contradiction>,
}

/// The state of the solver as far as it shows to its user.
pub struct ContextView {
    pub width: usize,
    pub height: usize,
    pub domains: Seq<Domain>,
    pub map: Seq<u8>,
    pub counts: Seq<u64>,
    pub table: CompatibilityTable,
    pub policy: EntropyPolicy,
    pub cooldown: u64,
    pub cooldown_start: u64,
    pub loaded: bool,
    pub halted: bool,
}

/// What a step that fixes `cell` to `orientation` does to the values shown
/// and to the usage counts.
pub open spec fn fixes(pre: Context, post: Context, cell: usize, orientation: usize) -> bool {
    &&& post.grid.map@ == pre.grid.map@.update(cell as int, shown(orientation as int))
    &&& forall|k: int|
        0 <= k < 4 ==> post.grid.usage.of(k) == pre.grid.usage.of(k) + indicator(k == orientation)
}

/// The result `r` and the state `post` of a step on `pre` that is due and on
/// which `p` is the thing to be done.
pub open spec fn outcome(
    pre: Context,
    p: Pick,
    time: u64,
    post: Context,
    r: Result<Option<usize>, Contradiction>,
) -> bool {
    match p {
        Pick::Done => r == Ok::<Option<usize>, Contradiction>(None) && post@ == pre@,
        Pick::Forced { cell, orientation } => {
            &&& r == Ok::<Option<usize>, Contradiction>(Some(cell))
            &&& post.fault is None
            &&& post.cooldown_start == time
            &&& post.grid.domains@ == pre.grid.domains@
            &&& fixes(pre, post, cell, orientation)
        },
        Pick::Weighted { cell, orientation } => {
            let fixed = pre.grid.domains@.update(cell as int, singleton_of(orientation as int));
            &&& fixes(pre, post, cell, orientation)
            &&& refines(post.grid.domains@, fixed)
            &&& match r {
                Ok(changed) => {
                    &&& changed == Some(cell)
                    &&& post.fault is None
                    &&& post.cooldown_start == time
                    &&& greatest_outcome(
                        pre.table,
                        pre.grid.width as int,
                        fixed,
                        cell as int,
                        post.grid.domains@,
                    )
                },
                Err(e) => {
                    &&& e.cell < pre.grid.cells()
                    &&& post.fault == Some(e)
                    &&& post.cooldown_start == pre.cooldown_start
                    &&& no_outcome(pre.table, pre.grid.width as int, fixed, cell as int)
                },
            }
        },
    }
}

/// The result `r` and the state `post` of a step on `pre` at time `time`.
///
/// A solver that has met a contradiction reports it again. One without a
/// table, or one whose cooldown has not passed, does nothing. Otherwise the
/// step shows the first forced cell, or fixes the most constrained cell and
/// propagates, or finds that every cell is resolved.
pub open spec fn step_ok(
    pre: Context,
    time: u64,
    post: Context,
    r: Result<Option<usize>, Contradiction>,
) -> bool {
    &&& post.table == pre.table
    &&& post.policy == pre.policy
    &&& post.cooldown == pre.cooldown
    &&& post.loaded == pre.loaded
    &&& post.grid.width == pre.grid.width
    &&& post.grid.height == pre.grid.height
    &&& if let Some(e) = pre.fault {
        r == Err::<Option<usize>, Contradiction>(e) && post@ == pre@
    } else if !pre.loaded || !pre.due(time) {
        r == Ok::<Option<usize>, Contradiction>(None) && post@ == pre@
    } else {
        exists|p: Pick|
            pick_ok(pre.grid, pre.policy, p) && #[trigger] outcome(pre, p, time, post, r)
    }
}

impl View for Context {
    type V = ContextView;

    open spec fn view(&self) -> ContextView {
        ContextView {
            width: self.grid.width,
            height: self.grid.height,
            domains: self.grid.domains@,
            map: self.grid.map@,
            counts: self.grid.usage.counts@,
            table: self.table,
            policy: self.policy,
            cooldown: self.cooldown,
            cooldown_start: self.cooldown_start,
            loaded: self.loaded,
            halted: self.fault is Some,
        }
    }
}

impl Context {
    /// The invariant of the solver: grid and table are well formed, and, as
    /// long as no contradiction was met, every cell with a single orientation
    /// left has had its say on its neighbours.
    pub open spec fn wf(self) -> bool {
        &&& self.grid.wf()
        &&& self.table.wf()
        &&& self.fault is None ==> singles_settled(
            self.table,
            self.grid.width as int,
            self.grid.domains@,
        )
    }

    /// Whether a step at `time` is past the cooldown.
    pub open spec fn due(self, time: u64) -> bool {
        time >= self.cooldown_start && time - self.cooldown_start >= self.cooldown
    }

    /// The state right after a table was put in place: every cell unresolved
    /// with all four orientations, nothing counted, the clock at zero.
    pub open spec fn fresh(self) -> bool {
        &&& self.loaded
        &&& self.fault is None
        &&& self.cooldown_start == 0
        &&& self.grid.blank()
    }

    /// A solver for a grid of sixty by sixty cells with the default cooldown,
    /// the policy to maximise the entropy, and without a table.
    pub fn new() -> (s: Context)
        ensures
            s.wf(),
            s.grid.width == DEFAULT_WIDTH,
            s.grid.height == DEFAULT_HEIGHT,
            s.cooldown == DEFAULT_COOLDOWN,
            s.policy == EntropyPolicy::Maximise,
            s.cooldown_start == 0,
            !s.loaded,
            s.fault is None,
            s.grid.cells() == DEFAULT_WIDTH * DEFAULT_HEIGHT,
            s.grid.blank(),
    {
        let grid = Grid::initialize(DEFAULT_WIDTH, DEFAULT_HEIGHT);
        Context {
            grid,
            table: CompatibilityTable::uniform(true),
            policy: EntropyPolicy::Maximise,
            cooldown: DEFAULT_COOLDOWN,
            cooldown_start: 0,
            loaded: false,
            fault: None,
        }
    }

    /// A solver for a grid of `width` by `height` cells with the given
    /// cooldown, the policy to maximise the entropy, and without a table;
    /// `None` where four flags for each cell would be more than the machine
    /// can count.
    pub fn with_size(width: usize, height: usize, cooldown: u64) -> (r: Option<Context>)
        ensures
            match r {
                Some(s) => {
                    &&& 4 * (width * height) <= usize::MAX
                    &&& s.wf()
                    &&& s.grid.width == width
                    &&& s.grid.height == height
                    &&& s.grid.cells() == width * height
                    &&& s.cooldown == cooldown
                    &&& s.policy == EntropyPolicy::Maximise
                    &&& s.cooldown_start == 0
                    &&& !s.loaded
                    &&& s.fault is None
                    &&& s.grid.blank()
                },
                None => 4 * (width * height) > usize::MAX,
            },
    {
        let cells: usize = match width.checked_mul(height) {
            Some(n) => n,
            None => {
                return None;
            },
        };
        if cells.checked_mul(4).is_none() {
            return None;
        }
        let grid = Grid::initialize(width, height);
        Some(
            Context {
                grid,
                table: CompatibilityTable::uniform(true),
                policy: EntropyPolicy::Maximise,
                cooldown,
                cooldown_start: 0,
                loaded: false,
                fault: None,
            },
        )
    }

    /// Sets the policy by which a cell with a choice gets its orientation.
    pub fn set_policy(&mut self, policy: EntropyPolicy)
        ensures
            final(self).policy == policy,
            final(self).grid == old(self).grid,
            final(self).table == old(self).table,
            final(self).cooldown == old(self).cooldown,
            final(self).cooldown_start == old(self).cooldown_start,
            final(self).loaded == old(self).loaded,
            final(self).fault == old(self).fault,
            old(self).wf() ==> final(self).wf(),
    {
        self.policy = policy;
    }

    /// Puts `table` in place and starts over: every cell unresolved with all
    /// four orientations, nothing counted, the clock at zero.
    pub fn load_table(&mut self, table: CompatibilityTable)
        requires
            old(self).grid.wf(),
            table.wf(),
        ensures
            final(self).wf(),
            final(self).fresh(),
            final(self).table == table,
            final(self).policy == old(self).policy,
            final(self).cooldown == old(self).cooldown,
            final(self).grid.width == old(self).grid.width,
            final(self).grid.height == old(self).grid.height,
            final(self).grid.cells() == old(self).grid.cells(),
    {
        let width: usize = self.grid.width;
        let height: usize = self.grid.height;
        self.grid = Grid::initialize(width, height);
        self.table = table;
        self.cooldown_start = 0;
        self.loaded = true;
        self.fault = None;
    }

    /// Takes a tile of `width` by `height` pixels, four bytes each and row by
    /// row, derives the table from the fingerprints of its edges and starts
    /// over with it. A buffer that is no square tile is rejected and leaves
    /// the solver as it was.
    pub fn set_image(&mut self, pixels: Vec<u8>, width: usize, height: usize) -> (r: Result<
        (),
        LoadError,
    >)
        requires
            old(self).grid.wf(),
        ensures
            match r {
                Ok(()) => {
                    &&& tile_error(pixels@.len() as int, width as int, height as int) is None
                    &&& final(self).wf()
                    &&& final(self).fresh()
                    &&& final(self).table.derived_from(
                        border_fingerprints(pixels@, width as int),
                    )
                    &&& final(self).table.symmetric()
                    &&& final(self).policy == old(self).policy
                    &&& final(self).cooldown == old(self).cooldown
                    &&& final(self).grid.width == old(self).grid.width
                    &&& final(self).grid.height == old(self).grid.height
                },
                Err(e) => {
                    &&& tile_error(pixels@.len() as int, width as int, height as int) == Some(e)
                    &&& *final(self) == *old(self)
                },
            },
    {
        let tile = match Tile::new(pixels, width, height) {
            Ok(t) => t,
            Err(e) => {
                return Err(e);
            },
        };
        let fp = tile.fingerprints();
        let table = CompatibilityTable::from_fingerprints(&fp);
        self.load_table(table);
        Ok(())
    }

    /// The values shown, one byte for each cell, row by row: 0 for a cell that
    /// is unresolved, else its orientation plus one.
    pub fn map(&self) -> (m: &Vec<u8>)
        ensures
            m@ == self.grid.map@,
    {
        &self.grid.map
    }

    /// Whether every cell has a value.
    pub fn is_complete(&self) -> (b: bool)
        ensures
            b == self.grid.complete(),
    {
        self.grid.is_complete()
    }

    /// Whether the solver has stopped on a contradiction.
    pub fn is_halted(&self) -> (b: bool)
        ensures
            b == self@.halted,
    {
        self.fault.is_some()
    }

    /// One step at clock reading `time`. Returns the cell whose value has
    /// changed, if any.
    pub fn update(&mut self, time: u64) -> (r: Result<Option<usize>, Contradiction>)
        requires
            old(self).wf(),
        ensures
            final(self).wf(),
            step_ok(*old(self), time, *final(self), r),
            final(self).grid.shrinks >= old(self).grid.shrinks,
    {
        if let Some(e) = self.fault {
            return Err(e);
        }
        if !self.loaded {
            return Ok(None);
        }
        if time < self.cooldown_start || time - self.cooldown_start < self.cooldown {
            return Ok(None);
        }
        let p = self.grid.pick(self.policy);
        let ghost before = self.grid.domains@;
        match p {
            Pick::Done => {
                assert(outcome(*old(self), p, time, *self, Ok(None)));
                Ok(None)
            },
            Pick::Forced { cell, orientation } => {
                proof {
                    lemma_single_member(before[cell as int]);
                    lemma_same_members(before[cell as int], singleton_of(orientation as int));
                }
                self.grid.resolve(cell, orientation);
                self.cooldown_start = time;
                assert(self.grid.domains@ =~= before);
                assert(outcome(*old(self), p, time, *self, Ok(Some(cell))));
                Ok(Some(cell))
            },
            Pick::Weighted { cell, orientation } => {
                self.grid.resolve(cell, orientation);
                let table = self.table;
                let ghost fixed = self.grid.domains@;
                match propagate(&mut self.grid, &table, cell) {
                    Ok(()) => {
                        self.cooldown_start = time;
                        proof {
                            lemma_outcome_settles_singles(
                                self.table,
                                self.grid.width as int,
                                self.grid.height as int,
                                before,
                                cell as int,
                                singleton_of(orientation as int),
                                self.grid.domains@,
                            );
                            assert(outcome(*old(self), p, time, *self, Ok(Some(cell))));
                        }
                        Ok(Some(cell))
                    },
                    Err(e) => {
                        self.fault = Some(e);
                        assert(outcome(*old(self), p, time, *self, Err(e)));
                        Err(e)
                    },
                }
            },
        }
    }
}

/// In a grid that was resolved to the end without a contradiction, every cell
/// has a single orientation left, the one it shows, and every two cells next
/// to each other hold orientations that the table allows side by side.
pub proof fn lemma_complete_grid_consistent(s: Context, c: int, d: int)
    requires
        s.wf(),
        s.fault is None,
        s.grid.complete(),
        0 <= c < s.grid.cells(),
        0 <= d < 4,
        neighbour(s.grid.width as int, s.grid.cells(), c, d) is Some,
    ensures
        ({
            let n = neighbour(s.grid.width as int, s.grid.cells(), c, d)->0;
            &&& 0 <= n < s.grid.cells()
            &&& s.grid.domains@[c].size() == 1
            &&& s.grid.domains@[c] == singleton_of(s.grid.map@[c] - 1)
            &&& s.table.compatible(s.grid.map@[c] - 1, s.grid.map@[n] - 1, d)
        }),
{
    let n = neighbour(s.grid.width as int, s.grid.cells(), c, d)->0;
    lemma_neighbour_in_grid(s.grid.width as int, s.grid.height as int, c, d);
    assert(s.grid.map@[c] != 0);
    assert(s.grid.map@[n] != 0);
    assert(s.grid.domains@[c] == singleton_of(s.grid.map@[c] - 1));
    assert(s.grid.domains@[n] == singleton_of(s.grid.map@[n] - 1));
    assert(source_stable(s.table, s.grid.width as int, s.grid.domains@, c));
    assert(arc_holds(s.table, s.grid.width as int, s.grid.domains@, c, d));
    assert(agrees(s.table, s.grid.domains@[c], d));
}

/// Fixing the same cell to the same orientation in two solvers with the same
/// counts leaves them with the same counts.
proof fn lemma_same_counts(
    a: Context,
    b: Context,
    a2: Context,
    b2: Context,
    cell: usize,
    orientation: usize,
)
    requires
        a.grid.usage.counts@ == b.grid.usage.counts@,
        fixes(a, a2, cell, orientation),
        fixes(b, b2, cell, orientation),
    ensures
        a2.grid.usage.counts@ == b2.grid.usage.counts@,
{
    assert forall|k: int| 0 <= k < 4 implies a2.grid.usage.counts@[k] == b2.grid.usage.counts@[k] by {
        assert(a2.grid.usage.of(k) == a.grid.usage.of(k) + indicator(k == orientation));
        assert(b2.grid.usage.of(k) == b.grid.usage.of(k) + indicator(k == orientation));
    }
    assert(a2.grid.usage.counts@ =~= b2.grid.usage.counts@);
}

/// Two solvers are on the same course: they show the same values, have the
/// same counts, and have either both stopped on a contradiction or are in the
/// same state.
pub open spec fn same_course(a: Context, b: Context) -> bool {
    &&& a@.map == b@.map
    &&& a@.counts == b@.counts
    &&& a@.halted == b@.halted
    &&& !a@.halted ==> a@ == b@
}

/// A run: `states[i + 1]` and `results[i]` are what the step at `times[i]`
/// makes of `states[i]`.
pub open spec fn run_ok(
    states: Seq<Context>,
    times: Seq<u64>,
    results: Seq<Result<Option<usize>, Contradiction>>,
) -> bool {
    &&& states.len() == times.len() + 1
    &&& results.len() == times.len()
    &&& forall|i: int|
        0 <= i < times.len() ==> (#[trigger] states[i]).wf() && step_ok(
            states[i],
            times[i],
            states[i + 1],
            results[i],
        )
}

/// A step is determined by the state it starts from and the clock reading:
/// two solvers on the same course that take a step at the same time are on
/// the same course afterwards, and either both report a contradiction or
/// report the same cell.
pub proof fn lemma_step_deterministic(
    a: Context,
    b: Context,
    time: u64,
    a2: Context,
    ra: Result<Option<usize>, Contradiction>,
    b2: Context,
    rb: Result<Option<usize>, Contradiction>,
)
    requires
        a.wf(),
        b.wf(),
        same_course(a, b),
        step_ok(a, time, a2, ra),
        step_ok(b, time, b2, rb),
    ensures
        same_course(a2, b2),
        ra is Ok <==> rb is Ok,
        ra is Ok ==> ra == rb,
{
    if a.fault is Some || !a.loaded || !a.due(time) {
    } else {
        let pa = choose|p: Pick|
            pick_ok(a.grid, a.policy, p) && #[trigger] outcome(a, p, time, a2, ra);
        let pb = choose|p: Pick|
            pick_ok(b.grid, b.policy, p) && #[trigger] outcome(b, p, time, b2, rb);
        lemma_pick_by_contents(b.grid, a.grid, a.policy, pb);
        lemma_pick_unique(a.grid, a.policy, pa, pb);
        match pa {
            Pick::Done => {},
            Pick::Forced { cell, orientation } => {
                lemma_same_counts(a, b, a2, b2, cell, orientation);
            },
            Pick::Weighted { cell, orientation } => {
                lemma_same_counts(a, b, a2, b2, cell, orientation);
                let fixed = a.grid.domains@.update(cell as int, singleton_of(orientation as int));
                if ra is Ok && rb is Ok {
                    lemma_greatest_unique(
                        a.table,
                        a.grid.width as int,
                        fixed,
                        cell as int,
                        a2.grid.domains@,
                        b2.grid.domains@,
                    );
                }
            },
        }
    }
}

/// Two runs that start on the same course and are fed the same clock readings
/// stay on the same course: after every step they show the same values, and
/// they report the same cells in the same order, or a contradiction at the
/// same step.
pub proof fn lemma_run_deterministic(
    sa: Seq<Context>,
    ra: Seq<Result<Option<usize>, Contradiction>>,
    sb: Seq<Context>,
    rb: Seq<Result<Option<usize>, Contradiction>>,
    times: Seq<u64>,
    i: int,
)
    requires
        run_ok(sa, times, ra),
        run_ok(sb, times, rb),
        same_course(sa[0], sb[0]),
        0 <= i <= times.len(),
    ensures
        same_course(sa[i], sb[i]),
        sa[i].grid.map@ == sb[i].grid.map@,
        forall|k: int|
            0 <= k < i ==> ((#[trigger] ra[k]) is Ok <==> rb[k] is Ok) && (ra[k] is Ok ==> ra[k]
                == rb[k]),
    decreases i,
{
    if i > 0 {
        lemma_run_deterministic(sa, ra, sb, rb, times, i - 1);
        assert(sa[i - 1].wf() && step_ok(sa[i - 1], times[i - 1], sa[i - 1 + 1], ra[i - 1]));
        assert(sb[i - 1].wf() && step_ok(sb[i - 1], times[i - 1], sb[i - 1 + 1], rb[i - 1]));
        lemma_step_deterministic(
            sa[i - 1],
            sb[i - 1],
            times[i - 1],
            sa[i],
            ra[i - 1],
            sb[i],
            rb[i - 1],
        );
    }
}

/// A cell that propagation has left with a single orientation is shown by the
/// very next step that is due, before any other cell is fixed: the step
/// reports the first such cell and narrows no domain.
pub proof fn lemma_forced_comes_first(
    pre: Context,
    time: u64,
    post: Context,
    r: Result<Option<usize>, Contradiction>,
    c: int,
)
    requires
        pre.wf(),
        pre.fault is None,
        pre.loaded,
        pre.due(time),
        first_forced(pre.grid, c),
        step_ok(pre, time, post, r),
    ensures
        r == Ok::<Option<usize>, Contradiction>(Some(c as usize)),
        post.grid.domains@ == pre.grid.domains@,
        post.grid.map@ == pre.grid.map@.update(c, shown(pre.grid.domains@[c].lowest())),
{
    let p = choose|p: Pick|
        pick_ok(pre.grid, pre.policy, p) && #[trigger] outcome(pre, p, time, post, r);
    let orientation = pre.grid.domains@[c].lowest();
    let forced = Pick::Forced { cell: c as usize, orientation: orientation as usize };
    assert(0 <= orientation < 4);
    assert(pick_ok(pre.grid, pre.policy, forced));
    lemma_pick_unique(pre.grid, pre.policy, p, forced);
}

} // verus!
