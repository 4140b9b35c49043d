use tile_collapse::domain::Domain;
use tile_collapse::grid::{Contradiction, Grid, UsageCounts};
use tile_collapse::propagate::{agreed_row, propagate};
use tile_collapse::select::{EntropyPolicy, Pick};
use tile_collapse::table::CompatibilityTable;

fn only_zero_fits() -> CompatibilityTable {
    let mut t = CompatibilityTable::uniform(false);
    for d in 0..4 {
        t.set(0, 0, d, true);
    }
    t
}

#[test]
fn initialize_gives_full_unresolved_cells() {
    let g = Grid::initialize(3, 2);
    assert_eq!(g.width, 3);
    assert_eq!(g.height, 2);
    assert_eq!(g.len(), 6);
    assert_eq!(g.map, vec![0; 6]);
    assert_eq!(g.shrinks, 0);
    for cell in 0..6 {
        assert_eq!(g.domain(cell), Domain::full());
        assert_eq!(g.domain_size(cell), 4);
        assert_eq!(g.value(cell), 0);
    }
    for o in 0..4 {
        assert_eq!(g.usage.get(o), 0);
    }
    assert!(!g.is_complete());
}

#[test]
fn grid_without_cells_is_complete() {
    let g = Grid::initialize(0, 5);
    assert_eq!(g.len(), 0);
    assert!(g.is_complete());
    assert_eq!(g.pick(EntropyPolicy::Maximise), Pick::Done);
}

#[test]
fn resolve_fixes_shows_and_counts() {
    let mut g = Grid::initialize(2, 2);
    g.resolve(1, 2);
    assert_eq!(g.domain(1), Domain::singleton(2));
    assert_eq!(g.domain_size(1), 1);
    assert_eq!(g.value(1), 3);
    assert_eq!(g.map, vec![0, 3, 0, 0]);
    assert_eq!(g.usage.counts, [0, 0, 1, 0]);
    assert_eq!(g.shrinks, 1);
    assert_eq!(g.domain(0), Domain::full());
}

#[test]
fn resolve_counts_a_cell_once() {
    let mut g = Grid::initialize(2, 1);
    g.resolve(0, 3);
    g.resolve(0, 3);
    assert_eq!(g.usage.counts, [0, 0, 0, 1]);
    assert_eq!(g.shrinks, 1);
    assert_eq!(g.map, vec![4, 0]);
}

#[test]
fn resolve_of_a_pinned_cell_is_no_shrink() {
    let mut g = Grid::initialize(2, 1);
    assert_eq!(g.restrict(1, Domain::singleton(1)), Ok(true));
    assert_eq!(g.shrinks, 1);
    assert_eq!(g.value(1), 0);
    g.resolve(1, 1);
    assert_eq!(g.shrinks, 1);
    assert_eq!(g.value(1), 2);
    assert_eq!(g.usage.counts, [0, 1, 0, 0]);
}

#[test]
fn restrict_says_whether_the_domain_shrank() {
    let mut g = Grid::initialize(2, 2);
    let some = Domain::from_flags(true, true, false, false);
    assert_eq!(g.restrict(3, Domain::full()), Ok(false));
    assert_eq!(g.shrinks, 0);
    assert_eq!(g.restrict(3, some), Ok(true));
    assert_eq!(g.domain(3), some);
    assert_eq!(g.shrinks, 1);
    assert_eq!(g.restrict(3, some), Ok(false));
    assert_eq!(g.restrict(3, Domain::from_flags(false, true, true, true)), Ok(true));
    assert_eq!(g.domain(3), Domain::singleton(1));
    assert_eq!(g.shrinks, 2);
    assert_eq!(g.map, vec![0; 4]);
}

#[test]
fn restrict_to_nothing_is_a_contradiction() {
    let mut g = Grid::initialize(2, 2);
    assert_eq!(g.restrict(2, Domain::empty()), Err(Contradiction { cell: 2 }));
    assert_eq!(g.domain(2), Domain::full());
    g.resolve(2, 0);
    assert_eq!(g.restrict(2, Domain::singleton(1)), Err(Contradiction { cell: 2 }));
    assert_eq!(g.domain(2), Domain::singleton(0));
    assert_eq!(g.shrinks, 1);
}

#[test]
fn neighbours_in_a_grid_of_three_by_two() {
    let g = Grid::initialize(3, 2);
    assert_eq!(g.neighbour_of(0, 0), Some(3));
    assert_eq!(g.neighbour_of(0, 1), Some(1));
    assert_eq!(g.neighbour_of(0, 2), None);
    assert_eq!(g.neighbour_of(0, 3), None);
    assert_eq!(g.neighbour_of(2, 0), Some(5));
    assert_eq!(g.neighbour_of(2, 1), None);
    assert_eq!(g.neighbour_of(2, 3), Some(1));
    assert_eq!(g.neighbour_of(4, 0), None);
    assert_eq!(g.neighbour_of(4, 1), Some(5));
    assert_eq!(g.neighbour_of(4, 2), Some(1));
    assert_eq!(g.neighbour_of(4, 3), Some(3));
    assert_eq!(g.neighbour_of(3, 3), None);
}

#[test]
fn neighbours_come_back_the_opposite_way() {
    let g = Grid::initialize(4, 3);
    for cell in 0..12 {
        for d in 0..4 {
            if let Some(n) = g.neighbour_of(cell, d) {
                assert_eq!(g.neighbour_of(n, (d + 2) % 4), Some(cell));
            }
        }
    }
}

#[test]
fn single_cell_has_no_neighbour() {
    let g = Grid::initialize(1, 1);
    for d in 0..4 {
        assert_eq!(g.neighbour_of(0, d), None);
    }
}

#[test]
fn maximising_prefers_low_counts_then_low_index() {
    let most_even = EntropyPolicy::Maximise;
    let u = UsageCounts { counts: [2, 1, 1, 5] };
    assert_eq!(u.favoured_in(Domain::full(), most_even), Some(1));
    assert_eq!(u.favoured_in(Domain::from_flags(true, false, false, true), most_even), Some(0));
    assert_eq!(u.favoured_in(Domain::from_flags(false, false, true, true), most_even), Some(2));
    assert_eq!(u.favoured_in(Domain::singleton(3), most_even), Some(3));
    assert_eq!(u.favoured_in(Domain::empty(), most_even), None);
    let even = UsageCounts::new();
    assert_eq!(even.favoured_in(Domain::full(), most_even), Some(0));
    assert_eq!(even.favoured_in(Domain::from_flags(false, false, true, true), most_even), Some(2));
}

#[test]
fn minimising_prefers_high_counts_then_low_index() {
    let least_even = EntropyPolicy::Minimise;
    let u = UsageCounts { counts: [5, 1, 5, 2] };
    assert_eq!(u.favoured_in(Domain::full(), least_even), Some(0));
    assert_eq!(u.favoured_in(Domain::from_flags(false, true, true, true), least_even), Some(2));
    assert_eq!(u.favoured_in(Domain::from_flags(false, true, false, true), least_even), Some(3));
    assert_eq!(u.favoured_in(Domain::singleton(1), least_even), Some(1));
    assert_eq!(u.favoured_in(Domain::empty(), least_even), None);
    let even = UsageCounts::new();
    assert_eq!(even.favoured_in(Domain::full(), least_even), Some(0));
}

fn entropy(counts: [u64; 4]) -> f64 {
    let sum: u64 = counts.iter().sum();
    counts
        .iter()
        .map(|c| {
            let p = *c as f64 / sum as f64;
            if p == 0. {
                0.
            } else {
                -p * p.log2()
            }
        })
        .sum()
}

#[test]
fn favoured_orientation_takes_the_entropy_to_its_extreme() {
    let samples: [[u64; 4]; 6] = [
        [0, 0, 0, 0],
        [2, 1, 1, 5],
        [7, 0, 3, 3],
        [1, 2, 3, 4],
        [10, 10, 9, 11],
        [0, 40, 0, 1],
    ];
    for counts in samples.iter() {
        for bits in 1u8..16 {
            let dom = Domain { bits };
            let u = UsageCounts { counts: *counts };
            let high = u.favoured_in(dom, EntropyPolicy::Maximise).unwrap();
            let low = u.favoured_in(dom, EntropyPolicy::Minimise).unwrap();
            assert!(dom.contains(high));
            assert!(dom.contains(low));
            let mut after_high = *counts;
            after_high[high] += 1;
            let mut after_low = *counts;
            after_low[low] += 1;
            for k in 0..4 {
                if dom.contains(k) {
                    let mut after = *counts;
                    after[k] += 1;
                    assert!(entropy(after_high) >= entropy(after) - 1e-12);
                    assert!(entropy(after_low) <= entropy(after) + 1e-12);
                }
            }
        }
    }
}

#[test]
fn pick_takes_the_first_forced_cell_first() {
    let mut g = Grid::initialize(3, 1);
    assert_eq!(g.restrict(2, Domain::singleton(3)), Ok(true));
    assert_eq!(g.restrict(1, Domain::singleton(2)), Ok(true));
    assert_eq!(g.restrict(0, Domain::from_flags(true, true, false, false)), Ok(true));
    assert_eq!(g.find_forced(), Some(1));
    assert_eq!(g.pick(EntropyPolicy::Maximise), Pick::Forced { cell: 1, orientation: 2 });
    g.resolve(1, 2);
    assert_eq!(g.pick(EntropyPolicy::Maximise), Pick::Forced { cell: 2, orientation: 3 });
    g.resolve(2, 3);
    assert_eq!(g.find_forced(), None);
    assert_eq!(g.pick(EntropyPolicy::Maximise), Pick::Weighted { cell: 0, orientation: 0 });
    g.resolve(0, 0);
    assert_eq!(g.pick(EntropyPolicy::Maximise), Pick::Done);
    assert!(g.is_complete());
}

#[test]
fn pick_takes_the_most_constrained_cell() {
    let mut g = Grid::initialize(2, 2);
    assert_eq!(g.find_most_constrained(), Some(0));
    assert_eq!(g.restrict(1, Domain::from_flags(true, true, true, false)), Ok(true));
    assert_eq!(g.restrict(2, Domain::from_flags(false, true, false, true)), Ok(true));
    assert_eq!(g.restrict(3, Domain::from_flags(false, false, true, true)), Ok(true));
    assert_eq!(g.find_most_constrained(), Some(2));
    assert_eq!(g.pick(EntropyPolicy::Maximise), Pick::Weighted { cell: 2, orientation: 1 });
    assert_eq!(g.pick(EntropyPolicy::Minimise), Pick::Weighted { cell: 2, orientation: 1 });
    g.resolve(2, 1);
    assert_eq!(g.pick(EntropyPolicy::Maximise), Pick::Weighted { cell: 3, orientation: 2 });
    assert_eq!(g.pick(EntropyPolicy::Minimise), Pick::Weighted { cell: 3, orientation: 2 });
    g.resolve(3, 2);
    assert_eq!(g.pick(EntropyPolicy::Maximise), Pick::Weighted { cell: 1, orientation: 0 });
    assert_eq!(g.pick(EntropyPolicy::Minimise), Pick::Weighted { cell: 1, orientation: 1 });
}

#[test]
fn agreed_row_needs_all_members_to_agree() {
    let yes = CompatibilityTable::uniform(true);
    let zero = only_zero_fits();
    for d in 0..4 {
        assert_eq!(agreed_row(&yes, Domain::full(), d), Some(Domain::full()));
        assert_eq!(agreed_row(&zero, Domain::full(), d), None);
        assert_eq!(agreed_row(&zero, Domain::singleton(0), d), Some(Domain::singleton(0)));
        assert_eq!(agreed_row(&zero, Domain::singleton(2), d), Some(Domain::empty()));
        assert_eq!(
            agreed_row(&zero, Domain::from_flags(false, true, true, false), d),
            Some(Domain::empty())
        );
        assert_eq!(agreed_row(&zero, Domain::from_flags(true, true, false, false), d), None);
    }
}

#[test]
fn propagate_narrows_along_the_row() {
    let table = only_zero_fits();
    let mut g = Grid::initialize(4, 1);
    g.resolve(1, 0);
    assert_eq!(propagate(&mut g, &table, 1), Ok(()));
    for cell in 0..4 {
        assert_eq!(g.domain(cell), Domain::singleton(0));
    }
    assert_eq!(g.map, vec![0, 1, 0, 0]);
    assert_eq!(g.usage.counts, [1, 0, 0, 0]);
    assert_eq!(g.shrinks, 4);
}

#[test]
fn propagate_leaves_a_permissive_grid_alone() {
    let table = CompatibilityTable::uniform(true);
    let mut g = Grid::initialize(3, 3);
    g.resolve(4, 2);
    assert_eq!(propagate(&mut g, &table, 4), Ok(()));
    for cell in 0..9 {
        if cell == 4 {
            assert_eq!(g.domain(cell), Domain::singleton(2));
        } else {
            assert_eq!(g.domain(cell), Domain::full());
        }
    }
    assert_eq!(g.shrinks, 1);
}

#[test]
fn propagate_stops_where_members_disagree() {
    let mut table = CompatibilityTable::uniform(true);
    for o2 in 1..4 {
        table.set(0, o2, 1, false);
    }
    table.set(1, 0, 1, false);
    let mut g = Grid::initialize(3, 1);
    assert_eq!(g.restrict(0, Domain::from_flags(true, true, false, false)), Ok(true));
    assert_eq!(propagate(&mut g, &table, 0), Ok(()));
    assert_eq!(g.domain(1), Domain::full());
    g.resolve(0, 0);
    assert_eq!(propagate(&mut g, &table, 0), Ok(()));
    assert_eq!(g.domain(1), Domain::singleton(0));
    assert_eq!(g.domain(2), Domain::singleton(0));
}

#[test]
fn propagate_reports_the_cell_left_without_orientation() {
    let table = CompatibilityTable::uniform(false);
    let mut g = Grid::initialize(2, 2);
    g.resolve(3, 1);
    let r = propagate(&mut g, &table, 3);
    assert!(matches!(r, Err(Contradiction { cell }) if cell == 1 || cell == 2));
    assert_eq!(g.map, vec![0, 0, 0, 2]);
}
