use tile_collapse::domain::Domain;
use tile_collapse::grid::Contradiction;
use tile_collapse::select::EntropyPolicy;
use tile_collapse::solver::{Context, DEFAULT_COOLDOWN, DEFAULT_HEIGHT, DEFAULT_WIDTH};
use tile_collapse::table::CompatibilityTable;
use tile_collapse::tile::LoadError;

fn only_zero_fits() -> CompatibilityTable {
    let mut t = CompatibilityTable::uniform(false);
    for d in 0..4 {
        t.set(0, 0, d, true);
    }
    t
}

fn corner_tile() -> Vec<u8> {
    let x: [u8; 4] = [10, 20, 30, 255];
    let y: [u8; 4] = [200, 100, 50, 255];
    let mut pixels: Vec<u8> = Vec::new();
    pixels.extend_from_slice(&x);
    pixels.extend_from_slice(&y);
    pixels.extend_from_slice(&x);
    pixels.extend_from_slice(&x);
    pixels
}

fn plain_tile() -> Vec<u8> {
    let mut pixels: Vec<u8> = Vec::new();
    for _ in 0..9 {
        pixels.extend_from_slice(&[1, 2, 3, 4]);
    }
    pixels
}

fn run(s: &mut Context, steps: usize) -> Vec<Result<Option<usize>, Contradiction>> {
    let mut out = Vec::new();
    for i in 0..steps {
        out.push(s.update(i as u64));
    }
    out
}

fn check_neighbours(s: &Context) {
    let cells = s.grid.len();
    for cell in 0..cells {
        assert_eq!(s.grid.domain_size(cell), 1);
        assert_eq!(s.grid.domain(cell), Domain::singleton(s.map()[cell] as usize - 1));
        for d in 0..4 {
            if let Some(n) = s.grid.neighbour_of(cell, d) {
                let here = s.map()[cell] as usize - 1;
                let there = s.map()[n] as usize - 1;
                assert!(s.table.get(here, there, d));
            }
        }
    }
}

#[test]
fn new_solver_has_the_default_grid() {
    let s = Context::new();
    assert_eq!(s.grid.width, DEFAULT_WIDTH);
    assert_eq!(s.grid.height, DEFAULT_HEIGHT);
    assert_eq!(s.grid.len(), 3600);
    assert_eq!(s.cooldown, DEFAULT_COOLDOWN);
    assert_eq!(s.cooldown, 1667);
    assert_eq!(s.cooldown_start, 0);
    assert_eq!(s.policy, EntropyPolicy::Maximise);
    assert!(!s.loaded);
    assert!(!s.is_halted());
    assert_eq!(s.map().len(), 3600);
}

#[test]
fn minimising_solver_repeats_one_orientation() {
    let mut s = Context::with_size(2, 2, 0).unwrap();
    s.set_policy(EntropyPolicy::Minimise);
    s.load_table(CompatibilityTable::uniform(true));
    assert_eq!(s.policy, EntropyPolicy::Minimise);
    let steps = run(&mut s, 5);
    assert_eq!(steps, vec![Ok(Some(0)), Ok(Some(1)), Ok(Some(2)), Ok(Some(3)), Ok(None)]);
    assert_eq!(s.map(), &vec![1, 1, 1, 1]);
    assert_eq!(s.grid.usage.counts, [4, 0, 0, 0]);
}

#[test]
fn solver_without_table_does_nothing() {
    let mut s = Context::with_size(2, 2, 0).unwrap();
    assert_eq!(s.update(0), Ok(None));
    assert_eq!(s.update(1000), Ok(None));
    assert_eq!(s.map(), &vec![0, 0, 0, 0]);
}

#[test]
fn solver_too_large_is_refused() {
    assert!(Context::with_size(usize::MAX, 2, 0).is_none());
    assert!(Context::with_size(usize::MAX / 4 + 1, 1, 0).is_none());
    assert!(Context::with_size(0, usize::MAX, 0).is_some());
}

#[test]
fn permissive_tile_converges_in_four_steps() {
    let mut s = Context::with_size(2, 2, 0).unwrap();
    s.load_table(CompatibilityTable::uniform(true));
    let mut seen: Vec<usize> = Vec::new();
    for i in 0..4u64 {
        match s.update(i) {
            Ok(Some(cell)) => {
                assert!(!seen.contains(&cell));
                seen.push(cell);
            }
            other => panic!("step {} gave {:?}", i, other),
        }
    }
    assert_eq!(seen, vec![0, 1, 2, 3]);
    assert!(s.is_complete());
    assert_eq!(s.map().len(), 4);
    assert!(s.map().iter().all(|v| *v != 0));
    assert_eq!(s.map(), &vec![1, 2, 3, 4]);
    assert_eq!(s.grid.usage.counts, [1, 1, 1, 1]);
    assert_eq!(s.update(4), Ok(None));
    assert_eq!(s.update(5), Ok(None));
    check_neighbours(&s);
}

#[test]
fn single_orientation_tile_converges_to_orientation_zero() {
    let mut s = Context::with_size(3, 3, 0).unwrap();
    s.load_table(only_zero_fits());
    let steps = run(&mut s, 10);
    for (i, r) in steps.iter().enumerate() {
        if i < 9 {
            assert_eq!(*r, Ok(Some(i)));
        } else {
            assert_eq!(*r, Ok(None));
        }
    }
    assert!(s.is_complete());
    assert_eq!(s.map(), &vec![1; 9]);
    assert_eq!(s.grid.usage.counts, [9, 0, 0, 0]);
    assert_eq!(s.grid.shrinks, 9);
    check_neighbours(&s);
}

#[test]
fn inconsistent_table_raises_a_contradiction() {
    let mut s = Context::with_size(2, 2, 0).unwrap();
    s.load_table(CompatibilityTable::uniform(false));
    let r = s.update(0);
    assert_eq!(r, Err(Contradiction { cell: 2 }));
    assert!(s.is_halted());
    assert_eq!(s.update(1), r);
    assert_eq!(s.update(100), r);
    assert_eq!(s.map(), &vec![1, 0, 0, 0]);
    assert!(!s.is_complete());
    s.load_table(CompatibilityTable::uniform(true));
    assert!(!s.is_halted());
    assert_eq!(s.map(), &vec![0, 0, 0, 0]);
    assert_eq!(s.update(0), Ok(Some(0)));
}

#[test]
fn contradiction_on_the_last_cell_leaves_no_consistent_grid() {
    let mut table = CompatibilityTable::uniform(true);
    for o2 in 0..4 {
        table.set(1, o2, 3, false);
    }
    let mut s = Context::with_size(2, 1, 0).unwrap();
    s.load_table(table);
    assert_eq!(s.update(0), Ok(Some(0)));
    assert_eq!(s.update(1), Err(Contradiction { cell: 0 }));
    assert!(s.is_halted());
    assert!(s.is_complete());
    assert_eq!(s.map(), &vec![1, 2]);
}

#[test]
fn forced_cells_come_before_a_new_choice() {
    let mut table = CompatibilityTable::uniform(true);
    for o2 in 0..4 {
        table.set(0, o2, 0, o2 == 2);
    }
    let mut s = Context::with_size(2, 2, 0).unwrap();
    s.load_table(table);
    assert_eq!(s.update(0), Ok(Some(0)));
    assert_eq!(s.map(), &vec![1, 0, 0, 0]);
    assert_eq!(s.grid.domain(2), Domain::singleton(2));
    assert_eq!(s.grid.domain(1), Domain::full());
    let before = s.grid.domains.clone();
    assert_eq!(s.update(1), Ok(Some(2)));
    assert_eq!(s.map(), &vec![1, 0, 3, 0]);
    assert_eq!(s.grid.domains, before);
    assert_eq!(s.grid.usage.counts, [1, 0, 1, 0]);
    assert_eq!(s.update(2), Ok(Some(1)));
    assert_eq!(s.map(), &vec![1, 2, 3, 0]);
}

#[test]
fn cooldown_holds_steps_back() {
    let mut s = Context::with_size(2, 2, 10).unwrap();
    s.load_table(CompatibilityTable::uniform(true));
    assert_eq!(s.update(5), Ok(None));
    assert_eq!(s.update(9), Ok(None));
    assert_eq!(s.map(), &vec![0, 0, 0, 0]);
    assert_eq!(s.update(10), Ok(Some(0)));
    assert_eq!(s.cooldown_start, 10);
    assert_eq!(s.update(15), Ok(None));
    assert_eq!(s.update(19), Ok(None));
    assert_eq!(s.update(3), Ok(None));
    assert_eq!(s.cooldown_start, 10);
    assert_eq!(s.update(20), Ok(Some(1)));
    assert_eq!(s.cooldown_start, 20);
    assert_eq!(s.update(u64::MAX), Ok(Some(2)));
    assert_eq!(s.update(u64::MAX), Ok(None));
    assert_eq!(s.map(), &vec![1, 2, 3, 0]);
}

#[test]
fn finished_solver_keeps_its_clock() {
    let mut s = Context::with_size(1, 1, 0).unwrap();
    s.load_table(CompatibilityTable::uniform(true));
    assert_eq!(s.update(7), Ok(Some(0)));
    assert_eq!(s.cooldown_start, 7);
    assert_eq!(s.update(50), Ok(None));
    assert_eq!(s.cooldown_start, 7);
    assert_eq!(s.map(), &vec![1]);
}

#[test]
fn set_image_rejects_what_is_no_square_tile() {
    let mut s = Context::with_size(2, 2, 0).unwrap();
    assert_eq!(s.set_image(vec![0; 24], 2, 3), Err(LoadError::NotSquare));
    assert_eq!(s.set_image(Vec::new(), 0, 0), Err(LoadError::Empty));
    assert_eq!(s.set_image(vec![0; 12], 2, 2), Err(LoadError::WrongLength));
    assert!(!s.loaded);
    assert_eq!(s.update(0), Ok(None));
}

#[test]
fn rejected_tile_leaves_a_running_solver_alone() {
    let mut s = Context::with_size(2, 2, 0).unwrap();
    s.load_table(CompatibilityTable::uniform(true));
    assert_eq!(s.update(0), Ok(Some(0)));
    assert_eq!(s.set_image(vec![0; 3], 1, 1), Err(LoadError::WrongLength));
    assert!(s.loaded);
    assert_eq!(s.map(), &vec![1, 0, 0, 0]);
    assert_eq!(s.update(1), Ok(Some(1)));
}

#[test]
fn set_image_derives_the_table_and_starts_over() {
    let mut s = Context::with_size(3, 3, 0).unwrap();
    s.load_table(CompatibilityTable::uniform(false));
    assert!(s.update(0).is_err());
    assert_eq!(s.set_image(plain_tile(), 3, 3), Ok(()));
    assert!(s.loaded);
    assert!(!s.is_halted());
    assert_eq!(s.cooldown_start, 0);
    assert_eq!(s.map(), &vec![0; 9]);
    assert_eq!(s.grid.usage.counts, [0, 0, 0, 0]);
    for o1 in 0..4 {
        for o2 in 0..4 {
            for d in 0..4 {
                assert!(s.table.get(o1, o2, d));
            }
        }
    }
    let steps = run(&mut s, 9);
    for (i, r) in steps.iter().enumerate() {
        assert_eq!(*r, Ok(Some(i)));
    }
    assert_eq!(s.map(), &vec![1, 2, 3, 4, 1, 2, 3, 4, 1]);
}

#[test]
fn two_runs_on_one_tile_agree() {
    let mut a = Context::with_size(5, 4, 3).unwrap();
    let mut b = Context::with_size(5, 4, 3).unwrap();
    assert_eq!(a.set_image(corner_tile(), 2, 2), Ok(()));
    assert_eq!(b.set_image(corner_tile(), 2, 2), Ok(()));
    let mut reported: Vec<Result<Option<usize>, Contradiction>> = Vec::new();
    for i in 0..100u64 {
        let ra = a.update(2 * i);
        let rb = b.update(2 * i);
        assert_eq!(ra, rb);
        assert_eq!(a.map(), b.map());
        assert_eq!(a.grid.domains, b.grid.domains);
        reported.push(ra);
    }
    assert_eq!(reported[0], Ok(None));
    assert_eq!(reported[1], Ok(None));
    assert_eq!(reported[2], Ok(Some(0)));
    assert_eq!(reported[3], Ok(None));
}

#[test]
fn solved_grid_of_a_tile_is_consistent() {
    let mut s = Context::with_size(6, 6, 0).unwrap();
    assert_eq!(s.set_image(corner_tile(), 2, 2), Ok(()));
    let mut time: u64 = 0;
    let mut changed: Vec<usize> = Vec::new();
    loop {
        match s.update(time) {
            Ok(Some(cell)) => {
                assert!(!changed.contains(&cell));
                assert_ne!(s.map()[cell], 0);
                changed.push(cell);
            }
            Ok(None) => break,
            Err(_) => break,
        }
        time += 1;
        assert!(time <= 36);
    }
    assert!(!s.is_halted());
    assert!(s.is_complete());
    assert_eq!(changed, (0..36).collect::<Vec<usize>>());
    check_neighbours(&s);
    let mut expected: Vec<u8> = Vec::new();
    for y in 0..6 {
        for x in 0..6 {
            expected.push(if (x + y) % 2 == 0 { 1 } else { 3 });
        }
    }
    assert_eq!(s.map(), &expected);
    assert_eq!(s.grid.usage.counts, [18, 0, 18, 0]);
    assert_eq!(s.grid.shrinks, 53);
    assert!(s.grid.shrinks <= 3 * 36);
}

#[test]
fn shrinks_stay_within_three_for_each_cell() {
    let mut s = Context::with_size(4, 4, 0).unwrap();
    s.load_table(CompatibilityTable::from_fingerprints(&[1, 2, 3, 4]));
    let mut last: usize = 0;
    for i in 0..40u64 {
        let _ = s.update(i);
        assert!(s.grid.shrinks >= last);
        assert!(s.grid.shrinks <= 3 * 16);
        last = s.grid.shrinks;
    }
    assert!(s.is_complete());
    assert_eq!(s.grid.shrinks, 16);
    assert_eq!(s.map(), &vec![1, 3, 1, 3, 3, 1, 3, 1, 1, 3, 1, 3, 3, 1, 3, 1]);
    check_neighbours(&s);
}
