use std::collections::HashSet;

use blocks::cells::CellSet;
use blocks::oracles::Oracle;
use blocks::polycube::Polycube;
use blocks::sampler::{get_random, Acceptance, Uniform};

type Cell = (i32, i32, i32);

struct Never;

impl Acceptance for Never {
    fn accept(&mut self, _border_before: usize, _border_after: usize) -> bool {
        false
    }
}

struct OnlyWhenBorderKeepsItsSize {
    asked: usize,
    kept: usize,
}

impl Acceptance for OnlyWhenBorderKeepsItsSize {
    fn accept(&mut self, border_before: usize, border_after: usize) -> bool {
        self.asked += 1;
        if border_before == border_after {
            self.kept += 1;
            true
        } else {
            false
        }
    }
}

struct Recorder {
    seen: Vec<(usize, usize)>,
}

impl Acceptance for Recorder {
    fn accept(&mut self, border_before: usize, border_after: usize) -> bool {
        self.seen.push((border_before, border_after));
        true
    }
}

fn cells_of(pfm: &Polycube) -> HashSet<Cell> {
    pfm.complex().to_vec().into_iter().collect()
}

fn border_of(pfm: &Polycube) -> HashSet<Cell> {
    pfm.insertable_locations().to_vec().into_iter().collect()
}

fn border_from_scratch(cells: &HashSet<Cell>) -> HashSet<Cell> {
    let mut border = HashSet::new();
    for &(x, y, z) in cells {
        for n in [(x, y, z + 1), (x, y, z - 1), (x, y + 1, z), (x, y - 1, z), (x + 1, y, z), (x - 1, y, z)] {
            if !cells.contains(&n) {
                border.insert(n);
            }
        }
    }
    border
}

fn oracles_agree_along_a_walk(len: usize, steps: usize) {
    let mut pfm = Polycube::new(len);
    let mut policy = Uniform;
    let oracles = [Oracle::Dfs, Oracle::NaivePeel, Oracle::SemiNaive];
    for i in 0..steps {
        let moved = pfm.step(&mut policy, oracles[i % 3]);
        assert_eq!(pfm.complex().len(), len);
        let dfs = pfm.dfs();
        assert!(dfs);
        assert_eq!(pfm.naive(), dfs);
        if let Some((_, removed)) = moved {
            assert_eq!(pfm.semi_naive(&removed), dfs);
        }
    }
}

#[test]
fn get_random_picks_a_member() {
    let mut set = CellSet::new();
    for z in 0..7 {
        set.insert((1, 2, z));
    }
    let mut seen: HashSet<Cell> = HashSet::new();
    for _ in 0..400 {
        let c = get_random(&set);
        assert!(set.contains(&c));
        seen.insert(c);
    }
    assert!(seen.len() > 1);
}

#[test]
fn get_random_of_a_single_cell_is_that_cell() {
    let mut set = CellSet::new();
    set.insert((4, 5, 6));
    assert_eq!(get_random(&set), (4, 5, 6));
    let pfm = Polycube::new(1);
    assert_eq!(pfm.get_random(), (0, 0, 0));
}

#[test]
fn remove_random_vacates_an_occupied_cell() {
    let mut pfm = Polycube::new(6);
    let before = cells_of(&pfm);
    let removed = pfm.remove_random();
    assert!(before.contains(&removed));
    assert!(!pfm.complex().contains(&removed));
    assert_eq!(pfm.complex().len(), 5);
    assert_eq!(border_of(&pfm), border_from_scratch(&cells_of(&pfm)));
}

#[test]
fn insert_random_occupies_a_border_cell() {
    let mut pfm = Polycube::new(6);
    let border = border_of(&pfm);
    let inserted = pfm.insert_random();
    assert!(border.contains(&inserted));
    assert!(pfm.complex().contains(&inserted));
    assert_eq!(pfm.complex().len(), 7);
    assert_eq!(border_of(&pfm), border_from_scratch(&cells_of(&pfm)));
}

#[test]
fn resolve_keeps_a_valid_accepted_move() {
    let mut pfm = Polycube::new(4);
    pfm.remove(&(0, 0, 3));
    pfm.insert((1, 0, 0));
    let after = cells_of(&pfm);
    for oracle in [Oracle::Dfs, Oracle::NaivePeel, Oracle::SemiNaive] {
        assert_eq!(pfm.resolve((1, 0, 0), (0, 0, 3), true, oracle), Some(((1, 0, 0), (0, 0, 3))));
        assert_eq!(cells_of(&pfm), after);
    }
}

#[test]
fn resolve_undoes_a_move_that_failed_the_weight_test() {
    let mut pfm = Polycube::new(4);
    let before = cells_of(&pfm);
    let border = border_of(&pfm);
    pfm.remove(&(0, 0, 3));
    pfm.insert((1, 0, 0));
    assert_eq!(pfm.resolve((1, 0, 0), (0, 0, 3), false, Oracle::Dfs), None);
    assert_eq!(cells_of(&pfm), before);
    assert_eq!(border_of(&pfm), border);
}

#[test]
fn resolve_undoes_a_move_that_disconnects() {
    for oracle in [Oracle::Dfs, Oracle::NaivePeel, Oracle::SemiNaive] {
        let mut pfm = Polycube::new(5);
        let before = cells_of(&pfm);
        let border = border_of(&pfm);
        pfm.remove(&(0, 0, 2));
        pfm.insert((0, 0, 5));
        assert_eq!(pfm.resolve((0, 0, 5), (0, 0, 2), true, oracle), None);
        assert_eq!(cells_of(&pfm), before);
        assert_eq!(border_of(&pfm), border);
    }
}

#[test]
fn resolve_keeps_a_cell_put_back_where_it_was() {
    let mut pfm = Polycube::new(3);
    let before = cells_of(&pfm);
    pfm.remove(&(0, 0, 1));
    pfm.insert((0, 0, 1));
    assert_eq!(pfm.resolve((0, 0, 1), (0, 0, 1), true, Oracle::SemiNaive), Some(((0, 0, 1), (0, 0, 1))));
    assert_eq!(cells_of(&pfm), before);
    assert_eq!(pfm.resolve((0, 0, 1), (0, 0, 1), false, Oracle::SemiNaive), None);
    assert_eq!(cells_of(&pfm), before);
}

#[test]
fn uniform_accepts_every_move() {
    let mut policy = Uniform;
    assert!(policy.accept(0, 0));
    assert!(policy.accept(22, 26));
    assert!(policy.accept(26, 22));
}

#[test]
fn one_uniform_step_on_ten_cells() {
    for _ in 0..200 {
        let mut pfm = Polycube::new(10);
        let before = cells_of(&pfm);
        let mut policy = Uniform;
        let moved = pfm.step(&mut policy, Oracle::Dfs);
        assert_eq!(pfm.complex().len(), 10);
        assert!(pfm.dfs());
        match moved {
            Some((inserted, removed)) => {
                assert!(before.contains(&removed));
                assert!(pfm.complex().contains(&inserted));
                if inserted != removed {
                    assert!(!pfm.complex().contains(&removed));
                    assert!(!before.contains(&inserted));
                }
            },
            None => assert_eq!(cells_of(&pfm), before),
        }
    }
}

#[test]
fn one_uniform_shuffle_on_ten_cells() {
    for _ in 0..200 {
        let mut pfm = Polycube::new(10);
        let before = cells_of(&pfm);
        let last = pfm.shuffle(1);
        assert_eq!(pfm.complex().len(), 10);
        assert!(pfm.dfs());
        match last {
            Some((inserted, removed)) => {
                assert!(pfm.complex().contains(&inserted));
                if inserted != removed {
                    assert!(!pfm.complex().contains(&removed));
                }
            },
            None => assert_eq!(cells_of(&pfm), before),
        }
    }
}

#[test]
fn shuffle_keeps_the_number_of_cells() {
    for len in [2usize, 3, 7, 20] {
        for times in [0usize, 1, 2, 10, 250] {
            let mut pfm = Polycube::new(len);
            pfm.shuffle(times);
            assert_eq!(pfm.complex().len(), len);
            assert!(pfm.dfs());
        }
    }
}

#[test]
fn shuffle_of_no_step_changes_nothing() {
    let mut pfm = Polycube::new(5);
    let before = cells_of(&pfm);
    assert_eq!(pfm.shuffle(0), None);
    assert_eq!(cells_of(&pfm), before);
}

#[test]
fn shuffle_moves_the_body() {
    let mut pfm = Polycube::new(12);
    let before = cells_of(&pfm);
    let last = pfm.shuffle(500);
    assert!(last.is_some());
    assert_ne!(cells_of(&pfm), before);
}

#[test]
fn border_is_exact_after_every_step() {
    let mut pfm = Polycube::new(15);
    let mut policy = Uniform;
    for _ in 0..2000 {
        pfm.step(&mut policy, Oracle::Dfs);
        let cells = cells_of(&pfm);
        assert_eq!(cells.len(), 15);
        assert_eq!(border_of(&pfm), border_from_scratch(&cells));
    }
}

#[test]
fn bounding_box_encloses_the_body_after_every_step() {
    let mut pfm = Polycube::new(8);
    let mut policy = Uniform;
    for _ in 0..2000 {
        pfm.step(&mut policy, Oracle::SemiNaive);
        let b = pfm.bounding_box();
        for (x, y, z) in pfm.complex().to_vec() {
            assert!(b.min_x <= x && x <= b.max_x);
            assert!(b.min_y <= y && y <= b.max_y);
            assert!(b.min_z <= z && z <= b.max_z);
        }
    }
}

#[test]
fn a_single_cell_never_moves() {
    let mut pfm = Polycube::new(1);
    let mut policy = Uniform;
    for oracle in [Oracle::Dfs, Oracle::NaivePeel, Oracle::SemiNaive] {
        for _ in 0..50 {
            assert_eq!(pfm.step(&mut policy, oracle), None);
        }
    }
    assert_eq!(pfm.shuffle(100), None);
    let expected_border: HashSet<Cell> =
        [(0, 0, 1), (0, 0, -1), (0, 1, 0), (0, -1, 0), (1, 0, 0), (-1, 0, 0)].into_iter().collect();
    assert_eq!(pfm.complex().to_vec(), vec![(0, 0, 0)]);
    assert_eq!(border_of(&pfm), expected_border);
    assert!(pfm.dfs());
}

#[test]
fn an_empty_body_never_moves() {
    let mut pfm = Polycube::new(0);
    assert_eq!(pfm.shuffle(10), None);
    assert_eq!(pfm.complex().len(), 0);
    assert_eq!(pfm.insertable_locations().len(), 0);
}

#[test]
fn oracles_agree_along_a_walk_of_one_cell() {
    oracles_agree_along_a_walk(1, 10_000);
}

#[test]
fn oracles_agree_along_a_walk_of_two_cells() {
    oracles_agree_along_a_walk(2, 10_000);
}

#[test]
fn oracles_agree_along_a_walk_of_five_cells() {
    oracles_agree_along_a_walk(5, 10_000);
}

#[test]
fn oracles_agree_along_a_walk_of_fifty_cells() {
    oracles_agree_along_a_walk(50, 10_000);
}

#[test]
fn oracles_agree_on_proposals_before_they_are_settled() {
    let mut pfm = Polycube::new(9);
    let mut kept = 0;
    let mut undone = 0;
    for i in 0..3000 {
        let removed = pfm.remove_random();
        let inserted = pfm.insert_random();
        let dfs = pfm.dfs();
        assert_eq!(pfm.naive(), dfs);
        assert_eq!(pfm.semi_naive(&removed), dfs);
        let oracle = [Oracle::Dfs, Oracle::NaivePeel, Oracle::SemiNaive][i % 3];
        match pfm.resolve(inserted, removed, true, oracle) {
            Some(pair) => {
                assert!(dfs);
                assert_eq!(pair, (inserted, removed));
                kept += 1;
            },
            None => {
                assert!(!dfs);
                undone += 1;
            },
        }
        assert!(pfm.dfs());
        assert_eq!(pfm.complex().len(), 9);
    }
    assert!(kept > 0);
    assert!(undone > 0);
}

#[test]
fn a_policy_that_never_accepts_freezes_the_body() {
    let mut pfm = Polycube::new(10);
    let before = cells_of(&pfm);
    let border = border_of(&pfm);
    let mut policy = Never;
    assert_eq!(pfm.shuffle_with(300, &mut policy, Oracle::Dfs), None);
    assert_eq!(cells_of(&pfm), before);
    assert_eq!(border_of(&pfm), border);
}

#[test]
fn a_step_that_changes_the_border_size_can_be_refused() {
    let mut pfm = Polycube::new(10);
    let mut policy = OnlyWhenBorderKeepsItsSize { asked: 0, kept: 0 };
    for _ in 0..1000 {
        let before = cells_of(&pfm);
        let size_before = pfm.insertable_locations().len();
        let kept_before = policy.kept;
        let moved = pfm.step(&mut policy, Oracle::Dfs);
        if policy.kept == kept_before {
            assert_eq!(moved, None);
            assert_eq!(cells_of(&pfm), before);
        }
        assert_eq!(pfm.insertable_locations().len(), size_before);
        assert_eq!(pfm.complex().len(), 10);
    }
    assert_eq!(policy.asked, 1000);
}

#[test]
fn the_policy_is_told_the_border_sizes() {
    let mut pfm = Polycube::new(6);
    let mut policy = Recorder { seen: Vec::new() };
    let mut size = pfm.insertable_locations().len();
    assert_eq!(size, 26);
    for _ in 0..300 {
        let moved = pfm.step(&mut policy, Oracle::Dfs);
        let (before, after) = *policy.seen.last().unwrap();
        assert_eq!(before, size);
        if moved.is_some() {
            assert_eq!(after, pfm.insertable_locations().len());
        } else {
            assert_eq!(pfm.insertable_locations().len(), size);
        }
        size = pfm.insertable_locations().len();
    }
    assert_eq!(policy.seen.len(), 300);
}
