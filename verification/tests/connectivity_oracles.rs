use blocks::oracles::Oracle;
use blocks::polycube::Polycube;

type Cell = (i32, i32, i32);

fn all_three(pfm: &Polycube, removed: &Cell) -> (bool, bool, bool) {
    (pfm.dfs(), pfm.naive(), pfm.semi_naive(removed))
}

#[test]
fn rod_of_five_is_valid() {
    let pfm = Polycube::new(5);
    assert!(pfm.dfs());
    assert!(pfm.naive());
}

#[test]
fn rod_without_an_interior_cell_is_invalid_for_all_oracles() {
    for gap in 1..4 {
        let mut pfm = Polycube::new(5);
        let removed = (0, 0, gap);
        pfm.remove(&removed);
        assert_eq!(all_three(&pfm, &removed), (false, false, false));
        assert!(!pfm.check_validity(Oracle::Dfs, &removed));
        assert!(!pfm.check_validity(Oracle::NaivePeel, &removed));
        assert!(!pfm.check_validity(Oracle::SemiNaive, &removed));
    }
}

#[test]
fn rod_without_an_end_cell_is_valid_for_all_oracles() {
    for end in [0, 4] {
        let mut pfm = Polycube::new(5);
        let removed = (0, 0, end);
        pfm.remove(&removed);
        assert_eq!(all_three(&pfm, &removed), (true, true, true));
    }
}

#[test]
fn empty_body_is_valid() {
    let pfm = Polycube::new(0);
    assert!(pfm.dfs());
    assert!(pfm.naive());
    assert!(pfm.check_validity(Oracle::Dfs, &(0, 0, 0)));
    assert!(pfm.check_validity(Oracle::NaivePeel, &(0, 0, 0)));
}

#[test]
fn single_cell_is_valid() {
    let pfm = Polycube::new(1);
    assert!(pfm.dfs());
    assert!(pfm.naive());
}

#[test]
fn two_cells_apart_are_invalid() {
    let pfm = Polycube::from_cells(&vec![(0, 0, 0), (0, 0, 2)]);
    assert!(!pfm.dfs());
    assert!(!pfm.naive());
}

#[test]
fn cells_that_touch_by_an_edge_only_are_invalid() {
    let pfm = Polycube::from_cells(&vec![(0, 0, 0), (1, 1, 0)]);
    assert!(!pfm.dfs());
    assert!(!pfm.naive());
    let pfm = Polycube::from_cells(&vec![(0, 0, 0), (1, 1, 1)]);
    assert!(!pfm.dfs());
    assert!(!pfm.naive());
}

#[test]
fn a_ring_is_valid_and_stays_valid_without_one_cell() {
    let ring = vec![(0, 0, 0), (1, 0, 0), (2, 0, 0), (2, 1, 0), (2, 2, 0), (1, 2, 0), (0, 2, 0), (0, 1, 0)];
    let mut pfm = Polycube::from_cells(&ring);
    assert!(pfm.dfs());
    assert!(pfm.naive());
    pfm.remove(&(1, 0, 0));
    assert_eq!(all_three(&pfm, &(1, 0, 0)), (true, true, true));
    pfm.remove(&(1, 2, 0));
    assert!(!pfm.dfs());
    assert!(!pfm.naive());
}

#[test]
fn a_long_bent_chain_is_valid() {
    let mut cells: Vec<Cell> = Vec::new();
    for i in 0..40 {
        cells.push((i, 0, 0));
    }
    for i in 1..40 {
        cells.push((39, i, 0));
    }
    for i in 1..40 {
        cells.push((39, 39, i));
    }
    let mut pfm = Polycube::from_cells(&cells);
    assert!(pfm.dfs());
    assert!(pfm.naive());
    pfm.remove(&(39, 20, 0));
    assert!(!pfm.dfs());
    assert!(!pfm.naive());
}

#[test]
fn semi_naive_is_valid_at_once_when_the_cell_is_occupied_again() {
    let pfm = Polycube::new(4);
    assert!(pfm.semi_naive(&(0, 0, 2)));
}

#[test]
fn semi_naive_is_valid_at_once_for_a_leaf() {
    let mut pfm = Polycube::new(4);
    pfm.remove(&(0, 0, 3));
    pfm.insert((1, 0, 0));
    assert!(pfm.semi_naive(&(0, 0, 3)));
    assert!(pfm.dfs());
}

#[test]
fn semi_naive_falls_back_to_peeling() {
    let mut pfm = Polycube::new(4);
    pfm.remove(&(0, 0, 1));
    pfm.insert((0, 0, 4));
    assert!(!pfm.semi_naive(&(0, 0, 1)));
    let mut pfm = Polycube::from_cells(&vec![(0, 0, 0), (1, 0, 0), (1, 1, 0), (0, 1, 0)]);
    pfm.remove(&(0, 0, 0));
    pfm.insert((2, 1, 0));
    assert!(pfm.semi_naive(&(0, 0, 0)));
    assert!(pfm.dfs());
}

#[test]
fn semi_naive_fast_path_trusts_the_state_before_the_move() {
    let pfm = Polycube::from_cells(&vec![(0, 0, 0), (0, 0, 2), (5, 5, 5)]);
    assert!(pfm.semi_naive(&(0, 0, 3)));
    assert!(!pfm.semi_naive(&(0, 0, 1)));
    assert!(!pfm.dfs());
}

#[test]
fn check_validity_asks_the_chosen_oracle() {
    let pfm = Polycube::from_cells(&vec![(0, 0, 0), (0, 0, 2), (5, 5, 5)]);
    assert!(!pfm.check_validity(Oracle::Dfs, &(0, 0, 3)));
    assert!(!pfm.check_validity(Oracle::NaivePeel, &(0, 0, 3)));
    assert!(pfm.check_validity(Oracle::SemiNaive, &(0, 0, 3)));
}
