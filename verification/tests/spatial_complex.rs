use std::collections::HashSet;

use blocks::bounds::BoundingBox;
use blocks::polycube::Polycube;

type Cell = (i32, i32, i32);

fn cells_of(pfm: &Polycube) -> HashSet<Cell> {
    pfm.complex().to_vec().into_iter().collect()
}

fn border_of(pfm: &Polycube) -> HashSet<Cell> {
    pfm.insertable_locations().to_vec().into_iter().collect()
}

fn border_from_scratch(cells: &HashSet<Cell>) -> HashSet<Cell> {
    let mut border = HashSet::new();
    for &(x, y, z) in cells {
        for n in [(x, y, z + 1), (x, y, z - 1), (x, y + 1, z), (x, y - 1, z), (x + 1, y, z), (x - 1, y, z)] {
            if !cells.contains(&n) {
                border.insert(n);
            }
        }
    }
    border
}

fn boxed(min_x: i32, max_x: i32, min_y: i32, max_y: i32, min_z: i32, max_z: i32) -> BoundingBox {
    BoundingBox { min_x, max_x, min_y, max_y, min_z, max_z }
}

#[test]
fn new_seeds_a_rod_along_z() {
    let pfm = Polycube::new(5);
    let expected: HashSet<Cell> = (0..5).map(|z| (0, 0, z)).collect();
    assert_eq!(cells_of(&pfm), expected);
    assert_eq!(pfm.complex().len(), 5);
    assert_eq!(pfm.bounding_box(), boxed(0, 0, 0, 0, 0, 4));
}

#[test]
fn new_rod_has_its_exact_border() {
    let pfm = Polycube::new(5);
    assert_eq!(pfm.insertable_locations().len(), 22);
    assert_eq!(border_of(&pfm), border_from_scratch(&cells_of(&pfm)));
}

#[test]
fn new_with_no_cell_is_empty() {
    let pfm = Polycube::new(0);
    assert_eq!(pfm.complex().len(), 0);
    assert_eq!(pfm.insertable_locations().len(), 0);
    assert_eq!(pfm.bounding_box(), boxed(0, 0, 0, 0, 0, 0));
}

#[test]
fn single_cell_has_its_six_neighbors_as_border() {
    let pfm = Polycube::new(1);
    let expected_cells: HashSet<Cell> = [(0, 0, 0)].into_iter().collect();
    let expected_border: HashSet<Cell> =
        [(0, 0, 1), (0, 0, -1), (0, 1, 0), (0, -1, 0), (1, 0, 0), (-1, 0, 0)].into_iter().collect();
    assert_eq!(cells_of(&pfm), expected_cells);
    assert_eq!(border_of(&pfm), expected_border);
    assert!(pfm.dfs());
}

#[test]
fn insert_updates_cells_border_and_box() {
    let mut pfm = Polycube::new(2);
    assert!(pfm.insert((0, 1, 1)));
    let expected: HashSet<Cell> = [(0, 0, 0), (0, 0, 1), (0, 1, 1)].into_iter().collect();
    assert_eq!(cells_of(&pfm), expected);
    assert!(!pfm.insertable_locations().contains(&(0, 1, 1)));
    assert!(pfm.insertable_locations().contains(&(0, 2, 1)));
    assert!(pfm.insertable_locations().contains(&(0, 1, 0)));
    assert_eq!(border_of(&pfm), border_from_scratch(&expected));
    assert_eq!(pfm.bounding_box(), boxed(0, 0, 0, 1, 0, 1));
}

#[test]
fn insert_of_an_occupied_cell_changes_nothing() {
    let mut pfm = Polycube::new(3);
    let cells = cells_of(&pfm);
    let border = border_of(&pfm);
    assert!(!pfm.insert((0, 0, 1)));
    assert_eq!(cells_of(&pfm), cells);
    assert_eq!(border_of(&pfm), border);
}

#[test]
fn insert_grows_the_box_on_every_axis() {
    let mut pfm = Polycube::new(1);
    pfm.insert((-1, 0, 0));
    pfm.insert((-1, 1, 0));
    pfm.insert((-1, 1, -1));
    pfm.insert((1, 0, 0));
    pfm.insert((1, -1, 0));
    assert_eq!(pfm.bounding_box(), boxed(-1, 1, -1, 1, -1, 0));
}

#[test]
fn remove_updates_cells_and_border_but_not_the_box() {
    let mut pfm = Polycube::new(3);
    assert!(pfm.remove(&(0, 0, 2)));
    let expected: HashSet<Cell> = [(0, 0, 0), (0, 0, 1)].into_iter().collect();
    assert_eq!(cells_of(&pfm), expected);
    assert!(pfm.insertable_locations().contains(&(0, 0, 2)));
    assert!(!pfm.insertable_locations().contains(&(0, 0, 3)));
    assert!(!pfm.insertable_locations().contains(&(1, 0, 2)));
    assert_eq!(border_of(&pfm), border_from_scratch(&expected));
    assert_eq!(pfm.bounding_box(), boxed(0, 0, 0, 0, 0, 2));
}

#[test]
fn remove_of_a_vacant_cell_changes_nothing() {
    let mut pfm = Polycube::new(3);
    let cells = cells_of(&pfm);
    let border = border_of(&pfm);
    assert!(!pfm.remove(&(0, 0, 3)));
    assert!(!pfm.remove(&(9, 9, 9)));
    assert_eq!(cells_of(&pfm), cells);
    assert_eq!(border_of(&pfm), border);
}

#[test]
fn remove_of_the_last_cell_empties_the_border() {
    let mut pfm = Polycube::new(1);
    assert!(pfm.remove(&(0, 0, 0)));
    assert_eq!(pfm.complex().len(), 0);
    assert_eq!(pfm.insertable_locations().len(), 0);
}

#[test]
fn remove_then_insert_restores_the_body() {
    let mut pfm = Polycube::new(4);
    pfm.insert((1, 0, 2));
    let cells = cells_of(&pfm);
    let border = border_of(&pfm);
    pfm.remove(&(0, 0, 2));
    pfm.insert((0, 0, 2));
    assert_eq!(cells_of(&pfm), cells);
    assert_eq!(border_of(&pfm), border);
}

#[test]
fn border_stays_exact_under_inserts_and_removes() {
    let mut pfm = Polycube::new(4);
    let moves: [(bool, Cell); 10] = [
        (true, (1, 0, 0)),
        (true, (1, 1, 0)),
        (false, (0, 0, 3)),
        (true, (1, 1, 1)),
        (true, (0, 1, 1)),
        (false, (0, 0, 1)),
        (false, (1, 0, 0)),
        (true, (0, 0, -1)),
        (false, (0, 0, 0)),
        (true, (2, 1, 1)),
    ];
    for (grow, cell) in moves {
        if grow {
            pfm.insert(cell);
        } else {
            pfm.remove(&cell);
        }
        assert_eq!(border_of(&pfm), border_from_scratch(&cells_of(&pfm)));
    }
}

#[test]
fn a_hole_belongs_to_the_border() {
    let mut pfm = Polycube::from_cells(&vec![]);
    for x in -1..=1 {
        for y in -1..=1 {
            for z in -1..=1 {
                if (x, y, z) != (0, 0, 0) {
                    pfm.insert((x, y, z));
                }
            }
        }
    }
    assert_eq!(pfm.complex().len(), 26);
    assert!(pfm.insertable_locations().contains(&(0, 0, 0)));
    assert_eq!(pfm.insertable_locations().len(), 1 + 6 * 9);
}

#[test]
fn recompute_bounding_box_is_tight() {
    let mut pfm = Polycube::new(6);
    pfm.insert((3, 0, 2));
    pfm.insert((0, -4, 2));
    pfm.remove(&(3, 0, 2));
    pfm.remove(&(0, 0, 5));
    pfm.remove(&(0, 0, 0));
    assert_eq!(pfm.bounding_box(), boxed(0, 3, -4, 0, 0, 5));
    pfm.recompute_bounding_box();
    assert_eq!(pfm.bounding_box(), boxed(0, 0, -4, 0, 1, 4));
    assert_eq!(pfm.complex().len(), 5);
}

#[test]
fn recompute_bounding_box_of_nothing_is_inverted() {
    let mut pfm = Polycube::new(0);
    pfm.recompute_bounding_box();
    assert_eq!(pfm.bounding_box(), boxed(i32::MAX, i32::MIN, i32::MAX, i32::MIN, i32::MAX, i32::MIN));
    assert_eq!(pfm.bounding_box(), BoundingBox::empty());
}

#[test]
fn bounding_box_grows_to_a_cell() {
    let mut b = BoundingBox::empty();
    b.grow_to(&(3, -4, 5));
    assert_eq!(b, boxed(3, 3, -4, -4, 5, 5));
    b.grow_to(&(-1, 0, 7));
    assert_eq!(b, boxed(-1, 3, -4, 0, 5, 7));
    b.grow_to(&(0, 0, 6));
    assert_eq!(b, boxed(-1, 3, -4, 0, 5, 7));
}

#[test]
fn compute_insertable_matches_the_kept_border() {
    let mut pfm = Polycube::new(5);
    pfm.insert((1, 0, 2));
    pfm.remove(&(0, 0, 4));
    let kept = border_of(&pfm);
    pfm.compute_insertable();
    assert_eq!(border_of(&pfm), kept);
    assert_eq!(border_of(&pfm), border_from_scratch(&cells_of(&pfm)));
}

#[test]
fn from_cells_builds_border_and_tight_box() {
    let pfm = Polycube::from_cells(&vec![(5, 5, 5), (5, 6, 5), (-2, 0, 9), (5, 5, 5)]);
    let expected: HashSet<Cell> = [(5, 5, 5), (5, 6, 5), (-2, 0, 9)].into_iter().collect();
    assert_eq!(cells_of(&pfm), expected);
    assert_eq!(border_of(&pfm), border_from_scratch(&expected));
    assert_eq!(pfm.insertable_locations().len(), 10 + 6);
    assert_eq!(pfm.bounding_box(), boxed(-2, 5, 0, 6, 5, 9));
}

#[test]
fn border_at_the_rim_holds_only_lattice_cells() {
    let pfm = Polycube::from_cells(&vec![(i32::MAX, i32::MAX, i32::MAX)]);
    let expected: HashSet<Cell> = [
        (i32::MAX, i32::MAX, i32::MAX - 1),
        (i32::MAX, i32::MAX - 1, i32::MAX),
        (i32::MAX - 1, i32::MAX, i32::MAX),
    ]
    .into_iter()
    .collect();
    assert_eq!(border_of(&pfm), expected);
}
