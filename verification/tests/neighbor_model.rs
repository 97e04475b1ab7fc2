use blocks::cells::CellSet;
use blocks::neighbors::{axis_neighbors_of, get_neighbors, get_vacant_neighbors, has_neighbor};

fn set_of(cells: &[(i32, i32, i32)]) -> CellSet {
    let mut set = CellSet::new();
    for c in cells {
        set.insert(*c);
    }
    set
}

#[test]
fn cell_set_insert_reports_new_cells() {
    let mut set = CellSet::new();
    assert!(set.is_empty());
    assert_eq!(set.len(), 0);
    assert!(set.insert((1, -2, 3)));
    assert!(!set.insert((1, -2, 3)));
    assert!(set.insert((3, -2, 1)));
    assert_eq!(set.len(), 2);
    assert!(set.contains(&(1, -2, 3)));
    assert!(set.contains(&(3, -2, 1)));
    assert!(!set.contains(&(-2, 1, 3)));
    assert!(!set.is_empty());
}

#[test]
fn cell_set_remove_reports_found_cells() {
    let mut set = set_of(&[(0, 0, 0), (0, 0, 1)]);
    assert!(set.remove(&(0, 0, 1)));
    assert!(!set.remove(&(0, 0, 1)));
    assert!(!set.remove(&(5, 5, 5)));
    assert_eq!(set.len(), 1);
    assert!(set.contains(&(0, 0, 0)));
}

#[test]
fn cell_set_tells_permuted_coordinates_apart() {
    let mut set = CellSet::new();
    let cells = [
        (1, 2, 3),
        (1, 3, 2),
        (2, 1, 3),
        (2, 3, 1),
        (3, 1, 2),
        (3, 2, 1),
        (-1, -2, -3),
        (0, 0, -1),
        (0, -1, 0),
        (-1, 0, 0),
    ];
    for c in cells {
        assert!(set.insert(c));
    }
    assert_eq!(set.len(), cells.len());
    for c in cells {
        assert!(set.contains(&c));
    }
    assert!(!set.contains(&(0, 0, 0)));
}

#[test]
fn cell_set_holds_the_corners_of_the_lattice() {
    let lo = i32::MIN;
    let hi = i32::MAX;
    let corners = [
        (lo, lo, lo),
        (lo, lo, hi),
        (lo, hi, lo),
        (lo, hi, hi),
        (hi, lo, lo),
        (hi, lo, hi),
        (hi, hi, lo),
        (hi, hi, hi),
    ];
    let mut set = CellSet::new();
    for c in corners {
        assert!(set.insert(c));
    }
    assert_eq!(set.len(), 8);
    let mut listed = set.to_vec();
    listed.sort();
    let mut expected = corners.to_vec();
    expected.sort();
    assert_eq!(listed, expected);
}

#[test]
fn cell_set_lists_each_cell_once() {
    let set = set_of(&[(0, 0, 0), (4, 5, 6), (-7, 8, -9), (4, 5, 6)]);
    let mut listed = set.to_vec();
    listed.sort();
    assert_eq!(listed, vec![(-7, 8, -9), (0, 0, 0), (4, 5, 6)]);
}

#[test]
fn cell_set_any_is_a_member_or_nothing() {
    let empty = CellSet::new();
    assert_eq!(empty.any(), None);
    let set = set_of(&[(9, 9, 9), (1, 1, 1)]);
    let some = set.any().unwrap();
    assert!(set.contains(&some));
}

#[test]
fn cell_set_nth_walks_the_cells_in_listing_order() {
    let set = set_of(&[(1, 0, 0), (0, 2, 0), (0, 0, 3), (-4, -5, -6)]);
    let listed = set.to_vec();
    assert_eq!(listed.len(), 4);
    for (i, c) in listed.iter().enumerate() {
        assert_eq!(set.nth(i), *c);
    }
}

#[test]
fn axis_neighbors_come_in_fixed_order() {
    assert_eq!(
        axis_neighbors_of(&(10, 20, 30)),
        vec![(10, 20, 31), (10, 20, 29), (10, 21, 30), (10, 19, 30), (11, 20, 30), (9, 20, 30)]
    );
}

#[test]
fn axis_neighbors_stop_at_the_rim() {
    assert_eq!(
        axis_neighbors_of(&(i32::MIN, 0, i32::MAX)),
        vec![
            (i32::MIN, 0, i32::MAX - 1),
            (i32::MIN, 1, i32::MAX),
            (i32::MIN, -1, i32::MAX),
            (i32::MIN + 1, 0, i32::MAX)
        ]
    );
    assert_eq!(axis_neighbors_of(&(i32::MAX, i32::MAX, i32::MAX)).len(), 3);
}

#[test]
fn get_neighbors_keeps_members_only() {
    let set = set_of(&[(0, 0, 1), (0, -1, 0), (1, 0, 0), (1, 1, 1), (0, 0, 0)]);
    assert_eq!(get_neighbors(&set, &(0, 0, 0)), vec![(0, 0, 1), (0, -1, 0), (1, 0, 0)]);
    assert_eq!(get_neighbors(&set, &(5, 5, 5)), vec![]);
}

#[test]
fn get_vacant_neighbors_keeps_the_others() {
    let set = set_of(&[(0, 0, 1), (0, -1, 0), (1, 0, 0), (1, 1, 1), (0, 0, 0)]);
    assert_eq!(get_vacant_neighbors(&set, &(0, 0, 0)), vec![(0, 0, -1), (0, 1, 0), (-1, 0, 0)]);
    assert_eq!(get_vacant_neighbors(&set, &(5, 5, 5)).len(), 6);
}

#[test]
fn neighbors_in_and_out_split_the_six() {
    let set = set_of(&[(2, 2, 3), (2, 3, 2), (1, 2, 2), (7, 7, 7)]);
    let inside = get_neighbors(&set, &(2, 2, 2));
    let outside = get_vacant_neighbors(&set, &(2, 2, 2));
    assert_eq!(inside.len() + outside.len(), 6);
    for c in &inside {
        assert!(set.contains(c));
        assert!(!outside.contains(c));
    }
    for c in &outside {
        assert!(!set.contains(c));
    }
}

#[test]
fn has_neighbor_sees_each_direction() {
    let center = (0, 0, 0);
    for n in axis_neighbors_of(&center) {
        let set = set_of(&[n]);
        assert!(has_neighbor(&set, &center));
    }
}

#[test]
fn has_neighbor_ignores_the_cell_itself_and_diagonals() {
    let set = set_of(&[(0, 0, 0), (1, 1, 0), (1, 1, 1), (0, 0, 2), (-1, 0, -1)]);
    assert!(!has_neighbor(&set, &(0, 0, 0)));
    let empty = CellSet::new();
    assert!(!has_neighbor(&empty, &(0, 0, 0)));
}

#[test]
fn has_neighbor_at_the_rim() {
    let set = set_of(&[(i32::MAX, i32::MAX, i32::MAX - 1)]);
    assert!(has_neighbor(&set, &(i32::MAX, i32::MAX, i32::MAX)));
    assert!(!has_neighbor(&set, &(i32::MIN, i32::MAX, i32::MAX)));
}
