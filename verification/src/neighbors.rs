//! The neighbour model: which axis neighbours of a cell a set holds.
//!
//! Each function makes at most six membership tests and never changes the
//! set it is given.

use vstd::prelude::*;
use crate::cells::CellSet;
use crate::lattice::{
    adjacent, axis_neighbors, has_neighbor_in, neighbors_in, neighbors_out, select, Cell,
};

verus! {

/// The axis neighbours of `c` that the lattice holds, in their fixed order.
pub fn axis_neighbors_of(c: &Cell) -> (out: Vec<Cell>)
    ensures
        out@ == axis_neighbors(*c),
{
    let mut out: Vec<Cell> = Vec::new();
    if c.2 < i32::MAX {
        out.push((c.0, c.1, c.2 + 1));
    }
    if c.2 > i32::MIN {
        out.push((c.0, c.1, c.2 - 1));
    }
    if c.1 < i32::MAX {
        out.push((c.0, c.1 + 1, c.2));
    }
    if c.1 > i32::MIN {
        out.push((c.0, c.1 - 1, c.2));
    }
    if c.0 < i32::MAX {
        out.push((c.0 + 1, c.1, c.2));
    }
    if c.0 > i32::MIN {
        out.push((c.0 - 1, c.1, c.2));
    }
    out
}

/// The axis neighbours of `block` whose membership in `set` equals `member`.
fn select_neighbors(set: &CellSet, block: &Cell, member: bool) -> (out: Vec<Cell>)
    requires
        set.wf(),
    ensures
        out@ == select(axis_neighbors(*block), set@, member),
{
    let cands = axis_neighbors_of(block);
    let mut out: Vec<Cell> = Vec::new();
    let mut i: usize = 0;
    while i < cands.len()
        invariant
            set.wf(),
            i <= cands.len(),
            out@ == select(cands@.take(i as int), set@, member),
        decreases cands.len() - i,
    {
        let cand = cands[i];
        proof {
            assert(cands@.take(i + 1).drop_last() =~= cands@.take(i as int));
            assert(cands@.take(i + 1).last() == cand);
        }
        if set.contains(&cand) == member {
            out.push(cand);
        }
        i = i + 1;
    }
    proof {
        assert(cands@.take(cands.len() as int) =~= cands@);
    }
    out
}

/// The axis neighbours of `block` that are members of `set`.
pub fn get_neighbors(set: &CellSet, block: &Cell) -> (out: Vec<Cell>)
    requires
        set.wf(),
    ensures
        out@ == neighbors_in(set@, *block),
{
    select_neighbors(set, block, true)
}

/// The axis neighbours of `block` that are not members of `set`.
pub fn get_vacant_neighbors(set: &CellSet, block: &Cell) -> (out: Vec<Cell>)
    requires
        set.wf(),
    ensures
        out@ == neighbors_out(set@, *block),
{
    select_neighbors(set, block, false)
}

/// Whether some axis neighbour of `piece` is a member of `set`.
pub fn has_neighbor(set: &CellSet, piece: &Cell) -> (found: bool)
    requires
        set.wf(),
    ensures
        found == has_neighbor_in(set@, *piece),
{
    let found = (piece.2 < i32::MAX && set.contains(&(piece.0, piece.1, piece.2 + 1)))
        || (piece.2 > i32::MIN && set.contains(&(piece.0, piece.1, piece.2 - 1)))
        || (piece.1 < i32::MAX && set.contains(&(piece.0, piece.1 + 1, piece.2)))
        || (piece.1 > i32::MIN && set.contains(&(piece.0, piece.1 - 1, piece.2)))
        || (piece.0 < i32::MAX && set.contains(&(piece.0 + 1, piece.1, piece.2)))
        || (piece.0 > i32::MIN && set.contains(&(piece.0 - 1, piece.1, piece.2)));
    proof {
        let c = *piece;
        if found {
            let n: Cell = if c.2 < i32::MAX && set@.contains((c.0, c.1, (c.2 + 1) as i32)) {
                (c.0, c.1, (c.2 + 1) as i32)
            } else if c.2 > i32::MIN && set@.contains((c.0, c.1, (c.2 - 1) as i32)) {
                (c.0, c.1, (c.2 - 1) as i32)
            } else if c.1 < i32::MAX && set@.contains((c.0, (c.1 + 1) as i32, c.2)) {
                (c.0, (c.1 + 1) as i32, c.2)
            } else if c.1 > i32::MIN && set@.contains((c.0, (c.1 - 1) as i32, c.2)) {
                (c.0, (c.1 - 1) as i32, c.2)
            } else if c.0 < i32::MAX && set@.contains(((c.0 + 1) as i32, c.1, c.2)) {
                ((c.0 + 1) as i32, c.1, c.2)
            } else {
                ((c.0 - 1) as i32, c.1, c.2)
            };
            assert(set@.contains(n) && adjacent(n, c));
        }
        if has_neighbor_in(set@, c) {
            let n = choose|n: Cell| #[trigger] set@.contains(n) && adjacent(n, c);
            assert(found);
        }
    }
    found
}

} // verus!
