//! The connectivity oracles: three ways to decide whether the occupied
//! cells form a single connected body.

use vstd::prelude::*;
use crate::cells::CellSet;
use crate::connectivity::{
    at_most_one_neighbor, closed_in, connected, lemma_at_most_one_neighbor,
    lemma_attach_keeps_connected, lemma_closed_holds_linked, lemma_leaf_removal_keeps_connected,
    lemma_linked_refl, lemma_linked_step, lemma_linked_symmetric, lemma_star_connected, linked,
};
use crate::lattice::{
    adjacent, border_of, has_neighbor_in, lemma_adjacent_symmetric, lemma_has_neighbor_in,
    lemma_push_if, neighbors_in, Cell,
};
use crate::neighbors::{get_neighbors, has_neighbor};
use crate::polycube::Polycube;

verus! {

/// Whether `seen` holds every cell of `all` that is adjacent to `v`.
pub open spec fn expanded(seen: Set<Cell>, all: Set<Cell>, v: Cell) -> bool {
    forall|n: Cell| all.contains(n) && #[trigger] adjacent(v, n) ==> seen.contains(n)
}

/// What the semi-naive oracle answers for the cells `s` and the cell
/// `removed` that the last move vacated: valid at once when `removed` is
/// occupied again or has exactly one occupied neighbour, and otherwise valid
/// exactly when `s` is connected.
pub open spec fn semi_naive_verdict(s: Set<Cell>, removed: Cell) -> bool {
    s.contains(removed) || neighbors_in(s, removed).len() == 1 || connected(s)
}

/// The way in which connectivity is decided.
#[derive(Clone, Copy, Debug, PartialEq, Eq, Structural)]
pub enum Oracle {
    /// Depth-first reachability from an arbitrary cell.
    Dfs,
    /// Layered peeling from an arbitrary seed.
    NaivePeel,
    /// The fast path on the vacated cell, then layered peeling.
    SemiNaive,
}

impl Oracle {
    /// What this oracle answers for the cells `s` after a move that vacated
    /// `removed`.
    pub open spec fn verdict(self, s: Set<Cell>, removed: Cell) -> bool {
        match self {
            Oracle::Dfs => connected(s),
            Oracle::NaivePeel => connected(s),
            Oracle::SemiNaive => semi_naive_verdict(s, removed),
        }
    }
}

impl Polycube {
    /// Decides connectivity by a depth-first walk from an arbitrary cell:
    /// the body is connected exactly when the walk visits every cell.
    pub fn dfs(&self) -> (valid: bool)
        requires
            self.wf(),
        ensures
            valid == connected(self.cells()),
    {
        let complex = self.complex();
        let ghost cells = self.cells();
        let first = match complex.any() {
            Some(first) => first,
            None => {
                return true;
            },
        };
        let mut needs_neighbors_added: Vec<Cell> = Vec::new();
        let mut visited = CellSet::new();
        needs_neighbors_added.push(first);
        visited.insert(first);
        proof {
            lemma_linked_refl(cells, first);
            assert(needs_neighbors_added@[0] == first);
        }
        while needs_neighbors_added.len() > 0
            invariant
                complex.wf(),
                complex@ == cells,
                cells.finite(),
                visited.wf(),
                visited@.finite(),
                visited@.subset_of(cells),
                visited@.contains(first),
                forall|v: Cell| visited@.contains(v) ==> #[trigger] linked(cells, first, v),
                forall|i: int| 0 <= i < needs_neighbors_added@.len() ==> visited@.contains(#[trigger] needs_neighbors_added@[i]),
                forall|v: Cell| #[trigger] visited@.contains(v) ==> needs_neighbors_added@.contains(v) || expanded(visited@, cells, v),
            decreases cells.len() - visited@.len() + needs_neighbors_added@.len(),
        {
            let ghost stack_before = needs_neighbors_added@;
            let ghost measure = cells.len() - visited@.len() + needs_neighbors_added@.len();
            let center = needs_neighbors_added.pop().unwrap();
            let around = get_neighbors(complex, &center);
            proof {
                assert(stack_before =~= needs_neighbors_added@.push(center));
                lemma_push_if(needs_neighbors_added@, true, center);
                assert(visited@.contains(stack_before[stack_before.len() - 1]));
                lemma_has_neighbor_in(cells, center);
                vstd::set_lib::lemma_len_subset(visited@, cells);
            }
            let mut i: usize = 0;
            while i < around.len()
                invariant
                    i <= around.len(),
                    complex.wf(),
                    complex@ == cells,
                    cells.finite(),
                    visited.wf(),
                    visited@.finite(),
                    visited@.subset_of(cells),
                    visited@.contains(first),
                    visited@.contains(center),
                    around@ == neighbors_in(cells, center),
                    forall|n: Cell| #[trigger] around@.contains(n) <==> cells.contains(n) && adjacent(n, center),
                    forall|v: Cell| visited@.contains(v) ==> #[trigger] linked(cells, first, v),
                    forall|k: int| 0 <= k < needs_neighbors_added@.len() ==> visited@.contains(#[trigger] needs_neighbors_added@[k]),
                    forall|k: int| 0 <= k < i ==> visited@.contains(#[trigger] around@[k]),
                    forall|v: Cell| #[trigger] visited@.contains(v) ==> needs_neighbors_added@.contains(v) || v == center || expanded(visited@, cells, v),
                    cells.len() - visited@.len() + needs_neighbors_added@.len() == measure - 1,
                decreases around.len() - i,
            {
                let neighbor = around[i];
                let ghost seen_before = visited@;
                let ghost stack_now = needs_neighbors_added@;
                proof {
                    assert(around@.contains(neighbor));
                    lemma_adjacent_symmetric(neighbor, center);
                    lemma_linked_step(cells, first, center, neighbor);
                }
                if visited.insert(neighbor) {
                    needs_neighbors_added.push(neighbor);
                    proof {
                        lemma_push_if(stack_now, true, neighbor);
                    }
                }
                proof {
                    assert forall|v: Cell| #[trigger] visited@.contains(v) implies needs_neighbors_added@.contains(v) || v == center || expanded(visited@, cells, v) by {
                        if seen_before.contains(v) && !stack_now.contains(v) && v != center {
                            assert(expanded(seen_before, cells, v));
                        }
                    }
                }
                i = i + 1;
            }
            proof {
                assert forall|n: Cell| cells.contains(n) && #[trigger] adjacent(center, n) implies visited@.contains(n) by {
                    lemma_adjacent_symmetric(center, n);
                    assert(around@.contains(n));
                    let k = choose|k: int| 0 <= k < around@.len() && around@[k] == n;
                    assert(visited@.contains(around@[k]));
                }
                assert(expanded(visited@, cells, center));
            }
        }
        proof {
            assert(closed_in(visited@, cells)) by {
                assert forall|x: Cell, y: Cell| visited@.contains(x) && cells.contains(y) && #[trigger] adjacent(x, y) implies visited@.contains(y) by {
                    assert(!needs_neighbors_added@.contains(x));
                    assert(expanded(visited@, cells, x));
                }
            }
            vstd::set_lib::lemma_len_subset(visited@, cells);
            if visited@.len() == cells.len() {
                vstd::set_lib::lemma_subset_equality(visited@, cells);
                assert(visited@ =~= cells);
                lemma_star_connected(cells, first);
            }
            if connected(cells) {
                assert forall|b: Cell| cells.contains(b) implies visited@.contains(b) by {
                    assert(linked(cells, first, b));
                    lemma_closed_holds_linked(visited@, cells, first, b);
                }
                assert(visited@ =~= cells);
            }
        }
        visited.len() == complex.len()
    }

    /// Decides connectivity by layered peeling: pass after pass, every
    /// unsettled cell that touches the settled part is settled, the first
    /// cell of the first pass being the seed. The body is connected exactly
    /// when no pass is left without progress while cells remain unsettled.
    pub fn naive(&self) -> (valid: bool)
        requires
            self.wf(),
        ensures
            valid == connected(self.cells()),
    {
        let complex = self.complex();
        let ghost cells = self.cells();
        let mut strongly_connected = CellSet::new();
        let mut working_poly: Vec<Cell> = complex.to_vec();
        while working_poly.len() > 0
            invariant
                complex.wf(),
                complex@ == cells,
                cells == self.cells(),
                cells.finite(),
                strongly_connected.wf(),
                working_poly@.no_duplicates(),
                forall|c: Cell| #[trigger] cells.contains(c) <==> strongly_connected@.contains(c) || working_poly@.contains(c),
                forall|c: Cell| #[trigger] working_poly@.contains(c) ==> !strongly_connected@.contains(c),
                forall|a: Cell, b: Cell| strongly_connected@.contains(a) && strongly_connected@.contains(b) ==> #[trigger] linked(cells, a, b),
            decreases working_poly.len(),
        {
            let mut unsettled: Vec<Cell> = Vec::new();
            let ghost settled_before = strongly_connected@;
            let ghost working = working_poly@;
            let mut i: usize = 0;
            while i < working_poly.len()
                invariant
                    i <= working_poly.len(),
                    working_poly@ == working,
                    working.no_duplicates(),
                    complex@ == cells,
                    strongly_connected.wf(),
                    unsettled@.len() <= i,
                    unsettled@.no_duplicates(),
                    forall|c: Cell| #[trigger] cells.contains(c) <==> settled_before.contains(c) || working.contains(c),
                    forall|c: Cell| #[trigger] working.contains(c) ==> !settled_before.contains(c),
                    forall|c: Cell| #[trigger] unsettled@.contains(c) ==> working.take(i as int).contains(c),
                    forall|c: Cell| #[trigger] working.take(i as int).contains(c) ==> strongly_connected@.contains(c) || unsettled@.contains(c),
                    forall|c: Cell| #[trigger] strongly_connected@.contains(c) ==> settled_before.contains(c) || working.take(i as int).contains(c),
                    forall|c: Cell| #[trigger] settled_before.contains(c) ==> strongly_connected@.contains(c),
                    forall|c: Cell| #[trigger] unsettled@.contains(c) ==> !strongly_connected@.contains(c),
                    forall|a: Cell, b: Cell| strongly_connected@.contains(a) && strongly_connected@.contains(b) ==> #[trigger] linked(cells, a, b),
                    unsettled@.len() == i ==> strongly_connected@ == settled_before,
                    unsettled@.len() == i ==> forall|c: Cell| #[trigger] working.take(i as int).contains(c) ==> !has_neighbor_in(settled_before, c),
                    unsettled@.len() == i && i > 0 ==> settled_before.len() > 0,
                decreases working_poly.len() - i,
            {
                let piece = working_poly[i];
                let ghost settled_now = strongly_connected@;
                let ghost unsettled_now = unsettled@;
                proof {
                    assert(working.take(i + 1) =~= working.take(i as int).push(piece));
                    lemma_push_if(working.take(i as int), true, piece);
                    lemma_push_if(unsettled_now, true, piece);
                    assert(working.contains(piece));
                    assert(!working.take(i as int).contains(piece)) by {
                        if working.take(i as int).contains(piece) {
                            let j = choose|j: int| 0 <= j < i && working.take(i as int)[j] == piece;
                            assert(working[j] == working[i as int]);
                        }
                    }
                    strongly_connected.lemma_finite();
                }
                let touches = has_neighbor(&strongly_connected, &piece);
                if touches || strongly_connected.len() == 0 {
                    strongly_connected.insert(piece);
                    proof {
                        assert forall|a: Cell, b: Cell| strongly_connected@.contains(a) && strongly_connected@.contains(b) implies #[trigger] linked(cells, a, b) by {
                            if touches {
                                let n = choose|n: Cell| #[trigger] settled_now.contains(n) && adjacent(n, piece);
                                if a == piece && b == piece {
                                    lemma_linked_refl(cells, piece);
                                } else if a == piece {
                                    assert(linked(cells, b, n));
                                    lemma_linked_step(cells, b, n, piece);
                                    lemma_linked_symmetric(cells, b, piece);
                                } else if b == piece {
                                    assert(linked(cells, a, n));
                                    lemma_linked_step(cells, a, n, piece);
                                } else {
                                    assert(settled_now.contains(a) && settled_now.contains(b));
                                }
                            } else {
                                settled_now.lemma_len0_is_empty();
                                assert(a == piece && b == piece);
                                lemma_linked_refl(cells, piece);
                            }
                        }
                    }
                } else {
                    unsettled.push(piece);
                    proof {
                        if settled_now.len() == 0 {
                            assert(false);
                        }
                    }
                }
                i = i + 1;
            }
            proof {
                assert(working.take(working.len() as int) =~= working);
            }
            if unsettled.len() == working_poly.len() {
                proof {
                    let settled = strongly_connected@;
                    strongly_connected.lemma_finite();
                    assert(closed_in(settled, cells)) by {
                        assert forall|x: Cell, y: Cell| settled.contains(x) && cells.contains(y) && #[trigger] adjacent(x, y) implies settled.contains(y) by {
                            if working.contains(y) {
                                assert(!has_neighbor_in(settled, y));
                            }
                        }
                    }
                    let seed = settled.choose();
                    assert(settled.contains(seed));
                    let stray = working[0];
                    assert(working.contains(stray));
                    if connected(cells) {
                        assert(linked(cells, seed, stray));
                        lemma_closed_holds_linked(settled, cells, seed, stray);
                    }
                }
                return false;
            }
            working_poly = unsettled;
        }
        proof {
            strongly_connected.lemma_finite();
            assert(strongly_connected@ =~= cells) by {
                assert forall|c: Cell| strongly_connected@.contains(c) <==> cells.contains(c) by {
                    if working_poly@.contains(c) {
                        let j = choose|j: int| 0 <= j < working_poly@.len() && working_poly@[j] == c;
                    }
                }
            }
        }
        strongly_connected.len() == complex.len()
    }

    /// Decides connectivity after a move that vacated `removed`, given that
    /// the body was connected before it: valid at once when `removed` is
    /// occupied again or has exactly one occupied neighbour, and otherwise
    /// what layered peeling finds.
    pub fn semi_naive(&self, removed: &Cell) -> (valid: bool)
        requires
            self.wf(),
        ensures
            valid == semi_naive_verdict(self.cells(), *removed),
    {
        let complex = self.complex();
        if complex.contains(removed) {
            return true;
        }
        if get_neighbors(complex, removed).len() == 1 {
            return true;
        }
        self.naive()
    }

    /// Asks the chosen oracle whether the body is connected after a move
    /// that vacated `removed`.
    pub fn check_validity(&self, oracle: Oracle, removed: &Cell) -> (valid: bool)
        requires
            self.wf(),
        ensures
            valid == oracle.verdict(self.cells(), *removed),
    {
        match oracle {
            Oracle::Dfs => self.dfs(),
            Oracle::NaivePeel => self.naive(),
            Oracle::SemiNaive => self.semi_naive(removed),
        }
    }
}

/// After a move from a connected body, which vacates the occupied cell
/// `removed` and then occupies the border cell `inserted`, the three oracles
/// agree: each answers whether the body after the move is connected.
pub proof fn lemma_oracles_agree(before: Set<Cell>, removed: Cell, inserted: Cell)
    requires
        connected(before),
        before.contains(removed),
        border_of(before.remove(removed)).contains(inserted),
    ensures
        ({
            let after = before.remove(removed).insert(inserted);
            &&& Oracle::Dfs.verdict(after, removed) == connected(after)
            &&& Oracle::NaivePeel.verdict(after, removed) == connected(after)
            &&& Oracle::SemiNaive.verdict(after, removed) == connected(after)
        }),
{
    let vacated = before.remove(removed);
    let after = vacated.insert(inserted);
    if after.contains(removed) {
        assert(inserted == removed);
        assert(after =~= before);
    } else if neighbors_in(after, removed).len() == 1 {
        lemma_at_most_one_neighbor(after, removed);
        assert(at_most_one_neighbor(before, removed)) by {
            assert forall|m: Cell, n: Cell|
                before.contains(m) && before.contains(n) && adjacent(m, removed) && adjacent(n, removed) implies m == n by {
                lemma_adjacent_symmetric(removed, removed);
                assert(after.contains(m) && after.contains(n));
            }
        }
        lemma_leaf_removal_keeps_connected(before, removed);
        lemma_attach_keeps_connected(vacated, inserted);
    }
}

} // verus!
