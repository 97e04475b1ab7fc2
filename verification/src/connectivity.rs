//! What it means for a set of cells to be one connected body, and the facts
//! about paths on which the connectivity oracles rest.

use vstd::prelude::*;
use crate::lattice::{adjacent, has_neighbor_in, lemma_has_neighbor_in, neighbors_in, Cell};

verus! {

/// Whether `p` is a chain of cells of `s` in which each cell is adjacent to
/// the next.
pub open spec fn is_path(s: Set<Cell>, p: Seq<Cell>) -> bool {
    &&& p.len() > 0
    &&& forall|i: int| 0 <= i < p.len() ==> s.contains(#[trigger] p[i])
    &&& forall|i: int| 0 <= i < p.len() - 1 ==> adjacent(#[trigger] p[i], p[i + 1])
}

/// Whether a chain of cells of `s` leads from `a` to `b`.
pub open spec fn linked(s: Set<Cell>, a: Cell, b: Cell) -> bool {
    exists|p: Seq<Cell>| #[trigger] is_path(s, p) && p[0] == a && p.last() == b
}

/// Whether `s` is a single connected body: every cell of it reaches every
/// other through a chain of adjacent cells of `s`. The empty set is
/// connected.
pub open spec fn connected(s: Set<Cell>) -> bool {
    forall|a: Cell, b: Cell| s.contains(a) && s.contains(b) ==> #[trigger] linked(s, a, b)
}

/// Whether `s` holds every cell of `all` that is adjacent to one of its own.
pub open spec fn closed_in(s: Set<Cell>, all: Set<Cell>) -> bool {
    forall|x: Cell, y: Cell| s.contains(x) && all.contains(y) && #[trigger] adjacent(x, y) ==> s.contains(y)
}

/// Every cell of `s` is linked to itself.
pub proof fn lemma_linked_refl(s: Set<Cell>, a: Cell)
    requires
        s.contains(a),
    ensures
        linked(s, a, a),
{
    let p = seq![a];
    assert(is_path(s, p) && p[0] == a && p.last() == a);
}

/// A link from `a` to `b` extends by a cell of `s` adjacent to `b`.
pub proof fn lemma_linked_step(s: Set<Cell>, a: Cell, b: Cell, c: Cell)
    requires
        linked(s, a, b),
        s.contains(c),
        adjacent(b, c),
    ensures
        linked(s, a, c),
{
    let p = choose|p: Seq<Cell>| #[trigger] is_path(s, p) && p[0] == a && p.last() == b;
    let q = p.push(c);
    assert(is_path(s, q)) by {
        assert forall|i: int| 0 <= i < q.len() - 1 implies adjacent(#[trigger] q[i], q[i + 1]) by {
            if i < p.len() - 1 {
                assert(q[i] == p[i] && q[i + 1] == p[i + 1]);
            }
        }
    }
    assert(q[0] == a && q.last() == c);
}

/// Links can be walked backwards.
pub proof fn lemma_linked_symmetric(s: Set<Cell>, a: Cell, b: Cell)
    requires
        linked(s, a, b),
    ensures
        linked(s, b, a),
{
    let p = choose|p: Seq<Cell>| #[trigger] is_path(s, p) && p[0] == a && p.last() == b;
    let q = Seq::new(p.len(), |i: int| p[p.len() - 1 - i]);
    assert(is_path(s, q)) by {
        assert forall|i: int| 0 <= i < q.len() - 1 implies adjacent(#[trigger] q[i], q[i + 1]) by {
            let j = p.len() - 2 - i;
            assert(adjacent(p[j], p[j + 1]));
            crate::lattice::lemma_adjacent_symmetric(p[j], p[j + 1]);
        }
    }
    assert(q[0] == b && q.last() == a);
}

/// Two links that meet make one.
pub proof fn lemma_linked_transitive(s: Set<Cell>, a: Cell, b: Cell, c: Cell)
    requires
        linked(s, a, b),
        linked(s, b, c),
    ensures
        linked(s, a, c),
{
    let p = choose|p: Seq<Cell>| #[trigger] is_path(s, p) && p[0] == a && p.last() == b;
    let r = choose|r: Seq<Cell>| #[trigger] is_path(s, r) && r[0] == b && r.last() == c;
    let q = p + r.drop_first();
    assert(is_path(s, q)) by {
        assert forall|i: int| 0 <= i < q.len() implies s.contains(#[trigger] q[i]) by {
            if i < p.len() {
                assert(q[i] == p[i]);
            } else {
                assert(q[i] == r[i - p.len() + 1]);
            }
        }
        assert forall|i: int| 0 <= i < q.len() - 1 implies adjacent(#[trigger] q[i], q[i + 1]) by {
            if i < p.len() - 1 {
                assert(q[i] == p[i] && q[i + 1] == p[i + 1]);
            } else if i == p.len() - 1 {
                assert(q[i] == r[0] && q[i + 1] == r[1]);
            } else {
                let j = i - p.len() + 1;
                assert(q[i] == r[j] && q[i + 1] == r[j + 1]);
            }
        }
    }
    assert(q[0] == a);
    assert(q.last() == c) by {
        if r.len() == 1 {
            assert(q =~= p);
        } else {
            assert(q.last() == r[r.len() - 1]);
        }
    }
}

/// A link inside a set is a link inside every larger set.
pub proof fn lemma_linked_monotone(s: Set<Cell>, t: Set<Cell>, a: Cell, b: Cell)
    requires
        linked(s, a, b),
        s.subset_of(t),
    ensures
        linked(t, a, b),
{
    let p = choose|p: Seq<Cell>| #[trigger] is_path(s, p) && p[0] == a && p.last() == b;
    assert(is_path(t, p));
}

/// A chain that starts inside a closed part of `all` never leaves it.
pub proof fn lemma_path_stays_closed(part: Set<Cell>, all: Set<Cell>, p: Seq<Cell>, i: int)
    requires
        closed_in(part, all),
        is_path(all, p),
        part.contains(p[0]),
        0 <= i < p.len(),
    ensures
        part.contains(p[i]),
    decreases i,
{
    if i > 0 {
        lemma_path_stays_closed(part, all, p, i - 1);
        assert(adjacent(p[i - 1], p[i - 1 + 1]));
    }
}

/// A closed part of `all` holds every cell that is linked to one of its own.
pub proof fn lemma_closed_holds_linked(part: Set<Cell>, all: Set<Cell>, a: Cell, b: Cell)
    requires
        closed_in(part, all),
        part.contains(a),
        linked(all, a, b),
    ensures
        part.contains(b),
{
    let p = choose|p: Seq<Cell>| #[trigger] is_path(all, p) && p[0] == a && p.last() == b;
    lemma_path_stays_closed(part, all, p, p.len() - 1);
}

/// A set whose cells are all linked to one of them is connected.
pub proof fn lemma_star_connected(s: Set<Cell>, hub: Cell)
    requires
        forall|a: Cell| s.contains(a) ==> #[trigger] linked(s, hub, a),
    ensures
        connected(s),
{
    assert forall|a: Cell, b: Cell| s.contains(a) && s.contains(b) implies #[trigger] linked(s, a, b) by {
        assert(linked(s, hub, a));
        assert(linked(s, hub, b));
        lemma_linked_symmetric(s, hub, a);
        lemma_linked_transitive(s, a, hub, b);
    }
}

/// A connected body stays connected when a cell adjacent to it is added.
pub proof fn lemma_attach_keeps_connected(s: Set<Cell>, c: Cell)
    requires
        connected(s),
        has_neighbor_in(s, c),
    ensures
        connected(s.insert(c)),
{
    let t = s.insert(c);
    let n = choose|n: Cell| #[trigger] s.contains(n) && adjacent(n, c);
    assert forall|a: Cell| t.contains(a) implies #[trigger] linked(t, n, a) by {
        if a == c {
            lemma_linked_refl(t, n);
            lemma_linked_step(t, n, n, c);
        } else {
            assert(linked(s, n, a));
            lemma_linked_monotone(s, t, n, a);
        }
    }
    lemma_star_connected(t, n);
}

/// A chain between two cells other than `leaf`, where `leaf` has at most
/// one neighbour in `s`, can be replaced by one that avoids `leaf`.
pub proof fn lemma_path_avoids_leaf(s: Set<Cell>, leaf: Cell, p: Seq<Cell>)
    requires
        is_path(s, p),
        p[0] != leaf,
        p.last() != leaf,
        at_most_one_neighbor(s, leaf),
    ensures
        linked(s.remove(leaf), p[0], p.last()),
    decreases p.len(),
{
    let t = s.remove(leaf);
    if forall|i: int| 0 <= i < p.len() ==> p[i] != leaf {
        assert(is_path(t, p));
    } else {
        let k = choose|k: int| 0 <= k < p.len() && p[k] == leaf;
        assert(0 < k < p.len() - 1);
        assert(adjacent(p[k - 1], p[k - 1 + 1]));
        assert(adjacent(p[k], p[k + 1]));
        crate::lattice::lemma_adjacent_symmetric(p[k], p[k + 1]);
        assert(s.contains(p[k - 1]) && s.contains(p[k + 1]));
        assert(p[k - 1] == p[k + 1]);
        let q = p.take(k) + p.skip(k + 2);
        assert(is_path(s, q)) by {
            assert forall|i: int| 0 <= i < q.len() implies s.contains(#[trigger] q[i]) by {
                if i < k {
                    assert(q[i] == p[i]);
                } else {
                    assert(q[i] == p[i + 2]);
                }
            }
            assert forall|i: int| 0 <= i < q.len() - 1 implies adjacent(#[trigger] q[i], q[i + 1]) by {
                if i < k - 1 {
                    assert(q[i] == p[i] && q[i + 1] == p[i + 1]);
                } else if i == k - 1 {
                    assert(q[i] == p[k - 1] && q[i + 1] == p[k + 2]);
                    assert(adjacent(p[k + 1], p[k + 1 + 1]));
                } else {
                    assert(q[i] == p[i + 2] && q[i + 1] == p[i + 2 + 1]);
                    assert(adjacent(p[i + 2], p[i + 2 + 1]));
                }
            }
        }
        assert(q[0] == p[0]);
        assert(q.last() == p.last()) by {
            if k + 2 == p.len() {
                assert(q =~= p.take(k));
                assert(q.last() == p[k - 1]);
                assert(p.last() == p[k + 1]);
            } else {
                assert(q.last() == p[p.len() - 1]);
            }
        }
        lemma_path_avoids_leaf(s, leaf, q);
    }
}

/// Whether at most one cell of `s` is adjacent to `c`.
pub open spec fn at_most_one_neighbor(s: Set<Cell>, c: Cell) -> bool {
    forall|m: Cell, n: Cell|
        s.contains(m) && s.contains(n) && adjacent(m, c) && adjacent(n, c) ==> m == n
}

/// At most one cell of `s` is adjacent to `c` exactly when the list of the
/// neighbours of `c` in `s` has at most one entry.
pub proof fn lemma_at_most_one_neighbor(s: Set<Cell>, c: Cell)
    ensures
        at_most_one_neighbor(s, c) <==> neighbors_in(s, c).len() <= 1,
{
    lemma_has_neighbor_in(s, c);
    crate::lattice::lemma_axis_neighbors(c);
    crate::lattice::lemma_select(crate::lattice::axis_neighbors(c), s, true);
    let around = neighbors_in(s, c);
    if around.len() <= 1 {
        assert forall|m: Cell, n: Cell|
            s.contains(m) && s.contains(n) && adjacent(m, c) && adjacent(n, c) implies m == n by {
            assert(around.contains(m) && around.contains(n));
            let i = choose|i: int| 0 <= i < around.len() && around[i] == m;
            let j = choose|j: int| 0 <= j < around.len() && around[j] == n;
            assert(i == 0 && j == 0);
        }
    } else {
        assert(around.contains(around[0]) && around.contains(around[1]));
        assert(around[0] != around[1]);
    }
}

/// A connected body stays connected when a cell with at most one neighbour
/// in it is taken away.
pub proof fn lemma_leaf_removal_keeps_connected(s: Set<Cell>, leaf: Cell)
    requires
        connected(s),
        at_most_one_neighbor(s, leaf),
    ensures
        connected(s.remove(leaf)),
{
    let t = s.remove(leaf);
    assert forall|a: Cell, b: Cell| t.contains(a) && t.contains(b) implies #[trigger] linked(t, a, b) by {
        assert(linked(s, a, b));
        let p = choose|p: Seq<Cell>| #[trigger] is_path(s, p) && p[0] == a && p.last() == b;
        lemma_path_avoids_leaf(s, leaf, p);
    }
}

} // verus!
