//! The cubic lattice: cells, adjacency and the axis neighbours of a cell.
//!
//! The lattice is the finite cube of all triples of `i32` coordinates. A cell
//! on its rim has fewer than six neighbours: a step that would leave the
//! representable range leads nowhere.

use vstd::prelude::*;

verus! {

/// A lattice cell, given by its `(x, y, z)` coordinates.
pub type Cell = (i32, i32, i32);

/// Two cells are adjacent when they differ by exactly one along exactly one
/// axis and agree on the other two.
pub open spec fn adjacent(a: Cell, b: Cell) -> bool {
    ||| a.0 == b.0 && a.1 == b.1 && (a.2 - b.2 == 1 || b.2 - a.2 == 1)
    ||| a.0 == b.0 && a.2 == b.2 && (a.1 - b.1 == 1 || b.1 - a.1 == 1)
    ||| a.1 == b.1 && a.2 == b.2 && (a.0 - b.0 == 1 || b.0 - a.0 == 1)
}

/// `s` with `c` appended when `cond` holds, and `s` itself otherwise.
pub open spec fn push_if(s: Seq<Cell>, cond: bool, c: Cell) -> Seq<Cell> {
    if cond {
        s.push(c)
    } else {
        s
    }
}

/// The axis neighbours of `c` that the lattice holds, in the fixed order
/// `z + 1`, `z - 1`, `y + 1`, `y - 1`, `x + 1`, `x - 1`.
pub open spec fn axis_neighbors(c: Cell) -> Seq<Cell> {
    let s0 = push_if(Seq::empty(), c.2 < i32::MAX, (c.0, c.1, (c.2 + 1) as i32));
    let s1 = push_if(s0, c.2 > i32::MIN, (c.0, c.1, (c.2 - 1) as i32));
    let s2 = push_if(s1, c.1 < i32::MAX, (c.0, (c.1 + 1) as i32, c.2));
    let s3 = push_if(s2, c.1 > i32::MIN, (c.0, (c.1 - 1) as i32, c.2));
    let s4 = push_if(s3, c.0 < i32::MAX, ((c.0 + 1) as i32, c.1, c.2));
    push_if(s4, c.0 > i32::MIN, ((c.0 - 1) as i32, c.1, c.2))
}

/// The members of `cands`, in order, whose membership in `s` equals `member`.
pub open spec fn select(cands: Seq<Cell>, s: Set<Cell>, member: bool) -> Seq<Cell>
    decreases cands.len(),
{
    if cands.len() == 0 {
        Seq::empty()
    } else {
        push_if(
            select(cands.drop_last(), s, member),
            s.contains(cands.last()) == member,
            cands.last(),
        )
    }
}

/// The axis neighbours of `c` that are members of `s`.
pub open spec fn neighbors_in(s: Set<Cell>, c: Cell) -> Seq<Cell> {
    select(axis_neighbors(c), s, true)
}

/// The axis neighbours of `c` that are not members of `s`.
pub open spec fn neighbors_out(s: Set<Cell>, c: Cell) -> Seq<Cell> {
    select(axis_neighbors(c), s, false)
}

/// Whether some member of `s` is adjacent to `c`.
pub open spec fn has_neighbor_in(s: Set<Cell>, c: Cell) -> bool {
    exists|n: Cell| #[trigger] s.contains(n) && adjacent(n, c)
}

/// The border of `s`: the cells outside `s` that are adjacent to a member.
pub open spec fn border_of(s: Set<Cell>) -> Set<Cell> {
    Set::new(|v: Cell| !s.contains(v) && has_neighbor_in(s, v))
}

/// Adjacency is symmetric and no cell is adjacent to itself.
pub proof fn lemma_adjacent_symmetric(a: Cell, b: Cell)
    ensures
        adjacent(a, b) == adjacent(b, a),
        !adjacent(a, a),
{
}

/// The axis neighbours of a cell are exactly the cells adjacent to it, each
/// listed once, and there are at most six of them.
pub proof fn lemma_axis_neighbors(c: Cell)
    ensures
        forall|n: Cell| #[trigger] axis_neighbors(c).contains(n) <==> adjacent(c, n),
        axis_neighbors(c).no_duplicates(),
        axis_neighbors(c).len() <= 6,
{
    let s0 = push_if(Seq::empty(), c.2 < i32::MAX, (c.0, c.1, (c.2 + 1) as i32));
    let s1 = push_if(s0, c.2 > i32::MIN, (c.0, c.1, (c.2 - 1) as i32));
    let s2 = push_if(s1, c.1 < i32::MAX, (c.0, (c.1 + 1) as i32, c.2));
    let s3 = push_if(s2, c.1 > i32::MIN, (c.0, (c.1 - 1) as i32, c.2));
    let s4 = push_if(s3, c.0 < i32::MAX, ((c.0 + 1) as i32, c.1, c.2));
    let s5 = push_if(s4, c.0 > i32::MIN, ((c.0 - 1) as i32, c.1, c.2));
    lemma_push_if(Seq::empty(), c.2 < i32::MAX, (c.0, c.1, (c.2 + 1) as i32));
    lemma_push_if(s0, c.2 > i32::MIN, (c.0, c.1, (c.2 - 1) as i32));
    lemma_push_if(s1, c.1 < i32::MAX, (c.0, (c.1 + 1) as i32, c.2));
    lemma_push_if(s2, c.1 > i32::MIN, (c.0, (c.1 - 1) as i32, c.2));
    lemma_push_if(s3, c.0 < i32::MAX, ((c.0 + 1) as i32, c.1, c.2));
    lemma_push_if(s4, c.0 > i32::MIN, ((c.0 - 1) as i32, c.1, c.2));
    assert(forall|n: Cell| !Seq::<Cell>::empty().contains(n));
    assert(s5 == axis_neighbors(c));
    assert forall|n: Cell| #[trigger] s5.contains(n) <==> adjacent(c, n) by {
        assert(s0.contains(n) <==> (c.2 < i32::MAX && n == (c.0, c.1, (c.2 + 1) as i32)));
        assert(s1.contains(n) <==> (s0.contains(n) || (c.2 > i32::MIN && n == (c.0, c.1, (c.2 - 1) as i32))));
        assert(s2.contains(n) <==> (s1.contains(n) || (c.1 < i32::MAX && n == (c.0, (c.1 + 1) as i32, c.2))));
        assert(s3.contains(n) <==> (s2.contains(n) || (c.1 > i32::MIN && n == (c.0, (c.1 - 1) as i32, c.2))));
        assert(s4.contains(n) <==> (s3.contains(n) || (c.0 < i32::MAX && n == ((c.0 + 1) as i32, c.1, c.2))));
        assert(s5.contains(n) <==> (s4.contains(n) || (c.0 > i32::MIN && n == ((c.0 - 1) as i32, c.1, c.2))));
    }
}

/// What `push_if` holds, how long it is, and that it keeps a sequence free of
/// duplicates when the new cell is not yet in it.
pub proof fn lemma_push_if(s: Seq<Cell>, cond: bool, c: Cell)
    ensures
        forall|n: Cell| #[trigger] push_if(s, cond, c).contains(n) <==> s.contains(n) || (cond && n == c),
        push_if(s, cond, c).len() == s.len() + if cond { 1int } else { 0 },
        s.no_duplicates() && !s.contains(c) ==> push_if(s, cond, c).no_duplicates(),
{
    if cond {
        let t = s.push(c);
        assert forall|n: Cell| #[trigger] t.contains(n) <==> s.contains(n) || n == c by {
            if t.contains(n) {
                let i = choose|i: int| 0 <= i < t.len() && t[i] == n;
                if i < s.len() {
                    assert(s[i] == n);
                }
            }
            if s.contains(n) {
                let i = choose|i: int| 0 <= i < s.len() && s[i] == n;
                assert(t[i] == n);
            }
            if n == c {
                assert(t[s.len() as int] == n);
            }
        }
    }
}

/// What `select` keeps: the candidates whose membership in `s` is as asked,
/// in their order, without new duplicates.
pub proof fn lemma_select(cands: Seq<Cell>, s: Set<Cell>, member: bool)
    ensures
        forall|n: Cell| #[trigger] select(cands, s, member).contains(n) <==> cands.contains(n) && s.contains(n) == member,
        select(cands, s, member).len() <= cands.len(),
        cands.no_duplicates() ==> select(cands, s, member).no_duplicates(),
    decreases cands.len(),
{
    if cands.len() == 0 {
        assert(forall|n: Cell| !Seq::<Cell>::empty().contains(n));
    } else {
        let init = cands.drop_last();
        let last = cands.last();
        lemma_select(init, s, member);
        let kept = select(init, s, member);
        lemma_push_if(kept, s.contains(last) == member, last);
        lemma_push_if(init, true, last);
        assert(init.push(last) =~= cands);
        if cands.no_duplicates() {
            assert(init.no_duplicates());
            assert(!init.contains(last)) by {
                if init.contains(last) {
                    let i = choose|i: int| 0 <= i < init.len() && init[i] == last;
                    assert(cands[i] == cands[cands.len() - 1]);
                }
            }
        }
    }
}

/// A cell has a neighbour in `s` exactly when one of its axis neighbours is
/// a member of `s`.
pub proof fn lemma_has_neighbor_in(s: Set<Cell>, c: Cell)
    ensures
        has_neighbor_in(s, c) <==> neighbors_in(s, c).len() > 0,
        forall|n: Cell| #[trigger] neighbors_in(s, c).contains(n) <==> s.contains(n) && adjacent(n, c),
        forall|n: Cell| #[trigger] neighbors_out(s, c).contains(n) <==> !s.contains(n) && adjacent(n, c),
{
    lemma_axis_neighbors(c);
    lemma_select(axis_neighbors(c), s, true);
    lemma_select(axis_neighbors(c), s, false);
    let inside = neighbors_in(s, c);
    if has_neighbor_in(s, c) {
        let n = choose|n: Cell| #[trigger] s.contains(n) && adjacent(n, c);
        assert(axis_neighbors(c).contains(n));
        assert(inside.contains(n));
    }
    if inside.len() > 0 {
        assert(inside.contains(inside[0]));
        assert(s.contains(inside[0]) && adjacent(inside[0], c));
    }
}

/// The number of axis steps between two cells.
pub open spec fn distance(a: Cell, b: Cell) -> int {
    (if a.0 <= b.0 { b.0 - a.0 } else { a.0 - b.0 })
        + (if a.1 <= b.1 { b.1 - a.1 } else { a.1 - b.1 })
        + (if a.2 <= b.2 { b.2 - a.2 } else { a.2 - b.2 })
}

/// The neighbour of `a` that lies one axis step nearer to `b`, where the
/// two cells differ.
pub open spec fn toward(a: Cell, b: Cell) -> Cell {
    if a.0 < b.0 {
        ((a.0 + 1) as i32, a.1, a.2)
    } else if a.0 > b.0 {
        ((a.0 - 1) as i32, a.1, a.2)
    } else if a.1 < b.1 {
        (a.0, (a.1 + 1) as i32, a.2)
    } else if a.1 > b.1 {
        (a.0, (a.1 - 1) as i32, a.2)
    } else if a.2 < b.2 {
        (a.0, a.1, (a.2 + 1) as i32)
    } else {
        (a.0, a.1, (a.2 - 1) as i32)
    }
}

/// On the way from a member of `s` to a cell outside `s` lies a cell of the
/// border of `s`.
pub proof fn lemma_border_between(s: Set<Cell>, inside: Cell, outside: Cell)
    requires
        s.contains(inside),
        !s.contains(outside),
    ensures
        exists|v: Cell| #[trigger] border_of(s).contains(v),
    decreases distance(inside, outside),
{
    let next = toward(inside, outside);
    assert(adjacent(inside, next));
    assert(distance(next, outside) < distance(inside, outside));
    if s.contains(next) {
        lemma_border_between(s, next, outside);
    } else {
        assert(has_neighbor_in(s, next));
        assert(border_of(s).contains(next));
    }
}

/// The border of a set that holds a cell, and not every cell of the
/// lattice, is not empty.
pub proof fn lemma_border_nonempty(s: Set<Cell>)
    requires
        exists|c: Cell| s.contains(c),
        exists|c: Cell| !s.contains(c),
    ensures
        border_of(s) != Set::<Cell>::empty(),
{
    let inside = choose|c: Cell| s.contains(c);
    let outside = choose|c: Cell| !s.contains(c);
    lemma_border_between(s, inside, outside);
    let v = choose|v: Cell| #[trigger] border_of(s).contains(v);
    assert(!Set::<Cell>::empty().contains(v));
}

} // verus!
