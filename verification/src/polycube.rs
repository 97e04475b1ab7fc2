//! The polycube: its occupied cells, the exact border around them and a
//! loose bounding box, kept consistent by `insert` and `remove`.

use vstd::prelude::*;
use crate::bounds::BoundingBox;
use crate::cells::CellSet;
use crate::connectivity::{connected, lemma_linked_refl, lemma_linked_step, lemma_star_connected, linked};
use crate::lattice::{adjacent, border_of, has_neighbor_in, lemma_has_neighbor_in, Cell};
use crate::neighbors::{get_neighbors, get_vacant_neighbors, has_neighbor};

verus! {

/// The straight rod of `len` cells that starts at the origin and runs along
/// the z axis.
pub open spec fn rod(len: int) -> Set<Cell> {
    Set::new(|c: Cell| c.0 == 0 && c.1 == 0 && 0 <= c.2 < len)
}

/// Every cell of a rod is linked to its first cell.
proof fn lemma_rod_linked(len: int, k: int)
    requires
        0 <= k < len,
        k <= i32::MAX,
    ensures
        linked(rod(len), (0i32, 0i32, 0i32), (0i32, 0i32, k as i32)),
    decreases k,
{
    if k == 0 {
        lemma_linked_refl(rod(len), (0i32, 0i32, 0i32));
    } else {
        lemma_rod_linked(len, k - 1);
        lemma_linked_step(rod(len), (0i32, 0i32, 0i32), (0i32, 0i32, (k - 1) as i32), (0i32, 0i32, k as i32));
    }
}

/// A rod is a single connected body.
pub proof fn lemma_rod_connected(len: int)
    ensures
        connected(rod(len)),
{
    assert forall|a: Cell| rod(len).contains(a) implies #[trigger] linked(rod(len), (0i32, 0i32, 0i32), a) by {
        lemma_rod_linked(len, a.2 as int);
    }
    lemma_star_connected(rod(len), (0i32, 0i32, 0i32));
}

/// The cells outside `all` that are adjacent to a cell of `part`.
pub open spec fn border_within(part: Set<Cell>, all: Set<Cell>) -> Set<Cell> {
    Set::new(|v: Cell| !all.contains(v) && has_neighbor_in(part, v))
}

/// The least bounding box around the cells of `complex`.
fn tight_box(complex: &CellSet) -> (tight: BoundingBox)
    requires
        complex.wf(),
    ensures
        tight.tight_around(complex@),
{
    let pieces = complex.to_vec();
    let mut tight = BoundingBox::empty();
    let ghost mut at_min_x: int = 0;
    let ghost mut at_max_x: int = 0;
    let ghost mut at_min_y: int = 0;
    let ghost mut at_max_y: int = 0;
    let ghost mut at_min_z: int = 0;
    let ghost mut at_max_z: int = 0;
    let mut i: usize = 0;
    while i < pieces.len()
        invariant
            i <= pieces.len(),
            forall|j: int| 0 <= j < i ==> tight.encloses(#[trigger] pieces@[j]),
            i == 0 ==> tight == BoundingBox::nothing(),
            i > 0 ==> 0 <= at_min_x < i && pieces@[at_min_x].0 == tight.min_x,
            i > 0 ==> 0 <= at_max_x < i && pieces@[at_max_x].0 == tight.max_x,
            i > 0 ==> 0 <= at_min_y < i && pieces@[at_min_y].1 == tight.min_y,
            i > 0 ==> 0 <= at_max_y < i && pieces@[at_max_y].1 == tight.max_y,
            i > 0 ==> 0 <= at_min_z < i && pieces@[at_min_z].2 == tight.min_z,
            i > 0 ==> 0 <= at_max_z < i && pieces@[at_max_z].2 == tight.max_z,
        decreases pieces.len() - i,
    {
        let piece = pieces[i];
        proof {
            if i == 0 || piece.0 < tight.min_x {
                at_min_x = i as int;
            }
            if i == 0 || piece.0 > tight.max_x {
                at_max_x = i as int;
            }
            if i == 0 || piece.1 < tight.min_y {
                at_min_y = i as int;
            }
            if i == 0 || piece.1 > tight.max_y {
                at_max_y = i as int;
            }
            if i == 0 || piece.2 < tight.min_z {
                at_min_z = i as int;
            }
            if i == 0 || piece.2 > tight.max_z {
                at_max_z = i as int;
            }
        }
        tight.grow_to(&piece);
        i = i + 1;
    }
    proof {
        let cells = complex@;
        assert forall|c: Cell| cells.contains(c) implies tight.encloses(c) by {
            assert(pieces@.to_set().contains(c));
            let j = choose|j: int| 0 <= j < pieces@.len() && pieces@[j] == c;
            assert(tight.encloses(pieces@[j]));
        }
        if pieces.len() == 0 {
            assert(cells =~= Set::<Cell>::empty());
        } else {
            assert(cells.contains(pieces@[0])) by {
                assert(pieces@.to_set().contains(pieces@[0]));
            }
            assert(pieces@.to_set().contains(pieces@[at_min_x]));
            assert(pieces@.to_set().contains(pieces@[at_max_x]));
            assert(pieces@.to_set().contains(pieces@[at_min_y]));
            assert(pieces@.to_set().contains(pieces@[at_max_y]));
            assert(pieces@.to_set().contains(pieces@[at_min_z]));
            assert(pieces@.to_set().contains(pieces@[at_max_z]));
        }
    }
    tight
}

/// A body of unit cubes on the lattice.
pub struct Polycube {
    complex: CellSet,
    insertable_locations: CellSet,
    bounds: BoundingBox,
}

impl Polycube {
    /// The occupied cells.
    pub closed spec fn cells(&self) -> Set<Cell> {
        self.complex@
    }

    /// The recorded border: the vacant cells at which the body may grow.
    pub closed spec fn border(&self) -> Set<Cell> {
        self.insertable_locations@
    }

    /// The recorded bounding box.
    pub closed spec fn bounds(&self) -> BoundingBox {
        self.bounds
    }

    /// Both cell sets are sound stores; nothing is said of how they relate.
    pub closed spec fn stored(&self) -> bool {
        &&& self.complex.wf()
        &&& self.insertable_locations.wf()
    }

    /// The invariant of the aggregate: the recorded border is exactly the
    /// border of the occupied cells, and the bounding box encloses them.
    pub open spec fn wf(&self) -> bool {
        &&& self.stored()
        &&& self.cells().finite()
        &&& self.border().finite()
        &&& self.border() == border_of(self.cells())
        &&& self.bounds().encloses_all(self.cells())
    }

    /// Stored cell sets are finite.
    pub proof fn lemma_stored_finite(&self)
        requires
            self.stored(),
        ensures
            self.cells().finite(),
            self.border().finite(),
    {
        self.complex.lemma_finite();
        self.insertable_locations.lemma_finite();
    }

    /// The occupied cells.
    pub fn complex(&self) -> (complex: &CellSet)
        requires
            self.stored(),
        ensures
            complex.wf(),
            complex@ == self.cells(),
    {
        &self.complex
    }

    /// The border: the vacant cells at which the body may grow.
    pub fn insertable_locations(&self) -> (border: &CellSet)
        requires
            self.stored(),
        ensures
            border.wf(),
            border@ == self.border(),
    {
        &self.insertable_locations
    }

    /// The bounding box as it stands: after insertions and removals it may
    /// be wider than the body.
    pub fn bounding_box(&self) -> (b: BoundingBox)
        ensures
            b == self.bounds(),
    {
        self.bounds
    }

    /// A rod of `len` cells along the z axis, starting at the origin.
    pub fn new(len: usize) -> (p: Polycube)
        requires
            len <= i32::MAX,
        ensures
            p.wf(),
            p.cells() == rod(len as int),
            p.cells().len() == len,
            connected(p.cells()),
            p.bounds() == BoundingBox::origin().grown_to((0, 0, if len == 0 { 0i32 } else { (len - 1) as i32 })),
    {
        let mut p = Polycube {
            complex: CellSet::new(),
            insertable_locations: CellSet::new(),
            bounds: BoundingBox { min_x: 0, max_x: 0, min_y: 0, max_y: 0, min_z: 0, max_z: 0 },
        };
        proof {
            assert(p.cells() =~= rod(0));
            assert(p.border() =~= border_of(p.cells()));
        }
        let mut i: usize = 0;
        while i < len
            invariant
                i <= len <= i32::MAX,
                p.wf(),
                p.cells() == rod(i as int),
                p.cells().len() == i,
                p.bounds() == BoundingBox::origin().grown_to((0, 0, if i == 0 { 0i32 } else { (i - 1) as i32 })),
            decreases len - i,
        {
            let block: Cell = (0, 0, i as i32);
            p.insert(block);
            proof {
                assert(p.cells() =~= rod(i + 1));
            }
            i = i + 1;
        }
        proof {
            lemma_rod_connected(len as int);
        }
        p
    }

    /// Occupies `block`: the bounding box grows to hold it, it leaves the
    /// border, and its vacant neighbours join the border. Returns whether
    /// the cell was vacant before.
    pub fn insert(&mut self, block: Cell) -> (fresh: bool)
        requires
            old(self).wf(),
        ensures
            final(self).wf(),
            final(self).cells() == old(self).cells().insert(block),
            final(self).bounds() == old(self).bounds().grown_to(block),
            fresh == !old(self).cells().contains(block),
    {
        self.bounds.grow_to(&block);
        self.insertable_locations.remove(&block);
        let vacant = get_vacant_neighbors(&self.complex, &block);
        let ghost base = self.insertable_locations@;
        let mut i: usize = 0;
        while i < vacant.len()
            invariant
                i <= vacant.len(),
                self.complex == old(self).complex,
                self.bounds == old(self).bounds.grown_to(block),
                self.insertable_locations.wf(),
                self.insertable_locations@ == base.union(vacant@.take(i as int).to_set()),
            decreases vacant.len() - i,
        {
            proof {
                assert(vacant@.take(i + 1) =~= vacant@.take(i as int).push(vacant@[i as int]));
                vacant@.take(i as int).lemma_push_to_set_commute(vacant@[i as int]);
                assert(base.union(vacant@.take(i as int).to_set()).insert(vacant@[i as int])
                    =~= base.union(vacant@.take(i + 1).to_set()));
            }
            self.insertable_locations.insert(vacant[i]);
            i = i + 1;
        }
        let fresh = self.complex.insert(block);
        proof {
            let before = old(self).cells();
            let after = self.cells();
            assert(vacant@.take(vacant.len() as int) =~= vacant@);
            lemma_has_neighbor_in(before, block);
            assert forall|v: Cell| #[trigger] self.border().contains(v) <==> border_of(after).contains(v) by {
                assert(vacant@.to_set().contains(v) <==> vacant@.contains(v));
                if border_of(after).contains(v) {
                    let n = choose|n: Cell| #[trigger] after.contains(n) && adjacent(n, v);
                    if n != block {
                        assert(before.contains(n));
                        assert(has_neighbor_in(before, v));
                    }
                }
                if border_of(before).contains(v) && v != block {
                    let n = choose|n: Cell| #[trigger] before.contains(n) && adjacent(n, v);
                    assert(after.contains(n));
                }
                if vacant@.contains(v) {
                    assert(after.contains(block) && adjacent(block, v));
                }
            }
            assert(self.border() =~= border_of(after));
            self.lemma_stored_finite();
        }
        fresh
    }

    /// Vacates `piece`: it joins the border if an occupied neighbour is
    /// left, and each of its border neighbours that has no occupied
    /// neighbour left is dropped from the border. The bounding box is kept
    /// as it is. Returns whether the cell was occupied before.
    pub fn remove(&mut self, piece: &Cell) -> (found: bool)
        requires
            old(self).wf(),
        ensures
            final(self).wf(),
            final(self).cells() == old(self).cells().remove(*piece),
            final(self).bounds() == old(self).bounds(),
            found == old(self).cells().contains(*piece),
    {
        if has_neighbor(&self.complex, piece) {
            self.insertable_locations.insert(*piece);
        }
        let found = self.complex.remove(piece);
        let around = get_neighbors(&self.insertable_locations, piece);
        let ghost base = self.insertable_locations@;
        let ghost before = old(self).cells();
        let ghost after = self.complex@;
        let mut i: usize = 0;
        while i < around.len()
            invariant
                i <= around.len(),
                self.complex.wf(),
                self.complex@ == after,
                self.bounds == old(self).bounds,
                self.insertable_locations.wf(),
                forall|v: Cell| #[trigger] self.insertable_locations@.contains(v) <==> base.contains(v) && !(
                    around@.take(i as int).contains(v) && !has_neighbor_in(after, v)),
            decreases around.len() - i,
        {
            let border_neighbor = around[i];
            proof {
                assert(around@.take(i + 1) =~= around@.take(i as int).push(border_neighbor));
                crate::lattice::lemma_push_if(around@.take(i as int), true, border_neighbor);
            }
            if !has_neighbor(&self.complex, &border_neighbor) {
                self.insertable_locations.remove(&border_neighbor);
            }
            i = i + 1;
        }
        proof {
            assert(around@.take(around.len() as int) =~= around@);
            lemma_has_neighbor_in(base, *piece);
            crate::lattice::lemma_adjacent_symmetric(*piece, *piece);
            assert forall|v: Cell| #[trigger] self.border().contains(v) <==> border_of(after).contains(v) by {
                crate::lattice::lemma_adjacent_symmetric(*piece, v);
                if has_neighbor_in(after, v) {
                    let n = choose|n: Cell| #[trigger] after.contains(n) && adjacent(n, v);
                    assert(before.contains(n));
                }
                if has_neighbor_in(before, v) && !adjacent(*piece, v) {
                    let n = choose|n: Cell| #[trigger] before.contains(n) && adjacent(n, v);
                    assert(after.contains(n));
                }
                if has_neighbor_in(before, v) && !has_neighbor_in(after, v) {
                    let n = choose|n: Cell| #[trigger] before.contains(n) && adjacent(n, v);
                    assert(n == *piece) by {
                        if n != *piece {
                            assert(after.contains(n));
                        }
                    }
                }
            }
            assert(self.border() =~= border_of(after));
            self.lemma_stored_finite();
        }
        found
    }

    /// Replaces the bounding box by the least one around the occupied
    /// cells, found by a scan of all of them.
    pub fn recompute_bounding_box(&mut self)
        requires
            old(self).wf(),
        ensures
            final(self).wf(),
            final(self).cells() == old(self).cells(),
            final(self).border() == old(self).border(),
            final(self).bounds().tight_around(final(self).cells()),
    {
        self.bounds = tight_box(&self.complex);
    }

    /// The body whose occupied cells are those of `cells`, with its exact
    /// border and the least bounding box around it.
    pub fn from_cells(cells: &Vec<Cell>) -> (p: Polycube)
        ensures
            p.wf(),
            p.cells() == cells@.to_set(),
            p.bounds().tight_around(p.cells()),
    {
        let mut complex = CellSet::new();
        let mut i: usize = 0;
        while i < cells.len()
            invariant
                i <= cells.len(),
                complex.wf(),
                complex@ == cells@.take(i as int).to_set(),
            decreases cells.len() - i,
        {
            proof {
                assert(cells@.take(i + 1) =~= cells@.take(i as int).push(cells@[i as int]));
                cells@.take(i as int).lemma_push_to_set_commute(cells@[i as int]);
            }
            complex.insert(cells[i]);
            i = i + 1;
        }
        proof {
            assert(cells@.take(cells.len() as int) =~= cells@);
        }
        let bounds = tight_box(&complex);
        let mut p = Polycube { complex, insertable_locations: CellSet::new(), bounds };
        p.compute_insertable();
        proof {
            p.lemma_stored_finite();
        }
        p
    }

    /// Recomputes the border from scratch, by a scan of all occupied cells.
    /// `insert` and `remove` keep the border exact at constant cost; this is
    /// for a body whose cells were filled in without them.
    pub fn compute_insertable(&mut self)
        requires
            old(self).stored(),
        ensures
            final(self).stored(),
            final(self).cells() == old(self).cells(),
            final(self).bounds() == old(self).bounds(),
            final(self).border() == border_of(final(self).cells()),
    {
        let mut site_perimeter = CellSet::new();
        let pieces = self.complex.to_vec();
        let ghost cells = self.complex@;
        let mut i: usize = 0;
        while i < pieces.len()
            invariant
                i <= pieces.len(),
                self.complex.wf(),
                self.complex@ == cells,
                pieces@.to_set() == cells,
                site_perimeter.wf(),
                site_perimeter@ == border_within(pieces@.take(i as int).to_set(), cells),
            decreases pieces.len() - i,
        {
            let piece = pieces[i];
            let vacant = get_vacant_neighbors(&self.complex, &piece);
            let ghost base = site_perimeter@;
            let mut k: usize = 0;
            while k < vacant.len()
                invariant
                    k <= vacant.len(),
                    site_perimeter.wf(),
                    site_perimeter@ == base.union(vacant@.take(k as int).to_set()),
                decreases vacant.len() - k,
            {
                proof {
                    assert(vacant@.take(k + 1) =~= vacant@.take(k as int).push(vacant@[k as int]));
                    vacant@.take(k as int).lemma_push_to_set_commute(vacant@[k as int]);
                    assert(base.union(vacant@.take(k as int).to_set()).insert(vacant@[k as int])
                        =~= base.union(vacant@.take(k + 1).to_set()));
                }
                site_perimeter.insert(vacant[k]);
                k = k + 1;
            }
            proof {
                assert(vacant@.take(vacant.len() as int) =~= vacant@);
                assert(pieces@.take(i + 1) =~= pieces@.take(i as int).push(piece));
                pieces@.take(i as int).lemma_push_to_set_commute(piece);
                lemma_has_neighbor_in(cells, piece);
                let part = pieces@.take(i as int).to_set();
                let grown = part.insert(piece);
                assert forall|v: Cell| #[trigger] site_perimeter@.contains(v) <==> border_within(grown, cells).contains(v) by {
                    assert(vacant@.to_set().contains(v) <==> vacant@.contains(v));
                    if border_within(grown, cells).contains(v) {
                        let n = choose|n: Cell| #[trigger] grown.contains(n) && adjacent(n, v);
                        if n != piece {
                            assert(part.contains(n));
                            assert(has_neighbor_in(part, v));
                        }
                    }
                    if base.contains(v) {
                        let n = choose|n: Cell| #[trigger] part.contains(n) && adjacent(n, v);
                        assert(grown.contains(n));
                    }
                    if vacant@.contains(v) {
                        assert(grown.contains(piece) && adjacent(piece, v));
                    }
                }
                assert(site_perimeter@ =~= border_within(grown, cells));
            }
            i = i + 1;
        }
        proof {
            assert(pieces@.take(pieces.len() as int) =~= pieces@);
            assert(border_within(cells, cells) =~= border_of(cells));
        }
        self.insertable_locations = site_perimeter;
    }
}

} // verus!
