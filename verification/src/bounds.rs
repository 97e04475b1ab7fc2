//! Axis-aligned bounding boxes of lattice cells.

use vstd::prelude::*;
use crate::lattice::Cell;

verus! {

/// An axis-aligned box, given by its least and greatest coordinate on each
/// axis. A box whose least coordinate exceeds its greatest on some axis
/// encloses nothing.
#[derive(Clone, Copy, Debug, PartialEq, Eq, Structural)]
pub struct BoundingBox {
    pub min_x: i32,
    pub max_x: i32,
    pub min_y: i32,
    pub max_y: i32,
    pub min_z: i32,
    pub max_z: i32,
}

impl BoundingBox {
    /// Whether `c` lies inside the box.
    pub open spec fn encloses(self, c: Cell) -> bool {
        &&& self.min_x <= c.0 <= self.max_x
        &&& self.min_y <= c.1 <= self.max_y
        &&& self.min_z <= c.2 <= self.max_z
    }

    /// Whether every cell of `s` lies inside the box.
    pub open spec fn encloses_all(self, s: Set<Cell>) -> bool {
        forall|c: Cell| s.contains(c) ==> self.encloses(c)
    }

    /// The least box that holds this box and `c`.
    pub open spec fn grown_to(self, c: Cell) -> BoundingBox {
        BoundingBox {
            min_x: if c.0 < self.min_x { c.0 } else { self.min_x },
            max_x: if c.0 > self.max_x { c.0 } else { self.max_x },
            min_y: if c.1 < self.min_y { c.1 } else { self.min_y },
            max_y: if c.1 > self.max_y { c.1 } else { self.max_y },
            min_z: if c.2 < self.min_z { c.2 } else { self.min_z },
            max_z: if c.2 > self.max_z { c.2 } else { self.max_z },
        }
    }

    /// Whether this box lies inside `outer`, bound by bound.
    pub open spec fn within(self, outer: BoundingBox) -> bool {
        &&& outer.min_x <= self.min_x && self.max_x <= outer.max_x
        &&& outer.min_y <= self.min_y && self.max_y <= outer.max_y
        &&& outer.min_z <= self.min_z && self.max_z <= outer.max_z
    }

    /// The box at the origin that holds the single cell `(0, 0, 0)`.
    pub open spec fn origin() -> BoundingBox {
        BoundingBox { min_x: 0, max_x: 0, min_y: 0, max_y: 0, min_z: 0, max_z: 0 }
    }

    /// The box that encloses nothing and from which `grown_to` grows the
    /// least box around any cells.
    pub open spec fn nothing() -> BoundingBox {
        BoundingBox {
            min_x: i32::MAX,
            max_x: i32::MIN,
            min_y: i32::MAX,
            max_y: i32::MIN,
            min_z: i32::MAX,
            max_z: i32::MIN,
        }
    }

    /// Whether the box is the least one around `s`: it encloses `s`, each of
    /// its six bounds is the coordinate of some cell of `s`, and around the
    /// empty set it is `nothing()`.
    pub open spec fn tight_around(self, s: Set<Cell>) -> bool {
        &&& self.encloses_all(s)
        &&& s == Set::<Cell>::empty() ==> self == Self::nothing()
        &&& s != Set::<Cell>::empty() ==> {
            &&& exists|c: Cell| #[trigger] s.contains(c) && c.0 == self.min_x
            &&& exists|c: Cell| #[trigger] s.contains(c) && c.0 == self.max_x
            &&& exists|c: Cell| #[trigger] s.contains(c) && c.1 == self.min_y
            &&& exists|c: Cell| #[trigger] s.contains(c) && c.1 == self.max_y
            &&& exists|c: Cell| #[trigger] s.contains(c) && c.2 == self.min_z
            &&& exists|c: Cell| #[trigger] s.contains(c) && c.2 == self.max_z
        }
    }

    /// The box that encloses nothing.
    pub fn empty() -> (b: BoundingBox)
        ensures
            b == Self::nothing(),
    {
        BoundingBox {
            min_x: i32::MAX,
            max_x: i32::MIN,
            min_y: i32::MAX,
            max_y: i32::MIN,
            min_z: i32::MAX,
            max_z: i32::MIN,
        }
    }

    /// Grows the box, where needed, until it holds `c`.
    pub fn grow_to(&mut self, c: &Cell)
        ensures
            *final(self) == old(self).grown_to(*c),
            final(self).encloses(*c),
    {
        if c.0 < self.min_x {
            self.min_x = c.0;
        }
        if c.0 > self.max_x {
            self.max_x = c.0;
        }
        if c.1 < self.min_y {
            self.min_y = c.1;
        }
        if c.1 > self.max_y {
            self.max_y = c.1;
        }
        if c.2 < self.min_z {
            self.min_z = c.2;
        }
        if c.2 > self.max_z {
            self.max_z = c.2;
        }
    }
}

} // verus!
