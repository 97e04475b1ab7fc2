//! A finite set of lattice cells with constant-time membership tests.
//!
//! The cells are kept in a hash set under an integer key that packs the three
//! coordinates; the view of a `CellSet` is the mathematical set of its cells.

use std::collections::HashSet;
use vstd::prelude::*;
use vstd::std_specs::hash::*;
use vstd::std_specs::iter::IteratorSpec;
use crate::lattice::Cell;

verus! {

/// Half the width of the coordinate range: coordinates are shifted by it to
/// make them non-negative before they are packed.
pub const COORD_SHIFT: i64 = 0x8000_0000;

/// The number of values that one coordinate can take.
pub const COORD_SPAN: u128 = 0x1_0000_0000;

/// The number of keys: every key is below it.
pub const KEY_LIMIT: u128 = 0x1_0000_0000_0000_0000_0000_0000;

/// The key under which a cell is stored: its three shifted coordinates read
/// as the digits of a number in base `COORD_SPAN`.
pub open spec fn key_of(c: Cell) -> u128 {
    (((c.0 + COORD_SHIFT) * COORD_SPAN + (c.1 + COORD_SHIFT)) * COORD_SPAN + (c.2 + COORD_SHIFT)) as u128
}

/// The cell that a key below `KEY_LIMIT` stands for.
pub open spec fn cell_of(k: u128) -> Cell {
    (
        ((k / COORD_SPAN) / COORD_SPAN - COORD_SHIFT) as i32,
        ((k / COORD_SPAN) % COORD_SPAN - COORD_SHIFT) as i32,
        (k % COORD_SPAN - COORD_SHIFT) as i32,
    )
}

/// The cells whose keys are in `keys`.
pub open spec fn cells_of(keys: Set<u128>) -> Set<Cell> {
    Set::new(|c: Cell| keys.contains(key_of(c)))
}

/// Packing a cell and unpacking a key are inverse to each other.
pub proof fn lemma_key_round_trip(c: Cell, k: u128)
    ensures
        key_of(c) < KEY_LIMIT,
        cell_of(key_of(c)) == c,
        k < KEY_LIMIT ==> key_of(cell_of(k)) == k,
{
    let hi: int = c.0 + COORD_SHIFT;
    let mid: int = c.1 + COORD_SHIFT;
    let lo: int = c.2 + COORD_SHIFT;
    let upper: int = hi * 0x1_0000_0000 + mid;
    let key: int = upper * 0x1_0000_0000 + lo;
    assert(0 <= hi < 0x1_0000_0000 && 0 <= mid < 0x1_0000_0000 && 0 <= lo < 0x1_0000_0000);
    assert(0 <= upper < 0x1_0000_0000_0000_0000);
    assert(0 <= key < 0x1_0000_0000_0000_0000_0000_0000);
    assert(key / 0x1_0000_0000 == upper && key % 0x1_0000_0000 == lo);
    assert(upper / 0x1_0000_0000 == hi && upper % 0x1_0000_0000 == mid);
    if k < KEY_LIMIT {
        let top: int = (k / 0x1_0000_0000) as int;
        assert(0 <= top < 0x1_0000_0000_0000_0000);
        assert(k == top * 0x1_0000_0000 + k % 0x1_0000_0000);
        assert(top == (top / 0x1_0000_0000) * 0x1_0000_0000 + top % 0x1_0000_0000);
    }
}

/// A finite set of keys below `KEY_LIMIT` stands for a finite set of cells of
/// the same size.
pub proof fn lemma_cells_of(keys: Set<u128>)
    requires
        keys.finite(),
        forall|k: u128| keys.contains(k) ==> k < KEY_LIMIT,
    ensures
        cells_of(keys).finite(),
        cells_of(keys).len() == keys.len(),
{
    let unpack = |k: u128| cell_of(k);
    let pack = |c: Cell| key_of(c);
    let cells = cells_of(keys);
    assert(cells =~= keys.map(unpack)) by {
        assert forall|c: Cell| cells.contains(c) <==> #[trigger] keys.map(unpack).contains(c) by {
            lemma_key_round_trip(c, 0);
            if cells.contains(c) {
                assert(keys.contains(key_of(c)) && unpack(key_of(c)) == c);
            }
            if keys.map(unpack).contains(c) {
                let k = choose|k: u128| keys.contains(k) && unpack(k) == c;
                lemma_key_round_trip(c, k);
            }
        }
    }
    keys.lemma_map_finite(unpack);
    assert(cells.map(pack) =~= keys) by {
        assert forall|k: u128| #[trigger] cells.map(pack).contains(k) <==> keys.contains(k) by {
            if keys.contains(k) {
                lemma_key_round_trip((0, 0, 0), k);
                assert(cells.contains(cell_of(k)) && pack(cell_of(k)) == k);
            }
        }
    }
    assert(vstd::relations::injective_on(pack, cells)) by {
        assert forall|a: Cell, b: Cell| #[trigger] pack(a) == #[trigger] pack(b) implies a == b by {
            lemma_key_round_trip(a, 0);
            lemma_key_round_trip(b, 0);
        }
    }
    vstd::set_lib::lemma_map_size(cells, keys, pack);
}

/// A finite set of lattice cells.
pub struct CellSet {
    keys: HashSet<u128>,
}

impl View for CellSet {
    type V = Set<Cell>;

    closed spec fn view(&self) -> Set<Cell> {
        cells_of(self.keys@)
    }
}

/// Packs a cell into its key.
fn pack(c: &Cell) -> (k: u128)
    ensures
        k == key_of(*c),
        k < KEY_LIMIT,
{
    let hi: u128 = (c.0 as i64 + COORD_SHIFT) as u128;
    let mid: u128 = (c.1 as i64 + COORD_SHIFT) as u128;
    let lo: u128 = (c.2 as i64 + COORD_SHIFT) as u128;
    (hi * COORD_SPAN + mid) * COORD_SPAN + lo
}

/// Unpacks a key into the cell that it stands for.
fn unpack(k: u128) -> (c: Cell)
    requires
        k < KEY_LIMIT,
    ensures
        c == cell_of(k),
        key_of(c) == k,
{
    proof {
        lemma_key_round_trip((0, 0, 0), k);
    }
    let top: u128 = k / COORD_SPAN;
    let hi: i64 = (top / COORD_SPAN) as i64 - COORD_SHIFT;
    let mid: i64 = (top % COORD_SPAN) as i64 - COORD_SHIFT;
    let lo: i64 = (k % COORD_SPAN) as i64 - COORD_SHIFT;
    (hi as i32, mid as i32, lo as i32)
}

impl CellSet {
    /// Every stored key stands for a cell, and there are finitely many.
    pub closed spec fn wf(&self) -> bool {
        &&& self.keys@.finite()
        &&& forall|k: u128| self.keys@.contains(k) ==> k < KEY_LIMIT
    }

    /// A well-formed set is finite.
    pub proof fn lemma_finite(&self)
        requires
            self.wf(),
        ensures
            self@.finite(),
    {
        lemma_cells_of(self.keys@);
    }

    /// The empty set.
    pub fn new() -> (s: CellSet)
        ensures
            s.wf(),
            s@ == Set::<Cell>::empty(),
    {
        broadcast use group_hash_axioms;
        let s = CellSet { keys: HashSet::new() };
        assert(s@ =~= Set::<Cell>::empty());
        s
    }

    /// The number of cells in the set.
    pub fn len(&self) -> (n: usize)
        requires
            self.wf(),
        ensures
            self@.finite(),
            n == self@.len(),
    {
        broadcast use group_hash_axioms;
        proof {
            lemma_cells_of(self.keys@);
        }
        self.keys.len()
    }

    /// Whether the set holds no cell.
    pub fn is_empty(&self) -> (b: bool)
        requires
            self.wf(),
        ensures
            self@.finite(),
            b == (self@.len() == 0),
            b == (self@ == Set::<Cell>::empty()),
    {
        let n = self.len();
        proof {
            if n == 0 {
                self@.lemma_len0_is_empty();
                assert(self@ =~= Set::<Cell>::empty());
            }
        }
        n == 0
    }

    /// Whether `c` is in the set.
    pub fn contains(&self, c: &Cell) -> (b: bool)
        ensures
            b == self@.contains(*c),
    {
        broadcast use group_hash_axioms;
        let k = pack(c);
        self.keys.contains(&k)
    }

    /// Adds `c` to the set and reports whether it was new.
    pub fn insert(&mut self, c: Cell) -> (fresh: bool)
        requires
            old(self).wf(),
        ensures
            final(self).wf(),
            final(self)@ == old(self)@.insert(c),
            fresh == !old(self)@.contains(c),
    {
        broadcast use group_hash_axioms;
        let k = pack(&c);
        let fresh = self.keys.insert(k);
        proof {
            assert forall|d: Cell| cells_of(self.keys@).contains(d) <==> #[trigger] cells_of(old(self).keys@).insert(c).contains(d) by {
                lemma_key_round_trip(d, 0);
                lemma_key_round_trip(c, 0);
            }
            assert(self@ =~= old(self)@.insert(c));
        }
        fresh
    }

    /// Takes `c` out of the set and reports whether it was there.
    pub fn remove(&mut self, c: &Cell) -> (found: bool)
        requires
            old(self).wf(),
        ensures
            final(self).wf(),
            final(self)@ == old(self)@.remove(*c),
            found == old(self)@.contains(*c),
    {
        broadcast use group_hash_axioms;
        let k = pack(c);
        let found = self.keys.remove(&k);
        proof {
            assert forall|d: Cell| cells_of(self.keys@).contains(d) <==> #[trigger] cells_of(old(self).keys@).remove(*c).contains(d) by {
                lemma_key_round_trip(d, 0);
                lemma_key_round_trip(*c, 0);
            }
            assert(self@ =~= old(self)@.remove(*c));
        }
        found
    }

    /// Some cell of the set: the one that the hash set hands out first. On
    /// the empty set there is none.
    pub fn any(&self) -> (c: Option<Cell>)
        requires
            self.wf(),
        ensures
            match c {
                Some(c) => self@.contains(c),
                None => self@ == Set::<Cell>::empty(),
            },
    {
        broadcast use group_hash_axioms;
        proof {
            lemma_cells_of(self.keys@);
        }
        let ghost all: Seq<u128> = spec_hash_keys_iter(&self.keys).remaining().unref();
        for k in it: self.keys.iter()
            invariant
                it.seq() == spec_hash_keys_iter(&self.keys).remaining(),
                all == it.seq().unref(),
                all.to_set() == self.keys@,
                all.len() == self.keys@.len(),
                forall|k: u128| self.keys@.contains(k) ==> k < KEY_LIMIT,
                it.index() == 0,
        {
            proof {
                assert(all[0] == *k);
                assert(all.to_set().contains(*k));
            }
            return Some(unpack(*k));
        }
        proof {
            self@.lemma_len0_is_empty();
            assert(self@ =~= Set::<Cell>::empty());
        }
        None
    }

    /// The cell at place `index` in the order in which the hash set hands
    /// its cells out, found by a scan from the start.
    pub fn nth(&self, index: usize) -> (c: Cell)
        requires
            self.wf(),
            index < self@.len(),
        ensures
            self@.contains(c),
    {
        broadcast use group_hash_axioms;
        proof {
            lemma_cells_of(self.keys@);
        }
        let ghost all: Seq<u128> = spec_hash_keys_iter(&self.keys).remaining().unref();
        let mut cur: usize = 0;
        for k in it: self.keys.iter()
            invariant
                it.seq() == spec_hash_keys_iter(&self.keys).remaining(),
                all == it.seq().unref(),
                all.to_set() == self.keys@,
                all.len() == self.keys@.len(),
                self.keys@.len() == self@.len(),
                forall|k: u128| self.keys@.contains(k) ==> k < KEY_LIMIT,
                cur == it.index(),
                cur <= index < self@.len(),
        {
            if cur == index {
                proof {
                    assert(all[cur as int] == *k);
                    assert(all.to_set().contains(*k));
                }
                return unpack(*k);
            }
            cur = cur + 1;
        }
        vstd::pervasive::unreached()
    }

    /// The cells of the set, each once, in the order in which the hash set
    /// hands them out.
    pub fn to_vec(&self) -> (cells: Vec<Cell>)
        requires
            self.wf(),
        ensures
            self@.finite(),
            cells@.no_duplicates(),
            cells@.to_set() == self@,
            cells@.len() == self@.len(),
    {
        broadcast use group_hash_axioms;
        proof {
            lemma_cells_of(self.keys@);
        }
        let mut cells: Vec<Cell> = Vec::new();
        let ghost all: Seq<u128> = spec_hash_keys_iter(&self.keys).remaining().unref();
        for k in it: self.keys.iter()
            invariant
                it.seq() == spec_hash_keys_iter(&self.keys).remaining(),
                all == it.seq().unref(),
                all.to_set() == self.keys@,
                forall|k: u128| self.keys@.contains(k) ==> k < KEY_LIMIT,
                cells@.len() == it.index(),
                forall|j: int| 0 <= j < cells@.len() ==> cells@[j] == cell_of(all[j]),
        {
            assert(all.contains(*k));
            assert(all.to_set().contains(*k));
            let c = unpack(*k);
            cells.push(c);
        }
        proof {
            let r = spec_hash_keys_iter(&self.keys).remaining();
            assert forall|i: int, j: int| 0 <= i < cells@.len() && 0 <= j < cells@.len() && i != j implies cells@[i] != cells@[j] by {
                assert(r[i] != r[j]);
                assert(all[i] != all[j]);
                assert(all.to_set().contains(all[i]) && all.to_set().contains(all[j]));
                lemma_key_round_trip((0, 0, 0), all[i]);
                lemma_key_round_trip((0, 0, 0), all[j]);
            }
            assert forall|c: Cell| #[trigger] cells@.to_set().contains(c) <==> self@.contains(c) by {
                lemma_key_round_trip(c, 0);
                if cells@.to_set().contains(c) {
                    let j = choose|j: int| 0 <= j < cells@.len() && cells@[j] == c;
                    assert(all.to_set().contains(all[j]));
                    lemma_key_round_trip((0, 0, 0), all[j]);
                }
                if self@.contains(c) {
                    assert(all.to_set().contains(key_of(c)));
                    let j = choose|j: int| 0 <= j < all.len() && all[j] == key_of(c);
                    assert(cells@[j] == c);
                }
            }
            assert(cells@.to_set() =~= self@);
        }
        cells
    }
}

} // verus!
