//! The index of resident cells: which absolute cell coordinates are
//! currently represented by a live entity.

use std::collections::HashSet;
use vstd::prelude::*;

verus! {

broadcast use vstd::std_specs::hash::group_hash_axioms;

/// The number under which a cell is filed: its first coordinate in the high
/// half, its second in the low half.
pub open spec fn cell_key(cell: (u32, u32)) -> u64 {
    (cell.0 as int * 0x1_0000_0000 + cell.1 as int) as u64
}

/// The cell that is filed under a number.
pub open spec fn key_cell(key: u64) -> (u32, u32) {
    ((key as int / 0x1_0000_0000) as u32, (key as int % 0x1_0000_0000) as u32)
}

/// Filing a cell and reading it back gives the cell, and the other way round.
pub proof fn lemma_cell_key_inverse(cell: (u32, u32), key: u64)
    ensures
        key_cell(cell_key(cell)) == cell,
        cell_key(key_cell(key)) == key,
{
}

/// The set of resident cells.
pub struct LoadedSet {
    cells: HashSet<u64>,
}

impl View for LoadedSet {
    type V = Set<(u32, u32)>;

    closed spec fn view(&self) -> Set<(u32, u32)> {
        self.cells@.map(|key: u64| key_cell(key))
    }
}

impl LoadedSet {
    /// A cell is in the model exactly when its key is in the table.
    proof fn lemma_view_contains(&self, cell: (u32, u32))
        ensures
            self@.contains(cell) <==> self.cells@.contains(cell_key(cell)),
    {
        lemma_cell_key_inverse(cell, 0);
        if self@.contains(cell) {
            let key = choose|key: u64| self.cells@.contains(key) && key_cell(key) == cell;
            lemma_cell_key_inverse(cell, key);
        }
    }

    /// An index with no resident cell.
    pub fn new() -> (set: LoadedSet)
        ensures
            set@ == Set::<(u32, u32)>::empty(),
    {
        let set = LoadedSet { cells: HashSet::new() };
        assert(set@ =~= Set::<(u32, u32)>::empty());
        set
    }

    fn key(cell: (u32, u32)) -> (key: u64)
        ensures
            key == cell_key(cell),
    {
        cell.0 as u64 * 0x1_0000_0000 + cell.1 as u64
    }

    /// Whether a cell is resident.
    pub fn contains(&self, cell: (u32, u32)) -> (found: bool)
        ensures
            found == self@.contains(cell),
    {
        let key: u64 = Self::key(cell);
        proof {
            self.lemma_view_contains(cell);
        }
        self.cells.contains(&key)
    }

    /// Marks a cell resident. Returns whether it was absent before.
    pub fn insert(&mut self, cell: (u32, u32)) -> (fresh: bool)
        ensures
            final(self)@ == old(self)@.insert(cell),
            fresh == !old(self)@.contains(cell),
    {
        let key: u64 = Self::key(cell);
        proof {
            self.lemma_view_contains(cell);
        }
        let fresh = self.cells.insert(key);
        proof {
            assert forall|c: (u32, u32)| self@.contains(c) <==> old(self)@.insert(cell).contains(
                c,
            ) by {
                self.lemma_view_contains(c);
                old(self).lemma_view_contains(c);
                lemma_cell_key_inverse(c, 0);
                lemma_cell_key_inverse(cell, 0);
            }
            assert(self@ =~= old(self)@.insert(cell));
        }
        fresh
    }

    /// Marks a cell no longer resident. Returns whether it was resident.
    pub fn remove(&mut self, cell: (u32, u32)) -> (was: bool)
        ensures
            final(self)@ == old(self)@.remove(cell),
            was == old(self)@.contains(cell),
    {
        let key: u64 = Self::key(cell);
        proof {
            self.lemma_view_contains(cell);
        }
        let was = self.cells.remove(&key);
        proof {
            assert forall|c: (u32, u32)| self@.contains(c) <==> old(self)@.remove(cell).contains(
                c,
            ) by {
                self.lemma_view_contains(c);
                old(self).lemma_view_contains(c);
                lemma_cell_key_inverse(c, 0);
                lemma_cell_key_inverse(cell, 0);
            }
            assert(self@ =~= old(self)@.remove(cell));
        }
        was
    }
}

} // verus!
