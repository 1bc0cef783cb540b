//! The durable record of a chunk: its place and, cell by cell, the id of the
//! tile that lies there.

use super::CHUNK_SIZE;
use vstd::prelude::*;

verus! {

/// What a stored cell says: the characters of a tile id, or nothing.
pub open spec fn cell_text(cell: Option<String>) -> Option<Seq<char>> {
    match cell {
        Some(id) => Some(id@),
        None => None,
    }
}

/// What a stored row says, cell by cell.
pub open spec fn row_text(row: Vec<Option<String>>) -> Seq<Option<Seq<char>>> {
    row@.map_values(|cell: Option<String>| cell_text(cell))
}

/// A chunk record as a value of the model.
pub struct ChunkDataView {
    pub position: (u32, u32),
    pub grid: Seq<Seq<Option<Seq<char>>>>,
}

/// The record of one chunk. `grid[i][j]` is the id of the tile in local cell
/// `(i, j)`, or nothing where the cell is background.
#[derive(Debug)]
pub struct ChunkData {
    pub position: (u32, u32),
    pub grid: Vec<Vec<Option<String>>>,
}

impl View for ChunkData {
    type V = ChunkDataView;

    open spec fn view(&self) -> ChunkDataView {
        ChunkDataView {
            position: self.position,
            grid: self.grid@.map_values(|row: Vec<Option<String>>| row_text(row)),
        }
    }
}

impl Clone for ChunkData {
    fn clone(&self) -> (copy: Self)
        ensures
            copy@ == self@,
    {
        let mut grid: Vec<Vec<Option<String>>> = Vec::new();
        let mut i: usize = 0;
        while i < self.grid.len()
            invariant
                i <= self.grid@.len(),
                grid@.len() == i,
                forall|a: int| 0 <= a < i ==> row_text(#[trigger] grid@[a]) == row_text(self.grid@[a]),
            decreases self.grid@.len() - i,
        {
            let stored = &self.grid[i];
            let mut row: Vec<Option<String>> = Vec::new();
            let mut j: usize = 0;
            while j < stored.len()
                invariant
                    j <= stored@.len(),
                    row@.len() == j,
                    forall|b: int| 0 <= b < j ==> cell_text(#[trigger] row@[b]) == cell_text(stored@[b]),
                decreases stored@.len() - j,
            {
                let cell: Option<String> = match &stored[j] {
                    Some(id) => Some(id.clone()),
                    None => None,
                };
                row.push(cell);
                j = j + 1;
            }
            assert(row_text(row) =~= row_text(*stored));
            grid.push(row);
            i = i + 1;
        }
        let copy = ChunkData { position: self.position, grid };
        assert(copy@.grid =~= self@.grid);
        copy
    }
}

impl ChunkDataView {
    /// The grid is a square of `CHUNK_SIZE` rows of `CHUNK_SIZE` cells.
    pub open spec fn wf(self) -> bool {
        &&& self.grid.len() == CHUNK_SIZE
        &&& forall|i: int| 0 <= i < self.grid.len() ==> (#[trigger] self.grid[i]).len() == CHUNK_SIZE
    }

    /// Every cell is background.
    pub open spec fn is_empty(self) -> bool {
        forall|i: int, j: int|
            0 <= i < self.grid.len() && 0 <= j < self.grid[i].len() ==> (
            #[trigger] self.grid[i][j]) is None
    }
}

impl ChunkData {
    /// The grid is a square of `CHUNK_SIZE` rows of `CHUNK_SIZE` cells.
    pub open spec fn wf(&self) -> bool {
        self@.wf()
    }

    /// The record of a chunk in which every cell is background.
    pub fn new(position: (u32, u32)) -> (data: ChunkData)
        ensures
            data.position == position,
            data.wf(),
            data@.is_empty(),
    {
        let mut grid: Vec<Vec<Option<String>>> = Vec::new();
        let mut i: u32 = 0;
        while i < CHUNK_SIZE
            invariant
                i <= CHUNK_SIZE,
                grid@.len() == i,
                forall|a: int| 0 <= a < i ==> (#[trigger] grid@[a])@.len() == CHUNK_SIZE,
                forall|a: int, b: int|
                    0 <= a < i && 0 <= b < CHUNK_SIZE ==> (#[trigger] grid@[a]@[b]) is None,
            decreases CHUNK_SIZE - i,
        {
            let mut row: Vec<Option<String>> = Vec::new();
            let mut j: u32 = 0;
            while j < CHUNK_SIZE
                invariant
                    j <= CHUNK_SIZE,
                    row@.len() == j,
                    forall|b: int| 0 <= b < j ==> (#[trigger] row@[b]) is None,
                decreases CHUNK_SIZE - j,
            {
                row.push(None);
                j = j + 1;
            }
            grid.push(row);
            i = i + 1;
        }
        let data = ChunkData { position, grid };
        proof {
            assert forall|a: int| 0 <= a < data@.grid.len() implies (#[trigger] data@.grid[a]).len()
                == CHUNK_SIZE by {
                assert(data@.grid[a] == row_text(data.grid@[a]));
            }
            assert forall|a: int, b: int|
                0 <= a < data@.grid.len() && 0 <= b < data@.grid[a].len() implies (
            #[trigger] data@.grid[a][b]) is None by {
                assert(data@.grid[a] == row_text(data.grid@[a]));
                assert(data.grid@[a]@[b] is None);
            }
        }
        data
    }

    /// Whether the grid has the shape of a chunk.
    pub fn is_square(&self) -> (square: bool)
        ensures
            square == self.wf(),
    {
        if self.grid.len() != CHUNK_SIZE as usize {
            return false;
        }
        let mut i: usize = 0;
        while i < self.grid.len()
            invariant
                i <= self.grid@.len(),
                self.grid@.len() == CHUNK_SIZE,
                forall|a: int| 0 <= a < i ==> (#[trigger] self.grid@[a])@.len() == CHUNK_SIZE,
            decreases self.grid@.len() - i,
        {
            if self.grid[i].len() != CHUNK_SIZE as usize {
                proof {
                    assert(self@.grid[i as int] == row_text(self.grid@[i as int]));
                    assert(self@.grid[i as int].len() != CHUNK_SIZE);
                }
                return false;
            }
            i = i + 1;
        }
        proof {
            assert forall|a: int| 0 <= a < self@.grid.len() implies (#[trigger] self@.grid[a]).len()
                == CHUNK_SIZE by {
                assert(self@.grid[a] == row_text(self.grid@[a]));
            }
        }
        true
    }
}

} // verus!
