//! The tile catalogue: the kinds of tile, the noise band in which each may
//! appear, and how rare it is.

use super::chunk_data::{cell_text, row_text, ChunkData};
use super::CHUNK_SIZE;
use crate::state::trial;
use rand::rngs::StdRng;
use vstd::prelude::*;
use vstd::string::StringExecFns;

verus! {

pub const ASTEROID_1: &'static str = "asteroid_1";

pub const ASTEROID_2: &'static str = "asteroid_2";

pub const SPACE: &'static str = "space";

pub const METAL: &'static str = "metal";

/// Noise values are fixed-point: this many units make the value one.
pub const NOISE_ONE: i64 = 1_200_000;

/// Whether two texts hold the same characters.
pub fn same_text(a: &str, b: &str) -> (same: bool)
    ensures
        same == (a@ == b@),
{
    a.to_owned() == b.to_owned()
}

/// A probability, as a fraction of two whole numbers.
#[derive(Debug)]
pub struct Ratio {
    pub numerator: u32,
    pub denominator: u32,
}

impl Ratio {
    /// The fraction is a probability: between nought and one.
    pub open spec fn wf(&self) -> bool {
        0 < self.denominator && self.numerator <= self.denominator
    }

    /// A trial with this probability always succeeds.
    pub open spec fn certain(&self) -> bool {
        self.numerator == self.denominator
    }

    /// A trial with this probability never succeeds.
    pub open spec fn impossible(&self) -> bool {
        self.numerator == 0
    }
}

impl Clone for Ratio {
    fn clone(&self) -> (copy: Self)
        ensures
            copy == *self,
    {
        Ratio { numerator: self.numerator, denominator: self.denominator }
    }
}

/// One kind of tile. A cell may take it when the noise value there lies in
/// `min ..= max` and a trial of probability `rand` succeeds.
#[derive(Debug)]
pub struct Tile {
    pub max: i64,
    pub min: i64,
    pub rand: Ratio,
    pub id: String,
}

impl Clone for Tile {
    fn clone(&self) -> (copy: Self)
        ensures
            copy == *self,
    {
        Tile { max: self.max, min: self.min, rand: self.rand.clone(), id: self.id.clone() }
    }
}

impl Tile {
    /// The tile has this id, is taken from `min` up to the top of the noise
    /// range, and its trial succeeds `numerator` times in `denominator`.
    pub open spec fn is_kind(&self, id: Seq<char>, min: int, numerator: int, denominator: int) -> bool {
        &&& self.id@ == id
        &&& self.min == min
        &&& self.max == NOISE_ONE
        &&& self.rand.numerator == numerator
        &&& self.rand.denominator == denominator
    }

    /// The tile's rarity is a probability.
    pub open spec fn wf(&self) -> bool {
        self.rand.wf()
    }

    /// The noise value lies in the tile's band, both ends included.
    pub open spec fn in_band(&self, value: i64) -> bool {
        self.min <= value <= self.max
    }

    /// The tile is taken: its trial succeeded and the value is in its band.
    pub open spec fn accepts(&self, hit: bool, value: i64) -> bool {
        hit && self.in_band(value)
    }

    /// What `check` answers once the outcome of the trial is known: the
    /// tile's id exactly when the trial succeeded and the value is in the
    /// band.
    pub fn decide(&self, hit: bool, value: i64) -> (id: Option<&String>)
        ensures
            id is Some <==> self.accepts(hit, value),
            id matches Some(name) ==> *name == self.id,
    {
        if hit && self.max >= value && self.min <= value {
            Some(&self.id)
        } else {
            None
        }
    }

    /// Runs the tile's trial on `rng` and answers with the tile's id if the
    /// trial succeeds and `value` is in the band. The trial is drawn
    /// whatever the value. A value outside the band is never accepted; one
    /// inside is always accepted by a tile whose trial is certain.
    pub fn check(&self, rng: &mut StdRng, value: i64) -> (id: Option<&String>)
        requires
            self.wf(),
        ensures
            id matches Some(name) ==> *name == self.id && self.in_band(value),
            !self.in_band(value) ==> id is None,
            self.rand.impossible() ==> id is None,
            self.rand.certain() && self.in_band(value) ==> id is Some,
    {
        let hit = trial(rng, self.rand.numerator, self.rand.denominator);
        self.decide(hit, value)
    }

    /// The first kind of asteroid: certain, from a quarter of the noise range
    /// upward.
    pub fn asteroid_1() -> (tile: Tile)
        ensures
            tile.is_kind(ASTEROID_1@, NOISE_ONE / 4, 1, 1),
    {
        Tile {
            max: NOISE_ONE,
            min: NOISE_ONE / 4,
            rand: Ratio { numerator: 1, denominator: 1 },
            id: String::from_str(ASTEROID_1),
        }
    }

    /// The second kind of asteroid, with the band and rarity of the first.
    pub fn asteroid_2() -> (tile: Tile)
        ensures
            tile.is_kind(ASTEROID_2@, NOISE_ONE / 4, 1, 1),
    {
        Tile {
            max: NOISE_ONE,
            min: NOISE_ONE / 4,
            rand: Ratio { numerator: 1, denominator: 1 },
            id: String::from_str(ASTEROID_2),
        }
    }

    /// Metal: two trials in three, from two thirds of the noise range upward.
    pub fn metal() -> (tile: Tile)
        ensures
            tile.is_kind(METAL@, NOISE_ONE * 2 / 3, 2, 3),
    {
        Tile {
            max: NOISE_ONE,
            min: NOISE_ONE * 2 / 3,
            rand: Ratio { numerator: 2, denominator: 3 },
            id: String::from_str(METAL),
        }
    }

    /// The path of the picture that shows a tile kind, or nothing for an id
    /// that names no kind.
    pub fn file_map(id: &str) -> (path: Option<String>)
        ensures
            id@ == ASTEROID_1@ ==> path is Some && path->0@ == "art/asteroid.png"@,
            id@ == ASTEROID_2@ ==> path is Some && path->0@ == "art/asteroid2.png"@,
            id@ == METAL@ ==> path is Some && path->0@ == "art/metal.png"@,
            id@ == SPACE@ ==> path is Some && path->0@ == "art/space.png"@,
            path is Some ==> id@ == ASTEROID_1@ || id@ == ASTEROID_2@ || id@ == METAL@ || id@
                == SPACE@,
    {
        proof {
            lemma_kinds_differ();
        }
        if same_text(id, ASTEROID_1) {
            Some(String::from_str("art/asteroid.png"))
        } else if same_text(id, ASTEROID_2) {
            Some(String::from_str("art/asteroid2.png"))
        } else if same_text(id, METAL) {
            Some(String::from_str("art/metal.png"))
        } else if same_text(id, SPACE) {
            Some(String::from_str("art/space.png"))
        } else {
            None
        }
    }
}

/// `k` is the first place of the registry whose tile has this id.
pub open spec fn first_match(tiles: Seq<Tile>, id: Seq<char>, k: int) -> bool {
    &&& 0 <= k < tiles.len()
    &&& tiles[k].id@ == id
    &&& forall|j: int| 0 <= j < k ==> (#[trigger] tiles[j]).id@ != id
}

/// No tile of the registry has this id.
pub open spec fn unknown(tiles: Seq<Tile>, id: Seq<char>) -> bool {
    forall|j: int| 0 <= j < tiles.len() ==> (#[trigger] tiles[j]).id@ != id
}

/// What a stored cell becomes in memory: background stays background, a
/// known id becomes the first tile of the registry with that id, and an id
/// that the registry does not know becomes background.
pub open spec fn resolves(tiles: Seq<Tile>, stored: Option<Seq<char>>, live: Option<Tile>) -> bool {
    match stored {
        None => live is None,
        Some(id) => match live {
            Some(tile) => is_first_tile(tiles, id, tile),
            None => unknown(tiles, id),
        },
    }
}

/// `tile` is the first tile of the registry with this id.
pub open spec fn is_first_tile(tiles: Seq<Tile>, id: Seq<char>, tile: Tile) -> bool {
    exists|k: int| #[trigger] first_match(tiles, id, k) && tile == tiles[k]
}

/// The first place of the registry whose tile has the id, if there is one.
pub fn find_tile(tiles: &Vec<Tile>, id: &str) -> (found: Option<usize>)
    ensures
        match found {
            Some(k) => first_match(tiles@, id@, k as int),
            None => unknown(tiles@, id@),
        },
{
    let mut k: usize = 0;
    while k < tiles.len()
        invariant
            k <= tiles@.len(),
            forall|j: int| 0 <= j < k ==> (#[trigger] tiles@[j]).id@ != id@,
        decreases tiles@.len() - k,
    {
        if same_text(tiles[k].id.as_str(), id) {
            return Some(k);
        }
        k = k + 1;
    }
    None
}

/// A chunk in memory: its place and, cell by cell, the tile that lies there.
#[derive(Debug)]
pub struct Chunk {
    pub position: (u32, u32),
    pub grid: Vec<Vec<Option<Tile>>>,
}

impl Chunk {
    /// A chunk from its parts.
    pub fn new(position: (u32, u32), grid: Vec<Vec<Option<Tile>>>) -> (chunk: Chunk)
        ensures
            chunk.position == position,
            chunk.grid == grid,
    {
        Chunk { position, grid }
    }

    /// The grid is a square of `CHUNK_SIZE` rows of `CHUNK_SIZE` cells.
    pub open spec fn wf(&self) -> bool {
        &&& self.grid@.len() == CHUNK_SIZE
        &&& forall|i: int|
            0 <= i < self.grid@.len() ==> (#[trigger] self.grid@[i])@.len() == CHUNK_SIZE
    }

    /// The chunk holds, cell by cell, what the record's cell resolves to.
    pub open spec fn loaded_from(&self, data: ChunkData, tiles: Seq<Tile>) -> bool {
        &&& self.position == data.position
        &&& self.grid@.len() == data.grid@.len()
        &&& forall|i: int|
            0 <= i < self.grid@.len() ==> (#[trigger] self.grid@[i])@.len() == data.grid@[i]@.len()
        &&& forall|i: int, j: int|
            0 <= i < self.grid@.len() && 0 <= j < self.grid@[i]@.len() ==> resolves(
                tiles,
                cell_text(data.grid@[i]@[j]),
                #[trigger] self.grid@[i]@[j],
            )
    }

    /// What one stored cell becomes in memory.
    fn resolve(stored: &Option<String>, tiles: &Vec<Tile>) -> (live: Option<Tile>)
        ensures
            resolves(tiles@, cell_text(*stored), live),
    {
        match stored {
            Some(id) => match find_tile(tiles, id.as_str()) {
                Some(k) => {
                    let tile = tiles[k].clone();
                    assert(first_match(tiles@, id@, k as int) && tile == tiles@[k as int]);
                    assert(is_first_tile(tiles@, id@, tile));
                    Some(tile)
                },
                None => None,
            },
            None => None,
        }
    }

    /// Brings a record into memory: every stored id is looked up in the
    /// registry. An id that the registry does not know is no error: its cell
    /// becomes background.
    pub fn load(chunk_data: ChunkData, tiles: &Vec<Tile>) -> (chunk: Chunk)
        ensures
            chunk.loaded_from(chunk_data, tiles@),
            chunk_data.wf() ==> chunk.wf(),
    {
        let mut grid: Vec<Vec<Option<Tile>>> = Vec::new();
        let mut i: usize = 0;
        while i < chunk_data.grid.len()
            invariant
                i <= chunk_data.grid@.len(),
                grid@.len() == i,
                forall|a: int| 0 <= a < i ==> (#[trigger] grid@[a])@.len() == chunk_data.grid@[a]@.len(),
                forall|a: int, b: int|
                    0 <= a < i && 0 <= b < grid@[a]@.len() ==> resolves(
                        tiles@,
                        cell_text(chunk_data.grid@[a]@[b]),
                        #[trigger] grid@[a]@[b],
                    ),
            decreases chunk_data.grid@.len() - i,
        {
            let stored = &chunk_data.grid[i];
            let mut row: Vec<Option<Tile>> = Vec::new();
            let mut j: usize = 0;
            while j < stored.len()
                invariant
                    j <= stored@.len(),
                    row@.len() == j,
                    forall|b: int|
                        0 <= b < j ==> resolves(
                            tiles@,
                            cell_text(stored@[b]),
                            #[trigger] row@[b],
                        ),
                decreases stored@.len() - j,
            {
                let live: Option<Tile> = Self::resolve(&stored[j], tiles);
                row.push(live);
                j = j + 1;
            }
            grid.push(row);
            i = i + 1;
        }
        let chunk = Chunk { position: chunk_data.position, grid };
        proof {
            if chunk_data.wf() {
                assert forall|a: int| 0 <= a < chunk.grid@.len() implies (
                #[trigger] chunk.grid@[a])@.len() == CHUNK_SIZE by {
                    assert(chunk_data@.grid[a] == row_text(chunk_data.grid@[a]));
                }
            }
        }
        chunk
    }
}

/// The four ids name four different kinds.
pub proof fn lemma_kinds_differ()
    ensures
        ASTEROID_1@ != ASTEROID_2@,
        ASTEROID_1@ != METAL@,
        ASTEROID_1@ != SPACE@,
        ASTEROID_2@ != METAL@,
        ASTEROID_2@ != SPACE@,
        METAL@ != SPACE@,
{
    reveal_strlit("asteroid_1");
    reveal_strlit("asteroid_2");
    reveal_strlit("metal");
    reveal_strlit("space");
    assert(ASTEROID_1@.len() == 10);
    assert(ASTEROID_2@.len() == 10);
    assert(METAL@.len() == 5);
    assert(SPACE@.len() == 5);
    assert(ASTEROID_1@[9] == '1');
    assert(ASTEROID_2@[9] == '2');
    assert(METAL@[0] == 'm');
    assert(SPACE@[0] == 's');
}

} // verus!
