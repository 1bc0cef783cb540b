//! The streaming scheduler and the constants of the world's geometry.

pub mod chunk;
pub mod chunk_data;
pub mod generate;
pub mod loaded;
pub mod residency;
pub mod store;
pub mod window;

pub use chunk::{Chunk, Tile, ASTEROID_1, ASTEROID_2, METAL, SPACE};
pub use chunk_data::ChunkData;

use crate::state::State;
use chunk_data::ChunkDataView;
use generate::{gen_cell, possible_cell, registry_wf};
use loaded::LoadedSet;
use residency::{chunk_fits, far_cells, is_selection, occupied, spec_spawns, Spawn};
use store::{load_generates, load_result, read, LoadError, Resolution, StoreModel, Stored};
use vstd::prelude::*;
use window::{chunk_of, out_of_range, Position, Viewport, Window};

verus! {

/// Least time between two scheduler runs, in nanoseconds.
pub const UPDATE_TIME: u64 = 25_000_000;

/// Side of the world, in cells.
pub const MAX_MAP_SIZE: u32 = 10000;

/// Side of a tile, in pixels.
pub const TILE_SIZE: u32 = 32;

/// Side of a chunk, in cells.
pub const CHUNK_SIZE: u32 = 16;

/// How many viewport extents the resident window reaches.
pub const CHUNK_DIST: u32 = 2;

/// Greatest chunk coordinate of the world.
pub const MAX_CHUNK: u32 = MAX_MAP_SIZE / CHUNK_SIZE;

/// Least chunk coordinate that is ever streamed.
pub const MIN_CHUNK: u32 = 2;

/// Chunks loaded per frame.
pub const FRAME_LOAD_AMOUNT: usize = 1;

/// Root directory of the saved world.
pub const SAVE_DIR: &'static str = "save";

/// The noise field is sampled at a cell's absolute coordinates divided by
/// this number.
pub const NOISE_DIVISOR: u32 = 25;

/// A noise field has the shape of a chunk: one value for each cell.
pub open spec fn noise_fits(noise: Seq<Vec<i64>>) -> bool {
    &&& noise.len() == CHUNK_SIZE
    &&& forall|i: int| 0 <= i < noise.len() ==> (#[trigger] noise[i])@.len() == CHUNK_SIZE
}

/// A record is what generation may produce for a chunk from a noise field:
/// it lies at the chunk's place, has the shape of a chunk, and every cell
/// holds what generation may put there for the cell's noise value.
pub open spec fn generated_from(
    data: ChunkDataView,
    tiles: Seq<Tile>,
    pos: (u32, u32),
    noise: Seq<Vec<i64>>,
) -> bool {
    &&& data.position == pos
    &&& data.wf()
    &&& forall|i: int, j: int|
        0 <= i < CHUNK_SIZE && 0 <= j < CHUNK_SIZE ==> possible_cell(
            tiles,
            noise[i]@[j],
            #[trigger] data.grid[i][j],
        )
}

/// Every tile of a generated record fits the noise: a cell that holds an id
/// holds the id of a registered tile in whose band the cell's noise value
/// lies, and a tile whose band does not hold the value is never there.
pub proof fn lemma_generated_cell_fits_noise(
    data: ChunkDataView,
    tiles: Seq<Tile>,
    pos: (u32, u32),
    noise: Seq<Vec<i64>>,
    i: int,
    j: int,
    t: int,
)
    requires
        tiles.len() <= usize::MAX,
        registry_wf(tiles),
        generated_from(data, tiles, pos, noise),
        0 <= i < CHUNK_SIZE,
        0 <= j < CHUNK_SIZE,
        0 <= t < tiles.len(),
    ensures
        data.grid[i][j] is Some ==> exists|k: int|
            0 <= k < tiles.len() && (#[trigger] tiles[k]).id@ == data.grid[i][j]->0
                && tiles[k].in_band(noise[i]@[j]),
        !tiles[t].in_band(noise[i]@[j]) ==> data.grid[i][j] != Some(tiles[t].id@),
{
    let cell = data.grid[i][j];
    assert(possible_cell(tiles, noise[i]@[j], cell));
    if cell is Some {
        generate::lemma_cell_matches_band(tiles, noise[i]@[j], cell);
    }
    if !tiles[t].in_band(noise[i]@[j]) {
        generate::lemma_out_of_band_never_selected(tiles, noise[i]@[j], cell, t);
    }
}

/// The standard registry: both kinds of asteroid, then metal.
pub open spec fn standard_registry(tiles: Seq<Tile>) -> bool {
    &&& tiles.len() == 3
    &&& tiles[0].is_kind(ASTEROID_1@, chunk::NOISE_ONE / 4, 1, 1)
    &&& tiles[1].is_kind(ASTEROID_2@, chunk::NOISE_ONE / 4, 1, 1)
    &&& tiles[2].is_kind(METAL@, chunk::NOISE_ONE * 2 / 3, 2, 3)
}

/// The standard registry is usable.
pub proof fn lemma_standard_registry_wf(tiles: Seq<Tile>)
    requires
        standard_registry(tiles),
    ensures
        registry_wf(tiles),
{
    chunk::lemma_kinds_differ();
}

/// Whether a noise field has the shape of a chunk.
pub fn check_noise(noise: &Vec<Vec<i64>>) -> (fits: bool)
    ensures
        fits == noise_fits(noise@),
{
    if noise.len() != CHUNK_SIZE as usize {
        return false;
    }
    let mut i: usize = 0;
    while i < noise.len()
        invariant
            i <= noise@.len(),
            noise@.len() == CHUNK_SIZE,
            forall|a: int| 0 <= a < i ==> (#[trigger] noise@[a])@.len() == CHUNK_SIZE,
        decreases noise@.len() - i,
    {
        if noise[i].len() != CHUNK_SIZE as usize {
            return false;
        }
        i = i + 1;
    }
    true
}

/// The streaming engine: the tile registry, the generation state, the set of
/// resident cells, and the time of the last scheduler run.
pub struct ChunkManager {
    pub state: State,
    pub tiles: Vec<Tile>,
    pub last_update_time: u64,
    pub loaded: LoadedSet,
}

impl ChunkManager {
    /// The registry is usable.
    pub open spec fn wf(&self) -> bool {
        registry_wf(self.tiles@)
    }

    /// An engine with the standard registry and no resident cell, whose
    /// last scheduler run counts as having happened at `now`.
    pub fn new(state: State, now: u64) -> (manager: ChunkManager)
        ensures
            manager.wf(),
            manager.state == state,
            manager.last_update_time == now,
            manager.loaded@ == Set::<(u32, u32)>::empty(),
            standard_registry(manager.tiles@),
    {
        let tiles = Self::chunk_texture_map();
        proof {
            lemma_standard_registry_wf(tiles@);
        }
        ChunkManager { state, tiles, last_update_time: now, loaded: LoadedSet::new() }
    }

    /// The standard registry: both asteroids, then metal.
    pub fn chunk_texture_map() -> (tiles: Vec<Tile>)
        ensures
            standard_registry(tiles@),
    {
        let mut tiles: Vec<Tile> = Vec::new();
        tiles.push(Tile::asteroid_1());
        tiles.push(Tile::asteroid_2());
        tiles.push(Tile::metal());
        tiles
    }

    /// The chunk in which a position lies: each coordinate in chunks,
    /// rounded up, never below nought.
    pub fn chunk_pos(pos: Position) -> (chunk: (u32, u32))
        ensures
            chunk.0 == chunk_of(pos.x as int),
            chunk.1 == chunk_of(pos.y as int),
    {
        (window::chunk_index(pos.x), window::chunk_index(pos.y))
    }

    /// The key under which a chunk's record is kept.
    pub fn chunk_file(chunk: (u32, u32)) -> (name: String)
        ensures
            name@ == store::spec_chunk_file(chunk),
    {
        store::chunk_file(chunk)
    }

    /// Generates the record of a chunk from the noise values of its cells.
    /// `noise[i][j]` is the noise value of local cell `(i, j)`. Every cell is
    /// either background or holds the id of one registered tile in whose
    /// band the cell's noise value lies. A noise field of the wrong shape is
    /// refused, and the generation state is then untouched.
    pub fn gen_chunk(&mut self, pos: (u32, u32), noise: &Vec<Vec<i64>>) -> (result: Result<
        ChunkData,
        LoadError,
    >)
        requires
            old(self).wf(),
        ensures
            final(self).tiles == old(self).tiles,
            final(self).loaded == old(self).loaded,
            final(self).last_update_time == old(self).last_update_time,
            final(self).state.seed == old(self).state.seed,
            noise_fits(noise@) ==> result is Ok && generated_from(
                result->Ok_0@,
                old(self).tiles@,
                pos,
                noise@,
            ),
            !noise_fits(noise@) ==> result == Err::<ChunkData, LoadError>(
                LoadError::GenerationInconsistency,
            ) && *final(self) == *old(self),
    {
        if !check_noise(noise) {
            return Err(LoadError::GenerationInconsistency);
        }
        let mut grid: Vec<Vec<Option<String>>> = Vec::new();
        let mut i: usize = 0;
        while i < CHUNK_SIZE as usize
            invariant
                i <= CHUNK_SIZE,
                noise_fits(noise@),
                self.wf(),
                self.tiles == old(self).tiles,
                self.loaded == old(self).loaded,
                self.last_update_time == old(self).last_update_time,
                self.state.seed == old(self).state.seed,
                grid@.len() == i,
                forall|a: int| 0 <= a < i ==> (#[trigger] grid@[a])@.len() == CHUNK_SIZE,
                forall|a: int, b: int|
                    0 <= a < i && 0 <= b < CHUNK_SIZE ==> possible_cell(
                        self.tiles@,
                        noise@[a]@[b],
                        chunk_data::cell_text(#[trigger] grid@[a]@[b]),
                    ),
            decreases CHUNK_SIZE - i,
        {
            let mut row: Vec<Option<String>> = Vec::new();
            let mut j: usize = 0;
            while j < CHUNK_SIZE as usize
                invariant
                    i < CHUNK_SIZE,
                    j <= CHUNK_SIZE,
                    noise_fits(noise@),
                    self.wf(),
                    self.tiles == old(self).tiles,
                    self.loaded == old(self).loaded,
                    self.last_update_time == old(self).last_update_time,
                    self.state.seed == old(self).state.seed,
                    row@.len() == j,
                    forall|b: int|
                        0 <= b < j ==> possible_cell(
                            self.tiles@,
                            noise@[i as int]@[b],
                            chunk_data::cell_text(#[trigger] row@[b]),
                        ),
                decreases CHUNK_SIZE - j,
            {
                let value: i64 = noise[i][j];
                let cell = gen_cell(&self.tiles, &mut self.state.rng, value);
                row.push(cell);
                j = j + 1;
            }
            grid.push(row);
            i = i + 1;
        }
        let data = ChunkData { position: pos, grid };
        proof {
            assert forall|a: int| 0 <= a < data@.grid.len() implies (#[trigger] data@.grid[a]).len()
                == CHUNK_SIZE by {
                assert(data@.grid[a] == chunk_data::row_text(data.grid@[a]));
            }
            assert forall|a: int, b: int|
                0 <= a < CHUNK_SIZE && 0 <= b < CHUNK_SIZE implies possible_cell(
                self.tiles@,
                noise@[a]@[b],
                #[trigger] data@.grid[a][b],
            ) by {
                assert(data@.grid[a] == chunk_data::row_text(data.grid@[a]));
                assert(data@.grid[a][b] == chunk_data::cell_text(data.grid@[a]@[b]));
            }
        }
        Ok(data)
    }

    /// Settles on the record of a chunk, given what the store holds under
    /// its key. A record that exists is answered as it is, and the
    /// generator is not run; a record that exists but cannot be used is an
    /// error, never a reason to generate. Only where none exists is one
    /// generated, and it is then marked as still to be written. Against
    /// every store that holds `stored` under the chunk's key, the answer is
    /// that of `load_result`.
    pub fn load_or_generate(
        &mut self,
        chunk: (u32, u32),
        stored: Stored,
        noise: &Vec<Vec<i64>>,
    ) -> (result: Result<Resolution, LoadError>)
        requires
            old(self).wf(),
        ensures
            final(self).tiles == old(self).tiles,
            final(self).loaded == old(self).loaded,
            final(self).last_update_time == old(self).last_update_time,
            final(self).state.seed == old(self).state.seed,
            stored !is Absent ==> *final(self) == *old(self),
            match stored {
                Stored::Present(data) => if data.wf() {
                    result == Ok::<Resolution, LoadError>(Resolution::Existing(data))
                } else {
                    result == Err::<Resolution, LoadError>(LoadError::StorageRead)
                },
                Stored::Corrupt => result == Err::<Resolution, LoadError>(LoadError::StorageRead),
                Stored::Absent => if noise_fits(noise@) {
                    &&& result matches Ok(Resolution::Generated(data))
                    &&& generated_from(data@, old(self).tiles@, chunk, noise@)
                } else {
                    &&& result == Err::<Resolution, LoadError>(LoadError::GenerationInconsistency)
                    &&& *final(self) == *old(self)
                },
            },
            forall|held: StoreModel| #[trigger]
                read(held, chunk) == stored@ ==> match result {
                    Ok(resolution) => {
                        &&& resolution.spec_must_write() == load_generates(held, chunk)
                        &&& load_result(held, chunk, resolution.spec_record()@) == Ok::<
                            ChunkDataView,
                            LoadError,
                        >(resolution.spec_record()@)
                    },
                    Err(error) => load_generates(held, chunk) || forall|any: ChunkDataView|
                        #[trigger] load_result(held, chunk, any) == Err::<ChunkDataView, LoadError>(
                            error,
                        ),
                },
    {
        match stored {
            Stored::Present(data) => {
                if data.is_square() {
                    Ok(Resolution::Existing(data))
                } else {
                    Err(LoadError::StorageRead)
                }
            },
            Stored::Corrupt => Err(LoadError::StorageRead),
            Stored::Absent => match self.gen_chunk(chunk, noise) {
                Ok(data) => Ok(Resolution::Generated(data)),
                Err(error) => Err(error),
            },
        }
    }

    /// Materialises the record that a load settled on. `written` says
    /// whether the write of a generated record succeeded; it does not count
    /// for a record that was in the store. A generated record whose write
    /// failed is not materialised, and a record that does not have the shape
    /// of a chunk is refused; the set of resident cells is then untouched.
    /// Otherwise every cell that holds a known tile becomes resident, and
    /// the answer lists, in the order of the cells, one entity to make for
    /// each such cell that was not resident before.
    pub fn load_chunk(&mut self, chunk: (u32, u32), resolution: Resolution, written: bool) -> (result:
        Result<Vec<Spawn>, LoadError>)
        requires
            chunk_fits(chunk),
        ensures
            final(self).tiles == old(self).tiles,
            final(self).state == old(self).state,
            final(self).last_update_time == old(self).last_update_time,
            resolution.spec_must_write() && !written ==> result == Err::<Vec<Spawn>, LoadError>(
                LoadError::StorageWrite,
            ),
            !(resolution.spec_must_write() && !written) && !resolution.spec_record().wf() ==> result
                == Err::<Vec<Spawn>, LoadError>(LoadError::StorageRead),
            result is Err ==> final(self).loaded == old(self).loaded,
            !(resolution.spec_must_write() && !written) && resolution.spec_record().wf() ==> {
                &&& result matches Ok(spawns)
                &&& exists|live: chunk::Chunk|
                    {
                        &&& #[trigger] live.loaded_from(
                            resolution.spec_record(),
                            old(self).tiles@,
                        )
                        &&& live.wf()
                        &&& spawns@.map_values(|s: Spawn| s@) == spec_spawns(
                            live,
                            chunk,
                            old(self).loaded@,
                        )
                        &&& final(self).loaded@ == old(self).loaded@.union(occupied(live, chunk))
                    }
            },
    {
        if resolution.must_write() && !written {
            return Err(LoadError::StorageWrite);
        }
        let record = resolution.into_record();
        if !record.is_square() {
            return Err(LoadError::StorageRead);
        }
        let live = chunk::Chunk::load(record, &self.tiles);
        let spawns = residency::materialize(&live, chunk, &mut self.loaded);
        proof {
            assert(live.loaded_from(record, old(self).tiles@) && live.wf());
        }
        Ok(spawns)
    }

    /// The scheduler's gate and window. Nothing happens before
    /// `UPDATE_TIME` has passed since the last run. Otherwise the run is
    /// recorded and the answer is the window of chunks that should be
    /// resident around the observer; its chunks are to be loaded before
    /// `evict` is called.
    pub fn update(&mut self, now: u64, observer: Position, viewport: Viewport) -> (due: Option<
        Window,
    >)
        ensures
            final(self).tiles == old(self).tiles,
            final(self).state == old(self).state,
            final(self).loaded == old(self).loaded,
            now - old(self).last_update_time < UPDATE_TIME ==> due is None && *final(self) == *old(
                self,
            ),
            now - old(self).last_update_time >= UPDATE_TIME ==> {
                &&& due == Some(Window::around(observer, viewport))
                &&& due->0.wf()
                &&& final(self).last_update_time == now
            },
    {
        if now.saturating_sub(self.last_update_time) >= UPDATE_TIME {
            self.last_update_time = now;
            Some(Window::new(observer, viewport))
        } else {
            None
        }
    }

    /// The eviction pass. `residents` lists the cells of the live entities.
    /// The answer lists, in rising order, the places in `residents` of the
    /// entities to remove: those whose cell is out of range of the
    /// observer. Their cells are no longer resident; all others stay.
    pub fn evict(
        &mut self,
        observer: Position,
        viewport: Viewport,
        residents: &Vec<(u32, u32)>,
    ) -> (gone: Vec<usize>)
        ensures
            final(self).tiles == old(self).tiles,
            final(self).state == old(self).state,
            final(self).last_update_time == old(self).last_update_time,
            is_selection(gone@, residents@, observer, viewport),
            gone@.len() <= residents@.len(),
            final(self).loaded@ == old(self).loaded@.difference(
                far_cells(residents@, observer, viewport),
            ),
            forall|k: int|
                0 <= k < residents@.len() && out_of_range(observer, viewport, #[trigger] residents@[k])
                    ==> !final(self).loaded@.contains(residents@[k]),
    {
        residency::evict(&mut self.loaded, observer, viewport, residents)
    }
}

} // verus!
