//! Materialising a chunk's cells as live entities, and evicting the cells
//! that have fallen out of range. The entities themselves live in a world
//! store outside this library: what is decided here is which of them are
//! made and which are removed, and the set of resident cells follows.

use super::chunk::{same_text, Chunk, Tile, METAL};
use super::loaded::LoadedSet;
use super::window::{is_out_of_range, out_of_range, Position, Viewport};
use super::CHUNK_SIZE;
use vstd::prelude::*;

verus! {

/// Greatest chunk coordinate whose cells a `u32` can still number.
pub const CHUNK_LIMIT: u32 = 0x0FFF_FFFF;

/// Number of cells in a chunk.
pub const CHUNK_CELLS: u32 = 256;

/// An entity to make: the cell it stands for, the id of its tile, and
/// whether the tile is solid, so that the entity takes part in collisions.
#[derive(Debug)]
pub struct Spawn {
    pub cell: (u32, u32),
    pub tile: String,
    pub solid: bool,
}

/// A spawn as a value of the model.
pub struct SpawnView {
    pub cell: (u32, u32),
    pub tile: Seq<char>,
    pub solid: bool,
}

impl View for Spawn {
    type V = SpawnView;

    open spec fn view(&self) -> SpawnView {
        SpawnView { cell: self.cell, tile: self.tile@, solid: self.solid }
    }
}

/// Both coordinates of the chunk are small enough for its cells to be
/// numbered.
pub open spec fn chunk_fits(chunk: (u32, u32)) -> bool {
    chunk.0 <= CHUNK_LIMIT && chunk.1 <= CHUNK_LIMIT
}

/// The absolute coordinate of local cell `(i, j)` of a chunk.
pub open spec fn cell_at(chunk: (u32, u32), i: int, j: int) -> (u32, u32) {
    ((chunk.0 * CHUNK_SIZE + i) as u32, (chunk.1 * CHUNK_SIZE + j) as u32)
}

/// The absolute coordinate of the `n`-th cell of a chunk, counted row by row.
pub open spec fn cell_of(chunk: (u32, u32), n: int) -> (u32, u32) {
    cell_at(chunk, n / CHUNK_SIZE as int, n % CHUNK_SIZE as int)
}

/// The tile in the `n`-th cell of a chunk, counted row by row.
pub open spec fn tile_of(chunk: Chunk, n: int) -> Option<Tile> {
    chunk.grid@[n / CHUNK_SIZE as int]@[n % CHUNK_SIZE as int]
}

/// The entity that stands for a tile in the `n`-th cell of a chunk. Metal is
/// the one solid kind.
pub open spec fn spawn_of(origin: (u32, u32), n: int, tile: Tile) -> SpawnView {
    SpawnView { cell: cell_of(origin, n), tile: tile.id@, solid: tile.id@ == METAL@ }
}

/// The entities to make for the first `n` cells of a chunk: one for each
/// cell that holds a tile and was not resident, in the order of the cells.
pub open spec fn spawns_upto(chunk: Chunk, origin: (u32, u32), loaded: Set<(u32, u32)>, n: nat) -> Seq<
    SpawnView,
>
    decreases n,
{
    if n == 0 {
        Seq::empty()
    } else {
        let before = spawns_upto(chunk, origin, loaded, (n - 1) as nat);
        match tile_of(chunk, n - 1) {
            Some(tile) => if loaded.contains(cell_of(origin, n - 1)) {
                before
            } else {
                before.push(spawn_of(origin, n - 1, tile))
            },
            None => before,
        }
    }
}

/// The cells among the first `n` of a chunk that hold a tile.
pub open spec fn occupied_upto(chunk: Chunk, origin: (u32, u32), n: nat) -> Set<(u32, u32)> {
    Set::new(
        |cell: (u32, u32)|
            exists|m: int|
                0 <= m < n && (#[trigger] tile_of(chunk, m)) is Some && cell == cell_of(origin, m),
    )
}

/// The entities to make for a whole chunk.
pub open spec fn spec_spawns(chunk: Chunk, origin: (u32, u32), loaded: Set<(u32, u32)>) -> Seq<
    SpawnView,
> {
    spawns_upto(chunk, origin, loaded, CHUNK_CELLS as nat)
}

/// The cells of a whole chunk that hold a tile.
pub open spec fn occupied(chunk: Chunk, origin: (u32, u32)) -> Set<(u32, u32)> {
    occupied_upto(chunk, origin, CHUNK_CELLS as nat)
}

/// The cells that a sequence of spawns stands for.
pub open spec fn spawn_cells(spawns: Seq<SpawnView>) -> Seq<(u32, u32)> {
    spawns.map_values(|s: SpawnView| s.cell)
}

/// Two different cells of one chunk have different coordinates.
pub proof fn lemma_cells_differ(origin: (u32, u32), m: int, n: int)
    requires
        chunk_fits(origin),
        0 <= m < CHUNK_CELLS,
        0 <= n < CHUNK_CELLS,
        m != n,
    ensures
        cell_of(origin, m) != cell_of(origin, n),
{
}

/// A cell of a chunk lies in that chunk: its coordinates, in chunks and
/// rounded down, are the chunk's.
pub proof fn lemma_cell_in_chunk(origin: (u32, u32), n: int)
    requires
        chunk_fits(origin),
        0 <= n < CHUNK_CELLS,
    ensures
        cell_of(origin, n).0 / CHUNK_SIZE == origin.0,
        cell_of(origin, n).1 / CHUNK_SIZE == origin.1,
{
}

/// Taking one more cell into account adds that cell to the occupied ones if
/// it holds a tile, and nothing otherwise.
pub proof fn lemma_occupied_step(chunk: Chunk, origin: (u32, u32), n: nat)
    ensures
        occupied_upto(chunk, origin, n + 1) == if tile_of(chunk, n as int) is Some {
            occupied_upto(chunk, origin, n).insert(cell_of(origin, n as int))
        } else {
            occupied_upto(chunk, origin, n)
        },
{
    let more = occupied_upto(chunk, origin, n + 1);
    let less = occupied_upto(chunk, origin, n);
    let step = if tile_of(chunk, n as int) is Some {
        less.insert(cell_of(origin, n as int))
    } else {
        less
    };
    assert forall|cell: (u32, u32)| more.contains(cell) <==> step.contains(cell) by {
        if more.contains(cell) {
            let m = choose|m: int|
                0 <= m < n + 1 && (#[trigger] tile_of(chunk, m)) is Some && cell == cell_of(origin, m);
            if m < n {
                assert(less.contains(cell));
            }
        }
        if step.contains(cell) {
            if less.contains(cell) {
                let m = choose|m: int|
                    0 <= m < n && (#[trigger] tile_of(chunk, m)) is Some && cell == cell_of(origin, m);
                assert(more.contains(cell));
            } else {
                assert(tile_of(chunk, n as int) is Some);
                assert(more.contains(cell));
            }
        }
    }
    assert(more =~= step);
}

/// The absolute coordinate of local cell `(i, j)` of a chunk.
pub fn cell_position(chunk: (u32, u32), i: u32, j: u32) -> (cell: (u32, u32))
    requires
        chunk_fits(chunk),
        i < CHUNK_SIZE,
        j < CHUNK_SIZE,
    ensures
        cell == cell_at(chunk, i as int, j as int),
{
    (chunk.0 * CHUNK_SIZE + i, chunk.1 * CHUNK_SIZE + j)
}

/// Materialises a chunk: every cell that holds a tile becomes resident, and
/// for each such cell that was not resident already one entity is asked for.
/// No entity is asked for twice, nor for a cell that is resident.
pub fn materialize(chunk: &Chunk, origin: (u32, u32), loaded: &mut LoadedSet) -> (spawns: Vec<
    Spawn,
>)
    requires
        chunk.wf(),
        chunk_fits(origin),
    ensures
        spawns@.map_values(|s: Spawn| s@) == spec_spawns(*chunk, origin, old(loaded)@),
        final(loaded)@ == old(loaded)@.union(occupied(*chunk, origin)),
{
    let mut spawns: Vec<Spawn> = Vec::new();
    let ghost before = loaded@;
    let mut i: u32 = 0;
    assert(spawns@.map_values(|s: Spawn| s@) =~= spawns_upto(*chunk, origin, before, 0));
    assert(loaded@ =~= before.union(occupied_upto(*chunk, origin, 0)));
    while i < CHUNK_SIZE
        invariant
            i <= CHUNK_SIZE,
            chunk.wf(),
            chunk_fits(origin),
            spawns@.map_values(|s: Spawn| s@) == spawns_upto(
                *chunk,
                origin,
                before,
                (i * CHUNK_SIZE) as nat,
            ),
            loaded@ == before.union(occupied_upto(*chunk, origin, (i * CHUNK_SIZE) as nat)),
        decreases CHUNK_SIZE - i,
    {
        let mut j: u32 = 0;
        while j < CHUNK_SIZE
            invariant
                i < CHUNK_SIZE,
                j <= CHUNK_SIZE,
                chunk.wf(),
                chunk_fits(origin),
                spawns@.map_values(|s: Spawn| s@) == spawns_upto(
                    *chunk,
                    origin,
                    before,
                    (i * CHUNK_SIZE + j) as nat,
                ),
                loaded@ == before.union(
                    occupied_upto(*chunk, origin, (i * CHUNK_SIZE + j) as nat),
                ),
            decreases CHUNK_SIZE - j,
        {
            let ghost n: nat = (i * CHUNK_SIZE + j) as nat;
            let ghost old_spawns = spawns@;
            let ghost old_loaded = loaded@;
            proof {
                assert(n as int / CHUNK_SIZE as int == i && n as int % CHUNK_SIZE as int == j);
                lemma_occupied_step(*chunk, origin, n);
            }
            match &chunk.grid[i as usize][j as usize] {
                Some(tile) => {
                    let cell = cell_position(origin, i, j);
                    assert(cell == cell_of(origin, n as int));
                    proof {
                        if occupied_upto(*chunk, origin, n).contains(cell) {
                            let m = choose|m: int|
                                0 <= m < n && (#[trigger] tile_of(*chunk, m)) is Some && cell
                                    == cell_of(origin, m);
                            lemma_cells_differ(origin, m, n as int);
                        }
                    }
                    if !loaded.contains(cell) {
                        let spawn = Spawn {
                            cell,
                            tile: tile.id.clone(),
                            solid: same_text(tile.id.as_str(), METAL),
                        };
                        assert(spawn@ == spawn_of(origin, n as int, *tile));
                        spawns.push(spawn);
                        loaded.insert(cell);
                        assert(spawns@.map_values(|s: Spawn| s@) =~= old_spawns.map_values(
                            |s: Spawn| s@,
                        ).push(spawn@));
                    }
                    assert(loaded@ =~= before.union(
                        occupied_upto(*chunk, origin, n + 1),
                    ));
                },
                None => {},
            }
            j = j + 1;
        }
        i = i + 1;
    }
    spawns
}

/// In one list of residents, the places of those that are out of range: in
/// rising order, every such place and no other.
pub open spec fn is_selection(
    picked: Seq<usize>,
    residents: Seq<(u32, u32)>,
    observer: Position,
    viewport: Viewport,
) -> bool {
    &&& forall|a: int, b: int| 0 <= a < b < picked.len() ==> picked[a] < picked[b]
    &&& forall|a: int|
        0 <= a < picked.len() ==> (#[trigger] picked[a]) < residents.len() && out_of_range(
            observer,
            viewport,
            residents[picked[a] as int],
        )
    &&& forall|k: int|
        0 <= k < residents.len() && out_of_range(observer, viewport, #[trigger] residents[k])
            ==> picked.contains(k as usize)
}

/// The cells of a list of residents that are out of range.
pub open spec fn far_cells(residents: Seq<(u32, u32)>, observer: Position, viewport: Viewport) -> Set<
    (u32, u32),
> {
    Set::new(|cell: (u32, u32)| residents.contains(cell) && out_of_range(observer, viewport, cell))
}

/// Decides which residents leave. `residents` lists the cells of the live
/// entities, in the world store's order. The answer lists the places in
/// `residents` of the entities to remove: those whose cell is farther from
/// the observer than the viewport's diagonal times the distance multiplier.
/// Their cells are no longer resident afterwards; every other cell stays.
pub fn evict(
    loaded: &mut LoadedSet,
    observer: Position,
    viewport: Viewport,
    residents: &Vec<(u32, u32)>,
) -> (gone: Vec<usize>)
    ensures
        is_selection(gone@, residents@, observer, viewport),
        gone@.len() <= residents@.len(),
        final(loaded)@ == old(loaded)@.difference(far_cells(residents@, observer, viewport)),
        forall|k: int|
            0 <= k < residents@.len() && out_of_range(observer, viewport, #[trigger] residents@[k])
                ==> !final(loaded)@.contains(residents@[k]),
{
    let mut gone: Vec<usize> = Vec::new();
    let ghost before = loaded@;
    let mut k: usize = 0;
    assert(loaded@ =~= before.difference(far_cells(residents@.take(0), observer, viewport)));
    while k < residents.len()
        invariant
            k <= residents@.len(),
            gone@.len() <= k,
            is_selection(gone@, residents@.take(k as int), observer, viewport),
            loaded@ == before.difference(
                far_cells(residents@.take(k as int), observer, viewport),
            ),
        decreases residents@.len() - k,
    {
        let cell = residents[k];
        let ghost old_gone = gone@;
        let ghost seen = residents@.take(k as int);
        let ghost more = residents@.take(k as int + 1);
        proof {
            assert(more == seen.push(cell));
            assert forall|c: (u32, u32)| more.contains(c) <==> seen.contains(c) || c == cell by {
                if more.contains(c) {
                    let at = choose|at: int| 0 <= at < more.len() && more[at] == c;
                    if at < k {
                        assert(seen[at] == c);
                    }
                }
                if seen.contains(c) {
                    let at = choose|at: int| 0 <= at < seen.len() && seen[at] == c;
                    assert(more[at] == c);
                }
                assert(more[k as int] == cell);
            }
        }
        if is_out_of_range(observer, viewport, cell) {
            gone.push(k);
            loaded.remove(cell);
            proof {
                assert(gone@[old_gone.len() as int] == k);
                assert forall|a: int| 0 <= a < old_gone.len() implies old_gone[a] < k by {
                    assert(old_gone[a] < seen.len());
                }
                assert forall|j: int|
                    0 <= j < more.len() && out_of_range(
                        observer,
                        viewport,
                        #[trigger] more[j],
                    ) implies gone@.contains(j as usize) by {
                    if j < k {
                        assert(seen[j] == more[j]);
                        assert(old_gone.contains(j as usize));
                        let at = choose|at: int| 0 <= at < old_gone.len() && old_gone[at] == j as usize;
                        assert(gone@[at] == j as usize);
                    }
                }
            }
        } else {
            proof {
                assert forall|j: int|
                    0 <= j < more.len() && out_of_range(
                        observer,
                        viewport,
                        #[trigger] more[j],
                    ) implies gone@.contains(j as usize) by {
                    assert(j < k);
                    assert(seen[j] == more[j]);
                }
            }
        }
        assert(loaded@ =~= before.difference(far_cells(more, observer, viewport)));
        k = k + 1;
    }
    assert(residents@.take(k as int) == residents@);
    gone
}

/// The set of resident cells and the world store agree: no two live
/// entities stand for one cell, and a cell is resident exactly when an
/// entity stands for it. `residents` lists the cells of the live entities.
pub open spec fn consistent(loaded: Set<(u32, u32)>, residents: Seq<(u32, u32)>) -> bool {
    &&& residents.no_duplicates()
    &&& forall|cell: (u32, u32)| loaded.contains(cell) <==> residents.contains(cell)
}

/// The chunk in which a cell lies.
pub open spec fn chunk_of_cell(cell: (u32, u32)) -> (u32, u32) {
    (cell.0 / CHUNK_SIZE, cell.1 / CHUNK_SIZE)
}

/// Every entity that materialising a chunk asks for stands for a cell of
/// that chunk which holds a tile and was not resident.
pub proof fn lemma_spawn_is_fresh(
    chunk: Chunk,
    origin: (u32, u32),
    loaded: Set<(u32, u32)>,
    n: nat,
    k: int,
)
    requires
        chunk_fits(origin),
        n <= CHUNK_CELLS,
        0 <= k < spawns_upto(chunk, origin, loaded, n).len(),
    ensures
        !loaded.contains(spawns_upto(chunk, origin, loaded, n)[k].cell),
        occupied_upto(chunk, origin, n).contains(spawns_upto(chunk, origin, loaded, n)[k].cell),
        chunk_of_cell(spawns_upto(chunk, origin, loaded, n)[k].cell) == origin,
    decreases n,
{
    if n > 0 {
        let m = (n - 1) as nat;
        let before = spawns_upto(chunk, origin, loaded, m);
        lemma_occupied_step(chunk, origin, m);
        if k < before.len() {
            lemma_spawn_is_fresh(chunk, origin, loaded, m, k);
        } else {
            lemma_cell_in_chunk(origin, m as int);
        }
    }
}

/// A cell that is not resident and lies in another chunk is still not
/// resident after a chunk has been materialised, and no entity is asked for
/// it: a cell that was evicted comes back only when its own chunk is loaded
/// again.
pub proof fn lemma_stays_evicted(
    chunk: Chunk,
    origin: (u32, u32),
    loaded: Set<(u32, u32)>,
    cell: (u32, u32),
)
    requires
        chunk_fits(origin),
        !loaded.contains(cell),
        chunk_of_cell(cell) != origin,
    ensures
        !loaded.union(occupied(chunk, origin)).contains(cell),
        !spawn_cells(spec_spawns(chunk, origin, loaded)).contains(cell),
{
    if occupied(chunk, origin).contains(cell) {
        let m = choose|m: int|
            0 <= m < CHUNK_CELLS && (#[trigger] tile_of(chunk, m)) is Some && cell == cell_of(
                origin,
                m,
            );
        lemma_cell_in_chunk(origin, m);
    }
    let cells = spawn_cells(spec_spawns(chunk, origin, loaded));
    if cells.contains(cell) {
        let k = choose|k: int| 0 <= k < cells.len() && cells[k] == cell;
        lemma_spawn_is_fresh(chunk, origin, loaded, CHUNK_CELLS as nat, k);
    }
}

/// No duplicate residency, on loading: materialising a chunk keeps the set
/// of resident cells and the world store in agreement. Once the entities
/// that were asked for have been made, still no cell has two entities, and
/// a cell is resident exactly when an entity stands for it.
pub proof fn lemma_materialize_keeps_residency(
    chunk: Chunk,
    origin: (u32, u32),
    loaded: Set<(u32, u32)>,
    residents: Seq<(u32, u32)>,
)
    requires
        chunk_fits(origin),
        consistent(loaded, residents),
    ensures
        consistent(
            loaded.union(occupied(chunk, origin)),
            residents + spawn_cells(spec_spawns(chunk, origin, loaded)),
        ),
{
    lemma_residency_upto(chunk, origin, loaded, residents, CHUNK_CELLS as nat);
}

/// The same, for the first `n` cells of the chunk.
proof fn lemma_residency_upto(
    chunk: Chunk,
    origin: (u32, u32),
    loaded: Set<(u32, u32)>,
    residents: Seq<(u32, u32)>,
    n: nat,
)
    requires
        chunk_fits(origin),
        n <= CHUNK_CELLS,
        consistent(loaded, residents),
    ensures
        consistent(
            loaded.union(occupied_upto(chunk, origin, n)),
            residents + spawn_cells(spawns_upto(chunk, origin, loaded, n)),
        ),
    decreases n,
{
    let after = residents + spawn_cells(spawns_upto(chunk, origin, loaded, n));
    let set = loaded.union(occupied_upto(chunk, origin, n));
    if n == 0 {
        assert(after =~= residents);
        assert(set =~= loaded);
    } else {
        let m = (n - 1) as nat;
        let spawned = spawns_upto(chunk, origin, loaded, m);
        let mid = residents + spawn_cells(spawned);
        let mid_set = loaded.union(occupied_upto(chunk, origin, m));
        lemma_residency_upto(chunk, origin, loaded, residents, m);
        lemma_occupied_step(chunk, origin, m);
        let cell = cell_of(origin, m as int);
        match tile_of(chunk, m as int) {
            Some(tile) => {
                if loaded.contains(cell) {
                    assert(set =~= mid_set);
                } else {
                    assert(after =~= mid.push(cell));
                    if occupied_upto(chunk, origin, m).contains(cell) {
                        let at = choose|at: int|
                            0 <= at < m && (#[trigger] tile_of(chunk, at)) is Some && cell
                                == cell_of(origin, at);
                        lemma_cells_differ(origin, at, m as int);
                    }
                    assert(!mid_set.contains(cell));
                    assert(!mid.contains(cell));
                    assert(after[mid.len() as int] == cell);
                    assert forall|c: (u32, u32)| set.contains(c) <==> after.contains(c) by {
                        if mid.contains(c) {
                            let at = choose|at: int| 0 <= at < mid.len() && mid[at] == c;
                            assert(after[at] == c);
                        }
                        if after.contains(c) {
                            let at = choose|at: int| 0 <= at < after.len() && after[at] == c;
                            if at < mid.len() {
                                assert(mid[at] == c);
                            }
                        }
                    }
                    assert forall|a: int, b: int|
                        0 <= a < after.len() && 0 <= b < after.len() && a != b implies after[a]
                        != after[b] by {
                        if a < mid.len() && b < mid.len() {
                            assert(mid[a] != mid[b]);
                        } else if a < mid.len() {
                            assert(mid[a] == after[a]);
                        } else if b < mid.len() {
                            assert(mid[b] == after[b]);
                        }
                    }
                }
            },
            None => {},
        }
    }
}

/// The residents that stay after an eviction: those among the first `n`
/// that are in range, in their order.
pub open spec fn survivors_upto(
    residents: Seq<(u32, u32)>,
    observer: Position,
    viewport: Viewport,
    n: nat,
) -> Seq<(u32, u32)>
    decreases n,
{
    if n == 0 {
        Seq::empty()
    } else {
        let before = survivors_upto(residents, observer, viewport, (n - 1) as nat);
        if out_of_range(observer, viewport, residents[n - 1]) {
            before
        } else {
            before.push(residents[n - 1])
        }
    }
}

/// The residents that stay after an eviction.
pub open spec fn survivors(residents: Seq<(u32, u32)>, observer: Position, viewport: Viewport) -> Seq<
    (u32, u32),
> {
    survivors_upto(residents, observer, viewport, residents.len())
}

/// A cell stays exactly when it is one of the residents seen so far and is
/// in range; and if no cell occurred twice before, none does afterwards.
pub proof fn lemma_survivors_members(
    residents: Seq<(u32, u32)>,
    observer: Position,
    viewport: Viewport,
    n: nat,
)
    requires
        n <= residents.len(),
        residents.no_duplicates(),
    ensures
        survivors_upto(residents, observer, viewport, n).no_duplicates(),
        forall|cell: (u32, u32)|
            #[trigger] survivors_upto(residents, observer, viewport, n).contains(cell)
                <==> residents.take(n as int).contains(cell) && !out_of_range(
                observer,
                viewport,
                cell,
            ),
    decreases n,
{
    let now = survivors_upto(residents, observer, viewport, n);
    if n > 0 {
        let m = (n - 1) as nat;
        let before = survivors_upto(residents, observer, viewport, m);
        lemma_survivors_members(residents, observer, viewport, m);
        let last = residents[m as int];
        let seen = residents.take(m as int);
        let more = residents.take(n as int);
        assert(more[m as int] == last);
        assert forall|cell: (u32, u32)| more.contains(cell) <==> seen.contains(cell) || cell
            == last by {
            if more.contains(cell) {
                let at = choose|at: int| 0 <= at < more.len() && more[at] == cell;
                if at < m {
                    assert(seen[at] == cell);
                }
            }
            if seen.contains(cell) {
                let at = choose|at: int| 0 <= at < seen.len() && seen[at] == cell;
                assert(more[at] == cell);
            }
        }
        if seen.contains(last) {
            let at = choose|at: int| 0 <= at < seen.len() && seen[at] == last;
            assert(residents[at] == residents[m as int]);
        }
        if !out_of_range(observer, viewport, last) {
            assert(now == before.push(last));
            assert(now[before.len() as int] == last);
            assert(!before.contains(last));
            assert forall|cell: (u32, u32)| now.contains(cell) <==> before.contains(cell) || cell
                == last by {
                if now.contains(cell) {
                    let at = choose|at: int| 0 <= at < now.len() && now[at] == cell;
                    if at < before.len() {
                        assert(before[at] == cell);
                    }
                }
                if before.contains(cell) {
                    let at = choose|at: int| 0 <= at < before.len() && before[at] == cell;
                    assert(now[at] == cell);
                }
            }
            assert forall|a: int, b: int|
                0 <= a < now.len() && 0 <= b < now.len() && a != b implies now[a] != now[b] by {
                if a < before.len() && b < before.len() {
                    assert(before[a] != before[b]);
                } else if a < before.len() {
                    assert(before[a] == now[a]);
                } else if b < before.len() {
                    assert(before[b] == now[b]);
                }
            }
        }
        assert forall|cell: (u32, u32)|
            now.contains(cell) <==> more.contains(cell) && !out_of_range(
                observer,
                viewport,
                cell,
            ) by {
            assert(before.contains(cell) <==> seen.contains(cell) && !out_of_range(
                observer,
                viewport,
                cell,
            ));
        }
    } else {
        assert(residents.take(0).len() == 0);
    }
}

/// No duplicate residency, on eviction: an eviction keeps the set of
/// resident cells and the world store in agreement. Once the entities that
/// were named have been removed, the cells that are resident are exactly
/// those of the entities that stay, and none of them is out of range.
pub proof fn lemma_evict_keeps_residency(
    loaded: Set<(u32, u32)>,
    residents: Seq<(u32, u32)>,
    observer: Position,
    viewport: Viewport,
)
    requires
        consistent(loaded, residents),
    ensures
        consistent(
            loaded.difference(far_cells(residents, observer, viewport)),
            survivors(residents, observer, viewport),
        ),
        forall|cell: (u32, u32)|
            loaded.difference(far_cells(residents, observer, viewport)).contains(cell)
                ==> !out_of_range(observer, viewport, cell),
{
    lemma_survivors_members(residents, observer, viewport, residents.len());
    assert(residents.take(residents.len() as int) == residents);
    let kept = loaded.difference(far_cells(residents, observer, viewport));
    let staying = survivors(residents, observer, viewport);
    assert forall|cell: (u32, u32)| kept.contains(cell) <==> staying.contains(cell) by {
        assert(staying.contains(cell) <==> residents.contains(cell) && !out_of_range(
            observer,
            viewport,
            cell,
        ));
    }
}

} // verus!
