//! Procedural generation of one cell: every tile of the registry is tried
//! against the noise value, and one of those that pass is chosen.

use super::chunk::Tile;
use super::chunk_data::cell_text;
use crate::state::{pick_one, trial};
use rand::rngs::StdRng;
use vstd::prelude::*;

verus! {

/// A registry is usable when every tile's rarity is a probability and no two
/// tiles share an id.
pub open spec fn registry_wf(tiles: Seq<Tile>) -> bool {
    &&& forall|k: int| 0 <= k < tiles.len() ==> (#[trigger] tiles[k]).wf()
    &&& forall|a: int, b: int|
        0 <= a < b < tiles.len() ==> (#[trigger] tiles[a]).id@ != (#[trigger] tiles[b]).id@
}

/// One trial outcome per tile, none of them contradicting a tile whose trial
/// is certain or impossible.
pub open spec fn admissible(tiles: Seq<Tile>, hits: Seq<bool>) -> bool {
    &&& hits.len() == tiles.len()
    &&& forall|k: int|
        0 <= k < tiles.len() ==> {
            &&& (#[trigger] tiles[k]).rand.certain() ==> hits[k]
            &&& tiles[k].rand.impossible() ==> !hits[k]
        }
}

/// The tiles among the first `n` that are taken at a noise value, given the
/// outcome of each tile's trial: their indices, in registry order.
pub open spec fn candidates_upto(tiles: Seq<Tile>, hits: Seq<bool>, value: i64, n: nat) -> Seq<
    usize,
>
    decreases n,
{
    if n == 0 {
        Seq::empty()
    } else {
        let before = candidates_upto(tiles, hits, value, (n - 1) as nat);
        if tiles[n - 1].accepts(hits[n - 1], value) {
            before.push((n - 1) as usize)
        } else {
            before
        }
    }
}

/// The tiles of the whole registry that are taken at a noise value.
pub open spec fn spec_candidates(tiles: Seq<Tile>, hits: Seq<bool>, value: i64) -> Seq<usize> {
    candidates_upto(tiles, hits, value, tiles.len())
}

/// The id that a cell gets once one candidate has been picked, or nothing
/// where none was.
pub open spec fn spec_chosen(tiles: Seq<Tile>, pick: Option<usize>) -> Option<Seq<char>> {
    match pick {
        Some(k) => Some(tiles[k as int].id@),
        None => None,
    }
}

/// A cell's content agrees with one outcome of the trials and one pick: the
/// outcome is admissible, the pick is one of the tiles that are taken, or
/// nothing where none is, and the cell holds the id of the pick.
pub open spec fn settles(
    tiles: Seq<Tile>,
    value: i64,
    hits: Seq<bool>,
    pick: Option<usize>,
    cell: Option<Seq<char>>,
) -> bool {
    &&& admissible(tiles, hits)
    &&& match pick {
        Some(k) => spec_candidates(tiles, hits, value).contains(k),
        None => spec_candidates(tiles, hits, value).len() == 0,
    }
    &&& cell == spec_chosen(tiles, pick)
}

/// What generation may put into a cell with this noise value: for some
/// admissible outcome of the trials, nothing if no tile is taken, else the
/// id of one of the tiles that are.
pub open spec fn possible_cell(tiles: Seq<Tile>, value: i64, cell: Option<Seq<char>>) -> bool {
    exists|hits: Seq<bool>, pick: Option<usize>| #[trigger] settles(tiles, value, hits, pick, cell)
}

/// An index is among the candidates exactly when it lies below `n` and its
/// tile is taken.
pub proof fn lemma_candidates_members(
    tiles: Seq<Tile>,
    hits: Seq<bool>,
    value: i64,
    n: nat,
    k: usize,
)
    requires
        n <= usize::MAX,
    ensures
        candidates_upto(tiles, hits, value, n).contains(k) <==> k < n && tiles[k as int].accepts(
            hits[k as int],
            value,
        ),
    decreases n,
{
    if n > 0 {
        let before = candidates_upto(tiles, hits, value, (n - 1) as nat);
        lemma_candidates_members(tiles, hits, value, (n - 1) as nat, k);
        if tiles[n - 1].accepts(hits[n - 1], value) {
            let all = before.push((n - 1) as usize);
            assert(all[before.len() as int] == (n - 1) as usize);
            if before.contains(k) {
                let at = choose|at: int| 0 <= at < before.len() && before[at] == k;
                assert(all[at] == k);
            }
        }
    }
}

/// The tiles that are taken at a noise value, given the outcome of each
/// tile's trial.
pub fn candidates(tiles: &Vec<Tile>, hits: &Vec<bool>, value: i64) -> (taken: Vec<usize>)
    requires
        hits@.len() == tiles@.len(),
    ensures
        taken@ == spec_candidates(tiles@, hits@, value),
{
    let mut taken: Vec<usize> = Vec::new();
    let mut k: usize = 0;
    while k < tiles.len()
        invariant
            k <= tiles@.len(),
            hits@.len() == tiles@.len(),
            taken@ == candidates_upto(tiles@, hits@, value, k as nat),
        decreases tiles@.len() - k,
    {
        if tiles[k].decide(hits[k], value).is_some() {
            taken.push(k);
        }
        k = k + 1;
    }
    taken
}

/// The id of the tile that was picked, or nothing where none was.
pub fn chosen(tiles: &Vec<Tile>, pick: Option<usize>) -> (cell: Option<String>)
    requires
        pick matches Some(k) ==> k < tiles@.len(),
    ensures
        cell_text(cell) == spec_chosen(tiles@, pick),
{
    match pick {
        Some(k) => Some(tiles[k].id.clone()),
        None => None,
    }
}

/// Runs every tile's trial once, in registry order.
pub fn draw_trials(tiles: &Vec<Tile>, rng: &mut StdRng) -> (hits: Vec<bool>)
    requires
        forall|k: int| 0 <= k < tiles@.len() ==> (#[trigger] tiles@[k]).wf(),
    ensures
        admissible(tiles@, hits@),
{
    let mut hits: Vec<bool> = Vec::new();
    let mut k: usize = 0;
    while k < tiles.len()
        invariant
            k <= tiles@.len(),
            hits@.len() == k,
            forall|a: int| 0 <= a < tiles@.len() ==> (#[trigger] tiles@[a]).wf(),
            forall|a: int|
                0 <= a < k ==> {
                    &&& (#[trigger] tiles@[a]).rand.certain() ==> hits@[a]
                    &&& tiles@[a].rand.impossible() ==> !hits@[a]
                },
        decreases tiles@.len() - k,
    {
        let hit = trial(rng, tiles[k].rand.numerator, tiles[k].rand.denominator);
        hits.push(hit);
        k = k + 1;
    }
    hits
}

/// Generates one cell: tries every tile against the noise value, then picks
/// one of those that passed, each with the same chance.
pub fn gen_cell(tiles: &Vec<Tile>, rng: &mut StdRng, value: i64) -> (cell: Option<String>)
    requires
        forall|k: int| 0 <= k < tiles@.len() ==> (#[trigger] tiles@[k]).wf(),
    ensures
        possible_cell(tiles@, value, cell_text(cell)),
{
    let hits = draw_trials(tiles, rng);
    let taken = candidates(tiles, &hits, value);
    let pick = pick_one(rng, &taken);
    proof {
        if let Some(k) = pick {
            lemma_candidates_members(tiles@, hits@, value, tiles@.len(), k);
        }
    }
    let cell = chosen(tiles, pick);
    assert(settles(tiles@, value, hits@, pick, cell_text(cell)));
    cell
}

/// A tile that generation put into a cell has the noise value in its band.
pub proof fn lemma_cell_matches_band(tiles: Seq<Tile>, value: i64, cell: Option<Seq<char>>)
    requires
        tiles.len() <= usize::MAX,
        possible_cell(tiles, value, cell),
        cell is Some,
    ensures
        exists|k: int|
            0 <= k < tiles.len() && (#[trigger] tiles[k]).id@ == cell->0 && tiles[k].in_band(value),
{
    let (hits, pick) = choose|hits: Seq<bool>, pick: Option<usize>|
        #[trigger] settles(tiles, value, hits, pick, cell);
    let k = pick->0;
    lemma_candidates_members(tiles, hits, value, tiles.len(), k);
    assert(tiles[k as int].id@ == cell->0 && tiles[k as int].in_band(value));
}

/// A tile is never put into a cell whose noise value lies outside the tile's
/// band, whatever the trials and the pick turn out to be.
pub proof fn lemma_out_of_band_never_selected(
    tiles: Seq<Tile>,
    value: i64,
    cell: Option<Seq<char>>,
    t: int,
)
    requires
        tiles.len() <= usize::MAX,
        registry_wf(tiles),
        possible_cell(tiles, value, cell),
        0 <= t < tiles.len(),
        !tiles[t].in_band(value),
    ensures
        cell != Some(tiles[t].id@),
{
    if cell is Some {
        lemma_cell_matches_band(tiles, value, cell);
        let k = choose|k: int|
            0 <= k < tiles.len() && (#[trigger] tiles[k]).id@ == cell->0 && tiles[k].in_band(value);
        if cell->0 == tiles[t].id@ {
            assert(k != t);
            if k < t {
                assert(tiles[k].id@ != tiles[t].id@);
            } else {
                assert(tiles[t].id@ != tiles[k].id@);
            }
        }
    }
}

/// A cell in whose noise value no tile's band lies stays background.
pub proof fn lemma_empty_without_band(tiles: Seq<Tile>, value: i64, cell: Option<Seq<char>>)
    requires
        tiles.len() <= usize::MAX,
        possible_cell(tiles, value, cell),
        forall|k: int| 0 <= k < tiles.len() ==> !(#[trigger] tiles[k]).in_band(value),
    ensures
        cell is None,
{
    if cell is Some {
        lemma_cell_matches_band(tiles, value, cell);
    }
}

/// A cell whose noise value lies in the band of a tile with a certain trial
/// never stays background.
pub proof fn lemma_certain_tile_fills(
    tiles: Seq<Tile>,
    value: i64,
    cell: Option<Seq<char>>,
    t: int,
)
    requires
        tiles.len() <= usize::MAX,
        possible_cell(tiles, value, cell),
        0 <= t < tiles.len(),
        tiles[t].rand.certain(),
        tiles[t].in_band(value),
    ensures
        cell is Some,
{
    let (hits, pick) = choose|hits: Seq<bool>, pick: Option<usize>|
        #[trigger] settles(tiles, value, hits, pick, cell);
    lemma_candidates_members(tiles, hits, value, tiles.len(), t as usize);
    assert(spec_candidates(tiles, hits, value).contains(t as usize));
}

} // verus!
