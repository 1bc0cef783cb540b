use paraselene::chunk_manager::chunk::{find_tile, same_text, Ratio, NOISE_ONE};
use paraselene::chunk_manager::{
    Chunk, ChunkData, ChunkManager, Tile, ASTEROID_1, ASTEROID_2, METAL, SPACE,
};
use paraselene::state::State;

fn tile(id: &str, min: i64, max: i64, numerator: u32, denominator: u32) -> Tile {
    Tile { max, min, rand: Ratio { numerator, denominator }, id: id.to_string() }
}

#[test]
fn ids_are_the_four_kinds() {
    assert_eq!(ASTEROID_1, "asteroid_1");
    assert_eq!(ASTEROID_2, "asteroid_2");
    assert_eq!(METAL, "metal");
    assert_eq!(SPACE, "space");
}

#[test]
fn same_text_compares_characters() {
    assert!(same_text("metal", METAL));
    assert!(!same_text("metal", "meta"));
    assert!(!same_text("", "space"));
    assert!(same_text("", ""));
}

#[test]
fn asteroids_are_certain_from_a_quarter_up() {
    let a = Tile::asteroid_1();
    assert_eq!(a.id, "asteroid_1");
    assert_eq!(a.min, 300_000);
    assert_eq!(a.max, 1_200_000);
    assert_eq!((a.rand.numerator, a.rand.denominator), (1, 1));
    let b = Tile::asteroid_2();
    assert_eq!(b.id, "asteroid_2");
    assert_eq!(b.min, NOISE_ONE / 4);
    assert_eq!(b.max, NOISE_ONE);
    assert_eq!((b.rand.numerator, b.rand.denominator), (1, 1));
}

#[test]
fn metal_is_two_in_three_from_two_thirds_up() {
    let m = Tile::metal();
    assert_eq!(m.id, "metal");
    assert_eq!(m.min, 800_000);
    assert_eq!(m.max, 1_200_000);
    assert_eq!((m.rand.numerator, m.rand.denominator), (2, 3));
}

#[test]
fn file_map_knows_the_four_kinds() {
    assert_eq!(Tile::file_map("asteroid_1"), Some("art/asteroid.png".to_string()));
    assert_eq!(Tile::file_map("asteroid_2"), Some("art/asteroid2.png".to_string()));
    assert_eq!(Tile::file_map("metal"), Some("art/metal.png".to_string()));
    assert_eq!(Tile::file_map("space"), Some("art/space.png".to_string()));
    assert_eq!(Tile::file_map("water"), None);
    assert_eq!(Tile::file_map(""), None);
}

#[test]
fn decide_needs_trial_and_band() {
    let t = tile("t", 10, 20, 1, 2);
    assert_eq!(t.decide(true, 10), Some(&"t".to_string()));
    assert_eq!(t.decide(true, 20), Some(&"t".to_string()));
    assert_eq!(t.decide(true, 15), Some(&"t".to_string()));
    assert_eq!(t.decide(true, 9), None);
    assert_eq!(t.decide(true, 21), None);
    assert_eq!(t.decide(false, 15), None);
    assert_eq!(t.decide(false, 9), None);
}

#[test]
fn check_of_a_certain_tile_follows_the_band() {
    let mut state = State::new(7);
    let a = Tile::asteroid_1();
    for _ in 0..100 {
        assert_eq!(a.check(&mut state.rng, 300_000), Some(&"asteroid_1".to_string()));
        assert_eq!(a.check(&mut state.rng, 1_200_000), Some(&"asteroid_1".to_string()));
        assert_eq!(a.check(&mut state.rng, 299_999), None);
        assert_eq!(a.check(&mut state.rng, 1_200_001), None);
        assert_eq!(a.check(&mut state.rng, -1_200_000), None);
    }
}

#[test]
fn check_of_an_impossible_tile_is_never_taken() {
    let mut state = State::new(7);
    let t = tile("never", 0, 100, 0, 5);
    for _ in 0..100 {
        assert_eq!(t.check(&mut state.rng, 50), None);
    }
}

#[test]
fn check_of_metal_is_sometimes_taken_and_sometimes_not() {
    let mut state = State::new(11);
    let m = Tile::metal();
    let mut taken = 0;
    for _ in 0..3000 {
        if m.check(&mut state.rng, 900_000).is_some() {
            taken += 1;
        }
        assert_eq!(m.check(&mut state.rng, 100_000), None);
    }
    assert!(taken > 1700 && taken < 2300);
}

#[test]
fn registry_holds_asteroids_then_metal() {
    let tiles = ChunkManager::chunk_texture_map();
    let ids: Vec<&str> = tiles.iter().map(|t| t.id.as_str()).collect();
    assert_eq!(ids, vec!["asteroid_1", "asteroid_2", "metal"]);
}

#[test]
fn find_tile_gives_the_first_match() {
    let tiles = vec![tile("a", 0, 1, 1, 1), tile("b", 0, 1, 1, 1), tile("a", 5, 6, 1, 1)];
    assert_eq!(find_tile(&tiles, "a"), Some(0));
    assert_eq!(find_tile(&tiles, "b"), Some(1));
    assert_eq!(find_tile(&tiles, "c"), None);
    assert_eq!(find_tile(&Vec::new(), "a"), None);
}

#[test]
fn tile_clone_keeps_every_field() {
    let m = Tile::metal();
    let c = m.clone();
    assert_eq!(c.id, m.id);
    assert_eq!((c.min, c.max), (m.min, m.max));
    assert_eq!((c.rand.numerator, c.rand.denominator), (2, 3));
}

#[test]
fn chunk_new_keeps_its_parts() {
    let grid = vec![vec![Some(Tile::metal()), None]];
    let chunk = Chunk::new((3, 4), grid);
    assert_eq!(chunk.position, (3, 4));
    assert_eq!(chunk.grid.len(), 1);
    assert_eq!(chunk.grid[0][0].as_ref().map(|t| t.id.as_str()), Some("metal"));
    assert!(chunk.grid[0][1].is_none());
}

#[test]
fn chunk_load_resolves_known_ids_and_drops_unknown_ones() {
    let mut data = ChunkData::new((9, 2));
    data.grid[0][0] = Some("metal".to_string());
    data.grid[0][1] = Some("asteroid_2".to_string());
    data.grid[15][15] = Some("lava".to_string());
    data.grid[3][7] = Some("space".to_string());
    let tiles = ChunkManager::chunk_texture_map();
    let chunk = Chunk::load(data, &tiles);
    assert_eq!(chunk.position, (9, 2));
    assert_eq!(chunk.grid.len(), 16);
    for row in chunk.grid.iter() {
        assert_eq!(row.len(), 16);
    }
    assert_eq!(chunk.grid[0][0].as_ref().map(|t| t.id.as_str()), Some("metal"));
    assert_eq!(chunk.grid[0][0].as_ref().map(|t| t.min), Some(800_000));
    assert_eq!(chunk.grid[0][1].as_ref().map(|t| t.id.as_str()), Some("asteroid_2"));
    assert!(chunk.grid[15][15].is_none());
    assert!(chunk.grid[3][7].is_none());
    let filled = chunk.grid.iter().flatten().filter(|c| c.is_some()).count();
    assert_eq!(filled, 2);
}

#[test]
fn chunk_load_keeps_the_shape_of_any_record() {
    let data = ChunkData {
        position: (1, 1),
        grid: vec![vec![Some("metal".to_string())], vec![], vec![None, None]],
    };
    let chunk = Chunk::load(data, &ChunkManager::chunk_texture_map());
    let lens: Vec<usize> = chunk.grid.iter().map(|r| r.len()).collect();
    assert_eq!(lens, vec![1, 0, 2]);
}
