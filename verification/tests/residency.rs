use paraselene::chunk_manager::loaded::LoadedSet;
use paraselene::chunk_manager::residency::{cell_position, evict, materialize};
use paraselene::chunk_manager::store::{LoadError, Resolution};
use paraselene::chunk_manager::window::{Position, Viewport};
use paraselene::chunk_manager::{Chunk, ChunkData, ChunkManager};
use paraselene::state::State;

fn sample_record() -> ChunkData {
    let mut data = ChunkData::new((5, 5));
    data.grid[0][0] = Some("metal".to_string());
    data.grid[0][3] = Some("asteroid_2".to_string());
    data.grid[7][9] = Some("asteroid_1".to_string());
    data.grid[15][15] = Some("unknown".to_string());
    data
}

#[test]
fn loaded_set_inserts_finds_and_removes() {
    let mut set = LoadedSet::new();
    assert!(!set.contains((1, 2)));
    assert!(set.insert((1, 2)));
    assert!(!set.insert((1, 2)));
    assert!(set.contains((1, 2)));
    assert!(!set.contains((2, 1)));
    assert!(set.insert((2, 1)));
    assert!(set.remove((1, 2)));
    assert!(!set.remove((1, 2)));
    assert!(!set.contains((1, 2)));
    assert!(set.contains((2, 1)));
}

#[test]
fn loaded_set_tells_apart_cells_at_the_ends_of_the_range() {
    let mut set = LoadedSet::new();
    assert!(set.insert((0, u32::MAX)));
    assert!(set.insert((u32::MAX, 0)));
    assert!(set.insert((0, 0)));
    assert!(set.insert((u32::MAX, u32::MAX)));
    assert!(!set.contains((1, 0)));
    assert!(!set.contains((0, 1)));
    assert!(set.remove((u32::MAX, 0)));
    assert!(set.contains((0, u32::MAX)));
}

#[test]
fn cell_position_adds_the_chunk_origin() {
    assert_eq!(cell_position((0, 0), 0, 0), (0, 0));
    assert_eq!(cell_position((5, 7), 3, 15), (83, 127));
    assert_eq!(cell_position((0x0FFF_FFFF, 0x0FFF_FFFF), 15, 15), (u32::MAX, u32::MAX));
}

#[test]
fn materialize_asks_for_one_entity_per_new_cell() {
    let tiles = ChunkManager::chunk_texture_map();
    let chunk = Chunk::load(sample_record(), &tiles);
    let mut loaded = LoadedSet::new();
    loaded.insert((80, 83));
    let spawns = materialize(&chunk, (5, 5), &mut loaded);
    assert_eq!(spawns.len(), 2);
    assert_eq!(spawns[0].cell, (80, 80));
    assert_eq!(spawns[0].tile, "metal");
    assert!(spawns[0].solid);
    assert_eq!(spawns[1].cell, (87, 89));
    assert_eq!(spawns[1].tile, "asteroid_1");
    assert!(!spawns[1].solid);
    assert!(loaded.contains((80, 80)));
    assert!(loaded.contains((80, 83)));
    assert!(loaded.contains((87, 89)));
    assert!(!loaded.contains((95, 95)));
    assert!(!loaded.contains((80, 81)));
}

#[test]
fn materialize_twice_asks_for_nothing_the_second_time() {
    let tiles = ChunkManager::chunk_texture_map();
    let chunk = Chunk::load(sample_record(), &tiles);
    let mut loaded = LoadedSet::new();
    assert_eq!(materialize(&chunk, (5, 5), &mut loaded).len(), 3);
    assert_eq!(materialize(&chunk, (5, 5), &mut loaded).len(), 0);
    assert_eq!(materialize(&chunk, (6, 5), &mut loaded).len(), 3);
}

#[test]
fn load_chunk_materialises_an_existing_record() {
    let mut manager = ChunkManager::new(State::new(1), 0);
    let spawns = manager.load_chunk((5, 5), Resolution::Existing(sample_record()), false).unwrap();
    let cells: Vec<(u32, u32)> = spawns.iter().map(|s| s.cell).collect();
    assert_eq!(cells, vec![(80, 80), (80, 83), (87, 89)]);
    let solid: Vec<bool> = spawns.iter().map(|s| s.solid).collect();
    assert_eq!(solid, vec![true, false, false]);
    assert!(manager.loaded.contains((87, 89)));
    let again = manager.load_chunk((5, 5), Resolution::Existing(sample_record()), true);
    assert!(again.unwrap().is_empty());
}

#[test]
fn load_chunk_materialises_a_generated_record_once_written() {
    let mut manager = ChunkManager::new(State::new(1), 0);
    let spawns = manager.load_chunk((5, 5), Resolution::Generated(sample_record()), true).unwrap();
    assert_eq!(spawns.len(), 3);
    assert!(manager.loaded.contains((80, 80)));
}

#[test]
fn load_chunk_refuses_a_record_that_was_not_written() {
    let mut manager = ChunkManager::new(State::new(1), 0);
    let result = manager.load_chunk((5, 5), Resolution::Generated(sample_record()), false);
    assert_eq!(result.unwrap_err(), LoadError::StorageWrite);
    assert!(!manager.loaded.contains((80, 80)));
}

#[test]
fn load_chunk_refuses_a_malformed_record() {
    let mut manager = ChunkManager::new(State::new(1), 0);
    let mut data = sample_record();
    data.grid.push(Vec::new());
    let result = manager.load_chunk((5, 5), Resolution::Existing(data), true);
    assert_eq!(result.unwrap_err(), LoadError::StorageRead);
    assert!(!manager.loaded.contains((80, 80)));
    let mut data = sample_record();
    data.grid.push(Vec::new());
    let result = manager.load_chunk((5, 5), Resolution::Generated(data), true);
    assert_eq!(result.unwrap_err(), LoadError::StorageRead);
    let mut data = sample_record();
    data.grid.push(Vec::new());
    let result = manager.load_chunk((5, 5), Resolution::Generated(data), false);
    assert_eq!(result.unwrap_err(), LoadError::StorageWrite);
}

#[test]
fn evict_names_the_residents_out_of_range() {
    let mut loaded = LoadedSet::new();
    let residents = vec![(0, 0), (11, 0), (10, 0), (6, 9), (6, 8), (200, 200)];
    for &cell in residents.iter() {
        loaded.insert(cell);
    }
    loaded.insert((300, 300));
    let observer = Position { x: 0, y: 0 };
    let viewport = Viewport { half_width: 3 * 1024, half_height: 4 * 1024 };
    let gone = evict(&mut loaded, observer, viewport, &residents);
    assert_eq!(gone, vec![1, 3, 5]);
    assert!(loaded.contains((0, 0)));
    assert!(loaded.contains((10, 0)));
    assert!(loaded.contains((6, 8)));
    assert!(!loaded.contains((11, 0)));
    assert!(!loaded.contains((6, 9)));
    assert!(!loaded.contains((200, 200)));
    // A cell that no resident stands for is left alone.
    assert!(loaded.contains((300, 300)));
}

#[test]
fn evict_with_no_residents_changes_nothing() {
    let mut manager = ChunkManager::new(State::new(1), 0);
    manager.loaded.insert((500, 500));
    let gone = manager.evict(
        Position { x: 0, y: 0 },
        Viewport { half_width: 0, half_height: 0 },
        &Vec::new(),
    );
    assert!(gone.is_empty());
    assert!(manager.loaded.contains((500, 500)));
}

#[test]
fn evicted_cell_returns_only_with_its_chunk() {
    let mut manager = ChunkManager::new(State::new(1), 0);
    let spawns = manager.load_chunk((5, 5), Resolution::Existing(sample_record()), true).unwrap();
    let residents: Vec<(u32, u32)> = spawns.iter().map(|s| s.cell).collect();
    let far_away = Position { x: 10_000 * 1024, y: 10_000 * 1024 };
    let viewport = Viewport { half_width: 1024, half_height: 1024 };
    let gone = manager.evict(far_away, viewport, &residents);
    assert_eq!(gone, vec![0, 1, 2]);
    // Another chunk does not bring the cells back.
    manager.load_chunk((6, 5), Resolution::Existing(sample_record()), true).unwrap();
    assert!(!manager.loaded.contains((80, 80)));
    // Their own chunk does, with one new entity each.
    let back = manager.load_chunk((5, 5), Resolution::Existing(sample_record()), true).unwrap();
    assert_eq!(back.len(), 3);
    assert!(manager.loaded.contains((80, 80)));
}

#[test]
fn update_waits_for_the_interval() {
    let mut manager = ChunkManager::new(State::new(1), 1_000);
    let observer = Position { x: 5 * 16 * 1024, y: 5 * 16 * 1024 };
    let viewport = Viewport { half_width: 8 * 1024, half_height: 8 * 1024 };
    assert!(manager.update(1_000, observer, viewport).is_none());
    assert!(manager.update(25_000_999, observer, viewport).is_none());
    assert!(manager.update(0, observer, viewport).is_none());
    assert_eq!(manager.last_update_time, 1_000);
    let window = manager.update(25_001_000, observer, viewport).unwrap();
    assert_eq!((window.min, window.max), ((4, 4), (6, 6)));
    assert_eq!(manager.last_update_time, 25_001_000);
    assert!(manager.update(25_001_001, observer, viewport).is_none());
    assert!(manager.update(u64::MAX, observer, viewport).is_some());
}
