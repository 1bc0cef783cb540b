use paraselene::chunk_manager::chunk::Ratio;
use paraselene::chunk_manager::generate::{candidates, chosen, draw_trials, gen_cell};
use paraselene::chunk_manager::store::LoadError;
use paraselene::chunk_manager::{check_noise, ChunkManager, Tile};
use paraselene::state::State;

fn tile(id: &str, min: i64, max: i64, numerator: u32, denominator: u32) -> Tile {
    Tile { max, min, rand: Ratio { numerator, denominator }, id: id.to_string() }
}

fn flat_noise(value: i64) -> Vec<Vec<i64>> {
    vec![vec![value; 16]; 16]
}

#[test]
fn candidates_are_the_tiles_that_are_taken_in_order() {
    let tiles = vec![
        tile("a", 0, 10, 1, 1),
        tile("b", 5, 15, 1, 1),
        tile("c", 0, 100, 1, 1),
        tile("d", 20, 30, 1, 1),
    ];
    assert_eq!(candidates(&tiles, &vec![true, true, true, true], 7), vec![0, 1, 2]);
    assert_eq!(candidates(&tiles, &vec![true, false, true, true], 7), vec![0, 2]);
    assert_eq!(candidates(&tiles, &vec![false, false, false, false], 7), Vec::<usize>::new());
    assert_eq!(candidates(&tiles, &vec![true, true, true, true], 25), vec![2, 3]);
    assert_eq!(candidates(&tiles, &vec![true, true, true, true], 101), Vec::<usize>::new());
    assert_eq!(candidates(&Vec::new(), &Vec::new(), 0), Vec::<usize>::new());
}

#[test]
fn chosen_names_the_picked_tile() {
    let tiles = ChunkManager::chunk_texture_map();
    assert_eq!(chosen(&tiles, Some(0)), Some("asteroid_1".to_string()));
    assert_eq!(chosen(&tiles, Some(2)), Some("metal".to_string()));
    assert_eq!(chosen(&tiles, None), None);
}

#[test]
fn trials_respect_certain_and_impossible_tiles() {
    let tiles = vec![tile("sure", 0, 1, 3, 3), tile("never", 0, 1, 0, 3), tile("maybe", 0, 1, 1, 3)];
    let mut state = State::new(3);
    let mut maybe = 0;
    for _ in 0..600 {
        let hits = draw_trials(&tiles, &mut state.rng);
        assert_eq!(hits.len(), 3);
        assert!(hits[0]);
        assert!(!hits[1]);
        if hits[2] {
            maybe += 1;
        }
    }
    assert!(maybe > 120 && maybe < 280);
}

#[test]
fn cell_without_a_band_stays_background() {
    let tiles = ChunkManager::chunk_texture_map();
    let mut state = State::new(1);
    for value in [-1_200_000i64, 0, 299_999, 1_200_001] {
        for _ in 0..50 {
            assert_eq!(gen_cell(&tiles, &mut state.rng, value), None);
        }
    }
}

#[test]
fn cell_in_the_asteroid_band_is_always_filled() {
    let tiles = ChunkManager::chunk_texture_map();
    let mut state = State::new(1);
    let mut first = 0;
    let mut second = 0;
    for _ in 0..400 {
        let cell = gen_cell(&tiles, &mut state.rng, 500_000);
        match cell.as_deref() {
            Some("asteroid_1") => first += 1,
            Some("asteroid_2") => second += 1,
            other => panic!("unexpected cell {:?}", other),
        }
    }
    assert!(first > 100 && second > 100);
}

#[test]
fn metal_appears_only_in_its_band() {
    let tiles = ChunkManager::chunk_texture_map();
    let mut state = State::new(5);
    let mut metal = 0;
    for _ in 0..600 {
        if gen_cell(&tiles, &mut state.rng, 799_999).as_deref() == Some("metal") {
            panic!("metal below its band");
        }
        if gen_cell(&tiles, &mut state.rng, 800_000).as_deref() == Some("metal") {
            metal += 1;
        }
    }
    assert!(metal > 60 && metal < 260);
}

#[test]
fn cell_of_an_empty_registry_is_background() {
    let mut state = State::new(1);
    assert_eq!(gen_cell(&Vec::new(), &mut state.rng, 500_000), None);
}

#[test]
fn same_seed_gives_the_same_cells() {
    let tiles = ChunkManager::chunk_texture_map();
    let mut one = State::new(42);
    let mut two = State::new(42);
    for k in 0..200 {
        let value = 700_000 + k * 1000;
        assert_eq!(gen_cell(&tiles, &mut one.rng, value), gen_cell(&tiles, &mut two.rng, value));
    }
    assert_eq!(one.seed, 42);
}

#[test]
fn noise_must_have_the_shape_of_a_chunk() {
    assert!(check_noise(&flat_noise(0)));
    assert!(!check_noise(&Vec::new()));
    assert!(!check_noise(&vec![vec![0; 16]; 15]));
    assert!(!check_noise(&vec![vec![0; 16]; 17]));
    let mut short_row = flat_noise(0);
    short_row[9].pop();
    assert!(!check_noise(&short_row));
}

#[test]
fn gen_chunk_fills_cells_by_their_noise() {
    let mut manager = ChunkManager::new(State::new(9), 0);
    let mut noise = flat_noise(0);
    for j in 0..16 {
        noise[2][j] = 400_000;
        noise[3][j] = 1_000_000;
    }
    let data = manager.gen_chunk((5, 6), &noise).unwrap();
    assert_eq!(data.position, (5, 6));
    assert_eq!(data.grid.len(), 16);
    for (i, row) in data.grid.iter().enumerate() {
        assert_eq!(row.len(), 16);
        for cell in row.iter() {
            match i {
                2 => assert!(matches!(cell.as_deref(), Some("asteroid_1") | Some("asteroid_2"))),
                3 => assert!(matches!(
                    cell.as_deref(),
                    Some("asteroid_1") | Some("asteroid_2") | Some("metal")
                )),
                _ => assert!(cell.is_none()),
            }
        }
    }
}

#[test]
fn gen_chunk_refuses_a_noise_field_of_the_wrong_shape() {
    let mut manager = ChunkManager::new(State::new(9), 0);
    let noise = vec![vec![500_000; 16]; 3];
    assert_eq!(manager.gen_chunk((5, 6), &noise).unwrap_err(), LoadError::GenerationInconsistency);
    // The generator was not touched: the next chunk is the one a fresh state gives.
    let mut fresh = ChunkManager::new(State::new(9), 0);
    let full = flat_noise(900_000);
    assert_eq!(
        manager.gen_chunk((5, 6), &full).unwrap().grid,
        fresh.gen_chunk((5, 6), &full).unwrap().grid
    );
}
