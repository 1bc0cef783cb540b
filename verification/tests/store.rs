use paraselene::chunk_manager::store::{chunk_file, push_decimal, LoadError, Resolution, Stored};
use paraselene::chunk_manager::{ChunkData, ChunkManager};
use paraselene::state::State;

fn flat_noise(value: i64) -> Vec<Vec<i64>> {
    vec![vec![value; 16]; 16]
}

fn sample_record() -> ChunkData {
    let mut data = ChunkData::new((5, 5));
    data.grid[0][0] = Some("metal".to_string());
    data.grid[7][9] = Some("asteroid_1".to_string());
    data.grid[15][15] = Some("unknown".to_string());
    data
}

#[test]
fn file_key_is_both_coordinates_with_a_comma() {
    assert_eq!(chunk_file((0, 0)), "0,0.json");
    assert_eq!(chunk_file((5, 12)), "5,12.json");
    assert_eq!(chunk_file((625, 2)), "625,2.json");
    assert_eq!(chunk_file((u32::MAX, 10)), "4294967295,10.json");
    assert_eq!(ChunkManager::chunk_file((100, 1000)), "100,1000.json");
}

#[test]
fn push_decimal_appends_digits() {
    let mut text = String::from("n=");
    push_decimal(&mut text, 0);
    push_decimal(&mut text, 907);
    assert_eq!(text, "n=0907");
    for n in [1u32, 9, 10, 11, 99, 100, 101, 65535, 1_000_000, 4_294_967_295] {
        let mut text = String::new();
        push_decimal(&mut text, n);
        assert_eq!(text, format!("{}", n));
    }
}

#[test]
fn empty_record_is_all_background() {
    let data = ChunkData::new((3, 8));
    assert_eq!(data.position, (3, 8));
    assert_eq!(data.grid.len(), 16);
    assert!(data.grid.iter().all(|row| row.len() == 16 && row.iter().all(|c| c.is_none())));
    assert!(data.is_square());
}

#[test]
fn is_square_wants_sixteen_by_sixteen() {
    let mut data = ChunkData::new((0, 0));
    data.grid[4].push(None);
    assert!(!data.is_square());
    let mut data = ChunkData::new((0, 0));
    data.grid.pop();
    assert!(!data.is_square());
    let data = ChunkData { position: (0, 0), grid: Vec::new() };
    assert!(!data.is_square());
}

#[test]
fn existing_record_is_answered_verbatim() {
    let mut manager = ChunkManager::new(State::new(1), 0);
    let stored = Stored::Present(sample_record());
    let result = manager.load_or_generate((5, 5), stored, &flat_noise(500_000));
    match result.unwrap() {
        Resolution::Existing(data) => {
            assert_eq!(data.position, (5, 5));
            assert_eq!(data.grid, sample_record().grid);
        }
        Resolution::Generated(_) => panic!("generated over an existing record"),
    }
}

#[test]
fn loading_an_existing_record_twice_gives_the_same_grid() {
    let mut manager = ChunkManager::new(State::new(1), 0);
    let noise = flat_noise(500_000);
    let first = manager.load_or_generate((5, 5), Stored::Present(sample_record()), &noise).unwrap();
    let second = manager.load_or_generate((5, 5), Stored::Present(sample_record()), &noise).unwrap();
    assert!(!first.must_write());
    assert!(!second.must_write());
    assert_eq!(first.into_record().grid, second.into_record().grid);
}

#[test]
fn existing_record_never_runs_the_generator() {
    let noise = flat_noise(900_000);
    let mut used = ChunkManager::new(State::new(77), 0);
    for _ in 0..5 {
        used.load_or_generate((5, 5), Stored::Present(sample_record()), &noise).unwrap();
        used.load_or_generate((5, 5), Stored::Corrupt, &noise).unwrap_err();
    }
    let mut fresh = ChunkManager::new(State::new(77), 0);
    assert_eq!(
        used.gen_chunk((1, 1), &noise).unwrap().grid,
        fresh.gen_chunk((1, 1), &noise).unwrap().grid
    );
}

#[test]
fn absent_record_is_generated_and_marked_for_writing() {
    let mut manager = ChunkManager::new(State::new(1), 0);
    let result = manager.load_or_generate((4, 6), Stored::Absent, &flat_noise(500_000)).unwrap();
    assert!(result.must_write());
    let data = result.into_record();
    assert_eq!(data.position, (4, 6));
    assert!(data.is_square());
    assert!(data.grid.iter().flatten().all(|c| c.is_some()));
}

#[test]
fn corrupt_record_is_a_read_error() {
    let mut manager = ChunkManager::new(State::new(1), 0);
    let result = manager.load_or_generate((4, 6), Stored::Corrupt, &flat_noise(500_000));
    assert_eq!(result.unwrap_err(), LoadError::StorageRead);
}

#[test]
fn malformed_record_is_a_read_error() {
    let mut manager = ChunkManager::new(State::new(1), 0);
    let mut data = sample_record();
    data.grid[3].pop();
    let result = manager.load_or_generate((5, 5), Stored::Present(data), &flat_noise(500_000));
    assert_eq!(result.unwrap_err(), LoadError::StorageRead);
}

#[test]
fn absent_record_with_bad_noise_is_a_generation_error() {
    let mut manager = ChunkManager::new(State::new(1), 0);
    let result = manager.load_or_generate((5, 5), Stored::Absent, &Vec::new());
    assert_eq!(result.unwrap_err(), LoadError::GenerationInconsistency);
}

#[test]
fn errors_say_what_went_wrong() {
    assert_eq!(LoadError::StorageRead.message(), "existing chunk record is unreadable or malformed");
    assert_eq!(LoadError::StorageWrite.message(), "new chunk record could not be written");
    assert_eq!(LoadError::GenerationInconsistency.message(), "noise field does not fit the chunk");
}

#[test]
fn different_chunks_have_different_keys() {
    assert_eq!(chunk_file((1, 23)), "1,23.json");
    assert_eq!(chunk_file((12, 3)), "12,3.json");
    let mut keys = std::collections::HashSet::new();
    for x in 0..40u32 {
        for y in 0..40u32 {
            assert!(keys.insert(chunk_file((x * 7, y * 13))));
        }
    }
}
