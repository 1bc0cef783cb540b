use paraselene::chunk_manager::window::{
    chunk_index, is_out_of_range, window_radius, Position, Viewport, Window, UNITS_PER_CELL,
};
use paraselene::chunk_manager::{ChunkManager, MAX_CHUNK, MIN_CHUNK};

const CELL: i64 = UNITS_PER_CELL as i64;

#[test]
fn chunk_index_rounds_up() {
    assert_eq!(chunk_index(0), 0);
    assert_eq!(chunk_index(1), 1);
    assert_eq!(chunk_index(16 * CELL), 1);
    assert_eq!(chunk_index(16 * CELL + 1), 2);
    assert_eq!(chunk_index(100 * CELL), 7);
}

#[test]
fn chunk_index_never_goes_below_nought() {
    assert_eq!(chunk_index(-1), 0);
    assert_eq!(chunk_index(-16 * CELL - 1), 0);
    assert_eq!(chunk_index(i64::MIN), 0);
}

#[test]
fn chunk_index_stops_at_the_greatest_number() {
    assert_eq!(chunk_index(i64::MAX), u32::MAX);
    assert_eq!(chunk_index(16 * CELL * 0xffff_ffff), u32::MAX);
    assert_eq!(chunk_index(16 * CELL * 0xffff_fffe), 0xffff_fffe);
}

#[test]
fn chunk_pos_takes_both_axes() {
    let pos = Position { x: 0, y: 100 * CELL };
    assert_eq!(ChunkManager::chunk_pos(pos), (0, 7));
}

#[test]
fn radius_of_common_viewports() {
    assert_eq!(window_radius(0), 0);
    assert_eq!(window_radius(1), 1);
    assert_eq!(window_radius(8 * 1024), 1);
    assert_eq!(window_radius(8 * 1024 + 1), 2);
    assert_eq!(window_radius(25 * 1024), 4);
    assert_eq!(window_radius(u32::MAX), 524288);
}

#[test]
fn window_around_chunk_five() {
    let observer = Position { x: 5 * 16 * CELL, y: 5 * 16 * CELL };
    let viewport = Viewport { half_width: 8 * 1024, half_height: 8 * 1024 };
    let w = Window::new(observer, viewport);
    assert_eq!(w.min, (4, 4));
    assert_eq!(w.max, (6, 6));
    assert_eq!(w.chunks(), vec![(4, 4), (4, 5), (5, 4), (5, 5)]);
}

#[test]
fn window_is_clamped_near_origin() {
    let observer = Position { x: 0, y: -50 };
    let viewport = Viewport { half_width: 25 * 1024, half_height: 25 * 1024 };
    let w = Window::new(observer, viewport);
    assert_eq!(w.min, (MIN_CHUNK, MIN_CHUNK));
    assert_eq!(w.max, (4, 4));
}

#[test]
fn window_collapses_below_the_least_chunk() {
    let observer = Position { x: 0, y: 0 };
    let viewport = Viewport { half_width: 1024, half_height: 1024 };
    let w = Window::new(observer, viewport);
    assert_eq!(w.min, (MIN_CHUNK, MIN_CHUNK));
    assert_eq!(w.max, (MIN_CHUNK, MIN_CHUNK));
    assert!(w.chunks().is_empty());
}

#[test]
fn window_collapses_beyond_the_greatest_chunk() {
    let observer = Position { x: i64::MAX, y: 700 * 16 * CELL };
    let viewport = Viewport { half_width: 25 * 1024, half_height: 25 * 1024 };
    let w = Window::new(observer, viewport);
    assert_eq!(w.min, (MAX_CHUNK, MAX_CHUNK));
    assert_eq!(w.max, (MAX_CHUNK, MAX_CHUNK));
    assert!(w.chunks().is_empty());
}

#[test]
fn window_bounds_hold_for_many_observers() {
    let places = [i64::MIN, -1, 0, 1, 16 * CELL, 300 * 16 * CELL, 625 * 16 * CELL, i64::MAX];
    let extents = [0u32, 1, 1024, 25 * 1024, 1 << 20, u32::MAX];
    for &x in places.iter() {
        for &y in places.iter() {
            for &e in extents.iter() {
                let w = Window::new(
                    Position { x, y },
                    Viewport { half_width: e, half_height: e },
                );
                assert!(MIN_CHUNK <= w.min.0 && w.min.0 <= w.max.0 && w.max.0 <= MAX_CHUNK);
                assert!(MIN_CHUNK <= w.min.1 && w.min.1 <= w.max.1 && w.max.1 <= MAX_CHUNK);
            }
        }
    }
}

#[test]
fn chunks_run_second_coordinate_fastest() {
    let w = Window { min: (2, 7), max: (4, 10) };
    assert_eq!(w.chunks(), vec![(2, 7), (2, 8), (2, 9), (3, 7), (3, 8), (3, 9)]);
}

#[test]
fn chunks_of_a_reversed_window_are_none() {
    let w = Window { min: (4, 4), max: (2, 9) };
    assert!(w.chunks().is_empty());
    let w = Window { min: (4, 9), max: (6, 9) };
    assert!(w.chunks().is_empty());
}

#[test]
fn out_of_range_is_strictly_beyond_the_reach() {
    let observer = Position { x: 0, y: 0 };
    let viewport = Viewport { half_width: 3 * 1024, half_height: 4 * 1024 };
    // The diagonal is 5 cells, the reach 10 cells.
    assert!(!is_out_of_range(observer, viewport, (10, 0)));
    assert!(!is_out_of_range(observer, viewport, (6, 8)));
    assert!(is_out_of_range(observer, viewport, (11, 0)));
    assert!(is_out_of_range(observer, viewport, (6, 9)));
}

#[test]
fn out_of_range_counts_fractions_of_a_cell() {
    let viewport = Viewport { half_width: 3 * 1024, half_height: 4 * 1024 };
    assert!(is_out_of_range(Position { x: -1, y: 0 }, viewport, (10, 0)));
    assert!(!is_out_of_range(Position { x: 1, y: 0 }, viewport, (10, 0)));
}

#[test]
fn out_of_range_at_the_ends_of_the_number_line() {
    let viewport = Viewport { half_width: u32::MAX, half_height: u32::MAX };
    assert!(is_out_of_range(Position { x: i64::MIN, y: i64::MIN }, viewport, (u32::MAX, u32::MAX)));
    assert!(is_out_of_range(Position { x: i64::MAX, y: i64::MAX }, viewport, (0, 0)));
    assert!(!is_out_of_range(Position { x: 0, y: 0 }, viewport, (u32::MAX / 1024, 0)));
}
