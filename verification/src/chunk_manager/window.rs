//! Geometry of the resident window: which chunks surround the observer, and
//! which cells are too far away to stay.

use super::{CHUNK_DIST, CHUNK_SIZE, MAX_CHUNK, MIN_CHUNK};
use vstd::prelude::*;

verus! {

/// World positions are fixed-point: this many units make one cell.
pub const UNITS_PER_CELL: u32 = 1024;

/// A point of the world, in units.
#[derive(Clone, Copy, Debug, PartialEq, Eq)]
pub struct Position {
    pub x: i64,
    pub y: i64,
}

/// Half-extent of what the observer sees, in units.
#[derive(Clone, Copy, Debug, PartialEq, Eq)]
pub struct Viewport {
    pub half_width: u32,
    pub half_height: u32,
}

/// A half-open rectangle of chunk coordinates: `min` is inside, `max` is not.
#[derive(Clone, Copy, Debug, PartialEq, Eq)]
pub struct Window {
    pub min: (u32, u32),
    pub max: (u32, u32),
}

/// `a / b` rounded up, for positive `b`.
pub open spec fn ceil_div(a: int, b: int) -> int {
    (a + b - 1) / b
}

/// `v` forced into `lo ..= hi`.
pub open spec fn clamp(v: int, lo: int, hi: int) -> int {
    if v < lo {
        lo
    } else if v > hi {
        hi
    } else {
        v
    }
}

/// The chunk coordinate of a world coordinate: the coordinate in chunks,
/// rounded up, and held within what a `u32` can carry.
pub open spec fn chunk_of(coord: int) -> int {
    clamp(ceil_div(coord, CHUNK_SIZE as int * UNITS_PER_CELL as int), 0, u32::MAX as int)
}

/// How many chunks the window reaches to each side for a viewport
/// half-extent: the extent in whole cells, times the distance multiplier, in
/// chunks, each step rounded up.
pub open spec fn radius_of(extent: int) -> int {
    ceil_div(ceil_div(extent, UNITS_PER_CELL as int) * CHUNK_DIST as int, CHUNK_SIZE as int)
}

/// Lower window bound on one axis.
pub open spec fn window_low(center: int, radius: int) -> int {
    clamp(center - radius, MIN_CHUNK as int, MAX_CHUNK as int)
}

/// Upper window bound on one axis.
pub open spec fn window_high(center: int, radius: int) -> int {
    clamp(center + radius, MIN_CHUNK as int, MAX_CHUNK as int)
}

/// Square of the distance between the observer and a cell, in units.
pub open spec fn distance_sq(observer: Position, cell: (u32, u32)) -> int {
    let dx = observer.x as int - cell.0 as int * UNITS_PER_CELL as int;
    let dy = observer.y as int - cell.1 as int * UNITS_PER_CELL as int;
    dx * dx + dy * dy
}

/// Square of the distance beyond which a cell is evicted: the viewport's
/// diagonal times the distance multiplier.
pub open spec fn reach_sq(viewport: Viewport) -> int {
    let w = viewport.half_width as int;
    let h = viewport.half_height as int;
    CHUNK_DIST as int * CHUNK_DIST as int * (w * w + h * h)
}

/// A cell is out of range when its distance from the observer exceeds the
/// viewport's diagonal times the distance multiplier.
pub open spec fn out_of_range(observer: Position, viewport: Viewport, cell: (u32, u32)) -> bool {
    distance_sq(observer, cell) > reach_sq(viewport)
}

/// Square of one coordinate's distance between the observer and a cell.
fn offset_sq(observer: i64, cell: u32) -> (sq: u128)
    ensures
        sq == (observer as int - cell as int * UNITS_PER_CELL as int) * (observer as int
            - cell as int * UNITS_PER_CELL as int),
        sq <= 0x4000_0400_000F_FBFF_FFE0_0000_0010_0000,
{
    let d: i128 = observer as i128 - cell as i128 * UNITS_PER_CELL as i128;
    let m: u128 = if d < 0 {
        (-d) as u128
    } else {
        d as u128
    };
    assert(m <= 0x8000_03FF_FFFF_FC00);
    assert(m * m <= 0x4000_0400_000F_FBFF_FFE0_0000_0010_0000) by (nonlinear_arith)
        requires
            m <= 0x8000_03FF_FFFF_FC00,
    ;
    assert(m * m == d * d) by (nonlinear_arith)
        requires
            m == d || m == -d,
    ;
    m * m
}

/// Whether a cell is out of range of the observer.
pub fn is_out_of_range(observer: Position, viewport: Viewport, cell: (u32, u32)) -> (far: bool)
    ensures
        far == out_of_range(observer, viewport, cell),
{
    let dx: u128 = offset_sq(observer.x, cell.0);
    let dy: u128 = offset_sq(observer.y, cell.1);
    let w: u128 = viewport.half_width as u128;
    let h: u128 = viewport.half_height as u128;
    assert(w * w <= 0xFFFF_FFFF * 0xFFFF_FFFF) by (nonlinear_arith)
        requires
            w <= 0xFFFF_FFFF,
    ;
    assert(h * h <= 0xFFFF_FFFF * 0xFFFF_FFFF) by (nonlinear_arith)
        requires
            h <= 0xFFFF_FFFF,
    ;
    let reach: u128 = (CHUNK_DIST * CHUNK_DIST) as u128 * (w * w + h * h);
    dx + dy > reach
}

/// The chunk coordinate of one world coordinate.
pub fn chunk_index(coord: i64) -> (r: u32)
    ensures
        r == chunk_of(coord as int),
{
    let span: i64 = (CHUNK_SIZE * UNITS_PER_CELL) as i64;
    if coord <= 0 {
        0
    } else {
        let q: i64 = (coord - 1) / span + 1;
        assert(q == ceil_div(coord as int, span as int));
        if q > 0xffff_ffff {
            u32::MAX
        } else {
            q as u32
        }
    }
}

/// How many chunks the window reaches to each side of the observer's chunk.
pub fn window_radius(extent: u32) -> (r: u32)
    ensures
        r == radius_of(extent as int),
{
    let unit: u64 = UNITS_PER_CELL as u64;
    let side: u64 = CHUNK_SIZE as u64;
    let far: u64 = CHUNK_DIST as u64;
    let cells: u64 = (extent as u64 + unit - 1) / unit;
    assert(cells * far == cells * 2);
    let reach: u64 = (cells * far + side - 1) / side;
    reach as u32
}

/// One axis of the window: the bounds around `center`, held within the world.
fn axis_bounds(center: u32, radius: u32) -> (r: (u32, u32))
    ensures
        r.0 == window_low(center as int, radius as int),
        r.1 == window_high(center as int, radius as int),
        MIN_CHUNK <= r.0 <= r.1 <= MAX_CHUNK,
{
    let below: u32 = center.saturating_sub(radius);
    let low: u32 = if below < MIN_CHUNK {
        MIN_CHUNK
    } else if below > MAX_CHUNK {
        MAX_CHUNK
    } else {
        below
    };
    let above: u64 = center as u64 + radius as u64;
    let high: u32 = if above < MIN_CHUNK as u64 {
        MIN_CHUNK
    } else if above > MAX_CHUNK as u64 {
        MAX_CHUNK
    } else {
        above as u32
    };
    (low, high)
}

impl Window {
    /// Both axes lie within the world, lower bound first.
    pub open spec fn wf(self) -> bool {
        &&& MIN_CHUNK <= self.min.0 <= self.max.0 <= MAX_CHUNK
        &&& MIN_CHUNK <= self.min.1 <= self.max.1 <= MAX_CHUNK
    }

    /// The window around an observer, as a value of the model.
    pub open spec fn around(observer: Position, viewport: Viewport) -> Window {
        let cx = chunk_of(observer.x as int);
        let cy = chunk_of(observer.y as int);
        let rx = radius_of(viewport.half_width as int);
        let ry = radius_of(viewport.half_height as int);
        Window {
            min: (window_low(cx, rx) as u32, window_low(cy, ry) as u32),
            max: (window_high(cx, rx) as u32, window_high(cy, ry) as u32),
        }
    }

    /// Whether a chunk coordinate lies in the window.
    pub open spec fn contains(self, chunk: (u32, u32)) -> bool {
        &&& self.min.0 <= chunk.0 < self.max.0
        &&& self.min.1 <= chunk.1 < self.max.1
    }

    /// Number of chunk columns (first axis).
    pub open spec fn columns(self) -> nat {
        if self.max.0 > self.min.0 {
            (self.max.0 - self.min.0) as nat
        } else {
            0
        }
    }

    /// Number of chunks along the second axis.
    pub open spec fn rows(self) -> nat {
        if self.max.1 > self.min.1 {
            (self.max.1 - self.min.1) as nat
        } else {
            0
        }
    }

    /// Every chunk of the window, the second coordinate running fastest.
    pub open spec fn spec_chunks(self) -> Seq<(u32, u32)> {
        Seq::new(
            self.columns() * self.rows(),
            |k: int|
                (
                    (self.min.0 + k / self.rows() as int) as u32,
                    (self.min.1 + k % self.rows() as int) as u32,
                ),
        )
    }

    /// The window that should be resident around an observer. Its bounds
    /// never leave `MIN_CHUNK ..= MAX_CHUNK`, whatever the observer's place
    /// and the viewport's size, and the lower never exceeds the upper.
    pub fn new(observer: Position, viewport: Viewport) -> (w: Window)
        ensures
            w == Window::around(observer, viewport),
            w.wf(),
    {
        let cx: u32 = chunk_index(observer.x);
        let cy: u32 = chunk_index(observer.y);
        let rx: u32 = window_radius(viewport.half_width);
        let ry: u32 = window_radius(viewport.half_height);
        let x: (u32, u32) = axis_bounds(cx, rx);
        let y: (u32, u32) = axis_bounds(cy, ry);
        Window { min: (x.0, y.0), max: (x.1, y.1) }
    }

    /// The chunks of the window in the order in which they are loaded.
    pub fn chunks(&self) -> (list: Vec<(u32, u32)>)
        ensures
            list@ == self.spec_chunks(),
    {
        let mut list: Vec<(u32, u32)> = Vec::new();
        let ghost rows = self.rows() as int;
        let mut i: u32 = self.min.0;
        while i < self.max.0
            invariant
                rows == self.rows(),
                self.min.0 <= i,
                i - self.min.0 <= self.columns(),
                list@ == self.spec_chunks().subrange(0, (i - self.min.0) * rows),
            decreases self.max.0 - i,
        {
            let ghost base = (i - self.min.0) * rows;
            let mut j: u32 = self.min.1;
            proof {
                lemma_row_fits(self.columns() as int, rows, (i - self.min.0) as int);
            }
            while j < self.max.1
                invariant
                    rows == self.rows(),
                    self.min.0 <= i < self.max.0,
                    self.min.1 <= j,
                    j - self.min.1 <= rows,
                    base == (i - self.min.0) * rows,
                    base + rows <= self.spec_chunks().len(),
                    list@ == self.spec_chunks().subrange(0, base + (j - self.min.1)),
                decreases self.max.1 - j,
            {
                proof {
                    let k = base + (j - self.min.1);
                    lemma_row_index((i - self.min.0) as int, (j - self.min.1) as int, rows);
                    assert(self.spec_chunks()[k] == (i, j));
                    assert(self.spec_chunks().subrange(0, k + 1) == self.spec_chunks().subrange(
                        0,
                        k,
                    ).push((i, j)));
                }
                list.push((i, j));
                j = j + 1;
            }
            proof {
                assert((i + 1 - self.min.0) * rows == base + rows) by (nonlinear_arith)
                    requires
                        base == (i - self.min.0) * rows,
                ;
            }
            i = i + 1;
        }
        assert(list@ == self.spec_chunks()) by {
            assert(i - self.min.0 == self.columns());
            assert(self.spec_chunks().len() == (i - self.min.0) * rows);
        }
        list
    }
}

/// Window clamp: wherever the observer stands and whatever the viewport's
/// size, both bounds of the window lie within `MIN_CHUNK ..= MAX_CHUNK` on
/// both axes, the lower never above the upper, also where the observer's
/// chunk less the radius would fall below nought.
pub proof fn lemma_window_clamp(observer: Position, viewport: Viewport)
    ensures
        Window::around(observer, viewport).wf(),
{
}

/// The list of a window's chunks holds every chunk of the window, each
/// once, and no other.
pub proof fn lemma_chunks_cover(w: Window, chunk: (u32, u32))
    ensures
        w.spec_chunks().contains(chunk) <==> w.contains(chunk),
        w.spec_chunks().no_duplicates(),
{
    let list = w.spec_chunks();
    let rows = w.rows() as int;
    if w.contains(chunk) {
        let i = chunk.0 - w.min.0;
        let j = chunk.1 - w.min.1;
        lemma_row_fits(w.columns() as int, rows, i);
        lemma_row_index(i, j, rows);
        assert(list[i * rows + j] == chunk);
    }
    if list.contains(chunk) {
        let k = choose|k: int| 0 <= k < list.len() && list[k] == chunk;
        lemma_cell_of_index(k, w.columns() as int, rows);
    }
    assert forall|a: int, b: int| 0 <= a < list.len() && 0 <= b < list.len() && a != b implies list[a]
        != list[b] by {
        lemma_cell_of_index(a, w.columns() as int, rows);
        lemma_cell_of_index(b, w.columns() as int, rows);
        vstd::arithmetic::div_mod::lemma_fundamental_div_mod(a, rows);
        vstd::arithmetic::div_mod::lemma_fundamental_div_mod(b, rows);
    }
}

/// Place `k` of a row-major grid lies in a row of the grid, at a place of
/// that row.
proof fn lemma_cell_of_index(k: int, columns: int, rows: int)
    requires
        0 <= k < columns * rows,
        0 <= columns,
        0 <= rows,
    ensures
        0 < rows,
        0 <= k / rows < columns,
        0 <= k % rows < rows,
{
    assert(0 < rows) by (nonlinear_arith)
        requires
            0 <= k < columns * rows,
            0 <= rows,
    ;
    vstd::arithmetic::div_mod::lemma_fundamental_div_mod(k, rows);
    let q = k / rows;
    assert(0 <= q < columns) by (nonlinear_arith)
        requires
            k == rows * q + k % rows,
            0 <= k % rows < rows,
            0 <= k < columns * rows,
    ;
}

/// Row `i` of a grid with `columns` rows of length `rows` ends within it.
proof fn lemma_row_fits(columns: int, rows: int, i: int)
    requires
        0 <= i < columns,
        0 <= rows,
    ensures
        i * rows + rows <= columns * rows,
{
    assert(i * rows + rows <= columns * rows) by (nonlinear_arith)
        requires
            0 <= i < columns,
            0 <= rows,
    ;
}

/// Position `i * rows + j` of a row-major grid is row `i`, place `j`.
proof fn lemma_row_index(i: int, j: int, rows: int)
    requires
        0 <= i,
        0 <= j < rows,
    ensures
        (i * rows + j) / rows == i,
        (i * rows + j) % rows == j,
{
    vstd::arithmetic::div_mod::lemma_fundamental_div_mod_converse(i * rows + j, rows, i, j);
}

} // verus!
