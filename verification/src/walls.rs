//! Extraction of the wall segments of a finished grid for one-time
//! rendering.

use vstd::prelude::*;
use crate::grid::Grid;

verus! {

/// A point of the canvas, in canvas units.
#[derive(Clone, Copy, Debug, PartialEq, Eq, Structural)]
pub struct Point {
    pub x: i32,
    pub y: i32,
}

/// An ordered pair of canvas points.
#[derive(Clone, Copy, Debug, PartialEq, Eq, Structural)]
pub struct WallSegment {
    pub from: Point,
    pub to: Point,
}

/// The segments cell `(c, r)` contributes: its right wall, then its bottom
/// wall, each only where the flag is still set.
pub open spec fn cell_segments(g: Grid, cs: int, c: int, r: int) -> Seq<WallSegment> {
    (if g.cell_at(c, r).border_right {
        seq![
            WallSegment {
                from: Point { x: ((c + 1) * cs) as i32, y: (r * cs) as i32 },
                to: Point { x: ((c + 1) * cs) as i32, y: ((r + 1) * cs) as i32 },
            },
        ]
    } else {
        Seq::<WallSegment>::empty()
    }) + (if g.cell_at(c, r).border_bottom {
        seq![
            WallSegment {
                from: Point { x: (c * cs) as i32, y: ((r + 1) * cs) as i32 },
                to: Point { x: ((c + 1) * cs) as i32, y: ((r + 1) * cs) as i32 },
            },
        ]
    } else {
        Seq::<WallSegment>::empty()
    })
}

/// The segments of the first `r` cells of column `c`, top to bottom.
pub open spec fn column_segments(g: Grid, cs: int, c: int, r: int) -> Seq<WallSegment>
    decreases r,
{
    if r <= 0 {
        Seq::<WallSegment>::empty()
    } else {
        column_segments(g, cs, c, r - 1) + cell_segments(g, cs, c, r - 1)
    }
}

/// The segments of the first `c` whole columns, left to right.
pub open spec fn grid_segments_upto(g: Grid, cs: int, c: int) -> Seq<WallSegment>
    decreases c,
{
    if c <= 0 {
        Seq::<WallSegment>::empty()
    } else {
        grid_segments_upto(g, cs, c - 1) + column_segments(g, cs, c - 1, g.height as int)
    }
}

/// Every wall segment of the grid, column-major, top to bottom within a
/// column, right wall before bottom wall per cell.
pub open spec fn wall_segments(g: Grid, cs: int) -> Seq<WallSegment> {
    grid_segments_upto(g, cs, g.width as int)
}

/// Converts a finished grid into the flat list of its wall segments.
pub struct WallExtractor {}

impl WallExtractor {
    /// The segments of `grid` with cells `cell_size` units square.
    ///
    /// Extraction reads the grid and nothing else, so the result is the same
    /// on every call over an unmodified grid.
    pub fn extract(grid: &Grid, cell_size: i32) -> (walls: Vec<WallSegment>)
        requires
            grid.wf(),
            1 <= cell_size,
            grid.width * cell_size <= 1_000_000,
            grid.height * cell_size <= 1_000_000,
        ensures
            walls@ == wall_segments(*grid, cell_size as int),
    {
        let mut walls: Vec<WallSegment> = Vec::new();
        let mut c: usize = 0;
        while c < grid.width
            invariant
                grid.wf(),
                1 <= cell_size,
                grid.width * cell_size <= 1_000_000,
                grid.height * cell_size <= 1_000_000,
                c <= grid.width,
                walls@ == grid_segments_upto(*grid, cell_size as int, c as int),
            decreases grid.width - c,
        {
            let mut r: usize = 0;
            while r < grid.height
                invariant
                    grid.wf(),
                    1 <= cell_size,
                    grid.width * cell_size <= 1_000_000,
                    grid.height * cell_size <= 1_000_000,
                    c < grid.width,
                    r <= grid.height,
                    walls@ == grid_segments_upto(*grid, cell_size as int, c as int)
                        + column_segments(*grid, cell_size as int, c as int, r as int),
                decreases grid.height - r,
            {
                proof {
                    lemma_segment_coords_fit(
                        grid.width as int,
                        grid.height as int,
                        cell_size as int,
                        c as int,
                        r as int,
                    );
                }
                let x0 = (c as i32) * cell_size;
                let x1 = (c as i32 + 1) * cell_size;
                let y0 = (r as i32) * cell_size;
                let y1 = (r as i32 + 1) * cell_size;
                let cell = grid.cell(c, r);
                if cell.border_right {
                    walls.push(
                        WallSegment {
                            from: Point { x: x1, y: y0 },
                            to: Point { x: x1, y: y1 },
                        },
                    );
                }
                if cell.border_bottom {
                    walls.push(
                        WallSegment {
                            from: Point { x: x0, y: y1 },
                            to: Point { x: x1, y: y1 },
                        },
                    );
                }
                r = r + 1;
                proof {
                    assert(walls@ =~= grid_segments_upto(*grid, cell_size as int, c as int)
                        + column_segments(*grid, cell_size as int, c as int, r as int));
                }
            }
            c = c + 1;
            proof {
                assert(walls@ =~= grid_segments_upto(*grid, cell_size as int, c as int));
            }
        }
        walls
    }
}

/// Segment endpoint coordinates stay far inside `i32` range.
proof fn lemma_segment_coords_fit(w: int, h: int, cs: int, c: int, r: int)
    requires
        1 <= cs,
        0 <= c < w,
        0 <= r < h,
        w * cs <= 1_000_000,
        h * cs <= 1_000_000,
    ensures
        0 <= c * cs,
        (c + 1) * cs <= 1_000_000,
        0 <= r * cs,
        (r + 1) * cs <= 1_000_000,
        c + 1 <= 1_000_000,
        r + 1 <= 1_000_000,
        c * cs <= 1_000_000,
        r * cs <= 1_000_000,
{
    assert(0 <= c * cs && (c + 1) * cs <= w * cs && 0 <= r * cs && (r + 1) * cs <= h * cs && c + 1
        <= (c + 1) * cs && r + 1 <= (r + 1) * cs && c * cs <= (c + 1) * cs && r * cs <= (r + 1)
        * cs) by (nonlinear_arith)
        requires
            1 <= cs,
            0 <= c < w,
            0 <= r < h,
    ;
}

/// Extraction is a function of the grid alone: any two segment lists that
/// both equal the extraction of one unmodified grid are the same list,
/// element for element and in the same order.
pub proof fn lemma_extract_idempotent(
    g: Grid,
    cs: int,
    first: Seq<WallSegment>,
    second: Seq<WallSegment>,
)
    requires
        first == wall_segments(g, cs),
        second == wall_segments(g, cs),
    ensures
        first == second,
{
}

} // verus!
