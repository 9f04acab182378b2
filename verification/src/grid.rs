//! The maze grid: a `width x height` arena of cells addressed by
//! `(column, row)`.
//!
//! Each cell carries the two far-side wall flags (`border_right`,
//! `border_bottom`) so that every wall between two adjacent cells is
//! represented exactly once, by the left or upper cell of the pair, plus the
//! `visited` flag used during generation.

use vstd::prelude::*;

verus! {

/// The largest number of cells a grid may hold; keeps every index
/// computation comfortably inside `usize`.
pub const MAX_CELLS: usize = 65536;

/// One grid position's wall and generation state.
#[derive(Clone, Copy, Debug, PartialEq, Eq, Structural)]
pub struct Cell {
    /// A wall stands between this cell and its right neighbor.
    pub border_right: bool,
    /// A wall stands between this cell and the cell below.
    pub border_bottom: bool,
    /// The generator has reached this cell.
    pub visited: bool,
}

impl Cell {
    /// A fresh cell: both walls present, not yet visited.
    pub fn new() -> (c: Cell)
        ensures
            c == fresh_cell(),
    {
        Cell { border_right: true, border_bottom: true, visited: false }
    }
}

/// The state every cell starts in.
pub open spec fn fresh_cell() -> Cell {
    Cell { border_right: true, border_bottom: true, visited: false }
}

/// A rejected configuration value.
#[derive(Clone, Copy, Debug, PartialEq, Eq, Structural)]
pub enum ConfigError {
    /// The grid width is zero.
    ZeroWidth,
    /// The grid height is zero.
    ZeroHeight,
    /// The grid would hold more than `MAX_CELLS` cells.
    TooManyCells,
    /// The cell size is too small to hold the ball.
    BadCellSize,
    /// The ball radius is zero or at least half the cell size.
    BadRadius,
    /// The canvas would exceed the coordinate range.
    CanvasTooLarge,
    /// The ball start position is outside the canvas interior.
    StartOutOfBounds,
}

/// A `width x height` arena of cells, stored column by column.
#[derive(Debug)]
pub struct Grid {
    pub width: usize,
    pub height: usize,
    pub cells: Vec<Cell>,
}

impl Grid {
    /// The shape every grid handed out by this library has.
    pub open spec fn wf(&self) -> bool {
        &&& 1 <= self.width
        &&& 1 <= self.height
        &&& self.width * self.height <= MAX_CELLS
        &&& self.cells@.len() == self.width * self.height
    }

    /// Where cell `(c, r)` lives in the flat arena.
    pub open spec fn cell_index(&self, c: int, r: int) -> int {
        c * self.height + r
    }

    pub open spec fn cell_at(&self, c: int, r: int) -> Cell {
        self.cells@[self.cell_index(c, r)]
    }

    pub open spec fn in_bounds(&self, c: int, r: int) -> bool {
        &&& 0 <= c < self.width
        &&& 0 <= r < self.height
    }

    /// A grid of fresh cells, every wall present and nothing visited.
    pub fn new_full(width: usize, height: usize) -> (res: Result<Grid, ConfigError>)
        ensures
            width == 0 ==> res == Err::<Grid, ConfigError>(ConfigError::ZeroWidth),
            width != 0 && height == 0 ==> res == Err::<Grid, ConfigError>(ConfigError::ZeroHeight),
            width != 0 && height != 0 && width * height > MAX_CELLS ==> res == Err::<Grid, ConfigError>(
                ConfigError::TooManyCells,
            ),
            width != 0 && height != 0 && width * height <= MAX_CELLS ==> {
                &&& res is Ok
                &&& res->Ok_0.width == width
                &&& res->Ok_0.height == height
                &&& res->Ok_0.wf()
                &&& res->Ok_0.cells@ == Seq::new((width * height) as nat, |i: int| fresh_cell())
            },
    {
        if width == 0 {
            return Err(ConfigError::ZeroWidth);
        }
        if height == 0 {
            return Err(ConfigError::ZeroHeight);
        }
        if width > MAX_CELLS / height {
            proof {
                lemma_div_bound_exceeded(width as int, height as int, MAX_CELLS as int);
            }
            return Err(ConfigError::TooManyCells);
        }
        proof {
            lemma_div_bound_met(width as int, height as int, MAX_CELLS as int);
        }
        let count = width * height;
        let mut cells: Vec<Cell> = Vec::new();
        let mut i: usize = 0;
        while i < count
            invariant
                i <= count,
                cells@.len() == i,
                cells@ =~= Seq::new(i as nat, |j: int| fresh_cell()),
            decreases count - i,
        {
            cells.push(Cell::new());
            i = i + 1;
        }
        let g = Grid { width, height, cells };
        proof {
            assert(g.cells@ =~= Seq::new((width * height) as nat, |i: int| fresh_cell()));
        }
        Ok(g)
    }

    /// Read cell `(c, r)`.
    pub fn cell(&self, c: usize, r: usize) -> (k: Cell)
        requires
            self.wf(),
            self.in_bounds(c as int, r as int),
        ensures
            k == self.cell_at(c as int, r as int),
    {
        proof {
            lemma_cell_index_in_range(
                self.width as int,
                self.height as int,
                c as int,
                r as int,
            );
        }
        self.cells[c * self.height + r]
    }

    /// Whether a wall stands at the right edge of cell `(c, r)`.
    pub fn border_right(&self, c: usize, r: usize) -> (b: bool)
        requires
            self.wf(),
            self.in_bounds(c as int, r as int),
        ensures
            b == self.cell_at(c as int, r as int).border_right,
    {
        self.cell(c, r).border_right
    }

    /// Whether a wall stands at the bottom edge of cell `(c, r)`.
    pub fn border_bottom(&self, c: usize, r: usize) -> (b: bool)
        requires
            self.wf(),
            self.in_bounds(c as int, r as int),
        ensures
            b == self.cell_at(c as int, r as int).border_bottom,
    {
        self.cell(c, r).border_bottom
    }

    /// Overwrite cell `(c, r)`.
    pub fn set_cell(&mut self, c: usize, r: usize, cell: Cell)
        requires
            old(self).wf(),
            old(self).in_bounds(c as int, r as int),
        ensures
            final(self).wf(),
            final(self).width == old(self).width,
            final(self).height == old(self).height,
            final(self).cells@ == old(self).cells@.update(
                old(self).cell_index(c as int, r as int),
                cell,
            ),
    {
        proof {
            lemma_cell_index_in_range(
                self.width as int,
                self.height as int,
                c as int,
                r as int,
            );
        }
        let i = c * self.height + r;
        self.cells.set(i, cell);
    }
}

/// A flat index `c * height + r` stays below `width * height` whenever
/// `(c, r)` is in bounds.
pub proof fn lemma_cell_index_in_range(width: int, height: int, c: int, r: int)
    requires
        0 <= c < width,
        0 <= r < height,
    ensures
        0 <= c * height + r < width * height,
{
    assert(0 <= c * height + r < width * height) by (nonlinear_arith)
        requires
            0 <= c < width,
            0 <= r < height,
    ;
}

proof fn lemma_div_bound_exceeded(width: int, height: int, cap: int)
    requires
        1 <= width,
        1 <= height,
        0 <= cap,
        width > cap / height,
    ensures
        width * height > cap,
{
    assert(width * height > cap) by (nonlinear_arith)
        requires
            1 <= width,
            1 <= height,
            0 <= cap,
            width > cap / height,
    ;
}

proof fn lemma_div_bound_met(width: int, height: int, cap: int)
    requires
        1 <= width,
        1 <= height,
        0 <= cap,
        width <= cap / height,
    ensures
        width * height <= cap,
{
    assert(width * height <= cap) by (nonlinear_arith)
        requires
            1 <= width,
            1 <= height,
            0 <= cap,
            width <= cap / height,
    ;
}

/// How many `visited` flags in `s` are still clear.
pub open spec fn count_unvisited(s: Seq<Cell>) -> nat
    decreases s.len(),
{
    if s.len() == 0 {
        0
    } else {
        count_unvisited(s.drop_last()) + if s.last().visited {
            0nat
        } else {
            1nat
        }
    }
}

/// How many wall flags in `s` (both orientations together) are cleared.
pub open spec fn count_absent_walls(s: Seq<Cell>) -> nat
    decreases s.len(),
{
    if s.len() == 0 {
        0
    } else {
        count_absent_walls(s.drop_last()) + absent_in(s.last())
    }
}

/// The cleared wall flags of one cell.
pub open spec fn absent_in(c: Cell) -> nat {
    (if c.border_right {
        0nat
    } else {
        1nat
    }) + (if c.border_bottom {
        0nat
    } else {
        1nat
    })
}

/// Replacing one cell moves `count_unvisited` by the difference of the two
/// cells' contributions.
pub proof fn lemma_count_unvisited_update(s: Seq<Cell>, i: int, c: Cell)
    requires
        0 <= i < s.len(),
    ensures
        count_unvisited(s.update(i, c)) + (if s[i].visited {
            0nat
        } else {
            1nat
        }) == count_unvisited(s) + (if c.visited {
            0nat
        } else {
            1nat
        }),
    decreases s.len(),
{
    let t = s.update(i, c);
    if i == s.len() - 1 {
        assert(t.drop_last() =~= s.drop_last());
    } else {
        assert(t.drop_last() =~= s.drop_last().update(i, c));
        lemma_count_unvisited_update(s.drop_last(), i, c);
    }
}

/// Replacing one cell moves `count_absent_walls` by the difference of the
/// two cells' contributions.
pub proof fn lemma_count_absent_update(s: Seq<Cell>, i: int, c: Cell)
    requires
        0 <= i < s.len(),
    ensures
        count_absent_walls(s.update(i, c)) + absent_in(s[i]) == count_absent_walls(s)
            + absent_in(c),
    decreases s.len(),
{
    let t = s.update(i, c);
    if i == s.len() - 1 {
        assert(t.drop_last() =~= s.drop_last());
    } else {
        assert(t.drop_last() =~= s.drop_last().update(i, c));
        lemma_count_absent_update(s.drop_last(), i, c);
    }
}

/// A sequence whose cells are all visited has no unvisited cell to count.
pub proof fn lemma_count_unvisited_zero(s: Seq<Cell>)
    requires
        forall|i: int| 0 <= i < s.len() ==> s[i].visited,
    ensures
        count_unvisited(s) == 0,
    decreases s.len(),
{
    if s.len() > 0 {
        lemma_count_unvisited_zero(s.drop_last());
    }
}

/// A sequence of fresh cells has every cell unvisited and every wall present.
pub proof fn lemma_counts_fresh(s: Seq<Cell>)
    requires
        forall|i: int| 0 <= i < s.len() ==> s[i] == fresh_cell(),
    ensures
        count_unvisited(s) == s.len(),
        count_absent_walls(s) == 0,
    decreases s.len(),
{
    if s.len() > 0 {
        lemma_counts_fresh(s.drop_last());
    }
}

} // verus!
