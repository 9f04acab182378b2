//! The per-tick ball update: derive momentum from the raw tilt sample,
//! translate, clamp to the canvas and snap off maze walls.

use vstd::prelude::*;
use vstd::arithmetic::div_mod::{lemma_fundamental_div_mod, lemma_mod_bound};
use crate::grid::{ConfigError, Grid};

verus! {

/// The fixed divisor that maps a raw tilt reading to whole canvas units per
/// tick.
pub const TILT_SCALE: i32 = 200;

/// A raw tilt reading scaled down to canvas units, truncating toward zero.
pub open spec fn tilt_units(t: int) -> int {
    if t >= 0 {
        t / (TILT_SCALE as int)
    } else {
        -((-t) / (TILT_SCALE as int))
    }
}

/// The horizontal momentum a tilt sample yields: negative raw x means a tilt
/// to the right, so the sign flips.
pub open spec fn momentum_x_of(tx: int) -> int {
    -tilt_units(tx)
}

/// The vertical momentum a tilt sample yields.
pub open spec fn momentum_y_of(ty: int) -> int {
    tilt_units(ty)
}

/// One axis of the canvas clamp, applied exactly as the update applies it:
/// far edge first, then near edge.
pub open spec fn clamp_axis(v: int, radius: int, size: int) -> int {
    let v1 = if v + radius >= size {
        size - radius
    } else {
        v
    };
    if v1 - radius <= 0 {
        radius
    } else {
        v1
    }
}

/// The first cell the ball's bounding box touches on one axis.
pub open spec fn span_low(v: int, radius: int, cs: int) -> int {
    (v - radius) / cs
}

/// The last cell the ball's bounding box touches on one axis.
pub open spec fn span_high(v: int, radius: int, cs: int) -> int {
    (v + radius) / cs
}

/// Sets how far from the straddled wall a collision leaves the ball's
/// center: `cell_size - snap_offset` units, on whichever side the center
/// came from.
pub open spec fn snap_offset(cs: int) -> int {
    cs / 2 + 1
}

/// A right wall stands at cell `(c, r)`; positions off the grid hold no
/// wall.
pub open spec fn wall_right_at(g: Grid, c: int, r: int) -> bool {
    g.in_bounds(c, r) && g.cell_at(c, r).border_right
}

/// A bottom wall stands at cell `(c, r)`; positions off the grid hold no
/// wall.
pub open spec fn wall_bottom_at(g: Grid, c: int, r: int) -> bool {
    g.in_bounds(c, r) && g.cell_at(c, r).border_bottom
}

/// Holds the ball state and resolves one tick of motion against the
/// finished maze.
#[derive(Debug)]
pub struct BallController {
    pub grid: Grid,
    pub cell_size: i32,
    pub radius: i32,
    pub screen_width: i32,
    pub screen_height: i32,
    pub center_x: i32,
    pub center_y: i32,
    pub momentum_x: i32,
    pub momentum_y: i32,
}

impl BallController {
    /// The configuration and position invariant every controller handed out
    /// by this library keeps.
    pub open spec fn wf(&self) -> bool {
        &&& self.grid.wf()
        &&& 2 <= self.cell_size <= 1_000_000
        &&& 1 <= self.radius
        &&& 2 * self.radius < self.cell_size
        &&& self.screen_width == self.grid.width * self.cell_size
        &&& self.screen_height == self.grid.height * self.cell_size
        &&& self.screen_width <= 1_000_000
        &&& self.screen_height <= 1_000_000
        &&& self.radius <= self.center_x <= self.screen_width - self.radius
        &&& self.radius <= self.center_y <= self.screen_height - self.radius
    }

    /// Where the ball center lands on the x axis after momentum and clamp.
    pub open spec fn moved_x(self, tx: int) -> int {
        clamp_axis(self.center_x + momentum_x_of(tx), self.radius as int, self.screen_width as int)
    }

    /// Where the ball center lands on the y axis after momentum and clamp.
    pub open spec fn moved_y(self, ty: int) -> int {
        clamp_axis(self.center_y + momentum_y_of(ty), self.radius as int, self.screen_height as int)
    }

    /// The ball straddles a vertical cell boundary whose wall is present.
    pub open spec fn h_collision(self, tx: int, ty: int) -> bool {
        let x1 = self.moved_x(tx);
        let y1 = self.moved_y(ty);
        let rad = self.radius as int;
        let cs = self.cell_size as int;
        let left = span_low(x1, rad, cs);
        let right = span_high(x1, rad, cs);
        let top = span_low(y1, rad, cs);
        let bottom = span_high(y1, rad, cs);
        left != right && (wall_right_at(self.grid, left, top) || (wall_right_at(
            self.grid,
            left,
            bottom,
        ) && top != bottom))
    }

    /// The ball straddles a horizontal cell boundary whose wall is present.
    pub open spec fn v_collision(self, tx: int, ty: int) -> bool {
        let x1 = self.moved_x(tx);
        let y1 = self.moved_y(ty);
        let rad = self.radius as int;
        let cs = self.cell_size as int;
        let left = span_low(x1, rad, cs);
        let right = span_high(x1, rad, cs);
        let top = span_low(y1, rad, cs);
        let bottom = span_high(y1, rad, cs);
        top != bottom && (wall_bottom_at(self.grid, left, top) || (wall_bottom_at(
            self.grid,
            right,
            top,
        ) && left != right))
    }

    /// The x position one tick leaves the ball at: on a detected straddle
    /// the ball snaps to whichever side of the wall its center occupied
    /// before the tick, so a detected wall is never tunneled through.
    pub open spec fn tick_x(self, tx: int, ty: int) -> int {
        let x1 = self.moved_x(tx);
        let cs = self.cell_size as int;
        let left = span_low(x1, self.radius as int, cs);
        let wall = (left + 1) * cs;
        if self.h_collision(tx, ty) {
            if self.center_x <= wall {
                left * cs + snap_offset(cs)
            } else {
                wall + (cs - snap_offset(cs))
            }
        } else {
            x1
        }
    }

    /// The y position one tick leaves the ball at; see `tick_x`.
    pub open spec fn tick_y(self, tx: int, ty: int) -> int {
        let y1 = self.moved_y(ty);
        let cs = self.cell_size as int;
        let top = span_low(y1, self.radius as int, cs);
        let wall = (top + 1) * cs;
        if self.v_collision(tx, ty) {
            if self.center_y <= wall {
                top * cs + snap_offset(cs)
            } else {
                wall + (cs - snap_offset(cs))
            }
        } else {
            y1
        }
    }

    /// Build a controller over a finished grid, failing fast on any
    /// configuration the update could not keep safe.
    pub fn new(grid: Grid, cell_size: i32, radius: i32, start_x: i32, start_y: i32) -> (res:
        Result<BallController, ConfigError>)
        requires
            grid.wf(),
        ensures
            ({
                let cs = cell_size as int;
                let rad = radius as int;
                let sw = grid.width * cs;
                let sh = grid.height * cs;
                if !(2 <= cs <= 1_000_000) {
                    res == Err::<BallController, ConfigError>(ConfigError::BadCellSize)
                } else if !(1 <= rad && 2 * rad < cs) {
                    res == Err::<BallController, ConfigError>(ConfigError::BadRadius)
                } else if !(sw <= 1_000_000 && sh <= 1_000_000) {
                    res == Err::<BallController, ConfigError>(ConfigError::CanvasTooLarge)
                } else if !(rad <= start_x <= sw - rad && rad <= start_y <= sh - rad) {
                    res == Err::<BallController, ConfigError>(ConfigError::StartOutOfBounds)
                } else {
                    &&& res is Ok
                    &&& res->Ok_0.wf()
                    &&& res->Ok_0.grid == grid
                    &&& res->Ok_0.cell_size == cell_size
                    &&& res->Ok_0.radius == radius
                    &&& res->Ok_0.screen_width == sw
                    &&& res->Ok_0.screen_height == sh
                    &&& res->Ok_0.center_x == start_x
                    &&& res->Ok_0.center_y == start_y
                    &&& res->Ok_0.momentum_x == 0
                    &&& res->Ok_0.momentum_y == 0
                }
            }),
    {
        if cell_size < 2 || cell_size > 1_000_000 {
            return Err(ConfigError::BadCellSize);
        }
        if radius < 1 || (radius as i64) * 2 >= (cell_size as i64) {
            return Err(ConfigError::BadRadius);
        }
        proof {
            lemma_dims_bounded(grid.width as int, grid.height as int, cell_size as int);
        }
        let sw64 = (grid.width as i64) * (cell_size as i64);
        let sh64 = (grid.height as i64) * (cell_size as i64);
        if sw64 > 1_000_000 || sh64 > 1_000_000 {
            return Err(ConfigError::CanvasTooLarge);
        }
        let sw = sw64 as i32;
        let sh = sh64 as i32;
        if start_x < radius || start_x > sw - radius || start_y < radius || start_y > sh - radius {
            return Err(ConfigError::StartOutOfBounds);
        }
        Ok(
            BallController {
                grid,
                cell_size,
                radius,
                screen_width: sw,
                screen_height: sh,
                center_x: start_x,
                center_y: start_y,
                momentum_x: 0,
                momentum_y: 0,
            },
        )
    }

    /// One tick: recompute momentum from the raw tilt sample, translate,
    /// clamp to the canvas, and snap off any straddled wall, back toward
    /// the side the ball's center occupied before the tick. The center
    /// always ends inside `[radius, screen - radius]` on both axes.
    #[verifier::rlimit(60)]
    pub fn update(&mut self, tilt_x: i32, tilt_y: i32)
        requires
            old(self).wf(),
        ensures
            final(self).wf(),
            final(self).grid == old(self).grid,
            final(self).cell_size == old(self).cell_size,
            final(self).radius == old(self).radius,
            final(self).screen_width == old(self).screen_width,
            final(self).screen_height == old(self).screen_height,
            final(self).momentum_x == momentum_x_of(tilt_x as int),
            final(self).momentum_y == momentum_y_of(tilt_y as int),
            final(self).center_x == old(self).tick_x(tilt_x as int, tilt_y as int),
            final(self).center_y == old(self).tick_y(tilt_x as int, tilt_y as int),
            old(self).radius <= final(self).center_x <= old(self).screen_width - old(self).radius,
            old(self).radius <= final(self).center_y <= old(self).screen_height - old(self).radius,
    {
        proof {
            lemma_dims_bounded(
                self.grid.width as int,
                self.grid.height as int,
                self.cell_size as int,
            );
            lemma_canvas_at_least_one_cell(
                self.grid.width as int,
                self.grid.height as int,
                self.cell_size as int,
            );
        }
        let tm = tilt_step(tilt_x);
        let mx = -tm;
        let my = tilt_step(tilt_y);
        self.momentum_x = mx;
        self.momentum_y = my;
        let mut x1 = self.center_x + mx;
        if x1 + self.radius >= self.screen_width {
            x1 = self.screen_width - self.radius;
        }
        if x1 - self.radius <= 0 {
            x1 = self.radius;
        }
        let mut y1 = self.center_y + my;
        if y1 + self.radius >= self.screen_height {
            y1 = self.screen_height - self.radius;
        }
        if y1 - self.radius <= 0 {
            y1 = self.radius;
        }
        proof {
            lemma_snap_bounds(
                self.grid.width as int,
                self.cell_size as int,
                self.radius as int,
                x1 as int,
            );
            lemma_snap_bounds(
                self.grid.height as int,
                self.cell_size as int,
                self.radius as int,
                y1 as int,
            );
        }
        let cs = self.cell_size as usize;
        let left = ((x1 - self.radius) as usize) / cs;
        let right = ((x1 + self.radius) as usize) / cs;
        let top = ((y1 - self.radius) as usize) / cs;
        let bottom = ((y1 + self.radius) as usize) / cs;
        let offset = ((self.cell_size as u32) / 2) as i32 + 1;
        let h_hit = left != right && (wall_right_lookup(&self.grid, left, top)
            || (wall_right_lookup(&self.grid, left, bottom) && top != bottom));
        let v_hit = top != bottom && (wall_bottom_lookup(&self.grid, left, top)
            || (wall_bottom_lookup(&self.grid, right, top) && left != right));
        let wall_x = ((left as i32) + 1) * self.cell_size;
        let wall_y = ((top as i32) + 1) * self.cell_size;
        let new_x: i32;
        if h_hit {
            if self.center_x <= wall_x {
                new_x = (left as i32) * self.cell_size + offset;
            } else {
                proof {
                    lemma_snap_right_bounds(
                        self.grid.width as int,
                        self.cell_size as int,
                        self.radius as int,
                        x1 as int,
                        self.center_x as int,
                    );
                }
                new_x = wall_x + (self.cell_size - offset);
            }
        } else {
            new_x = x1;
        }
        let new_y: i32;
        if v_hit {
            if self.center_y <= wall_y {
                new_y = (top as i32) * self.cell_size + offset;
            } else {
                proof {
                    lemma_snap_right_bounds(
                        self.grid.height as int,
                        self.cell_size as int,
                        self.radius as int,
                        y1 as int,
                        self.center_y as int,
                    );
                }
                new_y = wall_y + (self.cell_size - offset);
            }
        } else {
            new_y = y1;
        }
        self.center_x = new_x;
        self.center_y = new_y;
    }
}

/// Scale one raw tilt reading down to canvas units, truncating toward zero.
fn tilt_step(t: i32) -> (m: i32)
    ensures
        m == tilt_units(t as int),
        -11_000_000 <= m <= 11_000_000,
{
    if t >= 0 {
        let a = t as u32;
        let q = a / (TILT_SCALE as u32);
        proof {
            lemma_fundamental_div_mod(a as int, 200);
            lemma_mod_bound(a as int, 200);
            assert(q <= 11_000_000) by (nonlinear_arith)
                requires
                    a as int == 200 * (q as int) + (a as int % 200),
                    0 <= a as int % 200,
                    a as int <= 0x7fff_ffff,
            ;
        }
        q as i32
    } else {
        let a = (-(t as i64)) as u64;
        let q = a / (TILT_SCALE as u64);
        proof {
            lemma_fundamental_div_mod(a as int, 200);
            lemma_mod_bound(a as int, 200);
            assert(q <= 11_000_000) by (nonlinear_arith)
                requires
                    a as int == 200 * (q as int) + (a as int % 200),
                    0 <= a as int % 200,
                    a as int <= 0x8000_0000,
            ;
        }
        -(q as i32)
    }
}

/// A right wall at `(c, r)`, where positions off the grid hold no wall.
fn wall_right_lookup(grid: &Grid, c: usize, r: usize) -> (b: bool)
    requires
        grid.wf(),
    ensures
        b == wall_right_at(*grid, c as int, r as int),
{
    if c < grid.width && r < grid.height {
        grid.border_right(c, r)
    } else {
        false
    }
}

/// A bottom wall at `(c, r)`, where positions off the grid hold no wall.
fn wall_bottom_lookup(grid: &Grid, c: usize, r: usize) -> (b: bool)
    requires
        grid.wf(),
    ensures
        b == wall_bottom_at(*grid, c as int, r as int),
{
    if c < grid.width && r < grid.height {
        grid.border_bottom(c, r)
    } else {
        false
    }
}

/// A grid's dimensions are each bounded by its cell cap, and the canvas
/// area is positive.
proof fn lemma_dims_bounded(w: int, h: int, cs: int)
    requires
        1 <= w,
        1 <= h,
        w * h <= 65536,
        1 <= cs <= 1_000_000,
    ensures
        w <= 65536,
        h <= 65536,
        0 < w * cs <= 65_536_000_000,
        0 < h * cs <= 65_536_000_000,
{
    assert(w <= 65536 && h <= 65536 && 0 < w * cs && 0 < h * cs && w * cs <= 65_536_000_000 && h
        * cs <= 65_536_000_000) by (nonlinear_arith)
        requires
            1 <= w,
            1 <= h,
            w * h <= 65536,
            1 <= cs <= 1_000_000,
    ;
}

/// A canvas spans at least one whole cell on each axis.
proof fn lemma_canvas_at_least_one_cell(w: int, h: int, cs: int)
    requires
        1 <= w,
        1 <= h,
        0 <= cs,
    ensures
        cs <= w * cs,
        cs <= h * cs,
{
    assert(cs <= w * cs && cs <= h * cs) by (nonlinear_arith)
        requires
            1 <= w,
            1 <= h,
            0 <= cs,
    ;
}

/// A clamped coordinate snaps to a cell whose near edge plus the snap
/// offset stays inside the canvas margin on both sides.
pub proof fn lemma_snap_bounds(w: int, cs: int, rad: int, x1: int)
    requires
        1 <= w,
        2 <= cs,
        1 <= rad,
        2 * rad < cs,
        rad <= x1 <= w * cs - rad,
        w * cs <= 1_000_000,
    ensures
        ({
            let left = span_low(x1, rad, cs);
            &&& 0 <= left < w
            &&& 0 <= left * cs <= 1_000_000
            &&& rad <= left * cs + snap_offset(cs) <= w * cs - rad
            &&& left * cs + snap_offset(cs) + rad <= (left + 1) * cs
            &&& 0 <= (left + 1) * cs <= w * cs
            &&& 0 <= span_high(x1, rad, cs) <= w
        }),
{
    let left = (x1 - rad) / cs;
    let m = (x1 - rad) % cs;
    let right = (x1 + rad) / cs;
    let m2 = (x1 + rad) % cs;
    let off = cs / 2;
    let e = cs % 2;
    lemma_fundamental_div_mod(x1 - rad, cs);
    lemma_mod_bound(x1 - rad, cs);
    lemma_fundamental_div_mod(x1 + rad, cs);
    lemma_mod_bound(x1 + rad, cs);
    lemma_fundamental_div_mod(cs, 2);
    lemma_mod_bound(cs, 2);
    assert((0 <= left < w) && (0 <= left * cs <= 1_000_000) && (rad <= left * cs + off + 1 <= w
        * cs - rad) && (left * cs + off + 1 + rad <= (left + 1) * cs) && (0 <= (left + 1) * cs <= w
        * cs) && (0 <= right <= w)) by (nonlinear_arith)
        requires
            1 <= w,
            2 <= cs,
            1 <= rad,
            2 * rad < cs,
            rad <= x1 <= w * cs - rad,
            w * cs <= 1_000_000,
            x1 - rad == cs * left + m,
            0 <= m < cs,
            x1 + rad == cs * right + m2,
            0 <= m2 < cs,
            cs == 2 * off + e,
            0 <= e < 2,
    ;
}

/// A ball whose center stood beyond the straddled wall snaps to the far
/// side of it: the snapped center keeps the ball's edge past the wall and
/// inside the canvas margin.
pub proof fn lemma_snap_right_bounds(w: int, cs: int, rad: int, x1: int, c_old: int)
    requires
        1 <= w,
        2 <= cs,
        1 <= rad,
        2 * rad < cs,
        rad <= x1 <= w * cs - rad,
        w * cs <= 1_000_000,
        rad <= c_old <= w * cs - rad,
        c_old > (span_low(x1, rad, cs) + 1) * cs,
    ensures
        ({
            let wall = (span_low(x1, rad, cs) + 1) * cs;
            let x2 = wall + (cs - snap_offset(cs));
            &&& rad <= x2 <= w * cs - rad
            &&& wall <= x2 - rad
        }),
{
    let left = (x1 - rad) / cs;
    let m = (x1 - rad) % cs;
    let off = cs / 2;
    let e = cs % 2;
    lemma_fundamental_div_mod(x1 - rad, cs);
    lemma_mod_bound(x1 - rad, cs);
    lemma_fundamental_div_mod(cs, 2);
    lemma_mod_bound(cs, 2);
    assert(({
        let wall = (left + 1) * cs;
        let x2 = wall + (cs - (off + 1));
        (rad <= x2 <= w * cs - rad) && wall <= x2 - rad
    })) by (nonlinear_arith)
        requires
            1 <= w,
            2 <= cs,
            1 <= rad,
            2 * rad < cs,
            rad <= x1 <= w * cs - rad,
            rad <= c_old <= w * cs - rad,
            c_old > (left + 1) * cs,
            x1 - rad == cs * left + m,
            0 <= m < cs,
            cs == 2 * off + e,
            0 <= e < 2,
    ;
}

/// No tunneling through a detected boundary: whenever the straddle
/// condition detects a wall, a ball that stood strictly on one side of that
/// wall before the tick ends the tick on the same side, whichever side that
/// was.
pub proof fn lemma_no_tunnel_horizontal(b: BallController, tx: int, ty: int)
    requires
        b.wf(),
        b.h_collision(tx, ty),
    ensures
        ({
            let wall = (span_low(b.moved_x(tx), b.radius as int, b.cell_size as int) + 1) * (
            b.cell_size as int);
            &&& (b.center_x + b.radius <= wall ==> b.tick_x(tx, ty) + b.radius <= wall)
            &&& (b.center_x - b.radius >= wall ==> b.tick_x(tx, ty) - b.radius >= wall)
        }),
{
    lemma_canvas_at_least_one_cell(b.grid.width as int, b.grid.height as int, b.cell_size as int);
    lemma_snap_bounds(b.grid.width as int, b.cell_size as int, b.radius as int, b.moved_x(tx));
    let wall = (span_low(b.moved_x(tx), b.radius as int, b.cell_size as int) + 1) * (
    b.cell_size as int);
    if b.center_x - b.radius >= wall {
        lemma_snap_right_bounds(
            b.grid.width as int,
            b.cell_size as int,
            b.radius as int,
            b.moved_x(tx),
            b.center_x as int,
        );
    }
}

/// The vertical twin of `lemma_no_tunnel_horizontal`.
pub proof fn lemma_no_tunnel_vertical(b: BallController, tx: int, ty: int)
    requires
        b.wf(),
        b.v_collision(tx, ty),
    ensures
        ({
            let wall = (span_low(b.moved_y(ty), b.radius as int, b.cell_size as int) + 1) * (
            b.cell_size as int);
            &&& (b.center_y + b.radius <= wall ==> b.tick_y(tx, ty) + b.radius <= wall)
            &&& (b.center_y - b.radius >= wall ==> b.tick_y(tx, ty) - b.radius >= wall)
        }),
{
    lemma_canvas_at_least_one_cell(b.grid.width as int, b.grid.height as int, b.cell_size as int);
    lemma_snap_bounds(b.grid.height as int, b.cell_size as int, b.radius as int, b.moved_y(ty));
    let wall = (span_low(b.moved_y(ty), b.radius as int, b.cell_size as int) + 1) * (
    b.cell_size as int);
    if b.center_y - b.radius >= wall {
        lemma_snap_right_bounds(
            b.grid.height as int,
            b.cell_size as int,
            b.radius as int,
            b.moved_y(ty),
            b.center_y as int,
        );
    }
}

} // verus!
