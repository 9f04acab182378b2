//! Randomized depth-first maze generation.
//!
//! Starting from the origin, the generator repeatedly looks at the cell on
//! top of its backtracking stack, collects the unvisited grid neighbors in
//! the fixed order left, up, right, down, and either pops (no candidates) or
//! draws one candidate at random, clears the wall between the two cells and
//! pushes the neighbor. Carving stops when the stack drains, at which point
//! every cell has been visited and exactly `width * height - 1` wall flags
//! have been cleared.

use vstd::prelude::*;
use crate::grid::{
    Cell, ConfigError, Grid, MAX_CELLS, count_absent_walls, count_unvisited, fresh_cell,
    lemma_cell_index_in_range, lemma_count_absent_update, lemma_count_unvisited_update,
    lemma_count_unvisited_zero, lemma_counts_fresh,
};
use crate::reach::{
    cell_i, connected, inv_connected, lemma_closed_all_visited, lemma_connected_extend,
    lemma_connected_monotone, lemma_connected_refl, neighbors_visited, pos_in_bounds,
    step_open, walls_monotone,
};
use crate::rng::{RandomSource, draw_head, draw_tail, remaining_draws};

verus! {

/// One of the four moves the generator can carve.
#[derive(Clone, Copy, Debug, PartialEq, Eq, Structural)]
pub enum Dir {
    Left,
    Up,
    Right,
    Down,
}

/// The position one step from `(c, r)` in direction `d`.
pub open spec fn neighbor_of(c: int, r: int, d: Dir) -> (int, int) {
    match d {
        Dir::Left => (c - 1, r),
        Dir::Up => (c, r - 1),
        Dir::Right => (c + 1, r),
        Dir::Down => (c, r + 1),
    }
}

/// The unvisited in-bounds neighbors of `(c, r)`, in the fixed evaluation
/// order left, up, right, down.
pub open spec fn dir_candidates(cells: Seq<Cell>, w: nat, h: nat, c: int, r: int) -> Seq<Dir> {
    (if c > 0 && !cell_i(cells, h, c - 1, r).visited {
        seq![Dir::Left]
    } else {
        Seq::<Dir>::empty()
    }) + (if r > 0 && !cell_i(cells, h, c, r - 1).visited {
        seq![Dir::Up]
    } else {
        Seq::<Dir>::empty()
    }) + (if c + 1 < w && !cell_i(cells, h, c + 1, r).visited {
        seq![Dir::Right]
    } else {
        Seq::<Dir>::empty()
    }) + (if r + 1 < h && !cell_i(cells, h, c, r + 1).visited {
        seq![Dir::Down]
    } else {
        Seq::<Dir>::empty()
    })
}

/// Carving a move from `(c, r)` in direction `d`: the wall between the two
/// cells is cleared on whichever cell's far-side flag represents it, and the
/// neighbor is marked visited.
pub open spec fn apply_move(cells: Seq<Cell>, h: nat, c: int, r: int, d: Dir) -> Seq<Cell> {
    let nb = neighbor_of(c, r, d);
    let ni = nb.0 * h + nb.1;
    let i = c * h + r;
    match d {
        Dir::Left => cells.update(
            ni,
            Cell { border_right: false, border_bottom: cells[ni].border_bottom, visited: true },
        ),
        Dir::Up => cells.update(
            ni,
            Cell { border_right: cells[ni].border_right, border_bottom: false, visited: true },
        ),
        Dir::Right => cells.update(
            i,
            Cell {
                border_right: false,
                border_bottom: cells[i].border_bottom,
                visited: cells[i].visited,
            },
        ).update(
            ni,
            Cell {
                border_right: cells[ni].border_right,
                border_bottom: cells[ni].border_bottom,
                visited: true,
            },
        ),
        Dir::Down => cells.update(
            i,
            Cell {
                border_right: cells[i].border_right,
                border_bottom: false,
                visited: cells[i].visited,
            },
        ).update(
            ni,
            Cell {
                border_right: cells[ni].border_right,
                border_bottom: cells[ni].border_bottom,
                visited: true,
            },
        ),
    }
}

/// The arena the generator starts from: every wall present, only the origin
/// visited.
pub open spec fn start_cells(w: nat, h: nat) -> Seq<Cell> {
    Seq::new(w * h, |i: int| fresh_cell()).update(
        0,
        Cell { border_right: true, border_bottom: true, visited: true },
    )
}

/// The whole carving run as a function of the recorded draw sequence: the
/// arena that remains when the stack has drained.
pub open spec fn carve_rec(
    cells: Seq<Cell>,
    w: nat,
    h: nat,
    stack: Seq<(usize, usize)>,
    draws: Seq<u32>,
) -> Seq<Cell>
    decreases count_unvisited(cells), stack.len(),
    via carve_rec_dec
{
    if stack.len() == 0 {
        cells
    } else {
        let c = stack.last().0 as int;
        let r = stack.last().1 as int;
        if !(cells.len() == w * h && c < w && r < h) {
            cells
        } else {
            let cands = dir_candidates(cells, w, h, c, r);
            if cands.len() == 0 {
                carve_rec(cells, w, h, stack.drop_last(), draws)
            } else {
                let d = cands[draw_head(draws) as int % cands.len() as int];
                let nb = neighbor_of(c, r, d);
                carve_rec(
                    apply_move(cells, h, c, r, d),
                    w,
                    h,
                    stack.push((nb.0 as usize, nb.1 as usize)),
                    draw_tail(draws),
                )
            }
        }
    }
}

#[via_fn]
proof fn carve_rec_dec(
    cells: Seq<Cell>,
    w: nat,
    h: nat,
    stack: Seq<(usize, usize)>,
    draws: Seq<u32>,
) {
    if stack.len() > 0 {
        let c = stack.last().0 as int;
        let r = stack.last().1 as int;
        if cells.len() == w * h && c < w && r < h {
            let cands = dir_candidates(cells, w, h, c, r);
            if cands.len() > 0 {
                let j = draw_head(draws) as int % cands.len() as int;
                lemma_dir_candidates_sound(cells, w, h, c, r, j);
                lemma_apply_move_unvisited(cells, w, h, c, r, cands[j]);
            }
        }
    }
}

/// Every entry of `dir_candidates` names an unvisited in-bounds neighbor.
pub proof fn lemma_dir_candidates_sound(
    cells: Seq<Cell>,
    w: nat,
    h: nat,
    c: int,
    r: int,
    j: int,
)
    requires
        pos_in_bounds(w, h, c, r),
        0 <= j < dir_candidates(cells, w, h, c, r).len(),
    ensures
        ({
            let d = dir_candidates(cells, w, h, c, r)[j];
            let nb = neighbor_of(c, r, d);
            &&& pos_in_bounds(w, h, nb.0, nb.1)
            &&& !cell_i(cells, h, nb.0, nb.1).visited
        }),
{
    let s1 = if c > 0 && !cell_i(cells, h, c - 1, r).visited {
        seq![Dir::Left]
    } else {
        Seq::<Dir>::empty()
    };
    let s2 = if r > 0 && !cell_i(cells, h, c, r - 1).visited {
        seq![Dir::Up]
    } else {
        Seq::<Dir>::empty()
    };
    let s3 = if c + 1 < w && !cell_i(cells, h, c + 1, r).visited {
        seq![Dir::Right]
    } else {
        Seq::<Dir>::empty()
    };
    let s4 = if r + 1 < h && !cell_i(cells, h, c, r + 1).visited {
        seq![Dir::Down]
    } else {
        Seq::<Dir>::empty()
    };
    let all = dir_candidates(cells, w, h, c, r);
    assert(all == s1 + s2 + s3 + s4);
    if j < s1.len() {
        assert(all[j] == s1[j]);
    } else if j < s1.len() + s2.len() {
        assert(all[j] == s2[j - s1.len()]);
    } else if j < s1.len() + s2.len() + s3.len() {
        assert(all[j] == s3[j - s1.len() - s2.len()]);
    } else {
        assert(all[j] == s4[j - s1.len() - s2.len() - s3.len()]);
    }
}

/// A position whose candidate list is empty has no unvisited neighbor.
proof fn lemma_no_candidates_finished(cells: Seq<Cell>, w: nat, h: nat, c: int, r: int)
    requires
        pos_in_bounds(w, h, c, r),
        dir_candidates(cells, w, h, c, r).len() == 0,
    ensures
        neighbors_visited(cells, w, h, c, r),
{
    if c > 0 && !cell_i(cells, h, c - 1, r).visited {
        assert(dir_candidates(cells, w, h, c, r).len() >= 1);
    }
    if r > 0 && !cell_i(cells, h, c, r - 1).visited {
        assert(dir_candidates(cells, w, h, c, r).len() >= 1);
    }
    if c + 1 < w && !cell_i(cells, h, c + 1, r).visited {
        assert(dir_candidates(cells, w, h, c, r).len() >= 1);
    }
    if r + 1 < h && !cell_i(cells, h, c, r + 1).visited {
        assert(dir_candidates(cells, w, h, c, r).len() >= 1);
    }
}

/// Distinct in-bounds positions occupy distinct arena slots.
pub proof fn lemma_index_injective(h: int, c1: int, r1: int, c2: int, r2: int)
    requires
        0 <= c1,
        0 <= c2,
        0 <= r1 < h,
        0 <= r2 < h,
        !(c1 == c2 && r1 == r2),
    ensures
        c1 * h + r1 != c2 * h + r2,
{
    assert(c1 * h + r1 != c2 * h + r2) by (nonlinear_arith)
        requires
            0 <= c1,
            0 <= c2,
            0 <= r1 < h,
            0 <= r2 < h,
            !(c1 == c2 && r1 == r2),
    ;
}

/// What each arena slot holds after a move: the two touched cells pointwise,
/// everything else untouched.
proof fn lemma_apply_move_frame(cells: Seq<Cell>, w: nat, h: nat, c: int, r: int, d: Dir)
    requires
        cells.len() == w * h,
        pos_in_bounds(w, h, c, r),
        pos_in_bounds(w, h, neighbor_of(c, r, d).0, neighbor_of(c, r, d).1),
    ensures
        ({
            let cells2 = apply_move(cells, h, c, r, d);
            let nb = neighbor_of(c, r, d);
            &&& cells2.len() == w * h
            &&& cell_i(cells2, h, nb.0, nb.1) == Cell {
                border_right: (if d == Dir::Left {
                    false
                } else {
                    cell_i(cells, h, nb.0, nb.1).border_right
                }),
                border_bottom: (if d == Dir::Up {
                    false
                } else {
                    cell_i(cells, h, nb.0, nb.1).border_bottom
                }),
                visited: true,
            }
            &&& cell_i(cells2, h, c, r) == Cell {
                border_right: (if d == Dir::Right {
                    false
                } else {
                    cell_i(cells, h, c, r).border_right
                }),
                border_bottom: (if d == Dir::Down {
                    false
                } else {
                    cell_i(cells, h, c, r).border_bottom
                }),
                visited: cell_i(cells, h, c, r).visited,
            }
            &&& forall|c2: int, r2: int|
                pos_in_bounds(w, h, c2, r2) && !(c2 == c && r2 == r) && !(c2 == nb.0 && r2 == nb.1)
                    ==> #[trigger] cell_i(cells2, h, c2, r2) == cell_i(cells, h, c2, r2)
        }),
{
    let cells2 = apply_move(cells, h, c, r, d);
    let nb = neighbor_of(c, r, d);
    lemma_cell_index_in_range(w as int, h as int, c, r);
    lemma_cell_index_in_range(w as int, h as int, nb.0, nb.1);
    lemma_index_injective(h as int, c, r, nb.0, nb.1);
    assert forall|c2: int, r2: int|
        pos_in_bounds(w, h, c2, r2) && !(c2 == c && r2 == r) && !(c2 == nb.0 && r2 == nb.1)
            implies #[trigger] cell_i(cells2, h, c2, r2) == cell_i(cells, h, c2, r2) by {
        lemma_cell_index_in_range(w as int, h as int, c2, r2);
        lemma_index_injective(h as int, c2, r2, c, r);
        lemma_index_injective(h as int, c2, r2, nb.0, nb.1);
    }
}

/// Carving one move visits exactly one previously unvisited cell.
proof fn lemma_apply_move_unvisited(cells: Seq<Cell>, w: nat, h: nat, c: int, r: int, d: Dir)
    requires
        cells.len() == w * h,
        pos_in_bounds(w, h, c, r),
        pos_in_bounds(w, h, neighbor_of(c, r, d).0, neighbor_of(c, r, d).1),
        !cell_i(cells, h, neighbor_of(c, r, d).0, neighbor_of(c, r, d).1).visited,
    ensures
        count_unvisited(apply_move(cells, h, c, r, d)) + 1 == count_unvisited(cells),
{
    let nb = neighbor_of(c, r, d);
    let ni = nb.0 * h + nb.1;
    let i = c * h + r;
    lemma_cell_index_in_range(w as int, h as int, c, r);
    lemma_cell_index_in_range(w as int, h as int, nb.0, nb.1);
    lemma_index_injective(h as int, c, r, nb.0, nb.1);
    match d {
        Dir::Left => {
            lemma_count_unvisited_update(
                cells,
                ni,
                Cell {
                    border_right: false,
                    border_bottom: cells[ni].border_bottom,
                    visited: true,
                },
            );
        },
        Dir::Up => {
            lemma_count_unvisited_update(
                cells,
                ni,
                Cell {
                    border_right: cells[ni].border_right,
                    border_bottom: false,
                    visited: true,
                },
            );
        },
        Dir::Right => {
            let mid = cells.update(
                i,
                Cell {
                    border_right: false,
                    border_bottom: cells[i].border_bottom,
                    visited: cells[i].visited,
                },
            );
            lemma_count_unvisited_update(
                cells,
                i,
                Cell {
                    border_right: false,
                    border_bottom: cells[i].border_bottom,
                    visited: cells[i].visited,
                },
            );
            lemma_count_unvisited_update(
                mid,
                ni,
                Cell {
                    border_right: cells[ni].border_right,
                    border_bottom: cells[ni].border_bottom,
                    visited: true,
                },
            );
        },
        Dir::Down => {
            let mid = cells.update(
                i,
                Cell {
                    border_right: cells[i].border_right,
                    border_bottom: false,
                    visited: cells[i].visited,
                },
            );
            lemma_count_unvisited_update(
                cells,
                i,
                Cell {
                    border_right: cells[i].border_right,
                    border_bottom: false,
                    visited: cells[i].visited,
                },
            );
            lemma_count_unvisited_update(
                mid,
                ni,
                Cell {
                    border_right: cells[ni].border_right,
                    border_bottom: cells[ni].border_bottom,
                    visited: true,
                },
            );
        },
    }
}

/// Carving one move clears exactly one wall flag, which was present because
/// one of its sides was still unvisited.
proof fn lemma_apply_move_absent(cells: Seq<Cell>, w: nat, h: nat, c: int, r: int, d: Dir)
    requires
        cells.len() == w * h,
        pos_in_bounds(w, h, c, r),
        pos_in_bounds(w, h, neighbor_of(c, r, d).0, neighbor_of(c, r, d).1),
        !cell_i(cells, h, neighbor_of(c, r, d).0, neighbor_of(c, r, d).1).visited,
        inv_walls(cells, w, h),
    ensures
        count_absent_walls(apply_move(cells, h, c, r, d)) == count_absent_walls(cells) + 1,
{
    let nb = neighbor_of(c, r, d);
    let ni = nb.0 * h + nb.1;
    let i = c * h + r;
    lemma_cell_index_in_range(w as int, h as int, c, r);
    lemma_cell_index_in_range(w as int, h as int, nb.0, nb.1);
    lemma_index_injective(h as int, c, r, nb.0, nb.1);
    match d {
        Dir::Left => {
            assert(cell_i(cells, h, nb.0, nb.1).border_right) by {
                if !cell_i(cells, h, nb.0, nb.1).border_right {
                    assert(cell_i(cells, h, nb.0 + 1, nb.1).visited);
                }
            }
            lemma_count_absent_update(
                cells,
                ni,
                Cell {
                    border_right: false,
                    border_bottom: cells[ni].border_bottom,
                    visited: true,
                },
            );
        },
        Dir::Up => {
            assert(cell_i(cells, h, nb.0, nb.1).border_bottom) by {
                if !cell_i(cells, h, nb.0, nb.1).border_bottom {
                    assert(cell_i(cells, h, nb.0, nb.1 + 1).visited);
                }
            }
            lemma_count_absent_update(
                cells,
                ni,
                Cell {
                    border_right: cells[ni].border_right,
                    border_bottom: false,
                    visited: true,
                },
            );
        },
        Dir::Right => {
            assert(cell_i(cells, h, c, r).border_right) by {
                if !cell_i(cells, h, c, r).border_right {
                    assert(cell_i(cells, h, c + 1, r).visited);
                }
            }
            let mid = cells.update(
                i,
                Cell {
                    border_right: false,
                    border_bottom: cells[i].border_bottom,
                    visited: cells[i].visited,
                },
            );
            lemma_count_absent_update(
                cells,
                i,
                Cell {
                    border_right: false,
                    border_bottom: cells[i].border_bottom,
                    visited: cells[i].visited,
                },
            );
            lemma_count_absent_update(
                mid,
                ni,
                Cell {
                    border_right: cells[ni].border_right,
                    border_bottom: cells[ni].border_bottom,
                    visited: true,
                },
            );
        },
        Dir::Down => {
            assert(cell_i(cells, h, c, r).border_bottom) by {
                if !cell_i(cells, h, c, r).border_bottom {
                    assert(cell_i(cells, h, c, r + 1).visited);
                }
            }
            let mid = cells.update(
                i,
                Cell {
                    border_right: cells[i].border_right,
                    border_bottom: false,
                    visited: cells[i].visited,
                },
            );
            lemma_count_absent_update(
                cells,
                i,
                Cell {
                    border_right: cells[i].border_right,
                    border_bottom: false,
                    visited: cells[i].visited,
                },
            );
            lemma_count_absent_update(
                mid,
                ni,
                Cell {
                    border_right: cells[ni].border_right,
                    border_bottom: cells[ni].border_bottom,
                    visited: true,
                },
            );
        },
    }
}

/// Some stack entry names position `(c, r)`.
pub open spec fn on_stack(stack: Seq<(usize, usize)>, c: int, r: int) -> bool {
    exists|i: int| 0 <= i < stack.len() && (#[trigger] stack[i]).0 == c && stack[i].1 == r
}

/// Every stack entry is an in-bounds, visited position.
pub open spec fn inv_stack(cells: Seq<Cell>, w: nat, h: nat, stack: Seq<(usize, usize)>) -> bool {
    forall|i: int|
        0 <= i < stack.len() ==> {
            &&& pos_in_bounds(w, h, (#[trigger] stack[i]).0 as int, stack[i].1 as int)
            &&& cell_i(cells, h, stack[i].0 as int, stack[i].1 as int).visited
        }
}

/// A cleared wall flag always separates two visited in-bounds cells; in
/// particular the outer boundary walls are never cleared.
pub open spec fn inv_walls(cells: Seq<Cell>, w: nat, h: nat) -> bool {
    forall|c: int, r: int|
        pos_in_bounds(w, h, c, r) ==> {
            &&& (!(#[trigger] cell_i(cells, h, c, r)).border_right ==> c + 1 < w && cell_i(
                cells,
                h,
                c,
                r,
            ).visited && cell_i(cells, h, c + 1, r).visited)
            &&& (!cell_i(cells, h, c, r).border_bottom ==> r + 1 < h && cell_i(
                cells,
                h,
                c,
                r,
            ).visited && cell_i(cells, h, c, r + 1).visited)
        }
}

/// One wall has been cleared for every cell visited beyond the first.
pub open spec fn inv_counts(cells: Seq<Cell>, w: nat, h: nat) -> bool {
    count_absent_walls(cells) + 1 + count_unvisited(cells) == w * h
}

/// A visited cell that is no longer on the stack has no unvisited neighbor
/// left.
pub open spec fn inv_finished(
    cells: Seq<Cell>,
    w: nat,
    h: nat,
    stack: Seq<(usize, usize)>,
) -> bool {
    forall|c: int, r: int|
        pos_in_bounds(w, h, c, r) && cell_i(cells, h, c, r).visited && !on_stack(stack, c, r)
            ==> #[trigger] neighbors_visited(cells, w, h, c, r)
}

/// Popping a finished cell keeps every remaining visited cell finished.
proof fn lemma_pop_finished(cells: Seq<Cell>, w: nat, h: nat, stack: Seq<(usize, usize)>)
    requires
        stack.len() >= 1,
        inv_finished(cells, w, h, stack),
        neighbors_visited(cells, w, h, stack.last().0 as int, stack.last().1 as int),
    ensures
        inv_finished(cells, w, h, stack.drop_last()),
{
    let stack2 = stack.drop_last();
    assert forall|c2: int, r2: int|
        pos_in_bounds(w, h, c2, r2) && cell_i(cells, h, c2, r2).visited && !on_stack(
            stack2,
            c2,
            r2,
        ) implies #[trigger] neighbors_visited(cells, w, h, c2, r2) by {
        if c2 == stack.last().0 as int && r2 == stack.last().1 as int {
        } else if on_stack(stack, c2, r2) {
            let i = choose|i: int|
                0 <= i < stack.len() && (#[trigger] stack[i]).0 == c2 && stack[i].1 == r2;
            assert(i < stack.len() - 1);
            assert(stack2[i].0 == c2 && stack2[i].1 == r2);
        }
    }
}

/// Pushing the freshly visited neighbor keeps every stack entry visited.
proof fn lemma_move_stack(
    cells: Seq<Cell>,
    w: nat,
    h: nat,
    stack: Seq<(usize, usize)>,
    c: int,
    r: int,
    d: Dir,
)
    requires
        cells.len() == w * h,
        w <= usize::MAX,
        h <= usize::MAX,
        pos_in_bounds(w, h, c, r),
        pos_in_bounds(w, h, neighbor_of(c, r, d).0, neighbor_of(c, r, d).1),
        inv_stack(cells, w, h, stack),
    ensures
        ({
            let cells2 = apply_move(cells, h, c, r, d);
            let nb = neighbor_of(c, r, d);
            inv_stack(cells2, w, h, stack.push((nb.0 as usize, nb.1 as usize)))
        }),
{
    let cells2 = apply_move(cells, h, c, r, d);
    let nb = neighbor_of(c, r, d);
    let stack2 = stack.push((nb.0 as usize, nb.1 as usize));
    lemma_apply_move_frame(cells, w, h, c, r, d);
    assert forall|k: int| 0 <= k < stack2.len() implies {
        &&& pos_in_bounds(w, h, (#[trigger] stack2[k]).0 as int, stack2[k].1 as int)
        &&& cell_i(cells2, h, stack2[k].0 as int, stack2[k].1 as int).visited
    } by {
        if k < stack.len() {
            assert(stack2[k] == stack[k]);
            let c2 = stack[k].0 as int;
            let r2 = stack[k].1 as int;
            assert(pos_in_bounds(w, h, c2, r2));
            assert(cell_i(cells, h, c2, r2).visited);
            if !(c2 == c && r2 == r) && !(c2 == nb.0 && r2 == nb.1) {
                assert(cell_i(cells2, h, c2, r2) == cell_i(cells, h, c2, r2));
            }
        }
    }
}

/// The cleared flag separates the current cell from the freshly visited
/// neighbor, so the wall invariant survives the move.
proof fn lemma_move_walls(cells: Seq<Cell>, w: nat, h: nat, c: int, r: int, d: Dir)
    requires
        cells.len() == w * h,
        pos_in_bounds(w, h, c, r),
        pos_in_bounds(w, h, neighbor_of(c, r, d).0, neighbor_of(c, r, d).1),
        neighbor_of(c, r, d) == (match d {
            Dir::Left => (c - 1, r),
            Dir::Up => (c, r - 1),
            Dir::Right => (c + 1, r),
            Dir::Down => (c, r + 1),
        }),
        cell_i(cells, h, c, r).visited,
        inv_walls(cells, w, h),
    ensures
        inv_walls(apply_move(cells, h, c, r, d), w, h),
{
    let cells2 = apply_move(cells, h, c, r, d);
    let nb = neighbor_of(c, r, d);
    lemma_apply_move_frame(cells, w, h, c, r, d);
    assert forall|c3: int, r3: int|
        pos_in_bounds(w, h, c3, r3) && cell_i(cells, h, c3, r3).visited implies cell_i(
        cells2,
        h,
        c3,
        r3,
    ).visited by {
        if !(c3 == c && r3 == r) && !(c3 == nb.0 && r3 == nb.1) {
            assert(cell_i(cells2, h, c3, r3) == cell_i(cells, h, c3, r3));
        }
    }
    assert forall|c2: int, r2: int| pos_in_bounds(w, h, c2, r2) implies {
        &&& (!(#[trigger] cell_i(cells2, h, c2, r2)).border_right ==> c2 + 1 < w && cell_i(
            cells2,
            h,
            c2,
            r2,
        ).visited && cell_i(cells2, h, c2 + 1, r2).visited)
        &&& (!cell_i(cells2, h, c2, r2).border_bottom ==> r2 + 1 < h && cell_i(
            cells2,
            h,
            c2,
            r2,
        ).visited && cell_i(cells2, h, c2, r2 + 1).visited)
    } by {
        if !(c2 == c && r2 == r) && !(c2 == nb.0 && r2 == nb.1) {
            assert(cell_i(cells2, h, c2, r2) == cell_i(cells, h, c2, r2));
        }
        if !cell_i(cells2, h, c2, r2).border_right {
            if cell_i(cells, h, c2, r2).border_right {
                // This is the flag cleared by the move.
                assert((c2 == c && r2 == r && d == Dir::Right) || (c2 == nb.0 && r2 == nb.1 && d
                    == Dir::Left));
                assert(c2 + 1 < w);
                assert(cell_i(cells2, h, c2 + 1, r2).visited);
            } else {
                assert(c2 + 1 < w);
                assert(cell_i(cells, h, c2, r2).visited);
                assert(cell_i(cells, h, c2 + 1, r2).visited);
            }
        }
        if !cell_i(cells2, h, c2, r2).border_bottom {
            if cell_i(cells, h, c2, r2).border_bottom {
                assert((c2 == c && r2 == r && d == Dir::Down) || (c2 == nb.0 && r2 == nb.1 && d
                    == Dir::Up));
                assert(r2 + 1 < h);
                assert(cell_i(cells2, h, c2, r2 + 1).visited);
            } else {
                assert(r2 + 1 < h);
                assert(cell_i(cells, h, c2, r2).visited);
                assert(cell_i(cells, h, c2, r2 + 1).visited);
            }
        }
    }
}

/// After a move, the only visited cells with unvisited neighbors are on the
/// stack.
proof fn lemma_move_finished(
    cells: Seq<Cell>,
    w: nat,
    h: nat,
    stack: Seq<(usize, usize)>,
    c: int,
    r: int,
    d: Dir,
)
    requires
        cells.len() == w * h,
        w <= usize::MAX,
        h <= usize::MAX,
        stack.len() >= 1,
        stack.last().0 == c,
        stack.last().1 == r,
        pos_in_bounds(w, h, c, r),
        pos_in_bounds(w, h, neighbor_of(c, r, d).0, neighbor_of(c, r, d).1),
        inv_finished(cells, w, h, stack),
    ensures
        ({
            let cells2 = apply_move(cells, h, c, r, d);
            let nb = neighbor_of(c, r, d);
            inv_finished(cells2, w, h, stack.push((nb.0 as usize, nb.1 as usize)))
        }),
{
    let cells2 = apply_move(cells, h, c, r, d);
    let nb = neighbor_of(c, r, d);
    let stack2 = stack.push((nb.0 as usize, nb.1 as usize));
    lemma_apply_move_frame(cells, w, h, c, r, d);
    assert forall|c3: int, r3: int|
        pos_in_bounds(w, h, c3, r3) && cell_i(cells, h, c3, r3).visited implies cell_i(
        cells2,
        h,
        c3,
        r3,
    ).visited by {
        if !(c3 == c && r3 == r) && !(c3 == nb.0 && r3 == nb.1) {
            assert(cell_i(cells2, h, c3, r3) == cell_i(cells, h, c3, r3));
        }
    }
    assert forall|c2: int, r2: int|
        pos_in_bounds(w, h, c2, r2) && cell_i(cells2, h, c2, r2).visited && !on_stack(
            stack2,
            c2,
            r2,
        ) implies #[trigger] neighbors_visited(cells2, w, h, c2, r2) by {
        assert(!(c2 == nb.0 && r2 == nb.1)) by {
            if c2 == nb.0 && r2 == nb.1 {
                assert(stack2[stack2.len() - 1].0 == c2 && stack2[stack2.len() - 1].1 == r2);
            }
        }
        assert(!(c2 == c && r2 == r)) by {
            if c2 == c && r2 == r {
                assert(stack2[stack.len() - 1] == stack.last());
                assert(stack2[stack.len() - 1].0 == c2 && stack2[stack.len() - 1].1 == r2);
            }
        }
        assert(!on_stack(stack, c2, r2)) by {
            if on_stack(stack, c2, r2) {
                let k = choose|k: int|
                    0 <= k < stack.len() && (#[trigger] stack[k]).0 == c2 && stack[k].1 == r2;
                assert(stack2[k].0 == c2 && stack2[k].1 == r2);
            }
        }
        assert(cell_i(cells2, h, c2, r2) == cell_i(cells, h, c2, r2));
        assert(neighbors_visited(cells, w, h, c2, r2));
    }
}

/// Carving one move keeps every visited cell joined to the origin: old
/// walks survive because walls only fall, and the freshly visited neighbor
/// joins through the wall just cleared.
proof fn lemma_move_connected(cells: Seq<Cell>, w: nat, h: nat, c: int, r: int, d: Dir)
    requires
        cells.len() == w * h,
        pos_in_bounds(w, h, c, r),
        pos_in_bounds(w, h, neighbor_of(c, r, d).0, neighbor_of(c, r, d).1),
        cell_i(cells, h, c, r).visited,
        inv_connected(cells, w, h),
    ensures
        inv_connected(apply_move(cells, h, c, r, d), w, h),
{
    let cells2 = apply_move(cells, h, c, r, d);
    let nb = neighbor_of(c, r, d);
    let i = c * h + r;
    let ni = nb.0 * h + nb.1;
    lemma_cell_index_in_range(w as int, h as int, c, r);
    lemma_cell_index_in_range(w as int, h as int, nb.0, nb.1);
    lemma_index_injective(h as int, c, r, nb.0, nb.1);
    lemma_apply_move_frame(cells, w, h, c, r, d);
    assert(walls_monotone(cells, cells2)) by {
        assert forall|k: int| 0 <= k < cells.len() implies {
            &&& (!(#[trigger] cells[k]).border_right ==> !cells2[k].border_right)
            &&& (!cells[k].border_bottom ==> !cells2[k].border_bottom)
        } by {
            if k != i && k != ni {
                assert(cells2[k] == cells[k]);
            }
        }
    }
    assert(step_open(cells2, w, h, (c, r), nb)) by {
        match d {
            Dir::Left => {
                assert(!cell_i(cells2, h, nb.0, nb.1).border_right);
            },
            Dir::Up => {
                assert(!cell_i(cells2, h, nb.0, nb.1).border_bottom);
            },
            Dir::Right => {
                assert(!cell_i(cells2, h, c, r).border_right);
            },
            Dir::Down => {
                assert(!cell_i(cells2, h, c, r).border_bottom);
            },
        }
    }
    assert forall|c2: int, r2: int|
        pos_in_bounds(w, h, c2, r2) && cell_i(cells2, h, c2, r2).visited
            implies #[trigger] connected(cells2, w, h, (0int, 0int), (c2, r2)) by {
        if c2 == nb.0 && r2 == nb.1 {
            assert(connected(cells, w, h, (0int, 0int), (c, r)));
            lemma_connected_monotone(cells, cells2, w, h, (0int, 0int), (c, r));
            lemma_connected_extend(cells2, w, h, (0int, 0int), (c, r), nb);
        } else {
            assert(cell_i(cells, h, c2, r2).visited) by {
                if !(c2 == c && r2 == r) {
                    assert(cell_i(cells2, h, c2, r2) == cell_i(cells, h, c2, r2));
                }
            }
            assert(connected(cells, w, h, (0int, 0int), (c2, r2)));
            lemma_connected_monotone(cells, cells2, w, h, (0int, 0int), (c2, r2));
        }
    }
}

/// Carving to the end keeps every visited cell joined to the origin, by
/// induction over the run.
proof fn lemma_carve_rec_connected(
    cells: Seq<Cell>,
    w: nat,
    h: nat,
    stack: Seq<(usize, usize)>,
    draws: Seq<u32>,
)
    requires
        cells.len() == w * h,
        w <= usize::MAX,
        h <= usize::MAX,
        inv_stack(cells, w, h, stack),
        inv_connected(cells, w, h),
    ensures
        inv_connected(carve_rec(cells, w, h, stack, draws), w, h),
    decreases count_unvisited(cells), stack.len(),
{
    if stack.len() > 0 {
        let c = stack.last().0 as int;
        let r = stack.last().1 as int;
        assert(pos_in_bounds(w, h, c, r) && cell_i(cells, h, c, r).visited) by {
            assert(stack[stack.len() - 1] == stack.last());
        }
        let cands = dir_candidates(cells, w, h, c, r);
        if cands.len() == 0 {
            assert(inv_stack(cells, w, h, stack.drop_last()));
            lemma_carve_rec_connected(cells, w, h, stack.drop_last(), draws);
        } else {
            let j = draw_head(draws) as int % cands.len() as int;
            lemma_dir_candidates_sound(cells, w, h, c, r, j);
            let d = cands[j];
            let nb = neighbor_of(c, r, d);
            let cells2 = apply_move(cells, h, c, r, d);
            let stack2 = stack.push((nb.0 as usize, nb.1 as usize));
            lemma_apply_move_frame(cells, w, h, c, r, d);
            lemma_apply_move_unvisited(cells, w, h, c, r, d);
            lemma_move_connected(cells, w, h, c, r, d);
            lemma_move_stack(cells, w, h, stack, c, r, d);
            lemma_carve_rec_connected(cells2, w, h, stack2, draw_tail(draws));
        }
    }
}

/// Backtracking consumes no draw: popping a candidate-less top leaves the
/// carving result unchanged.
proof fn lemma_carve_rec_pop(
    cells: Seq<Cell>,
    w: nat,
    h: nat,
    stack: Seq<(usize, usize)>,
    draws: Seq<u32>,
)
    requires
        cells.len() == w * h,
        stack.len() >= 1,
        pos_in_bounds(w, h, stack.last().0 as int, stack.last().1 as int),
        dir_candidates(cells, w, h, stack.last().0 as int, stack.last().1 as int).len() == 0,
    ensures
        carve_rec(cells, w, h, stack, draws) == carve_rec(cells, w, h, stack.drop_last(), draws),
{
}

/// One carved move consumes exactly the head draw: the carving result of
/// the state before the move equals that of the state after it.
proof fn lemma_carve_rec_move(
    cells: Seq<Cell>,
    w: nat,
    h: nat,
    stack: Seq<(usize, usize)>,
    draws: Seq<u32>,
)
    requires
        cells.len() == w * h,
        stack.len() >= 1,
        pos_in_bounds(w, h, stack.last().0 as int, stack.last().1 as int),
        dir_candidates(cells, w, h, stack.last().0 as int, stack.last().1 as int).len() > 0,
    ensures
        ({
            let c = stack.last().0 as int;
            let r = stack.last().1 as int;
            let cands = dir_candidates(cells, w, h, c, r);
            let d = cands[draw_head(draws) as int % cands.len() as int];
            let nb = neighbor_of(c, r, d);
            carve_rec(cells, w, h, stack, draws) == carve_rec(
                apply_move(cells, h, c, r, d),
                w,
                h,
                stack.push((nb.0 as usize, nb.1 as usize)),
                draw_tail(draws),
            )
        }),
{
}

/// Collect the unvisited in-bounds neighbors of `(c, r)` in the fixed order
/// left, up, right, down.
fn collect_candidates(grid: &Grid, c: usize, r: usize) -> (cands: Vec<Dir>)
    requires
        grid.wf(),
        grid.in_bounds(c as int, r as int),
    ensures
        cands@ == dir_candidates(
            grid.cells@,
            grid.width as nat,
            grid.height as nat,
            c as int,
            r as int,
        ),
{
    let ghost gw = grid.width as nat;
    let ghost gh = grid.height as nat;
    let mut cands: Vec<Dir> = Vec::new();
    let ghost s1 = if c > 0 && !cell_i(grid.cells@, gh, c - 1, r as int).visited {
        seq![Dir::Left]
    } else {
        Seq::<Dir>::empty()
    };
    let ghost s2 = if r > 0 && !cell_i(grid.cells@, gh, c as int, r - 1).visited {
        seq![Dir::Up]
    } else {
        Seq::<Dir>::empty()
    };
    let ghost s3 = if c + 1 < grid.width && !cell_i(grid.cells@, gh, c + 1, r as int).visited {
        seq![Dir::Right]
    } else {
        Seq::<Dir>::empty()
    };
    let ghost s4 = if r + 1 < grid.height && !cell_i(grid.cells@, gh, c as int, r + 1).visited {
        seq![Dir::Down]
    } else {
        Seq::<Dir>::empty()
    };
    if c > 0 {
        if !grid.cell(c - 1, r).visited {
            cands.push(Dir::Left);
        }
    }
    proof {
        assert(cands@ =~= s1);
    }
    if r > 0 {
        if !grid.cell(c, r - 1).visited {
            cands.push(Dir::Up);
        }
    }
    proof {
        assert(cands@ =~= s1 + s2);
    }
    if c + 1 < grid.width {
        if !grid.cell(c + 1, r).visited {
            cands.push(Dir::Right);
        }
    }
    proof {
        assert(cands@ =~= s1 + s2 + s3);
    }
    if r + 1 < grid.height {
        if !grid.cell(c, r + 1).visited {
            cands.push(Dir::Down);
        }
    }
    proof {
        assert(cands@ =~= s1 + s2 + s3 + s4);
        assert(dir_candidates(grid.cells@, gw, gh, c as int, r as int) == s1 + s2 + s3 + s4);
    }
    cands
}

/// Clear the wall between `(c, r)` and its neighbor in direction `d` and
/// mark the neighbor visited.
fn carve_move(grid: &mut Grid, c: usize, r: usize, d: Dir)
    requires
        old(grid).wf(),
        old(grid).in_bounds(c as int, r as int),
        pos_in_bounds(
            old(grid).width as nat,
            old(grid).height as nat,
            neighbor_of(c as int, r as int, d).0,
            neighbor_of(c as int, r as int, d).1,
        ),
    ensures
        final(grid).wf(),
        final(grid).width == old(grid).width,
        final(grid).height == old(grid).height,
        final(grid).cells@ == apply_move(old(grid).cells@, old(grid).height as nat, c as int, r as int, d),
{
    let ghost cells0 = grid.cells@;
    let ghost gh = grid.height as nat;
    match d {
        Dir::Left => {
            let nc = c - 1;
            let mut k = grid.cell(nc, r);
            k.border_right = false;
            k.visited = true;
            grid.set_cell(nc, r, k);
        },
        Dir::Up => {
            let nr = r - 1;
            let mut k = grid.cell(c, nr);
            k.border_bottom = false;
            k.visited = true;
            grid.set_cell(c, nr, k);
        },
        Dir::Right => {
            let mut k = grid.cell(c, r);
            k.border_right = false;
            grid.set_cell(c, r, k);
            let nc = c + 1;
            let mut n2 = grid.cell(nc, r);
            n2.visited = true;
            grid.set_cell(nc, r, n2);
        },
        Dir::Down => {
            let mut k = grid.cell(c, r);
            k.border_bottom = false;
            grid.set_cell(c, r, k);
            let nr = r + 1;
            let mut n2 = grid.cell(c, nr);
            n2.visited = true;
            grid.set_cell(c, nr, n2);
        },
    }
    proof {
        let nb = neighbor_of(c as int, r as int, d);
        lemma_cell_index_in_range(grid.width as int, grid.height as int, c as int, r as int);
        lemma_cell_index_in_range(grid.width as int, grid.height as int, nb.0, nb.1);
        lemma_index_injective(grid.height as int, c as int, r as int, nb.0, nb.1);
        assert(grid.cells@ =~= apply_move(cells0, gh, c as int, r as int, d));
    }
}


/// The starting arena satisfies every generation invariant with the origin
/// alone on the stack.
proof fn lemma_start_invariants(w: nat, h: nat)
    requires
        1 <= w,
        1 <= h,
        w * h <= MAX_CELLS,
    ensures
        ({
            let cells = start_cells(w, h);
            &&& cells.len() == w * h
            &&& cell_i(cells, h, 0, 0).visited
            &&& count_absent_walls(cells) == 0
            &&& inv_walls(cells, w, h)
            &&& inv_counts(cells, w, h)
            &&& inv_stack(cells, w, h, seq![(0usize, 0usize)])
            &&& inv_finished(cells, w, h, seq![(0usize, 0usize)])
            &&& inv_connected(cells, w, h)
        }),
{
    let cells = start_cells(w, h);
    let fresh_seq = Seq::new(w * h, |i: int| fresh_cell());
    let origin = Cell { border_right: true, border_bottom: true, visited: true };
    lemma_cell_index_in_range(w as int, h as int, 0, 0);
    lemma_counts_fresh(fresh_seq);
    lemma_count_unvisited_update(fresh_seq, 0, origin);
    lemma_count_absent_update(fresh_seq, 0, origin);
    assert(on_stack(seq![(0usize, 0usize)], 0, 0)) by {
        assert(seq![(0usize, 0usize)][0].0 == 0 && seq![(0usize, 0usize)][0].1 == 0);
    }
    assert forall|c: int, r: int| pos_in_bounds(w, h, c, r) implies {
        let k = #[trigger] cell_i(cells, h, c, r);
        &&& k.border_right
        &&& k.border_bottom
        &&& (k.visited ==> c == 0 && r == 0)
    } by {
        lemma_cell_index_in_range(w as int, h as int, c, r);
        if !(c == 0 && r == 0) {
            lemma_index_injective(h as int, c, r, 0, 0);
        }
    }
    assert(inv_stack(cells, w, h, seq![(0usize, 0usize)]));
    assert(inv_walls(cells, w, h));
    assert(inv_finished(cells, w, h, seq![(0usize, 0usize)]));
    assert forall|c: int, r: int|
        pos_in_bounds(w, h, c, r) && cell_i(cells, h, c, r).visited
            implies #[trigger] connected(cells, w, h, (0int, 0int), (c, r)) by {
        lemma_connected_refl(cells, w, h, (0int, 0int));
    }
}

/// Once the stack has drained, every cell has been visited and exactly
/// `w * h - 1` wall flags are cleared.
proof fn lemma_drained(cells: Seq<Cell>, w: nat, h: nat, stack: Seq<(usize, usize)>)
    requires
        cells.len() == w * h,
        1 <= w,
        1 <= h,
        stack.len() == 0,
        cell_i(cells, h, 0, 0).visited,
        inv_counts(cells, w, h),
        inv_finished(cells, w, h, stack),
    ensures
        count_unvisited(cells) == 0,
        count_absent_walls(cells) + 1 == w * h,
        forall|c: int, r: int|
            pos_in_bounds(w, h, c, r) ==> (#[trigger] cell_i(cells, h, c, r)).visited,
{
    assert forall|c: int, r: int|
        pos_in_bounds(w, h, c, r) && cell_i(cells, h, c, r).visited
            implies #[trigger] neighbors_visited(cells, w, h, c, r) by {
        assert(!on_stack(stack, c, r));
    }
    lemma_closed_all_visited(cells, w, h);
    assert forall|i: int| 0 <= i < cells.len() implies cells[i].visited by {
        let c = i / (h as int);
        let r = i % (h as int);
        lemma_flat_index_split(w as int, h as int, i);
        assert(cell_i(cells, h, c, r).visited);
    }
    lemma_count_unvisited_zero(cells);
}

/// Generates perfect mazes by randomized depth-first carving.
pub struct MazeGenerator {}

impl MazeGenerator {
    /// Carve a `width x height` maze, drawing from `rng`.
    ///
    /// On success the returned grid is fully visited, every cell can be
    /// walked to from the origin through cleared walls, exactly
    /// `width * height - 1` wall flags are cleared (so the carved graph is a
    /// spanning tree), never a cleared flag on the right or bottom boundary,
    /// and the grid is a function of nothing but the dimensions and the
    /// recorded draw sequence, of which exactly `width * height - 1` draws
    /// are consumed, one per carved wall and none on backtracks.
    #[verifier::rlimit(100)]
    pub fn generate<R: RandomSource>(width: usize, height: usize, rng: &mut R) -> (res: Result<
        Grid,
        ConfigError,
    >)
        ensures
            res is Err ==> final(rng).draws() == old(rng).draws(),
            width == 0 ==> res == Err::<Grid, ConfigError>(ConfigError::ZeroWidth),
            width != 0 && height == 0 ==> res == Err::<Grid, ConfigError>(ConfigError::ZeroHeight),
            width != 0 && height != 0 && width * height > MAX_CELLS ==> res == Err::<
                Grid,
                ConfigError,
            >(ConfigError::TooManyCells),
            width != 0 && height != 0 && width * height <= MAX_CELLS ==> res is Ok && ({
                let g = res->Ok_0;
                &&& g.wf()
                &&& g.width == width
                &&& g.height == height
                &&& g.cells@ == carve_rec(
                    start_cells(width as nat, height as nat),
                    width as nat,
                    height as nat,
                    seq![(0usize, 0usize)],
                    old(rng).draws(),
                )
                &&& forall|c: int, r: int|
                    g.in_bounds(c, r) ==> (#[trigger] g.cell_at(c, r)).visited
                &&& count_absent_walls(g.cells@) + 1 == width * height
                &&& inv_walls(g.cells@, width as nat, height as nat)
                &&& forall|c: int, r: int|
                    g.in_bounds(c, r) ==> #[trigger] connected(
                        g.cells@,
                        width as nat,
                        height as nat,
                        (0int, 0int),
                        (c, r),
                    )
                &&& final(rng).draws() == remaining_draws(
                    old(rng).draws(),
                    (width * height - 1) as nat,
                )
            }),
    {
        let w = width;
        let h = height;
        let mut grid = match Grid::new_full(w, h) {
            Ok(g) => g,
            Err(e) => {
                return Err(e);
            },
        };
        grid.set_cell(0, 0, Cell { border_right: true, border_bottom: true, visited: true });
        let mut stack: Vec<(usize, usize)> = Vec::new();
        stack.push((0, 0));
        let ghost draws0 = rng.draws();
        let ghost target = carve_rec(grid.cells@, w as nat, h as nat, stack@, draws0);
        let ghost mut draws_made: nat = 0;
        proof {
            lemma_start_invariants(w as nat, h as nat);
            assert(grid.cells@ == start_cells(w as nat, h as nat));
            assert(stack@ =~= seq![(0usize, 0usize)]);
            assert(remaining_draws(draws0, 0nat) == draws0);
        }
        while stack.len() > 0
            invariant
                grid.wf(),
                grid.width == w,
                grid.height == h,
                1 <= w,
                1 <= h,
                w * h <= MAX_CELLS,
                cell_i(grid.cells@, h as nat, 0, 0).visited,
                inv_stack(grid.cells@, w as nat, h as nat, stack@),
                inv_walls(grid.cells@, w as nat, h as nat),
                inv_counts(grid.cells@, w as nat, h as nat),
                inv_finished(grid.cells@, w as nat, h as nat, stack@),
                carve_rec(grid.cells@, w as nat, h as nat, stack@, rng.draws()) == target,
                rng.draws() == remaining_draws(draws0, draws_made),
                draws_made + 1 + count_unvisited(grid.cells@) == w * h,
            decreases count_unvisited(grid.cells@), stack@.len(),
        {
            let top = stack[stack.len() - 1];
            let c = top.0;
            let r = top.1;
            let ghost cells_before = grid.cells@;
            let ghost stack_before = stack@;
            let ghost draws_before = rng.draws();
            let cands = collect_candidates(&grid, c, r);
            if cands.len() == 0 {
                stack.pop();
                proof {
                    lemma_no_candidates_finished(
                        grid.cells@,
                        w as nat,
                        h as nat,
                        c as int,
                        r as int,
                    );
                    lemma_pop_finished(grid.cells@, w as nat, h as nat, stack_before);
                    assert(stack@ =~= stack_before.drop_last());
                    lemma_carve_rec_pop(grid.cells@, w as nat, h as nat, stack_before, rng.draws());
                }
            } else {
                let rv = rng.next_u32();
                let j = (rv as usize) % cands.len();
                let d = cands[j];
                proof {
                    lemma_dir_candidates_sound(
                        grid.cells@,
                        w as nat,
                        h as nat,
                        c as int,
                        r as int,
                        j as int,
                    );
                }
                carve_move(&mut grid, c, r, d);
                let (nc, nr) = match d {
                    Dir::Left => (c - 1, r),
                    Dir::Up => (c, r - 1),
                    Dir::Right => (c + 1, r),
                    Dir::Down => (c, r + 1),
                };
                stack.push((nc, nr));
                proof {
                    let ghost gw = w as nat;
                    let ghost gh = h as nat;
                    let ghost gc = c as int;
                    let ghost gr = r as int;
                    lemma_apply_move_frame(cells_before, gw, gh, gc, gr, d);
                    lemma_apply_move_unvisited(cells_before, gw, gh, gc, gr, d);
                    lemma_apply_move_absent(cells_before, gw, gh, gc, gr, d);
                    lemma_move_stack(cells_before, gw, gh, stack_before, gc, gr, d);
                    lemma_move_walls(cells_before, gw, gh, gc, gr, d);
                    lemma_move_finished(cells_before, gw, gh, stack_before, gc, gr, d);
                    assert(stack@ =~= stack_before.push(
                        (neighbor_of(gc, gr, d).0 as usize, neighbor_of(gc, gr, d).1 as usize),
                    ));
                    assert(cell_i(grid.cells@, gh, 0, 0).visited) by {
                        if !(0 == gc && 0 == gr) && !(0 == neighbor_of(gc, gr, d).0 && 0
                            == neighbor_of(gc, gr, d).1) {
                            assert(cell_i(grid.cells@, gh, 0, 0) == cell_i(cells_before, gh, 0, 0));
                        }
                    }
                    assert(rv == draw_head(draws_before));
                    assert(rng.draws() == draw_tail(draws_before));
                    assert(j as int == draw_head(draws_before) as int % (cands@.len() as int));
                    assert(d == dir_candidates(cells_before, gw, gh, gc, gr)[j as int]);
                    lemma_carve_rec_move(cells_before, gw, gh, stack_before, draws_before);
                    draws_made = draws_made + 1;
                    assert(remaining_draws(draws0, draws_made) == draw_tail(
                        remaining_draws(draws0, (draws_made - 1) as nat),
                    ));
                }
            }
        }
        proof {
            lemma_drained(grid.cells@, w as nat, h as nat, stack@);
            assert forall|c: int, r: int| grid.in_bounds(c, r) implies (#[trigger] grid.cell_at(
                c,
                r,
            )).visited by {
                assert(cell_i(grid.cells@, h as nat, c, r).visited);
            }
            lemma_start_invariants(w as nat, h as nat);
            lemma_carve_rec_connected(
                start_cells(w as nat, h as nat),
                w as nat,
                h as nat,
                seq![(0usize, 0usize)],
                draws0,
            );
            assert forall|c: int, r: int| grid.in_bounds(c, r) implies #[trigger] connected(
                grid.cells@,
                w as nat,
                h as nat,
                (0int, 0int),
                (c, r),
            ) by {
                assert(cell_i(grid.cells@, h as nat, c, r).visited);
                assert(pos_in_bounds(w as nat, h as nat, c, r));
            }
        }
        Ok(grid)
    }
}

/// Generation is deterministic: two carving runs over the same dimensions
/// that replay the same recorded draw sequence leave identical grids, wall
/// flag for wall flag, because each run's grid equals this one value of the
/// recorded sequence.
pub proof fn lemma_generate_deterministic(w: nat, h: nat, first: Seq<u32>, second: Seq<u32>)
    requires
        first == second,
    ensures
        carve_rec(start_cells(w, h), w, h, seq![(0usize, 0usize)], first) == carve_rec(
            start_cells(w, h),
            w,
            h,
            seq![(0usize, 0usize)],
            second,
        ),
{
}

/// Splitting a flat index into column and row lands in bounds and
/// reassembles to the same index.
proof fn lemma_flat_index_split(w: int, h: int, i: int)
    requires
        1 <= w,
        1 <= h,
        0 <= i < w * h,
    ensures
        0 <= i / h < w,
        0 <= i % h < h,
        (i / h) * h + (i % h) == i,
{
    assert(0 <= i / h < w && 0 <= i % h < h && (i / h) * h + (i % h) == i) by (nonlinear_arith)
        requires
            1 <= w,
            1 <= h,
            0 <= i < w * h,
    ;
}

} // verus!
