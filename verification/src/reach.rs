//! Positions, adjacency and reachability over a flat cell arena.
//!
//! The generator's central claims — that carving stops only once every cell
//! has been reached, and that the carved passages connect every cell to the
//! origin — are stated and proved over these definitions.

use vstd::prelude::*;
use crate::grid::{Cell, lemma_cell_index_in_range};

verus! {

/// The cell at `(c, r)` of a `w x h` arena stored column by column.
pub open spec fn cell_i(cells: Seq<Cell>, h: nat, c: int, r: int) -> Cell {
    cells[c * h + r]
}

pub open spec fn pos_in_bounds(w: nat, h: nat, c: int, r: int) -> bool {
    &&& 0 <= c < w
    &&& 0 <= r < h
}

/// Every grid-adjacent neighbor of `(c, r)` has been visited.
pub open spec fn neighbors_visited(cells: Seq<Cell>, w: nat, h: nat, c: int, r: int) -> bool {
    &&& c > 0 ==> cell_i(cells, h, c - 1, r).visited
    &&& r > 0 ==> cell_i(cells, h, c, r - 1).visited
    &&& c + 1 < w ==> cell_i(cells, h, c + 1, r).visited
    &&& r + 1 < h ==> cell_i(cells, h, c, r + 1).visited
}

/// Two adjacent in-bounds positions with the wall between them cleared, on
/// whichever cell's far-side flag represents it.
pub open spec fn step_open(cells: Seq<Cell>, w: nat, h: nat, a: (int, int), b: (int, int)) -> bool {
    &&& pos_in_bounds(w, h, a.0, a.1)
    &&& pos_in_bounds(w, h, b.0, b.1)
    &&& {
        ||| (b.0 == a.0 + 1 && b.1 == a.1 && !cell_i(cells, h, a.0, a.1).border_right)
        ||| (a.0 == b.0 + 1 && a.1 == b.1 && !cell_i(cells, h, b.0, b.1).border_right)
        ||| (b.1 == a.1 + 1 && b.0 == a.0 && !cell_i(cells, h, a.0, a.1).border_bottom)
        ||| (a.1 == b.1 + 1 && a.0 == b.0 && !cell_i(cells, h, b.0, b.1).border_bottom)
    }
}

/// `p` walks from `a` to `b` through cleared walls.
pub open spec fn is_path(
    cells: Seq<Cell>,
    w: nat,
    h: nat,
    p: Seq<(int, int)>,
    a: (int, int),
    b: (int, int),
) -> bool {
    &&& p.len() >= 1
    &&& p[0] == a
    &&& p.last() == b
    &&& forall|i: int| 0 <= i < p.len() - 1 ==> #[trigger] step_open(cells, w, h, p[i], p[i + 1])
}

/// Some walk through cleared walls joins `a` to `b`.
pub open spec fn connected(cells: Seq<Cell>, w: nat, h: nat, a: (int, int), b: (int, int)) -> bool {
    exists|p: Seq<(int, int)>| is_path(cells, w, h, p, a, b)
}

/// Every visited cell can be walked to from the origin through cleared
/// walls.
pub open spec fn inv_connected(cells: Seq<Cell>, w: nat, h: nat) -> bool {
    forall|c: int, r: int|
        pos_in_bounds(w, h, c, r) && cell_i(cells, h, c, r).visited ==> #[trigger] connected(
            cells,
            w,
            h,
            (0int, 0int),
            (c, r),
        )
}

pub proof fn lemma_connected_refl(cells: Seq<Cell>, w: nat, h: nat, a: (int, int))
    ensures
        connected(cells, w, h, a, a),
{
    let p = seq![a];
    assert(is_path(cells, w, h, p, a, a));
}

/// A walk extends by one open step.
pub proof fn lemma_connected_extend(
    cells: Seq<Cell>,
    w: nat,
    h: nat,
    a: (int, int),
    b: (int, int),
    c: (int, int),
)
    requires
        connected(cells, w, h, a, b),
        step_open(cells, w, h, b, c),
    ensures
        connected(cells, w, h, a, c),
{
    let p = choose|p: Seq<(int, int)>| is_path(cells, w, h, p, a, b);
    let q = p.push(c);
    assert forall|i: int| 0 <= i < q.len() - 1 implies #[trigger] step_open(
        cells,
        w,
        h,
        q[i],
        q[i + 1],
    ) by {
        if i < p.len() - 1 {
            assert(q[i] == p[i] && q[i + 1] == p[i + 1]);
            assert(step_open(cells, w, h, p[i], p[i + 1]));
        } else {
            assert(q[i] == p.last() && q[i + 1] == c);
        }
    }
    assert(is_path(cells, w, h, q, a, c));
}

/// From `older` to `newer` no wall flag is restored.
pub open spec fn walls_monotone(older: Seq<Cell>, newer: Seq<Cell>) -> bool {
    &&& older.len() == newer.len()
    &&& forall|i: int|
        0 <= i < older.len() ==> {
            &&& (!(#[trigger] older[i]).border_right ==> !newer[i].border_right)
            &&& (!older[i].border_bottom ==> !newer[i].border_bottom)
        }
}

/// Carving only clears walls, so every existing walk stays open.
pub proof fn lemma_connected_monotone(
    older: Seq<Cell>,
    newer: Seq<Cell>,
    w: nat,
    h: nat,
    a: (int, int),
    b: (int, int),
)
    requires
        older.len() == w * h,
        walls_monotone(older, newer),
        connected(older, w, h, a, b),
    ensures
        connected(newer, w, h, a, b),
{
    let p = choose|p: Seq<(int, int)>| is_path(older, w, h, p, a, b);
    assert forall|i: int| 0 <= i < p.len() - 1 implies #[trigger] step_open(
        newer,
        w,
        h,
        p[i],
        p[i + 1],
    ) by {
        assert(step_open(older, w, h, p[i], p[i + 1]));
        lemma_cell_index_in_range(w as int, h as int, p[i].0, p[i].1);
        lemma_cell_index_in_range(w as int, h as int, p[i + 1].0, p[i + 1].1);
    }
    assert(is_path(newer, w, h, p, a, b));
}

/// A set of visited cells that contains the origin and has no unvisited
/// grid-neighbor covers the whole grid, because the grid graph is connected.
pub proof fn lemma_closed_all_visited(cells: Seq<Cell>, w: nat, h: nat)
    requires
        cells.len() == w * h,
        w >= 1,
        h >= 1,
        cell_i(cells, h, 0, 0).visited,
        forall|c: int, r: int|
            pos_in_bounds(w, h, c, r) && cell_i(cells, h, c, r).visited
                ==> #[trigger] neighbors_visited(cells, w, h, c, r),
    ensures
        forall|c: int, r: int|
            pos_in_bounds(w, h, c, r) ==> (#[trigger] cell_i(cells, h, c, r)).visited,
{
    assert forall|c: int, r: int|
        pos_in_bounds(w, h, c, r) implies (#[trigger] cell_i(cells, h, c, r)).visited by {
        lemma_reached(cells, w, h, c, r);
    }
}

proof fn lemma_reached(cells: Seq<Cell>, w: nat, h: nat, c: int, r: int)
    requires
        cells.len() == w * h,
        w >= 1,
        h >= 1,
        cell_i(cells, h, 0, 0).visited,
        forall|c0: int, r0: int|
            pos_in_bounds(w, h, c0, r0) && cell_i(cells, h, c0, r0).visited
                ==> #[trigger] neighbors_visited(cells, w, h, c0, r0),
        pos_in_bounds(w, h, c, r),
    ensures
        cell_i(cells, h, c, r).visited,
    decreases c + r,
{
    if c == 0 && r == 0 {
    } else if c > 0 {
        lemma_reached(cells, w, h, c - 1, r);
        assert(neighbors_visited(cells, w, h, c - 1, r));
    } else {
        lemma_reached(cells, w, h, c, r - 1);
        assert(neighbors_visited(cells, w, h, c, r - 1));
    }
}

} // verus!
