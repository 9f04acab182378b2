use labyrinth::grid::{Cell, ConfigError, Grid};
use labyrinth::maze::MazeGenerator;
use labyrinth::rng::{RandomSource, ReplaySource};

fn cleared_walls(g: &Grid) -> usize {
    let mut n = 0;
    for c in 0..g.width {
        for r in 0..g.height {
            let cell = g.cell(c, r);
            if !cell.border_right {
                n += 1;
            }
            if !cell.border_bottom {
                n += 1;
            }
        }
    }
    n
}

/// Breadth-first search over cleared walls, counting reachable cells.
fn reachable_cells(g: &Grid) -> usize {
    let w = g.width;
    let h = g.height;
    let mut seen = vec![false; w * h];
    let mut queue = vec![(0usize, 0usize)];
    seen[0] = true;
    let mut count = 0;
    while let Some((c, r)) = queue.pop() {
        count += 1;
        let mut neighbors: Vec<(usize, usize)> = Vec::new();
        if c > 0 && !g.cell(c - 1, r).border_right {
            neighbors.push((c - 1, r));
        }
        if c + 1 < w && !g.cell(c, r).border_right {
            neighbors.push((c + 1, r));
        }
        if r > 0 && !g.cell(c, r - 1).border_bottom {
            neighbors.push((c, r - 1));
        }
        if r + 1 < h && !g.cell(c, r).border_bottom {
            neighbors.push((c, r + 1));
        }
        for (nc, nr) in neighbors {
            if !seen[nc * h + nr] {
                seen[nc * h + nr] = true;
                queue.push((nc, nr));
            }
        }
    }
    count
}

#[test]
fn one_by_one_grid_carves_nothing() {
    let mut rng = ReplaySource::new(vec![]);
    let g = MazeGenerator::generate(1, 1, &mut rng).unwrap();
    assert_eq!(g.width, 1);
    assert_eq!(g.height, 1);
    assert!(g.cell(0, 0).border_right);
    assert!(g.cell(0, 0).border_bottom);
    assert_eq!(cleared_walls(&g), 0);
}

#[test]
fn two_by_one_grid_with_zero_draws_clears_the_middle_wall() {
    let mut rng = ReplaySource::new(vec![0, 42]);
    let g = MazeGenerator::generate(2, 1, &mut rng).unwrap();
    assert!(!g.cell(0, 0).border_right);
    assert!(g.cell(0, 0).border_bottom);
    assert!(g.cell(1, 0).border_right);
    assert!(g.cell(1, 0).border_bottom);
    assert_eq!(cleared_walls(&g), 1);
    assert_eq!(reachable_cells(&g), 2);
    // Exactly one draw was consumed: the second recorded value is still
    // there.
    assert_eq!(rng.next_u32(), 42);
}

#[test]
fn generation_is_deterministic_for_a_recorded_sequence() {
    let draws: Vec<u32> = (0..64u32).map(|i| i.wrapping_mul(2654435761)).collect();
    let mut rng1 = ReplaySource::new(draws.clone());
    let mut rng2 = ReplaySource::new(draws);
    let g1 = MazeGenerator::generate(6, 5, &mut rng1).unwrap();
    let g2 = MazeGenerator::generate(6, 5, &mut rng2).unwrap();
    for c in 0..6 {
        for r in 0..5 {
            assert_eq!(g1.cell(c, r).border_right, g2.cell(c, r).border_right);
            assert_eq!(g1.cell(c, r).border_bottom, g2.cell(c, r).border_bottom);
        }
    }
}

#[test]
fn generation_clears_cells_minus_one_walls_and_connects_everything() {
    let draws: Vec<u32> = (0..128u32).map(|i| i.wrapping_mul(48271).wrapping_add(7)).collect();
    let mut rng = ReplaySource::new(draws);
    let g = MazeGenerator::generate(6, 5, &mut rng).unwrap();
    assert_eq!(cleared_walls(&g), 6 * 5 - 1);
    assert_eq!(reachable_cells(&g), 6 * 5);
}

#[test]
fn boundary_walls_are_never_cleared() {
    let draws: Vec<u32> = (0..256u32).map(|i| i.wrapping_mul(1103515245).wrapping_add(12345)).collect();
    let mut rng = ReplaySource::new(draws);
    let g = MazeGenerator::generate(7, 4, &mut rng).unwrap();
    for r in 0..4 {
        assert!(g.cell(6, r).border_right);
    }
    for c in 0..7 {
        assert!(g.cell(c, 3).border_bottom);
    }
}

#[test]
fn zero_dimensions_are_rejected() {
    let mut rng = ReplaySource::new(vec![]);
    assert_eq!(MazeGenerator::generate(0, 5, &mut rng).unwrap_err(), ConfigError::ZeroWidth);
    assert_eq!(MazeGenerator::generate(5, 0, &mut rng).unwrap_err(), ConfigError::ZeroHeight);
    assert_eq!(MazeGenerator::generate(300, 300, &mut rng).unwrap_err(), ConfigError::TooManyCells);
}

#[test]
fn replay_source_returns_its_recording_then_zero() {
    let mut rng = ReplaySource::new(vec![9, 4]);
    assert_eq!(rng.next_u32(), 9);
    assert_eq!(rng.next_u32(), 4);
    assert_eq!(rng.next_u32(), 0);
    assert_eq!(rng.next_u32(), 0);
}

#[test]
fn fresh_cell_has_both_walls_and_is_unvisited() {
    let cell = Cell::new();
    assert!(cell.border_right);
    assert!(cell.border_bottom);
    assert!(!cell.visited);
}
