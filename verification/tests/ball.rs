use labyrinth::ball::BallController;
use labyrinth::grid::{Cell, ConfigError, Grid};
use labyrinth::maze::MazeGenerator;
use labyrinth::rng::ReplaySource;

fn open_grid(width: usize, height: usize) -> Grid {
    // Every wall flag cleared and every cell visited: a canvas with no
    // walls at all.
    let mut cells = Vec::new();
    for _ in 0..width * height {
        cells.push(Cell { border_right: false, border_bottom: false, visited: true });
    }
    Grid { width, height, cells }
}

fn walled_grid(width: usize, height: usize) -> Grid {
    let mut cells = Vec::new();
    for _ in 0..width * height {
        cells.push(Cell { border_right: true, border_bottom: true, visited: true });
    }
    Grid { width, height, cells }
}

#[test]
fn zero_tilt_at_canvas_center_leaves_the_ball_still() {
    let mut rng = ReplaySource::new(vec![5, 3, 11, 2, 8, 1, 13, 7]);
    let grid = MazeGenerator::generate(3, 3, &mut rng).unwrap();
    let mut ball = BallController::new(grid, 16, 6, 24, 24).unwrap();
    ball.update(0, 0);
    assert_eq!(ball.momentum_x, 0);
    assert_eq!(ball.momentum_y, 0);
    assert_eq!(ball.center_x, 24);
    assert_eq!(ball.center_y, 24);
}

#[test]
fn momentum_is_the_scaled_tilt_with_x_negated() {
    let mut rng = ReplaySource::new(vec![1, 2, 3, 4, 5, 6, 7, 8]);
    let grid = MazeGenerator::generate(3, 3, &mut rng).unwrap();
    let mut ball = BallController::new(grid, 16, 6, 24, 24).unwrap();
    ball.update(350, -450);
    assert_eq!(ball.momentum_x, -1);
    assert_eq!(ball.momentum_y, -2);
    assert_eq!(ball.center_x, 23);
    assert_eq!(ball.center_y, 22);
}

#[test]
fn rightward_push_at_the_right_edge_clamps_exactly_to_the_margin() {
    // No walls stand in the way, so the clamp alone decides the outcome.
    let grid = open_grid(2, 1);
    let mut ball = BallController::new(grid, 16, 6, 26, 8).unwrap();
    assert_eq!(ball.center_x + ball.radius, ball.screen_width);
    ball.update(-400, 0);
    assert_eq!(ball.momentum_x, 2);
    assert_eq!(ball.center_x, 26);
    assert_eq!(ball.center_x, ball.screen_width - ball.radius);
}

#[test]
fn a_detected_wall_snaps_the_ball_short_of_it() {
    // Ball in the left cell, a wall at x = 16, pushed hard to the right: it
    // must stop with its edge short of the wall, not beyond it.
    let grid = walled_grid(2, 1);
    let mut ball = BallController::new(grid, 16, 6, 8, 8).unwrap();
    ball.update(-1400, 0);
    assert_eq!(ball.momentum_x, 7);
    assert_eq!(ball.center_x, 9);
    assert!(ball.center_x + ball.radius <= 16);
}

#[test]
fn a_wall_approached_from_the_right_keeps_the_ball_right_of_it() {
    // Ball in the right cell, strictly right of the wall at x = 16, pushed
    // left into a straddle: it snaps back to the right side of the wall.
    let grid = walled_grid(2, 1);
    let mut ball = BallController::new(grid, 16, 6, 23, 8).unwrap();
    assert!(ball.center_x - ball.radius >= 16);
    ball.update(400, 0);
    assert_eq!(ball.momentum_x, -2);
    assert_eq!(ball.center_x, 23);
    assert!(ball.center_x - ball.radius >= 16);
}

#[test]
fn every_tick_keeps_the_center_inside_the_margins() {
    let mut rng = ReplaySource::new((0..200u32).map(|i| i.wrapping_mul(69069)).collect());
    let grid = MazeGenerator::generate(4, 4, &mut rng).unwrap();
    let mut ball = BallController::new(grid, 16, 6, 24, 24).unwrap();
    let tilts = [
        (-3000i32, 2000i32),
        (4000, -4000),
        (-100, 100),
        (12000, 9000),
        (-9000, -12000),
        (0, 0),
        (250, -250),
        (-30000, 30000),
    ];
    for round in 0..8 {
        for &(tx, ty) in tilts.iter() {
            ball.update(tx + round, ty - round);
            assert!(ball.radius <= ball.center_x);
            assert!(ball.center_x <= ball.screen_width - ball.radius);
            assert!(ball.radius <= ball.center_y);
            assert!(ball.center_y <= ball.screen_height - ball.radius);
        }
    }
}

fn expect_config_error(res: Result<BallController, ConfigError>, expected: ConfigError) {
    match res {
        Ok(_) => panic!("expected {:?}", expected),
        Err(e) => assert_eq!(e, expected),
    }
}

#[test]
fn bad_configurations_fail_fast() {
    expect_config_error(
        BallController::new(walled_grid(2, 1), 1, 0, 8, 8),
        ConfigError::BadCellSize,
    );
    expect_config_error(
        BallController::new(walled_grid(2, 1), 16, 8, 8, 8),
        ConfigError::BadRadius,
    );
    expect_config_error(
        BallController::new(walled_grid(2, 1), 1_000_000, 6, 8, 8),
        ConfigError::CanvasTooLarge,
    );
    expect_config_error(
        BallController::new(walled_grid(2, 1), 16, 6, 0, 0),
        ConfigError::StartOutOfBounds,
    );
}
