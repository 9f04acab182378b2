use labyrinth::maze::MazeGenerator;
use labyrinth::rng::ReplaySource;
use labyrinth::walls::WallExtractor;

#[test]
fn a_single_cell_grid_yields_its_right_and_bottom_segments() {
    let mut rng = ReplaySource::new(vec![]);
    let g = MazeGenerator::generate(1, 1, &mut rng).unwrap();
    let walls = WallExtractor::extract(&g, 16);
    assert_eq!(walls.len(), 2);
    assert_eq!((walls[0].from.x, walls[0].from.y), (16, 0));
    assert_eq!((walls[0].to.x, walls[0].to.y), (16, 16));
    assert_eq!((walls[1].from.x, walls[1].from.y), (0, 16));
    assert_eq!((walls[1].to.x, walls[1].to.y), (16, 16));
}

#[test]
fn segments_come_out_column_major_with_right_before_bottom() {
    let mut rng = ReplaySource::new(vec![0, 0, 0, 0]);
    let g = MazeGenerator::generate(2, 1, &mut rng).unwrap();
    // (0,0) lost its right wall; its bottom wall and both of (1,0)'s walls
    // remain.
    let walls = WallExtractor::extract(&g, 16);
    assert_eq!(walls.len(), 3);
    assert_eq!((walls[0].from.x, walls[0].from.y), (0, 16));
    assert_eq!((walls[0].to.x, walls[0].to.y), (16, 16));
    assert_eq!((walls[1].from.x, walls[1].from.y), (32, 0));
    assert_eq!((walls[1].to.x, walls[1].to.y), (32, 16));
    assert_eq!((walls[2].from.x, walls[2].from.y), (16, 16));
    assert_eq!((walls[2].to.x, walls[2].to.y), (32, 16));
}

#[test]
fn extraction_twice_over_an_unmodified_grid_is_identical() {
    let draws: Vec<u32> = (0..128u32).map(|i| i.wrapping_mul(2246822519)).collect();
    let mut rng = ReplaySource::new(draws);
    let g = MazeGenerator::generate(5, 4, &mut rng).unwrap();
    let first = WallExtractor::extract(&g, 16);
    let second = WallExtractor::extract(&g, 16);
    assert_eq!(first.len(), second.len());
    for i in 0..first.len() {
        assert_eq!(first[i], second[i]);
    }
}
