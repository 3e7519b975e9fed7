use raytracer::pixel::color;
use raytracer::sampling::Sample;
use raytracer::tiles::{Tile, TileGrid};

fn sample(s: &Sample) -> (usize, usize, usize, usize) {
    (s.x, s.y, s.jitter_x, s.jitter_y)
}

#[test]
fn grid_rounds_tile_counts_up() {
    let g = TileGrid::new(1920, 1080, 96);
    assert_eq!(g.tiles_x(), 20);
    assert_eq!(g.tiles_y(), 12);
    assert_eq!(g.tile_count(), 240);
    let g = TileGrid::new(4, 4, 2);
    assert_eq!(g.tile_count(), 4);
}

#[test]
fn edge_tiles_are_clipped() {
    let g = TileGrid::new(1920, 1080, 96);
    let r = g.tile_rect(239);
    assert_eq!((r.min_x, r.min_y, r.max_x, r.max_y), (1824, 1056, 1920, 1080));
    let r = g.tile_rect(21);
    assert_eq!((r.min_x, r.min_y, r.max_x, r.max_y), (96, 96, 192, 192));
}

#[test]
fn tile_order_is_a_shuffled_permutation() {
    let g = TileGrid::new(1920, 1080, 96);
    let mut rng = rand::XorShiftRng::new_unseeded();
    let order = g.tile_order(&mut rng);
    let identity: Vec<usize> = (0..240).collect();
    assert_ne!(order, identity);
    let mut sorted = order.clone();
    sorted.sort();
    assert_eq!(sorted, identity);
}

#[test]
fn sample_plan_walks_pixels_and_rotates_the_cursor() {
    let g = TileGrid::new(5, 3, 2);
    let plan = g.sample_plan(2, 3, 4);
    let got: Vec<_> = plan.iter().map(sample).collect();
    assert_eq!(
        got,
        vec![
            (4, 0, 0, 1),
            (4, 0, 2, 3),
            (4, 0, 0, 1),
            (4, 1, 2, 3),
            (4, 1, 0, 1),
            (4, 1, 2, 3),
        ]
    );
}

#[test]
fn sample_plan_wraps_an_odd_pool() {
    let g = TileGrid::new(2, 2, 2);
    let plan = g.sample_plan(0, 1, 3);
    let got: Vec<_> = plan.iter().map(sample).collect();
    assert_eq!(got, vec![(0, 0, 0, 1), (1, 0, 2, 0), (0, 1, 1, 2), (1, 1, 0, 1)]);
}

#[test]
fn resolve_tile_averages_each_pixel() {
    let g = TileGrid::new(5, 3, 2);
    let colors = vec![(10u8, 0u8, 0u8), (21, 0, 0), (0, 8, 0), (0, 9, 1)];
    let tile = g.resolve_tile(2, 2, &colors);
    assert_eq!(tile.index, 2);
    assert_eq!(tile.pixels, vec![color(15, 0, 0), 0, color(0, 8, 0), 0]);
}

fn rendered(g: &TileGrid, t: usize) -> Tile {
    let n = g.side * g.side;
    Tile { index: t, pixels: (0..n).map(|k| (t * 100 + k) as u32).collect() }
}

fn merge_in(g: &TileGrid, order: &[usize]) -> Vec<u32> {
    let tiles: Vec<Tile> = order.iter().map(|&t| rendered(g, t)).collect();
    let mut frame = vec![7u32; g.width * g.height];
    g.merge_tiles(&mut frame, &tiles);
    frame
}

#[test]
fn merge_places_each_tile_in_its_rectangle() {
    let g = TileGrid::new(5, 3, 2);
    let frame = merge_in(&g, &[0, 1, 2, 3, 4, 5]);
    assert_eq!(
        frame,
        vec![0, 1, 100, 101, 200, 2, 3, 102, 103, 202, 300, 301, 400, 401, 500]
    );
}

#[test]
fn merge_leaves_pixels_of_missing_tiles() {
    let g = TileGrid::new(5, 3, 2);
    let frame = merge_in(&g, &[4]);
    assert_eq!(frame, vec![7, 7, 7, 7, 7, 7, 7, 7, 7, 7, 7, 7, 400, 401, 7]);
}

#[test]
fn merge_order_does_not_change_the_frame() {
    let g = TileGrid::new(5, 3, 2);
    let a = merge_in(&g, &[0, 1, 2, 3, 4, 5]);
    let b = merge_in(&g, &[5, 3, 1, 0, 4, 2]);
    assert_eq!(a, b);
    let g = TileGrid::new(1920, 1080, 96);
    let mut rng = rand::XorShiftRng::new_unseeded();
    let first = g.tile_order(&mut rng);
    let second = g.tile_order(&mut rng);
    assert_ne!(first, second);
    assert_eq!(merge_in(&g, &first), merge_in(&g, &second));
}

#[test]
fn merge_tile_copies_one_tile() {
    let g = TileGrid::new(4, 4, 2);
    let mut frame = vec![0u32; 16];
    g.merge_tile(&mut frame, &Tile { index: 3, pixels: vec![1, 2, 3, 4] });
    assert_eq!(frame, vec![0, 0, 0, 0, 0, 0, 0, 0, 0, 0, 1, 2, 0, 0, 3, 4]);
}
