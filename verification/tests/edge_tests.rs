use senses::config::Config;
use senses::edges::{find_edges, smooth_out_polarized_pixels};
use senses::grid::Grid;
use senses::helpers::pixel_value;

fn cfg(cell_size: usize, edge_coef: u32) -> Config {
    Config { cell_size, dark: 5, bright: 250, edge_coef, max_passes: 100 }
}

#[test]
fn pixel_value_reads_in_bounds() {
    let v: Vec<Vec<u32>> = vec![vec![1, 2], vec![3, 4]];
    assert_eq!(pixel_value(&v, 0, 0, 9), 1);
    assert_eq!(pixel_value(&v, 1, 0, 9), 2);
    assert_eq!(pixel_value(&v, 0, 1, 9), 3);
    assert_eq!(pixel_value(&v, 1, 1, 9), 4);
}

#[test]
fn pixel_value_defaults_outside_bounds() {
    let v: Vec<Vec<u32>> = vec![vec![1, 2], vec![3, 4]];
    assert_eq!(pixel_value(&v, -1, 0, 9), 9);
    assert_eq!(pixel_value(&v, 0, -1, 9), 9);
    assert_eq!(pixel_value(&v, 2, 0, 9), 9);
    assert_eq!(pixel_value(&v, 0, 2, 9), 9);
    let empty: Vec<Vec<bool>> = Vec::new();
    assert_eq!(pixel_value(&empty, 0, 0, true), true);
}

#[test]
fn grid_sample_defaults_outside_bounds() {
    let g = Grid::from_raw(2, 2, vec![1u8, 2, 3, 4]);
    assert_eq!(g.sample_or(0, 0, 9), 1);
    assert_eq!(g.sample_or(1, 1, 9), 4);
    assert_eq!(g.sample_or(-1, 0, 9), 9);
    assert_eq!(g.sample_or(0, -1, 9), 9);
    assert_eq!(g.sample_or(2, 0, 9), 9);
    assert_eq!(g.sample_or(0, 2, 9), 9);
}

#[test]
fn clamping_pulls_samples_to_the_bounds() {
    let g = Grid::from_raw(5, 1, vec![0u8, 5, 100, 250, 255]);
    let c = smooth_out_polarized_pixels(&g, 5, 250);
    assert_eq!(c.cells, vec![5u8, 5, 100, 250, 250]);
    assert_eq!(c.width, 5);
    assert_eq!(c.height, 1);
}

#[test]
fn uniform_image_saturates_both_kernels() {
    // With coefficient 10 the middle row alone sums to 300, so every response
    // clamps to 255 and every pixel is marked as an edge (0).
    let g = Grid::from_raw(3, 3, vec![100u8; 9]);
    let e = find_edges(&g, &cfg(2, 10));
    assert_eq!(e.cells, vec![0u8; 9]);
}

#[test]
fn zero_coefficient_keeps_responses_moderate() {
    // With coefficient 0 both responses equal the middle row/column sum,
    // which stays strictly between 0 and 255 here, so everything is
    // background (255).
    let g = Grid::from_raw(3, 3, vec![50u8; 9]);
    let e = find_edges(&g, &cfg(2, 0));
    assert_eq!(e.cells, vec![255u8; 9]);
}

#[test]
fn edge_map_is_binary() {
    // A gradient image: whatever the responses are, every output sample must
    // be exactly 0 or 255.
    let mut cells = Vec::new();
    for y in 0..6u32 {
        for x in 0..6u32 {
            cells.push((x * 40 + y * 7) as u8);
        }
    }
    let g = Grid::from_raw(6, 6, cells);
    let e = find_edges(&g, &cfg(2, 10));
    assert_eq!(e.cells.len(), 36);
    for s in e.cells.iter() {
        assert!(*s == 0 || *s == 255);
    }
}

#[test]
fn edge_map_keeps_dimensions() {
    let g = Grid::from_raw(4, 2, vec![10u8; 8]);
    let e = find_edges(&g, &cfg(2, 10));
    assert_eq!(e.width, 4);
    assert_eq!(e.height, 2);
    assert_eq!(e.cells.len(), 8);
}
