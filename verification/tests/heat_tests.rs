use senses::config::Config;
use senses::grid::Grid;
use senses::heat::{get_bricked_heat_map, get_crisp_heat_map, heat_map, heat_stats};

fn cfg2() -> Config {
    Config { cell_size: 2, dark: 5, bright: 250, edge_coef: 10, max_passes: 100 }
}

#[test]
fn bricked_counts_every_edge_pixel() {
    // A 4x4 edge map that is entirely edge pixels (all 0) with 2-pixel cells:
    // every one of the 3x3 overlapping cells covers 4 edge pixels.
    let edge = Grid::from_raw(4, 4, vec![0u8; 16]);
    let b = get_bricked_heat_map(&edge, &cfg2());
    assert_eq!(b.width, 3);
    assert_eq!(b.height, 3);
    assert_eq!(b.cells, vec![4u32; 9]);
}

#[test]
fn crisp_averages_full_bricks_to_four() {
    // Averaging four overlapping bricks of heat 4 keeps the interior at 4,
    // the forced border at 0, and the maximum at 4.
    let edge = Grid::from_raw(4, 4, vec![0u8; 16]);
    let b = get_bricked_heat_map(&edge, &cfg2());
    let (crisp, heat_max, heat_mean) = get_crisp_heat_map(&b, 4, 4, &cfg2());
    assert_eq!(crisp.width, 4);
    assert_eq!(crisp.height, 4);
    let expected: Vec<u32> = vec![
        0, 0, 0, 0,
        0, 4, 4, 0,
        0, 4, 4, 0,
        0, 0, 0, 0,
    ];
    assert_eq!(crisp.cells, expected);
    assert_eq!(heat_max, 4);
    assert_eq!(heat_mean, Some(4));
}

#[test]
fn background_image_has_no_heat() {
    // A 4x4 edge map without a single edge pixel: all heats are zero, the
    // maximum is floored at 1, and the mean of positive cells is undefined.
    let edge = Grid::from_raw(4, 4, vec![255u8; 16]);
    let (crisp, heat_max, heat_mean) = heat_map(&edge, &cfg2());
    assert_eq!(crisp.cells, vec![0u32; 16]);
    assert_eq!(heat_max, 1);
    assert_eq!(heat_mean, None);
}

#[test]
fn crisp_averages_a_single_brick() {
    // One hot brick in the corner contributes a quarter of its heat to the
    // single interior cell it overlaps.
    let bricked = Grid::from_raw(3, 3, vec![4u32, 0, 0, 0, 0, 0, 0, 0, 0]);
    let (crisp, heat_max, heat_mean) = get_crisp_heat_map(&bricked, 4, 4, &cfg2());
    let expected: Vec<u32> = vec![
        0, 0, 0, 0,
        0, 1, 0, 0,
        0, 0, 0, 0,
        0, 0, 0, 0,
    ];
    assert_eq!(crisp.cells, expected);
    assert_eq!(heat_max, 1);
    assert_eq!(heat_mean, Some(1));
}

#[test]
fn stats_mean_ignores_zero_cells() {
    let g = Grid::from_raw(5, 1, vec![0u32, 2, 4, 0, 6]);
    let (heat_max, heat_mean) = heat_stats(&g);
    assert_eq!(heat_max, 6);
    assert_eq!(heat_mean, Some(4));
}

#[test]
fn stats_floor_the_maximum_at_one() {
    let g = Grid::from_raw(3, 1, vec![0u32, 0, 0]);
    let (heat_max, heat_mean) = heat_stats(&g);
    assert_eq!(heat_max, 1);
    assert_eq!(heat_mean, None);
}

#[test]
fn stats_mean_rounds_down() {
    let g = Grid::from_raw(4, 1, vec![1u32, 2, 0, 1]);
    let (heat_max, heat_mean) = heat_stats(&g);
    assert_eq!(heat_max, 2);
    // (1 + 2 + 1) / 3 rounds down to 1.
    assert_eq!(heat_mean, Some(1));
}
