use senses::config::Config;
use senses::error::PipelineError;
use senses::grid::Grid;
use senses::pipeline::{highlight_objects, identify_objects};

fn cfg(cell_size: usize, edge_coef: u32) -> Config {
    Config { cell_size, dark: 5, bright: 250, edge_coef, max_passes: 1000 }
}

#[test]
fn ill_fitting_cell_size_is_a_configuration_error() {
    // 2 does not divide 5, 3 is odd, 0 is degenerate: all rejected before any
    // work happens.
    let g = Grid::from_raw(5, 4, vec![100u8; 20]);
    assert_eq!(identify_objects(g, &cfg(2, 10)).err(), Some(PipelineError::CellSizeMismatch));
    let g = Grid::from_raw(6, 6, vec![100u8; 36]);
    assert_eq!(identify_objects(g, &cfg(3, 10)).err(), Some(PipelineError::CellSizeMismatch));
    let g = Grid::from_raw(6, 6, vec![100u8; 36]);
    assert_eq!(identify_objects(g, &cfg(0, 10)).err(), Some(PipelineError::CellSizeMismatch));
}

#[test]
fn image_without_edges_yields_zero_objects() {
    // With coefficient 0 a mild uniform image produces no edge pixels at all,
    // the heat map stays empty, and the guarded degenerate case returns an
    // empty object list instead of dividing by a zero counter.
    let g = Grid::from_raw(4, 4, vec![50u8; 16]);
    let objects = identify_objects(g, &cfg(2, 0)).expect("valid configuration");
    assert_eq!(objects.len(), 0);
}

#[test]
fn saturated_image_stabilizes_into_one_highlight() {
    // A uniform image under coefficient 10 saturates both kernels everywhere:
    // the whole 4x4 edge map is edge pixels, the crisp heat map is 4 in the
    // interior with heat_max == heat_mean == 4, every non-zero cell is
    // already terminal, and the four live cells form one connected object.
    let g = Grid::from_raw(4, 4, vec![100u8; 16]);
    let objects = identify_objects(g, &cfg(2, 10)).expect("valid configuration");
    assert_eq!(objects.len(), 1);
    let mut pts: Vec<(u32, u32)> = objects[0].points.iter().map(|p| (p.x, p.y)).collect();
    pts.sort();
    assert_eq!(pts, vec![(1, 1), (1, 2), (2, 1), (2, 2)]);
}

#[test]
fn highlight_objects_returns_the_stabilized_grid() {
    let g = Grid::from_raw(4, 4, vec![100u8; 16]);
    // The edge detector marks everything, so the stabilized grid keeps the
    // interior at the maximum and the border at zero.
    let edge = senses::edges::find_edges(&g, &cfg(2, 10));
    let stable = highlight_objects(&edge, &cfg(2, 10)).expect("valid configuration");
    let expected: Vec<u32> = vec![
        0, 0, 0, 0,
        0, 4, 4, 0,
        0, 4, 4, 0,
        0, 0, 0, 0,
    ];
    assert_eq!(stable.cells, expected);
}

#[test]
fn highlight_objects_rejects_a_bad_cell_size() {
    let edge = Grid::from_raw(4, 4, vec![255u8; 16]);
    assert_eq!(
        highlight_objects(&edge, &cfg(3, 10)).err(),
        Some(PipelineError::CellSizeMismatch)
    );
}

#[test]
fn highlight_objects_passes_through_empty_heat() {
    let edge = Grid::from_raw(4, 4, vec![255u8; 16]);
    let stable = highlight_objects(&edge, &cfg(2, 10)).expect("valid configuration");
    assert_eq!(stable.cells, vec![0u32; 16]);
}

#[test]
fn quiet_edge_grid_yields_zero_objects() {
    // The full chain from an edge map without edge pixels: the heat map is
    // all zero, the stabilized grid is all zero, no cell is on after
    // thresholding, and extraction returns zero objects.
    let edge = Grid::from_raw(4, 4, vec![255u8; 16]);
    let stable = highlight_objects(&edge, &cfg(2, 10)).expect("valid configuration");
    let pm = senses::automaton::to_point_map(&stable);
    let objects = senses::extract::find_highlights_in_map(pm, senses::point::Point::new(0, 0));
    assert_eq!(objects.len(), 0);
}

#[test]
fn partition_holds_on_a_structured_image() {
    // A detailed image: whatever the automaton settles on, the returned
    // objects must partition the live cells — no duplicates across objects —
    // and each object is non-empty with the zero reference.
    let mut cells = Vec::new();
    for y in 0..8u32 {
        for x in 0..8u32 {
            let v = if (3..5).contains(&x) && (3..5).contains(&y) { 240 } else { 30 };
            cells.push(v as u8);
        }
    }
    let g = Grid::from_raw(8, 8, cells);
    let objects = identify_objects(g, &cfg(2, 10)).expect("valid configuration");
    let mut all: Vec<(u32, u32)> = Vec::new();
    for o in objects.iter() {
        assert!(o.points.len() > 0);
        assert_eq!((o.reference.x, o.reference.y), (0, 0));
        all.extend(o.points.iter().map(|p| (p.x, p.y)));
    }
    let total = all.len();
    all.sort();
    all.dedup();
    assert_eq!(all.len(), total);
}
