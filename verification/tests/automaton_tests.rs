use senses::automaton::{cellular_automaton, get_neighborhood_heat, to_point_map};
use senses::error::PipelineError;
use senses::grid::Grid;

#[test]
fn neighborhood_mean_of_center_cell() {
    let g = Grid::from_raw(3, 3, vec![1u32, 2, 3, 4, 5, 6, 7, 8, 9]);
    // (1 + 2 + 3 + 4 + 6 + 7 + 8 + 9) / 8 == 5
    assert_eq!(get_neighborhood_heat(&g, 1, 1), 5);
}

#[test]
fn neighborhood_mean_treats_outside_as_zero() {
    let g = Grid::from_raw(3, 3, vec![8u32, 8, 8, 8, 8, 8, 8, 8, 8]);
    // The corner sees only 3 real neighbours: (8 + 8 + 8) / 8 == 3.
    assert_eq!(get_neighborhood_heat(&g, 0, 0), 3);
}

#[test]
fn stabilized_grid_comes_back_identical() {
    // Every cell already 0 or heat_max: the automaton must return the
    // identical grid at once.
    let cells = vec![0u32, 5, 0, 5, 5, 0];
    let g = Grid::from_raw(3, 2, cells.clone());
    let r = cellular_automaton(g, 5, 3, 100);
    match r {
        Ok(out) => assert_eq!(out.cells, cells),
        Err(_) => panic!("stabilized input must not fail"),
    }
}

#[test]
fn isolated_cell_dies_in_one_pass() {
    // A lone cell below the mean with an all-zero neighbourhood dies, after
    // which the grid is fully stabilized.
    let g = Grid::from_raw(3, 3, vec![0u32, 0, 0, 0, 2, 0, 0, 0, 0]);
    let r = cellular_automaton(g, 4, 3, 100);
    match r {
        Ok(out) => assert_eq!(out.cells, vec![0u32; 9]),
        Err(_) => panic!("dying cell must stabilize"),
    }
}

#[test]
fn supported_cell_dies_of_low_neighborhood() {
    // Cell 1 has heat 2, neighbours 0 and 4: mean (0 + 4) / 8 == 0 is below
    // min(heat_mean, heat), so it dies; the rest are terminal already.
    let g = Grid::from_raw(3, 1, vec![0u32, 2, 4]);
    let r = cellular_automaton(g, 4, 1, 100);
    match r {
        Ok(out) => assert_eq!(out.cells, vec![0u32, 0, 4]),
        Err(_) => panic!("must stabilize"),
    }
}

#[test]
fn automaton_reports_nonconvergence() {
    // A synthetic oscillation candidate: the middle cell's neighbourhood mean
    // exactly offsets the decay, so each pass reproduces the same
    // non-terminal grid and the pass budget runs out.
    let g = Grid::from_raw(3, 1, vec![4u32, 2, 4]);
    let r = cellular_automaton(g, 4, 1, 50);
    assert_eq!(r.err(), Some(PipelineError::NonConvergence));
}

#[test]
fn zero_pass_budget_fails_on_unstable_input() {
    let g = Grid::from_raw(3, 1, vec![0u32, 2, 4]);
    let r = cellular_automaton(g, 4, 1, 0);
    assert_eq!(r.err(), Some(PipelineError::NonConvergence));
}

#[test]
fn zero_pass_budget_accepts_stable_input() {
    let g = Grid::from_raw(2, 1, vec![0u32, 4]);
    let r = cellular_automaton(g, 4, 1, 0);
    match r {
        Ok(out) => assert_eq!(out.cells, vec![0u32, 4]),
        Err(_) => panic!("stable input must pass with a zero budget"),
    }
}

#[test]
fn growth_is_capped_at_heat_max() {
    // Cell 1 (heat 3) sees neighbourhood mean (4 + 4) / 8 == 1, which is at
    // least the grid mean 0, so it grows by the surplus 3 + 1 - 0 == 4 and
    // the cap at heat_max keeps it exactly there: one pass stabilizes.
    let g = Grid::from_raw(3, 1, vec![4u32, 3, 4]);
    let r = cellular_automaton(g, 4, 0, 10);
    match r {
        Ok(out) => assert_eq!(out.cells, vec![4u32, 4, 4]),
        Err(_) => panic!("growing cell must stabilize"),
    }
}

#[test]
fn threshold_marks_nonzero_cells() {
    let g = Grid::from_raw(4, 1, vec![0u32, 3, 0, 7]);
    let p = to_point_map(&g);
    assert_eq!(p.cells, vec![false, true, false, true]);
    assert_eq!(p.width, 4);
    assert_eq!(p.height, 1);
}
