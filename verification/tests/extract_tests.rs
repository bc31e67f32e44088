use senses::extract::{extract_highlights, find_highlights_in_map, flood_fill};
use senses::grid::Grid;
use senses::point::Point;
use senses::visual_object::VisualObject;

fn grid_from_bools(width: usize, height: usize, cells: Vec<bool>) -> Grid<bool> {
    assert_eq!(cells.len(), width * height);
    Grid::from_raw(width, height, cells)
}

fn sorted_points(pts: &[Point]) -> Vec<(u32, u32)> {
    let mut v: Vec<(u32, u32)> = pts.iter().map(|p| (p.x, p.y)).collect();
    v.sort();
    v
}

#[test]
fn single_cell_becomes_one_object() {
    // One on cell at (1, 1) surrounded by off cells: exactly one object with
    // one point and the degenerate bounding box ((1,1), (1,1)).
    let mut cells = vec![false; 9];
    cells[4] = true;
    let g = grid_from_bools(3, 3, cells);
    let mut objects = find_highlights_in_map(g, Point::new(0, 0));
    assert_eq!(objects.len(), 1);
    assert_eq!(sorted_points(&objects[0].points), vec![(1, 1)]);
    let bb = objects[0].size();
    assert_eq!(bb, Some((Point::new(1, 1), Point::new(1, 1))));
}

#[test]
fn diagonal_cells_merge_into_one_object() {
    // Two diagonally adjacent on cells: 8-connectivity merges them into a
    // single object with bounding box ((0,0), (1,1)).
    let g = grid_from_bools(2, 2, vec![true, false, false, true]);
    let mut objects = find_highlights_in_map(g, Point::new(0, 0));
    assert_eq!(objects.len(), 1);
    assert_eq!(sorted_points(&objects[0].points), vec![(0, 0), (1, 1)]);
    let bb = objects[0].size();
    assert_eq!(bb, Some((Point::new(0, 0), Point::new(1, 1))));
}

#[test]
fn distant_cells_make_separate_objects() {
    // Cells at (0,0) and (3,0) have a two-cell gap: two objects.
    let g = grid_from_bools(4, 1, vec![true, false, false, true]);
    let objects = find_highlights_in_map(g, Point::new(0, 0));
    assert_eq!(objects.len(), 2);
    let mut all: Vec<(u32, u32)> = Vec::new();
    for o in objects.iter() {
        assert_eq!(o.points.len(), 1);
        all.extend(sorted_points(&o.points));
    }
    all.sort();
    assert_eq!(all, vec![(0, 0), (3, 0)]);
}

#[test]
fn empty_grid_yields_no_objects() {
    let g = grid_from_bools(3, 2, vec![false; 6]);
    let objects = find_highlights_in_map(g, Point::new(0, 0));
    assert_eq!(objects.len(), 0);
}

#[test]
fn objects_partition_the_on_cells() {
    // A plus shape and a detached corner cell: the union of all objects'
    // points must be exactly the on cells, with no cell claimed twice.
    let rows = [
        [false, true, false, false, false],
        [true, true, true, false, false],
        [false, true, false, false, false],
        [false, false, false, false, true],
    ];
    let mut cells = Vec::new();
    let mut expected: Vec<(u32, u32)> = Vec::new();
    for (y, row) in rows.iter().enumerate() {
        for (x, v) in row.iter().enumerate() {
            cells.push(*v);
            if *v {
                expected.push((x as u32, y as u32));
            }
        }
    }
    expected.sort();
    let g = grid_from_bools(5, 4, cells);
    let objects = find_highlights_in_map(g, Point::new(0, 0));
    assert_eq!(objects.len(), 2);
    let mut all: Vec<(u32, u32)> = Vec::new();
    for o in objects.iter() {
        all.extend(sorted_points(&o.points));
    }
    let total = all.len();
    all.sort();
    all.dedup();
    // No cell claimed by two objects, and the union is exactly the on cells.
    assert_eq!(all.len(), total);
    assert_eq!(all, expected);
}

#[test]
fn flood_fill_clears_the_whole_component() {
    // (0,0) connects down to (0,1), across to (1,1), and diagonally up to
    // (2,0): the fill collects all four cells and clears the grid.
    let g = grid_from_bools(3, 2, vec![true, false, true, true, true, false]);
    let mut img = g;
    let mut obj = VisualObject::new(Point::new(0, 0));
    flood_fill(Point::new(0, 0), &mut obj, &mut img);
    assert_eq!(sorted_points(&obj.points), vec![(0, 0), (0, 1), (1, 1), (2, 0)]);
    assert_eq!(img.cells, vec![false; 6]);
}

#[test]
fn flood_fill_leaves_unconnected_cells_on() {
    // (3,0) is two columns away from the component around (0,0) and stays on.
    let g = grid_from_bools(4, 1, vec![true, true, false, true]);
    let mut img = g;
    let mut obj = VisualObject::new(Point::new(0, 0));
    flood_fill(Point::new(0, 0), &mut obj, &mut img);
    assert_eq!(sorted_points(&obj.points), vec![(0, 0), (1, 0)]);
    assert_eq!(img.cells, vec![false, false, false, true]);
}

#[test]
fn extract_highlights_appends_to_the_given_vector() {
    let g = grid_from_bools(2, 1, vec![true, false]);
    let mut objects: Vec<VisualObject> = Vec::new();
    extract_highlights(g, Point::new(7, 9), &mut objects);
    assert_eq!(objects.len(), 1);
    assert_eq!(objects[0].reference, Point::new(7, 9));
    assert_eq!(sorted_points(&objects[0].points), vec![(0, 0)]);
}
