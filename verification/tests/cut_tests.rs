use image::{DynamicImage, GenericImageView};
use senses::config::Config;
use senses::cut::{cut_highlights_from_image, highlight_frame};
use senses::file::File;
use senses::point::Point;
use senses::visual_object::VisualObject;

fn cfg(cell_size: usize) -> Config {
    Config { cell_size, dark: 5, bright: 250, edge_coef: 10, max_passes: 100 }
}

#[test]
fn frame_of_an_interior_box() {
    // Cell box (1,1)..(1,1), reference (0,0), 2-pixel cells: one cell of
    // padding on each side gives the pixel rectangle (0, 0, 2, 2).
    let rect = highlight_frame(Point::new(1, 1), Point::new(1, 1), Point::new(0, 0), 2);
    assert_eq!(rect, (0, 0, 2, 2));
}

#[test]
fn frame_clamps_padding_at_the_origin() {
    // A box starting at cell (0,0) cannot be padded to the left or up: the
    // corner clamps to pixel (0,0).
    let rect = highlight_frame(Point::new(0, 0), Point::new(2, 3), Point::new(0, 0), 4);
    assert_eq!(rect, (0, 0, 8, 10));
}

#[test]
fn frame_applies_the_reference_offset() {
    let rect = highlight_frame(Point::new(1, 2), Point::new(3, 4), Point::new(10, 20), 2);
    // Corner: (1 + 10 - 1) * 1 == 10, (2 + 20 - 1) * 1 == 21.
    // Extent: (3 - 1 + 2) * 1 == 4, (4 - 2 + 2) * 1 == 4.
    assert_eq!(rect, (10, 21, 4, 4));
}

#[test]
fn cutting_crops_the_framed_rectangle() {
    let img = DynamicImage::new_rgb8(10, 10);
    let mut o = VisualObject::new(Point::new(0, 0));
    o.push(Point::new(1, 1));
    let crops = cut_highlights_from_image(vec![o], img, &cfg(2));
    assert_eq!(crops.len(), 1);
    assert_eq!(crops[0].dimensions(), (2, 2));
}

#[test]
fn cutting_clips_at_the_image_border() {
    // Frame (5, 5, 2, 2) on a 6x6 image leaves only one pixel each way.
    let img = DynamicImage::new_rgb8(6, 6);
    let mut o = VisualObject::new(Point::new(0, 0));
    o.push(Point::new(6, 6));
    let crops = cut_highlights_from_image(vec![o], img, &cfg(2));
    assert_eq!(crops.len(), 1);
    assert_eq!(crops[0].dimensions(), (1, 1));
}

#[test]
fn empty_objects_are_skipped_not_errored() {
    let img = DynamicImage::new_rgb8(8, 8);
    let empty = VisualObject::new(Point::new(0, 0));
    let mut full = VisualObject::new(Point::new(0, 0));
    full.push(Point::new(1, 1));
    let crops = cut_highlights_from_image(vec![empty, full], img, &cfg(2));
    assert_eq!(crops.len(), 1);
}

#[test]
fn file_joins_path_name_and_extension() {
    let f = File::new(
        String::from("data/debug-1/video"),
        String::from("output_0407"),
        String::from("png"),
    );
    assert_eq!(f.get_full_path(), String::from("data/debug-1/video/output_0407.png"));
    assert_eq!(f.get_name(), String::from("output_0407"));
    assert_eq!(f.get_extension(), String::from("png"));
}

#[test]
fn default_config_matches_the_tuning() {
    let c = Config::default();
    assert_eq!(c.cell_size, 20);
    assert_eq!(c.dark, 5);
    assert_eq!(c.bright, 250);
    assert_eq!(c.edge_coef, 10);
    assert_eq!(c.max_passes, 1000);
}

#[test]
fn config_validity_requires_an_even_divisor() {
    let c = cfg(2);
    assert!(c.is_valid_for(4, 6));
    assert!(!c.is_valid_for(5, 6));
    assert!(!c.is_valid_for(0, 6));
    assert!(!cfg(3).is_valid_for(6, 6));
    assert!(!cfg(0).is_valid_for(6, 6));
    let c20 = cfg(20);
    assert!(c20.is_valid_for(640, 480));
    assert!(!c20.is_valid_for(640, 470));
}
