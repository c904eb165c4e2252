use sudoku::render::{cell_text_origin, grid_pixel, GridPixel};

#[test]
fn grid_pixel_marks_border_lines() {
    assert!(matches!(grid_pixel(0, 5, 80), GridPixel::Border));
    assert!(matches!(grid_pixel(5, 0, 80), GridPixel::Border));
    assert!(matches!(grid_pixel(240, 241, 80), GridPixel::Border));
    assert!(matches!(grid_pixel(161, 400, 80), GridPixel::Border));
}

#[test]
fn grid_pixel_shades_alternating_blocks() {
    // (250, 10) lies in the second block column, first block row: shaded.
    assert!(matches!(grid_pixel(250, 10, 80), GridPixel::Shaded));
    // (10, 250) lies in the first block column, second block row: shaded.
    assert!(matches!(grid_pixel(10, 250, 80), GridPixel::Shaded));
    // (250, 250) lies in the second block of both: unshaded.
    assert!(matches!(grid_pixel(250, 250, 80), GridPixel::Blank));
    // The top-left block is unshaded.
    assert!(matches!(grid_pixel(10, 10, 80), GridPixel::Blank));
}

#[test]
fn cell_text_origin_centres_inside_the_cell() {
    // Cell (2, 3), cell size 80, text 30x40: a third of the horizontal slack
    // and half of the vertical slack from the cell's top-left corner.
    let (x, y) = cell_text_origin(2, 3, 80, 30, 40);
    assert_eq!(x, 2 * 80 + (80 - 30) / 3);
    assert_eq!(x, 176);
    assert_eq!(y, 3 * 80 + (80 - 40) / 2);
    assert_eq!(y, 260);
}

#[test]
fn cell_text_origin_with_text_filling_the_cell() {
    let (x, y) = cell_text_origin(0, 0, 80, 80, 80);
    assert_eq!((x, y), (0, 0));
}
