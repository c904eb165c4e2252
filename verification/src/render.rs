use vstd::prelude::*;

verus! {

/// What one pixel of the board's background shows: a border line, the
/// shading of alternating 3x3 blocks, or nothing.
pub enum GridPixel {
    Border,
    Shaded,
    Blank,
}

/// The pixel at (`x`, `y`) lies on a cell border line.
pub open spec fn on_border(x: int, y: int, cell_size: int) -> bool {
    x % cell_size == 0 || y % cell_size == 0
}

/// The pixel at (`x`, `y`) lies in a shaded 3x3 block: blocks alternate
/// like a checkerboard, the top-left block unshaded.
pub open spec fn in_shaded_block(x: int, y: int, cell_size: int) -> bool {
    (x / (cell_size * 3) % 2 + y / (cell_size * 3) % 2) % 2 != 0
}

/// Classifies one pixel of the board's background. Border lines win over
/// block shading; everything else stays blank.
pub fn grid_pixel(x: u32, y: u32, cell_size: u32) -> (r: GridPixel)
    requires
        1 <= cell_size,
        3 * cell_size <= u32::MAX,
    ensures
        r == (if on_border(x as int, y as int, cell_size as int) {
            GridPixel::Border
        } else if in_shaded_block(x as int, y as int, cell_size as int) {
            GridPixel::Shaded
        } else {
            GridPixel::Blank
        }),
{
    if x % cell_size == 0 || y % cell_size == 0 {
        GridPixel::Border
    } else {
        let block_x = (x / (cell_size * 3)) % 2;
        let block_y = (y / (cell_size * 3)) % 2;
        if (block_x + block_y) % 2 != 0 {
            GridPixel::Shaded
        } else {
            GridPixel::Blank
        }
    }
}

/// Where the top-left corner of a digit's glyph box goes so that text of
/// size (`text_w`, `text_h`) sits inside cell (`cell_x`, `cell_y`): a third
/// of the slack from the cell's left edge, half the slack from its top.
pub fn cell_text_origin(
    cell_x: u32,
    cell_y: u32,
    cell_size: u32,
    text_w: u32,
    text_h: u32,
) -> (r: (u32, u32))
    requires
        cell_x < 9,
        cell_y < 9,
        10 * cell_size <= u32::MAX,
        text_w <= cell_size,
        text_h <= cell_size,
    ensures
        r.0 == cell_x * cell_size + (cell_size - text_w) / 3,
        r.1 == cell_y * cell_size + (cell_size - text_h) / 2,
{
    proof {
        assert((cell_x as int) * (cell_size as int) <= 8 * (cell_size as int))
            by (nonlinear_arith)
            requires
                cell_x <= 8,
                cell_size >= 0,
        ;
        assert((cell_y as int) * (cell_size as int) <= 8 * (cell_size as int))
            by (nonlinear_arith)
            requires
                cell_y <= 8,
                cell_size >= 0,
        ;
    }
    let x = cell_x * cell_size + (cell_size - text_w) / 3;
    let y = cell_y * cell_size + (cell_size - text_h) / 2;
    (x, y)
}

} // verus!
