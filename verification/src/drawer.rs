//! The pure part of the terminal renderer: picking a scaling level and
//! averaging a square of pixels down to one colour.

use vstd::prelude::*;

use crate::bmp::spec_bmp_sample;
use crate::mcu::MCU;

verus! {

/// How aggressively the renderer folds pixels into one cell.
#[derive(Clone, Copy, Debug, PartialEq, Eq, Structural)]
pub enum ScalingLevel {
    LEVEL1,
    LEVEL2,
}

/// The sum over a window row of the channel samples at `(column, row)`
/// for `column` in `[y0, y1)`, low bytes as the renderer reads them.
pub open spec fn spec_row_sum(
    mcus: Seq<MCU>,
    mcu_w: int,
    c: int,
    row: int,
    y0: int,
    y1: int,
) -> int
    decreases y1 - y0,
{
    if y0 >= y1 {
        0
    } else {
        spec_bmp_sample(mcus, mcu_w, y1 - 1, row, 2 - c) + spec_row_sum(
            mcus,
            mcu_w,
            c,
            row,
            y0,
            y1 - 1,
        )
    }
}

/// The sum over a window of the channel samples, rows `[x0, x1)` by
/// columns `[y0, y1)`.
pub open spec fn spec_window_sum(
    mcus: Seq<MCU>,
    mcu_w: int,
    c: int,
    x0: int,
    x1: int,
    y0: int,
    y1: int,
) -> int
    decreases x1 - x0,
{
    if x0 >= x1 {
        0
    } else {
        spec_row_sum(mcus, mcu_w, c, x1 - 1, y0, y1) + spec_window_sum(
            mcus,
            mcu_w,
            c,
            x0,
            x1 - 1,
            y0,
            y1,
        )
    }
}

/// Averages the red, green and blue samples of the window of up to
/// `step` by `step` pixels whose corner is `(x, y)`, clamped to the
/// raster, over a block raster `mcu_w` blocks wide.  The window must
/// hold at least one pixel.
pub fn average(
    mcus: &Vec<MCU>,
    mcu_w: usize,
    width: usize,
    height: usize,
    x: usize,
    y: usize,
    step: usize,
) -> (r: (u8, u8, u8))
    requires
        width <= 65535,
        height <= 65535,
        x < height,
        y < width,
        mcu_w == crate::bmp::spec_blocks_across(width as int),
        mcus@.len() >= mcu_w * crate::bmp::spec_blocks_across(height as int),
        step >= 1,
    ensures
        ({
            let x1 = if x + step < height {
                x + step as int
            } else {
                height as int
            };
            let y1 = if y + step < width {
                y + step as int
            } else {
                width as int
            };
            let count = (x1 - x) * (y1 - y);
            r.0 == spec_window_sum(mcus@, mcu_w as int, 0, x as int, x1, y as int, y1) / count
                && r.1 == spec_window_sum(mcus@, mcu_w as int, 1, x as int, x1, y as int, y1)
                / count && r.2 == spec_window_sum(mcus@, mcu_w as int, 2, x as int, x1, y as int, y1)
                / count
        }),
{
    let n_mcus: usize = mcus.len();
    let x1: usize = if step < height - x {
        x + step
    } else {
        height
    };
    let y1: usize = if step < width - y {
        y + step
    } else {
        width
    };
    assert(x1 == (if x + step < height { x + step as int } else { height as int }));
    assert(y1 == (if y + step < width { y + step as int } else { width as int }));
    let mut sum_r: u64 = 0;
    let mut sum_g: u64 = 0;
    let mut sum_b: u64 = 0;
    let mut count: u64 = 0;
    let mut row: usize = x;
    while row < x1
        invariant
            x <= row <= x1,
            x < x1 <= height,
            y < y1 <= width,
            height <= 65535,
            width <= 65535,
            mcu_w == crate::bmp::spec_blocks_across(width as int),
            mcus@.len() >= mcu_w * crate::bmp::spec_blocks_across(height as int),
            n_mcus == mcus@.len(),
            count == (row - x) * (y1 - y),
            count <= 65535 * 65535,
            sum_r == spec_window_sum(mcus@, mcu_w as int, 0, x as int, row as int, y as int, y1 as int),
            sum_g == spec_window_sum(mcus@, mcu_w as int, 1, x as int, row as int, y as int, y1 as int),
            sum_b == spec_window_sum(mcus@, mcu_w as int, 2, x as int, row as int, y as int, y1 as int),
            sum_r <= 255 * count,
            sum_g <= 255 * count,
            sum_b <= 255 * count,
        decreases x1 - row,
    {
        let mut column: usize = y;
        while column < y1
            invariant
                y <= column <= y1,
                x <= row < x1,
                x < x1 <= height,
                y < y1 <= width,
                height <= 65535,
                width <= 65535,
                mcu_w == crate::bmp::spec_blocks_across(width as int),
                mcus@.len() >= mcu_w * crate::bmp::spec_blocks_across(height as int),
                n_mcus == mcus@.len(),
                count == (row - x) * (y1 - y) + (column - y),
                count <= 65535 * 65535,
                sum_r == spec_window_sum(mcus@, mcu_w as int, 0, x as int, row as int, y as int, y1 as int)
                    + spec_row_sum(mcus@, mcu_w as int, 0, row as int, y as int, column as int),
                sum_g == spec_window_sum(mcus@, mcu_w as int, 1, x as int, row as int, y as int, y1 as int)
                    + spec_row_sum(mcus@, mcu_w as int, 1, row as int, y as int, column as int),
                sum_b == spec_window_sum(mcus@, mcu_w as int, 2, x as int, row as int, y as int, y1 as int)
                    + spec_row_sum(mcus@, mcu_w as int, 2, row as int, y as int, column as int),
                sum_r <= 255 * count,
                sum_g <= 255 * count,
                sum_b <= 255 * count,
            decreases y1 - column,
        {
            let mcu_row: usize = row / 8;
            let pixel_row: usize = row % 8;
            let mcu_column: usize = column / 8;
            let pixel_column: usize = column % 8;
            proof {
                crate::bmp::lemma_mcu_index_in_range(
                    width as int,
                    height as int,
                    mcu_w as int,
                    mcus@.len() as int,
                    column as int,
                    row as int,
                );
                assert(mcu_row * mcu_w + mcu_column < n_mcus);
            }
            let mcu_index: usize = mcu_row * mcu_w + mcu_column;
            let pixel_index: usize = pixel_row * 8 + pixel_column;
            let m: &MCU = &mcus[mcu_index];
            sum_r = sum_r + low_byte_drawer(m.components[0].0[pixel_index]) as u64;
            sum_g = sum_g + low_byte_drawer(m.components[1].0[pixel_index]) as u64;
            sum_b = sum_b + low_byte_drawer(m.components[2].0[pixel_index]) as u64;
            proof {
                assert(count + 1 <= 65535 * 65535) by (nonlinear_arith)
                    requires
                        count == (row - x) * (y1 - y) + (column - y) && 0 <= row - x <= 65534 && 1
                            <= y1 - y <= 65535 && 0 <= column - y < y1 - y,
                ;
            }
            count = count + 1;
            column = column + 1;
        }
        proof {
            vstd::arithmetic::mul::lemma_mul_is_distributive_add_other_way(
                (y1 - y) as int,
                (row - x) as int,
                1,
            );
        }
        row = row + 1;
    }
    proof {
        assert(count >= 1) by (nonlinear_arith)
            requires
                count == (x1 - x) * (y1 - y) && x1 - x >= 1 && y1 - y >= 1,
        ;
    }
    let average_r: u64 = sum_r / count;
    let average_g: u64 = sum_g / count;
    let average_b: u64 = sum_b / count;
    proof {
        assert(average_r <= 255 && average_g <= 255 && average_b <= 255) by (nonlinear_arith)
            requires
                count >= 1 && sum_r <= 255 * count && sum_g <= 255 * count && sum_b <= 255 * count
                    && average_r == sum_r as int / count as int && average_g == sum_g as int
                    / count as int && average_b == sum_b as int / count as int,
        ;
    }
    (average_r as u8, average_g as u8, average_b as u8)
}

/// The low byte of a sample, as the renderer reads it.
fn low_byte_drawer(v: i32) -> (r: u8)
    ensures
        r == crate::bmp::spec_low_byte(v),
{
    let masked: i32 = v & 0xFF;
    assert(0 <= v & 0xFF < 256) by (bit_vector);
    masked as u8
}

} // verus!
