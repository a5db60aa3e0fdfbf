//! Block elements (U+2580 to U+259F): partial and full blocks, quadrants and
//! shades, drawn directly into a pixel buffer.

use vstd::prelude::*;
use vstd::arithmetic::div_mod::{
    lemma_fundamental_div_mod,
    lemma_fundamental_div_mod_converse,
    lemma_mod_bound,
    lemma_div_is_ordered,
};
use vstd::arithmetic::mul::{lemma_mul_inequality, lemma_mul_is_commutative, lemma_mul_is_distributive_add_other_way};

use crate::pixels::{WHITE, TRANSPARENT, transparent_image};

verus! {

/// Whether index `i` of a buffer of `len` pixels laid out in rows of `stride`
/// pixels lies in the rectangle with top-left corner `(x, y)`, `rw` pixels
/// wide and `rh` tall. Only whole rows count: a last, partial row is outside.
pub open spec fn region_contains(
    len: int,
    stride: int,
    x: int,
    y: int,
    rw: int,
    rh: int,
    i: int,
) -> bool {
    &&& stride > 0
    &&& i / stride < len / stride
    &&& y <= i / stride < y + rh
    &&& x <= i % stride < x + rw
}

/// Position of buffer index `row * stride + col` when `col < stride`.
proof fn lemma_index_position(stride: int, row: int, col: int)
    requires
        stride > 0,
        row >= 0,
        0 <= col < stride,
    ensures
        (row * stride + col) / stride == row,
        (row * stride + col) % stride == col,
{
    lemma_fundamental_div_mod_converse(row * stride + col, stride, row, col);
}

/// An index in row `row < len / stride` lies inside the buffer.
proof fn lemma_index_in_buffer(len: int, stride: int, row: int, col: int)
    requires
        stride > 0,
        len >= 0,
        0 <= row < len / stride,
        0 <= col < stride,
    ensures
        row * stride + col < len,
{
    lemma_fundamental_div_mod(len, stride);
    lemma_mul_inequality(row + 1, len / stride, stride);
    lemma_mul_is_distributive_add_other_way(stride, row, 1);
}

/// Sets to `color` every pixel of the rectangle at `(x, y)`, `rw` by `rh`
/// pixels, in a buffer laid out in rows of `stride` pixels; what falls
/// outside the buffer's columns or whole rows is clipped.
#[verifier::rlimit(40)]
pub fn fill_region(
    image: &mut [u32],
    stride: usize,
    x: usize,
    y: usize,
    rw: usize,
    rh: usize,
    color: u32,
)
    requires
        stride > 0 || rh == 0,
        y + rh <= usize::MAX,
        rh > 0 && stride > 0 && y < (old(image)@.len() as int) / (stride as int) ==> x + rw <= usize::MAX,
    ensures
        final(image)@.len() == old(image)@.len(),
        forall|i: int|
            0 <= i < old(image)@.len() ==> #[trigger] final(image)@[i] == if region_contains(
                old(image)@.len() as int,
                stride as int,
                x as int,
                y as int,
                rw as int,
                rh as int,
                i,
            ) {
                color
            } else {
                old(image)@[i]
            },
{
    if rh == 0 {
        return ;
    }
    let len: usize = image.len();
    let rows: usize = len / stride;
    if y >= rows {
        // No whole row of the rectangle lies in the buffer.
        return ;
    }
    let row_end: usize = if y + rh < rows {
        y + rh
    } else {
        rows
    };
    let col_end: usize = if x + rw < stride {
        x + rw
    } else {
        stride
    };
    let ghost old_image = old(image)@;
    let mut row: usize = y;
    while row < row_end
        invariant
            stride > 0,
            len == old_image.len(),
            image@.len() == len,
            rows == len / stride,
            row_end <= rows,
            row_end <= y + rh,
            y <= row,
            col_end <= stride,
            col_end <= x + rw,
            col_end == x + rw || col_end == stride,
            row_end == y + rh || row_end == rows,
            y <= row_end ==> row <= row_end,
            y > row_end ==> row == y,
            forall|i: int|
                0 <= i < len ==> #[trigger] image@[i] == if region_contains(
                    len as int,
                    stride as int,
                    x as int,
                    y as int,
                    rw as int,
                    row - y,
                    i,
                ) {
                    color
                } else {
                    old_image[i]
                },
        decreases row_end - row,
    {
        let mut col: usize = x;
        while col < col_end
            invariant
                stride > 0,
                len == old_image.len(),
                image@.len() == len,
                rows == len / stride,
                y <= row < row_end,
                row_end <= rows,
                col_end <= stride,
                col_end == x + rw || col_end == stride,
                x <= col,
                x <= col_end ==> col <= col_end,
                x > col_end ==> col == x,
                forall|i: int|
                    0 <= i < len ==> #[trigger] image@[i] == if region_contains(
                        len as int,
                        stride as int,
                        x as int,
                        y as int,
                        rw as int,
                        row - y,
                        i,
                    ) || (i / (stride as int) == row && x <= i % (stride as int) && i % (
                    stride as int) < col) {
                        color
                    } else {
                        old_image[i]
                    },
            decreases col_end - col,
        {
            proof {
                lemma_index_in_buffer(len as int, stride as int, row as int, col as int);
                lemma_index_position(stride as int, row as int, col as int);
            }
            let k: usize = row * stride + col;
            let ghost before = image@;
            image[k] = color;
            proof {
                assert forall|i: int| 0 <= i < len implies #[trigger] image@[i] == if region_contains(
                    len as int,
                    stride as int,
                    x as int,
                    y as int,
                    rw as int,
                    row - y,
                    i,
                ) || (i / (stride as int) == row && x <= i % (stride as int) && i % (
                stride as int) < col + 1) {
                    color
                } else {
                    old_image[i]
                } by {
                    lemma_fundamental_div_mod(i, stride as int);
                    if i != k as int {
                        assert(image@[i] == before[i]);
                        if i / (stride as int) == row && i % (stride as int) == col {
                            lemma_mul_is_commutative(stride as int, row as int);
                            assert(i == row * stride + col);
                        }
                    }
                }
            }
            col = col + 1;
        }
        proof {
            assert forall|i: int| 0 <= i < len implies #[trigger] image@[i] == if region_contains(
                len as int,
                stride as int,
                x as int,
                y as int,
                rw as int,
                row + 1 - y,
                i,
            ) {
                color
            } else {
                old_image[i]
            } by {
                lemma_mod_bound(i, stride as int);
                if i / (stride as int) == row {
                    assert(row < rows);
                }
            }
        }
        row = row + 1;
    }
    proof {
        assert forall|i: int| 0 <= i < len implies #[trigger] image@[i] == if region_contains(
            len as int,
            stride as int,
            x as int,
            y as int,
            rw as int,
            rh as int,
            i,
        ) {
            color
        } else {
            old_image[i]
        } by {}
    }
}

/// Whether row `i / w` of a `w`-pixel-wide grid is below `h`, exactly when
/// the index is below `w * h`.
proof fn lemma_row_below(w: int, h: int, i: int)
    requires
        w > 0,
        h >= 0,
        i >= 0,
    ensures
        (i < w * h) == (i / w < h),
{
    lemma_fundamental_div_mod(i, w);
    lemma_mod_bound(i, w);
    let q = i / w;
    let r = i % w;
    assert((i < w * h) == (q < h)) by (nonlinear_arith)
        requires
            i == w * q + r,
            0 <= r < w,
            h >= 0,
            i >= 0,
    ;
}

/// Whether the dither pattern of a shade lights the pixel at column `x`, row
/// `y`: `x + 2 * y`, taken as a `u32`, leaves a remainder below `num` when
/// divided by `den`. With `den == 4`, `num` out of every four pixels of a
/// row are lit, and the pattern shifts by two pixels from one row to the next.
pub open spec fn shade_lit(x: int, y: int, num: u32, den: u32) -> bool {
    ((x + 2 * y) as u32) % den < num
}

/// Lights the pixels of a `w` by `h` grid (rows of `w` pixels) that the dither
/// pattern `num / den` selects; the others keep their value. Every pixel that
/// the pattern lights must lie in the buffer.
#[verifier::rlimit(40)]
pub fn fill_shade(image: &mut [u32], w: usize, h: usize, num: u32, den: u32)
    requires
        den > 0 || w == 0 || h == 0,
        forall|px: int, py: int| 0 <= px < w && 0 <= py < h && #[trigger] shade_lit(px, py, num, den) ==> py * w + px < old(image)@.len(),
        w == 0 || h == 0 || (w - 1) + 2 * (h - 1) <= usize::MAX,
    ensures
        final(image)@.len() == old(image)@.len(),
        forall|i: int|
            0 <= i < old(image)@.len() ==> #[trigger] final(image)@[i] == if w > 0 && i < w * h
                && shade_lit(i % (w as int), i / (w as int), num, den) {
                WHITE
            } else {
                old(image)@[i]
            },
{
    if w == 0 || h == 0 {
        assert(w * h == 0) by {
            if w > 0 {
                vstd::arithmetic::mul::lemma_mul_by_zero_is_zero(w as int);
            }
        }
        return ;
    }
    let len: usize = image.len();
    let ghost old_image = old(image)@;
    proof {
        lemma_mul_is_commutative(w as int, h as int);
    }
    let mut y: usize = 0;
    while y < h
        invariant
            w > 0,
            den > 0,
            len == old_image.len(),
            image@.len() == len,
            forall|px: int, py: int| 0 <= px < w && 0 <= py < h && #[trigger] shade_lit(px, py, num, den) ==> py * w + px < len,
            w == 0 || h == 0 || (w - 1) + 2 * (h - 1) <= usize::MAX,
            y <= h,
            forall|i: int|
                0 <= i < len ==> #[trigger] image@[i] == if i / (w as int) < y && shade_lit(
                    i % (w as int),
                    i / (w as int),
                    num,
                    den,
                ) {
                    WHITE
                } else {
                    old_image[i]
                },
        decreases h - y,
    {
        let mut x: usize = 0;
        while x < w
            invariant
                w > 0,
                den > 0,
                len == old_image.len(),
                image@.len() == len,
                forall|px: int, py: int| 0 <= px < w && 0 <= py < h && #[trigger] shade_lit(px, py, num, den) ==> py * w + px < len,
                w == 0 || h == 0 || (w - 1) + 2 * (h - 1) <= usize::MAX,
                y < h,
                x <= w,
                forall|i: int|
                    0 <= i < len ==> #[trigger] image@[i] == if (i / (w as int) < y || (i / (
                    w as int) == y && i % (w as int) < x)) && shade_lit(
                        i % (w as int),
                        i / (w as int),
                        num,
                        den,
                    ) {
                        WHITE
                    } else {
                        old_image[i]
                    },
            decreases w - x,
        {
            let threshold: bool = ((x + y * 2) as u32 % den) < num;
            if threshold {
                proof {
                    assert(shade_lit(x as int, y as int, num, den));
                    lemma_index_position(w as int, y as int, x as int);
                }
                let k: usize = y * w + x;
                let ghost before = image@;
                image[k] = WHITE;
                proof {
                    assert forall|i: int| 0 <= i < len implies #[trigger] image@[i] == if (i / (
                    w as int) < y || (i / (w as int) == y && i % (w as int) < x + 1)) && shade_lit(
                        i % (w as int),
                        i / (w as int),
                        num,
                        den,
                    ) {
                        WHITE
                    } else {
                        old_image[i]
                    } by {
                        lemma_fundamental_div_mod(i, w as int);
                        if i != k as int {
                            assert(image@[i] == before[i]);
                            if i / (w as int) == y && i % (w as int) == x {
                                lemma_mul_is_commutative(w as int, y as int);
                                assert(i == y * w + x);
                            }
                        }
                    }
                }
            } else {
                proof {
                    assert forall|i: int| 0 <= i < len implies #[trigger] image@[i] == if (i / (
                    w as int) < y || (i / (w as int) == y && i % (w as int) < x + 1)) && shade_lit(
                        i % (w as int),
                        i / (w as int),
                        num,
                        den,
                    ) {
                        WHITE
                    } else {
                        old_image[i]
                    } by {
                        if i / (w as int) == y && i % (w as int) == x {
                            assert(!shade_lit(x as int, y as int, num, den));
                        }
                    }
                }
            }
            x = x + 1;
        }
        proof {
            assert forall|i: int| 0 <= i < len implies #[trigger] image@[i] == if i / (w as int) < y
                + 1 && shade_lit(i % (w as int), i / (w as int), num, den) {
                WHITE
            } else {
                old_image[i]
            } by {
                lemma_mod_bound(i, w as int);
            }
        }
        y = y + 1;
    }
    proof {
        assert forall|i: int| 0 <= i < len implies #[trigger] image@[i] == if w > 0 && i < w * h
            && shade_lit(i % (w as int), i / (w as int), num, den) {
            WHITE
        } else {
            old_image[i]
        } by {
            lemma_row_below(w as int, h as int, i);
        }
    }
}

// ---------------------------------------------------------------------------
// Block elements
// ---------------------------------------------------------------------------

/// Whether pixel `(x, y)` of a `w` by `h` cell lies in the rectangle at
/// `(x0, y0)` of size `rw` by `rh`.
pub open spec fn in_rect(x: int, y: int, x0: int, y0: int, rw: int, rh: int) -> bool {
    x0 <= x < x0 + rw && y0 <= y < y0 + rh
}

/// The upper half of a cell: rows above `h / 2`.
pub open spec fn upper_half(y: int, h: int) -> bool {
    y < h / 2
}

/// The left half of a cell: columns left of `w / 2`.
pub open spec fn left_half(x: int, w: int) -> bool {
    x < w / 2
}

/// The lowest `k` eighths of a cell `h` rows tall: rows from `h - k * h / 8`.
pub open spec fn lower_eighths(y: int, h: int, k: int) -> bool {
    y >= h - k * h / 8
}

/// The leftmost `k` eighths of a cell `w` columns wide: columns left of
/// `k * w / 8`.
pub open spec fn left_eighths(x: int, w: int, k: int) -> bool {
    x < k * w / 8
}

/// The three shades ░ ▒ ▓.
pub open spec fn is_shade(ch: char) -> bool {
    ch == '░' || ch == '▒' || ch == '▓'
}

/// Whether the block element `ch` lights pixel `(x, y)` of a `w` by `h` cell
/// (for `x < w`, `y < h`). Characters of the block that are not listed light
/// nothing.
pub open spec fn block_pixel(ch: char, w: int, h: int, x: int, y: int) -> bool {
    let up = upper_half(y, h);
    let left = left_half(x, w);
    match ch {
        '▀' => up,
        '▁' => lower_eighths(y, h, 1),
        '▂' => lower_eighths(y, h, 2),
        '▃' => lower_eighths(y, h, 3),
        '▄' => !up,
        '▅' => lower_eighths(y, h, 5),
        '▆' => lower_eighths(y, h, 6),
        '▇' => lower_eighths(y, h, 7),
        '█' => true,
        '▉' => left_eighths(x, w, 7),
        '▊' => left_eighths(x, w, 6),
        '▋' => left_eighths(x, w, 5),
        '▌' => left,
        '▍' => left_eighths(x, w, 3),
        '▎' => left_eighths(x, w, 2),
        '▏' => left_eighths(x, w, 1),
        '▐' => !left,
        '░' => shade_lit(x, y, 1, 4),
        '▒' => shade_lit(x, y, 2, 4),
        '▓' => shade_lit(x, y, 3, 4),
        '▖' => left && !up,
        '▗' => !left && !up,
        '▘' => left && up,
        '▙' => (left && up) || !up,
        '▚' => (left && up) || (!left && !up),
        '▛' => up || (left && !up),
        '▜' => up || (!left && !up),
        '▝' => !left && up,
        '▞' => (!left && up) || (left && !up),
        '▟' => (!left && up) || !up,
        _ => false,
    }
}

/// The pixels of the block element `ch` in a `w` by `h` cell, row by row:
/// white where the element is lit, transparent elsewhere.
pub open spec fn block_image(ch: char, w: int, h: int) -> Seq<u32> {
    Seq::new(
        (w * h) as nat,
        |i: int|
            if block_pixel(ch, w, h, i % w, i / w) {
                WHITE
            } else {
                TRANSPARENT
            },
    )
}

/// Facts about an index into a `w` by `h` cell stored row by row.
proof fn lemma_cell_index(w: int, h: int, i: int)
    requires
        w > 0,
        h > 0,
        0 <= i < w * h,
    ensures
        0 <= i / w < h,
        0 <= i % w < w,
        (w * h) / w == h,
{
    lemma_row_below(w, h, i);
    lemma_mod_bound(i, w);
    vstd::arithmetic::div_mod::lemma_div_pos_is_pos(i, w);
    lemma_mul_is_commutative(w, h);
    vstd::arithmetic::div_mod::lemma_div_multiples_vanish(h, w);
}

/// `fill_region` on a whole cell, in the cell's own coordinates.
fn fill_cell_rect(image: &mut Vec<u32>, w: usize, h: usize, x0: usize, y0: usize, rw: usize, rh: usize)
    requires
        w > 0,
        h > 0,
        old(image)@.len() == w * h,
        x0 + rw <= usize::MAX,
        y0 + rh <= usize::MAX,
    ensures
        final(image)@.len() == w * h,
        forall|i: int|
            0 <= i < w * h ==> #[trigger] final(image)@[i] == if in_rect(
                i % (w as int),
                i / (w as int),
                x0 as int,
                y0 as int,
                rw as int,
                rh as int,
            ) {
                WHITE
            } else {
                old(image)@[i]
            },
{
    fill_region(image.as_mut_slice(), w, x0, y0, rw, rh, WHITE);
    assert forall|i: int| 0 <= i < w * h implies #[trigger] image@[i] == if in_rect(
        i % (w as int),
        i / (w as int),
        x0 as int,
        y0 as int,
        rw as int,
        rh as int,
    ) {
        WHITE
    } else {
        old(image)@[i]
    } by {
        lemma_cell_index(w as int, h as int, i);
    }
}

/// `fill_shade` on a whole cell.
fn fill_cell_shade(image: &mut Vec<u32>, w: usize, h: usize, num: u32)
    requires
        w > 0,
        h > 0,
        old(image)@.len() == w * h,
        w == 0 || h == 0 || (w - 1) + 2 * (h - 1) <= usize::MAX,
    ensures
        final(image)@.len() == w * h,
        forall|i: int|
            0 <= i < w * h ==> #[trigger] final(image)@[i] == if shade_lit(
                i % (w as int),
                i / (w as int),
                num,
                4,
            ) {
                WHITE
            } else {
                old(image)@[i]
            },
{
    assert forall|px: int, py: int|
        0 <= px < w && 0 <= py < h && #[trigger] shade_lit(px, py, num, 4) implies py * w + px
        < old(image)@.len() by {
        vstd::arithmetic::div_mod::lemma_div_multiples_vanish(h as int, w as int);
        lemma_index_in_buffer((w * h) as int, w as int, py, px);
    }
    fill_shade(image.as_mut_slice(), w, h, num, 4);
}

/// `k * n / 8`, computed without overflow.
fn eighths(n: usize, k: usize) -> (r: usize)
    requires
        k <= 8,
    ensures
        r == k * n / 8,
        r <= n,
{
    assert((k as u128) * (n as u128) <= 8 * 0xFFFF_FFFF_FFFF_FFFFu128) by (nonlinear_arith)
        requires
            k <= 8,
            n <= 0xFFFF_FFFF_FFFF_FFFFu128,
    ;
    let r: u128 = (k as u128) * (n as u128) / 8;
    assert(k * n / 8 <= n) by (nonlinear_arith)
        requires
            k <= 8,
            n >= 0,
    ;
    r as usize
}

/// Rasterizes the block element `ch` into `width * height` RGBA pixels,
/// white on transparent. A character of the block that has no shape here
/// leaves the cell transparent.
#[verifier::rlimit(40)]
pub fn rasterize_block_element(ch: char, width: u32, height: u32) -> (image: Vec<u32>)
    requires
        width * height <= usize::MAX,
        is_shade(ch) && width > 0 && height > 0 ==> (width - 1) + 2 * (height - 1) <= usize::MAX,
    ensures
        image@ == block_image(ch, width as int, height as int),
{
    let w: usize = width as usize;
    let h: usize = height as usize;
    let mut image = transparent_image(w * h);
    if w == 0 || h == 0 {
        assert(w * h == 0) by (nonlinear_arith)
            requires
                w == 0 || h == 0,
        ;
        assert(image@ =~= block_image(ch, width as int, height as int));
        return image;
    }
    let half_w: usize = w / 2;
    let half_h: usize = h / 2;
    match ch {
        // Upper half block
        '▀' => fill_cell_rect(&mut image, w, h, 0, 0, w, half_h),
        // Lower 1/8 through 7/8 blocks
        '▁' => fill_cell_rect(&mut image, w, h, 0, h - eighths(h, 1), w, eighths(h, 1)),
        '▂' => fill_cell_rect(&mut image, w, h, 0, h - eighths(h, 2), w, eighths(h, 2)),
        '▃' => fill_cell_rect(&mut image, w, h, 0, h - eighths(h, 3), w, eighths(h, 3)),
        '▄' => fill_cell_rect(&mut image, w, h, 0, half_h, w, h - half_h),
        '▅' => fill_cell_rect(&mut image, w, h, 0, h - eighths(h, 5), w, eighths(h, 5)),
        '▆' => fill_cell_rect(&mut image, w, h, 0, h - eighths(h, 6), w, eighths(h, 6)),
        '▇' => fill_cell_rect(&mut image, w, h, 0, h - eighths(h, 7), w, eighths(h, 7)),
        // Full block
        '█' => fill_cell_rect(&mut image, w, h, 0, 0, w, h),
        // Left blocks
        '▉' => fill_cell_rect(&mut image, w, h, 0, 0, eighths(w, 7), h),
        '▊' => fill_cell_rect(&mut image, w, h, 0, 0, eighths(w, 6), h),
        '▋' => fill_cell_rect(&mut image, w, h, 0, 0, eighths(w, 5), h),
        '▌' => fill_cell_rect(&mut image, w, h, 0, 0, half_w, h),
        '▍' => fill_cell_rect(&mut image, w, h, 0, 0, eighths(w, 3), h),
        '▎' => fill_cell_rect(&mut image, w, h, 0, 0, eighths(w, 2), h),
        '▏' => fill_cell_rect(&mut image, w, h, 0, 0, eighths(w, 1), h),
        // Right half block
        '▐' => fill_cell_rect(&mut image, w, h, half_w, 0, w - half_w, h),
        // Shade characters: 25%, 50%, 75%
        '░' => fill_cell_shade(&mut image, w, h, 1),
        '▒' => fill_cell_shade(&mut image, w, h, 2),
        '▓' => fill_cell_shade(&mut image, w, h, 3),
        // Quadrant characters
        '▖' => fill_cell_rect(&mut image, w, h, 0, half_h, half_w, h - half_h),
        '▗' => fill_cell_rect(&mut image, w, h, half_w, half_h, w - half_w, h - half_h),
        '▘' => fill_cell_rect(&mut image, w, h, 0, 0, half_w, half_h),
        '▙' => {
            fill_cell_rect(&mut image, w, h, 0, 0, half_w, half_h);
            fill_cell_rect(&mut image, w, h, 0, half_h, w, h - half_h);
        },
        '▚' => {
            fill_cell_rect(&mut image, w, h, 0, 0, half_w, half_h);
            fill_cell_rect(&mut image, w, h, half_w, half_h, w - half_w, h - half_h);
        },
        '▛' => {
            fill_cell_rect(&mut image, w, h, 0, 0, w, half_h);
            fill_cell_rect(&mut image, w, h, 0, half_h, half_w, h - half_h);
        },
        '▜' => {
            fill_cell_rect(&mut image, w, h, 0, 0, w, half_h);
            fill_cell_rect(&mut image, w, h, half_w, half_h, w - half_w, h - half_h);
        },
        '▝' => fill_cell_rect(&mut image, w, h, half_w, 0, w - half_w, half_h),
        '▞' => {
            fill_cell_rect(&mut image, w, h, half_w, 0, w - half_w, half_h);
            fill_cell_rect(&mut image, w, h, 0, half_h, half_w, h - half_h);
        },
        '▟' => {
            fill_cell_rect(&mut image, w, h, half_w, 0, w - half_w, half_h);
            fill_cell_rect(&mut image, w, h, 0, half_h, w, h - half_h);
        },
        // Unknown block element, leave transparent
        _ => {},
    }
    assert forall|i: int| 0 <= i < w * h implies #[trigger] image@[i] == block_image(
        ch,
        width as int,
        height as int,
    )[i] by {
        lemma_cell_index(w as int, h as int, i);
    }
    assert(image@ =~= block_image(ch, width as int, height as int));
    image
}

// ---------------------------------------------------------------------------
// Laws of the block elements
// ---------------------------------------------------------------------------

/// Law: the upper and the lower half block light complementary pixels, and so
/// do the left and the right half block: together each pair covers the cell
/// exactly once.
pub proof fn lemma_halves_complement(w: int, h: int, x: int, y: int)
    requires
        0 <= x < w,
        0 <= y < h,
    ensures
        block_pixel('▀', w, h, x, y) != block_pixel('▄', w, h, x, y),
        block_pixel('▌', w, h, x, y) != block_pixel('▐', w, h, x, y),
{
}

/// Law: every pixel of a cell lies in exactly one of the four quadrants
/// ▘ ▝ ▖ ▗, and the full block lights every pixel.
pub proof fn lemma_quadrants_partition(w: int, h: int, x: int, y: int)
    requires
        0 <= x < w,
        0 <= y < h,
    ensures
        (if block_pixel('▘', w, h, x, y) { 1int } else { 0int }) + (if block_pixel('▝', w, h, x, y) {
            1int
        } else {
            0int
        }) + (if block_pixel('▖', w, h, x, y) { 1int } else { 0int }) + (if block_pixel(
            '▗',
            w,
            h,
            x,
            y,
        ) {
            1int
        } else {
            0int
        }) == 1,
        block_pixel('█', w, h, x, y),
{
}

/// Law: each block made of three or two quadrants lights exactly the union of
/// its quadrants.
pub proof fn lemma_quadrant_blocks_are_unions(w: int, h: int, x: int, y: int)
    requires
        0 <= x < w,
        0 <= y < h,
    ensures
        block_pixel('▙', w, h, x, y) == (block_pixel('▘', w, h, x, y) || block_pixel('▖', w, h, x, y)
            || block_pixel('▗', w, h, x, y)),
        block_pixel('▛', w, h, x, y) == (block_pixel('▘', w, h, x, y) || block_pixel('▝', w, h, x, y)
            || block_pixel('▖', w, h, x, y)),
        block_pixel('▜', w, h, x, y) == (block_pixel('▘', w, h, x, y) || block_pixel('▝', w, h, x, y)
            || block_pixel('▗', w, h, x, y)),
        block_pixel('▟', w, h, x, y) == (block_pixel('▝', w, h, x, y) || block_pixel('▖', w, h, x, y)
            || block_pixel('▗', w, h, x, y)),
        block_pixel('▚', w, h, x, y) == (block_pixel('▘', w, h, x, y) || block_pixel('▗', w, h, x, y)),
        block_pixel('▞', w, h, x, y) == (block_pixel('▝', w, h, x, y) || block_pixel('▖', w, h, x, y)),
{
}

/// Law: the shades are nested: every pixel that the light shade ░ lights, the
/// medium shade ▒ lights too, and every pixel of ▒ the dark shade ▓ lights.
pub proof fn lemma_shades_nested(w: int, h: int, x: int, y: int)
    ensures
        block_pixel('░', w, h, x, y) ==> block_pixel('▒', w, h, x, y),
        block_pixel('▒', w, h, x, y) ==> block_pixel('▓', w, h, x, y),
{
}

/// Law: a shade `num / 4` lights exactly `num` of any four horizontally
/// adjacent pixels: ░ a quarter, ▒ half and ▓ three quarters of each row.
pub proof fn lemma_shade_density(x: u32, y: u32, num: u32)
    requires
        num <= 4,
    ensures
        (if shade_lit(x as int, y as int, num, 4) { 1int } else { 0int }) + (if shade_lit(
            x + 1,
            y as int,
            num,
            4,
        ) {
            1int
        } else {
            0int
        }) + (if shade_lit(x + 2, y as int, num, 4) { 1int } else { 0int }) + (if shade_lit(
            x + 3,
            y as int,
            num,
            4,
        ) {
            1int
        } else {
            0int
        }) == num,
{
    let x64: u64 = x as u64;
    let y64: u64 = y as u64;
    let r: u32 = ((x64 + 2 * y64) as u32) % 4;
    assert(((x64 + 1 + 2 * y64) as u32) % 4 == (r + 1) % 4) by (bit_vector)
        requires
            r == ((x64 + 2 * y64) as u32) % 4,
            x64 < 0x1_0000_0000,
            y64 < 0x1_0000_0000,
    ;
    assert(((x64 + 2 + 2 * y64) as u32) % 4 == (r + 2) % 4) by (bit_vector)
        requires
            r == ((x64 + 2 * y64) as u32) % 4,
            x64 < 0x1_0000_0000,
            y64 < 0x1_0000_0000,
    ;
    assert(((x64 + 3 + 2 * y64) as u32) % 4 == (r + 3) % 4) by (bit_vector)
        requires
            r == ((x64 + 2 * y64) as u32) % 4,
            x64 < 0x1_0000_0000,
            y64 < 0x1_0000_0000,
    ;
}

/// Law: a block element is white on transparent: every pixel of its image is
/// either white or transparent, and the image has one pixel per cell position.
pub proof fn lemma_block_image_white_on_transparent(ch: char, w: int, h: int, i: int)
    requires
        w >= 0,
        h >= 0,
        0 <= i < w * h,
    ensures
        block_image(ch, w, h).len() == w * h,
        block_image(ch, w, h)[i] == WHITE || block_image(ch, w, h)[i] == TRANSPARENT,
{
    assert(w * h >= 0) by (nonlinear_arith)
        requires
            w >= 0,
            h >= 0,
    ;
}

/// Law: the lower blocks are nested from the one-eighth block up: each
/// lights every pixel of the thinner ones. ▁ ⊆ ▂ ⊆ ▃ ⊆ ▄ and ▅ ⊆ ▆ ⊆ ▇ ⊆ █;
/// and ▄ ⊆ ▅ where five eighths of the height, rounded down, are at least
/// the lower half (it fails for a cell one pixel tall, where ▅ is empty).
pub proof fn lemma_lower_blocks_nested(w: int, h: int, x: int, y: int)
    requires
        h >= 0,
    ensures
        block_pixel('▁', w, h, x, y) ==> block_pixel('▂', w, h, x, y),
        block_pixel('▂', w, h, x, y) ==> block_pixel('▃', w, h, x, y),
        block_pixel('▃', w, h, x, y) ==> block_pixel('▄', w, h, x, y),
        5 * h / 8 >= h - h / 2 ==> (block_pixel('▄', w, h, x, y) ==> block_pixel('▅', w, h, x, y)),
        block_pixel('▅', w, h, x, y) ==> block_pixel('▆', w, h, x, y),
        block_pixel('▆', w, h, x, y) ==> block_pixel('▇', w, h, x, y),
        block_pixel('▇', w, h, x, y) ==> block_pixel('█', w, h, x, y),
{
    assert(1 * h / 8 <= 2 * h / 8 <= 3 * h / 8 <= h - h / 2) by (nonlinear_arith)
        requires
            h >= 0,
    ;
    assert(5 * h / 8 <= 6 * h / 8 <= 7 * h / 8) by (nonlinear_arith)
        requires
            h >= 0,
    ;
}

/// Law: the left blocks are nested: ▏ ⊆ ▎ ⊆ ▍ ⊆ ▌ ⊆ ▋ ⊆ ▊ ⊆ ▉ ⊆ █.
pub proof fn lemma_left_blocks_nested(w: int, h: int, x: int, y: int)
    requires
        w >= 0,
    ensures
        block_pixel('▏', w, h, x, y) ==> block_pixel('▎', w, h, x, y),
        block_pixel('▎', w, h, x, y) ==> block_pixel('▍', w, h, x, y),
        block_pixel('▍', w, h, x, y) ==> block_pixel('▌', w, h, x, y),
        block_pixel('▌', w, h, x, y) ==> block_pixel('▋', w, h, x, y),
        block_pixel('▋', w, h, x, y) ==> block_pixel('▊', w, h, x, y),
        block_pixel('▊', w, h, x, y) ==> block_pixel('▉', w, h, x, y),
        block_pixel('▉', w, h, x, y) ==> block_pixel('█', w, h, x, y),
{
    assert(1 * w / 8 <= 2 * w / 8 <= 3 * w / 8 <= w / 2 <= 5 * w / 8 <= 6 * w / 8 <= 7 * w / 8)
        by (nonlinear_arith)
        requires
            w >= 0,
    ;
}

/// Law: a denser dither lights every pixel a sparser one lights.
pub proof fn lemma_shade_monotone(x: int, y: int, num1: u32, num2: u32, den: u32)
    requires
        num1 <= num2,
    ensures
        shade_lit(x, y, num1, den) ==> shade_lit(x, y, num2, den),
{
}

/// Law, on whole buffers: the upper and lower half blocks split the cell,
/// and so do the left and right half blocks: at each position exactly one
/// of each pair is white, and together they give the full block.
pub proof fn lemma_half_block_images_split_cell(w: int, h: int, i: int)
    requires
        w > 0,
        h > 0,
        0 <= i < w * h,
    ensures
        (block_image('▀', w, h)[i] == WHITE) != (block_image('▄', w, h)[i] == WHITE),
        (block_image('▌', w, h)[i] == WHITE) != (block_image('▐', w, h)[i] == WHITE),
        block_image('█', w, h)[i] == WHITE,
{
    lemma_cell_index(w, h, i);
    lemma_halves_complement(w, h, i % w, i / w);
}

/// Law, on whole buffers: at each position exactly one of the four quadrant
/// blocks ▘ ▝ ▖ ▗ is white.
pub proof fn lemma_quadrant_images_partition(w: int, h: int, i: int)
    requires
        w > 0,
        h > 0,
        0 <= i < w * h,
    ensures
        (if block_image('▘', w, h)[i] == WHITE { 1int } else { 0int }) + (if block_image('▝', w, h)[i]
            == WHITE {
            1int
        } else {
            0int
        }) + (if block_image('▖', w, h)[i] == WHITE { 1int } else { 0int }) + (if block_image(
            '▗',
            w,
            h,
        )[i] == WHITE {
            1int
        } else {
            0int
        }) == 1,
{
    lemma_cell_index(w, h, i);
    lemma_quadrants_partition(w, h, i % w, i / w);
}

/// Law: the lower blocks ▁ ▂ ▃ ▅ ▆ ▇ (U+2581 to U+2587, but for the half
/// block ▄) light exactly the bottom rows from `h - k * h / 8`, where `k`,
/// the number of eighths in the character's name, is its code point less
/// U+2580: ▅ lights the lowest five eighths of the cell, ▆ six.
pub proof fn lemma_lower_eighth_blocks(c: char, w: int, h: int, x: int, y: int)
    requires
        0x2581 <= c as u32 <= 0x2587,
        c != '▄',
    ensures
        block_pixel(c, w, h, x, y) == (y >= h - (c as u32 - 0x2580) * h / 8),
{
    if c as u32 == 0x2581 {
        assert(c == '▁');

    } else if c as u32 == 0x2582 {
        assert(c == '▂');

    } else if c as u32 == 0x2583 {
        assert(c == '▃');

    } else if c as u32 == 0x2585 {
        assert(c == '▅');

    } else if c as u32 == 0x2586 {
        assert(c == '▆');

    } else if c as u32 == 0x2587 {
        assert(c == '▇');

    }
}

/// Law: the left blocks ▉ ▊ ▋ ▌ ▍ ▎ ▏ (U+2589 to U+258F) light exactly the
/// columns left of `k * w / 8`, where `k`, the number of eighths in the
/// character's name, is U+2590 less its code point: ▍ lights the leftmost
/// three eighths of the cell, ▎ two.
pub proof fn lemma_left_eighth_blocks(c: char, w: int, h: int, x: int, y: int)
    requires
        0x2589 <= c as u32 <= 0x258F,
        w >= 0,
    ensures
        block_pixel(c, w, h, x, y) == (x < (0x2590 - c as u32) * w / 8),
{
    if c as u32 == 0x2589 {
        assert(c == '▉');

    } else if c as u32 == 0x258A {
        assert(c == '▊');

    } else if c as u32 == 0x258B {
        assert(c == '▋');

    } else if c as u32 == 0x258C {
        assert(c == '▌');
        assert(4 * w / 8 == w / 2) by (nonlinear_arith)
            requires
                w >= 0,
        ;
    } else if c as u32 == 0x258D {
        assert(c == '▍');

    } else if c as u32 == 0x258E {
        assert(c == '▎');

    } else if c as u32 == 0x258F {
        assert(c == '▏');

    }
}

/// Law, on the rasterized buffer: pixel `i` of a lower-eighths block is
/// white exactly when its row is among the lowest `k * h / 8`, and pixel `i`
/// of a left-eighths block exactly when its column is among the leftmost
/// `k * w / 8`, with `k` taken from the code point as above.
pub proof fn lemma_eighth_block_images(c: char, w: int, h: int, i: int)
    requires
        w > 0,
        h > 0,
        0 <= i < w * h,
    ensures
        0x2581 <= c as u32 <= 0x2587 && c != '▄' ==> ((block_image(c, w, h)[i] == WHITE) == (i / w
            >= h - (c as u32 - 0x2580) * h / 8)),
        0x2589 <= c as u32 <= 0x258F ==> ((block_image(c, w, h)[i] == WHITE) == (i % w < (0x2590
            - c as u32) * w / 8)),
{
    lemma_cell_index(w, h, i);
    if 0x2581 <= c as u32 <= 0x2587 && c != '▄' {
        lemma_lower_eighth_blocks(c, w, h, i % w, i / w);
    }
    if 0x2589 <= c as u32 <= 0x258F {
        lemma_left_eighth_blocks(c, w, h, i % w, i / w);
    }
}

/// Law: the half blocks and the quadrants light exactly their part of the
/// cell, split at column `w / 2` and row `h / 2`: ▀ the rows above the split,
/// ▄ the rows from it, ▌ the columns left of it, ▐ the columns from it, and
/// each quadrant ▘ ▝ ▖ ▗ the pixels on its side of both splits; █ lights every
/// pixel.
pub proof fn lemma_half_and_quadrant_blocks(w: int, h: int, x: int, y: int)
    ensures
        block_pixel('▀', w, h, x, y) == (y < h / 2),
        block_pixel('▄', w, h, x, y) == (y >= h / 2),
        block_pixel('▌', w, h, x, y) == (x < w / 2),
        block_pixel('▐', w, h, x, y) == (x >= w / 2),
        block_pixel('▘', w, h, x, y) == (x < w / 2 && y < h / 2),
        block_pixel('▝', w, h, x, y) == (x >= w / 2 && y < h / 2),
        block_pixel('▖', w, h, x, y) == (x < w / 2 && y >= h / 2),
        block_pixel('▗', w, h, x, y) == (x >= w / 2 && y >= h / 2),
        block_pixel('█', w, h, x, y),
{
}

/// Law: the shades ░ ▒ ▓ (U+2591 to U+2593) light the pixels where
/// `x + 2 * y`, taken as a `u32`, leaves a remainder below `k` when divided
/// by four, `k` being the code point less U+2590: one, two or three quarters.
pub proof fn lemma_shade_blocks(c: char, w: int, h: int, x: int, y: int)
    requires
        0x2591 <= c as u32 <= 0x2593,
    ensures
        block_pixel(c, w, h, x, y) == (((x + 2 * y) as u32) % 4 < (c as u32 - 0x2590)),
{
    if c as u32 == 0x2591 {
        assert(c == '░');
    } else if c as u32 == 0x2592 {
        assert(c == '▒');
    } else {
        assert(c == '▓');
    }
}

} // verus!
