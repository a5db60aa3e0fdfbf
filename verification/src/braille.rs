//! Braille patterns (U+2800 to U+28FF): the eight dots of a cell, and the
//! pixels they light.
//!
//! Where exactly each dot's disc lies depends on the cell's proportions and is
//! worked out by the caller; this module decides which dots a character has
//! and lights their pixels.

use vstd::prelude::*;

use crate::pixels::{WHITE, TRANSPARENT, transparent_image};

verus! {

/// First code point of the braille block; its pattern has no dot.
pub const BRAILLE_BASE: u32 = 0x2800u32;

/// The dot pattern of a braille character: one bit per dot.
pub open spec fn braille_bits(ch: char) -> u32 {
    (ch as u32 - BRAILLE_BASE) as u32
}

/// Whether bit `bit` of the pattern `bits` is set.
pub open spec fn dot_set(bits: u32, bit: int) -> bool {
    bits & (1u32 << (bit as u32)) != 0
}

/// Column (0 or 1) of the dot that bit `bit` stands for. Bits 0, 1, 2 are the
/// upper three dots of the left column and bits 3, 4, 5 those of the right
/// column; bits 6 and 7 are the bottom dots, left and right.
pub open spec fn dot_column(bit: int) -> int {
    if bit == 3 || bit == 4 || bit == 5 || bit == 7 {
        1
    } else {
        0
    }
}

/// Row (0 to 3, from the top) of the dot that bit `bit` stands for.
pub open spec fn dot_row(bit: int) -> int {
    if bit == 0 || bit == 3 {
        0
    } else if bit == 1 || bit == 4 {
        1
    } else if bit == 2 || bit == 5 {
        2
    } else {
        3
    }
}

/// Index of a dot's place in the two-by-four grid, row by row:
/// `row * 2 + column`.
pub open spec fn dot_cell(bit: int) -> int {
    dot_row(bit) * 2 + dot_column(bit)
}

/// Whether one of the dots for bits `0..k` that are set in `bits` covers pixel
/// `i`; `cells[c]` lists the pixels of the disc at grid place `c`.
pub open spec fn lit_by_dots(bits: u32, cells: Seq<Vec<usize>>, k: int, i: int) -> bool
    decreases k,
{
    if k <= 0 {
        false
    } else {
        lit_by_dots(bits, cells, k - 1, i) || (dot_set(bits, k - 1) && dot_cell(k - 1)
            < cells.len() && cells[dot_cell(k - 1)]@.contains(i as usize))
    }
}

/// Whether the braille character `ch` lights pixel `i`, given the pixels of
/// each disc of the grid.
pub open spec fn braille_pixel_lit(ch: char, cells: Seq<Vec<usize>>, i: int) -> bool {
    lit_by_dots(braille_bits(ch), cells, 8, i)
}

/// The pixels of the braille character `ch` in a cell of `w * h` pixels: white
/// where a dot of its pattern lies, transparent elsewhere.
pub open spec fn braille_image(ch: char, w: int, h: int, cells: Seq<Vec<usize>>) -> Seq<u32> {
    Seq::new(
        (w * h) as nat,
        |i: int|
            if w > 0 && h > 0 && braille_pixel_lit(ch, cells, i) {
                WHITE
            } else {
                TRANSPARENT
            },
    )
}

/// Rasterizes the braille character `ch` into `width * height` RGBA pixels,
/// white on transparent.
///
/// `dot_pixels[row * 2 + column]` lists the pixel indices (row by row, `width`
/// to a row) of the dot disc at that place of the two-by-four grid; indices
/// outside the cell are ignored, and so is a place the list does not reach.
#[verifier::rlimit(40)]
pub fn rasterize_braille(ch: char, width: u32, height: u32, dot_pixels: &Vec<Vec<usize>>) -> (image:
    Vec<u32>)
    requires
        ch as u32 >= BRAILLE_BASE,
        width * height <= usize::MAX,
    ensures
        image@ == braille_image(ch, width as int, height as int, dot_pixels@),
{
    let w: usize = width as usize;
    let h: usize = height as usize;
    let n: usize = w * h;
    let mut image = transparent_image(n);
    let ghost cells = dot_pixels@;
    if w == 0 || h == 0 {
        assert(image@ =~= braille_image(ch, width as int, height as int, cells));
        return image;
    }
    let bits: u32 = ch as u32 - BRAILLE_BASE;
    if bits == 0 {
        // Blank braille
        assert forall|k: int, i: int| 0 <= k <= 8 implies !#[trigger] lit_by_dots(bits, cells, k, i) by {
            lemma_no_dots_lit(cells, k, i);
        }
        assert(image@ =~= braille_image(ch, width as int, height as int, cells));
        return image;
    }
    // Braille has 2 columns, 4 rows of dots
    // Bit layout:
    //   0  3
    //   1  4
    //   2  5
    //   6  7
    let dot_positions: [(u32, usize, usize); 8] = [
        (0, 0, 0),
        (1, 0, 1),
        (2, 0, 2),
        (3, 1, 0),
        (4, 1, 1),
        (5, 1, 2),
        (6, 0, 3),
        (7, 1, 3),
    ];
    let mut k: usize = 0;
    while k < 8
        invariant
            k <= 8,
            n == w * h,
            w > 0 && h > 0,
            bits == braille_bits(ch),
            cells == dot_pixels@,
            image@.len() == n,
            forall|j: int| 0 <= j < 8 ==> (#[trigger] dot_positions@[j]).0 == j && dot_positions@[j].1
                == dot_column(j) && dot_positions@[j].2 == dot_row(j),
            forall|i: int|
                0 <= i < n ==> #[trigger] image@[i] == if lit_by_dots(bits, cells, k as int, i) {
                    WHITE
                } else {
                    TRANSPARENT
                },
        decreases 8 - k,
    {
        let (bit, col, row) = dot_positions[k];
        assert(dot_positions@[k as int].0 == k);
        let cell: usize = row * 2 + col;
        if bits & (1u32 << bit) != 0 && cell < dot_pixels.len() {
            let disc: &Vec<usize> = &dot_pixels[cell];
            let mut j: usize = 0;
            while j < disc.len()
                invariant
                    k < 8,
                    n == w * h,
                    image@.len() == n,
                    cells == dot_pixels@,
                    cell < cells.len(),
                    *disc == cells[cell as int],
                    j <= disc@.len(),
                    forall|i: int|
                        0 <= i < n ==> #[trigger] image@[i] == if lit_by_dots(bits, cells, k as int, i)
                            || disc@.take(j as int).contains(i as usize) {
                            WHITE
                        } else {
                            TRANSPARENT
                        },
                decreases disc@.len() - j,
            {
                let p: usize = disc[j];
                let ghost before = image@;
                if p < n {
                    image[p] = WHITE;
                }
                proof {
                    assert(disc@.take(j + 1) =~= disc@.take(j as int).push(p));
                    assert forall|i: int| 0 <= i < n implies #[trigger] image@[i] == if lit_by_dots(
                        bits,
                        cells,
                        k as int,
                        i,
                    ) || disc@.take(j + 1).contains(i as usize) {
                        WHITE
                    } else {
                        TRANSPARENT
                    } by {
                        assert(disc@.take(j + 1)[j as int] == p);
                        if i == p as int {
                            assert(disc@.take(j + 1).contains(i as usize));
                        } else {
                            assert(image@[i] == before[i]);
                            if disc@.take(j + 1).contains(i as usize) {
                                let t = choose|t: int|
                                    0 <= t < j + 1 && #[trigger] disc@.take(j + 1)[t] == i as usize;
                                assert(disc@.take(j as int)[t] == i as usize);
                            }
                            if disc@.take(j as int).contains(i as usize) {
                                let t = choose|t: int|
                                    0 <= t < j && #[trigger] disc@.take(j as int)[t] == i as usize;
                                assert(disc@.take(j + 1)[t] == i as usize);
                            }
                        }
                    }
                }
                j = j + 1;
            }
            proof {
                assert(disc@.take(disc@.len() as int) =~= disc@);
            }
        }
        proof {
            assert forall|i: int| 0 <= i < n implies #[trigger] image@[i] == if lit_by_dots(
                bits,
                cells,
                k + 1,
                i,
            ) {
                WHITE
            } else {
                TRANSPARENT
            } by {
                assert(lit_by_dots(bits, cells, k + 1, i) == (lit_by_dots(bits, cells, k as int, i) || (
                dot_set(bits, k as int) && dot_cell(k as int) < cells.len() && cells[dot_cell(
                    k as int,
                )]@.contains(i as usize))));
            }
        }
        k = k + 1;
    }
    assert(image@ =~= braille_image(ch, width as int, height as int, cells));
    image
}

/// With no dot set, no pixel is lit.
proof fn lemma_no_dots_lit(cells: Seq<Vec<usize>>, k: int, i: int)
    ensures
        !lit_by_dots(0u32, cells, k, i),
    decreases k,
{
    if k > 0 {
        lemma_no_dots_lit(cells, k - 1, i);
        assert(0u32 & (1u32 << ((k - 1) as u32)) == 0) by (bit_vector);
    }
}

// ---------------------------------------------------------------------------
// Laws of the braille patterns
// ---------------------------------------------------------------------------

/// Whether dot `bit` of the pattern `bits` is set and its disc covers pixel `i`.
pub open spec fn dot_covers(bits: u32, cells: Seq<Vec<usize>>, bit: int, i: int) -> bool {
    &&& dot_set(bits, bit)
    &&& dot_cell(bit) < cells.len()
    &&& cells[dot_cell(bit)]@.contains(i as usize)
}

proof fn lemma_lit_by_dots_exists(bits: u32, cells: Seq<Vec<usize>>, k: int, i: int)
    requires
        0 <= k,
    ensures
        lit_by_dots(bits, cells, k, i) <==> exists|b: int|
            0 <= b < k && #[trigger] dot_covers(bits, cells, b, i),
    decreases k,
{
    if k > 0 {
        lemma_lit_by_dots_exists(bits, cells, k - 1, i);
        if lit_by_dots(bits, cells, k, i) {
            if !lit_by_dots(bits, cells, k - 1, i) {
                assert(dot_covers(bits, cells, k - 1, i));
            }
        }
        if exists|b: int| 0 <= b < k && #[trigger] dot_covers(bits, cells, b, i) {
            let b = choose|b: int| 0 <= b < k && #[trigger] dot_covers(bits, cells, b, i);
            if b < k - 1 {
                assert(lit_by_dots(bits, cells, k - 1, i));
            }
        }
    }
}

/// Law: a braille character lights exactly the pixels of the discs of the
/// dots its pattern has: the union of its dots.
pub proof fn lemma_braille_is_union_of_dots(ch: char, cells: Seq<Vec<usize>>, i: int)
    ensures
        braille_pixel_lit(ch, cells, i) <==> exists|b: int|
            0 <= b < 8 && #[trigger] dot_covers(braille_bits(ch), cells, b, i),
{
    lemma_lit_by_dots_exists(braille_bits(ch), cells, 8, i);
}

/// Law: the blank braille pattern U+2800 lights no pixel.
pub proof fn lemma_blank_braille(cells: Seq<Vec<usize>>, i: int)
    ensures
        !braille_pixel_lit('\u{2800}', cells, i),
{
    assert(braille_bits('\u{2800}') == 0);
    lemma_no_dots_lit(cells, 8, i);
}

/// Law: adding dots never darkens a pixel: when every dot of `a` is also a dot
/// of `b`, every pixel that `a` lights, `b` lights as well.
pub proof fn lemma_braille_monotone(a: char, b: char, cells: Seq<Vec<usize>>, i: int)
    requires
        braille_bits(a) & braille_bits(b) == braille_bits(a),
        braille_pixel_lit(a, cells, i),
    ensures
        braille_pixel_lit(b, cells, i),
{
    lemma_braille_is_union_of_dots(a, cells, i);
    lemma_braille_is_union_of_dots(b, cells, i);
    let k = choose|k: int| 0 <= k < 8 && #[trigger] dot_covers(braille_bits(a), cells, k, i);
    let x = braille_bits(a);
    let y = braille_bits(b);
    let s = k as u32;
    assert(y & (1u32 << s) != 0) by (bit_vector)
        requires
            x & y == x,
            x & (1u32 << s) != 0,
    ;
    assert(dot_covers(braille_bits(b), cells, k, i));
}

/// Law: the eight bits of a pattern name the eight places of the two-by-four
/// dot grid, each place exactly once.
pub proof fn lemma_dot_grid_bijective(b1: int, b2: int)
    requires
        0 <= b1 < 8,
        0 <= b2 < 8,
    ensures
        0 <= dot_column(b1) < 2,
        0 <= dot_row(b1) < 4,
        0 <= dot_cell(b1) < 8,
        dot_cell(b1) == dot_cell(b2) ==> b1 == b2,
{
}

/// Law: a braille image is white on transparent, one pixel per position.
pub proof fn lemma_braille_image_white_on_transparent(
    ch: char,
    w: int,
    h: int,
    cells: Seq<Vec<usize>>,
    i: int,
)
    requires
        w >= 0,
        h >= 0,
        0 <= i < w * h,
    ensures
        braille_image(ch, w, h, cells).len() == w * h,
        braille_image(ch, w, h, cells)[i] == WHITE || braille_image(ch, w, h, cells)[i]
            == TRANSPARENT,
{
    assert(w * h >= 0) by (nonlinear_arith)
        requires
            w >= 0,
            h >= 0,
    ;
}

/// Law, on whole buffers: the image of a pattern that combines the dots of
/// two patterns is white exactly where one of theirs is.
pub proof fn lemma_braille_images_combine(
    a: char,
    b: char,
    c: char,
    w: int,
    h: int,
    cells: Seq<Vec<usize>>,
    i: int,
)
    requires
        braille_bits(c) == braille_bits(a) | braille_bits(b),
        w > 0,
        h > 0,
        0 <= i < w * h,
    ensures
        (braille_image(c, w, h, cells)[i] == WHITE) == (braille_image(a, w, h, cells)[i] == WHITE
            || braille_image(b, w, h, cells)[i] == WHITE),
{
    assert(w * h >= 0) by (nonlinear_arith)
        requires
            w >= 0,
            h >= 0,
    ;
    lemma_braille_is_union_of_dots(a, cells, i);
    lemma_braille_is_union_of_dots(b, cells, i);
    lemma_braille_is_union_of_dots(c, cells, i);
    let x = braille_bits(a);
    let y = braille_bits(b);
    let z = braille_bits(c);
    assert forall|k: int| 0 <= k < 8 implies #[trigger] dot_set(z, k) == (dot_set(x, k) || dot_set(y, k)) by {
        let s = k as u32;
        assert((z & (1u32 << s) != 0) == ((x & (1u32 << s) != 0) || (y & (1u32 << s) != 0)))
            by (bit_vector)
            requires
                z == x | y,
        ;
    }
    if braille_pixel_lit(c, cells, i) {
        let k = choose|k: int| 0 <= k < 8 && #[trigger] dot_covers(z, cells, k, i);
        assert(dot_set(z, k));
        if dot_set(x, k) {
            assert(dot_covers(x, cells, k, i));
        } else {
            assert(dot_covers(y, cells, k, i));
        }
    }
    if braille_pixel_lit(a, cells, i) {
        let k = choose|k: int| 0 <= k < 8 && #[trigger] dot_covers(x, cells, k, i);
        assert(dot_set(z, k));
        assert(dot_covers(z, cells, k, i));
    }
    if braille_pixel_lit(b, cells, i) {
        let k = choose|k: int| 0 <= k < 8 && #[trigger] dot_covers(y, cells, k, i);
        assert(dot_set(z, k));
        assert(dot_covers(z, cells, k, i));
    }
}

} // verus!
