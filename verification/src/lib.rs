//! Procedural rasterization of box-drawing, block-element and braille glyphs.
//!
//! Everything in this crate works on integers: pixel buffers are `u32` words,
//! and the geometry of box-drawing strokes is expressed in half-pixel units.
//! Painting those strokes with anti-aliasing is left to the caller.

pub mod pixels;
pub mod box_drawing;
pub mod block;
pub mod braille;

use vstd::prelude::*;

use crate::block::{block_image, is_shade, rasterize_block_element};
use crate::box_drawing::{box_drawing_raster, paints_whole_cell, rasterize_box_drawing, BoxPlan};
use crate::braille::{braille_image, rasterize_braille};

verus! {

/// Box Drawing: U+2500 to U+257F.
pub open spec fn is_box_drawing(ch: char) -> bool {
    0x2500 <= ch as u32 <= 0x257F
}

/// Block Elements: U+2580 to U+259F.
pub open spec fn is_block_element(ch: char) -> bool {
    0x2580 <= ch as u32 <= 0x259F
}

/// Braille Patterns: U+2800 to U+28FF.
pub open spec fn is_braille(ch: char) -> bool {
    0x2800 <= ch as u32 <= 0x28FF
}

/// Whether `ch` is drawn procedurally rather than from a font.
pub open spec fn is_custom_glyph(ch: char) -> bool {
    is_box_drawing(ch) || is_block_element(ch) || is_braille(ch)
}

/// Tries to rasterize `ch` procedurally, as a custom glyph.
///
/// Returns `Some(pixels)` for box-drawing, block-element and braille
/// characters and `None` for every other character, which falls through to
/// font rasterization. The pixels are white on transparent, `width * height`
/// RGBA words row by row.
///
/// Two parts of the drawing are done by the caller: `paint_box` fills and
/// strokes the plan of a box-drawing cell and returns its ARGB pixels, and
/// `braille_dots` gives, for a cell of the given size, the pixels of each of
/// the eight dot discs of the braille grid (see `rasterize_braille`).
pub fn try_rasterize_custom_glyph<P, D>(
    ch: char,
    width: u32,
    height: u32,
    paint_box: P,
    braille_dots: D,
) -> (result: Option<Vec<u32>>) where P: Fn(BoxPlan) -> Vec<u32>, D: Fn(u32, u32) -> Vec<Vec<usize>>
    requires
        width * height <= usize::MAX,
        is_shade(ch) && width > 0 && height > 0 ==> (width - 1) + 2 * (height - 1) <= usize::MAX,
        paints_whole_cell(paint_box),
        call_requires(braille_dots, (width, height)),
    ensures
        result is Some <==> is_custom_glyph(ch),
        result is Some ==> result->0@.len() == width * height,
        is_box_drawing(ch) ==> box_drawing_raster(ch, width, height, paint_box, result->0@),
        is_block_element(ch) ==> result->0@ == block_image(ch, width as int, height as int),
        is_braille(ch) ==> exists|cells: Vec<Vec<usize>>|
            {
                &&& call_ensures(braille_dots, (width, height), cells)
                &&& result->0@ == braille_image(ch, width as int, height as int, cells@)
            },
{
    let cp: u32 = ch as u32;
    if 0x2500 <= cp && cp <= 0x257F {
        Some(rasterize_box_drawing(ch, width, height, paint_box))
    } else if 0x2580 <= cp && cp <= 0x259F {
        Some(rasterize_block_element(ch, width, height))
    } else if 0x2800 <= cp && cp <= 0x28FF {
        let cells = braille_dots(width, height);
        Some(rasterize_braille(ch, width, height, &cells))
    } else {
        None
    }
}

} // verus!
