//! Pixel words and their byte order.

use vstd::prelude::*;

verus! {

/// An opaque white pixel; all four channels are `0xFF`, so the word is the
/// same in every byte order.
pub const WHITE: u32 = 0xFFFF_FFFFu32;

/// A transparent pixel.
pub const TRANSPARENT: u32 = 0u32;

/// Alpha channel of a pixel stored as ARGB (alpha in the most significant byte).
pub open spec fn argb_alpha(p: u32) -> u32 {
    p >> 24u32
}

/// Red channel of an ARGB pixel.
pub open spec fn argb_red(p: u32) -> u32 {
    (p >> 16u32) & 0xFFu32
}

/// Green channel of an ARGB pixel.
pub open spec fn argb_green(p: u32) -> u32 {
    (p >> 8u32) & 0xFFu32
}

/// Blue channel of an ARGB pixel.
pub open spec fn argb_blue(p: u32) -> u32 {
    p & 0xFFu32
}

/// The same pixel stored as RGBA bytes in memory order (red first), read as a
/// little-endian word: red in the low byte, then green, blue and alpha.
pub open spec fn argb_to_rgba(p: u32) -> u32 {
    argb_red(p) | (argb_green(p) << 8u32) | (argb_blue(p) << 16u32) | (argb_alpha(p) << 24u32)
}

/// Converts one ARGB word to the RGBA layout.
pub fn pixel_argb_to_rgba(p: u32) -> (r: u32)
    ensures
        r == argb_to_rgba(p),
{
    let a: u32 = p >> 24u32;
    let red: u32 = (p >> 16u32) & 0xFFu32;
    let g: u32 = (p >> 8u32) & 0xFFu32;
    let b: u32 = p & 0xFFu32;
    red | (g << 8u32) | (b << 16u32) | (a << 24u32)
}

/// Converts a buffer of ARGB pixels (the layout a software rasterizer writes)
/// to RGBA words, in place.
pub fn convert_argb_to_rgba(image: &mut [u32])
    ensures
        final(image)@.len() == old(image)@.len(),
        forall|i: int|
            0 <= i < old(image)@.len() ==> #[trigger] final(image)@[i] == argb_to_rgba(
                old(image)@[i],
            ),
{
    let n: usize = image.len();
    let mut i: usize = 0;
    while i < n
        invariant
            n == old(image)@.len(),
            image@.len() == n,
            i <= n,
            forall|j: int| 0 <= j < i ==> #[trigger] image@[j] == argb_to_rgba(old(image)@[j]),
            forall|j: int| i <= j < n ==> #[trigger] image@[j] == old(image)@[j],
        decreases n - i,
    {
        let p: u32 = image[i];
        image[i] = pixel_argb_to_rgba(p);
        i = i + 1;
    }
}

/// A buffer of `n` transparent pixels.
pub fn transparent_image(n: usize) -> (image: Vec<u32>)
    ensures
        image@ == Seq::new(n as nat, |i: int| TRANSPARENT),
{
    let mut image: Vec<u32> = Vec::with_capacity(n);
    let mut i: usize = 0;
    while i < n
        invariant
            i <= n,
            image@ == Seq::new(i as nat, |j: int| TRANSPARENT),
        decreases n - i,
    {
        image.push(TRANSPARENT);
        i = i + 1;
        assert(image@ =~= Seq::new(i as nat, |j: int| TRANSPARENT));
    }
    image
}

/// Law: the conversion only exchanges the red and blue bytes, so applying it
/// twice gives back the original pixel.
pub proof fn lemma_argb_to_rgba_involution(p: u32)
    ensures
        argb_to_rgba(argb_to_rgba(p)) == p,
{
    assert(argb_to_rgba(argb_to_rgba(p)) == p) by (bit_vector);
}

/// Law: each channel keeps its value; only the byte that holds it changes.
pub proof fn lemma_argb_to_rgba_channels(p: u32)
    ensures
        argb_to_rgba(p) & 0xFFu32 == argb_red(p),
        (argb_to_rgba(p) >> 8u32) & 0xFFu32 == argb_green(p),
        (argb_to_rgba(p) >> 16u32) & 0xFFu32 == argb_blue(p),
        argb_to_rgba(p) >> 24u32 == argb_alpha(p),
{
    assert(argb_to_rgba(p) & 0xFFu32 == argb_red(p)) by (bit_vector);
    assert((argb_to_rgba(p) >> 8u32) & 0xFFu32 == argb_green(p)) by (bit_vector);
    assert((argb_to_rgba(p) >> 16u32) & 0xFFu32 == argb_blue(p)) by (bit_vector);
    assert(argb_to_rgba(p) >> 24u32 == argb_alpha(p)) by (bit_vector);
}

/// Law: white and transparent pixels are the same in both layouts.
pub proof fn lemma_argb_to_rgba_fixes_white_and_transparent()
    ensures
        argb_to_rgba(WHITE) == WHITE,
        argb_to_rgba(TRANSPARENT) == TRANSPARENT,
{
    assert(argb_to_rgba(0xFFFF_FFFFu32) == 0xFFFF_FFFFu32) by (bit_vector);
    assert(argb_to_rgba(0u32) == 0u32) by (bit_vector);
}

} // verus!
