//! Box-drawing characters (U+2500 to U+257F): which line segments each one
//! has, and where the strokes that draw them lie in the cell.

use vstd::prelude::*;

use crate::pixels::{argb_to_rgba, convert_argb_to_rgba, transparent_image, TRANSPARENT};

verus! {

/// How a line segment of a box-drawing character is drawn.
#[derive(Clone, Copy, PartialEq, Eq, Structural, Debug)]
pub enum LineWeight {
    Light,
    Heavy,
    Double,
}

/// The four arms of a box-drawing character, from the cell's centre to each
/// edge; `None` where the character has no arm.
#[derive(Clone, Copy, PartialEq, Eq, Structural, Debug)]
pub struct BoxSegments {
    pub left: Option<LineWeight>,
    pub right: Option<LineWeight>,
    pub up: Option<LineWeight>,
    pub down: Option<LineWeight>,
}

/// The segments value with the given arms.
pub open spec fn segments(
    left: Option<LineWeight>,
    right: Option<LineWeight>,
    up: Option<LineWeight>,
    down: Option<LineWeight>,
) -> BoxSegments {
    BoxSegments { left, right, up, down }
}

/// A character with no arms at all.
pub open spec fn no_segments() -> BoxSegments {
    segments(None, None, None, None)
}

impl BoxSegments {
    /// Builds the value with the given arms.
    pub fn new(
        left: Option<LineWeight>,
        right: Option<LineWeight>,
        up: Option<LineWeight>,
        down: Option<LineWeight>,
    ) -> (s: BoxSegments)
        ensures
            s == segments(left, right, up, down),
    {
        BoxSegments { left, right, up, down }
    }

    /// Whether any arm is drawn with a double line.
    pub open spec fn has_double(self) -> bool {
        self.left == Some(LineWeight::Double) || self.right == Some(LineWeight::Double)
            || self.up == Some(LineWeight::Double) || self.down == Some(LineWeight::Double)
    }

    /// Whether the character has no arm.
    pub open spec fn is_empty(self) -> bool {
        self == no_segments()
    }
}

impl Default for BoxSegments {
    fn default() -> (s: BoxSegments)
        ensures
            s == no_segments(),
    {
        BoxSegments { left: None, right: None, up: None, down: None }
    }
}

/// The rounded corners ╭ ╮ ╰ ╯.
pub open spec fn spec_is_rounded_corner(ch: char) -> bool {
    ch == '╭' || ch == '╮' || ch == '╰' || ch == '╯'
}

/// Whether this is a rounded corner character.
pub fn is_rounded_corner(ch: char) -> (r: bool)
    ensures
        r == spec_is_rounded_corner(ch),
{
    ch == '╭' || ch == '╮' || ch == '╰' || ch == '╯'
}

/// The arms of each box-drawing character. Rounded corners have the arms of
/// the light corners, dashed lines those of the solid lines of the same
/// weight; a character that is not listed has no arm.
pub open spec fn segments_of(ch: char) -> BoxSegments {
    let l = Some(LineWeight::Light);
    let hv = Some(LineWeight::Heavy);
    let db = Some(LineWeight::Double);
    let no: Option<LineWeight> = None;
    match ch {
        // Light lines
        '─' => segments(l, l, no, no),
        '│' => segments(no, no, l, l),
        '┌' => segments(no, l, no, l),
        '┐' => segments(l, no, no, l),
        '└' => segments(no, l, l, no),
        '┘' => segments(l, no, l, no),
        '├' => segments(no, l, l, l),
        '┤' => segments(l, no, l, l),
        '┬' => segments(l, l, no, l),
        '┴' => segments(l, l, l, no),
        '┼' => segments(l, l, l, l),
        // Heavy lines
        '━' => segments(hv, hv, no, no),
        '┃' => segments(no, no, hv, hv),
        '┏' => segments(no, hv, no, hv),
        '┓' => segments(hv, no, no, hv),
        '┗' => segments(no, hv, hv, no),
        '┛' => segments(hv, no, hv, no),
        '┣' => segments(no, hv, hv, hv),
        '┫' => segments(hv, no, hv, hv),
        '┳' => segments(hv, hv, no, hv),
        '┻' => segments(hv, hv, hv, no),
        '╋' => segments(hv, hv, hv, hv),
        // Mixed light/heavy
        '┍' => segments(no, hv, no, l),
        '┎' => segments(no, l, no, hv),
        '┑' => segments(hv, no, no, l),
        '┒' => segments(l, no, no, hv),
        '┕' => segments(no, hv, l, no),
        '┖' => segments(no, l, hv, no),
        '┙' => segments(hv, no, l, no),
        '┚' => segments(l, no, hv, no),
        '┝' => segments(no, hv, l, l),
        '┞' => segments(no, l, hv, l),
        '┟' => segments(no, l, l, hv),
        '┠' => segments(no, l, hv, hv),
        '┡' => segments(no, hv, hv, l),
        '┢' => segments(no, hv, l, hv),
        '┥' => segments(hv, no, l, l),
        '┦' => segments(l, no, hv, l),
        '┧' => segments(l, no, l, hv),
        '┨' => segments(l, no, hv, hv),
        '┩' => segments(hv, no, hv, l),
        '┪' => segments(hv, no, l, hv),
        '┭' => segments(hv, l, no, l),
        '┮' => segments(l, hv, no, l),
        '┯' => segments(hv, hv, no, l),
        '┰' => segments(l, l, no, hv),
        '┱' => segments(hv, l, no, hv),
        '┲' => segments(l, hv, no, hv),
        '┵' => segments(hv, l, l, no),
        '┶' => segments(l, hv, l, no),
        '┷' => segments(hv, hv, l, no),
        '┸' => segments(l, l, hv, no),
        '┹' => segments(hv, l, hv, no),
        '┺' => segments(l, hv, hv, no),
        '┽' => segments(hv, l, l, l),
        '┾' => segments(l, hv, l, l),
        '┿' => segments(hv, hv, l, l),
        '╀' => segments(l, l, hv, l),
        '╁' => segments(l, l, l, hv),
        '╂' => segments(l, l, hv, hv),
        '╃' => segments(hv, l, hv, l),
        '╄' => segments(l, hv, hv, l),
        '╅' => segments(hv, l, l, hv),
        '╆' => segments(l, hv, l, hv),
        '╇' => segments(hv, hv, hv, l),
        '╈' => segments(hv, hv, l, hv),
        '╉' => segments(hv, l, hv, hv),
        '╊' => segments(l, hv, hv, hv),
        // Double lines
        '═' => segments(db, db, no, no),
        '║' => segments(no, no, db, db),
        '╔' => segments(no, db, no, db),
        '╗' => segments(db, no, no, db),
        '╚' => segments(no, db, db, no),
        '╝' => segments(db, no, db, no),
        '╠' => segments(no, db, db, db),
        '╣' => segments(db, no, db, db),
        '╦' => segments(db, db, no, db),
        '╩' => segments(db, db, db, no),
        '╬' => segments(db, db, db, db),
        // Mixed single/double
        '╒' => segments(no, db, no, l),
        '╓' => segments(no, l, no, db),
        '╕' => segments(db, no, no, l),
        '╖' => segments(l, no, no, db),
        '╘' => segments(no, db, l, no),
        '╙' => segments(no, l, db, no),
        '╛' => segments(db, no, l, no),
        '╜' => segments(l, no, db, no),
        '╞' => segments(no, db, l, l),
        '╟' => segments(no, l, db, db),
        '╡' => segments(db, no, l, l),
        '╢' => segments(l, no, db, db),
        '╤' => segments(db, db, no, l),
        '╥' => segments(l, l, no, db),
        '╧' => segments(db, db, l, no),
        '╨' => segments(l, l, db, no),
        '╪' => segments(db, db, l, l),
        '╫' => segments(l, l, db, db),
        // Rounded corners (decompose as light for the segments)
        '╭' => segments(no, l, no, l),
        '╮' => segments(l, no, no, l),
        '╯' => segments(l, no, l, no),
        '╰' => segments(no, l, l, no),
        // Dashed / half lines — handle via segments for fallback
        '╴' => segments(l, no, no, no),
        '╵' => segments(no, no, l, no),
        '╶' => segments(no, l, no, no),
        '╷' => segments(no, no, no, l),
        '╸' => segments(hv, no, no, no),
        '╹' => segments(no, no, hv, no),
        '╺' => segments(no, hv, no, no),
        '╻' => segments(no, no, no, hv),
        // Light dashed lines (render as solid for now)
        '┄' | '╌' => segments(l, l, no, no),
        '┆' | '╎' => segments(no, no, l, l),
        '┈' => segments(l, l, no, no),
        '┊' => segments(no, no, l, l),
        // Heavy dashed lines (render as solid for now)
        '┅' | '╍' => segments(hv, hv, no, no),
        '┇' | '╏' => segments(no, no, hv, hv),
        '┉' => segments(hv, hv, no, no),
        '┋' => segments(no, no, hv, hv),
        _ => no_segments(),
    }
}

/// Splits a box-drawing character into its four arms and their weights.
#[verifier::rlimit(40)]
pub fn decompose_box_drawing(ch: char) -> (s: BoxSegments)
    ensures
        s == segments_of(ch),
{
    let l = Some(LineWeight::Light);
    let hv = Some(LineWeight::Heavy);
    let db = Some(LineWeight::Double);
    let no: Option<LineWeight> = None;
    match ch {
        // Light lines
        '─' => BoxSegments::new(l, l, no, no),
        '│' => BoxSegments::new(no, no, l, l),
        '┌' => BoxSegments::new(no, l, no, l),
        '┐' => BoxSegments::new(l, no, no, l),
        '└' => BoxSegments::new(no, l, l, no),
        '┘' => BoxSegments::new(l, no, l, no),
        '├' => BoxSegments::new(no, l, l, l),
        '┤' => BoxSegments::new(l, no, l, l),
        '┬' => BoxSegments::new(l, l, no, l),
        '┴' => BoxSegments::new(l, l, l, no),
        '┼' => BoxSegments::new(l, l, l, l),
        // Heavy lines
        '━' => BoxSegments::new(hv, hv, no, no),
        '┃' => BoxSegments::new(no, no, hv, hv),
        '┏' => BoxSegments::new(no, hv, no, hv),
        '┓' => BoxSegments::new(hv, no, no, hv),
        '┗' => BoxSegments::new(no, hv, hv, no),
        '┛' => BoxSegments::new(hv, no, hv, no),
        '┣' => BoxSegments::new(no, hv, hv, hv),
        '┫' => BoxSegments::new(hv, no, hv, hv),
        '┳' => BoxSegments::new(hv, hv, no, hv),
        '┻' => BoxSegments::new(hv, hv, hv, no),
        '╋' => BoxSegments::new(hv, hv, hv, hv),
        // Mixed light/heavy
        '┍' => BoxSegments::new(no, hv, no, l),
        '┎' => BoxSegments::new(no, l, no, hv),
        '┑' => BoxSegments::new(hv, no, no, l),
        '┒' => BoxSegments::new(l, no, no, hv),
        '┕' => BoxSegments::new(no, hv, l, no),
        '┖' => BoxSegments::new(no, l, hv, no),
        '┙' => BoxSegments::new(hv, no, l, no),
        '┚' => BoxSegments::new(l, no, hv, no),
        '┝' => BoxSegments::new(no, hv, l, l),
        '┞' => BoxSegments::new(no, l, hv, l),
        '┟' => BoxSegments::new(no, l, l, hv),
        '┠' => BoxSegments::new(no, l, hv, hv),
        '┡' => BoxSegments::new(no, hv, hv, l),
        '┢' => BoxSegments::new(no, hv, l, hv),
        '┥' => BoxSegments::new(hv, no, l, l),
        '┦' => BoxSegments::new(l, no, hv, l),
        '┧' => BoxSegments::new(l, no, l, hv),
        '┨' => BoxSegments::new(l, no, hv, hv),
        '┩' => BoxSegments::new(hv, no, hv, l),
        '┪' => BoxSegments::new(hv, no, l, hv),
        '┭' => BoxSegments::new(hv, l, no, l),
        '┮' => BoxSegments::new(l, hv, no, l),
        '┯' => BoxSegments::new(hv, hv, no, l),
        '┰' => BoxSegments::new(l, l, no, hv),
        '┱' => BoxSegments::new(hv, l, no, hv),
        '┲' => BoxSegments::new(l, hv, no, hv),
        '┵' => BoxSegments::new(hv, l, l, no),
        '┶' => BoxSegments::new(l, hv, l, no),
        '┷' => BoxSegments::new(hv, hv, l, no),
        '┸' => BoxSegments::new(l, l, hv, no),
        '┹' => BoxSegments::new(hv, l, hv, no),
        '┺' => BoxSegments::new(l, hv, hv, no),
        '┽' => BoxSegments::new(hv, l, l, l),
        '┾' => BoxSegments::new(l, hv, l, l),
        '┿' => BoxSegments::new(hv, hv, l, l),
        '╀' => BoxSegments::new(l, l, hv, l),
        '╁' => BoxSegments::new(l, l, l, hv),
        '╂' => BoxSegments::new(l, l, hv, hv),
        '╃' => BoxSegments::new(hv, l, hv, l),
        '╄' => BoxSegments::new(l, hv, hv, l),
        '╅' => BoxSegments::new(hv, l, l, hv),
        '╆' => BoxSegments::new(l, hv, l, hv),
        '╇' => BoxSegments::new(hv, hv, hv, l),
        '╈' => BoxSegments::new(hv, hv, l, hv),
        '╉' => BoxSegments::new(hv, l, hv, hv),
        '╊' => BoxSegments::new(l, hv, hv, hv),
        // Double lines
        '═' => BoxSegments::new(db, db, no, no),
        '║' => BoxSegments::new(no, no, db, db),
        '╔' => BoxSegments::new(no, db, no, db),
        '╗' => BoxSegments::new(db, no, no, db),
        '╚' => BoxSegments::new(no, db, db, no),
        '╝' => BoxSegments::new(db, no, db, no),
        '╠' => BoxSegments::new(no, db, db, db),
        '╣' => BoxSegments::new(db, no, db, db),
        '╦' => BoxSegments::new(db, db, no, db),
        '╩' => BoxSegments::new(db, db, db, no),
        '╬' => BoxSegments::new(db, db, db, db),
        // Mixed single/double
        '╒' => BoxSegments::new(no, db, no, l),
        '╓' => BoxSegments::new(no, l, no, db),
        '╕' => BoxSegments::new(db, no, no, l),
        '╖' => BoxSegments::new(l, no, no, db),
        '╘' => BoxSegments::new(no, db, l, no),
        '╙' => BoxSegments::new(no, l, db, no),
        '╛' => BoxSegments::new(db, no, l, no),
        '╜' => BoxSegments::new(l, no, db, no),
        '╞' => BoxSegments::new(no, db, l, l),
        '╟' => BoxSegments::new(no, l, db, db),
        '╡' => BoxSegments::new(db, no, l, l),
        '╢' => BoxSegments::new(l, no, db, db),
        '╤' => BoxSegments::new(db, db, no, l),
        '╥' => BoxSegments::new(l, l, no, db),
        '╧' => BoxSegments::new(db, db, l, no),
        '╨' => BoxSegments::new(l, l, db, no),
        '╪' => BoxSegments::new(db, db, l, l),
        '╫' => BoxSegments::new(l, l, db, db),
        // Rounded corners (decompose as light for the segments)
        '╭' => BoxSegments::new(no, l, no, l),
        '╮' => BoxSegments::new(l, no, no, l),
        '╯' => BoxSegments::new(l, no, l, no),
        '╰' => BoxSegments::new(no, l, l, no),
        // Dashed / half lines — handle via segments for fallback
        '╴' => BoxSegments::new(l, no, no, no),
        '╵' => BoxSegments::new(no, no, l, no),
        '╶' => BoxSegments::new(no, l, no, no),
        '╷' => BoxSegments::new(no, no, no, l),
        '╸' => BoxSegments::new(hv, no, no, no),
        '╹' => BoxSegments::new(no, no, hv, no),
        '╺' => BoxSegments::new(no, hv, no, no),
        '╻' => BoxSegments::new(no, no, no, hv),
        // Light dashed lines (render as solid for now)
        '┄' | '╌' => BoxSegments::new(l, l, no, no),
        '┆' | '╎' => BoxSegments::new(no, no, l, l),
        '┈' => BoxSegments::new(l, l, no, no),
        '┊' => BoxSegments::new(no, no, l, l),
        // Heavy dashed lines (render as solid for now)
        '┅' | '╍' => BoxSegments::new(hv, hv, no, no),
        '┇' | '╏' => BoxSegments::new(no, no, hv, hv),
        '┉' => BoxSegments::new(hv, hv, no, no),
        '┋' => BoxSegments::new(no, no, hv, hv),
        _ => BoxSegments::default(),
    }
}

// ---------------------------------------------------------------------------
// Stroke geometry, in half-pixel units
// ---------------------------------------------------------------------------
//
// Every coordinate below counts half pixels, so that the centre of a cell with
// an odd number of pixels, and the half width of a stroke, are whole numbers.
// A rectangle whose width or height is not positive is never emitted.

/// An axis-aligned rectangle to be filled, in half-pixel units.
#[derive(Clone, Copy, PartialEq, Eq, Structural, Debug)]
pub struct HalfRect {
    pub x: i64,
    pub y: i64,
    pub width: i64,
    pub height: i64,
}

/// The rectangle at `(x, y)` of the given size, if that size is positive.
pub open spec fn fill(x: int, y: int, w: int, h: int) -> Seq<HalfRect> {
    if w > 0 && h > 0 {
        seq![HalfRect { x: x as i64, y: y as i64, width: w as i64, height: h as i64 }]
    } else {
        Seq::empty()
    }
}

/// Records the rectangle at `(x, y)` of size `w` by `h`, unless it is empty.
pub fn fill_rect(rects: &mut Vec<HalfRect>, x: i64, y: i64, w: i64, h: i64)
    ensures
        final(rects)@ == old(rects)@ + fill(x as int, y as int, w as int, h as int),
{
    if w <= 0 || h <= 0 {
        assert(old(rects)@ + fill(x as int, y as int, w as int, h as int) =~= old(rects)@);
        return ;
    }
    rects.push(HalfRect { x, y, width: w, height: h });
}

/// Width of a single stroke of the given weight. A double line is two strokes
/// of the light width.
pub open spec fn stroke_thickness(weight: LineWeight, light: int, heavy: int) -> int {
    match weight {
        LineWeight::Light => light,
        LineWeight::Heavy => heavy,
        LineWeight::Double => light,
    }
}

/// Width of a single stroke of the given weight.
pub fn thickness(weight: LineWeight, light: i64, heavy: i64) -> (t: i64)
    ensures
        t == stroke_thickness(weight, light as int, heavy as int),
{
    match weight {
        LineWeight::Light => light,
        LineWeight::Heavy => heavy,
        LineWeight::Double => light,
    }
}

/// Distance between the centre lines of the two strokes of a double line:
/// twice the light width, and at least three pixels.
pub open spec fn double_gap(light: int) -> int {
    if light * 2 >= 6 {
        light * 2
    } else {
        6
    }
}

/// Width of a heavy stroke next to a double line: twice the light width, and
/// at least two pixels.
pub open spec fn junction_heavy(light: int) -> int {
    if light * 2 >= 4 {
        light * 2
    } else {
        4
    }
}

/// The strokes of a horizontal arm from `from` to `to`, centred on `cy`.
pub open spec fn h_segment(
    from: int,
    to: int,
    weight: LineWeight,
    cy: int,
    light: int,
    heavy: int,
) -> Seq<HalfRect> {
    match weight {
        LineWeight::Light => fill(from, cy - light / 2, to - from, light),
        LineWeight::Heavy => fill(from, cy - heavy / 2, to - from, heavy),
        LineWeight::Double => {
            let gap = double_gap(light);
            fill(from, cy - gap / 2 - light / 2, to - from, light) + fill(
                from,
                cy + gap / 2 - light / 2,
                to - from,
                light,
            )
        },
    }
}

/// The strokes of a vertical arm from `from` to `to`, centred on `cx`.
pub open spec fn v_segment(
    from: int,
    to: int,
    weight: LineWeight,
    cx: int,
    light: int,
    heavy: int,
) -> Seq<HalfRect> {
    match weight {
        LineWeight::Light => fill(cx - light / 2, from, light, to - from),
        LineWeight::Heavy => fill(cx - heavy / 2, from, heavy, to - from),
        LineWeight::Double => {
            let gap = double_gap(light);
            fill(cx - gap / 2 - light / 2, from, light, to - from) + fill(
                cx + gap / 2 - light / 2,
                from,
                light,
                to - from,
            )
        },
    }
}

/// Bound on the inputs of the geometry functions (2^36 half pixels); the
/// half-pixel sizes of any `u32` cell stay below it.
pub open spec fn small(v: int) -> bool {
    -0x10_0000_0000 <= v <= 0x10_0000_0000
}

/// Bound on values derived from a few `small` ones.
pub open spec fn moderate(v: int) -> bool {
    -0x100_0000_0000 <= v <= 0x100_0000_0000
}

/// Stroke widths in half pixels: positive and even, so that half a width is
/// a whole number of half pixels.
pub open spec fn valid_widths(light: int, heavy: int) -> bool {
    &&& 0 < light && light % 2 == 0 && small(light)
    &&& 0 < heavy && heavy % 2 == 0 && small(heavy)
}

/// What the geometry functions need of their inputs: a cell and stroke widths
/// given in half pixels, all within bounds.
pub open spec fn valid_geometry(cx: int, cy: int, light: int, heavy: int, w: int, h: int) -> bool {
    &&& valid_widths(light, heavy)
    &&& small(cx) && small(cy) && small(w) && small(h)
}

fn draw_h_segment(
    rects: &mut Vec<HalfRect>,
    from_x: i64,
    to_x: i64,
    weight: LineWeight,
    cy: i64,
    light_w: i64,
    heavy_w: i64,
)
    requires
        valid_widths(light_w as int, heavy_w as int),
        small(cy as int),
        moderate(from_x as int),
        moderate(to_x as int),
    ensures
        final(rects)@ == old(rects)@ + h_segment(
            from_x as int,
            to_x as int,
            weight,
            cy as int,
            light_w as int,
            heavy_w as int,
        ),
{
    match weight {
        LineWeight::Light => {
            fill_rect(rects, from_x, cy - light_w / 2, to_x - from_x, light_w);
        },
        LineWeight::Heavy => {
            fill_rect(rects, from_x, cy - heavy_w / 2, to_x - from_x, heavy_w);
        },
        LineWeight::Double => {
            let gap: i64 = if light_w * 2 >= 6 {
                light_w * 2
            } else {
                6
            };
            fill_rect(rects, from_x, cy - gap / 2 - light_w / 2, to_x - from_x, light_w);
            fill_rect(rects, from_x, cy + gap / 2 - light_w / 2, to_x - from_x, light_w);
            assert(rects@ =~= old(rects)@ + h_segment(
                from_x as int,
                to_x as int,
                weight,
                cy as int,
                light_w as int,
                heavy_w as int,
            ));
        },
    }
}

fn draw_v_segment(
    rects: &mut Vec<HalfRect>,
    from_y: i64,
    to_y: i64,
    weight: LineWeight,
    cx: i64,
    light_w: i64,
    heavy_w: i64,
)
    requires
        valid_widths(light_w as int, heavy_w as int),
        small(cx as int),
        moderate(from_y as int),
        moderate(to_y as int),
    ensures
        final(rects)@ == old(rects)@ + v_segment(
            from_y as int,
            to_y as int,
            weight,
            cx as int,
            light_w as int,
            heavy_w as int,
        ),
{
    match weight {
        LineWeight::Light => {
            fill_rect(rects, cx - light_w / 2, from_y, light_w, to_y - from_y);
        },
        LineWeight::Heavy => {
            fill_rect(rects, cx - heavy_w / 2, from_y, heavy_w, to_y - from_y);
        },
        LineWeight::Double => {
            let gap: i64 = if light_w * 2 >= 6 {
                light_w * 2
            } else {
                6
            };
            fill_rect(rects, cx - gap / 2 - light_w / 2, from_y, light_w, to_y - from_y);
            fill_rect(rects, cx + gap / 2 - light_w / 2, from_y, light_w, to_y - from_y);
            assert(rects@ =~= old(rects)@ + v_segment(
                from_y as int,
                to_y as int,
                weight,
                cx as int,
                light_w as int,
                heavy_w as int,
            ));
        },
    }
}

/// The left arm, drawn from the left edge to just past the centre.
pub open spec fn left_arm(seg: BoxSegments, cx: int, cy: int, light: int, heavy: int) -> Seq<
    HalfRect,
> {
    match seg.left {
        Some(wt) => h_segment(0, cx + stroke_thickness(wt, light, heavy) / 2, wt, cy, light, heavy),
        None => Seq::empty(),
    }
}

/// The right arm, drawn from just before the centre to the right edge `w`.
pub open spec fn right_arm(
    seg: BoxSegments,
    cx: int,
    cy: int,
    light: int,
    heavy: int,
    w: int,
) -> Seq<HalfRect> {
    match seg.right {
        Some(wt) => h_segment(cx - stroke_thickness(wt, light, heavy) / 2, w, wt, cy, light, heavy),
        None => Seq::empty(),
    }
}

/// The upper arm, drawn from the top edge to just past the centre.
pub open spec fn up_arm(seg: BoxSegments, cx: int, cy: int, light: int, heavy: int) -> Seq<
    HalfRect,
> {
    match seg.up {
        Some(wt) => v_segment(0, cy + stroke_thickness(wt, light, heavy) / 2, wt, cx, light, heavy),
        None => Seq::empty(),
    }
}

/// The lower arm, drawn from just above the centre to the bottom edge `h`.
pub open spec fn down_arm(
    seg: BoxSegments,
    cx: int,
    cy: int,
    light: int,
    heavy: int,
    h: int,
) -> Seq<HalfRect> {
    match seg.down {
        Some(wt) => v_segment(cy - stroke_thickness(wt, light, heavy) / 2, h, wt, cx, light, heavy),
        None => Seq::empty(),
    }
}

/// The rectangles that draw a character's arms: where any arm is double, the
/// junction layout; otherwise each arm from its edge to the centre, left,
/// right, up, down in that order.
pub open spec fn segment_strokes(
    seg: BoxSegments,
    cx: int,
    cy: int,
    light: int,
    heavy: int,
    w: int,
    h: int,
) -> Seq<HalfRect> {
    if seg.has_double() {
        double_junction_strokes(seg, cx, cy, light, w, h)
    } else {
        left_arm(seg, cx, cy, light, heavy) + right_arm(seg, cx, cy, light, heavy, w) + up_arm(
            seg,
            cx,
            cy,
            light,
            heavy,
        ) + down_arm(seg, cx, cy, light, heavy, h)
    }
}

fn draw_left_arm(
    rects: &mut Vec<HalfRect>,
    seg: &BoxSegments,
    cx: i64,
    cy: i64,
    light_w: i64,
    heavy_w: i64,
)
    requires
        valid_geometry(cx as int, cy as int, light_w as int, heavy_w as int, 0, 0),
    ensures
        final(rects)@ == old(rects)@ + left_arm(
            *seg,
            cx as int,
            cy as int,
            light_w as int,
            heavy_w as int,
        ),
{
    if let Some(weight) = seg.left {
        let to_x: i64 = cx + thickness(weight, light_w, heavy_w) / 2;
        draw_h_segment(rects, 0, to_x, weight, cy, light_w, heavy_w);
    } else {
        assert(rects@ =~= old(rects)@ + left_arm(
            *seg,
            cx as int,
            cy as int,
            light_w as int,
            heavy_w as int,
        ));
    }
}

fn draw_right_arm(
    rects: &mut Vec<HalfRect>,
    seg: &BoxSegments,
    cx: i64,
    cy: i64,
    light_w: i64,
    heavy_w: i64,
    w: i64,
)
    requires
        valid_geometry(cx as int, cy as int, light_w as int, heavy_w as int, w as int, 0),
    ensures
        final(rects)@ == old(rects)@ + right_arm(
            *seg,
            cx as int,
            cy as int,
            light_w as int,
            heavy_w as int,
            w as int,
        ),
{
    if let Some(weight) = seg.right {
        let from_x: i64 = cx - thickness(weight, light_w, heavy_w) / 2;
        draw_h_segment(rects, from_x, w, weight, cy, light_w, heavy_w);
    } else {
        assert(rects@ =~= old(rects)@ + right_arm(
            *seg,
            cx as int,
            cy as int,
            light_w as int,
            heavy_w as int,
            w as int,
        ));
    }
}

fn draw_up_arm(
    rects: &mut Vec<HalfRect>,
    seg: &BoxSegments,
    cx: i64,
    cy: i64,
    light_w: i64,
    heavy_w: i64,
)
    requires
        valid_geometry(cx as int, cy as int, light_w as int, heavy_w as int, 0, 0),
    ensures
        final(rects)@ == old(rects)@ + up_arm(
            *seg,
            cx as int,
            cy as int,
            light_w as int,
            heavy_w as int,
        ),
{
    if let Some(weight) = seg.up {
        let to_y: i64 = cy + thickness(weight, light_w, heavy_w) / 2;
        draw_v_segment(rects, 0, to_y, weight, cx, light_w, heavy_w);
    } else {
        assert(rects@ =~= old(rects)@ + up_arm(
            *seg,
            cx as int,
            cy as int,
            light_w as int,
            heavy_w as int,
        ));
    }
}

fn draw_down_arm(
    rects: &mut Vec<HalfRect>,
    seg: &BoxSegments,
    cx: i64,
    cy: i64,
    light_w: i64,
    heavy_w: i64,
    h: i64,
)
    requires
        valid_geometry(cx as int, cy as int, light_w as int, heavy_w as int, 0, h as int),
    ensures
        final(rects)@ == old(rects)@ + down_arm(
            *seg,
            cx as int,
            cy as int,
            light_w as int,
            heavy_w as int,
            h as int,
        ),
{
    if let Some(weight) = seg.down {
        let from_y: i64 = cy - thickness(weight, light_w, heavy_w) / 2;
        draw_v_segment(rects, from_y, h, weight, cx, light_w, heavy_w);
    } else {
        assert(rects@ =~= old(rects)@ + down_arm(
            *seg,
            cx as int,
            cy as int,
            light_w as int,
            heavy_w as int,
            h as int,
        ));
    }
}

/// Records the rectangles that draw the arms `seg` in a cell of `w` by `h`
/// centred on `(cx, cy)`.
#[verifier::rlimit(40)]
pub fn draw_box_segments(
    rects: &mut Vec<HalfRect>,
    seg: &BoxSegments,
    cx: i64,
    cy: i64,
    light_w: i64,
    heavy_w: i64,
    w: i64,
    h: i64,
)
    requires
        valid_geometry(cx as int, cy as int, light_w as int, heavy_w as int, w as int, h as int),
    ensures
        final(rects)@ == old(rects)@ + segment_strokes(
            *seg,
            cx as int,
            cy as int,
            light_w as int,
            heavy_w as int,
            w as int,
            h as int,
        ),
{
    let has_double = seg.left == Some(LineWeight::Double) || seg.right == Some(LineWeight::Double)
        || seg.up == Some(LineWeight::Double) || seg.down == Some(LineWeight::Double);
    if has_double {
        draw_double_junction(rects, seg, cx, cy, light_w, w, h);
    } else {
        let ghost r0 = rects@;
        draw_left_arm(rects, seg, cx, cy, light_w, heavy_w);
        let ghost r1 = rects@;
        draw_right_arm(rects, seg, cx, cy, light_w, heavy_w, w);
        let ghost r2 = rects@;
        draw_up_arm(rects, seg, cx, cy, light_w, heavy_w);
        let ghost r3 = rects@;
        draw_down_arm(rects, seg, cx, cy, light_w, heavy_w, h);
        assert(rects@ =~= old(rects)@ + segment_strokes(
            *seg,
            cx as int,
            cy as int,
            light_w as int,
            heavy_w as int,
            w as int,
            h as int,
        ));
    }
}

/// Whether the left or right arm is double.
pub open spec fn is_h_double(seg: BoxSegments) -> bool {
    seg.left == Some(LineWeight::Double) || seg.right == Some(LineWeight::Double)
}

/// Whether the upper or lower arm is double.
pub open spec fn is_v_double(seg: BoxSegments) -> bool {
    seg.up == Some(LineWeight::Double) || seg.down == Some(LineWeight::Double)
}

/// How far one stroke of a double arm that comes in from the low side (the
/// left edge, or the top edge) runs past the near edge, towards the centre
/// line `c` of the cell.
///
/// Where the crossing direction is not double, the stroke runs to just past
/// the centre. Where it is double, the crossing line has two strokes of its
/// own, centred `half_gap` before and after `c`: a stroke on whose side an arm
/// crosses (`blocked`) stops at the near one of them, and meets it in a
/// corner; a stroke on whose side no arm crosses runs on to the far one, so
/// that it continues unbroken past the junction.
pub open spec fn near_reach(c: int, half_gap: int, hlw: int, crossing: bool, blocked: bool) -> int {
    if crossing {
        if blocked {
            c - half_gap + hlw
        } else {
            c + half_gap + hlw
        }
    } else {
        c + hlw
    }
}

/// Left arm of a junction with a double arm: its upper stroke is blocked by
/// an upper arm, its lower one by a lower arm.
pub open spec fn junction_left(seg: BoxSegments, cx: int, cy: int, light: int) -> Seq<HalfRect> {
    let half_gap = double_gap(light) / 2;
    let hlw = light / 2;
    let hw = junction_heavy(light);
    match seg.left {
        Some(LineWeight::Double) => {
            let top = near_reach(cx, half_gap, hlw, is_v_double(seg), seg.up is Some);
            let bottom = near_reach(cx, half_gap, hlw, is_v_double(seg), seg.down is Some);
            fill(0, cy - half_gap - hlw, top, light) + fill(0, cy + half_gap - hlw, bottom, light)
        },
        Some(LineWeight::Light) => fill(0, cy - hlw, cx + hlw, light),
        Some(LineWeight::Heavy) => fill(0, cy - hw / 2, cx + hw / 2, hw),
        None => Seq::empty(),
    }
}

/// Right arm of a junction with a double arm: the mirror image of a left arm.
pub open spec fn junction_right(seg: BoxSegments, cx: int, cy: int, light: int, w: int) -> Seq<
    HalfRect,
> {
    let half_gap = double_gap(light) / 2;
    let hlw = light / 2;
    let hw = junction_heavy(light);
    match seg.right {
        Some(LineWeight::Double) => {
            let top = 2 * cx - near_reach(cx, half_gap, hlw, is_v_double(seg), seg.up is Some);
            let bottom = 2 * cx - near_reach(cx, half_gap, hlw, is_v_double(seg), seg.down is Some);
            fill(top, cy - half_gap - hlw, w - top, light) + fill(
                bottom,
                cy + half_gap - hlw,
                w - bottom,
                light,
            )
        },
        Some(LineWeight::Light) => fill(cx - hlw, cy - hlw, w - cx + hlw, light),
        Some(LineWeight::Heavy) => fill(cx - hw / 2, cy - hw / 2, w - cx + hw / 2, hw),
        None => Seq::empty(),
    }
}

/// Upper arm of a junction with a double arm: its left stroke is blocked by a
/// left arm, its right one by a right arm.
pub open spec fn junction_up(seg: BoxSegments, cx: int, cy: int, light: int) -> Seq<HalfRect> {
    let half_gap = double_gap(light) / 2;
    let hlw = light / 2;
    let hw = junction_heavy(light);
    match seg.up {
        Some(LineWeight::Double) => {
            let left = near_reach(cy, half_gap, hlw, is_h_double(seg), seg.left is Some);
            let right = near_reach(cy, half_gap, hlw, is_h_double(seg), seg.right is Some);
            fill(cx - half_gap - hlw, 0, light, left) + fill(cx + half_gap - hlw, 0, light, right)
        },
        Some(LineWeight::Light) => fill(cx - hlw, 0, light, cy + hlw),
        Some(LineWeight::Heavy) => fill(cx - hw / 2, 0, hw, cy + hw / 2),
        None => Seq::empty(),
    }
}

/// Lower arm of a junction with a double arm: the mirror image of an upper
/// arm.
pub open spec fn junction_down(seg: BoxSegments, cx: int, cy: int, light: int, h: int) -> Seq<
    HalfRect,
> {
    let half_gap = double_gap(light) / 2;
    let hlw = light / 2;
    let hw = junction_heavy(light);
    match seg.down {
        Some(LineWeight::Double) => {
            let left = 2 * cy - near_reach(cy, half_gap, hlw, is_h_double(seg), seg.left is Some);
            let right = 2 * cy - near_reach(cy, half_gap, hlw, is_h_double(seg), seg.right is Some);
            fill(cx - half_gap - hlw, left, light, h - left) + fill(
                cx + half_gap - hlw,
                right,
                light,
                h - right,
            )
        },
        Some(LineWeight::Light) => fill(cx - hlw, cy - hlw, light, h - cy + hlw),
        Some(LineWeight::Heavy) => fill(cx - hw / 2, cy - hw / 2, hw, h - cy + hw / 2),
        None => Seq::empty(),
    }
}

/// The layout of a character with at least one double arm: each arm in turn,
/// left, right, up, down. A double line that crosses a double line keeps
/// every stroke on a side without a crossing arm unbroken, and turns the
/// others into corners, so that ╬ is four corners, ╦ a straight upper line
/// over two corners, and ╔ two nested corners.
pub open spec fn double_junction_strokes(
    seg: BoxSegments,
    cx: int,
    cy: int,
    light: int,
    w: int,
    h: int,
) -> Seq<HalfRect> {
    junction_left(seg, cx, cy, light) + junction_right(seg, cx, cy, light, w) + junction_up(
        seg,
        cx,
        cy,
        light,
    ) + junction_down(seg, cx, cy, light, h)
}

fn reach(c: i64, half_gap: i64, hlw: i64, crossing: bool, blocked: bool) -> (r: i64)
    requires
        small(c as int),
        0 <= half_gap <= 0x20_0000_0000,
        0 <= hlw <= 0x20_0000_0000,
    ensures
        r == near_reach(c as int, half_gap as int, hlw as int, crossing, blocked),
        moderate(r as int),
{
    if crossing {
        if blocked {
            c - half_gap + hlw
        } else {
            c + half_gap + hlw
        }
    } else {
        c + hlw
    }
}

fn gap_and_heavy(lw: i64) -> (r: (i64, i64))
    requires
        valid_widths(lw as int, lw as int),
    ensures
        r.0 == double_gap(lw as int) / 2,
        r.1 == junction_heavy(lw as int),
        0 < r.0 <= lw + 3,
        0 < r.1 <= 2 * lw + 4,
        r.1 % 2 == 0,
{
    let gap: i64 = if lw * 2 >= 6 {
        lw * 2
    } else {
        6
    };
    let hw: i64 = if lw * 2 >= 4 {
        lw * 2
    } else {
        4
    };
    (gap / 2, hw)
}

fn draw_junction_left(rects: &mut Vec<HalfRect>, seg: &BoxSegments, cx: i64, cy: i64, lw: i64)
    requires
        valid_geometry(cx as int, cy as int, lw as int, lw as int, 0, 0),
    ensures
        final(rects)@ == old(rects)@ + junction_left(*seg, cx as int, cy as int, lw as int),
{
    let (half_gap, hw) = gap_and_heavy(lw);
    let hlw: i64 = lw / 2;
    let is_v_double = seg.up == Some(LineWeight::Double) || seg.down == Some(LineWeight::Double);
    match seg.left {
        Some(LineWeight::Double) => {
            let top: i64 = reach(cx, half_gap, hlw, is_v_double, seg.up.is_some());
            let bottom: i64 = reach(cx, half_gap, hlw, is_v_double, seg.down.is_some());
            fill_rect(rects, 0, cy - half_gap - hlw, top, lw);
            fill_rect(rects, 0, cy + half_gap - hlw, bottom, lw);
            assert(rects@ =~= old(rects)@ + junction_left(*seg, cx as int, cy as int, lw as int));
        },
        Some(LineWeight::Light) => {
            fill_rect(rects, 0, cy - hlw, cx + hlw, lw);
        },
        Some(LineWeight::Heavy) => {
            fill_rect(rects, 0, cy - hw / 2, cx + hw / 2, hw);
        },
        None => {
            assert(rects@ =~= old(rects)@ + junction_left(*seg, cx as int, cy as int, lw as int));
        },
    }
}

fn draw_junction_right(
    rects: &mut Vec<HalfRect>,
    seg: &BoxSegments,
    cx: i64,
    cy: i64,
    lw: i64,
    w: i64,
)
    requires
        valid_geometry(cx as int, cy as int, lw as int, lw as int, w as int, 0),
    ensures
        final(rects)@ == old(rects)@ + junction_right(
            *seg,
            cx as int,
            cy as int,
            lw as int,
            w as int,
        ),
{
    let (half_gap, hw) = gap_and_heavy(lw);
    let hlw: i64 = lw / 2;
    let is_v_double = seg.up == Some(LineWeight::Double) || seg.down == Some(LineWeight::Double);
    match seg.right {
        Some(LineWeight::Double) => {
            let top: i64 = 2 * cx - reach(cx, half_gap, hlw, is_v_double, seg.up.is_some());
            let bottom: i64 = 2 * cx - reach(cx, half_gap, hlw, is_v_double, seg.down.is_some());
            fill_rect(rects, top, cy - half_gap - hlw, w - top, lw);
            fill_rect(rects, bottom, cy + half_gap - hlw, w - bottom, lw);
            assert(rects@ =~= old(rects)@ + junction_right(
                *seg,
                cx as int,
                cy as int,
                lw as int,
                w as int,
            ));
        },
        Some(LineWeight::Light) => {
            fill_rect(rects, cx - hlw, cy - hlw, w - cx + hlw, lw);
        },
        Some(LineWeight::Heavy) => {
            fill_rect(rects, cx - hw / 2, cy - hw / 2, w - cx + hw / 2, hw);
        },
        None => {
            assert(rects@ =~= old(rects)@ + junction_right(
                *seg,
                cx as int,
                cy as int,
                lw as int,
                w as int,
            ));
        },
    }
}

fn draw_junction_up(rects: &mut Vec<HalfRect>, seg: &BoxSegments, cx: i64, cy: i64, lw: i64)
    requires
        valid_geometry(cx as int, cy as int, lw as int, lw as int, 0, 0),
    ensures
        final(rects)@ == old(rects)@ + junction_up(*seg, cx as int, cy as int, lw as int),
{
    let (half_gap, hw) = gap_and_heavy(lw);
    let hlw: i64 = lw / 2;
    let is_h_double = seg.left == Some(LineWeight::Double) || seg.right == Some(LineWeight::Double);
    match seg.up {
        Some(LineWeight::Double) => {
            let left: i64 = reach(cy, half_gap, hlw, is_h_double, seg.left.is_some());
            let right: i64 = reach(cy, half_gap, hlw, is_h_double, seg.right.is_some());
            fill_rect(rects, cx - half_gap - hlw, 0, lw, left);
            fill_rect(rects, cx + half_gap - hlw, 0, lw, right);
            assert(rects@ =~= old(rects)@ + junction_up(*seg, cx as int, cy as int, lw as int));
        },
        Some(LineWeight::Light) => {
            fill_rect(rects, cx - hlw, 0, lw, cy + hlw);
        },
        Some(LineWeight::Heavy) => {
            fill_rect(rects, cx - hw / 2, 0, hw, cy + hw / 2);
        },
        None => {
            assert(rects@ =~= old(rects)@ + junction_up(*seg, cx as int, cy as int, lw as int));
        },
    }
}

fn draw_junction_down(
    rects: &mut Vec<HalfRect>,
    seg: &BoxSegments,
    cx: i64,
    cy: i64,
    lw: i64,
    h: i64,
)
    requires
        valid_geometry(cx as int, cy as int, lw as int, lw as int, 0, h as int),
    ensures
        final(rects)@ == old(rects)@ + junction_down(
            *seg,
            cx as int,
            cy as int,
            lw as int,
            h as int,
        ),
{
    let (half_gap, hw) = gap_and_heavy(lw);
    let hlw: i64 = lw / 2;
    let is_h_double = seg.left == Some(LineWeight::Double) || seg.right == Some(LineWeight::Double);
    match seg.down {
        Some(LineWeight::Double) => {
            let left: i64 = 2 * cy - reach(cy, half_gap, hlw, is_h_double, seg.left.is_some());
            let right: i64 = 2 * cy - reach(cy, half_gap, hlw, is_h_double, seg.right.is_some());
            fill_rect(rects, cx - half_gap - hlw, left, lw, h - left);
            fill_rect(rects, cx + half_gap - hlw, right, lw, h - right);
            assert(rects@ =~= old(rects)@ + junction_down(
                *seg,
                cx as int,
                cy as int,
                lw as int,
                h as int,
            ));
        },
        Some(LineWeight::Light) => {
            fill_rect(rects, cx - hlw, cy - hlw, lw, h - cy + hlw);
        },
        Some(LineWeight::Heavy) => {
            fill_rect(rects, cx - hw / 2, cy - hw / 2, hw, h - cy + hw / 2);
        },
        None => {
            assert(rects@ =~= old(rects)@ + junction_down(
                *seg,
                cx as int,
                cy as int,
                lw as int,
                h as int,
            ));
        },
    }
}

/// Records the rectangles of a character with at least one double arm.
#[verifier::rlimit(40)]
pub fn draw_double_junction(
    rects: &mut Vec<HalfRect>,
    seg: &BoxSegments,
    cx: i64,
    cy: i64,
    lw: i64,
    w: i64,
    h: i64,
)
    requires
        valid_geometry(cx as int, cy as int, lw as int, lw as int, w as int, h as int),
    ensures
        final(rects)@ == old(rects)@ + double_junction_strokes(
            *seg,
            cx as int,
            cy as int,
            lw as int,
            w as int,
            h as int,
        ),
{
    draw_junction_left(rects, seg, cx, cy, lw);
    draw_junction_right(rects, seg, cx, cy, lw, w);
    draw_junction_up(rects, seg, cx, cy, lw);
    draw_junction_down(rects, seg, cx, cy, lw, h);
    assert(rects@ =~= old(rects)@ + double_junction_strokes(
        *seg,
        cx as int,
        cy as int,
        lw as int,
        w as int,
        h as int,
    ));
}

// ---------------------------------------------------------------------------
// Rounded corners and the stroke plan of a whole cell
// ---------------------------------------------------------------------------

/// A quadratic curve from `start` to `end` bent towards `ctrl`, to be stroked
/// with the given width; all in half-pixel units.
#[derive(Clone, Copy, PartialEq, Eq, Structural, Debug)]
pub struct CornerArc {
    pub start_x: i64,
    pub start_y: i64,
    pub ctrl_x: i64,
    pub ctrl_y: i64,
    pub end_x: i64,
    pub end_y: i64,
    pub width: i64,
}

/// The arc of a rounded corner: it leaves one edge at the middle, bends
/// through the centre of the cell and reaches the other edge at the middle.
/// ╭ joins the bottom and right edges, ╮ the left and bottom, ╰ the top and
/// right, ╯ the left and top.
pub open spec fn corner_arc(ch: char, cx: int, cy: int, lw: int, w: int, h: int) -> CornerArc {
    let (sx, sy, ex, ey) = if ch == '╭' {
        (cx, h, w, cy)
    } else if ch == '╮' {
        (0, cy, cx, h)
    } else if ch == '╰' {
        (cx, 0, w, cy)
    } else {
        (0, cy, cx, 0)
    };
    CornerArc {
        start_x: sx as i64,
        start_y: sy as i64,
        ctrl_x: cx as i64,
        ctrl_y: cy as i64,
        end_x: ex as i64,
        end_y: ey as i64,
        width: lw as i64,
    }
}

/// The arc that draws the rounded corner `ch` in a cell of `w` by `h`
/// centred on `(cx, cy)`, stroked with width `lw`.
pub fn draw_rounded_corner(ch: char, cx: i64, cy: i64, lw: i64, w: i64, h: i64) -> (a: CornerArc)
    requires
        spec_is_rounded_corner(ch),
    ensures
        a == corner_arc(ch, cx as int, cy as int, lw as int, w as int, h as int),
{
    let (sx, sy, ex, ey): (i64, i64, i64, i64) = if ch == '╭' {
        (cx, h, w, cy)
    } else if ch == '╮' {
        (0, cy, cx, h)
    } else if ch == '╰' {
        (cx, 0, w, cy)
    } else {
        (0, cy, cx, 0)
    };
    CornerArc {
        start_x: sx,
        start_y: sy,
        ctrl_x: cx,
        ctrl_y: cy,
        end_x: ex,
        end_y: ey,
        width: lw,
    }
}

/// Width in pixels of a light stroke in a cell `height` pixels tall: a twelfth
/// of the height, rounded to the nearest pixel (halves round up), and at least
/// one pixel. A heavy stroke is twice as wide.
pub open spec fn light_stroke_px(height: u32) -> int {
    let q = (height + 6) / 12;
    if q >= 1 {
        q
    } else {
        1
    }
}

/// Width in pixels of a light stroke for a cell `height` pixels tall.
pub fn light_stroke_width(height: u32) -> (lw: u32)
    ensures
        lw == light_stroke_px(height),
        1 <= lw <= 0x1600_0000,
{
    let q: u64 = (height as u64 + 6) / 12;
    if q >= 1 {
        q as u32
    } else {
        1
    }
}

/// What a box-drawing cell is drawn with: filled rectangles (without
/// anti-aliasing) or, for a rounded corner, one stroked arc (anti-aliased).
pub enum BoxStrokes {
    Rects(Vec<HalfRect>),
    Arc(CornerArc),
}

/// The strokes of one box-drawing cell of `width` by `height` pixels, in white
/// on a transparent background.
pub struct BoxPlan {
    pub width: u32,
    pub height: u32,
    pub strokes: BoxStrokes,
}

/// Whether `strokes` are the strokes of `ch` in a cell of `width` by `height`
/// pixels: the cell spans `2 * width` by `2 * height` half pixels, its centre
/// is at `(width, height)`, a light stroke is `2 * light_stroke_px(height)`
/// half pixels wide and a heavy one twice that.
pub open spec fn describes_strokes(strokes: BoxStrokes, ch: char, width: u32, height: u32) -> bool {
    let light = 2 * light_stroke_px(height);
    let heavy = 2 * light;
    if spec_is_rounded_corner(ch) {
        strokes matches BoxStrokes::Arc(a) && a == corner_arc(
            ch,
            width as int,
            height as int,
            light,
            2 * width,
            2 * height,
        )
    } else {
        strokes matches BoxStrokes::Rects(v) && v@ == segment_strokes(
            segments_of(ch),
            width as int,
            height as int,
            light,
            heavy,
            2 * width,
            2 * height,
        )
    }
}

/// Whether `plan` is the stroke plan of `ch` in a cell of `width` by `height`.
pub open spec fn describes(plan: BoxPlan, ch: char, width: u32, height: u32) -> bool {
    plan.width == width && plan.height == height && describes_strokes(
        plan.strokes,
        ch,
        width,
        height,
    )
}

/// Works out the strokes that draw the box-drawing character `ch` in a cell
/// of `width` by `height` pixels.
#[verifier::rlimit(40)]
pub fn box_plan(ch: char, width: u32, height: u32) -> (plan: BoxPlan)
    ensures
        describes(plan, ch, width, height),
{
    let w: i64 = 2 * width as i64;
    let h: i64 = 2 * height as i64;
    let cx: i64 = width as i64;
    let cy: i64 = height as i64;
    let light_w: i64 = 2 * light_stroke_width(height) as i64;
    let heavy_w: i64 = 2 * light_w;
    if is_rounded_corner(ch) {
        let arc = draw_rounded_corner(ch, cx, cy, light_w, w, h);
        BoxPlan { width, height, strokes: BoxStrokes::Arc(arc) }
    } else {
        let segments = decompose_box_drawing(ch);
        let mut rects: Vec<HalfRect> = Vec::new();
        draw_box_segments(&mut rects, &segments, cx, cy, light_w, heavy_w, w, h);
        assert(rects@ =~= segment_strokes(
            segments_of(ch),
            width as int,
            height as int,
            light_w as int,
            heavy_w as int,
            w as int,
            h as int,
        ));
        BoxPlan { width, height, strokes: BoxStrokes::Rects(rects) }
    }
}

/// Whether the plan of `ch` has nothing to draw: no arc and no rectangle.
pub open spec fn draws_nothing(ch: char, width: u32, height: u32) -> bool {
    !spec_is_rounded_corner(ch) && plan_rects(ch, width, height).len() == 0
}

/// What a painter must do: accept the plan of any cell whose pixel count fits
/// a `usize`, and return one pixel for each position of that cell.
pub open spec fn paints_whole_cell<P: Fn(BoxPlan) -> Vec<u32>>(paint: P) -> bool {
    &&& forall|plan: BoxPlan|
        plan.width * plan.height <= usize::MAX ==> #[trigger] call_requires(paint, (plan,))
    &&& forall|plan: BoxPlan, v: Vec<u32>|
        #[trigger] call_ensures(paint, (plan,), v) && plan.width * plan.height <= usize::MAX
            ==> v@.len() == plan.width * plan.height
}

/// Whether `image` is what rasterizing the box-drawing character `ch` in a
/// cell of `width` by `height` pixels gives with the painter `paint`: one
/// pixel per position; all transparent when the cell is empty or the plan
/// draws nothing; otherwise the pixels that `paint` returns for the cell's
/// stroke plan, each put from ARGB into RGBA order.
pub open spec fn box_drawing_raster<P: Fn(BoxPlan) -> Vec<u32>>(
    ch: char,
    width: u32,
    height: u32,
    paint: P,
    image: Seq<u32>,
) -> bool {
    &&& image.len() == width * height
    &&& (width == 0 || height == 0 || draws_nothing(ch, width, height)) ==> image == Seq::new(
        (width * height) as nat,
        |i: int| TRANSPARENT,
    )
    &&& (width > 0 && height > 0 && !draws_nothing(ch, width, height)) ==> exists|
        plan: BoxPlan,
        argb: Vec<u32>,
    |
        {
            &&& describes(plan, ch, width, height)
            &&& call_ensures(paint, (plan,), argb)
            &&& image == argb@.map_values(|p: u32| argb_to_rgba(p))
        }
}

/// Rasterizes the box-drawing character `ch` into `width * height` RGBA
/// pixels, white on transparent.
///
/// The geometry is worked out here; `paint` fills and strokes it, returning
/// the cell's pixels in ARGB order (alpha in the most significant byte), which
/// are then put into RGBA order. An empty cell, or a character with no arm,
/// gives a transparent buffer without painting.
#[verifier::rlimit(40)]
pub fn rasterize_box_drawing<P: Fn(BoxPlan) -> Vec<u32>>(
    ch: char,
    width: u32,
    height: u32,
    paint: P,
) -> (image: Vec<u32>)
    requires
        width * height <= usize::MAX,
        paints_whole_cell(paint),
    ensures
        box_drawing_raster(ch, width, height, paint, image@),
{
    let n: usize = width as usize * height as usize;
    if width == 0 || height == 0 {
        return transparent_image(n);
    }
    let plan = box_plan(ch, width, height);
    let nothing: bool = match &plan.strokes {
        BoxStrokes::Rects(v) => v.len() == 0,
        BoxStrokes::Arc(_) => false,
    };
    if nothing {
        return transparent_image(n);
    }
    let mut image = paint(plan);
    let ghost argb = image;
    convert_argb_to_rgba(image.as_mut_slice());
    assert(image@ =~= argb@.map_values(|p: u32| argb_to_rgba(p)));
    image
}

// ---------------------------------------------------------------------------
// Laws of the box-drawing geometry
// ---------------------------------------------------------------------------

/// The rectangles of a box-drawing character that is not a rounded corner, in
/// a cell of `width` by `height` pixels (see `describes_strokes`).
pub open spec fn plan_rects(ch: char, width: u32, height: u32) -> Seq<HalfRect> {
    let light = 2 * light_stroke_px(height);
    segment_strokes(
        segments_of(ch),
        width as int,
        height as int,
        light,
        2 * light,
        2 * width,
        2 * height,
    )
}

/// Half the distance between the two strokes of a double line, in half pixels.
pub open spec fn half_gap_of(height: u32) -> int {
    double_gap(2 * light_stroke_px(height)) / 2
}

/// Whether the rectangle contains the point `(px, py)` (edges included).
pub open spec fn rect_touches(r: HalfRect, px: int, py: int) -> bool {
    r.x <= px <= r.x + r.width && r.y <= py <= r.y + r.height
}

proof fn lemma_light_px_bounds(height: u32)
    ensures
        1 <= light_stroke_px(height) <= 0x1600_0000,
{
}

proof fn lemma_fill_nonneg(x: int, y: int, w: int, h: int, r: HalfRect)
    requires
        fill(x, y, w, h).contains(r),
        small(x),
        small(y),
        small(w),
        small(h),
    ensures
        r.x == x && r.y == y && r.width == w && r.height == h,
        w > 0 && h > 0,
{
    assert(fill(x, y, w, h)[0] == r);
}

proof fn lemma_concat4_contains(a: Seq<HalfRect>, b: Seq<HalfRect>, c: Seq<HalfRect>, d: Seq<HalfRect>, r: HalfRect)
    ensures
        (a + b + c + d).contains(r) <==> (a.contains(r) || b.contains(r) || c.contains(r)
            || d.contains(r)),
{
    let s = a + b + c + d;
    if s.contains(r) {
        let k = choose|k: int| 0 <= k < s.len() && s[k] == r;
        if k < a.len() {
            assert(a[k] == r);
        } else if k < a.len() + b.len() {
            assert(b[k - a.len()] == r);
        } else if k < a.len() + b.len() + c.len() {
            assert(c[k - a.len() - b.len()] == r);
        } else {
            assert(d[k - a.len() - b.len() - c.len()] == r);
        }
    }
    if a.contains(r) {
        let k = choose|k: int| 0 <= k < a.len() && a[k] == r;
        assert(s[k] == r);
    }
    if b.contains(r) {
        let k = choose|k: int| 0 <= k < b.len() && b[k] == r;
        assert(s[a.len() + k] == r);
    }
    if c.contains(r) {
        let k = choose|k: int| 0 <= k < c.len() && c[k] == r;
        assert(s[a.len() + b.len() + k] == r);
    }
    if d.contains(r) {
        let k = choose|k: int| 0 <= k < d.len() && d[k] == r;
        assert(s[a.len() + b.len() + c.len() + k] == r);
    }
}

/// Law: in a character without double lines, every stroke passes through the
/// centre of the cell, so all its arms meet there.
#[verifier::rlimit(40)]
pub proof fn lemma_single_strokes_meet_at_centre(ch: char, width: u32, height: u32, r: HalfRect)
    requires
        !spec_is_rounded_corner(ch),
        !segments_of(ch).has_double(),
        plan_rects(ch, width, height).contains(r),
    ensures
        rect_touches(r, width as int, height as int),
{
    let seg = segments_of(ch);
    let light = 2 * light_stroke_px(height);
    let heavy = 2 * light;
    let cx = width as int;
    let cy = height as int;
    lemma_light_px_bounds(height);
    let a = left_arm(seg, cx, cy, light, heavy);
    let b = right_arm(seg, cx, cy, light, heavy, 2 * width);
    let c = up_arm(seg, cx, cy, light, heavy);
    let d = down_arm(seg, cx, cy, light, heavy, 2 * height);
    lemma_concat4_contains(a, b, c, d, r);
    if a.contains(r) {
        let wt = seg.left->0;
        let t = stroke_thickness(wt, light, heavy);
        lemma_fill_nonneg(0, cy - t / 2, cx + t / 2, t, r);
    } else if b.contains(r) {
        let wt = seg.right->0;
        let t = stroke_thickness(wt, light, heavy);
        lemma_fill_nonneg(cx - t / 2, cy - t / 2, 2 * width - (cx - t / 2), t, r);
    } else if c.contains(r) {
        let wt = seg.up->0;
        let t = stroke_thickness(wt, light, heavy);
        lemma_fill_nonneg(cx - t / 2, 0, t, cy + t / 2, r);
    } else {
        let wt = seg.down->0;
        let t = stroke_thickness(wt, light, heavy);
        lemma_fill_nonneg(cx - t / 2, cy - t / 2, t, 2 * height - (cy - t / 2), r);
    }
}

/// The arms of `seg`, in the order the plan draws them: left, right, up, down.
pub open spec fn arm_parts(seg: BoxSegments, width: u32, height: u32) -> Seq<Seq<HalfRect>> {
    let light = 2 * light_stroke_px(height);
    let heavy = 2 * light;
    let cx = width as int;
    let cy = height as int;
    if seg.has_double() {
        seq![
            junction_left(seg, cx, cy, light),
            junction_right(seg, cx, cy, light, 2 * width),
            junction_up(seg, cx, cy, light),
            junction_down(seg, cx, cy, light, 2 * height),
        ]
    } else {
        seq![
            left_arm(seg, cx, cy, light, heavy),
            right_arm(seg, cx, cy, light, heavy, 2 * width),
            up_arm(seg, cx, cy, light, heavy),
            down_arm(seg, cx, cy, light, heavy, 2 * height),
        ]
    }
}

/// Whether the cell is large enough for the strokes of `seg`: where a double
/// line crosses a double line and a stroke turns into a corner at the near
/// stroke of the crossing line, that stroke must lie inside the cell, that is
/// the cell must be wider and taller than the half gap less half a stroke.
pub open spec fn room_for_doubles(seg: BoxSegments, width: u32, height: u32) -> bool {
    is_h_double(seg) && is_v_double(seg) ==> {
        &&& width + light_stroke_px(height) > half_gap_of(height)
        &&& height + light_stroke_px(height) > half_gap_of(height)
    }
}

proof fn lemma_left_arm_first(seg: BoxSegments, width: u32, height: u32)
    requires
        width >= 1,
        height >= 1,
        seg.left is Some,
        room_for_doubles(seg, width, height),
    ensures
        arm_parts(seg, width, height)[0].len() > 0,
        arm_parts(seg, width, height)[0][0].x == 0,
{
    lemma_light_px_bounds(height);
    let light = 2 * light_stroke_px(height);
    if seg.has_double() {
        let p = junction_left(seg, width as int, height as int, light);
        assert(arm_parts(seg, width, height)[0] == p);
        assert(p.len() > 0 && p[0].x == 0);
    } else {
        let p = left_arm(seg, width as int, height as int, light, 2 * light);
        assert(arm_parts(seg, width, height)[0] == p);
        assert(p.len() > 0 && p[0].x == 0);
    }
}

#[verifier::rlimit(40)]
proof fn lemma_right_arm_first(seg: BoxSegments, width: u32, height: u32)
    requires
        width >= 1,
        height >= 1,
        seg.right is Some,
        room_for_doubles(seg, width, height),
    ensures
        arm_parts(seg, width, height)[1].len() > 0,
        arm_parts(seg, width, height)[1][0].x + arm_parts(seg, width, height)[1][0].width == 2
            * width,
{
    lemma_light_px_bounds(height);
    let light = 2 * light_stroke_px(height);
    if seg.has_double() {
        let p = junction_right(seg, width as int, height as int, light, 2 * width);
        assert(arm_parts(seg, width, height)[1] == p);
        assert(p.len() > 0 && p[0].x + p[0].width == 2 * width);
    } else {
        let p = right_arm(seg, width as int, height as int, light, 2 * light, 2 * width);
        assert(arm_parts(seg, width, height)[1] == p);
        assert(p.len() > 0 && p[0].x + p[0].width == 2 * width);
    }
}

#[verifier::rlimit(40)]
proof fn lemma_up_arm_first(seg: BoxSegments, width: u32, height: u32)
    requires
        width >= 1,
        height >= 1,
        seg.up is Some,
        room_for_doubles(seg, width, height),
    ensures
        arm_parts(seg, width, height)[2].len() > 0,
        arm_parts(seg, width, height)[2][0].y == 0,
{
    lemma_light_px_bounds(height);
    let light = 2 * light_stroke_px(height);
    if seg.has_double() {
        let p = junction_up(seg, width as int, height as int, light);
        assert(arm_parts(seg, width, height)[2] == p);
        assert(p.len() > 0 && p[0].y == 0);
    } else {
        let p = up_arm(seg, width as int, height as int, light, 2 * light);
        assert(arm_parts(seg, width, height)[2] == p);
        assert(p.len() > 0 && p[0].y == 0);
    }
}

#[verifier::rlimit(40)]
proof fn lemma_down_arm_first(seg: BoxSegments, width: u32, height: u32)
    requires
        width >= 1,
        height >= 1,
        seg.down is Some,
        room_for_doubles(seg, width, height),
    ensures
        arm_parts(seg, width, height)[3].len() > 0,
        arm_parts(seg, width, height)[3][0].y + arm_parts(seg, width, height)[3][0].height == 2
            * height,
{
    lemma_light_px_bounds(height);
    let light = 2 * light_stroke_px(height);
    if seg.has_double() {
        let p = junction_down(seg, width as int, height as int, light, 2 * height);
        assert(arm_parts(seg, width, height)[3] == p);
        assert(p.len() > 0 && p[0].y + p[0].height == 2 * height);
    } else {
        let p = down_arm(seg, width as int, height as int, light, 2 * light, 2 * height);
        assert(arm_parts(seg, width, height)[3] == p);
        assert(p.len() > 0 && p[0].y + p[0].height == 2 * height);
    }
}

/// Law: every arm of a box-drawing character reaches its edge of the cell, so
/// that it joins the arm of the neighbouring cell: a left arm has a stroke
/// starting at the left edge, a right arm one ending at the right edge, and
/// likewise for the top and bottom edges.
///
/// Where a double line crosses a double line, a stroke that turns into a
/// corner stops at the near stroke of the crossing line; this holds as long as
/// that stroke lies inside the cell (`room_for_doubles`), the one case left
/// out.
#[verifier::rlimit(40)]
pub proof fn lemma_arms_reach_edges(ch: char, width: u32, height: u32)
    requires
        !spec_is_rounded_corner(ch),
        width >= 1,
        height >= 1,
        room_for_doubles(segments_of(ch), width, height),
    ensures
        segments_of(ch).left is Some ==> exists|r: HalfRect|
            #[trigger] plan_rects(ch, width, height).contains(r) && r.x == 0,
        segments_of(ch).right is Some ==> exists|r: HalfRect|
            #[trigger] plan_rects(ch, width, height).contains(r) && r.x + r.width == 2 * width,
        segments_of(ch).up is Some ==> exists|r: HalfRect|
            #[trigger] plan_rects(ch, width, height).contains(r) && r.y == 0,
        segments_of(ch).down is Some ==> exists|r: HalfRect|
            #[trigger] plan_rects(ch, width, height).contains(r) && r.y + r.height == 2 * height,
{
    let seg = segments_of(ch);
    let parts = arm_parts(seg, width, height);
    let rects = plan_rects(ch, width, height);
    assert(rects == parts[0] + parts[1] + parts[2] + parts[3]);
    if seg.left is Some {
        lemma_left_arm_first(seg, width, height);
        let r = parts[0][0];
        assert(parts[0].contains(r));
        lemma_concat4_contains(parts[0], parts[1], parts[2], parts[3], r);
    }
    if seg.right is Some {
        lemma_right_arm_first(seg, width, height);
        let r = parts[1][0];
        assert(parts[1].contains(r));
        lemma_concat4_contains(parts[0], parts[1], parts[2], parts[3], r);
    }
    if seg.up is Some {
        lemma_up_arm_first(seg, width, height);
        let r = parts[2][0];
        assert(parts[2].contains(r));
        lemma_concat4_contains(parts[0], parts[1], parts[2], parts[3], r);
    }
    if seg.down is Some {
        lemma_down_arm_first(seg, width, height);
        let r = parts[3][0];
        assert(parts[3].contains(r));
        lemma_concat4_contains(parts[0], parts[1], parts[2], parts[3], r);
    }
}

/// The middle of the cell edge that an arm points to, in half pixels.
pub open spec fn edge_middle(dir: int, width: u32, height: u32) -> (int, int) {
    if dir == 0 {
        (0, height as int)
    } else if dir == 1 {
        (2 * width, height as int)
    } else if dir == 2 {
        (width as int, 0)
    } else {
        (width as int, 2 * height)
    }
}

/// Whether `seg` has the arm `dir` (0 left, 1 right, 2 up, 3 down).
pub open spec fn has_arm(seg: BoxSegments, dir: int) -> bool {
    if dir == 0 {
        seg.left is Some
    } else if dir == 1 {
        seg.right is Some
    } else if dir == 2 {
        seg.up is Some
    } else {
        seg.down is Some
    }
}

/// Law: a rounded corner is drawn where its arms are: its arc runs between
/// the middles of exactly the two cell edges that its decomposition has arms
/// to, bends through the centre of the cell, and has the light width.
pub proof fn lemma_rounded_corner_follows_arms(ch: char, width: u32, height: u32, dir: int)
    requires
        spec_is_rounded_corner(ch),
        width >= 1,
        height >= 1,
        0 <= dir < 4,
    ensures
        ({
            let a = corner_arc(
                ch,
                width as int,
                height as int,
                2 * light_stroke_px(height),
                2 * width,
                2 * height,
            );
            let m = edge_middle(dir, width, height);
            &&& has_arm(segments_of(ch), dir) <==> ((a.start_x, a.start_y) == (m.0 as i64, m.1 as i64)
                || (a.end_x, a.end_y) == (m.0 as i64, m.1 as i64))
            &&& a.ctrl_x == width && a.ctrl_y == height
            &&& a.width == 2 * light_stroke_px(height)
        }),
{
    lemma_light_px_bounds(height);
}

/// Whether the plan has two strokes of light width along the row band from
/// `y`, one starting at the left edge and one ending at the right edge, that
/// meet or overlap: an unbroken horizontal stroke across the cell.
pub open spec fn spans_row(rects: Seq<HalfRect>, y: int, light: int, w: int) -> bool {
    exists|a: HalfRect, b: HalfRect|
        #[trigger] rects.contains(a) && #[trigger] rects.contains(b) && a.y == y && b.y == y
            && a.height == light && b.height == light && a.x == 0 && b.x + b.width == w && a.x
            + a.width >= b.x
}

/// Whether the plan has an unbroken vertical stroke of light width down the
/// column band from `x`, from the top edge to the bottom edge.
pub open spec fn spans_column(rects: Seq<HalfRect>, x: int, light: int, h: int) -> bool {
    exists|a: HalfRect, b: HalfRect|
        #[trigger] rects.contains(a) && #[trigger] rects.contains(b) && a.x == x && b.x == x
            && a.width == light && b.width == light && a.y == 0 && b.y + b.height == h && a.y
            + a.height >= b.y
}

/// Law: a double line that runs straight through a cell keeps each of its
/// strokes unbroken on a side where no arm crosses it. So the upper stroke of
/// ═, ╦ and ╤ and the lower one of ═, ╩ and ╧ span the cell, and likewise the
/// outer stroke of ║, ╠ and ╣; only where arms cross on both sides, as in ╬,
/// are both strokes broken.
#[verifier::rlimit(80)]
#[verifier::spinoff_prover]
pub proof fn lemma_double_line_runs_through(ch: char, width: u32, height: u32)
    requires
        !spec_is_rounded_corner(ch),
        width >= 1,
        height >= 1,
    ensures
        ({
            let seg = segments_of(ch);
            let rects = plan_rects(ch, width, height);
            let light = 2 * light_stroke_px(height);
            let hg = half_gap_of(height);
            let lp = light_stroke_px(height);
            &&& seg.left == Some(LineWeight::Double) && seg.right == Some(LineWeight::Double)
                && seg.up is None ==> spans_row(rects, height - hg - lp, light, 2 * width)
            &&& seg.left == Some(LineWeight::Double) && seg.right == Some(LineWeight::Double)
                && seg.down is None ==> spans_row(rects, height + hg - lp, light, 2 * width)
            &&& seg.up == Some(LineWeight::Double) && seg.down == Some(LineWeight::Double)
                && seg.left is None ==> spans_column(rects, width - hg - lp, light, 2 * height)
            &&& seg.up == Some(LineWeight::Double) && seg.down == Some(LineWeight::Double)
                && seg.right is None ==> spans_column(rects, width + hg - lp, light, 2 * height)
        }),
{
    let seg = segments_of(ch);
    lemma_light_px_bounds(height);
    let parts = arm_parts(seg, width, height);
    let rects = plan_rects(ch, width, height);
    let light = 2 * light_stroke_px(height);
    assert(rects == parts[0] + parts[1] + parts[2] + parts[3]);
    if seg.left == Some(LineWeight::Double) && seg.right == Some(LineWeight::Double) {
        assert(parts[0] == junction_left(seg, width as int, height as int, light));
        assert(parts[1] == junction_right(seg, width as int, height as int, light, 2 * width));
        if seg.up is None {
            let a = parts[0][0];
            let b = parts[1][0];
            assert(parts[0].contains(a) && parts[1].contains(b));
            lemma_concat4_contains(parts[0], parts[1], parts[2], parts[3], a);
            lemma_concat4_contains(parts[0], parts[1], parts[2], parts[3], b);
        }
        if seg.down is None {
            let a = parts[0][parts[0].len() - 1];
            let b = parts[1][parts[1].len() - 1];
            assert(parts[0].contains(a) && parts[1].contains(b));
            lemma_concat4_contains(parts[0], parts[1], parts[2], parts[3], a);
            lemma_concat4_contains(parts[0], parts[1], parts[2], parts[3], b);
        }
    }
    if seg.up == Some(LineWeight::Double) && seg.down == Some(LineWeight::Double) {
        assert(parts[2] == junction_up(seg, width as int, height as int, light));
        assert(parts[3] == junction_down(seg, width as int, height as int, light, 2 * height));
        if seg.left is None {
            let a = parts[2][0];
            let b = parts[3][0];
            assert(parts[2].contains(a) && parts[3].contains(b));
            lemma_concat4_contains(parts[0], parts[1], parts[2], parts[3], a);
            lemma_concat4_contains(parts[0], parts[1], parts[2], parts[3], b);
        }
        if seg.right is None {
            let a = parts[2][parts[2].len() - 1];
            let b = parts[3][parts[3].len() - 1];
            assert(parts[2].contains(a) && parts[3].contains(b));
            lemma_concat4_contains(parts[0], parts[1], parts[2], parts[3], a);
            lemma_concat4_contains(parts[0], parts[1], parts[2], parts[3], b);
        }
    }
}

// ---------------------------------------------------------------------------
// Mirror symmetry
// ---------------------------------------------------------------------------

/// The same arms with left and right exchanged.
pub open spec fn swap_left_right(seg: BoxSegments) -> BoxSegments {
    segments(seg.right, seg.left, seg.up, seg.down)
}

/// The mirror image of `r` about the vertical line `x = w / 2`.
pub open spec fn mirror_x(r: HalfRect, w: int) -> HalfRect {
    HalfRect { x: (w - r.x - r.width) as i64, y: r.y, width: r.width, height: r.height }
}

/// Whether every rectangle of `s` has its mirror image about `x = w / 2` in
/// `t`, and every one of `t` its mirror image in `s`.
pub open spec fn mirror_sets_x(s: Seq<HalfRect>, t: Seq<HalfRect>, w: int) -> bool {
    &&& forall|a: HalfRect| #[trigger] s.contains(a) ==> t.contains(mirror_x(a, w))
    &&& forall|b: HalfRect| #[trigger] t.contains(b) ==> s.contains(mirror_x(b, w))
}

proof fn lemma_concat2_contains(a: Seq<HalfRect>, b: Seq<HalfRect>, r: HalfRect)
    ensures
        (a + b).contains(r) <==> (a.contains(r) || b.contains(r)),
{
    lemma_concat4_contains(a, b, Seq::empty(), Seq::empty(), r);
    assert(a + b + Seq::empty() + Seq::empty() =~= a + b);
}

proof fn lemma_mirror_sets_union(
    s1: Seq<HalfRect>,
    s2: Seq<HalfRect>,
    t1: Seq<HalfRect>,
    t2: Seq<HalfRect>,
    w: int,
)
    requires
        mirror_sets_x(s1, t1, w),
        mirror_sets_x(s2, t2, w),
    ensures
        mirror_sets_x(s1 + s2, t1 + t2, w),
        mirror_sets_x(s1 + s2, t2 + t1, w),
{
    assert forall|a: HalfRect| #[trigger] (s1 + s2).contains(a) implies (t1 + t2).contains(
        mirror_x(a, w),
    ) && (t2 + t1).contains(mirror_x(a, w)) by {
        lemma_concat2_contains(s1, s2, a);
        lemma_concat2_contains(t1, t2, mirror_x(a, w));
        lemma_concat2_contains(t2, t1, mirror_x(a, w));
    }
    assert forall|b: HalfRect| #[trigger] (t1 + t2).contains(b) implies (s1 + s2).contains(
        mirror_x(b, w),
    ) by {
        lemma_concat2_contains(t1, t2, b);
        lemma_concat2_contains(s1, s2, mirror_x(b, w));
    }
    assert forall|b: HalfRect| #[trigger] (t2 + t1).contains(b) implies (s1 + s2).contains(
        mirror_x(b, w),
    ) by {
        lemma_concat2_contains(t2, t1, b);
        lemma_concat2_contains(s1, s2, mirror_x(b, w));
    }
}

/// Whether `v` is well inside the range of `i64`.
pub open spec fn within(v: int) -> bool {
    -0x1000_0000_0000_0000 <= v <= 0x1000_0000_0000_0000
}

proof fn lemma_fill_mirrored_x(x1: int, x2: int, y: int, wd: int, ht: int, w: int)
    requires
        x1 + wd + x2 == w,
        within(x1),
        within(x2),
        within(y),
        within(wd),
        within(ht),
    ensures
        mirror_sets_x(fill(x1, y, wd, ht), fill(x2, y, wd, ht), w),
{
    let s = fill(x1, y, wd, ht);
    let t = fill(x2, y, wd, ht);
    if wd > 0 && ht > 0 {
        assert(mirror_x(s[0], w) == t[0]);
        assert(mirror_x(t[0], w) == s[0]);
        assert(s.contains(s[0]) && t.contains(t[0]));
        assert forall|a: HalfRect| #[trigger] s.contains(a) implies t.contains(mirror_x(a, w)) by {
            assert(a == s[0]);
        }
        assert forall|b: HalfRect| #[trigger] t.contains(b) implies s.contains(mirror_x(b, w)) by {
            assert(b == t[0]);
        }
    }
}

/// Horizontal arms of the single-line layout: the right arm is the mirror
/// image of the left arm of the same weight.
#[verifier::rlimit(80)]
#[verifier::spinoff_prover]
proof fn lemma_h_arm_mirror(wt: LineWeight, cx: int, cy: int, light: int, heavy: int)
    requires
        valid_geometry(cx, cy, light, heavy, 0, 0),
        cx >= 0,
    ensures
        ({
            let t = stroke_thickness(wt, light, heavy);
            mirror_sets_x(
                h_segment(0, cx + t / 2, wt, cy, light, heavy),
                h_segment(cx - t / 2, 2 * cx, wt, cy, light, heavy),
                2 * cx,
            )
        }),
{
    let t = stroke_thickness(wt, light, heavy);
    match wt {
        LineWeight::Light => {
            lemma_fill_mirrored_x(0, cx - t / 2, cy - light / 2, cx + t / 2, light, 2 * cx);
        },
        LineWeight::Heavy => {
            lemma_fill_mirrored_x(0, cx - t / 2, cy - heavy / 2, cx + t / 2, heavy, 2 * cx);
        },
        LineWeight::Double => {
            let gap = double_gap(light);
            lemma_fill_mirrored_x(0, cx - t / 2, cy - gap / 2 - light / 2, cx + t / 2, light, 2 * cx);
            lemma_fill_mirrored_x(0, cx - t / 2, cy + gap / 2 - light / 2, cx + t / 2, light, 2 * cx);
            lemma_mirror_sets_union(
                fill(0, cy - gap / 2 - light / 2, cx + t / 2, light),
                fill(0, cy + gap / 2 - light / 2, cx + t / 2, light),
                fill(cx - t / 2, cy - gap / 2 - light / 2, cx + t / 2, light),
                fill(cx - t / 2, cy + gap / 2 - light / 2, cx + t / 2, light),
                2 * cx,
            );
        },
    }
}

/// A vertical arm of the single-line layout is its own mirror image.
#[verifier::rlimit(80)]
#[verifier::spinoff_prover]
proof fn lemma_v_segment_mirror(from: int, to: int, wt: LineWeight, cx: int, light: int, heavy: int)
    requires
        valid_geometry(cx, 0, light, heavy, 0, 0),
        moderate(from),
        moderate(to),
    ensures
        mirror_sets_x(
            v_segment(from, to, wt, cx, light, heavy),
            v_segment(from, to, wt, cx, light, heavy),
            2 * cx,
        ),
{
    match wt {
        LineWeight::Light => {
            lemma_fill_mirrored_x(cx - light / 2, cx - light / 2, from, light, to - from, 2 * cx);
        },
        LineWeight::Heavy => {
            lemma_fill_mirrored_x(cx - heavy / 2, cx - heavy / 2, from, heavy, to - from, 2 * cx);
        },
        LineWeight::Double => {
            let gap = double_gap(light);
            let a = fill(cx - gap / 2 - light / 2, from, light, to - from);
            let b = fill(cx + gap / 2 - light / 2, from, light, to - from);
            lemma_fill_mirrored_x(
                cx - gap / 2 - light / 2,
                cx + gap / 2 - light / 2,
                from,
                light,
                to - from,
                2 * cx,
            );
            lemma_fill_mirrored_x(
                cx + gap / 2 - light / 2,
                cx - gap / 2 - light / 2,
                from,
                light,
                to - from,
                2 * cx,
            );
            lemma_mirror_sets_union(a, b, b, a, 2 * cx);
        },
    }
}

#[verifier::rlimit(80)]
#[verifier::spinoff_prover]
proof fn lemma_junction_h_mirror(seg: BoxSegments, cx: int, cy: int, light: int)
    requires
        valid_geometry(cx, cy, light, light, 0, 0),
        cx >= 0,
    ensures
        mirror_sets_x(
            junction_left(swap_left_right(seg), cx, cy, light),
            junction_right(seg, cx, cy, light, 2 * cx),
            2 * cx,
        ),
        mirror_sets_x(
            junction_right(swap_left_right(seg), cx, cy, light, 2 * cx),
            junction_left(seg, cx, cy, light),
            2 * cx,
        ),
{
    let sw = swap_left_right(seg);
    let half_gap = double_gap(light) / 2;
    let hlw = light / 2;
    let hw = junction_heavy(light);
    let yt = cy - half_gap - hlw;
    let yb = cy + half_gap - hlw;
    let top = near_reach(cx, half_gap, hlw, is_v_double(seg), seg.up is Some);
    let bottom = near_reach(cx, half_gap, hlw, is_v_double(seg), seg.down is Some);
    assert(is_v_double(sw) == is_v_double(seg));
    // The left arm of the swapped character against the right arm of `seg`.
    match seg.right {
        Some(LineWeight::Double) => {
            lemma_fill_mirrored_x(0, 2 * cx - top, yt, top, light, 2 * cx);
            lemma_fill_mirrored_x(0, 2 * cx - bottom, yb, bottom, light, 2 * cx);
            lemma_mirror_sets_union(
                fill(0, yt, top, light),
                fill(0, yb, bottom, light),
                fill(2 * cx - top, yt, top, light),
                fill(2 * cx - bottom, yb, bottom, light),
                2 * cx,
            );
            assert(junction_right(seg, cx, cy, light, 2 * cx) == fill(2 * cx - top, yt, 2 * cx - (
            2 * cx - top), light) + fill(2 * cx - bottom, yb, 2 * cx - (2 * cx - bottom), light));
        },
        Some(LineWeight::Light) => {
            lemma_fill_mirrored_x(0, cx - hlw, cy - hlw, cx + hlw, light, 2 * cx);
        },
        Some(LineWeight::Heavy) => {
            lemma_fill_mirrored_x(0, cx - hw / 2, cy - hw / 2, cx + hw / 2, hw, 2 * cx);
        },
        None => {},
    }
    // The right arm of the swapped character against the left arm of `seg`.
    match seg.left {
        Some(LineWeight::Double) => {
            lemma_fill_mirrored_x(2 * cx - top, 0, yt, top, light, 2 * cx);
            lemma_fill_mirrored_x(2 * cx - bottom, 0, yb, bottom, light, 2 * cx);
            lemma_mirror_sets_union(
                fill(2 * cx - top, yt, top, light),
                fill(2 * cx - bottom, yb, bottom, light),
                fill(0, yt, top, light),
                fill(0, yb, bottom, light),
                2 * cx,
            );
            assert(junction_right(sw, cx, cy, light, 2 * cx) == fill(2 * cx - top, yt, 2 * cx - (2
                * cx - top), light) + fill(2 * cx - bottom, yb, 2 * cx - (2 * cx - bottom), light));
        },
        Some(LineWeight::Light) => {
            lemma_fill_mirrored_x(cx - hlw, 0, cy - hlw, cx + hlw, light, 2 * cx);
        },
        Some(LineWeight::Heavy) => {
            lemma_fill_mirrored_x(cx - hw / 2, 0, cy - hw / 2, cx + hw / 2, hw, 2 * cx);
        },
        None => {},
    }
}

#[verifier::rlimit(80)]
#[verifier::spinoff_prover]
proof fn lemma_junction_v_mirror(seg: BoxSegments, cx: int, cy: int, light: int, h: int)
    requires
        valid_geometry(cx, cy, light, light, 0, h),
        cx >= 0,
    ensures
        mirror_sets_x(
            junction_up(swap_left_right(seg), cx, cy, light),
            junction_up(seg, cx, cy, light),
            2 * cx,
        ),
        mirror_sets_x(
            junction_down(swap_left_right(seg), cx, cy, light, h),
            junction_down(seg, cx, cy, light, h),
            2 * cx,
        ),
{
    let sw = swap_left_right(seg);
    let half_gap = double_gap(light) / 2;
    let hlw = light / 2;
    let hw = junction_heavy(light);
    let xl = cx - half_gap - hlw;
    let xr = cx + half_gap - hlw;
    assert(is_h_double(sw) == is_h_double(seg));
    let el = near_reach(cy, half_gap, hlw, is_h_double(seg), seg.left is Some);
    let er = near_reach(cy, half_gap, hlw, is_h_double(seg), seg.right is Some);
    match seg.up {
        Some(LineWeight::Double) => {
            lemma_fill_mirrored_x(xl, xr, 0, light, er, 2 * cx);
            lemma_fill_mirrored_x(xr, xl, 0, light, el, 2 * cx);
            lemma_mirror_sets_union(
                fill(xl, 0, light, er),
                fill(xr, 0, light, el),
                fill(xr, 0, light, er),
                fill(xl, 0, light, el),
                2 * cx,
            );
        },
        Some(LineWeight::Light) => {
            lemma_fill_mirrored_x(cx - hlw, cx - hlw, 0, light, cy + hlw, 2 * cx);
        },
        Some(LineWeight::Heavy) => {
            lemma_fill_mirrored_x(cx - hw / 2, cx - hw / 2, 0, hw, cy + hw / 2, 2 * cx);
        },
        None => {},
    }
    let sl = 2 * cy - el;
    let sr = 2 * cy - er;
    match seg.down {
        Some(LineWeight::Double) => {
            lemma_fill_mirrored_x(xl, xr, sr, light, h - sr, 2 * cx);
            lemma_fill_mirrored_x(xr, xl, sl, light, h - sl, 2 * cx);
            lemma_mirror_sets_union(
                fill(xl, sr, light, h - sr),
                fill(xr, sl, light, h - sl),
                fill(xr, sr, light, h - sr),
                fill(xl, sl, light, h - sl),
                2 * cx,
            );
        },
        Some(LineWeight::Light) => {
            lemma_fill_mirrored_x(cx - hlw, cx - hlw, cy - hlw, light, h - cy + hlw, 2 * cx);
        },
        Some(LineWeight::Heavy) => {
            lemma_fill_mirrored_x(cx - hw / 2, cx - hw / 2, cy - hw / 2, hw, h - cy + hw / 2, 2 * cx);
        },
        None => {},
    }
}

#[verifier::rlimit(80)]
#[verifier::spinoff_prover]
proof fn lemma_single_arms_mirror(seg: BoxSegments, cx: int, cy: int, light: int, heavy: int, h: int)
    requires
        valid_geometry(cx, cy, light, heavy, 0, h),
        cx >= 0,
    ensures
        mirror_sets_x(
            left_arm(swap_left_right(seg), cx, cy, light, heavy),
            right_arm(seg, cx, cy, light, heavy, 2 * cx),
            2 * cx,
        ),
        mirror_sets_x(
            right_arm(swap_left_right(seg), cx, cy, light, heavy, 2 * cx),
            left_arm(seg, cx, cy, light, heavy),
            2 * cx,
        ),
        mirror_sets_x(
            up_arm(swap_left_right(seg), cx, cy, light, heavy),
            up_arm(seg, cx, cy, light, heavy),
            2 * cx,
        ),
        mirror_sets_x(
            down_arm(swap_left_right(seg), cx, cy, light, heavy, h),
            down_arm(seg, cx, cy, light, heavy, h),
            2 * cx,
        ),
{
    if let Some(wt) = seg.right {
        lemma_h_arm_mirror(wt, cx, cy, light, heavy);
    }
    if let Some(wt) = seg.left {
        lemma_h_arm_mirror(wt, cx, cy, light, heavy);
    }
    if let Some(wt) = seg.up {
        let t = stroke_thickness(wt, light, heavy);
        lemma_v_segment_mirror(0, cy + t / 2, wt, cx, light, heavy);
    }
    if let Some(wt) = seg.down {
        let t = stroke_thickness(wt, light, heavy);
        lemma_v_segment_mirror(cy - t / 2, h, wt, cx, light, heavy);
    }
}

/// Law: the double-junction layout is symmetric: for any cell with its
/// centre at `(cx, cy)`, `2 * cx` by `2 * cy` half pixels, and any light
/// width, exchanging the left and right arms mirrors the rectangles about the
/// vertical centre line (every rectangle of one layout has its mirror image
/// in the other).
#[verifier::rlimit(80)]
#[verifier::spinoff_prover]
pub proof fn lemma_double_junction_mirror_left_right(seg: BoxSegments, cx: int, cy: int, light: int)
    requires
        valid_geometry(cx, cy, light, light, 2 * cx, 2 * cy),
        cx >= 0,
        cy >= 0,
    ensures
        mirror_sets_x(
            double_junction_strokes(swap_left_right(seg), cx, cy, light, 2 * cx, 2 * cy),
            double_junction_strokes(seg, cx, cy, light, 2 * cx, 2 * cy),
            2 * cx,
        ),
{
    let sw = swap_left_right(seg);
    let w = 2 * cx;
    let h = 2 * cy;
    lemma_junction_h_mirror(seg, cx, cy, light);
    lemma_junction_v_mirror(seg, cx, cy, light, h);
    let l = junction_left(seg, cx, cy, light);
    let r = junction_right(seg, cx, cy, light, w);
    let u = junction_up(seg, cx, cy, light);
    let d = junction_down(seg, cx, cy, light, h);
    let l2 = junction_left(sw, cx, cy, light);
    let r2 = junction_right(sw, cx, cy, light, w);
    let u2 = junction_up(sw, cx, cy, light);
    let d2 = junction_down(sw, cx, cy, light, h);
    lemma_mirror_sets_union(l2, r2, r, l, w);
    lemma_mirror_sets_union(l2 + r2, u2, l + r, u, w);
    lemma_mirror_sets_union(l2 + r2 + u2, d2, l + r + u, d, w);
}

/// Law: the whole single- and double-line layout is symmetric: for any cell
/// with its centre at `(cx, cy)` and any valid stroke widths, exchanging the
/// left and right arms of a character mirrors its strokes about the vertical
/// centre line.
#[verifier::rlimit(80)]
#[verifier::spinoff_prover]
pub proof fn lemma_segment_strokes_mirror_left_right(
    seg: BoxSegments,
    cx: int,
    cy: int,
    light: int,
    heavy: int,
)
    requires
        valid_geometry(cx, cy, light, heavy, 2 * cx, 2 * cy),
        cx >= 0,
        cy >= 0,
    ensures
        mirror_sets_x(
            segment_strokes(swap_left_right(seg), cx, cy, light, heavy, 2 * cx, 2 * cy),
            segment_strokes(seg, cx, cy, light, heavy, 2 * cx, 2 * cy),
            2 * cx,
        ),
{
    let sw = swap_left_right(seg);
    let w = 2 * cx;
    let h = 2 * cy;
    assert(sw.has_double() == seg.has_double());
    if seg.has_double() {
        lemma_double_junction_mirror_left_right(seg, cx, cy, light);
    } else {
        lemma_single_arms_mirror(seg, cx, cy, light, heavy, h);
        let l = left_arm(seg, cx, cy, light, heavy);
        let r = right_arm(seg, cx, cy, light, heavy, w);
        let u = up_arm(seg, cx, cy, light, heavy);
        let d = down_arm(seg, cx, cy, light, heavy, h);
        let l2 = left_arm(sw, cx, cy, light, heavy);
        let r2 = right_arm(sw, cx, cy, light, heavy, w);
        let u2 = up_arm(sw, cx, cy, light, heavy);
        let d2 = down_arm(sw, cx, cy, light, heavy, h);
        lemma_mirror_sets_union(l2, r2, r, l, w);
        lemma_mirror_sets_union(l2 + r2, u2, l + r, u, w);
        lemma_mirror_sets_union(l2 + r2 + u2, d2, l + r + u, d, w);
    }
}

/// Law: the stroke plan of a cell is symmetric: exchanging the left and right
/// arms of a character mirrors its strokes about the vertical centre line.
pub proof fn lemma_strokes_mirror_left_right(seg: BoxSegments, width: u32, height: u32)
    ensures
        ({
            let light = 2 * light_stroke_px(height);
            mirror_sets_x(
                segment_strokes(
                    swap_left_right(seg),
                    width as int,
                    height as int,
                    light,
                    2 * light,
                    2 * width,
                    2 * height,
                ),
                segment_strokes(
                    seg,
                    width as int,
                    height as int,
                    light,
                    2 * light,
                    2 * width,
                    2 * height,
                ),
                2 * width,
            )
        }),
{
    lemma_light_px_bounds(height);
    let light = 2 * light_stroke_px(height);
    lemma_segment_strokes_mirror_left_right(seg, width as int, height as int, light, 2 * light);
}

/// Law: two box-drawing characters whose arms are mirror images of each
/// other, such as ┌ and ┐ or ╠ and ╣, are drawn as mirror images.
pub proof fn lemma_mirror_characters_left_right(a: char, b: char, width: u32, height: u32)
    requires
        segments_of(b) == swap_left_right(segments_of(a)),
    ensures
        mirror_sets_x(plan_rects(b, width, height), plan_rects(a, width, height), 2 * width),
{
    lemma_strokes_mirror_left_right(segments_of(a), width, height);
}

/// The same arms with up and down exchanged.
pub open spec fn swap_up_down(seg: BoxSegments) -> BoxSegments {
    segments(seg.left, seg.right, seg.down, seg.up)
}

/// The mirror image of `r` about the horizontal line `y = h / 2`.
pub open spec fn mirror_y(r: HalfRect, h: int) -> HalfRect {
    HalfRect { x: r.x, y: (h - r.y - r.height) as i64, width: r.width, height: r.height }
}

/// Whether every rectangle of `s` has its mirror image about `y = h / 2` in
/// `t`, and every one of `t` its mirror image in `s`.
pub open spec fn mirror_sets_y(s: Seq<HalfRect>, t: Seq<HalfRect>, h: int) -> bool {
    &&& forall|a: HalfRect| #[trigger] s.contains(a) ==> t.contains(mirror_y(a, h))
    &&& forall|b: HalfRect| #[trigger] t.contains(b) ==> s.contains(mirror_y(b, h))
}

proof fn lemma_mirror_sets_y_union(
    s1: Seq<HalfRect>,
    s2: Seq<HalfRect>,
    t1: Seq<HalfRect>,
    t2: Seq<HalfRect>,
    h: int,
)
    requires
        mirror_sets_y(s1, t1, h),
        mirror_sets_y(s2, t2, h),
    ensures
        mirror_sets_y(s1 + s2, t1 + t2, h),
        mirror_sets_y(s1 + s2, t2 + t1, h),
{
    assert forall|a: HalfRect| #[trigger] (s1 + s2).contains(a) implies (t1 + t2).contains(
        mirror_y(a, h),
    ) && (t2 + t1).contains(mirror_y(a, h)) by {
        lemma_concat2_contains(s1, s2, a);
        lemma_concat2_contains(t1, t2, mirror_y(a, h));
        lemma_concat2_contains(t2, t1, mirror_y(a, h));
    }
    assert forall|b: HalfRect| #[trigger] (t1 + t2).contains(b) implies (s1 + s2).contains(
        mirror_y(b, h),
    ) by {
        lemma_concat2_contains(t1, t2, b);
        lemma_concat2_contains(s1, s2, mirror_y(b, h));
    }
    assert forall|b: HalfRect| #[trigger] (t2 + t1).contains(b) implies (s1 + s2).contains(
        mirror_y(b, h),
    ) by {
        lemma_concat2_contains(t2, t1, b);
        lemma_concat2_contains(s1, s2, mirror_y(b, h));
    }
}

proof fn lemma_fill_mirrored_y(x: int, y1: int, y2: int, wd: int, ht: int, h: int)
    requires
        y1 + ht + y2 == h,
        within(x),
        within(y1),
        within(y2),
        within(wd),
        within(ht),
    ensures
        mirror_sets_y(fill(x, y1, wd, ht), fill(x, y2, wd, ht), h),
{
    let s = fill(x, y1, wd, ht);
    let t = fill(x, y2, wd, ht);
    if wd > 0 && ht > 0 {
        assert(mirror_y(s[0], h) == t[0]);
        assert(mirror_y(t[0], h) == s[0]);
        assert(s.contains(s[0]) && t.contains(t[0]));
        assert forall|a: HalfRect| #[trigger] s.contains(a) implies t.contains(mirror_y(a, h)) by {
            assert(a == s[0]);
        }
        assert forall|b: HalfRect| #[trigger] t.contains(b) implies s.contains(mirror_y(b, h)) by {
            assert(b == t[0]);
        }
    }
}

/// Vertical arms of the single-line layout: the lower arm is the mirror
/// image of the upper arm of the same weight.
#[verifier::rlimit(80)]
#[verifier::spinoff_prover]
proof fn lemma_v_arm_mirror_y(wt: LineWeight, cx: int, cy: int, light: int, heavy: int)
    requires
        valid_geometry(cx, cy, light, heavy, 0, 0),
        cy >= 0,
    ensures
        ({
            let t = stroke_thickness(wt, light, heavy);
            mirror_sets_y(
                v_segment(0, cy + t / 2, wt, cx, light, heavy),
                v_segment(cy - t / 2, 2 * cy, wt, cx, light, heavy),
                2 * cy,
            )
        }),
{
    let t = stroke_thickness(wt, light, heavy);
    match wt {
        LineWeight::Light => {
            lemma_fill_mirrored_y(cx - light / 2, 0, cy - t / 2, light, cy + t / 2, 2 * cy);
        },
        LineWeight::Heavy => {
            lemma_fill_mirrored_y(cx - heavy / 2, 0, cy - t / 2, heavy, cy + t / 2, 2 * cy);
        },
        LineWeight::Double => {
            let gap = double_gap(light);
            lemma_fill_mirrored_y(cx - gap / 2 - light / 2, 0, cy - t / 2, light, cy + t / 2, 2 * cy);
            lemma_fill_mirrored_y(cx + gap / 2 - light / 2, 0, cy - t / 2, light, cy + t / 2, 2 * cy);
            lemma_mirror_sets_y_union(
                fill(cx - gap / 2 - light / 2, 0, light, cy + t / 2),
                fill(cx + gap / 2 - light / 2, 0, light, cy + t / 2),
                fill(cx - gap / 2 - light / 2, cy - t / 2, light, cy + t / 2),
                fill(cx + gap / 2 - light / 2, cy - t / 2, light, cy + t / 2),
                2 * cy,
            );
        },
    }
}

/// A horizontal arm of the single-line layout is its own mirror image about
/// the horizontal centre line.
#[verifier::rlimit(80)]
#[verifier::spinoff_prover]
proof fn lemma_h_segment_mirror_y(from: int, to: int, wt: LineWeight, cy: int, light: int, heavy: int)
    requires
        valid_geometry(0, cy, light, heavy, 0, 0),
        moderate(from),
        moderate(to),
    ensures
        mirror_sets_y(
            h_segment(from, to, wt, cy, light, heavy),
            h_segment(from, to, wt, cy, light, heavy),
            2 * cy,
        ),
{
    match wt {
        LineWeight::Light => {
            lemma_fill_mirrored_y(from, cy - light / 2, cy - light / 2, to - from, light, 2 * cy);
        },
        LineWeight::Heavy => {
            lemma_fill_mirrored_y(from, cy - heavy / 2, cy - heavy / 2, to - from, heavy, 2 * cy);
        },
        LineWeight::Double => {
            let gap = double_gap(light);
            let a = fill(from, cy - gap / 2 - light / 2, to - from, light);
            let b = fill(from, cy + gap / 2 - light / 2, to - from, light);
            lemma_fill_mirrored_y(
                from,
                cy - gap / 2 - light / 2,
                cy + gap / 2 - light / 2,
                to - from,
                light,
                2 * cy,
            );
            lemma_fill_mirrored_y(
                from,
                cy + gap / 2 - light / 2,
                cy - gap / 2 - light / 2,
                to - from,
                light,
                2 * cy,
            );
            lemma_mirror_sets_y_union(a, b, b, a, 2 * cy);
        },
    }
}

#[verifier::rlimit(80)]
#[verifier::spinoff_prover]
proof fn lemma_single_arms_mirror_y(seg: BoxSegments, cx: int, cy: int, light: int, heavy: int, w: int)
    requires
        valid_geometry(cx, cy, light, heavy, w, 0),
        cy >= 0,
    ensures
        mirror_sets_y(
            up_arm(swap_up_down(seg), cx, cy, light, heavy),
            down_arm(seg, cx, cy, light, heavy, 2 * cy),
            2 * cy,
        ),
        mirror_sets_y(
            down_arm(swap_up_down(seg), cx, cy, light, heavy, 2 * cy),
            up_arm(seg, cx, cy, light, heavy),
            2 * cy,
        ),
        mirror_sets_y(
            left_arm(swap_up_down(seg), cx, cy, light, heavy),
            left_arm(seg, cx, cy, light, heavy),
            2 * cy,
        ),
        mirror_sets_y(
            right_arm(swap_up_down(seg), cx, cy, light, heavy, w),
            right_arm(seg, cx, cy, light, heavy, w),
            2 * cy,
        ),
{
    if let Some(wt) = seg.down {
        lemma_v_arm_mirror_y(wt, cx, cy, light, heavy);
    }
    if let Some(wt) = seg.up {
        lemma_v_arm_mirror_y(wt, cx, cy, light, heavy);
    }
    if let Some(wt) = seg.left {
        let t = stroke_thickness(wt, light, heavy);
        lemma_h_segment_mirror_y(0, cx + t / 2, wt, cy, light, heavy);
    }
    if let Some(wt) = seg.right {
        let t = stroke_thickness(wt, light, heavy);
        lemma_h_segment_mirror_y(cx - t / 2, w, wt, cy, light, heavy);
    }
}

#[verifier::rlimit(80)]
#[verifier::spinoff_prover]
proof fn lemma_junction_v_mirror_y(seg: BoxSegments, cx: int, cy: int, light: int)
    requires
        valid_geometry(cx, cy, light, light, 0, 0),
        cy >= 0,
    ensures
        mirror_sets_y(
            junction_up(swap_up_down(seg), cx, cy, light),
            junction_down(seg, cx, cy, light, 2 * cy),
            2 * cy,
        ),
        mirror_sets_y(
            junction_down(swap_up_down(seg), cx, cy, light, 2 * cy),
            junction_up(seg, cx, cy, light),
            2 * cy,
        ),
{
    let sw = swap_up_down(seg);
    let half_gap = double_gap(light) / 2;
    let hlw = light / 2;
    let hw = junction_heavy(light);
    let xl = cx - half_gap - hlw;
    let xr = cx + half_gap - hlw;
    let el = near_reach(cy, half_gap, hlw, is_h_double(seg), seg.left is Some);
    let er = near_reach(cy, half_gap, hlw, is_h_double(seg), seg.right is Some);
    assert(is_h_double(sw) == is_h_double(seg));
    match seg.down {
        Some(LineWeight::Double) => {
            lemma_fill_mirrored_y(xl, 0, 2 * cy - el, light, el, 2 * cy);
            lemma_fill_mirrored_y(xr, 0, 2 * cy - er, light, er, 2 * cy);
            lemma_mirror_sets_y_union(
                fill(xl, 0, light, el),
                fill(xr, 0, light, er),
                fill(xl, 2 * cy - el, light, el),
                fill(xr, 2 * cy - er, light, er),
                2 * cy,
            );
            assert(junction_down(seg, cx, cy, light, 2 * cy) == fill(xl, 2 * cy - el, light, 2 * cy
                - (2 * cy - el)) + fill(xr, 2 * cy - er, light, 2 * cy - (2 * cy - er)));
        },
        Some(LineWeight::Light) => {
            lemma_fill_mirrored_y(cx - hlw, 0, cy - hlw, light, cy + hlw, 2 * cy);
        },
        Some(LineWeight::Heavy) => {
            lemma_fill_mirrored_y(cx - hw / 2, 0, cy - hw / 2, hw, cy + hw / 2, 2 * cy);
        },
        None => {},
    }
    match seg.up {
        Some(LineWeight::Double) => {
            lemma_fill_mirrored_y(xl, 2 * cy - el, 0, light, el, 2 * cy);
            lemma_fill_mirrored_y(xr, 2 * cy - er, 0, light, er, 2 * cy);
            lemma_mirror_sets_y_union(
                fill(xl, 2 * cy - el, light, el),
                fill(xr, 2 * cy - er, light, er),
                fill(xl, 0, light, el),
                fill(xr, 0, light, er),
                2 * cy,
            );
            assert(junction_down(sw, cx, cy, light, 2 * cy) == fill(xl, 2 * cy - el, light, 2 * cy
                - (2 * cy - el)) + fill(xr, 2 * cy - er, light, 2 * cy - (2 * cy - er)));
        },
        Some(LineWeight::Light) => {
            lemma_fill_mirrored_y(cx - hlw, cy - hlw, 0, light, cy + hlw, 2 * cy);
        },
        Some(LineWeight::Heavy) => {
            lemma_fill_mirrored_y(cx - hw / 2, cy - hw / 2, 0, hw, cy + hw / 2, 2 * cy);
        },
        None => {},
    }
}

#[verifier::rlimit(80)]
#[verifier::spinoff_prover]
proof fn lemma_junction_h_mirror_y(seg: BoxSegments, cx: int, cy: int, light: int, w: int)
    requires
        valid_geometry(cx, cy, light, light, w, 0),
        cy >= 0,
    ensures
        mirror_sets_y(
            junction_left(swap_up_down(seg), cx, cy, light),
            junction_left(seg, cx, cy, light),
            2 * cy,
        ),
        mirror_sets_y(
            junction_right(swap_up_down(seg), cx, cy, light, w),
            junction_right(seg, cx, cy, light, w),
            2 * cy,
        ),
{
    let sw = swap_up_down(seg);
    let half_gap = double_gap(light) / 2;
    let hlw = light / 2;
    let hw = junction_heavy(light);
    let yt = cy - half_gap - hlw;
    let yb = cy + half_gap - hlw;
    assert(is_v_double(sw) == is_v_double(seg));
    let et = near_reach(cx, half_gap, hlw, is_v_double(seg), seg.up is Some);
    let eb = near_reach(cx, half_gap, hlw, is_v_double(seg), seg.down is Some);
    match seg.left {
        Some(LineWeight::Double) => {
            lemma_fill_mirrored_y(0, yt, yb, eb, light, 2 * cy);
            lemma_fill_mirrored_y(0, yb, yt, et, light, 2 * cy);
            lemma_mirror_sets_y_union(
                fill(0, yt, eb, light),
                fill(0, yb, et, light),
                fill(0, yb, eb, light),
                fill(0, yt, et, light),
                2 * cy,
            );
        },
        Some(LineWeight::Light) => {
            lemma_fill_mirrored_y(0, cy - hlw, cy - hlw, cx + hlw, light, 2 * cy);
        },
        Some(LineWeight::Heavy) => {
            lemma_fill_mirrored_y(0, cy - hw / 2, cy - hw / 2, cx + hw / 2, hw, 2 * cy);
        },
        None => {},
    }
    let st = 2 * cx - et;
    let sb = 2 * cx - eb;
    match seg.right {
        Some(LineWeight::Double) => {
            lemma_fill_mirrored_y(sb, yt, yb, w - sb, light, 2 * cy);
            lemma_fill_mirrored_y(st, yb, yt, w - st, light, 2 * cy);
            lemma_mirror_sets_y_union(
                fill(sb, yt, w - sb, light),
                fill(st, yb, w - st, light),
                fill(sb, yb, w - sb, light),
                fill(st, yt, w - st, light),
                2 * cy,
            );
        },
        Some(LineWeight::Light) => {
            lemma_fill_mirrored_y(cx - hlw, cy - hlw, cy - hlw, w - cx + hlw, light, 2 * cy);
        },
        Some(LineWeight::Heavy) => {
            lemma_fill_mirrored_y(cx - hw / 2, cy - hw / 2, cy - hw / 2, w - cx + hw / 2, hw, 2 * cy);
        },
        None => {},
    }
}

proof fn lemma_mirror_y_assemble(
    l: Seq<HalfRect>,
    r: Seq<HalfRect>,
    u: Seq<HalfRect>,
    d: Seq<HalfRect>,
    l2: Seq<HalfRect>,
    r2: Seq<HalfRect>,
    u2: Seq<HalfRect>,
    d2: Seq<HalfRect>,
    h: int,
)
    requires
        mirror_sets_y(l2, l, h),
        mirror_sets_y(r2, r, h),
        mirror_sets_y(u2, d, h),
        mirror_sets_y(d2, u, h),
    ensures
        mirror_sets_y(l2 + r2 + u2 + d2, l + r + u + d, h),
{
    lemma_mirror_sets_y_union(l2, r2, l, r, h);
    lemma_mirror_sets_y_union(u2, d2, d, u, h);
    lemma_mirror_sets_y_union(l2 + r2, u2 + d2, l + r, u + d, h);
    assert(l2 + r2 + u2 + d2 =~= (l2 + r2) + (u2 + d2));
    assert(l + r + u + d =~= (l + r) + (u + d));
}

/// Law: the double-junction layout is symmetric top to bottom: for any cell
/// with its centre at `(cx, cy)`, `2 * cx` by `2 * cy` half pixels, and any
/// light width, exchanging the upper and lower arms mirrors the rectangles
/// about the horizontal centre line.
#[verifier::rlimit(80)]
#[verifier::spinoff_prover]
pub proof fn lemma_double_junction_mirror_up_down(seg: BoxSegments, cx: int, cy: int, light: int)
    requires
        valid_geometry(cx, cy, light, light, 2 * cx, 2 * cy),
        cx >= 0,
        cy >= 0,
    ensures
        mirror_sets_y(
            double_junction_strokes(swap_up_down(seg), cx, cy, light, 2 * cx, 2 * cy),
            double_junction_strokes(seg, cx, cy, light, 2 * cx, 2 * cy),
            2 * cy,
        ),
{
    let sw = swap_up_down(seg);
    let w = 2 * cx;
    let h = 2 * cy;
    lemma_junction_h_mirror_y(seg, cx, cy, light, w);
    lemma_junction_v_mirror_y(seg, cx, cy, light);
    let l = junction_left(seg, cx, cy, light);
    let r = junction_right(seg, cx, cy, light, w);
    let u = junction_up(seg, cx, cy, light);
    let d = junction_down(seg, cx, cy, light, h);
    let l2 = junction_left(sw, cx, cy, light);
    let r2 = junction_right(sw, cx, cy, light, w);
    let u2 = junction_up(sw, cx, cy, light);
    let d2 = junction_down(sw, cx, cy, light, h);
    lemma_mirror_y_assemble(l, r, u, d, l2, r2, u2, d2, h);
}

/// Law: the whole single- and double-line layout is symmetric top to bottom:
/// for any cell with its centre at `(cx, cy)` and any valid stroke widths,
/// exchanging the upper and lower arms of a character mirrors its strokes
/// about the horizontal centre line.
#[verifier::rlimit(80)]
#[verifier::spinoff_prover]
pub proof fn lemma_segment_strokes_mirror_up_down(
    seg: BoxSegments,
    cx: int,
    cy: int,
    light: int,
    heavy: int,
)
    requires
        valid_geometry(cx, cy, light, heavy, 2 * cx, 2 * cy),
        cx >= 0,
        cy >= 0,
    ensures
        mirror_sets_y(
            segment_strokes(swap_up_down(seg), cx, cy, light, heavy, 2 * cx, 2 * cy),
            segment_strokes(seg, cx, cy, light, heavy, 2 * cx, 2 * cy),
            2 * cy,
        ),
{
    let sw = swap_up_down(seg);
    let w = 2 * cx;
    let h = 2 * cy;
    assert(sw.has_double() == seg.has_double());
    if seg.has_double() {
        lemma_double_junction_mirror_up_down(seg, cx, cy, light);
    } else {
        lemma_single_arms_mirror_y(seg, cx, cy, light, heavy, w);
        let l = left_arm(seg, cx, cy, light, heavy);
        let r = right_arm(seg, cx, cy, light, heavy, w);
        let u = up_arm(seg, cx, cy, light, heavy);
        let d = down_arm(seg, cx, cy, light, heavy, h);
        let l2 = left_arm(sw, cx, cy, light, heavy);
        let r2 = right_arm(sw, cx, cy, light, heavy, w);
        let u2 = up_arm(sw, cx, cy, light, heavy);
        let d2 = down_arm(sw, cx, cy, light, heavy, h);
        lemma_mirror_y_assemble(l, r, u, d, l2, r2, u2, d2, h);
    }
}

/// Law: the stroke plan of a cell is symmetric top to bottom: exchanging the
/// upper and lower arms of a character mirrors its strokes about the
/// horizontal centre line.
pub proof fn lemma_strokes_mirror_up_down(seg: BoxSegments, width: u32, height: u32)
    ensures
        ({
            let light = 2 * light_stroke_px(height);
            mirror_sets_y(
                segment_strokes(
                    swap_up_down(seg),
                    width as int,
                    height as int,
                    light,
                    2 * light,
                    2 * width,
                    2 * height,
                ),
                segment_strokes(
                    seg,
                    width as int,
                    height as int,
                    light,
                    2 * light,
                    2 * width,
                    2 * height,
                ),
                2 * height,
            )
        }),
{
    lemma_light_px_bounds(height);
    let light = 2 * light_stroke_px(height);
    lemma_segment_strokes_mirror_up_down(seg, width as int, height as int, light, 2 * light);
}

/// Law: two box-drawing characters whose arms are mirror images top to
/// bottom, such as ┌ and └ or ╦ and ╩, are drawn as mirror images.
pub proof fn lemma_mirror_characters_up_down(a: char, b: char, width: u32, height: u32)
    requires
        segments_of(b) == swap_up_down(segments_of(a)),
    ensures
        mirror_sets_y(plan_rects(b, width, height), plan_rects(a, width, height), 2 * height),
{
    lemma_strokes_mirror_up_down(segments_of(a), width, height);
}

/// The solid box-drawing characters: lines, corners, tees and crosses of
/// every weight, and the half lines ╴ to ╻; not the dashed lines, the rounded
/// corners or the diagonals.
pub open spec fn is_solid_box_char(c: char) -> bool {
    ||| 0x2500 <= c as u32 <= 0x2503
    ||| 0x250C <= c as u32 <= 0x254B
    ||| 0x2550 <= c as u32 <= 0x256C
    ||| 0x2574 <= c as u32 <= 0x257B
}

/// The solid box-drawing character with the arms `seg`, if there is one.
pub open spec fn solid_char_with(seg: BoxSegments) -> char {
    let l = Some(LineWeight::Light);
    let hv = Some(LineWeight::Heavy);
    let db = Some(LineWeight::Double);
    let no: Option<LineWeight> = None;
    if seg == segments(l, l, no, no) {
        '─'
    } else if seg == segments(hv, hv, no, no) {
        '━'
    } else if seg == segments(no, no, l, l) {
        '│'
    } else if seg == segments(no, no, hv, hv) {
        '┃'
    } else if seg == segments(no, l, no, l) {
        '┌'
    } else if seg == segments(no, hv, no, l) {
        '┍'
    } else if seg == segments(no, l, no, hv) {
        '┎'
    } else if seg == segments(no, hv, no, hv) {
        '┏'
    } else if seg == segments(l, no, no, l) {
        '┐'
    } else if seg == segments(hv, no, no, l) {
        '┑'
    } else if seg == segments(l, no, no, hv) {
        '┒'
    } else if seg == segments(hv, no, no, hv) {
        '┓'
    } else if seg == segments(no, l, l, no) {
        '└'
    } else if seg == segments(no, hv, l, no) {
        '┕'
    } else if seg == segments(no, l, hv, no) {
        '┖'
    } else if seg == segments(no, hv, hv, no) {
        '┗'
    } else if seg == segments(l, no, l, no) {
        '┘'
    } else if seg == segments(hv, no, l, no) {
        '┙'
    } else if seg == segments(l, no, hv, no) {
        '┚'
    } else if seg == segments(hv, no, hv, no) {
        '┛'
    } else if seg == segments(no, l, l, l) {
        '├'
    } else if seg == segments(no, hv, l, l) {
        '┝'
    } else if seg == segments(no, l, hv, l) {
        '┞'
    } else if seg == segments(no, l, l, hv) {
        '┟'
    } else if seg == segments(no, l, hv, hv) {
        '┠'
    } else if seg == segments(no, hv, hv, l) {
        '┡'
    } else if seg == segments(no, hv, l, hv) {
        '┢'
    } else if seg == segments(no, hv, hv, hv) {
        '┣'
    } else if seg == segments(l, no, l, l) {
        '┤'
    } else if seg == segments(hv, no, l, l) {
        '┥'
    } else if seg == segments(l, no, hv, l) {
        '┦'
    } else if seg == segments(l, no, l, hv) {
        '┧'
    } else if seg == segments(l, no, hv, hv) {
        '┨'
    } else if seg == segments(hv, no, hv, l) {
        '┩'
    } else if seg == segments(hv, no, l, hv) {
        '┪'
    } else if seg == segments(hv, no, hv, hv) {
        '┫'
    } else if seg == segments(l, l, no, l) {
        '┬'
    } else if seg == segments(hv, l, no, l) {
        '┭'
    } else if seg == segments(l, hv, no, l) {
        '┮'
    } else if seg == segments(hv, hv, no, l) {
        '┯'
    } else if seg == segments(l, l, no, hv) {
        '┰'
    } else if seg == segments(hv, l, no, hv) {
        '┱'
    } else if seg == segments(l, hv, no, hv) {
        '┲'
    } else if seg == segments(hv, hv, no, hv) {
        '┳'
    } else if seg == segments(l, l, l, no) {
        '┴'
    } else if seg == segments(hv, l, l, no) {
        '┵'
    } else if seg == segments(l, hv, l, no) {
        '┶'
    } else if seg == segments(hv, hv, l, no) {
        '┷'
    } else if seg == segments(l, l, hv, no) {
        '┸'
    } else if seg == segments(hv, l, hv, no) {
        '┹'
    } else if seg == segments(l, hv, hv, no) {
        '┺'
    } else if seg == segments(hv, hv, hv, no) {
        '┻'
    } else if seg == segments(l, l, l, l) {
        '┼'
    } else if seg == segments(hv, l, l, l) {
        '┽'
    } else if seg == segments(l, hv, l, l) {
        '┾'
    } else if seg == segments(hv, hv, l, l) {
        '┿'
    } else if seg == segments(l, l, hv, l) {
        '╀'
    } else if seg == segments(l, l, l, hv) {
        '╁'
    } else if seg == segments(l, l, hv, hv) {
        '╂'
    } else if seg == segments(hv, l, hv, l) {
        '╃'
    } else if seg == segments(l, hv, hv, l) {
        '╄'
    } else if seg == segments(hv, l, l, hv) {
        '╅'
    } else if seg == segments(l, hv, l, hv) {
        '╆'
    } else if seg == segments(hv, hv, hv, l) {
        '╇'
    } else if seg == segments(hv, hv, l, hv) {
        '╈'
    } else if seg == segments(hv, l, hv, hv) {
        '╉'
    } else if seg == segments(l, hv, hv, hv) {
        '╊'
    } else if seg == segments(hv, hv, hv, hv) {
        '╋'
    } else if seg == segments(db, db, no, no) {
        '═'
    } else if seg == segments(no, no, db, db) {
        '║'
    } else if seg == segments(no, db, no, l) {
        '╒'
    } else if seg == segments(no, l, no, db) {
        '╓'
    } else if seg == segments(no, db, no, db) {
        '╔'
    } else if seg == segments(db, no, no, l) {
        '╕'
    } else if seg == segments(l, no, no, db) {
        '╖'
    } else if seg == segments(db, no, no, db) {
        '╗'
    } else if seg == segments(no, db, l, no) {
        '╘'
    } else if seg == segments(no, l, db, no) {
        '╙'
    } else if seg == segments(no, db, db, no) {
        '╚'
    } else if seg == segments(db, no, l, no) {
        '╛'
    } else if seg == segments(l, no, db, no) {
        '╜'
    } else if seg == segments(db, no, db, no) {
        '╝'
    } else if seg == segments(no, db, l, l) {
        '╞'
    } else if seg == segments(no, l, db, db) {
        '╟'
    } else if seg == segments(no, db, db, db) {
        '╠'
    } else if seg == segments(db, no, l, l) {
        '╡'
    } else if seg == segments(l, no, db, db) {
        '╢'
    } else if seg == segments(db, no, db, db) {
        '╣'
    } else if seg == segments(db, db, no, l) {
        '╤'
    } else if seg == segments(l, l, no, db) {
        '╥'
    } else if seg == segments(db, db, no, db) {
        '╦'
    } else if seg == segments(db, db, l, no) {
        '╧'
    } else if seg == segments(l, l, db, no) {
        '╨'
    } else if seg == segments(db, db, db, no) {
        '╩'
    } else if seg == segments(db, db, l, l) {
        '╪'
    } else if seg == segments(l, l, db, db) {
        '╫'
    } else if seg == segments(db, db, db, db) {
        '╬'
    } else if seg == segments(l, no, no, no) {
        '╴'
    } else if seg == segments(no, no, l, no) {
        '╵'
    } else if seg == segments(no, l, no, no) {
        '╶'
    } else if seg == segments(no, no, no, l) {
        '╷'
    } else if seg == segments(hv, no, no, no) {
        '╸'
    } else if seg == segments(no, no, hv, no) {
        '╹'
    } else if seg == segments(no, hv, no, no) {
        '╺'
    } else if seg == segments(no, no, no, hv) {
        '╻'
    } else {
        ' '
    }
}

#[verifier::rlimit(100)]
#[verifier::spinoff_prover]
proof fn lemma_solid_readback_0(c: char)
    requires
        0x2500 <= c as u32 <= 0x2503,
    ensures
        solid_char_with(segments_of(c)) == c,
{
        if c as u32 == 0x2500 {
            assert(c == '─');
        } else if c as u32 == 0x2501 {
            assert(c == '━');
        } else if c as u32 == 0x2502 {
            assert(c == '│');
        } else if c as u32 == 0x2503 {
            assert(c == '┃');
        }
}

#[verifier::rlimit(100)]
#[verifier::spinoff_prover]
proof fn lemma_solid_readback_1(c: char)
    requires
        0x250C <= c as u32 <= 0x254B,
    ensures
        solid_char_with(segments_of(c)) == c,
{
        if c as u32 == 0x250C {
            assert(c == '┌');
        } else if c as u32 == 0x250D {
            assert(c == '┍');
        } else if c as u32 == 0x250E {
            assert(c == '┎');
        } else if c as u32 == 0x250F {
            assert(c == '┏');
        } else if c as u32 == 0x2510 {
            assert(c == '┐');
        } else if c as u32 == 0x2511 {
            assert(c == '┑');
        } else if c as u32 == 0x2512 {
            assert(c == '┒');
        } else if c as u32 == 0x2513 {
            assert(c == '┓');
        } else if c as u32 == 0x2514 {
            assert(c == '└');
        } else if c as u32 == 0x2515 {
            assert(c == '┕');
        } else if c as u32 == 0x2516 {
            assert(c == '┖');
        } else if c as u32 == 0x2517 {
            assert(c == '┗');
        } else if c as u32 == 0x2518 {
            assert(c == '┘');
        } else if c as u32 == 0x2519 {
            assert(c == '┙');
        } else if c as u32 == 0x251A {
            assert(c == '┚');
        } else if c as u32 == 0x251B {
            assert(c == '┛');
        } else if c as u32 == 0x251C {
            assert(c == '├');
        } else if c as u32 == 0x251D {
            assert(c == '┝');
        } else if c as u32 == 0x251E {
            assert(c == '┞');
        } else if c as u32 == 0x251F {
            assert(c == '┟');
        } else if c as u32 == 0x2520 {
            assert(c == '┠');
        } else if c as u32 == 0x2521 {
            assert(c == '┡');
        } else if c as u32 == 0x2522 {
            assert(c == '┢');
        } else if c as u32 == 0x2523 {
            assert(c == '┣');
        } else if c as u32 == 0x2524 {
            assert(c == '┤');
        } else if c as u32 == 0x2525 {
            assert(c == '┥');
        } else if c as u32 == 0x2526 {
            assert(c == '┦');
        } else if c as u32 == 0x2527 {
            assert(c == '┧');
        } else if c as u32 == 0x2528 {
            assert(c == '┨');
        } else if c as u32 == 0x2529 {
            assert(c == '┩');
        } else if c as u32 == 0x252A {
            assert(c == '┪');
        } else if c as u32 == 0x252B {
            assert(c == '┫');
        } else if c as u32 == 0x252C {
            assert(c == '┬');
        } else if c as u32 == 0x252D {
            assert(c == '┭');
        } else if c as u32 == 0x252E {
            assert(c == '┮');
        } else if c as u32 == 0x252F {
            assert(c == '┯');
        } else if c as u32 == 0x2530 {
            assert(c == '┰');
        } else if c as u32 == 0x2531 {
            assert(c == '┱');
        } else if c as u32 == 0x2532 {
            assert(c == '┲');
        } else if c as u32 == 0x2533 {
            assert(c == '┳');
        } else if c as u32 == 0x2534 {
            assert(c == '┴');
        } else if c as u32 == 0x2535 {
            assert(c == '┵');
        } else if c as u32 == 0x2536 {
            assert(c == '┶');
        } else if c as u32 == 0x2537 {
            assert(c == '┷');
        } else if c as u32 == 0x2538 {
            assert(c == '┸');
        } else if c as u32 == 0x2539 {
            assert(c == '┹');
        } else if c as u32 == 0x253A {
            assert(c == '┺');
        } else if c as u32 == 0x253B {
            assert(c == '┻');
        } else if c as u32 == 0x253C {
            assert(c == '┼');
        } else if c as u32 == 0x253D {
            assert(c == '┽');
        } else if c as u32 == 0x253E {
            assert(c == '┾');
        } else if c as u32 == 0x253F {
            assert(c == '┿');
        } else if c as u32 == 0x2540 {
            assert(c == '╀');
        } else if c as u32 == 0x2541 {
            assert(c == '╁');
        } else if c as u32 == 0x2542 {
            assert(c == '╂');
        } else if c as u32 == 0x2543 {
            assert(c == '╃');
        } else if c as u32 == 0x2544 {
            assert(c == '╄');
        } else if c as u32 == 0x2545 {
            assert(c == '╅');
        } else if c as u32 == 0x2546 {
            assert(c == '╆');
        } else if c as u32 == 0x2547 {
            assert(c == '╇');
        } else if c as u32 == 0x2548 {
            assert(c == '╈');
        } else if c as u32 == 0x2549 {
            assert(c == '╉');
        } else if c as u32 == 0x254A {
            assert(c == '╊');
        } else if c as u32 == 0x254B {
            assert(c == '╋');
        }
}

#[verifier::rlimit(100)]
#[verifier::spinoff_prover]
proof fn lemma_solid_readback_2(c: char)
    requires
        0x2550 <= c as u32 <= 0x256C,
    ensures
        solid_char_with(segments_of(c)) == c,
{
        if c as u32 == 0x2550 {
            assert(c == '═');
        } else if c as u32 == 0x2551 {
            assert(c == '║');
        } else if c as u32 == 0x2552 {
            assert(c == '╒');
        } else if c as u32 == 0x2553 {
            assert(c == '╓');
        } else if c as u32 == 0x2554 {
            assert(c == '╔');
        } else if c as u32 == 0x2555 {
            assert(c == '╕');
        } else if c as u32 == 0x2556 {
            assert(c == '╖');
        } else if c as u32 == 0x2557 {
            assert(c == '╗');
        } else if c as u32 == 0x2558 {
            assert(c == '╘');
        } else if c as u32 == 0x2559 {
            assert(c == '╙');
        } else if c as u32 == 0x255A {
            assert(c == '╚');
        } else if c as u32 == 0x255B {
            assert(c == '╛');
        } else if c as u32 == 0x255C {
            assert(c == '╜');
        } else if c as u32 == 0x255D {
            assert(c == '╝');
        } else if c as u32 == 0x255E {
            assert(c == '╞');
        } else if c as u32 == 0x255F {
            assert(c == '╟');
        } else if c as u32 == 0x2560 {
            assert(c == '╠');
        } else if c as u32 == 0x2561 {
            assert(c == '╡');
        } else if c as u32 == 0x2562 {
            assert(c == '╢');
        } else if c as u32 == 0x2563 {
            assert(c == '╣');
        } else if c as u32 == 0x2564 {
            assert(c == '╤');
        } else if c as u32 == 0x2565 {
            assert(c == '╥');
        } else if c as u32 == 0x2566 {
            assert(c == '╦');
        } else if c as u32 == 0x2567 {
            assert(c == '╧');
        } else if c as u32 == 0x2568 {
            assert(c == '╨');
        } else if c as u32 == 0x2569 {
            assert(c == '╩');
        } else if c as u32 == 0x256A {
            assert(c == '╪');
        } else if c as u32 == 0x256B {
            assert(c == '╫');
        } else if c as u32 == 0x256C {
            assert(c == '╬');
        }
}

#[verifier::rlimit(100)]
#[verifier::spinoff_prover]
proof fn lemma_solid_readback_3(c: char)
    requires
        0x2574 <= c as u32 <= 0x257B,
    ensures
        solid_char_with(segments_of(c)) == c,
{
        if c as u32 == 0x2574 {
            assert(c == '╴');
        } else if c as u32 == 0x2575 {
            assert(c == '╵');
        } else if c as u32 == 0x2576 {
            assert(c == '╶');
        } else if c as u32 == 0x2577 {
            assert(c == '╷');
        } else if c as u32 == 0x2578 {
            assert(c == '╸');
        } else if c as u32 == 0x2579 {
            assert(c == '╹');
        } else if c as u32 == 0x257A {
            assert(c == '╺');
        } else if c as u32 == 0x257B {
            assert(c == '╻');
        }
}

/// Law: each solid box-drawing character has its own arms: no two of them
/// decompose alike, so none is drawn as another.
pub proof fn lemma_solid_chars_distinct(c1: char, c2: char)
    requires
        is_solid_box_char(c1),
        is_solid_box_char(c2),
        c1 != c2,
    ensures
        segments_of(c1) != segments_of(c2),
{
    lemma_solid_readback(c1);
    lemma_solid_readback(c2);
}

/// The arms of a solid character determine it.
pub proof fn lemma_solid_readback(c: char)
    requires
        is_solid_box_char(c),
    ensures
        solid_char_with(segments_of(c)) == c,
{
    if c as u32 <= 0x2503 {
        lemma_solid_readback_0(c);
    } else if c as u32 <= 0x254B {
        lemma_solid_readback_1(c);
    } else if c as u32 <= 0x256C {
        lemma_solid_readback_2(c);
    } else {
        lemma_solid_readback_3(c);
    }
}

/// Law: only the characters that draw lines have arms. The diagonals ╱ ╲ ╳
/// (U+2571 to U+2573), the joined light-and-heavy half lines ╼ ╽ ╾ ╿
/// (U+257C to U+257F) and every character outside the box-drawing block
/// decompose to no arm at all, so nothing is drawn for them.
#[verifier::rlimit(80)]
#[verifier::spinoff_prover]
pub proof fn lemma_unlisted_chars_have_no_arms(c: char)
    requires
        0x2571 <= c as u32 <= 0x2573 || 0x257C <= c as u32 <= 0x257F || (c as u32) < 0x2500
            || c as u32 > 0x257F,
    ensures
        segments_of(c) == no_segments(),
{
    if c as u32 == 0x2571 {
        assert(c == '╱');
    } else if c as u32 == 0x2572 {
        assert(c == '╲');
    } else if c as u32 == 0x2573 {
        assert(c == '╳');
    } else if c as u32 == 0x257C {
        assert(c == '╼');
    } else if c as u32 == 0x257D {
        assert(c == '╽');
    } else if c as u32 == 0x257E {
        assert(c == '╾');
    } else if c as u32 == 0x257F {
        assert(c == '╿');
    }
}

/// The solid line that a dashed box-drawing character is a dashed form of:
/// U+2500 ─, U+2501 ━, U+2502 │ or U+2503 ┃, by the place of the dashed
/// character in its group of four.
pub open spec fn solid_of_dashed(c: char) -> u32 {
    (0x2500 + (c as u32 - 0x2504) % 4) as u32
}

/// Law: a dashed line (U+2504 to U+250B, U+254C to U+254F) has the arms of
/// the solid line of the same direction and weight, and a rounded corner
/// (U+256D to U+2570) those of the light corner it rounds: ╭ ┌, ╮ ┐, ╯ ┘,
/// ╰ └. No other character that is not solid decomposes like a solid one.
#[verifier::rlimit(80)]
#[verifier::spinoff_prover]
pub proof fn lemma_dashed_and_rounded_variants(c: char)
    ensures
        0x2504 <= c as u32 <= 0x250B || 0x254C <= c as u32 <= 0x254F ==> segments_of(c)
            == segments_of(solid_of_dashed(c) as char),
        c as u32 == 0x256D ==> segments_of(c) == segments_of('┌'),
        c as u32 == 0x256E ==> segments_of(c) == segments_of('┐'),
        c as u32 == 0x256F ==> segments_of(c) == segments_of('┘'),
        c as u32 == 0x2570 ==> segments_of(c) == segments_of('└'),
{
    if c as u32 == 0x2504 {
        assert(c == '┄');
        assert(solid_of_dashed(c) == 0x2500);
        assert((0x2500u32) as char == '─');
    } else if c as u32 == 0x2505 {
        assert(c == '┅');
        assert(solid_of_dashed(c) == 0x2501);
        assert((0x2501u32) as char == '━');
    } else if c as u32 == 0x2506 {
        assert(c == '┆');
        assert(solid_of_dashed(c) == 0x2502);
        assert((0x2502u32) as char == '│');
    } else if c as u32 == 0x2507 {
        assert(c == '┇');
        assert(solid_of_dashed(c) == 0x2503);
        assert((0x2503u32) as char == '┃');
    } else if c as u32 == 0x2508 {
        assert(c == '┈');
        assert(solid_of_dashed(c) == 0x2500);
        assert((0x2500u32) as char == '─');
    } else if c as u32 == 0x2509 {
        assert(c == '┉');
        assert(solid_of_dashed(c) == 0x2501);
        assert((0x2501u32) as char == '━');
    } else if c as u32 == 0x250A {
        assert(c == '┊');
        assert(solid_of_dashed(c) == 0x2502);
        assert((0x2502u32) as char == '│');
    } else if c as u32 == 0x250B {
        assert(c == '┋');
        assert(solid_of_dashed(c) == 0x2503);
        assert((0x2503u32) as char == '┃');
    } else if c as u32 == 0x254C {
        assert(c == '╌');
        assert(solid_of_dashed(c) == 0x2500);
        assert((0x2500u32) as char == '─');
    } else if c as u32 == 0x254D {
        assert(c == '╍');
        assert(solid_of_dashed(c) == 0x2501);
        assert((0x2501u32) as char == '━');
    } else if c as u32 == 0x254E {
        assert(c == '╎');
        assert(solid_of_dashed(c) == 0x2502);
        assert((0x2502u32) as char == '│');
    } else if c as u32 == 0x254F {
        assert(c == '╏');
        assert(solid_of_dashed(c) == 0x2503);
        assert((0x2503u32) as char == '┃');
    }
    if c as u32 == 0x256D {
        assert(c == '╭');
    } else if c as u32 == 0x256E {
        assert(c == '╮');
    } else if c as u32 == 0x256F {
        assert(c == '╯');
    } else if c as u32 == 0x2570 {
        assert(c == '╰');
    }
}

/// Law: every solid box-drawing character has at least one arm.
pub proof fn lemma_solid_chars_have_arms(c: char)
    requires
        is_solid_box_char(c),
    ensures
        segments_of(c) != no_segments(),
{
    lemma_solid_readback(c);
    assert(solid_char_with(no_segments()) == ' ');
}

// ---------------------------------------------------------------------------
// Laws on stroke widths and on which half of the cell strokes lie in
// ---------------------------------------------------------------------------

/// The arm `dir` of `seg`: 0 left, 1 right, 2 up, 3 down.
pub open spec fn arm_of(seg: BoxSegments, dir: int) -> Option<LineWeight> {
    if dir == 0 {
        seg.left
    } else if dir == 1 {
        seg.right
    } else if dir == 2 {
        seg.up
    } else {
        seg.down
    }
}

/// Width in half pixels of the one stroke of a light or heavy arm in a cell
/// `height` pixels tall: the light width `2 * light_stroke_px(height)`, twice
/// that for a heavy arm.
pub open spec fn single_width(wt: LineWeight, height: u32) -> int {
    if wt == LineWeight::Heavy {
        4 * light_stroke_px(height)
    } else {
        2 * light_stroke_px(height)
    }
}

/// The one stroke, `t` half pixels thick, of an arm in direction `dir` of a
/// `width` by `height` cell: centred on the centre line of the cell, from
/// the arm's edge to half the thickness past the centre.
pub open spec fn single_stroke(dir: int, t: int, width: u32, height: u32) -> HalfRect {
    let cx = width as int;
    let cy = height as int;
    let (x, y, w, h) = if dir == 0 {
        (0, cy - t / 2, cx + t / 2, t)
    } else if dir == 1 {
        (cx - t / 2, cy - t / 2, cx + t / 2, t)
    } else if dir == 2 {
        (cx - t / 2, 0, t, cy + t / 2)
    } else {
        (cx - t / 2, cy - t / 2, t, cy + t / 2)
    };
    HalfRect { x: x as i64, y: y as i64, width: w as i64, height: h as i64 }
}

/// The stroke of the arm `dir` of `seg`, at its weight's width.
pub open spec fn stroke_of(seg: BoxSegments, dir: int, width: u32, height: u32) -> HalfRect {
    single_stroke(dir, single_width(arm_of(seg, dir)->0, height), width, height)
}

/// Whether the arm `dir` is drawn with one stroke: light or heavy.
pub open spec fn single_arm(seg: BoxSegments, dir: int) -> bool {
    arm_of(seg, dir) == Some(LineWeight::Light) || arm_of(seg, dir) == Some(LineWeight::Heavy)
}

#[verifier::rlimit(80)]
#[verifier::spinoff_prover]
proof fn lemma_single_arm_part(seg: BoxSegments, width: u32, height: u32, dir: int)
    requires
        0 <= dir < 4,
        single_arm(seg, dir),
    ensures
        arm_parts(seg, width, height)[dir] == seq![stroke_of(seg, dir, width, height)],
{
    lemma_light_px_bounds(height);
    let p = arm_parts(seg, width, height)[dir];
    assert(p =~= seq![stroke_of(seg, dir, width, height)]);
}

/// Law: a light arm is drawn as one stroke exactly the light width thick, and
/// a heavy arm as one stroke exactly twice that, centred on the centre line
/// of the cell and running from the arm's edge to just past the centre;
/// so a light vertical line is as wide as a light horizontal line is tall.
/// In a character without double lines, these strokes are all that is drawn.
#[verifier::rlimit(80)]
#[verifier::spinoff_prover]
pub proof fn lemma_single_arm_strokes(ch: char, width: u32, height: u32)
    requires
        !spec_is_rounded_corner(ch),
    ensures
        forall|dir: int|
            0 <= dir < 4 && single_arm(segments_of(ch), dir) ==> #[trigger] plan_rects(
                ch,
                width,
                height,
            ).contains(stroke_of(segments_of(ch), dir, width, height)),
        !segments_of(ch).has_double() ==> forall|r: HalfRect|
            #[trigger] plan_rects(ch, width, height).contains(r) ==> {
                ||| segments_of(ch).left is Some && r == stroke_of(segments_of(ch), 0, width, height)
                ||| segments_of(ch).right is Some && r == stroke_of(segments_of(ch), 1, width, height)
                ||| segments_of(ch).up is Some && r == stroke_of(segments_of(ch), 2, width, height)
                ||| segments_of(ch).down is Some && r == stroke_of(segments_of(ch), 3, width, height)
            },
{
    let seg = segments_of(ch);
    let parts = arm_parts(seg, width, height);
    let rects = plan_rects(ch, width, height);
    assert(rects == parts[0] + parts[1] + parts[2] + parts[3]);
    assert forall|dir: int| 0 <= dir < 4 && single_arm(seg, dir) implies #[trigger] rects.contains(
        stroke_of(seg, dir, width, height),
    ) by {
        lemma_single_arm_part(seg, width, height, dir);
        let r = stroke_of(seg, dir, width, height);
        assert(parts[dir][0] == r);
        lemma_concat4_contains(parts[0], parts[1], parts[2], parts[3], r);
    }
    if !seg.has_double() {
        assert forall|r: HalfRect| #[trigger] rects.contains(r) implies {
            ||| seg.left is Some && r == stroke_of(seg, 0, width, height)
            ||| seg.right is Some && r == stroke_of(seg, 1, width, height)
            ||| seg.up is Some && r == stroke_of(seg, 2, width, height)
            ||| seg.down is Some && r == stroke_of(seg, 3, width, height)
        } by {
            lemma_concat4_contains(parts[0], parts[1], parts[2], parts[3], r);
            if seg.left is Some {
                lemma_single_arm_part(seg, width, height, 0);
            } else {
                assert(parts[0].len() == 0);
            }
            if seg.right is Some {
                lemma_single_arm_part(seg, width, height, 1);
            } else {
                assert(parts[1].len() == 0);
            }
            if seg.up is Some {
                lemma_single_arm_part(seg, width, height, 2);
            } else {
                assert(parts[2].len() == 0);
            }
            if seg.down is Some {
                lemma_single_arm_part(seg, width, height, 3);
            } else {
                assert(parts[3].len() == 0);
            }
        }
    }
}

/// How far past the centre line strokes may reach, in half pixels: half the
/// gap of a double line plus half a light stroke. Heavy strokes reach less.
pub open spec fn reach_bound(height: u32) -> int {
    half_gap_of(height) + light_stroke_px(height)
}

/// The part of the cell that the strokes of arm `dir` stay in: the arm's own
/// side of the cell, widened by `reach_bound` around the centre lines.
pub open spec fn arm_box(dir: int, r: HalfRect, width: u32, height: u32) -> bool {
    let cx = width as int;
    let cy = height as int;
    let b = reach_bound(height);
    let (x0, x1, y0, y1) = if dir == 0 {
        (0, cx + b, cy - b, cy + b)
    } else if dir == 1 {
        (cx - b, 2 * cx, cy - b, cy + b)
    } else if dir == 2 {
        (cx - b, cx + b, 0, cy + b)
    } else {
        (cx - b, cx + b, cy - b, 2 * cy)
    };
    x0 <= r.x && r.x + r.width <= x1 && y0 <= r.y && r.y + r.height <= y1
}

#[verifier::rlimit(80)]
#[verifier::spinoff_prover]
proof fn lemma_left_arm_in_box(seg: BoxSegments, width: u32, height: u32)
    ensures
        forall|r: HalfRect|
            #[trigger] arm_parts(seg, width, height)[0].contains(r) ==> arm_box(0, r, width, height),
{
    lemma_light_px_bounds(height);
    let p = arm_parts(seg, width, height)[0];
    let light = 2 * light_stroke_px(height);
    let cx = width as int;
    let cy = height as int;
    let half_gap = double_gap(light) / 2;
    let hlw = light / 2;
    assert forall|r: HalfRect| #[trigger] p.contains(r) implies arm_box(0, r, width, height) by {
        if single_arm(seg, 0) {
            lemma_single_arm_part(seg, width, height, 0);
            assert(p[0] == r);
        } else if arm_of(seg, 0) is None {
            assert(p.len() == 0);
        } else {
            assert(seg.has_double());
            let top = near_reach(cx, half_gap, hlw, is_v_double(seg), seg.up is Some);
            let bottom = near_reach(cx, half_gap, hlw, is_v_double(seg), seg.down is Some);
            let a = fill(0, cy - half_gap - hlw, top, light);
            let b = fill(0, cy + half_gap - hlw, bottom, light);
            assert(p == a + b);
            lemma_concat2_contains(a, b, r);
            if a.contains(r) {
                lemma_fill_nonneg(0, cy - half_gap - hlw, top, light, r);
            } else {
                lemma_fill_nonneg(0, cy + half_gap - hlw, bottom, light, r);
            }
        }
    }
}

#[verifier::rlimit(80)]
#[verifier::spinoff_prover]
proof fn lemma_right_arm_in_box(seg: BoxSegments, width: u32, height: u32)
    ensures
        forall|r: HalfRect|
            #[trigger] arm_parts(seg, width, height)[1].contains(r) ==> arm_box(1, r, width, height),
{
    lemma_light_px_bounds(height);
    let p = arm_parts(seg, width, height)[1];
    let light = 2 * light_stroke_px(height);
    let cx = width as int;
    let cy = height as int;
    let half_gap = double_gap(light) / 2;
    let hlw = light / 2;
    assert forall|r: HalfRect| #[trigger] p.contains(r) implies arm_box(1, r, width, height) by {
        if single_arm(seg, 1) {
            lemma_single_arm_part(seg, width, height, 1);
            assert(p[0] == r);
        } else if arm_of(seg, 1) is None {
            assert(p.len() == 0);
        } else {
            assert(seg.has_double());
            let top = 2 * cx - near_reach(cx, half_gap, hlw, is_v_double(seg), seg.up is Some);
            let bottom = 2 * cx - near_reach(cx, half_gap, hlw, is_v_double(seg), seg.down is Some);
            let a = fill(top, cy - half_gap - hlw, 2 * cx - top, light);
            let b = fill(bottom, cy + half_gap - hlw, 2 * cx - bottom, light);
            assert(p == a + b);
            lemma_concat2_contains(a, b, r);
            if a.contains(r) {
                lemma_fill_nonneg(top, cy - half_gap - hlw, 2 * cx - top, light, r);
            } else {
                lemma_fill_nonneg(bottom, cy + half_gap - hlw, 2 * cx - bottom, light, r);
            }
        }
    }
}

#[verifier::rlimit(80)]
#[verifier::spinoff_prover]
proof fn lemma_up_arm_in_box(seg: BoxSegments, width: u32, height: u32)
    ensures
        forall|r: HalfRect|
            #[trigger] arm_parts(seg, width, height)[2].contains(r) ==> arm_box(2, r, width, height),
{
    lemma_light_px_bounds(height);
    let p = arm_parts(seg, width, height)[2];
    let light = 2 * light_stroke_px(height);
    let cx = width as int;
    let cy = height as int;
    let half_gap = double_gap(light) / 2;
    let hlw = light / 2;
    assert forall|r: HalfRect| #[trigger] p.contains(r) implies arm_box(2, r, width, height) by {
        if single_arm(seg, 2) {
            lemma_single_arm_part(seg, width, height, 2);
            assert(p[0] == r);
        } else if arm_of(seg, 2) is None {
            assert(p.len() == 0);
        } else {
            assert(seg.has_double());
            let left = near_reach(cy, half_gap, hlw, is_h_double(seg), seg.left is Some);
            let right = near_reach(cy, half_gap, hlw, is_h_double(seg), seg.right is Some);
            let a = fill(cx - half_gap - hlw, 0, light, left);
            let b = fill(cx + half_gap - hlw, 0, light, right);
            assert(p == a + b);
            lemma_concat2_contains(a, b, r);
            if a.contains(r) {
                lemma_fill_nonneg(cx - half_gap - hlw, 0, light, left, r);
            } else {
                lemma_fill_nonneg(cx + half_gap - hlw, 0, light, right, r);
            }
        }
    }
}

#[verifier::rlimit(80)]
#[verifier::spinoff_prover]
proof fn lemma_down_arm_in_box(seg: BoxSegments, width: u32, height: u32)
    ensures
        forall|r: HalfRect|
            #[trigger] arm_parts(seg, width, height)[3].contains(r) ==> arm_box(3, r, width, height),
{
    lemma_light_px_bounds(height);
    let p = arm_parts(seg, width, height)[3];
    let light = 2 * light_stroke_px(height);
    let cx = width as int;
    let cy = height as int;
    let half_gap = double_gap(light) / 2;
    let hlw = light / 2;
    assert forall|r: HalfRect| #[trigger] p.contains(r) implies arm_box(3, r, width, height) by {
        if single_arm(seg, 3) {
            lemma_single_arm_part(seg, width, height, 3);
            assert(p[0] == r);
        } else if arm_of(seg, 3) is None {
            assert(p.len() == 0);
        } else {
            assert(seg.has_double());
            let left = 2 * cy - near_reach(cy, half_gap, hlw, is_h_double(seg), seg.left is Some);
            let right = 2 * cy - near_reach(cy, half_gap, hlw, is_h_double(seg), seg.right is Some);
            let a = fill(cx - half_gap - hlw, left, light, 2 * cy - left);
            let b = fill(cx + half_gap - hlw, right, light, 2 * cy - right);
            assert(p == a + b);
            lemma_concat2_contains(a, b, r);
            if a.contains(r) {
                lemma_fill_nonneg(cx - half_gap - hlw, left, light, 2 * cy - left, r);
            } else {
                lemma_fill_nonneg(cx + half_gap - hlw, right, light, 2 * cy - right, r);
            }
        }
    }
}

/// Law: the strokes of a character stay on the sides of the cell where it has
/// arms. Where it has no left arm, no stroke reaches further left than
/// `reach_bound` before the vertical centre line; where it has no right arm,
/// none further right than that past it; likewise above and below the
/// horizontal centre line. So no stroke of a double arm runs into a half of
/// the cell where the character has no arm.
#[verifier::rlimit(80)]
#[verifier::spinoff_prover]
pub proof fn lemma_strokes_stay_on_their_sides(ch: char, width: u32, height: u32)
    requires
        !spec_is_rounded_corner(ch),
    ensures
        segments_of(ch).left is None ==> forall|r: HalfRect|
            #[trigger] plan_rects(ch, width, height).contains(r) ==> r.x >= width - reach_bound(height),
        segments_of(ch).right is None ==> forall|r: HalfRect|
            #[trigger] plan_rects(ch, width, height).contains(r) ==> r.x + r.width <= width
                + reach_bound(height),
        segments_of(ch).up is None ==> forall|r: HalfRect|
            #[trigger] plan_rects(ch, width, height).contains(r) ==> r.y >= height - reach_bound(height),
        segments_of(ch).down is None ==> forall|r: HalfRect|
            #[trigger] plan_rects(ch, width, height).contains(r) ==> r.y + r.height <= height
                + reach_bound(height),
{
    let seg = segments_of(ch);
    let parts = arm_parts(seg, width, height);
    let rects = plan_rects(ch, width, height);
    assert(rects == parts[0] + parts[1] + parts[2] + parts[3]);
    lemma_left_arm_in_box(seg, width, height);
    lemma_right_arm_in_box(seg, width, height);
    lemma_up_arm_in_box(seg, width, height);
    lemma_down_arm_in_box(seg, width, height);
    assert forall|r: HalfRect| #[trigger] rects.contains(r) implies {
        &&& seg.left is None ==> r.x >= width - reach_bound(height)
        &&& seg.right is None ==> r.x + r.width <= width + reach_bound(height)
        &&& seg.up is None ==> r.y >= height - reach_bound(height)
        &&& seg.down is None ==> r.y + r.height <= height + reach_bound(height)
    } by {
        lemma_concat4_contains(parts[0], parts[1], parts[2], parts[3], r);
        if seg.left is None {
            assert(parts[0].len() == 0);
        }
        if seg.right is None {
            assert(parts[1].len() == 0);
        }
        if seg.up is None {
            assert(parts[2].len() == 0);
        }
        if seg.down is None {
            assert(parts[3].len() == 0);
        }
    }
}

/// A rectangle given by integer coordinates.
pub open spec fn rect_at(x: int, y: int, w: int, h: int) -> HalfRect {
    HalfRect { x: x as i64, y: y as i64, width: w as i64, height: h as i64 }
}

/// Law: where no double line crosses it, each stroke of a double arm runs
/// from the arm's edge to just past the centre line, a light stroke wide, at
/// the gap's distance on either side of the centre: the strokes of a right
/// double arm start at `width - light_stroke_px(height)` (half a light stroke
/// before the centre) whatever other arms the character has, and those of a
/// left arm end half a light stroke past it; likewise up and down.
#[verifier::rlimit(80)]
#[verifier::spinoff_prover]
pub proof fn lemma_uncrossed_double_arms(ch: char, width: u32, height: u32)
    requires
        !spec_is_rounded_corner(ch),
    ensures
        ({
            let seg = segments_of(ch);
            let rects = plan_rects(ch, width, height);
            let w = width as int;
            let h = height as int;
            let lp = light_stroke_px(height);
            let hg = half_gap_of(height);
            &&& seg.left == Some(LineWeight::Double) && !is_v_double(seg) ==> rects.contains(
                rect_at(0, h - hg - lp, w + lp, 2 * lp),
            ) && rects.contains(rect_at(0, h + hg - lp, w + lp, 2 * lp))
            &&& seg.right == Some(LineWeight::Double) && !is_v_double(seg) ==> rects.contains(
                rect_at(w - lp, h - hg - lp, w + lp, 2 * lp),
            ) && rects.contains(rect_at(w - lp, h + hg - lp, w + lp, 2 * lp))
            &&& seg.up == Some(LineWeight::Double) && !is_h_double(seg) ==> rects.contains(
                rect_at(w - hg - lp, 0, 2 * lp, h + lp),
            ) && rects.contains(rect_at(w + hg - lp, 0, 2 * lp, h + lp))
            &&& seg.down == Some(LineWeight::Double) && !is_h_double(seg) ==> rects.contains(
                rect_at(w - hg - lp, h - lp, 2 * lp, h + lp),
            ) && rects.contains(rect_at(w + hg - lp, h - lp, 2 * lp, h + lp))
        }),
{
    lemma_light_px_bounds(height);
    let seg = segments_of(ch);
    let parts = arm_parts(seg, width, height);
    let rects = plan_rects(ch, width, height);
    assert(rects == parts[0] + parts[1] + parts[2] + parts[3]);
    if arm_of(seg, 0) == Some(LineWeight::Double) && !is_v_double(seg) {
        assert(parts[0].len() == 2);
        lemma_concat4_contains(parts[0], parts[1], parts[2], parts[3], parts[0][0]);
        lemma_concat4_contains(parts[0], parts[1], parts[2], parts[3], parts[0][1]);
    }
    if arm_of(seg, 1) == Some(LineWeight::Double) && !is_v_double(seg) {
        assert(parts[1].len() == 2);
        lemma_concat4_contains(parts[0], parts[1], parts[2], parts[3], parts[1][0]);
        lemma_concat4_contains(parts[0], parts[1], parts[2], parts[3], parts[1][1]);
    }
    if arm_of(seg, 2) == Some(LineWeight::Double) && !is_h_double(seg) {
        assert(parts[2].len() == 2);
        lemma_concat4_contains(parts[0], parts[1], parts[2], parts[3], parts[2][0]);
        lemma_concat4_contains(parts[0], parts[1], parts[2], parts[3], parts[2][1]);
    }
    if arm_of(seg, 3) == Some(LineWeight::Double) && !is_h_double(seg) {
        assert(parts[3].len() == 2);
        lemma_concat4_contains(parts[0], parts[1], parts[2], parts[3], parts[3][0]);
        lemma_concat4_contains(parts[0], parts[1], parts[2], parts[3], parts[3][1]);
    }
    assert(arm_of(seg, 0) == seg.left && arm_of(seg, 1) == seg.right && arm_of(seg, 2) == seg.up
        && arm_of(seg, 3) == seg.down);
}

} // verus!
