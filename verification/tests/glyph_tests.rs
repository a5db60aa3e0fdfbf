use custom_glyphs::box_drawing::BoxPlan;
use custom_glyphs::try_rasterize_custom_glyph;

fn no_paint(_plan: BoxPlan) -> Vec<u32> {
    panic!("not a box-drawing character")
}

fn no_dots(_w: u32, _h: u32) -> Vec<Vec<usize>> {
    panic!("not a braille character")
}

#[test]
fn other_characters_fall_through() {
    for c in ['A', ' ', '\u{24FF}', '\u{25A0}', '\u{27FF}', '\u{2900}'] {
        assert_eq!(try_rasterize_custom_glyph(c, 8, 16, no_paint, no_dots), None);
    }
}

#[test]
fn block_elements_are_rasterized() {
    let img = try_rasterize_custom_glyph('█', 3, 2, no_paint, no_dots).unwrap();
    assert_eq!(img, vec![0xFFFF_FFFFu32; 6]);
    let first = try_rasterize_custom_glyph('\u{2580}', 1, 2, no_paint, no_dots).unwrap();
    assert_eq!(first, vec![0xFFFF_FFFF, 0]);
    let last = try_rasterize_custom_glyph('\u{259F}', 2, 2, no_paint, no_dots).unwrap();
    assert_eq!(last, vec![0, 0xFFFF_FFFF, 0xFFFF_FFFF, 0xFFFF_FFFF]);
}

#[test]
fn braille_uses_the_dot_discs() {
    let dots = |w: u32, h: u32| -> Vec<Vec<usize>> {
        assert_eq!((w, h), (2, 4));
        (0..8).map(|c| vec![c]).collect()
    };
    let img = try_rasterize_custom_glyph('\u{2801}', 2, 4, no_paint, dots).unwrap();
    assert_eq!(img, vec![0xFFFF_FFFF, 0, 0, 0, 0, 0, 0, 0]);
    let blank = try_rasterize_custom_glyph('\u{2800}', 2, 4, no_paint, dots).unwrap();
    assert_eq!(blank, vec![0; 8]);
    let last = try_rasterize_custom_glyph('\u{28FF}', 2, 4, no_paint, dots).unwrap();
    assert_eq!(last, vec![0xFFFF_FFFF; 8]);
}

#[test]
fn box_drawing_goes_through_the_painter() {
    let paint = |plan: BoxPlan| -> Vec<u32> {
        assert_eq!((plan.width, plan.height), (1, 2));
        vec![0xFF00_00FF, 0]
    };
    for c in ['\u{2500}', '\u{257B}', '╭'] {
        let img = try_rasterize_custom_glyph(c, 1, 2, paint, no_dots).unwrap();
        assert_eq!(img, vec![0xFFFF_0000, 0]);
    }
}

#[test]
fn box_character_without_arms_is_transparent() {
    let img = try_rasterize_custom_glyph('\u{257F}', 4, 8, no_paint, no_dots).unwrap();
    assert_eq!(img, vec![0u32; 32]);
}
