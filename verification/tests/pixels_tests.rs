use custom_glyphs::pixels::{convert_argb_to_rgba, pixel_argb_to_rgba, transparent_image, TRANSPARENT, WHITE};

#[test]
fn converts_argb_words_to_rgba() {
    let mut image = vec![0x1122_3344u32, 0xFF00_00FF, 0x80FF_0000];
    convert_argb_to_rgba(&mut image);
    assert_eq!(image, vec![0x1144_3322u32, 0xFFFF_0000, 0x8000_00FF]);
}

#[test]
fn conversion_keeps_channel_values() {
    let p = 0xA1B2_C3D4u32;
    let q = pixel_argb_to_rgba(p);
    assert_eq!(q & 0xFF, 0xB2); // red
    assert_eq!((q >> 8) & 0xFF, 0xC3); // green
    assert_eq!((q >> 16) & 0xFF, 0xD4); // blue
    assert_eq!(q >> 24, 0xA1); // alpha
}

#[test]
fn conversion_twice_is_identity() {
    for p in [0u32, 1, 0x1234_5678, 0xDEAD_BEEF, 0xFFFF_FFFF, 0x00FF_00FF] {
        assert_eq!(pixel_argb_to_rgba(pixel_argb_to_rgba(p)), p);
    }
}

#[test]
fn white_and_transparent_are_unchanged() {
    let mut image = vec![WHITE, TRANSPARENT];
    convert_argb_to_rgba(&mut image);
    assert_eq!(image, vec![WHITE, TRANSPARENT]);
}

#[test]
fn empty_buffer_converts_to_empty() {
    let mut image: Vec<u32> = Vec::new();
    convert_argb_to_rgba(&mut image);
    assert!(image.is_empty());
}

#[test]
fn transparent_image_has_requested_size() {
    assert_eq!(transparent_image(5), vec![0u32; 5]);
    assert!(transparent_image(0).is_empty());
}
