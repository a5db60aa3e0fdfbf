use custom_glyphs::block::{fill_region, fill_shade, rasterize_block_element};

const W: u32 = 0xFFFF_FFFF;

#[test]
fn upper_half_block() {
    assert_eq!(rasterize_block_element('▀', 2, 4), vec![W, W, W, W, 0, 0, 0, 0]);
}

#[test]
fn lower_half_block_odd_height() {
    // h / 2 = 1, so rows 1 and 2 are lit.
    assert_eq!(rasterize_block_element('▄', 2, 3), vec![0, 0, W, W, W, W]);
}

#[test]
fn lower_eighth_blocks() {
    assert_eq!(rasterize_block_element('▁', 1, 8), vec![0, 0, 0, 0, 0, 0, 0, W]);
    assert_eq!(rasterize_block_element('▂', 1, 8), vec![0, 0, 0, 0, 0, 0, W, W]);
    assert_eq!(rasterize_block_element('▇', 1, 8), vec![0, W, W, W, W, W, W, W]);
    // 3 * 5 / 8 = 1 row of a 5-row cell.
    assert_eq!(rasterize_block_element('▃', 1, 5), vec![0, 0, 0, 0, W]);
}

#[test]
fn left_blocks() {
    assert_eq!(rasterize_block_element('▏', 8, 1), vec![W, 0, 0, 0, 0, 0, 0, 0]);
    assert_eq!(rasterize_block_element('▌', 8, 1), vec![W, W, W, W, 0, 0, 0, 0]);
    assert_eq!(rasterize_block_element('▉', 8, 1), vec![W, W, W, W, W, W, W, 0]);
    assert_eq!(rasterize_block_element('▊', 4, 1), vec![W, W, W, 0]);
}

#[test]
fn right_half_block_odd_width() {
    assert_eq!(rasterize_block_element('▐', 3, 1), vec![0, W, W]);
}

#[test]
fn full_block() {
    assert_eq!(rasterize_block_element('█', 2, 2), vec![W; 4]);
}

#[test]
fn shades() {
    assert_eq!(
        rasterize_block_element('░', 4, 2),
        vec![W, 0, 0, 0, 0, 0, W, 0]
    );
    assert_eq!(rasterize_block_element('▒', 4, 1), vec![W, W, 0, 0]);
    assert_eq!(rasterize_block_element('▓', 4, 1), vec![W, W, W, 0]);
}

#[test]
fn quadrants() {
    assert_eq!(rasterize_block_element('▘', 2, 2), vec![W, 0, 0, 0]);
    assert_eq!(rasterize_block_element('▝', 2, 2), vec![0, W, 0, 0]);
    assert_eq!(rasterize_block_element('▖', 2, 2), vec![0, 0, W, 0]);
    assert_eq!(rasterize_block_element('▗', 2, 2), vec![0, 0, 0, W]);
    assert_eq!(rasterize_block_element('▙', 2, 2), vec![W, 0, W, W]);
    assert_eq!(rasterize_block_element('▚', 2, 2), vec![W, 0, 0, W]);
    assert_eq!(rasterize_block_element('▛', 2, 2), vec![W, W, W, 0]);
    assert_eq!(rasterize_block_element('▜', 2, 2), vec![W, W, 0, W]);
    assert_eq!(rasterize_block_element('▞', 2, 2), vec![0, W, W, 0]);
    assert_eq!(rasterize_block_element('▟', 2, 2), vec![0, W, W, W]);
}

#[test]
fn unlisted_block_element_is_transparent() {
    // U+2594 UPPER ONE EIGHTH BLOCK and U+2595 RIGHT ONE EIGHTH BLOCK have no shape.
    assert_eq!(rasterize_block_element('▔', 3, 3), vec![0; 9]);
    assert_eq!(rasterize_block_element('▕', 3, 3), vec![0; 9]);
}

#[test]
fn empty_cell() {
    assert!(rasterize_block_element('█', 0, 5).is_empty());
    assert!(rasterize_block_element('█', 5, 0).is_empty());
}

#[test]
fn halves_complement_each_other() {
    for (w, h) in [(1u32, 1u32), (3, 5), (4, 4), (7, 2)] {
        let top = rasterize_block_element('▀', w, h);
        let bottom = rasterize_block_element('▄', w, h);
        let left = rasterize_block_element('▌', w, h);
        let right = rasterize_block_element('▐', w, h);
        for i in 0..(w * h) as usize {
            assert_ne!(top[i], bottom[i]);
            assert_ne!(left[i], right[i]);
        }
    }
}

#[test]
fn quadrants_partition_the_cell() {
    let (w, h) = (5u32, 3u32);
    let quads: Vec<Vec<u32>> = ['▘', '▝', '▖', '▗']
        .iter()
        .map(|&c| rasterize_block_element(c, w, h))
        .collect();
    for i in 0..(w * h) as usize {
        let lit = quads.iter().filter(|q| q[i] == W).count();
        assert_eq!(lit, 1);
    }
}

#[test]
fn shade_density_per_four_pixels() {
    let (w, h) = (12u32, 5u32);
    for (ch, num) in [('░', 1usize), ('▒', 2), ('▓', 3)] {
        let img = rasterize_block_element(ch, w, h);
        for y in 0..h as usize {
            for x0 in 0..(w as usize - 3) {
                let lit = (0..4).filter(|d| img[y * w as usize + x0 + d] == W).count();
                assert_eq!(lit, num);
            }
        }
    }
}

#[test]
fn fill_region_clips_to_whole_rows_and_columns() {
    // Two full rows of three pixels and a partial third row.
    let mut image = vec![0u32; 7];
    fill_region(&mut image, 3, 1, 0, 5, 5, 9);
    assert_eq!(image, vec![0, 9, 9, 0, 9, 9, 0]);
}

#[test]
fn fill_region_empty_rectangle() {
    let mut image = vec![1u32; 4];
    fill_region(&mut image, 0, 0, 0, 3, 0, 9);
    assert_eq!(image, vec![1; 4]);
    fill_region(&mut image, 2, 0, 0, 0, 2, 9);
    assert_eq!(image, vec![1; 4]);
}

#[test]
fn fill_shade_keeps_unlit_pixels() {
    let mut image = vec![5u32; 7];
    fill_shade(&mut image, 3, 2, 1, 4);
    // Row 0: x % 4 < 1 lights x = 0; row 1: (x + 2) % 4 < 1 lights x = 2.
    assert_eq!(image, vec![W, 5, 5, 5, 5, W, 5]);
}

#[test]
fn fill_region_outside_rows_needs_no_column_arithmetic() {
    // The rectangle starts below the buffer's last whole row: nothing is written.
    let mut image = vec![1u32; 4];
    fill_region(&mut image, 2, usize::MAX, 2, 1, 1, 9);
    assert_eq!(image, vec![1; 4]);
}

#[test]
fn fill_shade_on_a_short_buffer() {
    // Only lit pixels must lie in the buffer: in a 4 x 2 grid with the 25%
    // pattern, the lit pixels are 0 and 6.
    let mut image = vec![5u32; 7];
    fill_shade(&mut image, 4, 2, 1, 4);
    assert_eq!(image, vec![W, 5, 5, 5, 5, 5, W]);
}
