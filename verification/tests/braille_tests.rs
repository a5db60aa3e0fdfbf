use custom_glyphs::braille::rasterize_braille;

const W: u32 = 0xFFFF_FFFF;

/// Discs for a 2 by 4 cell where the disc at grid place `c` is pixel `c`.
fn one_pixel_discs() -> Vec<Vec<usize>> {
    (0..8).map(|c| vec![c]).collect()
}

fn braille(bits: u32) -> char {
    char::from_u32(0x2800 + bits).unwrap()
}

#[test]
fn blank_braille_is_transparent() {
    assert_eq!(rasterize_braille('\u{2800}', 2, 4, &one_pixel_discs()), vec![0; 8]);
}

#[test]
fn single_dots_go_to_their_grid_places() {
    // bit -> (column, row): 0 (0,0), 1 (0,1), 2 (0,2), 3 (1,0), 4 (1,1), 5 (1,2), 6 (0,3), 7 (1,3)
    let expected_place = [0usize, 2, 4, 1, 3, 5, 6, 7];
    for bit in 0..8u32 {
        let img = rasterize_braille(braille(1 << bit), 2, 4, &one_pixel_discs());
        for i in 0..8usize {
            assert_eq!(img[i] == W, i == expected_place[bit as usize]);
            assert!(img[i] == W || img[i] == 0);
        }
    }
}

#[test]
fn full_braille_lights_every_dot() {
    assert_eq!(rasterize_braille('\u{28FF}', 2, 4, &one_pixel_discs()), vec![W; 8]);
}

#[test]
fn braille_is_union_of_its_dots() {
    let discs: Vec<Vec<usize>> = vec![
        vec![0, 1],
        vec![1, 2],
        vec![3],
        vec![],
        vec![4, 5],
        vec![5],
        vec![6, 7, 8],
        vec![8],
    ];
    for a in 0..256u32 {
        let img = rasterize_braille(braille(a), 3, 3, &discs);
        let mut expected = vec![0u32; 9];
        for bit in 0..8u32 {
            if a & (1 << bit) != 0 {
                let place = [0usize, 2, 4, 1, 3, 5, 6, 7][bit as usize];
                for &p in &discs[place] {
                    expected[p] = W;
                }
            }
        }
        assert_eq!(img, expected);
    }
}

#[test]
fn out_of_cell_pixels_and_missing_places_are_ignored() {
    let discs: Vec<Vec<usize>> = vec![vec![0, 100]];
    // Dot 0 lights pixel 0; 100 is outside the cell. Dot 3 has no disc listed.
    assert_eq!(rasterize_braille('\u{2809}', 2, 2, &discs), vec![W, 0, 0, 0]);
}

#[test]
fn empty_braille_cell() {
    assert!(rasterize_braille('\u{28FF}', 0, 4, &one_pixel_discs()).is_empty());
}
