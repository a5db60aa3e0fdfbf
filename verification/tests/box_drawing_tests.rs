use custom_glyphs::box_drawing::{
    box_plan, decompose_box_drawing, is_rounded_corner, light_stroke_width, rasterize_box_drawing,
    thickness, BoxPlan, BoxSegments, BoxStrokes, CornerArc, HalfRect, LineWeight,
};

use LineWeight::{Double as D, Heavy as H, Light as L};

fn seg(
    l: Option<LineWeight>,
    r: Option<LineWeight>,
    u: Option<LineWeight>,
    d: Option<LineWeight>,
) -> BoxSegments {
    BoxSegments { left: l, right: r, up: u, down: d }
}

fn rects(plan: &BoxPlan) -> Vec<HalfRect> {
    match &plan.strokes {
        BoxStrokes::Rects(v) => v.clone(),
        BoxStrokes::Arc(_) => panic!("expected rectangles"),
    }
}

fn rect(x: i64, y: i64, width: i64, height: i64) -> HalfRect {
    HalfRect { x, y, width, height }
}

#[test]
fn decomposes_light_heavy_and_double_lines() {
    assert_eq!(decompose_box_drawing('┼'), seg(Some(L), Some(L), Some(L), Some(L)));
    assert_eq!(decompose_box_drawing('━'), seg(Some(H), Some(H), None, None));
    assert_eq!(decompose_box_drawing('╬'), seg(Some(D), Some(D), Some(D), Some(D)));
    assert_eq!(decompose_box_drawing('┍'), seg(None, Some(H), None, Some(L)));
    assert_eq!(decompose_box_drawing('╒'), seg(None, Some(D), None, Some(L)));
    assert_eq!(decompose_box_drawing('╴'), seg(Some(L), None, None, None));
    assert_eq!(decompose_box_drawing('╻'), seg(None, None, None, Some(H)));
}

#[test]
fn mixed_weight_characters_follow_their_unicode_names() {
    // VERTICAL HEAVY AND RIGHT LIGHT
    assert_eq!(decompose_box_drawing('┠'), seg(None, Some(L), Some(H), Some(H)));
    // DOWN LIGHT AND RIGHT UP HEAVY
    assert_eq!(decompose_box_drawing('┡'), seg(None, Some(H), Some(H), Some(L)));
    // VERTICAL HEAVY AND LEFT LIGHT
    assert_eq!(decompose_box_drawing('┨'), seg(Some(L), None, Some(H), Some(H)));
    // DOWN LIGHT AND LEFT UP HEAVY
    assert_eq!(decompose_box_drawing('┩'), seg(Some(H), None, Some(H), Some(L)));
    // UP HEAVY AND RIGHT DOWN LIGHT
    assert_eq!(decompose_box_drawing('┞'), seg(None, Some(L), Some(H), Some(L)));
    // UP HEAVY AND LEFT DOWN LIGHT
    assert_eq!(decompose_box_drawing('┦'), seg(Some(L), None, Some(H), Some(L)));
}

#[test]
fn joined_light_and_heavy_half_lines_have_no_arms() {
    for c in ['╼', '╽', '╾', '╿'] {
        assert_eq!(decompose_box_drawing(c), BoxSegments::default());
    }
}

#[test]
fn solid_characters_decompose_differently() {
    let ranges = [(0x2500u32, 0x2503u32), (0x250C, 0x254B), (0x2550, 0x256C), (0x2574, 0x257B)];
    let chars: Vec<char> = ranges
        .iter()
        .flat_map(|&(a, b)| (a..=b).map(|c| char::from_u32(c).unwrap()))
        .collect();
    for (i, &a) in chars.iter().enumerate() {
        assert_ne!(decompose_box_drawing(a), BoxSegments::default(), "{:?}", a);
        for &b in &chars[i + 1..] {
            assert_ne!(decompose_box_drawing(a), decompose_box_drawing(b), "{:?} {:?}", a, b);
        }
    }
}

#[test]
fn rounded_corners_decompose_as_light_corners() {
    assert_eq!(decompose_box_drawing('╭'), decompose_box_drawing('┌'));
    assert_eq!(decompose_box_drawing('╮'), decompose_box_drawing('┐'));
    assert_eq!(decompose_box_drawing('╯'), decompose_box_drawing('┘'));
    assert_eq!(decompose_box_drawing('╰'), decompose_box_drawing('└'));
}

#[test]
fn dashed_lines_decompose_as_solid_lines() {
    for c in ['┄', '╌', '┈'] {
        assert_eq!(decompose_box_drawing(c), decompose_box_drawing('─'));
    }
    for c in ['┆', '╎', '┊'] {
        assert_eq!(decompose_box_drawing(c), decompose_box_drawing('│'));
    }
    for c in ['┅', '╍', '┉'] {
        assert_eq!(decompose_box_drawing(c), decompose_box_drawing('━'));
    }
    for c in ['┇', '╏', '┋'] {
        assert_eq!(decompose_box_drawing(c), decompose_box_drawing('┃'));
    }
}

#[test]
fn unlisted_characters_have_no_segments() {
    assert_eq!(decompose_box_drawing('╱'), BoxSegments::default());
    assert_eq!(decompose_box_drawing('A'), seg(None, None, None, None));
}

#[test]
fn rounded_corner_characters() {
    for c in ['╭', '╮', '╰', '╯'] {
        assert!(is_rounded_corner(c));
    }
    for c in ['┌', '─', 'a'] {
        assert!(!is_rounded_corner(c));
    }
}

#[test]
fn light_width_is_a_twelfth_of_the_height_rounded() {
    assert_eq!(light_stroke_width(0), 1);
    assert_eq!(light_stroke_width(5), 1);
    assert_eq!(light_stroke_width(17), 1);
    assert_eq!(light_stroke_width(18), 2);
    assert_eq!(light_stroke_width(24), 2);
    assert_eq!(light_stroke_width(29), 2);
    assert_eq!(light_stroke_width(30), 3);
}

#[test]
fn thickness_of_each_weight() {
    assert_eq!(thickness(L, 2, 4), 2);
    assert_eq!(thickness(H, 2, 4), 4);
    assert_eq!(thickness(D, 2, 4), 2);
}

#[test]
fn horizontal_light_line_plan() {
    // 10 x 20 cell: light stroke 2 px = 4 half pixels, centre (10, 20).
    let plan = box_plan('─', 10, 20);
    assert_eq!((plan.width, plan.height), (10, 20));
    assert_eq!(rects(&plan), vec![rect(0, 18, 12, 4), rect(8, 18, 12, 4)]);
}

#[test]
fn heavy_cross_plan() {
    // Heavy stroke 4 px = 8 half pixels.
    let plan = box_plan('╋', 10, 20);
    assert_eq!(
        rects(&plan),
        vec![
            rect(0, 16, 14, 8),
            rect(6, 16, 14, 8),
            rect(6, 0, 8, 24),
            rect(6, 16, 8, 24),
        ]
    );
}

#[test]
fn double_line_plan() {
    // Gap 4 px: strokes centred 2 px above and below the centre line.
    let plan = box_plan('═', 10, 20);
    assert_eq!(
        rects(&plan),
        vec![
            rect(0, 14, 12, 4),
            rect(0, 22, 12, 4),
            rect(8, 14, 12, 4),
            rect(8, 22, 12, 4),
        ]
    );
}

#[test]
fn double_cross_plan() {
    // Every stroke turns into a corner at the near stroke of the crossing line.
    let plan = box_plan('╬', 10, 20);
    assert_eq!(
        rects(&plan),
        vec![
            rect(0, 14, 8, 4),
            rect(0, 22, 8, 4),
            rect(12, 14, 8, 4),
            rect(12, 22, 8, 4),
            rect(4, 0, 4, 18),
            rect(12, 0, 4, 18),
            rect(4, 22, 4, 18),
            rect(12, 22, 4, 18),
        ]
    );
}

#[test]
fn double_t_junction_keeps_far_stroke_unbroken() {
    let plan = box_plan('╦', 10, 20);
    assert_eq!(
        rects(&plan),
        vec![
            rect(0, 14, 16, 4),
            rect(0, 22, 8, 4),
            rect(4, 14, 16, 4),
            rect(12, 22, 8, 4),
            rect(4, 22, 4, 18),
            rect(12, 22, 4, 18),
        ]
    );
    // 10 x 10 cell, one-pixel strokes: the upper stroke covers every column.
    let r = rects(&box_plan('╦', 10, 10));
    let top: Vec<&HalfRect> = r.iter().filter(|q| q.y == 6).collect();
    for x in 0..20i64 {
        assert!(top.iter().any(|q| q.x <= x && x < q.x + q.width));
    }
}

#[test]
fn double_corner_plan() {
    let plan = box_plan('╔', 10, 20);
    assert_eq!(
        rects(&plan),
        vec![
            rect(4, 14, 16, 4),
            rect(12, 22, 8, 4),
            rect(4, 14, 4, 26),
            rect(12, 22, 4, 18),
        ]
    );
}

#[test]
fn double_arms_too_narrow_are_dropped() {
    // In a 2-pixel-wide cell a double line crossing a double line has no room.
    let plan = box_plan('╬', 2, 20);
    assert!(rects(&plan).iter().all(|r| r.width > 0 && r.height > 0));
    assert!(!rects(&plan).iter().any(|r| r.x == 0));
}

#[test]
fn single_strokes_pass_through_centre() {
    for c in ['─', '│', '┼', '╋', '┿', '╂', '┌', '┛', '╴', '╻'] {
        let (w, h) = (9u32, 17u32);
        for r in rects(&box_plan(c, w, h)) {
            assert!(r.x <= w as i64 && w as i64 <= r.x + r.width);
            assert!(r.y <= h as i64 && h as i64 <= r.y + r.height);
        }
    }
}

#[test]
fn rounded_corner_plan() {
    let plan = box_plan('╭', 10, 20);
    match plan.strokes {
        BoxStrokes::Arc(a) => assert_eq!(
            a,
            CornerArc {
                start_x: 10,
                start_y: 40,
                ctrl_x: 10,
                ctrl_y: 20,
                end_x: 20,
                end_y: 20,
                width: 4,
            }
        ),
        BoxStrokes::Rects(_) => panic!("expected an arc"),
    }
    match box_plan('╯', 10, 20).strokes {
        BoxStrokes::Arc(a) => {
            assert_eq!((a.start_x, a.start_y, a.end_x, a.end_y), (0, 20, 10, 0));
        }
        BoxStrokes::Rects(_) => panic!("expected an arc"),
    }
}

#[test]
fn rasterize_converts_painted_pixels() {
    let img = rasterize_box_drawing('─', 2, 1, |plan: BoxPlan| {
        assert_eq!((plan.width, plan.height), (2, 1));
        vec![0x1122_3344u32, 0xFFFF_FFFF]
    });
    assert_eq!(img, vec![0x1144_3322u32, 0xFFFF_FFFF]);
}

#[test]
fn rasterize_character_without_arms_is_transparent() {
    let img = rasterize_box_drawing('╱', 3, 2, |_plan: BoxPlan| -> Vec<u32> {
        panic!("nothing to paint")
    });
    assert_eq!(img, vec![0u32; 6]);
}

#[test]
fn rasterize_empty_cell_paints_nothing() {
    let img = rasterize_box_drawing('─', 0, 10, |_plan: BoxPlan| -> Vec<u32> {
        panic!("an empty cell is not painted")
    });
    assert!(img.is_empty());
}
