use custom_glyphs::box_drawing::{BoxPlan, BoxStrokes};
use custom_glyphs::try_rasterize_custom_glyph;
use raqote::{DrawOptions, DrawTarget, SolidSource, Source};

/// Fills the rectangles of a plan with `raqote`, without anti-aliasing.
fn paint_rects(plan: BoxPlan) -> Vec<u32> {
    let w = plan.width as i32;
    let h = plan.height as i32;
    let mut image = vec![0u32; (w * h) as usize];
    {
        let mut target = DrawTarget::from_backing(w, h, &mut image[..]);
        let src = Source::Solid(SolidSource { r: 0xFF, g: 0xFF, b: 0xFF, a: 0xFF });
        let opts = DrawOptions {
            blend_mode: raqote::BlendMode::SrcOver,
            alpha: 1.0,
            antialias: raqote::AntialiasMode::None,
        };
        if let BoxStrokes::Rects(rects) = &plan.strokes {
            for r in rects {
                target.fill_rect(
                    r.x as f32 / 2.0,
                    r.y as f32 / 2.0,
                    r.width as f32 / 2.0,
                    r.height as f32 / 2.0,
                    &src,
                    &opts,
                );
            }
        }
    }
    image
}

fn no_dots(_w: u32, _h: u32) -> Vec<Vec<usize>> {
    Vec::new()
}

#[test]
fn light_horizontal_line_spans_the_cell() {
    // 8 x 12 cell: the light stroke is one pixel, centred on y = 6.
    let img = try_rasterize_custom_glyph('─', 8, 12, paint_rects, no_dots).unwrap();
    assert_eq!(img.len(), 96);
    let lit_rows: Vec<usize> = (0..12)
        .filter(|y| (0..8).all(|x| img[y * 8 + x] == 0xFFFF_FFFF))
        .collect();
    println!("lit rows: {:?}", lit_rows);
    assert_eq!(lit_rows.len(), 1);
    let lit = img.iter().filter(|&&p| p != 0).count();
    assert_eq!(lit, 8);
}
