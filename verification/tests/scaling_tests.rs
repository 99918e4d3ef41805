use pixstage::scaling::{compute_scaling, uncropped_scale, window_pos_to_pixel, Ratio};
use pixstage::{Rect, ScalingMode};

fn rect(x: u32, y: u32, width: u32, height: u32) -> Rect {
    Rect { x, y, width, height }
}

#[test]
fn pixel_perfect_uses_a_whole_factor() {
    let s = compute_scaling((256, 240), (768, 720), ScalingMode::PixelPerfect);
    assert_eq!(s.buffer_to_surface_scale, Ratio { num: 3, den: 1 });
    assert_eq!(s.clip_rect, rect(0, 0, 768, 720));
    assert_eq!(window_pos_to_pixel(&s, (256, 240), (384, 360)), Ok((128, 120)));
    assert_eq!(window_pos_to_pixel(&s, (256, 240), (0, 0)), Ok((0, 0)));
    assert_eq!(window_pos_to_pixel(&s, (256, 240), (767, 719)), Ok((255, 239)));
    assert_eq!(window_pos_to_pixel(&s, (256, 240), (5, 2)), Ok((1, 0)));
}

#[test]
fn pixel_perfect_rounds_the_factor_down_and_centres() {
    let s = compute_scaling((256, 240), (1000, 800), ScalingMode::PixelPerfect);
    assert_eq!(s.buffer_to_surface_scale, Ratio { num: 3, den: 1 });
    assert_eq!(s.clip_rect, rect(116, 40, 768, 720));
    assert_eq!(s.ndc_scale_x, Ratio { num: 768, den: 1000 });
    assert_eq!(s.ndc_scale_y, Ratio { num: 720, den: 800 });
    assert_eq!(window_pos_to_pixel(&s, (256, 240), (116, 40)), Ok((0, 0)));
    assert_eq!(window_pos_to_pixel(&s, (256, 240), (115, 40)), Err((115, 40)));
    assert_eq!(window_pos_to_pixel(&s, (256, 240), (116, 39)), Err((116, 39)));
    assert_eq!(window_pos_to_pixel(&s, (256, 240), (884, 40)), Err((884, 40)));
    assert_eq!(window_pos_to_pixel(&s, (256, 240), (883, 759)), Ok((255, 239)));
    assert_eq!(window_pos_to_pixel(&s, (256, 240), (-1, -7)), Err((-1, -7)));
}

#[test]
fn pixel_perfect_crops_a_small_surface() {
    let s = compute_scaling((100, 80), (50, 40), ScalingMode::PixelPerfect);
    assert_eq!(s.buffer_to_surface_scale, Ratio { num: 1, den: 1 });
    assert_eq!(s.clip_rect, rect(0, 0, 50, 40));
    assert_eq!(s.ndc_scale_x, Ratio { num: 50, den: 50 });
    assert_eq!(s.ndc_scale_y, Ratio { num: 40, den: 40 });
    assert_eq!(
        uncropped_scale((100, 80), (50, 40), ScalingMode::PixelPerfect),
        (Ratio { num: 100, den: 50 }, Ratio { num: 80, den: 40 })
    );
    assert_eq!(window_pos_to_pixel(&s, (100, 80), (0, 0)), Ok((25, 20)));
    assert_eq!(window_pos_to_pixel(&s, (100, 80), (49, 39)), Ok((74, 59)));
}

#[test]
fn fill_keeps_the_aspect_ratio() {
    let s = compute_scaling((256, 240), (1000, 500), ScalingMode::Fill);
    assert_eq!(s.buffer_to_surface_scale, Ratio { num: 500, den: 240 });
    assert_eq!(s.clip_rect, rect(233, 0, 533, 500));
    assert_eq!(s.ndc_scale_x, Ratio { num: 256 * 500, den: 240 * 1000 });
    assert_eq!(s.ndc_scale_y, Ratio { num: 240 * 500, den: 240 * 500 });
    let right_margin = 1000 - s.clip_rect.x - s.clip_rect.width;
    assert_eq!(right_margin, 234);
}

#[test]
fn fill_scales_down() {
    let s = compute_scaling((200, 100), (50, 100), ScalingMode::Fill);
    assert_eq!(s.buffer_to_surface_scale, Ratio { num: 50, den: 200 });
    assert_eq!(s.clip_rect, rect(0, 37, 50, 25));
    assert_eq!(window_pos_to_pixel(&s, (200, 100), (0, 37)), Ok((0, 0)));
    assert_eq!(window_pos_to_pixel(&s, (200, 100), (49, 61)), Ok((196, 96)));
    assert_eq!(window_pos_to_pixel(&s, (200, 100), (49, 62)), Err((49, 62)));
}

#[test]
fn a_surface_without_pixels_gets_a_clip_of_one_pixel() {
    for mode in [ScalingMode::PixelPerfect, ScalingMode::Fill] {
        let s = compute_scaling((10, 10), (0, 0), mode);
        assert_eq!(s.clip_rect, rect(0, 0, 1, 1));
        let t = compute_scaling((10, 10), (100, 0), mode);
        assert_eq!(t.clip_rect.height, 1);
        assert_eq!(t.clip_rect.y, 0);
    }
    let s = compute_scaling((10, 10), (0, 0), ScalingMode::Fill);
    assert_eq!(s.buffer_to_surface_scale.num, 0);
    assert_eq!(
        window_pos_to_pixel(&s, (10, 10), (0, 0)),
        Err((isize::MIN, isize::MIN))
    );
}

#[test]
fn a_point_in_the_clip_can_still_miss_the_buffer() {
    // one column of a tall buffer on a flat surface: less than a pixel wide
    let s = compute_scaling((1, 1000), (100, 1), ScalingMode::Fill);
    assert_eq!(s.buffer_to_surface_scale, Ratio { num: 1, den: 1000 });
    assert_eq!(s.clip_rect, rect(49, 0, 1, 1));
    assert_eq!(window_pos_to_pixel(&s, (1, 1000), (49, 0)), Err((-500, 0)));
}

#[test]
fn large_sizes_do_not_overflow() {
    let s = compute_scaling((u32::MAX, u32::MAX), (u32::MAX, u32::MAX), ScalingMode::Fill);
    assert_eq!(s.clip_rect, rect(0, 0, u32::MAX, u32::MAX));
    let p = compute_scaling((1, 1), (u32::MAX, u32::MAX), ScalingMode::PixelPerfect);
    assert_eq!(p.buffer_to_surface_scale, Ratio { num: u32::MAX as u64, den: 1 });
    assert_eq!(p.clip_rect, rect(0, 0, u32::MAX, u32::MAX));
    assert_eq!(
        window_pos_to_pixel(&p, (1, 1), (i32::MAX, i32::MAX)),
        Ok((0, 0))
    );
}

/// The clip rectangle and the scale in floating point.
fn float_scaling(buffer: (u32, u32), surface: (u32, u32), mode: ScalingMode) -> ([f64; 4], f64) {
    let (bw, bh) = (buffer.0 as f64, buffer.1 as f64);
    let (sw, sh) = (surface.0 as f64, surface.1 as f64);
    let scale = match mode {
        ScalingMode::PixelPerfect => (sw / bw).max(1.0).min((sh / bh).max(1.0)).floor().max(1.0),
        ScalingMode::Fill => (sw / bw).min(sh / bh),
    };
    let clip_w = (bw * scale).min(sw).max(1.0);
    let clip_h = (bh * scale).min(sh).max(1.0);
    let clip_x = ((sw - clip_w) / 2.0).max(0.0);
    let clip_y = ((sh - clip_h) / 2.0).max(0.0);
    ([clip_x, clip_y, clip_w, clip_h], scale)
}

fn float_pixel(buffer: u32, clip_extent: u32, scale: f64, local: u32) -> i64 {
    let visible = clip_extent as f64 / scale;
    let crop = (buffer as f64 - visible) / 2.0;
    (crop + local as f64 / scale).floor() as i64
}

#[test]
fn whole_factor_scaling_agrees_with_floating_point() {
    let mut seed: u64 = 0x9e37_79b9_7f4a_7c15;
    let mut next = move || {
        seed ^= seed << 13;
        seed ^= seed >> 7;
        seed ^= seed << 17;
        seed
    };
    for _ in 0..2000 {
        let buffer = (1 + (next() % 400) as u32, 1 + (next() % 300) as u32);
        let surface = ((next() % 2000) as u32, (next() % 1500) as u32);
        let s = compute_scaling(buffer, surface, ScalingMode::PixelPerfect);
        let (clip, scale) = float_scaling(buffer, surface, ScalingMode::PixelPerfect);
        assert_eq!(s.buffer_to_surface_scale, Ratio { num: scale as u64, den: 1 });
        assert_eq!(
            s.clip_rect,
            rect(clip[0] as u32, clip[1] as u32, clip[2] as u32, clip[3] as u32)
        );
        let x = s.clip_rect.x + (next() % s.clip_rect.width as u64) as u32;
        let y = s.clip_rect.y + (next() % s.clip_rect.height as u64) as u32;
        let px = float_pixel(buffer.0, s.clip_rect.width, scale, x - s.clip_rect.x);
        let py = float_pixel(buffer.1, s.clip_rect.height, scale, y - s.clip_rect.y);
        let expected = if px < 0 || py < 0 || px >= buffer.0 as i64 || py >= buffer.1 as i64 {
            Err((px as isize, py as isize))
        } else {
            Ok((px as usize, py as usize))
        };
        assert_eq!(window_pos_to_pixel(&s, buffer, (x as i32, y as i32)), expected);
    }
}

#[test]
fn fill_scaling_agrees_with_floating_point_to_the_pixel() {
    let mut seed: u64 = 0xd1b5_4a32_d192_ed03;
    let mut next = move || {
        seed ^= seed << 13;
        seed ^= seed >> 7;
        seed ^= seed << 17;
        seed
    };
    for _ in 0..2000 {
        let buffer = (1 + (next() % 400) as u32, 1 + (next() % 300) as u32);
        let surface = (1 + (next() % 2000) as u32, 1 + (next() % 1500) as u32);
        let s = compute_scaling(buffer, surface, ScalingMode::Fill);
        let (clip, scale) = float_scaling(buffer, surface, ScalingMode::Fill);
        let exact = s.buffer_to_surface_scale.num as f64 / s.buffer_to_surface_scale.den as f64;
        assert!((exact - scale).abs() <= 1e-9 * scale.max(1.0));
        let got = [s.clip_rect.x, s.clip_rect.y, s.clip_rect.width, s.clip_rect.height];
        for (g, f) in got.iter().zip(clip.iter()) {
            // the floating-point product can fall just short of a whole number
            assert!((*g as f64 - f.floor()).abs() <= 1.0);
        }
        assert!(s.clip_rect.x + s.clip_rect.width <= surface.0);
        assert!(s.clip_rect.y + s.clip_rect.height <= surface.1);
        // one axis fills the surface
        assert!(s.clip_rect.width == surface.0 || s.clip_rect.height == surface.1);
        let right = surface.0 - s.clip_rect.x - s.clip_rect.width;
        assert!(s.clip_rect.x <= right && right <= s.clip_rect.x + 2);
    }
}

#[test]
fn the_quad_scale_is_clip_over_surface() {
    let s = compute_scaling((256, 240), (128, 120), ScalingMode::PixelPerfect);
    assert_eq!(s.clip_rect, rect(0, 0, 128, 120));
    assert_eq!(s.ndc_scale_x, Ratio { num: 128, den: 128 });
    assert_eq!(s.ndc_scale_y, Ratio { num: 120, den: 120 });
    assert_eq!(
        uncropped_scale((256, 240), (128, 120), ScalingMode::PixelPerfect),
        (Ratio { num: 256, den: 128 }, Ratio { num: 240, den: 120 })
    );

    // a surface without pixels counts as one pixel wide and high
    let z = compute_scaling((10, 10), (0, 0), ScalingMode::PixelPerfect);
    assert_eq!(z.ndc_scale_x, Ratio { num: 1, den: 1 });
    assert_eq!(z.ndc_scale_y, Ratio { num: 1, den: 1 });

    // before rounding: a clip of 533 and a third pixels on a surface of 1000
    let f = compute_scaling((256, 240), (1000, 500), ScalingMode::Fill);
    assert_eq!(f.clip_rect.width, 533);
    assert_eq!(f.ndc_scale_x, Ratio { num: 128_000, den: 240_000 });
    assert!(533 * f.ndc_scale_x.den <= f.ndc_scale_x.num * 1000);
    assert!(f.ndc_scale_x.num * 1000 < 534 * f.ndc_scale_x.den);
    assert_eq!(
        uncropped_scale((256, 240), (1000, 500), ScalingMode::Fill),
        (f.ndc_scale_x, f.ndc_scale_y)
    );
}
