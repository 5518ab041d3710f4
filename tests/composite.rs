use rgba_composite::{blend_alpha, blend_channel, blend_pixel, composite_rgba};

fn solid(w: u32, h: u32, px: [u8; 4]) -> Vec<u8> {
    let mut v = Vec::new();
    for _ in 0..(w * h) {
        v.extend_from_slice(&px);
    }
    v
}

fn pixel(buf: &[u8], w: u32, x: u32, y: u32) -> [u8; 4] {
    let i = ((y * w + x) * 4) as usize;
    [buf[i], buf[i + 1], buf[i + 2], buf[i + 3]]
}

fn gradient(w: u32, h: u32) -> Vec<u8> {
    let mut v = Vec::new();
    for i in 0..(w * h) {
        v.push((i * 7 % 256) as u8);
        v.push((i * 13 % 256) as u8);
        v.push((i * 29 % 256) as u8);
        v.push((i * 31 % 256) as u8);
    }
    v
}

#[test]
fn half_red_over_black_corner() {
    let base = solid(2, 2, [0, 0, 0, 255]);
    let overlay = vec![255, 0, 0, 128];
    let out = composite_rgba(base, 2, 2, overlay, 1, 1, 0, 0);
    assert_eq!(pixel(&out, 2, 0, 0), [128, 0, 0, 255]);
    assert_eq!(pixel(&out, 2, 1, 0), [0, 0, 0, 255]);
    assert_eq!(pixel(&out, 2, 0, 1), [0, 0, 0, 255]);
    assert_eq!(pixel(&out, 2, 1, 1), [0, 0, 0, 255]);
}

#[test]
fn larger_opaque_overlay_covers_base() {
    let base = gradient(3, 2);
    let overlay = solid(5, 4, [10, 20, 30, 255]);
    let out = composite_rgba(base, 3, 2, overlay, 5, 4, 0, 0);
    assert_eq!(out, solid(3, 2, [10, 20, 30, 255]));
}

#[test]
fn overlay_at_right_edge_is_noop() {
    let base = gradient(4, 3);
    let overlay = solid(2, 2, [200, 100, 50, 255]);
    let out = composite_rgba(base.clone(), 4, 3, overlay, 2, 2, 4, 0);
    assert_eq!(out, base);
}

#[test]
fn overlay_at_bottom_edge_is_noop() {
    let base = gradient(4, 3);
    let overlay = solid(2, 2, [200, 100, 50, 255]);
    let out = composite_rgba(base.clone(), 4, 3, overlay, 2, 2, 0, 3);
    assert_eq!(out, base);
}

#[test]
fn huge_offsets_are_noop() {
    let base = gradient(4, 3);
    let overlay = solid(2, 2, [1, 2, 3, 255]);
    let out = composite_rgba(base.clone(), 4, 3, overlay.clone(), 2, 2, u32::MAX, u32::MAX);
    assert_eq!(out, base);
    let out = composite_rgba(base.clone(), 4, 3, overlay, 2, 2, 1, u32::MAX);
    assert_eq!(out, base);
}

#[test]
fn transparent_overlay_is_identity() {
    let base = gradient(5, 4);
    let mut overlay = gradient(3, 3);
    for p in overlay.chunks_mut(4) {
        p[3] = 0;
    }
    let out = composite_rgba(base.clone(), 5, 4, overlay, 3, 3, 1, 1);
    assert_eq!(out, base);
}

#[test]
fn empty_overlay_is_identity() {
    let base = gradient(3, 3);
    let out = composite_rgba(base.clone(), 3, 3, Vec::new(), 0, 0, 1, 1);
    assert_eq!(out, base);
    let out = composite_rgba(base.clone(), 3, 3, Vec::new(), 4, 0, 0, 0);
    assert_eq!(out, base);
}

#[test]
fn empty_base_stays_empty() {
    let overlay = solid(2, 2, [9, 9, 9, 255]);
    let out = composite_rgba(Vec::new(), 0, 0, overlay, 2, 2, 0, 0);
    assert!(out.is_empty());
}

#[test]
fn partial_overlap_clips_and_keeps_rest() {
    let base = gradient(4, 4);
    let overlay = solid(3, 3, [7, 8, 9, 255]);
    let out = composite_rgba(base.clone(), 4, 4, overlay, 3, 3, 2, 3);
    for y in 0..4 {
        for x in 0..4 {
            if x >= 2 && y >= 3 {
                assert_eq!(pixel(&out, 4, x, y), [7, 8, 9, 255]);
            } else {
                assert_eq!(pixel(&out, 4, x, y), pixel(&base, 4, x, y));
            }
        }
    }
}

#[test]
fn overlay_pixels_map_by_offset() {
    let base = solid(3, 3, [0, 0, 0, 0]);
    let mut overlay = Vec::new();
    for i in 0..4u8 {
        overlay.extend_from_slice(&[i, 10 * i, 100 + i, 255]);
    }
    let out = composite_rgba(base, 3, 3, overlay, 2, 2, 1, 1);
    assert_eq!(pixel(&out, 3, 1, 1), [0, 0, 100, 255]);
    assert_eq!(pixel(&out, 3, 2, 1), [1, 10, 101, 255]);
    assert_eq!(pixel(&out, 3, 1, 2), [2, 20, 102, 255]);
    assert_eq!(pixel(&out, 3, 2, 2), [3, 30, 103, 255]);
    assert_eq!(pixel(&out, 3, 0, 0), [0, 0, 0, 0]);
}

#[test]
fn semi_transparent_blend_values() {
    let base = vec![100, 150, 200, 64];
    let overlay = vec![200, 50, 0, 64];
    let out = composite_rgba(base, 1, 1, overlay, 1, 1, 0, 0);
    // (200*64 + 100*191 + 127) / 255 = 125, (50*64 + 150*191 + 127) / 255 = 125,
    // (0*64 + 200*191 + 127) / 255 = 150, 64 + (64*191 + 127) / 255 = 112.
    assert_eq!(out, vec![125, 125, 150, 112]);
}

#[test]
fn opaque_pixel_overwrites_whatever_base() {
    let base = gradient(3, 2);
    let overlay = vec![1, 2, 3, 255, 4, 5, 6, 0];
    let out = composite_rgba(base.clone(), 3, 2, overlay, 2, 1, 1, 1);
    assert_eq!(pixel(&out, 3, 1, 1), [1, 2, 3, 255]);
    assert_eq!(pixel(&out, 3, 2, 1), pixel(&base, 3, 2, 1));
}

#[test]
fn blend_channel_exact_values() {
    assert_eq!(blend_channel(255, 0, 128), 128);
    assert_eq!(blend_channel(0, 255, 128), 127);
    assert_eq!(blend_channel(200, 100, 64), 125);
    assert_eq!(blend_channel(17, 230, 255), 17);
    assert_eq!(blend_channel(17, 230, 0), 230);
}

#[test]
fn blend_alpha_exact_values() {
    assert_eq!(blend_alpha(128, 255), 255);
    assert_eq!(blend_alpha(128, 0), 128);
    assert_eq!(blend_alpha(64, 64), 112);
    assert_eq!(blend_alpha(255, 0), 255);
    assert_eq!(blend_alpha(0, 77), 77);
}

#[test]
fn blend_channel_matches_float_rounding() {
    for a in 1..=255u32 {
        let oa = a as f32 / 255.0;
        let inv = 1.0 - oa;
        for o in 0..=255u32 {
            for b in 0..=255u32 {
                let f = (o as f32 * oa + b as f32 * inv).round().clamp(0.0, 255.0) as u8;
                assert_eq!(blend_channel(o as u8, b as u8, a as u8), f, "o={o} b={b} a={a}");
            }
        }
    }
}

#[test]
fn blend_alpha_matches_float_rounding() {
    for a in 1..=255u32 {
        let oa = a as f32 / 255.0;
        let inv = 1.0 - oa;
        for b in 0..=255u32 {
            let ba = b as f32 / 255.0;
            let f = ((oa + ba * inv).clamp(0.0, 1.0) * 255.0).round() as u8;
            assert_eq!(blend_alpha(a as u8, b as u8), f, "a={a} b={b}");
        }
    }
}

#[test]
fn blend_pixel_touches_only_its_pixel() {
    let mut base = vec![0, 0, 0, 255, 10, 20, 30, 40, 50, 60, 70, 80];
    let overlay = vec![9, 9, 9, 9, 255, 0, 0, 128];
    blend_pixel(&mut base, 4, &overlay, 4);
    assert_eq!(base, vec![0, 0, 0, 255, 133, 10, 15, 148, 50, 60, 70, 80]);
}

#[test]
fn blend_pixel_skips_transparent() {
    let mut base = vec![10, 20, 30, 40];
    let overlay = vec![200, 200, 200, 0];
    blend_pixel(&mut base, 0, &overlay, 0);
    assert_eq!(base, vec![10, 20, 30, 40]);
}
