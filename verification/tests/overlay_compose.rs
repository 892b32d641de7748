use lite_graphics::color::Color;
use lite_graphics::draw::{self, Drawable};
use lite_graphics::{Buffer, Offset, Overlay, Rect, Rgba};

fn px(buf: &Buffer, x: usize, y: usize) -> (u8, u8, u8) {
    let d = buf.data();
    let i = (x + y * buf.width) * 3;
    (d[i], d[i + 1], d[i + 2])
}

#[test]
fn empty_overlay_write_changes_nothing() {
    let base = Buffer::new(8, 8);
    let ov = Overlay::new(base, Rect { x: 0, y: 0, w: 8, h: 8 });
    let out = ov.write();
    assert!(out.data().iter().all(|&b| b == 255));
}

#[test]
fn opaque_overlay_pixel_overwrites_base() {
    let base = Buffer::new(8, 8);
    let mut ov = Overlay::new(base, Rect { x: 0, y: 0, w: 8, h: 8 });
    ov.point(3, 4, &Color::Rgba(Rgba { r: 1, g: 2, b: 3, a: 255 }));
    let out = ov.write();
    assert_eq!(px(&out, 3, 4), (1, 2, 3));
    assert_eq!(px(&out, 0, 0), (255, 255, 255));
}

#[test]
fn translucent_overlay_single_blend_matches_direct() {
    // one translucent draw through an overlay equals the same draw
    // directly onto the base
    let c = Color::Rgba(Rgba { r: 255, g: 0, b: 0, a: 128 });
    let mut direct = Buffer::new(8, 8);
    direct.point(2, 2, &c);
    let base = Buffer::new(8, 8);
    let mut ov = Overlay::new(base, Rect { x: 0, y: 0, w: 8, h: 8 });
    ov.point(2, 2, &c);
    let out = ov.write();
    assert_eq!(px(&out, 2, 2), px(&direct, 2, 2));
}

#[test]
fn overlapping_translucent_circles_differ_from_direct_drawing() {
    let red = Color::Rgba(Rgba { r: 255, g: 0, b: 0, a: 128 });
    let blue = Color::Rgba(Rgba { r: 0, g: 0, b: 255, a: 128 });

    let mut direct = Buffer::new(20, 20);
    draw::fill_circle(&mut direct, Offset::new(8, 10), 4, red.clone());
    draw::fill_circle(&mut direct, Offset::new(12, 10), 4, blue.clone());

    let base = Buffer::new(20, 20);
    let mut ov = Overlay::new(base, Rect { x: 0, y: 0, w: 20, h: 20 });
    draw::fill_circle(&mut ov, Offset::new(8, 10), 4, red);
    draw::fill_circle(&mut ov, Offset::new(12, 10), 4, blue);
    let layered = ov.write();

    // a pixel covered by one circle only composites the same both ways
    assert_eq!(px(&layered, 5, 10), px(&direct, 5, 10));
    // a pixel under both circles double-blends directly, but composites
    // once through the overlay: the results differ
    assert_ne!(px(&layered, 10, 10), px(&direct, 10, 10));
}

#[test]
fn zero_alpha_overlay_point_changes_nothing() {
    let base = Buffer::new(4, 4);
    let mut ov = Overlay::new(base, Rect { x: 0, y: 0, w: 4, h: 4 });
    ov.point(1, 1, &Color::Rgba(Rgba { r: 9, g: 9, b: 9, a: 0 }));
    let out = ov.write();
    assert!(out.data().iter().all(|&b| b == 255));
}

#[test]
fn overlay_respects_destination_rect() {
    let base = Buffer::new(10, 10);
    let mut ov = Overlay::new(base, Rect { x: 4, y: 4, w: 3, h: 3 });
    // overlay coordinates are relative to the destination rectangle
    ov.point(0, 0, &Color::Rgba(Rgba { r: 9, g: 9, b: 9, a: 255 }));
    let out = ov.write();
    assert_eq!(px(&out, 4, 4), (9, 9, 9));
    assert_eq!(px(&out, 0, 0), (255, 255, 255));
}

#[test]
fn overlay_offset_moves_destination() {
    let base = Buffer::new(10, 10);
    let mut ov = Overlay::new(base, Rect { x: 0, y: 0, w: 3, h: 3 });
    ov.point(1, 1, &Color::Rgba(Rgba { r: 7, g: 7, b: 7, a: 255 }));
    ov.offset(Offset::new(5, 6));
    let out = ov.write();
    assert_eq!(px(&out, 6, 7), (7, 7, 7));
    assert_eq!(px(&out, 1, 1), (255, 255, 255));
}

#[test]
fn overlay_clamps_offscreen_destination() {
    let base = Buffer::new(6, 6);
    let mut ov = Overlay::new(base, Rect { x: -2, y: -2, w: 4, h: 4 });
    // fill the whole overlay opaque
    draw::fill_rect(
        &mut ov,
        Rect { x: 0, y: 0, w: 4, h: 4 },
        Color::Rgba(Rgba { r: 5, g: 5, b: 5, a: 255 }),
    );
    let out = ov.write();
    // only the on-canvas part of the destination is composited
    assert_eq!(px(&out, 0, 0), (5, 5, 5));
    assert_eq!(px(&out, 1, 1), (5, 5, 5));
    assert_eq!(px(&out, 2, 2), (255, 255, 255));
}

#[test]
fn overlay_subregion_clips() {
    let base = Buffer::new(8, 8);
    let mut ov = Overlay::new(base, Rect { x: 0, y: 0, w: 8, h: 8 });
    ov.subregion(Rect { x: 2, y: 2, w: 2, h: 2 });
    draw::fill_rect(
        &mut ov,
        Rect { x: -5, y: -5, w: 20, h: 20 },
        Color::Rgba(Rgba { r: 1, g: 1, b: 1, a: 255 }),
    );
    ov.end_subregion();
    let out = ov.write();
    for y in 0..8 {
        for x in 0..8 {
            let inside = (2..4).contains(&x) && (2..4).contains(&y);
            if inside {
                assert_eq!(px(&out, x, y), (1, 1, 1));
            } else {
                assert_eq!(px(&out, x, y), (255, 255, 255));
            }
        }
    }
}

#[test]
fn overlay_alpha_accumulates() {
    // two half-transparent draws on the overlay accumulate coverage, so
    // the base shows through less than after one draw
    let c = Color::Rgba(Rgba { r: 0, g: 0, b: 0, a: 128 });
    let base1 = Buffer::new(4, 4);
    let mut once = Overlay::new(base1, Rect { x: 0, y: 0, w: 4, h: 4 });
    once.point(0, 0, &c);
    let out_once = ov_first_channel(once.write(), 0, 0);

    let base2 = Buffer::new(4, 4);
    let mut twice = Overlay::new(base2, Rect { x: 0, y: 0, w: 4, h: 4 });
    twice.point(0, 0, &c);
    twice.point(0, 0, &c);
    let out_twice = ov_first_channel(twice.write(), 0, 0);

    assert!(out_twice < out_once, "{} vs {}", out_twice, out_once);
}

fn ov_first_channel(buf: Buffer, x: usize, y: usize) -> u8 {
    buf.data()[(x + y * buf.width) * 3]
}
