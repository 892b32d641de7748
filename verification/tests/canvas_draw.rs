use lite_graphics::color::Color;
use lite_graphics::draw::{self, Drawable};
use lite_graphics::{Buffer, Offset, Rect, Rgba};

const RED: Rgba = Rgba { r: 255, g: 0, b: 0, a: 255 };

fn px(buf: &Buffer, x: usize, y: usize) -> (u8, u8, u8) {
    let d = buf.data();
    let i = (x + y * buf.width) * 3;
    (d[i], d[i + 1], d[i + 2])
}

#[test]
fn new_buffer_is_opaque_white() {
    let buf = Buffer::new(10, 10);
    assert_eq!(buf.data().len(), 300);
    assert!(buf.data().iter().all(|&b| b == 255));
    let s = buf.size();
    assert_eq!((s.w, s.h), (10, 10));
}

#[test]
fn opaque_point_writes_exact_color() {
    let mut buf = Buffer::new(10, 10);
    buf.point(5, 5, &Color::Rgba(RED));
    assert_eq!(px(&buf, 5, 5), (255, 0, 0));
    for y in 0..10 {
        for x in 0..10 {
            if (x, y) != (5, 5) {
                assert_eq!(px(&buf, x, y), (255, 255, 255));
            }
        }
    }
}

#[test]
fn zero_alpha_point_changes_nothing() {
    let mut buf = Buffer::new(4, 4);
    buf.point(2, 2, &Color::Rgba(Rgba { r: 9, g: 9, b: 9, a: 0 }));
    assert!(buf.data().iter().all(|&b| b == 255));
}

#[test]
fn translucent_point_blends() {
    let mut buf = Buffer::new(4, 4);
    buf.point(1, 1, &Color::Rgba(Rgba { r: 0, g: 0, b: 255, a: 128 }));
    // (src - dst) * a / 255 + dst, truncated toward zero
    assert_eq!(px(&buf, 1, 1), (127, 127, 255));
}

#[test]
fn double_blend_matches_two_step_formula() {
    let mut buf = Buffer::new(4, 4);
    let c = Color::Rgba(Rgba { r: 0, g: 0, b: 255, a: 128 });
    buf.point(1, 1, &c);
    buf.point(1, 1, &c);
    // first blend: 255 -> 127; second: 127 - 127 * 128 / 255 = 127 - 63 = 64
    assert_eq!(px(&buf, 1, 1), (64, 64, 255));
    // a single blend at the union alpha 128 + 128 - 128 * 128 / 255 = 192
    // would give 255 - 255 * 192 / 255 = 63: double-blending is not one blend
    let mut single = Buffer::new(4, 4);
    single.point(1, 1, &Color::Rgba(Rgba { r: 0, g: 0, b: 255, a: 192 }));
    assert_eq!(px(&single, 1, 1), (63, 63, 255));
    assert_ne!(px(&buf, 1, 1), px(&single, 1, 1));
}

#[test]
fn out_of_region_point_is_dropped() {
    let mut buf = Buffer::new(6, 6);
    buf.point(-1, 0, &Color::Rgba(RED));
    buf.point(0, -1, &Color::Rgba(RED));
    buf.point(6, 0, &Color::Rgba(RED));
    buf.point(0, 6, &Color::Rgba(RED));
    assert!(buf.data().iter().all(|&b| b == 255));
}

#[test]
fn subregion_clips_and_translates() {
    let mut buf = Buffer::new(10, 10);
    buf.subregion(Rect { x: 2, y: 2, w: 4, h: 4 });
    let r = buf.get_subregion();
    assert_eq!((r.x, r.y, r.w, r.h), (2, 2, 4, 4));
    // relative (0, 0) lands on absolute (2, 2)
    buf.point(0, 0, &Color::Rgba(RED));
    assert_eq!(px(&buf, 2, 2), (255, 0, 0));
    // outside the subregion extent: dropped even though inside the canvas
    buf.point(4, 4, &Color::Rgba(RED));
    assert_eq!(px(&buf, 6, 6), (255, 255, 255));
    buf.end_subregion();
    let root = buf.get_subregion();
    assert_eq!((root.x, root.y, root.w, root.h), (0, 0, 10, 10));
    // popping the root is a no-op
    buf.end_subregion();
    assert_eq!(buf.get_subregion().w, 10);
}

#[test]
fn drawing_never_leaks_outside_subregion() {
    let mut buf = Buffer::new(10, 10);
    buf.subregion(Rect { x: 3, y: 3, w: 4, h: 4 });
    draw::fill_rect(
        &mut buf,
        Rect { x: -5, y: -5, w: 20, h: 20 },
        Color::Rgba(RED),
    );
    draw::circle(&mut buf, Offset::new(0, 0), 8, Color::Rgba(RED));
    draw::line(&mut buf, Offset::new(-3, -3), Offset::new(15, 9), Color::Rgba(RED));
    for y in 0..10 {
        for x in 0..10 {
            let inside = (3..7).contains(&x) && (3..7).contains(&y);
            if !inside {
                assert_eq!(px(&buf, x, y), (255, 255, 255), "leak at {},{}", x, y);
            }
        }
    }
}

#[test]
fn nested_subregions_clamp_to_parent() {
    let mut buf = Buffer::new(10, 10);
    buf.subregion(Rect { x: 2, y: 2, w: 6, h: 6 });
    buf.subregion(Rect { x: 4, y: 4, w: 10, h: 10 });
    let r = buf.get_subregion();
    // clamped to the parent's extent, then translated by its offset
    assert_eq!((r.x, r.y, r.w, r.h), (6, 6, 2, 2));
}

#[test]
fn horizontal_line_sets_exact_pixels() {
    let mut buf = Buffer::new(5, 5);
    draw::line(&mut buf, Offset::new(0, 0), Offset::new(4, 0), Color::Rgba(RED));
    for x in 0..5 {
        assert_eq!(px(&buf, x, 0), (255, 0, 0), "missing at {}", x);
    }
    for y in 1..5 {
        for x in 0..5 {
            assert_eq!(px(&buf, x, y), (255, 255, 255), "extra at {},{}", x, y);
        }
    }
}

#[test]
fn diagonal_line_hits_endpoints() {
    let mut buf = Buffer::new(8, 8);
    draw::line(&mut buf, Offset::new(1, 2), Offset::new(6, 5), Color::Rgba(RED));
    assert_eq!(px(&buf, 1, 2), (255, 0, 0));
    assert_eq!(px(&buf, 6, 5), (255, 0, 0));
}

#[test]
fn fill_rect_half_canvas_blend() {
    let mut buf = Buffer::new(8, 8);
    draw::fill_rect(
        &mut buf,
        Rect { x: 0, y: 0, w: 8, h: 4 },
        Color::Rgba(Rgba { r: 0, g: 0, b: 255, a: 128 }),
    );
    for y in 0..8 {
        for x in 0..8 {
            if y < 4 {
                assert_eq!(px(&buf, x, y), (127, 127, 255));
            } else {
                assert_eq!(px(&buf, x, y), (255, 255, 255));
            }
        }
    }
}

#[test]
fn full_arc_matches_circle() {
    let mut a = Buffer::new(30, 30);
    let mut b = Buffer::new(30, 30);
    draw::circle(&mut a, Offset::new(15, 15), 10, Color::Rgba(RED));
    draw::circle_arc(&mut b, Offset::new(15, 15), 10, 0, 65536, Color::Rgba(RED));
    assert_eq!(a.data().as_slice(), b.data().as_slice());
}

#[test]
fn zero_length_arc_draws_nothing() {
    let mut buf = Buffer::new(20, 20);
    draw::circle_arc(&mut buf, Offset::new(10, 10), 6, 16384, 16384, Color::Rgba(RED));
    assert!(buf.data().iter().all(|&b| b == 255));
}

#[test]
fn half_arc_covers_half() {
    let mut buf = Buffer::new(30, 30);
    // upper half in screen coordinates: angles 0..half a turn hit y <= center
    draw::circle_arc(&mut buf, Offset::new(15, 15), 10, 0, 32768, Color::Rgba(RED));
    assert_eq!(px(&buf, 15, 5), (255, 0, 0));
    assert_eq!(px(&buf, 15, 25), (255, 255, 255));
}

#[test]
fn fill_circle_covers_center() {
    let mut buf = Buffer::new(20, 20);
    draw::fill_circle(&mut buf, Offset::new(10, 10), 5, Color::Rgba(RED));
    assert_eq!(px(&buf, 10, 10), (255, 0, 0));
    assert_eq!(px(&buf, 10, 5), (255, 0, 0));
    assert_eq!(px(&buf, 0, 0), (255, 255, 255));
}

#[test]
fn rect_border_only() {
    let mut buf = Buffer::new(8, 8);
    draw::rect(&mut buf, Rect { x: 1, y: 1, w: 5, h: 5 }, Color::Rgba(RED));
    assert_eq!(px(&buf, 1, 1), (255, 0, 0));
    assert_eq!(px(&buf, 5, 1), (255, 0, 0));
    assert_eq!(px(&buf, 1, 5), (255, 0, 0));
    assert_eq!(px(&buf, 5, 5), (255, 0, 0));
    assert_eq!(px(&buf, 3, 3), (255, 255, 255));
}

#[test]
fn gradient_fill_matches_gradient_samples() {
    let red = Rgba { r: 255, g: 0, b: 0, a: 255 };
    let blue = Rgba { r: 0, g: 0, b: 255, a: 255 };
    let g = lite_graphics::DirectionalGradient::new(
        &[(0, red), (65535, blue)],
        false,
        65536,
        0,
        8,
        Offset::new(0, 0),
    );
    let mut buf = Buffer::new(8, 8);
    draw::fill_rect(
        &mut buf,
        Rect { x: 0, y: 0, w: 8, h: 8 },
        Color::DirectionalGradient(g.clone()),
    );
    for x in 0..8 {
        let want = g.get(Offset::new(x as i32, 0));
        assert_eq!(px(&buf, x, 0), (want.r, want.g, want.b), "column {}", x);
    }
    assert_eq!(px(&buf, 0, 0), (255, 0, 0));
}

#[test]
fn line_aa_endpoints_full_coverage() {
    let mut buf = Buffer::new(10, 10);
    draw::line_aa(&mut buf, Offset::new(1, 1), Offset::new(8, 4), Color::Rgba(RED));
    assert_eq!(px(&buf, 1, 1), (255, 0, 0));
    assert_eq!(px(&buf, 8, 4), (255, 0, 0));
}

#[test]
fn circle_aa_leaves_far_pixels() {
    let mut buf = Buffer::new(30, 30);
    draw::circle_aa(&mut buf, Offset::new(15, 15), 8, Color::Rgba(RED));
    assert_eq!(px(&buf, 15, 15), (255, 255, 255));
    assert_eq!(px(&buf, 0, 0), (255, 255, 255));
    // the boundary pixel straight up is fully covered
    assert_eq!(px(&buf, 15, 7), (255, 0, 0));
}

#[test]
fn fill_round_rect_center_and_corners() {
    let mut buf = Buffer::new(20, 20);
    draw::fill_round_rect(&mut buf, Rect { x: 2, y: 2, w: 16, h: 16 }, 4, Color::Rgba(RED));
    assert_eq!(px(&buf, 10, 10), (255, 0, 0));
    // the very corner pixel stays outside the rounded corner
    assert_eq!(px(&buf, 2, 2), (255, 255, 255));
    assert_eq!(px(&buf, 0, 0), (255, 255, 255));
}

#[test]
fn pie_quarter_only() {
    let mut buf = Buffer::new(30, 30);
    // angles 0..quarter turn cover the screen quadrant right and up
    draw::circle_pie(&mut buf, Offset::new(15, 15), 8, 0, 16384, Color::Rgba(RED));
    assert_eq!(px(&buf, 20, 11), (255, 0, 0));
    assert_eq!(px(&buf, 10, 20), (255, 255, 255));
}
