use lite_graphics::color::Color;
use lite_graphics::draw;
use lite_graphics::{Buffer, Offset, Rect, Rgba};

const RED: Rgba = Rgba { r: 255, g: 0, b: 0, a: 255 };

fn px(buf: &Buffer, x: usize, y: usize) -> (u8, u8, u8) {
    let d = buf.data();
    let i = (x + y * buf.width) * 3;
    (d[i], d[i + 1], d[i + 2])
}

fn count_touched(buf: &Buffer) -> usize {
    let mut n = 0;
    for y in 0..buf.height {
        for x in 0..buf.width {
            if px(buf, x, y) != (255, 255, 255) {
                n += 1;
            }
        }
    }
    n
}

#[test]
fn line_h_draws_run() {
    let mut buf = Buffer::new(8, 8);
    draw::line_h(&mut buf, Offset::new(1, 3), 4, RED.into_color());
    // the run covers length - 1 pixels starting at the origin
    assert_eq!(px(&buf, 1, 3), (255, 0, 0));
    assert_eq!(px(&buf, 3, 3), (255, 0, 0));
    assert_eq!(px(&buf, 4, 3), (255, 255, 255));
    assert_eq!(count_touched(&buf), 3);
}

#[test]
fn line_v_draws_run() {
    let mut buf = Buffer::new(8, 8);
    draw::line_v(&mut buf, Offset::new(2, 1), 4, RED.into_color());
    assert_eq!(px(&buf, 2, 1), (255, 0, 0));
    assert_eq!(px(&buf, 2, 3), (255, 0, 0));
    assert_eq!(px(&buf, 2, 4), (255, 255, 255));
    assert_eq!(count_touched(&buf), 3);
}

#[test]
fn steep_line_transposes() {
    let mut buf = Buffer::new(8, 8);
    draw::line(&mut buf, Offset::new(2, 0), Offset::new(3, 7), RED.into_color());
    assert_eq!(px(&buf, 2, 0), (255, 0, 0));
    assert_eq!(px(&buf, 3, 7), (255, 0, 0));
    // one pixel per row along the long axis
    assert_eq!(count_touched(&buf), 8);
}

#[test]
fn line_is_endpoint_order_independent() {
    let mut a = Buffer::new(12, 12);
    let mut b = Buffer::new(12, 12);
    draw::line(&mut a, Offset::new(1, 2), Offset::new(9, 7), RED.into_color());
    draw::line(&mut b, Offset::new(9, 7), Offset::new(1, 2), RED.into_color());
    assert_eq!(a.data().as_slice(), b.data().as_slice());
}

#[test]
fn circle_is_symmetric() {
    let mut buf = Buffer::new(31, 31);
    draw::circle(&mut buf, Offset::new(15, 15), 9, RED.into_color());
    for y in 0..31usize {
        for x in 0..31usize {
            assert_eq!(px(&buf, x, y), px(&buf, 30 - x, y), "x mirror {},{}", x, y);
            assert_eq!(px(&buf, x, y), px(&buf, x, 30 - y), "y mirror {},{}", x, y);
        }
    }
    assert_eq!(px(&buf, 15, 6), (255, 0, 0));
    assert_eq!(px(&buf, 6, 15), (255, 0, 0));
    assert_eq!(px(&buf, 15, 15), (255, 255, 255));
}

#[test]
fn circle_aa_bands_partial_coverage() {
    let mut buf = Buffer::new(30, 30);
    draw::circle_aa(&mut buf, Offset::new(15, 15), 8, RED.into_color());
    // some touched pixel is only partially covered (blended, not pure red)
    let mut partial = false;
    for y in 0..30 {
        for x in 0..30 {
            let p = px(&buf, x, y);
            if p != (255, 255, 255) && p != (255, 0, 0) {
                partial = true;
            }
        }
    }
    assert!(partial);
}

#[test]
fn fill_circle_aa_solid_inside() {
    let mut buf = Buffer::new(30, 30);
    draw::fill_circle_aa(&mut buf, Offset::new(15, 15), 8, RED.into_color());
    assert_eq!(px(&buf, 15, 15), (255, 0, 0));
    assert_eq!(px(&buf, 12, 15), (255, 0, 0));
    assert_eq!(px(&buf, 0, 0), (255, 255, 255));
}

#[test]
fn round_rect_border_smoke() {
    let mut buf = Buffer::new(20, 20);
    draw::round_rect(&mut buf, Rect { x: 2, y: 2, w: 16, h: 16 }, 4, RED.into_color());
    // straight edge midpoints are drawn, the interior is not
    assert_eq!(px(&buf, 10, 2), (255, 0, 0));
    assert_eq!(px(&buf, 2, 10), (255, 0, 0));
    assert_eq!(px(&buf, 10, 10), (255, 255, 255));
    // the square corner itself stays clear
    assert_eq!(px(&buf, 2, 2), (255, 255, 255));
}

#[test]
fn round_rect_aa_smoke() {
    let mut buf = Buffer::new(20, 20);
    draw::round_rect_aa(&mut buf, Rect { x: 2, y: 2, w: 16, h: 16 }, 4, RED.into_color());
    assert_eq!(px(&buf, 10, 2), (255, 0, 0));
    assert_eq!(px(&buf, 10, 10), (255, 255, 255));
    assert_eq!(px(&buf, 2, 2), (255, 255, 255));
}

#[test]
fn fill_round_rect_aa_smoke() {
    let mut buf = Buffer::new(20, 20);
    draw::fill_round_rect_aa(&mut buf, Rect { x: 2, y: 2, w: 16, h: 16 }, 4, RED.into_color());
    assert_eq!(px(&buf, 10, 10), (255, 0, 0));
    assert_eq!(px(&buf, 10, 2), (255, 0, 0));
    assert_eq!(px(&buf, 0, 0), (255, 255, 255));
}

#[test]
fn pie_aa_quarter_smoke() {
    let mut buf = Buffer::new(30, 30);
    draw::circle_pie_aa(&mut buf, Offset::new(15, 15), 8, 0, 16384, RED.into_color());
    // well inside the wedge: fully covered
    assert_eq!(px(&buf, 19, 12), (255, 0, 0));
    // the opposite quadrant stays untouched
    assert_eq!(px(&buf, 10, 20), (255, 255, 255));
}

#[test]
fn arc_aa_full_turn_is_a_ring() {
    let mut buf = Buffer::new(30, 30);
    draw::circle_arc_aa(&mut buf, Offset::new(15, 15), 8, 0, 65536, RED.into_color());
    let mut ref_buf = Buffer::new(30, 30);
    draw::circle_aa(&mut ref_buf, Offset::new(15, 15), 8, RED.into_color());
    assert_eq!(buf.data().as_slice(), ref_buf.data().as_slice());
}

trait IntoColor {
    fn into_color(self) -> Color;
}

impl IntoColor for Rgba {
    fn into_color(self) -> Color {
        Color::Rgba(self)
    }
}
