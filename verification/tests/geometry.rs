use lite_graphics::{Offset, Rect, Size};

#[test]
fn offset_arithmetic() {
    let a = Offset::new(3, -4);
    let b = Offset::new(-1, 10);
    let d = a.abs_diff(b);
    assert_eq!((d.w, d.h), (4, 14));
    let mx = a.max(b);
    assert_eq!((mx.x, mx.y), (3, 10));
    let mn = a.min(b);
    assert_eq!((mn.x, mn.y), (-1, -4));
    let s = a.plus(b);
    assert_eq!((s.x, s.y), (2, 6));
    let t = a.minus(b);
    assert_eq!((t.x, t.y), (4, -14));
    let n = a.neg();
    assert_eq!((n.x, n.y), (-3, 4));
    let ps = a.plus_size(Size::new(10, 20));
    assert_eq!((ps.x, ps.y), (13, 16));
}

#[test]
fn rect_accessors() {
    let r = Rect::new(Offset::new(2, 3), Size::new(4, 5));
    assert_eq!((r.x, r.y, r.w, r.h), (2, 3, 4, 5));
    assert_eq!((r.size().w, r.size().h), (4, 5));
    assert_eq!((r.offset().x, r.offset().y), (2, 3));
    let o2 = r.offset_2();
    assert_eq!((o2.x, o2.y), (6, 8));
}

#[test]
fn clamp_self_is_identity() {
    let r = Rect { x: 5, y: 7, w: 10, h: 12 };
    let c = r.clamp(r);
    assert_eq!((c.x, c.y, c.w, c.h), (5, 7, 10, 12));
}

#[test]
fn clamp_disjoint_is_zero_size() {
    let a = Rect { x: 100, y: 100, w: 5, h: 5 };
    let b = Rect { x: 0, y: 0, w: 10, h: 10 };
    let c = a.clamp(b);
    assert_eq!((c.x, c.y, c.w, c.h), (0, 0, 0, 0));
}

#[test]
fn clamp_intersects() {
    let a = Rect { x: -3, y: 2, w: 10, h: 10 };
    let b = Rect { x: 0, y: 0, w: 5, h: 5 };
    let c = a.clamp(b);
    assert_eq!((c.x, c.y, c.w, c.h), (0, 2, 5, 3));
}

#[test]
fn rect_translate() {
    let r = Rect { x: 1, y: 2, w: 3, h: 4 };
    let t = r.translate(Offset::new(10, -20));
    assert_eq!((t.x, t.y, t.w, t.h), (11, -18, 3, 4));
}
