use lite_graphics::{DirectionalGradient, GradientBase, Offset, Rgba};

const RED: Rgba = Rgba { r: 255, g: 0, b: 0, a: 255 };
const BLUE: Rgba = Rgba { r: 0, g: 0, b: 255, a: 255 };

#[test]
fn empty_gradient_is_black() {
    let g = GradientBase::new(&[], false);
    let black = Rgba { r: 0, g: 0, b: 0, a: 255 };
    assert_eq!(g.get(0), black);
    assert_eq!(g.get(30000), black);
    assert_eq!(g.get(65535), black);
}

#[test]
fn single_stop_is_constant() {
    let g = GradientBase::new(&[(12345, RED)], true);
    assert_eq!(g.get(0), RED);
    assert_eq!(g.get(12345), RED);
    assert_eq!(g.get(65535), RED);
}

#[test]
fn two_stop_endpoints_exact() {
    let g = GradientBase::new(&[(0, RED), (65535, BLUE)], false);
    assert_eq!(g.get(0), RED);
    assert_eq!(g.get(65535), BLUE);
}

#[test]
fn two_stop_midpoint_interpolates() {
    let g = GradientBase::new(&[(0, RED), (65535, BLUE)], false);
    let mid = g.get(32767);
    // t = 32767 * 255 / 65535 = 127
    assert_eq!((mid.r, mid.g, mid.b, mid.a), (128, 0, 127, 255));
}

#[test]
fn stops_are_sorted_and_endpoints_synthesized() {
    let g = GradientBase::new(&[(40000, BLUE), (20000, RED)], false);
    // positions below the first stop take its color, above the last take its
    assert_eq!(g.get(0), RED);
    assert_eq!(g.get(20000), RED);
    assert_eq!(g.get(40000), BLUE);
    assert_eq!(g.get(65535), BLUE);
}

#[test]
fn duplicate_position_takes_last() {
    let g = GradientBase::new(&[(30000, RED), (30000, BLUE)], false);
    assert_eq!(g.get(30000), BLUE);
}

#[test]
fn gradient_set_a_scales_stops() {
    let g = GradientBase::new(&[(0, RED), (65535, BLUE)], false);
    let h = g.set_a(0);
    assert_eq!(h.get(0).a, 0);
    assert_eq!(h.get(65535).a, 0);
    assert_eq!(h.get(0).r, 255);
}

#[test]
fn directional_gradient_projects() {
    // points straight along +x, spanning 100 pixels from the origin
    let g = DirectionalGradient::new(
        &[(0, RED), (65535, BLUE)],
        false,
        65536,
        0,
        100,
        Offset::new(0, 0),
    );
    assert_eq!(g.get(Offset::new(0, 7)), RED);
    assert_eq!(g.get(Offset::new(-50, 0)), RED);
    assert_eq!(g.get(Offset::new(100, 3)), BLUE);
    assert_eq!(g.get(Offset::new(500, 3)), BLUE);
    let mid = g.get(Offset::new(50, 0));
    assert_eq!((mid.r, mid.g, mid.b, mid.a), (128, 0, 127, 255));
}

#[test]
fn directional_gradient_repeats() {
    let g = DirectionalGradient::new(
        &[(0, RED), (65535, BLUE)],
        true,
        65536,
        0,
        100,
        Offset::new(0, 0),
    );
    let a = g.get(Offset::new(50, 0));
    let b = g.get(Offset::new(150, 0));
    assert_eq!(a, b);
}

#[test]
fn gradient_color_has_no_rgba() {
    let g = DirectionalGradient::new(
        &[(0, RED), (65535, BLUE)],
        false,
        65536,
        0,
        100,
        Offset::new(0, 0),
    );
    let c = lite_graphics::Color::DirectionalGradient(g);
    assert!(c.get_rgba().is_none());
    assert_eq!(c.get(Offset::new(0, 0)), RED);
}

#[test]
fn directional_gradient_set_a() {
    let g = DirectionalGradient::new(
        &[(0, RED), (65535, BLUE)],
        false,
        65536,
        0,
        100,
        Offset::new(0, 0),
    );
    let h = g.set_a(0);
    assert_eq!(h.get(Offset::new(0, 0)).a, 0);
}
