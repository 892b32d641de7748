use lite_graphics::color::Color;
use lite_graphics::{Offset, Rgba};

#[test]
fn hex_short_forms() {
    assert_eq!(Rgba::hex("#f00"), Some(Rgba { r: 255, g: 0, b: 0, a: 255 }));
    assert_eq!(Rgba::hex("#0f0"), Some(Rgba { r: 0, g: 255, b: 0, a: 255 }));
    assert_eq!(Rgba::hex("#00f"), Some(Rgba { r: 0, g: 0, b: 255, a: 255 }));
    assert_eq!(Rgba::hex("#1234"), Some(Rgba { r: 0x11, g: 0x22, b: 0x33, a: 0x44 }));
    assert_eq!(Rgba::hex("#0000"), Some(Rgba { r: 0, g: 0, b: 0, a: 0 }));
}

#[test]
fn hex_long_forms() {
    assert_eq!(Rgba::hex("#ffa500"), Some(Rgba { r: 255, g: 165, b: 0, a: 255 }));
    assert_eq!(Rgba::hex("#C0C0C0"), Some(Rgba { r: 192, g: 192, b: 192, a: 255 }));
    assert_eq!(Rgba::hex("#11223344"), Some(Rgba { r: 0x11, g: 0x22, b: 0x33, a: 0x44 }));
    assert_eq!(Rgba::hex("#aBcDeF"), Some(Rgba { r: 0xab, g: 0xcd, b: 0xef, a: 255 }));
}

#[test]
fn hex_malformed() {
    assert_eq!(Rgba::hex(""), None);
    assert_eq!(Rgba::hex("#"), None);
    assert_eq!(Rgba::hex("#1"), None);
    assert_eq!(Rgba::hex("#12"), None);
    assert_eq!(Rgba::hex("#12345"), None);
    assert_eq!(Rgba::hex("#1234567"), None);
    assert_eq!(Rgba::hex("#123456789"), None);
    assert_eq!(Rgba::hex("123456"), None);
    assert_eq!(Rgba::hex("#12g"), None);
    assert_eq!(Rgba::hex("#xyz"), None);
}

#[test]
fn set_a_scales_alpha() {
    let c = Rgba { r: 10, g: 20, b: 30, a: 255 };
    let d = c.set_a(128);
    assert_eq!((d.r, d.g, d.b, d.a), (10, 20, 30, 128));
    let e = Rgba { r: 1, g: 2, b: 3, a: 128 }.set_a(128);
    assert_eq!(e.a, (128u16 * 128 / 255) as u8);
}

#[test]
fn lerp_exact() {
    let black = Rgba { r: 0, g: 0, b: 0, a: 255 };
    let white = Rgba { r: 255, g: 255, b: 255, a: 255 };
    assert_eq!(black.lerp(white, 0), black);
    assert_eq!(black.lerp(white, 255), white);
    let mid = black.lerp(white, 127);
    assert_eq!((mid.r, mid.g, mid.b, mid.a), (127, 127, 127, 255));
    let down = white.lerp(black, 100);
    // 255 - 255 * 100 / 255 = 155
    assert_eq!(down.r, 155);
}

#[test]
fn gamma_lerp_exact() {
    let black = Rgba { r: 0, g: 0, b: 0, a: 255 };
    let white = Rgba { r: 255, g: 255, b: 255, a: 255 };
    let mid = black.gamma_lerp(white, 128);
    // sqrt(65025 * 128 / 255) = isqrt(32640) = 180; alpha stays linear
    assert_eq!((mid.r, mid.g, mid.b), (180, 180, 180));
    assert_eq!(mid.a, 255);
    assert_eq!(black.gamma_lerp(white, 0), black);
    assert_eq!(black.gamma_lerp(white, 255), white);
}

#[test]
fn intensity_is_average() {
    let c = Rgba { r: 30, g: 60, b: 91, a: 255 };
    assert_eq!(c.intensity(), (30 + 60 + 91) / 3);
}

#[test]
fn rgba_get_ignores_position() {
    let c = Rgba { r: 1, g: 2, b: 3, a: 4 };
    assert_eq!(c.get(Offset::new(100, -50)), c);
}

#[test]
fn color_hex_and_accessors() {
    let c = Color::hex("#f00").unwrap();
    assert_eq!(c.get_rgba(), Some(Rgba { r: 255, g: 0, b: 0, a: 255 }));
    assert!(Color::hex("#nope").is_none());
    let sampled = c.get(Offset::new(3, 4));
    assert_eq!(sampled, Rgba { r: 255, g: 0, b: 0, a: 255 });
}

#[test]
fn color_set_a_and_map() {
    let c = Color::Rgba(Rgba { r: 9, g: 8, b: 7, a: 255 });
    let d = c.set_a(51);
    assert_eq!(d.get_rgba(), Some(Rgba { r: 9, g: 8, b: 7, a: 51 }));
    let swapped = c.map(|x: Rgba| Rgba { r: x.b, g: x.g, b: x.r, a: x.a });
    assert_eq!(swapped.get_rgba(), Some(Rgba { r: 7, g: 8, b: 9, a: 255 }));
}
