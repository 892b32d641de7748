//! The RGBA color value: hex-text parsing, alpha scaling, linear and
//! gamma-aware interpolation, and the channel arithmetic shared with the
//! blending code.

use vstd::prelude::*;

verus! {

use crate::geom::Offset;
use crate::gradient::{dg_pos, grad_at, rgba_set_a, DirectionalGradient};
use crate::math::{isqrt, lemma_scale_full, lemma_scale_le, sqrt_i};
use vstd::string::StringSliceAdditionalSpecFns;

/// An 8-bit-per-channel color with alpha. Immutable value type.
#[derive(Clone, Copy, PartialEq, Eq, Structural, Debug)]
pub struct Rgba {
    pub r: u8,
    pub g: u8,
    pub b: u8,
    pub a: u8,
}

/// One channel of linear interpolation from `dst` toward `src` by `t/255`:
/// `(src - dst) * t / 255 + dst`, with the division truncated toward zero
/// as the machine arithmetic truncates it.
pub open spec fn lerp_ch(dst: int, src: int, t: int) -> int {
    if src >= dst {
        dst + (src - dst) * t / 255
    } else {
        dst - (dst - src) * t / 255
    }
}

/// Interpolation stays within the channel range and hits the endpoints
/// exactly: `t = 0` returns `dst` unchanged and `t = 255` returns `src`.
pub proof fn lemma_lerp_ch(dst: int, src: int, t: int)
    requires
        0 <= dst <= 255,
        0 <= src <= 255,
        0 <= t <= 255,
    ensures
        0 <= lerp_ch(dst, src, t) <= 255,
        t == 0 ==> lerp_ch(dst, src, t) == dst,
        t == 255 ==> lerp_ch(dst, src, t) == src,
    {
    if src >= dst {
        lemma_scale_le(src - dst, t, 255);
        lemma_scale_full(src - dst);
    } else {
        lemma_scale_le(dst - src, t, 255);
        lemma_scale_full(dst - src);
    }
}

/// One channel of interpolation, in executable form.
pub(crate) fn lerp_channel(dst: u8, src: u8, t: u8) -> (r: u8)
    ensures
        r as int == lerp_ch(dst as int, src as int, t as int),
{
    proof {
        lemma_lerp_ch(dst as int, src as int, t as int);
    }
    if src >= dst {
        let add: u32 = (src - dst) as u32 * t as u32 / 255;
        proof {
            lemma_scale_le(src as int - dst as int, t as int, 255);
        }
        dst + add as u8
    } else {
        let sub: u32 = (dst - src) as u32 * t as u32 / 255;
        proof {
            lemma_scale_le(dst as int - src as int, t as int, 255);
        }
        dst - sub as u8
    }
}

/// The radicand of one gamma-aware interpolation channel:
/// `(src^2 - dst^2) * t / 255 + dst^2`, truncated toward zero.
pub open spec fn gamma_ch(dst: int, src: int, t: int) -> int {
    if src >= dst {
        dst * dst + (src * src - dst * dst) * t / 255
    } else {
        dst * dst - (dst * dst - src * src) * t / 255
    }
}

/// The gamma radicand stays within `[0, 255 * 255]`.
pub proof fn lemma_gamma_ch(dst: int, src: int, t: int)
    requires
        0 <= dst <= 255,
        0 <= src <= 255,
        0 <= t <= 255,
    ensures
        0 <= gamma_ch(dst, src, t) <= 255 * 255,
{
    assert(dst * dst <= 255 * 255 && src * src <= 255 * 255 && (src >= dst ==> dst * dst <= src
        * src) && (dst >= src ==> src * src <= dst * dst)) by (nonlinear_arith)
        requires
            0 <= dst <= 255,
            0 <= src <= 255;
    if src >= dst {
        lemma_scale_le(src * src - dst * dst, t, 255);
    } else {
        lemma_scale_le(dst * dst - src * src, t, 255);
    }
}

/// One channel of gamma-aware interpolation, in executable form.
pub(crate) fn gamma_channel(dst: u8, src: u8, t: u8) -> (r: u8)
    ensures
        r as int == sqrt_i(gamma_ch(dst as int, src as int, t as int)),
{
    proof {
        lemma_gamma_ch(dst as int, src as int, t as int);
        assert(dst as int * dst as int <= 255 * 255 && src as int * src as int <= 255
            * 255) by (nonlinear_arith)
            requires
                dst as int <= 255,
                src as int <= 255;
    }
    let d2: u32 = dst as u32 * dst as u32;
    let s2: u32 = src as u32 * src as u32;
    proof {
        assert((src >= dst ==> s2 >= d2) && (src < dst ==> s2 < d2)) by (nonlinear_arith)
            requires
                d2 == dst as int * dst as int,
                s2 == src as int * src as int,
                0 <= dst,
                0 <= src;
    }
    let v: u32 = if src >= dst {
        proof {
            lemma_scale_le(s2 as int - d2 as int, t as int, 255);
        }
        d2 + (s2 - d2) * t as u32 / 255
    } else {
        proof {
            lemma_scale_le(d2 as int - s2 as int, t as int, 255);
        }
        d2 - (d2 - s2) * t as u32 / 255
    };
    let r = isqrt(v);
    proof {
        crate::math::lemma_sqrt_i(v as int);
        assert(r * r <= 255 * 255 ==> r <= 255) by (nonlinear_arith);
    }
    r as u8
}

/// The alpha produced by scaling `a` by `scale/255`.
pub open spec fn scale_alpha(a: int, scale: int) -> int {
    scale * a / 255
}

/// Whether a byte is an ASCII hexadecimal digit.
pub open spec fn is_hex_digit(b: u8) -> bool {
    (0x30 <= b && b <= 0x39) || (0x41 <= b && b <= 0x46) || (0x61 <= b && b <= 0x66)
}

/// The value of an ASCII hexadecimal digit.
pub open spec fn hex_val(b: u8) -> int {
    if 0x30 <= b && b <= 0x39 {
        b - 0x30
    } else if 0x41 <= b && b <= 0x46 {
        b - 0x37
    } else {
        b - 0x57
    }
}

/// The value of a two-digit hexadecimal pair.
pub open spec fn hex_pair(hi: u8, lo: u8) -> int {
    16 * hex_val(hi) + hex_val(lo)
}

/// The color denoted by a hex literal: `#RGB`, `#RGBA`, `#RRGGBB` or
/// `#RRGGBBAA` (case-insensitive), or `None` for any other byte string.
pub open spec fn hex_color(s: Seq<u8>) -> Option<Rgba> {
    if s.len() == 4 && s[0] == 0x23 && is_hex_digit(s[1]) && is_hex_digit(s[2]) && is_hex_digit(
        s[3],
    ) {
        Some(
            Rgba {
                r: (17 * hex_val(s[1])) as u8,
                g: (17 * hex_val(s[2])) as u8,
                b: (17 * hex_val(s[3])) as u8,
                a: 255,
            },
        )
    } else if s.len() == 5 && s[0] == 0x23 && is_hex_digit(s[1]) && is_hex_digit(s[2])
        && is_hex_digit(s[3]) && is_hex_digit(s[4]) {
        Some(
            Rgba {
                r: (17 * hex_val(s[1])) as u8,
                g: (17 * hex_val(s[2])) as u8,
                b: (17 * hex_val(s[3])) as u8,
                a: (17 * hex_val(s[4])) as u8,
            },
        )
    } else if s.len() == 7 && s[0] == 0x23 && is_hex_digit(s[1]) && is_hex_digit(s[2])
        && is_hex_digit(s[3]) && is_hex_digit(s[4]) && is_hex_digit(s[5]) && is_hex_digit(s[6]) {
        Some(
            Rgba {
                r: hex_pair(s[1], s[2]) as u8,
                g: hex_pair(s[3], s[4]) as u8,
                b: hex_pair(s[5], s[6]) as u8,
                a: 255,
            },
        )
    } else if s.len() == 9 && s[0] == 0x23 && is_hex_digit(s[1]) && is_hex_digit(s[2])
        && is_hex_digit(s[3]) && is_hex_digit(s[4]) && is_hex_digit(s[5]) && is_hex_digit(s[6])
        && is_hex_digit(s[7]) && is_hex_digit(s[8]) {
        Some(
            Rgba {
                r: hex_pair(s[1], s[2]) as u8,
                g: hex_pair(s[3], s[4]) as u8,
                b: hex_pair(s[5], s[6]) as u8,
                a: hex_pair(s[7], s[8]) as u8,
            },
        )
    } else {
        None
    }
}

/// Decodes one ASCII hexadecimal digit.
fn hex_digit(b: u8) -> (r: Option<u8>)
    ensures
        is_hex_digit(b) <==> r is Some,
        r is Some ==> r->0 == hex_val(b),
{
    if 0x30 <= b && b <= 0x39 {
        Some(b - 0x30)
    } else if 0x41 <= b && b <= 0x46 {
        Some(b - 0x37)
    } else if 0x61 <= b && b <= 0x66 {
        Some(b - 0x57)
    } else {
        None
    }
}

/// Decodes a pair of hexadecimal digits into one channel value.
fn hex_pair_val(hi: u8, lo: u8) -> (r: Option<u8>)
    ensures
        (is_hex_digit(hi) && is_hex_digit(lo)) <==> r is Some,
        r is Some ==> r->0 == hex_pair(hi, lo),
{
    match (hex_digit(hi), hex_digit(lo)) {
        (Some(h), Some(l)) => Some(16 * h + l),
        _ => None,
    }
}

/// Decodes one doubled hexadecimal digit (the short `#RGB` form).
fn hex_single_val(d: u8) -> (r: Option<u8>)
    ensures
        is_hex_digit(d) <==> r is Some,
        r is Some ==> r->0 == 17 * hex_val(d),
{
    match hex_digit(d) {
        Some(h) => Some(17 * h),
        None => None,
    }
}

impl Rgba {
    /// Parses a `#RGB`, `#RGBA`, `#RRGGBB` or `#RRGGBBAA` hex literal,
    /// case-insensitive; any malformed input yields `None`.
    pub fn hex(val: &str) -> (r: Option<Rgba>)
        ensures
            r == hex_color(val.spec_bytes()),
    {
        let s = val.as_bytes();
        let n = s.len();
        if n != 4 && n != 5 && n != 7 && n != 9 {
            return None;
        }
        if s[0] != 0x23 {
            return None;
        }
        if n == 4 {
            match (hex_single_val(s[1]), hex_single_val(s[2]), hex_single_val(s[3])) {
                (Some(r), Some(g), Some(b)) => Some(Rgba { r, g, b, a: 255 }),
                _ => None,
            }
        } else if n == 5 {
            match (
                hex_single_val(s[1]),
                hex_single_val(s[2]),
                hex_single_val(s[3]),
                hex_single_val(s[4]),
            ) {
                (Some(r), Some(g), Some(b), Some(a)) => Some(Rgba { r, g, b, a }),
                _ => None,
            }
        } else if n == 7 {
            match (hex_pair_val(s[1], s[2]), hex_pair_val(s[3], s[4]), hex_pair_val(s[5], s[6])) {
                (Some(r), Some(g), Some(b)) => Some(Rgba { r, g, b, a: 255 }),
                _ => None,
            }
        } else {
            match (
                hex_pair_val(s[1], s[2]),
                hex_pair_val(s[3], s[4]),
                hex_pair_val(s[5], s[6]),
                hex_pair_val(s[7], s[8]),
            ) {
                (Some(r), Some(g), Some(b), Some(a)) => Some(Rgba { r, g, b, a }),
                _ => None,
            }
        }
    }

    /// Scales the existing alpha by `a/255`, keeping the color channels.
    pub fn set_a(self, a: u8) -> (r: Self)
        ensures
            r.r == self.r,
            r.g == self.g,
            r.b == self.b,
            r.a == scale_alpha(self.a as int, a as int),
    {
        proof {
            lemma_scale_le(a as int, self.a as int, 255);
            assert(a as int * self.a as int == self.a as int * a as int) by (nonlinear_arith);
        }
        Rgba { r: self.r, g: self.g, b: self.b, a: (a as u16 * self.a as u16 / 255) as u8 }
    }

    /// Linear interpolation: every channel moves from `self` toward
    /// `other` by `t/255`.
    pub fn lerp(self, other: Self, t: u8) -> (r: Self)
        ensures
            r.r == lerp_ch(self.r as int, other.r as int, t as int),
            r.g == lerp_ch(self.g as int, other.g as int, t as int),
            r.b == lerp_ch(self.b as int, other.b as int, t as int),
            r.a == lerp_ch(self.a as int, other.a as int, t as int),
    {
        Rgba {
            r: lerp_channel(self.r, other.r, t),
            g: lerp_channel(self.g, other.g, t),
            b: lerp_channel(self.b, other.b, t),
            a: lerp_channel(self.a, other.a, t),
        }
    }

    /// Interpolation with approximate gamma correction: the color channels
    /// follow `sqrt((other^2 - self^2) * t / 255 + self^2)`, the alpha
    /// channel interpolates linearly.
    pub fn gamma_lerp(self, other: Self, t: u8) -> (r: Self)
        ensures
            r.r == sqrt_i(gamma_ch(self.r as int, other.r as int, t as int)),
            r.g == sqrt_i(gamma_ch(self.g as int, other.g as int, t as int)),
            r.b == sqrt_i(gamma_ch(self.b as int, other.b as int, t as int)),
            r.a == lerp_ch(self.a as int, other.a as int, t as int),
    {
        Rgba {
            r: gamma_channel(self.r, other.r, t),
            g: gamma_channel(self.g, other.g, t),
            b: gamma_channel(self.b, other.b, t),
            a: lerp_channel(self.a, other.a, t),
        }
    }

    /// The average of the three color channels.
    pub fn intensity(&self) -> (r: u8)
        ensures
            r == (self.r + self.g + self.b) as int / 3,
    {
        ((self.r as u16 + self.g as u16 + self.b as u16) / 3) as u8
    }

    /// Samples the color at a position: a solid color is the same
    /// everywhere.
    pub fn get(&self, pos: Offset) -> (r: Rgba)
        ensures
            r == *self,
    {
        let _ = pos;
        *self
    }
}

/// A per-pixel color source: either one solid color or a directional
/// gradient sampled at each pixel's absolute position.
#[derive(Clone)]
pub enum Color {
    Rgba(Rgba),
    DirectionalGradient(DirectionalGradient),
}

/// The color a source yields at an absolute pixel position.
pub open spec fn color_at(c: Color, pos: Offset) -> Rgba {
    match c {
        Color::Rgba(x) => x,
        Color::DirectionalGradient(g) => grad_at(g.base.steps@, dg_pos(g, pos)),
    }
}

/// The color a source yields at a position after its alpha is scaled by
/// `a/255`: a solid color scales directly, a gradient scales every stop
/// before the lookup interpolates.
pub open spec fn color_at_a(c: Color, pos: Offset, a: int) -> Rgba {
    match c {
        Color::Rgba(x) => rgba_set_a(x, a),
        Color::DirectionalGradient(g) => grad_at(
            g.base.steps@.map_values(|s: (u16, Rgba)| (s.0, rgba_set_a(s.1, a))),
            dg_pos(g, pos),
        ),
    }
}

/// Sampling an alpha-scaled source is `color_at_a` of the original: the
/// functional form of what `set_a` followed by `get` computes.
pub proof fn lemma_color_at_set_a(c: Color, a: int, shaded: Color, pos: Offset)
    requires
        color_set_a_rel(c, a, shaded),
    ensures
        color_at(shaded, pos) == color_at_a(c, pos, a),
{
    match (c, shaded) {
        (Color::DirectionalGradient(g), Color::DirectionalGradient(h)) => {
            assert(h.base.steps@ =~= g.base.steps@.map_values(
                |s: (u16, Rgba)| (s.0, rgba_set_a(s.1, a)),
            ));
            assert(dg_pos(h, pos) == dg_pos(g, pos));
        },
        _ => {},
    }
}

/// How a source relates to the same source with its alpha scaled by
/// `a/255`: the variant is kept, and a gradient scales every stop.
pub open spec fn color_set_a_rel(c: Color, a: int, r: Color) -> bool {
    match (c, r) {
        (Color::Rgba(x), Color::Rgba(y)) => y == rgba_set_a(x, a),
        (Color::DirectionalGradient(g), Color::DirectionalGradient(h)) => {
            &&& h.dir_x == g.dir_x
            &&& h.dir_y == g.dir_y
            &&& h.scale == g.scale
            &&& h.offset == g.offset
            &&& h.base.repeating == g.base.repeating
            &&& h.base.steps@.len() == g.base.steps@.len()
            &&& forall|i: int|
                0 <= i < g.base.steps@.len() ==> (#[trigger] h.base.steps@[i]) == (
                g.base.steps@[i].0, rgba_set_a(g.base.steps@[i].1, a))
        },
        _ => false,
    }
}

impl Color {
    /// A solid color is always well-formed; a gradient carries the stop
    /// list and direction invariants.
    pub open spec fn wf(&self) -> bool {
        match *self {
            Color::Rgba(_) => true,
            Color::DirectionalGradient(g) => g.wf(),
        }
    }

    /// Parses a hex literal as a solid color source.
    pub fn hex(val: &str) -> (r: Option<Color>)
        ensures
            match hex_color(val.spec_bytes()) {
                Some(c) => r == Some(Color::Rgba(c)),
                None => r is None,
            },
    {
        match Rgba::hex(val) {
            Some(x) => Some(Color::Rgba(x)),
            None => None,
        }
    }

    /// Samples the source at an absolute pixel position.
    pub fn get(&self, pos: Offset) -> (r: Rgba)
        requires
            self.wf(),
        ensures
            r == color_at(*self, pos),
    {
        match self {
            Color::Rgba(rgba) => rgba.get(pos),
            Color::DirectionalGradient(grad) => grad.get(pos),
        }
    }

    /// Scales the source's alpha by `a/255`, preserving the variant.
    pub fn set_a(&self, a: u8) -> (r: Self)
        requires
            self.wf(),
        ensures
            r.wf(),
            color_set_a_rel(*self, a as int, r),
    {
        match self {
            Color::Rgba(rgba) => Color::Rgba(rgba.set_a(a)),
            Color::DirectionalGradient(grad) => Color::DirectionalGradient(grad.set_a(a)),
        }
    }

    /// Applies `f` to a solid color; a gradient passes through unchanged.
    pub fn map<F: Fn(Rgba) -> Rgba>(self, f: F) -> (r: Self)
        requires
            forall|c: Rgba| f.requires((c,)),
        ensures
            match (self, r) {
                (Color::Rgba(c), Color::Rgba(rc)) => f.ensures((c,), rc),
                (x, y) => y == x,
            },
    {
        match self {
            Color::Rgba(rgba) => Color::Rgba(f(rgba)),
            x => x,
        }
    }

    /// The solid color inside the source, if it is one.
    pub fn get_rgba(&self) -> (r: Option<Rgba>)
        ensures
            match *self {
                Color::Rgba(c) => r == Some(c),
                Color::DirectionalGradient(_) => r is None,
            },
    {
        if let Color::Rgba(rgba) = self {
            Some(*rgba)
        } else {
            None
        }
    }
}

} // verus!
