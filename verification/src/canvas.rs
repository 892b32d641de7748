//! The canvas: a row-major RGB byte store, a stack of nested clip
//! subregions, and the single `point` blend operation every shape
//! funnels through.

use vstd::prelude::*;

verus! {

use crate::color::{color_at, lemma_lerp_ch, lerp_ch, Color};
use crate::geom::{rect_clamp, Offset, Rect, Size};
use vstd::arithmetic::div_mod::lemma_fundamental_div_mod_converse;

/// The widest grid either axis may span; keeps every index computation
/// comfortably inside the machine integer ranges.
pub const GRID_MAX: usize = 0x4000;

/// The rectangle lies inside a `w` by `h` pixel grid.
pub open spec fn rect_in_grid(r: Rect, w: int, h: int) -> bool {
    0 <= r.x && 0 <= r.y && r.x + r.w <= w && r.y + r.h <= h
}

/// The store after blending the sampled color `c` into the pixel whose
/// three bytes start at `base`: each channel moves toward the sampled
/// one by `a/255`, so `a = 255` overwrites and `a = 0` leaves the pixel
/// unchanged.
pub open spec fn blend_px(d: Seq<u8>, base: int, c: crate::color::Rgba) -> Seq<u8> {
    d.update(base, lerp_ch(d[base] as int, c.r as int, c.a as int) as u8).update(
        base + 1,
        lerp_ch(d[base + 1] as int, c.g as int, c.a as int) as u8,
    ).update(base + 2, lerp_ch(d[base + 2] as int, c.b as int, c.a as int) as u8)
}

/// An opaque color overwrites: blending with alpha `255` leaves exactly
/// the sampled color's channels in the pixel.
pub proof fn lemma_blend_opaque(d: Seq<u8>, base: int, c: crate::color::Rgba)
    requires
        0 <= base,
        base + 3 <= d.len(),
        c.a == 255,
    ensures
        blend_px(d, base, c)[base] == c.r,
        blend_px(d, base, c)[base + 1] == c.g,
        blend_px(d, base, c)[base + 2] == c.b,
{
    lemma_lerp_ch(d[base] as int, c.r as int, 255);
    lemma_lerp_ch(d[base + 1] as int, c.g as int, 255);
    lemma_lerp_ch(d[base + 2] as int, c.b as int, 255);
}

/// A fully transparent color never changes the destination: blending
/// with alpha `0` returns the store unchanged.
pub proof fn lemma_blend_transparent(d: Seq<u8>, base: int, c: crate::color::Rgba)
    requires
        0 <= base,
        base + 3 <= d.len(),
        c.a == 0,
    ensures
        blend_px(d, base, c) =~= d,
{
    lemma_lerp_ch(d[base] as int, c.r as int, 0);
    lemma_lerp_ch(d[base + 1] as int, c.g as int, 0);
    lemma_lerp_ch(d[base + 2] as int, c.b as int, 0);
}

/// Blending twice is the two-step composition of the blend formula, not a
/// single blend at a combined alpha: blending white over black at alpha
/// `128` twice gives `191`, while one blend at the union alpha
/// `128 + 128 - 128 * 128 / 255 = 192` gives `192`.
pub proof fn lemma_blend_twice_not_one_blend()
    ensures
        lerp_ch(lerp_ch(0, 255, 128), 255, 128) == 191,
        128 + 128 - 128 * 128 / 255 == 192,
        lerp_ch(0, 255, 192) == 192,
        lerp_ch(lerp_ch(0, 255, 128), 255, 128) != lerp_ch(0, 255, 192),
{
}

/// Distinct pixel coordinates of one grid occupy distinct cells.
pub proof fn lemma_pixel_inj(row: int, x1: int, y1: int, x2: int, y2: int)
    requires
        1 <= row,
        0 <= x1 < row,
        0 <= x2 < row,
        0 <= y1,
        0 <= y2,
        (x1, y1) != (x2, y2),
    ensures
        x1 + y1 * row != x2 + y2 * row,
{
    if x1 + y1 * row == x2 + y2 * row {
        lemma_fundamental_div_mod_converse(x1 + y1 * row, row, y1, x1);
        lemma_fundamental_div_mod_converse(x2 + y2 * row, row, y2, x2);
    }
}

/// An in-memory RGB canvas: the pixel store, its dimensions, and the
/// stack of nested clip subregions (the root region always remains).
pub struct Buffer {
    pub data: Vec<u8>,
    pub width: usize,
    pub height: usize,
    pub subregions: Vec<Rect>,
}

impl Buffer {
    /// The store holds exactly `width * height` RGB pixels, the grid fits
    /// the machine limits, and every stacked subregion lies inside it.
    pub open spec fn wf(&self) -> bool {
        &&& self.width <= GRID_MAX
        &&& self.height <= GRID_MAX
        &&& self.data@.len() == self.width * self.height * 3
        &&& self.subregions@.len() >= 1
        &&& forall|i: int|
            0 <= i < self.subregions@.len() ==> rect_in_grid(
                #[trigger] self.subregions@[i],
                self.width as int,
                self.height as int,
            )
    }

    /// The innermost active subregion, in absolute coordinates.
    pub open spec fn clip(&self) -> Rect {
        self.subregions@.last()
    }

    /// Creates a canvas filled with opaque white.
    pub fn new(width: usize, height: usize) -> (r: Buffer)
        requires
            width <= GRID_MAX,
            height <= GRID_MAX,
        ensures
            r.wf(),
            r.width == width,
            r.height == height,
            forall|k: int| 0 <= k < r.data@.len() ==> r.data@[k] == 255,
            r.subregions@ =~= seq![
                Rect { x: 0, y: 0, w: width as u32, h: height as u32 },
            ],
    {
        proof {
            assert(width as int * height as int <= 0x1000_0000) by (nonlinear_arith)
                requires
                    width as int <= 0x4000,
                    height as int <= 0x4000,
                    0 <= width as int,
                    0 <= height as int;
        }
        let n: usize = width * height * 3;
        let mut data: Vec<u8> = Vec::new();
        let mut i: usize = 0;
        while i < n
            invariant
                i <= n,
                data@.len() == i,
                forall|k: int| 0 <= k < i ==> data@[k] == 255,
            decreases n - i,
        {
            data.push(255);
            i = i + 1;
        }
        let mut subregions: Vec<Rect> = Vec::new();
        subregions.push(Rect { x: 0, y: 0, w: width as u32, h: height as u32 });
        Buffer { data, width, height, subregions }
    }

    /// Read-only access to the raw pixel bytes.
    pub fn data(&self) -> (r: &Vec<u8>)
        ensures
            r@ == self.data@,
    {
        &self.data
    }

    /// The canvas extent.
    pub fn size(&self) -> (s: Size)
        requires
            self.wf(),
        ensures
            s == (Size { w: self.width as u32, h: self.height as u32 }),
    {
        Size { w: self.width as u32, h: self.height as u32 }
    }

    /// The innermost active subregion, in absolute coordinates.
    pub fn get_subregion(&self) -> (r: Rect)
        requires
            self.wf(),
        ensures
            r == self.clip(),
    {
        self.subregions[self.subregions.len() - 1]
    }

    /// Limits drawing to `rect`, interpreted relative to the current
    /// subregion and clamped to it; pushes the result as the new
    /// innermost region.
    pub fn subregion(&mut self, rect: Rect)
        requires
            old(self).wf(),
            rect.wf(),
        ensures
            final(self).wf(),
            final(self).data@ == old(self).data@,
            final(self).width == old(self).width,
            final(self).height == old(self).height,
            final(self).subregions@ == old(self).subregions@.push(
                subregion_push(old(self).clip(), rect),
            ),
    {
        let cur = self.subregions[self.subregions.len() - 1];
        let clamped = rect.clamp(Rect { x: 0, y: 0, w: cur.w, h: cur.h });
        proof {
            crate::geom::lemma_clamp_within(rect, Rect { x: 0, y: 0, w: cur.w, h: cur.h });
        }
        let pushed = clamped.translate(Offset { x: cur.x, y: cur.y });
        self.subregions.push(pushed);
    }

    /// Pops the innermost subregion; at the root this is a no-op.
    pub fn end_subregion(&mut self)
        requires
            old(self).wf(),
        ensures
            final(self).wf(),
            final(self).data@ == old(self).data@,
            final(self).width == old(self).width,
            final(self).height == old(self).height,
            old(self).subregions@.len() == 1 ==> final(self).subregions@ == old(
                self,
            ).subregions@,
            old(self).subregions@.len() > 1 ==> final(self).subregions@ == old(
                self,
            ).subregions@.drop_last(),
    {
        if self.subregions.len() == 1 {
            return ;
        }
        self.subregions.pop();
    }

    /// Draws one pixel: `(x, y)` is relative to the innermost subregion,
    /// a point outside that region's extent is silently dropped, and an
    /// inside point samples the color at its absolute position and
    /// blends it over the stored pixel.
    pub fn point(&mut self, x: i32, y: i32, color: &Color)
        requires
            old(self).wf(),
            color.wf(),
        ensures
            final(self).wf(),
            final(self).width == old(self).width,
            final(self).height == old(self).height,
            final(self).subregions@ == old(self).subregions@,
            final(self).data@.len() == old(self).data@.len(),
            point_outside(old(self).clip(), x as int, y as int) ==> final(self).data@ == old(
                self,
            ).data@,
            !point_outside(old(self).clip(), x as int, y as int) ==> final(self).data@ == blend_px(
                old(self).data@,
                3 * ((x + old(self).clip().x) + (y + old(self).clip().y) * old(
                    self,
                ).width as int),
                color_at(
                    *color,
                    Offset {
                        x: (x + old(self).clip().x) as i32,
                        y: (y + old(self).clip().y) as i32,
                    },
                ),
            ),
    {
        let subregion = self.subregions[self.subregions.len() - 1];
        proof {
            assert(rect_in_grid(
                self.subregions@[self.subregions@.len() - 1],
                self.width as int,
                self.height as int,
            ));
        }
        if x < 0 || y < 0 || x as u32 >= subregion.w || y as u32 >= subregion.h {
            return ;
        }
        let x_o = x + subregion.x;
        let y_o = y + subregion.y;
        let c = color.get(Offset { x: x_o, y: y_o });
        proof {
            assert(0 <= x_o as int + y_o as int * self.width as int && (x_o as int
                + y_o as int * self.width as int) * 3 + 3 <= self.width as int
                * self.height as int * 3 && (x_o as int + y_o as int * self.width as int) * 3 + 3
                <= 0x3000_0000) by (nonlinear_arith)
                requires
                    0 <= x_o as int,
                    (x_o as int) < self.width as int,
                    0 <= y_o as int,
                    (y_o as int) < self.height as int,
                    self.width as int <= 0x4000,
                    self.height as int <= 0x4000;
            lemma_lerp_ch(
                self.data@[3 * (x_o + y_o * self.width as int)] as int,
                c.r as int,
                c.a as int,
            );
            lemma_lerp_ch(
                self.data@[3 * (x_o + y_o * self.width as int) + 1] as int,
                c.g as int,
                c.a as int,
            );
            lemma_lerp_ch(
                self.data@[3 * (x_o + y_o * self.width as int) + 2] as int,
                c.b as int,
                c.a as int,
            );
        }
        let idx: usize = (x_o as usize + y_o as usize * self.width) * 3;
        if c.a == 255 {
            self.data[idx] = c.r;
            self.data[idx + 1] = c.g;
            self.data[idx + 2] = c.b;
        } else {
            let d0 = self.data[idx];
            let d1 = self.data[idx + 1];
            let d2 = self.data[idx + 2];
            self.data[idx] = crate::color::lerp_channel(d0, c.r, c.a);
            self.data[idx + 1] = crate::color::lerp_channel(d1, c.g, c.a);
            self.data[idx + 2] = crate::color::lerp_channel(d2, c.b, c.a);
        }
    }
}

/// The relative point misses the clip region's extent entirely.
pub open spec fn point_outside(clip: Rect, x: int, y: int) -> bool {
    x < 0 || y < 0 || x >= clip.w as int || y >= clip.h as int
}

/// The region a `subregion` call pushes: `rect` clamped to the current
/// region's extent, then translated into absolute coordinates.
pub open spec fn subregion_push(cur: Rect, rect: Rect) -> Rect {
    let c = rect_clamp(rect, Rect { x: 0, y: 0, w: cur.w, h: cur.h });
    Rect { x: (c.x + cur.x) as i32, y: (c.y + cur.y) as i32, w: c.w, h: c.h }
}

/// Nesting: a pushed subregion always lies inside the region it was
/// pushed onto, so clip regions only ever shrink and drawing can never
/// escape an enclosing subregion.
pub proof fn lemma_subregion_nested(cur: Rect, rect: Rect)
    requires
        rect.wf(),
        0 <= cur.x,
        0 <= cur.y,
        cur.x + cur.w <= i32::MAX,
        cur.y + cur.h <= i32::MAX,
    ensures
        cur.x <= subregion_push(cur, rect).x,
        cur.y <= subregion_push(cur, rect).y,
        subregion_push(cur, rect).x + subregion_push(cur, rect).w <= cur.x + cur.w,
        subregion_push(cur, rect).y + subregion_push(cur, rect).h <= cur.y + cur.h,
{
    crate::geom::lemma_clamp_within(rect, Rect { x: 0, y: 0, w: cur.w, h: cur.h });
}

} // verus!
