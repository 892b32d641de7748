//! The overlay: a premultiplied-alpha RGBA scratch buffer drawn over a
//! destination rectangle of a base canvas, composited onto it in a single
//! pass by `write`. Layered translucent shapes composite once instead of
//! blending repeatedly into the base.

use vstd::prelude::*;

verus! {

use crate::canvas::{lemma_pixel_inj, point_outside, rect_in_grid, Buffer, GRID_MAX};
use crate::color::{color_at, lemma_lerp_ch, lerp_ch, Color};
use crate::geom::{
    lemma_clamp_within,
    lemma_clamp_within_first,
    rect_clamp,
    rect_disjoint,
    Offset,
    Rect,
    Size,
};
use crate::math::lemma_scale_le;

/// The accumulated alpha after blending coverage `a` over stored alpha
/// `dst`: `(255 - a) * dst / 255 + a`.
pub open spec fn acc_alpha(dst: int, a: int) -> int {
    (255 - a) * dst / 255 + a
}

/// Accumulated alpha stays within the channel range.
pub proof fn lemma_acc_alpha(dst: int, a: int)
    requires
        0 <= dst <= 255,
        0 <= a <= 255,
    ensures
        0 <= acc_alpha(dst, a) <= 255,
{
    lemma_scale_le(255 - a, dst, 255);
}

/// The four bytes of the overlay pixel at byte offset `base` after
/// blending the sampled color `c`: the channels blend as on a canvas, and
/// the alpha accumulates.
pub open spec fn blend_px4(d: Seq<u8>, base: int, c: crate::color::Rgba) -> Seq<u8> {
    d.update(base, lerp_ch(d[base] as int, c.r as int, c.a as int) as u8).update(
        base + 1,
        lerp_ch(d[base + 1] as int, c.g as int, c.a as int) as u8,
    ).update(base + 2, lerp_ch(d[base + 2] as int, c.b as int, c.a as int) as u8).update(
        base + 3,
        acc_alpha(d[base + 3] as int, c.a as int) as u8,
    )
}

/// One base channel after the compositing pass: the premultiplied source
/// channel plus the base attenuated by the remaining alpha, saturating
/// at the channel maximum.
pub open spec fn over_ch(dst: int, src: int, a: int) -> int {
    let v = (255 - a) * dst / 255 + src;
    if v > 255 {
        255
    } else {
        v
    }
}

/// Compositing endpoints: a fully opaque overlay pixel overwrites the
/// base channel, and an untouched overlay pixel (zero color, zero alpha)
/// leaves it unchanged.
pub proof fn lemma_over_ch_ends(d: int, s: int)
    requires
        0 <= d <= 255,
        0 <= s <= 255,
    ensures
        over_ch(d, s, 255) == s,
        over_ch(d, 0, 0) == d,
{
    crate::math::lemma_scale_full(d);
    assert(255 * d == d * 255) by (nonlinear_arith);
    assert(0 * d == 0) by (nonlinear_arith);
}

/// The base pixel `(pi, pj)` of `nd` holds the composite of the old base
/// `od` and the overlay pixel it maps to.
pub open spec fn px_composited(
    nd: Seq<u8>,
    od: Seq<u8>,
    ov: Seq<u8>,
    bw: int,
    dw: int,
    dx: int,
    dy: int,
    pi: int,
    pj: int,
) -> bool {
    let p = 3 * (pi + pj * bw);
    let q = 4 * ((pi - dx) + (pj - dy) * dw);
    &&& nd[p] == over_ch(od[p] as int, ov[q] as int, ov[q + 3] as int) as u8
    &&& nd[p + 1] == over_ch(od[p + 1] as int, ov[q + 1] as int, ov[q + 3] as int) as u8
    &&& nd[p + 2] == over_ch(od[p + 2] as int, ov[q + 2] as int, ov[q + 3] as int) as u8
}

/// A fully transparent draw never changes an overlay pixel either: the
/// channels stay, and the accumulated alpha is unchanged by coverage
/// zero.
pub proof fn lemma_blend4_transparent(d: Seq<u8>, base: int, c: crate::color::Rgba)
    requires
        0 <= base,
        base + 4 <= d.len(),
        c.a == 0,
    ensures
        blend_px4(d, base, c) =~= d,
{
    lemma_lerp_ch(d[base] as int, c.r as int, 0);
    lemma_lerp_ch(d[base + 1] as int, c.g as int, 0);
    lemma_lerp_ch(d[base + 2] as int, c.b as int, 0);
    crate::math::lemma_scale_full(d[base + 3] as int);
}

/// The pixel coordinate lies inside the rectangle.
pub open spec fn px_in_rect(c: Rect, pi: int, pj: int) -> bool {
    c.x <= pi < c.x + c.w && c.y <= pj < c.y + c.h
}

/// The base pixel `(pi, pj)` is untouched between `od` and `nd`.
pub open spec fn px_unchanged(nd: Seq<u8>, od: Seq<u8>, bw: int, pi: int, pj: int) -> bool {
    let p = 3 * (pi + pj * bw);
    &&& nd[p] == od[p]
    &&& nd[p + 1] == od[p + 1]
    &&& nd[p + 2] == od[p + 2]
}

/// A premultiplied RGBA scratch buffer bound to one base canvas store and
/// a destination rectangle, with its own subregion stack.
pub struct Overlay {
    pub base: Vec<u8>,
    pub base_width: usize,
    pub base_height: usize,
    pub overlay_data: Vec<u8>,
    pub dst_rect: Rect,
    pub subregions: Vec<Rect>,
}

impl Overlay {
    /// Both stores have the right length for their grids, and the
    /// subregion stack stays inside the overlay grid.
    pub open spec fn wf(&self) -> bool {
        &&& self.base_width <= GRID_MAX
        &&& self.base_height <= GRID_MAX
        &&& self.base@.len() == self.base_width * self.base_height * 3
        &&& self.dst_rect.w <= GRID_MAX
        &&& self.dst_rect.h <= GRID_MAX
        &&& self.dst_rect.wf()
        &&& self.overlay_data@.len() == self.dst_rect.w * self.dst_rect.h * 4
        &&& self.subregions@.len() >= 1
        &&& forall|i: int|
            0 <= i < self.subregions@.len() ==> rect_in_grid(
                #[trigger] self.subregions@[i],
                self.dst_rect.w as int,
                self.dst_rect.h as int,
            )
    }

    /// The innermost active subregion, relative to the overlay buffer.
    pub open spec fn clip(&self) -> Rect {
        self.subregions@.last()
    }

    /// Creates an overlay over a canvas, sized to the destination
    /// rectangle and fully transparent. The canvas store moves into the
    /// overlay and comes back from [`Self::write`].
    pub fn new(base: Buffer, rect: Rect) -> (r: Overlay)
        requires
            base.wf(),
            rect.wf(),
            rect.w <= GRID_MAX,
            rect.h <= GRID_MAX,
        ensures
            r.wf(),
            r.base@ == base.data@,
            r.base_width == base.width,
            r.base_height == base.height,
            r.dst_rect == rect,
            forall|k: int| 0 <= k < r.overlay_data@.len() ==> r.overlay_data@[k] == 0,
            r.subregions@ =~= seq![Rect { x: 0, y: 0, w: rect.w, h: rect.h }],
    {
        proof {
            assert(rect.w as int * rect.h as int <= 0x1000_0000) by (nonlinear_arith)
                requires
                    rect.w as int <= 0x4000,
                    rect.h as int <= 0x4000;
        }
        let n: usize = rect.w as usize * rect.h as usize * 4;
        let mut overlay: Vec<u8> = Vec::new();
        let mut i: usize = 0;
        while i < n
            invariant
                i <= n,
                overlay@.len() == i,
                forall|k: int| 0 <= k < i ==> overlay@[k] == 0,
            decreases n - i,
        {
            overlay.push(0);
            i = i + 1;
        }
        let mut subregions: Vec<Rect> = Vec::new();
        subregions.push(Rect { x: 0, y: 0, w: rect.w, h: rect.h });
        Overlay {
            base: base.data,
            base_width: base.width,
            base_height: base.height,
            overlay_data: overlay,
            dst_rect: rect,
            subregions,
        }
    }

    /// Moves the destination rectangle, keeping its extent.
    pub fn offset(&mut self, offset: Offset)
        requires
            old(self).wf(),
            offset.x + old(self).dst_rect.w <= i32::MAX,
            offset.y + old(self).dst_rect.h <= i32::MAX,
        ensures
            final(self).wf(),
            final(self).base@ == old(self).base@,
            final(self).overlay_data@ == old(self).overlay_data@,
            final(self).base_width == old(self).base_width,
            final(self).base_height == old(self).base_height,
            final(self).subregions@ == old(self).subregions@,
            final(self).dst_rect == (Rect {
                x: offset.x,
                y: offset.y,
                w: old(self).dst_rect.w,
                h: old(self).dst_rect.h,
            }),
    {
        self.dst_rect.x = offset.x;
        self.dst_rect.y = offset.y;
    }

    /// The base canvas extent.
    pub fn size(&self) -> (s: Size)
        requires
            self.wf(),
        ensures
            s == (Size { w: self.base_width as u32, h: self.base_height as u32 }),
    {
        Size { w: self.base_width as u32, h: self.base_height as u32 }
    }

    /// The innermost active subregion.
    pub fn get_subregion(&self) -> (r: Rect)
        requires
            self.wf(),
        ensures
            r == self.clip(),
    {
        self.subregions[self.subregions.len() - 1]
    }

    /// Limits drawing to `rect` relative to the current subregion, as on
    /// a canvas.
    pub fn subregion(&mut self, rect: Rect)
        requires
            old(self).wf(),
            rect.wf(),
        ensures
            final(self).wf(),
            final(self).base@ == old(self).base@,
            final(self).overlay_data@ == old(self).overlay_data@,
            final(self).base_width == old(self).base_width,
            final(self).base_height == old(self).base_height,
            final(self).dst_rect == old(self).dst_rect,
            final(self).subregions@ == old(self).subregions@.push(
                crate::canvas::subregion_push(old(self).clip(), rect),
            ),
    {
        let cur = self.subregions[self.subregions.len() - 1];
        let clamped = rect.clamp(Rect { x: 0, y: 0, w: cur.w, h: cur.h });
        proof {
            lemma_clamp_within(rect, Rect { x: 0, y: 0, w: cur.w, h: cur.h });
        }
        let pushed = clamped.translate(Offset { x: cur.x, y: cur.y });
        self.subregions.push(pushed);
    }

    /// Pops the innermost subregion; at the root this is a no-op.
    pub fn end_subregion(&mut self)
        requires
            old(self).wf(),
        ensures
            final(self).wf(),
            final(self).base@ == old(self).base@,
            final(self).overlay_data@ == old(self).overlay_data@,
            final(self).base_width == old(self).base_width,
            final(self).base_height == old(self).base_height,
            final(self).dst_rect == old(self).dst_rect,
            old(self).subregions@.len() == 1 ==> final(self).subregions@ == old(
                self,
            ).subregions@,
            old(self).subregions@.len() > 1 ==> final(self).subregions@ == old(
                self,
            ).subregions@.drop_last(),
    {
        if self.subregions.len() == 1 {
            return ;
        }
        self.subregions.pop();
    }

    /// Draws one pixel into the overlay scratch buffer: channels blend as
    /// on a canvas, and the pixel's alpha accumulates so that later
    /// compositing applies the combined coverage once.
    pub fn point(&mut self, x: i32, y: i32, color: &Color)
        requires
            old(self).wf(),
            color.wf(),
        ensures
            final(self).wf(),
            final(self).base@ == old(self).base@,
            final(self).base_width == old(self).base_width,
            final(self).base_height == old(self).base_height,
            final(self).dst_rect == old(self).dst_rect,
            final(self).subregions@ == old(self).subregions@,
            final(self).overlay_data@.len() == old(self).overlay_data@.len(),
            point_outside(old(self).clip(), x as int, y as int) ==> final(self).overlay_data@
                == old(self).overlay_data@,
            !point_outside(old(self).clip(), x as int, y as int) ==> final(self).overlay_data@
                == blend_px4(
                old(self).overlay_data@,
                4 * ((x + old(self).clip().x) + (y + old(self).clip().y) * old(
                    self,
                ).dst_rect.w as int),
                color_at(
                    *color,
                    Offset {
                        x: (x + old(self).clip().x) as i32,
                        y: (y + old(self).clip().y) as i32,
                    },
                ),
            ),
    {
        let subregion = self.subregions[self.subregions.len() - 1];
        proof {
            assert(rect_in_grid(
                self.subregions@[self.subregions@.len() - 1],
                self.dst_rect.w as int,
                self.dst_rect.h as int,
            ));
        }
        if x < 0 || y < 0 || x as u32 >= subregion.w || y as u32 >= subregion.h {
            return ;
        }
        let x_o = x + subregion.x;
        let y_o = y + subregion.y;
        let c = color.get(Offset { x: x_o, y: y_o });
        let dw = self.dst_rect.w as usize;
        proof {
            assert(0 <= x_o as int + y_o as int * dw as int && (x_o as int + y_o as int
                * dw as int) * 4 + 4 <= self.dst_rect.w as int * self.dst_rect.h as int * 4 && (
            x_o as int + y_o as int * dw as int) * 4 + 4 <= 0x4000_0000) by (nonlinear_arith)
                requires
                    0 <= x_o as int,
                    (x_o as int) < dw as int,
                    0 <= y_o as int,
                    (y_o as int) < self.dst_rect.h as int,
                    dw as int == self.dst_rect.w as int,
                    dw as int <= 0x4000,
                    self.dst_rect.h as int <= 0x4000;
            lemma_lerp_ch(
                self.overlay_data@[4 * (x_o + y_o * dw as int)] as int,
                c.r as int,
                c.a as int,
            );
            lemma_lerp_ch(
                self.overlay_data@[4 * (x_o + y_o * dw as int) + 1] as int,
                c.g as int,
                c.a as int,
            );
            lemma_lerp_ch(
                self.overlay_data@[4 * (x_o + y_o * dw as int) + 2] as int,
                c.b as int,
                c.a as int,
            );
            lemma_acc_alpha(self.overlay_data@[4 * (x_o + y_o * dw as int) + 3] as int, c.a as int);
        }
        let idx: usize = (x_o as usize + y_o as usize * dw) * 4;
        if c.a == 255 {
            self.overlay_data[idx] = c.r;
            self.overlay_data[idx + 1] = c.g;
            self.overlay_data[idx + 2] = c.b;
            self.overlay_data[idx + 3] = 255;
        } else {
            let d0 = self.overlay_data[idx];
            let d1 = self.overlay_data[idx + 1];
            let d2 = self.overlay_data[idx + 2];
            let d3 = self.overlay_data[idx + 3];
            self.overlay_data[idx] = crate::color::lerp_channel(d0, c.r, c.a);
            self.overlay_data[idx + 1] = crate::color::lerp_channel(d1, c.g, c.a);
            self.overlay_data[idx + 2] = crate::color::lerp_channel(d2, c.b, c.a);
            self.overlay_data[idx + 3] = ((255 - c.a) as u32 * d3 as u32 / 255 + c.a as u32) as u8;
        }
    }

    /// Composites the overlay onto its base in one pass — inside the
    /// destination rectangle clamped to the base, every base pixel
    /// becomes `(255 - a) * base / 255 + src` per channel (saturating)
    /// against the premultiplied overlay pixel; everything else is
    /// untouched — and returns a canvas over the store.
    pub fn write(self) -> (r: Buffer)
        requires
            self.wf(),
        ensures
            r.wf(),
            r.width == self.base_width,
            r.height == self.base_height,
            r.data@.len() == self.base@.len(),
            r.subregions@ =~= seq![
                Rect {
                    x: 0,
                    y: 0,
                    w: self.base_width as u32,
                    h: self.base_height as u32,
                },
            ],
            forall|pi: int, pj: int|
                0 <= pi < self.base_width && 0 <= pj < self.base_height && px_in_rect(
                    rect_clamp(
                        self.dst_rect,
                        Rect { x: 0, y: 0, w: self.base_width as u32, h: self.base_height as u32 },
                    ),
                    pi,
                    pj,
                ) ==> #[trigger] px_composited(
                    r.data@,
                    self.base@,
                    self.overlay_data@,
                    self.base_width as int,
                    self.dst_rect.w as int,
                    self.dst_rect.x as int,
                    self.dst_rect.y as int,
                    pi,
                    pj,
                ),
            forall|pi: int, pj: int|
                0 <= pi < self.base_width && 0 <= pj < self.base_height && !px_in_rect(
                    rect_clamp(
                        self.dst_rect,
                        Rect { x: 0, y: 0, w: self.base_width as u32, h: self.base_height as u32 },
                    ),
                    pi,
                    pj,
                ) ==> #[trigger] px_unchanged(
                    r.data@,
                    self.base@,
                    self.base_width as int,
                    pi,
                    pj,
                ),
    {
        let bw = self.base_width;
        let bh = self.base_height;
        let dst = self.dst_rect;
        let grid = Rect { x: 0, y: 0, w: bw as u32, h: bh as u32 };
        let cl = self.dst_rect.clamp(grid);
        proof {
            lemma_clamp_within(self.dst_rect, grid);
        }
        let ghost od = self.base@;
        let ghost ov = self.overlay_data@;
        let Overlay { base, overlay_data, .. } = self;
        let mut data = base;
        let x1 = cl.x;
        let x2 = cl.x + cl.w as i32;
        let y1 = cl.y;
        let y2 = cl.y + cl.h as i32;
        let mut j = y1;
        while j < y2
            invariant
                bw <= GRID_MAX,
                bh <= GRID_MAX,
                dst.w <= GRID_MAX,
                dst.h <= GRID_MAX,
                dst.wf(),
                od.len() == bw * bh * 3,
                ov.len() == dst.w * dst.h * 4,
                cl == rect_clamp(dst, Rect { x: 0, y: 0, w: bw as u32, h: bh as u32 }),
                0 <= cl.x,
                0 <= cl.y,
                cl.x + cl.w <= bw,
                cl.y + cl.h <= bh,
                x1 == cl.x,
                x2 == cl.x + cl.w,
                y1 == cl.y,
                y2 == cl.y + cl.h,
                y1 <= j <= y2,
                overlay_data@ == ov,
                data@.len() == od.len(),
                forall|pi: int, pj: int|
                    0 <= pi < bw && 0 <= pj < bh && cl.x <= pi < cl.x + cl.w && cl.y <= pj < j
                        ==> #[trigger] px_composited(
                        data@,
                        od,
                        ov,
                        bw as int,
                        dst.w as int,
                        dst.x as int,
                        dst.y as int,
                        pi,
                        pj,
                    ),
                forall|pi: int, pj: int|
                    0 <= pi < bw && 0 <= pj < bh && !(cl.x <= pi < cl.x + cl.w && cl.y <= pj < j)
                        ==> #[trigger] px_unchanged(data@, od, bw as int, pi, pj),
            decreases y2 - j,
        {
            let mut i = x1;
            while i < x2
                invariant
                    bw <= GRID_MAX,
                    bh <= GRID_MAX,
                    dst.w <= GRID_MAX,
                    dst.h <= GRID_MAX,
                    dst.wf(),
                    od.len() == bw * bh * 3,
                    ov.len() == dst.w * dst.h * 4,
                    cl == rect_clamp(dst, Rect { x: 0, y: 0, w: bw as u32, h: bh as u32 }),
                    0 <= cl.x,
                    0 <= cl.y,
                    cl.x + cl.w <= bw,
                    cl.y + cl.h <= bh,
                    x1 == cl.x,
                    x2 == cl.x + cl.w,
                    y1 == cl.y,
                    y2 == cl.y + cl.h,
                    y1 <= j < y2,
                    x1 <= i <= x2,
                    overlay_data@ == ov,
                    data@.len() == od.len(),
                    forall|pi: int, pj: int|
                        0 <= pi < bw && 0 <= pj < bh && ((cl.x <= pi < cl.x + cl.w && cl.y <= pj
                            < j) || (pj == j && cl.x <= pi < i)) ==> #[trigger] px_composited(
                            data@,
                            od,
                            ov,
                            bw as int,
                            dst.w as int,
                            dst.x as int,
                            dst.y as int,
                            pi,
                            pj,
                        ),
                    forall|pi: int, pj: int|
                        0 <= pi < bw && 0 <= pj < bh && !((cl.x <= pi < cl.x + cl.w && cl.y <= pj
                            < j) || (pj == j && cl.x <= pi < i)) ==> #[trigger] px_unchanged(
                            data@,
                            od,
                            bw as int,
                            pi,
                            pj,
                        ),
                decreases x2 - i,
            {
                proof {
                    assert(!rect_disjoint(dst, Rect { x: 0, y: 0, w: bw as u32, h: bh as u32 }));
                    lemma_clamp_within_first(
                        dst,
                        Rect { x: 0, y: 0, w: bw as u32, h: bh as u32 },
                    );
                    assert(0 <= 3 * (i + j * bw) && 3 * (i + j * bw) + 3 <= bw as int * bh as int
                        * 3 && 3 * (i + j * bw) + 3 <= 0x3000_0000) by (nonlinear_arith)
                        requires
                            0 <= i as int,
                            (i as int) < bw as int,
                            0 <= j as int,
                            (j as int) < bh as int,
                            bw as int <= 0x4000,
                            bh as int <= 0x4000;
                    assert(0 <= 4 * ((i - dst.x) + (j - dst.y) * dst.w as int) && 4 * ((i - dst.x)
                        + (j - dst.y) * dst.w as int) + 4 <= dst.w as int * dst.h as int * 4 && 4 * (
                    (i - dst.x) + (j - dst.y) * dst.w as int) + 4 <= 0x4000_0000) by (nonlinear_arith)
                        requires
                            0 <= i as int - dst.x as int,
                            (i as int - dst.x as int) < dst.w as int,
                            0 <= j as int - dst.y as int,
                            (j as int - dst.y as int) < dst.h as int,
                            dst.w as int <= 0x4000,
                            dst.h as int <= 0x4000;
                    assert(px_unchanged(data@, od, bw as int, i as int, j as int));
                }
                let p: usize = 3 * (i as usize + j as usize * bw);
                let q: usize = 4 * ((i - dst.x) as usize + (j - dst.y) as usize
                    * dst.w as usize);
                let sr = overlay_data[q];
                let sg = overlay_data[q + 1];
                let sb = overlay_data[q + 2];
                let sa = overlay_data[q + 3];
                let ghost before = data@;
                let b0 = data[p];
                let b1 = data[p + 1];
                let b2 = data[p + 2];
                data[p] = over_channel(b0, sr, sa);
                data[p + 1] = over_channel(b1, sg, sa);
                data[p + 2] = over_channel(b2, sb, sa);
                proof {
                    assert(px_composited(
                        data@,
                        od,
                        ov,
                        bw as int,
                        dst.w as int,
                        dst.x as int,
                        dst.y as int,
                        i as int,
                        j as int,
                    ));
                    assert forall|pi: int, pj: int|
                        0 <= pi < bw && 0 <= pj < bh && ((cl.x <= pi < cl.x + cl.w && cl.y <= pj
                            < j) || (pj == j && cl.x <= pi < i + 1)) implies #[trigger] px_composited(
                        data@,
                        od,
                        ov,
                        bw as int,
                        dst.w as int,
                        dst.x as int,
                        dst.y as int,
                        pi,
                        pj,
                    ) by {
                        if (pi, pj) != (i as int, j as int) {
                            lemma_pixel_inj(bw as int, pi, pj, i as int, j as int);
                            let pc = 3 * (pi + pj * bw as int);
                            let tc = 3 * (i as int + j as int * bw as int);
                            assert(0 <= pc && pc + 3 <= od.len()) by (nonlinear_arith)
                                requires
                                    od.len() == bw as int * bh as int * 3,
                                    pc == 3 * (pi + pj * bw as int),
                                    0 <= pi,
                                    pi < bw as int,
                                    0 <= pj,
                                    pj < bh as int;
                            assert(pc != tc && pc + 1 != tc && pc + 2 != tc);
                            assert(data@[pc] == before[pc] && data@[pc + 1] == before[pc + 1]
                                && data@[pc + 2] == before[pc + 2]);
                            assert(px_composited(
                                before,
                                od,
                                ov,
                                bw as int,
                                dst.w as int,
                                dst.x as int,
                                dst.y as int,
                                pi,
                                pj,
                            ));
                        }
                    }
                    assert forall|pi: int, pj: int|
                        0 <= pi < bw && 0 <= pj < bh && !((cl.x <= pi < cl.x + cl.w && cl.y <= pj
                            < j) || (pj == j && cl.x <= pi < i + 1)) implies #[trigger] px_unchanged(
                        data@,
                        od,
                        bw as int,
                        pi,
                        pj,
                    ) by {
                        lemma_pixel_inj(bw as int, pi, pj, i as int, j as int);
                        let pc = 3 * (pi + pj * bw as int);
                        let tc = 3 * (i as int + j as int * bw as int);
                        assert(0 <= pc && pc + 3 <= od.len()) by (nonlinear_arith)
                            requires
                                od.len() == bw as int * bh as int * 3,
                                pc == 3 * (pi + pj * bw as int),
                                0 <= pi,
                                pi < bw as int,
                                0 <= pj,
                                pj < bh as int;
                        assert(pc != tc && pc + 1 != tc && pc + 2 != tc);
                        assert(data@[pc] == before[pc] && data@[pc + 1] == before[pc + 1] && data@[pc
                            + 2] == before[pc + 2]);
                        assert(px_unchanged(before, od, bw as int, pi, pj));
                    }
                }
                i = i + 1;
            }
            j = j + 1;
        }
        let mut subregions: Vec<Rect> = Vec::new();
        subregions.push(Rect { x: 0, y: 0, w: bw as u32, h: bh as u32 });
        Buffer { data, width: bw, height: bh, subregions }
    }
}

/// One saturating composite channel, in executable form.
fn over_channel(dst: u8, src: u8, a: u8) -> (r: u8)
    ensures
        r as int == over_ch(dst as int, src as int, a as int),
{
    proof {
        lemma_scale_le((255 - a) as int, dst as int, 255);
        assert((255 - a) as int * dst as int == dst as int * (255 - a) as int) by (nonlinear_arith);
    }
    let v: u32 = (255 - a) as u32 * dst as u32 / 255 + src as u32;
    if v > 255 {
        255
    } else {
        v as u8
    }
}

} // verus!
