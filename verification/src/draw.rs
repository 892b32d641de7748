//! Shape rasterization over any drawing target: a trait both the canvas
//! and the overlay implement, and the shape algorithms — rectangles,
//! lines, circles, arcs, pies and rounded rectangles, aliased and
//! antialiased — expressed purely in terms of the target's `point`.
//!
//! Every shape operation carries two contracts. The frame: the target's
//! dimensions and subregion stack are untouched, and no byte of a pixel
//! outside the innermost active subregion changes — drawing never leaks
//! past the clip region. And the writes: the store after the call is
//! pinned exactly, as a fold of single pixel writes (`pix_write`, or its
//! alpha-scaled form `pix_write_a`) mirroring the algorithm's walk, so a
//! body that drew nothing, or anything other than the stated pixels,
//! would not verify.

use vstd::prelude::*;

verus! {

use crate::canvas::{blend_px, point_outside, rect_in_grid, subregion_push, Buffer};
use crate::color::Color;
use crate::geom::{Offset, Rect, Size};
use crate::overlay::{blend_px4, Overlay};
use vstd::arithmetic::div_mod::lemma_fundamental_div_mod_converse;

/// The byte range a `point` call at relative `(x, y)` writes: the `pb`
/// bytes of the pixel at the clip-translated absolute position.
pub open spec fn target_bytes(clip: Rect, pb: int, row: int, x: int, y: int, k: int) -> bool {
    let base = pb * ((x + clip.x) + (y + clip.y) * row);
    base <= k < base + pb
}

/// Byte `k` of the store belongs to a pixel outside the rectangle `c`.
pub open spec fn byte_outside_clip(c: Rect, pb: int, row: int, k: int) -> bool {
    let cell = k / pb;
    let px = cell % row;
    let py = cell / row;
    !(c.x <= px < c.x + c.w && c.y <= py < c.y + c.h)
}

/// A point drawn inside the clip region only touches bytes of pixels
/// inside that region.
pub proof fn lemma_target_in_clip(clip: Rect, pb: int, row: int, rows: int, x: int, y: int, k: int)
    requires
        1 <= pb,
        1 <= row,
        rect_in_grid(clip, row, rows),
        0 <= x < clip.w,
        0 <= y < clip.h,
        target_bytes(clip, pb, row, x, y, k),
    ensures
        !byte_outside_clip(clip, pb, row, k),
{
    let xa = x + clip.x;
    let ya = y + clip.y;
    let cell = xa + ya * row;
    assert(k == cell * pb + (k - pb * cell) && 0 <= k - pb * cell < pb) by (nonlinear_arith)
        requires
            pb * cell <= k < pb * cell + pb,
            cell == xa + ya * row;
    lemma_fundamental_div_mod_converse(k, pb, cell, k - pb * cell);
    assert(cell == ya * row + xa);
    lemma_fundamental_div_mod_converse(cell, row, ya, xa);
}

/// A target the shape algorithms can draw on: it exposes a byte store of
/// fixed-size pixels, a grid geometry, and a stack of clip subregions,
/// and its `point` writes at most the addressed pixel.
pub trait Drawable: Sized {
    /// The target's internal invariant.
    spec fn inv(&self) -> bool;

    /// The raw byte store the pixels live in.
    spec fn store(&self) -> Seq<u8>;

    /// The stack of clip subregions; the last entry is active.
    spec fn sub_stack(&self) -> Seq<Rect>;

    /// Bytes per pixel of the store.
    spec fn pb(&self) -> int;

    /// Pixels per row of the store.
    spec fn row(&self) -> int;

    /// Rows of the store.
    spec fn rows(&self) -> int;

    /// The extent `size` reports.
    spec fn dims(&self) -> Size;

    /// The store after one pixel write at relative `(x, y)`: unchanged
    /// when the point misses the active subregion's extent, otherwise the
    /// target's own blend of the sampled color into the addressed pixel.
    spec fn pix_write(&self, d: Seq<u8>, x: int, y: int, color: Color) -> Seq<u8>;

    /// The store after one pixel write of the color with its alpha scaled
    /// by `a/255`: what writing `color.set_a(a)` leaves, as a function of
    /// the original color.
    spec fn pix_write_a(&self, d: Seq<u8>, x: int, y: int, color: Color, a: int) -> Seq<u8>;

    /// `pix_write_a` also reads only the target's geometry.
    proof fn lemma_pix_write_a_eq(
        &self,
        other: &Self,
        d: Seq<u8>,
        x: int,
        y: int,
        color: Color,
        a: int,
    )
        requires
            self.sub_stack() == other.sub_stack(),
            self.pb() == other.pb(),
            self.row() == other.row(),
            self.rows() == other.rows(),
        ensures
            self.pix_write_a(d, x, y, color, a) == other.pix_write_a(d, x, y, color, a);

    /// Writing an alpha-scaled color is the shaded write of the original.
    proof fn lemma_pix_write_shade(
        &self,
        d: Seq<u8>,
        x: int,
        y: int,
        color: Color,
        a: int,
        shaded: Color,
    )
        requires
            crate::color::color_set_a_rel(color, a, shaded),
        ensures
            self.pix_write(d, x, y, shaded) == self.pix_write_a(d, x, y, color, a);

    /// `pix_write` reads only the target's geometry, never its store: two
    /// targets with the same subregions and grid write pixels alike.
    proof fn lemma_pix_write_eq(&self, other: &Self, d: Seq<u8>, x: int, y: int, color: Color)
        requires
            self.sub_stack() == other.sub_stack(),
            self.pb() == other.pb(),
            self.row() == other.row(),
            self.rows() == other.rows(),
        ensures
            self.pix_write(d, x, y, color) == other.pix_write(d, x, y, color);

    /// The geometric facts the invariant guarantees.
    proof fn lemma_inv(&self)
        requires
            self.inv(),
        ensures
            1 <= self.pb() <= 4,
            0 <= self.row() <= 0x4000,
            0 <= self.rows() <= 0x4000,
            self.store().len() == self.pb() * (self.row() * self.rows()),
            self.sub_stack().len() >= 1,
            forall|i: int|
                0 <= i < self.sub_stack().len() ==> rect_in_grid(
                    #[trigger] self.sub_stack()[i],
                    self.row(),
                    self.rows(),
                );

    /// The target's extent.
    fn size(&self) -> (s: Size)
        requires
            self.inv(),
        ensures
            s == self.dims(),
    ;

    /// The innermost active subregion.
    fn get_subregion(&self) -> (r: Rect)
        requires
            self.inv(),
        ensures
            r == self.sub_stack().last(),
    ;

    /// Limits drawing to `rect`, relative to the current subregion and
    /// clamped to it.
    fn subregion(&mut self, rect: Rect)
        requires
            old(self).inv(),
            rect.wf(),
        ensures
            final(self).inv(),
            final(self).store() == old(self).store(),
            final(self).pb() == old(self).pb(),
            final(self).row() == old(self).row(),
            final(self).rows() == old(self).rows(),
            final(self).dims() == old(self).dims(),
            final(self).sub_stack() == old(self).sub_stack().push(
                subregion_push(old(self).sub_stack().last(), rect),
            ),
    ;

    /// Pops the innermost subregion, keeping the root.
    fn end_subregion(&mut self)
        requires
            old(self).inv(),
        ensures
            final(self).inv(),
            final(self).store() == old(self).store(),
            final(self).pb() == old(self).pb(),
            final(self).row() == old(self).row(),
            final(self).rows() == old(self).rows(),
            final(self).dims() == old(self).dims(),
            old(self).sub_stack().len() == 1 ==> final(self).sub_stack() == old(self).sub_stack(),
            old(self).sub_stack().len() > 1 ==> final(self).sub_stack() == old(
                self,
            ).sub_stack().drop_last(),
    ;

    /// Draws one pixel at `(x, y)` relative to the active subregion: a
    /// point outside the subregion's extent is dropped, and an inside
    /// point blends the sampled color into exactly that pixel's bytes.
    fn point(&mut self, x: i32, y: i32, color: &Color)
        requires
            old(self).inv(),
            color.wf(),
        ensures
            final(self).inv(),
            final(self).pb() == old(self).pb(),
            final(self).row() == old(self).row(),
            final(self).rows() == old(self).rows(),
            final(self).dims() == old(self).dims(),
            final(self).sub_stack() == old(self).sub_stack(),
            final(self).store().len() == old(self).store().len(),
            final(self).store() == old(self).pix_write(
                old(self).store(),
                x as int,
                y as int,
                *color,
            ),
            point_outside(old(self).sub_stack().last(), x as int, y as int) ==> final(self).store()
                == old(self).store(),
            forall|k: int|
                0 <= k < old(self).store().len() && !target_bytes(
                    old(self).sub_stack().last(),
                    old(self).pb(),
                    old(self).row(),
                    x as int,
                    y as int,
                    k,
                ) ==> #[trigger] final(self).store()[k] == old(self).store()[k],
    ;
}

/// The frame every drawing operation preserves: the target's geometry and
/// subregion stack are unchanged, and every byte of a pixel outside the
/// active subregion keeps its value.
pub open spec fn draw_frame<T: Drawable>(pre: T, post: T) -> bool {
    &&& post.inv()
    &&& post.pb() == pre.pb()
    &&& post.row() == pre.row()
    &&& post.rows() == pre.rows()
    &&& post.dims() == pre.dims()
    &&& post.sub_stack() == pre.sub_stack()
    &&& post.store().len() == pre.store().len()
    &&& forall|k: int|
        0 <= k < pre.store().len() && byte_outside_clip(
            pre.sub_stack().last(),
            pre.pb(),
            pre.row(),
            k,
        ) ==> #[trigger] post.store()[k] == pre.store()[k]
}

/// The reference target `r` shares its clip geometry with `t`, so their
/// `pix_write` agree; shape folds are stated against one fixed reference.
pub open spec fn same_geometry<T: Drawable>(r: T, t: T) -> bool {
    &&& r.sub_stack() == t.sub_stack()
    &&& r.pb() == t.pb()
    &&& r.row() == t.row()
    &&& r.rows() == t.rows()
}

/// One clipped pixel write, with the drawing frame contract; the result
/// is the `pix_write` of any target sharing the clip geometry.
pub fn plot<T: Drawable>(c: &mut T, x: i32, y: i32, color: &Color)
    requires
        old(c).inv(),
        color.wf(),
    ensures
        draw_frame(*old(c), *final(c)),
        final(c).store() == old(c).pix_write(old(c).store(), x as int, y as int, *color),
        forall|r: T|
            same_geometry(r, *old(c)) ==> final(c).store() == #[trigger] r.pix_write(
                old(c).store(),
                x as int,
                y as int,
                *color,
            ),
{
    let ghost pre = *c;
    c.point(x, y, color);
    proof {
        pre.lemma_inv();
        assert forall|r: T| same_geometry(r, pre) implies c.store() == #[trigger] r.pix_write(
            pre.store(),
            x as int,
            y as int,
            *color,
        ) by {
            pre.lemma_pix_write_eq(&r, pre.store(), x as int, y as int, *color);
        }
        let clip = pre.sub_stack().last();
        if !point_outside(clip, x as int, y as int) {
            assert forall|k: int|
                0 <= k < pre.store().len() && byte_outside_clip(
                    clip,
                    pre.pb(),
                    pre.row(),
                    k,
                ) implies #[trigger] c.store()[k] == pre.store()[k] by {
                if target_bytes(clip, pre.pb(), pre.row(), x as int, y as int, k) {
                    if pre.row() >= 1 {
                        lemma_target_in_clip(
                            clip,
                            pre.pb(),
                            pre.row(),
                            pre.rows(),
                            x as int,
                            y as int,
                            k,
                        );
                    }
                }
            }
        }
    }
}

impl Drawable for Buffer {
    open spec fn inv(&self) -> bool {
        self.wf()
    }

    open spec fn store(&self) -> Seq<u8> {
        self.data@
    }

    open spec fn sub_stack(&self) -> Seq<Rect> {
        self.subregions@
    }

    open spec fn pb(&self) -> int {
        3
    }

    open spec fn row(&self) -> int {
        self.width as int
    }

    open spec fn rows(&self) -> int {
        self.height as int
    }

    open spec fn dims(&self) -> Size {
        Size { w: self.width as u32, h: self.height as u32 }
    }

    open spec fn pix_write(&self, d: Seq<u8>, x: int, y: int, color: Color) -> Seq<u8> {
        let clip = self.clip();
        if point_outside(clip, x, y) {
            d
        } else {
            blend_px(
                d,
                3 * ((x + clip.x) + (y + clip.y) * self.width as int),
                crate::color::color_at(
                    color,
                    Offset { x: (x + clip.x) as i32, y: (y + clip.y) as i32 },
                ),
            )
        }
    }

    open spec fn pix_write_a(&self, d: Seq<u8>, x: int, y: int, color: Color, a: int) -> Seq<u8> {
        let clip = self.clip();
        if point_outside(clip, x, y) {
            d
        } else {
            blend_px(
                d,
                3 * ((x + clip.x) + (y + clip.y) * self.width as int),
                crate::color::color_at_a(
                    color,
                    Offset { x: (x + clip.x) as i32, y: (y + clip.y) as i32 },
                    a,
                ),
            )
        }
    }

    proof fn lemma_pix_write_eq(&self, other: &Self, d: Seq<u8>, x: int, y: int, color: Color) {
    }

    proof fn lemma_pix_write_a_eq(
        &self,
        other: &Self,
        d: Seq<u8>,
        x: int,
        y: int,
        color: Color,
        a: int,
    ) {
    }

    proof fn lemma_pix_write_shade(
        &self,
        d: Seq<u8>,
        x: int,
        y: int,
        color: Color,
        a: int,
        shaded: Color,
    ) {
        let clip = self.clip();
        if !point_outside(clip, x, y) {
            crate::color::lemma_color_at_set_a(
                color,
                a,
                shaded,
                Offset { x: (x + clip.x) as i32, y: (y + clip.y) as i32 },
            );
        }
    }

    proof fn lemma_inv(&self) {
        assert(self.width as int * self.height as int * 3 == 3 * (self.width as int
            * self.height as int)) by (nonlinear_arith);
    }

    fn size(&self) -> (s: Size) {
        Buffer::size(self)
    }

    fn get_subregion(&self) -> (r: Rect) {
        Buffer::get_subregion(self)
    }

    fn subregion(&mut self, rect: Rect) {
        Buffer::subregion(self, rect)
    }

    fn end_subregion(&mut self) {
        Buffer::end_subregion(self)
    }

    fn point(&mut self, x: i32, y: i32, color: &Color) {
        let ghost pre = *self;
        Buffer::point(self, x, y, color);
        proof {
            if !point_outside(pre.clip(), x as int, y as int) {
                let base = 3 * ((x + pre.clip().x) + (y + pre.clip().y) * pre.width as int);
                assert(rect_in_grid(
                    pre.subregions@[pre.subregions@.len() - 1],
                    pre.width as int,
                    pre.height as int,
                ));
                assert(0 <= base && base + 3 <= pre.data@.len()) by (nonlinear_arith)
                    requires
                        pre.data@.len() == pre.width as int * pre.height as int * 3,
                        base == 3 * ((x + pre.clip().x) + (y + pre.clip().y) * pre.width as int),
                        0 <= x + pre.clip().x,
                        x + pre.clip().x < pre.width as int,
                        0 <= y + pre.clip().y,
                        y + pre.clip().y < pre.height as int;
                assert(self.data@ == blend_px(
                    pre.data@,
                    base,
                    crate::color::color_at(
                        *color,
                        Offset { x: (x + pre.clip().x) as i32, y: (y + pre.clip().y) as i32 },
                    ),
                ));
                assert forall|k: int|
                    0 <= k < pre.data@.len() && !target_bytes(
                        pre.clip(),
                        3,
                        pre.width as int,
                        x as int,
                        y as int,
                        k,
                    ) implies #[trigger] self.data@[k] == pre.data@[k] by {
                    assert(k != base && k != base + 1 && k != base + 2);
                }
            }
        }
    }
}

impl Drawable for Overlay {
    open spec fn inv(&self) -> bool {
        self.wf()
    }

    open spec fn store(&self) -> Seq<u8> {
        self.overlay_data@
    }

    open spec fn sub_stack(&self) -> Seq<Rect> {
        self.subregions@
    }

    open spec fn pb(&self) -> int {
        4
    }

    open spec fn row(&self) -> int {
        self.dst_rect.w as int
    }

    open spec fn rows(&self) -> int {
        self.dst_rect.h as int
    }

    open spec fn dims(&self) -> Size {
        Size { w: self.base_width as u32, h: self.base_height as u32 }
    }

    open spec fn pix_write(&self, d: Seq<u8>, x: int, y: int, color: Color) -> Seq<u8> {
        let clip = self.clip();
        if point_outside(clip, x, y) {
            d
        } else {
            blend_px4(
                d,
                4 * ((x + clip.x) + (y + clip.y) * self.dst_rect.w as int),
                crate::color::color_at(
                    color,
                    Offset { x: (x + clip.x) as i32, y: (y + clip.y) as i32 },
                ),
            )
        }
    }

    open spec fn pix_write_a(&self, d: Seq<u8>, x: int, y: int, color: Color, a: int) -> Seq<u8> {
        let clip = self.clip();
        if point_outside(clip, x, y) {
            d
        } else {
            blend_px4(
                d,
                4 * ((x + clip.x) + (y + clip.y) * self.dst_rect.w as int),
                crate::color::color_at_a(
                    color,
                    Offset { x: (x + clip.x) as i32, y: (y + clip.y) as i32 },
                    a,
                ),
            )
        }
    }

    proof fn lemma_pix_write_eq(&self, other: &Self, d: Seq<u8>, x: int, y: int, color: Color) {
    }

    proof fn lemma_pix_write_a_eq(
        &self,
        other: &Self,
        d: Seq<u8>,
        x: int,
        y: int,
        color: Color,
        a: int,
    ) {
    }

    proof fn lemma_pix_write_shade(
        &self,
        d: Seq<u8>,
        x: int,
        y: int,
        color: Color,
        a: int,
        shaded: Color,
    ) {
        let clip = self.clip();
        if !point_outside(clip, x, y) {
            crate::color::lemma_color_at_set_a(
                color,
                a,
                shaded,
                Offset { x: (x + clip.x) as i32, y: (y + clip.y) as i32 },
            );
        }
    }

    proof fn lemma_inv(&self) {
        assert(self.dst_rect.w as int * self.dst_rect.h as int * 4 == 4 * (self.dst_rect.w as int
            * self.dst_rect.h as int)) by (nonlinear_arith);
    }

    fn size(&self) -> (s: Size) {
        Overlay::size(self)
    }

    fn get_subregion(&self) -> (r: Rect) {
        Overlay::get_subregion(self)
    }

    fn subregion(&mut self, rect: Rect) {
        Overlay::subregion(self, rect)
    }

    fn end_subregion(&mut self) {
        Overlay::end_subregion(self)
    }

    fn point(&mut self, x: i32, y: i32, color: &Color) {
        let ghost pre = *self;
        Overlay::point(self, x, y, color);
        proof {
            if !point_outside(pre.clip(), x as int, y as int) {
                let base = 4 * ((x + pre.clip().x) + (y + pre.clip().y) * pre.dst_rect.w as int);
                assert(rect_in_grid(
                    pre.subregions@[pre.subregions@.len() - 1],
                    pre.dst_rect.w as int,
                    pre.dst_rect.h as int,
                ));
                assert(0 <= base && base + 4 <= pre.overlay_data@.len()) by (nonlinear_arith)
                    requires
                        pre.overlay_data@.len() == pre.dst_rect.w as int * pre.dst_rect.h as int
                            * 4,
                        base == 4 * ((x + pre.clip().x) + (y + pre.clip().y)
                            * pre.dst_rect.w as int),
                        0 <= x + pre.clip().x,
                        x + pre.clip().x < pre.dst_rect.w as int,
                        0 <= y + pre.clip().y,
                        y + pre.clip().y < pre.dst_rect.h as int;
                assert(self.overlay_data@ == blend_px4(
                    pre.overlay_data@,
                    base,
                    crate::color::color_at(
                        *color,
                        Offset { x: (x + pre.clip().x) as i32, y: (y + pre.clip().y) as i32 },
                    ),
                ));
                assert forall|k: int|
                    0 <= k < pre.overlay_data@.len() && !target_bytes(
                        pre.clip(),
                        4,
                        pre.dst_rect.w as int,
                        x as int,
                        y as int,
                        k,
                    ) implies #[trigger] self.overlay_data@[k] == pre.overlay_data@[k] by {
                    assert(k != base && k != base + 1 && k != base + 2 && k != base + 3);
                }
            }
        }
    }
}

/// The store after writing one row of pixels, `x1` up to `x2`, at `y`.
pub open spec fn fill_row_spec<T: Drawable>(
    t: T,
    d: Seq<u8>,
    y: int,
    x1: int,
    x2: int,
    color: Color,
) -> Seq<u8>
    decreases x2 - x1,
{
    if x1 >= x2 {
        d
    } else {
        fill_row_spec(t, t.pix_write(d, x1, y, color), y, x1 + 1, x2, color)
    }
}

/// The store after writing the whole block of pixels
/// `[x1, x2) x [y1, y2)`, row by row.
pub open spec fn fill_block_spec<T: Drawable>(
    t: T,
    d: Seq<u8>,
    y1: int,
    y2: int,
    x1: int,
    x2: int,
    color: Color,
) -> Seq<u8>
    decreases y2 - y1,
{
    if y1 >= y2 {
        d
    } else {
        fill_block_spec(t, fill_row_spec(t, d, y1, x1, x2, color), y1 + 1, y2, x1, x2, color)
    }
}

/// Extending a row fold by one more pixel writes that pixel last.
proof fn lemma_fill_row_snoc<T: Drawable>(t: T, d: Seq<u8>, y: int, x1: int, x2: int, color: Color)
    requires
        x1 <= x2,
    ensures
        fill_row_spec(t, d, y, x1, x2 + 1, color) == t.pix_write(
            fill_row_spec(t, d, y, x1, x2, color),
            x2,
            y,
            color,
        ),
    decreases x2 - x1,
{
    if x1 == x2 {
        assert(fill_row_spec(t, d, y, x1, x2, color) == d);
        assert(fill_row_spec(t, d, y, x1, x2 + 1, color) == fill_row_spec(
            t,
            t.pix_write(d, x1, y, color),
            y,
            x1 + 1,
            x2 + 1,
            color,
        ));
        assert(fill_row_spec(t, t.pix_write(d, x1, y, color), y, x1 + 1, x2 + 1, color)
            == t.pix_write(d, x1, y, color));
    } else {
        lemma_fill_row_snoc(t, t.pix_write(d, x1, y, color), y, x1 + 1, x2, color);
        assert(fill_row_spec(t, d, y, x1, x2 + 1, color) == fill_row_spec(
            t,
            t.pix_write(d, x1, y, color),
            y,
            x1 + 1,
            x2 + 1,
            color,
        ));
        assert(fill_row_spec(t, d, y, x1, x2, color) == fill_row_spec(
            t,
            t.pix_write(d, x1, y, color),
            y,
            x1 + 1,
            x2,
            color,
        ));
    }
}

/// Extending a block fold by one more row writes that row last.
proof fn lemma_fill_block_snoc<T: Drawable>(
    t: T,
    d: Seq<u8>,
    y1: int,
    y2: int,
    x1: int,
    x2: int,
    color: Color,
)
    requires
        y1 <= y2,
    ensures
        fill_block_spec(t, d, y1, y2 + 1, x1, x2, color) == fill_row_spec(
            t,
            fill_block_spec(t, d, y1, y2, x1, x2, color),
            y2,
            x1,
            x2,
            color,
        ),
    decreases y2 - y1,
{
    if y1 == y2 {
        assert(fill_block_spec(t, d, y1, y2, x1, x2, color) == d);
        assert(fill_block_spec(t, d, y1, y2 + 1, x1, x2, color) == fill_block_spec(
            t,
            fill_row_spec(t, d, y1, x1, x2, color),
            y1 + 1,
            y2 + 1,
            x1,
            x2,
            color,
        ));
        assert(fill_block_spec(t, fill_row_spec(t, d, y1, x1, x2, color), y1 + 1, y2 + 1, x1, x2, color)
            == fill_row_spec(t, d, y1, x1, x2, color));
    } else {
        lemma_fill_block_snoc(
            t,
            fill_row_spec(t, d, y1, x1, x2, color),
            y1 + 1,
            y2,
            x1,
            x2,
            color,
        );
        assert(fill_block_spec(t, d, y1, y2 + 1, x1, x2, color) == fill_block_spec(
            t,
            fill_row_spec(t, d, y1, x1, x2, color),
            y1 + 1,
            y2 + 1,
            x1,
            x2,
            color,
        ));
        assert(fill_block_spec(t, d, y1, y2, x1, x2, color) == fill_block_spec(
            t,
            fill_row_spec(t, d, y1, x1, x2, color),
            y1 + 1,
            y2,
            x1,
            x2,
            color,
        ));
    }
}

/// Draws a filled rectangle: the store becomes exactly the row-by-row
/// fold of single pixel writes over the rectangle's area.
#[verifier::loop_isolation(false)]
pub fn fill_rect<T: Drawable>(c: &mut T, rect: Rect, color: Color)
    requires
        old(c).inv(),
        color.wf(),
        rect.wf(),
        -0x4000_0000 <= rect.x,
        rect.x + rect.w <= 0x4000_0000,
        -0x4000_0000 <= rect.y,
        rect.y + rect.h <= 0x4000_0000,
    ensures
        draw_frame(*old(c), *final(c)),
        final(c).store() == fill_block_spec(
            *old(c),
            old(c).store(),
            rect.y as int,
            rect.y + rect.h,
            rect.x as int,
            rect.x + rect.w,
            color,
        ),
{
    let p1 = rect.offset();
    let p2 = rect.offset_2();
    let ghost t0 = *old(c);
    let ghost d0 = old(c).store();
    let mut y = p1.y;
    while y < p2.y
        invariant
            draw_frame(*old(c), *c),
            p1.y <= y <= p2.y,
            c.store() == fill_block_spec(
                t0,
                d0,
                p1.y as int,
                y as int,
                p1.x as int,
                p2.x as int,
                color,
            ),
        decreases p2.y - y,
    {
        let mut x = p1.x;
        let ghost drow = c.store();
        while x < p2.x
            invariant
                draw_frame(*old(c), *c),
                p1.x <= x <= p2.x,
                p1.y <= y < p2.y,
                drow == fill_block_spec(
                    t0,
                    d0,
                    p1.y as int,
                    y as int,
                    p1.x as int,
                    p2.x as int,
                    color,
                ),
                c.store() == fill_row_spec(t0, drow, y as int, p1.x as int, x as int, color),
            decreases p2.x - x,
        {
            let ghost pre = *c;
            plot(c, x, y, &color);
            proof {
                pre.lemma_pix_write_eq(&t0, pre.store(), x as int, y as int, color);
                lemma_fill_row_snoc(t0, drow, y as int, p1.x as int, x as int, color);
            }
            x = x + 1;
        }
        proof {
            lemma_fill_block_snoc(
                t0,
                d0,
                p1.y as int,
                y as int,
                p1.x as int,
                p2.x as int,
                color,
            );
        }
        y = y + 1;
    }
}

/// Draws a horizontal run starting at `p1`, `length - 1` pixels long:
/// the store becomes exactly the fold of single pixel writes over the run.
#[verifier::loop_isolation(false)]
pub fn line_h<T: Drawable>(c: &mut T, p1: Offset, length: i32, color: Color)
    requires
        old(c).inv(),
        color.wf(),
        -0x4000_0000 <= p1.x,
        0 <= length,
        p1.x + length <= 0x4000_0000,
    ensures
        draw_frame(*old(c), *final(c)),
        final(c).store() == fill_row_spec(
            *old(c),
            old(c).store(),
            p1.y as int,
            p1.x as int,
            p1.x + length - 1,
            color,
        ),
{
    let x2 = p1.x + length - 1;
    let ghost t0 = *old(c);
    let ghost d0 = old(c).store();
    let mut x = p1.x;
    while x < x2
        invariant
            draw_frame(*old(c), *c),
            p1.x <= x,
            x <= x2 || x == p1.x,
            c.store() == fill_row_spec(t0, d0, p1.y as int, p1.x as int, x as int, color),
        decreases x2 - x,
    {
        let ghost pre = *c;
        plot(c, x, p1.y, &color);
        proof {
            pre.lemma_pix_write_eq(&t0, pre.store(), x as int, p1.y as int, color);
            lemma_fill_row_snoc(t0, d0, p1.y as int, p1.x as int, x as int, color);
        }
        x = x + 1;
    }
}

/// The store after writing one column of pixels, `y1` up to `y2`, at `x`.
pub open spec fn fill_col_spec<T: Drawable>(
    t: T,
    d: Seq<u8>,
    x: int,
    y1: int,
    y2: int,
    color: Color,
) -> Seq<u8>
    decreases y2 - y1,
{
    if y1 >= y2 {
        d
    } else {
        fill_col_spec(t, t.pix_write(d, x, y1, color), x, y1 + 1, y2, color)
    }
}

/// Extending a column fold by one more pixel writes that pixel last.
proof fn lemma_fill_col_snoc<T: Drawable>(t: T, d: Seq<u8>, x: int, y1: int, y2: int, color: Color)
    requires
        y1 <= y2,
    ensures
        fill_col_spec(t, d, x, y1, y2 + 1, color) == t.pix_write(
            fill_col_spec(t, d, x, y1, y2, color),
            x,
            y2,
            color,
        ),
    decreases y2 - y1,
{
    if y1 == y2 {
        assert(fill_col_spec(t, d, x, y1, y2, color) == d);
        assert(fill_col_spec(t, d, x, y1, y2 + 1, color) == fill_col_spec(
            t,
            t.pix_write(d, x, y1, color),
            x,
            y1 + 1,
            y2 + 1,
            color,
        ));
        assert(fill_col_spec(t, t.pix_write(d, x, y1, color), x, y1 + 1, y2 + 1, color)
            == t.pix_write(d, x, y1, color));
    } else {
        lemma_fill_col_snoc(t, t.pix_write(d, x, y1, color), x, y1 + 1, y2, color);
        assert(fill_col_spec(t, d, x, y1, y2 + 1, color) == fill_col_spec(
            t,
            t.pix_write(d, x, y1, color),
            x,
            y1 + 1,
            y2 + 1,
            color,
        ));
        assert(fill_col_spec(t, d, x, y1, y2, color) == fill_col_spec(
            t,
            t.pix_write(d, x, y1, color),
            x,
            y1 + 1,
            y2,
            color,
        ));
    }
}

/// Draws a vertical run starting at `p1`, `length - 1` pixels long: the
/// store becomes exactly the fold of single pixel writes over the run.
#[verifier::loop_isolation(false)]
pub fn line_v<T: Drawable>(c: &mut T, p1: Offset, length: i32, color: Color)
    requires
        old(c).inv(),
        color.wf(),
        -0x4000_0000 <= p1.y,
        0 <= length,
        p1.y + length <= 0x4000_0000,
    ensures
        draw_frame(*old(c), *final(c)),
        final(c).store() == fill_col_spec(
            *old(c),
            old(c).store(),
            p1.x as int,
            p1.y as int,
            p1.y + length - 1,
            color,
        ),
{
    let y2 = p1.y + length - 1;
    let ghost t0 = *old(c);
    let ghost d0 = old(c).store();
    let mut y = p1.y;
    while y < y2
        invariant
            draw_frame(*old(c), *c),
            p1.y <= y,
            y <= y2 || y == p1.y,
            c.store() == fill_col_spec(t0, d0, p1.x as int, p1.y as int, y as int, color),
        decreases y2 - y,
    {
        let ghost pre = *c;
        plot(c, p1.x, y, &color);
        proof {
            pre.lemma_pix_write_eq(&t0, pre.store(), p1.x as int, y as int, color);
            lemma_fill_col_snoc(t0, d0, p1.x as int, p1.y as int, y as int, color);
        }
        y = y + 1;
    }
}

/// The endpoints normalized for the Bresenham walk: transposed when the
/// line is steep (so the walk always steps along the longer axis), then
/// ordered by increasing x. The result depends only on the unordered
/// endpoint pair.
pub open spec fn line_norm(p1: Offset, p2: Offset) -> (bool, Offset, Offset) {
    let adx = crate::geom::abs_i32(p2.x - p1.x);
    let ady = crate::geom::abs_i32(p2.y - p1.y);
    let steep = adx < ady;
    let q1 = if steep {
        Offset { x: p1.y, y: p1.x }
    } else {
        p1
    };
    let q2 = if steep {
        Offset { x: p2.y, y: p2.x }
    } else {
        p2
    };
    if q1.x > q2.x {
        (steep, q2, q1)
    } else {
        (steep, q1, q2)
    }
}

/// The store after the rest of the Bresenham walk from `x` with minor
/// coordinate `y` and error term `e`: one pixel per major step (written
/// transposed when `steep`), the minor coordinate advancing by `yi` when
/// the error is positive.
pub open spec fn line_fold<T: Drawable>(
    t: T,
    d: Seq<u8>,
    steep: bool,
    x: int,
    x2: int,
    y: int,
    yi: int,
    e: int,
    dx: int,
    dy: int,
    color: Color,
) -> Seq<u8>
    decreases x2 + 1 - x,
{
    if x > x2 {
        d
    } else {
        let dd = if steep {
            t.pix_write(d, y, x, color)
        } else {
            t.pix_write(d, x, y, color)
        };
        if e > 0 {
            line_fold(t, dd, steep, x + 1, x2, y + yi, yi, e + 2 * (dy - dx), dx, dy, color)
        } else {
            line_fold(t, dd, steep, x + 1, x2, y, yi, e + 2 * dy, dx, dy, color)
        }
    }
}

/// The store a `line` call leaves: the Bresenham fold over the
/// normalized endpoints.
pub open spec fn line_spec<T: Drawable>(t: T, d: Seq<u8>, p1: Offset, p2: Offset, color: Color) -> Seq<
    u8,
> {
    let (steep, a1, a2) = line_norm(p1, p2);
    let dx = a2.x - a1.x;
    let dy0 = a2.y - a1.y;
    let yi: int = if dy0 < 0 {
        -1
    } else {
        1
    };
    let dy = if dy0 < 0 {
        -dy0
    } else {
        dy0
    };
    line_fold(t, d, steep, a1.x as int, a2.x as int, a1.y as int, yi, 2 * dy - dx, dx, dy, color)
}

/// A line depends only on the unordered endpoint pair: the walk
/// normalizes endpoint order (and transposes steep lines) before
/// stepping, so swapping the endpoints leaves the store identical.
pub proof fn lemma_line_order_independent<T: Drawable>(
    t: T,
    d: Seq<u8>,
    p1: Offset,
    p2: Offset,
    color: Color,
)
    ensures
        line_spec(t, d, p1, p2, color) == line_spec(t, d, p2, p1, color),
{
    assert(line_norm(p1, p2) == line_norm(p2, p1));
}

/// Draws an aliased line between two points (Bresenham's algorithm,
/// stepping along the longer axis): the store becomes exactly the fold
/// of the walk's pixel writes — both endpoints included, one pixel per
/// major-axis step.
#[verifier::loop_isolation(false)]
pub fn line<T: Drawable>(c: &mut T, p1: Offset, p2: Offset, color: Color)
    requires
        old(c).inv(),
        color.wf(),
        -0x2000_0000 <= p1.x <= 0x2000_0000,
        -0x2000_0000 <= p1.y <= 0x2000_0000,
        -0x2000_0000 <= p2.x <= 0x2000_0000,
        -0x2000_0000 <= p2.y <= 0x2000_0000,
    ensures
        draw_frame(*old(c), *final(c)),
        final(c).store() == line_spec(*old(c), old(c).store(), p1, p2, color),
{
    let ghost t0 = *old(c);
    let ghost d0 = old(c).store();
    let ghost total = line_spec(t0, d0, p1, p2, color);
    let adx = if p1.x >= p2.x {
        p1.x - p2.x
    } else {
        p2.x - p1.x
    };
    let ady = if p1.y >= p2.y {
        p1.y - p2.y
    } else {
        p2.y - p1.y
    };
    let steep = adx < ady;
    let (mut a1, mut a2) = if steep {
        (Offset { x: p1.y, y: p1.x }, Offset { x: p2.y, y: p2.x })
    } else {
        (p1, p2)
    };
    if a1.x > a2.x {
        let t = a1;
        a1 = a2;
        a2 = t;
    }
    let dx = a2.x - a1.x;
    let mut dy = a2.y - a1.y;
    let mut yi: i32 = 1;
    if dy < 0 {
        yi = -1;
        dy = -dy;
    }
    let mut d: i64 = 2 * dy as i64 - dx as i64;
    let mut y = a1.y;
    let mut x = a1.x;
    proof {
        assert(line_norm(p1, p2) == (steep, a1, a2));
    }
    while x <= a2.x
        invariant
            draw_frame(*old(c), *c),
            a1.x <= x,
            x <= a2.x + 1,
            if yi == 1 {
                a1.y <= y <= a1.y + (x - a1.x)
            } else {
                a1.y - (x - a1.x) <= y <= a1.y
            },
            -2 * dx <= d <= 2 * dy,
            line_fold(
                t0,
                c.store(),
                steep,
                x as int,
                a2.x as int,
                y as int,
                yi as int,
                d as int,
                dx as int,
                dy as int,
                color,
            ) == total,
        decreases a2.x + 1 - x,
    {
        let ghost s0 = c.store();
        let ghost xo = x as int;
        let ghost yo = y as int;
        let ghost eo = d as int;
        if steep {
            plot(c, y, x, &color);
        } else {
            plot(c, x, y, &color);
        }
        if d > 0 {
            y = y + yi;
            d = d + 2 * (dy as i64 - dx as i64);
        } else {
            d = d + 2 * dy as i64;
        }
        x = x + 1;
        proof {
            assert(line_fold(
                t0,
                c.store(),
                steep,
                x as int,
                a2.x as int,
                y as int,
                yi as int,
                d as int,
                dx as int,
                dy as int,
                color,
            ) == line_fold(
                t0,
                s0,
                steep,
                xo,
                a2.x as int,
                yo,
                yi as int,
                eo,
                dx as int,
                dy as int,
                color,
            ));
        }
    }
}

/// The store after writing the two horizontal border rows: for each `x`
/// in `[x1, x2)`, the pixel at `(x, ya)` and then the one at `(x, yb)`.
pub open spec fn hedge_spec<T: Drawable>(
    t: T,
    d: Seq<u8>,
    ya: int,
    yb: int,
    x1: int,
    x2: int,
    color: Color,
) -> Seq<u8>
    decreases x2 - x1,
{
    if x1 >= x2 {
        d
    } else {
        hedge_spec(
            t,
            t.pix_write(t.pix_write(d, x1, ya, color), x1, yb, color),
            ya,
            yb,
            x1 + 1,
            x2,
            color,
        )
    }
}

/// The store after writing the two vertical border columns: for each `y`
/// in `[y1, y2)`, the pixel at `(xa, y)` and then the one at `(xb, y)`.
pub open spec fn vedge_spec<T: Drawable>(
    t: T,
    d: Seq<u8>,
    xa: int,
    xb: int,
    y1: int,
    y2: int,
    color: Color,
) -> Seq<u8>
    decreases y2 - y1,
{
    if y1 >= y2 {
        d
    } else {
        vedge_spec(
            t,
            t.pix_write(t.pix_write(d, xa, y1, color), xb, y1, color),
            xa,
            xb,
            y1 + 1,
            y2,
            color,
        )
    }
}

/// Extending the horizontal border fold by one column writes it last.
proof fn lemma_hedge_snoc<T: Drawable>(
    t: T,
    d: Seq<u8>,
    ya: int,
    yb: int,
    x1: int,
    x2: int,
    color: Color,
)
    requires
        x1 <= x2,
    ensures
        hedge_spec(t, d, ya, yb, x1, x2 + 1, color) == t.pix_write(
            t.pix_write(hedge_spec(t, d, ya, yb, x1, x2, color), x2, ya, color),
            x2,
            yb,
            color,
        ),
    decreases x2 - x1,
{
    let d2 = t.pix_write(t.pix_write(d, x1, ya, color), x1, yb, color);
    if x1 == x2 {
        assert(hedge_spec(t, d, ya, yb, x1, x2, color) == d);
        assert(hedge_spec(t, d, ya, yb, x1, x2 + 1, color) == hedge_spec(
            t,
            d2,
            ya,
            yb,
            x1 + 1,
            x2 + 1,
            color,
        ));
        assert(hedge_spec(t, d2, ya, yb, x1 + 1, x2 + 1, color) == d2);
    } else {
        lemma_hedge_snoc(t, d2, ya, yb, x1 + 1, x2, color);
        assert(hedge_spec(t, d, ya, yb, x1, x2 + 1, color) == hedge_spec(
            t,
            d2,
            ya,
            yb,
            x1 + 1,
            x2 + 1,
            color,
        ));
        assert(hedge_spec(t, d, ya, yb, x1, x2, color) == hedge_spec(
            t,
            d2,
            ya,
            yb,
            x1 + 1,
            x2,
            color,
        ));
    }
}

/// Extending the vertical border fold by one row writes it last.
proof fn lemma_vedge_snoc<T: Drawable>(
    t: T,
    d: Seq<u8>,
    xa: int,
    xb: int,
    y1: int,
    y2: int,
    color: Color,
)
    requires
        y1 <= y2,
    ensures
        vedge_spec(t, d, xa, xb, y1, y2 + 1, color) == t.pix_write(
            t.pix_write(vedge_spec(t, d, xa, xb, y1, y2, color), xa, y2, color),
            xb,
            y2,
            color,
        ),
    decreases y2 - y1,
{
    let d2 = t.pix_write(t.pix_write(d, xa, y1, color), xb, y1, color);
    if y1 == y2 {
        assert(vedge_spec(t, d, xa, xb, y1, y2, color) == d);
        assert(vedge_spec(t, d, xa, xb, y1, y2 + 1, color) == vedge_spec(
            t,
            d2,
            xa,
            xb,
            y1 + 1,
            y2 + 1,
            color,
        ));
        assert(vedge_spec(t, d2, xa, xb, y1 + 1, y2 + 1, color) == d2);
    } else {
        lemma_vedge_snoc(t, d2, xa, xb, y1 + 1, y2, color);
        assert(vedge_spec(t, d, xa, xb, y1, y2 + 1, color) == vedge_spec(
            t,
            d2,
            xa,
            xb,
            y1 + 1,
            y2 + 1,
            color,
        ));
        assert(vedge_spec(t, d, xa, xb, y1, y2, color) == vedge_spec(
            t,
            d2,
            xa,
            xb,
            y1 + 1,
            y2,
            color,
        ));
    }
}

/// Draws a rectangle border: the two horizontal rows over the full width
/// first, then the two vertical columns between them — exactly the fold
/// of those single pixel writes.
#[verifier::loop_isolation(false)]
pub fn rect<T: Drawable>(c: &mut T, rect: Rect, color: Color)
    requires
        old(c).inv(),
        color.wf(),
        rect.wf(),
        -0x4000_0000 <= rect.x,
        rect.x + rect.w <= 0x4000_0000,
        -0x4000_0000 <= rect.y,
        rect.y + rect.h <= 0x4000_0000,
    ensures
        draw_frame(*old(c), *final(c)),
        final(c).store() == vedge_spec(
            *old(c),
            hedge_spec(
                *old(c),
                old(c).store(),
                rect.y as int,
                rect.y + rect.h - 1,
                rect.x as int,
                rect.x + rect.w,
                color,
            ),
            rect.x as int,
            rect.x + rect.w - 1,
            rect.y + 1,
            rect.y + rect.h - 1,
            color,
        ),
{
    let p1 = rect.offset();
    let p3e = rect.offset_2();
    let p3 = Offset { x: p3e.x - 1, y: p3e.y - 1 };
    let ghost t0 = *old(c);
    let ghost d0 = old(c).store();
    let mut x = p1.x;
    while x <= p3.x
        invariant
            draw_frame(*old(c), *c),
            p1.x <= x,
            x <= p3.x + 1 || x == p1.x,
            c.store() == hedge_spec(
                t0,
                d0,
                p1.y as int,
                p3.y as int,
                p1.x as int,
                x as int,
                color,
            ),
        decreases p3.x + 1 - x,
    {
        let ghost pre1 = *c;
        plot(c, x, p1.y, &color);
        let ghost pre2 = *c;
        plot(c, x, p3.y, &color);
        proof {
            pre1.lemma_pix_write_eq(&t0, pre1.store(), x as int, p1.y as int, color);
            pre2.lemma_pix_write_eq(&t0, pre2.store(), x as int, p3.y as int, color);
            lemma_hedge_snoc(t0, d0, p1.y as int, p3.y as int, p1.x as int, x as int, color);
        }
        x = x + 1;
    }
    let ghost dh = c.store();
    let mut y = p1.y + 1;
    while y < p3.y
        invariant
            draw_frame(*old(c), *c),
            p1.y + 1 <= y,
            y <= p3.y || y == p1.y + 1,
            dh == hedge_spec(
                t0,
                d0,
                p1.y as int,
                p3.y as int,
                p1.x as int,
                p3.x + 1,
                color,
            ),
            c.store() == vedge_spec(
                t0,
                dh,
                p1.x as int,
                p3.x as int,
                p1.y + 1,
                y as int,
                color,
            ),
        decreases p3.y - y,
    {
        let ghost pre1 = *c;
        plot(c, p1.x, y, &color);
        let ghost pre2 = *c;
        plot(c, p3.x, y, &color);
        proof {
            pre1.lemma_pix_write_eq(&t0, pre1.store(), p1.x as int, y as int, color);
            pre2.lemma_pix_write_eq(&t0, pre2.store(), p3.x as int, y as int, color);
            lemma_vedge_snoc(t0, dh, p1.x as int, p3.x as int, p1.y + 1, y as int, color);
        }
        y = y + 1;
    }
}

/// The store after one pixel write mirrored into all four quadrants
/// around `(cx, cy)`, skipping the reflections that would double-plot
/// when an offset is zero.
pub open spec fn quadrant_spec<T: Drawable>(
    t: T,
    d: Seq<u8>,
    cx: int,
    cy: int,
    x: int,
    y: int,
    color: Color,
) -> Seq<u8> {
    let d1 = if x != 0 && y != 0 {
        t.pix_write(d, cx - x, cy - y, color)
    } else {
        d
    };
    let d2 = if x != 0 {
        t.pix_write(d1, cx - x, cy + y, color)
    } else {
        d1
    };
    let d3 = if y != 0 {
        t.pix_write(d2, cx + x, cy - y, color)
    } else {
        d2
    };
    t.pix_write(d3, cx + x, cy + y, color)
}

/// The store after one shaded pixel write mirrored into all four
/// quadrants: as [`quadrant_spec`], with the color's alpha scaled by
/// `a/255` at every write.
pub open spec fn quadrant_a_spec<T: Drawable>(
    t: T,
    d: Seq<u8>,
    cx: int,
    cy: int,
    x: int,
    y: int,
    color: Color,
    a: int,
) -> Seq<u8> {
    let d1 = if x != 0 && y != 0 {
        t.pix_write_a(d, cx - x, cy - y, color, a)
    } else {
        d
    };
    let d2 = if x != 0 {
        t.pix_write_a(d1, cx - x, cy + y, color, a)
    } else {
        d1
    };
    let d3 = if y != 0 {
        t.pix_write_a(d2, cx + x, cy - y, color, a)
    } else {
        d2
    };
    t.pix_write_a(d3, cx + x, cy + y, color, a)
}

/// A quadrant write of an alpha-scaled color is the shaded quadrant
/// write of the original color.
proof fn lemma_quadrant_shade<T: Drawable>(
    t: T,
    d: Seq<u8>,
    cx: int,
    cy: int,
    x: int,
    y: int,
    color: Color,
    a: int,
    shaded: Color,
)
    requires
        crate::color::color_set_a_rel(color, a, shaded),
    ensures
        quadrant_spec(t, d, cx, cy, x, y, shaded) == quadrant_a_spec(t, d, cx, cy, x, y, color, a),
{
    let d1 = if x != 0 && y != 0 {
        t.lemma_pix_write_shade(d, cx - x, cy - y, color, a, shaded);
        t.pix_write_a(d, cx - x, cy - y, color, a)
    } else {
        d
    };
    let d2 = if x != 0 {
        t.lemma_pix_write_shade(d1, cx - x, cy + y, color, a, shaded);
        t.pix_write_a(d1, cx - x, cy + y, color, a)
    } else {
        d1
    };
    let d3 = if y != 0 {
        t.lemma_pix_write_shade(d2, cx + x, cy - y, color, a, shaded);
        t.pix_write_a(d2, cx + x, cy - y, color, a)
    } else {
        d2
    };
    t.lemma_pix_write_shade(d3, cx + x, cy + y, color, a, shaded);
}

/// One pixel write mirrored into all four quadrants around a center,
/// skipping the reflections that would double-plot when an offset is
/// zero.
pub fn quadrant<T: Drawable>(c: &mut T, cx: i32, cy: i32, x: i32, y: i32, color: &Color)
    requires
        old(c).inv(),
        color.wf(),
        -0x4000_0000 <= cx <= 0x4000_0000,
        -0x4000_0000 <= cy <= 0x4000_0000,
        0 <= x <= 0x8000,
        0 <= y <= 0x8000,
    ensures
        draw_frame(*old(c), *final(c)),
        forall|r: T|
            same_geometry(r, *old(c)) ==> final(c).store() == #[trigger] quadrant_spec(
                r,
                old(c).store(),
                cx as int,
                cy as int,
                x as int,
                y as int,
                *color,
            ),
{
    let ghost pre0 = *old(c);
    let ghost d0 = old(c).store();
    if x != 0 {
        if y != 0 {
            plot(c, cx - x, cy - y, color);
        }
        plot(c, cx - x, cy + y, color);
    }
    if y != 0 {
        plot(c, cx + x, cy - y, color);
    }
    plot(c, cx + x, cy + y, color);
    proof {
        assert forall|r: T| same_geometry(r, pre0) implies c.store() == #[trigger] quadrant_spec(
            r,
            d0,
            cx as int,
            cy as int,
            x as int,
            y as int,
            *color,
        ) by {
            let d1 = if x != 0 && y != 0 {
                r.pix_write(d0, cx - x, cy - y, *color)
            } else {
                d0
            };
            let d2 = if x != 0 {
                r.pix_write(d1, cx - x, cy + y, *color)
            } else {
                d1
            };
            let d3 = if y != 0 {
                r.pix_write(d2, cx + x, cy - y, *color)
            } else {
                d2
            };
            assert(c.store() == r.pix_write(d3, cx + x, cy + y, *color));
        }
    }
}

/// The coverage of an antialiasing band: the distance into the band
/// scaled by `256 / (2 * radius)`, capped at full coverage.
fn band_alpha(delta: i64, radius: u32) -> (r: u8)
    requires
        0 <= delta <= 0x1_0000_0000,
        1 <= radius <= 0x4000,
    ensures
        r as int == crate::geom::min_i32(255, delta * 256 / (2 * radius as int)),
{
    let v: i64 = delta * 256 / (2 * radius as i64);
    proof {
        vstd::arithmetic::div_mod::lemma_div_pos_is_pos(delta as int * 256, 2 * radius as int);
    }
    if v > 255 {
        255
    } else {
        v as u8
    }
}

/// The initial error term of the midpoint circle walk.
pub open spec fn midpoint_e0(radius: u32) -> int {
    if radius == 0 {
        0
    } else {
        -((radius - 1) / 2)
    }
}

/// The store after the rest of the midpoint circle walk from state
/// `(x, y, e)`: while `x >= y`, eight mirrored pixels are written (axis
/// and diagonal duplicates skipped), then `y` advances and `x` retreats
/// when the error term is non-negative.
pub open spec fn circle_fold<T: Drawable>(
    t: T,
    d: Seq<u8>,
    cx: int,
    cy: int,
    x: int,
    y: int,
    e: int,
    color: Color,
) -> Seq<u8>
    decreases x + 2 - y,
{
    if y > x || y < 0 {
        d
    } else {
        let d1 = if y != 0 && x != y {
            t.pix_write(d, cx - y, cy + x, color)
        } else {
            d
        };
        let d2 = if y != 0 && x != y {
            t.pix_write(d1, cx + y, cy - x, color)
        } else {
            d1
        };
        let d3 = if y != 0 {
            t.pix_write(d2, cx - x, cy + y, color)
        } else {
            d2
        };
        let d4 = if y != 0 {
            t.pix_write(d3, cx + x, cy - y, color)
        } else {
            d3
        };
        let d5 = if x != y {
            t.pix_write(d4, cx + y, cy + x, color)
        } else {
            d4
        };
        let d6 = if x != y {
            t.pix_write(d5, cx - y, cy - x, color)
        } else {
            d5
        };
        let d7 = t.pix_write(d6, cx + x, cy + y, color);
        let d8 = t.pix_write(d7, cx - x, cy - y, color);
        if e >= 0 {
            circle_fold(t, d8, cx, cy, x - 1, y + 1, e - (x - 1) + (y + 1), color)
        } else {
            circle_fold(t, d8, cx, cy, x, y + 1, e + (y + 1), color)
        }
    }
}

/// Draws an aliased circle border (midpoint algorithm, eight-way
/// symmetry, no double-plotted axis or diagonal pixels): the store
/// becomes exactly the fold of the walk's mirrored pixel writes.
#[verifier::loop_isolation(false)]
pub fn circle<T: Drawable>(c: &mut T, center: Offset, radius: u32, color: Color)
    requires
        old(c).inv(),
        color.wf(),
        -0x4000_0000 <= center.x <= 0x4000_0000,
        -0x4000_0000 <= center.y <= 0x4000_0000,
        radius <= 0x4000,
    ensures
        draw_frame(*old(c), *final(c)),
        final(c).store() == circle_fold(
            *old(c),
            old(c).store(),
            center.x as int,
            center.y as int,
            radius as int,
            0,
            midpoint_e0(radius),
            color,
        ),
{
    let ghost t0 = *old(c);
    let ghost d0 = old(c).store();
    let ghost total = circle_fold(
        t0,
        d0,
        center.x as int,
        center.y as int,
        radius as int,
        0,
        midpoint_e0(radius),
        color,
    );
    let mut e: i64 = if radius == 0 {
        0
    } else {
        -(((radius - 1) / 2) as i64)
    };
    let mut x: i32 = radius as i32;
    let mut y: i32 = 0;
    while x >= y
        invariant
            draw_frame(*old(c), *c),
            0 <= y <= x + 2,
            -1 <= x <= radius,
            -2 * (x as int) - 2 <= e <= 2 * (y as int) + 2,
            circle_fold(
                t0,
                c.store(),
                center.x as int,
                center.y as int,
                x as int,
                y as int,
                e as int,
                color,
            ) == total,
        decreases x + 2 - y,
    {
        let ghost s0 = c.store();
        let ghost xo = x as int;
        let ghost yo = y as int;
        let ghost eo = e as int;
        if y != 0 {
            if x != y {
                plot(c, center.x - y, center.y + x, &color);
                plot(c, center.x + y, center.y - x, &color);
            }
            plot(c, center.x - x, center.y + y, &color);
            plot(c, center.x + x, center.y - y, &color);
        }
        if x != y {
            plot(c, center.x + y, center.y + x, &color);
            plot(c, center.x - y, center.y - x, &color);
        }
        plot(c, center.x + x, center.y + y, &color);
        plot(c, center.x - x, center.y - y, &color);
        y = y + 1;
        if e >= 0 {
            x = x - 1;
            e = e - x as i64;
        }
        e = e + y as i64;
        proof {
            assert(circle_fold(
                t0,
                c.store(),
                center.x as int,
                center.y as int,
                x as int,
                y as int,
                e as int,
                color,
            ) == circle_fold(t0, s0, center.x as int, center.y as int, xo, yo, eo, color));
        }
    }
}

/// The band coverage of an antialiased circle cell: `delta` into the
/// band, scaled by `256 / (2 * radius)` and capped at full coverage.
pub open spec fn band_cov(delta: int, radius: int) -> int {
    crate::geom::min_i32(255, delta * 256 / (2 * radius))
}

/// One cell of the antialiased circle border scan: a shaded quadrant
/// write when the squared distance falls in the outer band
/// `[r^2, r(r+2))` (coverage ramping down) or the inner band
/// `[r(r-2), r^2)` (coverage ramping up); untouched otherwise.
pub open spec fn circle_aa_cell<T: Drawable>(
    t: T,
    d: Seq<u8>,
    cx: int,
    cy: int,
    radius: int,
    x: int,
    y: int,
    color: Color,
) -> Seq<u8> {
    let rr = radius * radius;
    let rmax = rr + 2 * radius;
    let rmin = rr - 2 * radius;
    let sqd = x * x + y * y;
    if sqd < rmax && sqd >= rr {
        quadrant_a_spec(t, d, cx, cy, x, y, color, band_cov(rmax - sqd, radius))
    } else if sqd < rr && sqd >= rmin {
        quadrant_a_spec(t, d, cx, cy, x, y, color, band_cov(sqd - rmin, radius))
    } else {
        d
    }
}

/// The store after the rest of the antialiased circle border scan.
pub open spec fn circle_aa_fold<T: Drawable>(
    t: T,
    d: Seq<u8>,
    cx: int,
    cy: int,
    radius: int,
    x: int,
    y: int,
    color: Color,
) -> Seq<u8>
    decreases radius + 1 - y, radius + 2 - x,
{
    if y > radius || y < 0 || x < 0 {
        d
    } else if x > radius {
        circle_aa_fold(t, d, cx, cy, radius, 0, y + 1, color)
    } else {
        circle_aa_fold(
            t,
            circle_aa_cell(t, d, cx, cy, radius, x, y, color),
            cx,
            cy,
            radius,
            x + 1,
            y,
            color,
        )
    }
}

/// Draws an antialiased circle border: scans the quarter square and
/// covers the pixels whose squared distance falls in the inner or outer
/// band around the radius, with coverage ramping across the band — the
/// store becomes exactly the scan's fold of shaded quadrant writes (a
/// zero radius scans an empty band and leaves the store unchanged).
#[verifier::loop_isolation(false)]
pub fn circle_aa<T: Drawable>(c: &mut T, center: Offset, radius: u32, color: Color)
    requires
        old(c).inv(),
        color.wf(),
        -0x4000_0000 <= center.x <= 0x4000_0000,
        -0x4000_0000 <= center.y <= 0x4000_0000,
        radius <= 0x4000,
    ensures
        draw_frame(*old(c), *final(c)),
        final(c).store() == circle_aa_fold(
            *old(c),
            old(c).store(),
            center.x as int,
            center.y as int,
            radius as int,
            0,
            0,
            color,
        ),
{
    let ghost t0 = *old(c);
    let ghost d0 = old(c).store();
    let ghost total = circle_aa_fold(
        t0,
        d0,
        center.x as int,
        center.y as int,
        radius as int,
        0,
        0,
        color,
    );
    if radius == 0 {
        proof {
            let cx = center.x as int;
            let cy = center.y as int;
            assert(circle_aa_cell(t0, d0, cx, cy, 0, 0, 0, color) == d0);
            assert(circle_aa_fold(t0, d0, cx, cy, 0, 0, 0, color) == circle_aa_fold(
                t0,
                d0,
                cx,
                cy,
                0,
                1,
                0,
                color,
            ));
            assert(circle_aa_fold(t0, d0, cx, cy, 0, 1, 0, color) == circle_aa_fold(
                t0,
                d0,
                cx,
                cy,
                0,
                0,
                1,
                color,
            ));
            assert(circle_aa_fold(t0, d0, cx, cy, 0, 0, 1, color) == d0);
        }
        return ;
    }
    proof {
        crate::math::lemma_mul_le(radius as int, radius as int, 0x4000, 0x4000);
    }
    let rr: i64 = radius as i64 * radius as i64;
    let rmin: i64 = rr - 2 * radius as i64;
    let rmax: i64 = rr + 2 * radius as i64;
    let mut y: i32 = 0;
    while y <= radius as i32
        invariant
            draw_frame(*old(c), *c),
            0 <= y <= radius + 1,
            circle_aa_fold(
                t0,
                c.store(),
                center.x as int,
                center.y as int,
                radius as int,
                0,
                y as int,
                color,
            ) == total,
        decreases radius as int + 1 - y,
    {
        proof {
            crate::math::lemma_mul_le(y as int, y as int, 0x4000, 0x4000);
        }
        let sqy: i64 = y as i64 * y as i64;
        let mut x: i32 = 0;
        while x <= radius as i32
            invariant
                draw_frame(*old(c), *c),
                0 <= x <= radius + 1,
                0 <= y <= radius,
                sqy == y as i64 * y as i64,
                circle_aa_fold(
                    t0,
                    c.store(),
                    center.x as int,
                    center.y as int,
                    radius as int,
                    x as int,
                    y as int,
                    color,
                ) == total,
            decreases radius as int + 1 - x,
        {
            proof {
                crate::math::lemma_mul_le(x as int, x as int, 0x4000, 0x4000);
            }
            let ghost s0 = c.store();
            let sqd: i64 = x as i64 * x as i64 + sqy;
            if sqd < rmax && sqd >= rr {
                let a = band_alpha(rmax - sqd, radius);
                let shaded = color.set_a(a);
                quadrant(c, center.x, center.y, x, y, &shaded);
                proof {
                    lemma_quadrant_shade(
                        t0,
                        s0,
                        center.x as int,
                        center.y as int,
                        x as int,
                        y as int,
                        color,
                        a as int,
                        shaded,
                    );
                }
            } else if sqd < rr && sqd >= rmin {
                let a = band_alpha(sqd - rmin, radius);
                let shaded = color.set_a(a);
                quadrant(c, center.x, center.y, x, y, &shaded);
                proof {
                    lemma_quadrant_shade(
                        t0,
                        s0,
                        center.x as int,
                        center.y as int,
                        x as int,
                        y as int,
                        color,
                        a as int,
                        shaded,
                    );
                }
            }
            proof {
                assert(circle_aa_fold(
                    t0,
                    c.store(),
                    center.x as int,
                    center.y as int,
                    radius as int,
                    x + 1,
                    y as int,
                    color,
                ) == circle_aa_fold(
                    t0,
                    s0,
                    center.x as int,
                    center.y as int,
                    radius as int,
                    x as int,
                    y as int,
                    color,
                ));
            }
            x = x + 1;
        }
        proof {
            assert(circle_aa_fold(
                t0,
                c.store(),
                center.x as int,
                center.y as int,
                radius as int,
                0,
                y + 1,
                color,
            ) == circle_aa_fold(
                t0,
                c.store(),
                center.x as int,
                center.y as int,
                radius as int,
                x as int,
                y as int,
                color,
            ));
        }
        y = y + 1;
    }
}

/// The store after the rest of the filled-circle scan from `(x, y)`:
/// every quarter-scan cell with `x^2 + y^2 <= r * (r + 1)` — the full
/// disk — gets one mirrored quadrant write, scanning x within y.
pub open spec fn fill_circle_fold<T: Drawable>(
    t: T,
    d: Seq<u8>,
    cx: int,
    cy: int,
    radius: int,
    x: int,
    y: int,
    color: Color,
) -> Seq<u8>
    decreases radius + 1 - y, radius + 2 - x,
{
    if y > radius || y < 0 || x < 0 {
        d
    } else if x > radius {
        fill_circle_fold(t, d, cx, cy, radius, 0, y + 1, color)
    } else {
        let d2 = if x * x + y * y <= radius * (1 + radius) {
            quadrant_spec(t, d, cx, cy, x, y, color)
        } else {
            d
        };
        fill_circle_fold(t, d2, cx, cy, radius, x + 1, y, color)
    }
}

/// Draws an aliased, filled circle: every pixel with squared distance at
/// most `r * (r + 1)` is covered — the store becomes exactly the scan's
/// fold of mirrored quadrant writes.
#[verifier::loop_isolation(false)]
pub fn fill_circle<T: Drawable>(c: &mut T, center: Offset, radius: u32, color: Color)
    requires
        old(c).inv(),
        color.wf(),
        -0x4000_0000 <= center.x <= 0x4000_0000,
        -0x4000_0000 <= center.y <= 0x4000_0000,
        radius <= 0x4000,
    ensures
        draw_frame(*old(c), *final(c)),
        final(c).store() == fill_circle_fold(
            *old(c),
            old(c).store(),
            center.x as int,
            center.y as int,
            radius as int,
            0,
            0,
            color,
        ),
{
    let ghost t0 = *old(c);
    let ghost d0 = old(c).store();
    let ghost total = fill_circle_fold(
        t0,
        d0,
        center.x as int,
        center.y as int,
        radius as int,
        0,
        0,
        color,
    );
    proof {
        crate::math::lemma_mul_le(radius as int, 1 + radius as int, 0x4000, 0x4001);
    }
    let limit: i64 = radius as i64 * (1 + radius as i64);
    let mut y: i32 = 0;
    while y <= radius as i32
        invariant
            draw_frame(*old(c), *c),
            0 <= y <= radius + 1,
            fill_circle_fold(
                t0,
                c.store(),
                center.x as int,
                center.y as int,
                radius as int,
                0,
                y as int,
                color,
            ) == total,
        decreases radius as int + 1 - y,
    {
        proof {
            crate::math::lemma_mul_le(y as int, y as int, 0x4000, 0x4000);
        }
        let sqy: i64 = y as i64 * y as i64;
        let mut x: i32 = 0;
        while x <= radius as i32
            invariant
                draw_frame(*old(c), *c),
                0 <= x <= radius + 1,
                0 <= y <= radius,
                sqy == y as i64 * y as i64,
                fill_circle_fold(
                    t0,
                    c.store(),
                    center.x as int,
                    center.y as int,
                    radius as int,
                    x as int,
                    y as int,
                    color,
                ) == total,
            decreases radius as int + 1 - x,
        {
            proof {
                crate::math::lemma_mul_le(x as int, x as int, 0x4000, 0x4000);
            }
            let ghost s0 = c.store();
            let sqd: i64 = x as i64 * x as i64 + sqy;
            if sqd <= limit {
                quadrant(c, center.x, center.y, x, y, &color);
            }
            proof {
                assert(fill_circle_fold(
                    t0,
                    c.store(),
                    center.x as int,
                    center.y as int,
                    radius as int,
                    x + 1,
                    y as int,
                    color,
                ) == fill_circle_fold(
                    t0,
                    s0,
                    center.x as int,
                    center.y as int,
                    radius as int,
                    x as int,
                    y as int,
                    color,
                ));
            }
            x = x + 1;
        }
        proof {
            assert(fill_circle_fold(
                t0,
                c.store(),
                center.x as int,
                center.y as int,
                radius as int,
                0,
                y + 1,
                color,
            ) == fill_circle_fold(
                t0,
                c.store(),
                center.x as int,
                center.y as int,
                radius as int,
                x as int,
                y as int,
                color,
            ));
        }
        y = y + 1;
    }
}

/// One cell of the antialiased filled-circle scan: a solid quadrant
/// write strictly inside the radius, a shaded one across the outer band
/// `[r^2, r(r+2))`, untouched beyond it.
pub open spec fn fill_circle_aa_cell<T: Drawable>(
    t: T,
    d: Seq<u8>,
    cx: int,
    cy: int,
    radius: int,
    x: int,
    y: int,
    color: Color,
) -> Seq<u8> {
    let rmin = radius * radius;
    let rmax = rmin + 2 * radius;
    let sqd = x * x + y * y;
    if sqd < rmin {
        quadrant_spec(t, d, cx, cy, x, y, color)
    } else if sqd < rmax {
        quadrant_a_spec(t, d, cx, cy, x, y, color, band_cov(rmax - sqd, radius))
    } else {
        d
    }
}

/// The store after the rest of the antialiased filled-circle scan.
pub open spec fn fill_circle_aa_fold<T: Drawable>(
    t: T,
    d: Seq<u8>,
    cx: int,
    cy: int,
    radius: int,
    x: int,
    y: int,
    color: Color,
) -> Seq<u8>
    decreases radius + 1 - y, radius + 2 - x,
{
    if y > radius || y < 0 || x < 0 {
        d
    } else if x > radius {
        fill_circle_aa_fold(t, d, cx, cy, radius, 0, y + 1, color)
    } else {
        fill_circle_aa_fold(
            t,
            fill_circle_aa_cell(t, d, cx, cy, radius, x, y, color),
            cx,
            cy,
            radius,
            x + 1,
            y,
            color,
        )
    }
}

/// Draws an antialiased, filled circle: solid up to the radius, with one
/// coverage band softening the outer boundary — the store becomes
/// exactly the scan's fold (a zero radius scans an empty disk and leaves
/// the store unchanged).
#[verifier::loop_isolation(false)]
pub fn fill_circle_aa<T: Drawable>(c: &mut T, center: Offset, radius: u32, color: Color)
    requires
        old(c).inv(),
        color.wf(),
        -0x4000_0000 <= center.x <= 0x4000_0000,
        -0x4000_0000 <= center.y <= 0x4000_0000,
        radius <= 0x4000,
    ensures
        draw_frame(*old(c), *final(c)),
        final(c).store() == fill_circle_aa_fold(
            *old(c),
            old(c).store(),
            center.x as int,
            center.y as int,
            radius as int,
            0,
            0,
            color,
        ),
{
    let ghost t0 = *old(c);
    let ghost d0 = old(c).store();
    let ghost total = fill_circle_aa_fold(
        t0,
        d0,
        center.x as int,
        center.y as int,
        radius as int,
        0,
        0,
        color,
    );
    if radius == 0 {
        proof {
            let cx = center.x as int;
            let cy = center.y as int;
            assert(fill_circle_aa_cell(t0, d0, cx, cy, 0, 0, 0, color) == d0);
            assert(fill_circle_aa_fold(t0, d0, cx, cy, 0, 0, 0, color) == fill_circle_aa_fold(
                t0,
                d0,
                cx,
                cy,
                0,
                1,
                0,
                color,
            ));
            assert(fill_circle_aa_fold(t0, d0, cx, cy, 0, 1, 0, color) == fill_circle_aa_fold(
                t0,
                d0,
                cx,
                cy,
                0,
                0,
                1,
                color,
            ));
            assert(fill_circle_aa_fold(t0, d0, cx, cy, 0, 0, 1, color) == d0);
        }
        return ;
    }
    proof {
        crate::math::lemma_mul_le(radius as int, radius as int, 0x4000, 0x4000);
    }
    let rmin: i64 = radius as i64 * radius as i64;
    let rmax: i64 = rmin + 2 * radius as i64;
    let mut y: i32 = 0;
    while y <= radius as i32
        invariant
            draw_frame(*old(c), *c),
            0 <= y <= radius + 1,
            fill_circle_aa_fold(
                t0,
                c.store(),
                center.x as int,
                center.y as int,
                radius as int,
                0,
                y as int,
                color,
            ) == total,
        decreases radius as int + 1 - y,
    {
        proof {
            crate::math::lemma_mul_le(y as int, y as int, 0x4000, 0x4000);
        }
        let sqy: i64 = y as i64 * y as i64;
        let mut x: i32 = 0;
        while x <= radius as i32
            invariant
                draw_frame(*old(c), *c),
                0 <= x <= radius + 1,
                0 <= y <= radius,
                sqy == y as i64 * y as i64,
                fill_circle_aa_fold(
                    t0,
                    c.store(),
                    center.x as int,
                    center.y as int,
                    radius as int,
                    x as int,
                    y as int,
                    color,
                ) == total,
            decreases radius as int + 1 - x,
        {
            proof {
                crate::math::lemma_mul_le(x as int, x as int, 0x4000, 0x4000);
            }
            let ghost s0 = c.store();
            let sqd: i64 = x as i64 * x as i64 + sqy;
            if sqd < rmin {
                quadrant(c, center.x, center.y, x, y, &color);
            } else if sqd < rmax {
                let a = band_alpha(rmax - sqd, radius);
                let shaded = color.set_a(a);
                quadrant(c, center.x, center.y, x, y, &shaded);
                proof {
                    lemma_quadrant_shade(
                        t0,
                        s0,
                        center.x as int,
                        center.y as int,
                        x as int,
                        y as int,
                        color,
                        a as int,
                        shaded,
                    );
                }
            }
            proof {
                assert(fill_circle_aa_fold(
                    t0,
                    c.store(),
                    center.x as int,
                    center.y as int,
                    radius as int,
                    x + 1,
                    y as int,
                    color,
                ) == fill_circle_aa_fold(
                    t0,
                    s0,
                    center.x as int,
                    center.y as int,
                    radius as int,
                    x as int,
                    y as int,
                    color,
                ));
            }
            x = x + 1;
        }
        proof {
            assert(fill_circle_aa_fold(
                t0,
                c.store(),
                center.x as int,
                center.y as int,
                radius as int,
                0,
                y + 1,
                color,
            ) == fill_circle_aa_fold(
                t0,
                c.store(),
                center.x as int,
                center.y as int,
                radius as int,
                x as int,
                y as int,
                color,
            ));
        }
        y = y + 1;
    }
}


/// The arctangent over the first quadrant (`x, y >= 0`), in fixed-point
/// angle units: `0` along the positive x axis, a quarter turn along the
/// positive y axis.
fn iatan2_quad(y: u32, x: u32) -> (r: u32)
    requires
        x <= 16384,
        y <= 16384,
    ensures
        r == crate::math::atan2_quad(y as int, x as int),
        r <= 16384,
        y == 0 ==> r == 0,
        1 <= y ==> 1 <= r,
    {
    if y == 0 {
        0
    } else if x == 0 {
        16384
    } else if y <= x {
        crate::math::iatan2_oct(y, x)
    } else {
        16384 - crate::math::iatan2_oct(x, y)
    }
}

/// An angle reduced to one turn, with an exact positive multiple of a
/// turn mapping to a full turn rather than zero.
pub open spec fn norm_hi_spec(a: int) -> int {
    if a % 65536 == 0 && a > 0 {
        65536
    } else {
        a % 65536
    }
}

/// An angle reduced to one turn, with an exact positive multiple of a
/// turn mapping to a full turn rather than zero.
fn norm_hi(a: u32) -> (r: u32)
    ensures
        r == norm_hi_spec(a as int),
        r <= crate::math::ANGLE_TAU,
{
    let m = a % crate::math::ANGLE_TAU;
    if m == 0 && a > 0 {
        crate::math::ANGLE_TAU
    } else {
        m
    }
}

/// The angle of the octant cell `(x, y)` of the midpoint walk: the
/// fixed-point arctangent, or zero once the walk has passed the axis.
pub open spec fn oct_angle(x: int, y: int) -> int {
    if x >= 1 {
        crate::math::atan2_oct(y, x)
    } else {
        0
    }
}

/// The store after the rest of an arc span's midpoint walk from
/// `(x, y, e)`: the eight mirrored pixels of the circle walk, each gated
/// by whether its angle lies in `(a1, a2]`.
pub open spec fn arc_fold<T: Drawable>(
    t: T,
    d: Seq<u8>,
    cx: int,
    cy: int,
    x: int,
    y: int,
    e: int,
    a1: int,
    a2: int,
    color: Color,
) -> Seq<u8>
    decreases x + 2 - y,
{
    if y > x || y < 0 {
        d
    } else {
        let angle = oct_angle(x, y);
        let d1 = if y != 0 && x != y && a1 < 49152 - angle && 49152 - angle <= a2 {
            t.pix_write(d, cx - y, cy + x, color)
        } else {
            d
        };
        let d2 = if y != 0 && x != y && a1 < 16384 - angle && 16384 - angle <= a2 {
            t.pix_write(d1, cx + y, cy - x, color)
        } else {
            d1
        };
        let d3 = if y != 0 && a1 < angle + 32768 && angle + 32768 <= a2 {
            t.pix_write(d2, cx - x, cy + y, color)
        } else {
            d2
        };
        let d4 = if y != 0 && a1 < angle && angle <= a2 {
            t.pix_write(d3, cx + x, cy - y, color)
        } else {
            d3
        };
        let d5 = if x != y && a1 < angle + 49152 && angle + 49152 <= a2 {
            t.pix_write(d4, cx + y, cy + x, color)
        } else {
            d4
        };
        let d6 = if x != y && a1 < angle + 16384 && angle + 16384 <= a2 {
            t.pix_write(d5, cx - y, cy - x, color)
        } else {
            d5
        };
        let d7 = if a1 < 65536 - angle && 65536 - angle <= a2 {
            t.pix_write(d6, cx + x, cy + y, color)
        } else {
            d6
        };
        let d8 = if a1 < 32768 - angle && 32768 - angle <= a2 {
            t.pix_write(d7, cx - x, cy - y, color)
        } else {
            d7
        };
        if e >= 0 {
            arc_fold(t, d8, cx, cy, x - 1, y + 1, e - (x - 1) + (y + 1), a1, a2, color)
        } else {
            arc_fold(t, d8, cx, cy, x, y + 1, e + (y + 1), a1, a2, color)
        }
    }
}

/// The arc fold reads only the target's clip geometry.
proof fn lemma_arc_fold_geom<T: Drawable>(
    a: T,
    b: T,
    d: Seq<u8>,
    cx: int,
    cy: int,
    x: int,
    y: int,
    e: int,
    a1: int,
    a2: int,
    color: Color,
)
    requires
        same_geometry(a, b),
    ensures
        arc_fold(a, d, cx, cy, x, y, e, a1, a2, color) == arc_fold(
            b,
            d,
            cx,
            cy,
            x,
            y,
            e,
            a1,
            a2,
            color,
        ),
    decreases x + 2 - y,
{
    if !(y > x || y < 0) {
        let angle = oct_angle(x, y);
        let d1 = if y != 0 && x != y && a1 < 49152 - angle && 49152 - angle <= a2 {
            a.lemma_pix_write_eq(&b, d, cx - y, cy + x, color);
            a.pix_write(d, cx - y, cy + x, color)
        } else {
            d
        };
        let d2 = if y != 0 && x != y && a1 < 16384 - angle && 16384 - angle <= a2 {
            a.lemma_pix_write_eq(&b, d1, cx + y, cy - x, color);
            a.pix_write(d1, cx + y, cy - x, color)
        } else {
            d1
        };
        let d3 = if y != 0 && a1 < angle + 32768 && angle + 32768 <= a2 {
            a.lemma_pix_write_eq(&b, d2, cx - x, cy + y, color);
            a.pix_write(d2, cx - x, cy + y, color)
        } else {
            d2
        };
        let d4 = if y != 0 && a1 < angle && angle <= a2 {
            a.lemma_pix_write_eq(&b, d3, cx + x, cy - y, color);
            a.pix_write(d3, cx + x, cy - y, color)
        } else {
            d3
        };
        let d5 = if x != y && a1 < angle + 49152 && angle + 49152 <= a2 {
            a.lemma_pix_write_eq(&b, d4, cx + y, cy + x, color);
            a.pix_write(d4, cx + y, cy + x, color)
        } else {
            d4
        };
        let d6 = if x != y && a1 < angle + 16384 && angle + 16384 <= a2 {
            a.lemma_pix_write_eq(&b, d5, cx - y, cy - x, color);
            a.pix_write(d5, cx - y, cy - x, color)
        } else {
            d5
        };
        let d7 = if a1 < 65536 - angle && 65536 - angle <= a2 {
            a.lemma_pix_write_eq(&b, d6, cx + x, cy + y, color);
            a.pix_write(d6, cx + x, cy + y, color)
        } else {
            d6
        };
        let d8 = if a1 < 32768 - angle && 32768 - angle <= a2 {
            a.lemma_pix_write_eq(&b, d7, cx - x, cy - y, color);
            a.pix_write(d7, cx - x, cy - y, color)
        } else {
            d7
        };
        if e >= 0 {
            lemma_arc_fold_geom(a, b, d8, cx, cy, x - 1, y + 1, e - (x - 1) + (y + 1), a1, a2, color);
        } else {
            lemma_arc_fold_geom(a, b, d8, cx, cy, x, y + 1, e + (y + 1), a1, a2, color);
        }
    }
}

/// One normalized span of an aliased arc: the midpoint circle walk with
/// every mirrored pixel gated by whether its angle lies in `(a1, a2]` —
/// half-open at the low end, closed at the high end.
#[verifier::loop_isolation(false)]
fn circle_arc_span<T: Drawable>(
    c: &mut T,
    center: Offset,
    radius: u32,
    a1: u32,
    a2: u32,
    color: &Color,
)
    requires
        old(c).inv(),
        color.wf(),
        -0x4000_0000 <= center.x <= 0x4000_0000,
        -0x4000_0000 <= center.y <= 0x4000_0000,
        radius <= 0x4000,
        a1 <= 65536,
        a2 <= 65536,
    ensures
        draw_frame(*old(c), *final(c)),
        final(c).store() == arc_fold(
            *old(c),
            old(c).store(),
            center.x as int,
            center.y as int,
            radius as int,
            0,
            midpoint_e0(radius),
            a1 as int,
            a2 as int,
            *color,
        ),
{
    let ghost t0 = *old(c);
    let ghost d0 = old(c).store();
    let ghost total = arc_fold(
        t0,
        d0,
        center.x as int,
        center.y as int,
        radius as int,
        0,
        midpoint_e0(radius),
        a1 as int,
        a2 as int,
        *color,
    );
    let mut e: i64 = if radius == 0 {
        0
    } else {
        -(((radius - 1) / 2) as i64)
    };
    let mut x: i32 = radius as i32;
    let mut y: i32 = 0;
    while x >= y
        invariant
            draw_frame(*old(c), *c),
            0 <= y <= x + 2,
            -1 <= x <= radius,
            -2 * (x as int) - 2 <= e <= 2 * (y as int) + 2,
            arc_fold(
                t0,
                c.store(),
                center.x as int,
                center.y as int,
                x as int,
                y as int,
                e as int,
                a1 as int,
                a2 as int,
                *color,
            ) == total,
        decreases x + 2 - y,
    {
        let ghost s0 = c.store();
        let ghost xo = x as int;
        let ghost yo = y as int;
        let ghost eo = e as int;
        let angle: u32 = if x >= 1 {
            crate::math::iatan2_oct(y as u32, x as u32)
        } else {
            0
        };
        if y != 0 {
            if x != y {
                if a1 < 49152 - angle && 49152 - angle <= a2 {
                    plot(c, center.x - y, center.y + x, color);
                }
                if a1 < 16384 - angle && 16384 - angle <= a2 {
                    plot(c, center.x + y, center.y - x, color);
                }
            }
            if a1 < angle + 32768 && angle + 32768 <= a2 {
                plot(c, center.x - x, center.y + y, color);
            }
            if a1 < angle && angle <= a2 {
                plot(c, center.x + x, center.y - y, color);
            }
        }
        if x != y {
            if a1 < angle + 49152 && angle + 49152 <= a2 {
                plot(c, center.x + y, center.y + x, color);
            }
            if a1 < angle + 16384 && angle + 16384 <= a2 {
                plot(c, center.x - y, center.y - x, color);
            }
        }
        if a1 < 65536 - angle && 65536 - angle <= a2 {
            plot(c, center.x + x, center.y + y, color);
        }
        if a1 < 32768 - angle && 32768 - angle <= a2 {
            plot(c, center.x - x, center.y - y, color);
        }
        y = y + 1;
        if e >= 0 {
            x = x - 1;
            e = e - x as i64;
        }
        e = e + y as i64;
        proof {
            assert(arc_fold(
                t0,
                c.store(),
                center.x as int,
                center.y as int,
                x as int,
                y as int,
                e as int,
                a1 as int,
                a2 as int,
                *color,
            ) == arc_fold(
                t0,
                s0,
                center.x as int,
                center.y as int,
                xo,
                yo,
                eo,
                a1 as int,
                a2 as int,
                *color,
            ));
        }
    }
}

/// The store an arc call leaves: the wrapping normalization of the two
/// angles, then one arc span fold (or two when the arc wraps past angle
/// zero).
pub open spec fn circle_arc_spec<T: Drawable>(
    t: T,
    d: Seq<u8>,
    cx: int,
    cy: int,
    radius: u32,
    angle1: int,
    angle2: int,
    color: Color,
) -> Seq<u8> {
    let a1m = angle1 % 65536;
    let e0 = midpoint_e0(radius);
    if angle2 < a1m {
        arc_fold(
            t,
            arc_fold(t, d, cx, cy, radius as int, 0, e0, a1m, 65536, color),
            cx,
            cy,
            radius as int,
            0,
            e0,
            0,
            norm_hi_spec(angle2),
            color,
        )
    } else if angle2 >= angle1 && angle2 - angle1 >= 65536 {
        arc_fold(t, d, cx, cy, radius as int, 0, e0, 0, 65536, color)
    } else {
        arc_fold(t, d, cx, cy, radius as int, 0, e0, a1m, norm_hi_spec(angle2), color)
    }
}

/// Draws an aliased circle arc from `angle1` to `angle2`, both in
/// `1/65536`-turn units measured counterclockwise from the positive x
/// axis. An arc that wraps past angle zero is split in two; a span of a
/// full turn or more degenerates to the whole circle, and angles are
/// otherwise reduced modulo one turn (an exact positive multiple of a
/// turn counts as a full turn). Each candidate pixel's angle is gated by
/// the half-open interval `(angle1, angle2]`, closed at the upper end —
/// the boundary convention this library fixes. The store becomes exactly
/// the gated fold of the walk's pixel writes.
pub fn circle_arc<T: Drawable>(
    c: &mut T,
    center: Offset,
    radius: u32,
    angle1: u32,
    angle2: u32,
    color: Color,
)
    requires
        old(c).inv(),
        color.wf(),
        -0x4000_0000 <= center.x <= 0x4000_0000,
        -0x4000_0000 <= center.y <= 0x4000_0000,
        radius <= 0x4000,
    ensures
        draw_frame(*old(c), *final(c)),
        final(c).store() == circle_arc_spec(
            *old(c),
            old(c).store(),
            center.x as int,
            center.y as int,
            radius,
            angle1 as int,
            angle2 as int,
            color,
        ),
{
    let ghost t0 = *old(c);
    let a1m = angle1 % crate::math::ANGLE_TAU;
    if angle2 < a1m {
        circle_arc_span(c, center, radius, a1m, crate::math::ANGLE_TAU, &color);
        let ghost mid = *c;
        let a2n = norm_hi(angle2);
        circle_arc_span(c, center, radius, 0, a2n, &color);
        proof {
            lemma_arc_fold_geom(
                mid,
                t0,
                mid.store(),
                center.x as int,
                center.y as int,
                radius as int,
                0,
                midpoint_e0(radius),
                0,
                a2n as int,
                color,
            );
        }
    } else if angle2 >= angle1 && angle2 - angle1 >= crate::math::ANGLE_TAU {
        circle_arc_span(c, center, radius, 0, crate::math::ANGLE_TAU, &color);
    } else {
        let a2n = norm_hi(angle2);
        circle_arc_span(c, center, radius, a1m, a2n, &color);
    }
}

/// One cell of an antialiased arc span: when the squared distance lies
/// in one of the two radius bands, the four mirrored pixels are written
/// shaded by the band coverage, each gated by its angle in `(a1, a2]`.
pub open spec fn arc_aa_cell<T: Drawable>(
    t: T,
    d: Seq<u8>,
    cx: int,
    cy: int,
    radius: int,
    x: int,
    y: int,
    a1: int,
    a2: int,
    color: Color,
) -> Seq<u8> {
    let rr = radius * radius;
    let rmax = rr + 2 * radius;
    let rmin = rr - 2 * radius;
    let sqd = x * x + y * y;
    if (sqd < rmax && sqd >= rr) || (sqd < rr && sqd >= rmin) {
        let cov = if sqd >= rr {
            band_cov(rmax - sqd, radius)
        } else {
            band_cov(sqd - rmin, radius)
        };
        let angle = crate::math::atan2_quad(y, x);
        let d1 = if x != 0 && y != 0 && a1 < 32768 - angle && 32768 - angle <= a2 {
            t.pix_write_a(d, cx - x, cy - y, color, cov)
        } else {
            d
        };
        let d2 = if x != 0 && a1 < angle + 32768 && angle + 32768 <= a2 {
            t.pix_write_a(d1, cx - x, cy + y, color, cov)
        } else {
            d1
        };
        let d3 = if y != 0 && a1 < angle && angle <= a2 {
            t.pix_write_a(d2, cx + x, cy - y, color, cov)
        } else {
            d2
        };
        if a1 < 65536 - angle && 65536 - angle <= a2 {
            t.pix_write_a(d3, cx + x, cy + y, color, cov)
        } else {
            d3
        }
    } else {
        d
    }
}

/// The store after the rest of an antialiased arc span's scan.
pub open spec fn arc_aa_fold<T: Drawable>(
    t: T,
    d: Seq<u8>,
    cx: int,
    cy: int,
    radius: int,
    x: int,
    y: int,
    a1: int,
    a2: int,
    color: Color,
) -> Seq<u8>
    decreases radius + 1 - y, radius + 2 - x,
{
    if y > radius || y < 0 || x < 0 {
        d
    } else if x > radius {
        arc_aa_fold(t, d, cx, cy, radius, 0, y + 1, a1, a2, color)
    } else {
        arc_aa_fold(
            t,
            arc_aa_cell(t, d, cx, cy, radius, x, y, a1, a2, color),
            cx,
            cy,
            radius,
            x + 1,
            y,
            a1,
            a2,
            color,
        )
    }
}

/// The antialiased arc fold reads only the target's clip geometry.
proof fn lemma_arc_aa_fold_geom<T: Drawable>(
    a: T,
    b: T,
    d: Seq<u8>,
    cx: int,
    cy: int,
    radius: int,
    x: int,
    y: int,
    a1: int,
    a2: int,
    color: Color,
)
    requires
        same_geometry(a, b),
    ensures
        arc_aa_fold(a, d, cx, cy, radius, x, y, a1, a2, color) == arc_aa_fold(
            b,
            d,
            cx,
            cy,
            radius,
            x,
            y,
            a1,
            a2,
            color,
        ),
    decreases radius + 1 - y, radius + 2 - x,
{
    if y > radius || y < 0 || x < 0 {
    } else if x > radius {
        lemma_arc_aa_fold_geom(a, b, d, cx, cy, radius, 0, y + 1, a1, a2, color);
    } else {
        let rr = radius * radius;
        let rmax = rr + 2 * radius;
        let rmin = rr - 2 * radius;
        let sqd = x * x + y * y;
        let d2 = if (sqd < rmax && sqd >= rr) || (sqd < rr && sqd >= rmin) {
            let cov = if sqd >= rr {
                band_cov(rmax - sqd, radius)
            } else {
                band_cov(sqd - rmin, radius)
            };
            let angle = crate::math::atan2_quad(y, x);
            let e1 = if x != 0 && y != 0 && a1 < 32768 - angle && 32768 - angle <= a2 {
                a.lemma_pix_write_a_eq(&b, d, cx - x, cy - y, color, cov);
                a.pix_write_a(d, cx - x, cy - y, color, cov)
            } else {
                d
            };
            let e2 = if x != 0 && a1 < angle + 32768 && angle + 32768 <= a2 {
                a.lemma_pix_write_a_eq(&b, e1, cx - x, cy + y, color, cov);
                a.pix_write_a(e1, cx - x, cy + y, color, cov)
            } else {
                e1
            };
            let e3 = if y != 0 && a1 < angle && angle <= a2 {
                a.lemma_pix_write_a_eq(&b, e2, cx + x, cy - y, color, cov);
                a.pix_write_a(e2, cx + x, cy - y, color, cov)
            } else {
                e2
            };
            if a1 < 65536 - angle && 65536 - angle <= a2 {
                a.lemma_pix_write_a_eq(&b, e3, cx + x, cy + y, color, cov);
                a.pix_write_a(e3, cx + x, cy + y, color, cov)
            } else {
                e3
            }
        } else {
            d
        };
        lemma_arc_aa_fold_geom(a, b, d2, cx, cy, radius, x + 1, y, a1, a2, color);
    }
}

/// Over a full turn every angle gate of the arc walk is satisfied, so
/// the gated fold writes exactly the circle walk's pixels.
proof fn lemma_arc_fold_full_turn<T: Drawable>(
    t: T,
    d: Seq<u8>,
    cx: int,
    cy: int,
    x: int,
    y: int,
    e: int,
    color: Color,
)
    requires
        x <= 16384,
    ensures
        arc_fold(t, d, cx, cy, x, y, e, 0, 65536, color) == circle_fold(
            t,
            d,
            cx,
            cy,
            x,
            y,
            e,
            color,
        ),
    decreases x + 2 - y,
{
    if !(y > x || y < 0) {
        let angle = oct_angle(x, y);
        if x >= 1 {
            crate::math::lemma_atan2_oct_range(y, x);
        }
        assert(0 <= angle <= 8192);
        assert(y >= 1 ==> angle >= 1);
        assert(y < x ==> angle <= 8191);
        let d1 = if y != 0 && x != y {
            t.pix_write(d, cx - y, cy + x, color)
        } else {
            d
        };
        let d2 = if y != 0 && x != y {
            t.pix_write(d1, cx + y, cy - x, color)
        } else {
            d1
        };
        let d3 = if y != 0 {
            t.pix_write(d2, cx - x, cy + y, color)
        } else {
            d2
        };
        let d4 = if y != 0 {
            t.pix_write(d3, cx + x, cy - y, color)
        } else {
            d3
        };
        let d5 = if x != y {
            t.pix_write(d4, cx + y, cy + x, color)
        } else {
            d4
        };
        let d6 = if x != y {
            t.pix_write(d5, cx - y, cy - x, color)
        } else {
            d5
        };
        let d7 = t.pix_write(d6, cx + x, cy + y, color);
        let d8 = t.pix_write(d7, cx - x, cy - y, color);
        if e >= 0 {
            lemma_arc_fold_full_turn(t, d8, cx, cy, x - 1, y + 1, e - (x - 1) + (y + 1), color);
        } else {
            lemma_arc_fold_full_turn(t, d8, cx, cy, x, y + 1, e + (y + 1), color);
        }
    }
}

/// An arc spanning a full turn draws exactly the circle: the normalized
/// full-turn arc fold coincides with the midpoint circle fold, so
/// `circle_arc(center, r, 0, 65536, color)` and
/// `circle(center, r, color)` leave identical stores.
pub proof fn lemma_arc_full_turn_is_circle<T: Drawable>(
    t: T,
    d: Seq<u8>,
    cx: int,
    cy: int,
    radius: u32,
    color: Color,
)
    requires
        radius <= 0x4000,
    ensures
        circle_arc_spec(t, d, cx, cy, radius, 0, 65536, color) == circle_fold(
            t,
            d,
            cx,
            cy,
            radius as int,
            0,
            midpoint_e0(radius),
            color,
        ),
{
    lemma_arc_fold_full_turn(t, d, cx, cy, radius as int, 0, midpoint_e0(radius), color);
}

/// One normalized span of an antialiased arc: the banded quarter scan of
/// the antialiased circle, with each mirrored pixel gated by its angle
/// in `(a1, a2]`.
#[verifier::loop_isolation(false)]
fn circle_arc_aa_span<T: Drawable>(
    c: &mut T,
    center: Offset,
    radius: u32,
    a1: u32,
    a2: u32,
    color: &Color,
)
    requires
        old(c).inv(),
        color.wf(),
        -0x4000_0000 <= center.x <= 0x4000_0000,
        -0x4000_0000 <= center.y <= 0x4000_0000,
        radius <= 0x4000,
        a1 <= 65536,
        a2 <= 65536,
    ensures
        draw_frame(*old(c), *final(c)),
        final(c).store() == arc_aa_fold(
            *old(c),
            old(c).store(),
            center.x as int,
            center.y as int,
            radius as int,
            0,
            0,
            a1 as int,
            a2 as int,
            *color,
        ),
{
    let ghost t0 = *old(c);
    let ghost d0 = old(c).store();
    let ghost total = arc_aa_fold(
        t0,
        d0,
        center.x as int,
        center.y as int,
        radius as int,
        0,
        0,
        a1 as int,
        a2 as int,
        *color,
    );
    if radius == 0 {
        proof {
            let cx = center.x as int;
            let cy = center.y as int;
            assert(arc_aa_cell(t0, d0, cx, cy, 0, 0, 0, a1 as int, a2 as int, *color) == d0);
            assert(arc_aa_fold(t0, d0, cx, cy, 0, 0, 0, a1 as int, a2 as int, *color)
                == arc_aa_fold(t0, d0, cx, cy, 0, 1, 0, a1 as int, a2 as int, *color));
            assert(arc_aa_fold(t0, d0, cx, cy, 0, 1, 0, a1 as int, a2 as int, *color)
                == arc_aa_fold(t0, d0, cx, cy, 0, 0, 1, a1 as int, a2 as int, *color));
            assert(arc_aa_fold(t0, d0, cx, cy, 0, 0, 1, a1 as int, a2 as int, *color) == d0);
        }
        return ;
    }
    proof {
        crate::math::lemma_mul_le(radius as int, radius as int, 0x4000, 0x4000);
    }
    let rr: i64 = radius as i64 * radius as i64;
    let rmin: i64 = rr - 2 * radius as i64;
    let rmax: i64 = rr + 2 * radius as i64;
    let mut y: i32 = 0;
    while y <= radius as i32
        invariant
            draw_frame(*old(c), *c),
            0 <= y <= radius + 1,
            arc_aa_fold(
                t0,
                c.store(),
                center.x as int,
                center.y as int,
                radius as int,
                0,
                y as int,
                a1 as int,
                a2 as int,
                *color,
            ) == total,
        decreases radius as int + 1 - y,
    {
        proof {
            crate::math::lemma_mul_le(y as int, y as int, 0x4000, 0x4000);
        }
        let sqy: i64 = y as i64 * y as i64;
        let mut x: i32 = 0;
        while x <= radius as i32
            invariant
                draw_frame(*old(c), *c),
                0 <= x <= radius + 1,
                0 <= y <= radius,
                sqy == y as i64 * y as i64,
                arc_aa_fold(
                    t0,
                    c.store(),
                    center.x as int,
                    center.y as int,
                    radius as int,
                    x as int,
                    y as int,
                    a1 as int,
                    a2 as int,
                    *color,
                ) == total,
            decreases radius as int + 1 - x,
        {
            proof {
                crate::math::lemma_mul_le(x as int, x as int, 0x4000, 0x4000);
            }
            let ghost s0 = c.store();
            let sqd: i64 = x as i64 * x as i64 + sqy;
            let in_band = (sqd < rmax && sqd >= rr) || (sqd < rr && sqd >= rmin);
            if in_band {
                let a = if sqd >= rr {
                    band_alpha(rmax - sqd, radius)
                } else {
                    band_alpha(sqd - rmin, radius)
                };
                let angle = iatan2_quad(y as u32, x as u32);
                let shade = color.set_a(a);
                if x != 0 {
                    if y != 0 && a1 < 32768 - angle && 32768 - angle <= a2 {
                        let ghost sp = c.store();
                        plot(c, center.x - x, center.y - y, &shade);
                        proof {
                            t0.lemma_pix_write_shade(
                                sp,
                                center.x - x,
                                center.y - y,
                                *color,
                                a as int,
                                shade,
                            );
                        }
                    }
                    if a1 < angle + 32768 && angle + 32768 <= a2 {
                        let ghost sp = c.store();
                        plot(c, center.x - x, center.y + y, &shade);
                        proof {
                            t0.lemma_pix_write_shade(
                                sp,
                                center.x - x,
                                center.y + y,
                                *color,
                                a as int,
                                shade,
                            );
                        }
                    }
                }
                if y != 0 && a1 < angle && angle <= a2 {
                    let ghost sp = c.store();
                    plot(c, center.x + x, center.y - y, &shade);
                    proof {
                        t0.lemma_pix_write_shade(
                            sp,
                            center.x + x,
                            center.y - y,
                            *color,
                            a as int,
                            shade,
                        );
                    }
                }
                if a1 < 65536 - angle && 65536 - angle <= a2 {
                    let ghost sp = c.store();
                    plot(c, center.x + x, center.y + y, &shade);
                    proof {
                        t0.lemma_pix_write_shade(
                            sp,
                            center.x + x,
                            center.y + y,
                            *color,
                            a as int,
                            shade,
                        );
                    }
                }
            }
            proof {
                assert(arc_aa_fold(
                    t0,
                    c.store(),
                    center.x as int,
                    center.y as int,
                    radius as int,
                    x + 1,
                    y as int,
                    a1 as int,
                    a2 as int,
                    *color,
                ) == arc_aa_fold(
                    t0,
                    s0,
                    center.x as int,
                    center.y as int,
                    radius as int,
                    x as int,
                    y as int,
                    a1 as int,
                    a2 as int,
                    *color,
                ));
            }
            x = x + 1;
        }
        proof {
            assert(arc_aa_fold(
                t0,
                c.store(),
                center.x as int,
                center.y as int,
                radius as int,
                0,
                y + 1,
                a1 as int,
                a2 as int,
                *color,
            ) == arc_aa_fold(
                t0,
                c.store(),
                center.x as int,
                center.y as int,
                radius as int,
                x as int,
                y as int,
                a1 as int,
                a2 as int,
                *color,
            ));
        }
        y = y + 1;
    }
}

/// Over a full turn every gate of the antialiased arc cell is satisfied,
/// so the banded, gated scan writes exactly the antialiased circle
/// scan's pixels.
proof fn lemma_arc_aa_fold_full_turn<T: Drawable>(
    t: T,
    d: Seq<u8>,
    cx: int,
    cy: int,
    radius: int,
    x: int,
    y: int,
    color: Color,
)
    requires
        radius <= 16384,
    ensures
        arc_aa_fold(t, d, cx, cy, radius, x, y, 0, 65536, color) == circle_aa_fold(
            t,
            d,
            cx,
            cy,
            radius,
            x,
            y,
            color,
        ),
    decreases radius + 1 - y, radius + 2 - x,
{
    if y > radius || y < 0 || x < 0 {
    } else if x > radius {
        lemma_arc_aa_fold_full_turn(t, d, cx, cy, radius, 0, y + 1, color);
    } else {
        crate::math::lemma_atan2_quad_range(y, x);
        assert(arc_aa_cell(t, d, cx, cy, radius, x, y, 0, 65536, color) == circle_aa_cell(
            t,
            d,
            cx,
            cy,
            radius,
            x,
            y,
            color,
        ));
        lemma_arc_aa_fold_full_turn(
            t,
            circle_aa_cell(t, d, cx, cy, radius, x, y, color),
            cx,
            cy,
            radius,
            x + 1,
            y,
            color,
        );
    }
}

/// An antialiased arc spanning a full turn draws exactly the antialiased
/// circle: `circle_arc_aa(center, r, 0, 65536, color)` and
/// `circle_aa(center, r, color)` leave identical stores.
pub proof fn lemma_arc_aa_full_turn_is_circle_aa<T: Drawable>(
    t: T,
    d: Seq<u8>,
    cx: int,
    cy: int,
    radius: u32,
    color: Color,
)
    requires
        radius <= 0x4000,
    ensures
        circle_arc_aa_spec(t, d, cx, cy, radius as int, 0, 65536, color) == circle_aa_fold(
            t,
            d,
            cx,
            cy,
            radius as int,
            0,
            0,
            color,
        ),
{
    lemma_arc_aa_fold_full_turn(t, d, cx, cy, radius as int, 0, 0, color);
}

/// The store an antialiased arc call leaves: the wrapping normalization,
/// then one banded span fold (or two when the arc wraps past angle zero).
pub open spec fn circle_arc_aa_spec<T: Drawable>(
    t: T,
    d: Seq<u8>,
    cx: int,
    cy: int,
    radius: int,
    angle1: int,
    angle2: int,
    color: Color,
) -> Seq<u8> {
    let a1m = angle1 % 65536;
    if angle2 < a1m {
        arc_aa_fold(
            t,
            arc_aa_fold(t, d, cx, cy, radius, 0, 0, a1m, 65536, color),
            cx,
            cy,
            radius,
            0,
            0,
            0,
            norm_hi_spec(angle2),
            color,
        )
    } else if angle2 >= angle1 && angle2 - angle1 >= 65536 {
        arc_aa_fold(t, d, cx, cy, radius, 0, 0, 0, 65536, color)
    } else {
        arc_aa_fold(t, d, cx, cy, radius, 0, 0, a1m, norm_hi_spec(angle2), color)
    }
}

/// Draws an antialiased circle arc from `angle1` to `angle2` in
/// `1/65536`-turn units; the angles normalize as for [`circle_arc`] and
/// each pixel's angle is gated by `(angle1, angle2]`. The store becomes
/// exactly the banded, gated scan fold.
pub fn circle_arc_aa<T: Drawable>(
    c: &mut T,
    center: Offset,
    radius: u32,
    angle1: u32,
    angle2: u32,
    color: Color,
)
    requires
        old(c).inv(),
        color.wf(),
        -0x4000_0000 <= center.x <= 0x4000_0000,
        -0x4000_0000 <= center.y <= 0x4000_0000,
        radius <= 0x4000,
    ensures
        draw_frame(*old(c), *final(c)),
        final(c).store() == circle_arc_aa_spec(
            *old(c),
            old(c).store(),
            center.x as int,
            center.y as int,
            radius as int,
            angle1 as int,
            angle2 as int,
            color,
        ),
{
    let ghost t0 = *old(c);
    let a1m = angle1 % crate::math::ANGLE_TAU;
    if angle2 < a1m {
        circle_arc_aa_span(c, center, radius, a1m, crate::math::ANGLE_TAU, &color);
        let ghost mid = *c;
        let a2n = norm_hi(angle2);
        circle_arc_aa_span(c, center, radius, 0, a2n, &color);
        proof {
            lemma_arc_aa_fold_geom(
                mid,
                t0,
                mid.store(),
                center.x as int,
                center.y as int,
                radius as int,
                0,
                0,
                0,
                a2n as int,
                color,
            );
        }
    } else if angle2 >= angle1 && angle2 - angle1 >= crate::math::ANGLE_TAU {
        circle_arc_aa_span(c, center, radius, 0, crate::math::ANGLE_TAU, &color);
    } else {
        let a2n = norm_hi(angle2);
        circle_arc_aa_span(c, center, radius, a1m, a2n, &color);
    }
}

/// The four mirrored, angle-gated writes of one pie scan cell `(x, y)`
/// inside the disk: each quadrant reflection is written only when its
/// mapped angle lies in `(a1, a2]`.
pub open spec fn pie_cell<T: Drawable>(
    t: T,
    d: Seq<u8>,
    cx: int,
    cy: int,
    x: int,
    y: int,
    a1: int,
    a2: int,
    color: Color,
) -> Seq<u8> {
    let angle = crate::math::atan2_quad(y, x);
    let d1 = if x != 0 && y != 0 && a1 < 32768 - angle && 32768 - angle <= a2 {
        t.pix_write(d, cx - x, cy - y, color)
    } else {
        d
    };
    let d2 = if x != 0 && a1 < angle + 32768 && angle + 32768 <= a2 {
        t.pix_write(d1, cx - x, cy + y, color)
    } else {
        d1
    };
    let d3 = if y != 0 && a1 < angle && angle <= a2 {
        t.pix_write(d2, cx + x, cy - y, color)
    } else {
        d2
    };
    if a1 < 65536 - angle && 65536 - angle <= a2 {
        t.pix_write(d3, cx + x, cy + y, color)
    } else {
        d3
    }
}

/// The store after the rest of a pie span's scan from `(x, y)`: every
/// cell inside the disk `x^2 + y^2 <= r * (r + 1)` gets its four gated
/// quadrant writes.
pub open spec fn pie_fold<T: Drawable>(
    t: T,
    d: Seq<u8>,
    cx: int,
    cy: int,
    radius: int,
    x: int,
    y: int,
    a1: int,
    a2: int,
    color: Color,
) -> Seq<u8>
    decreases radius + 1 - y, radius + 2 - x,
{
    if y > radius || y < 0 || x < 0 {
        d
    } else if x > radius {
        pie_fold(t, d, cx, cy, radius, 0, y + 1, a1, a2, color)
    } else {
        let d2 = if x * x + y * y <= radius * (1 + radius) {
            pie_cell(t, d, cx, cy, x, y, a1, a2, color)
        } else {
            d
        };
        pie_fold(t, d2, cx, cy, radius, x + 1, y, a1, a2, color)
    }
}

/// The pie fold reads only the target's clip geometry.
proof fn lemma_pie_fold_geom<T: Drawable>(
    a: T,
    b: T,
    d: Seq<u8>,
    cx: int,
    cy: int,
    radius: int,
    x: int,
    y: int,
    a1: int,
    a2: int,
    color: Color,
)
    requires
        same_geometry(a, b),
    ensures
        pie_fold(a, d, cx, cy, radius, x, y, a1, a2, color) == pie_fold(
            b,
            d,
            cx,
            cy,
            radius,
            x,
            y,
            a1,
            a2,
            color,
        ),
    decreases radius + 1 - y, radius + 2 - x,
{
    if y > radius || y < 0 || x < 0 {
    } else if x > radius {
        lemma_pie_fold_geom(a, b, d, cx, cy, radius, 0, y + 1, a1, a2, color);
    } else {
        let d2 = if x * x + y * y <= radius * (1 + radius) {
            let angle = crate::math::atan2_quad(y, x);
            let d1 = if x != 0 && y != 0 && a1 < 32768 - angle && 32768 - angle <= a2 {
                a.lemma_pix_write_eq(&b, d, cx - x, cy - y, color);
                a.pix_write(d, cx - x, cy - y, color)
            } else {
                d
            };
            let dd2 = if x != 0 && a1 < angle + 32768 && angle + 32768 <= a2 {
                a.lemma_pix_write_eq(&b, d1, cx - x, cy + y, color);
                a.pix_write(d1, cx - x, cy + y, color)
            } else {
                d1
            };
            let d3 = if y != 0 && a1 < angle && angle <= a2 {
                a.lemma_pix_write_eq(&b, dd2, cx + x, cy - y, color);
                a.pix_write(dd2, cx + x, cy - y, color)
            } else {
                dd2
            };
            if a1 < 65536 - angle && 65536 - angle <= a2 {
                a.lemma_pix_write_eq(&b, d3, cx + x, cy + y, color);
                a.pix_write(d3, cx + x, cy + y, color)
            } else {
                d3
            }
        } else {
            d
        };
        lemma_pie_fold_geom(a, b, d2, cx, cy, radius, x + 1, y, a1, a2, color);
    }
}

/// One normalized span of an aliased pie: the filled-disk scan with each
/// mirrored pixel gated by its angle in `(a1, a2]`.
#[verifier::loop_isolation(false)]
fn circle_pie_span<T: Drawable>(
    c: &mut T,
    center: Offset,
    radius: u32,
    a1: u32,
    a2: u32,
    color: &Color,
)
    requires
        old(c).inv(),
        color.wf(),
        -0x4000_0000 <= center.x <= 0x4000_0000,
        -0x4000_0000 <= center.y <= 0x4000_0000,
        radius <= 0x4000,
        a1 <= 65536,
        a2 <= 65536,
    ensures
        draw_frame(*old(c), *final(c)),
        final(c).store() == pie_fold(
            *old(c),
            old(c).store(),
            center.x as int,
            center.y as int,
            radius as int,
            0,
            0,
            a1 as int,
            a2 as int,
            *color,
        ),
{
    let ghost t0 = *old(c);
    let ghost d0 = old(c).store();
    let ghost total = pie_fold(
        t0,
        d0,
        center.x as int,
        center.y as int,
        radius as int,
        0,
        0,
        a1 as int,
        a2 as int,
        *color,
    );
    proof {
        crate::math::lemma_mul_le(radius as int, 1 + radius as int, 0x4000, 0x4001);
    }
    let limit: i64 = radius as i64 * (1 + radius as i64);
    let mut y: i32 = 0;
    while y <= radius as i32
        invariant
            draw_frame(*old(c), *c),
            0 <= y <= radius + 1,
            pie_fold(
                t0,
                c.store(),
                center.x as int,
                center.y as int,
                radius as int,
                0,
                y as int,
                a1 as int,
                a2 as int,
                *color,
            ) == total,
        decreases radius as int + 1 - y,
    {
        proof {
            crate::math::lemma_mul_le(y as int, y as int, 0x4000, 0x4000);
        }
        let sqy: i64 = y as i64 * y as i64;
        let mut x: i32 = 0;
        while x <= radius as i32
            invariant
                draw_frame(*old(c), *c),
                0 <= x <= radius + 1,
                0 <= y <= radius,
                sqy == y as i64 * y as i64,
                pie_fold(
                    t0,
                    c.store(),
                    center.x as int,
                    center.y as int,
                    radius as int,
                    x as int,
                    y as int,
                    a1 as int,
                    a2 as int,
                    *color,
                ) == total,
            decreases radius as int + 1 - x,
        {
            proof {
                crate::math::lemma_mul_le(x as int, x as int, 0x4000, 0x4000);
            }
            let ghost s0 = c.store();
            let sqd: i64 = x as i64 * x as i64 + sqy;
            if sqd <= limit {
                let angle = iatan2_quad(y as u32, x as u32);
                if x != 0 {
                    if y != 0 && a1 < 32768 - angle && 32768 - angle <= a2 {
                        plot(c, center.x - x, center.y - y, color);
                    }
                    if a1 < angle + 32768 && angle + 32768 <= a2 {
                        plot(c, center.x - x, center.y + y, color);
                    }
                }
                if y != 0 && a1 < angle && angle <= a2 {
                    plot(c, center.x + x, center.y - y, color);
                }
                if a1 < 65536 - angle && 65536 - angle <= a2 {
                    plot(c, center.x + x, center.y + y, color);
                }
            }
            proof {
                assert(pie_fold(
                    t0,
                    c.store(),
                    center.x as int,
                    center.y as int,
                    radius as int,
                    x + 1,
                    y as int,
                    a1 as int,
                    a2 as int,
                    *color,
                ) == pie_fold(
                    t0,
                    s0,
                    center.x as int,
                    center.y as int,
                    radius as int,
                    x as int,
                    y as int,
                    a1 as int,
                    a2 as int,
                    *color,
                ));
            }
            x = x + 1;
        }
        proof {
            assert(pie_fold(
                t0,
                c.store(),
                center.x as int,
                center.y as int,
                radius as int,
                0,
                y + 1,
                a1 as int,
                a2 as int,
                *color,
            ) == pie_fold(
                t0,
                c.store(),
                center.x as int,
                center.y as int,
                radius as int,
                x as int,
                y as int,
                a1 as int,
                a2 as int,
                *color,
            ));
        }
        y = y + 1;
    }
}

/// The store a pie call leaves: the wrapping normalization of the two
/// angles, then one pie span fold (or two when the wedge wraps past
/// angle zero).
pub open spec fn circle_pie_spec<T: Drawable>(
    t: T,
    d: Seq<u8>,
    cx: int,
    cy: int,
    radius: int,
    angle1: int,
    angle2: int,
    color: Color,
) -> Seq<u8> {
    let a1m = angle1 % 65536;
    if angle2 < a1m {
        pie_fold(
            t,
            pie_fold(t, d, cx, cy, radius, 0, 0, a1m, 65536, color),
            cx,
            cy,
            radius,
            0,
            0,
            0,
            norm_hi_spec(angle2),
            color,
        )
    } else if angle2 >= angle1 && angle2 - angle1 >= 65536 {
        pie_fold(t, d, cx, cy, radius, 0, 0, 0, 65536, color)
    } else {
        pie_fold(t, d, cx, cy, radius, 0, 0, a1m, norm_hi_spec(angle2), color)
    }
}

/// Draws an aliased, filled pie (circular sector) from `angle1` to
/// `angle2` in `1/65536`-turn units; the angles normalize as for
/// [`circle_arc`], and each pixel's angle is gated by `(angle1, angle2]`.
/// The store becomes exactly the gated disk-scan fold.
pub fn circle_pie<T: Drawable>(
    c: &mut T,
    center: Offset,
    radius: u32,
    angle1: u32,
    angle2: u32,
    color: Color,
)
    requires
        old(c).inv(),
        color.wf(),
        -0x4000_0000 <= center.x <= 0x4000_0000,
        -0x4000_0000 <= center.y <= 0x4000_0000,
        radius <= 0x4000,
    ensures
        draw_frame(*old(c), *final(c)),
        final(c).store() == circle_pie_spec(
            *old(c),
            old(c).store(),
            center.x as int,
            center.y as int,
            radius as int,
            angle1 as int,
            angle2 as int,
            color,
        ),
{
    let ghost t0 = *old(c);
    let a1m = angle1 % crate::math::ANGLE_TAU;
    if angle2 < a1m {
        circle_pie_span(c, center, radius, a1m, crate::math::ANGLE_TAU, &color);
        let ghost mid = *c;
        let a2n = norm_hi(angle2);
        circle_pie_span(c, center, radius, 0, a2n, &color);
        proof {
            lemma_pie_fold_geom(
                mid,
                t0,
                mid.store(),
                center.x as int,
                center.y as int,
                radius as int,
                0,
                0,
                0,
                a2n as int,
                color,
            );
        }
    } else if angle2 >= angle1 && angle2 - angle1 >= crate::math::ANGLE_TAU {
        circle_pie_span(c, center, radius, 0, crate::math::ANGLE_TAU, &color);
    } else {
        let a2n = norm_hi(angle2);
        circle_pie_span(c, center, radius, a1m, a2n, &color);
    }
}

/// The soft coverage factor (out of 256) of an angle `g` against the
/// wedge `(a1, a2]`, with a linear ramp of width `2 * spacing` centered
/// on each bounding angle.
pub open spec fn ramp_c1(g: int, a1: int, a2: int, spacing: int) -> int {
    if a1 + spacing < g && g <= a2 - spacing {
        256
    } else if a1 - spacing < g && g <= a1 + spacing {
        (g - (a1 - spacing)) * 256 / (2 * spacing)
    } else if a2 - spacing < g && g <= a2 + spacing {
        ((a2 + spacing) - g) * 256 / (2 * spacing)
    } else {
        0
    }
}

/// The coverage of a pie pixel at angle `g`: the radial-band coverage
/// `cbase` scaled by the soft wedge factor.
fn angle_ramp(g: i64, a1: u32, a2: u32, spacing: i64, cbase: u8) -> (r: u8)
    requires
        1 <= spacing <= 65536,
        a1 <= 65536,
        a2 <= 65536,
        0 <= g <= 0x4_0000,
    ensures
        r as int == cbase as int * ramp_c1(g as int, a1 as int, a2 as int, spacing as int) / 256,
{
    let lo1: i64 = a1 as i64 - spacing;
    let hi1: i64 = a1 as i64 + spacing;
    let lo2: i64 = a2 as i64 - spacing;
    let hi2: i64 = a2 as i64 + spacing;
    let c1: i64 = if hi1 < g && g <= lo2 {
        256
    } else if lo1 < g && g <= hi1 {
        proof {
            crate::math::lemma_scale_le(256, g as int - lo1 as int, 2 * spacing as int);
            assert((g as int - lo1 as int) * 256 == 256 * (g as int - lo1 as int));
        }
        (g - lo1) * 256 / (2 * spacing)
    } else if lo2 < g && g <= hi2 {
        proof {
            crate::math::lemma_scale_le(256, hi2 as int - g as int, 2 * spacing as int);
            assert((hi2 as int - g as int) * 256 == 256 * (hi2 as int - g as int));
        }
        (hi2 - g) * 256 / (2 * spacing)
    } else {
        0
    };
    proof {
        crate::math::lemma_scale_le(cbase as int, c1 as int, 256);
        assert(cbase as int * c1 as int == c1 as int * cbase as int) by (nonlinear_arith);
    }
    (cbase as i64 * c1 / 256) as u8
}

/// The per-pixel angular ramp width of a pie cell: roughly one pixel's
/// angular extent at the cell's distance from the center, in fixed-point
/// angle units; a full turn at the center itself.
pub open spec fn pie_spacing(sqd: int) -> int {
    if sqd == 0 {
        65536
    } else {
        let s0 = 10430int / crate::math::sqrt_i(sqd);
        if s0 == 0 {
            1
        } else {
            s0
        }
    }
}

/// The shaded coverage of one antialiased pie write at angle `g`: the
/// radial-band coverage scaled by the soft wedge factor.
pub open spec fn pie_aa_cov(cbase: int, g: int, a1: int, a2: int, spacing: int) -> int {
    cbase * ramp_c1(g, a1, a2, spacing) / 256
}

/// One cell of an antialiased pie span: inside the soft disk boundary,
/// the four mirrored pixels are written with the radial coverage scaled
/// by each one's angular ramp, gated by the widened wedge.
pub open spec fn pie_aa_cell<T: Drawable>(
    t: T,
    d: Seq<u8>,
    cx: int,
    cy: int,
    radius: int,
    x: int,
    y: int,
    a1: int,
    a2: int,
    color: Color,
) -> Seq<u8> {
    let rmin = radius * radius;
    let rmax = rmin + 2 * radius;
    let sqd = x * x + y * y;
    if sqd < rmax {
        let cbase = if sqd < rmin {
            255
        } else {
            band_cov(rmax - sqd, radius)
        };
        let spacing = pie_spacing(sqd);
        let angle = crate::math::atan2_quad(y, x);
        let a2max = a2 + spacing;
        let angle_ = if a2max > 65536 {
            angle + 65536
        } else {
            angle
        };
        let d1 = if x != 0 && y != 0 && a1 - spacing < 32768 - angle && 32768 - angle <= a2max {
            t.pix_write_a(d, cx - x, cy - y, color, pie_aa_cov(cbase, 32768 - angle, a1, a2, spacing))
        } else {
            d
        };
        let d2 = if x != 0 && a1 - spacing < angle + 32768 && angle + 32768 <= a2max {
            t.pix_write_a(d1, cx - x, cy + y, color, pie_aa_cov(cbase, angle + 32768, a1, a2, spacing))
        } else {
            d1
        };
        let d3 = if y != 0 && a1 - spacing < 65536 - angle && 65536 - angle <= a2max {
            t.pix_write_a(d2, cx + x, cy + y, color, pie_aa_cov(cbase, 65536 - angle, a1, a2, spacing))
        } else {
            d2
        };
        if a1 - spacing < angle_ && angle_ <= a2max {
            t.pix_write_a(d3, cx + x, cy - y, color, pie_aa_cov(cbase, angle, a1, a2, spacing))
        } else {
            d3
        }
    } else {
        d
    }
}

/// The store after the rest of an antialiased pie span's scan.
pub open spec fn pie_aa_fold<T: Drawable>(
    t: T,
    d: Seq<u8>,
    cx: int,
    cy: int,
    radius: int,
    x: int,
    y: int,
    a1: int,
    a2: int,
    color: Color,
) -> Seq<u8>
    decreases radius + 1 - y, radius + 2 - x,
{
    if y > radius || y < 0 || x < 0 {
        d
    } else if x > radius {
        pie_aa_fold(t, d, cx, cy, radius, 0, y + 1, a1, a2, color)
    } else {
        pie_aa_fold(
            t,
            pie_aa_cell(t, d, cx, cy, radius, x, y, a1, a2, color),
            cx,
            cy,
            radius,
            x + 1,
            y,
            a1,
            a2,
            color,
        )
    }
}

/// The antialiased pie fold reads only the target's clip geometry.
proof fn lemma_pie_aa_fold_geom<T: Drawable>(
    a: T,
    b: T,
    d: Seq<u8>,
    cx: int,
    cy: int,
    radius: int,
    x: int,
    y: int,
    a1: int,
    a2: int,
    color: Color,
)
    requires
        same_geometry(a, b),
    ensures
        pie_aa_fold(a, d, cx, cy, radius, x, y, a1, a2, color) == pie_aa_fold(
            b,
            d,
            cx,
            cy,
            radius,
            x,
            y,
            a1,
            a2,
            color,
        ),
    decreases radius + 1 - y, radius + 2 - x,
{
    if y > radius || y < 0 || x < 0 {
    } else if x > radius {
        lemma_pie_aa_fold_geom(a, b, d, cx, cy, radius, 0, y + 1, a1, a2, color);
    } else {
        let rmin = radius * radius;
        let rmax = rmin + 2 * radius;
        let sqd = x * x + y * y;
        let d2 = if sqd < rmax {
            let cbase = if sqd < rmin {
                255int
            } else {
                band_cov(rmax - sqd, radius)
            };
            let spacing = pie_spacing(sqd);
            let angle = crate::math::atan2_quad(y, x);
            let a2max = a2 + spacing;
            let angle_ = if a2max > 65536 {
                angle + 65536
            } else {
                angle
            };
            let e1 = if x != 0 && y != 0 && a1 - spacing < 32768 - angle && 32768 - angle
                <= a2max {
                a.lemma_pix_write_a_eq(
                    &b,
                    d,
                    cx - x,
                    cy - y,
                    color,
                    pie_aa_cov(cbase, 32768 - angle, a1, a2, spacing),
                );
                a.pix_write_a(d, cx - x, cy - y, color, pie_aa_cov(cbase, 32768 - angle, a1, a2, spacing))
            } else {
                d
            };
            let e2 = if x != 0 && a1 - spacing < angle + 32768 && angle + 32768 <= a2max {
                a.lemma_pix_write_a_eq(
                    &b,
                    e1,
                    cx - x,
                    cy + y,
                    color,
                    pie_aa_cov(cbase, angle + 32768, a1, a2, spacing),
                );
                a.pix_write_a(e1, cx - x, cy + y, color, pie_aa_cov(cbase, angle + 32768, a1, a2, spacing))
            } else {
                e1
            };
            let e3 = if y != 0 && a1 - spacing < 65536 - angle && 65536 - angle <= a2max {
                a.lemma_pix_write_a_eq(
                    &b,
                    e2,
                    cx + x,
                    cy + y,
                    color,
                    pie_aa_cov(cbase, 65536 - angle, a1, a2, spacing),
                );
                a.pix_write_a(e2, cx + x, cy + y, color, pie_aa_cov(cbase, 65536 - angle, a1, a2, spacing))
            } else {
                e2
            };
            if a1 - spacing < angle_ && angle_ <= a2max {
                a.lemma_pix_write_a_eq(
                    &b,
                    e3,
                    cx + x,
                    cy - y,
                    color,
                    pie_aa_cov(cbase, angle, a1, a2, spacing),
                );
                a.pix_write_a(e3, cx + x, cy - y, color, pie_aa_cov(cbase, angle, a1, a2, spacing))
            } else {
                e3
            }
        } else {
            d
        };
        lemma_pie_aa_fold_geom(a, b, d2, cx, cy, radius, x + 1, y, a1, a2, color);
    }
}

/// One normalized span of an antialiased pie: the filled-disk scan with a
/// soft radial boundary, and both wedge edges softened by a per-pixel
/// angular ramp.
#[verifier::loop_isolation(false)]
fn circle_pie_aa_span<T: Drawable>(
    c: &mut T,
    center: Offset,
    radius: u32,
    a1: u32,
    a2: u32,
    color: &Color,
)
    requires
        old(c).inv(),
        color.wf(),
        -0x4000_0000 <= center.x <= 0x4000_0000,
        -0x4000_0000 <= center.y <= 0x4000_0000,
        radius <= 0x4000,
        a1 <= 65536,
        a2 <= 65536,
    ensures
        draw_frame(*old(c), *final(c)),
        final(c).store() == pie_aa_fold(
            *old(c),
            old(c).store(),
            center.x as int,
            center.y as int,
            radius as int,
            0,
            0,
            a1 as int,
            a2 as int,
            *color,
        ),
{
    let ghost t0 = *old(c);
    let ghost d0 = old(c).store();
    let ghost total = pie_aa_fold(
        t0,
        d0,
        center.x as int,
        center.y as int,
        radius as int,
        0,
        0,
        a1 as int,
        a2 as int,
        *color,
    );
    if radius == 0 {
        proof {
            let cx = center.x as int;
            let cy = center.y as int;
            assert(pie_aa_cell(t0, d0, cx, cy, 0, 0, 0, a1 as int, a2 as int, *color) == d0);
            assert(pie_aa_fold(t0, d0, cx, cy, 0, 0, 0, a1 as int, a2 as int, *color)
                == pie_aa_fold(t0, d0, cx, cy, 0, 1, 0, a1 as int, a2 as int, *color));
            assert(pie_aa_fold(t0, d0, cx, cy, 0, 1, 0, a1 as int, a2 as int, *color)
                == pie_aa_fold(t0, d0, cx, cy, 0, 0, 1, a1 as int, a2 as int, *color));
            assert(pie_aa_fold(t0, d0, cx, cy, 0, 0, 1, a1 as int, a2 as int, *color) == d0);
        }
        return ;
    }
    proof {
        crate::math::lemma_mul_le(radius as int, radius as int, 0x4000, 0x4000);
    }
    let rmin: i64 = radius as i64 * radius as i64;
    let rmax: i64 = rmin + 2 * radius as i64;
    let mut y: i32 = 0;
    while y <= radius as i32
        invariant
            draw_frame(*old(c), *c),
            0 <= y <= radius + 1,
            pie_aa_fold(
                t0,
                c.store(),
                center.x as int,
                center.y as int,
                radius as int,
                0,
                y as int,
                a1 as int,
                a2 as int,
                *color,
            ) == total,
        decreases radius as int + 1 - y,
    {
        proof {
            crate::math::lemma_mul_le(y as int, y as int, 0x4000, 0x4000);
        }
        let sqy: i64 = y as i64 * y as i64;
        let mut x: i32 = 0;
        while x <= radius as i32
            invariant
                draw_frame(*old(c), *c),
                0 <= x <= radius + 1,
                0 <= y <= radius,
                sqy == y as i64 * y as i64,
                pie_aa_fold(
                    t0,
                    c.store(),
                    center.x as int,
                    center.y as int,
                    radius as int,
                    x as int,
                    y as int,
                    a1 as int,
                    a2 as int,
                    *color,
                ) == total,
            decreases radius as int + 1 - x,
        {
            proof {
                crate::math::lemma_mul_le(x as int, x as int, 0x4000, 0x4000);
            }
            let ghost s0 = c.store();
            let sqd: i64 = x as i64 * x as i64 + sqy;
            if sqd < rmax {
                let cbase: u8 = if sqd < rmin {
                    255
                } else {
                    band_alpha(rmax - sqd, radius)
                };
                let spacing: i64 = if sqd == 0 {
                    65536
                } else {
                    let root = crate::math::isqrt(sqd as u32);
                    proof {
                        crate::math::lemma_sqrt_i(sqd as int);
                        assert(root >= 1) by (nonlinear_arith)
                            requires
                                (sqd as int) < (root as int + 1) * (root as int + 1),
                                1 <= sqd as int,
                                0 <= root as int;
                    }
                    let s = 10430 / root as i64;
                    if s == 0 {
                        1
                    } else {
                        s
                    }
                };
                proof {
                    assert(spacing as int == pie_spacing(sqd as int));
                }
                let angle = iatan2_quad(y as u32, x as u32);
                let a2max: i64 = a2 as i64 + spacing;
                let angle_: u32 = if a2max > 65536 {
                    angle + 65536
                } else {
                    angle
                };
                if x != 0 {
                    if y != 0 && (a1 as i64 - spacing) < (32768 - angle) as i64 && (32768
                        - angle) as i64 <= a2max {
                        let al = angle_ramp((32768 - angle) as i64, a1, a2, spacing, cbase);
                        let shade = color.set_a(al);
                        let ghost sp = c.store();
                        plot(c, center.x - x, center.y - y, &shade);
                        proof {
                            t0.lemma_pix_write_shade(
                                sp,
                                center.x - x,
                                center.y - y,
                                *color,
                                al as int,
                                shade,
                            );
                        }
                    }
                    if (a1 as i64 - spacing) < (angle + 32768) as i64 && (angle + 32768) as i64
                        <= a2max {
                        let al = angle_ramp((angle + 32768) as i64, a1, a2, spacing, cbase);
                        let shade = color.set_a(al);
                        let ghost sp = c.store();
                        plot(c, center.x - x, center.y + y, &shade);
                        proof {
                            t0.lemma_pix_write_shade(
                                sp,
                                center.x - x,
                                center.y + y,
                                *color,
                                al as int,
                                shade,
                            );
                        }
                    }
                }
                if y != 0 && (a1 as i64 - spacing) < (65536 - angle) as i64 && (65536
                    - angle) as i64 <= a2max {
                    let al = angle_ramp((65536 - angle) as i64, a1, a2, spacing, cbase);
                    let shade = color.set_a(al);
                    let ghost sp = c.store();
                    plot(c, center.x + x, center.y + y, &shade);
                    proof {
                        t0.lemma_pix_write_shade(
                            sp,
                            center.x + x,
                            center.y + y,
                            *color,
                            al as int,
                            shade,
                        );
                    }
                }
                if (a1 as i64 - spacing) < angle_ as i64 && angle_ as i64 <= a2max {
                    let al = angle_ramp(angle as i64, a1, a2, spacing, cbase);
                    let shade = color.set_a(al);
                    let ghost sp = c.store();
                    plot(c, center.x + x, center.y - y, &shade);
                    proof {
                        t0.lemma_pix_write_shade(
                            sp,
                            center.x + x,
                            center.y - y,
                            *color,
                            al as int,
                            shade,
                        );
                    }
                }
            }
            proof {
                assert(pie_aa_fold(
                    t0,
                    c.store(),
                    center.x as int,
                    center.y as int,
                    radius as int,
                    x + 1,
                    y as int,
                    a1 as int,
                    a2 as int,
                    *color,
                ) == pie_aa_fold(
                    t0,
                    s0,
                    center.x as int,
                    center.y as int,
                    radius as int,
                    x as int,
                    y as int,
                    a1 as int,
                    a2 as int,
                    *color,
                ));
            }
            x = x + 1;
        }
        proof {
            assert(pie_aa_fold(
                t0,
                c.store(),
                center.x as int,
                center.y as int,
                radius as int,
                0,
                y + 1,
                a1 as int,
                a2 as int,
                *color,
            ) == pie_aa_fold(
                t0,
                c.store(),
                center.x as int,
                center.y as int,
                radius as int,
                x as int,
                y as int,
                a1 as int,
                a2 as int,
                *color,
            ));
        }
        y = y + 1;
    }
}

/// The store an antialiased pie call leaves: the wrapping normalization,
/// then one soft-wedge span fold (or two when the wedge wraps past angle
/// zero).
pub open spec fn circle_pie_aa_spec<T: Drawable>(
    t: T,
    d: Seq<u8>,
    cx: int,
    cy: int,
    radius: int,
    angle1: int,
    angle2: int,
    color: Color,
) -> Seq<u8> {
    let a1m = angle1 % 65536;
    if angle2 < a1m {
        pie_aa_fold(
            t,
            pie_aa_fold(t, d, cx, cy, radius, 0, 0, a1m, 65536, color),
            cx,
            cy,
            radius,
            0,
            0,
            0,
            norm_hi_spec(angle2),
            color,
        )
    } else if angle2 >= angle1 && angle2 - angle1 >= 65536 {
        pie_aa_fold(t, d, cx, cy, radius, 0, 0, 0, 65536, color)
    } else {
        pie_aa_fold(t, d, cx, cy, radius, 0, 0, a1m, norm_hi_spec(angle2), color)
    }
}

/// Draws an antialiased, filled pie from `angle1` to `angle2` in
/// `1/65536`-turn units: the circular boundary and both radial edges of
/// the wedge are softened. The angles normalize as for [`circle_arc`],
/// with the wedge gate widened by the per-pixel ramp. The store becomes
/// exactly the soft-wedge scan fold.
pub fn circle_pie_aa<T: Drawable>(
    c: &mut T,
    center: Offset,
    radius: u32,
    angle1: u32,
    angle2: u32,
    color: Color,
)
    requires
        old(c).inv(),
        color.wf(),
        -0x4000_0000 <= center.x <= 0x4000_0000,
        -0x4000_0000 <= center.y <= 0x4000_0000,
        radius <= 0x4000,
    ensures
        draw_frame(*old(c), *final(c)),
        final(c).store() == circle_pie_aa_spec(
            *old(c),
            old(c).store(),
            center.x as int,
            center.y as int,
            radius as int,
            angle1 as int,
            angle2 as int,
            color,
        ),
{
    let ghost t0 = *old(c);
    let a1m = angle1 % crate::math::ANGLE_TAU;
    if angle2 < a1m {
        circle_pie_aa_span(c, center, radius, a1m, crate::math::ANGLE_TAU, &color);
        let ghost mid = *c;
        let a2n = norm_hi(angle2);
        circle_pie_aa_span(c, center, radius, 0, a2n, &color);
        proof {
            lemma_pie_aa_fold_geom(
                mid,
                t0,
                mid.store(),
                center.x as int,
                center.y as int,
                radius as int,
                0,
                0,
                0,
                a2n as int,
                color,
            );
        }
    } else if angle2 >= angle1 && angle2 - angle1 >= crate::math::ANGLE_TAU {
        circle_pie_aa_span(c, center, radius, 0, crate::math::ANGLE_TAU, &color);
    } else {
        let a2n = norm_hi(angle2);
        circle_pie_aa_span(c, center, radius, a1m, a2n, &color);
    }
}


/// The store after the remaining intermediate columns of Wu's walk: each
/// column writes the pixel under the ideal line with coverage `255 - f`
/// and the one above with coverage `f`, `f` being the fractional
/// position scaled to `0..=255` — the two weights of a column always sum
/// to `255`.
pub open spec fn line_aa_fold<T: Drawable>(
    t: T,
    d: Seq<u8>,
    steep: bool,
    x: int,
    x2: int,
    intery: int,
    grad: int,
    color: Color,
) -> Seq<u8>
    decreases x2 - x,
{
    if x >= x2 {
        d
    } else {
        let yfl = intery / 65536;
        let frac = intery - yfl * 65536;
        let at = frac * 255 / 65536;
        let dnear = if steep {
            t.pix_write_a(d, yfl, x, color, 255 - at)
        } else {
            t.pix_write_a(d, x, yfl, color, 255 - at)
        };
        let dfar = if steep {
            t.pix_write_a(dnear, yfl + 1, x, color, at)
        } else {
            t.pix_write_a(dnear, x, yfl + 1, color, at)
        };
        line_aa_fold(t, dfar, steep, x + 1, x2, intery + grad, grad, color)
    }
}

/// The store a `line_aa` call leaves: both endpoints at full coverage,
/// then the fold of weighted column pairs between them. The slope is the
/// floor of `dy * 65536 / dx` (one when the span is a single column).
pub open spec fn line_aa_spec<T: Drawable>(
    t: T,
    d: Seq<u8>,
    p1: Offset,
    p2: Offset,
    color: Color,
) -> Seq<u8> {
    let (steep, a1, a2) = line_norm(p1, p2);
    let dx = a2.x - a1.x;
    let dy = a2.y - a1.y;
    let grad: int = if dx == 0 {
        65536
    } else {
        dy * 65536 / dx
    };
    let d1 = if steep {
        t.pix_write(d, a1.y as int, a1.x as int, color)
    } else {
        t.pix_write(d, a1.x as int, a1.y as int, color)
    };
    let d2 = if steep {
        t.pix_write(d1, a2.y as int, a2.x as int, color)
    } else {
        t.pix_write(d1, a2.x as int, a2.y as int, color)
    };
    line_aa_fold(t, d2, steep, a1.x + 1, a2.x as int, a1.y * 65536 + grad, grad, color)
}

/// Draws an antialiased line between two points (Wu's algorithm in
/// 16-bit fixed point): each intermediate step covers the two pixels
/// straddling the ideal line, weighted by the fractional position — the
/// store becomes exactly the fold of those weighted writes.
#[verifier::loop_isolation(false)]
pub fn line_aa<T: Drawable>(c: &mut T, p1: Offset, p2: Offset, color: Color)
    requires
        old(c).inv(),
        color.wf(),
        -0x1000_0000 <= p1.x <= 0x1000_0000,
        -0x1000_0000 <= p1.y <= 0x1000_0000,
        -0x1000_0000 <= p2.x <= 0x1000_0000,
        -0x1000_0000 <= p2.y <= 0x1000_0000,
    ensures
        draw_frame(*old(c), *final(c)),
        final(c).store() == line_aa_spec(*old(c), old(c).store(), p1, p2, color),
{
    let ghost t0 = *old(c);
    let ghost d0 = old(c).store();
    let ghost total = line_aa_spec(t0, d0, p1, p2, color);
    let adx = if p1.x >= p2.x {
        p1.x - p2.x
    } else {
        p2.x - p1.x
    };
    let ady = if p1.y >= p2.y {
        p1.y - p2.y
    } else {
        p2.y - p1.y
    };
    let steep = adx < ady;
    let (mut a1, mut a2) = if steep {
        (Offset { x: p1.y, y: p1.x }, Offset { x: p2.y, y: p2.x })
    } else {
        (p1, p2)
    };
    if a1.x > a2.x {
        let t = a1;
        a1 = a2;
        a2 = t;
    }
    let dx: i64 = a2.x as i64 - a1.x as i64;
    let dy: i64 = a2.y as i64 - a1.y as i64;
    let gradient: i64 = if dx == 0 {
        65536
    } else {
        crate::math::div_floor(dy * 65536, dx)
    };
    proof {
        assert(0 <= dx && -dx <= dy <= dx);
        if dx != 0 {
            let v = dy as int * 65536;
            vstd::arithmetic::div_mod::lemma_fundamental_div_mod(v, dx as int);
            assert(-65537 <= v / dx as int <= 65536) by (nonlinear_arith)
                requires
                    v == dx as int * (v / dx as int) + (v % dx as int),
                    0 <= v % dx as int,
                    (v % dx as int) < dx as int,
                    -(dx as int) <= dy as int <= dx as int,
                    v == dy as int * 65536,
                    0 < dx as int;
        }
    }
    if steep {
        plot(c, a1.y, a1.x, &color);
        plot(c, a2.y, a2.x, &color);
    } else {
        plot(c, a1.x, a1.y, &color);
        plot(c, a2.x, a2.y, &color);
    }
    let ghost gr = gradient as int;
    proof {
        assert(1 * gr == gr) by (nonlinear_arith);
        assert(line_norm(p1, p2) == (steep, a1, a2));
    }
    let mut intery: i64 = a1.y as i64 * 65536 + gradient;
    let mut x: i32 = a1.x + 1;
    while x < a2.x
        invariant
            draw_frame(*old(c), *c),
            a1.x + 1 <= x,
            x <= a2.x || x == a1.x + 1,
            intery == a1.y as int * 65536 + (x - a1.x) * gr,
            -65537 <= gr <= 65536,
            line_aa_fold(
                t0,
                c.store(),
                steep,
                x as int,
                a2.x as int,
                intery as int,
                gr,
                color,
            ) == total,
        decreases a2.x - x,
    {
        let ghost s0 = c.store();
        let ghost xo = x as int;
        let ghost io = intery as int;
        proof {
            assert(-0x5000_0000_0000 <= (x - a1.x) as int * gr
                <= 0x5000_0000_0000) by (nonlinear_arith)
                requires
                    0 <= ((x - a1.x) as int) <= 0x4000_0000,
                    -65537 <= gr <= 65536;
        }
        let yfl: i64 = crate::math::div_floor(intery, 65536);
        proof {
            vstd::arithmetic::div_mod::lemma_div_is_ordered(
                -0x6000_0000_0000,
                intery as int,
                65536,
            );
            vstd::arithmetic::div_mod::lemma_div_is_ordered(
                intery as int,
                0x6000_0000_0000,
                65536,
            );
        }
        let frac: i64 = intery - yfl * 65536;
        proof {
            vstd::arithmetic::div_mod::lemma_fundamental_div_mod(intery as int, 65536);
            assert(65536 * (intery as int / 65536) == (intery as int / 65536)
                * 65536) by (nonlinear_arith);
            crate::math::lemma_scale_le(255, frac as int, 65536);
            assert(frac as int * 255 == 255 * frac as int);
        }
        let at: u8 = (frac * 255 / 65536) as u8;
        let shade_near = color.set_a(255 - at);
        let shade_far = color.set_a(at);
        let yf: i32 = yfl as i32;
        let ghost smid: Seq<u8>;
        if steep {
            plot(c, yf, x, &shade_near);
            proof {
                smid = c.store();
                t0.lemma_pix_write_shade(s0, yf as int, x as int, color, (255 - at) as int, shade_near);
            }
            plot(c, yf + 1, x, &shade_far);
            proof {
                t0.lemma_pix_write_shade(smid, yf + 1, x as int, color, at as int, shade_far);
            }
        } else {
            plot(c, x, yf, &shade_near);
            proof {
                smid = c.store();
                t0.lemma_pix_write_shade(s0, x as int, yf as int, color, (255 - at) as int, shade_near);
            }
            plot(c, x, yf + 1, &shade_far);
            proof {
                t0.lemma_pix_write_shade(smid, x as int, yf + 1, color, at as int, shade_far);
            }
        }
        proof {
            assert((x + 1 - a1.x) as int * gr == (x - a1.x) as int * gr + gr) by (nonlinear_arith);
        }
        intery = intery + gradient;
        x = x + 1;
        proof {
            assert(line_aa_fold(
                t0,
                c.store(),
                steep,
                x as int,
                a2.x as int,
                intery as int,
                gr,
                color,
            ) == line_aa_fold(t0, s0, steep, xo, a2.x as int, io, gr, color));
        }
    }
}

/// The store after the rest of the rounded-corner midpoint walk from
/// `(x, y, e)`: eight pixels per step, mirrored around the four corner
/// centers `(xc1|xc3, yc1|yc3)`, with the diagonal duplicates skipped.
pub open spec fn rr_corner_fold<T: Drawable>(
    t: T,
    d: Seq<u8>,
    xc1: int,
    yc1: int,
    xc3: int,
    yc3: int,
    x: int,
    y: int,
    e: int,
    color: Color,
) -> Seq<u8>
    decreases x + 2 - y,
{
    if y > x || y < 0 {
        d
    } else {
        let d1 = if x != y {
            t.pix_write(d, xc3 + y, yc3 + x, color)
        } else {
            d
        };
        let d2 = if x != y {
            t.pix_write(d1, xc1 - y, yc3 + x, color)
        } else {
            d1
        };
        let d3 = if x != y {
            t.pix_write(d2, xc3 + y, yc1 - x, color)
        } else {
            d2
        };
        let d4 = if x != y {
            t.pix_write(d3, xc1 - y, yc1 - x, color)
        } else {
            d3
        };
        let d5 = t.pix_write(d4, xc3 + x, yc3 + y, color);
        let d6 = t.pix_write(d5, xc1 - x, yc3 + y, color);
        let d7 = t.pix_write(d6, xc3 + x, yc1 - y, color);
        let d8 = t.pix_write(d7, xc1 - x, yc1 - y, color);
        if e >= 0 {
            rr_corner_fold(t, d8, xc1, yc1, xc3, yc3, x - 1, y + 1, e - (x - 1) + (y + 1), color)
        } else {
            rr_corner_fold(t, d8, xc1, yc1, xc3, yc3, x, y + 1, e + (y + 1), color)
        }
    }
}

/// The store a rounded-rectangle border call leaves: the two horizontal
/// edge runs, the two vertical edge runs, then the corner walk.
pub open spec fn round_rect_spec<T: Drawable>(
    t: T,
    d: Seq<u8>,
    rect: Rect,
    radius: u32,
    color: Color,
) -> Seq<u8> {
    let x1 = rect.x as int;
    let y1 = rect.y as int;
    let x3 = rect.x + rect.w - 1;
    let y3 = rect.y + rect.h - 1;
    let xc1 = x1 + radius;
    let yc1 = y1 + radius;
    let xc3 = x3 - radius;
    let yc3 = y3 - radius;
    rr_corner_fold(
        t,
        vedge_spec(
            t,
            hedge_spec(t, d, y1, y3, xc1 + 1, xc3, color),
            x1,
            x3,
            yc1 + 1,
            yc3,
            color,
        ),
        xc1,
        yc1,
        xc3,
        yc3,
        radius as int,
        0,
        midpoint_e0(radius),
        color,
    )
}

/// Draws an aliased rounded-rectangle border: straight runs for the four
/// edges and midpoint quarter circles for the corners — the store
/// becomes exactly the fold of those writes.
#[verifier::loop_isolation(false)]
pub fn round_rect<T: Drawable>(c: &mut T, rect: Rect, radius: u32, color: Color)
    requires
        old(c).inv(),
        color.wf(),
        rect.wf(),
        -0x4000_0000 <= rect.x,
        rect.x + rect.w <= 0x4000_0000,
        -0x4000_0000 <= rect.y,
        rect.y + rect.h <= 0x4000_0000,
        radius <= 0x4000,
    ensures
        draw_frame(*old(c), *final(c)),
        final(c).store() == round_rect_spec(*old(c), old(c).store(), rect, radius, color),
{
    let ghost t0 = *old(c);
    let ghost d0 = old(c).store();
    let p1 = rect.offset();
    let p3e = rect.offset_2();
    let p3 = Offset { x: p3e.x - 1, y: p3e.y - 1 };
    let p1c = Offset { x: p1.x + radius as i32, y: p1.y + radius as i32 };
    let p3c = Offset { x: p3.x - radius as i32, y: p3.y - radius as i32 };
    let ghost tot_h = hedge_spec(t0, d0, p1.y as int, p3.y as int, p1c.x + 1, p3c.x as int, color);
    let mut x = p1c.x + 1;
    while x < p3c.x
        invariant
            draw_frame(*old(c), *c),
            p1c.x + 1 <= x,
            x <= p3c.x || x == p1c.x + 1,
            hedge_spec(
                t0,
                c.store(),
                p1.y as int,
                p3.y as int,
                x as int,
                p3c.x as int,
                color,
            ) == tot_h,
        decreases p3c.x - x,
    {
        let ghost s0 = c.store();
        plot(c, x, p1.y, &color);
        plot(c, x, p3.y, &color);
        proof {
            assert(hedge_spec(
                t0,
                c.store(),
                p1.y as int,
                p3.y as int,
                x + 1,
                p3c.x as int,
                color,
            ) == hedge_spec(t0, s0, p1.y as int, p3.y as int, x as int, p3c.x as int, color));
        }
        x = x + 1;
    }
    let ghost tot_v = vedge_spec(
        t0,
        c.store(),
        p1.x as int,
        p3.x as int,
        p1c.y + 1,
        p3c.y as int,
        color,
    );
    let mut y = p1c.y + 1;
    while y < p3c.y
        invariant
            draw_frame(*old(c), *c),
            p1c.y + 1 <= y,
            y <= p3c.y || y == p1c.y + 1,
            vedge_spec(
                t0,
                c.store(),
                p1.x as int,
                p3.x as int,
                y as int,
                p3c.y as int,
                color,
            ) == tot_v,
        decreases p3c.y - y,
    {
        let ghost s0 = c.store();
        plot(c, p1.x, y, &color);
        plot(c, p3.x, y, &color);
        proof {
            assert(vedge_spec(
                t0,
                c.store(),
                p1.x as int,
                p3.x as int,
                y + 1,
                p3c.y as int,
                color,
            ) == vedge_spec(t0, s0, p1.x as int, p3.x as int, y as int, p3c.y as int, color));
        }
        y = y + 1;
    }
    let ghost tot_c = rr_corner_fold(
        t0,
        c.store(),
        p1c.x as int,
        p1c.y as int,
        p3c.x as int,
        p3c.y as int,
        radius as int,
        0,
        midpoint_e0(radius),
        color,
    );
    proof {
        assert(tot_c == round_rect_spec(t0, d0, rect, radius, color));
    }
    let mut e: i64 = if radius == 0 {
        0
    } else {
        -(((radius - 1) / 2) as i64)
    };
    let mut cx: i32 = radius as i32;
    let mut cy: i32 = 0;
    while cx >= cy
        invariant
            draw_frame(*old(c), *c),
            0 <= cy <= cx + 2,
            -1 <= cx <= radius,
            -2 * (cx as int) - 2 <= e <= 2 * (cy as int) + 2,
            rr_corner_fold(
                t0,
                c.store(),
                p1c.x as int,
                p1c.y as int,
                p3c.x as int,
                p3c.y as int,
                cx as int,
                cy as int,
                e as int,
                color,
            ) == tot_c,
        decreases cx + 2 - cy,
    {
        let ghost s0 = c.store();
        let ghost xo = cx as int;
        let ghost yo = cy as int;
        let ghost eo = e as int;
        if cx != cy {
            plot(c, p3c.x + cy, p3c.y + cx, &color);
            plot(c, p1c.x - cy, p3c.y + cx, &color);
            plot(c, p3c.x + cy, p1c.y - cx, &color);
            plot(c, p1c.x - cy, p1c.y - cx, &color);
        }
        plot(c, p3c.x + cx, p3c.y + cy, &color);
        plot(c, p1c.x - cx, p3c.y + cy, &color);
        plot(c, p3c.x + cx, p1c.y - cy, &color);
        plot(c, p1c.x - cx, p1c.y - cy, &color);
        cy = cy + 1;
        if e >= 0 {
            cx = cx - 1;
            e = e - cx as i64;
        }
        e = e + cy as i64;
        proof {
            assert(rr_corner_fold(
                t0,
                c.store(),
                p1c.x as int,
                p1c.y as int,
                p3c.x as int,
                p3c.y as int,
                cx as int,
                cy as int,
                e as int,
                color,
            ) == rr_corner_fold(
                t0,
                s0,
                p1c.x as int,
                p1c.y as int,
                p3c.x as int,
                p3c.y as int,
                xo,
                yo,
                eo,
                color,
            ));
        }
    }
}

/// One cell of the rounded-corner antialiasing scan: when the squared
/// distance falls in one of the two bands, all four corner reflections
/// are written shaded by the band coverage.
pub open spec fn rr_aa_cell<T: Drawable>(
    t: T,
    d: Seq<u8>,
    xc1: int,
    yc1: int,
    xc3: int,
    yc3: int,
    radius: int,
    x: int,
    y: int,
    color: Color,
) -> Seq<u8> {
    let rr = radius * radius;
    let rmax = rr + 2 * radius;
    let rmin = rr - 2 * radius;
    let sqd = x * x + y * y;
    if (sqd < rmax && sqd >= rr) || (sqd < rr && sqd >= rmin) {
        let cov = if sqd >= rr {
            band_cov(rmax - sqd, radius)
        } else {
            band_cov(sqd - rmin, radius)
        };
        let d1 = t.pix_write_a(d, xc1 - x, yc1 - y, color, cov);
        let d2 = t.pix_write_a(d1, xc3 + x, yc1 - y, color, cov);
        let d3 = t.pix_write_a(d2, xc1 - x, yc3 + y, color, cov);
        t.pix_write_a(d3, xc3 + x, yc3 + y, color, cov)
    } else {
        d
    }
}

/// The store after the rest of the rounded-corner antialiasing scan.
pub open spec fn rr_aa_fold<T: Drawable>(
    t: T,
    d: Seq<u8>,
    xc1: int,
    yc1: int,
    xc3: int,
    yc3: int,
    radius: int,
    x: int,
    y: int,
    color: Color,
) -> Seq<u8>
    decreases radius + 1 - y, radius + 2 - x,
{
    if y > radius || y < 0 || x < 0 {
        d
    } else if x > radius {
        rr_aa_fold(t, d, xc1, yc1, xc3, yc3, radius, 0, y + 1, color)
    } else {
        rr_aa_fold(
            t,
            rr_aa_cell(t, d, xc1, yc1, xc3, yc3, radius, x, y, color),
            xc1,
            yc1,
            xc3,
            yc3,
            radius,
            x + 1,
            y,
            color,
        )
    }
}

/// The store an antialiased rounded-rectangle border call leaves: the
/// four aliased edge runs, then — for a positive radius — the banded
/// corner scan (a zero radius has no corner band to soften).
pub open spec fn round_rect_aa_spec<T: Drawable>(
    t: T,
    d: Seq<u8>,
    rect: Rect,
    radius: u32,
    color: Color,
) -> Seq<u8> {
    let x1 = rect.x as int;
    let y1 = rect.y as int;
    let x3 = rect.x + rect.w - 1;
    let y3 = rect.y + rect.h - 1;
    let xc1 = x1 + radius;
    let yc1 = y1 + radius;
    let xc3 = x3 - radius;
    let yc3 = y3 - radius;
    let edged = vedge_spec(
        t,
        hedge_spec(t, d, y1, y3, xc1 + 1, xc3, color),
        x1,
        x3,
        yc1 + 1,
        yc3,
        color,
    );
    if radius == 0 {
        edged
    } else {
        rr_aa_fold(t, edged, xc1, yc1, xc3, yc3, radius as int, 0, 0, color)
    }
}

/// Draws an antialiased rounded-rectangle border: aliased straight edges
/// (axis-aligned runs need no softening) and banded quarter circles for
/// the corners — the store becomes exactly the fold of those writes.
#[verifier::loop_isolation(false)]
pub fn round_rect_aa<T: Drawable>(c: &mut T, rect: Rect, radius: u32, color: Color)
    requires
        old(c).inv(),
        color.wf(),
        rect.wf(),
        -0x4000_0000 <= rect.x,
        rect.x + rect.w <= 0x4000_0000,
        -0x4000_0000 <= rect.y,
        rect.y + rect.h <= 0x4000_0000,
        radius <= 0x4000,
    ensures
        draw_frame(*old(c), *final(c)),
        final(c).store() == round_rect_aa_spec(*old(c), old(c).store(), rect, radius, color),
{
    let ghost t0 = *old(c);
    let ghost d0 = old(c).store();
    let p1 = rect.offset();
    let p3e = rect.offset_2();
    let p3 = Offset { x: p3e.x - 1, y: p3e.y - 1 };
    let p1c = Offset { x: p1.x + radius as i32, y: p1.y + radius as i32 };
    let p3c = Offset { x: p3.x - radius as i32, y: p3.y - radius as i32 };
    let ghost tot_h = hedge_spec(t0, d0, p1.y as int, p3.y as int, p1c.x + 1, p3c.x as int, color);
    let mut x = p1c.x + 1;
    while x < p3c.x
        invariant
            draw_frame(*old(c), *c),
            p1c.x + 1 <= x,
            x <= p3c.x || x == p1c.x + 1,
            hedge_spec(
                t0,
                c.store(),
                p1.y as int,
                p3.y as int,
                x as int,
                p3c.x as int,
                color,
            ) == tot_h,
        decreases p3c.x - x,
    {
        let ghost s0 = c.store();
        plot(c, x, p1.y, &color);
        plot(c, x, p3.y, &color);
        proof {
            assert(hedge_spec(
                t0,
                c.store(),
                p1.y as int,
                p3.y as int,
                x + 1,
                p3c.x as int,
                color,
            ) == hedge_spec(t0, s0, p1.y as int, p3.y as int, x as int, p3c.x as int, color));
        }
        x = x + 1;
    }
    let ghost tot_v = vedge_spec(
        t0,
        c.store(),
        p1.x as int,
        p3.x as int,
        p1c.y + 1,
        p3c.y as int,
        color,
    );
    let mut y = p1c.y + 1;
    while y < p3c.y
        invariant
            draw_frame(*old(c), *c),
            p1c.y + 1 <= y,
            y <= p3c.y || y == p1c.y + 1,
            vedge_spec(
                t0,
                c.store(),
                p1.x as int,
                p3.x as int,
                y as int,
                p3c.y as int,
                color,
            ) == tot_v,
        decreases p3c.y - y,
    {
        let ghost s0 = c.store();
        plot(c, p1.x, y, &color);
        plot(c, p3.x, y, &color);
        proof {
            assert(vedge_spec(
                t0,
                c.store(),
                p1.x as int,
                p3.x as int,
                y + 1,
                p3c.y as int,
                color,
            ) == vedge_spec(t0, s0, p1.x as int, p3.x as int, y as int, p3c.y as int, color));
        }
        y = y + 1;
    }
    if radius == 0 {
        return ;
    }
    let ghost tot_c = rr_aa_fold(
        t0,
        c.store(),
        p1c.x as int,
        p1c.y as int,
        p3c.x as int,
        p3c.y as int,
        radius as int,
        0,
        0,
        color,
    );
    proof {
        assert(tot_c == round_rect_aa_spec(t0, d0, rect, radius, color));
    }
    proof {
        crate::math::lemma_mul_le(radius as int, radius as int, 0x4000, 0x4000);
    }
    let rr: i64 = radius as i64 * radius as i64;
    let rmin: i64 = rr - 2 * radius as i64;
    let rmax: i64 = rr + 2 * radius as i64;
    let mut cy: i32 = 0;
    while cy <= radius as i32
        invariant
            draw_frame(*old(c), *c),
            0 <= cy <= radius + 1,
            rr_aa_fold(
                t0,
                c.store(),
                p1c.x as int,
                p1c.y as int,
                p3c.x as int,
                p3c.y as int,
                radius as int,
                0,
                cy as int,
                color,
            ) == tot_c,
        decreases radius as int + 1 - cy,
    {
        proof {
            crate::math::lemma_mul_le(cy as int, cy as int, 0x4000, 0x4000);
        }
        let sqy: i64 = cy as i64 * cy as i64;
        let mut cx: i32 = 0;
        while cx <= radius as i32
            invariant
                draw_frame(*old(c), *c),
                0 <= cx <= radius + 1,
                0 <= cy <= radius,
                sqy == cy as i64 * cy as i64,
                rr_aa_fold(
                    t0,
                    c.store(),
                    p1c.x as int,
                    p1c.y as int,
                    p3c.x as int,
                    p3c.y as int,
                    radius as int,
                    cx as int,
                    cy as int,
                    color,
                ) == tot_c,
            decreases radius as int + 1 - cx,
        {
            proof {
                crate::math::lemma_mul_le(cx as int, cx as int, 0x4000, 0x4000);
            }
            let ghost s0 = c.store();
            let sqd: i64 = cx as i64 * cx as i64 + sqy;
            if (sqd < rmax && sqd >= rr) || (sqd < rr && sqd >= rmin) {
                let a = if sqd >= rr {
                    band_alpha(rmax - sqd, radius)
                } else {
                    band_alpha(sqd - rmin, radius)
                };
                let shade = color.set_a(a);
                let ghost s1 = c.store();
                plot(c, p1c.x - cx, p1c.y - cy, &shade);
                proof {
                    t0.lemma_pix_write_shade(s1, p1c.x - cx, p1c.y - cy, color, a as int, shade);
                }
                let ghost s2 = c.store();
                plot(c, p3c.x + cx, p1c.y - cy, &shade);
                proof {
                    t0.lemma_pix_write_shade(s2, p3c.x + cx, p1c.y - cy, color, a as int, shade);
                }
                let ghost s3 = c.store();
                plot(c, p1c.x - cx, p3c.y + cy, &shade);
                proof {
                    t0.lemma_pix_write_shade(s3, p1c.x - cx, p3c.y + cy, color, a as int, shade);
                }
                let ghost s4 = c.store();
                plot(c, p3c.x + cx, p3c.y + cy, &shade);
                proof {
                    t0.lemma_pix_write_shade(s4, p3c.x + cx, p3c.y + cy, color, a as int, shade);
                }
            }
            proof {
                assert(rr_aa_fold(
                    t0,
                    c.store(),
                    p1c.x as int,
                    p1c.y as int,
                    p3c.x as int,
                    p3c.y as int,
                    radius as int,
                    cx + 1,
                    cy as int,
                    color,
                ) == rr_aa_fold(
                    t0,
                    s0,
                    p1c.x as int,
                    p1c.y as int,
                    p3c.x as int,
                    p3c.y as int,
                    radius as int,
                    cx as int,
                    cy as int,
                    color,
                ));
            }
            cx = cx + 1;
        }
        proof {
            assert(rr_aa_fold(
                t0,
                c.store(),
                p1c.x as int,
                p1c.y as int,
                p3c.x as int,
                p3c.y as int,
                radius as int,
                0,
                cy + 1,
                color,
            ) == rr_aa_fold(
                t0,
                c.store(),
                p1c.x as int,
                p1c.y as int,
                p3c.x as int,
                p3c.y as int,
                radius as int,
                cx as int,
                cy as int,
                color,
            ));
        }
        cy = cy + 1;
    }
}

/// The store after the remaining columns of the two vertical cap bands
/// of a filled rounded rectangle: for each `x`, the column run
/// `[ya1, ya2)` above and then `[yb1, yb2)` below.
pub open spec fn rr_bands_fold<T: Drawable>(
    t: T,
    d: Seq<u8>,
    x: int,
    x2: int,
    ya1: int,
    ya2: int,
    yb1: int,
    yb2: int,
    color: Color,
) -> Seq<u8>
    decreases x2 - x,
{
    if x >= x2 {
        d
    } else {
        rr_bands_fold(
            t,
            fill_col_spec(t, fill_col_spec(t, d, x, ya1, ya2, color), x, yb1, yb2, color),
            x + 1,
            x2,
            ya1,
            ya2,
            yb1,
            yb2,
            color,
        )
    }
}

/// One cell of the filled rounded-corner scan: all four corner
/// reflections written when the squared distance is at most
/// `r * (r + 2)`.
pub open spec fn frr_cell<T: Drawable>(
    t: T,
    d: Seq<u8>,
    xc1: int,
    yc1: int,
    xc3: int,
    yc3: int,
    radius: int,
    x: int,
    y: int,
    color: Color,
) -> Seq<u8> {
    if x * x + y * y <= radius * (2 + radius) {
        let d1 = t.pix_write(d, xc1 - x, yc1 - y, color);
        let d2 = t.pix_write(d1, xc3 + x, yc1 - y, color);
        let d3 = t.pix_write(d2, xc1 - x, yc3 + y, color);
        t.pix_write(d3, xc3 + x, yc3 + y, color)
    } else {
        d
    }
}

/// The store after the rest of the filled rounded-corner scan.
pub open spec fn frr_fold<T: Drawable>(
    t: T,
    d: Seq<u8>,
    xc1: int,
    yc1: int,
    xc3: int,
    yc3: int,
    radius: int,
    x: int,
    y: int,
    color: Color,
) -> Seq<u8>
    decreases radius + 1 - y, radius + 2 - x,
{
    if y > radius || y < 0 || x < 0 {
        d
    } else if x > radius {
        frr_fold(t, d, xc1, yc1, xc3, yc3, radius, 0, y + 1, color)
    } else {
        frr_fold(
            t,
            frr_cell(t, d, xc1, yc1, xc3, yc3, radius, x, y, color),
            xc1,
            yc1,
            xc3,
            yc3,
            radius,
            x + 1,
            y,
            color,
        )
    }
}

/// The store a filled rounded-rectangle call leaves: the interior block,
/// the two cap bands, then the filled corner scan.
pub open spec fn fill_round_rect_spec<T: Drawable>(
    t: T,
    d: Seq<u8>,
    rect: Rect,
    radius: u32,
    color: Color,
) -> Seq<u8> {
    let x1 = rect.x as int;
    let y1 = rect.y as int;
    let x3 = rect.x + rect.w - 1;
    let y3 = rect.y + rect.h - 1;
    let xc1 = x1 + radius;
    let yc1 = y1 + radius;
    let xc3 = x3 - radius;
    let yc3 = y3 - radius;
    frr_fold(
        t,
        rr_bands_fold(
            t,
            fill_block_spec(t, d, yc1 + 1, yc3, x1, x3 + 1, color),
            xc1 + 1,
            xc3,
            y1,
            yc1 + 1,
            yc3,
            y3 + 1,
            color,
        ),
        xc1,
        yc1,
        xc3,
        yc3,
        radius as int,
        0,
        0,
        color,
    )
}

/// Draws a filled, aliased rounded rectangle: the interior plus four
/// filled quarter-circle corners — the store becomes exactly the fold of
/// those writes.
#[verifier::loop_isolation(false)]
pub fn fill_round_rect<T: Drawable>(c: &mut T, rect: Rect, radius: u32, color: Color)
    requires
        old(c).inv(),
        color.wf(),
        rect.wf(),
        -0x4000_0000 <= rect.x,
        rect.x + rect.w <= 0x4000_0000,
        -0x4000_0000 <= rect.y,
        rect.y + rect.h <= 0x4000_0000,
        radius <= 0x4000,
    ensures
        draw_frame(*old(c), *final(c)),
        final(c).store() == fill_round_rect_spec(*old(c), old(c).store(), rect, radius, color),
{
    let ghost t0 = *old(c);
    let ghost d0 = old(c).store();
    let p1 = rect.offset();
    let p3e = rect.offset_2();
    let p3 = Offset { x: p3e.x - 1, y: p3e.y - 1 };
    let p1c = Offset { x: p1.x + radius as i32, y: p1.y + radius as i32 };
    let p3c = Offset { x: p3.x - radius as i32, y: p3.y - radius as i32 };
    let ghost tot_i = fill_block_spec(
        t0,
        d0,
        p1c.y + 1,
        p3c.y as int,
        p1.x as int,
        p3.x + 1,
        color,
    );
    let mut y = p1c.y + 1;
    while y < p3c.y
        invariant
            draw_frame(*old(c), *c),
            p1c.y + 1 <= y,
            y <= p3c.y || y == p1c.y + 1,
            fill_block_spec(
                t0,
                c.store(),
                y as int,
                p3c.y as int,
                p1.x as int,
                p3.x + 1,
                color,
            ) == tot_i,
        decreases p3c.y - y,
    {
        let mut x = p1.x;
        while x <= p3.x
            invariant
                draw_frame(*old(c), *c),
                p1.x <= x,
                x <= p3.x + 1 || x == p1.x,
                p1c.y + 1 <= y < p3c.y,
                fill_block_spec(
                    t0,
                    fill_row_spec(t0, c.store(), y as int, x as int, p3.x + 1, color),
                    y + 1,
                    p3c.y as int,
                    p1.x as int,
                    p3.x + 1,
                    color,
                ) == tot_i,
            decreases p3.x + 1 - x,
        {
            let ghost s0 = c.store();
            plot(c, x, y, &color);
            proof {
                assert(fill_row_spec(t0, c.store(), y as int, x + 1, p3.x + 1, color)
                    == fill_row_spec(t0, s0, y as int, x as int, p3.x + 1, color));
            }
            x = x + 1;
        }
        y = y + 1;
    }
    let ghost tot_b = rr_bands_fold(
        t0,
        c.store(),
        p1c.x + 1,
        p3c.x as int,
        p1.y as int,
        p1c.y + 1,
        p3c.y as int,
        p3.y + 1,
        color,
    );
    let mut x = p1c.x + 1;
    while x < p3c.x
        invariant
            draw_frame(*old(c), *c),
            p1c.x + 1 <= x,
            x <= p3c.x || x == p1c.x + 1,
            rr_bands_fold(
                t0,
                c.store(),
                x as int,
                p3c.x as int,
                p1.y as int,
                p1c.y + 1,
                p3c.y as int,
                p3.y + 1,
                color,
            ) == tot_b,
        decreases p3c.x - x,
    {
        let mut y = p1.y;
        while y <= p1c.y
            invariant
                draw_frame(*old(c), *c),
                p1.y <= y,
                y <= p1c.y + 1 || y == p1.y,
                p1c.x + 1 <= x < p3c.x,
                rr_bands_fold(
                    t0,
                    fill_col_spec(
                        t0,
                        fill_col_spec(t0, c.store(), x as int, y as int, p1c.y + 1, color),
                        x as int,
                        p3c.y as int,
                        p3.y + 1,
                        color,
                    ),
                    x + 1,
                    p3c.x as int,
                    p1.y as int,
                    p1c.y + 1,
                    p3c.y as int,
                    p3.y + 1,
                    color,
                ) == tot_b,
            decreases p1c.y + 1 - y,
        {
            let ghost s0 = c.store();
            plot(c, x, y, &color);
            proof {
                assert(fill_col_spec(t0, c.store(), x as int, y + 1, p1c.y + 1, color)
                    == fill_col_spec(t0, s0, x as int, y as int, p1c.y + 1, color));
            }
            y = y + 1;
        }
        let mut y2 = p3c.y;
        while y2 <= p3.y
            invariant
                draw_frame(*old(c), *c),
                p3c.y <= y2,
                y2 <= p3.y + 1 || y2 == p3c.y,
                p1c.x + 1 <= x < p3c.x,
                rr_bands_fold(
                    t0,
                    fill_col_spec(t0, c.store(), x as int, y2 as int, p3.y + 1, color),
                    x + 1,
                    p3c.x as int,
                    p1.y as int,
                    p1c.y + 1,
                    p3c.y as int,
                    p3.y + 1,
                    color,
                ) == tot_b,
            decreases p3.y + 1 - y2,
        {
            let ghost s0 = c.store();
            plot(c, x, y2, &color);
            proof {
                assert(fill_col_spec(t0, c.store(), x as int, y2 + 1, p3.y + 1, color)
                    == fill_col_spec(t0, s0, x as int, y2 as int, p3.y + 1, color));
            }
            y2 = y2 + 1;
        }
        x = x + 1;
    }
    let ghost tot_c = frr_fold(
        t0,
        c.store(),
        p1c.x as int,
        p1c.y as int,
        p3c.x as int,
        p3c.y as int,
        radius as int,
        0,
        0,
        color,
    );
    proof {
        assert(tot_c == fill_round_rect_spec(t0, d0, rect, radius, color));
    }
    proof {
        crate::math::lemma_mul_le(radius as int, 2 + radius as int, 0x4000, 0x4002);
    }
    let limit: i64 = radius as i64 * (2 + radius as i64);
    let mut cy: i32 = 0;
    while cy <= radius as i32
        invariant
            draw_frame(*old(c), *c),
            0 <= cy <= radius + 1,
            frr_fold(
                t0,
                c.store(),
                p1c.x as int,
                p1c.y as int,
                p3c.x as int,
                p3c.y as int,
                radius as int,
                0,
                cy as int,
                color,
            ) == tot_c,
        decreases radius as int + 1 - cy,
    {
        proof {
            crate::math::lemma_mul_le(cy as int, cy as int, 0x4000, 0x4000);
        }
        let sqy: i64 = cy as i64 * cy as i64;
        let mut cx: i32 = 0;
        while cx <= radius as i32
            invariant
                draw_frame(*old(c), *c),
                0 <= cx <= radius + 1,
                0 <= cy <= radius,
                sqy == cy as i64 * cy as i64,
                frr_fold(
                    t0,
                    c.store(),
                    p1c.x as int,
                    p1c.y as int,
                    p3c.x as int,
                    p3c.y as int,
                    radius as int,
                    cx as int,
                    cy as int,
                    color,
                ) == tot_c,
            decreases radius as int + 1 - cx,
        {
            proof {
                crate::math::lemma_mul_le(cx as int, cx as int, 0x4000, 0x4000);
            }
            let ghost s0 = c.store();
            let sqd: i64 = cx as i64 * cx as i64 + sqy;
            if sqd <= limit {
                plot(c, p1c.x - cx, p1c.y - cy, &color);
                plot(c, p3c.x + cx, p1c.y - cy, &color);
                plot(c, p1c.x - cx, p3c.y + cy, &color);
                plot(c, p3c.x + cx, p3c.y + cy, &color);
            }
            proof {
                assert(frr_fold(
                    t0,
                    c.store(),
                    p1c.x as int,
                    p1c.y as int,
                    p3c.x as int,
                    p3c.y as int,
                    radius as int,
                    cx + 1,
                    cy as int,
                    color,
                ) == frr_fold(
                    t0,
                    s0,
                    p1c.x as int,
                    p1c.y as int,
                    p3c.x as int,
                    p3c.y as int,
                    radius as int,
                    cx as int,
                    cy as int,
                    color,
                ));
            }
            cx = cx + 1;
        }
        proof {
            assert(frr_fold(
                t0,
                c.store(),
                p1c.x as int,
                p1c.y as int,
                p3c.x as int,
                p3c.y as int,
                radius as int,
                0,
                cy + 1,
                color,
            ) == frr_fold(
                t0,
                c.store(),
                p1c.x as int,
                p1c.y as int,
                p3c.x as int,
                p3c.y as int,
                radius as int,
                cx as int,
                cy as int,
                color,
            ));
        }
        cy = cy + 1;
    }
}

/// One cell of the antialiased filled rounded-corner scan: all four
/// corner reflections solid strictly inside the radius (a zero radius
/// keeps a one-cell solid corner), shaded across the outer band.
pub open spec fn frr_aa_cell<T: Drawable>(
    t: T,
    d: Seq<u8>,
    xc1: int,
    yc1: int,
    xc3: int,
    yc3: int,
    radius: int,
    x: int,
    y: int,
    color: Color,
) -> Seq<u8> {
    let rmin = if radius == 0 {
        1
    } else {
        radius * radius
    };
    let rmax = radius * radius + 2 * radius;
    let sqd = x * x + y * y;
    if sqd < rmin {
        let d1 = t.pix_write(d, xc1 - x, yc1 - y, color);
        let d2 = t.pix_write(d1, xc3 + x, yc1 - y, color);
        let d3 = t.pix_write(d2, xc1 - x, yc3 + y, color);
        t.pix_write(d3, xc3 + x, yc3 + y, color)
    } else if sqd < rmax {
        let cov = band_cov(rmax - sqd, radius);
        let d1 = t.pix_write_a(d, xc1 - x, yc1 - y, color, cov);
        let d2 = t.pix_write_a(d1, xc3 + x, yc1 - y, color, cov);
        let d3 = t.pix_write_a(d2, xc1 - x, yc3 + y, color, cov);
        t.pix_write_a(d3, xc3 + x, yc3 + y, color, cov)
    } else {
        d
    }
}

/// The store after the rest of the antialiased filled rounded-corner
/// scan.
pub open spec fn frr_aa_fold<T: Drawable>(
    t: T,
    d: Seq<u8>,
    xc1: int,
    yc1: int,
    xc3: int,
    yc3: int,
    radius: int,
    x: int,
    y: int,
    color: Color,
) -> Seq<u8>
    decreases radius + 1 - y, radius + 2 - x,
{
    if y > radius || y < 0 || x < 0 {
        d
    } else if x > radius {
        frr_aa_fold(t, d, xc1, yc1, xc3, yc3, radius, 0, y + 1, color)
    } else {
        frr_aa_fold(
            t,
            frr_aa_cell(t, d, xc1, yc1, xc3, yc3, radius, x, y, color),
            xc1,
            yc1,
            xc3,
            yc3,
            radius,
            x + 1,
            y,
            color,
        )
    }
}

/// The store an antialiased filled rounded-rectangle call leaves: the
/// interior block, the two cap bands, then the soft corner scan.
pub open spec fn fill_round_rect_aa_spec<T: Drawable>(
    t: T,
    d: Seq<u8>,
    rect: Rect,
    radius: u32,
    color: Color,
) -> Seq<u8> {
    let x1 = rect.x as int;
    let y1 = rect.y as int;
    let x3 = rect.x + rect.w - 1;
    let y3 = rect.y + rect.h - 1;
    let xc1 = x1 + radius;
    let yc1 = y1 + radius;
    let xc3 = x3 - radius;
    let yc3 = y3 - radius;
    frr_aa_fold(
        t,
        rr_bands_fold(
            t,
            fill_block_spec(t, d, yc1 + 1, yc3, x1, x3 + 1, color),
            xc1 + 1,
            xc3,
            y1,
            yc1 + 1,
            yc3,
            y3 + 1,
            color,
        ),
        xc1,
        yc1,
        xc3,
        yc3,
        radius as int,
        0,
        0,
        color,
    )
}

/// Draws a filled, antialiased rounded rectangle: solid interior with the
/// four corner boundaries softened by a coverage band — the store becomes
/// exactly the fold of those writes.
#[verifier::loop_isolation(false)]
pub fn fill_round_rect_aa<T: Drawable>(c: &mut T, rect: Rect, radius: u32, color: Color)
    requires
        old(c).inv(),
        color.wf(),
        rect.wf(),
        -0x4000_0000 <= rect.x,
        rect.x + rect.w <= 0x4000_0000,
        -0x4000_0000 <= rect.y,
        rect.y + rect.h <= 0x4000_0000,
        radius <= 0x4000,
    ensures
        draw_frame(*old(c), *final(c)),
        final(c).store() == fill_round_rect_aa_spec(*old(c), old(c).store(), rect, radius, color),
{
    let ghost t0 = *old(c);
    let ghost d0 = old(c).store();
    let p1 = rect.offset();
    let p3e = rect.offset_2();
    let p3 = Offset { x: p3e.x - 1, y: p3e.y - 1 };
    let p1c = Offset { x: p1.x + radius as i32, y: p1.y + radius as i32 };
    let p3c = Offset { x: p3.x - radius as i32, y: p3.y - radius as i32 };
    let ghost tot_i = fill_block_spec(
        t0,
        d0,
        p1c.y + 1,
        p3c.y as int,
        p1.x as int,
        p3.x + 1,
        color,
    );
    let mut y = p1c.y + 1;
    while y < p3c.y
        invariant
            draw_frame(*old(c), *c),
            p1c.y + 1 <= y,
            y <= p3c.y || y == p1c.y + 1,
            fill_block_spec(
                t0,
                c.store(),
                y as int,
                p3c.y as int,
                p1.x as int,
                p3.x + 1,
                color,
            ) == tot_i,
        decreases p3c.y - y,
    {
        let mut x = p1.x;
        while x <= p3.x
            invariant
                draw_frame(*old(c), *c),
                p1.x <= x,
                x <= p3.x + 1 || x == p1.x,
                p1c.y + 1 <= y < p3c.y,
                fill_block_spec(
                    t0,
                    fill_row_spec(t0, c.store(), y as int, x as int, p3.x + 1, color),
                    y + 1,
                    p3c.y as int,
                    p1.x as int,
                    p3.x + 1,
                    color,
                ) == tot_i,
            decreases p3.x + 1 - x,
        {
            let ghost s0 = c.store();
            plot(c, x, y, &color);
            proof {
                assert(fill_row_spec(t0, c.store(), y as int, x + 1, p3.x + 1, color)
                    == fill_row_spec(t0, s0, y as int, x as int, p3.x + 1, color));
            }
            x = x + 1;
        }
        y = y + 1;
    }
    let ghost tot_b = rr_bands_fold(
        t0,
        c.store(),
        p1c.x + 1,
        p3c.x as int,
        p1.y as int,
        p1c.y + 1,
        p3c.y as int,
        p3.y + 1,
        color,
    );
    let mut x = p1c.x + 1;
    while x < p3c.x
        invariant
            draw_frame(*old(c), *c),
            p1c.x + 1 <= x,
            x <= p3c.x || x == p1c.x + 1,
            rr_bands_fold(
                t0,
                c.store(),
                x as int,
                p3c.x as int,
                p1.y as int,
                p1c.y + 1,
                p3c.y as int,
                p3.y + 1,
                color,
            ) == tot_b,
        decreases p3c.x - x,
    {
        let mut y = p1.y;
        while y <= p1c.y
            invariant
                draw_frame(*old(c), *c),
                p1.y <= y,
                y <= p1c.y + 1 || y == p1.y,
                p1c.x + 1 <= x < p3c.x,
                rr_bands_fold(
                    t0,
                    fill_col_spec(
                        t0,
                        fill_col_spec(t0, c.store(), x as int, y as int, p1c.y + 1, color),
                        x as int,
                        p3c.y as int,
                        p3.y + 1,
                        color,
                    ),
                    x + 1,
                    p3c.x as int,
                    p1.y as int,
                    p1c.y + 1,
                    p3c.y as int,
                    p3.y + 1,
                    color,
                ) == tot_b,
            decreases p1c.y + 1 - y,
        {
            let ghost s0 = c.store();
            plot(c, x, y, &color);
            proof {
                assert(fill_col_spec(t0, c.store(), x as int, y + 1, p1c.y + 1, color)
                    == fill_col_spec(t0, s0, x as int, y as int, p1c.y + 1, color));
            }
            y = y + 1;
        }
        let mut y2 = p3c.y;
        while y2 <= p3.y
            invariant
                draw_frame(*old(c), *c),
                p3c.y <= y2,
                y2 <= p3.y + 1 || y2 == p3c.y,
                p1c.x + 1 <= x < p3c.x,
                rr_bands_fold(
                    t0,
                    fill_col_spec(t0, c.store(), x as int, y2 as int, p3.y + 1, color),
                    x + 1,
                    p3c.x as int,
                    p1.y as int,
                    p1c.y + 1,
                    p3c.y as int,
                    p3.y + 1,
                    color,
                ) == tot_b,
            decreases p3.y + 1 - y2,
        {
            let ghost s0 = c.store();
            plot(c, x, y2, &color);
            proof {
                assert(fill_col_spec(t0, c.store(), x as int, y2 + 1, p3.y + 1, color)
                    == fill_col_spec(t0, s0, x as int, y2 as int, p3.y + 1, color));
            }
            y2 = y2 + 1;
        }
        x = x + 1;
    }
    let ghost tot_c = frr_aa_fold(
        t0,
        c.store(),
        p1c.x as int,
        p1c.y as int,
        p3c.x as int,
        p3c.y as int,
        radius as int,
        0,
        0,
        color,
    );
    proof {
        assert(tot_c == fill_round_rect_aa_spec(t0, d0, rect, radius, color));
    }
    proof {
        crate::math::lemma_mul_le(radius as int, radius as int, 0x4000, 0x4000);
    }
    let rmin: i64 = if radius == 0 {
        1
    } else {
        radius as i64 * radius as i64
    };
    let rmax: i64 = radius as i64 * radius as i64 + 2 * radius as i64;
    let mut cy: i32 = 0;
    while cy <= radius as i32
        invariant
            draw_frame(*old(c), *c),
            0 <= cy <= radius + 1,
            frr_aa_fold(
                t0,
                c.store(),
                p1c.x as int,
                p1c.y as int,
                p3c.x as int,
                p3c.y as int,
                radius as int,
                0,
                cy as int,
                color,
            ) == tot_c,
        decreases radius as int + 1 - cy,
    {
        proof {
            crate::math::lemma_mul_le(cy as int, cy as int, 0x4000, 0x4000);
        }
        let sqy: i64 = cy as i64 * cy as i64;
        let mut cx: i32 = 0;
        while cx <= radius as i32
            invariant
                draw_frame(*old(c), *c),
                0 <= cx <= radius + 1,
                0 <= cy <= radius,
                sqy == cy as i64 * cy as i64,
                frr_aa_fold(
                    t0,
                    c.store(),
                    p1c.x as int,
                    p1c.y as int,
                    p3c.x as int,
                    p3c.y as int,
                    radius as int,
                    cx as int,
                    cy as int,
                    color,
                ) == tot_c,
            decreases radius as int + 1 - cx,
        {
            proof {
                crate::math::lemma_mul_le(cx as int, cx as int, 0x4000, 0x4000);
            }
            let ghost s0 = c.store();
            let sqd: i64 = cx as i64 * cx as i64 + sqy;
            if sqd < rmin {
                plot(c, p1c.x - cx, p1c.y - cy, &color);
                plot(c, p3c.x + cx, p1c.y - cy, &color);
                plot(c, p1c.x - cx, p3c.y + cy, &color);
                plot(c, p3c.x + cx, p3c.y + cy, &color);
            } else if sqd < rmax {
                let a = band_alpha(rmax - sqd, radius);
                let shade = color.set_a(a);
                let ghost s1 = c.store();
                plot(c, p1c.x - cx, p1c.y - cy, &shade);
                proof {
                    t0.lemma_pix_write_shade(s1, p1c.x - cx, p1c.y - cy, color, a as int, shade);
                }
                let ghost s2 = c.store();
                plot(c, p3c.x + cx, p1c.y - cy, &shade);
                proof {
                    t0.lemma_pix_write_shade(s2, p3c.x + cx, p1c.y - cy, color, a as int, shade);
                }
                let ghost s3 = c.store();
                plot(c, p1c.x - cx, p3c.y + cy, &shade);
                proof {
                    t0.lemma_pix_write_shade(s3, p1c.x - cx, p3c.y + cy, color, a as int, shade);
                }
                let ghost s4 = c.store();
                plot(c, p3c.x + cx, p3c.y + cy, &shade);
                proof {
                    t0.lemma_pix_write_shade(s4, p3c.x + cx, p3c.y + cy, color, a as int, shade);
                }
            }
            proof {
                assert(frr_aa_fold(
                    t0,
                    c.store(),
                    p1c.x as int,
                    p1c.y as int,
                    p3c.x as int,
                    p3c.y as int,
                    radius as int,
                    cx + 1,
                    cy as int,
                    color,
                ) == frr_aa_fold(
                    t0,
                    s0,
                    p1c.x as int,
                    p1c.y as int,
                    p3c.x as int,
                    p3c.y as int,
                    radius as int,
                    cx as int,
                    cy as int,
                    color,
                ));
            }
            cx = cx + 1;
        }
        proof {
            assert(frr_aa_fold(
                t0,
                c.store(),
                p1c.x as int,
                p1c.y as int,
                p3c.x as int,
                p3c.y as int,
                radius as int,
                0,
                cy + 1,
                color,
            ) == frr_aa_fold(
                t0,
                c.store(),
                p1c.x as int,
                p1c.y as int,
                p3c.x as int,
                p3c.y as int,
                radius as int,
                cx as int,
                cy as int,
                color,
            ));
        }
        cy = cy + 1;
    }
}

} // verus!
