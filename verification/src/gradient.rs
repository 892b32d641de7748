//! Color gradients: an ordered list of color stops over the fixed-point
//! position range `[0, 65535]`, and a directional gradient that projects a
//! pixel position onto an axis given by a fixed-point direction vector.

use vstd::prelude::*;

verus! {

use crate::color::{lerp_ch, lemma_lerp_ch, scale_alpha, Rgba};
use crate::geom::Offset;
use crate::math::{div_floor, lemma_scale_le, rem_euclid_i64};

/// Stop positions never decrease along the list.
pub open spec fn sorted_pos(s: Seq<(u16, Rgba)>) -> bool {
    forall|a: int, b: int| 0 <= a < b < s.len() ==> (#[trigger] s[a]).0 <= (#[trigger] s[b]).0
}

/// A well-formed stop list: at least two stops, sorted by position, and
/// pinned to the two ends of the position range.
pub open spec fn steps_wf(s: Seq<(u16, Rgba)>) -> bool {
    &&& s.len() >= 2
    &&& sorted_pos(s)
    &&& s[0].0 == 0
    &&& s[s.len() - 1].0 == 0xffff
}

/// Linear interpolation of whole colors, channel by channel.
pub open spec fn rgba_lerp(a: Rgba, b: Rgba, t: int) -> Rgba {
    Rgba {
        r: lerp_ch(a.r as int, b.r as int, t) as u8,
        g: lerp_ch(a.g as int, b.g as int, t) as u8,
        b: lerp_ch(a.b as int, b.b as int, t) as u8,
        a: lerp_ch(a.a as int, b.a as int, t) as u8,
    }
}

/// A color with its alpha scaled by `a/255`, channels kept.
pub open spec fn rgba_set_a(c: Rgba, a: int) -> Rgba {
    Rgba { r: c.r, g: c.g, b: c.b, a: scale_alpha(c.a as int, a) as u8 }
}

/// The color of a stop list at position `p`: the color of the last stop
/// at or before `p` when `p` sits exactly on a stop (or past the end),
/// otherwise the linear interpolation between the two surrounding stops.
pub open spec fn grad_at(s: Seq<(u16, Rgba)>, p: int) -> Rgba
    decreases s.len(),
{
    if s.len() == 0 {
        Rgba { r: 0, g: 0, b: 0, a: 255 }
    } else if s.len() == 1 || p >= s[s.len() - 1].0 {
        s[s.len() - 1].1
    } else if p >= s[s.len() - 2].0 {
        let under = s[s.len() - 2];
        let over = s[s.len() - 1];
        rgba_lerp(under.1, over.1, (p - under.0) * 255 / (over.0 - under.0))
    } else {
        grad_at(s.drop_last(), p)
    }
}

/// `grad_at` in terms of the last stop index at or before `p`.
pub proof fn lemma_grad_at_idx(s: Seq<(u16, Rgba)>, p: int, i: int)
    requires
        sorted_pos(s),
        0 <= i < s.len(),
        s[i].0 <= p,
        i + 1 < s.len() ==> p < s[i + 1].0,
    ensures
        i == s.len() - 1 ==> grad_at(s, p) == s[i].1,
        i + 1 < s.len() ==> grad_at(s, p) == rgba_lerp(
            s[i].1,
            s[i + 1].1,
            (p - s[i].0) * 255 / (s[i + 1].0 - s[i].0),
        ),
    decreases s.len(),
{
    if i == s.len() - 1 {
    } else if i == s.len() - 2 {
    } else {
        let s2 = s.drop_last();
        assert(s[i + 1].0 <= s[s.len() - 2].0);
        lemma_grad_at_idx(s2, p, i);
    }
}

/// At the exact position of a stop, the gradient returns that stop's
/// color (the last stop when several share the position).
pub proof fn lemma_grad_at_stop(s: Seq<(u16, Rgba)>, i: int)
    requires
        steps_wf(s),
        0 <= i < s.len(),
        forall|j: int| i < j < s.len() ==> (#[trigger] s[j]).0 != s[i].0,
    ensures
        grad_at(s, s[i].0 as int) == s[i].1,
{
    let p = s[i].0 as int;
    if i + 1 < s.len() {
        assert(s[i + 1].0 > p);
        lemma_grad_at_idx(s, p, i);
        lemma_lerp_ch(s[i].1.r as int, s[i + 1].1.r as int, 0);
        lemma_lerp_ch(s[i].1.g as int, s[i + 1].1.g as int, 0);
        lemma_lerp_ch(s[i].1.b as int, s[i + 1].1.b as int, 0);
        lemma_lerp_ch(s[i].1.a as int, s[i + 1].1.a as int, 0);
        assert((p - s[i].0) * 255 / (s[i + 1].0 - s[i].0) == 0);
    } else {
        lemma_grad_at_idx(s, p, i);
    }
}

/// A two-stop gradient returns the first stop's color at position `0` and
/// the last stop's color at position `65535`, exactly.
pub proof fn lemma_grad_at_ends(s: Seq<(u16, Rgba)>)
    requires
        steps_wf(s),
        s.len() == 2,
    ensures
        grad_at(s, 0) == s[0].1,
        grad_at(s, 0xffff) == s[1].1,
{
    lemma_grad_at_stop(s, 0);
    lemma_grad_at_stop(s, 1);
}

/// The stable insertion position for a stop at position `p`: the first
/// index whose stop position exceeds `p`, so equal positions keep their
/// insertion order and the latest lands last.
pub open spec fn insert_pos(s: Seq<(u16, Rgba)>, p: u16) -> int
    decreases s.len(),
{
    if s.len() == 0 {
        0
    } else if s[0].0 <= p {
        1 + insert_pos(s.drop_first(), p)
    } else {
        0
    }
}

/// The stops sorted by position, stably: each input stop in turn is
/// inserted after every stop already placed at or before its position.
pub open spec fn sort_steps(s: Seq<(u16, Rgba)>) -> Seq<(u16, Rgba)>
    decreases s.len(),
{
    if s.len() == 0 {
        Seq::empty()
    } else {
        let prev = sort_steps(s.drop_last());
        prev.insert(insert_pos(prev, s.last().0), s.last())
    }
}

/// The normalized stop list a gradient is built from (two or more
/// stops): the stable sort of the inputs, extended with a synthesized
/// final stop carrying the last (nearest) color when position `65535` is
/// missing, and a synthesized first stop carrying the first (nearest)
/// color when position `0` is missing.
pub open spec fn normalize_steps(s: Seq<(u16, Rgba)>) -> Seq<(u16, Rgba)> {
    let sorted = sort_steps(s);
    let hi = if sorted.last().0 < 0xffff {
        sorted.push((0xffff, sorted.last().1))
    } else {
        sorted
    };
    if hi[0].0 != 0 {
        hi.insert(0, (0u16, hi[0].1))
    } else {
        hi
    }
}

/// A two-stop input that already spans both ends normalizes to itself,
/// so a gradient built from `[(0, c1), (65535, c2)]` returns `c1` at
/// position `0` and `c2` at position `65535` exactly.
pub proof fn lemma_normalize_two_stops(c1: Rgba, c2: Rgba)
    ensures
        normalize_steps(seq![(0u16, c1), (0xffffu16, c2)]) =~= seq![(0u16, c1), (0xffffu16, c2)],
        grad_at(normalize_steps(seq![(0u16, c1), (0xffffu16, c2)]), 0) == c1,
        grad_at(normalize_steps(seq![(0u16, c1), (0xffffu16, c2)]), 0xffff) == c2,
{
    let s = seq![(0u16, c1), (0xffffu16, c2)];
    let s1 = seq![(0u16, c1)];
    assert(s.drop_last() =~= s1);
    assert(s1.drop_last() =~= Seq::<(u16, Rgba)>::empty());
    assert(sort_steps(Seq::<(u16, Rgba)>::empty()) =~= Seq::<(u16, Rgba)>::empty());
    assert(insert_pos(Seq::<(u16, Rgba)>::empty(), 0) == 0);
    assert(insert_pos(Seq::<(u16, Rgba)>::empty(), 0xffff) == 0);
    assert(sort_steps(s1) =~= s1);
    assert(sort_steps(s1) == s1);
    assert(s1.drop_first() =~= Seq::<(u16, Rgba)>::empty());
    assert(s1.drop_first() == Seq::<(u16, Rgba)>::empty());
    assert(insert_pos(s1, 0xffff) == 1 + insert_pos(s1.drop_first(), 0xffff));
    assert(insert_pos(s1, 0xffff) == 1);
    assert(sort_steps(s) =~= s);
    assert(sort_steps(s) == s);
    assert(normalize_steps(s) == s);
    assert(steps_wf(s));
    lemma_grad_at_ends(s);
}

/// `insert_pos` is characterized by its two sides: everything before it
/// sits at or before `p`, and the stop at it (if any) sits after.
proof fn lemma_insert_pos(s: Seq<(u16, Rgba)>, p: u16, k: int)
    requires
        0 <= k <= s.len(),
        forall|j: int| 0 <= j < k ==> (#[trigger] s[j]).0 <= p,
        k < s.len() ==> s[k].0 > p,
    ensures
        insert_pos(s, p) == k,
    decreases s.len(),
{
    if k > 0 {
        assert(s[0].0 <= p);
        lemma_insert_pos(s.drop_first(), p, k - 1);
    }
}

/// What one stable insertion step guarantees: sortedness is kept, the
/// insertion lands at `insert_pos`, and membership transfers both ways.
proof fn lemma_insert_step(s0: Seq<(u16, Rgba)>, x: (u16, Rgba), k: int)
    requires
        sorted_pos(s0),
        0 <= k <= s0.len(),
        forall|j: int| 0 <= j < k ==> (#[trigger] s0[j]).0 <= x.0,
        k < s0.len() ==> s0[k].0 > x.0,
    ensures
        sorted_pos(s0.insert(k, x)),
        insert_pos(s0, x.0) == k,
        s0.insert(k, x).len() == s0.len() + 1,
        s0.insert(k, x).contains(x),
        forall|e: (u16, Rgba)| s0.contains(e) ==> #[trigger] s0.insert(k, x).contains(e),
        forall|j: int|
            0 <= j < s0.insert(k, x).len() ==> s0.contains(#[trigger] s0.insert(k, x)[j])
                || s0.insert(k, x)[j] == x,
{
    let s1 = s0.insert(k, x);
    s0.insert_ensures(k, x);
    lemma_insert_pos(s0, x.0, k);
    assert forall|a: int, b: int|
        0 <= a < b < s1.len() implies (#[trigger] s1[a]).0 <= (#[trigger] s1[b]).0 by {
        if a < k && b < k {
            assert(s1[a] == s0[a] && s1[b] == s0[b]);
        } else if a < k && b == k {
            assert(s1[a] == s0[a]);
        } else if a < k && b > k {
            assert(s1[a] == s0[a] && s1[b] == s0[b - 1]);
            if b - 1 >= k {
                if k < s0.len() {
                    assert(s0[k].0 > x.0);
                }
            }
        } else if a == k {
            assert(s1[b] == s0[b - 1]);
            assert(s0[k].0 > x.0);
            if b - 1 > k {
                assert(s0[k].0 <= s0[b - 1].0);
            }
        } else {
            assert(s1[a] == s0[a - 1] && s1[b] == s0[b - 1]);
        }
    }
    assert forall|e: (u16, Rgba)| s0.contains(e) implies #[trigger] s1.contains(e) by {
        let w = choose|w: int| 0 <= w < s0.len() && s0[w] == e;
        if w < k {
            assert(s1[w] == e);
        } else {
            assert(s1[w + 1] == e);
        }
    }
    assert(s1[k] == x);
    assert forall|j: int|
        0 <= j < s1.len() implies s0.contains(#[trigger] s1[j]) || s1[j] == x by {
        if j < k {
            assert(s1[j] == s0[j]);
        } else if j > k {
            assert(s1[j] == s0[j - 1]);
        }
    }
}

/// For a sorted list, `insert_pos` lands within bounds, after every stop
/// at or before `p` and before every stop after `p`.
proof fn lemma_insert_pos_props(s: Seq<(u16, Rgba)>, p: u16)
    requires
        sorted_pos(s),
    ensures
        0 <= insert_pos(s, p) <= s.len(),
        forall|j: int| 0 <= j < insert_pos(s, p) ==> (#[trigger] s[j]).0 <= p,
        insert_pos(s, p) < s.len() ==> s[insert_pos(s, p)].0 > p,
    decreases s.len(),
{
    if s.len() > 0 && s[0].0 <= p {
        let s2 = s.drop_first();
        assert(forall|a: int, b: int|
            0 <= a < b < s2.len() ==> (#[trigger] s2[a]).0 <= (#[trigger] s2[b]).0) by {
            assert(forall|a: int| 0 <= a < s2.len() ==> s2[a] == s[a + 1]);
        }
        lemma_insert_pos_props(s2, p);
        assert forall|j: int| 0 <= j < insert_pos(s, p) implies (#[trigger] s[j]).0 <= p by {
            if j > 0 {
                assert(s[j] == s2[j - 1]);
            }
        }
        if insert_pos(s, p) < s.len() {
            assert(s[insert_pos(s, p)] == s2[insert_pos(s2, p)]);
        }
    }
}

/// The stable sort keeps the length, sorts the stops, and preserves
/// membership in both directions.
proof fn lemma_sort_steps_props(s: Seq<(u16, Rgba)>)
    ensures
        sort_steps(s).len() == s.len(),
        sorted_pos(sort_steps(s)),
        forall|i: int| 0 <= i < s.len() ==> sort_steps(s).contains(#[trigger] s[i]),
        forall|j: int| 0 <= j < sort_steps(s).len() ==> s.contains(#[trigger] sort_steps(s)[j]),
    decreases s.len(),
{
    if s.len() > 0 {
        let rest = s.drop_last();
        let x = s.last();
        lemma_sort_steps_props(rest);
        let prev = sort_steps(rest);
        lemma_insert_pos_props(prev, x.0);
        let k = insert_pos(prev, x.0);
        lemma_insert_step(prev, x, k);
        let out = prev.insert(k, x);
        assert(sort_steps(s) == out);
        assert forall|i: int| 0 <= i < s.len() implies sort_steps(s).contains(
            #[trigger] s[i],
        ) by {
            if i < s.len() - 1 {
                assert(rest[i] == s[i]);
                assert(prev.contains(s[i]));
            } else {
                assert(out.contains(x));
            }
        }
        assert forall|j: int| 0 <= j < sort_steps(s).len() implies s.contains(
            #[trigger] sort_steps(s)[j],
        ) by {
            if out[j] == x {
                assert(s[s.len() - 1] == out[j]);
            } else {
                assert(prev.contains(out[j]));
                let w = choose|w: int| 0 <= w < rest.len() && rest[w] == out[j];
                assert(s[w] == out[j]);
            }
        }
    }
}

/// The normalized stop list is well-formed and preserves membership: it
/// keeps every input stop, and holds nothing beyond the inputs and the
/// two synthesized endpoints.
proof fn lemma_normalize_props(colors: Seq<(u16, Rgba)>)
    requires
        colors.len() >= 1,
    ensures
        normalize_steps(colors).len() >= colors.len(),
        sorted_pos(normalize_steps(colors)),
        normalize_steps(colors)[0].0 == 0,
        normalize_steps(colors).last().0 == 0xffff,
        forall|i: int| 0 <= i < colors.len() ==> normalize_steps(colors).contains(
            #[trigger] colors[i],
        ),
        forall|j: int|
            0 <= j < normalize_steps(colors).len() ==> colors.contains(
                #[trigger] normalize_steps(colors)[j],
            ) || normalize_steps(colors)[j].0 == 0 || normalize_steps(colors)[j].0 == 0xffff,
{
    lemma_sort_steps_props(colors);
    let sorted = sort_steps(colors);
    let hi = if sorted.last().0 < 0xffff {
        sorted.push((0xffffu16, sorted.last().1))
    } else {
        sorted
    };
    assert(sorted.contains(sorted.last())) by {
        assert(sorted[sorted.len() - 1] == sorted.last());
    }
    assert forall|a: int, b: int|
        0 <= a < b < hi.len() implies (#[trigger] hi[a]).0 <= (#[trigger] hi[b]).0 by {
        if b < sorted.len() {
            assert(hi[a] == sorted[a] && hi[b] == sorted[b]);
        } else if hi.len() > sorted.len() {
            assert(hi[a] == sorted[a]);
            assert(hi[b].0 == 0xffff);
        }
    }
    assert forall|e: (u16, Rgba)| sorted.contains(e) implies #[trigger] hi.contains(e) by {
        let w = choose|w: int| 0 <= w < sorted.len() && sorted[w] == e;
        assert(hi[w] == e);
    }
    assert forall|j: int|
        0 <= j < hi.len() implies colors.contains(#[trigger] hi[j]) || hi[j].0 == 0xffff by {
        if j < sorted.len() {
            assert(hi[j] == sorted[j]);
        }
    }
    assert(hi.last().0 == 0xffff);
    assert(hi[0].0 == sorted[0].0);
    let fin = if hi[0].0 != 0 {
        hi.insert(0, (0u16, hi[0].1))
    } else {
        hi
    };
    if hi[0].0 != 0 {
        hi.insert_ensures(0, (0u16, hi[0].1));
        assert forall|a: int, b: int|
            0 <= a < b < fin.len() implies (#[trigger] fin[a]).0 <= (#[trigger] fin[b]).0 by {
            if a > 0 {
                assert(fin[a] == hi[a - 1] && fin[b] == hi[b - 1]);
            } else {
                assert(fin[b] == hi[b - 1]);
                assert(fin[a].0 == 0);
            }
        }
        assert(fin.last() == hi.last());
        assert forall|e: (u16, Rgba)| hi.contains(e) implies #[trigger] fin.contains(e) by {
            let w = choose|w: int| 0 <= w < hi.len() && hi[w] == e;
            assert(fin[w + 1] == e);
        }
        assert forall|j: int|
            0 <= j < fin.len() implies colors.contains(#[trigger] fin[j]) || fin[j].0 == 0
                || fin[j].0 == 0xffff by {
            if j > 0 {
                assert(fin[j] == hi[j - 1]);
            }
        }
    }
    assert(fin == normalize_steps(colors));
}

/// An ordered list of color stops plus the repeat policy: positions in
/// `[0, 65535]` fixed point, insertion order matching sorted order.
#[derive(Clone)]
pub struct GradientBase {
    pub steps: Vec<(u16, Rgba)>,
    pub repeating: bool,
}

impl GradientBase {
    /// The stop-list invariant every constructor establishes.
    pub open spec fn wf(&self) -> bool {
        steps_wf(self.steps@)
    }

    /// Builds a stop list: stops are sorted by position (stable for equal
    /// positions), and both end positions are synthesized from the nearest
    /// stop when missing. No stops at all yield constant opaque black; a
    /// single stop yields that color everywhere.
    #[verifier::rlimit(100)]
    pub fn new(colors: &[(u16, Rgba)], repeating: bool) -> (r: GradientBase)
        ensures
            r.wf(),
            r.repeating == repeating,
            colors@.len() == 0 ==> r.steps@ =~= seq![
                (0u16, Rgba { r: 0, g: 0, b: 0, a: 255 }),
                (0xffffu16, Rgba { r: 0, g: 0, b: 0, a: 255 }),
            ],
            colors@.len() == 1 ==> r.steps@ =~= seq![
                (0u16, colors@[0].1),
                (0xffffu16, colors@[0].1),
            ],
            colors@.len() >= 2 ==> r.steps@ == normalize_steps(colors@),
            colors@.len() >= 2 ==> forall|i: int|
                0 <= i < colors@.len() ==> r.steps@.contains(#[trigger] colors@[i]),
            colors@.len() >= 2 ==> forall|j: int|
                0 <= j < r.steps@.len() ==> colors@.contains(#[trigger] r.steps@[j])
                    || r.steps@[j].0 == 0 || r.steps@[j].0 == 0xffff,
    {
        let black = Rgba { r: 0, g: 0, b: 0, a: 255 };
        if colors.len() == 0 {
            let mut v: Vec<(u16, Rgba)> = Vec::new();
            v.push((0, black));
            v.push((0xffff, black));
            return GradientBase { steps: v, repeating };
        }
        if colors.len() == 1 {
            let c = colors[0].1;
            let mut v: Vec<(u16, Rgba)> = Vec::new();
            v.push((0, c));
            v.push((0xffff, c));
            return GradientBase { steps: v, repeating };
        }
        let mut steps: Vec<(u16, Rgba)> = Vec::new();
        let mut idx: usize = 0;
        while idx < colors.len()
            invariant
                colors@.len() >= 2,
                idx <= colors@.len(),
                steps@.len() == idx,
                sorted_pos(steps@),
                steps@ == sort_steps(colors@.subrange(0, idx as int)),
            decreases colors@.len() - idx,
        {
            let x = colors[idx];
            let mut k: usize = 0;
            while k < steps.len() && steps[k].0 <= x.0
                invariant
                    k <= steps@.len(),
                    forall|j: int| 0 <= j < k ==> (#[trigger] steps@[j]).0 <= x.0,
                decreases steps@.len() - k,
            {
                k = k + 1;
            }
            let ghost s0 = steps@;
            steps.insert(k, x);
            proof {
                lemma_insert_step(s0, x, k as int);
                assert(colors@.subrange(0, idx + 1).drop_last() =~= colors@.subrange(
                    0,
                    idx as int,
                ));
                assert(colors@.subrange(0, idx + 1).last() == colors@[idx as int]);
                assert(steps@ == sort_steps(colors@.subrange(0, idx + 1)));
            }
            idx = idx + 1;
        }
        proof {
            assert(colors@.subrange(0, colors@.len() as int) =~= colors@);
        }
        let last = steps[steps.len() - 1];
        if last.0 < 0xffff {
            steps.push((0xffff, last.1));
        }
        let first = steps[0];
        if first.0 != 0 {
            steps.insert(0, (0, first.1));
        }
        proof {
            assert(steps@ == normalize_steps(colors@));
            lemma_normalize_props(colors@);
            assert(steps@.last() == steps@[steps@.len() - 1]);
        }
        GradientBase { steps, repeating }
    }

    /// Looks the gradient up at a fixed-point position.
    pub fn get(&self, p: u16) -> (r: Rgba)
        requires
            self.wf(),
        ensures
            r == grad_at(self.steps@, p as int),
    {
        let mut i: usize = self.steps.len() - 1;
        while self.steps[i].0 > p
            invariant
                self.wf(),
                0 <= i < self.steps@.len(),
                forall|j: int| i < j < self.steps@.len() ==> p < (#[trigger] self.steps@[j]).0,
            decreases i,
        {
            assert(self.steps@[0].0 == 0);
            i = i - 1;
        }
        proof {
            lemma_grad_at_idx(self.steps@, p as int, i as int);
        }
        if i == self.steps.len() - 1 {
            self.steps[i].1
        } else {
            let under = self.steps[i];
            let over = self.steps[i + 1];
            let t32: u32 = (p - under.0) as u32 * 255 / (over.0 - under.0) as u32;
            proof {
                lemma_scale_le(255, (p - under.0) as int, (over.0 - under.0) as int);
                assert((p - under.0) as int * 255 == 255 * ((p - under.0) as int));
            }
            let t = t32 as u8;
            let out = under.1.lerp(over.1, t);
            proof {
                lemma_lerp_ch(under.1.r as int, over.1.r as int, t as int);
                lemma_lerp_ch(under.1.g as int, over.1.g as int, t as int);
                lemma_lerp_ch(under.1.b as int, over.1.b as int, t as int);
                lemma_lerp_ch(under.1.a as int, over.1.a as int, t as int);
            }
            out
        }
    }

    /// A copy with every stop's alpha scaled by `a/255`.
    pub fn set_a(&self, a: u8) -> (r: GradientBase)
        requires
            self.wf(),
        ensures
            r.wf(),
            r.repeating == self.repeating,
            r.steps@.len() == self.steps@.len(),
            forall|i: int| 0 <= i < self.steps@.len() ==> (#[trigger] r.steps@[i]) == (
            self.steps@[i].0, rgba_set_a(self.steps@[i].1, a as int)),
    {
        let mut out: Vec<(u16, Rgba)> = Vec::new();
        let mut i: usize = 0;
        while i < self.steps.len()
            invariant
                self.wf(),
                i <= self.steps@.len(),
                out@.len() == i,
                forall|j: int| 0 <= j < i ==> (#[trigger] out@[j]) == (
                self.steps@[j].0, rgba_set_a(self.steps@[j].1, a as int)),
            decreases self.steps@.len() - i,
        {
            let (pos, c) = self.steps[i];
            let c2 = c.set_a(a);
            proof {
                lemma_scale_le(c.a as int, a as int, 255);
            }
            out.push((pos, c2));
            i = i + 1;
        }
        GradientBase { steps: out, repeating: self.repeating }
    }
}

/// A gradient evaluated along a direction: the stop list plus a
/// fixed-point direction vector (cosine and sine in `1/65536` units), the
/// pixel span of the full position range, and the origin pixel.
#[derive(Clone)]
pub struct DirectionalGradient {
    pub base: GradientBase,
    pub dir_x: i32,
    pub dir_y: i32,
    pub scale: i32,
    pub offset: Offset,
}

/// The fixed-point stop position a pixel projects to: the signed distance
/// along the direction axis in `1/65536` pixel units, divided by the span,
/// then wrapped (repeating) or clamped (not) into `[0, 65535]`.
pub open spec fn dg_pos(g: DirectionalGradient, pos: Offset) -> int {
    let proj = (pos.x - g.offset.x) * g.dir_x - (pos.y - g.offset.y) * g.dir_y;
    let v = proj / (g.scale as int);
    let w = if g.repeating() {
        v % 65536
    } else if v < 0 {
        0
    } else if v > 65536 {
        65536
    } else {
        v
    };
    w * 65535 / 65536
}

impl DirectionalGradient {
    /// The direction vector components fit the fixed-point unit range and
    /// the span is at least one pixel.
    pub open spec fn wf(&self) -> bool {
        &&& self.base.wf()
        &&& 1 <= self.scale
        &&& -65536 <= self.dir_x <= 65536
        &&& -65536 <= self.dir_y <= 65536
    }

    pub open spec fn repeating(&self) -> bool {
        self.base.repeating
    }

    /// Builds a directional gradient from stops, repeat policy, direction
    /// vector, span and origin. The stop list is normalized as
    /// [`GradientBase::new`] describes.
    pub fn new(
        colors: &[(u16, Rgba)],
        repeating: bool,
        dir_x: i32,
        dir_y: i32,
        scale: i32,
        offset: Offset,
    ) -> (r: Self)
        requires
            1 <= scale,
            -65536 <= dir_x <= 65536,
            -65536 <= dir_y <= 65536,
        ensures
            r.wf(),
            r.repeating() == repeating,
            r.dir_x == dir_x,
            r.dir_y == dir_y,
            r.scale == scale,
            r.offset == offset,
            colors@.len() >= 2 ==> forall|i: int|
                0 <= i < colors@.len() ==> r.base.steps@.contains(#[trigger] colors@[i]),
    {
        DirectionalGradient {
            base: GradientBase::new(colors, repeating),
            dir_x,
            dir_y,
            scale,
            offset,
        }
    }

    /// Samples the gradient at an absolute pixel position.
    pub fn get(&self, pos: Offset) -> (r: Rgba)
        requires
            self.wf(),
        ensures
            r == grad_at(self.base.steps@, dg_pos(*self, pos)),
    {
        let dx: i64 = pos.x as i64 - self.offset.x as i64;
        let dy: i64 = pos.y as i64 - self.offset.y as i64;
        proof {
            assert(-0x1000_0000_0000_0000 <= dx as int * self.dir_x as int <= 0x1000_0000_0000_0000
                && -0x1000_0000_0000_0000 <= dy as int * self.dir_y as int
                <= 0x1000_0000_0000_0000) by (nonlinear_arith)
                requires
                    -0x1_0000_0000 <= dx as int <= 0x1_0000_0000,
                    -0x1_0000_0000 <= dy as int <= 0x1_0000_0000,
                    -65536 <= self.dir_x as int <= 65536,
                    -65536 <= self.dir_y as int <= 65536;
        }
        let proj: i64 = dx * self.dir_x as i64 - dy * self.dir_y as i64;
        let v: i64 = div_floor(proj, self.scale as i64);
        let w: i64 = if self.base.repeating {
            rem_euclid_i64(v, 65536)
        } else if v < 0 {
            0
        } else if v > 65536 {
            65536
        } else {
            v
        };
        proof {
            crate::math::lemma_scale_le(65535, w as int, 65536);
            assert(w as int * 65535 == 65535 * (w as int));
        }
        let p: u16 = (w * 65535 / 65536) as u16;
        self.base.get(p)
    }

    /// A copy with every stop's alpha scaled by `a/255`.
    pub fn set_a(&self, a: u8) -> (r: Self)
        requires
            self.wf(),
        ensures
            r.wf(),
            r.repeating() == self.repeating(),
            r.dir_x == self.dir_x,
            r.dir_y == self.dir_y,
            r.scale == self.scale,
            r.offset == self.offset,
            r.base.steps@.len() == self.base.steps@.len(),
            forall|i: int| 0 <= i < self.base.steps@.len() ==> (#[trigger] r.base.steps@[i]) == (
            self.base.steps@[i].0, rgba_set_a(self.base.steps@[i].1, a as int)),
    {
        DirectionalGradient {
            base: self.base.set_a(a),
            dir_x: self.dir_x,
            dir_y: self.dir_y,
            scale: self.scale,
            offset: self.offset,
        }
    }
}

} // verus!
