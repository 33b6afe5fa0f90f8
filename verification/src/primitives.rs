//! Positioned drawing primitives.
//!
//! The layout engine hands the renderer a list of primitives with explicit
//! coordinates and style attributes; the bounding box reported alongside
//! them encloses every one of them.

use vstd::prelude::*;

use crate::helper::marker::Markers;

verus! {

/// A rectangle with corner rounding and style.
pub struct RectPrim {
    pub x: usize,
    pub y: usize,
    pub width: usize,
    pub height: usize,
    pub rx: usize,
    pub ry: usize,
    pub fill: &'static str,
    pub stroke: &'static str,
    pub stroke_width: usize,
}

/// A straight line segment, optionally ending in an arrowhead.
pub struct LinePrim {
    pub x1: usize,
    pub y1: usize,
    pub x2: usize,
    pub y2: usize,
    pub stroke: &'static str,
    pub stroke_width: usize,
    pub marker_end: Markers,
}

/// A piece of text anchored at a point.
pub struct TextPrim {
    pub x: usize,
    pub y: usize,
    pub content: String,
    pub font_size: usize,
    pub anchor_middle: bool,
    pub baseline_central: bool,
    pub fill: &'static str,
}

/// One positioned drawing primitive.
pub enum Prim {
    Rect(RectPrim),
    Line(LinePrim),
    Text(TextPrim),
}

/// The primitive lies within the box `[0, w] x [0, h]`.
pub open spec fn prim_in_box(p: Prim, w: int, h: int) -> bool {
    match p {
        Prim::Rect(r) => r.x + r.width <= w && r.y + r.height <= h,
        Prim::Line(l) => l.x1 <= w && l.x2 <= w && l.y1 <= h && l.y2 <= h,
        Prim::Text(t) => t.x <= w && t.y <= h,
    }
}

/// Every primitive of the list lies within the box.
pub open spec fn prims_in_box(ps: Seq<Prim>, w: int, h: int) -> bool {
    forall|i: int| 0 <= i < ps.len() ==> prim_in_box(#[trigger] ps[i], w, h)
}

/// A list that fits a box fits every larger box.
pub proof fn lemma_prims_in_larger_box(ps: Seq<Prim>, w1: int, h1: int, w2: int, h2: int)
    requires
        prims_in_box(ps, w1, h1),
        w1 <= w2,
        h1 <= h2,
    ensures
        prims_in_box(ps, w2, h2),
{
    assert forall|i: int| 0 <= i < ps.len() implies prim_in_box(#[trigger] ps[i], w2, h2) by {
        assert(prim_in_box(ps[i], w1, h1));
    }
}

/// Two lists that fit a box fit it together.
pub proof fn lemma_prims_in_box_concat(a: Seq<Prim>, b: Seq<Prim>, w: int, h: int)
    requires
        prims_in_box(a, w, h),
        prims_in_box(b, w, h),
    ensures
        prims_in_box(a + b, w, h),
{
    assert forall|i: int| 0 <= i < (a + b).len() implies prim_in_box(
        #[trigger] (a + b)[i],
        w,
        h,
    ) by {
        if i < a.len() {
            assert((a + b)[i] == a[i]);
        } else {
            assert((a + b)[i] == b[i - a.len()]);
        }
    }
}

} // verus!
