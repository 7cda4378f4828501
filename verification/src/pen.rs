//! The outline extractor: a pen that turns a font engine's drawing
//! callbacks into a portable path, accumulating elements in call order.
//! No geometric sanity is checked here; a malformed callback sequence
//! yields a malformed path, which re-encoding later rejects.

use vstd::prelude::*;

use crate::path::{el_points, el_within, path_within, PathEl, Point};

verus! {

/// Magnitude bound on every coordinate a pen can record: pen input is
/// 32-bit, so every recorded coordinate fits in 32 bits.
pub open spec fn pen_coord_max() -> int {
    0x8000_0000
}

/// Accumulates move/line/quad/curve/close callbacks into a path.
pub struct PathPen {
    pub path: Vec<PathEl>,
}

impl PathPen {
    /// A pen holding an empty path.
    pub fn new() -> (r: PathPen)
        ensures
            r.path@ == Seq::<PathEl>::empty(),
    {
        PathPen { path: Vec::new() }
    }

    /// Every coordinate a pen ever records is 32-bit bounded.
    pub open spec fn wf(self) -> bool {
        path_within(self.path@, pen_coord_max())
    }

    pub fn move_to(&mut self, x: i32, y: i32)
        ensures
            final (self).path@ == old(self).path@.push(
                PathEl::MoveTo(Point { x: x as i64, y: y as i64 }),
            ),
            old(self).wf() ==> final (self).wf(),
    {
        let el = PathEl::MoveTo(Point { x: x as i64, y: y as i64 });
        self.path.push(el);
        proof {
            lemma_wf_push(old(self).path@, el);
        }
    }

    pub fn line_to(&mut self, x: i32, y: i32)
        ensures
            final (self).path@ == old(self).path@.push(
                PathEl::LineTo(Point { x: x as i64, y: y as i64 }),
            ),
            old(self).wf() ==> final (self).wf(),
    {
        let el = PathEl::LineTo(Point { x: x as i64, y: y as i64 });
        self.path.push(el);
        proof {
            lemma_wf_push(old(self).path@, el);
        }
    }

    pub fn quad_to(&mut self, cx: i32, cy: i32, x: i32, y: i32)
        ensures
            final (self).path@ == old(self).path@.push(
                PathEl::QuadTo(
                    Point { x: cx as i64, y: cy as i64 },
                    Point { x: x as i64, y: y as i64 },
                ),
            ),
            old(self).wf() ==> final (self).wf(),
    {
        let el = PathEl::QuadTo(
            Point { x: cx as i64, y: cy as i64 },
            Point { x: x as i64, y: y as i64 },
        );
        self.path.push(el);
        proof {
            lemma_wf_push(old(self).path@, el);
        }
    }

    pub fn curve_to(&mut self, cx0: i32, cy0: i32, cx1: i32, cy1: i32, x: i32, y: i32)
        ensures
            final (self).path@ == old(self).path@.push(
                PathEl::CurveTo(
                    Point { x: cx0 as i64, y: cy0 as i64 },
                    Point { x: cx1 as i64, y: cy1 as i64 },
                    Point { x: x as i64, y: y as i64 },
                ),
            ),
            old(self).wf() ==> final (self).wf(),
    {
        let el = PathEl::CurveTo(
            Point { x: cx0 as i64, y: cy0 as i64 },
            Point { x: cx1 as i64, y: cy1 as i64 },
            Point { x: x as i64, y: y as i64 },
        );
        self.path.push(el);
        proof {
            lemma_wf_push(old(self).path@, el);
        }
    }

    pub fn close(&mut self)
        ensures
            final (self).path@ == old(self).path@.push(PathEl::Close),
            old(self).wf() ==> final (self).wf(),
    {
        self.path.push(PathEl::Close);
        proof {
            lemma_wf_push(old(self).path@, PathEl::Close);
        }
    }

    /// Hand out the accumulated path, leaving the pen empty.
    pub fn take_path(&mut self) -> (r: Vec<PathEl>)
        ensures
            r@ == old(self).path@,
            final (self).path@ == Seq::<PathEl>::empty(),
    {
        let mut out: Vec<PathEl> = Vec::new();
        core::mem::swap(&mut out, &mut self.path);
        out
    }
}

/// A pushed element whose points are 32-bit bounded keeps the path bounded.
proof fn lemma_wf_push(path: Seq<PathEl>, el: PathEl)
    requires
        el_within(el, pen_coord_max()),
    ensures
        path_within(path, pen_coord_max()) ==> path_within(path.push(el), pen_coord_max()),
{
    if path_within(path, pen_coord_max()) {
        let s = path.push(el);
        assert forall|i: int| 0 <= i < s.len() implies el_within(
            #[trigger] s[i],
            pen_coord_max(),
        ) by {
            if i < path.len() {
                assert(s[i] == path[i]);
            } else {
                assert(s[i] == el);
            }
        }
    }
}

} // verus!
