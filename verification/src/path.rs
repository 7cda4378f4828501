//! The portable outline model: a path is an ordered sequence of drawing
//! elements with integer coordinates in the owning font's design units.

use vstd::prelude::*;

verus! {

/// A point in font design units.
#[derive(Clone, Copy, Debug, PartialEq, Eq, Structural)]
pub struct Point {
    pub x: i64,
    pub y: i64,
}

/// One element of a path. A path may hold several disjoint subpaths
/// (contours), each opened by `MoveTo` and usually ended by `Close`.
#[derive(Clone, Copy, Debug, PartialEq, Eq, Structural)]
pub enum PathEl {
    MoveTo(Point),
    LineTo(Point),
    QuadTo(Point, Point),
    CurveTo(Point, Point, Point),
    Close,
}

/// An axis-aligned bounding rectangle; `x0`/`y0` is the lower-left corner,
/// `x1`/`y1` the upper-right one.
#[derive(Clone, Copy, Debug, PartialEq, Eq, Structural)]
pub struct BBox {
    pub x0: i64,
    pub y0: i64,
    pub x1: i64,
    pub y1: i64,
}

pub open spec fn min64(a: i64, b: i64) -> i64 {
    if a <= b {
        a
    } else {
        b
    }
}

pub open spec fn max64(a: i64, b: i64) -> i64 {
    if a >= b {
        a
    } else {
        b
    }
}

/// The points an element mentions, control points included.
pub open spec fn el_points(el: PathEl) -> Seq<Point> {
    match el {
        PathEl::MoveTo(p) => seq![p],
        PathEl::LineTo(p) => seq![p],
        PathEl::QuadTo(c, p) => seq![c, p],
        PathEl::CurveTo(c1, c2, p) => seq![c1, c2, p],
        PathEl::Close => seq![],
    }
}

/// All points of a path, in order, control points included.
pub open spec fn path_points(path: Seq<PathEl>) -> Seq<Point>
    decreases path.len(),
{
    if path.len() == 0 {
        Seq::empty()
    } else {
        path_points(path.drop_last()) + el_points(path.last())
    }
}

pub proof fn lemma_path_points_push(s: Seq<PathEl>, e: PathEl)
    ensures
        path_points(s.push(e)) == path_points(s) + el_points(e),
{
    assert(s.push(e).drop_last() =~= s);
}

pub proof fn lemma_path_points_concat(a: Seq<PathEl>, b: Seq<PathEl>)
    ensures
        path_points(a + b) == path_points(a) + path_points(b),
    decreases b.len(),
{
    if b.len() == 0 {
        assert(a + b =~= a);
        assert(path_points(a) + path_points(b) =~= path_points(a));
    } else {
        lemma_path_points_concat(a, b.drop_last());
        assert((a + b).drop_last() =~= a + b.drop_last());
        assert((a + b).last() == b.last());
        assert(path_points(a + b) =~= path_points(a) + path_points(b));
    }
}

/// Merge a point into a bounding box.
pub open spec fn bbox_join_pt(b: BBox, p: Point) -> BBox {
    BBox {
        x0: min64(b.x0, p.x),
        y0: min64(b.y0, p.y),
        x1: max64(b.x1, p.x),
        y1: max64(b.y1, p.y),
    }
}

pub open spec fn bbox_merge_pt(b: Option<BBox>, p: Point) -> Option<BBox> {
    match b {
        None => Some(BBox { x0: p.x, y0: p.y, x1: p.x, y1: p.y }),
        Some(b) => Some(bbox_join_pt(b, p)),
    }
}

/// Tight bounding box of a set of points, in order of merging.
pub open spec fn bbox_of_pts(pts: Seq<Point>) -> Option<BBox>
    decreases pts.len(),
{
    if pts.len() == 0 {
        None
    } else {
        bbox_merge_pt(bbox_of_pts(pts.drop_last()), pts.last())
    }
}

/// Tight bounding box of a path's points, control points included;
/// `None` for a path with no points.
pub open spec fn path_bbox(path: Seq<PathEl>) -> Option<BBox> {
    bbox_of_pts(path_points(path))
}

/// A bounding box never has negative extent.
pub proof fn lemma_bbox_wf(pts: Seq<Point>)
    ensures
        bbox_of_pts(pts) is Some ==> {
            let b = bbox_of_pts(pts)->Some_0;
            b.x0 <= b.x1 && b.y0 <= b.y1
        },
    decreases pts.len(),
{
    if pts.len() > 0 {
        lemma_bbox_wf(pts.drop_last());
    }
}

/// Merging more points only grows the box.
pub proof fn lemma_bbox_grows(a: Seq<Point>, b: Seq<Point>)
    ensures
        bbox_of_pts(a) is Some ==> {
            let ba = bbox_of_pts(a)->Some_0;
            let bab = bbox_of_pts(a + b)->Some_0;
            bbox_of_pts(a + b) is Some && bab.x0 <= ba.x0 && bab.y0 <= ba.y0 && ba.x1 <= bab.x1
                && ba.y1 <= bab.y1
        },
    decreases b.len(),
{
    if b.len() == 0 {
        assert(a + b =~= a);
    } else {
        lemma_bbox_grows(a, b.drop_last());
        assert((a + b).drop_last() =~= a + b.drop_last());
    }
}

/// The box of a point set bounds every point of it.
pub proof fn lemma_bbox_of_pts_contains(pts: Seq<Point>, i: int)
    requires
        0 <= i < pts.len(),
    ensures
        bbox_of_pts(pts) is Some,
        ({
            let b = bbox_of_pts(pts)->Some_0;
            &&& b.x0 as int <= pts[i].x as int <= b.x1 as int
            &&& b.y0 as int <= pts[i].y as int <= b.y1 as int
        }),
    decreases pts.len(),
{
    if i < pts.len() - 1 {
        lemma_bbox_of_pts_contains(pts.drop_last(), i);
        assert(pts.drop_last()[i] == pts[i]);
    }
}

/// Area of a bounding box; zero when the path had no points.
pub open spec fn bbox_area(b: Option<BBox>) -> int {
    match b {
        None => 0,
        Some(b) => (b.x1 - b.x0) * (b.y1 - b.y0),
    }
}

/// Appending elements to a path never shrinks its bounding-box area:
/// annotation only adds geometry.
pub proof fn lemma_area_grows_on_append(base: Seq<PathEl>, added: Seq<PathEl>)
    ensures
        bbox_area(path_bbox(base + added)) >= bbox_area(path_bbox(base)),
{
    lemma_path_points_concat(base, added);
    let pa = path_points(base);
    let pb = path_points(added);
    lemma_bbox_wf(pa);
    lemma_bbox_wf(pa + pb);
    lemma_bbox_grows(pa, pb);
    match bbox_of_pts(pa) {
        None => {
            lemma_bbox_wf(pa + pb);
            match bbox_of_pts(pa + pb) {
                None => {
                },
                Some(b) => {
                    assert((b.x1 - b.x0) * (b.y1 - b.y0) >= 0) by (nonlinear_arith)
                        requires
                            b.x0 <= b.x1,
                            b.y0 <= b.y1,
                    ;
                },
            }
        },
        Some(ba) => {
            let bab = bbox_of_pts(pa + pb)->Some_0;
            assert((bab.x1 - bab.x0) * (bab.y1 - bab.y0) >= (ba.x1 - ba.x0) * (ba.y1 - ba.y0))
                by (nonlinear_arith)
                requires
                    ba.x0 <= ba.x1,
                    ba.y0 <= ba.y1,
                    bab.x0 <= ba.x0,
                    bab.y0 <= ba.y0,
                    ba.x1 <= bab.x1,
                    ba.y1 <= bab.y1,
            ;
        },
    }
}

/// Every coordinate of `p` has magnitude at most `m`.
pub open spec fn pt_within(p: Point, m: int) -> bool {
    -m <= p.x <= m && -m <= p.y <= m
}

pub open spec fn el_within(el: PathEl, m: int) -> bool {
    forall|i: int| 0 <= i < el_points(el).len() ==> pt_within(#[trigger] el_points(el)[i], m)
}

/// Every coordinate of every point of the path has magnitude at most `m`.
pub open spec fn path_within(path: Seq<PathEl>, m: int) -> bool {
    forall|i: int| 0 <= i < path.len() ==> el_within(#[trigger] path[i], m)
}

pub proof fn lemma_path_within_points(path: Seq<PathEl>, m: int)
    requires
        path_within(path, m),
    ensures
        forall|i: int|
            0 <= i < path_points(path).len() ==> pt_within(#[trigger] path_points(path)[i], m),
    decreases path.len(),
{
    if path.len() > 0 {
        let pre = path.drop_last();
        assert forall|j: int| 0 <= j < pre.len() implies el_within(#[trigger] pre[j], m) by {
            assert(pre[j] == path[j]);
        }
        lemma_path_within_points(pre, m);
        assert(el_within(path[path.len() - 1], m));
        let prepts = path_points(pre);
        let lastpts = el_points(path.last());
        assert forall|i: int| 0 <= i < path_points(path).len() implies pt_within(
            #[trigger] path_points(path)[i],
            m,
        ) by {
            if i < prepts.len() {
                assert(path_points(path)[i] == prepts[i]);
            } else {
                assert(path_points(path)[i] == lastpts[i - prepts.len()]);
            }
        }
    }
}

/// A bounding box's corners are coordinates of path points, so they obey
/// the same magnitude bound.
pub proof fn lemma_bbox_within(pts: Seq<Point>, m: int)
    requires
        forall|i: int| 0 <= i < pts.len() ==> pt_within(#[trigger] pts[i], m),
    ensures
        bbox_of_pts(pts) is Some ==> {
            let b = bbox_of_pts(pts)->Some_0;
            -m <= b.x0 <= m && -m <= b.y0 <= m && -m <= b.x1 <= m && -m <= b.y1 <= m
        },
    decreases pts.len(),
{
    if pts.len() > 0 {
        lemma_bbox_within(pts.drop_last(), m);
    }
}

/// Exact bounding box of a path, control points included; `None` when the
/// path mentions no point at all (it may still hold `Close` elements).
pub fn bbox(path: &Vec<PathEl>) -> (r: Option<BBox>)
    ensures
        r == path_bbox(path@),
{
    let mut acc: Option<BBox> = None;
    let mut i: usize = 0;
    proof {
        assert(path@.take(0int) =~= Seq::<PathEl>::empty());
    }
    while i < path.len()
        invariant
            0 <= i <= path.len(),
            acc == bbox_of_pts(path_points(path@.take(i as int))),
        decreases path.len() - i,
    {
        let el = path[i];
        let ghost pts_before = path_points(path@.take(i as int));
        match el {
            PathEl::MoveTo(p) => {
                acc = merge_pt(acc, p);
            },
            PathEl::LineTo(p) => {
                acc = merge_pt(acc, p);
            },
            PathEl::QuadTo(c, p) => {
                acc = merge_pt(acc, c);
                acc = merge_pt(acc, p);
            },
            PathEl::CurveTo(c1, c2, p) => {
                acc = merge_pt(acc, c1);
                acc = merge_pt(acc, c2);
                acc = merge_pt(acc, p);
            },
            PathEl::Close => {
            },
        }
        proof {
            assert(path@.take(i as int).push(el) =~= path@.take(i + 1int));
            lemma_path_points_push(path@.take(i as int), el);
            lemma_bbox_of_pts_small_append(pts_before, el_points(el));
        }
        i = i + 1;
    }
    proof {
        assert(path@.take(path@.len() as int) =~= path@);
    }
    acc
}

/// Merging a short point sequence one point at a time matches the spec.
proof fn lemma_bbox_of_pts_small_append(pts: Seq<Point>, extra: Seq<Point>)
    ensures
        extra.len() == 0 ==> bbox_of_pts(pts + extra) == bbox_of_pts(pts),
        extra.len() == 1 ==> bbox_of_pts(pts + extra) == bbox_merge_pt(bbox_of_pts(pts), extra[0]),
        extra.len() == 2 ==> bbox_of_pts(pts + extra) == bbox_merge_pt(
            bbox_merge_pt(bbox_of_pts(pts), extra[0]),
            extra[1],
        ),
        extra.len() == 3 ==> bbox_of_pts(pts + extra) == bbox_merge_pt(
            bbox_merge_pt(bbox_merge_pt(bbox_of_pts(pts), extra[0]), extra[1]),
            extra[2],
        ),
{
    if extra.len() == 0 {
        assert(pts + extra =~= pts);
    } else if extra.len() == 1 {
        assert((pts + extra).drop_last() =~= pts);
        assert((pts + extra).last() == extra[0]);
    } else if extra.len() == 2 {
        let s1 = pts.push(extra[0]);
        assert(s1.drop_last() =~= pts);
        assert(s1.last() == extra[0]);
        assert(bbox_of_pts(s1) == bbox_merge_pt(bbox_of_pts(pts), extra[0]));
        assert((pts + extra).drop_last() =~= s1);
        assert((pts + extra).last() == extra[1]);
    } else if extra.len() == 3 {
        let s1 = pts.push(extra[0]);
        let s2 = s1.push(extra[1]);
        assert(s1.drop_last() =~= pts);
        assert(s1.last() == extra[0]);
        assert(bbox_of_pts(s1) == bbox_merge_pt(bbox_of_pts(pts), extra[0]));
        assert(s2.drop_last() =~= s1);
        assert(s2.last() == extra[1]);
        assert(bbox_of_pts(s2) == bbox_merge_pt(bbox_of_pts(s1), extra[1]));
        assert((pts + extra).drop_last() =~= s2);
        assert((pts + extra).last() == extra[2]);
    }
}

fn merge_pt(b: Option<BBox>, p: Point) -> (r: Option<BBox>)
    ensures
        r == bbox_merge_pt(b, p),
{
    match b {
        None => Some(BBox { x0: p.x, y0: p.y, x1: p.x, y1: p.y }),
        Some(b) => Some(
            BBox {
                x0: if p.x < b.x0 {
                    p.x
                } else {
                    b.x0
                },
                y0: if p.y < b.y0 {
                    p.y
                } else {
                    b.y0
                },
                x1: if p.x > b.x1 {
                    p.x
                } else {
                    b.x1
                },
                y1: if p.y > b.y1 {
                    p.y
                } else {
                    b.y1
                },
            },
        ),
    }
}

/// Runtime check that every coordinate of the path has magnitude at most `m`.
pub fn coords_within(path: &Vec<PathEl>, m: i64) -> (r: bool)
    requires
        m >= 0,
    ensures
        r == path_within(path@, m as int),
{
    let mut i: usize = 0;
    while i < path.len()
        invariant
            0 <= i <= path.len(),
            m >= 0,
            forall|j: int| 0 <= j < i ==> el_within(#[trigger] path@[j], m as int),
        decreases path.len() - i,
    {
        let ok = el_ok(path[i], m);
        if !ok {
            return false;
        }
        i = i + 1;
    }
    true
}

fn el_ok(el: PathEl, m: i64) -> (r: bool)
    requires
        m >= 0,
    ensures
        r == el_within(el, m as int),
{
    let r = match el {
        PathEl::MoveTo(p) => pt_ok(p, m),
        PathEl::LineTo(p) => pt_ok(p, m),
        PathEl::QuadTo(c, p) => pt_ok(c, m) && pt_ok(p, m),
        PathEl::CurveTo(c1, c2, p) => pt_ok(c1, m) && pt_ok(c2, m) && pt_ok(p, m),
        PathEl::Close => true,
    };
    proof {
        let pts = el_points(el);
        match el {
            PathEl::MoveTo(p) => {
                assert(pts[0] == p);
                assert(forall|k: int| 0 <= k < pts.len() ==> pts[k] == p);
            },
            PathEl::LineTo(p) => {
                assert(pts[0] == p);
                assert(forall|k: int| 0 <= k < pts.len() ==> pts[k] == p);
            },
            PathEl::QuadTo(c, p) => {
                assert(pts[0] == c && pts[1] == p);
                assert(forall|k: int| 0 <= k < pts.len() ==> pts[k] == c || pts[k] == p);
            },
            PathEl::CurveTo(c1, c2, p) => {
                assert(pts[0] == c1 && pts[1] == c2 && pts[2] == p);
                assert(forall|k: int|
                    0 <= k < pts.len() ==> pts[k] == c1 || pts[k] == c2 || pts[k] == p);
            },
            PathEl::Close => {
            },
        }
    }
    r
}

fn pt_ok(p: Point, m: i64) -> (r: bool)
    requires
        m >= 0,
    ensures
        r == pt_within(p, m as int),
{
    -m <= p.x && p.x <= m && -m <= p.y && p.y <= m
}

} // verus!
