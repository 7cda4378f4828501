//! The annotation placement engine: scaled, positioned ruby glyph
//! geometry is computed in integer design units and spliced into a base
//! glyph's path. All arithmetic is exact: contracts give the placed
//! elements as functions of the inputs.

use vstd::arithmetic::div_mod::{lemma_div_is_ordered, lemma_div_pos_is_pos};
use vstd::prelude::*;

use crate::fixed::{div_trunc, div_tz, lemma_div_tz_bound, lemma_scale_tz_bound, scale_tz};
use crate::path::{
    bbox_merge_pt, bbox_of_pts, el_points, el_within, path_points, path_within, pt_within, BBox,
    PathEl, Point,
};
use crate::pen::pen_coord_max;

verus! {

/// Largest accepted ruby scale ratio, in thousandths of an em.
pub open spec fn scale_milli_max() -> int {
    4096
}

/// Largest accepted magnitude for gutter, baseline-offset and spacing
/// parameters, in thousandths of an em.
pub open spec fn milli_max() -> int {
    65536
}

/// Largest scale numerator: `scale_milli_max() * 0xFFFF < 2^28`.
pub open spec fn scale_num_max() -> int {
    0x1000_0000
}

/// Largest scale denominator: `1000 * 0xFFFF < 2^26`.
pub open spec fn scale_den_max() -> int {
    0x400_0000
}

/// Largest accepted magnitude of a translation handed to the transform.
pub open spec fn trans_max() -> int {
    0x2000_0000_0000_0000
}

/// Magnitude bound on every transformed coordinate:
/// `trans_max() + pen_coord_max() * scale_num_max()`.
pub open spec fn placed_coord_max() -> int {
    0x2800_0000_0000_0000
}

/// Magnitude bound accepted for base-path coordinates.
pub open spec fn base_coord_max() -> int {
    0x1000_0000_0000_0000
}

/// Most ruby glyphs a single annotation may place.
pub open spec fn ruby_glyph_count_max() -> int {
    1024
}

/// One drawn glyph of the annotation font: its outline in that font's
/// design units and its advance width, `None` when the font lacks the
/// horizontal metric (the font's units-per-em then stands in for it).
pub struct RubyGlyph {
    pub path: Vec<PathEl>,
    pub advance: Option<u16>,
}

impl View for RubyGlyph {
    type V = (Seq<PathEl>, Option<u16>);

    open spec fn view(&self) -> (Seq<PathEl>, Option<u16>) {
        (self.path@, self.advance)
    }
}

/// The abstract value of a ruby glyph: its outline and advance.
pub type GlyphView = (Seq<PathEl>, Option<u16>);

/// All outline coordinates are pen-bounded (32-bit).
pub open spec fn gv_wf(g: GlyphView) -> bool {
    path_within(g.0, pen_coord_max())
}

/// The advance width of a ruby glyph, the font's units-per-em when the
/// metric is missing.
pub open spec fn ruby_adv(g: GlyphView, ruby_upem: u16) -> int {
    match g.1 {
        Some(a) => a as int,
        None => ruby_upem as int,
    }
}

/// A ruby glyph's advance scaled by `num / den`.
pub open spec fn scaled_adv(g: GlyphView, ruby_upem: u16, num: int, den: int) -> int {
    scale_tz(ruby_adv(g, ruby_upem), num, den)
}

/// An em-thousandths parameter converted to design units.
pub open spec fn milli_units(milli: int, upem: int) -> int {
    div_tz(milli * upem, 1000)
}

/// The fixed annotation-height heuristic: `0.8 * scale_ratio * upem`.
pub open spec fn approx_height(scale_milli: int, upem: int) -> int {
    div_tz(upem * scale_milli * 8, 10000)
}

/// A coordinate translated by `t` after scaling by `num / den`.
pub open spec fn xf_c(c: int, num: int, den: int, t: int) -> int {
    t + scale_tz(c, num, den)
}

pub open spec fn xf_pt(p: Point, num: int, den: int, tx: int, ty: int) -> Point {
    Point {
        x: xf_c(p.x as int, num, den, tx) as i64,
        y: xf_c(p.y as int, num, den, ty) as i64,
    }
}

pub open spec fn xf_el(el: PathEl, num: int, den: int, tx: int, ty: int) -> PathEl {
    match el {
        PathEl::MoveTo(p) => PathEl::MoveTo(xf_pt(p, num, den, tx, ty)),
        PathEl::LineTo(p) => PathEl::LineTo(xf_pt(p, num, den, tx, ty)),
        PathEl::QuadTo(c, p) => PathEl::QuadTo(
            xf_pt(c, num, den, tx, ty),
            xf_pt(p, num, den, tx, ty),
        ),
        PathEl::CurveTo(c1, c2, p) => PathEl::CurveTo(
            xf_pt(c1, num, den, tx, ty),
            xf_pt(c2, num, den, tx, ty),
            xf_pt(p, num, den, tx, ty),
        ),
        PathEl::Close => PathEl::Close,
    }
}

/// A path transformed by translate-then-scale, element for element.
pub open spec fn xf_path(path: Seq<PathEl>, num: int, den: int, tx: int, ty: int) -> Seq<PathEl> {
    path.map_values(|el: PathEl| xf_el(el, num, den, tx, ty))
}

/// Under the engine's bounds the transform of a pen-bounded point
/// neither truncates nor escapes `placed_coord_max()`.
pub proof fn lemma_xf_pt_bounds(p: Point, num: int, den: int, tx: int, ty: int)
    requires
        pt_within(p, pen_coord_max()),
        1 <= num <= scale_num_max(),
        1 <= den <= scale_den_max(),
        -trans_max() <= tx <= trans_max(),
        -trans_max() <= ty <= trans_max(),
    ensures
        xf_pt(p, num, den, tx, ty).x as int == xf_c(p.x as int, num, den, tx),
        xf_pt(p, num, den, tx, ty).y as int == xf_c(p.y as int, num, den, ty),
        -0x800_0000_0000_0000 <= (p.x as int) * num <= 0x800_0000_0000_0000,
        -0x800_0000_0000_0000 <= (p.y as int) * num <= 0x800_0000_0000_0000,
        pt_within(xf_pt(p, num, den, tx, ty), placed_coord_max()),
{
    lemma_scale_tz_bound(p.x as int, num, den, pen_coord_max(), scale_num_max());
    lemma_scale_tz_bound(p.y as int, num, den, pen_coord_max(), scale_num_max());
    assert(pen_coord_max() * scale_num_max() == 0x800_0000_0000_0000) by (nonlinear_arith);
    assert((p.x as int) * num <= pen_coord_max() * scale_num_max()) by (nonlinear_arith)
        requires
            -pen_coord_max() <= p.x as int <= pen_coord_max(),
            1 <= num <= scale_num_max(),
    ;
    assert(-(pen_coord_max() * scale_num_max()) <= (p.x as int) * num) by (nonlinear_arith)
        requires
            -pen_coord_max() <= p.x as int <= pen_coord_max(),
            1 <= num <= scale_num_max(),
    ;
    assert((p.y as int) * num <= pen_coord_max() * scale_num_max()) by (nonlinear_arith)
        requires
            -pen_coord_max() <= p.y as int <= pen_coord_max(),
            1 <= num <= scale_num_max(),
    ;
    assert(-(pen_coord_max() * scale_num_max()) <= (p.y as int) * num) by (nonlinear_arith)
        requires
            -pen_coord_max() <= p.y as int <= pen_coord_max(),
            1 <= num <= scale_num_max(),
    ;
}

/// Transform one pen-bounded point.
fn xf_point(p: Point, num: i64, den: i64, tx: i64, ty: i64) -> (r: Point)
    requires
        pt_within(p, pen_coord_max()),
        1 <= num <= scale_num_max(),
        1 <= den <= scale_den_max(),
        -trans_max() <= tx <= trans_max(),
        -trans_max() <= ty <= trans_max(),
    ensures
        r == xf_pt(p, num as int, den as int, tx as int, ty as int),
        pt_within(r, placed_coord_max()),
{
    proof {
        lemma_xf_pt_bounds(p, num as int, den as int, tx as int, ty as int);
    }
    let sx = div_trunc(p.x * num, den);
    let sy = div_trunc(p.y * num, den);
    Point { x: tx + sx, y: ty + sy }
}

/// Transform one element of a pen-bounded path.
fn xf_element(el: PathEl, num: i64, den: i64, tx: i64, ty: i64) -> (r: PathEl)
    requires
        el_within(el, pen_coord_max()),
        1 <= num <= scale_num_max(),
        1 <= den <= scale_den_max(),
        -trans_max() <= tx <= trans_max(),
        -trans_max() <= ty <= trans_max(),
    ensures
        r == xf_el(el, num as int, den as int, tx as int, ty as int),
        el_within(r, placed_coord_max()),
{
    proof {
        lemma_el_points_within(el, pen_coord_max());
    }
    let r = match el {
        PathEl::MoveTo(p) => PathEl::MoveTo(xf_point(p, num, den, tx, ty)),
        PathEl::LineTo(p) => PathEl::LineTo(xf_point(p, num, den, tx, ty)),
        PathEl::QuadTo(c, p) => PathEl::QuadTo(
            xf_point(c, num, den, tx, ty),
            xf_point(p, num, den, tx, ty),
        ),
        PathEl::CurveTo(c1, c2, p) => PathEl::CurveTo(
            xf_point(c1, num, den, tx, ty),
            xf_point(c2, num, den, tx, ty),
            xf_point(p, num, den, tx, ty),
        ),
        PathEl::Close => PathEl::Close,
    };
    proof {
        lemma_el_points_cover(r, placed_coord_max());
    }
    r
}

/// `el_within` gives `pt_within` for each named point of the element.
proof fn lemma_el_points_within(el: PathEl, m: int)
    requires
        el_within(el, m),
    ensures
        match el {
            PathEl::MoveTo(p) => pt_within(p, m),
            PathEl::LineTo(p) => pt_within(p, m),
            PathEl::QuadTo(c, p) => pt_within(c, m) && pt_within(p, m),
            PathEl::CurveTo(c1, c2, p) => pt_within(c1, m) && pt_within(c2, m) && pt_within(p, m),
            PathEl::Close => true,
        },
{
    let pts = el_points(el);
    match el {
        PathEl::MoveTo(p) => {
            assert(pts[0] == p);
        },
        PathEl::LineTo(p) => {
            assert(pts[0] == p);
        },
        PathEl::QuadTo(c, p) => {
            assert(pts[0] == c);
            assert(pts[1] == p);
        },
        PathEl::CurveTo(c1, c2, p) => {
            assert(pts[0] == c1);
            assert(pts[1] == c2);
            assert(pts[2] == p);
        },
        PathEl::Close => {
        },
    }
}

/// The converse: pointwise bounds give `el_within`.
proof fn lemma_el_points_cover(el: PathEl, m: int)
    requires
        match el {
            PathEl::MoveTo(p) => pt_within(p, m),
            PathEl::LineTo(p) => pt_within(p, m),
            PathEl::QuadTo(c, p) => pt_within(c, m) && pt_within(p, m),
            PathEl::CurveTo(c1, c2, p) => pt_within(c1, m) && pt_within(c2, m) && pt_within(p, m),
            PathEl::Close => true,
        },
    ensures
        el_within(el, m),
{
    let pts = el_points(el);
    match el {
        PathEl::MoveTo(p) => {
            assert(forall|k: int| 0 <= k < pts.len() ==> pts[k] == p);
        },
        PathEl::LineTo(p) => {
            assert(forall|k: int| 0 <= k < pts.len() ==> pts[k] == p);
        },
        PathEl::QuadTo(c, p) => {
            assert(forall|k: int| 0 <= k < pts.len() ==> pts[k] == c || pts[k] == p);
        },
        PathEl::CurveTo(c1, c2, p) => {
            assert(forall|k: int| 0 <= k < pts.len() ==> pts[k] == c1 || pts[k] == c2 || pts[k]
                == p);
        },
        PathEl::Close => {
        },
    }
}

/// Append the transform of `src` to `dst`, element for element.
pub(crate) fn append_transformed(
    dst: &mut Vec<PathEl>,
    src: &Vec<PathEl>,
    num: i64,
    den: i64,
    tx: i64,
    ty: i64,
)
    requires
        path_within(src@, pen_coord_max()),
        1 <= num <= scale_num_max(),
        1 <= den <= scale_den_max(),
        -trans_max() <= tx <= trans_max(),
        -trans_max() <= ty <= trans_max(),
    ensures
        final (dst)@ == old(dst)@ + xf_path(src@, num as int, den as int, tx as int, ty as int),
        path_within(
            xf_path(src@, num as int, den as int, tx as int, ty as int),
            placed_coord_max(),
        ),
{
    let ghost full = xf_path(src@, num as int, den as int, tx as int, ty as int);
    let mut i: usize = 0;
    proof {
        assert(old(dst)@ + full.take(0int) =~= old(dst)@);
    }
    while i < src.len()
        invariant
            0 <= i <= src.len(),
            path_within(src@, pen_coord_max()),
            1 <= num <= scale_num_max(),
            1 <= den <= scale_den_max(),
            -trans_max() <= tx <= trans_max(),
            -trans_max() <= ty <= trans_max(),
            full == xf_path(src@, num as int, den as int, tx as int, ty as int),
            dst@ == old(dst)@ + full.take(i as int),
            forall|j: int| 0 <= j < i ==> el_within(#[trigger] full[j], placed_coord_max()),
        decreases src.len() - i,
    {
        assert(el_within(src@[i as int], pen_coord_max()));
        let r = xf_element(src[i], num, den, tx, ty);
        dst.push(r);
        proof {
            assert(full[i as int] == r);
            assert(old(dst)@ + full.take(i + 1int) =~= (old(dst)@ + full.take(i as int)).push(r));
        }
        i = i + 1;
    }
    proof {
        assert(full.take(src@.len() as int) =~= full);
    }
}

/// Per-renderer running baseline extremes, used in non-tight mode: the
/// top target only ever rises, the bottom target only ever falls. A
/// fresh cache is used for each font.
pub struct BaselineCache {
    pub top: Option<i64>,
    pub bottom: Option<i64>,
}

impl BaselineCache {
    pub fn new() -> (r: BaselineCache)
        ensures
            r.top is None,
            r.bottom is None,
    {
        BaselineCache { top: None, bottom: None }
    }
}

/// The top target after offering `req`: the maximum seen so far.
pub open spec fn top_after(c: BaselineCache, req: int) -> int {
    match c.top {
        None => req,
        Some(p) => if p as int >= req {
            p as int
        } else {
            req
        },
    }
}

/// The bottom target after offering `req`: the minimum seen so far.
pub open spec fn bottom_after(c: BaselineCache, req: int) -> int {
    match c.bottom {
        None => req,
        Some(p) => if p as int <= req {
            p as int
        } else {
            req
        },
    }
}

pub(crate) fn cache_update_top(cache: &mut BaselineCache, req: i64) -> (t: i64)
    ensures
        t as int == top_after(*old(cache), req as int),
        final (cache).top == Some(t),
        final (cache).bottom == old(cache).bottom,
{
    let t = match cache.top {
        None => req,
        Some(p) => if p >= req {
            p
        } else {
            req
        },
    };
    cache.top = Some(t);
    t
}

pub(crate) fn cache_update_bottom(cache: &mut BaselineCache, req: i64) -> (t: i64)
    ensures
        t as int == bottom_after(*old(cache), req as int),
        final (cache).bottom == Some(t),
        final (cache).top == old(cache).top,
{
    let t = match cache.bottom {
        None => req,
        Some(p) => if p <= req {
            p
        } else {
            req
        },
    };
    cache.bottom = Some(t);
    t
}

} // verus!

verus! {

/// Magnitude bound on one scaled advance: `0xFFFF * scale_num_max()`.
pub open spec fn scaled_adv_max() -> int {
    0x1000_0000_0000
}

/// Magnitude bound on a scaled ruby extent.
pub open spec fn extent_max() -> int {
    0x4_0000_0000_0000
}

/// Magnitude bound the cache fields are kept within.
pub open spec fn cache_max() -> int {
    0x1A00_0000_0000_0000
}

/// Both running extremes of a baseline cache are in range.
pub open spec fn cache_wf(c: BaselineCache) -> bool {
    &&& (c.top is Some ==> -cache_max() <= c.top->Some_0 as int <= cache_max())
    &&& (c.bottom is Some ==> -cache_max() <= c.bottom->Some_0 as int <= cache_max())
}

/// Width of a run of ruby glyphs: the sum of their scaled advances.
pub open spec fn row_width(gs: Seq<GlyphView>, upem: u16, num: int, den: int) -> int
    decreases gs.len(),
{
    if gs.len() == 0 {
        0
    } else {
        scaled_adv(gs[0], upem, num, den) + row_width(gs.skip(1), upem, num, den)
    }
}

/// Horizontal shift contributed by a list of parts: each part's width
/// plus the inter-part spacing.
pub open spec fn rows_shift(ps: Seq<Seq<GlyphView>>, upem: u16, num: int, den: int, sp: int) -> int
    decreases ps.len(),
{
    if ps.len() == 0 {
        0
    } else {
        row_width(ps[0], upem, num, den) + sp + rows_shift(ps.skip(1), upem, num, den, sp)
    }
}

/// Total annotation width: part widths plus spacing between parts.
pub open spec fn total_width(ps: Seq<Seq<GlyphView>>, upem: u16, num: int, den: int, sp: int) -> int {
    if ps.len() == 0 {
        0
    } else {
        rows_shift(ps, upem, num, den, sp) - sp
    }
}

pub open spec fn parts_glyph_count(ps: Seq<Seq<GlyphView>>) -> int
    decreases ps.len(),
{
    if ps.len() == 0 {
        0
    } else {
        ps[0].len() + parts_glyph_count(ps.skip(1))
    }
}

/// Every glyph of every part is pen-bounded.
pub open spec fn parts_wf(ps: Seq<Seq<GlyphView>>) -> bool {
    forall|i: int, j: int| 0 <= i < ps.len() && 0 <= j < ps[i].len() ==> gv_wf(#[trigger] ps[i][j])
}

/// View of one run of glyphs.
pub open spec fn row_view(gs: Seq<RubyGlyph>) -> Seq<GlyphView> {
    gs.map_values(|g: RubyGlyph| g@)
}

/// View of a vector of parts as a sequence of glyph runs.
pub open spec fn parts_view(ps: Seq<Vec<RubyGlyph>>) -> Seq<Seq<GlyphView>> {
    ps.map_values(|v: Vec<RubyGlyph>| row_view(v@))
}

/// The points of a run's outlines, in order.
pub open spec fn glyphs_points(gs: Seq<GlyphView>) -> Seq<Point>
    decreases gs.len(),
{
    if gs.len() == 0 {
        Seq::empty()
    } else {
        path_points(gs[0].0) + glyphs_points(gs.skip(1))
    }
}

/// The points of all parts' outlines, in order.
pub open spec fn parts_points(ps: Seq<Seq<GlyphView>>) -> Seq<Point>
    decreases ps.len(),
{
    if ps.len() == 0 {
        Seq::empty()
    } else {
        glyphs_points(ps[0]) + parts_points(ps.skip(1))
    }
}

/// Scaled vertical extents (min, max) of the annotation outlines; when
/// no outline mentions a point the extent falls back to `(0, ah)`.
pub open spec fn ruby_extents_scaled(ps: Seq<Seq<GlyphView>>, num: int, den: int, ah: int) -> (
    int,
    int,
) {
    match bbox_of_pts(parts_points(ps)) {
        None => (0, ah),
        Some(b) => (scale_tz(b.y0 as int, num, den), scale_tz(b.y1 as int, num, den)),
    }
}

/// The base glyph's bounding box; a path without points gets the zero box.
pub open spec fn bbox_or_zero(b: Option<BBox>) -> BBox {
    match b {
        None => BBox { x0: 0, y0: 0, x1: 0, y1: 0 },
        Some(b) => b,
    }
}

/// Baseline the annotation must reach so its lowest point clears the
/// base glyph's top plus gutter and offset.
pub open spec fn required_top(base: BBox, gu: int, bo: int, min_ys: int) -> int {
    base.y1 as int + gu + bo - min_ys
}

/// Baseline the annotation must reach so its highest point clears the
/// base glyph's bottom minus gutter and offset.
pub open spec fn required_bottom(base: BBox, gu: int, bo: int, max_ys: int) -> int {
    base.y0 as int - gu - bo - max_ys
}

/// Elements placed for one run, left to right, each glyph advancing the
/// cursor by its scaled advance.
pub open spec fn place_row(
    gs: Seq<GlyphView>,
    upem: u16,
    num: int,
    den: int,
    x: int,
    ty: int,
) -> Seq<PathEl>
    decreases gs.len(),
{
    if gs.len() == 0 {
        Seq::empty()
    } else {
        xf_path(gs[0].0, num, den, x, ty) + place_row(
            gs.skip(1),
            upem,
            num,
            den,
            x + scaled_adv(gs[0], upem, num, den),
            ty,
        )
    }
}

/// Elements placed for all parts in order, inserting spacing between parts.
pub open spec fn place_parts(
    ps: Seq<Seq<GlyphView>>,
    upem: u16,
    num: int,
    den: int,
    x: int,
    ty: int,
    sp: int,
) -> Seq<PathEl>
    decreases ps.len(),
{
    if ps.len() == 0 {
        Seq::empty()
    } else {
        place_row(ps[0], upem, num, den, x, ty) + place_parts(
            ps.skip(1),
            upem,
            num,
            den,
            x + row_width(ps[0], upem, num, den) + sp,
            ty,
            sp,
        )
    }
}

pub proof fn lemma_row_width_split(gs: Seq<GlyphView>, upem: u16, num: int, den: int, j: int)
    requires
        0 <= j <= gs.len(),
    ensures
        row_width(gs, upem, num, den) == row_width(gs.take(j), upem, num, den) + row_width(
            gs.skip(j),
            upem,
            num,
            den,
        ),
    decreases j,
{
    if j == 0 {
        assert(gs.take(0int) =~= Seq::<GlyphView>::empty());
        assert(gs.skip(0int) =~= gs);
    } else {
        lemma_row_width_split(gs.skip(1), upem, num, den, j - 1);
        assert(gs.take(j)[0] == gs[0]);
        assert(gs.take(j).skip(1) =~= gs.skip(1).take(j - 1));
        assert(gs.skip(j) =~= gs.skip(1).skip(j - 1));
    }
}

pub proof fn lemma_rows_shift_split(
    ps: Seq<Seq<GlyphView>>,
    upem: u16,
    num: int,
    den: int,
    sp: int,
    j: int,
)
    requires
        0 <= j <= ps.len(),
    ensures
        rows_shift(ps, upem, num, den, sp) == rows_shift(ps.take(j), upem, num, den, sp)
            + rows_shift(ps.skip(j), upem, num, den, sp),
    decreases j,
{
    if j == 0 {
        assert(ps.take(0int) =~= Seq::<Seq<GlyphView>>::empty());
        assert(ps.skip(0int) =~= ps);
    } else {
        lemma_rows_shift_split(ps.skip(1), upem, num, den, sp, j - 1);
        assert(ps.take(j)[0] == ps[0]);
        assert(ps.take(j).skip(1) =~= ps.skip(1).take(j - 1));
        assert(ps.skip(j) =~= ps.skip(1).skip(j - 1));
    }
}

pub proof fn lemma_count_split(ps: Seq<Seq<GlyphView>>, j: int)
    requires
        0 <= j <= ps.len(),
    ensures
        parts_glyph_count(ps) == parts_glyph_count(ps.take(j)) + parts_glyph_count(ps.skip(j)),
    decreases j,
{
    if j == 0 {
        assert(ps.take(0int) =~= Seq::<Seq<GlyphView>>::empty());
        assert(ps.skip(0int) =~= ps);
    } else {
        lemma_count_split(ps.skip(1), j - 1);
        assert(ps.take(j)[0] == ps[0]);
        assert(ps.take(j).skip(1) =~= ps.skip(1).take(j - 1));
        assert(ps.skip(j) =~= ps.skip(1).skip(j - 1));
    }
}

pub proof fn lemma_count_nonneg(ps: Seq<Seq<GlyphView>>)
    ensures
        parts_glyph_count(ps) >= 0,
    decreases ps.len(),
{
    if ps.len() > 0 {
        lemma_count_nonneg(ps.skip(1));
    }
}

/// A scaled advance is nonnegative and bounded.
pub proof fn lemma_scaled_adv_bound(g: GlyphView, upem: u16, num: int, den: int)
    requires
        1 <= num <= scale_num_max(),
        1 <= den <= scale_den_max(),
    ensures
        0 <= scaled_adv(g, upem, num, den) <= scaled_adv_max(),
{
    let adv = ruby_adv(g, upem);
    assert(0 <= adv <= 0xFFFF);
    assert(adv * num <= 0xFFFF * scale_num_max()) by (nonlinear_arith)
        requires
            0 <= adv <= 0xFFFF,
            1 <= num <= scale_num_max(),
    ;
    assert(adv * num >= 0) by (nonlinear_arith)
        requires
            adv >= 0,
            num >= 1,
    ;
    lemma_div_pos_is_pos(adv * num, den);
    lemma_div_is_ordered(adv * num, 0xFFFF * scale_num_max(), den);
    assert(0xFFFF * scale_num_max() / den <= 0xFFFF * scale_num_max()) by {
        vstd::arithmetic::div_mod::lemma_div_nonincreasing(0xFFFF * scale_num_max(), den);
    }
}

pub proof fn lemma_row_width_bound(gs: Seq<GlyphView>, upem: u16, num: int, den: int)
    requires
        1 <= num <= scale_num_max(),
        1 <= den <= scale_den_max(),
    ensures
        0 <= row_width(gs, upem, num, den) <= gs.len() * scaled_adv_max(),
    decreases gs.len(),
{
    if gs.len() == 0 {
    } else {
        lemma_scaled_adv_bound(gs[0], upem, num, den);
        lemma_row_width_bound(gs.skip(1), upem, num, den);
        assert((gs.len() - 1) * scaled_adv_max() == gs.len() * scaled_adv_max()
            - scaled_adv_max()) by (nonlinear_arith);
    }
}

pub proof fn lemma_rows_shift_bound(
    ps: Seq<Seq<GlyphView>>,
    upem: u16,
    num: int,
    den: int,
    sp: int,
    spm: int,
)
    requires
        1 <= num <= scale_num_max(),
        1 <= den <= scale_den_max(),
        -spm <= sp <= spm,
        0 <= spm,
    ensures
        -(ps.len() * spm) <= rows_shift(ps, upem, num, den, sp) <= parts_glyph_count(ps)
            * scaled_adv_max() + ps.len() * spm,
    decreases ps.len(),
{
    if ps.len() == 0 {
    } else {
        lemma_row_width_bound(ps[0], upem, num, den);
        lemma_rows_shift_bound(ps.skip(1), upem, num, den, sp, spm);
        lemma_count_nonneg(ps.skip(1));
        assert((ps.len() - 1) * spm == ps.len() * spm - spm) by (nonlinear_arith);
        assert((ps[0].len() + parts_glyph_count(ps.skip(1))) * scaled_adv_max() == ps[0].len()
            * scaled_adv_max() + parts_glyph_count(ps.skip(1)) * scaled_adv_max())
            by (nonlinear_arith);
        assert(ps[0].len() * scaled_adv_max() >= 0) by (nonlinear_arith);
    }
}

} // verus!

verus! {

/// Join of two optional bounding boxes.
pub open spec fn obb_join(a: Option<BBox>, b: Option<BBox>) -> Option<BBox> {
    match (a, b) {
        (Option::None, b) => b,
        (Option::Some(a), Option::None) => Some(a),
        (Option::Some(a), Option::Some(b)) => Some(
            BBox {
                x0: crate::path::min64(a.x0, b.x0),
                y0: crate::path::min64(a.y0, b.y0),
                x1: crate::path::max64(a.x1, b.x1),
                y1: crate::path::max64(a.y1, b.y1),
            },
        ),
    }
}

pub proof fn lemma_bbox_concat(a: Seq<Point>, b: Seq<Point>)
    ensures
        bbox_of_pts(a + b) == obb_join(bbox_of_pts(a), bbox_of_pts(b)),
    decreases b.len(),
{
    if b.len() == 0 {
        assert(a + b =~= a);
    } else {
        lemma_bbox_concat(a, b.drop_last());
        assert((a + b).drop_last() =~= a + b.drop_last());
        assert((a + b).last() == b.last());
    }
}

pub proof fn lemma_glyphs_points_split(gs: Seq<GlyphView>, j: int)
    requires
        0 <= j <= gs.len(),
    ensures
        glyphs_points(gs) == glyphs_points(gs.take(j)) + glyphs_points(gs.skip(j)),
    decreases j,
{
    if j == 0 {
        assert(gs.take(0int) =~= Seq::<GlyphView>::empty());
        assert(gs.skip(0int) =~= gs);
        assert(glyphs_points(gs.take(0int)) + glyphs_points(gs) =~= glyphs_points(gs));
    } else {
        lemma_glyphs_points_split(gs.skip(1), j - 1);
        assert(gs.take(j)[0] == gs[0]);
        assert(gs.take(j).skip(1) =~= gs.skip(1).take(j - 1));
        assert(gs.skip(j) =~= gs.skip(1).skip(j - 1));
        assert(path_points(gs[0].0) + (glyphs_points(gs.skip(1).take(j - 1)) + glyphs_points(
            gs.skip(1).skip(j - 1),
        )) =~= (path_points(gs[0].0) + glyphs_points(gs.skip(1).take(j - 1))) + glyphs_points(
            gs.skip(1).skip(j - 1),
        ));
    }
}

pub proof fn lemma_parts_points_split(ps: Seq<Seq<GlyphView>>, j: int)
    requires
        0 <= j <= ps.len(),
    ensures
        parts_points(ps) == parts_points(ps.take(j)) + parts_points(ps.skip(j)),
    decreases j,
{
    if j == 0 {
        assert(ps.take(0int) =~= Seq::<Seq<GlyphView>>::empty());
        assert(ps.skip(0int) =~= ps);
        assert(parts_points(ps.take(0int)) + parts_points(ps) =~= parts_points(ps));
    } else {
        lemma_parts_points_split(ps.skip(1), j - 1);
        assert(ps.take(j)[0] == ps[0]);
        assert(ps.take(j).skip(1) =~= ps.skip(1).take(j - 1));
        assert(ps.skip(j) =~= ps.skip(1).skip(j - 1));
        assert(glyphs_points(ps[0]) + (parts_points(ps.skip(1).take(j - 1)) + parts_points(
            ps.skip(1).skip(j - 1),
        )) =~= (glyphs_points(ps[0]) + parts_points(ps.skip(1).take(j - 1))) + parts_points(
            ps.skip(1).skip(j - 1),
        ));
    }
}

pub proof fn lemma_glyphs_points_within(gs: Seq<GlyphView>, m: int)
    requires
        forall|j: int| 0 <= j < gs.len() ==> path_within((#[trigger] gs[j]).0, m),
    ensures
        forall|i: int|
            0 <= i < glyphs_points(gs).len() ==> pt_within(#[trigger] glyphs_points(gs)[i], m),
    decreases gs.len(),
{
    if gs.len() > 0 {
        let rest = gs.skip(1);
        assert forall|j: int| 0 <= j < rest.len() implies path_within(
            (#[trigger] rest[j]).0,
            m,
        ) by {
            assert(rest[j] == gs[j + 1]);
        }
        lemma_glyphs_points_within(rest, m);
        crate::path::lemma_path_within_points(gs[0].0, m);
        let head = path_points(gs[0].0);
        assert forall|i: int| 0 <= i < glyphs_points(gs).len() implies pt_within(
            #[trigger] glyphs_points(gs)[i],
            m,
        ) by {
            if i < head.len() {
                assert(glyphs_points(gs)[i] == head[i]);
            } else {
                assert(glyphs_points(gs)[i] == glyphs_points(rest)[i - head.len()]);
            }
        }
    }
}

pub proof fn lemma_parts_points_within(ps: Seq<Seq<GlyphView>>, m: int)
    requires
        forall|i: int, j: int|
            0 <= i < ps.len() && 0 <= j < ps[i].len() ==> path_within(
                (#[trigger] ps[i][j]).0,
                m,
            ),
    ensures
        forall|i: int|
            0 <= i < parts_points(ps).len() ==> pt_within(#[trigger] parts_points(ps)[i], m),
    decreases ps.len(),
{
    if ps.len() > 0 {
        let rest = ps.skip(1);
        assert forall|i: int, j: int|
            0 <= i < rest.len() && 0 <= j < rest[i].len() implies path_within(
            (#[trigger] rest[i][j]).0,
            m,
        ) by {
            assert(rest[i] == ps[i + 1]);
        }
        lemma_parts_points_within(rest, m);
        assert forall|j: int| 0 <= j < ps[0].len() implies path_within(
            (#[trigger] ps[0][j]).0,
            m,
        ) by {
            assert(ps[0][j] == ps[0][j]);
        }
        lemma_glyphs_points_within(ps[0], m);
        let head = glyphs_points(ps[0]);
        assert forall|i: int| 0 <= i < parts_points(ps).len() implies pt_within(
            #[trigger] parts_points(ps)[i],
            m,
        ) by {
            if i < head.len() {
                assert(parts_points(ps)[i] == head[i]);
            } else {
                assert(parts_points(ps)[i] == parts_points(rest)[i - head.len()]);
            }
        }
    }
}

fn obb_join_x(a: Option<BBox>, b: Option<BBox>) -> (r: Option<BBox>)
    ensures
        r == obb_join(a, b),
{
    match (a, b) {
        (Option::None, b) => b,
        (Option::Some(a), Option::None) => Some(a),
        (Option::Some(a), Option::Some(b)) => Some(
            BBox {
                x0: if a.x0 <= b.x0 {
                    a.x0
                } else {
                    b.x0
                },
                y0: if a.y0 <= b.y0 {
                    a.y0
                } else {
                    b.y0
                },
                x1: if a.x1 >= b.x1 {
                    a.x1
                } else {
                    b.x1
                },
                y1: if a.y1 >= b.y1 {
                    a.y1
                } else {
                    b.y1
                },
            },
        ),
    }
}

/// Bounding box of all annotation outlines across all parts.
fn parts_bbox(parts: &Vec<Vec<RubyGlyph>>) -> (r: Option<BBox>)
    ensures
        r == bbox_of_pts(parts_points(parts_view(parts@))),
{
    let ghost ps = parts_view(parts@);
    let mut acc: Option<BBox> = None;
    let mut pi: usize = 0;
    proof {
        assert(ps.take(0int) =~= Seq::<Seq<GlyphView>>::empty());
    }
    while pi < parts.len()
        invariant
            0 <= pi <= parts.len(),
            ps == parts_view(parts@),
            acc == bbox_of_pts(parts_points(ps.take(pi as int))),
        decreases parts.len() - pi,
    {
        let part = &parts[pi];
        let ghost gs = row_view(part@);
        proof {
            assert(ps[pi as int] == gs);
        }
        let mut gi: usize = 0;
        proof {
            assert(gs.take(0int) =~= Seq::<GlyphView>::empty());
            assert(parts_points(ps.take(pi as int)) + glyphs_points(gs.take(0int)) =~= parts_points(
                ps.take(pi as int),
            ));
        }
        while gi < part.len()
            invariant
                0 <= gi <= part.len(),
                ps == parts_view(parts@),
                pi < parts.len(),
                gs == row_view(part@),
                row_view(part@) == ps[pi as int],
                acc == bbox_of_pts(
                    parts_points(ps.take(pi as int)) + glyphs_points(gs.take(gi as int)),
                ),
            decreases part.len() - gi,
        {
            let gb = crate::path::bbox(&part[gi].path);
            acc = obb_join_x(acc, gb);
            proof {
                let before = parts_points(ps.take(pi as int)) + glyphs_points(gs.take(gi as int));
                let gp = path_points(gs[gi as int].0);
                assert(gs[gi as int].0 == part@[gi as int].path@);
                lemma_bbox_concat(before, gp);
                assert(gs.take(gi + 1int).take(gi as int) =~= gs.take(gi as int));
                lemma_glyphs_points_split(gs.take(gi + 1int), gi as int);
                assert(gs.take(gi + 1int).skip(gi as int) =~= seq![gs[gi as int]]);
                assert(glyphs_points(seq![gs[gi as int]]) =~= gp + glyphs_points(
                    Seq::<GlyphView>::empty(),
                )) by {
                    assert(seq![gs[gi as int]].skip(1) =~= Seq::<GlyphView>::empty());
                }
                assert(glyphs_points(seq![gs[gi as int]]) =~= gp);
                assert(glyphs_points(gs.take(gi + 1int)) =~= glyphs_points(gs.take(gi as int))
                    + gp);
                assert(parts_points(ps.take(pi as int)) + glyphs_points(gs.take(gi + 1int)) =~= (
                parts_points(ps.take(pi as int)) + glyphs_points(gs.take(gi as int))) + gp);
            }
            gi = gi + 1;
        }
        proof {
            assert(gs.take(gs.len() as int) =~= gs);
            lemma_parts_points_split(ps.take(pi + 1int), pi as int);
            assert(ps.take(pi + 1int).take(pi as int) =~= ps.take(pi as int));
            assert(ps.take(pi + 1int).skip(pi as int) =~= seq![gs]);
            assert(parts_points(seq![gs]) =~= glyphs_points(gs) + parts_points(
                Seq::<Seq<GlyphView>>::empty(),
            )) by {
                assert(seq![gs].skip(1) =~= Seq::<Seq<GlyphView>>::empty());
            }
            assert(parts_points(ps.take(pi + 1int)) =~= parts_points(ps.take(pi as int))
                + glyphs_points(gs));
        }
        pi = pi + 1;
    }
    proof {
        assert(ps.take(parts@.len() as int) =~= ps);
    }
    acc
}

} // verus!

verus! {

/// Shared placement configuration of one renderer instance.
pub struct PlaceParams {
    /// Units-per-em of the annotation font.
    pub ruby_upem: u16,
    /// Ruby scale ratio in thousandths of the main em.
    pub scale_milli: u16,
    /// Units-per-em of the main font.
    pub main_upem: u16,
    /// Gap between base glyph and ruby text, in thousandths of an em.
    pub gutter_milli: i32,
    /// Baseline fine-tuning offset, in thousandths of an em.
    pub baseline_milli: i32,
    /// Spacing between annotation parts, in thousandths of an em.
    pub spacing_milli: i32,
    /// Per-character placement from the glyph's own box alone, instead
    /// of a font-wide consistent baseline.
    pub tight: bool,
}

impl PlaceParams {
    pub open spec fn wf(self) -> bool {
        &&& 1 <= self.scale_milli as int <= scale_milli_max()
        &&& 1 <= self.main_upem as int
        &&& 1 <= self.ruby_upem as int
        &&& -milli_max() <= self.gutter_milli as int <= milli_max()
        &&& -milli_max() <= self.baseline_milli as int <= milli_max()
        &&& -milli_max() <= self.spacing_milli as int <= milli_max()
    }

    /// Numerator of the glyph scale factor `scale_ratio * mainUPM / rubyUPM`.
    pub open spec fn num(self) -> int {
        self.scale_milli as int * self.main_upem as int
    }

    /// Denominator of the glyph scale factor.
    pub open spec fn den(self) -> int {
        1000 * self.ruby_upem as int
    }

    pub open spec fn gu(self) -> int {
        milli_units(self.gutter_milli as int, self.main_upem as int)
    }

    pub open spec fn bo(self) -> int {
        milli_units(self.baseline_milli as int, self.main_upem as int)
    }

    pub open spec fn sp(self) -> int {
        milli_units(self.spacing_milli as int, self.main_upem as int)
    }

    pub open spec fn ah(self) -> int {
        approx_height(self.scale_milli as int, self.main_upem as int)
    }
}

/// Input-size limits under which placement arithmetic cannot overflow.
pub open spec fn parts_sized(ps: Seq<Seq<GlyphView>>) -> bool {
    &&& ps.len() <= ruby_glyph_count_max()
    &&& parts_glyph_count(ps) <= ruby_glyph_count_max()
}

/// The baseline the current glyph's annotation must reach.
pub open spec fn tb_required(
    pp: PlaceParams,
    ps: Seq<Seq<GlyphView>>,
    base: Seq<PathEl>,
    top: bool,
) -> int {
    let bz = bbox_or_zero(crate::path::path_bbox(base));
    let ext = ruby_extents_scaled(ps, pp.num(), pp.den(), pp.ah());
    if top {
        required_top(bz, pp.gu(), pp.bo(), ext.0)
    } else {
        required_bottom(bz, pp.gu(), pp.bo(), ext.1)
    }
}

/// The baseline actually used: the glyph's own box in tight mode, the
/// running extreme (updated with this glyph's requirement) otherwise.
pub open spec fn tb_target(
    pp: PlaceParams,
    ps: Seq<Seq<GlyphView>>,
    base: Seq<PathEl>,
    top: bool,
    cache: BaselineCache,
) -> int {
    let bz = bbox_or_zero(crate::path::path_bbox(base));
    if pp.tight {
        if top {
            bz.y1 as int + pp.gu()
        } else {
            bz.y0 as int - pp.gu() - pp.ah()
        }
    } else {
        if top {
            top_after(cache, tb_required(pp, ps, base, top))
        } else {
            bottom_after(cache, tb_required(pp, ps, base, top))
        }
    }
}

/// The cache after placing: updated with the emitted target in non-tight
/// mode, untouched in tight mode.
pub open spec fn tb_cache_after(
    pp: PlaceParams,
    ps: Seq<Seq<GlyphView>>,
    base: Seq<PathEl>,
    top: bool,
    cache: BaselineCache,
) -> BaselineCache {
    if pp.tight {
        cache
    } else if top {
        BaselineCache { top: Some(tb_target(pp, ps, base, top, cache) as i64), bottom: cache.bottom }
    } else {
        BaselineCache { top: cache.top, bottom: Some(tb_target(pp, ps, base, top, cache) as i64) }
    }
}

/// Leftmost pen position: the annotation block is centered under the
/// base advance.
pub open spec fn tb_x0(pp: PlaceParams, ps: Seq<Seq<GlyphView>>, orig_advance: u16) -> int {
    div_tz(
        orig_advance as int - total_width(ps, pp.ruby_upem, pp.num(), pp.den(), pp.sp()),
        2,
    )
}

/// All elements a top/bottom annotation appends to the base path.
pub open spec fn tb_els(
    pp: PlaceParams,
    ps: Seq<Seq<GlyphView>>,
    base: Seq<PathEl>,
    top: bool,
    cache: BaselineCache,
    orig_advance: u16,
) -> Seq<PathEl> {
    place_parts(
        ps,
        pp.ruby_upem,
        pp.num(),
        pp.den(),
        tb_x0(pp, ps, orig_advance),
        tb_target(pp, ps, base, top, cache),
        pp.sp(),
    )
}

/// An em-thousandths parameter in design units.
pub(crate) fn milli_to_units(milli: i32, upem: u16) -> (r: i64)
    requires
        -milli_max() <= milli as int <= milli_max(),
        1 <= upem,
    ensures
        r as int == milli_units(milli as int, upem as int),
        -0x1_0000_0000 <= r as int <= 0x1_0000_0000,
{
    proof {
        assert(-0x1_0000_0000 <= (milli as int) * (upem as int) <= 0x1_0000_0000)
            by (nonlinear_arith)
            requires
                -milli_max() <= milli as int <= milli_max(),
                1 <= upem as int <= 0x10000,
        ;
        lemma_div_tz_bound((milli as int) * (upem as int), 1000, 0x1_0000_0000);
    }
    div_trunc(milli as i64 * upem as i64, 1000)
}

/// The fixed annotation-height heuristic in design units.
pub(crate) fn approx_h(scale_milli: u16, upem: u16) -> (r: i64)
    requires
        1 <= scale_milli as int <= scale_milli_max(),
        1 <= upem,
    ensures
        r as int == approx_height(scale_milli as int, upem as int),
        0 <= r as int <= 0x1_0000_0000,
{
    proof {
        assert(0 <= (upem as int) * (scale_milli as int) * 8 <= 0x1_0000_0000)
            by (nonlinear_arith)
            requires
                1 <= scale_milli as int <= scale_milli_max(),
                1 <= upem as int <= 0x10000,
        ;
        lemma_div_pos_is_pos((upem as int) * (scale_milli as int) * 8, 10000);
        lemma_div_is_ordered((upem as int) * (scale_milli as int) * 8, 0x1_0000_0000, 10000);
        vstd::arithmetic::div_mod::lemma_div_nonincreasing(0x1_0000_0000, 10000);
        lemma_div_pos_is_pos(0x1_0000_0000, 10000);
    }
    div_trunc(upem as i64 * scale_milli as i64 * 8, 10000)
}

/// One ruby glyph's scaled advance in main-font design units.
pub(crate) fn glyph_scaled_adv(g: &RubyGlyph, ruby_upem: u16, num: i64, den: i64) -> (r: i64)
    requires
        1 <= num <= scale_num_max(),
        1 <= den <= scale_den_max(),
    ensures
        r as int == scaled_adv(g@, ruby_upem, num as int, den as int),
        0 <= r as int <= scaled_adv_max(),
{
    let adv: u16 = match g.advance {
        Some(a) => a,
        None => ruby_upem,
    };
    proof {
        assert(0 <= (adv as int) * (num as int) <= 0x1000_0000_0000_0000) by (nonlinear_arith)
            requires
                0 <= adv as int <= 0xFFFF,
                1 <= num as int <= scale_num_max(),
        ;
        lemma_scaled_adv_bound(g@, ruby_upem, num as int, den as int);
    }
    div_trunc(adv as i64 * num, den)
}

/// Scaled advance of each glyph of a run, in order.
pub fn compute_glyph_widths(
    glyphs: &Vec<RubyGlyph>,
    ruby_upem: u16,
    scale_milli: u16,
    main_upem: u16,
) -> (r: Vec<i64>)
    requires
        1 <= scale_milli as int <= scale_milli_max(),
        1 <= main_upem,
        1 <= ruby_upem,
    ensures
        r@.len() == glyphs@.len(),
        forall|i: int|
            0 <= i < r@.len() ==> (#[trigger] r@[i]) as int == scaled_adv(
                glyphs@[i]@,
                ruby_upem,
                scale_milli as int * main_upem as int,
                1000 * ruby_upem as int,
            ),
{
    proof {
        assert(1 <= (scale_milli as int) * (main_upem as int) <= scale_num_max())
            by (nonlinear_arith)
            requires
                1 <= scale_milli as int <= scale_milli_max(),
                1 <= main_upem as int <= 0x10000,
        ;
    }
    let num: i64 = scale_milli as i64 * main_upem as i64;
    let den: i64 = 1000 * ruby_upem as i64;
    let mut r: Vec<i64> = Vec::new();
    let mut i: usize = 0;
    while i < glyphs.len()
        invariant
            0 <= i <= glyphs.len(),
            1 <= num as int <= scale_num_max(),
            1 <= den as int <= scale_den_max(),
            num as int == scale_milli as int * main_upem as int,
            den as int == 1000 * ruby_upem as int,
            r@.len() == i,
            forall|j: int|
                0 <= j < i ==> (#[trigger] r@[j]) as int == scaled_adv(
                    glyphs@[j]@,
                    ruby_upem,
                    num as int,
                    den as int,
                ),
        decreases glyphs.len() - i,
    {
        let w = glyph_scaled_adv(&glyphs[i], ruby_upem, num, den);
        r.push(w);
        i = i + 1;
    }
    r
}

} // verus!

verus! {

/// Sum of all part widths plus one spacing per part.
fn rows_shift_x(parts: &Vec<Vec<RubyGlyph>>, ruby_upem: u16, num: i64, den: i64, sp: i64) -> (r:
    i64)
    requires
        1 <= num <= scale_num_max(),
        1 <= den <= scale_den_max(),
        -0x1_0000_0000 <= sp as int <= 0x1_0000_0000,
        parts_sized(parts_view(parts@)),
    ensures
        r as int == rows_shift(parts_view(parts@), ruby_upem, num as int, den as int, sp as int),
        -0x100_0000_0000_0000 <= r as int <= 0x100_0000_0000_0000,
{
    let ghost ps = parts_view(parts@);
    let mut acc: i64 = 0;
    let mut pi: usize = 0;
    proof {
        assert(ps.take(0int) =~= Seq::<Seq<GlyphView>>::empty());
        lemma_count_nonneg(ps);
    }
    while pi < parts.len()
        invariant
            0 <= pi <= parts.len(),
            ps == parts_view(parts@),
            parts_sized(ps),
            1 <= num <= scale_num_max(),
            1 <= den <= scale_den_max(),
            -0x1_0000_0000 <= sp as int <= 0x1_0000_0000,
            acc as int == rows_shift(ps.take(pi as int), ruby_upem, num as int, den as int, sp as int),
            -0x100_0000_0000_0000 <= acc as int <= 0x100_0000_0000_0000,
        decreases parts.len() - pi,
    {
        let part = &parts[pi];
        let ghost gs = row_view(part@);
        proof {
            assert(ps[pi as int] == gs);
            lemma_count_split(ps, pi as int);
            lemma_count_split(ps.skip(pi as int), 1int);
            assert(ps.skip(pi as int).take(1int) =~= seq![gs]);
            assert(ps.skip(pi as int).skip(1int) =~= ps.skip(pi + 1int));
            assert(seq![gs].skip(1int) =~= Seq::<Seq<GlyphView>>::empty());
            assert(parts_glyph_count(seq![gs]) == gs.len());
            lemma_count_nonneg(ps.take(pi as int));
            lemma_count_nonneg(ps.skip(pi + 1int));
            assert(gs.len() <= ruby_glyph_count_max());
            assert(gs.take(0int) =~= Seq::<GlyphView>::empty());
        }
        let ghost acc0 = acc as int;
        let mut gi: usize = 0;
        while gi < part.len()
            invariant
                0 <= gi <= part.len(),
                gs == row_view(part@),
                gs.len() <= ruby_glyph_count_max(),
                1 <= num <= scale_num_max(),
                1 <= den <= scale_den_max(),
                -0x100_0000_0000_0000 <= acc0 <= 0x100_0000_0000_0000,
                acc as int == acc0 + row_width(gs.take(gi as int), ruby_upem, num as int, den as int),
            decreases part.len() - gi,
        {
            let w = glyph_scaled_adv(&part[gi], ruby_upem, num, den);
            proof {
                lemma_row_width_split(gs.take(gi + 1int), ruby_upem, num as int, den as int, gi as int);
                assert(gs.take(gi + 1int).take(gi as int) =~= gs.take(gi as int));
                assert(gs.take(gi + 1int).skip(gi as int) =~= seq![gs[gi as int]]);
                assert(seq![gs[gi as int]].skip(1int) =~= Seq::<GlyphView>::empty());
                assert(row_width(Seq::<GlyphView>::empty(), ruby_upem, num as int, den as int)
                    == 0);
                assert(seq![gs[gi as int]][0] == gs[gi as int]);
                assert(row_width(seq![gs[gi as int]], ruby_upem, num as int, den as int)
                    == scaled_adv(gs[gi as int], ruby_upem, num as int, den as int));
                lemma_row_width_bound(gs.take(gi as int), ruby_upem, num as int, den as int);
                lemma_row_width_bound(gs.take(gi + 1int), ruby_upem, num as int, den as int);
                assert(gs.take(gi + 1int).len() * scaled_adv_max() <= 1024 * scaled_adv_max())
                    by (nonlinear_arith)
                    requires
                        gs.take(gi + 1int).len() <= 1024,
                ;
            }
            acc = acc + w;
            gi = gi + 1;
        }
        proof {
            assert(gs.take(gs.len() as int) =~= gs);
            lemma_row_width_bound(gs, ruby_upem, num as int, den as int);
            assert(gs.len() * scaled_adv_max() <= 1024 * scaled_adv_max()) by (nonlinear_arith)
                requires
                    gs.len() <= 1024,
            ;
            lemma_rows_shift_split(ps.take(pi + 1int), ruby_upem, num as int, den as int, sp as int, pi as int);
            assert(ps.take(pi + 1int).take(pi as int) =~= ps.take(pi as int));
            assert(ps.take(pi + 1int).skip(pi as int) =~= seq![gs]);
            assert(seq![gs].skip(1int) =~= Seq::<Seq<GlyphView>>::empty());
            assert(rows_shift(
                Seq::<Seq<GlyphView>>::empty(),
                ruby_upem,
                num as int,
                den as int,
                sp as int,
            ) == 0);
            assert(seq![gs][0] == gs);
            assert(rows_shift(seq![gs], ruby_upem, num as int, den as int, sp as int)
                == row_width(gs, ruby_upem, num as int, den as int) + sp as int);
            // bound the new accumulator through the prefix bound
            lemma_count_split(ps, pi + 1int);
            lemma_count_nonneg(ps.skip(pi + 1int));
            lemma_rows_shift_bound(ps.take(pi + 1int), ruby_upem, num as int, den as int, sp as int, 0x1_0000_0000);
            assert(parts_glyph_count(ps.take(pi + 1int)) * scaled_adv_max() <= 1024 * scaled_adv_max())
                by (nonlinear_arith)
                requires
                    parts_glyph_count(ps.take(pi + 1int)) <= 1024,
            ;
            assert(ps.take(pi + 1int).len() * 0x1_0000_0000 <= 1024 * 0x1_0000_0000)
                by (nonlinear_arith)
                requires
                    ps.take(pi + 1int).len() <= 1024,
            ;
            lemma_count_nonneg(ps.take(pi + 1int));
            assert(0 <= parts_glyph_count(ps.take(pi + 1int)) * scaled_adv_max())
                by (nonlinear_arith)
                requires
                    0 <= parts_glyph_count(ps.take(pi + 1int)),
            ;
        }
        acc = acc + sp;
        pi = pi + 1;
    }
    proof {
        assert(ps.take(parts@.len() as int) =~= ps);
    }
    acc
}

} // verus!

verus! {

/// Place a top or bottom annotation: the parts are laid out left to
/// right, centered under the base advance, at the baseline the mode and
/// cache dictate; every placed element is appended to the base path.
pub fn render_top_bottom(
    final_path: &mut Vec<PathEl>,
    parts: &Vec<Vec<RubyGlyph>>,
    pp: &PlaceParams,
    orig_advance: u16,
    position: crate::renderer::RubyPosition,
    cache: &mut BaselineCache,
)
    requires
        pp.wf(),
        parts_wf(parts_view(parts@)),
        parts_sized(parts_view(parts@)),
        cache_wf(*old(cache)),
        position.is_horizontal(),
        path_within(old(final_path)@, base_coord_max()),
    ensures
        final (final_path)@ == old(final_path)@ + tb_els(
            *pp,
            parts_view(parts@),
            old(final_path)@,
            position == crate::renderer::RubyPosition::Top,
            *old(cache),
            orig_advance,
        ),
        *final (cache) == tb_cache_after(
            *pp,
            parts_view(parts@),
            old(final_path)@,
            position == crate::renderer::RubyPosition::Top,
            *old(cache),
        ),
        cache_wf(*final (cache)),
{
    let ghost ps = parts_view(parts@);
    let ghost base0 = final_path@;
    let top = position == crate::renderer::RubyPosition::Top;
    proof {
        assert(1 <= (pp.scale_milli as int) * (pp.main_upem as int) <= scale_num_max())
            by (nonlinear_arith)
            requires
                1 <= pp.scale_milli as int <= scale_milli_max(),
                1 <= pp.main_upem as int <= 0x10000,
        ;
    }
    let num: i64 = pp.scale_milli as i64 * pp.main_upem as i64;
    let den: i64 = 1000 * pp.ruby_upem as i64;
    let gu = milli_to_units(pp.gutter_milli, pp.main_upem);
    let bo = milli_to_units(pp.baseline_milli, pp.main_upem);
    let sp = milli_to_units(pp.spacing_milli, pp.main_upem);
    let ah = approx_h(pp.scale_milli, pp.main_upem);

    // Base glyph bounding box, zero when the base path has no points.
    let base_bb = crate::path::bbox(final_path);
    let bz = match base_bb {
        None => BBox { x0: 0, y0: 0, x1: 0, y1: 0 },
        Some(b) => b,
    };
    proof {
        assert(bz == bbox_or_zero(crate::path::path_bbox(base0)));
        crate::path::lemma_path_within_points(base0, base_coord_max());
        crate::path::lemma_bbox_within(path_points(base0), base_coord_max());
        assert(-base_coord_max() <= bz.y0 as int <= base_coord_max());
        assert(-base_coord_max() <= bz.y1 as int <= base_coord_max());
    }

    // Scaled vertical extents of the annotation outlines.
    let rb = parts_bbox(parts);
    proof {
        assert forall|i: int, j: int|
            0 <= i < ps.len() && 0 <= j < ps[i].len() implies path_within(
            (#[trigger] ps[i][j]).0,
            pen_coord_max(),
        ) by {
            assert(gv_wf(ps[i][j]));
        }
        lemma_parts_points_within(ps, pen_coord_max());
        crate::path::lemma_bbox_within(parts_points(ps), pen_coord_max());
    }
    let min_ys: i64;
    let max_ys: i64;
    match rb {
        None => {
            min_ys = 0;
            max_ys = ah;
        },
        Some(b) => {
            proof {
                assert(-0x800_0000_0000_0000 <= (b.y0 as int) * (num as int)
                    <= 0x800_0000_0000_0000) by (nonlinear_arith)
                    requires
                        -pen_coord_max() <= b.y0 as int <= pen_coord_max(),
                        1 <= num as int <= scale_num_max(),
                ;
                assert(-0x800_0000_0000_0000 <= (b.y1 as int) * (num as int)
                    <= 0x800_0000_0000_0000) by (nonlinear_arith)
                    requires
                        -pen_coord_max() <= b.y1 as int <= pen_coord_max(),
                        1 <= num as int <= scale_num_max(),
                ;
                lemma_div_tz_bound((b.y0 as int) * (num as int), den as int, 0x800_0000_0000_0000);
                lemma_div_tz_bound((b.y1 as int) * (num as int), den as int, 0x800_0000_0000_0000);
            }
            min_ys = div_trunc(b.y0 * num, den);
            max_ys = div_trunc(b.y1 * num, den);
        },
    }
    proof {
        let ext = ruby_extents_scaled(ps, num as int, den as int, ah as int);
        assert(min_ys as int == ext.0 && max_ys as int == ext.1);
        assert(-0x800_0000_0000_0000 <= min_ys as int <= 0x800_0000_0000_0000);
        assert(-0x800_0000_0000_0000 <= max_ys as int <= 0x800_0000_0000_0000);
    }

    // Required and emitted baseline target.
    let req: i64 = if top {
        bz.y1 + gu + bo - min_ys
    } else {
        bz.y0 - gu - bo - max_ys
    };
    proof {
        assert(req as int == tb_required(*pp, ps, base0, top));
        assert(-cache_max() <= req as int <= cache_max());
    }
    let target: i64 = if pp.tight {
        if top {
            bz.y1 + gu
        } else {
            bz.y0 - gu - ah
        }
    } else {
        if top {
            cache_update_top(cache, req)
        } else {
            cache_update_bottom(cache, req)
        }
    };
    proof {
        assert(target as int == tb_target(*pp, ps, base0, top, *old(cache)));
        assert(-cache_max() <= target as int <= cache_max());
        assert(*cache == tb_cache_after(*pp, ps, base0, top, *old(cache)));
    }

    // Total width and starting pen position.
    let shift = rows_shift_x(parts, pp.ruby_upem, num, den, sp);
    let total: i64 = if parts.len() == 0 {
        0
    } else {
        shift - sp
    };
    proof {
        assert(total as int == total_width(ps, pp.ruby_upem, num as int, den as int, sp as int));
        lemma_div_tz_bound(
            orig_advance as int - total as int,
            2,
            0x200_0000_0000_0000,
        );
    }
    let x0 = div_trunc(orig_advance as i64 - total, 2);
    proof {
        assert(x0 as int == tb_x0(*pp, ps, orig_advance));
    }

    // Walk the parts, placing each glyph and advancing the pen.
    let ghost full = tb_els(*pp, ps, base0, top, *old(cache), orig_advance);
    proof {
        assert(full == place_parts(
            ps,
            pp.ruby_upem,
            num as int,
            den as int,
            x0 as int,
            target as int,
            sp as int,
        ));
        assert(ps.take(0int) =~= Seq::<Seq<GlyphView>>::empty());
        assert(ps.skip(0int) =~= ps);
        assert(final_path@ == base0);
        lemma_count_nonneg(ps);
    }
    let mut cx: i64 = x0;
    let mut pi: usize = 0;
    while pi < parts.len()
        invariant
            0 <= pi <= parts.len(),
            ps == parts_view(parts@),
            parts_wf(ps),
            parts_sized(ps),
            1 <= num as int <= scale_num_max(),
            1 <= den as int <= scale_den_max(),
            -0x1_0000_0000 <= sp as int <= 0x1_0000_0000,
            -0x200_0000_0000_0000 <= x0 as int <= 0x200_0000_0000_0000,
            -cache_max() <= target as int <= cache_max(),
            cx as int == x0 as int + rows_shift(
                ps.take(pi as int),
                pp.ruby_upem,
                num as int,
                den as int,
                sp as int,
            ),
            -0x400_0000_0000_0000 <= cx as int <= 0x400_0000_0000_0000,
            base0 + full == final_path@ + place_parts(
                ps.skip(pi as int),
                pp.ruby_upem,
                num as int,
                den as int,
                cx as int,
                target as int,
                sp as int,
            ),
        decreases parts.len() - pi,
    {
        let part = &parts[pi];
        let ghost gs = row_view(part@);
        proof {
            assert(ps[pi as int] == gs);
            lemma_count_split(ps, pi as int);
            lemma_count_split(ps.skip(pi as int), 1int);
            assert(ps.skip(pi as int).take(1int) =~= seq![gs]);
            assert(ps.skip(pi as int).skip(1int) =~= ps.skip(pi + 1int));
            assert(seq![gs].skip(1int) =~= Seq::<Seq<GlyphView>>::empty());
            assert(parts_glyph_count(Seq::<Seq<GlyphView>>::empty()) == 0);
            assert(seq![gs][0] == gs);
            assert(parts_glyph_count(seq![gs]) == gs.len());
            lemma_count_nonneg(ps.take(pi as int));
            lemma_count_nonneg(ps.skip(pi + 1int));
            assert(gs.len() <= ruby_glyph_count_max());
            assert(gs.take(0int) =~= Seq::<GlyphView>::empty());
            // Unfold the remainder once.
            assert(ps.skip(pi as int)[0] == gs);
            assert(place_parts(
                ps.skip(pi as int),
                pp.ruby_upem,
                num as int,
                den as int,
                cx as int,
                target as int,
                sp as int,
            ) == place_row(gs, pp.ruby_upem, num as int, den as int, cx as int, target as int)
                + place_parts(
                ps.skip(pi + 1int),
                pp.ruby_upem,
                num as int,
                den as int,
                cx as int + row_width(gs, pp.ruby_upem, num as int, den as int) + sp as int,
                target as int,
                sp as int,
            ));
        }
        proof {
            assert(gs.skip(0int) =~= gs);
        }
        let ghost cx_part = cx as int;
        let ghost rest_after = place_parts(
            ps.skip(pi + 1int),
            pp.ruby_upem,
            num as int,
            den as int,
            cx_part + row_width(gs, pp.ruby_upem, num as int, den as int) + sp as int,
            target as int,
            sp as int,
        );
        let mut gi: usize = 0;
        while gi < part.len()
            invariant
                0 <= gi <= part.len(),
                gs == row_view(part@),
                parts_wf(ps),
                pi < parts.len(),
                ps == parts_view(parts@),
                row_view(part@) == ps[pi as int],
                gs.len() <= ruby_glyph_count_max(),
                1 <= num as int <= scale_num_max(),
                1 <= den as int <= scale_den_max(),
                -cache_max() <= target as int <= cache_max(),
                -0x400_0000_0000_0000 <= cx_part <= 0x400_0000_0000_0000,
                cx as int == cx_part + row_width(
                    gs.take(gi as int),
                    pp.ruby_upem,
                    num as int,
                    den as int,
                ),
                rest_after == place_parts(
                    ps.skip(pi + 1int),
                    pp.ruby_upem,
                    num as int,
                    den as int,
                    cx_part + row_width(gs, pp.ruby_upem, num as int, den as int) + sp as int,
                    target as int,
                    sp as int,
                ),
                base0 + full == final_path@ + (place_row(
                    gs.skip(gi as int),
                    pp.ruby_upem,
                    num as int,
                    den as int,
                    cx as int,
                    target as int,
                ) + rest_after),
            decreases part.len() - gi,
        {
            proof {
                lemma_row_width_bound(gs.take(gi as int), pp.ruby_upem, num as int, den as int);
                assert(gs.take(gi as int).len() * scaled_adv_max() <= 1024 * scaled_adv_max())
                    by (nonlinear_arith)
                    requires
                        gs.take(gi as int).len() <= 1024,
                ;
                assert(gv_wf(gs[gi as int]));
                assert(gs[gi as int].0 == part@[gi as int].path@);
            }
            let w = glyph_scaled_adv(&part[gi], pp.ruby_upem, num, den);
            let ghost dst0 = final_path@;
            append_transformed(final_path, &part[gi].path, num, den, cx, target);
            proof {
                // place_row unfolds one glyph.
                let skipped = gs.skip(gi as int);
                assert(skipped[0] == gs[gi as int]);
                assert(skipped.skip(1int) =~= gs.skip(gi + 1int));
                assert(gs[gi as int].0 == part@[gi as int].path@);
                let placed = xf_path(
                    gs[gi as int].0,
                    num as int,
                    den as int,
                    cx as int,
                    target as int,
                );
                assert(place_row(
                    skipped,
                    pp.ruby_upem,
                    num as int,
                    den as int,
                    cx as int,
                    target as int,
                ) == placed + place_row(
                    gs.skip(gi + 1int),
                    pp.ruby_upem,
                    num as int,
                    den as int,
                    cx as int + w as int,
                    target as int,
                ));
                assert(final_path@ + (place_row(
                    gs.skip(gi + 1int),
                    pp.ruby_upem,
                    num as int,
                    den as int,
                    cx as int + w as int,
                    target as int,
                ) + rest_after) =~= dst0 + ((placed + place_row(
                    gs.skip(gi + 1int),
                    pp.ruby_upem,
                    num as int,
                    den as int,
                    cx as int + w as int,
                    target as int,
                )) + rest_after));
                // Row width of the grown prefix.
                lemma_row_width_split(gs.take(gi + 1int), pp.ruby_upem, num as int, den as int, gi as int);
                assert(gs.take(gi + 1int).take(gi as int) =~= gs.take(gi as int));
                assert(gs.take(gi + 1int).skip(gi as int) =~= seq![gs[gi as int]]);
                assert(seq![gs[gi as int]].skip(1int) =~= Seq::<GlyphView>::empty());
                assert(row_width(Seq::<GlyphView>::empty(), pp.ruby_upem, num as int, den as int)
                    == 0);
                assert(seq![gs[gi as int]][0] == gs[gi as int]);
                assert(row_width(seq![gs[gi as int]], pp.ruby_upem, num as int, den as int)
                    == scaled_adv(gs[gi as int], pp.ruby_upem, num as int, den as int));
            }
            cx = cx + w;
            gi = gi + 1;
        }
        proof {
            assert(gs.take(gs.len() as int) =~= gs);
            assert(gs.skip(gs.len() as int) =~= Seq::<GlyphView>::empty());
            assert(place_row(
                Seq::<GlyphView>::empty(),
                pp.ruby_upem,
                num as int,
                den as int,
                cx as int,
                target as int,
            ) =~= Seq::<PathEl>::empty());
            assert(final_path@ + (Seq::<PathEl>::empty() + rest_after) =~= final_path@
                + rest_after);
            // Accumulate the shift for the next part.
            lemma_rows_shift_split(ps.take(pi + 1int), pp.ruby_upem, num as int, den as int, sp as int, pi as int);
            assert(ps.take(pi + 1int).take(pi as int) =~= ps.take(pi as int));
            assert(ps.take(pi + 1int).skip(pi as int) =~= seq![gs]);
            assert(seq![gs].skip(1int) =~= Seq::<Seq<GlyphView>>::empty());
            assert(rows_shift(
                Seq::<Seq<GlyphView>>::empty(),
                pp.ruby_upem,
                num as int,
                den as int,
                sp as int,
            ) == 0);
            assert(seq![gs][0] == gs);
            assert(rows_shift(seq![gs], pp.ruby_upem, num as int, den as int, sp as int)
                == row_width(gs, pp.ruby_upem, num as int, den as int) + sp as int);
            // Numeric bound for the advanced pen.
            lemma_count_split(ps, pi + 1int);
            lemma_count_nonneg(ps.skip(pi + 1int));
            lemma_count_nonneg(ps.take(pi + 1int));
            lemma_rows_shift_bound(ps.take(pi + 1int), pp.ruby_upem, num as int, den as int, sp as int, 0x1_0000_0000);
            assert(parts_glyph_count(ps.take(pi + 1int)) * scaled_adv_max() <= 1024
                * scaled_adv_max()) by (nonlinear_arith)
                requires
                    parts_glyph_count(ps.take(pi + 1int)) <= 1024,
            ;
            assert(ps.take(pi + 1int).len() * 0x1_0000_0000 <= 1024 * 0x1_0000_0000)
                by (nonlinear_arith)
                requires
                    ps.take(pi + 1int).len() <= 1024,
            ;
            assert(0 <= parts_glyph_count(ps.take(pi + 1int)) * scaled_adv_max())
                by (nonlinear_arith)
                requires
                    0 <= parts_glyph_count(ps.take(pi + 1int)),
            ;
        }
        cx = cx + sp;
        pi = pi + 1;
    }
    proof {
        assert(ps.skip(parts@.len() as int) =~= Seq::<Seq<GlyphView>>::empty());
        assert(place_parts(
            Seq::<Seq<GlyphView>>::empty(),
            pp.ruby_upem,
            num as int,
            den as int,
            cx as int,
            target as int,
            sp as int,
        ) =~= Seq::<PathEl>::empty());
        assert(final_path@ + Seq::<PathEl>::empty() =~= final_path@);
        assert(final_path@ == base0 + full);
    }
}

} // verus!

verus! {

/// Largest accepted vertical step between stacked side glyphs.
pub open spec fn vstep_max() -> int {
    0x40_0000_0000
}

/// Every glyph of a run is pen-bounded.
pub open spec fn glyphs_wf(gs: Seq<GlyphView>) -> bool {
    forall|j: int| 0 <= j < gs.len() ==> gv_wf(#[trigger] gs[j])
}

/// Width of the column a side annotation is stacked in: the largest
/// scaled advance (zero for no glyphs).
pub open spec fn col_width(gs: Seq<GlyphView>, upem: u16, num: int, den: int) -> int
    decreases gs.len(),
{
    if gs.len() == 0 {
        0
    } else {
        let w = scaled_adv(gs[0], upem, num, den);
        let rest = col_width(gs.skip(1), upem, num, den);
        if w >= rest {
            w
        } else {
            rest
        }
    }
}

pub proof fn lemma_col_width_bounds(gs: Seq<GlyphView>, upem: u16, num: int, den: int)
    requires
        1 <= num <= scale_num_max(),
        1 <= den <= scale_den_max(),
    ensures
        0 <= col_width(gs, upem, num, den) <= scaled_adv_max(),
        forall|j: int|
            0 <= j < gs.len() ==> scaled_adv(#[trigger] gs[j], upem, num, den) <= col_width(
                gs,
                upem,
                num,
                den,
            ),
    decreases gs.len(),
{
    if gs.len() > 0 {
        lemma_scaled_adv_bound(gs[0], upem, num, den);
        lemma_col_width_bounds(gs.skip(1), upem, num, den);
        assert forall|j: int|
            0 <= j < gs.len() implies scaled_adv(#[trigger] gs[j], upem, num, den) <= col_width(
            gs,
            upem,
            num,
            den,
        ) by {
            if j > 0 {
                assert(gs.skip(1)[j - 1] == gs[j]);
            }
        }
    }
}

/// Elements placed for a vertical column: each glyph centered in the
/// column, stepping by `step` per glyph.
pub open spec fn place_col(
    gs: Seq<GlyphView>,
    upem: u16,
    num: int,
    den: int,
    start_x: int,
    col_w: int,
    y: int,
    step: int,
) -> Seq<PathEl>
    decreases gs.len(),
{
    if gs.len() == 0 {
        Seq::empty()
    } else {
        xf_path(
            gs[0].0,
            num,
            den,
            start_x + div_tz(col_w - scaled_adv(gs[0], upem, num, den), 2),
            y,
        ) + place_col(gs.skip(1), upem, num, den, start_x, col_w, y + step, step)
    }
}

/// All elements a side annotation appends: a single centered column
/// beside the base glyph, `*Down` variants stepping downward from the
/// top of the stack, `*Up` variants upward from the bottom.
pub open spec fn side_els(
    pp: PlaceParams,
    gs: Seq<GlyphView>,
    base: Seq<PathEl>,
    position: crate::renderer::RubyPosition,
    orig_advance: u16,
    vstep: int,
) -> Seq<PathEl> {
    if gs.len() == 0 {
        Seq::empty()
    } else {
        let colw = col_width(gs, pp.ruby_upem, pp.num(), pp.den());
        let start_x = if position.is_left() {
            -(colw + pp.gu())
        } else {
            orig_advance as int + pp.gu()
        };
        let bz = bbox_or_zero(crate::path::path_bbox(base));
        let cy = div_tz(bz.y0 as int + bz.y1 as int, 2);
        let half = div_tz((gs.len() - 1) * vstep, 2);
        let y0 = if position.is_down() {
            cy + half
        } else {
            cy - half
        };
        let step = if position.is_down() {
            -vstep
        } else {
            vstep
        };
        place_col(gs, pp.ruby_upem, pp.num(), pp.den(), start_x, colw, y0, step)
    }
}

/// Place a side annotation, appending every element to the base path.
pub fn render_side(
    final_path: &mut Vec<PathEl>,
    glyphs: &Vec<RubyGlyph>,
    pp: &PlaceParams,
    orig_advance: u16,
    position: crate::renderer::RubyPosition,
    vstep: i64,
)
    requires
        pp.wf(),
        glyphs_wf(row_view(glyphs@)),
        glyphs@.len() <= ruby_glyph_count_max(),
        -vstep_max() <= vstep as int <= vstep_max(),
        !position.is_horizontal(),
        path_within(old(final_path)@, base_coord_max()),
    ensures
        final (final_path)@ == old(final_path)@ + side_els(
            *pp,
            row_view(glyphs@),
            old(final_path)@,
            position,
            orig_advance,
            vstep as int,
        ),
{
    let ghost gs = row_view(glyphs@);
    let ghost base0 = final_path@;
    if glyphs.len() == 0 {
        proof {
            assert(base0 + side_els(*pp, gs, base0, position, orig_advance, vstep as int) =~= base0);
        }
        return ;
    }
    proof {
        assert(1 <= (pp.scale_milli as int) * (pp.main_upem as int) <= scale_num_max())
            by (nonlinear_arith)
            requires
                1 <= pp.scale_milli as int <= scale_milli_max(),
                1 <= pp.main_upem as int <= 0x10000,
        ;
    }
    let num: i64 = pp.scale_milli as i64 * pp.main_upem as i64;
    let den: i64 = 1000 * pp.ruby_upem as i64;
    let gu = milli_to_units(pp.gutter_milli, pp.main_upem);

    // Column width: the largest scaled advance, computed back to front.
    proof {
        assert(gs.skip(gs.len() as int) =~= Seq::<GlyphView>::empty());
    }
    let mut colw: i64 = 0;
    let mut bi: usize = glyphs.len();
    while bi > 0
        invariant
            0 <= bi <= glyphs.len(),
            gs == row_view(glyphs@),
            1 <= num as int <= scale_num_max(),
            1 <= den as int <= scale_den_max(),
            colw as int == col_width(gs.skip(bi as int), pp.ruby_upem, num as int, den as int),
            0 <= colw as int <= scaled_adv_max(),
        decreases bi,
    {
        bi = bi - 1;
        let w = glyph_scaled_adv(&glyphs[bi], pp.ruby_upem, num, den);
        proof {
            assert(gs.skip(bi as int)[0] == gs[bi as int]);
            assert(gs.skip(bi as int).skip(1int) =~= gs.skip(bi + 1int));
        }
        if w >= colw {
            colw = w;
        }
    }
    proof {
        assert(gs.skip(0int) =~= gs);
    }

    // Column x origin and stack center.
    let start_x: i64 = if matches!(position, crate::renderer::RubyPosition::LeftDown
        | crate::renderer::RubyPosition::LeftUp) {
        -(colw + gu)
    } else {
        orig_advance as i64 + gu
    };
    let base_bb = crate::path::bbox(final_path);
    let bz = match base_bb {
        None => BBox { x0: 0, y0: 0, x1: 0, y1: 0 },
        Some(b) => b,
    };
    proof {
        assert(bz == bbox_or_zero(crate::path::path_bbox(base0)));
        crate::path::lemma_path_within_points(base0, base_coord_max());
        crate::path::lemma_bbox_within(path_points(base0), base_coord_max());
        lemma_div_tz_bound(bz.y0 as int + bz.y1 as int, 2, 0x2000_0000_0000_0000);
    }
    let cy = div_trunc(bz.y0 + bz.y1, 2);
    proof {
        assert(-0x4_0000_0000_0000 <= (glyphs@.len() - 1) as int * (vstep as int)
            <= 0x4_0000_0000_0000) by (nonlinear_arith)
            requires
                0 <= (glyphs@.len() - 1) as int <= 1024,
                -vstep_max() <= vstep as int <= vstep_max(),
        ;
        lemma_div_tz_bound((glyphs@.len() - 1) as int * (vstep as int), 2, 0x4_0000_0000_0000);
    }
    let half = div_trunc((glyphs.len() - 1) as i64 * vstep, 2);
    let down = matches!(position, crate::renderer::RubyPosition::LeftDown
        | crate::renderer::RubyPosition::RightDown);
    let y0: i64 = if down {
        cy + half
    } else {
        cy - half
    };
    let step: i64 = if down {
        -vstep
    } else {
        vstep
    };

    // Walk the column.
    let ghost full = side_els(*pp, gs, base0, position, orig_advance, vstep as int);
    proof {
        assert(full == place_col(
            gs,
            pp.ruby_upem,
            num as int,
            den as int,
            start_x as int,
            colw as int,
            y0 as int,
            step as int,
        ));
        assert(gs.skip(0int) =~= gs);
        lemma_col_width_bounds(gs, pp.ruby_upem, num as int, den as int);
    }
    let mut y: i64 = y0;
    let mut j: usize = 0;
    while j < glyphs.len()
        invariant
            0 <= j <= glyphs.len(),
            gs == row_view(glyphs@),
            glyphs_wf(gs),
            gs.len() <= ruby_glyph_count_max(),
            1 <= num as int <= scale_num_max(),
            1 <= den as int <= scale_den_max(),
            0 <= colw as int <= scaled_adv_max(),
            colw as int == col_width(gs, pp.ruby_upem, num as int, den as int),
            forall|k: int|
                0 <= k < gs.len() ==> scaled_adv(#[trigger] gs[k], pp.ruby_upem, num as int, den as int)
                    <= colw as int,
            -0x1100_0000_0000_0000 <= start_x as int <= 0x1100_0000_0000_0000,
            -vstep_max() <= step as int <= vstep_max(),
            -0x1100_0000_0000_0000 <= y0 as int <= 0x1100_0000_0000_0000,
            y as int == y0 as int + j as int * step as int,
            base0 + full == final_path@ + place_col(
                gs.skip(j as int),
                pp.ruby_upem,
                num as int,
                den as int,
                start_x as int,
                colw as int,
                y as int,
                step as int,
            ),
        decreases glyphs.len() - j,
    {
        proof {
            assert(-0x4_0000_0000_0000 <= j as int * step as int <= 0x4_0000_0000_0000)
                by (nonlinear_arith)
                requires
                    0 <= j as int <= 1024,
                    -vstep_max() <= step as int <= vstep_max(),
            ;
            assert(gv_wf(gs[j as int]));
            assert(gs[j as int].0 == glyphs@[j as int].path@);
            lemma_div_tz_bound(
                colw as int - scaled_adv(gs[j as int], pp.ruby_upem, num as int, den as int),
                2,
                scaled_adv_max(),
            );
            lemma_scaled_adv_bound(gs[j as int], pp.ruby_upem, num as int, den as int);
        }
        let w = glyph_scaled_adv(&glyphs[j], pp.ruby_upem, num, den);
        let tx = start_x + div_trunc(colw - w, 2);
        let ghost dst0 = final_path@;
        append_transformed(final_path, &glyphs[j].path, num, den, tx, y);
        proof {
            let skipped = gs.skip(j as int);
            assert(skipped[0] == gs[j as int]);
            assert(skipped.skip(1int) =~= gs.skip(j + 1int));
            assert(gs[j as int].0 == glyphs@[j as int].path@);
            let placed = xf_path(
                gs[j as int].0,
                num as int,
                den as int,
                tx as int,
                y as int,
            );
            assert(place_col(
                skipped,
                pp.ruby_upem,
                num as int,
                den as int,
                start_x as int,
                colw as int,
                y as int,
                step as int,
            ) == placed + place_col(
                gs.skip(j + 1int),
                pp.ruby_upem,
                num as int,
                den as int,
                start_x as int,
                colw as int,
                y as int + step as int,
                step as int,
            ));
            assert(final_path@ + place_col(
                gs.skip(j + 1int),
                pp.ruby_upem,
                num as int,
                den as int,
                start_x as int,
                colw as int,
                y as int + step as int,
                step as int,
            ) =~= dst0 + (placed + place_col(
                gs.skip(j + 1int),
                pp.ruby_upem,
                num as int,
                den as int,
                start_x as int,
                colw as int,
                y as int + step as int,
                step as int,
            )));
            assert(-0x4_0000_0000_0000 <= (j + 1int) * step as int <= 0x4_0000_0000_0000)
                by (nonlinear_arith)
                requires
                    0 <= j + 1int <= 1024,
                    -vstep_max() <= step as int <= vstep_max(),
            ;
            assert((j + 1int) * step as int == j as int * step as int + step as int)
                by (nonlinear_arith);
        }
        y = y + step;
        j = j + 1;
    }
    proof {
        assert(gs.skip(gs.len() as int) =~= Seq::<GlyphView>::empty());
        assert(final_path@ + place_col(
            Seq::<GlyphView>::empty(),
            pp.ruby_upem,
            num as int,
            den as int,
            start_x as int,
            colw as int,
            y as int,
            step as int,
        ) =~= final_path@);
    }
}

} // verus!

verus! {

/// Non-tight Top mode widens monotonically: when glyph B is processed
/// after glyph A through the same cache, B's emitted baseline target is
/// at least A's, and A's already-emitted target is not retroactively
/// changed — it stays recorded in the cache B read.
pub proof fn lemma_top_target_monotone(
    pp: PlaceParams,
    ps_a: Seq<Seq<GlyphView>>,
    base_a: Seq<PathEl>,
    ps_b: Seq<Seq<GlyphView>>,
    base_b: Seq<PathEl>,
    cache: BaselineCache,
)
    requires
        !pp.tight,
        cache_wf(cache),
        -cache_max() <= tb_required(pp, ps_a, base_a, true) <= cache_max(),
        -cache_max() <= tb_required(pp, ps_b, base_b, true) <= cache_max(),
    ensures
        ({
            let t_a = tb_target(pp, ps_a, base_a, true, cache);
            let c_a = tb_cache_after(pp, ps_a, base_a, true, cache);
            let t_b = tb_target(pp, ps_b, base_b, true, c_a);
            &&& t_b >= t_a
            &&& c_a.top == Some(t_a as i64)
            &&& tb_required(pp, ps_b, base_b, true) > t_a ==> t_b == tb_required(
                pp,
                ps_b,
                base_b,
                true,
            )
        }),
{
}

/// The dual for non-tight Bottom mode: the emitted target only falls.
pub proof fn lemma_bottom_target_monotone(
    pp: PlaceParams,
    ps_a: Seq<Seq<GlyphView>>,
    base_a: Seq<PathEl>,
    ps_b: Seq<Seq<GlyphView>>,
    base_b: Seq<PathEl>,
    cache: BaselineCache,
)
    requires
        !pp.tight,
        cache_wf(cache),
        -cache_max() <= tb_required(pp, ps_a, base_a, false) <= cache_max(),
        -cache_max() <= tb_required(pp, ps_b, base_b, false) <= cache_max(),
    ensures
        ({
            let t_a = tb_target(pp, ps_a, base_a, false, cache);
            let c_a = tb_cache_after(pp, ps_a, base_a, false, cache);
            let t_b = tb_target(pp, ps_b, base_b, false, c_a);
            &&& t_b <= t_a
            &&& c_a.bottom == Some(t_a as i64)
        }),
{
}

/// The points of a transformed path are the transformed points.
proof fn lemma_xf_path_points(p: Seq<PathEl>, num: int, den: int, tx: int, ty: int)
    ensures
        path_points(xf_path(p, num, den, tx, ty)) == path_points(p).map_values(
            (|q: Point| xf_pt(q, num, den, tx, ty)),
        ),
    decreases p.len(),
{
    let f = (|q: Point| xf_pt(q, num, den, tx, ty));
    if p.len() == 0 {
        assert(xf_path(p, num, den, tx, ty) =~= Seq::<PathEl>::empty());
        assert(path_points(p).map_values(f) =~= Seq::<Point>::empty());
    } else {
        lemma_xf_path_points(p.drop_last(), num, den, tx, ty);
        let xp = xf_path(p, num, den, tx, ty);
        assert(xp.drop_last() =~= xf_path(p.drop_last(), num, den, tx, ty));
        assert(xp.last() == xf_el(p.last(), num, den, tx, ty));
        assert(el_points(xf_el(p.last(), num, den, tx, ty)) =~= el_points(p.last()).map_values(f));
        assert(path_points(xp) =~= path_points(p).map_values(f));
    }
}

/// Every point a row placement emits lies at or above the baseline
/// plus a lower bound on the outlines' scaled y coordinates.
proof fn lemma_place_row_y_above(
    gs: Seq<GlyphView>,
    upem: u16,
    num: int,
    den: int,
    x: int,
    ty: int,
    lo: int,
)
    requires
        glyphs_wf(gs),
        1 <= num <= scale_num_max(),
        1 <= den <= scale_den_max(),
        -trans_max() <= ty <= trans_max(),
        -trans_max() <= x,
        x + row_width(gs, upem, num, den) <= trans_max(),
        forall|k: int|
            0 <= k < glyphs_points(gs).len() ==> lo <= scale_tz(
                (#[trigger] glyphs_points(gs)[k]).y as int,
                num,
                den,
            ),
    ensures
        forall|k: int|
            0 <= k < path_points(place_row(gs, upem, num, den, x, ty)).len() ==> ty + lo <= (
            #[trigger] path_points(place_row(gs, upem, num, den, x, ty))[k]).y as int,
    decreases gs.len(),
{
    if gs.len() > 0 {
        let head = xf_path(gs[0].0, num, den, x, ty);
        let adv = scaled_adv(gs[0], upem, num, den);
        let tail = place_row(gs.skip(1), upem, num, den, x + adv, ty);
        lemma_scaled_adv_bound(gs[0], upem, num, den);
        lemma_row_width_bound(gs.skip(1), upem, num, den);
        assert forall|j: int| 0 <= j < gs.skip(1).len() implies gv_wf(
            #[trigger] gs.skip(1)[j],
        ) by {
            assert(gs.skip(1)[j] == gs[j + 1]);
        }
        assert(glyphs_points(gs) == path_points(gs[0].0) + glyphs_points(gs.skip(1)));
        let hn = path_points(gs[0].0).len() as int;
        assert forall|k: int|
            0 <= k < glyphs_points(gs.skip(1)).len() implies lo <= scale_tz(
            (#[trigger] glyphs_points(gs.skip(1))[k]).y as int,
            num,
            den,
        ) by {
            assert(glyphs_points(gs.skip(1))[k] == glyphs_points(gs)[hn + k]);
        }
        lemma_place_row_y_above(gs.skip(1), upem, num, den, x + adv, ty, lo);
        lemma_xf_path_points(gs[0].0, num, den, x, ty);
        assert(gv_wf(gs[0]));
        crate::path::lemma_path_within_points(gs[0].0, pen_coord_max());
        assert forall|k: int| 0 <= k < path_points(head).len() implies ty + lo <= (
        #[trigger] path_points(head)[k]).y as int by {
            let q = path_points(gs[0].0)[k];
            assert(path_points(head)[k] == xf_pt(q, num, den, x, ty));
            assert(glyphs_points(gs)[k] == q);
            assert(lo <= scale_tz(q.y as int, num, den));
            assert(pt_within(q, pen_coord_max()));
            lemma_xf_pt_bounds(q, num, den, x, ty);
            assert(xf_pt(q, num, den, x, ty).y as int == ty + scale_tz(q.y as int, num, den));
        }
        crate::path::lemma_path_points_concat(head, tail);
        assert forall|k: int|
            0 <= k < path_points(place_row(gs, upem, num, den, x, ty)).len() implies ty + lo <= (
        #[trigger] path_points(place_row(gs, upem, num, den, x, ty))[k]).y as int by {
            let pts = path_points(place_row(gs, upem, num, den, x, ty));
            if k < path_points(head).len() {
                assert(pts[k] == path_points(head)[k]);
            } else {
                assert(pts[k] == path_points(tail)[k - path_points(head).len()]);
            }
        }
    }
}

/// Lifted to all parts: every placed point lies at or above the
/// baseline plus the lower bound.
proof fn lemma_place_parts_y_above(
    ps: Seq<Seq<GlyphView>>,
    upem: u16,
    num: int,
    den: int,
    x: int,
    ty: int,
    sp: int,
    lo: int,
)
    requires
        parts_wf(ps),
        ps.len() <= 1024,
        parts_glyph_count(ps) <= 1024,
        1 <= num <= scale_num_max(),
        1 <= den <= scale_den_max(),
        -trans_max() <= ty <= trans_max(),
        -0x1_0000_0000 <= sp <= 0x1_0000_0000,
        -0x1000_0000_0000_0000 <= x - ps.len() * 0x1_0000_0000,
        x + parts_glyph_count(ps) * scaled_adv_max() + ps.len() * 0x1_0000_0000
            <= 0x1000_0000_0000_0000,
        forall|k: int|
            0 <= k < parts_points(ps).len() ==> lo <= scale_tz(
                (#[trigger] parts_points(ps)[k]).y as int,
                num,
                den,
            ),
    ensures
        forall|k: int|
            0 <= k < path_points(place_parts(ps, upem, num, den, x, ty, sp)).len() ==> ty + lo <= (
            #[trigger] path_points(place_parts(ps, upem, num, den, x, ty, sp))[k]).y as int,
    decreases ps.len(),
{
    if ps.len() > 0 {
        let rw0 = row_width(ps[0], upem, num, den);
        let head = place_row(ps[0], upem, num, den, x, ty);
        let x2 = x + rw0 + sp;
        let tail = place_parts(ps.skip(1), upem, num, den, x2, ty, sp);
        lemma_row_width_bound(ps[0], upem, num, den);
        lemma_count_nonneg(ps.skip(1));
        assert(parts_glyph_count(ps) == ps[0].len() + parts_glyph_count(ps.skip(1)));
        assert(ps[0].len() * scaled_adv_max() + parts_glyph_count(ps.skip(1)) * scaled_adv_max()
            == parts_glyph_count(ps) * scaled_adv_max()) by (nonlinear_arith)
            requires
                parts_glyph_count(ps) == ps[0].len() + parts_glyph_count(ps.skip(1)),
        ;
        assert(0 <= parts_glyph_count(ps.skip(1)) * scaled_adv_max()) by (nonlinear_arith)
            requires
                0 <= parts_glyph_count(ps.skip(1)),
        ;
        assert(0 <= ps.len() * 0x1_0000_0000) by (nonlinear_arith)
            requires
                0 <= ps.len(),
        ;
        assert((ps.len() - 1) * 0x1_0000_0000 == ps.len() * 0x1_0000_0000 - 0x1_0000_0000)
            by (nonlinear_arith);
        // The head row stays within the transform's translation range.
        assert(rw0 <= ps[0].len() * scaled_adv_max());
        assert(x + rw0 <= 0x1000_0000_0000_0000);
        assert(-trans_max() <= x);
        assert forall|j: int| 0 <= j < ps[0].len() implies gv_wf(#[trigger] ps[0][j]) by {
            assert(ps[0][j] == ps[0int][j]);
        }
        assert(parts_points(ps) == glyphs_points(ps[0]) + parts_points(ps.skip(1)));
        let hn = glyphs_points(ps[0]).len() as int;
        assert forall|k: int|
            0 <= k < glyphs_points(ps[0]).len() implies lo <= scale_tz(
            (#[trigger] glyphs_points(ps[0])[k]).y as int,
            num,
            den,
        ) by {
            assert(parts_points(ps)[k] == glyphs_points(ps[0])[k]);
        }
        lemma_place_row_y_above(ps[0], upem, num, den, x, ty, lo);
        // The tail keeps the slack invariant.
        assert forall|i: int, j: int|
            0 <= i < ps.skip(1).len() && 0 <= j < ps.skip(1)[i].len() implies gv_wf(
            #[trigger] ps.skip(1)[i][j],
        ) by {
            assert(ps.skip(1)[i] == ps[i + 1]);
        }
        assert forall|k: int|
            0 <= k < parts_points(ps.skip(1)).len() implies lo <= scale_tz(
            (#[trigger] parts_points(ps.skip(1))[k]).y as int,
            num,
            den,
        ) by {
            assert(parts_points(ps.skip(1))[k] == parts_points(ps)[hn + k]);
        }
        lemma_place_parts_y_above(ps.skip(1), upem, num, den, x2, ty, sp, lo);
        crate::path::lemma_path_points_concat(head, tail);
        assert forall|k: int|
            0 <= k < path_points(place_parts(ps, upem, num, den, x, ty, sp)).len() implies ty + lo
            <= (#[trigger] path_points(place_parts(ps, upem, num, den, x, ty, sp))[k]).y as int by {
            let pts = path_points(place_parts(ps, upem, num, den, x, ty, sp));
            if k < path_points(head).len() {
                assert(pts[k] == path_points(head)[k]);
            } else {
                assert(pts[k] == path_points(tail)[k - path_points(head).len()]);
            }
        }
    }
}

/// Non-tight Top clearance: every point of the placed annotation lies
/// at or above the base glyph's top edge plus gutter and baseline
/// offset, whatever the cache held — the running target only ever
/// sits at or above this glyph's own requirement.
pub proof fn lemma_top_els_clear_base(
    pp: PlaceParams,
    ps: Seq<Seq<GlyphView>>,
    base: Seq<PathEl>,
    cache: BaselineCache,
    orig_advance: u16,
)
    requires
        pp.wf(),
        !pp.tight,
        parts_wf(ps),
        parts_sized(ps),
        path_within(base, base_coord_max()),
        cache_wf(cache),
    ensures
        forall|k: int|
            0 <= k < path_points(tb_els(pp, ps, base, true, cache, orig_advance)).len()
                ==> bbox_or_zero(crate::path::path_bbox(base)).y1 as int + pp.gu() + pp.bo() <= (
            #[trigger] path_points(tb_els(pp, ps, base, true, cache, orig_advance))[k]).y as int,
{
    let num = pp.num();
    let den = pp.den();
    let bz = bbox_or_zero(crate::path::path_bbox(base));
    assert(1 <= (pp.scale_milli as int) * (pp.main_upem as int) <= scale_num_max())
        by (nonlinear_arith)
        requires
            1 <= pp.scale_milli as int <= scale_milli_max(),
            1 <= pp.main_upem as int <= 0x10000,
    ;
    assert(1 <= 1000 * (pp.ruby_upem as int) <= scale_den_max()) by (nonlinear_arith)
        requires
            1 <= pp.ruby_upem as int <= 0x10000,
    ;
    assert(num == (pp.scale_milli as int) * (pp.main_upem as int));
    assert(den == 1000 * (pp.ruby_upem as int));
    // Bounds on the em-thousandths parameters in design units.
    assert(-0x1_0000_0000 <= (pp.gutter_milli as int) * (pp.main_upem as int) <= 0x1_0000_0000)
        by (nonlinear_arith)
        requires
            -milli_max() <= pp.gutter_milli as int <= milli_max(),
            1 <= pp.main_upem as int <= 0x10000,
    ;
    lemma_div_tz_bound((pp.gutter_milli as int) * (pp.main_upem as int), 1000, 0x1_0000_0000);
    assert(-0x1_0000_0000 <= (pp.baseline_milli as int) * (pp.main_upem as int) <= 0x1_0000_0000)
        by (nonlinear_arith)
        requires
            -milli_max() <= pp.baseline_milli as int <= milli_max(),
            1 <= pp.main_upem as int <= 0x10000,
    ;
    lemma_div_tz_bound((pp.baseline_milli as int) * (pp.main_upem as int), 1000, 0x1_0000_0000);
    assert(-0x1_0000_0000 <= (pp.spacing_milli as int) * (pp.main_upem as int) <= 0x1_0000_0000)
        by (nonlinear_arith)
        requires
            -milli_max() <= pp.spacing_milli as int <= milli_max(),
            1 <= pp.main_upem as int <= 0x10000,
    ;
    lemma_div_tz_bound((pp.spacing_milli as int) * (pp.main_upem as int), 1000, 0x1_0000_0000);
    // The base box is bounded by the base path's coordinate bound.
    crate::path::lemma_path_within_points(base, base_coord_max());
    crate::path::lemma_bbox_within(path_points(base), base_coord_max());
    assert(-base_coord_max() <= bz.y1 as int <= base_coord_max());
    // The annotation outlines' scaled minimum bounds every scaled point.
    assert forall|i: int, j: int|
        0 <= i < ps.len() && 0 <= j < ps[i].len() implies path_within(
        (#[trigger] ps[i][j]).0,
        pen_coord_max(),
    ) by {
        assert(gv_wf(ps[i][j]));
    }
    lemma_parts_points_within(ps, pen_coord_max());
    crate::path::lemma_bbox_within(parts_points(ps), pen_coord_max());
    let ext = ruby_extents_scaled(ps, num, den, pp.ah());
    let lo = ext.0;
    match crate::path::bbox_of_pts(parts_points(ps)) {
        None => {
            assert(lo == 0);
            assert(parts_points(ps).len() == 0);
        },
        Some(b) => {
            assert(lo == scale_tz(b.y0 as int, num, den));
            assert(-0x800_0000_0000_0000 <= (b.y0 as int) * num <= 0x800_0000_0000_0000)
                by (nonlinear_arith)
                requires
                    -pen_coord_max() <= b.y0 as int <= pen_coord_max(),
                    1 <= num <= scale_num_max(),
            ;
            lemma_div_tz_bound((b.y0 as int) * num, den, 0x800_0000_0000_0000);
            assert forall|k: int|
                0 <= k < parts_points(ps).len() implies lo <= scale_tz(
                (#[trigger] parts_points(ps)[k]).y as int,
                num,
                den,
            ) by {
                crate::path::lemma_bbox_of_pts_contains(parts_points(ps), k);
                crate::fixed::lemma_scale_tz_monotone(
                    b.y0 as int,
                    parts_points(ps)[k].y as int,
                    num,
                    den,
                );
            }
        },
    }
    assert(-0x800_0000_0000_0000 <= lo <= 0x800_0000_0000_0000);
    // The emitted target sits at or above this glyph's requirement.
    let req = tb_required(pp, ps, base, true);
    let ty = tb_target(pp, ps, base, true, cache);
    assert(req == bz.y1 as int + pp.gu() + pp.bo() - lo);
    assert(ty >= req);
    assert(-trans_max() <= ty <= trans_max());
    // The starting pen position is far inside the translation range.
    let sp = pp.sp();
    let x0 = tb_x0(pp, ps, orig_advance);
    lemma_rows_shift_bound(ps, pp.ruby_upem, num, den, sp, 0x1_0000_0000);
    lemma_count_nonneg(ps);
    assert(parts_glyph_count(ps) * scaled_adv_max() <= 1024 * scaled_adv_max())
        by (nonlinear_arith)
        requires
            parts_glyph_count(ps) <= 1024,
    ;
    assert(0 <= parts_glyph_count(ps) * scaled_adv_max()) by (nonlinear_arith)
        requires
            0 <= parts_glyph_count(ps),
    ;
    assert(0 <= ps.len() * 0x1_0000_0000 <= 1024 * 0x1_0000_0000) by (nonlinear_arith)
        requires
            0 <= ps.len() <= 1024,
    ;
    let rsh = rows_shift(ps, pp.ruby_upem, num, den, sp);
    assert(-(ps.len() * 0x1_0000_0000) <= rsh <= parts_glyph_count(ps) * scaled_adv_max()
        + ps.len() * 0x1_0000_0000);
    assert(-0x1_0000_0000 <= sp <= 0x1_0000_0000);
    let tw = total_width(ps, pp.ruby_upem, num, den, sp);
    assert(-0x80_0000_0000_0000 <= tw <= 0x80_0000_0000_0000);
    lemma_div_tz_bound(orig_advance as int - tw, 2, 0x81_0000_0000_0000);
    assert(-0x81_0000_0000_0000 <= x0 <= 0x81_0000_0000_0000);
    lemma_place_parts_y_above(ps, pp.ruby_upem, num, den, x0, ty, sp, lo);
    assert forall|k: int|
        0 <= k < path_points(tb_els(pp, ps, base, true, cache, orig_advance)).len() implies bz.y1
        as int + pp.gu() + pp.bo() <= (#[trigger] path_points(
        tb_els(pp, ps, base, true, cache, orig_advance),
    )[k]).y as int by {
        assert(tb_els(pp, ps, base, true, cache, orig_advance) == place_parts(
            ps,
            pp.ruby_upem,
            num,
            den,
            x0,
            ty,
            sp,
        ));
        assert(ty + lo <= path_points(place_parts(ps, pp.ruby_upem, num, den, x0, ty, sp))[k].y
            as int);
    }
}

} // verus!
