//! Re-encoding a path as a classic simple glyph: contours are gathered
//! from the path's subpaths, every point carries an on-curve flag, and
//! the record is serialized big-endian with long (16-bit) deltas.
//! Cubic segments and out-of-range coordinates cannot be represented
//! and make encoding fail; the caller degrades such a glyph to empty.

use vstd::prelude::*;

use crate::path::PathEl;

verus! {

/// One gathered point: x, y, and whether it lies on the curve.
pub type GlyfPt = (i64, i64, bool);

/// Gather the remaining elements into contours. `done` holds finished
/// contours, `cur` the open one. A segment before any `MoveTo`, or a
/// cubic segment, cannot be encoded.
pub open spec fn gather_rest(
    els: Seq<PathEl>,
    done: Seq<Seq<GlyfPt>>,
    cur: Option<Seq<GlyfPt>>,
) -> Option<Seq<Seq<GlyfPt>>>
    decreases els.len(),
{
    if els.len() == 0 {
        match cur {
            None => Some(done),
            Some(c) => Some(done.push(c)),
        }
    } else {
        match els[0] {
            PathEl::MoveTo(p) => {
                let done2 = match cur {
                    None => done,
                    Some(c) => done.push(c),
                };
                gather_rest(els.skip(1), done2, Some(seq![(p.x, p.y, true)]))
            },
            PathEl::LineTo(p) => match cur {
                None => None,
                Some(c) => gather_rest(els.skip(1), done, Some(c.push((p.x, p.y, true)))),
            },
            PathEl::QuadTo(c0, p) => match cur {
                None => None,
                Some(c) => gather_rest(
                    els.skip(1),
                    done,
                    Some(c.push((c0.x, c0.y, false)).push((p.x, p.y, true))),
                ),
            },
            PathEl::CurveTo(_, _, _) => None,
            PathEl::Close => match cur {
                None => gather_rest(els.skip(1), done, None),
                Some(c) => gather_rest(els.skip(1), done.push(c), None),
            },
        }
    }
}

/// The contours of a path, outermost structure of a simple glyph.
pub open spec fn glyph_contours(path: Seq<PathEl>) -> Option<Seq<Seq<GlyfPt>>> {
    gather_rest(path, Seq::empty(), None)
}

pub open spec fn contours_points(cs: Seq<Seq<GlyfPt>>) -> Seq<GlyfPt>
    decreases cs.len(),
{
    if cs.len() == 0 {
        Seq::empty()
    } else {
        cs[0] + contours_points(cs.skip(1))
    }
}

/// Big-endian bytes of an unsigned 16-bit value.
pub open spec fn u16_be(v: int) -> Seq<u8> {
    seq![((v / 256) % 256) as u8, (v % 256) as u8]
}

/// Big-endian bytes of a signed 16-bit value, two's complement.
pub open spec fn i16_be(v: int) -> Seq<u8> {
    if v >= 0 {
        u16_be(v)
    } else {
        u16_be(v + 0x10000)
    }
}

/// Big-endian bytes of an unsigned 32-bit value.
pub open spec fn u32_be(v: int) -> Seq<u8> {
    seq![
        ((v / 0x1000000) % 256) as u8,
        ((v / 0x10000) % 256) as u8,
        ((v / 256) % 256) as u8,
        (v % 256) as u8,
    ]
}

/// A coordinate representable in the glyph record.
pub open spec fn fits_i16(v: int) -> bool {
    -0x8000 <= v < 0x8000
}

/// End-point indices of the contours: the running point count, minus
/// one, after each contour.
pub open spec fn end_pts_bytes(cs: Seq<Seq<GlyfPt>>, before: int) -> Seq<u8>
    decreases cs.len(),
{
    if cs.len() == 0 {
        Seq::empty()
    } else {
        u16_be(before + cs[0].len() - 1) + end_pts_bytes(cs.skip(1), before + cs[0].len())
    }
}

/// One flag byte per point; bit 0 set for an on-curve point.
pub open spec fn flag_bytes(pts: Seq<GlyfPt>) -> Seq<u8> {
    pts.map_values(
        |p: GlyfPt|
            if p.2 {
                1u8
            } else {
                0u8
            },
    )
}

/// X coordinates as 16-bit deltas from the previous point.
pub open spec fn x_delta_bytes(pts: Seq<GlyfPt>, prev: int) -> Seq<u8>
    decreases pts.len(),
{
    if pts.len() == 0 {
        Seq::empty()
    } else {
        i16_be(pts[0].0 - prev) + x_delta_bytes(pts.skip(1), pts[0].0 as int)
    }
}

/// Y coordinates as 16-bit deltas from the previous point.
pub open spec fn y_delta_bytes(pts: Seq<GlyfPt>, prev: int) -> Seq<u8>
    decreases pts.len(),
{
    if pts.len() == 0 {
        Seq::empty()
    } else {
        i16_be(pts[0].1 - prev) + y_delta_bytes(pts.skip(1), pts[0].1 as int)
    }
}

pub open spec fn deltas_fit(vals: Seq<int>, prev: int) -> bool
    decreases vals.len(),
{
    if vals.len() == 0 {
        true
    } else {
        fits_i16(vals[0] - prev) && deltas_fit(vals.skip(1), vals[0])
    }
}

pub open spec fn xs_of(pts: Seq<GlyfPt>) -> Seq<int> {
    pts.map_values(|p: GlyfPt| p.0 as int)
}

pub open spec fn ys_of(pts: Seq<GlyfPt>) -> Seq<int> {
    pts.map_values(|p: GlyfPt| p.1 as int)
}

/// Least x among the points (they are nonempty when used).
pub open spec fn min_of(vals: Seq<int>) -> int
    decreases vals.len(),
{
    if vals.len() <= 1 {
        vals[0]
    } else {
        let rest = min_of(vals.skip(1));
        if vals[0] <= rest {
            vals[0]
        } else {
            rest
        }
    }
}

pub open spec fn max_of(vals: Seq<int>) -> int
    decreases vals.len(),
{
    if vals.len() <= 1 {
        vals[0]
    } else {
        let rest = max_of(vals.skip(1));
        if vals[0] >= rest {
            vals[0]
        } else {
            rest
        }
    }
}

/// Whether the gathered contours can be encoded at all: at least one
/// point, counts in range, every coordinate and delta 16-bit.
pub open spec fn encodable(cs: Seq<Seq<GlyfPt>>) -> bool {
    let pts = contours_points(cs);
    &&& 1 <= cs.len() <= 0x7FFF
    &&& 1 <= pts.len() <= 0xFFFF
    &&& forall|i: int|
        0 <= i < pts.len() ==> fits_i16((#[trigger] pts[i]).0 as int) && fits_i16(pts[i].1 as int)
    &&& deltas_fit(xs_of(pts), 0)
    &&& deltas_fit(ys_of(pts), 0)
}

/// The serialized simple glyph: contour count, bounding box, contour
/// end points, no instructions, flags, x deltas, y deltas.
pub open spec fn glyph_bytes(cs: Seq<Seq<GlyfPt>>) -> Seq<u8> {
    let pts = contours_points(cs);
    i16_be(cs.len() as int) + i16_be(min_of(xs_of(pts))) + i16_be(min_of(ys_of(pts))) + i16_be(
        max_of(xs_of(pts)),
    ) + i16_be(max_of(ys_of(pts))) + end_pts_bytes(cs, 0) + u16_be(0) + flag_bytes(pts)
        + x_delta_bytes(pts, 0) + y_delta_bytes(pts, 0)
}

/// What re-encoding a path yields: `None` when the path cannot be
/// represented as a simple glyph (the caller then emits an empty glyph).
pub open spec fn encode_path(path: Seq<PathEl>) -> Option<Seq<u8>> {
    match glyph_contours(path) {
        None => None,
        Some(cs) => if encodable(cs) {
            Some(glyph_bytes(cs))
        } else {
            None
        },
    }
}

} // verus!

verus! {

/// Append the big-endian bytes of an unsigned 16-bit value.
pub fn push_u16_be(out: &mut Vec<u8>, v: u16)
    ensures
        final (out)@ == old(out)@ + u16_be(v as int),
{
    out.push((v / 256) as u8);
    out.push((v % 256) as u8);
    proof {
        assert(final (out)@ =~= old(out)@ + u16_be(v as int));
    }
}

/// Append the big-endian bytes of a signed 16-bit value.
pub fn push_i16_be(out: &mut Vec<u8>, v: i16)
    ensures
        final (out)@ == old(out)@ + i16_be(v as int),
{
    let u: u16 = if v >= 0 {
        v as u16
    } else {
        (v as i32 + 0x10000) as u16
    };
    proof {
        if v >= 0 {
            assert(u as int == v as int);
        } else {
            assert(u as int == v as int + 0x10000);
        }
    }
    push_u16_be(out, u);
}

/// Append the big-endian bytes of an unsigned 32-bit value.
pub fn push_u32_be(out: &mut Vec<u8>, v: u32)
    ensures
        final (out)@ == old(out)@ + u32_be(v as int),
{
    out.push((v / 0x1000000) as u8);
    out.push(((v / 0x10000) % 256) as u8);
    out.push(((v / 256) % 256) as u8);
    out.push((v % 256) as u8);
    proof {
        assert((v as int / 0x1000000) % 256 == v as int / 0x1000000) by {
            assert(v as int / 0x1000000 < 256);
            assert(v as int / 0x1000000 >= 0);
        }
        assert(final (out)@ =~= old(out)@ + u32_be(v as int));
    }
}

/// Gather a path's subpaths into encodable contours.
fn gather_contours(path: &Vec<PathEl>) -> (r: Option<Vec<Vec<GlyfPt>>>)
    ensures
        r is Some <==> glyph_contours(path@) is Some,
        r is Some ==> r->Some_0@.map_values(|v: Vec<GlyfPt>| v@) == glyph_contours(
            path@,
        )->Some_0,
{
    let ghost full = glyph_contours(path@);
    let mut done: Vec<Vec<GlyfPt>> = Vec::new();
    let mut cur: Vec<GlyfPt> = Vec::new();
    let mut open = false;
    let mut i: usize = 0;
    proof {
        assert(path@.skip(0int) =~= path@);
        assert(done@.map_values(|v: Vec<GlyfPt>| v@) =~= Seq::<Seq<GlyfPt>>::empty());
    }
    while i < path.len()
        invariant
            0 <= i <= path.len(),
            full == glyph_contours(path@),
            !open ==> cur@.len() == 0,
            full == gather_rest(
                path@.skip(i as int),
                done@.map_values(|v: Vec<GlyfPt>| v@),
                if open {
                    Some(cur@)
                } else {
                    None
                },
            ),
        decreases path.len() - i,
    {
        let ghost dv = done@.map_values(|v: Vec<GlyfPt>| v@);
        let ghost cv: Option<Seq<GlyfPt>> = if open {
            Some(cur@)
        } else {
            None
        };
        proof {
            assert(path@.skip(i as int)[0] == path@[i as int]);
            assert(path@.skip(i as int).skip(1int) =~= path@.skip(i + 1int));
        }
        match path[i] {
            PathEl::MoveTo(p) => {
                if open {
                    proof {
                        assert(done@.push(cur).map_values(|v: Vec<GlyfPt>| v@) =~= dv.push(cur@));
                    }
                    done.push(cur);
                    cur = Vec::new();
                }
                cur = Vec::new();
                cur.push((p.x, p.y, true));
                open = true;
                proof {
                    assert(cur@ =~= seq![(p.x, p.y, true)]);
                }
            },
            PathEl::LineTo(p) => {
                if !open {
                    return None;
                }
                cur.push((p.x, p.y, true));
            },
            PathEl::QuadTo(c0, p) => {
                if !open {
                    return None;
                }
                cur.push((c0.x, c0.y, false));
                cur.push((p.x, p.y, true));
            },
            PathEl::CurveTo(_, _, _) => {
                return None;
            },
            PathEl::Close => {
                if open {
                    proof {
                        assert(done@.push(cur).map_values(|v: Vec<GlyfPt>| v@) =~= dv.push(cur@));
                    }
                    done.push(cur);
                    cur = Vec::new();
                    open = false;
                }
            },
        }
        i = i + 1;
    }
    proof {
        assert(path@.skip(path@.len() as int) =~= Seq::<PathEl>::empty());
        if open {
            assert(done@.push(cur).map_values(|v: Vec<GlyfPt>| v@) =~= done@.map_values(
                |v: Vec<GlyfPt>| v@,
            ).push(cur@));
        }
    }
    if open {
        done.push(cur);
    }
    Some(done)
}

pub proof fn lemma_contours_points_split(cs: Seq<Seq<GlyfPt>>, j: int)
    requires
        0 <= j <= cs.len(),
    ensures
        contours_points(cs) == contours_points(cs.take(j)) + contours_points(cs.skip(j)),
    decreases j,
{
    if j == 0 {
        assert(cs.take(0int) =~= Seq::<Seq<GlyfPt>>::empty());
        assert(cs.skip(0int) =~= cs);
        assert(contours_points(cs.take(0int)) + contours_points(cs) =~= contours_points(cs));
    } else {
        lemma_contours_points_split(cs.skip(1), j - 1);
        assert(cs.take(j)[0] == cs[0]);
        assert(cs.take(j).skip(1) =~= cs.skip(1).take(j - 1));
        assert(cs.skip(j) =~= cs.skip(1).skip(j - 1));
        assert(cs[0] + (contours_points(cs.skip(1).take(j - 1)) + contours_points(
            cs.skip(1).skip(j - 1),
        )) =~= (cs[0] + contours_points(cs.skip(1).take(j - 1))) + contours_points(
            cs.skip(1).skip(j - 1),
        ));
    }
}

} // verus!

verus! {

/// Re-encode a path as a simple glyph record; `None` when it cannot be
/// represented (cubic segments, a segment outside any contour, no
/// points, or out-of-range coordinates or deltas).
pub fn encode_simple_glyph(path: &Vec<PathEl>) -> (r: Option<Vec<u8>>)
    ensures
        r is Some <==> encode_path(path@) is Some,
        r is Some ==> r->Some_0@ == encode_path(path@)->Some_0,
{
    let contours = match gather_contours(path) {
        None => {
            return None;
        },
        Some(cs) => cs,
    };
    let ghost cs = glyph_contours(path@)->Some_0;
    proof {
        assert(contours@.map_values(|v: Vec<GlyfPt>| v@) == cs);
        assert(contours@.len() == cs.len());
    }
    if contours.len() == 0 || contours.len() > 0x7FFF {
        return None;
    }
    // Flatten the contour points and count them.
    let mut pts: Vec<GlyfPt> = Vec::new();
    let mut ci: usize = 0;
    proof {
        assert(cs.take(0int) =~= Seq::<Seq<GlyfPt>>::empty());
        assert(pts@ =~= contours_points(cs.take(0int)));
    }
    while ci < contours.len()
        invariant
            0 <= ci <= contours.len(),
            cs == contours@.map_values(|v: Vec<GlyfPt>| v@),
            cs.len() == contours@.len(),
            pts@ == contours_points(cs.take(ci as int)),
        decreases contours.len() - ci,
    {
        let part = &contours[ci];
        proof {
            assert(cs[ci as int] == part@);
        }
        let mut gi: usize = 0;
        while gi < part.len()
            invariant
                0 <= gi <= part.len(),
                cs == contours@.map_values(|v: Vec<GlyfPt>| v@),
                cs.len() == contours@.len(),
                ci < contours.len(),
                part@ == cs[ci as int],
                pts@ == contours_points(cs.take(ci as int)) + part@.take(gi as int),
            decreases part.len() - gi,
        {
            pts.push(part[gi]);
            proof {
                assert(part@.take(gi + 1int) =~= part@.take(gi as int).push(part@[gi as int]));
                assert(contours_points(cs.take(ci as int)) + part@.take(gi + 1int) =~= (
                contours_points(cs.take(ci as int)) + part@.take(gi as int)).push(
                    part@[gi as int],
                ));
            }
            gi = gi + 1;
        }
        proof {
            assert(part@.take(part@.len() as int) =~= part@);
            lemma_contours_points_split(cs.take(ci + 1int), ci as int);
            assert(cs.take(ci + 1int).take(ci as int) =~= cs.take(ci as int));
            assert(cs.take(ci + 1int).skip(ci as int) =~= seq![cs[ci as int]]);
            assert(seq![cs[ci as int]].skip(1int) =~= Seq::<Seq<GlyfPt>>::empty());
            assert(contours_points(Seq::<Seq<GlyfPt>>::empty()) == Seq::<GlyfPt>::empty());
            assert(seq![cs[ci as int]][0] == cs[ci as int]);
            assert(contours_points(seq![cs[ci as int]]) =~= cs[ci as int]);
            assert(contours_points(cs.take(ci + 1int)) =~= contours_points(cs.take(ci as int))
                + cs[ci as int]);
        }
        ci = ci + 1;
    }
    proof {
        assert(cs.take(cs.len() as int) =~= cs);
    }
    let ghost spts = contours_points(cs);
    if pts.len() == 0 || pts.len() > 0xFFFF {
        return None;
    }
    // Coordinates must fit 16 bits.
    let mut i: usize = 0;
    while i < pts.len()
        invariant
            0 <= i <= pts.len(),
            pts@ == spts,
            spts == contours_points(cs),
            glyph_contours(path@) == Some(cs),
            forall|j: int|
                0 <= j < i ==> fits_i16((#[trigger] spts[j]).0 as int) && fits_i16(
                    spts[j].1 as int,
                ),
        decreases pts.len() - i,
    {
        let (x, y, _) = pts[i];
        if x < -0x8000 || x >= 0x8000 || y < -0x8000 || y >= 0x8000 {
            proof {
                assert(spts[i as int].0 == x && spts[i as int].1 == y);
                assert(encodable(cs) ==> (fits_i16(contours_points(cs)[i as int].0 as int)
                    && fits_i16(contours_points(cs)[i as int].1 as int)));
                assert(!encodable(cs));
            }
            return None;
        }
        i = i + 1;
    }
    // Deltas must fit 16 bits.
    let mut prev_x: i64 = 0;
    let mut prev_y: i64 = 0;
    let mut i2: usize = 0;
    proof {
        assert(xs_of(spts).skip(0int) =~= xs_of(spts));
        assert(ys_of(spts).skip(0int) =~= ys_of(spts));
    }
    while i2 < pts.len()
        invariant
            0 <= i2 <= pts.len(),
            pts@ == spts,
            spts == contours_points(cs),
            glyph_contours(path@) == Some(cs),
            forall|j: int|
                0 <= j < spts.len() ==> fits_i16((#[trigger] spts[j]).0 as int) && fits_i16(
                    spts[j].1 as int,
                ),
            i2 > 0 ==> prev_x as int == spts[i2 as int - 1].0 as int && prev_y as int
                == spts[i2 as int - 1].1 as int,
            i2 == 0 ==> prev_x == 0 && prev_y == 0,
            -0x8000 <= prev_x < 0x8000 || prev_x == 0,
            -0x8000 <= prev_y < 0x8000 || prev_y == 0,
            deltas_fit(xs_of(spts), 0) == deltas_fit(xs_of(spts).skip(i2 as int), prev_x as int),
            deltas_fit(ys_of(spts), 0) == deltas_fit(ys_of(spts).skip(i2 as int), prev_y as int),
        decreases pts.len() - i2,
    {
        let (x, y, _) = pts[i2];
        proof {
            assert(xs_of(spts).skip(i2 as int)[0] == spts[i2 as int].0 as int);
            assert(xs_of(spts).skip(i2 as int).skip(1int) =~= xs_of(spts).skip(i2 + 1int));
            assert(ys_of(spts).skip(i2 as int)[0] == spts[i2 as int].1 as int);
            assert(ys_of(spts).skip(i2 as int).skip(1int) =~= ys_of(spts).skip(i2 + 1int));
        }
        let dx = x - prev_x;
        let dy = y - prev_y;
        if dx < -0x8000 || dx >= 0x8000 || dy < -0x8000 || dy >= 0x8000 {
            proof {
                assert(spts[i2 as int].0 == x && spts[i2 as int].1 == y);
                if !fits_i16(dx as int) {
                    assert(!deltas_fit(xs_of(spts).skip(i2 as int), prev_x as int));
                    assert(!deltas_fit(xs_of(spts), 0));
                } else {
                    assert(!deltas_fit(ys_of(spts).skip(i2 as int), prev_y as int));
                    assert(!deltas_fit(ys_of(spts), 0));
                }
                assert(!encodable(cs));
            }
            return None;
        }
        prev_x = x;
        prev_y = y;
        i2 = i2 + 1;
    }
    proof {
        assert(xs_of(spts).skip(spts.len() as int) =~= Seq::<int>::empty());
        assert(ys_of(spts).skip(spts.len() as int) =~= Seq::<int>::empty());
        assert(encodable(cs));
    }
    // Bounding box over the points, computed back to front.
    let mut min_x: i64;
    let mut min_y: i64;
    let mut max_x: i64;
    let mut max_y: i64;
    let last = pts[pts.len() - 1];
    min_x = last.0;
    max_x = last.0;
    min_y = last.1;
    max_y = last.1;
    let mut bi: usize = pts.len() - 1;
    proof {
        assert(xs_of(spts).skip(bi as int) =~= seq![spts[bi as int].0 as int]);
        assert(ys_of(spts).skip(bi as int) =~= seq![spts[bi as int].1 as int]);
    }
    while bi > 0
        invariant
            0 <= bi < pts.len(),
            pts@ == spts,
            min_x as int == min_of(xs_of(spts).skip(bi as int)),
            max_x as int == max_of(xs_of(spts).skip(bi as int)),
            min_y as int == min_of(ys_of(spts).skip(bi as int)),
            max_y as int == max_of(ys_of(spts).skip(bi as int)),
        decreases bi,
    {
        bi = bi - 1;
        let (x, y, _) = pts[bi];
        proof {
            assert(xs_of(spts).skip(bi as int)[0] == spts[bi as int].0 as int);
            assert(xs_of(spts).skip(bi as int).skip(1int) =~= xs_of(spts).skip(bi + 1int));
            assert(xs_of(spts).skip(bi as int).len() == spts.len() - bi as int);
            assert(ys_of(spts).skip(bi as int)[0] == spts[bi as int].1 as int);
            assert(ys_of(spts).skip(bi as int).skip(1int) =~= ys_of(spts).skip(bi + 1int));
        }
        if x < min_x {
            min_x = x;
        }
        if x > max_x {
            max_x = x;
        }
        if y < min_y {
            min_y = y;
        }
        if y > max_y {
            max_y = y;
        }
    }
    proof {
        assert(xs_of(spts).skip(0int) =~= xs_of(spts));
        assert(ys_of(spts).skip(0int) =~= ys_of(spts));
        // the box corners are coordinates of points, so they fit
        lemma_min_max_fit(xs_of(spts));
        lemma_min_max_fit(ys_of(spts));
    }
    // Serialize.
    let mut out: Vec<u8> = Vec::new();
    push_i16_be(&mut out, contours.len() as i16);
    push_i16_be(&mut out, min_x as i16);
    push_i16_be(&mut out, min_y as i16);
    push_i16_be(&mut out, max_x as i16);
    push_i16_be(&mut out, max_y as i16);
    let ghost header = i16_be(cs.len() as int) + i16_be(min_of(xs_of(spts))) + i16_be(
        min_of(ys_of(spts)),
    ) + i16_be(max_of(xs_of(spts))) + i16_be(max_of(ys_of(spts)));
    proof {
        assert(out@ =~= header);
    }
    // Contour end points.
    let mut count: usize = 0;
    let mut ei: usize = 0;
    proof {
        assert(cs.skip(0int) =~= cs);
        assert(out@ =~= header + end_pts_bytes(cs, 0).take(0int));
        lemma_gather_nonempty(path@, Seq::empty(), None);
        assert(end_pts_bytes(cs.take(0int), 0) =~= Seq::<u8>::empty());
        assert(out@ =~= header + end_pts_bytes(cs.take(0int), 0));
    }
    while ei < contours.len()
        invariant
            0 <= ei <= contours.len(),
            cs == contours@.map_values(|v: Vec<GlyfPt>| v@),
            cs.len() == contours@.len(),
            spts == contours_points(cs),
            spts.len() <= 0xFFFF,
            count == contours_points(cs.take(ei as int)).len(),
            count <= spts.len(),
            out@ == header + end_pts_bytes(cs.take(ei as int), 0),
            end_pts_bytes(cs, 0) == end_pts_bytes(cs.take(ei as int), 0) + end_pts_bytes(
                cs.skip(ei as int),
                count as int,
            ),
            forall|k: int| 0 <= k < cs.len() ==> (#[trigger] cs[k]).len() >= 1,
        decreases contours.len() - ei,
    {
        let clen = contours[ei].len();
        proof {
            assert(cs[ei as int] == contours@[ei as int]@);
            assert(cs.skip(ei as int)[0] == cs[ei as int]);
            assert(cs.skip(ei as int).skip(1int) =~= cs.skip(ei + 1int));
            // running count stays within the total
            lemma_contours_points_split(cs, ei + 1int);
            assert(cs.take(ei + 1int).take(ei as int) =~= cs.take(ei as int));
            lemma_contours_points_split(cs.take(ei + 1int), ei as int);
            assert(cs.take(ei + 1int).skip(ei as int) =~= seq![cs[ei as int]]);
            assert(seq![cs[ei as int]].skip(1int) =~= Seq::<Seq<GlyfPt>>::empty());
            assert(contours_points(Seq::<Seq<GlyfPt>>::empty()) == Seq::<GlyfPt>::empty());
            assert(seq![cs[ei as int]][0] == cs[ei as int]);
            assert(contours_points(seq![cs[ei as int]]) =~= cs[ei as int]);
            assert(contours_points(cs.take(ei + 1int)).len() == count + clen);
            lemma_contours_points_split(cs, ei + 1int);
            assert(contours_points(cs.take(ei + 1int)).len() <= spts.len());
        }
        push_u16_be(&mut out, (count + clen - 1) as u16);
        proof {
            lemma_end_pts_split_gen(cs.take(ei + 1int), ei as int, 0);
            assert(end_pts_bytes(Seq::<Seq<GlyfPt>>::empty(), count + clen) == Seq::<u8>::empty());
            assert(seq![cs[ei as int]][0] == cs[ei as int]);
            assert(end_pts_bytes(seq![cs[ei as int]], count as int) =~= u16_be(count + clen - 1));
            assert(end_pts_bytes(cs.take(ei + 1int), 0) =~= end_pts_bytes(cs.take(ei as int), 0)
                + u16_be(count + clen - 1));
            assert(out@ =~= header + end_pts_bytes(cs.take(ei + 1int), 0));
        }
        count = count + clen;
        ei = ei + 1;
    }
    proof {
        assert(cs.take(cs.len() as int) =~= cs);
    }
    // No instructions.
    push_u16_be(&mut out, 0);
    let ghost with_instr = header + end_pts_bytes(cs, 0) + u16_be(0);
    proof {
        assert(out@ =~= with_instr);
    }
    // Flags.
    let mut fi: usize = 0;
    while fi < pts.len()
        invariant
            0 <= fi <= pts.len(),
            pts@ == spts,
            out@ == with_instr + flag_bytes(spts).take(fi as int),
        decreases pts.len() - fi,
    {
        let (_, _, on) = pts[fi];
        out.push(
            if on {
                1u8
            } else {
                0u8
            },
        );
        proof {
            assert(flag_bytes(spts)[fi as int] == (if spts[fi as int].2 {
                1u8
            } else {
                0u8
            }));
            assert(flag_bytes(spts).take(fi + 1int) =~= flag_bytes(spts).take(fi as int).push(
                flag_bytes(spts)[fi as int],
            ));
            assert(out@ =~= with_instr + flag_bytes(spts).take(fi + 1int));
        }
        fi = fi + 1;
    }
    proof {
        assert(flag_bytes(spts).take(spts.len() as int) =~= flag_bytes(spts));
    }
    let ghost with_flags = with_instr + flag_bytes(spts);
    proof {
        assert(out@ =~= with_flags);
    }
    // X deltas.
    let mut px: i64 = 0;
    let mut xi: usize = 0;
    proof {
        assert(spts.skip(0int) =~= spts);
        assert(out@.skip(with_flags.len() as int) =~= Seq::<u8>::empty());
        assert(out@.take(with_flags.len() as int) =~= with_flags);
        assert(Seq::<u8>::empty() + x_delta_bytes(spts, 0) =~= x_delta_bytes(spts, 0));
    }
    while xi < pts.len()
        invariant
            0 <= xi <= pts.len(),
            pts@ == spts,
            forall|j: int|
                0 <= j < spts.len() ==> fits_i16((#[trigger] spts[j]).0 as int) && fits_i16(
                    spts[j].1 as int,
                ),
            deltas_fit(xs_of(spts), 0),
            xi > 0 ==> px as int == spts[xi as int - 1].0 as int,
            xi == 0 ==> px == 0,
            -0x8000 <= px < 0x8000 || px == 0,
            deltas_fit(xs_of(spts).skip(xi as int), px as int),
            x_delta_bytes(spts, 0) == (out@.skip(with_flags.len() as int)) + x_delta_bytes(
                spts.skip(xi as int),
                px as int,
            ),
            out@.len() >= with_flags.len(),
            out@.take(with_flags.len() as int) == with_flags,
        decreases pts.len() - xi,
    {
        let (x, _, _) = pts[xi];
        proof {
            assert(xs_of(spts).skip(xi as int)[0] == spts[xi as int].0 as int);
            assert(xs_of(spts).skip(xi as int).skip(1int) =~= xs_of(spts).skip(xi + 1int));
            assert(spts.skip(xi as int)[0] == spts[xi as int]);
            assert(spts.skip(xi as int).skip(1int) =~= spts.skip(xi + 1int));
        }
        let ghost out0 = out@;
        push_i16_be(&mut out, (x - px) as i16);
        proof {
            assert(out@.skip(with_flags.len() as int) =~= out0.skip(with_flags.len() as int)
                + i16_be(x as int - px as int));
            assert(out@.take(with_flags.len() as int) =~= with_flags);
            assert((out0.skip(with_flags.len() as int) + i16_be(x as int - px as int))
                + x_delta_bytes(spts.skip(xi + 1int), x as int) =~= out0.skip(
                with_flags.len() as int,
            ) + (i16_be(x as int - px as int) + x_delta_bytes(spts.skip(xi + 1int), x as int)));
        }
        px = x;
        xi = xi + 1;
    }
    proof {
        assert(spts.skip(spts.len() as int) =~= Seq::<GlyfPt>::empty());
        assert(x_delta_bytes(Seq::<GlyfPt>::empty(), px as int) =~= Seq::<u8>::empty());
        assert(out@.skip(with_flags.len() as int) + Seq::<u8>::empty() =~= out@.skip(
            with_flags.len() as int,
        ));
        assert(out@ =~= out@.take(with_flags.len() as int) + out@.skip(with_flags.len() as int));
        assert(out@ =~= with_flags + x_delta_bytes(spts, 0));
    }
    let ghost with_x = with_flags + x_delta_bytes(spts, 0);
    // Y deltas.
    let mut py: i64 = 0;
    let mut yi: usize = 0;
    proof {
        assert(spts.skip(0int) =~= spts);
        assert(out@.skip(with_x.len() as int) =~= Seq::<u8>::empty());
        assert(out@.take(with_x.len() as int) =~= with_x);
        assert(Seq::<u8>::empty() + y_delta_bytes(spts, 0) =~= y_delta_bytes(spts, 0));
    }
    while yi < pts.len()
        invariant
            0 <= yi <= pts.len(),
            pts@ == spts,
            forall|j: int|
                0 <= j < spts.len() ==> fits_i16((#[trigger] spts[j]).0 as int) && fits_i16(
                    spts[j].1 as int,
                ),
            deltas_fit(ys_of(spts), 0),
            yi > 0 ==> py as int == spts[yi as int - 1].1 as int,
            yi == 0 ==> py == 0,
            -0x8000 <= py < 0x8000 || py == 0,
            deltas_fit(ys_of(spts).skip(yi as int), py as int),
            y_delta_bytes(spts, 0) == (out@.skip(with_x.len() as int)) + y_delta_bytes(
                spts.skip(yi as int),
                py as int,
            ),
            out@.len() >= with_x.len(),
            out@.take(with_x.len() as int) == with_x,
        decreases pts.len() - yi,
    {
        let (_, y, _) = pts[yi];
        proof {
            assert(ys_of(spts).skip(yi as int)[0] == spts[yi as int].1 as int);
            assert(ys_of(spts).skip(yi as int).skip(1int) =~= ys_of(spts).skip(yi + 1int));
            assert(spts.skip(yi as int)[0] == spts[yi as int]);
            assert(spts.skip(yi as int).skip(1int) =~= spts.skip(yi + 1int));
        }
        let ghost out0 = out@;
        push_i16_be(&mut out, (y - py) as i16);
        proof {
            assert(out@.skip(with_x.len() as int) =~= out0.skip(with_x.len() as int) + i16_be(
                y as int - py as int,
            ));
            assert(out@.take(with_x.len() as int) =~= with_x);
            assert((out0.skip(with_x.len() as int) + i16_be(y as int - py as int)) + y_delta_bytes(
                spts.skip(yi + 1int),
                y as int,
            ) =~= out0.skip(with_x.len() as int) + (i16_be(y as int - py as int) + y_delta_bytes(
                spts.skip(yi + 1int),
                y as int,
            )));
        }
        py = y;
        yi = yi + 1;
    }
    proof {
        assert(spts.skip(spts.len() as int) =~= Seq::<GlyfPt>::empty());
        assert(y_delta_bytes(Seq::<GlyfPt>::empty(), py as int) =~= Seq::<u8>::empty());
        assert(out@.skip(with_x.len() as int) + Seq::<u8>::empty() =~= out@.skip(
            with_x.len() as int,
        ));
        assert(out@ =~= out@.take(with_x.len() as int) + out@.skip(with_x.len() as int));
        assert(out@ =~= with_x + y_delta_bytes(spts, 0));
        assert(out@ =~= glyph_bytes(cs));
    }
    Some(out)
}

/// The extremes of a list of 16-bit values are 16-bit.
proof fn lemma_min_max_fit(vals: Seq<int>)
    requires
        vals.len() >= 1,
        forall|j: int| 0 <= j < vals.len() ==> fits_i16(#[trigger] vals[j]),
    ensures
        fits_i16(min_of(vals)),
        fits_i16(max_of(vals)),
    decreases vals.len(),
{
    if vals.len() > 1 {
        let rest = vals.skip(1);
        assert forall|j: int| 0 <= j < rest.len() implies fits_i16(#[trigger] rest[j]) by {
            assert(rest[j] == vals[j + 1]);
        }
        lemma_min_max_fit(rest);
    }
}

/// Splitting the end-point bytes at a contour boundary.
proof fn lemma_end_pts_split(cs: Seq<Seq<GlyfPt>>, j: int)
    requires
        0 <= j <= cs.len(),
    ensures
        end_pts_bytes(cs, 0) == end_pts_bytes(cs.take(j), 0) + end_pts_bytes(
            cs.skip(j),
            contours_points(cs.take(j)).len() as int,
        ),
{
    lemma_end_pts_split_gen(cs, j, 0);
}

proof fn lemma_end_pts_split_gen(cs: Seq<Seq<GlyfPt>>, j: int, before: int)
    requires
        0 <= j <= cs.len(),
    ensures
        end_pts_bytes(cs, before) == end_pts_bytes(cs.take(j), before) + end_pts_bytes(
            cs.skip(j),
            before + contours_points(cs.take(j)).len(),
        ),
    decreases j,
{
    if j == 0 {
        assert(cs.take(0int) =~= Seq::<Seq<GlyfPt>>::empty());
        assert(cs.skip(0int) =~= cs);
        assert(contours_points(cs.take(0int)).len() == 0);
        assert(end_pts_bytes(cs.take(0int), before) + end_pts_bytes(cs, before) =~= end_pts_bytes(
            cs,
            before,
        ));
    } else {
        lemma_end_pts_split_gen(cs.skip(1), j - 1, before + cs[0].len());
        assert(cs.take(j)[0] == cs[0]);
        assert(cs.take(j).skip(1) =~= cs.skip(1).take(j - 1));
        assert(cs.skip(j) =~= cs.skip(1).skip(j - 1));
        lemma_contours_points_split(cs.take(j), 1int);
        assert(cs.take(j).take(1int) =~= seq![cs[0]]);
        assert(seq![cs[0]].skip(1int) =~= Seq::<Seq<GlyfPt>>::empty());
        assert(contours_points(Seq::<Seq<GlyfPt>>::empty()) == Seq::<GlyfPt>::empty());
        assert(seq![cs[0]][0] == cs[0]);
        assert(contours_points(seq![cs[0]]) =~= cs[0]);
        assert(contours_points(cs.take(j)).len() == cs[0].len() + contours_points(
            cs.skip(1).take(j - 1),
        ).len());
        assert(u16_be(before + cs[0].len() - 1) + (end_pts_bytes(cs.skip(1).take(j - 1), before
            + cs[0].len()) + end_pts_bytes(
            cs.skip(1).skip(j - 1),
            before + cs[0].len() + contours_points(cs.skip(1).take(j - 1)).len(),
        )) =~= (u16_be(before + cs[0].len() - 1) + end_pts_bytes(
            cs.skip(1).take(j - 1),
            before + cs[0].len(),
        )) + end_pts_bytes(
            cs.skip(1).skip(j - 1),
            before + cs[0].len() + contours_points(cs.skip(1).take(j - 1)).len(),
        ));
    }
}

} // verus!

verus! {

/// Every contour the gatherer emits holds at least its starting point.
proof fn lemma_gather_nonempty(els: Seq<PathEl>, done: Seq<Seq<GlyfPt>>, cur: Option<Seq<GlyfPt>>)
    requires
        forall|k: int| 0 <= k < done.len() ==> (#[trigger] done[k]).len() >= 1,
        cur is Some ==> cur->Some_0.len() >= 1,
    ensures
        gather_rest(els, done, cur) is Some ==> forall|k: int|
            0 <= k < gather_rest(els, done, cur)->Some_0.len() ==> (#[trigger] gather_rest(
                els,
                done,
                cur,
            )->Some_0[k]).len() >= 1,
    decreases els.len(),
{
    if els.len() == 0 {
        if cur is Some {
            let r = done.push(cur->Some_0);
            assert forall|k: int| 0 <= k < r.len() implies (#[trigger] r[k]).len() >= 1 by {
                if k < done.len() {
                    assert(r[k] == done[k]);
                } else {
                    assert(r[k] == cur->Some_0);
                }
            }
        }
    } else {
        match els[0] {
            PathEl::MoveTo(p) => {
                let done2 = match cur {
                    None => done,
                    Some(c) => done.push(c),
                };
                assert forall|k: int| 0 <= k < done2.len() implies (#[trigger] done2[k]).len()
                    >= 1 by {
                    if k < done.len() {
                        assert(done2[k] == done[k]);
                    }
                }
                lemma_gather_nonempty(els.skip(1), done2, Some(seq![(p.x, p.y, true)]));
            },
            PathEl::LineTo(p) => {
                if cur is Some {
                    lemma_gather_nonempty(
                        els.skip(1),
                        done,
                        Some(cur->Some_0.push((p.x, p.y, true))),
                    );
                }
            },
            PathEl::QuadTo(c0, p) => {
                if cur is Some {
                    lemma_gather_nonempty(
                        els.skip(1),
                        done,
                        Some(cur->Some_0.push((c0.x, c0.y, false)).push((p.x, p.y, true))),
                    );
                }
            },
            PathEl::CurveTo(_, _, _) => {
            },
            PathEl::Close => {
                match cur {
                    None => {
                        lemma_gather_nonempty(els.skip(1), done, None);
                    },
                    Some(c) => {
                        let done2 = done.push(c);
                        assert forall|k: int|
                            0 <= k < done2.len() implies (#[trigger] done2[k]).len() >= 1 by {
                            if k < done.len() {
                                assert(done2[k] == done[k]);
                            }
                        }
                        lemma_gather_nonempty(els.skip(1), done2, None);
                    },
                }
            },
        }
    }
}

} // verus!
