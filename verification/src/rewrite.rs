//! The font rewriter: every glyph of one font is drawn, annotated by
//! each configured renderer, and re-encoded as a simple glyph; the
//! outline tables are rebuilt and every other table copied, with `head`
//! patched and, on request, `name` replaced.

use vstd::prelude::*;

use crate::glyf::{encode_path, u16_be, u32_be};
use crate::path::{path_within, PathEl};
use crate::placement::{base_coord_max, BaselineCache, GlyphView};
use crate::renderer::{char_in_ranges, renderer_ranges, RubyFont, RubyRenderer};
use crate::tables::{
    byte_or_zero, checksum_of, glyf_tag, head_tag, loca_tag, name_tag, name_table_bytes,
    patched_head, tables_view, RawTable, TableView,
};

verus! {

/// What the rewriter needs of one glyph of the source font: whether
/// drawing its outline failed, whatever outline was accumulated, its
/// advance width (`None` when the metric is missing), and its mapped
/// character, if any.
pub struct GlyphInput {
    pub draw_failed: bool,
    pub path: Vec<PathEl>,
    pub advance: Option<u16>,
    pub ch: Option<char>,
}

/// The abstract value of a glyph input.
pub type GlyphInView = (bool, Seq<PathEl>, Option<u16>, Option<char>);

impl View for GlyphInput {
    type V = GlyphInView;

    open spec fn view(&self) -> GlyphInView {
        (self.draw_failed, self.path@, self.advance, self.ch)
    }
}

pub open spec fn glyphs_in_view(gs: Seq<GlyphInput>) -> Seq<GlyphInView> {
    gs.map_values(|g: GlyphInput| g@)
}

/// The abstract value of an annotation font.
pub type FontDataView = (u16, Seq<(char, GlyphView)>);

pub open spec fn fonts_data_view(fs: Seq<RubyFont>) -> Seq<FontDataView> {
    fs.map_values(|f: RubyFont| (f.upem, crate::renderer::font_view(f.glyphs@)))
}

/// Why a font cannot be rewritten.
#[derive(Clone, Copy, Debug, PartialEq, Eq, Structural)]
pub enum RewriteError {
    /// The font has no `head` table.
    MissingHead,
    /// The `head` table is too short or declares no units-per-em.
    MalformedHead,
    /// A table or the rebuilt outline data exceeds the 32-bit format limit.
    Oversize,
}

/// Largest table size the rewriter accepts: offsets and checksums are
/// 32-bit.
pub open spec fn table_size_max() -> int {
    0xFFFF_FFF0
}

/// First table with the given tag.
pub open spec fn find_tag(ts: Seq<TableView>, tag: int) -> Option<TableView>
    decreases ts.len(),
{
    if ts.len() == 0 {
        None
    } else if ts[0].0 as int == tag {
        Some(ts[0])
    } else {
        find_tag(ts.skip(1), tag)
    }
}

/// The units-per-em a `head` table declares.
pub open spec fn upem_of(head: Seq<u8>) -> int {
    byte_or_zero(head, 18) * 256 + byte_or_zero(head, 19)
}

/// Insert a table before the first strictly greater tag, after equal ones.
pub open spec fn insert_by_tag(t: TableView, ts: Seq<TableView>) -> Seq<TableView>
    decreases ts.len(),
{
    if ts.len() == 0 {
        seq![t]
    } else if ts[0].0 <= t.0 {
        seq![ts[0]] + insert_by_tag(t, ts.skip(1))
    } else {
        seq![t] + ts
    }
}

pub open spec fn sort_acc(ts: Seq<TableView>, acc: Seq<TableView>) -> Seq<TableView>
    decreases ts.len(),
{
    if ts.len() == 0 {
        acc
    } else {
        sort_acc(ts.skip(1), insert_by_tag(ts[0], acc))
    }
}

/// The tables in ascending tag order (stable).
pub open spec fn sort_tables(ts: Seq<TableView>) -> Seq<TableView> {
    sort_acc(ts, Seq::empty())
}

/// Positional insertion matches the recursive insertion when `pos` is
/// the first index holding a strictly greater tag.
proof fn lemma_insert_at(ts: Seq<TableView>, t: TableView, pos: int)
    requires
        0 <= pos <= ts.len(),
        forall|j: int| 0 <= j < pos ==> (#[trigger] ts[j]).0 <= t.0,
        pos < ts.len() ==> ts[pos].0 > t.0,
    ensures
        insert_by_tag(t, ts) == ts.insert(pos, t),
    decreases pos,
{
    if pos == 0 {
        if ts.len() == 0 {
            assert(insert_by_tag(t, ts) =~= ts.insert(0, t));
        } else {
            assert(ts[0].0 > t.0);
            assert(seq![t] + ts =~= ts.insert(0, t));
        }
    } else {
        assert(ts[0].0 <= t.0);
        let rest = ts.skip(1);
        assert forall|j: int| 0 <= j < pos - 1 implies (#[trigger] rest[j]).0 <= t.0 by {
            assert(rest[j] == ts[j + 1]);
        }
        assert(pos - 1 < rest.len() ==> rest[pos - 1].0 > t.0);
        lemma_insert_at(rest, t, pos - 1);
        assert(seq![ts[0]] + rest.insert(pos - 1, t) =~= ts.insert(pos, t));
    }
}

/// Insert a table into a tag-sorted list.
fn insert_table(ts: &mut Vec<RawTable>, t: RawTable)
    ensures
        tables_view(final (ts)@) == insert_by_tag(t@, tables_view(old(ts)@)),
{
    let ghost tv = tables_view(old(ts)@);
    let mut pos: usize = 0;
    while pos < ts.len() && ts[pos].tag <= t.tag
        invariant
            0 <= pos <= ts.len(),
            ts@ == old(ts)@,
            tv == tables_view(ts@),
            tv.len() == ts@.len(),
            forall|j: int| 0 <= j < pos ==> (#[trigger] tv[j]).0 <= t@.0,
        decreases ts.len() - pos,
    {
        proof {
            assert(tv[pos as int] == ts@[pos as int]@);
        }
        pos = pos + 1;
    }
    proof {
        if pos < ts@.len() {
            assert(tv[pos as int] == ts@[pos as int]@);
        }
        lemma_insert_at(tv, t@, pos as int);
    }
    let ghost tview = t@;
    ts.insert(pos, t);
    proof {
        assert(tables_view(ts@) =~= tv.insert(pos as int, tview));
    }
}

/// Copy-through of every table that is not rebuilt: `glyf` and `loca`
/// are dropped (rebuilt later), `name` is dropped when an override is
/// requested, `head` is patched, and every kept table gets a freshly
/// computed checksum.
pub open spec fn copied_tables(ts: Seq<TableView>, fmt: int, drop_name: bool) -> Seq<TableView>
    decreases ts.len(),
{
    if ts.len() == 0 {
        Seq::empty()
    } else {
        let t = ts[0];
        let rest = copied_tables(ts.skip(1), fmt, drop_name);
        if t.0 as int == glyf_tag() || t.0 as int == loca_tag() || (drop_name && t.0 as int
            == name_tag()) {
            rest
        } else if t.0 as int == head_tag() {
            seq![
                (
                    t.0,
                    checksum_of(patched_head(t.2, fmt)) as u32,
                    patched_head(t.2, fmt),
                ),
            ] + rest
        } else {
            seq![(t.0, checksum_of(t.2) as u32, t.2)] + rest
        }
    }
}

/// Every table of `ts` is within the 32-bit size limit.
pub open spec fn tables_sized(ts: Seq<TableView>) -> bool {
    forall|i: int| 0 <= i < ts.len() ==> (#[trigger] ts[i]).2.len() <= table_size_max()
}

} // verus!

verus! {

/// A glyph's bytes padded to even length, so every loca offset is even.
pub open spec fn pad2(b: Seq<u8>) -> Seq<u8> {
    if b.len() % 2 == 0 {
        b
    } else {
        b.push(0)
    }
}

/// The rebuilt `glyf` table: every glyph's record, padded.
pub open spec fn glyf_data(gbs: Seq<Seq<u8>>) -> Seq<u8>
    decreases gbs.len(),
{
    if gbs.len() == 0 {
        Seq::empty()
    } else {
        pad2(gbs[0]) + glyf_data(gbs.skip(1))
    }
}

/// The rebuilt `loca` table: one offset entry per glyph plus a final
/// end offset; 16-bit half-offsets in the short format, 32-bit
/// offsets in the long one.
pub open spec fn loca_bytes(gbs: Seq<Seq<u8>>, before: int, short: bool) -> Seq<u8>
    decreases gbs.len(),
{
    let entry = if short {
        u16_be(before / 2)
    } else {
        u32_be(before)
    };
    if gbs.len() == 0 {
        entry
    } else {
        entry + loca_bytes(gbs.skip(1), before + pad2(gbs[0]).len(), short)
    }
}

/// The short format is chosen exactly when every half-offset fits 16 bits.
pub open spec fn loca_short(gbs: Seq<Seq<u8>>) -> bool {
    glyf_data(gbs).len() <= 0x1FFFE
}

pub proof fn lemma_glyf_data_split(gbs: Seq<Seq<u8>>, j: int)
    requires
        0 <= j <= gbs.len(),
    ensures
        glyf_data(gbs) == glyf_data(gbs.take(j)) + glyf_data(gbs.skip(j)),
    decreases j,
{
    if j == 0 {
        assert(gbs.take(0int) =~= Seq::<Seq<u8>>::empty());
        assert(gbs.skip(0int) =~= gbs);
        assert(glyf_data(gbs.take(0int)) + glyf_data(gbs) =~= glyf_data(gbs));
    } else {
        lemma_glyf_data_split(gbs.skip(1), j - 1);
        assert(gbs.take(j)[0] == gbs[0]);
        assert(gbs.take(j).skip(1) =~= gbs.skip(1).take(j - 1));
        assert(gbs.skip(j) =~= gbs.skip(1).skip(j - 1));
        assert(pad2(gbs[0]) + (glyf_data(gbs.skip(1).take(j - 1)) + glyf_data(
            gbs.skip(1).skip(j - 1),
        )) =~= (pad2(gbs[0]) + glyf_data(gbs.skip(1).take(j - 1))) + glyf_data(
            gbs.skip(1).skip(j - 1),
        ));
    }
}

/// Build the `glyf` and `loca` tables from the per-glyph records;
/// fails only when the rebuilt data exceeds the 32-bit limit.
fn build_glyf_loca(gbs: &Vec<Vec<u8>>) -> (r: Result<(Vec<u8>, Vec<u8>, u16), RewriteError>)
    ensures
        ({
            let view = gbs@.map_values(|b: Vec<u8>| b@);
            match r {
                Ok((glyf, loca, fmt)) => {
                    &&& glyf_data(view).len() <= table_size_max()
                    &&& glyf@ == glyf_data(view)
                    &&& loca@ == loca_bytes(view, 0, loca_short(view))
                    &&& fmt == (if loca_short(view) {
                        0u16
                    } else {
                        1u16
                    })
                },
                Err(e) => {
                    &&& e == RewriteError::Oversize
                    &&& glyf_data(view).len() > table_size_max()
                },
            }
        }),
{
    let ghost view = gbs@.map_values(|b: Vec<u8>| b@);
    let mut glyf: Vec<u8> = Vec::new();
    let mut offs: Vec<u32> = Vec::new();
    let mut i: usize = 0;
    proof {
        assert(view.take(0int) =~= Seq::<Seq<u8>>::empty());
        assert(glyf@ =~= glyf_data(view.take(0int)));
    }
    while i < gbs.len()
        invariant
            0 <= i <= gbs.len(),
            view == gbs@.map_values(|b: Vec<u8>| b@),
            view.len() == gbs@.len(),
            glyf@ == glyf_data(view.take(i as int)),
            glyf@.len() <= table_size_max(),
            offs@.len() == i,
            forall|k: int|
                0 <= k < i ==> (#[trigger] offs@[k]) as int == glyf_data(view.take(k)).len(),
        decreases gbs.len() - i,
    {
        proof {
            assert(view[i as int] == gbs@[i as int]@);
        }
        let blen = gbs[i].len();
        if blen > 0xFFFF_FFF0 - glyf.len() || blen + blen % 2 > 0xFFFF_FFF0 - glyf.len() {
            proof {
                lemma_glyf_big(view, i as int);
            }
            return Err(RewriteError::Oversize);
        }
        offs.push(glyf.len() as u32);
        let ghost glyf0 = glyf@;
        crate::tables::append_bytes(&mut glyf, &gbs[i]);
        if gbs[i].len() % 2 == 1 {
            glyf.push(0);
        }
        proof {
            assert(glyf@ =~= glyf0 + pad2(view[i as int]));
            lemma_glyf_data_split(view.take(i + 1int), i as int);
            assert(view.take(i + 1int).take(i as int) =~= view.take(i as int));
            assert(view.take(i + 1int).skip(i as int) =~= seq![view[i as int]]);
            assert(seq![view[i as int]].skip(1int) =~= Seq::<Seq<u8>>::empty());
            assert(glyf_data(Seq::<Seq<u8>>::empty()) == Seq::<u8>::empty());
            assert(seq![view[i as int]][0] == view[i as int]);
            assert(glyf_data(seq![view[i as int]]) =~= pad2(view[i as int]) + Seq::<u8>::empty());
            assert(glyf_data(seq![view[i as int]]) =~= pad2(view[i as int]));
            assert(glyf_data(view.take(i + 1int)) =~= glyf_data(view.take(i as int)) + pad2(
                view[i as int],
            ));
        }
        i = i + 1;
    }
    proof {
        assert(view.take(view.len() as int) =~= view);
    }
    // Choose the offset format and write the index.
    let total = glyf.len();
    let short = total <= 0x1FFFE;
    let fmt: u16 = if short {
        0
    } else {
        1
    };
    let mut loca: Vec<u8> = Vec::new();
    let mut k: usize = 0;
    proof {
        assert(view.skip(0int) =~= view);
        assert(Seq::<u8>::empty() + loca_bytes(view, 0, short) =~= loca_bytes(view, 0, short));
        assert(glyf_data(view.take(0int)).len() == 0);
    }
    while k < offs.len()
        invariant
            0 <= k <= offs.len(),
            view == gbs@.map_values(|b: Vec<u8>| b@),
            view.len() == gbs@.len(),
            offs@.len() == view.len(),
            short == loca_short(view),
            glyf@ == glyf_data(view),
            glyf@.len() <= table_size_max(),
            forall|j: int|
                0 <= j < offs@.len() ==> (#[trigger] offs@[j]) as int == glyf_data(
                    view.take(j),
                ).len(),
            loca_bytes(view, 0, short) == loca@ + loca_bytes(
                view.skip(k as int),
                glyf_data(view.take(k as int)).len() as int,
                short,
            ),
        decreases offs.len() - k,
    {
        let off = offs[k];
        let ghost loca0 = loca@;
        let ghost before = glyf_data(view.take(k as int)).len() as int;
        proof {
            assert(off as int == before);
            lemma_glyf_data_split(view, k as int);
            assert(before <= glyf@.len());
            if short {
                assert(before <= 0x1FFFE);
                assert(off / 2 <= 0xFFFF);
            }
            assert(view.skip(k as int)[0] == view[k as int]);
            assert(view.skip(k as int).skip(1int) =~= view.skip(k + 1int));
            lemma_glyf_data_split(view.take(k + 1int), k as int);
            assert(view.take(k + 1int).take(k as int) =~= view.take(k as int));
            assert(view.take(k + 1int).skip(k as int) =~= seq![view[k as int]]);
            assert(seq![view[k as int]].skip(1int) =~= Seq::<Seq<u8>>::empty());
            assert(glyf_data(Seq::<Seq<u8>>::empty()) == Seq::<u8>::empty());
            assert(seq![view[k as int]][0] == view[k as int]);
            assert(glyf_data(seq![view[k as int]]) =~= pad2(view[k as int]));
            assert(glyf_data(view.take(k + 1int)).len() == before + pad2(view[k as int]).len());
        }
        if short {
            crate::glyf::push_u16_be(&mut loca, (off / 2) as u16);
        } else {
            crate::glyf::push_u32_be(&mut loca, off);
        }
        proof {
            let entry: Seq<u8> = if short {
                u16_be(before / 2)
            } else {
                u32_be(before)
            };
            assert(loca@ =~= loca0 + entry);
            assert(loca0 + (entry + loca_bytes(
                view.skip(k + 1int),
                before + pad2(view[k as int]).len(),
                short,
            )) =~= (loca0 + entry) + loca_bytes(
                view.skip(k + 1int),
                before + pad2(view[k as int]).len(),
                short,
            ));
        }
        k = k + 1;
    }
    proof {
        assert(view.skip(view.len() as int) =~= Seq::<Seq<u8>>::empty());
        assert(view.take(view.len() as int) =~= view);
    }
    // Final end offset.
    if short {
        crate::glyf::push_u16_be(&mut loca, (total / 2) as u16);
    } else {
        crate::glyf::push_u32_be(&mut loca, total as u32);
    }
    Ok((glyf, loca, fmt))
}

/// A prefix already over the limit puts the whole table over it.
proof fn lemma_glyf_big(view: Seq<Seq<u8>>, i: int)
    requires
        0 <= i < view.len(),
        glyf_data(view.take(i)).len() + pad2(view[i]).len() > table_size_max(),
    ensures
        glyf_data(view).len() > table_size_max(),
{
    lemma_glyf_data_split(view, i);
    lemma_glyf_data_split(view.skip(i), 1int);
    assert(view.skip(i).take(1int) =~= seq![view[i]]);
    assert(seq![view[i]].skip(1int) =~= Seq::<Seq<u8>>::empty());
    assert(glyf_data(Seq::<Seq<u8>>::empty()) == Seq::<u8>::empty());
    assert(seq![view[i]][0] == view[i]);
    assert(glyf_data(seq![view[i]]) =~= pad2(view[i]));
    assert(view.skip(i).skip(1int) =~= view.skip(i + 1int));
    assert(glyf_data(view).len() == glyf_data(view.take(i)).len() + pad2(view[i]).len()
        + glyf_data(view.skip(i + 1int)).len());
}

} // verus!

verus! {

/// Whether some configured renderer declares a range holding `c`.
pub open spec fn char_in_any(c: char, rs: Seq<RubyRenderer>) -> bool {
    exists|i: int| 0 <= i < rs.len() && char_in_ranges(c, renderer_ranges(#[trigger] rs[i]))
}

/// Runtime check of `char_in_any`.
pub fn char_in_any_x(c: char, rs: &Vec<RubyRenderer>) -> (r: bool)
    ensures
        r == char_in_any(c, rs@),
{
    let mut i: usize = 0;
    while i < rs.len()
        invariant
            0 <= i <= rs.len(),
            forall|j: int| 0 <= j < i ==> !char_in_ranges(c, renderer_ranges(#[trigger] rs@[j])),
        decreases rs.len() - i,
    {
        let ranges = rs[i].ranges();
        if crate::renderer::in_ranges(c, &ranges) {
            return true;
        }
        i = i + 1;
    }
    false
}

/// The advance width used for a glyph: the metric, or the font's
/// units-per-em when it is missing.
pub open spec fn adv_or_upem(a: Option<u16>, upem: u16) -> u16 {
    match a {
        Some(v) => v,
        None => upem,
    }
}

/// One glyph's path and the renderers' caches after every renderer has
/// annotated in configured order. A renderer is offered the path only
/// while its coordinates stay within the engine's bound; annotations
/// from multiple renderers compose on the same accumulating path.
pub open spec fn annotate_all(
    path: Seq<PathEl>,
    ch: char,
    adv: u16,
    upem: u16,
    rs: Seq<RubyRenderer>,
    fs: Seq<FontDataView>,
    caches: Seq<BaselineCache>,
) -> (Seq<PathEl>, Seq<BaselineCache>)
    decreases rs.len(),
{
    if rs.len() == 0 {
        (path, caches)
    } else {
        let r = rs[0];
        let f = fs[0];
        let c = caches[0];
        let ok = path_within(path, base_coord_max());
        let p2 = if ok {
            path + crate::renderer::renderer_els(r, ch, f.0, f.1, path, adv, upem, c)
        } else {
            path
        };
        let c2 = if ok {
            crate::renderer::renderer_cache_out(r, ch, f.0, f.1, path, upem, c)
        } else {
            c
        };
        let rec = annotate_all(p2, ch, adv, upem, rs.skip(1), fs.skip(1), caches.skip(1));
        (rec.0, seq![c2] + rec.1)
    }
}

/// The bytes one glyph contributes to the rebuilt `glyf` table, and the
/// caches after it: the glyph is annotated when it maps to a character
/// in some renderer's range, then re-encoded; a glyph whose draw failed
/// and whose path stayed empty, or whose path cannot be encoded, is
/// emitted as an empty glyph.
pub open spec fn process_glyph(
    g: GlyphInView,
    upem: u16,
    rs: Seq<RubyRenderer>,
    fs: Seq<FontDataView>,
    caches: Seq<BaselineCache>,
) -> (Seq<u8>, Seq<BaselineCache>) {
    let annotated = match g.3 {
        Some(c) => if char_in_any(c, rs) {
            annotate_all(g.1, c, adv_or_upem(g.2, upem), upem, rs, fs, caches)
        } else {
            (g.1, caches)
        },
        None => (g.1, caches),
    };
    let bytes = if g.0 && annotated.0.len() == 0 {
        Seq::<u8>::empty()
    } else {
        match encode_path(annotated.0) {
            Some(b) => b,
            None => Seq::<u8>::empty(),
        }
    };
    (bytes, annotated.1)
}

/// Every glyph of the font in ascending glyph order, once, in a single
/// pass, threading the renderers' baseline caches.
pub open spec fn process_glyphs(
    gs: Seq<GlyphInView>,
    upem: u16,
    rs: Seq<RubyRenderer>,
    fs: Seq<FontDataView>,
    caches: Seq<BaselineCache>,
) -> (Seq<Seq<u8>>, Seq<BaselineCache>)
    decreases gs.len(),
{
    if gs.len() == 0 {
        (Seq::empty(), caches)
    } else {
        let one = process_glyph(gs[0], upem, rs, fs, caches);
        let rest = process_glyphs(gs.skip(1), upem, rs, fs, one.1);
        (seq![one.0] + rest.0, rest.1)
    }
}

/// A fresh cache per renderer: the caches are never shared across fonts.
pub open spec fn fresh_caches(n: int) -> Seq<BaselineCache> {
    Seq::new(n as nat, |i: int| BaselineCache { top: None, bottom: None })
}

} // verus!

verus! {

/// Run every configured renderer over one glyph's accumulating path.
fn annotate_glyph(
    path: &mut Vec<PathEl>,
    ch: char,
    adv: u16,
    upem: u16,
    rs: &Vec<RubyRenderer>,
    fs: &Vec<RubyFont>,
    caches: &mut Vec<BaselineCache>,
)
    requires
        1 <= upem,
        rs@.len() == fs@.len(),
        old(caches)@.len() == rs@.len(),
        forall|j: int| 0 <= j < rs@.len() ==> (#[trigger] rs@[j]).wf(),
        forall|j: int| 0 <= j < fs@.len() ==> (#[trigger] fs@[j]).wf(),
        forall|j: int|
            0 <= j < old(caches)@.len() ==> crate::placement::cache_wf(#[trigger] old(caches)@[j]),
    ensures
        ({
            let spec = annotate_all(
                old(path)@,
                ch,
                adv,
                upem,
                rs@,
                fonts_data_view(fs@),
                old(caches)@,
            );
            &&& final (path)@ == spec.0
            &&& final (caches)@ == spec.1
        }),
        final (caches)@.len() == old(caches)@.len(),
        forall|j: int|
            0 <= j < final (caches)@.len() ==> crate::placement::cache_wf(
                #[trigger] final (caches)@[j],
            ),
{
    let ghost p0 = path@;
    let ghost c0 = caches@;
    let ghost rv = rs@;
    let ghost fv = fonts_data_view(fs@);
    let ghost full = annotate_all(p0, ch, adv, upem, rv, fv, c0);
    let mut j: usize = 0;
    proof {
        assert(rv.skip(0int) =~= rv);
        assert(fv.skip(0int) =~= fv);
        assert(c0.skip(0int) =~= c0);
        assert(c0.take(0int) =~= Seq::<BaselineCache>::empty());
        assert(Seq::<BaselineCache>::empty() + annotate_all(p0, ch, adv, upem, rv, fv, c0).1
            =~= annotate_all(p0, ch, adv, upem, rv, fv, c0).1);
    }
    while j < rs.len()
        invariant
            0 <= j <= rs.len(),
            rv == rs@,
            fv == fonts_data_view(fs@),
            rv.len() == fv.len(),
            caches@.len() == rv.len(),
            1 <= upem,
            forall|k: int| 0 <= k < rv.len() ==> (#[trigger] rv[k]).wf(),
            forall|k: int| 0 <= k < fs@.len() ==> (#[trigger] fs@[k]).wf(),
            forall|k: int|
                0 <= k < caches@.len() ==> crate::placement::cache_wf(#[trigger] caches@[k]),
            full.0 == annotate_all(
                path@,
                ch,
                adv,
                upem,
                rv.skip(j as int),
                fv.skip(j as int),
                caches@.skip(j as int),
            ).0,
            full.1 == caches@.take(j as int) + annotate_all(
                path@,
                ch,
                adv,
                upem,
                rv.skip(j as int),
                fv.skip(j as int),
                caches@.skip(j as int),
            ).1,
        decreases rs.len() - j,
    {
        proof {
            assert(rv.skip(j as int)[0] == rv[j as int]);
            assert(rv.skip(j as int).skip(1int) =~= rv.skip(j + 1int));
            assert(fv.skip(j as int)[0] == fv[j as int]);
            assert(fv.skip(j as int).skip(1int) =~= fv.skip(j + 1int));
            assert(caches@.skip(j as int)[0] == caches@[j as int]);
            assert(caches@.skip(j as int).skip(1int) =~= caches@.skip(j + 1int));
            assert(fv[j as int] == (fs@[j as int].upem, crate::renderer::font_view(
                fs@[j as int].glyphs@,
            )));
        }
        let ghost cbefore = caches@;
        let ghost pbefore = path@;
        let ok = crate::path::coords_within(path, 0x1000_0000_0000_0000);
        proof {
            assert(base_coord_max() == 0x1000_0000_0000_0000);
            assert(ok == path_within(pbefore, base_coord_max()));
        }
        if ok {
            let mut cj = caches.remove(j);
            rs[j].annotate(ch, &fs[j], path, adv, upem, &mut cj);
            caches.insert(j, cj);
            proof {
                assert(caches@ =~= cbefore.update(j as int, cj));
                assert(path@ == pbefore + crate::renderer::renderer_els(
                    rv[j as int],
                    ch,
                    fv[j as int].0,
                    fv[j as int].1,
                    pbefore,
                    adv,
                    upem,
                    cbefore[j as int],
                ));
                assert(cj == crate::renderer::renderer_cache_out(
                    rv[j as int],
                    ch,
                    fv[j as int].0,
                    fv[j as int].1,
                    pbefore,
                    upem,
                    cbefore[j as int],
                ));
            }
        }
        proof {
            let c2 = if ok {
                crate::renderer::renderer_cache_out(
                    rv[j as int],
                    ch,
                    fv[j as int].0,
                    fv[j as int].1,
                    pbefore,
                    upem,
                    cbefore[j as int],
                )
            } else {
                cbefore[j as int]
            };
            assert(caches@.skip(j + 1int) =~= cbefore.skip(j + 1int));
            assert(caches@.take(j + 1int) =~= cbefore.take(j as int).push(c2));
            assert(annotate_all(
                pbefore,
                ch,
                adv,
                upem,
                rv.skip(j as int),
                fv.skip(j as int),
                cbefore.skip(j as int),
            ).1 == seq![c2] + annotate_all(
                path@,
                ch,
                adv,
                upem,
                rv.skip(j + 1int),
                fv.skip(j + 1int),
                caches@.skip(j + 1int),
            ).1);
            assert(cbefore.take(j as int) + (seq![c2] + annotate_all(
                path@,
                ch,
                adv,
                upem,
                rv.skip(j + 1int),
                fv.skip(j + 1int),
                caches@.skip(j + 1int),
            ).1) =~= (cbefore.take(j as int).push(c2)) + annotate_all(
                path@,
                ch,
                adv,
                upem,
                rv.skip(j + 1int),
                fv.skip(j + 1int),
                caches@.skip(j + 1int),
            ).1);
            assert(forall|k: int|
                0 <= k < caches@.len() ==> crate::placement::cache_wf(#[trigger] caches@[k]));
        }
        j = j + 1;
    }
    proof {
        assert(rv.skip(rv.len() as int) =~= Seq::<RubyRenderer>::empty());
        assert(caches@.take(caches@.len() as int) =~= caches@);
        assert(annotate_all(
            path@,
            ch,
            adv,
            upem,
            Seq::<RubyRenderer>::empty(),
            fv.skip(rv.len() as int),
            caches@.skip(rv.len() as int),
        ).0 == path@);
        assert(caches@ + annotate_all(
            path@,
            ch,
            adv,
            upem,
            Seq::<RubyRenderer>::empty(),
            fv.skip(rv.len() as int),
            caches@.skip(rv.len() as int),
        ).1 =~= caches@ + caches@.skip(rv.len() as int));
        assert(caches@ + caches@.skip(rv.len() as int) =~= caches@);
    }
}

} // verus!

verus! {

/// Every `head`-tagged table is long enough to patch.
pub open spec fn heads_wf(ts: Seq<TableView>) -> bool {
    forall|i: int| 0 <= i < ts.len() && (#[trigger] ts[i]).0 as int == head_tag() ==> ts[i].2.len()
        >= 54
}

/// Everything a successful rewrite needs of its input: a usable `head`,
/// and sizes within the 32-bit format limits.
pub open spec fn rewrite_ok(
    ts: Seq<TableView>,
    gvs: Seq<GlyphInView>,
    rs: Seq<RubyRenderer>,
    fs: Seq<FontDataView>,
) -> bool {
    &&& find_tag(ts, head_tag()) is Some
    &&& heads_wf(ts)
    &&& upem_of(find_tag(ts, head_tag())->Some_0.2) >= 1
    &&& gvs.len() <= 0x3FFF_FFF0
    &&& tables_sized(ts)
    &&& glyf_data(
        process_glyphs(
            gvs,
            upem_of(find_tag(ts, head_tag())->Some_0.2) as u16,
            rs,
            fs,
            fresh_caches(rs.len() as int),
        ).0,
    ).len() <= table_size_max()
}

/// The tables of a rewritten font: outline tables rebuilt from the
/// processed glyphs, every other table copied (with `head` patched and
/// `name` optionally replaced), all in ascending tag order with fresh
/// checksums.
pub open spec fn rewrite_full(
    ts: Seq<TableView>,
    gvs: Seq<GlyphInView>,
    rs: Seq<RubyRenderer>,
    fs: Seq<FontDataView>,
    name: Option<Seq<char>>,
) -> Seq<TableView> {
    let upem = upem_of(find_tag(ts, head_tag())->Some_0.2) as u16;
    let gbs = process_glyphs(gvs, upem, rs, fs, fresh_caches(rs.len() as int)).0;
    let short = loca_short(gbs);
    let fmt: int = if short {
        0
    } else {
        1
    };
    let g = glyf_data(gbs);
    let l = loca_bytes(gbs, 0, short);
    let base = copied_tables(ts, fmt, name is Some);
    let extras = seq![
        (0x676C7966u32, checksum_of(g) as u32, g),
        (0x6C6F6361u32, checksum_of(l) as u32, l),
    ] + (match name {
        Some(n) => seq![
            (0x6E616D65u32, checksum_of(name_table_bytes(n)) as u32, name_table_bytes(n)),
        ],
        None => Seq::<TableView>::empty(),
    });
    sort_tables(base + extras)
}

/// The rebuilt index has one entry per glyph plus the end entry: the
/// output glyph count equals the input glyph count.
pub proof fn lemma_loca_len(gbs: Seq<Seq<u8>>, before: int, short: bool)
    ensures
        loca_bytes(gbs, before, short).len() == (gbs.len() + 1) * (if short {
            2int
        } else {
            4int
        }),
    decreases gbs.len(),
{
    if gbs.len() > 0 {
        lemma_loca_len(gbs.skip(1), before + pad2(gbs[0]).len(), short);
    }
}

/// One processed record per input glyph, index for index.
pub proof fn lemma_glyph_count_preserved(
    gs: Seq<GlyphInView>,
    upem: u16,
    rs: Seq<RubyRenderer>,
    fs: Seq<FontDataView>,
    caches: Seq<BaselineCache>,
)
    ensures
        process_glyphs(gs, upem, rs, fs, caches).0.len() == gs.len(),
    decreases gs.len(),
{
    if gs.len() > 0 {
        lemma_glyph_count_preserved(
            gs.skip(1),
            upem,
            rs,
            fs,
            process_glyph(gs[0], upem, rs, fs, caches).1,
        );
    }
}

/// Index for index: the slice of the rebuilt `glyf` table between
/// glyph `i`'s offsets is exactly glyph `i`'s (padded) record.
pub proof fn lemma_glyf_indexed(gbs: Seq<Seq<u8>>, i: int)
    requires
        0 <= i < gbs.len(),
    ensures
        glyf_data(gbs).subrange(
            glyf_data(gbs.take(i)).len() as int,
            glyf_data(gbs.take(i + 1)).len() as int,
        ) == pad2(gbs[i]),
{
    lemma_glyf_data_split(gbs, i + 1);
    lemma_glyf_data_split(gbs.take(i + 1), i);
    assert(gbs.take(i + 1).take(i) =~= gbs.take(i));
    assert(gbs.take(i + 1).skip(i) =~= seq![gbs[i]]);
    assert(seq![gbs[i]].skip(1int) =~= Seq::<Seq<u8>>::empty());
    assert(glyf_data(Seq::<Seq<u8>>::empty()) == Seq::<u8>::empty());
    assert(seq![gbs[i]][0] == gbs[i]);
    assert(glyf_data(seq![gbs[i]]) =~= pad2(gbs[i]));
    assert(glyf_data(gbs).subrange(
        glyf_data(gbs.take(i)).len() as int,
        glyf_data(gbs.take(i + 1)).len() as int,
    ) =~= pad2(gbs[i]));
}

/// Folding the sort over a concatenation folds each half in turn.
proof fn lemma_sort_acc_concat(a: Seq<TableView>, b: Seq<TableView>, acc: Seq<TableView>)
    ensures
        sort_acc(a + b, acc) == sort_acc(b, sort_acc(a, acc)),
    decreases a.len(),
{
    if a.len() == 0 {
        assert(a + b =~= b);
    } else {
        assert((a + b)[0] == a[0]);
        assert((a + b).skip(1) =~= a.skip(1) + b);
        lemma_sort_acc_concat(a.skip(1), b, insert_by_tag(a[0], acc));
    }
}

} // verus!

verus! {

/// Rewrite one font: process every glyph in ascending order in a single
/// pass, rebuild the outline tables, copy everything else, patch
/// `head`, and replace `name` when a display name is supplied. Fatal
/// conditions are a missing or malformed `head` and data beyond the
/// 32-bit format limits; per-glyph failures degrade to empty glyphs and
/// are never fatal.
#[verifier::rlimit(100)]
pub fn rewrite_font(
    tables: &Vec<RawTable>,
    glyphs: &Vec<GlyphInput>,
    renderers: &Vec<RubyRenderer>,
    ruby_fonts: &Vec<RubyFont>,
    display_name: Option<&Vec<char>>,
) -> (r: Result<Vec<RawTable>, RewriteError>)
    requires
        renderers@.len() == ruby_fonts@.len(),
        forall|j: int| 0 <= j < renderers@.len() ==> (#[trigger] renderers@[j]).wf(),
        forall|j: int| 0 <= j < ruby_fonts@.len() ==> (#[trigger] ruby_fonts@[j]).wf(),
        display_name is Some ==> display_name->Some_0@.len() <= 0x3FFF,
    ensures
        ({
            let ts = tables_view(tables@);
            let gvs = glyphs_in_view(glyphs@);
            let fs = fonts_data_view(ruby_fonts@);
            let name: Option<Seq<char>> = match display_name {
                Some(n) => Some(n@),
                None => None,
            };
            &&& (r is Ok <==> rewrite_ok(ts, gvs, renderers@, fs))
            &&& (r is Ok ==> tables_view(r->Ok_0@) == rewrite_full(ts, gvs, renderers@, fs, name))
            &&& (r == Result::<Vec<RawTable>, RewriteError>::Err(RewriteError::MissingHead)
                <==> find_tag(ts, head_tag()) is None)
            &&& (r == Result::<Vec<RawTable>, RewriteError>::Err(RewriteError::MalformedHead)
                <==> find_tag(ts, head_tag()) is Some && (!heads_wf(ts) || upem_of(
                find_tag(ts, head_tag())->Some_0.2,
            ) == 0))
        }),
{
    let ghost ts = tables_view(tables@);
    let ghost gvs = glyphs_in_view(glyphs@);
    let ghost rv = renderers@;
    let ghost fv = fonts_data_view(ruby_fonts@);

    // Locate the first head table, and check every head-tagged one.
    let mut hidx: usize = 0;
    let mut found = false;
    let mut heads_ok = true;
    let mut i: usize = 0;
    proof {
        assert(ts.skip(0int) =~= ts);
    }
    while i < tables.len()
        invariant
            0 <= i <= tables.len(),
            ts == tables_view(tables@),
            ts.len() == tables@.len(),
            !found ==> find_tag(ts, head_tag()) == find_tag(ts.skip(i as int), head_tag()),
            found ==> hidx < i && ts[hidx as int].0 as int == head_tag() && find_tag(
                ts,
                head_tag(),
            ) == Some(ts[hidx as int]),
            heads_ok <==> (forall|j: int|
                0 <= j < i && (#[trigger] ts[j]).0 as int == head_tag() ==> ts[j].2.len() >= 54),
        decreases tables.len() - i,
    {
        proof {
            assert(ts[i as int] == tables@[i as int]@);
            assert(ts.skip(i as int)[0] == ts[i as int]);
            assert(ts.skip(i as int).skip(1int) =~= ts.skip(i + 1int));
        }
        if tables[i].tag == 0x68656164 {
            if !found {
                hidx = i;
                found = true;
            }
            if tables[i].data.len() < 54 {
                heads_ok = false;
            }
        }
        i = i + 1;
    }
    proof {
        if !found {
            assert(ts.skip(ts.len() as int) =~= Seq::<TableView>::empty());
        }
        assert(heads_ok <==> heads_wf(ts));
    }
    if !found {
        return Err(RewriteError::MissingHead);
    }
    if !heads_ok {
        return Err(RewriteError::MalformedHead);
    }
    let head_data = &tables[hidx].data;
    proof {
        assert(ts[hidx as int].2 == head_data@);
        assert(head_data@.len() >= 54);
    }
    let upem: u16 = (head_data[18] as u16) * 256 + (head_data[19] as u16);
    proof {
        assert(upem as int == upem_of(ts[hidx as int].2));
    }
    if upem == 0 {
        return Err(RewriteError::MalformedHead);
    }
    if glyphs.len() > 0x3FFF_FFF0 {
        proof {
            assert(gvs.len() == glyphs@.len());
        }
        return Err(RewriteError::Oversize);
    }
    // All input tables must be within the 32-bit size limit.
    let mut si: usize = 0;
    while si < tables.len()
        invariant
            0 <= si <= tables.len(),
            ts == tables_view(tables@),
            ts.len() == tables@.len(),
            hidx < tables@.len(),
            find_tag(ts, head_tag()) == Some(ts[hidx as int]),
            heads_wf(ts),
            upem as int == upem_of(ts[hidx as int].2),
            upem >= 1,
            forall|j: int| 0 <= j < si ==> (#[trigger] ts[j]).2.len() <= table_size_max(),
        decreases tables.len() - si,
    {
        proof {
            assert(ts[si as int] == tables@[si as int]@);
        }
        if tables[si].data.len() > 0xFFFF_FFF0 {
            proof {
                assert(ts[si as int].2.len() > table_size_max());
                assert(!tables_sized(ts));
            }
            return Err(RewriteError::Oversize);
        }
        si = si + 1;
    }

    // Fresh caches: the baseline extremes are never shared across fonts.
    let mut caches: Vec<BaselineCache> = Vec::new();
    let mut ci: usize = 0;
    while ci < renderers.len()
        invariant
            0 <= ci <= renderers.len(),
            caches@.len() == ci,
            forall|k: int|
                0 <= k < ci ==> #[trigger] caches@[k] == (BaselineCache {
                    top: None,
                    bottom: None,
                }),
        decreases renderers.len() - ci,
    {
        caches.push(BaselineCache::new());
        ci = ci + 1;
    }
    proof {
        assert(caches@ =~= fresh_caches(rv.len() as int));
        assert(forall|k: int|
            0 <= k < caches@.len() ==> crate::placement::cache_wf(#[trigger] caches@[k]));
    }

    // The single synchronous pass over the glyphs, in ascending order.
    let ghost caches0 = caches@;
    let ghost full = process_glyphs(gvs, upem, rv, fv, caches0);
    let mut gbs: Vec<Vec<u8>> = Vec::new();
    let mut gi: usize = 0;
    proof {
        assert(gvs.skip(0int) =~= gvs);
        assert(Seq::<Seq<u8>>::empty() + process_glyphs(gvs, upem, rv, fv, caches0).0
            =~= process_glyphs(gvs, upem, rv, fv, caches0).0);
        assert(gbs@.map_values(|b: Vec<u8>| b@) =~= Seq::<Seq<u8>>::empty());
    }
    while gi < glyphs.len()
        invariant
            0 <= gi <= glyphs.len(),
            ts == tables_view(tables@),
            gvs == glyphs_in_view(glyphs@),
            gvs.len() == glyphs@.len(),
            rv == renderers@,
            fv == fonts_data_view(ruby_fonts@),
            rv.len() == fv.len(),
            caches@.len() == rv.len(),
            1 <= upem,
            forall|k: int| 0 <= k < rv.len() ==> (#[trigger] rv[k]).wf(),
            forall|k: int| 0 <= k < ruby_fonts@.len() ==> (#[trigger] ruby_fonts@[k]).wf(),
            forall|k: int|
                0 <= k < caches@.len() ==> crate::placement::cache_wf(#[trigger] caches@[k]),
            full.0 == gbs@.map_values(|b: Vec<u8>| b@) + process_glyphs(
                gvs.skip(gi as int),
                upem,
                rv,
                fv,
                caches@,
            ).0,
            full.1 == process_glyphs(gvs.skip(gi as int), upem, rv, fv, caches@).1,
        decreases glyphs.len() - gi,
    {
        let g = &glyphs[gi];
        proof {
            assert(gvs[gi as int] == glyphs@[gi as int]@);
            assert(gvs.skip(gi as int)[0] == gvs[gi as int]);
            assert(gvs.skip(gi as int).skip(1int) =~= gvs.skip(gi + 1int));
        }
        let mut path = crate::renderer::copy_els(&g.path);
        let adv: u16 = match g.advance {
            Some(a) => a,
            None => upem,
        };
        let ghost cbefore = caches@;
        let annotate_it = match g.ch {
            Some(c) => char_in_any_x(c, renderers),
            None => false,
        };
        if annotate_it {
            let c = match g.ch {
                Some(c) => c,
                None => ' ',
            };
            annotate_glyph(&mut path, c, adv, upem, renderers, ruby_fonts, &mut caches);
        }
        let ghost one = process_glyph(gvs[gi as int], upem, rv, fv, cbefore);
        proof {
            let gin = gvs[gi as int];
            let annotated: (Seq<PathEl>, Seq<BaselineCache>) = match gin.3 {
                Some(c) => if char_in_any(c, rv) {
                    annotate_all(gin.1, c, adv_or_upem(gin.2, upem), upem, rv, fv, cbefore)
                } else {
                    (gin.1, cbefore)
                },
                None => (gin.1, cbefore),
            };
            assert(adv == adv_or_upem(gin.2, upem));
            assert(path@ == annotated.0);
            assert(caches@ == annotated.1);
            assert(caches@ == one.1);
        }
        let bytes: Vec<u8> = if g.draw_failed && path.len() == 0 {
            Vec::new()
        } else {
            match crate::glyf::encode_simple_glyph(&path) {
                Some(b) => b,
                None => Vec::new(),
            }
        };
        proof {
            assert(bytes@ == one.0);
        }
        let ghost gbs0 = gbs@.map_values(|b: Vec<u8>| b@);
        gbs.push(bytes);
        proof {
            assert(gbs@.map_values(|b: Vec<u8>| b@) =~= gbs0.push(bytes@));
            assert(gbs0 + (seq![one.0] + process_glyphs(
                gvs.skip(gi + 1int),
                upem,
                rv,
                fv,
                caches@,
            ).0) =~= gbs0.push(one.0) + process_glyphs(
                gvs.skip(gi + 1int),
                upem,
                rv,
                fv,
                caches@,
            ).0);
        }
        gi = gi + 1;
    }
    proof {
        assert(gvs.skip(gvs.len() as int) =~= Seq::<GlyphInView>::empty());
        assert(gbs@.map_values(|b: Vec<u8>| b@) + Seq::<Seq<u8>>::empty() =~= gbs@.map_values(
            |b: Vec<u8>| b@,
        ));
        assert(gbs@.map_values(|b: Vec<u8>| b@) == full.0);
    }

    // Rebuild the outline tables.
    let built = build_glyf_loca(&gbs);
    let (glyf_bytes, loca_bytes_v, fmt) = match built {
        Ok(t) => t,
        Err(e) => {
            return Err(e);
        },
    };

    // Copy every other table, patching head, then add the rebuilt and
    // replacement tables, keeping the directory in ascending tag order.
    let drop_name = display_name.is_some();
    let ghost name: Option<Seq<char>> = match display_name {
        Some(n) => Some(n@),
        None => None,
    };
    let ghost gbsv = gbs@.map_values(|b: Vec<u8>| b@);
    let ghost fmtspec: int = if loca_short(gbsv) {
        0
    } else {
        1
    };
    let ghost base = copied_tables(ts, fmtspec, name is Some);
    let ghost extras = seq![
        (0x676C7966u32, checksum_of(glyf_data(gbsv)) as u32, glyf_data(gbsv)),
        (
            0x6C6F6361u32,
            checksum_of(loca_bytes(gbsv, 0, loca_short(gbsv))) as u32,
            loca_bytes(gbsv, 0, loca_short(gbsv)),
        ),
    ] + (match name {
        Some(n) => seq![
            (0x6E616D65u32, checksum_of(name_table_bytes(n)) as u32, name_table_bytes(n)),
        ],
        None => Seq::<TableView>::empty(),
    });
    let ghost target = sort_tables(base + extras);
    let mut out: Vec<RawTable> = Vec::new();
    let mut ti: usize = 0;
    proof {
        lemma_sort_acc_concat(base, extras, Seq::<TableView>::empty());
        assert(ts.skip(0int) =~= ts);
        assert(tables_view(out@) =~= Seq::<TableView>::empty());
    }
    while ti < tables.len()
        invariant
            0 <= ti <= tables.len(),
            ts == tables_view(tables@),
            ts.len() == tables@.len(),
            heads_wf(ts),
            tables_sized(ts),
            fmt as int == fmtspec,
            fmt <= 1,
            drop_name == (name is Some),
            sort_acc(base, Seq::<TableView>::empty()) == sort_acc(
                copied_tables(ts.skip(ti as int), fmtspec, name is Some),
                tables_view(out@),
            ),
        decreases tables.len() - ti,
    {
        let t = &tables[ti];
        proof {
            assert(ts[ti as int] == tables@[ti as int]@);
            assert(ts.skip(ti as int)[0] == ts[ti as int]);
            assert(ts.skip(ti as int).skip(1int) =~= ts.skip(ti + 1int));
        }
        let keep = !(t.tag == 0x676C7966 || t.tag == 0x6C6F6361 || (drop_name && t.tag
            == 0x6E616D65));
        if keep {
            let ghost rest = copied_tables(ts.skip(ti + 1int), fmtspec, name is Some);
            let newt: RawTable;
            if t.tag == 0x68656164 {
                let patched = crate::tables::patch_head(&t.data, fmt);
                let ck = crate::tables::checksum(&patched);
                proof {
                    crate::tables::lemma_checksum_range(patched@);
                    assert(ck == checksum_of(patched_head(ts[ti as int].2, fmtspec)) as u32);
                }
                newt = RawTable { tag: t.tag, checksum: ck, data: patched };
            } else {
                let copied = crate::tables::copy_bytes(&t.data);
                let ck = crate::tables::checksum(&copied);
                proof {
                    crate::tables::lemma_checksum_range(copied@);
                    assert(ck == checksum_of(ts[ti as int].2) as u32);
                }
                newt = RawTable { tag: t.tag, checksum: ck, data: copied };
            }
            proof {
                assert(copied_tables(ts.skip(ti as int), fmtspec, name is Some) == seq![newt@]
                    + rest);
                assert((seq![newt@] + rest)[0] == newt@);
                assert((seq![newt@] + rest).skip(1int) =~= rest);
            }
            insert_table(&mut out, newt);
        }
        ti = ti + 1;
    }
    proof {
        assert(ts.skip(ts.len() as int) =~= Seq::<TableView>::empty());
        assert(copied_tables(Seq::<TableView>::empty(), fmtspec, name is Some)
            == Seq::<TableView>::empty());
        assert(sort_acc(base, Seq::<TableView>::empty()) == tables_view(out@));
    }
    // The rebuilt and replacement tables.
    let gck = crate::tables::checksum(&glyf_bytes);
    proof {
        lemma_loca_len(gbsv, 0, loca_short(gbsv));
        lemma_glyph_count_preserved(gvs, upem, rv, fv, caches0);
    }
    let lck = crate::tables::checksum(&loca_bytes_v);
    let gt = RawTable { tag: 0x676C7966, checksum: gck, data: glyf_bytes };
    let lt = RawTable { tag: 0x6C6F6361, checksum: lck, data: loca_bytes_v };
    proof {
        crate::tables::lemma_checksum_range(gt.data@);
        crate::tables::lemma_checksum_range(lt.data@);
        assert(extras[0] == gt@);
        assert(extras[1] == lt@);
        assert(extras.skip(0int) =~= extras);
        assert(extras.skip(0int)[0] == extras[0]);
        assert(extras.skip(0int).skip(1int) =~= extras.skip(1int));
        assert(extras.skip(1int)[0] == extras[1]);
        assert(extras.skip(1int).skip(1int) =~= extras.skip(2int));
    }
    let ghost acc0 = tables_view(out@);
    insert_table(&mut out, gt);
    proof {
        assert(sort_acc(extras, acc0) == sort_acc(extras.skip(1int), insert_by_tag(gt@, acc0)));
        assert(sort_acc(extras, acc0) == sort_acc(extras.skip(1int), tables_view(out@)));
    }
    let ghost acc1 = tables_view(out@);
    insert_table(&mut out, lt);
    proof {
        assert(sort_acc(extras.skip(1int), acc1) == sort_acc(
            extras.skip(2int),
            insert_by_tag(lt@, acc1),
        ));
        assert(sort_acc(extras, acc0) == sort_acc(extras.skip(2int), tables_view(out@)));
    }
    match display_name {
        Some(n) => {
            let ndata = crate::tables::make_name_table(n);
            proof {
                crate::tables::lemma_utf16_len(n@);
            }
            let nck = crate::tables::checksum(&ndata);
            let nt = RawTable { tag: 0x6E616D65, checksum: nck, data: ndata };
            proof {
                crate::tables::lemma_checksum_range(nt.data@);
                assert(extras.skip(2int) =~= seq![nt@]);
                assert(extras.skip(2int)[0] == nt@);
                assert(extras.skip(2int).skip(1int) =~= extras.skip(3int));
                assert(extras.skip(3int) =~= Seq::<TableView>::empty());
            }
            let ghost acc2 = tables_view(out@);
            insert_table(&mut out, nt);
            proof {
                assert(sort_acc(extras.skip(2int), acc2) == sort_acc(
                    extras.skip(3int),
                    insert_by_tag(nt@, acc2),
                ));
                assert(extras.skip(3int) =~= Seq::<TableView>::empty());
                assert(sort_acc(extras, acc0) == tables_view(out@));
            }
        },
        None => {
            proof {
                assert(extras.skip(2int) =~= Seq::<TableView>::empty());
                assert(sort_acc(extras, acc0) == tables_view(out@));
            }
        },
    }
    proof {
        assert(tables_view(out@) == target);
        assert(rewrite_ok(ts, gvs, rv, fv));
        assert(tables_view(out@) == rewrite_full(ts, gvs, rv, fv, name));
    }
    Ok(out)
}

} // verus!
