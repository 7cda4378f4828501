//! Ruby renderers: pluggable annotation variants (a syllable
//! transliteration and a kana transliteration), each resolving a base
//! character to annotation text and placing it through the engine.

use vstd::prelude::*;

verus! {

/// Where ruby text is placed relative to the base glyph.
#[derive(Clone, Copy, Debug, PartialEq, Eq, Structural)]
pub enum RubyPosition {
    Top,
    Bottom,
    LeftDown,
    LeftUp,
    RightDown,
    RightUp,
}

impl RubyPosition {
    /// Top or bottom placement (horizontal row centered on the advance).
    pub open spec fn is_horizontal(self) -> bool {
        self == RubyPosition::Top || self == RubyPosition::Bottom
    }

    /// Placement left of the glyph.
    pub open spec fn is_left(self) -> bool {
        self == RubyPosition::LeftDown || self == RubyPosition::LeftUp
    }

    /// Stacking that steps downward.
    pub open spec fn is_down(self) -> bool {
        self == RubyPosition::LeftDown || self == RubyPosition::RightDown
    }
}

} // verus!

use crate::path::{path_within, PathEl};
use crate::placement::{
    gv_wf, parts_glyph_count, parts_wf, row_view, GlyphView, RubyGlyph,
};
use crate::resolve::copy_chars;

verus! {

/// The annotation font's data, pre-drawn: its units-per-em and, for
/// each character an annotation may use, that character's outline and
/// advance. A character absent here counts as unmapped or undrawable,
/// and an annotation naming it is discarded atomically.
pub struct RubyFont {
    pub upem: u16,
    pub glyphs: Vec<(char, RubyGlyph)>,
}

/// View of the recorded character-to-glyph entries.
pub open spec fn font_view(gs: Seq<(char, RubyGlyph)>) -> Seq<(char, GlyphView)> {
    gs.map_values(|p: (char, RubyGlyph)| (p.0, p.1@))
}

impl RubyFont {
    pub open spec fn wf(self) -> bool {
        &&& 1 <= self.upem
        &&& forall|i: int|
            0 <= i < self.glyphs@.len() ==> gv_wf((#[trigger] self.glyphs@[i]).1@)
    }
}

/// First glyph recorded for `c`, if any.
pub open spec fn ruby_lookup(gs: Seq<(char, GlyphView)>, c: char) -> Option<GlyphView>
    decreases gs.len(),
{
    if gs.len() == 0 {
        None
    } else if gs[0].0 == c {
        Some(gs[0].1)
    } else {
        ruby_lookup(gs.skip(1), c)
    }
}

/// The glyphs for a run of characters; `None` as soon as one is absent.
pub open spec fn collect_row(gs: Seq<(char, GlyphView)>, text: Seq<char>) -> Option<Seq<GlyphView>>
    decreases text.len(),
{
    if text.len() == 0 {
        Some(Seq::empty())
    } else {
        match ruby_lookup(gs, text[0]) {
            None => None,
            Some(g) => match collect_row(gs, text.skip(1)) {
                None => None,
                Some(rest) => Some(seq![g] + rest),
            },
        }
    }
}

/// The glyphs for every part; `None` as soon as one character of one
/// part is absent — no partial annotation is ever emitted.
pub open spec fn collect_parts(gs: Seq<(char, GlyphView)>, parts: Seq<Seq<char>>) -> Option<
    Seq<Seq<GlyphView>>,
>
    decreases parts.len(),
{
    if parts.len() == 0 {
        Some(Seq::empty())
    } else {
        match collect_row(gs, parts[0]) {
            None => None,
            Some(row) => match collect_parts(gs, parts.skip(1)) {
                None => None,
                Some(rest) => Some(seq![row] + rest),
            },
        }
    }
}

/// All parts' glyphs in one run, in order.
pub open spec fn flatten_parts(ps: Seq<Seq<GlyphView>>) -> Seq<GlyphView>
    decreases ps.len(),
{
    if ps.len() == 0 {
        Seq::empty()
    } else {
        ps[0] + flatten_parts(ps.skip(1))
    }
}

pub proof fn lemma_ruby_lookup_wf(gs: Seq<(char, GlyphView)>, c: char)
    requires
        forall|i: int| 0 <= i < gs.len() ==> gv_wf((#[trigger] gs[i]).1),
    ensures
        ruby_lookup(gs, c) is Some ==> gv_wf(ruby_lookup(gs, c)->Some_0),
    decreases gs.len(),
{
    if gs.len() > 0 && gs[0].0 != c {
        assert forall|i: int| 0 <= i < gs.skip(1).len() implies gv_wf(
            (#[trigger] gs.skip(1)[i]).1,
        ) by {
            assert(gs.skip(1)[i] == gs[i + 1]);
        }
        lemma_ruby_lookup_wf(gs.skip(1), c);
    }
}

pub proof fn lemma_collect_row_wf(gs: Seq<(char, GlyphView)>, text: Seq<char>)
    requires
        forall|i: int| 0 <= i < gs.len() ==> gv_wf((#[trigger] gs[i]).1),
    ensures
        collect_row(gs, text) is Some ==> {
            let row = collect_row(gs, text)->Some_0;
            &&& row.len() == text.len()
            &&& forall|j: int| 0 <= j < row.len() ==> gv_wf(#[trigger] row[j])
        },
    decreases text.len(),
{
    if text.len() > 0 {
        lemma_ruby_lookup_wf(gs, text[0]);
        lemma_collect_row_wf(gs, text.skip(1));
        if collect_row(gs, text) is Some {
            let g = ruby_lookup(gs, text[0])->Some_0;
            let rest = collect_row(gs, text.skip(1))->Some_0;
            let row = collect_row(gs, text)->Some_0;
            assert(row == seq![g] + rest);
            assert forall|j: int| 0 <= j < row.len() implies gv_wf(#[trigger] row[j]) by {
                if j == 0 {
                    assert(row[0] == g);
                } else {
                    assert(row[j] == rest[j - 1]);
                }
            }
        }
    }
}

pub proof fn lemma_collect_parts_wf(gs: Seq<(char, GlyphView)>, parts: Seq<Seq<char>>)
    requires
        forall|i: int| 0 <= i < gs.len() ==> gv_wf((#[trigger] gs[i]).1),
    ensures
        collect_parts(gs, parts) is Some ==> {
            let ps = collect_parts(gs, parts)->Some_0;
            &&& ps.len() == parts.len()
            &&& parts_wf(ps)
        },
    decreases parts.len(),
{
    if parts.len() > 0 {
        lemma_collect_row_wf(gs, parts[0]);
        lemma_collect_parts_wf(gs, parts.skip(1));
        if collect_parts(gs, parts) is Some {
            let row = collect_row(gs, parts[0])->Some_0;
            let rest = collect_parts(gs, parts.skip(1))->Some_0;
            let ps = collect_parts(gs, parts)->Some_0;
            assert(ps == seq![row] + rest);
            assert forall|i: int, j: int|
                0 <= i < ps.len() && 0 <= j < ps[i].len() implies gv_wf(#[trigger] ps[i][j]) by {
                if i == 0 {
                    assert(ps[0] == row);
                } else {
                    assert(ps[i] == rest[i - 1]);
                }
            }
        }
    }
}

pub proof fn lemma_flatten_parts(ps: Seq<Seq<GlyphView>>)
    ensures
        flatten_parts(ps).len() == parts_glyph_count(ps),
        parts_wf(ps) ==> crate::placement::glyphs_wf(flatten_parts(ps)),
    decreases ps.len(),
{
    if ps.len() > 0 {
        lemma_flatten_parts(ps.skip(1));
        if parts_wf(ps) {
            assert forall|i: int, j: int|
                0 <= i < ps.skip(1).len() && 0 <= j < ps.skip(1)[i].len() implies gv_wf(
                #[trigger] ps.skip(1)[i][j],
            ) by {
                assert(ps.skip(1)[i] == ps[i + 1]);
            }
            let flat = flatten_parts(ps);
            let head = ps[0];
            let rest = flatten_parts(ps.skip(1));
            assert forall|k: int| 0 <= k < flat.len() implies gv_wf(#[trigger] flat[k]) by {
                if k < head.len() {
                    assert(flat[k] == head[k]);
                    assert(gv_wf(ps[0][k]));
                } else {
                    assert(flat[k] == rest[k - head.len()]);
                }
            }
        }
    }
}

impl RubyFont {
    /// The recorded glyph for `c`, if any.
    pub fn lookup(&self, c: char) -> (r: Option<RubyGlyph>)
        ensures
            r is Some <==> ruby_lookup(font_view(self.glyphs@), c) is Some,
            r is Some ==> r->Some_0@ == ruby_lookup(font_view(self.glyphs@), c)->Some_0,
    {
        let ghost fv = font_view(self.glyphs@);
        let mut i: usize = 0;
        proof {
            assert(fv.skip(0int) =~= fv);
        }
        while i < self.glyphs.len()
            invariant
                0 <= i <= self.glyphs.len(),
                fv == font_view(self.glyphs@),
                fv.len() == self.glyphs@.len(),
                ruby_lookup(fv, c) == ruby_lookup(fv.skip(i as int), c),
            decreases self.glyphs.len() - i,
        {
            proof {
                assert(fv.skip(i as int)[0] == fv[i as int]);
                assert(fv[i as int] == (self.glyphs@[i as int].0, self.glyphs@[i as int].1@));
                assert(fv.skip(i as int).skip(1int) =~= fv.skip(i + 1int));
            }
            if self.glyphs[i].0 == c {
                let g = &self.glyphs[i].1;
                let copied = copy_els(&g.path);
                return Some(RubyGlyph { path: copied, advance: g.advance });
            }
            i = i + 1;
        }
        proof {
            assert(fv.skip(self.glyphs@.len() as int) =~= Seq::<(char, GlyphView)>::empty());
        }
        None
    }
}

/// Copy a path element vector.
pub fn copy_els(v: &Vec<PathEl>) -> (r: Vec<PathEl>)
    ensures
        r@ == v@,
{
    let mut r: Vec<PathEl> = Vec::new();
    let mut i: usize = 0;
    while i < v.len()
        invariant
            0 <= i <= v.len(),
            r@ == v@.take(i as int),
        decreases v.len() - i,
    {
        r.push(v[i]);
        proof {
            assert(v@.take(i + 1int) =~= v@.take(i as int).push(v@[i as int]));
        }
        i = i + 1;
    }
    proof {
        assert(v@.take(v@.len() as int) =~= v@);
    }
    r
}

/// The glyphs for `text`, atomically: `None` if any character is absent.
pub fn collect_glyph_paths(font: &RubyFont, text: &Vec<char>) -> (r: Option<Vec<RubyGlyph>>)
    ensures
        r is Some <==> collect_row(font_view(font.glyphs@), text@) is Some,
        r is Some ==> row_view(r->Some_0@) == collect_row(font_view(font.glyphs@), text@)->Some_0,
{
    let ghost fv = font_view(font.glyphs@);
    let mut out: Vec<RubyGlyph> = Vec::new();
    let mut i: usize = 0;
    proof {
        assert(text@.skip(0int) =~= text@);
        assert(row_view(out@) =~= Seq::<GlyphView>::empty());
    }
    while i < text.len()
        invariant
            0 <= i <= text.len(),
            fv == font_view(font.glyphs@),
            collect_row(fv, text@) is Some <==> collect_row(fv, text@.skip(i as int)) is Some,
            collect_row(fv, text@) is Some ==> collect_row(fv, text@)->Some_0 == row_view(out@)
                + collect_row(fv, text@.skip(i as int))->Some_0,
        decreases text.len() - i,
    {
        let ghost rem = text@.skip(i as int);
        proof {
            assert(rem[0] == text@[i as int]);
            assert(rem.skip(1int) =~= text@.skip(i + 1int));
        }
        match font.lookup(text[i]) {
            None => {
                return None;
            },
            Some(g) => {
                proof {
                    let gview = ruby_lookup(fv, text@[i as int])->Some_0;
                    assert(g@ == gview);
                    assert(row_view(out@.push(g)) =~= row_view(out@).push(g@));
                    if collect_row(fv, text@.skip(i + 1int)) is Some {
                        assert(row_view(out@) + (seq![gview] + collect_row(
                            fv,
                            text@.skip(i + 1int),
                        )->Some_0) =~= row_view(out@).push(gview) + collect_row(
                            fv,
                            text@.skip(i + 1int),
                        )->Some_0);
                    }
                }
                out.push(g);
            },
        }
        i = i + 1;
    }
    proof {
        assert(text@.skip(text@.len() as int) =~= Seq::<char>::empty());
        assert(collect_row(fv, Seq::<char>::empty()) == Some(Seq::<GlyphView>::empty()));
        assert(row_view(out@) + Seq::<GlyphView>::empty() =~= row_view(out@));
    }
    Some(out)
}

} // verus!

verus! {

/// The glyphs for every part, atomically: `None` if any character of
/// any part is absent.
pub fn collect_parts_x(font: &RubyFont, parts: &Vec<Vec<char>>) -> (r: Option<Vec<Vec<RubyGlyph>>>)
    ensures
        r is Some <==> collect_parts(
            font_view(font.glyphs@),
            crate::resolve::parts_chars(parts@),
        ) is Some,
        r is Some ==> crate::placement::parts_view(r->Some_0@) == collect_parts(
            font_view(font.glyphs@),
            crate::resolve::parts_chars(parts@),
        )->Some_0,
{
    let ghost fv = font_view(font.glyphs@);
    let ghost pc = crate::resolve::parts_chars(parts@);
    let mut out: Vec<Vec<RubyGlyph>> = Vec::new();
    let mut i: usize = 0;
    proof {
        assert(pc.skip(0int) =~= pc);
        assert(crate::placement::parts_view(out@) =~= Seq::<Seq<GlyphView>>::empty());
    }
    while i < parts.len()
        invariant
            0 <= i <= parts.len(),
            fv == font_view(font.glyphs@),
            pc == crate::resolve::parts_chars(parts@),
            pc.len() == parts@.len(),
            collect_parts(fv, pc) is Some <==> collect_parts(fv, pc.skip(i as int)) is Some,
            collect_parts(fv, pc) is Some ==> collect_parts(fv, pc)->Some_0
                == crate::placement::parts_view(out@) + collect_parts(
                fv,
                pc.skip(i as int),
            )->Some_0,
        decreases parts.len() - i,
    {
        let ghost rem = pc.skip(i as int);
        proof {
            assert(rem[0] == pc[i as int]);
            assert(pc[i as int] == parts@[i as int]@);
            assert(rem.skip(1int) =~= pc.skip(i + 1int));
        }
        match collect_glyph_paths(font, &parts[i]) {
            None => {
                return None;
            },
            Some(row) => {
                proof {
                    let rview = collect_row(fv, pc[i as int])->Some_0;
                    assert(row_view(row@) == rview);
                    assert(crate::placement::parts_view(out@.push(row)) =~= crate::placement::parts_view(out@).push(row_view(row@)));
                    if collect_parts(fv, pc.skip(i + 1int)) is Some {
                        assert(crate::placement::parts_view(out@) + (seq![rview] + collect_parts(
                            fv,
                            pc.skip(i + 1int),
                        )->Some_0) =~= crate::placement::parts_view(out@).push(rview)
                            + collect_parts(fv, pc.skip(i + 1int))->Some_0);
                    }
                }
                out.push(row);
            },
        }
        i = i + 1;
    }
    proof {
        assert(pc.skip(pc.len() as int) =~= Seq::<Seq<char>>::empty());
        assert(collect_parts(fv, Seq::<Seq<char>>::empty()) == Some(
            Seq::<Seq<GlyphView>>::empty(),
        ));
        assert(crate::placement::parts_view(out@) + Seq::<Seq<GlyphView>>::empty()
            =~= crate::placement::parts_view(out@));
    }
    Some(out)
}

/// Runtime check of the placement engine's size limits.
pub fn parts_sized_x(parts: &Vec<Vec<RubyGlyph>>) -> (r: bool)
    ensures
        r == crate::placement::parts_sized(crate::placement::parts_view(parts@)),
{
    let ghost ps = crate::placement::parts_view(parts@);
    if parts.len() > 1024 {
        return false;
    }
    let mut acc: usize = 0;
    let mut i: usize = 0;
    proof {
        assert(ps.take(0int) =~= Seq::<Seq<GlyphView>>::empty());
        crate::placement::lemma_count_nonneg(ps);
    }
    while i < parts.len()
        invariant
            0 <= i <= parts.len(),
            ps == crate::placement::parts_view(parts@),
            ps.len() == parts@.len() <= 1024,
            acc == parts_glyph_count(ps.take(i as int)),
            acc <= 1024,
        decreases parts.len() - i,
    {
        proof {
            crate::placement::lemma_count_split(ps.take(i + 1int), i as int);
            assert(ps.take(i + 1int).take(i as int) =~= ps.take(i as int));
            assert(ps.take(i + 1int).skip(i as int) =~= seq![ps[i as int]]);
            assert(seq![ps[i as int]].skip(1int) =~= Seq::<Seq<GlyphView>>::empty());
            assert(parts_glyph_count(Seq::<Seq<GlyphView>>::empty()) == 0);
            assert(seq![ps[i as int]][0] == ps[i as int]);
            assert(parts_glyph_count(seq![ps[i as int]]) == ps[i as int].len());
            assert(ps[i as int].len() == parts@[i as int]@.len());
        }
        let len = parts[i].len();
        if len > 1024 - acc {
            proof {
                crate::placement::lemma_count_split(ps, i + 1int);
                crate::placement::lemma_count_nonneg(ps.skip(i + 1int));
            }
            return false;
        }
        acc = acc + len;
        i = i + 1;
    }
    proof {
        assert(ps.take(parts@.len() as int) =~= ps);
    }
    true
}

} // verus!

use crate::placement::{
    approx_h, approx_height, base_coord_max, cache_wf, milli_max,
    parts_sized, parts_view, render_side, render_top_bottom, scale_milli_max, side_els,
    tb_cache_after, tb_els, BaselineCache, PlaceParams,
};
use crate::resolve::{parts_chars, pinyin_of, pinyin_with_tone, split_on, split_parts};

verus! {

/// The syllable-transliteration renderer: annotates a character with
/// its tone-marked syllable, optionally split into parts on a
/// delimiter.
#[derive(Clone, Copy, Debug)]
pub struct PinyinRenderer {
    pub scale_milli: u16,
    pub gutter_milli: i32,
    pub baseline_milli: i32,
    pub spacing_milli: i32,
    pub delimiter: Option<char>,
    pub position: RubyPosition,
    pub tight: bool,
}

impl PinyinRenderer {
    pub open spec fn wf(self) -> bool {
        &&& 1 <= self.scale_milli as int <= scale_milli_max()
        &&& -milli_max() <= self.gutter_milli as int <= milli_max()
        &&& -milli_max() <= self.baseline_milli as int <= milli_max()
        &&& -milli_max() <= self.spacing_milli as int <= milli_max()
    }

    /// Placement parameters for one annotation-font / main-font pair.
    pub open spec fn params(self, ruby_upem: u16, main_upem: u16) -> PlaceParams {
        PlaceParams {
            ruby_upem,
            scale_milli: self.scale_milli,
            main_upem,
            gutter_milli: self.gutter_milli,
            baseline_milli: self.baseline_milli,
            spacing_milli: self.spacing_milli,
            tight: self.tight,
        }
    }

    pub fn new(
        scale_milli: u16,
        gutter_milli: i32,
        delimiter: Option<char>,
        spacing_milli: i32,
        position: RubyPosition,
        baseline_milli: i32,
        tight: bool,
    ) -> (r: PinyinRenderer)
        requires
            1 <= scale_milli as int <= scale_milli_max(),
            -milli_max() <= gutter_milli as int <= milli_max(),
            -milli_max() <= baseline_milli as int <= milli_max(),
            -milli_max() <= spacing_milli as int <= milli_max(),
        ensures
            r == (PinyinRenderer {
                scale_milli,
                gutter_milli,
                baseline_milli,
                spacing_milli,
                delimiter,
                position,
                tight,
            }),
            r.wf(),
    {
        PinyinRenderer {
            scale_milli,
            gutter_milli,
            baseline_milli,
            spacing_milli,
            delimiter,
            position,
            tight,
        }
    }

    /// Unicode range this variant may annotate: the unified CJK block.
    pub fn ranges(&self) -> (r: Vec<(u32, u32)>)
        ensures
            r@ == seq![(0x4e00u32, 0x9fffu32)],
    {
        let mut r: Vec<(u32, u32)> = Vec::new();
        r.push((0x4e00, 0x9fff));
        proof {
            assert(r@ =~= seq![(0x4e00u32, 0x9fffu32)]);
        }
        r
    }
}

/// The glyph runs a syllable annotation would place for `ch`: `None`
/// when the character has no syllable or some needed glyph is missing.
pub open spec fn pinyin_collected(
    r: PinyinRenderer,
    ch: char,
    fg: Seq<(char, GlyphView)>,
) -> Option<Seq<Seq<GlyphView>>> {
    match pinyin_of(ch) {
        None => None,
        Some(text) => collect_parts(fg, split_parts(text, r.delimiter)),
    }
}

/// Vertical step of a side-stacked syllable annotation:
/// `0.8 * scaleRatio * mainUPM`, truncated.
pub open spec fn pinyin_vstep(r: PinyinRenderer, main_upem: u16) -> int {
    approx_height(r.scale_milli as int, main_upem as int)
}

/// The elements a syllable annotation appends to the base path; empty
/// when the annotation is skipped (no syllable, a missing glyph, or an
/// annotation too large for the engine's size limits).
pub open spec fn pinyin_els(
    r: PinyinRenderer,
    ch: char,
    font_upem: u16,
    fg: Seq<(char, GlyphView)>,
    base: Seq<PathEl>,
    orig_advance: u16,
    main_upem: u16,
    cache: BaselineCache,
) -> Seq<PathEl> {
    match pinyin_collected(r, ch, fg) {
        None => Seq::empty(),
        Some(ps) => if !parts_sized(ps) {
            Seq::empty()
        } else if r.position.is_horizontal() {
            tb_els(
                r.params(font_upem, main_upem),
                ps,
                base,
                r.position == RubyPosition::Top,
                cache,
                orig_advance,
            )
        } else {
            side_els(
                r.params(font_upem, main_upem),
                flatten_parts(ps),
                base,
                r.position,
                orig_advance,
                pinyin_vstep(r, main_upem),
            )
        },
    }
}

/// The cache after a syllable annotation: updated only by a placed
/// non-tight top/bottom annotation.
pub open spec fn pinyin_cache_out(
    r: PinyinRenderer,
    ch: char,
    font_upem: u16,
    fg: Seq<(char, GlyphView)>,
    base: Seq<PathEl>,
    main_upem: u16,
    cache: BaselineCache,
) -> BaselineCache {
    match pinyin_collected(r, ch, fg) {
        None => cache,
        Some(ps) => if !parts_sized(ps) {
            cache
        } else if r.position.is_horizontal() {
            tb_cache_after(
                r.params(font_upem, main_upem),
                ps,
                base,
                r.position == RubyPosition::Top,
                cache,
            )
        } else {
            cache
        },
    }
}

} // verus!

verus! {

impl PinyinRenderer {
    /// Annotate `ch`: resolve its tone-marked syllable, split it into
    /// parts, look up every needed annotation glyph, and splice the
    /// placed outlines into `final_path`. A missing syllable or a
    /// missing glyph is a silent no-op, never an error; existing
    /// geometry is never removed.
    pub fn annotate(
        &self,
        ch: char,
        font: &RubyFont,
        final_path: &mut Vec<PathEl>,
        orig_advance: u16,
        main_upem: u16,
        cache: &mut BaselineCache,
    )
        requires
            self.wf(),
            font.wf(),
            1 <= main_upem,
            path_within(old(final_path)@, base_coord_max()),
            cache_wf(*old(cache)),
        ensures
            final (final_path)@ == old(final_path)@ + pinyin_els(
                *self,
                ch,
                font.upem,
                font_view(font.glyphs@),
                old(final_path)@,
                orig_advance,
                main_upem,
                *old(cache),
            ),
            *final (cache) == pinyin_cache_out(
                *self,
                ch,
                font.upem,
                font_view(font.glyphs@),
                old(final_path)@,
                main_upem,
                *old(cache),
            ),
            cache_wf(*final (cache)),
            pinyin_of(ch) is None ==> final (final_path)@ == old(final_path)@,
    {
        let ghost fg = font_view(font.glyphs@);
        let ghost base0 = final_path@;
        let resolved = pinyin_with_tone(ch);
        let text = match resolved {
            None => {
                proof {
                    assert(base0 + Seq::<PathEl>::empty() =~= base0);
                }
                return ;
            },
            Some(t) => t,
        };
        let parts = split_on(&text, self.delimiter);
        proof {
            assert(parts_chars(parts@) == split_parts(pinyin_of(ch)->Some_0, self.delimiter));
        }
        let collected = collect_parts_x(font, &parts);
        let ps_vec = match collected {
            None => {
                proof {
                    assert(base0 + Seq::<PathEl>::empty() =~= base0);
                }
                return ;
            },
            Some(v) => v,
        };
        let ghost ps = collect_parts(fg, parts_chars(parts@))->Some_0;
        proof {
            assert(parts_view(ps_vec@) == ps);
        }
        if !parts_sized_x(&ps_vec) {
            proof {
                assert(base0 + Seq::<PathEl>::empty() =~= base0);
            }
            return ;
        }
        proof {
            lemma_collect_parts_wf(fg, parts_chars(parts@));
            assert(crate::placement::parts_wf(ps));
        }
        let pp = PlaceParams {
            ruby_upem: font.upem,
            scale_milli: self.scale_milli,
            main_upem,
            gutter_milli: self.gutter_milli,
            baseline_milli: self.baseline_milli,
            spacing_milli: self.spacing_milli,
            tight: self.tight,
        };
        if matches!(self.position, RubyPosition::Top | RubyPosition::Bottom) {
            render_top_bottom(final_path, &ps_vec, &pp, orig_advance, self.position, cache);
        } else {
            let mut flat: Vec<RubyGlyph> = Vec::new();
            let mut pi: usize = 0;
            proof {
                assert(ps.take(0int) =~= Seq::<Seq<GlyphView>>::empty());
                assert(flatten_parts(Seq::<Seq<GlyphView>>::empty()) == Seq::<GlyphView>::empty());
                assert(row_view(flat@) =~= Seq::<GlyphView>::empty());
            }
            while pi < ps_vec.len()
                invariant
                    0 <= pi <= ps_vec.len(),
                    ps == parts_view(ps_vec@),
                    ps.len() == ps_vec@.len(),
                    row_view(flat@) == flatten_parts(ps.take(pi as int)),
                decreases ps_vec.len() - pi,
            {
                let part = &ps_vec[pi];
                let mut gi: usize = 0;
                while gi < part.len()
                    invariant
                        0 <= gi <= part.len(),
                        ps == parts_view(ps_vec@),
                        ps.len() == ps_vec@.len(),
                        pi < ps_vec.len(),
                        part@ == ps_vec@[pi as int]@,
                        row_view(part@) == ps[pi as int],
                        row_view(flat@) == flatten_parts(ps.take(pi as int)) + ps[pi as int].take(
                            gi as int,
                        ),
                    decreases part.len() - gi,
                {
                    let g = &part[gi];
                    let copied = RubyGlyph { path: copy_els(&g.path), advance: g.advance };
                    proof {
                        assert(copied@ == part@[gi as int]@);
                        assert(part@[gi as int]@ == ps[pi as int][gi as int]);
                        assert(row_view(flat@.push(copied)) =~= row_view(flat@).push(copied@));
                        assert(ps[pi as int].take(gi + 1int) =~= ps[pi as int].take(
                            gi as int,
                        ).push(ps[pi as int][gi as int]));
                        assert(flatten_parts(ps.take(pi as int)) + ps[pi as int].take(gi + 1int)
                            =~= (flatten_parts(ps.take(pi as int)) + ps[pi as int].take(
                            gi as int,
                        )).push(ps[pi as int][gi as int]));
                    }
                    flat.push(copied);
                    gi = gi + 1;
                }
                proof {
                    assert(ps[pi as int].take(ps[pi as int].len() as int) =~= ps[pi as int]);
                    // flatten of the grown prefix
                    lemma_flatten_split(ps.take(pi + 1int), pi as int);
                    assert(ps.take(pi + 1int).take(pi as int) =~= ps.take(pi as int));
                    assert(ps.take(pi + 1int).skip(pi as int) =~= seq![ps[pi as int]]);
                    assert(seq![ps[pi as int]].skip(1int) =~= Seq::<Seq<GlyphView>>::empty());
                    assert(flatten_parts(Seq::<Seq<GlyphView>>::empty())
                        == Seq::<GlyphView>::empty());
                    assert(seq![ps[pi as int]][0] == ps[pi as int]);
                    assert(flatten_parts(seq![ps[pi as int]]) =~= ps[pi as int]);
                    assert(flatten_parts(ps.take(pi + 1int)) =~= flatten_parts(ps.take(pi as int))
                        + ps[pi as int]);
                }
                pi = pi + 1;
            }
            proof {
                assert(ps.take(ps_vec@.len() as int) =~= ps);
                lemma_flatten_parts(ps);
                crate::placement::lemma_count_nonneg(ps);
            }
            let vstep = approx_h(self.scale_milli, main_upem);
            render_side(final_path, &flat, &pp, orig_advance, self.position, vstep);
        }
    }
}

/// Flattening splits over concatenation of part lists.
pub proof fn lemma_flatten_split(ps: Seq<Seq<GlyphView>>, j: int)
    requires
        0 <= j <= ps.len(),
    ensures
        flatten_parts(ps) == flatten_parts(ps.take(j)) + flatten_parts(ps.skip(j)),
    decreases j,
{
    if j == 0 {
        assert(ps.take(0int) =~= Seq::<Seq<GlyphView>>::empty());
        assert(ps.skip(0int) =~= ps);
        assert(flatten_parts(ps.take(0int)) + flatten_parts(ps) =~= flatten_parts(ps));
    } else {
        lemma_flatten_split(ps.skip(1), j - 1);
        assert(ps.take(j)[0] == ps[0]);
        assert(ps.take(j).skip(1) =~= ps.skip(1).take(j - 1));
        assert(ps.skip(j) =~= ps.skip(1).skip(j - 1));
        assert(ps[0] + (flatten_parts(ps.skip(1).take(j - 1)) + flatten_parts(
            ps.skip(1).skip(j - 1),
        )) =~= (ps[0] + flatten_parts(ps.skip(1).take(j - 1))) + flatten_parts(
            ps.skip(1).skip(j - 1),
        ));
    }
}

} // verus!

use crate::placement::ruby_glyph_count_max;
use crate::resolve::{chars_eq, romaji_chars, romaji_excluded, romaji_of};

verus! {

/// The kana-transliteration renderer: annotates a kana or kanji
/// character with its romaji reading.
#[derive(Clone, Copy, Debug)]
pub struct RomajiRenderer {
    pub scale_milli: u16,
    pub gutter_milli: i32,
    pub baseline_milli: i32,
    pub position: RubyPosition,
    pub tight: bool,
}

impl RomajiRenderer {
    pub open spec fn wf(self) -> bool {
        &&& 1 <= self.scale_milli as int <= scale_milli_max()
        &&& -milli_max() <= self.gutter_milli as int <= milli_max()
        &&& -milli_max() <= self.baseline_milli as int <= milli_max()
    }

    /// Placement parameters; this variant has no part spacing.
    pub open spec fn params(self, ruby_upem: u16, main_upem: u16) -> PlaceParams {
        PlaceParams {
            ruby_upem,
            scale_milli: self.scale_milli,
            main_upem,
            gutter_milli: self.gutter_milli,
            baseline_milli: self.baseline_milli,
            spacing_milli: 0,
            tight: self.tight,
        }
    }

    pub fn new(
        scale_milli: u16,
        gutter_milli: i32,
        position: RubyPosition,
        baseline_milli: i32,
        tight: bool,
    ) -> (r: RomajiRenderer)
        requires
            1 <= scale_milli as int <= scale_milli_max(),
            -milli_max() <= gutter_milli as int <= milli_max(),
            -milli_max() <= baseline_milli as int <= milli_max(),
        ensures
            r == (RomajiRenderer { scale_milli, gutter_milli, baseline_milli, position, tight }),
            r.wf(),
    {
        RomajiRenderer { scale_milli, gutter_milli, baseline_milli, position, tight }
    }

    /// Unicode ranges this variant may annotate: unified CJK, hiragana
    /// and katakana.
    pub fn ranges(&self) -> (r: Vec<(u32, u32)>)
        ensures
            r@ == seq![
                (0x4e00u32, 0x9fffu32),
                (0x3040u32, 0x309fu32),
                (0x30a0u32, 0x30ffu32),
            ],
    {
        let mut r: Vec<(u32, u32)> = Vec::new();
        r.push((0x4e00, 0x9fff));
        r.push((0x3040, 0x309f));
        r.push((0x30a0, 0x30ff));
        proof {
            assert(r@ =~= seq![
                (0x4e00u32, 0x9fffu32),
                (0x3040u32, 0x309fu32),
                (0x30a0u32, 0x30ffu32),
            ]);
        }
        r
    }
}

/// The romaji reading of one character.
pub open spec fn romaji_text(ch: char) -> Seq<char> {
    romaji_of(seq![ch])
}

/// A reading that is empty, the identity, or a bare dash is skipped.
pub open spec fn romaji_skipped(ch: char) -> bool {
    ||| romaji_text(ch).len() == 0
    ||| romaji_text(ch) == seq![ch]
    ||| romaji_text(ch) == seq!['-']
}

/// The glyph run a romaji annotation would place for `ch`. A halfwidth
/// sound mark is never handed to the transliteration.
pub open spec fn romaji_collected(ch: char, fg: Seq<(char, GlyphView)>) -> Option<Seq<GlyphView>> {
    if romaji_excluded(ch) || romaji_skipped(ch) {
        None
    } else {
        collect_row(fg, romaji_text(ch))
    }
}

/// Vertical step of a side-stacked romaji annotation:
/// `0.8 * scaleRatio * mainUPM`, truncated.
pub open spec fn romaji_vstep(r: RomajiRenderer, main_upem: u16) -> int {
    approx_height(r.scale_milli as int, main_upem as int)
}

/// The elements a romaji annotation appends to the base path.
pub open spec fn romaji_els(
    r: RomajiRenderer,
    ch: char,
    font_upem: u16,
    fg: Seq<(char, GlyphView)>,
    base: Seq<PathEl>,
    orig_advance: u16,
    main_upem: u16,
    cache: BaselineCache,
) -> Seq<PathEl> {
    match romaji_collected(ch, fg) {
        None => Seq::empty(),
        Some(row) => if row.len() > ruby_glyph_count_max() {
            Seq::empty()
        } else if r.position.is_horizontal() {
            tb_els(
                r.params(font_upem, main_upem),
                seq![row],
                base,
                r.position == RubyPosition::Top,
                cache,
                orig_advance,
            )
        } else {
            side_els(
                r.params(font_upem, main_upem),
                row,
                base,
                r.position,
                orig_advance,
                romaji_vstep(r, main_upem),
            )
        },
    }
}

/// The cache after a romaji annotation.
pub open spec fn romaji_cache_out(
    r: RomajiRenderer,
    ch: char,
    font_upem: u16,
    fg: Seq<(char, GlyphView)>,
    base: Seq<PathEl>,
    main_upem: u16,
    cache: BaselineCache,
) -> BaselineCache {
    match romaji_collected(ch, fg) {
        None => cache,
        Some(row) => if row.len() > ruby_glyph_count_max() {
            cache
        } else if r.position.is_horizontal() {
            tb_cache_after(
                r.params(font_upem, main_upem),
                seq![row],
                base,
                r.position == RubyPosition::Top,
                cache,
            )
        } else {
            cache
        },
    }
}

impl RomajiRenderer {
    /// Annotate `ch` with its romaji reading. An empty, identity or
    /// dash reading, or a missing glyph, is a silent no-op.
    pub fn annotate(
        &self,
        ch: char,
        font: &RubyFont,
        final_path: &mut Vec<PathEl>,
        orig_advance: u16,
        main_upem: u16,
        cache: &mut BaselineCache,
    )
        requires
            self.wf(),
            font.wf(),
            1 <= main_upem,
            path_within(old(final_path)@, base_coord_max()),
            cache_wf(*old(cache)),
        ensures
            final (final_path)@ == old(final_path)@ + romaji_els(
                *self,
                ch,
                font.upem,
                font_view(font.glyphs@),
                old(final_path)@,
                orig_advance,
                main_upem,
                *old(cache),
            ),
            *final (cache) == romaji_cache_out(
                *self,
                ch,
                font.upem,
                font_view(font.glyphs@),
                old(final_path)@,
                main_upem,
                *old(cache),
            ),
            cache_wf(*final (cache)),
            romaji_excluded(ch) || romaji_skipped(ch) ==> final (final_path)@ == old(
                final_path,
            )@,
    {
        let ghost fg = font_view(font.glyphs@);
        let ghost base0 = final_path@;
        if ch == '\u{ff9e}' || ch == '\u{ff9f}' {
            proof {
                assert(base0 + Seq::<PathEl>::empty() =~= base0);
            }
            return ;
        }
        let mut kana: Vec<char> = Vec::new();
        kana.push(ch);
        proof {
            assert(kana@ =~= seq![ch]);
            assert(forall|i: int| 0 <= i < kana@.len() ==> kana@[i] == ch);
        }
        let romaji = romaji_chars(&kana);
        let dash = romaji.len() == 1 && romaji[0] == '-';
        proof {
            if dash {
                assert(romaji@ =~= seq!['-']);
            }
            if romaji@ == seq!['-'] {
                assert(romaji@.len() == 1 && romaji@[0] == '-');
            }
        }
        if romaji.len() == 0 || chars_eq(&romaji, &kana) || dash {
            proof {
                assert(romaji_skipped(ch));
                assert(base0 + Seq::<PathEl>::empty() =~= base0);
            }
            return ;
        }
        proof {
            assert(!romaji_skipped(ch));
        }
        let collected = collect_glyph_paths(font, &romaji);
        let row_vec = match collected {
            None => {
                proof {
                    assert(base0 + Seq::<PathEl>::empty() =~= base0);
                }
                return ;
            },
            Some(v) => v,
        };
        let ghost row = collect_row(fg, romaji_text(ch))->Some_0;
        proof {
            assert(row_view(row_vec@) == row);
            lemma_collect_row_wf(fg, romaji_text(ch));
        }
        if row_vec.len() > 1024 {
            proof {
                assert(base0 + Seq::<PathEl>::empty() =~= base0);
            }
            return ;
        }
        let pp = PlaceParams {
            ruby_upem: font.upem,
            scale_milli: self.scale_milli,
            main_upem,
            gutter_milli: self.gutter_milli,
            baseline_milli: self.baseline_milli,
            spacing_milli: 0,
            tight: self.tight,
        };
        if matches!(self.position, RubyPosition::Top | RubyPosition::Bottom) {
            let mut single: Vec<Vec<RubyGlyph>> = Vec::new();
            single.push(row_vec);
            proof {
                assert(parts_view(single@) =~= seq![row]);
                assert(seq![row].skip(1int) =~= Seq::<Seq<GlyphView>>::empty());
                assert(parts_glyph_count(Seq::<Seq<GlyphView>>::empty()) == 0);
                assert(seq![row][0] == row);
                assert(parts_glyph_count(seq![row]) == row.len());
                assert(crate::placement::parts_sized(seq![row]));
                assert forall|i: int, j: int|
                    0 <= i < seq![row].len() && 0 <= j < seq![row][i].len() implies gv_wf(
                    #[trigger] seq![row][i][j],
                ) by {
                    assert(seq![row][i] == row);
                }
            }
            render_top_bottom(final_path, &single, &pp, orig_advance, self.position, cache);
        } else {
            let vstep = approx_h(self.scale_milli, main_upem);
            render_side(final_path, &row_vec, &pp, orig_advance, self.position, vstep);
        }
    }
}

} // verus!

verus! {

/// A configured annotation variant, selected by configuration; all
/// variants share the `annotate` / `ranges` contract shape.
#[derive(Clone, Copy, Debug)]
pub enum RubyRenderer {
    Pinyin(PinyinRenderer),
    Romaji(RomajiRenderer),
}

impl RubyRenderer {
    pub open spec fn wf(self) -> bool {
        match self {
            RubyRenderer::Pinyin(p) => p.wf(),
            RubyRenderer::Romaji(m) => m.wf(),
        }
    }
}

/// The Unicode ranges a renderer declares.
pub open spec fn renderer_ranges(r: RubyRenderer) -> Seq<(u32, u32)> {
    match r {
        RubyRenderer::Pinyin(_) => seq![(0x4e00u32, 0x9fffu32)],
        RubyRenderer::Romaji(_) => seq![
            (0x4e00u32, 0x9fffu32),
            (0x3040u32, 0x309fu32),
            (0x30a0u32, 0x30ffu32),
        ],
    }
}

/// Whether `c` falls in one of the inclusive ranges.
pub open spec fn char_in_ranges(c: char, rs: Seq<(u32, u32)>) -> bool {
    exists|i: int| 0 <= i < rs.len() && (#[trigger] rs[i]).0 <= c as u32 <= rs[i].1
}

/// The elements a renderer appends for `ch`.
pub open spec fn renderer_els(
    r: RubyRenderer,
    ch: char,
    font_upem: u16,
    fg: Seq<(char, GlyphView)>,
    base: Seq<PathEl>,
    orig_advance: u16,
    main_upem: u16,
    cache: BaselineCache,
) -> Seq<PathEl> {
    match r {
        RubyRenderer::Pinyin(p) => pinyin_els(
            p,
            ch,
            font_upem,
            fg,
            base,
            orig_advance,
            main_upem,
            cache,
        ),
        RubyRenderer::Romaji(m) => romaji_els(
            m,
            ch,
            font_upem,
            fg,
            base,
            orig_advance,
            main_upem,
            cache,
        ),
    }
}

/// The cache a renderer leaves behind for `ch`.
pub open spec fn renderer_cache_out(
    r: RubyRenderer,
    ch: char,
    font_upem: u16,
    fg: Seq<(char, GlyphView)>,
    base: Seq<PathEl>,
    main_upem: u16,
    cache: BaselineCache,
) -> BaselineCache {
    match r {
        RubyRenderer::Pinyin(p) => pinyin_cache_out(p, ch, font_upem, fg, base, main_upem, cache),
        RubyRenderer::Romaji(m) => romaji_cache_out(m, ch, font_upem, fg, base, main_upem, cache),
    }
}

impl RubyRenderer {
    /// Annotate `ch` through whichever variant this is.
    pub fn annotate(
        &self,
        ch: char,
        font: &RubyFont,
        final_path: &mut Vec<PathEl>,
        orig_advance: u16,
        main_upem: u16,
        cache: &mut BaselineCache,
    )
        requires
            self.wf(),
            font.wf(),
            1 <= main_upem,
            path_within(old(final_path)@, base_coord_max()),
            cache_wf(*old(cache)),
        ensures
            final (final_path)@ == old(final_path)@ + renderer_els(
                *self,
                ch,
                font.upem,
                font_view(font.glyphs@),
                old(final_path)@,
                orig_advance,
                main_upem,
                *old(cache),
            ),
            *final (cache) == renderer_cache_out(
                *self,
                ch,
                font.upem,
                font_view(font.glyphs@),
                old(final_path)@,
                main_upem,
                *old(cache),
            ),
            cache_wf(*final (cache)),
    {
        match self {
            RubyRenderer::Pinyin(p) => p.annotate(ch, font, final_path, orig_advance, main_upem, cache),
            RubyRenderer::Romaji(m) => m.annotate(ch, font, final_path, orig_advance, main_upem, cache),
        }
    }

    /// The Unicode ranges this renderer declares.
    pub fn ranges(&self) -> (r: Vec<(u32, u32)>)
        ensures
            r@ == renderer_ranges(*self),
    {
        match self {
            RubyRenderer::Pinyin(p) => p.ranges(),
            RubyRenderer::Romaji(m) => m.ranges(),
        }
    }
}

/// Runtime check of range membership.
pub fn in_ranges(c: char, rs: &Vec<(u32, u32)>) -> (r: bool)
    ensures
        r == char_in_ranges(c, rs@),
{
    let u = c as u32;
    let mut i: usize = 0;
    while i < rs.len()
        invariant
            0 <= i <= rs.len(),
            u == c as u32,
            forall|j: int| 0 <= j < i ==> !((#[trigger] rs@[j]).0 <= c as u32 <= rs@[j].1),
        decreases rs.len() - i,
    {
        let (lo, hi) = rs[i];
        if lo <= u && u <= hi {
            return true;
        }
        i = i + 1;
    }
    false
}

/// Annotation only adds geometry: after a syllable annotation the
/// base path's bounding-box area is at least what it was before.
pub proof fn lemma_pinyin_annotation_grows(
    r: PinyinRenderer,
    ch: char,
    font_upem: u16,
    fg: Seq<(char, GlyphView)>,
    base: Seq<PathEl>,
    orig_advance: u16,
    main_upem: u16,
    cache: BaselineCache,
)
    ensures
        crate::path::bbox_area(
            crate::path::path_bbox(
                base + pinyin_els(r, ch, font_upem, fg, base, orig_advance, main_upem, cache),
            ),
        ) >= crate::path::bbox_area(crate::path::path_bbox(base)),
{
    crate::path::lemma_area_grows_on_append(
        base,
        pinyin_els(r, ch, font_upem, fg, base, orig_advance, main_upem, cache),
    );
}

/// Non-tight Top placement clearance: every point a syllable
/// annotation adds lies at or above the base glyph's top edge plus
/// gutter and baseline offset, whatever the cache held.
pub proof fn lemma_pinyin_top_clears_base(
    r: PinyinRenderer,
    ch: char,
    font_upem: u16,
    fg: Seq<(char, GlyphView)>,
    base: Seq<PathEl>,
    orig_advance: u16,
    main_upem: u16,
    cache: BaselineCache,
)
    requires
        r.wf(),
        !r.tight,
        r.position == RubyPosition::Top,
        1 <= font_upem,
        1 <= main_upem,
        forall|i: int| 0 <= i < fg.len() ==> gv_wf((#[trigger] fg[i]).1),
        crate::path::path_within(base, base_coord_max()),
        cache_wf(cache),
    ensures
        ({
            let els = pinyin_els(r, ch, font_upem, fg, base, orig_advance, main_upem, cache);
            let bz = crate::placement::bbox_or_zero(crate::path::path_bbox(base));
            forall|k: int|
                0 <= k < crate::path::path_points(els).len() ==> bz.y1 as int + r.params(
                    font_upem,
                    main_upem,
                ).gu() + r.params(font_upem, main_upem).bo() <= (#[trigger] crate::path::path_points(
                    els,
                )[k]).y as int
        }),
{
    match pinyin_collected(r, ch, fg) {
        None => {},
        Some(ps) => {
            if parts_sized(ps) {
                lemma_collect_parts_wf(fg, split_parts(pinyin_of(ch)->Some_0, r.delimiter));
                crate::placement::lemma_top_els_clear_base(
                    r.params(font_upem, main_upem),
                    ps,
                    base,
                    cache,
                    orig_advance,
                );
            }
        },
    }
}

/// The same clearance for a romaji annotation in non-tight Top mode.
pub proof fn lemma_romaji_top_clears_base(
    r: RomajiRenderer,
    ch: char,
    font_upem: u16,
    fg: Seq<(char, GlyphView)>,
    base: Seq<PathEl>,
    orig_advance: u16,
    main_upem: u16,
    cache: BaselineCache,
)
    requires
        r.wf(),
        !r.tight,
        r.position == RubyPosition::Top,
        1 <= font_upem,
        1 <= main_upem,
        forall|i: int| 0 <= i < fg.len() ==> gv_wf((#[trigger] fg[i]).1),
        crate::path::path_within(base, base_coord_max()),
        cache_wf(cache),
    ensures
        ({
            let els = romaji_els(r, ch, font_upem, fg, base, orig_advance, main_upem, cache);
            let bz = crate::placement::bbox_or_zero(crate::path::path_bbox(base));
            forall|k: int|
                0 <= k < crate::path::path_points(els).len() ==> bz.y1 as int + r.params(
                    font_upem,
                    main_upem,
                ).gu() + r.params(font_upem, main_upem).bo() <= (#[trigger] crate::path::path_points(
                    els,
                )[k]).y as int
        }),
{
    match romaji_collected(ch, fg) {
        None => {},
        Some(row) => {
            if row.len() <= ruby_glyph_count_max() {
                lemma_collect_row_wf(fg, romaji_text(ch));
                assert forall|i: int, j: int|
                    0 <= i < seq![row].len() && 0 <= j < seq![row][i].len() implies gv_wf(
                    #[trigger] seq![row][i][j],
                ) by {
                    assert(seq![row][i] == row);
                }
                assert(seq![row].skip(1int) =~= Seq::<Seq<GlyphView>>::empty());
                assert(parts_glyph_count(Seq::<Seq<GlyphView>>::empty()) == 0);
                assert(seq![row][0] == row);
                assert(parts_glyph_count(seq![row]) == row.len());
                crate::placement::lemma_top_els_clear_base(
                    r.params(font_upem, main_upem),
                    seq![row],
                    base,
                    cache,
                    orig_advance,
                );
            }
        },
    }
}

/// Annotation only adds geometry: after a romaji annotation the base
/// path's bounding-box area is at least what it was before.
pub proof fn lemma_romaji_annotation_grows(
    r: RomajiRenderer,
    ch: char,
    font_upem: u16,
    fg: Seq<(char, GlyphView)>,
    base: Seq<PathEl>,
    orig_advance: u16,
    main_upem: u16,
    cache: BaselineCache,
)
    ensures
        crate::path::bbox_area(
            crate::path::path_bbox(
                base + romaji_els(r, ch, font_upem, fg, base, orig_advance, main_upem, cache),
            ),
        ) >= crate::path::bbox_area(crate::path::path_bbox(base)),
{
    crate::path::lemma_area_grows_on_append(
        base,
        romaji_els(r, ch, font_upem, fg, base, orig_advance, main_upem, cache),
    );
}

} // verus!
