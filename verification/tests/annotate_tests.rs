use rubify::path::{PathEl, Point};
use rubify::placement::{BaselineCache, RubyGlyph};
use rubify::renderer::{PinyinRenderer, RomajiRenderer, RubyFont, RubyPosition};

fn pt(x: i64, y: i64) -> Point {
    Point { x, y }
}

/// A small closed box from (0,0) to (w,h).
fn box_path(w: i64, h: i64) -> Vec<PathEl> {
    vec![
        PathEl::MoveTo(pt(0, 0)),
        PathEl::LineTo(pt(w, 0)),
        PathEl::LineTo(pt(w, h)),
        PathEl::LineTo(pt(0, h)),
        PathEl::Close,
    ]
}

fn ruby_font_for(chars: &str) -> RubyFont {
    let glyphs = chars
        .chars()
        .map(|c| {
            (
                c,
                RubyGlyph {
                    path: box_path(400, 600),
                    advance: Some(500),
                },
            )
        })
        .collect();
    RubyFont { upem: 1000, glyphs }
}

fn bbox_of(path: &[PathEl]) -> Option<(i64, i64, i64, i64)> {
    let mut b: Option<(i64, i64, i64, i64)> = None;
    let mut join = |p: &Point| {
        b = Some(match b {
            None => (p.x, p.y, p.x, p.y),
            Some((x0, y0, x1, y1)) => (x0.min(p.x), y0.min(p.y), x1.max(p.x), y1.max(p.y)),
        });
    };
    for el in path {
        match el {
            PathEl::MoveTo(p) | PathEl::LineTo(p) => join(p),
            PathEl::QuadTo(c, p) => {
                join(c);
                join(p);
            }
            PathEl::CurveTo(c1, c2, p) => {
                join(c1);
                join(c2);
                join(p);
            }
            PathEl::Close => {}
        }
    }
    b
}

/// Annotating a Latin letter with the syllable renderer finds no
/// mapping: the call succeeds and the base path is unchanged.
#[test]
fn latin_letter_is_silent_noop() {
    let r = PinyinRenderer::new(400, 0, None, 0, RubyPosition::Top, 0, false);
    let font = ruby_font_for("zhongàáǎ");
    let mut path = box_path(1000, 700);
    let before = path.clone();
    let mut cache = BaselineCache::new();
    r.annotate('a', &font, &mut path, 1000, 1000, &mut cache);
    assert_eq!(path, before);
    assert!(cache.top.is_none());
}

/// Annotating U+4E2D (scale 0.4, gutter 0, Top): the base path gains
/// new subpaths whose combined bounding box sits at or above the
/// original glyph's top edge.
#[test]
fn cjk_top_annotation_sits_above() {
    let r = PinyinRenderer::new(400, 0, None, 0, RubyPosition::Top, 0, false);
    // The tone-marked syllable for U+4E2D is zhōng; cover its letters.
    let zh = char::from_u32(0x4E2D).unwrap();
    let omac = char::from_u32(0x14D).unwrap(); // o with macron
    let mut covered = String::from("zhng");
    covered.push(omac);
    let font = ruby_font_for(&covered);
    let mut path = box_path(1000, 700);
    let base_len = path.len();
    let mut cache = BaselineCache::new();
    r.annotate(zh, &font, &mut path, 1000, 1000, &mut cache);
    assert!(path.len() > base_len, "annotation must add subpaths");
    let added = &path[base_len..];
    let (_, y0, _, _) = bbox_of(added).expect("added geometry has points");
    assert!(y0 >= 700, "annotation bottom edge {} below base top", y0);
    // The emitted target was recorded in the cache.
    assert!(cache.top.is_some());
}

/// A missing annotation glyph discards the annotation atomically.
#[test]
fn missing_glyph_discards_whole_annotation() {
    let r = PinyinRenderer::new(400, 0, None, 0, RubyPosition::Top, 0, false);
    let zh = char::from_u32(0x4E2D).unwrap();
    // Cover every letter except the macron o: collection must fail.
    let font = ruby_font_for("zhng");
    let mut path = box_path(1000, 700);
    let before = path.clone();
    let mut cache = BaselineCache::new();
    r.annotate(zh, &font, &mut path, 1000, 1000, &mut cache);
    assert_eq!(path, before);
}

/// Non-tight Top mode: the emitted baseline only ever rises, and an
/// earlier glyph's emitted target is not retroactively changed.
#[test]
fn top_baseline_widens_monotonically() {
    let r = PinyinRenderer::new(400, 0, None, 0, RubyPosition::Top, 0, false);
    let zh = char::from_u32(0x4E2D).unwrap();
    let omac = char::from_u32(0x14D).unwrap();
    let mut covered = String::from("zhng");
    covered.push(omac);
    let font = ruby_font_for(&covered);
    let mut cache = BaselineCache::new();

    // Glyph A: short base box.
    let mut path_a = box_path(1000, 300);
    r.annotate(zh, &font, &mut path_a, 1000, 1000, &mut cache);
    let target_a = cache.top.expect("target recorded");

    // Glyph B: much taller base box, processed after A.
    let mut path_b = box_path(1000, 900);
    r.annotate(zh, &font, &mut path_b, 1000, 1000, &mut cache);
    let target_b = cache.top.expect("target recorded");
    assert!(target_b >= target_a);

    // Glyph C: short again; the widened baseline stays.
    let mut path_c = box_path(1000, 200);
    r.annotate(zh, &font, &mut path_c, 1000, 1000, &mut cache);
    let target_c = cache.top.expect("target recorded");
    assert_eq!(target_c, target_b);
}

/// The kana renderer skips an identity reading and annotates a kana
/// character with its romaji.
#[test]
fn romaji_annotation_and_identity_skip() {
    let r = RomajiRenderer::new(300, 100, RubyPosition::Top, 0, false);
    let font = ruby_font_for("abcdefghijklmnopqrstuvwxyz");
    let mut cache = BaselineCache::new();

    // Identity: to_romaji("a") == "a", so nothing is placed.
    let mut path = box_path(1000, 700);
    let before = path.clone();
    r.annotate('a', &font, &mut path, 1000, 1000, &mut cache);
    assert_eq!(path, before);

    // A hiragana character gains its reading.
    let a_hira = char::from_u32(0x3042).unwrap();
    let mut path2 = box_path(1000, 700);
    let base_len = path2.len();
    r.annotate(a_hira, &font, &mut path2, 1000, 1000, &mut cache);
    assert!(path2.len() > base_len);
}

/// Side placement stacks glyphs beside the base glyph without touching
/// the baseline cache.
#[test]
fn side_placement_leaves_cache_alone() {
    let r = PinyinRenderer::new(400, 100, None, 0, RubyPosition::RightDown, 0, false);
    let zh = char::from_u32(0x4E2D).unwrap();
    let omac = char::from_u32(0x14D).unwrap();
    let mut covered = String::from("zhng");
    covered.push(omac);
    let font = ruby_font_for(&covered);
    let mut path = box_path(1000, 700);
    let base_len = path.len();
    let mut cache = BaselineCache::new();
    r.annotate(zh, &font, &mut path, 1000, 1000, &mut cache);
    assert!(path.len() > base_len);
    assert!(cache.top.is_none());
    assert!(cache.bottom.is_none());
    // The stack sits right of the base advance plus gutter.
    let added = &path[base_len..];
    let (x0, _, _, _) = bbox_of(added).unwrap();
    assert!(x0 >= 1000 + 100);
}

/// Scaled advances: 500 font units at scale 0.4 of a 1000-unit main em
/// in a 1000-unit annotation font give 200 units.
#[test]
fn glyph_width_formula() {
    let glyphs = vec![
        RubyGlyph { path: box_path(1, 1), advance: Some(500) },
        RubyGlyph { path: box_path(1, 1), advance: None },
    ];
    let w = rubify::placement::compute_glyph_widths(&glyphs, 1000, 400, 1000);
    assert_eq!(w, vec![200, 400]);
}

/// The bounding-box area never shrinks across an annotation.
#[test]
fn annotation_grows_area() {
    let r = PinyinRenderer::new(400, 0, None, 0, RubyPosition::Bottom, 0, true);
    let zh = char::from_u32(0x4E2D).unwrap();
    let omac = char::from_u32(0x14D).unwrap();
    let mut covered = String::from("zhng");
    covered.push(omac);
    let font = ruby_font_for(&covered);
    let mut path = box_path(1000, 700);
    let (bx0, by0, bx1, by1) = bbox_of(&path).unwrap();
    let area_before = (bx1 - bx0) * (by1 - by0);
    let mut cache = BaselineCache::new();
    r.annotate(zh, &font, &mut path, 1000, 1000, &mut cache);
    let (ax0, ay0, ax1, ay1) = bbox_of(&path).unwrap();
    let area_after = (ax1 - ax0) * (ay1 - ay0);
    assert!(area_after >= area_before);
}

/// The resolution calls are exact: the tone-marked syllable of U+4E2D
/// and the romaji reading of hiragana A.
#[test]
fn resolution_exact_values() {
    let zh = char::from_u32(0x4E2D).unwrap();
    let syl = rubify::resolve::pinyin_syllable(zh).expect("has a syllable");
    let omac = char::from_u32(0x14D).unwrap();
    assert_eq!(syl, vec!['z', 'h', omac, 'n', 'g']);
    assert!(rubify::resolve::pinyin_syllable('a').is_none());

    let a_hira = char::from_u32(0x3042).unwrap();
    assert_eq!(
        rubify::resolve::romaji_reading(&vec![a_hira]).expect("no sound marks"),
        vec!['a']
    );
    let vmark = char::from_u32(0xFF9E).unwrap();
    assert!(rubify::resolve::romaji_reading(&vec![vmark]).is_none());
}

/// Splitting resolved text on a delimiter drives part layout: with a
/// delimiter configured, the parts are placed with inter-part spacing.
#[test]
fn delimiter_splits_parts() {
    let r = PinyinRenderer::new(400, 0, Some('h'), 100, RubyPosition::Top, 0, true);
    let zh = char::from_u32(0x4E2D).unwrap();
    let omac = char::from_u32(0x14D).unwrap();
    let mut covered = String::from("zng");
    covered.push(omac);
    // 'h' is the delimiter, so it is never drawn; all other letters
    // of the syllable must still be covered.
    let font = ruby_font_for(&covered);
    let mut path = box_path(1000, 700);
    let base_len = path.len();
    let mut cache = BaselineCache::new();
    r.annotate(zh, &font, &mut path, 1000, 1000, &mut cache);
    assert!(path.len() > base_len);
}

/// The side-placement vertical step is 0.8 x scaleRatio x mainUPM,
/// independent of the annotation font's units-per-em: with a 500-unit
/// annotation font, a 1000-unit main em and scale 0.4 the step is 320.
#[test]
fn side_step_ignores_annotation_upem() {
    let r = RomajiRenderer::new(400, 0, RubyPosition::RightDown, 0, false);
    let glyphs = vec![
        ('k', RubyGlyph { path: box_path(400, 600), advance: Some(500) }),
        ('a', RubyGlyph { path: box_path(400, 600), advance: Some(500) }),
    ];
    let font = RubyFont { upem: 500, glyphs };
    let ka = char::from_u32(0x304B).unwrap(); // hiragana ka -> "ka"
    let mut path = box_path(1000, 700);
    let base_len = path.len();
    let mut cache = BaselineCache::new();
    r.annotate(ka, &font, &mut path, 1000, 1000, &mut cache);
    assert!(path.len() > base_len);
    // Base bbox center y = 350; step = trunc(1000 * 0.4 * 0.8) = 320;
    // half = 160. Glyph scale = 0.4 * 1000 / 500 = 0.8, so each 400x600
    // box becomes 320x480. First glyph at y 510..990, second at 190..670.
    let added = &path[base_len..];
    assert_eq!(bbox_of(added), Some((1000, 190, 1320, 990)));
}

/// The side-placement step has no inter-part spacing term: with
/// spacing configured, a side-stacked syllable still steps by
/// 0.8 x scaleRatio x mainUPM alone.
#[test]
fn side_step_has_no_spacing_term() {
    let r = PinyinRenderer::new(400, 0, None, 100, RubyPosition::RightDown, 0, false);
    let zh = char::from_u32(0x4E2D).unwrap();
    let omac = char::from_u32(0x14D).unwrap();
    let mut covered = String::from("zhng");
    covered.push(omac);
    let font = ruby_font_for(&covered);
    let mut path = box_path(1000, 700);
    let base_len = path.len();
    let mut cache = BaselineCache::new();
    r.annotate(zh, &font, &mut path, 1000, 1000, &mut cache);
    assert!(path.len() > base_len);
    // Five glyphs (zhong with macron o), step = 320, half = 640; center
    // y = 350, so translations run 990, 670, 350, 30, -290. Each 400x600
    // box scales by 0.4 to 160x240; every advance matches the 200-unit
    // column width, so each glyph's outline starts at x 1000.
    let added = &path[base_len..];
    assert_eq!(bbox_of(added), Some((1000, -290, 1160, 1230)));
}
