use rubify::glyf::encode_simple_glyph;
use rubify::path::{PathEl, Point};
use rubify::renderer::RubyRenderer;
use rubify::rewrite::{rewrite_font, GlyphInput, RewriteError};
use rubify::tables::{checksum, make_name_table, patch_head, RawTable};
use rubify::ttc::{build_collection, make_ttc_header_table, CollectionError};

fn pt(x: i64, y: i64) -> Point {
    Point { x, y }
}

fn square(s: i64) -> Vec<PathEl> {
    vec![
        PathEl::MoveTo(pt(0, 0)),
        PathEl::LineTo(pt(s, 0)),
        PathEl::LineTo(pt(s, s)),
        PathEl::LineTo(pt(0, s)),
        PathEl::Close,
    ]
}

/// A minimal valid head table: 54 bytes, units-per-em at offset 18.
fn head_table(upem: u16) -> Vec<u8> {
    let mut d = vec![0u8; 54];
    d[18] = (upem >> 8) as u8;
    d[19] = (upem & 0xFF) as u8;
    d[8] = 0xAA; // checksum adjustment, must be zeroed by the patch
    d
}

#[test]
fn name_table_exact_bytes() {
    let name: Vec<char> = "AB".chars().collect();
    let t = make_name_table(&name);
    let utf16 = [0u8, 65, 0, 66];
    let mut expect: Vec<u8> = Vec::new();
    for v in [0u16, 2, 30, 3, 1, 0x409, 1, 4, 0, 3, 1, 0x409, 4, 4, 4] {
        expect.extend_from_slice(&v.to_be_bytes());
    }
    expect.extend_from_slice(&utf16);
    expect.extend_from_slice(&utf16);
    assert_eq!(t, expect);
}

#[test]
fn name_table_surrogate_pair() {
    let c = char::from_u32(0x1D11E).unwrap();
    let name: Vec<char> = vec![c];
    let t = make_name_table(&name);
    // The string area holds the UTF-16BE surrogate pair, twice.
    let tail = &t[30..];
    assert_eq!(tail, &[0xD8, 0x34, 0xDD, 0x1E, 0xD8, 0x34, 0xDD, 0x1E]);
}

#[test]
fn checksum_sums_words() {
    assert_eq!(checksum(&vec![0, 0, 0, 1]), 1);
    assert_eq!(checksum(&vec![1]), 0x0100_0000);
    // Tail bytes are zero-padded into the last word.
    assert_eq!(checksum(&vec![0, 0, 0, 1, 0, 0, 0]), 1);
    // The sum wraps at 32 bits.
    assert_eq!(
        checksum(&vec![0xFF, 0xFF, 0xFF, 0xFF, 0, 0, 0, 2]),
        1
    );
}

#[test]
fn head_patch_sets_format_and_zeroes_adjustment() {
    let head = head_table(1000);
    let p = patch_head(&head, 1);
    assert_eq!(&p[8..12], &[0, 0, 0, 0]);
    assert_eq!(&p[50..52], &[0, 1]);
    assert_eq!(p.len(), head.len());
}

#[test]
fn ttc_header_placeholder() {
    let t = make_ttc_header_table(2);
    assert_eq!(&t[0..4], b"ttcf");
    assert_eq!(&t[4..8], &[0, 1, 0, 0]);
    assert_eq!(&t[8..12], &[0, 0, 0, 2]);
    assert_eq!(t.len(), 12 + 8);
}

#[test]
fn simple_glyph_encoding_exact() {
    let b = encode_simple_glyph(&square(100)).expect("encodable");
    let mut expect: Vec<u8> = Vec::new();
    expect.extend_from_slice(&1i16.to_be_bytes()); // one contour
    expect.extend_from_slice(&0i16.to_be_bytes()); // xmin
    expect.extend_from_slice(&0i16.to_be_bytes()); // ymin
    expect.extend_from_slice(&100i16.to_be_bytes()); // xmax
    expect.extend_from_slice(&100i16.to_be_bytes()); // ymax
    expect.extend_from_slice(&3u16.to_be_bytes()); // end point index
    expect.extend_from_slice(&0u16.to_be_bytes()); // no instructions
    expect.extend_from_slice(&[1, 1, 1, 1]); // on-curve flags
    for d in [0i16, 100, 0, -100] {
        expect.extend_from_slice(&d.to_be_bytes()); // x deltas
    }
    for d in [0i16, 0, 100, 0] {
        expect.extend_from_slice(&d.to_be_bytes()); // y deltas
    }
    assert_eq!(b, expect);
}

#[test]
fn cubic_segments_cannot_be_encoded() {
    let path = vec![
        PathEl::MoveTo(pt(0, 0)),
        PathEl::CurveTo(pt(1, 1), pt(2, 2), pt(3, 3)),
        PathEl::Close,
    ];
    assert!(encode_simple_glyph(&path).is_none());
}

#[test]
fn out_of_range_coordinates_cannot_be_encoded() {
    let path = vec![PathEl::MoveTo(pt(0, 0)), PathEl::LineTo(pt(40000, 0)), PathEl::Close];
    assert!(encode_simple_glyph(&path).is_none());
}

fn glyph(path: Vec<PathEl>) -> GlyphInput {
    GlyphInput { draw_failed: false, path, advance: Some(600), ch: None }
}

#[test]
fn rewrite_preserves_glyph_count() {
    let tables = vec![RawTable { tag: 0x68656164, checksum: 0, data: head_table(1000) }];
    let glyphs = vec![
        glyph(square(100)),
        GlyphInput { draw_failed: true, path: vec![], advance: None, ch: None },
        glyph(square(50)),
    ];
    let renderers: Vec<RubyRenderer> = vec![];
    let fonts = vec![];
    let out = rewrite_font(&tables, &glyphs, &renderers, &fonts, None).expect("rewrite");
    // The rebuilt loca table has one entry per glyph plus the end
    // entry: output glyph count equals input glyph count.
    let loca = out.iter().find(|t| t.tag == 0x6C6F6361).expect("loca present");
    assert_eq!(loca.data.len() % 2, 0);
    assert_eq!(loca.data.len() / 2, glyphs.len() + 1); // short format
    // Index for index: the empty glyph's two offsets coincide.
    let off = |i: usize| u16::from_be_bytes([loca.data[2 * i], loca.data[2 * i + 1]]) as usize * 2;
    assert_eq!(off(1), off(2));
    assert!(off(1) > off(0));
    // head was patched: short loca format and zeroed adjustment.
    let head = out.iter().find(|t| t.tag == 0x68656164).expect("head present");
    assert_eq!(&head.data[50..52], &[0, 0]);
    assert_eq!(&head.data[8..12], &[0, 0, 0, 0]);
    // The directory is in ascending tag order.
    for w in out.windows(2) {
        assert!(w[0].tag <= w[1].tag);
    }
}

#[test]
fn rewrite_requires_head() {
    let tables = vec![RawTable { tag: 0x686D7478, checksum: 0, data: vec![0; 8] }];
    let glyphs = vec![glyph(square(10))];
    let r = rewrite_font(&tables, &glyphs, &vec![], &vec![], None);
    assert_eq!(r.unwrap_err(), RewriteError::MissingHead);
}

#[test]
fn rewrite_rejects_short_head() {
    let tables = vec![RawTable { tag: 0x68656164, checksum: 0, data: vec![0; 10] }];
    let r = rewrite_font(&tables, &vec![], &vec![], &vec![], None);
    assert_eq!(r.unwrap_err(), RewriteError::MalformedHead);
}

#[test]
fn rewrite_overrides_name() {
    let tables = vec![
        RawTable { tag: 0x68656164, checksum: 0, data: head_table(1000) },
        RawTable { tag: 0x6E616D65, checksum: 7, data: vec![9, 9, 9] },
    ];
    let name: Vec<char> = "X".chars().collect();
    let out = rewrite_font(&tables, &vec![glyph(square(10))], &vec![], &vec![], Some(&name))
        .expect("rewrite");
    let nm = out.iter().find(|t| t.tag == 0x6E616D65).expect("name present");
    assert_ne!(nm.data, vec![9, 9, 9]);
    assert_eq!(nm.data, make_name_table(&name));
}

fn font_of(tables: Vec<(u32, u32, Vec<u8>)>) -> Vec<RawTable> {
    tables
        .into_iter()
        .map(|(tag, checksum, data)| RawTable { tag, checksum, data })
        .collect()
}

const GLYF: u32 = 0x676C7966;
const HMTX: u32 = 0x686D7478;

#[test]
fn collection_dedups_shared_outline_table() {
    let outline = vec![1u8, 2, 3, 4, 5, 6, 7, 8];
    let a = font_of(vec![(GLYF, 0xAAAA, outline.clone())]);
    let b = font_of(vec![(GLYF, 0xAAAA, outline.clone())]);
    let out = build_collection(&vec![a, b]).expect("collection");
    // Layout: 12-byte header, 2 offsets, 2 directories of one record,
    // then the shared block holding exactly one 8-byte copy.
    let dirs = 2 * (12 + 16);
    assert_eq!(out.len(), 12 + 8 + dirs + outline.len());
    // Both records reference the same absolute offset.
    let rec_off = |dir: usize| {
        let p = dir + 12 + 8;
        u32::from_be_bytes([out[p], out[p + 1], out[p + 2], out[p + 3]])
    };
    let d0 = 20;
    let d1 = 20 + 28;
    assert_eq!(rec_off(d0), rec_off(d1));
    assert_eq!(rec_off(d0) as usize, 12 + 8 + dirs);
    // Checksums are carried over from the source records unchanged.
    let ck = |dir: usize| {
        let p = dir + 12 + 4;
        u32::from_be_bytes([out[p], out[p + 1], out[p + 2], out[p + 3]])
    };
    assert_eq!(ck(d0), 0xAAAA);
}

#[test]
fn collection_never_merges_non_shareable_tables() {
    // Identical bytes, but hmtx is not on the share list: two copies.
    let data = vec![1u8, 2, 3, 4];
    let a = font_of(vec![(HMTX, 0, data.clone())]);
    let b = font_of(vec![(HMTX, 0, data.clone())]);
    let out = build_collection(&vec![a, b]).expect("collection");
    let dirs = 2 * (12 + 16);
    assert_eq!(out.len(), 12 + 8 + dirs + 2 * data.len());
}

#[test]
fn collection_never_merges_across_tags() {
    // Byte-identical content under two different shareable tags is
    // written as two distinct copies at distinct offsets: the dedup
    // key is (tag, bytes), never bytes alone.
    const LOCA: u32 = 0x6C6F6361;
    let data = vec![1u8, 2, 3, 4, 5, 6, 7, 8];
    let a = font_of(vec![(GLYF, 0, data.clone())]);
    let b = font_of(vec![(LOCA, 0, data.clone())]);
    let out = build_collection(&vec![a, b]).expect("collection");
    let dirs = 2 * (12 + 16);
    assert_eq!(out.len(), 12 + 8 + dirs + 2 * data.len());
    let rec_off = |dir: usize| {
        let p = dir + 12 + 8;
        u32::from_be_bytes([out[p], out[p + 1], out[p + 2], out[p + 3]])
    };
    let d0 = 20;
    let d1 = 20 + 28;
    assert_ne!(rec_off(d0), rec_off(d1));
    assert_eq!(rec_off(d1) as usize, rec_off(d0) as usize + data.len());
}

#[test]
fn collection_rejects_empty_font() {
    let r = build_collection(&vec![vec![]]);
    assert_eq!(r.unwrap_err(), CollectionError::EmptyFont);
}

/// Identity rebuild: a collection parsed back into its tables and
/// rebuilt immediately reproduces byte-identical output.
#[test]
fn collection_identity_rebuild() {
    let a = font_of(vec![
        (GLYF, 0x11, vec![1, 2, 3, 4, 5]),
        (HMTX, 0x22, vec![9, 8]),
    ]);
    let b = font_of(vec![(GLYF, 0x33, vec![1, 2, 3, 4, 5])]);
    let first = build_collection(&vec![a, b]).expect("collection");

    // Parse the container back: font count, directory offsets, records.
    let be32 = |p: usize| u32::from_be_bytes([first[p], first[p + 1], first[p + 2], first[p + 3]]);
    let be16 = |p: usize| u16::from_be_bytes([first[p], first[p + 1]]);
    assert_eq!(&first[0..4], b"ttcf");
    let nfonts = be32(8) as usize;
    let mut parsed: Vec<Vec<RawTable>> = Vec::new();
    for f in 0..nfonts {
        let dir = be32(12 + 4 * f) as usize;
        let ntab = be16(dir + 4) as usize;
        let mut tables = Vec::new();
        for k in 0..ntab {
            let rec = dir + 12 + 16 * k;
            let tag = be32(rec);
            let cksum = be32(rec + 4);
            let off = be32(rec + 8) as usize;
            let len = be32(rec + 12) as usize;
            tables.push(RawTable { tag, checksum: cksum, data: first[off..off + len].to_vec() });
        }
        parsed.push(tables);
    }
    let second = build_collection(&parsed).expect("collection");
    assert_eq!(first, second);
}

#[test]
fn collection_rejects_oversized_directory() {
    let mut tables = Vec::new();
    for i in 0..4096u32 {
        tables.push(RawTable { tag: i, checksum: 0, data: vec![0u8; 4] });
    }
    let r = build_collection(&vec![tables]);
    assert_eq!(r.unwrap_err(), CollectionError::TooManyTables);
}
