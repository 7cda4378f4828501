//! The collection builder: independently rewritten fonts are
//! serialized, in input order, into one multi-font container with one
//! shared table-data block. Only the heavy outline tables are shared
//! across fonts, keyed by tag and exact byte content; every other
//! table is written fresh per font. Table start offsets in the shared
//! block are 4-byte aligned, and record checksums are carried over
//! from the source records unchanged.

use vstd::prelude::*;

use crate::glyf::{u16_be, u32_be};
use crate::tables::{tables_view, RawTable, TableView};

verus! {

/// Why a collection cannot be built.
#[derive(Clone, Copy, Debug, PartialEq, Eq, Structural)]
pub enum CollectionError {
    /// A font has no tables: its directory header fields are undefined.
    EmptyFont,
    /// Too many fonts, or too many tables in one font, for the 16-bit
    /// directory header fields.
    TooManyTables,
    /// The serialized collection exceeds the 32-bit offset range.
    Oversize,
}

/// Only the heavy, content-addressable outline tables are shared: the
/// two outline-container tags and their offset-index companion.
pub open spec fn shareable(tag: u32) -> bool {
    ||| tag == 0x676C7966u32
    ||| tag == 0x43464620u32
    ||| tag == 0x6C6F6361u32
}

/// The dedup cache: tag, exact byte content, and the offset the first
/// occurrence was written at. Tables with identical bytes but
/// different tags are never merged.
pub type ShareCache = Seq<(u32, Seq<u8>, int)>;

/// First cached offset for this tag and exact content.
pub open spec fn cache_find(c: ShareCache, tag: u32, data: Seq<u8>) -> Option<int>
    decreases c.len(),
{
    if c.len() == 0 {
        None
    } else if c[0].0 == tag && c[0].1 == data {
        Some(c[0].2)
    } else {
        cache_find(c.skip(1), tag, data)
    }
}

pub open spec fn zero_bytes(n: int) -> Seq<u8> {
    Seq::new(n as nat, |i: int| 0u8)
}

/// Concatenation of byte strings is associative.
pub proof fn lemma_bytes_assoc(a: Seq<u8>, b: Seq<u8>, c: Seq<u8>)
    ensures
        (a + b) + c == a + (b + c),
{
    assert((a + b) + c =~= a + (b + c));
}

/// Zero padding that brings `n` bytes to 4-byte alignment.
pub open spec fn pad4_len(n: int) -> int {
    (4 - n % 4) % 4
}

/// A block padded so the next table starts 4-byte aligned.
pub open spec fn pad4(b: Seq<u8>) -> Seq<u8> {
    b + zero_bytes(pad4_len(b.len() as int))
}

/// Assign each record of one font its offset in the shared block:
/// a shareable record with a cached identical occurrence reuses that
/// offset; everything else is written fresh at the next aligned
/// position, and shareable records are then cached.
pub open spec fn assign_font(rs: Seq<TableView>, cache: ShareCache, block: Seq<u8>) -> (
    Seq<int>,
    ShareCache,
    Seq<u8>,
)
    decreases rs.len(),
{
    if rs.len() == 0 {
        (Seq::empty(), cache, block)
    } else {
        let t = rs[0];
        if shareable(t.0) && cache_find(cache, t.0, t.2) is Some {
            let off = cache_find(cache, t.0, t.2)->Some_0;
            let rec = assign_font(rs.skip(1), cache, block);
            (seq![off] + rec.0, rec.1, rec.2)
        } else {
            let nb = pad4(block);
            let off = nb.len() as int;
            let cache2 = if shareable(t.0) {
                cache.push((t.0, t.2, off))
            } else {
                cache
            };
            let rec = assign_font(rs.skip(1), cache2, nb + t.2);
            (seq![off] + rec.0, rec.1, rec.2)
        }
    }
}

/// Assign every record of every font, in input order, sharing one
/// cache and one block across all fonts.
pub open spec fn assign_fonts(fonts: Seq<Seq<TableView>>, cache: ShareCache, block: Seq<u8>) -> (
    Seq<Seq<int>>,
    ShareCache,
    Seq<u8>,
)
    decreases fonts.len(),
{
    if fonts.len() == 0 {
        (Seq::empty(), cache, block)
    } else {
        let one = assign_font(fonts[0], cache, block);
        let rest = assign_fonts(fonts.skip(1), one.1, one.2);
        (seq![one.0] + rest.0, rest.1, rest.2)
    }
}

/// Floor of the base-2 logarithm; zero below 2.
pub open spec fn log2_floor(n: int) -> int
    decreases n,
{
    if n < 2 {
        0
    } else {
        1 + log2_floor(n / 2)
    }
}

pub open spec fn pow2(n: int) -> int
    decreases n,
{
    if n <= 0 {
        1
    } else {
        2 * pow2(n - 1)
    }
}

/// A font's directory header: sfnt version and the binary-search
/// fields computed from its table count.
pub open spec fn dir_header(n: int) -> Seq<u8> {
    u32_be(0x10000) + u16_be(n) + u16_be(pow2(log2_floor(n)) * 16) + u16_be(log2_floor(n))
        + u16_be(n * 16 - pow2(log2_floor(n)) * 16)
}

/// A font's table records: tag, source checksum carried over verbatim,
/// absolute offset, and length.
pub open spec fn recs_bytes(rs: Seq<TableView>, offs: Seq<int>, base: int) -> Seq<u8>
    decreases rs.len(),
{
    if rs.len() == 0 {
        Seq::empty()
    } else {
        u32_be(rs[0].0 as int) + u32_be(rs[0].1 as int) + u32_be(base + offs[0]) + u32_be(
            rs[0].2.len() as int,
        ) + recs_bytes(rs.skip(1), offs.skip(1), base)
    }
}

/// All fonts' directories in order.
pub open spec fn dirs_bytes(fonts: Seq<Seq<TableView>>, offs: Seq<Seq<int>>, base: int) -> Seq<u8>
    decreases fonts.len(),
{
    if fonts.len() == 0 {
        Seq::empty()
    } else {
        dir_header(fonts[0].len() as int) + recs_bytes(fonts[0], offs[0], base) + dirs_bytes(
            fonts.skip(1),
            offs.skip(1),
            base,
        )
    }
}

/// Total length of the first `fonts` directories.
pub open spec fn dirs_len(fonts: Seq<Seq<TableView>>) -> int
    decreases fonts.len(),
{
    if fonts.len() == 0 {
        0
    } else {
        12 + 16 * fonts[0].len() + dirs_len(fonts.skip(1))
    }
}

/// Where font `i`'s directory starts: after the collection header and
/// the earlier directories.
pub open spec fn dir_start(fonts: Seq<Seq<TableView>>, i: int) -> int {
    12 + 4 * fonts.len() + dirs_len(fonts.take(i))
}

/// Where the shared table-data block starts.
pub open spec fn block_start(fonts: Seq<Seq<TableView>>) -> int {
    12 + 4 * fonts.len() + dirs_len(fonts)
}

/// The collection header: magic, version 1.0, font count, and each
/// font's absolute directory offset.
pub open spec fn header_offsets(fonts: Seq<Seq<TableView>>, i: int) -> Seq<u8>
    decreases fonts.len() - i,
{
    if i < 0 || i >= fonts.len() {
        Seq::empty()
    } else {
        u32_be(dir_start(fonts, i)) + header_offsets(fonts, i + 1)
    }
}

pub open spec fn header_bytes(fonts: Seq<Seq<TableView>>) -> Seq<u8> {
    seq![0x74u8, 0x74u8, 0x63u8, 0x66u8] + u16_be(1) + u16_be(0) + u32_be(fonts.len() as int)
        + header_offsets(fonts, 0)
}

/// The whole serialized collection.
pub open spec fn collection_bytes(fonts: Seq<Seq<TableView>>) -> Seq<u8> {
    let a = assign_fonts(fonts, Seq::empty(), Seq::empty());
    header_bytes(fonts) + dirs_bytes(fonts, a.0, block_start(fonts)) + a.2
}

/// Shape limits the 16-bit directory header fields force.
pub open spec fn fonts_shaped(fonts: Seq<Seq<TableView>>) -> bool {
    &&& fonts.len() <= 0xFFFF
    &&& forall|i: int| 0 <= i < fonts.len() ==> 1 <= (#[trigger] fonts[i]).len() <= 4095
}

/// Size limit the 32-bit offsets force on the whole file.
pub open spec fn fonts_sized(fonts: Seq<Seq<TableView>>) -> bool {
    block_start(fonts) + assign_fonts(fonts, Seq::empty(), Seq::empty()).2.len() <= 0xFFFF_FFF0
}

pub open spec fn collection_ok(fonts: Seq<Seq<TableView>>) -> bool {
    fonts_shaped(fonts) && fonts_sized(fonts)
}

/// The first shape violation, in scan order.
pub open spec fn shape_err(fonts: Seq<Seq<TableView>>) -> Option<CollectionError>
    decreases fonts.len(),
{
    if fonts.len() > 0xFFFF {
        Some(CollectionError::TooManyTables)
    } else {
        shape_err_fonts(fonts)
    }
}

pub open spec fn shape_err_fonts(fonts: Seq<Seq<TableView>>) -> Option<CollectionError>
    decreases fonts.len(),
{
    if fonts.len() == 0 {
        None
    } else if fonts[0].len() == 0 {
        Some(CollectionError::EmptyFont)
    } else if fonts[0].len() > 4095 {
        Some(CollectionError::TooManyTables)
    } else {
        shape_err_fonts(fonts.skip(1))
    }
}

} // verus!

verus! {

/// The collection header with placeholder (zero) directory offsets,
/// as first laid down before the per-font directories are written.
pub open spec fn ttc_header_table_bytes(n: int) -> Seq<u8> {
    seq![0x74u8, 0x74u8, 0x63u8, 0x66u8] + u32_be(0x10000) + u32_be(n) + zero_bytes(4 * n)
}

/// Build the placeholder collection header for `num_fonts` fonts.
pub fn make_ttc_header_table(num_fonts: u32) -> (r: Vec<u8>)
    requires
        num_fonts <= 0xFFFF,
    ensures
        r@ == ttc_header_table_bytes(num_fonts as int),
{
    let mut out: Vec<u8> = Vec::new();
    out.push(0x74);
    out.push(0x74);
    out.push(0x63);
    out.push(0x66);
    proof {
        assert(out@ =~= seq![0x74u8, 0x74u8, 0x63u8, 0x66u8]);
    }
    crate::glyf::push_u32_be(&mut out, 0x10000);
    crate::glyf::push_u32_be(&mut out, num_fonts);
    let ghost head = out@;
    let mut i: u32 = 0;
    proof {
        assert(out@ =~= head + zero_bytes(0));
    }
    while i < 4 * num_fonts
        invariant
            0 <= i <= 4 * num_fonts,
            num_fonts <= 0xFFFF,
            out@ == head + zero_bytes(i as int),
        decreases 4 * num_fonts - i,
    {
        out.push(0);
        proof {
            assert(head + zero_bytes(i + 1int) =~= (head + zero_bytes(i as int)).push(0u8));
        }
        i = i + 1;
    }
    proof {
        assert(head + zero_bytes(4 * num_fonts as int) =~= ttc_header_table_bytes(
            num_fonts as int,
        ));
    }
    out
}

/// Byte-for-byte equality.
pub fn bytes_eq(a: &Vec<u8>, b: &Vec<u8>) -> (r: bool)
    ensures
        r == (a@ == b@),
{
    if a.len() != b.len() {
        proof {
            assert(a@.len() != b@.len());
        }
        return false;
    }
    let mut i: usize = 0;
    while i < a.len()
        invariant
            0 <= i <= a.len(),
            a@.len() == b@.len(),
            forall|j: int| 0 <= j < i ==> a@[j] == b@[j],
        decreases a.len() - i,
    {
        if a[i] != b[i] {
            return false;
        }
        i = i + 1;
    }
    proof {
        assert(a@ =~= b@);
    }
    true
}

/// Assignment appends to the block, never removing anything.
pub proof fn lemma_assign_font_grows(rs: Seq<TableView>, cache: ShareCache, block: Seq<u8>)
    ensures
        assign_font(rs, cache, block).2.len() >= block.len(),
    decreases rs.len(),
{
    if rs.len() > 0 {
        let t = rs[0];
        if shareable(t.0) && cache_find(cache, t.0, t.2) is Some {
            lemma_assign_font_grows(rs.skip(1), cache, block);
        } else {
            let nb = pad4(block);
            let cache2 = if shareable(t.0) {
                cache.push((t.0, t.2, nb.len() as int))
            } else {
                cache
            };
            lemma_assign_font_grows(rs.skip(1), cache2, nb + t.2);
        }
    }
}

pub proof fn lemma_assign_fonts_grows(fonts: Seq<Seq<TableView>>, cache: ShareCache, block: Seq<u8>)
    ensures
        assign_fonts(fonts, cache, block).2.len() >= block.len(),
    decreases fonts.len(),
{
    if fonts.len() > 0 {
        let one = assign_font(fonts[0], cache, block);
        lemma_assign_font_grows(fonts[0], cache, block);
        lemma_assign_fonts_grows(fonts.skip(1), one.1, one.2);
    }
}

/// One offset per record.
pub proof fn lemma_assign_font_len(rs: Seq<TableView>, cache: ShareCache, block: Seq<u8>)
    ensures
        assign_font(rs, cache, block).0.len() == rs.len(),
    decreases rs.len(),
{
    if rs.len() > 0 {
        let t = rs[0];
        if shareable(t.0) && cache_find(cache, t.0, t.2) is Some {
            lemma_assign_font_len(rs.skip(1), cache, block);
        } else {
            let nb = pad4(block);
            let cache2 = if shareable(t.0) {
                cache.push((t.0, t.2, nb.len() as int))
            } else {
                cache
            };
            lemma_assign_font_len(rs.skip(1), cache2, nb + t.2);
        }
    }
}

/// One offset list per font.
pub proof fn lemma_assign_fonts_len(fonts: Seq<Seq<TableView>>, cache: ShareCache, block: Seq<u8>)
    ensures
        assign_fonts(fonts, cache, block).0.len() == fonts.len(),
    decreases fonts.len(),
{
    if fonts.len() > 0 {
        let one = assign_font(fonts[0], cache, block);
        lemma_assign_fonts_len(fonts.skip(1), one.1, one.2);
    }
}

pub proof fn lemma_dirs_len_nonneg(fonts: Seq<Seq<TableView>>)
    ensures
        dirs_len(fonts) >= 0,
    decreases fonts.len(),
{
    if fonts.len() > 0 {
        lemma_dirs_len_nonneg(fonts.skip(1));
    }
}

pub proof fn lemma_dirs_len_split(fonts: Seq<Seq<TableView>>, j: int)
    requires
        0 <= j <= fonts.len(),
    ensures
        dirs_len(fonts) == dirs_len(fonts.take(j)) + dirs_len(fonts.skip(j)),
    decreases j,
{
    if j == 0 {
        assert(fonts.take(0int) =~= Seq::<Seq<TableView>>::empty());
        assert(fonts.skip(0int) =~= fonts);
    } else {
        lemma_dirs_len_split(fonts.skip(1), j - 1);
        assert(fonts.take(j)[0] == fonts[0]);
        assert(fonts.take(j).skip(1) =~= fonts.skip(1).take(j - 1));
        assert(fonts.skip(j) =~= fonts.skip(1).skip(j - 1));
    }
}

pub proof fn lemma_dirs_len_bound(fonts: Seq<Seq<TableView>>)
    requires
        fonts_shaped(fonts),
    ensures
        0 <= dirs_len(fonts) <= fonts.len() * 65532,
    decreases fonts.len(),
{
    if fonts.len() > 0 {
        let rest = fonts.skip(1);
        assert forall|i: int| 0 <= i < rest.len() implies 1 <= (#[trigger] rest[i]).len()
            <= 4095 by {
            assert(rest[i] == fonts[i + 1]);
        }
        lemma_dirs_len_bound(rest);
        assert(12 + 16 * fonts[0].len() <= 65532);
        assert(fonts.len() * 65532 == (fonts.len() - 1) * 65532 + 65532) by (nonlinear_arith);
    }
}

/// Base-2 logarithm characterization: the loop's witness pins it down.
pub proof fn lemma_log2_char(n: int, e: int)
    requires
        0 <= e,
        pow2(e) <= n < pow2(e + 1),
    ensures
        log2_floor(n) == e,
    decreases e,
{
    if e == 0 {
    } else {
        assert(pow2(e) == 2 * pow2(e - 1));
        assert(pow2(e + 1) == 2 * pow2(e));
        lemma_pow2_pos(e - 1);
        assert(n >= 2);
        assert(pow2(e - 1) <= n / 2 < pow2(e));
        lemma_log2_char(n / 2, e - 1);
    }
}

pub proof fn lemma_pow2_pos(e: int)
    ensures
        pow2(e) >= 1,
        e >= 12 ==> pow2(e) >= 4096,
    decreases e,
{
    if e > 0 {
        lemma_pow2_pos(e - 1);
        if e == 12 {
            lemma_pow2_12();
        }
    }
}

/// Two to the twelfth, by unfolding.
pub proof fn lemma_pow2_12()
    ensures
        pow2(12) == 4096,
{
    assert(pow2(0) == 1);
    assert(pow2(1) == 2);
    assert(pow2(2) == 4);
    assert(pow2(3) == 8);
    assert(pow2(4) == 16);
    assert(pow2(5) == 32);
    assert(pow2(6) == 64);
    assert(pow2(7) == 128);
    assert(pow2(8) == 256);
    assert(pow2(9) == 512);
    assert(pow2(10) == 1024);
    assert(pow2(11) == 2048);
    assert(pow2(12) == 4096);
}

} // verus!

verus! {

/// A found offset is one of the cached entries' offsets.
pub proof fn lemma_cache_find_member(c: ShareCache, tag: u32, data: Seq<u8>)
    ensures
        cache_find(c, tag, data) is Some ==> exists|k: int|
            0 <= k < c.len() && (#[trigger] c[k]).2 == cache_find(c, tag, data)->Some_0,
    decreases c.len(),
{
    if c.len() > 0 && !(c[0].0 == tag && c[0].1 == data) {
        lemma_cache_find_member(c.skip(1), tag, data);
        if cache_find(c, tag, data) is Some {
            let k = choose|k: int|
                0 <= k < c.skip(1).len() && (#[trigger] c.skip(1)[k]).2 == cache_find(
                    c.skip(1),
                    tag,
                    data,
                )->Some_0;
            assert(c[k + 1].2 == cache_find(c, tag, data)->Some_0);
        }
    }
}

/// View of the runtime dedup cache.
pub open spec fn cache_view(c: Seq<(u32, Vec<u8>, u32)>) -> ShareCache {
    c.map_values(|e: (u32, Vec<u8>, u32)| (e.0, e.1@, e.2 as int))
}

/// Find a cached identical table.
fn cache_lookup(cache: &Vec<(u32, Vec<u8>, u32)>, tag: u32, data: &Vec<u8>) -> (r: Option<u32>)
    ensures
        ({
            let spec = cache_find(cache_view(cache@), tag, data@);
            &&& (r is Some <==> spec is Some)
            &&& (r is Some ==> r->Some_0 as int == spec->Some_0)
        }),
{
    let ghost cv = cache_view(cache@);
    let mut i: usize = 0;
    proof {
        assert(cv.skip(0int) =~= cv);
    }
    while i < cache.len()
        invariant
            0 <= i <= cache.len(),
            cv == cache_view(cache@),
            cv.len() == cache@.len(),
            cache_find(cv, tag, data@) == cache_find(cv.skip(i as int), tag, data@),
        decreases cache.len() - i,
    {
        proof {
            assert(cv.skip(i as int)[0] == cv[i as int]);
            assert(cv[i as int] == (cache@[i as int].0, cache@[i as int].1@, cache@[i as int].2 as int));
            assert(cv.skip(i as int).skip(1int) =~= cv.skip(i + 1int));
        }
        let hit = cache[i].0 == tag && bytes_eq(&cache[i].1, data);
        if hit {
            return Some(cache[i].2);
        }
        i = i + 1;
    }
    proof {
        assert(cv.skip(cv.len() as int) =~= Seq::<(u32, Seq<u8>, int)>::empty());
    }
    None
}

/// Pad the shared block so the next table starts 4-byte aligned.
fn pad_block(block: &mut Vec<u8>)
    requires
        old(block)@.len() <= 0xFFFF_FFF3,
    ensures
        final (block)@ == pad4(old(block)@),
{
    let rem = block.len() % 4;
    let pad: usize = (4 - rem) % 4;
    let mut k: usize = 0;
    proof {
        assert(pad as int == pad4_len(old(block)@.len() as int));
        assert(block@ =~= old(block)@ + zero_bytes(0));
    }
    while k < pad
        invariant
            0 <= k <= pad,
            pad <= 3,
            block@ == old(block)@ + zero_bytes(k as int),
        decreases pad - k,
    {
        block.push(0);
        proof {
            assert(old(block)@ + zero_bytes(k + 1int) =~= (old(block)@ + zero_bytes(
                k as int,
            )).push(0u8));
        }
        k = k + 1;
    }
}

/// Place one font's records into the shared block.
fn assign_font_x(
    font: &Vec<RawTable>,
    cache: &mut Vec<(u32, Vec<u8>, u32)>,
    block: &mut Vec<u8>,
) -> (r: Result<Vec<u32>, CollectionError>)
    requires
        old(block)@.len() <= 0xFFFF_FFF0,
        forall|k: int|
            0 <= k < old(cache)@.len() ==> (#[trigger] old(cache)@[k]).2 as int <= old(
                block,
            )@.len(),
    ensures
        ({
            let spec = assign_font(tables_view(font@), cache_view(old(cache)@), old(block)@);
            match r {
                Ok(offs) => {
                    &&& offs@.map_values(|o: u32| o as int) == spec.0
                    &&& cache_view(final (cache)@) == spec.1
                    &&& final (block)@ == spec.2
                    &&& final (block)@.len() <= 0xFFFF_FFF0
                    &&& forall|k: int|
                        0 <= k < offs@.len() ==> (#[trigger] offs@[k]) as int
                            <= final (block)@.len()
                    &&& forall|k: int|
                        0 <= k < final (cache)@.len() ==> (#[trigger] final (cache)@[k]).2 as int
                            <= final (block)@.len()
                },
                Err(e) => {
                    &&& e == CollectionError::Oversize
                    &&& spec.2.len() > 0xFFFF_FFF0
                },
            }
        }),
{
    let ghost rsv = tables_view(font@);
    let ghost full = assign_font(rsv, cache_view(old(cache)@), old(block)@);
    let mut offs: Vec<u32> = Vec::new();
    let mut ri: usize = 0;
    proof {
        assert(rsv.skip(0int) =~= rsv);
        assert(offs@.map_values(|o: u32| o as int) =~= Seq::<int>::empty());
        assert(Seq::<int>::empty() + full.0 =~= full.0);
    }
    while ri < font.len()
        invariant
            0 <= ri <= font.len(),
            rsv == tables_view(font@),
            rsv.len() == font@.len(),
            full == assign_font(tables_view(font@), cache_view(old(cache)@), old(block)@),
            block@.len() <= 0xFFFF_FFF0,
            forall|k: int|
                0 <= k < cache@.len() ==> (#[trigger] cache@[k]).2 as int <= block@.len(),
            forall|k: int| 0 <= k < offs@.len() ==> (#[trigger] offs@[k]) as int <= block@.len(),
            full.0 == offs@.map_values(|o: u32| o as int) + assign_font(
                rsv.skip(ri as int),
                cache_view(cache@),
                block@,
            ).0,
            full.1 == assign_font(rsv.skip(ri as int), cache_view(cache@), block@).1,
            full.2 == assign_font(rsv.skip(ri as int), cache_view(cache@), block@).2,
        decreases font.len() - ri,
    {
        let t = &font[ri];
        proof {
            assert(rsv[ri as int] == font@[ri as int]@);
            assert(rsv.skip(ri as int)[0] == rsv[ri as int]);
            assert(rsv.skip(ri as int).skip(1int) =~= rsv.skip(ri + 1int));
        }
        let is_share = t.tag == 0x676C7966 || t.tag == 0x43464620 || t.tag == 0x6C6F6361;
        proof {
            assert(is_share == shareable(rsv[ri as int].0));
        }
        let mut placed: Option<u32> = None;
        if is_share {
            placed = cache_lookup(cache, t.tag, &t.data);
        }
        let ghost cbefore = cache@;
        let ghost bbefore = block@;
        let off: u32;
        match placed {
            Some(o) => {
                off = o;
                proof {
                    assert(cache_find(cache_view(cbefore), rsv[ri as int].0, rsv[ri as int].2)
                        is Some);
                    assert(off as int == cache_find(
                        cache_view(cbefore),
                        rsv[ri as int].0,
                        rsv[ri as int].2,
                    )->Some_0);
                    lemma_cache_find_member(
                        cache_view(cbefore),
                        rsv[ri as int].0,
                        rsv[ri as int].2,
                    );
                    let k = choose|k: int|
                        0 <= k < cache_view(cbefore).len() && (#[trigger] cache_view(cbefore)[k]).2
                            == off as int;
                    assert(cache_view(cbefore)[k].2 == cbefore[k].2 as int);
                    assert(off as int <= block@.len());
                }
            },
            None => {
                pad_block(block);
                if t.data.len() > 0xFFFF_FFF0 - block.len() {
                    proof {
                        let nb = pad4(bbefore);
                        assert(block@ == nb);
                        assert(nb.len() + rsv[ri as int].2.len() > 0xFFFF_FFF0);
                        assert(assign_font(rsv.skip(ri as int), cache_view(cbefore), bbefore).2
                            == assign_font(
                            rsv.skip(ri + 1int),
                            if shareable(rsv[ri as int].0) {
                                cache_view(cbefore).push(
                                    (rsv[ri as int].0, rsv[ri as int].2, nb.len() as int),
                                )
                            } else {
                                cache_view(cbefore)
                            },
                            nb + rsv[ri as int].2,
                        ).2);
                        lemma_assign_font_grows(
                            rsv.skip(ri + 1int),
                            if shareable(rsv[ri as int].0) {
                                cache_view(cbefore).push(
                                    (rsv[ri as int].0, rsv[ri as int].2, nb.len() as int),
                                )
                            } else {
                                cache_view(cbefore)
                            },
                            nb + rsv[ri as int].2,
                        );
                        assert(full.2.len() > 0xFFFF_FFF0);
                    }
                    return Err(CollectionError::Oversize);
                }
                off = block.len() as u32;
                crate::tables::append_bytes(block, &t.data);
                if is_share {
                    let keep = crate::tables::copy_bytes(&t.data);
                    cache.push((t.tag, keep, off));
                    proof {
                        assert(cache_view(cache@) =~= cache_view(cbefore).push(
                            (rsv[ri as int].0, rsv[ri as int].2, off as int),
                        ));
                    }
                }
                proof {
                    assert(block@ =~= pad4(bbefore) + rsv[ri as int].2);
                }
            },
        }
        let ghost offs0 = offs@;
        offs.push(off);
        proof {
            assert(offs@.map_values(|o: u32| o as int) =~= offs0.map_values(|o: u32| o as int).push(
                off as int,
            ));
            let rem_next = assign_font(rsv.skip(ri + 1int), cache_view(cache@), block@);
            assert(assign_font(rsv.skip(ri as int), cache_view(cbefore), bbefore).0 == seq![
                off as int,
            ] + rem_next.0);
            assert(offs0.map_values(|o: u32| o as int) + (seq![off as int] + rem_next.0)
                =~= offs0.map_values(|o: u32| o as int).push(off as int) + rem_next.0);
        }
        ri = ri + 1;
    }
    proof {
        assert(rsv.skip(rsv.len() as int) =~= Seq::<TableView>::empty());
        assert(offs@.map_values(|o: u32| o as int) + Seq::<int>::empty() =~= offs@.map_values(
            |o: u32| o as int,
        ));
    }
    Ok(offs)
}

} // verus!

verus! {

/// View of a list of fonts as their table lists.
pub open spec fn fonts_view(fonts: Seq<Vec<RawTable>>) -> Seq<Seq<TableView>> {
    fonts.map_values(|f: Vec<RawTable>| tables_view(f@))
}

/// Serialize the rewritten fonts, in input order, into one collection.
/// Output: fixed header, per-font directories whose binary-search
/// fields follow from each table count, and one shared table-data
/// block with cross-font deduplication of the outline tables.
#[verifier::rlimit(100)]
pub fn build_collection(fonts: &Vec<Vec<RawTable>>) -> (r: Result<Vec<u8>, CollectionError>)
    requires
        forall|i: int, j: int|
            0 <= i < fonts@.len() && 0 <= j < fonts@[i]@.len() ==> (#[trigger] fonts@[i]@[j]).data@.len() <= 0xFFFF_FFF0,
    ensures
        ({
            let fv = fonts_view(fonts@);
            &&& (r is Ok <==> collection_ok(fv))
            &&& (r is Ok ==> r->Ok_0@ == collection_bytes(fv))
            &&& (r is Err ==> r->Err_0 == (match shape_err(fv) {
                Some(e) => e,
                None => CollectionError::Oversize,
            }))
        }),
{
    let ghost fv = fonts_view(fonts@);
    // Shape checks: the 16-bit directory header fields must be definable.
    if fonts.len() > 0xFFFF {
        return Err(CollectionError::TooManyTables);
    }
    let mut si: usize = 0;
    proof {
        assert(fv.skip(0int) =~= fv);
    }
    while si < fonts.len()
        invariant
            0 <= si <= fonts.len(),
            fv == fonts_view(fonts@),
            fv.len() == fonts@.len() <= 0xFFFF,
            shape_err_fonts(fv) == shape_err_fonts(fv.skip(si as int)),
            forall|i: int| 0 <= i < si ==> 1 <= (#[trigger] fv[i]).len() <= 4095,
        decreases fonts.len() - si,
    {
        proof {
            assert(fv[si as int] == tables_view(fonts@[si as int]@));
            assert(fv.skip(si as int)[0] == fv[si as int]);
            assert(fv.skip(si as int).skip(1int) =~= fv.skip(si + 1int));
        }
        if fonts[si].len() == 0 {
            return Err(CollectionError::EmptyFont);
        }
        if fonts[si].len() > 4095 {
            return Err(CollectionError::TooManyTables);
        }
        si = si + 1;
    }
    proof {
        assert(fv.skip(fv.len() as int) =~= Seq::<Seq<TableView>>::empty());
        assert(shape_err_fonts(fv) is None);
        assert(fonts_shaped(fv));
    }

    // Place every record of every font into the shared block.
    let ghost a = assign_fonts(fv, Seq::empty(), Seq::empty());
    let mut cache: Vec<(u32, Vec<u8>, u32)> = Vec::new();
    let mut block: Vec<u8> = Vec::new();
    let mut offs: Vec<Vec<u32>> = Vec::new();
    let mut fi: usize = 0;
    proof {
        assert(cache_view(cache@) =~= Seq::<(u32, Seq<u8>, int)>::empty());
        assert(offs@.map_values(|v: Vec<u32>| v@.map_values(|o: u32| o as int))
            =~= Seq::<Seq<int>>::empty());
        assert(Seq::<Seq<int>>::empty() + a.0 =~= a.0);
    }
    while fi < fonts.len()
        invariant
            0 <= fi <= fonts.len(),
            fv == fonts_view(fonts@),
            fv.len() == fonts@.len() <= 0xFFFF,
            fonts_shaped(fv),
            shape_err_fonts(fv) is None,
            a == assign_fonts(fv, Seq::empty(), Seq::empty()),
            forall|i: int, j: int|
                0 <= i < fonts@.len() && 0 <= j < fonts@[i]@.len()
                    ==> (#[trigger] fonts@[i]@[j]).data@.len() <= 0xFFFF_FFF0,
            block@.len() <= 0xFFFF_FFF0,
            forall|k: int|
                0 <= k < cache@.len() ==> (#[trigger] cache@[k]).2 as int <= block@.len(),
            offs@.len() == fi,
            forall|i: int, k: int|
                0 <= i < fi && 0 <= k < offs@[i]@.len() ==> (#[trigger] offs@[i]@[k]) as int
                    <= block@.len(),
            forall|i: int| 0 <= i < fi ==> (#[trigger] offs@[i])@.len() == fv[i].len(),
            a.0 == offs@.map_values(|v: Vec<u32>| v@.map_values(|o: u32| o as int))
                + assign_fonts(fv.skip(fi as int), cache_view(cache@), block@).0,
            a.1 == assign_fonts(fv.skip(fi as int), cache_view(cache@), block@).1,
            a.2 == assign_fonts(fv.skip(fi as int), cache_view(cache@), block@).2,
        decreases fonts.len() - fi,
    {
        proof {
            assert(fv[fi as int] == tables_view(fonts@[fi as int]@));
            assert(fv.skip(fi as int)[0] == fv[fi as int]);
            assert(fv.skip(fi as int).skip(1int) =~= fv.skip(fi + 1int));
            assert forall|j: int| 0 <= j < fonts@[fi as int]@.len() implies (#[trigger] fonts@[fi as int]@[j]).data@.len() <= 0xFFFF_FFF0 by {}
        }
        let ghost cbefore = cache@;
        let ghost bbefore = block@;
        let one = assign_font_x(&fonts[fi], &mut cache, &mut block);
        let fo = match one {
            Ok(v) => v,
            Err(e) => {
                proof {
                    lemma_assign_fonts_grows(
                        fv.skip(fi + 1int),
                        assign_font(fv[fi as int], cache_view(cbefore), bbefore).1,
                        assign_font(fv[fi as int], cache_view(cbefore), bbefore).2,
                    );
                    assert(a.2.len() > 0xFFFF_FFF0);
                    lemma_dirs_len_nonneg(fv);
                    assert(!fonts_sized(fv));
                }
                return Err(CollectionError::Oversize);
            },
        };
        let ghost offs0 = offs@;
        offs.push(fo);
        proof {
            lemma_assign_font_grows(fv[fi as int], cache_view(cbefore), bbefore);
            lemma_assign_font_len(fv[fi as int], cache_view(cbefore), bbefore);
            let omap = |v: Vec<u32>| v@.map_values(|o: u32| o as int);
            assert(offs@.map_values(omap) =~= offs0.map_values(omap).push(fo@.map_values(|o: u32| o as int)));
            let rest = assign_fonts(fv.skip(fi + 1int), cache_view(cache@), block@);
            assert(assign_fonts(fv.skip(fi as int), cache_view(cbefore), bbefore).0 == seq![
                fo@.map_values(|o: u32| o as int),
            ] + rest.0);
            assert(offs0.map_values(omap) + (seq![fo@.map_values(|o: u32| o as int)] + rest.0)
                =~= offs0.map_values(omap).push(fo@.map_values(|o: u32| o as int)) + rest.0);
            assert(fo@.map_values(|o: u32| o as int).len() == fv[fi as int].len());
        }
        fi = fi + 1;
    }
    proof {
        assert(fv.skip(fv.len() as int) =~= Seq::<Seq<TableView>>::empty());
        let omap = |v: Vec<u32>| v@.map_values(|o: u32| o as int);
        assert(offs@.map_values(omap) + Seq::<Seq<int>>::empty() =~= offs@.map_values(omap));
        assert(a.0 == offs@.map_values(omap));
        assert(a.2 == block@);
    }

    // The whole file must stay within the 32-bit offset range.
    let mut dirs_total: u64 = 0;
    let mut di: usize = 0;
    proof {
        assert(fv.take(0int) =~= Seq::<Seq<TableView>>::empty());
    }
    while di < fonts.len()
        invariant
            0 <= di <= fonts.len(),
            fv == fonts_view(fonts@),
            fv.len() == fonts@.len() <= 0xFFFF,
            fonts_shaped(fv),
            dirs_total as int == dirs_len(fv.take(di as int)),
            dirs_total <= 0x1_0000_0000,
        decreases fonts.len() - di,
    {
        proof {
            assert(fv[di as int] == tables_view(fonts@[di as int]@));
            lemma_dirs_len_split(fv.take(di + 1int), di as int);
            assert(fv.take(di + 1int).take(di as int) =~= fv.take(di as int));
            assert(fv.take(di + 1int).skip(di as int) =~= seq![fv[di as int]]);
            assert(seq![fv[di as int]].skip(1int) =~= Seq::<Seq<TableView>>::empty());
            assert(dirs_len(Seq::<Seq<TableView>>::empty()) == 0);
            assert(seq![fv[di as int]][0] == fv[di as int]);
            assert(dirs_len(seq![fv[di as int]]) == 12 + 16 * fv[di as int].len());
            lemma_dirs_len_bound(fv.take(di + 1int));
            assert forall|i: int| 0 <= i < fv.take(di + 1int).len() implies 1 <= (#[trigger] fv.take(
                di + 1int,
            )[i]).len() <= 4095 by {
                assert(fv.take(di + 1int)[i] == fv[i]);
            }
            assert(fv.take(di + 1int).len() * 65532 <= 0xFFFF * 65532) by (nonlinear_arith)
                requires
                    fv.take(di + 1int).len() <= 0xFFFF,
            ;
        }
        dirs_total = dirs_total + 12 + 16 * (fonts[di].len() as u64);
        di = di + 1;
    }
    proof {
        assert(fv.take(fv.len() as int) =~= fv);
        assert(dirs_total as int == dirs_len(fv));
    }
    let base64: u64 = 12 + 4 * (fonts.len() as u64) + dirs_total;
    if base64 + (block.len() as u64) > 0xFFFF_FFF0 {
        proof {
            assert(!fonts_sized(fv));
        }
        return Err(CollectionError::Oversize);
    }
    let base: u32 = base64 as u32;
    proof {
        assert(base as int == block_start(fv));
        assert(collection_ok(fv));
    }

    // Serialize: header, directories with absolute offsets, data block.
    let mut out: Vec<u8> = Vec::new();
    out.push(0x74);
    out.push(0x74);
    out.push(0x63);
    out.push(0x66);
    crate::glyf::push_u16_be(&mut out, 1);
    crate::glyf::push_u16_be(&mut out, 0);
    crate::glyf::push_u32_be(&mut out, fonts.len() as u32);
    let ghost head0 = seq![0x74u8, 0x74u8, 0x63u8, 0x66u8] + u16_be(1) + u16_be(0) + u32_be(
        fv.len() as int,
    );
    proof {
        assert(out@ =~= head0);
        assert(out@ =~= head0 + header_offsets(fv, 0).take(0int));
    }
    let mut dstart: u64 = 12 + 4 * (fonts.len() as u64);
    let mut hi: usize = 0;
    proof {
        assert(fv.take(0int) =~= Seq::<Seq<TableView>>::empty());
        assert(head0 + Seq::<u8>::empty() =~= head0);
        assert(out@ =~= head0 + Seq::<u8>::empty());
    }
    while hi < fonts.len()
        invariant
            0 <= hi <= fonts.len(),
            fv == fonts_view(fonts@),
            fv.len() == fonts@.len() <= 0xFFFF,
            fonts_shaped(fv),
            base as int == block_start(fv),
            dstart as int == dir_start(fv, hi as int),
            dstart <= base64,
            base64 == base,
            base64 + (block@.len() as u64) <= 0xFFFF_FFF0,
            header_offsets(fv, 0) == out@.skip(head0.len() as int) + header_offsets(
                fv,
                hi as int,
            ),
            out@.len() >= head0.len(),
            out@.take(head0.len() as int) == head0,
        decreases fonts.len() - hi,
    {
        proof {
            assert(fv[hi as int] == tables_view(fonts@[hi as int]@));
            lemma_dirs_len_split(fv.take(hi + 1int), hi as int);
            assert(fv.take(hi + 1int).take(hi as int) =~= fv.take(hi as int));
            assert(fv.take(hi + 1int).skip(hi as int) =~= seq![fv[hi as int]]);
            assert(seq![fv[hi as int]].skip(1int) =~= Seq::<Seq<TableView>>::empty());
            assert(dirs_len(Seq::<Seq<TableView>>::empty()) == 0);
            assert(seq![fv[hi as int]][0] == fv[hi as int]);
            assert(dirs_len(seq![fv[hi as int]]) == 12 + 16 * fv[hi as int].len());
            lemma_dirs_len_split(fv, hi + 1int);
            lemma_dirs_len_nonneg(fv.skip(hi + 1int));
            lemma_dirs_len_nonneg(fv.take(hi + 1int));
        }
        let ghost out0 = out@;
        crate::glyf::push_u32_be(&mut out, dstart as u32);
        proof {
            assert(out@.skip(head0.len() as int) =~= out0.skip(head0.len() as int) + u32_be(
                dstart as int,
            ));
            assert(out@.take(head0.len() as int) =~= head0);
            assert(header_offsets(fv, hi as int) == u32_be(dir_start(fv, hi as int))
                + header_offsets(fv, hi + 1int));
            assert(out0.skip(head0.len() as int) + (u32_be(dstart as int) + header_offsets(
                fv,
                hi + 1int,
            )) =~= (out0.skip(head0.len() as int) + u32_be(dstart as int)) + header_offsets(
                fv,
                hi + 1int,
            ));
        }
        dstart = dstart + 12 + 16 * (fonts[hi].len() as u64);
        hi = hi + 1;
    }
    proof {
        assert(header_offsets(fv, fv.len() as int) =~= Seq::<u8>::empty());
        assert(out@.skip(head0.len() as int) + Seq::<u8>::empty() =~= out@.skip(
            head0.len() as int,
        ));
        assert(out@ =~= out@.take(head0.len() as int) + out@.skip(head0.len() as int));
        assert(out@ =~= head0 + header_offsets(fv, 0));
        assert(out@ =~= header_bytes(fv));
    }
    let ghost hdr = header_bytes(fv);
    // Directories.
    let ghost aoffs = a.0;
    write_all_dirs(&mut out, fonts, &offs, base, Ghost(block@.len() as int));
    proof {
        assert(out@ =~= hdr + dirs_bytes(fv, aoffs, base as int));
    }
    let ghost withdirs = out@;
    crate::tables::append_bytes(&mut out, &block);
    proof {
        assert(out@ =~= withdirs + a.2);
        assert(out@ =~= collection_bytes(fv));
    }
    Ok(out)
}

} // verus!


verus! {

/// One 16-byte table record.
#[verifier::spinoff_prover]
fn push_record(out: &mut Vec<u8>, tag: u32, ck: u32, absoff: u32, dlen: u32)
    ensures
        final (out)@ == old(out)@ + (u32_be(tag as int) + u32_be(ck as int) + u32_be(
            absoff as int,
        ) + u32_be(dlen as int)),
{
    crate::glyf::push_u32_be(out, tag);
    crate::glyf::push_u32_be(out, ck);
    crate::glyf::push_u32_be(out, absoff);
    crate::glyf::push_u32_be(out, dlen);
    proof {
        assert(final (out)@ =~= old(out)@ + (u32_be(tag as int) + u32_be(ck as int) + u32_be(
            absoff as int,
        ) + u32_be(dlen as int)));
    }
}

/// Write one font's table records: tag, carried-over checksum,
/// absolute offset, length.
#[verifier::rlimit(100)]
#[verifier::spinoff_prover]
fn write_records(out: &mut Vec<u8>, part: &Vec<RawTable>, fo: &Vec<u32>, base: u32)
    requires
        fo@.len() == part@.len(),
        forall|k: int|
            0 <= k < part@.len() ==> (#[trigger] part@[k]).data@.len() <= 0xFFFF_FFF0,
        forall|k: int|
            0 <= k < fo@.len() ==> base as int + (#[trigger] fo@[k]) as int <= 0xFFFF_FFF0,
    ensures
        final (out)@ == old(out)@ + recs_bytes(
            tables_view(part@),
            fo@.map_values(|o: u32| o as int),
            base as int,
        ),
{
    let ghost rsv = tables_view(part@);
    let ghost fov = fo@.map_values(|o: u32| o as int);
    let ghost dout = old(out)@;
    let mut ki: usize = 0;
    proof {
        assert(rsv.skip(0int) =~= rsv);
        assert(fov.skip(0int) =~= fov);
        assert(out@.skip(dout.len() as int) =~= Seq::<u8>::empty());
        assert(Seq::<u8>::empty() + recs_bytes(rsv, fov, base as int) =~= recs_bytes(
            rsv,
            fov,
            base as int,
        ));
    }
    while ki < part.len()
        invariant
            0 <= ki <= part.len(),
            rsv == tables_view(part@),
            rsv.len() == part@.len(),
            fov == fo@.map_values(|o: u32| o as int),
            fov.len() == rsv.len(),
            forall|k: int|
                0 <= k < part@.len() ==> (#[trigger] part@[k]).data@.len() <= 0xFFFF_FFF0,
            forall|k: int|
                0 <= k < fo@.len() ==> base as int + (#[trigger] fo@[k]) as int <= 0xFFFF_FFF0,
            recs_bytes(rsv, fov, base as int) == out@.skip(dout.len() as int) + recs_bytes(
                rsv.skip(ki as int),
                fov.skip(ki as int),
                base as int,
            ),
            out@.len() >= dout.len(),
            out@.take(dout.len() as int) == dout,
        decreases part.len() - ki,
    {
        proof {
            assert(rsv[ki as int] == part@[ki as int]@);
            assert(rsv.skip(ki as int)[0] == rsv[ki as int]);
            assert(rsv.skip(ki as int).skip(1int) =~= rsv.skip(ki + 1int));
            assert(fov.skip(ki as int)[0] == fov[ki as int]);
            assert(fov.skip(ki as int).skip(1int) =~= fov.skip(ki + 1int));
            assert(fov[ki as int] == fo@[ki as int] as int);
        }
        let t = &part[ki];
        let ghost out1 = out@;
        let absoff: u64 = base as u64 + fo[ki] as u64;
        proof {
            assert(absoff <= 0xFFFF_FFF0);
            assert(absoff as int == base as int + fov[ki as int]);
        }
        push_record(out, t.tag, t.checksum, absoff as u32, t.data.len() as u32);
        proof {
            let e = u32_be(rsv[ki as int].0 as int) + u32_be(rsv[ki as int].1 as int) + u32_be(
                base as int + fov[ki as int],
            ) + u32_be(rsv[ki as int].2.len() as int);
            assert(out@ == out1 + e);
            assert(out@.skip(dout.len() as int) =~= out1.skip(dout.len() as int) + e);
            assert(out@.take(dout.len() as int) =~= dout);
            let rest = recs_bytes(rsv.skip(ki + 1int), fov.skip(ki + 1int), base as int);
            assert(recs_bytes(rsv.skip(ki as int), fov.skip(ki as int), base as int) == e + rest);
            lemma_bytes_assoc(out1.skip(dout.len() as int), e, rest);
        }
        ki = ki + 1;
    }
    proof {
        assert(rsv.skip(rsv.len() as int) =~= Seq::<TableView>::empty());
        assert(fov.skip(fov.len() as int) =~= Seq::<int>::empty());
        assert(recs_bytes(Seq::<TableView>::empty(), Seq::<int>::empty(), base as int)
            == Seq::<u8>::empty());
        assert(out@.skip(dout.len() as int) + Seq::<u8>::empty() =~= out@.skip(dout.len() as int));
        assert(out@ =~= out@.take(dout.len() as int) + out@.skip(dout.len() as int));
    }
}

} // verus!


verus! {

/// Write one font's directory header: sfnt version and binary-search
/// fields from the table count.
#[verifier::spinoff_prover]
fn write_dir_header(out: &mut Vec<u8>, ntab: u16)
    requires
        1 <= ntab <= 4095,
    ensures
        final (out)@ == old(out)@ + dir_header(ntab as int),
{
    let mut es: u16 = 0;
    let mut p: u16 = 1;
    while 2 * p <= ntab
        invariant
            1 <= p,
            p as int == pow2(es as int),
            p <= ntab,
            ntab <= 4095,
            es <= 12,
        decreases ntab - p,
    {
        p = 2 * p;
        es = es + 1;
        proof {
            if es > 12 {
                lemma_pow2_12();
                lemma_pow2_pos(es as int);
                assert(false);
            }
        }
    }
    proof {
        assert(pow2(es as int + 1) == 2 * pow2(es as int));
        assert(pow2(es as int) <= ntab as int);
        assert((ntab as int) < pow2(es as int + 1));
        lemma_log2_char(ntab as int, es as int);
    }
    crate::glyf::push_u32_be(out, 0x10000);
    crate::glyf::push_u16_be(out, ntab);
    crate::glyf::push_u16_be(out, p * 16);
    crate::glyf::push_u16_be(out, es);
    crate::glyf::push_u16_be(out, ntab * 16 - p * 16);
    proof {
        assert(final (out)@ =~= old(out)@ + dir_header(ntab as int));
    }
}

} // verus!


verus! {

/// One font's directory: header plus table records.
#[verifier::rlimit(100)]
#[verifier::spinoff_prover]
fn write_font_dir(out: &mut Vec<u8>, part: &Vec<RawTable>, fo: &Vec<u32>, base: u32)
    requires
        1 <= part@.len() <= 4095,
        fo@.len() == part@.len(),
        forall|k: int|
            0 <= k < part@.len() ==> (#[trigger] part@[k]).data@.len() <= 0xFFFF_FFF0,
        forall|k: int|
            0 <= k < fo@.len() ==> base as int + (#[trigger] fo@[k]) as int <= 0xFFFF_FFF0,
    ensures
        final (out)@ == old(out)@ + (dir_header(part@.len() as int) + recs_bytes(
            tables_view(part@),
            fo@.map_values(|o: u32| o as int),
            base as int,
        )),
{
    write_dir_header(out, part.len() as u16);
    let ghost mid = out@;
    write_records(out, part, fo, base);
    proof {
        lemma_bytes_assoc(
            old(out)@,
            dir_header(part@.len() as int),
            recs_bytes(tables_view(part@), fo@.map_values(|o: u32| o as int), base as int),
        );
    }
}

} // verus!


verus! {

/// All fonts' directories, in input order.
#[verifier::rlimit(100)]
#[verifier::spinoff_prover]
fn write_all_dirs(
    out: &mut Vec<u8>,
    fonts: &Vec<Vec<RawTable>>,
    offs: &Vec<Vec<u32>>,
    base: u32,
    Ghost(blocklen): Ghost<int>,
)
    requires
        fonts_shaped(fonts_view(fonts@)),
        offs@.len() == fonts@.len(),
        forall|i: int| 0 <= i < offs@.len() ==> (#[trigger] offs@[i])@.len() == fonts@[i]@.len(),
        forall|i: int, j: int|
            0 <= i < fonts@.len() && 0 <= j < fonts@[i]@.len()
                ==> (#[trigger] fonts@[i]@[j]).data@.len() <= 0xFFFF_FFF0,
        forall|i: int, k: int|
            0 <= i < offs@.len() && 0 <= k < offs@[i]@.len() ==> (#[trigger] offs@[i]@[k]) as int
                <= blocklen,
        base as int + blocklen <= 0xFFFF_FFF0,
        blocklen >= 0,
    ensures
        final (out)@ == old(out)@ + dirs_bytes(
            fonts_view(fonts@),
            offs@.map_values(|v: Vec<u32>| v@.map_values(|o: u32| o as int)),
            base as int,
        ),
{
    let ghost fv = fonts_view(fonts@);
    let ghost aoffs = offs@.map_values(|v: Vec<u32>| v@.map_values(|o: u32| o as int));
    let ghost hdr = old(out)@;
    let mut wi: usize = 0;
    proof {
        assert(fv.skip(0int) =~= fv);
        assert(aoffs.skip(0int) =~= aoffs);
        assert(out@.skip(hdr.len() as int) =~= Seq::<u8>::empty());
        assert(Seq::<u8>::empty() + dirs_bytes(fv, aoffs, base as int) =~= dirs_bytes(
            fv,
            aoffs,
            base as int,
        ));
    }
    while wi < fonts.len()
        invariant
            0 <= wi <= fonts.len(),
            fv == fonts_view(fonts@),
            fv.len() == fonts@.len(),
            fonts_shaped(fv),
            aoffs == offs@.map_values(|v: Vec<u32>| v@.map_values(|o: u32| o as int)),
            aoffs.len() == fv.len(),
            offs@.len() == fv.len(),
            forall|i: int| 0 <= i < offs@.len() ==> (#[trigger] offs@[i])@.len() == fonts@[i]@.len(),
            forall|i: int, j: int|
                0 <= i < fonts@.len() && 0 <= j < fonts@[i]@.len()
                    ==> (#[trigger] fonts@[i]@[j]).data@.len() <= 0xFFFF_FFF0,
            forall|i: int, k: int|
                0 <= i < offs@.len() && 0 <= k < offs@[i]@.len() ==> (#[trigger] offs@[i]@[k]) as int <= blocklen,
            base as int + blocklen <= 0xFFFF_FFF0,
            dirs_bytes(fv, aoffs, base as int) == out@.skip(hdr.len() as int) + dirs_bytes(
                fv.skip(wi as int),
                aoffs.skip(wi as int),
                base as int,
            ),
            out@.len() >= hdr.len(),
            out@.take(hdr.len() as int) == hdr,
        decreases fonts.len() - wi,
    {
        let ghost rsv = fv[wi as int];
        let ghost fov = aoffs[wi as int];
        proof {
            assert(fv[wi as int] == tables_view(fonts@[wi as int]@));
            assert(fv.skip(wi as int)[0] == fv[wi as int]);
            assert(fv.skip(wi as int).skip(1int) =~= fv.skip(wi + 1int));
            assert(aoffs.skip(wi as int)[0] == aoffs[wi as int]);
            assert(aoffs.skip(wi as int).skip(1int) =~= aoffs.skip(wi + 1int));
            assert(aoffs[wi as int] == offs@[wi as int]@.map_values(|o: u32| o as int));
            assert forall|k: int| 0 <= k < fonts@[wi as int]@.len() implies (#[trigger] fonts@[wi as int]@[k]).data@.len() <= 0xFFFF_FFF0 by {}
            assert forall|k: int|
                0 <= k < offs@[wi as int]@.len() implies base as int + (#[trigger] offs@[wi as int]@[k]) as int <= 0xFFFF_FFF0 by {}
        }
        let ghost out0 = out@;
        write_font_dir(out, &fonts[wi], &offs[wi], base);
        proof {
            let dh = dir_header(fv[wi as int].len() as int);
            let rb = recs_bytes(rsv, fov, base as int);
            assert(out@ == out0 + (dh + rb));
            assert(out@.skip(hdr.len() as int) =~= out0.skip(hdr.len() as int) + (dh + rb));
            assert(out@.take(hdr.len() as int) =~= hdr);
            let rest = dirs_bytes(fv.skip(wi + 1int), aoffs.skip(wi + 1int), base as int);
            assert(dirs_bytes(fv.skip(wi as int), aoffs.skip(wi as int), base as int) == (dh + rb)
                + rest);
            lemma_bytes_assoc(out0.skip(hdr.len() as int), dh + rb, rest);
        }
        wi = wi + 1;
    }
    proof {
        assert(fv.skip(fv.len() as int) =~= Seq::<Seq<TableView>>::empty());
        assert(dirs_bytes(
            Seq::<Seq<TableView>>::empty(),
            aoffs.skip(fv.len() as int),
            base as int,
        ) == Seq::<u8>::empty());
        assert(out@.skip(hdr.len() as int) + Seq::<u8>::empty() =~= out@.skip(hdr.len() as int));
        assert(out@ =~= out@.take(hdr.len() as int) + out@.skip(hdr.len() as int));
    }
}

} // verus!

verus! {

/// A cached entry stays found, unchanged, as the cache grows.
proof fn lemma_cache_find_extend(c: ShareCache, e: (u32, Seq<u8>, int), tag: u32, data: Seq<u8>)
    requires
        cache_find(c, tag, data) is Some,
    ensures
        cache_find(c.push(e), tag, data) == cache_find(c, tag, data),
    decreases c.len(),
{
    if c.len() > 0 && !(c[0].0 == tag && c[0].1 == data) {
        lemma_cache_find_extend(c.skip(1), e, tag, data);
        assert(c.push(e)[0] == c[0]);
        assert(c.push(e).skip(1) =~= c.skip(1).push(e));
    } else {
        assert(c.push(e)[0] == c[0]);
    }
}

/// A fresh entry for an unseen key is found at its offset.
proof fn lemma_cache_find_new(c: ShareCache, e: (u32, Seq<u8>, int))
    requires
        cache_find(c, e.0, e.1) is None,
    ensures
        cache_find(c.push(e), e.0, e.1) == Some(e.2),
    decreases c.len(),
{
    if c.len() > 0 {
        assert(c.push(e)[0] == c[0]);
        assert(c.push(e).skip(1) =~= c.skip(1).push(e));
        lemma_cache_find_new(c.skip(1), e);
    } else {
        assert(c.push(e)[0] == e);
    }
}

/// Processing one font can only add cache entries: what was found
/// before is found, unchanged, after.
proof fn lemma_assign_font_cache_mono(
    rs: Seq<TableView>,
    cache: ShareCache,
    block: Seq<u8>,
    tag: u32,
    data: Seq<u8>,
)
    requires
        cache_find(cache, tag, data) is Some,
    ensures
        cache_find(assign_font(rs, cache, block).1, tag, data) == cache_find(cache, tag, data),
    decreases rs.len(),
{
    if rs.len() > 0 {
        let t = rs[0];
        if shareable(t.0) && cache_find(cache, t.0, t.2) is Some {
            lemma_assign_font_cache_mono(rs.skip(1), cache, block, tag, data);
        } else {
            let nb = pad4(block);
            if shareable(t.0) {
                let e = (t.0, t.2, nb.len() as int);
                lemma_cache_find_extend(cache, e, tag, data);
                lemma_assign_font_cache_mono(rs.skip(1), cache.push(e), nb + t.2, tag, data);
            } else {
                lemma_assign_font_cache_mono(rs.skip(1), cache, nb + t.2, tag, data);
            }
        }
    }
}

proof fn lemma_assign_fonts_cache_mono(
    fonts: Seq<Seq<TableView>>,
    cache: ShareCache,
    block: Seq<u8>,
    tag: u32,
    data: Seq<u8>,
)
    requires
        cache_find(cache, tag, data) is Some,
    ensures
        cache_find(assign_fonts(fonts, cache, block).1, tag, data) == cache_find(
            cache,
            tag,
            data,
        ),
    decreases fonts.len(),
{
    if fonts.len() > 0 {
        let one = assign_font(fonts[0], cache, block);
        lemma_assign_font_cache_mono(fonts[0], cache, block, tag, data);
        lemma_assign_fonts_cache_mono(fonts.skip(1), one.1, one.2, tag, data);
    }
}

/// Every shareable record's assigned offset is what the final cache
/// records for its key.
proof fn lemma_assign_font_cached(rs: Seq<TableView>, cache: ShareCache, block: Seq<u8>, j: int)
    requires
        0 <= j < rs.len(),
        shareable(rs[j].0),
    ensures
        ({
            let r = assign_font(rs, cache, block);
            &&& cache_find(r.1, rs[j].0, rs[j].2) is Some
            &&& r.0[j] == cache_find(r.1, rs[j].0, rs[j].2)->Some_0
        }),
    decreases rs.len(),
{
    let t = rs[0];
    let hit = shareable(t.0) && cache_find(cache, t.0, t.2) is Some;
    let cache2: ShareCache = if hit {
        cache
    } else if shareable(t.0) {
        cache.push((t.0, t.2, pad4(block).len() as int))
    } else {
        cache
    };
    let block2: Seq<u8> = if hit {
        block
    } else {
        pad4(block) + t.2
    };
    let rec = assign_font(rs.skip(1), cache2, block2);
    if j == 0 {
        if hit {
            lemma_assign_font_cache_mono(rs.skip(1), cache, block, t.0, t.2);
        } else {
            let e = (t.0, t.2, pad4(block).len() as int);
            lemma_cache_find_new(cache, e);
            lemma_assign_font_cache_mono(rs.skip(1), cache.push(e), block2, t.0, t.2);
        }
        assert(assign_font(rs, cache, block).0[0] == (seq![
            if hit {
                cache_find(cache, t.0, t.2)->Some_0
            } else {
                pad4(block).len() as int
            },
        ] + rec.0)[0]);
    } else {
        assert(rs.skip(1)[j - 1] == rs[j]);
        lemma_assign_font_cached(rs.skip(1), cache2, block2, j - 1);
        lemma_assign_font_len(rs.skip(1), cache2, block2);
        assert((seq![
            if hit {
                cache_find(cache, t.0, t.2)->Some_0
            } else {
                pad4(block).len() as int
            },
        ] + rec.0)[j] == rec.0[j - 1]);
    }
}

/// Lifted to the collection: after all fonts, every shareable record's
/// offset is the final cache's entry for its key.
proof fn lemma_assign_fonts_cached(
    fonts: Seq<Seq<TableView>>,
    cache: ShareCache,
    block: Seq<u8>,
    i: int,
    j: int,
)
    requires
        0 <= i < fonts.len(),
        0 <= j < fonts[i].len(),
        shareable(fonts[i][j].0),
    ensures
        ({
            let r = assign_fonts(fonts, cache, block);
            &&& cache_find(r.1, fonts[i][j].0, fonts[i][j].2) is Some
            &&& r.0[i][j] == cache_find(r.1, fonts[i][j].0, fonts[i][j].2)->Some_0
        }),
    decreases fonts.len(),
{
    let one = assign_font(fonts[0], cache, block);
    let rest = assign_fonts(fonts.skip(1), one.1, one.2);
    if i == 0 {
        lemma_assign_font_cached(fonts[0], cache, block, j);
        lemma_assign_fonts_cache_mono(fonts.skip(1), one.1, one.2, fonts[0][j].0, fonts[0][j].2);
        assert((seq![one.0] + rest.0)[0] == one.0);
    } else {
        assert(fonts.skip(1)[i - 1] == fonts[i]);
        lemma_assign_fonts_cached(fonts.skip(1), one.1, one.2, i - 1, j);
        lemma_assign_fonts_len(fonts.skip(1), one.1, one.2);
        assert((seq![one.0] + rest.0)[i] == rest.0[i - 1]);
    }
}

/// Cross-font dedup: two records anywhere in the collection with the
/// same shareable tag and byte-identical content are assigned the same
/// offset in the shared block, so both directories reference the same
/// absolute offset. The key holds the tag: tables with identical bytes
/// but different tags are never looked up against each other, and each
/// non-shareable or unmatched record is written as a fresh copy.
pub proof fn lemma_dedup_same_offset(
    fonts: Seq<Seq<TableView>>,
    i1: int,
    j1: int,
    i2: int,
    j2: int,
)
    requires
        0 <= i1 < fonts.len(),
        0 <= j1 < fonts[i1].len(),
        0 <= i2 < fonts.len(),
        0 <= j2 < fonts[i2].len(),
        shareable(fonts[i1][j1].0),
        fonts[i1][j1].0 == fonts[i2][j2].0,
        fonts[i1][j1].2 == fonts[i2][j2].2,
    ensures
        ({
            let offs = assign_fonts(fonts, Seq::empty(), Seq::empty()).0;
            offs[i1][j1] == offs[i2][j2]
        }),
{
    lemma_assign_fonts_cached(fonts, Seq::empty(), Seq::empty(), i1, j1);
    lemma_assign_fonts_cached(fonts, Seq::empty(), Seq::empty(), i2, j2);
}

/// Two fonts sharing one byte-identical outline table produce exactly
/// one copy of it in the shared data block, and both table records
/// carry the same offset.
pub proof fn lemma_two_fonts_one_copy(t: TableView)
    requires
        shareable(t.0),
    ensures
        ({
            let r = assign_fonts(seq![seq![t], seq![t]], Seq::empty(), Seq::empty());
            &&& r.2 == t.2
            &&& r.0 == seq![seq![0int], seq![0int]]
        }),
{
    let fonts: Seq<Seq<TableView>> = seq![seq![t], seq![t]];
    let c0: ShareCache = Seq::empty();
    let b0: Seq<u8> = Seq::empty();
    assert(cache_find(c0, t.0, t.2) is None);
    assert(pad4(b0) =~= b0);
    let e = (t.0, t.2, 0int);
    assert(fonts[0] == seq![t]);
    assert(seq![t][0] == t);
    assert(seq![t].skip(1int) =~= Seq::<TableView>::empty());
    let c1 = c0.push(e);
    let b1 = pad4(b0) + t.2;
    assert(b1 =~= t.2);
    assert(assign_font(Seq::<TableView>::empty(), c1, b1) == (Seq::<int>::empty(), c1, b1));
    assert(pad4(b0) + t.2 =~= b1);
    assert(pad4(b0).len() as int == 0);
    let one = assign_font(seq![t], c0, b0);
    assert(one.0 == seq![0int] + Seq::<int>::empty());
    assert(one.0 =~= seq![0int]);
    assert(one.1 == c1);
    assert(one.2 == b1);
    assert(cache_find(c1, t.0, t.2) == Some(0int)) by {
        lemma_cache_find_new(c0, e);
    }
    assert(fonts.skip(1int) =~= seq![seq![t]]);
    assert(seq![seq![t]][0] == seq![t]);
    assert(seq![seq![t]].skip(1int) =~= Seq::<Seq<TableView>>::empty());
    assert(assign_font(Seq::<TableView>::empty(), c1, b1).0 == Seq::<int>::empty());
    let two = assign_font(seq![t], c1, b1);
    assert(two.0 == seq![0int] + Seq::<int>::empty());
    assert(two.0 =~= seq![0int]);
    assert(two.2 == b1);
    assert(assign_fonts(Seq::<Seq<TableView>>::empty(), two.1, two.2) == (
        Seq::<Seq<int>>::empty(),
        two.1,
        two.2,
    ));
    let inner = assign_fonts(seq![seq![t]], c1, b1);
    assert(inner.0 == seq![two.0] + Seq::<Seq<int>>::empty());
    assert(inner.2 == b1);
    let r = assign_fonts(fonts, c0, b0);
    assert(r.0 == seq![one.0] + inner.0);
    assert(r.0 =~= seq![seq![0int], seq![0int]]);
    assert(r.2 == b1);
}

/// Dedup never crosses tags: two fonts whose single tables carry
/// byte-identical content under different shareable tags produce two
/// distinct copies in the shared data block, the second at the first
/// aligned position past the first.
pub proof fn lemma_two_tags_two_copies(t1: TableView, t2: TableView)
    requires
        shareable(t1.0),
        shareable(t2.0),
        t1.0 != t2.0,
        t1.2 == t2.2,
    ensures
        ({
            let r = assign_fonts(seq![seq![t1], seq![t2]], Seq::empty(), Seq::empty());
            &&& r.2 == pad4(t1.2) + t2.2
            &&& r.0 == seq![seq![0int], seq![pad4(t1.2).len() as int]]
        }),
{
    let fonts: Seq<Seq<TableView>> = seq![seq![t1], seq![t2]];
    let c0: ShareCache = Seq::empty();
    let b0: Seq<u8> = Seq::empty();
    assert(cache_find(c0, t1.0, t1.2) is None);
    assert(pad4(b0) =~= b0);
    let e1 = (t1.0, t1.2, 0int);
    assert(fonts[0] == seq![t1]);
    assert(seq![t1][0] == t1);
    assert(seq![t1].skip(1int) =~= Seq::<TableView>::empty());
    let c1 = c0.push(e1);
    let b1 = pad4(b0) + t1.2;
    assert(b1 =~= t1.2);
    assert(assign_font(Seq::<TableView>::empty(), c1, b1) == (Seq::<int>::empty(), c1, b1));
    assert(pad4(b0).len() as int == 0);
    let one = assign_font(seq![t1], c0, b0);
    assert(one.0 == seq![0int] + Seq::<int>::empty());
    assert(one.0 =~= seq![0int]);
    assert(one.1 == c1);
    assert(one.2 == b1);
    // The second font's lookup misses: the one cached entry carries the
    // other tag.
    assert(c1 =~= seq![e1]);
    assert(seq![e1][0] == e1);
    assert(seq![e1].skip(1int) =~= Seq::<(u32, Seq<u8>, int)>::empty());
    assert(cache_find(Seq::<(u32, Seq<u8>, int)>::empty(), t2.0, t2.2) is None);
    assert(cache_find(seq![e1], t2.0, t2.2) is None);
    assert(cache_find(c1, t2.0, t2.2) is None);
    let nb = pad4(b1);
    assert(nb =~= pad4(t1.2));
    let off2 = nb.len() as int;
    let e2 = (t2.0, t2.2, off2);
    let c2 = c1.push(e2);
    let b2 = nb + t2.2;
    assert(fonts.skip(1int) =~= seq![seq![t2]]);
    assert(seq![seq![t2]][0] == seq![t2]);
    assert(seq![seq![t2]].skip(1int) =~= Seq::<Seq<TableView>>::empty());
    assert(seq![t2][0] == t2);
    assert(seq![t2].skip(1int) =~= Seq::<TableView>::empty());
    assert(assign_font(Seq::<TableView>::empty(), c2, b2) == (Seq::<int>::empty(), c2, b2));
    let two = assign_font(seq![t2], c1, b1);
    assert(two.0 == seq![off2] + Seq::<int>::empty());
    assert(two.0 =~= seq![off2]);
    assert(two.2 == b2);
    assert(assign_fonts(Seq::<Seq<TableView>>::empty(), two.1, two.2) == (
        Seq::<Seq<int>>::empty(),
        two.1,
        two.2,
    ));
    let inner = assign_fonts(seq![seq![t2]], c1, b1);
    assert(inner.0 == seq![two.0] + Seq::<Seq<int>>::empty());
    assert(inner.2 == b2);
    let r = assign_fonts(fonts, c0, b0);
    assert(r.0 == seq![one.0] + inner.0);
    assert(r.0 =~= seq![seq![0int], seq![off2]]);
    assert(r.2 == b2);
}

/// Dropping record `j` of one font leaves the cache and the block
/// unchanged when its key is already cached or occurs earlier in the
/// same font.
proof fn lemma_font_drop_dup(rs: Seq<TableView>, cache: ShareCache, block: Seq<u8>, j: int)
    requires
        0 <= j < rs.len(),
        shareable(rs[j].0),
        cache_find(cache, rs[j].0, rs[j].2) is Some || exists|j0: int|
            0 <= j0 < j && (#[trigger] rs[j0]).0 == rs[j].0 && rs[j0].2 == rs[j].2,
    ensures
        ({
            let rs2 = rs.take(j) + rs.skip(j + 1);
            &&& assign_font(rs2, cache, block).1 == assign_font(rs, cache, block).1
            &&& assign_font(rs2, cache, block).2 == assign_font(rs, cache, block).2
        }),
    decreases j,
{
    let rs2 = rs.take(j) + rs.skip(j + 1);
    if j == 0 {
        assert(cache_find(cache, rs[0].0, rs[0].2) is Some);
        assert(rs2 =~= rs.skip(1));
    } else {
        let t = rs[0];
        let hit = shareable(t.0) && cache_find(cache, t.0, t.2) is Some;
        let nb = pad4(block);
        let e = (t.0, t.2, nb.len() as int);
        let cache2: ShareCache = if hit {
            cache
        } else if shareable(t.0) {
            cache.push(e)
        } else {
            cache
        };
        let block2: Seq<u8> = if hit {
            block
        } else {
            nb + t.2
        };
        assert(rs.skip(1)[j - 1] == rs[j]);
        // The duplicate's key is found after the head, or occurs
        // earlier in the tail.
        if cache_find(cache, rs[j].0, rs[j].2) is Some {
            if !hit && shareable(t.0) {
                lemma_cache_find_extend(cache, e, rs[j].0, rs[j].2);
            }
            assert(cache_find(cache2, rs[j].0, rs[j].2) is Some);
        } else {
            let j0 = choose|j0: int|
                0 <= j0 < j && (#[trigger] rs[j0]).0 == rs[j].0 && rs[j0].2 == rs[j].2;
            if j0 == 0 {
                if hit {
                    assert(cache_find(cache2, rs[j].0, rs[j].2) is Some);
                } else {
                    lemma_cache_find_new(cache, e);
                    assert(cache_find(cache2, rs[j].0, rs[j].2) is Some);
                }
            } else {
                assert(rs.skip(1)[j0 - 1] == rs[j0]);
                assert(exists|k0: int|
                    0 <= k0 < j - 1 && (#[trigger] rs.skip(1)[k0]).0 == rs.skip(1)[j - 1].0
                        && rs.skip(1)[k0].2 == rs.skip(1)[j - 1].2);
            }
        }
        lemma_font_drop_dup(rs.skip(1), cache2, block2, j - 1);
        assert(rs2[0] == rs[0]);
        assert(rs2.skip(1) =~= rs.skip(1).take(j - 1) + rs.skip(1).skip(j));
        assert(rs.skip(1).skip(j) =~= rs.skip(j + 1));
        assert(rs.skip(1).take(j - 1) + rs.skip(1).skip((j - 1) + 1) =~= rs2.skip(1));
    }
}

/// Lifted to the collection: dropping record `j` of font `i` leaves
/// the cache and the block unchanged when its key is already cached or
/// occurs earlier in processing order.
proof fn lemma_fonts_drop_dup(
    fonts: Seq<Seq<TableView>>,
    cache: ShareCache,
    block: Seq<u8>,
    i: int,
    j: int,
)
    requires
        0 <= i < fonts.len(),
        0 <= j < fonts[i].len(),
        shareable(fonts[i][j].0),
        cache_find(cache, fonts[i][j].0, fonts[i][j].2) is Some || exists|i0: int, j0: int|
            0 <= i0 < fonts.len() && 0 <= j0 < fonts[i0].len() && (i0 < i || (i0 == i && j0 < j))
                && (#[trigger] fonts[i0][j0]).0 == fonts[i][j].0 && fonts[i0][j0].2
                == fonts[i][j].2,
    ensures
        ({
            let fonts2 = fonts.update(i, fonts[i].take(j) + fonts[i].skip(j + 1));
            &&& assign_fonts(fonts2, cache, block).1 == assign_fonts(fonts, cache, block).1
            &&& assign_fonts(fonts2, cache, block).2 == assign_fonts(fonts, cache, block).2
        }),
    decreases fonts.len(),
{
    let key_tag = fonts[i][j].0;
    let key_data = fonts[i][j].2;
    let fonts2 = fonts.update(i, fonts[i].take(j) + fonts[i].skip(j + 1));
    if i == 0 {
        if cache_find(cache, key_tag, key_data) is None {
            let (i0, j0): (int, int) = choose|i0: int, j0: int|
                0 <= i0 < fonts.len() && 0 <= j0 < fonts[i0].len() && (i0 < i || (i0 == i && j0
                    < j)) && (#[trigger] fonts[i0][j0]).0 == fonts[i][j].0 && fonts[i0][j0].2
                    == fonts[i][j].2;
            assert(i0 == 0 && j0 < j);
            assert(exists|k0: int|
                0 <= k0 < j && (#[trigger] fonts[0][k0]).0 == fonts[0][j].0 && fonts[0][k0].2
                    == fonts[0][j].2);
        }
        lemma_font_drop_dup(fonts[0], cache, block, j);
        assert(fonts2[0] == fonts[0].take(j) + fonts[0].skip(j + 1));
        assert(fonts2.skip(1) =~= fonts.skip(1));
    } else {
        let one = assign_font(fonts[0], cache, block);
        assert(fonts2[0] == fonts[0]);
        assert(fonts.skip(1)[i - 1] == fonts[i]);
        if cache_find(cache, key_tag, key_data) is Some {
            lemma_assign_font_cache_mono(fonts[0], cache, block, key_tag, key_data);
            assert(cache_find(one.1, key_tag, key_data) is Some);
        } else {
            let (i0, j0): (int, int) = choose|i0: int, j0: int|
                0 <= i0 < fonts.len() && 0 <= j0 < fonts[i0].len() && (i0 < i || (i0 == i && j0
                    < j)) && (#[trigger] fonts[i0][j0]).0 == fonts[i][j].0 && fonts[i0][j0].2
                    == fonts[i][j].2;
            if i0 == 0 {
                lemma_assign_font_cached(fonts[0], cache, block, j0);
                assert(cache_find(one.1, key_tag, key_data) is Some);
            } else {
                assert(fonts.skip(1)[i0 - 1] == fonts[i0]);
                assert(exists|a: int, b: int|
                    0 <= a < fonts.skip(1).len() && 0 <= b < fonts.skip(1)[a].len() && (a < i - 1
                        || (a == i - 1 && b < j)) && (#[trigger] fonts.skip(1)[a][b]).0
                        == fonts.skip(1)[i - 1][j].0 && fonts.skip(1)[a][b].2 == fonts.skip(
                        1,
                    )[i - 1][j].2) by {
                    assert(fonts.skip(1)[i0 - 1][j0] == fonts[i0][j0]);
                }
            }
        }
        lemma_fonts_drop_dup(fonts.skip(1), one.1, one.2, i - 1, j);
        assert(fonts2.skip(1) =~= fonts.skip(1).update(
            i - 1,
            fonts.skip(1)[i - 1].take(j) + fonts.skip(1)[i - 1].skip(j + 1),
        ));
    }
}

/// One shared copy accounts for every duplicate: dropping a shareable
/// record whose tag and exact bytes already occur earlier in the
/// collection leaves the shared data block byte-identical, so the
/// output's size counts the shared table once, whatever other tables
/// the fonts hold.
pub proof fn lemma_duplicate_adds_nothing(
    fonts: Seq<Seq<TableView>>,
    i: int,
    j: int,
    i0: int,
    j0: int,
)
    requires
        0 <= i < fonts.len(),
        0 <= j < fonts[i].len(),
        0 <= i0 < fonts.len(),
        0 <= j0 < fonts[i0].len(),
        i0 < i || (i0 == i && j0 < j),
        shareable(fonts[i][j].0),
        fonts[i0][j0].0 == fonts[i][j].0,
        fonts[i0][j0].2 == fonts[i][j].2,
    ensures
        ({
            let fonts2 = fonts.update(i, fonts[i].take(j) + fonts[i].skip(j + 1));
            assign_fonts(fonts2, Seq::empty(), Seq::empty()).2 == assign_fonts(
                fonts,
                Seq::empty(),
                Seq::empty(),
            ).2
        }),
{
    assert(exists|a: int, b: int|
        0 <= a < fonts.len() && 0 <= b < fonts[a].len() && (a < i || (a == i && b < j)) && (
        #[trigger] fonts[a][b]).0 == fonts[i][j].0 && fonts[a][b].2 == fonts[i][j].2) by {
        assert(fonts[i0][j0].0 == fonts[i][j].0);
    }
    lemma_fonts_drop_dup(fonts, Seq::empty(), Seq::empty(), i, j);
}

} // verus!

verus! {

/// Every cached entry points at its own bytes inside the block.
pub open spec fn cache_ok(c: ShareCache, block: Seq<u8>) -> bool {
    forall|k: int|
        0 <= k < c.len() ==> {
            let e = #[trigger] c[k];
            &&& 0 <= e.2
            &&& e.2 + e.1.len() <= block.len()
            &&& block.subrange(e.2, e.2 + e.1.len()) == e.1
        }
}

/// The block only ever grows by appending: earlier bytes stay in place.
proof fn lemma_assign_font_prefix(rs: Seq<TableView>, cache: ShareCache, block: Seq<u8>)
    ensures
        ({
            let r = assign_font(rs, cache, block);
            &&& block.len() <= r.2.len()
            &&& r.2.subrange(0, block.len() as int) == block
        }),
    decreases rs.len(),
{
    if rs.len() == 0 {
        assert(assign_font(rs, cache, block).2.subrange(0, block.len() as int) =~= block);
    } else {
        let t = rs[0];
        if shareable(t.0) && cache_find(cache, t.0, t.2) is Some {
            lemma_assign_font_prefix(rs.skip(1), cache, block);
        } else {
            let nb = pad4(block);
            let nb2 = nb + t.2;
            let cache2: ShareCache = if shareable(t.0) {
                cache.push((t.0, t.2, nb.len() as int))
            } else {
                cache
            };
            lemma_assign_font_prefix(rs.skip(1), cache2, nb2);
            let r2 = assign_font(rs.skip(1), cache2, nb2).2;
            assert(r2.subrange(0, nb2.len() as int) == nb2);
            assert(r2.subrange(0, block.len() as int) =~= nb2.subrange(0, block.len() as int));
            assert(nb2.subrange(0, block.len() as int) =~= block);
        }
    }
}

proof fn lemma_assign_fonts_prefix(fonts: Seq<Seq<TableView>>, cache: ShareCache, block: Seq<u8>)
    ensures
        ({
            let r = assign_fonts(fonts, cache, block);
            &&& block.len() <= r.2.len()
            &&& r.2.subrange(0, block.len() as int) == block
        }),
    decreases fonts.len(),
{
    if fonts.len() == 0 {
        assert(assign_fonts(fonts, cache, block).2.subrange(0, block.len() as int) =~= block);
    } else {
        let one = assign_font(fonts[0], cache, block);
        lemma_assign_font_prefix(fonts[0], cache, block);
        lemma_assign_fonts_prefix(fonts.skip(1), one.1, one.2);
        let r2 = assign_fonts(fonts.skip(1), one.1, one.2).2;
        assert(r2.subrange(0, block.len() as int) =~= one.2.subrange(0, block.len() as int));
    }
}

/// Stable contents survive appends.
proof fn lemma_cache_ok_grow(c: ShareCache, b1: Seq<u8>, b2: Seq<u8>)
    requires
        cache_ok(c, b1),
        b1.len() <= b2.len(),
        b2.subrange(0, b1.len() as int) == b1,
    ensures
        cache_ok(c, b2),
{
    assert forall|k: int| 0 <= k < c.len() implies {
        let e = #[trigger] c[k];
        &&& 0 <= e.2
        &&& e.2 + e.1.len() <= b2.len()
        &&& b2.subrange(e.2, e.2 + e.1.len()) == e.1
    } by {
        let e = c[k];
        assert(b2.subrange(e.2, e.2 + e.1.len()) =~= b1.subrange(e.2, e.2 + e.1.len()));
    }
}

/// Processing preserves the cache's pointing-at-its-bytes invariant.
proof fn lemma_assign_font_cache_ok(rs: Seq<TableView>, cache: ShareCache, block: Seq<u8>)
    requires
        cache_ok(cache, block),
    ensures
        cache_ok(assign_font(rs, cache, block).1, assign_font(rs, cache, block).2),
    decreases rs.len(),
{
    if rs.len() > 0 {
        let t = rs[0];
        if shareable(t.0) && cache_find(cache, t.0, t.2) is Some {
            lemma_assign_font_cache_ok(rs.skip(1), cache, block);
        } else {
            let nb = pad4(block);
            let nb2 = nb + t.2;
            assert(nb.subrange(0, block.len() as int) =~= block);
            lemma_cache_ok_grow(cache, block, nb);
            assert(nb2.subrange(0, nb.len() as int) =~= nb);
            lemma_cache_ok_grow(cache, nb, nb2);
            if shareable(t.0) {
                let e = (t.0, t.2, nb.len() as int);
                assert(nb2.subrange(e.2, e.2 + e.1.len()) =~= t.2);
                assert forall|k: int| 0 <= k < cache.push(e).len() implies {
                    let en = #[trigger] cache.push(e)[k];
                    &&& 0 <= en.2
                    &&& en.2 + en.1.len() <= nb2.len()
                    &&& nb2.subrange(en.2, en.2 + en.1.len()) == en.1
                } by {
                    if k < cache.len() {
                        assert(cache.push(e)[k] == cache[k]);
                    } else {
                        assert(cache.push(e)[k] == e);
                    }
                }
                lemma_assign_font_cache_ok(rs.skip(1), cache.push(e), nb2);
            } else {
                lemma_assign_font_cache_ok(rs.skip(1), cache, nb2);
            }
        }
    }
}

/// Every record's assigned offset points at exactly its table's bytes
/// in the final block.
proof fn lemma_assign_font_content(rs: Seq<TableView>, cache: ShareCache, block: Seq<u8>, j: int)
    requires
        cache_ok(cache, block),
        0 <= j < rs.len(),
    ensures
        ({
            let r = assign_font(rs, cache, block);
            &&& 0 <= r.0[j]
            &&& r.0[j] + rs[j].2.len() <= r.2.len()
            &&& r.2.subrange(r.0[j], r.0[j] + rs[j].2.len()) == rs[j].2
        }),
    decreases rs.len(),
{
    let t = rs[0];
    let hit = shareable(t.0) && cache_find(cache, t.0, t.2) is Some;
    let nb = pad4(block);
    let nb2 = nb + t.2;
    let cache2: ShareCache = if hit {
        cache
    } else if shareable(t.0) {
        cache.push((t.0, t.2, nb.len() as int))
    } else {
        cache
    };
    let block2: Seq<u8> = if hit {
        block
    } else {
        nb2
    };
    let rec = assign_font(rs.skip(1), cache2, block2);
    lemma_assign_font_prefix(rs.skip(1), cache2, block2);
    if j == 0 {
        if hit {
            let off = cache_find(cache, t.0, t.2)->Some_0;
            lemma_cache_find_member(cache, t.0, t.2);
            let k = choose|k: int|
                0 <= k < cache.len() && (#[trigger] cache[k]).2 == cache_find(
                    cache,
                    t.0,
                    t.2,
                )->Some_0;
            lemma_cache_find_is_entry(cache, t.0, t.2);
            assert(rec.2.subrange(off, off + t.2.len()) =~= block.subrange(off, off + t.2.len()));
            assert(assign_font(rs, cache, block).0[0] == (seq![off] + rec.0)[0]);
        } else {
            let off = nb.len() as int;
            assert(nb2.subrange(off, off + t.2.len()) =~= t.2);
            assert(rec.2.subrange(off, off + t.2.len()) =~= nb2.subrange(off, off + t.2.len()));
            assert(assign_font(rs, cache, block).0[0] == (seq![off] + rec.0)[0]);
        }
    } else {
        assert(rs.skip(1)[j - 1] == rs[j]);
        if !hit {
            assert(nb.subrange(0, block.len() as int) =~= block);
            lemma_cache_ok_grow(cache, block, nb);
            assert(nb2.subrange(0, nb.len() as int) =~= nb);
            lemma_cache_ok_grow(cache, nb, nb2);
            if shareable(t.0) {
                let e = (t.0, t.2, nb.len() as int);
                assert(nb2.subrange(e.2, e.2 + e.1.len()) =~= t.2);
                assert forall|k: int| 0 <= k < cache.push(e).len() implies {
                    let en = #[trigger] cache.push(e)[k];
                    &&& 0 <= en.2
                    &&& en.2 + en.1.len() <= nb2.len()
                    &&& nb2.subrange(en.2, en.2 + en.1.len()) == en.1
                } by {
                    if k < cache.len() {
                        assert(cache.push(e)[k] == cache[k]);
                    } else {
                        assert(cache.push(e)[k] == e);
                    }
                }
            }
        }
        lemma_assign_font_content(rs.skip(1), cache2, block2, j - 1);
        lemma_assign_font_len(rs.skip(1), cache2, block2);
        let off0: int = if hit {
            cache_find(cache, t.0, t.2)->Some_0
        } else {
            nb.len() as int
        };
        assert(assign_font(rs, cache, block).0[j] == (seq![off0] + rec.0)[j]);
    }
}

/// A found entry is, in particular, a well-placed one.
proof fn lemma_cache_find_is_entry(c: ShareCache, tag: u32, data: Seq<u8>)
    ensures
        cache_find(c, tag, data) is Some ==> exists|k: int|
            0 <= k < c.len() && (#[trigger] c[k]) == (tag, data, cache_find(
                c,
                tag,
                data,
            )->Some_0),
    decreases c.len(),
{
    if c.len() > 0 && !(c[0].0 == tag && c[0].1 == data) {
        lemma_cache_find_is_entry(c.skip(1), tag, data);
        if cache_find(c, tag, data) is Some {
            let k = choose|k: int|
                0 <= k < c.skip(1).len() && (#[trigger] c.skip(1)[k]) == (tag, data, cache_find(
                    c.skip(1),
                    tag,
                    data,
                )->Some_0);
            assert(c[k + 1] == (tag, data, cache_find(c, tag, data)->Some_0));
        }
    } else if c.len() > 0 {
        assert(c[0] == (tag, data, cache_find(c, tag, data)->Some_0));
    }
}

/// Cached entries lie in writing order: each entry's bytes end at or
/// before the next entry's offset, so distinct entries with nonempty
/// bytes never share an offset.
pub open spec fn cache_layered(c: ShareCache) -> bool {
    forall|k1: int, k2: int|
        0 <= k1 < k2 < c.len() ==> (#[trigger] c[k1]).2 + c[k1].1.len() <= (#[trigger] c[k2]).2
}

/// No cached entry holds empty bytes.
pub open spec fn cache_nonempty(c: ShareCache) -> bool {
    forall|k: int| 0 <= k < c.len() ==> (#[trigger] c[k]).1.len() > 0
}

/// Processing one font whose shareable tables are nonempty preserves
/// the cache layout invariants.
proof fn lemma_assign_font_layered(rs: Seq<TableView>, cache: ShareCache, block: Seq<u8>)
    requires
        cache_ok(cache, block),
        cache_layered(cache),
        cache_nonempty(cache),
        forall|j: int|
            0 <= j < rs.len() && shareable((#[trigger] rs[j]).0) ==> rs[j].2.len() > 0,
    ensures
        ({
            let r = assign_font(rs, cache, block);
            &&& cache_ok(r.1, r.2)
            &&& cache_layered(r.1)
            &&& cache_nonempty(r.1)
        }),
    decreases rs.len(),
{
    if rs.len() > 0 {
        let t = rs[0];
        assert forall|j: int|
            0 <= j < rs.skip(1).len() && shareable((#[trigger] rs.skip(1)[j]).0) implies rs.skip(
            1,
        )[j].2.len() > 0 by {
            assert(rs.skip(1)[j] == rs[j + 1]);
        }
        if shareable(t.0) && cache_find(cache, t.0, t.2) is Some {
            lemma_assign_font_layered(rs.skip(1), cache, block);
        } else {
            let nb = pad4(block);
            let nb2 = nb + t.2;
            assert(nb.subrange(0, block.len() as int) =~= block);
            lemma_cache_ok_grow(cache, block, nb);
            assert(nb2.subrange(0, nb.len() as int) =~= nb);
            lemma_cache_ok_grow(cache, nb, nb2);
            if shareable(t.0) {
                let e = (t.0, t.2, nb.len() as int);
                assert(nb2.subrange(e.2, e.2 + e.1.len()) =~= t.2);
                assert forall|k: int| 0 <= k < cache.push(e).len() implies {
                    let en = #[trigger] cache.push(e)[k];
                    &&& 0 <= en.2
                    &&& en.2 + en.1.len() <= nb2.len()
                    &&& nb2.subrange(en.2, en.2 + en.1.len()) == en.1
                } by {
                    if k < cache.len() {
                        assert(cache.push(e)[k] == cache[k]);
                    } else {
                        assert(cache.push(e)[k] == e);
                    }
                }
                assert forall|k1: int, k2: int|
                    0 <= k1 < k2 < cache.push(e).len() implies (#[trigger] cache.push(e)[k1]).2
                    + cache.push(e)[k1].1.len() <= (#[trigger] cache.push(e)[k2]).2 by {
                    assert(cache.push(e)[k1] == cache[k1]);
                    if k2 < cache.len() {
                        assert(cache.push(e)[k2] == cache[k2]);
                    } else {
                        assert(cache.push(e)[k2] == e);
                        assert(cache[k1].2 + cache[k1].1.len() <= block.len());
                    }
                }
                assert forall|k: int|
                    0 <= k < cache.push(e).len() implies (#[trigger] cache.push(
                    e,
                )[k]).1.len() > 0 by {
                    if k < cache.len() {
                        assert(cache.push(e)[k] == cache[k]);
                    } else {
                        assert(cache.push(e)[k] == e);
                        assert(shareable(rs[0].0) ==> rs[0].2.len() > 0);
                    }
                }
                lemma_assign_font_layered(rs.skip(1), cache.push(e), nb2);
            } else {
                lemma_assign_font_layered(rs.skip(1), cache, nb2);
            }
        }
    }
}

/// Lifted to the collection: the final cache keeps the layout
/// invariants.
proof fn lemma_assign_fonts_layered(fonts: Seq<Seq<TableView>>, cache: ShareCache, block: Seq<u8>)
    requires
        cache_ok(cache, block),
        cache_layered(cache),
        cache_nonempty(cache),
        forall|i: int, j: int|
            0 <= i < fonts.len() && 0 <= j < fonts[i].len() && shareable(
                (#[trigger] fonts[i][j]).0,
            ) ==> fonts[i][j].2.len() > 0,
    ensures
        ({
            let r = assign_fonts(fonts, cache, block);
            &&& cache_ok(r.1, r.2)
            &&& cache_layered(r.1)
            &&& cache_nonempty(r.1)
        }),
    decreases fonts.len(),
{
    if fonts.len() > 0 {
        assert forall|j: int|
            0 <= j < fonts[0].len() && shareable(
                (#[trigger] fonts[0][j]).0,
            ) implies fonts[0][j].2.len() > 0 by {
            assert(fonts[0][j] == fonts[0int][j]);
        }
        lemma_assign_font_layered(fonts[0], cache, block);
        let one = assign_font(fonts[0], cache, block);
        assert forall|i: int, j: int|
            0 <= i < fonts.skip(1).len() && 0 <= j < fonts.skip(1)[i].len() && shareable(
                (#[trigger] fonts.skip(1)[i][j]).0,
            ) implies fonts.skip(1)[i][j].2.len() > 0 by {
            assert(fonts.skip(1)[i] == fonts[i + 1]);
        }
        lemma_assign_fonts_layered(fonts.skip(1), one.1, one.2);
    }
}

/// The dedup key is the pair of tag and exact bytes, never bytes
/// alone: where every shareable table is nonempty, two shareable
/// records assigned the same offset in the shared block carry the same
/// tag and the same bytes. Records with different tags never reference
/// the same shared copy.
pub proof fn lemma_same_offset_same_key(
    fonts: Seq<Seq<TableView>>,
    i1: int,
    j1: int,
    i2: int,
    j2: int,
)
    requires
        0 <= i1 < fonts.len(),
        0 <= j1 < fonts[i1].len(),
        0 <= i2 < fonts.len(),
        0 <= j2 < fonts[i2].len(),
        shareable(fonts[i1][j1].0),
        shareable(fonts[i2][j2].0),
        forall|i: int, j: int|
            0 <= i < fonts.len() && 0 <= j < fonts[i].len() && shareable(
                (#[trigger] fonts[i][j]).0,
            ) ==> fonts[i][j].2.len() > 0,
    ensures
        ({
            let offs = assign_fonts(fonts, Seq::empty(), Seq::empty()).0;
            offs[i1][j1] == offs[i2][j2] ==> {
                &&& fonts[i1][j1].0 == fonts[i2][j2].0
                &&& fonts[i1][j1].2 == fonts[i2][j2].2
            }
        }),
{
    let r = assign_fonts(fonts, Seq::empty(), Seq::empty());
    let t1 = fonts[i1][j1];
    let t2 = fonts[i2][j2];
    lemma_assign_fonts_cached(fonts, Seq::empty(), Seq::empty(), i1, j1);
    lemma_assign_fonts_cached(fonts, Seq::empty(), Seq::empty(), i2, j2);
    lemma_assign_fonts_layered(fonts, Seq::empty(), Seq::empty());
    lemma_cache_find_is_entry(r.1, t1.0, t1.2);
    lemma_cache_find_is_entry(r.1, t2.0, t2.2);
    if r.0[i1][j1] == r.0[i2][j2] {
        let k1 = choose|k: int|
            0 <= k < r.1.len() && (#[trigger] r.1[k]) == (t1.0, t1.2, cache_find(
                r.1,
                t1.0,
                t1.2,
            )->Some_0);
        let k2 = choose|k: int|
            0 <= k < r.1.len() && (#[trigger] r.1[k]) == (t2.0, t2.2, cache_find(
                r.1,
                t2.0,
                t2.2,
            )->Some_0);
        assert(r.1[k1].2 == r.1[k2].2);
        if k1 < k2 {
            assert(r.1[k1].2 + r.1[k1].1.len() <= r.1[k2].2);
            assert(r.1[k1].1.len() > 0);
            assert(false);
        }
        if k2 < k1 {
            assert(r.1[k2].2 + r.1[k2].1.len() <= r.1[k1].2);
            assert(r.1[k2].1.len() > 0);
            assert(false);
        }
        assert(r.1[k1] == r.1[k2]);
    }
}

/// The content side of the identity round trip: in the built
/// collection, every font's every table record points at exactly that
/// table's bytes in the shared data block, so parsing the directories
/// back recovers each table's tag, carried-over checksum, and bytes
/// unchanged — and rebuilding from them, the builder being a pure
/// function of those triples, reproduces byte-identical output.
pub proof fn lemma_block_holds_every_table(fonts: Seq<Seq<TableView>>, i: int, j: int)
    requires
        0 <= i < fonts.len(),
        0 <= j < fonts[i].len(),
    ensures
        ({
            let a = assign_fonts(fonts, Seq::empty(), Seq::empty());
            &&& 0 <= a.0[i][j]
            &&& a.0[i][j] + fonts[i][j].2.len() <= a.2.len()
            &&& a.2.subrange(a.0[i][j], a.0[i][j] + fonts[i][j].2.len()) == fonts[i][j].2
        }),
{
    lemma_block_holds_rec(fonts, Seq::empty(), Seq::empty(), i, j);
}

proof fn lemma_block_holds_rec(
    fonts: Seq<Seq<TableView>>,
    cache: ShareCache,
    block: Seq<u8>,
    i: int,
    j: int,
)
    requires
        cache_ok(cache, block),
        0 <= i < fonts.len(),
        0 <= j < fonts[i].len(),
    ensures
        ({
            let a = assign_fonts(fonts, cache, block);
            &&& 0 <= a.0[i][j]
            &&& a.0[i][j] + fonts[i][j].2.len() <= a.2.len()
            &&& a.2.subrange(a.0[i][j], a.0[i][j] + fonts[i][j].2.len()) == fonts[i][j].2
        }),
    decreases fonts.len(),
{
    let one = assign_font(fonts[0], cache, block);
    let rest = assign_fonts(fonts.skip(1), one.1, one.2);
    if i == 0 {
        lemma_assign_font_content(fonts[0], cache, block, j);
        lemma_assign_fonts_prefix(fonts.skip(1), one.1, one.2);
        assert((seq![one.0] + rest.0)[0] == one.0);
        assert(rest.2.subrange(one.0[j], one.0[j] + fonts[0][j].2.len()) =~= one.2.subrange(
            one.0[j],
            one.0[j] + fonts[0][j].2.len(),
        ));
    } else {
        assert(fonts.skip(1)[i - 1] == fonts[i]);
        lemma_assign_font_cache_ok(fonts[0], cache, block);
        lemma_block_holds_rec(fonts.skip(1), one.1, one.2, i - 1, j);
        lemma_assign_fonts_len(fonts.skip(1), one.1, one.2);
        assert((seq![one.0] + rest.0)[i] == rest.0[i - 1]);
    }
}

} // verus!
