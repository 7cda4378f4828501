//! Raw sfnt tables and the byte-level operations the rewriter needs:
//! table checksums, the minimal `name` table, `head` patching, and
//! tag-ordered table lists.

use vstd::prelude::*;

use crate::glyf::{i16_be, push_i16_be, push_u16_be, u16_be, u32_be};

verus! {

/// One sfnt table: its tag, the checksum its directory record carries,
/// and its bytes.
#[derive(Clone, Debug)]
pub struct RawTable {
    pub tag: u32,
    pub checksum: u32,
    pub data: Vec<u8>,
}

/// The abstract value of a table.
pub type TableView = (u32, u32, Seq<u8>);

impl View for RawTable {
    type V = TableView;

    open spec fn view(&self) -> TableView {
        (self.tag, self.checksum, self.data@)
    }
}

pub open spec fn tables_view(ts: Seq<RawTable>) -> Seq<TableView> {
    ts.map_values(|t: RawTable| t@)
}

/// The `head`, `glyf`, `loca` and `name` tags.
pub open spec fn head_tag() -> int {
    0x68656164
}

pub open spec fn glyf_tag() -> int {
    0x676C7966
}

pub open spec fn loca_tag() -> int {
    0x6C6F6361
}

pub open spec fn name_tag() -> int {
    0x6E616D65
}

/// A byte of `d`, zero past the end: tables are checksummed as if
/// zero-padded to a multiple of four bytes.
pub open spec fn byte_or_zero(d: Seq<u8>, i: int) -> int {
    if 0 <= i < d.len() {
        d[i] as int
    } else {
        0
    }
}

/// The big-endian 32-bit word of `d` at byte offset `i`.
pub open spec fn word_at(d: Seq<u8>, i: int) -> int {
    byte_or_zero(d, i) * 0x1000000 + byte_or_zero(d, i + 1) * 0x10000 + byte_or_zero(d, i + 2)
        * 0x100 + byte_or_zero(d, i + 3)
}

/// Running table checksum: 32-bit wrapping sum of big-endian words.
pub open spec fn cksum_acc(d: Seq<u8>, i: int, acc: int) -> int
    decreases (if i < d.len() {
        d.len() - i
    } else {
        0
    }),
{
    if i >= d.len() || i < 0 {
        acc
    } else {
        cksum_acc(d, i + 4, (acc + word_at(d, i)) % 0x1_0000_0000)
    }
}

/// The sfnt checksum of a table's bytes.
pub open spec fn checksum_of(d: Seq<u8>) -> int {
    cksum_acc(d, 0, 0)
}

/// The running checksum stays a 32-bit value.
pub proof fn lemma_cksum_range(d: Seq<u8>, i: int, acc: int)
    requires
        0 <= acc < 0x1_0000_0000,
    ensures
        0 <= cksum_acc(d, i, acc) < 0x1_0000_0000,
    decreases (if i < d.len() {
        d.len() - i
    } else {
        0
    }),
{
    if 0 <= i < d.len() {
        lemma_cksum_range(d, i + 4, (acc + word_at(d, i)) % 0x1_0000_0000);
    }
}

/// The checksum is a 32-bit value.
pub proof fn lemma_checksum_range(d: Seq<u8>)
    ensures
        0 <= checksum_of(d) < 0x1_0000_0000,
{
    lemma_cksum_range(d, 0, 0);
}

/// Compute a table checksum.
pub fn checksum(data: &Vec<u8>) -> (r: u32)
    requires
        data@.len() <= 0xFFFF_FFF0,
    ensures
        r as int == checksum_of(data@),
{
    let mut acc: u32 = 0;
    let mut i: usize = 0;
    while i < data.len()
        invariant
            0 <= i <= data.len() + 3,
            data@.len() <= 0xFFFF_FFF0,
            i % 4 == 0,
            checksum_of(data@) == cksum_acc(data@, i as int, acc as int),
        decreases data.len() + 4 - i,
    {
        let b0 = data[i] as u32;
        let b1 = if i + 1 < data.len() {
            data[i + 1] as u32
        } else {
            0
        };
        let b2 = if i + 2 < data.len() {
            data[i + 2] as u32
        } else {
            0
        };
        let b3 = if i + 3 < data.len() {
            data[i + 3] as u32
        } else {
            0
        };
        let w: u32 = b0 * 0x1000000 + b1 * 0x10000 + b2 * 0x100 + b3;
        proof {
            assert(w as int == word_at(data@, i as int));
        }
        let sum: u64 = acc as u64 + w as u64;
        acc = (sum % 0x1_0000_0000) as u32;
        i = i + 4;
    }
    acc
}

/// The UTF-16BE encoding of one character.
pub open spec fn char_utf16(c: char) -> Seq<u8> {
    if (c as int) < 0x10000 {
        u16_be(c as int)
    } else {
        u16_be(0xD800 + (c as int - 0x10000) / 0x400) + u16_be(0xDC00 + (c as int - 0x10000)
            % 0x400)
    }
}

/// The UTF-16BE encoding of a string.
pub open spec fn utf16_bytes(s: Seq<char>) -> Seq<u8>
    decreases s.len(),
{
    if s.len() == 0 {
        Seq::empty()
    } else {
        char_utf16(s[0]) + utf16_bytes(s.skip(1))
    }
}

pub proof fn lemma_utf16_len(s: Seq<char>)
    ensures
        2 * s.len() <= utf16_bytes(s).len() <= 4 * s.len(),
    decreases s.len(),
{
    if s.len() > 0 {
        lemma_utf16_len(s.skip(1));
    }
}

/// The minimal `name` table: two Windows UTF-16BE records (family name
/// and full name), both set to the same string.
pub open spec fn name_table_bytes(s: Seq<char>) -> Seq<u8> {
    let u = utf16_bytes(s);
    u16_be(0) + u16_be(2) + u16_be(30) + u16_be(3) + u16_be(1) + u16_be(0x409) + u16_be(1)
        + u16_be(u.len() as int) + u16_be(0) + u16_be(3) + u16_be(1) + u16_be(0x409) + u16_be(4)
        + u16_be(u.len() as int) + u16_be(u.len() as int) + u + u
}

/// Encode a string as UTF-16BE.
#[verifier::rlimit(50)]
pub fn utf16_of(name: &Vec<char>) -> (r: Vec<u8>)
    ensures
        r@ == utf16_bytes(name@),
{
    let ghost s = name@;
    let mut out: Vec<u8> = Vec::new();
    let mut i: usize = 0;
    proof {
        assert(s.skip(0int) =~= s);
        assert(Seq::<u8>::empty() + utf16_bytes(s) =~= utf16_bytes(s));
    }
    while i < name.len()
        invariant
            0 <= i <= name.len(),
            s == name@,
            utf16_bytes(s) == out@ + utf16_bytes(s.skip(i as int)),
        decreases name.len() - i,
    {
        let c = name[i];
        let u = char_code(c);
        let ghost out0 = out@;
        proof {
            assert(s.skip(i as int)[0] == s[i as int]);
            assert(s.skip(i as int).skip(1int) =~= s.skip(i + 1int));
        }
        if u < 0x10000 {
            proof {
                assert(((u / 256) as u8) as int == (c as int / 256) % 256);
                assert(((u % 256) as u8) as int == (c as int) % 256);
            }
            push_u16_be_u8(&mut out, (u / 256) as u8, (u % 256) as u8);
            proof {
                assert(seq![(u / 256) as u8, (u % 256) as u8] =~= char_utf16(c));
                assert(out@ =~= out0 + char_utf16(c));
                assert(out0 + (char_utf16(c) + utf16_bytes(s.skip(i + 1int))) =~= (out0
                    + char_utf16(c)) + utf16_bytes(s.skip(i + 1int)));
            }
        } else {
            let v = u - 0x10000;
            let hi: u32 = 0xD800 + v / 0x400;
            let lo: u32 = 0xDC00 + v % 0x400;
            proof {
                assert(hi as int == 0xD800 + (c as int - 0x10000) / 0x400);
                assert(lo as int == 0xDC00 + (c as int - 0x10000) % 0x400);
                assert(hi < 0x10000 && lo < 0x10000);
                assert(((hi / 256) as u8) as int == (hi as int / 256) % 256);
                assert(((lo / 256) as u8) as int == (lo as int / 256) % 256);
            }
            push_u16_be_u8(&mut out, (hi / 256) as u8, (hi % 256) as u8);
            push_u16_be_u8(&mut out, (lo / 256) as u8, (lo % 256) as u8);
            proof {
                assert(seq![(hi / 256) as u8, (hi % 256) as u8] =~= u16_be(hi as int));
                assert(seq![(lo / 256) as u8, (lo % 256) as u8] =~= u16_be(lo as int));
                assert(u16_be(hi as int) + u16_be(lo as int) =~= char_utf16(c));
                assert(out@ =~= out0 + char_utf16(c));
                assert(out0 + (char_utf16(c) + utf16_bytes(s.skip(i + 1int))) =~= (out0
                    + char_utf16(c)) + utf16_bytes(s.skip(i + 1int)));
            }
        }
        i = i + 1;
    }
    proof {
        assert(s.skip(s.len() as int) =~= Seq::<char>::empty());
        assert(utf16_bytes(Seq::<char>::empty()) == Seq::<u8>::empty());
        assert(out@ + Seq::<u8>::empty() =~= out@);
    }
    out
}

/// The code point of a character.
fn char_code(c: char) -> (u: u32)
    ensures
        u as int == c as int,
        u <= 0x10FFFF,
{
    proof {
        assert(c as int <= 0x10FFFF);
    }
    c as u32
}

fn push_u16_be_u8(out: &mut Vec<u8>, hi: u8, lo: u8)
    ensures
        final (out)@ == old(out)@ + seq![hi, lo],
{
    out.push(hi);
    out.push(lo);
    proof {
        assert(final (out)@ =~= old(out)@ + seq![hi, lo]);
    }
}

/// Build the minimal two-record `name` table for a display name.
pub fn make_name_table(name: &Vec<char>) -> (r: Vec<u8>)
    requires
        name@.len() <= 0x3FFF,
    ensures
        r@ == name_table_bytes(name@),
{
    let utf16 = utf16_of(name);
    proof {
        lemma_utf16_len(name@);
    }
    let len: u16 = utf16.len() as u16;
    let mut out: Vec<u8> = Vec::new();
    push_u16_be(&mut out, 0);
    push_u16_be(&mut out, 2);
    push_u16_be(&mut out, 30);
    push_u16_be(&mut out, 3);
    push_u16_be(&mut out, 1);
    push_u16_be(&mut out, 0x409);
    push_u16_be(&mut out, 1);
    push_u16_be(&mut out, len);
    push_u16_be(&mut out, 0);
    push_u16_be(&mut out, 3);
    push_u16_be(&mut out, 1);
    push_u16_be(&mut out, 0x409);
    push_u16_be(&mut out, 4);
    push_u16_be(&mut out, len);
    push_u16_be(&mut out, len);
    let ghost header = out@;
    proof {
        assert(header =~= u16_be(0) + u16_be(2) + u16_be(30) + u16_be(3) + u16_be(1) + u16_be(
            0x409,
        ) + u16_be(1) + u16_be(utf16_bytes(name@).len() as int) + u16_be(0) + u16_be(3) + u16_be(1)
            + u16_be(0x409) + u16_be(4) + u16_be(utf16_bytes(name@).len() as int) + u16_be(
            utf16_bytes(name@).len() as int,
        ));
    }
    append_bytes(&mut out, &utf16);
    append_bytes(&mut out, &utf16);
    proof {
        assert(out@ =~= name_table_bytes(name@));
    }
    out
}

/// Append the bytes of `src` to `out`.
pub fn append_bytes(out: &mut Vec<u8>, src: &Vec<u8>)
    ensures
        final (out)@ == old(out)@ + src@,
{
    let mut i: usize = 0;
    while i < src.len()
        invariant
            0 <= i <= src.len(),
            out@ == old(out)@ + src@.take(i as int),
        decreases src.len() - i,
    {
        out.push(src[i]);
        proof {
            assert(old(out)@ + src@.take(i + 1int) =~= (old(out)@ + src@.take(i as int)).push(
                src@[i as int],
            ));
        }
        i = i + 1;
    }
    proof {
        assert(src@.take(src@.len() as int) =~= src@);
    }
}

/// The `head` table with the loca-format field set and the
/// checksum-adjustment field zeroed.
pub open spec fn patched_head(d: Seq<u8>, fmt: int) -> Seq<u8> {
    d.update(8, 0u8).update(9, 0u8).update(10, 0u8).update(11, 0u8).update(
        50,
        i16_be(fmt)[0],
    ).update(51, i16_be(fmt)[1])
}

/// Patch a `head` table for the rebuilt outline tables.
pub fn patch_head(head: &Vec<u8>, fmt: u16) -> (r: Vec<u8>)
    requires
        head@.len() >= 54,
        fmt <= 1,
    ensures
        r@ == patched_head(head@, fmt as int),
{
    let mut out = copy_bytes(head);
    out.set(8, 0);
    out.set(9, 0);
    out.set(10, 0);
    out.set(11, 0);
    out.set(50, (fmt / 256) as u8);
    out.set(51, (fmt % 256) as u8);
    proof {
        assert(i16_be(fmt as int)[0] == (fmt as int / 256 % 256) as u8);
        assert(i16_be(fmt as int)[1] == (fmt as int % 256) as u8);
        assert(out@ =~= patched_head(head@, fmt as int));
    }
    out
}

/// Copy a byte vector.
pub fn copy_bytes(v: &Vec<u8>) -> (r: Vec<u8>)
    ensures
        r@ == v@,
{
    let mut r: Vec<u8> = Vec::new();
    append_bytes(&mut r, v);
    proof {
        assert(Seq::<u8>::empty() + v@ =~= v@);
    }
    r
}

} // verus!
