//! Resolution of annotation text for a base character: syllable
//! transliteration with tone marks, kana-to-romaji transliteration, and
//! splitting resolved text into parts on a configured delimiter.

use pinyin::ToPinyin;
use wana_kana::ConvertJapanese;

use vstd::prelude::*;

verus! {

/// The tone-marked syllable the transliteration table gives for a
/// character, `None` where the table has no entry.
pub uninterp spec fn pinyin_of(c: char) -> Option<Seq<char>>;

/// Relies on pinyin's `ToPinyin::to_pinyin` for `char` and
/// `Pinyin::with_tone`: the tone-marked syllable is read from a static
/// table, a function of the character alone.
#[verifier::external_body]
pub(crate) fn pinyin_with_tone(c: char) -> (r: Option<Vec<char>>)
    ensures
        r is Some <==> pinyin_of(c) is Some,
        r is Some ==> r->Some_0@ == pinyin_of(c)->Some_0,
{
    match c.to_pinyin() {
        Some(p) => Some(p.with_tone().chars().collect()),
        None => None,
    }
}

/// What the kana-to-romaji conversion returns for a string.
pub uninterp spec fn romaji_of(s: Seq<char>) -> Seq<char>;

/// The halfwidth voiced and semi-voiced sound marks (U+FF9E, U+FF9F),
/// which the conversion's halfwidth pass does not accept on their own.
pub open spec fn romaji_excluded(c: char) -> bool {
    c == '\u{ff9e}' || c == '\u{ff9f}'
}

/// Relies on wana_kana's `ConvertJapanese::to_romaji` for `&str`: the
/// conversion walks static tables with default options, a function of
/// the characters alone. A standalone halfwidth voiced or semi-voiced
/// sound mark makes its halfwidth pre-pass subtract past zero, so such
/// characters are excluded.
#[verifier::external_body]
pub(crate) fn romaji_chars(s: &Vec<char>) -> (r: Vec<char>)
    requires
        forall|i: int| 0 <= i < s@.len() ==> !romaji_excluded(#[trigger] s@[i]),
    ensures
        r@ == romaji_of(s@),
{
    let text: String = s.iter().collect();
    text.as_str().to_romaji().chars().collect()
}

/// Index of the first occurrence of `d` in `s`; `s.len()` when absent.
pub open spec fn first_idx(s: Seq<char>, d: char) -> int
    decreases s.len(),
{
    if s.len() == 0 {
        0
    } else if s[0] == d {
        0
    } else {
        1 + first_idx(s.skip(1), d)
    }
}

pub proof fn lemma_first_idx_bounds(s: Seq<char>, d: char)
    ensures
        0 <= first_idx(s, d) <= s.len(),
        first_idx(s, d) < s.len() ==> s[first_idx(s, d)] == d,
        forall|i: int| 0 <= i < first_idx(s, d) ==> s[i] != d,
    decreases s.len(),
{
    if s.len() > 0 && s[0] != d {
        lemma_first_idx_bounds(s.skip(1), d);
        assert forall|i: int| 0 <= i < first_idx(s, d) implies s[i] != d by {
            if i > 0 {
                assert(s.skip(1)[i - 1] == s[i]);
            }
        }
        if first_idx(s, d) < s.len() {
            assert(s.skip(1)[first_idx(s, d) - 1] == s[first_idx(s, d)]);
        }
    }
}

/// Text split on every occurrence of `d`, delimiters dropped; always at
/// least one (possibly empty) part.
pub open spec fn split_chars(s: Seq<char>, d: char) -> Seq<Seq<char>>
    decreases s.len(),
    via split_chars_dec
{
    let i = first_idx(s, d);
    if i >= s.len() {
        seq![s]
    } else {
        seq![s.take(i)] + split_chars(s.skip(i + 1), d)
    }
}

#[via_fn]
proof fn split_chars_dec(s: Seq<char>, d: char) {
    lemma_first_idx_bounds(s, d);
}

/// The parts of resolved annotation text: split on the configured
/// delimiter, the whole text as a single part when none is configured.
pub open spec fn split_parts(s: Seq<char>, delim: Option<char>) -> Seq<Seq<char>> {
    match delim {
        None => seq![s],
        Some(d) => split_chars(s, d),
    }
}

pub proof fn lemma_split_chars_nonempty(s: Seq<char>, d: char)
    ensures
        split_chars(s, d).len() >= 1,
    decreases s.len(),
{
    lemma_first_idx_bounds(s, d);
    let i = first_idx(s, d);
    if i < s.len() {
        lemma_split_chars_nonempty(s.skip(i + 1), d);
    }
}

/// When `d` does not occur, the whole text is the single part.
proof fn lemma_split_chars_absent(s: Seq<char>, d: char)
    requires
        forall|i: int| 0 <= i < s.len() ==> s[i] != d,
    ensures
        split_chars(s, d) == seq![s],
    decreases s.len(),
{
    lemma_first_idx_bounds(s, d);
    if first_idx(s, d) < s.len() {
        assert(s[first_idx(s, d)] == d);
    }
}

/// When the first occurrence of `d` is at `k`, splitting takes the
/// prefix and recurses past the delimiter.
proof fn lemma_split_chars_found(s: Seq<char>, d: char, k: int)
    requires
        0 <= k < s.len(),
        s[k] == d,
        forall|i: int| 0 <= i < k ==> s[i] != d,
    ensures
        split_chars(s, d) == seq![s.take(k)] + split_chars(s.skip(k + 1), d),
    decreases s.len(),
{
    lemma_first_idx_bounds(s, d);
    let i = first_idx(s, d);
    if i < k {
        assert(s[i] == d);
        assert(false);
    }
    if k < i {
        assert(s[k] != d);
        assert(false);
    }
}

/// Split `text` on the delimiter, if one is configured.
pub fn split_on(text: &Vec<char>, delim: Option<char>) -> (r: Vec<Vec<char>>)
    ensures
        parts_chars(r@) == split_parts(text@, delim),
        r@.len() >= 1,
{
    let d: char;
    match delim {
        None => {
            let mut whole: Vec<Vec<char>> = Vec::new();
            let copy = copy_chars(text);
            whole.push(copy);
            proof {
                assert(parts_chars(whole@) =~= seq![text@]);
            }
            return whole;
        },
        Some(dd) => {
            d = dd;
        },
    }
    let ghost s = text@;
    let mut done: Vec<Vec<char>> = Vec::new();
    let mut cur: Vec<char> = Vec::new();
    let mut p: usize = 0;
    let mut k: usize = 0;
    proof {
        assert(s.skip(0int) =~= s);
        assert(parts_chars(done@) =~= Seq::<Seq<char>>::empty());
        assert(Seq::<Seq<char>>::empty() + split_chars(s, d) =~= split_chars(s, d));
        assert(cur@ =~= s.subrange(0int, 0int));
    }
    while k < text.len()
        invariant
            0 <= p <= k <= text.len(),
            s == text@,
            cur@ == s.subrange(p as int, k as int),
            forall|i: int| p <= i < k ==> s[i] != d,
            split_chars(s, d) == parts_chars(done@) + split_chars(s.skip(p as int), d),
        decreases text.len() - k,
    {
        let c = text[k];
        if c == d {
            proof {
                let rem = s.skip(p as int);
                assert forall|i: int| 0 <= i < (k - p as int) implies rem[i] != d by {
                    assert(rem[i] == s[p + i]);
                }
                assert(rem[k - p as int] == s[k as int]);
                lemma_split_chars_found(rem, d, k - p as int);
                assert(rem.take(k - p as int) =~= s.subrange(p as int, k as int));
                assert(rem.skip(k - p as int + 1) =~= s.skip(k + 1int));
                assert(parts_chars(done@.push(cur)) =~= parts_chars(done@) + seq![cur@]);
                assert(parts_chars(done@) + (seq![cur@] + split_chars(s.skip(k + 1int), d)) =~= (
                parts_chars(done@) + seq![cur@]) + split_chars(s.skip(k + 1int), d));
            }
            done.push(cur);
            cur = Vec::new();
            p = k + 1;
            k = k + 1;
            proof {
                assert(cur@ =~= s.subrange(p as int, k as int));
            }
        } else {
            cur.push(c);
            k = k + 1;
            proof {
                assert(cur@ =~= s.subrange(p as int, k as int));
            }
        }
    }
    proof {
        let rem = s.skip(p as int);
        assert forall|i: int| 0 <= i < rem.len() implies rem[i] != d by {
            assert(rem[i] == s[p + i]);
        }
        lemma_split_chars_absent(rem, d);
        assert(rem =~= s.subrange(p as int, s.len() as int));
        assert(cur@ =~= rem);
        assert(parts_chars(done@.push(cur)) =~= parts_chars(done@) + seq![cur@]);
    }
    done.push(cur);
    done
}

/// View of a vector of char vectors.
pub open spec fn parts_chars(ps: Seq<Vec<char>>) -> Seq<Seq<char>> {
    ps.map_values(|v: Vec<char>| v@)
}

/// Copy a character vector.
pub fn copy_chars(v: &Vec<char>) -> (r: Vec<char>)
    ensures
        r@ == v@,
{
    let mut r: Vec<char> = Vec::new();
    let mut i: usize = 0;
    while i < v.len()
        invariant
            0 <= i <= v.len(),
            r@ == v@.take(i as int),
        decreases v.len() - i,
    {
        r.push(v[i]);
        proof {
            assert(v@.take(i + 1int) =~= v@.take(i as int).push(v@[i as int]));
        }
        i = i + 1;
    }
    proof {
        assert(v@.take(v@.len() as int) =~= v@);
    }
    r
}

/// Character-for-character equality of two vectors.
pub fn chars_eq(a: &Vec<char>, b: &Vec<char>) -> (r: bool)
    ensures
        r == (a@ == b@),
{
    if a.len() != b.len() {
        proof {
            assert(a@.len() != b@.len());
        }
        return false;
    }
    let mut i: usize = 0;
    while i < a.len()
        invariant
            0 <= i <= a.len(),
            a@.len() == b@.len(),
            forall|j: int| 0 <= j < i ==> a@[j] == b@[j],
        decreases a.len() - i,
    {
        if a[i] != b[i] {
            return false;
        }
        i = i + 1;
    }
    proof {
        assert(a@ =~= b@);
    }
    true
}

} // verus!

verus! {

/// The tone-marked syllable for a character, as the transliteration
/// table gives it; `None` where the table has no entry.
pub fn pinyin_syllable(c: char) -> (r: Option<Vec<char>>)
    ensures
        r is Some <==> pinyin_of(c) is Some,
        r is Some ==> r->Some_0@ == pinyin_of(c)->Some_0,
{
    pinyin_with_tone(c)
}

/// The romaji reading of a string of kana. Standalone halfwidth sound
/// marks are refused: the conversion does not return on them.
pub fn romaji_reading(s: &Vec<char>) -> (r: Option<Vec<char>>)
    ensures
        r is Some <==> (forall|i: int| 0 <= i < s@.len() ==> !romaji_excluded(#[trigger] s@[i])),
        r is Some ==> r->Some_0@ == romaji_of(s@),
{
    let mut i: usize = 0;
    while i < s.len()
        invariant
            0 <= i <= s.len(),
            forall|j: int| 0 <= j < i ==> !romaji_excluded(#[trigger] s@[j]),
        decreases s.len() - i,
    {
        let c = s[i];
        if c == '\u{ff9e}' || c == '\u{ff9f}' {
            return None;
        }
        i = i + 1;
    }
    Some(romaji_chars(s))
}

} // verus!
