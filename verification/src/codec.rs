//! Explicit, versioned binary encoding primitives.
//!
//! Commits, trees and the staging area are persisted through a small
//! hand-written format: little-endian integers, length-prefixed character
//! sequences, one-byte booleans and tagged options. Each decoder is proved
//! to invert the matching encoder.

use vstd::bytes::{lemma_auto_spec_u32_to_from_le_bytes, lemma_auto_spec_u64_to_from_le_bytes,
    spec_u32_from_le_bytes, spec_u32_to_le_bytes, spec_u64_from_le_bytes, spec_u64_to_le_bytes,
    u32_from_le_bytes, u32_to_le_bytes, u64_from_le_bytes, u64_to_le_bytes};
use vstd::prelude::*;
use vstd::slice::slice_subrange;
use vstd::string::StrSliceExecFns;

use crate::text::{char_from_u32, chars_to_string};

verus! {

// ---------------------------------------------------------------------------
// Spec-level encoders
// ---------------------------------------------------------------------------
/// A 64-bit value as eight little-endian bytes.
pub open spec fn enc_u64(x: u64) -> Seq<u8> {
    spec_u64_to_le_bytes(x)
}

/// A signed 64-bit value mapped onto its two's-complement unsigned image.
pub open spec fn i64_to_u64(x: i64) -> u64 {
    if x >= 0 {
        x as u64
    } else {
        (x + 0x1_0000_0000_0000_0000) as u64
    }
}

/// The inverse of `i64_to_u64`.
pub open spec fn u64_to_i64(u: u64) -> i64 {
    if u < 0x8000_0000_0000_0000 {
        u as i64
    } else {
        (u - 0x1_0000_0000_0000_0000) as i64
    }
}

/// The two mappings between signed and unsigned images invert each other.
pub proof fn lemma_i64_u64_round(x: i64)
    ensures
        u64_to_i64(i64_to_u64(x)) == x,
{
}

/// A signed 64-bit value as eight little-endian bytes of its unsigned image.
pub open spec fn enc_i64(x: i64) -> Seq<u8> {
    enc_u64(i64_to_u64(x))
}

/// A character as its code point in four little-endian bytes.
pub open spec fn enc_char(c: char) -> Seq<u8> {
    spec_u32_to_le_bytes(c as u32)
}

/// A character sequence, four bytes per character.
pub open spec fn enc_chars(s: Seq<char>) -> Seq<u8>
    decreases s.len(),
{
    if s.len() == 0 {
        Seq::empty()
    } else {
        enc_char(s[0]) + enc_chars(s.skip(1))
    }
}

/// A string: its length, then its characters.
pub open spec fn enc_string(s: Seq<char>) -> Seq<u8> {
    enc_u64(s.len() as u64) + enc_chars(s)
}

/// A boolean as one byte, zero or one.
pub open spec fn enc_bool(b: bool) -> Seq<u8> {
    seq![if b { 1u8 } else { 0u8 }]
}

/// An optional string: a presence tag, then the string when present.
pub open spec fn enc_opt_string(o: Option<Seq<char>>) -> Seq<u8> {
    match o {
        None => seq![0u8],
        Some(s) => seq![1u8] + enc_string(s),
    }
}

// ---------------------------------------------------------------------------
// Spec-level parsers
// ---------------------------------------------------------------------------
/// Reads a 64-bit value; yields the value and the next position.
pub open spec fn p_u64(b: Seq<u8>, pos: int) -> Option<(u64, int)> {
    if 0 <= pos && pos + 8 <= b.len() {
        Some((spec_u64_from_le_bytes(b.subrange(pos, pos + 8)), pos + 8))
    } else {
        None
    }
}

/// Reads a signed 64-bit value; yields the value and the next position.
pub open spec fn p_i64(b: Seq<u8>, pos: int) -> Option<(i64, int)> {
    match p_u64(b, pos) {
        None => None,
        Some((u, p)) => Some((u64_to_i64(u), p)),
    }
}

/// Whether the four bytes at `p` carry a Unicode scalar value.
pub open spec fn char_ok(b: Seq<u8>, p: int) -> bool {
    &&& 0 <= p
    &&& p + 4 <= b.len()
    &&& vstd::utf8::is_scalar(spec_u32_from_le_bytes(b.subrange(p, p + 4)))
}

/// The character carried by the four bytes at `p`.
pub open spec fn char_at(b: Seq<u8>, p: int) -> char {
    spec_u32_from_le_bytes(b.subrange(p, p + 4)) as char
}

/// Whether character number `i` of a run starting at `pos` is well formed.
pub open spec fn char_ok_idx(b: Seq<u8>, pos: int, i: int) -> bool {
    char_ok(b, pos + 4 * i)
}

/// Reads `count` characters of four bytes each.
pub open spec fn p_chars(b: Seq<u8>, pos: int, count: nat) -> Option<(Seq<char>, int)> {
    if 0 <= pos && pos + 4 * count <= b.len() && (forall|i: int|
        0 <= i < count ==> #[trigger] char_ok_idx(b, pos, i)) {
        Some((Seq::new(count, |i: int| char_at(b, pos + 4 * i)), pos + 4 * count))
    } else {
        None
    }
}

/// Reads a length-prefixed string.
pub open spec fn p_string(b: Seq<u8>, pos: int) -> Option<(Seq<char>, int)> {
    match p_u64(b, pos) {
        None => None,
        Some((n, p1)) => p_chars(b, p1, n as nat),
    }
}

/// Reads a one-byte boolean; only zero and one are accepted.
pub open spec fn p_bool(b: Seq<u8>, pos: int) -> Option<(bool, int)> {
    if 0 <= pos && pos + 1 <= b.len() && (b[pos] == 0u8 || b[pos] == 1u8) {
        Some((b[pos] == 1u8, pos + 1))
    } else {
        None
    }
}

/// Reads a tagged optional string.
pub open spec fn p_opt_string(b: Seq<u8>, pos: int) -> Option<(Option<Seq<char>>, int)> {
    if 0 <= pos && pos + 1 <= b.len() {
        if b[pos] == 0u8 {
            Some((None, pos + 1))
        } else if b[pos] == 1u8 {
            match p_string(b, pos + 1) {
                None => None,
                Some((s, p1)) => Some((Some(s), p1)),
            }
        } else {
            None
        }
    } else {
        None
    }
}

// ---------------------------------------------------------------------------
// Length and indexing lemmas for encoders
// ---------------------------------------------------------------------------
/// A character run encodes to four bytes per character.
pub proof fn lemma_enc_chars_len(s: Seq<char>)
    ensures
        enc_chars(s).len() == 4 * s.len(),
    decreases s.len(),
{
    lemma_auto_spec_u32_to_from_le_bytes();
    if s.len() > 0 {
        lemma_enc_chars_len(s.skip(1));
    }
}

/// Character number `i` occupies bytes `4i .. 4i + 4` of the run.
pub proof fn lemma_enc_chars_index(s: Seq<char>, i: int)
    requires
        0 <= i < s.len(),
    ensures
        enc_chars(s).subrange(4 * i, 4 * i + 4) == enc_char(s[i]),
    decreases s.len(),
{
    lemma_auto_spec_u32_to_from_le_bytes();
    lemma_enc_chars_len(s);
    lemma_enc_chars_len(s.skip(1));
    if i == 0 {
        assert(enc_chars(s).subrange(0, 4) =~= enc_char(s[0]));
    } else {
        lemma_enc_chars_index(s.skip(1), i - 1);
        assert(enc_chars(s).subrange(4 * i, 4 * i + 4) =~= enc_chars(s.skip(1)).subrange(
            4 * (i - 1),
            4 * (i - 1) + 4,
        ));
        assert(s.skip(1)[i - 1] == s[i]);
    }
}

/// Appending one character extends the run by that character's bytes.
pub proof fn lemma_enc_chars_push(s: Seq<char>, c: char)
    ensures
        enc_chars(s.push(c)) == enc_chars(s) + enc_char(c),
    decreases s.len(),
{
    if s.len() == 0 {
        assert(s.push(c)[0] == c);
        assert(s.push(c).skip(1) =~= s);
        assert(enc_chars(s.push(c)) == enc_char(c) + enc_chars(s));
        assert(enc_char(c) + enc_chars(s) =~= enc_chars(s) + enc_char(c));
    } else {
        assert(s.push(c)[0] == s[0]);
        assert(s.push(c).skip(1) =~= s.skip(1).push(c));
        lemma_enc_chars_push(s.skip(1), c);
        assert(enc_chars(s.push(c)) =~= enc_chars(s) + enc_char(c));
    }
}

/// A subrange of an embedded piece equals the matching subrange of the piece.
pub proof fn lemma_subrange_at<T>(b: Seq<T>, pos: int, whole: Seq<T>, off: int, len: int)
    requires
        0 <= pos,
        pos + whole.len() <= b.len(),
        b.subrange(pos, pos + whole.len()) == whole,
        0 <= off,
        0 <= len,
        off + len <= whole.len(),
    ensures
        b.subrange(pos + off, pos + off + len) == whole.subrange(off, off + len),
{
    assert forall|k: int|
        #![trigger whole.subrange(off, off + len)[k]]
        0 <= k < len implies b.subrange(pos + off, pos + off + len)[k] == whole.subrange(
        off,
        off + len,
    )[k] by {
        assert(b.subrange(pos + off, pos + off + len)[k] == b[pos + off + k]);
        assert(whole.subrange(off, off + len)[k] == whole[off + k]);
        assert(b.subrange(pos, pos + whole.len())[off + k] == b[pos + (off + k)]);
    }
    assert(b.subrange(pos + off, pos + off + len) =~= whole.subrange(off, off + len));
}

// ---------------------------------------------------------------------------
// Embedding lemmas: a parser finds an encoder's output inside a larger buffer
// ---------------------------------------------------------------------------
/// A 64-bit value embedded at `pos` parses back to itself.
pub proof fn lemma_parse_u64_embed(b: Seq<u8>, pos: int, x: u64)
    requires
        0 <= pos,
        pos + 8 <= b.len(),
        b.subrange(pos, pos + 8) == enc_u64(x),
    ensures
        p_u64(b, pos) == Some((x, pos + 8)),
{
    lemma_auto_spec_u64_to_from_le_bytes();
}

/// A signed 64-bit value embedded at `pos` parses back to itself.
pub proof fn lemma_parse_i64_embed(b: Seq<u8>, pos: int, x: i64)
    requires
        0 <= pos,
        pos + 8 <= b.len(),
        b.subrange(pos, pos + 8) == enc_i64(x),
    ensures
        p_i64(b, pos) == Some((x, pos + 8)),
{
    lemma_parse_u64_embed(b, pos, i64_to_u64(x));
    lemma_i64_u64_round(x);
}

/// A character run embedded at `pos` parses back to itself.
pub proof fn lemma_parse_chars_embed(b: Seq<u8>, pos: int, s: Seq<char>)
    requires
        0 <= pos,
        pos + 4 * s.len() <= b.len(),
        b.subrange(pos, pos + 4 * s.len()) == enc_chars(s),
    ensures
        p_chars(b, pos, s.len()) == Some((s, pos + 4 * s.len())),
{
    lemma_auto_spec_u32_to_from_le_bytes();
    lemma_enc_chars_len(s);
    let whole = b.subrange(pos, pos + 4 * s.len());
    assert forall|i: int| 0 <= i < s.len() implies #[trigger] char_ok_idx(b, pos, i) && char_at(
        b,
        pos + 4 * i,
    ) == s[i] by {
        lemma_enc_chars_index(s, i);
        let piece = b.subrange(pos + 4 * i, pos + 4 * i + 4);
        assert forall|k: int| 0 <= k < 4 implies piece[k] == whole.subrange(4 * i, 4 * i + 4)[k] by {
            assert(piece[k] == b[pos + 4 * i + k]);
            assert(whole.subrange(4 * i, 4 * i + 4)[k] == whole[4 * i + k]);
            assert(whole[4 * i + k] == b[pos + (4 * i + k)]);
        }
        assert(piece =~= whole.subrange(4 * i, 4 * i + 4));
        assert(spec_u32_from_le_bytes(piece) == s[i] as u32);
        vstd::utf8::char_is_scalar(s[i]);
        vstd::utf8::char_u32_cast(s[i], spec_u32_from_le_bytes(piece));
    }
    let parsed = Seq::new(s.len(), |j: int| char_at(b, pos + 4 * j));
    assert forall|j: int| 0 <= j < s.len() implies parsed[j] == s[j] by {
        assert(char_ok_idx(b, pos, j));
    }
    assert(parsed =~= s);
}

/// A string embedded at `pos` parses back to itself.
pub proof fn lemma_parse_string_embed(b: Seq<u8>, pos: int, s: Seq<char>)
    requires
        0 <= pos,
        s.len() <= u64::MAX,
        pos + 8 + 4 * s.len() <= b.len(),
        b.subrange(pos, pos + 8 + 4 * s.len()) == enc_string(s),
    ensures
        p_string(b, pos) == Some((s, pos + 8 + 4 * s.len())),
{
    lemma_auto_spec_u64_to_from_le_bytes();
    lemma_enc_chars_len(s);
    assert(b.subrange(pos, pos + 8) =~= b.subrange(pos, pos + 8 + 4 * s.len()).subrange(0, 8));
    assert(b.subrange(pos, pos + 8) =~= enc_u64(s.len() as u64));
    lemma_parse_u64_embed(b, pos, s.len() as u64);
    assert(b.subrange(pos + 8, pos + 8 + 4 * s.len()) =~= b.subrange(pos, pos + 8 + 4 * s.len())
        .subrange(8, 8 + 4 * s.len() as int));
    assert(b.subrange(pos + 8, pos + 8 + 4 * s.len()) =~= enc_chars(s));
    lemma_parse_chars_embed(b, pos + 8, s);
}

/// A boolean embedded at `pos` parses back to itself.
pub proof fn lemma_parse_bool_embed(b: Seq<u8>, pos: int, v: bool)
    requires
        0 <= pos,
        pos + 1 <= b.len(),
        b.subrange(pos, pos + 1) == enc_bool(v),
    ensures
        p_bool(b, pos) == Some((v, pos + 1)),
{
    assert(b[pos] == enc_bool(v)[0]);
}

/// An optional string embedded at `pos` parses back to itself.
pub proof fn lemma_parse_opt_string_embed(b: Seq<u8>, pos: int, o: Option<Seq<char>>)
    requires
        0 <= pos,
        pos + enc_opt_string(o).len() <= b.len(),
        (match o {
            None => true,
            Some(s) => s.len() <= u64::MAX,
        }),
        b.subrange(pos, pos + enc_opt_string(o).len()) == enc_opt_string(o),
    ensures
        p_opt_string(b, pos) == Some((o, pos + enc_opt_string(o).len())),
{
    lemma_auto_spec_u64_to_from_le_bytes();
    match o {
        None => {
            assert(b.subrange(pos, pos + enc_opt_string(o).len())[0] == 0u8);
            assert(b[pos] == 0u8);
        },
        Some(s) => {
            lemma_enc_chars_len(s);
            assert(b.subrange(pos, pos + enc_opt_string(o).len())[0] == 1u8);
            assert(b[pos] == 1u8);
            assert(b.subrange(pos + 1, pos + 1 + 8 + 4 * s.len()) =~= b.subrange(
                pos,
                pos + enc_opt_string(o).len(),
            ).subrange(1, 1 + 8 + 4 * s.len() as int));
            assert(b.subrange(pos + 1, pos + 1 + 8 + 4 * s.len()) =~= enc_string(s));
            lemma_parse_string_embed(b, pos + 1, s);
        },
    }
}

// ---------------------------------------------------------------------------
// Executable encoders
// ---------------------------------------------------------------------------
/// Appends the encoding of a 64-bit value.
pub fn encode_u64(out: &mut Vec<u8>, x: u64)
    ensures
        final(out)@ == old(out)@ + enc_u64(x),
{
    let mut piece = u64_to_le_bytes(x);
    out.append(&mut piece);
}

/// Appends the encoding of a signed 64-bit value.
pub fn encode_i64(out: &mut Vec<u8>, x: i64)
    ensures
        final(out)@ == old(out)@ + enc_i64(x),
{
    let image: u64 = if x >= 0 {
        x as u64
    } else {
        ((x as i128) + 0x1_0000_0000_0000_0000i128) as u64
    };
    encode_u64(out, image);
}

/// Appends the encoding of a string.
pub fn encode_string(out: &mut Vec<u8>, s: &str)
    ensures
        final(out)@ == old(out)@ + enc_string(s@),
        s@.len() <= u64::MAX,
{
    let n = s.unicode_len();
    encode_u64(out, n as u64);
    let ghost mid = out@;
    for i in 0..n
        invariant
            n == s@.len(),
            out@ == mid + enc_chars(s@.subrange(0, i as int)),
        decreases n - i,
    {
        let c = s.get_char(i);
        let mut piece = u32_to_le_bytes(c as u32);
        out.append(&mut piece);
        proof {
            assert(s@.subrange(0, i + 1) =~= s@.subrange(0, i as int).push(s@[i as int]));
            lemma_enc_chars_push(s@.subrange(0, i as int), s@[i as int]);
            assert(out@ =~= mid + enc_chars(s@.subrange(0, i + 1)));
        }
    }
    proof {
        assert(s@.subrange(0, n as int) =~= s@);
        assert(out@ =~= old(out)@ + enc_string(s@));
    }
}

/// Appends the encoding of a boolean.
pub fn encode_bool(out: &mut Vec<u8>, v: bool)
    ensures
        final(out)@ == old(out)@ + enc_bool(v),
{
    if v {
        out.push(1u8);
    } else {
        out.push(0u8);
    }
    proof {
        assert(out@ =~= old(out)@ + enc_bool(v));
    }
}

/// Appends the encoding of an optional string.
pub fn encode_opt_string(out: &mut Vec<u8>, o: &Option<String>)
    ensures
        final(out)@ == old(out)@ + enc_opt_string(
            match o {
                Option::None => Option::None,
                Option::Some(s) => Option::Some(s@),
            },
        ),
        match o {
            Option::None => true,
            Option::Some(s) => s@.len() <= u64::MAX,
        },
{
    match o {
        None => {
            out.push(0u8);
            proof {
                assert(out@ =~= old(out)@ + enc_opt_string(Option::None));
            }
        },
        Some(s) => {
            out.push(1u8);
            encode_string(out, s.as_str());
            proof {
                assert(old(out)@.push(1u8) + enc_string(s@) =~= old(out)@ + enc_opt_string(
                    Option::Some(s@),
                ));
            }
        },
    }
}

// ---------------------------------------------------------------------------
// Executable parsers
// ---------------------------------------------------------------------------
/// Reads a 64-bit value at `pos`.
pub fn parse_u64(b: &Vec<u8>, pos: usize) -> (r: Option<(u64, usize)>)
    ensures
        match r {
            Some((x, p)) => p_u64(b@, pos as int) == Some((x, p as int)),
            None => p_u64(b@, pos as int) is None,
        },
{
    if pos <= b.len() && b.len() - pos >= 8 {
        let piece = slice_subrange(b.as_slice(), pos, pos + 8);
        let x = u64_from_le_bytes(piece);
        Some((x, pos + 8))
    } else {
        None
    }
}

/// Reads a signed 64-bit value at `pos`.
pub fn parse_i64(b: &Vec<u8>, pos: usize) -> (r: Option<(i64, usize)>)
    ensures
        match r {
            Some((x, p)) => p_i64(b@, pos as int) == Some((x, p as int)),
            None => p_i64(b@, pos as int) is None,
        },
{
    match parse_u64(b, pos) {
        None => None,
        Some((u, p)) => {
            let x: i64 = if u < 0x8000_0000_0000_0000u64 {
                u as i64
            } else {
                ((u as i128) - 0x1_0000_0000_0000_0000i128) as i64
            };
            Some((x, p))
        },
    }
}

/// Reads `count` characters at `pos`.
pub fn parse_chars(b: &Vec<u8>, pos: usize, count: u64) -> (r: Option<(Vec<char>, usize)>)
    ensures
        match r {
            Some((cs, p)) => p_chars(b@, pos as int, count as nat) == Some((cs@, p as int)),
            None => p_chars(b@, pos as int, count as nat) is None,
        },
{
    let blen = b.len();
    if pos > blen || count > ((blen - pos) / 4) as u64 {
        proof {
            assert(pos + 4 * (count as nat) > b@.len());
        }
        return None;
    }
    let count_s = count as usize;
    let mut cs: Vec<char> = Vec::new();
    for i in 0..count_s
        invariant
            count_s == count as nat,
            blen == b@.len(),
            pos + 4 * count_s <= blen,
            cs@.len() == i,
            forall|j: int| 0 <= j < i ==> #[trigger] char_ok_idx(b@, pos as int, j),
            forall|j: int| 0 <= j < i ==> cs@[j] == char_at(b@, pos as int + 4 * j),
        decreases count_s - i,
    {
        let piece = slice_subrange(b.as_slice(), pos + 4 * i, pos + 4 * i + 4);
        let v = u32_from_le_bytes(piece);
        match char_from_u32(v) {
            None => {
                proof {
                    assert(!char_ok_idx(b@, pos as int, i as int));
                }
                return None;
            },
            Some(c) => {
                cs.push(c);
                proof {
                    vstd::utf8::char_u32_cast(c, v);
                    assert(char_ok_idx(b@, pos as int, i as int));
                    assert(cs@[i as int] == char_at(b@, pos as int + 4 * i));
                }
            },
        }
    }
    proof {
        assert(cs@ =~= Seq::new(count as nat, |i: int| char_at(b@, pos as int + 4 * i)));
    }
    Some((cs, pos + 4 * count_s))
}

/// Reads a length-prefixed string at `pos`.
pub fn parse_string(b: &Vec<u8>, pos: usize) -> (r: Option<(String, usize)>)
    ensures
        match r {
            Some((s, p)) => p_string(b@, pos as int) == Some((s@, p as int)),
            None => p_string(b@, pos as int) is None,
        },
{
    match parse_u64(b, pos) {
        None => None,
        Some((n, p1)) => match parse_chars(b, p1, n) {
            None => None,
            Some((cs, p2)) => Some((chars_to_string(&cs), p2)),
        },
    }
}

/// Reads a one-byte boolean at `pos`.
pub fn parse_bool(b: &Vec<u8>, pos: usize) -> (r: Option<(bool, usize)>)
    ensures
        match r {
            Some((v, p)) => p_bool(b@, pos as int) == Some((v, p as int)),
            None => p_bool(b@, pos as int) is None,
        },
{
    if pos < b.len() {
        let t = b[pos];
        if t == 0 {
            Some((false, pos + 1))
        } else if t == 1 {
            Some((true, pos + 1))
        } else {
            None
        }
    } else {
        None
    }
}

/// Reads a tagged optional string at `pos`.
pub fn parse_opt_string(b: &Vec<u8>, pos: usize) -> (r: Option<(Option<String>, usize)>)
    ensures
        match r {
            Some((o, p)) => p_opt_string(b@, pos as int) == Some(
                (
                    match o {
                        Option::None => Option::None,
                        Option::Some(s) => Option::Some(s@),
                    },
                    p as int,
                ),
            ),
            None => p_opt_string(b@, pos as int) is None,
        },
{
    if pos < b.len() {
        let t = b[pos];
        if t == 0 {
            Some((None, pos + 1))
        } else if t == 1 {
            match parse_string(b, pos + 1) {
                None => None,
                Some((s, p1)) => Some((Some(s), p1)),
            }
        } else {
            None
        }
    } else {
        None
    }
}

} // verus!
