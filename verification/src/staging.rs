//! The staging area (index): the pending path-to-hash mapping slated for the
//! next commit. It stores hashes only, never blob bytes, and is persisted as
//! one file whose absence means an empty staging area.

use vstd::bytes::lemma_auto_spec_u64_to_from_le_bytes;
use vstd::prelude::*;

use crate::assoc::{assoc_map, distinct_keys, lemma_assoc_map_contains, lemma_assoc_map_index,
    lemma_assoc_map_push, lemma_assoc_map_update};
use crate::codec::{enc_i64, enc_string, enc_u64, encode_i64, encode_string, encode_u64,
    lemma_enc_chars_len, lemma_parse_i64_embed, lemma_parse_string_embed, lemma_parse_u64_embed,
    lemma_subrange_at, p_i64, p_string, p_u64, parse_i64, parse_string, parse_u64};
use crate::errors::CogitError;
use crate::hashing::{hash_bytes, sha256_hex_of};
use crate::text::str_eq;

verus! {

/// One staged path: where it is, what its content hashed to when it was
/// added, how large it was, and when it was staged.
#[derive(Debug)]
pub struct StagingEntry {
    pub file_path: String,
    pub content_hash: String,
    pub file_size: u64,
    pub staged_at: i64,
}

/// The mathematical image of a staging entry.
pub struct StagingEntryV {
    pub file_path: Seq<char>,
    pub content_hash: Seq<char>,
    pub file_size: u64,
    pub staged_at: i64,
}

impl View for StagingEntry {
    type V = StagingEntryV;

    open spec fn view(&self) -> StagingEntryV {
        StagingEntryV {
            file_path: self.file_path@,
            content_hash: self.content_hash@,
            file_size: self.file_size,
            staged_at: self.staged_at,
        }
    }
}

impl DeepView for StagingEntry {
    type V = StagingEntryV;

    open spec fn deep_view(&self) -> StagingEntryV {
        self@
    }
}

/// The staging area: entries keyed uniquely by path, and the time of the
/// last change.
#[derive(Debug)]
pub struct StagingArea {
    entries: Vec<StagingEntry>,
    pub last_updated: i64,
}

/// A list of staging entries as an association list keyed by path.
pub open spec fn entries_assoc(s: Seq<StagingEntryV>) -> Seq<(Seq<char>, StagingEntryV)> {
    s.map_values(|e: StagingEntryV| (e.file_path, e))
}

impl StagingArea {
    /// The entries, oldest insertion first.
    pub closed spec fn entries_seq(&self) -> Seq<StagingEntryV> {
        self.entries.deep_view()
    }

    /// The map from path to staging entry that the entries denote.
    pub closed spec fn as_map(&self) -> Map<Seq<char>, StagingEntryV> {
        assoc_map(entries_assoc(self.entries_seq()))
    }

    /// The time of the last change, for contracts.
    pub closed spec fn stamp(&self) -> i64 {
        self.last_updated
    }

    /// Each path keys at most one entry.
    pub closed spec fn wf(&self) -> bool {
        distinct_keys(entries_assoc(self.entries_seq()))
    }

    /// An empty staging area, stamped with the given time.
    pub fn empty(now: i64) -> (r: StagingArea)
        ensures
            r.wf(),
            r.entries_seq() == Seq::<StagingEntryV>::empty(),
            r.as_map() == Map::<Seq<char>, StagingEntryV>::empty(),
            r.stamp() == now,
    {
        let r = StagingArea { entries: Vec::new(), last_updated: now };
        proof {
            assert(r.entries_seq() =~= Seq::<StagingEntryV>::empty());
            assert(entries_assoc(r.entries_seq()) =~= Seq::<(Seq<char>, StagingEntryV)>::empty());
        }
        r
    }

    /// How many paths are staged.
    pub fn len(&self) -> (n: usize)
        ensures
            n == self.entries_seq().len(),
    {
        self.entries.len()
    }

    /// Whether nothing is staged.
    pub fn is_empty(&self) -> (r: bool)
        ensures
            r == (self.entries_seq().len() == 0),
    {
        self.entries.len() == 0
    }

    /// The entries, for rendering; oldest insertion first.
    pub fn entries(&self) -> (r: &Vec<StagingEntry>)
        ensures
            r.deep_view() == self.entries_seq(),
    {
        &self.entries
    }

    /// The position of the entry for `path`, if one is staged.
    fn find_index(&self, path: &str) -> (r: Option<usize>)
        requires
            self.wf(),
        ensures
            match r {
                Some(i) => {
                    &&& i < self.entries_seq().len()
                    &&& self.entries_seq()[i as int].file_path == path@
                    &&& self.as_map().contains_key(path@)
                    &&& self.as_map()[path@] == self.entries_seq()[i as int]
                },
                None => !self.as_map().contains_key(path@),
            },
    {
        let n = self.entries.len();
        let ghost s = entries_assoc(self.entries_seq());
        for i in 0..n
            invariant
                n == self.entries@.len(),
                s == entries_assoc(self.entries_seq()),
                self.wf(),
                forall|j: int| 0 <= j < i ==> (#[trigger] s[j]).0 != path@,
        {
            assert(s[i as int] == (self.entries@[i as int]@.file_path, self.entries@[i as int]@));
            if str_eq(self.entries[i].file_path.as_str(), path) {
                proof {
                    lemma_assoc_map_index(s, i as int);
                }
                return Some(i);
            }
        }
        proof {
            lemma_assoc_map_contains(s, path@);
        }
        None
    }

    /// The entry staged for `path`, if any.
    pub fn lookup(&self, path: &str) -> (r: Option<&StagingEntry>)
        requires
            self.wf(),
        ensures
            match r {
                Some(e) => self.as_map().contains_key(path@) && e@ == self.as_map()[path@],
                None => !self.as_map().contains_key(path@),
            },
    {
        match self.find_index(path) {
            Some(i) => Some(&self.entries[i]),
            None => None,
        }
    }

    /// Stages `path` with the hash and size of `content`, overwriting any
    /// earlier entry for the same path, and stamps the area with `now`.
    pub fn add(&mut self, path: &str, content: &Vec<u8>, now: i64)
        requires
            old(self).wf(),
        ensures
            final(self).wf(),
            final(self).stamp() == now,
            final(self).as_map() == old(self).as_map().insert(
                path@,
                StagingEntryV {
                    file_path: path@,
                    content_hash: sha256_hex_of(content@),
                    file_size: content@.len() as u64,
                    staged_at: now,
                },
            ),
    {
        let content_hash = hash_bytes(content.as_slice());
        let entry = StagingEntry {
            file_path: path.to_owned(),
            content_hash,
            file_size: content.len() as u64,
            staged_at: now,
        };
        let ghost ev = entry@;
        let ghost s = entries_assoc(self.entries_seq());
        match self.find_index(path) {
            Some(i) => {
                self.entries[i] = entry;
                self.last_updated = now;
                proof {
                    assert(entries_assoc(self.entries_seq()) =~= s.update(i as int, (path@, ev)));
                    lemma_assoc_map_update(s, i as int, ev);
                }
            },
            None => {
                self.entries.push(entry);
                self.last_updated = now;
                proof {
                    assert(entries_assoc(self.entries_seq()) =~= s.push((path@, ev)));
                    lemma_assoc_map_push(s, path@, ev);
                    lemma_assoc_map_contains(s, path@);
                    assert(distinct_keys(s.push((path@, ev))));
                }
            },
        }
    }

    /// Assembles a staging area from loaded entries; fails with
    /// `SerializationError` when some path occurs twice.
    pub fn from_entries(entries: Vec<StagingEntry>, last_updated: i64) -> (r: Result<
        StagingArea,
        CogitError,
    >)
        ensures
            r is Ok <==> distinct_keys(entries_assoc(entries.deep_view())),
            match r {
                Ok(a) => {
                    &&& a.wf()
                    &&& a.entries_seq() == entries.deep_view()
                    &&& a.stamp() == last_updated
                },
                Err(e) => e == CogitError::SerializationError,
            },
    {
        let ghost s = entries_assoc(entries.deep_view());
        let n = entries.len();
        for i in 0..n
            invariant
                n == entries@.len(),
                s == entries_assoc(entries.deep_view()),
                forall|p: int, q: int| 0 <= p < q < i ==> (#[trigger] s[p]).0 != (#[trigger] s[q]).0,
        {
            for j in 0..i
                invariant
                    i < n == entries@.len(),
                    s == entries_assoc(entries.deep_view()),
                    forall|q: int| 0 <= q < j ==> (#[trigger] s[q]).0 != s[i as int].0,
            {
                assert(s[j as int] == (entries@[j as int]@.file_path, entries@[j as int]@));
                assert(s[i as int] == (entries@[i as int]@.file_path, entries@[i as int]@));
                if str_eq(entries[j].file_path.as_str(), entries[i].file_path.as_str()) {
                    return Err(CogitError::SerializationError);
                }
            }
        }
        Ok(StagingArea { entries, last_updated })
    }

    /// Resets the staging area to empty; a commit calls this after consuming
    /// the staged paths.
    pub fn clear(&mut self, now: i64)
        ensures
            final(self).wf(),
            final(self).entries_seq() == Seq::<StagingEntryV>::empty(),
            final(self).as_map() == Map::<Seq<char>, StagingEntryV>::empty(),
            final(self).stamp() == now,
    {
        self.entries.clear();
        self.last_updated = now;
        proof {
            assert(self.entries_seq() =~= Seq::<StagingEntryV>::empty());
            assert(entries_assoc(self.entries_seq()) =~= Seq::<(Seq<char>, StagingEntryV)>::empty());
        }
    }
}

// ---------------------------------------------------------------------------
// Persisted encoding
// ---------------------------------------------------------------------------
/// Whether a staging entry fits the persisted format.
pub open spec fn sentry_fits(e: StagingEntryV) -> bool {
    e.file_path.len() <= u64::MAX && e.content_hash.len() <= u64::MAX
}

/// One serialized staging entry: path, hash, size, staging time.
pub open spec fn enc_sentry(e: StagingEntryV) -> Seq<u8> {
    enc_string(e.file_path) + enc_string(e.content_hash) + enc_u64(e.file_size) + enc_i64(
        e.staged_at,
    )
}

/// A run of serialized staging entries.
pub open spec fn enc_sentries(s: Seq<StagingEntryV>) -> Seq<u8>
    decreases s.len(),
{
    if s.len() == 0 {
        Seq::empty()
    } else {
        enc_sentry(s[0]) + enc_sentries(s.skip(1))
    }
}

/// The serialized staging area: a format version byte, the stamp, the entry
/// count, the entries.
pub open spec fn enc_staging(s: Seq<StagingEntryV>, last_updated: i64) -> Seq<u8> {
    seq![1u8] + enc_i64(last_updated) + enc_u64(s.len() as u64) + enc_sentries(s)
}

/// Reads one staging entry.
pub open spec fn p_sentry(b: Seq<u8>, pos: int) -> Option<(StagingEntryV, int)> {
    match p_string(b, pos) {
        None => None,
        Some((file_path, p1)) => match p_string(b, p1) {
            None => None,
            Some((content_hash, p2)) => match p_u64(b, p2) {
                None => None,
                Some((file_size, p3)) => match p_i64(b, p3) {
                    None => None,
                    Some((staged_at, p4)) => Some(
                        (StagingEntryV { file_path, content_hash, file_size, staged_at }, p4),
                    ),
                },
            },
        },
    }
}

/// Reads `n` staging entries.
pub open spec fn p_sentries(b: Seq<u8>, pos: int, n: nat) -> Option<(Seq<StagingEntryV>, int)>
    decreases n,
{
    if n == 0 {
        Some((Seq::empty(), pos))
    } else {
        match p_sentry(b, pos) {
            None => None,
            Some((e, p1)) => match p_sentries(b, p1, (n - 1) as nat) {
                None => None,
                Some((rest, p2)) => Some((seq![e] + rest, p2)),
            },
        }
    }
}

/// Decodes a staging area; the whole buffer must be consumed.
#[verifier::opaque]
pub open spec fn dec_staging(b: Seq<u8>) -> Option<(Seq<StagingEntryV>, i64)> {
    if b.len() < 1 || b[0] != 1u8 {
        None
    } else {
        match p_i64(b, 1) {
            None => None,
            Some((last_updated, p1)) => match p_u64(b, p1) {
                None => None,
                Some((n, p2)) => match p_sentries(b, p2, n as nat) {
                    None => None,
                    Some((s, p3)) => if p3 == b.len() {
                        Some((s, last_updated))
                    } else {
                        None
                    },
                },
            },
        }
    }
}

/// A run of serialized staging entries embedded at `pos` parses back to
/// itself.
proof fn lemma_parse_sentries_embed(b: Seq<u8>, pos: int, s: Seq<StagingEntryV>)
    requires
        0 <= pos,
        pos + enc_sentries(s).len() <= b.len(),
        b.subrange(pos, pos + enc_sentries(s).len()) == enc_sentries(s),
        forall|i: int| 0 <= i < s.len() ==> sentry_fits(#[trigger] s[i]),
    ensures
        p_sentries(b, pos, s.len()) == Some((s, pos + enc_sentries(s).len())),
    decreases s.len(),
{
    lemma_auto_spec_u64_to_from_le_bytes();
    if s.len() > 0 {
        let e = s[0];
        let rest = s.skip(1);
        lemma_enc_chars_len(e.file_path);
        lemma_enc_chars_len(e.content_hash);
        let whole = enc_sentries(s);
        let l1 = 8 + 4 * e.file_path.len() as int;
        let l2 = 8 + 4 * e.content_hash.len() as int;
        assert(whole == enc_sentry(e) + enc_sentries(rest));
        assert(whole.subrange(0, l1) =~= enc_string(e.file_path));
        assert(whole.subrange(l1, l1 + l2) =~= enc_string(e.content_hash));
        assert(whole.subrange(l1 + l2, l1 + l2 + 8) =~= enc_u64(e.file_size));
        assert(whole.subrange(l1 + l2 + 8, l1 + l2 + 16) =~= enc_i64(e.staged_at));
        assert(whole.subrange(l1 + l2 + 16, whole.len() as int) =~= enc_sentries(rest));
        lemma_subrange_at(b, pos, whole, 0, l1);
        lemma_subrange_at(b, pos, whole, l1, l2);
        lemma_subrange_at(b, pos, whole, l1 + l2, 8);
        lemma_subrange_at(b, pos, whole, l1 + l2 + 8, 8);
        lemma_subrange_at(b, pos, whole, l1 + l2 + 16, enc_sentries(rest).len() as int);
        lemma_parse_string_embed(b, pos, e.file_path);
        lemma_parse_string_embed(b, pos + l1, e.content_hash);
        lemma_parse_u64_embed(b, pos + l1 + l2, e.file_size);
        lemma_parse_i64_embed(b, pos + l1 + l2 + 8, e.staged_at);
        assert(p_sentry(b, pos) == Some((e, pos + l1 + l2 + 16)));
        assert(forall|i: int| 0 <= i < rest.len() ==> sentry_fits(#[trigger] rest[i]));
        lemma_parse_sentries_embed(b, pos + l1 + l2 + 16, rest);
        assert(seq![e] + rest =~= s);
    }
}

/// Decoding a staging area inverts encoding it.
pub proof fn lemma_staging_round_trip(s: Seq<StagingEntryV>, last_updated: i64)
    requires
        s.len() <= u64::MAX,
        forall|i: int| 0 <= i < s.len() ==> sentry_fits(#[trigger] s[i]),
    ensures
        dec_staging(enc_staging(s, last_updated)) == Some((s, last_updated)),
{
    reveal(dec_staging);
    lemma_auto_spec_u64_to_from_le_bytes();
    let b = enc_staging(s, last_updated);
    assert(b[0] == 1u8);
    assert(b.subrange(1, 9) =~= enc_i64(last_updated));
    lemma_parse_i64_embed(b, 1, last_updated);
    assert(b.subrange(9, 17) =~= enc_u64(s.len() as u64));
    lemma_parse_u64_embed(b, 9, s.len() as u64);
    assert(b.subrange(17, 17 + enc_sentries(s).len() as int) =~= enc_sentries(s));
    lemma_parse_sentries_embed(b, 17, s);
}

/// Appending one entry extends the run by that entry's bytes.
proof fn lemma_enc_sentries_push(s: Seq<StagingEntryV>, e: StagingEntryV)
    ensures
        enc_sentries(s.push(e)) == enc_sentries(s) + enc_sentry(e),
    decreases s.len(),
{
    if s.len() == 0 {
        assert(s.push(e)[0] == e);
        assert(s.push(e).skip(1) =~= s);
        assert(enc_sentries(s.push(e)) == enc_sentry(e) + enc_sentries(s));
        assert(enc_sentry(e) + enc_sentries(s) =~= enc_sentries(s) + enc_sentry(e));
    } else {
        assert(s.push(e)[0] == s[0]);
        assert(s.push(e).skip(1) =~= s.skip(1).push(e));
        lemma_enc_sentries_push(s.skip(1), e);
        assert(enc_sentries(s.push(e)) =~= enc_sentries(s) + enc_sentry(e));
    }
}

/// Serializes a staging area.
pub fn encode_staging(area: &StagingArea) -> (r: Vec<u8>)
    ensures
        r@ == enc_staging(area.entries_seq(), area.stamp()),
{
    let mut out: Vec<u8> = Vec::new();
    out.push(1u8);
    encode_i64(&mut out, area.last_updated);
    let items = area.entries();
    encode_u64(&mut out, items.len() as u64);
    let ghost mid = out@;
    let ghost dv = area.entries_seq();
    let n = items.len();
    for i in 0..n
        invariant
            n == items@.len(),
            dv == items.deep_view(),
            dv == area.entries_seq(),
            out@ == mid + enc_sentries(dv.subrange(0, i as int)),
        decreases n - i,
    {
        let e = &items[i];
        encode_string(&mut out, e.file_path.as_str());
        encode_string(&mut out, e.content_hash.as_str());
        encode_u64(&mut out, e.file_size);
        encode_i64(&mut out, e.staged_at);
        proof {
            assert(dv.subrange(0, i + 1) =~= dv.subrange(0, i as int).push(dv[i as int]));
            lemma_enc_sentries_push(dv.subrange(0, i as int), dv[i as int]);
            assert(dv[i as int] == items@[i as int]@);
            assert(out@ =~= mid + enc_sentries(dv.subrange(0, i + 1)));
        }
    }
    proof {
        assert(dv.subrange(0, n as int) =~= dv);
        assert(out@ =~= enc_staging(area.entries_seq(), area.last_updated));
    }
    out
}

/// Deserializes a staging area; `None` on malformed bytes.
pub fn parse_staging(b: &Vec<u8>) -> (r: Option<(Vec<StagingEntry>, i64)>)
    ensures
        match r {
            Some((entries, last_updated)) => dec_staging(b@) == Some(
                (entries.deep_view(), last_updated),
            ),
            None => dec_staging(b@) is None,
        },
{
    proof {
        reveal(dec_staging);
    }
    if b.len() < 1 {
        return None;
    }
    if b[0] != 1u8 {
        return None;
    }
    let (last_updated, p0) = match parse_i64(b, 1) {
        None => {
            return None;
        },
        Some(x) => x,
    };
    let (n, start) = match parse_u64(b, p0) {
        None => {
            return None;
        },
        Some(x) => x,
    };
    let mut entries: Vec<StagingEntry> = Vec::new();
    let mut pos: usize = start;
    let mut remaining: u64 = n;
    loop
        invariant
            remaining <= n,
            b@.len() >= 1 && b@[0] == 1u8,
            p_i64(b@, 1) == Some((last_updated, p0 as int)),
            p_u64(b@, p0 as int) == Some((n, start as int)),
            entries.deep_view().len() == n - remaining,
            (match p_sentries(b@, pos as int, remaining as nat) {
                Some((rest, p2)) => p_sentries(b@, start as int, n as nat) == Some(
                    (entries.deep_view() + rest, p2),
                ),
                None => p_sentries(b@, start as int, n as nat) is None,
            }),
        ensures
            b@.len() >= 1 && b@[0] == 1u8,
            p_i64(b@, 1) == Some((last_updated, p0 as int)),
            p_u64(b@, p0 as int) == Some((n, start as int)),
            p_sentries(b@, start as int, n as nat) == Some((entries.deep_view(), pos as int)),
        decreases remaining,
    {
        if remaining == 0 {
            proof {
                assert(entries.deep_view() + Seq::<StagingEntryV>::empty() =~= entries.deep_view());
            }
            break;
        }
        let (file_path, p1) = match parse_string(b, pos) {
            None => {
                proof {
                    reveal(dec_staging);
                }
                return None;
            },
            Some(x) => x,
        };
        let (content_hash, p2) = match parse_string(b, p1) {
            None => {
                proof {
                    reveal(dec_staging);
                }
                return None;
            },
            Some(x) => x,
        };
        let (file_size, p3) = match parse_u64(b, p2) {
            None => {
                proof {
                    reveal(dec_staging);
                }
                return None;
            },
            Some(x) => x,
        };
        let (staged_at, p4) = match parse_i64(b, p3) {
            None => {
                proof {
                    reveal(dec_staging);
                }
                return None;
            },
            Some(x) => x,
        };
        let ghost old_entries = entries.deep_view();
        let ghost e = StagingEntryV {
            file_path: file_path@,
            content_hash: content_hash@,
            file_size,
            staged_at,
        };
        entries.push(StagingEntry { file_path, content_hash, file_size, staged_at });
        proof {
            assert(entries.deep_view() =~= old_entries.push(e));
            assert(p_sentry(b@, pos as int) == Some((e, p4 as int)));
            if p_sentries(b@, p4 as int, (remaining - 1) as nat) is Some {
                let (rest, pe) = p_sentries(b@, p4 as int, (remaining - 1) as nat)->0;
                assert(p_sentries(b@, pos as int, remaining as nat) == Some((seq![e] + rest, pe)));
                assert(old_entries + (seq![e] + rest) =~= entries.deep_view() + rest);
            } else {
                assert(p_sentries(b@, pos as int, remaining as nat) is None);
            }
        }
        pos = p4;
        remaining = remaining - 1;
    }
    if pos == b.len() {
        Some((entries, last_updated))
    } else {
        proof {
            reveal(dec_staging);
        }
        None
    }
}

} // verus!
