//! The commit chain: commit and tree records, their persisted encodings,
//! and the repository that ties them to the object store.

use vstd::bytes::lemma_auto_spec_u64_to_from_le_bytes;
use vstd::prelude::*;

use crate::codec::{enc_bool, enc_chars, enc_i64, enc_opt_string, enc_string, enc_u64,
    encode_bool, encode_i64, encode_opt_string, encode_string, encode_u64, lemma_enc_chars_len,
    lemma_parse_bool_embed, lemma_parse_i64_embed, lemma_parse_opt_string_embed,
    lemma_parse_string_embed, lemma_parse_u64_embed, lemma_subrange_at, p_bool, p_i64,
    p_opt_string, p_string, p_u64, parse_bool, parse_i64, parse_opt_string, parse_string,
    parse_u64};
use crate::errors::CogitError;
use crate::hashing::{hash_bytes, is_hex_digit, sha256_hex_of};
use crate::objects::{clone_bytes, extends, lemma_extends_trans, spec_store, ObjectStore};
use crate::text::{append_decimal, spec_decimal};
use vstd::string::{StrSliceExecFns, StringExecFns};

verus! {

/// One commit: an immutable record linking a tree snapshot to an optional
/// parent commit. The hash is the digest of the serialized payload
/// (message, timestamp, parent, tree hash), which does not include itself.
#[derive(Debug)]
pub struct Commit {
    pub hash: String,
    pub message: String,
    pub timestamp: i64,
    pub parent: Option<String>,
    pub tree_hash: String,
}

/// The mathematical image of a commit.
pub struct CommitV {
    pub hash: Seq<char>,
    pub message: Seq<char>,
    pub timestamp: i64,
    pub parent: Option<Seq<char>>,
    pub tree_hash: Seq<char>,
}

impl View for Commit {
    type V = CommitV;

    open spec fn view(&self) -> CommitV {
        CommitV {
            hash: self.hash@,
            message: self.message@,
            timestamp: self.timestamp,
            parent: self.parent.deep_view(),
            tree_hash: self.tree_hash@,
        }
    }
}

/// One entry of a tree snapshot: a named, hashed child of the root.
#[derive(Debug)]
pub struct TreeEntry {
    pub name: String,
    pub hash: String,
    pub is_file: bool,
}

/// The mathematical image of a tree entry.
pub struct TreeEntryV {
    pub name: Seq<char>,
    pub hash: Seq<char>,
    pub is_file: bool,
}

impl View for TreeEntry {
    type V = TreeEntryV;

    open spec fn view(&self) -> TreeEntryV {
        TreeEntryV { name: self.name@, hash: self.hash@, is_file: self.is_file }
    }
}

impl DeepView for TreeEntry {
    type V = TreeEntryV;

    open spec fn deep_view(&self) -> TreeEntryV {
        self@
    }
}

/// Whether a string fits the length prefix of the persisted format.
pub open spec fn str_fits(s: Seq<char>) -> bool {
    s.len() <= u64::MAX
}

/// Whether an optional string fits the persisted format.
pub open spec fn opt_fits(o: Option<Seq<char>>) -> bool {
    match o {
        None => true,
        Some(s) => str_fits(s),
    }
}

// ---------------------------------------------------------------------------
// Commit payload encoding
// ---------------------------------------------------------------------------
/// The serialized commit payload: a format version byte, then message,
/// timestamp, parent and tree hash. The commit's own hash is not part of it.
pub open spec fn enc_commit(
    message: Seq<char>,
    timestamp: i64,
    parent: Option<Seq<char>>,
    tree_hash: Seq<char>,
) -> Seq<u8> {
    seq![1u8] + enc_string(message) + enc_i64(timestamp) + enc_opt_string(parent) + enc_string(
        tree_hash,
    )
}

/// Decodes a commit payload; the whole buffer must be consumed.
#[verifier::opaque]
pub open spec fn dec_commit(b: Seq<u8>) -> Option<(Seq<char>, i64, Option<Seq<char>>, Seq<char>)> {
    if b.len() < 1 || b[0] != 1u8 {
        None
    } else {
        match p_string(b, 1) {
            None => None,
            Some((message, p1)) => match p_i64(b, p1) {
                None => None,
                Some((timestamp, p2)) => match p_opt_string(b, p2) {
                    None => None,
                    Some((parent, p3)) => match p_string(b, p3) {
                        None => None,
                        Some((tree_hash, p4)) => if p4 == b.len() {
                            Some((message, timestamp, parent, tree_hash))
                        } else {
                            None
                        },
                    },
                },
            },
        }
    }
}

/// Decoding a commit payload inverts encoding it.
pub proof fn lemma_commit_round_trip(
    message: Seq<char>,
    timestamp: i64,
    parent: Option<Seq<char>>,
    tree_hash: Seq<char>,
)
    requires
        str_fits(message),
        opt_fits(parent),
        str_fits(tree_hash),
    ensures
        dec_commit(enc_commit(message, timestamp, parent, tree_hash)) == Some(
            (message, timestamp, parent, tree_hash),
        ),
{
    reveal(dec_commit);
    lemma_auto_spec_u64_to_from_le_bytes();
    lemma_enc_chars_len(message);
    lemma_enc_chars_len(tree_hash);
    if parent is Some {
        lemma_enc_chars_len(parent->0);
    }
    let b = enc_commit(message, timestamp, parent, tree_hash);
    let p1 = 1 + 8 + 4 * message.len() as int;
    let p2 = p1 + 8;
    let p3 = p2 + enc_opt_string(parent).len() as int;
    let p4 = p3 + 8 + 4 * tree_hash.len() as int;
    assert(b.len() == p4);
    assert(b[0] == 1u8);
    assert(b.subrange(1, p1) =~= enc_string(message));
    lemma_parse_string_embed(b, 1, message);
    assert(b.subrange(p1, p2) =~= enc_i64(timestamp));
    lemma_parse_i64_embed(b, p1, timestamp);
    assert(b.subrange(p2, p3) =~= enc_opt_string(parent));
    lemma_parse_opt_string_embed(b, p2, parent);
    assert(b.subrange(p3, p4) =~= enc_string(tree_hash));
    lemma_parse_string_embed(b, p3, tree_hash);
}

/// Serializes a commit's payload.
pub fn encode_commit(c: &Commit) -> (r: Vec<u8>)
    ensures
        r@ == enc_commit(c.message@, c.timestamp, c.parent.deep_view(), c.tree_hash@),
        str_fits(c.message@),
        str_fits(c.tree_hash@),
        opt_fits(c.parent.deep_view()),
{
    let mut out: Vec<u8> = Vec::new();
    out.push(1u8);
    encode_string(&mut out, c.message.as_str());
    encode_i64(&mut out, c.timestamp);
    encode_opt_string(&mut out, &c.parent);
    encode_string(&mut out, c.tree_hash.as_str());
    proof {
        assert(out@ =~= enc_commit(c.message@, c.timestamp, c.parent.deep_view(), c.tree_hash@));
    }
    out
}

/// Deserializes a commit payload into message, timestamp, parent and tree
/// hash; `None` on malformed bytes.
pub fn parse_commit(b: &Vec<u8>) -> (r: Option<(String, i64, Option<String>, String)>)
    ensures
        match r {
            Some((message, timestamp, parent, tree_hash)) => dec_commit(b@) == Some(
                (message@, timestamp, parent.deep_view(), tree_hash@),
            ),
            None => dec_commit(b@) is None,
        },
{
    proof {
        reveal(dec_commit);
    }
    if b.len() < 1 {
        return None;
    }
    if b[0] != 1u8 {
        return None;
    }
    match parse_string(b, 1) {
        None => None,
        Some((message, p1)) => match parse_i64(b, p1) {
            None => None,
            Some((timestamp, p2)) => match parse_opt_string(b, p2) {
                None => None,
                Some((parent, p3)) => match parse_string(b, p3) {
                    None => None,
                    Some((tree_hash, p4)) => {
                        if p4 == b.len() {
                            Some((message, timestamp, parent, tree_hash))
                        } else {
                            None
                        }
                    },
                },
            },
        },
    }
}

// ---------------------------------------------------------------------------
// Tree encoding
// ---------------------------------------------------------------------------
/// Whether a tree entry fits the persisted format.
pub open spec fn entry_fits(e: TreeEntryV) -> bool {
    str_fits(e.name) && str_fits(e.hash)
}

/// One serialized tree entry: name, hash, file flag.
pub open spec fn enc_entry(e: TreeEntryV) -> Seq<u8> {
    enc_string(e.name) + enc_string(e.hash) + enc_bool(e.is_file)
}

/// A run of serialized tree entries.
pub open spec fn enc_entries(s: Seq<TreeEntryV>) -> Seq<u8>
    decreases s.len(),
{
    if s.len() == 0 {
        Seq::empty()
    } else {
        enc_entry(s[0]) + enc_entries(s.skip(1))
    }
}

/// The serialized tree: a format version byte, the entry count, the entries.
pub open spec fn enc_tree(s: Seq<TreeEntryV>) -> Seq<u8> {
    seq![1u8] + enc_u64(s.len() as u64) + enc_entries(s)
}

/// Reads one tree entry.
pub open spec fn p_entry(b: Seq<u8>, pos: int) -> Option<(TreeEntryV, int)> {
    match p_string(b, pos) {
        None => None,
        Some((name, p1)) => match p_string(b, p1) {
            None => None,
            Some((hash, p2)) => match p_bool(b, p2) {
                None => None,
                Some((is_file, p3)) => Some((TreeEntryV { name, hash, is_file }, p3)),
            },
        },
    }
}

/// Reads `n` tree entries.
pub open spec fn p_entries(b: Seq<u8>, pos: int, n: nat) -> Option<(Seq<TreeEntryV>, int)>
    decreases n,
{
    if n == 0 {
        Some((Seq::empty(), pos))
    } else {
        match p_entry(b, pos) {
            None => None,
            Some((e, p1)) => match p_entries(b, p1, (n - 1) as nat) {
                None => None,
                Some((rest, p2)) => Some((seq![e] + rest, p2)),
            },
        }
    }
}

/// Decodes a tree; the whole buffer must be consumed.
#[verifier::opaque]
pub open spec fn dec_tree(b: Seq<u8>) -> Option<Seq<TreeEntryV>> {
    if b.len() < 1 || b[0] != 1u8 {
        None
    } else {
        match p_u64(b, 1) {
            None => None,
            Some((n, p1)) => match p_entries(b, p1, n as nat) {
                None => None,
                Some((s, p2)) => if p2 == b.len() {
                    Some(s)
                } else {
                    None
                },
            },
        }
    }
}

/// The byte length of one serialized tree entry.
pub proof fn lemma_enc_entry_len(e: TreeEntryV)
    ensures
        enc_entry(e).len() == 17 + 4 * e.name.len() + 4 * e.hash.len(),
{
    lemma_auto_spec_u64_to_from_le_bytes();
    lemma_enc_chars_len(e.name);
    lemma_enc_chars_len(e.hash);
}

/// A run of serialized entries embedded at `pos` parses back to itself.
pub proof fn lemma_parse_entries_embed(b: Seq<u8>, pos: int, s: Seq<TreeEntryV>)
    requires
        0 <= pos,
        pos + enc_entries(s).len() <= b.len(),
        b.subrange(pos, pos + enc_entries(s).len()) == enc_entries(s),
        forall|i: int| 0 <= i < s.len() ==> entry_fits(#[trigger] s[i]),
    ensures
        p_entries(b, pos, s.len()) == Some((s, pos + enc_entries(s).len())),
    decreases s.len(),
{
    lemma_auto_spec_u64_to_from_le_bytes();
    if s.len() > 0 {
        let e = s[0];
        let rest = s.skip(1);
        lemma_enc_entry_len(e);
        lemma_enc_chars_len(e.name);
        lemma_enc_chars_len(e.hash);
        let whole = enc_entries(s);
        let l1 = 8 + 4 * e.name.len() as int;
        let l2 = 8 + 4 * e.hash.len() as int;
        assert(whole == enc_entry(e) + enc_entries(rest));
        assert(whole.subrange(0, l1) =~= enc_string(e.name));
        assert(whole.subrange(l1, l1 + l2) =~= enc_string(e.hash));
        assert(whole.subrange(l1 + l2, l1 + l2 + 1) =~= enc_bool(e.is_file));
        assert(whole.subrange(l1 + l2 + 1, whole.len() as int) =~= enc_entries(rest));
        lemma_subrange_at(b, pos, whole, 0, l1);
        lemma_subrange_at(b, pos, whole, l1, l2);
        lemma_subrange_at(b, pos, whole, l1 + l2, 1);
        lemma_subrange_at(b, pos, whole, l1 + l2 + 1, enc_entries(rest).len() as int);
        assert(b.subrange(pos, pos + l1) =~= enc_string(e.name));
        lemma_parse_string_embed(b, pos, e.name);
        assert(b.subrange(pos + l1, pos + l1 + l2) =~= enc_string(e.hash));
        lemma_parse_string_embed(b, pos + l1, e.hash);
        assert(b.subrange(pos + l1 + l2, pos + l1 + l2 + 1) =~= enc_bool(e.is_file));
        lemma_parse_bool_embed(b, pos + l1 + l2, e.is_file);
        assert(p_entry(b, pos) == Some((e, pos + l1 + l2 + 1)));
        assert(forall|i: int| 0 <= i < rest.len() ==> entry_fits(#[trigger] rest[i]));
        assert(b.subrange(pos + l1 + l2 + 1, pos + l1 + l2 + 1 + enc_entries(rest).len())
            =~= enc_entries(rest));
        lemma_parse_entries_embed(b, pos + l1 + l2 + 1, rest);
        assert(seq![e] + rest =~= s);
    }
}

/// Decoding a tree inverts encoding it.
pub proof fn lemma_tree_round_trip(s: Seq<TreeEntryV>)
    requires
        s.len() <= u64::MAX,
        forall|i: int| 0 <= i < s.len() ==> entry_fits(#[trigger] s[i]),
    ensures
        dec_tree(enc_tree(s)) == Some(s),
{
    reveal(dec_tree);
    lemma_auto_spec_u64_to_from_le_bytes();
    let b = enc_tree(s);
    assert(b[0] == 1u8);
    assert(b.subrange(1, 9) =~= enc_u64(s.len() as u64));
    lemma_parse_u64_embed(b, 1, s.len() as u64);
    assert(b.subrange(9, 9 + enc_entries(s).len() as int) =~= enc_entries(s));
    lemma_parse_entries_embed(b, 9, s);
}

/// Appending one entry extends the run by that entry's bytes.
pub proof fn lemma_enc_entries_push(s: Seq<TreeEntryV>, e: TreeEntryV)
    ensures
        enc_entries(s.push(e)) == enc_entries(s) + enc_entry(e),
    decreases s.len(),
{
    if s.len() == 0 {
        assert(s.push(e)[0] == e);
        assert(s.push(e).skip(1) =~= s);
        assert(enc_entries(s.push(e)) == enc_entry(e) + enc_entries(s));
        assert(enc_entry(e) + enc_entries(s) =~= enc_entries(s) + enc_entry(e));
    } else {
        assert(s.push(e)[0] == s[0]);
        assert(s.push(e).skip(1) =~= s.skip(1).push(e));
        lemma_enc_entries_push(s.skip(1), e);
        assert(enc_entries(s.push(e)) =~= enc_entries(s) + enc_entry(e));
    }
}

/// Serializes a tree.
pub fn encode_tree(entries: &Vec<TreeEntry>) -> (r: Vec<u8>)
    ensures
        r@ == enc_tree(entries.deep_view()),
{
    let mut out: Vec<u8> = Vec::new();
    out.push(1u8);
    encode_u64(&mut out, entries.len() as u64);
    let ghost mid = out@;
    let n = entries.len();
    for i in 0..n
        invariant
            n == entries@.len(),
            out@ == mid + enc_entries(entries.deep_view().subrange(0, i as int)),
        decreases n - i,
    {
        let e = &entries[i];
        encode_string(&mut out, e.name.as_str());
        encode_string(&mut out, e.hash.as_str());
        encode_bool(&mut out, e.is_file);
        proof {
            let dv = entries.deep_view();
            assert(dv.subrange(0, i + 1) =~= dv.subrange(0, i as int).push(dv[i as int]));
            lemma_enc_entries_push(dv.subrange(0, i as int), dv[i as int]);
            assert(dv[i as int] == entries@[i as int]@);
            assert(out@ =~= mid + enc_entries(dv.subrange(0, i + 1)));
        }
    }
    proof {
        let dv = entries.deep_view();
        assert(dv.subrange(0, n as int) =~= dv);
        assert(out@ =~= enc_tree(dv));
    }
    out
}

/// Deserializes a tree; `None` on malformed bytes.
pub fn parse_tree(b: &Vec<u8>) -> (r: Option<Vec<TreeEntry>>)
    ensures
        match r {
            Some(entries) => dec_tree(b@) == Some(entries.deep_view()),
            None => dec_tree(b@) is None,
        },
{
    proof {
        reveal(dec_tree);
    }
    if b.len() < 1 {
        return None;
    }
    if b[0] != 1u8 {
        return None;
    }
    let (n, start) = match parse_u64(b, 1) {
        None => {
            return None;
        },
        Some(x) => x,
    };
    let mut entries: Vec<TreeEntry> = Vec::new();
    let mut pos: usize = start;
    let mut remaining: u64 = n;
    loop
        invariant
            remaining <= n,
            b@.len() >= 1 && b@[0] == 1u8,
            p_u64(b@, 1) == Some((n, start as int)),
            entries.deep_view().len() == n - remaining,
            (match p_entries(b@, pos as int, remaining as nat) {
                Some((rest, p2)) => p_entries(b@, start as int, n as nat) == Some(
                    (entries.deep_view() + rest, p2),
                ),
                None => p_entries(b@, start as int, n as nat) is None,
            }),
        ensures
            b@.len() >= 1 && b@[0] == 1u8,
            p_u64(b@, 1) == Some((n, start as int)),
            p_entries(b@, start as int, n as nat) == Some((entries.deep_view(), pos as int)),
        decreases remaining,
    {
        if remaining == 0 {
            proof {
                assert(entries.deep_view() + Seq::<TreeEntryV>::empty() =~= entries.deep_view());
            }
            break;
        }
        let (name, p1) = match parse_string(b, pos) {
            None => {
                proof {
                    reveal(dec_tree);
                }
                return None;
            },
            Some(x) => x,
        };
        let (hash, p2) = match parse_string(b, p1) {
            None => {
                proof {
                    reveal(dec_tree);
                }
                return None;
            },
            Some(x) => x,
        };
        let (is_file, p3) = match parse_bool(b, p2) {
            None => {
                proof {
                    reveal(dec_tree);
                }
                return None;
            },
            Some(x) => x,
        };
        let ghost old_entries = entries.deep_view();
        let ghost e = TreeEntryV { name: name@, hash: hash@, is_file };
        entries.push(TreeEntry { name, hash, is_file });
        proof {
            assert(entries.deep_view() =~= old_entries.push(e));
            assert(p_entry(b@, pos as int) == Some((e, p3 as int)));
            if p_entries(b@, p3 as int, (remaining - 1) as nat) is Some {
                let (rest, pe) = p_entries(b@, p3 as int, (remaining - 1) as nat)->0;
                assert(p_entries(b@, pos as int, remaining as nat) == Some(
                    (seq![e] + rest, pe),
                ));
                assert(old_entries + (seq![e] + rest) =~= entries.deep_view() + rest);
            } else {
                assert(p_entries(b@, pos as int, remaining as nat) is None);
            }
        }
        pos = p3;
        remaining = remaining - 1;
    }
    if pos == b.len() {
        Some(entries)
    } else {
        None
    }
}

// ---------------------------------------------------------------------------
// The working tree handed to a snapshot
// ---------------------------------------------------------------------------
/// One file of the working tree, as the surrounding application reads it:
/// its name (a direct child of the repository root) and its raw bytes.
#[derive(Debug)]
pub struct WorkFile {
    pub name: String,
    pub data: Vec<u8>,
}

/// The mathematical image of a working-tree file.
pub struct WorkFileV {
    pub name: Seq<char>,
    pub data: Seq<u8>,
}

impl View for WorkFile {
    type V = WorkFileV;

    open spec fn view(&self) -> WorkFileV {
        WorkFileV { name: self.name@, data: self.data@ }
    }
}

impl DeepView for WorkFile {
    type V = WorkFileV;

    open spec fn deep_view(&self) -> WorkFileV {
        self@
    }
}

/// Names that begin with the reserved marker are hidden and never
/// snapshotted; the internal metadata directory is among them.
pub open spec fn is_hidden(name: Seq<char>) -> bool {
    name.len() > 0 && name[0] == '.'
}

/// The tree entry that snapshots one working-tree file.
pub open spec fn entry_of(f: WorkFileV) -> TreeEntryV {
    TreeEntryV { name: f.name, hash: sha256_hex_of(f.data), is_file: true }
}

/// The tree that snapshots a working tree: its visible files, in order.
pub open spec fn tree_of(fv: Seq<WorkFileV>) -> Seq<TreeEntryV>
    decreases fv.len(),
{
    if fv.len() == 0 {
        Seq::empty()
    } else {
        let rest = tree_of(fv.drop_last());
        if is_hidden(fv.last().name) {
            rest
        } else {
            rest.push(entry_of(fv.last()))
        }
    }
}

/// What storing the blobs of a working tree does to the object map, and
/// whether every store succeeded.
pub open spec fn store_blobs(m: Map<Seq<char>, Seq<u8>>, fv: Seq<WorkFileV>) -> (
    Map<Seq<char>, Seq<u8>>,
    bool,
)
    decreases fv.len(),
{
    if fv.len() == 0 {
        (m, true)
    } else {
        let r1 = store_blobs(m, fv.drop_last());
        if is_hidden(fv.last().name) {
            r1
        } else {
            let r2 = spec_store(r1.0, fv.last().data);
            (r2.0, r1.1 && r2.1)
        }
    }
}

/// What building and storing a snapshot does to the object map: blobs first,
/// then the serialized tree.
pub open spec fn spec_create_tree(m: Map<Seq<char>, Seq<u8>>, fv: Seq<WorkFileV>) -> (
    Map<Seq<char>, Seq<u8>>,
    bool,
) {
    let r1 = store_blobs(m, fv);
    let r2 = spec_store(r1.0, enc_tree(tree_of(fv)));
    (r2.0, r1.1 && r2.1)
}

/// What one commit does to the object map: the snapshot, then the commit
/// payload; also the new commit's hash and whether every store succeeded.
pub open spec fn spec_commit(
    m: Map<Seq<char>, Seq<u8>>,
    fv: Seq<WorkFileV>,
    message: Seq<char>,
    timestamp: i64,
    head: Option<Seq<char>>,
) -> (Map<Seq<char>, Seq<u8>>, Seq<char>, bool) {
    let r1 = spec_create_tree(m, fv);
    let payload = enc_commit(message, timestamp, head, sha256_hex_of(enc_tree(tree_of(fv))));
    let r2 = spec_store(r1.0, payload);
    (r2.0, sha256_hex_of(payload), r1.1 && r2.1)
}

/// Once a blob store has failed, the whole snapshot fails.
proof fn lemma_store_blobs_flag_mono(m: Map<Seq<char>, Seq<u8>>, fv: Seq<WorkFileV>, i: int)
    requires
        0 <= i <= fv.len(),
        !store_blobs(m, fv.subrange(0, i)).1,
    ensures
        !store_blobs(m, fv).1,
    decreases fv.len() - i,
{
    if i == fv.len() {
        assert(fv.subrange(0, i) =~= fv);
    } else {
        assert(fv.subrange(0, i + 1).drop_last() =~= fv.subrange(0, i));
        assert(fv.subrange(0, i + 1).last() == fv[i]);
        lemma_store_blobs_flag_mono(m, fv, i + 1);
    }
}

// ---------------------------------------------------------------------------
// The commit chain
// ---------------------------------------------------------------------------
/// The commit history `hist` (oldest first) is exactly what `objects` and
/// `head` persist: the head names the newest commit, every commit decodes
/// from its stored payload, and each parent link points to the previous
/// commit (the oldest has none).
pub open spec fn wf_chain(
    objects: Map<Seq<char>, Seq<u8>>,
    hist: Seq<CommitV>,
    head: Option<Seq<char>>,
) -> bool {
    &&& head == if hist.len() == 0 {
        Option::<Seq<char>>::None
    } else {
        Option::Some(hist.last().hash)
    }
    &&& forall|i: int|
        0 <= i < hist.len() ==> {
            let c = #[trigger] hist[i];
            &&& objects.contains_key(c.hash)
            &&& dec_commit(objects[c.hash]) == Some((c.message, c.timestamp, c.parent, c.tree_hash))
            &&& c.parent == if i == 0 {
                Option::<Seq<char>>::None
            } else {
                Option::Some(hist[i - 1].hash)
            }
        }
}

/// A chain persisted in `m1` is persisted in any map that keeps its bindings.
pub proof fn lemma_wf_chain_extends(
    m1: Map<Seq<char>, Seq<u8>>,
    m2: Map<Seq<char>, Seq<u8>>,
    hist: Seq<CommitV>,
    head: Option<Seq<char>>,
)
    requires
        wf_chain(m1, hist, head),
        extends(m2, m1),
    ensures
        wf_chain(m2, hist, head),
{
    assert forall|i: int| 0 <= i < hist.len() implies {
        let c = #[trigger] hist[i];
        &&& m2.contains_key(c.hash)
        &&& dec_commit(m2[c.hash]) == Some((c.message, c.timestamp, c.parent, c.tree_hash))
        &&& c.parent == if i == 0 {
            Option::<Seq<char>>::None
        } else {
            Option::Some(hist[i - 1].hash)
        }
    } by {
        assert(m1.contains_key(hist[i].hash));
    }
}

/// Two distinct positions of a well-formed chain carry distinct hashes.
proof fn lemma_chain_pair_distinct(
    objects: Map<Seq<char>, Seq<u8>>,
    hist: Seq<CommitV>,
    head: Option<Seq<char>>,
    i: int,
    j: int,
)
    requires
        wf_chain(objects, hist, head),
        0 <= i < j < hist.len(),
    ensures
        hist[i].hash != hist[j].hash,
    decreases i,
{
    if hist[i].hash == hist[j].hash {
        assert(dec_commit(objects[hist[i].hash]) == Some(
            (hist[i].message, hist[i].timestamp, hist[i].parent, hist[i].tree_hash),
        ));
        assert(dec_commit(objects[hist[j].hash]) == Some(
            (hist[j].message, hist[j].timestamp, hist[j].parent, hist[j].tree_hash),
        ));
        assert(hist[i].parent == hist[j].parent);
        if i == 0 {
            assert(hist[j].parent == Option::Some(hist[j - 1].hash));
            assert(false);
        } else {
            assert(hist[i - 1].hash == hist[j - 1].hash);
            lemma_chain_pair_distinct(objects, hist, head, i - 1, j - 1);
            assert(false);
        }
    }
}

/// Walking the parents from the head visits each commit exactly once: the
/// hashes along a well-formed chain are pairwise distinct, so the chain has
/// no cycles.
pub proof fn lemma_chain_hashes_distinct(
    objects: Map<Seq<char>, Seq<u8>>,
    hist: Seq<CommitV>,
    head: Option<Seq<char>>,
)
    requires
        wf_chain(objects, hist, head),
    ensures
        forall|i: int, j: int|
            0 <= i < j < hist.len() ==> (#[trigger] hist[i]).hash != (#[trigger] hist[j]).hash,
{
    assert forall|i: int, j: int| 0 <= i < j < hist.len() implies (#[trigger] hist[i]).hash != (
    #[trigger] hist[j]).hash by {
        lemma_chain_pair_distinct(objects, hist, head, i, j);
    }
}

/// A well-formed chain is no longer than the object map: every commit
/// occupies its own key.
pub proof fn lemma_chain_len_le_dom(
    objects: Map<Seq<char>, Seq<u8>>,
    hist: Seq<CommitV>,
    head: Option<Seq<char>>,
)
    requires
        wf_chain(objects, hist, head),
        objects.dom().finite(),
    ensures
        hist.len() <= objects.dom().len(),
{
    lemma_chain_hashes_distinct(objects, hist, head);
    let hs = hist.map_values(|c: CommitV| c.hash);
    assert(hs.no_duplicates()) by {
        assert(forall|i: int, j: int|
            0 <= i < j < hist.len() ==> (#[trigger] hist[i]).hash != (#[trigger] hist[j]).hash);
        assert forall|i: int, j: int| 0 <= i <= j < hs.len() && hs[i] == hs[j] implies i == j by {
            if i < j {
                assert(hist[i].hash != hist[j].hash);
            }
        }
    }
    hs.unique_seq_to_set();
    assert(hs.to_set().subset_of(objects.dom())) by {
        assert forall|x: Seq<char>| hs.to_set().contains(x) implies objects.dom().contains(x) by {
            let k = choose|k: int| 0 <= k < hs.len() && hs[k] == x;
            assert(objects.contains_key(hist[k].hash));
        }
    }
    vstd::set_lib::lemma_len_subset(hs.to_set(), objects.dom());
}

/// A commit whose payload is stored and whose parent is the current head
/// extends the chain by one.
pub proof fn lemma_wf_chain_append(
    objects: Map<Seq<char>, Seq<u8>>,
    hist: Seq<CommitV>,
    head: Option<Seq<char>>,
    c: CommitV,
)
    requires
        wf_chain(objects, hist, head),
        objects.contains_key(c.hash),
        dec_commit(objects[c.hash]) == Some((c.message, c.timestamp, c.parent, c.tree_hash)),
        c.parent == head,
    ensures
        wf_chain(objects, hist.push(c), Option::Some(c.hash)),
{
    let hist1 = hist.push(c);
    assert forall|i: int| 0 <= i < hist1.len() implies {
        let d = #[trigger] hist1[i];
        &&& objects.contains_key(d.hash)
        &&& dec_commit(objects[d.hash]) == Some((d.message, d.timestamp, d.parent, d.tree_hash))
        &&& d.parent == if i == 0 {
            Option::<Seq<char>>::None
        } else {
            Option::Some(hist1[i - 1].hash)
        }
    } by {
        if i < hist.len() {
            assert(hist1[i] == hist[i]);
        } else {
            assert(hist1[i] == c);
        }
    }
}

/// The hash of a commit whose parent is the current head never equals that
/// head: the stored payloads would have to coincide, and a chain never links
/// a commit to itself.
pub proof fn lemma_new_head_distinct(
    objects: Map<Seq<char>, Seq<u8>>,
    hist: Seq<CommitV>,
    head: Option<Seq<char>>,
    c: CommitV,
)
    requires
        wf_chain(objects, hist, head),
        objects.contains_key(c.hash),
        dec_commit(objects[c.hash]) == Some((c.message, c.timestamp, c.parent, c.tree_hash)),
        c.parent == head,
    ensures
        Option::Some(c.hash) != head,
{
    if head is Some && c.hash == head->0 {
        let hh = head->0;
        let last = hist.last();
        assert(last.hash == hh);
        assert(dec_commit(objects[hh]) == Some(
            (last.message, last.timestamp, last.parent, last.tree_hash),
        ));
        assert(last.parent == c.parent);
        if hist.len() == 1 {
            assert(last.parent == Option::<Seq<char>>::None);
            assert(false);
        } else {
            assert(hist[hist.len() - 2].hash == hh);
            lemma_chain_pair_distinct(objects, hist, head, hist.len() - 2, hist.len() - 1);
            assert(false);
        }
    }
}

/// How far the chain walk has come: any well-formed history must end with
/// the already visited suffix, and the walk's cursor must name the commit
/// just before it.
pub open spec fn chain_suffix_matches(
    hist: Seq<CommitV>,
    k: nat,
    suffix: Seq<CommitV>,
    cur: Option<Seq<char>>,
) -> bool {
    &&& hist.len() >= k
    &&& hist.subrange(hist.len() - k, hist.len() as int) == suffix
    &&& cur == if hist.len() == k {
        Option::<Seq<char>>::None
    } else {
        Option::Some(hist[hist.len() - k - 1].hash)
    }
}

/// An owned copy of an optional hash.
fn clone_opt_string(o: &Option<String>) -> (r: Option<String>)
    ensures
        r.deep_view() == o.deep_view(),
{
    match o {
        None => None,
        Some(s) => Some(s.clone()),
    }
}

// ---------------------------------------------------------------------------
// The repository
// ---------------------------------------------------------------------------
/// A repository: the content-addressed object store, the single ref that
/// names the newest commit, and, as a ghost, the commit history that the two
/// persist. The surrounding application reads the store and the ref from
/// disk and writes them back; every rule about them lives here.
pub struct CogitRepository {
    objects: ObjectStore,
    head: Option<String>,
    history: Ghost<Seq<CommitV>>,
}

impl CogitRepository {
    /// The object map: digest to stored bytes.
    pub closed spec fn store_map(&self) -> Map<Seq<char>, Seq<u8>> {
        self.objects@
    }

    /// The head commit hash; `None` for an empty repository.
    pub closed spec fn head_view(&self) -> Option<Seq<char>> {
        self.head.deep_view()
    }

    /// The commit history, oldest first.
    pub closed spec fn hist(&self) -> Seq<CommitV> {
        self.history@
    }

    /// The repository invariant: the store is well formed and the history is
    /// exactly the chain that store and head persist.
    pub closed spec fn wf(&self) -> bool {
        &&& self.objects.wf()
        &&& wf_chain(self.objects@, self.history@, self.head.deep_view())
    }

    /// A well-formed repository's store and head persist exactly its
    /// history.
    pub proof fn lemma_wf_chain_of(&self)
        requires
            self.wf(),
        ensures
            wf_chain(self.store_map(), self.hist(), self.head_view()),
    {
    }

    /// Computes the content digest of raw bytes: 64 lowercase hex digits.
    pub fn calculate_hash(content: &[u8]) -> (r: String)
        ensures
            r@ == sha256_hex_of(content@),
            r@.len() == 64,
            forall|i: int| 0 <= i < r@.len() ==> is_hex_digit(#[trigger] r@[i]),
    {
        hash_bytes(content)
    }

    /// A fresh repository with no objects and no commits.
    pub fn init() -> (r: CogitRepository)
        ensures
            r.wf(),
            r.store_map() == Map::<Seq<char>, Seq<u8>>::empty(),
            r.head_view() is None,
            r.hist() == Seq::<CommitV>::empty(),
    {
        CogitRepository { objects: ObjectStore::empty(), head: None, history: Ghost(Seq::empty()) }
    }

    /// The current head commit hash, or `None` with no commits yet.
    pub fn head(&self) -> (r: Option<String>)
        ensures
            r.deep_view() == self.head_view(),
    {
        clone_opt_string(&self.head)
    }

    /// The object store, for reading stored blobs, trees and commits.
    pub fn object_store(&self) -> (r: &ObjectStore)
        requires
            self.wf(),
        ensures
            r@ == self.store_map(),
            r.wf(),
    {
        &self.objects
    }

    /// Stores every visible working-tree file as a blob, then the serialized
    /// tree that names them; returns the tree's digest. Fails only when a
    /// digest collision is detected.
    #[verifier::rlimit(60)]
    fn create_tree(&mut self, files: &Vec<WorkFile>) -> (r: Result<String, CogitError>)
        requires
            old(self).wf(),
        ensures
            final(self).wf(),
            final(self).hist() == old(self).hist(),
            final(self).head_view() == old(self).head_view(),
            extends(final(self).store_map(), old(self).store_map()),
            r is Ok <==> spec_create_tree(old(self).store_map(), files.deep_view()).1,
            match r {
                Ok(th) => {
                    &&& th@ == sha256_hex_of(enc_tree(tree_of(files.deep_view())))
                    &&& final(self).store_map() == spec_create_tree(
                        old(self).store_map(),
                        files.deep_view(),
                    ).0
                    &&& final(self).store_map().contains_key(th@)
                    &&& final(self).store_map()[th@] == enc_tree(tree_of(files.deep_view()))
                },
                Err(e) => e == CogitError::InvalidHash,
            },
    {
        let ghost m0 = self.objects@;
        let ghost head0 = self.head;
        let ghost hist0 = self.history@;
        let ghost fv = files.deep_view();
        let n = files.len();
        let mut entries: Vec<TreeEntry> = Vec::new();
        for i in 0..n
            invariant
                n == files@.len(),
                fv == files.deep_view(),
                m0 == old(self).store_map(),
                head0 == old(self).head,
                hist0 == old(self).hist(),
                self.head == head0,
                self.history@ == hist0,
                self.objects.wf(),
                wf_chain(m0, hist0, head0.deep_view()),
                extends(self.objects@, m0),
                self.objects@ == store_blobs(m0, fv.subrange(0, i as int)).0,
                store_blobs(m0, fv.subrange(0, i as int)).1,
                entries.deep_view() == tree_of(fv.subrange(0, i as int)),
            decreases n - i,
        {
            proof {
                assert(fv.subrange(0, i + 1).drop_last() =~= fv.subrange(0, i as int));
                assert(fv.subrange(0, i + 1).last() == fv[i as int]);
            }
            let name_len = files[i].name.unicode_len();
            let hidden = name_len > 0 && files[i].name.as_str().get_char(0) == '.';
            proof {
                assert(hidden == is_hidden(fv[i as int].name));
            }
            if !hidden {
                let blob = clone_bytes(&files[i].data);
                let ghost m_pre = self.objects@;
                match self.objects.store(blob) {
                    Err(e) => {
                        proof {
                            lemma_store_blobs_flag_mono(m0, fv, i + 1);
                            lemma_wf_chain_extends(m0, self.objects@, hist0, head0.deep_view());
                        }
                        return Err(e);
                    },
                    Ok(h) => {
                        entries.push(TreeEntry { name: files[i].name.clone(), hash: h, is_file: true });
                        proof {
                            lemma_extends_trans(self.objects@, m_pre, m0);
                            assert(entries.deep_view() =~= tree_of(fv.subrange(0, i as int)).push(
                                entry_of(fv[i as int]),
                            ));
                        }
                    },
                }
            }
        }
        proof {
            assert(fv.subrange(0, n as int) =~= fv);
        }
        let tree_bytes = encode_tree(&entries);
        match self.objects.store(tree_bytes) {
            Err(e) => {
                proof {
                    lemma_wf_chain_extends(m0, self.objects@, hist0, head0.deep_view());
                }
                Err(e)
            },
            Ok(th) => {
                proof {
                    lemma_wf_chain_extends(m0, self.objects@, hist0, head0.deep_view());
                    lemma_extends_trans(self.objects@, store_blobs(m0, fv).0, m0);
                }
                Ok(th)
            },
        }
    }

    /// Builds a snapshot of the working tree, constructs a commit whose
    /// parent is the current head, stores it, and advances the ref to the new
    /// hash. The new head always differs from the prior head. Fails only
    /// when a digest collision is detected; the ref then stays unchanged.
    #[verifier::rlimit(100)]
    pub fn commit(&mut self, files: &Vec<WorkFile>, message: &str, timestamp: i64) -> (r: Result<
        String,
        CogitError,
    >)
        requires
            old(self).wf(),
        ensures
            final(self).wf(),
            extends(final(self).store_map(), old(self).store_map()),
            ({
                let sc = spec_commit(
                    old(self).store_map(),
                    files.deep_view(),
                    message@,
                    timestamp,
                    old(self).head_view(),
                );
                &&& (r is Ok <==> sc.2)
                &&& match r {
                    Ok(h) => {
                        &&& h@ == sc.1
                        &&& final(self).store_map() == sc.0
                        &&& final(self).hist() == old(self).hist().push(
                            CommitV {
                                hash: h@,
                                message: message@,
                                timestamp,
                                parent: old(self).head_view(),
                                tree_hash: sha256_hex_of(enc_tree(tree_of(files.deep_view()))),
                            },
                        )
                        &&& final(self).head_view() == Option::Some(h@)
                        &&& final(self).head_view() != old(self).head_view()
                    },
                    Err(e) => {
                        &&& e == CogitError::InvalidHash
                        &&& final(self).hist() == old(self).hist()
                        &&& final(self).head_view() == old(self).head_view()
                    },
                }
            }),
    {
        let ghost m0 = self.objects@;
        let ghost head0_view = self.head.deep_view();
        let ghost hist0 = self.history@;
        let ghost fv = files.deep_view();
        let tree_hash = match self.create_tree(files) {
            Err(e) => {
                return Err(e);
            },
            Ok(th) => th,
        };
        let parent = clone_opt_string(&self.head);
        let commit_rec = Commit {
            hash: String::new(),
            message: message.to_owned(),
            timestamp,
            parent,
            tree_hash,
        };
        let payload = encode_commit(&commit_rec);
        let ghost payload_view = payload@;
        let ghost m1 = self.objects@;
        let stored = match self.objects.store(payload) {
            Err(e) => {
                return Err(e);
            },
            Ok(h) => h,
        };
        let ghost new_commit = CommitV {
            hash: stored@,
            message: message@,
            timestamp,
            parent: head0_view,
            tree_hash: commit_rec.tree_hash@,
        };
        self.head = Some(stored.clone());
        self.history = Ghost(hist0.push(new_commit));
        proof {
            lemma_commit_round_trip(message@, timestamp, head0_view, commit_rec.tree_hash@);
            lemma_wf_chain_extends(m1, self.objects@, hist0, head0_view);
            assert(self.objects@[stored@] == payload_view);
            lemma_wf_chain_append(self.objects@, hist0, head0_view, new_commit);
            lemma_new_head_distinct(self.objects@, hist0, head0_view, new_commit);
            lemma_extends_trans(self.objects@, m1, m0);
        }
        Ok(stored)
    }

    /// The commit history, most recent first, by following parent links from
    /// the head until none remain. On a well-formed repository this never
    /// fails and visits each commit exactly once.
    pub fn log(&self) -> (r: Result<Vec<Commit>, CogitError>)
        requires
            self.wf(),
        ensures
            r is Ok,
            ({
                let commits = r->Ok_0;
                &&& commits@.len() == self.hist().len()
                &&& forall|j: int|
                    0 <= j < commits@.len() ==> (#[trigger] commits@[j])@ == self.hist()[self.hist().len()
                        - 1 - j]
                &&& forall|i: int, j: int|
                    0 <= i < j < commits@.len() ==> (#[trigger] commits@[i])@.hash != (
                    #[trigger] commits@[j])@.hash
            }),
    {
        proof {
            lemma_chain_hashes_distinct(self.store_map(), self.hist(), self.head_view());
        }
        let mut commits: Vec<Commit> = Vec::new();
        let mut current: Option<String> = clone_opt_string(&self.head);
        let ghost mut i: int = self.hist().len() as int;
        loop
            invariant
                self.wf(),
                0 <= i <= self.hist().len(),
                current.deep_view() == if i == 0 {
                    Option::<Seq<char>>::None
                } else {
                    Option::Some(self.hist()[i - 1].hash)
                },
                commits@.len() == self.hist().len() - i,
                forall|j: int|
                    0 <= j < commits@.len() ==> (#[trigger] commits@[j])@ == self.hist()[self.hist().len()
                        - 1 - j],
            ensures
                i == 0,
                commits@.len() == self.hist().len(),
                forall|j: int|
                    0 <= j < commits@.len() ==> (#[trigger] commits@[j])@ == self.hist()[self.hist().len()
                        - 1 - j],
            decreases i,
        {
            if current.is_none() {
                break;
            }
            let h = current.unwrap();
            let ghost c = self.hist()[i - 1];
            proof {
                assert(h@ == c.hash);
                assert(self.store_map().contains_key(c.hash));
            }
            let bytes = match self.objects.load(&h) {
                Err(_) => {
                    proof {
                        assert(false);
                    }
                    return Err(CogitError::InvalidHash);
                },
                Ok(b) => b,
            };
            let (message, timestamp, parent, tree_hash) = match parse_commit(&bytes) {
                None => {
                    proof {
                        assert(false);
                    }
                    return Err(CogitError::SerializationError);
                },
                Some(parts) => parts,
            };
            let next = clone_opt_string(&parent);
            commits.push(Commit { hash: h, message, timestamp, parent, tree_hash });
            proof {
                assert(commits@.last()@ == c);
                i = i - 1;
                assert(next.deep_view() == c.parent);
            }
            current = next;
        }
        Ok(commits)
    }

    /// A one-line summary of the repository: how many commits it holds.
    pub fn status(&self) -> (r: Result<String, CogitError>)
        requires
            self.wf(),
        ensures
            r is Ok,
            (r->Ok_0)@ == status_message(self.hist().len()),
    {
        let commits = match self.log() {
            Err(_) => {
                proof {
                    assert(false);
                }
                return Err(CogitError::InvalidHash);
            },
            Ok(c) => c,
        };
        let count = commits.len();
        let mut out = String::new();
        proof {
            reveal_strlit("Repositório COGIT com ");
            reveal_strlit(" commit(s)");
        }
        out.append("Repositório COGIT com ");
        append_decimal(&mut out, count as u64);
        out.append(" commit(s)");
        Ok(out)
    }

    /// Opens a repository from its loaded pieces: the object store read from
    /// disk and the head hash read from the ref. Walks the chain from the
    /// head and fails — with `InvalidHash` for a missing or cyclic reference
    /// and `SerializationError` for an undecodable payload — exactly when no
    /// well-formed history explains them.
    #[verifier::rlimit(60)]
    pub fn open(objects: ObjectStore, head_ref: Option<String>) -> (r: Result<
        CogitRepository,
        CogitError,
    >)
        requires
            objects.wf(),
        ensures
            match r {
                Ok(repo) => {
                    &&& repo.wf()
                    &&& repo.store_map() == objects@
                    &&& repo.head_view() == head_ref.deep_view()
                    &&& forall|hist: Seq<CommitV>| #[trigger]
                        wf_chain(objects@, hist, head_ref.deep_view()) ==> hist == repo.hist()
                },
                Err(e) => {
                    &&& (e == CogitError::InvalidHash || e == CogitError::SerializationError)
                    &&& forall|hist: Seq<CommitV>| !#[trigger] wf_chain(
                        objects@,
                        hist,
                        head_ref.deep_view(),
                    )
                },
            },
    {
        let n = objects.count();
        let ghost head0 = head_ref.deep_view();
        let mut current: Option<String> = clone_opt_string(&head_ref);
        let ghost mut suffix: Seq<CommitV> = Seq::empty();
        let mut steps: usize = 0;
        proof {
            objects.lemma_count_is_dom_len();
            assert forall|hist: Seq<CommitV>| #[trigger] wf_chain(objects@, hist, head0) implies
                chain_suffix_matches(hist, 0, Seq::empty(), head0) by {
                assert(hist.subrange(hist.len() as int, hist.len() as int) =~= Seq::<
                    CommitV,
                >::empty());
            }
        }
        loop
            invariant
                objects.wf(),
                n == objects.object_count(),
                objects@.dom().finite(),
                objects@.dom().len() == n,
                head0 == head_ref.deep_view(),
                steps == suffix.len(),
                steps <= n,
                forall|j: int|
                    0 <= j < suffix.len() ==> {
                        let c = #[trigger] suffix[j];
                        &&& objects@.contains_key(c.hash)
                        &&& dec_commit(objects@[c.hash]) == Some(
                            (c.message, c.timestamp, c.parent, c.tree_hash),
                        )
                        &&& j > 0 ==> c.parent == Option::Some(suffix[j - 1].hash)
                    },
                head0 == if suffix.len() == 0 {
                    current.deep_view()
                } else {
                    Option::Some(suffix.last().hash)
                },
                suffix.len() > 0 ==> suffix[0].parent == current.deep_view(),
                forall|hist: Seq<CommitV>| #[trigger]
                    wf_chain(objects@, hist, head0) ==> chain_suffix_matches(
                        hist,
                        steps as nat,
                        suffix,
                        current.deep_view(),
                    ),
            ensures
                current.deep_view() is None,
            decreases n - steps,
        {
            if current.is_none() {
                break;
            }
            let h = current.unwrap();
            if steps >= n {
                proof {
                    assert forall|hist: Seq<CommitV>| !#[trigger] wf_chain(
                        objects@,
                        hist,
                        head0,
                    ) by {
                        if wf_chain(objects@, hist, head0) {
                            assert(chain_suffix_matches(hist, steps as nat, suffix, Option::Some(h@)));
                            assert(hist.len() > steps);
                            lemma_chain_len_le_dom(objects@, hist, head0);
                            assert(false);
                        }
                    }
                }
                return Err(CogitError::InvalidHash);
            }
            let bytes = match objects.load(&h) {
                Err(_) => {
                    proof {
                        assert forall|hist: Seq<CommitV>| !#[trigger] wf_chain(
                            objects@,
                            hist,
                            head0,
                        ) by {
                            if wf_chain(objects@, hist, head0) {
                                assert(chain_suffix_matches(
                                    hist,
                                    steps as nat,
                                    suffix,
                                    Option::Some(h@),
                                ));
                                let idx = hist.len() - steps - 1;
                                assert(objects@.contains_key(hist[idx].hash));
                                assert(false);
                            }
                        }
                    }
                    return Err(CogitError::InvalidHash);
                },
                Ok(b) => b,
            };
            let parts = match parse_commit(&bytes) {
                None => {
                    proof {
                        assert forall|hist: Seq<CommitV>| !#[trigger] wf_chain(
                            objects@,
                            hist,
                            head0,
                        ) by {
                            if wf_chain(objects@, hist, head0) {
                                assert(chain_suffix_matches(
                                    hist,
                                    steps as nat,
                                    suffix,
                                    Option::Some(h@),
                                ));
                                let idx = hist.len() - steps - 1;
                                assert(dec_commit(objects@[hist[idx].hash]) is Some);
                                assert(false);
                            }
                        }
                    }
                    return Err(CogitError::SerializationError);
                },
                Some(parts) => parts,
            };
            let (_message, _timestamp, parent, _tree_hash) = parts;
            let ghost visited = CommitV {
                hash: h@,
                message: _message@,
                timestamp: _timestamp,
                parent: parent.deep_view(),
                tree_hash: _tree_hash@,
            };
            proof {
                let old_suffix = suffix;
                suffix = seq![visited] + suffix;
                assert(suffix.len() == old_suffix.len() + 1);
                assert(suffix[0] == visited);
                assert(forall|j: int| 1 <= j < suffix.len() ==> suffix[j] == old_suffix[j - 1]);
                assert(suffix.last() == if old_suffix.len() == 0 {
                    visited
                } else {
                    old_suffix.last()
                });
                assert forall|hist: Seq<CommitV>| #[trigger]
                    wf_chain(objects@, hist, head0) implies chain_suffix_matches(
                    hist,
                    (steps + 1) as nat,
                    suffix,
                    parent.deep_view(),
                ) by {
                    assert(chain_suffix_matches(hist, steps as nat, old_suffix, Option::Some(h@)));
                    let idx = hist.len() - steps - 1;
                    assert(hist[idx].hash == h@);
                    assert(dec_commit(objects@[hist[idx].hash]) == Some(
                        (hist[idx].message, hist[idx].timestamp, hist[idx].parent, hist[idx].tree_hash),
                    ));
                    assert(hist[idx] == visited);
                    assert(hist.subrange(idx, hist.len() as int) =~= suffix);
                    assert(hist[idx].parent == if idx == 0 {
                        Option::<Seq<char>>::None
                    } else {
                        Option::Some(hist[idx - 1].hash)
                    });
                }
            }
            current = parent;
            steps = steps + 1;
        }
        let repo = CogitRepository { objects, head: head_ref, history: Ghost(suffix) };
        proof {
            assert(wf_chain(repo.objects@, suffix, head0));
            assert forall|hist: Seq<CommitV>| #[trigger]
                wf_chain(repo.objects@, hist, head0) implies hist == suffix by {
                assert(chain_suffix_matches(hist, steps as nat, suffix, current.deep_view()));
                assert(hist.len() == steps);
                assert(hist.subrange(0, hist.len() as int) =~= hist);
            }
        }
        Ok(repo)
    }
}

/// The status line: the commit count in a fixed sentence.
pub open spec fn status_message(n: nat) -> Seq<char> {
    "Repositório COGIT com "@ + spec_decimal(n) + " commit(s)"@
}

} // verus!

