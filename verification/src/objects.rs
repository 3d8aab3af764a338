//! The content-addressable object store.
//!
//! Blobs, trees and commits are all kept as raw byte objects, keyed by the
//! hex digest of their own bytes. The store is a finite map from digest to
//! bytes; an object, once present, never changes.

use vstd::prelude::*;

use vstd::string::StrSliceExecFns;

use crate::assoc::{assoc_map, distinct_keys, lemma_assoc_map_contains, lemma_assoc_map_index,
    lemma_assoc_map_len, lemma_assoc_map_push};
use crate::errors::CogitError;
use crate::hashing::{hash_bytes, sha256_hex_of};
use crate::text::chars_to_string;

verus! {

/// `m2` keeps every binding of `m1`; it may add more.
pub open spec fn extends(m2: Map<Seq<char>, Seq<u8>>, m1: Map<Seq<char>, Seq<u8>>) -> bool {
    forall|k: Seq<char>| #[trigger]
        m1.contains_key(k) ==> m2.contains_key(k) && m2[k] == m1[k]
}

/// Keeping bindings is transitive.
pub proof fn lemma_extends_trans(
    m3: Map<Seq<char>, Seq<u8>>,
    m2: Map<Seq<char>, Seq<u8>>,
    m1: Map<Seq<char>, Seq<u8>>,
)
    requires
        extends(m3, m2),
        extends(m2, m1),
    ensures
        extends(m3, m1),
{
}

/// What storing bytes does to the store's map: the new map, and whether the
/// store succeeded. It fails exactly when a different object already answers
/// to the same digest.
pub open spec fn spec_store(m: Map<Seq<char>, Seq<u8>>, c: Seq<u8>) -> (
    Map<Seq<char>, Seq<u8>>,
    bool,
) {
    let h = sha256_hex_of(c);
    if m.contains_key(h) && m[h] != c {
        (m, false)
    } else {
        (m.insert(h, c), true)
    }
}

/// Storing bytes and then loading by their digest yields exactly those bytes.
pub proof fn lemma_store_then_load(m: Map<Seq<char>, Seq<u8>>, c: Seq<u8>)
    ensures
        spec_store(m, c).1 ==> spec_store(m, c).0.contains_key(sha256_hex_of(c)) && spec_store(
            m,
            c,
        ).0[sha256_hex_of(c)] == c,
{
}

/// Storing the same bytes twice yields the same digest and leaves the store
/// exactly as after the first time.
pub proof fn lemma_store_idempotent(m: Map<Seq<char>, Seq<u8>>, c: Seq<u8>)
    ensures
        spec_store(m, c).1 ==> spec_store(spec_store(m, c).0, c) == (spec_store(m, c).0, true),
{
    if spec_store(m, c).1 {
        let m1 = spec_store(m, c).0;
        assert(m1.insert(sha256_hex_of(c), c) =~= m1);
    }
}

/// One stored object: its digest and its raw bytes.
#[derive(Debug)]
pub struct StoredObject {
    pub hash: String,
    pub data: Vec<u8>,
}

/// Content-addressed object persistence, keyed by the digest of the raw bytes.
#[derive(Debug)]
pub struct ObjectStore {
    entries: Vec<StoredObject>,
}

impl View for ObjectStore {
    type V = Map<Seq<char>, Seq<u8>>;

    /// The finite map from digest to stored bytes that the store denotes.
    closed spec fn view(&self) -> Map<Seq<char>, Seq<u8>> {
        assoc_map(self.entries_seq())
    }
}

impl ObjectStore {
    /// The store's entries as an association list of digest and bytes.
    pub closed spec fn entries_seq(&self) -> Seq<(Seq<char>, Seq<u8>)> {
        self.entries@.map_values(|o: StoredObject| (o.hash@, o.data@))
    }

    /// Each digest keys at most one object.
    pub closed spec fn wf(&self) -> bool {
        distinct_keys(self.entries_seq())
    }

    /// How many objects the store holds.
    pub closed spec fn object_count(&self) -> nat {
        self.entries@.len()
    }

    /// The stored objects, for persistence by the surrounding application.
    pub fn items(&self) -> (r: &Vec<StoredObject>)
        ensures
            r@.map_values(|o: StoredObject| (o.hash@, o.data@)) == self.entries_seq(),
    {
        &self.entries
    }

    /// How many objects the store holds, as a run-time value.
    pub fn count(&self) -> (n: usize)
        ensures
            n == self.object_count(),
    {
        self.entries.len()
    }

    /// A well-formed store holds as many objects as its map has keys.
    pub proof fn lemma_count_is_dom_len(&self)
        requires
            self.wf(),
        ensures
            self@.dom().len() == self.object_count(),
            self@.dom().finite(),
    {
        lemma_assoc_map_len(self.entries_seq());
    }

    /// A fresh, empty store.
    pub fn empty() -> (r: ObjectStore)
        ensures
            r.wf(),
            r@ == Map::<Seq<char>, Seq<u8>>::empty(),
            r.object_count() == 0,
    {
        let r = ObjectStore { entries: Vec::new() };
        proof {
            assert(r.entries_seq() =~= Seq::<(Seq<char>, Seq<u8>)>::empty());
        }
        r
    }

    /// The position of the entry keyed by `hash`, if any.
    fn find_index(&self, hash: &String) -> (r: Option<usize>)
        requires
            self.wf(),
        ensures
            match r {
                Some(i) => {
                    &&& i < self.entries@.len()
                    &&& self.entries@[i as int].hash@ == hash@
                    &&& self@.contains_key(hash@)
                    &&& self@[hash@] == self.entries@[i as int].data@
                },
                None => !self@.contains_key(hash@),
            },
    {
        let n = self.entries.len();
        let ghost s = self.entries_seq();
        for i in 0..n
            invariant
                n == self.entries@.len(),
                s == self.entries_seq(),
                self.wf(),
                forall|j: int| 0 <= j < i ==> (#[trigger] s[j]).0 != hash@,
        {
            assert(s[i as int] == (self.entries@[i as int].hash@, self.entries@[i as int].data@));
            if self.entries[i].hash == *hash {
                proof {
                    lemma_assoc_map_index(s, i as int);
                }
                return Some(i);
            }
        }
        proof {
            lemma_assoc_map_contains(s, hash@);
        }
        None
    }

    /// Computes the content digest of `content`, and keeps the object under
    /// it unless an object with those bytes is already there. The store is
    /// refused only when a *different* object already answers to the same
    /// digest, which a collision-resistant hash never produces in practice.
    pub fn store(&mut self, content: Vec<u8>) -> (r: Result<String, CogitError>)
        requires
            old(self).wf(),
        ensures
            final(self).wf(),
            r is Ok <==> spec_store(old(self)@, content@).1,
            match r {
                Ok(h) => {
                    &&& h@ == sha256_hex_of(content@)
                    &&& final(self)@ == spec_store(old(self)@, content@).0
                    &&& final(self)@ == old(self)@.insert(h@, content@)
                    &&& old(self)@.contains_key(h@) ==> old(self)@[h@] == content@
                    &&& extends(final(self)@, old(self)@)
                    &&& final(self).object_count() == old(self).object_count() + (
                    if old(self)@.contains_key(h@) {
                        0int
                    } else {
                        1int
                    })
                },
                Err(e) => {
                    &&& e == CogitError::InvalidHash
                    &&& *final(self) == *old(self)
                    &&& old(self)@.contains_key(sha256_hex_of(content@))
                    &&& old(self)@[sha256_hex_of(content@)] != content@
                },
            },
    {
        let h = hash_bytes(content.as_slice());
        match self.find_index(&h) {
            Some(i) => {
                if bytes_eq(&self.entries[i].data, &content) {
                    proof {
                        assert(self@.insert(h@, content@) =~= self@);
                    }
                    Ok(h)
                } else {
                    Err(CogitError::InvalidHash)
                }
            },
            None => {
                let ghost s = self.entries_seq();
                let hash_copy = h.clone();
                self.entries.push(StoredObject { hash: hash_copy, data: content });
                proof {
                    assert(self.entries_seq() =~= s.push((h@, content@)));
                    lemma_assoc_map_push(s, h@, content@);
                    assert(distinct_keys(s.push((h@, content@)))) by {
                        lemma_assoc_map_contains(s, h@);
                    }
                }
                Ok(h)
            },
        }
    }

    /// Returns the bytes stored under `hash`; fails with `InvalidHash` when
    /// no object answers to it.
    pub fn load(&self, hash: &String) -> (r: Result<Vec<u8>, CogitError>)
        requires
            self.wf(),
        ensures
            match r {
                Ok(d) => self@.contains_key(hash@) && d@ == self@[hash@],
                Err(e) => e == CogitError::InvalidHash && !self@.contains_key(hash@),
            },
    {
        match self.find_index(hash) {
            Some(i) => Ok(clone_bytes(&self.entries[i].data)),
            None => Err(CogitError::InvalidHash),
        }
    }

    /// Assembles a store from loaded digest and byte pairs; fails with
    /// `InvalidHash` when some digest occurs twice.
    pub fn from_pairs(pairs: Vec<StoredObject>) -> (r: Result<ObjectStore, CogitError>)
        ensures
            match r {
                Ok(store) => {
                    &&& store.wf()
                    &&& store.entries_seq() == pairs@.map_values(
                        |o: StoredObject| (o.hash@, o.data@),
                    )
                    &&& store@ == assoc_map(pairs@.map_values(|o: StoredObject| (o.hash@, o.data@)))
                },
                Err(e) => {
                    &&& e == CogitError::InvalidHash
                    &&& !distinct_keys(pairs@.map_values(|o: StoredObject| (o.hash@, o.data@)))
                },
            },
    {
        let ghost s = pairs@.map_values(|o: StoredObject| (o.hash@, o.data@));
        let n = pairs.len();
        for i in 0..n
            invariant
                n == pairs@.len(),
                s == pairs@.map_values(|o: StoredObject| (o.hash@, o.data@)),
                forall|p: int, q: int| 0 <= p < q < i ==> (#[trigger] s[p]).0 != (#[trigger] s[q]).0,
        {
            for j in 0..i
                invariant
                    i < n == pairs@.len(),
                    s == pairs@.map_values(|o: StoredObject| (o.hash@, o.data@)),
                    forall|q: int| 0 <= q < j ==> (#[trigger] s[q]).0 != s[i as int].0,
            {
                assert(s[j as int] == (pairs@[j as int].hash@, pairs@[j as int].data@));
                assert(s[i as int] == (pairs@[i as int].hash@, pairs@[i as int].data@));
                if pairs[j].hash == pairs[i].hash {
                    return Err(CogitError::InvalidHash);
                }
            }
        }
        let store = ObjectStore { entries: pairs };
        Ok(store)
    }
}

/// Splits a digest into its fan-out bucket — the first two hex characters,
/// bounding the store to 256 buckets on disk — and the remaining file name.
pub fn fan_out(hash: &str) -> (r: (String, String))
    requires
        hash@.len() >= 2,
    ensures
        r.0@ == hash@.subrange(0, 2),
        r.1@ == hash@.subrange(2, hash@.len() as int),
{
    let n = hash.unicode_len();
    let mut bucket: Vec<char> = Vec::new();
    bucket.push(hash.get_char(0));
    bucket.push(hash.get_char(1));
    let mut rest: Vec<char> = Vec::new();
    let mut i: usize = 2;
    proof {
        assert(bucket@ =~= hash@.subrange(0, 2));
        assert(rest@ =~= hash@.subrange(2, 2));
    }
    while i < n
        invariant
            2 <= i <= n,
            n == hash@.len(),
            bucket@ == hash@.subrange(0, 2),
            rest@ == hash@.subrange(2, i as int),
        decreases n - i,
    {
        rest.push(hash.get_char(i));
        i = i + 1;
        proof {
            assert(rest@ =~= hash@.subrange(2, i as int));
        }
    }
    (chars_to_string(&bucket), chars_to_string(&rest))
}

/// Byte-for-byte equality of two byte vectors.
pub(crate) fn bytes_eq(a: &Vec<u8>, b: &Vec<u8>) -> (r: bool)
    ensures
        r == (a@ == b@),
{
    if a.len() != b.len() {
        assert(a@ != b@) by {
            assert(a@.len() != b@.len());
        }
        return false;
    }
    let n = a.len();
    for i in 0..n
        invariant
            n == a@.len() == b@.len(),
            forall|j: int| 0 <= j < i ==> a@[j] == b@[j],
    {
        if a[i] != b[i] {
            return false;
        }
    }
    proof {
        assert(a@ =~= b@);
    }
    true
}

/// An owned copy of a byte vector.
pub(crate) fn clone_bytes(v: &Vec<u8>) -> (r: Vec<u8>)
    ensures
        r@ == v@,
{
    let mut r: Vec<u8> = Vec::new();
    let n = v.len();
    for i in 0..n
        invariant
            n == v@.len(),
            r@ == v@.subrange(0, i as int),
    {
        r.push(v[i]);
        proof {
            assert(r@ =~= v@.subrange(0, i + 1 as int));
        }
    }
    proof {
        assert(v@.subrange(0, n as int) =~= v@);
    }
    r
}

} // verus!
