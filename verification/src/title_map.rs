//! A map from raw titles to page ids.
//!
//! The titles are kept in buckets under the 64-bit digest of their bytes, so
//! that the table below is keyed by an integer; within a bucket a title is
//! found by comparing bytes.

use std::collections::hash_map::DefaultHasher;
use std::collections::HashMap;
use std::hash::Hasher;
use vstd::prelude::*;
use vstd::std_specs::hash::DefaultHasherAdditionalSpecFns;

verus! {

/// The digest of the title `key`.
pub open spec fn digest_of(key: Seq<u8>) -> u64 {
    DefaultHasher::spec_finish(seq![key])
}

/// The id that the first entry of `bucket` for the title `key` holds.
pub open spec fn bucket_get(bucket: Seq<(Vec<u8>, usize)>, key: Seq<u8>) -> Option<usize>
    decreases bucket.len(),
{
    if bucket.len() == 0 {
        None
    } else if bucket[0].0@ == key {
        Some(bucket[0].1)
    } else {
        bucket_get(bucket.skip(1), key)
    }
}

proof fn lemma_bucket_absent(bucket: Seq<(Vec<u8>, usize)>, key: Seq<u8>)
    requires
        forall|j: int| 0 <= j < bucket.len() ==> (#[trigger] bucket[j]).0@ != key,
    ensures
        bucket_get(bucket, key) is None,
    decreases bucket.len(),
{
    if bucket.len() > 0 {
        let rest = bucket.skip(1);
        assert forall|j: int| 0 <= j < rest.len() implies (#[trigger] rest[j]).0@ != key by {
            assert(rest[j] == bucket[j + 1]);
        }
        lemma_bucket_absent(rest, key);
    }
}

proof fn lemma_bucket_found(bucket: Seq<(Vec<u8>, usize)>, key: Seq<u8>, i: int)
    requires
        0 <= i < bucket.len(),
        bucket[i].0@ == key,
        forall|j: int| 0 <= j < i ==> (#[trigger] bucket[j]).0@ != key,
    ensures
        bucket_get(bucket, key) == Some(bucket[i].1),
    decreases i,
{
    if i > 0 {
        let rest = bucket.skip(1);
        assert forall|j: int| 0 <= j < i - 1 implies (#[trigger] rest[j]).0@ != key by {
            assert(rest[j] == bucket[j + 1]);
        }
        assert(rest[i - 1] == bucket[i]);
        lemma_bucket_found(rest, key, i - 1);
    }
}

proof fn lemma_bucket_push(bucket: Seq<(Vec<u8>, usize)>, entry: (Vec<u8>, usize), key: Seq<u8>)
    ensures
        bucket_get(bucket.push(entry), key) == if bucket_get(bucket, key) is Some {
            bucket_get(bucket, key)
        } else if entry.0@ == key {
            Some(entry.1)
        } else {
            None
        },
    decreases bucket.len(),
{
    let longer = bucket.push(entry);
    if bucket.len() == 0 {
        assert(longer[0] == entry);
        assert(longer.skip(1) =~= Seq::<(Vec<u8>, usize)>::empty());
        assert(bucket_get(longer.skip(1), key) is None);
    } else {
        assert(longer[0] == bucket[0]);
        assert(longer.skip(1) =~= bucket.skip(1).push(entry));
        lemma_bucket_push(bucket.skip(1), entry, key);
    }
}

proof fn lemma_bucket_update(
    bucket: Seq<(Vec<u8>, usize)>,
    i: int,
    entry: (Vec<u8>, usize),
    key: Seq<u8>,
)
    requires
        0 <= i < bucket.len(),
        bucket[i].0@ == entry.0@,
        forall|j: int| 0 <= j < i ==> (#[trigger] bucket[j]).0@ != entry.0@,
    ensures
        bucket_get(bucket.update(i, entry), key) == if entry.0@ == key {
            Some(entry.1)
        } else {
            bucket_get(bucket, key)
        },
    decreases i,
{
    let changed = bucket.update(i, entry);
    if i == 0 {
        assert(changed.skip(1) =~= bucket.skip(1));
    } else {
        let rest = bucket.skip(1);
        assert(changed[0] == bucket[0]);
        assert(changed.skip(1) =~= rest.update(i - 1, entry));
        assert(rest[i - 1] == bucket[i]);
        assert forall|j: int| 0 <= j < i - 1 implies (#[trigger] rest[j]).0@ != entry.0@ by {
            assert(rest[j] == bucket[j + 1]);
        }
        lemma_bucket_update(rest, i - 1, entry, key);
    }
}

fn digest(key: &[u8]) -> (h: u64)
    ensures
        h == digest_of(key@),
{
    let mut hasher = DefaultHasher::new();
    hasher.write(key);
    hasher.finish()
}

/// Whether `a` and `b` hold the same bytes.
pub fn same_bytes(a: &[u8], b: &[u8]) -> (r: bool)
    ensures
        r == (a@ == b@),
{
    if a.len() != b.len() {
        return false;
    }
    let mut i: usize = 0;
    while i < a.len()
        invariant
            a@.len() == b@.len(),
            i <= a@.len(),
            forall|j: int| 0 <= j < i ==> a@[j] == b@[j],
        decreases a@.len() - i,
    {
        if a[i] != b[i] {
            return false;
        }
        i += 1;
    }
    assert(a@ =~= b@);
    true
}

/// A map from titles to page ids.
pub struct TitleMap {
    buckets: HashMap<u64, Vec<(Vec<u8>, usize)>>,
}

impl TitleMap {
    /// The id that the map holds for the title `key`.
    pub closed spec fn lookup(&self, key: Seq<u8>) -> Option<usize> {
        if self.buckets@.contains_key(digest_of(key)) {
            bucket_get(self.buckets@[digest_of(key)]@, key)
        } else {
            None
        }
    }

    /// The map without entries.
    pub fn new() -> (r: TitleMap)
        ensures
            r@ == Map::<Seq<u8>, usize>::empty(),
    {
        let r = TitleMap { buckets: HashMap::new() };
        assert(r@ =~= Map::<Seq<u8>, usize>::empty());
        r
    }

    /// The id that the map holds for the title `key`.
    pub fn get(&self, key: &[u8]) -> (r: Option<usize>)
        ensures
            r == if self@.contains_key(key@) {
                Some(self@[key@])
            } else {
                None
            },
    {
        let h = digest(key);
        match self.buckets.get(&h) {
            Some(bucket) => {
                let mut i: usize = 0;
                while i < bucket.len()
                    invariant
                        i <= bucket@.len(),
                        h == digest_of(key@),
                        self.buckets@.contains_key(h),
                        self.buckets@[h] == *bucket,
                        forall|j: int| 0 <= j < i ==> (#[trigger] bucket@[j]).0@ != key@,
                    decreases bucket@.len() - i,
                {
                    if same_bytes(bucket[i].0.as_slice(), key) {
                        proof {
                            lemma_bucket_found(bucket@, key@, i as int);
                        }
                        return Some(bucket[i].1);
                    }
                    i += 1;
                }
                proof {
                    lemma_bucket_absent(bucket@, key@);
                }
                None
            },
            None => None,
        }
    }

    /// Whether the map holds an id for the title `key`.
    pub fn contains_key(&self, key: &[u8]) -> (r: bool)
        ensures
            r == self@.contains_key(key@),
    {
        self.get(key).is_some()
    }

    /// Sets the id that the map holds for the title `key` to `id`.
    pub fn insert(&mut self, key: Vec<u8>, id: usize)
        ensures
            final(self)@ == old(self)@.insert(key@, id),
    {
        let h = digest(key.as_slice());
        let mut bucket = match self.buckets.remove(&h) {
            Some(b) => b,
            None => Vec::new(),
        };
        let ghost before = bucket@;
        assert(forall|k: Seq<u8>| digest_of(k) == h ==> old(self).lookup(k) == bucket_get(before, k));
        let mut i: usize = 0;
        while i < bucket.len()
            invariant
                bucket@ == before,
                i <= bucket@.len(),
                forall|j: int| 0 <= j < i ==> (#[trigger] bucket@[j]).0@ != key@,
            ensures
                i <= bucket@.len(),
                i < bucket@.len() ==> bucket@[i as int].0@ == key@,
            decreases bucket@.len() - i,
        {
            if same_bytes(bucket[i].0.as_slice(), key.as_slice()) {
                break;
            }
            i += 1;
        }
        let ghost entry = (key, id);
        if i < bucket.len() {
            bucket.set(i, (key, id));
            assert forall|k: Seq<u8>| bucket_get(bucket@, k) == if k == entry.0@ {
                Some(id)
            } else {
                bucket_get(before, k)
            } by {
                lemma_bucket_update(before, i as int, entry, k);
            }
        } else {
            bucket.push((key, id));
            assert forall|k: Seq<u8>| bucket_get(bucket@, k) == if k == entry.0@ {
                Some(id)
            } else {
                bucket_get(before, k)
            } by {
                lemma_bucket_push(before, entry, k);
                lemma_bucket_absent(before, entry.0@);
            }
        }
        self.buckets.insert(h, bucket);
        assert forall|k: Seq<u8>| self.lookup(k) == if k == entry.0@ {
            Some(id)
        } else {
            old(self).lookup(k)
        } by {
            if digest_of(k) == h {
                assert(self.buckets@[h] == bucket);
            }
        }
        assert(self@ =~= old(self)@.insert(entry.0@, id));
    }
}

impl View for TitleMap {
    type V = Map<Seq<u8>, usize>;

    closed spec fn view(&self) -> Map<Seq<u8>, usize> {
        Map::new(|key: Seq<u8>| self.lookup(key) is Some, |key: Seq<u8>| self.lookup(key).unwrap())
    }
}

} // verus!
