//! The key-value store: binary keys mapped to binary values.
//!
//! Entries live in buckets of a `HashMap` keyed by the 64-bit hash of the
//! key; each bucket holds the entries whose keys share that hash, each key
//! at most once.

use std::collections::hash_map::DefaultHasher;
use std::collections::HashMap;
use std::hash::Hasher;
use vstd::prelude::*;
use vstd::std_specs::hash::DefaultHasherAdditionalSpecFns;

verus! {

broadcast use vstd::std_specs::hash::group_hash_axioms;

/// The bucket that holds `k`.
pub open spec fn key_hash(k: Seq<u8>) -> u64 {
    DefaultHasher::spec_finish(seq![k])
}

/// What a lookup of `k` in `m` finds.
pub open spec fn lookup(m: Map<Seq<u8>, Seq<u8>>, k: Seq<u8>) -> Option<Seq<u8>> {
    if m.contains_key(k) {
        Some(m[k])
    } else {
        None
    }
}

pub open spec fn found_bytes(r: Option<&Vec<u8>>) -> Option<Seq<u8>> {
    match r {
        Some(v) => Some(v@),
        None => None,
    }
}

pub open spec fn bucket_ok(b: Seq<(Vec<u8>, Vec<u8>)>, h: u64) -> bool {
    &&& forall|i: int| 0 <= i < b.len() ==> key_hash(#[trigger] b[i].0@) == h
    &&& forall|i: int, j: int| 0 <= i < j < b.len() ==> #[trigger] b[i].0@ != #[trigger] b[j].0@
}

pub open spec fn bucket_has(b: Seq<(Vec<u8>, Vec<u8>)>, k: Seq<u8>) -> bool {
    exists|i: int| 0 <= i < b.len() && #[trigger] b[i].0@ == k
}

pub open spec fn bucket_value(b: Seq<(Vec<u8>, Vec<u8>)>, k: Seq<u8>) -> Seq<u8> {
    b[choose|i: int| 0 <= i < b.len() && #[trigger] b[i].0@ == k].1@
}

/// The store.
pub struct RedisDB {
    dict: HashMap<u64, Vec<(Vec<u8>, Vec<u8>)>>,
}

impl RedisDB {
    /// Each bucket holds only keys of its hash, each at most once.
    pub closed spec fn wf(self) -> bool {
        forall|h: u64| #[trigger] self.dict@.contains_key(h) ==> bucket_ok(self.dict@[h]@, h)
    }

    pub closed spec fn holds(self, k: Seq<u8>) -> bool {
        self.dict@.contains_key(key_hash(k)) && bucket_has(self.dict@[key_hash(k)]@, k)
    }

    pub closed spec fn stored_value(self, k: Seq<u8>) -> Seq<u8> {
        bucket_value(self.dict@[key_hash(k)]@, k)
    }
}

impl View for RedisDB {
    type V = Map<Seq<u8>, Seq<u8>>;

    closed spec fn view(&self) -> Map<Seq<u8>, Seq<u8>> {
        Map::new(|k: Seq<u8>| self.holds(k), |k: Seq<u8>| self.stored_value(k))
    }
}

fn hash_key(key: &[u8]) -> (r: u64)
    ensures
        r == key_hash(key@),
{
    let mut hasher = DefaultHasher::new();
    hasher.write(key);
    let r = hasher.finish();
    assert(hasher@ =~= seq![key@]);
    r
}

fn bytes_equal(a: &[u8], b: &[u8]) -> (r: bool)
    ensures
        r == (a@ == b@),
{
    if a.len() != b.len() {
        return false;
    }
    let mut i: usize = 0;
    while i < a.len()
        invariant
            a@.len() == b@.len(),
            i <= a@.len(),
            forall|j: int| 0 <= j < i ==> a@[j] == b@[j],
        decreases a@.len() - i,
    {
        if a[i] != b[i] {
            return false;
        }
        i = i + 1;
    }
    assert(a@ =~= b@);
    true
}

/// The index of the entry of `bucket` whose key is `key`, if there is one.
fn find_in_bucket(bucket: &Vec<(Vec<u8>, Vec<u8>)>, key: &[u8]) -> (r: Option<usize>)
    ensures
        match r {
            Some(i) => i < bucket@.len() && bucket@[i as int].0@ == key@,
            None => !bucket_has(bucket@, key@),
        },
{
    let mut i: usize = 0;
    while i < bucket.len()
        invariant
            i <= bucket@.len(),
            forall|j: int| 0 <= j < i ==> bucket@[j].0@ != key@,
        decreases bucket@.len() - i,
    {
        if bytes_equal(bucket[i].0.as_slice(), key) {
            return Some(i);
        }
        i = i + 1;
    }
    None
}

impl RedisDB {
    /// An empty store.
    pub fn new() -> (r: Self)
        ensures
            r.wf(),
            r@ == Map::<Seq<u8>, Seq<u8>>::empty(),
    {
        let r = RedisDB { dict: HashMap::new() };
        assert(r@ =~= Map::<Seq<u8>, Seq<u8>>::empty());
        r
    }

    /// The value stored under `key`, if any.
    pub fn get(&self, key: &[u8]) -> (r: Option<&Vec<u8>>)
        requires
            self.wf(),
        ensures
            found_bytes(r) == lookup(self@, key@),
    {
        let h = hash_key(key);
        match self.dict.get(&h) {
            None => None,
            Some(bucket) => match find_in_bucket(bucket, key) {
                Some(i) => {
                    proof {
                        assert(bucket_ok(bucket@, h));
                        let c = choose|j: int| 0 <= j < bucket@.len() && #[trigger] bucket@[j].0@ == key@;
                        assert(c == i);
                    }
                    Some(&bucket[i].1)
                },
                None => None,
            },
        }
    }

    /// Stores `value` under `key`, replacing what was there.
    pub fn set(&mut self, key: Vec<u8>, value: Vec<u8>)
        requires
            old(self).wf(),
        ensures
            final(self).wf(),
            final(self)@ == old(self)@.insert(key@, value@),
    {
        let h = hash_key(key.as_slice());
        let ghost k = key@;
        let ghost v = value@;
        let ghost before = self.dict@;
        let mut bucket = match self.dict.remove(&h) {
            Some(b) => b,
            None => Vec::new(),
        };
        let ghost old_bucket = bucket@;
        proof {
            assert(before.contains_key(h) ==> before[h]@ == old_bucket);
            assert(!before.contains_key(h) ==> old_bucket.len() == 0);
            if before.contains_key(h) {
                assert(bucket_ok(before[h]@, h));
            }
        }
        let ghost pos: int;
        match find_in_bucket(&bucket, key.as_slice()) {
            Some(i) => {
                proof {
                    pos = i as int;
                }
                bucket.set(i, (key, value));
            },
            None => {
                proof {
                    pos = old_bucket.len() as int;
                }
                bucket.push((key, value));
            },
        }
        let ghost new_bucket = bucket@;
        proof {
            assert(pos < old_bucket.len() ==> old_bucket[pos].0@ == k);
            assert(pos == old_bucket.len() ==> !bucket_has(old_bucket, k));
            assert(new_bucket[pos].0@ == k && new_bucket[pos].1@ == v);
            assert(forall|j: int| 0 <= j < old_bucket.len() && j != pos ==> new_bucket[j] == old_bucket[j]);
            assert forall|a: int, b: int| 0 <= a < b < new_bucket.len() implies #[trigger] new_bucket[a].0@
                != #[trigger] new_bucket[b].0@ by {
                if a != pos && b != pos {
                    assert(old_bucket[a].0@ != old_bucket[b].0@);
                } else if a == pos && pos < old_bucket.len() {
                    assert(old_bucket[a].0@ != old_bucket[b].0@);
                } else if b == pos && pos < old_bucket.len() {
                    assert(old_bucket[a].0@ != old_bucket[b].0@);
                } else if b == pos {
                    assert(old_bucket[a].0@ != k);
                }
            }
            assert(bucket_ok(new_bucket, h));
        }
        self.dict.insert(h, bucket);
        proof {
            let m = old(self)@.insert(k, v);
            assert forall|q: Seq<u8>| #[trigger] self@.contains_key(q) == m.contains_key(q) && (
            m.contains_key(q) ==> self@[q] == m[q]) by {
                if key_hash(q) == h {
                    if q == k {
                        assert(bucket_has(new_bucket, q));
                        let i = choose|i: int| 0 <= i < new_bucket.len() && #[trigger] new_bucket[i].0@ == q;
                        assert(i == pos);
                    } else if bucket_has(old_bucket, q) {
                        let j = choose|j: int| 0 <= j < old_bucket.len() && #[trigger] old_bucket[j].0@ == q;
                        assert(new_bucket[j].0@ == q);
                        assert(bucket_has(new_bucket, q));
                        let i = choose|i: int| 0 <= i < new_bucket.len() && #[trigger] new_bucket[i].0@ == q;
                        assert(i != pos);
                        assert(new_bucket[i] == old_bucket[i]);
                        assert(i == j);
                    } else {
                        if bucket_has(new_bucket, q) {
                            let i = choose|i: int| 0 <= i < new_bucket.len() && #[trigger] new_bucket[i].0@ == q;
                            assert(i != pos);
                            assert(old_bucket[i].0@ == q);
                        }
                    }
                }
            }
            assert(self@ =~= m);
        }
    }

    /// Removes `key`: 1 if it was there, else 0.
    pub fn del(&mut self, key: &[u8]) -> (r: i64)
        requires
            old(self).wf(),
        ensures
            final(self).wf(),
            final(self)@ == old(self)@.remove(key@),
            r == (if old(self)@.contains_key(key@) { 1i64 } else { 0i64 }),
    {
        let h = hash_key(key);
        let ghost k = key@;
        let ghost before = self.dict@;
        let mut bucket = match self.dict.remove(&h) {
            Some(b) => b,
            None => {
                proof {
                    assert forall|q: Seq<u8>| #[trigger] self@.contains_key(q) == old(self)@.remove(k).contains_key(q)
                        && (self@.contains_key(q) ==> self@[q] == old(self)@[q]) by {
                        if key_hash(q) == h {
                            assert(!old(self).holds(q));
                        }
                    }
                    assert(self@ =~= old(self)@.remove(k));
                }
                return 0;
            },
        };
        let ghost old_bucket = bucket@;
        proof {
            assert(before[h]@ == old_bucket);
            assert(bucket_ok(old_bucket, h));
        }
        let r = match find_in_bucket(&bucket, key) {
            Some(i) => {
                bucket.remove(i);
                proof {
                    let nb = bucket@;
                    assert(forall|a: int| 0 <= a < i ==> nb[a] == old_bucket[a]);
                    assert(forall|a: int| i <= a < nb.len() ==> nb[a] == old_bucket[a + 1]);
                    assert forall|a: int| 0 <= a < nb.len() implies #[trigger] nb[a].0@ != k by {
                        if a < i {
                            assert(old_bucket[a].0@ != old_bucket[i as int].0@);
                        } else {
                            assert(old_bucket[a + 1].0@ != old_bucket[i as int].0@);
                        }
                    }
                    assert forall|a: int, b: int| 0 <= a < b < nb.len() implies #[trigger] nb[a].0@
                        != #[trigger] nb[b].0@ by {
                        let a2 = if a < i { a } else { a + 1 };
                        let b2 = if b < i { b } else { b + 1 };
                        assert(old_bucket[a2].0@ != old_bucket[b2].0@);
                    }
                    assert forall|q: Seq<u8>| q != k implies (bucket_has(nb, q) == bucket_has(old_bucket, q))
                        && (bucket_has(nb, q) ==> bucket_value(nb, q) == bucket_value(old_bucket, q)) by {
                        if bucket_has(old_bucket, q) {
                            let j = choose|j: int| 0 <= j < old_bucket.len() && #[trigger] old_bucket[j].0@ == q;
                            assert(j != i);
                            let j2 = if j < i { j } else { j - 1 };
                            assert(nb[j2].0@ == q);
                        }
                        if bucket_has(nb, q) {
                            let a = choose|a: int| 0 <= a < nb.len() && #[trigger] nb[a].0@ == q;
                            let a2 = if a < i { a } else { a + 1 };
                            assert(old_bucket[a2] == nb[a]);
                            let j = choose|j: int| 0 <= j < old_bucket.len() && #[trigger] old_bucket[j].0@ == q;
                            assert(j == a2);
                        }
                    }
                }
                1
            },
            None => 0,
        };
        let ghost new_bucket = bucket@;
        proof {
            if r == 0 {
                assert(new_bucket == old_bucket);
            }
            assert(forall|a: int| 0 <= a < new_bucket.len() ==> #[trigger] new_bucket[a].0@ != k);
            assert(forall|q: Seq<u8>| q != k ==> bucket_has(new_bucket, q) == bucket_has(old_bucket, q)
                && (bucket_has(new_bucket, q) ==> bucket_value(new_bucket, q) == bucket_value(old_bucket, q)));
            assert(bucket_ok(new_bucket, h));
        }
        self.dict.insert(h, bucket);
        proof {
            let m = old(self)@.remove(k);
            assert forall|q: Seq<u8>| #[trigger] self@.contains_key(q) == m.contains_key(q) && (
            m.contains_key(q) ==> self@[q] == m[q]) by {
                if key_hash(q) == h && q == k {
                    assert(!bucket_has(new_bucket, q));
                }
            }
            assert(self@ =~= m);
            assert(r == 1 <==> old(self).holds(k));
        }
        r
    }

    /// Removes every entry.
    pub fn flushall(&mut self)
        ensures
            final(self).wf(),
            final(self)@ == Map::<Seq<u8>, Seq<u8>>::empty(),
    {
        self.dict.clear();
        assert(self@ =~= Map::<Seq<u8>, Seq<u8>>::empty());
    }
}

impl Default for RedisDB {
    fn default() -> (r: Self)
        ensures
            r.wf(),
            r@ == Map::<Seq<u8>, Seq<u8>>::empty(),
    {
        Self::new()
    }
}

} // verus!
