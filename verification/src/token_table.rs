//! A map from token bytes to token IDs.
//!
//! The keys are kept in a list, and a hash index maps the hash of each key
//! to the positions in the list of the keys with that hash, so that a
//! lookup compares the key with those entries only.

use std::collections::HashMap;
use std::hash::{DefaultHasher, Hasher};
use vstd::prelude::*;
use vstd::std_specs::hash::DefaultHasherAdditionalSpecFns;

verus! {

broadcast use vstd::std_specs::hash::group_hash_axioms;

/// The hash of a key: what `DefaultHasher` finishes with after the key's
/// bytes were written to it in one call.
pub open spec fn key_hash(key: Seq<u8>) -> u64 {
    DefaultHasher::spec_finish(seq![key])
}

/// Computes [`key_hash`].
fn hash_bytes(bytes: &[u8]) -> (h: u64)
    ensures
        h == key_hash(bytes@),
{
    let mut hasher = DefaultHasher::new();
    hasher.write(bytes);
    proof {
        assert(hasher@ =~= seq![bytes@]);
    }
    hasher.finish()
}

/// Whether two byte strings are equal.
pub fn bytes_eq(a: &[u8], b: &[u8]) -> (r: bool)
    ensures
        r == (a@ == b@),
{
    if a.len() != b.len() {
        return false;
    }
    let mut i: usize = 0;
    while i < a.len()
        invariant
            a@.len() == b@.len(),
            0 <= i <= a@.len(),
            forall|j: int| 0 <= j < i ==> a@[j] == b@[j],
        decreases a@.len() - i,
    {
        if a[i] != b[i] {
            return false;
        }
        i += 1;
    }
    assert(a@ =~= b@);
    true
}

/// A map from byte strings to `u32` IDs, kept as a list of distinct keys
/// with a hash index over it.
#[derive(Debug)]
pub struct TokenTable {
    entries: Vec<(Vec<u8>, u32)>,
    index: HashMap<u64, Vec<usize>>,
}

/// The keys of a list of entries.
spec fn keys_of(entries: Seq<(Vec<u8>, u32)>) -> Seq<Seq<u8>> {
    entries.map_values(|e: (Vec<u8>, u32)| e.0@)
}

/// Position `i` is listed in the bucket of its key's hash.
spec fn listed(keys: Seq<Seq<u8>>, index: Map<u64, Vec<usize>>, i: int) -> bool {
    let h = key_hash(keys[i]);
    index.contains_key(h) && exists|m: int| 0 <= m < index[h]@.len() && #[trigger] index[h]@[m] as int == i
}

/// Every position is listed in the bucket of its key's hash, and every
/// listed position holds a key with that hash.
spec fn index_ok(keys: Seq<Seq<u8>>, index: Map<u64, Vec<usize>>) -> bool {
    &&& forall|i: int| 0 <= i < keys.len() ==> #[trigger] listed(keys, index, i)
    &&& forall|h: u64, j: int|
        index.contains_key(h) && 0 <= j < index[h]@.len() ==> (#[trigger] index[h]@[j] as int)
            < keys.len() && key_hash(keys[index[h]@[j] as int]) == h
}

/// Appending a key and listing its position in its bucket keeps the index
/// right.
proof fn lemma_index_push(
    keys: Seq<Seq<u8>>,
    index: Map<u64, Vec<usize>>,
    k: Seq<u8>,
    bucket: Vec<usize>,
)
    requires
        index_ok(keys, index),
        keys.len() <= usize::MAX,
        bucket@ == (if index.contains_key(key_hash(k)) {
            index[key_hash(k)]@
        } else {
            Seq::<usize>::empty()
        }).push(keys.len() as usize),
    ensures
        index_ok(keys.push(k), index.insert(key_hash(k), bucket)),
{
    let h = key_hash(k);
    let n = keys.len() as int;
    let keys2 = keys.push(k);
    let index2 = index.insert(h, bucket);
    let old_bucket = if index.contains_key(h) {
        index[h]@
    } else {
        Seq::<usize>::empty()
    };
    assert forall|a: int| 0 <= a < keys2.len() implies #[trigger] listed(keys2, index2, a) by {
        if a < n {
            assert(listed(keys, index, a));
            assert(keys2[a] == keys[a]);
            let ha = key_hash(keys[a]);
            let m = choose|m: int| 0 <= m < index[ha]@.len() && #[trigger] index[ha]@[m] as int == a;
            if ha == h {
                assert(bucket@[m] == index[h]@[m]);
            }
            assert(index2[ha]@[m] as int == a);
        } else {
            assert(index2[h]@[old_bucket.len() as int] as int == n);
        }
    }
    assert forall|g: u64, j: int|
        index2.contains_key(g) && 0 <= j < index2[g]@.len() implies (#[trigger] index2[g]@[j] as int)
        < keys2.len() && key_hash(keys2[index2[g]@[j] as int]) == g by {
        if g == h && j < old_bucket.len() {
            assert(index[h]@[j] == index2[g]@[j]);
        } else if g != h {
            assert(index[g]@[j] == index2[g]@[j]);
        }
    }
}

impl TokenTable {
    #[verifier::type_invariant]
    spec fn well_formed(self) -> bool {
        self.keys_distinct() && index_ok(keys_of(self.entries@), self.index@)
    }

    spec fn keys_distinct(self) -> bool {
        forall|i: int, j: int|
            0 <= i < j < self.entries@.len() ==> (#[trigger] self.entries@[i]).0@ != (
            #[trigger] self.entries@[j]).0@
    }

    spec fn key_at(self, k: Seq<u8>, i: int) -> bool {
        0 <= i < self.entries@.len() && self.entries@[i].0@ == k
    }
}

impl View for TokenTable {
    type V = Map<Seq<u8>, u32>;

    closed spec fn view(&self) -> Map<Seq<u8>, u32> {
        Map::new(
            |k: Seq<u8>| exists|i: int| self.key_at(k, i),
            |k: Seq<u8>| self.entries@[choose|i: int| self.key_at(k, i)].1,
        )
    }
}

impl TokenTable {
    proof fn lemma_lookup(self, k: Seq<u8>, i: int)
        requires
            self.keys_distinct(),
            self.key_at(k, i),
        ensures
            self@.contains_key(k),
            self@[k] == self.entries@[i].1,
    {
        let j = choose|j: int| self.key_at(k, j);
        if i < j {
            assert(self.entries@[i].0@ != self.entries@[j].0@);
        } else if j < i {
            assert(self.entries@[j].0@ != self.entries@[i].0@);
        }
    }

    proof fn lemma_dom_image(self)
        ensures
            self@.dom() == vstd::set_lib::set_int_range(0, self.entries@.len() as int).map(
                |i: int| self.entries@[i].0@,
            ),
            vstd::set_lib::set_int_range(0, self.entries@.len() as int).finite(),
            vstd::set_lib::set_int_range(0, self.entries@.len() as int).len()
                == self.entries@.len(),
    {
        let idx = vstd::set_lib::set_int_range(0, self.entries@.len() as int);
        vstd::set_lib::lemma_int_range(0, self.entries@.len() as int);
        let f = |i: int| self.entries@[i].0@;
        assert forall|k: Seq<u8>| #[trigger] self@.dom().contains(k) <==> idx.map(f).contains(k) by {
            if self@.dom().contains(k) {
                let i = choose|i: int| self.key_at(k, i);
                assert(idx.contains(i) && f(i) == k);
            }
            if idx.map(f).contains(k) {
                let i = choose|i: int| idx.contains(i) && f(i) == k;
                assert(self.key_at(k, i));
            }
        }
        assert(self@.dom() =~= idx.map(f));
    }

    proof fn lemma_len(self)
        requires
            self.keys_distinct(),
        ensures
            self@.dom().finite(),
            self@.dom().len() == self.entries@.len(),
    {
        self.lemma_dom_image();
        let idx = vstd::set_lib::set_int_range(0, self.entries@.len() as int);
        let f = |i: int| self.entries@[i].0@;
        assert forall|a: int, b: int|
            idx.contains(a) && idx.contains(b) && #[trigger] f(a) == #[trigger] f(b) implies a
                == b by {
            if a < b {
                assert(self.entries@[a].0@ != self.entries@[b].0@);
            } else if b < a {
                assert(self.entries@[b].0@ != self.entries@[a].0@);
            }
        }
        vstd::set_lib::lemma_map_size(idx, self@.dom(), f);
    }

    /// The domain of the table is finite.
    pub proof fn lemma_finite(&self)
        ensures
            self@.dom().finite(),
    {
        self.lemma_dom_image();
        let idx = vstd::set_lib::set_int_range(0, self.entries@.len() as int);
        vstd::set_lib::lemma_map_size_bound(idx, self@.dom(), |i: int| self.entries@[i].0@);
    }

    /// An empty table.
    pub fn new() -> (t: Self)
        ensures
            t@ == Map::<Seq<u8>, u32>::empty(),
    {
        let t = TokenTable { entries: Vec::new(), index: HashMap::new() };
        assert(t@ =~= Map::<Seq<u8>, u32>::empty());
        t
    }

    fn find(&self, key: &[u8]) -> (r: Option<usize>)
        ensures
            match r {
                Some(i) => self.key_at(key@, i as int),
                None => forall|i: int| !self.key_at(key@, i),
            },
    {
        proof {
            use_type_invariant(self);
        }
        let h = hash_bytes(key);
        let bucket = match self.index.get(&h) {
            Some(b) => b,
            None => {
                proof {
                    assert forall|i: int| !self.key_at(key@, i) by {
                        if self.key_at(key@, i) {
                            assert(listed(keys_of(self.entries@), self.index@, i));
                        }
                    }
                }
                return None;
            },
        };
        let mut j: usize = 0;
        while j < bucket.len()
            invariant
                self.well_formed(),
                h == key_hash(key@),
                self.index@.contains_key(h),
                self.index@[h] == *bucket,
                0 <= j <= bucket@.len(),
                forall|m: int| 0 <= m < j ==> !self.key_at(key@, #[trigger] bucket@[m] as int),
            decreases bucket@.len() - j,
        {
            let i = bucket[j];
            proof {
                assert((self.index@[h]@[j as int] as int) < keys_of(self.entries@).len());
            }
            if bytes_eq(self.entries[i].0.as_slice(), key) {
                return Some(i);
            }
            j += 1;
        }
        proof {
            assert forall|i: int| !self.key_at(key@, i) by {
                if self.key_at(key@, i) {
                    assert(keys_of(self.entries@)[i] == key@);
                    assert(listed(keys_of(self.entries@), self.index@, i));
                    let m = choose|m: int| 0 <= m < bucket@.len() && bucket@[m] as int == i;
                    assert(!self.key_at(key@, bucket@[m] as int));
                }
            }
        }
        None
    }

    /// The ID of `key`, if the table has one.
    pub fn get(&self, key: &[u8]) -> (r: Option<u32>)
        ensures
            match r {
                Some(id) => self@.contains_key(key@) && self@[key@] == id,
                None => !self@.contains_key(key@),
            },
    {
        proof {
            use_type_invariant(self);
        }
        match self.find(key) {
            Some(i) => {
                proof {
                    self.lemma_lookup(key@, i as int);
                }
                Some(self.entries[i].1)
            },
            None => None,
        }
    }

    /// Whether the table holds an ID for `key`.
    pub fn contains_key(&self, key: &[u8]) -> (b: bool)
        ensures
            b == self@.contains_key(key@),
    {
        self.get(key).is_some()
    }

    /// Maps `key` to `value`, and gives back the value it replaced, if any.
    pub fn insert(&mut self, key: Vec<u8>, value: u32) -> (r: Option<u32>)
        ensures
            final(self)@ == old(self)@.insert(key@, value),
            match r {
                Some(v) => old(self)@.contains_key(key@) && old(self)@[key@] == v,
                None => !old(self)@.contains_key(key@),
            },
    {
        proof {
            use_type_invariant(&*self);
        }
        let ghost k = key@;
        let ghost before = *self;
        let found = self.find(key.as_slice());
        let mut taken = TokenTable::new();
        std::mem::swap(self, &mut taken);
        let mut entries = taken.entries;
        let mut index = taken.index;
        assert(entries@ == before.entries@ && index@ == before.index@);
        match found {
            Some(i) => {
                proof {
                    before.lemma_lookup(k, i as int);
                }
                let previous = entries[i].1;
                entries.set(i, (key, value));
                proof {
                    assert forall|a: int, b: int|
                        0 <= a < b < entries@.len() implies (#[trigger] entries@[a]).0@ != (
                        #[trigger] entries@[b]).0@ by {
                        assert(before.entries@[a].0@ != before.entries@[b].0@);
                    }
                    assert(keys_of(entries@) =~= keys_of(before.entries@));
                }
                *self = TokenTable { entries, index };
                proof {
                    assert forall|j: int| #[trigger] self.key_at(k, j) implies j == i by {
                        if j != i {
                            assert(before.key_at(k, j));
                            if i < j {
                                assert(before.entries@[i as int].0@ != before.entries@[j].0@);
                            } else {
                                assert(before.entries@[j].0@ != before.entries@[i as int].0@);
                            }
                        }
                    }
                    assert forall|c: Seq<u8>|
                        #[trigger] self@.dom().contains(c) <==> before@.insert(k, value).dom().contains(
                            c,
                        ) by {
                        if c != k {
                            if self@.dom().contains(c) {
                                let j = choose|j: int| self.key_at(c, j);
                                assert(before.key_at(c, j));
                            }
                            if before@.dom().contains(c) {
                                let j = choose|j: int| before.key_at(c, j);
                                assert(self.key_at(c, j));
                            }
                        } else {
                            assert(self.key_at(k, i as int));
                        }
                    }
                    assert forall|c: Seq<u8>| #[trigger] self@.dom().contains(c) implies self@[c]
                        == before@.insert(k, value)[c] by {
                        let j = choose|j: int| self.key_at(c, j);
                        self.lemma_lookup(c, j);
                        if c != k {
                            assert(before.key_at(c, j));
                            before.lemma_lookup(c, j);
                        }
                    }
                    assert(self@ =~= before@.insert(k, value));
                }
                Some(previous)
            },
            None => {
                let n = entries.len();
                let h = hash_bytes(key.as_slice());
                let mut bucket = match index.remove(&h) {
                    Some(b) => b,
                    None => Vec::new(),
                };
                let ghost old_bucket = bucket@;
                assert(before.index@.contains_key(h) ==> old_bucket == before.index@[h]@);
                assert(!before.index@.contains_key(h) ==> old_bucket.len() == 0);
                bucket.push(n);
                proof {
                    lemma_index_push(keys_of(before.entries@), before.index@, k, bucket);
                }
                index.insert(h, bucket);
                entries.push((key, value));
                proof {
                    assert forall|a: int, b: int|
                        0 <= a < b < entries@.len() implies (#[trigger] entries@[a]).0@ != (
                        #[trigger] entries@[b]).0@ by {
                        if b == n {
                            assert(!before.key_at(k, a));
                        } else {
                            assert(before.entries@[a].0@ != before.entries@[b].0@);
                        }
                    }
                    assert(keys_of(entries@) =~= keys_of(before.entries@).push(k));
                    assert(index@ =~= before.index@.insert(h, bucket));
                }
                *self = TokenTable { entries, index };
                proof {
                    let n = before.entries@.len() as int;
                    assert forall|c: Seq<u8>|
                        #[trigger] self@.dom().contains(c) <==> before@.insert(k, value).dom().contains(
                            c,
                        ) by {
                        if self@.dom().contains(c) {
                            let j = choose|j: int| self.key_at(c, j);
                            if j < n {
                                assert(before.key_at(c, j));
                            }
                        }
                        if before@.dom().contains(c) {
                            let j = choose|j: int| before.key_at(c, j);
                            assert(self.key_at(c, j));
                        }
                        if c == k {
                            assert(self.key_at(k, n));
                        }
                    }
                    assert forall|c: Seq<u8>| #[trigger] self@.dom().contains(c) implies self@[c]
                        == before@.insert(k, value)[c] by {
                        let j = choose|j: int| self.key_at(c, j);
                        self.lemma_lookup(c, j);
                        if c != k {
                            assert(j < n);
                            assert(before.key_at(c, j));
                            before.lemma_lookup(c, j);
                        } else {
                            if j < n {
                                assert(before.key_at(k, j));
                            }
                            assert(j == n);
                        }
                    }
                    assert(self@ =~= before@.insert(k, value));
                }
                None
            },
        }
    }

    /// The number of keys in the table.
    pub fn len(&self) -> (n: usize)
        ensures
            n == self@.len(),
    {
        proof {
            use_type_invariant(self);
            self.lemma_len();
        }
        self.entries.len()
    }

    /// Whether the table is empty.
    pub fn is_empty(&self) -> (b: bool)
        ensures
            b == (self@.len() == 0),
    {
        self.len() == 0
    }
}

impl Clone for TokenTable {
    /// A copy with the same keys and IDs.
    fn clone(&self) -> (r: Self)
        ensures
            r@ == self@,
    {
        proof {
            use_type_invariant(self);
        }
        let mut entries: Vec<(Vec<u8>, u32)> = Vec::with_capacity(self.entries.len());
        let mut i: usize = 0;
        while i < self.entries.len()
            invariant
                self.keys_distinct(),
                0 <= i <= self.entries@.len(),
                entries@.len() == i,
                forall|j: int|
                    0 <= j < i ==> (#[trigger] entries@[j]).0@ == self.entries@[j].0@ && entries@[j].1
                        == self.entries@[j].1,
            decreases self.entries@.len() - i,
        {
            let key = self.entries[i].0.clone();
            entries.push((key, self.entries[i].1));
            i += 1;
        }
        let index = self.index.clone();
        proof {
            assert(keys_of(entries@) =~= keys_of(self.entries@));
        }
        let r = TokenTable { entries, index };
        proof {
            assert forall|k: Seq<u8>, j: int| r.key_at(k, j) == self.key_at(k, j) by {}
            assert forall|k: Seq<u8>| #[trigger] r@.contains_key(k) implies r@[k] == self@[k] by {
                let j = choose|j: int| r.key_at(k, j);
                r.lemma_lookup(k, j);
                self.lemma_lookup(k, j);
            }
            assert(r@ =~= self@);
        }
        r
    }
}

} // verus!
