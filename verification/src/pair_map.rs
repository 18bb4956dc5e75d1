//! A hash map keyed by pairs of token IDs.
//!
//! A pair `(left, right)` of `u32` IDs is stored under the `u64` key
//! `left * 2^32 + right`, which is a bijection between pairs and `u64`
//! values that also preserves the lexicographic order of pairs.

use std::collections::HashMap;
use vstd::prelude::*;

verus! {

broadcast use vstd::std_specs::hash::group_hash_axioms;

/// `2^32`, the weight of the left ID in a packed pair key.
pub open spec fn pair_base() -> int {
    0x1_0000_0000
}

/// The `u64` key under which the pair `p` is stored.
pub open spec fn pair_key(p: (u32, u32)) -> u64 {
    (p.0 as int * pair_base() + p.1 as int) as u64
}

/// The pair that is stored under the key `k`.
pub open spec fn key_pair(k: u64) -> (u32, u32) {
    ((k as int / pair_base()) as u32, (k as int % pair_base()) as u32)
}

/// Lexicographic order on pairs: `a` comes strictly before `b`.
pub open spec fn pair_lt(a: (u32, u32), b: (u32, u32)) -> bool {
    a.0 < b.0 || (a.0 == b.0 && a.1 < b.1)
}

/// Packing a pair and unpacking the key gives the pair back.
pub proof fn lemma_pair_key_roundtrip(p: (u32, u32))
    ensures
        key_pair(pair_key(p)) == p,
        0 <= p.0 as int * pair_base() + p.1 as int <= u64::MAX,
{
    assert(0 <= p.0 as int * pair_base() <= 0xffff_ffff * pair_base()) by (nonlinear_arith)
        requires
            0 <= p.0 <= 0xffff_ffff,
            pair_base() == 0x1_0000_0000,
    ;
    let k = p.0 as int * pair_base() + p.1 as int;
    assert(k / pair_base() == p.0 as int && k % pair_base() == p.1 as int) by (nonlinear_arith)
        requires
            k == p.0 as int * pair_base() + p.1 as int,
            0 <= p.1 < pair_base(),
            0 <= p.0,
            pair_base() == 0x1_0000_0000,
    ;
}

/// Unpacking a key and packing the pair gives the key back.
pub proof fn lemma_key_pair_roundtrip(k: u64)
    ensures
        pair_key(key_pair(k)) == k,
{
    let q = k as int / pair_base();
    let r = k as int % pair_base();
    assert(q * pair_base() + r == k as int && 0 <= r < pair_base() && 0 <= q < pair_base())
        by (nonlinear_arith)
        requires
            q == k as int / pair_base(),
            r == k as int % pair_base(),
            0 <= k <= u64::MAX,
            pair_base() == 0x1_0000_0000,
    ;
}

/// Packing is strictly monotone in the lexicographic order of pairs.
pub proof fn lemma_pair_key_order(a: (u32, u32), b: (u32, u32))
    ensures
        pair_lt(a, b) <==> pair_key(a) < pair_key(b),
        a == b <==> pair_key(a) == pair_key(b),
{
    lemma_pair_key_roundtrip(a);
    lemma_pair_key_roundtrip(b);
    assert(pair_lt(a, b) <==> (a.0 as int * pair_base() + (a.1 as int)) < (b.0 as int
        * pair_base() + (b.1 as int))) by (nonlinear_arith)
        requires
            0 <= a.1 < pair_base(),
            0 <= b.1 < pair_base(),
            pair_lt(a, b) == (a.0 < b.0 || (a.0 == b.0 && a.1 < b.1)),
    ;
}

/// The executable form of [`pair_key`].
pub fn pack_pair(left: u32, right: u32) -> (k: u64)
    ensures
        k == pair_key((left, right)),
{
    proof {
        lemma_pair_key_roundtrip((left, right));
    }
    (left as u64) * 0x1_0000_0000u64 + (right as u64)
}

/// The executable form of [`key_pair`].
pub fn unpack_pair(k: u64) -> (p: (u32, u32))
    ensures
        p == key_pair(k),
        pair_key(p) == k,
{
    proof {
        lemma_key_pair_roundtrip(k);
    }
    ((k / 0x1_0000_0000u64) as u32, (k % 0x1_0000_0000u64) as u32)
}

/// A map from pairs of token IDs to values of type `V`.
#[derive(Clone, Debug)]
pub struct PairMap<V> {
    table: HashMap<u64, V>,
}

impl<V> View for PairMap<V> {
    type V = Map<(u32, u32), V>;

    closed spec fn view(&self) -> Map<(u32, u32), V> {
        Map::new(
            |p: (u32, u32)| self.table@.contains_key(pair_key(p)),
            |p: (u32, u32)| self.table@[pair_key(p)],
        )
    }
}

impl<V> PairMap<V> {
    proof fn lemma_view_dom(&self)
        ensures
            self@.dom() == self.table@.dom().map(|k: u64| key_pair(k)),
            self@.dom().finite(),
            self@.dom().len() == self.table@.dom().len(),
    {
        let f = |k: u64| key_pair(k);
        assert forall|p: (u32, u32)| #[trigger] self@.dom().contains(p) implies self.table@.dom().map(
            f,
        ).contains(p) by {
            lemma_pair_key_roundtrip(p);
            assert(f(pair_key(p)) == p);
        }
        assert forall|p: (u32, u32)| #[trigger] self.table@.dom().map(f).contains(p) implies self@.dom().contains(
            p,
        ) by {
            let k = choose|k: u64| self.table@.dom().contains(k) && f(k) == p;
            lemma_key_pair_roundtrip(k);
        }
        assert(self@.dom() =~= self.table@.dom().map(f));
        assert forall|a: u64, b: u64|
            self.table@.dom().contains(a) && self.table@.dom().contains(b) && #[trigger] f(a)
                == #[trigger] f(b) implies a == b by {
            lemma_key_pair_roundtrip(a);
            lemma_key_pair_roundtrip(b);
        }
        vstd::set_lib::lemma_map_size(self.table@.dom(), self@.dom(), f);
    }

    /// The domain of the map is finite.
    pub proof fn lemma_finite(&self)
        ensures
            self@.dom().finite(),
    {
        self.lemma_view_dom();
    }

    /// An empty map.
    pub fn new() -> (m: Self)
        ensures
            m@ == Map::<(u32, u32), V>::empty(),
    {
        let m = PairMap { table: HashMap::new() };
        assert(m@ =~= Map::<(u32, u32), V>::empty());
        m
    }

    /// Maps `(left, right)` to `value`, and gives back the value it
    /// replaced, if any.
    pub fn insert(&mut self, left: u32, right: u32, value: V) -> (r: Option<V>)
        ensures
            final(self)@ == old(self)@.insert((left, right), value),
            match r {
                Some(v) => old(self)@.contains_key((left, right)) && v == old(self)@[(left, right)],
                None => !old(self)@.contains_key((left, right)),
            },
    {
        let k = pack_pair(left, right);
        let r = self.table.insert(k, value);
        proof {
            assert forall|p: (u32, u32)| true implies (#[trigger] self@.dom().contains(p)
                == old(self)@.insert((left, right), value).dom().contains(p)) by {
                lemma_pair_key_order(p, (left, right));
            }
            assert forall|p: (u32, u32)| #[trigger] self@.dom().contains(p) implies self@[p] == old(
                self,
            )@.insert((left, right), value)[p] by {
                lemma_pair_key_order(p, (left, right));
            }
            assert(self@ =~= old(self)@.insert((left, right), value));
        }
        r
    }

    /// The value of `(left, right)`, if the map has one.
    pub fn get(&self, left: u32, right: u32) -> (r: Option<&V>)
        ensures
            match r {
                Some(v) => self@.contains_key((left, right)) && *v == self@[(left, right)],
                None => !self@.contains_key((left, right)),
            },
    {
        let k = pack_pair(left, right);
        self.table.get(&k)
    }

    /// Whether the map holds a value for `(left, right)`.
    pub fn contains_key(&self, left: u32, right: u32) -> (b: bool)
        ensures
            b == self@.contains_key((left, right)),
    {
        let k = pack_pair(left, right);
        self.table.contains_key(&k)
    }

    /// The number of pairs in the map.
    pub fn len(&self) -> (n: usize)
        ensures
            n == self@.len(),
    {
        proof {
            self.lemma_view_dom();
        }
        self.table.len()
    }

    /// Whether the map is empty.
    pub fn is_empty(&self) -> (b: bool)
        ensures
            b == (self@.len() == 0),
            b == (self@ == Map::<(u32, u32), V>::empty()),
    {
        proof {
            self.lemma_view_dom();
            if self@.len() == 0 {
                assert(self@.dom() =~= Set::<(u32, u32)>::empty());
                assert(self@ =~= Map::<(u32, u32), V>::empty());
            }
        }
        self.len() == 0
    }
}

impl<V: Copy> PairMap<V> {
    /// The pairs of the map with their values, each pair once, in an
    /// unspecified order.
    pub fn entries(&self) -> (es: Vec<((u32, u32), V)>)
        ensures
            es@.len() == self@.len(),
            forall|i: int|
                0 <= i < es@.len() ==> self@.contains_key(#[trigger] es@[i].0) && self@[es@[i].0]
                    == es@[i].1,
            forall|i: int, j: int| 0 <= i < j < es@.len() ==> es@[i].0 != es@[j].0,
            forall|p: (u32, u32)|
                self@.contains_key(p) ==> exists|i: int| 0 <= i < es@.len() && #[trigger] es@[i].0 == p,
    {
        let mut es: Vec<((u32, u32), V)> = Vec::new();
        let ghost v = vstd::std_specs::iter::IteratorSpec::remaining(
            &vstd::std_specs::hash::spec_hash_map_iter(&self.table),
        );
        for e in it: self.table.iter()
            invariant
                it.seq() == v,
                es@.len() == it.index(),
                forall|i: int|
                    0 <= i < it.index() ==> #[trigger] es@[i] == (key_pair(*v[i].0), *v[i].1),
        {
            let (k, v) = e;
            let p = unpack_pair(*k);
            es.push((p, *v));
        }
        proof {
            assert(es@.len() == v.len());
            self.lemma_view_dom();
            assert forall|i: int|
                0 <= i < es@.len() implies self@.contains_key(#[trigger] es@[i].0) && self@[es@[i].0]
                    == es@[i].1 by {
                lemma_key_pair_roundtrip(*v[i].0);
                assert(self.table@.contains_key(*v[i].0));
            }
            assert forall|i: int, j: int| 0 <= i < j < es@.len() implies es@[i].0 != es@[j].0 by {
                lemma_key_pair_roundtrip(*v[i].0);
                lemma_key_pair_roundtrip(*v[j].0);
                if es@[i].0 == es@[j].0 {
                    assert(*v[i].0 == *v[j].0);
                    assert(v.no_duplicates());
                }
            }
            assert forall|p: (u32, u32)|
                self@.contains_key(p) implies exists|i: int| 0 <= i < es@.len() && #[trigger] es@[i].0 == p by {
                let k = pair_key(p);
                lemma_pair_key_roundtrip(p);
                assert(self.table@.contains_key(k));
                assert(v.contains((&k, &self.table@[k])));
                let i = choose|i: int| 0 <= i < v.len() && v[i] == (&k, &self.table@[k]);
                assert(es@[i].0 == p);
            }
        }
        es
    }
}

} // verus!
