//! The tokenizer: its vocabulary, its merge rules, and the operations that
//! learn, apply and undo them.

use crate::model::{
    best_at, best_pair, byte_ids, bpe_merge, lemma_best_at_unique, lemma_best_pair_shrinks, merges_defined,
    lemma_bpe_merge_keeps_bytes, lemma_bpe_merge_fixpoint, mergeable_at, token_bytes, lemma_pair_count_bound, lemma_replace_step, pair_count, pair_counts, replace_pairs, window,
};
use crate::pair_map::{pair_lt, PairMap};
use crate::token_table::TokenTable;
use crate::validity::{
    lemma_add_merge_keeps_valid, lemma_byte_ids_spell, lemma_valid_ranked_merges, parts_valid,
};
use std::string::FromUtf8Error;
use vstd::prelude::*;
use vstd::utf8::{decode_utf8, encode_utf8, valid_utf8};

verus! {

#[verifier::external_type_specification]
#[verifier::external_body]
pub struct ExFromUtf8Error(FromUtf8Error);

/// Why a sequence of token IDs could not be decoded.
#[derive(Debug)]
pub enum DecodeError {
    /// The ID names no token of the vocabulary.
    InvalidTokenId(u32),
    /// The tokens spell out bytes that are not valid UTF-8.
    InvalidUtf8(FromUtf8Error),
}

/// A byte-level BPE tokenizer.
///
/// `vocab[id]` holds the bytes of token `id`; `token_to_id` maps the bytes
/// of a token back to its ID; `merges` maps a pair of adjacent IDs to the
/// ID of their concatenation; `ranks` gives the order in which the merges
/// were learned (rank 0 first).
#[derive(Clone, Debug)]
pub struct Tokenizer {
    pub vocab: Vec<Vec<u8>>,
    pub token_to_id: TokenTable,
    pub merges: PairMap<u32>,
    pub ranks: PairMap<usize>,
}

/// The first position of `ids` whose ID names no token of a vocabulary of
/// `n` tokens.
pub open spec fn first_unknown_id(ids: Seq<u32>, n: int) -> Option<int> {
    if exists|i: int| 0 <= i < ids.len() && ids[i] >= n {
        Some(choose|i: int| 0 <= i < ids.len() && ids[i] >= n && forall|j: int| 0 <= j < i ==> ids[j] < n)
    } else {
        None
    }
}

/// `p` is the pair with the highest count in `counts`, and the smallest
/// such pair when several share that count.
pub open spec fn most_frequent_at(counts: Map<(u32, u32), usize>, p: (u32, u32)) -> bool {
    &&& counts.contains_key(p)
    &&& forall|q: (u32, u32)|
        #[trigger] counts.contains_key(q) ==> counts[q] <= counts[p] && (counts[q] == counts[p]
            ==> !pair_lt(q, p))
}

/// The most frequent pair of `counts` (the smallest on ties), or `None`
/// when `counts` is empty.
pub open spec fn most_frequent(counts: Map<(u32, u32), usize>) -> Option<(u32, u32)> {
    if exists|p: (u32, u32)| most_frequent_at(counts, p) {
        Some(choose|p: (u32, u32)| most_frequent_at(counts, p))
    } else {
        None
    }
}

/// At most one pair is the most frequent.
pub proof fn lemma_most_frequent_unique(counts: Map<(u32, u32), usize>, p: (u32, u32), q: (u32, u32))
    requires
        most_frequent_at(counts, p),
        most_frequent_at(counts, q),
    ensures
        p == q,
{
    assert(counts[q] <= counts[p]);
    assert(counts[p] <= counts[q]);
}

/// The vocabulary made of the 256 single bytes, token `b` being byte `b`.
pub open spec fn byte_tokens() -> Seq<Seq<u8>> {
    Seq::new(256, |i: int| seq![i as u8])
}

/// The token table that maps each single byte to itself.
pub open spec fn byte_token_ids() -> Map<Seq<u8>, u32> {
    Map::new(
        |t: Seq<u8>| t.len() == 1,
        |t: Seq<u8>| t[0] as u32,
    )
}

/// Calls `String::from_utf8`, which takes ownership of `bytes` and gives
/// back a `String` holding the characters they encode when they are valid
/// UTF-8, and an error otherwise.
#[verifier::external_body]
fn string_from_utf8(bytes: Vec<u8>) -> (r: Result<String, FromUtf8Error>)
    ensures
        r is Ok <==> valid_utf8(bytes@),
        r matches Ok(s) ==> s@ == decode_utf8(bytes@),
{
    String::from_utf8(bytes)
}

/// The single-byte vocabulary and its table agree, with no merges.
pub proof fn lemma_byte_tokens_valid()
    ensures
        parts_valid(
            byte_tokens(),
            byte_token_ids(),
            Map::<(u32, u32), u32>::empty(),
            Map::<(u32, u32), usize>::empty(),
        ),
        byte_token_ids().dom().finite(),
{
    let idx = vstd::set_lib::set_int_range(0, 256);
    vstd::set_lib::lemma_int_range(0, 256);
    let f = |i: int| seq![i as u8];
    idx.lemma_map_finite(f);
    assert forall|t: Seq<u8>| #[trigger] byte_token_ids().dom().contains(t) <==> idx.map(f).contains(
        t,
    ) by {
        if t.len() == 1 {
            assert(idx.contains(t[0] as int) && f(t[0] as int) =~= t);
        }
        if idx.map(f).contains(t) {
            let i = choose|i: int| idx.contains(i) && f(i) == t;
            assert(t.len() == 1);
        }
    }
    assert(byte_token_ids().dom() =~= idx.map(f));
    assert forall|a: int, b: int| idx.contains(a) && idx.contains(b) && #[trigger] f(a) == #[trigger] f(
        b,
    ) implies a == b by {
        assert(f(a)[0] == a as u8);
        assert(f(b)[0] == b as u8);
    }
    vstd::set_lib::lemma_map_size(idx, byte_token_ids().dom(), f);
    assert forall|i: int| 0 <= i < 256 implies byte_token_ids().contains_key(#[trigger] byte_tokens()[i])
        && byte_token_ids()[byte_tokens()[i]] == i as u32 by {
        assert(byte_tokens()[i] == seq![i as u8]);
    }
}

impl Tokenizer {
    /// The tokens of the vocabulary, as byte sequences.
    pub open spec fn tokens(&self) -> Seq<Seq<u8>> {
        self.vocab@.map_values(|t: Vec<u8>| t@)
    }

    /// The parts of the tokenizer agree with each other (see
    /// [`parts_valid`]); this is what [`Tokenizer::validate`] checks.
    pub open spec fn is_valid(&self) -> bool {
        parts_valid(self.tokens(), self.token_to_id@, self.merges@, self.ranks@)
    }

    /// A tokenizer whose vocabulary holds the 256 single bytes and which
    /// has no merges.
    pub fn new() -> (t: Self)
        ensures
            t.tokens() == byte_tokens(),
            t.token_to_id@ == byte_token_ids(),
            t.merges@ == Map::<(u32, u32), u32>::empty(),
            t.ranks@ == Map::<(u32, u32), usize>::empty(),
            t.is_valid(),
    {
        proof {
            lemma_byte_tokens_valid();
        }
        let (vocab, token_to_id) = Self::build_initial_vocab();
        let merges = PairMap::new();
        let ranks = PairMap::new();
        Tokenizer { vocab, token_to_id, merges, ranks }
    }

    /// A tokenizer made of the given parts, which are taken as they are.
    pub fn from_parts(
        vocab: Vec<Vec<u8>>,
        token_to_id: TokenTable,
        merges: PairMap<u32>,
        ranks: PairMap<usize>,
    ) -> (t: Self)
        ensures
            t.vocab == vocab,
            t.token_to_id == token_to_id,
            t.merges == merges,
            t.ranks == ranks,
    {
        Tokenizer { vocab, token_to_id, merges, ranks }
    }

    /// The number of tokens in the vocabulary.
    pub fn vocab_size(&self) -> (n: usize)
        ensures
            n == self.vocab@.len(),
    {
        self.vocab.len()
    }

    fn build_initial_vocab() -> (r: (Vec<Vec<u8>>, TokenTable))
        ensures
            r.0@.map_values(|t: Vec<u8>| t@) == byte_tokens(),
            r.1@ == byte_token_ids(),
    {
        let mut vocab: Vec<Vec<u8>> = Vec::with_capacity(1024);
        let mut token_to_id = TokenTable::new();
        let mut i: u32 = 0;
        while i < 256
            invariant
                0 <= i <= 256,
                vocab@.len() == i,
                forall|j: int| 0 <= j < i ==> (#[trigger] vocab@[j])@ == seq![j as u8],
                token_to_id@ == Map::new(
                    |t: Seq<u8>| t.len() == 1 && t[0] < i,
                    |t: Seq<u8>| t[0] as u32,
                ),
            decreases 256 - i,
        {
            let b = i as u8;
            let mut token: Vec<u8> = Vec::new();
            token.push(b);
            vocab.push(token.clone());
            token_to_id.insert(token, i);
            proof {
                assert(token@ =~= seq![b]);
                assert forall|t: Seq<u8>| t.len() == 1 && t[0] == i implies t == seq![b] by {
                    assert(t =~= seq![b]);
                }
                assert(token_to_id@ =~= Map::new(
                    |t: Seq<u8>| t.len() == 1 && t[0] < i + 1,
                    |t: Seq<u8>| t[0] as u32,
                ));
            }
            i += 1;
        }
        proof {
            assert(vocab@.map_values(|t: Vec<u8>| t@) =~= byte_tokens());
            assert(token_to_id@ =~= byte_token_ids());
        }
        (vocab, token_to_id)
    }

    /// Replaces, in place and from left to right, each occurrence of the
    /// adjacent pair `(left, right)` in `seq` by `merged_id`.
    pub fn replace_pair_in_seq(seq: &mut Vec<u32>, left: u32, right: u32, merged_id: u32)
        ensures
            final(seq)@ == replace_pairs(old(seq)@, left, right, merged_id),
    {
        if seq.is_empty() {
            return;
        }
        let ghost s = seq@;
        let n = seq.len();
        let mut i: usize = 0;
        let mut write_idx: usize = 0;
        proof {
            assert(s.skip(0) =~= s);
            assert(seq@.take(0) + replace_pairs(s.skip(0), left, right, merged_id) =~= replace_pairs(
                s,
                left,
                right,
                merged_id,
            ));
        }
        while i < seq.len()
            invariant
                seq@.len() == n == s.len(),
                0 <= write_idx <= i <= n,
                i < n ==> write_idx < n,
                forall|k: int| i <= k < n ==> seq@[k] == s[k],
                seq@.take(write_idx as int) + replace_pairs(s.skip(i as int), left, right, merged_id)
                    == replace_pairs(s, left, right, merged_id),
            decreases n - i,
        {
            proof {
                lemma_replace_step(s, i as int, left, right, merged_id);
            }
            let ghost before = seq@;
            if i + 1 < seq.len() && seq[i] == left && seq[i + 1] == right {
                seq.set(write_idx, merged_id);
                i += 2;
                proof {
                    assert(seq@.take(write_idx + 1) =~= before.take(write_idx as int) + seq![merged_id]);
                }
            } else {
                let x = seq[i];
                seq.set(write_idx, x);
                i += 1;
                proof {
                    assert(seq@.take(write_idx + 1) =~= before.take(write_idx as int) + seq![x]);
                }
            }
            write_idx += 1;
            proof {
                if i < n {
                    assert(write_idx <= i);
                }
            }
        }
        seq.truncate(write_idx);
        proof {
            assert(s.skip(n as int) =~= Seq::<u32>::empty());
            assert(seq@ =~= seq@.take(write_idx as int));
        }
    }
    /// Counts each adjacent pair of `seq`, overlapping occurrences included:
    /// `[a, b, a, b]` gives `{(a, b): 2, (b, a): 1}`.
    pub fn count_pair_frequencies(seq: &[u32]) -> (counts: PairMap<usize>)
        ensures
            counts@ == pair_counts(seq@),
    {
        let mut counts: PairMap<usize> = PairMap::new();
        let n = seq.len();
        if n < 2 {
            proof {
                assert forall|p: (u32, u32)| pair_count(seq@, p) == 0 by {}
                assert(counts@ =~= pair_counts(seq@));
            }
            return counts;
        }
        let mut i: usize = 0;
        proof {
            assert forall|p: (u32, u32)| pair_count(seq@.take(1), p) == 0 by {}
            assert(counts@ =~= pair_counts(seq@.take(1)));
        }
        while i + 1 < n
            invariant
                n == seq@.len(),
                n >= 2,
                0 <= i < n,
                counts@ == pair_counts(seq@.take(i + 1)),
            decreases n - i,
        {
            let left = seq[i];
            let right = seq[i + 1];
            let ghost prefix = seq@.take(i + 1);
            let ghost next = seq@.take(i + 2);
            proof {
                assert(next.drop_last() =~= prefix);
                assert(window(next, next.len() - 2) == (left, right));
                lemma_pair_count_bound(prefix, (left, right));
            }
            let count = match counts.get(left, right) {
                Some(c) => *c,
                None => 0,
            };
            counts.insert(left, right, count + 1);
            i += 1;
            proof {
                assert forall|p: (u32, u32)|
                    pair_count(next, p) == pair_count(prefix, p) + if p == (left, right) {
                        1nat
                    } else {
                        0nat
                    } by {}
                assert(counts@ =~= pair_counts(next));
            }
        }
        proof {
            assert(seq@.take(n as int) =~= seq@);
        }
        counts
    }

    /// The pair with the highest count, the smallest pair among those that
    /// share the highest count, or `None` when the map is empty: every
    /// non-empty map gives a pair, even when all its counts are 0.
    pub fn find_most_frequent_pair(counts: &PairMap<usize>) -> (r: Option<(u32, u32)>)
        ensures
            r == most_frequent(counts@),
    {
        if counts.is_empty() {
            proof {
                assert(!(exists|p: (u32, u32)| most_frequent_at(counts@, p)));
            }
            return None;
        }
        let entries = counts.entries();
        let mut max_value: usize = 0;
        let mut max_key: Option<(u32, u32)> = None;
        let mut k: usize = 0;
        while k < entries.len()
            invariant
                0 <= k <= entries@.len(),
                forall|i: int|
                    0 <= i < entries@.len() ==> counts@.contains_key(#[trigger] entries@[i].0)
                        && counts@[entries@[i].0] == entries@[i].1,
                match max_key {
                    None => k == 0,
                    Some(m) => {
                        &&& counts@.contains_key(m)
                        &&& counts@[m] == max_value
                        &&& forall|j: int|
                            0 <= j < k ==> (#[trigger] entries@[j]).1 <= max_value && (entries@[j].1
                                == max_value ==> !pair_lt(entries@[j].0, m))
                    },
                },
            decreases entries@.len() - k,
        {
            let (key, value) = entries[k];
            let is_first = max_key.is_none();
            let is_higher_frequency = value > max_value;
            let is_smaller_tie = value == max_value && match max_key {
                Some(current) => key.0 < current.0 || (key.0 == current.0 && key.1 < current.1),
                None => false,
            };
            if is_first || is_higher_frequency || is_smaller_tie {
                max_value = value;
                max_key = Some(key);
            }
            k += 1;
        }
        proof {
            match max_key {
                Some(m) => {
                    assert forall|q: (u32, u32)| #[trigger] counts@.contains_key(q) implies counts@[q]
                        <= counts@[m] && (counts@[q] == counts@[m] ==> !pair_lt(q, m)) by {
                        let j = choose|j: int| 0 <= j < entries@.len() && #[trigger] entries@[j].0 == q;
                        assert(entries@[j].1 <= max_value);
                    }
                    assert(most_frequent_at(counts@, m));
                    let c = choose|p: (u32, u32)| most_frequent_at(counts@, p);
                    lemma_most_frequent_unique(counts@, m, c);
                },
                None => {
                    assert(entries@.len() == counts@.len());
                    assert(counts@.len() > 0);
                },
            }
        }
        max_key
    }
    /// The text spelled out by the tokens `ids`.
    ///
    /// Fails with the first ID that names no token, or, when every ID is
    /// known, with the UTF-8 error of the bytes the tokens spell out.
    pub fn decode(&self, ids: &[u32]) -> (r: Result<String, DecodeError>)
        ensures
            match first_unknown_id(ids@, self.vocab@.len() as int) {
                Some(i) => r matches Err(DecodeError::InvalidTokenId(id)) && id == ids@[i],
                None => {
                    let bytes = token_bytes(self.tokens(), ids@);
                    if valid_utf8(bytes) {
                        r matches Ok(s) && s@ == decode_utf8(bytes)
                    } else {
                        r matches Err(DecodeError::InvalidUtf8(_))
                    }
                },
            },
    {
        let mut bytes: Vec<u8> = Vec::new();
        let mut i: usize = 0;
        let ghost n = self.vocab@.len() as int;
        proof {
            assert(ids@.take(0) =~= Seq::<u32>::empty());
        }
        while i < ids.len()
            invariant
                0 <= i <= ids@.len(),
                n == self.vocab@.len(),
                bytes@ == token_bytes(self.tokens(), ids@.take(i as int)),
                forall|j: int| 0 <= j < i ==> (#[trigger] ids@[j] as int) < n,
            decreases ids@.len() - i,
        {
            let id = ids[i];
            if id as usize >= self.vocab.len() {
                proof {
                    let w = choose|w: int|
                        0 <= w < ids@.len() && ids@[w] >= n && forall|j: int| 0 <= j < w ==> ids@[j] < n;
                    assert(ids@[i as int] >= n);
                    if w < i {
                        assert(ids@[w] < n);
                    }
                    if w > i {
                        assert(ids@[i as int] < n);
                    }
                }
                return Err(DecodeError::InvalidTokenId(id));
            }
            let token = &self.vocab[id as usize];
            let ghost before = bytes@;
            let mut k: usize = 0;
            while k < token.len()
                invariant
                    0 <= k <= token@.len(),
                    bytes@ == before + token@.take(k as int),
                decreases token@.len() - k,
            {
                bytes.push(token[k]);
                k += 1;
                proof {
                    assert(token@.take(k as int) =~= token@.take(k - 1) + seq![token@[k - 1]]);
                }
            }
            i += 1;
            proof {
                let prefix = ids@.take(i as int);
                assert(prefix.drop_last() =~= ids@.take(i - 1));
                assert(token@.take(token@.len() as int) =~= token@);
                assert(self.tokens()[id as int] == token@);
            }
        }
        proof {
            assert(ids@.take(ids@.len() as int) =~= ids@);
            assert(!(exists|w: int| 0 <= w < ids@.len() && ids@[w] >= n));
        }
        match string_from_utf8(bytes) {
            Ok(text) => Ok(text),
            Err(error) => Err(DecodeError::InvalidUtf8(error)),
        }
    }

    /// The token IDs of `text`: its UTF-8 bytes, one ID each, in which the
    /// adjacent pair with the smallest merge rank is merged, everywhere it
    /// occurs from left to right, until no ranked pair is left.
    ///
    /// Encoding needs the merged ID of each pair it selects; a tokenizer
    /// whose parts agree has them all (see [`lemma_decode_encode`]).
    pub fn encode(&self, text: &str) -> (ids: Vec<u32>)
        requires
            merges_defined(byte_ids(encode_utf8(text@)), self.ranks@, self.merges@),
        ensures
            ids@ == bpe_merge(byte_ids(encode_utf8(text@)), self.ranks@, self.merges@),
            forall|i: int|
                0 <= i < ids@.len() - 1 ==> !(self.ranks@.contains_key((#[trigger] ids@[i], ids@[i + 1]))
                    && self.ranks@[(ids@[i], ids@[i + 1])] < usize::MAX),
    {
        self.try_encode(text).expect("merge rank has no merge ID")
    }

    /// Encodes `text` as [`Tokenizer::encode`] does, or gives `None` when
    /// the merging selects a ranked pair that has no merged ID.
    pub fn try_encode(&self, text: &str) -> (r: Option<Vec<u32>>)
        ensures
            r is Some <==> merges_defined(byte_ids(encode_utf8(text@)), self.ranks@, self.merges@),
            r matches Some(ids) ==> ids@ == bpe_merge(
                byte_ids(encode_utf8(text@)),
                self.ranks@,
                self.merges@,
            ),
            r matches Some(ids) ==> forall|i: int|
                0 <= i < ids@.len() - 1 ==> !(self.ranks@.contains_key((#[trigger] ids@[i], ids@[i + 1]))
                    && self.ranks@[(ids@[i], ids@[i + 1])] < usize::MAX),
    {
        proof {
            lemma_bpe_merge_fixpoint(byte_ids(encode_utf8(text@)), self.ranks@, self.merges@);
        }
        let b = text.as_bytes();
        let mut ids: Vec<u32> = Vec::with_capacity(b.len());
        let mut k: usize = 0;
        while k < b.len()
            invariant
                0 <= k <= b@.len(),
                ids@ == byte_ids(b@.take(k as int)),
            decreases b@.len() - k,
        {
            ids.push(b[k] as u32);
            k += 1;
            proof {
                assert(ids@ =~= byte_ids(b@.take(k as int)));
            }
        }
        proof {
            assert(b@.take(b@.len() as int) =~= b@);
        }
        let ghost start = ids@;
        let ghost ranks = self.ranks@;
        let ghost merges = self.merges@;
        loop
            invariant
                ranks == self.ranks@,
                merges == self.merges@,
                bpe_merge(ids@, ranks, merges) == bpe_merge(start, ranks, merges),
                merges_defined(ids@, ranks, merges) == merges_defined(start, ranks, merges),
                start == byte_ids(encode_utf8(text@)),
            ensures
                merges_defined(start, ranks, merges),
                ids@ == bpe_merge(start, ranks, merges),
            decreases ids@.len(),
        {
            let mut best: Option<(u32, u32)> = None;
            let mut best_rank: usize = usize::MAX;
            let mut best_merged_id: Option<u32> = None;
            let ghost mut best_index: int = 0;
            let mut i: usize = 0;
            while ids.len() > 1 && i < ids.len() - 1
                invariant
                    ranks == self.ranks@,
                    merges == self.merges@,
                    0 <= i,
                    ids@.len() >= 1 ==> i <= ids@.len() - 1,
                    ids@.len() == 0 ==> i == 0,
                    match best {
                        None => best_rank == usize::MAX && forall|j: int|
                            0 <= j < i ==> !#[trigger] mergeable_at(ids@, ranks, j),
                        Some(p) => {
                            &&& 0 <= best_index < i
                            &&& mergeable_at(ids@, ranks, best_index)
                            &&& window(ids@, best_index) == p
                            &&& ranks[p] == best_rank
                            &&& (match best_merged_id {
                                Some(m) => merges.contains_key(p) && merges[p] == m,
                                None => !merges.contains_key(p),
                            })
                            &&& forall|j: int|
                                #![trigger window(ids@, j)]
                                0 <= j < i && mergeable_at(ids@, ranks, j) ==> best_rank <= ranks[window(
                                    ids@,
                                    j,
                                )] && (ranks[window(ids@, j)] == best_rank ==> best_index <= j)
                        },
                    },
                decreases ids@.len() - i,
            {
                let pair = (ids[i], ids[i + 1]);
                proof {
                    assert(window(ids@, i as int) == pair);
                }
                match self.ranks.get(pair.0, pair.1) {
                    Some(rank) => {
                        if *rank < best_rank {
                            best = Some(pair);
                            best_rank = *rank;
                            best_merged_id = match self.merges.get(pair.0, pair.1) {
                                Some(m) => Some(*m),
                                None => None,
                            };
                            proof {
                                best_index = i as int;
                            }
                        }
                    },
                    None => {},
                }
                i += 1;
            }
            proof {
                if best is None {
                    assert(!(exists|j: int| best_at(ids@, ranks, j)));
                    assert(best_pair(ids@, ranks) is None);
                } else {
                    assert(best_at(ids@, ranks, best_index));
                    let c = choose|j: int| best_at(ids@, ranks, j);
                    lemma_best_at_unique(ids@, ranks, best_index, c);
                    assert(best_pair(ids@, ranks) == best);
                }
            }
            let (left, right) = match best {
                Some(p) => p,
                None => break,
            };
            let merged_id = match best_merged_id {
                Some(m) => m,
                None => {
                    proof {
                        assert(!merges.contains_key((left, right)));
                        assert(!merges_defined(ids@, ranks, merges));
                    }
                    return None;
                },
            };
            proof {
                lemma_best_pair_shrinks(ids@, ranks, merged_id);
            }
            Self::replace_pair_in_seq(&mut ids, left, right, merged_id);
        }
        Some(ids)
    }
    /// Adds the token that concatenates tokens `left` and `right`, with the
    /// merge `(left, right)` and the next rank, and gives back its ID. When
    /// the concatenation is already a token, nothing changes and its ID is
    /// given back.
    pub fn insert_merged_token(&mut self, left: u32, right: u32) -> (id: u32)
        requires
            (left as int) < old(self).vocab@.len(),
            (right as int) < old(self).vocab@.len(),
        ensures
            ({
                let merged = old(self).tokens()[left as int] + old(self).tokens()[right as int];
                if old(self).token_to_id@.contains_key(merged) {
                    &&& id == old(self).token_to_id@[merged]
                    &&& *final(self) == *old(self)
                } else {
                    &&& id == old(self).vocab@.len() as u32
                    &&& final(self).tokens() == old(self).tokens().push(merged)
                    &&& final(self).token_to_id@ == old(self).token_to_id@.insert(merged, id)
                    &&& final(self).merges@ == old(self).merges@.insert((left, right), id)
                    &&& final(self).ranks@ == old(self).ranks@.insert(
                        (left, right),
                        old(self).ranks@.len() as usize,
                    )
                }
            }),
            old(self).is_valid() && old(self).vocab@.len() <= u32::MAX ==> final(self).is_valid(),
    {
        let ghost tokens = self.tokens();
        let mut merged: Vec<u8> = self.vocab[left as usize].clone();
        let right_token = &self.vocab[right as usize];
        let ghost start = merged@;
        let mut k: usize = 0;
        while k < right_token.len()
            invariant
                0 <= k <= right_token@.len(),
                merged@ == start + right_token@.take(k as int),
            decreases right_token@.len() - k,
        {
            merged.push(right_token[k]);
            k += 1;
            proof {
                assert(right_token@.take(k as int) =~= right_token@.take(k - 1) + seq![right_token@[k - 1]]);
            }
        }
        proof {
            assert(right_token@.take(right_token@.len() as int) =~= right_token@);
            assert(start == tokens[left as int]);
            assert(right_token@ == tokens[right as int]);
        }
        match self.token_to_id.get(merged.as_slice()) {
            Some(existing) => {
                return existing;
            },
            None => {},
        }
        let merged_id = self.vocab.len() as u32;
        let rank = self.ranks.len();
        proof {
            self.merges.lemma_finite();
            self.ranks.lemma_finite();
            self.token_to_id.lemma_finite();
            if self.is_valid() && self.vocab@.len() <= u32::MAX {
                lemma_add_merge_keeps_valid(
                    tokens,
                    self.token_to_id@,
                    self.merges@,
                    self.ranks@,
                    left,
                    right,
                );
            }
        }
        let ghost before_tokens = self.tokens();
        self.vocab.push(merged.clone());
        self.token_to_id.insert(merged, merged_id);
        self.merges.insert(left, right, merged_id);
        self.ranks.insert(left, right, rank);
        proof {
            assert(self.tokens() =~= before_tokens.push(tokens[left as int] + tokens[right as int]));
        }
        merged_id
    }
}

/// Decoding gives back the encoded text: for a tokenizer whose parts agree,
/// encoding any text is defined (no merged ID is missing), every ID of the
/// encoding names a token, and the tokens spell out the text's UTF-8 bytes,
/// which decode to the text again.
pub proof fn lemma_decode_encode(t: Tokenizer, text: Seq<char>)
    requires
        t.is_valid(),
    ensures
        merges_defined(byte_ids(encode_utf8(text)), t.ranks@, t.merges@),
        ({
            let ids = bpe_merge(byte_ids(encode_utf8(text)), t.ranks@, t.merges@);
            &&& first_unknown_id(ids, t.vocab@.len() as int) is None
            &&& token_bytes(t.tokens(), ids) == encode_utf8(text)
            &&& valid_utf8(token_bytes(t.tokens(), ids))
            &&& decode_utf8(token_bytes(t.tokens(), ids)) == text
        }),
{
    let bytes = encode_utf8(text);
    let start = byte_ids(bytes);
    t.merges.lemma_finite();
    t.ranks.lemma_finite();
    lemma_valid_ranked_merges(t.tokens(), t.token_to_id@, t.merges@, t.ranks@);
    lemma_byte_ids_spell(t.tokens(), bytes);
    lemma_bpe_merge_keeps_bytes(t.tokens(), start, t.ranks@, t.merges@);
    let ids = bpe_merge(start, t.ranks@, t.merges@);
    assert(!(exists|i: int| 0 <= i < ids.len() && ids[i] >= t.vocab@.len()));
    vstd::utf8::encode_utf8_valid_utf8(text);
    vstd::utf8::encode_utf8_decode_utf8(text);
}

impl Default for Tokenizer {
    /// The same as [`Tokenizer::new`].
    fn default() -> (t: Self)
        ensures
            t.tokens() == byte_tokens(),
            t.token_to_id@ == byte_token_ids(),
            t.merges@ == Map::<(u32, u32), u32>::empty(),
            t.ranks@ == Map::<(u32, u32), usize>::empty(),
            t.is_valid(),
    {
        Self::new()
    }
}

} // verus!
