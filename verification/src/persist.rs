//! Checking a tokenizer's parts, and the content of a saved tokenizer:
//! building it from a tokenizer and a tokenizer from it.

use crate::pair_map::PairMap;
use crate::token_table::TokenTable;
use crate::tokenizer::Tokenizer;
use crate::validity::{
    has_byte_tokens, lemma_valid_distinct_tokens, lemma_valid_same_pairs, merge_ok, merges_match, parts_valid, table_matches,
};
use vstd::prelude::*;

verus! {

/// What is wrong with a tokenizer whose parts do not agree.
#[derive(Debug, Clone, Copy, PartialEq, Eq)]
pub enum InvalidTokenizer {
    TooFewByteTokens,
    InvalidByteTokens,
    LookupSizeMismatch,
    InvalidLookup,
    MergeRankSizeMismatch,
    MissingRank,
    InvalidRanks,
    InvalidLeftId,
    InvalidRightId,
    InvalidMergedId,
    IncorrectMergedBytes,
}

/// `e` names a condition that the parts break; the checks are made in the
/// order of the variants, and the checks of the merges in the order in
/// which the merge map is walked.
pub open spec fn explains(
    e: InvalidTokenizer,
    tokens: Seq<Seq<u8>>,
    table: Map<Seq<u8>, u32>,
    merges: Map<(u32, u32), u32>,
    ranks: Map<(u32, u32), usize>,
) -> bool {
    let n = tokens.len() as int;
    let merge_phase = has_byte_tokens(tokens) && table_matches(tokens, table) && merges.len()
        == ranks.len();
    match e {
        InvalidTokenizer::TooFewByteTokens => n < 256,
        InvalidTokenizer::InvalidByteTokens => n >= 256 && !has_byte_tokens(tokens),
        InvalidTokenizer::LookupSizeMismatch => has_byte_tokens(tokens) && table.len() != n,
        InvalidTokenizer::InvalidLookup => has_byte_tokens(tokens) && table.len() == n
            && !table_matches(tokens, table),
        InvalidTokenizer::MergeRankSizeMismatch => has_byte_tokens(tokens) && table_matches(
            tokens,
            table,
        ) && merges.len() != ranks.len(),
        InvalidTokenizer::MissingRank => merge_phase && exists|p: (u32, u32)|
            #[trigger] merges.contains_key(p) && !ranks.contains_key(p),
        InvalidTokenizer::InvalidRanks => merge_phase && exists|p: (u32, u32)|
            #[trigger] merges.contains_key(p) && ranks.contains_key(p) && ((ranks[p] as int)
                >= ranks.len() || exists|q: (u32, u32)|
                #[trigger] merges.contains_key(q) && q != p && ranks.contains_key(q) && ranks[q]
                    == ranks[p]),
        InvalidTokenizer::InvalidLeftId => merge_phase && exists|p: (u32, u32)|
            #[trigger] merges.contains_key(p) && (p.0 as int) >= n,
        InvalidTokenizer::InvalidRightId => merge_phase && exists|p: (u32, u32)|
            #[trigger] merges.contains_key(p) && (p.1 as int) >= n,
        InvalidTokenizer::InvalidMergedId => merge_phase && exists|p: (u32, u32)|
            #[trigger] merges.contains_key(p) && (merges[p] as int) >= n,
        InvalidTokenizer::IncorrectMergedBytes => merge_phase && exists|p: (u32, u32)|
            #[trigger] merges.contains_key(p) && (p.0 as int) < n && (p.1 as int) < n && (
            merges[p] as int) < n && tokens[merges[p] as int] != tokens[p.0 as int] + tokens[p.1 as int],
    }
}

/// Whether `token` is the single byte `b`.
fn is_byte_token(token: &Vec<u8>, b: u8) -> (r: bool)
    ensures
        r == (token@ == seq![b]),
{
    let r = token.len() == 1 && token[0] == b;
    proof {
        if token@.len() == 1 && token@[0] == b {
            assert(token@ =~= seq![b]);
        }
    }
    r
}

/// Whether `whole` is `a` followed by `b`.
fn is_concat(whole: &[u8], a: &[u8], b: &[u8]) -> (r: bool)
    ensures
        r == (whole@ == a@ + b@),
{
    if a.len() > whole.len() || whole.len() - a.len() != b.len() {
        proof {
            if whole@ == a@ + b@ {
                assert((a@ + b@).len() == a@.len() + b@.len());
            }
        }
        return false;
    }
    let n = a.len();
    let mut i: usize = 0;
    while i < whole.len()
        invariant
            whole@.len() == a@.len() + b@.len(),
            n == a@.len(),
            0 <= i <= whole@.len(),
            forall|j: int| 0 <= j < i ==> whole@[j] == (a@ + b@)[j],
        decreases whole@.len() - i,
    {
        let expected = if i < n {
            a[i]
        } else {
            b[i - n]
        };
        if whole[i] != expected {
            proof {
                assert(whole@[i as int] != (a@ + b@)[i as int]);
            }
            return false;
        }
        i += 1;
    }
    assert(whole@ =~= a@ + b@);
    true
}

impl Tokenizer {
    /// Checks that the parts of the tokenizer agree with each other.
    pub fn validate(&self) -> (r: Result<(), InvalidTokenizer>)
        ensures
            r is Ok <==> self.is_valid(),
            r matches Err(e) ==> explains(
                e,
                self.tokens(),
                self.token_to_id@,
                self.merges@,
                self.ranks@,
            ),
    {
        let ghost tokens = self.tokens();
        let ghost table = self.token_to_id@;
        let ghost merges = self.merges@;
        let ghost ranks = self.ranks@;
        if self.vocab.len() < 256 {
            return Err(InvalidTokenizer::TooFewByteTokens);
        }
        let mut b: usize = 0;
        while b < 256
            invariant
                self.vocab@.len() >= 256,
                tokens == self.tokens(),
                0 <= b <= 256,
                forall|c: int| 0 <= c < b ==> #[trigger] tokens[c] == seq![c as u8],
            decreases 256 - b,
        {
            if !is_byte_token(&self.vocab[b], b as u8) {
                proof {
                    assert(tokens[b as int] != seq![b as u8]);
                }
                return Err(InvalidTokenizer::InvalidByteTokens);
            }
            b += 1;
        }
        assert(has_byte_tokens(tokens));
        if self.token_to_id.len() != self.vocab.len() {
            return Err(InvalidTokenizer::LookupSizeMismatch);
        }
        let mut i: usize = 0;
        while i < self.vocab.len()
            invariant
                tokens == self.tokens(),
                table == self.token_to_id@,
                has_byte_tokens(tokens),
                table.len() == tokens.len(),
                0 <= i <= tokens.len(),
                forall|j: int|
                    0 <= j < i ==> table.contains_key(#[trigger] tokens[j]) && table[tokens[j]] == j
                        as u32,
            decreases tokens.len() - i,
        {
            match self.token_to_id.get(self.vocab[i].as_slice()) {
                Some(id) => {
                    if id != i as u32 {
                        proof {
                            assert(!(table.contains_key(tokens[i as int]) && table[tokens[i as int]]
                                == i as u32));
                        }
                        return Err(InvalidTokenizer::InvalidLookup);
                    }
                },
                None => {
                    proof {
                        assert(!table.contains_key(tokens[i as int]));
                    }
                    return Err(InvalidTokenizer::InvalidLookup);
                },
            }
            i += 1;
        }
        assert(table_matches(tokens, table));
        if self.merges.len() != self.ranks.len() {
            return Err(InvalidTokenizer::MergeRankSizeMismatch);
        }
        let n_ranks = self.ranks.len();
        let mut used_ranks = vec![false; n_ranks];
        let entries = self.merges.entries();
        let mut k: usize = 0;
        while k < entries.len()
            invariant
                tokens == self.tokens(),
                table == self.token_to_id@,
                merges == self.merges@,
                ranks == self.ranks@,
                has_byte_tokens(tokens),
                table_matches(tokens, table),
                merges.len() == ranks.len(),
                n_ranks == ranks.len(),
                used_ranks@.len() == n_ranks,
                0 <= k <= entries@.len(),
                entries@.len() == merges.len(),
                forall|j: int|
                    0 <= j < entries@.len() ==> merges.contains_key(#[trigger] entries@[j].0)
                        && merges[entries@[j].0] == entries@[j].1,
                forall|a: int, c: int| 0 <= a < c < entries@.len() ==> entries@[a].0 != entries@[c].0,
                forall|p: (u32, u32)|
                    merges.contains_key(p) ==> exists|j: int|
                        0 <= j < entries@.len() && #[trigger] entries@[j].0 == p,
                forall|j: int| 0 <= j < k ==> merge_ok(tokens, merges, ranks, #[trigger] entries@[j].0),
                forall|j: int| 0 <= j < k ==> used_ranks@[ranks[#[trigger] entries@[j].0] as int],
                forall|a: int, c: int|
                    0 <= a < c < k ==> ranks[#[trigger] entries@[a].0] != ranks[#[trigger] entries@[c].0],
                forall|r: int|
                    0 <= r < n_ranks && #[trigger] used_ranks@[r] ==> exists|j: int|
                        0 <= j < k && ranks[#[trigger] entries@[j].0] == r,
            decreases entries@.len() - k,
        {
            let (pair, merged_id) = entries[k];
            let ghost p = pair;
            proof {
                assert(merges.contains_key(entries@[k as int].0));
            }
            let rank = match self.ranks.get(pair.0, pair.1) {
                Some(r) => *r,
                None => {
                    return Err(InvalidTokenizer::MissingRank);
                },
            };
            if rank >= used_ranks.len() || used_ranks[rank] {
                proof {
                    assert(merges.contains_key(p) && ranks.contains_key(p) && ranks[p] == rank);
                    if rank < used_ranks@.len() {
                        let j = choose|j: int| 0 <= j < k && ranks[#[trigger] entries@[j].0] == rank;
                        let q = entries@[j].0;
                        assert(q != p);
                        assert(merges.contains_key(q));
                        assert(merge_ok(tokens, merges, ranks, q));
                        assert(merges.contains_key(q) && q != p && ranks.contains_key(q) && ranks[q]
                            == ranks[p]);
                    }
                }
                return Err(InvalidTokenizer::InvalidRanks);
            }
            used_ranks.set(rank, true);
            if pair.0 as usize >= self.vocab.len() {
                return Err(InvalidTokenizer::InvalidLeftId);
            }
            if pair.1 as usize >= self.vocab.len() {
                return Err(InvalidTokenizer::InvalidRightId);
            }
            if merged_id as usize >= self.vocab.len() {
                return Err(InvalidTokenizer::InvalidMergedId);
            }
            let left_token = &self.vocab[pair.0 as usize];
            let right_token = &self.vocab[pair.1 as usize];
            let merged_token = &self.vocab[merged_id as usize];
            if !is_concat(merged_token.as_slice(), left_token.as_slice(), right_token.as_slice()) {
                return Err(InvalidTokenizer::IncorrectMergedBytes);
            }
            proof {
                assert(merge_ok(tokens, merges, ranks, p));
            }
            k += 1;
        }
        proof {
            assert forall|p: (u32, u32)| #[trigger] merges.contains_key(p) implies merge_ok(
                tokens,
                merges,
                ranks,
                p,
            ) by {
                let j = choose|j: int| 0 <= j < entries@.len() && #[trigger] entries@[j].0 == p;
            }
            assert forall|p: (u32, u32), q: (u32, u32)|
                #[trigger] merges.contains_key(p) && #[trigger] merges.contains_key(q) && p != q implies ranks[p]
                != ranks[q] by {
                let a = choose|j: int| 0 <= j < entries@.len() && #[trigger] entries@[j].0 == p;
                let c = choose|j: int| 0 <= j < entries@.len() && #[trigger] entries@[j].0 == q;
                if a < c {
                } else {
                }
            }
            assert(merges_match(tokens, merges, ranks));
        }
        Ok(())
    }
}

/// The version of the saved-tokenizer format.
pub const FILE_VERSION: u32 = 1;

/// One saved merge: the pair `(left, right)`, the ID of its merged token,
/// and its rank.
#[derive(Debug, Clone, Copy, PartialEq, Eq)]
pub struct MergeFile {
    pub left: u32,
    pub right: u32,
    pub merged_id: u32,
    pub rank: usize,
}

/// The content of a saved tokenizer: the format version, the vocabulary in
/// ID order, and the merges in rank order.
#[derive(Debug, Clone, PartialEq, Eq)]
pub struct TokenizerFile {
    pub version: u32,
    pub vocab: Vec<Vec<u8>>,
    pub merges: Vec<MergeFile>,
}

/// The pair of a saved merge.
pub open spec fn record_pair(m: MergeFile) -> (u32, u32) {
    (m.left, m.right)
}

/// The tokens of a saved vocabulary.
pub open spec fn file_tokens(f: TokenizerFile) -> Seq<Seq<u8>> {
    f.vocab@.map_values(|t: Vec<u8>| t@)
}

/// `f` is what saving `t` writes: the current version, the vocabulary, and
/// for each rank `i` the merge that has rank `i`.
pub open spec fn saved_from(t: Tokenizer, f: TokenizerFile) -> bool {
    &&& f.version == FILE_VERSION
    &&& file_tokens(f) == t.tokens()
    &&& f.merges@.len() == t.merges@.len()
    &&& forall|i: int|
        #![trigger f.merges@[i]]
        0 <= i < f.merges@.len() ==> {
            let m = f.merges@[i];
            &&& m.rank == i
            &&& t.merges@.contains_key(record_pair(m))
            &&& t.merges@[record_pair(m)] == m.merged_id
            &&& t.ranks@.contains_key(record_pair(m))
            &&& t.ranks@[record_pair(m)] == i
        }
}

/// A copy of a vocabulary.
fn copy_vocab(vocab: &Vec<Vec<u8>>) -> (r: Vec<Vec<u8>>)
    ensures
        r@.map_values(|t: Vec<u8>| t@) == vocab@.map_values(|t: Vec<u8>| t@),
{
    let mut r: Vec<Vec<u8>> = Vec::with_capacity(vocab.len());
    let mut i: usize = 0;
    while i < vocab.len()
        invariant
            0 <= i <= vocab@.len(),
            r@.len() == i,
            forall|j: int| 0 <= j < i ==> (#[trigger] r@[j])@ == vocab@[j]@,
        decreases vocab@.len() - i,
    {
        r.push(vocab[i].clone());
        i += 1;
    }
    proof {
        assert(r@.map_values(|t: Vec<u8>| t@) =~= vocab@.map_values(|t: Vec<u8>| t@));
    }
    r
}

impl Tokenizer {
    /// The content that saving the tokenizer writes, after checking that
    /// its parts agree.
    pub fn to_file(&self) -> (r: Result<TokenizerFile, InvalidTokenizer>)
        ensures
            r is Ok <==> self.is_valid(),
            r matches Err(e) ==> explains(
                e,
                self.tokens(),
                self.token_to_id@,
                self.merges@,
                self.ranks@,
            ),
            r matches Ok(f) ==> saved_from(*self, f),
    {
        match self.validate() {
            Ok(()) => {},
            Err(e) => {
                return Err(e);
            },
        }
        let ghost merges = self.merges@;
        let ghost ranks = self.ranks@;
        proof {
            self.merges.lemma_finite();
            self.ranks.lemma_finite();
            lemma_valid_same_pairs(self.tokens(), self.token_to_id@, merges, ranks);
        }
        let n = self.merges.len();
        let entries = self.merges.entries();
        let placeholder = MergeFile { left: 0, right: 0, merged_id: 0, rank: 0 };
        let mut records: Vec<MergeFile> = vec![placeholder; n];
        let mut k: usize = 0;
        while k < entries.len()
            invariant
                merges == self.merges@,
                ranks == self.ranks@,
                merges.dom() == ranks.dom(),
                merges_match(self.tokens(), merges, ranks),
                n == merges.len(),
                records@.len() == n,
                entries@.len() == n,
                0 <= k <= n,
                forall|j: int|
                    0 <= j < entries@.len() ==> merges.contains_key(#[trigger] entries@[j].0)
                        && merges[entries@[j].0] == entries@[j].1,
                forall|a: int, c: int| 0 <= a < c < entries@.len() ==> entries@[a].0 != entries@[c].0,
                forall|j: int|
                    0 <= j < k ==> #[trigger] records@[ranks[entries@[j].0] as int] == (MergeFile {
                        left: entries@[j].0.0,
                        right: entries@[j].0.1,
                        merged_id: entries@[j].1,
                        rank: ranks[entries@[j].0],
                    }),
            decreases n - k,
        {
            let (pair, merged_id) = entries[k];
            proof {
                assert(merges.contains_key(entries@[k as int].0));
                assert(merge_ok(self.tokens(), merges, ranks, pair));
            }
            let rank = match self.ranks.get(pair.0, pair.1) {
                Some(r) => *r,
                None => 0,
            };
            records.set(rank, MergeFile { left: pair.0, right: pair.1, merged_id, rank });
            proof {
                assert forall|j: int| 0 <= j < k implies ranks[#[trigger] entries@[j].0] != rank by {
                    assert(merges.contains_key(entries@[j].0));
                }
            }
            k += 1;
        }
        proof {
            let idx = vstd::set_lib::set_int_range(0, n as int);
            vstd::set_lib::lemma_int_range(0, n as int);
            let f = |j: int| ranks[entries@[j].0] as int;
            assert forall|a: int, c: int|
                idx.contains(a) && idx.contains(c) && #[trigger] f(a) == #[trigger] f(c) implies a
                    == c by {
                if a != c {
                    assert(entries@[a].0 != entries@[c].0);
                    assert(merges.contains_key(entries@[a].0));
                    assert(merges.contains_key(entries@[c].0));
                }
            }
            vstd::set_lib::lemma_map_size(idx, idx.map(f), f);
            assert forall|r: int| #[trigger] idx.map(f).contains(r) implies idx.contains(r) by {
                let j = choose|j: int| idx.contains(j) && f(j) == r;
                assert(merges.contains_key(entries@[j].0));
                assert(merge_ok(self.tokens(), merges, ranks, entries@[j].0));
            }
            vstd::set_lib::lemma_subset_equality(idx.map(f), idx);
            assert forall|i: int| 0 <= i < n implies ({
                let m = #[trigger] records@[i];
                &&& m.rank == i
                &&& merges.contains_key(record_pair(m))
                &&& merges[record_pair(m)] == m.merged_id
                &&& ranks.contains_key(record_pair(m))
                &&& ranks[record_pair(m)] == i
            }) by {
                assert(idx.contains(i));
                assert(idx.map(f).contains(i));
                let j = choose|j: int| idx.contains(j) && f(j) == i;
                assert(records@[ranks[entries@[j].0] as int] == records@[i]);
                assert(merges.contains_key(entries@[j].0));
            }
        }
        let vocab = copy_vocab(&self.vocab);
        Ok(TokenizerFile { version: FILE_VERSION, vocab, merges: records })
    }
}

/// Why saved content could not be loaded.
#[derive(Debug, Clone, Copy, PartialEq, Eq)]
pub enum LoadError {
    UnsupportedVersion,
    VocabularyTooLarge,
    DuplicateToken,
    DuplicateMerge,
    Invalid(InvalidTokenizer),
}

/// Position `i` of the vocabulary cannot be loaded: its ID does not fit in
/// a `u32`, or its token occurs earlier.
pub open spec fn bad_token_at(tokens: Seq<Seq<u8>>, i: int) -> bool {
    &&& 0 <= i < tokens.len()
    &&& (i > u32::MAX || exists|j: int| 0 <= j < i && tokens[j] == tokens[i])
}

/// The first position of the vocabulary that cannot be loaded.
pub open spec fn first_bad_token(tokens: Seq<Seq<u8>>) -> Option<int> {
    if exists|i: int| bad_token_at(tokens, i) {
        Some(
            choose|i: int|
                bad_token_at(tokens, i) && forall|j: int| 0 <= j < i ==> !bad_token_at(tokens, j),
        )
    } else {
        None
    }
}

/// Two saved merges have the same pair.
pub open spec fn has_duplicate_merge(records: Seq<MergeFile>) -> bool {
    exists|a: int, b: int|
        0 <= a < b < records.len() && record_pair(#[trigger] records[a]) == record_pair(
            #[trigger] records[b],
        )
}

/// The token table of a vocabulary without repeated tokens.
pub open spec fn loaded_table(tokens: Seq<Seq<u8>>) -> Map<Seq<u8>, u32> {
    Map::new(
        |k: Seq<u8>| exists|i: int| 0 <= i < tokens.len() && tokens[i] == k,
        |k: Seq<u8>| (choose|i: int| 0 <= i < tokens.len() && tokens[i] == k) as u32,
    )
}

/// The merge map of saved merges without repeated pairs.
pub open spec fn loaded_merges(records: Seq<MergeFile>) -> Map<(u32, u32), u32> {
    Map::new(
        |p: (u32, u32)| exists|i: int| 0 <= i < records.len() && record_pair(records[i]) == p,
        |p: (u32, u32)|
            records[choose|i: int| 0 <= i < records.len() && record_pair(records[i]) == p].merged_id,
    )
}

/// The rank map of saved merges without repeated pairs.
pub open spec fn loaded_ranks(records: Seq<MergeFile>) -> Map<(u32, u32), usize> {
    Map::new(
        |p: (u32, u32)| exists|i: int| 0 <= i < records.len() && record_pair(records[i]) == p,
        |p: (u32, u32)|
            records[choose|i: int| 0 <= i < records.len() && record_pair(records[i]) == p].rank,
    )
}

/// The table built from the first `n` tokens while none repeats.
proof fn lemma_loaded_table_step(tokens: Seq<Seq<u8>>, n: int)
    requires
        0 <= n < tokens.len(),
        n <= u32::MAX,
        forall|j: int| 0 <= j < n ==> !bad_token_at(tokens, j),
        !(exists|j: int| 0 <= j < n && tokens[j] == tokens[n]),
    ensures
        loaded_table(tokens.take(n + 1)) == loaded_table(tokens.take(n)).insert(tokens[n], n as u32),
        forall|j: int| 0 <= j <= n ==> !bad_token_at(tokens, j),
{
    let a = tokens.take(n);
    let b = tokens.take(n + 1);
    assert forall|k: Seq<u8>| #[trigger] loaded_table(b).contains_key(k) implies loaded_table(b)[k]
        == loaded_table(a).insert(tokens[n], n as u32)[k] by {
        let i = choose|i: int| 0 <= i < b.len() && b[i] == k;
        if k == tokens[n] {
            if i != n {
                assert(a[i] == tokens[n]);
            }
        } else {
            assert(a[i] == k);
            let i2 = choose|i: int| 0 <= i < a.len() && a[i] == k;
            if i != i2 {
                if i < i2 {
                    assert(bad_token_at(tokens, i2));
                } else {
                    assert(bad_token_at(tokens, i));
                }
            }
        }
    }
    assert forall|k: Seq<u8>| #[trigger] loaded_table(b).contains_key(k) <==> loaded_table(a).insert(
        tokens[n],
        n as u32,
    ).contains_key(k) by {
        if loaded_table(a).contains_key(k) {
            let i = choose|i: int| 0 <= i < a.len() && a[i] == k;
            assert(b[i] == k);
        }
        if k == tokens[n] {
            assert(b[n] == k);
        }
        if loaded_table(b).contains_key(k) && k != tokens[n] {
            let i = choose|i: int| 0 <= i < b.len() && b[i] == k;
            assert(a[i] == k);
        }
    }
    assert(loaded_table(b) =~= loaded_table(a).insert(tokens[n], n as u32));
}

/// The merge and rank maps built from the first `n` saved merges while no
/// pair repeats.
proof fn lemma_loaded_merges_step(records: Seq<MergeFile>, n: int)
    requires
        0 <= n < records.len(),
        !has_duplicate_merge(records.take(n)),
        !(exists|j: int| 0 <= j < n && record_pair(records[j]) == record_pair(records[n])),
    ensures
        loaded_merges(records.take(n + 1)) == loaded_merges(records.take(n)).insert(
            record_pair(records[n]),
            records[n].merged_id,
        ),
        loaded_ranks(records.take(n + 1)) == loaded_ranks(records.take(n)).insert(
            record_pair(records[n]),
            records[n].rank,
        ),
        !has_duplicate_merge(records.take(n + 1)),
{
    let a = records.take(n);
    let b = records.take(n + 1);
    let q = record_pair(records[n]);
    assert forall|x: int, y: int|
        0 <= x < y < b.len() implies record_pair(#[trigger] b[x]) != record_pair(#[trigger] b[y]) by {
        if y < n {
            assert(a[x] == b[x] && a[y] == b[y]);
        }
    }
    assert forall|p: (u32, u32)| #[trigger] loaded_merges(b).contains_key(p) <==> loaded_merges(
        a,
    ).insert(q, records[n].merged_id).contains_key(p) by {
        if loaded_merges(a).contains_key(p) {
            let i = choose|i: int| 0 <= i < a.len() && record_pair(a[i]) == p;
            assert(record_pair(b[i]) == p);
        }
        if p == q {
            assert(record_pair(b[n]) == p);
        }
        if loaded_merges(b).contains_key(p) && p != q {
            let i = choose|i: int| 0 <= i < b.len() && record_pair(b[i]) == p;
            assert(record_pair(a[i]) == p);
        }
    }
    assert forall|p: (u32, u32)| #[trigger] loaded_merges(b).contains_key(p) implies loaded_merges(b)[p]
        == loaded_merges(a).insert(q, records[n].merged_id)[p] && loaded_ranks(b)[p] == loaded_ranks(
        a,
    ).insert(q, records[n].rank)[p] by {
        let i = choose|i: int| 0 <= i < b.len() && record_pair(b[i]) == p;
        if p == q {
            if i != n {
                assert(record_pair(a[i]) == q);
            }
        } else {
            let i2 = choose|i: int| 0 <= i < a.len() && record_pair(a[i]) == p;
            assert(record_pair(a[i]) == p);
            if i != i2 {
                if i < i2 {
                    assert(record_pair(a[i]) == record_pair(a[i2]));
                } else {
                    assert(record_pair(a[i2]) == record_pair(a[i]));
                }
            }
        }
    }
    assert(loaded_merges(b) =~= loaded_merges(a).insert(q, records[n].merged_id));
    assert(loaded_ranks(b).dom() =~= loaded_merges(b).dom());
    assert(loaded_ranks(a).dom() =~= loaded_merges(a).dom());
    assert(loaded_ranks(b) =~= loaded_ranks(a).insert(q, records[n].rank));
}

impl Tokenizer {
    /// The tokenizer that saved content describes: the version must be the
    /// current one, no token may repeat and every ID must fit in a `u32`,
    /// no merge pair may repeat, and the parts must agree.
    pub fn from_file(file: TokenizerFile) -> (r: Result<Tokenizer, LoadError>)
        ensures
            ({
                let tokens = file_tokens(file);
                let records = file.merges@;
                if file.version != FILE_VERSION {
                    r == Err::<Tokenizer, LoadError>(LoadError::UnsupportedVersion)
                } else if first_bad_token(tokens) is Some {
                    if first_bad_token(tokens)->0 > u32::MAX {
                        r == Err::<Tokenizer, LoadError>(LoadError::VocabularyTooLarge)
                    } else {
                        r == Err::<Tokenizer, LoadError>(LoadError::DuplicateToken)
                    }
                } else if has_duplicate_merge(records) {
                    r == Err::<Tokenizer, LoadError>(LoadError::DuplicateMerge)
                } else if parts_valid(
                    tokens,
                    loaded_table(tokens),
                    loaded_merges(records),
                    loaded_ranks(records),
                ) {
                    &&& r is Ok
                    &&& r->Ok_0.tokens() == tokens
                    &&& r->Ok_0.token_to_id@ == loaded_table(tokens)
                    &&& r->Ok_0.merges@ == loaded_merges(records)
                    &&& r->Ok_0.ranks@ == loaded_ranks(records)
                } else {
                    r matches Err(LoadError::Invalid(e)) && explains(
                        e,
                        tokens,
                        loaded_table(tokens),
                        loaded_merges(records),
                        loaded_ranks(records),
                    )
                }
            }),
    {
        if file.version != FILE_VERSION {
            return Err(LoadError::UnsupportedVersion);
        }
        let ghost tokens = file_tokens(file);
        let ghost records = file.merges@;
        let mut token_to_id = TokenTable::new();
        let mut id: usize = 0;
        proof {
            assert(loaded_table(tokens.take(0)) =~= Map::<Seq<u8>, u32>::empty());
        }
        while id < file.vocab.len()
            invariant
                file.version == FILE_VERSION,
                tokens == file_tokens(file),
                0 <= id <= tokens.len(),
                forall|j: int| 0 <= j < id ==> !bad_token_at(tokens, j),
                token_to_id@ == loaded_table(tokens.take(id as int)),
            decreases tokens.len() - id,
        {
            if id > u32::MAX as usize {
                proof {
                    assert(bad_token_at(tokens, id as int));
                    assert(bad_token_at(tokens, id as int) && forall|j: int|
                        0 <= j < id ==> !bad_token_at(tokens, j));
                    let w = choose|i: int|
                        bad_token_at(tokens, i) && forall|j: int| 0 <= j < i ==> !bad_token_at(tokens, j);
                    if w < id {
                    } else if w > id {
                        assert(!bad_token_at(tokens, id as int));
                    }
                    assert(first_bad_token(tokens) == Some(id as int));
                }
                return Err(LoadError::VocabularyTooLarge);
            }
            let token = file.vocab[id].clone();
            proof {
                assert(token@ == tokens[id as int]);
            }
            match token_to_id.insert(token, id as u32) {
                Some(_) => {
                    proof {
                        let i = choose|i: int| 0 <= i < id && tokens.take(id as int)[i] == tokens[id as int];
                        assert(tokens[i] == tokens[id as int]);
                        assert(bad_token_at(tokens, id as int) && forall|j: int|
                            0 <= j < id ==> !bad_token_at(tokens, j));
                        let w = choose|i: int|
                            bad_token_at(tokens, i) && forall|j: int| 0 <= j < i ==> !bad_token_at(tokens, j);
                        if w < id {
                        } else if w > id {
                            assert(!bad_token_at(tokens, id as int));
                        }
                        assert(first_bad_token(tokens) == Some(id as int));
                    }
                    return Err(LoadError::DuplicateToken);
                },
                None => {
                    proof {
                        if exists|j: int| 0 <= j < id && tokens[j] == tokens[id as int] {
                            let j = choose|j: int| 0 <= j < id && tokens[j] == tokens[id as int];
                            assert(tokens.take(id as int)[j] == tokens[id as int]);
                        }
                        lemma_loaded_table_step(tokens, id as int);
                    }
                },
            }
            id += 1;
        }
        proof {
            assert(tokens.take(tokens.len() as int) =~= tokens);
            assert(!(exists|i: int| bad_token_at(tokens, i)));
            assert(first_bad_token(tokens) is None);
        }
        let mut merges: PairMap<u32> = PairMap::new();
        let mut ranks: PairMap<usize> = PairMap::new();
        let mut k: usize = 0;
        proof {
            assert(loaded_merges(records.take(0)) =~= Map::<(u32, u32), u32>::empty());
            assert(loaded_ranks(records.take(0)) =~= Map::<(u32, u32), usize>::empty());
        }
        while k < file.merges.len()
            invariant
                file.version == FILE_VERSION,
                tokens == file_tokens(file),
                first_bad_token(tokens) is None,
                records == file.merges@,
                0 <= k <= records.len(),
                !has_duplicate_merge(records.take(k as int)),
                merges@ == loaded_merges(records.take(k as int)),
                ranks@ == loaded_ranks(records.take(k as int)),
            decreases records.len() - k,
        {
            let m = file.merges[k];
            match merges.insert(m.left, m.right, m.merged_id) {
                Some(_) => {
                    proof {
                        let i = choose|i: int|
                            0 <= i < k && record_pair(records.take(k as int)[i]) == record_pair(m);
                        assert(record_pair(records[i]) == record_pair(records[k as int]));
                        assert(has_duplicate_merge(records));
                    }
                    return Err(LoadError::DuplicateMerge);
                },
                None => {},
            }
            ranks.insert(m.left, m.right, m.rank);
            proof {
                if exists|j: int| 0 <= j < k && record_pair(records[j]) == record_pair(records[k as int]) {
                    let j = choose|j: int| 0 <= j < k && record_pair(records[j]) == record_pair(
                        records[k as int],
                    );
                    assert(record_pair(records.take(k as int)[j]) == record_pair(m));
                }
                lemma_loaded_merges_step(records, k as int);
            }
            k += 1;
        }
        proof {
            assert(records.take(records.len() as int) =~= records);
        }
        let tokenizer = Tokenizer::from_parts(file.vocab, token_to_id, merges, ranks);
        match tokenizer.validate() {
            Ok(()) => Ok(tokenizer),
            Err(e) => Err(LoadError::Invalid(e)),
        }
    }
}

/// Loading gives back what saving wrote: for a tokenizer whose parts agree
/// (and whose IDs fit in a `u32`), the saved content passes every check of
/// [`Tokenizer::from_file`] and describes the same vocabulary, token table,
/// merges and ranks.
pub proof fn lemma_save_load_roundtrip(t: Tokenizer, f: TokenizerFile)
    requires
        t.is_valid(),
        t.vocab@.len() <= u32::MAX + 1,
        saved_from(t, f),
    ensures
        f.version == FILE_VERSION,
        first_bad_token(file_tokens(f)) is None,
        !has_duplicate_merge(f.merges@),
        file_tokens(f) == t.tokens(),
        loaded_table(file_tokens(f)) == t.token_to_id@,
        loaded_merges(f.merges@) == t.merges@,
        loaded_ranks(f.merges@) == t.ranks@,
        parts_valid(
            file_tokens(f),
            loaded_table(file_tokens(f)),
            loaded_merges(f.merges@),
            loaded_ranks(f.merges@),
        ),
{
    let tokens = t.tokens();
    let table = t.token_to_id@;
    let merges = t.merges@;
    let ranks = t.ranks@;
    let records = f.merges@;
    let n = tokens.len() as int;
    t.merges.lemma_finite();
    t.ranks.lemma_finite();
    t.token_to_id.lemma_finite();
    lemma_valid_same_pairs(tokens, table, merges, ranks);
    lemma_valid_distinct_tokens(tokens, table, merges, ranks);
    // No token repeats, and every ID fits in a `u32`.
    assert forall|i: int| !bad_token_at(tokens, i) by {
        if bad_token_at(tokens, i) && i <= u32::MAX {
            let j = choose|j: int| 0 <= j < i && tokens[j] == tokens[i];
        }
    }
    // No merge pair repeats: the pair of record `i` has rank `i`.
    assert forall|a: int, b: int|
        0 <= a < b < records.len() implies record_pair(#[trigger] records[a]) != record_pair(
            #[trigger] records[b],
        ) by {
        assert(ranks[record_pair(records[a])] == a);
        assert(ranks[record_pair(records[b])] == b);
    }
    // The table.
    let idx = vstd::set_lib::set_int_range(0, n);
    vstd::set_lib::lemma_int_range(0, n);
    let g = |i: int| tokens[i];
    assert forall|a: int, b: int| idx.contains(a) && idx.contains(b) && #[trigger] g(a) == #[trigger] g(
        b,
    ) implies a == b by {}
    vstd::set_lib::lemma_map_size(idx, idx.map(g), g);
    assert forall|k: Seq<u8>| #[trigger] idx.map(g).contains(k) implies table.dom().contains(k) by {
        let i = choose|i: int| idx.contains(i) && g(i) == k;
        assert(table.contains_key(tokens[i]));
    }
    vstd::set_lib::lemma_subset_equality(idx.map(g), table.dom());
    assert forall|k: Seq<u8>| #[trigger] loaded_table(tokens).contains_key(k) == table.contains_key(k) by {
        if table.contains_key(k) {
            assert(idx.map(g).contains(k));
            let i = choose|i: int| idx.contains(i) && g(i) == k;
            assert(0 <= i < tokens.len() && tokens[i] == k);
        }
    }
    assert forall|k: Seq<u8>| #[trigger] loaded_table(tokens).contains_key(k) implies loaded_table(
        tokens,
    )[k] == table[k] by {
        let i = choose|i: int| 0 <= i < tokens.len() && tokens[i] == k;
        assert(table[tokens[i]] == i as u32);
    }
    assert(loaded_table(tokens) =~= table);
    // The merges and the ranks.
    assert forall|p: (u32, u32)| #[trigger] loaded_merges(records).contains_key(p) == merges.contains_key(
        p,
    ) by {
        if loaded_merges(records).contains_key(p) {
            let i = choose|i: int| 0 <= i < records.len() && record_pair(records[i]) == p;
            assert(merges.contains_key(record_pair(records[i])));
        }
        if merges.contains_key(p) {
            assert(merge_ok(tokens, merges, ranks, p));
            let r = ranks[p] as int;
            let q = record_pair(records[r]);
            assert(merges.contains_key(q) && ranks[q] == r);
            assert(q == p);
        }
    }
    assert forall|p: (u32, u32)| #[trigger] loaded_merges(records).contains_key(p) implies loaded_merges(
        records,
    )[p] == merges[p] && loaded_ranks(records)[p] == ranks[p] by {
        let i = choose|i: int| 0 <= i < records.len() && record_pair(records[i]) == p;
        assert(records[i].rank == i);
    }
    assert(loaded_merges(records) =~= merges);
    assert(loaded_ranks(records).dom() =~= loaded_merges(records).dom());
    assert(loaded_ranks(records) =~= ranks);
}

} // verus!
