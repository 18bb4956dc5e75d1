//! The mathematical model of byte-pair encoding: replacing a pair of IDs
//! in a sequence, counting adjacent pairs, and spelling out a sequence of
//! IDs as the bytes of their tokens.

use vstd::prelude::*;

verus! {

/// The byte sequence `bytes` as a sequence of token IDs, one per byte.
pub open spec fn byte_ids(bytes: Seq<u8>) -> Seq<u32> {
    bytes.map_values(|b: u8| b as u32)
}

/// The adjacent pair that starts at position `i` of `s`.
pub open spec fn window(s: Seq<u32>, i: int) -> (u32, u32) {
    (s[i], s[i + 1])
}

/// Whether `p` occurs as an adjacent pair somewhere in `s`.
pub open spec fn pair_occurs(s: Seq<u32>, p: (u32, u32)) -> bool {
    exists|i: int| 0 <= i < s.len() - 1 && #[trigger] window(s, i) == p
}

/// `s` with every occurrence of the pair `(left, right)` replaced by
/// `merged`, scanning from left to right: a match is replaced as soon as
/// it is found, so overlapping occurrences such as the second pair of
/// `[a, a, a]` for `(a, a)` are not replaced.
pub open spec fn replace_pairs(s: Seq<u32>, left: u32, right: u32, merged: u32) -> Seq<u32>
    decreases s.len(),
{
    if s.len() < 2 {
        s
    } else if s[0] == left && s[1] == right {
        seq![merged] + replace_pairs(s.skip(2), left, right, merged)
    } else {
        seq![s[0]] + replace_pairs(s.skip(1), left, right, merged)
    }
}

/// One step of the left-to-right replacement, as seen from position `i`.
pub proof fn lemma_replace_step(s: Seq<u32>, i: int, left: u32, right: u32, merged: u32)
    requires
        0 <= i < s.len(),
    ensures
        (i + 1 < s.len() && s[i] == left && s[i + 1] == right) ==> replace_pairs(
            s.skip(i),
            left,
            right,
            merged,
        ) == seq![merged] + replace_pairs(s.skip(i + 2), left, right, merged),
        !(i + 1 < s.len() && s[i] == left && s[i + 1] == right) ==> replace_pairs(
            s.skip(i),
            left,
            right,
            merged,
        ) == seq![s[i]] + replace_pairs(s.skip(i + 1), left, right, merged),
{
    let t = s.skip(i);
    assert(t.skip(1) =~= s.skip(i + 1));
    if i + 2 <= s.len() {
        assert(t.skip(2) =~= s.skip(i + 2));
    }
    if t.len() < 2 {
        assert(s.skip(i + 1) =~= Seq::<u32>::empty());
        assert(t =~= seq![s[i]]);
        assert(seq![s[i]] + Seq::<u32>::empty() =~= seq![s[i]]);
    }
}

/// Replacement never makes a sequence longer, and makes it strictly
/// shorter when the pair occurs.
pub proof fn lemma_replace_len(s: Seq<u32>, left: u32, right: u32, merged: u32)
    ensures
        replace_pairs(s, left, right, merged).len() <= s.len(),
        pair_occurs(s, (left, right)) ==> replace_pairs(s, left, right, merged).len() < s.len(),
    decreases s.len(),
{
    if s.len() < 2 {
    } else if s[0] == left && s[1] == right {
        lemma_replace_len(s.skip(2), left, right, merged);
    } else {
        lemma_replace_len(s.skip(1), left, right, merged);
        if pair_occurs(s, (left, right)) {
            let i = choose|i: int| 0 <= i < s.len() - 1 && #[trigger] window(s, i) == (left, right);
            assert(i != 0);
            assert(window(s.skip(1), i - 1) == (left, right));
        }
    }
}

/// The number of positions at which `p` occurs as an adjacent pair of `s`
/// (overlapping occurrences counted separately).
pub open spec fn pair_count(s: Seq<u32>, p: (u32, u32)) -> nat
    decreases s.len(),
{
    if s.len() < 2 {
        0
    } else {
        pair_count(s.drop_last(), p) + if window(s, s.len() - 2) == p {
            1nat
        } else {
            0nat
        }
    }
}

/// The adjacent pairs of `s`, each with its number of occurrences.
pub open spec fn pair_counts(s: Seq<u32>) -> Map<(u32, u32), usize> {
    Map::new(|p: (u32, u32)| pair_count(s, p) > 0, |p: (u32, u32)| pair_count(s, p) as usize)
}

/// A pair occurs at most once per position.
pub proof fn lemma_pair_count_bound(s: Seq<u32>, p: (u32, u32))
    ensures
        pair_count(s, p) <= if s.len() < 2 {
            0
        } else {
            s.len() - 1
        },
        pair_count(s, p) > 0 <==> pair_occurs(s, p),
    decreases s.len(),
{
    if s.len() >= 2 {
        let t = s.drop_last();
        lemma_pair_count_bound(t, p);
        if pair_occurs(s, p) && window(s, s.len() - 2) != p {
            let i = choose|i: int| 0 <= i < s.len() - 1 && #[trigger] window(s, i) == p;
            assert(window(t, i) == p);
        }
        if pair_occurs(t, p) {
            let i = choose|i: int| 0 <= i < t.len() - 1 && #[trigger] window(t, i) == p;
            assert(window(s, i) == p);
        }
        if window(s, s.len() - 2) == p {
            assert(pair_occurs(s, p));
        }
    }
}

/// The bytes spelled out by the token IDs `ids` in the vocabulary `vocab`.
pub open spec fn token_bytes(vocab: Seq<Seq<u8>>, ids: Seq<u32>) -> Seq<u8>
    decreases ids.len(),
{
    if ids.len() == 0 {
        Seq::empty()
    } else {
        token_bytes(vocab, ids.drop_last()) + vocab[ids.last() as int]
    }
}

/// Spelling out a concatenation is concatenating the spellings.
pub proof fn lemma_token_bytes_concat(vocab: Seq<Seq<u8>>, a: Seq<u32>, b: Seq<u32>)
    ensures
        token_bytes(vocab, a + b) == token_bytes(vocab, a) + token_bytes(vocab, b),
    decreases b.len(),
{
    if b.len() == 0 {
        assert(a + b =~= a);
        assert(token_bytes(vocab, a) + Seq::<u8>::empty() =~= token_bytes(vocab, a));
    } else {
        lemma_token_bytes_concat(vocab, a, b.drop_last());
        assert((a + b).drop_last() =~= a + b.drop_last());
        assert(token_bytes(vocab, a) + token_bytes(vocab, b.drop_last()) + vocab[b.last() as int]
            =~= token_bytes(vocab, a) + (token_bytes(vocab, b.drop_last()) + vocab[b.last() as int]));
    }
}

/// The spelling of a single ID is its token.
pub proof fn lemma_token_bytes_single(vocab: Seq<Seq<u8>>, id: u32)
    ensures
        token_bytes(vocab, seq![id]) == vocab[id as int],
{
    assert(seq![id].drop_last() =~= Seq::<u32>::empty());
    assert(token_bytes(vocab, Seq::<u32>::empty()) == Seq::<u8>::empty());
    assert(Seq::<u8>::empty() + vocab[id as int] =~= vocab[id as int]);
}

/// Replacing a pair by an ID whose token is the concatenation of the pair's
/// tokens leaves the spelled-out bytes unchanged.
pub proof fn lemma_replace_keeps_bytes(
    vocab: Seq<Seq<u8>>,
    s: Seq<u32>,
    left: u32,
    right: u32,
    merged: u32,
)
    requires
        vocab[merged as int] == vocab[left as int] + vocab[right as int],
    ensures
        token_bytes(vocab, replace_pairs(s, left, right, merged)) == token_bytes(vocab, s),
    decreases s.len(),
{
    if s.len() < 2 {
    } else if s[0] == left && s[1] == right {
        let rest = s.skip(2);
        lemma_replace_keeps_bytes(vocab, rest, left, right, merged);
        lemma_token_bytes_concat(vocab, seq![merged], replace_pairs(rest, left, right, merged));
        lemma_token_bytes_single(vocab, merged);
        assert(s =~= seq![left] + seq![right] + rest);
        lemma_token_bytes_concat(vocab, seq![left] + seq![right], rest);
        lemma_token_bytes_concat(vocab, seq![left], seq![right]);
        lemma_token_bytes_single(vocab, left);
        lemma_token_bytes_single(vocab, right);
        assert(vocab[left as int] + vocab[right as int] + token_bytes(vocab, rest) =~= vocab[left
            as int] + (vocab[right as int] + token_bytes(vocab, rest)));
    } else {
        let rest = s.skip(1);
        lemma_replace_keeps_bytes(vocab, rest, left, right, merged);
        lemma_token_bytes_concat(vocab, seq![s[0]], replace_pairs(rest, left, right, merged));
        assert(s =~= seq![s[0]] + rest);
        lemma_token_bytes_concat(vocab, seq![s[0]], rest);
    }
}

/// Every ID of `ids` names a token of a vocabulary of `n` tokens.
pub open spec fn ids_below(ids: Seq<u32>, n: int) -> bool {
    forall|i: int| 0 <= i < ids.len() ==> (#[trigger] ids[i] as int) < n
}

/// Replacement keeps every ID below `n` when the merged ID is below `n`.
pub proof fn lemma_replace_ids_below(s: Seq<u32>, left: u32, right: u32, merged: u32, n: int)
    requires
        ids_below(s, n),
        merged < n,
    ensures
        ids_below(replace_pairs(s, left, right, merged), n),
    decreases s.len(),
{
    if s.len() < 2 {
    } else if s[0] == left && s[1] == right {
        lemma_replace_ids_below(s.skip(2), left, right, merged, n);
        let r = replace_pairs(s.skip(2), left, right, merged);
        assert forall|i: int| 0 <= i < 1 + r.len() implies (#[trigger] (seq![merged] + r)[i]) < n by {
            if i > 0 {
                assert((seq![merged] + r)[i] == r[i - 1]);
            }
        }
    } else {
        lemma_replace_ids_below(s.skip(1), left, right, merged, n);
        let r = replace_pairs(s.skip(1), left, right, merged);
        assert forall|i: int| 0 <= i < 1 + r.len() implies (#[trigger] (seq![s[0]] + r)[i]) < n by {
            if i > 0 {
                assert((seq![s[0]] + r)[i] == r[i - 1]);
            }
        }
    }
}

/// The pair at position `i` of `ids` has a merge rank that the encoder
/// can select (ranks equal to `usize::MAX` are never selected).
pub open spec fn mergeable_at(ids: Seq<u32>, ranks: Map<(u32, u32), usize>, i: int) -> bool {
    &&& 0 <= i < ids.len() - 1
    &&& ranks.contains_key(window(ids, i))
    &&& ranks[window(ids, i)] < usize::MAX
}

/// Position `i` holds the pair the encoder merges next: the selectable
/// pair with the smallest rank, and among equal ranks the leftmost one.
pub open spec fn best_at(ids: Seq<u32>, ranks: Map<(u32, u32), usize>, i: int) -> bool {
    &&& mergeable_at(ids, ranks, i)
    &&& forall|j: int|
        #![trigger window(ids, j)]
        mergeable_at(ids, ranks, j) ==> ranks[window(ids, i)] <= ranks[window(ids, j)] && (
        ranks[window(ids, i)] == ranks[window(ids, j)] ==> i <= j)
}

/// The pair the encoder merges next in `ids`, if any pair is selectable.
pub open spec fn best_pair(ids: Seq<u32>, ranks: Map<(u32, u32), usize>) -> Option<(u32, u32)> {
    if exists|i: int| best_at(ids, ranks, i) {
        Some(window(ids, choose|i: int| best_at(ids, ranks, i)))
    } else {
        None
    }
}

/// At most one position is the best.
pub proof fn lemma_best_at_unique(ids: Seq<u32>, ranks: Map<(u32, u32), usize>, i: int, j: int)
    requires
        best_at(ids, ranks, i),
        best_at(ids, ranks, j),
    ensures
        i == j,
{
    assert(ranks[window(ids, i)] <= ranks[window(ids, j)]);
    assert(ranks[window(ids, j)] <= ranks[window(ids, i)]);
}

/// The result of repeatedly merging the best pair of `ids` until no pair
/// is selectable.
pub open spec fn bpe_merge(
    ids: Seq<u32>,
    ranks: Map<(u32, u32), usize>,
    merges: Map<(u32, u32), u32>,
) -> Seq<u32>
    decreases ids.len(),
{
    match best_pair(ids, ranks) {
        None => ids,
        Some(p) => {
            let next = replace_pairs(ids, p.0, p.1, merges[p]);
            if next.len() < ids.len() {
                bpe_merge(next, ranks, merges)
            } else {
                ids
            }
        },
    }
}

/// Every pair that the merging of `ids` selects has a merged ID.
pub open spec fn merges_defined(
    ids: Seq<u32>,
    ranks: Map<(u32, u32), usize>,
    merges: Map<(u32, u32), u32>,
) -> bool
    decreases ids.len(),
{
    match best_pair(ids, ranks) {
        None => true,
        Some(p) => {
            let next = replace_pairs(ids, p.0, p.1, merges[p]);
            &&& merges.contains_key(p)
            &&& next.len() < ids.len() ==> merges_defined(next, ranks, merges)
        },
    }
}

/// The best pair occurs in the sequence, so merging it shortens the sequence.
pub proof fn lemma_best_pair_shrinks(
    ids: Seq<u32>,
    ranks: Map<(u32, u32), usize>,
    merged: u32,
)
    requires
        best_pair(ids, ranks) is Some,
    ensures
        ({
            let p = best_pair(ids, ranks)->0;
            &&& pair_occurs(ids, p)
            &&& replace_pairs(ids, p.0, p.1, merged).len() < ids.len()
        }),
{
    let i = choose|i: int| best_at(ids, ranks, i);
    let p = window(ids, i);
    assert(pair_occurs(ids, p));
    lemma_replace_len(ids, p.0, p.1, merged);
}

/// When every selectable pair's merged token spells out the pair's tokens,
/// merging keeps the spelled-out bytes and keeps every ID in the vocabulary.
pub proof fn lemma_bpe_merge_keeps_bytes(
    vocab: Seq<Seq<u8>>,
    ids: Seq<u32>,
    ranks: Map<(u32, u32), usize>,
    merges: Map<(u32, u32), u32>,
)
    requires
        forall|p: (u32, u32)|
            #[trigger] ranks.contains_key(p) ==> merges.contains_key(p) && (merges[p] as int)
                < vocab.len() && vocab[merges[p] as int] == vocab[p.0 as int] + vocab[p.1 as int],
        ids_below(ids, vocab.len() as int),
    ensures
        token_bytes(vocab, bpe_merge(ids, ranks, merges)) == token_bytes(vocab, ids),
        ids_below(bpe_merge(ids, ranks, merges), vocab.len() as int),
        merges_defined(ids, ranks, merges),
    decreases ids.len(),
{
    match best_pair(ids, ranks) {
        None => {},
        Some(p) => {
            let i = choose|i: int| best_at(ids, ranks, i);
            assert(ranks.contains_key(p));
            let next = replace_pairs(ids, p.0, p.1, merges[p]);
            lemma_best_pair_shrinks(ids, ranks, merges[p]);
            lemma_replace_keeps_bytes(vocab, ids, p.0, p.1, merges[p]);
            lemma_replace_ids_below(ids, p.0, p.1, merges[p], vocab.len() as int);
            lemma_bpe_merge_keeps_bytes(vocab, next, ranks, merges);
        },
    }
}

/// Merging never lengthens a sequence.
pub proof fn lemma_bpe_merge_len(
    ids: Seq<u32>,
    ranks: Map<(u32, u32), usize>,
    merges: Map<(u32, u32), u32>,
)
    ensures
        bpe_merge(ids, ranks, merges).len() <= ids.len(),
    decreases ids.len(),
{
    match best_pair(ids, ranks) {
        None => {},
        Some(p) => {
            let next = replace_pairs(ids, p.0, p.1, merges[p]);
            if next.len() < ids.len() {
                lemma_bpe_merge_len(next, ranks, merges);
            }
        },
    }
}

/// Without merge ranks, nothing is merged: the IDs stay as they are.
pub proof fn lemma_bpe_merge_without_ranks(ids: Seq<u32>, merges: Map<(u32, u32), u32>)
    ensures
        bpe_merge(ids, Map::empty(), merges) == ids,
        merges_defined(ids, Map::empty(), merges),
{
    assert(!(exists|i: int| best_at(ids, Map::empty(), i)));
}

/// `m` is, among the positions below `n`, a selectable one with the
/// smallest rank, the leftmost on equal ranks.
spec fn least_below(ids: Seq<u32>, ranks: Map<(u32, u32), usize>, m: int, n: int) -> bool {
    &&& 0 <= m < n
    &&& mergeable_at(ids, ranks, m)
    &&& forall|j: int|
        #![trigger window(ids, j)]
        0 <= j < n && mergeable_at(ids, ranks, j) ==> ranks[window(ids, m)] <= ranks[window(ids, j)]
            && (ranks[window(ids, m)] == ranks[window(ids, j)] ==> m <= j)
}

/// When some position below `n` is selectable, one of them is the least.
proof fn lemma_least_mergeable(ids: Seq<u32>, ranks: Map<(u32, u32), usize>, n: int) -> (m: int)
    requires
        exists|j: int| 0 <= j < n && mergeable_at(ids, ranks, j),
    ensures
        least_below(ids, ranks, m, n),
    decreases n,
{
    let last = n - 1;
    if exists|j: int| 0 <= j < n - 1 && mergeable_at(ids, ranks, j) {
        let m = lemma_least_mergeable(ids, ranks, n - 1);
        if mergeable_at(ids, ranks, last) && ranks[window(ids, last)] < ranks[window(ids, m)] {
            assert forall|j: int|
                #![trigger window(ids, j)]
                0 <= j < n && mergeable_at(ids, ranks, j) implies ranks[window(ids, last)]
                    <= ranks[window(ids, j)] && (ranks[window(ids, last)] == ranks[window(ids, j)]
                    ==> last <= j) by {
                if j < n - 1 {
                    assert(ranks[window(ids, m)] <= ranks[window(ids, j)]);
                }
            }
            last
        } else {
            assert forall|j: int|
                #![trigger window(ids, j)]
                0 <= j < n && mergeable_at(ids, ranks, j) implies ranks[window(ids, m)]
                    <= ranks[window(ids, j)] && (ranks[window(ids, m)] == ranks[window(ids, j)]
                    ==> m <= j) by {
                if j < n - 1 {
                    assert(ranks[window(ids, m)] <= ranks[window(ids, j)]);
                }
            }
            m
        }
    } else {
        let j0 = choose|j: int| 0 <= j < n && mergeable_at(ids, ranks, j);
        assert(j0 == last);
        assert forall|j: int|
            #![trigger window(ids, j)]
            0 <= j < n && mergeable_at(ids, ranks, j) implies ranks[window(ids, last)]
                <= ranks[window(ids, j)] && (ranks[window(ids, last)] == ranks[window(ids, j)]
                ==> last <= j) by {
            assert(j == last);
        }
        last
    }
}

/// Merging stops only when nothing is left to merge: no adjacent pair of
/// the result has a rank below `usize::MAX`, whatever bytes its tokens
/// hold.
pub proof fn lemma_bpe_merge_fixpoint(
    ids: Seq<u32>,
    ranks: Map<(u32, u32), usize>,
    merges: Map<(u32, u32), u32>,
)
    ensures
        ({
            let r = bpe_merge(ids, ranks, merges);
            forall|i: int|
                0 <= i < r.len() - 1 ==> !(ranks.contains_key((#[trigger] r[i], r[i + 1]))
                    && ranks[(r[i], r[i + 1])] < usize::MAX)
        }),
    decreases ids.len(),
{
    match best_pair(ids, ranks) {
        None => {
            assert(bpe_merge(ids, ranks, merges) == ids);
            assert forall|i: int|
                0 <= i < ids.len() - 1 implies !(ranks.contains_key((#[trigger] ids[i], ids[i + 1]))
                && ranks[(ids[i], ids[i + 1])] < usize::MAX) by {
                if ranks.contains_key((ids[i], ids[i + 1])) && ranks[(ids[i], ids[i + 1])] < usize::MAX {
                    assert(window(ids, i) == (ids[i], ids[i + 1]));
                    assert(mergeable_at(ids, ranks, i));
                    let m = lemma_least_mergeable(ids, ranks, ids.len() as int);
                    assert(best_at(ids, ranks, m));
                }
            }
        },
        Some(p) => {
            let next = replace_pairs(ids, p.0, p.1, merges[p]);
            lemma_best_pair_shrinks(ids, ranks, merges[p]);
            assert(next.len() < ids.len());
            assert(bpe_merge(ids, ranks, merges) == bpe_merge(next, ranks, merges));
            lemma_bpe_merge_fixpoint(next, ranks, merges);
        },
    }
}

} // verus!
