//! Learning merges from training texts.

use crate::model::{
    byte_ids, ids_below, lemma_pair_count_bound, lemma_replace_ids_below, lemma_replace_len,
    pair_count, pair_counts, pair_occurs, replace_pairs, window,
};
use crate::pair_map::{pair_lt, PairMap};
use crate::training_laws::{
    is_infix, lemma_first_merge_is_most_frequent, lemma_learned_ranks_follow_ids,
    lemma_learned_tokens_lie_in_one_text, texts_pair_count,
};
use crate::tokenizer::{byte_token_ids, byte_tokens, most_frequent, most_frequent_at, Tokenizer};
use rayon::prelude::{IndexedParallelIterator, IntoParallelRefIterator, IntoParallelRefMutIterator, ParallelIterator};
use vstd::prelude::*;
use vstd::utf8::encode_utf8;

verus! {

/// The state of training: the tokenizer's parts and the training texts as
/// sequences of token IDs.
pub struct TrainState {
    pub tokens: Seq<Seq<u8>>,
    pub table: Map<Seq<u8>, u32>,
    pub merges: Map<(u32, u32), u32>,
    pub ranks: Map<(u32, u32), usize>,
    pub seqs: Seq<Seq<u32>>,
}

/// The total length of the sequences.
pub open spec fn total_len(seqs: Seq<Seq<u32>>) -> nat
    decreases seqs.len(),
{
    if seqs.len() == 0 {
        0
    } else {
        total_len(seqs.drop_last()) + seqs.last().len()
    }
}

/// The number of occurrences of the adjacent pair `p` over all sequences;
/// pairs never span two sequences.
pub open spec fn total_pair_count(seqs: Seq<Seq<u32>>, p: (u32, u32)) -> nat
    decreases seqs.len(),
{
    if seqs.len() == 0 {
        0
    } else {
        total_pair_count(seqs.drop_last(), p) + pair_count(seqs.last(), p)
    }
}

/// Each adjacent pair of the sequences with its total number of occurrences.
pub open spec fn total_counts(seqs: Seq<Seq<u32>>) -> Map<(u32, u32), usize> {
    Map::new(
        |p: (u32, u32)| total_pair_count(seqs, p) > 0,
        |p: (u32, u32)| total_pair_count(seqs, p) as usize,
    )
}

/// Each sequence with the pair `(left, right)` replaced by `merged`.
pub open spec fn replace_in_all(seqs: Seq<Seq<u32>>, left: u32, right: u32, merged: u32) -> Seq<
    Seq<u32>,
> {
    seqs.map_values(|s: Seq<u32>| replace_pairs(s, left, right, merged))
}

/// One training step for the pair `p`: the concatenation of its tokens
/// becomes a token with a merge and the next rank, unless it is a token
/// already, and `p` is replaced by that token in every sequence.
pub open spec fn add_merge(st: TrainState, p: (u32, u32)) -> TrainState {
    let merged = st.tokens[p.0 as int] + st.tokens[p.1 as int];
    if st.table.contains_key(merged) {
        TrainState {
            tokens: st.tokens,
            table: st.table,
            merges: st.merges,
            ranks: st.ranks,
            seqs: replace_in_all(st.seqs, p.0, p.1, st.table[merged]),
        }
    } else {
        let id = st.tokens.len() as u32;
        TrainState {
            tokens: st.tokens.push(merged),
            table: st.table.insert(merged, id),
            merges: st.merges.insert(p, id),
            ranks: st.ranks.insert(p, st.ranks.len() as usize),
            seqs: replace_in_all(st.seqs, p.0, p.1, id),
        }
    }
}

/// Training from `st` until the vocabulary has `target` tokens or no
/// adjacent pair is left: each step merges the most frequent pair.
pub open spec fn train_from(st: TrainState, target: int) -> TrainState
    decreases total_len(st.seqs),
{
    if st.tokens.len() >= target {
        st
    } else {
        match most_frequent(total_counts(st.seqs)) {
            None => st,
            Some(p) => {
                let next = add_merge(st, p);
                if total_len(next.seqs) < total_len(st.seqs) {
                    train_from(next, target)
                } else {
                    st
                }
            },
        }
    }
}

/// The training texts as sequences of byte IDs.
pub open spec fn text_ids(texts: Seq<&str>) -> Seq<Seq<u32>> {
    texts.map_values(|t: &str| byte_ids(encode_utf8(t@)))
}

/// The state training starts from: the single-byte vocabulary, no merges,
/// and the texts as byte IDs.
pub open spec fn initial_state(texts: Seq<&str>) -> TrainState {
    TrainState {
        tokens: byte_tokens(),
        table: byte_token_ids(),
        merges: Map::empty(),
        ranks: Map::empty(),
        seqs: text_ids(texts),
    }
}

/// The training state made of a tokenizer and sequences.
pub open spec fn state_of(t: Tokenizer, seqs: Seq<Vec<u32>>) -> TrainState {
    TrainState {
        tokens: t.tokens(),
        table: t.token_to_id@,
        merges: t.merges@,
        ranks: t.ranks@,
        seqs: seqs.map_values(|s: Vec<u32>| s@),
    }
}

/// Splitting the sequences splits their total length and pair counts.
pub proof fn lemma_totals_concat(a: Seq<Seq<u32>>, b: Seq<Seq<u32>>, p: (u32, u32))
    ensures
        total_len(a + b) == total_len(a) + total_len(b),
        total_pair_count(a + b, p) == total_pair_count(a, p) + total_pair_count(b, p),
    decreases b.len(),
{
    if b.len() == 0 {
        assert(a + b =~= a);
    } else {
        lemma_totals_concat(a, b.drop_last(), p);
        assert((a + b).drop_last() =~= a + b.drop_last());
    }
}

/// A pair occurs no more often than there are elements.
pub proof fn lemma_total_pair_count_bound(seqs: Seq<Seq<u32>>, p: (u32, u32))
    ensures
        total_pair_count(seqs, p) <= total_len(seqs),
        total_pair_count(seqs, p) > 0 ==> exists|i: int|
            0 <= i < seqs.len() && #[trigger] pair_occurs(seqs[i], p),
    decreases seqs.len(),
{
    if seqs.len() > 0 {
        let init = seqs.drop_last();
        lemma_total_pair_count_bound(init, p);
        lemma_pair_count_bound(seqs.last(), p);
        if total_pair_count(init, p) > 0 {
            let i = choose|i: int| 0 <= i < init.len() && #[trigger] pair_occurs(init[i], p);
            assert(seqs[i] == init[i]);
        }
        if pair_count(seqs.last(), p) > 0 {
            assert(pair_occurs(seqs[seqs.len() - 1], p));
        }
    }
}

/// Replacing a pair everywhere never lengthens the sequences, and shortens
/// them when the pair occurs in one of them.
pub proof fn lemma_replace_in_all_len(seqs: Seq<Seq<u32>>, left: u32, right: u32, merged: u32)
    ensures
        total_len(replace_in_all(seqs, left, right, merged)) <= total_len(seqs),
        (exists|i: int| 0 <= i < seqs.len() && #[trigger] pair_occurs(seqs[i], (left, right)))
            ==> total_len(replace_in_all(seqs, left, right, merged)) < total_len(seqs),
    decreases seqs.len(),
{
    if seqs.len() > 0 {
        let init = seqs.drop_last();
        lemma_replace_in_all_len(init, left, right, merged);
        assert(replace_in_all(seqs, left, right, merged).drop_last() =~= replace_in_all(
            init,
            left,
            right,
            merged,
        ));
        lemma_replace_len(seqs.last(), left, right, merged);
        if exists|i: int| 0 <= i < seqs.len() && #[trigger] pair_occurs(seqs[i], (left, right)) {
            let i = choose|i: int| 0 <= i < seqs.len() && #[trigger] pair_occurs(seqs[i], (left, right));
            if i < seqs.len() - 1 {
                assert(init[i] == seqs[i]);
                assert(pair_occurs(init[i], (left, right)));
            }
        }
    }
}

/// Training from a state never shrinks the vocabulary, and adds tokens only
/// while the vocabulary is below the target, one per step.
pub proof fn lemma_train_from_len(st: TrainState, target: int)
    ensures
        st.tokens.len() <= train_from(st, target).tokens.len(),
        st.tokens.len() <= target ==> train_from(st, target).tokens.len() <= target,
    decreases total_len(st.seqs),
{
    if st.tokens.len() < target {
        match most_frequent(total_counts(st.seqs)) {
            None => {},
            Some(p) => {
                let next = add_merge(st, p);
                if total_len(next.seqs) < total_len(st.seqs) {
                    lemma_train_from_len(next, target);
                }
            },
        }
    }
}

/// Training gives a vocabulary of the 256 byte tokens and at most as many
/// tokens as the target beyond them: `max(256, target)` at most. A target
/// of 256 or less gives back the byte vocabulary with no merges.
pub proof fn lemma_train_size(texts: Seq<&str>, target: int)
    ensures
        256 <= train_from(initial_state(texts), target).tokens.len(),
        target >= 256 ==> train_from(initial_state(texts), target).tokens.len() <= target,
        target <= 256 ==> train_from(initial_state(texts), target) == initial_state(texts),
{
    lemma_train_from_len(initial_state(texts), target);
}

/// Counts each sequence's adjacent pairs, the sequences being handed out to
/// rayon's worker threads, and collects the counts in the order of the
/// sequences.
///
/// This calls rayon's `par_iter`, `map` and `collect_into_vec`; the claim is
/// that the `i`-th map collected is the one the closure returns for the
/// `i`-th sequence.
#[verifier::external_body]
fn count_pairs_in_parallel(sequences: &Vec<Vec<u32>>) -> (counts: Vec<PairMap<usize>>)
    ensures
        counts@.len() == sequences@.len(),
        forall|i: int|
            0 <= i < sequences@.len() ==> (#[trigger] counts@[i])@ == pair_counts(sequences@[i]@),
{
    let mut counts = Vec::new();
    sequences.par_iter().map(|sequence| Tokenizer::count_pair_frequencies(sequence)).collect_into_vec(
        &mut counts,
    );
    counts
}

/// Replaces the pair `(left, right)` by `merged_id` in each sequence, the
/// sequences being handed out to rayon's worker threads.
///
/// This calls rayon's `par_iter_mut` and `for_each`; the claim is that the
/// closure has run once on each sequence when the call returns.
#[verifier::external_body]
fn replace_pair_in_parallel(sequences: &mut Vec<Vec<u32>>, left: u32, right: u32, merged_id: u32)
    ensures
        final(sequences)@.len() == old(sequences)@.len(),
        forall|i: int|
            0 <= i < old(sequences)@.len() ==> (#[trigger] final(sequences)@[i])@ == replace_pairs(
                old(sequences)@[i]@,
                left,
                right,
                merged_id,
            ),
{
    sequences.par_iter_mut().for_each(
        |sequence| Tokenizer::replace_pair_in_seq(sequence, left, right, merged_id),
    );
}

/// The count that `m` holds for `p`, zero when it holds none.
pub open spec fn count_of(m: Map<(u32, u32), usize>, p: (u32, u32)) -> nat {
    if m.contains_key(p) {
        m[p] as nat
    } else {
        0
    }
}

/// The views of the sequences.
pub open spec fn seq_views(sequences: Seq<Vec<u32>>) -> Seq<Seq<u32>> {
    sequences.map_values(|s: Vec<u32>| s@)
}

/// The counts of all adjacent pairs over all sequences.
fn total_pair_counts(sequences: &Vec<Vec<u32>>) -> (total: PairMap<usize>)
    requires
        total_len(seq_views(sequences@)) <= usize::MAX,
    ensures
        total@ == total_counts(seq_views(sequences@)),
{
    let ghost seqs = seq_views(sequences@);
    let per_seq = count_pairs_in_parallel(sequences);
    let mut total: PairMap<usize> = PairMap::new();
    let mut i: usize = 0;
    while i < per_seq.len()
        invariant
            per_seq@.len() == seqs.len(),
            forall|j: int| 0 <= j < seqs.len() ==> (#[trigger] per_seq@[j])@ == pair_counts(seqs[j]),
            total_len(seqs) <= usize::MAX,
            0 <= i <= seqs.len(),
            forall|p: (u32, u32)|
                #[trigger] count_of(total@, p) == total_pair_count(seqs.take(i as int), p),
            forall|p: (u32, u32)| #[trigger] total@.contains_key(p) ==> total@[p] > 0,
        decreases seqs.len() - i,
    {
        let entries = per_seq[i].entries();
        let ghost prefix = seqs.take(i as int);
        let ghost next = seqs.take(i + 1);
        let ghost s = seqs[i as int];
        proof {
            assert(next.drop_last() =~= prefix);
            assert(next.last() == s);
            assert(seqs =~= next + seqs.skip(i + 1));
        }
        let mut k: usize = 0;
        while k < entries.len()
            invariant
                per_seq@.len() == seqs.len(),
                0 <= i < seqs.len(),
                s == seqs[i as int],
                per_seq@[i as int]@ == pair_counts(s),
                prefix == seqs.take(i as int),
                next == seqs.take(i + 1),
                next.drop_last() == prefix,
                next.last() == s,
                seqs == next + seqs.skip(i + 1),
                total_len(seqs) <= usize::MAX,
                0 <= k <= entries@.len(),
                forall|j: int|
                    0 <= j < entries@.len() ==> per_seq@[i as int]@.contains_key(
                        #[trigger] entries@[j].0,
                    ) && per_seq@[i as int]@[entries@[j].0] == entries@[j].1,
                forall|a: int, b: int| 0 <= a < b < entries@.len() ==> entries@[a].0 != entries@[b].0,
                forall|p: (u32, u32)|
                    per_seq@[i as int]@.contains_key(p) ==> exists|j: int|
                        0 <= j < entries@.len() && #[trigger] entries@[j].0 == p,
                forall|p: (u32, u32)|
                    #[trigger] count_of(total@, p) == total_pair_count(prefix, p) + if exists|j: int|
                        0 <= j < k && entries@[j].0 == p {
                        pair_count(s, p)
                    } else {
                        0
                    },
                forall|p: (u32, u32)| #[trigger] total@.contains_key(p) ==> total@[p] > 0,
            decreases entries@.len() - k,
        {
            let (q, c) = entries[k];
            let ghost before = total@;
            proof {
                lemma_totals_concat(next, seqs.skip(i + 1), q);
                lemma_pair_count_bound(s, q);
                assert(total_len(next) == total_len(prefix) + s.len());
                assert(pair_counts(s)[q] == c);
                assert(pair_count(s, q) == c);
                assert(!(exists|j: int| 0 <= j < k && entries@[j].0 == q));
                lemma_totals_concat(next, seqs.skip(i + 1), q);
                lemma_total_pair_count_bound(next, q);
                assert(count_of(before, q) + c == total_pair_count(next, q));
            }
            let current = match total.get(q.0, q.1) {
                Some(v) => *v,
                None => 0,
            };
            total.insert(q.0, q.1, current + c);
            k += 1;
            proof {
                assert forall|p: (u32, u32)|
                    #[trigger] count_of(total@, p) == total_pair_count(prefix, p) + if exists|j: int|
                        0 <= j < k && entries@[j].0 == p {
                        pair_count(s, p)
                    } else {
                        0
                    } by {
                    if p == q {
                        assert(entries@[k - 1].0 == p);
                    } else {
                        assert(count_of(total@, p) == count_of(before, p));
                        if exists|j: int| 0 <= j < k && entries@[j].0 == p {
                            let j = choose|j: int| 0 <= j < k && entries@[j].0 == p;
                            assert(j < k - 1);
                        }
                    }
                }
            }
        }
        i += 1;
        proof {
            assert forall|p: (u32, u32)|
                #[trigger] count_of(total@, p) == total_pair_count(seqs.take(i as int), p) by {
                if exists|j: int| 0 <= j < entries@.len() && entries@[j].0 == p {
                } else {
                    if pair_count(s, p) > 0 {
                        assert(per_seq@[i - 1]@.contains_key(p));
                    }
                }
            }
        }
    }
    proof {
        assert(seqs.take(seqs.len() as int) =~= seqs);
        assert forall|p: (u32, u32)| #[trigger] total@.contains_key(p) == total_counts(seqs).contains_key(
            p,
        ) by {
            assert(count_of(total@, p) == total_pair_count(seqs, p));
        }
        assert forall|p: (u32, u32)| #[trigger] total@.contains_key(p) implies total@[p] == total_counts(
            seqs,
        )[p] by {
            assert(count_of(total@, p) == total_pair_count(seqs, p));
        }
        assert(total@ =~= total_counts(seqs));
    }
    total
}

/// Converts a text to its sequence of byte IDs.
fn text_to_ids(text: &str) -> (ids: Vec<u32>)
    ensures
        ids@ == byte_ids(encode_utf8(text@)),
{
    let bytes = text.as_bytes();
    let mut ids: Vec<u32> = Vec::with_capacity(bytes.len());
    let mut k: usize = 0;
    while k < bytes.len()
        invariant
            0 <= k <= bytes@.len(),
            ids@ == byte_ids(bytes@.take(k as int)),
        decreases bytes@.len() - k,
    {
        ids.push(bytes[k] as u32);
        k += 1;
        proof {
            assert(ids@ =~= byte_ids(bytes@.take(k as int)));
        }
    }
    proof {
        assert(bytes@.take(bytes@.len() as int) =~= bytes@);
    }
    ids
}

impl Tokenizer {
    /// Learns a tokenizer from `texts`: starting from the 256 byte tokens,
    /// it repeatedly merges the most frequent adjacent pair (the smallest
    /// pair on ties) into a new token, until the vocabulary has
    /// `target_vocab_size` tokens or no adjacent pair is left. Pairs never
    /// span two texts, and a target below 256 keeps all byte tokens.
    pub fn train(texts: &[&str], target_vocab_size: usize) -> (t: Tokenizer)
        requires
            total_len(text_ids(texts@)) <= usize::MAX,
        ensures
            ({
                let fin = train_from(initial_state(texts@), target_vocab_size as int);
                &&& t.tokens() == fin.tokens
                &&& t.token_to_id@ == fin.table
                &&& t.merges@ == fin.merges
                &&& t.ranks@ == fin.ranks
            }),
            t.vocab@.len() >= 256,
            t.vocab@.len() <= u32::MAX + 1 ==> t.is_valid(),
            target_vocab_size <= u32::MAX + 1 ==> {
                &&& forall|id: int|
                    256 <= id < t.vocab@.len() ==> exists|i: int|
                        0 <= i < texts@.len() && is_infix(
                            #[trigger] t.tokens()[id],
                            encode_utf8(texts@[i]@),
                        )
                &&& t.vocab@.len() == 256 + t.ranks@.len()
                &&& t.merges@.dom() == t.ranks@.dom()
                &&& forall|p: (u32, u32)|
                    #[trigger] t.merges@.contains_key(p) ==> t.merges@[p] as int == t.ranks@[p] as int
                        + 256
                &&& forall|p: (u32, u32)|
                    #[trigger] t.ranks@.contains_key(p) && t.ranks@[p] == 0 ==> {
                        &&& t.merges@[p] == 256
                        &&& texts_pair_count(texts@, p) > 0
                        &&& forall|q: (u32, u32)|
                            #[trigger] texts_pair_count(texts@, q) <= texts_pair_count(texts@, p) && (
                            texts_pair_count(texts@, q) == texts_pair_count(texts@, p) ==> !pair_lt(
                                q,
                                p,
                            ))
                    }
            },
    {
        let mut tokenizer = Self::new();
        let mut sequences: Vec<Vec<u32>> = Vec::new();
        let mut i: usize = 0;
        while i < texts.len()
            invariant
                0 <= i <= texts@.len(),
                seq_views(sequences@) == text_ids(texts@.take(i as int)),
            decreases texts@.len() - i,
        {
            let ghost before = sequences@;
            let text: &str = texts[i];
            let ids = text_to_ids(text);
            sequences.push(ids);
            i += 1;
            proof {
                let a = seq_views(sequences@);
                let b = text_ids(texts@.take(i as int));
                assert(sequences@.len() == before.len() + 1);
                assert(before.len() == seq_views(before).len());
                assert(seq_views(before).len() == (i - 1) as int);
                assert(a.len() == i as int);
                assert(b.len() == i as int);
                assert forall|j: int| 0 <= j < a.len() implies a[j] == b[j] by {
                    if j < i - 1 {
                        assert(a[j] == seq_views(before)[j]);
                        assert(seq_views(before)[j] == text_ids(texts@.take(i - 1))[j]);
                    } else {
                        assert(a[j] == ids@);
                        assert(text == texts@[j]);
                    }
                }
                assert(a =~= b);
            }
        }
        proof {
            assert(texts@.take(texts@.len() as int) =~= texts@);
            assert(state_of(tokenizer, sequences@) == initial_state(texts@));
            assert forall|j: int| 0 <= j < sequences@.len() implies ids_below(
                #[trigger] seq_views(sequences@)[j],
                tokenizer.vocab@.len() as int,
            ) by {
                let s = seq_views(sequences@)[j];
                assert forall|k: int| 0 <= k < s.len() implies (#[trigger] s[k] as int)
                    < tokenizer.vocab@.len() by {
                    assert(s == byte_ids(encode_utf8(texts@[j]@)));
                }
            }
        }
        let ghost init = initial_state(texts@);
        let ghost target = target_vocab_size as int;
        loop
            invariant
                target == target_vocab_size as int,
                train_from(state_of(tokenizer, sequences@), target) == train_from(init, target),
                tokenizer.vocab@.len() >= 256,
                tokenizer.vocab@.len() <= u32::MAX + 1 ==> tokenizer.is_valid(),
                forall|k: Seq<u8>|
                    #[trigger] tokenizer.token_to_id@.contains_key(k) ==> (tokenizer.token_to_id@[k] as int)
                        < tokenizer.vocab@.len(),
                forall|j: int|
                    0 <= j < sequences@.len() ==> ids_below(
                        #[trigger] seq_views(sequences@)[j],
                        tokenizer.vocab@.len() as int,
                    ),
                total_len(seq_views(sequences@)) <= usize::MAX,
            ensures
                state_of(tokenizer, sequences@) == train_from(init, target),
            decreases total_len(seq_views(sequences@)),
        {
            let ghost st = state_of(tokenizer, sequences@);
            let ghost seqs = seq_views(sequences@);
            assert(st.seqs == seqs);
            if tokenizer.vocab_size() >= target_vocab_size {
                break;
            }
            let counts = total_pair_counts(&sequences);
            let (left, right) = match Self::find_most_frequent_pair(&counts) {
                Some(p) => p,
                None => {
                    break;
                },
            };
            let ghost p = (left, right);
            proof {
                let tc = total_counts(seqs);
                assert(most_frequent_at(tc, p));
                assert(total_pair_count(seqs, p) > 0);
                lemma_total_pair_count_bound(seqs, p);
                let j = choose|j: int| 0 <= j < seqs.len() && #[trigger] pair_occurs(seqs[j], p);
                let k = choose|k: int| 0 <= k < seqs[j].len() - 1 && #[trigger] window(seqs[j], k) == p;
                assert(ids_below(seqs[j], tokenizer.vocab@.len() as int));
                assert(seqs[j][k] == left);
                assert(seqs[j][k + 1] == right);
            }
            let merged_id = tokenizer.insert_merged_token(left, right);
            replace_pair_in_parallel(&mut sequences, left, right, merged_id);
            proof {
                let next = add_merge(st, p);
                assert(seq_views(sequences@) =~= replace_in_all(seqs, left, right, merged_id));
                assert(state_of(tokenizer, sequences@) == next);
                let j = choose|j: int| 0 <= j < seqs.len() && #[trigger] pair_occurs(seqs[j], p);
                lemma_replace_in_all_len(seqs, left, right, merged_id);
                assert(total_len(next.seqs) < total_len(seqs));
                assert(most_frequent(total_counts(seqs)) == Some(p));
                assert(train_from(st, target) == train_from(next, target));
                assert forall|j: int| 0 <= j < sequences@.len() implies ids_below(
                    #[trigger] seq_views(sequences@)[j],
                    tokenizer.vocab@.len() as int,
                ) by {
                    lemma_replace_ids_below(
                        seqs[j],
                        left,
                        right,
                        merged_id,
                        tokenizer.vocab@.len() as int,
                    );
                }
            }
        }
        proof {
            if target_vocab_size <= u32::MAX + 1 {
                lemma_learned_tokens_lie_in_one_text(texts@, target);
                lemma_learned_ranks_follow_ids(texts@, target);
                lemma_first_merge_is_most_frequent(texts@, target);
            }
        }
        tokenizer
    }
}

} // verus!
