//! What training learns, stated over the training texts themselves: every
//! learned token is a run of bytes inside one text, each merge keeps the
//! rank and ID of the step that learned it, and the first merge is the
//! pair that occurs most often, counted inside each text.

use crate::model::{
    byte_ids, ids_below, lemma_replace_ids_below, lemma_replace_keeps_bytes,
    lemma_token_bytes_concat, lemma_token_bytes_single, pair_count, pair_occurs, token_bytes, window,
};
use crate::pair_map::pair_lt;
use crate::tokenizer::{byte_token_ids, byte_tokens, lemma_byte_tokens_valid, most_frequent, most_frequent_at};
use crate::training::{
    add_merge, initial_state, lemma_total_pair_count_bound, replace_in_all, text_ids, total_counts,
    total_len, total_pair_count, train_from, TrainState,
};
use crate::validity::{
    lemma_add_merge_keeps_valid, lemma_byte_ids_spell, lemma_valid_same_pairs, merge_ok, parts_valid,
};
use vstd::prelude::*;
use vstd::utf8::encode_utf8;

verus! {

/// `t` occurs as a contiguous run of bytes inside `b`.
pub open spec fn is_infix(t: Seq<u8>, b: Seq<u8>) -> bool {
    exists|k: int| 0 <= k && k + t.len() <= b.len() && #[trigger] b.subrange(k, k + t.len()) == t
}

/// The number of times the byte pair `p` occurs as two adjacent bytes of
/// one text, summed over the texts.
pub open spec fn texts_pair_count(texts: Seq<&str>, p: (u32, u32)) -> nat
    decreases texts.len(),
{
    if texts.len() == 0 {
        0
    } else {
        texts_pair_count(texts.drop_last(), p) + pair_count(byte_ids(encode_utf8(texts.last()@)), p)
    }
}

/// What holds of every state training passes through, for the texts it
/// started from.
spec fn train_ok(st: TrainState, texts: Seq<&str>) -> bool {
    &&& parts_valid(st.tokens, st.table, st.merges, st.ranks)
    &&& st.table.dom().finite()
    &&& st.merges.dom().finite()
    &&& st.ranks.dom().finite()
    &&& st.tokens.len() <= u32::MAX + 1
    &&& st.tokens.len() == 256 + st.ranks.len()
    &&& forall|k: Seq<u8>|
        #[trigger] st.table.contains_key(k) ==> (st.table[k] as int) < st.tokens.len()
            && st.tokens[st.table[k] as int] == k
    &&& forall|p: (u32, u32)|
        #[trigger] st.merges.contains_key(p) ==> st.merges[p] as int == st.ranks[p] as int + 256
    &&& st.seqs.len() == texts.len()
    &&& forall|i: int|
        0 <= i < texts.len() ==> ids_below(#[trigger] st.seqs[i], st.tokens.len() as int)
            && token_bytes(st.tokens, st.seqs[i]) == encode_utf8(texts[i]@)
    &&& forall|id: int|
        256 <= id < st.tokens.len() ==> exists|i: int|
            0 <= i < texts.len() && is_infix(#[trigger] st.tokens[id], encode_utf8(texts[i]@))
}

/// `b` keeps every token, merge and rank of `a`.
spec fn extends(a: TrainState, b: TrainState) -> bool {
    &&& a.tokens.len() <= b.tokens.len()
    &&& forall|i: int| 0 <= i < a.tokens.len() ==> #[trigger] b.tokens[i] == a.tokens[i]
    &&& forall|p: (u32, u32)|
        #[trigger] a.ranks.contains_key(p) ==> b.ranks.contains_key(p) && b.ranks[p] == a.ranks[p]
    &&& forall|p: (u32, u32)|
        #[trigger] a.merges.contains_key(p) ==> b.merges.contains_key(p) && b.merges[p] == a.merges[p]
}

/// Adding a token at the end changes no spelling of known IDs.
proof fn lemma_token_bytes_push(tokens: Seq<Seq<u8>>, x: Seq<u8>, s: Seq<u32>)
    requires
        ids_below(s, tokens.len() as int),
    ensures
        token_bytes(tokens.push(x), s) == token_bytes(tokens, s),
    decreases s.len(),
{
    if s.len() > 0 {
        lemma_token_bytes_push(tokens, x, s.drop_last());
        assert(tokens.push(x)[s.last() as int] == tokens[s.last() as int]);
    }
}

/// The tokens of an adjacent pair of `s` spell a run of the bytes `s`
/// spells.
proof fn lemma_pair_infix(tokens: Seq<Seq<u8>>, s: Seq<u32>, k: int)
    requires
        0 <= k < s.len() - 1,
    ensures
        is_infix(tokens[s[k] as int] + tokens[s[k + 1] as int], token_bytes(tokens, s)),
{
    let a = s.take(k);
    let m = seq![s[k], s[k + 1]];
    let c = s.skip(k + 2);
    assert(s =~= a + m + c);
    lemma_token_bytes_concat(tokens, a + m, c);
    lemma_token_bytes_concat(tokens, a, m);
    assert(m =~= seq![s[k]] + seq![s[k + 1]]);
    lemma_token_bytes_concat(tokens, seq![s[k]], seq![s[k + 1]]);
    lemma_token_bytes_single(tokens, s[k]);
    lemma_token_bytes_single(tokens, s[k + 1]);
    let ba = token_bytes(tokens, a);
    let bm = tokens[s[k] as int] + tokens[s[k + 1] as int];
    let bc = token_bytes(tokens, c);
    assert(token_bytes(tokens, s) == ba + bm + bc);
    assert((ba + bm + bc).subrange(ba.len() as int, (ba.len() + bm.len()) as int) =~= bm);
}

/// One training step keeps what holds of training states, and keeps every
/// token, merge and rank.
proof fn lemma_step(st: TrainState, texts: Seq<&str>, p: (u32, u32))
    requires
        train_ok(st, texts),
        st.tokens.len() <= u32::MAX,
        total_pair_count(st.seqs, p) > 0,
    ensures
        train_ok(add_merge(st, p), texts),
        extends(st, add_merge(st, p)),
{
    let next = add_merge(st, p);
    let n = st.tokens.len() as int;
    lemma_total_pair_count_bound(st.seqs, p);
    let j = choose|j: int| 0 <= j < st.seqs.len() && #[trigger] pair_occurs(st.seqs[j], p);
    let k = choose|k: int| 0 <= k < st.seqs[j].len() - 1 && #[trigger] window(st.seqs[j], k) == p;
    assert(ids_below(st.seqs[j], n));
    assert(st.seqs[j][k] == p.0 && st.seqs[j][k + 1] == p.1);
    assert((p.0 as int) < n && (p.1 as int) < n);
    let merged = st.tokens[p.0 as int] + st.tokens[p.1 as int];
    lemma_pair_infix(st.tokens, st.seqs[j], k);
    if st.table.contains_key(merged) {
        let m = st.table[merged];
        assert(next.tokens == st.tokens);
        assert forall|i: int| 0 <= i < texts.len() implies ids_below(#[trigger] next.seqs[i], n)
            && token_bytes(next.tokens, next.seqs[i]) == encode_utf8(texts[i]@) by {
            assert(next.seqs[i] == crate::model::replace_pairs(st.seqs[i], p.0, p.1, m));
            lemma_replace_ids_below(st.seqs[i], p.0, p.1, m, n);
            lemma_replace_keeps_bytes(st.tokens, st.seqs[i], p.0, p.1, m);
        }
    } else {
        let id = n as u32;
        let tokens2 = st.tokens.push(merged);
        lemma_add_merge_keeps_valid(st.tokens, st.table, st.merges, st.ranks, p.0, p.1);
        assert(st.ranks.dom().insert(p).len() == st.ranks.len() + 1);
        assert(next.ranks.dom() =~= st.ranks.dom().insert(p));
        assert forall|key: Seq<u8>| #[trigger] next.table.contains_key(key) implies (next.table[key] as int)
            < next.tokens.len() && next.tokens[next.table[key] as int] == key by {
            if key != merged {
                assert(st.table.contains_key(key));
            }
        }
        assert forall|q: (u32, u32)| #[trigger] next.merges.contains_key(q) implies next.merges[q] as int
            == next.ranks[q] as int + 256 by {
            if q != p {
                assert(st.merges.contains_key(q));
            }
        }
        assert forall|i: int| 0 <= i < texts.len() implies ids_below(
            #[trigger] next.seqs[i],
            n + 1,
        ) && token_bytes(next.tokens, next.seqs[i]) == encode_utf8(texts[i]@) by {
            assert(next.seqs[i] == crate::model::replace_pairs(st.seqs[i], p.0, p.1, id));
            lemma_replace_ids_below(st.seqs[i], p.0, p.1, id, n + 1);
            assert(ids_below(st.seqs[i], n));
            assert(ids_below(st.seqs[i], n + 1));
            lemma_token_bytes_push(st.tokens, merged, st.seqs[i]);
            assert(tokens2[id as int] == tokens2[p.0 as int] + tokens2[p.1 as int]);
            lemma_replace_keeps_bytes(tokens2, st.seqs[i], p.0, p.1, id);
        }
        assert forall|t: int| 256 <= t < next.tokens.len() implies exists|i: int|
            0 <= i < texts.len() && is_infix(#[trigger] next.tokens[t], encode_utf8(texts[i]@)) by {
            if t < n {
                assert(next.tokens[t] == st.tokens[t]);
                assert(exists|i: int|
                    0 <= i < texts.len() && is_infix(#[trigger] st.tokens[t], encode_utf8(texts[i]@)));
            } else {
                assert(next.tokens[t] == merged);
                assert(token_bytes(st.tokens, st.seqs[j]) == encode_utf8(texts[j]@));
            }
        }
        assert forall|i: int| 0 <= i < n implies #[trigger] next.tokens[i] == st.tokens[i] by {}
        assert forall|q: (u32, u32)| #[trigger] st.ranks.contains_key(q) implies next.ranks.contains_key(q)
            && next.ranks[q] == st.ranks[q] by {}
        assert forall|q: (u32, u32)| #[trigger] st.merges.contains_key(q) implies next.merges.contains_key(
            q,
        ) && next.merges[q] == st.merges[q] by {}
    }
}

/// Training from a state keeps what holds of training states, and keeps
/// every token, merge and rank it started with.
proof fn lemma_train_from_ok(st: TrainState, texts: Seq<&str>, target: int)
    requires
        train_ok(st, texts),
        target <= u32::MAX + 1,
    ensures
        train_ok(train_from(st, target), texts),
        extends(st, train_from(st, target)),
    decreases total_len(st.seqs),
{
    if st.tokens.len() < target {
        match most_frequent(total_counts(st.seqs)) {
            None => {},
            Some(p) => {
                assert(most_frequent_at(
                    total_counts(st.seqs),
                    choose|q: (u32, u32)| most_frequent_at(total_counts(st.seqs), q),
                ));
                assert(total_counts(st.seqs).contains_key(p));
                let next = add_merge(st, p);
                lemma_step(st, texts, p);
                if total_len(next.seqs) < total_len(st.seqs) {
                    lemma_train_from_ok(next, texts, target);
                }
            },
        }
    }
}

/// Training starts from a state of which all this holds.
proof fn lemma_initial_ok(texts: Seq<&str>)
    ensures
        train_ok(initial_state(texts), texts),
{
    let st = initial_state(texts);
    lemma_byte_tokens_valid();
    assert forall|key: Seq<u8>| #[trigger] st.table.contains_key(key) implies (st.table[key] as int)
        < st.tokens.len() && st.tokens[st.table[key] as int] == key by {
        assert(key.len() == 1);
        assert(st.tokens[key[0] as int] =~= key);
    }
    assert forall|i: int| 0 <= i < texts.len() implies ids_below(
        #[trigger] st.seqs[i],
        st.tokens.len() as int,
    ) && token_bytes(st.tokens, st.seqs[i]) == encode_utf8(texts[i]@) by {
        assert(st.seqs[i] == byte_ids(encode_utf8(texts[i]@)));
        crate::validity::lemma_byte_ids_spell(byte_tokens(), encode_utf8(texts[i]@));
    }
}

/// Every token that training adds beyond the 256 single bytes is a run of
/// bytes inside one training text: a pair whose two halves sit in
/// different texts is never merged.
pub proof fn lemma_learned_tokens_lie_in_one_text(texts: Seq<&str>, target: int)
    requires
        target <= u32::MAX + 1,
    ensures
        ({
            let t = train_from(initial_state(texts), target);
            forall|id: int|
                256 <= id < t.tokens.len() ==> exists|i: int|
                    0 <= i < texts.len() && is_infix(#[trigger] t.tokens[id], encode_utf8(texts[i]@))
        }),
{
    lemma_initial_ok(texts);
    lemma_train_from_ok(initial_state(texts), texts, target);
}

/// Merges keep the order in which training learned them: the merge
/// learned at step `i` has rank `i` and merged ID `256 + i`, so the ranks
/// number the merges `0, 1, 2, ...` and every token beyond the bytes has
/// exactly one merge.
pub proof fn lemma_learned_ranks_follow_ids(texts: Seq<&str>, target: int)
    requires
        target <= u32::MAX + 1,
    ensures
        ({
            let t = train_from(initial_state(texts), target);
            &&& t.tokens.len() == 256 + t.ranks.len()
            &&& t.merges.dom() == t.ranks.dom()
            &&& forall|p: (u32, u32)|
                #[trigger] t.merges.contains_key(p) ==> t.merges[p] as int == t.ranks[p] as int + 256
        }),
{
    lemma_initial_ok(texts);
    let t = train_from(initial_state(texts), target);
    lemma_train_from_ok(initial_state(texts), texts, target);
    lemma_valid_same_pairs(t.tokens, t.table, t.merges, t.ranks);
}

/// Counting over the training sequences is counting inside each text and
/// summing.
proof fn lemma_texts_pair_count(texts: Seq<&str>, p: (u32, u32))
    ensures
        total_pair_count(text_ids(texts), p) == texts_pair_count(texts, p),
    decreases texts.len(),
{
    if texts.len() > 0 {
        lemma_texts_pair_count(texts.drop_last(), p);
        assert(text_ids(texts).drop_last() =~= text_ids(texts.drop_last()));
        assert(text_ids(texts).last() == byte_ids(encode_utf8(texts.last()@)));
    }
}

/// The first merge training learns (the one with rank 0, merged ID 256)
/// is the pair of adjacent bytes that occurs most often, counted inside
/// each text and summed over the texts; among pairs that occur equally
/// often it is the smallest.
pub proof fn lemma_first_merge_is_most_frequent(texts: Seq<&str>, target: int)
    requires
        target <= u32::MAX + 1,
        total_len(text_ids(texts)) <= usize::MAX,
    ensures
        ({
            let t = train_from(initial_state(texts), target);
            forall|p: (u32, u32)|
                #[trigger] t.ranks.contains_key(p) && t.ranks[p] == 0 ==> {
                    &&& t.merges.contains_key(p)
                    &&& t.merges[p] == 256
                    &&& t.tokens[256] == t.tokens[p.0 as int] + t.tokens[p.1 as int]
                    &&& texts_pair_count(texts, p) > 0
                    &&& forall|q: (u32, u32)|
                        #[trigger] texts_pair_count(texts, q) <= texts_pair_count(texts, p) && (
                        texts_pair_count(texts, q) == texts_pair_count(texts, p) ==> !pair_lt(q, p))
                }
        }),
{
    let init = initial_state(texts);
    let t = train_from(init, target);
    lemma_initial_ok(texts);
    lemma_train_from_ok(init, texts, target);
    if init.tokens.len() < target {
        match most_frequent(total_counts(init.seqs)) {
            None => {},
            Some(p1) => {
                let counts = total_counts(init.seqs);
                assert(most_frequent_at(counts, choose|q: (u32, u32)| most_frequent_at(counts, q)));
                assert(most_frequent_at(counts, p1));
                let next = add_merge(init, p1);
                if total_len(next.seqs) < total_len(init.seqs) {
                    lemma_step(init, texts, p1);
                    lemma_train_from_ok(next, texts, target);
                    lemma_total_pair_count_bound(init.seqs, p1);
                    let j = choose|j: int| 0 <= j < init.seqs.len() && #[trigger] pair_occurs(init.seqs[j], p1);
                    let k = choose|k: int|
                        0 <= k < init.seqs[j].len() - 1 && #[trigger] window(init.seqs[j], k) == p1;
                    assert(ids_below(init.seqs[j], 256));
                    assert(init.seqs[j][k] == p1.0 && init.seqs[j][k + 1] == p1.1);
                    let merged = init.tokens[p1.0 as int] + init.tokens[p1.1 as int];
                    assert(merged.len() == 2);
                    assert(!init.table.contains_key(merged));
                    assert(next.ranks.contains_key(p1) && next.ranks[p1] == 0);
                    assert(next.merges.contains_key(p1) && next.merges[p1] == 256);
                    assert(next.tokens[256] == merged);
                    assert(t.tokens[256] == merged);
                    assert(t.tokens[p1.0 as int] == init.tokens[p1.0 as int]);
                    assert(t.tokens[p1.1 as int] == init.tokens[p1.1 as int]);
                    lemma_valid_same_pairs(t.tokens, t.table, t.merges, t.ranks);
                    lemma_texts_pair_count(texts, p1);
                    assert forall|p: (u32, u32)| #[trigger] t.ranks.contains_key(p) && t.ranks[p] == 0 implies p
                        == p1 by {
                        assert(t.merges.contains_key(p));
                        assert(t.merges.contains_key(p1));
                    }
                    assert forall|q: (u32, u32)|
                        #[trigger] texts_pair_count(texts, q) <= texts_pair_count(texts, p1) && (
                        texts_pair_count(texts, q) == texts_pair_count(texts, p1) ==> !pair_lt(q, p1)) by {
                        lemma_texts_pair_count(texts, q);
                        lemma_total_pair_count_bound(init.seqs, q);
                        if counts.contains_key(q) {
                            assert(counts[q] <= counts[p1]);
                        }
                    }
                }
            },
        }
    }
}

} // verus!
