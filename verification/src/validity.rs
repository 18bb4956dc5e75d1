//! When the parts of a tokenizer agree with each other: the conditions
//! that a saved tokenizer must meet to be loaded, and the facts that
//! follow from them.

use crate::model::{byte_ids, ids_below, lemma_token_bytes_concat, token_bytes};
use vstd::prelude::*;

verus! {

/// The first 256 tokens are the single bytes, in order.
pub open spec fn has_byte_tokens(tokens: Seq<Seq<u8>>) -> bool {
    &&& tokens.len() >= 256
    &&& forall|b: int| 0 <= b < 256 ==> #[trigger] tokens[b] == seq![b as u8]
}

/// The table maps each token to its ID and holds nothing else.
pub open spec fn table_matches(tokens: Seq<Seq<u8>>, table: Map<Seq<u8>, u32>) -> bool {
    &&& table.dom().len() == tokens.len()
    &&& forall|i: int|
        0 <= i < tokens.len() ==> table.contains_key(#[trigger] tokens[i]) && table[tokens[i]] == i
            as u32
}

/// The merge `p -> merges[p]` names known tokens, its merged token spells
/// out the pair's two tokens, and it has a rank below the number of ranks.
pub open spec fn merge_ok(
    tokens: Seq<Seq<u8>>,
    merges: Map<(u32, u32), u32>,
    ranks: Map<(u32, u32), usize>,
    p: (u32, u32),
) -> bool {
    &&& ranks.contains_key(p)
    &&& (ranks[p] as int) < ranks.len()
    &&& (p.0 as int) < tokens.len()
    &&& (p.1 as int) < tokens.len()
    &&& (merges[p] as int) < tokens.len()
    &&& tokens[merges[p] as int] == tokens[p.0 as int] + tokens[p.1 as int]
}

/// Each merge is well formed, and the ranks number the merges without
/// gaps or repeats.
pub open spec fn merges_match(
    tokens: Seq<Seq<u8>>,
    merges: Map<(u32, u32), u32>,
    ranks: Map<(u32, u32), usize>,
) -> bool {
    &&& merges.len() == ranks.len()
    &&& forall|p: (u32, u32)| #[trigger] merges.contains_key(p) ==> merge_ok(tokens, merges, ranks, p)
    &&& forall|p: (u32, u32), q: (u32, u32)|
        #[trigger] merges.contains_key(p) && #[trigger] merges.contains_key(q) && p != q ==> ranks[p]
            != ranks[q]
}

/// The parts of a tokenizer agree with each other.
pub open spec fn parts_valid(
    tokens: Seq<Seq<u8>>,
    table: Map<Seq<u8>, u32>,
    merges: Map<(u32, u32), u32>,
    ranks: Map<(u32, u32), usize>,
) -> bool {
    &&& has_byte_tokens(tokens)
    &&& table_matches(tokens, table)
    &&& merges_match(tokens, merges, ranks)
}

/// In agreeing parts, the merges and the ranks are keyed by the same pairs.
pub proof fn lemma_valid_same_pairs(
    tokens: Seq<Seq<u8>>,
    table: Map<Seq<u8>, u32>,
    merges: Map<(u32, u32), u32>,
    ranks: Map<(u32, u32), usize>,
)
    requires
        parts_valid(tokens, table, merges, ranks),
        merges.dom().finite(),
        ranks.dom().finite(),
    ensures
        merges.dom() == ranks.dom(),
{
    assert(merges.dom().subset_of(ranks.dom()));
    vstd::set_lib::lemma_subset_equality(merges.dom(), ranks.dom());
}

/// In agreeing parts whose IDs all fit in a `u32`, no token occurs twice.
pub proof fn lemma_valid_distinct_tokens(
    tokens: Seq<Seq<u8>>,
    table: Map<Seq<u8>, u32>,
    merges: Map<(u32, u32), u32>,
    ranks: Map<(u32, u32), usize>,
)
    requires
        parts_valid(tokens, table, merges, ranks),
        tokens.len() <= u32::MAX + 1,
    ensures
        forall|i: int, j: int|
            0 <= i < tokens.len() && 0 <= j < tokens.len() && i != j ==> #[trigger] tokens[i]
                != #[trigger] tokens[j],
{
    assert forall|i: int, j: int|
        0 <= i < tokens.len() && 0 <= j < tokens.len() && i != j implies #[trigger] tokens[i]
            != #[trigger] tokens[j] by {
        if tokens[i] == tokens[j] {
            assert(table[tokens[i]] == i as u32);
            assert(table[tokens[j]] == j as u32);
        }
    }
}

/// In agreeing parts, every ranked pair has a merge whose token spells out
/// the pair's tokens.
pub proof fn lemma_valid_ranked_merges(
    tokens: Seq<Seq<u8>>,
    table: Map<Seq<u8>, u32>,
    merges: Map<(u32, u32), u32>,
    ranks: Map<(u32, u32), usize>,
)
    requires
        parts_valid(tokens, table, merges, ranks),
        merges.dom().finite(),
        ranks.dom().finite(),
    ensures
        forall|p: (u32, u32)|
            #[trigger] ranks.contains_key(p) ==> merges.contains_key(p) && (merges[p] as int)
                < tokens.len() && tokens[merges[p] as int] == tokens[p.0 as int] + tokens[p.1 as int],
{
    lemma_valid_same_pairs(tokens, table, merges, ranks);
    assert forall|p: (u32, u32)| #[trigger] ranks.contains_key(p) implies merges.contains_key(p)
        && (merges[p] as int) < tokens.len() && tokens[merges[p] as int] == tokens[p.0 as int]
        + tokens[p.1 as int] by {
        assert(merges.dom().contains(p));
        assert(merge_ok(tokens, merges, ranks, p));
    }
}

/// With the single bytes as the first 256 tokens, the byte IDs of a byte
/// string spell it out again.
pub proof fn lemma_byte_ids_spell(tokens: Seq<Seq<u8>>, bytes: Seq<u8>)
    requires
        has_byte_tokens(tokens),
    ensures
        token_bytes(tokens, byte_ids(bytes)) == bytes,
        ids_below(byte_ids(bytes), tokens.len() as int),
    decreases bytes.len(),
{
    if bytes.len() > 0 {
        let init = bytes.drop_last();
        lemma_byte_ids_spell(tokens, init);
        assert(byte_ids(bytes).drop_last() =~= byte_ids(init));
        let b = bytes.last();
        assert(tokens[b as int] == seq![b]);
        assert(init + seq![b] =~= bytes);
    }
}

/// Adding a merge the way the trainer does keeps the parts in agreement:
/// the pair's concatenated token is new, it gets the next ID, and the
/// merge gets the next rank.
pub proof fn lemma_add_merge_keeps_valid(
    tokens: Seq<Seq<u8>>,
    table: Map<Seq<u8>, u32>,
    merges: Map<(u32, u32), u32>,
    ranks: Map<(u32, u32), usize>,
    left: u32,
    right: u32,
)
    requires
        parts_valid(tokens, table, merges, ranks),
        merges.dom().finite(),
        ranks.dom().finite(),
        table.dom().finite(),
        tokens.len() <= u32::MAX,
        ranks.len() <= usize::MAX,
        (left as int) < tokens.len(),
        (right as int) < tokens.len(),
        !table.contains_key(tokens[left as int] + tokens[right as int]),
    ensures
        ({
            let merged = tokens[left as int] + tokens[right as int];
            let id = tokens.len() as u32;
            &&& !merges.contains_key((left, right))
            &&& !ranks.contains_key((left, right))
            &&& parts_valid(
                tokens.push(merged),
                table.insert(merged, id),
                merges.insert((left, right), id),
                ranks.insert((left, right), ranks.len() as usize),
            )
        }),
{
    let merged = tokens[left as int] + tokens[right as int];
    let id = tokens.len() as u32;
    let p = (left, right);
    let n = tokens.len() as int;
    lemma_valid_same_pairs(tokens, table, merges, ranks);
    lemma_valid_distinct_tokens(tokens, table, merges, ranks);
    if merges.contains_key(p) {
        assert(merge_ok(tokens, merges, ranks, p));
        assert(table.contains_key(tokens[merges[p] as int]));
    }
    assert(!ranks.contains_key(p));
    let tokens2 = tokens.push(merged);
    let table2 = table.insert(merged, id);
    let merges2 = merges.insert(p, id);
    let ranks2 = ranks.insert(p, ranks.len() as usize);
    // The byte tokens stay in place.
    assert forall|b: int| 0 <= b < 256 implies #[trigger] tokens2[b] == seq![b as u8] by {
        assert(tokens2[b] == tokens[b]);
    }
    // The table gains exactly the new token.
    assert(table2.dom() == table.dom().insert(merged));
    assert(table2.dom().len() == tokens2.len());
    assert forall|i: int| 0 <= i < tokens2.len() implies table2.contains_key(#[trigger] tokens2[i])
        && table2[tokens2[i]] == i as u32 by {
        if i < n {
            assert(tokens2[i] == tokens[i]);
            assert(tokens[i] != merged);
        }
    }
    // The merges gain exactly the new pair, with the next rank.
    assert(merges2.dom() == merges.dom().insert(p));
    assert(ranks2.dom() == ranks.dom().insert(p));
    assert(merges2.len() == ranks2.len());
    assert forall|q: (u32, u32)| #[trigger] merges2.contains_key(q) implies merge_ok(
        tokens2,
        merges2,
        ranks2,
        q,
    ) by {
        if q != p {
            assert(merge_ok(tokens, merges, ranks, q));
            assert(tokens2[merges[q] as int] == tokens[merges[q] as int]);
            assert(tokens2[q.0 as int] == tokens[q.0 as int]);
            assert(tokens2[q.1 as int] == tokens[q.1 as int]);
        } else {
            assert(tokens2[n] == merged);
        }
    }
    assert forall|q: (u32, u32), r: (u32, u32)|
        #[trigger] merges2.contains_key(q) && #[trigger] merges2.contains_key(r) && q != r implies ranks2[q]
        != ranks2[r] by {
        if q != p && r != p {
            assert(merges.contains_key(q) && merges.contains_key(r));
        } else if q == p {
            assert(merge_ok(tokens, merges, ranks, r));
        } else {
            assert(merge_ok(tokens, merges, ranks, q));
        }
    }
}

} // verus!
