//! The bytes behind a sequence of ids, and why encoding keeps them.

use crate::encode::{encode_ids, is_first_applicable, lemma_encode_step};
use crate::merge::{lemma_merged_elements, lemma_merged_shorter, merged};
use crate::model::{expansion, merges_wf, token_bytes, MergeRule, BASE_TOKENS};
use crate::train::{byte_ids, ids_below};
use vstd::prelude::*;

verus! {

/// The bytes of two sequences in a row are the bytes of the first followed by
/// those of the second.
pub proof fn lemma_expansion_concat(merges: Seq<MergeRule>, first: Seq<usize>, second: Seq<usize>)
    ensures
        expansion(merges, first + second) == expansion(merges, first) + expansion(merges, second),
    decreases second.len(),
{
    if second.len() == 0 {
        assert(first + second =~= first);
        assert(expansion(merges, first) + expansion(merges, second) =~= expansion(merges, first));
    } else {
        lemma_expansion_concat(merges, first, second.drop_last());
        assert((first + second).drop_last() =~= first + second.drop_last());
        assert((first + second).last() == second.last());
        assert(expansion(merges, first + second) =~= expansion(merges, first) + expansion(
            merges,
            second,
        ));
    }
}

/// The ids of the bytes of a text stand for those bytes.
pub proof fn lemma_expansion_of_bytes(merges: Seq<MergeRule>, bytes: Seq<u8>)
    ensures
        expansion(merges, byte_ids(bytes)) == bytes,
        ids_below(byte_ids(bytes), BASE_TOKENS as int),
    decreases bytes.len(),
{
    let ids = byte_ids(bytes);
    if bytes.len() > 0 {
        lemma_expansion_of_bytes(merges, bytes.drop_last());
        assert(ids.drop_last() =~= byte_ids(bytes.drop_last()));
        assert(token_bytes(merges, ids.last() as int) =~= seq![bytes.last()]);
        assert(expansion(merges, ids) =~= bytes);
    }
}

/// Replacing a pair by an id that stands for the bytes of the pair keeps the
/// bytes of the sequence.
pub proof fn lemma_expansion_merged(
    merges: Seq<MergeRule>,
    ids: Seq<usize>,
    left: usize,
    right: usize,
    new_id: usize,
)
    requires
        token_bytes(merges, new_id as int) == token_bytes(merges, left as int) + token_bytes(
            merges,
            right as int,
        ),
    ensures
        expansion(merges, merged(ids, left, right, new_id)) == expansion(merges, ids),
    decreases ids.len(),
{
    if ids.len() >= 2 {
        let k: int = if ids[0] == left && ids[1] == right {
            2
        } else {
            1
        };
        let head = ids.take(k);
        let rest = ids.skip(k);
        let new_head = if k == 2 {
            seq![new_id]
        } else {
            seq![ids[0]]
        };
        lemma_expansion_merged(merges, rest, left, right, new_id);
        lemma_expansion_concat(merges, head, rest);
        lemma_expansion_concat(merges, new_head, merged(rest, left, right, new_id));
        assert(ids =~= head + rest);
        lemma_expansion_single(merges, new_head[0]);
        assert(new_head =~= seq![new_head[0]]);
        if k == 2 {
            lemma_expansion_single(merges, left);
            lemma_expansion_single(merges, right);
            lemma_expansion_concat(merges, seq![left], seq![right]);
            assert(head =~= seq![left] + seq![right]);
        } else {
            assert(head =~= new_head);
        }
    }
}

/// A single id stands for the bytes of its token.
pub proof fn lemma_expansion_single(merges: Seq<MergeRule>, id: usize)
    ensures
        expansion(merges, seq![id]) == token_bytes(merges, id as int),
{
    let one = seq![id];
    assert(one.drop_last() =~= Seq::<usize>::empty());
    assert(expansion(merges, one.drop_last()) =~= Seq::<u8>::empty());
    assert(expansion(merges, one) =~= token_bytes(merges, id as int));
}

/// Encoding keeps the bytes of a sequence, and keeps its ids below the ids of
/// the merge table.
pub proof fn lemma_expansion_encoded(merges: Seq<MergeRule>, ids: Seq<usize>)
    requires
        merges_wf(merges),
        ids_below(ids, BASE_TOKENS + merges.len()),
    ensures
        expansion(merges, encode_ids(merges, ids)) == expansion(merges, ids),
        ids_below(encode_ids(merges, ids), BASE_TOKENS + merges.len()),
    decreases ids.len(),
{
    if exists|i: int| is_first_applicable(merges, ids, i) {
        let i = choose|i: int| is_first_applicable(merges, ids, i);
        let rule = merges[i];
        let next = merged(ids, rule.left, rule.right, rule.id);
        lemma_encode_step(merges, ids, i);
        lemma_merged_shorter(ids, rule.left, rule.right, rule.id);
        lemma_merged_elements(ids, rule.left, rule.right, rule.id);
        assert(ids_below(next, BASE_TOKENS + merges.len())) by {
            assert forall|j: int| 0 <= j < next.len() implies (#[trigger] next[j]) < BASE_TOKENS
                + merges.len() by {
                let x = next[j];
                if x != rule.id {
                    let q = choose|q: int| 0 <= q < ids.len() && ids[q] == x;
                }
            }
        }
        lemma_expansion_merged(merges, ids, rule.left, rule.right, rule.id);
        lemma_expansion_encoded(merges, next);
    }
}

} // verus!
