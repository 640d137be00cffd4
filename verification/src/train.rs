//! Learning merge rules from a text.

use crate::chunks::count_pairs_chunked;
use crate::error::TokenizerError;
use crate::merge::{lemma_merged_elements, merge, merged, occurs, pair_at};
use crate::model::{merges_wf, MergeRule, BASE_TOKENS};
use crate::pairs::{
    count_pairs, is_most_common, lemma_count_positive_iff_occurs, lemma_leads_unique,
    lemma_most_common_exists, most_common_pair, pair_count, PairCounts,
};
use vstd::prelude::*;
use vstd::string::StringSliceAdditionalSpecFns;

verus! {

/// The bytes of a text as token ids: each byte is the id of its byte token.
pub open spec fn byte_ids(bytes: Seq<u8>) -> Seq<usize> {
    bytes.map_values(|b: u8| b as usize)
}

/// The merge table after `rounds` further rounds of learning, from the working
/// sequence `ids` and the rules `merges` learned so far. A round takes the most
/// common pair of the working sequence, gives it the next id, adds the rule to
/// the table and replaces the pair in the working sequence. Learning gives
/// `None` where a round finds fewer than two elements to work on.
pub open spec fn learn(ids: Seq<usize>, merges: Seq<MergeRule>, rounds: nat) -> Option<
    Seq<MergeRule>,
>
    decreases rounds,
{
    if rounds == 0 {
        Some(merges)
    } else if ids.len() < 2 {
        None
    } else {
        let pair = most_common_pair(ids);
        let id = (BASE_TOKENS + merges.len()) as usize;
        learn(
            merged(ids, pair.0, pair.1, id),
            merges.push(MergeRule { left: pair.0, right: pair.1, id }),
            (rounds - 1) as nat,
        )
    }
}

/// The merge table that training on a text with the given bytes learns for a
/// vocabulary of `vocab_size` tokens: one rule for each token beyond the 256
/// byte tokens. Training gives `None` where `vocab_size` is below 256 and where
/// the text is too short for that many rules.
pub open spec fn trained(bytes: Seq<u8>, vocab_size: usize) -> Option<Seq<MergeRule>> {
    if vocab_size < BASE_TOKENS {
        None
    } else {
        learn(byte_ids(bytes), seq![], (vocab_size - BASE_TOKENS) as nat)
    }
}

/// Whether every id of the sequence lies below `bound`.
pub open spec fn ids_below(ids: Seq<usize>, bound: int) -> bool {
    forall|i: int| 0 <= i < ids.len() ==> (#[trigger] ids[i]) < bound
}

/// The working sequence at the end of `rounds` further rounds of learning,
/// from the working sequence `ids` with `learned` rules learned so far.
pub open spec fn learned_ids(ids: Seq<usize>, learned: nat, rounds: nat) -> Seq<usize>
    decreases rounds,
{
    if rounds == 0 || ids.len() < 2 {
        ids
    } else {
        let pair = most_common_pair(ids);
        let id = (BASE_TOKENS + learned) as usize;
        learned_ids(merged(ids, pair.0, pair.1, id), learned + 1, (rounds - 1) as nat)
    }
}

/// A round of learning: its pair occurs in the working sequence, the table
/// with the new rule is a merge table, and the ids of the new working
/// sequence lie below the ids that the next rounds give out.
pub proof fn lemma_learn_round(ids: Seq<usize>, merges: Seq<MergeRule>)
    requires
        merges_wf(merges),
        ids_below(ids, BASE_TOKENS + merges.len()),
        BASE_TOKENS + merges.len() <= usize::MAX,
        ids.len() >= 2,
    ensures
        ({
            let pair = most_common_pair(ids);
            let id = (BASE_TOKENS + merges.len()) as usize;
            let more = merges.push(MergeRule { left: pair.0, right: pair.1, id });
            &&& occurs(ids, pair.0, pair.1)
            &&& pair.0 < id
            &&& pair.1 < id
            &&& merges_wf(more)
            &&& ids_below(merged(ids, pair.0, pair.1, id), BASE_TOKENS + more.len())
        }),
{
    let pair = most_common_pair(ids);
    let id = (BASE_TOKENS + merges.len()) as usize;
    let next = merged(ids, pair.0, pair.1, id);
    let more = merges.push(MergeRule { left: pair.0, right: pair.1, id });
    lemma_most_common_exists(ids);
    lemma_count_positive_iff_occurs(ids, pair.0, pair.1);
    let p = choose|p: int| pair_at(ids, p, pair.0, pair.1);
    assert(ids[p] == pair.0 && ids[p + 1] == pair.1);
    assert(merges_wf(more));
    lemma_merged_elements(ids, pair.0, pair.1, id);
    assert forall|j: int| 0 <= j < next.len() implies (#[trigger] next[j]) < BASE_TOKENS
        + more.len() by {
        let x = next[j];
        if x != id {
            let q = choose|q: int| 0 <= q < ids.len() && ids[q] == x;
        }
    }
}

/// Learning keeps a merge table a merge table, adds one rule per round, and
/// leaves the rules that it started from in their places.
pub proof fn lemma_learn_wf(ids: Seq<usize>, merges: Seq<MergeRule>, rounds: nat)
    requires
        merges_wf(merges),
        ids_below(ids, BASE_TOKENS + merges.len()),
        BASE_TOKENS + merges.len() + rounds <= usize::MAX,
    ensures
        learn(ids, merges, rounds) matches Some(table) ==> {
            &&& merges_wf(table)
            &&& table.len() == merges.len() + rounds
            &&& table.take(merges.len() as int) == merges
        },
    decreases rounds,
{
    if rounds > 0 && ids.len() >= 2 {
        let pair = most_common_pair(ids);
        let id = (BASE_TOKENS + merges.len()) as usize;
        let next = merged(ids, pair.0, pair.1, id);
        let more = merges.push(MergeRule { left: pair.0, right: pair.1, id });
        if learn(ids, merges, rounds) is Some {
            lemma_learn_round(ids, merges);
            lemma_learn_wf(next, more, (rounds - 1) as nat);
            let table = learn(ids, merges, rounds)->0;
            assert(table.take(merges.len() as int) =~= table.take(more.len() as int).take(
                merges.len() as int,
            ));
            assert(more.take(merges.len() as int) =~= merges);
        }
    } else if rounds == 0 {
        assert(merges.take(merges.len() as int) =~= merges);
    }
}

/// The bytes of a text as token ids.
pub fn byte_ids_of(text: &str) -> (ids: Vec<usize>)
    ensures
        ids@ == byte_ids(text.spec_bytes()),
{
    let bytes = text.as_bytes();
    let mut ids: Vec<usize> = Vec::new();
    let mut i: usize = 0;
    while i < bytes.len()
        invariant
            i <= bytes@.len(),
            bytes@ == text.spec_bytes(),
            ids@ == byte_ids(bytes@.take(i as int)),
        decreases bytes@.len() - i,
    {
        ids.push(bytes[i] as usize);
        assert(ids@ =~= byte_ids(bytes@.take(i + 1)));
        i = i + 1;
    }
    assert(bytes@.take(i as int) =~= bytes@);
    ids
}

/// The pair of a counts table that a round of learning picks for the sequence
/// that was counted: its most common pair, or `None` where it holds no pair.
pub fn pick_pair(counts: &PairCounts, ids: &Vec<usize>) -> (pair: Option<(usize, usize)>)
    requires
        counts.wf(),
        forall|a: usize, b: usize| #[trigger] counts.count(a, b) == pair_count(ids@, a, b),
    ensures
        pair == if ids@.len() < 2 {
            None
        } else {
            Some(most_common_pair(ids@))
        },
{
    let n = ids.len();
    match counts.most_common() {
        Some(e) => {
            proof {
                let mine = |a: usize, b: usize| counts.count(a, b);
                let theirs = |a: usize, b: usize| pair_count(ids@, a, b);
                assert(theirs(e.left, e.right) > 0);
                lemma_count_positive_iff_occurs(ids@, e.left, e.right);
                assert forall|a: usize, b: usize|
                    #![trigger theirs(a, b)]
                    theirs(a, b) < theirs(e.left, e.right) || (theirs(a, b) == theirs(
                        e.left,
                        e.right,
                    ) && crate::pairs::pair_le((e.left, e.right), (a, b))) by {
                    assert(mine(a, b) == theirs(a, b));
                }
                assert(is_most_common(ids@, e.left, e.right));
                lemma_most_common_exists(ids@);
                lemma_leads_unique(
                    theirs,
                    e.left,
                    e.right,
                    most_common_pair(ids@).0,
                    most_common_pair(ids@).1,
                );
            }
            Some((e.left, e.right))
        },
        None => {
            proof {
                if ids@.len() >= 2 {
                    assert(pair_at(ids@, 0, ids@[0], ids@[1]));
                    lemma_count_positive_iff_occurs(ids@, ids@[0], ids@[1]);
                    assert(counts.count(ids@[0], ids@[1]) == 0);
                }
            }
            None
        },
    }
}

/// Ends a round of learning: gives the pair the next id, adds the rule to the
/// table and replaces the pair in the working sequence.
pub fn record_merge(ids: &mut Vec<usize>, merges: &mut Vec<MergeRule>, left: usize, right: usize)
    requires
        BASE_TOKENS + old(merges)@.len() <= usize::MAX,
    ensures
        final(merges)@ == old(merges)@.push(
            MergeRule { left, right, id: (BASE_TOKENS + old(merges)@.len()) as usize },
        ),
        final(ids)@ == merged(
            old(ids)@,
            left,
            right,
            (BASE_TOKENS + old(merges)@.len()) as usize,
        ),
{
    let id: usize = BASE_TOKENS + merges.len();
    merges.push(MergeRule { left, right, id });
    let next = merge(ids, left, right, id);
    *ids = next;
}

/// Learns the merge table for a vocabulary of `vocab_size` tokens from a text.
/// With one worker the pairs are counted in one pass, with more in chunks.
/// Fails where `vocab_size` is below 256, and where the text runs out of pairs
/// before the table is full.
pub fn learn_merges(text: &str, vocab_size: usize, workers: usize) -> (result: Result<
    Vec<MergeRule>,
    TokenizerError,
>)
    ensures
        match trained(text.spec_bytes(), vocab_size) {
            Some(table) => result matches Ok(merges) && merges@ == table,
            None => result == Err::<Vec<MergeRule>, TokenizerError>(
                TokenizerError::PreconditionViolation,
            ),
        },
{
    if vocab_size < BASE_TOKENS {
        return Err(TokenizerError::PreconditionViolation);
    }
    let rounds: usize = vocab_size - BASE_TOKENS;
    let mut ids = byte_ids_of(text);
    let mut merges: Vec<MergeRule> = Vec::new();
    let mut done: usize = 0;
    while done < rounds
        invariant
            done <= rounds,
            rounds == vocab_size - BASE_TOKENS,
            merges@.len() == done,
            learn(ids@, merges@, (rounds - done) as nat) == trained(text.spec_bytes(), vocab_size),
        decreases rounds - done,
    {
        let counts = if workers <= 1 {
            count_pairs(&ids)
        } else {
            count_pairs_chunked(&ids, workers)
        };
        match pick_pair(&counts, &ids) {
            Some((left, right)) => {
                record_merge(&mut ids, &mut merges, left, right);
            },
            None => {
                return Err(TokenizerError::PreconditionViolation);
            },
        }
        done = done + 1;
    }
    Ok(merges)
}

} // verus!
