//! Counting pairs in contiguous chunks, one chunk per worker.
//!
//! A sequence is cut into as many chunks as there are workers. Each worker
//! counts the pairs that start inside its chunk, the pair that reaches over into
//! the next chunk included, so that every pair of the sequence is counted by
//! exactly one worker. The workers' tables are then added up. The functions here
//! do the work of one worker and the adding up; who runs the workers, and on
//! which threads, is the caller's choice.

use crate::pairs::{
    count_pairs_between, lemma_pairs_between_bound, lemma_pairs_between_clip,
    lemma_pairs_between_split, pair_count, pair_counts, pairs_between, PairCounts,
};
use vstd::prelude::*;

verus! {

/// The number of workers that a request for `workers` workers is served with:
/// a request for none is served with one.
pub open spec fn worker_count(workers: usize) -> int {
    if workers == 0 {
        1
    } else {
        workers as int
    }
}

/// The number of elements in every chunk but the last.
pub open spec fn chunk_size(len: int, workers: usize) -> int {
    len / worker_count(workers)
}

/// The position at which chunk `i` starts.
pub open spec fn chunk_start(len: int, workers: usize, i: int) -> int {
    i * chunk_size(len, workers)
}

/// The position behind the last element of chunk `i`. The last chunk takes the
/// elements that the division leaves over.
pub open spec fn chunk_end(len: int, workers: usize, i: int) -> int {
    if i == worker_count(workers) - 1 {
        len
    } else {
        (i + 1) * chunk_size(len, workers)
    }
}

/// What worker `i` counts for a pair: its occurrences that start in chunk `i`.
pub open spec fn chunk_pair_count(
    ids: Seq<usize>,
    workers: usize,
    i: int,
    left: usize,
    right: usize,
) -> nat {
    pairs_between(
        ids,
        chunk_start(ids.len() as int, workers, i),
        chunk_end(ids.len() as int, workers, i),
        left,
        right,
    )
}

/// The sum of what the first `upto` workers count for a pair.
pub open spec fn chunked_pair_count(
    ids: Seq<usize>,
    workers: usize,
    upto: int,
    left: usize,
    right: usize,
) -> nat
    decreases upto,
{
    if upto <= 0 {
        0
    } else {
        chunked_pair_count(ids, workers, upto - 1, left, right) + chunk_pair_count(
            ids,
            workers,
            upto - 1,
            left,
            right,
        )
    }
}

/// The chunks lie one behind the other inside the sequence, from its first
/// position to its end.
pub proof fn lemma_chunk_bounds(len: int, workers: usize, i: int)
    requires
        0 <= len,
        0 <= i < worker_count(workers),
    ensures
        0 <= chunk_start(len, workers, i) <= chunk_end(len, workers, i) <= len,
        chunk_start(len, workers, 0) == 0,
        i > 0 ==> chunk_start(len, workers, i) == chunk_end(len, workers, i - 1),
        chunk_end(len, workers, worker_count(workers) - 1) == len,
{
    let k = worker_count(workers);
    let size = len / k;
    assert(0 <= size && size * k <= len) by (nonlinear_arith)
        requires
            0 <= len,
            k >= 1,
            size == len / k,
    ;
    assert(0 <= i * size && i * size <= (i + 1) * size && (i + 1) * size <= k * size)
        by (nonlinear_arith)
        requires
            0 <= i < k,
            0 <= size,
    ;
    assert(k * size == size * k) by (nonlinear_arith);
    assert(0 * size == 0);
}

/// What the first `upto` workers count together is what one pass counts from
/// the first position to the start of the next chunk.
pub proof fn lemma_chunked_prefix(
    ids: Seq<usize>,
    workers: usize,
    upto: int,
    left: usize,
    right: usize,
)
    requires
        0 <= upto <= worker_count(workers),
    ensures
        chunked_pair_count(ids, workers, upto, left, right) == pairs_between(
            ids,
            0,
            if upto == 0 {
                0
            } else {
                chunk_end(ids.len() as int, workers, upto - 1)
            },
            left,
            right,
        ),
    decreases upto,
{
    let len = ids.len() as int;
    if upto > 0 {
        lemma_chunked_prefix(ids, workers, upto - 1, left, right);
        lemma_chunk_bounds(len, workers, upto - 1);
        lemma_pairs_between_split(
            ids,
            0,
            chunk_start(len, workers, upto - 1),
            chunk_end(len, workers, upto - 1),
            left,
            right,
        );
    }
}

/// The workers together count each pair as often as one pass over the whole
/// sequence does, whatever the number of workers.
pub proof fn lemma_chunked_equals_sequential(
    ids: Seq<usize>,
    workers: usize,
    left: usize,
    right: usize,
)
    ensures
        chunked_pair_count(ids, workers, worker_count(workers), left, right) == pair_count(
            ids,
            left,
            right,
        ),
{
    let len = ids.len() as int;
    let k = worker_count(workers);
    lemma_chunked_prefix(ids, workers, k, left, right);
    lemma_chunk_bounds(len, workers, k - 1);
    lemma_pairs_between_clip(ids, len - 1, len, left, right);
    if len > 0 {
        lemma_pairs_between_split(ids, 0, len - 1, len, left, right);
    }
}

/// The bounds of chunk `i`: the position at which it starts and the position
/// behind its last element.
pub fn chunk_bounds(len: usize, workers: usize, i: usize) -> (bounds: (usize, usize))
    requires
        i < worker_count(workers),
    ensures
        bounds.0 == chunk_start(len as int, workers, i as int),
        bounds.1 == chunk_end(len as int, workers, i as int),
        bounds.0 <= bounds.1 <= len,
{
    let k: usize = if workers == 0 {
        1
    } else {
        workers
    };
    let size: usize = len / k;
    proof {
        lemma_chunk_bounds(len as int, workers, i as int);
        assert((i + 1) * size == i * size + size) by (nonlinear_arith);
    }
    let start: usize = i * size;
    let end: usize = if i == k - 1 {
        len
    } else {
        start + size
    };
    (start, end)
}

/// The work of worker `i`: counts the pairs that start in chunk `i`.
pub fn count_chunk(ids: &Vec<usize>, workers: usize, i: usize) -> (table: PairCounts)
    requires
        i < worker_count(workers),
    ensures
        table.wf(),
        forall|a: usize, b: usize| #[trigger]
            table.count(a, b) == chunk_pair_count(ids@, workers, i as int, a, b),
{
    let (start, end) = chunk_bounds(ids.len(), workers, i);
    count_pairs_between(ids, start, end)
}

/// Counts the adjacent pairs of `ids` chunk by chunk, as `workers` workers
/// would, and adds up their tables. The result is that of
/// [`count_pairs`](crate::pairs::count_pairs).
pub fn count_pairs_chunked(ids: &Vec<usize>, workers: usize) -> (table: PairCounts)
    ensures
        table.wf(),
        forall|a: usize, b: usize| #[trigger] table.count(a, b) == pair_count(ids@, a, b),
        table@ == pair_counts(ids@),
{
    let k: usize = if workers == 0 {
        1
    } else {
        workers
    };
    let n: usize = ids.len();
    let mut total = PairCounts::new();
    let mut i: usize = 0;
    while i < k
        invariant
            n == ids@.len(),
            k == worker_count(workers),
            i <= k,
            total.wf(),
            forall|a: usize, b: usize| #[trigger]
                total.count(a, b) == chunked_pair_count(ids@, workers, i as int, a, b),
        decreases k - i,
    {
        let local = count_chunk(ids, workers, i);
        proof {
            assert forall|a: usize, b: usize|
                #![trigger local.count(a, b)]
                total.count(a, b) + local.count(a, b) <= usize::MAX by {
                lemma_chunked_prefix(ids@, workers, i + 1, a, b);
                lemma_chunk_bounds(ids@.len() as int, workers, i as int);
                assert(chunked_pair_count(ids@, workers, i + 1, a, b) == total.count(a, b)
                    + local.count(a, b));
                lemma_pairs_between_bound(
                    ids@,
                    0,
                    chunk_end(ids@.len() as int, workers, i as int),
                    a,
                    b,
                );
            }
        }
        total.merge_from(&local);
        i = i + 1;
    }
    proof {
        assert forall|a: usize, b: usize| #[trigger]
            total.count(a, b) == pair_count(ids@, a, b) by {
            lemma_chunked_equals_sequential(ids@, workers, a, b);
        }
        assert(total@ =~= pair_counts(ids@));
    }
    total
}

} // verus!
