//! Rewriting an id sequence by replacing the occurrences of one pair.

use vstd::prelude::*;

verus! {

/// Whether `left` stands directly before `right` at position `p` of `ids`.
pub open spec fn pair_at(ids: Seq<usize>, p: int, left: usize, right: usize) -> bool {
    0 <= p && p + 1 < ids.len() && ids[p] == left && ids[p + 1] == right
}

/// Whether `left` stands directly before `right` somewhere in `ids`.
pub open spec fn occurs(ids: Seq<usize>, left: usize, right: usize) -> bool {
    exists|p: int| pair_at(ids, p, left, right)
}

/// The result of one pass over `ids` from the left: where the current element is
/// `left` and the next is `right`, both give way to a single `new_id` and the
/// pass goes on behind them; any other element is kept and the pass goes on one
/// position further.
pub open spec fn merged(ids: Seq<usize>, left: usize, right: usize, new_id: usize) -> Seq<usize>
    decreases ids.len(),
{
    if ids.len() < 2 {
        ids
    } else if ids[0] == left && ids[1] == right {
        seq![new_id] + merged(ids.skip(2), left, right, new_id)
    } else {
        seq![ids[0]] + merged(ids.skip(1), left, right, new_id)
    }
}

/// The number of replacements that the pass of [`merged`] makes.
pub open spec fn merge_matches(ids: Seq<usize>, left: usize, right: usize) -> nat
    decreases ids.len(),
{
    if ids.len() < 2 {
        0
    } else if ids[0] == left && ids[1] == right {
        1 + merge_matches(ids.skip(2), left, right)
    } else {
        merge_matches(ids.skip(1), left, right)
    }
}

/// Each replacement shortens the sequence by one element.
pub proof fn lemma_merged_len(ids: Seq<usize>, left: usize, right: usize, new_id: usize)
    ensures
        merged(ids, left, right, new_id).len() + merge_matches(ids, left, right) == ids.len(),
    decreases ids.len(),
{
    if ids.len() < 2 {
    } else if ids[0] == left && ids[1] == right {
        lemma_merged_len(ids.skip(2), left, right, new_id);
    } else {
        lemma_merged_len(ids.skip(1), left, right, new_id);
    }
}

/// A pair that occurs is replaced at least once; one that does not occur leaves
/// the sequence as it is.
pub proof fn lemma_matches_iff_occurs(ids: Seq<usize>, left: usize, right: usize, new_id: usize)
    ensures
        occurs(ids, left, right) <==> merge_matches(ids, left, right) > 0,
        !occurs(ids, left, right) ==> merged(ids, left, right, new_id) == ids,
    decreases ids.len(),
{
    if ids.len() < 2 {
    } else if ids[0] == left && ids[1] == right {
        assert(pair_at(ids, 0, left, right));
    } else {
        let rest = ids.skip(1);
        lemma_matches_iff_occurs(rest, left, right, new_id);
        if occurs(ids, left, right) {
            let p = choose|p: int| pair_at(ids, p, left, right);
            assert(pair_at(rest, p - 1, left, right));
        }
        if occurs(rest, left, right) {
            let p = choose|p: int| pair_at(rest, p, left, right);
            assert(pair_at(ids, p + 1, left, right));
        }
        if !occurs(ids, left, right) {
            assert(merged(ids, left, right, new_id) =~= ids);
        }
    }
}

/// Replacing a pair that occurs yields a strictly shorter sequence.
pub proof fn lemma_merged_shorter(ids: Seq<usize>, left: usize, right: usize, new_id: usize)
    requires
        occurs(ids, left, right),
    ensures
        merged(ids, left, right, new_id).len() < ids.len(),
{
    lemma_merged_len(ids, left, right, new_id);
    lemma_matches_iff_occurs(ids, left, right, new_id);
}

/// Every element of the rewritten sequence is `new_id` or an element of `ids`.
pub proof fn lemma_merged_elements(ids: Seq<usize>, left: usize, right: usize, new_id: usize)
    ensures
        forall|j: int|
            0 <= j < merged(ids, left, right, new_id).len() ==> {
                let x = #[trigger] merged(ids, left, right, new_id)[j];
                x == new_id || ids.contains(x)
            },
    decreases ids.len(),
{
    let out = merged(ids, left, right, new_id);
    if ids.len() < 2 {
    } else {
        let k: int = if ids[0] == left && ids[1] == right { 2 } else { 1 };
        let rest = ids.skip(k);
        lemma_merged_elements(rest, left, right, new_id);
        let tail = merged(rest, left, right, new_id);
        assert forall|j: int| 0 <= j < out.len() implies ({
            let x = #[trigger] out[j];
            x == new_id || ids.contains(x)
        }) by {
            if j > 0 {
                let x = tail[j - 1];
                assert(out[j] == x);
                if x != new_id {
                    let q = choose|q: int| 0 <= q < rest.len() && rest[q] == x;
                    assert(ids[q + k] == x);
                }
            } else if k == 1 {
                assert(ids[0] == out[0]);
            }
        }
    }
}

/// The head of the rewritten sequence is `new_id` or the head of `ids`.
proof fn lemma_merged_head(ids: Seq<usize>, left: usize, right: usize, new_id: usize)
    requires
        ids.len() > 0,
    ensures
        merged(ids, left, right, new_id).len() > 0,
        merged(ids, left, right, new_id)[0] == new_id || merged(ids, left, right, new_id)[0]
            == ids[0],
        merged(ids, left, right, new_id)[0] == new_id && new_id != ids[0] ==> ids.len() >= 2
            && ids[0] == left && ids[1] == right,
{
}

/// Once a pair has been replaced by an id that is neither of its two ids, the
/// pair occurs no more.
pub proof fn lemma_merged_pair_gone(ids: Seq<usize>, left: usize, right: usize, new_id: usize)
    requires
        new_id != left,
        new_id != right,
    ensures
        !occurs(merged(ids, left, right, new_id), left, right),
    decreases ids.len(),
{
    let out = merged(ids, left, right, new_id);
    if ids.len() >= 2 {
        let k: int = if ids[0] == left && ids[1] == right {
            2
        } else {
            1
        };
        let rest = ids.skip(k);
        let tail = merged(rest, left, right, new_id);
        lemma_merged_pair_gone(rest, left, right, new_id);
        if occurs(out, left, right) {
            let p = choose|p: int| pair_at(out, p, left, right);
            if p > 0 {
                assert(pair_at(tail, p - 1, left, right));
            } else {
                // The pair would start with the kept head of `ids`, before a
                // `right` that the pass did not take with it.
                assert(out[1] == tail[0]);
                lemma_merged_head(rest, left, right, new_id);
                assert(rest[0] == ids[1]);
            }
        }
    } else if occurs(out, left, right) {
        let p = choose|p: int| pair_at(out, p, left, right);
    }
}

/// Replacing a pair brings no two ids together that did not stand together
/// before: a pair without `new_id` that occurs afterwards occurred before.
pub proof fn lemma_merged_no_new_pair(
    ids: Seq<usize>,
    left: usize,
    right: usize,
    new_id: usize,
    a: usize,
    b: usize,
)
    requires
        a != new_id,
        b != new_id,
        occurs(merged(ids, left, right, new_id), a, b),
    ensures
        occurs(ids, a, b),
    decreases ids.len(),
{
    let out = merged(ids, left, right, new_id);
    let p = choose|p: int| pair_at(out, p, a, b);
    if ids.len() >= 2 {
        let k: int = if ids[0] == left && ids[1] == right {
            2
        } else {
            1
        };
        let rest = ids.skip(k);
        let tail = merged(rest, left, right, new_id);
        if p > 0 {
            assert(pair_at(tail, p - 1, a, b));
            lemma_merged_no_new_pair(rest, left, right, new_id, a, b);
            let q = choose|q: int| pair_at(rest, q, a, b);
            assert(pair_at(ids, q + k, a, b));
        } else {
            assert(out[1] == tail[0]);
            lemma_merged_head(rest, left, right, new_id);
            assert(rest[0] == ids[1]);
            assert(pair_at(ids, 0, a, b));
        }
    } else {
        assert(pair_at(ids, p, a, b));
    }
}

/// Replaces every non-overlapping occurrence of `left, right` in `ids` by
/// `new_id`, scanning from the left.
pub fn merge(ids: &Vec<usize>, left: usize, right: usize, new_id: usize) -> (out: Vec<usize>)
    ensures
        out@ == merged(ids@, left, right, new_id),
        out@.len() == ids@.len() - merge_matches(ids@, left, right),
{
    let n: usize = ids.len();
    let mut out: Vec<usize> = Vec::new();
    let mut i: usize = 0;
    proof {
        assert(ids@.skip(0) =~= ids@);
        assert(out@ + merged(ids@, left, right, new_id) =~= merged(ids@, left, right, new_id));
    }
    while i < n
        invariant
            n == ids@.len(),
            i <= n,
            out@ + merged(ids@.skip(i as int), left, right, new_id) == merged(
                ids@,
                left,
                right,
                new_id,
            ),
        decreases n - i,
    {
        let ghost rest = ids@.skip(i as int);
        let ghost before = out@;
        if i + 1 < n && ids[i] == left && ids[i + 1] == right {
            out.push(new_id);
            proof {
                assert(rest.skip(2) =~= ids@.skip(i + 2));
                assert(out@ + merged(ids@.skip(i + 2), left, right, new_id) =~= before + merged(
                    rest,
                    left,
                    right,
                    new_id,
                ));
            }
            i = i + 2;
        } else {
            out.push(ids[i]);
            proof {
                assert(rest.skip(1) =~= ids@.skip(i + 1));
                assert(out@ + merged(ids@.skip(i + 1), left, right, new_id) =~= before + merged(
                    rest,
                    left,
                    right,
                    new_id,
                ));
            }
            i = i + 1;
        }
    }
    proof {
        assert(out@ + merged(ids@.skip(i as int), left, right, new_id) =~= out@);
        lemma_merged_len(ids@, left, right, new_id);
    }
    out
}

} // verus!
