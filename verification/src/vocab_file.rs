//! The vocabulary file: the vocabulary as lines of text, for a reader.
//!
//! The file lists the tokens by ascending id, one on each line. The line of a
//! byte token or of a special token reads `[rendering] id`; the line of a token
//! that a rule made reads `[left][right] -> [rendering] id`, with the renderings
//! of the two tokens that the rule joins.

use crate::decimal::{decimal, push_decimal};
use crate::lines::{join_lines, lemma_join_take};
use crate::model::{
    lemma_vocabulary_entries, merges_wf, special_views, specials_apart, token_bytes, vocabulary,
    MergeRule, SpecialToken, SpecialTokenView, BASE_TOKENS,
};
use crate::render::{render_token, rendered};
use crate::vocab::Vocabulary;
use vstd::prelude::*;
use vstd::string::StringExecFns;
use vstd::utf8::encode_utf8;

verus! {

/// The line of a token that no rule made.
pub open spec fn plain_entry_line(bytes: Seq<u8>, id: usize) -> Seq<char> {
    "["@ + rendered(bytes) + "] "@ + decimal(id as nat)
}

/// The line of a token that a rule made from the tokens with the bytes `left`
/// and `right`.
pub open spec fn merged_entry_line(left: Seq<u8>, right: Seq<u8>, bytes: Seq<u8>, id: usize) -> Seq<
    char,
> {
    "["@ + rendered(left) + "]["@ + rendered(right) + "] -> ["@ + rendered(bytes) + "] "@
        + decimal(id as nat)
}

/// A list of special tokens in ascending order of ids, with one more put in at
/// its place: behind the tokens with the same or a lower id.
pub open spec fn insert_by_id(sorted: Seq<SpecialTokenView>, special: SpecialTokenView) -> Seq<
    SpecialTokenView,
>
    decreases sorted.len(),
{
    if sorted.len() == 0 || sorted.last().id <= special.id {
        sorted.push(special)
    } else {
        insert_by_id(sorted.drop_last(), special).push(sorted.last())
    }
}

/// The special tokens in ascending order of ids.
pub open spec fn sorted_by_id(specials: Seq<SpecialTokenView>) -> Seq<SpecialTokenView>
    decreases specials.len(),
{
    if specials.len() == 0 {
        seq![]
    } else {
        insert_by_id(sorted_by_id(specials.drop_last()), specials.last())
    }
}

/// Whether the ids of the list ascend.
pub open spec fn ascending(specials: Seq<SpecialTokenView>) -> bool {
    forall|i: int, j: int|
        0 <= i < j < specials.len() ==> (#[trigger] specials[i]).id <= (#[trigger] specials[j]).id
}

/// Putting a token into an ascending list gives an ascending list with the
/// same tokens and the new one.
pub proof fn lemma_insert_by_id(sorted: Seq<SpecialTokenView>, special: SpecialTokenView)
    requires
        ascending(sorted),
    ensures
        ascending(insert_by_id(sorted, special)),
        insert_by_id(sorted, special).to_multiset() == sorted.to_multiset().insert(special),
    decreases sorted.len(),
{
    broadcast use vstd::seq_lib::group_to_multiset_ensures;

    if sorted.len() == 0 || sorted.last().id <= special.id {
    } else {
        let shorter = sorted.drop_last();
        let last = sorted.last();
        lemma_insert_by_id(shorter, special);
        let placed = insert_by_id(shorter, special);
        let out = placed.push(last);
        assert(sorted =~= shorter.push(last));
        assert(out.to_multiset() =~= sorted.to_multiset().insert(special));
        assert forall|i: int, j: int| 0 <= i < j < out.len() implies (#[trigger] out[i]).id <= (
        #[trigger] out[j]).id by {
            if j == out.len() - 1 {
                // Every token of `placed` is the new one or one of `shorter`.
                assert(placed.to_multiset().count(out[i]) > 0);
                if out[i] != special {
                    assert(shorter.to_multiset().count(out[i]) > 0);
                    let k = choose|k: int| 0 <= k < shorter.len() && shorter[k] == out[i];
                    assert(sorted[k].id <= sorted[sorted.len() - 1].id);
                }
            }
        }
    }
}

/// The list that [`sorted_by_id`] gives ascends and holds the same tokens.
pub proof fn lemma_sorted_by_id(specials: Seq<SpecialTokenView>)
    ensures
        ascending(sorted_by_id(specials)),
        sorted_by_id(specials).to_multiset() == specials.to_multiset(),
        sorted_by_id(specials).len() == specials.len(),
    decreases specials.len(),
{
    broadcast use vstd::seq_lib::group_to_multiset_ensures;

    if specials.len() > 0 {
        lemma_sorted_by_id(specials.drop_last());
        lemma_insert_by_id(sorted_by_id(specials.drop_last()), specials.last());
        assert(specials =~= specials.drop_last().push(specials.last()));
    }
    assert(sorted_by_id(specials).to_multiset().len() == specials.to_multiset().len());
}

/// The lines of the vocabulary file of a merge table and special tokens.
pub open spec fn vocab_lines(merges: Seq<MergeRule>, specials: Seq<SpecialTokenView>) -> Seq<
    Seq<char>,
> {
    Seq::new(
        BASE_TOKENS as nat,
        |id: int| plain_entry_line(token_bytes(merges, id), id as usize),
    ) + merges.map_values(
        |rule: MergeRule|
            merged_entry_line(
                token_bytes(merges, rule.left as int),
                token_bytes(merges, rule.right as int),
                token_bytes(merges, rule.id as int),
                rule.id,
            ),
    ) + sorted_by_id(specials).map_values(
        |special: SpecialTokenView| plain_entry_line(encode_utf8(special.text), special.id),
    )
}

/// The text of the vocabulary file of a merge table and special tokens.
pub open spec fn vocab_text(merges: Seq<MergeRule>, specials: Seq<SpecialTokenView>) -> Seq<char> {
    join_lines(vocab_lines(merges, specials))
}

/// The special tokens at the given places of a list.
pub open spec fn picked(specials: Seq<SpecialTokenView>, order: Seq<usize>) -> Seq<
    SpecialTokenView,
> {
    Seq::new(order.len(), |k: int| specials[order[k] as int])
}

/// A token that belongs behind all tokens of an ascending list, or into an
/// empty one, is put at its end.
proof fn lemma_insert_at_end(sorted: Seq<SpecialTokenView>, special: SpecialTokenView)
    requires
        sorted.len() == 0 || sorted.last().id <= special.id,
    ensures
        insert_by_id(sorted, special) == sorted.push(special),
{
}

/// What stands behind the place of a token with a lower id stays behind it.
proof fn lemma_insert_before(sorted: Seq<SpecialTokenView>, special: SpecialTokenView, p: int)
    requires
        0 < p <= sorted.len(),
        sorted[p - 1].id > special.id,
        insert_by_id(sorted, special) == insert_by_id(sorted.take(p), special) + sorted.skip(p),
    ensures
        insert_by_id(sorted, special) == insert_by_id(sorted.take(p - 1), special) + sorted.skip(
            p - 1,
        ),
{
    let head = sorted.take(p);
    assert(head.last() == sorted[p - 1]);
    assert(head.drop_last() =~= sorted.take(p - 1));
    assert(insert_by_id(head, special) == insert_by_id(sorted.take(p - 1), special).push(
        sorted[p - 1],
    ));
    assert(insert_by_id(sorted.take(p - 1), special).push(sorted[p - 1]) + sorted.skip(p)
        =~= insert_by_id(sorted.take(p - 1), special) + sorted.skip(p - 1));
}

/// The places of the special tokens in ascending order of their ids.
pub fn sorted_order(specials: &Vec<SpecialToken>) -> (order: Vec<usize>)
    ensures
        order@.len() == specials@.len(),
        forall|k: int| 0 <= k < order@.len() ==> #[trigger] order@[k] < specials@.len(),
        picked(special_views(specials@), order@) == sorted_by_id(special_views(specials@)),
{
    let ghost views = special_views(specials@);
    let n: usize = specials.len();
    let mut order: Vec<usize> = Vec::new();
    let mut i: usize = 0;
    proof {
        assert(views.take(0) =~= Seq::<SpecialTokenView>::empty());
        assert(picked(views, order@) =~= sorted_by_id(views.take(0)));
    }
    while i < n
        invariant
            i <= n,
            n == specials@.len(),
            views == special_views(specials@),
            order@.len() == i,
            forall|k: int| 0 <= k < order@.len() ==> #[trigger] order@[k] < n,
            picked(views, order@) == sorted_by_id(views.take(i as int)),
        decreases n - i,
    {
        let ghost sorted = picked(views, order@);
        let ghost new = views[i as int];
        let id = specials[i].id;
        order.push(i);
        let mut p: usize = i;
        proof {
            assert(sorted.take(p as int) =~= sorted);
            assert(sorted.skip(p as int) =~= Seq::<SpecialTokenView>::empty());
            assert(insert_by_id(sorted, new) =~= insert_by_id(sorted.take(p as int), new)
                + sorted.skip(p as int));
            assert(picked(views, order@) =~= sorted.take(p as int).push(new) + sorted.skip(
                p as int,
            ));
        }
        while p > 0 && specials[order[p - 1]].id > id
            invariant
                p <= i < n,
                n == specials@.len(),
                views == special_views(specials@),
                new == views[i as int],
                new.id == id,
                sorted.len() == i,
                order@.len() == i + 1,
                order@[p as int] == i,
                forall|k: int| 0 <= k < order@.len() ==> #[trigger] order@[k] < n,
                picked(views, order@) == sorted.take(p as int).push(new) + sorted.skip(p as int),
                insert_by_id(sorted, new) == insert_by_id(sorted.take(p as int), new)
                    + sorted.skip(p as int),
            decreases p,
        {
            let before = order[p - 1];
            proof {
                assert(picked(views, order@)[p - 1] == views[before as int]);
                assert(sorted[p - 1] == views[before as int]);
                lemma_insert_before(sorted, new, p as int);
            }
            let ghost was = order@;
            order.set(p - 1, i);
            order.set(p, before);
            proof {
                assert(picked(views, order@) =~= sorted.take(p - 1).push(new) + sorted.skip(
                    p - 1,
                )) by {
                    let now = picked(views, order@);
                    let want = sorted.take(p - 1).push(new) + sorted.skip(p - 1);
                    assert(now.len() == want.len());
                    assert forall|k: int| 0 <= k < now.len() implies now[k] == want[k] by {
                        if k != p - 1 && k != p {
                            assert(order@[k] == was[k]);
                            assert(picked(views, was)[k] == views[was[k] as int]);
                        }
                    }
                }
            }
            p = p - 1;
        }
        proof {
            if p > 0 {
                assert(picked(views, order@)[p - 1] == views[order@[p - 1] as int]);
                assert(sorted.take(p as int).last() == sorted[p - 1]);
            }
            lemma_insert_at_end(sorted.take(p as int), new);
            assert(views.take(i + 1).drop_last() =~= views.take(i as int));
            assert(views.take(i + 1).last() == new);
        }
        i = i + 1;
    }
    assert(views.take(i as int) =~= views);
    order
}

/// The rendering of the token with the given id.
fn rendering_of(vocab: &Vocabulary, id: usize) -> (text: String)
    requires
        vocab@.contains_key(id),
    ensures
        text@ == rendered(vocab@[id]),
{
    match vocab.get(id) {
        Some(bytes) => render_token(bytes),
        None => String::new(),
    }
}

/// Writes the text of the vocabulary file of a merge table and special
/// tokens, with the vocabulary built from them.
pub fn write_vocab(specials: &Vec<SpecialToken>, merges: &Vec<MergeRule>, vocab: &Vocabulary) -> (out:
    String)
    requires
        merges_wf(merges@),
        specials_apart(merges@.len(), special_views(specials@)),
        vocab@ == vocabulary(merges@, special_views(specials@)),
    ensures
        out@ == vocab_text(merges@, special_views(specials@)),
{
    let ghost views = special_views(specials@);
    let ghost ls = vocab_lines(merges@, views);
    let n: usize = specials.len();
    let m: usize = merges.len();
    proof {
        lemma_vocabulary_entries(merges@, views);
        lemma_sorted_by_id(views);
        assert(ls.len() == BASE_TOKENS + m + n);
        assert(join_lines(ls.take(0)) =~= Seq::<char>::empty());
    }
    let mut out = String::new();
    let mut b: usize = 0;
    while b < BASE_TOKENS
        invariant
            b <= BASE_TOKENS,
            m == merges@.len(),
            n == specials@.len(),
            ls == vocab_lines(merges@, views),
            ls.len() == BASE_TOKENS + m + n,
            vocab@ == vocabulary(merges@, views),
            forall|id: usize|
                id < BASE_TOKENS + merges@.len() ==> #[trigger] vocab@.contains_key(id),
            forall|id: usize|
                id < BASE_TOKENS + merges@.len() ==> #[trigger] vocab@[id] == token_bytes(
                    merges@,
                    id as int,
                ),
            out@ == join_lines(ls.take(b as int)),
        decreases BASE_TOKENS - b,
    {
        proof {
            lemma_join_take(ls, b as int);
            assert(ls[b as int] == plain_entry_line(token_bytes(merges@, b as int), b));
        }
        let text = rendering_of(vocab, b);
        out.append("[");
        out.append(text.as_str());
        out.append("] ");
        push_decimal(&mut out, b);
        out.push('\n');
        assert(out@ =~= join_lines(ls.take(b + 1)));
        b = b + 1;
    }
    let mut j: usize = 0;
    while j < m
        invariant
            j <= m,
            m == merges@.len(),
            n == specials@.len(),
            merges_wf(merges@),
            ls == vocab_lines(merges@, views),
            ls.len() == BASE_TOKENS + m + n,
            vocab@ == vocabulary(merges@, views),
            forall|id: usize|
                id < BASE_TOKENS + merges@.len() ==> #[trigger] vocab@.contains_key(id),
            forall|id: usize|
                id < BASE_TOKENS + merges@.len() ==> #[trigger] vocab@[id] == token_bytes(
                    merges@,
                    id as int,
                ),
            out@ == join_lines(ls.take(BASE_TOKENS + j)),
        decreases m - j,
    {
        let rule = merges[j];
        proof {
            lemma_join_take(ls, BASE_TOKENS + j);
            assert(ls[BASE_TOKENS + j] == merged_entry_line(
                token_bytes(merges@, rule.left as int),
                token_bytes(merges@, rule.right as int),
                token_bytes(merges@, rule.id as int),
                rule.id,
            ));
        }
        let left = rendering_of(vocab, rule.left);
        let right = rendering_of(vocab, rule.right);
        let whole = rendering_of(vocab, rule.id);
        out.append("[");
        out.append(left.as_str());
        out.append("][");
        out.append(right.as_str());
        out.append("] -> [");
        out.append(whole.as_str());
        out.append("] ");
        push_decimal(&mut out, rule.id);
        out.push('\n');
        assert(out@ =~= join_lines(ls.take(BASE_TOKENS + j + 1)));
        j = j + 1;
    }
    let order = sorted_order(specials);
    let mut k: usize = 0;
    proof {
        lemma_vocabulary_entries(merges@, views);
        assert forall|i: int| 0 <= i < views.len() implies vocab@.contains_key(
            (#[trigger] views[i]).id,
        ) by {
            assert(crate::model::special_ids(views)[i] == views[i].id);
        }
    }
    while k < n
        invariant
            k <= n,
            m == merges@.len(),
            n == specials@.len(),
            views == special_views(specials@),
            ls == vocab_lines(merges@, views),
            ls.len() == BASE_TOKENS + m + n,
            vocab@ == vocabulary(merges@, views),
            order@.len() == n,
            forall|i: int| 0 <= i < order@.len() ==> #[trigger] order@[i] < specials@.len(),
            picked(views, order@) == sorted_by_id(views),
            forall|i: int|
                0 <= i < views.len() ==> vocab@.contains_key((#[trigger] views[i]).id)
                    && vocab@[views[i].id] == encode_utf8(views[i].text),
            out@ == join_lines(ls.take(BASE_TOKENS + m + k)),
        decreases n - k,
    {
        let at = order[k];
        let id = specials[at].id;
        proof {
            lemma_join_take(ls, BASE_TOKENS + m + k);
            assert(picked(views, order@)[k as int] == views[at as int]);
            assert(ls[BASE_TOKENS + m + k] == plain_entry_line(
                encode_utf8(views[at as int].text),
                views[at as int].id,
            ));
        }
        let text = rendering_of(vocab, id);
        out.append("[");
        out.append(text.as_str());
        out.append("] ");
        push_decimal(&mut out, id);
        out.push('\n');
        assert(out@ =~= join_lines(ls.take(BASE_TOKENS + m + k + 1)));
        k = k + 1;
    }
    assert(ls.take(BASE_TOKENS + m + n) =~= ls);
    out
}

} // verus!
