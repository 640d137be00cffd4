//! What a tokenizer has learned: its merge rules and special tokens, and the
//! bytes that each token id stands for.

use crate::lines::one_line;
use vstd::prelude::*;
use vstd::utf8::encode_utf8;

verus! {

/// The number of byte tokens. The ids below it stand for the single bytes, and
/// the first merge rule gets this id.
pub const BASE_TOKENS: usize = 256;

/// A merge rule: wherever `left` stands directly before `right`, the two give
/// way to `id`.
#[derive(Clone, Copy, Debug, PartialEq, Eq, Structural)]
pub struct MergeRule {
    pub left: usize,
    pub right: usize,
    pub id: usize,
}

/// A special token: a text with an id that is reserved for it.
#[derive(Clone, Debug, PartialEq, Eq)]
pub struct SpecialToken {
    pub text: String,
    pub id: usize,
}

/// A special token as a mathematical value.
pub struct SpecialTokenView {
    pub text: Seq<char>,
    pub id: usize,
}

impl View for SpecialToken {
    type V = SpecialTokenView;

    open spec fn view(&self) -> SpecialTokenView {
        SpecialTokenView { text: self.text@, id: self.id }
    }
}

/// The special tokens of a list as mathematical values.
pub open spec fn special_views(specials: Seq<SpecialToken>) -> Seq<SpecialTokenView> {
    specials.map_values(|t: SpecialToken| t@)
}

/// Whether `merges` is a merge table: the rules have the ids from 256 on, in
/// order and without gaps, and each rule joins two ids below its own.
pub open spec fn merges_wf(merges: Seq<MergeRule>) -> bool {
    forall|i: int|
        0 <= i < merges.len() ==> {
            let rule = #[trigger] merges[i];
            &&& rule.id == BASE_TOKENS + i
            &&& rule.left < rule.id
            &&& rule.right < rule.id
        }
}

/// The bytes that the id stands for under `merges`: the byte itself for a byte
/// token, and for the id of a rule the bytes of its left id followed by those
/// of its right id. Any other id stands for nothing.
pub open spec fn token_bytes(merges: Seq<MergeRule>, id: int) -> Seq<u8>
    decreases id,
{
    if 0 <= id < BASE_TOKENS {
        seq![id as u8]
    } else if BASE_TOKENS <= id < BASE_TOKENS + merges.len() {
        let rule = merges[id - BASE_TOKENS];
        if rule.left < id && rule.right < id {
            token_bytes(merges, rule.left as int) + token_bytes(merges, rule.right as int)
        } else {
            seq![]
        }
    } else {
        seq![]
    }
}

/// The bytes that a sequence of ids stands for, one token after the other.
pub open spec fn expansion(merges: Seq<MergeRule>, ids: Seq<usize>) -> Seq<u8>
    decreases ids.len(),
{
    if ids.len() == 0 {
        seq![]
    } else {
        expansion(merges, ids.drop_last()) + token_bytes(merges, ids.last() as int)
    }
}

/// The vocabulary of the byte tokens and the merge rules alone.
pub open spec fn merge_vocabulary(merges: Seq<MergeRule>) -> Map<usize, Seq<u8>> {
    Map::new(
        |id: usize| id < BASE_TOKENS + merges.len(),
        |id: usize| token_bytes(merges, id as int),
    )
}

/// The vocabulary: the byte tokens and the merge rules, and then each special
/// token in turn under its id, with the UTF-8 encoding of its text. Nothing
/// keeps a special token from taking the place of an entry with the same id.
pub open spec fn vocabulary(merges: Seq<MergeRule>, specials: Seq<SpecialTokenView>) -> Map<
    usize,
    Seq<u8>,
>
    decreases specials.len(),
{
    if specials.len() == 0 {
        merge_vocabulary(merges)
    } else {
        vocabulary(merges, specials.drop_last()).insert(
            specials.last().id,
            encode_utf8(specials.last().text),
        )
    }
}

/// Whether the special tokens keep clear of the other ids and of each other:
/// each id lies behind the ids of the byte tokens and of the rules, and no two
/// special tokens share an id.
pub open spec fn specials_apart(rules: nat, specials: Seq<SpecialTokenView>) -> bool {
    &&& forall|i: int|
        0 <= i < specials.len() ==> (#[trigger] specials[i]).id >= BASE_TOKENS + rules
    &&& forall|i: int, j: int|
        0 <= i < j < specials.len() ==> (#[trigger] specials[i]).id != (#[trigger] specials[j]).id
}

/// The ids of the special tokens, in the order of the tokens.
pub open spec fn special_ids(specials: Seq<SpecialTokenView>) -> Seq<usize> {
    specials.map_values(|s: SpecialTokenView| s.id)
}

/// The entries of a vocabulary whose special tokens keep clear of the other
/// ids: the byte tokens and the tokens of the rules stand under their ids with
/// their bytes, each special token stands under its id with the UTF-8 encoding
/// of its text, and nothing else is there.
pub proof fn lemma_vocabulary_entries(merges: Seq<MergeRule>, specials: Seq<SpecialTokenView>)
    requires
        specials_apart(merges.len(), specials),
    ensures
        forall|id: usize|
            #[trigger] vocabulary(merges, specials).contains_key(id) <==> (id < BASE_TOKENS
                + merges.len() || special_ids(specials).contains(id)),
        forall|id: usize|
            id < BASE_TOKENS + merges.len() ==> #[trigger] vocabulary(merges, specials)[id]
                == token_bytes(merges, id as int),
        forall|i: int|
            0 <= i < specials.len() ==> vocabulary(merges, specials)[(#[trigger] specials[i]).id]
                == encode_utf8(specials[i].text),
    decreases specials.len(),
{
    let vocab = vocabulary(merges, specials);
    let ids = special_ids(specials);
    if specials.len() > 0 {
        let before = specials.drop_last();
        let last = specials.last();
        assert(specials_apart(merges.len(), before)) by {
            assert forall|i: int| 0 <= i < before.len() implies (#[trigger] before[i]).id
                >= BASE_TOKENS + merges.len() by {
                assert(before[i] == specials[i]);
            }
            assert forall|i: int, j: int| 0 <= i < j < before.len() implies (
            #[trigger] before[i]).id != (#[trigger] before[j]).id by {
                assert(before[i] == specials[i]);
                assert(before[j] == specials[j]);
            }
        }
        lemma_vocabulary_entries(merges, before);
        let ids_before = special_ids(before);
        let smaller = vocabulary(merges, before);
        assert(vocab == smaller.insert(last.id, encode_utf8(last.text)));
        assert forall|id: usize| #[trigger]
            vocab.contains_key(id) <==> (id < BASE_TOKENS + merges.len() || ids.contains(
                id,
            )) by {
            assert(smaller.contains_key(id) <==> (id < BASE_TOKENS + merges.len()
                || ids_before.contains(id)));
            if ids_before.contains(id) {
                let i = choose|i: int| 0 <= i < ids_before.len() && ids_before[i] == id;
                assert(ids[i] == id);
            }
            if ids.contains(id) {
                let i = choose|i: int| 0 <= i < ids.len() && ids[i] == id;
                if i < before.len() {
                    assert(ids_before[i] == id);
                }
            }
            if id == last.id {
                assert(ids[specials.len() - 1] == id);
            }
        }
        assert forall|i: int| 0 <= i < specials.len() implies vocab[(#[trigger] specials[i]).id]
            == encode_utf8(specials[i].text) by {
            if i < before.len() {
                assert(before[i] == specials[i]);
                assert(specials[i].id != specials[specials.len() - 1].id);
                assert(smaller[before[i].id] == encode_utf8(before[i].text));
            }
        }
        assert forall|id: usize| id < BASE_TOKENS + merges.len() implies #[trigger] vocab[id]
            == token_bytes(merges, id as int) by {
            assert(specials[specials.len() - 1].id >= BASE_TOKENS + merges.len());
            assert(smaller[id] == token_bytes(merges, id as int));
        }
    }
}

/// A vocabulary whose special tokens keep clear of the other ids holds one
/// entry for each special token beside those of the byte tokens and the rules:
/// as many reserved entries as there are special tokens.
pub proof fn lemma_reserved_entries(merges: Seq<MergeRule>, specials: Seq<SpecialTokenView>)
    requires
        specials_apart(merges.len(), specials),
    ensures
        vocabulary(merges, specials).dom() == merge_vocabulary(merges).dom().union(
            special_ids(specials).to_set(),
        ),
        merge_vocabulary(merges).dom().disjoint(special_ids(specials).to_set()),
        special_ids(specials).no_duplicates(),
        special_ids(specials).to_set().len() == specials.len(),
{
    let ids = special_ids(specials);
    lemma_vocabulary_entries(merges, specials);
    assert(ids.no_duplicates()) by {
        assert forall|i: int, j: int| 0 <= i < ids.len() && 0 <= j < ids.len() && i != j implies ids[i]
            != ids[j] by {
            if i < j {
                assert(specials[i].id != specials[j].id);
            } else {
                assert(specials[j].id != specials[i].id);
            }
        }
    }
    ids.unique_seq_to_set();
    assert(vocabulary(merges, specials).dom() =~= merge_vocabulary(merges).dom().union(
        ids.to_set(),
    ));
    assert(merge_vocabulary(merges).dom().disjoint(ids.to_set())) by {
        assert forall|id: usize|
            !(merge_vocabulary(merges).dom().contains(id) && ids.to_set().contains(id)) by {
            if ids.to_set().contains(id) {
                let i = choose|i: int| 0 <= i < ids.len() && ids[i] == id;
                assert(specials[i].id >= BASE_TOKENS + merges.len());
            }
        }
    }
}

/// What a tokenizer has learned, as a mathematical value.
pub struct TokenizerModel {
    /// The pattern for splitting text. It is kept and written out, and not used.
    pub pattern: Seq<char>,
    /// The special tokens, in the order in which a model file lists them.
    pub specials: Seq<SpecialTokenView>,
    /// The merge rules, the one learned first in front.
    pub merges: Seq<MergeRule>,
}

impl TokenizerModel {
    /// The model of a tokenizer that has learned nothing.
    pub open spec fn empty() -> TokenizerModel {
        TokenizerModel { pattern: seq![], specials: seq![], merges: seq![] }
    }

    /// Whether the model is one that a tokenizer can hold: the merge rules form a
    /// merge table, the special tokens keep clear of the other ids, and neither
    /// the pattern nor the text of a special token holds a line feed.
    pub open spec fn wf(self) -> bool {
        &&& merges_wf(self.merges)
        &&& specials_apart(self.merges.len(), self.specials)
        &&& self.specials.len() <= usize::MAX
        &&& one_line(self.pattern)
        &&& forall|i: int|
            0 <= i < self.specials.len() ==> one_line((#[trigger] self.specials[i]).text)
    }

    /// The vocabulary of the model.
    pub open spec fn vocabulary(self) -> Map<usize, Seq<u8>> {
        vocabulary(self.merges, self.specials)
    }
}

} // verus!
