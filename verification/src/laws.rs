//! What holds of the tokenizer as a whole.

use crate::decode::{all_known, decoded, decoded_text};
use crate::encode::{
    encode_ids, encoded, is_first_applicable, lemma_encode_done, lemma_encode_step, rule_applies,
};
use crate::expansion::{lemma_expansion_encoded, lemma_expansion_of_bytes};
use crate::lines::lines;
use crate::merge::{lemma_merged_no_new_pair, lemma_merged_pair_gone, merged, occurs};
use crate::model::{
    expansion, lemma_reserved_entries, lemma_vocabulary_entries, merge_vocabulary, merges_wf,
    special_ids, token_bytes, MergeRule, TokenizerModel, BASE_TOKENS,
};
use crate::model_file::{lemma_read_written, model_text, parse_model, special_at};
use crate::pairs::most_common_pair;
use crate::render::{escaped, is_control, lemma_escaped_concat, lemma_escaped_plain};
use crate::train::{
    byte_ids, ids_below, learn, learned_ids, lemma_learn_round, lemma_learn_wf, trained,
};
use vstd::prelude::*;
use vstd::utf8::{
    decode_utf8, decode_utf8_encode_utf8, encode_utf8, encode_utf8_decode_utf8,
    encode_utf8_valid_utf8, is_ascii_chars, is_ascii_chars_encode_utf8, valid_utf8,
};

verus! {

/// Whether each token of the sequence stands for whole characters: its bytes
/// are UTF-8 by themselves.
pub open spec fn whole_chars(merges: Seq<MergeRule>, ids: Seq<usize>) -> bool {
    forall|k: int| 0 <= k < ids.len() ==> valid_utf8(token_bytes(merges, #[trigger] ids[k] as int))
}

/// The texts that the tokens of the sequence encode, one after the other.
pub open spec fn pieces_text(merges: Seq<MergeRule>, ids: Seq<usize>) -> Seq<char>
    decreases ids.len(),
{
    if ids.len() == 0 {
        seq![]
    } else {
        pieces_text(merges, ids.drop_last()) + decode_utf8(token_bytes(merges, ids.last() as int))
    }
}

/// The encoding of two texts in a row is the encoding of the first followed by
/// that of the second.
pub proof fn lemma_encode_utf8_concat(first: Seq<char>, second: Seq<char>)
    ensures
        encode_utf8(first + second) == encode_utf8(first) + encode_utf8(second),
    decreases first.len(),
{
    if first.len() == 0 {
        assert(first + second =~= second);
        assert(encode_utf8(first) + encode_utf8(second) =~= encode_utf8(second));
    } else {
        lemma_encode_utf8_concat(first.drop_first(), second);
        assert((first + second).drop_first() =~= first.drop_first() + second);
        assert(encode_utf8(first + second) =~= encode_utf8(first) + encode_utf8(second));
    }
}

/// Where each token stands for whole characters, the texts of the tokens
/// encode to the bytes of the sequence.
proof fn lemma_pieces_encode(merges: Seq<MergeRule>, ids: Seq<usize>)
    requires
        whole_chars(merges, ids),
    ensures
        encode_utf8(pieces_text(merges, ids)) == expansion(merges, ids),
    decreases ids.len(),
{
    if ids.len() > 0 {
        let before = ids.drop_last();
        assert(whole_chars(merges, before)) by {
            assert forall|k: int| 0 <= k < before.len() implies valid_utf8(
                token_bytes(merges, #[trigger] before[k] as int),
            ) by {
                assert(before[k] == ids[k]);
            }
        }
        lemma_pieces_encode(merges, before);
        let bytes = token_bytes(merges, ids.last() as int);
        assert(valid_utf8(bytes)) by {
            assert(ids[ids.len() - 1] == ids.last());
        }
        decode_utf8_encode_utf8(bytes);
        lemma_encode_utf8_concat(pieces_text(merges, before), decode_utf8(bytes));
    }
}

/// Where each token stands for whole characters, decoding renders the texts
/// of the tokens.
proof fn lemma_decoded_pieces(vocab: Map<usize, Seq<u8>>, merges: Seq<MergeRule>, ids: Seq<usize>)
    requires
        whole_chars(merges, ids),
        forall|k: int|
            0 <= k < ids.len() ==> vocab.contains_key(#[trigger] ids[k]) && vocab[ids[k]]
                == token_bytes(merges, ids[k] as int),
    ensures
        all_known(vocab, ids),
        decoded_text(vocab, ids) == escaped(pieces_text(merges, ids)),
    decreases ids.len(),
{
    if ids.len() > 0 {
        let before = ids.drop_last();
        assert forall|k: int| 0 <= k < before.len() implies valid_utf8(
            token_bytes(merges, #[trigger] before[k] as int),
        ) && vocab.contains_key(before[k]) && vocab[before[k]] == token_bytes(
            merges,
            before[k] as int,
        ) by {
            assert(before[k] == ids[k]);
        }
        lemma_decoded_pieces(vocab, merges, before);
        assert(ids[ids.len() - 1] == ids.last());
        let bytes = token_bytes(merges, ids.last() as int);
        lemma_escaped_concat(pieces_text(merges, before), decode_utf8(bytes));
    }
}

/// Decoding the encoding of a text gives the text with its control characters
/// escaped, as long as each token of the encoding stands for whole characters.
pub proof fn lemma_decode_of_encode(model: TokenizerModel, text: Seq<char>)
    requires
        model.wf(),
        whole_chars(model.merges, encoded(model.merges, encode_utf8(text))),
    ensures
        decoded(model.vocabulary(), encoded(model.merges, encode_utf8(text))) == Some(
            escaped(text),
        ),
{
    let merges = model.merges;
    let bytes = encode_utf8(text);
    let ids = encoded(merges, bytes);
    let vocab = model.vocabulary();
    lemma_expansion_of_bytes(merges, bytes);
    lemma_expansion_encoded(merges, byte_ids(bytes));
    lemma_vocabulary_entries(merges, model.specials);
    lemma_decoded_pieces(vocab, merges, ids);
    lemma_pieces_encode(merges, ids);
    // Two texts with the same encoding are the same text.
    encode_utf8_decode_utf8(pieces_text(merges, ids));
    encode_utf8_decode_utf8(text);
}

/// Round trip: decoding the encoding of a text gives the text back, for a text
/// without control characters and an encoding in which each token stands for
/// whole characters.
pub proof fn lemma_round_trip(model: TokenizerModel, text: Seq<char>)
    requires
        model.wf(),
        forall|i: int| 0 <= i < text.len() ==> !is_control(#[trigger] text[i]),
        whole_chars(model.merges, encoded(model.merges, encode_utf8(text))),
    ensures
        decoded(model.vocabulary(), encoded(model.merges, encode_utf8(text))) == Some(text),
{
    lemma_decode_of_encode(model, text);
    lemma_escaped_plain(text);
}

/// Bytes below 128 are UTF-8: each is the encoding of an ASCII character.
proof fn lemma_ascii_bytes_valid(bytes: Seq<u8>)
    requires
        forall|i: int| 0 <= i < bytes.len() ==> #[trigger] bytes[i] < 128,
    ensures
        valid_utf8(bytes),
{
    let chars = Seq::new(bytes.len(), |i: int| bytes[i] as char);
    assert(is_ascii_chars(chars));
    is_ascii_chars_encode_utf8(chars);
    assert(encode_utf8(chars) =~= bytes);
    encode_utf8_valid_utf8(chars);
}

/// Every byte of a token of a sequence is a byte of the sequence.
proof fn lemma_token_bytes_in_expansion(merges: Seq<MergeRule>, ids: Seq<usize>, k: int, j: int)
    requires
        0 <= k < ids.len(),
        0 <= j < token_bytes(merges, ids[k] as int).len(),
    ensures
        expansion(merges, ids).contains(token_bytes(merges, ids[k] as int)[j]),
    decreases ids.len(),
{
    let all = expansion(merges, ids);
    let before = expansion(merges, ids.drop_last());
    let last = token_bytes(merges, ids.last() as int);
    if k == ids.len() - 1 {
        assert(all[before.len() + j] == last[j]);
    } else {
        assert(ids.drop_last()[k] == ids[k]);
        lemma_token_bytes_in_expansion(merges, ids.drop_last(), k, j);
        let b = token_bytes(merges, ids[k] as int)[j];
        let at = choose|at: int| 0 <= at < before.len() && before[at] == b;
        assert(all[at] == b);
    }
}

/// Round trip for ASCII: decoding the encoding of an ASCII text without
/// control characters gives the text back.
pub proof fn lemma_round_trip_ascii(model: TokenizerModel, text: Seq<char>)
    requires
        model.wf(),
        is_ascii_chars(text),
        forall|i: int| 0 <= i < text.len() ==> !is_control(#[trigger] text[i]),
    ensures
        decoded(model.vocabulary(), encoded(model.merges, encode_utf8(text))) == Some(text),
{
    let merges = model.merges;
    let bytes = encode_utf8(text);
    let ids = encoded(merges, bytes);
    is_ascii_chars_encode_utf8(text);
    lemma_expansion_of_bytes(merges, bytes);
    lemma_expansion_encoded(merges, byte_ids(bytes));
    assert forall|k: int| 0 <= k < ids.len() implies valid_utf8(
        token_bytes(merges, #[trigger] ids[k] as int),
    ) by {
        let token = token_bytes(merges, ids[k] as int);
        assert forall|j: int| 0 <= j < token.len() implies #[trigger] token[j] < 128 by {
            lemma_token_bytes_in_expansion(merges, ids, k, j);
            let at = choose|at: int| 0 <= at < bytes.len() && bytes[at] == token[j];
            assert(bytes[at] == text[at] as u8);
        }
        lemma_ascii_bytes_valid(token);
    }
    lemma_round_trip(model, text);
}

/// Ids in order: training gives the rule that it learns as number `i`, counted
/// from zero, the id `256 + i`, and learns one rule for each token beyond the
/// 256 byte tokens.
pub proof fn lemma_trained_ids(bytes: Seq<u8>, vocab_size: usize)
    requires
        trained(bytes, vocab_size) is Some,
    ensures
        vocab_size >= BASE_TOKENS,
        trained(bytes, vocab_size)->0.len() == vocab_size - BASE_TOKENS,
        forall|i: int|
            0 <= i < vocab_size - BASE_TOKENS ==> (#[trigger] trained(bytes, vocab_size)->0[i]).id
                == BASE_TOKENS + i,
{
    lemma_expansion_of_bytes(seq![], bytes);
    lemma_learn_wf(byte_ids(bytes), seq![], (vocab_size - BASE_TOKENS) as nat);
}

/// Writing a model to a file and reading the file gives the same model, and
/// with it the same encoding of every text.
pub proof fn lemma_save_load(model: TokenizerModel, bytes: Seq<u8>)
    requires
        model.wf(),
    ensures
        parse_model(model_text(model)) == Some(model),
        encoded(parse_model(model_text(model))->0.merges, bytes) == encoded(model.merges, bytes),
{
    lemma_read_written(model);
}

/// Special tokens of a model file: a file that declares `n` special tokens
/// and holds a model gives a model with those `n` special tokens, and a
/// vocabulary with `n` entries beside those of the byte tokens and the merge
/// rules, each the UTF-8 encoding of the text of its special token.
pub proof fn lemma_loaded_specials(text: Seq<char>)
    requires
        parse_model(text) is Some,
    ensures
        ({
            let model = parse_model(text)->0;
            let declared = crate::decimal::parse_decimal(lines(text)[2]);
            &&& declared == Some(model.specials.len() as usize)
            &&& forall|i: int|
                0 <= i < model.specials.len() ==> #[trigger] special_at(lines(text), i) == Some(
                    model.specials[i],
                )
            &&& model.vocabulary().dom() == merge_vocabulary(model.merges).dom().union(
                special_ids(model.specials).to_set(),
            )
            &&& merge_vocabulary(model.merges).dom().disjoint(special_ids(model.specials).to_set())
            &&& special_ids(model.specials).to_set().len() == model.specials.len()
            &&& forall|i: int|
                0 <= i < model.specials.len() ==> model.vocabulary()[(
                #[trigger] model.specials[i]).id] == encode_utf8(model.specials[i].text)
        }),
{
    let model = parse_model(text)->0;
    lemma_reserved_entries(model.merges, model.specials);
    lemma_vocabulary_entries(model.merges, model.specials);
}

/// Encoding follows learning: where learning goes on from a working sequence
/// in which no rule learned so far applies, the table that it ends with
/// encodes that sequence into the working sequence that it ends with.
proof fn lemma_encode_follows_learn(ids: Seq<usize>, merges: Seq<MergeRule>, rounds: nat)
    requires
        merges_wf(merges),
        ids_below(ids, BASE_TOKENS + merges.len()),
        BASE_TOKENS + merges.len() + rounds <= usize::MAX,
        forall|j: int| !#[trigger] rule_applies(merges, ids, j),
        learn(ids, merges, rounds) is Some,
    ensures
        encode_ids(learn(ids, merges, rounds)->0, ids) == learned_ids(ids, merges.len(), rounds),
    decreases rounds,
{
    let table = learn(ids, merges, rounds)->0;
    let len = merges.len() as int;
    lemma_learn_wf(ids, merges, rounds);
    if rounds == 0 {
        lemma_encode_done(table, ids);
    } else {
        let pair = most_common_pair(ids);
        let id = (BASE_TOKENS + merges.len()) as usize;
        let rule = MergeRule { left: pair.0, right: pair.1, id };
        let next = merged(ids, pair.0, pair.1, id);
        let more = merges.push(rule);
        lemma_learn_round(ids, merges);
        lemma_learn_wf(next, more, (rounds - 1) as nat);
        // The new rule is the first of the table that applies.
        assert(table[len] == rule) by {
            assert(table.take(len + 1)[len] == more[len]);
        }
        assert forall|j: int| 0 <= j < len implies !#[trigger] rule_applies(table, ids, j) by {
            assert(table.take(len)[j] == merges[j]);
            assert(!rule_applies(merges, ids, j));
        }
        assert(is_first_applicable(table, ids, len));
        lemma_encode_step(table, ids, len);
        // No rule learned so far applies to the new working sequence.
        assert forall|j: int| !#[trigger] rule_applies(more, next, j) by {
            if 0 <= j < len {
                let old = merges[j];
                assert(more[j] == old);
                assert(!rule_applies(merges, ids, j));
                if occurs(next, old.left, old.right) {
                    lemma_merged_no_new_pair(ids, pair.0, pair.1, id, old.left, old.right);
                }
            } else if j == len {
                lemma_merged_pair_gone(ids, pair.0, pair.1, id);
            }
        }
        lemma_encode_follows_learn(next, more, (rounds - 1) as nat);
    }
}

/// Encoding the training text: the tokenizer encodes the text that it was
/// trained on into the working sequence that training ended with.
pub proof fn lemma_encode_training_text(bytes: Seq<u8>, vocab_size: usize)
    requires
        trained(bytes, vocab_size) is Some,
    ensures
        encoded(trained(bytes, vocab_size)->0, bytes) == learned_ids(
            byte_ids(bytes),
            0,
            (vocab_size - BASE_TOKENS) as nat,
        ),
{
    let ids = byte_ids(bytes);
    lemma_expansion_of_bytes(seq![], bytes);
    lemma_encode_follows_learn(ids, seq![], (vocab_size - BASE_TOKENS) as nat);
}

} // verus!
