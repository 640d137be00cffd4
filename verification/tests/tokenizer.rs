use quicktok::decode::decode_ids;
use quicktok::encode::MergeTable;
use quicktok::model_file::read_model;
use quicktok::pairs::count_pairs;
use quicktok::train::{byte_ids_of, learn_merges, pick_pair, record_merge};
use quicktok::vocab::Vocabulary;
use quicktok::{BasicTokenizer, MergeRule, Tokenizer, TokenizerError};

fn rule(left: usize, right: usize, id: usize) -> MergeRule {
    MergeRule { left, right, id }
}

#[test]
fn known_sequence_trains_encodes_and_decodes() {
    let mut tokenizer = BasicTokenizer::new(1);
    assert_eq!(tokenizer.train("aaabdaaabac", 259), Ok(()));
    let merges = tokenizer.merges();
    assert_eq!(merges.len(), 3);
    assert_eq!(merges, vec![rule(97, 97, 256), rule(97, 98, 257), rule(256, 257, 258)]);
    let ids = tokenizer.encode("aaabdaaabac");
    assert_eq!(ids, vec![258, 100, 258, 97, 99]);
    assert_eq!(tokenizer.decode(ids), Ok("aaabdaaabac".to_string()));
}

#[test]
fn train_below_the_byte_tokens_fails() {
    let mut tokenizer = BasicTokenizer::new(1);
    assert_eq!(tokenizer.train("some text", 255), Err(TokenizerError::PreconditionViolation));
    assert_eq!(tokenizer.train("some text", 0), Err(TokenizerError::PreconditionViolation));
    assert_eq!(tokenizer.merges().len(), 0);
}

#[test]
fn decode_of_an_unknown_id_fails() {
    let tokenizer = BasicTokenizer::new(1);
    assert_eq!(tokenizer.decode(vec![999999]), Err(TokenizerError::UnknownToken));
    assert_eq!(tokenizer.decode(vec![97, 256]), Err(TokenizerError::UnknownToken));
    let mut trained = BasicTokenizer::new(1);
    assert_eq!(trained.train("aaabdaaabac", 258), Ok(()));
    assert_eq!(trained.decode(vec![257, 999999]), Err(TokenizerError::UnknownToken));
    assert_eq!(trained.decode(vec![258]), Err(TokenizerError::UnknownToken));
    assert_eq!(trained.decode(vec![257]), Ok("ab".to_string()));
}

#[test]
fn load_with_a_wrong_version_marker_fails() {
    let mut tokenizer = BasicTokenizer::new(1);
    assert_eq!(tokenizer.load("quicktok v2\n\n0\n"), Err(TokenizerError::InvalidData));
}

#[test]
fn a_new_tokenizer_knows_the_byte_tokens() {
    let tokenizer = BasicTokenizer::new(2);
    assert_eq!(tokenizer.num_threads(), 2);
    assert_eq!(tokenizer.merges(), vec![]);
    assert_eq!(tokenizer.encode("hi!"), vec![104, 105, 33]);
    assert_eq!(tokenizer.encode(""), Vec::<usize>::new());
    assert_eq!(tokenizer.decode(vec![104, 105, 33]), Ok("hi!".to_string()));
    assert_eq!(tokenizer.decode(vec![]), Ok(String::new()));
    assert_eq!(tokenizer.token_bytes(255).cloned(), Some(vec![255]));
    assert_eq!(tokenizer.token_bytes(256).cloned(), None);
    assert_eq!(tokenizer.save(false), ("quicktok v1\n\n0\n".to_string(), None));
}

#[test]
fn train_with_256_tokens_learns_nothing() {
    let mut tokenizer = BasicTokenizer::new(1);
    assert_eq!(tokenizer.train("", 256), Ok(()));
    assert_eq!(tokenizer.merges(), vec![]);
    assert_eq!(tokenizer.train("abc", 256), Ok(()));
    assert_eq!(tokenizer.merges(), vec![]);
}

#[test]
fn train_fails_where_the_text_runs_out_of_pairs() {
    let mut tokenizer = BasicTokenizer::new(1);
    assert_eq!(tokenizer.train("", 257), Err(TokenizerError::PreconditionViolation));
    assert_eq!(tokenizer.train("a", 257), Err(TokenizerError::PreconditionViolation));
    assert_eq!(tokenizer.train("ab", 257), Ok(()));
    assert_eq!(tokenizer.merges(), vec![rule(97, 98, 256)]);
    assert_eq!(tokenizer.train("ab", 258), Err(TokenizerError::PreconditionViolation));
    assert_eq!(tokenizer.train("abc", 258), Ok(()));
    assert_eq!(tokenizer.train("abc", 259), Err(TokenizerError::PreconditionViolation));
}

#[test]
fn a_failed_train_leaves_the_tokenizer_as_it_was() {
    let mut tokenizer = BasicTokenizer::new(1);
    assert_eq!(tokenizer.train("aaabdaaabac", 259), Ok(()));
    let before = tokenizer.save(true);
    assert_eq!(tokenizer.train("ab", 300), Err(TokenizerError::PreconditionViolation));
    assert_eq!(tokenizer.train("long enough a text", 255), Err(TokenizerError::PreconditionViolation));
    assert_eq!(tokenizer.save(true), before);
    assert_eq!(tokenizer.encode("aaabdaaabac"), vec![258, 100, 258, 97, 99]);
}

#[test]
fn a_failed_load_leaves_the_tokenizer_as_it_was() {
    let mut tokenizer = BasicTokenizer::new(1);
    assert_eq!(tokenizer.train("aaabdaaabac", 259), Ok(()));
    let before = tokenizer.save(true);
    assert_eq!(tokenizer.load("quicktok v1\n\n0\n1 2\nnot a rule\n"), Err(TokenizerError::InvalidData));
    assert_eq!(tokenizer.save(true), before);
}

#[test]
fn train_discards_what_was_learned_before() {
    let mut tokenizer = BasicTokenizer::new(1);
    assert_eq!(tokenizer.load("quicktok v1\npattern\n1\n<s> 300\n1 2\n"), Ok(()));
    assert_eq!(tokenizer.token_bytes(300).cloned(), Some(b"<s>".to_vec()));
    assert_eq!(tokenizer.train("xyxy", 257), Ok(()));
    assert_eq!(tokenizer.merges(), vec![rule(120, 121, 256)]);
    assert_eq!(tokenizer.token_bytes(300).cloned(), None);
    assert_eq!(tokenizer.save(false).0, "quicktok v1\n\n0\n120 121\n");
}

#[test]
fn trained_rules_get_the_ids_from_256_in_order() {
    let mut tokenizer = BasicTokenizer::new(1);
    let text = "the quick brown fox jumps over the lazy dog, the quick brown fox";
    assert_eq!(tokenizer.train(text, 256 + 20), Ok(()));
    let merges = tokenizer.merges();
    assert_eq!(merges.len(), 20);
    for (i, merge) in merges.iter().enumerate() {
        assert_eq!(merge.id, 256 + i);
        assert!(merge.left < merge.id);
        assert!(merge.right < merge.id);
    }
}

#[test]
fn the_number_of_workers_does_not_change_what_is_learned() {
    let text = "she sells sea shells by the sea shore, the shells she sells are sea shells";
    let one = learn_merges(text, 256 + 25, 1);
    assert!(one.is_ok());
    for workers in [0, 2, 3, 7, 64, 1000] {
        assert_eq!(learn_merges(text, 256 + 25, workers), one, "workers = {}", workers);
    }
    let mut tokenizer = BasicTokenizer::new(5);
    assert_eq!(tokenizer.train(text, 256 + 25), Ok(()));
    assert_eq!(Ok(tokenizer.merges()), one);
}

#[test]
fn learn_merges_fails_as_train_does() {
    assert_eq!(learn_merges("abc", 255, 1), Err(TokenizerError::PreconditionViolation));
    assert_eq!(learn_merges("abc", 259, 1), Err(TokenizerError::PreconditionViolation));
    assert_eq!(learn_merges("abc", 258, 1), Ok(vec![rule(97, 98, 256), rule(256, 99, 257)]));
}

#[test]
fn a_round_of_learning_step_by_step() {
    let mut ids = byte_ids_of("aaabdaaabac");
    assert_eq!(ids, vec![97, 97, 97, 98, 100, 97, 97, 97, 98, 97, 99]);
    let mut merges: Vec<MergeRule> = Vec::new();
    let pair = pick_pair(&count_pairs(&ids), &ids);
    assert_eq!(pair, Some((97, 97)));
    record_merge(&mut ids, &mut merges, 97, 97);
    assert_eq!(ids, vec![256, 97, 98, 100, 256, 97, 98, 97, 99]);
    assert_eq!(merges, vec![rule(97, 97, 256)]);
    // 256 97 and 97 98 occur twice each; 97 98 comes first.
    let pair = pick_pair(&count_pairs(&ids), &ids);
    assert_eq!(pair, Some((97, 98)));
    let one = vec![5];
    assert_eq!(pick_pair(&count_pairs(&one), &one), None);
}

#[test]
fn byte_ids_are_the_bytes_of_the_utf8_encoding() {
    assert_eq!(byte_ids_of("\u{e9}"), vec![0xc3, 0xa9]);
    assert_eq!(byte_ids_of("\u{1f600}"), vec![0xf0, 0x9f, 0x98, 0x80]);
    assert_eq!(byte_ids_of(""), Vec::<usize>::new());
}

#[test]
fn encode_applies_the_rule_learned_first() {
    // Both rules apply to `a b c`; the first one wins, and the second finds
    // no `b c` left.
    let table = MergeTable::new(vec![rule(97, 98, 256), rule(98, 99, 257)]);
    assert_eq!(table.encode_ids(vec![97, 98, 99]), vec![256, 99]);
    let other = MergeTable::new(vec![rule(98, 99, 256), rule(97, 98, 257)]);
    assert_eq!(other.encode_ids(vec![97, 98, 99]), vec![97, 256]);
    assert_eq!(table.first_applicable(&vec![98, 99, 97, 98]), Some(0));
    assert_eq!(table.first_applicable(&vec![98, 99, 97]), Some(1));
    assert_eq!(table.first_applicable(&vec![99, 98, 97]), None);
    assert_eq!(table.first_applicable(&vec![]), None);
}

#[test]
fn encode_does_not_depend_on_the_counts_of_the_text() {
    let mut tokenizer = BasicTokenizer::new(1);
    assert_eq!(tokenizer.train("aaabdaaabac", 259), Ok(()));
    // `b a` is the most common pair here, and no rule joins it.
    assert_eq!(tokenizer.encode("babababa"), vec![98, 257, 257, 257, 97]);
    assert_eq!(tokenizer.encode("aaaa"), vec![256, 256]);
    assert_eq!(tokenizer.encode("aaab"), vec![258]);
    assert_eq!(tokenizer.encode("xyz"), vec![120, 121, 122]);
}

#[test]
fn encode_with_a_rule_given_twice_uses_the_first() {
    let table = MergeTable::new(vec![rule(1, 2, 256), rule(3, 4, 257), rule(1, 2, 258)]);
    assert_eq!(table.len(), 3);
    assert_eq!(table.rule(2), rule(1, 2, 258));
    assert_eq!(table.encode_ids(vec![1, 2, 3, 4, 1, 2]), vec![256, 257, 256]);
}

#[test]
fn decode_after_encode_gives_plain_text_back() {
    let mut tokenizer = BasicTokenizer::new(2);
    let text = "To be, or not to be, that is the question: whether 'tis nobler in the mind";
    assert_eq!(tokenizer.train(text, 256 + 30), Ok(()));
    for sample in [text, "not to be", "question the mind", "", "zzz unseen bytes ~"] {
        let ids = tokenizer.encode(sample);
        assert_eq!(tokenizer.decode(ids), Ok(sample.to_string()));
    }
    assert!(tokenizer.encode(text).len() < text.len());
}

#[test]
fn decode_escapes_control_characters() {
    let tokenizer = BasicTokenizer::new(1);
    let ids = tokenizer.encode("a\tb\n");
    assert_eq!(tokenizer.decode(ids), Ok("a\\u{0009}b\\u{000a}".to_string()));
}

#[test]
fn decode_renders_each_token_by_itself() {
    // The two bytes of the character are two tokens: neither is UTF-8 alone.
    let plain = BasicTokenizer::new(1);
    let ids = plain.encode("\u{e9}");
    assert_eq!(ids, vec![0xc3, 0xa9]);
    assert_eq!(plain.decode(ids), Ok("\u{fffd}\u{fffd}".to_string()));
    // Once a rule joins the two bytes, the character comes back.
    let mut trained = BasicTokenizer::new(1);
    assert_eq!(trained.train("\u{e9}\u{e9}", 257), Ok(()));
    let ids = trained.encode("caf\u{e9}");
    assert_eq!(ids, vec![99, 97, 102, 256]);
    assert_eq!(trained.decode(ids), Ok("caf\u{e9}".to_string()));
}

#[test]
fn decode_ids_with_a_vocabulary() {
    let vocab = Vocabulary::build(&vec![rule(104, 105, 256)], &vec![]);
    assert_eq!(decode_ids(&vocab, &vec![256, 33, 256]), Ok("hi!hi".to_string()));
    assert_eq!(decode_ids(&vocab, &vec![256, 257]), Err(TokenizerError::UnknownToken));
}

#[test]
fn encode_is_the_same_after_save_and_load() {
    let mut tokenizer = BasicTokenizer::new(3);
    let text = "a rose is a rose is a rose, and arose a rosy rose\n\tin rows";
    assert_eq!(tokenizer.train(text, 256 + 15), Ok(()));
    let (model, vocab) = tokenizer.save(false);
    assert_eq!(vocab, None);
    let mut loaded = BasicTokenizer::new(1);
    assert_eq!(loaded.load(&model), Ok(()));
    assert_eq!(loaded.merges(), tokenizer.merges());
    for sample in [text, "rosy rows", "", "something else \u{e9}\u{1f600}", "\n\n\n"] {
        assert_eq!(loaded.encode(sample), tokenizer.encode(sample));
    }
    assert_eq!(loaded.save(true), tokenizer.save(true));
}

#[test]
fn save_writes_the_rules_in_the_order_learned() {
    let mut tokenizer = BasicTokenizer::new(1);
    assert_eq!(tokenizer.train("aaabdaaabac", 259), Ok(()));
    let (model, vocab) = tokenizer.save(true);
    assert_eq!(model, "quicktok v1\n\n0\n97 97\n97 98\n256 257\n");
    let vocab = vocab.unwrap();
    let lines: Vec<&str> = vocab.lines().collect();
    assert_eq!(lines.len(), 259);
    assert_eq!(lines[256], "[a][a] -> [aa] 256");
    assert_eq!(lines[257], "[a][b] -> [ab] 257");
    assert_eq!(lines[258], "[aa][ab] -> [aaab] 258");
    assert_eq!(read_model(&model).map(|file| file.merges), Ok(tokenizer.merges()));
}

#[test]
fn load_keeps_the_pattern() {
    let mut tokenizer = BasicTokenizer::new(1);
    assert_eq!(tokenizer.load("quicktok v1\n's|'t| ?\\p{L}+\n0\n104 105\n"), Ok(()));
    assert_eq!(tokenizer.encode("hi hi"), vec![256, 32, 256]);
    assert_eq!(tokenizer.save(false).0, "quicktok v1\n's|'t| ?\\p{L}+\n0\n104 105\n");
    assert_eq!(tokenizer.pattern(), "'s|'t| ?\\p{L}+");
    assert_eq!(tokenizer.special_tokens().len(), 0);
}

#[test]
fn errors_describe_themselves() {
    assert_eq!(TokenizerError::PreconditionViolation.describe(), "precondition violation");
    assert_eq!(TokenizerError::InvalidData.describe(), "invalid data");
    assert_eq!(TokenizerError::UnknownToken.describe(), "unknown token");
    assert_eq!(TokenizerError::IOFailure.describe(), "I/O failure");
}

#[test]
fn encode_of_the_training_text_is_the_last_working_sequence() {
    let text = "how much wood would a woodchuck chuck if a woodchuck could chuck wood";
    let rounds = 24;
    let mut ids = byte_ids_of(text);
    let mut merges: Vec<MergeRule> = Vec::new();
    for _ in 0..rounds {
        let (left, right) = pick_pair(&count_pairs(&ids), &ids).unwrap();
        record_merge(&mut ids, &mut merges, left, right);
    }
    let mut tokenizer = BasicTokenizer::new(1);
    assert_eq!(tokenizer.train(text, 256 + rounds), Ok(()));
    assert_eq!(tokenizer.merges(), merges);
    assert_eq!(tokenizer.encode(text), ids);
}
