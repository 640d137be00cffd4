use quicktok::model_file::{ids_are_valid, model_is_valid, read_model, write_model, ModelFile};
use quicktok::vocab::Vocabulary;
use quicktok::vocab_file::{sorted_order, write_vocab};
use quicktok::{BasicTokenizer, MergeRule, SpecialToken, Tokenizer, TokenizerError};

fn special(text: &str, id: usize) -> SpecialToken {
    SpecialToken { text: text.to_string(), id }
}

fn rule(left: usize, right: usize, id: usize) -> MergeRule {
    MergeRule { left, right, id }
}

#[test]
fn write_model_writes_the_lines_of_the_format() {
    let text = write_model(
        "\\w+",
        &vec![special("<|endoftext|>", 300), special("<|pad token|>", 258)],
        &vec![rule(97, 97, 256), rule(256, 98, 257)],
    );
    assert_eq!(
        text,
        "quicktok v1\n\\w+\n2\n<|endoftext|> 300\n<|pad token|> 258\n97 97\n256 98\n"
    );
}

#[test]
fn write_model_of_nothing_learned() {
    assert_eq!(write_model("", &vec![], &vec![]), "quicktok v1\n\n0\n");
}

#[test]
fn read_model_reads_what_write_model_wrote() {
    let file = ModelFile {
        pattern: "a pattern".to_string(),
        specials: vec![special("<|endoftext|>", 300), special("with space", 258), special("", 259)],
        merges: vec![rule(97, 97, 256), rule(256, 98, 257)],
    };
    let text = write_model(&file.pattern, &file.specials, &file.merges);
    assert_eq!(read_model(&text), Ok(file));
}

#[test]
fn read_model_numbers_the_rules_from_256() {
    let file = read_model("quicktok v1\n\n0\n1 2\n256 3\n257 257").unwrap();
    assert_eq!(file.pattern, "");
    assert_eq!(file.specials, vec![]);
    assert_eq!(
        file.merges,
        vec![rule(1, 2, 256), rule(256, 3, 257), rule(257, 257, 258)]
    );
}

#[test]
fn read_model_rejects_a_wrong_version_marker() {
    assert_eq!(read_model("quicktok v2\n\n0\n"), Err(TokenizerError::InvalidData));
    assert_eq!(read_model("minbpe v1\n\n0\n"), Err(TokenizerError::InvalidData));
    assert_eq!(read_model(" quicktok v1\n\n0\n"), Err(TokenizerError::InvalidData));
    assert_eq!(read_model("quicktok v1 \n\n0\n"), Err(TokenizerError::InvalidData));
    assert_eq!(read_model("quicktok v1\r\n\r\n0\r\n"), Err(TokenizerError::InvalidData));
}

#[test]
fn read_model_rejects_a_file_that_is_too_short() {
    assert_eq!(read_model(""), Err(TokenizerError::InvalidData));
    assert_eq!(read_model("quicktok v1\n"), Err(TokenizerError::InvalidData));
    assert_eq!(read_model("quicktok v1\n\n"), Err(TokenizerError::InvalidData));
    assert_eq!(read_model("quicktok v1\n\n2\n<a> 300\n"), Err(TokenizerError::InvalidData));
}

#[test]
fn read_model_rejects_malformed_lines() {
    assert_eq!(read_model("quicktok v1\n\nmany\n"), Err(TokenizerError::InvalidData));
    assert_eq!(read_model("quicktok v1\n\n-1\n"), Err(TokenizerError::InvalidData));
    assert_eq!(read_model("quicktok v1\n\n1\n<a>300\n"), Err(TokenizerError::InvalidData));
    assert_eq!(read_model("quicktok v1\n\n1\n<a> x\n"), Err(TokenizerError::InvalidData));
    assert_eq!(read_model("quicktok v1\n\n0\n1\n"), Err(TokenizerError::InvalidData));
    assert_eq!(read_model("quicktok v1\n\n0\n1 2 3\n"), Err(TokenizerError::InvalidData));
    assert_eq!(read_model("quicktok v1\n\n0\n1  2\n"), Err(TokenizerError::InvalidData));
    assert_eq!(read_model("quicktok v1\n\n0\n1 b\n"), Err(TokenizerError::InvalidData));
    assert_eq!(read_model("quicktok v1\n\n0\n1 2\n\n"), Err(TokenizerError::InvalidData));
    assert_eq!(
        read_model("quicktok v1\n\n0\n1 99999999999999999999999999\n"),
        Err(TokenizerError::InvalidData)
    );
}

#[test]
fn read_model_rejects_a_rule_that_joins_an_id_not_below_its_own() {
    assert_eq!(read_model("quicktok v1\n\n0\n256 1\n"), Err(TokenizerError::InvalidData));
    assert_eq!(read_model("quicktok v1\n\n0\n1 2\n3 258\n"), Err(TokenizerError::InvalidData));
    assert!(read_model("quicktok v1\n\n0\n1 2\n3 256\n").is_ok());
}

#[test]
fn read_model_rejects_special_ids_that_collide() {
    assert_eq!(read_model("quicktok v1\n\n1\n<a> 255\n"), Err(TokenizerError::InvalidData));
    assert_eq!(read_model("quicktok v1\n\n1\n<a> 256\n1 2\n"), Err(TokenizerError::InvalidData));
    assert_eq!(
        read_model("quicktok v1\n\n2\n<a> 300\n<b> 300\n"),
        Err(TokenizerError::InvalidData)
    );
    assert!(read_model("quicktok v1\n\n1\n<a> 257\n1 2\n").is_ok());
    assert!(read_model("quicktok v1\n\n2\n<a> 300\n<a> 301\n").is_ok());
}

#[test]
fn ids_are_valid_tells_tables_from_other_lists() {
    assert!(ids_are_valid(&vec![], &vec![]));
    assert!(ids_are_valid(&vec![special("s", 258)], &vec![rule(0, 0, 256), rule(256, 256, 257)]));
    assert!(!ids_are_valid(&vec![], &vec![rule(0, 0, 257)]));
    assert!(!ids_are_valid(&vec![], &vec![rule(0, 0, 256), rule(0, 0, 256)]));
    assert!(!ids_are_valid(&vec![], &vec![rule(0, 256, 256)]));
    assert!(!ids_are_valid(&vec![special("s", 256)], &vec![rule(0, 0, 256)]));
    assert!(!ids_are_valid(&vec![special("s", 300), special("t", 300)], &vec![]));
}

#[test]
fn model_is_valid_asks_for_texts_of_one_line() {
    let good = ModelFile { pattern: "p".to_string(), specials: vec![special("s", 256)], merges: vec![] };
    assert!(model_is_valid(&good));
    let pattern = ModelFile { pattern: "p\n".to_string(), specials: vec![], merges: vec![] };
    assert!(!model_is_valid(&pattern));
    let text = ModelFile { pattern: "".to_string(), specials: vec![special("a\nb", 256)], merges: vec![] };
    assert!(!model_is_valid(&text));
    let ids = ModelFile { pattern: "".to_string(), specials: vec![], merges: vec![rule(256, 0, 256)] };
    assert!(!model_is_valid(&ids));
    assert_eq!(BasicTokenizer::from_parts(ids, 1).err(), Some(TokenizerError::InvalidData));
    assert_eq!(BasicTokenizer::from_parts(pattern, 1).err(), Some(TokenizerError::InvalidData));
}

#[test]
fn from_parts_holds_the_parts() {
    let file = ModelFile {
        pattern: "p".to_string(),
        specials: vec![special("<s>", 400)],
        merges: vec![rule(104, 105, 256)],
    };
    let tokenizer = BasicTokenizer::from_parts(file.clone(), 4).ok().unwrap();
    assert_eq!(tokenizer.num_threads(), 4);
    assert_eq!(tokenizer.merges(), file.merges);
    assert_eq!(tokenizer.special_tokens(), &file.specials);
    assert_eq!(tokenizer.pattern(), "p");
    assert_eq!(tokenizer.encode("hi hi"), vec![256, 32, 256]);
    assert_eq!(tokenizer.token_bytes(400).cloned(), Some(b"<s>".to_vec()));
    let (model, _) = tokenizer.save(false);
    assert_eq!(read_model(&model), Ok(file));
}

#[test]
fn sorted_order_orders_by_id_and_keeps_equal_ids_in_place() {
    let specials = vec![special("c", 30), special("a", 10), special("b", 20), special("a2", 10)];
    assert_eq!(sorted_order(&specials), vec![1, 3, 2, 0]);
    assert_eq!(sorted_order(&vec![]), Vec::<usize>::new());
}

#[test]
fn write_vocab_lists_the_tokens_by_id() {
    let specials = vec![special("<|z|>", 400), special("<|a\n|>", 300)];
    let merges = vec![rule(97, 97, 256), rule(256, 10, 257), rule(0xc3, 0xa9, 258)];
    let vocab = Vocabulary::build(&merges, &specials);
    let text = write_vocab(&specials, &merges, &vocab);
    let lines: Vec<&str> = text.lines().collect();
    assert_eq!(lines.len(), 256 + 3 + 2);
    assert!(text.ends_with("\n"));
    assert_eq!(lines[0], "[\\u{0000}] 0");
    assert_eq!(lines[10], "[\\u{000a}] 10");
    assert_eq!(lines[32], "[ ] 32");
    assert_eq!(lines[97], "[a] 97");
    assert_eq!(lines[127], "[\\u{007f}] 127");
    assert_eq!(lines[128], "[\u{fffd}] 128");
    assert_eq!(lines[255], "[\u{fffd}] 255");
    assert_eq!(lines[256], "[a][a] -> [aa] 256");
    assert_eq!(lines[257], "[aa][\\u{000a}] -> [aa\\u{000a}] 257");
    assert_eq!(lines[258], "[\u{fffd}][\u{fffd}] -> [\u{e9}] 258");
    assert_eq!(lines[259], "[<|a\\u{000a}|>] 300");
    assert_eq!(lines[260], "[<|z|>] 400");
}

#[test]
fn vocabulary_holds_bytes_and_joined_tokens_and_special_tokens() {
    let specials = vec![special("\u{e9}t\u{e9}", 1000)];
    let merges = vec![rule(97, 97, 256), rule(97, 98, 257), rule(256, 257, 258)];
    let vocab = Vocabulary::build(&merges, &specials);
    assert_eq!(vocab.get(0), Some(&vec![0u8]));
    assert_eq!(vocab.get(255), Some(&vec![255u8]));
    assert_eq!(vocab.get(256), Some(&b"aa".to_vec()));
    assert_eq!(vocab.get(258), Some(&b"aaab".to_vec()));
    assert_eq!(vocab.get(259), None);
    assert_eq!(vocab.get(1000), Some(&"\u{e9}t\u{e9}".as_bytes().to_vec()));
    assert_eq!(vocab.get(999), None);
}

#[test]
fn vocabulary_lets_a_later_special_token_take_the_place_of_an_entry() {
    let specials = vec![special("first", 97), special("second", 300), special("third", 300)];
    let vocab = Vocabulary::build(&vec![], &specials);
    assert_eq!(vocab.get(97), Some(&b"first".to_vec()));
    assert_eq!(vocab.get(300), Some(&b"third".to_vec()));
    assert_eq!(vocab.get(98), Some(&vec![98u8]));
}

#[test]
fn loaded_special_tokens_stand_in_the_vocabulary() {
    let mut tokenizer = BasicTokenizer::new(1);
    let loaded = tokenizer.load("quicktok v1\n\n3\n<|endoftext|> 1000\n<|fim|> 1001\n\u{e9} 258\n97 98\n256 99\n");
    assert_eq!(loaded, Ok(()));
    assert_eq!(tokenizer.token_bytes(1000).cloned(), Some(b"<|endoftext|>".to_vec()));
    assert_eq!(tokenizer.token_bytes(1001).cloned(), Some(b"<|fim|>".to_vec()));
    assert_eq!(tokenizer.token_bytes(258).cloned(), Some(vec![0xc3, 0xa9]));
    assert_eq!(tokenizer.token_bytes(257).cloned(), Some(b"abc".to_vec()));
    assert_eq!(tokenizer.token_bytes(259).cloned(), None);
    assert_eq!(tokenizer.token_bytes(1002).cloned(), None);
    let reserved = (258..2000).filter(|id| tokenizer.token_bytes(*id).is_some()).count();
    assert_eq!(reserved, 3);
    assert_eq!(tokenizer.decode(vec![1000, 257]), Ok("<|endoftext|>abc".to_string()));
}
