use quicktok::decimal::{parse_decimal_at, push_decimal};
use quicktok::lines::{chars_of, is_one_line, split_lines, LineBounds};
use quicktok::render::{escape_controls, is_control_char, render_token};

fn chars(text: &str) -> Vec<char> {
    text.chars().collect()
}

fn decimal_of(n: usize) -> String {
    let mut out = String::from("n=");
    push_decimal(&mut out, n);
    out
}

fn parse(text: &str) -> Option<usize> {
    let framed = format!("<{}>", text);
    let all = chars(&framed);
    parse_decimal_at(&all, 1, all.len() - 1)
}

#[test]
fn push_decimal_writes_the_digits() {
    assert_eq!(decimal_of(0), "n=0");
    assert_eq!(decimal_of(7), "n=7");
    assert_eq!(decimal_of(10), "n=10");
    assert_eq!(decimal_of(256), "n=256");
    assert_eq!(decimal_of(1234567890), "n=1234567890");
    assert_eq!(decimal_of(usize::MAX), format!("n={}", usize::MAX));
}

#[test]
fn parse_decimal_reads_digits_only() {
    assert_eq!(parse("0"), Some(0));
    assert_eq!(parse("42"), Some(42));
    assert_eq!(parse("007"), Some(7));
    assert_eq!(parse(""), None);
    assert_eq!(parse("+7"), None);
    assert_eq!(parse("-7"), None);
    assert_eq!(parse("4 2"), None);
    assert_eq!(parse("12a"), None);
    assert_eq!(parse("\u{0663}"), None);
}

#[test]
fn parse_decimal_stops_at_the_machine_word() {
    let max = format!("{}", usize::MAX);
    assert_eq!(parse(&max), Some(usize::MAX));
    let mut digits: Vec<u8> = max.into_bytes();
    let last = digits.len() - 1;
    digits[last] += 1;
    assert_eq!(parse(&String::from_utf8(digits).unwrap()), None);
    assert_eq!(parse("99999999999999999999999999"), None);
    assert_eq!(parse("00000000000000000000000000000042"), Some(42));
}

#[test]
fn split_lines_cuts_at_line_feeds() {
    let text = chars("ab\n\ncd\ne");
    assert_eq!(
        split_lines(&text),
        vec![
            LineBounds { start: 0, end: 2 },
            LineBounds { start: 3, end: 3 },
            LineBounds { start: 4, end: 6 },
            LineBounds { start: 7, end: 8 },
        ]
    );
}

#[test]
fn split_lines_has_no_line_behind_a_last_line_feed() {
    assert_eq!(split_lines(&chars("")), vec![]);
    assert_eq!(split_lines(&chars("\n")), vec![LineBounds { start: 0, end: 0 }]);
    assert_eq!(split_lines(&chars("a\n")), vec![LineBounds { start: 0, end: 1 }]);
    assert_eq!(
        split_lines(&chars("a\n\n")),
        vec![LineBounds { start: 0, end: 1 }, LineBounds { start: 2, end: 2 }]
    );
}

#[test]
fn chars_of_gives_the_characters() {
    assert_eq!(chars_of("h\u{e9}\u{1f600}!"), vec!['h', '\u{e9}', '\u{1f600}', '!']);
    assert_eq!(chars_of(""), Vec::<char>::new());
}

#[test]
fn control_characters_are_those_of_category_cc() {
    for code in 0u32..0x300 {
        let c = char::from_u32(code).unwrap();
        assert_eq!(is_control_char(c), c.is_control(), "U+{:04X}", code);
    }
    assert!(!is_control_char('\u{2028}'));
    assert!(!is_control_char('\u{10ffff}'));
}

#[test]
fn escape_controls_writes_four_hexadecimal_digits() {
    assert_eq!(escape_controls("a\nb"), "a\\u{000a}b");
    assert_eq!(escape_controls("\0"), "\\u{0000}");
    assert_eq!(escape_controls("\u{1f}\u{7f}\u{9f}"), "\\u{001f}\\u{007f}\\u{009f}");
    assert_eq!(escape_controls("plain text \u{e9} \\u{000a}"), "plain text \u{e9} \\u{000a}");
    assert_eq!(escape_controls(""), "");
}

#[test]
fn render_token_reads_utf8() {
    assert_eq!(render_token(&vec![104, 105]), "hi");
    assert_eq!(render_token(&vec![0xc3, 0xa9]), "\u{e9}");
    assert_eq!(render_token(&vec![]), "");
}

#[test]
fn render_token_replaces_what_is_not_utf8() {
    assert_eq!(render_token(&vec![0xc3]), "\u{fffd}");
    assert_eq!(render_token(&vec![0xa9]), "\u{fffd}");
    assert_eq!(render_token(&vec![97, 0xff, 98]), "a\u{fffd}b");
}

#[test]
fn render_token_escapes_control_characters() {
    assert_eq!(render_token(&vec![10]), "\\u{000a}");
    assert_eq!(render_token(&vec![97, 9, 98]), "a\\u{0009}b");
    assert_eq!(render_token(&vec![0xc2, 0x85]), "\\u{0085}");
}

#[test]
fn is_one_line_looks_for_line_feeds() {
    assert!(is_one_line(""));
    assert!(is_one_line("one line\r"));
    assert!(!is_one_line("two\nlines"));
    assert!(!is_one_line("\n"));
}
