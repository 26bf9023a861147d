use memory_regions::hex::parse_hex;
use memory_regions::text::chars_of;
use memory_regions::text::is_space;
use memory_regions::text::split_fields;
use memory_regions::text::split_lines;
use memory_regions::text::split_words;
use memory_regions::text::trimmed;

fn chars(s: &str) -> Vec<char> {
    s.chars().collect()
}

fn texts(parts: &[Vec<char>]) -> Vec<String> {
    parts.iter().map(|p| p.iter().collect()).collect()
}

/// A sequence of numbers that looks random and is the same on every run.
fn step(state: &mut u64) -> u64 {
    *state = state.wrapping_mul(6364136223846793005).wrapping_add(1442695040888963407);
    *state >> 33
}

/// A text over a small alphabet in which every special character is frequent.
fn scrambled(state: &mut u64, alphabet: &[char], max_len: u64) -> String {
    let len = step(state) % (max_len + 1);
    (0..len).map(|_| alphabet[(step(state) % alphabet.len() as u64) as usize]).collect()
}

#[test]
fn chars_of_a_string() {
    assert_eq!(chars_of("a|é\n😀"), vec!['a', '|', 'é', '\n', '😀']);
    assert_eq!(chars_of(""), Vec::<char>::new());
}

#[test]
fn white_space_is_what_the_standard_library_says() {
    let mut c = '\0';
    loop {
        assert_eq!(is_space(c), c.is_whitespace(), "character {:?}", c);
        if c == char::MAX {
            break;
        }
        c = char::from_u32(c as u32 + 1).unwrap_or('\u{E000}');
    }
}

#[test]
fn trimming_cuts_white_space_at_both_ends() {
    assert_eq!(trimmed(&chars("  a b\t\n")), &chars("a b")[..]);
    assert_eq!(trimmed(&chars("a")), &chars("a")[..]);
    assert_eq!(trimmed(&chars(" \u{3000}\u{a0} ")), &chars("")[..]);
    assert_eq!(trimmed(&chars("")), &chars("")[..]);
    assert_eq!(trimmed(&chars("\u{2028}x\u{85}")), &chars("x")[..]);
}

#[test]
fn lines_end_at_line_feeds() {
    assert_eq!(texts(&split_lines(&chars("a\nb\r\nc"))), vec!["a", "b", "c"]);
    assert_eq!(texts(&split_lines(&chars("a\n"))), vec!["a"]);
    assert_eq!(texts(&split_lines(&chars("a\n\n"))), vec!["a", ""]);
    assert_eq!(texts(&split_lines(&chars("\n"))), vec![""]);
    assert_eq!(texts(&split_lines(&chars(""))), Vec::<String>::new());
    assert_eq!(texts(&split_lines(&chars("a\r"))), vec!["a\r"]);
    assert_eq!(texts(&split_lines(&chars("a\r\r\nb"))), vec!["a\r", "b"]);
    assert_eq!(texts(&split_lines(&chars("a\rb\n"))), vec!["a\rb"]);
    assert_eq!(texts(&split_lines(&chars("\r\n\r\n"))), vec!["", ""]);
}

#[test]
fn lines_are_what_the_standard_library_says() {
    let alphabet = ['a', '\n', '\r', ' ', '|'];
    let mut state: u64 = 11;
    for _ in 0..20000 {
        let text = scrambled(&mut state, &alphabet, 12);
        let expected: Vec<String> = text.lines().map(|l| l.to_string()).collect();
        assert_eq!(texts(&split_lines(&chars(&text))), expected, "text {:?}", text);
    }
}

#[test]
fn fields_end_at_the_mark() {
    assert_eq!(texts(&split_fields(&chars("a| b |c"), '|')), vec!["a", "b", "c"]);
    assert_eq!(texts(&split_fields(&chars("a|b|"), '|')), vec!["a", "b"]);
    assert_eq!(texts(&split_fields(&chars("a|b||"), '|')), vec!["a", "b", ""]);
    assert_eq!(texts(&split_fields(&chars("a|b| "), '|')), vec!["a", "b", ""]);
    assert_eq!(texts(&split_fields(&chars("|"), '|')), vec![""]);
    assert_eq!(texts(&split_fields(&chars(""), '|')), Vec::<String>::new());
    assert_eq!(texts(&split_fields(&chars(" "), '|')), vec![""]);
    assert_eq!(texts(&split_fields(&chars("||"), '|')), vec!["", ""]);
}

#[test]
fn fields_are_what_the_standard_library_says() {
    let alphabet = ['a', 'b', '|', ' ', '\t', '\u{a0}'];
    let mut state: u64 = 13;
    for _ in 0..20000 {
        let text = scrambled(&mut state, &alphabet, 12);
        let expected: Vec<String> =
            text.split_terminator("|").map(|part| part.trim().to_string()).collect();
        assert_eq!(texts(&split_fields(&chars(&text), '|')), expected, "text {:?}", text);
    }
}

#[test]
fn words_are_runs_without_white_space() {
    assert_eq!(texts(&split_words(&chars("  a  bc\td "))), vec!["a", "bc", "d"]);
    assert_eq!(texts(&split_words(&chars(""))), Vec::<String>::new());
    assert_eq!(texts(&split_words(&chars(" \t "))), Vec::<String>::new());
    assert_eq!(texts(&split_words(&chars("abc"))), vec!["abc"]);
    assert_eq!(texts(&split_words(&chars("a\u{3000}b"))), vec!["a", "b"]);
}

#[test]
fn words_are_what_the_standard_library_says() {
    let alphabet = ['a', 'b', '`', ' ', '\t', '\u{2003}', '\r'];
    let mut state: u64 = 17;
    for _ in 0..20000 {
        let text = scrambled(&mut state, &alphabet, 14);
        let expected: Vec<String> = text.split_whitespace().map(|w| w.to_string()).collect();
        assert_eq!(texts(&split_words(&chars(&text))), expected, "text {:?}", text);
    }
}

#[test]
fn hex_of_two_digits() {
    assert_eq!(parse_hex("10"), 16);
}

#[test]
fn hex_with_grouping_mark() {
    assert_eq!(parse_hex("1`0000"), 65536);
    assert_eq!(parse_hex("1`0000"), parse_hex("10000"));
}

#[test]
fn hex_of_addresses() {
    assert_eq!(parse_hex("7ffe`efbff000"), 0x7ffeefbff000);
    assert_eq!(parse_hex("569d`3bd6e000"), 0x569d3bd6e000);
    assert_eq!(parse_hex("0`00000000"), 0);
    assert_eq!(parse_hex("FFFFFFFFFFFFFFFF"), u64::MAX);
    assert_eq!(parse_hex("ffffffff`ffffffff"), u64::MAX);
    assert_eq!(parse_hex("AbCdEf"), 0xabcdef);
    assert_eq!(parse_hex("```1```"), 1);
    assert_eq!(parse_hex("0000000000000000000000001f"), 0x1f);
    assert_eq!(parse_hex("+1f"), 0x1f);
    assert_eq!(parse_hex("`+`1f"), 0x1f);
}

#[test]
fn hex_that_is_no_number_is_zero() {
    assert_eq!(parse_hex(""), 0);
    assert_eq!(parse_hex("`"), 0);
    assert_eq!(parse_hex("+"), 0);
    assert_eq!(parse_hex("-1"), 0);
    assert_eq!(parse_hex("++1"), 0);
    assert_eq!(parse_hex("1+"), 0);
    assert_eq!(parse_hex("0x10"), 0);
    assert_eq!(parse_hex("10h"), 0);
    assert_eq!(parse_hex(" 10"), 0);
    assert_eq!(parse_hex("10 "), 0);
    assert_eq!(parse_hex("1_0"), 0);
    assert_eq!(parse_hex("g"), 0);
    assert_eq!(parse_hex("<unknown>"), 0);
    assert_eq!(parse_hex("１０"), 0);
    assert_eq!(parse_hex("10000000000000000"), 0);
    assert_eq!(parse_hex("1`00000000`00000000"), 0);
    assert_eq!(parse_hex("fffffffffffffffff"), 0);
}

#[test]
fn hex_is_what_the_standard_library_says() {
    let alphabet = ['0', '1', '9', 'a', 'f', 'F', 'g', '`', '+', '-', ' '];
    let mut state: u64 = 19;
    for _ in 0..20000 {
        let text = scrambled(&mut state, &alphabet, 20);
        let expected = u64::from_str_radix(text.replace("`", "").as_str(), 16).unwrap_or(0);
        assert_eq!(parse_hex(&text), expected, "text {:?}", text);
    }
    let digits = ['0', '7', '8', 'f', 'F', '`'];
    for _ in 0..20000 {
        let text = scrambled(&mut state, &digits, 24);
        let expected = u64::from_str_radix(text.replace("`", "").as_str(), 16).unwrap_or(0);
        assert_eq!(parse_hex(&text), expected, "text {:?}", text);
    }
}

/// Every character, in order.
fn every_char() -> Vec<char> {
    (0..=char::MAX as u32).filter_map(char::from_u32).collect()
}

#[test]
fn hex_is_what_the_standard_library_says_of_every_character() {
    for c in every_char() {
        for text in [format!("{}", c), format!("1{}", c), format!("{}1", c), format!("+{}", c)] {
            let expected = u64::from_str_radix(text.replace("`", "").as_str(), 16).unwrap_or(0);
            assert_eq!(parse_hex(&text), expected, "text {:?}", text);
        }
    }
}

#[test]
fn lines_are_what_the_standard_library_says_of_every_character() {
    for c in every_char() {
        for text in [format!("a{}b", c), format!("a{}\nb{}", c, c), format!("{}", c)] {
            let expected: Vec<String> = text.lines().map(|l| l.to_string()).collect();
            assert_eq!(texts(&split_lines(&chars(&text))), expected, "text {:?}", text);
        }
    }
}

#[test]
fn fields_and_words_are_what_the_standard_library_says_of_every_character() {
    for c in every_char() {
        let text = format!("{}a{}|{}b {}", c, c, c, c);
        let fields: Vec<String> =
            text.split_terminator("|").map(|part| part.trim().to_string()).collect();
        assert_eq!(texts(&split_fields(&chars(&text), '|')), fields, "text {:?}", text);
        let words: Vec<String> = text.split_whitespace().map(|w| w.to_string()).collect();
        assert_eq!(texts(&split_words(&chars(&text))), words, "text {:?}", text);
    }
}
