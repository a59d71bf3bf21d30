use forebodere::commands::parse_i64;
use forebodere::text::{chars_of, is_whitespace, split_whitespace, trim_chars};

const SAMPLES: [&str; 12] = [
    "",
    " ",
    "a",
    "  a b  ",
    "\u{3000}x\u{85}y\u{a0}",
    "\t\n\u{b}\u{c}\r",
    "é à",
    "one  two\tthree\nfour",
    "\u{200b}zero\u{200b}",
    "\u{2028}line\u{2029}",
    "\u{1680}ogham\u{205f}",
    "trailing \u{202f}",
];

#[test]
fn whitespace_agrees_with_std_on_every_char() {
    for u in 0..=0x10FFFFu32 {
        if let Some(c) = char::from_u32(u) {
            assert_eq!(is_whitespace(c), c.is_whitespace(), "U+{u:04X}");
        }
    }
}

#[test]
fn trimming_and_splitting_agree_with_std() {
    for s in SAMPLES {
        let trimmed: Vec<char> = s.trim().chars().collect();
        assert_eq!(trim_chars(s), trimmed, "{s:?}");
        let chars = chars_of(s);
        let words: Vec<String> = s.split_whitespace().map(String::from).collect();
        assert_eq!(split_whitespace(&chars), words, "{s:?}");
    }
}

#[test]
fn integer_parsing_agrees_with_std() {
    let samples = [
        "", "+", "-", "0", "-0", "+0", "007", "12a", "a12", " 1", "1 ", "+-1", "--1",
        "9223372036854775807", "9223372036854775808", "-9223372036854775808",
        "-9223372036854775809", "99999999999999999999999", "١٢", "1_000",
    ];
    for s in samples {
        let chars = chars_of(s);
        assert_eq!(parse_i64(&chars), s.parse::<i64>().ok(), "{s:?}");
    }
}
