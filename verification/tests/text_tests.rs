use minmux::text::{chars_of, is_whitespace, lines_of, parse_i32, string_from_chars, words_of};

fn lines_std(s: &str) -> Vec<String> {
    s.lines().map(|l| l.to_string()).collect()
}

fn lines_lib(s: &str) -> Vec<String> {
    let chars = chars_of(s);
    lines_of(&chars).iter().map(|l| l.iter().collect()).collect()
}

fn words_lib(s: &str) -> Vec<String> {
    let chars = chars_of(s);
    words_of(&chars).iter().map(|w| w.iter().collect()).collect()
}

const SAMPLES: &[&str] = &[
    "",
    "\n",
    "\n\n",
    "a",
    "a\n",
    "a\r\n",
    "a\r",
    "a\n\r",
    "a\r\nb\r\n",
    "a\n\nb",
    "\r\n\r\n",
    "  PID  PPID TT\n  123   1 pts/0\n",
    "x\ty \u{a0}z\u{3000}w\u{85}v",
    "\u{2009}lead and trail\u{200b} ",
    "caf\u{e9} \u{1f600}\r\r\n",
];

#[test]
fn lines_agree_with_std() {
    for s in SAMPLES {
        assert_eq!(lines_lib(s), lines_std(s), "lines of {:?}", s);
    }
}

#[test]
fn words_agree_with_std() {
    for s in SAMPLES {
        let expected: Vec<String> = s.split_whitespace().map(|w| w.to_string()).collect();
        assert_eq!(words_lib(s), expected, "words of {:?}", s);
    }
}

#[test]
fn whitespace_agrees_with_std() {
    for c in (0u32..0x3100).filter_map(char::from_u32) {
        assert_eq!(is_whitespace(c), c.is_whitespace(), "{:?}", c);
    }
}

#[test]
fn parse_i32_agrees_with_std() {
    let cases = [
        "", "0", "-0", "+0", "+", "-", "+-1", "-+1", "42", "-42", "+42", "007", "2147483647",
        "2147483648", "-2147483648", "-2147483649", "99999999999999999999", "-00000000000000000001",
        "1a", "a1", " 1", "1 ", "\u{661}", "12\u{fe0f}",
    ];
    for t in cases {
        let chars = chars_of(t);
        assert_eq!(parse_i32(&chars), t.parse::<i32>().ok(), "parse of {:?}", t);
    }
}

#[test]
fn string_round_trip() {
    for s in SAMPLES {
        let chars = chars_of(s);
        assert_eq!(string_from_chars(&chars), *s);
    }
}
