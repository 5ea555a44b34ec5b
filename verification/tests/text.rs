use snirelay::text::{
    chars_of, contains_text, ends_with_ignoring_case, index_of, is_text, last_index_of, lines,
    parse_digits, parse_u16, parse_u64, push_decimal, push_text, same_ignoring_case, same_text,
    split, split_whitespace, starts_with, starts_with_ignoring_case, string_of, trim, white_space,
};

const SAMPLES: [&str; 14] = [
    "", " ", "a", "a b", "  a\tb  c ", "a\nb", "a\r\nb\r\n", "\n\n", "a\r", "\r\n", "x\u{3000}y\u{a0}",
    "one two\nthree", "\n", "a\rb\n",
];

fn strings(parts: Vec<Vec<char>>) -> Vec<String> {
    parts.iter().map(|p| p.iter().collect()).collect()
}

#[test]
fn white_space_is_that_of_the_standard_library() {
    for u in 0..=0x10ffff_u32 {
        if let Some(c) = char::from_u32(u) {
            assert_eq!(white_space(c), c.is_whitespace());
        }
    }
}

#[test]
fn lines_words_and_trimming() {
    for s in SAMPLES {
        let c = chars_of(s);
        let want: Vec<String> = s.lines().map(|l| l.to_string()).collect();
        assert_eq!(strings(lines(&c)), want);
        let want: Vec<String> = s.split_whitespace().map(|w| w.to_string()).collect();
        assert_eq!(strings(split_whitespace(&c)), want);
        assert_eq!(string_of(trim(&c)), s.trim());
        let want: Vec<String> = s.split('b').map(|p| p.to_string()).collect();
        assert_eq!(strings(split(&c, 'b')), want);
    }
}

#[test]
fn searching() {
    let c = chars_of("a:b:c");
    assert_eq!(index_of(&c, ':'), Some(1));
    assert_eq!(last_index_of(&c, ':'), Some(3));
    assert_eq!(index_of(&c, 'x'), None);
    assert_eq!(last_index_of(&c, 'x'), None);
    assert!(contains_text(&c, "b:c"));
    assert!(contains_text(&c, ""));
    assert!(!contains_text(&c, "a:b:c:"));
}

#[test]
fn comparing() {
    let c = chars_of("HosT: X");
    assert!(starts_with_ignoring_case(&c, "hOSt:"));
    assert!(!starts_with(&c, "host"));
    assert!(starts_with(&c, "Hos"));
    assert!(ends_with_ignoring_case(&c, ": x"));
    assert!(!ends_with_ignoring_case(&c, "a longer suffix"));
    assert!(same_ignoring_case(&c, "host: x"));
    assert!(!same_ignoring_case(&chars_of("é"), "É"));
    assert!(is_text(&c, "HosT: X"));
    assert!(same_text("ab", "ab"));
    assert!(!same_text("ab", "abc"));
}

#[test]
fn numbers() {
    for s in ["", "0", "+0", "007", "+", "++1", "-1", "1 ", "65535", "65536", "99999999999999999999"] {
        assert_eq!(parse_u16(&chars_of(s)), s.parse::<u16>().ok());
        assert_eq!(parse_u64(&chars_of(s)), s.parse::<u64>().ok());
    }
    assert_eq!(parse_u64(&chars_of("18446744073709551615")), Some(u64::MAX));
    assert_eq!(parse_digits(&chars_of("+1"), 9), None);
    assert_eq!(parse_digits(&chars_of("9"), 9), Some(9));
    assert_eq!(parse_digits(&chars_of("10"), 9), None);
    for n in [0, 7, 10, 99, 100, u64::MAX] {
        let mut s = String::new();
        push_text(&mut s, "n=");
        push_decimal(&mut s, n);
        assert_eq!(s, format!("n={}", n));
    }
}
