use ledgerstats::ledger::text::{
    is_blank_line, is_space, read_unsigned, split_fields, split_lines, to_chars,
};
use ledgerstats::ledger::IntErrorKind;

fn strings(alphabet: &[char], longest: usize) -> Vec<String> {
    let mut all = vec![String::new()];
    let mut last = vec![String::new()];
    for _ in 0..longest {
        let mut next = Vec::new();
        for s in &last {
            for c in alphabet {
                let mut longer = s.clone();
                longer.push(*c);
                next.push(longer);
            }
        }
        all.extend(next.iter().cloned());
        last = next;
    }
    all
}

fn texts(text: &[char], spans: &[(usize, usize)]) -> Vec<String> {
    spans
        .iter()
        .map(|span| text[span.0..span.1].iter().collect())
        .collect()
}

fn kind(e: &std::num::ParseIntError) -> IntErrorKind {
    match e.kind() {
        std::num::IntErrorKind::Empty => IntErrorKind::Empty,
        std::num::IntErrorKind::InvalidDigit => IntErrorKind::InvalidDigit,
        std::num::IntErrorKind::PosOverflow => IntErrorKind::PosOverflow,
        other => panic!("{:?}", other),
    }
}

#[test]
fn white_space_is_what_the_standard_library_takes_for_it() {
    for code in 0..=0x10ffffu32 {
        if let Some(c) = char::from_u32(code) {
            assert_eq!(is_space(c), c.is_whitespace(), "{:x}", code);
        }
    }
}

#[test]
fn to_chars_keeps_the_characters() {
    for s in ["", "a", "1 2 3\n", "\u{1f980}\u{e9}\u{3000}x"] {
        assert_eq!(to_chars(s), s.chars().collect::<Vec<char>>());
    }
}

#[test]
fn lines_are_what_the_standard_library_takes_for_them() {
    for s in strings(&['a', '\n', '\r', ' '], 7) {
        let text = to_chars(&s);
        let spans = split_lines(&text);
        let expected: Vec<String> = s.lines().map(String::from).collect();
        assert_eq!(texts(&text, &spans), expected, "{:?}", s);
    }
}

#[test]
fn lines_of_named_texts() {
    let text = to_chars("2\r\n1 1 0\n\n1 2 0\r");
    assert_eq!(
        split_lines(&text),
        vec![(0, 1), (3, 8), (9, 9), (10, 16)]
    );
    assert_eq!(split_lines(&to_chars("")), vec![]);
    assert_eq!(split_lines(&to_chars("\n")), vec![(0, 0)]);
    assert_eq!(split_lines(&to_chars("\r\n\r\n")), vec![(0, 0), (2, 2)]);
    assert_eq!(split_lines(&to_chars("ab")), vec![(0, 2)]);
}

#[test]
fn fields_are_what_the_standard_library_takes_for_them() {
    for s in strings(&['a', 'b', ' ', '\t', '\u{3000}'], 6) {
        let text = to_chars(&s);
        let spans = split_fields(&text, (0, text.len()));
        let expected: Vec<String> = s.split_whitespace().map(String::from).collect();
        assert_eq!(texts(&text, &spans), expected, "{:?}", s);
        assert_eq!(
            is_blank_line(&text, (0, text.len())),
            expected.is_empty(),
            "{:?}",
            s
        );
    }
}

#[test]
fn fields_of_a_part_of_a_text() {
    let text = to_chars("xx 12  345 \u{a0}6 yy");
    assert_eq!(
        split_fields(&text, (2, 14)),
        vec![(3, 5), (7, 10), (12, 13)]
    );
    assert_eq!(split_fields(&text, (3, 5)), vec![(3, 5)]);
    assert_eq!(split_fields(&text, (5, 7)), vec![]);
    assert_eq!(split_fields(&text, (4, 4)), vec![]);
    assert!(is_blank_line(&text, (5, 7)));
    assert!(is_blank_line(&text, (4, 4)));
    assert!(!is_blank_line(&text, (5, 8)));
}

#[test]
fn numbers_within_a_byte_are_what_the_standard_library_takes_for_them() {
    for s in strings(&['+', '-', '0', '2', '5', '6', 'x'], 5) {
        let text = to_chars(&s);
        let expected = s.parse::<u8>().map(u64::from).map_err(|e| kind(&e));
        assert_eq!(
            read_unsigned(&text, (0, text.len()), u8::MAX as u64),
            expected,
            "{:?}",
            s
        );
    }
}

#[test]
fn numbers_are_what_the_standard_library_takes_for_them() {
    for s in [
        "0",
        "00",
        "+0",
        "18446744073709551615",
        "+18446744073709551615",
        "018446744073709551615",
        "18446744073709551616",
        "18446744073709551620",
        "28446744073709551615",
        "184467440737095516150",
        "1844674407370955161x",
        "18446744073709551616x",
        "x18446744073709551616",
        "340282366920938463463374607431768211456",
        " 1",
        "1 ",
        "\u{663}",
    ] {
        let text = to_chars(s);
        let expected = s.parse::<u64>().map_err(|e| kind(&e));
        assert_eq!(
            read_unsigned(&text, (0, text.len()), u64::MAX),
            expected,
            "{:?}",
            s
        );
    }
}

#[test]
fn a_number_is_read_where_it_stands() {
    let text = to_chars("ab+42cd");
    assert_eq!(read_unsigned(&text, (2, 5), 100), Ok(42));
    assert_eq!(read_unsigned(&text, (3, 5), 42), Ok(42));
    assert_eq!(
        read_unsigned(&text, (3, 5), 41),
        Err(IntErrorKind::PosOverflow)
    );
    assert_eq!(read_unsigned(&text, (3, 3), 41), Err(IntErrorKind::Empty));
    assert_eq!(
        read_unsigned(&text, (2, 3), 41),
        Err(IntErrorKind::InvalidDigit)
    );
    assert_eq!(
        read_unsigned(&text, (2, 6), 41),
        Err(IntErrorKind::PosOverflow)
    );
    assert_eq!(
        read_unsigned(&text, (2, 6), 42),
        Err(IntErrorKind::InvalidDigit)
    );
    assert_eq!(read_unsigned(&text, (4, 5), 0), Err(IntErrorKind::PosOverflow));
}
