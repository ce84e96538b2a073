use enum_nuker::text::{collect_range, find_char, is_white_space, to_chars, trim_range};

#[test]
fn white_space_is_what_the_standard_library_calls_so() {
    let mut code: u32 = 0;
    let mut seen: u32 = 0;
    while code <= 0x10FFFF {
        if let Some(c) = char::from_u32(code) {
            assert_eq!(is_white_space(c), c.is_whitespace(), "U+{:04X}", code);
            seen += 1;
        }
        code += 1;
    }
    assert_eq!(seen, 0x110000 - 0x800);
}

#[test]
fn white_space_examples() {
    assert!(is_white_space(' '));
    assert!(is_white_space('\t'));
    assert!(is_white_space('\n'));
    assert!(is_white_space('\r'));
    assert!(is_white_space('\u{a0}'));
    assert!(is_white_space('\u{3000}'));
    assert!(!is_white_space(','));
    assert!(!is_white_space('='));
    assert!(!is_white_space('A'));
    assert!(!is_white_space('\u{200b}'));
}

#[test]
fn to_chars_gives_every_character() {
    assert_eq!(to_chars(""), Vec::<char>::new());
    assert_eq!(to_chars("a\u{e9}\u{1f600}z"), vec!['a', '\u{e9}', '\u{1f600}', 'z']);
}

#[test]
fn trim_range_agrees_with_trim() {
    let samples = ["", " ", "a", "  a  ", "\t\n a b \r\n", "\u{a0}x\u{2003}", "x ", " x", "   "];
    for sample in samples {
        let chars = to_chars(sample);
        let (a, b) = trim_range(&chars, 0, chars.len());
        assert!(a <= b && b <= chars.len());
        assert_eq!(collect_range(&chars, a, b), sample.trim());
    }
}

#[test]
fn trim_range_stays_inside_its_range() {
    let chars = to_chars("ab  cd  ef");
    assert_eq!(trim_range(&chars, 2, 8), (4, 6));
    assert_eq!(trim_range(&chars, 2, 4), (4, 4));
    assert_eq!(trim_range(&chars, 3, 3), (3, 3));
    assert_eq!(trim_range(&chars, 0, 10), (0, 10));
}

#[test]
fn find_char_gives_the_first_position_or_the_end() {
    let chars = to_chars("a,b,c");
    assert_eq!(find_char(&chars, 0, 5, ','), 1);
    assert_eq!(find_char(&chars, 2, 5, ','), 3);
    assert_eq!(find_char(&chars, 4, 5, ','), 5);
    assert_eq!(find_char(&chars, 0, 1, ','), 1);
    assert_eq!(find_char(&chars, 1, 1, ','), 1);
    assert_eq!(find_char(&chars, 0, 5, '='), 5);
}

#[test]
fn collect_range_copies_the_characters() {
    let chars = to_chars("h\u{e9}llo w\u{f6}rld");
    assert_eq!(collect_range(&chars, 0, 5), "h\u{e9}llo");
    assert_eq!(collect_range(&chars, 6, 11), "w\u{f6}rld");
    assert_eq!(collect_range(&chars, 3, 3), "");
}
