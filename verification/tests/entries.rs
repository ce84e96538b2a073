use enum_nuker::entries::{parse_entries, render_declaration, rewrite_enum, EnumEntry};

fn entry(key: &str, value: &str) -> EnumEntry {
    EnumEntry { key: key.to_string(), value: value.to_string() }
}

#[test]
fn parse_entries_cuts_at_commas_and_first_equals() {
    let list = parse_entries(" RED = 'r', GREEN = 'g' ");
    assert_eq!(list, vec![entry("RED", "'r'"), entry("GREEN", "'g'")]);
}

#[test]
fn parse_entries_keeps_the_order_of_the_body() {
    let list = parse_entries("c=3,a=1,b=2");
    assert_eq!(list, vec![entry("c", "3"), entry("a", "1"), entry("b", "2")]);
}

#[test]
fn parse_entries_of_blank_bodies_is_empty() {
    assert_eq!(parse_entries(""), vec![]);
    assert_eq!(parse_entries("  \n\t "), vec![]);
    assert_eq!(parse_entries(",,"), vec![]);
    assert_eq!(parse_entries(" , \n ,\t"), vec![]);
}

#[test]
fn parse_entries_ignores_a_trailing_comma() {
    assert_eq!(parse_entries("A = 'a', B = 'b', "), parse_entries("A = 'a', B = 'b'"));
    assert_eq!(parse_entries("A,"), vec![entry("A", "")]);
}

#[test]
fn parse_entries_trims_keys_and_values() {
    let list = parse_entries("\n\t  A \u{2003}=\u{a0} 1  \r\n,\u{3000}B\u{85}");
    assert_eq!(list, vec![entry("A", "1"), entry("B", "")]);
}

#[test]
fn parse_entries_handles_missing_keys_and_values() {
    assert_eq!(parse_entries("A ="), vec![entry("A", "")]);
    assert_eq!(parse_entries("= 1"), vec![entry("", "1")]);
    assert_eq!(parse_entries("="), vec![entry("", "")]);
    assert_eq!(parse_entries("A = b = c"), vec![entry("A", "b = c")]);
    assert_eq!(parse_entries("A == c"), vec![entry("A", "= c")]);
}

#[test]
fn parse_entries_keeps_inner_white_space() {
    assert_eq!(parse_entries(" my key = a  b "), vec![entry("my key", "a  b")]);
}

#[test]
fn render_declaration_writes_one_line_for_each_entry() {
    let list = vec![entry("RED", "'r'"), entry("GREEN", "'g'")];
    assert_eq!(
        render_declaration("Color", &list),
        "const Color = {\n  RED: 'r',\n  GREEN: 'g',\n} as const;\n\nexport type Color = (typeof Color)[keyof typeof Color];"
    );
}

#[test]
fn render_declaration_of_one_entry() {
    assert_eq!(
        render_declaration("N", &vec![entry("k", "")]),
        "const N = {\n  k: ,\n} as const;\n\nexport type N = (typeof N)[keyof typeof N];"
    );
}

#[test]
fn render_declaration_without_entries() {
    assert_eq!(
        render_declaration("E", &vec![]),
        "const E = {\n  \n} as const;\n\nexport type E = (typeof E)[keyof typeof E];"
    );
}

#[test]
fn rewrite_enum_parses_and_renders() {
    assert_eq!(
        rewrite_enum("X", " A = 'a', B = 'b', "),
        "const X = {\n  A: 'a',\n  B: 'b',\n} as const;\n\nexport type X = (typeof X)[keyof typeof X];"
    );
}

#[test]
fn rewrite_enum_ignores_padding_and_trailing_comma() {
    let plain = rewrite_enum("X", "A=1,B=2");
    assert_eq!(rewrite_enum("X", "  A =  1 ,\n\tB\t=\t2\n"), plain);
    assert_eq!(rewrite_enum("X", "A=1,B=2,"), plain);
    assert_eq!(rewrite_enum("X", "A=1,B=2,  \n"), plain);
}
