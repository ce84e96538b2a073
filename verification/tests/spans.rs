use enum_nuker::spans::{check_piece, check_spans, rewrite_spans, slice, EnumSpan};

fn span(start: usize, end: usize, name: (usize, usize), body: (usize, usize)) -> EnumSpan {
    EnumSpan {
        start,
        end,
        name_start: name.0,
        name_end: name.1,
        body_start: body.0,
        body_end: body.1,
    }
}

#[test]
fn slice_takes_bytes_between_characters() {
    let text = "a\u{e9}b\u{1f600}c";
    assert_eq!(slice(text, 0, 0), "");
    assert_eq!(slice(text, 0, 1), "a");
    assert_eq!(slice(text, 1, 3), "\u{e9}");
    assert_eq!(slice(text, 3, 8), "b\u{1f600}");
    assert_eq!(slice(text, 8, 9), "c");
    assert_eq!(slice(text, 0, 9), text);
    assert_eq!(slice(text, 9, 9), "");
}

#[test]
fn check_piece_refuses_what_cuts_a_character() {
    let text = "a\u{e9}b";
    assert!(check_piece(text, 0, 4));
    assert!(check_piece(text, 1, 3));
    assert!(check_piece(text, 4, 4));
    assert!(!check_piece(text, 1, 2));
    assert!(!check_piece(text, 2, 3));
    assert!(!check_piece(text, 3, 1));
    assert!(!check_piece(text, 0, 5));
    assert!(!check_piece(text, 5, 5));
}

#[test]
fn check_spans_accepts_spans_in_order() {
    let text = "enum A { X } enum B { Y }";
    let spans = vec![span(0, 12, (5, 6), (8, 11)), span(13, 25, (18, 19), (21, 24))];
    assert!(check_spans(text, &spans));
    assert!(check_spans(text, &vec![]));
    assert!(check_spans("", &vec![]));
}

#[test]
fn check_spans_refuses_overlap_and_disorder() {
    let text = "enum A { X } enum B { Y }";
    let first = span(0, 12, (5, 6), (8, 11));
    let second = span(13, 25, (18, 19), (21, 24));
    assert!(!check_spans(text, &vec![second, first]));
    assert!(!check_spans(text, &vec![first, span(11, 25, (18, 19), (21, 24))]));
    assert!(check_spans(text, &vec![first, span(12, 25, (18, 19), (21, 24))]));
}

#[test]
fn check_spans_refuses_ranges_outside_the_text() {
    let text = "enum A { X }";
    assert!(!check_spans(text, &vec![span(0, 13, (5, 6), (8, 11))]));
    assert!(!check_spans(text, &vec![span(0, 12, (6, 5), (8, 11))]));
    assert!(!check_spans(text, &vec![span(0, 12, (5, 6), (8, 40))]));
    assert!(!check_spans("\u{e9}", &vec![span(0, 2, (0, 1), (1, 2))]));
}

#[test]
fn rewrite_spans_replaces_each_span() {
    let text = "<enum A { X = 1 }|enum B { Y }>";
    let spans = vec![span(1, 17, (6, 7), (9, 16)), span(18, 30, (23, 24), (26, 29))];
    assert!(check_spans(text, &spans));
    assert_eq!(
        rewrite_spans(text, &spans),
        "<const A = {\n  X: 1,\n} as const;\n\nexport type A = (typeof A)[keyof typeof A];|const B = {\n  Y: ,\n} as const;\n\nexport type B = (typeof B)[keyof typeof B];>"
    );
}

#[test]
fn rewrite_spans_without_spans_keeps_the_text() {
    assert_eq!(rewrite_spans("enum A { X }", &vec![]), "enum A { X }");
    assert_eq!(rewrite_spans("", &vec![]), "");
    assert_eq!(rewrite_spans("\u{4e2d}\u{6587}", &vec![]), "\u{4e2d}\u{6587}");
}

#[test]
fn rewrite_spans_takes_name_and_body_from_their_ranges() {
    let text = "0123456789";
    let spans = vec![span(2, 8, (0, 2), (8, 10))];
    assert!(check_spans(text, &spans));
    assert_eq!(
        rewrite_spans(text, &spans),
        "01const 01 = {\n  89: ,\n} as const;\n\nexport type 01 = (typeof 01)[keyof typeof 01];89"
    );
}

#[test]
fn rewrite_spans_with_characters_of_several_bytes() {
    let text = "\u{e9}enum \u{c4} { \u{fc} }\u{e9}";
    let spans = vec![span(2, 16, (7, 9), (11, 15))];
    assert!(check_spans(text, &spans));
    assert_eq!(
        rewrite_spans(text, &spans),
        "\u{e9}const \u{c4} = {\n  \u{fc}: ,\n} as const;\n\nexport type \u{c4} = (typeof \u{c4})[keyof typeof \u{c4}];\u{e9}"
    );
}
