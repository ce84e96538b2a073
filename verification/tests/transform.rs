use enum_nuker::transform_enums;

#[test]
fn test_basic_enum_conversion() {
    let ts_enum = r#"export enum BasicEnum { FIRST = 'first', SECOND = 'second' }"#;
    let expected_output = r#"export const BasicEnum = {
  FIRST: 'first',
  SECOND: 'second',
} as const;

export type BasicEnum = (typeof BasicEnum)[keyof typeof BasicEnum];"#;

    let (result, transformed) = transform_enums(ts_enum);
    assert!(transformed);
    assert_eq!(result.trim(), expected_output);
}

#[test]
fn test_enum_with_trailing_comma() {
    let ts_enum = r#"export enum TrailingCommaEnum { FIRST = 'first', SECOND = 'second', }"#;
    let expected_output = r#"export const TrailingCommaEnum = {
  FIRST: 'first',
  SECOND: 'second',
} as const;

export type TrailingCommaEnum = (typeof TrailingCommaEnum)[keyof typeof TrailingCommaEnum];"#;

    let (result, transformed) = transform_enums(ts_enum);
    assert!(transformed);
    assert_eq!(result.trim(), expected_output);
}

#[test]
fn test_enum_with_additional_spacing() {
    let ts_enum = r#"export enum SpacingEnum { 
    FIRST = 'first', 
    SECOND = 'second' 
}"#;
    let expected_output = r#"export const SpacingEnum = {
  FIRST: 'first',
  SECOND: 'second',
} as const;

export type SpacingEnum = (typeof SpacingEnum)[keyof typeof SpacingEnum];"#;

    let (result, transformed) = transform_enums(ts_enum);
    assert!(transformed);
    assert_eq!(result.trim(), expected_output);
}

#[test]
fn test_no_enums_present() {
    let ts_content = r#"export const someVariable = 123;"#;
    let (result, transformed) = transform_enums(ts_content);
    assert!(!transformed);
    assert_eq!(result.trim(), ts_content);
}

fn color_declarations() -> String {
    "const Color = {\n  RED: 'r',\n  GREEN: 'g',\n} as const;\n\nexport type Color = (typeof Color)[keyof typeof Color];".to_string()
}

#[test]
fn color_enum_becomes_constant_and_type() {
    let (result, changed) = transform_enums("enum Color { RED = 'r', GREEN = 'g' }");
    assert!(changed);
    assert_eq!(result, color_declarations());
}

#[test]
fn trailing_comma_gives_the_same_text() {
    let plain = transform_enums("enum X { A = 'a', B = 'b' }");
    let trailing = transform_enums("enum X { A = 'a', B = 'b', }");
    assert!(plain.1);
    assert!(trailing.1);
    assert_eq!(plain.0, trailing.0);
    assert_eq!(
        plain.0,
        "const X = {\n  A: 'a',\n  B: 'b',\n} as const;\n\nexport type X = (typeof X)[keyof typeof X];"
    );
}

#[test]
fn text_without_enum_is_unchanged() {
    let (result, changed) = transform_enums("const y = 1;");
    assert!(!changed);
    assert_eq!(result, "const y = 1;");
}

#[test]
fn empty_text_is_unchanged() {
    let (result, changed) = transform_enums("");
    assert!(!changed);
    assert_eq!(result, "");
}

#[test]
fn second_pass_changes_nothing() {
    let (first, changed) = transform_enums("export enum Color { RED = 'r', GREEN = 'g' }\n");
    assert!(changed);
    let (second, changed_again) = transform_enums(&first);
    assert!(!changed_again);
    assert_eq!(second, first);
}

#[test]
fn second_pass_rewrites_an_enum_left_in_a_value() {
    let (first, changed) = transform_enums("enum X { A = enum Y { }");
    assert!(changed);
    assert_eq!(
        first,
        "const X = {\n  A: enum Y {,\n} as const;\n\nexport type X = (typeof X)[keyof typeof X];"
    );
    let (_, changed_again) = transform_enums(&first);
    assert!(changed_again);
}

#[test]
fn entries_keep_their_order() {
    let (result, changed) = transform_enums("enum Z { C = 3, A = 1, B = 2 }");
    assert!(changed);
    assert_eq!(
        result,
        "const Z = {\n  C: 3,\n  A: 1,\n  B: 2,\n} as const;\n\nexport type Z = (typeof Z)[keyof typeof Z];"
    );
}

#[test]
fn white_space_around_parts_is_ignored() {
    let tight = transform_enums("enum Color { RED = 'r', GREEN = 'g' }");
    let loose = transform_enums(
        "enum \t\n  Color \r\n\t {\n\n\t  RED   =\t'r'  ,\n\n   GREEN\n=\n'g'\u{a0}\n\n}",
    );
    assert!(loose.1);
    assert_eq!(loose.0, tight.0);
    assert_eq!(loose.0, color_declarations());
}

#[test]
fn blank_entries_are_dropped() {
    let (result, changed) = transform_enums("enum X { , A = 1, \n , , B = 2, , }");
    assert!(changed);
    assert_eq!(
        result,
        "const X = {\n  A: 1,\n  B: 2,\n} as const;\n\nexport type X = (typeof X)[keyof typeof X];"
    );
}

#[test]
fn body_without_entries_gives_an_empty_object() {
    let (result, changed) = transform_enums("enum X { , }");
    assert!(changed);
    assert_eq!(
        result,
        "const X = {\n  \n} as const;\n\nexport type X = (typeof X)[keyof typeof X];"
    );
}

#[test]
fn entry_without_value_gets_an_empty_value() {
    let (result, changed) = transform_enums("enum X { A, B = 2 }");
    assert!(changed);
    assert_eq!(
        result,
        "const X = {\n  A: ,\n  B: 2,\n} as const;\n\nexport type X = (typeof X)[keyof typeof X];"
    );
}

#[test]
fn only_the_first_equals_sign_separates() {
    let (result, changed) = transform_enums("enum X { A = b = c }");
    assert!(changed);
    assert_eq!(
        result,
        "const X = {\n  A: b = c,\n} as const;\n\nexport type X = (typeof X)[keyof typeof X];"
    );
}

#[test]
fn first_closing_brace_ends_the_body() {
    let (result, changed) = transform_enums("enum X { A = '}', B = 2 }");
    assert!(changed);
    assert_eq!(
        result,
        "const X = {\n  A: ',\n} as const;\n\nexport type X = (typeof X)[keyof typeof X];', B = 2 }"
    );
}

#[test]
fn every_enum_is_rewritten_and_the_rest_is_kept() {
    let input = "// head\nexport enum A { X = 1 }\nlet k = 2;\nenum B { Y }\n// tail\n";
    let (result, changed) = transform_enums(input);
    assert!(changed);
    assert_eq!(
        result,
        "// head\nexport const A = {\n  X: 1,\n} as const;\n\nexport type A = (typeof A)[keyof typeof A];\nlet k = 2;\nconst B = {\n  Y: ,\n} as const;\n\nexport type B = (typeof B)[keyof typeof B];\n// tail\n"
    );
}

#[test]
fn characters_of_several_bytes_are_kept() {
    let input = "// caf\u{e9} \u{1f600}\nenum \u{c4}rger { \u{dc}ber = '\u{fc}', \u{4e2d} = '\u{6587}' } // \u{2713}";
    let (result, changed) = transform_enums(input);
    assert!(changed);
    assert_eq!(
        result,
        "// caf\u{e9} \u{1f600}\nconst \u{c4}rger = {\n  \u{dc}ber: '\u{fc}',\n  \u{4e2d}: '\u{6587}',\n} as const;\n\nexport type \u{c4}rger = (typeof \u{c4}rger)[keyof typeof \u{c4}rger]; // \u{2713}"
    );
}

#[test]
fn enum_without_space_before_the_brace_is_not_rewritten() {
    let (result, changed) = transform_enums("enum X{ A = 1 }");
    assert!(!changed);
    assert_eq!(result, "enum X{ A = 1 }");
}

#[test]
fn enum_with_an_empty_body_is_not_rewritten() {
    let (result, changed) = transform_enums("enum X {}");
    assert!(!changed);
    assert_eq!(result, "enum X {}");
}
