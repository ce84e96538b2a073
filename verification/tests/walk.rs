use enum_nuker::walk::{contains_part, entry_action, same_text, wants_file, EntryAction};

#[test]
fn contains_part_finds_text_anywhere() {
    assert!(contains_part("abc", ""));
    assert!(contains_part("", ""));
    assert!(contains_part("abc", "a"));
    assert!(contains_part("abc", "bc"));
    assert!(contains_part("abc", "abc"));
    assert!(!contains_part("abc", "abcd"));
    assert!(!contains_part("abc", "ac"));
    assert!(!contains_part("", "a"));
    assert!(contains_part("a_b__c", "__"));
    assert!(!contains_part("a_b_c", "__"));
    assert!(contains_part("x\u{e9}y", "\u{e9}y"));
}

#[test]
fn same_text_compares_whole_strings() {
    assert!(same_text("", ""));
    assert!(same_text("ts", "ts"));
    assert!(!same_text("ts", "tsx"));
    assert!(!same_text("tsx", "ts"));
    assert!(!same_text("ts", "tS"));
    assert!(!same_text("", "ts"));
}

#[test]
fn entry_action_skips_marked_paths() {
    assert_eq!(entry_action("src/__generated__/a.ts", false), EntryAction::Skip);
    assert_eq!(entry_action("src/__generated__", true), EntryAction::Skip);
    assert_eq!(entry_action("node_modules", true), EntryAction::Skip);
    assert_eq!(entry_action("web/node_modules/x/index.ts", false), EntryAction::Skip);
    assert_eq!(entry_action("my__app/main.ts", false), EntryAction::Skip);
    assert_eq!(entry_action("old_node_modules_copy", true), EntryAction::Skip);
}

#[test]
fn entry_action_descends_and_visits() {
    assert_eq!(entry_action("src", true), EntryAction::Descend);
    assert_eq!(entry_action("src/a.ts", false), EntryAction::Visit);
    assert_eq!(entry_action("src/a_b.ts", false), EntryAction::Visit);
    assert_eq!(entry_action("node_module", true), EntryAction::Descend);
    assert_eq!(entry_action("", false), EntryAction::Visit);
}

#[test]
fn wants_file_takes_ts_only() {
    assert!(wants_file(Some("ts")));
    assert!(!wants_file(Some("tsx")));
    assert!(!wants_file(Some("js")));
    assert!(!wants_file(Some("TS")));
    assert!(!wants_file(Some("")));
    assert!(!wants_file(None));
}
