use zettarium::{apply_edit, confirms_removal, parse_find_selection, parse_markdown_content,
    prepare_new_note, Store, Timestamp, ZettariumError};

fn at(second: u8) -> Timestamp {
    Timestamp { year: 2025, month: 6, day: 4, hour: 17, minute: 1, second }
}

fn strings(v: &[&str]) -> Vec<String> {
    v.iter().map(|s| s.to_string()).collect()
}

#[test]
fn new_note_dedups_tags_and_renders_initial_body() {
    let mut store = Store::new();
    let (z, cleaned, content) =
        prepare_new_note(&mut store, "Test", "fleeting", Some(strings(&["a", "A", "b"])), at(0))
            .unwrap();
    assert_eq!(cleaned, strings(&["a", "b"]));
    assert_eq!(z.title, "Test");
    let (meta, body) = parse_markdown_content(&content).unwrap();
    assert_eq!(body, "## Test");
    assert!(meta.contains("- a\n") && meta.contains("- b\n"));
    assert!(store.ensure_zettel_exists(&z.id).is_ok());
}

#[test]
fn new_note_with_bad_type_changes_nothing() {
    let mut store = Store::new();
    let r = prepare_new_note(&mut store, "Test", "unknown", None, at(0));
    assert!(matches!(r, Err(ZettariumError::InvalidNoteType(_))));
    assert!(store.list_zettels(None, None, &Vec::new(), true, false).is_empty());
}

#[test]
fn edit_merges_tags_and_keeps_body() {
    let mut store = Store::new();
    let (z, cleaned, content) =
        prepare_new_note(&mut store, "Test", "fleeting", Some(strings(&["a"])), at(0)).unwrap();
    assert_eq!(cleaned, strings(&["a"]));
    let (updated, merged, new_content) = apply_edit(
        &mut store,
        &z.id,
        Some(&"Renamed".to_string()),
        None,
        Some(strings(&["b", "A"])),
        &content,
        at(5),
    )
    .unwrap();
    assert_eq!(updated.title, "Renamed");
    assert_eq!(updated.type_, z.type_);
    assert_eq!(merged, strings(&["a", "b"]));
    let (meta, body) = parse_markdown_content(&new_content).unwrap();
    assert_eq!(body, "## Test");
    assert!(meta.contains("title: Renamed\n"));
    assert!(meta.contains("- a\n") && meta.contains("- b\n"));
}

#[test]
fn edit_of_malformed_file_changes_nothing() {
    let mut store = Store::new();
    let (z, _, _) = prepare_new_note(&mut store, "Test", "fleeting", None, at(0)).unwrap();
    let before = store.list_zettels(None, None, &Vec::new(), true, false);
    let r = apply_edit(&mut store, &z.id, Some(&"x".to_string()), None, None, "garbage", at(5));
    assert!(matches!(r, Err(ZettariumError::MalformedFile)));
    let after = store.list_zettels(None, None, &Vec::new(), true, false);
    assert_eq!(before.len(), after.len());
    assert_eq!(store.ensure_zettel_exists(&z.id).unwrap().title, "Test");
}

#[test]
fn edit_of_missing_note_is_not_found() {
    let mut store = Store::new();
    let r = apply_edit(&mut store, &"nope".to_string(), None, None, None, "---\nx---\n\ny", at(0));
    assert!(matches!(r, Err(ZettariumError::NotFound)));
}

#[test]
fn removal_confirmation_accepts_only_yes() {
    assert!(confirms_removal("y"));
    assert!(confirms_removal("yes"));
    assert!(confirms_removal("Y\n"));
    assert!(confirms_removal("  YES  \r\n"));
    assert!(!confirms_removal("n"));
    assert!(!confirms_removal("no"));
    assert!(!confirms_removal(""));
    assert!(!confirms_removal("yess"));
    assert!(!confirms_removal("y e s"));
}

#[test]
fn find_selection_splits_id_and_title() {
    let (id, title) = parse_find_selection("20250604T170100 Fleeting | My Note | #a #b");
    assert_eq!(id, "20250604T170100");
    assert_eq!(title, "My Note");

    let (id2, title2) = parse_find_selection("  20250604T170101 Index | Trailing only");
    assert_eq!(id2, "20250604T170101");
    assert_eq!(title2, "Trailing only");

    let (id3, title3) = parse_find_selection("bare-line-without-separator");
    assert_eq!(id3, "bare-line-without-separator");
    assert_eq!(title3, "");
}
