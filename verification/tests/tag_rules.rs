use zettarium::{dedup_and_warn, dedup_with_discards, merge_tags};

fn strings(v: &[&str]) -> Vec<String> {
    v.iter().map(|s| s.to_string()).collect()
}

#[test]
fn test_dedup_and_warn_basic() {
    let tags = vec![
        "Rust".to_string(),
        "rust".to_string(),
        "cli".to_string(),
        "CLI".to_string(),
        "tool".to_string(),
    ];
    let deduped = dedup_and_warn(tags);
    assert_eq!(deduped.len(), 3);
    assert!(deduped.contains(&"Rust".to_string()));
    assert!(deduped.contains(&"cli".to_string()));
    assert!(deduped.contains(&"tool".to_string()));
}

#[test]
fn normalize_keeps_first_casing_and_order() {
    let deduped = dedup_and_warn(strings(&["Rust", "rust", "cli", "CLI", "tool"]));
    assert_eq!(deduped, strings(&["Rust", "cli", "tool"]));
}

#[test]
fn normalize_reports_discarded_duplicates() {
    let (kept, dropped) = dedup_with_discards(strings(&["Rust", "rust", "cli", "CLI", "tool"]));
    assert_eq!(kept, strings(&["Rust", "cli", "tool"]));
    assert_eq!(dropped, strings(&["rust", "CLI"]));
}

#[test]
fn normalize_of_empty_is_empty() {
    let deduped = dedup_and_warn(Vec::new());
    assert!(deduped.is_empty());
}

#[test]
fn normalize_folds_non_ascii_case() {
    let deduped = dedup_and_warn(strings(&["Straße", "STRASSE", "straße"]));
    assert_eq!(deduped, strings(&["Straße", "STRASSE"]));
}

#[test]
fn merge_without_new_tags_keeps_list() {
    let merged = merge_tags(strings(&["a", "b"]), None);
    assert_eq!(merged, strings(&["a", "b"]));
}

#[test]
fn merge_appends_only_new_keys() {
    let merged = merge_tags(strings(&["Rust", "cli"]), Some(strings(&["RUST", "tool", "Tool"])));
    assert_eq!(merged, strings(&["Rust", "cli", "tool"]));
}
