use zettarium::{
    backlink_syntax, generate_zettel_id, is_backlink, markdown_file_name, now_timestamp,
    parse_markdown_content, render_markdown, update_markdown_content, NoteType, Timestamp, Zettel,
    ZettariumError,
};

fn sample_zettel() -> Zettel {
    Zettel {
        id: "20250604T170100".to_string(),
        title: "Test".to_string(),
        type_: NoteType::Fleeting,
        created_at: Timestamp { year: 2025, month: 6, day: 4, hour: 17, minute: 1, second: 0 },
        updated_at: Timestamp { year: 2025, month: 6, day: 4, hour: 17, minute: 1, second: 0 },
        archived: false,
    }
}

const SAMPLE_META: &str = "id: 20250604T170100\ntitle: Test\ntype_: Fleeting\n\
    created_at: 2025-06-04T17:01:00\nupdated_at: 2025-06-04T17:01:00\narchived: false\n\
    tags:\n- a\n- b\n";

#[test]
fn render_produces_delimited_metadata_and_body() {
    let z = sample_zettel();
    let tags = vec!["a".to_string(), "b".to_string()];
    let content = render_markdown(&z, &tags, "hello\nworld");
    assert_eq!(content, format!("---\n{}---\n\nhello\nworld", SAMPLE_META));
}

#[test]
fn parse_recovers_metadata_and_body() {
    let z = sample_zettel();
    let tags = vec!["a".to_string(), "b".to_string()];
    let content = render_markdown(&z, &tags, "hello\nworld");
    let (meta, body) = parse_markdown_content(&content).unwrap();
    assert_eq!(meta, SAMPLE_META);
    assert_eq!(body, "hello\nworld");
}

#[test]
fn round_trip_with_empty_body_and_no_tags() {
    let z = sample_zettel();
    let tags: Vec<String> = Vec::new();
    let content = render_markdown(&z, &tags, "");
    let (meta, body) = parse_markdown_content(&content).unwrap();
    assert!(meta.ends_with("tags: []\n"));
    assert_eq!(body, "");
}

#[test]
fn round_trip_preserves_body_leading_newline() {
    let z = sample_zettel();
    let tags: Vec<String> = Vec::new();
    let content = render_markdown(&z, &tags, "\nkeeps its leading blank line");
    let (_meta, body) = parse_markdown_content(&content).unwrap();
    assert_eq!(body, "\nkeeps its leading blank line");
}

#[test]
fn parse_without_two_delimiters_is_malformed() {
    assert!(matches!(
        parse_markdown_content("no front matter here"),
        Err(ZettariumError::MalformedFile)
    ));
    assert!(matches!(
        parse_markdown_content("---\nonly one delimiter"),
        Err(ZettariumError::MalformedFile)
    ));
}

#[test]
fn update_keeps_body_behind_new_metadata() {
    let z = sample_zettel();
    let tags = vec!["a".to_string(), "b".to_string()];
    let content = render_markdown(&z, &tags, "the body survives");
    let mut edited = z.clone();
    edited.title = "Renamed".to_string();
    let new_content = update_markdown_content(&edited, &tags, &content).unwrap();
    let (meta, body) = parse_markdown_content(&new_content).unwrap();
    assert!(meta.contains("title: Renamed\n"));
    assert_eq!(body, "the body survives");
}

#[test]
fn timestamp_formats_are_zero_padded() {
    let t = Timestamp { year: 987, month: 1, day: 9, hour: 3, minute: 7, second: 5 };
    assert_eq!(t.format_display(), "0987-01-09 03:07:05");
    assert_eq!(t.format_iso(), "0987-01-09T03:07:05");
    assert_eq!(generate_zettel_id(&t), "09870109T030705");
}

#[test]
fn later_instants_give_larger_ids() {
    let a = Timestamp { year: 2025, month: 6, day: 4, hour: 17, minute: 1, second: 0 };
    let b = Timestamp { year: 2025, month: 6, day: 4, hour: 17, minute: 1, second: 1 };
    let c = Timestamp { year: 2026, month: 1, day: 1, hour: 0, minute: 0, second: 0 };
    assert!(generate_zettel_id(&a) < generate_zettel_id(&b));
    assert!(generate_zettel_id(&b) < generate_zettel_id(&c));
}

#[test]
fn clock_reports_a_valid_instant() {
    let t = now_timestamp();
    assert!((1..=12).contains(&t.month));
    assert!((1..=31).contains(&t.day));
    assert!(t.hour < 24 && t.minute < 60 && t.second < 60);
    assert!(t.year <= 9999);
}

#[test]
fn file_name_is_id_with_markdown_suffix() {
    assert_eq!(markdown_file_name("20250604T170100"), "20250604T170100.md");
}

#[test]
fn backlink_syntax_and_detection() {
    let link = backlink_syntax("Test", "20250604T170100");
    assert_eq!(link, "[Test](./20250604T170100.md)");
    assert!(is_backlink("see also [Test](./20250604T170100.md) for more", "20250604T170100"));
    assert!(!is_backlink("no links here", "20250604T170100"));
}

#[test]
fn markdown_value_renders_like_its_parts() {
    let z = sample_zettel();
    let tags = vec!["a".to_string(), "b".to_string()];
    let md = zettarium::Markdown {
        front_matter: zettarium::FrontMatter { zettel: z.clone(), tags: tags.clone() },
        body: zettarium::Body("text".to_string()),
    };
    assert_eq!(md.to_text(), render_markdown(&z, &tags, "text"));
    assert_eq!(md.get_body().text(), "text");
    assert_eq!(md.get_front_matter().get_tags().len(), 2);
    assert_eq!(md.get_front_matter().get_zettel().id, z.id);
}
