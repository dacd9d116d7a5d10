use zettarium::{NoteType, Tag, ZettariumError, Zettel, ZettelTag};

fn ts(
    year: u16,
    month: u8,
    day: u8,
    hour: u8,
    minute: u8,
    second: u8,
) -> zettarium::Timestamp {
    zettarium::Timestamp { year, month, day, hour, minute, second }
}

#[test]
fn test_tag_creation_and_display() {
    let tags = vec!["rust", "test"];
    for (i, t) in tags.iter().enumerate() {
        let tag = Tag {
            id: format!("t-{:03}", i + 1),
            tag_name: t.to_string(),
        };
        let output = tag.to_text();
        assert!(output.contains(t));
    }
}

#[test]
fn test_zettel_tag_creation_and_display() {
    let zettel_tag = ZettelTag {
        zettel_id: "20250604170100".into(),
        tag_id: "t-001".into(),
    };

    let output = zettel_tag.to_text();
    assert!(output.contains("20250604170100"));
    assert!(output.contains("t-001"));
}

#[test]
fn test_invalid_note_type_parse() {
    let result = NoteType::parse("invalid_type");
    assert!(result.is_err());

    if let Err(e) = result {
        let msg = e.message();
        assert!(msg.contains("Invalid note type"));
    }
}

#[test]
fn note_type_parse_accepts_names_and_letters() {
    assert!(matches!(NoteType::parse("fleeting"), Ok(NoteType::Fleeting)));
    assert!(matches!(NoteType::parse("f"), Ok(NoteType::Fleeting)));
    assert!(matches!(NoteType::parse("FLEETING"), Ok(NoteType::Fleeting)));
    assert!(matches!(NoteType::parse("Permanent"), Ok(NoteType::Permanent)));
    assert!(matches!(NoteType::parse("P"), Ok(NoteType::Permanent)));
    assert!(matches!(NoteType::parse("literature"), Ok(NoteType::Literature)));
    assert!(matches!(NoteType::parse("l"), Ok(NoteType::Literature)));
    assert!(matches!(NoteType::parse("Structure"), Ok(NoteType::Structure)));
    assert!(matches!(NoteType::parse("s"), Ok(NoteType::Structure)));
    assert!(matches!(NoteType::parse("index"), Ok(NoteType::Index)));
    assert!(matches!(NoteType::parse("I"), Ok(NoteType::Index)));
    assert!(matches!(
        NoteType::parse("note"),
        Err(ZettariumError::InvalidNoteType(_))
    ));
    assert!(matches!(NoteType::parse(""), Err(ZettariumError::InvalidNoteType(_))));
}

#[test]
fn note_type_names() {
    assert_eq!(NoteType::Fleeting.name(), "Fleeting");
    assert_eq!(NoteType::Fleeting.stored_name(), "fleeting");
    assert_eq!(NoteType::Index.name(), "Index");
    assert_eq!(NoteType::Index.stored_name(), "index");
}

#[test]
fn error_messages_name_each_failure() {
    assert_eq!(
        ZettariumError::InvalidNoteType("x".to_string()).message(),
        "Invalid note type: x"
    );
    assert_eq!(ZettariumError::NotFound.message(), "Note not found");
    assert_eq!(ZettariumError::AlreadyArchived.message(), "Note is already archived");
    assert_eq!(ZettariumError::MalformedFile.message(), "Malformed note file");
    assert_eq!(ZettariumError::IoFailure.message(), "I/O failure");
    assert_eq!(ZettariumError::StoreFailure.message(), "Record store failure");
}

#[test]
fn zettel_to_text_lists_fields() {
    let z = Zettel {
        id: "20250604T170100".to_string(),
        title: "A note".to_string(),
        type_: NoteType::Permanent,
        created_at: ts(2025, 6, 4, 17, 1, 0),
        updated_at: ts(2025, 6, 4, 18, 30, 5),
        archived: false,
    };
    let text = z.to_text();
    assert_eq!(
        text,
        "ID: 20250604T170100\nTitle: A note\nType: Permanent\n\
         Created: 2025-06-04 17:01:00\nUpdated: 2025-06-04 18:30:05\nArchived: false\n"
    );
}
