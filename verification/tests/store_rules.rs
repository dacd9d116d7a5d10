use zettarium::{dedup_and_warn, NoteType, Store, Timestamp, ZettariumError};

fn at(second: u8) -> Timestamp {
    Timestamp { year: 2025, month: 6, day: 4, hour: 17, minute: 1, second }
}

fn strings(v: &[&str]) -> Vec<String> {
    v.iter().map(|s| s.to_string()).collect()
}

#[test]
fn test_zettel_creation_and_display() {
    let mut store = Store::new();
    let title = "this is a test";
    let type_ = "fleeting";
    let tags: Option<Vec<String>> = None;

    let mut tags_str: Vec<String> = vec![];
    if let Some(tags) = tags {
        tags_str = tags.into_iter().map(String::from).collect();
    }
    let cleaned_tags = dedup_and_warn(tags_str);

    let zettel = store.create_zettel(title, type_, &cleaned_tags, at(0)).unwrap();

    let output = format!("{:?}", zettel);
    assert!(output.contains("this is a test"));
    assert!(output.contains("Fleeting"));
}

#[test]
fn create_then_exists_finds_fresh_record() {
    let mut store = Store::new();
    let z = store.create_zettel("note", "permanent", &strings(&["x"]), at(3)).unwrap();
    let found = store.ensure_zettel_exists(&z.id).unwrap();
    assert_eq!(found.id, z.id);
    assert!(!found.archived);
    assert_eq!(found.created_at, found.updated_at);
}

#[test]
fn create_rejects_unknown_type() {
    let mut store = Store::new();
    let r = store.create_zettel("note", "diary", &Vec::new(), at(0));
    match r {
        Err(ZettariumError::InvalidNoteType(s)) => assert_eq!(s, "diary"),
        _ => panic!("expected InvalidNoteType"),
    }
}

#[test]
fn create_rejects_colliding_id() {
    let mut store = Store::new();
    store.create_zettel("first", "fleeting", &Vec::new(), at(0)).unwrap();
    let r = store.create_zettel("second", "fleeting", &Vec::new(), at(0));
    assert!(matches!(r, Err(ZettariumError::StoreFailure)));
}

#[test]
fn archive_marks_and_detects_repeat() {
    let mut store = Store::new();
    let z = store.create_zettel("note", "fleeting", &Vec::new(), at(0)).unwrap();
    let archived = store.archive_zettel(&z.id).unwrap();
    assert!(archived.archived);
    let second = store.archive_zettel(&z.id);
    assert!(matches!(second, Err(ZettariumError::AlreadyArchived)));
}

#[test]
fn archive_of_missing_note_is_not_found() {
    let mut store = Store::new();
    let r = store.archive_zettel(&"nope".to_string());
    assert!(matches!(r, Err(ZettariumError::NotFound)));
}

#[test]
fn remove_of_missing_note_counts_zero() {
    let mut store = Store::new();
    let count = store.remove_zettel(&"20990101T000000".to_string());
    assert_eq!(count, 0);
}

#[test]
fn remove_deletes_record_and_relations() {
    let mut store = Store::new();
    let z = store.create_zettel("note", "fleeting", &strings(&["a", "b"]), at(0)).unwrap();
    assert_eq!(store.get_tag_by_zettel_id(&z.id).len(), 2);
    let count = store.remove_zettel(&z.id);
    assert_eq!(count, 1);
    assert!(store.ensure_zettel_exists(&z.id).is_err());
    assert!(store.get_tag_by_zettel_id(&z.id).is_empty());
    assert_eq!(store.remove_zettel(&z.id), 0);
}

#[test]
fn tags_are_reused_case_insensitively_across_notes() {
    let mut store = Store::new();
    let a = store.create_zettel("one", "fleeting", &strings(&["Rust"]), at(0)).unwrap();
    let b = store.create_zettel("two", "fleeting", &strings(&["rust"]), at(1)).unwrap();
    let ta = store.get_tag_by_zettel_id(&a.id);
    let tb = store.get_tag_by_zettel_id(&b.id);
    assert_eq!(ta.len(), 1);
    assert_eq!(tb.len(), 1);
    assert_eq!(ta[0].id, tb[0].id);
    assert_eq!(ta[0].tag_name, "Rust");
    assert_eq!(tb[0].tag_name, "Rust");
}

#[test]
fn tag_ids_count_up_from_one() {
    let mut store = Store::new();
    let t1 = store.create_tag(&"alpha".to_string()).unwrap();
    let t2 = store.create_tag(&"beta".to_string()).unwrap();
    assert_eq!(t1.id, "t-001");
    assert_eq!(t2.id, "t-002");
    let dup = store.create_tag(&"ALPHA".to_string());
    assert!(matches!(dup, Err(ZettariumError::StoreFailure)));
}

#[test]
fn get_tag_name_matches_case_insensitively() {
    let mut store = Store::new();
    store.create_tag(&"Rust".to_string()).unwrap();
    let t = store.get_tag_name(&"rUsT".to_string()).unwrap();
    assert_eq!(t.tag_name, "Rust");
    assert!(store.get_tag_name(&"tool".to_string()).is_none());
}

#[test]
fn update_replaces_fields_and_merges_tags() {
    let mut store = Store::new();
    let z = store.create_zettel("old title", "fleeting", &strings(&["a"]), at(0)).unwrap();
    let updated = store
        .update_zettel(&z.id, "new title", "structure", &strings(&["b"]), at(5))
        .unwrap();
    assert_eq!(updated.title, "new title");
    assert_eq!(updated.type_, NoteType::Structure);
    assert_eq!(updated.created_at, at(0));
    assert_eq!(updated.updated_at, at(5));
    let names: Vec<String> =
        store.get_tag_by_zettel_id(&z.id).into_iter().map(|t| t.tag_name).collect();
    assert_eq!(names, strings(&["a", "b"]));
}

#[test]
fn update_of_missing_note_is_not_found() {
    let mut store = Store::new();
    let r = store.update_zettel(&"nope".to_string(), "t", "fleeting", &Vec::new(), at(0));
    assert!(matches!(r, Err(ZettariumError::NotFound)));
}

#[test]
fn touch_bumps_only_the_update_timestamp() {
    let mut store = Store::new();
    let z = store.create_zettel("note", "fleeting", &Vec::new(), at(0)).unwrap();
    let touched = store.update_zettel_timestamp_only(&z.id, at(9)).unwrap();
    assert_eq!(touched.created_at, at(0));
    assert_eq!(touched.updated_at, at(9));
    assert_eq!(touched.title, "note");
}

#[test]
fn list_by_tag_returns_each_joined_note_once() {
    let mut store = Store::new();
    let tagged = store.create_zettel("tagged", "fleeting", &strings(&["x", "y"]), at(0)).unwrap();
    let _plain = store.create_zettel("plain", "fleeting", &Vec::new(), at(1)).unwrap();
    let gone = store.create_zettel("archived one", "fleeting", &strings(&["x"]), at(2)).unwrap();
    store.archive_zettel(&gone.id).unwrap();

    let listed = store.list_zettels(None, None, &strings(&["x"]), false, false);
    assert_eq!(listed.len(), 1);
    assert_eq!(listed[0].id, tagged.id);

    let both = store.list_zettels(None, None, &strings(&["x", "y"]), false, false);
    assert_eq!(both.len(), 1, "a note joined to several matching tags appears once");
}

#[test]
fn list_filters_compose_conjunctively() {
    let mut store = Store::new();
    let a = store.create_zettel("a", "fleeting", &Vec::new(), at(0)).unwrap();
    let b = store.create_zettel("b", "permanent", &Vec::new(), at(1)).unwrap();
    store.archive_zettel(&b.id).unwrap();

    let active = store.list_zettels(None, None, &Vec::new(), false, false);
    assert_eq!(active.len(), 1);
    assert_eq!(active[0].id, a.id);

    let archived = store.list_zettels(None, None, &Vec::new(), false, true);
    assert_eq!(archived.len(), 1);
    assert_eq!(archived[0].id, b.id);

    let by_type = store.list_zettels(None, Some(&"fleeting".to_string()), &Vec::new(), false, false);
    assert_eq!(by_type.len(), 1);
    let wrong_type =
        store.list_zettels(None, Some(&"permanent".to_string()), &Vec::new(), false, false);
    assert!(wrong_type.is_empty());

    let by_id = store.list_zettels(Some(&a.id), None, &Vec::new(), false, false);
    assert_eq!(by_id.len(), 1);

    let all = store.list_zettels(None, None, &Vec::new(), true, true);
    assert_eq!(all.len(), 2, "all short-circuits every filter");
}

#[test]
fn find_by_title_is_substring_and_ascii_case_blind() {
    let mut store = Store::new();
    store.create_zettel("Writing Rust Tools", "fleeting", &Vec::new(), at(0)).unwrap();
    store.create_zettel("Gardening", "fleeting", &Vec::new(), at(1)).unwrap();
    let hits = store.find_zettel_by_title("rust");
    assert_eq!(hits.len(), 1);
    assert_eq!(hits[0].title, "Writing Rust Tools");
    assert!(store.find_zettel_by_title("cooking").is_empty());
}

#[test]
fn exists_zettel_tag_tracks_relations() {
    let mut store = Store::new();
    let z = store.create_zettel("note", "fleeting", &strings(&["a"]), at(0)).unwrap();
    let t = store.get_tag_name(&"a".to_string()).unwrap();
    assert!(store.exists_zettel_tag(&z.id, &t.id));
    assert!(!store.exists_zettel_tag(&z.id, &"t-999".to_string()));
    let again = store.create_zettel_tag(&z.id, &t.id);
    assert!(matches!(again, Err(ZettariumError::StoreFailure)));
}

#[test]
fn end_to_end_create_tag_set_listing_and_archive() {
    let mut store = Store::new();
    let cleaned = dedup_and_warn(strings(&["a", "A", "b"]));
    let z = store.create_zettel("Test", "fleeting", &cleaned, at(0)).unwrap();

    let mut names: Vec<String> =
        store.get_tag_by_zettel_id(&z.id).into_iter().map(|t| t.tag_name).collect();
    names.sort();
    assert_eq!(names, strings(&["a", "b"]));

    let content = zettarium::render_markdown(&z, &cleaned, "body");
    assert!(content.contains("- a\n"));
    assert!(content.contains("- b\n"));

    let active = store.list_zettels(None, None, &Vec::new(), false, false);
    assert!(active.iter().any(|n| n.id == z.id));

    store.archive_zettel(&z.id).unwrap();
    let archived = store.list_zettels(None, None, &Vec::new(), false, true);
    assert!(archived.iter().any(|n| n.id == z.id));
    let active_after = store.list_zettels(None, None, &Vec::new(), false, false);
    assert!(!active_after.iter().any(|n| n.id == z.id));
}

#[test]
fn validate_accepts_grown_store_and_rejects_duplicates() {
    let mut store = Store::new();
    assert!(store.validate());
    store.create_zettel("note", "fleeting", &strings(&["a"]), at(0)).unwrap();
    assert!(store.validate());

    let broken = Store {
        zettels: vec![
            zettarium::Zettel {
                id: "x".to_string(),
                title: "one".to_string(),
                type_: NoteType::Fleeting,
                created_at: at(0),
                updated_at: at(0),
                archived: false,
            },
            zettarium::Zettel {
                id: "x".to_string(),
                title: "two".to_string(),
                type_: NoteType::Fleeting,
                created_at: at(0),
                updated_at: at(0),
                archived: false,
            },
        ],
        tags: Vec::new(),
        zettel_tags: Vec::new(),
    };
    assert!(!broken.validate());
}

#[test]
fn touch_never_moves_update_before_creation() {
    let mut store = Store::new();
    let z = store.create_zettel("note", "fleeting", &Vec::new(), at(9)).unwrap();
    let touched = store.update_zettel_timestamp_only(&z.id, at(2)).unwrap();
    assert_eq!(touched.created_at, at(9));
    assert_eq!(touched.updated_at, at(9), "an earlier clock reading is lifted to the creation instant");
}

#[test]
fn validate_rejects_bad_timestamps_and_dangling_links() {
    let inverted = Store {
        zettels: vec![zettarium::Zettel {
            id: "x".to_string(),
            title: "one".to_string(),
            type_: NoteType::Fleeting,
            created_at: at(9),
            updated_at: at(0),
            archived: false,
        }],
        tags: Vec::new(),
        zettel_tags: Vec::new(),
    };
    assert!(!inverted.validate(), "updated before created breaks the record invariant");

    let dangling = Store {
        zettels: Vec::new(),
        tags: Vec::new(),
        zettel_tags: vec![zettarium::ZettelTag {
            zettel_id: "missing".to_string(),
            tag_id: "t-001".to_string(),
        }],
    };
    assert!(!dangling.validate(), "a join row must refer to an existing note and tag");

    let clashing_keys = Store {
        zettels: Vec::new(),
        tags: vec![
            zettarium::Tag { id: "t-001".to_string(), tag_name: "Rust".to_string() },
            zettarium::Tag { id: "t-002".to_string(), tag_name: "rust".to_string() },
        ],
        zettel_tags: Vec::new(),
    };
    assert!(!clashing_keys.validate(), "tag names must be unique case-insensitively");
}
