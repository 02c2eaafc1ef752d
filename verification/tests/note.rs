use std::time::{Duration, UNIX_EPOCH};

use nt::error::NtError;
use nt::note::body::normalize_body;
use nt::note::store::ensure_unique;
use nt::note::{
    add_days, iso_from_id, note_path, sources_from_body, timestamp_from_system_time, title_from_body, validate_date,
    validate_id, ChangeOperation, CollectionPath, NewNote, Note, NoteId, Tag, Timestamp,
};

fn id(value: &str) -> NoteId {
    value.parse().unwrap()
}

fn timestamp(value: &str) -> Timestamp {
    value.parse().unwrap()
}

#[test]
fn validates_note_id_shape() {
    validate_id("NT20260528T143012").unwrap();
    assert!(validate_id("20260528T143012").is_err());
    assert!(validate_id("NT20260528-143012").is_err());
    assert!(validate_id("nt20260528T143012").is_err());
    assert!(validate_id("NT20260528T14301").is_err());
    assert!(validate_id("NT20260528T1430123").is_err());
    assert!(validate_id("NT2026AB28T143012").is_err());
    assert!(validate_id("NT20260528T14AB12").is_err());
    assert!(validate_id("NT20260528 143012").is_err());
}

#[test]
fn note_validates_calendar_dates_and_adds_days() {
    validate_date("2024-02-29").unwrap();
    assert!(validate_date("2026-02-29").is_err());
    assert_eq!(add_days("2026-12-29", 6).unwrap(), "2027-01-04");
}

#[test]
fn note_formats_unix_epoch_timestamp() {
    let timestamp = timestamp_from_system_time(UNIX_EPOCH + Duration::from_secs(0));
    assert_eq!(timestamp.id, "NT19700101T000000");
    assert_eq!(timestamp.iso, "1970-01-01T00:00:00Z");
    assert_eq!(timestamp.day, "1970-01-01");
}

#[test]
fn date_validates_calendar_dates_and_adds_days() {
    validate_date("2024-02-29").unwrap();
    assert!(validate_date("2026-02-29").is_err());
    assert_eq!(add_days("2026-12-29", 6).unwrap(), "2027-01-04");
}

#[test]
fn date_formats_unix_epoch_timestamp() {
    let timestamp = timestamp_from_system_time(UNIX_EPOCH + Duration::from_secs(0));
    assert_eq!(timestamp.id, "NT19700101T000000");
    assert_eq!(timestamp.iso, "1970-01-01T00:00:00Z");
    assert_eq!(timestamp.day, "1970-01-01");
}

#[test]
fn adding_days_crosses_months_backwards_and_zero_is_identity() {
    assert_eq!(add_days("2024-03-01", -1).unwrap(), "2024-02-29");
    assert_eq!(add_days("2026-05-28", 0).unwrap(), "2026-05-28");
    assert!(add_days("2026-13-01", 1).is_err());
}

#[test]
fn later_timestamps_and_ids_have_matching_iso_forms() {
    let timestamp = timestamp_from_system_time(UNIX_EPOCH + Duration::from_secs(1_780_000_000));
    assert_eq!(timestamp.iso, "2026-05-28T20:26:40Z");
    assert_eq!(timestamp.id, "NT20260528T202640");
    assert_eq!(iso_from_id(&timestamp.id).unwrap(), timestamp.iso);
    assert_eq!(timestamp.iso.parse::<Timestamp>().unwrap(), timestamp);
}

#[test]
fn extracts_title_from_markdown_heading() {
    assert_eq!(title_from_body("\n# Hello\nbody").unwrap(), "Hello");
}

#[test]
fn requires_h1_title_as_first_non_empty_line() {
    assert!(title_from_body("body\n# Later").is_err());
    assert!(title_from_body("## Section\nbody").is_err());
    assert!(title_from_body("#\nbody").is_err());
    assert!(title_from_body("#   \nbody").is_err());
}

#[test]
fn extracts_http_sources_from_markdown_body() {
    let body = "# Links\n\n[Spec](https://example.com/spec), <http://example.com/a>.\n";

    assert_eq!(
        sources_from_body(body),
        vec!["http://example.com/a".to_string(), "https://example.com/spec".to_string()]
    );
}

#[test]
fn normalizes_line_endings_and_derives_title() {
    let (body, title) = normalize_body("#  Storage  \r\n\rDetails\r\n").unwrap();
    assert_eq!(body, "#  Storage  \n\nDetails\n");
    assert_eq!(title, "Storage");
}

#[test]
fn preserves_content_other_than_line_endings() {
    let (body, _) = normalize_body("# Title\n\nbody  ").unwrap();
    assert_eq!(body, "# Title\n\nbody  ");
}

#[test]
fn requires_a_leading_nonempty_atx_h1() {
    assert!(matches!(normalize_body(""), Err(NtError::EmptyBody)));
    for body in ["\n# Later", "body\n# Later", " ## Title", "#", "#   "] {
        assert!(matches!(normalize_body(body), Err(NtError::InvalidTitle)));
    }
}

#[test]
fn accepts_normalized_collection_paths() {
    for value in ["inbox", "work/nt", "research/sqlite/index_2"] {
        let collection: CollectionPath = value.parse().unwrap();
        assert_eq!(collection.as_str(), value);
    }
    assert_eq!(CollectionPath::inbox().as_str(), "inbox");
}

#[test]
fn rejects_invalid_collection_paths() {
    for value in ["", "/inbox", "inbox/", "work//nt", "Work/nt", "work/a.b"] {
        assert!(value.parse::<CollectionPath>().is_err(), "accepted {value:?}");
    }
}

#[test]
fn tags_are_normalized_domain_values() {
    assert_eq!("rust_2026".parse::<Tag>().unwrap().as_str(), "rust_2026");
    for value in ["", "Rust", "rust/sqlite", "rust.sqlite"] {
        assert!(value.parse::<Tag>().is_err(), "accepted {value:?}");
    }
}

#[test]
fn new_notes_normalize_body_and_deduplicate_sets() {
    let target = id("018fbe0a-6c00-7000-8000-000000000002");
    let note = NewNote::new(CollectionPath::inbox(), "# Title\r\nBody")
        .unwrap()
        .with_tags(vec!["rust".parse().unwrap(), "rust".parse().unwrap()])
        .with_links(vec![target, target]);
    assert_eq!(note.body(), "# Title\nBody");
    assert_eq!(note.title(), "Title");
    assert_eq!(note.collection().as_str(), "inbox");
    assert_eq!(note.tags().len(), 1);
    assert_eq!(note.links().len(), 1);
}

#[test]
fn new_note_sets_are_kept_sorted() {
    let first = id("018fbe0a-6c00-7000-8000-000000000001");
    let second = id("018fbe0a-6c00-7000-8000-000000000002");
    let note = NewNote::new(CollectionPath::inbox(), "# Title")
        .unwrap()
        .with_tags(vec!["zeta".parse().unwrap(), "alpha".parse().unwrap()])
        .with_links(vec![second, first]);
    assert_eq!(note.tags()[0].as_str(), "alpha");
    assert_eq!(note.tags()[1].as_str(), "zeta");
    assert_eq!(note.links(), [first, second]);
}

#[test]
fn notes_reject_invalid_rehydration_and_self_links() {
    let note_id = id("018fbe0a-6c00-7000-8000-000000000001");
    let links = vec![note_id];
    let result = Note::rehydrate(
        note_id,
        CollectionPath::inbox(),
        "# Title".to_string(),
        "Title".to_string(),
        timestamp("2026-05-28T14:30:12Z"),
        timestamp("2026-05-28T14:30:12Z"),
        1,
        Vec::new(),
        links,
    );
    assert!(matches!(result, Err(NtError::SelfLink)));

    let new_note = NewNote::new(CollectionPath::inbox(), "# Title").unwrap().with_links(vec![note_id]);
    assert!(matches!(new_note.validate_links_for(&note_id), Err(NtError::SelfLink)));
}

#[test]
fn rehydration_rejects_unnormalized_bodies_and_zero_versions() {
    let note_id = id("018fbe0a-6c00-7000-8000-000000000001");
    let rehydrate = |body: &str, title: &str, version: u64| {
        Note::rehydrate(
            note_id,
            CollectionPath::inbox(),
            body.to_string(),
            title.to_string(),
            timestamp("2026-05-28T14:30:12Z"),
            timestamp("2026-05-28T14:30:12Z"),
            version,
            Vec::new(),
            Vec::new(),
        )
    };
    assert!(matches!(rehydrate("# Title", "Title", 0), Err(NtError::InvalidBodyVersion(0))));
    assert!(rehydrate("# Title\r\n", "Title", 1).is_err());
    assert!(rehydrate("# Title", "Other", 1).is_err());
    assert!(matches!(rehydrate("", "", 1), Err(NtError::EmptyBody)));
}

#[test]
fn body_replacement_updates_only_for_a_real_change() {
    let mut note = Note::rehydrate(
        id("018fbe0a-6c00-7000-8000-000000000001"),
        CollectionPath::inbox(),
        "# Title".to_string(),
        "Title".to_string(),
        timestamp("2026-05-28T14:30:12Z"),
        timestamp("2026-05-28T14:30:12Z"),
        1,
        Vec::new(),
        Vec::new(),
    )
    .unwrap();
    assert!(!note.replace_body("# Title", timestamp("2026-05-28T15:00:00Z")).unwrap());
    assert_eq!(note.body_version(), 1);
    assert!(note.replace_body("# Changed\n", timestamp("2026-05-28T15:00:00Z")).unwrap());
    assert_eq!(note.body(), "# Changed\n");
    assert_eq!(note.title(), "Changed");
    assert_eq!(note.body_version(), 2);
    assert_eq!(note.updated().as_str(), "2026-05-28T15:00:00Z");
}

#[test]
fn generates_canonical_uuid_v7_ids() {
    let id = NoteId::generate();
    let text = id.to_string();
    assert_eq!(text.len(), 36);
    assert_eq!(text.as_bytes()[14], b'7');
    assert_eq!(text.parse::<NoteId>().unwrap(), id);
    assert_eq!(id.as_uuid().get_version_num(), 7);
}

#[test]
fn rejects_noncanonical_and_non_v7_ids() {
    assert!("NT20260528T143012".parse::<NoteId>().is_err());
    assert!("550e8400-e29b-41d4-a716-446655440000".parse::<NoteId>().is_err());
    assert!("018FBE0A-6C00-7000-8000-000000000001".parse::<NoteId>().is_err());
}

#[test]
fn note_ids_print_as_lowercase_hyphenated_text() {
    let text = "018fbe0a-6c00-7000-8000-000000000001";
    assert_eq!(id(text).to_string(), text);
    assert_eq!(id(text).as_u128(), 0x018fbe0a_6c00_7000_8000_000000000001);
}

#[test]
fn change_operations_round_trip_through_their_names() {
    for operation in [ChangeOperation::Add, ChangeOperation::Edit, ChangeOperation::Metadata, ChangeOperation::Remove] {
        assert_eq!(ChangeOperation::decode(operation.as_str()).unwrap(), operation);
    }
    assert!(ChangeOperation::decode("rename").is_err());
}

#[test]
fn batches_refuse_repeated_ids() {
    let first = id("018fbe0a-6c00-7000-8000-000000000001");
    let second = id("018fbe0a-6c00-7000-8000-000000000002");
    assert!(ensure_unique(&[]).is_ok());
    assert!(ensure_unique(&[first, second]).is_ok());
    assert_eq!(
        ensure_unique(&[first, second, first]),
        Err(NtError::DuplicateNoteId("018fbe0a-6c00-7000-8000-000000000001".to_string()))
    );
}

#[test]
fn normalizing_a_normalized_body_changes_nothing() {
    let (body, title) = normalize_body("# T\r\n\r\nx\ry\r\n").unwrap();
    assert_eq!(body, "# T\n\nx\ny\n");
    assert_eq!(normalize_body(&body).unwrap(), (body.clone(), title));
}

#[test]
fn adding_days_in_two_steps_is_adding_their_sum() {
    let once = add_days("2026-02-20", 15).unwrap();
    let twice = add_days(&add_days("2026-02-20", 10).unwrap(), 5).unwrap();
    assert_eq!(once, "2026-03-07");
    assert_eq!(twice, once);
}

#[test]
fn note_files_are_named_by_id_with_markdown_extension() {
    let dir = std::path::Path::new("/tmp/notes");
    assert_eq!(
        note_path(dir, "NT20260102T030405").unwrap(),
        std::path::PathBuf::from("/tmp/notes/NT20260102T030405.md")
    );
    assert!(matches!(note_path(dir, "oops"), Err(NtError::InvalidNoteId(id)) if id == "oops"));
}

#[test]
fn times_before_the_epoch_read_as_the_epoch() {
    let before = UNIX_EPOCH - Duration::from_secs(90);
    let t = timestamp_from_system_time(before);
    assert_eq!(t.id, "NT19700101T000000");
    assert_eq!(t.iso, "1970-01-01T00:00:00Z");
    let later = timestamp_from_system_time(UNIX_EPOCH + Duration::from_secs(86_400 + 3_661));
    assert_eq!(later.iso, "1970-01-02T01:01:01Z");
    assert_eq!(later.day, "1970-01-02");
}

#[test]
fn adding_a_large_count_of_days_reaches_far_years() {
    assert_eq!(add_days("1970-01-01", 2_932_896).unwrap(), "9999-12-31");
    assert_eq!(add_days("9999-12-31", -2_932_896).unwrap(), "1970-01-01");
    assert_eq!(add_days("2000-01-01", 5_000_000_000).unwrap(), "13691535-01-14");
}

#[test]
fn ids_carry_the_milliseconds_of_their_time() {
    let id = NoteId::generate_at(UNIX_EPOCH + Duration::from_millis(1_645_557_742_000));
    assert!(id.to_string().starts_with("017f22e2-79b0-7"));
    let early = NoteId::generate_at(UNIX_EPOCH - Duration::from_secs(5));
    assert!(early.to_string().starts_with("00000000-0000-7"));
}
