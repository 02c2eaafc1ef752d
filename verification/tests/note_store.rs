use nt::error::NtError;
use nt::note::change::{changes_since_bound, ChangeOperation};
use nt::note::rows::{decode_note_row, visit_order, NoteRowText};
use nt::note::store::{
    check_body_version, check_revision, delete_plan, ensure_notes_exist, link_change_plan, move_plan,
    tag_change_plan,
};
use nt::note::{CollectionPath, NewNote, Note, NoteId, Tag, Timestamp};

const A: &str = "018fbe0a-6c00-7000-8000-000000000001";
const B: &str = "018fbe0a-6c00-7000-8000-000000000002";
const C: &str = "018fbe0a-6c00-7000-8000-000000000003";
const X: &str = "018fbe0a-6c00-7000-8000-0000000000ff";

fn id(value: &str) -> NoteId {
    value.parse().unwrap()
}

fn tag(value: &str) -> Tag {
    value.parse().unwrap()
}

fn changes(plan: &[nt::note::change::Change]) -> Vec<(u64, ChangeOperation, String)> {
    plan.iter()
        .map(|c| (c.revision(), c.operation(), c.note_id().to_string()))
        .collect()
}

#[test]
fn deleting_notes_plans_one_revision_with_metadata_then_remove_records() {
    let stored = vec![id(A), id(B), id(C)];
    let links = vec![(id(C), id(A)), (id(B), id(A)), (id(C), id(B)), (id(A), id(C))];
    let plan = delete_plan(&[id(A), id(B)], &stored, &links, 7).unwrap();
    assert_eq!(plan.revision, Some(8));
    assert_eq!(plan.touched, vec![id(C)]);
    assert_eq!(
        changes(&plan.changes),
        vec![
            (8, ChangeOperation::Metadata, C.to_string()),
            (8, ChangeOperation::Remove, A.to_string()),
            (8, ChangeOperation::Remove, B.to_string()),
        ]
    );
    let empty = delete_plan(&[], &stored, &links, 7).unwrap();
    assert_eq!(empty.revision, None);
    assert!(empty.changes.is_empty());
}

#[test]
fn deleting_refuses_repeats_before_unknown_ids() {
    let stored = vec![id(A), id(B)];
    assert_eq!(
        delete_plan(&[id(X), id(A), id(X)], &stored, &[], 1).err().unwrap(),
        NtError::DuplicateNoteId(X.to_string())
    );
    assert_eq!(
        delete_plan(&[id(A), id(X)], &stored, &[], 1).err().unwrap(),
        NtError::NoteNotFound(X.to_string())
    );
    assert_eq!(ensure_notes_exist(&[id(A), id(B)], &stored), Ok(()));
    assert_eq!(
        NtError::NoteNotFound(X.to_string()).to_string(),
        format!("note `{X}` not found")
    );
}

#[test]
fn tag_changes_touch_only_notes_that_change() {
    let stored = vec![(id(A), vec![tag("rust")]), (id(B), Vec::new()), (id(C), vec![tag("rust")])];
    let added = tag_change_plan(&stored, &[id(C), id(B), id(A)], &tag("rust"), true, 3).unwrap();
    assert_eq!(added.changed, vec![id(B)]);
    assert_eq!(added.revision, Some(4));
    assert_eq!(changes(&added.changes), vec![(4, ChangeOperation::Metadata, B.to_string())]);
    let removed = tag_change_plan(&stored, &[id(C), id(A)], &tag("rust"), false, 3).unwrap();
    assert_eq!(removed.changed, vec![id(A), id(C)]);
    assert_eq!(
        changes(&removed.changes),
        vec![(4, ChangeOperation::Metadata, A.to_string()), (4, ChangeOperation::Metadata, C.to_string())]
    );
    let none = tag_change_plan(&stored, &[id(B)], &tag("rust"), false, 3).unwrap();
    assert!(none.changed.is_empty() && none.revision.is_none() && none.changes.is_empty());
    assert_eq!(
        tag_change_plan(&stored, &[id(A), id(A)], &tag("rust"), true, 3).err().unwrap(),
        NtError::DuplicateNoteId(A.to_string())
    );
    assert_eq!(
        tag_change_plan(&stored, &[id(X)], &tag("rust"), true, 3).err().unwrap(),
        NtError::NoteNotFound(X.to_string())
    );
}

fn row(id: &str, tags: &str, links: &str, collection: &str) -> NoteRowText {
    NoteRowText {
        row: 1,
        id: id.to_string(),
        collection: collection.to_string(),
        body: "# Storage\n\nNotes".to_string(),
        title: "Storage".to_string(),
        created: "2026-05-28T14:30:12Z".to_string(),
        updated: "2026-05-29T09:00:00Z".to_string(),
        body_version: 2,
        revision: 5,
        tags: tags.to_string(),
        links: links.to_string(),
    }
}

#[test]
fn stored_rows_decode_to_notes_with_sorted_unique_values() {
    let (note, revision) =
        decode_note_row(row(A, r#"["rust","design","rust"]"#, &format!(r#"["{C}","{B}"]"#), "inbox")).unwrap();
    assert_eq!(revision, 5);
    assert_eq!(note.id().to_string(), A);
    assert_eq!(note.title(), "Storage");
    assert_eq!(note.body_version(), 2);
    assert_eq!(note.updated().as_str(), "2026-05-29T09:00:00Z");
    assert_eq!(note.tags().to_vec(), vec![tag("design"), tag("rust")]);
    assert_eq!(note.links().to_vec(), vec![id(B), id(C)]);
}

#[test]
fn stored_rows_report_the_field_that_does_not_read() {
    let fault = |r: NoteRowText| decode_note_row(r).err().unwrap();
    assert_eq!(
        fault(row("not-an-id", "[]", "[]", "inbox")).to_string(),
        "stored note is invalid (row: 1, field: id)"
    );
    assert_eq!(
        fault(row(A, "[]", "[]", "Bad Path")).to_string(),
        format!("stored note is invalid (id: {A}, row: 1, field: collection)")
    );
    assert!(matches!(
        fault(row(A, "not json", "[]", "inbox")),
        NtError::InvalidStoredNote { stored_field: "tag", detail: Some(_), .. }
    ));
    assert!(matches!(
        fault(row(A, r#"["Bad Tag"]"#, "[]", "inbox")),
        NtError::InvalidStoredNote { stored_field: "tag", detail: None, .. }
    ));
    assert!(matches!(
        fault(row(A, "[]", r#"["nope"]"#, "inbox")),
        NtError::InvalidStoredNote { stored_field: "links", detail: None, .. }
    ));
    let mut negative = row(A, "[]", "[]", "inbox");
    negative.revision = 0;
    assert!(matches!(
        fault(negative),
        NtError::InvalidStoredNote { stored_field: "note_revision", .. }
    ));
    assert!(matches!(fault(row(A, "[]", &format!(r#"["{A}"]"#), "inbox")), NtError::SelfLink));
}

fn note(value: &str, updated: &str) -> Note {
    Note::rehydrate(
        id(value),
        CollectionPath::inbox(),
        "# Title".to_string(),
        "Title".to_string(),
        updated.parse::<Timestamp>().unwrap(),
        updated.parse::<Timestamp>().unwrap(),
        1,
        Vec::new(),
        Vec::new(),
    )
    .unwrap()
}

#[test]
fn listings_visit_latest_updates_first_then_greatest_ids() {
    let notes = vec![
        note(A, "2026-05-28T10:00:00Z"),
        note(B, "2026-05-29T10:00:00Z"),
        note(C, "2026-05-28T10:00:00Z"),
    ];
    assert_eq!(visit_order(&notes, None), vec![1, 2, 0]);
    assert_eq!(visit_order(&notes, Some(2)), vec![1, 2]);
    assert_eq!(visit_order(&notes, Some(10)), vec![1, 2, 0]);
    assert!(visit_order(&notes, Some(0)).is_empty());
}

#[test]
fn expected_revisions_and_body_versions_are_checked() {
    assert_eq!(check_revision(&id(A), None, None), Ok(()));
    assert_eq!(check_revision(&id(A), Some(3), Some(3)), Ok(()));
    assert_eq!(check_revision(&id(A), Some(3), None), Err(NtError::NoteNotFound(A.to_string())));
    let conflict = check_revision(&id(A), Some(3), Some(5)).err().unwrap();
    assert_eq!(conflict.to_string(), format!("note `{A}` is at revision 5, not 3"));
    assert_eq!(check_body_version(&id(A), 2, Some(2)), Ok(()));
    assert_eq!(check_body_version(&id(A), 2, Some(3)), Err(NtError::ConcurrentEdit(A.to_string())));
    assert_eq!(check_body_version(&id(A), 2, None), Err(NtError::NoteNotFound(A.to_string())));
    assert_eq!(check_body_version(&id(A), u64::MAX, Some(1)), Err(NtError::InvalidBodyVersion(u64::MAX)));
}

#[test]
fn moving_notes_moves_only_those_elsewhere() {
    let inbox = CollectionPath::inbox();
    let work: CollectionPath = "work".parse().unwrap();
    let stored = vec![(id(A), inbox.clone()), (id(B), work.clone()), (id(C), inbox.clone())];
    let plan = move_plan(&stored, &[id(C), id(B), id(A)], &work, 9).unwrap();
    assert_eq!(plan.moved, vec![id(A), id(C)]);
    assert_eq!(plan.revision, Some(10));
    assert_eq!(
        changes(&plan.changes),
        vec![(10, ChangeOperation::Metadata, A.to_string()), (10, ChangeOperation::Metadata, C.to_string())]
    );
    let none = move_plan(&stored, &[id(B)], &work, 9).unwrap();
    assert!(none.moved.is_empty() && none.revision.is_none());
    assert_eq!(
        move_plan(&stored, &[id(X)], &work, 9).err().unwrap(),
        NtError::NoteNotFound(X.to_string())
    );
}

#[test]
fn link_changes_touch_the_source_once() {
    let stored = vec![id(A), id(B)];
    let links = vec![(id(A), id(B))];
    assert!(link_change_plan(&id(A), &id(B), true, &stored, &links, None, None, 4).unwrap().is_none());
    let removed = link_change_plan(&id(A), &id(B), false, &stored, &links, Some(2), Some(2), 4).unwrap().unwrap();
    assert_eq!((removed.revision(), removed.operation(), removed.note_id().to_string()), (5, ChangeOperation::Metadata, A.to_string()));
    assert_eq!(link_change_plan(&id(B), &id(B), true, &stored, &links, None, None, 4), Err(NtError::SelfLink));
    assert_eq!(
        link_change_plan(&id(B), &id(X), true, &stored, &links, None, None, 4),
        Err(NtError::NoteNotFound(X.to_string()))
    );
    assert_eq!(
        link_change_plan(&id(X), &id(A), true, &stored, &links, None, None, 4),
        Err(NtError::NoteNotFound(X.to_string()))
    );
    assert!(matches!(
        link_change_plan(&id(A), &id(B), false, &stored, &links, Some(1), Some(2), 4),
        Err(NtError::RevisionConflict { .. })
    ));
}

#[test]
fn creating_a_note_checks_its_links_and_records_an_add() {
    let stored = vec![id(A), id(B)];
    let note = NewNote::new(CollectionPath::inbox(), "# Title").unwrap().with_links(vec![id(B), id(A)]);
    let change = nt::note::store::create_plan(&note, &id(C), &stored, 6).unwrap();
    assert_eq!((change.revision(), change.operation(), change.note_id().to_string()), (7, ChangeOperation::Add, C.to_string()));
    assert_eq!(nt::note::store::create_plan(&note, &id(A), &stored, 6), Err(NtError::SelfLink));
    let dangling = NewNote::new(CollectionPath::inbox(), "# Title").unwrap().with_links(vec![id(X), id(A)]);
    assert_eq!(
        nt::note::store::create_plan(&dangling, &id(C), &stored, 6),
        Err(NtError::NoteNotFound(X.to_string()))
    );
}

#[test]
fn the_change_feed_is_read_after_a_revision_the_store_can_hold() {
    assert_eq!(changes_since_bound(12), Ok(12));
    assert_eq!(
        changes_since_bound(u64::MAX).err().unwrap().to_string(),
        format!("invalid revision `{}`", u64::MAX)
    );
}
