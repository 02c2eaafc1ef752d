use std::path::PathBuf;
use std::time::{Duration, UNIX_EPOCH};

use nt::note::timestamp_from_system_time;

use nt::notebook::listing::{render_row, render_table, ListField, ListRequest};
use nt::notebook::terms::tokenize_text;
use nt::notebook::{unique_id_step, IdStep, Index, NoteMeta};

fn note(id: &str) -> NoteMeta {
    NoteMeta::new_note(
        id.to_string(),
        PathBuf::from(format!("notes/{id}.md")),
        "2026-05-28T14:30:12Z".to_string(),
        "2026-05-28T14:30:12Z".to_string(),
        "Storage".to_string(),
    )
}

fn args(values: &[&str]) -> Vec<String> {
    values.iter().map(|value| value.to_string()).collect()
}

#[test]
fn rebuilds_derived_maps() {
    let mut index = Index::default();
    let mut storage = note("NT20260528T143012");
    storage.kind = "decision".to_string();
    storage.status = Some("open".to_string());
    storage.tags = vec!["design".to_string()];
    storage.collections = vec!["projects/nt".to_string()];
    storage.links = vec!["NT20260527T120000".to_string()];
    storage.sources = vec!["https://example.com/spec".to_string()];

    index.upsert_note(storage);

    assert_eq!(index.recent, vec!["NT20260528T143012"]);
    assert_eq!(index.kinds.get("decision").unwrap(), &vec!["NT20260528T143012".to_string()]);
    assert_eq!(index.statuses.get("open").unwrap(), &vec!["NT20260528T143012".to_string()]);
    assert_eq!(index.tags.get("design").unwrap(), &vec!["NT20260528T143012".to_string()]);
    assert_eq!(
        index.collections.get("projects/nt").unwrap(),
        &vec!["NT20260528T143012".to_string()]
    );
    assert_eq!(index.days.get("2026-05-28").unwrap(), &vec!["NT20260528T143012".to_string()]);
    assert_eq!(
        index.backlinks.get("NT20260527T120000").unwrap(),
        &vec!["NT20260528T143012".to_string()]
    );
    assert_eq!(index.terms.get("storage").unwrap(), &vec!["NT20260528T143012".to_string()]);
    assert_eq!(index.terms.get("projects").unwrap(), &vec!["NT20260528T143012".to_string()]);
}

#[test]
fn recent_lists_newest_first_and_removal_clears_tables() {
    let mut index = Index::default();
    let mut older = note("NT20260527T120000");
    older.created = "2026-05-27T12:00:00Z".to_string();
    older.updated = "2026-05-27T12:00:00Z".to_string();
    let newer = note("NT20260528T143012");
    index.upsert_note(older);
    index.upsert_note(newer);
    assert_eq!(index.recent, vec!["NT20260528T143012", "NT20260527T120000"]);

    index.remove_note("NT20260528T143012");
    assert_eq!(index.recent, vec!["NT20260527T120000"]);
    assert!(index.days.get("2026-05-28").is_none());
    assert_eq!(index.days.get("2026-05-27").unwrap(), &vec!["NT20260527T120000".to_string()]);
    assert_eq!(index.notes.len(), 1);
}

#[test]
fn tokenizes_text_to_lowercase_unique_terms() {
    assert_eq!(
        tokenize_text("QEMU, qemu; Firecracker/v1"),
        vec!["firecracker".to_string(), "qemu".to_string(), "v1".to_string()]
    );
}

#[test]
fn listing_table_has_headers_and_aligned_columns() {
    let mut short = NoteMeta::new_note(
        "NT20260621T100000".to_string(),
        PathBuf::from("NT20260621T100000.md"),
        "2026-06-21T10:00:00Z".to_string(),
        "2026-06-21T10:00:00Z".to_string(),
        "Short".to_string(),
    );
    short.status = Some("open".to_string());
    let long = NoteMeta::new_note(
        "NT20260621T110000".to_string(),
        PathBuf::from("NT20260621T110000.md"),
        "2026-06-21T11:00:00Z".to_string(),
        "2026-06-21T11:00:00Z".to_string(),
        "A much longer title".to_string(),
    );

    let lines = render_table(&[&short, &long], &[ListField::Id, ListField::Title, ListField::Status]);

    assert_eq!(lines[0], "ID                 TITLE                STATUS");
    assert_eq!(lines[1], "NT20260621T100000  Short                open");
    assert_eq!(lines[2], "NT20260621T110000  A much longer title  -");
}

#[test]
fn rows_join_set_values_with_commas() {
    let mut meta = note("NT20260528T143012");
    meta.tags = vec!["a".to_string(), "b".to_string()];
    assert_eq!(
        render_row(&meta, &[ListField::Id, ListField::Tag, ListField::Source]),
        "NT20260528T143012\ta,b\t-"
    );
}

#[test]
fn listing_parses_fields_and_filters() {
    let ListRequest::Notes { fields, .. } =
        ListRequest::parse(&args(&["id,title,status", "status:open"])).unwrap()
    else {
        panic!("expected note listing");
    };
    assert_eq!(fields, vec![ListField::Id, ListField::Title, ListField::Status]);
}

#[test]
fn listing_default_and_filter_only_requests_use_summary_fields() {
    let ListRequest::Notes { fields, .. } = ListRequest::parse(&[]).unwrap() else {
        panic!("expected note listing");
    };
    assert_eq!(
        fields,
        vec![
            ListField::Id,
            ListField::Title,
            ListField::Kind,
            ListField::Status,
            ListField::Due,
            ListField::Tag,
        ]
    );

    let ListRequest::Notes { fields, .. } = ListRequest::parse(&args(&["status:open"])).unwrap() else {
        panic!("expected note listing");
    };
    assert_eq!(fields.len(), 6);
}

#[test]
fn listing_all_selects_every_field_and_accepts_filters() {
    let ListRequest::Notes { fields, .. } = ListRequest::parse(&args(&["all", "status:open"])).unwrap()
    else {
        panic!("expected note listing");
    };
    assert_eq!(fields.len(), 15);
}

#[test]
fn links_without_an_id_selects_the_link_graph() {
    assert!(matches!(
        ListRequest::parse(&args(&["links"])).unwrap(),
        ListRequest::LinkGraph { .. }
    ));
    assert!(matches!(
        ListRequest::parse(&args(&["links", "day:2026-06-20"])).unwrap(),
        ListRequest::LinkGraph { .. }
    ));

    let ListRequest::LinkGraph { from, to, .. } = ListRequest::parse(&args(&[
        "links",
        "from:NT20260618T210731",
        "to:NT20260618T212305",
    ]))
    .unwrap() else {
        panic!("expected link graph");
    };
    assert_eq!(from.as_deref(), Some("NT20260618T210731"));
    assert_eq!(to.as_deref(), Some("NT20260618T212305"));
}

#[test]
fn rejects_ambiguous_or_duplicate_link_endpoint_filters() {
    let error = ListRequest::parse(&args(&["links", "NT20260618T210731"])).unwrap_err();
    assert!(error.to_string().contains("directionless link lookup"));

    let error = ListRequest::parse(&args(&["links", "NT20260618T210731", "from"])).unwrap_err();
    assert_eq!(
        error.to_string(),
        "positional link directions are not supported; use `nt list links from:NT20260618T210731`"
    );

    let error = ListRequest::parse(&args(&[
        "links",
        "from:NT20260618T210731",
        "from:NT20260618T212305",
    ]))
    .unwrap_err();
    assert_eq!(error.to_string(), "duplicate link endpoint filter `from`");
}

#[test]
fn listing_rejects_invalid_field_lists() {
    for (value, expected) in [
        ("id,titel", "unknown list field `titel`"),
        ("id,,title", "empty list field"),
        ("id,id", "duplicate list field `id`"),
    ] {
        let error = ListRequest::parse(&args(&[value])).unwrap_err();
        assert!(error.to_string().contains(expected));
    }
}

#[test]
fn redirects_misplaced_link_directions() {
    for value in ["NT20260618T210731", "link:NT20260618T210731"] {
        let error = ListRequest::parse(&args(&[value, "from"])).unwrap_err();
        assert_eq!(
            error.to_string(),
            "link direction `from` must be an endpoint filter; use `nt list links from:NT20260618T210731`"
        );
    }
}

#[test]
fn tag_and_collection_listings_take_an_optional_name() {
    assert!(matches!(ListRequest::parse(&args(&["tags"])).unwrap(), ListRequest::Tags(None)));
    assert!(matches!(
        ListRequest::parse(&args(&["collections", "projects"])).unwrap(),
        ListRequest::Collections(Some(name)) if name == "projects"
    ));
    let ListRequest::Notes { fields, .. } = ListRequest::parse(&args(&["titles"])).unwrap() else {
        panic!("expected note listing");
    };
    assert_eq!(fields, vec![ListField::Id, ListField::Title]);
}

#[test]
fn unique_ids_retry_while_taken_and_give_up_after_five_attempts() {

    let mut index = Index::default();
    let timestamp = timestamp_from_system_time(UNIX_EPOCH + Duration::from_secs(1_780_000_000));
    assert!(matches!(unique_id_step(0, timestamp.clone(), false, &index), IdStep::Use(t) if t == timestamp));
    assert!(matches!(unique_id_step(0, timestamp.clone(), true, &index), IdStep::Retry(1)));
    index.upsert_note(note(&timestamp.id));
    assert!(matches!(unique_id_step(3, timestamp.clone(), false, &index), IdStep::Retry(4)));
    let IdStep::GiveUp(error) = unique_id_step(4, timestamp, false, &index) else {
        panic!("expected to give up");
    };
    assert_eq!(error.to_string(), "could not allocate a unique note id");
}

#[test]
fn legacy_field_names_round_trip() {
    for field in nt::notebook::listing::all_field_list() {
        assert_eq!(ListField::parse(field.name()).unwrap(), field);
    }
}

#[test]
fn rebuilding_twice_changes_nothing() {
    let mut index = Index::default();
    let mut first = note("NT20260528T143012");
    first.tags = vec!["design".to_string()];
    first.links = vec!["NT20260527T120000".to_string()];
    index.upsert_note(first);
    index.upsert_note(note("NT20260527T120000"));
    index.rebuild_derived();
    let recent = index.recent.clone();
    let terms: Vec<(String, Vec<String>)> = ["design", "storage", "nt20260528t143012"]
        .iter()
        .map(|word| (word.to_string(), index.terms.get(word).cloned().unwrap_or_default()))
        .collect();
    let backlinks = index.backlinks.get("NT20260527T120000").cloned();
    index.rebuild_derived();
    assert_eq!(index.recent, recent);
    for (word, ids) in terms {
        assert_eq!(index.terms.get(&word).cloned().unwrap_or_default(), ids);
    }
    assert_eq!(index.backlinks.get("NT20260527T120000").cloned(), backlinks);
    assert_eq!(index.recent, vec!["NT20260528T143012", "NT20260527T120000"]);
}

#[test]
fn rows_show_the_path_of_the_note_file() {
    let meta = note("NT20260528T143012");
    assert_eq!(
        render_row(&meta, &[ListField::Id, ListField::Path]),
        "NT20260528T143012\tnotes/NT20260528T143012.md"
    );
    let table = render_table(&[&meta], &[ListField::Path]);
    assert_eq!(table[0].trim_end(), "PATH");
    assert_eq!(table[1].trim_end(), "notes/NT20260528T143012.md");
}
