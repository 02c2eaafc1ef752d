use nt::error::NtError;
use nt::index::{check_schema_version, parse_collection_name, Index, IndexRows, NoteMeta, SCHEMA_VERSION};

#[test]
fn collection_names_are_vault_qualified() {
    assert_eq!(
        parse_collection_name("personal/rust").unwrap(),
        ("personal".to_string(), "rust".to_string())
    );
    assert!(parse_collection_name("rust").is_err());
    assert!(parse_collection_name("Personal/rust").is_err());
}

#[test]
fn collection_name_without_slash_is_explained() {
    assert_eq!(
        parse_collection_name("rust").unwrap_err().to_string(),
        "invalid collection `rust`; use <vault>/<collection>"
    );
}

#[test]
fn schema_version_is_stamped_accepted_or_refused() {
    assert_eq!(check_schema_version(None), Ok(true));
    assert_eq!(check_schema_version(Some(SCHEMA_VERSION)), Ok(false));
    assert_eq!(
        check_schema_version(Some(2)),
        Err(NtError::Message("unsupported database schema version 2".to_string()))
    );
    assert_eq!(
        check_schema_version(Some(-7)),
        Err(NtError::Message("unsupported database schema version -7".to_string()))
    );
}

fn sample_index() -> Index {
    let mut index = Index::empty();
    index.create_vault("personal", "2026-01-01T00:00:00Z").unwrap();
    index.ensure_collection("personal/rust", "2026-01-01T00:00:00Z").unwrap();
    index.ensure_collection("personal/notes", "2026-01-01T00:00:00Z").unwrap();
    let mut note = NoteMeta::new_note(
        "n1".to_string(),
        "personal/rust".to_string(),
        "# Title\n".to_string(),
        "2026-01-02T00:00:00Z".to_string(),
        "2026-01-02T00:00:00Z".to_string(),
        "Title".to_string(),
    );
    note.collections.push("personal/notes".to_string());
    note.tags.push("b".to_string());
    note.tags.push("a".to_string());
    note.sources.push("https://example.com".to_string());
    index.upsert_note(note);
    let other = NoteMeta::new_note(
        "n2".to_string(),
        "personal/notes".to_string(),
        "# Other\n".to_string(),
        "2026-01-03T00:00:00Z".to_string(),
        "2026-01-03T00:00:00Z".to_string(),
        "Other".to_string(),
    );
    index.upsert_note(other);
    index
}

#[test]
fn save_gives_the_rows_of_every_table() {
    let index = sample_index();
    let rust = index.collections.get("personal/rust").unwrap().id.clone();
    let notes = index.collections.get("personal/notes").unwrap().id.clone();
    let rows = index.save().unwrap();
    assert_eq!(rows.vaults.len(), 1);
    assert_eq!(rows.vaults[0].name, "personal");
    assert_eq!(rows.collections.len(), 3);
    assert_eq!(rows.collections[0].name, "inbox");
    assert_eq!(rows.collections[1].name, "notes");
    assert_eq!(rows.collections[2].name, "rust");
    assert_eq!(rows.notes.len(), 2);
    assert_eq!(rows.notes[0].id, "n1");
    assert_eq!(rows.notes[0].home_collection, rust);
    assert!(rows.notes[0].tags.is_empty() && rows.notes[0].collections.is_empty());
    assert_eq!(rows.notes[1].home_collection, notes);
    assert_eq!(
        rows.memberships,
        vec![
            ("n1".to_string(), rust.clone()),
            ("n1".to_string(), notes.clone()),
            ("n2".to_string(), notes.clone()),
        ]
    );
    assert_eq!(
        rows.tags,
        vec![("n1".to_string(), "b".to_string()), ("n1".to_string(), "a".to_string())]
    );
    assert_eq!(rows.sources, vec![("n1".to_string(), "https://example.com".to_string())]);
    assert!(rows.links.is_empty());
}

#[test]
fn save_refuses_an_unknown_home_collection() {
    let mut index = sample_index();
    let stray = NoteMeta::new_note(
        "n3".to_string(),
        "personal/missing".to_string(),
        "# Stray\n".to_string(),
        "2026-01-04T00:00:00Z".to_string(),
        "2026-01-04T00:00:00Z".to_string(),
        "Stray".to_string(),
    );
    index.upsert_note(stray);
    assert_eq!(
        index.save().err().unwrap(),
        NtError::Message("unknown home collection `personal/missing` for note n3".to_string())
    );
}

#[test]
fn saved_rows_read_back_give_the_index() {
    let index = sample_index();
    let rows = index.save().unwrap();
    let vault_name = |id: &str| {
        rows.vaults.iter().find(|v| v.id == id).map(|v| v.name.clone()).unwrap()
    };
    let collection_name = |id: &str| {
        let c = rows.collections.iter().find(|c| c.id == id).unwrap();
        format!("{}/{}", vault_name(&c.vault_id), c.name)
    };
    let mut notes = Vec::new();
    for row in &rows.notes {
        let mut note = NoteMeta::new_note(
            row.id.clone(),
            collection_name(&row.home_collection),
            row.body.clone(),
            row.created.clone(),
            row.updated.clone(),
            row.title.clone(),
        );
        note.collections.clear();
        notes.push(note);
    }
    let mut tags = rows.tags.clone();
    tags.sort();
    let mut memberships: Vec<(String, String)> = rows
        .memberships
        .iter()
        .map(|(id, c)| (id.clone(), collection_name(c)))
        .collect();
    memberships.sort();
    let loaded = Index::load(IndexRows {
        vaults: rows.vaults.clone(),
        collections: rows
            .collections
            .iter()
            .map(|c| (vault_name(&c.vault_id), c.clone()))
            .collect(),
        notes,
        tags,
        sources: rows.sources.clone(),
        links: rows.links.clone(),
        memberships,
    });
    let first = loaded.notes.get("n1").unwrap();
    assert_eq!(first.home_collection, "personal/rust");
    assert_eq!(first.tags, vec!["a".to_string(), "b".to_string()]);
    assert_eq!(first.collections, vec!["personal/notes".to_string(), "personal/rust".to_string()]);
    assert_eq!(first.sources, vec!["https://example.com".to_string()]);
    assert_eq!(loaded.vaults.get("personal").unwrap().id, index.vaults.get("personal").unwrap().id);
    assert_eq!(
        loaded.collections.get("personal/rust").unwrap().id,
        index.collections.get("personal/rust").unwrap().id
    );
    assert_eq!(loaded.notes.get("n2").unwrap().collections, vec!["personal/notes".to_string()]);
}
