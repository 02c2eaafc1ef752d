use nt::listing::{render_row, render_table, ListField, ListRequest, ListRow};

fn args(values: &[&str]) -> Vec<String> {
    values.iter().map(|value| value.to_string()).collect()
}

fn summary_fields() -> Vec<ListField> {
    vec![
        ListField::Id,
        ListField::Title,
        ListField::Kind,
        ListField::Status,
        ListField::Due,
        ListField::Tag,
    ]
}

#[test]
fn mod_parses_fields_and_filters() {
    let request = ListRequest::parse(&args(&["id,title,status", "status:open"])).unwrap();
    assert_eq!(request.fields, vec![ListField::Id, ListField::Title, ListField::Status]);
}

#[test]
fn mod_default_and_filter_only_requests_use_summary_fields() {
    let request = ListRequest::parse(&[]).unwrap();
    assert_eq!(request.fields, summary_fields());

    let request = ListRequest::parse(&args(&["status:open"])).unwrap();
    assert_eq!(request.fields, summary_fields());
}

#[test]
fn mod_all_selects_every_field_and_accepts_filters() {
    let request = ListRequest::parse(&args(&["all", "status:open"])).unwrap();
    assert_eq!(request.fields.len(), 15);
}

#[test]
fn set_valued_metadata_uses_regular_singular_fields() {
    let request = ListRequest::parse(&args(&["tag,collection,link,source", "tag:rust"])).unwrap();
    assert_eq!(
        request.fields,
        vec![ListField::Tag, ListField::Collection, ListField::Link, ListField::Source]
    );
}

#[test]
fn mod_rejects_invalid_field_lists() {
    for (value, expected) in [
        ("id,titel", "unknown list field `titel`"),
        ("id,,title", "empty list field"),
        ("id,id", "duplicate list field `id`"),
        ("tags", "unknown list field `tags`"),
        ("collections", "unknown list field `collections`"),
        ("sources", "unknown list field `sources`"),
        ("links", "unknown list field `links`"),
        ("ids", "unknown list field `ids`"),
        ("titles", "unknown list field `titles`"),
    ] {
        let error = ListRequest::parse(&args(&[value])).unwrap_err();
        assert!(error.to_string().contains(expected));
    }
}

#[test]
fn listing_keeps_filter_expressions_and_refuses_options() {
    let request = ListRequest::parse(&args(&["id", "status:open", "#rust"])).unwrap();
    assert_eq!(request.filters, ["status:open", "#rust"]);
    let request = ListRequest::parse(&args(&["#rust"])).unwrap();
    assert_eq!(request.fields, summary_fields());
    assert_eq!(request.filters, ["#rust"]);
    assert_eq!(
        ListRequest::parse(&args(&["id", "--json"])).unwrap_err().to_string(),
        "unexpected argument '--json'"
    );
}

#[test]
fn render_table_has_headers_and_aligned_columns() {
    let short = ListRow {
        values: vec![
            "018fbe0a-6c00-7000-8000-000000000001".to_string(),
            "Short".to_string(),
            "open".to_string(),
        ],
    };
    let long = ListRow {
        values: vec![
            "018fbe0a-6c00-7000-8000-000000000002".to_string(),
            "A much longer title".to_string(),
            "-".to_string(),
        ],
    };

    let lines = render_table(&[short, long], &[ListField::Id, ListField::Title, ListField::Status]);

    assert_eq!(lines[0], "ID                                    TITLE                STATUS");
    assert_eq!(lines[1], "018fbe0a-6c00-7000-8000-000000000001  Short                open");
    assert_eq!(lines[2], "018fbe0a-6c00-7000-8000-000000000002  A much longer title  -");
}

#[test]
fn rows_render_tab_separated() {
    let row = ListRow { values: vec!["a".to_string(), "b c".to_string()] };
    assert_eq!(render_row(&row), "a\tb c");
}

#[test]
fn field_names_round_trip() {
    for field in nt::listing::field::all_field_list() {
        assert_eq!(ListField::parse(field.name()).unwrap(), field);
    }
}
