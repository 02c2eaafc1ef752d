use nt::note::NoteId;
use nt::query::{Filter, NoteQuery};

#[test]
fn parses_structured_list_filters() {
    let query = NoteQuery::parse_list(&[
        "id:018fbe0a-6c00-7".to_string(),
        "collection:work/nt".to_string(),
        "not:tag:rust".to_string(),
        "limit:50".to_string(),
    ])
    .unwrap();
    assert_eq!(query.filters().len(), 3);
    assert!(matches!(query.filters()[2], Filter::Not(_)));
    assert_eq!(query.limit(), Some(50));
}

#[test]
fn parses_directional_link_filters_with_canonical_note_ids() {
    let id = "018fbe0a-6c00-7000-8000-000000000001";
    let query = NoteQuery::parse_list(&[format!("links-to:{id}"), format!("linked-from:{id}")]).unwrap();

    assert_eq!(
        query.filters(),
        [
            Filter::LinksTo(id.parse::<NoteId>().unwrap()),
            Filter::LinkedFrom(id.parse::<NoteId>().unwrap()),
        ]
    );
    assert!(NoteQuery::parse_list(&[format!("link:{id}")]).is_err());
    assert!(NoteQuery::parse_list(&[format!("incoming:{id}")]).is_err());
    assert!(NoteQuery::parse_list(&[format!("outgoing:{id}")]).is_err());
}

#[test]
fn directional_link_filters_share_exact_note_id_validation() {
    for id in [
        "not-an-id",
        "018fbe0a-6c00-4000-8000-000000000001",
        "018FBE0A-6C00-7000-8000-000000000001",
    ] {
        assert!(NoteQuery::parse_list(&[format!("links-to:{id}")]).is_err());
        assert!(NoteQuery::parse_list(&[format!("linked-from:{id}")]).is_err());
    }
}

#[test]
fn rejects_bare_unknown_and_malformed_filters() {
    for value in [
        "rust",
        "kind:note",
        "id:",
        "id:ABC",
        "id:0198abcd0",
        "id:0198abcd-0000-7000-8000-0000000000000",
        "not:",
    ] {
        assert!(NoteQuery::parse_list(&[value.to_string()]).is_err());
    }
}

#[test]
fn find_combines_literal_tokens_and_structured_filters() {
    let query = NoteQuery::parse_find(&[
        "ownership-borrow".to_string(),
        "tag:rust".to_string(),
        "ownership".to_string(),
        "limit:25".to_string(),
    ])
    .unwrap();
    assert_eq!(query.filters().len(), 1);
    assert_eq!(query.lexical_terms(), ["borrow", "ownership"]);
    assert_eq!(query.limit(), Some(25));
}

#[test]
fn queries_have_no_implicit_limit() {
    assert_eq!(NoteQuery::default().limit(), None);
    assert_eq!(NoteQuery::parse_list(&[]).unwrap().limit(), None);
    assert_eq!(NoteQuery::parse_find(&["rust".to_string()]).unwrap().limit(), None);
}

#[test]
fn rejects_invalid_and_duplicate_limits() {
    for value in ["limit:", "limit:0", "limit:-1", "limit:9223372036854775808", "limit:all"] {
        assert!(NoteQuery::parse_list(&[value.to_string()]).is_err());
    }
    assert!(NoteQuery::parse_find(&[
        "rust".to_string(),
        "limit:10".to_string(),
        "limit:20".to_string(),
    ])
    .is_err());
    assert!(NoteQuery::parse_list(&["not:limit:10".to_string()]).is_err());
}

#[test]
fn find_rejects_raw_fields_negated_terms_and_empty_tokens() {
    for expressions in [vec!["title:storage"], vec!["not:storage"], vec!["***"], vec!["tag:rust"]] {
        let expressions = expressions.into_iter().map(str::to_string).collect::<Vec<_>>();
        assert!(NoteQuery::parse_find(&expressions).is_err());
    }
}

#[test]
fn largest_limit_is_accepted_and_errors_name_their_field() {
    let query = NoteQuery::parse_list(&["limit:9223372036854775807".to_string()]).unwrap();
    assert_eq!(query.limit(), Some(i64::MAX));
    assert_eq!(
        NoteQuery::parse_list(&["kind:note".to_string()]).unwrap_err().to_string(),
        "invalid filter `kind:note`"
    );
}
