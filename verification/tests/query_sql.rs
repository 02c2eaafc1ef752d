use nt::query::NoteQuery;
use nt::query_sql::{compile_ordered_query, prefix_upper_bound, SqlValue};

fn strings(values: &[&str]) -> Vec<String> {
    values.iter().map(|value| value.to_string()).collect()
}

#[test]
fn unfiltered_queries_only_order_newest_first() {
    let (sql, parameters) = compile_ordered_query(&NoteQuery::default());
    assert_eq!(sql, " ORDER BY n.updated DESC, n.id DESC ");
    assert!(parameters.is_empty());
}

#[test]
fn filters_bind_numbered_parameters_in_order_and_limit_comes_last() {
    let query = NoteQuery::parse_list(&strings(&["id:018f", "not:tag:rust", "limit:5"])).unwrap();
    let (sql, parameters) = compile_ordered_query(&query);
    assert_eq!(
        sql,
        "WHERE n.id >= ?1 AND n.id < ?2 AND NOT (EXISTS (SELECT 1 FROM note_tags filter_tags\n                 WHERE filter_tags.note_pk = n.pk AND filter_tags.tag = ?3)) ORDER BY n.updated DESC, n.id DESC LIMIT ?4"
    );
    assert_eq!(
        parameters,
        vec![
            SqlValue::Text("018f".to_string()),
            SqlValue::Text("018g".to_string()),
            SqlValue::Text("rust".to_string()),
            SqlValue::Integer(5),
        ]
    );
}

#[test]
fn search_words_become_one_full_text_condition() {
    let query = NoteQuery::parse_find(&strings(&["rust", "collection:work/nt"])).unwrap();
    let (sql, parameters) = compile_ordered_query(&query);
    assert_eq!(
        sql,
        "WHERE n.collection = ?1 AND n.pk IN (SELECT rowid FROM note_fts WHERE note_fts MATCH ?2) ORDER BY n.updated DESC, n.id DESC "
    );
    assert_eq!(
        parameters,
        vec![SqlValue::Text("work/nt".to_string()), SqlValue::Text("\"rust\"".to_string())]
    );
}

#[test]
fn link_and_time_filters_bind_canonical_texts() {
    let id = "018fbe0a-6c00-7000-8000-000000000001";
    let query = NoteQuery::parse_list(&[
        format!("linked-from:{id}"),
        "updated-since:2026-05-28T14:30:12Z".to_string(),
    ])
    .unwrap();
    let (sql, parameters) = compile_ordered_query(&query);
    assert!(sql.starts_with("WHERE n.pk IN (SELECT filter_links.target_note_pk\n"));
    assert!(sql.contains("WHERE filter_source.id = ?1) AND n.updated >= ?2 ORDER BY"));
    assert_eq!(
        parameters,
        vec![
            SqlValue::Text(id.to_string()),
            SqlValue::Text("2026-05-28T14:30:12Z".to_string()),
        ]
    );
}

#[test]
fn id_prefix_upper_bounds_raise_the_last_character() {
    assert_eq!(prefix_upper_bound("0198"), "0199");
    assert_eq!(prefix_upper_bound("0198abcd-"), "0198abcd.");
    assert_eq!(prefix_upper_bound("0198abcf"), "0198abcg");
}
