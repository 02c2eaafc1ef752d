use nt::lexical::{fts_and_expression, insert_sorted, literal_tokens, normalized_terms};
use nt::query::NoteQuery;

fn strings(values: &[&str]) -> Vec<String> {
    values.iter().map(|value| (*value).to_string()).collect()
}

fn assert_note_terms(values: &[&str], expected: &[&str]) {
    let values = strings(values);
    let note = NoteQuery::parse_find(&values).unwrap();
    assert_eq!(note.lexical_terms(), expected);
}

#[test]
fn note_queries_use_literal_term_contracts() {
    assert_note_terms(&["beta alpha"], &["alpha", "beta"]);
    assert_note_terms(&["zebra café"], &["café", "zebra"]);
    assert_note_terms(&["beta alpha", "beta"], &["alpha", "beta"]);
    assert_note_terms(&["ownership-borrow.alpha"], &["alpha", "borrow", "ownership"]);
    assert_note_terms(&["*** alpha", "---"], &["alpha"]);
    assert!(normalized_terms(&strings(&["***", "---"])).is_empty());
}

#[test]
fn fts_construction_quotes_escapes_and_joins_literals() {
    assert_eq!(fts_and_expression(&[]), "");
    assert_eq!(fts_and_expression(&strings(&["a\"b", "c"])), "\"a\"\"b\" AND \"c\"");
}

#[test]
fn precomposed_characters_remain_in_tokens() {
    assert_eq!(literal_tokens("café"), ["café"]);
}

#[test]
fn combining_marks_split_tokens() {
    assert_eq!(literal_tokens("cafe\u{301}"), ["cafe"]);
}

#[test]
fn non_latin_scripts_are_alphanumeric_tokens() {
    assert_eq!(normalized_terms(&strings(&["東京 Привет"])), ["Привет", "東京"]);
}

#[test]
fn adjacent_mixed_scripts_remain_one_token() {
    assert_eq!(literal_tokens("rust東京"), ["rust東京"]);
}

#[test]
fn emoji_separate_adjacent_words() {
    assert_eq!(literal_tokens("hello🙂世界"), ["hello", "世界"]);
}

#[test]
fn normalized_terms_are_sorted_and_unique() {
    assert_eq!(
        normalized_terms(&strings(&["b a", "c,a", "b"])),
        ["a", "b", "c"]
    );
}

#[test]
fn sorted_insertion_keeps_each_string_once() {
    let mut list = strings(&["b", "d"]);
    insert_sorted(&mut list, "c".to_string());
    insert_sorted(&mut list, "a".to_string());
    insert_sorted(&mut list, "c".to_string());
    assert_eq!(list, ["a", "b", "c", "d"]);
}
