use nt::help::topic_text;

#[test]
fn target_commands_have_help() {
    for topic in [
        "",
        "init",
        "add",
        "rebuild",
        "list",
        "find",
        "show",
        "open",
        "rm",
        "update",
        "agenda",
        "export",
        "config",
        "completion",
        "help",
    ] {
        assert!(topic_text(topic).unwrap().contains("Examples:"));
    }
}

#[test]
fn legacy_topics_are_unknown() {
    for topic in ["ids", "tags", "collection", "status", "link"] {
        assert!(topic_text(topic).is_err());
    }
}

#[test]
fn nested_config_topics_have_their_own_help() {
    assert!(topic_text("config show").unwrap().starts_with("nt config show\n"));
    assert!(topic_text("config vault").unwrap().starts_with("nt config vault"));
}

#[test]
fn unknown_topic_names_the_topic() {
    assert_eq!(
        topic_text("nope").unwrap_err().to_string(),
        "unknown help topic `nope`; run `nt help`"
    );
}
