use nt::error::NtError;
use nt::input::{body_from, parse_editor, EditorCommand};

fn read_body(
    arguments: &[String],
    stdin: Option<Result<String, NtError>>,
    seed: Option<&str>,
    editor: &mut dyn FnMut(Option<String>) -> Result<String, NtError>,
) -> Result<String, NtError> {
    match body_from(arguments, stdin) {
        Some(body) => body,
        None => editor(seed.map(str::to_string)),
    }
}

#[test]
fn body_input_uses_supplied_reader_and_editor() {
    let mut editor = |_: Option<String>| -> Result<String, NtError> { panic!("editor should not run") };
    assert_eq!(
        read_body(&[], Some(Ok("# From stdin".to_string())), None, &mut editor).unwrap(),
        "# From stdin"
    );

    let mut editor = |seed: Option<String>| Ok(format!("{} edited", seed.unwrap()));
    assert_eq!(
        read_body(&[], None, Some("# Original"), &mut editor).unwrap(),
        "# Original edited"
    );
}

#[test]
fn body_input_propagates_reader_failures() {
    let mut editor = |_: Option<String>| -> Result<String, NtError> { panic!("editor should not run") };
    assert!(matches!(
        read_body(&[], Some(Err(NtError::Io("input failed".to_string()))), None, &mut editor),
        Err(NtError::Io(_))
    ));
}

#[test]
fn arguments_are_joined_unless_stdin_also_holds_text() {
    let arguments = vec!["# Title".to_string(), "body".to_string()];
    assert_eq!(body_from(&arguments, None).unwrap().unwrap(), "# Title body");
    assert_eq!(
        body_from(&arguments, Some(Ok(String::new()))).unwrap().unwrap(),
        "# Title body"
    );
    assert!(matches!(
        body_from(&arguments, Some(Ok("x".to_string()))),
        Some(Err(NtError::ConflictingBodyInput))
    ));
    assert!(matches!(
        body_from(&[], Some(Ok(String::new()))),
        Some(Err(NtError::EmptyBody))
    ));
    assert!(body_from(&[], None).is_none());
}

#[test]
fn visual_precedes_editor_and_values_are_parsed_as_argv() {
    assert_eq!(
        parse_editor(Some("code --wait"), Some("vim")).unwrap(),
        EditorCommand {
            program: "code".to_string(),
            arguments: vec!["--wait".to_string()],
        }
    );
    assert_eq!(
        parse_editor(None, Some("'/Applications/Visual Studio Code.app/code' --wait")).unwrap(),
        EditorCommand {
            program: "/Applications/Visual Studio Code.app/code".to_string(),
            arguments: vec!["--wait".to_string()],
        }
    );
    assert_eq!(
        parse_editor(Some(" "), Some("vim -f")).unwrap(),
        EditorCommand {
            program: "vim".to_string(),
            arguments: vec!["-f".to_string()],
        }
    );
    assert_eq!(
        parse_editor(None, Some("code --wait ';' touch /tmp/not-created")).unwrap(),
        EditorCommand {
            program: "code".to_string(),
            arguments: vec![
                "--wait".to_string(),
                ";".to_string(),
                "touch".to_string(),
                "/tmp/not-created".to_string(),
            ],
        }
    );
}

#[test]
fn empty_and_malformed_editor_commands_are_rejected() {
    assert!(matches!(parse_editor(Some(" "), None), Err(NtError::EditorNotSet)));
    assert!(matches!(
        parse_editor(None, Some("'unterminated")),
        Err(NtError::InvalidEditor)
    ));
    assert!(matches!(parse_editor(None, Some("''")), Err(NtError::InvalidEditor)));
}
