use catalog_diagram::error::{AppError, ExitCode, XmlPosition};

#[test]
fn exit_codes_kinds_and_messages_are_stable() {
    let cases = [
        (AppError::Usage("u".into()), ExitCode::Usage, 1, "usage"),
        (AppError::InputFile("i".into()), ExitCode::InputFile, 2, "input_file"),
        (AppError::MalformedXml("m".into(), None), ExitCode::MalformedXml, 3, "malformed_xml"),
        (AppError::Selection("s".into()), ExitCode::Selection, 4, "selection"),
        (AppError::Render("r".into()), ExitCode::Render, 5, "render"),
    ];
    for (error, code, value, kind) in cases {
        assert_eq!(error.exit_code(), code);
        assert_eq!(error.exit_code().value(), value);
        assert_eq!(error.kind(), kind);
        assert_eq!(error.message().len(), 1);
        assert!(error.position().is_none());
    }
    assert_eq!(ExitCode::Success.value(), 0);
}

#[test]
fn json_lines_escape_and_include_the_position() {
    let e = AppError::InputFile("could not read \"a\\b\"\n".into());
    assert_eq!(
        e.to_json_line(),
        "{\"exit_code\":2,\"kind\":\"input_file\",\"level\":\"error\",\"message\":\"could not read \\\"a\\\\b\\\"\\n\"}"
    );
    let p = AppError::MalformedXml(
        "bad".into(),
        Some(XmlPosition { line: 4, column: 7, excerpt: "<x>".into() }),
    );
    assert_eq!(p.position().unwrap().column, 7);
    assert_eq!(
        p.to_json_line(),
        "{\"column\":7,\"exit_code\":3,\"kind\":\"malformed_xml\",\"level\":\"error\",\"line\":4,\"message\":\"bad\"}"
    );
}
