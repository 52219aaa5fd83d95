use std::io;

use sysctl_conf::error::{describe_load_error, describe_load_error_given};
use sysctl_conf::{parse_str, parse_str_with_schema, LoadError, ValidatedLoadError};

#[test]
fn parse_error_message_names_line_and_content() {
    let error = parse_str("ok.key = value\nbad\"x\"\n").unwrap_err();
    assert_eq!(
        error.message(),
        "invalid sysctl configuration at line 2: \"bad\\\"x\\\"\""
    );
}

#[test]
fn validation_messages() {
    let error = parse_str_with_schema("unknown = value\n", "known -> string\n").unwrap_err();
    assert_eq!(
        error.message(),
        "setting \"unknown\" at line 1 is not defined in the schema"
    );
    let error = parse_str_with_schema("\n\nretry = many\n", "retry -> integer\n").unwrap_err();
    assert_eq!(
        error.message(),
        "invalid value \"many\" for \"retry\" at line 3: expected integer"
    );
}

#[test]
fn schema_error_message() {
    let error = parse_str_with_schema("retry = 3\n", "# c\nretry -> number\n").unwrap_err();
    assert_eq!(error.message(), "invalid schema at line 2: \"retry -> number\"");
}

#[test]
fn line_numbers_are_written_in_decimal() {
    let input = format!("{}bad\n", "a = 1\n".repeat(1234));
    let error = parse_str(&input).unwrap_err();
    assert_eq!(error.line(), 1235);
    assert_eq!(error.message(), "invalid sysctl configuration at line 1235: \"bad\"");
}

#[test]
fn io_error_messages() {
    let error = LoadError::from(io::Error::other("test error"));
    assert!(matches!(error, LoadError::Io(_)));
    assert_eq!(error.message(), "failed to read sysctl configuration: test error");
    let error = ValidatedLoadError::SchemaIo(io::Error::other("disk gone"));
    assert_eq!(error.message(), "failed to read schema: disk gone");
}

#[test]
fn parse_errors_convert_to_load_errors() {
    let parse_error = parse_str("nope\n").unwrap_err();
    let error = LoadError::from(parse_error.clone());
    match error {
        LoadError::Parse(e) => assert_eq!(e, parse_error),
        other => panic!("unexpected error {:?}", other),
    }
}

#[test]
fn missing_files_are_named_by_path() {
    let error = ValidatedLoadError::Config(LoadError::Io(io::Error::new(
        io::ErrorKind::NotFound,
        "no such file",
    )));
    assert_eq!(
        describe_load_error(&error, "sample.conf", "types.conf"),
        "configuration file not found: sample.conf"
    );
    let error = ValidatedLoadError::SchemaIo(io::Error::new(io::ErrorKind::NotFound, "gone"));
    assert_eq!(
        describe_load_error(&error, "sample.conf", "types.conf"),
        "schema file not found: types.conf"
    );
    let error = ValidatedLoadError::SchemaIo(io::Error::new(
        io::ErrorKind::PermissionDenied,
        "denied",
    ));
    assert_eq!(
        describe_load_error(&error, "sample.conf", "types.conf"),
        "failed to read schema: denied"
    );
}

#[test]
fn other_errors_are_described_by_their_message() {
    let error = parse_str_with_schema("x = 1\n", "x -> bool\n").unwrap_err();
    assert_eq!(
        describe_load_error_given(&error, true, "a", "b"),
        "invalid value \"1\" for \"x\" at line 1: expected bool"
    );
    let error = ValidatedLoadError::Config(LoadError::Io(io::Error::other("x")));
    assert_eq!(
        describe_load_error_given(&error, true, "a.conf", "b.conf"),
        "configuration file not found: a.conf"
    );
}
