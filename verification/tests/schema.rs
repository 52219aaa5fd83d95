use sysctl_conf::{
    parse_str_with_schema, SchemaParseError, SysctlMap, SysctlValue, ValidatedLoadError,
    ValidationError, ValueType,
};

fn value_at<'a>(map: &'a SysctlMap, path: &[&str]) -> Option<&'a SysctlValue> {
    let mut current = map.get(path[0])?;
    for key in &path[1..] {
        current = current.get(key)?;
    }
    Some(current)
}

#[test]
fn validates_and_converts_values_using_a_schema() {
    let parsed = parse_str_with_schema(
        "endpoint = localhost:3000\ndebug = true\nlog.file = app.log\nretry = 3\n",
        "endpoint -> string\ndebug -> bool\nlog.file -> string\nretry -> integer\n",
    )
    .unwrap();
    assert_eq!(value_at(&parsed, &["endpoint"]).unwrap().as_str(), Some("localhost:3000"));
    assert_eq!(value_at(&parsed, &["debug"]).unwrap().as_bool(), Some(true));
    assert_eq!(value_at(&parsed, &["log", "file"]).unwrap().as_str(), Some("app.log"));
    assert_eq!(value_at(&parsed, &["retry"]).unwrap().as_i64(), Some(3));
}

#[test]
fn rejects_values_with_the_wrong_type() {
    let error = parse_str_with_schema("retry = many\n", "retry -> integer\n").unwrap_err();
    assert!(matches!(
        error,
        ValidatedLoadError::Validation(ValidationError::InvalidValue {
            line: 1,
            expected: ValueType::Integer,
            ..
        })
    ));
}

#[test]
fn rejects_keys_missing_from_the_schema() {
    let error = parse_str_with_schema("unknown = value\n", "known -> string\n").unwrap_err();
    assert!(matches!(
        error,
        ValidatedLoadError::Validation(ValidationError::UnknownKey { line: 1, .. })
    ));
}

#[test]
fn rejects_invalid_schema_lines() {
    let error = parse_str_with_schema("retry = 3\n", "retry -> number\n").unwrap_err();
    assert!(matches!(error, ValidatedLoadError::SchemaParse(SchemaParseError { .. })));
    if let ValidatedLoadError::SchemaParse(e) = error {
        assert_eq!(e.line(), 1);
    }
}

#[test]
fn allows_schema_keys_to_be_absent_from_the_configuration() {
    let parsed =
        parse_str_with_schema("endpoint = localhost\n", "endpoint -> string\ndebug -> bool\n")
            .unwrap();
    assert_eq!(value_at(&parsed, &["endpoint"]).unwrap().as_str(), Some("localhost"));
    assert!(!parsed.contains_key("debug"));
}

#[test]
fn integers_take_a_sign_and_must_fit() {
    let schema = "n -> integer\n";
    let parsed = parse_str_with_schema("n = -9223372036854775808\n", schema).unwrap();
    assert_eq!(value_at(&parsed, &["n"]).unwrap().as_i64(), Some(i64::MIN));
    let parsed = parse_str_with_schema("n = +0042\n", schema).unwrap();
    assert_eq!(value_at(&parsed, &["n"]).unwrap().as_i64(), Some(42));
    for bad in ["9223372036854775808", "1_000", "0x10", "+", "-", "4 2", "1.5"] {
        let error = parse_str_with_schema(&format!("n = {}\n", bad), schema).unwrap_err();
        match error {
            ValidatedLoadError::Validation(ValidationError::InvalidValue {
                line,
                key,
                value,
                expected,
            }) => {
                assert_eq!(line, 1);
                assert_eq!(key, "n");
                assert_eq!(value, bad);
                assert_eq!(expected, ValueType::Integer);
            }
            other => panic!("unexpected error {:?}", other),
        }
    }
}

#[test]
fn booleans_are_spelled_true_or_false() {
    let schema = "flag -> bool\n";
    let parsed = parse_str_with_schema("flag = false\n", schema).unwrap();
    assert_eq!(value_at(&parsed, &["flag"]).unwrap().as_bool(), Some(false));
    for bad in ["True", "1", "yes", "FALSE"] {
        let error = parse_str_with_schema(&format!("flag = {}\n", bad), schema).unwrap_err();
        assert!(matches!(
            error,
            ValidatedLoadError::Validation(ValidationError::InvalidValue {
                expected: ValueType::Bool,
                ..
            })
        ));
    }
}

#[test]
fn strings_keep_their_text() {
    let parsed = parse_str_with_schema("name = true\n", "name -> string\n").unwrap();
    assert_eq!(value_at(&parsed, &["name"]).unwrap().as_str(), Some("true"));
    assert_eq!(value_at(&parsed, &["name"]).unwrap().as_bool(), None);
}

#[test]
fn schema_keys_are_whole_dotted_keys() {
    let error = parse_str_with_schema("log.file = a\n", "log -> string\n").unwrap_err();
    match error {
        ValidatedLoadError::Validation(ValidationError::UnknownKey { line, key }) => {
            assert_eq!(line, 1);
            assert_eq!(key, "log.file");
        }
        other => panic!("unexpected error {:?}", other),
    }
}

#[test]
fn schema_comments_blanks_and_redeclarations() {
    let parsed = parse_str_with_schema(
        "x = 5\n",
        "# types\n\n; more\n  x   ->   string  \nx -> integer\n",
    )
    .unwrap();
    assert_eq!(value_at(&parsed, &["x"]).unwrap().as_i64(), Some(5));
}

#[test]
fn malformed_schema_lines_are_reported_trimmed() {
    for (schema, content) in [
        ("ok -> bool\n  no arrow here \n", "no arrow here"),
        ("ok -> bool\n -> string\n", "-> string"),
        ("ok -> bool\nkey -> \n", "key ->"),
    ] {
        let error = parse_str_with_schema("", schema).unwrap_err();
        assert_eq!(error_line_and_content(&error), Some((2, content.to_string())));
    }
}

fn error_line_and_content(error: &ValidatedLoadError) -> Option<(usize, String)> {
    match error {
        ValidatedLoadError::SchemaParse(e) => Some((e.line(), e.content().to_string())),
        _ => None,
    }
}

#[test]
fn schema_errors_come_before_configuration_errors() {
    let error = parse_str_with_schema("broken\n", "bad\n").unwrap_err();
    assert!(matches!(error, ValidatedLoadError::SchemaParse(_)));
}

#[test]
fn syntax_errors_in_the_configuration_are_reported() {
    let error = parse_str_with_schema("a = 1\nbroken\n", "a -> integer\n").unwrap_err();
    match error {
        ValidatedLoadError::Config(sysctl_conf::LoadError::Parse(e)) => {
            assert_eq!(e.line(), 2);
            assert_eq!(e.content(), "broken");
        }
        other => panic!("unexpected error {:?}", other),
    }
}

#[test]
fn value_type_names() {
    assert_eq!(ValueType::String.name(), "string");
    assert_eq!(ValueType::Bool.name(), "bool");
    assert_eq!(ValueType::Integer.name(), "integer");
    assert_eq!(ValueType::from_name("bool"), Some(ValueType::Bool));
    assert_eq!(ValueType::from_name("integer"), Some(ValueType::Integer));
    assert_eq!(ValueType::from_name("String"), None);
    assert_eq!("string".parse::<ValueType>(), Ok(ValueType::String));
    assert_eq!("number".parse::<ValueType>(), Err(()));
}

#[test]
fn string_schema_reads_like_no_schema() {
    let input = "a.b = 1\nc = x y\n";
    let plain = sysctl_conf::parse_str(input).unwrap();
    let checked = parse_str_with_schema(input, "a.b -> string\nc -> string\n").unwrap();
    assert_eq!(
        value_at(&checked, &["a", "b"]).unwrap().as_str(),
        value_at(&plain, &["a", "b"]).unwrap().as_str()
    );
    assert_eq!(value_at(&checked, &["c"]).unwrap().as_str(), Some("x y"));
    assert_eq!(checked.len(), plain.len());
    let error = parse_str_with_schema("c = 1\n  oops\n", "c -> string\n").unwrap_err();
    match error {
        ValidatedLoadError::Config(sysctl_conf::LoadError::Parse(e)) => {
            assert_eq!(e, sysctl_conf::parse_str("c = 1\n  oops\n").unwrap_err());
            assert_eq!(e.content(), "  oops");
        }
        other => panic!("unexpected error {:?}", other),
    }
}
