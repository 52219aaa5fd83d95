use sysctl_conf::{parse_str, SysctlMap, SysctlValue};

fn value_at<'a>(map: &'a SysctlMap, path: &[&str]) -> Option<&'a SysctlValue> {
    let mut current = map.get(path[0])?;
    for key in &path[1..] {
        current = current.get(key)?;
    }
    Some(current)
}

fn text_at<'a>(map: &'a SysctlMap, path: &[&str]) -> Option<&'a str> {
    value_at(map, path)?.as_str()
}

#[test]
fn parses_normal_sysctl_syntax() {
    let parsed = parse_str(
        "# settings\nnet.ipv4.ip_forward = 1\nvm.swappiness 10\nkernel.domainname = example.local\n",
    )
    .unwrap();
    assert_eq!(parsed.len(), 3);
    assert_eq!(text_at(&parsed, &["net", "ipv4", "ip_forward"]), Some("1"));
    assert_eq!(text_at(&parsed, &["vm", "swappiness"]), Some("10"));
    assert_eq!(text_at(&parsed, &["kernel", "domainname"]), Some("example.local"));
}

#[test]
fn later_values_overwrite_earlier_values() {
    let parsed = parse_str("vm.swappiness = 60\nvm.swappiness = 5\n").unwrap();
    assert_eq!(text_at(&parsed, &["vm", "swappiness"]), Some("5"));
}

#[test]
fn accepts_error_suppression_prefix() {
    let parsed = parse_str("-net.ipv6.conf.all.disable_ipv6 = 1\n").unwrap();
    assert_eq!(
        text_at(&parsed, &["net", "ipv6", "conf", "all", "disable_ipv6"]),
        Some("1")
    );
}

#[test]
fn preserves_spaces_and_comment_characters_in_values() {
    let parsed = parse_str("kernel.domainname = example # value\n").unwrap();
    assert_eq!(text_at(&parsed, &["kernel", "domainname"]), Some("example # value"));
}

#[test]
fn dotted_keys_create_nested_maps() {
    let parsed = parse_str(
        "endpoint = localhost:3000\nlog.file = /var/log/console.log\nlog.name = default.log\n",
    )
    .unwrap();
    assert_eq!(text_at(&parsed, &["endpoint"]), Some("localhost:3000"));
    assert_eq!(text_at(&parsed, &["log", "file"]), Some("/var/log/console.log"));
    assert_eq!(text_at(&parsed, &["log", "name"]), Some("default.log"));
    assert!(parsed.get("log.file").is_none());
}

#[test]
fn reports_invalid_line_number_and_content() {
    let error = parse_str("ok.key = value\ninvalid\n").unwrap_err();
    assert_eq!(error.line(), 2);
    assert_eq!(error.content(), "invalid");
}

#[test]
fn empty_input_gives_no_settings() {
    let parsed = parse_str("").unwrap();
    assert_eq!(parsed.len(), 0);
    let parsed = parse_str("\n\n   \n# only comments\n; here too\n").unwrap();
    assert_eq!(parsed.len(), 0);
}

#[test]
fn last_line_without_line_feed_is_read() {
    let parsed = parse_str("a = 1\nb = 2").unwrap();
    assert_eq!(text_at(&parsed, &["b"]), Some("2"));
    assert_eq!(parsed.len(), 2);
}

#[test]
fn carriage_returns_are_trimmed() {
    let parsed = parse_str("a.b = 1\r\nc = two words \r\n").unwrap();
    assert_eq!(text_at(&parsed, &["a", "b"]), Some("1"));
    assert_eq!(text_at(&parsed, &["c"]), Some("two words"));
}

#[test]
fn equals_sign_splits_before_white_space() {
    let parsed = parse_str("key with space = value = more\n").unwrap();
    assert_eq!(text_at(&parsed, &["key with space"]), Some("value = more"));
}

#[test]
fn white_space_splits_when_there_is_no_equals_sign() {
    let parsed = parse_str("vm.swappiness\t  10 20\n").unwrap();
    assert_eq!(text_at(&parsed, &["vm", "swappiness"]), Some("10 20"));
}

#[test]
fn unicode_white_space_is_trimmed() {
    let parsed = parse_str("\u{3000}a\u{a0}=\u{2003}b\u{85}\n").unwrap();
    assert_eq!(text_at(&parsed, &["a"]), Some("b"));
    let parsed = parse_str("x\u{2009}y\n").unwrap();
    assert_eq!(text_at(&parsed, &["x"]), Some("y"));
}

#[test]
fn error_suppression_prefix_is_dropped_with_following_space() {
    let parsed = parse_str("-   kernel.x = 3\n").unwrap();
    assert_eq!(text_at(&parsed, &["kernel", "x"]), Some("3"));
}

#[test]
fn empty_key_or_value_is_malformed() {
    let error = parse_str("a = 1\n = value\n").unwrap_err();
    assert_eq!(error.line(), 2);
    assert_eq!(error.content(), " = value");
    let error = parse_str("key =   \n").unwrap_err();
    assert_eq!(error.line(), 1);
    assert_eq!(error.content(), "key =   ");
    let error = parse_str("-\n").unwrap_err();
    assert_eq!(error.content(), "-");
}

#[test]
fn error_content_is_the_whole_line() {
    let error = parse_str("# fine\n\n  - lonely  \n").unwrap_err();
    assert_eq!(error.line(), 3);
    assert_eq!(error.content(), "  - lonely  ");
}

#[test]
fn error_content_drops_only_the_line_terminator() {
    let error = parse_str("a = 1\r\n\tbad \r\nc = 2\n").unwrap_err();
    assert_eq!(error.line(), 2);
    assert_eq!(error.content(), "\tbad ");
    let error = parse_str("a = 1\nbad\r").unwrap_err();
    assert_eq!(error.line(), 2);
    assert_eq!(error.content(), "bad\r");
    let error = parse_str("bad\r\r\n").unwrap_err();
    assert_eq!(error.content(), "bad\r");
}

#[test]
fn first_malformed_line_is_reported() {
    let error = parse_str("bad1\nbad2\n").unwrap_err();
    assert_eq!(error.line(), 1);
    assert_eq!(error.content(), "bad1");
}

#[test]
fn setting_replaces_a_table_and_table_replaces_a_setting() {
    let parsed = parse_str("a.b = 1\na.c = 2\na = 3\n").unwrap();
    assert_eq!(text_at(&parsed, &["a"]), Some("3"));
    assert!(parsed.get("a").unwrap().get("b").is_none());
    let parsed = parse_str("a = 3\na.b = 1\n").unwrap();
    assert_eq!(text_at(&parsed, &["a", "b"]), Some("1"));
    assert!(parsed.get("a").unwrap().as_str().is_none());
}

#[test]
fn settings_under_other_keys_are_kept() {
    let parsed = parse_str("a.b = 1\na.c = 2\na.b = 9\n").unwrap();
    assert_eq!(text_at(&parsed, &["a", "b"]), Some("9"));
    assert_eq!(text_at(&parsed, &["a", "c"]), Some("2"));
    assert_eq!(parsed.get("a").unwrap().as_table().unwrap().len(), 2);
}

#[test]
fn empty_key_parts_are_keys_too() {
    let parsed = parse_str("a..b = 1\n.c = 2\n").unwrap();
    assert_eq!(text_at(&parsed, &["a", "", "b"]), Some("1"));
    assert_eq!(text_at(&parsed, &["", "c"]), Some("2"));
    assert!(parsed.contains_key(""));
    assert!(!parsed.contains_key("c"));
}

#[test]
fn lines_can_be_read_one_at_a_time() {
    let mut map = SysctlMap::new();
    map.read_line("net.core.somaxconn = 1024", 1).unwrap();
    map.read_line("", 2).unwrap();
    let error = map.read_line("oops", 3).unwrap_err();
    assert_eq!(error.line(), 3);
    assert_eq!(error.content(), "oops");
    assert_eq!(text_at(&map, &["net", "core", "somaxconn"]), Some("1024"));
    assert_eq!(map.len(), 1);
}

#[test]
fn entries_are_listed_in_order_of_first_appearance() {
    let parsed = parse_str("b = 1\na.x = 2\nb = 3\n").unwrap();
    let (key, value) = parsed.entry_at(0);
    assert_eq!(key, "b");
    assert_eq!(value.as_str(), Some("3"));
    let (key, value) = parsed.entry_at(1);
    assert_eq!(key, "a");
    assert!(value.as_table().is_some());
}

#[test]
fn only_unicode_white_space_separates_key_and_value() {
    let white = [
        '\u{9}', '\u{a}', '\u{b}', '\u{c}', '\u{d}', ' ', '\u{85}', '\u{a0}', '\u{1680}',
        '\u{2000}', '\u{2005}', '\u{200a}', '\u{2028}', '\u{2029}', '\u{202f}', '\u{205f}',
        '\u{3000}',
    ];
    for c in white {
        if c == '\n' {
            continue;
        }
        let parsed = parse_str(&format!("k{}v\n", c)).unwrap();
        assert_eq!(text_at(&parsed, &["k"]), Some("v"));
    }
    for c in ['\u{180e}', '\u{200b}', '\u{feff}', '_'] {
        let line = format!("k{}v", c);
        let error = parse_str(&format!("{}\n", line)).unwrap_err();
        assert_eq!(error.content(), line);
    }
}

#[test]
fn blank_first_line_moves_errors_down() {
    let parsed = parse_str("  # header\r\na.b = 1\n").unwrap();
    assert_eq!(text_at(&parsed, &["a", "b"]), Some("1"));
    let error = parse_str(";\nx = 1\nbad\n").unwrap_err();
    assert_eq!(error.line(), 3);
    let error = parse_str("x = 1\nbad\n").unwrap_err();
    assert_eq!(error.line(), 2);
}
