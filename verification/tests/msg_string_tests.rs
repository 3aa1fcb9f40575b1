use path_monitor::msg_string::MsgString;

#[test]
fn empty_constructor() {
    let input = MsgString::empty();

    assert_eq!(input.as_str(), "");
}

#[test]
fn escaping() {
    let input = MsgString::from_unescaped(r#""Inside double quotes""#);

    let expected = r#"\"Inside double quotes\""#;

    assert_eq!(input.as_str(), expected);
}

#[test]
fn not_escaping() {
    let original = r#"\"Inside double quotes\""#;

    let input = MsgString::from_escaped(original);

    assert_eq!(input.as_str(), original);
}
