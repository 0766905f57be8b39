use keez::codec::FormatError;
use keez::codec::deserialize;
use keez::codec::escape_str;
use keez::codec::serialize;
use keez::codec::unescape_str;
use keez::parameter_store::Parameter;
use keez::parameter_store::ParameterCollection;
use keez::parameter_store::ParameterType;

fn param(value: &str, tag: &str) -> Parameter {
    Parameter::new(String::from(value), String::from(tag))
}

fn collection(prefix: &str, entries: &[(&str, &str, &str)]) -> ParameterCollection {
    let mut c = ParameterCollection::new(String::from(prefix));
    for (key, value, tag) in entries {
        c.insert(String::from(*key), param(value, tag));
    }
    c
}

#[test]
fn serialize_writes_the_documented_layout() {
    let c = collection("/p", &[("/p/a", "1", "String")]);
    let text = serialize(&c);
    assert_eq!(
        text,
        "prefix: /p\nparameters:\n  /p/a:\n    value: 1\n    type: String\n"
    );
}

#[test]
fn serialize_omits_an_empty_prefix() {
    let c = collection("", &[("/a", "x", "SecureString")]);
    let text = serialize(&c);
    assert_eq!(text, "parameters:\n  /a:\n    value: x\n    type: SecureString\n");
}

#[test]
fn serialize_escapes_values() {
    let c = collection("/p", &[("/p/a", "line1\nline2\\end", "String")]);
    let text = serialize(&c);
    assert_eq!(
        text,
        "prefix: /p\nparameters:\n  /p/a:\n    value: line1\\nline2\\\\end\n    type: String\n"
    );
}

#[test]
fn deserialize_reads_the_documented_layout() {
    let text = "prefix: /p\nparameters:\n  /p/a:\n    value: 1\n    type: String\n";
    let c = deserialize(text).unwrap();
    let expected = collection("/p", &[("/p/a", "1", "String")]);
    assert_eq!(c, expected);
}

#[test]
fn deserialize_without_prefix_line_yields_empty_prefix() {
    let text = "parameters:\n  /a:\n    value: x\n    type: StringList\n";
    let c = deserialize(text).unwrap();
    assert_eq!(c.prefix().as_str(), "");
    assert_eq!(c.parameters().len(), 1);
    assert_eq!(c.parameters()[0].1.parameter_type(), ParameterType::List);
}

#[test]
fn round_trip_preserves_collections() {
    let c = collection(
        "/preprod",
        &[
            ("/preprod/plain", "v", "String"),
            ("/preprod/secret", "multi\nline: with \\ tricks\r", "SecureString"),
            ("/preprod/list", "a,b,c", "StringList"),
            ("/preprod/empty", "", "String"),
        ],
    );
    let text = serialize(&c);
    let back = deserialize(text.as_str()).unwrap();
    assert_eq!(back, c);
}

#[test]
fn round_trip_preserves_an_empty_collection() {
    let c = collection("", &[]);
    let back = deserialize(serialize(&c).as_str()).unwrap();
    assert_eq!(back, c);
}

#[test]
fn deserialize_rejects_text_without_final_newline() {
    let text = "prefix: /p\nparameters:\n  /p/a:\n    value: 1\n    type: String";
    assert!(matches!(deserialize(text), Err(FormatError::MissingFinalNewline)));
}

#[test]
fn deserialize_rejects_a_missing_header() {
    assert!(matches!(deserialize(""), Err(FormatError::MissingParametersHeader)));
    assert!(matches!(
        deserialize("something else\n"),
        Err(FormatError::MissingParametersHeader)
    ));
    assert!(matches!(
        deserialize("prefix: /p\nnot the header\n"),
        Err(FormatError::MissingParametersHeader)
    ));
}

#[test]
fn deserialize_rejects_a_bad_escape() {
    let text = "parameters:\n  /a:\n    value: bad\\q\n    type: String\n";
    assert!(matches!(deserialize(text), Err(FormatError::BadEscape)));
}

#[test]
fn deserialize_rejects_a_malformed_key_line() {
    let text = "parameters:\n/a:\n    value: 1\n    type: String\n";
    assert!(matches!(deserialize(text), Err(FormatError::BadKeyLine)));
    let no_colon = "parameters:\n  /a\n    value: 1\n    type: String\n";
    assert!(matches!(deserialize(no_colon), Err(FormatError::BadKeyLine)));
}

#[test]
fn deserialize_rejects_a_malformed_value_line() {
    let text = "parameters:\n  /a:\n    worth: 1\n    type: String\n";
    assert!(matches!(deserialize(text), Err(FormatError::BadValueLine)));
}

#[test]
fn deserialize_rejects_a_malformed_type_line() {
    let text = "parameters:\n  /a:\n    value: 1\n    kind: String\n";
    assert!(matches!(deserialize(text), Err(FormatError::BadTypeLine)));
}

#[test]
fn deserialize_rejects_a_truncated_entry() {
    let text = "parameters:\n  /a:\n    value: 1\n";
    assert!(matches!(deserialize(text), Err(FormatError::IncompleteEntry)));
}

#[test]
fn deserialize_rejects_an_unknown_type_tag() {
    let text = "parameters:\n  /a:\n    value: 1\n    type: Integer\n";
    match deserialize(text) {
        Err(FormatError::InvalidParameterType(tag)) => assert_eq!(tag, "Integer"),
        other => panic!("expected InvalidParameterType, got {:?}", other),
    }
}

#[test]
fn deserialize_keeps_the_last_of_a_repeated_key() {
    let text = "parameters:\n  /a:\n    value: old\n    type: String\n  /a:\n    value: new\n    type: String\n";
    let c = deserialize(text).unwrap();
    assert_eq!(c.parameters().len(), 1);
    assert_eq!(c.parameters()[0].1.value().as_str(), "new");
}

#[test]
fn escape_handles_the_special_characters() {
    assert_eq!(escape_str("plain"), "plain");
    assert_eq!(escape_str("a\\b"), "a\\\\b");
    assert_eq!(escape_str("a\nb"), "a\\nb");
    assert_eq!(escape_str("a\rb"), "a\\rb");
    assert_eq!(unescape_str("a\\\\b"), Some(String::from("a\\b")));
    assert_eq!(unescape_str("a\\nb"), Some(String::from("a\nb")));
    assert_eq!(unescape_str("a\\rb"), Some(String::from("a\rb")));
    assert_eq!(unescape_str("trailing\\"), None);
    assert_eq!(unescape_str("bad\\q"), None);
}

#[test]
fn round_trip_preserves_an_awkward_prefix() {
    let c = collection("/pre\\fix\n", &[("/pre\\fix\n/a", "1", "String")]);
    let back = deserialize(serialize(&c).as_str()).unwrap();
    assert_eq!(back, c);
}
