use keez::cli::Keez;
use keez::cli::KeezCommand;
use keez::cli::OperationMode;
use keez::parameter_store::Parameter;
use keez::parameter_store::ParameterCollection;
use keez::parameter_store::ParameterError;
use keez::parameter_store::ParameterType;
use keez::parameter_store::RawParameter;
use keez::parameter_store::check_path;
use keez::parameter_store::diff;
use keez::parameter_store::get_parameters_by_path;
use keez::parameter_store::reroot_parameters;

fn param(value: &str, tag: &str) -> Parameter {
    Parameter::new(String::from(value), String::from(tag))
}

fn collection(prefix: &str, entries: &[(&str, &str, &str)]) -> ParameterCollection {
    let mut c = ParameterCollection::new(String::from(prefix));
    for (key, value, tag) in entries {
        c.insert(String::from(*key), param(value, tag));
    }
    c
}

#[test]
fn type_tags_round_trip() {
    assert_eq!(ParameterType::PlainText.tag(), "String");
    assert_eq!(ParameterType::Encrypted.tag(), "SecureString");
    assert_eq!(ParameterType::List.tag(), "StringList");
    assert!(matches!(ParameterType::from_str("String"), Ok(ParameterType::PlainText)));
    assert!(matches!(
        ParameterType::from_str("SecureString"),
        Ok(ParameterType::Encrypted)
    ));
    assert!(matches!(ParameterType::from_str("StringList"), Ok(ParameterType::List)));
}

#[test]
fn type_tag_unknown_is_rejected() {
    match ParameterType::from_str("IntegerList") {
        Err(ParameterError::InvalidParameterType(s)) => assert_eq!(s, "IntegerList"),
        other => panic!("expected InvalidParameterType, got {:?}", other),
    }
}

#[test]
fn parameter_carries_value_and_type() {
    let p = param("hunter2", "SecureString");
    assert_eq!(p.value().as_str(), "hunter2");
    assert_eq!(p.parameter_type(), ParameterType::Encrypted);
}

#[test]
fn path_with_leading_slash_passes() {
    assert!(check_path("/foo/bar").is_ok());
}

#[test]
fn path_without_leading_slash_fails() {
    match check_path("foo/bar") {
        Err(ParameterError::InvalidPathPrefix(reason)) => {
            assert_eq!(reason, "must begin with slash")
        },
        other => panic!("expected InvalidPathPrefix, got {:?}", other),
    }
}

#[test]
fn path_with_trailing_slash_fails() {
    match check_path("/foo/bar/") {
        Err(ParameterError::InvalidPathPrefix(reason)) => {
            assert_eq!(reason, "must not have a trailing slash")
        },
        other => panic!("expected InvalidPathPrefix, got {:?}", other),
    }
}

#[test]
fn path_needs_word_character_after_slash() {
    assert!(check_path("/a").is_ok());
    assert!(check_path("/_x").is_ok());
    assert!(check_path("/.x").is_ok());
    assert!(check_path("/-x").is_ok());
    assert!(check_path("//x").is_err());
    assert!(check_path("/").is_err());
    assert!(check_path("").is_err());
}

#[test]
fn reroot_moves_every_key_under_destination() {
    let source = collection(
        "/preprod",
        &[("/preprod/a", "1", "String"), ("/preprod/b", "2", "String")],
    );
    let rerooted = reroot_parameters(source, String::from("/prod/x")).unwrap();
    let expected = collection(
        "/prod/x",
        &[("/prod/x/a", "1", "String"), ("/prod/x/b", "2", "String")],
    );
    assert_eq!(rerooted, expected);
}

#[test]
fn reroot_keeps_values_and_types() {
    let source = collection("/app", &[("/app/secret", "s3cret", "SecureString")]);
    let rerooted = reroot_parameters(source, String::from("/other")).unwrap();
    let entries = rerooted.parameters();
    assert_eq!(entries.len(), 1);
    assert_eq!(entries[0].0, "/other/secret");
    assert_eq!(entries[0].1.value().as_str(), "s3cret");
    assert_eq!(entries[0].1.parameter_type(), ParameterType::Encrypted);
}

#[test]
fn reroot_fails_on_key_outside_prefix() {
    let source = collection("/a", &[("/a/x", "1", "String"), ("/b/y", "2", "String")]);
    match reroot_parameters(source, String::from("/c")) {
        Err(ParameterError::PrefixMismatch(key)) => assert_eq!(key, "/b/y"),
        other => panic!("expected PrefixMismatch, got {:?}", other),
    }
}

#[test]
fn reroot_fails_on_invalid_destination() {
    let source = collection("/a", &[("/a/x", "1", "String")]);
    assert!(matches!(
        reroot_parameters(source, String::from("no-slash")),
        Err(ParameterError::InvalidPathPrefix(_))
    ));
    let source2 = collection("/a", &[("/a/x", "1", "String")]);
    assert!(matches!(
        reroot_parameters(source2, String::from("/trailing/")),
        Err(ParameterError::InvalidPathPrefix(_))
    ));
}

#[test]
fn insert_overwrites_existing_key_in_place() {
    let mut c = ParameterCollection::new(String::from("/p"));
    c.insert(String::from("/p/k"), param("first", "String"));
    c.insert(String::from("/p/other"), param("kept", "String"));
    c.insert(String::from("/p/k"), param("second", "SecureString"));
    let entries = c.parameters();
    assert_eq!(entries.len(), 2);
    assert_eq!(entries[0].0, "/p/k");
    assert_eq!(entries[0].1.value().as_str(), "second");
    assert_eq!(entries[0].1.parameter_type(), ParameterType::Encrypted);
    assert_eq!(entries[1].0, "/p/other");
}

#[test]
fn get_finds_present_keys_only() {
    let c = collection("/p", &[("/p/a", "1", "String")]);
    assert_eq!(c.get("/p/a"), Some(&param("1", "String")));
    assert_eq!(c.get("/p/missing"), None);
}

#[test]
fn diff_reports_changed_value() {
    let original = collection("/x", &[("/k", "v1", "String")]);
    let edited = collection("/x", &[("/k", "v2", "String")]);
    let updates = diff(&original, &edited).unwrap();
    assert_eq!(updates.len(), 1);
    assert_eq!(updates[0].0, "/k");
    assert_eq!(updates[0].1.value().as_str(), "v2");
    assert_eq!(updates[0].1.parameter_type(), ParameterType::PlainText);
}

#[test]
fn diff_reports_changed_type() {
    let original = collection("/x", &[("/k", "v", "String")]);
    let edited = collection("/x", &[("/k", "v", "SecureString")]);
    let updates = diff(&original, &edited).unwrap();
    assert_eq!(updates.len(), 1);
    assert_eq!(updates[0].1.parameter_type(), ParameterType::Encrypted);
}

#[test]
fn diff_omits_unchanged_keys() {
    let original = collection("/x", &[("/a", "1", "String"), ("/b", "2", "String")]);
    let edited = collection("/x", &[("/a", "1", "String"), ("/b", "3", "String")]);
    let updates = diff(&original, &edited).unwrap();
    assert_eq!(updates.len(), 1);
    assert_eq!(updates[0].0, "/b");
    assert_eq!(updates[0].1.value().as_str(), "3");
}

#[test]
fn diff_fails_on_new_key() {
    let original = collection("/x", &[("/k", "v", "String")]);
    let edited = collection("/x", &[("/k", "v", "String"), ("/new", "n", "String")]);
    match diff(&original, &edited) {
        Err(ParameterError::NonexistentKey(key)) => assert_eq!(key, "/new"),
        other => panic!("expected NonexistentKey, got {:?}", other),
    }
}

#[test]
fn diff_ignores_deleted_keys() {
    let original = collection("/x", &[("/a", "1", "String"), ("/b", "2", "String")]);
    let edited = collection("/x", &[("/a", "changed", "String")]);
    let updates = diff(&original, &edited).unwrap();
    assert_eq!(updates.len(), 1);
    assert_eq!(updates[0].0, "/a");
}

#[test]
fn diff_of_identical_collections_is_empty() {
    let original = collection("/x", &[("/a", "1", "String"), ("/b", "2", "String")]);
    let edited = collection("/x", &[("/a", "1", "String"), ("/b", "2", "String")]);
    assert_eq!(diff(&original, &edited).unwrap().len(), 0);
}

#[test]
fn raw_records_become_a_collection() {
    let raws = vec![
        RawParameter {
            name: String::from("/q/a"),
            value: String::from("1"),
            type_tag: String::from("String"),
        },
        RawParameter {
            name: String::from("/q/b"),
            value: String::from("2"),
            type_tag: String::from("StringList"),
        },
    ];
    let c = get_parameters_by_path(String::from("/q"), raws).unwrap();
    assert_eq!(c.prefix().as_str(), "/q");
    let expected = collection("/q", &[("/q/a", "1", "String"), ("/q/b", "2", "StringList")]);
    assert_eq!(c, expected);
}

#[test]
fn raw_records_with_repeated_name_keep_the_last() {
    let raws = vec![
        RawParameter {
            name: String::from("/q/a"),
            value: String::from("old"),
            type_tag: String::from("String"),
        },
        RawParameter {
            name: String::from("/q/a"),
            value: String::from("new"),
            type_tag: String::from("String"),
        },
    ];
    let c = get_parameters_by_path(String::from("/q"), raws).unwrap();
    let entries = c.parameters();
    assert_eq!(entries.len(), 1);
    assert_eq!(entries[0].1.value().as_str(), "new");
}

#[test]
fn collections_compare_by_contents() {
    let a = collection("/p", &[("/p/a", "1", "String")]);
    let b = collection("/p", &[("/p/a", "1", "String")]);
    let c = collection("/p", &[("/p/a", "2", "String")]);
    let d = collection("/q", &[("/p/a", "1", "String")]);
    assert_eq!(a, b);
    assert_ne!(a, c);
    assert_ne!(a, d);
}

#[test]
fn dry_run_selects_read_only_mode() {
    let args = Keez::new(true, false, KeezCommand::Create {});
    assert_eq!(*args.operation_mode(), OperationMode::ReadOnly);
    assert_eq!(*args.debug(), false);
}

#[test]
fn default_mode_is_read_write() {
    let args = Keez::new(
        false,
        true,
        KeezCommand::Edit { prefix: String::from("/p") },
    );
    assert_eq!(*args.operation_mode(), OperationMode::ReadWrite);
    assert_eq!(*args.debug(), true);
    match args.cmd() {
        KeezCommand::Edit { prefix } => assert_eq!(prefix, "/p"),
        other => panic!("expected Edit, got {:?}", other),
    }
}

#[test]
fn error_messages_name_the_problem() {
    let e = ParameterType::from_str("Bogus").unwrap_err();
    assert_eq!(e.message(), "invalid parameter store parameter type: Bogus");
    let e2 = check_path("nope").unwrap_err();
    assert_eq!(e2.message(), "invalid path prefix: must begin with slash");
}

#[test]
fn fetched_records_reroot_and_reconcile() {
    let raws = vec![
        RawParameter {
            name: String::from("/preprod/db"),
            value: String::from("host=old"),
            type_tag: String::from("String"),
        },
        RawParameter {
            name: String::from("/preprod/token"),
            value: String::from("t0"),
            type_tag: String::from("SecureString"),
        },
    ];
    let fetched = get_parameters_by_path(String::from("/preprod"), raws).unwrap();
    let rerooted = reroot_parameters(fetched, String::from("/prod")).unwrap();
    let expected = collection(
        "/prod",
        &[("/prod/db", "host=old", "String"), ("/prod/token", "t0", "SecureString")],
    );
    assert_eq!(rerooted, expected);

    let mut edited = expected.clone();
    edited.insert(String::from("/prod/db"), param("host=new", "String"));
    let updates = diff(&rerooted, &edited).unwrap();
    assert_eq!(updates.len(), 1);
    assert_eq!(updates[0].0, "/prod/db");
    assert_eq!(updates[0].1.value().as_str(), "host=new");
}

#[test]
fn raw_records_with_a_bad_tag_fail_the_snapshot() {
    let raws = vec![
        RawParameter {
            name: String::from("/q/good"),
            value: String::from("1"),
            type_tag: String::from("String"),
        },
        RawParameter {
            name: String::from("/q/bad"),
            value: String::from("2"),
            type_tag: String::from("Integer"),
        },
    ];
    match get_parameters_by_path(String::from("/q"), raws) {
        Err(ParameterError::InvalidParameterType(tag)) => assert_eq!(tag, "Integer"),
        other => panic!("expected InvalidParameterType, got {:?}", other),
    }
}

#[test]
fn raw_records_with_an_absent_tag_fail_the_snapshot() {
    let raws = vec![RawParameter {
        name: String::from("/q/a"),
        value: String::from("1"),
        type_tag: String::new(),
    }];
    match get_parameters_by_path(String::from("/q"), raws) {
        Err(ParameterError::InvalidParameterType(tag)) => assert_eq!(tag, ""),
        other => panic!("expected InvalidParameterType, got {:?}", other),
    }
}
