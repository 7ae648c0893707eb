use steam_core::vdf::{dump, parse, VdfObject, VdfValue};

const SAMPLE: &str = r#"
// steam login cache
"users"
{
	"76561198000000001"
	{
		"AccountName"		"first-account"
		"PersonaName"		"First \"Nickname\""
		"MostRecent"		"1"
		"Timestamp"		"1700000000"
	}
	"76561198000000002"
	{
		"AccountName"		"second-account"
		"PersonaName"		"Second"
		"MostRecent"		"0"
	}
}
"#;

#[test]
fn parses_nested_objects_and_escapes() {
    let root = parse(SAMPLE).expect("sample parses");
    let users = root.get_object("users").expect("users object");
    assert_eq!(users.len(), 2);

    let first = users
        .get_object("76561198000000001")
        .expect("first account");
    assert_eq!(first.get_str("AccountName"), Some("first-account"));
    assert_eq!(first.get_str("PersonaName"), Some("First \"Nickname\""));
    assert_eq!(first.get_str("mostrecent"), Some("1"));
}

#[test]
fn round_trips_through_dump_and_parse() {
    let root = parse(SAMPLE).expect("sample parses");
    let reparsed = parse(&dump(&root)).expect("dumped file parses");
    assert_eq!(root, reparsed);
}

#[test]
fn insert_keeps_existing_key_spelling_and_order() {
    let mut object = VdfObject::new();
    object.set_string("AutoLoginUser", "first");
    object.set_string("Other", "value");
    object.set_string("autologinuser", "second");

    let keys: Vec<&str> = object.keys();
    assert_eq!(keys, vec!["AutoLoginUser", "Other"]);
    assert_eq!(object.get_str("AUTOLOGINUSER"), Some("second"));
}

#[test]
fn path_mut_creates_missing_branches() {
    let mut root = VdfObject::new();
    {
        let steam = root
            .path_mut(&["Registry", "HKCU", "Software", "Valve", "Steam"], true)
            .expect("path is created");
        steam.set_string("AutoLoginUser", "player");
    }

    assert!(root.path_mut(&["Registry", "HKLM"], false).is_none());
    assert_eq!(
        root.path(&["Registry", "HKCU", "Software", "Valve", "Steam"])
            .and_then(|steam| steam.get_str("AutoLoginUser")),
        Some("player")
    );
}

#[test]
fn reports_unterminated_strings() {
    let error = parse("\"users\"\n{\n\t\"broken\"\t\"value\n}\n").unwrap_err();
    assert!(error.to_string().contains("unterminated"));
}

#[test]
fn removes_case_insensitively() {
    let mut object = VdfObject::new();
    object.set_string("MostRecent", "1");
    assert_eq!(
        object.remove("mostrecent"),
        Some(VdfValue::String("1".into()))
    );
    assert!(object.is_empty());
}

#[test]
fn dump_writes_tabs_quotes_and_escapes() {
    let mut root = VdfObject::new();
    root.ensure_object("users").set_string("Name", "a \"b\" \\ c");
    assert_eq!(
        dump(&root),
        "\"users\"\n{\n\t\"Name\"\t\t\"a \\\"b\\\" \\\\ c\"\n}\n"
    );
}

#[test]
fn dump_then_parse_gives_the_same_object_back() {
    let mut root = VdfObject::new();
    root.set_string("Top", "value");
    let nested = root.ensure_object("Nested");
    nested.set_string("Inner", "line\nbreak\ttab");
    nested.ensure_object("Empty");
    let reparsed = parse(&dump(&root)).expect("dumped text parses");
    assert_eq!(root, reparsed);
}

#[test]
fn a_later_duplicate_key_replaces_the_earlier_value() {
    let root = parse("\"a\" \"1\"\n\"A\" \"2\"\n").expect("parses");
    assert_eq!(root.len(), 1);
    assert_eq!(root.keys(), vec!["a"]);
    assert_eq!(root.get_str("a"), Some("2"));
}

#[test]
fn error_reports_the_byte_offset() {
    let error = parse("\"key\"").unwrap_err();
    assert!(error.message.contains("missing value"));
    assert_eq!(error.to_string(), format!("invalid KeyValues data at byte {}: {}", error.offset, error.message));
}

#[test]
fn a_brace_where_a_key_is_expected_is_refused() {
    let error = parse("{ }").unwrap_err();
    assert_eq!(error.offset, 0);
    assert_eq!(error.message, "unexpected '{' where a key was expected");
}

#[test]
fn comments_and_bare_words_are_accepted() {
    let root = parse("// comment\nkey value\n\"other\" { inner \"x\" }\n").expect("parses");
    assert_eq!(root.get_str("key"), Some("value"));
    assert_eq!(root.path(&["other"]).and_then(|o| o.get_str("inner")), Some("x"));
}

#[test]
fn values_are_texts_or_objects() {
    let root = parse(SAMPLE).expect("sample parses");
    let users = root.get("users").expect("users");
    assert!(users.is_object());
    assert!(users.as_str().is_none());
    let entries = root.get_object("users").unwrap().iter();
    assert_eq!(entries.len(), 2);
    assert_eq!(entries[0].0, "76561198000000001");
    assert!(entries[1].1.as_object().is_some());
}

#[test]
fn get_mut_changes_the_stored_value() {
    let mut root = VdfObject::new();
    root.set_string("k", "v");
    if let Some(value) = root.get_mut("K") {
        *value = VdfValue::String("w".to_string());
    }
    assert_eq!(root.get_str("k"), Some("w"));
    assert!(root.get_object_mut("k").is_none());
}

#[test]
fn a_longer_path_walks_one_object_further() {
    let mut root = parse("\"A\" { \"B\" { \"C\" { \"x\" \"1\" } \"t\" \"text\" } }").expect("parses");
    assert!(root.path(&[]).is_some());
    let parent = root.path(&["a", "b"]).expect("parent");
    assert_eq!(parent.get_object("c").map(|c| c.len()), root.path(&["A", "B", "C"]).map(|c| c.len()));
    assert!(root.path(&["A", "B", "t"]).is_none());
    let before = dump(&root);
    assert!(root.path_mut(&["a", "B", "c"], false).is_some());
    assert!(root.path_mut(&["A", "missing"], false).is_none());
    assert_eq!(dump(&root), before);
    assert_eq!(VdfValue::String("x".to_string()).as_str(), Some("x"));
    assert_eq!(VdfValue::Object(VdfObject::new()).as_str(), None);
}

#[test]
fn objects_clone_deeply_and_default_to_empty() {
    let root = parse("\"A\" { \"B\" { \"x\" \"1\" } \"t\" \"text\" }").expect("parses");
    let copy = root.clone();
    assert_eq!(copy, root);
    assert_eq!(dump(&copy), dump(&root));
    assert!(VdfObject::default().is_empty());
}
