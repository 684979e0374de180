use ash::modinfo::{ModuleInfo, ModuleInfoSet, RecordError};

const MODULE_BAR_JSON: &'static str = r#"{
        "installed": [],
        "module_name": "bar",
        "path": ["path/to/bar"]
    }"#;

const MODULE_FOO_JSON: &'static str = r#"{
        "installed": [
            "out/target/foo.apk",
            "out/target/foo.so"
        ],
        "module_name": "foo",
        "path": ["path/to/foo"]
    }"#;

const SCENARIO: &str = "{\n  \"bar\": {\"installed\":[],\"module_name\":\"bar\",\"path\":[\"path/to/bar\"]},\n  \"foo\": {\"installed\":[\"out/target/foo.apk\",\"out/target/foo.so\"],\"module_name\":\"foo\",\"path\":[\"path/to/foo\"]}\n }";

#[test]
fn test_moduleinfo_from_json() {
    let info = ModuleInfo::try_from(MODULE_FOO_JSON).unwrap();
    assert_eq!(info.module_name, "foo");
    assert_eq!(info.path.len(), 1);
    assert_eq!(info.installed.len(), 2);
}

#[test]
fn test_moduleinfoset_from_json() {
    let json = format!(
        "{{\n  \"bar\": {},\n  \"foo\": {}\n }}",
        MODULE_BAR_JSON.replace("\n", ""),
        MODULE_FOO_JSON.replace("\n", "")
    );
    let modules = ModuleInfoSet::new(json.as_ref());

    let foo = modules.find("foo").unwrap();
    assert_eq!(foo.module_name, "foo");

    let bar = modules.find("bar").unwrap();
    assert_eq!(bar.module_name, "bar");

    assert!(modules.find("does-not-exist").is_none());
}

#[test]
fn scenario_two_entries() {
    let modules = ModuleInfoSet::new(SCENARIO.as_bytes());
    let foo = modules.find("foo").unwrap();
    assert_eq!(foo.module_name, "foo");
    assert_eq!(foo.path.len(), 1);
    assert_eq!(foo.installed.len(), 2);
    assert_eq!(foo.installed[1], "out/target/foo.so");
    let bar = modules.find("bar").unwrap();
    assert_eq!(bar.module_name, "bar");
    assert_eq!(bar.installed.len(), 0);
    assert!(modules.find("does-not-exist").is_none());
}

#[test]
fn literal_is_the_object_without_the_comma() {
    let modules = ModuleInfoSet::new(SCENARIO.as_bytes());
    assert_eq!(
        modules.find_literal("bar"),
        Some("{\"installed\":[],\"module_name\":\"bar\",\"path\":[\"path/to/bar\"]}")
    );
    assert_eq!(
        modules.find_literal("foo"),
        Some("{\"installed\":[\"out/target/foo.apk\",\"out/target/foo.so\"],\"module_name\":\"foo\",\"path\":[\"path/to/foo\"]}")
    );
}

#[test]
fn literal_same_with_or_without_trailing_comma() {
    let with = ModuleInfoSet::new(b"{\n  \"a\": {\"x\": 1},\n  \"b\": {}\n }");
    let without = ModuleInfoSet::new(b"{\n  \"b\": {\"x\": 1}\n }");
    assert_eq!(with.find_literal("a"), Some("{\"x\": 1}"));
    assert_eq!(without.find_literal("b"), Some("{\"x\": 1}"));
}

#[test]
fn repeated_lookups_agree() {
    let modules = ModuleInfoSet::new(SCENARIO.as_bytes());
    let first = modules.find("foo").unwrap();
    let second = modules.find("foo").unwrap();
    assert_eq!(first.module_name, second.module_name);
    assert_eq!(first.path, second.path);
    assert_eq!(first.installed, second.installed);
}

#[test]
fn empty_document_and_empty_key_find_nothing() {
    let empty = ModuleInfoSet::new(b"");
    assert!(empty.find("foo").is_none());
    assert!(empty.find("").is_none());
    let short = ModuleInfoSet::new(b"{}");
    assert!(short.find("foo").is_none());
    let framed = ModuleInfoSet::new(b"{\n }");
    assert!(framed.find("foo").is_none());
    let modules = ModuleInfoSet::new(SCENARIO.as_bytes());
    assert!(modules.find("").is_none());
}

#[test]
fn lookup_over_many_entries() {
    let mut text = String::from("{\n");
    let names: Vec<String> = (0..50).map(|i| format!("m{:03}", i)).collect();
    for (k, name) in names.iter().enumerate() {
        let comma = if k + 1 < names.len() { "," } else { "" };
        text.push_str(&format!(
            "  \"{}\": {{\"installed\":[],\"module_name\":\"{}\",\"path\":[\"p/{}\"]}}{}\n",
            name, name, name, comma
        ));
    }
    text.push_str(" }");
    let modules = ModuleInfoSet::new(text.as_bytes());
    for name in &names {
        let info = modules.find(name).unwrap();
        assert_eq!(&info.module_name, name);
        assert_eq!(info.path[0], format!("p/{}", name));
    }
    assert!(modules.find("m050").is_none());
    assert!(modules.find("a").is_none());
    assert!(modules.find("z").is_none());
}

#[test]
fn decoder_ignores_unknown_fields() {
    let info = ModuleInfo::try_from(
        r#"{"class":["APPS"],"installed":["out/x"],"module_name":"x","path":["a/x"],"tags":[]}"#,
    )
    .unwrap();
    assert_eq!(info.module_name, "x");
    assert_eq!(info.path, vec!["a/x".to_string()]);
    assert_eq!(info.installed, vec!["out/x".to_string()]);
}

#[test]
fn decoder_errors() {
    assert_eq!(ModuleInfo::try_from("{").unwrap_err(), RecordError::Syntax);
    assert_eq!(
        ModuleInfo::try_from(r#"{"path":[],"installed":[]}"#).unwrap_err(),
        RecordError::ModuleName
    );
    assert_eq!(
        ModuleInfo::try_from(r#"{"module_name":"a","path":[1],"installed":[]}"#).unwrap_err(),
        RecordError::Path
    );
    assert_eq!(
        ModuleInfo::try_from(r#"{"module_name":"a","path":[]}"#).unwrap_err(),
        RecordError::Installed
    );
}

#[test]
fn from_fields_keeps_the_fields() {
    let info = ModuleInfo::from_fields(
        Some("m".to_string()),
        Some(vec!["p".to_string()]),
        Some(vec![]),
    )
    .unwrap();
    assert_eq!(info.module_name, "m");
    assert_eq!(info.path, vec!["p".to_string()]);
    assert!(info.installed.is_empty());
    assert_eq!(
        ModuleInfo::from_fields(Some("m".to_string()), None, None).unwrap_err(),
        RecordError::Path
    );
}

#[test]
fn line_without_literal_finds_nothing() {
    let modules = ModuleInfoSet::new(b"{\n  \"a\": [1],\n  \"b\": {}\n }");
    assert!(modules.find_literal("a").is_none());
    assert_eq!(modules.find_literal("b"), Some("{}"));
}

#[test]
fn literal_that_is_not_utf8_finds_nothing() {
    let modules = ModuleInfoSet::new(b"{\n  \"a\": {\"x\": \"\xff\"},\n  \"b\": {\"y\": 2}\n }");
    assert!(modules.find_literal("a").is_none());
    assert!(modules.find("a").is_none());
    assert_eq!(modules.find_literal("b"), Some("{\"y\": 2}"));
}

#[test]
fn empty_key_finds_nothing_even_with_an_empty_entry() {
    let modules = ModuleInfoSet::new(b"{\n  \"\": {\"installed\":[],\"module_name\":\"\",\"path\":[]}\n }");
    assert!(modules.find("").is_none());
    assert!(modules.find_literal("").is_none());
}
