use ash::config::{check_group_names, parse_envsetup, parse_groups, ModuleGroup};

const ASH_TOML: &str = r#"envsetup = "source build/envsetup.sh\nlunch aosp_x86_64-eng\n"

[[module-group]]
name = ":idmap"
modules = ["idmap2", "idmap2d", "libidmap2"]

[[module-group]]
name = ":adb"
modules = ["adb", "adbd"]
tests = ["adb_test"]
"#;

fn group(name: &str) -> ModuleGroup {
    ModuleGroup { name: name.to_string(), modules: vec!["m".to_string()], tests: None }
}

#[test]
fn test_parse_envsetup() {
    let envsetup = parse_envsetup("tests/ash.toml", ASH_TOML).unwrap();
    let lines = envsetup.lines().collect::<Vec<_>>();
    assert_eq!(lines.len(), 2);
    assert_eq!(lines[0], "source build/envsetup.sh");
    assert_eq!(lines[1], "lunch aosp_x86_64-eng");
}

#[test]
fn test_parse_groups() {
    let groups = parse_groups("tests/ash.toml", ASH_TOML).unwrap();
    assert_eq!(groups.len(), 2);
    let mod1 = groups.iter().find(|item| item.name == ":idmap").unwrap();
    assert_eq!(mod1.modules.len(), 3);
    assert_eq!(mod1.tests, None);
    let mod2 = groups.iter().find(|item| item.name == ":adb").unwrap();
    assert_eq!(mod2.tests, Some(vec!["adb_test".to_string()]));
}

#[test]
fn group_without_sigil_fails() {
    let text = r#"envsetup = "x"

[[module-group]]
name = ":ok"
modules = ["a"]

[[module-group]]
name = "bad"
modules = ["b"]
"#;
    let err = parse_groups("c.toml", text).unwrap_err();
    assert_eq!(err, "bad: module-group.name must begin with ':'");
}

#[test]
fn config_without_groups_has_none() {
    let groups = parse_groups("c.toml", "envsetup = \"x\"\n").unwrap();
    assert!(groups.is_empty());
}

#[test]
fn config_without_envsetup_fails() {
    assert!(parse_envsetup("c.toml", "[[module-group]]\nname = \":a\"\nmodules = []\n").is_err());
}

#[test]
fn config_that_is_not_toml_fails() {
    let err = parse_envsetup("c.toml", "envsetup = ").unwrap_err();
    assert!(err.starts_with("failed to parse config c.toml: "));
}

#[test]
fn group_missing_modules_fails() {
    assert!(parse_groups("c.toml", "envsetup = \"x\"\n[[module-group]]\nname = \":a\"\n").is_err());
}

#[test]
fn check_group_names_keeps_good_groups() {
    let kept = check_group_names(vec![group(":a"), group(":b")]).unwrap();
    assert_eq!(kept.len(), 2);
    assert_eq!(kept[1].name, ":b");
}

#[test]
fn check_group_names_names_first_bad_group() {
    let err = check_group_names(vec![group(":a"), group("b"), group("c")]).unwrap_err();
    assert_eq!(err, "b: module-group.name must begin with ':'");
    let err = check_group_names(vec![group("")]).unwrap_err();
    assert_eq!(err, ": module-group.name must begin with ':'");
}

#[test]
fn deeply_nested_config_is_refused() {
    let text = format!("envsetup = \"x\"\na = {}", "[".repeat(50000));
    assert_eq!(
        parse_envsetup("c.toml", &text).unwrap_err(),
        "failed to parse config c.toml: nested too deeply"
    );
}

#[test]
fn groups_keep_file_order_and_fields() {
    let groups = parse_groups("c.toml", ASH_TOML).unwrap();
    assert_eq!(groups[0].name, ":idmap");
    assert_eq!(groups[0].modules, vec!["idmap2", "idmap2d", "libidmap2"]);
    assert_eq!(groups[1].name, ":adb");
    assert_eq!(groups[1].modules, vec!["adb", "adbd"]);
}

#[test]
fn envsetup_that_is_not_a_string_fails() {
    assert_eq!(
        parse_envsetup("c.toml", "envsetup = 3\n").unwrap_err(),
        "failed to parse config c.toml: envsetup must be a string"
    );
}

#[test]
fn long_dotted_key_is_refused() {
    let text = format!("envsetup = \"x\"\na{} = 1\n", ".a".repeat(100000));
    assert_eq!(
        parse_envsetup("c.toml", &text).unwrap_err(),
        "failed to parse config c.toml: nested too deeply"
    );
    let header = format!("envsetup = \"x\"\n[a{}]\n", ".a".repeat(100000));
    assert!(parse_groups("c.toml", &header).is_err());
}

#[test]
fn many_groups_are_accepted() {
    let mut text = String::from("envsetup = \"source build/envsetup.sh\"\n");
    for i in 0..400 {
        text.push_str(&format!(
            "\n[[module-group]]\nname = \":g{}\"\nmodules = [\"m{}\", \"n[{}]\"]\n",
            i, i, i
        ));
    }
    let groups = parse_groups("c.toml", &text).unwrap();
    assert_eq!(groups.len(), 400);
    assert_eq!(groups[399].name, ":g399");
    assert_eq!(groups[7].modules[1], "n[7]");
}

#[test]
fn brackets_in_strings_and_comments_do_not_count() {
    let text = format!(
        "envsetup = \"{}\" # {}\nx = '''{}'''\n",
        "[".repeat(100),
        "{".repeat(100),
        "[".repeat(100)
    );
    assert_eq!(parse_envsetup("c.toml", &text).unwrap(), "[".repeat(100));
}

#[test]
fn groups_error_matches_envsetup_error() {
    let text = "envsetup = 3\n";
    assert_eq!(
        parse_groups("c.toml", text).unwrap_err(),
        parse_envsetup("c.toml", text).unwrap_err()
    );
}
