use ash::config::{config_path, find_default_config_file, parent_dir};

#[test]
fn test_find_default_config_file() {
    let existing = vec!["tests/ash.toml".to_string()];
    assert!(find_default_config_file("tests", &existing).is_ok());
    assert!(find_default_config_file("/", &existing).is_err());
}

#[test]
fn config_file_found_in_nearest_ancestor() {
    let existing = vec!["/a/ash.toml".to_string(), "/ash.toml".to_string()];
    assert_eq!(find_default_config_file("/a/b/c", &existing).unwrap(), "/a/ash.toml");
    assert_eq!(find_default_config_file("/x/y/", &existing).unwrap(), "/ash.toml");
    assert_eq!(find_default_config_file("tests", &vec![]).unwrap_err(), "ash.toml not found");
    assert_eq!(
        find_default_config_file("tests", &vec!["ash.toml".to_string()]).unwrap(),
        "ash.toml"
    );
}

#[test]
fn parents_of_paths() {
    assert_eq!(parent_dir("/a/b"), Some("/a".to_string()));
    assert_eq!(parent_dir("/a/b/"), Some("/a".to_string()));
    assert_eq!(parent_dir("/a"), Some("/".to_string()));
    assert_eq!(parent_dir("a"), Some("".to_string()));
    assert_eq!(parent_dir("a//b"), Some("a".to_string()));
    assert_eq!(parent_dir("/"), None);
    assert_eq!(parent_dir(""), None);
}

#[test]
fn config_paths_in_directories() {
    assert_eq!(config_path("tests"), "tests/ash.toml");
    assert_eq!(config_path("/"), "/ash.toml");
    assert_eq!(config_path(""), "ash.toml");
}
