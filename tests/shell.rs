use ash::config::ModuleGroup;
use ash::modinfo::ModuleInfo;
use ash::shell::{
    cd_directive, cmd_envsetup, cmd_init, exit_status, find_group, join_path, names_group,
    ShellReturnCode,
};

fn info(paths: &[&str]) -> ModuleInfo {
    ModuleInfo {
        module_name: "m".to_string(),
        path: paths.iter().map(|p| p.to_string()).collect(),
        installed: vec![],
    }
}

#[test]
fn exit_codes() {
    assert_eq!(exit_status(false, &Ok(ShellReturnCode::Print)), 0);
    assert_eq!(exit_status(false, &Ok(ShellReturnCode::Execute)), 27);
    assert_eq!(exit_status(true, &Ok(ShellReturnCode::Execute)), 0);
    assert_eq!(exit_status(true, &Ok(ShellReturnCode::Error)), 1);
    assert_eq!(exit_status(false, &Err("x".to_string())), 1);
    assert_eq!(ShellReturnCode::Execute.code(), 27);
}

#[test]
fn unfinished_commands_report_failure() {
    assert_eq!(cmd_init(), Ok(ShellReturnCode::Error));
    assert_eq!(cmd_envsetup("source x"), Ok(ShellReturnCode::Error));
}

#[test]
fn groups_by_name() {
    let groups = vec![
        ModuleGroup { name: ":a".to_string(), modules: vec![], tests: None },
        ModuleGroup { name: ":b".to_string(), modules: vec![], tests: None },
    ];
    assert_eq!(find_group(&groups, ":b"), Some(1));
    assert_eq!(find_group(&groups, ":c"), None);
    assert!(names_group(":b"));
    assert!(!names_group("b"));
    assert!(!names_group(""));
}

#[test]
fn cd_into_module() {
    assert_eq!(cd_directive(&info(&["frameworks/base"]), "/src").unwrap(), "cd \"/src/frameworks/base\"");
    assert_eq!(cd_directive(&info(&["x"]), "/src/").unwrap(), "cd \"/src/x\"");
    assert_eq!(cd_directive(&info(&["a", "b"]), "/src").unwrap_err(), "multiple paths");
    assert_eq!(join_path("/src", "/abs"), "/abs");
}
