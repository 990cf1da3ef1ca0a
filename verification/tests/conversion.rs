use cmdspec::Command;
use cmdspec::LaunchKind;
use cmdspec::Stdio;

fn s(x: &str) -> String {
    x.to_string()
}

fn lookup(env: &[(String, String)], key: &str) -> Option<String> {
    env.iter().rev().find(|e| e.0 == key).map(|e| e.1.clone())
}

#[test]
fn conversion_passes_fields_through() {
    let c = Command::new(s("prog"))
        .arg(s("x"))
        .arg(s("y"))
        .arg(s("x"))
        .env(s("SET"), s("1"))
        .env_remove(s("GONE"))
        .current_dir(s("/tmp"))
        .stdin(Stdio::Piped);
    let cfg = c.to_launch_config();
    assert_eq!(cfg.get_program(), "prog");
    assert_eq!(cfg.get_args(), &vec![s("x"), s("y"), s("x")]);
    assert!(!cfg.clears_environment());
    assert_eq!(cfg.get_removals(), &vec![s("GONE")]);
    assert_eq!(cfg.get_settings(), &vec![(s("SET"), s("1"))]);
    assert_eq!(cfg.get_current_dir(), &Some(s("/tmp")));
    assert_eq!(cfg.get_stdin(), Some(Stdio::Piped));
    assert_eq!(cfg.get_stdout(), None);
    assert_eq!(cfg.get_stderr(), None);
}

#[test]
fn conversion_without_inheritance_clears_and_drops_removals() {
    let c = Command::new(s("prog"))
        .env(s("SET"), s("1"))
        .env_remove(s("GONE"))
        .env_no_inherit();
    let cfg = c.to_launch_config();
    assert!(cfg.clears_environment());
    assert!(cfg.get_removals().is_empty());
    assert_eq!(cfg.get_settings(), &vec![(s("SET"), s("1"))]);
}

#[test]
fn soft_removal_excludes_inherited_variable() {
    let c = Command::new(s("prog")).env_remove(s("K"));
    let cfg = c.to_launch_config();
    let parent = vec![(s("K"), s("from_parent")), (s("OTHER"), s("kept"))];
    let child = cfg.simulate_child_env(&parent);
    assert_eq!(lookup(&child, "K"), None);
    assert_eq!(lookup(&child, "OTHER"), Some(s("kept")));
}

#[test]
fn no_inherit_ignores_parent_entirely() {
    let c = Command::new(s("prog"))
        .env(s("ONLY"), s("this"))
        .env_remove(s("NOOP"))
        .env_no_inherit();
    let cfg = c.to_launch_config();
    let parent_a = vec![(s("HOME"), s("/root")), (s("NOOP"), s("x"))];
    let parent_b: Vec<(String, String)> = Vec::new();
    let child_a = cfg.simulate_child_env(&parent_a);
    let child_b = cfg.simulate_child_env(&parent_b);
    assert_eq!(child_a, vec![(s("ONLY"), s("this"))]);
    assert_eq!(child_a, child_b);
}

#[test]
fn explicit_setting_overwrites_inherited_value() {
    let c = Command::new(s("prog")).env(s("K"), s("new"));
    let cfg = c.to_launch_config();
    let parent = vec![(s("K"), s("old")), (s("HOME"), s("/root"))];
    let child = cfg.simulate_child_env(&parent);
    assert_eq!(lookup(&child, "K"), Some(s("new")));
    assert_eq!(lookup(&child, "HOME"), Some(s("/root")));
    assert_eq!(child.len(), 2);
}

#[test]
fn fresh_spec_customizes_nothing() {
    let cfg = Command::new(s("prog")).to_launch_config();
    assert_eq!(cfg.get_program(), "prog");
    assert!(cfg.get_args().is_empty());
    assert!(!cfg.clears_environment());
    assert!(cfg.get_removals().is_empty());
    assert!(cfg.get_settings().is_empty());
    assert!(cfg.get_current_dir().is_none());
    let parent = vec![(s("HOME"), s("/root")), (s("PATH"), s("/bin"))];
    assert_eq!(cfg.simulate_child_env(&parent), parent);
    assert_eq!(
        cfg.effective_dispositions(LaunchKind::StatusOnly),
        (Stdio::Inherit, Stdio::Inherit, Stdio::Inherit)
    );
    assert_eq!(
        cfg.effective_dispositions(LaunchKind::Start),
        (Stdio::Inherit, Stdio::Inherit, Stdio::Inherit)
    );
}

#[test]
fn capture_output_defaults_pipe_and_discard() {
    let cfg = Command::new(s("prog")).to_launch_config();
    assert_eq!(
        cfg.effective_dispositions(LaunchKind::CaptureOutput),
        (Stdio::Null, Stdio::Piped, Stdio::Piped)
    );
    let cfg2 = Command::new(s("prog"))
        .stdin(Stdio::Inherit)
        .stdout(Stdio::Null)
        .to_launch_config();
    assert_eq!(
        cfg2.effective_dispositions(LaunchKind::CaptureOutput),
        (Stdio::Inherit, Stdio::Null, Stdio::Piped)
    );
}
