use cmdspec::Command;
use cmdspec::Stdio;

fn s(x: &str) -> String {
    x.to_string()
}

#[test]
fn new_has_documented_defaults() {
    let c = Command::new(s("prog"));
    assert_eq!(c.get_name(), "prog");
    assert!(c.get_arguments().is_empty());
    assert!(c.inherits_environment());
    assert!(c.get_environment().is_empty());
    assert!(c.get_current_dir().is_none());
    assert!(c.get_stdin().is_none());
    assert!(c.get_stdout().is_none());
    assert!(c.get_stderr().is_none());
}

#[test]
fn arguments_keep_insertion_order_and_duplicates() {
    let mut c = Command::new(s("prog"));
    c.add_arg(s("a"));
    c.add_args(vec![s("b"), s("a"), s("c")]);
    let c = c.arg(s("b")).args(vec![s("a")]);
    assert_eq!(
        c.get_arguments(),
        &vec![s("a"), s("b"), s("a"), s("c"), s("b"), s("a")]
    );
}

#[test]
fn clear_then_set_leaves_exactly_one_entry() {
    let c = Command::new(s("prog"))
        .env(s("OLD"), s("1"))
        .env_clear()
        .env(s("K"), s("V"));
    assert!(!c.inherits_environment());
    assert_eq!(c.get_environment(), &vec![(s("K"), Some(s("V")))]);
}

#[test]
fn set_env_overwrites_in_place() {
    let c = Command::new(s("prog"))
        .env(s("A"), s("1"))
        .env(s("B"), s("2"))
        .env(s("A"), s("3"));
    assert_eq!(
        c.get_environment(),
        &vec![(s("A"), Some(s("3"))), (s("B"), Some(s("2")))]
    );
}

#[test]
fn remove_env_records_soft_removal() {
    let mut c = Command::new(s("prog"));
    c.remove_env(s("K"));
    assert_eq!(c.get_environment(), &vec![(s("K"), None)]);
    assert_eq!(c.get_env(&s("K")), Some(None));
    assert_eq!(c.get_env(&s("OTHER")), None);
}

#[test]
fn set_envs_inserts_each_in_order() {
    let mut c = Command::new(s("prog"));
    c.set_envs(vec![(s("A"), s("1")), (s("B"), s("2")), (s("A"), s("3"))]);
    assert_eq!(
        c.get_environment(),
        &vec![(s("A"), Some(s("3"))), (s("B"), Some(s("2")))]
    );
    assert_eq!(c.get_env(&s("A")), Some(Some(s("3"))));
}

#[test]
fn env_no_inherit_keeps_explicit_entries() {
    let c = Command::new(s("prog")).env(s("K"), s("V")).env_no_inherit();
    assert!(!c.inherits_environment());
    assert_eq!(c.get_environment(), &vec![(s("K"), Some(s("V")))]);
}

#[test]
fn working_directory_is_overwritten() {
    let mut c = Command::new(s("prog"));
    assert!(c.get_current_dir().is_none());
    c.set_current_dir(s("/tmp"));
    assert_eq!(c.get_current_dir(), &Some(s("/tmp")));
    let c = c.current_dir(s("/var"));
    assert_eq!(c.get_current_dir(), &Some(s("/var")));
}

#[test]
fn stream_dispositions_are_overwritten() {
    let c = Command::new(s("prog"))
        .stdin(Stdio::Null)
        .stdout(Stdio::Piped)
        .stderr(Stdio::Inherit)
        .stdout(Stdio::Null);
    assert_eq!(c.get_stdin(), Some(Stdio::Null));
    assert_eq!(c.get_stdout(), Some(Stdio::Null));
    assert_eq!(c.get_stderr(), Some(Stdio::Inherit));
}
