use cmdspec::Command;
use cmdspec::Stdio;

fn s(x: &str) -> String {
    x.to_string()
}

fn sample() -> Command {
    Command::new(s("prog"))
        .arg(s("a"))
        .arg(s("a"))
        .env(s("K"), s("V"))
        .env_remove(s("GONE"))
        .current_dir(s("/tmp"))
        .stdout(Stdio::Piped)
}

#[test]
fn clone_is_equal_to_the_original() {
    let c = sample();
    let d = c.clone();
    assert_eq!(c, d);
}

#[test]
fn mutating_a_clone_leaves_the_original_untouched() {
    let c = sample();
    let mut d = c.clone();
    d.add_arg(s("extra"));
    d.set_env(s("K"), s("changed"));
    d.set_current_dir(s("/elsewhere"));
    assert_ne!(c, d);
    assert_eq!(c, sample());
    assert_eq!(c.get_arguments(), &vec![s("a"), s("a")]);
    assert_eq!(c.get_env(&s("K")), Some(Some(s("V"))));
}

#[test]
fn environment_equality_ignores_insertion_order() {
    let a = Command::new(s("prog")).env(s("A"), s("1")).env(s("B"), s("2"));
    let b = Command::new(s("prog")).env(s("B"), s("2")).env(s("A"), s("1"));
    assert_eq!(a, b);
    assert_ne!(a, Command::new(s("prog")).env(s("A"), s("1")));
    assert_ne!(a, b.clone().env(s("A"), s("other")));
}

#[test]
fn equality_is_structural() {
    assert_eq!(sample(), sample());
    assert_ne!(sample(), sample().arg(s("more")));
    assert_ne!(sample(), sample().env(s("K"), s("other")));
    assert_ne!(sample(), sample().env_no_inherit());
    assert_ne!(sample(), sample().stdin(Stdio::Null));
    assert_ne!(Command::new(s("a")), Command::new(s("b")));
}
