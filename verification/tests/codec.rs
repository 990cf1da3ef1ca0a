use cmdspec::Command;
use cmdspec::Stdio;
use cmdspec::Token;

fn s(x: &str) -> String {
    x.to_string()
}

#[test]
fn round_trip_restores_a_full_spec() {
    let c = Command::new(s("prog"))
        .arg(s("a"))
        .arg(s("a"))
        .arg(s("b"))
        .env(s("K"), s("V"))
        .env_remove(s("GONE"))
        .current_dir(s("/tmp"))
        .stdin(Stdio::Null)
        .stdout(Stdio::Piped)
        .stderr(Stdio::Inherit);
    let tokens = c.encode();
    let back = Command::decode(&tokens).expect("an encoding must decode");
    assert_eq!(back, c);
}

#[test]
fn round_trip_restores_a_fresh_spec() {
    let c = Command::new(s("prog"));
    let back = Command::decode(&c.encode()).expect("an encoding must decode");
    assert_eq!(back, c);
}

#[test]
fn round_trip_restores_a_cleared_environment() {
    let c = Command::new(s("prog")).env_clear().env(s("K"), s("V"));
    let back = Command::decode(&c.encode()).expect("an encoding must decode");
    assert_eq!(back, c);
    assert!(!back.inherits_environment());
}

#[test]
fn decode_rejects_an_empty_sequence() {
    assert!(Command::decode(&Vec::new()).is_none());
}

#[test]
fn decode_rejects_trailing_tokens() {
    let c = Command::new(s("prog"));
    let mut tokens = c.encode();
    tokens.push(Token::End);
    assert!(Command::decode(&tokens).is_none());
}

#[test]
fn decode_rejects_a_truncated_sequence() {
    let c = Command::new(s("prog")).env(s("K"), s("V"));
    let mut tokens = c.encode();
    tokens.pop();
    assert!(Command::decode(&tokens).is_none());
}

#[test]
fn decode_rejects_a_repeated_environment_key() {
    let tokens = vec![
        Token::Text(s("prog")),
        Token::End,
        Token::Flag(true),
        Token::Text(s("K")),
        Token::Absent,
        Token::Text(s("K")),
        Token::Text(s("V")),
        Token::End,
        Token::Absent,
        Token::Absent,
        Token::Absent,
        Token::Absent,
    ];
    assert!(Command::decode(&tokens).is_none());
}

#[test]
fn decode_accepts_a_hand_written_encoding() {
    let tokens = vec![
        Token::Text(s("prog")),
        Token::Text(s("a")),
        Token::End,
        Token::Flag(false),
        Token::Text(s("K")),
        Token::Text(s("V")),
        Token::End,
        Token::Absent,
        Token::Disp(Stdio::Piped),
        Token::Absent,
        Token::Absent,
    ];
    let c = Command::decode(&tokens).expect("a well-formed encoding must decode");
    let expected = Command::new(s("prog"))
        .arg(s("a"))
        .env_no_inherit()
        .env(s("K"), s("V"))
        .stdin(Stdio::Piped);
    assert_eq!(c, expected);
}
