use commit_notifier::command::parse_raw;
use commit_notifier::error::Error;

#[test]
fn parse_raw_simple() {
    assert_eq!(
        parse_raw(
            "some    simple    command —some-option --some-simple=values -b \"a\"b'c'".to_owned()
        )
        .unwrap(),
        vec![
            "some",
            "simple",
            "command",
            "--some-option",
            "--some-simple=values",
            "-b",
            "abc",
        ]
        .into_iter()
        .map(str::to_owned)
        .collect::<Vec<_>>()
    );
}

#[test]
fn parse_raw_escape() {
    assert_eq!(
        parse_raw("\\a\\b\\ aaaaa bbbb".to_owned()).unwrap(),
        vec!["ab aaaaa", "bbbb"]
            .into_iter()
            .map(str::to_owned)
            .collect::<Vec<_>>()
    );
}

#[test]
fn parse_raw_empty_input() {
    assert_eq!(parse_raw("   ".to_owned()).unwrap(), Vec::<String>::new());
    assert_eq!(parse_raw(String::new()).unwrap(), Vec::<String>::new());
}

#[test]
fn parse_raw_quotes_keep_spaces() {
    assert_eq!(
        parse_raw("say 'hello world' \"x y\"".to_owned()).unwrap(),
        vec!["say", "hello world", "x y"]
            .into_iter()
            .map(str::to_owned)
            .collect::<Vec<_>>()
    );
}

#[test]
fn parse_raw_unclosed_quote() {
    let err = parse_raw("oops 'no end".to_owned()).unwrap_err();
    assert!(matches!(err, Error::UnclosedQuote));
}

#[test]
fn parse_raw_bad_escape() {
    let err = parse_raw("oops\\".to_owned()).unwrap_err();
    assert!(matches!(err, Error::BadEscape));
}
