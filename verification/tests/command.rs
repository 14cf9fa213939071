use kvlog::codec::Entry;
use kvlog::command::{interpret, parse_command, request_from_tokens, Command, Request};

#[test]
fn parse_command_knows_get_and_put() {
    assert_eq!(parse_command(Some("get")), Command::Get);
    assert_eq!(parse_command(Some("put")), Command::Put);
}

#[test]
fn parse_command_knows_both_quit_tokens() {
    assert_eq!(parse_command(Some("q")), Command::Quit);
    assert_eq!(parse_command(Some("quit")), Command::Quit);
}

#[test]
fn parse_command_takes_anything_else_as_invalid() {
    assert_eq!(parse_command(None), Command::Invalid);
    assert_eq!(parse_command(Some("")), Command::Invalid);
    assert_eq!(parse_command(Some("GET")), Command::Invalid);
    assert_eq!(parse_command(Some("gets")), Command::Invalid);
    assert_eq!(parse_command(Some("ge")), Command::Invalid);
    assert_eq!(parse_command(Some("delete")), Command::Invalid);
    assert_eq!(parse_command(Some("qu")), Command::Invalid);
    assert_eq!(parse_command(Some(" get")), Command::Invalid);
}

#[test]
fn request_from_tokens_builds_a_put() {
    let request = request_from_tokens(&["put", "k", "v"]);
    assert_eq!(request, Request::Put(Entry { key: b"k".to_vec(), value: b"v".to_vec() }));
}

#[test]
fn request_from_tokens_fills_missing_tokens_with_nothing() {
    assert_eq!(
        request_from_tokens(&["put", "k"]),
        Request::Put(Entry { key: b"k".to_vec(), value: vec![] })
    );
    assert_eq!(
        request_from_tokens(&["put"]),
        Request::Put(Entry { key: vec![], value: vec![] })
    );
    assert_eq!(request_from_tokens(&["get"]), Request::Get(vec![]));
    assert_eq!(request_from_tokens(&[]), Request::Invalid);
}

#[test]
fn request_from_tokens_ignores_what_follows_the_value() {
    assert_eq!(
        request_from_tokens(&["put", "k", "v", "more"]),
        Request::Put(Entry { key: b"k".to_vec(), value: b"v".to_vec() })
    );
    assert_eq!(request_from_tokens(&["get", "k", "v"]), Request::Get(b"k".to_vec()));
    assert_eq!(request_from_tokens(&["quit", "k"]), Request::Quit);
}

#[test]
fn request_from_tokens_takes_keys_as_utf8_bytes() {
    assert_eq!(
        request_from_tokens(&["get", "\u{e9}"]),
        Request::Get(vec![0xc3, 0xa9])
    );
}

#[test]
fn interpret_splits_the_line_at_whitespace() {
    assert_eq!(
        interpret("put test hello\n"),
        Request::Put(Entry { key: b"test".to_vec(), value: b"hello".to_vec() })
    );
    assert_eq!(
        interpret("  put \t a   b  \r\n"),
        Request::Put(Entry { key: b"a".to_vec(), value: b"b".to_vec() })
    );
    assert_eq!(interpret("get test\n"), Request::Get(b"test".to_vec()));
}

#[test]
fn interpret_reads_quit_and_invalid_lines() {
    assert_eq!(interpret("q\n"), Request::Quit);
    assert_eq!(interpret("quit now\n"), Request::Quit);
    assert_eq!(interpret("\n"), Request::Invalid);
    assert_eq!(interpret(""), Request::Invalid);
    assert_eq!(interpret("remove k\n"), Request::Invalid);
    assert_eq!(interpret("putk v\n"), Request::Invalid);
}
