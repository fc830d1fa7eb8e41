use chat_client::{parse_command, Request};

fn join(g: &str) -> Option<Request> {
    Some(Request::Join { group_name: g.to_string() })
}

fn post(g: &str, m: &str) -> Option<Request> {
    Some(Request::Post { group_name: g.to_string(), message: m.to_string() })
}

#[test]
fn join_one_group() {
    assert_eq!(parse_command("join music"), join("music"));
}

#[test]
fn join_without_group_is_rejected() {
    assert_eq!(parse_command("join"), None);
    assert_eq!(parse_command("join "), None);
}

#[test]
fn join_with_two_tokens_is_rejected() {
    assert_eq!(parse_command("join music jazz"), None);
    assert_eq!(parse_command("join music "), None);
}

#[test]
fn post_keeps_inner_whitespace() {
    assert_eq!(parse_command("post music Hello, World!"), post("music", "Hello, World!"));
    assert_eq!(parse_command("post music a  b   c"), post("music", "a  b   c"));
}

#[test]
fn post_without_message_is_rejected() {
    assert_eq!(parse_command("post music"), None);
    assert_eq!(parse_command("post music "), None);
    assert_eq!(parse_command("post"), None);
}

#[test]
fn post_with_empty_group_is_rejected() {
    assert_eq!(parse_command("post  hello"), None);
}

#[test]
fn other_lines_are_rejected() {
    assert_eq!(parse_command(""), None);
    assert_eq!(parse_command("leave music"), None);
    assert_eq!(parse_command("joinmusic"), None);
    assert_eq!(parse_command("JOIN music"), None);
}

#[test]
fn rejected_line_does_not_affect_next() {
    assert_eq!(parse_command("post music"), None);
    assert_eq!(parse_command("join music"), join("music"));
    assert_eq!(parse_command("bogus"), None);
    assert_eq!(parse_command("post music hi"), post("music", "hi"));
}

#[test]
fn non_ascii_group_and_message() {
    assert_eq!(parse_command("post café héllo wörld"), post("café", "héllo wörld"));
}
