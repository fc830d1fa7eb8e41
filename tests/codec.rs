use chat_client::{decode_reply, decode_request, encode_reply, encode_request, Reply, Request};

fn s(x: &str) -> String {
    x.to_string()
}

#[test]
fn join_encoding() {
    let r = Request::Join { group_name: s("music") };
    assert_eq!(encode_request(&r), "{\"Join\":{\"group_name\":\"music\"}}");
}

#[test]
fn post_encoding() {
    let r = Request::Post { group_name: s("music"), message: s("Hello, World!") };
    assert_eq!(
        encode_request(&r),
        "{\"Post\":{\"group_name\":\"music\",\"message\":\"Hello, World!\"}}"
    );
}

#[test]
fn reply_encodings() {
    let m = Reply::Message { group_name: s("music"), message: s("hi") };
    assert_eq!(encode_reply(&m), "{\"Message\":{\"group_name\":\"music\",\"message\":\"hi\"}}");
    let e = Reply::Error(s("no such group"));
    assert_eq!(encode_reply(&e), "{\"Error\":\"no such group\"}");
}

#[test]
fn escapes() {
    let r = Request::Post { group_name: s("g"), message: s("a\"b\\c\nd\re\tf\u{8}g\u{c}h\u{1}i\u{1f}j/é") };
    assert_eq!(
        encode_request(&r),
        "{\"Post\":{\"group_name\":\"g\",\"message\":\"a\\\"b\\\\c\\nd\\re\\tf\\bg\\fh\\u0001i\\u001fj/é\"}}"
    );
}

#[test]
fn request_round_trip() {
    let values = vec![
        Request::Join { group_name: s("music") },
        Request::Join { group_name: s("") },
        Request::Post { group_name: s("a b"), message: s("x\"}}\n\\u0041") },
        Request::Post { group_name: s("\u{0}\u{7f}"), message: s("") },
    ];
    for v in values {
        assert_eq!(decode_request(&encode_request(&v)), Some(v.clone()));
    }
}

#[test]
fn reply_round_trip() {
    let values = vec![
        Reply::Message { group_name: s("music"), message: s("hi") },
        Reply::Message { group_name: s("\"quoted\""), message: s("line\nbreak\ttab") },
        Reply::Error(s("")),
        Reply::Error(s("bad \\ thing \u{1b}")),
    ];
    for v in values {
        assert_eq!(decode_reply(&encode_reply(&v)), Some(v.clone()));
    }
}

#[test]
fn decode_message_line() {
    assert_eq!(
        decode_reply("{\"Message\":{\"group_name\":\"music\",\"message\":\"hi\"}}"),
        Some(Reply::Message { group_name: s("music"), message: s("hi") })
    );
    assert_eq!(decode_reply("{\"Error\":\"oops\"}"), Some(Reply::Error(s("oops"))));
}

#[test]
fn decode_rejects_malformed_lines() {
    assert_eq!(decode_reply(""), None);
    assert_eq!(decode_reply("{\"Warning\":\"x\"}"), None);
    assert_eq!(decode_reply("{\"Error\":\"x\"}}"), None);
    assert_eq!(decode_reply("{\"Error\":\"x}"), None);
    assert_eq!(decode_reply("{\"Error\":\"a\nb\"}"), None);
    assert_eq!(decode_reply("{\"Error\":\"\\q\"}"), None);
    assert_eq!(decode_reply("{\"Error\":\"\\u000a\"}"), None);
    assert_eq!(decode_reply("{\"Message\":{\"group_name\":\"g\"}}"), None);
    assert_eq!(decode_request("{\"Join\":{\"group_name\":\"g\"}"), None);
    assert_eq!(decode_request("{\"Message\":{\"group_name\":\"g\",\"message\":\"m\"}}"), None);
}

#[test]
fn decode_unicode_escape() {
    assert_eq!(decode_reply("{\"Error\":\"\\u0001\"}"), Some(Reply::Error(s("\u{1}"))));
}
