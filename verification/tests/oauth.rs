use chartographer::oauth::{authorize_url, parse_callback, urldecode, urlencode, SCOPES};

#[test]
fn authorize_url_contains_every_required_parameter() {
    let url = authorize_url("cid", "http://127.0.0.1:7345/callback", "st4te");
    assert!(url.starts_with("https://api.modrinth.com/_internal/oauth/authorize?"));
    assert!(url.contains("client_id=cid"));
    assert!(url.contains("response_type=code"));
    assert!(url.contains("state=st4te"));
    assert!(url.contains("redirect_uri=http%3A%2F%2F127.0.0.1%3A7345%2Fcallback"));
    assert!(url.contains(&format!("scope={}", urlencode(SCOPES))));
}

#[test]
fn parse_callback_extracts_code_and_state() {
    let query = parse_callback("GET /callback?code=abc123&state=st4te HTTP/1.1").unwrap();
    assert_eq!(query.get("code").map(String::as_str), Some("abc123"));
    assert_eq!(query.get("state").map(String::as_str), Some("st4te"));
}

#[test]
fn parse_callback_decodes_percent_escapes() {
    let query =
        parse_callback("GET /callback?error=access_denied&description=a%20refuse HTTP/1.1")
            .unwrap();
    assert_eq!(
        query.get("description").map(String::as_str),
        Some("a refuse")
    );
}

#[test]
fn parse_callback_rejects_other_paths() {
    assert!(parse_callback("GET /favicon.ico HTTP/1.1").is_none());
}

#[test]
fn decoding_gives_back_what_encoding_wrote() {
    for text in ["", "a b", "é/ü?&=+%", "USER_READ PROJECT_READ", "日本"] {
        assert_eq!(urldecode(&urlencode(text)), text);
    }
}

#[test]
fn plus_is_a_space_and_a_signed_escape_is_read() {
    assert_eq!(urldecode("a+b"), "a b");
    assert_eq!(urldecode("%41%zz%4"), "A%zz%4");
    assert_eq!(urldecode("%+9x"), "\u{9}x");
    assert_eq!(urlencode("a b~"), "a%20b~");
}

#[test]
fn the_last_value_of_a_repeated_key_wins() {
    let query = parse_callback("GET /callback?a=1&b&a=2 HTTP/1.1").unwrap();
    assert_eq!(query.get("a").map(String::as_str), Some("2"));
    assert_eq!(query.get("b"), None);
    assert_eq!(query.len(), 2);
}

#[test]
fn a_line_without_target_or_query_is_refused() {
    assert!(parse_callback("GET").is_none());
    assert!(parse_callback("GET /callback HTTP/1.1").is_none());
}

#[test]
fn an_encoded_text_keeps_to_the_unreserved_alphabet() {
    let out = urlencode("a b/é~?x=1&y");
    assert_eq!(out, "a%20b%2F%C3%A9~%3Fx%3D1%26y");
    let bytes = out.as_bytes();
    let mut i = 0;
    while i < bytes.len() {
        if bytes[i] == b'%' {
            assert!(bytes[i + 1..i + 3].iter().all(|b| b.is_ascii_digit() || (b'A'..=b'F').contains(b)));
            i += 3;
        } else {
            assert!(bytes[i].is_ascii_alphanumeric() || b"-_.~".contains(&bytes[i]));
            i += 1;
        }
    }
}
