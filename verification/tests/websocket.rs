use websocket_protocol::accept::{accept_from_digest, challenge_response, WS_MAGIC_GUID};
use websocket_protocol::headers::HeaderMap;
use websocket_protocol::text::{char_is_white_space, chars_of, string_from_chars, trimmed_chars};
use websocket_protocol::websocket::{
    answer_request, handshake_response, parse_header, upgrade_response, Handshake, HandshakeStep, HttpHeader,
    MioWsError, MALFORMED_HEADER, NO_CHALLENGE,
};

const RFC_KEY: &str = "dGhlIHNhbXBsZSBub25jZQ==";
const RFC_ACCEPT: &str = "s3pPLMBiTxaQ9kYGzzhZRbK+xOo=";

fn expected_response(accept: &str) -> String {
    format!(
        "HTTP/1.1 101 Switching Protocols\r\nUpgrade: websocket\r\nConnection: Upgrade\r\nSec-WebSocket-Accept: {}\r\n\r\n",
        accept
    )
}

fn header(name: &str, value: &str) -> HttpHeader {
    HttpHeader { name: name.to_string(), value: value.to_string() }
}

fn handshake_error(res: &Result<HttpHeader, MioWsError>) -> Option<String> {
    match res {
        Err(MioWsError::Handshake(m)) => Some(m.clone()),
        _ => None,
    }
}

#[test]
fn it_works() {}

#[test]
fn parse_header_name_and_value() {
    let h = parse_header(&"Host: example.com\r\n".to_string()).ok().unwrap();
    assert_eq!(h.name, "Host");
    assert_eq!(h.value, "example.com");
}

#[test]
fn parse_header_value_keeps_colons_and_inner_spaces() {
    let h = parse_header(&"  Origin: http://a.b:8080 / x \n".to_string()).ok().unwrap();
    assert_eq!(h.name, "Origin");
    assert_eq!(h.value, "http://a.b:8080 / x");
}

#[test]
fn parse_header_key_line() {
    let h = parse_header(&format!("Sec-WebSocket-Key: {}\r\n", RFC_KEY)).ok().unwrap();
    assert_eq!(h.name, "Sec-WebSocket-Key");
    assert_eq!(h.value, RFC_KEY);
}

#[test]
fn parse_header_rejects_missing_colon() {
    let res = parse_header(&"GET / HTTP/1.1\r\n".to_string());
    assert_eq!(handshake_error(&res), Some(MALFORMED_HEADER.to_string()));
}

#[test]
fn parse_header_rejects_empty_name() {
    let res = parse_header(&": value".to_string());
    assert_eq!(handshake_error(&res), Some(MALFORMED_HEADER.to_string()));
}

#[test]
fn parse_header_rejects_missing_space() {
    let res = parse_header(&"Host:example.com".to_string());
    assert_eq!(handshake_error(&res), Some(MALFORMED_HEADER.to_string()));
}

#[test]
fn parse_header_rejects_empty_value() {
    let res = parse_header(&"Host: \r\n".to_string());
    assert_eq!(handshake_error(&res), Some(MALFORMED_HEADER.to_string()));
}

#[test]
fn parse_header_name_stops_at_first_colon() {
    // the name runs to the first colon, which must be followed by a space
    let res = parse_header(&"a:b: c".to_string());
    assert_eq!(handshake_error(&res), Some(MALFORMED_HEADER.to_string()));
}

#[test]
fn header_round_trip_on_values() {
    let h = parse_header(&format!("{}: {}", "X-Thing", "one two")).ok().unwrap();
    assert_eq!((h.name.as_str(), h.value.as_str()), ("X-Thing", "one two"));
}

#[test]
fn trim_strips_unicode_white_space() {
    let t: String = trimmed_chars("\u{3000}\t a b \u{a0}\u{2028}").into_iter().collect();
    assert_eq!(t, "a b");
    let t: String = trimmed_chars(" \r\n ").into_iter().collect();
    assert_eq!(t, "");
}

#[test]
fn trim_is_idempotent_on_values() {
    let once: String = trimmed_chars("  x y  ").into_iter().collect();
    let twice: String = trimmed_chars(&once).into_iter().collect();
    assert_eq!(once, twice);
}

#[test]
fn white_space_classes() {
    assert!(char_is_white_space(' '));
    assert!(char_is_white_space('\u{85}'));
    assert!(char_is_white_space('\u{200a}'));
    assert!(!char_is_white_space('\u{200b}'));
    assert!(!char_is_white_space('a'));
}

#[test]
fn chars_and_substrings() {
    let v = chars_of("héllo");
    assert_eq!(v, vec!['h', 'é', 'l', 'l', 'o']);
    assert_eq!(string_from_chars(&v, 1, 4), "éll");
}

#[test]
fn header_map_insert_get_replace() {
    let mut m = HeaderMap::new();
    assert!(m.get(&"Host".to_string()).is_none());
    m.insert(header("Host", "a"));
    m.insert(header("Upgrade", "websocket"));
    assert_eq!(m.get(&"Host".to_string()).unwrap(), "a");
    m.insert(header("Host", "b"));
    assert_eq!(m.get(&"Host".to_string()).unwrap(), "b");
    assert_eq!(m.get(&"Upgrade".to_string()).unwrap(), "websocket");
    assert!(m.get(&"host".to_string()).is_none());
}

#[test]
fn challenge_response_rfc_example() {
    assert_eq!(challenge_response(&RFC_KEY.to_string()), RFC_ACCEPT);
    assert_eq!(challenge_response(&"x3JJHMbDL1EzLkh9GBhXDw==".to_string()), "HSmrc0sMlYUkAGmm5OPpG2HaGWk=");
}

#[test]
fn accept_is_28_characters() {
    assert_eq!(challenge_response(&"".to_string()).chars().count(), 28);
}

#[test]
fn accept_from_known_digest() {
    let digest: [u8; 20] = [
        179, 122, 79, 44, 192, 98, 79, 22, 144, 246, 70, 6, 207, 56, 89, 69, 178, 190, 196, 234,
    ];
    assert_eq!(accept_from_digest(&digest), RFC_ACCEPT);
    let mut counting = [0u8; 20];
    for (i, b) in counting.iter_mut().enumerate() {
        *b = i as u8;
    }
    assert_eq!(accept_from_digest(&counting), "AAECAwQFBgcICQoLDA0ODxAREhM=");
}

#[test]
fn magic_guid() {
    assert_eq!(WS_MAGIC_GUID, "258EAFA5-E914-47DA-95CA-C5AB0DC85B11");
}

#[test]
fn upgrade_response_text() {
    assert_eq!(upgrade_response(&RFC_ACCEPT.to_string()), expected_response(RFC_ACCEPT));
}

#[test]
fn handshake_response_with_key() {
    let mut m = HeaderMap::new();
    m.insert(header("Sec-WebSocket-Key", RFC_KEY));
    match handshake_response(&m) {
        Ok(s) => assert_eq!(s, expected_response(RFC_ACCEPT)),
        Err(_) => panic!("expected a response"),
    }
}

#[test]
fn handshake_response_without_key() {
    let mut m = HeaderMap::new();
    m.insert(header("Host", "example.com"));
    match handshake_response(&m) {
        Err(MioWsError::Handshake(msg)) => assert_eq!(msg, NO_CHALLENGE),
        _ => panic!("expected a handshake error"),
    }
    assert_eq!(NO_CHALLENGE, "No WebSocket Challenge Header");
}

fn feed(lines: &[&str]) -> Vec<HandshakeStep> {
    let mut h = Handshake::new();
    let mut steps = Vec::new();
    for line in lines {
        let step = h.on_line(&line.to_string());
        let done = !matches!(step, HandshakeStep::ReadLine);
        steps.push(step);
        if done {
            break;
        }
    }
    steps
}

#[test]
fn handshake_rfc_request() {
    let steps = feed(&[
        "GET /chat HTTP/1.1\r\n",
        "Host: server.example.com\r\n",
        "Upgrade: websocket\r\n",
        "Connection: Upgrade\r\n",
        "Sec-WebSocket-Key: dGhlIHNhbXBsZSBub25jZQ==\r\n",
        "Origin: http://example.com\r\n",
        "Sec-WebSocket-Version: 13\r\n",
        "\r\n",
    ]);
    assert_eq!(steps.len(), 8);
    for s in &steps[..7] {
        assert!(matches!(s, HandshakeStep::ReadLine));
    }
    match &steps[7] {
        HandshakeStep::Respond(r) => assert_eq!(*r, expected_response(RFC_ACCEPT)),
        _ => panic!("expected a response"),
    }
}

#[test]
fn handshake_later_key_replaces_earlier() {
    let steps = feed(&[
        "GET / HTTP/1.1",
        "Sec-WebSocket-Key: first",
        "Sec-WebSocket-Key: x3JJHMbDL1EzLkh9GBhXDw==",
        "",
    ]);
    match steps.last().unwrap() {
        HandshakeStep::Respond(r) => assert_eq!(*r, expected_response("HSmrc0sMlYUkAGmm5OPpG2HaGWk=")),
        _ => panic!("expected a response"),
    }
}

#[test]
fn handshake_request_line_is_not_parsed() {
    // the first line is passed over even though it is no header
    let steps = feed(&["not a header at all", "Sec-WebSocket-Key: dGhlIHNhbXBsZSBub25jZQ==", "   "]);
    assert!(matches!(steps[0], HandshakeStep::ReadLine));
    assert!(matches!(steps[2], HandshakeStep::Respond(_)));
}

#[test]
fn handshake_without_key_fails() {
    let steps = feed(&["GET / HTTP/1.1\r\n", "Host: a\r\n", "\r\n"]);
    match steps.last().unwrap() {
        HandshakeStep::Fail(MioWsError::Handshake(m)) => assert_eq!(m, NO_CHALLENGE),
        _ => panic!("expected a handshake error"),
    }
}

#[test]
fn handshake_malformed_header_fails() {
    let steps = feed(&["GET / HTTP/1.1\r\n", "Host a\r\n", "\r\n"]);
    assert_eq!(steps.len(), 2);
    match steps.last().unwrap() {
        HandshakeStep::Fail(MioWsError::Handshake(m)) => assert_eq!(m, MALFORMED_HEADER),
        _ => panic!("expected a handshake error"),
    }
}

#[test]
fn io_error_converts() {
    let e = std::io::Error::new(std::io::ErrorKind::Other, "boom");
    let w: MioWsError = e.into();
    assert!(matches!(w, MioWsError::Io(_)));
}

fn lines(ls: &[&str]) -> Vec<String> {
    ls.iter().map(|l| l.to_string()).collect()
}

#[test]
fn answer_request_rfc_example() {
    let req = lines(&[
        "GET /chat HTTP/1.1\r\n",
        "Host: server.example.com\r\n",
        "Sec-WebSocket-Key: dGhlIHNhbXBsZSBub25jZQ==\r\n",
        "\r\n",
    ]);
    match answer_request(&req) {
        Some(Ok(r)) => assert_eq!(r, expected_response(RFC_ACCEPT)),
        _ => panic!("expected a response"),
    }
}

#[test]
fn answer_request_unfinished_head() {
    assert!(answer_request(&lines(&[])).is_none());
    assert!(answer_request(&lines(&["GET / HTTP/1.1", "Host: a"])).is_none());
}

#[test]
fn answer_request_errors() {
    match answer_request(&lines(&["GET / HTTP/1.1", "Host: a", ""])) {
        Some(Err(MioWsError::Handshake(m))) => assert_eq!(m, NO_CHALLENGE),
        _ => panic!("expected the missing-key error"),
    }
    match answer_request(&lines(&["GET / HTTP/1.1", "bad", ""])) {
        Some(Err(MioWsError::Handshake(m))) => assert_eq!(m, MALFORMED_HEADER),
        _ => panic!("expected the malformed-header error"),
    }
}

#[test]
fn same_last_key_same_answer() {
    let a = lines(&[
        "GET /a HTTP/1.1",
        "Sec-WebSocket-Key: other",
        "Host: one",
        "Sec-WebSocket-Key: dGhlIHNhbXBsZSBub25jZQ==",
        "",
    ]);
    let b = lines(&["GET /b HTTP/1.1", "Sec-WebSocket-Key: dGhlIHNhbXBsZSBub25jZQ==", "Origin: x", "  "]);
    match (answer_request(&a), answer_request(&b)) {
        (Some(Ok(x)), Some(Ok(y))) => {
            assert_eq!(x, y);
            assert_eq!(x, expected_response(RFC_ACCEPT));
        }
        _ => panic!("expected two responses"),
    }
}

#[test]
fn response_length_is_fixed() {
    let r = upgrade_response(&challenge_response(&"any key at all".to_string()));
    assert_eq!(r.chars().count(), expected_response(RFC_ACCEPT).chars().count());
}
