use vpn_engine::error::VpnError;
use vpn_engine::fortigate::http::{
    build_request, decode_chunked, header_end, parse_head, response_at_eof, response_step,
    HttpResponse, USER_AGENT,
};

/// Parse a complete response the way the reader does: delimited when it can
/// be, else at the end of the stream.
fn parse(raw: &[u8]) -> Result<HttpResponse, VpnError> {
    match response_step(raw)? {
        Some(r) => Ok(r),
        None => response_at_eof(raw),
    }
}

fn resp(raw: &str) -> HttpResponse {
    parse(raw.as_bytes()).unwrap()
}

#[test]
fn reads_content_length_body_without_waiting_for_eof() {
    let raw = "HTTP/1.1 200 OK\r\nContent-Length: 5\r\n\r\nhelloTRAILING-GARBAGE";
    let r = response_step(raw.as_bytes()).unwrap().expect("delimited before EOF");
    assert_eq!(r.status, 200);
    assert_eq!(r.body_str(), "hello");
}

#[test]
fn decodes_chunked_body() {
    let r = resp(
        "HTTP/1.1 200 OK\r\nTransfer-Encoding: chunked\r\nContent-Type: text/plain\r\n\r\n\
         9\r\nret=1,red\r\n3\r\nir=\r\n0\r\n\r\n",
    );
    assert_eq!(r.status, 200);
    assert_eq!(r.body_str(), "ret=1,redir=");
}

#[test]
fn falls_back_to_eof_when_undelimited() {
    let raw = "HTTP/1.1 200 OK\r\nServer: x\r\n\r\nbody-to-eof";
    assert!(response_step(raw.as_bytes()).unwrap().is_none());
    let r = resp(raw);
    assert_eq!(r.body_str(), "body-to-eof");
}

#[test]
fn parses_status_and_lowercases_header_names() {
    let r = resp("HTTP/1.1 403 Forbidden\r\nContent-Length: 0\r\nX-Odd-CASE: Yes\r\n\r\n");
    assert_eq!(r.status, 403);
    assert_eq!(r.header("x-odd-case"), Some("Yes"));
    assert_eq!(r.header("X-ODD-CASE"), Some("Yes"));
}

#[test]
fn cookie_skips_cleared_value_and_keeps_usable_one() {
    let r = resp(
        "HTTP/1.1 200 OK\r\n\
         Set-Cookie:  SVPNCOOKIE=; path=/; expires=Sun, 11 Mar 1984 12:00:00 GMT; secure\r\n\
         Set-Cookie: SVPNTMPCOOKIE=TMP123; path=/remote/hostcheck_install; secure\r\n\
         Content-Length: 0\r\n\r\n",
    );
    assert_eq!(r.cookie("SVPNCOOKIE"), None);
    assert_eq!(r.cookie("SVPNTMPCOOKIE").as_deref(), Some("TMP123"));
}

#[test]
fn cookie_name_match_is_not_a_substring_match() {
    let r = resp(
        "HTTP/1.1 200 OK\r\nSet-Cookie: SVPNTMPCOOKIE=abc; path=/\r\nContent-Length: 0\r\n\r\n",
    );
    assert_eq!(r.cookie("SVPNCOOKIE"), None);
}

#[test]
fn cookie_takes_last_usable_value() {
    let r = resp(
        "HTTP/1.1 200 OK\r\n\
         Set-Cookie: SVPNCOOKIE=old; path=/\r\n\
         Set-Cookie: SVPNCOOKIE=new; path=/\r\n\
         Content-Length: 0\r\n\r\n",
    );
    assert_eq!(r.cookie("SVPNCOOKIE").as_deref(), Some("new"));
}

#[test]
fn bad_chunk_size_is_a_protocol_error() {
    let out = parse(b"HTTP/1.1 200 OK\r\nTransfer-Encoding: chunked\r\n\r\nZZ\r\nx\r\n");
    assert!(matches!(out, Err(VpnError::Protocol(_))));
}

#[test]
fn login_request_shape() {
    let r = build_request(
        "POST",
        "/remote/logincheck",
        "vpn.example.com",
        USER_AGENT,
        None,
        Some("username=a&credential=b&realm=&ajax=1"),
    );
    assert!(r.starts_with("POST /remote/logincheck HTTP/1.1\r\n"));
    assert!(r.contains("Host: vpn.example.com"));
    assert!(r.contains("Content-Length: 37"));
    assert!(!r.contains("SV1"), "login UA must not contain SV1 (HTTP 405)");
    assert!(r.ends_with("username=a&credential=b&realm=&ajax=1"));
}

#[test]
fn get_request_with_cookie_has_no_body_headers() {
    let r = build_request("GET", "/remote/fortisslvpn_xml", "gw", USER_AGENT, Some("SVPNCOOKIE=x"), None);
    assert!(r.starts_with("GET /remote/fortisslvpn_xml HTTP/1.1\r\n"));
    assert!(r.contains("Cookie: SVPNCOOKIE=x\r\n"));
    assert!(!r.contains("Content-Length"));
    assert!(r.ends_with("\r\n\r\n"));
}

#[test]
fn incomplete_response_needs_more() {
    assert!(response_step(b"HTTP/1.1 200 OK\r\nContent-Length: 5\r\n\r\nhel").unwrap().is_none());
    assert!(response_step(b"HTTP/1.1 200 OK\r\nContent-Le").unwrap().is_none());
}

#[test]
fn chunked_body_in_flight_needs_more() {
    assert_eq!(decode_chunked(b"5\r\nhel").unwrap(), None);
    assert_eq!(decode_chunked(b"3\r\nabc\r\n0\r\n").unwrap(), Some(b"abc".to_vec()));
    assert!(matches!(decode_chunked(b"q\r\n"), Err(VpnError::Protocol(_))));
}

#[test]
fn header_end_points_past_the_blank_line() {
    assert_eq!(header_end(b"HTTP/1.1 200 OK\r\n\r\nbody"), Some(19));
    assert_eq!(header_end(b"HTTP/1.1 200 OK\r\n"), None);
}

#[test]
fn status_line_must_carry_a_code() {
    assert!(matches!(parse_head("garbage"), Err(VpnError::Protocol(_))));
    let (code, headers) = parse_head("HTTP/1.1 302 Found\r\nLocation: /x\r\n").unwrap();
    assert_eq!(code, 302);
    assert_eq!(headers, vec![("location".to_string(), "/x".to_string())]);
}

#[test]
fn content_length_over_the_guard_is_refused() {
    let out = response_step(b"HTTP/1.1 200 OK\r\nContent-Length: 999999999\r\n\r\n");
    assert!(matches!(out, Err(VpnError::Protocol(_))));
}

#[test]
fn connection_close_is_honoured() {
    let r = resp("HTTP/1.1 200 OK\r\nConnection: Close\r\nContent-Length: 0\r\n\r\n");
    assert!(r.asks_to_close());
    let k = resp("HTTP/1.1 200 OK\r\nConnection: keep-alive\r\nContent-Length: 0\r\n\r\n");
    assert!(!k.asks_to_close());
}
