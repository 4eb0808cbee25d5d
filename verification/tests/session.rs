use vpn_engine::fortigate::session::{build_tunnel_request, session_cookie};

#[test]
fn tunnel_request_carries_cookie() {
    let r = build_tunnel_request("C00K1E");
    assert!(r.starts_with("GET /remote/sslvpn-tunnel HTTP/1.1\r\n"));
    assert!(r.contains("Cookie: SVPNCOOKIE=C00K1E"));
    assert!(r.contains("Host: sslvpn"));
    assert!(r.ends_with("\r\n\r\n"));
}

#[test]
fn tunnel_user_agent_matches_the_reference_clients() {
    assert!(build_tunnel_request("x").contains("User-Agent: Mozilla/5.0 SV1"));
}

#[test]
fn tunnel_request_is_exact() {
    assert_eq!(
        build_tunnel_request("abc"),
        "GET /remote/sslvpn-tunnel HTTP/1.1\r\nHost: sslvpn\r\nUser-Agent: Mozilla/5.0 SV1\r\nCookie: SVPNCOOKIE=abc\r\n\r\n"
    );
    assert_eq!(session_cookie("abc"), "SVPNCOOKIE=abc");
}
