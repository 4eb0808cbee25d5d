use vpn_engine::error::VpnError;
use vpn_engine::fortigate::http::{response_at_eof, response_step, HttpResponse};
use vpn_engine::fortigate::portal::{
    after_attempt, AttemptStep, ConfigFlow, ConfigStage, FlowStep, LoginFlow, LoginStage,
    PortalRequest,
};
use vpn_engine::net::Ipv4Addr;

fn resp(raw: &str) -> HttpResponse {
    match response_step(raw.as_bytes()).unwrap() {
        Some(r) => r,
        None => response_at_eof(raw.as_bytes()).unwrap(),
    }
}

fn sent<T: std::fmt::Debug>(step: FlowStep<T>) -> PortalRequest {
    match step {
        FlowStep::Send(q) => q,
        FlowStep::Done(r) => panic!("expected a request, got {r:?}"),
    }
}

fn done<T>(step: FlowStep<T>) -> Result<T, VpnError> {
    match step {
        FlowStep::Done(r) => r,
        FlowStep::Send(q) => panic!("expected the end, got a request for {}", q.path),
    }
}

fn gone() -> Result<HttpResponse, VpnError> {
    Err(VpnError::Tls("connection reset".to_string()))
}

#[test]
fn login_posts_credentials_after_the_portal_page_even_if_it_failed() {
    let (mut flow, first) = LoginFlow::new("alice", "s3cret", "");
    assert_eq!((first.method.as_str(), first.path.as_str()), ("GET", "/remote/login?lang=en"));
    assert!(first.cookie.is_none() && first.body.is_none());
    let post = sent(flow.on_reply(gone()));
    assert_eq!(flow.stage, LoginStage::Check);
    assert_eq!((post.method.as_str(), post.path.as_str()), ("POST", "/remote/logincheck"));
    assert_eq!(post.body.as_deref(), Some("username=alice&credential=s3cret&realm=&ajax=1"));
    let r = done(flow.on_reply(Ok(resp(
        "HTTP/1.1 200 OK\r\nSet-Cookie: SVPNCOOKIE=abc123; path=/\r\nContent-Length: 0\r\n\r\n",
    ))));
    assert_eq!(r.unwrap(), "abc123");
    assert_eq!(flow.stage, LoginStage::Finished);
}

#[test]
fn login_follows_the_host_check_redirect() {
    let (mut flow, _) = LoginFlow::new("alice", "pw", "corp");
    sent(flow.on_reply(Ok(resp("HTTP/1.1 200 OK\r\nContent-Length: 0\r\n\r\n"))));
    let body = "ret=1,redir=/remote/hostcheck_validate?x=1";
    let raw = format!(
        "HTTP/1.1 200 OK\r\nSet-Cookie: SVPNTMPCOOKIE=tmp9\r\nContent-Length: {}\r\n\r\n{body}",
        body.len()
    );
    let q = sent(flow.on_reply(Ok(resp(&raw))));
    assert_eq!(flow.stage, LoginStage::HostCheck);
    assert_eq!((q.method.as_str(), q.path.as_str()), ("GET", "/remote/hostcheck_validate?x=1"));
    assert_eq!(q.cookie.as_deref(), Some("SVPNTMPCOOKIE=tmp9"));
    let r = done(flow.on_reply(Ok(resp(
        "HTTP/1.1 200 OK\r\nSet-Cookie: SVPNCOOKIE=final\r\nContent-Length: 0\r\n\r\n",
    ))));
    assert_eq!(r.unwrap(), "final");
}

#[test]
fn login_ends_on_refusal_second_factor_and_transport_errors() {
    let (mut flow, _) = LoginFlow::new("u", "p", "");
    sent(flow.on_reply(gone()));
    let r = done(flow.on_reply(Ok(resp("HTTP/1.1 401 Unauthorized\r\nContent-Length: 0\r\n\r\n"))));
    assert_eq!(r.unwrap_err(), VpnError::AuthFailed("server rejected credentials (HTTP 401)".into()));

    let (mut flow, _) = LoginFlow::new("u", "p", "");
    sent(flow.on_reply(gone()));
    let body = "ret=2,tokeninfo=ftm_push";
    let raw = format!("HTTP/1.1 200 OK\r\nContent-Length: {}\r\n\r\n{body}", body.len());
    let r = done(flow.on_reply(Ok(resp(&raw))));
    assert_eq!(
        r.unwrap_err(),
        VpnError::AuthFailed(
            "gateway requires a second factor (OTP) [ftm_push]; interactive OTP is not supported yet".into()
        )
    );

    let (mut flow, _) = LoginFlow::new("u", "p", "");
    sent(flow.on_reply(gone()));
    let r = done(flow.on_reply(gone()));
    assert_eq!(r.unwrap_err(), VpnError::Tls("connection reset".into()));
}

#[test]
fn failed_host_check_is_an_auth_error() {
    let (mut flow, _) = LoginFlow::new("u", "p", "");
    sent(flow.on_reply(gone()));
    let body = "ret=1,redir=/hc";
    let raw = format!("HTTP/1.1 200 OK\r\nContent-Length: {}\r\n\r\n{body}", body.len());
    let q = sent(flow.on_reply(Ok(resp(&raw))));
    assert!(q.cookie.is_none());
    let r = done(flow.on_reply(Ok(resp("HTTP/1.1 403 Forbidden\r\nContent-Length: 0\r\n\r\n"))));
    assert_eq!(r.unwrap_err(), VpnError::AuthFailed("host check failed (HTTP 403)".into()));
}

#[test]
fn config_fetch_warms_up_twice_then_reads_the_xml() {
    let (mut flow, first) = ConfigFlow::new("abc");
    assert_eq!(first.path, "/remote/index");
    assert_eq!(first.cookie.as_deref(), Some("SVPNCOOKIE=abc"));
    let q = sent(flow.on_reply(Ok(resp("HTTP/1.1 403 Forbidden\r\nContent-Length: 0\r\n\r\n"))));
    assert_eq!((q.method.as_str(), q.path.as_str()), ("GET", "/remote/fortisslvpn"));
    let q = sent(flow.on_reply(gone()));
    assert_eq!(q.path, "/remote/fortisslvpn_xml");
    assert_eq!(q.cookie.as_deref(), Some("SVPNCOOKIE=abc"));
    assert_eq!(flow.stage, ConfigStage::Xml);
    let body = "<sslvpn-tunnel ver='2'><ipv4><assigned-addr ipv4='10.0.3.1' /></ipv4></sslvpn-tunnel>";
    let raw = format!("HTTP/1.1 200 OK\r\nContent-Length: {}\r\n\r\n{body}", body.len());
    let cfg = done(flow.on_reply(Ok(resp(&raw)))).unwrap();
    assert_eq!(cfg.address, Some(Ipv4Addr::new(10, 0, 3, 1)));
    assert_eq!(cfg.version.as_deref(), Some("2"));
}

#[test]
fn config_fetch_fails_on_an_error_status() {
    let (mut flow, _) = ConfigFlow::new("abc");
    sent(flow.on_reply(gone()));
    sent(flow.on_reply(gone()));
    let r = done(flow.on_reply(Ok(resp("HTTP/1.1 500 Oops\r\nContent-Length: 0\r\n\r\n"))));
    assert_eq!(r.unwrap_err(), VpnError::Protocol("FortiGate config fetch failed (HTTP 500)".into()));
}

#[test]
fn a_request_is_retried_once_and_close_drops_the_connection() {
    assert_eq!(after_attempt(0, &gone()), AttemptStep::Reconnect);
    assert_eq!(after_attempt(1, &gone()), AttemptStep::GiveUp);
    let keep = resp("HTTP/1.1 200 OK\r\nContent-Length: 0\r\n\r\n");
    assert_eq!(after_attempt(0, &Ok(keep)), AttemptStep::Deliver { keep_connection: true });
    let close = resp("HTTP/1.1 200 OK\r\nConnection: Close\r\nContent-Length: 0\r\n\r\n");
    assert_eq!(after_attempt(1, &Ok(close)), AttemptStep::Deliver { keep_connection: false });
}
