use vpn_engine::error::VpnError;
use vpn_engine::fortigate::auth::{
    body_field, build_login_body, classify_login, host_check_cookie, host_check_result,
    two_factor_error, url_encode, LoginOutcome,
};
use vpn_engine::fortigate::http::{response_at_eof, response_step, HttpResponse};

fn resp(raw: &str) -> HttpResponse {
    match response_step(raw.as_bytes()).unwrap() {
        Some(r) => r,
        None => response_at_eof(raw.as_bytes()).unwrap(),
    }
}

#[test]
fn login_body_has_form_fields() {
    assert_eq!(
        build_login_body("alice", "s3cret", ""),
        "username=alice&credential=s3cret&realm=&ajax=1"
    );
}

#[test]
fn credentials_are_percent_encoded() {
    let b = build_login_body("a b", "p&w=x", "corp realm");
    assert_eq!(b, "username=a%20b&credential=p%26w%3Dx&realm=corp%20realm&ajax=1");
    assert!(!b.contains("p&w=x"), "an unescaped & would forge extra form fields");
}

#[test]
fn password_with_at_sign_is_encoded() {
    assert!(build_login_body("u", "wa@1921", "").contains("credential=wa%401921"));
}

#[test]
fn body_field_picks_the_right_key() {
    let b = "ret=1,redir=/remote/hostcheck_install?a=1&b=2,realm=";
    assert_eq!(body_field(b, "ret"), Some("1"));
    assert_eq!(body_field(b, "redir"), Some("/remote/hostcheck_install?a=1&b=2"));
    assert_eq!(body_field(b, "nope"), None);
}

#[test]
fn direct_cookie_is_success() {
    let r = resp(
        "HTTP/1.1 200 OK\r\nSet-Cookie: SVPNCOOKIE=abc123; path=/\r\nContent-Length: 0\r\n\r\n",
    );
    assert_eq!(classify_login(&r).unwrap(), LoginOutcome::Cookie("abc123".into()));
}

#[test]
fn hostcheck_round_is_detected() {
    let r = resp(
        "HTTP/1.1 200 OK\r\n\
         Set-Cookie:  SVPNCOOKIE=; path=/; expires=Sun, 11 Mar 1984 12:00:00 GMT; secure\r\n\
         Set-Cookie: SVPNTMPCOOKIE=TMPVAL; path=/remote/hostcheck_install; secure\r\n\
         Transfer-Encoding: chunked\r\nContent-Type: text/plain\r\n\r\n\
         65\r\nret=1,redir=/remote/hostcheck_install?auth_type=16&user=7769&&grpname=&portal=506F&rip=1.2.3.4&realm=\r\n0\r\n\r\n",
    );
    match classify_login(&r).unwrap() {
        LoginOutcome::HostCheck { redir, tmp_cookie } => {
            assert!(redir.starts_with("/remote/hostcheck_install?auth_type=16"));
            assert_eq!(tmp_cookie.as_deref(), Some("TMPVAL"));
        }
        other => panic!("expected HostCheck, got {other:?}"),
    }
}

#[test]
fn http_403_is_auth_failed() {
    let r = resp("HTTP/1.1 403 Forbidden\r\nContent-Length: 0\r\n\r\n");
    assert!(matches!(classify_login(&r), Err(VpnError::AuthFailed(_))));
}

#[test]
fn two_factor_challenge_is_reported_precisely() {
    let r = resp(
        "HTTP/1.1 200 OK\r\nContent-Length: 44\r\n\r\n\
         ret=2,reqid=17,polid=3,grp=,portal=x,magic=99",
    );
    assert!(matches!(classify_login(&r), Ok(LoginOutcome::TwoFactor(_))));
}

#[test]
fn plain_rejection_is_auth_failed() {
    let r = resp("HTTP/1.1 200 OK\r\nContent-Length: 5\r\n\r\nret=0");
    let e = classify_login(&r).unwrap_err();
    assert!(matches!(e, VpnError::AuthFailed(_)));
    assert!(e.message().contains("ret=0"));
}

#[test]
fn cleared_cookie_is_not_mistaken_for_success() {
    let r = resp(
        "HTTP/1.1 200 OK\r\n\
         Set-Cookie: SVPNCOOKIE=0; path=/\r\nContent-Length: 5\r\n\r\nret=0",
    );
    assert!(matches!(classify_login(&r), Err(VpnError::AuthFailed(_))));
}

#[test]
fn url_encode_keeps_unreserved_and_escapes_the_rest() {
    assert_eq!(url_encode("AZaz09-_.~"), "AZaz09-_.~");
    assert_eq!(url_encode("é"), "%C3%A9");
    assert_eq!(url_encode("a+b/c"), "a%2Bb%2Fc");
    assert_eq!(url_encode(""), "");
}

#[test]
fn rejection_without_status_field_is_explained() {
    let r = resp("HTTP/1.1 200 OK\r\nContent-Length: 3\r\n\r\nxyz");
    let e = classify_login(&r).unwrap_err();
    assert_eq!(
        e.message(),
        "authentication failed: no SVPNCOOKIE in login response and no recognizable status field"
    );
}

#[test]
fn status_over_400_names_the_code() {
    let r = resp("HTTP/1.1 401 Unauthorized\r\nContent-Length: 0\r\n\r\n");
    let e = classify_login(&r).unwrap_err();
    assert_eq!(e.message(), "authentication failed: server rejected credentials (HTTP 401)");
}

#[test]
fn host_check_follow_up() {
    assert_eq!(host_check_cookie(&Some("T".to_string())).as_deref(), Some("SVPNTMPCOOKIE=T"));
    assert_eq!(host_check_cookie(&None), None);
    let ok = resp("HTTP/1.1 200 OK\r\nSet-Cookie: SVPNCOOKIE=good; path=/\r\nContent-Length: 0\r\n\r\n");
    assert_eq!(host_check_result(&ok).unwrap(), "good");
    let bad = resp("HTTP/1.1 500 Oops\r\nContent-Length: 0\r\n\r\n");
    assert_eq!(host_check_result(&bad).unwrap_err().message(), "authentication failed: host check failed (HTTP 500)");
    let none = resp("HTTP/1.1 200 OK\r\nContent-Length: 0\r\n\r\n");
    assert!(matches!(host_check_result(&none), Err(VpnError::AuthFailed(_))));
}

#[test]
fn two_factor_message_quotes_the_token_info() {
    assert_eq!(
        two_factor_error("").message(),
        "authentication failed: gateway requires a second factor (OTP); interactive OTP is not supported yet"
    );
    assert_eq!(
        two_factor_error("ftm").message(),
        "authentication failed: gateway requires a second factor (OTP) [ftm]; interactive OTP is not supported yet"
    );
}

#[test]
fn token_info_is_carried_in_the_two_factor_outcome() {
    let r = resp("HTTP/1.1 200 OK\r\nContent-Length: 17\r\n\r\nret=2,tokeninfo=x");
    assert_eq!(classify_login(&r).unwrap(), LoginOutcome::TwoFactor("x".into()));
}
