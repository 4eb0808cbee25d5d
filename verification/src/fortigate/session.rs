//! The tunnel upgrade request. After `GET /remote/sslvpn-tunnel` the socket
//! stops being HTTP and carries `0x5050`-framed PPP.
use vstd::prelude::*;

use crate::fortigate::http::USER_AGENT_TUNNEL;

verus! {

/// The upgrade request carrying the session cookie. `Host: sslvpn` is the
/// literal the reference clients send; the gateway does not route on it.
pub open spec fn spec_tunnel_request(cookie: Seq<char>) -> Seq<char> {
    "GET /remote/sslvpn-tunnel HTTP/1.1\r\nHost: sslvpn\r\nUser-Agent: "@ + USER_AGENT_TUNNEL@
        + "\r\nCookie: SVPNCOOKIE="@ + cookie + "\r\n\r\n"@
}

/// Build the `GET /remote/sslvpn-tunnel` upgrade request.
pub fn build_tunnel_request(cookie: &str) -> (r: String)
    ensures
        r@ == spec_tunnel_request(cookie@),
{
    let mut r = String::from_str("GET /remote/sslvpn-tunnel HTTP/1.1\r\nHost: sslvpn\r\nUser-Agent: ");
    r.append(USER_AGENT_TUNNEL);
    r.append("\r\nCookie: SVPNCOOKIE=");
    r.append(cookie);
    r.append("\r\n\r\n");
    r
}

/// The `Cookie` header value that carries the session cookie on the portal
/// requests after login (the allocation warm-up and the config fetch).
pub fn session_cookie(cookie: &str) -> (r: String)
    ensures
        r@ == "SVPNCOOKIE="@ + cookie@,
{
    let mut r = String::from_str("SVPNCOOKIE=");
    r.append(cookie);
    r
}

} // verus!
