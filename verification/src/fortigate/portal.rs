//! The portal conversations before the tunnel, as step machines: which
//! request goes out next, and what each reply decides. The caller performs
//! the requests over one keep-alive session and hands back each reply.
//!
//! Login: the login page (which some portals need before they hand out a
//! host-check context; its failure is not fatal), then `logincheck`, then,
//! when the portal asks for it, the host-check redirect. Configuration: the
//! two allocation warm-ups (their failures are not fatal), then the XML.
use vstd::prelude::*;
use vstd::string::StringSliceAdditionalSpecFns;

use crate::error::VpnError;
use crate::fortigate::auth::{
    build_login_body, classify_login, host_check_cookie, host_check_result, spec_classify,
    spec_login_body, two_factor_error, LoginModel, LoginOutcome,
};
use crate::fortigate::config::{config_from_response, spec_parse_config, FortiConfig};
use crate::fortigate::http::{spec_cookie, spec_header, HttpResponse};
use crate::fortigate::session::session_cookie;
use crate::text::{ascii_lower, spec_decimal, utf8_lossy};

verus! {

/// One request to the portal.
#[derive(Debug)]
pub struct PortalRequest {
    pub method: String,
    pub path: String,
    /// The `Cookie` header to send, if any.
    pub cookie: Option<String>,
    /// The form body, if any.
    pub body: Option<String>,
}

/// Whether a request is the one with these parts.
pub open spec fn request_is(
    q: PortalRequest,
    method: Seq<char>,
    path: Seq<char>,
    cookie: Option<Seq<char>>,
    body: Option<Seq<char>>,
) -> bool {
    &&& q.method@ == method
    &&& q.path@ == path
    &&& match cookie {
        None => q.cookie is None,
        Some(c) => q.cookie matches Some(x) && x@ == c,
    }
    &&& match body {
        None => q.body is None,
        Some(b) => q.body matches Some(x) && x@ == b,
    }
}

/// What a conversation does next.
#[derive(Debug)]
pub enum FlowStep<T> {
    /// Send this request and hand back its reply.
    Send(PortalRequest),
    /// The conversation is over, with this result.
    Done(Result<T, VpnError>),
}

fn request(method: &str, path: &str, cookie: Option<String>, body: Option<String>) -> (r:
    PortalRequest)
    ensures
        r.method@ == method@,
        r.path@ == path@,
        r.cookie == cookie,
        r.body == body,
{
    PortalRequest { method: String::from_str(method), path: String::from_str(path), cookie, body }
}

/// Where a login stands.
#[derive(Debug, Clone, Copy, PartialEq, Eq, Structural)]
pub enum LoginStage {
    /// The login page was requested.
    Portal,
    /// The credentials were posted.
    Check,
    /// The host-check redirect was followed.
    HostCheck,
    /// The login is over.
    Finished,
}

/// The error a second-factor demand ends the login with.
pub open spec fn two_factor_detail(info: Seq<char>) -> Seq<char> {
    if info.len() == 0 {
        "gateway requires a second factor (OTP); interactive OTP is not supported yet"@
    } else {
        "gateway requires a second factor (OTP) ["@ + info + "]; interactive OTP is not supported yet"@
    }
}

/// What the host-check reply ends the login with.
pub open spec fn host_check_is(resp: HttpResponse, r: Result<String, VpnError>) -> bool {
    if resp.status >= 400 {
        r matches Err(e) && e is AuthFailed && e.detail() == "host check failed (HTTP "@
            + spec_decimal(resp.status as nat) + ")"@
    } else {
        match spec_cookie(resp.spec_headers(), "SVPNCOOKIE"@) {
            Some(c) => r matches Ok(x) && x@ == c,
            None => r matches Err(e) && e is AuthFailed && e.detail()
                == "host check completed but the gateway issued no SVPNCOOKIE"@,
        }
    }
}

/// A FortiGate login in progress.
pub struct LoginFlow {
    /// The form posted to `logincheck`.
    pub body: String,
    pub stage: LoginStage,
}

impl LoginFlow {
    /// Start a login: the first request is the portal's login page.
    pub fn new(username: &str, password: &str, realm: &str) -> (r: (LoginFlow, PortalRequest))
        ensures
            r.0.stage == LoginStage::Portal,
            r.0.body@ == spec_login_body(
                username.spec_bytes(),
                password.spec_bytes(),
                realm.spec_bytes(),
            ),
            request_is(r.1, "GET"@, "/remote/login?lang=en"@, None, None),
    {
        let body = build_login_body(username, password, realm);
        (LoginFlow { body, stage: LoginStage::Portal }, request("GET", "/remote/login?lang=en", None, None))
    }

    /// Take the reply to the last request.
    ///
    /// After the login page, whatever came back, the credentials are posted.
    /// A failed `logincheck` request ends the login with its error; its reply
    /// is classified: a cookie ends the login with it, a host check sends
    /// the redirect (with the temporary cookie, if any), a second factor or a
    /// refusal ends it with an authentication error. The host-check reply
    /// ends the login with the cookie it sets, or an error.
    pub fn on_reply(&mut self, reply: Result<HttpResponse, VpnError>) -> (r: FlowStep<String>)
        requires
            old(self).stage != LoginStage::Finished,
        ensures
            final(self).body == old(self).body,
            old(self).stage == LoginStage::Portal ==> final(self).stage == LoginStage::Check
                && (r matches FlowStep::Send(q) && request_is(
                q,
                "POST"@,
                "/remote/logincheck"@,
                None,
                Some(old(self).body@),
            )),
            old(self).stage == LoginStage::Check ==> match reply {
                Err(e) => final(self).stage == LoginStage::Finished && (r matches FlowStep::Done(
                    Err(x),
                ) && x == e),
                Ok(resp) => match spec_classify(resp.status, resp.spec_headers(), resp.body@) {
                    LoginModel::Cookie(c) => final(self).stage == LoginStage::Finished && (r matches FlowStep::Done(
                        Ok(x),
                    ) && x@ == c),
                    LoginModel::HostCheck(redir, tmp) => final(self).stage == LoginStage::HostCheck
                        && (r matches FlowStep::Send(q) && request_is(
                        q,
                        "GET"@,
                        redir,
                        match tmp {
                            Some(t) => Some("SVPNTMPCOOKIE="@ + t),
                            None => None,
                        },
                        None,
                    )),
                    LoginModel::TwoFactor(info) => final(self).stage == LoginStage::Finished && (r matches FlowStep::Done(
                        Err(x),
                    ) && x is AuthFailed && x.detail() == two_factor_detail(info)),
                    LoginModel::Refused(msg) => final(self).stage == LoginStage::Finished && (r matches FlowStep::Done(
                        Err(x),
                    ) && x is AuthFailed && x.detail() == msg),
                },
            },
            old(self).stage == LoginStage::HostCheck ==> final(self).stage == LoginStage::Finished
                && match reply {
                Err(e) => r matches FlowStep::Done(Err(x)) && x == e,
                Ok(resp) => r matches FlowStep::Done(d) && host_check_is(resp, d),
            },
    {
        match self.stage {
            LoginStage::Portal => {
                self.stage = LoginStage::Check;
                FlowStep::Send(
                    request("POST", "/remote/logincheck", None, Some(self.body.clone())),
                )
            },
            LoginStage::Check => {
                self.stage = LoginStage::Finished;
                let resp = match reply {
                    Err(e) => {
                        return FlowStep::Done(Err(e));
                    },
                    Ok(resp) => resp,
                };
                match classify_login(&resp) {
                    Err(e) => FlowStep::Done(Err(e)),
                    Ok(LoginOutcome::Cookie(c)) => FlowStep::Done(Ok(c)),
                    Ok(LoginOutcome::HostCheck { redir, tmp_cookie }) => {
                        let hdr = host_check_cookie(&tmp_cookie);
                        self.stage = LoginStage::HostCheck;
                        FlowStep::Send(PortalRequest {
                            method: String::from_str("GET"),
                            path: redir,
                            cookie: hdr,
                            body: None,
                        })
                    },
                    Ok(LoginOutcome::TwoFactor(info)) => FlowStep::Done(
                        Err(two_factor_error(info.as_str())),
                    ),
                }
            },
            _ => {
                self.stage = LoginStage::Finished;
                match reply {
                    Err(e) => FlowStep::Done(Err(e)),
                    Ok(resp) => FlowStep::Done(host_check_result(&resp)),
                }
            },
        }
    }
}

/// Where a configuration fetch stands.
#[derive(Debug, Clone, Copy, PartialEq, Eq, Structural)]
pub enum ConfigStage {
    /// `/remote/index` was requested.
    Index,
    /// `/remote/fortisslvpn` was requested.
    Allocate,
    /// The XML was requested.
    Xml,
    /// The fetch is over.
    Finished,
}

/// A configuration fetch in progress.
pub struct ConfigFlow {
    /// The `Cookie` header every request carries.
    pub cookie: String,
    pub stage: ConfigStage,
}

impl ConfigFlow {
    /// Start a fetch with the session cookie: the first request is the
    /// `/remote/index` warm-up.
    pub fn new(cookie: &str) -> (r: (ConfigFlow, PortalRequest))
        ensures
            r.0.stage == ConfigStage::Index,
            r.0.cookie@ == "SVPNCOOKIE="@ + cookie@,
            request_is(r.1, "GET"@, "/remote/index"@, Some("SVPNCOOKIE="@ + cookie@), None),
    {
        let ck = session_cookie(cookie);
        let q = request("GET", "/remote/index", Some(ck.clone()), None);
        (ConfigFlow { cookie: ck, stage: ConfigStage::Index }, q)
    }

    /// Take the reply to the last request. The warm-ups go on whatever came
    /// back; the XML reply ends the fetch: a failed request with its error,
    /// a 4xx/5xx status with a protocol error, anything else with the
    /// configuration its body describes.
    pub fn on_reply(&mut self, reply: Result<HttpResponse, VpnError>) -> (r: FlowStep<FortiConfig>)
        requires
            old(self).stage != ConfigStage::Finished,
        ensures
            final(self).cookie == old(self).cookie,
            old(self).stage == ConfigStage::Index ==> final(self).stage == ConfigStage::Allocate
                && (r matches FlowStep::Send(q) && request_is(
                q,
                "GET"@,
                "/remote/fortisslvpn"@,
                Some(old(self).cookie@),
                None,
            )),
            old(self).stage == ConfigStage::Allocate ==> final(self).stage == ConfigStage::Xml && (r matches FlowStep::Send(
                q,
            ) && request_is(q, "GET"@, "/remote/fortisslvpn_xml"@, Some(old(self).cookie@), None)),
            old(self).stage == ConfigStage::Xml ==> final(self).stage == ConfigStage::Finished
                && match reply {
                Err(e) => r matches FlowStep::Done(Err(x)) && x == e,
                Ok(resp) => if resp.status >= 400 {
                    r matches FlowStep::Done(Err(x)) && x is Protocol && x.detail()
                        == "FortiGate config fetch failed (HTTP "@ + spec_decimal(resp.status as nat)
                        + ")"@
                } else {
                    r matches FlowStep::Done(Ok(c)) && c@ == spec_parse_config(utf8_lossy(resp.body@))
                },
            },
    {
        match self.stage {
            ConfigStage::Index => {
                self.stage = ConfigStage::Allocate;
                FlowStep::Send(request("GET", "/remote/fortisslvpn", Some(self.cookie.clone()), None))
            },
            ConfigStage::Allocate => {
                self.stage = ConfigStage::Xml;
                FlowStep::Send(
                    request("GET", "/remote/fortisslvpn_xml", Some(self.cookie.clone()), None),
                )
            },
            _ => {
                self.stage = ConfigStage::Finished;
                match reply {
                    Err(e) => FlowStep::Done(Err(e)),
                    Ok(resp) => FlowStep::Done(config_from_response(&resp)),
                }
            },
        }
    }
}

/// What the session does after one attempt at a request.
#[derive(Debug, Clone, Copy, PartialEq, Eq, Structural)]
pub enum AttemptStep {
    /// Hand the reply back; keep the connection for the next request unless
    /// the server asked to close it.
    Deliver { keep_connection: bool },
    /// Drop the connection and try once more on a fresh one.
    Reconnect,
    /// Drop the connection and hand the error back.
    GiveUp,
}

/// Whether a reply says `Connection: close`.
pub open spec fn asks_close(resp: HttpResponse) -> bool {
    spec_header(resp.spec_headers(), "connection"@) matches Some(v) && ascii_lower(v) == "close"@
}

/// The session's decision after attempt `attempt` (0 or 1) of a request: a
/// reply is delivered, with the connection kept unless the reply says
/// `Connection: close`; a failure on the first attempt (a reused connection
/// the server had closed fails on the first write or read) is retried once
/// on a fresh connection, a failure on the second is handed back.
pub fn after_attempt(attempt: u8, reply: &Result<HttpResponse, VpnError>) -> (r: AttemptStep)
    requires
        attempt < 2,
    ensures
        reply matches Ok(resp) ==> (r matches AttemptStep::Deliver { keep_connection: k } && k
            == !asks_close(*resp)),
        (reply is Err && attempt == 0) ==> (r is Reconnect),
        (reply is Err && attempt == 1) ==> (r is GiveUp),
{
    match reply {
        Ok(resp) => AttemptStep::Deliver { keep_connection: !resp.asks_to_close() },
        Err(_) => if attempt == 0 {
            AttemptStep::Reconnect
        } else {
            AttemptStep::GiveUp
        },
    }
}

} // verus!
