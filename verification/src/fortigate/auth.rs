//! FortiGate SSL VPN username/password authentication: the login form body,
//! the `logincheck` reply fields, and the classification of the login
//! response, including the host-check round and second-factor detection.
//!
//! Credentials are percent-encoded so a crafted credential cannot alter the
//! request; they and the session cookies are never logged.
use vstd::prelude::*;
use vstd::string::StringSliceAdditionalSpecFns;

use crate::error::VpnError;
use crate::fortigate::http::{spec_cookie, HttpResponse};
use crate::text::{
    chars_of, digit, digit_char, fmt_decimal, index_in, index_of, push_char, spec_decimal,
    starts_with, starts_with_in, str_eq, trim, trim_in, utf8_lossy,
};

verus! {

/// The RFC 3986 unreserved bytes: `A-Z a-z 0-9 - _ . ~`.
pub open spec fn unreserved(b: u8) -> bool {
    (65 <= b && b <= 90) || (97 <= b && b <= 122) || (48 <= b && b <= 57) || b == 45 || b == 95
        || b == 46 || b == 126
}

/// One byte, percent-encoded: an unreserved byte stands for itself, any other
/// becomes `%XX` in upper-case hex.
pub open spec fn encode_byte(b: u8) -> Seq<char> {
    if unreserved(b) {
        seq![b as char]
    } else {
        seq!['%', digit_char(b as int / 16, true), digit_char(b as int % 16, true)]
    }
}

/// Percent-encoding of a byte string.
pub open spec fn spec_url_encode(b: Seq<u8>) -> Seq<char>
    decreases b.len(),
{
    if b.len() == 0 {
        Seq::empty()
    } else {
        spec_url_encode(b.drop_last()) + encode_byte(b.last())
    }
}

/// Percent-encode a form value (its UTF-8 bytes): everything outside the
/// unreserved set is escaped as `%XX`.
pub fn url_encode(s: &str) -> (r: String)
    ensures
        r@ == spec_url_encode(s.spec_bytes()),
{
    let bytes = s.as_bytes();
    let mut out = String::new();
    let mut i: usize = 0;
    while i < bytes.len()
        invariant
            i <= bytes@.len(),
            out@ == spec_url_encode(bytes@.take(i as int)),
        decreases bytes.len() - i,
    {
        let b = bytes[i];
        proof {
            assert(bytes@.take(i + 1).drop_last() =~= bytes@.take(i as int));
            assert(bytes@.take(i + 1).last() == b);
        }
        if (65 <= b && b <= 90) || (97 <= b && b <= 122) || (48 <= b && b <= 57) || b == 45 || b
            == 95 || b == 46 || b == 126 {
            push_char(&mut out, b as char);
        } else {
            push_char(&mut out, '%');
            push_char(&mut out, digit((b / 16) as u64, true));
            push_char(&mut out, digit((b % 16) as u64, true));
        }
        assert(out@ =~= spec_url_encode(bytes@.take(i + 1)));
        i = i + 1;
    }
    assert(bytes@.take(i as int) =~= bytes@);
    out
}

/// The `/remote/logincheck` form body.
pub open spec fn spec_login_body(u: Seq<u8>, p: Seq<u8>, r: Seq<u8>) -> Seq<char> {
    "username="@ + spec_url_encode(u) + "&credential="@ + spec_url_encode(p) + "&realm="@
        + spec_url_encode(r) + "&ajax=1"@
}

/// Build the `/remote/logincheck` form body. `realm` is usually empty;
/// portals configured with realms reject a login that omits theirs.
pub fn build_login_body(username: &str, password: &str, realm: &str) -> (r: String)
    ensures
        r@ == spec_login_body(username.spec_bytes(), password.spec_bytes(), realm.spec_bytes()),
{
    let mut out = String::from_str("username=");
    out.append(url_encode(username).as_str());
    out.append("&credential=");
    out.append(url_encode(password).as_str());
    out.append("&realm=");
    out.append(url_encode(realm).as_str());
    out.append("&ajax=1");
    out
}

/// Scan the comma-separated fields of `s` for the first one that, trimmed,
/// starts with `needle`, and give what follows the needle.
pub open spec fn field_scan(s: Seq<char>, needle: Seq<char>) -> Option<Seq<char>>
    decreases s.len(),
{
    match index_of(s, ',') {
        None => {
            let p = trim(s);
            if starts_with(p, needle) {
                Some(p.skip(needle.len() as int))
            } else {
                None
            }
        },
        Some(i) => {
            proof {
                crate::text::lemma_index_of(s, ',');
            }
            let p = trim(s.take(i));
            if starts_with(p, needle) {
                Some(p.skip(needle.len() as int))
            } else {
                field_scan(s.skip(i + 1), needle)
            }
        },
    }
}

/// The value of `key` in a `logincheck` reply body such as
/// `ret=1,redir=/remote/...,tokeninfo=...`.
pub open spec fn spec_body_field(body: Seq<char>, key: Seq<char>) -> Option<Seq<char>> {
    field_scan(trim(body), key.push('='))
}

/// A field parsed out of the comma-separated `logincheck` reply body.
pub fn body_field<'a>(body: &'a str, key: &str) -> (r: Option<&'a str>)
    ensures
        match spec_body_field(body@, key@) {
            None => r is None,
            Some(v) => r matches Some(x) && x@ == v,
        },
{
    let cs = chars_of(body);
    let n = cs.len();
    assert(cs@.subrange(0, n as int) =~= body@);
    let mut needle = chars_of(key);
    needle.push('=');
    let (t0, t1) = trim_in(cs.as_slice(), 0, n);
    let mut a = t0;
    loop
        invariant
            t0 <= a <= t1,
            t1 <= n,
            n == cs@.len(),
            cs@ == body@,
            needle@ == key@.push('='),
            spec_body_field(body@, key@) == field_scan(cs@.subrange(a as int, t1 as int), needle@),
        decreases t1 - a,
    {
        let ghost s = cs@.subrange(a as int, t1 as int);
        let comma = index_in(cs.as_slice(), a, t1, ',');
        let pe = match comma {
            Some(i) => i,
            None => t1,
        };
        let (p0, p1) = trim_in(cs.as_slice(), a, pe);
        proof {
            if comma is Some {
                assert(s.take(pe - a) =~= cs@.subrange(a as int, pe as int));
                assert(s.skip(pe - a + 1) =~= cs@.subrange(pe + 1, t1 as int));
            } else {
                assert(s =~= cs@.subrange(a as int, pe as int));
            }
        }
        if starts_with_in(cs.as_slice(), p0, p1, needle.as_slice()) {
            assert(cs@.subrange(p0 as int, p1 as int).skip(needle@.len() as int) =~= cs@.subrange(
                p0 + needle@.len(),
                p1 as int,
            ));
            return Some(body.substring_char(p0 + needle.len(), p1));
        }
        match comma {
            None => {
                return None;
            },
            Some(i) => {
                a = i + 1;
            },
        }
    }
}

/// What the gateway wants after the credentials were accepted.
#[derive(Debug, Clone, PartialEq, Eq)]
pub enum LoginOutcome {
    /// The session cookie was issued directly.
    Cookie(String),
    /// A host check stands between us and the cookie: follow `redir` while
    /// sending `SVPNTMPCOOKIE=<tmp_cookie>`.
    HostCheck { redir: String, tmp_cookie: Option<String> },
    /// A one-time password / second factor is required.
    TwoFactor(String),
}

/// How a login response is classified.
pub enum LoginModel {
    Cookie(Seq<char>),
    HostCheck(Seq<char>, Option<Seq<char>>),
    TwoFactor(Seq<char>),
    /// Refused, with this message.
    Refused(Seq<char>),
}

/// Classify a login response, in order: a 4xx/5xx status is a refusal; a
/// usable `SVPNCOOKIE` is success; `ret=1` with a non-empty `redir` is the
/// host-check round (with the temporary cookie, if any); any of the
/// second-factor markers `tokeninfo`, `reqid`, `polid`, `magic` asks for a
/// second factor (carrying `tokeninfo`); anything else is a refusal naming
/// the `ret` value when there is one.
pub open spec fn spec_classify(status: u16, h: Seq<(Seq<char>, Seq<char>)>, body: Seq<u8>) -> LoginModel {
    let text = utf8_lossy(body);
    let ret = match spec_body_field(text, "ret"@) {
        Some(v) => v,
        None => Seq::empty(),
    };
    if status >= 400 {
        LoginModel::Refused("server rejected credentials (HTTP "@ + spec_decimal(status as nat) + ")"@)
    } else if spec_cookie(h, "SVPNCOOKIE"@) is Some {
        LoginModel::Cookie(spec_cookie(h, "SVPNCOOKIE"@).unwrap())
    } else if ret == "1"@ && (spec_body_field(text, "redir"@) matches Some(r) && r.len() > 0) {
        LoginModel::HostCheck(spec_body_field(text, "redir"@).unwrap(), spec_cookie(h, "SVPNTMPCOOKIE"@))
    } else if spec_body_field(text, "tokeninfo"@) is Some || spec_body_field(text, "reqid"@) is Some
        || spec_body_field(text, "polid"@) is Some || spec_body_field(text, "magic"@) is Some {
        LoginModel::TwoFactor(
            match spec_body_field(text, "tokeninfo"@) {
                Some(v) => v,
                None => Seq::empty(),
            },
        )
    } else if ret.len() == 0 {
        LoginModel::Refused("no SVPNCOOKIE in login response and no recognizable status field"@)
    } else {
        LoginModel::Refused("gateway rejected the login (ret="@ + ret + ")"@)
    }
}

/// Whether a classification result is what the model names.
pub open spec fn login_is(r: Result<LoginOutcome, VpnError>, m: LoginModel) -> bool {
    match m {
        LoginModel::Cookie(c) => r matches Ok(LoginOutcome::Cookie(x)) && x@ == c,
        LoginModel::HostCheck(redir, tmp) => r matches Ok(LoginOutcome::HostCheck { redir: x, tmp_cookie: t })
            && x@ == redir && match tmp {
            None => t is None,
            Some(v) => t matches Some(y) && y@ == v,
        },
        LoginModel::TwoFactor(info) => r matches Ok(LoginOutcome::TwoFactor(x)) && x@ == info,
        LoginModel::Refused(msg) => r matches Err(VpnError::AuthFailed(x)) && x@ == msg,
    }
}

/// Classify the login response. All input here is untrusted server data.
pub fn classify_login(resp: &HttpResponse) -> (r: Result<LoginOutcome, VpnError>)
    ensures
        login_is(r, spec_classify(resp.status, resp.spec_headers(), resp.body@)),
{
    if resp.status >= 400 {
        let mut m = String::from_str("server rejected credentials (HTTP ");
        m.append(fmt_decimal(resp.status as u64).as_str());
        m.append(")");
        return Err(VpnError::AuthFailed(m));
    }
    if let Some(c) = resp.cookie("SVPNCOOKIE") {
        return Ok(LoginOutcome::Cookie(c));
    }
    let body = resp.body_str();
    let ret: &str = match body_field(body.as_str(), "ret") {
        Some(v) => v,
        None => "",
    };
    proof {
        reveal_strlit("");
        reveal_strlit("1");
        assert(""@ =~= Seq::<char>::empty());
    }
    if str_eq(ret, "1") {
        if let Some(redir) = body_field(body.as_str(), "redir") {
            if redir.unicode_len() > 0 {
                let mut rs = String::new();
                rs.append(redir);
                assert(rs@ =~= redir@);
                return Ok(LoginOutcome::HostCheck { redir: rs, tmp_cookie: resp.cookie("SVPNTMPCOOKIE") });
            }
        }
    }
    let tokeninfo = body_field(body.as_str(), "tokeninfo");
    if tokeninfo.is_some() || body_field(body.as_str(), "reqid").is_some() || body_field(
        body.as_str(),
        "polid",
    ).is_some() || body_field(body.as_str(), "magic").is_some() {
        let mut info = String::new();
        match tokeninfo {
            Some(t) => {
                info.append(t);
                assert(info@ =~= t@);
            },
            None => {
                assert(info@ =~= Seq::<char>::empty());
            },
        }
        return Ok(LoginOutcome::TwoFactor(info));
    }
    if ret.unicode_len() == 0 {
        Err(VpnError::AuthFailed(String::from_str("no SVPNCOOKIE in login response and no recognizable status field")))
    } else {
        let mut m = String::from_str("gateway rejected the login (ret=");
        m.append(ret);
        m.append(")");
        Err(VpnError::AuthFailed(m))
    }
}

/// The `Cookie:` header value for the host-check redirect: the temporary
/// cookie, when the gateway issued one.
pub fn host_check_cookie(tmp_cookie: &Option<String>) -> (r: Option<String>)
    ensures
        match tmp_cookie {
            None => r is None,
            Some(t) => r matches Some(x) && x@ == "SVPNTMPCOOKIE="@ + t@,
        },
{
    match tmp_cookie {
        None => None,
        Some(t) => {
            let mut h = String::from_str("SVPNTMPCOOKIE=");
            h.append(t.as_str());
            Some(h)
        },
    }
}

/// The outcome of following the host-check redirect: a 4xx/5xx status fails
/// the host check; otherwise the response must carry a usable `SVPNCOOKIE`.
pub fn host_check_result(resp: &HttpResponse) -> (r: Result<String, VpnError>)
    ensures
        resp.status >= 400 ==> (r matches Err(e) && e is AuthFailed && e.detail()
            == "host check failed (HTTP "@ + spec_decimal(resp.status as nat) + ")"@),
        resp.status < 400 ==> match spec_cookie(resp.spec_headers(), "SVPNCOOKIE"@) {
            Some(c) => r matches Ok(x) && x@ == c,
            None => r matches Err(e) && e is AuthFailed && e.detail()
                == "host check completed but the gateway issued no SVPNCOOKIE"@,
        },
{
    if resp.status >= 400 {
        let mut m = String::from_str("host check failed (HTTP ");
        m.append(fmt_decimal(resp.status as u64).as_str());
        m.append(")");
        return Err(VpnError::AuthFailed(m));
    }
    match resp.cookie("SVPNCOOKIE") {
        Some(c) => Ok(c),
        None => Err(VpnError::AuthFailed(String::from_str("host check completed but the gateway issued no SVPNCOOKIE"))),
    }
}

/// The refusal reported when the gateway asks for a second factor, which
/// needs an interactive channel this client does not have; `info` is the
/// gateway's `tokeninfo`, quoted when present.
pub fn two_factor_error(info: &str) -> (r: VpnError)
    ensures
        r is AuthFailed,
        info@.len() == 0 ==> r.detail() == "gateway requires a second factor (OTP); interactive OTP is not supported yet"@,
        info@.len() > 0 ==> r.detail() == "gateway requires a second factor (OTP) ["@ + info@
            + "]; interactive OTP is not supported yet"@,
{
    if info.unicode_len() == 0 {
        VpnError::AuthFailed(String::from_str("gateway requires a second factor (OTP); interactive OTP is not supported yet"))
    } else {
        let mut m = String::from_str("gateway requires a second factor (OTP) [");
        m.append(info);
        m.append("]; interactive OTP is not supported yet");
        VpnError::AuthFailed(m)
    }
}

/// The value of a hexadecimal digit (either case).
pub open spec fn hex_val(c: char) -> Option<int> {
    if '0' <= c && c <= '9' {
        Some(c as int - 48)
    } else if 'A' <= c && c <= 'F' {
        Some(c as int - 55)
    } else if 'a' <= c && c <= 'f' {
        Some(c as int - 87)
    } else {
        None
    }
}

/// Percent-decoding, as a form reader applies it: `%XX` is the byte `XX`,
/// any other character stands for itself.
pub open spec fn url_decode(s: Seq<char>) -> Seq<u8>
    decreases s.len(),
{
    if s.len() == 0 {
        Seq::empty()
    } else if s.len() >= 3 && s[0] == '%' && hex_val(s[1]) is Some && hex_val(s[2]) is Some {
        seq![(16 * hex_val(s[1]).unwrap() + hex_val(s[2]).unwrap()) as u8] + url_decode(s.skip(3))
    } else {
        seq![s[0] as u8] + url_decode(s.skip(1))
    }
}

/// Whether a character may appear in a percent-encoded value: an unreserved
/// character or the `%` of an escape (whose digits are unreserved too).
pub open spec fn encoded_char(c: char) -> bool {
    ('A' <= c && c <= 'Z') || ('a' <= c && c <= 'z') || ('0' <= c && c <= '9') || c == '-' || c
        == '_' || c == '.' || c == '~' || c == '%'
}

/// The encoding read from the front: the first byte's encoding, then the
/// rest's.
proof fn lemma_url_encode_front(b: Seq<u8>)
    requires
        b.len() > 0,
    ensures
        spec_url_encode(b) == encode_byte(b[0]) + spec_url_encode(b.skip(1)),
    decreases b.len(),
{
    if b.len() == 1 {
        assert(b.drop_last() =~= Seq::<u8>::empty());
        assert(b.skip(1) =~= Seq::<u8>::empty());
        assert(spec_url_encode(b.drop_last()) =~= Seq::<char>::empty());
        assert(b.last() == b[0]);
        assert(spec_url_encode(b) =~= encode_byte(b[0]));
    } else {
        lemma_url_encode_front(b.drop_last());
        assert(b.skip(1).drop_last() =~= b.drop_last().skip(1));
        assert(b.skip(1).last() == b.last());
        assert(spec_url_encode(b) =~= encode_byte(b[0]) + spec_url_encode(b.skip(1)));
    }
}

/// Percent-encoding is undone by percent-decoding: a form reader gets back
/// exactly the bytes that were encoded. The encoding uses unreserved
/// characters and `%` only, so none of the form's separators (`&`, `=`,
/// `+`, space) can appear inside an encoded value.
pub proof fn lemma_url_encode_round_trip(b: Seq<u8>)
    ensures
        url_decode(spec_url_encode(b)) == b,
        forall|i: int| 0 <= i < spec_url_encode(b).len() ==> encoded_char(#[trigger] spec_url_encode(b)[i]),
    decreases b.len(),
{
    if b.len() > 0 {
        lemma_url_encode_front(b);
        lemma_url_encode_round_trip(b.skip(1));
        let e = encode_byte(b[0]);
        let rest = spec_url_encode(b.skip(1));
        let s = e + rest;
        let x = b[0];
        if unreserved(x) {
            assert(s[0] == x as char);
            assert(s.skip(1) =~= rest);
            assert(s[0] != '%');
            assert((x as char) as u8 == x);
        } else {
            let hi = x as int / 16;
            let lo = x as int % 16;
            assert(s[0] == '%');
            assert(hex_val(s[1]) == Some(hi));
            assert(hex_val(s[2]) == Some(lo));
            assert(s.skip(3) =~= rest);
            assert((16 * hi + lo) as u8 == x);
        }
        assert(url_decode(s) =~= seq![x] + b.skip(1));
        assert(seq![x] + b.skip(1) =~= b);
        assert forall|i: int| 0 <= i < s.len() implies encoded_char(#[trigger] s[i]) by {
            if i >= e.len() {
                assert(s[i] == rest[i - e.len()]);
            }
        }
    } else {
        assert(spec_url_encode(b) =~= Seq::<char>::empty());
        assert(b =~= Seq::<u8>::empty());
    }
}

/// Only `ret=1` opens a host-check round: a login reply is taken for one only
/// when it is not a refusal by status, sets no usable `SVPNCOOKIE`, and its
/// body's `ret` field is `1` with a non-empty `redir`, which is the path
/// followed. A reply below 400 with no cookie, no second-factor marker and a
/// `ret` other than `1` is the refusal naming that `ret`.
pub proof fn lemma_host_check_needs_ret_1(status: u16, h: Seq<(Seq<char>, Seq<char>)>, body: Seq<u8>)
    ensures
        ({
            let text = utf8_lossy(body);
            spec_classify(status, h, body) matches LoginModel::HostCheck(redir, tmp) ==> {
                &&& status < 400
                &&& spec_cookie(h, "SVPNCOOKIE"@) is None
                &&& spec_body_field(text, "ret"@) == Some("1"@)
                &&& spec_body_field(text, "redir"@) == Some(redir)
                &&& redir.len() > 0
                &&& tmp == spec_cookie(h, "SVPNTMPCOOKIE"@)
            }
        }),
        ({
            let text = utf8_lossy(body);
            (status < 400 && spec_cookie(h, "SVPNCOOKIE"@) is None && spec_body_field(text, "tokeninfo"@)
                is None && spec_body_field(text, "reqid"@) is None && spec_body_field(text, "polid"@)
                is None && spec_body_field(text, "magic"@) is None && (spec_body_field(text, "ret"@)
                matches Some(v) && v.len() > 0 && v != "1"@)) ==> spec_classify(status, h, body)
                == LoginModel::Refused(
                "gateway rejected the login (ret="@ + spec_body_field(text, "ret"@).unwrap() + ")"@,
            )
        }),
{
    reveal_strlit("1");
    // A missing `ret` reads as empty, which is not `1`.
    assert("1"@.len() == 1);
}

} // verus!
