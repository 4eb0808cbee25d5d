//! Minimal HTTP/1.1 message handling for the FortiGate portal: request
//! building, response header parsing, body delimiting (chunked first,
//! `Content-Length` second, end of stream last), and header/cookie lookup.
//! Every byte here is untrusted server input: parsing is bounded and total.
use vstd::prelude::*;
use vstd::string::StringSliceAdditionalSpecFns;
use vstd::utf8::{decode_utf8, valid_utf8};

use crate::error::VpnError;
use crate::fortigate::framing::push_all;
use crate::fortigate::ppp::{crlfcrlf_at, first_crlfcrlf};
use crate::text::{
    ascii_lower, chars_of, decode_lossy, decode_utf8_exact, find_in, find_sub, fmt_decimal,
    index_in, index_of, lower_range, nth_word, nth_word_in, parse_uint, parse_uint_in, quote_debug,
    spec_decimal, starts_with, string_of, string_of_range, trim, trim_end, trim_in, trim_start,
    utf8_lossy, is_ws, lemma_index_of,
    debug_quoted,
};

verus! {

/// Client User-Agent. Must not contain `SV1` on `/remote/logincheck`: some
/// FortiOS versions answer HTTP 405 to that.
pub const USER_AGENT: &'static str = "Mozilla/5.0";

/// User-Agent for the tunnel upgrade, the form FortiClient itself sends.
pub const USER_AGENT_TUNNEL: &'static str = "Mozilla/5.0 SV1";

/// Largest response we buffer (256 KiB).
pub const RESPONSE_MAX: usize = 262144;

/// A parsed HTTP response.
#[derive(Debug, Clone)]
pub struct HttpResponse {
    pub status: u16,
    /// Header names are lower-cased; values keep their original casing.
    pub headers: Vec<(String, String)>,
    pub body: Vec<u8>,
}

/// The first value recorded under `key`.
pub open spec fn spec_header(h: Seq<(Seq<char>, Seq<char>)>, key: Seq<char>) -> Option<Seq<char>>
    decreases h.len(),
{
    if h.len() == 0 {
        None
    } else if h[0].0 == key {
        Some(h[0].1)
    } else {
        spec_header(h.skip(1), key)
    }
}

/// Whether a character can be part of a cookie name.
pub open spec fn cookie_name_char(c: char) -> bool {
    ('a' <= c && c <= 'z') || ('A' <= c && c <= 'Z') || ('0' <= c && c <= '9') || c == '_' || c == '-'
}

/// The first position of `;` or `,`.
pub open spec fn index_of_sep(s: Seq<char>) -> Option<int> {
    match (index_of(s, ';'), index_of(s, ',')) {
        (Some(a), Some(b)) => Some(if a < b { a } else { b }),
        (Some(a), None) => Some(a),
        (None, Some(b)) => Some(b),
        (None, None) => None,
    }
}

/// The usable value a single `Set-Cookie` header gives `name`: the first
/// `name=` must not be the tail of a longer cookie name; the value runs to the
/// next `;` or `,`, is trimmed, and an empty value or the `0` sentinel (a
/// cookie being cleared) counts as none.
pub open spec fn cookie_in(v: Seq<char>, name: Seq<char>) -> Option<Seq<char>> {
    let pat = name.push('=');
    match find_sub(v, pat) {
        None => None,
        Some(start) => if start > 0 && cookie_name_char(v[start - 1]) {
            None
        } else {
            let rest = v.skip(start + pat.len());
            let end = match index_of_sep(rest) {
                Some(e) => e,
                None => rest.len() as int,
            };
            let val = trim(rest.take(end));
            if val.len() == 0 || val == seq!['0'] {
                None
            } else {
                Some(val)
            }
        },
    }
}

/// The last usable value any `Set-Cookie` header gives `name`.
pub open spec fn spec_cookie(h: Seq<(Seq<char>, Seq<char>)>, name: Seq<char>) -> Option<Seq<char>>
    decreases h.len(),
{
    if h.len() == 0 {
        None
    } else {
        let prev = spec_cookie(h.drop_last(), name);
        if h.last().0 == "set-cookie"@ {
            match cookie_in(h.last().1, name) {
                Some(v) => Some(v),
                None => prev,
            }
        } else {
            prev
        }
    }
}

impl HttpResponse {
    /// The headers as plain values.
    pub open spec fn spec_headers(&self) -> Seq<(Seq<char>, Seq<char>)> {
        self.headers.deep_view()
    }

    /// First value for a header name (case-insensitive).
    pub fn header(&self, name: &str) -> (r: Option<&str>)
        ensures
            match spec_header(self.spec_headers(), ascii_lower(name@)) {
                None => r is None,
                Some(v) => r matches Some(x) && x@ == v,
            },
    {
        let nc = chars_of(name);
        let want = lower_range(nc.as_slice(), 0, nc.len());
        assert(nc@.subrange(0, nc@.len() as int) =~= name@);
        let ghost h = self.spec_headers();
        let mut i: usize = 0;
        assert(h.skip(0) =~= h);
        while i < self.headers.len()
            invariant
                i <= self.headers@.len(),
                h == self.spec_headers(),
                want@ == ascii_lower(name@),
                spec_header(h, want@) == spec_header(h.skip(i as int), want@),
            decreases self.headers.len() - i,
        {
            let kc = chars_of(self.headers[i].0.as_str());
            assert(h.skip(i as int)[0] == h[i as int]);
            assert(h.skip(i as int).skip(1) =~= h.skip(i + 1));
            if crate::text::chars_eq(kc.as_slice(), want.as_slice()) {
                return Some(self.headers[i].1.as_str());
            }
            i = i + 1;
        }
        None
    }

    /// The body as UTF-8, with invalid sequences replaced.
    pub fn body_str(&self) -> (r: String)
        ensures
            r@ == utf8_lossy(self.body@),
    {
        decode_lossy(self.body.as_slice())
    }

    /// Extract a cookie value from the `Set-Cookie` headers. FortiGate clears
    /// a cookie by re-sending it with an empty value, so an empty value (and
    /// the `0` sentinel) is a deletion, not a credential: both are skipped and
    /// the last usable value wins.
    pub fn cookie(&self, name: &str) -> (r: Option<String>)
        ensures
            match spec_cookie(self.spec_headers(), name@) {
                None => r is None,
                Some(v) => r matches Some(x) && x@ == v,
            },
    {
        let ghost h = self.spec_headers();
        let mut pat = chars_of(name);
        pat.push('=');
        let mut found: Option<String> = None;
        let mut i: usize = 0;
        while i < self.headers.len()
            invariant
                i <= self.headers@.len(),
                h == self.spec_headers(),
                pat@ == name@.push('='),
                match spec_cookie(h.take(i as int), name@) {
                    None => found is None,
                    Some(v) => found matches Some(x) && x@ == v,
                },
            decreases self.headers.len() - i,
        {
            proof {
                assert(h.take(i + 1).drop_last() =~= h.take(i as int));
                assert(h.take(i + 1).last() == h[i as int]);
            }
            if crate::text::str_eq(self.headers[i].0.as_str(), "set-cookie") {
                match cookie_value(self.headers[i].1.as_str(), name, pat.as_slice()) {
                    Some(v) => {
                        found = Some(v);
                    },
                    None => {},
                }
            }
            i = i + 1;
        }
        assert(h.take(i as int) =~= h);
        found
    }
}

fn cookie_value(v: &str, name: &str, pat: &[char]) -> (r: Option<String>)
    requires
        pat@ == name@.push('='),
    ensures
        match cookie_in(v@, name@) {
            None => r is None,
            Some(x) => r matches Some(y) && y@ == x,
        },
{
    let cs = chars_of(v);
    let n = cs.len();
    assert(cs@.subrange(0, n as int) =~= v@);
    let start = match find_in(cs.as_slice(), 0, n, pat) {
        None => return None,
        Some(s) => s,
    };
    proof {
        crate::text::lemma_find_sub(v@, pat@);
    }
    if start > 0 {
        let p = cs[start - 1];
        if ('a' <= p && p <= 'z') || ('A' <= p && p <= 'Z') || ('0' <= p && p <= '9') || p == '_' || p == '-' {
            return None;
        }
    }
    assert(find_sub(v@, name@.push('=')) == Some(start as int));
    assert(!(start > 0 && cookie_name_char(v@[start - 1])));
    let from = start + pat.len();
    let ghost rest = v@.skip(from as int);
    assert(rest == v@.skip(start + name@.push('=').len()));
    assert(rest =~= cs@.subrange(from as int, n as int));
    let semi = index_in(cs.as_slice(), from, n, ';');
    let comma = index_in(cs.as_slice(), from, n, ',');
    let end = match (semi, comma) {
        (Some(a), Some(b)) => if a < b { a } else { b },
        (Some(a), None) => a,
        (None, Some(b)) => b,
        (None, None) => n,
    };
    assert(end - from == match index_of_sep(rest) {
        Some(e) => e,
        None => rest.len() as int,
    });
    assert(rest.take(end - from) =~= cs@.subrange(from as int, end as int));
    let (a, b) = trim_in(cs.as_slice(), from, end);
    if a == b {
        return None;
    }
    if b - a == 1 && cs[a] == '0' {
        assert(cs@.subrange(a as int, b as int) =~= seq!['0']);
        return None;
    }
    proof {
        let w = cs@.subrange(a as int, b as int);
        if w == seq!['0'] {
            assert(w.len() == 1);
            assert(b - a == 1);
            assert(w[0] == '0');
            assert(w[0] == cs@[a as int]);
            assert(false);
        }
    }
    assert(cs@.subrange(a as int, b as int) == trim(rest.take(end - from)));
    assert(cs@.subrange(a as int, b as int) != seq!['0']);
    assert(cs@.subrange(a as int, b as int).len() != 0);
    assert(cookie_in(v@, name@) == Some(cs@.subrange(a as int, b as int)));
    Some(string_of_range(cs.as_slice(), a, b))
}

/// The request bytes `build_request` produces.
pub open spec fn spec_request(
    method: Seq<char>,
    path: Seq<char>,
    host: Seq<char>,
    user_agent: Seq<char>,
    cookie: Option<Seq<char>>,
    body: Option<(Seq<char>, nat)>,
) -> Seq<char> {
    method + " "@ + path + " HTTP/1.1\r\nHost: "@ + host + "\r\nUser-Agent: "@ + user_agent
        + "\r\nAccept: */*\r\n"@ + match cookie {
        Some(c) => "Cookie: "@ + c + "\r\n"@,
        None => Seq::empty(),
    } + match body {
        Some((b, n)) => "Content-Type: application/x-www-form-urlencoded\r\n"@ + "Content-Length: "@
            + spec_decimal(n) + "\r\n\r\n"@ + b,
        None => "\r\n"@,
    }
}

/// Build a request. `cookie` is the whole `Cookie:` header value; a body
/// makes it a form POST whose `Content-Length` is the body's byte length.
pub fn build_request(
    method: &str,
    path: &str,
    host: &str,
    user_agent: &str,
    cookie: Option<&str>,
    body: Option<&str>,
) -> (r: String)
    ensures
        r@ == spec_request(
            method@,
            path@,
            host@,
            user_agent@,
            match cookie {
                Some(c) => Some(c@),
                None => None,
            },
            match body {
                Some(b) => Some((b@, b.len() as nat)),
                None => None,
            },
        ),
{
    let mut req = String::from_str(method);
    req.append(" ");
    req.append(path);
    req.append(" HTTP/1.1\r\nHost: ");
    req.append(host);
    req.append("\r\nUser-Agent: ");
    req.append(user_agent);
    req.append("\r\nAccept: */*\r\n");
    let ghost head = req@;
    match cookie {
        Some(c) => {
            req.append("Cookie: ");
            req.append(c);
            req.append("\r\n");
        },
        None => {},
    }
    let ghost with_cookie = req@;
    let ghost c_opt = match cookie {
        Some(c) => Some(c@),
        None => None,
    };
    assert(with_cookie =~= method@ + " "@ + path@ + " HTTP/1.1\r\nHost: "@ + host@ + "\r\nUser-Agent: "@
        + user_agent@ + "\r\nAccept: */*\r\n"@ + match c_opt {
        Some(c) => "Cookie: "@ + c + "\r\n"@,
        None => Seq::<char>::empty(),
    });
    match body {
        Some(b) => {
            req.append("Content-Type: application/x-www-form-urlencoded\r\n");
            req.append("Content-Length: ");
            req.append(fmt_decimal(b.len() as u64).as_str());
            req.append("\r\n\r\n");
            req.append(b);
            assert(req@ =~= with_cookie + ("Content-Type: application/x-www-form-urlencoded\r\n"@
                + "Content-Length: "@ + spec_decimal(b.len() as nat) + "\r\n\r\n"@ + b@));
        },
        None => {
            req.append("\r\n");
        },
    }
    req
}

/// Position just past the first `\r\n\r\n`, if the header block is complete.
pub fn header_end(buf: &[u8]) -> (r: Option<usize>)
    ensures
        match r {
            Some(e) => e >= 4 && first_crlfcrlf(buf@, e - 4),
            None => forall|k: int| !crlfcrlf_at(buf@, k),
        },
{
    let n = buf.len();
    let mut i: usize = 0;
    while i < n && n - i >= 4
        invariant
            n == buf@.len(),
            i <= n,
            forall|k: int| 0 <= k < i ==> !crlfcrlf_at(buf@, k),
        decreases n - i,
    {
        if buf[i] == 13 && buf[i + 1] == 10 && buf[i + 2] == 13 && buf[i + 3] == 10 {
            return Some(i + 4);
        }
        i = i + 1;
    }
    None
}

/// A line without the `\r` of its `\r\n` ending.
pub open spec fn strip_cr(l: Seq<char>) -> Seq<char> {
    if l.len() > 0 && l.last() == '\r' {
        l.drop_last()
    } else {
        l
    }
}

/// The first line (`str::lines().next()`): `None` for empty text.
pub open spec fn first_line(s: Seq<char>) -> Option<Seq<char>> {
    if s.len() == 0 {
        None
    } else {
        match index_of(s, '\n') {
            None => Some(s),
            Some(i) => Some(strip_cr(s.take(i))),
        }
    }
}

/// What follows the first line.
pub open spec fn after_first_line(s: Seq<char>) -> Seq<char> {
    match index_of(s, '\n') {
        None => Seq::empty(),
        Some(i) => s.skip(i + 1),
    }
}

/// A header line split at its first colon: the trimmed, lower-cased name and
/// the trimmed value. A line without a colon gives nothing.
pub open spec fn header_of_line(l: Seq<char>) -> Seq<(Seq<char>, Seq<char>)> {
    match index_of(l, ':') {
        None => Seq::empty(),
        Some(j) => seq![(ascii_lower(trim(l.take(j))), trim(l.skip(j + 1)))],
    }
}

/// The headers of every line of `s`, in order.
pub open spec fn header_lines(s: Seq<char>) -> Seq<(Seq<char>, Seq<char>)>
    decreases s.len(),
{
    if s.len() == 0 {
        Seq::empty()
    } else {
        match index_of(s, '\n') {
            None => header_of_line(s),
            Some(i) => {
                proof {
                    crate::text::lemma_index_of(s, '\n');
                }
                header_of_line(strip_cr(s.take(i))) + header_lines(s.skip(i + 1))
            },
        }
    }
}

/// The status code: the second word of the first line, as a `u16`.
pub open spec fn spec_status(head: Seq<char>) -> Option<u16> {
    match first_line(head) {
        None => None,
        Some(l) => match nth_word(l, 1) {
            None => None,
            Some(w) => match parse_uint(w, 10, 65535) {
                None => None,
                Some(v) => Some(v as u16),
            },
        },
    }
}

/// Why a header block has no status code.
pub open spec fn status_error(head: Seq<char>) -> Seq<char> {
    match first_line(head) {
        None => "empty HTTP response"@,
        Some(l) => "malformed HTTP status line: "@ + debug_quoted(l),
    }
}

fn header_of_line_in(cs: &[char], from: usize, to: usize) -> (r: Option<(String, String)>)
    requires
        from <= to <= cs@.len(),
    ensures
        match r {
            None => header_of_line(cs@.subrange(from as int, to as int)) == Seq::<(Seq<char>, Seq<char>)>::empty(),
            Some(kv) => header_of_line(cs@.subrange(from as int, to as int)) == seq![(kv.0@, kv.1@)],
        },
{
    let ghost l = cs@.subrange(from as int, to as int);
    match index_in(cs, from, to, ':') {
        None => None,
        Some(j) => {
            assert(l.take(j - from) =~= cs@.subrange(from as int, j as int));
            assert(l.skip(j - from + 1) =~= cs@.subrange(j + 1, to as int));
            let (k0, k1) = trim_in(cs, from, j);
            let key = lower_range(cs, k0, k1);
            let (v0, v1) = trim_in(cs, j + 1, to);
            let ks = string_of(key.as_slice());
            let vs = string_of_range(cs, v0, v1);
            Some((ks, vs))
        },
    }
}

/// Parse the status line and headers out of a complete header block.
pub fn parse_head(head: &str) -> (r: Result<(u16, Vec<(String, String)>), VpnError>)
    ensures
        match spec_status(head@) {
            None => r matches Err(e) && e is Protocol && e.detail() == status_error(head@),
            Some(st) => r matches Ok((code, hs)) && code == st && hs.deep_view() == header_lines(
                after_first_line(head@),
            ),
        },
{
    let cs = chars_of(head);
    let n = cs.len();
    assert(cs@.subrange(0, n as int) =~= head@);
    if n == 0 {
        return Err(VpnError::Protocol(String::from_str("empty HTTP response")));
    }
    let nl = index_in(cs.as_slice(), 0, n, '\n');
    let (line_end, body_start) = match nl {
        None => (n, n),
        Some(i) => {
            assert(head@.take(i as int) =~= cs@.subrange(0, i as int));
            if i > 0 && cs[i - 1] == '\r' {
                assert(cs@.subrange(0, i as int).drop_last() =~= cs@.subrange(0, i - 1));
                (i - 1, i + 1)
            } else {
                (i, i + 1)
            }
        },
    };
    assert(first_line(head@) == Some(cs@.subrange(0, line_end as int)));
    let status = match nth_word_in(cs.as_slice(), 0, line_end, 1) {
        None => None,
        Some((a, b)) => parse_uint_in(cs.as_slice(), a, b, 10, 65535),
    };
    let code = match status {
        None => {
            let l = string_of_range(cs.as_slice(), 0, line_end);
            let mut m = String::from_str("malformed HTTP status line: ");
            m.append(quote_debug(l.as_str()).as_str());
            return Err(VpnError::Protocol(m));
        },
        Some(c) => c as u16,
    };
    // Header lines.
    let ghost rest = after_first_line(head@);
    assert(rest =~= cs@.subrange(body_start as int, n as int));
    let mut out: Vec<(String, String)> = Vec::new();
    let mut a = body_start;
    while a < n
        invariant
            body_start <= a <= n,
            n == cs@.len(),
            out.deep_view() + header_lines(cs@.subrange(a as int, n as int)) == header_lines(rest),
            rest == cs@.subrange(body_start as int, n as int),
        decreases n - a,
    {
        let ghost t = cs@.subrange(a as int, n as int);
        let ghost before = out.deep_view();
        match index_in(cs.as_slice(), a, n, '\n') {
            None => {
                let h = header_of_line_in(cs.as_slice(), a, n);
                let ghost hl = header_of_line(cs@.subrange(a as int, n as int));
                if let Some(kv) = h {
                    out.push(kv);
                }
                assert(out.deep_view() =~= before + hl);
                assert(header_lines(cs@.subrange(n as int, n as int)) =~= Seq::<(Seq<char>, Seq<char>)>::empty());
                assert(out.deep_view() + Seq::<(Seq<char>, Seq<char>)>::empty() =~= out.deep_view());
                a = n;
            },
            Some(i) => {
                let le = if i > a && cs[i - 1] == '\r' {
                    i - 1
                } else {
                    i
                };
                assert(t.take(i - a) =~= cs@.subrange(a as int, i as int));
                proof {
                    if i > a && cs@[i - 1] == '\r' {
                        assert(cs@.subrange(a as int, i as int).drop_last() =~= cs@.subrange(a as int, i - 1));
                    }
                }
                assert(strip_cr(t.take(i - a)) == cs@.subrange(a as int, le as int));
                assert(t.skip(i - a + 1) =~= cs@.subrange(i + 1, n as int));
                let h = header_of_line_in(cs.as_slice(), a, le);
                let ghost hl = header_of_line(cs@.subrange(a as int, le as int));
                if let Some(kv) = h {
                    out.push(kv);
                }
                assert(out.deep_view() =~= before + hl);
                assert(out.deep_view() + header_lines(cs@.subrange(i + 1, n as int)) =~= before + header_lines(t));
                a = i + 1;
            },
        }
    }
    assert(header_lines(cs@.subrange(a as int, n as int)) =~= Seq::<(Seq<char>, Seq<char>)>::empty());
    assert(out.deep_view() + Seq::<(Seq<char>, Seq<char>)>::empty() =~= out.deep_view());
    Ok((code, out))
}

/// The first position of `\r\n` in a byte string.
pub open spec fn crlf_index(s: Seq<u8>) -> Option<int>
    decreases s.len(),
{
    if s.len() < 2 {
        None
    } else if s[0] == 13 && s[1] == 10 {
        Some(0)
    } else {
        match crlf_index(s.skip(1)) {
            Some(i) => Some(i + 1),
            None => None,
        }
    }
}

/// A CRLF found by `crlf_index` lies inside the bytes searched.
pub proof fn lemma_crlf_index(s: Seq<u8>)
    ensures
        crlf_index(s) matches Some(i) ==> 0 <= i && i + 2 <= s.len(),
    decreases s.len(),
{
    if s.len() >= 2 && !(s[0] == 13 && s[1] == 10) {
        lemma_crlf_index(s.skip(1));
    }
}

/// The first position of byte `b`.
pub open spec fn byte_index(s: Seq<u8>, b: u8) -> Option<int>
    decreases s.len(),
{
    if s.len() == 0 {
        None
    } else if s[0] == b {
        Some(0)
    } else {
        match byte_index(s.skip(1), b) {
            Some(i) => Some(i + 1),
            None => None,
        }
    }
}

/// The size field of a chunk-size line: the text before any `;extension`,
/// which must be UTF-8, trimmed, read as hexadecimal into a `usize`.
pub open spec fn chunk_size(line: Seq<u8>) -> Option<nat> {
    let hex = match byte_index(line, 59) {
        Some(k) => line.take(k),
        None => line,
    };
    if valid_utf8(hex) {
        parse_uint(trim(decode_utf8(hex)), 16, usize::MAX as nat)
    } else {
        None
    }
}

/// Why a chunk-size line is refused.
pub open spec fn chunk_error(line: Seq<u8>) -> Seq<char> {
    let hex = match byte_index(line, 59) {
        Some(k) => line.take(k),
        None => line,
    };
    if valid_utf8(hex) {
        "bad chunk size "@ + debug_quoted(trim(decode_utf8(hex)))
    } else {
        "non-UTF8 chunk size"@
    }
}

/// Decoding a chunked body.
pub enum ChunkStep {
    /// The terminating zero-size chunk has not arrived yet.
    NeedMore,
    /// A bad chunk-size line, or a body over the size guard; the message.
    Bad(Seq<char>),
    /// The whole body (trailers, if any, are ignored).
    Done(Seq<u8>),
}

/// Decode the chunks at the front of `s`, `have` body bytes having been
/// decoded before them. A chunk's trailing CRLF is skipped unchecked.
pub open spec fn chunked_scan(s: Seq<u8>, have: nat) -> ChunkStep
    decreases s.len(),
{
    match crlf_index(s) {
        None => ChunkStep::NeedMore,
        Some(nl) => match chunk_size(s.take(nl)) {
            None => ChunkStep::Bad(chunk_error(s.take(nl))),
            Some(size) => {
                proof {
                    lemma_crlf_index(s);
                }
                let rest = s.skip(nl + 2);
                if size == 0 {
                    ChunkStep::Done(Seq::empty())
                } else if have + size > RESPONSE_MAX {
                    ChunkStep::Bad("chunked body exceeded size guard"@)
                } else if rest.len() < size + 2 {
                    ChunkStep::NeedMore
                } else {
                    match chunked_scan(rest.skip(size + 2 as int), have + size) {
                        ChunkStep::Done(b) => ChunkStep::Done(rest.take(size as int) + b),
                        other => other,
                    }
                }
            },
        },
    }
}

pub open spec fn prepend(front: Seq<u8>, c: ChunkStep) -> ChunkStep {
    match c {
        ChunkStep::Done(b) => ChunkStep::Done(front + b),
        other => other,
    }
}

fn crlf_in(buf: &[u8], from: usize) -> (r: Option<usize>)
    requires
        from <= buf@.len(),
    ensures
        match crlf_index(buf@.skip(from as int)) {
            None => r is None,
            Some(i) => r matches Some(x) && x == from + i && x + 2 <= buf@.len(),
        },
        r matches Some(x) ==> from <= x && x + 2 <= buf@.len(),
{
    proof {
        lemma_crlf_index(buf@.skip(from as int));
    }
    let n = buf.len();
    let mut i = from;
    while i < n && n - i >= 2
        invariant
            from <= i <= n,
            n == buf@.len(),
            crlf_index(buf@.skip(from as int)) == match crlf_index(buf@.skip(i as int)) {
                Some(k) => Some(k + (i - from)),
                None => None,
            },
        decreases n - i,
    {
        assert(buf@.skip(i as int).skip(1) =~= buf@.skip(i + 1));
        if buf[i] == 13 && buf[i + 1] == 10 {
            return Some(i);
        }
        i = i + 1;
    }
    None
}

fn byte_in(buf: &[u8], from: usize, to: usize, b: u8) -> (r: usize)
    requires
        from <= to <= buf@.len(),
    ensures
        from <= r <= to,
        match byte_index(buf@.subrange(from as int, to as int), b) {
            None => r == to,
            Some(i) => r == from + i,
        },
{
    let mut i = from;
    while i < to
        invariant
            from <= i <= to <= buf@.len(),
            byte_index(buf@.subrange(from as int, to as int), b) == match byte_index(buf@.subrange(i as int, to as int), b) {
                Some(k) => Some(k + (i - from)),
                None => None,
            },
        decreases to - i,
    {
        assert(buf@.subrange(i as int, to as int).skip(1) =~= buf@.subrange(i + 1, to as int));
        if buf[i] == b {
            return i;
        }
        i = i + 1;
    }
    to
}

/// Read the chunk-size line at `pos`: `Ok(None)` when its CRLF has not
/// arrived, `Err` when the size is bad, else the size and where the chunk data
/// starts.
fn chunk_header(buf: &[u8], pos: usize) -> (r: Result<Option<(usize, usize)>, VpnError>)
    requires
        pos <= buf@.len(),
    ensures
        match crlf_index(buf@.skip(pos as int)) {
            None => r matches Ok(None),
            Some(nl) => match chunk_size(buf@.skip(pos as int).take(nl)) {
                None => r matches Err(e) && e is Protocol && e.detail() == chunk_error(
                    buf@.skip(pos as int).take(nl),
                ),
                Some(size) => r matches Ok(Some((sz, after))) && sz == size && after == pos + nl + 2
                    && after <= buf@.len(),
            },
        },
{
    let ghost s = buf@.skip(pos as int);
    let n = buf.len();
    let found = crlf_in(buf, pos);
    let nl = match found {
        None => {
            return Ok(None);
        },
        Some(nl) => nl,
    };
    assert(nl + 2 <= n);
    let semi = byte_in(buf, pos, nl, 59);
    assert(s.take(nl - pos) =~= buf@.subrange(pos as int, nl as int));
    assert(buf@.subrange(pos as int, nl as int).take(semi - pos) =~= buf@.subrange(pos as int, semi as int));
    let text = match decode_utf8_exact(&buf[pos..semi]) {
        None => {
            return Err(VpnError::Protocol(String::from_str("non-UTF8 chunk size")));
        },
        Some(t) => t,
    };
    let cs = chars_of(text.as_str());
    let (a, b) = trim_in(cs.as_slice(), 0, cs.len());
    assert(cs@.subrange(0, cs@.len() as int) =~= cs@);
    match parse_uint_in(cs.as_slice(), a, b, 16, usize::MAX as u64) {
        None => {
            let t = string_of_range(cs.as_slice(), a, b);
            let mut m = String::from_str("bad chunk size ");
            m.append(quote_debug(t.as_str()).as_str());
            Err(VpnError::Protocol(m))
        },
        Some(v) => Ok(Some((v as usize, nl + 2))),
    }
}

/// Decode a chunked body. `Ok(None)` while the terminating zero-size chunk
/// has not arrived yet, so the caller knows to read more.
pub fn decode_chunked(buf: &[u8]) -> (r: Result<Option<Vec<u8>>, VpnError>)
    ensures
        match chunked_scan(buf@, 0) {
            ChunkStep::NeedMore => r matches Ok(None),
            ChunkStep::Bad(m) => r matches Err(e) && e is Protocol && e.detail() == m,
            ChunkStep::Done(b) => r matches Ok(Some(v)) && v@ == b,
        },
{
    let n = buf.len();
    let mut out: Vec<u8> = Vec::new();
    let mut pos: usize = 0;
    assert(buf@.skip(0) =~= buf@);
    assert(out@ + Seq::<u8>::empty() =~= Seq::<u8>::empty());
    loop
        invariant
            n == buf@.len(),
            pos <= n,
            out@.len() <= RESPONSE_MAX,
            chunked_scan(buf@, 0) == prepend(out@, chunked_scan(buf@.skip(pos as int), out@.len())),
        decreases n - pos,
    {
        let ghost s = buf@.skip(pos as int);
        let (size, after) = match chunk_header(buf, pos) {
            Err(e) => {
                return Err(e);
            },
            Ok(None) => {
                return Ok(None);
            },
            Ok(Some(h)) => h,
        };
        proof {
            lemma_crlf_index(s);
            let nl = crlf_index(s).unwrap();
            assert(s.skip(nl + 2) =~= buf@.skip(after as int));
        }
        if size == 0 {
            assert(out@ + Seq::<u8>::empty() =~= out@);
            return Ok(Some(out));
        }
        if size > RESPONSE_MAX - out.len() {
            return Err(VpnError::Protocol(String::from_str("chunked body exceeded size guard")));
        }
        if n - after < size || n - after - size < 2 {
            return Ok(None);
        }
        let ghost before = out@;
        push_all(&mut out, &buf[after..after + size]);
        proof {
            let rest = buf@.skip(after as int);
            assert(rest.take(size as int) =~= buf@.subrange(after as int, after + size));
            assert(rest.skip(size + 2) =~= buf@.skip(after + size + 2));
            match chunked_scan(rest.skip(size + 2), (before.len() + size) as nat) {
                ChunkStep::Done(bb) => {
                    assert(before + (rest.take(size as int) + bb) =~= out@ + bb);
                },
                _ => {},
            }
        }
        pos = after + size + 2;
    }
}

/// Position just past the first `\r\n\r\n`.
pub open spec fn head_end(s: Seq<u8>) -> Option<int> {
    if exists|k: int| crlfcrlf_at(s, k) {
        Some((choose|k: int| first_crlfcrlf(s, k)) + 4)
    } else {
        None
    }
}

proof fn lemma_head_end(s: Seq<u8>, e: int)
    requires
        e >= 4,
        first_crlfcrlf(s, e - 4),
    ensures
        head_end(s) == Some(e),
{
    let j = choose|k: int| first_crlfcrlf(s, k);
    assert(first_crlfcrlf(s, e - 4));
    if j < e - 4 {
        assert(!crlfcrlf_at(s, j));
    }
    if e - 4 < j {
        assert(!crlfcrlf_at(s, e - 4));
    }
}

/// Whether a `Transfer-Encoding` header mentions `chunked` (in any case).
pub open spec fn is_chunked(h: Seq<(Seq<char>, Seq<char>)>) -> bool {
    exists|i: int|
        0 <= i < h.len() && (#[trigger] h[i]).0 == "transfer-encoding"@ && find_sub(ascii_lower(h[i].1), "chunked"@) is Some
}

/// The first `Content-Length` header, trimmed and read as a `usize`.
pub open spec fn content_length(h: Seq<(Seq<char>, Seq<char>)>) -> Option<nat> {
    match spec_header(h, "content-length"@) {
        None => None,
        Some(v) => parse_uint(trim(v), 10, usize::MAX as nat),
    }
}

/// Where reading a response stands.
pub enum ResponseStep {
    /// The response is not complete yet.
    NeedMore,
    /// The response is malformed or over the size guard; the message.
    Bad(Seq<char>),
    /// The complete response: status, headers, body.
    Ready(u16, Seq<(Seq<char>, Seq<char>)>, Seq<u8>),
}

/// What has been received so far, before the connection ends: once the
/// header block is complete the body is delimited by chunked encoding first,
/// then by `Content-Length`; otherwise more bytes are needed, unless the
/// buffer is already over the size guard.
pub open spec fn spec_response_step(s: Seq<u8>) -> ResponseStep {
    let wait = if s.len() > RESPONSE_MAX {
        ResponseStep::Bad("HTTP response exceeded size guard"@)
    } else {
        ResponseStep::NeedMore
    };
    match head_end(s) {
        None => wait,
        Some(end) => {
            let text = utf8_lossy(s.take(end));
            match spec_status(text) {
                None => ResponseStep::Bad(status_error(text)),
                Some(st) => {
                    let hs = header_lines(after_first_line(text));
                    let rest = s.skip(end);
                    if is_chunked(hs) {
                        match chunked_scan(rest, 0) {
                            ChunkStep::Bad(m) => ResponseStep::Bad(m),
                            ChunkStep::Done(b) => ResponseStep::Ready(st, hs, b),
                            ChunkStep::NeedMore => wait,
                        }
                    } else {
                        match content_length(hs) {
                            Some(n) => if n > RESPONSE_MAX {
                                ResponseStep::Bad("Content-Length exceeds size guard"@)
                            } else if rest.len() >= n {
                                ResponseStep::Ready(st, hs, rest.take(n as int))
                            } else {
                                wait
                            },
                            None => wait,
                        }
                    }
                },
            }
        },
    }
}

/// The response when the connection has ended: the header block must be
/// complete, and everything after it is the body.
pub open spec fn spec_response_at_eof(s: Seq<u8>) -> ResponseStep {
    match head_end(s) {
        None => ResponseStep::Bad("connection closed before HTTP headers completed"@),
        Some(end) => {
            let text = utf8_lossy(s.take(end));
            match spec_status(text) {
                None => ResponseStep::Bad(status_error(text)),
                Some(st) => ResponseStep::Ready(st, header_lines(after_first_line(text)), s.skip(end)),
            }
        },
    }
}

/// Whether a response is what a step names.
pub open spec fn response_is(r: HttpResponse, st: u16, hs: Seq<(Seq<char>, Seq<char>)>, b: Seq<u8>) -> bool {
    r.status == st && r.headers.deep_view() == hs && r.body@ == b
}

fn mentions_chunked(h: &Vec<(String, String)>) -> (r: bool)
    ensures
        r == is_chunked(h.deep_view()),
{
    let ghost d = h.deep_view();
    let pat = chars_of("chunked");
    let mut i: usize = 0;
    while i < h.len()
        invariant
            i <= h@.len(),
            d == h.deep_view(),
            pat@ == "chunked"@,
            forall|k: int|
                0 <= k < i ==> !((#[trigger] d[k]).0 == "transfer-encoding"@ && find_sub(ascii_lower(d[k].1), "chunked"@) is Some),
        decreases h.len() - i,
    {
        if crate::text::str_eq(h[i].0.as_str(), "transfer-encoding") {
            let vc = chars_of(h[i].1.as_str());
            let lv = lower_range(vc.as_slice(), 0, vc.len());
            assert(vc@.subrange(0, vc@.len() as int) =~= vc@);
            assert(lv@.subrange(0, lv@.len() as int) =~= lv@);
            if find_in(lv.as_slice(), 0, lv.len(), pat.as_slice()).is_some() {
                assert(d[i as int].0 == "transfer-encoding"@);
                return true;
            }
        }
        i = i + 1;
    }
    false
}

fn content_length_of(h: &Vec<(String, String)>) -> (r: Option<usize>)
    ensures
        match content_length(h.deep_view()) {
            None => r is None,
            Some(n) => r matches Some(x) && x == n,
        },
{
    let ghost d = h.deep_view();
    let mut i: usize = 0;
    assert(d.skip(0) =~= d);
    while i < h.len()
        invariant
            i <= h@.len(),
            d == h.deep_view(),
            spec_header(d, "content-length"@) == spec_header(d.skip(i as int), "content-length"@),
        decreases h.len() - i,
    {
        assert(d.skip(i as int)[0] == d[i as int]);
        assert(d.skip(i as int).skip(1) =~= d.skip(i + 1));
        if crate::text::str_eq(h[i].0.as_str(), "content-length") {
            let vc = chars_of(h[i].1.as_str());
            let (a, b) = trim_in(vc.as_slice(), 0, vc.len());
            assert(vc@.subrange(0, vc@.len() as int) =~= vc@);
            return match parse_uint_in(vc.as_slice(), a, b, 10, usize::MAX as u64) {
                None => None,
                Some(v) => Some(v as usize),
            };
        }
        i = i + 1;
    }
    None
}

fn copy_headers(h: &Vec<(String, String)>) -> (r: Vec<(String, String)>)
    ensures
        r.deep_view() == h.deep_view(),
{
    let mut out: Vec<(String, String)> = Vec::new();
    let mut i: usize = 0;
    while i < h.len()
        invariant
            i <= h@.len(),
            out.deep_view() == h.deep_view().take(i as int),
        decreases h.len() - i,
    {
        let k = string_of(chars_of(h[i].0.as_str()).as_slice());
        let v = string_of(chars_of(h[i].1.as_str()).as_slice());
        let ghost before = out.deep_view();
        out.push((k, v));
        assert(out.deep_view() =~= before.push(h.deep_view()[i as int]));
        assert(out.deep_view() =~= h.deep_view().take(i + 1));
        i = i + 1;
    }
    assert(h.deep_view().take(i as int) =~= h.deep_view());
    out
}

/// Try to complete a response from the bytes received so far. `Ok(None)`
/// means read more; `Err` is a malformed response or one over the size
/// guard.
pub fn response_step(buf: &[u8]) -> (r: Result<Option<HttpResponse>, VpnError>)
    ensures
        match spec_response_step(buf@) {
            ResponseStep::NeedMore => r matches Ok(None),
            ResponseStep::Bad(m) => r matches Err(e) && e is Protocol && e.detail() == m,
            ResponseStep::Ready(st, hs, b) => r matches Ok(Some(resp)) && response_is(resp, st, hs, b),
        },
{
    let n = buf.len();
    match header_end(buf) {
        None => {
            if n > RESPONSE_MAX {
                return Err(VpnError::Protocol(String::from_str("HTTP response exceeded size guard")));
            }
            return Ok(None);
        },
        Some(end) => {
            proof {
                lemma_head_end(buf@, end as int);
            }
            assert(buf@.take(end as int) =~= buf@.subrange(0, end as int));
            let text = decode_lossy(&buf[0..end]);
            let (status, headers) = match parse_head(text.as_str()) {
                Err(e) => return Err(e),
                Ok(p) => p,
            };
            let rest = &buf[end..n];
            assert(rest@ =~= buf@.skip(end as int));
            if mentions_chunked(&headers) {
                match decode_chunked(rest) {
                    Err(e) => return Err(e),
                    Ok(Some(body)) => return Ok(Some(HttpResponse { status, headers, body })),
                    Ok(None) => {},
                }
            } else {
                match content_length_of(&headers) {
                    Some(len) => {
                        if len > RESPONSE_MAX {
                            return Err(VpnError::Protocol(String::from_str("Content-Length exceeds size guard")));
                        }
                        if rest.len() >= len {
                            let mut body: Vec<u8> = Vec::new();
                            push_all(&mut body, &rest[0..len]);
                            assert(rest@.subrange(0, len as int) =~= rest@.take(len as int));
                            return Ok(Some(HttpResponse { status, headers, body }));
                        }
                    },
                    None => {},
                }
            }
            if n > RESPONSE_MAX {
                return Err(VpnError::Protocol(String::from_str("HTTP response exceeded size guard")));
            }
            Ok(None)
        },
    }
}

/// The response once the connection has ended: everything after the header
/// block is the body. `Err` when the header block never completed or the
/// status line is malformed.
pub fn response_at_eof(buf: &[u8]) -> (r: Result<HttpResponse, VpnError>)
    ensures
        match spec_response_at_eof(buf@) {
            ResponseStep::Ready(st, hs, b) => r matches Ok(resp) && response_is(resp, st, hs, b),
            ResponseStep::Bad(m) => r matches Err(e) && e is Protocol && e.detail() == m,
            ResponseStep::NeedMore => false,
        },
{
    let n = buf.len();
    match header_end(buf) {
        None => Err(VpnError::Protocol(String::from_str("connection closed before HTTP headers completed"))),
        Some(end) => {
            proof {
                lemma_head_end(buf@, end as int);
            }
            assert(buf@.take(end as int) =~= buf@.subrange(0, end as int));
            let text = decode_lossy(&buf[0..end]);
            let (status, headers) = match parse_head(text.as_str()) {
                Err(e) => return Err(e),
                Ok(p) => p,
            };
            let mut body: Vec<u8> = Vec::new();
            push_all(&mut body, &buf[end..n]);
            assert(buf@.subrange(end as int, n as int) =~= buf@.skip(end as int));
            Ok(HttpResponse { status, headers, body })
        },
    }
}

impl HttpResponse {
    /// Whether the response asks for the connection to be closed
    /// (`Connection: close`, any case), so the next request must reconnect.
    pub fn asks_to_close(&self) -> (r: bool)
        ensures
            r == (spec_header(self.spec_headers(), "connection"@) matches Some(v) && ascii_lower(v)
                == "close"@),
    {
        proof {
            reveal_strlit("connection");
            assert(ascii_lower("connection"@) =~= "connection"@);
        }
        match self.header("connection") {
            Some(v) => {
                let vc = chars_of(v);
                let low = lower_range(vc.as_slice(), 0, vc.len());
                assert(vc@.subrange(0, vc@.len() as int) =~= vc@);
                crate::text::is_lit(low.as_slice(), "close")
            },
            None => false,
        }
    }
}

proof fn lemma_trim_start_avoids(s: Seq<char>, c: char)
    requires
        forall|k: int| 0 <= k < s.len() ==> s[k] != c,
    ensures
        forall|k: int| 0 <= k < trim_start(s).len() ==> trim_start(s)[k] != c,
    decreases s.len(),
{
    if s.len() > 0 && is_ws(s[0]) {
        assert forall|k: int| 0 <= k < s.skip(1).len() implies s.skip(1)[k] != c by {
            assert(s.skip(1)[k] == s[k + 1]);
        }
        lemma_trim_start_avoids(s.skip(1), c);
        assert(trim_start(s) == trim_start(s.skip(1)));
    } else {
        assert(trim_start(s) == s);
    }
}

proof fn lemma_trim_end_avoids(s: Seq<char>, c: char)
    requires
        forall|k: int| 0 <= k < s.len() ==> s[k] != c,
    ensures
        forall|k: int| 0 <= k < trim_end(s).len() ==> trim_end(s)[k] != c,
    decreases s.len(),
{
    if s.len() > 0 && is_ws(s.last()) {
        assert forall|k: int| 0 <= k < s.drop_last().len() implies s.drop_last()[k] != c by {
            assert(s.drop_last()[k] == s[k]);
        }
        lemma_trim_end_avoids(s.drop_last(), c);
        assert(trim_end(s) == trim_end(s.drop_last()));
    } else {
        assert(trim_end(s) == s);
    }
}

/// A header line is split at its first colon: a line without a colon gives
/// no header; any other gives one, whose name is the trimmed, lower-cased
/// text before the first colon (so it holds no colon) and whose value is the
/// trimmed text after it (so later colons belong to the value).
pub proof fn lemma_header_split_at_first_colon(l: Seq<char>)
    ensures
        (forall|k: int| 0 <= k < l.len() ==> l[k] != ':') ==> header_of_line(l).len() == 0,
        (exists|k: int| 0 <= k < l.len() && l[k] == ':') ==> {
            &&& header_of_line(l).len() == 1
            &&& forall|k: int|
                0 <= k < header_of_line(l)[0].0.len() ==> header_of_line(l)[0].0[k] != ':'
            &&& exists|i: int|
                0 <= i < l.len() && l[i] == ':' && (forall|k: int| 0 <= k < i ==> l[k] != ':')
                    && header_of_line(l)[0] == (ascii_lower(trim(l.take(i))), trim(l.skip(i + 1)))
        },
{
    lemma_index_of(l, ':');
    match index_of(l, ':') {
        None => {},
        Some(j) => {
            let before = l.take(j);
            assert forall|k: int| 0 <= k < before.len() implies before[k] != ':' by {
                assert(before[k] == l[k]);
            }
            lemma_trim_start_avoids(before, ':');
            lemma_trim_end_avoids(trim_start(before), ':');
            let t = trim(before);
            let name = ascii_lower(t);
            assert forall|k: int| 0 <= k < name.len() implies name[k] != ':' by {
                assert(name[k] == crate::text::lower_char(t[k]));
            }
            assert(header_of_line(l)[0] == (name, trim(l.skip(j + 1))));
        },
    }
}

} // verus!
