//! FortiGate tunnel configuration: the `fortisslvpn_xml` reply, scanned as
//! element fragments (real FortiOS writes single-quoted attributes; double
//! quotes are accepted too), and its mapping onto the session parameters.
//!
//! ```xml
//! <sslvpn-tunnel ver='2' dtls='1' patch='1'>
//!   <tunnel-method value='ppp' /><tunnel-method value='tun' />
//!   <ipv4><dns ip='172.29.0.25' /><wins ip='172.29.0.25' />
//!     <assigned-addr ipv4='10.0.3.1' />
//!     <split-tunnel-info><addr ip='10.10.0.0' mask='255.255.0.0' /></split-tunnel-info>
//!   </ipv4>
//!   <idle-timeout val='300' /><auth-timeout val='28800' />
//! </sslvpn-tunnel>
//! ```
use vstd::prelude::*;

use crate::error::VpnError;
use crate::fortigate::http::HttpResponse;
use crate::fortigate::ppp::PppSession;
use crate::net::{parse_ipv4_in, spec_parse_ipv4, Ipv4Addr};
use crate::text::{
    chars_of, find_in, find_sub, fmt_decimal, index_in, index_of, is_whitespace, is_ws,
    lemma_find_sub, lemma_index_of, opt_view, parse_uint, parse_uint_in, range_is, skip_ws,
    spec_decimal, string_of_range, trim_start, utf8_lossy,
};

verus! {

/// Fallback tunnel MTU when PPP negotiated none.
pub const DEFAULT_MTU: u16 = 1354;

/// Keepalive cadence when the gateway advertises no idle timeout.
pub const DEFAULT_KEEPALIVE_SECS: u32 = 30;

/// Parsed FortiGate tunnel configuration.
#[derive(Debug, Clone, PartialEq, Eq)]
pub struct FortiConfig {
    /// Assigned tunnel address (`<assigned-addr ipv4=...>`), if pre-declared.
    pub address: Option<Ipv4Addr>,
    /// Netmask derived from `prefix-len`, when present.
    pub netmask: Option<Ipv4Addr>,
    /// DNS resolvers (`<dns ip=...>`).
    pub dns: Vec<Ipv4Addr>,
    /// DNS search domain (`<dns domain=...>`).
    pub dns_suffix: Option<String>,
    /// Split-tunnel include routes; empty means a full tunnel.
    pub routes: Vec<(Ipv4Addr, u8)>,
    /// Networks the gateway explicitly excludes (`negate='1'`).
    pub exclude_routes: Vec<(Ipv4Addr, u8)>,
    /// Wire protocol version from `<sslvpn-tunnel ver=...>`.
    pub version: Option<String>,
    /// Advertised tunnel methods (`ppp`, `tun`), informational.
    pub tunnel_methods: Vec<String>,
    /// `<idle-timeout val=...>` in seconds.
    pub idle_timeout: Option<u32>,
    /// `<auth-timeout val=...>` in seconds.
    pub auth_timeout: Option<u32>,
}

/// A configuration as plain values.
#[verifier::ext_equal]
pub struct ConfigModel {
    pub address: Option<Ipv4Addr>,
    pub netmask: Option<Ipv4Addr>,
    pub dns: Seq<Ipv4Addr>,
    pub dns_suffix: Option<Seq<char>>,
    pub routes: Seq<(Ipv4Addr, u8)>,
    pub exclude_routes: Seq<(Ipv4Addr, u8)>,
    pub version: Option<Seq<char>>,
    pub tunnel_methods: Seq<Seq<char>>,
    pub idle_timeout: Option<u32>,
    pub auth_timeout: Option<u32>,
}

impl View for FortiConfig {
    type V = ConfigModel;

    open spec fn view(&self) -> ConfigModel {
        ConfigModel {
            address: self.address,
            netmask: self.netmask,
            dns: self.dns@,
            dns_suffix: opt_view(self.dns_suffix),
            routes: self.routes@,
            exclude_routes: self.exclude_routes@,
            version: opt_view(self.version),
            tunnel_methods: self.tunnel_methods.deep_view(),
            idle_timeout: self.idle_timeout,
            auth_timeout: self.auth_timeout,
        }
    }
}

/// The empty configuration.
pub open spec fn empty_config() -> ConfigModel {
    ConfigModel {
        address: None,
        netmask: None,
        dns: Seq::empty(),
        dns_suffix: None,
        routes: Seq::empty(),
        exclude_routes: Seq::empty(),
        version: None,
        tunnel_methods: Seq::empty(),
        idle_timeout: None,
        auth_timeout: None,
    }
}

impl Default for FortiConfig {
    fn default() -> (r: Self)
        ensures
            r@ == empty_config(),
    {
        let r = FortiConfig {
            address: None,
            netmask: None,
            dns: Vec::new(),
            dns_suffix: None,
            routes: Vec::new(),
            exclude_routes: Vec::new(),
            version: None,
            tunnel_methods: Vec::new(),
            idle_timeout: None,
            auth_timeout: None,
        };
        assert(r@.dns =~= Seq::<Ipv4Addr>::empty());
        assert(r@.routes =~= Seq::<(Ipv4Addr, u8)>::empty());
        assert(r@.exclude_routes =~= Seq::<(Ipv4Addr, u8)>::empty());
        assert(r@.tunnel_methods =~= Seq::<Seq<char>>::empty());
        r
    }
}

/// Keepalive cadence: a third of the gateway's idle timeout (so two probes
/// can be lost before it expires), clamped to 5..=60 seconds; 30 seconds when
/// no (or a zero) idle timeout is advertised.
pub open spec fn spec_keepalive(idle: Option<u32>) -> u32 {
    match idle {
        Some(t) if t > 0 => if t / 3 < 5 {
            5
        } else if t / 3 > 60 {
            60
        } else {
            t / 3
        },
        _ => DEFAULT_KEEPALIVE_SECS,
    }
}

/// Protocol-agnostic session parameters for the tunnel device and the
/// forwarding loop.
#[derive(Debug, Clone, PartialEq, Eq)]
pub struct SessionParams {
    pub address: Ipv4Addr,
    pub netmask: Option<Ipv4Addr>,
    pub dns: Vec<Ipv4Addr>,
    pub mtu: u16,
    /// Keepalive cadence in seconds.
    pub keepalive: Option<u32>,
    /// Dead-peer-detection interval in seconds (FortiGate has none).
    pub dpd: Option<u32>,
    /// How long the gateway tolerates a silent tunnel, in seconds.
    pub disconnected_timeout: Option<u32>,
}

/// Order-preserving removal of repeats: each address where it first occurs.
pub open spec fn dedup(s: Seq<Ipv4Addr>) -> Seq<Ipv4Addr>
    decreases s.len(),
{
    if s.len() == 0 {
        s
    } else {
        let d = dedup(s.drop_last());
        if d.contains(s.last()) {
            d
        } else {
            d.push(s.last())
        }
    }
}

impl FortiConfig {
    /// Keepalive cadence inside the gateway's idle timeout.
    pub fn keepalive_secs(&self) -> (r: u32)
        ensures
            r == spec_keepalive(self.idle_timeout),
    {
        match self.idle_timeout {
            Some(t) if t > 0 => {
                let k = t / 3;
                if k < 5 {
                    5
                } else if k > 60 {
                    60
                } else {
                    k
                }
            },
            _ => DEFAULT_KEEPALIVE_SECS,
        }
    }

    /// Map onto the session parameters. What PPP negotiated wins over the XML
    /// where both speak: the address, and the resolvers (IPCP's first, then
    /// the XML's, without repeats). Without PPP the XML address is used, else
    /// `0.0.0.0`, and the MTU falls back to 1354.
    pub fn to_session_params(&self, ppp: Option<&PppSession>) -> (r: SessionParams)
        ensures
            r.address == match ppp {
                Some(p) => p.address,
                None => match self.address {
                    Some(a) => a,
                    None => Ipv4Addr { a: 0, b: 0, c: 0, d: 0 },
                },
            },
            r.netmask == self.netmask,
            r.dns@ == dedup(
                match ppp {
                    Some(p) => p.dns@,
                    None => Seq::empty(),
                } + self.dns@,
            ),
            r.mtu == match ppp {
                Some(p) => p.mtu,
                None => DEFAULT_MTU,
            },
            r.keepalive == Some(spec_keepalive(self.idle_timeout)),
            r.dpd is None,
            r.disconnected_timeout == self.idle_timeout,
    {
        let address = match ppp {
            Some(p) => p.address,
            None => match self.address {
                Some(a) => a,
                None => Ipv4Addr::unspecified(),
            },
        };
        let mut all: Vec<Ipv4Addr> = Vec::new();
        match ppp {
            Some(p) => {
                let mut i: usize = 0;
                while i < p.dns.len()
                    invariant
                        i <= p.dns@.len(),
                        all@ == p.dns@.take(i as int),
                    decreases p.dns.len() - i,
                {
                    all.push(p.dns[i]);
                    i = i + 1;
                    assert(all@ =~= p.dns@.take(i as int));
                }
                assert(p.dns@.take(i as int) =~= p.dns@);
            },
            None => {},
        }
        let ghost front = all@;
        let mut j: usize = 0;
        while j < self.dns.len()
            invariant
                j <= self.dns@.len(),
                all@ == front + self.dns@.take(j as int),
            decreases self.dns.len() - j,
        {
            all.push(self.dns[j]);
            j = j + 1;
            assert(all@ =~= front + self.dns@.take(j as int));
        }
        assert(self.dns@.take(j as int) =~= self.dns@);
        let mut dns: Vec<Ipv4Addr> = Vec::new();
        let mut k: usize = 0;
        while k < all.len()
            invariant
                k <= all@.len(),
                dns@ == dedup(all@.take(k as int)),
            decreases all.len() - k,
        {
            let a = all[k];
            assert(all@.take(k + 1).drop_last() =~= all@.take(k as int));
            if !crate::fortigate::ppp::contains_addr(&dns, a) {
                dns.push(a);
            }
            k = k + 1;
        }
        assert(all@.take(k as int) =~= all@);
        let mtu = match ppp {
            Some(p) => p.mtu,
            None => DEFAULT_MTU,
        };
        SessionParams {
            address,
            netmask: self.netmask,
            dns,
            mtu,
            keepalive: Some(self.keepalive_secs()),
            dpd: None,
            disconnected_timeout: self.idle_timeout,
        }
    }
}

/// The number of one bits in a byte.
pub open spec fn ones8(b: nat) -> nat
    decreases b,
{
    if b == 0 {
        0
    } else {
        (b % 2) + ones8(b / 2)
    }
}

/// `u32::count_ones` of the address bits: the prefix length of a netmask.
pub open spec fn spec_mask_to_prefix(m: Ipv4Addr) -> nat {
    ones8(m.a as nat) + ones8(m.b as nat) + ones8(m.c as nat) + ones8(m.d as nat)
}

fn ones_in(b: u8) -> (r: u8)
    ensures
        r as nat == ones8(b as nat),
        r <= 8,
{
    let mut x = b;
    let mut n: u8 = 0;
    while x > 0
        invariant
            n as nat + ones8(x as nat) == ones8(b as nat),
            n as nat + (if x >= 128 { 8nat } else if x >= 64 { 7nat } else if x >= 32 { 6nat } else if x >= 16 { 5nat } else if x >= 8 { 4nat } else if x >= 4 { 3nat } else if x >= 2 { 2nat } else if x >= 1 { 1nat } else { 0nat }) <= 8,
        decreases x,
    {
        n = n + x % 2;
        x = x / 2;
    }
    n
}

/// Convert a dotted netmask (`255.255.255.0`) to a prefix length (`24`) by
/// counting its one bits.
pub fn mask_to_prefix(mask: Ipv4Addr) -> (r: u8)
    ensures
        r as nat == spec_mask_to_prefix(mask),
{
    ones_in(mask.a) + ones_in(mask.b) + ones_in(mask.c) + ones_in(mask.d)
}

/// A byte whose top `n` bits (`n <= 8`) are set.
pub open spec fn high_bits(n: int) -> u8 {
    if n <= 0 {
        0
    } else if n == 1 {
        128
    } else if n == 2 {
        192
    } else if n == 3 {
        224
    } else if n == 4 {
        240
    } else if n == 5 {
        248
    } else if n == 6 {
        252
    } else if n == 7 {
        254
    } else {
        255
    }
}

/// The netmask of a prefix length, capped at 32: octet `k` carries the bits
/// of the prefix that fall in it.
pub open spec fn spec_prefix_to_mask(p: u8) -> Ipv4Addr {
    let q = if p > 32 {
        32
    } else {
        p as int
    };
    Ipv4Addr { a: high_bits(q), b: high_bits(q - 8), c: high_bits(q - 16), d: high_bits(q - 24) }
}

fn high_bits_exec(n: i32) -> (r: u8)
    ensures
        r == high_bits(n as int),
{
    if n <= 0 {
        0
    } else if n == 1 {
        128
    } else if n == 2 {
        192
    } else if n == 3 {
        224
    } else if n == 4 {
        240
    } else if n == 5 {
        248
    } else if n == 6 {
        252
    } else if n == 7 {
        254
    } else {
        255
    }
}

/// Convert a prefix length to a dotted netmask (lengths over 32 count as 32).
pub fn prefix_to_mask(prefix: u8) -> (r: Ipv4Addr)
    ensures
        r == spec_prefix_to_mask(prefix),
{
    let q: i32 = if prefix > 32 {
        32
    } else {
        prefix as i32
    };
    Ipv4Addr {
        a: high_bits_exec(q),
        b: high_bits_exec(q - 8),
        c: high_bits_exec(q - 16),
        d: high_bits_exec(q - 24),
    }
}

/// Prefix lengths survive the round trip through a netmask: every length up
/// to 32 comes back unchanged (longer ones come back as 32).
pub proof fn lemma_prefix_mask_round_trip(p: u8)
    ensures
        spec_mask_to_prefix(spec_prefix_to_mask(p)) == if p > 32 {
            32
        } else {
            p as nat
        },
{
    reveal_with_fuel(ones8, 9);
    assert(ones8(0) == 0);
    assert(ones8(128) == 1);
    assert(ones8(192) == 2);
    assert(ones8(224) == 3);
    assert(ones8(240) == 4);
    assert(ones8(248) == 5);
    assert(ones8(252) == 6);
    assert(ones8(254) == 7);
    assert(ones8(255) == 8);
}

/// A character that continues an attribute name.
pub open spec fn name_char(c: char) -> bool {
    ('a' <= c && c <= 'z') || ('A' <= c && c <= 'Z') || ('0' <= c && c <= '9') || c == '-' || c
        == '_'
}

fn is_name_char(c: char) -> (r: bool)
    ensures
        r == name_char(c),
{
    ('a' <= c && c <= 'z') || ('A' <= c && c <= 'Z') || ('0' <= c && c <= '9') || c == '-' || c
        == '_'
}

/// The value of attribute `name` in the element fragment `f`, looking at the
/// occurrences of `name` from position `from` on. An occurrence counts only as
/// a whole name (the character before it does not continue a name) followed,
/// spaces allowed, by `=` and a quote; the value runs to the next such quote.
/// An unterminated value ends the search with nothing.
pub open spec fn attr_from(f: Seq<char>, name: Seq<char>, from: int) -> Option<Seq<char>>
    decreases f.len() - from,
{
    if name.len() == 0 || from < 0 || from > f.len() {
        None
    } else {
        match find_sub(f.skip(from), name) {
            None => None,
            Some(rel) => {
                proof {
                    lemma_find_sub(f.skip(from), name);
                }
                let start = from + rel;
                let after = start + name.len();
                if start > 0 && name_char(f[start - 1]) {
                    attr_from(f, name, after)
                } else {
                    let r1 = trim_start(f.skip(after));
                    if r1.len() == 0 || r1[0] != '=' {
                        attr_from(f, name, after)
                    } else {
                        let r2 = trim_start(r1.skip(1));
                        if r2.len() == 0 || (r2[0] != '\'' && r2[0] != '"') {
                            attr_from(f, name, after)
                        } else {
                            let r3 = r2.skip(1);
                            match index_of(r3, r2[0]) {
                                None => None,
                                Some(e) => Some(r3.take(e)),
                            }
                        }
                    }
                }
            },
        }
    }
}

/// The value of attribute `name` in the element fragment `f`.
pub open spec fn spec_attr(f: Seq<char>, name: Seq<char>) -> Option<Seq<char>> {
    attr_from(f, name, 0)
}

/// `spec_attr` of `cs[lo..hi]`, as the absolute bounds of the value.
fn attr_range(cs: &[char], lo: usize, hi: usize, name: &[char]) -> (r: Option<(usize, usize)>)
    requires
        lo <= hi <= cs@.len(),
    ensures
        match spec_attr(cs@.subrange(lo as int, hi as int), name@) {
            None => r is None,
            Some(v) => r matches Some((a, b)) && lo <= a <= b <= hi && cs@.subrange(
                a as int,
                b as int,
            ) == v,
        },
{
    let ghost f = cs@.subrange(lo as int, hi as int);
    if name.len() == 0 {
        return None;
    }
    let mut pos = lo;
    loop
        invariant
            lo <= pos <= hi <= cs@.len(),
            name@.len() > 0,
            f == cs@.subrange(lo as int, hi as int),
            spec_attr(f, name@) == attr_from(f, name@, pos - lo),
        decreases hi - pos,
    {
        assert(f.skip(pos - lo) =~= cs@.subrange(pos as int, hi as int));
        let found = find_in(cs, pos, hi, name);
        let start = match found {
            None => {
                return None;
            },
            Some(start) => start,
        };
        proof {
            lemma_find_sub(cs@.subrange(pos as int, hi as int), name@);
        }
        let after = start + name.len();
        if start > lo && is_name_char(cs[start - 1]) {
            assert(f[start - lo - 1] == cs@[start - 1]);
            pos = after;
            continue;
        }
        assert(start > lo ==> f[start - lo - 1] == cs@[start - 1]);
        assert(f.skip(after - lo) =~= cs@.subrange(after as int, hi as int));
        let a = skip_ws(cs, after, hi);
        if a == hi || cs[a] != '=' {
            pos = after;
            continue;
        }
        assert(cs@.subrange(a as int, hi as int).skip(1) =~= cs@.subrange(a + 1, hi as int));
        let b = skip_ws(cs, a + 1, hi);
        if b == hi || (cs[b] != '\'' && cs[b] != '"') {
            pos = after;
            continue;
        }
        let q = cs[b];
        assert(cs@.subrange(b as int, hi as int).skip(1) =~= cs@.subrange(b + 1, hi as int));
        match index_in(cs, b + 1, hi, q) {
            None => {
                return None;
            },
            Some(e) => {
                assert(cs@.subrange(b + 1, hi as int).take(e - b - 1) =~= cs@.subrange(
                    b + 1,
                    e as int,
                ));
                return Some((b + 1, e));
            },
        }
    }
}

/// The value of attribute `name` (`name='...'` or `name="..."`) in an
/// element fragment, matched as a whole name: `ip` does not match `ipv6=`,
/// and `len` does not match `prefix-len=`.
pub fn attr(fragment: &str, name: &str) -> (r: Option<String>)
    requires
        name@.len() > 0,
    ensures
        opt_view(r) == spec_attr(fragment@, name@),
{
    let cs = chars_of(fragment);
    let n = chars_of(name);
    match attr_range(cs.as_slice(), 0, cs.len(), n.as_slice()) {
        None => {
            assert(cs@.subrange(0, cs@.len() as int) =~= cs@);
            None
        },
        Some((a, b)) => {
            assert(cs@.subrange(0, cs@.len() as int) =~= cs@);
            Some(string_of_range(cs.as_slice(), a, b))
        },
    }
}

/// `FromStr` for `u32` on an optional value.
pub open spec fn opt_u32(v: Option<Seq<char>>) -> Option<u32> {
    match v {
        Some(s) => match parse_uint(s, 10, 0xffff_ffff) {
            Some(n) => Some(n as u32),
            None => None,
        },
        None => None,
    }
}

/// `FromStr` for `u8` on an optional value.
pub open spec fn opt_u8(v: Option<Seq<char>>) -> Option<u8> {
    match v {
        Some(s) => match parse_uint(s, 10, 255) {
            Some(n) => Some(n as u8),
            None => None,
        },
        None => None,
    }
}

/// `FromStr` for `Ipv4Addr` on an optional value.
pub open spec fn opt_ipv4(v: Option<Seq<char>>) -> Option<Ipv4Addr> {
    match v {
        Some(s) => spec_parse_ipv4(s),
        None => None,
    }
}

/// The scan state: the configuration so far, and whether the scan is inside
/// a `<split-tunnel-info>` list (and whether that list is negated).
#[verifier::ext_equal]
pub struct XmlState {
    pub cfg: ConfigModel,
    pub in_split: bool,
    pub negated: bool,
}

pub open spec fn initial_scan() -> XmlState {
    XmlState { cfg: empty_config(), in_split: false, negated: false }
}

/// The prefix length of a split-tunnel `<addr>`: from its `mask`, else from
/// its `prefix-len`.
pub open spec fn split_prefix(rest: Seq<char>) -> Option<u8> {
    match opt_ipv4(spec_attr(rest, "mask"@)) {
        Some(m) => Some(spec_mask_to_prefix(m) as u8),
        None => opt_u8(spec_attr(rest, "prefix-len"@)),
    }
}

/// What one element (its name and the text after the name) does to the scan.
/// `<wins>` is not matched: those are NetBIOS servers, not resolvers.
pub open spec fn element_step(st: XmlState, name: Seq<char>, rest: Seq<char>) -> XmlState {
    let c = st.cfg;
    if name == "sslvpn-tunnel"@ {
        XmlState { cfg: ConfigModel { version: spec_attr(rest, "ver"@), ..c }, ..st }
    } else if name == "tunnel-method"@ {
        match spec_attr(rest, "value"@) {
            Some(v) => XmlState {
                cfg: ConfigModel { tunnel_methods: c.tunnel_methods.push(v), ..c },
                ..st
            },
            None => st,
        }
    } else if name == "idle-timeout"@ {
        XmlState { cfg: ConfigModel { idle_timeout: opt_u32(spec_attr(rest, "val"@)), ..c }, ..st }
    } else if name == "auth-timeout"@ {
        XmlState { cfg: ConfigModel { auth_timeout: opt_u32(spec_attr(rest, "val"@)), ..c }, ..st }
    } else if name == "assigned-addr"@ {
        let c1 = match opt_ipv4(spec_attr(rest, "ipv4"@)) {
            Some(ip) => ConfigModel { address: Some(ip), ..c },
            None => c,
        };
        let c2 = match opt_u8(spec_attr(rest, "prefix-len"@)) {
            Some(p) => ConfigModel { netmask: Some(spec_prefix_to_mask(p)), ..c1 },
            None => c1,
        };
        XmlState { cfg: c2, ..st }
    } else if name == "dns"@ {
        let c1 = match opt_ipv4(spec_attr(rest, "ip"@)) {
            Some(a) => if c.dns.contains(a) {
                c
            } else {
                ConfigModel { dns: c.dns.push(a), ..c }
            },
            None => c,
        };
        let c2 = match spec_attr(rest, "domain"@) {
            Some(d) => if d.len() > 0 {
                ConfigModel { dns_suffix: Some(d), ..c1 }
            } else {
                c1
            },
            None => c1,
        };
        XmlState { cfg: c2, ..st }
    } else if name == "split-tunnel-info"@ {
        XmlState {
            cfg: c,
            in_split: true,
            negated: spec_attr(rest, "negate"@) == Some("1"@) || spec_attr(rest, "negate"@) == Some(
                "true"@,
            ),
        }
    } else if name == "/split-tunnel-info"@ {
        XmlState { cfg: c, in_split: false, negated: false }
    } else if name == "addr"@ && st.in_split {
        match (opt_ipv4(spec_attr(rest, "ip"@)), split_prefix(rest)) {
            (Some(ip), Some(p)) => if st.negated {
                XmlState {
                    cfg: ConfigModel { exclude_routes: c.exclude_routes.push((ip, p)), ..c },
                    ..st
                }
            } else {
                XmlState { cfg: ConfigModel { routes: c.routes.push((ip, p)), ..c }, ..st }
            },
            _ => st,
        }
    } else {
        st
    }
}

/// Whether a character ends an element name.
pub open spec fn name_delim(c: char) -> bool {
    is_ws(c) || c == '/' || c == '>'
}

/// The length of the element name at the start of `s`.
pub open spec fn name_end(s: Seq<char>) -> int
    decreases s.len(),
{
    if s.len() == 0 || name_delim(s[0]) {
        0
    } else {
        1 + name_end(s.skip(1))
    }
}

/// The length of the element name at the start of a fragment; a closing
/// tag's name keeps its leading `/`.
pub open spec fn element_name_len(frag: Seq<char>) -> int {
    if frag.len() > 0 && frag[0] == '/' {
        1 + name_end(frag.skip(1))
    } else {
        name_end(frag)
    }
}

/// What the text between two `<` does to the scan: after leading spaces, the
/// element name (with the `/` of a closing tag) runs to a space, `/` or `>`.
pub open spec fn piece_step(st: XmlState, piece: Seq<char>) -> XmlState {
    let frag = trim_start(piece);
    let n = element_name_len(frag);
    element_step(st, frag.take(n), frag.skip(n))
}

/// The scan of `s`, piece by piece (`s` split at each `<`).
pub open spec fn xml_scan(s: Seq<char>, st: XmlState) -> XmlState
    decreases s.len(),
{
    match index_of(s, '<') {
        Some(i) => {
            proof {
                lemma_index_of(s, '<');
            }
            xml_scan(s.skip(i + 1), piece_step(st, s.take(i)))
        },
        None => piece_step(st, s),
    }
}

/// The configuration that a `fortisslvpn_xml` body describes.
pub open spec fn spec_parse_config(body: Seq<char>) -> ConfigModel {
    xml_scan(body, initial_scan()).cfg
}

/// The end of the element name that starts at `from`.
fn name_end_in(cs: &[char], from: usize, to: usize) -> (r: usize)
    requires
        from <= to <= cs@.len(),
    ensures
        from <= r <= to,
        r - from == name_end(cs@.subrange(from as int, to as int)),
{
    let mut i = from;
    while i < to && !(is_whitespace(cs[i]) || cs[i] == '/' || cs[i] == '>')
        invariant
            from <= i <= to <= cs@.len(),
            name_end(cs@.subrange(from as int, to as int)) == (i - from) + name_end(
                cs@.subrange(i as int, to as int),
            ),
        decreases to - i,
    {
        assert(cs@.subrange(i as int, to as int).skip(1) =~= cs@.subrange(i + 1, to as int));
        i = i + 1;
    }
    i
}

/// `spec_attr` of `cs[lo..hi]` for a literal attribute name.
fn attr_of(cs: &[char], lo: usize, hi: usize, name: &str) -> (r: Option<(usize, usize)>)
    requires
        lo <= hi <= cs@.len(),
    ensures
        match spec_attr(cs@.subrange(lo as int, hi as int), name@) {
            None => r is None,
            Some(v) => r matches Some((a, b)) && lo <= a <= b <= hi && cs@.subrange(
                a as int,
                b as int,
            ) == v,
        },
{
    let n = chars_of(name);
    attr_range(cs, lo, hi, n.as_slice())
}

fn attr_string(cs: &[char], lo: usize, hi: usize, name: &str) -> (r: Option<String>)
    requires
        lo <= hi <= cs@.len(),
    ensures
        opt_view(r) == spec_attr(cs@.subrange(lo as int, hi as int), name@),
{
    match attr_of(cs, lo, hi, name) {
        None => None,
        Some((a, b)) => Some(string_of_range(cs, a, b)),
    }
}

fn attr_u32(cs: &[char], lo: usize, hi: usize, name: &str) -> (r: Option<u32>)
    requires
        lo <= hi <= cs@.len(),
    ensures
        r == opt_u32(spec_attr(cs@.subrange(lo as int, hi as int), name@)),
{
    match attr_of(cs, lo, hi, name) {
        None => None,
        Some((a, b)) => match parse_uint_in(cs, a, b, 10, 0xffff_ffff) {
            Some(v) => Some(v as u32),
            None => None,
        },
    }
}

fn attr_u8(cs: &[char], lo: usize, hi: usize, name: &str) -> (r: Option<u8>)
    requires
        lo <= hi <= cs@.len(),
    ensures
        r == opt_u8(spec_attr(cs@.subrange(lo as int, hi as int), name@)),
{
    match attr_of(cs, lo, hi, name) {
        None => None,
        Some((a, b)) => match parse_uint_in(cs, a, b, 10, 255) {
            Some(v) => Some(v as u8),
            None => None,
        },
    }
}

fn attr_ipv4(cs: &[char], lo: usize, hi: usize, name: &str) -> (r: Option<Ipv4Addr>)
    requires
        lo <= hi <= cs@.len(),
    ensures
        r == opt_ipv4(spec_attr(cs@.subrange(lo as int, hi as int), name@)),
{
    match attr_of(cs, lo, hi, name) {
        None => None,
        Some((a, b)) => parse_ipv4_in(cs, a, b),
    }
}

/// The scan of a configuration body in progress.
struct XmlScan {
    cfg: FortiConfig,
    in_split: bool,
    negated: bool,
}

impl XmlScan {
    spec fn model(&self) -> XmlState {
        XmlState { cfg: self.cfg@, in_split: self.in_split, negated: self.negated }
    }

    /// Apply the element whose name is `cs[ns..ne]` and whose remaining text
    /// is `cs[ne..hi]`.
    fn element(&mut self, cs: &[char], ns: usize, ne: usize, hi: usize)
        requires
            ns <= ne <= hi <= cs@.len(),
        ensures
            final(self).model() == element_step(
                old(self).model(),
                cs@.subrange(ns as int, ne as int),
                cs@.subrange(ne as int, hi as int),
            ),
    {
        let ghost st = self.model();
        let ghost rest = cs@.subrange(ne as int, hi as int);
        if range_is(cs, ns, ne, "sslvpn-tunnel") {
            self.cfg.version = attr_string(cs, ne, hi, "ver");
        } else if range_is(cs, ns, ne, "tunnel-method") {
            match attr_string(cs, ne, hi, "value") {
                Some(v) => {
                    let ghost before = self.cfg.tunnel_methods.deep_view();
                    self.cfg.tunnel_methods.push(v);
                    assert(self.cfg.tunnel_methods.deep_view() =~= before.push(v@));
                },
                None => {},
            }
        } else if range_is(cs, ns, ne, "idle-timeout") {
            self.cfg.idle_timeout = attr_u32(cs, ne, hi, "val");
        } else if range_is(cs, ns, ne, "auth-timeout") {
            self.cfg.auth_timeout = attr_u32(cs, ne, hi, "val");
        } else if range_is(cs, ns, ne, "assigned-addr") {
            match attr_ipv4(cs, ne, hi, "ipv4") {
                Some(ip) => {
                    self.cfg.address = Some(ip);
                },
                None => {},
            }
            match attr_u8(cs, ne, hi, "prefix-len") {
                Some(p) => {
                    self.cfg.netmask = Some(prefix_to_mask(p));
                },
                None => {},
            }
        } else if range_is(cs, ns, ne, "dns") {
            match attr_ipv4(cs, ne, hi, "ip") {
                Some(a) => {
                    if !crate::fortigate::ppp::contains_addr(&self.cfg.dns, a) {
                        self.cfg.dns.push(a);
                    }
                },
                None => {},
            }
            match attr_string(cs, ne, hi, "domain") {
                Some(d) => {
                    if d.unicode_len() > 0 {
                        self.cfg.dns_suffix = Some(d);
                    }
                },
                None => {},
            }
        } else if range_is(cs, ns, ne, "split-tunnel-info") {
            self.in_split = true;
            self.negated = match attr_of(cs, ne, hi, "negate") {
                Some((a, b)) => range_is(cs, a, b, "1") || range_is(cs, a, b, "true"),
                None => false,
            };
        } else if range_is(cs, ns, ne, "/split-tunnel-info") {
            self.in_split = false;
            self.negated = false;
        } else if self.in_split && range_is(cs, ns, ne, "addr") {
            let ip = match attr_ipv4(cs, ne, hi, "ip") {
                Some(ip) => ip,
                None => {
                    return;
                },
            };
            let prefix = match attr_ipv4(cs, ne, hi, "mask") {
                Some(m) => mask_to_prefix(m),
                None => match attr_u8(cs, ne, hi, "prefix-len") {
                    Some(p) => p,
                    None => {
                        return;
                    },
                },
            };
            if self.negated {
                self.cfg.exclude_routes.push((ip, prefix));
            } else {
                self.cfg.routes.push((ip, prefix));
            }
        }
    }

    /// Apply the text `cs[lo..hi]` between two `<`.
    fn apply(&mut self, cs: &[char], lo: usize, hi: usize)
        requires
            lo <= hi <= cs@.len(),
        ensures
            final(self).model() == piece_step(old(self).model(), cs@.subrange(lo as int, hi as int)),
    {
        let fs = skip_ws(cs, lo, hi);
        let ghost frag = cs@.subrange(fs as int, hi as int);
        let ne = if fs < hi && cs[fs] == '/' {
            assert(frag.skip(1) =~= cs@.subrange(fs + 1, hi as int));
            name_end_in(cs, fs + 1, hi)
        } else {
            name_end_in(cs, fs, hi)
        };
        assert(frag.take(ne - fs) =~= cs@.subrange(fs as int, ne as int));
        assert(frag.skip(ne - fs) =~= cs@.subrange(ne as int, hi as int));
        self.element(cs, fs, ne, hi);
    }
}

/// Parse the `fortisslvpn_xml` body: a bounded scan of element fragments,
/// never a failure (what the scan does not recognise it ignores).
pub fn parse_config_xml(body: &str) -> (r: Result<FortiConfig, VpnError>)
    ensures
        r matches Ok(c) && c@ == spec_parse_config(body@),
{
    let cs = chars_of(body);
    let mut scan = XmlScan { cfg: FortiConfig::default(), in_split: false, negated: false };
    assert(scan.model() == initial_scan());
    assert(cs@.skip(0) =~= cs@);
    let mut pos: usize = 0;
    loop
        invariant
            pos <= cs@.len(),
            cs@ == body@,
            xml_scan(cs@, initial_scan()) == xml_scan(cs@.skip(pos as int), scan.model()),
        decreases cs.len() - pos,
    {
        let ghost s = cs@.skip(pos as int);
        assert(s =~= cs@.subrange(pos as int, cs@.len() as int));
        match index_in(cs.as_slice(), pos, cs.len(), '<') {
            Some(i) => {
                assert(s.take(i - pos) =~= cs@.subrange(pos as int, i as int));
                assert(s.skip(i - pos + 1) =~= cs@.skip(i + 1));
                scan.apply(cs.as_slice(), pos, i);
                pos = i + 1;
            },
            None => {
                scan.apply(cs.as_slice(), pos, cs.len());
                return Ok(scan.cfg);
            },
        }
    }
}

/// What the config fetch makes of the gateway's reply: a 4xx/5xx status
/// fails the fetch, any other reply has its body parsed.
pub fn config_from_response(resp: &HttpResponse) -> (r: Result<FortiConfig, VpnError>)
    ensures
        resp.status >= 400 ==> (r matches Err(e) && e is Protocol && e.detail()
            == "FortiGate config fetch failed (HTTP "@ + spec_decimal(resp.status as nat) + ")"@),
        resp.status < 400 ==> (r matches Ok(c) && c@ == spec_parse_config(utf8_lossy(resp.body@))),
{
    if resp.status >= 400 {
        let mut m = String::from_str("FortiGate config fetch failed (HTTP ");
        m.append(fmt_decimal(resp.status as u64).as_str());
        m.append(")");
        return Err(VpnError::Protocol(m));
    }
    let body = resp.body_str();
    parse_config_xml(body.as_str())
}

/// The keepalive stays inside the gateway's idle timeout: for any advertised
/// timeout it lies in 5..=60 seconds, and once the timeout is at least 15
/// seconds, three keepalives fit inside it (two may be lost before it
/// expires).
pub proof fn lemma_keepalive_inside_idle_timeout(t: u32)
    requires
        t > 0,
    ensures
        5 <= spec_keepalive(Some(t)) <= 60,
        t >= 15 ==> 3 * spec_keepalive(Some(t)) <= t,
{
}

/// Whether no value occurs twice.
pub open spec fn no_repeats(s: Seq<Ipv4Addr>) -> bool {
    forall|j: int, k: int| 0 <= j < k < s.len() ==> s[j] != s[k]
}

/// The resolvers of a session: each listed once, every resolver of either
/// source listed, and nothing else; the first source's come first, so IPCP's
/// resolvers lead whenever PPP supplied any.
pub proof fn lemma_session_dns(first: Seq<Ipv4Addr>, second: Seq<Ipv4Addr>)
    ensures
        no_repeats(dedup(first + second)),
        forall|a: Ipv4Addr| dedup(first + second).contains(a) <==> (first.contains(a) || second.contains(a)),
        dedup(first).len() <= dedup(first + second).len(),
        dedup(first + second).take(dedup(first).len() as int) == dedup(first),
        no_repeats(first) ==> dedup(first) == first,
{
    lemma_dedup(first + second);
    lemma_dedup_prefix(first, second);
    assert forall|a: Ipv4Addr| (first + second).contains(a) <==> (first.contains(a) || second.contains(a)) by {
        if (first + second).contains(a) {
            let k = choose|k: int| 0 <= k < first.len() + second.len() && (first + second)[k] == a;
            if k >= first.len() {
                assert(second[k - first.len()] == a);
            } else {
                assert(first[k] == a);
            }
        }
        if first.contains(a) {
            let k = choose|k: int| 0 <= k < first.len() && first[k] == a;
            assert((first + second)[k] == a);
        }
        if second.contains(a) {
            let k = choose|k: int| 0 <= k < second.len() && second[k] == a;
            assert((first + second)[first.len() + k] == a);
        }
    }
    if no_repeats(first) {
        lemma_dedup_no_repeats(first);
    }
}

/// What `dedup` makes of a list's front it keeps when more follows.
proof fn lemma_dedup_prefix(first: Seq<Ipv4Addr>, second: Seq<Ipv4Addr>)
    ensures
        dedup(first).len() <= dedup(first + second).len(),
        dedup(first + second).take(dedup(first).len() as int) == dedup(first),
    decreases second.len(),
{
    if second.len() == 0 {
        assert(first + second =~= first);
        assert(dedup(first).take(dedup(first).len() as int) =~= dedup(first));
    } else {
        lemma_dedup_prefix(first, second.drop_last());
        assert((first + second).drop_last() =~= first + second.drop_last());
        let d = dedup(first + second.drop_last());
        let n = dedup(first).len() as int;
        if !d.contains(second.last()) {
            assert((first + second).last() == second.last());
            assert(d.push(second.last()).take(n) =~= d.take(n));
        }
    }
}

/// `dedup` lists each value once, and exactly the values of its input.
pub proof fn lemma_dedup(s: Seq<Ipv4Addr>)
    ensures
        no_repeats(dedup(s)),
        forall|a: Ipv4Addr| dedup(s).contains(a) <==> s.contains(a),
    decreases s.len(),
{
    if s.len() > 0 {
        lemma_dedup(s.drop_last());
        let d = dedup(s.drop_last());
        assert forall|a: Ipv4Addr| s.contains(a) <==> (s.drop_last().contains(a) || a == s.last()) by {
            if s.contains(a) {
                let k = choose|k: int| 0 <= k < s.len() && s[k] == a;
                if k < s.len() - 1 {
                    assert(s.drop_last()[k] == a);
                }
            }
            if s.drop_last().contains(a) {
                let k = choose|k: int| 0 <= k < s.len() - 1 && s.drop_last()[k] == a;
                assert(s[k] == a);
            }
            if a == s.last() {
                assert(s[s.len() - 1] == a);
            }
        }
        if !d.contains(s.last()) {
            assert forall|a: Ipv4Addr| d.push(s.last()).contains(a) <==> (d.contains(a) || a == s.last()) by {
                if d.push(s.last()).contains(a) {
                    let k = choose|k: int| 0 <= k < d.len() + 1 && d.push(s.last())[k] == a;
                    if k < d.len() {
                        assert(d[k] == a);
                    }
                }
                if d.contains(a) {
                    let k = choose|k: int| 0 <= k < d.len() && d[k] == a;
                    assert(d.push(s.last())[k] == a);
                }
                if a == s.last() {
                    assert(d.push(s.last())[d.len() as int] == a);
                }
            }
            assert forall|j: int, k: int| 0 <= j < k < d.len() + 1 implies d.push(s.last())[j] != d.push(
                s.last(),
            )[k] by {
                if k == d.len() {
                    assert(d[j] == d.push(s.last())[j]);
                }
            }
        }
    }
}

/// Without repeats, `dedup` changes nothing.
proof fn lemma_dedup_no_repeats(s: Seq<Ipv4Addr>)
    requires
        no_repeats(s),
    ensures
        dedup(s) == s,
    decreases s.len(),
{
    if s.len() > 0 {
        let t = s.drop_last();
        assert(no_repeats(t)) by {
            assert forall|j: int, k: int| 0 <= j < k < t.len() implies t[j] != t[k] by {
                assert(t[j] == s[j] && t[k] == s[k]);
            }
        }
        lemma_dedup_no_repeats(t);
        assert(!t.contains(s.last())) by {
            if t.contains(s.last()) {
                let k = choose|k: int| 0 <= k < t.len() && t[k] == s.last();
                assert(s[k] == s[s.len() - 1]);
            }
        }
        assert(t.push(s.last()) =~= s);
    }
}


/// The text with every `'` turned into `"`.
pub open spec fn double_quoted(s: Seq<char>) -> Seq<char> {
    s.map_values(|c: char| if c == '\'' { '"' } else { c })
}

/// Whether the text holds no `"`.
pub open spec fn no_double_quote(s: Seq<char>) -> bool {
    forall|i: int| 0 <= i < s.len() ==> s[i] != '"'
}

/// Whether the text holds neither kind of quote.
pub open spec fn no_quote(s: Seq<char>) -> bool {
    forall|i: int| 0 <= i < s.len() ==> s[i] != '"' && s[i] != '\''
}

proof fn lemma_dq_skip_take(s: Seq<char>, k: int)
    requires
        0 <= k <= s.len(),
    ensures
        double_quoted(s).skip(k) == double_quoted(s.skip(k)),
        double_quoted(s).take(k) == double_quoted(s.take(k)),
        no_double_quote(s) ==> no_double_quote(s.skip(k)) && no_double_quote(s.take(k)),
{
    assert(double_quoted(s).skip(k) =~= double_quoted(s.skip(k)));
    assert(double_quoted(s).take(k) =~= double_quoted(s.take(k)));
    if no_double_quote(s) {
        assert forall|i: int| 0 <= i < s.skip(k).len() implies s.skip(k)[i] != '"' by {
            assert(s.skip(k)[i] == s[i + k]);
        }
        assert forall|i: int| 0 <= i < s.take(k).len() implies s.take(k)[i] != '"' by {
            assert(s.take(k)[i] == s[i]);
        }
    }
}

/// Turning `'` into `"` changes no text without quotes, and is undone on
/// text without `"`: such a text turns into a quote-free one only if it was
/// that text already.
proof fn lemma_dq_equal(x: Seq<char>, p: Seq<char>)
    requires
        no_double_quote(x),
        no_quote(p),
    ensures
        double_quoted(p) == p,
        (double_quoted(x) == p) == (x == p),
{
    assert(double_quoted(p) =~= p);
    if double_quoted(x) == p {
        assert forall|i: int| 0 <= i < x.len() implies x[i] == p[i] by {
            assert(double_quoted(x)[i] == p[i]);
        }
        assert(x =~= p);
    }
}

proof fn lemma_trim_start_dq(s: Seq<char>)
    ensures
        trim_start(double_quoted(s)) == double_quoted(trim_start(s)),
        no_double_quote(s) ==> no_double_quote(trim_start(s)),
    decreases s.len(),
{
    if s.len() > 0 {
        lemma_dq_skip_take(s, 1);
        assert(double_quoted(s)[0] == s[0] || (s[0] == '\'' && double_quoted(s)[0] == '"'));
        if is_ws(s[0]) {
            lemma_trim_start_dq(s.skip(1));
        }
    }
}

proof fn lemma_index_of_dq(s: Seq<char>, c: char)
    requires
        c != '"' && c != '\'',
    ensures
        index_of(double_quoted(s), c) == index_of(s, c),
    decreases s.len(),
{
    if s.len() > 0 {
        lemma_dq_skip_take(s, 1);
        lemma_index_of_dq(s.skip(1), c);
    }
}

/// In text without `"`, the `"` of the turned text stand where its `'` stood.
proof fn lemma_index_of_quote_dq(s: Seq<char>)
    requires
        no_double_quote(s),
    ensures
        index_of(double_quoted(s), '"') == index_of(s, '\''),
    decreases s.len(),
{
    if s.len() > 0 {
        lemma_dq_skip_take(s, 1);
        lemma_index_of_quote_dq(s.skip(1));
    }
}

proof fn lemma_name_end_dq(s: Seq<char>)
    ensures
        name_end(double_quoted(s)) == name_end(s),
    decreases s.len(),
{
    if s.len() > 0 {
        lemma_dq_skip_take(s, 1);
        lemma_name_end_dq(s.skip(1));
    }
}

proof fn lemma_find_sub_dq(s: Seq<char>, p: Seq<char>)
    requires
        no_double_quote(s),
        no_quote(p),
    ensures
        find_sub(double_quoted(s), p) == find_sub(s, p),
    decreases s.len(),
{
    if p.len() <= s.len() {
        lemma_dq_skip_take(s, p.len() as int);
        lemma_dq_equal(s.take(p.len() as int), p);
    }
    if s.len() > 0 {
        lemma_dq_skip_take(s, 1);
        lemma_find_sub_dq(s.skip(1), p);
    }
}

/// A quote-free attribute name finds the same value in a `"`-free fragment
/// and in that fragment with its `'` turned into `"`.
proof fn lemma_attr_from_dq(f: Seq<char>, name: Seq<char>, from: int)
    requires
        no_double_quote(f),
        no_quote(name),
    ensures
        attr_from(double_quoted(f), name, from) == attr_from(f, name, from),
    decreases f.len() - from,
{
    let g = double_quoted(f);
    if name.len() == 0 || from < 0 || from > f.len() {
    } else {
        lemma_dq_skip_take(f, from);
        lemma_find_sub_dq(f.skip(from), name);
        lemma_find_sub(f.skip(from), name);
        match find_sub(f.skip(from), name) {
            None => {},
            Some(rel) => {
                let start = from + rel;
                let after = start + name.len();
                if start > 0 {
                    assert(g[start - 1] == f[start - 1] || (f[start - 1] == '\'' && g[start - 1]
                        == '"'));
                }
                if start > 0 && name_char(f[start - 1]) {
                    lemma_attr_from_dq(f, name, after);
                } else {
                    lemma_dq_skip_take(f, after);
                    let r1 = trim_start(f.skip(after));
                    lemma_trim_start_dq(f.skip(after));
                    if r1.len() == 0 || r1[0] != '=' {
                        lemma_attr_from_dq(f, name, after);
                    } else {
                        lemma_dq_skip_take(r1, 1);
                        let r2 = trim_start(r1.skip(1));
                        lemma_trim_start_dq(r1.skip(1));
                        if r2.len() == 0 || (r2[0] != '\'' && r2[0] != '"') {
                            lemma_attr_from_dq(f, name, after);
                        } else {
                            assert(r2[0] == '\'');
                            assert(double_quoted(r2)[0] == '"');
                            lemma_dq_skip_take(r2, 1);
                            let r3 = r2.skip(1);
                            lemma_index_of_quote_dq(r3);
                            lemma_index_of(r3, '\'');
                            match index_of(r3, '\'') {
                                None => {},
                                Some(e) => {
                                    lemma_dq_skip_take(r3, e);
                                    lemma_dq_equal(r3.take(e), r3.take(e));
                                },
                            }
                        }
                    }
                }
            },
        }
    }
}

/// The element and attribute names the scan looks for hold no quote.
proof fn lemma_scan_words_quote_free()
    ensures
        no_quote("sslvpn-tunnel"@),
        no_quote("tunnel-method"@),
        no_quote("idle-timeout"@),
        no_quote("auth-timeout"@),
        no_quote("assigned-addr"@),
        no_quote("dns"@),
        no_quote("split-tunnel-info"@),
        no_quote("/split-tunnel-info"@),
        no_quote("addr"@),
        no_quote("ver"@),
        no_quote("value"@),
        no_quote("val"@),
        no_quote("ipv4"@),
        no_quote("prefix-len"@),
        no_quote("ip"@),
        no_quote("domain"@),
        no_quote("negate"@),
        no_quote("mask"@),
{
    reveal_strlit("sslvpn-tunnel");
    reveal_strlit("tunnel-method");
    reveal_strlit("idle-timeout");
    reveal_strlit("auth-timeout");
    reveal_strlit("assigned-addr");
    reveal_strlit("dns");
    reveal_strlit("split-tunnel-info");
    reveal_strlit("/split-tunnel-info");
    reveal_strlit("addr");
    reveal_strlit("ver");
    reveal_strlit("value");
    reveal_strlit("val");
    reveal_strlit("ipv4");
    reveal_strlit("prefix-len");
    reveal_strlit("ip");
    reveal_strlit("domain");
    reveal_strlit("negate");
    reveal_strlit("mask");
}

proof fn lemma_element_step_dq(st: XmlState, n: Seq<char>, r: Seq<char>)
    requires
        no_double_quote(n),
        no_double_quote(r),
    ensures
        element_step(st, double_quoted(n), double_quoted(r)) == element_step(st, n, r),
{
    lemma_scan_words_quote_free();
    lemma_dq_equal(n, "sslvpn-tunnel"@);
    lemma_dq_equal(n, "tunnel-method"@);
    lemma_dq_equal(n, "idle-timeout"@);
    lemma_dq_equal(n, "auth-timeout"@);
    lemma_dq_equal(n, "assigned-addr"@);
    lemma_dq_equal(n, "dns"@);
    lemma_dq_equal(n, "split-tunnel-info"@);
    lemma_dq_equal(n, "/split-tunnel-info"@);
    lemma_dq_equal(n, "addr"@);
    lemma_attr_from_dq(r, "ver"@, 0);
    lemma_attr_from_dq(r, "value"@, 0);
    lemma_attr_from_dq(r, "val"@, 0);
    lemma_attr_from_dq(r, "ipv4"@, 0);
    lemma_attr_from_dq(r, "prefix-len"@, 0);
    lemma_attr_from_dq(r, "ip"@, 0);
    lemma_attr_from_dq(r, "domain"@, 0);
    lemma_attr_from_dq(r, "negate"@, 0);
    lemma_attr_from_dq(r, "mask"@, 0);
    assert(split_prefix(double_quoted(r)) == split_prefix(r));
}

proof fn lemma_name_end_bound(s: Seq<char>)
    ensures
        0 <= name_end(s) <= s.len(),
    decreases s.len(),
{
    if s.len() > 0 {
        lemma_name_end_bound(s.skip(1));
    }
}

proof fn lemma_piece_step_dq(st: XmlState, p: Seq<char>)
    requires
        no_double_quote(p),
    ensures
        piece_step(st, double_quoted(p)) == piece_step(st, p),
{
    let frag = trim_start(p);
    lemma_trim_start_dq(p);
    let g = double_quoted(frag);
    if frag.len() > 0 {
        assert(g[0] == frag[0] || (frag[0] == '\'' && g[0] == '"'));
        lemma_dq_skip_take(frag, 1);
        lemma_name_end_dq(frag.skip(1));
        lemma_name_end_bound(frag.skip(1));
    }
    lemma_name_end_dq(frag);
    lemma_name_end_bound(frag);
    let n = element_name_len(frag);
    assert(element_name_len(g) == n);
    lemma_dq_skip_take(frag, n);
    lemma_element_step_dq(st, frag.take(n), frag.skip(n));
}

proof fn lemma_xml_scan_dq(s: Seq<char>, st: XmlState)
    requires
        no_double_quote(s),
    ensures
        xml_scan(double_quoted(s), st) == xml_scan(s, st),
    decreases s.len(),
{
    lemma_index_of_dq(s, '<');
    lemma_index_of(s, '<');
    match index_of(s, '<') {
        Some(i) => {
            lemma_dq_skip_take(s, i);
            lemma_dq_skip_take(s, i + 1);
            lemma_piece_step_dq(st, s.take(i));
            lemma_xml_scan_dq(s.skip(i + 1), piece_step(st, s.take(i)));
        },
        None => {
            lemma_piece_step_dq(st, s);
        },
    }
}

/// Single- and double-quoted attributes parse alike: a body without `"`
/// describes the same configuration as that body with every `'` turned into
/// `"`.
pub proof fn lemma_quotes_parse_alike(body: Seq<char>)
    requires
        no_double_quote(body),
    ensures
        spec_parse_config(double_quoted(body)) == spec_parse_config(body),
{
    lemma_xml_scan_dq(body, initial_scan());
}

} // verus!
