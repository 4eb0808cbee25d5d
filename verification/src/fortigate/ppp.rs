//! PPP inside the FortiGate `0x5050` envelope: the control-protocol packet and
//! option codec, the PPP framing helpers, and the Echo/Terminate builders.
//!
//! ```text
//! [BE u16 total = 6 + body_len][BE u16 0x5050][BE u16 body_len][body]
//! body = [BE u16 PPP protocol][protocol payload]
//! ```
//!
//! There is no HDLC framing and no `FF 03` prefix on what we send; a received
//! body may carry one and it is skipped. Every byte parsed here is untrusted:
//! parsing is bounded, total, and never indexes past the slice.
use vstd::prelude::*;

use crate::error::VpnError;
use crate::buffer::buf_contents;
use crate::fortigate::framing::{
    be16, be16_value, frame_error, frame_step, push_all, push_be16, spec_frame, try_decode_frame,
    FrameStep, MAX_FORTI_BODY,
};
use crate::net::Ipv4Addr;
use crate::text::{fmt_decimal, spec_decimal, utf8_lossy};

verus! {

pub const PPP_LCP: u16 = 0xc021;
pub const PPP_IPCP: u16 = 0x8021;
pub const PPP_IPV4: u16 = 0x0021;
pub const PPP_PAP: u16 = 0xc023;
pub const PPP_CHAP: u16 = 0xc223;

pub const CODE_CONF_REQ: u8 = 1;
pub const CODE_CONF_ACK: u8 = 2;
pub const CODE_CONF_NAK: u8 = 3;
pub const CODE_CONF_REJ: u8 = 4;
pub const CODE_TERM_REQ: u8 = 5;
pub const CODE_TERM_ACK: u8 = 6;
pub const CODE_CODE_REJ: u8 = 7;
pub const CODE_PROTO_REJ: u8 = 8;
pub const CODE_ECHO_REQ: u8 = 9;
pub const CODE_ECHO_REP: u8 = 10;

/// LCP option: Maximum-Receive-Unit.
pub const LCP_OPT_MRU: u8 = 1;
/// LCP option: Authentication-Protocol (unsupported: FortiGate authenticates
/// over HTTPS before the tunnel).
pub const LCP_OPT_AUTH: u8 = 3;
/// LCP option: Magic-Number.
pub const LCP_OPT_MAGIC: u8 = 5;

/// IPCP option: IP-Address.
pub const IPCP_OPT_ADDR: u8 = 3;
/// IPCP option: primary DNS server (RFC 1877).
pub const IPCP_OPT_DNS1: u8 = 129;
/// IPCP option: secondary DNS server (RFC 1877).
pub const IPCP_OPT_DNS2: u8 = 131;

/// The MRU we ask for (1500 - 20 IP - 20 TCP - 6 FortiGate - TLS overhead).
pub const DEFAULT_MRU: u16 = 1354;

/// A parsed PPP control packet: `[code][id][BE u16 length][data...]`, where
/// `length` covers the 4-byte header plus `data`.
#[derive(Debug, Clone, PartialEq, Eq)]
pub struct CpPacket {
    pub code: u8,
    pub id: u8,
    /// Payload after the 4-byte header, already cut to the declared length.
    pub data: Vec<u8>,
}

/// The wire form of a control packet. The length field is the low 16 bits of
/// `data.len() + 4`, as a `u16` cast writes it.
pub open spec fn spec_cp(code: u8, id: u8, data: Seq<u8>) -> Seq<u8> {
    seq![code, id] + be16(((data.len() + 4) % 65536) as int) + data
}

/// Why a control packet is refused.
pub open spec fn cp_error(b: Seq<u8>) -> Seq<char> {
    if b.len() < 4 {
        "PPP control packet too short ("@ + spec_decimal(b.len()) + " bytes)"@
    } else {
        "PPP control length "@ + spec_decimal(be16_value(b[2], b[3]) as nat) + " inconsistent with "@
            + spec_decimal(b.len()) + " available bytes"@
    }
}

/// Parse a control packet. A truncated header, or a `length` below the header
/// size or beyond the buffer, is refused.
pub fn parse_cp(b: &[u8]) -> (r: Result<CpPacket, VpnError>)
    ensures
        r is Ok <==> (b@.len() >= 4 && 4 <= be16_value(b@[2], b@[3]) <= b@.len()),
        r matches Ok(p) ==> p.code == b@[0] && p.id == b@[1] && p.data@ == b@.subrange(
            4,
            be16_value(b@[2], b@[3]),
        ),
        r matches Err(e) ==> e is Protocol && e.detail() == cp_error(b@),
{
    if b.len() < 4 {
        let mut m = String::from_str("PPP control packet too short (");
        m.append(fmt_decimal(b.len() as u64).as_str());
        m.append(" bytes)");
        return Err(VpnError::Protocol(m));
    }
    let len = (b[2] as usize) * 256 + b[3] as usize;
    if len < 4 || len > b.len() {
        let mut m = String::from_str("PPP control length ");
        m.append(fmt_decimal(len as u64).as_str());
        m.append(" inconsistent with ");
        m.append(fmt_decimal(b.len() as u64).as_str());
        m.append(" available bytes");
        return Err(VpnError::Protocol(m));
    }
    let mut data: Vec<u8> = Vec::new();
    push_all(&mut data, &b[4..len]);
    Ok(CpPacket { code: b[0], id: b[1], data })
}

/// Build a control packet from a code, id, and option/payload bytes.
pub fn build_cp(code: u8, id: u8, data: &[u8]) -> (r: Vec<u8>)
    ensures
        r@ == spec_cp(code, id, data@),
{
    let len = ((data.len() % 65536 + 4) % 65536) as u16;
    assert((data@.len() % 65536 + 4) % 65536 == (data@.len() + 4) % 65536);
    let mut out: Vec<u8> = Vec::new();
    out.push(code);
    out.push(id);
    push_be16(&mut out, len);
    push_all(&mut out, data);
    assert(out@ =~= spec_cp(code, id, data@));
    out
}

/// Control packets round-trip: parsing what `build_cp` wrote gives back the
/// code, id and data, whenever the length fits the 16-bit field.
pub proof fn lemma_cp_round_trip(code: u8, id: u8, data: Seq<u8>)
    requires
        data.len() + 4 <= 65535,
    ensures
        ({
            let b = spec_cp(code, id, data);
            &&& b.len() >= 4
            &&& be16_value(b[2], b[3]) == data.len() + 4
            &&& b[0] == code && b[1] == id
            &&& b.subrange(4, be16_value(b[2], b[3])) == data
        }),
{
    let b = spec_cp(code, id, data);
    assert(b.subrange(4, data.len() + 4 as int) =~= data);
}

/// A `[type][len][value...]` option list, read front to back; reading stops
/// at the first entry that is shorter than its own header or runs past the end.
pub open spec fn spec_options(b: Seq<u8>) -> Seq<(u8, Seq<u8>)>
    decreases b.len(),
{
    if b.len() < 2 {
        Seq::empty()
    } else {
        let len = b[1] as int;
        if len < 2 || len > b.len() {
            Seq::empty()
        } else {
            seq![(b[0], b.subrange(2, len))] + spec_options(b.skip(len))
        }
    }
}

/// Parse an option list, stopping cleanly at the first malformed entry so a
/// peer that appends junk still gets its well-formed options honoured.
pub fn parse_options(b: &[u8]) -> (r: Vec<(u8, Vec<u8>)>)
    ensures
        r.deep_view() == spec_options(b@),
{
    let mut out: Vec<(u8, Vec<u8>)> = Vec::new();
    let mut i: usize = 0;
    proof {
        assert(b@.skip(0) =~= b@);
        assert(out.deep_view() + spec_options(b@) =~= spec_options(b@));
    }
    while i < b.len() && b.len() - i >= 2
        invariant
            i <= b@.len(),
            out.deep_view() + spec_options(b@.skip(i as int)) == spec_options(b@),
        ensures
            spec_options(b@.skip(i as int)) == Seq::<(u8, Seq<u8>)>::empty(),
            out.deep_view() + spec_options(b@.skip(i as int)) == spec_options(b@),
        decreases b.len() - i,
    {
        let typ = b[i];
        let len = b[i + 1] as usize;
        if len < 2 || len > b.len() - i {
            assert(spec_options(b@.skip(i as int)) == Seq::<(u8, Seq<u8>)>::empty());
            assert(out.deep_view() + Seq::<(u8, Seq<u8>)>::empty() =~= out.deep_view());
            break;
        }
        let mut val: Vec<u8> = Vec::new();
        push_all(&mut val, &b[i + 2..i + len]);
        let ghost before = out.deep_view();
        proof {
            lemma_bytes_deep_view(val);
        }
        out.push((typ, val));
        proof {
            let s = b@.skip(i as int);
            assert(s.subrange(2, len as int) =~= b@.subrange(i + 2, i + len));
            assert(s.skip(len as int) =~= b@.skip(i + len));
            assert(out.deep_view() =~= before.push((typ, val@)));
            assert(out.deep_view() + spec_options(b@.skip(i + len)) =~= before + spec_options(s));
        }
        i = i + len;
    }
    assert(out.deep_view() + Seq::<(u8, Seq<u8>)>::empty() =~= out.deep_view());
    out
}

/// A byte vector's deep view is its view.
pub proof fn lemma_bytes_deep_view(v: Vec<u8>)
    ensures
        v.deep_view() == v@,
{
    assert(v.deep_view() =~= v@);
}

/// One option on the wire; a value over 253 bytes cannot be expressed and is
/// written as nothing.
pub open spec fn spec_option(t: u8, v: Seq<u8>) -> Seq<u8> {
    if v.len() > 253 {
        Seq::empty()
    } else {
        seq![t, (v.len() + 2) as u8] + v
    }
}

/// An option list on the wire, in order.
pub open spec fn spec_build_options(o: Seq<(u8, Seq<u8>)>) -> Seq<u8>
    decreases o.len(),
{
    if o.len() == 0 {
        Seq::empty()
    } else {
        spec_option(o[0].0, o[0].1) + spec_build_options(o.skip(1))
    }
}

/// Serialize an option list, skipping any option whose value exceeds 253
/// bytes.
pub fn build_options(opts: &[(u8, Vec<u8>)]) -> (r: Vec<u8>)
    ensures
        r@ == spec_build_options(opts.deep_view()),
{
    let mut out: Vec<u8> = Vec::new();
    let mut i: usize = 0;
    proof {
        assert(opts.deep_view().skip(0) =~= opts.deep_view());
        assert(out@ + spec_build_options(opts.deep_view()) =~= spec_build_options(opts.deep_view()));
    }
    while i < opts.len()
        invariant
            i <= opts@.len(),
            out@ + spec_build_options(opts.deep_view().skip(i as int)) == spec_build_options(
                opts.deep_view(),
            ),
        decreases opts.len() - i,
    {
        let ghost before = out@;
        let ghost o = opts.deep_view();
        let typ = opts[i].0;
        let val = &opts[i].1;
        proof {
            assert(o.skip(i as int)[0] == o[i as int]);
            assert(o.skip(i as int).skip(1) =~= o.skip(i + 1));
            lemma_bytes_deep_view(*val);
            assert(o[i as int].1 == val@);
        }
        if val.len() <= 253 {
            out.push(typ);
            out.push((val.len() + 2) as u8);
            push_all(&mut out, val.as_slice());
            assert(out@ =~= before + spec_option(typ, val@));
        } else {
            assert(out@ =~= before + spec_option(typ, val@));
        }
        assert(out@ + spec_build_options(o.skip(i + 1)) =~= before + spec_build_options(o.skip(i as int)));
        i = i + 1;
    }
    assert(opts.deep_view().skip(i as int) =~= Seq::<(u8, Seq<u8>)>::empty());
    assert(out@ + Seq::<u8>::empty() =~= out@);
    out
}

/// Whether every option value fits the option length byte.
pub open spec fn options_expressible(o: Seq<(u8, Seq<u8>)>) -> bool {
    forall|k: int| 0 <= k < o.len() ==> #[trigger] o[k].1.len() <= 253
}

/// Option lists round-trip: parsing what `build_options` wrote gives back the
/// same options in the same order, whenever every value fits.
pub proof fn lemma_options_round_trip(o: Seq<(u8, Seq<u8>)>)
    requires
        options_expressible(o),
    ensures
        spec_options(spec_build_options(o)) == o,
    decreases o.len(),
{
    if o.len() == 0 {
        assert(spec_build_options(o) =~= Seq::<u8>::empty());
    } else {
        let rest = o.skip(1);
        assert forall|k: int| 0 <= k < rest.len() implies #[trigger] rest[k].1.len() <= 253 by {
            assert(rest[k] == o[k + 1]);
        }
        lemma_options_round_trip(rest);
        let head = spec_option(o[0].0, o[0].1);
        let b = spec_build_options(o);
        assert(o[0].1.len() <= 253);
        assert(b =~= head + spec_build_options(rest));
        let len = (o[0].1.len() + 2) as int;
        assert(b[1] as int == len);
        assert(b.subrange(2, len) =~= o[0].1);
        assert(b.skip(len) =~= spec_build_options(rest));
        assert(spec_options(b) =~= seq![(o[0].0, o[0].1)] + rest);
        assert(seq![(o[0].0, o[0].1)] + rest =~= o);
    }
}

/// Read a 4-byte option value as an IPv4 address.
pub fn opt_ipv4(v: &[u8]) -> (r: Option<Ipv4Addr>)
    ensures
        r == spec_opt_ipv4(v@),
{
    if v.len() == 4 {
        Some(Ipv4Addr::new(v[0], v[1], v[2], v[3]))
    } else {
        None
    }
}

pub open spec fn spec_opt_ipv4(v: Seq<u8>) -> Option<Ipv4Addr> {
    if v.len() == 4 {
        Some(Ipv4Addr { a: v[0], b: v[1], c: v[2], d: v[3] })
    } else {
        None
    }
}

#[verifier::external_type_specification]
#[verifier::external_body]
pub struct ExSystemTime(std::time::SystemTime);

/// `SystemTime::now`: the system clock's reading. It depends on the clock,
/// so nothing is stated of it.
#[verifier::external_body]
fn system_now() -> (r: std::time::SystemTime) {
    std::time::SystemTime::now()
}

/// `SystemTime::duration_since(UNIX_EPOCH)`: the time since the epoch, or
/// `None` (its error) when the reading lies before it. Nothing is stated of
/// the value: it is that of an opaque clock reading.
#[verifier::external_body]
fn since_epoch(t: &std::time::SystemTime) -> (r: Option<std::time::Duration>) {
    t.duration_since(std::time::UNIX_EPOCH).ok()
}

/// `Duration::as_secs`: the whole seconds of a duration. The duration is
/// opaque, so nothing is stated of the value.
#[verifier::external_body]
fn duration_secs(d: &std::time::Duration) -> (r: u64) {
    d.as_secs()
}

/// `Duration::subsec_nanos`: the fractional part of a duration in
/// nanoseconds, which the documentation bounds below one second.
#[verifier::external_body]
fn duration_subsec_nanos(d: &std::time::Duration) -> (r: u32)
    ensures
        r < 1_000_000_000,
{
    d.subsec_nanos()
}

/// The seconds and sub-second nanoseconds since the Unix epoch; `None` when
/// the clock reads before the epoch.
fn clock_since_epoch() -> (r: Option<(u64, u32)>)
    ensures
        r matches Some((_, nanos)) ==> nanos < 1_000_000_000,
{
    let now = system_now();
    match since_epoch(&now) {
        Some(d) => Some((duration_secs(&d), duration_subsec_nanos(&d))),
        None => None,
    }
}

/// The magic number derived from a clock reading: the sub-second nanoseconds
/// XOR the low 32 bits of the seconds (a fixed constant without a clock),
/// with the low bit forced on.
pub open spec fn spec_magic_from_clock(t: Option<(u64, u32)>) -> u32 {
    match t {
        Some((secs, nanos)) => (nanos ^ (secs % 0x1_0000_0000) as u32) | 1,
        None => 0x59454C4Du32,
    }
}

/// Magic number from a clock reading; never zero, since 0 means "no magic
/// number" in RFC 1661.
pub fn magic_from_clock(t: Option<(u64, u32)>) -> (r: u32)
    ensures
        r == spec_magic_from_clock(t),
        r != 0,
{
    match t {
        Some((secs, nanos)) => {
            let low = (secs % 0x1_0000_0000) as u32;
            let r = (nanos ^ low) | 1;
            assert((nanos ^ low) | 1 != 0) by (bit_vector);
            r
        },
        None => 0x59454C4D,
    }
}

/// A cheap magic number for loopback detection: only needs to be unlikely to
/// collide with the peer's. Never zero; the value is that of some clock
/// reading (or of none), which the time of the call decides.
pub fn gen_magic() -> (r: u32)
    ensures
        r != 0,
        exists|t: Option<(u64, u32)>| r == spec_magic_from_clock(t),
{
    let t = clock_since_epoch();
    let r = magic_from_clock(t);
    assert(r == spec_magic_from_clock(t));
    r
}

/// The framed wire form of a PPP payload. The two length fields are the low
/// 16 bits of the true lengths, as the `u16` casts write them.
pub open spec fn spec_ppp_frame(proto: u16, payload: Seq<u8>) -> Seq<u8> {
    be16(((8 + payload.len()) % 65536) as int) + be16(0x5050) + be16(((2 + payload.len()) % 65536) as int)
        + be16(proto as int) + payload
}

/// Frame a PPP protocol payload for the wire.
pub fn encode_ppp(proto: u16, payload: &[u8]) -> (r: Vec<u8>)
    ensures
        r@ == spec_ppp_frame(proto, payload@),
{
    let mut out: Vec<u8> = Vec::new();
    encode_ppp_append(proto, payload, &mut out);
    assert(out@ =~= spec_ppp_frame(proto, payload@));
    out
}

/// Append a framed PPP payload to a caller-owned buffer (does not clear it).
pub fn encode_ppp_append(proto: u16, payload: &[u8], out: &mut Vec<u8>)
    ensures
        final(out)@ == old(out)@ + spec_ppp_frame(proto, payload@),
{
    let ghost start = out@;
    let low = payload.len() % 65536;
    let total = ((low + 8) % 65536) as u16;
    let body_len = ((low + 2) % 65536) as u16;
    assert((payload@.len() % 65536 + 8) % 65536 == (payload@.len() + 8) % 65536);
    assert((payload@.len() % 65536 + 2) % 65536 == (payload@.len() + 2) % 65536);
    push_be16(out, total);
    push_be16(out, 0x5050);
    push_be16(out, body_len);
    push_be16(out, proto);
    push_all(out, payload);
    assert(out@ =~= start + spec_ppp_frame(proto, payload@));
}

/// Within the frame cap, a PPP frame is an ordinary envelope frame whose body
/// is the protocol field followed by the payload.
pub proof fn lemma_ppp_frame_is_frame(proto: u16, payload: Seq<u8>)
    requires
        payload.len() + 2 <= MAX_FORTI_BODY,
    ensures
        spec_ppp_frame(proto, payload) == spec_frame(be16(proto as int) + payload),
{
    assert(spec_ppp_frame(proto, payload) =~= spec_frame(be16(proto as int) + payload));
}

/// Where the protocol field starts in an envelope body: after a leading HDLC
/// `FF 03` when there is one.
pub open spec fn ppp_offset(body: Seq<u8>) -> int {
    if body.len() >= 2 && body[0] == 0xFF && body[1] == 0x03 {
        2
    } else {
        0
    }
}

/// Split an envelope body into protocol and payload, tolerating a leading
/// HDLC `FF 03`.
pub open spec fn spec_split_ppp(body: Seq<u8>) -> Option<(u16, Seq<u8>)> {
    let off = ppp_offset(body);
    if body.len() < off + 2 {
        None
    } else {
        Some((be16_value(body[off], body[off + 1]) as u16, body.skip(off + 2)))
    }
}

/// Split an envelope body into `(protocol, payload)`, tolerating a leading
/// HDLC `FF 03` that some peers still emit.
pub fn split_ppp(body: &[u8]) -> (r: Option<(u16, &[u8])>)
    ensures
        match spec_split_ppp(body@) {
            None => r is None,
            Some((p, rest)) => r matches Some((q, s)) && q == p && s@ == rest,
        },
{
    let off: usize = if body.len() >= 2 && body[0] == 0xFF && body[1] == 0x03 {
        2
    } else {
        0
    };
    if body.len() < off + 2 {
        return None;
    }
    let proto = ((body[off] as u32) * 256 + body[off + 1] as u32) as u16;
    let rest = &body[off + 2..body.len()];
    assert(rest@ =~= body@.skip(off + 2));
    Some((proto, rest))
}

/// The refusal of an envelope body too short for a protocol field.
pub open spec fn short_body_error(n: nat) -> Seq<char> {
    "PPP frame body too short ("@ + spec_decimal(n) + " bytes)"@
}

/// What the PPP decoder makes of the front of a receive buffer.
pub enum PppStep {
    NeedMore,
    Malformed,
    Frame(u16, Seq<u8>, Seq<u8>),
}

/// The envelope decode followed by the protocol split; a body too short to
/// hold a protocol field is malformed.
pub open spec fn ppp_step(s: Seq<u8>) -> PppStep {
    match frame_step(s) {
        FrameStep::NeedMore => PppStep::NeedMore,
        FrameStep::Malformed => PppStep::Malformed,
        FrameStep::Frame(body, rest) => match spec_split_ppp(body) {
            None => PppStep::Malformed,
            Some((p, payload)) => PppStep::Frame(p, payload, rest),
        },
    }
}

/// Decode one complete frame from `buf` as `(protocol, payload)`. `Ok(None)`
/// means more bytes are needed and the buffer is untouched. A malformed
/// envelope leaves the buffer untouched; a frame whose body is too short for a
/// protocol field is consumed and reported as an error.
pub fn try_decode_ppp(buf: &mut bytes::BytesMut) -> (r: Result<Option<(u16, Vec<u8>)>, VpnError>)
    ensures
        match frame_step(buf_contents(*old(buf))) {
            FrameStep::NeedMore => r matches Ok(None) && buf_contents(*final(buf)) == buf_contents(*old(buf)),
            FrameStep::Malformed => r matches Err(e) && e is Protocol && e.detail() == frame_error(
                buf_contents(*old(buf)),
            ) && buf_contents(*final(buf)) == buf_contents(*old(buf)),
            FrameStep::Frame(body, rest) => buf_contents(*final(buf)) == rest && match spec_split_ppp(body) {
                None => r matches Err(e) && e is Protocol && e.detail() == short_body_error(body.len()),
                Some((p, payload)) => r matches Ok(Some((q, v))) && q == p && v@ == payload,
            },
        },
{
    let body = match try_decode_frame(buf) {
        Err(e) => return Err(e),
        Ok(None) => return Ok(None),
        Ok(Some(b)) => b,
    };
    match split_ppp(body.as_slice()) {
        Some((proto, payload)) => {
            let mut v: Vec<u8> = Vec::new();
            push_all(&mut v, payload);
            Ok(Some((proto, v)))
        },
        None => {
            let mut m = String::from_str("PPP frame body too short (");
            m.append(fmt_decimal(body.len() as u64).as_str());
            m.append(" bytes)");
            Err(VpnError::Protocol(m))
        },
    }
}

/// PPP frames round-trip through the decoder: the frame for `proto` and
/// `payload` within the cap, followed by anything, decodes to that protocol and
/// payload and leaves the rest. (Protocol `0xFF03` is excluded: its field
/// reads as the HDLC prefix that the decoder skips.)
pub proof fn lemma_ppp_round_trip(proto: u16, payload: Seq<u8>, rest: Seq<u8>)
    requires
        payload.len() + 2 <= MAX_FORTI_BODY,
        proto != 0xFF03,
    ensures
        ppp_step(spec_ppp_frame(proto, payload) + rest) == PppStep::Frame(proto, payload, rest),
{
    lemma_ppp_frame_is_frame(proto, payload);
    let body = be16(proto as int) + payload;
    crate::fortigate::framing::lemma_frame_round_trip(body, rest);
    lemma_split_ppp_plain(proto, payload);
}

proof fn lemma_split_ppp_plain(proto: u16, payload: Seq<u8>)
    requires
        proto != 0xFF03,
    ensures
        spec_split_ppp(be16(proto as int) + payload) == Some((proto, payload)),
{
    let body = be16(proto as int) + payload;
    assert(body[0] == (proto as int / 256) as u8);
    assert(body[1] == (proto as int % 256) as u8);
    assert(ppp_offset(body) == 0);
    assert(body.skip(2) =~= payload);
    assert(be16_value(body[0], body[1]) == proto as int);
}

/// The big-endian bytes of a 32-bit value.
pub open spec fn be32(v: u32) -> Seq<u8> {
    seq![
        (v / 16777216) as u8,
        ((v / 65536) % 256) as u8,
        ((v / 256) % 256) as u8,
        (v % 256) as u8,
    ]
}

/// The big-endian bytes of a 32-bit value.
pub fn be32_bytes(v: u32) -> (r: Vec<u8>)
    ensures
        r@ == be32(v),
{
    let mut out: Vec<u8> = Vec::new();
    out.push((v / 16777216) as u8);
    out.push(((v / 65536) % 256) as u8);
    out.push(((v / 256) % 256) as u8);
    out.push((v % 256) as u8);
    assert(out@ =~= be32(v));
    out
}

/// The LCP Echo-Request frame carrying our magic number.
pub open spec fn spec_echo_request(magic: u32, id: u8) -> Seq<u8> {
    spec_ppp_frame(PPP_LCP, spec_cp(CODE_ECHO_REQ, id, be32(magic)))
}

/// Build an LCP Echo-Request carrying our magic number (client liveness).
pub fn echo_request(magic: u32, id: u8) -> (r: Vec<u8>)
    ensures
        r@ == spec_echo_request(magic, id),
{
    let m = be32_bytes(magic);
    let cp = build_cp(CODE_ECHO_REQ, id, m.as_slice());
    encode_ppp(PPP_LCP, cp.as_slice())
}

/// The data of an Echo-Reply to a request carrying `req_data`: our magic
/// number, then whatever followed the peer's magic number.
pub open spec fn echo_reply_data(magic: u32, req_data: Seq<u8>) -> Seq<u8> {
    if req_data.len() > 4 {
        be32(magic) + req_data.skip(4)
    } else {
        be32(magic)
    }
}

pub open spec fn spec_echo_reply(magic: u32, id: u8, req_data: Seq<u8>) -> Seq<u8> {
    spec_ppp_frame(PPP_LCP, spec_cp(CODE_ECHO_REP, id, echo_reply_data(magic, req_data)))
}

/// Build the LCP Echo-Reply answering `req`. RFC 1661: the reply carries OUR
/// magic number, then the request's data after its magic number, and echoes
/// the request id.
pub fn echo_reply(magic: u32, req: &CpPacket) -> (r: Vec<u8>)
    ensures
        r@ == spec_echo_reply(magic, req.id, req.data@),
{
    let mut data = be32_bytes(magic);
    if req.data.len() > 4 {
        push_all(&mut data, &req.data.as_slice()[4..req.data.len()]);
        assert(req.data@.subrange(4, req.data@.len() as int) =~= req.data@.skip(4));
    }
    let cp = build_cp(CODE_ECHO_REP, req.id, data.as_slice());
    encode_ppp(PPP_LCP, cp.as_slice())
}

pub open spec fn spec_terminate_request(id: u8) -> Seq<u8> {
    spec_ppp_frame(PPP_LCP, spec_cp(CODE_TERM_REQ, id, seq![98u8, 121u8, 101u8]))
}

/// Build an LCP Terminate-Request with the data `bye` (polite shutdown).
pub fn terminate_request(id: u8) -> (r: Vec<u8>)
    ensures
        r@ == spec_terminate_request(id),
{
    let mut data: Vec<u8> = Vec::new();
    data.push(98u8);
    data.push(121u8);
    data.push(101u8);
    let cp = build_cp(CODE_TERM_REQ, id, data.as_slice());
    assert(data@ =~= seq![98u8, 121u8, 101u8]);
    encode_ppp(PPP_LCP, cp.as_slice())
}

/// What LCP and IPCP agreed on.
#[derive(Debug, Clone, PartialEq, Eq)]
pub struct PppSession {
    /// Our tunnel address, from the IPCP Configure-Nak/Ack.
    pub address: Ipv4Addr,
    /// The gateway's tunnel address, from its IPCP Configure-Request.
    pub peer: Option<Ipv4Addr>,
    /// DNS servers offered over IPCP (may be empty).
    pub dns: Vec<Ipv4Addr>,
    /// Agreed MRU, the tunnel MTU.
    pub mtu: u16,
    /// Our LCP magic number, needed for Echo frames.
    pub magic: u32,
}

/// The assigned address and DNS servers after reading one more IPCP option:
/// a non-zero address replaces the address; a non-zero DNS server not yet
/// listed is appended; anything else changes nothing.
pub open spec fn harvest_one(acc: (Option<Ipv4Addr>, Seq<Ipv4Addr>), t: u8, v: Seq<u8>) -> (
    Option<Ipv4Addr>,
    Seq<Ipv4Addr>,
) {
    match spec_opt_ipv4(v) {
        Some(a) => if a.spec_is_unspecified() {
            acc
        } else if t == IPCP_OPT_ADDR {
            (Some(a), acc.1)
        } else if (t == IPCP_OPT_DNS1 || t == IPCP_OPT_DNS2) && !acc.1.contains(a) {
            (acc.0, acc.1.push(a))
        } else {
            acc
        },
        None => acc,
    }
}

/// Reading a whole IPCP option list, front to back.
pub open spec fn spec_harvest(opts: Seq<(u8, Seq<u8>)>, acc: (Option<Ipv4Addr>, Seq<Ipv4Addr>)) -> (
    Option<Ipv4Addr>,
    Seq<Ipv4Addr>,
)
    decreases opts.len(),
{
    if opts.len() == 0 {
        acc
    } else {
        let prev = spec_harvest(opts.drop_last(), acc);
        harvest_one(prev, opts.last().0, opts.last().1)
    }
}

/// A DNS list holds neither `0.0.0.0` nor a repeated server.
pub open spec fn dns_list_clean(d: Seq<Ipv4Addr>) -> bool {
    &&& forall|k: int| 0 <= k < d.len() ==> !(#[trigger] d[k]).spec_is_unspecified()
    &&& forall|j: int, k: int| 0 <= j < k < d.len() ==> d[j] != d[k]
}

/// An address slot holds no `0.0.0.0`.
pub open spec fn address_clean(a: Option<Ipv4Addr>) -> bool {
    a matches Some(x) ==> !x.spec_is_unspecified()
}

/// Whether `d` lists `a`.
pub fn contains_addr(d: &Vec<Ipv4Addr>, a: Ipv4Addr) -> (r: bool)
    ensures
        r == d@.contains(a),
{
    let mut i: usize = 0;
    while i < d.len()
        invariant
            i <= d@.len(),
            forall|k: int| 0 <= k < i ==> d@[k] != a,
        decreases d.len() - i,
    {
        if d[i] == a {
            assert(d@[i as int] == a);
            return true;
        }
        i = i + 1;
    }
    false
}

/// Pull the assigned address and DNS servers out of an IPCP option list.
/// `0.0.0.0` is never taken as an assignment and a DNS server is listed once.
pub fn harvest_ipcp(opts: &[(u8, Vec<u8>)], address: &mut Option<Ipv4Addr>, dns: &mut Vec<Ipv4Addr>)
    ensures
        (*final(address), final(dns)@) == spec_harvest(opts.deep_view(), (*old(address), old(dns)@)),
        address_clean(*old(address)) ==> address_clean(*final(address)),
        dns_list_clean(old(dns)@) ==> dns_list_clean(final(dns)@),
{
    let ghost a0 = *address;
    let ghost d0 = dns@;
    let mut i: usize = 0;
    while i < opts.len()
        invariant
            i <= opts@.len(),
            (*address, dns@) == spec_harvest(opts.deep_view().take(i as int), (a0, d0)),
            address_clean(a0) ==> address_clean(*address),
            dns_list_clean(d0) ==> dns_list_clean(dns@),
        decreases opts.len() - i,
    {
        let t = opts[i].0;
        let v = opts[i].1.as_slice();
        proof {
            let o = opts.deep_view();
            assert(o.take(i + 1).drop_last() =~= o.take(i as int));
            assert(o.take(i + 1).last() == o[i as int]);
            lemma_bytes_deep_view(opts@[i as int].1);
        }
        match opt_ipv4(v) {
            Some(a) => {
                if !a.is_unspecified() {
                    if t == IPCP_OPT_ADDR {
                        *address = Some(a);
                    } else if (t == IPCP_OPT_DNS1 || t == IPCP_OPT_DNS2) && !contains_addr(dns, a) {
                        let ghost before = dns@;
                        dns.push(a);
                        proof {
                            if dns_list_clean(d0) {
                                assert forall|j: int, k: int| 0 <= j < k < dns@.len() implies dns@[j] != dns@[k] by {
                                    if k == dns@.len() - 1 {
                                        assert(before[j] == dns@[j]);
                                        assert(before.contains(dns@[j]));
                                    }
                                }
                            }
                        }
                    }
                }
            },
            None => {},
        }
        i = i + 1;
    }
    assert(opts.deep_view().take(i as int) =~= opts.deep_view());
}

/// Re-frame an IPv4 packet that arrived mid-negotiation and stash it, so the
/// forwarding loop's decoder later sees it as an ordinary inbound frame.
pub fn stage_early(dst: &mut Vec<u8>, payload: &[u8])
    ensures
        final(dst)@ == old(dst)@ + spec_ppp_frame(PPP_IPV4, payload@),
{
    encode_ppp_append(PPP_IPV4, payload, dst);
}

/// The bytes `HTTP/`.
pub open spec fn http_prefix() -> Seq<u8> {
    seq![72u8, 84u8, 84u8, 80u8, 47u8]
}

/// Whether `s` holds `\r\n\r\n` starting at `i`.
pub open spec fn crlfcrlf_at(s: Seq<u8>, i: int) -> bool {
    0 <= i && i + 4 <= s.len() && s[i] == 13 && s[i + 1] == 10 && s[i + 2] == 13 && s[i + 3] == 10
}

/// Whether `\r\n\r\n` first starts at `i`.
pub open spec fn first_crlfcrlf(s: Seq<u8>, i: int) -> bool {
    crlfcrlf_at(s, i) && forall|k: int| 0 <= k < i ==> !crlfcrlf_at(s, k)
}

/// Whether `s` holds `200` starting at `i`.
pub open spec fn has_200_at(s: Seq<u8>, i: int) -> bool {
    0 <= i && i + 3 <= s.len() && s[i] == 50 && s[i + 1] == 48 && s[i + 2] == 48
}

/// Whether no line feed occurs before `j`.
pub open spec fn no_lf_before(s: Seq<u8>, j: int) -> bool {
    forall|k: int| 0 <= k < j ==> #[trigger] s[k] != 10
}

/// Whether the bytes before the first line feed of `s` contain `200`.
pub open spec fn first_line_has_200(s: Seq<u8>) -> bool {
    exists|i: int| #[trigger] has_200_at(s, i) && no_lf_before(s, i + 3)
}

/// The position of the first line feed of `s` (when there is one).
pub open spec fn first_lf(s: Seq<u8>) -> int {
    choose|k: int| 0 <= k < s.len() && s[k] == 10 && no_lf_before(s, k)
}

/// The status line of a header block: the bytes before the first line feed,
/// without the carriage return that ends the line.
pub open spec fn status_line(s: Seq<u8>) -> Seq<u8> {
    let k = first_lf(s);
    if k > 0 && s[k - 1] == 13 {
        s.take(k - 1)
    } else {
        s.take(k)
    }
}

/// The outcome of looking for an HTTP status block in front of the tunnel
/// stream.
pub enum PrologueStep {
    /// Not enough bytes to decide yet; nothing consumed.
    Undecided,
    /// Decided: the framed data starts at this offset.
    Settled(int),
    /// The header block outgrew the size guard.
    TooLong,
    /// The status line is not a 200.
    Refused,
}

/// Fewer than five bytes: undecided. No `HTTP/` prefix: framed data from the
/// first byte. Otherwise wait for the end of the header block (refusing one
/// over 8 KiB) and accept it only if the status line says `200`.
pub open spec fn prologue_step(s: Seq<u8>) -> PrologueStep {
    if s.len() < 5 {
        PrologueStep::Undecided
    } else if s.take(5) != http_prefix() {
        PrologueStep::Settled(0)
    } else if exists|i: int| crlfcrlf_at(s, i) {
        let i = choose|i: int| first_crlfcrlf(s, i);
        if first_line_has_200(s) {
            PrologueStep::Settled(i + 4)
        } else {
            PrologueStep::Refused
        }
    } else if s.len() > 8192 {
        PrologueStep::TooLong
    } else {
        PrologueStep::Undecided
    }
}

/// Strip a leading `HTTP/1.1 ...\r\n\r\n` block from the tunnel stream. Some
/// gateways answer the tunnel upgrade with a status block before switching to
/// framed data. `Ok(true)` once settled (block consumed, or none present),
/// `Ok(false)` while a partial block is still arriving.
pub fn strip_http_prologue(buf: &mut bytes::BytesMut) -> (r: Result<bool, VpnError>)
    ensures
        match prologue_step(buf_contents(*old(buf))) {
            PrologueStep::Undecided => r == Ok::<bool, VpnError>(false) && buf_contents(*final(buf)) == buf_contents(*old(buf)),
            PrologueStep::Settled(k) => r == Ok::<bool, VpnError>(true) && buf_contents(*final(buf)) == buf_contents(*old(buf)).skip(k),
            PrologueStep::TooLong => r matches Err(e) && e is Protocol && e.detail()
                == "FortiGate tunnel-upgrade header block exceeded size guard"@ && buf_contents(*final(buf))
                == buf_contents(*old(buf)),
            PrologueStep::Refused => r matches Err(e) && e is Tls && e.detail()
                == "unexpected tunnel-upgrade response: "@ + utf8_lossy(status_line(buf_contents(*old(buf))))
                && buf_contents(*final(buf)) == buf_contents(*old(buf)),
        },
{
    let ghost s = buf_contents(*buf);
    let n = crate::buffer::buf_len(buf);
    if n < 5 {
        return Ok(false);
    }
    let b0 = crate::buffer::buf_byte(buf, 0);
    let b1 = crate::buffer::buf_byte(buf, 1);
    let b2 = crate::buffer::buf_byte(buf, 2);
    let b3 = crate::buffer::buf_byte(buf, 3);
    let b4 = crate::buffer::buf_byte(buf, 4);
    if !(b0 == 72 && b1 == 84 && b2 == 84 && b3 == 80 && b4 == 47) {
        proof {
            if s.take(5) == http_prefix() {
                assert(s.take(5)[0] == s[0]);
                assert(s.take(5)[1] == s[1]);
                assert(s.take(5)[2] == s[2]);
                assert(s.take(5)[3] == s[3]);
                assert(s.take(5)[4] == s[4]);
            }
        }
        assert(buf_contents(*buf).skip(0) =~= buf_contents(*buf));
        return Ok(true);
    }
    assert(s.take(5) =~= http_prefix());
    // Look for the end of the header block.
    let mut i: usize = 0;
    let mut found = false;
    while !found && i < n && n - i >= 4
        invariant
            n == s.len(),
            s == buf_contents(*buf),
            i <= n,
            forall|k: int| 0 <= k < i ==> !crlfcrlf_at(s, k),
            found ==> crlfcrlf_at(s, i as int),
        decreases n - i, if found { 0int } else { 1int },
    {
        if crate::buffer::buf_byte(buf, i) == 13 && crate::buffer::buf_byte(buf, i + 1) == 10
            && crate::buffer::buf_byte(buf, i + 2) == 13 && crate::buffer::buf_byte(buf, i + 3) == 10 {
            found = true;
        } else {
            i = i + 1;
        }
    }
    if !found {
        assert(forall|k: int| 0 <= k ==> !crlfcrlf_at(s, k));
        if n > 8192 {
            return Err(VpnError::Protocol(String::from_str("FortiGate tunnel-upgrade header block exceeded size guard")));
        }
        return Ok(false);
    }
    proof {
        let j = choose|j: int| first_crlfcrlf(s, j);
        assert(first_crlfcrlf(s, i as int));
        if j < i { assert(!crlfcrlf_at(s, j)); }
        if i < j { assert(!crlfcrlf_at(s, i as int)); }
        assert(j == i);
    }
    // Scan the first line for "200".
    let mut k: usize = 0;
    let mut done = false;
    let mut ok = false;
    while !done && k < n && n - k >= 3
        invariant
            n == s.len(),
            s == buf_contents(*buf),
            k <= n,
            no_lf_before(s, k as int),
            forall|m: int| 0 <= m < k ==> !#[trigger] has_200_at(s, m),
            ok ==> done,
            ok ==> first_line_has_200(s),
            done && !ok ==> k < n && s[k as int] == 10,
        decreases n - k, if done { 0int } else { 1int },
    {
        let c0 = crate::buffer::buf_byte(buf, k);
        if c0 == 10 {
            done = true;
        } else {
            let c1 = crate::buffer::buf_byte(buf, k + 1);
            let c2 = crate::buffer::buf_byte(buf, k + 2);
            if c0 == 50 && c1 == 48 && c2 == 48 {
                ok = true;
                done = true;
                assert(has_200_at(s, k as int) && no_lf_before(s, k + 3));
            } else {
                assert(!has_200_at(s, k as int));
                k = k + 1;
            }
        }
    }
    proof {
        if !ok && first_line_has_200(s) {
            let w = choose|w: int| #[trigger] has_200_at(s, w) && no_lf_before(s, w + 3);
            if w < k {
                assert(!has_200_at(s, w));
            } else if done {
                assert(0 <= k < w + 3);
                assert(s[k as int] != 10);
            }
        }
    }
    if !ok {
        proof {
            let f = first_lf(s);
            assert(0 <= k < s.len() && s[k as int] == 10 && no_lf_before(s, k as int));
            assert(f == k) by {
                if f < k {
                    assert(s[f] != 10);
                }
                if f > k {
                    assert(s[k as int] != 10);
                }
            }
        }
        let e = if k > 0 && crate::buffer::buf_byte(buf, k - 1) == 13 {
            k - 1
        } else {
            k
        };
        let mut line: Vec<u8> = Vec::new();
        let mut j: usize = 0;
        while j < e
            invariant
                e <= n,
                n == s.len(),
                s == buf_contents(*buf),
                j <= e,
                line@ == s.take(j as int),
            decreases e - j,
        {
            line.push(crate::buffer::buf_byte(buf, j));
            j = j + 1;
            assert(line@ =~= s.take(j as int));
        }
        let mut m = String::from_str("unexpected tunnel-upgrade response: ");
        m.append(crate::text::decode_lossy(line.as_slice()).as_str());
        return Err(VpnError::Tls(m));
    }
    let _head = crate::buffer::buf_take_front(buf, i + 4);
    Ok(true)
}

proof fn lemma_first_crlfcrlf_exists(s: Seq<u8>, i: int)
    requires
        crlfcrlf_at(s, i),
    ensures
        exists|j: int| first_crlfcrlf(s, j),
    decreases i,
{
    if exists|k: int| 0 <= k < i && crlfcrlf_at(s, k) {
        let k = choose|k: int| 0 <= k < i && crlfcrlf_at(s, k);
        lemma_first_crlfcrlf_exists(s, k);
    } else {
        assert(first_crlfcrlf(s, i));
    }
}

/// The tunnel upgrade is accepted only with a `200` status: when the stream
/// starts with `HTTP/` and holds a whole header block, the block is consumed
/// exactly when the bytes before the first line feed contain `200`;
/// otherwise the upgrade is refused (and, by `strip_http_prologue`, the
/// buffer is left as it was).
pub proof fn lemma_upgrade_needs_200(s: Seq<u8>)
    requires
        s.len() >= 5,
        s.take(5) == http_prefix(),
        exists|i: int| crlfcrlf_at(s, i),
    ensures
        (prologue_step(s) matches PrologueStep::Settled(n) && n > 0) <==> (exists|k: int|
            0 <= k && k + 3 <= s.len() && #[trigger] s[k] == 50 && s[k + 1] == 48 && s[k + 2] == 48 && (
            forall|j: int| 0 <= j < k + 3 ==> s[j] != 10)),
        (prologue_step(s) is Refused) <==> !(exists|k: int|
            0 <= k && k + 3 <= s.len() && #[trigger] s[k] == 50 && s[k + 1] == 48 && s[k + 2] == 48 && (
            forall|j: int| 0 <= j < k + 3 ==> s[j] != 10)),
{
    let i = choose|i: int| crlfcrlf_at(s, i);
    lemma_first_crlfcrlf_exists(s, i);
    if exists|k: int|
        0 <= k && k + 3 <= s.len() && #[trigger] s[k] == 50 && s[k + 1] == 48 && s[k + 2] == 48 && (forall|
            j: int,
        | 0 <= j < k + 3 ==> s[j] != 10) {
        let k = choose|k: int|
            0 <= k && k + 3 <= s.len() && #[trigger] s[k] == 50 && s[k + 1] == 48 && s[k + 2] == 48 && (forall|
                j: int,
            | 0 <= j < k + 3 ==> s[j] != 10);
        assert(has_200_at(s, k) && no_lf_before(s, k + 3));
    }
    if first_line_has_200(s) {
        let w = choose|w: int| #[trigger] has_200_at(s, w) && no_lf_before(s, w + 3);
        assert(s[w] == 50 && s[w + 1] == 48 && s[w + 2] == 48);
    }
}

} // verus!
