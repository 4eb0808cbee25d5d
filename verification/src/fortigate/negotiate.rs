//! LCP then IPCP negotiation over the hijacked tunnel stream, as a state
//! machine. The caller owns the stream and the clock: it sends the frames the
//! machine hands back, feeds it every decoded frame and every receive
//! timeout, and stops when the verdict is no longer `Continue`.
//!
//! Observed negotiation against a FortiOS 7.x gateway:
//!
//! ```text
//! -> LCP  Conf-Req id=1 [MRU=1354, Magic=<ours>]
//! <- LCP  Conf-Req id=1 [Magic=<theirs>]
//! -> LCP  Conf-Ack id=1 [Magic=<theirs>]
//! <- LCP  Conf-Ack id=1 [MRU=1354, Magic=<ours>]
//! -> IPCP Conf-Req id=1 [IP=0.0.0.0, DNS1=0.0.0.0, DNS2=0.0.0.0]
//! <- IPCP Conf-Req id=1 [IP=<peer>]
//! -> IPCP Conf-Ack id=1 [IP=<peer>]
//! <- IPCP Conf-Nak id=1 [IP=<ours>, DNS1=..., DNS2=...]
//! -> IPCP Conf-Req id=2 [IP=<ours>, DNS1=..., DNS2=...]
//! <- IPCP Conf-Ack id=2 [...]
//! ```
use vstd::prelude::*;

use crate::error::VpnError;
use crate::fortigate::framing::{be16, be16_value, push_all};
use crate::fortigate::ppp::{
    address_clean, be32, be32_bytes, build_cp, build_options, cp_error, dns_list_clean, echo_reply,
    encode_ppp, harvest_ipcp, lemma_bytes_deep_view, opt_ipv4, parse_cp, parse_options,
    spec_build_options, spec_cp, spec_echo_reply, spec_harvest, spec_opt_ipv4, spec_options,
    spec_ppp_frame, stage_early, CpPacket, PppSession, CODE_CONF_ACK, CODE_CONF_NAK,
    CODE_CONF_REJ, CODE_CONF_REQ, CODE_ECHO_REQ, CODE_TERM_ACK, CODE_TERM_REQ, DEFAULT_MRU,
    IPCP_OPT_ADDR, IPCP_OPT_DNS1, IPCP_OPT_DNS2, LCP_OPT_AUTH, LCP_OPT_MAGIC, LCP_OPT_MRU,
    PPP_CHAP, PPP_IPCP, PPP_IPV4, PPP_LCP, PPP_PAP,
};
use crate::net::Ipv4Addr;
use crate::text::{pad_zeros, spec_digits};

verus! {

/// Bound on negotiation rounds per phase, so a peer that Naks forever cannot
/// spin us.
pub const MAX_ROUNDS: u32 = 40;

/// Where the negotiation stands.
#[derive(Debug, Clone, Copy, PartialEq, Eq, Structural)]
pub enum Phase {
    Lcp,
    Ipcp,
    Up,
    Failed,
}

/// The state of a negotiation, as plain values.
pub struct NegModel {
    pub phase: Phase,
    pub magic: u32,
    pub rounds: u32,
    pub lcp_opts: Seq<(u8, Seq<u8>)>,
    pub lcp_id: u8,
    pub mru: u16,
    pub ours_acked: bool,
    pub theirs_acked: bool,
    pub ipcp_opts: Seq<(u8, Seq<u8>)>,
    pub ipcp_id: u8,
    pub ip_ours: bool,
    pub ip_theirs: bool,
    pub address: Option<Ipv4Addr>,
    pub peer: Option<Ipv4Addr>,
    pub dns: Seq<Ipv4Addr>,
    pub early: Seq<u8>,
}

impl NegModel {
    /// The state is consistent: a running negotiation has used at most
    /// `MAX_ROUNDS` rounds of its phase, no `0.0.0.0` was taken as our
    /// address, and the DNS list holds neither `0.0.0.0` nor a repeat.
    pub open spec fn wf(self) -> bool {
        &&& (self.phase is Lcp || self.phase is Ipcp) ==> self.rounds <= MAX_ROUNDS
        &&& address_clean(self.address)
        &&& dns_list_clean(self.dns)
    }

    pub open spec fn running(self) -> bool {
        self.phase is Lcp || self.phase is Ipcp
    }
}

/// How a step ended.
pub enum VerdictKind {
    Continue,
    Up,
    /// Failed because the gateway demands link authentication; the message.
    FailedAuth(Seq<char>),
    /// Failed on a protocol fault; the message.
    FailedProtocol(Seq<char>),
}

/// A step of the machine: the next state, the frames to send in order,
/// whether the retransmission timer restarts, and the verdict.
pub struct Step {
    pub model: NegModel,
    pub send: Seq<Seq<u8>>,
    pub restart: bool,
    pub verdict: VerdictKind,
}

/// What one step tells the caller.
pub enum Verdict {
    /// Keep feeding frames and timeouts.
    Continue,
    /// Both phases are done: the session, and the IPv4 frames that arrived
    /// during negotiation, re-framed for the forwarding loop's decoder.
    Up(PppSession, Vec<u8>),
    /// Negotiation failed.
    Failed(VpnError),
}

/// The frames to send, whether to restart the retransmission timer, and the
/// verdict.
pub struct NegOutput {
    pub send: Vec<Vec<u8>>,
    pub restart_timer: bool,
    pub verdict: Verdict,
}

pub open spec fn wrap_inc(id: u8) -> u8 {
    if id == 255 {
        0
    } else {
        (id + 1) as u8
    }
}

pub open spec fn initial_lcp_opts(magic: u32) -> Seq<(u8, Seq<u8>)> {
    seq![(LCP_OPT_MRU, be16(DEFAULT_MRU as int)), (LCP_OPT_MAGIC, be32(magic))]
}

pub open spec fn zero4() -> Seq<u8> {
    seq![0u8, 0u8, 0u8, 0u8]
}

pub open spec fn initial_ipcp_opts() -> Seq<(u8, Seq<u8>)> {
    seq![(IPCP_OPT_ADDR, zero4()), (IPCP_OPT_DNS1, zero4()), (IPCP_OPT_DNS2, zero4())]
}

/// A framed Configure-Request for `proto` with the given id and options.
pub open spec fn conf_req_frame(proto: u16, id: u8, opts: Seq<(u8, Seq<u8>)>) -> Seq<u8> {
    spec_ppp_frame(proto, spec_cp(CODE_CONF_REQ, id, spec_build_options(opts)))
}

/// A framed control packet.
pub open spec fn cp_frame(proto: u16, code: u8, id: u8, data: Seq<u8>) -> Seq<u8> {
    spec_ppp_frame(proto, spec_cp(code, id, data))
}

pub open spec fn spec_new(magic: u32) -> NegModel {
    NegModel {
        phase: Phase::Lcp,
        magic,
        rounds: 0,
        lcp_opts: initial_lcp_opts(magic),
        lcp_id: 1,
        mru: DEFAULT_MRU,
        ours_acked: false,
        theirs_acked: false,
        ipcp_opts: initial_ipcp_opts(),
        ipcp_id: 1,
        ip_ours: false,
        ip_theirs: false,
        address: None,
        peer: None,
        dns: Seq::empty(),
        early: Seq::empty(),
    }
}

/// Whether a control packet parses (see `parse_cp`).
pub open spec fn cp_ok(p: Seq<u8>) -> bool {
    p.len() >= 4 && 4 <= be16_value(p[2], p[3]) <= p.len()
}

/// The data of a control packet that parses.
pub open spec fn cp_data(p: Seq<u8>) -> Seq<u8> {
    p.subrange(4, be16_value(p[2], p[3]))
}

/// Whether some option has type `t`.
pub open spec fn has_type(o: Seq<(u8, Seq<u8>)>, t: u8) -> bool {
    exists|i: int| 0 <= i < o.len() && (#[trigger] o[i]).0 == t
}

/// Whether `i` is the first option of type `t`.
pub open spec fn is_first_of(o: Seq<(u8, Seq<u8>)>, t: u8, i: int) -> bool {
    &&& 0 <= i < o.len()
    &&& o[i].0 == t
    &&& forall|k: int| 0 <= k < i ==> (#[trigger] o[k]).0 != t
}

pub open spec fn first_of(o: Seq<(u8, Seq<u8>)>, t: u8) -> int {
    choose|i: int| is_first_of(o, t, i)
}

/// Give the first option of type `t` the value `v`; with `push`, append the
/// option when there is none of that type.
pub open spec fn set_first(o: Seq<(u8, Seq<u8>)>, t: u8, v: Seq<u8>, push: bool) -> Seq<(u8, Seq<u8>)> {
    if has_type(o, t) {
        o.update(first_of(o, t), (t, v))
    } else if push {
        o.push((t, v))
    } else {
        o
    }
}

/// Adopt a Configure-Nak's counter-proposals, in the order they were sent.
pub open spec fn spec_nak(o: Seq<(u8, Seq<u8>)>, naked: Seq<(u8, Seq<u8>)>, push: bool) -> Seq<
    (u8, Seq<u8>),
>
    decreases naked.len(),
{
    if naked.len() == 0 {
        o
    } else {
        set_first(spec_nak(o, naked.drop_last(), push), naked.last().0, naked.last().1, push)
    }
}

/// The options of ours that a Configure-Reject leaves standing.
pub open spec fn not_rejected_by(rej: Seq<(u8, Seq<u8>)>) -> spec_fn((u8, Seq<u8>)) -> bool {
    |o: (u8, Seq<u8>)| !has_type(rej, o.0)
}

/// LCP options other than MRU and Magic-Number, which we do not implement.
pub open spec fn unknown_lcp() -> spec_fn((u8, Seq<u8>)) -> bool {
    |o: (u8, Seq<u8>)| o.0 != LCP_OPT_MRU && o.0 != LCP_OPT_MAGIC
}

/// The MRU after the peer acknowledged `po`: the last two-byte MRU option
/// wins.
pub open spec fn spec_acked_mru(po: Seq<(u8, Seq<u8>)>, mru: u16) -> u16
    decreases po.len(),
{
    if po.len() == 0 {
        mru
    } else {
        let m = spec_acked_mru(po.drop_last(), mru);
        if po.last().0 == LCP_OPT_MRU && po.last().1.len() == 2 {
            be16_value(po.last().1[0], po.last().1[1]) as u16
        } else {
            m
        }
    }
}

/// The gateway's address after its IPCP Configure-Request: each address
/// option replaces it, even one that is not four bytes long.
pub open spec fn spec_peer(po: Seq<(u8, Seq<u8>)>, peer: Option<Ipv4Addr>) -> Option<Ipv4Addr>
    decreases po.len(),
{
    if po.len() == 0 {
        peer
    } else {
        let p = spec_peer(po.drop_last(), peer);
        if po.last().0 == IPCP_OPT_ADDR {
            spec_opt_ipv4(po.last().1)
        } else {
            p
        }
    }
}

/// The refusal of PAP or CHAP on the link.
pub open spec fn link_auth_error() -> Seq<char> {
    "gateway requested PPP link authentication (PAP/CHAP), which is not supported \u{2014} FortiGate normally authenticates over HTTPS before the tunnel"@
}

/// Lower-case hex of each byte, two digits apiece.
pub open spec fn hex_of(v: Seq<u8>) -> Seq<char>
    decreases v.len(),
{
    if v.len() == 0 {
        Seq::empty()
    } else {
        hex_of(v.drop_last()) + pad_zeros(spec_digits(v.last() as nat, 16, false), 2)
    }
}

/// The refusal of an LCP Authentication-Protocol option with value `v`.
pub open spec fn auth_option_error(v: Seq<u8>) -> Seq<char> {
    "gateway demands PPP link authentication (LCP auth option 0x"@ + hex_of(v) + "), unsupported"@
}

pub open spec fn quiet(m: NegModel) -> Step {
    Step { model: m, send: Seq::empty(), restart: false, verdict: VerdictKind::Continue }
}

pub open spec fn fail(m: NegModel, send: Seq<Seq<u8>>, kind: VerdictKind) -> Step {
    Step { model: NegModel { phase: Phase::Failed, ..m }, send, restart: false, verdict: kind }
}

/// One frame received while LCP is being negotiated.
pub open spec fn lcp_frame(m: NegModel, proto: u16, p: Seq<u8>) -> Step {
    if proto == PPP_IPV4 {
        quiet(NegModel { early: m.early + spec_ppp_frame(PPP_IPV4, p), ..m })
    } else if proto == PPP_PAP || proto == PPP_CHAP {
        fail(m, Seq::empty(), VerdictKind::FailedAuth(link_auth_error()))
    } else if proto != PPP_LCP {
        quiet(m)
    } else if !cp_ok(p) {
        fail(m, Seq::empty(), VerdictKind::FailedProtocol(cp_error(p)))
    } else {
        let code = p[0];
        let id = p[1];
        let data = cp_data(p);
        let po = spec_options(data);
        if code == CODE_CONF_REQ {
            if has_type(po, LCP_OPT_AUTH) {
                fail(
                    m,
                    Seq::empty(),
                    VerdictKind::FailedAuth(auth_option_error(po[first_of(po, LCP_OPT_AUTH)].1)),
                )
            } else if po.filter(unknown_lcp()).len() == 0 {
                Step {
                    model: NegModel { theirs_acked: true, ..m },
                    send: seq![cp_frame(PPP_LCP, CODE_CONF_ACK, id, data)],
                    restart: false,
                    verdict: VerdictKind::Continue,
                }
            } else {
                Step {
                    model: m,
                    send: seq![
                        cp_frame(PPP_LCP, CODE_CONF_REJ, id, spec_build_options(po.filter(unknown_lcp())))
                    ],
                    restart: false,
                    verdict: VerdictKind::Continue,
                }
            }
        } else if code == CODE_CONF_ACK && id == m.lcp_id {
            quiet(NegModel { mru: spec_acked_mru(po, m.mru), ours_acked: true, ..m })
        } else if code == CODE_CONF_NAK || code == CODE_CONF_REJ {
            let opts = if code == CODE_CONF_NAK {
                spec_nak(m.lcp_opts, po, false)
            } else {
                m.lcp_opts.filter(not_rejected_by(po))
            };
            let nid = wrap_inc(m.lcp_id);
            Step {
                model: NegModel { lcp_opts: opts, lcp_id: nid, ..m },
                send: seq![conf_req_frame(PPP_LCP, nid, opts)],
                restart: true,
                verdict: VerdictKind::Continue,
            }
        } else if code == CODE_ECHO_REQ {
            Step {
                model: m,
                send: seq![spec_echo_reply(m.magic, id, data)],
                restart: false,
                verdict: VerdictKind::Continue,
            }
        } else if code == CODE_TERM_REQ {
            fail(
                m,
                seq![cp_frame(PPP_LCP, CODE_TERM_ACK, id, Seq::empty())],
                VerdictKind::FailedProtocol("gateway terminated the PPP link during LCP"@),
            )
        } else {
            quiet(m)
        }
    }
}

/// One frame received while IPCP is being negotiated.
pub open spec fn ipcp_frame(m: NegModel, proto: u16, p: Seq<u8>) -> Step {
    if proto == PPP_IPV4 {
        quiet(NegModel { early: m.early + spec_ppp_frame(PPP_IPV4, p), ..m })
    } else if proto != PPP_LCP && proto != PPP_IPCP {
        quiet(m)
    } else if !cp_ok(p) {
        fail(m, Seq::empty(), VerdictKind::FailedProtocol(cp_error(p)))
    } else {
        let code = p[0];
        let id = p[1];
        let data = cp_data(p);
        let po = spec_options(data);
        if proto == PPP_LCP {
            if code == CODE_ECHO_REQ {
                Step {
                    model: m,
                    send: seq![spec_echo_reply(m.magic, id, data)],
                    restart: false,
                    verdict: VerdictKind::Continue,
                }
            } else if code == CODE_CONF_REQ {
                Step {
                    model: m,
                    send: seq![cp_frame(PPP_LCP, CODE_CONF_ACK, id, data)],
                    restart: false,
                    verdict: VerdictKind::Continue,
                }
            } else if code == CODE_TERM_REQ {
                fail(
                    m,
                    seq![cp_frame(PPP_LCP, CODE_TERM_ACK, id, Seq::empty())],
                    VerdictKind::FailedProtocol("gateway terminated the PPP link during IPCP"@),
                )
            } else {
                quiet(m)
            }
        } else if code == CODE_CONF_REQ {
            Step {
                model: NegModel { peer: spec_peer(po, m.peer), ip_theirs: true, ..m },
                send: seq![cp_frame(PPP_IPCP, CODE_CONF_ACK, id, data)],
                restart: false,
                verdict: VerdictKind::Continue,
            }
        } else if code == CODE_CONF_ACK && id == m.ipcp_id {
            let h = spec_harvest(po, (m.address, m.dns));
            quiet(NegModel { address: h.0, dns: h.1, ip_ours: true, ..m })
        } else if code == CODE_CONF_NAK {
            let h = spec_harvest(po, (m.address, m.dns));
            let opts = spec_nak(m.ipcp_opts, po, true);
            let nid = wrap_inc(m.ipcp_id);
            Step {
                model: NegModel { address: h.0, dns: h.1, ipcp_opts: opts, ipcp_id: nid, ..m },
                send: seq![conf_req_frame(PPP_IPCP, nid, opts)],
                restart: true,
                verdict: VerdictKind::Continue,
            }
        } else if code == CODE_CONF_REJ {
            let opts = m.ipcp_opts.filter(not_rejected_by(po));
            let nid = wrap_inc(m.ipcp_id);
            Step {
                model: NegModel { ipcp_opts: opts, ipcp_id: nid, ..m },
                send: seq![conf_req_frame(PPP_IPCP, nid, opts)],
                restart: true,
                verdict: VerdictKind::Continue,
            }
        } else {
            quiet(m)
        }
    }
}

/// What follows a step: LCP that both sides acknowledged hands over to IPCP
/// (our IPCP Configure-Request goes out and the round count restarts); IPCP
/// that both sides acknowledged brings the link up, provided an address was
/// assigned.
pub open spec fn settle(s: Step) -> Step {
    let m = s.model;
    if m.phase is Lcp && m.ours_acked && m.theirs_acked {
        Step {
            model: NegModel { phase: Phase::Ipcp, rounds: 0, ..m },
            send: s.send.push(conf_req_frame(PPP_IPCP, m.ipcp_id, m.ipcp_opts)),
            restart: true,
            verdict: s.verdict,
        }
    } else if m.phase is Ipcp && m.ip_ours && m.ip_theirs {
        if m.address is Some {
            Step { model: NegModel { phase: Phase::Up, ..m }, verdict: VerdictKind::Up, ..s }
        } else {
            Step {
                model: NegModel { phase: Phase::Failed, ..m },
                verdict: VerdictKind::FailedProtocol("IPCP completed without assigning an IPv4 address"@),
                ..s
            }
        }
    } else {
        s
    }
}

/// The machine's response to a received frame.
pub open spec fn spec_on_frame(m: NegModel, proto: u16, p: Seq<u8>) -> Step {
    if m.phase is Lcp {
        settle(lcp_frame(m, proto, p))
    } else {
        settle(ipcp_frame(m, proto, p))
    }
}

/// The machine's response to a receive timeout: our outstanding
/// Configure-Request is sent again when the restart interval has passed and
/// the peer has not acknowledged it yet.
pub open spec fn spec_on_timeout(m: NegModel, restart_due: bool) -> Step {
    if m.phase is Lcp && restart_due && !m.ours_acked {
        Step { model: m, send: seq![conf_req_frame(PPP_LCP, m.lcp_id, m.lcp_opts)], restart: true, verdict: VerdictKind::Continue }
    } else if m.phase is Ipcp && restart_due && !m.ip_ours {
        Step { model: m, send: seq![conf_req_frame(PPP_IPCP, m.ipcp_id, m.ipcp_opts)], restart: true, verdict: VerdictKind::Continue }
    } else {
        quiet(m)
    }
}

/// A copy of a byte slice.
pub fn copy_bytes(v: &[u8]) -> (r: Vec<u8>)
    ensures
        r@ == v@,
{
    let mut out: Vec<u8> = Vec::new();
    push_all(&mut out, v);
    out
}

/// A copy of an option list.
pub fn copy_options(o: &Vec<(u8, Vec<u8>)>) -> (r: Vec<(u8, Vec<u8>)>)
    ensures
        r.deep_view() == o.deep_view(),
{
    let mut out: Vec<(u8, Vec<u8>)> = Vec::new();
    let mut i: usize = 0;
    while i < o.len()
        invariant
            i <= o@.len(),
            out.deep_view() == o.deep_view().take(i as int),
        decreases o.len() - i,
    {
        let v = copy_bytes(o[i].1.as_slice());
        proof {
            lemma_bytes_deep_view(v);
            lemma_bytes_deep_view(o@[i as int].1);
        }
        let ghost before = out.deep_view();
        out.push((o[i].0, v));
        assert(o.deep_view()[i as int] == (o@[i as int].0, o@[i as int].1.deep_view()));
        assert(out.deep_view() =~= before.push(o.deep_view()[i as int]));
        assert(out.deep_view() =~= o.deep_view().take(i + 1));
        i = i + 1;
    }
    assert(o.deep_view().take(i as int) =~= o.deep_view());
    out
}

/// The position of the first option of type `t`, if any.
pub fn find_type(o: &Vec<(u8, Vec<u8>)>, t: u8) -> (r: Option<usize>)
    ensures
        match r {
            Some(i) => is_first_of(o.deep_view(), t, i as int),
            None => !has_type(o.deep_view(), t),
        },
{
    let ghost d = o.deep_view();
    let mut i: usize = 0;
    while i < o.len()
        invariant
            i <= o@.len(),
            d == o.deep_view(),
            forall|k: int| 0 <= k < i ==> (#[trigger] d[k]).0 != t,
        decreases o.len() - i,
    {
        if o[i].0 == t {
            assert(d[i as int].0 == t);
            return Some(i);
        }
        assert(d[i as int].0 != t);
        i = i + 1;
    }
    proof {
        if has_type(d, t) {
            let w = choose|w: int| 0 <= w < d.len() && (#[trigger] d[w]).0 == t;
            assert(d[w].0 != t);
        }
    }
    None
}

proof fn lemma_first_of(o: Seq<(u8, Seq<u8>)>, t: u8, i: int)
    requires
        is_first_of(o, t, i),
    ensures
        has_type(o, t),
        first_of(o, t) == i,
{
    assert(o[i].0 == t);
    let j = first_of(o, t);
    assert(is_first_of(o, t, j));
    if j < i {
        assert(o[j].0 != t);
    }
    if i < j {
        assert(o[i].0 != t);
    }
}

/// Give the first option of type `t` the value `v` (appending it with
/// `push` when there is none).
pub fn set_first_option(o: &mut Vec<(u8, Vec<u8>)>, t: u8, v: &[u8], push: bool)
    ensures
        final(o).deep_view() == set_first(old(o).deep_view(), t, v@, push),
{
    let val = copy_bytes(v);
    proof {
        lemma_bytes_deep_view(val);
    }
    match find_type(o, t) {
        Some(i) => {
            proof {
                lemma_first_of(o.deep_view(), t, i as int);
            }
            let ghost before = o.deep_view();
            o.set(i, (t, val));
            assert(o.deep_view() =~= before.update(i as int, (t, v@)));
        },
        None => {
            if push {
                let ghost before = o.deep_view();
                o.push((t, val));
                assert(o.deep_view() =~= before.push((t, v@)));
            }
        },
    }
}

/// Adopt a Configure-Nak's counter-proposals.
pub fn apply_nak(o: &mut Vec<(u8, Vec<u8>)>, naked: &Vec<(u8, Vec<u8>)>, push: bool)
    ensures
        final(o).deep_view() == spec_nak(old(o).deep_view(), naked.deep_view(), push),
{
    let ghost o0 = o.deep_view();
    let ghost nd = naked.deep_view();
    let mut i: usize = 0;
    while i < naked.len()
        invariant
            i <= naked@.len(),
            nd == naked.deep_view(),
            o.deep_view() == spec_nak(o0, nd.take(i as int), push),
        decreases naked.len() - i,
    {
        proof {
            assert(nd.take(i + 1).drop_last() =~= nd.take(i as int));
            lemma_bytes_deep_view(naked@[i as int].1);
        }
        set_first_option(o, naked[i].0, naked[i].1.as_slice(), push);
        i = i + 1;
    }
    assert(nd.take(i as int) =~= nd);
}

/// Drop the options of ours whose type a Configure-Reject names.
pub fn drop_rejected(o: &mut Vec<(u8, Vec<u8>)>, rej: &Vec<(u8, Vec<u8>)>)
    ensures
        final(o).deep_view() == old(o).deep_view().filter(not_rejected_by(rej.deep_view())),
{
    let ghost d = o.deep_view();
    let ghost pred = not_rejected_by(rej.deep_view());
    let mut out: Vec<(u8, Vec<u8>)> = Vec::new();
    let mut i: usize = 0;
    assert(d.take(0).filter(pred) =~= Seq::<(u8, Seq<u8>)>::empty()) by {
        reveal_with_fuel(Seq::filter, 1);
    }
    while i < o.len()
        invariant
            i <= o@.len(),
            d == o.deep_view(),
            pred == not_rejected_by(rej.deep_view()),
            out.deep_view() == d.take(i as int).filter(pred),
        decreases o.len() - i,
    {
        proof {
            reveal_with_fuel(Seq::filter, 1);
            assert(d.take(i + 1).drop_last() =~= d.take(i as int));
            assert(d.take(i + 1).last() == d[i as int]);
            lemma_bytes_deep_view(o@[i as int].1);
        }
        let absent = find_type(rej, o[i].0).is_none();
        assert(d[i as int].0 == o@[i as int].0);
        assert(pred(d[i as int]) == !has_type(rej.deep_view(), d[i as int].0));
        if absent {
            let v = copy_bytes(o[i].1.as_slice());
            proof {
                lemma_bytes_deep_view(v);
            }
            let ghost before = out.deep_view();
            out.push((o[i].0, v));
            assert(out.deep_view() =~= before.push(d[i as int]));
        }
        i = i + 1;
    }
    assert(d.take(i as int) =~= d);
    *o = out;
}

/// The LCP options we do not implement.
pub fn unknown_lcp_options(po: &Vec<(u8, Vec<u8>)>) -> (r: Vec<(u8, Vec<u8>)>)
    ensures
        r.deep_view() == po.deep_view().filter(unknown_lcp()),
{
    let ghost d = po.deep_view();
    let mut out: Vec<(u8, Vec<u8>)> = Vec::new();
    let mut i: usize = 0;
    assert(d.take(0).filter(unknown_lcp()) =~= Seq::<(u8, Seq<u8>)>::empty()) by {
        reveal_with_fuel(Seq::filter, 1);
    }
    while i < po.len()
        invariant
            i <= po@.len(),
            d == po.deep_view(),
            out.deep_view() == d.take(i as int).filter(unknown_lcp()),
        decreases po.len() - i,
    {
        proof {
            reveal_with_fuel(Seq::filter, 1);
            assert(d.take(i + 1).drop_last() =~= d.take(i as int));
            assert(d.take(i + 1).last() == d[i as int]);
            lemma_bytes_deep_view(po@[i as int].1);
        }
        if po[i].0 != LCP_OPT_MRU && po[i].0 != LCP_OPT_MAGIC {
            let v = copy_bytes(po[i].1.as_slice());
            proof {
                lemma_bytes_deep_view(v);
            }
            let ghost before = out.deep_view();
            out.push((po[i].0, v));
            assert(out.deep_view() =~= before.push(d[i as int]));
        }
        i = i + 1;
    }
    assert(d.take(i as int) =~= d);
    out
}

/// The MRU the peer acknowledged.
pub fn acked_mru(po: &Vec<(u8, Vec<u8>)>, mru: u16) -> (r: u16)
    ensures
        r == spec_acked_mru(po.deep_view(), mru),
{
    let ghost d = po.deep_view();
    let mut m = mru;
    let mut i: usize = 0;
    while i < po.len()
        invariant
            i <= po@.len(),
            d == po.deep_view(),
            m == spec_acked_mru(d.take(i as int), mru),
        decreases po.len() - i,
    {
        proof {
            assert(d.take(i + 1).drop_last() =~= d.take(i as int));
            assert(d.take(i + 1).last() == d[i as int]);
            lemma_bytes_deep_view(po@[i as int].1);
        }
        if po[i].0 == LCP_OPT_MRU && po[i].1.len() == 2 {
            m = ((po[i].1[0] as u32) * 256 + po[i].1[1] as u32) as u16;
        }
        i = i + 1;
    }
    assert(d.take(i as int) =~= d);
    m
}

/// The gateway's address named by its Configure-Request.
pub fn requested_peer(po: &Vec<(u8, Vec<u8>)>, peer: Option<Ipv4Addr>) -> (r: Option<Ipv4Addr>)
    ensures
        r == spec_peer(po.deep_view(), peer),
{
    let ghost d = po.deep_view();
    let mut p = peer;
    let mut i: usize = 0;
    while i < po.len()
        invariant
            i <= po@.len(),
            d == po.deep_view(),
            p == spec_peer(d.take(i as int), peer),
        decreases po.len() - i,
    {
        proof {
            assert(d.take(i + 1).drop_last() =~= d.take(i as int));
            assert(d.take(i + 1).last() == d[i as int]);
            lemma_bytes_deep_view(po@[i as int].1);
        }
        if po[i].0 == IPCP_OPT_ADDR {
            p = opt_ipv4(po[i].1.as_slice());
        }
        i = i + 1;
    }
    assert(d.take(i as int) =~= d);
    p
}

/// Whether an error has the kind a step names (none while continuing).
pub open spec fn err_matches(e: Option<VpnError>, k: VerdictKind) -> bool {
    match k {
        VerdictKind::Continue => e is None,
        VerdictKind::FailedAuth(m) => e matches Some(x) && x is AuthFailed && x.detail() == m,
        VerdictKind::FailedProtocol(m) => e matches Some(x) && x is Protocol && x.detail() == m,
        VerdictKind::Up => false,
    }
}

/// Whether an output carries what a step names, given the state after it.
pub open spec fn output_matches(o: NegOutput, s: Step) -> bool {
    &&& o.send.deep_view() == s.send
    &&& o.restart_timer == s.restart
    &&& match s.verdict {
        VerdictKind::Continue => o.verdict is Continue,
        VerdictKind::Up => o.verdict matches Verdict::Up(sess, early) && s.model.address == Some(
            sess.address,
        ) && sess.peer == s.model.peer && sess.dns@ == s.model.dns && sess.mtu == s.model.mru
            && sess.magic == s.model.magic && early@ == s.model.early,
        VerdictKind::FailedAuth(m) => o.verdict matches Verdict::Failed(e) && e is AuthFailed && e.detail()
            == m,
        VerdictKind::FailedProtocol(m) => o.verdict matches Verdict::Failed(e) && e is Protocol
            && e.detail() == m,
    }
}

/// A running LCP/IPCP negotiation.
pub struct Negotiator {
    phase: Phase,
    magic: u32,
    rounds: u32,
    lcp_opts: Vec<(u8, Vec<u8>)>,
    lcp_id: u8,
    mru: u16,
    ours_acked: bool,
    theirs_acked: bool,
    ipcp_opts: Vec<(u8, Vec<u8>)>,
    ipcp_id: u8,
    ip_ours: bool,
    ip_theirs: bool,
    address: Option<Ipv4Addr>,
    peer: Option<Ipv4Addr>,
    dns: Vec<Ipv4Addr>,
    early: Vec<u8>,
}

impl View for Negotiator {
    type V = NegModel;

    closed spec fn view(&self) -> NegModel {
        NegModel {
            phase: self.phase,
            magic: self.magic,
            rounds: self.rounds,
            lcp_opts: self.lcp_opts.deep_view(),
            lcp_id: self.lcp_id,
            mru: self.mru,
            ours_acked: self.ours_acked,
            theirs_acked: self.theirs_acked,
            ipcp_opts: self.ipcp_opts.deep_view(),
            ipcp_id: self.ipcp_id,
            ip_ours: self.ip_ours,
            ip_theirs: self.ip_theirs,
            address: self.address,
            peer: self.peer,
            dns: self.dns@,
            early: self.early@,
        }
    }
}

fn conf_req(proto: u16, id: u8, opts: &Vec<(u8, Vec<u8>)>) -> (r: Vec<u8>)
    ensures
        r@ == conf_req_frame(proto, id, opts.deep_view()),
{
    let o = build_options(opts.as_slice());
    let cp = build_cp(CODE_CONF_REQ, id, o.as_slice());
    encode_ppp(proto, cp.as_slice())
}

fn cp_out(proto: u16, code: u8, id: u8, data: &[u8]) -> (r: Vec<u8>)
    ensures
        r@ == cp_frame(proto, code, id, data@),
{
    let cp = build_cp(code, id, data);
    encode_ppp(proto, cp.as_slice())
}

fn inc(id: u8) -> (r: u8)
    ensures
        r == wrap_inc(id),
{
    if id == 255 {
        0
    } else {
        id + 1
    }
}

fn one(f: Vec<u8>) -> (r: Vec<Vec<u8>>)
    ensures
        r.deep_view() == seq![f@],
{
    let mut v: Vec<Vec<u8>> = Vec::new();
    v.push(f);
    proof {
        lemma_bytes_deep_view(v@[0]);
    }
    assert(v.deep_view() =~= seq![f@]);
    v
}

fn none_to_send() -> (r: Vec<Vec<u8>>)
    ensures
        r.deep_view() == Seq::<Seq<u8>>::empty(),
{
    let v: Vec<Vec<u8>> = Vec::new();
    assert(v.deep_view() =~= Seq::<Seq<u8>>::empty());
    v
}

fn copy_addrs(d: &Vec<Ipv4Addr>) -> (r: Vec<Ipv4Addr>)
    ensures
        r@ == d@,
{
    let mut out: Vec<Ipv4Addr> = Vec::new();
    let mut i: usize = 0;
    while i < d.len()
        invariant
            i <= d@.len(),
            out@ == d@.take(i as int),
        decreases d.len() - i,
    {
        out.push(d[i]);
        i = i + 1;
        assert(out@ =~= d@.take(i as int));
    }
    assert(out@ =~= d@);
    out
}

fn msg(s: &str) -> (r: String)
    ensures
        r@ == s@,
{
    String::from_str(s)
}

/// The lower-case hex of each byte.
fn hex_bytes(v: &[u8]) -> (r: String)
    ensures
        r@ == hex_of(v@),
{
    let mut out = String::new();
    let mut i: usize = 0;
    while i < v.len()
        invariant
            i <= v@.len(),
            out@ == hex_of(v@.take(i as int)),
        decreases v.len() - i,
    {
        assert(v@.take(i + 1).drop_last() =~= v@.take(i as int));
        out.append(crate::text::fmt_hex_lower(v[i] as u64, 2).as_str());
        i = i + 1;
    }
    assert(v@.take(i as int) =~= v@);
    out
}

/// The refusal of the peer's Authentication-Protocol option, the first one
/// in `po`, at `k`.
fn auth_refusal(po: &Vec<(u8, Vec<u8>)>, k: usize) -> (e: VpnError)
    requires
        is_first_of(po.deep_view(), LCP_OPT_AUTH, k as int),
    ensures
        e is AuthFailed,
        has_type(po.deep_view(), LCP_OPT_AUTH),
        e.detail() == auth_option_error(po.deep_view()[first_of(po.deep_view(), LCP_OPT_AUTH)].1),
{
    proof {
        lemma_first_of(po.deep_view(), LCP_OPT_AUTH, k as int);
        lemma_bytes_deep_view(po@[k as int].1);
    }
    assert(po.deep_view()[k as int].1 == po@[k as int].1@);
    let mut m = msg("gateway demands PPP link authentication (LCP auth option 0x");
    m.append(hex_bytes(po[k].1.as_slice()).as_str());
    m.append("), unsupported");
    VpnError::AuthFailed(m)
}

impl Negotiator {
    /// A fresh negotiation with our magic number, and the LCP
    /// Configure-Request that opens it: `[MRU=1354, Magic=<ours>]`, id 1.
    pub fn new(magic: u32) -> (r: (Negotiator, Vec<u8>))
        ensures
            r.0@ == spec_new(magic),
            r.1@ == conf_req_frame(PPP_LCP, 1, initial_lcp_opts(magic)),
            r.0@.wf(),
    {
        let mut lcp_opts: Vec<(u8, Vec<u8>)> = Vec::new();
        let mut mru: Vec<u8> = Vec::new();
        mru.push((DEFAULT_MRU / 256) as u8);
        mru.push((DEFAULT_MRU % 256) as u8);
        let m = be32_bytes(magic);
        proof {
            lemma_bytes_deep_view(mru);
            lemma_bytes_deep_view(m);
        }
        assert(mru@ =~= be16(DEFAULT_MRU as int));
        lcp_opts.push((LCP_OPT_MRU, mru));
        lcp_opts.push((LCP_OPT_MAGIC, m));
        assert(lcp_opts.deep_view() =~= initial_lcp_opts(magic));
        let mut ipcp_opts: Vec<(u8, Vec<u8>)> = Vec::new();
        let z1 = copy_bytes(&[0u8, 0u8, 0u8, 0u8]);
        let z2 = copy_bytes(&[0u8, 0u8, 0u8, 0u8]);
        let z3 = copy_bytes(&[0u8, 0u8, 0u8, 0u8]);
        proof {
            lemma_bytes_deep_view(z1);
            lemma_bytes_deep_view(z2);
            lemma_bytes_deep_view(z3);
        }
        assert(z1@ =~= zero4());
        ipcp_opts.push((IPCP_OPT_ADDR, z1));
        ipcp_opts.push((IPCP_OPT_DNS1, z2));
        ipcp_opts.push((IPCP_OPT_DNS2, z3));
        assert(ipcp_opts.deep_view() =~= initial_ipcp_opts());
        let first = conf_req(PPP_LCP, 1, &lcp_opts);
        let n = Negotiator {
            phase: Phase::Lcp,
            magic,
            rounds: 0,
            lcp_opts,
            lcp_id: 1,
            mru: DEFAULT_MRU,
            ours_acked: false,
            theirs_acked: false,
            ipcp_opts,
            ipcp_id: 1,
            ip_ours: false,
            ip_theirs: false,
            address: None,
            peer: None,
            dns: Vec::new(),
            early: Vec::new(),
        };
        assert(n@.dns =~= Seq::<Ipv4Addr>::empty());
        assert(n@.early =~= Seq::<u8>::empty());
        assert(n@ == spec_new(magic));
        (n, first)
    }

    /// Where the negotiation stands.
    pub fn phase(&self) -> (r: Phase)
        ensures
            r == self@.phase,
    {
        self.phase
    }

    /// Whether LCP or IPCP is still being negotiated.
    pub fn is_running(&self) -> (r: bool)
        ensures
            r == self@.running(),
    {
        self.phase == Phase::Lcp || self.phase == Phase::Ipcp
    }

    /// Count one more round of the current phase. More than `MAX_ROUNDS`
    /// rounds, or a passed overall deadline, fails the negotiation.
    pub fn begin_round(&mut self, deadline_passed: bool) -> (r: Result<(), VpnError>)
        requires
            old(self)@.running(),
            old(self)@.wf(),
        ensures
            final(self)@.wf(),
            ({
                let m = old(self)@;
                let n = (m.rounds + 1) as u32;
                if n > MAX_ROUNDS || deadline_passed {
                    r matches Err(e) && e is Protocol && e.detail() == (if m.phase is Lcp {
                        "LCP negotiation did not converge"@
                    } else {
                        "IPCP negotiation did not converge"@
                    }) && final(self)@ == NegModel {
                        phase: Phase::Failed,
                        rounds: n,
                        ..m
                    }
                } else {
                    r is Ok && final(self)@ == NegModel { rounds: n, ..m }
                }
            }),
    {
        self.rounds = self.rounds + 1;
        if self.rounds > MAX_ROUNDS || deadline_passed {
            let text = if self.phase == Phase::Lcp {
                msg("LCP negotiation did not converge")
            } else {
                msg("IPCP negotiation did not converge")
            };
            self.phase = Phase::Failed;
            return Err(VpnError::Protocol(text));
        }
        Ok(())
    }

    /// A receive timeout: resend our outstanding Configure-Request if the
    /// restart interval has passed and it is still unacknowledged.
    pub fn on_timeout(&mut self, restart_due: bool) -> (r: NegOutput)
        requires
            old(self)@.running(),
            old(self)@.wf(),
        ensures
            final(self)@ == spec_on_timeout(old(self)@, restart_due).model,
            output_matches(r, spec_on_timeout(old(self)@, restart_due)),
            final(self)@.wf(),
    {
        if self.phase == Phase::Lcp && restart_due && !self.ours_acked {
            let f = conf_req(PPP_LCP, self.lcp_id, &self.lcp_opts);
            NegOutput { send: one(f), restart_timer: true, verdict: Verdict::Continue }
        } else if self.phase == Phase::Ipcp && restart_due && !self.ip_ours {
            let f = conf_req(PPP_IPCP, self.ipcp_id, &self.ipcp_opts);
            NegOutput { send: one(f), restart_timer: true, verdict: Verdict::Continue }
        } else {
            NegOutput { send: none_to_send(), restart_timer: false, verdict: Verdict::Continue }
        }
    }

    fn lcp_frame(&mut self, proto: u16, p: &[u8]) -> (r: (Vec<Vec<u8>>, bool, Option<VpnError>))
        requires
            old(self)@.phase is Lcp,
            old(self)@.wf(),
        ensures
            final(self)@ == lcp_frame(old(self)@, proto, p@).model,
            r.0.deep_view() == lcp_frame(old(self)@, proto, p@).send,
            r.1 == lcp_frame(old(self)@, proto, p@).restart,
            err_matches(r.2, lcp_frame(old(self)@, proto, p@).verdict),
            final(self)@.wf(),
    {
        if proto == PPP_IPV4 {
            stage_early(&mut self.early, p);
            return (none_to_send(), false, None);
        }
        if proto == PPP_PAP || proto == PPP_CHAP {
            self.phase = Phase::Failed;
            return (none_to_send(), false, Some(VpnError::AuthFailed(msg(
                "gateway requested PPP link authentication (PAP/CHAP), which is not supported \u{2014} FortiGate normally authenticates over HTTPS before the tunnel",
            ))));
        }
        if proto != PPP_LCP {
            return (none_to_send(), false, None);
        }
        let pkt = match parse_cp(p) {
            Ok(pkt) => pkt,
            Err(e) => {
                self.phase = Phase::Failed;
                return (none_to_send(), false, Some(e));
            },
        };
        let po = parse_options(pkt.data.as_slice());
        if pkt.code == CODE_CONF_REQ {
            if let Some(k) = find_type(&po, LCP_OPT_AUTH) {
                let e = auth_refusal(&po, k);
                self.phase = Phase::Failed;
                return (none_to_send(), false, Some(e));
            }
            let unknown = unknown_lcp_options(&po);
            if unknown.len() == 0 {
                self.theirs_acked = true;
                let f = cp_out(PPP_LCP, CODE_CONF_ACK, pkt.id, pkt.data.as_slice());
                return (one(f), false, None);
            } else {
                let o = build_options(unknown.as_slice());
                let f = cp_out(PPP_LCP, CODE_CONF_REJ, pkt.id, o.as_slice());
                return (one(f), false, None);
            }
        } else if pkt.code == CODE_CONF_ACK && pkt.id == self.lcp_id {
            self.mru = acked_mru(&po, self.mru);
            self.ours_acked = true;
            return (none_to_send(), false, None);
        } else if pkt.code == CODE_CONF_NAK || pkt.code == CODE_CONF_REJ {
            if pkt.code == CODE_CONF_NAK {
                apply_nak(&mut self.lcp_opts, &po, false);
            } else {
                drop_rejected(&mut self.lcp_opts, &po);
            }
            self.lcp_id = inc(self.lcp_id);
            let f = conf_req(PPP_LCP, self.lcp_id, &self.lcp_opts);
            return (one(f), true, None);
        } else if pkt.code == CODE_ECHO_REQ {
            let f = echo_reply(self.magic, &pkt);
            return (one(f), false, None);
        } else if pkt.code == CODE_TERM_REQ {
            let f = cp_out(PPP_LCP, CODE_TERM_ACK, pkt.id, &[]);
            self.phase = Phase::Failed;
            return (one(f), false, Some(VpnError::Protocol(msg("gateway terminated the PPP link during LCP"))));
        }
        (none_to_send(), false, None)
    }

    fn ipcp_frame(&mut self, proto: u16, p: &[u8]) -> (r: (Vec<Vec<u8>>, bool, Option<VpnError>))
        requires
            old(self)@.phase is Ipcp,
            old(self)@.wf(),
        ensures
            final(self)@ == ipcp_frame(old(self)@, proto, p@).model,
            r.0.deep_view() == ipcp_frame(old(self)@, proto, p@).send,
            r.1 == ipcp_frame(old(self)@, proto, p@).restart,
            err_matches(r.2, ipcp_frame(old(self)@, proto, p@).verdict),
            final(self)@.wf(),
    {
        if proto == PPP_IPV4 {
            stage_early(&mut self.early, p);
            return (none_to_send(), false, None);
        }
        if proto != PPP_LCP && proto != PPP_IPCP {
            return (none_to_send(), false, None);
        }
        let pkt = match parse_cp(p) {
            Ok(pkt) => pkt,
            Err(e) => {
                self.phase = Phase::Failed;
                return (none_to_send(), false, Some(e));
            },
        };
        let po = parse_options(pkt.data.as_slice());
        if proto == PPP_LCP {
            if pkt.code == CODE_ECHO_REQ {
                let f = echo_reply(self.magic, &pkt);
                return (one(f), false, None);
            } else if pkt.code == CODE_CONF_REQ {
                let f = cp_out(PPP_LCP, CODE_CONF_ACK, pkt.id, pkt.data.as_slice());
                return (one(f), false, None);
            } else if pkt.code == CODE_TERM_REQ {
                let f = cp_out(PPP_LCP, CODE_TERM_ACK, pkt.id, &[]);
                self.phase = Phase::Failed;
                return (one(f), false, Some(VpnError::Protocol(msg("gateway terminated the PPP link during IPCP"))));
            }
            return (none_to_send(), false, None);
        }
        if pkt.code == CODE_CONF_REQ {
            self.peer = requested_peer(&po, self.peer);
            self.ip_theirs = true;
            let f = cp_out(PPP_IPCP, CODE_CONF_ACK, pkt.id, pkt.data.as_slice());
            (one(f), false, None)
        } else if pkt.code == CODE_CONF_ACK && pkt.id == self.ipcp_id {
            harvest_ipcp(po.as_slice(), &mut self.address, &mut self.dns);
            self.ip_ours = true;
            (none_to_send(), false, None)
        } else if pkt.code == CODE_CONF_NAK {
            harvest_ipcp(po.as_slice(), &mut self.address, &mut self.dns);
            apply_nak(&mut self.ipcp_opts, &po, true);
            self.ipcp_id = inc(self.ipcp_id);
            let f = conf_req(PPP_IPCP, self.ipcp_id, &self.ipcp_opts);
            (one(f), true, None)
        } else if pkt.code == CODE_CONF_REJ {
            drop_rejected(&mut self.ipcp_opts, &po);
            self.ipcp_id = inc(self.ipcp_id);
            let f = conf_req(PPP_IPCP, self.ipcp_id, &self.ipcp_opts);
            (one(f), true, None)
        } else {
            (none_to_send(), false, None)
        }
    }

    /// Hand LCP over to IPCP, or bring the link up, once both sides have
    /// acknowledged; then package the output.
    fn settle(&mut self, send: Vec<Vec<u8>>, restart: bool, err: Option<VpnError>) -> (r: NegOutput)
        requires
            old(self)@.wf(),
            old(self)@.phase is Failed ==> err is Some,
            err is Some ==> old(self)@.phase is Failed,
            err matches Some(e) ==> (e is AuthFailed || e is Protocol),
        ensures
            ({
                let s0 = Step {
                    model: old(self)@,
                    send: send.deep_view(),
                    restart,
                    verdict: match err {
                        None => VerdictKind::Continue,
                        Some(e) => if e is AuthFailed {
                            VerdictKind::FailedAuth(e.detail())
                        } else {
                            VerdictKind::FailedProtocol(e.detail())
                        },
                    },
                };
                &&& final(self)@ == settle(s0).model
                &&& output_matches(r, settle(s0))
            }),
            final(self)@.wf(),
    {
        let mut send = send;
        if let Some(e) = err {
            return NegOutput { send, restart_timer: restart, verdict: Verdict::Failed(e) };
        }
        if self.phase == Phase::Lcp && self.ours_acked && self.theirs_acked {
            self.phase = Phase::Ipcp;
            self.rounds = 0;
            let f = conf_req(PPP_IPCP, self.ipcp_id, &self.ipcp_opts);
            let ghost before = send.deep_view();
            send.push(f);
            proof {
                lemma_bytes_deep_view(f);
            }
            assert(send.deep_view() =~= before.push(f@));
            return NegOutput { send, restart_timer: true, verdict: Verdict::Continue };
        }
        if self.phase == Phase::Ipcp && self.ip_ours && self.ip_theirs {
            return self.finish(send, restart);
        }
        NegOutput { send, restart_timer: restart, verdict: Verdict::Continue }
    }

    /// Both IPCP sides acknowledged: the link is up if an address was
    /// assigned, and failed otherwise.
    fn finish(&mut self, send: Vec<Vec<u8>>, restart: bool) -> (r: NegOutput)
        requires
            old(self)@.wf(),
            old(self)@.phase is Ipcp,
        ensures
            old(self)@.address is Some ==> (final(self)@ == (NegModel { phase: Phase::Up, ..old(self)@ })),
            old(self)@.address is None ==> (final(self)@ == (NegModel { phase: Phase::Failed, ..old(self)@ })),
            r.send == send,
            r.restart_timer == restart,
            old(self)@.address is Some ==> (r.verdict matches Verdict::Up(sess, early) && old(self)@.address
                == Some(sess.address) && sess.peer == old(self)@.peer && sess.dns@ == old(self)@.dns
                && sess.mtu == old(self)@.mru && sess.magic == old(self)@.magic && early@ == old(self)@.early),
            old(self)@.address is None ==> (r.verdict matches Verdict::Failed(e) && e is Protocol
                && e.detail() == "IPCP completed without assigning an IPv4 address"@),
    {
        match self.address {
            Some(a) => {
                self.phase = Phase::Up;
                let dns = copy_addrs(&self.dns);
                let early = copy_bytes(self.early.as_slice());
                let sess = PppSession { address: a, peer: self.peer, dns, mtu: self.mru, magic: self.magic };
                NegOutput { send, restart_timer: restart, verdict: Verdict::Up(sess, early) }
            },
            None => {
                self.phase = Phase::Failed;
                NegOutput {
                    send,
                    restart_timer: restart,
                    verdict: Verdict::Failed(VpnError::Protocol(msg("IPCP completed without assigning an IPv4 address"))),
                }
            },
        }
    }

    /// Feed one received frame (protocol and payload, as `try_decode_ppp`
    /// yields them).
    pub fn on_frame(&mut self, proto: u16, payload: &[u8]) -> (r: NegOutput)
        requires
            old(self)@.running(),
            old(self)@.wf(),
        ensures
            final(self)@ == spec_on_frame(old(self)@, proto, payload@).model,
            output_matches(r, spec_on_frame(old(self)@, proto, payload@)),
            final(self)@.wf(),
    {
        if self.phase == Phase::Lcp {
            let (send, restart, err) = self.lcp_frame(proto, payload);
            self.settle(send, restart, err)
        } else {
            let (send, restart, err) = self.ipcp_frame(proto, payload);
            self.settle(send, restart, err)
        }
    }
}

/// Reading an IPCP option list never adopts `0.0.0.0`, as our address or as
/// a resolver, and never lists a resolver twice.
pub proof fn lemma_harvest_clean(opts: Seq<(u8, Seq<u8>)>, acc: (Option<Ipv4Addr>, Seq<Ipv4Addr>))
    requires
        address_clean(acc.0),
        dns_list_clean(acc.1),
    ensures
        address_clean(spec_harvest(opts, acc).0),
        dns_list_clean(spec_harvest(opts, acc).1),
    decreases opts.len(),
{
    if opts.len() > 0 {
        lemma_harvest_clean(opts.drop_last(), acc);
        let prev = spec_harvest(opts.drop_last(), acc);
        let t = opts.last().0;
        let v = opts.last().1;
        match spec_opt_ipv4(v) {
            Some(a) => {
                if !a.spec_is_unspecified() && t != IPCP_OPT_ADDR && (t == IPCP_OPT_DNS1 || t
                    == IPCP_OPT_DNS2) && !prev.1.contains(a) {
                    let d = prev.1.push(a);
                    assert forall|j: int, k: int| 0 <= j < k < d.len() implies d[j] != d[k] by {
                        if k == prev.1.len() {
                            assert(d[j] == prev.1[j]);
                        }
                    }
                    assert forall|k: int| 0 <= k < d.len() implies !(#[trigger] d[k]).spec_is_unspecified() by {
                        if k < prev.1.len() {
                            assert(d[k] == prev.1[k]);
                        }
                    }
                }
            },
            None => {},
        }
    }
}

/// Whether a step's verdict and the phase it leaves agree: up exactly when
/// the link is up, failed exactly when the negotiation failed.
pub open spec fn verdict_agrees(s: Step) -> bool {
    &&& (s.verdict is Up <==> s.model.phase is Up)
    &&& ((s.verdict is FailedAuth || s.verdict is FailedProtocol) <==> s.model.phase is Failed)
}

/// Whatever frame arrives, a running negotiation stays consistent (no
/// `0.0.0.0` taken as our address or as a resolver, no resolver listed twice,
/// the round bound kept), its verdict matches the phase it reaches, it moves
/// forward only (LCP, then IPCP, then up or failed; never back to LCP), and it
/// comes up only with an address assigned.
pub proof fn lemma_on_frame_progress(m: NegModel, proto: u16, p: Seq<u8>)
    requires
        m.wf(),
        m.running(),
    ensures
        spec_on_frame(m, proto, p).model.wf(),
        verdict_agrees(spec_on_frame(m, proto, p)),
        m.phase is Ipcp ==> !(spec_on_frame(m, proto, p).model.phase is Lcp),
        spec_on_frame(m, proto, p).verdict is Up ==> (spec_on_frame(m, proto, p).model.address matches Some(
            a,
        ) && !a.spec_is_unspecified()),
{
    if m.phase is Ipcp && proto == PPP_IPCP && cp_ok(p) {
        lemma_harvest_clean(spec_options(cp_data(p)), (m.address, m.dns));
    }
}

/// A receive timeout changes no state: at most our outstanding
/// Configure-Request goes out again.
pub proof fn lemma_on_timeout_keeps_state(m: NegModel, restart_due: bool)
    ensures
        spec_on_timeout(m, restart_due).model == m,
        spec_on_timeout(m, restart_due).verdict is Continue,
        spec_on_timeout(m, restart_due).send.len() <= 1,
{
}

proof fn lemma_reject_filter(ours: Seq<(u8, Seq<u8>)>, rej: Seq<(u8, Seq<u8>)>)
    ensures
        ours.filter(not_rejected_by(rej)) == ours.filter(|o: (u8, Seq<u8>)| !has_type(rej, o.0)),
        forall|i: int|
            0 <= i < ours.filter(not_rejected_by(rej)).len() ==> !has_type(
                rej,
                (#[trigger] ours.filter(not_rejected_by(rej))[i]).0,
            ),
        forall|i: int|
            0 <= i < ours.len() && !has_type(rej, ours[i].0) ==> ours.filter(
                not_rejected_by(rej),
            ).contains(#[trigger] ours[i]),
{
    let keep = |o: (u8, Seq<u8>)| !has_type(rej, o.0);
    assert(not_rejected_by(rej) =~= keep);
    ours.filter_lemma(keep);
}

/// An IPCP Configure-Reject is honoured: the Configure-Request that answers
/// it goes out with the next id and carries none of the option types the
/// reject names, while every other option of ours stays, in order.
pub proof fn lemma_ipcp_reject_drops_options(m: NegModel, p: Seq<u8>)
    requires
        m.phase is Ipcp,
        cp_ok(p),
        p[0] == CODE_CONF_REJ,
    ensures
        ({
            let s = spec_on_frame(m, PPP_IPCP, p);
            let rej = spec_options(cp_data(p));
            &&& s.send == seq![conf_req_frame(PPP_IPCP, wrap_inc(m.ipcp_id), s.model.ipcp_opts)]
            &&& s.restart
            &&& s.model.ipcp_id == wrap_inc(m.ipcp_id)
            &&& s.model.ipcp_opts == m.ipcp_opts.filter(|o: (u8, Seq<u8>)| !has_type(rej, o.0))
            &&& forall|i: int|
                0 <= i < s.model.ipcp_opts.len() ==> !has_type(rej, (#[trigger] s.model.ipcp_opts[i]).0)
            &&& forall|i: int|
                0 <= i < m.ipcp_opts.len() && !has_type(rej, m.ipcp_opts[i].0)
                    ==> s.model.ipcp_opts.contains(#[trigger] m.ipcp_opts[i])
        }),
{
    lemma_reject_filter(m.ipcp_opts, spec_options(cp_data(p)));
}

/// An LCP Configure-Reject is honoured the same way: the Configure-Request
/// that answers it goes out with the next id and carries none of the option
/// types the reject names, while every other option of ours stays, in order.
pub proof fn lemma_lcp_reject_drops_options(m: NegModel, p: Seq<u8>)
    requires
        m.phase is Lcp,
        cp_ok(p),
        p[0] == CODE_CONF_REJ,
    ensures
        ({
            let s = spec_on_frame(m, PPP_LCP, p);
            let rej = spec_options(cp_data(p));
            &&& s.send[0] == conf_req_frame(PPP_LCP, wrap_inc(m.lcp_id), s.model.lcp_opts)
            &&& s.restart
            &&& s.model.lcp_id == wrap_inc(m.lcp_id)
            &&& s.model.lcp_opts == m.lcp_opts.filter(|o: (u8, Seq<u8>)| !has_type(rej, o.0))
            &&& forall|i: int|
                0 <= i < s.model.lcp_opts.len() ==> !has_type(rej, (#[trigger] s.model.lcp_opts[i]).0)
            &&& forall|i: int|
                0 <= i < m.lcp_opts.len() && !has_type(rej, m.lcp_opts[i].0)
                    ==> s.model.lcp_opts.contains(#[trigger] m.lcp_opts[i])
        }),
{
    lemma_reject_filter(m.lcp_opts, spec_options(cp_data(p)));
}

/// Whether `j` is the last option of type `t`.
pub open spec fn is_last_of(o: Seq<(u8, Seq<u8>)>, t: u8, j: int) -> bool {
    &&& 0 <= j < o.len()
    &&& o[j].0 == t
    &&& forall|k: int| j < k < o.len() ==> (#[trigger] o[k]).0 != t
}

/// The value of the first option of type `t`.
pub open spec fn first_value(o: Seq<(u8, Seq<u8>)>, t: u8) -> Seq<u8> {
    o[first_of(o, t)].1
}

proof fn lemma_has_first(o: Seq<(u8, Seq<u8>)>, t: u8)
    requires
        has_type(o, t),
    ensures
        is_first_of(o, t, first_of(o, t)),
{
    let i = choose|i: int| 0 <= i < o.len() && (#[trigger] o[i]).0 == t;
    lemma_first_exists(o, t, i);
    let f = choose|f: int| is_first_of(o, t, f);
    lemma_first_of(o, t, f);
}

proof fn lemma_first_exists(o: Seq<(u8, Seq<u8>)>, t: u8, i: int)
    requires
        0 <= i < o.len(),
        o[i].0 == t,
    ensures
        exists|f: int| is_first_of(o, t, f),
    decreases i,
{
    if exists|k: int| 0 <= k < i && (#[trigger] o[k]).0 == t {
        let k = choose|k: int| 0 <= k < i && (#[trigger] o[k]).0 == t;
        lemma_first_exists(o, t, k);
    } else {
        assert(is_first_of(o, t, i));
    }
}

/// Setting (or adding) the first option of type `t` gives `t` the value `v`
/// and leaves every other type as it was.
proof fn lemma_set_first_push(o: Seq<(u8, Seq<u8>)>, t: u8, v: Seq<u8>)
    ensures
        has_type(set_first(o, t, v, true), t),
        first_value(set_first(o, t, v, true), t) == v,
        forall|u: u8|
            u != t ==> (#[trigger] has_type(set_first(o, t, v, true), u)) == has_type(o, u),
        forall|u: u8|
            u != t && has_type(o, u) ==> #[trigger] first_value(set_first(o, t, v, true), u)
                == first_value(o, u),
{
    let r = set_first(o, t, v, true);
    if has_type(o, t) {
        lemma_has_first(o, t);
        let f = first_of(o, t);
        assert(r[f].0 == t);
        assert(is_first_of(r, t, f));
        lemma_first_of(r, t, f);
        assert forall|u: u8| u != t implies #[trigger] has_type(r, u) == has_type(o, u) by {
            if has_type(r, u) {
                let k = choose|k: int| 0 <= k < r.len() && (#[trigger] r[k]).0 == u;
                assert(o[k].0 == u);
            }
            if has_type(o, u) {
                let k = choose|k: int| 0 <= k < o.len() && (#[trigger] o[k]).0 == u;
                assert(r[k].0 == u);
            }
        }
        assert forall|u: u8| u != t && has_type(o, u) implies #[trigger] first_value(r, u)
            == first_value(o, u) by {
            lemma_has_first(o, u);
            let g = first_of(o, u);
            assert(is_first_of(r, u, g));
            lemma_first_of(r, u, g);
        }
    } else {
        let f = o.len() as int;
        assert(r[f].0 == t);
        assert(is_first_of(r, t, f));
        lemma_first_of(r, t, f);
        assert forall|u: u8| u != t implies #[trigger] has_type(r, u) == has_type(o, u) by {
            if has_type(r, u) {
                let k = choose|k: int| 0 <= k < r.len() && (#[trigger] r[k]).0 == u;
                assert(k < f);
                assert(o[k].0 == u);
            }
            if has_type(o, u) {
                let k = choose|k: int| 0 <= k < o.len() && (#[trigger] o[k]).0 == u;
                assert(r[k].0 == u);
            }
        }
        assert forall|u: u8| u != t && has_type(o, u) implies #[trigger] first_value(r, u)
            == first_value(o, u) by {
            lemma_has_first(o, u);
            let g = first_of(o, u);
            assert(is_first_of(r, u, g));
            lemma_first_of(r, u, g);
        }
    }
}

/// Adopting a Configure-Nak: each type it names ends up in our options with
/// the last value named for it; a type it does not name keeps its presence
/// and its value.
proof fn lemma_nak_adopts(o: Seq<(u8, Seq<u8>)>, naked: Seq<(u8, Seq<u8>)>)
    ensures
        forall|t: u8, j: int|
            #[trigger] is_last_of(naked, t, j) ==> has_type(spec_nak(o, naked, true), t) && first_value(
                spec_nak(o, naked, true),
                t,
            ) == naked[j].1,
        forall|u: u8|
            !has_type(naked, u) ==> (#[trigger] has_type(spec_nak(o, naked, true), u)) == has_type(o, u),
        forall|u: u8|
            !has_type(naked, u) && has_type(o, u) ==> #[trigger] first_value(spec_nak(o, naked, true), u)
                == first_value(o, u),
    decreases naked.len(),
{
    if naked.len() > 0 {
        let d = naked.drop_last();
        let (lt, lv) = naked.last();
        let prev = spec_nak(o, d, true);
        lemma_nak_adopts(o, d);
        lemma_set_first_push(prev, lt, lv);
        assert forall|t: u8, j: int| #[trigger] is_last_of(naked, t, j) implies has_type(
            spec_nak(o, naked, true),
            t,
        ) && first_value(spec_nak(o, naked, true), t) == naked[j].1 by {
            if t != lt {
                assert(j < naked.len() - 1);
                assert(is_last_of(d, t, j));
            } else {
                assert(j == naked.len() - 1);
            }
        }
        assert forall|u: u8| !has_type(naked, u) implies (#[trigger] has_type(
            spec_nak(o, naked, true),
            u,
        )) == has_type(o, u) by {
            assert(naked[naked.len() - 1].0 == lt);
            if has_type(d, u) {
                let k = choose|k: int| 0 <= k < d.len() && (#[trigger] d[k]).0 == u;
                assert(naked[k].0 == u);
            }
        }
        assert forall|u: u8| !has_type(naked, u) && has_type(o, u) implies #[trigger] first_value(
            spec_nak(o, naked, true),
            u,
        ) == first_value(o, u) by {
            assert(naked[naked.len() - 1].0 == lt);
            if has_type(d, u) {
                let k = choose|k: int| 0 <= k < d.len() && (#[trigger] d[k]).0 == u;
                assert(naked[k].0 == u);
            }
        }
    }
}

/// An IPCP Configure-Nak is adopted: the Configure-Request that answers it
/// goes out with the next id; for each option type the Nak names, our
/// request carries that type with the last value the Nak gave it (the
/// address the gateway assigns, its DNS servers); every type it does not
/// name stays as it was.
pub proof fn lemma_ipcp_nak_adopts_proposals(m: NegModel, p: Seq<u8>)
    requires
        m.phase is Ipcp,
        cp_ok(p),
        p[0] == CODE_CONF_NAK,
    ensures
        ({
            let s = spec_on_frame(m, PPP_IPCP, p);
            let nak = spec_options(cp_data(p));
            &&& s.send == seq![conf_req_frame(PPP_IPCP, wrap_inc(m.ipcp_id), s.model.ipcp_opts)]
            &&& s.restart
            &&& s.model.ipcp_id == wrap_inc(m.ipcp_id)
            &&& forall|t: u8, j: int|
                #[trigger] is_last_of(nak, t, j) ==> has_type(s.model.ipcp_opts, t) && first_value(
                    s.model.ipcp_opts,
                    t,
                ) == nak[j].1
            &&& forall|u: u8|
                !has_type(nak, u) ==> (#[trigger] has_type(s.model.ipcp_opts, u)) == has_type(
                    m.ipcp_opts,
                    u,
                )
            &&& forall|u: u8|
                !has_type(nak, u) && has_type(m.ipcp_opts, u) ==> #[trigger] first_value(
                    s.model.ipcp_opts,
                    u,
                ) == first_value(m.ipcp_opts, u)
        }),
{
    lemma_nak_adopts(m.ipcp_opts, spec_options(cp_data(p)));
}

} // verus!
