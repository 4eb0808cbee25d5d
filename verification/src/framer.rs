//! Protocol-agnostic tunnel framing as the forwarding loop sees it, and its
//! FortiGate implementation: the `0x5050` envelope carrying PPP.
use vstd::prelude::*;

use crate::buffer::buf_contents;
use crate::error::VpnError;
use crate::fortigate::framing::{frame_error, frame_step, push_all, FrameStep, MAX_FORTI_BODY};
use crate::fortigate::negotiate::{copy_bytes, cp_data, cp_ok, wrap_inc};
use crate::fortigate::ppp::{
    build_cp, echo_reply, lemma_ppp_round_trip, short_body_error, echo_request, encode_ppp, encode_ppp_append, parse_cp,
    spec_cp, spec_echo_reply, spec_echo_request, spec_ppp_frame, spec_split_ppp,
    spec_terminate_request, terminate_request, try_decode_ppp, CODE_CONF_ACK, CODE_CONF_REQ,
    CODE_ECHO_REQ, CODE_TERM_REQ, PPP_IPCP, PPP_IPV4, PPP_LCP,
};

verus! {

/// The protocol-agnostic result of decoding one inbound frame: what the
/// forwarding loop should do next. Protocol-specific replies are already
/// encoded into `Reply` bytes.
#[derive(Debug, Clone, PartialEq, Eq)]
pub enum FrameEvent {
    /// A data (IP) payload: write it to the TUN device.
    Data(Vec<u8>),
    /// Ready-made bytes to write back over the tunnel.
    Reply(Vec<u8>),
    /// A liveness or irrelevant control frame: nothing to do.
    Ignore,
    /// The peer asked to tear down: end the forwarding loop.
    Disconnect,
}

/// A decoded event as plain values.
pub enum EventModel {
    Data(Seq<u8>),
    Reply(Seq<u8>),
    Ignore,
    Disconnect,
}

pub open spec fn event_model(e: FrameEvent) -> EventModel {
    match e {
        FrameEvent::Data(v) => EventModel::Data(v@),
        FrameEvent::Reply(v) => EventModel::Reply(v@),
        FrameEvent::Ignore => EventModel::Ignore,
        FrameEvent::Disconnect => EventModel::Disconnect,
    }
}

/// How the FortiGate framer classifies a decoded PPP frame: IPv4 is data; a
/// control packet that does not parse is ignored rather than fatal; the peer's
/// LCP Echo-Request gets our Echo-Reply; an LCP or IPCP Configure-Request
/// (the peer re-opening negotiation) is acknowledged verbatim; an LCP
/// Terminate-Request disconnects; anything else is ignored.
pub open spec fn classify(magic: u32, proto: u16, payload: Seq<u8>) -> EventModel {
    if proto == PPP_IPV4 {
        EventModel::Data(payload)
    } else if !cp_ok(payload) {
        EventModel::Ignore
    } else {
        let code = payload[0];
        let id = payload[1];
        let data = cp_data(payload);
        if proto == PPP_LCP && code == CODE_ECHO_REQ {
            EventModel::Reply(spec_echo_reply(magic, id, data))
        } else if (proto == PPP_LCP || proto == PPP_IPCP) && code == CODE_CONF_REQ {
            EventModel::Reply(spec_ppp_frame(proto, spec_cp(CODE_CONF_ACK, id, data)))
        } else if proto == PPP_LCP && code == CODE_TERM_REQ {
            EventModel::Disconnect
        } else {
            EventModel::Ignore
        }
    }
}

/// FortiGate framer: data frames are PPP protocol `0x0021` (raw IPv4); the
/// keepalive is an LCP Echo-Request carrying the magic number agreed during
/// negotiation, with an identifier that advances per probe; shutdown sends an
/// LCP Terminate-Request.
#[derive(Debug)]
pub struct FortinetPppFramer {
    magic: u32,
    echo_id: u8,
}

impl FortinetPppFramer {
    /// The LCP magic number in use.
    pub closed spec fn spec_magic(&self) -> u32 {
        self.magic
    }

    /// The identifier of the last Echo-Request sent (0 before the first).
    pub closed spec fn spec_echo_id(&self) -> u8 {
        self.echo_id
    }

    pub fn new(magic: u32) -> (r: Self)
        ensures
            r.spec_magic() == magic,
            r.spec_echo_id() == 0,
    {
        FortinetPppFramer { magic, echo_id: 0 }
    }

    /// Frame a data (IPv4) payload.
    pub fn encode_data(&self, payload: &[u8]) -> (r: Vec<u8>)
        ensures
            r@ == spec_ppp_frame(PPP_IPV4, payload@),
    {
        encode_ppp(PPP_IPV4, payload)
    }

    /// Append a framed data payload to a caller-owned buffer (does not clear
    /// it), so a batch coalesces into one write.
    pub fn encode_data_append(&self, payload: &[u8], out: &mut Vec<u8>)
        ensures
            final(out)@ == old(out)@ + spec_ppp_frame(PPP_IPV4, payload@),
    {
        encode_ppp_append(PPP_IPV4, payload, out);
    }

    /// Frame one payload into a freshly cleared buffer.
    pub fn encode_data_into(&self, payload: &[u8], out: &mut Vec<u8>)
        ensures
            final(out)@ == spec_ppp_frame(PPP_IPV4, payload@),
    {
        out.clear();
        self.encode_data_append(payload, out);
        assert(out@ =~= spec_ppp_frame(PPP_IPV4, payload@));
    }

    /// A client keepalive: an LCP Echo-Request with our magic number and the
    /// next identifier.
    pub fn encode_keepalive(&mut self) -> (r: Vec<u8>)
        ensures
            final(self).spec_magic() == old(self).spec_magic(),
            final(self).spec_echo_id() == wrap_inc(old(self).spec_echo_id()),
            r@ == spec_echo_request(old(self).spec_magic(), wrap_inc(old(self).spec_echo_id())),
    {
        let id = if self.echo_id == 255 {
            0
        } else {
            self.echo_id + 1
        };
        self.echo_id = id;
        echo_request(self.magic, id)
    }

    /// The polite in-tunnel shutdown frame: an LCP Terminate-Request, id 0.
    pub fn encode_shutdown(&self) -> (r: Option<Vec<u8>>)
        ensures
            r matches Some(v) && v@ == spec_terminate_request(0),
    {
        Some(terminate_request(0))
    }

    /// Decode one frame from the front of `buf` and classify it. `Ok(None)`
    /// while more bytes are needed (buffer untouched); `Err` on a malformed
    /// envelope (buffer untouched) or a body too short for a protocol field
    /// (frame consumed).
    pub fn try_decode(&mut self, buf: &mut bytes::BytesMut) -> (r: Result<Option<FrameEvent>, VpnError>)
        ensures
            final(self).spec_magic() == old(self).spec_magic(),
            final(self).spec_echo_id() == old(self).spec_echo_id(),
            match frame_step(buf_contents(*old(buf))) {
                FrameStep::NeedMore => r matches Ok(None) && buf_contents(*final(buf)) == buf_contents(*old(buf)),
                FrameStep::Malformed => r matches Err(e) && e is Protocol && e.detail() == frame_error(
                    buf_contents(*old(buf)),
                ) && buf_contents(*final(buf)) == buf_contents(*old(buf)),
                FrameStep::Frame(body, rest) => buf_contents(*final(buf)) == rest && match spec_split_ppp(body) {
                    None => r matches Err(e) && e is Protocol && e.detail() == short_body_error(body.len()),
                    Some((p, payload)) => r matches Ok(Some(ev)) && event_model(ev) == classify(old(self).spec_magic(), p, payload),
                },
            },
    {
        let (proto, payload) = match try_decode_ppp(buf) {
            Err(e) => return Err(e),
            Ok(None) => return Ok(None),
            Ok(Some(f)) => f,
        };
        if proto == PPP_IPV4 {
            return Ok(Some(FrameEvent::Data(payload)));
        }
        let pkt = match parse_cp(payload.as_slice()) {
            Ok(p) => p,
            Err(_) => return Ok(Some(FrameEvent::Ignore)),
        };
        if proto == PPP_LCP && pkt.code == CODE_ECHO_REQ {
            Ok(Some(FrameEvent::Reply(echo_reply(self.magic, &pkt))))
        } else if (proto == PPP_LCP || proto == PPP_IPCP) && pkt.code == CODE_CONF_REQ {
            let cp = build_cp(CODE_CONF_ACK, pkt.id, pkt.data.as_slice());
            Ok(Some(FrameEvent::Reply(encode_ppp(proto, cp.as_slice()))))
        } else if proto == PPP_LCP && pkt.code == CODE_TERM_REQ {
            Ok(Some(FrameEvent::Disconnect))
        } else {
            Ok(Some(FrameEvent::Ignore))
        }
    }
}

/// Back-to-back data frames decode cleanly: the decoder takes exactly the
/// first frame off the front of a buffer, classifies it as data carrying the
/// payload that was framed, and leaves the rest of the buffer for the next
/// call. Applied once per frame, a coalesced batch decodes as the same
/// ordered sequence of packets.
pub proof fn lemma_data_frame_decodes(magic: u32, payload: Seq<u8>, rest: Seq<u8>)
    requires
        payload.len() + 2 <= MAX_FORTI_BODY,
    ensures
        frame_step(spec_ppp_frame(PPP_IPV4, payload) + rest) matches FrameStep::Frame(body, r) && r
            == rest && spec_split_ppp(body) == Some((PPP_IPV4, payload)),
        classify(magic, PPP_IPV4, payload) == EventModel::Data(payload),
{
    lemma_ppp_round_trip(PPP_IPV4, payload, rest);
}

} // verus!
