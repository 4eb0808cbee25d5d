//! FortiGate SSL VPN outer frame codec. Every frame is a 6-byte big-endian
//! header followed by the body:
//!
//! ```text
//! offset 0  u16  total length  = 6 + body_len   (big-endian)
//! offset 2  u16  magic         = 0x5050 ("PP")   (big-endian)
//! offset 4  u16  body_len                        (big-endian)
//! offset 6  ..   body
//! ```
//!
//! Server frames are untrusted: decoding is bounded and never panics; malformed
//! input maps to `VpnError::Protocol`.
use vstd::prelude::*;

use crate::buffer::{buf_byte, buf_contents, buf_len, buf_take_front};
use crate::error::VpnError;
use crate::text::{fmt_decimal, fmt_hex_lower, pad_zeros, spec_decimal, spec_digits};

verus! {

/// Fixed FortiGate frame header length.
pub const FORTI_HEADER_LEN: usize = 6;

/// Frame magic, the ASCII bytes "PP".
pub const FORTI_MAGIC: u16 = 0x5050;

/// Largest body we accept, far below the `u16` ceiling.
pub const MAX_FORTI_BODY: usize = 16384;

/// Big-endian encoding of a 16-bit value.
pub open spec fn be16(v: int) -> Seq<u8> {
    seq![(v / 256) as u8, (v % 256) as u8]
}

/// The 16-bit value of two big-endian bytes.
pub open spec fn be16_value(hi: u8, lo: u8) -> int {
    hi * 256 + lo
}

/// The frame carrying `body`.
pub open spec fn spec_frame(body: Seq<u8>) -> Seq<u8> {
    be16(6 + body.len() as int) + be16(0x5050) + be16(body.len() as int) + body
}

/// What the decoder makes of the front of a receive buffer.
pub enum FrameStep {
    /// No complete frame yet.
    NeedMore,
    /// The header is self-inconsistent, carries a bad magic, or declares a body
    /// over the cap.
    Malformed,
    /// A frame with this body, followed by these remaining bytes.
    Frame(Seq<u8>, Seq<u8>),
}

/// Decoding of the front of `s`: header incomplete, then magic, then the
/// total/body agreement, then the body cap, then body completeness.
pub open spec fn frame_step(s: Seq<u8>) -> FrameStep {
    if s.len() < 6 {
        FrameStep::NeedMore
    } else {
        let total = be16_value(s[0], s[1]);
        let magic = be16_value(s[2], s[3]);
        let body_len = be16_value(s[4], s[5]);
        if magic != 0x5050 || total != 6 + body_len || body_len > MAX_FORTI_BODY {
            FrameStep::Malformed
        } else if s.len() < 6 + body_len {
            FrameStep::NeedMore
        } else {
            FrameStep::Frame(s.subrange(6, 6 + body_len), s.skip(6 + body_len))
        }
    }
}

/// Why a header that `frame_step` calls malformed is refused: the magic is
/// checked first, then the agreement of the two lengths, then the cap.
pub open spec fn frame_error(s: Seq<u8>) -> Seq<char> {
    let total = be16_value(s[0], s[1]);
    let magic = be16_value(s[2], s[3]);
    let body_len = be16_value(s[4], s[5]);
    if magic != 0x5050 {
        "bad FortiGate frame magic: 0x"@ + pad_zeros(spec_digits(magic as nat, 16, false), 4)
    } else if total != 6 + body_len {
        "FortiGate length mismatch: total "@ + spec_decimal(total as nat) + ", body "@ + spec_decimal(
            body_len as nat,
        )
    } else {
        "FortiGate frame body "@ + spec_decimal(body_len as nat) + " exceeds cap"@
    }
}

/// The refusal of a body over the cap.
pub open spec fn oversize_error(n: nat) -> Seq<char> {
    "FortiGate frame body "@ + spec_decimal(n) + " exceeds cap 16384"@
}

/// Append the two big-endian bytes of `v`.
pub fn push_be16(out: &mut Vec<u8>, v: u16)
    ensures
        final(out)@ == old(out)@ + be16(v as int),
{
    out.push((v / 256) as u8);
    out.push((v % 256) as u8);
}

/// Append the bytes of `data`.
pub fn push_all(out: &mut Vec<u8>, data: &[u8])
    ensures
        final(out)@ == old(out)@ + data@,
{
    let ghost start = out@;
    let mut i: usize = 0;
    while i < data.len()
        invariant
            i <= data.len(),
            out@ == start + data@.take(i as int),
        decreases data.len() - i,
    {
        out.push(data[i]);
        i = i + 1;
        assert(data@.take(i as int) == data@.take((i - 1) as int).push(data@[i - 1]));
    }
    assert(data@.take(i as int) == data@);
}

/// Encode one frame around `body` (which already carries the PPP protocol
/// field). A body over the cap is refused rather than truncated.
pub fn encode_frame(body: &[u8]) -> (r: Result<Vec<u8>, VpnError>)
    ensures
        body@.len() <= MAX_FORTI_BODY <==> r is Ok,
        r matches Ok(v) ==> v@ == spec_frame(body@),
        r matches Err(e) ==> e is Protocol && e.detail() == oversize_error(body@.len()),
{
    let mut out = Vec::new();
    match encode_frame_append(body, &mut out) {
        Ok(()) => {
            assert(out@ == spec_frame(body@));
            Ok(out)
        },
        Err(e) => Err(e),
    }
}

/// Append a frame to a caller-owned buffer (does not clear it). On error the
/// buffer is left exactly as it was.
pub fn encode_frame_append(body: &[u8], out: &mut Vec<u8>) -> (r: Result<(), VpnError>)
    ensures
        body@.len() <= MAX_FORTI_BODY <==> r is Ok,
        r is Ok ==> final(out)@ == old(out)@ + spec_frame(body@),
        r is Err ==> final(out)@ == old(out)@,
        r matches Err(e) ==> e is Protocol && e.detail() == oversize_error(body@.len()),
{
    if body.len() > MAX_FORTI_BODY {
        let mut m = String::from_str("FortiGate frame body ");
        m.append(fmt_decimal(body.len() as u64).as_str());
        m.append(" exceeds cap 16384");
        return Err(VpnError::Protocol(m));
    }
    let ghost start = out@;
    let total = (FORTI_HEADER_LEN + body.len()) as u16;
    push_be16(out, total);
    push_be16(out, FORTI_MAGIC);
    push_be16(out, body.len() as u16);
    push_all(out, body);
    assert(out@ == start + spec_frame(body@));
    Ok(())
}

/// Try to decode one frame from the front of `buf`, consuming its bytes and
/// returning the body. `Ok(None)` when more bytes are needed (the buffer is
/// untouched, so a partial frame survives a cancelled read); `Err` on a bad
/// magic, a length disagreement, or an over-large body (also untouched).
pub fn try_decode_frame(buf: &mut bytes::BytesMut) -> (r: Result<Option<Vec<u8>>, VpnError>)
    ensures
        match frame_step(buf_contents(*old(buf))) {
            FrameStep::NeedMore => r matches Ok(None) && buf_contents(*final(buf)) == buf_contents(*old(buf)),
            FrameStep::Malformed => r matches Err(e) && e is Protocol && e.detail() == frame_error(
                buf_contents(*old(buf)),
            ) && buf_contents(*final(buf)) == buf_contents(*old(buf)),
            FrameStep::Frame(body, rest) => r matches Ok(Some(v)) && v@ == body && buf_contents(*final(buf)) == rest,
        },
{
    let n = buf_len(buf);
    if n < FORTI_HEADER_LEN {
        return Ok(None);
    }
    let total = (buf_byte(buf, 0) as usize) * 256 + buf_byte(buf, 1) as usize;
    let magic = (buf_byte(buf, 2) as usize) * 256 + buf_byte(buf, 3) as usize;
    let body_len = (buf_byte(buf, 4) as usize) * 256 + buf_byte(buf, 5) as usize;
    if magic != 0x5050 {
        let mut m = String::from_str("bad FortiGate frame magic: 0x");
        m.append(fmt_hex_lower(magic as u64, 4).as_str());
        return Err(VpnError::Protocol(m));
    }
    if total != FORTI_HEADER_LEN + body_len {
        let mut m = String::from_str("FortiGate length mismatch: total ");
        m.append(fmt_decimal(total as u64).as_str());
        m.append(", body ");
        m.append(fmt_decimal(body_len as u64).as_str());
        return Err(VpnError::Protocol(m));
    }
    if body_len > MAX_FORTI_BODY {
        let mut m = String::from_str("FortiGate frame body ");
        m.append(fmt_decimal(body_len as u64).as_str());
        m.append(" exceeds cap");
        return Err(VpnError::Protocol(m));
    }
    if n < FORTI_HEADER_LEN + body_len {
        return Ok(None);
    }
    let ghost s = buf_contents(*buf);
    let _header = buf_take_front(buf, FORTI_HEADER_LEN);
    let body = buf_take_front(buf, body_len);
    assert(s.skip(6).take(body_len as int) == s.subrange(6, 6 + body_len));
    assert(s.skip(6).skip(body_len as int) == s.skip(6 + body_len));
    Ok(Some(body))
}

/// A frame round-trips: decoding the encoding of any body within the cap,
/// followed by any further bytes, yields that body and leaves exactly the
/// further bytes in the buffer. This is what lets several frames be coalesced
/// into one write and decoded back one by one.
pub proof fn lemma_frame_round_trip(body: Seq<u8>, rest: Seq<u8>)
    requires
        body.len() <= MAX_FORTI_BODY,
    ensures
        frame_step(spec_frame(body) + rest) == FrameStep::Frame(body, rest),
{
    let s = spec_frame(body) + rest;
    let n = body.len() as int;
    assert(s[0] == ((6 + n) / 256) as u8);
    assert(be16_value(s[0], s[1]) == 6 + n);
    assert(be16_value(s[2], s[3]) == 0x5050);
    assert(be16_value(s[4], s[5]) == n);
    assert(s.subrange(6, 6 + n) =~= body);
    assert(s.skip(6 + n) =~= rest);
}

/// A strict prefix of a frame is never mistaken for a frame or for garbage:
/// the decoder asks for more bytes.
pub proof fn lemma_frame_prefix_needs_more(body: Seq<u8>, k: int)
    requires
        body.len() <= MAX_FORTI_BODY,
        0 <= k < spec_frame(body).len(),
    ensures
        frame_step(spec_frame(body).take(k)) == FrameStep::NeedMore,
{
    let s = spec_frame(body).take(k);
    let n = body.len() as int;
    if k >= 6 {
        assert(be16_value(s[0], s[1]) == 6 + n);
        assert(be16_value(s[2], s[3]) == 0x5050);
        assert(be16_value(s[4], s[5]) == n);
    }
}

} // verus!
