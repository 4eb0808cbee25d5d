use bytes::BytesMut;
use vpn_engine::error::VpnError;
use vpn_engine::fortigate::framing::{
    encode_frame, encode_frame_append, try_decode_frame, FORTI_HEADER_LEN, FORTI_MAGIC,
    MAX_FORTI_BODY,
};

#[test]
fn encode_header_is_big_endian() {
    let frame = encode_frame(&[0xDE, 0xAD, 0xBE, 0xEF]).unwrap();
    assert_eq!(&frame[0..2], &[0x00, 0x0A]);
    assert_eq!(&frame[2..4], &[0x50, 0x50]);
    assert_eq!(&frame[4..6], &[0x00, 0x04]);
    assert_eq!(&frame[6..], &[0xDE, 0xAD, 0xBE, 0xEF]);
}

#[test]
fn body_round_trips() {
    let body = vec![0x00, 0x21, 0x45, 0x00, 0x00, 0x14];
    let frame = encode_frame(&body).unwrap();
    let mut buf = BytesMut::from(&frame[..]);
    let out = try_decode_frame(&mut buf).unwrap().unwrap();
    assert_eq!(out, body);
    assert!(buf.is_empty());
}

#[test]
fn decode_waits_for_full_header_then_body() {
    let mut buf = BytesMut::new();
    buf.extend_from_slice(&[0x00, 0x0A, 0x50]);
    assert!(try_decode_frame(&mut buf).unwrap().is_none());
    assert_eq!(buf.len(), 3);
    buf.clear();
    buf.extend_from_slice(&[0x00, 0x0A, 0x50, 0x50, 0x00, 0x04]);
    assert!(try_decode_frame(&mut buf).unwrap().is_none());
    assert_eq!(buf.len(), FORTI_HEADER_LEN);
    buf.extend_from_slice(&[0x01, 0x02, 0x03, 0x04]);
    let out = try_decode_frame(&mut buf).unwrap().unwrap();
    assert_eq!(out, vec![0x01, 0x02, 0x03, 0x04]);
    assert!(buf.is_empty());
}

#[test]
fn decode_drains_two_coalesced_frames_and_keeps_partial() {
    let mut buf = BytesMut::new();
    buf.extend_from_slice(&encode_frame(&[0xAA]).unwrap());
    buf.extend_from_slice(&encode_frame(&[0xBB, 0xCC]).unwrap());
    buf.extend_from_slice(&[0x00]);
    assert_eq!(try_decode_frame(&mut buf).unwrap().unwrap(), vec![0xAA]);
    assert_eq!(try_decode_frame(&mut buf).unwrap().unwrap(), vec![0xBB, 0xCC]);
    assert!(try_decode_frame(&mut buf).unwrap().is_none());
    assert_eq!(buf.len(), 1);
}

#[test]
fn bad_magic_is_rejected() {
    let mut buf = BytesMut::new();
    buf.extend_from_slice(&[0x00, 0x06, 0xDE, 0xAD, 0x00, 0x00]);
    assert!(matches!(try_decode_frame(&mut buf), Err(VpnError::Protocol(_))));
}

#[test]
fn length_mismatch_is_rejected() {
    let mut buf = BytesMut::new();
    buf.extend_from_slice(&[0x00, 0x0A, 0x50, 0x50, 0x00, 0x08]);
    assert!(matches!(try_decode_frame(&mut buf), Err(VpnError::Protocol(_))));
}

#[test]
fn oversized_body_is_rejected_instead_of_truncated() {
    let big = vec![0u8; MAX_FORTI_BODY + 1];
    assert!(matches!(encode_frame(&big), Err(VpnError::Protocol(_))));
    let mut out = Vec::new();
    assert!(encode_frame_append(&big, &mut out).is_err());
    assert!(out.is_empty(), "a rejected frame must not partially write");
}

#[test]
fn decode_rejects_declared_body_over_cap() {
    let mut buf = BytesMut::new();
    let body_len = (MAX_FORTI_BODY + 1) as u16;
    buf.extend_from_slice(&(body_len + 6).to_be_bytes());
    buf.extend_from_slice(&FORTI_MAGIC.to_be_bytes());
    buf.extend_from_slice(&body_len.to_be_bytes());
    assert!(matches!(try_decode_frame(&mut buf), Err(VpnError::Protocol(_))));
}

#[test]
fn largest_body_is_accepted_and_round_trips() {
    let body = vec![0x5Au8; MAX_FORTI_BODY];
    let frame = encode_frame(&body).unwrap();
    assert_eq!(frame.len(), FORTI_HEADER_LEN + MAX_FORTI_BODY);
    let mut buf = BytesMut::from(&frame[..]);
    assert_eq!(try_decode_frame(&mut buf).unwrap().unwrap(), body);
    assert!(buf.is_empty());
}

#[test]
fn append_keeps_what_was_there() {
    let mut out = vec![0x01, 0x02];
    encode_frame_append(&[0x09], &mut out).unwrap();
    assert_eq!(out, vec![0x01, 0x02, 0x00, 0x07, 0x50, 0x50, 0x00, 0x01, 0x09]);
}

#[test]
fn error_messages_name_the_fault() {
    let mut buf = BytesMut::from(&[0x00u8, 0x06, 0xDE, 0xAD, 0x00, 0x00][..]);
    let e = try_decode_frame(&mut buf).unwrap_err();
    assert!(e.message().starts_with("protocol error: "));
    assert_eq!(buf.len(), 6, "a malformed header is left in place");
}
