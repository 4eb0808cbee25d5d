use bytes::BytesMut;
use vpn_engine::framer::{FortinetPppFramer, FrameEvent};
use vpn_engine::fortigate::ppp::{
    build_cp, encode_ppp, CODE_CODE_REJ, CODE_CONF_ACK, CODE_CONF_REQ, CODE_ECHO_REP,
    CODE_ECHO_REQ, CODE_TERM_REQ, PPP_IPCP, PPP_LCP,
};

#[test]
fn fortinet_data_round_trips_through_framer() {
    let mut f = FortinetPppFramer::new(0xdeadbeef);
    let frame = f.encode_data(&[0x45, 0x00, 0x11]);
    assert_eq!(&frame[..8], &[0x00, 0x0b, 0x50, 0x50, 0x00, 0x05, 0x00, 0x21]);
    let mut buf = BytesMut::from(&frame[..]);
    assert_eq!(f.try_decode(&mut buf).unwrap(), Some(FrameEvent::Data(vec![0x45, 0x00, 0x11])));
}

#[test]
fn fortinet_keepalive_is_an_lcp_echo_request() {
    let mut f = FortinetPppFramer::new(0xdeadbeef);
    let ka = f.encode_keepalive();
    assert_eq!(&ka[6..8], &[0xc0, 0x21], "keepalive must be LCP");
    assert_eq!(ka[8], CODE_ECHO_REQ);
    assert_eq!(&ka[12..16], &[0xde, 0xad, 0xbe, 0xef], "must carry our magic");
    assert_eq!(ka[9], 1);
    assert_eq!(f.encode_keepalive()[9], 2);
}

#[test]
fn fortinet_shutdown_is_an_lcp_terminate_request() {
    let s = FortinetPppFramer::new(1).encode_shutdown().expect("PPP sends Terminate-Request");
    assert_eq!(&s[6..8], &[0xc0, 0x21]);
    assert_eq!(s[8], CODE_TERM_REQ);
}

#[test]
fn fortinet_peer_echo_request_gets_a_reply() {
    let mut f = FortinetPppFramer::new(0xdeadbeef);
    let req = encode_ppp(PPP_LCP, &build_cp(CODE_ECHO_REQ, 42, &[0x11, 0x22, 0x33, 0x44]));
    let mut buf = BytesMut::from(&req[..]);
    let Some(FrameEvent::Reply(reply)) = f.try_decode(&mut buf).unwrap() else {
        panic!("an Echo-Request must produce a Reply");
    };
    assert_eq!(reply[8], CODE_ECHO_REP);
    assert_eq!(reply[9], 42, "reply echoes the request id");
    assert_eq!(&reply[12..16], &[0xde, 0xad, 0xbe, 0xef], "reply carries OUR magic");
}

#[test]
fn fortinet_terminate_request_disconnects() {
    let mut f = FortinetPppFramer::new(1);
    let term = encode_ppp(PPP_LCP, &build_cp(CODE_TERM_REQ, 3, b"bye"));
    let mut buf = BytesMut::from(&term[..]);
    assert_eq!(f.try_decode(&mut buf).unwrap(), Some(FrameEvent::Disconnect));
}

#[test]
fn fortinet_conf_req_is_acknowledged() {
    let mut f = FortinetPppFramer::new(1);
    let req = encode_ppp(PPP_IPCP, &build_cp(CODE_CONF_REQ, 5, &[3, 6, 10, 0, 0, 1]));
    let mut buf = BytesMut::from(&req[..]);
    let Some(FrameEvent::Reply(ack)) = f.try_decode(&mut buf).unwrap() else {
        panic!("a Conf-Req must be acknowledged");
    };
    assert_eq!(&ack[6..8], &[0x80, 0x21]);
    assert_eq!(ack[8], CODE_CONF_ACK);
    assert_eq!(ack[9], 5);
}

#[test]
fn fortinet_unknown_control_is_ignored_not_fatal() {
    let mut f = FortinetPppFramer::new(1);
    let pkt = encode_ppp(PPP_LCP, &build_cp(CODE_CODE_REJ, 1, &[0xAA]));
    let mut buf = BytesMut::from(&pkt[..]);
    assert_eq!(f.try_decode(&mut buf).unwrap(), Some(FrameEvent::Ignore));
}

#[test]
fn fortinet_coalesced_batch_decodes_as_sequence() {
    let mut f = FortinetPppFramer::new(1);
    let mut batch = Vec::new();
    f.encode_data_append(&[0x11, 0x22], &mut batch);
    f.encode_data_append(&[0x33], &mut batch);
    let mut buf = BytesMut::from(&batch[..]);
    assert_eq!(f.try_decode(&mut buf).unwrap(), Some(FrameEvent::Data(vec![0x11, 0x22])));
    assert_eq!(f.try_decode(&mut buf).unwrap(), Some(FrameEvent::Data(vec![0x33])));
    assert_eq!(f.try_decode(&mut buf).unwrap(), None);
}

#[test]
fn encode_data_into_matches_encode_data() {
    let f = FortinetPppFramer::new(7);
    let payload = [0xDE, 0xAD, 0xBE, 0xEF, 0x00, 0x45];
    let owned = f.encode_data(&payload);
    let mut buf = vec![0xFF; 3];
    f.encode_data_into(&payload, &mut buf);
    assert_eq!(owned, buf, "encode_data_into diverged from encode_data");
}

#[test]
fn malformed_control_packet_is_ignored() {
    let mut f = FortinetPppFramer::new(1);
    let pkt = encode_ppp(PPP_LCP, &[0x09, 0x01, 0x00]);
    let mut buf = BytesMut::from(&pkt[..]);
    assert_eq!(f.try_decode(&mut buf).unwrap(), Some(FrameEvent::Ignore));
    assert!(buf.is_empty());
}

#[test]
fn keepalive_id_wraps_after_255() {
    let mut f = FortinetPppFramer::new(1);
    let mut last = 0u8;
    for _ in 0..256 {
        last = f.encode_keepalive()[9];
    }
    assert_eq!(last, 0);
    assert_eq!(f.encode_keepalive()[9], 1);
}

#[test]
fn short_body_is_a_protocol_error_and_consumed() {
    let mut f = FortinetPppFramer::new(1);
    let mut buf = BytesMut::from(&[0x00u8, 0x07, 0x50, 0x50, 0x00, 0x01, 0x21][..]);
    assert!(f.try_decode(&mut buf).is_err());
    assert!(buf.is_empty());
}
