use bytes::BytesMut;
use vpn_engine::fortigate::ppp::{
    build_cp, build_options, echo_reply, echo_request, encode_ppp, encode_ppp_append, gen_magic,
    harvest_ipcp, magic_from_clock, opt_ipv4, parse_cp, parse_options, split_ppp, stage_early,
    strip_http_prologue, terminate_request, try_decode_ppp, CpPacket, CODE_CONF_ACK,
    CODE_CONF_REQ, CODE_ECHO_REP, CODE_ECHO_REQ, CODE_TERM_REQ, DEFAULT_MRU, IPCP_OPT_ADDR,
    IPCP_OPT_DNS1, IPCP_OPT_DNS2, LCP_OPT_MAGIC, LCP_OPT_MRU, PPP_IPV4, PPP_LCP,
};
use vpn_engine::net::Ipv4Addr;

#[test]
fn cp_round_trips() {
    let opts = build_options(&[(LCP_OPT_MRU, 1354u16.to_be_bytes().to_vec())]);
    let pkt = build_cp(CODE_CONF_REQ, 7, &opts);
    assert_eq!(pkt, vec![1, 7, 0, 8, 1, 4, 0x05, 0x4a]);
    let back = parse_cp(&pkt).unwrap();
    assert_eq!(back.code, CODE_CONF_REQ);
    assert_eq!(back.id, 7);
    assert_eq!(parse_options(&back.data), vec![(1u8, vec![0x05, 0x4a])]);
}

#[test]
fn parse_cp_rejects_truncated_and_overlong() {
    assert!(parse_cp(&[1, 2, 0]).is_err());
    assert!(parse_cp(&[1, 1, 0, 40, 1, 4, 0, 0]).is_err());
    assert!(parse_cp(&[1, 1, 0, 2, 0, 0]).is_err());
}

#[test]
fn parse_options_stops_at_malformed_entry() {
    let b = [1u8, 4, 0x05, 0x4a, 5, 9, 0, 0];
    assert_eq!(parse_options(&b), vec![(1u8, vec![0x05, 0x4a])]);
    assert_eq!(parse_options(&[7u8, 0, 7, 1]), vec![]);
}

#[test]
fn encodes_the_exact_bytes_observed_on_the_wire() {
    let opts = build_options(&[
        (LCP_OPT_MRU, DEFAULT_MRU.to_be_bytes().to_vec()),
        (LCP_OPT_MAGIC, 0xdeadbeefu32.to_be_bytes().to_vec()),
    ]);
    let f = encode_ppp(PPP_LCP, &build_cp(CODE_CONF_REQ, 1, &opts));
    assert_eq!(
        f,
        vec![
            0x00, 0x16, 0x50, 0x50, 0x00, 0x10, 0xc0, 0x21, 0x01, 0x01, 0x00, 0x0e, 0x01, 0x04,
            0x05, 0x4a, 0x05, 0x06, 0xde, 0xad, 0xbe, 0xef,
        ]
    );
}

#[test]
fn decodes_the_gateway_reply_captured_on_the_wire() {
    let raw: Vec<u8> = vec![
        0x00, 0x12, 0x50, 0x50, 0x00, 0x0c, 0xc0, 0x21, 0x01, 0x01, 0x00, 0x0a, 0x05, 0x06, 0x10,
        0x9b, 0x22, 0x33, 0x00, 0x16, 0x50, 0x50, 0x00, 0x10, 0xc0, 0x21, 0x02, 0x01, 0x00, 0x0e,
        0x01, 0x04, 0x05, 0x4a, 0x05, 0x06, 0xde, 0xad, 0xbe, 0xef,
    ];
    let mut buf = BytesMut::from(&raw[..]);

    let (proto, payload) = try_decode_ppp(&mut buf).unwrap().unwrap();
    assert_eq!(proto, PPP_LCP);
    let pkt = parse_cp(&payload).unwrap();
    assert_eq!(pkt.code, CODE_CONF_REQ);
    assert_eq!(parse_options(&pkt.data), vec![(LCP_OPT_MAGIC, vec![0x10, 0x9b, 0x22, 0x33])]);

    let (proto, payload) = try_decode_ppp(&mut buf).unwrap().unwrap();
    assert_eq!(proto, PPP_LCP);
    let pkt = parse_cp(&payload).unwrap();
    assert_eq!(pkt.code, CODE_CONF_ACK);
    assert_eq!(
        parse_options(&pkt.data),
        vec![(LCP_OPT_MRU, vec![0x05, 0x4a]), (LCP_OPT_MAGIC, vec![0xde, 0xad, 0xbe, 0xef])]
    );
    assert!(buf.is_empty());
}

#[test]
fn split_ppp_tolerates_hdlc_prefix() {
    assert_eq!(split_ppp(&[0xc0, 0x21, 1, 2]), Some((PPP_LCP, &[1u8, 2][..])));
    assert_eq!(split_ppp(&[0xff, 0x03, 0xc0, 0x21, 1, 2]), Some((PPP_LCP, &[1u8, 2][..])));
    assert_eq!(split_ppp(&[0x00]), None);
}

#[test]
fn ipv4_payload_round_trips() {
    let ip = vec![0x45, 0x00, 0x00, 0x1c, 0xab, 0xcd];
    let mut buf = BytesMut::from(&encode_ppp(PPP_IPV4, &ip)[..]);
    let (proto, payload) = try_decode_ppp(&mut buf).unwrap().unwrap();
    assert_eq!(proto, PPP_IPV4);
    assert_eq!(payload, ip);
    assert!(buf.is_empty());
}

#[test]
fn partial_frame_is_preserved_for_the_next_read() {
    let full = encode_ppp(PPP_IPV4, &[1, 2, 3, 4]);
    let mut buf = BytesMut::from(&full[..full.len() - 2]);
    assert!(try_decode_ppp(&mut buf).unwrap().is_none());
    buf.extend_from_slice(&full[full.len() - 2..]);
    assert_eq!(try_decode_ppp(&mut buf).unwrap().unwrap().1, vec![1, 2, 3, 4]);
}

#[test]
fn echo_reply_carries_our_magic_then_peer_data() {
    let req = CpPacket { code: CODE_ECHO_REQ, id: 9, data: vec![0x11, 0x22, 0x33, 0x44, 0xAA] };
    let f = echo_reply(0xdeadbeef, &req);
    assert_eq!(f.len(), 17);
    assert_eq!(&f[6..8], &[0xc0, 0x21]);
    assert_eq!(f[8], CODE_ECHO_REP);
    assert_eq!(f[9], 9, "reply must echo the request id");
    assert_eq!(&f[12..16], &[0xde, 0xad, 0xbe, 0xef]);
    assert_eq!(f[16], 0xAA);
}

#[test]
fn harvest_ipcp_ignores_unspecified_and_dedupes() {
    let mut addr = None;
    let mut dns = Vec::new();
    harvest_ipcp(
        &[
            (IPCP_OPT_ADDR, vec![0, 0, 0, 0]),
            (IPCP_OPT_DNS1, vec![172, 29, 0, 25]),
            (IPCP_OPT_DNS2, vec![172, 29, 0, 25]),
        ],
        &mut addr,
        &mut dns,
    );
    assert_eq!(addr, None, "0.0.0.0 must not be taken as an assignment");
    assert_eq!(dns, vec![Ipv4Addr::new(172, 29, 0, 25)]);

    harvest_ipcp(&[(IPCP_OPT_ADDR, vec![10, 0, 3, 1])], &mut addr, &mut dns);
    assert_eq!(addr, Some(Ipv4Addr::new(10, 0, 3, 1)));
}

#[test]
fn magic_is_never_zero() {
    for _ in 0..100 {
        assert_ne!(gen_magic(), 0);
    }
}

#[test]
fn magic_from_a_clock_reading() {
    assert_ne!(magic_from_clock(None), 0);
    assert_ne!(magic_from_clock(Some((0, 0))), 0);
    assert_ne!(magic_from_clock(Some((7, 123_456_789))), 0);
}

#[test]
fn echo_request_and_terminate_request_bytes() {
    let e = echo_request(0x01020304, 5);
    assert_eq!(e, vec![0x00, 0x10, 0x50, 0x50, 0x00, 0x0a, 0xc0, 0x21, 0x09, 0x05, 0x00, 0x08, 1, 2, 3, 4]);
    let t = terminate_request(0);
    assert_eq!(&t[6..8], &[0xc0, 0x21]);
    assert_eq!(t[8], CODE_TERM_REQ);
    assert_eq!(&t[12..], b"bye");
}

#[test]
fn opt_ipv4_needs_four_bytes() {
    assert_eq!(opt_ipv4(&[10, 0, 0, 1]), Some(Ipv4Addr::new(10, 0, 0, 1)));
    assert_eq!(opt_ipv4(&[10, 0, 0]), None);
    assert_eq!(opt_ipv4(&[10, 0, 0, 1, 5]), None);
}

#[test]
fn encode_ppp_append_concatenates_frames() {
    let mut out = Vec::new();
    encode_ppp_append(PPP_IPV4, &[1], &mut out);
    encode_ppp_append(PPP_IPV4, &[2], &mut out);
    let mut buf = BytesMut::from(&out[..]);
    assert_eq!(try_decode_ppp(&mut buf).unwrap().unwrap(), (PPP_IPV4, vec![1]));
    assert_eq!(try_decode_ppp(&mut buf).unwrap().unwrap(), (PPP_IPV4, vec![2]));
    assert!(try_decode_ppp(&mut buf).unwrap().is_none());
}

#[test]
fn early_ipv4_is_restaged_as_a_frame() {
    let mut dst = Vec::new();
    stage_early(&mut dst, &[0x45, 0x00]);
    assert_eq!(dst, encode_ppp(PPP_IPV4, &[0x45, 0x00]));
}

#[test]
fn http_prologue_is_skipped_before_ppp() {
    let mut buf = BytesMut::from(&b"HTTP/1.1 200 OK\r\nX: y\r\n\r\n"[..]);
    buf.extend_from_slice(&encode_ppp(PPP_IPV4, &[7]));
    assert!(strip_http_prologue(&mut buf).unwrap());
    assert_eq!(try_decode_ppp(&mut buf).unwrap().unwrap(), (PPP_IPV4, vec![7]));
    let mut plain = BytesMut::from(&encode_ppp(PPP_IPV4, &[8])[..]);
    assert!(strip_http_prologue(&mut plain).unwrap());
    assert_eq!(plain.len(), 9);
}

#[test]
fn ipcp_options_with_dns_round_trip() {
    let opts = vec![
        (IPCP_OPT_ADDR, vec![0, 0, 0, 0]),
        (IPCP_OPT_DNS1, vec![0, 0, 0, 0]),
        (IPCP_OPT_DNS2, vec![0, 0, 0, 0]),
    ];
    assert_eq!(parse_options(&build_options(&opts)), opts);
}
