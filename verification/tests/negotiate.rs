use vpn_engine::error::VpnError;
use vpn_engine::fortigate::negotiate::{Negotiator, Phase, Verdict, MAX_ROUNDS};
use vpn_engine::fortigate::ppp::{
    build_cp, build_options, encode_ppp, parse_cp, parse_options, try_decode_ppp, CODE_CONF_ACK,
    CODE_CONF_NAK, CODE_CONF_REJ, CODE_CONF_REQ, CODE_ECHO_REP, CODE_ECHO_REQ, CODE_TERM_ACK,
    CODE_TERM_REQ, DEFAULT_MRU, IPCP_OPT_ADDR, IPCP_OPT_DNS1, IPCP_OPT_DNS2, LCP_OPT_AUTH,
    LCP_OPT_MAGIC, LCP_OPT_MRU, PPP_IPCP, PPP_IPV4, PPP_LCP, PPP_PAP,
};
use vpn_engine::net::Ipv4Addr;

fn cp(code: u8, id: u8, opts: &[(u8, Vec<u8>)]) -> Vec<u8> {
    build_cp(code, id, &build_options(opts))
}

/// Decode a frame we sent into (protocol, code, id, options).
fn sent(frame: &[u8]) -> (u16, u8, u8, Vec<(u8, Vec<u8>)>) {
    let mut buf = bytes::BytesMut::from(frame);
    let (proto, payload) = try_decode_ppp(&mut buf).unwrap().unwrap();
    assert!(buf.is_empty());
    let p = parse_cp(&payload).unwrap();
    (proto, p.code, p.id, parse_options(&p.data))
}

#[test]
fn negotiation_observed_on_the_wire_comes_up() {
    let (mut n, first) = Negotiator::new(0xdeadbeef);
    assert_eq!(
        sent(&first),
        (PPP_LCP, CODE_CONF_REQ, 1, vec![(LCP_OPT_MRU, DEFAULT_MRU.to_be_bytes().to_vec()), (LCP_OPT_MAGIC, vec![0xde, 0xad, 0xbe, 0xef])])
    );
    assert_eq!(n.phase(), Phase::Lcp);

    // <- LCP Conf-Req id=1 [Magic=theirs]: acknowledged verbatim.
    n.begin_round(false).unwrap();
    let out = n.on_frame(PPP_LCP, &cp(CODE_CONF_REQ, 1, &[(LCP_OPT_MAGIC, vec![1, 2, 3, 4])]));
    assert!(matches!(out.verdict, Verdict::Continue));
    assert_eq!(out.send.len(), 1);
    assert_eq!(sent(&out.send[0]), (PPP_LCP, CODE_CONF_ACK, 1, vec![(LCP_OPT_MAGIC, vec![1, 2, 3, 4])]));

    // <- LCP Conf-Ack of ours: LCP done, IPCP starts with zeros.
    n.begin_round(false).unwrap();
    let out = n.on_frame(PPP_LCP, &cp(CODE_CONF_ACK, 1, &[(LCP_OPT_MRU, vec![0x05, 0x4a]), (LCP_OPT_MAGIC, vec![0xde, 0xad, 0xbe, 0xef])]));
    assert_eq!(n.phase(), Phase::Ipcp);
    assert!(out.restart_timer);
    assert_eq!(
        sent(&out.send[0]),
        (PPP_IPCP, CODE_CONF_REQ, 1, vec![(IPCP_OPT_ADDR, vec![0; 4]), (IPCP_OPT_DNS1, vec![0; 4]), (IPCP_OPT_DNS2, vec![0; 4])])
    );

    // <- IPCP Conf-Req [IP=peer]: acknowledged.
    n.begin_round(false).unwrap();
    let out = n.on_frame(PPP_IPCP, &cp(CODE_CONF_REQ, 1, &[(IPCP_OPT_ADDR, vec![10, 0, 0, 254])]));
    assert_eq!(sent(&out.send[0]).1, CODE_CONF_ACK);

    // <- IPCP Conf-Nak with our address and resolvers: adopted and re-requested.
    n.begin_round(false).unwrap();
    let nak = [(IPCP_OPT_ADDR, vec![10, 0, 3, 1]), (IPCP_OPT_DNS1, vec![172, 29, 0, 25]), (IPCP_OPT_DNS2, vec![172, 29, 0, 23])];
    let out = n.on_frame(PPP_IPCP, &cp(CODE_CONF_NAK, 1, &nak));
    assert_eq!(sent(&out.send[0]), (PPP_IPCP, CODE_CONF_REQ, 2, nak.to_vec()));

    // An IPv4 packet arriving early is kept for the forwarding loop.
    let out = n.on_frame(PPP_IPV4, &[0x45, 0x00]);
    assert!(out.send.is_empty());

    // <- IPCP Conf-Ack id=2: the link is up.
    n.begin_round(false).unwrap();
    let out = n.on_frame(PPP_IPCP, &cp(CODE_CONF_ACK, 2, &nak));
    match out.verdict {
        Verdict::Up(s, early) => {
            assert_eq!(s.address, Ipv4Addr::new(10, 0, 3, 1));
            assert_eq!(s.peer, Some(Ipv4Addr::new(10, 0, 0, 254)));
            assert_eq!(s.dns, vec![Ipv4Addr::new(172, 29, 0, 25), Ipv4Addr::new(172, 29, 0, 23)]);
            assert_eq!(s.mtu, 1354);
            assert_eq!(s.magic, 0xdeadbeef);
            assert_eq!(early, encode_ppp(PPP_IPV4, &[0x45, 0x00]));
        }
        _ => panic!("expected the link to come up"),
    }
    assert_eq!(n.phase(), Phase::Up);
    assert!(!n.is_running());
}

#[test]
fn peer_asking_for_authentication_is_refused() {
    let (mut n, _) = Negotiator::new(1);
    let out = n.on_frame(PPP_LCP, &cp(CODE_CONF_REQ, 1, &[(LCP_OPT_AUTH, vec![0xc0, 0x23])]));
    assert!(matches!(out.verdict, Verdict::Failed(VpnError::AuthFailed(_))));
    assert_eq!(n.phase(), Phase::Failed);
    let (mut m, _) = Negotiator::new(1);
    let out = m.on_frame(PPP_PAP, &[1, 1, 0, 4]);
    assert!(matches!(out.verdict, Verdict::Failed(VpnError::AuthFailed(_))));
}

#[test]
fn unknown_lcp_options_are_rejected_and_echo_is_answered() {
    let (mut n, _) = Negotiator::new(0x01020304);
    let out = n.on_frame(PPP_LCP, &cp(CODE_CONF_REQ, 4, &[(LCP_OPT_MAGIC, vec![9, 9, 9, 9]), (13, vec![6])]));
    assert_eq!(sent(&out.send[0]), (PPP_LCP, CODE_CONF_REJ, 4, vec![(13, vec![6])]));
    let out = n.on_frame(PPP_LCP, &build_cp(CODE_ECHO_REQ, 8, &[9, 9, 9, 9]));
    let (proto, code, id, _) = sent(&out.send[0]);
    assert_eq!((proto, code, id), (PPP_LCP, CODE_ECHO_REP, 8));
}

#[test]
fn lcp_reject_drops_our_option_and_retries() {
    let (mut n, _) = Negotiator::new(7);
    let out = n.on_frame(PPP_LCP, &cp(CODE_CONF_REJ, 1, &[(LCP_OPT_MRU, vec![0x05, 0x4a])]));
    assert!(out.restart_timer);
    assert_eq!(sent(&out.send[0]), (PPP_LCP, CODE_CONF_REQ, 2, vec![(LCP_OPT_MAGIC, vec![0, 0, 0, 7])]));
}

#[test]
fn terminate_request_is_acknowledged_and_fails() {
    let (mut n, _) = Negotiator::new(7);
    let out = n.on_frame(PPP_LCP, &build_cp(CODE_TERM_REQ, 3, &[]));
    assert!(matches!(out.verdict, Verdict::Failed(VpnError::Protocol(_))));
    assert_eq!(sent(&out.send[0]).1, CODE_TERM_ACK);
}

#[test]
fn a_peer_that_naks_forever_runs_out_of_rounds() {
    let (mut n, _) = Negotiator::new(7);
    for _ in 0..MAX_ROUNDS {
        n.begin_round(false).unwrap();
        let out = n.on_frame(PPP_LCP, &cp(CODE_CONF_NAK, 1, &[(LCP_OPT_MRU, vec![0x05, 0xdc])]));
        assert!(matches!(out.verdict, Verdict::Continue));
    }
    assert!(matches!(n.begin_round(false), Err(VpnError::Protocol(_))));
    assert_eq!(n.phase(), Phase::Failed);
}

#[test]
fn a_passed_deadline_fails_the_round() {
    let (mut n, _) = Negotiator::new(7);
    assert!(n.begin_round(true).is_err());
    assert!(!n.is_running());
}

#[test]
fn timeouts_resend_our_request_only_when_due() {
    let (mut n, first) = Negotiator::new(7);
    let quiet = n.on_timeout(false);
    assert!(quiet.send.is_empty());
    let again = n.on_timeout(true);
    assert_eq!(again.send, vec![first]);
    assert!(again.restart_timer);
}

#[test]
fn ipcp_ack_without_an_address_fails() {
    let (mut n, _) = Negotiator::new(7);
    n.on_frame(PPP_LCP, &cp(CODE_CONF_REQ, 1, &[]));
    n.on_frame(PPP_LCP, &cp(CODE_CONF_ACK, 1, &[]));
    assert_eq!(n.phase(), Phase::Ipcp);
    n.on_frame(PPP_IPCP, &cp(CODE_CONF_REQ, 1, &[]));
    let out = n.on_frame(PPP_IPCP, &cp(CODE_CONF_ACK, 1, &[(IPCP_OPT_ADDR, vec![0, 0, 0, 0])]));
    assert!(matches!(out.verdict, Verdict::Failed(VpnError::Protocol(_))));
}
