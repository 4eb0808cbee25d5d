use vpn_engine::error::VpnError;
use vpn_engine::fortigate::config::{
    attr, config_from_response, mask_to_prefix, parse_config_xml, prefix_to_mask, FortiConfig,
    DEFAULT_KEEPALIVE_SECS, DEFAULT_MTU,
};
use vpn_engine::fortigate::http::HttpResponse;
use vpn_engine::fortigate::ppp::PppSession;
use vpn_engine::net::{parse_ipv4, Ipv4Addr};

const LIVE_XML: &str = "<?xml version='1.0' encoding='utf-8'?><sslvpn-tunnel ver='2' dtls='1' patch='1'><dtls-config heartbeat-interval='10' heartbeat-fail-count='10' heartbeat-idle-timeout='10' client-hello-timeout='10' /><tunnel-method value='ppp' /><tunnel-method value='tun' /><auth-ses check-src-ip='1' tun-connect-without-reauth='0' tun-user-ses-timeout='30' /><client-config save-password='off' keep-alive='off' auto-connect='off' /><ipv4><dns ip='172.29.0.25' /><dns ip='172.29.0.23' /><wins ip='172.29.0.25' /><wins ip='172.29.0.23' /><assigned-addr ipv4='10.0.3.1' /><split-tunnel-info><addr ip='10.10.0.0' mask='255.255.0.0' /><addr ip='172.29.0.111' mask='255.255.255.255' /><addr ip='172.29.0.23' mask='255.255.255.255' /><addr ip='172.29.0.25' mask='255.255.255.255' /><addr ip='172.29.0.228' mask='255.255.255.255' /><addr ip='10.10.28.0' mask='255.255.252.0' /><addr ip='172.27.68.0' mask='255.255.254.0' /><addr ip='172.29.0.29' mask='255.255.255.255' /><addr ip='172.27.68.232' mask='255.255.255.255' /><addr ip='172.29.0.255' mask='255.255.255.255' /></split-tunnel-info></ipv4><idle-timeout val='300' /><auth-timeout val='28800' /></sslvpn-tunnel>";

fn ip(s: &str) -> Ipv4Addr {
    parse_ipv4(s).unwrap()
}

#[test]
fn parses_the_live_gateway_reply() {
    let c = parse_config_xml(LIVE_XML).unwrap();
    assert_eq!(c.version.as_deref(), Some("2"));
    assert_eq!(c.tunnel_methods, vec!["ppp", "tun"]);
    assert_eq!(c.address, Some(ip("10.0.3.1")));
    assert_eq!(
        c.dns,
        vec![ip("172.29.0.25"), ip("172.29.0.23")],
        "`wins` entries must not be picked up as DNS"
    );
    assert_eq!(c.routes.len(), 10);
    assert_eq!(c.routes[0], (ip("10.10.0.0"), 16));
    assert_eq!(c.routes[5], (ip("10.10.28.0"), 22));
    assert_eq!(c.routes[6], (ip("172.27.68.0"), 23));
    assert!(c.exclude_routes.is_empty());
    assert_eq!(c.idle_timeout, Some(300));
    assert_eq!(c.auth_timeout, Some(28800));
}

#[test]
fn single_and_double_quotes_both_parse() {
    let dq = r#"<sslvpn-tunnel ver="2"><ipv4><assigned-addr ipv4="10.1.2.3" /></ipv4></sslvpn-tunnel>"#;
    assert_eq!(parse_config_xml(dq).unwrap().address, Some(ip("10.1.2.3")));
    let sq = "<sslvpn-tunnel ver='2'><ipv4><assigned-addr ipv4='10.1.2.3' /></ipv4></sslvpn-tunnel>";
    assert_eq!(parse_config_xml(sq).unwrap().address, Some(ip("10.1.2.3")));
}

#[test]
fn negated_split_tunnel_becomes_excludes() {
    let xml = "<sslvpn-tunnel><ipv4><assigned-addr ipv4='10.1.2.3'/>\
               <split-tunnel-info negate='1'><addr ip='192.168.0.0' mask='255.255.0.0'/>\
               </split-tunnel-info></ipv4></sslvpn-tunnel>";
    let c = parse_config_xml(xml).unwrap();
    assert!(c.routes.is_empty(), "a negated list must not become include routes");
    assert_eq!(c.exclude_routes, vec![(ip("192.168.0.0"), 16)]);
}

#[test]
fn addr_outside_split_tunnel_info_is_ignored() {
    let xml = "<sslvpn-tunnel><ipv4><addr ip='1.2.3.4' mask='255.255.255.0'/>\
               <assigned-addr ipv4='10.1.2.3'/></ipv4></sslvpn-tunnel>";
    assert!(parse_config_xml(xml).unwrap().routes.is_empty());
}

#[test]
fn ipv6_split_entries_are_skipped() {
    let xml = "<sslvpn-tunnel><ipv6><split-tunnel-info>\
               <addr ipv6='2001:db8::' prefix-len='32'/></split-tunnel-info></ipv6>\
               <ipv4><assigned-addr ipv4='10.1.2.3'/></ipv4></sslvpn-tunnel>";
    assert!(parse_config_xml(xml).unwrap().routes.is_empty());
}

#[test]
fn prefix_len_becomes_a_netmask() {
    let xml = "<sslvpn-tunnel><ipv4><assigned-addr ipv4='10.1.2.3' prefix-len='24'/></ipv4></sslvpn-tunnel>";
    let c = parse_config_xml(xml).unwrap();
    assert_eq!(c.netmask, Some(ip("255.255.255.0")));
}

#[test]
fn attr_requires_a_whole_name_match() {
    assert_eq!(attr(" ipv6='::1' ", "ip"), None, "`ip` must not match `ipv6`");
    assert_eq!(attr(" prefix-len='24' ", "len"), None, "`len` must not match `prefix-len`");
    assert_eq!(attr(" ip='1.2.3.4' mask='x' ", "ip").as_deref(), Some("1.2.3.4"));
    assert_eq!(attr(" ip = '1.2.3.4' ", "ip").as_deref(), Some("1.2.3.4"));
}

#[test]
fn masks_and_prefixes_round_trip() {
    for p in [0u8, 8, 16, 22, 23, 24, 32] {
        assert_eq!(mask_to_prefix(prefix_to_mask(p)), p);
    }
    assert_eq!(mask_to_prefix(ip("255.255.252.0")), 22);
}

#[test]
fn full_tunnel_has_no_routes() {
    let xml = "<sslvpn-tunnel><ipv4><assigned-addr ipv4='10.1.2.3'/><dns ip='1.1.1.1'/></ipv4></sslvpn-tunnel>";
    let c = parse_config_xml(xml).unwrap();
    assert!(c.routes.is_empty(), "no split-tunnel-info => full tunnel");
    assert_eq!(c.dns_suffix, None);
}

#[test]
fn keepalive_stays_inside_the_idle_timeout() {
    let mut c = FortiConfig { idle_timeout: Some(300), ..Default::default() };
    assert_eq!(c.keepalive_secs(), 60, "300/3 clamped to the 60s ceiling");
    c.idle_timeout = Some(30);
    assert_eq!(c.keepalive_secs(), 10);
    c.idle_timeout = Some(6);
    assert_eq!(c.keepalive_secs(), 5, "clamped to the 5s floor");
    c.idle_timeout = None;
    assert_eq!(c.keepalive_secs(), DEFAULT_KEEPALIVE_SECS);
}

#[test]
fn session_params_prefer_ipcp_over_xml() {
    let c = parse_config_xml(LIVE_XML).unwrap();
    let ppp = PppSession {
        address: ip("10.0.9.9"),
        peer: None,
        dns: vec![ip("8.8.8.8"), ip("172.29.0.25")],
        mtu: 1354,
        magic: 1,
    };
    let p = c.to_session_params(Some(&ppp));
    assert_eq!(p.address, ip("10.0.9.9"));
    assert_eq!(p.mtu, 1354);
    assert_eq!(p.dns, vec![ip("8.8.8.8"), ip("172.29.0.25"), ip("172.29.0.23")]);
    assert_eq!(p.keepalive, Some(60));
}

#[test]
fn session_params_fall_back_to_xml_without_ppp() {
    let c = parse_config_xml(LIVE_XML).unwrap();
    let p = c.to_session_params(None);
    assert_eq!(p.address, ip("10.0.3.1"));
    assert_eq!(p.mtu, DEFAULT_MTU);
}

#[test]
fn session_params_without_any_address_use_unspecified() {
    let c = FortiConfig::default();
    let p = c.to_session_params(None);
    assert_eq!(p.address, Ipv4Addr::new(0, 0, 0, 0));
    assert!(p.dns.is_empty());
    assert_eq!(p.keepalive, Some(DEFAULT_KEEPALIVE_SECS));
    assert_eq!(p.dpd, None);
    assert_eq!(p.disconnected_timeout, None);
}

#[test]
fn dns_domain_and_zero_idle_timeout() {
    let xml = "<ipv4><dns ip='9.9.9.9' domain='corp.example'/><dns ip='9.9.9.9'/><dns domain=''/></ipv4><idle-timeout val='0'/>";
    let c = parse_config_xml(xml).unwrap();
    assert_eq!(c.dns, vec![ip("9.9.9.9")], "a resolver is listed once");
    assert_eq!(c.dns_suffix.as_deref(), Some("corp.example"), "an empty domain does not clear it");
    assert_eq!(c.idle_timeout, Some(0));
    assert_eq!(c.keepalive_secs(), DEFAULT_KEEPALIVE_SECS);
}

#[test]
fn split_entry_with_prefix_len_and_close_tag_resets_scope() {
    let xml = "<split-tunnel-info negate='true'><addr ip='10.0.0.0' prefix-len='8'/></split-tunnel-info>\
               <split-tunnel-info><addr ip='192.168.1.0' mask='255.255.255.0'/><addr ip='bad' mask='255.0.0.0'/></split-tunnel-info>\
               <addr ip='172.16.0.0' prefix-len='12'/>";
    let c = parse_config_xml(xml).unwrap();
    assert_eq!(c.exclude_routes, vec![(ip("10.0.0.0"), 8)]);
    assert_eq!(c.routes, vec![(ip("192.168.1.0"), 24)]);
}

#[test]
fn bad_numbers_and_unterminated_values_are_ignored() {
    let c = parse_config_xml("<idle-timeout val='abc'/><auth-timeout val='99999999999'/><sslvpn-tunnel ver='2").unwrap();
    assert_eq!(c.idle_timeout, None);
    assert_eq!(c.auth_timeout, None);
    assert_eq!(c.version, None);
    assert_eq!(parse_config_xml("").unwrap(), FortiConfig::default());
}

#[test]
fn prefix_over_32_is_capped() {
    assert_eq!(prefix_to_mask(40), ip("255.255.255.255"));
    assert_eq!(prefix_to_mask(0), ip("0.0.0.0"));
    assert_eq!(prefix_to_mask(1), ip("128.0.0.0"));
    assert_eq!(prefix_to_mask(9), ip("255.128.0.0"));
}

#[test]
fn config_fetch_reply_is_checked() {
    let bad = HttpResponse { status: 403, headers: vec![], body: vec![] };
    match config_from_response(&bad) {
        Err(VpnError::Protocol(m)) => assert_eq!(m, "FortiGate config fetch failed (HTTP 403)"),
        other => panic!("expected a protocol error, got {other:?}"),
    }
    let good = HttpResponse {
        status: 200,
        headers: vec![],
        body: b"<sslvpn-tunnel ver='2'><assigned-addr ipv4='10.9.8.7'/></sslvpn-tunnel>".to_vec(),
    };
    let c = config_from_response(&good).unwrap();
    assert_eq!(c.address, Some(ip("10.9.8.7")));
    assert_eq!(c.version.as_deref(), Some("2"));
}
