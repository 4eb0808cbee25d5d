use bytes::BytesMut;
use vpn_engine::cli::{parse_args, parse_bool, parse_protocol};
use vpn_engine::fortigate::auth::url_encode;
use vpn_engine::fortigate::config::{parse_config_xml, FortiConfig};
use vpn_engine::fortigate::framing::{encode_frame, try_decode_frame};
use vpn_engine::fortigate::ppp::{build_options, encode_ppp, parse_options, try_decode_ppp};
use vpn_engine::pipe::spawn_helper_elevated;
use vpn_engine::profiles::{has_column, insecure_from_column, insecure_to_column};

fn strs(s: &[&str]) -> Vec<String> {
    s.iter().map(|x| x.to_string()).collect()
}

#[test]
fn every_prefix_of_a_frame_needs_more() {
    let frame = encode_frame(&[1, 2, 3, 4, 5]).unwrap();
    for k in 0..frame.len() {
        let mut buf = BytesMut::from(&frame[..k]);
        assert!(try_decode_frame(&mut buf).unwrap().is_none(), "prefix of {k} bytes");
        assert_eq!(buf.len(), k);
    }
}

#[test]
fn frame_then_rest_leaves_the_rest() {
    let mut bytes = encode_frame(&[9, 8]).unwrap();
    bytes.extend_from_slice(&[0xAB, 0xCD]);
    let mut buf = BytesMut::from(&bytes[..]);
    assert_eq!(try_decode_frame(&mut buf).unwrap().unwrap(), vec![9, 8]);
    assert_eq!(&buf[..], &[0xAB, 0xCD]);
}

#[test]
fn ppp_frames_round_trip_for_every_protocol_but_the_hdlc_marker() {
    for proto in [0x0021u16, 0xc021, 0x8021, 0x1234, 0xff02, 0x0000] {
        let mut buf = BytesMut::from(&encode_ppp(proto, &[7, 7])[..]);
        assert_eq!(try_decode_ppp(&mut buf).unwrap().unwrap(), (proto, vec![7, 7]));
    }
    // 0xFF03 is read as an HDLC address/control prefix, not as a protocol.
    let mut buf = BytesMut::from(&encode_ppp(0xff03, &[0xc0, 0x21, 1])[..]);
    assert_eq!(try_decode_ppp(&mut buf).unwrap().unwrap(), (0xc021, vec![1]));
}

#[test]
fn options_round_trip() {
    let opts = vec![(1u8, vec![5, 74]), (5, vec![1, 2, 3, 4]), (9, vec![])];
    assert_eq!(parse_options(&build_options(&opts)), opts);
}

#[test]
fn percent_encoding_never_leaves_a_form_separator() {
    let e = url_encode("a&b=c d+e%f");
    assert_eq!(e, "a%26b%3Dc%20d%2Be%25f");
    assert!(!e.contains('&') && !e.contains('=') && !e.contains(' ') && !e.contains('+'));
}

#[test]
fn keepalive_always_fits_the_idle_timeout() {
    for t in 1u32..=1000 {
        let c = FortiConfig { idle_timeout: Some(t), ..Default::default() };
        let k = c.keepalive_secs();
        assert!((5..=60).contains(&k), "{t}");
        if t >= 15 {
            assert!(3 * k <= t, "{t}");
        }
    }
}

#[test]
fn names_ignore_case() {
    assert_eq!(parse_protocol("FORTIGATE"), parse_protocol("fortigate"));
    assert_eq!(parse_protocol("CiScO"), parse_protocol("cisco"));
    assert_eq!(parse_bool("ON"), parse_bool("on"));
    assert_eq!(parse_bool("Nope"), parse_bool("nope"));
}

#[test]
fn inline_and_separate_flag_values_agree() {
    for flag in ["--host", "--port", "--user", "--username", "--protocol", "--realm", "--servercert", "--profile-dir"] {
        for value in ["443", "fortigate", "x=y", ""] {
            let a = parse_args(&strs(&[&format!("{flag}={value}")]));
            let b = parse_args(&strs(&[flag, value]));
            match (a, b) {
                (Ok((s1, p1)), Ok((s2, p2))) => {
                    assert_eq!(format!("{s1:?}"), format!("{s2:?}"));
                    assert_eq!(p1, p2);
                }
                (Err(e1), Err(e2)) => assert_eq!(e1, e2),
                _ => panic!("{flag} {value}: the two forms disagree"),
            }
        }
    }
}

#[test]
fn insecure_flag_survives_the_table() {
    assert_eq!(insecure_to_column(true), 1);
    assert_eq!(insecure_to_column(false), 0);
    assert!(insecure_from_column(insecure_to_column(true)));
    assert!(!insecure_from_column(insecure_to_column(false)));
    assert!(insecure_from_column(-3));
}

#[test]
fn table_columns_are_matched_exactly() {
    let cols = strs(&["id", "name", "realm"]);
    assert!(has_column(&cols, "realm"));
    assert!(!has_column(&cols, "real"));
    assert!(!has_column(&[], "realm"));
}

#[test]
fn helper_spawn_is_refused_off_windows() {
    let e = spawn_helper_elevated().unwrap_err();
    assert_eq!(e.to_string(), "helper spawn is Windows-only");
}

#[test]
fn single_and_double_quotes_describe_the_same_config() {
    let bodies = [
        "<sslvpn-tunnel ver='2'><ipv4><assigned-addr ipv4='10.1.2.3' /></ipv4></sslvpn-tunnel>",
        "<sslvpn-tunnel ver='2' dtls='1'><tunnel-method value='ppp' /><ipv4><dns ip='172.29.0.25' domain='corp.example' />\
         <split-tunnel-info negate='1'><addr ip='10.10.0.0' mask='255.255.0.0' /><addr ip='10.20.0.0' prefix-len='16' />\
         </split-tunnel-info><addr ip='1.2.3.4' mask='255.255.255.255' /></ipv4><idle-timeout val='300' /></sslvpn-tunnel>",
        "<a b='unterminated",
    ];
    for b in bodies {
        let b2 = b.replace('\'', "\"");
        let one = parse_config_xml(b).unwrap();
        let two = parse_config_xml(&b2).unwrap();
        assert_eq!(one, two, "{b}");
    }
    let c = parse_config_xml(&bodies[0].replace('\'', "\"")).unwrap();
    assert_eq!(c.address, Some(vpn_engine::net::Ipv4Addr::new(10, 1, 2, 3)));
    assert_eq!(c.version.as_deref(), Some("2"));
    let c = parse_config_xml(bodies[1]).unwrap();
    assert_eq!(c.exclude_routes.len(), 2);
    assert_eq!(c.dns_suffix.as_deref(), Some("corp.example"));
}
