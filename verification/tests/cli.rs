use vpn_engine::cli::{
    has_cap_net_admin, parse_args, parse_bool, parse_profile, parse_protocol, password_from_prompt,
    password_from_stdin, password_source, probe_target, profile_file_name, profile_names,
    prompt_byte, protocol_name, require_privileges, resolve_target, world_readable_warning,
    PasswordSource, Protocol, Settings, HELP_PRIVILEGES,
};

fn args(s: &[&str]) -> Vec<String> {
    s.iter().map(|x| x.to_string()).collect()
}

#[test]
fn parses_flags_and_positional_profile() {
    let (s, p) = parse_args(&args(&[
        "work", "--host", "vpn.example.com", "-p", "8443", "-u", "alice", "--protocol",
        "fortigate", "--insecure", "-v",
    ]))
    .unwrap();
    assert_eq!(p.as_deref(), Some("work"));
    assert_eq!(s.host.as_deref(), Some("vpn.example.com"));
    assert_eq!(s.port, Some(8443));
    assert_eq!(s.username.as_deref(), Some("alice"));
    assert_eq!(s.protocol, Some(Protocol::FortiGate));
    assert_eq!(s.insecure, Some(true));
    assert!(s.verbose);
}

#[test]
fn accepts_equals_form() {
    let (s, _) = parse_args(&args(&["--host=h", "--port=443", "--protocol=checkpoint"])).unwrap();
    assert_eq!(s.host.as_deref(), Some("h"));
    assert_eq!(s.port, Some(443));
    assert_eq!(s.protocol, Some(Protocol::Checkpoint));
}

#[test]
fn rejects_unknown_option_and_missing_value() {
    assert!(parse_args(&args(&["--nope"])).is_err());
    assert!(parse_args(&args(&["--host"])).is_err());
    assert!(parse_args(&args(&["a", "b"])).is_err());
}

#[test]
fn protocol_aliases_resolve() {
    for a in ["fortigate", "FortiGate", "forti", "fortinet", "forti-client"] {
        assert_eq!(parse_protocol(a).unwrap(), Protocol::FortiGate, "{a}");
    }
    assert_eq!(parse_protocol("snx").unwrap(), Protocol::Checkpoint);
    assert_eq!(parse_protocol("cisco").unwrap(), Protocol::AnyConnect);
    assert!(parse_protocol("openvpn").is_err());
}

#[test]
fn profile_parses_and_ignores_comments() {
    let s = parse_profile(
        "# gateway\n\
         host = vpn.example.com\n\
         port = 443\n\
         username = alice\n\
         protocol = fortigate   # inline comment\n\
         insecure = yes\n\
         \n",
    )
    .unwrap();
    assert_eq!(s.host.as_deref(), Some("vpn.example.com"));
    assert_eq!(s.username.as_deref(), Some("alice"));
    assert_eq!(s.protocol, Some(Protocol::FortiGate));
    assert_eq!(s.insecure, Some(true));
}

#[test]
fn profile_rejects_unknown_key_and_bad_line() {
    assert!(parse_profile("hsot = x").is_err(), "a typo must not be silently ignored");
    assert!(parse_profile("just-a-line").is_err());
}

#[test]
fn command_line_overrides_profile() {
    let mut base = parse_profile("host = from-profile\nusername = alice\nport = 443").unwrap();
    let (cli, _) = parse_args(&args(&["--host", "from-cli"])).unwrap();
    base.merge_over(cli);
    assert_eq!(base.host.as_deref(), Some("from-cli"));
    assert_eq!(base.username.as_deref(), Some("alice"), "unset flags keep the profile value");
    assert_eq!(base.port, Some(443));
}

#[test]
fn profile_name_cannot_escape_its_directory() {
    assert!(profile_file_name("../../etc/passwd").is_err());
    assert!(profile_file_name("a/b").is_err());
}

#[test]
fn bools_accept_common_spellings() {
    for t in ["1", "true", "yes", "on", "YES"] {
        assert!(parse_bool(t).unwrap(), "{t}");
    }
    for f in ["0", "false", "no", "off"] {
        assert!(!parse_bool(f).unwrap(), "{f}");
    }
    assert!(parse_bool("maybe").is_err());
}

#[test]
fn error_messages_quote_the_offending_text() {
    assert_eq!(
        parse_protocol("Open_VPN").unwrap_err(),
        "unknown protocol \"openvpn\"; expected anyconnect, checkpoint, or fortigate"
    );
    assert_eq!(parse_bool("Maybe").unwrap_err(), "expected a boolean, got \"maybe\"");
    assert_eq!(parse_args(&args(&["--nope"])).unwrap_err(), "unknown option \"--nope\"; try --help");
    assert_eq!(parse_args(&args(&["--host"])).unwrap_err(), "--host needs a value");
    assert_eq!(parse_args(&args(&["a", "b"])).unwrap_err(), "unexpected extra argument \"b\"");
    assert_eq!(parse_args(&args(&["-p", "70000"])).unwrap_err(), "invalid port \"70000\"");
    assert_eq!(parse_args(&args(&["--port=x"])).unwrap_err(), "invalid port \"x\"");
    assert_eq!(
        parse_profile("host = a\nnot a pair\n").unwrap_err(),
        "line 2: expected `key = value`, got \"not a pair\""
    );
    assert_eq!(parse_profile("hsot = x").unwrap_err(), "unknown profile key \"hsot\"");
}

#[test]
fn flags_without_values_ignore_an_inline_value_and_short_forms_do_not_split() {
    let (s, p) = parse_args(&args(&["--insecure=no", "--password-stdin", "--verbose"])).unwrap();
    assert_eq!(s.insecure, Some(true));
    assert!(s.password_stdin);
    assert!(s.verbose);
    assert_eq!(p, None);
    assert!(parse_args(&args(&["-H=x"])).is_err());
    let (s, _) = parse_args(&args(&["--username", "bob", "--realm=r", "--servercert", "AA", "--profile-dir", "/p"])).unwrap();
    assert_eq!(s.username.as_deref(), Some("bob"));
    assert_eq!(s.realm.as_deref(), Some("r"));
    assert_eq!(s.servercert.as_deref(), Some("AA"));
    assert_eq!(s.profile_dir.as_deref(), Some("/p"));
    let (s, p) = parse_args(&args(&[])).unwrap();
    assert!(s.host.is_none() && p.is_none());
}

#[test]
fn profile_keys_and_aliases() {
    let s = parse_profile("Gateway = g\nUSER = u\npassword = pw # secret\nrealm = r\ncert_sha256 = ab\ninsecure = off\r\n").unwrap();
    assert_eq!(s.host.as_deref(), Some("g"));
    assert_eq!(s.username.as_deref(), Some("u"));
    assert_eq!(s.password.as_deref(), Some("pw"));
    assert_eq!(s.realm.as_deref(), Some("r"));
    assert_eq!(s.servercert.as_deref(), Some("ab"));
    assert_eq!(s.insecure, Some(false));
    let t = parse_profile("host = a\nhost = b\n").unwrap();
    assert_eq!(t.host.as_deref(), Some("b"), "a repeated key keeps its last value");
    assert!(parse_profile("port = 99999").is_err());
    assert!(parse_profile("insecure = perhaps").is_err());
    assert!(parse_profile("").unwrap().host.is_none());
}

#[test]
fn profile_file_names() {
    assert_eq!(profile_file_name("work").unwrap(), "work.conf");
    assert!(profile_file_name("a\\b").is_err());
    assert!(profile_file_name("..").is_err());
    assert_eq!(profile_file_name("a").unwrap(), "a.conf");
}

#[test]
fn profile_listing_is_sorted_and_filtered() {
    let files = args(&["zeta.conf", ".conf", "alpha.conf", "notes.txt", "b.c.conf", "conf", "Beta.conf"]);
    assert_eq!(profile_names(&files), vec!["Beta", "alpha", "b.c", "zeta"]);
    assert!(profile_names(&[]).is_empty());
}

#[test]
fn world_readable_profiles_are_warned_about() {
    assert_eq!(world_readable_warning("/p/w.conf", 0o100600), None);
    assert_eq!(
        world_readable_warning("/p/w.conf", 0o100644).as_deref(),
        Some("yellow-vpn: warning: /p/w.conf is readable by other users (mode 644); run: chmod 600 /p/w.conf")
    );
}

#[test]
fn cap_net_admin_is_read_from_the_effective_set() {
    let with = "Name:\tx\nCapInh:\t0000000000000000\nCapEff:\t0000000000001000\nCapBnd:\t000001ffffffffff\n";
    assert!(has_cap_net_admin(with));
    let without = "CapEff:\t0000000000000400\n";
    assert!(!has_cap_net_admin(without));
    assert!(!has_cap_net_admin("Name:\tx\n"));
    assert!(!has_cap_net_admin("CapEff:\tzz\nCapEff:\tffff\n"), "only the first CapEff line counts");
    assert!(has_cap_net_admin("CapEff: 000001ffffffffff"));
}

#[test]
fn privileges_are_root_or_the_capability() {
    assert!(require_privileges(true, false).is_ok());
    assert!(require_privileges(false, true).is_ok());
    assert_eq!(require_privileges(false, false).unwrap_err(), HELP_PRIVILEGES);
}

#[test]
fn password_sources_in_order_of_precedence() {
    let mut s = Settings::default();
    s.password = Some("from-profile".into());
    match password_source(&s, Some("from-env".into()), "h", "u") {
        PasswordSource::Given(p) => assert_eq!(p, "from-env"),
        other => panic!("{other:?}"),
    }
    match password_source(&s, Some(String::new()), "h", "u") {
        PasswordSource::Given(p) => assert_eq!(p, "from-profile"),
        other => panic!("{other:?}"),
    }
    s.password = Some(String::new());
    match password_source(&s, None, "gw", "alice") {
        PasswordSource::Prompt(t) => assert_eq!(t, "Password for alice@gw: "),
        other => panic!("{other:?}"),
    }
    s.password_stdin = true;
    assert!(matches!(password_source(&s, Some("x".into()), "h", "u"), PasswordSource::Stdin));
}

#[test]
fn passwords_from_stdin_and_the_prompt() {
    assert_eq!(password_from_stdin("secret\r\n\n").unwrap(), "secret");
    assert_eq!(password_from_stdin("\n").unwrap_err(), "--password-stdin was given but stdin was empty");
    assert_eq!(password_from_prompt(b"pw").unwrap(), "pw");
    assert_eq!(password_from_prompt(b"").unwrap_err(), "empty password");
    assert_eq!(password_from_prompt(&[0xff]).unwrap_err(), "password is not valid UTF-8");
    let mut line = Vec::new();
    assert!(!prompt_byte(&mut line, b'a'));
    assert!(!prompt_byte(&mut line, b'\r'));
    assert!(prompt_byte(&mut line, b'\n'));
    assert_eq!(line, b"a".to_vec());
}

#[test]
fn targets_need_host_and_user_and_apply_defaults() {
    let mut s = Settings::default();
    assert_eq!(resolve_target(&s).unwrap_err(), "--host is required");
    s.host = Some("gw".into());
    assert_eq!(resolve_target(&s).unwrap_err(), "--user is required");
    s.username = Some("alice".into());
    s.servercert = Some("  ".into());
    let t = resolve_target(&s).unwrap();
    assert_eq!(t.port, 443);
    assert_eq!(t.protocol, Protocol::AnyConnect);
    assert!(!t.insecure);
    assert_eq!(t.realm, "");
    assert_eq!(t.servercert, None, "a blank pin is no pin");
    assert_eq!(probe_target(&s).unwrap_err(), "probe currently supports --protocol fortigate only");
    s.protocol = Some(Protocol::FortiGate);
    s.insecure = Some(true);
    let t = probe_target(&s).unwrap();
    assert_eq!(t.protocol, Protocol::FortiGate);
    assert!(t.warns_insecure());
    assert_eq!(protocol_name(t.protocol), "FortiGate SSL VPN");
    assert_eq!(protocol_name(Protocol::Checkpoint), "Check Point SNX");
}
