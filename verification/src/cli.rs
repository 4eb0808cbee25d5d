//! The command-line front end's decisions: flags and profile files, the
//! settings they produce and how the two sources combine, and the checks the
//! `connect` command makes before it touches the network.
use vstd::prelude::*;

use vstd::relations::sorted_by;
use vstd::utf8::{decode_utf8, valid_utf8};

use crate::text::{
    ascii_lower, chars_of, debug_quoted, index_in, index_of, is_lit, lower_range, opt_view,
    parse_uint, parse_uint_in, quote_debug, range_is, res_view, spec_decimal, string_of,
    string_of_range, trim, trim_in, fmt_decimal, lemma_index_of, starts_with, starts_with_in,
    lemma_str_order_total, str_le, str_le_exec, str_order,
};

verus! {

/// The wire protocol to speak.
#[derive(Debug, Clone, Copy, PartialEq, Eq, Structural)]
pub enum Protocol {
    AnyConnect,
    Checkpoint,
    FortiGate,
}

impl Default for Protocol {
    fn default() -> (r: Self)
        ensures
            r == Protocol::AnyConnect,
    {
        Protocol::AnyConnect
    }
}

/// Everything the CLI can be told, from either source. `None` means "not set
/// here", so command-line values can override profile values cleanly.
#[derive(Debug)]
pub struct Settings {
    pub host: Option<String>,
    pub port: Option<u16>,
    pub username: Option<String>,
    pub password: Option<String>,
    pub protocol: Option<Protocol>,
    pub realm: Option<String>,
    pub insecure: Option<bool>,
    pub servercert: Option<String>,
    pub verbose: bool,
    pub password_stdin: bool,
    pub profile_dir: Option<String>,
}

/// Settings as plain values.
#[verifier::ext_equal]
pub struct SettingsModel {
    pub host: Option<Seq<char>>,
    pub port: Option<u16>,
    pub username: Option<Seq<char>>,
    pub password: Option<Seq<char>>,
    pub protocol: Option<Protocol>,
    pub realm: Option<Seq<char>>,
    pub insecure: Option<bool>,
    pub servercert: Option<Seq<char>>,
    pub verbose: bool,
    pub password_stdin: bool,
    pub profile_dir: Option<Seq<char>>,
}

impl View for Settings {
    type V = SettingsModel;

    open spec fn view(&self) -> SettingsModel {
        SettingsModel {
            host: opt_view(self.host),
            port: self.port,
            username: opt_view(self.username),
            password: opt_view(self.password),
            protocol: self.protocol,
            realm: opt_view(self.realm),
            insecure: self.insecure,
            servercert: opt_view(self.servercert),
            verbose: self.verbose,
            password_stdin: self.password_stdin,
            profile_dir: opt_view(self.profile_dir),
        }
    }
}

/// Nothing set.
pub open spec fn no_settings() -> SettingsModel {
    SettingsModel {
        host: None,
        port: None,
        username: None,
        password: None,
        protocol: None,
        realm: None,
        insecure: None,
        servercert: None,
        verbose: false,
        password_stdin: false,
        profile_dir: None,
    }
}

impl Default for Settings {
    fn default() -> (r: Self)
        ensures
            r@ == no_settings(),
    {
        Settings {
            host: None,
            port: None,
            username: None,
            password: None,
            protocol: None,
            realm: None,
            insecure: None,
            servercert: None,
            verbose: false,
            password_stdin: false,
            profile_dir: None,
        }
    }
}

/// `b` if it is set, else `a`.
pub open spec fn over<T>(a: Option<T>, b: Option<T>) -> Option<T> {
    if b is Some {
        b
    } else {
        a
    }
}

/// `top` laid over `base`: every value set in `top` wins, every value it
/// leaves unset keeps the one in `base`; the switches are on if either turns
/// them on.
pub open spec fn merge(base: SettingsModel, top: SettingsModel) -> SettingsModel {
    SettingsModel {
        host: over(base.host, top.host),
        port: over(base.port, top.port),
        username: over(base.username, top.username),
        password: over(base.password, top.password),
        protocol: over(base.protocol, top.protocol),
        realm: over(base.realm, top.realm),
        insecure: over(base.insecure, top.insecure),
        servercert: over(base.servercert, top.servercert),
        verbose: base.verbose || top.verbose,
        password_stdin: base.password_stdin || top.password_stdin,
        profile_dir: over(base.profile_dir, top.profile_dir),
    }
}

impl Settings {
    /// Overlay `other` on top of `self`; set values in `other` win.
    pub fn merge_over(&mut self, other: Settings)
        ensures
            final(self)@ == merge(old(self)@, other@),
    {
        if other.host.is_some() {
            self.host = other.host;
        }
        if other.port.is_some() {
            self.port = other.port;
        }
        if other.username.is_some() {
            self.username = other.username;
        }
        if other.password.is_some() {
            self.password = other.password;
        }
        if other.protocol.is_some() {
            self.protocol = other.protocol;
        }
        if other.realm.is_some() {
            self.realm = other.realm;
        }
        if other.insecure.is_some() {
            self.insecure = other.insecure;
        }
        if other.servercert.is_some() {
            self.servercert = other.servercert;
        }
        if other.profile_dir.is_some() {
            self.profile_dir = other.profile_dir;
        }
        self.verbose = self.verbose || other.verbose;
        self.password_stdin = self.password_stdin || other.password_stdin;
    }
}

/// The text with every `-` and `_` removed.
pub open spec fn drop_dashes(s: Seq<char>) -> Seq<char>
    decreases s.len(),
{
    if s.len() == 0 {
        s
    } else if s.last() == '-' || s.last() == '_' {
        drop_dashes(s.drop_last())
    } else {
        drop_dashes(s.drop_last()).push(s.last())
    }
}

fn without_dashes(cs: &[char]) -> (r: Vec<char>)
    ensures
        r@ == drop_dashes(cs@),
{
    let mut out: Vec<char> = Vec::new();
    let mut i: usize = 0;
    while i < cs.len()
        invariant
            i <= cs@.len(),
            out@ == drop_dashes(cs@.take(i as int)),
        decreases cs.len() - i,
    {
        assert(cs@.take(i + 1).drop_last() =~= cs@.take(i as int));
        if cs[i] != '-' && cs[i] != '_' {
            out.push(cs[i]);
        }
        i = i + 1;
    }
    assert(cs@.take(i as int) =~= cs@);
    out
}

/// The protocol a name selects: case is ignored, and so are `-` and `_`.
pub open spec fn spec_parse_protocol(s: Seq<char>) -> Result<Protocol, Seq<char>> {
    let k = drop_dashes(ascii_lower(s));
    if k == "anyconnect"@ || k == "cisco"@ || k == "cstp"@ {
        Ok(Protocol::AnyConnect)
    } else if k == "checkpoint"@ || k == "snx"@ {
        Ok(Protocol::Checkpoint)
    } else if k == "fortigate"@ || k == "fortinet"@ || k == "forticlient"@ || k == "forti"@ {
        Ok(Protocol::FortiGate)
    } else {
        Err("unknown protocol "@ + debug_quoted(k) + "; expected anyconnect, checkpoint, or fortigate"@)
    }
}

/// Resolve a protocol name or alias.
pub fn parse_protocol(s: &str) -> (r: Result<Protocol, String>)
    ensures
        res_view(r) == spec_parse_protocol(s@),
{
    let cs = chars_of(s);
    let low = lower_range(cs.as_slice(), 0, cs.len());
    assert(cs@.subrange(0, cs@.len() as int) =~= cs@);
    let k = without_dashes(low.as_slice());
    let ks = k.as_slice();
    if is_lit(ks, "anyconnect") || is_lit(ks, "cisco") || is_lit(ks, "cstp") {
        Ok(Protocol::AnyConnect)
    } else if is_lit(ks, "checkpoint") || is_lit(ks, "snx") {
        Ok(Protocol::Checkpoint)
    } else if is_lit(ks, "fortigate") || is_lit(ks, "fortinet") || is_lit(ks, "forticlient")
        || is_lit(ks, "forti") {
        Ok(Protocol::FortiGate)
    } else {
        let name = string_of(ks);
        let mut m = String::from_str("unknown protocol ");
        m.append(quote_debug(name.as_str()).as_str());
        m.append("; expected anyconnect, checkpoint, or fortigate");
        Err(m)
    }
}

/// A boolean in one of its common spellings, case ignored.
pub open spec fn spec_parse_bool(s: Seq<char>) -> Result<bool, Seq<char>> {
    let k = ascii_lower(s);
    if k == "1"@ || k == "true"@ || k == "yes"@ || k == "on"@ {
        Ok(true)
    } else if k == "0"@ || k == "false"@ || k == "no"@ || k == "off"@ {
        Ok(false)
    } else {
        Err("expected a boolean, got "@ + debug_quoted(k))
    }
}

/// Parse a boolean (`1/true/yes/on`, `0/false/no/off`).
pub fn parse_bool(s: &str) -> (r: Result<bool, String>)
    ensures
        res_view(r) == spec_parse_bool(s@),
{
    let cs = chars_of(s);
    let low = lower_range(cs.as_slice(), 0, cs.len());
    assert(cs@.subrange(0, cs@.len() as int) =~= cs@);
    let ks = low.as_slice();
    if is_lit(ks, "1") || is_lit(ks, "true") || is_lit(ks, "yes") || is_lit(ks, "on") {
        Ok(true)
    } else if is_lit(ks, "0") || is_lit(ks, "false") || is_lit(ks, "no") || is_lit(ks, "off") {
        Ok(false)
    } else {
        let name = string_of(ks);
        let mut m = String::from_str("expected a boolean, got ");
        m.append(quote_debug(name.as_str()).as_str());
        Err(m)
    }
}

/// The name a protocol is shown by.
pub open spec fn spec_protocol_name(p: Protocol) -> Seq<char> {
    match p {
        Protocol::AnyConnect => "AnyConnect"@,
        Protocol::Checkpoint => "Check Point SNX"@,
        Protocol::FortiGate => "FortiGate SSL VPN"@,
    }
}

/// The name a protocol is shown by.
pub fn protocol_name(p: Protocol) -> (r: &'static str)
    ensures
        r@ == spec_protocol_name(p),
{
    match p {
        Protocol::AnyConnect => "AnyConnect",
        Protocol::Checkpoint => "Check Point SNX",
        Protocol::FortiGate => "FortiGate SSL VPN",
    }
}

/// The arguments as plain characters.
pub open spec fn strs(a: Seq<String>) -> Seq<Seq<char>> {
    a.map_values(|x: String| x@)
}

/// A flag and its inline value: an argument that starts with `--` splits at
/// its first `=` (`--flag=value`); any other argument is a flag with no
/// inline value.
pub open spec fn split_flag(a: Seq<char>) -> (Seq<char>, Option<Seq<char>>) {
    match index_of(a, '=') {
        Some(k) => if starts_with(a.take(k), "--"@) {
            (a.take(k), Some(a.skip(k + 1)))
        } else {
            (a, None)
        },
        None => (a, None),
    }
}

/// The value of the flag at `i` (its inline value, else the next argument),
/// and the index of the last argument the flag took.
pub open spec fn flag_value(
    args: Seq<Seq<char>>,
    i: int,
    inline: Option<Seq<char>>,
    name: Seq<char>,
) -> (Result<Seq<char>, Seq<char>>, int) {
    match inline {
        Some(v) => (Ok(v), i),
        None => if i < args.len() - 1 {
            (Ok(args[i + 1]), i + 1)
        } else {
            (Err(name + " needs a value"@), i + 1)
        },
    }
}

/// Where one argument leaves the parse.
pub enum ArgStep {
    /// Go on at this index with these settings and this profile name.
    Next(int, SettingsModel, Option<Seq<char>>),
    /// Stop with this message.
    Fail(Seq<char>),
}

/// A flag that takes a string value, stored by `set`.
pub open spec fn string_flag(
    args: Seq<Seq<char>>,
    i: int,
    inline: Option<Seq<char>>,
    name: Seq<char>,
    profile: Option<Seq<char>>,
    set: spec_fn(Seq<char>) -> SettingsModel,
) -> ArgStep {
    let (v, j) = flag_value(args, i, inline, name);
    match v {
        Ok(v) => ArgStep::Next(j + 1, set(v), profile),
        Err(e) => ArgStep::Fail(e),
    }
}

/// What the argument at `i` does.
pub open spec fn arg_step(
    args: Seq<Seq<char>>,
    i: int,
    s: SettingsModel,
    profile: Option<Seq<char>>,
) -> ArgStep {
    let (flag, inline) = split_flag(args[i]);
    if flag == "-H"@ || flag == "--host"@ {
        string_flag(args, i, inline, "--host"@, profile, |v| SettingsModel { host: Some(v), ..s })
    } else if flag == "-p"@ || flag == "--port"@ {
        let (v, j) = flag_value(args, i, inline, "--port"@);
        match v {
            Ok(v) => match parse_uint(v, 10, 65535) {
                Some(n) => ArgStep::Next(j + 1, SettingsModel { port: Some(n as u16), ..s }, profile),
                None => ArgStep::Fail("invalid port "@ + debug_quoted(v)),
            },
            Err(e) => ArgStep::Fail(e),
        }
    } else if flag == "-u"@ || flag == "--user"@ || flag == "--username"@ {
        string_flag(args, i, inline, "--user"@, profile, |v| SettingsModel { username: Some(v), ..s })
    } else if flag == "--protocol"@ {
        let (v, j) = flag_value(args, i, inline, "--protocol"@);
        match v {
            Ok(v) => match spec_parse_protocol(v) {
                Ok(p) => ArgStep::Next(j + 1, SettingsModel { protocol: Some(p), ..s }, profile),
                Err(e) => ArgStep::Fail(e),
            },
            Err(e) => ArgStep::Fail(e),
        }
    } else if flag == "--realm"@ {
        string_flag(args, i, inline, "--realm"@, profile, |v| SettingsModel { realm: Some(v), ..s })
    } else if flag == "--servercert"@ {
        string_flag(
            args,
            i,
            inline,
            "--servercert"@,
            profile,
            |v| SettingsModel { servercert: Some(v), ..s },
        )
    } else if flag == "--profile-dir"@ {
        string_flag(
            args,
            i,
            inline,
            "--profile-dir"@,
            profile,
            |v| SettingsModel { profile_dir: Some(v), ..s },
        )
    } else if flag == "--insecure"@ {
        ArgStep::Next(i + 1, SettingsModel { insecure: Some(true), ..s }, profile)
    } else if flag == "--password-stdin"@ {
        ArgStep::Next(i + 1, SettingsModel { password_stdin: true, ..s }, profile)
    } else if flag == "-v"@ || flag == "--verbose"@ {
        ArgStep::Next(i + 1, SettingsModel { verbose: true, ..s }, profile)
    } else if starts_with(flag, "-"@) {
        ArgStep::Fail("unknown option "@ + debug_quoted(flag) + "; try --help"@)
    } else if profile is Some {
        ArgStep::Fail("unexpected extra argument "@ + debug_quoted(flag))
    } else {
        ArgStep::Next(i + 1, s, Some(flag))
    }
}

/// The parse of the arguments from index `i` on.
pub open spec fn args_from(
    args: Seq<Seq<char>>,
    i: int,
    s: SettingsModel,
    profile: Option<Seq<char>>,
) -> Result<(SettingsModel, Option<Seq<char>>), Seq<char>>
    decreases args.len() - i,
{
    if i < 0 || i >= args.len() {
        Ok((s, profile))
    } else {
        match arg_step(args, i, s, profile) {
            ArgStep::Fail(e) => Err(e),
            ArgStep::Next(j, s2, p2) => args_from(args, j, s2, p2),
        }
    }
}

/// The settings and the positional profile name that the arguments give.
pub open spec fn spec_parse_args(args: Seq<Seq<char>>) -> Result<
    (SettingsModel, Option<Seq<char>>),
    Seq<char>,
> {
    args_from(args, 0, no_settings(), None)
}

/// A string result as plain characters.
pub open spec fn str_res(r: Result<String, String>) -> Result<Seq<char>, Seq<char>> {
    match r {
        Ok(v) => Ok(v@),
        Err(e) => Err(e@),
    }
}

/// The value of the flag at `i`, and the index of the last argument it took.
fn take_value(args: &[String], i: usize, inline: Option<String>, name: &str) -> (r: (
    Result<String, String>,
    usize,
))
    requires
        i < args@.len(),
    ensures
        ({
            let (v, j) = flag_value(strs(args@), i as int, opt_view(inline), name@);
            str_res(r.0) == v && r.1 == j
        }),
{
    match inline {
        Some(v) => (Ok(v), i),
        None => if i < args.len() - 1 {
            (Ok(args[i + 1].clone()), i + 1)
        } else {
            let mut m = String::from_str(name);
            m.append(" needs a value");
            (Err(m), i + 1)
        },
    }
}

/// Apply the argument at `i`; the index to go on at, or the failure.
fn parse_one(args: &[String], i: usize, s: &mut Settings, profile: &mut Option<String>) -> (r:
    Result<usize, String>)
    requires
        i < args@.len(),
    ensures
        match arg_step(strs(args@), i as int, old(s)@, opt_view(*old(profile))) {
            ArgStep::Fail(e) => r matches Err(x) && x@ == e,
            ArgStep::Next(j, s2, p2) => r matches Ok(k) && k == j && final(s)@ == s2 && opt_view(
                *final(profile),
            ) == p2,
        },
{
    let ghost av = strs(args@);
    let cs = chars_of(args[i].as_str());
    assert(cs@ == av[i as int]);
    assert(cs@.subrange(0, cs@.len() as int) =~= cs@);
    let f = cs.as_slice();
    let dd = chars_of("--");
    let (fend, inline): (usize, Option<String>) = match index_in(f, 0, cs.len(), '=') {
        Some(k) => {
            if starts_with_in(f, 0, k, dd.as_slice()) {
                assert(cs@.subrange(0, k as int) =~= cs@.take(k as int));
                let v = string_of_range(f, k + 1, cs.len());
                assert(v@ =~= cs@.skip(k + 1));
                (k, Some(v))
            } else {
                assert(cs@.subrange(0, k as int) =~= cs@.take(k as int));
                (cs.len(), None)
            }
        },
        None => (cs.len(), None),
    };
    assert(split_flag(av[i as int]) == (cs@.subrange(0, fend as int), opt_view(inline)));
    if range_is(f, 0, fend, "-H") || range_is(f, 0, fend, "--host") {
        let (v, j) = take_value(args, i, inline, "--host");
        match v {
            Err(e) => Err(e),
            Ok(v) => {
                s.host = Some(v);
                Ok(j + 1)
            },
        }
    } else if range_is(f, 0, fend, "-p") || range_is(f, 0, fend, "--port") {
        let (v, j) = take_value(args, i, inline, "--port");
        match v {
            Err(e) => Err(e),
            Ok(v) => {
                let vc = chars_of(v.as_str());
                assert(vc@.subrange(0, vc@.len() as int) =~= vc@);
                match parse_uint_in(vc.as_slice(), 0, vc.len(), 10, 65535) {
                    Some(n) => {
                        s.port = Some(n as u16);
                        Ok(j + 1)
                    },
                    None => {
                        let mut m = String::from_str("invalid port ");
                        m.append(quote_debug(v.as_str()).as_str());
                        Err(m)
                    },
                }
            },
        }
    } else if range_is(f, 0, fend, "-u") || range_is(f, 0, fend, "--user") || range_is(
        f,
        0,
        fend,
        "--username",
    ) {
        let (v, j) = take_value(args, i, inline, "--user");
        match v {
            Err(e) => Err(e),
            Ok(v) => {
                s.username = Some(v);
                Ok(j + 1)
            },
        }
    } else if range_is(f, 0, fend, "--protocol") {
        let (v, j) = take_value(args, i, inline, "--protocol");
        match v {
            Err(e) => Err(e),
            Ok(v) => match parse_protocol(v.as_str()) {
                Ok(p) => {
                    s.protocol = Some(p);
                    Ok(j + 1)
                },
                Err(e) => Err(e),
            },
        }
    } else if range_is(f, 0, fend, "--realm") {
        let (v, j) = take_value(args, i, inline, "--realm");
        match v {
            Err(e) => Err(e),
            Ok(v) => {
                s.realm = Some(v);
                Ok(j + 1)
            },
        }
    } else if range_is(f, 0, fend, "--servercert") {
        let (v, j) = take_value(args, i, inline, "--servercert");
        match v {
            Err(e) => Err(e),
            Ok(v) => {
                s.servercert = Some(v);
                Ok(j + 1)
            },
        }
    } else if range_is(f, 0, fend, "--profile-dir") {
        let (v, j) = take_value(args, i, inline, "--profile-dir");
        match v {
            Err(e) => Err(e),
            Ok(v) => {
                s.profile_dir = Some(v);
                Ok(j + 1)
            },
        }
    } else if range_is(f, 0, fend, "--insecure") {
        s.insecure = Some(true);
        Ok(i + 1)
    } else if range_is(f, 0, fend, "--password-stdin") {
        s.password_stdin = true;
        Ok(i + 1)
    } else if range_is(f, 0, fend, "-v") || range_is(f, 0, fend, "--verbose") {
        s.verbose = true;
        Ok(i + 1)
    } else if fend > 0 && f[0] == '-' {
        proof {
            reveal_strlit("-");
            assert(cs@.subrange(0, fend as int).take(1) =~= "-"@);
            assert(starts_with(cs@.subrange(0, fend as int), "-"@));
        }
        let flag = string_of_range(f, 0, fend);
        let mut m = String::from_str("unknown option ");
        m.append(quote_debug(flag.as_str()).as_str());
        m.append("; try --help");
        Err(m)
    } else if profile.is_some() {
        proof {
            reveal_strlit("-");
            if fend > 0 {
                assert(cs@.subrange(0, fend as int).take(1)[0] != "-"@[0]);
            }
            assert(!starts_with(cs@.subrange(0, fend as int), "-"@));
        }
        let flag = string_of_range(f, 0, fend);
        let mut m = String::from_str("unexpected extra argument ");
        m.append(quote_debug(flag.as_str()).as_str());
        Err(m)
    } else {
        proof {
            reveal_strlit("-");
            if fend > 0 {
                assert(cs@.subrange(0, fend as int).take(1)[0] != "-"@[0]);
            }
            assert(!starts_with(cs@.subrange(0, fend as int), "-"@));
        }
        *profile = Some(string_of_range(f, 0, fend));
        Ok(i + 1)
    }
}

/// Parse the flags, returning the settings and the optional positional
/// profile name. Both `--flag value` and `--flag=value` are accepted.
pub fn parse_args(args: &[String]) -> (r: Result<(Settings, Option<String>), String>)
    ensures
        match spec_parse_args(strs(args@)) {
            Ok((s, p)) => r matches Ok((x, q)) && x@ == s && opt_view(q) == p,
            Err(e) => r matches Err(x) && x@ == e,
        },
{
    let ghost av = strs(args@);
    let mut s = Settings::default();
    let mut profile: Option<String> = None;
    let mut i: usize = 0;
    while i < args.len()
        invariant
            i <= args@.len(),
            av == strs(args@),
            spec_parse_args(av) == args_from(av, i as int, s@, opt_view(profile)),
        decreases args.len() - i,
    {
        match parse_one(args, i, &mut s, &mut profile) {
            Ok(j) => {
                i = j;
            },
            Err(e) => {
                return Err(e);
            },
        }
    }
    Ok((s, profile))
}

/// The part of a profile line before its first `#`.
pub open spec fn before_hash(raw: Seq<char>) -> Seq<char> {
    match index_of(raw, '#') {
        Some(h) => raw.take(h),
        None => raw,
    }
}

/// The `key = value` entry of profile line number `n` (counting from 1):
/// the key trimmed and lower-cased, the value trimmed. Nothing for a blank
/// or comment-only line; an error for a line without `=`.
pub open spec fn line_entry(raw: Seq<char>, n: nat) -> Result<
    Option<(Seq<char>, Seq<char>)>,
    Seq<char>,
> {
    let line = trim(before_hash(raw));
    if line.len() == 0 {
        Ok(None)
    } else {
        match index_of(line, '=') {
            None => Err(
                "line "@ + spec_decimal(n) + ": expected `key = value`, got "@ + debug_quoted(line),
            ),
            Some(e) => Ok(Some((ascii_lower(trim(line.take(e))), trim(line.skip(e + 1))))),
        }
    }
}

/// Where key `k` sits among the entries.
pub open spec fn key_pos(kv: Seq<(Seq<char>, Seq<char>)>, k: Seq<char>) -> Option<int>
    decreases kv.len(),
{
    if kv.len() == 0 {
        None
    } else if kv[0].0 == k {
        Some(0)
    } else {
        match key_pos(kv.skip(1), k) {
            Some(i) => Some(i + 1),
            None => None,
        }
    }
}

/// `key_pos` finds the entry with the key, or there is none.
pub proof fn lemma_key_pos(kv: Seq<(Seq<char>, Seq<char>)>, k: Seq<char>)
    ensures
        match key_pos(kv, k) {
            Some(i) => 0 <= i < kv.len() && kv[i].0 == k && forall|j: int| 0 <= j < i ==> kv[j].0 != k,
            None => forall|j: int| 0 <= j < kv.len() ==> kv[j].0 != k,
        },
    decreases kv.len(),
{
    if kv.len() > 0 && kv[0].0 != k {
        lemma_key_pos(kv.skip(1), k);
        assert forall|j: int| 0 < j < kv.len() implies kv[j] == kv.skip(1)[j - 1] by {}
    }
}

/// A map insertion on the entries: a key already present takes the new
/// value where it stands, a new key goes to the end.
pub open spec fn kv_insert(kv: Seq<(Seq<char>, Seq<char>)>, k: Seq<char>, v: Seq<char>) -> Seq<
    (Seq<char>, Seq<char>),
> {
    match key_pos(kv, k) {
        Some(i) => kv.update(i, (k, v)),
        None => kv.push((k, v)),
    }
}

/// The entries of the profile text `s`, whose first line is line `n + 1`,
/// added to `kv`; the first malformed line stops the collection.
pub open spec fn collect_entries(s: Seq<char>, n: nat, kv: Seq<(Seq<char>, Seq<char>)>) -> Result<
    Seq<(Seq<char>, Seq<char>)>,
    Seq<char>,
>
    decreases s.len(),
{
    match index_of(s, '\n') {
        Some(i) => {
            proof {
                lemma_index_of(s, '\n');
            }
            match line_entry(s.take(i), n + 1) {
                Err(e) => Err(e),
                Ok(None) => collect_entries(s.skip(i + 1), n + 1, kv),
                Ok(Some((k, v))) => collect_entries(s.skip(i + 1), n + 1, kv_insert(kv, k, v)),
            }
        },
        None => match line_entry(s, n + 1) {
            Err(e) => Err(e),
            Ok(None) => Ok(kv),
            Ok(Some((k, v))) => Ok(kv_insert(kv, k, v)),
        },
    }
}

/// What one profile entry sets. Unknown keys are refused, so a typo does not
/// pass silently.
pub open spec fn entry_apply(k: Seq<char>, v: Seq<char>, s: SettingsModel) -> Result<
    SettingsModel,
    Seq<char>,
> {
    if k == "host"@ || k == "gateway"@ {
        Ok(SettingsModel { host: Some(v), ..s })
    } else if k == "port"@ {
        match parse_uint(v, 10, 65535) {
            Some(n) => Ok(SettingsModel { port: Some(n as u16), ..s }),
            None => Err("invalid port "@ + debug_quoted(v)),
        }
    } else if k == "username"@ || k == "user"@ {
        Ok(SettingsModel { username: Some(v), ..s })
    } else if k == "password"@ {
        Ok(SettingsModel { password: Some(v), ..s })
    } else if k == "protocol"@ {
        match spec_parse_protocol(v) {
            Ok(p) => Ok(SettingsModel { protocol: Some(p), ..s }),
            Err(e) => Err(e),
        }
    } else if k == "realm"@ {
        Ok(SettingsModel { realm: Some(v), ..s })
    } else if k == "insecure"@ {
        match spec_parse_bool(v) {
            Ok(b) => Ok(SettingsModel { insecure: Some(b), ..s }),
            Err(e) => Err(e),
        }
    } else if k == "servercert"@ || k == "cert_sha256"@ {
        Ok(SettingsModel { servercert: Some(v), ..s })
    } else {
        Err("unknown profile key "@ + debug_quoted(k))
    }
}

/// The entries applied in order; the first one refused stops.
pub open spec fn apply_entries(kv: Seq<(Seq<char>, Seq<char>)>, s: SettingsModel) -> Result<
    SettingsModel,
    Seq<char>,
>
    decreases kv.len(),
{
    if kv.len() == 0 {
        Ok(s)
    } else {
        match entry_apply(kv[0].0, kv[0].1, s) {
            Err(e) => Err(e),
            Ok(s2) => apply_entries(kv.skip(1), s2),
        }
    }
}

/// The settings a profile file gives: its `key = value` lines collected as
/// a map (a repeated key keeps its last value), then applied key by key.
pub open spec fn spec_parse_profile(text: Seq<char>) -> Result<SettingsModel, Seq<char>> {
    match collect_entries(text, 0, Seq::empty()) {
        Err(e) => Err(e),
        Ok(kv) => apply_entries(kv, no_settings()),
    }
}

/// Profile entries as plain characters.
pub open spec fn pairs(v: Seq<(String, String)>) -> Seq<(Seq<char>, Seq<char>)> {
    v.map_values(|p: (String, String)| (p.0@, p.1@))
}

/// `line_entry` of `cs[lo..hi]` as line number `n + 1`.
fn line_entry_in(cs: &[char], lo: usize, hi: usize, n: usize) -> (r: Result<
    Option<(String, String)>,
    String,
>)
    requires
        lo <= hi <= cs@.len(),
        n <= lo,
    ensures
        match line_entry(cs@.subrange(lo as int, hi as int), (n + 1) as nat) {
            Err(e) => r matches Err(x) && x@ == e,
            Ok(None) => r matches Ok(None),
            Ok(Some((k, v))) => r matches Ok(Some((x, y))) && x@ == k && y@ == v,
        },
{
    let ghost raw = cs@.subrange(lo as int, hi as int);
    let end = match index_in(cs, lo, hi, '#') {
        Some(h) => {
            assert(raw.take(h - lo) =~= cs@.subrange(lo as int, h as int));
            h
        },
        None => hi,
    };
    assert(before_hash(raw) == cs@.subrange(lo as int, end as int));
    let (a, b) = trim_in(cs, lo, end);
    if a == b {
        return Ok(None);
    }
    let ghost line = cs@.subrange(a as int, b as int);
    match index_in(cs, a, b, '=') {
        None => {
            let mut m = String::from_str("line ");
            m.append(fmt_decimal((n + 1) as u64).as_str());
            m.append(": expected `key = value`, got ");
            let l = string_of_range(cs, a, b);
            m.append(quote_debug(l.as_str()).as_str());
            Err(m)
        },
        Some(e) => {
            assert(line.take(e - a) =~= cs@.subrange(a as int, e as int));
            assert(line.skip(e - a + 1) =~= cs@.subrange(e + 1, b as int));
            let (ka, kb) = trim_in(cs, a, e);
            let key = lower_range(cs, ka, kb);
            let (va, vb) = trim_in(cs, e + 1, b);
            Ok(Some((string_of(key.as_slice()), string_of_range(cs, va, vb))))
        },
    }
}

/// Insert `(k, v)` as `kv_insert` does.
fn insert_entry(kv: &mut Vec<(String, String)>, k: String, v: String)
    ensures
        pairs(final(kv)@) == kv_insert(pairs(old(kv)@), k@, v@),
{
    proof {
        lemma_key_pos(pairs(kv@), k@);
    }
    let ghost before = pairs(kv@);
    let mut i: usize = 0;
    while i < kv.len()
        invariant
            i <= kv@.len(),
            kv@ == old(kv)@,
            before == pairs(kv@),
            forall|j: int| 0 <= j < i ==> before[j].0 != k@,
        decreases kv.len() - i,
    {
        if crate::text::str_eq(kv[i].0.as_str(), k.as_str()) {
            assert(before[i as int] == (kv@[i as int].0@, kv@[i as int].1@));
            proof {
                lemma_key_pos(before, k@);
            }
            assert(key_pos(before, k@) == Some(i as int));
            kv.set(i, (k, v));
            assert(pairs(kv@) =~= before.update(i as int, (k@, v@)));
            return;
        }
        i = i + 1;
    }
    proof {
        lemma_key_pos(before, k@);
    }
    assert(key_pos(before, k@) is None);
    kv.push((k, v));
    assert(pairs(kv@) =~= before.push((k@, v@)));
}

/// Apply one profile entry as `entry_apply` does.
fn apply_entry(s: &mut Settings, k: &str, v: String) -> (r: Result<(), String>)
    ensures
        match entry_apply(k@, v@, old(s)@) {
            Err(e) => r matches Err(x) && x@ == e,
            Ok(s2) => r is Ok && final(s)@ == s2,
        },
{
    let kc = chars_of(k);
    let ks = kc.as_slice();
    if is_lit(ks, "host") || is_lit(ks, "gateway") {
        s.host = Some(v);
        Ok(())
    } else if is_lit(ks, "port") {
        let vc = chars_of(v.as_str());
        assert(vc@.subrange(0, vc@.len() as int) =~= vc@);
        match parse_uint_in(vc.as_slice(), 0, vc.len(), 10, 65535) {
            Some(n) => {
                s.port = Some(n as u16);
                Ok(())
            },
            None => {
                let mut m = String::from_str("invalid port ");
                m.append(quote_debug(v.as_str()).as_str());
                Err(m)
            },
        }
    } else if is_lit(ks, "username") || is_lit(ks, "user") {
        s.username = Some(v);
        Ok(())
    } else if is_lit(ks, "password") {
        s.password = Some(v);
        Ok(())
    } else if is_lit(ks, "protocol") {
        match parse_protocol(v.as_str()) {
            Ok(p) => {
                s.protocol = Some(p);
                Ok(())
            },
            Err(e) => Err(e),
        }
    } else if is_lit(ks, "realm") {
        s.realm = Some(v);
        Ok(())
    } else if is_lit(ks, "insecure") {
        match parse_bool(v.as_str()) {
            Ok(b) => {
                s.insecure = Some(b);
                Ok(())
            },
            Err(e) => Err(e),
        }
    } else if is_lit(ks, "servercert") || is_lit(ks, "cert_sha256") {
        s.servercert = Some(v);
        Ok(())
    } else {
        let mut m = String::from_str("unknown profile key ");
        m.append(quote_debug(k).as_str());
        Err(m)
    }
}

/// Parse a `key = value` profile file; `#` starts a comment. Unknown keys
/// and lines without `=` are reported rather than ignored.
pub fn parse_profile(text: &str) -> (r: Result<Settings, String>)
    ensures
        match spec_parse_profile(text@) {
            Ok(s) => r matches Ok(x) && x@ == s,
            Err(e) => r matches Err(x) && x@ == e,
        },
{
    let cs = chars_of(text);
    let mut kv: Vec<(String, String)> = Vec::new();
    let mut pos: usize = 0;
    let mut n: usize = 0;
    assert(cs@.skip(0) =~= cs@);
    assert(pairs(kv@) =~= Seq::<(Seq<char>, Seq<char>)>::empty());
    loop
        invariant_except_break
            collect_entries(text@, 0, Seq::empty()) == collect_entries(
                cs@.skip(pos as int),
                n as nat,
                pairs(kv@),
            ),
        invariant
            pos <= cs@.len(),
            n <= pos,
            cs@ == text@,
        ensures
            collect_entries(text@, 0, Seq::empty()) == Ok::<_, Seq<char>>(pairs(kv@)),
        decreases cs.len() - pos,
    {
        let ghost rest = cs@.skip(pos as int);
        assert(rest =~= cs@.subrange(pos as int, cs@.len() as int));
        match index_in(cs.as_slice(), pos, cs.len(), '\n') {
            Some(i) => {
                assert(rest.take(i - pos) =~= cs@.subrange(pos as int, i as int));
                assert(rest.skip(i - pos + 1) =~= cs@.skip(i + 1));
                match line_entry_in(cs.as_slice(), pos, i, n) {
                    Err(e) => {
                        return Err(e);
                    },
                    Ok(None) => {},
                    Ok(Some((k, v))) => {
                        insert_entry(&mut kv, k, v);
                    },
                }
                pos = i + 1;
                n = n + 1;
            },
            None => {
                match line_entry_in(cs.as_slice(), pos, cs.len(), n) {
                    Err(e) => {
                        return Err(e);
                    },
                    Ok(None) => {},
                    Ok(Some((k, v))) => {
                        insert_entry(&mut kv, k, v);
                    },
                }
                break ;
            },
        }
    }
    let all = kv;
    let mut s = Settings::default();
    let mut j: usize = 0;
    assert(pairs(all@).skip(0) =~= pairs(all@));
    while j < all.len()
        invariant
            j <= all@.len(),
            collect_entries(text@, 0, Seq::empty()) == Ok::<_, Seq<char>>(pairs(all@)),
            apply_entries(pairs(all@), no_settings()) == apply_entries(
                pairs(all@).skip(j as int),
                s@,
            ),
        decreases all.len() - j,
    {
        let ghost tail = pairs(all@).skip(j as int);
        assert(tail.skip(1) =~= pairs(all@).skip(j + 1));
        let k = all[j].0.as_str();
        let v = all[j].1.clone();
        match apply_entry(&mut s, k, v) {
            Err(e) => {
                return Err(e);
            },
            Ok(()) => {},
        }
        j = j + 1;
    }
    Ok(s)
}

/// Whether position `j` of a profile name holds a path separator or starts
/// a `..`.
pub open spec fn bad_at(name: Seq<char>, j: int) -> bool {
    name[j] == '/' || name[j] == '\\' || (j + 1 < name.len() && name[j] == '.' && name[j + 1]
        == '.')
}

/// Whether a profile name could reach outside the profile directory: it
/// holds `/`, `\` or `..`.
pub open spec fn escapes_dir(name: Seq<char>) -> bool {
    exists|j: int| 0 <= j < name.len() && #[trigger] bad_at(name, j)
}

/// The file name of profile `name`: `<name>.conf`, unless the name holds a
/// path separator or `..`.
pub fn profile_file_name(name: &str) -> (r: Result<String, String>)
    ensures
        escapes_dir(name@) ==> (r matches Err(e) && e@ == "invalid profile name "@ + debug_quoted(
            name@,
        )),
        !escapes_dir(name@) ==> (r matches Ok(f) && f@ == name@ + ".conf"@),
{
    let cs = chars_of(name);
    let mut bad = false;
    let mut i: usize = 0;
    while i < cs.len()
        invariant
            i <= cs@.len(),
            cs@ == name@,
            bad == exists|j: int| 0 <= j < i && #[trigger] bad_at(cs@, j),
        decreases cs.len() - i,
    {
        if cs[i] == '/' || cs[i] == '\\' || (i + 1 < cs.len() && cs[i] == '.' && cs[i + 1] == '.') {
            assert(bad_at(cs@, i as int));
            bad = true;
        } else {
            assert(!bad_at(cs@, i as int));
        }
        i = i + 1;
    }
    if bad {
        let mut m = String::from_str("invalid profile name ");
        m.append(quote_debug(name).as_str());
        Err(m)
    } else {
        let mut f = String::from_str(name);
        f.append(".conf");
        Ok(f)
    }
}

/// The warning owed for a profile file whose permission bits are `mode`:
/// one when anyone but the owner may read or write it, showing the mode's
/// permission bits in octal.
pub fn world_readable_warning(path: &str, mode: u32) -> (r: Option<String>)
    ensures
        mode & 0o077 == 0 ==> r is None,
        mode & 0o077 != 0 ==> (r matches Some(w) && w@ == "yellow-vpn: warning: "@ + path@
            + " is readable by other users (mode "@ + crate::text::spec_digits(
            (mode & 0o777) as nat,
            8,
            false,
        ) + "); run: chmod 600 "@ + path@),
{
    if mode & 0o077 == 0 {
        return None;
    }
    let mut w = String::from_str("yellow-vpn: warning: ");
    w.append(path);
    w.append(" is readable by other users (mode ");
    w.append(crate::text::fmt_octal((mode & 0o777) as u64).as_str());
    w.append("); run: chmod 600 ");
    w.append(path);
    Some(w)
}

/// The effective capability set in a `/proc/<pid>/status` text: the hex
/// number after `CapEff:` on the first line that starts with it.
pub open spec fn cap_eff(status: Seq<char>) -> Option<u64>
    decreases status.len(),
{
    let line = match index_of(status, '\n') {
        Some(i) => status.take(i),
        None => status,
    };
    if starts_with(line, "CapEff:"@) {
        match parse_uint(trim(line.skip(7)), 16, 0xffff_ffff_ffff_ffff) {
            Some(v) => Some(v as u64),
            None => None,
        }
    } else {
        match index_of(status, '\n') {
            Some(i) => {
                proof {
                    lemma_index_of(status, '\n');
                }
                cap_eff(status.skip(i + 1))
            },
            None => None,
        }
    }
}

/// Whether the effective capabilities in a process status text include
/// `CAP_NET_ADMIN` (capability 12). A status without a readable `CapEff:`
/// line counts as no.
pub fn has_cap_net_admin(status: &str) -> (r: bool)
    ensures
        r == (cap_eff(status@) matches Some(c) && c & 0x1000 != 0),
{
    let cs = chars_of(status);
    let pat = chars_of("CapEff:");
    proof {
        reveal_strlit("CapEff:");
    }
    let mut pos: usize = 0;
    assert(cs@.skip(0) =~= cs@);
    loop
        invariant
            pos <= cs@.len(),
            cs@ == status@,
            pat@ == "CapEff:"@,
            pat@.len() == 7,
            cap_eff(status@) == cap_eff(cs@.skip(pos as int)),
        decreases cs.len() - pos,
    {
        let ghost rest = cs@.skip(pos as int);
        assert(rest =~= cs@.subrange(pos as int, cs@.len() as int));
        let nl = index_in(cs.as_slice(), pos, cs.len(), '\n');
        let end = match nl {
            Some(i) => {
                assert(rest.take(i - pos) =~= cs@.subrange(pos as int, i as int));
                i
            },
            None => cs.len(),
        };
        if starts_with_in(cs.as_slice(), pos, end, pat.as_slice()) {
            let ghost line = cs@.subrange(pos as int, end as int);
            assert(line.skip(7) =~= cs@.subrange(pos + 7, end as int));
            let (a, b) = trim_in(cs.as_slice(), pos + 7, end);
            let caps = parse_uint_in(cs.as_slice(), a, b, 16, 0xffff_ffff_ffff_ffff);
            return match caps {
                Some(c) => c & 0x1000 != 0,
                None => false,
            };
        }
        match nl {
            Some(i) => {
                assert(rest.skip(i - pos + 1) =~= cs@.skip(i + 1));
                pos = i + 1;
            },
            None => {
                return false;
            },
        }
    }
}

/// What the CLI says when it lacks the privileges to create the TUN device
/// and install routes.
pub const HELP_PRIVILEGES: &'static str = "needs CAP_NET_ADMIN \u{2014} the CLI creates the TUN device and installs routes itself.

Either run it with sudo (keep -E so $YELLOW_VPN_PASSWORD survives):
    sudo -E yellow-vpn connect ...

or grant the capability once so no sudo is needed afterwards:
    sudo setcap cap_net_admin+ep $(command -v yellow-vpn)";

/// The privilege check before `connect`: root, or `CAP_NET_ADMIN` alone, is
/// enough.
pub fn require_privileges(is_root: bool, cap_net_admin: bool) -> (r: Result<(), String>)
    ensures
        (is_root || cap_net_admin) ==> r is Ok,
        !(is_root || cap_net_admin) ==> (r matches Err(e) && e@ == HELP_PRIVILEGES@),
{
    if is_root || cap_net_admin {
        Ok(())
    } else {
        Err(String::from_str(HELP_PRIVILEGES))
    }
}

/// The text without its trailing `\r` and `\n` characters.
pub open spec fn strip_eol(s: Seq<char>) -> Seq<char>
    decreases s.len(),
{
    if s.len() > 0 && (s.last() == '\r' || s.last() == '\n') {
        strip_eol(s.drop_last())
    } else {
        s
    }
}

/// The password read from standard input: the text without its trailing
/// line ending, which must leave something.
pub fn password_from_stdin(buf: &str) -> (r: Result<String, String>)
    ensures
        strip_eol(buf@).len() == 0 ==> (r matches Err(e) && e@
            == "--password-stdin was given but stdin was empty"@),
        strip_eol(buf@).len() > 0 ==> (r matches Ok(p) && p@ == strip_eol(buf@)),
{
    let cs = chars_of(buf);
    let mut end = cs.len();
    assert(cs@.subrange(0, end as int) =~= cs@);
    while end > 0 && (cs[end - 1] == '\r' || cs[end - 1] == '\n')
        invariant
            end <= cs@.len(),
            cs@ == buf@,
            strip_eol(buf@) == strip_eol(cs@.subrange(0, end as int)),
        decreases end,
    {
        assert(cs@.subrange(0, end as int).drop_last() =~= cs@.subrange(0, end - 1));
        end = end - 1;
    }
    if end == 0 {
        Err(String::from_str("--password-stdin was given but stdin was empty"))
    } else {
        Ok(string_of_range(cs.as_slice(), 0, end))
    }
}

/// Where the password comes from, in order of precedence.
#[derive(Debug)]
pub enum PasswordSource {
    /// Read it from standard input.
    Stdin,
    /// This one was given (in the environment or the profile).
    Given(String),
    /// Prompt on the terminal with this text.
    Prompt(String),
}

/// The password's source: `--password-stdin`, else a non-empty
/// `$YELLOW_VPN_PASSWORD` (`env`), else a non-empty profile password, else a
/// prompt naming the account.
pub fn password_source(s: &Settings, env: Option<String>, host: &str, user: &str) -> (r:
    PasswordSource)
    ensures
        s.password_stdin ==> r is Stdin,
        !s.password_stdin && (env matches Some(e) && e@.len() > 0) ==> (r matches PasswordSource::Given(
            p,
        ) && opt_view(env) == Some(p@)),
        !s.password_stdin && !(env matches Some(e) && e@.len() > 0) && (s.password matches Some(q)
            && q@.len() > 0) ==> (r matches PasswordSource::Given(p) && opt_view(s.password) == Some(
            p@,
        )),
        !s.password_stdin && !(env matches Some(e) && e@.len() > 0) && !(s.password matches Some(q)
            && q@.len() > 0) ==> (r matches PasswordSource::Prompt(t) && t@ == "Password for "@
            + user@ + "@"@ + host@ + ": "@),
{
    if s.password_stdin {
        return PasswordSource::Stdin;
    }
    match env {
        Some(e) => {
            if e.unicode_len() > 0 {
                return PasswordSource::Given(e);
            }
        },
        None => {},
    }
    match &s.password {
        Some(p) => {
            if p.unicode_len() > 0 {
                return PasswordSource::Given(p.clone());
            }
        },
        None => {},
    }
    let mut t = String::from_str("Password for ");
    t.append(user);
    t.append("@");
    t.append(host);
    t.append(": ");
    PasswordSource::Prompt(t)
}

/// One byte typed at the password prompt: a line feed ends the line, a
/// carriage return is dropped, anything else is kept. Whether the line is
/// complete.
pub fn prompt_byte(line: &mut Vec<u8>, b: u8) -> (done: bool)
    ensures
        done == (b == 10),
        (b == 10 || b == 13) ==> final(line)@ == old(line)@,
        !(b == 10 || b == 13) ==> final(line)@ == old(line)@.push(b),
{
    if b == 10 {
        true
    } else if b == 13 {
        false
    } else {
        line.push(b);
        false
    }
}

/// The password typed at the prompt: it must be UTF-8 and not empty.
pub fn password_from_prompt(line: &[u8]) -> (r: Result<String, String>)
    ensures
        !valid_utf8(line@) ==> (r matches Err(e) && e@ == "password is not valid UTF-8"@),
        valid_utf8(line@) && decode_utf8(line@).len() == 0 ==> (r matches Err(e) && e@
            == "empty password"@),
        valid_utf8(line@) && decode_utf8(line@).len() > 0 ==> (r matches Ok(p) && p@ == decode_utf8(
            line@,
        )),
{
    match crate::text::decode_utf8_exact(line) {
        None => Err(String::from_str("password is not valid UTF-8")),
        Some(p) => {
            if p.unicode_len() == 0 {
                Err(String::from_str("empty password"))
            } else {
                Ok(p)
            }
        },
    }
}

/// Where and as whom to connect, with every default applied.
#[derive(Debug)]
pub struct Target {
    pub host: String,
    pub username: String,
    pub port: u16,
    pub protocol: Protocol,
    pub insecure: bool,
    pub realm: String,
    /// The certificate pin, when one that is not blank was given.
    pub servercert: Option<String>,
}

impl Target {
    /// Whether certificate checks are off with no pin to stand in for them,
    /// which earns a warning.
    pub fn warns_insecure(&self) -> (r: bool)
        ensures
            r == (self.insecure && self.servercert is None),
    {
        self.insecure && self.servercert.is_none()
    }
}

/// The pin a `servercert` setting gives: the value, unless it is blank.
pub open spec fn spec_pin(c: Option<Seq<char>>) -> Option<Seq<char>> {
    match c {
        Some(v) => if trim(v).len() > 0 {
            Some(v)
        } else {
            None
        },
        None => None,
    }
}

/// The connection target the settings describe: the host and the user are
/// required; the port defaults to 443, the protocol to AnyConnect,
/// `insecure` to off and the realm to the default (empty) one.
pub fn resolve_target(s: &Settings) -> (r: Result<Target, String>)
    ensures
        s.host is None ==> (r matches Err(e) && e@ == "--host is required"@),
        s.host is Some && s.username is None ==> (r matches Err(e) && e@ == "--user is required"@),
        s.host is Some && s.username is Some ==> (r matches Ok(t) && Some(t.host@) == s@.host && Some(
            t.username@,
        ) == s@.username && t.port == (match s.port {
            Some(p) => p,
            None => 443,
        }) && t.protocol == (match s.protocol {
            Some(p) => p,
            None => Protocol::AnyConnect,
        }) && t.insecure == (s.insecure == Some(true)) && t.realm@ == (match s@.realm {
            Some(x) => x,
            None => Seq::empty(),
        }) && opt_view(t.servercert) == spec_pin(s@.servercert)),
{
    let host = match &s.host {
        Some(h) => h.clone(),
        None => {
            return Err(String::from_str("--host is required"));
        },
    };
    let username = match &s.username {
        Some(u) => u.clone(),
        None => {
            return Err(String::from_str("--user is required"));
        },
    };
    let port = match s.port {
        Some(p) => p,
        None => 443,
    };
    let protocol = match s.protocol {
        Some(p) => p,
        None => Protocol::default(),
    };
    let insecure = match s.insecure {
        Some(b) => b,
        None => false,
    };
    let realm = match &s.realm {
        Some(x) => x.clone(),
        None => String::new(),
    };
    let servercert = match &s.servercert {
        Some(c) => {
            let cs = chars_of(c.as_str());
            let (a, b) = trim_in(cs.as_slice(), 0, cs.len());
            assert(cs@.subrange(0, cs@.len() as int) =~= cs@);
            if a < b {
                Some(c.clone())
            } else {
                None
            }
        },
        None => None,
    };
    Ok(Target { host, username, port, protocol, insecure, realm, servercert })
}

/// The target of `probe`, which speaks FortiGate only.
pub fn probe_target(s: &Settings) -> (r: Result<Target, String>)
    ensures
        s.host is None ==> (r matches Err(e) && e@ == "--host is required"@),
        s.host is Some && s.username is None ==> (r matches Err(e) && e@ == "--user is required"@),
        s.host is Some && s.username is Some && s.protocol != Some(Protocol::FortiGate) ==> (r matches Err(
            e,
        ) && e@ == "probe currently supports --protocol fortigate only"@),
        s.host is Some && s.username is Some && s.protocol == Some(Protocol::FortiGate) ==> (r matches Ok(
            t,
        ) && Some(t.host@) == s@.host && Some(t.username@) == s@.username && t.protocol
            == Protocol::FortiGate && t.port == (match s.port {
            Some(p) => p,
            None => 443,
        })),
{
    let t = match resolve_target(s) {
        Ok(t) => t,
        Err(e) => {
            return Err(e);
        },
    };
    match t.protocol {
        Protocol::FortiGate => Ok(t),
        _ => Err(String::from_str("probe currently supports --protocol fortigate only")),
    }
}

/// Protocol names and booleans are read without regard to case:
/// lower-casing the text first changes nothing.
pub proof fn lemma_names_ignore_case(s: Seq<char>)
    ensures
        spec_parse_protocol(ascii_lower(s)) == spec_parse_protocol(s),
        spec_parse_bool(ascii_lower(s)) == spec_parse_bool(s),
{
    assert(ascii_lower(ascii_lower(s)) =~= ascii_lower(s));
}

/// The flags that take a value.
pub open spec fn value_flag(f: Seq<char>) -> bool {
    f == "--host"@ || f == "--port"@ || f == "--user"@ || f == "--username"@ || f == "--protocol"@
        || f == "--realm"@ || f == "--servercert"@ || f == "--profile-dir"@
}

/// `--flag=value` means what `--flag value` means, for every flag that takes
/// a value.
pub proof fn lemma_inline_value_form(f: Seq<char>, v: Seq<char>)
    requires
        value_flag(f),
    ensures
        spec_parse_args(seq![f + "="@ + v]) == spec_parse_args(seq![f, v]),
{
    reveal_strlit("=");
    reveal_strlit("--");
    reveal_strlit("-");
    reveal_strlit("-H");
    reveal_strlit("--host");
    reveal_strlit("-p");
    reveal_strlit("--port");
    reveal_strlit("-u");
    reveal_strlit("--user");
    reveal_strlit("--username");
    reveal_strlit("--protocol");
    reveal_strlit("--realm");
    reveal_strlit("--servercert");
    reveal_strlit("--profile-dir");
    reveal_strlit("--insecure");
    reveal_strlit("--password-stdin");
    reveal_strlit("-v");
    reveal_strlit("--verbose");
    let a = f + "="@ + v;
    assert(forall|k: int| 0 <= k < f.len() ==> f[k] != '=');
    lemma_index_of(a, '=');
    lemma_index_of(f, '=');
    assert(a[f.len() as int] == '=');
    assert(index_of(a, '=') == Some(f.len() as int));
    assert(index_of(f, '=') is None);
    assert(a.take(f.len() as int) =~= f);
    assert(a.skip(f.len() as int + 1) =~= v);
    assert(f.take(2) =~= "--"@);
    assert(split_flag(a) == (f, Some(v)));
    assert(split_flag(f) == (f, None::<Seq<char>>));
    assert(seq![f + "="@ + v][0] == a);
    assert(seq![f, v][0] == f);
    assert(seq![f, v][1] == v);
    reveal_with_fuel(args_from, 3);
    let one = seq![f + "="@ + v];
    let two = seq![f, v];
    assert(flag_value(one, 0, Some(v), f) == (Ok::<_, Seq<char>>(v), 0int));
    assert(flag_value(two, 0, None, f) == (Ok::<_, Seq<char>>(v), 1int));
}

proof fn lemma_plain_flag(f: Seq<char>)
    requires
        forall|k: int| 0 <= k < f.len() ==> f[k] != '=',
    ensures
        split_flag(f) == (f, None::<Seq<char>>),
{
    lemma_index_of(f, '=');
}

/// `-H v` means `--host v`, which sets the host to `v`.
pub proof fn lemma_short_host_flag(v: Seq<char>)
    ensures
        spec_parse_args(seq!["-H"@, v]) == spec_parse_args(seq!["--host"@, v]),
        spec_parse_args(seq!["--host"@, v]) == Ok::<_, Seq<char>>(
            (SettingsModel { host: Some(v), ..no_settings() }, None::<Seq<char>>),
        ),
{
    reveal_strlit("-H");
    reveal_strlit("--host");
    reveal_with_fuel(args_from, 3);
    lemma_plain_flag("-H"@);
    lemma_plain_flag("--host"@);
    assert(seq!["-H"@, v][0] == "-H"@ && seq!["-H"@, v][1] == v);
    assert(seq!["--host"@, v][0] == "--host"@ && seq!["--host"@, v][1] == v);
}

/// `-u v` means `--user v`, which sets the user name to `v`.
pub proof fn lemma_short_user_flag(v: Seq<char>)
    ensures
        spec_parse_args(seq!["-u"@, v]) == spec_parse_args(seq!["--user"@, v]),
        spec_parse_args(seq!["--user"@, v]) == Ok::<_, Seq<char>>(
            (SettingsModel { username: Some(v), ..no_settings() }, None::<Seq<char>>),
        ),
{
    reveal_strlit("-H");
    reveal_strlit("--host");
    reveal_strlit("-p");
    reveal_strlit("--port");
    reveal_strlit("-u");
    reveal_strlit("--user");
    reveal_with_fuel(args_from, 3);
    lemma_plain_flag("-u"@);
    lemma_plain_flag("--user"@);
    // Each flag differs from the ones tried before it: in length, or in a
    // character.
    assert("-u"@[1] != "-H"@[1] && "-u"@[1] != "-p"@[1]);
    assert("--user"@[2] != "--host"@[2] && "--user"@[2] != "--port"@[2]);
    assert(seq!["-u"@, v][0] == "-u"@ && seq!["-u"@, v][1] == v);
    assert(seq!["--user"@, v][0] == "--user"@ && seq!["--user"@, v][1] == v);
}

/// `-p v` means `--port v`, which sets the port that `v` spells in decimal.
pub proof fn lemma_short_port_flag(v: Seq<char>)
    ensures
        spec_parse_args(seq!["-p"@, v]) == spec_parse_args(seq!["--port"@, v]),
        parse_uint(v, 10, 65535) matches Some(n) ==> spec_parse_args(seq!["--port"@, v])
            == Ok::<_, Seq<char>>(
            (SettingsModel { port: Some(n as u16), ..no_settings() }, None::<Seq<char>>),
        ),
{
    reveal_strlit("-H");
    reveal_strlit("--host");
    reveal_strlit("-p");
    reveal_strlit("--port");
    reveal_with_fuel(args_from, 3);
    lemma_plain_flag("-p"@);
    lemma_plain_flag("--port"@);
    assert("-p"@[1] != "-H"@[1]);
    assert("--port"@[2] != "--host"@[2]);
    assert(seq!["-p"@, v][0] == "-p"@ && seq!["-p"@, v][1] == v);
    assert(seq!["--port"@, v][0] == "--port"@ && seq!["--port"@, v][1] == v);
}

/// The last position of `c` in `s`.
pub open spec fn last_index(s: Seq<char>, c: char) -> Option<int>
    decreases s.len(),
{
    if s.len() == 0 {
        None
    } else if s.last() == c {
        Some(s.len() - 1)
    } else {
        last_index(s.drop_last(), c)
    }
}

/// The profile that a directory entry named `name` holds: the name without
/// its extension, when that extension is `conf` (a leading dot does not start
/// an extension).
pub open spec fn conf_stem(name: Seq<char>) -> Option<Seq<char>> {
    match last_index(name, '.') {
        Some(k) => if k > 0 && name.skip(k + 1) == "conf"@ {
            Some(name.take(k))
        } else {
            None
        },
        None => None,
    }
}

/// The profiles among directory entries, in the entries' order.
pub open spec fn conf_stems(files: Seq<Seq<char>>) -> Seq<Seq<char>>
    decreases files.len(),
{
    if files.len() == 0 {
        Seq::empty()
    } else {
        let s = conf_stems(files.drop_last());
        match conf_stem(files.last()) {
            Some(t) => s.push(t),
            None => s,
        }
    }
}

/// The profile names among the entries of the profile directory, sorted.
pub open spec fn spec_profile_names(files: Seq<Seq<char>>) -> Seq<Seq<char>> {
    conf_stems(files).sort_by(str_order())
}

/// `conf_stem` of a file name.
fn stem_of(name: &str) -> (r: Option<String>)
    ensures
        opt_view(r) == conf_stem(name@),
{
    let cs = chars_of(name);
    let mut k = cs.len();
    assert(cs@.take(k as int) =~= cs@);
    while k > 0 && cs[k - 1] != '.'
        invariant
            k <= cs@.len(),
            cs@ == name@,
            last_index(name@, '.') == last_index(cs@.take(k as int), '.'),
        decreases k,
    {
        assert(cs@.take(k as int).drop_last() =~= cs@.take(k - 1));
        k = k - 1;
    }
    if k <= 1 {
        proof {
            if k == 1 {
                assert(cs@.take(1).last() == '.');
            }
        }
        return None;
    }
    assert(cs@.take(k as int).last() == '.');
    let d = k - 1;
    assert(cs@.subrange(k as int, cs@.len() as int) =~= cs@.skip(k as int));
    if range_is(cs.as_slice(), k, cs.len(), "conf") {
        assert(cs@.subrange(0, d as int) =~= cs@.take(d as int));
        Some(string_of_range(cs.as_slice(), 0, d))
    } else {
        None
    }
}

/// Insert `x` into the sorted list `out` where it keeps the order.
fn insert_sorted(out: &mut Vec<String>, x: String)
    requires
        sorted_by(strs(old(out)@), str_order()),
    ensures
        sorted_by(strs(final(out)@), str_order()),
        strs(final(out)@).to_multiset() == strs(old(out)@).to_multiset().insert(x@),
{
    proof {
        lemma_str_order_total();
    }
    let ghost old_s = strs(out@);
    let mut k: usize = 0;
    while k < out.len() && str_le_exec(out[k].as_str(), x.as_str())
        invariant
            k <= out@.len(),
            old_s == strs(out@),
            forall|j: int| 0 <= j < k ==> str_le(#[trigger] old_s[j], x@),
        decreases out.len() - k,
    {
        k = k + 1;
    }
    let ghost xv = x@;
    out.insert(k, x);
    let ghost new_s = strs(out@);
    assert(new_s =~= old_s.insert(k as int, xv));
    proof {
        lemma_str_order_total();
        let r = str_order();
        assert(forall|a: Seq<char>, b: Seq<char>| r(a, b) == str_le(a, b));
        if k < old_s.len() {
            assert(!str_le(old_s[k as int], xv));
            assert(r(old_s[k as int], xv) || r(xv, old_s[k as int]));
        }
        assert forall|i: int, j: int| 0 <= i < j < new_s.len() implies #[trigger] r(new_s[i], new_s[j]) by {
            if j < k {
                assert(r(old_s[i], old_s[j]));
            } else if j == k {
                assert(str_le(old_s[i], xv));
            } else if i < k {
                assert(r(old_s[i], old_s[j - 1]));
            } else if i == k {
                assert(r(xv, old_s[k as int]));
                if j - 1 > k {
                    assert(r(old_s[k as int], old_s[j - 1]));
                }
            } else {
                assert(r(old_s[i - 1], old_s[j - 1]));
            }
        }
        vstd::seq_lib::to_multiset_insert(old_s, k as int, xv);
    }
}

/// The profile names among the entries of the profile directory: each entry
/// named `<name>.conf`, as `<name>`, in `str` order.
pub fn profile_names(files: &[String]) -> (r: Vec<String>)
    ensures
        strs(r@) == spec_profile_names(strs(files@)),
{
    let ghost fs = strs(files@);
    let mut out: Vec<String> = Vec::new();
    let mut i: usize = 0;
    assert(fs.take(0) =~= Seq::<Seq<char>>::empty());
    assert(strs(out@) =~= Seq::<Seq<char>>::empty());
    while i < files.len()
        invariant
            i <= files@.len(),
            fs == strs(files@),
            sorted_by(strs(out@), str_order()),
            strs(out@).to_multiset() == conf_stems(fs.take(i as int)).to_multiset(),
        decreases files.len() - i,
    {
        assert(fs.take(i + 1).drop_last() =~= fs.take(i as int));
        assert(fs.take(i + 1).last() == files@[i as int]@);
        match stem_of(files[i].as_str()) {
            Some(t) => {
                let ghost tv = t@;
                insert_sorted(&mut out, t);
                proof {
                    vstd::seq_lib::to_multiset_build(conf_stems(fs.take(i as int)), tv);
                }
            },
            None => {},
        }
        i = i + 1;
    }
    proof {
        assert(fs.take(i as int) =~= fs);
        lemma_str_order_total();
        conf_stems(fs).lemma_sort_by_ensures(str_order());
        vstd::seq_lib::lemma_sorted_unique(strs(out@), conf_stems(fs).sort_by(str_order()), str_order());
    }
    out
}

/// The text with every `:` removed.
pub open spec fn drop_colons(s: Seq<char>) -> Seq<char>
    decreases s.len(),
{
    if s.len() == 0 {
        s
    } else if s.last() == ':' {
        drop_colons(s.drop_last())
    } else {
        drop_colons(s.drop_last()).push(s.last())
    }
}

/// The hex digits of a certificate pin: the text trimmed, without a leading
/// `sha256:` (in any case), with the `:` separators between bytes dropped.
pub open spec fn pin_digits(s: Seq<char>) -> Seq<char> {
    let t = trim(s);
    let u = if t.len() >= 7 && ascii_lower(t.take(7)) == "sha256:"@ {
        t.skip(7)
    } else {
        t
    };
    drop_colons(u)
}

/// The bytes that 64 hex digits spell, two digits per byte.
pub open spec fn pin_bytes(d: Seq<char>) -> Seq<u8> {
    Seq::new(
        32,
        |i: int|
            (16 * crate::text::digit_value(d[2 * i], 16).unwrap() + crate::text::digit_value(
                d[2 * i + 1],
                16,
            ).unwrap()) as u8,
    )
}

/// Whether a pin spells a SHA-256 digest: exactly 64 hex digits.
pub open spec fn pin_ok(s: Seq<char>) -> bool {
    pin_digits(s).len() == 64 && crate::text::all_digits(pin_digits(s), 16)
}

/// The value of one hex digit.
fn hex_digit(c: char) -> (r: Option<u8>)
    ensures
        match crate::text::digit_value(c, 16) {
            Some(v) => r == Some(v as u8),
            None => r is None,
        },
{
    if '0' <= c && c <= '9' {
        Some((c as u32 - 48) as u8)
    } else if 'a' <= c && c <= 'f' {
        Some((c as u32 - 87) as u8)
    } else if 'A' <= c && c <= 'F' {
        Some((c as u32 - 55) as u8)
    } else {
        None
    }
}

/// The SHA-256 digest a `servercert` pin names, written `sha256:AA:BB:...`
/// or as bare hex.
pub fn parse_sha256_fingerprint(s: &str) -> (r: Result<Vec<u8>, String>)
    ensures
        pin_ok(s@) ==> (r matches Ok(v) && v@ == pin_bytes(pin_digits(s@))),
        !pin_ok(s@) ==> (r matches Err(e) && e@
            == "invalid certificate fingerprint: expected 64 hex digits (sha256:AA:BB:... or bare hex)"@),
{
    let cs = chars_of(s);
    let (a, b) = trim_in(cs.as_slice(), 0, cs.len());
    assert(cs@.subrange(0, cs@.len() as int) =~= s@);
    let ghost t = cs@.subrange(a as int, b as int);
    let start = if b - a >= 7 {
        let low = lower_range(cs.as_slice(), a, a + 7);
        assert(t.take(7) =~= cs@.subrange(a as int, a + 7));
        if is_lit(low.as_slice(), "sha256:") {
            a + 7
        } else {
            a
        }
    } else {
        a
    };
    assert(cs@.subrange(start as int, b as int) =~= (if t.len() >= 7 && ascii_lower(t.take(7))
        == "sha256:"@ {
        t.skip(7)
    } else {
        t
    }));
    let mut d: Vec<char> = Vec::new();
    let mut i = start;
    while i < b
        invariant
            start <= i <= b <= cs@.len(),
            d@ == drop_colons(cs@.subrange(start as int, i as int)),
        decreases b - i,
    {
        assert(cs@.subrange(start as int, i + 1).drop_last() =~= cs@.subrange(start as int, i as int));
        if cs[i] != ':' {
            d.push(cs[i]);
        }
        i = i + 1;
    }
    assert(d@ == pin_digits(s@));
    if d.len() != 64 {
        return Err(String::from_str(
            "invalid certificate fingerprint: expected 64 hex digits (sha256:AA:BB:... or bare hex)",
        ));
    }
    let mut out: Vec<u8> = Vec::new();
    let mut k: usize = 0;
    while k < 32
        invariant
            d@.len() == 64,
            d@ == pin_digits(s@),
            k <= 32,
            out@.len() == k,
            forall|j: int| 0 <= j < 2 * k ==> (#[trigger] crate::text::digit_value(d@[j], 16)) is Some,
            forall|j: int| 0 <= j < k ==> out@[j] == pin_bytes(d@)[j],
        decreases 32 - k,
    {
        let hi = hex_digit(d[2 * k]);
        let lo = hex_digit(d[2 * k + 1]);
        match (hi, lo) {
            (Some(h), Some(l)) => {
                out.push(h * 16 + l);
            },
            _ => {
                proof {
                    if hi is None {
                        assert(crate::text::digit_value(d@[2 * k as int], 16) is None);
                    } else {
                        assert(crate::text::digit_value(d@[2 * k + 1], 16) is None);
                    }
                }
                return Err(String::from_str(
                    "invalid certificate fingerprint: expected 64 hex digits (sha256:AA:BB:... or bare hex)",
                ));
            },
        }
        k = k + 1;
    }
    assert(out@ =~= pin_bytes(d@));
    Ok(out)
}

} // verus!
