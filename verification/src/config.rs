//! The reading of a Reticulum configuration file for the node server: its
//! `[reticulum]` transport switch and its `[[interface]]` sections.

use vstd::prelude::*;
use vstd::string::*;

use crate::assoc::AssocList;
use crate::rns::{lowercase_text, to_lowercase};
use crate::text::{
    char_vec_views, chars_of, find, find_char, lemma_find, lines, lines_of, parse_bounded,
    parse_decimal, string_of, text_eq, trim, trim_chars,
};

verus! {

/// The kind of a network interface and its settings.
#[derive(Debug, Clone)]
pub enum InterfaceType {
    TcpClient { target_host: String, target_port: u16 },
    TcpServer { listen_port: u16 },
    Udp { bind_addr: String },
}

/// An interface section of the configuration.
#[derive(Debug, Clone)]
pub struct InterfaceConfig {
    pub name: String,
    pub iface_type: InterfaceType,
    pub enabled: bool,
}

/// The parts of a Reticulum configuration the server uses.
#[derive(Debug)]
pub struct RnsConfig {
    pub interfaces: Vec<InterfaceConfig>,
    pub enable_transport: bool,
}

/// The error reading a configuration file, as its I/O error.
#[verifier::external_type_specification]
#[verifier::external_body]
pub struct ExIoError(std::io::Error);

#[derive(Debug)]
pub enum ConfigError {
    Io(String, std::io::Error),
    MissingField(String, &'static str),
    UnknownInterfaceType(String, String),
}

/// An interface kind as values.
pub enum InterfaceKind {
    TcpClient { target_host: Seq<char>, target_port: u16 },
    TcpServer { listen_port: u16 },
    Udp { bind_addr: Seq<char> },
}

/// An interface section as values.
pub struct InterfaceSpec {
    pub name: Seq<char>,
    pub kind: InterfaceKind,
    pub enabled: bool,
}

/// A configuration error as values (an I/O error by the path read).
pub enum ConfigErrorSpec {
    Io(Seq<char>),
    MissingField(Seq<char>, Seq<char>),
    UnknownInterfaceType(Seq<char>, Seq<char>),
}

impl InterfaceType {
    pub open spec fn kind(&self) -> InterfaceKind {
        match self {
            InterfaceType::TcpClient { target_host, target_port } => InterfaceKind::TcpClient { target_host: target_host@, target_port: *target_port },
            InterfaceType::TcpServer { listen_port } => InterfaceKind::TcpServer { listen_port: *listen_port },
            InterfaceType::Udp { bind_addr } => InterfaceKind::Udp { bind_addr: bind_addr@ },
        }
    }
}

impl InterfaceConfig {
    pub open spec fn spec(&self) -> InterfaceSpec {
        InterfaceSpec { name: self.name@, kind: self.iface_type.kind(), enabled: self.enabled }
    }
}

impl ConfigError {
    pub open spec fn spec(&self) -> ConfigErrorSpec {
        match self {
            ConfigError::Io(path, _) => ConfigErrorSpec::Io(path@),
            ConfigError::MissingField(name, field) => ConfigErrorSpec::MissingField(name@, field@),
            ConfigError::UnknownInterfaceType(name, t) => ConfigErrorSpec::UnknownInterfaceType(name@, t@),
        }
    }

    /// The message that describes this error. For an I/O error it is the
    /// path read, then the system's description of the error.
    pub fn message(&self) -> (m: String)
        ensures
            match self {
                ConfigError::Io(path, _) => {
                    let head = "IO error reading "@ + path@ + ": "@;
                    m@.len() >= head.len() && m@.subrange(0, head.len() as int) == head
                },
                ConfigError::MissingField(name, field) => m@ == "Missing field "@ + field@ + " in interface "@ + name@,
                ConfigError::UnknownInterfaceType(name, t) => m@ == "Unknown interface type "@ + t@ + " in interface "@ + name@,
            },
    {
        match self {
            ConfigError::Io(path, e) => {
                let mut m = String::from_str("IO error reading ");
                m.append(path.as_str());
                m.append(": ");
                let ghost head = m@;
                let text = io_error_text(e);
                m.append(text.as_str());
                assert(m@.subrange(0, head.len() as int) =~= head);
                m
            },
            ConfigError::MissingField(name, field) => {
                let mut m = String::from_str("Missing field ");
                m.append(field);
                m.append(" in interface ");
                m.append(name.as_str());
                m
            },
            ConfigError::UnknownInterfaceType(name, t) => {
                let mut m = String::from_str("Unknown interface type ");
                m.append(t.as_str());
                m.append(" in interface ");
                m.append(name.as_str());
                m
            },
        }
    }
}

/// The system's description of an I/O error (its `Display` text through
/// `to_string`). It depends on the system, so nothing is claimed of it.
#[verifier::external_body]
fn io_error_text(e: &std::io::Error) -> (s: String) {
    e.to_string()
}

/// The values of a list of interfaces.
pub open spec fn interfaces_spec(v: Seq<InterfaceConfig>) -> Seq<InterfaceSpec> {
    v.map_values(|i: InterfaceConfig| i.spec())
}

/// A boolean setting: `true`, `yes`, `1` or `on` in any letter case.
pub open spec fn parse_bool_spec(value: Seq<char>) -> bool {
    let l = lowercase_text(value);
    l == "true"@ || l == "yes"@ || l == "1"@ || l == "on"@
}

/// The first of two keys that is set.
pub open spec fn lookup2(props: Map<Seq<char>, Seq<char>>, a: Seq<char>, b: Seq<char>) -> Option<Seq<char>> {
    if props.contains_key(a) {
        Some(props[a])
    } else if props.contains_key(b) {
        Some(props[b])
    } else {
        None
    }
}

/// A port setting, when it is set and reads as a number up to 65535.
pub open spec fn port_of(props: Map<Seq<char>, Seq<char>>, key: Seq<char>) -> Option<nat> {
    if props.contains_key(key) {
        parse_bounded(props[key], 65535)
    } else {
        None
    }
}

/// The interface an interface section with settings `props` describes.
pub open spec fn parse_interface_spec(name: Seq<char>, props: Map<Seq<char>, Seq<char>>) -> Result<InterfaceSpec, ConfigErrorSpec> {
    match lookup2(props, "type"@, "interface_type"@) {
        None => Err(ConfigErrorSpec::MissingField(name, "type"@)),
        Some(t) => {
            let enabled = match lookup2(props, "interface_enabled"@, "enabled"@) {
                Some(v) => parse_bool_spec(v),
                None => true,
            };
            if t == "TCPClientInterface"@ {
                if !props.contains_key("target_host"@) {
                    Err(ConfigErrorSpec::MissingField(name, "target_host"@))
                } else {
                    match port_of(props, "target_port"@) {
                        None => Err(ConfigErrorSpec::MissingField(name, "target_port"@)),
                        Some(p) => Ok(InterfaceSpec {
                            name,
                            kind: InterfaceKind::TcpClient { target_host: props["target_host"@], target_port: p as u16 },
                            enabled,
                        }),
                    }
                }
            } else if t == "TCPServerInterface"@ {
                let port = match port_of(props, "listen_port"@) {
                    Some(p) => p as u16,
                    None => 4242u16,
                };
                Ok(InterfaceSpec { name, kind: InterfaceKind::TcpServer { listen_port: port }, enabled })
            } else if t == "UDPInterface"@ {
                let bind = match lookup2(props, "listen_addr"@, "bind_addr"@) {
                    Some(a) => a,
                    None => "0.0.0.0:4242"@,
                };
                Ok(InterfaceSpec { name, kind: InterfaceKind::Udp { bind_addr: bind }, enabled })
            } else {
                Err(ConfigErrorSpec::UnknownInterfaceType(name, t))
            }
        },
    }
}

/// The state of reading a configuration: the interfaces read so far, the
/// current section, the current interface section and its settings, and
/// the transport switch.
pub struct ParseState {
    pub interfaces: Seq<InterfaceSpec>,
    pub section: Option<Seq<char>>,
    pub iface: Option<Seq<char>>,
    pub props: Map<Seq<char>, Seq<char>>,
    pub enable_transport: bool,
}

/// The state before the first line.
pub open spec fn initial_state() -> ParseState {
    ParseState {
        interfaces: Seq::empty(),
        section: None,
        iface: None,
        props: Map::empty(),
        enable_transport: false,
    }
}

/// Ends the current interface section: its interface is kept when it reads
/// without error.
pub open spec fn flush(st: ParseState) -> ParseState {
    match st.iface {
        Some(n) => ParseState {
            interfaces: match parse_interface_spec(n, st.props) {
                Ok(i) => st.interfaces.push(i),
                Err(_) => st.interfaces,
            },
            section: st.section,
            iface: None,
            props: Map::empty(),
            enable_transport: st.enable_transport,
        },
        None => st,
    }
}

/// `s` is bracketed: it starts with `[` and ends with `]`.
pub open spec fn bracketed(s: Seq<char>) -> bool {
    s.len() > 0 && s[0] == '[' && s.last() == ']'
}

/// What is inside the brackets, trimmed.
pub open spec fn unbracket(s: Seq<char>) -> Seq<char> {
    trim(s.subrange(1, s.len() - 1))
}

/// Reads one line: blank lines and comments are skipped; a bracketed line
/// starts a section (an interface section when doubly bracketed); a
/// `key = value` line sets an interface setting, or the transport switch in
/// the `[reticulum]` section.
pub open spec fn config_step(st: ParseState, raw: Seq<char>) -> ParseState {
    let line = trim(raw);
    if line.len() == 0 || line[0] == '#' {
        st
    } else if bracketed(line) {
        let f = flush(st);
        let section = unbracket(line);
        ParseState {
            interfaces: f.interfaces,
            section: Some(section),
            iface: if section.len() >= 2 && bracketed(section) { Some(unbracket(section)) } else { None },
            props: f.props,
            enable_transport: f.enable_transport,
        }
    } else {
        match find(line, '=') {
            Some(i) => {
                let key = trim(line.take(i));
                let value = trim(line.skip(i + 1));
                if st.iface is Some {
                    ParseState { props: st.props.insert(key, value), ..st }
                } else if st.section == Some("reticulum"@) && key == "enable_transport"@ {
                    ParseState { enable_transport: parse_bool_spec(value), ..st }
                } else {
                    st
                }
            },
            None => st,
        }
    }
}

/// The state after reading `ls`.
pub open spec fn config_scan(ls: Seq<Seq<char>>) -> ParseState
    decreases ls.len(),
{
    if ls.len() == 0 {
        initial_state()
    } else {
        config_step(config_scan(ls.drop_last()), ls.last())
    }
}

/// The configuration `content` describes: the state after its last line,
/// with the last interface section ended.
pub open spec fn parse_spec(content: Seq<char>) -> (Seq<InterfaceSpec>, bool) {
    let st = flush(config_scan(lines(content)));
    (st.interfaces, st.enable_transport)
}

/// Reads a boolean setting.
pub fn parse_bool(value: &str) -> (b: bool)
    ensures
        b == parse_bool_spec(value@),
{
    let l = to_lowercase(value);
    text_eq(l.as_str(), "true") || text_eq(l.as_str(), "yes") || text_eq(l.as_str(), "1") || text_eq(l.as_str(), "on")
}

/// The settings of an interface section.
pub type Props = AssocList<String, String>;

/// The settings as values.
pub open spec fn props_view(p: Props) -> Map<Seq<char>, Seq<char>> {
    p.map().map_values(|v: String| v@)
}

/// The value of setting `key`.
fn prop_get<'a>(props: &'a Props, key: &str) -> (r: Option<&'a String>)
    ensures
        match r {
            Some(v) => props_view(*props).contains_key(key@) && v@ == props_view(*props)[key@],
            None => !props_view(*props).contains_key(key@),
        },
{
    props.get(&String::from_str(key))
}

/// The value of the first of two settings that is set.
fn prop_get2<'a>(props: &'a Props, a: &str, b: &str) -> (r: Option<&'a String>)
    ensures
        match lookup2(props_view(*props), a@, b@) {
            Some(v) => r matches Some(x) && x@ == v,
            None => r is None,
        },
{
    match prop_get(props, a) {
        Some(v) => Some(v),
        None => prop_get(props, b),
    }
}

/// A port setting read as a number up to 65535.
fn prop_port(props: &Props, key: &str) -> (r: Option<u16>)
    ensures
        match port_of(props_view(*props), key@) {
            Some(p) => r == Some(p as u16),
            None => r is None,
        },
{
    match prop_get(props, key) {
        Some(v) => {
            let chars = chars_of(v.as_str());
            match parse_decimal(&chars, 65535) {
                Some(p) => Some(p as u16),
                None => None,
            }
        },
        None => None,
    }
}

/// Reads the interface of the section `name` with settings `props`.
pub fn parse_interface(name: &str, props: &Props) -> (r: Result<InterfaceConfig, ConfigError>)
    ensures
        match parse_interface_spec(name@, props_view(*props)) {
            Ok(i) => r matches Ok(c) && c.spec() == i,
            Err(e) => r matches Err(x) && x.spec() == e,
        },
{
    let iface_type_str = match prop_get2(props, "type", "interface_type") {
        Some(t) => t,
        None => return Err(ConfigError::MissingField(String::from_str(name), "type")),
    };
    let enabled = match prop_get2(props, "interface_enabled", "enabled") {
        Some(v) => parse_bool(v.as_str()),
        None => true,
    };
    let t = iface_type_str.as_str();
    let iface_type = if text_eq(t, "TCPClientInterface") {
        let target_host = match prop_get(props, "target_host") {
            Some(h) => h.clone(),
            None => return Err(ConfigError::MissingField(String::from_str(name), "target_host")),
        };
        let target_port = match prop_port(props, "target_port") {
            Some(p) => p,
            None => return Err(ConfigError::MissingField(String::from_str(name), "target_port")),
        };
        InterfaceType::TcpClient { target_host, target_port }
    } else if text_eq(t, "TCPServerInterface") {
        let listen_port = match prop_port(props, "listen_port") {
            Some(p) => p,
            None => 4242,
        };
        InterfaceType::TcpServer { listen_port }
    } else if text_eq(t, "UDPInterface") {
        let bind_addr = match prop_get2(props, "listen_addr", "bind_addr") {
            Some(a) => a.clone(),
            None => String::from_str("0.0.0.0:4242"),
        };
        InterfaceType::Udp { bind_addr }
    } else {
        return Err(ConfigError::UnknownInterfaceType(String::from_str(name), iface_type_str.clone()));
    };
    Ok(InterfaceConfig { name: String::from_str(name), iface_type, enabled })
}

/// The view of an optional text.
pub open spec fn opt_string_view(s: Option<String>) -> Option<Seq<char>> {
    match s {
        Some(x) => Some(x@),
        None => None,
    }
}

/// `v[lo..hi]` as a new vector.
fn sub_chars(v: &[char], lo: usize, hi: usize) -> (r: Vec<char>)
    requires
        lo <= hi <= v@.len(),
    ensures
        r@ == v@.subrange(lo as int, hi as int),
{
    let mut r: Vec<char> = Vec::new();
    let mut i = lo;
    while i < hi
        invariant
            lo <= i <= hi,
            hi <= v@.len(),
            r@ == v@.subrange(lo as int, i as int),
        decreases hi - i,
    {
        r.push(v[i]);
        assert(v@.subrange(lo as int, i + 1) =~= v@.subrange(lo as int, i as int).push(v@[i as int]));
        i = i + 1;
    }
    r
}

/// Ends the current interface section (the executable `flush`).
fn flush_section(interfaces: &mut Vec<InterfaceConfig>, iface: &mut Option<String>, props: &mut Props)
    ensures
        ({
            let before = ParseState {
                interfaces: interfaces_spec(old(interfaces)@),
                section: None,
                iface: opt_string_view(*old(iface)),
                props: props_view(*old(props)),
                enable_transport: false,
            };
            let after = flush(before);
            &&& interfaces_spec(final(interfaces)@) == after.interfaces
            &&& opt_string_view(*final(iface)) == after.iface
            &&& props_view(*final(props)) == after.props
        }),
{
    let mut taken: Option<String> = None;
    std::mem::swap(&mut taken, iface);
    match taken {
        Some(name) => {
            let r = parse_interface(name.as_str(), props);
            match r {
                Ok(i) => {
                    let ghost before = interfaces@;
                    let ghost isp = i.spec();
                    interfaces.push(i);
                    assert(interfaces_spec(interfaces@) =~= interfaces_spec(before).push(isp));
                },
                Err(_) => {},
            }
            *props = AssocList::new();
            assert(props_view(*props) =~= Map::<Seq<char>, Seq<char>>::empty());
        },
        None => {},
    }
}

impl RnsConfig {
    /// Reads a configuration text. Interface sections that do not read
    /// (unknown type, missing setting) are left out; reading never fails.
    pub fn parse(content: &str) -> (r: Result<RnsConfig, ConfigError>)
        ensures
            r matches Ok(c) && (interfaces_spec(c.interfaces@), c.enable_transport) == parse_spec(content@),
    {
        let ls = lines_of(content);
        let ghost lv = char_vec_views(ls@);
        let mut interfaces: Vec<InterfaceConfig> = Vec::new();
        let mut section: Option<String> = None;
        let mut iface: Option<String> = None;
        let mut props: Props = AssocList::new();
        let mut enable_transport = false;
        proof {
            assert(lv.take(0) =~= Seq::<Seq<char>>::empty());
            assert(interfaces_spec(interfaces@) =~= Seq::<InterfaceSpec>::empty());
            assert(props_view(props) =~= Map::<Seq<char>, Seq<char>>::empty());
        }
        let mut i: usize = 0;
        while i < ls.len()
            invariant
                i <= ls@.len(),
                lv == char_vec_views(ls@),
                lv == lines(content@),
                config_scan(lv.take(i as int)).interfaces == interfaces_spec(interfaces@),
                config_scan(lv.take(i as int)).section == opt_string_view(section),
                config_scan(lv.take(i as int)).iface == opt_string_view(iface),
                config_scan(lv.take(i as int)).props == props_view(props),
                config_scan(lv.take(i as int)).enable_transport == enable_transport,
            decreases ls@.len() - i,
        {
            let ghost st = config_scan(lv.take(i as int));
            proof {
                assert(lv.take(i + 1).drop_last() =~= lv.take(i as int));
                assert(lv.take(i + 1).last() == ls@[i as int]@);
            }
            let line = trim_chars(&ls[i]);
            let n = line.len();
            if n == 0 || line[0] == '#' {
            } else if line[0] == '[' && line[n - 1] == ']' {
                flush_section(&mut interfaces, &mut iface, &mut props);
                let inner = sub_chars(&line, 1, n - 1);
                let sec = trim_chars(&inner);
                let m = sec.len();
                if m >= 2 && sec[0] == '[' && sec[m - 1] == ']' {
                    let inner2 = sub_chars(&sec, 1, m - 1);
                    let name = trim_chars(&inner2);
                    iface = Some(string_of(&name));
                } else {
                    iface = None;
                }
                section = Some(string_of(&sec));
            } else {
                proof { lemma_find(line@, '='); }
                match find_char(&line, '=') {
                    Some(eq) => {
                        let key_raw = sub_chars(&line, 0, eq);
                        let value_raw = sub_chars(&line, eq + 1, n);
                        assert(key_raw@ =~= line@.take(eq as int));
                        assert(value_raw@ =~= line@.skip(eq + 1));
                        let key = trim_chars(&key_raw);
                        let value = trim_chars(&value_raw);
                        if iface.is_some() {
                            let ghost pv = props_view(props);
                            props.insert(string_of(&key), string_of(&value));
                            assert(props_view(props) =~= pv.insert(key@, value@));
                        } else {
                            let in_reticulum = match &section {
                                Some(sn) => text_eq(sn.as_str(), "reticulum"),
                                None => false,
                            };
                            let key_text = string_of(&key);
                            if in_reticulum && text_eq(key_text.as_str(), "enable_transport") {
                                let value_text = string_of(&value);
                                enable_transport = parse_bool(value_text.as_str());
                            }
                        }
                    },
                    None => {},
                }
            }
            i = i + 1;
        }
        assert(lv.take(ls@.len() as int) =~= lv);
        flush_section(&mut interfaces, &mut iface, &mut props);
        Ok(RnsConfig { interfaces, enable_transport })
    }
}

impl Default for RnsConfig {
    fn default() -> (c: Self)
        ensures
            c.interfaces@.len() == 0,
            !c.enable_transport,
    {
        RnsConfig { interfaces: Vec::new(), enable_transport: false }
    }
}

} // verus!
