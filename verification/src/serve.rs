//! The page logic of the `nomadnet-serve` program: the generated index
//! page, the `$SELF` placeholder, which paths get handlers, which pages go
//! into the cache, and the UDP listen endpoint of a configured interface.

use vstd::prelude::*;
use vstd::string::*;
use vstd::utf8::encode_utf8;

use crate::config::{interfaces_spec, InterfaceKind, InterfaceSpec, InterfaceType, RnsConfig};
use crate::micron::{escape_spec, heading_markers, MicronBuilder};
use crate::node::PageCache;
use crate::micron::is_hex_digit;
use crate::rns::{
    hex_bytes, hex_decode, identity_public_key, identity_public_key_of, utf8_lossy, utf8_lossy_of, utf8_text,
};
use vstd::utf8::{decode_utf8, valid_utf8};
use crate::text::{
    trim, trim_chars, chars_of, decimal, find, find_char, lemma_find, parse_bounded, parse_decimal,
    push_char, string_of_range, text_eq,
};

verus! {

/// The placeholder replaced by the node's address in served pages.
pub open spec fn self_marker() -> Seq<char> {
    seq!['$', 'S', 'E', 'L', 'F']
}

/// `s` with every occurrence of `pat`, found left to right without
/// overlapping, replaced by `rep` (what `str::replace` does).
pub open spec fn replace_all(s: Seq<char>, pat: Seq<char>, rep: Seq<char>) -> Seq<char>
    decreases s.len(),
{
    if s.len() == 0 {
        Seq::empty()
    } else if pat.len() > 0 && s.len() >= pat.len() && s.take(pat.len() as int) == pat {
        rep + replace_all(s.skip(pat.len() as int), pat, rep)
    } else {
        seq![s[0]] + replace_all(s.skip(1), pat, rep)
    }
}

/// Replaces every `$SELF` in `content` by `nomad_address`.
pub fn replace_self(content: &str, nomad_address: &str) -> (r: String)
    ensures
        r@ == replace_all(content@, self_marker(), nomad_address@),
{
    let chars = chars_of(content);
    let marker: Vec<char> = vec!['$', 'S', 'E', 'L', 'F'];
    assert(marker@ =~= self_marker());
    let mut out = String::new();
    let mut i: usize = 0;
    let n = chars.len();
    proof {
        assert(chars@.skip(0) =~= chars@);
    }
    while i < n
        invariant
            i <= n,
            n == chars@.len(),
            chars@ == content@,
            marker@ == self_marker(),
            out@ + replace_all(chars@.skip(i as int), self_marker(), nomad_address@) == replace_all(content@, self_marker(), nomad_address@),
        decreases n - i,
    {
        let ghost rest = chars@.skip(i as int);
        let mut is_marker = n - i >= 5;
        if is_marker {
            let mut k: usize = 0;
            while k < 5
                invariant
                    k <= 5,
                    i + 5 <= n,
                    n == chars@.len(),
                    marker@ == self_marker(),
                    rest == chars@.skip(i as int),
                    is_marker == (forall|j: int| 0 <= j < k ==> rest[j] == marker@[j]),
                decreases 5 - k,
            {
                assert(rest[k as int] == chars@[i + k]);
                if chars[i + k] != marker[k] {
                    is_marker = false;
                }
                proof {
                    assert(is_marker == (forall|j: int| 0 <= j < k + 1 ==> rest[j] == marker@[j])) by {
                        if !is_marker && chars@[i + k] == marker@[k as int] {
                            let j = choose|j: int| 0 <= j < k && rest[j] != marker@[j];
                        }
                    }
                }
                k = k + 1;
            }
            proof {
                if is_marker {
                    assert(rest.take(5) =~= self_marker());
                } else {
                    assert(rest.take(5) != self_marker()) by {
                        let j = choose|j: int| 0 <= j < 5 && rest[j] != marker@[j];
                        assert(rest.take(5)[j] != self_marker()[j]);
                    }
                }
            }
        }
        if is_marker {
            let ghost before = out@;
            out.append(nomad_address);
            proof {
                assert(rest.skip(5) =~= chars@.skip(i + 5));
                assert(replace_all(rest, self_marker(), nomad_address@) == nomad_address@ + replace_all(rest.skip(5), self_marker(), nomad_address@));
                assert(before + replace_all(rest, self_marker(), nomad_address@)
                    =~= out@ + replace_all(chars@.skip(i + 5), self_marker(), nomad_address@));
            }
            i = i + 5;
        } else {
            let ghost before = out@;
            push_char(&mut out, chars[i]);
            proof {
                assert(rest.skip(1) =~= chars@.skip(i + 1));
                assert(rest[0] == chars@[i as int]);
                assert(before + replace_all(rest, self_marker(), nomad_address@)
                    =~= out@ + replace_all(chars@.skip(i + 1), self_marker(), nomad_address@));
            }
            i = i + 1;
        }
    }
    assert(chars@.skip(n as int) =~= Seq::<char>::empty());
    assert(out@ + Seq::<char>::empty() =~= out@);
    out
}

/// The index lines for page names: one link per page, to
/// `<address>:/page/<name>`, with the name escaped.
pub open spec fn index_links(pages: Seq<Seq<char>>, nomad_address: Seq<char>) -> Seq<char>
    decreases pages.len(),
{
    if pages.len() == 0 {
        Seq::empty()
    } else {
        let name = escape_spec(pages.last());
        index_links(pages.drop_last(), nomad_address)
            + (("`["@ + name + "`"@ + (nomad_address + ":/page/"@ + name) + "]"@) + "\n"@)
    }
}

/// The markup of the generated index page listing `pages`.
pub open spec fn auto_index_markup(pages: Seq<Seq<char>>, nomad_address: Seq<char>) -> Seq<char> {
    "#!c="@ + decimal(30) + "\n"@
        + heading_markers(1) + " "@ + "nomadnet-serve"@ + "\n"@
        + "-\n"@
        + "Pages served from this node:"@ + "\n"@
        + "\n"@
        + (if pages.len() == 0 {
            escape_spec("No pages available."@) + "\n"@
        } else {
            index_links(pages, nomad_address)
        })
}

/// The views of a sequence of strings.
pub open spec fn names_view(v: Seq<String>) -> Seq<Seq<char>> {
    v.map_values(|s: String| s@)
}

/// The generated index page: a link to every page in `pages`.
pub fn build_auto_index(pages: &[String], nomad_address: &str) -> (page: Vec<u8>)
    ensures
        page@ == encode_utf8(auto_index_markup(names_view(pages@), nomad_address@)),
{
    let ghost names = names_view(pages@);
    let mut page = MicronBuilder::new();
    page.cache_directive(30);
    page.heading(1, "nomadnet-serve");
    page.divider();
    page.text_raw_line("Pages served from this node:");
    page.blank_line();
    let ghost head = page@;
    if pages.len() == 0 {
        page.text("No pages available.");
    } else {
        let mut i: usize = 0;
        proof {
            assert(names.take(0) =~= Seq::<Seq<char>>::empty());
            assert(page@ =~= head + index_links(names.take(0), nomad_address@));
        }
        while i < pages.len()
            invariant
                i <= pages@.len(),
                names == names_view(pages@),
                page@ == head + index_links(names.take(i as int), nomad_address@),
            decreases pages@.len() - i,
        {
            let safe_name = MicronBuilder::escape(pages[i].as_str());
            let mut link = String::from_str(nomad_address);
            link.append(":/page/");
            link.append(safe_name.as_str());
            let mut line = String::from_str("`[");
            line.append(safe_name.as_str());
            line.append("`");
            line.append(link.as_str());
            line.append("]");
            let ghost before = page@;
            page.text_raw_line(line.as_str());
            proof {
                assert(names.take(i + 1).drop_last() =~= names.take(i as int));
                assert(names.take(i + 1).last() == pages@[i as int]@);
                assert(page@ =~= head + index_links(names.take(i + 1), nomad_address@));
            }
            i = i + 1;
        }
        assert(names.take(pages@.len() as int) =~= names);
    }
    assert(page@ =~= auto_index_markup(names, nomad_address@));
    let text = page.build();
    text.as_str().as_bytes_vec()
}

/// The request paths that get handlers for the page files `files`: each
/// as `/page/<file>`, and `/page/index.mu` for the generated index when no
/// `index.mu` is among them.
pub open spec fn served_paths_spec(files: Seq<Seq<char>>) -> Seq<Seq<char>> {
    let paths = files.map_values(|f: Seq<char>| "/page/"@ + f);
    if files.contains("index.mu"@) {
        paths
    } else {
        paths.push("/page/index.mu"@)
    }
}

/// Whether `index.mu` is among the page names.
pub fn has_index(pages: &[String]) -> (b: bool)
    ensures
        b == names_view(pages@).contains("index.mu"@),
{
    let mut i: usize = 0;
    while i < pages.len()
        invariant
            i <= pages@.len(),
            forall|k: int| 0 <= k < i ==> pages@[k]@ != "index.mu"@,
        decreases pages@.len() - i,
    {
        if text_eq(pages[i].as_str(), "index.mu") {
            assert(names_view(pages@)[i as int] == "index.mu"@);
            return true;
        }
        i = i + 1;
    }
    assert(!names_view(pages@).contains("index.mu"@)) by {
        if names_view(pages@).contains("index.mu"@) {
            let k = choose|k: int| 0 <= k < names_view(pages@).len() && names_view(pages@)[k] == "index.mu"@;
            assert(pages@[k]@ == "index.mu"@);
        }
    }
    false
}

/// The request paths that get page handlers.
pub fn served_page_paths(files: &[String]) -> (paths: Vec<String>)
    ensures
        names_view(paths@) == served_paths_spec(names_view(files@)),
{
    let ghost names = names_view(files@);
    let mut paths: Vec<String> = Vec::new();
    let mut i: usize = 0;
    while i < files.len()
        invariant
            i <= files@.len(),
            names == names_view(files@),
            names_view(paths@) == names.take(i as int).map_values(|f: Seq<char>| "/page/"@ + f),
        decreases files@.len() - i,
    {
        let mut p = String::from_str("/page/");
        p.append(files[i].as_str());
        let ghost before = paths@;
        let ghost pv = p@;
        paths.push(p);
        assert(names_view(paths@) =~= names_view(before).push(pv));
        assert(names.take(i + 1) =~= names.take(i as int).push(names[i as int]));
        assert(names.take(i + 1).map_values(|f: Seq<char>| "/page/"@ + f) =~= names.take(i as int).map_values(|f: Seq<char>| "/page/"@ + f).push("/page/"@ + names[i as int]));
        i = i + 1;
    }
    assert(names.take(files@.len() as int) =~= names);
    if !has_index(files) {
        let ghost before = paths@;
        paths.push(String::from_str("/page/index.mu"));
        assert(names_view(paths@) =~= names_view(before).push("/page/index.mu"@));
    }
    paths
}

/// The page texts read from the pages directory, by page name: their bytes
/// read as UTF-8, invalid sequences replaced.
pub open spec fn contents_view(v: Seq<(String, Vec<u8>)>) -> Seq<(Seq<char>, Seq<char>)> {
    v.map_values(|p: (String, Vec<u8>)| (p.0@, utf8_lossy_of(p.1@)))
}

/// The cache after storing each read page, `$SELF` replaced, at
/// `/page/<name>`.
pub open spec fn store_pages(
    cache: Map<Seq<char>, Seq<u8>>,
    contents: Seq<(Seq<char>, Seq<char>)>,
    nomad_address: Seq<char>,
) -> Map<Seq<char>, Seq<u8>>
    decreases contents.len(),
{
    if contents.len() == 0 {
        cache
    } else {
        let p = contents.last();
        store_pages(cache, contents.drop_last(), nomad_address).insert(
            "/page/"@ + p.0,
            encode_utf8(replace_all(p.1, self_marker(), nomad_address)),
        )
    }
}

/// Fills the page cache: every page read (`contents`: name and bytes) is
/// read as UTF-8 (invalid sequences become U+FFFD) and stored at
/// `/page/<name>` with `$SELF` replaced by the address, and when
/// no `index.mu` is among the page names `pages`, a generated index of them
/// is stored at `/page/index.mu`.
pub fn populate_cache(cache: &mut PageCache, pages: &[String], contents: &[(String, Vec<u8>)], nomad_address: &str)
    ensures
        ({
            let stored = store_pages(old(cache)@, contents_view(contents@), nomad_address@);
            if names_view(pages@).contains("index.mu"@) {
                final(cache)@ == stored
            } else {
                final(cache)@ == stored.insert("/page/index.mu"@, encode_utf8(auto_index_markup(names_view(pages@), nomad_address@)))
            }
        }),
{
    let ghost cv = contents_view(contents@);
    let mut i: usize = 0;
    proof {
        assert(cv.take(0) =~= Seq::<(Seq<char>, Seq<char>)>::empty());
    }
    while i < contents.len()
        invariant
            i <= contents@.len(),
            cv == contents_view(contents@),
            cache@ == store_pages(old(cache)@, cv.take(i as int), nomad_address@),
        decreases contents@.len() - i,
    {
        let mut page_path = String::from_str("/page/");
        page_path.append(contents[i].0.as_str());
        let text = utf8_lossy(contents[i].1.as_slice());
        let replaced = replace_self(text.as_str(), nomad_address);
        let bytes = replaced.as_str().as_bytes_vec();
        cache.set(page_path.as_str(), bytes);
        proof {
            assert(cv.take(i + 1).drop_last() =~= cv.take(i as int));
            assert(cv.take(i + 1).last() == (contents@[i as int].0@, utf8_lossy_of(contents@[i as int].1@)));
        }
        i = i + 1;
    }
    assert(cv.take(contents@.len() as int) =~= cv);
    if !has_index(pages) {
        let index = build_auto_index(pages, nomad_address);
        cache.set("/page/index.mu", index);
    }
}

/// Where a UDP interface listens: the address before the first `:` and the
/// port after it, 4242 when there is no port or it does not read.
pub open spec fn udp_endpoint_spec(bind_addr: Seq<char>) -> (Seq<char>, u16) {
    match find(bind_addr, ':') {
        Some(i) => (bind_addr.take(i), match parse_bounded(bind_addr.skip(i + 1), 65535) {
            Some(p) => p as u16,
            None => 4242u16,
        }),
        None => (bind_addr, 4242u16),
    }
}

/// The listen address and port of a UDP interface's bind address.
pub fn udp_listen_endpoint(bind_addr: &str) -> (r: (String, u16))
    ensures
        r.0@ == udp_endpoint_spec(bind_addr@).0,
        r.1 == udp_endpoint_spec(bind_addr@).1,
{
    let chars = chars_of(bind_addr);
    proof { lemma_find(chars@, ':'); }
    match find_char(&chars, ':') {
        Some(i) => {
            let n = chars.len();
            let ip = string_of_range(&chars, 0, i);
            assert(chars@.subrange(0, i as int) =~= chars@.take(i as int));
            let port_chars = chars_of(string_of_range(&chars, i + 1, n).as_str());
            assert(port_chars@ =~= chars@.skip(i + 1));
            let port = match parse_decimal(&port_chars, 65535) {
                Some(p) => p as u16,
                None => 4242,
            };
            (ip, port)
        },
        None => (String::from_str(bind_addr), 4242),
    }
}

/// Why an identity file does not hold a private key.
#[derive(Debug, PartialEq, Eq, Structural)]
pub enum IdentityFileError {
    /// Not 64 bytes, and not UTF-8 text.
    NotUtf8,
    /// Text, but not 128 hexadecimal digits once trimmed.
    BadFormat,
}

/// 128 hexadecimal digits.
pub open spec fn is_hex_key_text(t: Seq<char>) -> bool {
    t.len() == 128 && forall|i: int| 0 <= i < t.len() ==> is_hex_digit(#[trigger] t[i])
}

/// The private key an identity file holds: its 64 bytes as they are, or
/// the 128 hexadecimal digits its text holds once trimmed.
pub open spec fn identity_file_spec(bytes: Seq<u8>) -> Result<Seq<u8>, IdentityFileError> {
    if bytes.len() == 64 {
        Ok(bytes)
    } else if !valid_utf8(bytes) {
        Err(IdentityFileError::NotUtf8)
    } else if is_hex_key_text(trim(decode_utf8(bytes))) {
        Ok(hex_bytes(trim(decode_utf8(bytes))))
    } else {
        Err(IdentityFileError::BadFormat)
    }
}

/// Reads the private key from the contents of an identity file: 64 raw
/// bytes, or 128 hexadecimal digits (surrounding whitespace allowed).
pub fn identity_key_from_file(bytes: &[u8]) -> (r: Result<[u8; 64], IdentityFileError>)
    ensures
        match identity_file_spec(bytes@) {
            Ok(k) => r matches Ok(a) && a@ == k,
            Err(e) => r == Err::<[u8; 64], IdentityFileError>(e),
        },
{
    let mut key: [u8; 64] = [0u8; 64];
    if bytes.len() == 64 {
        let mut i: usize = 0;
        while i < 64
            invariant
                i <= 64,
                bytes@.len() == 64,
                forall|k: int| 0 <= k < i ==> key@[k] == bytes@[k],
            decreases 64 - i,
        {
            key[i] = bytes[i];
            i = i + 1;
        }
        assert(key@ =~= bytes@);
        return Ok(key);
    }
    let text = match utf8_text(bytes) {
        Some(t) => t,
        None => return Err(IdentityFileError::NotUtf8),
    };
    let chars = chars_of(text.as_str());
    let trimmed = trim_chars(&chars);
    if trimmed.len() != 128 {
        return Err(IdentityFileError::BadFormat);
    }
    let mut i: usize = 0;
    while i < 128
        invariant
            i <= 128,
            trimmed@.len() == 128,
            trimmed@ == trim(decode_utf8(bytes@)),
            bytes@.len() != 64,
            valid_utf8(bytes@),
            forall|k: int| 0 <= k < i ==> is_hex_digit(#[trigger] trimmed@[k]),
        decreases 128 - i,
    {
        let c = trimmed[i];
        if !(('0' <= c && c <= '9') || ('a' <= c && c <= 'f') || ('A' <= c && c <= 'F')) {
            assert(!is_hex_digit(trimmed@[i as int]));
            assert(!is_hex_key_text(trimmed@));
            return Err(IdentityFileError::BadFormat);
        }
        i = i + 1;
    }
    let hex_text = crate::text::string_of(&trimmed);
    let decoded = match hex_decode(hex_text.as_str()) {
        Some(v) => v,
        None => return Err(IdentityFileError::BadFormat),
    };
    assert(decoded@.len() == 64);
    let mut i: usize = 0;
    while i < 64
        invariant
            i <= 64,
            decoded@.len() == 64,
            forall|k: int| 0 <= k < i ==> key@[k] == decoded@[k],
        decreases 64 - i,
    {
        key[i] = decoded[i];
        i = i + 1;
    }
    assert(key@ =~= decoded@);
    Ok(key)
}

/// The public signing key of the identity with `private_key`: the second
/// half of its public key.
pub fn signing_public_key(private_key: &[u8; 64]) -> (k: [u8; 32])
    ensures
        k@ == identity_public_key_of(private_key@).subrange(32, 64),
{
    let full = identity_public_key(private_key).unwrap();
    let mut k: [u8; 32] = [0u8; 32];
    let mut i: usize = 0;
    while i < 32
        invariant
            i <= 32,
            full@ == identity_public_key_of(private_key@),
            forall|j: int| 0 <= j < i ==> k@[j] == full@[j + 32],
        decreases 32 - i,
    {
        k[i] = full[i + 32];
        i = i + 1;
    }
    assert(k@ =~= full@.subrange(32, 64));
    k
}

/// How the server brings up a configured interface.
#[derive(Debug)]
pub enum InterfacePlan {
    TcpClient { name: String, target_host: String, target_port: u16 },
    TcpServer { name: String, listen_ip: String, listen_port: u16 },
    Udp { name: String, listen_ip: String, listen_port: u16, forward_ip: String, forward_port: u16 },
}

/// An interface plan as values.
pub enum PlanView {
    TcpClient { name: Seq<char>, target_host: Seq<char>, target_port: u16 },
    TcpServer { name: Seq<char>, listen_ip: Seq<char>, listen_port: u16 },
    Udp { name: Seq<char>, listen_ip: Seq<char>, listen_port: u16, forward_ip: Seq<char>, forward_port: u16 },
}

impl InterfacePlan {
    pub open spec fn plan_view(&self) -> PlanView {
        match self {
            InterfacePlan::TcpClient { name, target_host, target_port } => PlanView::TcpClient {
                name: name@,
                target_host: target_host@,
                target_port: *target_port,
            },
            InterfacePlan::TcpServer { name, listen_ip, listen_port } => PlanView::TcpServer {
                name: name@,
                listen_ip: listen_ip@,
                listen_port: *listen_port,
            },
            InterfacePlan::Udp { name, listen_ip, listen_port, forward_ip, forward_port } => PlanView::Udp {
                name: name@,
                listen_ip: listen_ip@,
                listen_port: *listen_port,
                forward_ip: forward_ip@,
                forward_port: *forward_port,
            },
        }
    }
}

/// The values of a list of plans.
pub open spec fn plans_view(v: Seq<InterfacePlan>) -> Seq<PlanView> {
    v.map_values(|p: InterfacePlan| p.plan_view())
}

/// The plan for an interface: a TCP client connects to its target; a TCP
/// server listens on all addresses; a UDP interface listens on its bind
/// address and port and broadcasts to that port.
pub open spec fn plan_of(i: InterfaceSpec) -> PlanView {
    match i.kind {
        InterfaceKind::TcpClient { target_host, target_port } => PlanView::TcpClient {
            name: i.name,
            target_host,
            target_port,
        },
        InterfaceKind::TcpServer { listen_port } => PlanView::TcpServer {
            name: i.name,
            listen_ip: "0.0.0.0"@,
            listen_port,
        },
        InterfaceKind::Udp { bind_addr } => PlanView::Udp {
            name: i.name,
            listen_ip: udp_endpoint_spec(bind_addr).0,
            listen_port: udp_endpoint_spec(bind_addr).1,
            forward_ip: "255.255.255.255"@,
            forward_port: udp_endpoint_spec(bind_addr).1,
        },
    }
}

/// The plans of the enabled interfaces, in order.
pub open spec fn plans_of(s: Seq<InterfaceSpec>) -> Seq<PlanView>
    decreases s.len(),
{
    if s.len() == 0 {
        Seq::empty()
    } else {
        let p = plans_of(s.drop_last());
        if s.last().enabled {
            p.push(plan_of(s.last()))
        } else {
            p
        }
    }
}

/// The interfaces the server brings up for a configuration: one plan for
/// each enabled interface, in order.
pub fn interface_plans(config: &RnsConfig) -> (plans: Vec<InterfacePlan>)
    ensures
        plans_view(plans@) == plans_of(interfaces_spec(config.interfaces@)),
{
    let ghost all = interfaces_spec(config.interfaces@);
    let mut plans: Vec<InterfacePlan> = Vec::new();
    let mut i: usize = 0;
    assert(all.take(0) =~= Seq::<InterfaceSpec>::empty());
    assert(plans_view(plans@) =~= Seq::<PlanView>::empty());
    while i < config.interfaces.len()
        invariant
            i <= config.interfaces@.len(),
            all == interfaces_spec(config.interfaces@),
            plans_view(plans@) == plans_of(all.take(i as int)),
        decreases config.interfaces@.len() - i,
    {
        let iface = &config.interfaces[i];
        let ghost t = all.take(i + 1);
        assert(t.drop_last() =~= all.take(i as int));
        assert(t.last() == iface.spec());
        if iface.enabled {
            let plan = match &iface.iface_type {
                InterfaceType::TcpClient { target_host, target_port } => InterfacePlan::TcpClient {
                    name: iface.name.clone(),
                    target_host: target_host.clone(),
                    target_port: *target_port,
                },
                InterfaceType::TcpServer { listen_port } => InterfacePlan::TcpServer {
                    name: iface.name.clone(),
                    listen_ip: String::from_str("0.0.0.0"),
                    listen_port: *listen_port,
                },
                InterfaceType::Udp { bind_addr } => {
                    let (listen_ip, listen_port) = udp_listen_endpoint(bind_addr.as_str());
                    InterfacePlan::Udp {
                        name: iface.name.clone(),
                        listen_ip,
                        listen_port,
                        forward_ip: String::from_str("255.255.255.255"),
                        forward_port: listen_port,
                    }
                },
            };
            assert(plan.plan_view() == plan_of(iface.spec()));
            let ghost prev = plans@;
            plans.push(plan);
            assert(plans_view(plans@) =~= plans_view(prev).push(plan_of(iface.spec())));
        }
        i = i + 1;
    }
    assert(all.take(i as int) =~= all);
    plans
}

} // verus!
