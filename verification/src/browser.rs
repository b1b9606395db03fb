//! Browsing remote NomadNet nodes: request fields carried in URLs, and the
//! link and pending-request state that decides which events a response or a
//! link change produces. The program that runs the browser performs the
//! network calls and delivers the events.

use vstd::prelude::*;
use vstd::string::*;
use vstd::utf8::encode_utf8;

use crate::assoc::AssocList;
use crate::node::copy_bytes;
use crate::text::{chars_of, find, find_char, join, lemma_find, string_of_range};
use crate::rns::send_request;
use crate::types::{BrowseEvent, NomadError};

verus! {

/// A request sent, or to be sent, on a link: the page path and its data.
#[derive(Debug)]
pub struct PendingRequest {
    pub path: String,
    pub data: Vec<u8>,
}

/// A request as values.
pub type RequestView = (Seq<char>, Seq<u8>);

/// The views of a queue of requests.
pub open spec fn requests_view(q: Seq<PendingRequest>) -> Seq<RequestView> {
    q.map_values(|r: PendingRequest| (r.path@, r.data@))
}

/// A URL with its form fields taken apart.
#[derive(Debug)]
pub struct ParsedUrlFields {
    pub url: String,
    pub fields: Vec<(String, String)>,
}

/// A field as values.
pub type FieldView = (Seq<char>, Seq<char>);

/// The views of a list of fields.
pub open spec fn fields_view(f: Seq<(String, String)>) -> Seq<FieldView> {
    f.map_values(|p: (String, String)| (p.0@, p.1@))
}

/// The pieces of `s` between occurrences of `c` (what `str::split` yields;
/// always one more piece than there are separators).
pub open spec fn split_on(s: Seq<char>, c: char) -> Seq<Seq<char>>
    decreases s.len(),
{
    if s.len() == 0 {
        seq![Seq::<char>::empty()]
    } else {
        let p = split_on(s.drop_last(), c);
        if s.last() == c {
            p.push(Seq::empty())
        } else {
            p.update(p.len() - 1, p.last().push(s.last()))
        }
    }
}

/// The field an entry `name=value` names: `var_name` and `value`, split at
/// the first `=`; nothing for an entry without `=`.
pub open spec fn field_of(entry: Seq<char>) -> Option<FieldView> {
    match find(entry, '=') {
        Some(i) => Some(("var_"@ + entry.take(i), entry.skip(i + 1))),
        None => None,
    }
}

/// The fields of a list of entries, in order, skipping entries without `=`.
pub open spec fn fields_of(entries: Seq<Seq<char>>) -> Seq<FieldView>
    decreases entries.len(),
{
    if entries.len() == 0 {
        Seq::empty()
    } else {
        let prev = fields_of(entries.drop_last());
        match field_of(entries.last()) {
            Some(f) => prev.push(f),
            None => prev,
        }
    }
}

/// What `parse_url_fields` makes of `url`: the part before the first
/// backtick, and the fields of the `|`-separated entries after it.
pub open spec fn url_fields_spec(url: Seq<char>) -> (Seq<char>, Seq<FieldView>) {
    match find(url, '`') {
        Some(i) => (url.take(i), fields_of(split_on(url.skip(i + 1), '|'))),
        None => (url, Seq::empty()),
    }
}

/// The field parsed from `entry`, when it has one.
fn parse_field(entry: &[char]) -> (r: Option<(String, String)>)
    ensures
        match field_of(entry@) {
            Some(f) => r matches Some(p) && p.0@ == f.0 && p.1@ == f.1,
            None => r is None,
        },
{
    proof { lemma_find(entry@, '='); }
    match find_char(entry, '=') {
        Some(i) => {
            let n = entry.len();
            assert(i < n);
            let mut key = String::from_str("var_");
            let name = string_of_range(entry, 0, i);
            key.append(name.as_str());
            let value = string_of_range(entry, i + 1, n);
            assert(entry@.subrange(0, i as int) =~= entry@.take(i as int));
            assert(entry@.subrange(i + 1, entry@.len() as int) =~= entry@.skip(i + 1));
            Some((key, value))
        },
        None => None,
    }
}

/// Splits the backtick-delimited form fields off a NomadNet URL: the entries
/// `name=value` after the first backtick, separated by `|`, become fields
/// `var_name` = `value`.
pub fn parse_url_fields(url: &str) -> (r: ParsedUrlFields)
    ensures
        r.url@ == url_fields_spec(url@).0,
        fields_view(r.fields@) == url_fields_spec(url@).1,
{
    let chars = chars_of(url);
    proof { lemma_find(url@, '`'); }
    match find_char(&chars, '`') {
        Some(i) => {
            let n = chars.len();
            assert(i < n);
            let base = string_of_range(&chars, 0, i);
            assert(chars@.subrange(0, i as int) =~= url@.take(i as int));
            let ghost rest = url@.skip(i + 1);
            let mut fields: Vec<(String, String)> = Vec::new();
            let mut piece: Vec<char> = Vec::new();
            let ghost mut done: Seq<Seq<char>> = Seq::empty();
            let mut j: usize = i + 1;
            proof {
                assert(rest.take(0) =~= Seq::<char>::empty());
                assert(split_on(rest.take(0), '|') == done.push(piece@));
                assert(fields_view(fields@) =~= fields_of(done));
            }
            while j < chars.len()
                invariant
                    i < j <= chars@.len(),
                    chars@ == url@,
                    rest == url@.skip(i + 1),
                    split_on(rest.take(j - i - 1), '|') == done.push(piece@),
                    fields_view(fields@) == fields_of(done),
                decreases chars@.len() - j,
            {
                let c = chars[j];
                let ghost k = j - i - 1;
                proof {
                    assert(rest.take(k + 1).drop_last() =~= rest.take(k));
                    assert(rest.take(k + 1).last() == c);
                }
                if c == '|' {
                    let f = parse_field(&piece);
                    let ghost before = fields@;
                    match f {
                        Some(p) => {
                            fields.push(p);
                            assert(fields_view(fields@) =~= fields_view(before).push((p.0@, p.1@)));
                        },
                        None => {},
                    }
                    proof {
                        assert(done.push(piece@).drop_last() =~= done);
                        done = done.push(piece@);
                    }
                    piece = Vec::new();
                    proof {
                        assert(split_on(rest.take(k + 1), '|') =~= done.push(piece@));
                    }
                } else {
                    let ghost old_piece = piece@;
                    piece.push(c);
                    proof {
                        assert(split_on(rest.take(k + 1), '|') =~= done.push(piece@));
                    }
                }
                j = j + 1;
            }
            proof {
                assert(rest.take(j - i - 1) =~= rest);
            }
            let f = parse_field(&piece);
            let ghost before = fields@;
            match f {
                Some(p) => {
                    fields.push(p);
                    assert(fields_view(fields@) =~= fields_view(before).push((p.0@, p.1@)));
                },
                None => {},
            }
            proof {
                assert(done.push(piece@).drop_last() =~= done);
            }
            ParsedUrlFields { url: base, fields }
        },
        None => {
            assert(fields_view(Seq::<(String, String)>::empty()) =~= Seq::<FieldView>::empty());
            ParsedUrlFields { url: String::from_str(url), fields: Vec::new() }
        },
    }
}

/// The request data sent for a file: `data` when given, else the URL's
/// fields as `name=value` entries separated by NUL characters, in UTF-8.
pub open spec fn file_request_data_spec(path: Seq<char>, data: Option<Seq<u8>>) -> Seq<u8> {
    match data {
        Some(d) => d,
        None => encode_utf8(join(url_fields_spec(path).1.map_values(|f: FieldView| f.0 + "="@ + f.1), "\u{0}"@)),
    }
}

/// The view of an optional byte slice.
pub open spec fn opt_bytes_view(d: Option<&[u8]>) -> Option<Seq<u8>> {
    match d {
        Some(x) => Some(x@),
        None => None,
    }
}

/// The request data sent when fetching the file at `path`.
pub fn file_request_data(path: &str, data: Option<&[u8]>) -> (r: Vec<u8>)
    ensures
        r@ == file_request_data_spec(path@, opt_bytes_view(data)),
{
    match data {
        Some(d) => {
            let v = vstd::slice::slice_to_vec(d);
            assert(v@ =~= d@);
            v
        },
        None => {
            let parsed = parse_url_fields(path);
            let ghost entries = url_fields_spec(path@).1.map_values(|f: FieldView| f.0 + "="@ + f.1);
            let mut text = String::new();
            let mut i: usize = 0;
            while i < parsed.fields.len()
                invariant
                    i <= parsed.fields@.len(),
                    fields_view(parsed.fields@) == url_fields_spec(path@).1,
                    entries == url_fields_spec(path@).1.map_values(|f: FieldView| f.0 + "="@ + f.1),
                    text@ == join(entries.take(i as int), "\u{0}"@),
                decreases parsed.fields@.len() - i,
            {
                proof {
                    assert(entries.take(i + 1).drop_last() =~= entries.take(i as int));
                    assert(entries[i as int] == parsed.fields@[i as int].0@ + "="@ + parsed.fields@[i as int].1@);
                }
                if i > 0 {
                    text.append("\u{0}");
                }
                text.append(parsed.fields[i].0.as_str());
                text.append("=");
                text.append(parsed.fields[i].1.as_str());
                i = i + 1;
            }
            assert(entries.take(i as int) =~= entries);
            text.as_str().as_bytes_vec()
        },
    }
}

/// A request handed to a node: the link, the path and the data.
pub type SentView = (Seq<u8>, Seq<char>, Seq<u8>);

/// The requests handed to a node, oldest first. It is a record for the
/// contracts only: it holds nothing at run time.
pub struct SentRequests {
    sent: Ghost<Seq<SentView>>,
}

impl SentRequests {
    /// The requests handed over so far.
    pub closed spec fn sent(&self) -> Seq<SentView> {
        self.sent@
    }

    pub fn new() -> (l: Self)
        ensures
            l.sent() == Seq::<SentView>::empty(),
    {
        SentRequests { sent: Ghost(Seq::empty()) }
    }
}

/// The queued requests as handed over on `link`.
pub open spec fn sent_on(link: Seq<u8>, q: Seq<RequestView>) -> Seq<SentView> {
    q.map_values(|r: RequestView| (link, r.0, r.1))
}

/// Sends a request for `path` with `data` on `link_id` through `node`: the
/// link, path and data are handed to the node, and a failure of the node is
/// reported as `SendFailed`.
pub fn send_on_link(
    node: &rns_net::RnsNode,
    log: &mut SentRequests,
    link_id: [u8; 16],
    path: &str,
    data: &[u8],
) -> (r: Result<(), NomadError>)
    ensures
        final(log).sent() == old(log).sent().push((link_id@, path@, data@)),
        r is Ok || r matches Err(NomadError::SendFailed(_)),
{
    match send_request(node, log, link_id, path, data) {
        Ok(()) => Ok(()),
        Err(e) => Err(NomadError::from(e)),
    }
}

/// Sends the requests queued on a newly established link `link_id`, in
/// order, through `node`, stopping at the first that fails: on success all
/// were handed over, on failure the first `n` of them, after which it
/// stopped. Without a node nothing is sent.
pub fn send_queued(
    node: Option<&rns_net::RnsNode>,
    log: &mut SentRequests,
    link_id: [u8; 16],
    queued: &[PendingRequest],
) -> (r: Result<(), NomadError>)
    ensures
        node is None ==> r is Ok && final(log).sent() == old(log).sent(),
        r is Ok && node is Some ==> final(log).sent() == old(log).sent() + sent_on(
            link_id@,
            requests_view(queued@),
        ),
        r is Ok || r matches Err(NomadError::SendFailed(_)),
        r is Err ==> node is Some && exists|n: int|
            1 <= n <= queued@.len() && final(log).sent() == old(log).sent() + #[trigger] sent_on(
                link_id@,
                requests_view(queued@),
            ).take(n),
{
    let sender = match node {
        Some(n) => n,
        None => return Ok(()),
    };
    let ghost all = sent_on(link_id@, requests_view(queued@));
    let ghost start = log.sent();
    let mut i: usize = 0;
    assert(all.take(0) =~= Seq::<SentView>::empty());
    assert(start + all.take(0) =~= start);
    while i < queued.len()
        invariant
            i <= queued@.len(),
            node is Some,
            all == sent_on(link_id@, requests_view(queued@)),
            start == old(log).sent(),
            log.sent() == start + all.take(i as int),
        decreases queued@.len() - i,
    {
        let ghost before = log.sent();
        let result = send_on_link(sender, log, link_id, queued[i].path.as_str(), queued[i].data.as_slice());
        proof {
            assert(all[i as int] == (link_id@, queued@[i as int].path@, queued@[i as int].data@));
            assert(all.take(i + 1) =~= all.take(i as int).push(all[i as int]));
            assert(log.sent() =~= start + all.take(i + 1));
        }
        match result {
            Ok(()) => {},
            Err(e) => {
                assert(log.sent() == start + all.take(i + 1));
                return Err(e);
            },
        }
        i = i + 1;
    }
    assert(all.take(i as int) =~= all);
    Ok(())
}

/// The path names a file (it starts with `/file/`).
pub open spec fn is_file_path(p: Seq<char>) -> bool {
    p.len() >= 6 && p[0] == '/' && p[1] == 'f' && p[2] == 'i' && p[3] == 'l' && p[4] == 'e' && p[5] == '/'
}

fn starts_with_file(path: &String) -> (b: bool)
    ensures
        b == is_file_path(path@),
{
    let c = chars_of(path.as_str());
    c.len() >= 6 && c[0] == '/' && c[1] == 'f' && c[2] == 'i' && c[3] == 'l' && c[4] == 'e' && c[5] == '/'
}

/// A copy of a request.
fn copy_request(r: &PendingRequest) -> (c: PendingRequest)
    ensures
        c.path@ == r.path@,
        c.data@ == r.data@,
{
    PendingRequest { path: r.path.clone(), data: copy_bytes(&r.data) }
}

/// Copies of a queue of requests.
fn copy_requests(q: &Vec<PendingRequest>) -> (c: Vec<PendingRequest>)
    ensures
        requests_view(c@) == requests_view(q@),
{
    let mut c: Vec<PendingRequest> = Vec::new();
    let mut i: usize = 0;
    while i < q.len()
        invariant
            i <= q@.len(),
            requests_view(c@) == requests_view(q@).take(i as int),
        decreases q@.len() - i,
    {
        let r = copy_request(&q[i]);
        let ghost before = c@;
        let ghost rv = (r.path@, r.data@);
        c.push(r);
        assert(requests_view(c@) =~= requests_view(before).push(rv));
        assert(requests_view(q@)[i as int] == rv);
        assert(requests_view(q@).take(i + 1) =~= requests_view(q@).take(i as int).push(rv));
        i = i + 1;
    }
    assert(requests_view(q@).take(i as int) =~= requests_view(q@));
    c
}

/// The requests waiting on a link, oldest first, as values.
pub open spec fn queue_of(pending: Map<Seq<u8>, Seq<RequestView>>, link: Seq<u8>) -> Seq<RequestView> {
    if pending.contains_key(link) {
        pending[link]
    } else {
        Seq::empty()
    }
}

/// The browser's state: for each link the destination it leads to and the
/// requests sent on it that await a response (oldest first), and for each
/// destination its link.
pub struct NomadBrowser {
    pending: AssocList<[u8; 16], Vec<PendingRequest>>,
    link_to_dest: AssocList<[u8; 16], [u8; 16]>,
    dest_to_link: AssocList<[u8; 16], [u8; 16]>,
}

impl NomadBrowser {
    /// Requests awaiting a response, by link.
    pub closed spec fn pending_view(&self) -> Map<Seq<u8>, Seq<RequestView>> {
        self.pending.map().map_values(|q: Vec<PendingRequest>| requests_view(q@))
    }

    /// The destination of each link.
    pub closed spec fn links(&self) -> Map<Seq<u8>, Seq<u8>> {
        self.link_to_dest.map().map_values(|d: [u8; 16]| d@)
    }

    /// The link of each destination.
    pub closed spec fn dests(&self) -> Map<Seq<u8>, Seq<u8>> {
        self.dest_to_link.map().map_values(|l: [u8; 16]| l@)
    }

    pub fn new() -> (b: Self)
        ensures
            b.pending_view() == Map::<Seq<u8>, Seq<RequestView>>::empty(),
            b.links() == Map::<Seq<u8>, Seq<u8>>::empty(),
            b.dests() == Map::<Seq<u8>, Seq<u8>>::empty(),
    {
        let b = NomadBrowser { pending: AssocList::new(), link_to_dest: AssocList::new(), dest_to_link: AssocList::new() };
        assert(b.pending_view() =~= Map::<Seq<u8>, Seq<RequestView>>::empty());
        assert(b.links() =~= Map::<Seq<u8>, Seq<u8>>::empty());
        assert(b.dests() =~= Map::<Seq<u8>, Seq<u8>>::empty());
        b
    }

    /// Adds a request to the end of the queue of `link_id`.
    pub fn queue_request(&mut self, link_id: [u8; 16], path: &str, data: &[u8])
        ensures
            final(self).pending_view() == old(self).pending_view().insert(link_id@, queue_of(old(self).pending_view(), link_id@).push((path@, data@))),
            final(self).links() == old(self).links(),
            final(self).dests() == old(self).dests(),
    {
        let mut queue = match self.pending.remove(&link_id) {
            Some(q) => q,
            None => Vec::new(),
        };
        let ghost q0 = requests_view(queue@);
        assert(q0 == queue_of(old(self).pending_view(), link_id@));
        let d = vstd::slice::slice_to_vec(data);
        assert(d@ =~= data@);
        queue.push(PendingRequest { path: String::from_str(path), data: d });
        assert(requests_view(queue@) =~= q0.push((path@, data@)));
        self.pending.insert(link_id, queue);
        assert(self.pending_view() =~= old(self).pending_view().insert(link_id@, q0.push((path@, data@))));
    }

    /// Records that the link `link_id` to `dest_hash` is up, and returns the
    /// event to emit and the requests queued on that link, which are to be
    /// sent now (they stay queued until their responses come).
    pub fn handle_link_established(&mut self, link_id: [u8; 16], dest_hash: [u8; 16]) -> (r: (BrowseEvent, Vec<PendingRequest>))
        ensures
            final(self).links() == old(self).links().insert(link_id@, dest_hash@),
            final(self).dests() == old(self).dests().insert(dest_hash@, link_id@),
            final(self).pending_view() == old(self).pending_view(),
            r.0 matches BrowseEvent::LinkEstablished { dest_hash: d, link_id: l } && d@ == dest_hash@ && l@ == link_id@,
            requests_view(r.1@) == queue_of(old(self).pending_view(), link_id@),
    {
        self.link_to_dest.insert(link_id, dest_hash);
        self.dest_to_link.insert(dest_hash, link_id);
        assert(self.links() =~= old(self).links().insert(link_id@, dest_hash@));
        assert(self.dests() =~= old(self).dests().insert(dest_hash@, link_id@));
        let queued = match self.pending.get(&link_id) {
            Some(q) => copy_requests(q),
            None => {
                assert(requests_view(Seq::<PendingRequest>::empty()) =~= Seq::<RequestView>::empty());
                Vec::new()
            },
        };
        (BrowseEvent::LinkEstablished { dest_hash, link_id }, queued)
    }

    /// Delivers a response on `link_id`: it answers the oldest request
    /// waiting on that link, which leaves the queue; the event says what
    /// was received (a file for `/file/` paths, else a page). A response on
    /// an unknown link, or on a link with nothing waiting, changes nothing.
    pub fn handle_response(&mut self, link_id: [u8; 16], request_id: [u8; 16], data: Vec<u8>) -> (r: Option<BrowseEvent>)
        ensures
            final(self).links() == old(self).links(),
            final(self).dests() == old(self).dests(),
            if old(self).links().contains_key(link_id@) && queue_of(old(self).pending_view(), link_id@).len() > 0 {
                let q = old(self).pending_view()[link_id@];
                let path = q[0].0;
                &&& final(self).pending_view() == (if q.len() == 1 {
                    old(self).pending_view().remove(link_id@)
                } else {
                    old(self).pending_view().insert(link_id@, q.drop_first())
                })
                &&& if is_file_path(path) {
                    r matches Some(BrowseEvent::FileReceived { dest_hash, path: p, content })
                        && dest_hash@ == old(self).links()[link_id@] && p@ == path && content@ == data@
                } else {
                    r matches Some(BrowseEvent::PageReceived { dest_hash, path: p, content })
                        && dest_hash@ == old(self).links()[link_id@] && p@ == path && content@ == data@
                }
            } else {
                r is None && final(self).pending_view() == old(self).pending_view()
            },
    {
        let dest_hash = match self.link_to_dest.get(&link_id) {
            Some(d) => *d,
            None => return None,
        };
        let mut queue = match self.pending.remove(&link_id) {
            Some(q) => q,
            None => {
                assert(self.pending_view() =~= old(self).pending_view());
                return None;
            },
        };
        if queue.len() == 0 {
            self.pending.insert(link_id, queue);
            assert(self.pending_view() =~= old(self).pending_view());
            return None;
        }
        let ghost q = requests_view(queue@);
        let req = queue.remove(0);
        assert(requests_view(queue@) =~= q.drop_first());
        if queue.len() > 0 {
            self.pending.insert(link_id, queue);
            assert(self.pending_view() =~= old(self).pending_view().insert(link_id@, q.drop_first()));
        } else {
            assert(self.pending_view() =~= old(self).pending_view().remove(link_id@));
        }
        let path = req.path;
        if starts_with_file(&path) {
            Some(BrowseEvent::FileReceived { dest_hash, path, content: data })
        } else {
            Some(BrowseEvent::PageReceived { dest_hash, path, content: data })
        }
    }

    /// Forgets the link `link_id` and the requests waiting on it; when the
    /// link was known, its destination loses its link and the returned event
    /// reports the closing.
    pub fn handle_link_closed(&mut self, link_id: [u8; 16], reason: Option<String>) -> (r: Option<BrowseEvent>)
        ensures
            final(self).links() == old(self).links().remove(link_id@),
            final(self).pending_view() == old(self).pending_view().remove(link_id@),
            if old(self).links().contains_key(link_id@) {
                &&& final(self).dests() == old(self).dests().remove(old(self).links()[link_id@])
                &&& r matches Some(BrowseEvent::LinkClosed { dest_hash, link_id: l, reason: why })
                    && dest_hash@ == old(self).links()[link_id@] && l@ == link_id@ && why == reason
            } else {
                r is None && final(self).dests() == old(self).dests()
            },
    {
        let dest = self.link_to_dest.remove(&link_id);
        assert(self.links() =~= old(self).links().remove(link_id@));
        let _ = self.pending.remove(&link_id);
        assert(self.pending_view() =~= old(self).pending_view().remove(link_id@));
        match dest {
            Some(dest_hash) => {
                let _ = self.dest_to_link.remove(&dest_hash);
                assert(self.dests() =~= old(self).dests().remove(dest_hash@));
                Some(BrowseEvent::LinkClosed { dest_hash, link_id, reason })
            },
            None => None,
        }
    }

    /// Routes a request for `path` on `dest_hash`: when a link to the
    /// destination exists the request joins that link's queue and the link
    /// is returned (the request is to be sent on it now); otherwise nothing
    /// changes and a link is to be created first (then `queue_request`).
    pub fn route_request(&mut self, dest_hash: [u8; 16], path: &str, data: &[u8]) -> (r: Option<[u8; 16]>)
        ensures
            final(self).links() == old(self).links(),
            final(self).dests() == old(self).dests(),
            if old(self).dests().contains_key(dest_hash@) {
                let link = old(self).dests()[dest_hash@];
                &&& r matches Some(l) && l@ == link
                &&& final(self).pending_view() == old(self).pending_view().insert(link, queue_of(old(self).pending_view(), link).push((path@, data@)))
            } else {
                r is None && final(self).pending_view() == old(self).pending_view()
            },
    {
        let link = match self.dest_to_link.get(&dest_hash) {
            Some(l) => *l,
            None => return None,
        };
        self.queue_request(link, path, data);
        Some(link)
    }

    /// Settles a request for `path` on `dest_hash` that needed a new link:
    /// when the link was created the request waits on it until the link is
    /// established; when creating it failed nothing changes and the returned
    /// event reports the failure.
    pub fn handle_link_creation(
        &mut self,
        dest_hash: [u8; 16],
        created: Result<[u8; 16], String>,
        path: &str,
        data: &[u8],
    ) -> (r: Option<BrowseEvent>)
        ensures
            final(self).links() == old(self).links(),
            final(self).dests() == old(self).dests(),
            match created {
                Ok(link) => r is None && final(self).pending_view() == old(self).pending_view().insert(
                    link@,
                    queue_of(old(self).pending_view(), link@).push((path@, data@)),
                ),
                Err(e) => {
                    &&& final(self).pending_view() == old(self).pending_view()
                    &&& r matches Some(BrowseEvent::LinkFailed { dest_hash: d, error })
                        && d@ == dest_hash@ && error@ == e@
                },
            },
    {
        match created {
            Ok(link) => {
                self.queue_request(link, path, data);
                None
            },
            Err(e) => Some(BrowseEvent::LinkFailed { dest_hash, error: e }),
        }
    }

    /// The link to `dest_hash`, when there is one.
    pub fn link_for(&self, dest_hash: &[u8; 16]) -> (r: Option<[u8; 16]>)
        ensures
            match r {
                Some(l) => self.dests().contains_key(dest_hash@) && l@ == self.dests()[dest_hash@],
                None => !self.dests().contains_key(dest_hash@),
            },
    {
        match self.dest_to_link.get(dest_hash) {
            Some(l) => Some(*l),
            None => None,
        }
    }

    /// The destination of `link_id`, when the link is known.
    pub fn dest_for(&self, link_id: &[u8; 16]) -> (r: Option<[u8; 16]>)
        ensures
            match r {
                Some(d) => self.links().contains_key(link_id@) && d@ == self.links()[link_id@],
                None => !self.links().contains_key(link_id@),
            },
    {
        match self.link_to_dest.get(link_id) {
            Some(d) => Some(*d),
            None => None,
        }
    }

    /// Copies of the requests waiting on `link_id`, oldest first, when the
    /// link has a queue.
    pub fn pending_requests(&self, link_id: &[u8; 16]) -> (r: Option<Vec<PendingRequest>>)
        ensures
            match r {
                Some(q) => self.pending_view().contains_key(link_id@) && requests_view(q@) == self.pending_view()[link_id@],
                None => !self.pending_view().contains_key(link_id@),
            },
    {
        match self.pending.get(link_id) {
            Some(q) => Some(copy_requests(q)),
            None => None,
        }
    }
}

impl Default for NomadBrowser {
    fn default() -> (b: Self)
        ensures
            b.pending_view() == Map::<Seq<u8>, Seq<RequestView>>::empty(),
            b.links() == Map::<Seq<u8>, Seq<u8>>::empty(),
            b.dests() == Map::<Seq<u8>, Seq<u8>>::empty(),
    {
        Self::new()
    }
}

} // verus!
