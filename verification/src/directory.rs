//! The directory of NomadNet nodes learnt from announces.

use vstd::prelude::*;
use vstd::string::*;
use vstd::utf8::{decode_utf8, valid_utf8};

use crate::node::node_dest_hash_of;
use crate::rns::{destination_hash, destination_hash_of, utf8_text};
use crate::types::{DirectoryEntry, MAX_DIRECTORY_ENTRIES};

verus! {

broadcast use vstd::seq_lib::to_multiset_insert;

/// An announce heard on the network, with the values the directory reads:
/// the announced destination, the announcing identity, the application
/// data, the hop count and the bits (`f64::to_bits`) of the time it was
/// received.
pub struct Announce {
    pub dest_hash: [u8; 16],
    pub identity_hash: [u8; 16],
    pub app_data: Option<Vec<u8>>,
    pub hops: u8,
    pub received_at_bits: u64,
}

/// A directory entry as values: destination hash, identity hash, node
/// name, hops, bits of the last-seen time.
pub type EntryView = (Seq<u8>, Seq<u8>, Option<Seq<char>>, u8, u64);

/// The view of a directory entry.
pub open spec fn entry_view(e: DirectoryEntry) -> EntryView {
    (
        e.dest_hash@,
        e.identity_hash@,
        match e.node_name {
            Some(n) => Some(n@),
            None => None,
        },
        e.hops,
        e.last_seen_bits,
    )
}

/// The views of a sequence of entries.
pub open spec fn entries_view(s: Seq<DirectoryEntry>) -> Seq<EntryView> {
    s.map_values(|e: DirectoryEntry| entry_view(e))
}

/// The node name carried by an announce: its application data when that is
/// valid UTF-8.
pub open spec fn announce_name(app_data: Option<Seq<u8>>) -> Option<Seq<char>> {
    match app_data {
        Some(d) => if valid_utf8(d) { Some(decode_utf8(d)) } else { None },
        None => None,
    }
}

/// The view of an announce's application data.
pub open spec fn app_data_view(a: &Announce) -> Option<Seq<u8>> {
    match a.app_data {
        Some(d) => Some(d@),
        None => None,
    }
}

/// The bits of an `f64` NaN.
pub open spec fn is_nan_bits(bits: u64) -> bool {
    bits % 0x8000_0000_0000_0000 > 0x7ff0_0000_0000_0000
}

/// Recording an announce of destination `dest_hash` by `identity_hash`
/// at time `bits` would order a NaN time: it is a new node's announce that
/// makes the directory overfull, and that time or a known node's is NaN.
pub open spec fn eviction_orders_nan(s: Seq<EntryView>, dest_hash: Seq<u8>, identity_hash: Seq<u8>, bits: u64) -> bool {
    &&& is_node_announce(dest_hash, identity_hash)
    &&& first_with_dest(s, dest_hash) is None
    &&& s.len() + 1 > MAX_DIRECTORY_ENTRIES
    &&& (is_nan_bits(bits) || exists|k: int| 0 <= k < s.len() && is_nan_bits(#[trigger] s[k].4))
}

/// Whether `bits` are those of a NaN.
fn is_nan_time(bits: u64) -> (b: bool)
    ensures
        b == is_nan_bits(bits),
{
    bits % 0x8000_0000_0000_0000 > 0x7ff0_0000_0000_0000
}

/// An integer that orders the `f64` values with these bits as `<` orders
/// them (negative and positive zero alike), for values that are not NaN.
pub open spec fn seen_key(bits: u64) -> int {
    if bits == 0x8000_0000_0000_0000 {
        0x8000_0000_0000_0000
    } else if bits >= 0x8000_0000_0000_0000 {
        0xffff_ffff_ffff_ffff - bits
    } else {
        bits + 0x8000_0000_0000_0000
    }
}

/// `e` inserted into `s` after every entry seen no later than it.
pub open spec fn insert_by_seen(s: Seq<EntryView>, e: EntryView) -> Seq<EntryView>
    decreases s.len(),
{
    if s.len() == 0 {
        seq![e]
    } else if seen_key(s.last().4) <= seen_key(e.4) {
        s.push(e)
    } else {
        insert_by_seen(s.drop_last(), e).push(s.last())
    }
}

/// `s` stably sorted by last-seen time, earliest first.
pub open spec fn sort_by_seen(s: Seq<EntryView>) -> Seq<EntryView>
    decreases s.len(),
{
    if s.len() == 0 {
        Seq::empty()
    } else {
        insert_by_seen(sort_by_seen(s.drop_last()), s.last())
    }
}

/// The position of the first entry for destination `d`.
pub open spec fn first_with_dest(s: Seq<EntryView>, d: Seq<u8>) -> Option<int>
    decreases s.len(),
{
    if s.len() == 0 {
        None
    } else if s[0].0 == d {
        Some(0)
    } else {
        match first_with_dest(s.drop_first(), d) {
            Some(i) => Some(i + 1),
            None => None,
        }
    }
}

/// The position of the first entry for identity `h`.
pub open spec fn first_with_identity(s: Seq<EntryView>, h: Seq<u8>) -> Option<int>
    decreases s.len(),
{
    if s.len() == 0 {
        None
    } else if s[0].1 == h {
        Some(0)
    } else {
        match first_with_identity(s.drop_first(), h) {
            Some(i) => Some(i + 1),
            None => None,
        }
    }
}

/// An announce of a NomadNet node: its destination is the node destination
/// of its identity.
pub open spec fn is_node_announce(dest_hash: Seq<u8>, identity_hash: Seq<u8>) -> bool {
    dest_hash == node_dest_hash_of(identity_hash)
}

/// The directory after an announce: other announces change nothing; a known
/// node gets the new name, hops and time; a new node is appended, and when
/// that makes too many the entries are sorted by last-seen time, earliest
/// first, and only the first `MAX_DIRECTORY_ENTRIES` kept.
pub open spec fn after_announce(
    s: Seq<EntryView>,
    dest_hash: Seq<u8>,
    identity_hash: Seq<u8>,
    app_data: Option<Seq<u8>>,
    hops: u8,
    bits: u64,
) -> Seq<EntryView> {
    if !is_node_announce(dest_hash, identity_hash) {
        s
    } else {
        let name = announce_name(app_data);
        match first_with_dest(s, dest_hash) {
            Some(i) => s.update(i, (s[i].0, s[i].1, name, hops, bits)),
            None => {
                let added = s.push((dest_hash, identity_hash, name, hops, bits));
                if added.len() > MAX_DIRECTORY_ENTRIES {
                    sort_by_seen(added).take(MAX_DIRECTORY_ENTRIES as int)
                } else {
                    added
                }
            },
        }
    }
}

/// Facts about `first_with_dest`.
pub proof fn lemma_first_with_dest(s: Seq<EntryView>, d: Seq<u8>)
    ensures
        match first_with_dest(s, d) {
            Some(i) => 0 <= i < s.len() && s[i].0 == d && forall|k: int| 0 <= k < i ==> s[k].0 != d,
            None => forall|k: int| 0 <= k < s.len() ==> s[k].0 != d,
        },
    decreases s.len(),
{
    if s.len() > 0 && s[0].0 != d {
        lemma_first_with_dest(s.drop_first(), d);
        assert forall|k: int| 1 <= k < s.len() implies s[k] == s.drop_first()[k - 1] by {}
    }
}

/// Facts about `first_with_identity`.
pub proof fn lemma_first_with_identity(s: Seq<EntryView>, h: Seq<u8>)
    ensures
        match first_with_identity(s, h) {
            Some(i) => 0 <= i < s.len() && s[i].1 == h && forall|k: int| 0 <= k < i ==> s[k].1 != h,
            None => forall|k: int| 0 <= k < s.len() ==> s[k].1 != h,
        },
    decreases s.len(),
{
    if s.len() > 0 && s[0].1 != h {
        lemma_first_with_identity(s.drop_first(), h);
        assert forall|k: int| 1 <= k < s.len() implies s[k] == s.drop_first()[k - 1] by {}
    }
}

/// Inserting by last-seen time scans back over the later entries:
/// the insertion point `j` is past every entry not later than `e`.
proof fn lemma_insert_by_seen_split(s: Seq<EntryView>, e: EntryView, j: int)
    requires
        0 <= j <= s.len(),
        forall|k: int| j <= k < s.len() ==> seen_key(s[k].4) > seen_key(e.4),
    ensures
        insert_by_seen(s, e) == insert_by_seen(s.take(j), e) + s.skip(j),
    decreases s.len() - j,
{
    if j < s.len() {
        lemma_insert_by_seen_split(s, e, j + 1);
        let t = s.take(j + 1);
        assert(t.drop_last() =~= s.take(j));
        assert(t.last() == s[j]);
        assert(insert_by_seen(t, e) == insert_by_seen(s.take(j), e).push(s[j]));
        assert(s.skip(j) =~= seq![s[j]] + s.skip(j + 1));
        assert(insert_by_seen(s.take(j), e).push(s[j]) + s.skip(j + 1) =~= insert_by_seen(s.take(j), e) + s.skip(j));
    } else {
        assert(s.take(j) =~= s);
        assert(s.skip(j) =~= Seq::<EntryView>::empty());
        assert(insert_by_seen(s, e) + s.skip(j) =~= insert_by_seen(s, e));
    }
}

/// The directory of NomadNet nodes, in the order they were first heard
/// (until an eviction sorts them).
pub struct NomadDirectory {
    entries: Vec<DirectoryEntry>,
}

impl NomadDirectory {
    #[verifier::type_invariant]
    spec fn wf(self) -> bool {
        self.entries@.len() <= MAX_DIRECTORY_ENTRIES
    }

    /// The entries, as values.
    pub closed spec fn nodes(self) -> Seq<EntryView> {
        entries_view(self.entries@)
    }

    pub fn new() -> (d: Self)
        ensures
            d.nodes() == Seq::<EntryView>::empty(),
    {
        let d = NomadDirectory { entries: Vec::new() };
        assert(d.nodes() =~= Seq::<EntryView>::empty());
        d
    }

    /// Records an announce: only announces of NomadNet nodes are kept.
    /// When a new node makes the directory overfull, the entries are
    /// ordered by their last-seen times, which must then all be numbers.
    pub fn handle_announce(&mut self, announced: &Announce)
        requires
            ({
                let s = old(self).nodes();
                is_node_announce(announced.dest_hash@, announced.identity_hash@)
                    && first_with_dest(s, announced.dest_hash@) is None
                    && s.len() + 1 > MAX_DIRECTORY_ENTRIES
                    ==> !is_nan_bits(announced.received_at_bits)
                        && forall|k: int| 0 <= k < s.len() ==> !is_nan_bits(#[trigger] s[k].4)
            }),
        ensures
            final(self).nodes() == after_announce(
                old(self).nodes(),
                announced.dest_hash@,
                announced.identity_hash@,
                app_data_view(announced),
                announced.hops,
                announced.received_at_bits,
            ),
            final(self).nodes().len() <= MAX_DIRECTORY_ENTRIES,
    {
        proof { use_type_invariant(&*self); }
        if !is_nomadnet_announce(announced) {
            return;
        }
        let node_name = match &announced.app_data {
            Some(d) => utf8_text(d.as_slice()),
            None => None,
        };
        let ghost old_view = self.nodes();
        let ghost name_view = announce_name(app_data_view(announced));
        assert(match node_name { Some(n) => name_view == Some(n@), None => name_view is None });
        let mut entries: Vec<DirectoryEntry> = Vec::new();
        std::mem::swap(&mut entries, &mut self.entries);
        assert(entries_view(entries@) == old_view);
        let found = find_dest(&entries, &announced.dest_hash);
        match found {
            Some(idx) => {
                proof { lemma_first_with_dest(old_view, announced.dest_hash@); }
                let old_entry = entries.remove(idx);
                let updated = DirectoryEntry {
                    dest_hash: old_entry.dest_hash,
                    identity_hash: old_entry.identity_hash,
                    node_name,
                    hops: announced.hops,
                    last_seen_bits: announced.received_at_bits,
                };
                entries.insert(idx, updated);
                assert(entries_view(entries@) =~= old_view.update(idx as int, (old_view[idx as int].0, old_view[idx as int].1, name_view, announced.hops, announced.received_at_bits)));
                self.entries = entries;
            },
            None => {
                let entry = DirectoryEntry {
                    dest_hash: announced.dest_hash,
                    identity_hash: announced.identity_hash,
                    node_name,
                    hops: announced.hops,
                    last_seen_bits: announced.received_at_bits,
                };
                entries.push(entry);
                let ghost added = old_view.push((announced.dest_hash@, announced.identity_hash@, name_view, announced.hops, announced.received_at_bits));
                assert(entries_view(entries@) =~= added);
                if entries.len() > MAX_DIRECTORY_ENTRIES {
                    let ghost pre = entries@;
                    let mut sorted = sort_entries_by_seen(entries);
                    let ghost full = sorted@;
                    assert(entries_view(full) == sort_by_seen(added));
                    proof {
                        vstd::seq_lib::to_multiset_len(full);
                        vstd::seq_lib::to_multiset_len(pre);
                    }
                    sorted.truncate(MAX_DIRECTORY_ENTRIES);
                    assert(sorted@ == full.take(MAX_DIRECTORY_ENTRIES as int));
                    assert(entries_view(sorted@) =~= entries_view(full).take(MAX_DIRECTORY_ENTRIES as int));
                    self.entries = sorted;
                } else {
                    self.entries = entries;
                }
            },
        }
    }

    /// Records an announce when that needs no ordering of a time that is not
    /// a number: an announce of a new node that makes the directory overfull
    /// orders all last-seen times, and when one of them (the announce's
    /// among them) is NaN nothing is recorded and `false` is returned.
    pub fn record_announce(&mut self, announced: &Announce) -> (recorded: bool)
        ensures
            recorded == !eviction_orders_nan(
                old(self).nodes(),
                announced.dest_hash@,
                announced.identity_hash@,
                announced.received_at_bits,
            ),
            recorded ==> final(self).nodes() == after_announce(
                old(self).nodes(),
                announced.dest_hash@,
                announced.identity_hash@,
                app_data_view(announced),
                announced.hops,
                announced.received_at_bits,
            ),
            !recorded ==> final(self).nodes() == old(self).nodes(),
    {
        let ghost s = self.nodes();
        if is_nomadnet_announce(announced) && self.get_node(&announced.dest_hash).is_none()
            && self.len() >= MAX_DIRECTORY_ENTRIES {
            proof { lemma_first_with_dest(s, announced.dest_hash@); }
            if is_nan_time(announced.received_at_bits) {
                return false;
            }
            let mut i: usize = 0;
            while i < self.entries.len()
                invariant
                    i <= self.entries@.len(),
                    s == self.nodes(),
                    s == old(self).nodes(),
                    is_node_announce(announced.dest_hash@, announced.identity_hash@),
                    first_with_dest(s, announced.dest_hash@) is None,
                    s.len() + 1 > MAX_DIRECTORY_ENTRIES,
                    forall|k: int| 0 <= k < i ==> !is_nan_bits(#[trigger] s[k].4),
                decreases self.entries@.len() - i,
            {
                assert(s[i as int] == entry_view(self.entries@[i as int]));
                if is_nan_time(self.entries[i].last_seen_bits) {
                    assert(is_nan_bits(s[i as int].4));
                    return false;
                }
                i = i + 1;
            }
        }
        self.handle_announce(announced);
        true
    }

    /// The known nodes.
    pub fn known_nodes(&self) -> (s: &[DirectoryEntry])
        ensures
            entries_view(s@) == self.nodes(),
    {
        self.entries.as_slice()
    }

    /// The first node with destination hash `dest_hash`.
    pub fn get_node(&self, dest_hash: &[u8; 16]) -> (r: Option<&DirectoryEntry>)
        ensures
            match first_with_dest(self.nodes(), dest_hash@) {
                Some(i) => r matches Some(e) && entry_view(*e) == self.nodes()[i],
                None => r is None,
            },
    {
        proof { lemma_first_with_dest(self.nodes(), dest_hash@); }
        let mut i: usize = 0;
        while i < self.entries.len()
            invariant
                i <= self.entries@.len(),
                forall|k: int| 0 <= k < i ==> self.nodes()[k].0 != dest_hash@,
            decreases self.entries@.len() - i,
        {
            assert(self.nodes()[i as int] == entry_view(self.entries@[i as int]));
            if crate::assoc::KeyEq::key_eq(&self.entries[i].dest_hash, dest_hash) {
                proof { lemma_first_with_dest(self.nodes(), dest_hash@); }
                return Some(&self.entries[i]);
            }
            i = i + 1;
        }
        proof { lemma_first_with_dest(self.nodes(), dest_hash@); }
        None
    }

    /// The first node announced by identity `identity_hash`.
    pub fn get_node_by_identity(&self, identity_hash: &[u8; 16]) -> (r: Option<&DirectoryEntry>)
        ensures
            match first_with_identity(self.nodes(), identity_hash@) {
                Some(i) => r matches Some(e) && entry_view(*e) == self.nodes()[i],
                None => r is None,
            },
    {
        proof { lemma_first_with_identity(self.nodes(), identity_hash@); }
        let mut i: usize = 0;
        while i < self.entries.len()
            invariant
                i <= self.entries@.len(),
                forall|k: int| 0 <= k < i ==> self.nodes()[k].1 != identity_hash@,
            decreases self.entries@.len() - i,
        {
            assert(self.nodes()[i as int] == entry_view(self.entries@[i as int]));
            if crate::assoc::KeyEq::key_eq(&self.entries[i].identity_hash, identity_hash) {
                proof { lemma_first_with_identity(self.nodes(), identity_hash@); }
                return Some(&self.entries[i]);
            }
            i = i + 1;
        }
        proof { lemma_first_with_identity(self.nodes(), identity_hash@); }
        None
    }

    pub fn len(&self) -> (n: usize)
        ensures
            n == self.nodes().len(),
    {
        self.entries.len()
    }

    pub fn is_empty(&self) -> (b: bool)
        ensures
            b == (self.nodes().len() == 0),
    {
        self.entries.len() == 0
    }
}

impl Default for NomadDirectory {
    fn default() -> (d: Self)
        ensures
            d.nodes() == Seq::<EntryView>::empty(),
    {
        Self::new()
    }
}

/// The position of the first entry for destination `d`.
fn find_dest(entries: &Vec<DirectoryEntry>, d: &[u8; 16]) -> (r: Option<usize>)
    ensures
        match first_with_dest(entries_view(entries@), d@) {
            Some(i) => r == Some(i as usize),
            None => r is None,
        },
{
    let ghost v = entries_view(entries@);
    proof { lemma_first_with_dest(v, d@); }
    let mut i: usize = 0;
    while i < entries.len()
        invariant
            i <= entries@.len(),
            v == entries_view(entries@),
            forall|k: int| 0 <= k < i ==> v[k].0 != d@,
        decreases entries@.len() - i,
    {
        assert(v[i as int] == entry_view(entries@[i as int]));
        if crate::assoc::KeyEq::key_eq(&entries[i].dest_hash, d) {
            proof { lemma_first_with_dest(v, d@); }
            return Some(i);
        }
        i = i + 1;
    }
    proof { lemma_first_with_dest(v, d@); }
    None
}

/// The integer ordering of last-seen bits (the executable `seen_key`).
fn seen_order(bits: u64) -> (k: u128)
    ensures
        k == seen_key(bits),
{
    if bits == 0x8000_0000_0000_0000 {
        0x8000_0000_0000_0000
    } else if bits >= 0x8000_0000_0000_0000 {
        (0xffff_ffff_ffff_ffffu64 - bits) as u128
    } else {
        (bits as u128) + 0x8000_0000_0000_0000
    }
}

/// `entries` stably sorted by last-seen time, earliest first.
fn sort_entries_by_seen(entries: Vec<DirectoryEntry>) -> (sorted: Vec<DirectoryEntry>)
    ensures
        entries_view(sorted@) == sort_by_seen(entries_view(entries@)),
        sorted@.to_multiset() == entries@.to_multiset(),
{
    let ghost input = entries_view(entries@);
    let mut sorted: Vec<DirectoryEntry> = Vec::new();
    let mut rest = entries;
    let n = rest.len();
    let mut i: usize = 0;
    let ghost all = rest@;
    proof {
        assert(input.take(0) =~= Seq::<EntryView>::empty());
        assert(entries_view(sorted@) =~= Seq::<EntryView>::empty());
        assert(all.take(0) =~= sorted@);
        assert(rest@ =~= all.skip(0));
    }
    while i < n
        invariant
            i <= n,
            n == all.len(),
            input == entries_view(all),
            rest@ == all.skip(i as int),
            entries_view(sorted@) == sort_by_seen(input.take(i as int)),
            sorted@.to_multiset() == all.take(i as int).to_multiset(),
        decreases n - i,
    {
        let e = rest.remove(0);
        let ghost eg = e;
        assert(e == all[i as int]);
        assert(rest@ =~= all.skip(i + 1));
        let key = seen_order(e.last_seen_bits);
        let ghost s = entries_view(sorted@);
        let ghost ev = entry_view(e);
        let mut j = sorted.len();
        while j > 0 && seen_order(sorted[j - 1].last_seen_bits) > key
            invariant
                j <= sorted@.len(),
                s == entries_view(sorted@),
                key == seen_key(ev.4),
                forall|k: int| j <= k < s.len() ==> seen_key(s[k].4) > seen_key(ev.4),
            decreases j,
        {
            j = j - 1;
        }
        proof {
            lemma_insert_by_seen_split(s, ev, j as int);
            if j > 0 {
                assert(s.take(j as int).drop_last() =~= s.take(j as int - 1));
                assert(insert_by_seen(s.take(j as int), ev) == s.take(j as int).push(ev));
            } else {
                assert(insert_by_seen(s.take(0), ev) == seq![ev]);
            }
        }
        let ghost before = sorted@;
        sorted.insert(j, e);
        proof {
            assert(entries_view(sorted@) =~= insert_by_seen(s, ev));
            let t = input.take(i + 1);
            assert(t.drop_last() =~= input.take(i as int));
            assert(t.last() == ev);
            assert(all.take(i + 1) =~= all.take(i as int).push(eg));
            vstd::seq_lib::to_multiset_build(all.take(i as int), eg);
        }
        i = i + 1;
    }
    assert(input.take(n as int) =~= input);
    assert(all.take(n as int) =~= all);
    sorted
}

/// Whether `announced` is an announce of a NomadNet node.
pub fn is_nomadnet_announce(announced: &Announce) -> (b: bool)
    ensures
        b == is_node_announce(announced.dest_hash@, announced.identity_hash@),
{
    let aspects: [&str; 1] = ["node"];
    proof {
        assert(crate::text::str_views(aspects@) =~= seq!["node"@]);
        reveal_strlit("nomadnetwork");
        reveal_strlit("node");
        assert(aspects@[0]@ == "node"@);
    }
    let expected = destination_hash("nomadnetwork", &aspects, Some(&announced.identity_hash));
    crate::assoc::KeyEq::key_eq(&announced.dest_hash, &expected)
}

/// The LXMF delivery destination of an identity.
pub fn associated_lxmf_dest_hash(identity_hash: &[u8; 16]) -> (h: [u8; 16])
    ensures
        h@ == destination_hash_of("lxmf"@, seq!["delivery"@], Some(identity_hash@)),
{
    let aspects: [&str; 1] = ["delivery"];
    proof {
        assert(crate::text::str_views(aspects@) =~= seq!["delivery"@]);
        reveal_strlit("lxmf");
        reveal_strlit("delivery");
        assert(aspects@[0]@ == "delivery"@);
    }
    destination_hash("lxmf", &aspects, Some(identity_hash))
}

} // verus!
