//! Properties of the library that relate several of its operations, or
//! that hold of every input, proved over the models its functions are
//! specified with.

use vstd::prelude::*;
use vstd::string::*;
use vstd::utf8::encode_utf8;

use crate::directory::{
    after_announce, announce_name, first_with_dest, insert_by_seen, is_node_announce,
    lemma_first_with_dest, seen_key, sort_by_seen, EntryView,
};
use crate::config::{
    bracketed, config_scan, config_step, flush, initial_state, parse_spec, InterfaceSpec, ParseState,
};
use crate::types::MAX_DIRECTORY_ENTRIES;
use crate::micron::{escape_spec, link_markup};
use crate::browser::{queue_of, sent_on, RequestView, SentView, field_of, fields_of, url_fields_spec};
use crate::serve::{
    identity_file_spec, is_hex_key_text, replace_all, self_marker, served_paths_spec, store_pages,
    IdentityFileError,
};
use crate::rns::{hex_bytes, hex_digit_lower, hex_lower, hex_value};
use crate::micron::is_hex_digit;
use crate::node::{
    base_path_spec, chunk_scan, chunks_spec, has_mu_suffix, paginate_spec, paginated_markup, strip_mu,
    MAX_PAGES_PER_FILE,
};
use crate::text::{
    all_digits, byte_len, decimal, find, join, lemma_find, lemma_line_scan_no_newline, line_scan, lines,
    no_newline, digit_char, digits_value, is_digit, lemma_rfind, parse_bounded,
    rfind, trim, unsigned_digits,
};

verus! {

proof fn lemma_digit_char(d: int)
    requires
        0 <= d < 10,
    ensures
        is_digit(digit_char(d)),
        (digit_char(d) as u32) - ('0' as u32) == d,
{
}

/// A decimal representation is made of digits, is not empty and reads back
/// as its number.
pub proof fn lemma_decimal(n: nat)
    ensures
        decimal(n).len() > 0,
        all_digits(decimal(n)),
        digits_value(decimal(n)) == n,
    decreases n,
{
    if n < 10 {
        lemma_digit_char(n as int);
        assert(decimal(n).drop_last() =~= Seq::<char>::empty());
        assert(digits_value(decimal(n)) == digits_value(Seq::<char>::empty()) * 10 + crate::text::digit_value(digit_char(n as int)));
    } else {
        lemma_decimal(n / 10);
        lemma_digit_char((n % 10) as int);
        let d = decimal(n);
        assert(d.drop_last() =~= decimal(n / 10));
        assert(d.last() == digit_char((n % 10) as int));
        assert(crate::text::digit_value(d.last()) == n % 10);
        assert(digits_value(d) == digits_value(decimal(n / 10)) * 10 + crate::text::digit_value(d.last()));
        assert((n / 10) * 10 + n % 10 == n);
        assert forall|i: int| 0 <= i < d.len() implies is_digit(#[trigger] d[i]) by {
            if i < d.len() - 1 {
                assert(d[i] == decimal(n / 10)[i]);
            }
        }
    }
}

/// Reading the decimal representation of a number gives the number back.
pub proof fn lemma_parse_decimal(n: nat, max: nat)
    requires
        n <= max,
    ensures
        parse_bounded(decimal(n), max) == Some(n),
{
    lemma_decimal(n);
    let d = decimal(n);
    assert(is_digit(d[0]));
    assert(unsigned_digits(d) == d);
}

/// Splitting the path of page `n` of a paginated page gives back the page
/// and `n`, for every page `base` ending in `.mu` and every page number from
/// 2 to `MAX_PAGES_PER_FILE`.
pub proof fn law_paginate_roundtrip(base: Seq<char>, n: nat)
    requires
        has_mu_suffix(base),
        2 <= n <= MAX_PAGES_PER_FILE,
    ensures
        base_path_spec(paginate_spec(base, n)) == (base, Some(n)),
{
    reveal_strlit("/");
    reveal_strlit(".mu");
    let stem = strip_mu(base);
    let d = decimal(n);
    let path = paginate_spec(base, n);
    assert(path == stem + "/"@ + d + ".mu"@);
    lemma_decimal(n);
    assert(has_mu_suffix(path));
    let pstem = strip_mu(path);
    assert(pstem =~= stem + "/"@ + d);
    lemma_rfind(pstem, '/');
    let slash = stem.len() as int;
    assert(pstem[slash] == '/');
    assert forall|k: int| slash < k < pstem.len() implies pstem[k] != '/' by {
        assert(pstem[k] == d[k - slash - 1]);
        assert(is_digit(d[k - slash - 1]));
    }
    assert(rfind(pstem, '/') == Some(slash)) by {
        match rfind(pstem, '/') {
            Some(j) => {
                if j < slash {
                    assert(pstem[slash] != '/');
                }
            },
            None => {
                assert(pstem[slash] != '/');
            },
        }
    }
    assert(pstem.subrange(slash + 1, pstem.len() as int) =~= d);
    lemma_parse_decimal(n, usize::MAX as nat);
    assert(pstem.take(slash) =~= stem);
    assert(stem + ".mu"@ =~= base);
}

/// The entries are in last-seen order, earliest first.
pub open spec fn sorted_by_seen(s: Seq<EntryView>) -> bool {
    forall|i: int, j: int| 0 <= i <= j < s.len() ==> seen_key(s[i].4) <= seen_key(s[j].4)
}

proof fn lemma_insert_by_seen(s: Seq<EntryView>, e: EntryView)
    requires
        sorted_by_seen(s),
    ensures
        sorted_by_seen(insert_by_seen(s, e)),
        insert_by_seen(s, e).to_multiset() == s.to_multiset().insert(e),
        insert_by_seen(s, e).len() == s.len() + 1,
        forall|k: int| 0 <= k < insert_by_seen(s, e).len() ==>
            seen_key(#[trigger] insert_by_seen(s, e)[k].4) >= seen_key(e.4)
            || exists|m: int| 0 <= m < s.len() && insert_by_seen(s, e)[k] == s[m],
    decreases s.len(),
{
    broadcast use vstd::seq_lib::group_to_multiset_ensures;
    let r = insert_by_seen(s, e);
    if s.len() == 0 {
        assert(r == seq![e]);
        assert(seq![e] =~= Seq::<EntryView>::empty().push(e));
    } else if seen_key(s.last().4) <= seen_key(e.4) {
        assert(s.drop_last().push(s.last()) =~= s);
        assert forall|k: int| 0 <= k < r.len() - 1 implies r[k] == s[k] by {}
    } else {
        let t = s.drop_last();
        assert(sorted_by_seen(t));
        lemma_insert_by_seen(t, e);
        let it = insert_by_seen(t, e);
        assert(r == it.push(s.last()));
        assert(s =~= t.push(s.last()));
        assert forall|i: int, j: int| 0 <= i <= j < r.len() implies seen_key(r[i].4) <= seen_key(r[j].4) by {
            if j == r.len() - 1 && i < j {
                if seen_key(it[i].4) < seen_key(e.4) {
                    let m = choose|m: int| 0 <= m < t.len() && it[i] == t[m];
                    assert(s[m] == t[m]);
                }
            }
        }
        assert forall|k: int| 0 <= k < r.len() implies
            seen_key(#[trigger] r[k].4) >= seen_key(e.4)
            || exists|m: int| 0 <= m < s.len() && r[k] == s[m] by {
            if k < r.len() - 1 {
                if seen_key(it[k].4) < seen_key(e.4) {
                    let m = choose|m: int| 0 <= m < t.len() && it[k] == t[m];
                    assert(r[k] == s[m]);
                }
            } else {
                assert(r[k] == s[s.len() - 1]);
            }
        }
    }
}

/// Eviction sorts the directory into last-seen order, earliest first, and
/// the sort neither loses nor adds an entry.
pub proof fn law_sort_by_seen(s: Seq<EntryView>)
    ensures
        sorted_by_seen(sort_by_seen(s)),
        sort_by_seen(s).to_multiset() == s.to_multiset(),
        sort_by_seen(s).len() == s.len(),
    decreases s.len(),
{
    broadcast use vstd::seq_lib::group_to_multiset_ensures;
    if s.len() > 0 {
        law_sort_by_seen(s.drop_last());
        lemma_insert_by_seen(sort_by_seen(s.drop_last()), s.last());
        assert(s.drop_last().push(s.last()) =~= s);
    } else {
        assert(sort_by_seen(s) =~= s);
    }
}

/// After an announce of a NomadNet node that the directory knows, or has
/// room for, looking the node up by its destination finds it with the
/// announced name and hop count; announces of anything else leave the
/// directory as it was.
pub proof fn law_announce_then_lookup(
    s: Seq<EntryView>,
    dest_hash: Seq<u8>,
    identity_hash: Seq<u8>,
    app_data: Option<Seq<u8>>,
    hops: u8,
    bits: u64,
)
    requires
        first_with_dest(s, dest_hash) is Some || s.len() < MAX_DIRECTORY_ENTRIES,
    ensures
        ({
            let after = after_announce(s, dest_hash, identity_hash, app_data, hops, bits);
            if is_node_announce(dest_hash, identity_hash) {
                &&& first_with_dest(after, dest_hash) matches Some(i)
                &&& after[i].2 == announce_name(app_data)
                &&& after[i].3 == hops
                &&& after[i].4 == bits
                &&& after.len() == (if first_with_dest(s, dest_hash) is Some { s.len() } else { s.len() + 1 })
            } else {
                after == s
            }
        }),
{
    let after = after_announce(s, dest_hash, identity_hash, app_data, hops, bits);
    lemma_first_with_dest(s, dest_hash);
    if is_node_announce(dest_hash, identity_hash) {
        lemma_first_with_dest(after, dest_hash);
        match first_with_dest(s, dest_hash) {
            Some(i) => {
                assert(after[i].0 == dest_hash);
                match first_with_dest(after, dest_hash) {
                    Some(j) => {
                        if j < i {
                            assert(after[j] == s[j]);
                        }
                        assert(!(i < j));
                    },
                    None => {
                        assert(after[i].0 == dest_hash);
                    },
                }
            },
            None => {
                let n = s.len() as int;
                assert(after[n].0 == dest_hash);
                match first_with_dest(after, dest_hash) {
                    Some(j) => {
                        if j < n {
                            assert(after[j] == s[j]);
                        }
                    },
                    None => {},
                }
            },
        }
    }
}

/// No two entries are for the same destination.
pub open spec fn unique_dests(s: Seq<EntryView>) -> bool {
    forall|i: int, j: int| 0 <= i < j < s.len() ==> (#[trigger] s[i]).0 != (#[trigger] s[j]).0
}

/// Inserting by last-seen time adds `e` and keeps the other entries; it
/// keeps the destinations unique when `e`'s is new.
proof fn lemma_insert_by_seen_members(s: Seq<EntryView>, e: EntryView)
    ensures
        insert_by_seen(s, e).len() == s.len() + 1,
        forall|k: int| 0 <= k < insert_by_seen(s, e).len() ==> #[trigger] insert_by_seen(s, e)[k] == e
            || exists|m: int| 0 <= m < s.len() && insert_by_seen(s, e)[k] == s[m],
        unique_dests(s) && (forall|m: int| 0 <= m < s.len() ==> (#[trigger] s[m]).0 != e.0)
            ==> unique_dests(insert_by_seen(s, e)),
    decreases s.len(),
{
    let r = insert_by_seen(s, e);
    if s.len() == 0 {
        assert(r == seq![e]);
    } else if seen_key(s.last().4) <= seen_key(e.4) {
        assert(r == s.push(e));
        assert forall|k: int| 0 <= k < r.len() implies #[trigger] r[k] == e
            || exists|m: int| 0 <= m < s.len() && r[k] == s[m] by {
            if k < s.len() {
                assert(r[k] == s[k]);
            }
        }
    } else {
        let t = s.drop_last();
        let last = s.last();
        lemma_insert_by_seen_members(t, e);
        let it = insert_by_seen(t, e);
        assert(r == it.push(last));
        assert forall|k: int| 0 <= k < r.len() implies #[trigger] r[k] == e
            || exists|m: int| 0 <= m < s.len() && r[k] == s[m] by {
            if k < it.len() {
                assert(r[k] == it[k]);
                if it[k] != e {
                    let m = choose|m: int| 0 <= m < t.len() && it[k] == t[m];
                    assert(r[k] == s[m]);
                }
            } else {
                assert(r[k] == s[s.len() - 1]);
            }
        }
        if unique_dests(s) && (forall|m: int| 0 <= m < s.len() ==> (#[trigger] s[m]).0 != e.0) {
            assert(unique_dests(t)) by {
                assert forall|i: int, j: int| 0 <= i < j < t.len() implies (#[trigger] t[i]).0 != (#[trigger] t[j]).0 by {
                    assert(t[i] == s[i] && t[j] == s[j]);
                }
            }
            assert forall|m: int| 0 <= m < t.len() implies (#[trigger] t[m]).0 != e.0 by {
                assert(t[m] == s[m]);
            }
            assert(unique_dests(it));
            assert forall|i: int, j: int| 0 <= i < j < r.len() implies (#[trigger] r[i]).0 != (#[trigger] r[j]).0 by {
                if j == r.len() - 1 {
                    assert(r[j] == s[s.len() - 1]);
                    assert(r[i] == it[i]);
                    if it[i] == e {
                        assert(s[s.len() - 1].0 != e.0);
                    } else {
                        let m = choose|m: int| 0 <= m < t.len() && it[i] == t[m];
                        assert(t[m] == s[m]);
                    }
                } else {
                    assert(r[i] == it[i] && r[j] == it[j]);
                }
            }
        }
    }
}

/// Sorting by last-seen time keeps the entries, and keeps the
/// destinations unique.
proof fn lemma_sort_by_seen_members(s: Seq<EntryView>)
    ensures
        sort_by_seen(s).len() == s.len(),
        forall|k: int| 0 <= k < sort_by_seen(s).len() ==>
            exists|m: int| 0 <= m < s.len() && #[trigger] sort_by_seen(s)[k] == s[m],
        unique_dests(s) ==> unique_dests(sort_by_seen(s)),
    decreases s.len(),
{
    if s.len() > 0 {
        let t = s.drop_last();
        let last = s.last();
        lemma_sort_by_seen_members(t);
        let st = sort_by_seen(t);
        lemma_insert_by_seen_members(st, last);
        let r = sort_by_seen(s);
        assert(r == insert_by_seen(st, last));
        assert forall|k: int| 0 <= k < r.len() implies
            exists|m: int| 0 <= m < s.len() && #[trigger] r[k] == s[m] by {
            if r[k] == last {
                assert(r[k] == s[s.len() - 1]);
            } else {
                let m = choose|m: int| 0 <= m < st.len() && r[k] == st[m];
                let m2 = choose|m2: int| 0 <= m2 < t.len() && st[m] == t[m2];
                assert(r[k] == s[m2]);
            }
        }
        if unique_dests(s) {
            assert(unique_dests(t)) by {
                assert forall|i: int, j: int| 0 <= i < j < t.len() implies (#[trigger] t[i]).0 != (#[trigger] t[j]).0 by {
                    assert(t[i] == s[i] && t[j] == s[j]);
                }
            }
            assert forall|m: int| 0 <= m < st.len() implies (#[trigger] st[m]).0 != last.0 by {
                let m2 = choose|m2: int| 0 <= m2 < t.len() && st[m] == t[m2];
                assert(t[m2] == s[m2]);
                assert(last == s[s.len() - 1]);
            }
        }
    } else {
        assert(sort_by_seen(s) =~= s);
    }
}

/// The directory holds each node once: an announce never makes two entries
/// for one destination.
pub proof fn law_directory_nodes_unique(
    s: Seq<EntryView>,
    dest_hash: Seq<u8>,
    identity_hash: Seq<u8>,
    app_data: Option<Seq<u8>>,
    hops: u8,
    bits: u64,
)
    requires
        unique_dests(s),
    ensures
        unique_dests(after_announce(s, dest_hash, identity_hash, app_data, hops, bits)),
{
    let after = after_announce(s, dest_hash, identity_hash, app_data, hops, bits);
    lemma_first_with_dest(s, dest_hash);
    if is_node_announce(dest_hash, identity_hash) {
        match first_with_dest(s, dest_hash) {
            Some(i) => {
                assert forall|a: int, b: int| 0 <= a < b < after.len() implies (#[trigger] after[a]).0 != (#[trigger] after[b]).0 by {
                    assert(after[a].0 == s[a].0 && after[b].0 == s[b].0);
                }
            },
            None => {
                let added = s.push((dest_hash, identity_hash, announce_name(app_data), hops, bits));
                assert(unique_dests(added)) by {
                    assert forall|a: int, b: int| 0 <= a < b < added.len() implies (#[trigger] added[a]).0 != (#[trigger] added[b]).0 by {
                        assert(added[a] == s[a]);
                        if b < s.len() {
                            assert(added[b] == s[b]);
                        }
                    }
                }
                if added.len() > MAX_DIRECTORY_ENTRIES {
                    lemma_sort_by_seen_members(added);
                    let sorted = sort_by_seen(added);
                    assert(after == sorted.take(MAX_DIRECTORY_ENTRIES as int));
                    assert forall|a: int, b: int| 0 <= a < b < after.len() implies (#[trigger] after[a]).0 != (#[trigger] after[b]).0 by {
                        assert(after[a] == sorted[a] && after[b] == sorted[b]);
                    }
                }
            },
        }
    }
}

/// Escaping distributes over concatenation.
pub proof fn law_escape_concat(a: Seq<char>, b: Seq<char>)
    ensures
        escape_spec(a + b) == escape_spec(a) + escape_spec(b),
    decreases b.len(),
{
    if b.len() == 0 {
        assert(a + b =~= a);
        assert(escape_spec(a) + escape_spec(b) =~= escape_spec(a));
    } else {
        law_escape_concat(a, b.drop_last());
        assert((a + b).drop_last() =~= a + b.drop_last());
        assert((a + b).last() == b.last());
    }
}

/// Text without backticks is left as it is by escaping.
pub proof fn law_escape_plain(s: Seq<char>)
    requires
        forall|i: int| 0 <= i < s.len() ==> s[i] != '`',
    ensures
        escape_spec(s) == s,
    decreases s.len(),
{
    if s.len() > 0 {
        law_escape_plain(s.drop_last());
        assert(s.drop_last().push(s.last()) =~= s);
    }
}

/// Escaping adds one character for each backtick.
pub proof fn law_escape_len(s: Seq<char>)
    ensures
        escape_spec(s).len() == s.len() + s.filter(|c: char| c == '`').len(),
    decreases s.len(),
{
    reveal(Seq::filter);
    if s.len() > 0 {
        law_escape_len(s.drop_last());
    }
}

/// The page part of a URL holds no backtick, and every field name starts
/// with `var_`.
pub proof fn law_url_fields(url: Seq<char>)
    ensures
        forall|i: int| 0 <= i < url_fields_spec(url).0.len() ==> url_fields_spec(url).0[i] != '`',
        forall|k: int| 0 <= k < url_fields_spec(url).1.len() ==>
            (#[trigger] url_fields_spec(url).1[k]).0.take(4) == "var_"@,
{
    lemma_find(url, '`');
    match find(url, '`') {
        Some(i) => {
            let entries = crate::browser::split_on(url.skip(i + 1), '|');
            lemma_fields_named(entries);
        },
        None => {},
    }
}

proof fn lemma_fields_named(entries: Seq<Seq<char>>)
    ensures
        forall|k: int| 0 <= k < fields_of(entries).len() ==> (#[trigger] fields_of(entries)[k]).0.take(4) == "var_"@,
    decreases entries.len(),
{
    reveal_strlit("var_");
    if entries.len() > 0 {
        lemma_fields_named(entries.drop_last());
        let prev = fields_of(entries.drop_last());
        match field_of(entries.last()) {
            Some(f) => {
                lemma_find(entries.last(), '=');
                let j = find(entries.last(), '=')->0;
                assert(f.0 == "var_"@ + entries.last().take(j));
                assert(f.0.take(4) =~= "var_"@);
                assert forall|k: int| 0 <= k < prev.push(f).len() implies (#[trigger] prev.push(f)[k]).0.take(4) == "var_"@ by {
                    if k < prev.len() {
                        assert(prev.push(f)[k] == prev[k]);
                    }
                }
            },
            None => {},
        }
    }
}

/// A character of the `$SELF` placeholder.
pub open spec fn marker_char(c: char) -> bool {
    c == '$' || c == 'S' || c == 'E' || c == 'L' || c == 'F'
}

/// `t` starts with `w`.
pub open spec fn starts_with(t: Seq<char>, w: Seq<char>) -> bool {
    t.len() >= w.len() && t.take(w.len() as int) == w
}

/// `s` holds `w` at position `k`.
pub open spec fn occurs_at(s: Seq<char>, w: Seq<char>, k: int) -> bool {
    0 <= k && k + w.len() <= s.len() && s.subrange(k, k + w.len()) == w
}

proof fn lemma_replaced_prefix(t: Seq<char>, rep: Seq<char>, w: Seq<char>)
    requires
        rep.len() > 0,
        !marker_char(rep[0]),
        forall|i: int| 0 <= i < w.len() ==> marker_char(w[i]) && w[i] != '$',
        starts_with(replace_all(t, self_marker(), rep), w),
    ensures
        starts_with(t, w),
    decreases w.len(),
{
    if w.len() > 0 {
        let r = replace_all(t, self_marker(), rep);
        assert(r[0] == w[0]);
        assert(t.len() > 0);
        if t.len() >= 5 && t.take(5) == self_marker() {
            assert(r[0] == rep[0]);
        } else {
            assert(r == seq![t[0]] + replace_all(t.skip(1), self_marker(), rep));
            assert(t[0] == w[0]);
            let rest = replace_all(t.skip(1), self_marker(), rep);
            assert(rest.take(w.len() - 1) =~= w.drop_first()) by {
                assert forall|i: int| 0 <= i < w.len() - 1 implies rest[i] == w.drop_first()[i] by {
                    assert(r[i + 1] == rest[i]);
                    assert(r.take(w.len() as int)[i + 1] == w[i + 1]);
                }
            }
            lemma_replaced_prefix(t.skip(1), rep, w.drop_first());
            assert(t.take(w.len() as int) =~= w) by {
                assert forall|i: int| 0 <= i < w.len() implies t[i] == w[i] by {
                    if i > 0 {
                        assert(t.skip(1).take(w.len() - 1)[i - 1] == w.drop_first()[i - 1]);
                    }
                }
            }
        }
    } else {
        assert(t.take(0) =~= w);
    }
}

/// With a non-empty replacement that holds none of the placeholder's
/// characters, replacing `$SELF` leaves no `$SELF` behind.
pub proof fn law_replace_self_complete(s: Seq<char>, rep: Seq<char>)
    requires
        rep.len() > 0,
        forall|i: int| 0 <= i < rep.len() ==> !marker_char(rep[i]),
    ensures
        forall|k: int| !occurs_at(replace_all(s, self_marker(), rep), self_marker(), k),
    decreases s.len(),
{
    if s.len() > 0 {
        let r = replace_all(s, self_marker(), rep);
        if s.len() >= 5 && s.take(5) == self_marker() {
            law_replace_self_complete(s.skip(5), rep);
            let rest = replace_all(s.skip(5), self_marker(), rep);
            assert(r == rep + rest);
            assert forall|k: int| !occurs_at(r, self_marker(), k) by {
                if occurs_at(r, self_marker(), k) {
                    assert(r.subrange(k, k + 5)[0] == '$');
                    assert(r[k] == '$');
                    if k < rep.len() {
                        assert(r[k] == rep[k]);
                    } else {
                        assert(rest.subrange(k - rep.len(), k - rep.len() + 5) =~= r.subrange(k, k + 5));
                        assert(occurs_at(rest, self_marker(), k - rep.len()));
                    }
                }
            }
        } else {
            law_replace_self_complete(s.skip(1), rep);
            let rest = replace_all(s.skip(1), self_marker(), rep);
            assert(r == seq![s[0]] + rest);
            assert forall|k: int| !occurs_at(r, self_marker(), k) by {
                if occurs_at(r, self_marker(), k) {
                    if k == 0 {
                        let w = self_marker().drop_first();
                        assert(rest.take(4) =~= w) by {
                            assert forall|i: int| 0 <= i < 4 implies rest[i] == w[i] by {
                                assert(r[i + 1] == rest[i]);
                                assert(r.subrange(0, 5)[i + 1] == self_marker()[i + 1]);
                            }
                        }
                        lemma_replaced_prefix(s.skip(1), rep, w);
                        assert(r[0] == s[0]);
                        assert(r.subrange(0, 5)[0] == '$');
                        assert(s.take(5) =~= self_marker()) by {
                            assert forall|i: int| 0 <= i < 5 implies s[i] == self_marker()[i] by {
                                if i > 0 {
                                    assert(s.skip(1).take(4)[i - 1] == w[i - 1]);
                                }
                            }
                        }
                    } else {
                        assert(rest.subrange(k - 1, k + 4) =~= r.subrange(k, k + 5));
                        assert(occurs_at(rest, self_marker(), k - 1));
                    }
                }
            }
        }
    }
}

/// A node address (lowercase hex) holds none of the placeholder's
/// characters.
pub proof fn law_hex_address_is_plain(bytes: Seq<u8>)
    ensures
        forall|i: int| 0 <= i < hex_lower(bytes).len() ==> !marker_char(#[trigger] hex_lower(bytes)[i]),
        hex_lower(bytes).len() == 2 * bytes.len(),
    decreases bytes.len(),
{
    if bytes.len() > 0 {
        law_hex_address_is_plain(bytes.drop_last());
        let prev = hex_lower(bytes.drop_last());
        let a = hex_digit_lower((bytes.last() / 16) as int);
        let b = hex_digit_lower((bytes.last() % 16) as int);
        assert(!marker_char(a) && !marker_char(b)) by {
            assert(0 <= (bytes.last() / 16) < 16);
            assert(0 <= (bytes.last() % 16) < 16);
        }
        assert forall|i: int| 0 <= i < hex_lower(bytes).len() implies !marker_char(#[trigger] hex_lower(bytes)[i]) by {
            if i < prev.len() {
                assert(hex_lower(bytes)[i] == prev[i]);
            }
        }
    }
}

/// Reading a cached page after writing it gives back what was written;
/// writing or removing one path leaves every other path as it was, and a
/// removed path reads as absent.
pub proof fn law_cache_read_after_write(
    m: Map<Seq<char>, Seq<u8>>,
    path: Seq<char>,
    content: Seq<u8>,
    other: Seq<char>,
)
    ensures
        m.insert(path, content).contains_key(path),
        m.insert(path, content)[path] == content,
        !m.remove(path).contains_key(path),
        other != path ==> m.insert(path, content).contains_key(other) == m.contains_key(other),
        other != path && m.contains_key(other) ==> m.insert(path, content)[other] == m[other],
        other != path ==> m.remove(path).contains_key(other) == m.contains_key(other),
        other != path && m.contains_key(other) ==> m.remove(path)[other] == m[other],
{
}

/// Requests on a link are answered in the order they were queued: a
/// request queued on an idle link is the next one answered, and queueing
/// behind waiting requests does not change which is answered next.
pub proof fn law_requests_in_order(pending: Map<Seq<u8>, Seq<RequestView>>, link: Seq<u8>, r: RequestView)
    ensures
        ({
            let q = queue_of(pending, link);
            let after = pending.insert(link, q.push(r));
            &&& queue_of(after, link).len() == q.len() + 1
            &&& queue_of(after, link)[0] == (if q.len() == 0 { r } else { q[0] })
            &&& q.len() > 0 ==> queue_of(after, link).drop_first() == q.drop_first().push(r)
        }),
{
    let q = queue_of(pending, link);
    if q.len() > 0 {
        assert(q.push(r).drop_first() =~= q.drop_first().push(r));
    }
}

/// Once a link is closed, nothing waits on it and it leads nowhere, so a
/// later response on it is ignored.
pub proof fn law_closed_link_forgotten(
    links: Map<Seq<u8>, Seq<u8>>,
    pending: Map<Seq<u8>, Seq<RequestView>>,
    link: Seq<u8>,
)
    ensures
        !links.remove(link).contains_key(link),
        queue_of(pending.remove(link), link).len() == 0,
{
}

/// Joining one more part adds the separator and the part.
proof fn lemma_join_push(s: Seq<Seq<char>>, x: Seq<char>, sep: Seq<char>)
    requires
        s.len() > 0,
    ensures
        join(s.push(x), sep) == join(s, sep) + sep + x,
{
    assert(s.push(x).drop_last() =~= s);
}

/// Chunking non-empty lines: the open chunk is not empty once a line has
/// been read, and the chunks with it, joined by newlines, are the lines
/// joined by newlines.
proof fn lemma_chunk_scan_joins(ls: Seq<Seq<char>>, target: nat)
    requires
        forall|i: int| 0 <= i < ls.len() ==> (#[trigger] ls[i]).len() > 0,
    ensures
        ls.len() == 0 ==> chunk_scan(ls, target).0.len() == 0 && chunk_scan(ls, target).1.len() == 0,
        ls.len() > 0 ==> chunk_scan(ls, target).1.len() > 0
            && join(chunk_scan(ls, target).0.push(chunk_scan(ls, target).1), seq!['\n'])
                == join(ls, seq!['\n']),
    decreases ls.len(),
{
    if ls.len() > 0 {
        let prev = ls.drop_last();
        let line = ls.last();
        assert(line == ls[ls.len() - 1]);
        lemma_chunk_scan_joins(prev, target);
        let (c, cur) = chunk_scan(prev, target);
        let nl = seq!['\n'];
        if prev.len() == 0 {
            assert(chunk_scan(ls, target).1 =~= line);
            assert(join(chunk_scan(ls, target).0.push(chunk_scan(ls, target).1), nl) == line);
            assert(ls =~= seq![line]);
        } else {
            lemma_join_push(prev, line, nl);
            assert(prev.push(line) =~= ls);
            let closes = crate::text::byte_len(cur) + crate::text::byte_len(line) + 1 > target && cur.len() > 0;
            if closes {
                assert(chunk_scan(ls, target).0 == c.push(cur));
                assert(chunk_scan(ls, target).1 =~= line);
                lemma_join_push(c.push(cur), line, nl);
            } else {
                let y = cur.push('\n') + line;
                assert(chunk_scan(ls, target).0 == c);
                assert(chunk_scan(ls, target).1 == y);
                if c.len() == 0 {
                    assert(c.push(y) =~= seq![y]);
                    assert(c.push(cur) =~= seq![cur]);
                    assert(y =~= cur + nl + line);
                } else {
                    lemma_join_push(c, y, nl);
                    lemma_join_push(c, cur, nl);
                    assert(join(c, nl) + nl + y =~= join(c, nl) + nl + cur + nl + line);
                }
            }
        }
    }
}

/// Chunking keeps the content: when no line of the content is empty, the
/// chunks joined by newlines are the content's lines joined by newlines.
pub proof fn law_chunks_keep_lines(content: Seq<char>, target: nat)
    requires
        forall|i: int| 0 <= i < lines(content).len() ==> (#[trigger] lines(content)[i]).len() > 0,
    ensures
        join(chunks_spec(content, target), seq!['\n']) == join(lines(content), seq!['\n']),
{
    let ls = lines(content);
    lemma_chunk_scan_joins(ls, target);
    if ls.len() == 0 {
        assert(chunks_spec(content, target) =~= seq![Seq::<char>::empty()]);
    }
}

/// A lowercase hexadecimal digit is an ASCII hexadecimal digit, not
/// whitespace, and reads back as its value.
proof fn lemma_hex_digit_lower(n: int)
    requires
        0 <= n < 16,
    ensures
        is_hex_digit(hex_digit_lower(n)),
        hex_value(hex_digit_lower(n)) == n,
        '\0' <= hex_digit_lower(n) <= '\u{7f}',
        !crate::text::is_whitespace(hex_digit_lower(n)),
{
}

/// The two digits of each byte in its lowercase hexadecimal text.
proof fn lemma_hex_lower_digits(b: Seq<u8>)
    ensures
        hex_lower(b).len() == 2 * b.len(),
        forall|i: int| 0 <= i < b.len() ==> {
            &&& #[trigger] hex_lower(b)[2 * i] == hex_digit_lower((b[i] / 16) as int)
            &&& hex_lower(b)[2 * i + 1] == hex_digit_lower((b[i] % 16) as int)
        },
    decreases b.len(),
{
    if b.len() > 0 {
        let p = b.drop_last();
        lemma_hex_lower_digits(p);
        assert forall|i: int| 0 <= i < b.len() implies {
            &&& #[trigger] hex_lower(b)[2 * i] == hex_digit_lower((b[i] / 16) as int)
            &&& hex_lower(b)[2 * i + 1] == hex_digit_lower((b[i] % 16) as int)
        } by {
            if i < p.len() {
                assert(b[i] == p[i]);
                assert(hex_lower(b)[2 * i] == hex_lower(p)[2 * i]);
                assert(hex_lower(b)[2 * i + 1] == hex_lower(p)[2 * i + 1]);
            }
        }
    }
}

/// A private key saved as lowercase hexadecimal text (as new identities
/// are saved) reads back from the identity file as the same key.
pub proof fn law_identity_file_roundtrip(key: Seq<u8>)
    requires
        key.len() == 64,
    ensures
        identity_file_spec(encode_utf8(hex_lower(key))) == Ok::<Seq<u8>, IdentityFileError>(key),
{
    broadcast use vstd::utf8::encode_utf8_valid_utf8, vstd::utf8::encode_utf8_decode_utf8;
    let t = hex_lower(key);
    lemma_hex_lower_digits(key);
    assert forall|j: int| 0 <= j < t.len() implies {
        &&& is_hex_digit(#[trigger] t[j])
        &&& '\0' <= t[j] <= '\u{7f}'
        &&& !crate::text::is_whitespace(t[j])
    } by {
        let i = j / 2;
        assert(0 <= i < key.len());
        lemma_hex_digit_lower((key[i] / 16) as int);
        lemma_hex_digit_lower((key[i] % 16) as int);
        assert(hex_lower(key)[2 * i] == hex_digit_lower((key[i] / 16) as int));
        assert(hex_lower(key)[2 * i + 1] == hex_digit_lower((key[i] % 16) as int));
        if j % 2 == 0 {
            assert(j == 2 * i);
        } else {
            assert(j == 2 * i + 1);
        }
    }
    assert(vstd::utf8::is_ascii_chars(t));
    vstd::utf8::is_ascii_chars_encode_utf8(t);
    let bytes = encode_utf8(t);
    assert(bytes.len() == 128);
    assert(crate::text::leading_ws(t) == 0);
    assert(t.skip(0) =~= t);
    assert(crate::text::trailing_ws(t) == 0) by {
        assert(t.last() == t[t.len() - 1]);
    }
    assert(t.take(t.len() as int) =~= t);
    assert(crate::text::trim(t) == t);
    assert(is_hex_key_text(t));
    assert forall|i: int| 0 <= i < 64 implies #[trigger] hex_bytes(t)[i] == key[i] by {
        lemma_hex_digit_lower((key[i] / 16) as int);
        lemma_hex_digit_lower((key[i] % 16) as int);
        assert(hex_lower(key)[2 * i] == hex_digit_lower((key[i] / 16) as int));
        assert(hex_bytes(t)[i] == (hex_value(t[2 * i]) * 16 + hex_value(t[2 * i + 1])) as u8);
    }
    assert(hex_bytes(t) =~= key);
}

/// The paths the pages stored from `contents` get are `/page/<name>`.
proof fn lemma_store_pages_keys(
    cache: Map<Seq<char>, Seq<u8>>,
    contents: Seq<(Seq<char>, Seq<char>)>,
    nomad_address: Seq<char>,
    k: Seq<char>,
)
    requires
        store_pages(cache, contents, nomad_address).contains_key(k),
        !cache.contains_key(k),
    ensures
        exists|i: int| 0 <= i < contents.len() && k == "/page/"@ + (#[trigger] contents[i]).0,
    decreases contents.len(),
{
    if contents.len() > 0 {
        let p = contents.last();
        if k == "/page/"@ + p.0 {
            assert(contents[contents.len() - 1] == p);
        } else {
            lemma_store_pages_keys(cache, contents.drop_last(), nomad_address, k);
            let i = choose|i: int| 0 <= i < contents.drop_last().len() && k == "/page/"@ + (#[trigger] contents.drop_last()[i]).0;
            assert(contents[i] == contents.drop_last()[i]);
        }
    }
}

/// Every page that filling the cache from the pages directory stores has a
/// request handler: its path is among the served page paths, and so is the
/// path of the index page.
pub proof fn law_cached_pages_are_served(
    cache: Map<Seq<char>, Seq<u8>>,
    pages: Seq<Seq<char>>,
    contents: Seq<(Seq<char>, Seq<char>)>,
    nomad_address: Seq<char>,
)
    requires
        forall|i: int| 0 <= i < contents.len() ==> pages.contains(#[trigger] contents[i].0),
    ensures
        served_paths_spec(pages).contains("/page/index.mu"@),
        forall|k: Seq<char>|
            #![trigger store_pages(cache, contents, nomad_address).contains_key(k)]
            store_pages(cache, contents, nomad_address).contains_key(k) && !cache.contains_key(k)
                ==> served_paths_spec(pages).contains(k),
{
    let paths = pages.map_values(|f: Seq<char>| "/page/"@ + f);
    assert(served_paths_spec(pages).contains("/page/index.mu"@)) by {
        if pages.contains("index.mu"@) {
            reveal_strlit("/page/");
            reveal_strlit("index.mu");
            reveal_strlit("/page/index.mu");
            let j = choose|j: int| 0 <= j < pages.len() && pages[j] == "index.mu"@;
            assert(paths[j] =~= "/page/index.mu"@);
        } else {
            let s = paths.push("/page/index.mu"@);
            assert(s[paths.len() as int] == "/page/index.mu"@);
        }
    }
    assert forall|k: Seq<char>|
        #![trigger store_pages(cache, contents, nomad_address).contains_key(k)]
        store_pages(cache, contents, nomad_address).contains_key(k) && !cache.contains_key(k)
            implies served_paths_spec(pages).contains(k) by {
        lemma_store_pages_keys(cache, contents, nomad_address, k);
        let i = choose|i: int| 0 <= i < contents.len() && k == "/page/"@ + (#[trigger] contents[i]).0;
        assert(pages.contains(contents[i].0));
        let j = choose|j: int| 0 <= j < pages.len() && pages[j] == contents[i].0;
        assert(paths[j] == k);
        if !pages.contains("index.mu"@) {
            assert(paths.push("/page/index.mu"@)[j] == k);
        }
    }
}

/// The first line of a chunk: what comes before its first newline.
pub open spec fn first_line(c: Seq<char>) -> Seq<char> {
    match find(c, '\n') {
        Some(k) => c.take(k),
        None => c,
    }
}

/// Chunk `a` was closed because the line that starts chunk `b` would have
/// taken it past `target` bytes.
pub open spec fn closed_for(a: Seq<char>, b: Seq<char>, target: nat) -> bool {
    byte_len(a) + byte_len(first_line(b)) + 1 > target
}

/// A line without a newline is its own first line.
proof fn lemma_first_line_plain(l: Seq<char>)
    requires
        no_newline(l),
    ensures
        first_line(l) == l,
{
    lemma_find(l, '\n');
    if find(l, '\n') is Some {
        let k = find(l, '\n')->0;
        assert(l[k] != '\n');
    }
}

/// Adding a line to a chunk keeps its first line.
proof fn lemma_first_line_extend(cur: Seq<char>, line: Seq<char>)
    ensures
        first_line(cur.push('\n') + line) == first_line(cur),
{
    let t = cur.push('\n') + line;
    lemma_find(cur, '\n');
    lemma_find(t, '\n');
    match find(cur, '\n') {
        Some(k) => {
            assert(t[k] == cur[k]);
            match find(t, '\n') {
                Some(j) => {
                    if j < k {
                        assert(t[j] == cur[j]);
                    }
                    assert(j == k);
                    assert(t.take(k) =~= cur.take(k));
                },
                None => {},
            }
        },
        None => {
            let n = cur.len() as int;
            assert(t[n] == '\n');
            match find(t, '\n') {
                Some(j) => {
                    if j < n {
                        assert(t[j] == cur[j]);
                    }
                    assert(j == n);
                    assert(t.take(n) =~= cur);
                },
                None => {},
            }
        },
    }
}

/// Chunking non-empty lines without newlines: every closed chunk was closed
/// for the first line of the chunk after it.
proof fn lemma_chunk_scan_greedy(ls: Seq<Seq<char>>, target: nat)
    requires
        forall|i: int| 0 <= i < ls.len() ==> (#[trigger] ls[i]).len() > 0 && no_newline(ls[i]),
    ensures
        ({
            let (c, cur) = chunk_scan(ls, target);
            &&& forall|i: int| 0 <= i < c.len() - 1 ==> closed_for(#[trigger] c[i], c[i + 1], target)
            &&& c.len() > 0 ==> cur.len() > 0 && closed_for(c.last(), cur, target)
            &&& ls.len() > 0 ==> cur.len() > 0
        }),
    decreases ls.len(),
{
    if ls.len() > 0 {
        let prev = ls.drop_last();
        let line = ls.last();
        assert(line == ls[ls.len() - 1]);
        lemma_chunk_scan_greedy(prev, target);
        lemma_first_line_plain(line);
        let (c, cur) = chunk_scan(prev, target);
        let (c2, cur2) = chunk_scan(ls, target);
        if prev.len() == 0 {
            assert(c.len() == 0 && cur.len() == 0) by {
                assert(chunk_scan(prev, target) == (Seq::<Seq<char>>::empty(), Seq::<char>::empty()));
            }
            assert(c2.len() == 0);
            assert(cur2 =~= line);
        } else {
            let closes = byte_len(cur) + byte_len(line) + 1 > target && cur.len() > 0;
            if closes {
                assert(c2 == c.push(cur));
                assert(cur2 =~= line);
                assert forall|i: int| 0 <= i < c2.len() - 1 implies closed_for(#[trigger] c2[i], c2[i + 1], target) by {
                    if i < c.len() - 1 {
                        assert(c2[i] == c[i] && c2[i + 1] == c[i + 1]);
                    } else {
                        assert(c2[i] == c.last() && c2[i + 1] == cur);
                    }
                }
                assert(c2.last() == cur);
            } else {
                assert(c2 == c);
                assert(cur2 == cur.push('\n') + line);
                lemma_first_line_extend(cur, line);
            }
        }
    }
}

/// Chunking is greedy: when no line of the content is empty, each chunk
/// but the last was closed only because the first line of the next chunk
/// would have taken it past `target` bytes.
pub proof fn law_chunks_greedy(content: Seq<char>, target: nat)
    requires
        forall|i: int| 0 <= i < lines(content).len() ==> (#[trigger] lines(content)[i]).len() > 0,
    ensures
        forall|i: int|
            0 <= i < chunks_spec(content, target).len() - 1 ==> closed_for(
                #[trigger] chunks_spec(content, target)[i],
                chunks_spec(content, target)[i + 1],
                target,
            ),
{
    let ls = lines(content);
    lemma_line_scan_no_newline(content);
    assert forall|i: int| 0 <= i < ls.len() implies (#[trigger] ls[i]).len() > 0 && no_newline(ls[i]) by {
        let (done, cur) = line_scan(content);
        if i < done.len() {
            assert(ls[i] == done[i]);
        }
    }
    lemma_chunk_scan_greedy(ls, target);
    let (c, cur) = chunk_scan(ls, target);
    let all = chunks_spec(content, target);
    if ls.len() > 0 {
        assert(all == c.push(cur));
        assert forall|i: int| 0 <= i < all.len() - 1 implies closed_for(#[trigger] all[i], all[i + 1], target) by {
            if i < c.len() - 1 {
                assert(all[i] == c[i] && all[i + 1] == c[i + 1]);
            } else {
                assert(all[i] == c.last() && all[i + 1] == cur);
            }
        }
    } else {
        assert(c.len() == 0 && cur.len() == 0);
        assert(all =~= seq![Seq::<char>::empty()]);
    }
}

/// A binary identity file, 64 bytes, holds the private key as it is.
pub proof fn law_identity_file_binary(bytes: Seq<u8>)
    requires
        bytes.len() == 64,
    ensures
        identity_file_spec(bytes) == Ok::<Seq<u8>, IdentityFileError>(bytes),
{
}

/// The requests queued on a link are handed to the node in queue order:
/// the `k`-th handed over is the `k`-th queued, the one that the `k`-th
/// response on the link answers.
pub proof fn law_sent_in_queue_order(link: Seq<u8>, q: Seq<RequestView>)
    ensures
        sent_on(link, q).len() == q.len(),
        forall|k: int| 0 <= k < q.len() ==> #[trigger] sent_on(link, q)[k] == (link, q[k].0, q[k].1),
{
}

/// `s` holds `w` as a contiguous part.
pub open spec fn contains_part(s: Seq<char>, w: Seq<char>) -> bool {
    exists|i: int| 0 <= i && i + w.len() <= s.len() && #[trigger] s.subrange(i, i + w.len()) == w
}

/// The link to page `n` of `base` names that page: page 1 is `base`
/// itself, a later page is a path that splits back into `base` and `n`.
pub open spec fn names_page(p: Seq<char>, base: Seq<char>, n: nat) -> bool {
    if n == 1 {
        p == base
    } else {
        base_path_spec(p) == (base, Some(n))
    }
}

/// Page `n` of a paginated page links to the page before it and the page
/// after it, where they exist: its "<< Previous page" link names page
/// `n - 1` and its "Next page >>" link names page `n + 1`.
pub proof fn law_pagination_links(
    chunk: Seq<char>,
    n: nat,
    total: nat,
    base: Seq<char>,
    address: Seq<char>,
)
    requires
        has_mu_suffix(base),
        1 <= n <= total <= MAX_PAGES_PER_FILE,
    ensures
        n > 1 ==> exists|p: Seq<char>|
            names_page(p, base, (n - 1) as nat) && #[trigger] contains_part(
                paginated_markup(chunk, n, total, base, address),
                link_markup("<< Previous page"@, address + ":"@ + p),
            ),
        n < total ==> exists|p: Seq<char>|
            names_page(p, base, n + 1) && #[trigger] contains_part(
                paginated_markup(chunk, n, total, base, address),
                link_markup("Next page >>"@, address + ":"@ + p),
            ),
{
    let m = paginated_markup(chunk, n, total, base, address);
    if total > 1 {
        let head = "#!c="@ + decimal(0) + "\n"@ + chunk + "\n"@ + "\n"@ + "-\n"@ + "\n"@;
        let pos = ("  Page "@ + decimal(n) + " of "@ + decimal(total)) + "\n"@;
        if n > 1 {
            let p = paginate_spec(base, (n - 1) as nat);
            let l = link_markup("<< Previous page"@, address + ":"@ + p);
            let nav2 = if n < total {
                link_markup("Next page >>"@, address + ":"@ + paginate_spec(base, n + 1))
            } else {
                "  "@ + "\n"@
            };
            assert(m =~= head + l + (pos + nav2));
            assert(m.subrange(head.len() as int, (head.len() + l.len()) as int) =~= l);
            assert(contains_part(m, l));
            if n - 1 >= 2 {
                law_paginate_roundtrip(base, (n - 1) as nat);
            }
            assert(names_page(p, base, (n - 1) as nat));
        }
        if n < total {
            let p = paginate_spec(base, n + 1);
            let l = link_markup("Next page >>"@, address + ":"@ + p);
            let nav1 = if n > 1 {
                link_markup("<< Previous page"@, address + ":"@ + paginate_spec(base, (n - 1) as nat))
            } else {
                "  "@ + "\n"@
            };
            let front = head + nav1 + pos;
            assert(m =~= front + l);
            assert(m.subrange(front.len() as int, (front.len() + l.len()) as int) =~= l);
            assert(contains_part(m, l));
            law_paginate_roundtrip(base, n + 1);
            assert(names_page(p, base, n + 1));
        }
    }
}

/// A join of lines starts with the first line, so it is at least as long.
proof fn lemma_join_starts_long(s: Seq<Seq<char>>, sep: Seq<char>)
    requires
        s.len() > 0,
    ensures
        join(s, sep).len() >= s[0].len(),
    decreases s.len(),
{
    if s.len() > 1 {
        lemma_join_starts_long(s.drop_last(), sep);
    }
}

/// Lines that fit in one chunk, the first not empty, are chunked as one
/// chunk holding them all.
proof fn lemma_chunk_scan_fits(ls: Seq<Seq<char>>, target: nat)
    requires
        ls.len() > 0,
        ls[0].len() > 0,
        byte_len(join(ls, seq!['\n'])) < target,
    ensures
        chunk_scan(ls, target) == (Seq::<Seq<char>>::empty(), join(ls, seq!['\n'])),
    decreases ls.len(),
{
    let nl = seq!['\n'];
    let prev = ls.drop_last();
    let line = ls.last();
    if prev.len() == 0 {
        assert(chunk_scan(prev, target) == (Seq::<Seq<char>>::empty(), Seq::<char>::empty()));
        assert(join(ls, nl) == ls[0]);
        assert(Seq::<char>::empty() + line =~= line);
    } else {
        assert(join(ls, nl) == join(prev, nl) + nl + line);
        crate::text::lemma_byte_len_concat(join(prev, nl) + nl, line);
        crate::text::lemma_byte_len_concat(join(prev, nl), nl);
        assert(byte_len(nl) == 1) by {
            assert(nl.drop_last() =~= Seq::<char>::empty());
            assert(byte_len(Seq::<char>::empty()) == 0);
            assert(nl.last() == '\n');
            assert(('\n' as u32) < 0x80);
            assert(crate::text::utf8_width('\n') == 1);
        }
        assert(prev[0] == ls[0]);
        lemma_chunk_scan_fits(prev, target);
        lemma_join_starts_long(prev, nl);
        let cur = join(prev, nl);
        assert(cur.len() > 0);
        assert(cur.push('\n') + line =~= join(ls, nl));
    }
}

/// Chunking keeps every line, blank ones included, of a content that fits
/// in one chunk: when its first line is not empty and its lines joined by
/// newlines take fewer than `target` bytes, the one chunk is exactly that
/// join.
pub proof fn law_chunk_keeps_blank_lines(content: Seq<char>, target: nat)
    requires
        lines(content).len() > 0,
        lines(content)[0].len() > 0,
        byte_len(join(lines(content), seq!['\n'])) < target,
    ensures
        chunks_spec(content, target) == seq![join(lines(content), seq!['\n'])],
{
    let ls = lines(content);
    lemma_chunk_scan_fits(ls, target);
    lemma_join_starts_long(ls, seq!['\n']);
    assert(Seq::<Seq<char>>::empty().push(join(ls, seq!['\n'])) =~= seq![join(ls, seq!['\n'])]);
}

/// Reading lines `ls` from state `st`.
pub open spec fn scan_from(st: ParseState, ls: Seq<Seq<char>>) -> ParseState
    decreases ls.len(),
{
    if ls.len() == 0 {
        st
    } else {
        config_step(scan_from(st, ls.drop_last()), ls.last())
    }
}

/// Reading `a` then `b` is reading `b` from the state after `a`.
proof fn lemma_config_scan_concat(a: Seq<Seq<char>>, b: Seq<Seq<char>>)
    ensures
        config_scan(a + b) == scan_from(config_scan(a), b),
    decreases b.len(),
{
    if b.len() == 0 {
        assert(a + b =~= a);
    } else {
        lemma_config_scan_concat(a, b.drop_last());
        assert((a + b).drop_last() =~= a + b.drop_last());
        assert((a + b).last() == b.last());
    }
}

/// Outside an interface section no settings are held.
pub open spec fn settings_in_section(st: ParseState) -> bool {
    st.iface is None ==> st.props == Map::<Seq<char>, Seq<char>>::empty()
}

/// Reading a line keeps settings within interface sections, and a section
/// header starts with no settings.
proof fn lemma_step_settings(st: ParseState, raw: Seq<char>)
    requires
        settings_in_section(st),
    ensures
        settings_in_section(config_step(st, raw)),
        ({
            let line = trim(raw);
            line.len() > 0 && line[0] != '#' && bracketed(line)
                ==> config_step(st, raw).props == Map::<Seq<char>, Seq<char>>::empty()
        }),
{
}

/// Every state reached by reading lines keeps settings within interface
/// sections.
proof fn lemma_scan_settings(ls: Seq<Seq<char>>)
    ensures
        settings_in_section(config_scan(ls)),
    decreases ls.len(),
{
    if ls.len() > 0 {
        lemma_scan_settings(ls.drop_last());
        lemma_step_settings(config_scan(ls.drop_last()), ls.last());
    }
}

/// Two reading states that agree but for interfaces `p` read before.
pub open spec fn agree_after(a: ParseState, b: ParseState, p: Seq<InterfaceSpec>) -> bool {
    &&& a.interfaces == p + b.interfaces
    &&& a.section == b.section
    &&& a.iface == b.iface
    &&& a.props == b.props
}

/// Reading the same lines keeps two states in agreement.
proof fn lemma_scan_agree(a: ParseState, b: ParseState, p: Seq<InterfaceSpec>, ls: Seq<Seq<char>>)
    requires
        agree_after(a, b, p),
    ensures
        agree_after(scan_from(a, ls), scan_from(b, ls), p),
        agree_after(flush(scan_from(a, ls)), flush(scan_from(b, ls)), p),
    decreases ls.len(),
{
    if ls.len() > 0 {
        lemma_scan_agree(a, b, p, ls.drop_last());
    }
    let sa = scan_from(a, ls);
    let sb = scan_from(b, ls);
    if sa.iface is Some {
        assert(flush(sa).interfaces =~= p + flush(sb).interfaces);
    }
}

/// The lines of `a` followed by `b` are the lines of `a` followed by those
/// of `b`, when `a` is empty or ends with a newline.
proof fn lemma_line_scan_concat(a: Seq<char>, b: Seq<char>)
    requires
        line_scan(a).1.len() == 0,
    ensures
        line_scan(a + b) == (line_scan(a).0 + line_scan(b).0, line_scan(b).1),
    decreases b.len(),
{
    if b.len() == 0 {
        assert(a + b =~= a);
        assert(line_scan(a).0 + Seq::<Seq<char>>::empty() =~= line_scan(a).0);
        assert(line_scan(a).1 =~= Seq::<char>::empty());
    } else {
        lemma_line_scan_concat(a, b.drop_last());
        assert((a + b).drop_last() =~= a + b.drop_last());
        assert((a + b).last() == b.last());
        let (d, c) = line_scan(b.drop_last());
        if b.last() == '\n' {
            assert((line_scan(a).0 + d).push(crate::text::strip_cr(c)) =~= line_scan(a).0 + d.push(crate::text::strip_cr(c)));
        }
    }
}

/// Lines of a text that is empty or ends with a newline, followed by
/// another text.
proof fn lemma_lines_concat(a: Seq<char>, b: Seq<char>)
    requires
        a.len() == 0 || a.last() == '\n',
    ensures
        lines(a + b) == lines(a) + lines(b),
{
    if a.len() > 0 {
        assert(a.drop_last().push(a.last()) =~= a);
    }
    assert(line_scan(a).1.len() == 0);
    lemma_line_scan_concat(a, b);
    let (d, c) = line_scan(b);
    if c.len() > 0 {
        assert((line_scan(a).0 + d).push(c) =~= line_scan(a).0 + d.push(c));
    }
}

/// Each interface comes from its own section alone: a configuration text
/// followed by one that starts with a section header describes the
/// interfaces of the first, then those of the second. Settings of a
/// section that did not read do not leak into the next.
pub proof fn law_config_sections_independent(first: Seq<char>, second: Seq<char>)
    requires
        first.len() == 0 || first.last() == '\n',
        lines(second).len() > 0,
        bracketed(trim(lines(second)[0])),
    ensures
        parse_spec(first + second).0 == parse_spec(first).0 + parse_spec(second).0,
{
    let l1 = lines(first);
    let l2 = lines(second);
    let h = l2[0];
    let rest = l2.drop_first();
    lemma_lines_concat(first, second);
    assert(l1 + l2 =~= l1.push(h) + rest);
    assert(l2 =~= seq![h] + rest);
    lemma_config_scan_concat(l1.push(h), rest);
    lemma_config_scan_concat(seq![h], rest);
    let s1 = config_scan(l1);
    lemma_scan_settings(l1);
    lemma_step_settings(s1, h);
    lemma_step_settings(initial_state(), h);
    assert(l1.push(h).drop_last() =~= l1);
    assert(seq![h].drop_last() =~= Seq::<Seq<char>>::empty());
    let a = config_scan(l1.push(h));
    let b = config_scan(seq![h]);
    assert(a == config_step(s1, h));
    assert(seq![h].last() == h);
    assert(config_scan(Seq::<Seq<char>>::empty()) == initial_state());
    assert(b == config_step(initial_state(), h));
    let p = flush(s1).interfaces;
    assert(trim(h).len() > 0);
    assert(agree_after(a, b, p)) by {
        assert(flush(initial_state()) == initial_state());
        assert(b.interfaces =~= Seq::<InterfaceSpec>::empty());
        assert(a.interfaces =~= p + b.interfaces);
    }
    lemma_scan_agree(a, b, p, rest);
}

/// `x` is a run of consecutive lines of `ls`, starting at a non-empty
/// line, joined by newlines.
pub open spec fn is_line_run(x: Seq<char>, ls: Seq<Seq<char>>) -> bool {
    exists|a: int, b: int|
        0 <= a < b <= ls.len() && ls[a].len() > 0 && x == join(#[trigger] ls.subrange(a, b), seq!['\n'])
}

/// Chunking builds every chunk from a run of consecutive lines.
proof fn lemma_chunk_scan_runs(ls: Seq<Seq<char>>, target: nat)
    ensures
        ({
            let (c, cur) = chunk_scan(ls, target);
            &&& forall|j: int| 0 <= j < c.len() ==> is_line_run(#[trigger] c[j], ls)
            &&& cur.len() > 0 ==> exists|a: int|
                0 <= a < ls.len() && ls[a].len() > 0 && cur == join(#[trigger] ls.subrange(a, ls.len() as int), seq!['\n'])
            &&& (exists|i: int| 0 <= i < ls.len() && (#[trigger] ls[i]).len() > 0) ==> c.len() > 0 || cur.len() > 0
        }),
    decreases ls.len(),
{
    let nl = seq!['\n'];
    if ls.len() > 0 {
        let prev = ls.drop_last();
        let n = ls.len() as int;
        let line = ls.last();
        assert(line == ls[n - 1]);
        lemma_chunk_scan_runs(prev, target);
        let (c, cur) = chunk_scan(prev, target);
        let (c2, cur2) = chunk_scan(ls, target);
        assert forall|x: Seq<char>| is_line_run(x, prev) implies is_line_run(x, ls) by {
            let (a, b) = choose|a: int, b: int|
                0 <= a < b <= prev.len() && prev[a].len() > 0 && x == join(#[trigger] prev.subrange(a, b), nl);
            assert(prev.subrange(a, b) =~= ls.subrange(a, b));
            assert(ls[a] == prev[a]);
        }
        assert(ls.subrange(n - 1, n) =~= seq![line]);
        assert(join(seq![line], nl) == line);
        let closes = byte_len(cur) + byte_len(line) + 1 > target && cur.len() > 0;
        if closes {
            assert(c2 == c.push(cur));
            assert(cur2 =~= line);
            assert forall|j: int| 0 <= j < c2.len() implies is_line_run(#[trigger] c2[j], ls) by {
                if j < c.len() {
                    assert(c2[j] == c[j]);
                    assert(is_line_run(c[j], prev));
                } else {
                    assert(c2[j] == cur);
                    let a = choose|a: int|
                        0 <= a < prev.len() && prev[a].len() > 0 && cur == join(#[trigger] prev.subrange(a, prev.len() as int), nl);
                    assert(prev.subrange(a, prev.len() as int) =~= ls.subrange(a, n - 1));
                    assert(ls[a] == prev[a]);
                    assert(is_line_run(cur, ls));
                }
            }
        } else {
            assert(c2 == c);
            assert forall|j: int| 0 <= j < c2.len() implies is_line_run(#[trigger] c2[j], ls) by {
                assert(is_line_run(c[j], prev));
            }
            if cur.len() > 0 {
                assert(cur2 == cur.push('\n') + line);
                let a = choose|a: int|
                    0 <= a < prev.len() && prev[a].len() > 0 && cur == join(#[trigger] prev.subrange(a, prev.len() as int), nl);
                let run = prev.subrange(a, prev.len() as int);
                assert(ls.subrange(a, n) =~= run.push(line));
                lemma_join_push(run, line, nl);
                assert(cur2 =~= join(ls.subrange(a, n), nl));
                assert(ls[a] == prev[a]);
            } else {
                assert(cur2 =~= line);
            }
        }
        if exists|i: int| 0 <= i < ls.len() && (#[trigger] ls[i]).len() > 0 {
            if line.len() == 0 {
                let i = choose|i: int| 0 <= i < ls.len() && (#[trigger] ls[i]).len() > 0;
                assert(i < n - 1);
                assert(prev[i] == ls[i]);
                if !closes && cur.len() > 0 {
                    assert(cur2.len() > 0);
                }
            } else {
                assert(cur2.len() >= line.len());
            }
        }
    }
}

/// Chunking only groups lines, keeping them whole: when the content has a
/// line that is not empty, every chunk is a run of consecutive lines of the
/// content, blank lines inside it included, joined by newlines (a run
/// starts at a line that is not empty).
pub proof fn law_chunks_are_line_runs(content: Seq<char>, target: nat)
    requires
        exists|i: int| 0 <= i < lines(content).len() && (#[trigger] lines(content)[i]).len() > 0,
    ensures
        forall|j: int|
            0 <= j < chunks_spec(content, target).len() ==> is_line_run(
                #[trigger] chunks_spec(content, target)[j],
                lines(content),
            ),
{
    let ls = lines(content);
    lemma_chunk_scan_runs(ls, target);
    let (c, cur) = chunk_scan(ls, target);
    let all = chunks_spec(content, target);
    if cur.len() > 0 {
        assert(all == c.push(cur));
        assert forall|j: int| 0 <= j < all.len() implies is_line_run(#[trigger] all[j], ls) by {
            if j < c.len() {
                assert(all[j] == c[j]);
            } else {
                assert(all[j] == cur);
                let a = choose|a: int|
                    0 <= a < ls.len() && ls[a].len() > 0 && cur == join(#[trigger] ls.subrange(a, ls.len() as int), seq!['\n']);
                assert(is_line_run(cur, ls));
            }
        }
    } else {
        assert(c.len() > 0);
        assert(all == c);
    }
}

} // verus!
