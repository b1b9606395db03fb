//! The calls into the Reticulum crates and the hex encoder that the node
//! and directory logic makes, with what they are taken to return.

use vstd::prelude::*;
use vstd::string::*;
use vstd::utf8::{decode_utf8, valid_utf8};

use crate::browser::SentRequests;
use crate::text::str_views;

verus! {

/// The lowercase hexadecimal digit for `n` (for `0 <= n < 16`).
pub open spec fn hex_digit_lower(n: int) -> char {
    if n < 10 {
        ((n + 48) as u8) as char
    } else {
        ((n + 87) as u8) as char
    }
}

/// The lowercase hexadecimal text of `bytes`: two digits per byte, high
/// half first.
pub open spec fn hex_lower(bytes: Seq<u8>) -> Seq<char>
    decreases bytes.len(),
{
    if bytes.len() == 0 {
        Seq::empty()
    } else {
        hex_lower(bytes.drop_last()) + seq![
            hex_digit_lower((bytes.last() / 16) as int),
            hex_digit_lower((bytes.last() % 16) as int),
        ]
    }
}

/// `hex::encode`, which the hex crate documents as encoding the data as a
/// hex string of lowercase characters, two per byte.
#[verifier::external_body]
pub(crate) fn hex_encode(bytes: &[u8]) -> (s: String)
    ensures
        s@ == hex_lower(bytes@),
{
    hex::encode(bytes)
}

/// The view of an optional 16-byte hash.
pub open spec fn opt_hash_view(h: Option<&[u8; 16]>) -> Option<Seq<u8>> {
    match h {
        Some(x) => Some(x@),
        None => None,
    }
}

/// The destination hash that `rns_core::destination::destination_hash`
/// computes for an application name, its aspects and an identity hash.
pub uninterp spec fn destination_hash_of(app_name: Seq<char>, aspects: Seq<Seq<char>>, identity_hash: Option<Seq<u8>>) -> Seq<u8>;

/// No `.` in a name part.
pub open spec fn dotless(s: Seq<char>) -> bool {
    forall|i: int| 0 <= i < s.len() ==> s[i] != '.'
}

/// `rns_core::destination::destination_hash`: a truncated SHA-256 of the
/// name hash and the identity hash. The name hash panics on a `.` in the
/// application name or an aspect, so those are required to hold none. The
/// contract claims only that the result depends on the arguments alone (it
/// is `destination_hash_of` of them).
#[verifier::external_body]
pub(crate) fn destination_hash(app_name: &str, aspects: &[&str], identity_hash: Option<&[u8; 16]>) -> (h: [u8; 16])
    requires
        dotless(app_name@),
        forall|i: int| 0 <= i < aspects@.len() ==> dotless(#[trigger] aspects@[i]@),
    ensures
        h@ == destination_hash_of(app_name@, str_views(aspects@), opt_hash_view(identity_hash)),
{
    rns_core::destination::destination_hash(app_name, aspects, identity_hash)
}

/// The identity hash of the identity made from a private key.
pub uninterp spec fn identity_hash_of(private_key: Seq<u8>) -> Seq<u8>;

/// The public key (encryption half, then signing half) of the identity made
/// from a private key.
pub uninterp spec fn identity_public_key_of(private_key: Seq<u8>) -> Seq<u8>;

/// `Identity::from_private_key(..).hash()` of `rns_crypto`: the identity
/// hash, which depends on the private key alone.
#[verifier::external_body]
pub(crate) fn identity_hash(private_key: &[u8; 64]) -> (h: [u8; 16])
    ensures
        h@ == identity_hash_of(private_key@),
{
    *rns_crypto::identity::Identity::from_private_key(private_key).hash()
}

/// `Identity::from_private_key(..).get_public_key()` of `rns_crypto`: an
/// identity made from a private key holds both public halves, so there is
/// always a public key, and it depends on the private key alone.
#[verifier::external_body]
pub(crate) fn identity_public_key(private_key: &[u8; 64]) -> (k: Option<[u8; 64]>)
    ensures
        k is Some,
        k matches Some(x) ==> x@ == identity_public_key_of(private_key@),
{
    rns_crypto::identity::Identity::from_private_key(private_key).get_public_key()
}

/// `std::str::from_utf8`, owned: the text when the bytes are valid UTF-8.
#[verifier::external_body]
pub(crate) fn utf8_text(bytes: &[u8]) -> (r: Option<String>)
    ensures
        r is Some <==> valid_utf8(bytes@),
        r matches Some(s) ==> s@ == decode_utf8(bytes@),
{
    match std::str::from_utf8(bytes) {
        Ok(s) => Some(s.to_string()),
        Err(_) => None,
    }
}

/// What `String::from_utf8_lossy` makes of bytes.
pub uninterp spec fn utf8_lossy_of(bytes: Seq<u8>) -> Seq<char>;

/// `String::from_utf8_lossy`, owned: the text of valid UTF-8 bytes as they
/// decode; for other bytes a text with U+FFFD in place of each invalid
/// sequence, which depends on the bytes alone.
#[verifier::external_body]
pub(crate) fn utf8_lossy(bytes: &[u8]) -> (s: String)
    ensures
        s@ == utf8_lossy_of(bytes@),
        valid_utf8(bytes@) ==> s@ == decode_utf8(bytes@),
{
    String::from_utf8_lossy(bytes).into_owned()
}

/// What `str::to_lowercase` returns for a text.
pub uninterp spec fn lowercase_of(s: Seq<char>) -> Seq<char>;

/// The lowercase form of an ASCII character: `A`..`Z` become `a`..`z`,
/// every other character stays.
pub open spec fn ascii_lower(c: char) -> char {
    if 'A' <= c && c <= 'Z' {
        ((c as u32 + 32) as u8) as char
    } else {
        c
    }
}

/// Every character is ASCII.
pub open spec fn all_ascii(s: Seq<char>) -> bool {
    forall|i: int| 0 <= i < s.len() ==> s[i] <= '\u{7f}'
}

/// The lowercase form of a text: the ASCII lowering of an ASCII text, what
/// `str::to_lowercase` returns for any other.
pub open spec fn lowercase_text(s: Seq<char>) -> Seq<char> {
    if all_ascii(s) {
        s.map_values(|c: char| ascii_lower(c))
    } else {
        lowercase_of(s)
    }
}

/// `str::to_lowercase`: the Unicode lowercase form, which depends on the
/// text alone. Of an ASCII text it is the text with `A`..`Z` lowered (the
/// Unicode lowercase mapping of ASCII, as `to_ascii_lowercase` documents
/// it); of other texts nothing more is claimed.
#[verifier::external_body]
pub(crate) fn to_lowercase(s: &str) -> (r: String)
    ensures
        r@ == lowercase_of(s@),
        all_ascii(s@) ==> r@ == s@.map_values(|c: char| ascii_lower(c)),
{
    s.to_lowercase()
}

/// The value of a hexadecimal digit (either case).
pub open spec fn hex_value(c: char) -> int {
    if '0' <= c && c <= '9' {
        (c as u32) - ('0' as u32)
    } else if 'a' <= c && c <= 'f' {
        (c as u32) - ('a' as u32) + 10
    } else {
        (c as u32) - ('A' as u32) + 10
    }
}

/// The bytes a hexadecimal text stands for: each pair of digits, high half
/// first.
pub open spec fn hex_bytes(s: Seq<char>) -> Seq<u8> {
    Seq::new(s.len() / 2, |i: int| (hex_value(s[2 * i]) * 16 + hex_value(s[2 * i + 1])) as u8)
}

/// `hex::decode` of an ASCII text of hexadecimal digits of even length,
/// which the hex crate documents as decoding each pair of digits (either
/// case) into one byte, high half first.
#[verifier::external_body]
pub(crate) fn hex_decode(text: &str) -> (r: Option<Vec<u8>>)
    requires
        text@.len() % 2 == 0,
        forall|i: int| 0 <= i < text@.len() ==> crate::micron::is_hex_digit(#[trigger] text@[i]),
    ensures
        r is Some,
        r matches Some(v) ==> v@ == hex_bytes(text@),
{
    match hex::decode(text) {
        Ok(v) => Some(v),
        Err(_) => None,
    }
}

/// A running Reticulum node; the browser sends its requests through it.
#[verifier::external_type_specification]
#[verifier::external_body]
pub struct ExRnsNode(rns_net::RnsNode);

/// `RnsNode::send_request`: hands a request for `path` with `data` on
/// `link_id` to the node's driver; the log records that these were handed
/// over. Whether the node takes them (it fails when it no longer accepts
/// work or its driver has shut down) depends on the running node, so
/// nothing is claimed of the outcome.
#[verifier::external_body]
pub(crate) fn send_request(
    node: &rns_net::RnsNode,
    log: &mut SentRequests,
    link_id: [u8; 16],
    path: &str,
    data: &[u8],
) -> (r: Result<(), rns_net::node::SendError>)
    ensures
        final(log).sent() == old(log).sent().push((link_id@, path@, data@)),
{
    node.send_request(link_id, path, data)
}

} // verus!
