use nomadnet::node::{NomadNode, PageCache};
use nomadnet::serve::{
    build_auto_index, populate_cache, replace_self, served_page_paths, udp_listen_endpoint,
};
use nomadnet::node::FileEntry;
use nomadnet::serve::signing_public_key;
use nomadnet::types::{NodeConfig, NomadError};

#[test]
fn replace_self_rewrites_all_placeholders() {
    let in_text = "`[Home`$SELF:/page/index.mu]\n`[Users`$SELF:/page/users.mu]";
    let out = replace_self(in_text, "deadbeefcafebabe");
    assert!(!out.contains("$SELF"));
    assert!(out.contains("deadbeefcafebabe:/page/index.mu"));
    assert!(out.contains("deadbeefcafebabe:/page/users.mu"));
}

#[test]
fn replace_self_edge_cases() {
    assert_eq!(replace_self("$SEL", "x"), "$SEL");
    assert_eq!(replace_self("$$SELFF", "x"), "$xF");
    assert_eq!(replace_self("", "x"), "");
}

#[test]
fn auto_index_lists_pages() {
    let pages = vec!["a.mu".to_string(), "b`c.mu".to_string()];
    let idx = String::from_utf8(build_auto_index(&pages, "ab")).unwrap();
    assert_eq!(
        idx,
        "#!c=30\n> nomadnet-serve\n-\nPages served from this node:\n\n`[a.mu`ab:/page/a.mu]\n`[b``c.mu`ab:/page/b``c.mu]\n"
    );
    let empty = String::from_utf8(build_auto_index(&[], "ab")).unwrap();
    assert!(empty.ends_with("\nNo pages available.\n"));
}

#[test]
fn served_paths_add_index_when_missing() {
    let files = vec!["docs/a.mu".to_string()];
    assert_eq!(
        served_page_paths(&files),
        vec!["/page/docs/a.mu".to_string(), "/page/index.mu".to_string()]
    );
    let files = vec!["index.mu".to_string()];
    assert_eq!(served_page_paths(&files), vec!["/page/index.mu".to_string()]);
}

#[test]
fn populate_cache_stores_pages_and_index() {
    let mut cache = PageCache::new();
    let pages = vec!["a.mu".to_string(), "b.mu".to_string()];
    let contents = vec![("a.mu".to_string(), b"go $SELF".to_vec())];
    populate_cache(&mut cache, &pages, &contents, "ab");
    assert_eq!(cache.get("/page/a.mu"), Some(b"go ab".to_vec()));
    assert!(cache.get("/page/b.mu").is_none());
    assert_eq!(cache.get("/page/index.mu"), Some(build_auto_index(&pages, "ab")));
}

#[test]
fn udp_endpoint_splits_address() {
    assert_eq!(udp_listen_endpoint("0.0.0.0:4242"), ("0.0.0.0".to_string(), 4242));
    assert_eq!(udp_listen_endpoint("10.0.0.1:99"), ("10.0.0.1".to_string(), 99));
    assert_eq!(udp_listen_endpoint("host"), ("host".to_string(), 4242));
    assert_eq!(udp_listen_endpoint("host:bad"), ("host".to_string(), 4242));
}

fn keys() -> ([u8; 64], [u8; 32]) {
    let mut prv = [0u8; 64];
    for (i, b) in prv.iter_mut().enumerate() {
        *b = (i as u8).wrapping_mul(7).wrapping_add(3);
    }
    let identity = rns_crypto::identity::Identity::from_private_key(&prv);
    let full_pub = identity.get_public_key().unwrap();
    let mut pub_arr = [0u8; 32];
    pub_arr.copy_from_slice(&full_pub[32..64]);
    (prv, pub_arr)
}

#[test]
fn node_new_checks_the_public_key() {
    let (prv, pub_key) = keys();
    let config = NodeConfig {
        identity_prv: prv,
        identity_pub: pub_key,
        node_name: "n".to_string(),
        announce_interval_secs: 5,
    };
    let node = NomadNode::new(config).unwrap();
    let identity = rns_crypto::identity::Identity::from_private_key(&prv);
    assert_eq!(node.identity_hash(), identity.hash());
    let dest = rns_core::destination::destination_hash("nomadnetwork", &["node"], Some(identity.hash()));
    assert_eq!(node.dest_hash(), &dest);
    assert_eq!(node.nomad_address(), hex::encode(dest));
    assert_eq!(node.node_name(), "n");
    assert_eq!(node.announce_interval_secs(), 5);

    let mut wrong = pub_key;
    wrong[0] ^= 1;
    let bad = NodeConfig {
        identity_prv: prv,
        identity_pub: wrong,
        node_name: "n".to_string(),
        announce_interval_secs: 5,
    };
    match NomadNode::new(bad) {
        Err(NomadError::IdentityKeyMismatch { expected_sig_pub_hex, provided_sig_pub_hex }) => {
            assert_eq!(expected_sig_pub_hex, hex::encode(pub_key));
            assert_eq!(provided_sig_pub_hex, hex::encode(wrong));
        }
        _ => panic!("expected a key mismatch"),
    }
}

#[test]
fn node_answers_requests() {
    let (prv, pub_key) = keys();
    let config = NodeConfig {
        identity_prv: prv,
        identity_pub: pub_key,
        ..NodeConfig::default()
    };
    let mut node = NomadNode::new(config).unwrap();
    assert_eq!(node.node_name(), "Unnamed Node");
    assert_eq!(node.announce_interval_secs(), 600);
    node.page_cache_mut().set("/page/index.mu", b"hi".to_vec());
    assert_eq!(node.handle_page_request("/page/index.mu", "/page/index.mu"), b"hi".to_vec());
    let missing = String::from_utf8(node.handle_page_request("/page/x.mu", "/page/x.mu")).unwrap();
    assert!(missing.contains("404"));
    assert!(missing.contains(&format!("{}:/page/index.mu", node.nomad_address())));
    assert!(node.handle_file_request("/file/a").is_none());
    let test_page = String::from_utf8(node.test_page()).unwrap();
    assert!(test_page.starts_with("#!c=0\n> Test Page\n-\n"));
    assert_eq!(node.page_cache().paths(), vec!["/page/index.mu".to_string()]);
}

#[test]
fn signing_key_is_second_public_half() {
    let (prv, pub_key) = keys();
    assert_eq!(signing_public_key(&prv), pub_key);
}

#[test]
fn node_caches_are_reachable_for_filling() {
    let (prv, pub_key) = keys();
    let config = NodeConfig {
        identity_prv: prv,
        identity_pub: pub_key,
        node_name: "Relay".to_string(),
        announce_interval_secs: 60,
    };
    let mut node = NomadNode::new(config).unwrap();
    assert_eq!(node.announce_data(), b"Relay".to_vec());
    node.page_cache_mut().set("/page/a.mu", b"A".to_vec());
    node.file_cache_mut().set(
        "/file/f.bin",
        FileEntry { content: vec![1, 2, 3], name: "f.bin".to_string() },
    );
    assert_eq!(node.handle_page_request("/page/a.mu", "/page/a.mu"), b"A".to_vec());
    assert_eq!(node.handle_file_request("/file/f.bin"), Some(vec![1, 2, 3]));
    node.page_cache_mut().remove("/page/a.mu");
    assert!(node.page_cache().get("/page/a.mu").is_none());
    node.file_cache_mut().set("/file/g.bin", FileEntry { content: vec![9], name: "g.bin".to_string() });
    assert_eq!(node.file_cache().paths().len(), 2);
    assert_eq!(node.identity_prv(), &prv);
}

#[test]
fn error_messages() {
    assert_eq!(NomadError::NoPath("ab".to_string()).message(), "No path to destination ab");
    assert_eq!(
        NomadError::IdentityNotFound("cd".to_string()).message(),
        "Identity not found for destination cd"
    );
    assert_eq!(
        NomadError::LinkFailed("ef".to_string()).message(),
        "Link creation failed for destination ef"
    );
    assert_eq!(NomadError::RequestFailed("/p".to_string()).message(), "Request failed for path /p");
    assert_eq!(
        NomadError::DestinationRegistrationFailed.message(),
        "Destination registration failed"
    );
    let mismatch = NomadError::IdentityKeyMismatch {
        expected_sig_pub_hex: "aa".to_string(),
        provided_sig_pub_hex: "bb".to_string(),
    };
    assert_eq!(mismatch.message(), "Identity public key mismatch: expected aa, got bb");
}

#[test]
fn send_error_converts_to_send_failed() {
    let e = NomadError::from(rns_net::SendError);
    assert!(matches!(e, NomadError::SendFailed(_)));
    assert_eq!(e.message(), "RNS send error");
}

#[test]
fn identity_saved_as_hex_reads_back() {
    let (prv, _) = keys();
    let saved = hex::encode(prv);
    assert_eq!(nomadnet::serve::identity_key_from_file(saved.as_bytes()), Ok(prv));
    let padded = format!("  {}\n", saved.to_uppercase());
    assert_eq!(nomadnet::serve::identity_key_from_file(padded.as_bytes()), Ok(prv));
}

#[test]
fn populate_cache_reads_invalid_utf8_lossily() {
    let mut cache = PageCache::new();
    let pages = vec!["index.mu".to_string()];
    let contents = vec![("index.mu".to_string(), vec![b'a', 0xff, b'$', b'S', b'E', b'L', b'F'])];
    populate_cache(&mut cache, &pages, &contents, "cd");
    assert_eq!(cache.get("/page/index.mu"), Some("a\u{fffd}cd".as_bytes().to_vec()));
    assert_eq!(cache.paths().len(), 1);
}
