use nomadnet::directory::{associated_lxmf_dest_hash, is_nomadnet_announce, Announce, NomadDirectory};
use nomadnet::types::MAX_DIRECTORY_ENTRIES;
use rns_core::destination::destination_hash;

fn make_announced(identity_hash: [u8; 16], app_data: Option<Vec<u8>>) -> Announce {
    let dest = destination_hash("nomadnetwork", &["node"], Some(&identity_hash));
    Announce {
        dest_hash: dest,
        identity_hash,
        app_data,
        hops: 3,
        received_at_bits: 1000.0f64.to_bits(),
    }
}

#[test]
fn test_nomadnet_announce_accepted() {
    let mut dir = NomadDirectory::new();
    let identity = [0xAA; 16];
    let announced = make_announced(identity, Some(b"TestNode".to_vec()));
    dir.handle_announce(&announced);
    assert_eq!(dir.len(), 1);
    assert_eq!(dir.known_nodes()[0].node_name.as_deref(), Some("TestNode"));
    assert_eq!(dir.known_nodes()[0].hops, 3);
}

#[test]
fn test_non_nomadnet_announce_rejected() {
    let mut dir = NomadDirectory::new();
    let identity = [0xBB; 16];
    let lxmf_dest = destination_hash("lxmf", &["delivery"], Some(&identity));
    let announced = Announce {
        dest_hash: lxmf_dest,
        identity_hash: identity,
        app_data: Some(b"NotANode".to_vec()),
        hops: 1,
        received_at_bits: 1000.0f64.to_bits(),
    };
    dir.handle_announce(&announced);
    assert_eq!(dir.len(), 0);
}

#[test]
fn test_announce_updates_existing() {
    let mut dir = NomadDirectory::new();
    let identity = [0xCC; 16];

    dir.handle_announce(&make_announced(identity, Some(b"NodeV1".to_vec())));
    assert_eq!(dir.known_nodes()[0].node_name.as_deref(), Some("NodeV1"));

    dir.handle_announce(&make_announced(identity, Some(b"NodeV2".to_vec())));
    assert_eq!(dir.len(), 1);
    assert_eq!(dir.known_nodes()[0].node_name.as_deref(), Some("NodeV2"));
}

#[test]
fn test_max_entries_eviction() {
    let mut dir = NomadDirectory::new();
    for i in 0..=MAX_DIRECTORY_ENTRIES {
        let mut identity = [0u8; 16];
        identity[0..2].copy_from_slice(&(i as u16).to_le_bytes());
        let announced = make_announced(identity, Some(format!("Node{i}").into_bytes()));
        dir.handle_announce(&announced);
    }
    assert!(dir.len() <= MAX_DIRECTORY_ENTRIES);
}

#[test]
fn test_get_node() {
    let mut dir = NomadDirectory::new();
    let identity = [0xDD; 16];
    let dest = destination_hash("nomadnetwork", &["node"], Some(&identity));
    dir.handle_announce(&make_announced(identity, Some(b"Target".to_vec())));
    assert!(dir.get_node(&dest).is_some());
    assert_eq!(
        dir.get_node(&dest).unwrap().node_name.as_deref(),
        Some("Target")
    );
}

#[test]
fn test_get_node_by_identity() {
    let mut dir = NomadDirectory::new();
    let identity = [0xEE; 16];
    dir.handle_announce(&make_announced(identity, Some(b"ByIdentity".to_vec())));
    assert!(dir.get_node_by_identity(&identity).is_some());
    assert_eq!(
        dir.get_node_by_identity(&identity)
            .unwrap()
            .node_name
            .as_deref(),
        Some("ByIdentity")
    );
}

#[test]
fn test_is_nomadnet_announce() {
    let identity = [0xFF; 16];
    let nn_dest = destination_hash("nomadnetwork", &["node"], Some(&identity));
    let lxmf_dest = destination_hash("lxmf", &["delivery"], Some(&identity));

    let nn_announce = Announce {
        dest_hash: nn_dest,
        identity_hash: identity,
        app_data: None,
        hops: 1,
        received_at_bits: 0.0f64.to_bits(),
    };
    assert!(is_nomadnet_announce(&nn_announce));

    let lxmf_announce = Announce {
        dest_hash: lxmf_dest,
        identity_hash: identity,
        app_data: None,
        hops: 1,
        received_at_bits: 0.0f64.to_bits(),
    };
    assert!(!is_nomadnet_announce(&lxmf_announce));
}

#[test]
fn test_associated_lxmf_dest_hash() {
    let identity = [0x42; 16];
    let expected = destination_hash("lxmf", &["delivery"], Some(&identity));
    assert_eq!(associated_lxmf_dest_hash(&identity), expected);
}

#[test]
fn eviction_keeps_the_earliest_seen() {
    let mut dir = NomadDirectory::new();
    for i in 0..=MAX_DIRECTORY_ENTRIES {
        let mut identity = [0u8; 16];
        identity[0..2].copy_from_slice(&(i as u16).to_le_bytes());
        let mut a = make_announced(identity, None);
        // entry 0 is the latest; all others are earlier, in decreasing time
        a.received_at_bits = (2000.0f64 - i as f64).to_bits();
        dir.handle_announce(&a);
    }
    assert_eq!(dir.len(), MAX_DIRECTORY_ENTRIES);
    let times: Vec<f64> = dir.known_nodes().iter().map(|e| f64::from_bits(e.last_seen_bits)).collect();
    assert_eq!(times[0], 2000.0 - MAX_DIRECTORY_ENTRIES as f64);
    for w in times.windows(2) {
        assert!(w[0] <= w[1]);
    }
    // the latest-seen node was dropped
    let mut first = [0u8; 16];
    first[0..2].copy_from_slice(&0u16.to_le_bytes());
    assert!(dir.get_node_by_identity(&first).is_none());
}

#[test]
fn invalid_utf8_name_is_dropped() {
    let mut dir = NomadDirectory::default();
    dir.handle_announce(&make_announced([0x10; 16], Some(vec![0xff, 0xfe])));
    assert_eq!(dir.len(), 1);
    assert!(dir.known_nodes()[0].node_name.is_none());
    assert!(!dir.is_empty());
}

#[test]
fn eviction_orders_times_as_numbers() {
    let mut times: Vec<f64> = vec![
        f64::INFINITY,
        -0.0,
        0.0,
        f64::NEG_INFINITY,
        -1e300,
        5e-324,
        -5e-324,
        0.0,
        -0.0,
    ];
    let mut k = 0.0f64;
    while times.len() <= MAX_DIRECTORY_ENTRIES {
        times.push(if (times.len() % 2) == 0 { k * 3.7 } else { -k * 1.25 });
        k += 1.0;
    }
    let mut dir = NomadDirectory::new();
    let mut expected: Vec<([u8; 16], u64)> = Vec::new();
    for (i, t) in times.iter().enumerate() {
        let mut identity = [0u8; 16];
        identity[0..2].copy_from_slice(&(i as u16).to_le_bytes());
        let mut a = make_announced(identity, None);
        a.received_at_bits = t.to_bits();
        expected.push((a.dest_hash, a.received_at_bits));
        dir.handle_announce(&a);
    }
    expected.sort_by(|a, b| f64::from_bits(a.1).partial_cmp(&f64::from_bits(b.1)).unwrap());
    expected.truncate(MAX_DIRECTORY_ENTRIES);
    let got: Vec<([u8; 16], u64)> = dir.known_nodes().iter().map(|e| (e.dest_hash, e.last_seen_bits)).collect();
    assert_eq!(got, expected);
}

#[test]
fn record_announce_refuses_ordering_a_nan_time() {
    let mut dir = NomadDirectory::new();
    for i in 0..MAX_DIRECTORY_ENTRIES {
        let mut identity = [0u8; 16];
        identity[0..2].copy_from_slice(&(i as u16).to_le_bytes());
        let mut a = make_announced(identity, None);
        a.received_at_bits = (i as f64).to_bits();
        assert!(dir.record_announce(&a));
    }
    let mut nan = make_announced([0xFE; 16], None);
    nan.received_at_bits = f64::NAN.to_bits();
    assert!(!dir.record_announce(&nan));
    assert_eq!(dir.len(), MAX_DIRECTORY_ENTRIES);
    assert!(dir.get_node(&nan.dest_hash).is_none());
    // a known node may take a NaN time: nothing is ordered
    let mut known = [0u8; 16];
    known[0..2].copy_from_slice(&3u16.to_le_bytes());
    let mut again = make_announced(known, None);
    again.received_at_bits = f64::NAN.to_bits();
    assert!(dir.record_announce(&again));
    // now a new node would order that NaN time
    let mut fresh = make_announced([0xFD; 16], None);
    fresh.received_at_bits = 1.0f64.to_bits();
    assert!(!dir.record_announce(&fresh));
    let mut other = NomadDirectory::new();
    assert!(other.record_announce(&nan));
    assert_eq!(other.len(), 1);
}
