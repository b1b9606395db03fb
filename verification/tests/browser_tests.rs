use nomadnet::browser::{file_request_data, parse_url_fields, NomadBrowser};
use nomadnet::types::BrowseEvent;

#[test]
fn response_consumes_oldest_pending_path() {
    let mut browser = NomadBrowser::new();
    let link_id = [0x11; 16];
    let dest_hash = [0x22; 16];
    browser.handle_link_established(link_id, dest_hash);
    browser.queue_request(link_id, "/page/first.mu", &[]);
    browser.queue_request(link_id, "/page/second.mu", &[]);

    let page_event = browser.handle_response(link_id, [0u8; 16], b"ok".to_vec());
    match page_event.expect("expected page event") {
        BrowseEvent::PageReceived { path, .. } => assert_eq!(path, "/page/first.mu"),
        _ => panic!("expected page-received event"),
    }

    let queue = browser.pending_requests(&link_id).expect("queue should still exist");
    assert_eq!(queue.len(), 1);
    assert_eq!(queue[0].path, "/page/second.mu");
}

#[test]
fn link_close_clears_pending_requests() {
    let mut browser = NomadBrowser::new();
    let link_id = [0x33; 16];
    let dest_hash = [0x44; 16];
    browser.handle_link_established(link_id, dest_hash);
    browser.queue_request(link_id, "/page/index.mu", &[]);

    let close_event = browser.handle_link_closed(link_id, Some("test".to_string()));

    assert!(browser.pending_requests(&link_id).is_none());
    assert!(browser.dest_for(&link_id).is_none());
    assert!(browser.link_for(&dest_hash).is_none());

    match close_event.expect("expected link-closed event") {
        BrowseEvent::LinkClosed { dest_hash: got_dest, .. } => assert_eq!(got_dest, dest_hash),
        _ => panic!("expected link-closed event"),
    }
}

#[test]
fn has_active_link_reflects_state() {
    let mut browser = NomadBrowser::new();
    let dest_hash = [0xaa; 16];
    let link_id = [0xbb; 16];
    assert!(browser.link_for(&dest_hash).is_none());
    browser.handle_link_established(link_id, dest_hash);
    assert!(browser.link_for(&dest_hash).is_some());
}

#[test]
fn handle_link_established_records_mapping() {
    let mut browser = NomadBrowser::new();
    let link_id = [0x11; 16];
    let dest_hash = [0x22; 16];
    browser.handle_link_established(link_id, dest_hash);
    assert!(browser.link_for(&dest_hash).is_some());
    assert_eq!(browser.dest_for(&link_id), Some(dest_hash));
}

#[test]
fn handle_response_ignores_unknown_link() {
    let mut browser = NomadBrowser::new();
    let event = browser.handle_response([0xff; 16], [0u8; 16], vec![1, 2, 3]);
    assert!(event.is_none());
    assert!(browser.pending_requests(&[0xff; 16]).is_none());
}

#[test]
fn parse_url_fields_no_fields() {
    let result = parse_url_fields("abc123:/page/index.mu");
    assert_eq!(result.url, "abc123:/page/index.mu");
    assert!(result.fields.is_empty());
}

#[test]
fn parse_url_fields_with_key_values() {
    let result = parse_url_fields("abc123:/page/index.mu`name=Alice|age=30");
    assert_eq!(result.url, "abc123:/page/index.mu");
    assert_eq!(
        result.fields,
        vec![
            ("var_name".into(), "Alice".into()),
            ("var_age".into(), "30".into()),
        ]
    );
}

#[test]
fn parse_url_fields_ignores_entries_without_equals() {
    let result = parse_url_fields("abc123:/page/index.mu`invalid|name=Bob");
    assert_eq!(result.url, "abc123:/page/index.mu");
    assert_eq!(result.fields, vec![("var_name".into(), "Bob".into())]);
}

#[test]
fn file_path_emits_file_received() {
    let mut browser = NomadBrowser::new();
    let link_id = [0x11; 16];
    let dest_hash = [0x22; 16];
    browser.handle_link_established(link_id, dest_hash);
    browser.queue_request(link_id, "/file/readme.txt", &[]);

    let event = browser.handle_response(link_id, [0u8; 16], b"file content".to_vec());
    match event.expect("expected event") {
        BrowseEvent::FileReceived { path, content, .. } => {
            assert_eq!(path, "/file/readme.txt");
            assert_eq!(content, b"file content");
        }
        _ => panic!("expected FileReceived event"),
    }
}

#[test]
fn page_path_emits_page_received() {
    let mut browser = NomadBrowser::new();
    let link_id = [0x11; 16];
    let dest_hash = [0x22; 16];
    browser.handle_link_established(link_id, dest_hash);
    browser.queue_request(link_id, "/page/index.mu", &[]);

    let event = browser.handle_response(link_id, [0u8; 16], b"page content".to_vec());
    match event.expect("expected event") {
        BrowseEvent::PageReceived { path, .. } => {
            assert_eq!(path, "/page/index.mu");
        }
        _ => panic!("expected PageReceived event"),
    }
}

#[test]
fn established_link_hands_back_queued_requests() {
    let mut browser = NomadBrowser::default();
    let link_id = [0x01; 16];
    browser.queue_request(link_id, "/page/a.mu", b"x");
    let (event, queued) = browser.handle_link_established(link_id, [0x02; 16]);
    match event {
        BrowseEvent::LinkEstablished { dest_hash, link_id: l } => {
            assert_eq!(dest_hash, [0x02; 16]);
            assert_eq!(l, link_id);
        }
        _ => panic!("expected LinkEstablished"),
    }
    assert_eq!(queued.len(), 1);
    assert_eq!(queued[0].path, "/page/a.mu");
    assert_eq!(queued[0].data, b"x".to_vec());
    // still queued until answered
    assert_eq!(browser.pending_requests(&link_id).unwrap().len(), 1);
}

#[test]
fn route_request_uses_existing_link() {
    let mut browser = NomadBrowser::new();
    assert_eq!(browser.route_request([0x02; 16], "/page/a.mu", b""), None);
    assert!(browser.pending_requests(&[0x01; 16]).is_none());
    browser.handle_link_established([0x01; 16], [0x02; 16]);
    assert_eq!(browser.route_request([0x02; 16], "/page/a.mu", b"d"), Some([0x01; 16]));
    let q = browser.pending_requests(&[0x01; 16]).unwrap();
    assert_eq!(q.len(), 1);
    assert_eq!(q[0].data, b"d".to_vec());
}

#[test]
fn last_response_removes_the_queue() {
    let mut browser = NomadBrowser::new();
    browser.handle_link_established([0x01; 16], [0x02; 16]);
    browser.queue_request([0x01; 16], "/page/a.mu", b"");
    assert!(browser.handle_response([0x01; 16], [0; 16], vec![]).is_some());
    assert!(browser.pending_requests(&[0x01; 16]).is_none());
    assert!(browser.handle_response([0x01; 16], [0; 16], vec![]).is_none());
}

#[test]
fn closing_unknown_link_emits_nothing() {
    let mut browser = NomadBrowser::new();
    assert!(browser.handle_link_closed([0x09; 16], None).is_none());
}

#[test]
fn file_request_data_from_fields() {
    assert_eq!(
        file_request_data("abc:/file/x`a=1|b=2", None),
        b"var_a=1\0var_b=2".to_vec()
    );
    assert_eq!(file_request_data("abc:/file/x", None), Vec::<u8>::new());
    assert_eq!(file_request_data("abc:/file/x`a=1", Some(b"raw")), b"raw".to_vec());
}

#[test]
fn parse_url_fields_value_may_hold_equals() {
    let result = parse_url_fields("u`k=a=b|=v|");
    assert_eq!(result.url, "u");
    assert_eq!(
        result.fields,
        vec![("var_k".into(), "a=b".into()), ("var_".into(), "v".into())]
    );
}

#[test]
fn link_creation_queues_or_reports_failure() {
    let mut browser = NomadBrowser::new();
    let dest = [0x44; 16];
    let link = [0x55; 16];
    assert!(browser.route_request(dest, "/page/a.mu", b"").is_none());
    assert!(browser.handle_link_creation(dest, Ok(link), "/page/a.mu", b"x").is_none());
    let queued = browser.pending_requests(&link).unwrap();
    assert_eq!(queued.len(), 1);
    assert_eq!(queued[0].path, "/page/a.mu");
    assert_eq!(queued[0].data, b"x".to_vec());
    match browser.handle_link_creation(dest, Err("no path".to_string()), "/page/b.mu", b"") {
        Some(BrowseEvent::LinkFailed { dest_hash, error }) => {
            assert_eq!(dest_hash, dest);
            assert_eq!(error, "no path");
        }
        _ => panic!("expected a link failure"),
    }
    assert_eq!(browser.pending_requests(&link).unwrap().len(), 1);
}

#[test]
fn queued_requests_without_a_node_are_not_sent() {
    let req = nomadnet::browser::PendingRequest { path: "/page/a.mu".to_string(), data: Vec::new() };
    let mut log = nomadnet::browser::SentRequests::new();
    assert!(nomadnet::browser::send_queued(None, &mut log, [1; 16], &[req]).is_ok());
    assert!(nomadnet::browser::send_queued(None, &mut log, [1; 16], &[]).is_ok());
}
