use nomadnet::node::{announce_step, AnnounceAction, AnnounceEvent, ANNOUNCE_START_DELAY_SECS};
use nomadnet::node::{
    base_path_from_paginated, build_404_page, build_paginated_page, paginate_path,
    split_into_chunks, FileCache, FileEntry, PageCache, CHUNK_TARGET_BYTES, MAX_RESPONSE_BYTES,
};

#[test]
fn test_paginate_path_base() {
    assert_eq!(paginate_path("/page/foo.mu", 1), "/page/foo.mu");
}

#[test]
fn test_paginate_path_subpages() {
    assert_eq!(paginate_path("/page/foo.mu", 2), "/page/foo/2.mu");
    assert_eq!(paginate_path("/page/foo.mu", 5), "/page/foo/5.mu");
    assert_eq!(paginate_path("/page/bar baz.mu", 3), "/page/bar baz/3.mu");
}

#[test]
fn test_base_path_from_paginated() {
    assert_eq!(
        base_path_from_paginated("/page/foo/2.mu"),
        ("/page/foo.mu".to_string(), Some(2))
    );
    assert_eq!(
        base_path_from_paginated("/page/foo/10.mu"),
        ("/page/foo.mu".to_string(), Some(10))
    );
    assert_eq!(
        base_path_from_paginated("/page/foo.mu"),
        ("/page/foo.mu".to_string(), None)
    );
    assert_eq!(
        base_path_from_paginated("/page/foo/1.mu"),
        ("/page/foo/1.mu".to_string(), None)
    );
}

#[test]
fn test_split_into_chunks_small() {
    let content = "line1\nline2";
    let chunks = split_into_chunks(content, 280);
    assert_eq!(chunks.len(), 1);
    assert_eq!(chunks[0], "line1\nline2");
}

#[test]
fn test_split_into_chunks_splits_at_line_boundary() {
    let mut content = String::new();
    for i in 0..20 {
        content.push_str(&format!("line {i:04} \u{2014} some content here\n"));
    }
    let chunks = split_into_chunks(&content, 100);
    assert!(chunks.len() > 1, "expected multiple chunks");
    for chunk in &chunks {
        assert!(chunk.len() <= 150, "chunk too large: {} bytes", chunk.len());
    }
    let reassembled: String = chunks.join("\n");
    for i in 0..20 {
        assert!(
            reassembled.contains(&format!("line {i:04}")),
            "missing line {i}"
        );
    }
}

#[test]
fn test_build_paginated_page_single() {
    let page = build_paginated_page("Hello", 1, 1, "/page/test.mu", "abcd1234");
    let text = String::from_utf8_lossy(&page);
    assert!(text.contains("Hello"));
    assert!(!text.contains("Previous"), "no prev link on single page");
    assert!(!text.contains("Next"), "no next link on single page");
}

#[test]
fn test_build_paginated_page_first_of_many() {
    let page = build_paginated_page("content", 1, 3, "/page/big.mu", "abcd1234");
    let text = String::from_utf8_lossy(&page);
    assert!(text.contains("content"));
    assert!(!text.contains("Previous"), "no prev on first page");
    assert!(text.contains("Next page >>"));
    assert!(text.contains("Page 1 of 3"));
}

#[test]
fn test_build_paginated_page_middle() {
    let page = build_paginated_page("content", 2, 3, "/page/big.mu", "abcd1234");
    let text = String::from_utf8_lossy(&page);
    assert!(text.contains("<< Previous page"));
    assert!(text.contains("Next page >>"));
    assert!(text.contains("Page 2 of 3"));
}

#[test]
fn test_build_paginated_page_last() {
    let page = build_paginated_page("content", 3, 3, "/page/big.mu", "abcd1234");
    let text = String::from_utf8_lossy(&page);
    assert!(text.contains("<< Previous page"));
    assert!(!text.contains("Next"), "no next on last page");
    assert!(text.contains("Page 3 of 3"));
}

#[test]
fn test_paginated_pages_within_max_response() {
    let mut big_content = String::new();
    for i in 0..50 {
        big_content.push_str(&format!(
            "This is line number {i} with some padding text.\n"
        ));
    }
    let chunks = split_into_chunks(&big_content, CHUNK_TARGET_BYTES);
    for (idx, chunk) in chunks.iter().enumerate() {
        let page =
            build_paginated_page(chunk, idx + 1, chunks.len(), "/page/big.mu", "abcd1234");
        assert!(
            page.len() <= MAX_RESPONSE_BYTES,
            "page {} is {} bytes, exceeds max {}",
            idx + 1,
            page.len(),
            MAX_RESPONSE_BYTES
        );
    }
}

#[test]
fn paginated_page_exact_markup() {
    let page = build_paginated_page("body", 2, 3, "/page/big.mu", "ab");
    assert_eq!(
        String::from_utf8(page).unwrap(),
        "#!c=0\nbody\n\n-\n\n`[<< Previous page`ab:/page/big.mu]  Page 2 of 3\n`[Next page >>`ab:/page/big/3.mu]"
    );
}

#[test]
fn not_found_page_names_the_path() {
    let page = build_404_page("/page/x`y.mu", "ab");
    assert_eq!(
        String::from_utf8(page).unwrap(),
        "#!c=0\n> 404 \u{2014} Page Not Found\n-\nThe page `/page/x``y.mu` does not exist on this node.\n\n`[Back to index`ab:/page/index.mu]"
    );
}

#[test]
fn paginate_path_without_mu_suffix() {
    assert_eq!(paginate_path("/page/foo", 4), "/page/foo/4.mu");
    assert_eq!(paginate_path("/page/foo.mu", 0), "/page/foo.mu");
}

#[test]
fn base_path_bounds_and_bad_numbers() {
    assert_eq!(
        base_path_from_paginated("/page/foo/200.mu"),
        ("/page/foo.mu".to_string(), Some(200))
    );
    assert_eq!(
        base_path_from_paginated("/page/foo/201.mu"),
        ("/page/foo/201.mu".to_string(), None)
    );
    assert_eq!(
        base_path_from_paginated("/page/foo/+3.mu"),
        ("/page/foo.mu".to_string(), Some(3))
    );
    assert_eq!(
        base_path_from_paginated("/page/foo/x3.mu"),
        ("/page/foo/x3.mu".to_string(), None)
    );
    assert_eq!(
        base_path_from_paginated("/page/foo/99999999999999999999999.mu"),
        ("/page/foo/99999999999999999999999.mu".to_string(), None)
    );
    assert_eq!(base_path_from_paginated("nopath"), ("nopath".to_string(), None));
}

#[test]
fn split_into_chunks_edge_cases() {
    assert_eq!(split_into_chunks("", 10), vec![String::new()]);
    assert_eq!(split_into_chunks("\n\n", 10), vec![String::new()]);
    assert_eq!(split_into_chunks("a\r\nb\r", 100), vec!["a\nb\r".to_string()]);
    let long = "x".repeat(30);
    let content = format!("ab\n{long}\ncd");
    assert_eq!(
        split_into_chunks(&content, 10),
        vec!["ab".to_string(), long.clone(), "cd".to_string()]
    );
}

#[test]
fn page_cache_reads_back_writes() {
    let mut cache = PageCache::new();
    assert_eq!(cache.get("/page/a.mu"), None);
    cache.set("/page/a.mu", b"one".to_vec());
    cache.set("/page/b.mu", b"two".to_vec());
    cache.set("/page/a.mu", b"three".to_vec());
    assert_eq!(cache.get("/page/a.mu"), Some(b"three".to_vec()));
    assert_eq!(cache.get("/page/b.mu"), Some(b"two".to_vec()));
    let mut paths = cache.paths();
    paths.sort();
    assert_eq!(paths, vec!["/page/a.mu".to_string(), "/page/b.mu".to_string()]);
    cache.remove("/page/a.mu");
    assert_eq!(cache.get("/page/a.mu"), None);
    assert_eq!(cache.paths(), vec!["/page/b.mu".to_string()]);
}

#[test]
fn file_cache_reads_back_writes() {
    let mut cache = FileCache::default();
    cache.set(
        "/file/r.txt",
        FileEntry { content: b"data".to_vec(), name: "r.txt".to_string() },
    );
    let e = cache.get("/file/r.txt").unwrap();
    assert_eq!(e.content, b"data".to_vec());
    assert_eq!(e.name, "r.txt");
    assert_eq!(cache.paths(), vec!["/file/r.txt".to_string()]);
    cache.remove("/file/r.txt");
    assert!(cache.get("/file/r.txt").is_none());
}

#[test]
fn announcer_announces_until_cancelled() {
    assert_eq!(ANNOUNCE_START_DELAY_SECS, 2);
    assert_eq!(
        announce_step(600, AnnounceEvent::WaitOver),
        AnnounceAction::Announce { then_wait_secs: 600 }
    );
    assert_eq!(announce_step(600, AnnounceEvent::Cancelled), AnnounceAction::Stop);
}

#[test]
fn chunking_closes_a_chunk_only_when_the_next_line_does_not_fit() {
    let content = "alpha\nbe\ngamma delta\nep\nzeta eta theta\ni\nkappa";
    let target = 12;
    let chunks = split_into_chunks(content, target);
    assert!(chunks.len() > 2);
    for w in chunks.windows(2) {
        let next_first = w[1].split('\n').next().unwrap();
        assert!(w[0].len() + next_first.len() + 1 > target);
    }
    assert_eq!(chunks.join("\n"), content);
}
