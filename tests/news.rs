use newsfeed::codec::{decode_items, encode_items, StoreError};
use newsfeed::item::{
    content_digest, image_path_for, publish_date, resolve_publish_date, NewsItem, NormalizeError,
    RawEntry, Timestamp,
};
use newsfeed::pipeline::{
    gather_entries, image_jobs, normalize_all, pending_downloads, read_news, FetchError, ImageJob,
};
use newsfeed::store::{merge_items, newest_first, same_identity};

fn entry(title: Option<&str>, description: Option<&str>, date: Option<&str>) -> RawEntry {
    RawEntry {
        title: title.map(|s| s.to_string()),
        description: description.map(|s| s.to_string()),
        pub_date: date.map(|s| s.to_string()),
        dc_dates: Vec::new(),
        thumbnail_urls: Vec::new(),
    }
}

fn item(title: &str, raw: Option<&str>, secs: Option<i64>) -> NewsItem {
    let description = format!("about {}", title);
    NewsItem {
        title: Some(title.to_string()),
        digest: content_digest(title, &description),
        description: Some(description),
        raw_date: raw.map(|s| s.to_string()),
        publish_date: secs.map(|s| Timestamp { secs: s, nanos: 0, offset: 0 }),
        image_url: None,
        image_path: None,
    }
}

fn titles(items: &[NewsItem]) -> Vec<String> {
    items.iter().map(|i| i.title().unwrap_or("").to_string()).collect()
}

#[test]
fn rfc822_publish_date_parses() {
    let e = entry(Some("t"), Some("d"), Some("Tue, 02 Jan 2024 10:00:00 +0000"));
    assert_eq!(publish_date(&e), Some(Timestamp { secs: 1704189600, nanos: 0, offset: 0 }));
    let it = NewsItem::new(e, "/cache").unwrap();
    assert_eq!(it.pub_date(), Some(Timestamp { secs: 1704189600, nanos: 0, offset: 0 }));
}

#[test]
fn rfc822_offset_is_kept() {
    let e = entry(Some("t"), Some("d"), Some("Tue, 02 Jan 2024 12:00:00 +0200"));
    assert_eq!(publish_date(&e), Some(Timestamp { secs: 1704189600, nanos: 0, offset: 7200 }));
}

#[test]
fn dublin_core_date_is_the_fallback() {
    let mut e = entry(Some("t"), Some("d"), None);
    e.dc_dates = vec!["2023-05-01T08:00:00+00:00".to_string(), "garbage".to_string()];
    assert_eq!(publish_date(&e), Some(Timestamp { secs: 1682928000, nanos: 0, offset: 0 }));
}

#[test]
fn fractional_seconds_are_kept_and_ordered() {
    let mut e = entry(Some("late"), Some("d"), None);
    e.dc_dates = vec!["2023-05-01T08:00:00.750+00:00".to_string()];
    assert_eq!(publish_date(&e), Some(Timestamp { secs: 1682928000, nanos: 750_000_000, offset: 0 }));
    let mut f = entry(Some("early"), Some("d"), None);
    f.dc_dates = vec!["2023-05-01T08:00:00.250+00:00".to_string()];
    let items = normalize_all(vec![e, f], "/c");
    let store = merge_items(vec![], items);
    assert_eq!(titles(&store), vec!["early", "late"]);
    let back = decode_items(&encode_items(&store)).unwrap();
    assert_eq!(back[1].pub_date(), Some(Timestamp { secs: 1682928000, nanos: 750_000_000, offset: 0 }));
}

#[test]
fn unparseable_native_date_falls_back() {
    let mut e = entry(Some("t"), Some("d"), Some("yesterday"));
    e.dc_dates = vec!["2023-05-01T08:00:00+00:00".to_string()];
    assert_eq!(publish_date(&e), Some(Timestamp { secs: 1682928000, nanos: 0, offset: 0 }));
}

#[test]
fn no_date_gives_none() {
    let e = entry(Some("t"), Some("d"), None);
    assert_eq!(publish_date(&e), None);
    let mut bad = entry(Some("t"), Some("d"), Some("not a date"));
    bad.dc_dates = vec!["also not".to_string()];
    assert_eq!(publish_date(&bad), None);
}

#[test]
fn resolve_prefers_native_date() {
    let a = Some(Timestamp { secs: 1, nanos: 0, offset: 0 });
    let b = Some(Timestamp { secs: 2, nanos: 0, offset: 60 });
    assert_eq!(resolve_publish_date(a, b), a);
    assert_eq!(resolve_publish_date(None, b), b);
    assert_eq!(resolve_publish_date(None, None), None);
}

#[test]
fn image_path_strips_https() {
    assert_eq!(image_path_for("https://example.com/img/a.jpg", "/cache"), "/cache/example.com/img/a.jpg");
}

#[test]
fn image_path_strips_http_and_respects_trailing_slash() {
    assert_eq!(image_path_for("http://example.com/a.png", "/cache/"), "/cache/example.com/a.png");
    assert_eq!(image_path_for("ftp://x/y", "/c"), "/c/ftp://x/y");
    assert_eq!(image_path_for("https://x/y", ""), "x/y");
}

#[test]
fn image_path_strips_only_the_prefix() {
    assert_eq!(
        image_path_for("https://a.com/https://b.com/p.jpg", "/cache"),
        "/cache/a.com/https://b.com/p.jpg"
    );
}

#[test]
fn same_image_url_gives_same_path_and_one_job() {
    let mut a = entry(Some("a"), Some("x"), None);
    a.thumbnail_urls = vec![Some("https://example.com/img/a.jpg".to_string())];
    let mut b = entry(Some("b"), Some("y"), None);
    b.thumbnail_urls = vec![None, Some("https://other.com/z.jpg".to_string())];
    let mut c = entry(Some("c"), Some("z"), None);
    c.thumbnail_urls = vec![Some("https://example.com/img/a.jpg".to_string())];
    let items = normalize_all(vec![a, b, c], "/cache");
    assert_eq!(items.len(), 3);
    assert_eq!(items[0].image_path, items[2].image_path);
    assert_eq!(items[0].image_path.as_deref(), Some("/cache/example.com/img/a.jpg"));
    assert_eq!(items[1].image_url(), None);
    assert_eq!(items[1].image_path, None);
    let jobs = image_jobs(&items);
    assert_eq!(jobs.len(), 1);
    assert_eq!(jobs[0].url, "https://example.com/img/a.jpg");
    assert_eq!(jobs[0].path, "/cache/example.com/img/a.jpg");
}

#[test]
fn cached_images_are_not_downloaded_again() {
    let jobs = vec![
        ImageJob { url: "u1".to_string(), path: "/c/one".to_string() },
        ImageJob { url: "u2".to_string(), path: "/c/two".to_string() },
        ImageJob { url: "u3".to_string(), path: "/c/three".to_string() },
    ];
    let left = pending_downloads(jobs, &vec![true, false]);
    let urls: Vec<&str> = left.iter().map(|j| j.url.as_str()).collect();
    assert_eq!(urls, vec!["u2", "u3"]);
}

#[test]
fn digest_covers_title_then_description() {
    let d = content_digest("ab", "cd");
    assert_eq!(d, *blake3::hash(b"abcd").as_bytes());
    assert_ne!(content_digest("cd", "ab"), d);
    let it = NewsItem::new(entry(Some("ab"), Some("cd"), None), "/c").unwrap();
    assert_eq!(it.digest(), d);
}

#[test]
fn missing_content_is_rejected() {
    let r = NewsItem::new(entry(None, Some("d"), None), "/c");
    assert!(matches!(r, Err(NormalizeError::MissingContent)));
    let r = NewsItem::new(entry(Some("t"), None, None), "/c");
    assert!(matches!(r, Err(NormalizeError::MissingContent)));
    let kept = normalize_all(
        vec![entry(Some("t"), None, None), entry(Some("u"), Some("v"), None)],
        "/c",
    );
    assert_eq!(titles(&kept), vec!["u"]);
}

#[test]
fn accessors_report_fields() {
    let it = NewsItem::new(entry(Some("T"), Some("D"), None), "/c").unwrap();
    assert_eq!(it.title(), Some("T"));
    assert_eq!(it.description(), Some("D"));
    assert_eq!(it.pub_date(), None);
    assert_eq!(it.image_url(), None);
}

#[test]
fn identical_items_collapse_to_one() {
    let store = merge_items(
        vec![item("a", Some("d1"), Some(10))],
        vec![item("a", Some("d1"), Some(10)), item("a", Some("d1"), Some(10)), item("b", None, None)],
    );
    assert_eq!(titles(&store), vec!["b", "a"]);
    let again = merge_items(store, vec![item("a", Some("d1"), Some(10))]);
    assert_eq!(again.len(), 2);
}

#[test]
fn different_raw_date_is_a_different_item() {
    let store = merge_items(vec![], vec![item("a", Some("d1"), Some(10)), item("a", Some("d2"), Some(10))]);
    assert_eq!(store.len(), 2);
    assert!(!same_identity(&store[0], &store[1]));
}

#[test]
fn first_inserted_duplicate_wins() {
    let mut old = item("a", Some("d"), Some(5));
    old.image_path = Some("/old".to_string());
    let mut new = item("a", Some("d"), Some(5));
    new.image_path = Some("/new".to_string());
    new.image_url = Some("https://new".to_string());
    assert!(same_identity(&old, &new));
    let store = merge_items(vec![old], vec![new]);
    assert_eq!(store.len(), 1);
    assert_eq!(store[0].image_path.as_deref(), Some("/old"));
    assert_eq!(store[0].image_url, None);
    assert_eq!(store[0].digest(), content_digest("a", "about a"));
}

#[test]
fn merging_twice_is_idempotent() {
    let fresh = || vec![item("x", Some("1"), Some(3)), item("y", Some("2"), Some(1)), item("x", Some("1"), Some(3))];
    let once = merge_items(vec![item("z", None, Some(2))], fresh());
    let twice = merge_items(merge_items(vec![item("z", None, Some(2))], fresh()), fresh());
    assert_eq!(once.len(), 3);
    assert_eq!(titles(&once), titles(&twice));
}

#[test]
fn newest_first_order_with_undated_last() {
    let store = merge_items(
        vec![item("mid", None, Some(20)), item("none", None, None)],
        vec![item("new", None, Some(30)), item("old", None, Some(10))],
    );
    assert_eq!(titles(&store), vec!["none", "old", "mid", "new"]);
    let shown = newest_first(store);
    assert_eq!(titles(&shown), vec!["new", "mid", "old", "none"]);
}

#[test]
fn equal_dates_keep_insertion_order_in_store() {
    let store = merge_items(
        vec![item("first", None, Some(5))],
        vec![item("second", None, Some(5)), item("third", None, Some(5)), item("u1", None, None), item("u2", None, None)],
    );
    assert_eq!(titles(&store), vec!["u1", "u2", "first", "second", "third"]);
    assert_eq!(titles(&newest_first(store)), vec!["third", "second", "first", "u2", "u1"]);
}

#[test]
fn instants_order_regardless_of_offset() {
    let mut a = item("a", None, Some(100));
    a.publish_date = Some(Timestamp { secs: 100, nanos: 0, offset: 3600 });
    let b = item("b", None, Some(50));
    let store = merge_items(vec![a], vec![b]);
    assert_eq!(titles(&store), vec!["b", "a"]);
}

#[test]
fn failed_endpoint_contributes_nothing() {
    let feeds = vec![
        Ok(vec![entry(Some("a1"), Some("x"), None), entry(Some("a2"), Some("x"), None)]),
        Err(FetchError::Unreachable),
        Ok(vec![entry(Some("c1"), Some("x"), None)]),
    ];
    let (entries, failed) = gather_entries(feeds);
    let got: Vec<&str> = entries.iter().map(|e| e.title.as_deref().unwrap()).collect();
    assert_eq!(got, vec!["a1", "a2", "c1"]);
    assert_eq!(failed, vec![1]);
}

#[test]
fn cycle_merges_items_of_succeeding_endpoints() {
    let feeds = vec![
        Ok(vec![entry(Some("a"), Some("x"), Some("Tue, 02 Jan 2024 10:00:00 +0000"))]),
        Err(FetchError::Malformed),
        Ok(vec![entry(Some("c"), Some("y"), Some("Mon, 01 Jan 2024 10:00:00 +0000")), entry(None, Some("z"), None)]),
    ];
    let cycle = read_news(vec![item("old", None, Some(0))], feeds, "/cache");
    assert_eq!(titles(&cycle.store), vec!["old", "c", "a"]);
    assert_eq!(cycle.failed_feeds, vec![1]);
    assert!(cycle.downloads.is_empty());
    assert_eq!(titles(&newest_first(cycle.store)), vec!["a", "c", "old"]);
}

#[test]
fn cycle_twice_keeps_store_size() {
    let feeds = || vec![Ok(vec![entry(Some("a"), Some("x"), Some("Tue, 02 Jan 2024 10:00:00 +0000"))])];
    let first = read_news(vec![], feeds(), "/cache");
    let n = first.store.len();
    let second = read_news(first.store, feeds(), "/cache");
    assert_eq!(second.store.len(), n);
}

#[test]
fn store_round_trip_keeps_every_field() {
    let mut a = NewsItem::new(entry(Some("héllo ✓"), Some("d"), Some("Tue, 02 Jan 2024 12:00:00 +0200")), "/c").unwrap();
    a.image_url = Some("https://e.com/i.jpg".to_string());
    a.image_path = Some("/c/e.com/i.jpg".to_string());
    let mut b = item("b", None, None);
    b.publish_date = Some(Timestamp { secs: -5, nanos: 0, offset: -3600 });
    let items = vec![a, b];
    let bytes = encode_items(&items);
    let back = decode_items(&bytes).unwrap();
    assert_eq!(back.len(), 2);
    for (x, y) in items.iter().zip(back.iter()) {
        assert_eq!(x.title, y.title);
        assert_eq!(x.description, y.description);
        assert_eq!(x.raw_date, y.raw_date);
        assert_eq!(x.publish_date, y.publish_date);
        assert_eq!(x.image_url, y.image_url);
        assert_eq!(x.image_path, y.image_path);
        assert_eq!(x.digest, y.digest);
    }
}

#[test]
fn empty_store_round_trip() {
    let bytes = encode_items(&Vec::new());
    assert_eq!(bytes, vec![0u8; 8]);
    assert_eq!(decode_items(&bytes).unwrap().len(), 0);
}

#[test]
fn corrupt_store_is_an_error() {
    let items = vec![item("a", Some("r"), Some(1))];
    let bytes = encode_items(&items);
    let mut cut = bytes.clone();
    cut.pop();
    assert!(matches!(decode_items(&cut), Err(StoreError::Corrupt)));
    let mut extra = bytes.clone();
    extra.push(0);
    assert!(matches!(decode_items(&extra), Err(StoreError::Corrupt)));
    let mut bad_tag = bytes;
    bad_tag[8] = 7;
    assert!(matches!(decode_items(&bad_tag), Err(StoreError::Corrupt)));
    assert!(matches!(decode_items(&vec![1, 2, 3]), Err(StoreError::Corrupt)));
}

#[test]
fn store_with_wrong_digest_is_corrupt() {
    let items = vec![item("a", Some("r"), Some(1))];
    let mut bytes = encode_items(&items);
    assert!(decode_items(&bytes).is_ok());
    let last = bytes.len() - 1;
    bytes[last] ^= 1;
    assert!(matches!(decode_items(&bytes), Err(StoreError::Corrupt)));
}

#[test]
fn store_item_without_description_is_corrupt() {
    let mut a = item("a", None, None);
    a.description = None;
    let bytes = encode_items(&vec![a]);
    assert!(matches!(decode_items(&bytes), Err(StoreError::Corrupt)));
}
