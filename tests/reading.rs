use newsfeed::item::{content_digest, NewsItem};
use newsfeed::reading::{Entry, Filter, State};

fn entry(title: &str, read: bool) -> Entry {
    Entry {
        item: NewsItem {
            title: Some(title.to_string()),
            description: Some("d".to_string()),
            raw_date: None,
            publish_date: None,
            image_url: None,
            image_path: None,
            digest: content_digest(title, "d"),
        },
        read,
    }
}

#[test]
fn filters_select_by_read_flag() {
    let r = entry("r", true);
    let u = entry("u", false);
    assert!(Filter::All.fit(&r) && Filter::All.fit(&u));
    assert!(Filter::Read.fit(&r) && !Filter::Read.fit(&u));
    assert!(!Filter::Unread.fit(&r) && Filter::Unread.fit(&u));
}

#[test]
fn counts_and_marking_read() {
    let mut s = State { entries: vec![entry("a", false), entry("b", true), entry("c", false)], filter: Filter::All };
    assert_eq!(s.total(), 3);
    assert_eq!(s.total_read(), 1);
    assert_eq!(s.total_unread(), 2);
    s.read(0);
    assert!(s.entries[0].read);
    assert_eq!(s.entries[0].item.title(), Some("a"));
    assert_eq!(s.total_read(), 2);
    assert_eq!(s.total_unread(), 1);
    assert!(!s.entries[2].read);
}

#[test]
fn all_read_needs_a_shown_entry() {
    let mut s = State { entries: vec![], filter: Filter::All };
    assert!(!s.is_all_read());
    s.entries = vec![entry("a", true), entry("b", false)];
    assert!(!s.is_all_read());
    s.filter = Filter::Read;
    assert!(s.is_all_read());
    s.filter = Filter::Unread;
    assert!(!s.is_all_read());
    s.read(1);
    assert!(!s.is_all_read());
    s.filter = Filter::All;
    assert!(s.is_all_read());
}
