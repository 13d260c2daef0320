use rssget::extract::{get_items, rejected_count};
use rssget::feed::RawEntry;
use rssget::order::str_leq;

fn entry(title: Option<&str>, url: Option<&str>) -> RawEntry {
    RawEntry {
        title: title.map(|t| t.to_string()),
        url: url.map(|u| u.to_string()),
    }
}

#[test]
fn keeps_only_complete_entries() {
    let entries = vec![
        entry(Some("A"), None),
        entry(None, Some("http://x/a.mp3")),
        entry(Some("B"), Some("http://x/b.mp3")),
        entry(None, None),
    ];
    let items = get_items(&entries);
    assert_eq!(items.len(), 1);
    assert_eq!(items[0].title, "B");
    assert_eq!(items[0].url, "http://x/b.mp3");
    assert_eq!(rejected_count(&entries), 3);
}

#[test]
fn rejected_count_is_zero_for_complete_entries() {
    let entries = vec![
        entry(Some("A"), Some("http://x/a.mp3")),
        entry(Some("B"), Some("http://x/b.mp3")),
    ];
    assert_eq!(rejected_count(&entries), 0);
}

#[test]
fn sorts_items_by_title() {
    let entries = vec![
        entry(Some("C"), Some("http://x/c.mp3")),
        entry(Some("A"), Some("http://x/a.mp3")),
        entry(Some("B"), Some("http://x/b.mp3")),
    ];
    let items = get_items(&entries);
    let titles: Vec<&str> = items.iter().map(|it| it.title.as_str()).collect();
    assert_eq!(titles, vec!["A", "B", "C"]);
}

#[test]
fn duplicate_titles_keep_input_order() {
    let entries = vec![
        entry(Some("B"), Some("http://x/b.mp3")),
        entry(Some("A"), Some("http://x/first.mp3")),
        entry(Some("A"), Some("http://x/second.mp3")),
        entry(Some("A"), Some("http://x/third.mp3")),
    ];
    let items = get_items(&entries);
    let urls: Vec<&str> = items.iter().map(|it| it.url.as_str()).collect();
    assert_eq!(
        urls,
        vec!["http://x/first.mp3", "http://x/second.mp3", "http://x/third.mp3", "http://x/b.mp3"]
    );
}

#[test]
fn empty_channel_yields_no_items() {
    let items = get_items(&Vec::new());
    assert!(items.is_empty());
}

#[test]
fn title_order_is_lexicographic_by_code_point() {
    assert!(str_leq("A", "B"));
    assert!(!str_leq("B", "A"));
    assert!(str_leq("A", "A"));
    assert!(str_leq("", "A"));
    assert!(str_leq("Ab", "B"));
    assert!(str_leq("A", "Ab"));
    assert!(str_leq("Z", "a"));
}

#[test]
fn clone_keeps_fields() {
    let entries = vec![entry(Some("A"), Some("http://x/a.mp3"))];
    let items = get_items(&entries);
    let copy = items[0].clone();
    assert_eq!(copy.title, "A");
    assert_eq!(copy.url, "http://x/a.mp3");
}
