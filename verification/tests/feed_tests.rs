use rssget::ext::file_name;
use rssget::extract::get_items;
use rssget::feed::{parse_feed, ParseError};
use rssget::select::ascending_plan;

fn feed_xml() -> String {
    let mut xml = String::new();
    xml.push_str("<?xml version=\"1.0\" encoding=\"UTF-8\"?>");
    xml.push_str("<rss version=\"2.0\"><channel><title>Demo</title>");
    xml.push_str(
        "<item><title>C</title>\
         <enclosure url=\"http://x/c.mp3?token=9\" length=\"3\" type=\"audio/mpeg\"/></item>",
    );
    xml.push_str(
        "<item><title>A</title>\
         <enclosure url=\"http://x/a.mp3\" length=\"1\" type=\"audio/mpeg\"/></item>",
    );
    xml.push_str(
        "<item><title>B</title>\
         <enclosure url=\"http://x/b.ogg\" length=\"2\" type=\"audio/ogg\"/></item>",
    );
    xml.push_str("<item><title>No enclosure here</title></item>");
    xml.push_str("</channel></rss>");
    xml
}

#[test]
fn parse_yields_channel_entries() {
    let xml = feed_xml();
    let entries = parse_feed(xml.as_bytes()).unwrap();
    assert_eq!(entries.len(), 4);
    assert_eq!(entries[0].title.as_deref(), Some("C"));
    assert_eq!(entries[0].url.as_deref(), Some("http://x/c.mp3?token=9"));
    assert_eq!(entries[3].title.as_deref(), Some("No enclosure here"));
    assert_eq!(entries[3].url, None);
}

#[test]
fn parse_rejects_bytes_that_are_not_rss() {
    assert!(matches!(parse_feed(b"not a feed at all"), Err(ParseError)));
    assert!(matches!(parse_feed(b"<html><body>hi</body></html>"), Err(ParseError)));
}

#[test]
fn pipeline_downloads_selected_items_in_ascending_order() {
    let xml = feed_xml();
    let entries = parse_feed(xml.as_bytes()).unwrap();
    let items = get_items(&entries);

    let titles: Vec<&str> = items.iter().map(|it| it.title.as_str()).collect();
    assert_eq!(titles, vec!["A", "B", "C"]);

    let selected = vec![0usize, 2usize];
    let plan = ascending_plan(&selected, items.len()).unwrap();
    assert_eq!(plan, vec![0usize, 2usize]);

    let mut fetched: Vec<(String, String)> = Vec::new();
    for idx in &plan {
        let item = &items[*idx];
        fetched.push((item.title.clone(), file_name(&item.title, &item.url)));
    }
    assert_eq!(
        fetched,
        vec![
            ("A".to_string(), "A.mp3".to_string()),
            ("C".to_string(), "C.mp3".to_string()),
        ]
    );
    assert!(fetched.iter().all(|(t, _)| t != "B"));
}
