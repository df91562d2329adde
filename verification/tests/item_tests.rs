use rss_alert::item::{parse_items, Tag};
use rss_alert::{Element, Error, Toastable};

const RSS: &str = r#"<?xml version="1.0"?>
<rss version="2.0"><channel>
<title>chan</title>
<item><title>first</title><guid>https://a/1</guid><pubDate>Mon, 13 Jan 2025 15:04:31 -0000</pubDate><size>10MB</size><size>x</size></item>
<item><title>second</title><link>ignored</link><guid>https://a/2</guid><pubDate>not a date</pubDate></item>
</channel></rss>"#;

const ATOM: &str = r#"<feed>
<entry><title>e1</title><link href="https://b/1"/><updated>2025-01-13T00:00:00+09:00</updated></entry>
<entry><title>e2</title><link>https://b/2</link><updated>bad</updated></entry>
</feed>"#;

#[test]
fn rss_items_newest_first() {
    let items = parse_items(RSS).unwrap();
    assert_eq!(items.len(), 2);
    assert_eq!(items[0].title(), "second");
    assert_eq!(items[0].link(), "https://a/2");
    assert_eq!(items[0].timestamp(), 0);
    assert_eq!(items[0].extra(), None);
    assert_eq!(items[1].title(), "first");
    assert_eq!(items[1].link(), "https://a/1");
    assert_eq!(items[1].timestamp(), 1736780671);
    assert_eq!(items[1].extra(), Some(" | 10MB | x"));
    assert!(matches!(items[1], Element::Item(_)));
}

#[test]
fn atom_entries_take_href_or_text() {
    let items = parse_items(ATOM).unwrap();
    assert_eq!(items.len(), 2);
    assert_eq!(items[1].title(), "e1");
    assert_eq!(items[1].link(), "https://b/1");
    assert_eq!(items[1].timestamp(), 1736694000);
    assert_eq!(items[0].link(), "https://b/2");
    assert_eq!(items[0].timestamp(), 0);
    assert!(matches!(items[0], Element::Entry(_)));
}

#[test]
fn invalid_xml_is_an_error() {
    match parse_items("<rss><item></rss>") {
        Err(Error::Generic(m)) => assert!(m.starts_with("parsed body is not a valid XML string: ")),
        Ok(_) => panic!("expected an error"),
    }
}

#[test]
fn document_without_items_gives_nothing() {
    assert_eq!(parse_items("<a><b/></a>").unwrap().len(), 0);
}

#[test]
fn tags_read_by_name() {
    assert_eq!(Tag::parse("pubDate"), Some(Tag::Date));
    assert_eq!(Tag::parse("updated"), Some(Tag::Updated));
    assert_eq!(Tag::parse("size"), Some(Tag::Extra));
    assert_eq!(Tag::parse("guid"), Some(Tag::Guid));
    assert_eq!(Tag::parse("Title"), None);
}

#[test]
fn elements_alike_by_kind_and_time() {
    let a = parse_items(RSS).unwrap();
    let b = parse_items(RSS).unwrap();
    let c = parse_items(ATOM).unwrap();
    assert!(a[0].same(&b[0]));
    assert!(!a[0].same(&a[1]));
    assert!(!a[0].same(&c[0]));
}
