use rss_alert::feeds::parse_feeds_var;
use rss_alert::item::parse_items;
use rss_alert::notify::{announce_line, cycle_overdue, fetch_error_message, select_new, Seen};
use rss_alert::{Feed, Timestamp, Toastable};

fn feed_xml(dates: &[i64]) -> String {
    let mut s = String::from("<feed>");
    for d in dates {
        let t = chrono::DateTime::from_timestamp(*d, 0).unwrap().to_rfc3339();
        s.push_str(&format!("<entry><title>t{d}</title><link href=\"l{d}\"/><updated>{t}</updated></entry>"));
    }
    s.push_str("</feed>");
    s
}

#[test]
fn only_new_items_are_selected() {
    let items = parse_items(&feed_xml(&[100, 300, 200, 50])).unwrap();
    // newest first: 50, 200, 300, 100
    let mut seen = Seen::new();
    let mut cutoff = Timestamp::load("100");
    let picked = select_new(&items, &mut seen, &mut cutoff);
    assert_eq!(picked, vec![1, 2]);
    assert_eq!(cutoff.timestamp(), 300);
    let again = select_new(&items, &mut seen, &mut cutoff);
    assert!(again.is_empty());
}

#[test]
fn seen_items_are_not_selected_twice() {
    let items = parse_items(&feed_xml(&[500, 500])).unwrap();
    let mut seen = Seen::new();
    let mut cutoff = Timestamp::load("1");
    assert_eq!(select_new(&items, &mut seen, &mut cutoff), vec![0]);
}

#[test]
fn first_run_announces_nothing() {
    let items = parse_items(&feed_xml(&[100, 300, 200])).unwrap();
    let mut seen = Seen::new();
    let mut cutoff = Timestamp::load("");
    assert!(select_new(&items, &mut seen, &mut cutoff).is_empty());
    assert_eq!(cutoff.timestamp(), 300);
    assert!(seen.contains_key((true, 100)));
    assert!(select_new(&items, &mut seen, &mut cutoff).is_empty());
}

#[test]
fn seen_set_insert_and_retain() {
    let items = parse_items(&feed_xml(&[10, 20])).unwrap();
    let mut seen = Seen::new();
    assert!(seen.insert(&items[0]));
    assert!(!seen.insert(&items[0]));
    assert!(seen.insert(&items[1]));
    seen.retain_newer(15);
    assert!(seen.contains_key((true, 20)));
    assert!(!seen.contains_key((true, 10)));
}

#[test]
fn announcement_line() {
    let items = parse_items(&feed_xml(&[5 * 3600 + 7 * 60 + 9])).unwrap();
    let plain = Feed { url: "u".to_string(), options: Vec::new() };
    assert_eq!(announce_line(&plain, &items[0]).unwrap(), "05:07 | l18429 | t18429\n");
    let coloured = parse_feeds_var("[foreground=9] u").remove(0);
    assert_eq!(
        announce_line(&coloured, &items[0]).unwrap(),
        "\x1b[38;5;9m05:07 | l18429 | t18429\n\x1b[m"
    );
}

#[test]
fn announcement_of_times_around_the_epoch() {
    let items = parse_items("<rss><item><title>x</title></item></rss>").unwrap();
    let plain = Feed { url: "u".to_string(), options: Vec::new() };
    assert_eq!(announce_line(&plain, &items[0]).unwrap(), "00:00 |  | x\n");
    let before = parse_items(&feed_xml(&[-60])).unwrap();
    assert_eq!(announce_line(&plain, &before[0]).unwrap(), "23:59 | l-60 | t-60\n");
}

#[test]
fn fetch_error_messages() {
    assert_eq!(
        fetch_error_message("http://x", "error sending request for url (http://x%2Fa)").unwrap(),
        "\x1b[31merror sending request for url (http://x/a)\x1b[0m\n"
    );
    assert_eq!(
        fetch_error_message("http://y", "bad%20thing").unwrap(),
        "http://y\x1b[31m -< bad thing\x1b[0m\n"
    );
    assert_eq!(fetch_error_message("u", "%FF"), None);
    assert_eq!(
        fetch_error_message("u", "100%+%4g%").unwrap(),
        "u\x1b[31m -< 100%+%4g%\x1b[0m\n"
    );
}

#[test]
fn feed_urls_are_decoded() {
    let f = parse_feeds_var("[no_toast=true] https://a/?q=%E3%81%82+b").remove(0);
    let d = f.decoded().unwrap();
    assert_eq!(d.url, "https://a/?q=あ+b");
    assert!(d.no_toast());
    let bad = Feed { url: "%C3".to_string(), options: Vec::new() };
    assert!(bad.decoded().is_none());
}

#[test]
fn cycles_late_by_more_than_three_intervals_are_overdue() {
    assert!(!cycle_overdue(30, 0, 10));
    assert!(cycle_overdue(30, 1, 10));
    assert!(cycle_overdue(31, 0, 10));
    assert!(!cycle_overdue(-5, 0, 0));
    assert!(cycle_overdue(0, 1, 0));
}
