use rss_alert::Timestamp;

#[test]
fn load_reads_trimmed_number() {
    assert_eq!(Timestamp::load("  1736780671\n").timestamp(), 1736780671);
    assert_eq!(Timestamp::load("-42").timestamp(), -42);
    assert_eq!(Timestamp::load("").timestamp(), 0);
    assert_eq!(Timestamp::load("abc").timestamp(), 0);
    assert_eq!(Timestamp::load("99999999999999999999").timestamp(), 0);
}

#[test]
fn update_only_moves_forward() {
    let mut t = Timestamp::load("100");
    assert_eq!(t.to_write(), None);
    t.update(50);
    assert_eq!(t.timestamp(), 100);
    assert_eq!(t.to_write(), None);
    t.update(150);
    assert_eq!(t.timestamp(), 150);
    assert_eq!(t.to_write(), Some("150".to_string()));
    assert_eq!(t.write(), Some("150".to_string()));
    assert_eq!(t.write(), None);
    assert_eq!(t.to_write(), None);
    assert_eq!(t.timestamp(), 150);
}

#[test]
fn saved_text_loads_back() {
    for v in [i64::MIN, -1, 0, 7, 1736780671, i64::MAX] {
        let mut t = Timestamp::load("");
        t.update(v);
        let text = match t.to_write() {
            Some(s) => s,
            None => "0".to_string(),
        };
        assert_eq!(Timestamp::load(&text).timestamp(), v.max(0));
    }
}

#[test]
fn updates_in_either_order_agree() {
    let mut a = Timestamp::load("10");
    a.update(30);
    a.update(20);
    let mut b = Timestamp::load("10");
    b.update(20);
    b.update(30);
    assert_eq!(a.timestamp(), 30);
    assert_eq!(b.timestamp(), 30);
    assert_eq!(a.to_write(), b.to_write());
}
