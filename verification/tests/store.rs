use cacheclip::history::{History, RestoreError, Timestamp};

fn ts(hour: u8, minute: u8, second: u8) -> Timestamp {
    Timestamp {
        year: 2024,
        month: 5,
        day: 6,
        hour,
        minute,
        second,
        off_neg: false,
        off_hour: 2,
        off_min: 0,
    }
}

#[test]
fn empty_history_has_no_items() {
    let h = History::new();
    assert_eq!(h.items.len(), 0);
    assert!(h.get_item(0).is_none());
}

#[test]
fn add_keeps_history_within_bound() {
    let mut h = History::new();
    for i in 0..150 {
        h.add_item_at(format!("item number {}", i), ts(1, 2, 3));
        assert!(h.items.len() <= 100);
    }
    assert_eq!(h.items.len(), 100);
    assert_eq!(h.items[0].content, "item number 149");
    assert_eq!(h.items[99].content, "item number 50");
}

#[test]
fn blank_content_is_never_stored() {
    let mut h = History::new();
    h.add_item_at(String::from(""), ts(1, 2, 3));
    h.add_item_at(String::from("   "), ts(1, 2, 4));
    h.add_item_at(String::from("\t\n \r"), ts(1, 2, 5));
    assert_eq!(h.items.len(), 0);
    h.add_item_at(String::from("real"), ts(1, 2, 6));
    h.add_item_at(String::from(" \u{a0} "), ts(1, 2, 7));
    assert_eq!(h.items.len(), 1);
    assert_eq!(h.items[0].content, "real");
}

#[test]
fn adding_twice_stores_once_at_head() {
    let mut h = History::new();
    h.add_item_at(String::from("x"), ts(1, 0, 0));
    h.add_item_at(String::from("x"), ts(2, 0, 0));
    assert_eq!(h.items.len(), 1);
    assert_eq!(h.items[0].content, "x");
    assert_eq!(h.items[0].timestamp, ts(1, 0, 0));
}

#[test]
fn dedup_looks_only_at_the_head() {
    let mut h = History::new();
    h.add_item_at(String::from("x"), ts(1, 0, 0));
    h.add_item_at(String::from("y"), ts(2, 0, 0));
    h.add_item_at(String::from("x"), ts(3, 0, 0));
    assert_eq!(h.items.len(), 3);
    assert_eq!(h.items[0].content, "x");
    assert_eq!(h.items[1].content, "y");
    assert_eq!(h.items[2].content, "x");
}

#[test]
fn clear_then_get_returns_absent() {
    let mut h = History::new();
    h.add_item_at(String::from("a"), ts(1, 0, 0));
    h.add_item_at(String::from("b"), ts(2, 0, 0));
    h.clear();
    assert!(h.get_item(0).is_none());
    assert_eq!(h.items.len(), 0);
}

#[test]
fn get_item_by_position() {
    let mut h = History::new();
    h.add_item_at(String::from("old"), ts(1, 0, 0));
    h.add_item_at(String::from("new"), ts(2, 0, 0));
    assert_eq!(h.get_item(0).unwrap().content, "new");
    assert_eq!(h.get_item(1).unwrap().content, "old");
    assert!(h.get_item(2).is_none());
}

#[test]
fn restore_out_of_range_is_not_found() {
    let mut h = History::new();
    h.add_item_at(String::from("a"), ts(1, 0, 0));
    h.add_item_at(String::from("b"), ts(2, 0, 0));
    h.add_item_at(String::from("c"), ts(3, 0, 0));
    let r = h.restore(5);
    assert!(matches!(r, Err(RestoreError::NotFound)));
}

#[test]
fn restore_in_range_hands_back_the_content() {
    let mut h = History::new();
    h.add_item_at(String::from("a"), ts(1, 0, 0));
    h.add_item_at(String::from("b"), ts(2, 0, 0));
    let r = h.restore(1);
    assert_eq!(r.unwrap(), "a");
}

#[test]
fn add_item_stamps_a_plausible_local_time() {
    let mut h = History::new();
    h.add_item(String::from("clock test"));
    assert_eq!(h.items.len(), 1);
    let t = h.items[0].timestamp;
    assert!(t.year >= 2020 && t.year <= 9999);
    assert!((1..=12).contains(&t.month));
    assert!((1..=31).contains(&t.day));
    assert!(t.hour < 24 && t.minute < 60 && t.second < 60);
    assert!(t.off_hour < 24 && t.off_min < 60);
}

#[test]
fn add_item_applies_blank_and_dedup_policy() {
    let mut h = History::new();
    h.add_item(String::from("  "));
    assert_eq!(h.items.len(), 0);
    h.add_item(String::from("same"));
    h.add_item(String::from("same"));
    assert_eq!(h.items.len(), 1);
}
