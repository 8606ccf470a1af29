use cacheclip::codec::{load_history, parse_history, save_history};
use cacheclip::history::{Entry, History, Timestamp};

fn ts(hour: u8, minute: u8, second: u8) -> Timestamp {
    Timestamp {
        year: 2024,
        month: 5,
        day: 6,
        hour,
        minute,
        second,
        off_neg: false,
        off_hour: 2,
        off_min: 0,
    }
}

fn entry(content: &str, t: Timestamp) -> Entry {
    Entry { content: String::from(content), timestamp: t }
}

fn histories_equal(a: &History, b: &History) -> bool {
    a.items.len() == b.items.len() && a.items.iter().zip(b.items.iter()).all(
        |(x, y)| x.content == y.content && x.timestamp == y.timestamp,
    )
}

#[test]
fn save_of_empty_history_is_the_empty_document() {
    let h = History::new();
    assert_eq!(save_history(&h), "{\n  \"items\": []\n}");
}

#[test]
fn save_writes_the_exact_pretty_document() {
    let h = History { items: vec![entry("hello", ts(7, 8, 9))] };
    let expected = "{\n  \"items\": [\n    {\n      \"content\": \"hello\",\n      \"timestamp\": \"2024-05-06T07:08:09+02:00\"\n    }\n  ]\n}";
    assert_eq!(save_history(&h), expected);
}

#[test]
fn save_escapes_quotes_backslashes_and_controls() {
    let h = History { items: vec![entry("a\"b\\c\nd\te\u{1}f", ts(1, 2, 3))] };
    let s = save_history(&h);
    assert!(s.contains("a\\\"b\\\\c\\nd\\te\\u0001f"));
}

#[test]
fn save_renders_negative_offsets() {
    let mut t = ts(1, 2, 3);
    t.off_neg = true;
    t.off_hour = 5;
    t.off_min = 30;
    let h = History { items: vec![entry("x", t)] };
    assert!(save_history(&h).contains("2024-05-06T01:02:03-05:30"));
}

#[test]
fn round_trip_preserves_every_entry() {
    let mut neg = ts(23, 59, 58);
    neg.off_neg = true;
    neg.off_hour = 11;
    neg.off_min = 45;
    let h = History {
        items: vec![
            entry("plain text", ts(1, 2, 3)),
            entry("quotes \" and \\ backslashes", ts(4, 5, 6)),
            entry("lines\nand\ttabs\rand \u{1} \u{1f} controls", ts(7, 8, 9)),
            entry("unicode: caf\u{e9} \u{1f600} \u{3000}", neg),
        ],
    };
    let text = save_history(&h);
    let back = parse_history(&text);
    assert!(histories_equal(&h, &back));
}

#[test]
fn round_trip_of_a_full_history() {
    let mut h = History::new();
    for i in 0..100 {
        h.add_item_at(format!("entry {}\n\"{}\"", i, i), ts(1, 2, 3));
    }
    let back = parse_history(&save_history(&h));
    assert!(histories_equal(&h, &back));
}

#[test]
fn missing_file_loads_as_empty() {
    let h = load_history(None);
    assert_eq!(h.items.len(), 0);
}

#[test]
fn garbage_loads_as_empty() {
    for garbage in [
        "",
        "not json at all",
        "{}",
        "{\"items\":[]}",
        "{\n  \"items\": []\n} ",
        "{\n  \"items\": [",
        "{\n  \"items\": [\n    {\n      \"content\": \"x\",\n      \"timestamp\": \"2024-13-06T07:08:09+02:00\"\n    }\n  ]\n}",
    ] {
        let h = load_history(Some(garbage));
        assert_eq!(h.items.len(), 0, "text should not load: {:?}", garbage);
    }
}

#[test]
fn truncated_save_loads_as_empty() {
    let h = History { items: vec![entry("hello", ts(7, 8, 9))] };
    let text = save_history(&h);
    let cut = &text[..text.len() - 3];
    let back = parse_history(cut);
    assert_eq!(back.items.len(), 0);
}
