use cacheclip::daemon::DaemonState;
use cacheclip::format::format_entry;
use cacheclip::history::{Entry, History, Timestamp};

fn ts(hour: u8, minute: u8, second: u8) -> Timestamp {
    Timestamp {
        year: 2024,
        month: 5,
        day: 6,
        hour,
        minute,
        second,
        off_neg: false,
        off_hour: 2,
        off_min: 0,
    }
}

fn history_of(contents: &[&str]) -> History {
    History {
        items: contents
            .iter()
            .map(|c| Entry { content: String::from(*c), timestamp: ts(1, 2, 3) })
            .collect(),
    }
}

#[test]
fn empty_query_returns_all_entries_in_order() {
    let h = history_of(&["first", "second", "third"]);
    let r = h.search("");
    assert_eq!(r.len(), 3);
    for (k, (i, e)) in r.iter().enumerate() {
        assert_eq!(*i, k);
        assert_eq!(e.content, h.items[k].content);
    }
}

#[test]
fn unmatchable_query_returns_nothing() {
    let h = history_of(&["first", "second", "third"]);
    let r = h.search("zzz_no_such_token");
    assert_eq!(r.len(), 0);
}

#[test]
fn fuzzy_match_keeps_original_indices_and_order() {
    let h = history_of(&["hello world", "foo", "hello"]);
    let r = h.search("hlo");
    assert_eq!(r.len(), 2);
    assert_eq!(r[0].0, 0);
    assert_eq!(r[0].1.content, "hello world");
    assert_eq!(r[1].0, 2);
    assert_eq!(r[1].1.content, "hello");
}

#[test]
fn search_lines_render_under_original_indices() {
    let h = history_of(&["hello world", "foo", "hello"]);
    let lines = h.search_lines("hlo");
    assert_eq!(lines.len(), 2);
    assert_eq!(lines[0], "[0] 2024-05-06 01:02:03 | hello world");
    assert_eq!(lines[1], "[2] 2024-05-06 01:02:03 | hello");
}

#[test]
fn format_entry_renders_index_time_and_content() {
    let e = Entry { content: String::from("hi"), timestamp: ts(3, 4, 5) };
    assert_eq!(format_entry(0, &e), "[0] 2024-05-06 03:04:05 | hi");
    assert_eq!(format_entry(12, &e), "[12] 2024-05-06 03:04:05 | hi");
}

#[test]
fn format_entry_truncates_long_content_to_sixty() {
    let e = Entry { content: "a".repeat(70), timestamp: ts(3, 4, 5) };
    let line = format_entry(3, &e);
    let segment = &line["[3] 2024-05-06 03:04:05 | ".len()..];
    assert_eq!(segment.len(), 60);
    assert_eq!(segment, format!("{}...", "a".repeat(57)));
}

#[test]
fn format_entry_keeps_sixty_characters_untouched() {
    let e = Entry { content: "b".repeat(60), timestamp: ts(3, 4, 5) };
    let line = format_entry(0, &e);
    assert_eq!(line, format!("[0] 2024-05-06 03:04:05 | {}", "b".repeat(60)));
}

#[test]
fn format_entry_replaces_newlines_with_spaces() {
    let e = Entry { content: String::from("one\ntwo\nthree"), timestamp: ts(3, 4, 5) };
    assert_eq!(format_entry(1, &e), "[1] 2024-05-06 03:04:05 | one two three");
}

#[test]
fn list_clamps_to_the_available_entries() {
    let h = history_of(&["a", "b"]);
    assert_eq!(h.list(10).len(), 2);
    assert_eq!(h.list(1).len(), 1);
    assert_eq!(h.list(1)[0], "[0] 2024-05-06 01:02:03 | a");
}

#[test]
fn daemon_tick_ignores_failed_reads_and_unchanged_content() {
    let mut st = DaemonState::new(History::new());
    assert!(!st.tick(None));
    assert!(!st.tick(Some(String::new())));
    assert!(st.tick(Some(String::from("abc"))));
    assert_eq!(st.last_content, "abc");
    assert_eq!(st.history.items.len(), 1);
    assert!(!st.tick(Some(String::from("abc"))));
    assert_eq!(st.history.items.len(), 1);
}

#[test]
fn daemon_tick_records_each_change() {
    let mut st = DaemonState::new(History::new());
    assert!(st.tick(Some(String::from("a"))));
    assert!(st.tick(Some(String::from("b"))));
    assert!(st.tick(Some(String::from("a"))));
    assert_eq!(st.history.items.len(), 3);
    assert_eq!(st.history.items[0].content, "a");
    assert_eq!(st.history.items[1].content, "b");
    assert_eq!(st.history.items[2].content, "a");
}

#[test]
fn daemon_tick_saves_even_when_the_store_rejects_blanks() {
    let mut st = DaemonState::new(History::new());
    let save = st.tick(Some(String::from("   ")));
    assert!(save);
    assert_eq!(st.last_content, "   ");
    assert_eq!(st.history.items.len(), 0);
}
