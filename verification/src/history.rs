//! The history store: a bounded, most-recent-first log of clipboard
//! snapshots. Insertion rejects blank content and content equal to the
//! current head, and truncates the log to the newest 100 entries.
use vstd::prelude::*;

use crate::text::{blank_str, is_blank};

use chrono::{Datelike, Offset, Timelike};

verus! {

/// The number of entries the history keeps at most.
pub const HISTORY_CAP: usize = 100;

/// A point in time with its local-timezone offset, held as plain calendar
/// fields. The offset is a sign plus hours and minutes east or west of UTC.
#[derive(Clone, Copy, PartialEq, Eq, Structural, Debug)]
pub struct Timestamp {
    pub year: u16,
    pub month: u8,
    pub day: u8,
    pub hour: u8,
    pub minute: u8,
    pub second: u8,
    pub off_neg: bool,
    pub off_hour: u8,
    pub off_min: u8,
}

impl Timestamp {
    /// The ranges a timestamp's fields lie in.
    pub open spec fn wf(self) -> bool {
        self.year <= 9999 && 1 <= self.month <= 12 && 1 <= self.day <= 31 && self.hour < 24
            && self.minute < 60 && self.second < 60 && self.off_hour < 24 && self.off_min < 60
    }
}

/// One recorded clipboard snapshot.
pub struct Entry {
    pub content: String,
    pub timestamp: Timestamp,
}

/// The mathematical image of an entry: its content as a character
/// sequence, together with its timestamp.
pub ghost struct EntrySnap {
    pub content: Seq<char>,
    pub timestamp: Timestamp,
}

impl View for Entry {
    type V = EntrySnap;

    open spec fn view(&self) -> EntrySnap {
        EntrySnap { content: self.content@, timestamp: self.timestamp }
    }
}

/// The images of a sequence of entries.
pub open spec fn entries_view(items: Seq<Entry>) -> Seq<EntrySnap> {
    Seq::new(items.len(), |i: int| items[i]@)
}

/// The bounded, most-recent-first log of entries.
pub struct History {
    pub items: Vec<Entry>,
}

impl View for History {
    type V = Seq<EntrySnap>;

    open spec fn view(&self) -> Seq<EntrySnap> {
        entries_view(self.items@)
    }
}

/// What one insertion does to the log: a no-op on blank content or when
/// the content equals the head entry's, otherwise a prepend followed by
/// truncation to the newest 100 entries.
pub open spec fn add_spec(items: Seq<EntrySnap>, content: Seq<char>, ts: Timestamp) -> Seq<
    EntrySnap,
> {
    if is_blank(content) || (items.len() > 0 && items[0].content == content) {
        items
    } else {
        let grown = seq![EntrySnap { content, timestamp: ts }] + items;
        if grown.len() <= 100 {
            grown
        } else {
            grown.take(100)
        }
    }
}

/// The entry at a position, or none when the position is out of bounds.
pub open spec fn lookup(items: Seq<EntrySnap>, index: int) -> Option<EntrySnap> {
    if 0 <= index < items.len() {
        Some(items[index])
    } else {
        None
    }
}

/// The one condition under which a restore is refused.
#[derive(Clone, Copy, PartialEq, Eq, Structural, Debug)]
pub enum RestoreError {
    NotFound,
}

impl History {
    /// An empty history.
    pub fn new() -> (h: History)
        ensures
            h@ == Seq::<EntrySnap>::empty(),
    {
        let h = History { items: Vec::new() };
        proof {
            assert(h@ =~= Seq::<EntrySnap>::empty());
        }
        h
    }

    /// Inserts `content` with the given timestamp, by the policy of
    /// `add_spec`.
    pub fn add_item_at(&mut self, content: String, ts: Timestamp)
        ensures
            final(self)@ == add_spec(old(self)@, content@, ts),
    {
        if blank_str(content.as_str()) {
            return ;
        }
        if self.items.len() > 0 {
            if self.items[0].content == content {
                return ;
            }
        }
        self.items.insert(0, Entry { content, timestamp: ts });
        if self.items.len() > HISTORY_CAP {
            self.items.truncate(HISTORY_CAP);
        }
        proof {
            assert(final(self)@ =~= add_spec(old(self)@, content@, ts));
        }
    }

    /// Inserts `content` stamped with the current local time. The log
    /// changes by the policy of `add_spec` for some valid timestamp; in
    /// particular it never grows beyond 100 entries.
    pub fn add_item(&mut self, content: String)
        ensures
            exists|ts: Timestamp|
                ts.wf() && final(self)@ == #[trigger] add_spec(old(self)@, content@, ts),
            old(self)@.len() <= 100 ==> final(self)@.len() <= 100,
    {
        let ts = now_timestamp();
        self.add_item_at(content, ts);
        proof {
            lemma_add_bounded(old(self)@, content@, ts);
        }
    }

    /// The entry at `index`, most recent first, or none past the end.
    pub fn get_item(&self, index: usize) -> (r: Option<&Entry>)
        ensures
            match r {
                Some(e) => lookup(self@, index as int) == Some(e@),
                None => lookup(self@, index as int) is None,
            },
    {
        if index < self.items.len() {
            Some(&self.items[index])
        } else {
            None
        }
    }

    /// Empties the log unconditionally.
    pub fn clear(&mut self)
        ensures
            final(self)@ == Seq::<EntrySnap>::empty(),
    {
        self.items.clear();
        proof {
            assert(final(self)@ =~= Seq::<EntrySnap>::empty());
        }
    }

    /// The content to place back on the clipboard for `index`, or
    /// `NotFound` exactly when the index is out of bounds.
    pub fn restore(&self, index: usize) -> (r: Result<&String, RestoreError>)
        ensures
            match r {
                Ok(c) => index < self@.len() && c@ == self@[index as int].content,
                Err(e) => index >= self@.len() && e == RestoreError::NotFound,
            },
    {
        if index < self.items.len() {
            Ok(&self.items[index].content)
        } else {
            Err(RestoreError::NotFound)
        }
    }
}

/// Relies on `chrono::Local::now` and chrono's `Datelike`, `Timelike` and
/// offset accessors: the month is 1..=12, the day 1..=31, the hour below
/// 24, minute and second below 60, and a fixed offset lies strictly within
/// one day of UTC.
#[verifier::external_body]
fn now_fields() -> (r: (i32, u32, u32, u32, u32, u32, i32))
    ensures
        1 <= r.1 <= 12,
        1 <= r.2 <= 31,
        r.3 < 24,
        r.4 < 60,
        r.5 < 60,
        -86400 < r.6 < 86400,
{
    let now = chrono::Local::now();
    let off = now.offset().fix().local_minus_utc();
    (now.year(), now.month(), now.day(), now.hour(), now.minute(), now.second(), off)
}

/// Folds raw clock fields into a `Timestamp`, clamping the year into the
/// four-digit range the history represents and splitting the offset into
/// sign, hours and minutes.
fn timestamp_from_clock(
    year: i32,
    month: u32,
    day: u32,
    hour: u32,
    minute: u32,
    second: u32,
    offset_seconds: i32,
) -> (t: Timestamp)
    requires
        1 <= month <= 12,
        1 <= day <= 31,
        hour < 24,
        minute < 60,
        second < 60,
        -86400 < offset_seconds < 86400,
    ensures
        t.wf(),
        t.year == if year < 0 {
            0
        } else if year > 9999 {
            9999
        } else {
            year
        },
        t.month == month,
        t.day == day,
        t.hour == hour,
        t.minute == minute,
        t.second == second,
{
    let y: u16 = if year < 0 {
        0
    } else if year > 9999 {
        9999
    } else {
        year as u16
    };
    let abs_off: i32 = if offset_seconds < 0 {
        -offset_seconds
    } else {
        offset_seconds
    };
    let off_minutes: i32 = abs_off / 60;
    Timestamp {
        year: y,
        month: month as u8,
        day: day as u8,
        hour: hour as u8,
        minute: minute as u8,
        second: second as u8,
        off_neg: offset_seconds < 0,
        off_hour: (off_minutes / 60) as u8,
        off_min: (off_minutes % 60) as u8,
    }
}

/// The current local time as a valid `Timestamp`.
fn now_timestamp() -> (t: Timestamp)
    ensures
        t.wf(),
{
    let (year, month, day, hour, minute, second, off) = now_fields();
    timestamp_from_clock(year, month, day, hour, minute, second, off)
}

/// Law: an insertion never grows the history beyond 100 entries, and a
/// history within the bound stays within it.
pub proof fn lemma_add_bounded(items: Seq<EntrySnap>, content: Seq<char>, ts: Timestamp)
    ensures
        add_spec(items, content, ts).len() <= 100 || add_spec(items, content, ts).len()
            <= items.len(),
        items.len() <= 100 ==> add_spec(items, content, ts).len() <= 100,
{
}

/// Law: blank content never changes the history.
pub proof fn lemma_add_blank_noop(items: Seq<EntrySnap>, content: Seq<char>, ts: Timestamp)
    requires
        is_blank(content),
    ensures
        add_spec(items, content, ts) == items,
{
}

/// Law: inserting the same content twice in a row stores it once — the
/// first insertion puts it at the head and the second is a no-op.
pub proof fn lemma_add_twice_dedups(
    items: Seq<EntrySnap>,
    content: Seq<char>,
    t1: Timestamp,
    t2: Timestamp,
)
    requires
        !is_blank(content),
    ensures
        add_spec(items, content, t1).len() > 0,
        add_spec(items, content, t1)[0].content == content,
        add_spec(add_spec(items, content, t1), content, t2) == add_spec(items, content, t1),
{
    let s1 = add_spec(items, content, t1);
    if items.len() > 0 && items[0].content == content {
    } else {
        let grown = seq![EntrySnap { content, timestamp: t1 }] + items;
        if grown.len() <= 100 {
        } else {
            assert(s1[0] == grown[0]);
        }
    }
}

/// Law: deduplication looks only at the head. Inserting `x`, then a
/// different `y`, then `x` again records `x` twice, at positions 0 and 2.
pub proof fn lemma_head_only_dedup(
    items: Seq<EntrySnap>,
    x: Seq<char>,
    y: Seq<char>,
    t1: Timestamp,
    t2: Timestamp,
    t3: Timestamp,
)
    requires
        !is_blank(x),
        !is_blank(y),
        x != y,
        !(items.len() > 0 && items[0].content == x),
    ensures
        ({
            let s3 = add_spec(add_spec(add_spec(items, x, t1), y, t2), x, t3);
            s3.len() >= 3 && s3[0].content == x && s3[1].content == y && s3[2].content == x
        }),
{
    let s1 = add_spec(items, x, t1);
    let g1 = seq![EntrySnap { content: x, timestamp: t1 }] + items;
    assert(s1[0] == g1[0]);
    let s2 = add_spec(s1, y, t2);
    let g2 = seq![EntrySnap { content: y, timestamp: t2 }] + s1;
    assert(s2[0] == g2[0] && s2[1] == g2[1]);
    let s3 = add_spec(s2, x, t3);
    let g3 = seq![EntrySnap { content: x, timestamp: t3 }] + s2;
    assert(s3[0] == g3[0] && s3[1] == g3[1] && s3[2] == g3[2]);
}

/// Law: after a clear, every index is absent.
pub proof fn lemma_clear_lookup(index: int)
    ensures
        lookup(Seq::<EntrySnap>::empty(), index) is None,
{
}

} // verus!
