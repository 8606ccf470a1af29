//! Presentation: one entry rendered as a single line
//! `[index] YYYY-MM-DD HH:MM:SS | content`, with content truncated to 57
//! characters plus a three-character ellipsis when longer than 60, and
//! newlines replaced by spaces.
use vstd::prelude::*;

use crate::history::{Entry, EntrySnap, History, Timestamp};
use crate::text::{
    append_dec, append_fixed_digits, dec_digits, dec_str, push_char,
};

verus! {

/// The timestamp as `YYYY-MM-DD HH:MM:SS`.
pub open spec fn ts_display(t: Timestamp) -> Seq<char> {
    dec_digits(t.year as int, 4) + seq!['-'] + dec_digits(t.month as int, 2) + seq!['-']
        + dec_digits(t.day as int, 2) + seq![' '] + dec_digits(t.hour as int, 2) + seq![':']
        + dec_digits(t.minute as int, 2) + seq![':'] + dec_digits(t.second as int, 2)
}

/// Content truncated to its first 57 characters plus an ellipsis when
/// longer than 60 characters.
pub open spec fn truncated(s: Seq<char>) -> Seq<char> {
    if s.len() > 60 {
        s.take(57) + seq!['.', '.', '.']
    } else {
        s
    }
}

/// Every newline replaced by a single space.
pub open spec fn despaced(s: Seq<char>) -> Seq<char> {
    s.map_values(|c: char| if c == '\n' { ' ' } else { c })
}

/// The whole rendered line for an entry at a position.
pub open spec fn spec_format_entry(index: int, e: EntrySnap) -> Seq<char> {
    seq!['['] + dec_str(index) + seq![']', ' '] + ts_display(e.timestamp) + seq![' ', '|', ' ']
        + despaced(truncated(e.content))
}

/// Appends the timestamp as `YYYY-MM-DD HH:MM:SS`.
fn append_ts_display(out: &mut String, t: &Timestamp)
    ensures
        final(out)@ == old(out)@ + ts_display(*t),
{
    append_fixed_digits(out, t.year as u32, 4);
    push_char(out, '-');
    append_fixed_digits(out, t.month as u32, 2);
    push_char(out, '-');
    append_fixed_digits(out, t.day as u32, 2);
    push_char(out, ' ');
    append_fixed_digits(out, t.hour as u32, 2);
    push_char(out, ':');
    append_fixed_digits(out, t.minute as u32, 2);
    push_char(out, ':');
    append_fixed_digits(out, t.second as u32, 2);
    proof {
        assert(final(out)@ =~= old(out)@ + ts_display(*t));
    }
}

/// Appends the first `upto` characters of `s`, newlines as spaces.
fn append_despaced(out: &mut String, s: &str, upto: usize)
    requires
        upto <= s@.len(),
    ensures
        final(out)@ == old(out)@ + despaced(s@.take(upto as int)),
{
    let mut i: usize = 0;
    while i < upto
        invariant
            i <= upto <= s@.len(),
            out@ == old(out)@ + despaced(s@.take(i as int)),
        decreases upto - i,
    {
        let c = s.get_char(i);
        if c == '\n' {
            push_char(out, ' ');
        } else {
            push_char(out, c);
        }
        i += 1;
        proof {
            assert(out@ =~= old(out)@ + despaced(s@.take(i as int)));
        }
    }
}

/// Renders `[index] YYYY-MM-DD HH:MM:SS | content` for one entry.
pub fn format_entry(index: usize, e: &Entry) -> (r: String)
    ensures
        r@ == spec_format_entry(index as int, e@),
{
    let mut out = String::new();
    push_char(&mut out, '[');
    append_dec(&mut out, index);
    push_char(&mut out, ']');
    push_char(&mut out, ' ');
    append_ts_display(&mut out, &e.timestamp);
    push_char(&mut out, ' ');
    push_char(&mut out, '|');
    push_char(&mut out, ' ');
    let len = e.content.as_str().unicode_len();
    if len > 60 {
        append_despaced(&mut out, e.content.as_str(), 57);
        push_char(&mut out, '.');
        push_char(&mut out, '.');
        push_char(&mut out, '.');
        proof {
            assert(despaced(truncated(e.content@)) =~= despaced(e.content@.take(57)) + seq![
                '.',
                '.',
                '.',
            ]);
            assert(out@ =~= spec_format_entry(index as int, e@));
        }
    } else {
        append_despaced(&mut out, e.content.as_str(), len);
        proof {
            assert(e.content@.take(len as int) =~= e.content@);
            assert(out@ =~= spec_format_entry(index as int, e@));
        }
    }
    out
}

impl History {
    /// The first `count` entries (or all, when fewer), each rendered as
    /// its display line.
    pub fn list(&self, count: usize) -> (r: Vec<String>)
        ensures
            r@.len() == if count <= self@.len() {
                count as int
            } else {
                self@.len() as int
            },
            forall|i: int| 0 <= i < r@.len() ==> (#[trigger] r@[i])@ == spec_format_entry(
                i,
                self@[i],
            ),
    {
        let n = if count <= self.items.len() {
            count
        } else {
            self.items.len()
        };
        let mut out: Vec<String> = Vec::new();
        let mut i: usize = 0;
        while i < n
            invariant
                i <= n <= self.items.len(),
                out@.len() == i,
                forall|j: int| 0 <= j < i ==> (#[trigger] out@[j])@ == spec_format_entry(
                    j,
                    self@[j],
                ),
            decreases n - i,
        {
            out.push(format_entry(i, &self.items[i]));
            i += 1;
        }
        out
    }

    /// The display lines of the entries matching `query`, in store order,
    /// each rendered under its original position.
    pub fn search_lines(&self, query: &str) -> (r: Vec<String>)
        ensures
            ({
                let ss = crate::fuzzy::search_spec(self@, query@, self@.len() as int);
                r@.len() == ss.len() && forall|k: int|
                    0 <= k < ss.len() ==> (#[trigger] r@[k])@ == spec_format_entry(
                        ss[k].0,
                        ss[k].1,
                    )
            }),
    {
        let results = self.search(query);
        let mut out: Vec<String> = Vec::new();
        let mut i: usize = 0;
        let ghost ss = crate::fuzzy::search_spec(self@, query@, self@.len() as int);
        while i < results.len()
            invariant
                i <= results.len(),
                ss == crate::fuzzy::search_spec(self@, query@, self@.len() as int),
                results@.len() == ss.len(),
                forall|k: int|
                    0 <= k < ss.len() ==> (#[trigger] results@[k]).0 as int == ss[k].0
                        && results@[k].1@ == ss[k].1,
                out@.len() == i,
                forall|k: int| 0 <= k < i ==> (#[trigger] out@[k])@ == spec_format_entry(
                    ss[k].0,
                    ss[k].1,
                ),
            decreases results.len() - i,
        {
            let (idx, entry) = results[i];
            out.push(format_entry(idx, entry));
            i += 1;
        }
        out
    }
}

} // verus!
