//! The persistence codec. A history is saved as a pretty-printed JSON
//! document `{ "items": [ { "content": ..., "timestamp": ... }, ... ] }`,
//! most recent entry first, with JSON string escaping for the content and
//! a fixed-width `YYYY-MM-DDTHH:MM:SS+HH:MM` local-offset timestamp.
//! Loading parses exactly the canonical text `save_history` writes; a
//! missing file or any other text yields an empty history, never an error.
use vstd::prelude::*;

use crate::history::{Entry, EntrySnap, History, Timestamp};
use crate::text::{
    append_fixed_digits, dec_digits, digits_val, hex_digit_char, hex_digit_val, hex_val,
    is_dec_digit, lemma_dec_digits_val, pow10, push_char, push_dec_digit, push_hex_digit, str_eq,
};

verus! {

/// How one character of content is written inside a JSON string: quote,
/// backslash, newline, carriage return and tab by their short escapes,
/// any other control character as `\u00xx`, anything else as itself.
pub open spec fn esc_char(c: char) -> Seq<char> {
    if c == '"' {
        seq!['\\', '"']
    } else if c == '\\' {
        seq!['\\', '\\']
    } else if c == '\n' {
        seq!['\\', 'n']
    } else if c == '\r' {
        seq!['\\', 'r']
    } else if c == '\t' {
        seq!['\\', 't']
    } else if (c as u32) < 0x20 {
        seq!['\\', 'u', '0', '0', hex_digit_char(c as u32 as int / 16), hex_digit_char(
            c as u32 as int % 16,
        )]
    } else {
        seq![c]
    }
}

/// Characters that are not written as themselves.
pub open spec fn esc_needed(c: char) -> bool {
    c == '"' || c == '\\' || (c as u32) < 0x20
}

/// A content string as written inside its JSON quotes.
pub open spec fn escape(s: Seq<char>) -> Seq<char>
    decreases s.len(),
{
    if s.len() == 0 {
        Seq::empty()
    } else {
        esc_char(s[0]) + escape(s.skip(1))
    }
}

/// The timestamp as written: `YYYY-MM-DDTHH:MM:SS` plus a signed
/// `HH:MM` offset, 25 characters in all.
pub open spec fn ts_text(t: Timestamp) -> Seq<char> {
    dec_digits(t.year as int, 4) + seq!['-'] + dec_digits(t.month as int, 2) + seq!['-']
        + dec_digits(t.day as int, 2) + seq!['T'] + dec_digits(t.hour as int, 2) + seq![':']
        + dec_digits(t.minute as int, 2) + seq![':'] + dec_digits(t.second as int, 2) + seq![
        if t.off_neg {
            '-'
        } else {
            '+'
        },
    ] + dec_digits(t.off_hour as int, 2) + seq![':'] + dec_digits(t.off_min as int, 2)
}

/// One entry as written inside the items array.
pub open spec fn entry_block(e: EntrySnap) -> Seq<char> {
    "\n    {\n      \"content\": \""@ + escape(e.content) + "\",\n      \"timestamp\": \""@
        + ts_text(e.timestamp) + "\"\n    }"@
}

/// The text after the first `k` entries: a comma and the next entry while
/// any remain, then the closing of the array and the document.
pub open spec fn tail_text(items: Seq<EntrySnap>, k: int) -> Seq<char>
    decreases items.len() - k,
{
    if k < items.len() {
        ","@ + entry_block(items[k]) + tail_text(items, k + 1)
    } else {
        "\n  ]\n}"@
    }
}

/// The whole document a history is saved as.
pub open spec fn spec_save(items: Seq<EntrySnap>) -> Seq<char> {
    "{\n  \"items\": ["@ + if items.len() == 0 {
        "]\n}"@
    } else {
        entry_block(items[0]) + tail_text(items, 1)
    }
}

/// Every entry's timestamp lies in the ranges the fixed-width rendering
/// represents.
pub open spec fn entries_ts_wf(items: Seq<EntrySnap>) -> bool {
    forall|i: int| 0 <= i < items.len() ==> (#[trigger] items[i]).timestamp.wf()
}

/// Escaping distributes over concatenation.
pub proof fn lemma_escape_concat(a: Seq<char>, b: Seq<char>)
    ensures
        escape(a + b) == escape(a) + escape(b),
    decreases a.len(),
{
    if a.len() == 0 {
        assert(a + b =~= b);
        assert(escape(a) + escape(b) =~= escape(b));
    } else {
        assert((a + b).skip(1) =~= a.skip(1) + b);
        lemma_escape_concat(a.skip(1), b);
        assert(escape(a + b) =~= escape(a) + escape(b));
    }
}

/// Escaping one more character appends its escape.
pub proof fn lemma_escape_push(a: Seq<char>, c: char)
    ensures
        escape(a.push(c)) == escape(a) + esc_char(c),
{
    reveal_with_fuel(escape, 2);
    assert(a.push(c) =~= a + seq![c]);
    lemma_escape_concat(a, seq![c]);
    assert(seq![c].skip(1) =~= Seq::<char>::empty());
    assert(escape(seq![c]) =~= esc_char(c));
}

/// The escaped text split around the `k`-th content character.
pub proof fn lemma_escape_split(cs: Seq<char>, k: int)
    requires
        0 <= k < cs.len(),
    ensures
        escape(cs) == escape(cs.take(k)) + esc_char(cs[k]) + escape(cs.skip(k + 1)),
{
    reveal_with_fuel(escape, 2);
    assert(cs =~= cs.take(k) + (seq![cs[k]] + cs.skip(k + 1)));
    lemma_escape_concat(cs.take(k), seq![cs[k]] + cs.skip(k + 1));
    lemma_escape_concat(seq![cs[k]], cs.skip(k + 1));
    assert((seq![cs[k]] + cs.skip(k + 1)) =~= seq![cs[k]] + cs.skip(k + 1));
    assert(seq![cs[k]].skip(1) =~= Seq::<char>::empty());
    assert(escape(seq![cs[k]]) =~= esc_char(cs[k]));
    assert(escape(cs) =~= escape(cs.take(k)) + esc_char(cs[k]) + escape(cs.skip(k + 1)));
}

/// An escape never begins with a quote, begins with a backslash exactly
/// for the characters that need escaping, and is the character itself
/// otherwise.
pub proof fn lemma_esc_char_shape(c: char)
    ensures
        esc_char(c).len() >= 1,
        esc_char(c)[0] != '"',
        esc_needed(c) <==> esc_char(c)[0] == '\\',
        !esc_needed(c) ==> esc_char(c) == seq![c],
{
    if !esc_needed(c) {
        assert(esc_char(c) =~= seq![c]);
    }
}

/// Appends the escaped form of `s`.
fn append_escaped(out: &mut String, s: &str)
    ensures
        final(out)@ == old(out)@ + escape(s@),
{
    let len = s.unicode_len();
    let mut i: usize = 0;
    proof {
        assert(out@ =~= old(out)@ + escape(s@.take(0)));
    }
    while i < len
        invariant
            i <= len,
            len == s@.len(),
            out@ == old(out)@ + escape(s@.take(i as int)),
        decreases len - i,
    {
        let c = s.get_char(i);
        if c == '"' {
            push_char(out, '\\');
            push_char(out, '"');
        } else if c == '\\' {
            push_char(out, '\\');
            push_char(out, '\\');
        } else if c == '\n' {
            push_char(out, '\\');
            push_char(out, 'n');
        } else if c == '\r' {
            push_char(out, '\\');
            push_char(out, 'r');
        } else if c == '\t' {
            push_char(out, '\\');
            push_char(out, 't');
        } else if (c as u32) < 0x20 {
            push_char(out, '\\');
            push_char(out, 'u');
            push_char(out, '0');
            push_char(out, '0');
            push_hex_digit(out, (c as u32) / 16);
            push_hex_digit(out, (c as u32) % 16);
        } else {
            push_char(out, c);
        }
        proof {
            lemma_escape_push(s@.take(i as int), s@[i as int]);
            assert(s@.take(i + 1) =~= s@.take(i as int).push(s@[i as int]));
            assert(out@ =~= old(out)@ + escape(s@.take(i + 1)));
        }
        i += 1;
    }
    proof {
        assert(s@.take(len as int) =~= s@);
    }
}

/// Appends the 25-character timestamp text.
fn append_ts_text(out: &mut String, t: &Timestamp)
    ensures
        final(out)@ == old(out)@ + ts_text(*t),
{
    append_fixed_digits(out, t.year as u32, 4);
    push_char(out, '-');
    append_fixed_digits(out, t.month as u32, 2);
    push_char(out, '-');
    append_fixed_digits(out, t.day as u32, 2);
    push_char(out, 'T');
    append_fixed_digits(out, t.hour as u32, 2);
    push_char(out, ':');
    append_fixed_digits(out, t.minute as u32, 2);
    push_char(out, ':');
    append_fixed_digits(out, t.second as u32, 2);
    if t.off_neg {
        push_char(out, '-');
    } else {
        push_char(out, '+');
    }
    append_fixed_digits(out, t.off_hour as u32, 2);
    push_char(out, ':');
    append_fixed_digits(out, t.off_min as u32, 2);
    proof {
        assert(final(out)@ =~= old(out)@ + ts_text(*t));
    }
}

/// Appends one entry's block.
fn append_entry(out: &mut String, e: &Entry)
    ensures
        final(out)@ == old(out)@ + entry_block(e@),
{
    out.append("\n    {\n      \"content\": \"");
    append_escaped(out, e.content.as_str());
    out.append("\",\n      \"timestamp\": \"");
    append_ts_text(out, &e.timestamp);
    out.append("\"\n    }");
    proof {
        assert(final(out)@ =~= old(out)@ + entry_block(e@));
    }
}

/// Serializes the history to the canonical document text.
pub fn save_history(h: &History) -> (r: String)
    ensures
        r@ == spec_save(h@),
{
    let mut out = String::new();
    out.append("{\n  \"items\": [");
    if h.items.len() == 0 {
        out.append("]\n}");
        proof {
            assert(out@ =~= spec_save(h@));
        }
        return out;
    }
    append_entry(&mut out, &h.items[0]);
    let mut k: usize = 1;
    while k < h.items.len()
        invariant
            1 <= k <= h.items@.len(),
            h@.len() == h.items@.len(),
            out@ + tail_text(h@, k as int) == spec_save(h@),
        decreases h.items.len() - k,
    {
        out.append(",");
        append_entry(&mut out, &h.items[k]);
        proof {
            assert(out@ + tail_text(h@, k + 1) =~= spec_save(h@));
        }
        k += 1;
    }
    out.append("\n  ]\n}");
    proof {
        assert(out@ =~= spec_save(h@));
    }
    out
}

/// Whether `lit` occurs in `s` at position `p`.
pub open spec fn lit_at(s: Seq<char>, p: int, lit: Seq<char>) -> bool {
    p + lit.len() <= s.len() && s.subrange(p, p + lit.len()) == lit
}

/// Consumes exactly `lit` at `p`, telling apart precisely whether it is
/// there.
fn expect_lit(s: &str, p: usize, lit: &str) -> (r: Option<usize>)
    requires
        p <= s@.len(),
    ensures
        match r {
            Some(p2) => p2 == p + lit@.len() && p2 <= s@.len() && lit_at(s@, p as int, lit@),
            None => !lit_at(s@, p as int, lit@),
        },
{
    let slen = s.unicode_len();
    let llen = lit.unicode_len();
    if slen - p < llen {
        return None;
    }
    let mut i: usize = 0;
    while i < llen
        invariant
            i <= llen,
            llen == lit@.len(),
            slen == s@.len(),
            p + llen <= slen,
            forall|j: int| 0 <= j < i ==> s@[p + j] == lit@[j],
        decreases llen - i,
    {
        if s.get_char(p + i) != lit.get_char(i) {
            proof {
                assert(!lit_at(s@, p as int, lit@)) by {
                    if lit_at(s@, p as int, lit@) {
                        assert(s@.subrange(p as int, p + lit@.len())[i as int] == lit@[i as int]);
                    }
                }
            }
            return None;
        }
        i += 1;
    }
    proof {
        assert(s@.subrange(p as int, p + lit@.len()) =~= lit@);
    }
    Some(p + llen)
}

/// Reads exactly `w` decimal digits at `p`, telling apart precisely
/// whether they are there, and returning the number they denote.
fn parse_digits(s: &str, p: usize, w: usize) -> (r: Option<u32>)
    requires
        p <= s@.len(),
        w <= 4,
    ensures
        match r {
            Some(n) => p + w <= s@.len() && (forall|j: int|
                p <= j < p + w ==> is_dec_digit(#[trigger] s@[j])) && n == digits_val(
                s@.subrange(p as int, p + w),
            ) && n < pow10(w as nat),
            None => !(p + w <= s@.len() && (forall|j: int|
                p <= j < p + w ==> is_dec_digit(#[trigger] s@[j]))),
        },
{
    let slen = s.unicode_len();
    if slen - p < w {
        return None;
    }
    let mut acc: u32 = 0;
    let mut i: usize = 0;
    proof {
        assert(s@.subrange(p as int, p as int) =~= Seq::<char>::empty());
    }
    while i < w
        invariant
            i <= w <= 4,
            p + w <= slen,
            slen == s@.len(),
            forall|j: int| p <= j < p + i ==> is_dec_digit(#[trigger] s@[j]),
            acc == digits_val(s@.subrange(p as int, p + i)),
            acc < pow10(i as nat),
        decreases w - i,
    {
        let c = s.get_char(p + i);
        let d: u32 = match c {
            '0' => 0,
            '1' => 1,
            '2' => 2,
            '3' => 3,
            '4' => 4,
            '5' => 5,
            '6' => 6,
            '7' => 7,
            '8' => 8,
            '9' => 9,
            _ => { return None },
        };
        proof {
            reveal_with_fuel(pow10, 5);
            assert(pow10(1) == 10 && pow10(2) == 100 && pow10(3) == 1000 && pow10(4) == 10000);
            assert(pow10(i as nat) <= 10000);
            assert(acc * 10 + d < pow10((i + 1) as nat)) by (nonlinear_arith)
                requires
                    acc < pow10(i as nat),
                    d < 10,
                    pow10((i + 1) as nat) == 10 * pow10(i as nat),
            ;
        }
        let next = acc * 10 + d;
        proof {
            let pre = s@.subrange(p as int, p + i);
            let cur = s@.subrange(p as int, p + i + 1);
            assert(cur.drop_last() =~= pre);
            assert(cur.last() == s@[p + i]);
            assert(crate::text::dec_digit_val(c) == d as int);
        }
        acc = next;
        i += 1;
    }
    Some(acc)
}

/// The control character with code `v`, written out arm by arm so that
/// its code point is known exactly.
fn control_char(v: u32) -> (c: char)
    requires
        v < 0x20,
    ensures
        c as u32 == v,
{
    match v {
        0 => '\u{00}',
        1 => '\u{01}',
        2 => '\u{02}',
        3 => '\u{03}',
        4 => '\u{04}',
        5 => '\u{05}',
        6 => '\u{06}',
        7 => '\u{07}',
        8 => '\u{08}',
        9 => '\u{09}',
        10 => '\u{0a}',
        11 => '\u{0b}',
        12 => '\u{0c}',
        13 => '\u{0d}',
        14 => '\u{0e}',
        15 => '\u{0f}',
        16 => '\u{10}',
        17 => '\u{11}',
        18 => '\u{12}',
        19 => '\u{13}',
        20 => '\u{14}',
        21 => '\u{15}',
        22 => '\u{16}',
        23 => '\u{17}',
        24 => '\u{18}',
        25 => '\u{19}',
        26 => '\u{1a}',
        27 => '\u{1b}',
        28 => '\u{1c}',
        29 => '\u{1d}',
        30 => '\u{1e}',
        _ => '\u{1f}',
    }
}

/// Whether an escaped content string followed by its closing quote sits
/// at `p`.
pub open spec fn strmatch_at(s: Seq<char>, p: int, cs: Seq<char>) -> bool {
    p + escape(cs).len() + 1 <= s.len() && s.subrange(p, p + escape(cs).len() + 1) == escape(
        cs,
    ).push('"')
}

/// Scans a JSON string body from `p` up to its closing quote, undoing the
/// escapes. Whenever the text at `p` is the escaped form of some content
/// followed by a quote, the scan succeeds and returns exactly that
/// content.
fn scan_string(s: &str, p: usize) -> (r: Option<(String, usize)>)
    requires
        p <= s@.len(),
    ensures
        match r {
            Some((c, p2)) => p < p2 <= s@.len(),
            None => true,
        },
        forall|cs: Seq<char>| #[trigger]
            strmatch_at(s@, p as int, cs) ==> match r {
                Some((c, p2)) => c@ == cs && p2 == p + escape(cs).len() + 1,
                None => false,
            },
{
    let slen = s.unicode_len();
    let mut out = String::new();
    let mut cur = p;
    proof {
        assert forall|cs: Seq<char>| #[trigger]
            strmatch_at(s@, p as int, cs) implies out@ == cs.take(out@.len() as int) && cur == p
            + escape(cs.take(out@.len() as int)).len() by {
            assert(cs.take(0) =~= Seq::<char>::empty());
            assert(out@ =~= cs.take(0));
        }
    }
    loop
        invariant
            p <= cur <= slen,
            slen == s@.len(),
            forall|cs: Seq<char>| #[trigger]
                strmatch_at(s@, p as int, cs) ==> out@.len() <= cs.len() && out@ == cs.take(
                    out@.len() as int,
                ) && cur == p + escape(cs.take(out@.len() as int)).len(),
        decreases slen - cur,
    {
        let ghost k = out@.len() as int;
        if cur >= slen {
            proof {
                assert forall|cs: Seq<char>| strmatch_at(s@, p as int, cs) implies false by {
                    scan_blocked(s@, p as int, cs, k, cur as int);
                }
            }
            return None;
        }
        let c = s.get_char(cur);
        if c == '"' {
            proof {
                assert forall|cs: Seq<char>| strmatch_at(s@, p as int, cs) implies out@ == cs && cur
                    + 1 == p + escape(cs).len() + 1 by {
                    scan_at_char(s@, p as int, cs, k, cur as int);
                    if k < cs.len() {
                        lemma_esc_char_shape(cs[k]);
                    }
                    assert(k == cs.len());
                    assert(cs.take(k) =~= cs);
                }
            }
            return Some((out, cur + 1));
        }
        if c == '\\' {
            if slen - cur < 2 {
                proof {
                    assert forall|cs: Seq<char>| strmatch_at(s@, p as int, cs) implies false by {
                        scan_at_char(s@, p as int, cs, k, cur as int);
                        if k < cs.len() {
                            lemma_esc_char_shape(cs[k]);
                            assert(esc_needed(cs[k]));
                            scan_esc_tail(s@, p as int, cs, k, cur as int);
                        }
                    }
                }
                return None;
            }
            let e = s.get_char(cur + 1);
            proof {
                assert forall|cs: Seq<char>| #[trigger]
                    strmatch_at(s@, p as int, cs) implies k < cs.len() && esc_needed(cs[k])
                    && esc_char(cs[k]).len() >= 2 && s@[cur + 1] == esc_char(cs[k])[1] by {
                    scan_at_char(s@, p as int, cs, k, cur as int);
                    if k < cs.len() {
                        lemma_esc_char_shape(cs[k]);
                        scan_esc_tail(s@, p as int, cs, k, cur as int);
                    }
                }
            }
            if e == '"' || e == '\\' {
                let decoded = e;
                proof {
                    scan_step_ok(s@, p as int, k, cur as int, decoded, 2);
                }
                push_char(&mut out, decoded);
                cur = cur + 2;
            } else if e == 'n' {
                proof {
                    scan_step_ok(s@, p as int, k, cur as int, '\n', 2);
                }
                push_char(&mut out, '\n');
                cur = cur + 2;
            } else if e == 'r' {
                proof {
                    scan_step_ok(s@, p as int, k, cur as int, '\r', 2);
                }
                push_char(&mut out, '\r');
                cur = cur + 2;
            } else if e == 't' {
                proof {
                    scan_step_ok(s@, p as int, k, cur as int, '\t', 2);
                }
                push_char(&mut out, '\t');
                cur = cur + 2;
            } else if e == 'u' {
                if slen - cur < 6 {
                    proof {
                        assert forall|cs: Seq<char>| strmatch_at(
                            s@,
                            p as int,
                            cs,
                        ) implies false by {
                            scan_at_char(s@, p as int, cs, k, cur as int);
                            if k < cs.len() {
                                lemma_esc_char_shape(cs[k]);
                                scan_esc_tail(s@, p as int, cs, k, cur as int);
                            }
                        }
                    }
                    return None;
                }
                let h2 = s.get_char(cur + 4);
                let h3 = s.get_char(cur + 5);
                let v2 = match hex_digit_val(h2) {
                    Some(v) => v,
                    None => {
                        proof {
                            scan_u_contradiction(s@, p as int, k, cur as int);
                        }
                        return None;
                    },
                };
                let v3 = match hex_digit_val(h3) {
                    Some(v) => v,
                    None => {
                        proof {
                            scan_u_contradiction(s@, p as int, k, cur as int);
                        }
                        return None;
                    },
                };
                let v: u32 = v2 * 16 + v3;
                if v >= 0x20 {
                    proof {
                        scan_u_contradiction(s@, p as int, k, cur as int);
                    }
                    return None;
                }
                let decoded: char = control_char(v);
                proof {
                    assert forall|cs: Seq<char>| strmatch_at(s@, p as int, cs) && k
                        < cs.len() implies cs[k] == decoded && esc_char(cs[k]).len() == 6 by {
                        scan_at_char(s@, p as int, cs, k, cur as int);
                        lemma_esc_char_shape(cs[k]);
                        scan_esc_tail(s@, p as int, cs, k, cur as int);
                        let cc = cs[k];
                        assert(esc_char(cc)[1] == s@[cur + 1]);
                        assert((cc as u32) < 0x20);
                        assert(esc_char(cc)[4] == hex_digit_char(cc as u32 as int / 16));
                        assert(esc_char(cc)[5] == hex_digit_char(cc as u32 as int % 16));
                        lemma_hex_digit_char_val(cc as u32 as int / 16);
                        lemma_hex_digit_char_val(cc as u32 as int % 16);
                        assert(cc as u32 == (cc as u32 / 16) * 16 + (cc as u32) % 16) by (nonlinear_arith);
                        assert(v == cc as u32);
                        vstd::utf8::char_u32_cast(cc, v);
                        vstd::utf8::char_u32_cast(decoded, v);
                    }
                    scan_step_ok(s@, p as int, k, cur as int, decoded, 6);
                }
                push_char(&mut out, decoded);
                cur = cur + 6;
            } else {
                proof {
                    assert forall|cs: Seq<char>| strmatch_at(s@, p as int, cs) implies false by {
                        scan_at_char(s@, p as int, cs, k, cur as int);
                        if k < cs.len() {
                            lemma_esc_char_shape(cs[k]);
                            scan_esc_tail(s@, p as int, cs, k, cur as int);
                        }
                    }
                }
                return None;
            }
        } else {
            proof {
                assert forall|cs: Seq<char>| #[trigger]
                    strmatch_at(s@, p as int, cs) implies k < cs.len() && cs[k] == c && esc_char(
                    cs[k],
                ).len() == 1 by {
                    scan_at_char(s@, p as int, cs, k, cur as int);
                    if k < cs.len() {
                        lemma_esc_char_shape(cs[k]);
                        assert(esc_char(cs[k])[0] == s@[cur as int]);
                        assert(!esc_needed(cs[k]));
                    }
                }
                scan_step_ok(s@, p as int, k, cur as int, c, 1);
            }
            push_char(&mut out, c);
            cur = cur + 1;
        }
    }
}

/// A hex digit character reads back as its value.
proof fn lemma_hex_digit_char_val(d: int)
    requires
        0 <= d < 16,
    ensures
        hex_val(hex_digit_char(d)) == Some(d),
{
}

/// In a matched scan, the character at `cur` is the head of the escape of
/// the next content character, or the closing quote when none remain.
proof fn scan_at_char(s: Seq<char>, p: int, cs: Seq<char>, k: int, cur: int)
    requires
        0 <= p,
        strmatch_at(s, p, cs),
        0 <= k <= cs.len(),
        cur == p + escape(cs.take(k)).len(),
    ensures
        cur < s.len(),
        k < cs.len() ==> s[cur] == esc_char(cs[k])[0] && esc_char(cs[k]).len() >= 1,
        k == cs.len() ==> s[cur] == '"',
{
    if k < cs.len() {
        lemma_escape_split(cs, k);
        lemma_esc_char_shape(cs[k]);
        let whole = s.subrange(p, p + escape(cs).len() + 1);
        assert(whole[cur - p] == esc_char(cs[k])[0]);
        assert(s[cur] == whole[cur - p]);
    } else {
        assert(cs.take(k) =~= cs);
        let whole = s.subrange(p, p + escape(cs).len() + 1);
        assert(whole[cur - p] == escape(cs).push('"')[escape(cs).len() as int]);
        assert(s[cur] == whole[cur - p]);
    }
}

/// In a matched scan, every character of the next escape is present at
/// its offset from `cur`.
proof fn scan_esc_tail(s: Seq<char>, p: int, cs: Seq<char>, k: int, cur: int)
    requires
        0 <= p,
        strmatch_at(s, p, cs),
        0 <= k < cs.len(),
        cur == p + escape(cs.take(k)).len(),
    ensures
        cur + esc_char(cs[k]).len() <= s.len(),
        forall|j: int| 0 <= j < esc_char(cs[k]).len() ==> s[cur + j] == esc_char(cs[k])[j],
{
    lemma_escape_split(cs, k);
    let whole = s.subrange(p, p + escape(cs).len() + 1);
    assert forall|j: int| 0 <= j < esc_char(cs[k]).len() implies s[cur + j] == esc_char(
        cs[k],
    )[j] by {
        assert(whole[cur - p + j] == esc_char(cs[k])[j]);
        assert(s[cur + j] == whole[cur - p + j]);
    }
}

/// One scan step keeps the invariant: if the decoded character is right
/// and the cursor advances by the escape's length, the prefix grows by
/// one content character.
proof fn scan_step_ok(s: Seq<char>, p: int, k: int, cur: int, decoded: char, step: int)
    requires
        k >= 0,
        forall|cs: Seq<char>| #[trigger]
            strmatch_at(s, p, cs) ==> k < cs.len() && cur == p + escape(cs.take(k)).len(),
        forall|cs: Seq<char>| #[trigger]
            strmatch_at(s, p, cs) ==> cs[k] == decoded && esc_char(cs[k]).len() == step,
    ensures
        forall|cs: Seq<char>| #[trigger]
            strmatch_at(s, p, cs) ==> k + 1 <= cs.len() && cs.take(k + 1) == cs.take(k).push(
                decoded,
            ) && cur + step == p + escape(cs.take(k + 1)).len(),
{
    assert forall|cs: Seq<char>| #[trigger] strmatch_at(s, p, cs) implies k + 1 <= cs.len()
        && cs.take(k + 1) == cs.take(k).push(decoded) && cur + step == p + escape(
        cs.take(k + 1),
    ).len() by {
        assert(cs.take(k + 1) =~= cs.take(k).push(cs[k]));
        lemma_escape_push(cs.take(k), cs[k]);
    }
}

/// In a matched scan at least the closing quote remains, so the cursor
/// is still inside the text; used to refute a match where the input has
/// run out.
proof fn scan_blocked(s: Seq<char>, p: int, cs: Seq<char>, k: int, cur: int)
    requires
        0 <= p,
        strmatch_at(s, p, cs),
        0 <= k <= cs.len(),
        cur == p + escape(cs.take(k)).len(),
    ensures
        cur < s.len(),
{
    scan_at_char(s, p, cs, k, cur);
}

/// Whether the 25-character text of the timestamp `t` sits at `p`.
pub open spec fn tsmatch_at(s: Seq<char>, p: int, t: Timestamp) -> bool {
    p + 25 <= s.len() && s.subrange(p, p + 25) == ts_text(t)
}

/// The pieces of a timestamp's text, at their fixed offsets.
proof fn lemma_ts_text_shape(t: Timestamp)
    ensures
        ts_text(t).len() == 25,
        ts_text(t).subrange(0, 4) == dec_digits(t.year as int, 4),
        ts_text(t)[4] == '-',
        ts_text(t).subrange(5, 7) == dec_digits(t.month as int, 2),
        ts_text(t)[7] == '-',
        ts_text(t).subrange(8, 10) == dec_digits(t.day as int, 2),
        ts_text(t)[10] == 'T',
        ts_text(t).subrange(11, 13) == dec_digits(t.hour as int, 2),
        ts_text(t)[13] == ':',
        ts_text(t).subrange(14, 16) == dec_digits(t.minute as int, 2),
        ts_text(t)[16] == ':',
        ts_text(t).subrange(17, 19) == dec_digits(t.second as int, 2),
        ts_text(t)[19] == (if t.off_neg {
            '-'
        } else {
            '+'
        }),
        ts_text(t).subrange(20, 22) == dec_digits(t.off_hour as int, 2),
        ts_text(t)[22] == ':',
        ts_text(t).subrange(23, 25) == dec_digits(t.off_min as int, 2),
{
    lemma_dec_digits_len(t.year as int, 4);
    lemma_dec_digits_len(t.month as int, 2);
    lemma_dec_digits_len(t.day as int, 2);
    lemma_dec_digits_len(t.hour as int, 2);
    lemma_dec_digits_len(t.minute as int, 2);
    lemma_dec_digits_len(t.second as int, 2);
    lemma_dec_digits_len(t.off_hour as int, 2);
    lemma_dec_digits_len(t.off_min as int, 2);
    assert(ts_text(t).subrange(0, 4) =~= dec_digits(t.year as int, 4));
    assert(ts_text(t).subrange(5, 7) =~= dec_digits(t.month as int, 2));
    assert(ts_text(t).subrange(8, 10) =~= dec_digits(t.day as int, 2));
    assert(ts_text(t).subrange(11, 13) =~= dec_digits(t.hour as int, 2));
    assert(ts_text(t).subrange(14, 16) =~= dec_digits(t.minute as int, 2));
    assert(ts_text(t).subrange(17, 19) =~= dec_digits(t.second as int, 2));
    assert(ts_text(t).subrange(20, 22) =~= dec_digits(t.off_hour as int, 2));
    assert(ts_text(t).subrange(23, 25) =~= dec_digits(t.off_min as int, 2));
}

/// The fixed-width rendering always has its width.
proof fn lemma_dec_digits_len(n: int, w: nat)
    ensures
        dec_digits(n, w).len() == w,
    decreases w,
{
    if w > 0 {
        lemma_dec_digits_len(n / 10, (w - 1) as nat);
    }
}

/// Reads a one-character literal; used for the fixed separators.
fn expect_char(s: &str, p: usize, c: char) -> (r: bool)
    requires
        p <= s@.len(),
    ensures
        r <==> (p < s@.len() && s@[p as int] == c),
{
    if p < s.unicode_len() {
        s.get_char(p) == c
    } else {
        false
    }
}

/// Parses the 25-character timestamp text at `p`, checking the calendar
/// ranges. Whenever the text of a well-formed timestamp sits at `p`, the
/// parse succeeds and returns exactly that timestamp.
fn parse_ts(s: &str, p: usize) -> (r: Option<(Timestamp, usize)>)
    requires
        p <= s@.len(),
    ensures
        match r {
            Some((t, p2)) => p < p2 <= s@.len(),
            None => true,
        },
        forall|t: Timestamp|
            t.wf() && #[trigger] tsmatch_at(s@, p as int, t) ==> match r {
                Some((t2, p2)) => t2 == t && p2 == p + 25,
                None => false,
            },
{
    let slen = s.unicode_len();
    proof {
        assert forall|t: Timestamp| t.wf() && #[trigger]
            tsmatch_at(s@, p as int, t) implies ts_pieces_at(s@, p as int, t) by {
            lemma_ts_text_shape(t);
            lemma_ts_fields_read(s@, p as int, t);
        }
    }
    if slen - p < 25 {
        return None;
    }
    let year = match parse_digits(s, p, 4) {
        Some(n) => n,
        None => { return None },
    };
    if !expect_char(s, p + 4, '-') {
        return None;
    }
    let month = match parse_digits(s, p + 5, 2) {
        Some(n) => n,
        None => { return None },
    };
    if !expect_char(s, p + 7, '-') {
        return None;
    }
    let day = match parse_digits(s, p + 8, 2) {
        Some(n) => n,
        None => { return None },
    };
    if !expect_char(s, p + 10, 'T') {
        return None;
    }
    let hour = match parse_digits(s, p + 11, 2) {
        Some(n) => n,
        None => { return None },
    };
    if !expect_char(s, p + 13, ':') {
        return None;
    }
    let minute = match parse_digits(s, p + 14, 2) {
        Some(n) => n,
        None => { return None },
    };
    if !expect_char(s, p + 16, ':') {
        return None;
    }
    let second = match parse_digits(s, p + 17, 2) {
        Some(n) => n,
        None => { return None },
    };
    let off_neg: bool;
    if expect_char(s, p + 19, '+') {
        off_neg = false;
    } else if expect_char(s, p + 19, '-') {
        off_neg = true;
    } else {
        return None;
    }
    let off_hour = match parse_digits(s, p + 20, 2) {
        Some(n) => n,
        None => { return None },
    };
    if !expect_char(s, p + 22, ':') {
        return None;
    }
    let off_min = match parse_digits(s, p + 23, 2) {
        Some(n) => n,
        None => { return None },
    };
    if !(year <= 9999 && 1 <= month && month <= 12 && 1 <= day && day <= 31 && hour < 24 && minute
        < 60 && second < 60 && off_hour < 24 && off_min < 60) {
        return None;
    }
    let t2 = Timestamp {
        year: year as u16,
        month: month as u8,
        day: day as u8,
        hour: hour as u8,
        minute: minute as u8,
        second: second as u8,
        off_neg,
        off_hour: off_hour as u8,
        off_min: off_min as u8,
    };
    Some((t2, p + 25))
}

/// What a matched timestamp forces at each fixed offset: the digit
/// values, the separators, and the sign.
pub open spec fn ts_pieces_at(s: Seq<char>, p: int, t: Timestamp) -> bool {
    p + 25 <= s.len() && digits_at(s, p, 4, t.year as int) && s[p + 4] == '-' && digits_at(
        s,
        p + 5,
        2,
        t.month as int,
    ) && s[p + 7] == '-' && digits_at(s, p + 8, 2, t.day as int) && s[p + 10] == 'T' && digits_at(
        s,
        p + 11,
        2,
        t.hour as int,
    ) && s[p + 13] == ':' && digits_at(s, p + 14, 2, t.minute as int) && s[p + 16] == ':'
        && digits_at(s, p + 17, 2, t.second as int) && s[p + 19] == (if t.off_neg {
        '-'
    } else {
        '+'
    }) && digits_at(s, p + 20, 2, t.off_hour as int) && s[p + 22] == ':' && digits_at(
        s,
        p + 23,
        2,
        t.off_min as int,
    )
}

/// `w` decimal digits denoting `n` sit at `p`.
pub open spec fn digits_at(s: Seq<char>, p: int, w: nat, n: int) -> bool {
    p + w <= s.len() && (forall|j: int| p <= j < p + w ==> is_dec_digit(#[trigger] s[j]))
        && digits_val(s.subrange(p, p + w)) == n
}

/// Reads the matched fields out of a well-formed timestamp's text.
#[verifier::rlimit(60)]
proof fn lemma_ts_fields_read(s: Seq<char>, p: int, t: Timestamp)
    requires
        0 <= p,
        t.wf(),
        tsmatch_at(s, p, t),
    ensures
        ts_pieces_at(s, p, t),
{
    lemma_ts_text_shape(t);
    let whole = s.subrange(p, p + 25);
    reveal_with_fuel(pow10, 5);
    assert(pow10(2) == 100 && pow10(4) == 10000);
    lemma_dec_digits_val(t.year as int, 4);
    lemma_dec_digits_val(t.month as int, 2);
    lemma_dec_digits_val(t.day as int, 2);
    lemma_dec_digits_val(t.hour as int, 2);
    lemma_dec_digits_val(t.minute as int, 2);
    lemma_dec_digits_val(t.second as int, 2);
    lemma_dec_digits_val(t.off_hour as int, 2);
    lemma_dec_digits_val(t.off_min as int, 2);
    assert(s.subrange(p, p + 4) =~= whole.subrange(0, 4));
    assert(s.subrange(p + 5, p + 7) =~= whole.subrange(5, 7));
    assert(s.subrange(p + 8, p + 10) =~= whole.subrange(8, 10));
    assert(s.subrange(p + 11, p + 13) =~= whole.subrange(11, 13));
    assert(s.subrange(p + 14, p + 16) =~= whole.subrange(14, 16));
    assert(s.subrange(p + 17, p + 19) =~= whole.subrange(17, 19));
    assert(s.subrange(p + 20, p + 22) =~= whole.subrange(20, 22));
    assert(s.subrange(p + 23, p + 25) =~= whole.subrange(23, 25));
    assert forall|j: int| p <= j < p + 4 implies is_dec_digit(#[trigger] s[j]) by {
        assert(s[j] == whole.subrange(0, 4)[j - p]);
    }
    assert forall|j: int| p + 5 <= j < p + 7 implies is_dec_digit(#[trigger] s[j]) by {
        assert(s[j] == whole.subrange(5, 7)[j - p - 5]);
    }
    assert forall|j: int| p + 8 <= j < p + 10 implies is_dec_digit(#[trigger] s[j]) by {
        assert(s[j] == whole.subrange(8, 10)[j - p - 8]);
    }
    assert forall|j: int| p + 11 <= j < p + 13 implies is_dec_digit(#[trigger] s[j]) by {
        assert(s[j] == whole.subrange(11, 13)[j - p - 11]);
    }
    assert forall|j: int| p + 14 <= j < p + 16 implies is_dec_digit(#[trigger] s[j]) by {
        assert(s[j] == whole.subrange(14, 16)[j - p - 14]);
    }
    assert forall|j: int| p + 17 <= j < p + 19 implies is_dec_digit(#[trigger] s[j]) by {
        assert(s[j] == whole.subrange(17, 19)[j - p - 17]);
    }
    assert forall|j: int| p + 20 <= j < p + 22 implies is_dec_digit(#[trigger] s[j]) by {
        assert(s[j] == whole.subrange(20, 22)[j - p - 20]);
    }
    assert forall|j: int| p + 23 <= j < p + 25 implies is_dec_digit(#[trigger] s[j]) by {
        assert(s[j] == whole.subrange(23, 25)[j - p - 23]);
    }
    assert(s[p + 4] == whole[4]);
    assert(s[p + 7] == whole[7]);
    assert(s[p + 10] == whole[10]);
    assert(s[p + 13] == whole[13]);
    assert(s[p + 16] == whole[16]);
    assert(s[p + 19] == whole[19]);
    assert(s[p + 22] == whole[22]);
}

/// At a `\u` escape the four hex digits of a canonical control-character
/// escape are present, lowercase, and denote a value below 0x20; used to
/// refute a match where they are not.
proof fn scan_u_contradiction(s: Seq<char>, p: int, k: int, cur: int)
    requires
        0 <= p,
        k >= 0,
        forall|cs: Seq<char>| #[trigger]
            strmatch_at(s, p, cs) ==> k <= cs.len() && cur == p + escape(cs.take(k)).len(),
        cur + 1 < s.len(),
        s[cur] == '\\',
        s[cur + 1] == 'u',
        !(exists|v2: int, v3: int|
            0 <= v2 < 16 && 0 <= v3 < 16 && cur + 6 <= s.len() && hex_val(s[cur + 4]) == Some(v2)
                && hex_val(s[cur + 5]) == Some(v3) && v2 * 16 + v3 < 0x20),
    ensures
        forall|cs: Seq<char>| !strmatch_at(s, p, cs),
{
    assert forall|cs: Seq<char>| !strmatch_at(s, p, cs) by {
        if strmatch_at(s, p, cs) {
            scan_at_char(s, p, cs, k, cur);
            if k < cs.len() {
                lemma_esc_char_shape(cs[k]);
                scan_esc_tail(s, p, cs, k, cur);
                let cc = cs[k];
                assert(esc_char(cc)[0] == '\\');
                assert(esc_char(cc)[1] == 'u');
                assert((cc as u32) < 0x20 && cc != '\n' && cc != '\r' && cc != '\t' && cc != '"'
                    && cc != '\\');
                let v2 = cc as u32 as int / 16;
                let v3 = cc as u32 as int % 16;
                lemma_hex_digit_char_val(v2);
                lemma_hex_digit_char_val(v3);
                assert(s[cur + 4] == hex_digit_char(v2));
                assert(s[cur + 5] == hex_digit_char(v3));
                assert(v2 * 16 + v3 == cc as u32) by (nonlinear_arith)
                    requires
                        v2 == cc as u32 as int / 16,
                        v3 == cc as u32 as int % 16,
                ;
            }
        }
    }
}

/// Whether the block of entry `e` sits at `p`.
pub open spec fn entmatch_at(s: Seq<char>, p: int, e: EntrySnap) -> bool {
    p + entry_block(e).len() <= s.len() && s.subrange(p, p + entry_block(e).len()) == entry_block(e)
}

/// The lengths and leading characters of the fixed pieces of the
/// document, and the split of the middle piece at its opening quote.
proof fn lemma_lit_shapes()
    ensures
        "\n    {\n      \"content\": \""@.len() == 25,
        ("\n    {\n      \"content\": \""@)[0] == '\n',
        "\",\n      \"timestamp\": \""@.len() == 23,
        "\",\n      \"timestamp\": \""@ == seq!['"'] + ",\n      \"timestamp\": \""@,
        ",\n      \"timestamp\": \""@.len() == 22,
        "\"\n    }"@.len() == 7,
        "{\n  \"items\": ["@.len() == 14,
        "]\n}"@.len() == 3,
        ("]\n}"@)[0] == ']',
        "\n  ]\n}"@.len() == 6,
        ("\n  ]\n}"@)[0] == '\n',
        ","@.len() == 1,
        (","@)[0] == ',',
{
    reveal_strlit("\n    {\n      \"content\": \"");
    reveal_strlit("\",\n      \"timestamp\": \"");
    reveal_strlit(",\n      \"timestamp\": \"");
    reveal_strlit("\"\n    }");
    reveal_strlit("{\n  \"items\": [");
    reveal_strlit("]\n}");
    reveal_strlit("\n  ]\n}");
    reveal_strlit(",");
    assert("\",\n      \"timestamp\": \""@ =~= seq!['"'] + ",\n      \"timestamp\": \""@);
}

/// A piece of a matched whole is matched at its offset.
proof fn lemma_part_at(s: Seq<char>, p: int, whole: Seq<char>, off: int, part: Seq<char>)
    requires
        0 <= p,
        p + whole.len() <= s.len(),
        s.subrange(p, p + whole.len()) == whole,
        0 <= off,
        off + part.len() <= whole.len(),
        whole.subrange(off, off + part.len()) == part,
    ensures
        p + off + part.len() <= s.len(),
        s.subrange(p + off, p + off + part.len()) == part,
{
    assert forall|j: int| 0 <= j < part.len() implies s.subrange(p + off, p + off + part.len())[j]
        == part[j] by {
        assert(s[p + off + j] == s.subrange(p, p + whole.len())[off + j]);
        assert(whole[off + j] == whole.subrange(off, off + part.len())[j]);
    }
    assert(s.subrange(p + off, p + off + part.len()) =~= part);
}

/// Parses one entry block at `p`. Whenever the block of an entry with a
/// well-formed timestamp sits at `p`, the parse succeeds and returns
/// exactly that entry.
fn parse_entry(s: &str, p: usize) -> (r: Option<(Entry, usize)>)
    requires
        p <= s@.len(),
    ensures
        match r {
            Some((e2, p2)) => p < p2 <= s@.len(),
            None => true,
        },
        forall|e: EntrySnap|
            e.timestamp.wf() && #[trigger] entmatch_at(s@, p as int, e) ==> match r {
                Some((e2, p2)) => e2@ == e && p2 == p + entry_block(e).len(),
                None => false,
            },
{
    proof {
        lemma_lit_shapes();
        assert forall|e: EntrySnap| #[trigger]
            entmatch_at(s@, p as int, e) implies lit_at(
            s@,
            p as int,
            "\n    {\n      \"content\": \""@,
        ) by {
            let block = entry_block(e);
            assert(block.subrange(0, 25) =~= "\n    {\n      \"content\": \""@);
            lemma_part_at(s@, p as int, block, 0, "\n    {\n      \"content\": \""@);
        }
    }
    let p1 = match expect_lit(s, p, "\n    {\n      \"content\": \"") {
        Some(x) => x,
        None => { return None },
    };
    proof {
        assert forall|e: EntrySnap| #[trigger]
            entmatch_at(s@, p as int, e) implies strmatch_at(s@, p1 as int, e.content) by {
            let block = entry_block(e);
            let esc = escape(e.content);
            assert(block.subrange(25, 25 + esc.len() as int + 1) =~= esc.push('"'));
            lemma_part_at(s@, p as int, block, 25, esc.push('"'));
        }
    }
    let (content, p2) = match scan_string(s, p1) {
        Some(x) => x,
        None => { return None },
    };
    proof {
        assert forall|e: EntrySnap| #[trigger]
            entmatch_at(s@, p as int, e) implies lit_at(
            s@,
            p2 as int,
            ",\n      \"timestamp\": \""@,
        ) by {
            let block = entry_block(e);
            let esc = escape(e.content);
            let off: int = 25 + esc.len() as int + 1;
            assert(block.subrange(off as int, off + 22) =~= ",\n      \"timestamp\": \""@);
            lemma_part_at(s@, p as int, block, off as int, ",\n      \"timestamp\": \""@);
        }
    }
    let p3 = match expect_lit(s, p2, ",\n      \"timestamp\": \"") {
        Some(x) => x,
        None => { return None },
    };
    proof {
        assert forall|e: EntrySnap|
            e.timestamp.wf() && #[trigger] entmatch_at(s@, p as int, e) implies tsmatch_at(
            s@,
            p3 as int,
            e.timestamp,
        ) by {
            let block = entry_block(e);
            let esc = escape(e.content);
            let off: int = 25 + esc.len() as int + 23;
            lemma_ts_text_shape(e.timestamp);
            assert(block.subrange(off, off + 25) =~= ts_text(e.timestamp));
            lemma_part_at(s@, p as int, block, off, ts_text(e.timestamp));
        }
    }
    let (ts, p4) = match parse_ts(s, p3) {
        Some(x) => x,
        None => { return None },
    };
    proof {
        assert forall|e: EntrySnap|
            e.timestamp.wf() && #[trigger] entmatch_at(s@, p as int, e) implies lit_at(
            s@,
            p4 as int,
            "\"\n    }"@,
        ) by {
            let block = entry_block(e);
            let esc = escape(e.content);
            let off: int = 25 + esc.len() as int + 23 + 25;
            lemma_ts_text_shape(e.timestamp);
            assert(block.subrange(off, off + 7) =~= "\"\n    }"@);
            lemma_part_at(s@, p as int, block, off, "\"\n    }"@);
        }
    }
    let p5 = match expect_lit(s, p4, "\"\n    }") {
        Some(x) => x,
        None => { return None },
    };
    let entry = Entry { content, timestamp: ts };
    proof {
        assert forall|e: EntrySnap|
            e.timestamp.wf() && #[trigger] entmatch_at(s@, p as int, e) implies entry@ == e && p5
            == p + entry_block(e).len() by {
            lemma_ts_text_shape(e.timestamp);
            assert(entry@.content =~= e.content);
        }
    }
    Some((entry, p5))
}

/// Parses a whole document leniently: whenever the text is the canonical
/// saving of a history with well-formed timestamps, the parse succeeds
/// and returns exactly that history.
fn parse_doc(s: &str) -> (r: Option<History>)
    ensures
        forall|hv: Seq<EntrySnap>|
            entries_ts_wf(hv) && s@ == #[trigger] spec_save(hv) ==> match r {
                Some(h) => h@ == hv,
                None => false,
            },
{
    proof {
        lemma_lit_shapes();
        assert forall|hv: Seq<EntrySnap>|
            entries_ts_wf(hv) && s@ == #[trigger] spec_save(hv) implies lit_at(
            s@,
            0,
            "{\n  \"items\": ["@,
        ) by {
            assert(s@.subrange(0, 14) =~= "{\n  \"items\": ["@);
        }
    }
    let slen = s.unicode_len();
    let p1 = match expect_lit(s, 0, "{\n  \"items\": [") {
        Some(x) => x,
        None => { return None },
    };
    if p1 >= slen {
        return None;
    }
    let c0 = s.get_char(p1);
    if c0 == ']' {
        let h = History::new();
        proof {
            assert forall|hv: Seq<EntrySnap>|
                entries_ts_wf(hv) && s@ == #[trigger] spec_save(hv) implies h@ == hv by {
                if hv.len() > 0 {
                    assert(s@[14] == entry_block(hv[0])[0]);
                    assert(entry_block(hv[0])[0] == '\n');
                }
                assert(h@ =~= hv);
            }
        }
        return Some(h);
    }
    proof {
        assert forall|hv: Seq<EntrySnap>|
            entries_ts_wf(hv) && s@ == #[trigger] spec_save(hv) implies hv.len() > 0
            && entmatch_at(s@, p1 as int, hv[0]) && hv[0].timestamp.wf() by {
            if hv.len() == 0 {
                assert(s@[14] == ("]\n}"@)[0]);
            }
            let block = entry_block(hv[0]);
            assert(s@.subrange(14, 14 + block.len() as int) =~= block);
        }
    }
    let (e0, first_end) = match parse_entry(s, p1) {
        Some(x) => x,
        None => { return None },
    };
    let mut items: Vec<Entry> = Vec::new();
    items.push(e0);
    let mut cur = first_end;
    proof {
        assert forall|hv: Seq<EntrySnap>|
            entries_ts_wf(hv) && s@ == #[trigger] spec_save(hv) implies items@.len() <= hv.len()
            && crate::history::entries_view(items@) == hv.take(items@.len() as int) && s@.subrange(
            cur as int,
            s@.len() as int,
        ) == tail_text(hv, items@.len() as int) by {
            assert(crate::history::entries_view(items@) =~= hv.take(1));
            assert(s@.subrange(cur as int, s@.len() as int) =~= tail_text(hv, 1));
        }
    }
    loop
        invariant
            slen == s@.len(),
            cur <= slen,
            items@.len() >= 1,
            forall|hv: Seq<EntrySnap>|
                entries_ts_wf(hv) && s@ == #[trigger] spec_save(hv) ==> items@.len() <= hv.len()
                    && crate::history::entries_view(items@) == hv.take(items@.len() as int)
                    && s@.subrange(cur as int, s@.len() as int) == tail_text(
                    hv,
                    items@.len() as int,
                ),
        decreases slen - cur,
    {
        let ghost k = items@.len() as int;
        if cur >= slen {
            proof {
                assert forall|hv: Seq<EntrySnap>|
                    entries_ts_wf(hv) && s@ == #[trigger] spec_save(hv) implies false by {
                    lemma_lit_shapes();
                    assert(tail_text(hv, k).len() >= 1);
                }
            }
            return None;
        }
        let c = s.get_char(cur);
        if c == ',' {
            proof {
                lemma_lit_shapes();
                assert forall|hv: Seq<EntrySnap>|
                    entries_ts_wf(hv) && s@ == #[trigger] spec_save(hv) implies k < hv.len()
                    && entmatch_at(s@, cur + 1, hv[k]) && hv[k].timestamp.wf() by {
                    if k == hv.len() {
                        assert(s@[cur as int] == ("\n  ]\n}"@)[0]);
                    }
                    let block = entry_block(hv[k]);
                    assert(s@[cur as int] == tail_text(hv, k)[0]);
                    assert forall|j: int| 0 <= j < block.len() implies s@.subrange(
                        cur + 1,
                        cur + 1 + block.len(),
                    )[j] == block[j] by {
                        assert(s@[cur + 1 + j] == tail_text(hv, k)[1 + j]);
                    }
                    assert(s@.subrange(cur + 1, cur + 1 + block.len()) =~= block);
                }
            }
            let (e, p2) = match parse_entry(s, cur + 1) {
                Some(x) => x,
                None => { return None },
            };
            items.push(e);
            proof {
                assert forall|hv: Seq<EntrySnap>|
                    entries_ts_wf(hv) && s@ == #[trigger] spec_save(hv) implies items@.len()
                    <= hv.len() && crate::history::entries_view(items@) == hv.take(
                    items@.len() as int,
                ) && s@.subrange(p2 as int, s@.len() as int) == tail_text(
                    hv,
                    items@.len() as int,
                ) by {
                    let block = entry_block(hv[k]);
                    assert(crate::history::entries_view(items@) =~= hv.take(k + 1));
                    assert forall|j: int| 0 <= j < tail_text(hv, k + 1).len() implies s@.subrange(
                        p2 as int,
                        s@.len() as int,
                    )[j] == tail_text(hv, k + 1)[j] by {
                        assert(s@[p2 + j] == tail_text(hv, k)[1 + block.len() + j]);
                    }
                    assert(s@.subrange(p2 as int, s@.len() as int) =~= tail_text(hv, k + 1));
                }
            }
            cur = p2;
        } else {
            let h = History { items };
            proof {
                assert forall|hv: Seq<EntrySnap>|
                    entries_ts_wf(hv) && s@ == #[trigger] spec_save(hv) implies h@ == hv by {
                    lemma_lit_shapes();
                    if k < hv.len() {
                        assert(s@[cur as int] == tail_text(hv, k)[0]);
                        assert(tail_text(hv, k)[0] == (","@)[0]);
                    }
                    assert(hv.take(k) =~= hv);
                }
            }
            return Some(h);
        }
    }
}

/// Parses the history file's text: the canonical saving of any history
/// with well-formed timestamps is read back exactly; any other text —
/// corruption included — yields an empty history, never an error. A
/// non-empty result is always the parse of its own canonical saving.
pub fn parse_history(s: &str) -> (h: History)
    ensures
        forall|hv: Seq<EntrySnap>|
            entries_ts_wf(hv) && s@ == #[trigger] spec_save(hv) ==> h@ == hv,
        h@.len() > 0 ==> s@ == spec_save(h@),
{
    match parse_doc(s) {
        None => History::new(),
        Some(h2) => {
            let out = save_history(&h2);
            if str_eq(out.as_str(), s) {
                h2
            } else {
                History::new()
            }
        },
    }
}

/// Loads a history from the file's text, or from nothing when the file
/// is missing: a missing file and unreadable text both give an empty
/// history.
pub fn load_history(text: Option<&str>) -> (h: History)
    ensures
        match text {
            None => h@ == Seq::<EntrySnap>::empty(),
            Some(s) => (forall|hv: Seq<EntrySnap>|
                entries_ts_wf(hv) && s@ == #[trigger] spec_save(hv) ==> h@ == hv) && (h@.len() > 0
                ==> s@ == spec_save(h@)),
        },
{
    match text {
        None => History::new(),
        Some(s) => parse_history(s),
    }
}

} // verus!
