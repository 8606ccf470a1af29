//! Fuzzy search over the history: each entry is scored against the query
//! by the skim matching algorithm, and the matching entries are returned
//! in store order with their original positions.
use vstd::prelude::*;

use crate::history::{Entry, EntrySnap, History};

use fuzzy_matcher::FuzzyMatcher;

verus! {

/// Whether the skim fuzzy-matching algorithm, in its default
/// configuration, finds a match of `query` in `content`. The algorithm's
/// scoring is involved; the history only asks about participation.
pub uninterp spec fn skim_match(content: Seq<char>, query: Seq<char>) -> bool;

/// Relies on fuzzy_matcher's `SkimMatcherV2` in its default configuration:
/// whether `fuzzy_match` returns a score depends on the two strings alone,
/// and an empty pattern always matches (the source returns a zero score
/// for it before scoring anything).
#[verifier::external_body]
fn skim_fuzzy_match(content: &str, query: &str) -> (r: Option<i64>)
    ensures
        r is Some <==> skim_match(content@, query@),
        query@.len() == 0 ==> r is Some,
{
    let matcher = fuzzy_matcher::skim::SkimMatcherV2::default();
    matcher.fuzzy_match(content, query)
}

/// The matches of `query` among the first `n` entries, in store order,
/// each with its original position.
pub open spec fn search_spec(items: Seq<EntrySnap>, query: Seq<char>, n: int) -> Seq<
    (int, EntrySnap),
>
    decreases n,
{
    if n <= 0 {
        Seq::empty()
    } else {
        search_spec(items, query, n - 1) + if skim_match(items[n - 1].content, query) {
            seq![(n - 1, items[n - 1])]
        } else {
            Seq::empty()
        }
    }
}

impl History {
    /// The entries fuzzily matching `query`, in store order, with their
    /// original positions. An empty query matches every entry, so then
    /// the whole history comes back in order.
    pub fn search<'a>(&'a self, query: &str) -> (r: Vec<(usize, &'a Entry)>)
        ensures
            ({
                let ss = search_spec(self@, query@, self@.len() as int);
                r@.len() == ss.len() && forall|k: int|
                    0 <= k < ss.len() ==> (#[trigger] r@[k]).0 as int == ss[k].0 && r@[k].1@
                        == ss[k].1
            }),
            query@.len() == 0 ==> r@.len() == self@.len() && forall|k: int|
                0 <= k < self@.len() ==> (#[trigger] r@[k]).0 == k && r@[k].1@ == self@[k],
    {
        let mut out: Vec<(usize, &'a Entry)> = Vec::new();
        let mut i: usize = 0;
        while i < self.items.len()
            invariant
                i <= self.items.len(),
                ({
                    let ss = search_spec(self@, query@, i as int);
                    out@.len() == ss.len() && forall|k: int|
                        0 <= k < ss.len() ==> (#[trigger] out@[k]).0 as int == ss[k].0 && out@[k].1@
                            == ss[k].1
                }),
                query@.len() == 0 ==> out@.len() == i && forall|k: int|
                    0 <= k < i ==> (#[trigger] out@[k]).0 == k && out@[k].1@ == self@[k],
            decreases self.items.len() - i,
        {
            let entry = &self.items[i];
            if skim_fuzzy_match(entry.content.as_str(), query).is_some() {
                out.push((i, entry));
            }
            i += 1;
        }
        out
    }
}

} // verus!
