//! The decision step of the clipboard-polling daemon. The loop itself —
//! sampling the clipboard, writing the history file, sleeping — lives
//! outside; each tick hands the sampled clipboard text (or none, when the
//! read failed) to `tick`, which decides what changes and whether the
//! history must be persisted.
use vstd::prelude::*;

use crate::history::{add_spec, History, Timestamp};
use crate::text::str_eq;

verus! {

/// The daemon's state between ticks: the live history and the last
/// clipboard content it observed.
pub struct DaemonState {
    pub history: History,
    pub last_content: String,
}

impl DaemonState {
    /// A fresh daemon state around a loaded history; nothing observed yet.
    pub fn new(history: History) -> (s: DaemonState)
        ensures
            s.history@ == history@,
            s.last_content@ == Seq::<char>::empty(),
    {
        DaemonState { history, last_content: String::new() }
    }

    /// One tick: a failed read or an unchanged or empty sample changes
    /// nothing; new non-empty content is inserted (under the store's own
    /// blank and head-dedup policy), becomes the last observed value, and
    /// asks the caller to persist.
    pub fn tick(&mut self, sample: Option<String>) -> (save: bool)
        ensures
            ({
                let unchanged = !save && final(self).history@ == old(self).history@
                    && final(self).last_content@ == old(self).last_content@;
                match sample {
                    None => unchanged,
                    Some(c) => {
                        if c@.len() == 0 || c@ == old(self).last_content@ {
                            unchanged
                        } else {
                            save && final(self).last_content@ == c@ && exists|ts: Timestamp|
                                ts.wf() && final(self).history@ == #[trigger] add_spec(
                                    old(self).history@,
                                    c@,
                                    ts,
                                )
                        }
                    },
                }
            }),
    {
        match sample {
            None => false,
            Some(content) => {
                if content.as_str().is_empty() || str_eq(
                    content.as_str(),
                    self.last_content.as_str(),
                ) {
                    false
                } else {
                    self.history.add_item(content.clone());
                    self.last_content = content;
                    true
                }
            },
        }
    }
}

} // verus!
