//! The decisions of the logger thread.
//!
//! The thread waits on the channel; for each message it either writes it or
//! drops it, and when the channel closes it stops, possibly after
//! announcing so.  If the context table became unusable it reports that
//! (when a message arrived) and stops, and it stops as soon as a write
//! fails.  After each message it reports messages lost to a full channel
//! (see `notices::overflow_notice`).
use crate::context::{context_accepts, exit_announced, ContextLevels};
use vstd::prelude::*;

verus! {

/// What the logger thread does next.
#[derive(PartialEq, Eq, Structural, Clone, Copy, Debug)]
pub enum Step {
    /// Write the received message.
    Write,
    /// Drop the received message.
    Skip,
    /// Write the shutdown notice, then stop.
    AnnounceAndStop,
    /// Write the notice that the context table is unusable, then stop.
    ReportPoisonAndStop,
    /// Stop without a word.
    Stop,
    /// Go on with the next message.
    Continue,
}

/// The step after receiving a message at `level` from context `ctx`
/// (`Some`), or after finding the channel closed (`None`).  `levels` is
/// `None` when the context table could not be read (its lock is poisoned).
pub fn next_step(
    levels: Option<&ContextLevels>,
    global_level: u8,
    received: Option<(u8, &str)>,
) -> (s: Step)
    ensures
        match levels {
            None => s == if received is Some {
                Step::ReportPoisonAndStop
            } else {
                Step::Stop
            },
            Some(table) => match received {
                Some((level, ctx)) => s == if context_accepts(table@, level, ctx@) {
                    Step::Write
                } else {
                    Step::Skip
                },
                None => s == if exit_announced(table@, global_level) {
                    Step::AnnounceAndStop
                } else {
                    Step::Stop
                },
            },
        },
{
    match levels {
        None => match received {
            Some(_) => Step::ReportPoisonAndStop,
            None => Step::Stop,
        },
        Some(table) => match received {
            Some((level, ctx)) => {
                if table.accepts(level, ctx) {
                    Step::Write
                } else {
                    Step::Skip
                }
            },
            None => {
                if table.announces_exit(global_level) {
                    Step::AnnounceAndStop
                } else {
                    Step::Stop
                }
            },
        },
    }
}

/// The step after writing a message or a notice: stop once a write failed.
pub fn after_write(written: bool) -> (s: Step)
    ensures
        s == if written {
            Step::Continue
        } else {
            Step::Stop
        },
{
    if written {
        Step::Continue
    } else {
        Step::Stop
    }
}

} // verus!
