//! Log levels and the global level filter.
//!
//! A message carries an 8-bit priority level; lower numbers are more
//! important.  A message passes a threshold when its level is at most the
//! threshold, so an `error` (level 0) always passes.
use vstd::prelude::*;

verus! {

/// Capacity of the channel between loggers and the logger thread.
pub const CHANNEL_SIZE: usize = 30_000;

/// The global level of a freshly spawned logger, and the level a newly
/// registered context gets.
pub const DEFAULT_LEVEL: u8 = 128;

/// The level of the notice the logger thread writes when it shuts down.
pub const LOGGER_QUIT_LEVEL: u8 = 196;

/// Level used by `trace`.
pub const TRACE_LEVEL: u8 = 255;

/// Level used by `debug`.
pub const DEBUG_LEVEL: u8 = 192;

/// Level used by `info`.
pub const INFO_LEVEL: u8 = 128;

/// Level used by `warn`.
pub const WARN_LEVEL: u8 = 64;

/// Level used by `error`.
pub const ERROR_LEVEL: u8 = 0;

/// A message at `level` is let through by a filter set to `threshold`.
pub open spec fn passes(level: u8, threshold: u8) -> bool {
    level <= threshold
}

/// Whether a message at `level` gets past the global log level `global_level`.
pub fn passes_log_level(level: u8, global_level: u8) -> (r: bool)
    ensures
        r == passes(level, global_level),
        r == (level <= global_level),
{
    level <= global_level
}

/// The filter is the numeric order on levels: a message passes a threshold
/// exactly when its level is at most the threshold; one level above the
/// threshold is already filtered.
pub proof fn lemma_passes_is_level_order(level: u8, threshold: u8)
    ensures
        passes(level, threshold) <==> level <= threshold,
        level > threshold ==> !passes(level, threshold),
        !passes(INFO_LEVEL, WARN_LEVEL),
        !passes(WARN_LEVEL, ERROR_LEVEL),
{
}

/// An `error` message passes every threshold, so it can never be filtered.
pub proof fn lemma_error_never_filtered(threshold: u8)
    ensures
        passes(ERROR_LEVEL, threshold),
{
}

/// Whatever lets a message through also lets through every more important message.
pub proof fn lemma_passes_monotone(level: u8, other: u8, threshold: u8)
    requires
        passes(level, threshold),
        other <= level,
    ensures
        passes(other, threshold),
{
}

/// Raising the threshold never filters out a message that passed before.
pub proof fn lemma_passes_threshold_monotone(level: u8, threshold: u8, higher: u8)
    requires
        passes(level, threshold),
        threshold <= higher,
    ensures
        passes(level, higher),
{
}

/// Under the default level, `info`, `warn` and `error` pass while `debug` and
/// `trace` are filtered out.
pub proof fn lemma_default_level_filter()
    ensures
        passes(ERROR_LEVEL, DEFAULT_LEVEL),
        passes(WARN_LEVEL, DEFAULT_LEVEL),
        passes(INFO_LEVEL, DEFAULT_LEVEL),
        !passes(DEBUG_LEVEL, DEFAULT_LEVEL),
        !passes(TRACE_LEVEL, DEFAULT_LEVEL),
{
}

/// At the highest threshold (255) every message passes; at the lowest (0)
/// only `error` does.
pub proof fn lemma_extreme_thresholds(level: u8)
    ensures
        passes(level, TRACE_LEVEL),
        passes(level, 0) <==> level == ERROR_LEVEL,
{
}

/// The colors the logger uses when colorizing output.
#[derive(PartialEq, Eq, Structural, Clone, Copy, Debug)]
pub enum Color {
    Red,
    Yellow,
    Green,
    Cyan,
    Magenta,
    Blue,
    BrightBlue,
    BrightMagenta,
    BrightGreen,
    BrightYellow,
}

/// The color a level is shown in: red below 64, yellow below 128, green
/// below 192, cyan below 255 and magenta at 255.
pub open spec fn level_color_spec(level: u8) -> Color {
    if level < 64 {
        Color::Red
    } else if level < 128 {
        Color::Yellow
    } else if level < 192 {
        Color::Green
    } else if level < 255 {
        Color::Cyan
    } else {
        Color::Magenta
    }
}

/// The color a level is shown in.
pub fn level_color(level: u8) -> (c: Color)
    ensures
        c == level_color_spec(level),
{
    if level < 64 {
        Color::Red
    } else if level < 128 {
        Color::Yellow
    } else if level < 192 {
        Color::Green
    } else if level < 255 {
        Color::Cyan
    } else {
        Color::Magenta
    }
}

} // verus!
