use crossbeam_channel::bounded;
use fast_logger::context::LOGGER_CONTEXT;
use fast_logger::levels::{
    level_color, passes_log_level, Color, CHANNEL_SIZE, DEBUG_LEVEL, DEFAULT_LEVEL, ERROR_LEVEL,
    INFO_LEVEL, LOGGER_QUIT_LEVEL, TRACE_LEVEL, WARN_LEVEL,
};
use fast_logger::notices::{overflow_notice, quit_notice, POISONED_NOTICE};
use fast_logger::worker::{after_write, next_step, Step};
use fast_logger::{dispatch, do_write_nocolor, ContextLevels, Dispatch};
use std::cell::Cell;

/// Offers a message at `level` to a fresh channel under the given global level,
/// the way the logging calls do, and reports whether it was accepted.
fn offer(global: u8, level: u8) -> bool {
    let (tx, _rx) = bounded::<(u8, &'static str, &'static str)>(CHANNEL_SIZE);
    dispatch(&tx, global, level, "tst", || "Message").accepted()
}

#[test]
fn lib_send_successful_message() {
    assert_eq![true, offer(DEFAULT_LEVEL, INFO_LEVEL)];
}

#[test]
fn lib_trace_is_disabled_by_default() {
    assert_eq![false, offer(DEFAULT_LEVEL, TRACE_LEVEL)];
}

#[test]
fn lib_debug_is_disabled_by_default() {
    assert_eq![false, offer(DEFAULT_LEVEL, DEBUG_LEVEL)];
}

#[test]
fn lib_info_is_enabled_by_default() {
    assert_eq![true, offer(DEFAULT_LEVEL, INFO_LEVEL)];
}

#[test]
fn lib_warn_is_enabled_by_default() {
    assert_eq![true, offer(DEFAULT_LEVEL, WARN_LEVEL)];
}

#[test]
fn lib_error_is_enabled_by_default() {
    assert_eq![true, offer(DEFAULT_LEVEL, ERROR_LEVEL)];
}

#[test]
fn lib_custom_writer() {
    assert_eq![true, offer(DEFAULT_LEVEL, ERROR_LEVEL)];
}

#[test]
fn spawn_void() {
    // The level filter as a void logger starts (global level 0); spawning
    // itself is thread plumbing outside the library.
    assert_eq![true, offer(0, ERROR_LEVEL)];
    assert_eq![false, offer(0, WARN_LEVEL)];
    assert_eq![false, offer(0, INFO_LEVEL)];
    assert_eq![false, offer(0, DEBUG_LEVEL)];
    assert_eq![false, offer(0, TRACE_LEVEL)];
}

#[test]
fn test_spawn_test() {
    // The level filter as a test logger starts (global level 255); spawning
    // itself is thread plumbing outside the library.
    assert_eq![true, offer(255, TRACE_LEVEL)];
    assert_eq![true, offer(255, DEBUG_LEVEL)];
    assert_eq![true, offer(255, INFO_LEVEL)];
    assert_eq![true, offer(255, WARN_LEVEL)];
    assert_eq![true, offer(255, ERROR_LEVEL)];
}

#[test]
fn filtered_message_is_never_built() {
    let (tx, rx) = bounded::<(u8, &'static str, u32)>(4);
    let built = Cell::new(false);
    let d = dispatch(&tx, 10, 11, "ctx", || {
        built.set(true);
        7
    });
    assert![matches!(d, Dispatch::Filtered)];
    assert![!built.get()];
    assert![!d.accepted()];
    assert![!d.overflowed()];
    assert![rx.try_recv().is_err()];
}

#[test]
fn sent_message_reaches_receiver() {
    let (tx, rx) = bounded::<(u8, &'static str, u32)>(4);
    let d = dispatch(&tx, 128, 64, "ctx", || 42);
    assert![matches!(d, Dispatch::Sent(_))];
    assert_eq![(64, "ctx", 42), rx.try_recv().unwrap()];
}

#[test]
fn full_channel_overflows() {
    let (tx, _rx) = bounded::<(u8, &'static str, u32)>(1);
    assert![matches!(dispatch(&tx, 128, 0, "ctx", || 1), Dispatch::Sent(_))];
    let d = dispatch(&tx, 128, 0, "ctx", || 2);
    assert![matches!(d, Dispatch::Full((0, "ctx", 2)))];
    assert![d.overflowed()];
    assert![!d.accepted()];
}

#[test]
fn closed_channel_disconnects() {
    let (tx, rx) = bounded::<(u8, &'static str, u32)>(1);
    drop(rx);
    let d = dispatch(&tx, 128, 7, "ctx", || 1);
    assert![matches!(d, Dispatch::Disconnected((7, "ctx", 1)))];
    assert![!d.overflowed()];
    assert![!d.accepted()];
}

#[test]
fn global_level_comparison() {
    assert![passes_log_level(0, 0)];
    assert![passes_log_level(128, 128)];
    assert![!passes_log_level(129, 128)];
    assert![passes_log_level(255, 255)];
}

#[test]
fn level_colors() {
    assert_eq![Color::Red, level_color(0)];
    assert_eq![Color::Red, level_color(63)];
    assert_eq![Color::Yellow, level_color(64)];
    assert_eq![Color::Yellow, level_color(127)];
    assert_eq![Color::Green, level_color(128)];
    assert_eq![Color::Green, level_color(191)];
    assert_eq![Color::Cyan, level_color(192)];
    assert_eq![Color::Cyan, level_color(254)];
    assert_eq![Color::Magenta, level_color(255)];
}

#[test]
fn initial_context_levels() {
    let levels = ContextLevels::create_context_specific_log_level(Some("tst"));
    assert_eq![Some(LOGGER_QUIT_LEVEL), levels.get("logger")];
    assert_eq![Some(DEFAULT_LEVEL), levels.get("tst")];
    assert_eq![None, levels.get("other")];
    let none = ContextLevels::create_context_specific_log_level(None);
    assert_eq![Some(196), none.get(LOGGER_CONTEXT)];
    assert_eq![None, none.get("tst")];
}

#[test]
fn user_context_named_logger_takes_default_level() {
    let levels = ContextLevels::create_context_specific_log_level(Some("logger"));
    assert_eq![Some(DEFAULT_LEVEL), levels.get("logger")];
    assert![!levels.announces_exit(255)];
}

#[test]
fn setting_only_changes_known_contexts() {
    let mut levels = ContextLevels::create_context_specific_log_level(Some("tst"));
    assert![!levels.set_context_specific_log_level("overdebug", 191)];
    assert_eq![None, levels.get("overdebug")];
    levels.register_context("overdebug");
    assert_eq![Some(DEFAULT_LEVEL), levels.get("overdebug")];
    assert![levels.set_context_specific_log_level("overdebug", 191)];
    assert_eq![Some(191), levels.get("overdebug")];
    assert_eq![Some(DEFAULT_LEVEL), levels.get("tst")];
    // registering again resets the level
    levels.register_context("overdebug");
    assert_eq![Some(DEFAULT_LEVEL), levels.get("overdebug")];
}

#[test]
fn context_filter() {
    let mut levels = ContextLevels::create_context_specific_log_level(Some("tst"));
    assert![levels.accepts(128, "tst")];
    assert![!levels.accepts(129, "tst")];
    assert![levels.accepts(255, "unregistered")];
    assert![levels.set_context_specific_log_level("tst", 0)];
    assert![levels.accepts(0, "tst")];
    assert![!levels.accepts(1, "tst")];
}

#[test]
fn ensure_ending_message_when_exit_1() {
    let levels = ContextLevels::create_context_specific_log_level(Some("tst"));
    assert![levels.announces_exit(LOGGER_QUIT_LEVEL)];
    let notice = quit_notice("receiving on an empty and disconnected channel");
    let text = do_write_nocolor("T", LOGGER_QUIT_LEVEL, "logger", &notice);
    assert_eq![
        "T: 196 logger: Unable to receive message. Exiting logger, reason=receiving on an empty and disconnected channel\n",
        text
    ];
}

#[test]
fn ensure_ending_message_when_exit_2() {
    let levels = ContextLevels::create_context_specific_log_level(Some("tst"));
    assert![!levels.announces_exit(DEFAULT_LEVEL)];
}

#[test]
fn ensure_ending_message_when_exit_3() {
    let mut levels = ContextLevels::create_context_specific_log_level(Some("tst"));
    assert![levels.set_context_specific_log_level("logger", 195)];
    assert![!levels.announces_exit(LOGGER_QUIT_LEVEL)];
}

#[test]
fn overflow_notices() {
    assert_eq![None, overflow_notice(0)];
    assert_eq![
        Some("Logger dropped messages due to channel overflow, count=12".to_string()),
        overflow_notice(12)
    ];
    assert_eq![
        "Context specific level lock has been poisoned. Exiting logger",
        POISONED_NOTICE
    ];
}

/// Runs a sequence of logging calls through the verified decisions, the way the
/// logger and its thread do, and returns the written lines without timestamps.
fn run_multistuff() -> Vec<String> {
    let (tx, rx) = bounded::<(u8, &'static str, &'static str)>(CHANNEL_SIZE);
    let mut levels = ContextLevels::create_context_specific_log_level(Some("tst"));
    let mut global = DEFAULT_LEVEL;
    let mut log = |levels: &mut ContextLevels, global: u8, level: u8, ctx: &'static str, msg| {
        levels.register_context(ctx);
        dispatch(&tx, global, level, ctx, || msg).accepted()
    };
    log(&mut levels, global, TRACE_LEVEL, "tracing", "Message 1");
    log(&mut levels, global, DEBUG_LEVEL, "debugging", "Message 2");
    log(&mut levels, global, INFO_LEVEL, "infoing", "Message 3");
    log(&mut levels, global, WARN_LEVEL, "warning", "Message 4");
    log(&mut levels, global, ERROR_LEVEL, "erroring", "Message 5");
    log(&mut levels, global, 123, "logging", "Message 6");
    assert![!levels.set_context_specific_log_level("overdebug", 191)];
    log(&mut levels, global, 191, "overdebug", "This gets filtered");
    global = 191;
    levels.register_context("overdebug");
    assert![levels.set_context_specific_log_level("overdebug", 191)];
    assert![dispatch(&tx, global, 191, "overdebug", || "Just above debugging worked").accepted()];
    let mut lines = vec![];
    while let Ok((level, ctx, msg)) = rx.try_recv() {
        if levels.accepts(level, ctx) {
            let text = do_write_nocolor("T", level, ctx, msg);
            lines.push(text.trim_start_matches("T: ").trim_end_matches('\n').to_string());
        }
    }
    lines
}

#[test]
fn multistuff() {
    let lines = run_multistuff();
    assert_eq![5, lines.len()];
    assert_eq!["128 infoing: Message 3", lines[0]];
    assert_eq!["064 warning: Message 4", lines[1]];
    assert_eq!["000 erroring: Message 5", lines[2]];
    assert_eq!["123 logging: Message 6", lines[3]];
    assert_eq!["191 overdebug: Just above debugging worked", lines[4]];
}

#[test]
fn logger_thread_steps() {
    let mut levels = ContextLevels::create_context_specific_log_level(Some("tst"));
    assert_eq![Step::Write, next_step(Some(&levels), 0, Some((128, "tst")))];
    assert_eq![Step::Skip, next_step(Some(&levels), 255, Some((129, "tst")))];
    assert_eq![Step::Write, next_step(Some(&levels), 0, Some((255, "elsewhere")))];
    assert_eq![Step::Stop, next_step(Some(&levels), DEFAULT_LEVEL, None)];
    assert_eq![Step::AnnounceAndStop, next_step(Some(&levels), LOGGER_QUIT_LEVEL, None)];
    assert![levels.set_context_specific_log_level("logger", 195)];
    assert_eq![Step::Stop, next_step(Some(&levels), 255, None)];
}

#[test]
fn logger_thread_stops_on_poison_and_failed_writes() {
    assert_eq![Step::ReportPoisonAndStop, next_step(None, 255, Some((0, "tst")))];
    assert_eq![Step::Stop, next_step(None, 255, None)];
    assert_eq![Step::Continue, after_write(true)];
    assert_eq![Step::Stop, after_write(false)];
}
