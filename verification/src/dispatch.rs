//! Handing a message to the logger thread.
//!
//! A message first has to pass the global log level; only then is it built
//! and offered to the bounded channel, which may take it, be full, or be
//! closed.
use crate::channel::{try_send, Receipt};
use crate::levels::passes;
use crossbeam_channel::Sender;
use vstd::prelude::*;

verus! {

/// What became of a message offered to the logger.  A message refused by
/// the channel is handed back.
#[derive(Debug)]
pub enum Dispatch<T> {
    /// Its level did not pass the global log level; it was never built.
    Filtered,
    /// It was queued for the logger thread; the receipt records its level
    /// and context.
    Sent(Receipt),
    /// The channel was full; the message was dropped.
    Full(T),
    /// The logger thread is gone; the message was dropped.
    Disconnected(T),
}

/// Sends a message at `level` from context `ctx` if it passes the global
/// level; the message is built by `make_message` only in that case, and the
/// entry offered to the channel is `(level, ctx, message)`.
pub fn dispatch<C, F: FnOnce() -> C>(
    sender: &Sender<(u8, &'static str, C)>,
    global_level: u8,
    level: u8,
    ctx: &'static str,
    make_message: F,
) -> (d: Dispatch<(u8, &'static str, C)>)
    requires
        make_message.requires(()),
    ensures
        d is Filtered <==> !passes(level, global_level),
        d is Filtered <==> level > global_level,
        match d {
            Dispatch::Sent(receipt) => receipt.level() == level && receipt.context() == ctx,
            Dispatch::Full(e) => e.0 == level && e.1 == ctx && make_message.ensures((), e.2),
            Dispatch::Disconnected(e) => e.0 == level && e.1 == ctx && make_message.ensures((), e.2),
            _ => true,
        },
{
    if level <= global_level {
        let message = make_message();
        try_send(sender, (level, ctx, message))
    } else {
        Dispatch::Filtered
    }
}

impl<T> Dispatch<T> {
    /// The message reached the channel (what the logging calls report).
    pub fn accepted(&self) -> (r: bool)
        ensures
            r == self is Sent,
    {
        match self {
            Dispatch::Sent(_) => true,
            _ => false,
        }
    }

    /// The message was dropped because the channel was full, which the
    /// logger counts and reports later.
    pub fn overflowed(&self) -> (r: bool)
        ensures
            r == self is Full,
    {
        match self {
            Dispatch::Full(_) => true,
            _ => false,
        }
    }
}

} // verus!

verus! {

/// Only messages that passed the global level are ever queued or counted as
/// dropped; a filtered message costs nothing.
pub proof fn lemma_only_passing_messages_reach_channel<T>(
    d: Dispatch<T>,
    level: u8,
    global_level: u8,
)
    requires
        d is Filtered <==> !passes(level, global_level),
    ensures
        !(d is Filtered) ==> passes(level, global_level),
        !passes(level, global_level) ==> !(d is Sent) && !(d is Full),
{
}

} // verus!
