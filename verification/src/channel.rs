//! The bounded channel between loggers and the logger thread.
use crate::dispatch::Dispatch;
use crossbeam_channel::Sender;
use vstd::prelude::*;

verus! {

/// The sending half of a `crossbeam_channel` channel, carried through opaquely.
#[verifier::external_type_specification]
#[verifier::external_body]
#[verifier::reject_recursive_types(T)]
pub struct ExSender<T>(Sender<T>);

/// Proof that an entry was queued: the level and context it was offered
/// with.  Only `try_send` makes one.
#[derive(Debug)]
pub struct Receipt {
    level: u8,
    ctx: &'static str,
}

impl Receipt {
    /// The level of the queued entry.
    pub closed spec fn level(&self) -> u8 {
        self.level
    }

    /// The context of the queued entry.
    pub closed spec fn context(&self) -> &'static str {
        self.ctx
    }
}

/// How `try_send` may come out for `entry`: queued with a receipt of its
/// level and context, or refused with the very entry handed back.
pub open spec fn offered<C>(r: Dispatch<(u8, &'static str, C)>, entry: (u8, &'static str, C)) -> bool {
    match r {
        Dispatch::Sent(receipt) => receipt.level() == entry.0 && receipt.context() == entry.1,
        Dispatch::Full(e) => e == entry,
        Dispatch::Disconnected(e) => e == entry,
        Dispatch::Filtered => false,
    }
}

/// Offers `entry` to the channel without blocking.
///
/// Calls `crossbeam_channel::Sender::try_send`.  Whether the entry is taken
/// depends on the channel's fill and on the receiving thread, so the
/// contract does not say which outcome comes.  It states what crossbeam's
/// source and documentation show of every outcome: the entry is queued (the
/// receipt copies its level and context, read before the call), or the
/// channel is full or closed and the very entry offered comes back in the
/// error.
#[verifier::external_body]
pub(crate) fn try_send<C>(sender: &Sender<(u8, &'static str, C)>, entry: (u8, &'static str, C)) -> (r:
    Dispatch<(u8, &'static str, C)>)
    ensures
        offered(r, entry),
{
    let receipt = Receipt { level: entry.0, ctx: entry.1 };
    match sender.try_send(entry) {
        Ok(()) => Dispatch::Sent(receipt),
        Err(crossbeam_channel::TrySendError::Full(e)) => Dispatch::Full(e),
        Err(crossbeam_channel::TrySendError::Disconnected(e)) => Dispatch::Disconnected(e),
    }
}

} // verus!
