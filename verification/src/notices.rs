//! The notices the logger thread writes about itself.
use crate::digits::{decimal, push_decimal};
use crate::layout::{chars_of, string_of};
use vstd::prelude::*;

verus! {

/// Level of the notice about messages dropped on a full channel.
pub const OVERFLOW_NOTICE_LEVEL: u8 = 64;

/// Written (at level 0) when the context level table became unusable.
pub const POISONED_NOTICE: &'static str =
    "Context specific level lock has been poisoned. Exiting logger";

/// Start of the notice written when the channel is closed.
pub const QUIT_NOTICE_PREFIX: &'static str = "Unable to receive message. Exiting logger, reason=";

/// Start of the notice about dropped messages.
pub const OVERFLOW_NOTICE_PREFIX: &'static str =
    "Logger dropped messages due to channel overflow, count=";

/// The notice written when the logger thread stops because the channel closed.
pub fn quit_notice(reason: &str) -> (text: String)
    ensures
        text@ == QUIT_NOTICE_PREFIX@ + reason@,
{
    let mut text = String::from_str(QUIT_NOTICE_PREFIX);
    text.append(reason);
    text
}

/// The notice about `dropped` messages lost to a full channel, if any were.
pub fn overflow_notice(dropped: usize) -> (text: Option<String>)
    ensures
        match text {
            Some(t) => dropped > 0 && t@ == OVERFLOW_NOTICE_PREFIX@ + decimal(dropped as nat),
            None => dropped == 0,
        },
{
    if dropped == 0 {
        None
    } else {
        let mut chars = chars_of(OVERFLOW_NOTICE_PREFIX);
        push_decimal(&mut chars, dropped);
        Some(string_of(&chars))
    }
}

} // verus!
