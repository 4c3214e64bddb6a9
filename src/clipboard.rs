//! Waiting for a copy to reach the clipboard: the decisions of the wait, from
//! what each look at the clipboard's sequence number showed.
use vstd::prelude::*;

verus! {

/// Pause between looks grows by this many milliseconds per look.
pub const POLL_STEP_MS: u64 = 10;

/// What to do after one look at the clipboard's sequence number.
#[derive(Clone, Copy, Debug, PartialEq, Eq, Structural)]
pub enum ClipboardPoll {
    /// The number moved on: the clipboard holds something new.
    Changed,
    /// Wait this many milliseconds, then look again.
    Wait(u64),
    /// The number stayed put through every look.
    Unchanged,
}

/// The decision after look `attempt` (counted from 1) of at most `n + 1`
/// looks, waiting for the sequence number to leave `clip_num`. A look that
/// could not read the number (`None`) counts as unchanged. Until `n` looks
/// have passed, an unchanged number means waiting `10 * attempt` milliseconds.
pub fn what_on_clipboard_seq_num(clip_num: u32, n: u32, attempt: u32, seen: Option<u32>) -> (r:
    ClipboardPoll)
    requires
        attempt >= 1,
    ensures
        (match seen {
            Some(s) => s != clip_num,
            None => false,
        }) ==> r == ClipboardPoll::Changed,
        (match seen {
            Some(s) => s == clip_num,
            None => true,
        }) ==> r == (if attempt <= n {
            ClipboardPoll::Wait((POLL_STEP_MS * attempt as u64) as u64)
        } else {
            ClipboardPoll::Unchanged
        }),
{
    let now = match seen {
        Some(s) => s,
        None => clip_num,
    };
    if now != clip_num {
        ClipboardPoll::Changed
    } else if attempt <= n {
        ClipboardPoll::Wait(POLL_STEP_MS * attempt as u64)
    } else {
        ClipboardPoll::Unchanged
    }
}

} // verus!
