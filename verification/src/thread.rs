//! Guest threads.

use vstd::prelude::*;

verus! {

/// Whether a guest thread may be polled: not while a debugger holds it.
/// `resumed` is the debugger's answer, if there is a debugger.
pub fn may_poll_thread(resumed: Option<bool>) -> (may: bool)
    ensures
        may == (resumed != Some(false)),
{
    match resumed {
        Some(resumed) => resumed,
        None => true,
    }
}

/// A thread is held exactly where a debugger is there and has not resumed it.
pub proof fn law_only_debuggers_hold_threads(
    resumed: bool,
    free: bool,
    watched: bool,
)
    requires
        call_ensures(may_poll_thread, (None,), free),
        call_ensures(may_poll_thread, (Some(resumed),), watched),
    ensures
        free,
        watched == resumed,
{
}

} // verus!
