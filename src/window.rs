//! Ban-window arithmetic on millisecond timestamps.

use vstd::prelude::*;

verus! {

/// Length of a ban, in milliseconds: ten minutes.
pub const BAN_WINDOW_MS: u64 = 600000;

/// Time that has passed from `start` to `now`. A clock that went backwards
/// (`now < start`) counts as no time at all, so a ban never ends early
/// because of it.
pub open spec fn elapsed(start: u64, now: u64) -> nat {
    if now >= start {
        (now - start) as nat
    } else {
        0
    }
}

/// Whether a ban that began at `start` still holds at `now`.
pub open spec fn within_window(window: u64, start: u64, now: u64) -> bool {
    elapsed(start, now) < window
}

/// Milliseconds since `start`, as `elapsed` defines them.
pub fn elapsed_ms(start: u64, now: u64) -> (r: u64)
    ensures
        r == elapsed(start, now),
{
    if now >= start {
        now - start
    } else {
        0
    }
}

/// What is left of a ban of length `window` that began at `start`, seen at
/// `now`: `Some(ms)` with `ms > 0` while the ban holds, `None` once it has run
/// out.
pub fn ban_time_left(window: u64, start: u64, now: u64) -> (r: Option<u64>)
    ensures
        within_window(window, start, now) <==> r is Some,
        r matches Some(ms) ==> ms == window - elapsed(start, now) && ms > 0,
{
    let e = elapsed_ms(start, now);
    if e < window {
        Some(window - e)
    } else {
        None
    }
}

} // verus!
