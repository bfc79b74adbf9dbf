//! Progress events: which of a stream of counter updates are passed on.

use vstd::prelude::*;

verus! {

/// The shortest time between two counter updates that are passed on, in
/// milliseconds.
pub const THROTTLE_MS: u64 = 200;

/// The throttle on counter updates: it remembers when it last let one
/// through. Named steps are not throttled; they are always passed on.
#[derive(Debug, Clone, Copy)]
pub struct Throttle {
    pub last_emit_ms: u64,
}

impl Throttle {
    /// A throttle that last let an update through at `now_ms`.
    pub fn new(now_ms: u64) -> (throttle: Self)
        ensures
            throttle.last_emit_ms == now_ms,
    {
        Throttle { last_emit_ms: now_ms }
    }

    /// Whether an update at `now_ms` is passed on: it is, when the window
    /// has gone by since the last one that was. The throttle then
    /// remembers `now_ms`; else it stays as it is. A clock that went back lets nothing
    /// through.
    pub fn let_through(&mut self, now_ms: u64) -> (passed: bool)
        ensures
            passed == (now_ms - old(self).last_emit_ms >= THROTTLE_MS),
            final(self).last_emit_ms == if passed {
                now_ms
            } else {
                old(self).last_emit_ms
            },
    {
        if now_ms >= self.last_emit_ms && now_ms - self.last_emit_ms >= THROTTLE_MS {
            self.last_emit_ms = now_ms;
            true
        } else {
            false
        }
    }
}

} // verus!
