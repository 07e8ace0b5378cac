//! Drive feedback boundary: a wrapping `i32` actual position, as read from the
//! drive every cycle, accumulated into a continuous `i64` position.

use vstd::prelude::*;

verus! {

/// The signed short step from `last` to `raw` on the 32-bit wrapping circle.
pub open spec fn short_step(raw: i32, last: i32) -> int {
    let d = raw - last;
    if d > i32::MAX {
        d - 0x1_0000_0000
    } else if d < i32::MIN {
        d + 0x1_0000_0000
    } else {
        d
    }
}

/// Accumulates a wrapping `i32` actual into a continuous `i64` position.
#[derive(Clone, Copy, Debug)]
pub struct Unwrapper {
    last_raw: i32,
    accum: i64,
    seen: bool,
}

impl Unwrapper {
    /// Whether a first raw value has been fed.
    pub closed spec fn started(&self) -> bool {
        self.seen
    }

    /// The raw value fed most recently.
    pub closed spec fn last(&self) -> i32 {
        self.last_raw
    }

    /// The continuous position accumulated so far.
    pub closed spec fn position(&self) -> i64 {
        self.accum
    }

    /// Feed this cycle's raw `i32` actual; return the continuous position.
    ///
    /// The first value is taken as the position itself; every later value moves
    /// the position by the signed short step from the previous raw value, so a
    /// roll-over of the 32-bit counter is continuous. Per-cycle motion must stay
    /// below `2^31` increments; a larger single step aliases to the opposite
    /// direction.
    pub fn update(&mut self, raw: i32) -> (r: i64)
        requires
            old(self).started() ==> i64::MIN <= old(self).position() + short_step(raw, old(self).last())
                <= i64::MAX,
        ensures
            final(self).started(),
            final(self).last() == raw,
            r == final(self).position(),
            !old(self).started() ==> r == raw,
            old(self).started() ==> r == old(self).position() + short_step(raw, old(self).last()),
    {
        if !self.seen {
            self.seen = true;
            self.last_raw = raw;
            self.accum = raw as i64;
            return self.accum;
        }
        let delta = raw.wrapping_sub(self.last_raw);
        assert(delta == short_step(raw, self.last_raw));
        self.accum = self.accum + delta as i64;
        self.last_raw = raw;
        self.accum
    }
}

impl Default for Unwrapper {
    /// A fresh unwrapper that has seen nothing yet.
    fn default() -> (u: Unwrapper)
        ensures
            !u.started(),
            u.position() == 0,
    {
        Unwrapper { last_raw: 0, accum: 0, seen: false }
    }
}

} // verus!
