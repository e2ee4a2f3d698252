//! Rolling windows of sampled simulation series.

use vstd::prelude::*;
use std::collections::VecDeque;

verus! {

/// Samples kept per series.
pub const WINDOW: usize = 6000;

/// Appends `value` to a rolling window, dropping the oldest sample once the
/// window holds more than `WINDOW`.
pub fn push_capped<T>(buf: &mut VecDeque<T>, value: T)
    ensures
        final(buf)@ == (if old(buf)@.len() + 1 > WINDOW {
            old(buf)@.push(value).drop_first()
        } else {
            old(buf)@.push(value)
        }),
        old(buf)@.len() <= WINDOW ==> final(buf)@.len() <= WINDOW,
{
    buf.push_back(value);
    if buf.len() > WINDOW {
        let _ = buf.pop_front();
    }
}

} // verus!
