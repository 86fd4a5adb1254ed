//! Time as the endpoints see it: whole nanoseconds since some start.

use vstd::prelude::*;

verus! {

/// A point in time, or a stretch of it, in nanoseconds.
pub type Time = i64;

/// One second.
pub const SECOND: Time = 1_000_000_000;

/// `time` moved on by `dt`, held at the ends of the range.
pub open spec fn advanced(time: Time, dt: Time) -> Time {
    if time + dt > i64::MAX {
        i64::MAX
    } else if time + dt < i64::MIN {
        i64::MIN
    } else {
        (time + dt) as i64
    }
}

/// Time moves on by just as much as is said, in one step or in two. It never moves back unless told
/// to, and stops at the ends of the range.
pub proof fn lemma_advanced(time: Time, a: Time, b: Time)
    ensures
        i64::MIN <= time + a <= i64::MAX ==> advanced(time, a) - time == a,
        time + a > i64::MAX ==> advanced(time, a) == i64::MAX,
        time + a < i64::MIN ==> advanced(time, a) == i64::MIN,
        a >= 0 ==> advanced(time, a) >= time,
        a >= 0 && b >= 0 && a + b <= i64::MAX ==> advanced(advanced(time, a), b) == advanced(
            time,
            (a + b) as i64,
        ),
{
}

/// Moves `time` on by `dt`, held at the ends of the range.
pub fn advance(time: Time, dt: Time) -> (r: Time)
    ensures
        r == advanced(time, dt),
{
    let sum: i128 = time as i128 + dt as i128;
    if sum > i64::MAX as i128 {
        i64::MAX
    } else if sum < i64::MIN as i128 {
        i64::MIN
    } else {
        sum as i64
    }
}

/// How long after `then` the time `now` is.
pub fn elapsed(now: Time, then: Time) -> (r: i128)
    ensures
        r == now - then,
{
    now as i128 - then as i128
}

} // verus!
