//! Stamps and durations as (seconds, nanoseconds) pairs, and their exact arithmetic.
use vstd::prelude::*;

verus! {

/// Nanoseconds in one second.
pub const BILLION: i64 = 1_000_000_000;

/// A point in time: signed seconds plus nanoseconds since the epoch.
#[derive(Clone, Copy, Debug, PartialEq, Eq, Structural)]
pub struct Time {
    pub sec: i32,
    pub nanosec: u32,
}

/// A signed span of time, in the same shape as `Time`.
#[derive(Clone, Copy, Debug, PartialEq, Eq, Structural)]
pub struct Duration {
    pub sec: i32,
    pub nanosec: u32,
}

/// The signed nanosecond count that a (seconds, nanoseconds) pair stands for.
pub open spec fn ns_of(sec: i32, nanosec: u32) -> int {
    sec * 1_000_000_000 + nanosec
}

impl Time {
    pub open spec fn ns(self) -> int {
        ns_of(self.sec, self.nanosec)
    }

    /// The nanosecond field lies in [0, 10^9).
    pub open spec fn normalized(self) -> bool {
        self.nanosec < 1_000_000_000
    }

    /// The "latest" sentinel: a stamp whose nanosecond equivalent is zero.
    pub open spec fn is_latest(self) -> bool {
        self.ns() == 0
    }
}

impl Duration {
    pub open spec fn ns(self) -> int {
        ns_of(self.sec, self.nanosec)
    }

    pub open spec fn normalized(self) -> bool {
        self.nanosec < 1_000_000_000
    }
}

/// A nanosecond count whose whole seconds (rounded down) fit in an `i32`.
pub open spec fn fits_time(n: int) -> bool {
    i32::MIN <= n / 1_000_000_000 <= i32::MAX
}

/// Every pair's nanosecond count lies well inside `i64`.
pub proof fn lemma_ns_bounds(sec: i32, nanosec: u32)
    ensures
        -2_147_483_648_000_000_000 <= ns_of(sec, nanosec) <= 2_147_483_651_294_967_295,
{
    assert(-2_147_483_648_000_000_000 <= sec * 1_000_000_000 <= 2_147_483_647_000_000_000)
        by (nonlinear_arith)
        requires
            i32::MIN <= sec <= i32::MAX,
    ;
}

/// Splits `n` into whole seconds (rounded towards minus infinity) and nanoseconds in [0, 10^9).
pub fn time_from_nanosec(n: i64) -> (t: Time)
    requires
        fits_time(n as int),
    ensures
        t.ns() == n,
        t.normalized(),
{
    if n >= 0 {
        let m = n as u64;
        let q = m / (BILLION as u64);
        let r = m % (BILLION as u64);
        assert(q as int == n as int / 1_000_000_000);
        Time { sec: q as i32, nanosec: r as u32 }
    } else {
        // n == -(m + 1) with m >= 0, so that negating never overflows
        let m = (-(n + 1)) as u64;
        let q = m / (BILLION as u64);
        let r = m % (BILLION as u64);
        assert(n as int / 1_000_000_000 == -(q as int) - 1) by (nonlinear_arith)
            requires
                m as int == -(n as int + 1),
                q as int == m as int / 1_000_000_000,
                r as int == m as int % 1_000_000_000,
                n < 0,
        ;
        let sec = -(q as i64) - 1;
        Time { sec: sec as i32, nanosec: (BILLION as u64 - 1 - r) as u32 }
    }
}

/// The nanosecond count of a stamp.
pub fn time_as_ns_i64(t: &Time) -> (n: i64)
    ensures
        n == t.ns(),
{
    proof {
        lemma_ns_bounds(t.sec, t.nanosec);
    }
    t.sec as i64 * BILLION + t.nanosec as i64
}

/// The nanosecond count of a duration.
pub fn duration_as_ns_i64(d: &Duration) -> (n: i64)
    ensures
        n == d.ns(),
{
    proof {
        lemma_ns_bounds(d.sec, d.nanosec);
    }
    d.sec as i64 * BILLION + d.nanosec as i64
}

/// `target - delta`, as a normalized duration.
pub fn sub_time_and_time(target: &Time, delta: &Time) -> (d: Duration)
    requires
        fits_time(target.ns() - delta.ns()),
    ensures
        d.ns() == target.ns() - delta.ns(),
        d.normalized(),
{
    proof {
        lemma_ns_bounds(target.sec, target.nanosec);
        lemma_ns_bounds(delta.sec, delta.nanosec);
    }
    let t = time_from_nanosec(time_as_ns_i64(target) - time_as_ns_i64(delta));
    Duration { sec: t.sec, nanosec: t.nanosec }
}

/// `t + d`, as a normalized stamp.
pub fn add_time_and_duration(t: &Time, d: &Duration) -> (r: Time)
    requires
        fits_time(t.ns() + d.ns()),
    ensures
        r.ns() == t.ns() + d.ns(),
        r.normalized(),
{
    proof {
        lemma_ns_bounds(t.sec, t.nanosec);
        lemma_ns_bounds(d.sec, d.nanosec);
    }
    time_from_nanosec(time_as_ns_i64(t) + duration_as_ns_i64(d))
}

/// `t - d`, as a normalized stamp.
pub fn sub_duration_from_time(t: &Time, d: &Duration) -> (r: Time)
    requires
        fits_time(t.ns() - d.ns()),
    ensures
        r.ns() == t.ns() - d.ns(),
        r.normalized(),
{
    proof {
        lemma_ns_bounds(t.sec, t.nanosec);
        lemma_ns_bounds(d.sec, d.nanosec);
    }
    time_from_nanosec(time_as_ns_i64(t) - duration_as_ns_i64(d))
}

/// Whether `min <= target <= max`, comparing nanosecond counts.
pub fn is_time_in_range_eq(target: &Time, min: &Time, max: &Time) -> (r: bool)
    ensures
        r == (min.ns() <= target.ns() && target.ns() <= max.ns()),
{
    let target_ns = time_as_ns_i64(target);
    target_ns >= time_as_ns_i64(min) && target_ns <= time_as_ns_i64(max)
}

/// Whether `target` comes strictly after `past`.
pub fn is_time_later(target: &Time, past: &Time) -> (r: bool)
    ensures
        r == (target.ns() > past.ns()),
{
    time_as_ns_i64(target) > time_as_ns_i64(past)
}

} // verus!
