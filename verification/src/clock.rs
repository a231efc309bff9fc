//! Points in time, in nanoseconds since an arbitrary but fixed moment.

use vstd::prelude::*;

verus! {

pub const MILLISECOND: u64 = 1_000_000;

pub const SECOND: u64 = 1_000_000_000;

/// How long ago `at` was at `now`; nothing where `at` is still to come.
pub open spec fn since(now: u64, at: u64) -> int {
    if now > at {
        now - at
    } else {
        0
    }
}

/// How long ago `at` was at `now`; nothing where `at` is still to come.
pub fn elapsed(now: u64, at: u64) -> (duration: u64)
    ensures
        duration == since(now, at),
{
    if now > at {
        now - at
    } else {
        0
    }
}

/// What follows an attempt at something that takes an unknown while to come up.
#[derive(Debug, Clone, Copy, PartialEq, Eq, Structural)]
pub enum Attempt {
    Succeeded,
    /// Wait a moment, and try again.
    Again,
    /// The time is up.
    GiveUp,
}

/// What follows an attempt at something that has until `deadline` to come up.
pub fn attempt(succeeded: bool, now: u64, deadline: u64) -> (next: Attempt)
    ensures
        next == attempt_at(succeeded, now, deadline),
{
    if succeeded {
        Attempt::Succeeded
    } else if now < deadline {
        Attempt::Again
    } else {
        Attempt::GiveUp
    }
}

/// What follows an attempt.
pub open spec fn attempt_at(succeeded: bool, now: u64, deadline: u64) -> Attempt {
    if succeeded {
        Attempt::Succeeded
    } else if now < deadline {
        Attempt::Again
    } else {
        Attempt::GiveUp
    }
}

/// A success always counts, however late it comes, and only time ends the attempts.
pub proof fn law_attempts_go_on_until_the_deadline(now: u64, later: u64, deadline: u64)
    requires
        now < deadline <= later,
    ensures
        attempt_at(true, now, deadline) == Attempt::Succeeded,
        attempt_at(true, later, deadline) == Attempt::Succeeded,
        attempt_at(false, now, deadline) == Attempt::Again,
        attempt_at(false, later, deadline) == Attempt::GiveUp,
{
}

/// Time that has passed is never negative, and adds up.
pub proof fn law_time_adds_up(a: u64, b: u64, c: u64)
    requires
        a <= b <= c,
    ensures
        since(b, a) + since(c, b) == since(c, a),
        since(a, b) == 0,
        since(b, a) == b - a,
{
}

} // verus!
