//! Shared validation rules: world bounds, per-command movement magnitude
//! limit, and the minimum interval between accepted commands.
//!
//! Coordinates are whole world units; timestamps are tenths of a millisecond,
//! so `TIME_PER_TICK == 156` means one tick every 15.6 ms.

use vstd::prelude::*;

verus! {

/// Simulation ticks per second-scale unit; the tick period is derived from it.
pub const TICKRATE: u64 = 64;

/// Minimum interval between two accepted commands from one player, in tenths
/// of a millisecond. Also the period of the simulation clock.
pub const TIME_PER_TICK: u64 = 10_000 / TICKRATE;

/// Largest coordinate delta a single command may claim on either axis.
pub const MAX_MOVEMENT: i64 = 20;

/// Starting coordinate (both axes) for a freshly registered player.
pub const START_X_Y: i64 = 50;

/// Smallest coordinate a player may occupy, on either axis.
pub const MIN_X_Y: i64 = 0;

/// Largest coordinate a player may occupy, on either axis.
pub const MAX_X_Y: i64 = 500;

/// A coordinate the world accepts.
pub open spec fn in_bounds(v: int) -> bool {
    MIN_X_Y <= v <= MAX_X_Y
}

/// Mathematical clamp of a coordinate into the world bounds.
pub open spec fn spec_clamp(v: int) -> int {
    if v < MIN_X_Y {
        MIN_X_Y as int
    } else if v > MAX_X_Y {
        MAX_X_Y as int
    } else {
        v
    }
}

/// Forces a position back into the world rectangle, one axis at a time.
pub fn fix_position_within_bounds(x: &mut i64, y: &mut i64)
    ensures
        *final(x) == spec_clamp(*old(x) as int),
        *final(y) == spec_clamp(*old(y) as int),
        in_bounds(*final(x) as int),
        in_bounds(*final(y) as int),
{
    if *x < MIN_X_Y {
        *x = MIN_X_Y;
    }
    if *x > MAX_X_Y {
        *x = MAX_X_Y;
    }
    if *y < MIN_X_Y {
        *y = MIN_X_Y;
    }
    if *y > MAX_X_Y {
        *y = MAX_X_Y;
    }
}

/// A movement command's deltas are small enough to be believed.
pub open spec fn movement_allowed(mx: i64, my: i64) -> bool {
    -MAX_MOVEMENT <= mx <= MAX_MOVEMENT && -MAX_MOVEMENT <= my <= MAX_MOVEMENT
}

/// Anti-cheat check: rejects any command claiming to move farther than
/// `MAX_MOVEMENT` on either axis.
pub fn movement_within_limit(mx: i64, my: i64) -> (r: bool)
    ensures
        r == movement_allowed(mx, my),
{
    -MAX_MOVEMENT <= mx && mx <= MAX_MOVEMENT && -MAX_MOVEMENT <= my && my <= MAX_MOVEMENT
}

/// Time elapsed between two clock readings, saturating at zero if the clock
/// appears to have gone backwards.
pub open spec fn spec_elapsed(now: u64, last: u64) -> int {
    if now >= last {
        now - last
    } else {
        0
    }
}

/// Anti-flood check: a command is admitted only when at least one tick period
/// has passed since the player's previous accepted command.
pub fn rate_allows(now: u64, last: u64) -> (r: bool)
    ensures
        r == (spec_elapsed(now, last) >= TIME_PER_TICK),
{
    let elapsed: u64 = if now >= last {
        now - last
    } else {
        0
    };
    elapsed >= TIME_PER_TICK
}

} // verus!
