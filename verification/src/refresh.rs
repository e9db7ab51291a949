//! The background refresher's decisions: when the rescan loop runs or
//! sleeps, and when the cache sweep refreshes an entry. The loops
//! themselves live at the process's edge; every decision they take is
//! made here.

use vstd::prelude::*;

verus! {

/// How long the rescan loop sleeps before re-checking the pause flag.
pub const PAUSED_RECHECK_SECS: u64 = 600;

/// The fixed interval between cache sweeps, and the window within which
/// an entry is refreshed ahead of its expiry.
pub const SWEEP_INTERVAL_SECS: u64 = 1800;

/// How long the sweep sleeps when there is nothing to maintain.
pub const SWEEP_SKIP_SECS: u64 = 900;

/// The fixed delay between two refreshes within one sweep.
pub const SWEEP_PACING_SECS: u64 = 15;

/// What one rescan tick does: skip while paused, re-checking after a
/// fixed shorter delay; otherwise scan every source sequentially and
/// sleep for the configured interval.
pub enum RescanTick {
    Skip { recheck_secs: u64 },
    Scan { sleep_secs: u64 },
}

/// Decide one tick of the rescan timer.
pub fn rescan_tick(paused: bool, check_interval_minutes: u64) -> (r: RescanTick)
    requires
        check_interval_minutes <= u64::MAX / 60,
    ensures
        paused ==> (r matches RescanTick::Skip { recheck_secs } && recheck_secs
            == PAUSED_RECHECK_SECS),
        !paused ==> (r matches RescanTick::Scan { sleep_secs } && sleep_secs as int
            == check_interval_minutes * 60),
{
    if paused {
        RescanTick::Skip { recheck_secs: PAUSED_RECHECK_SECS }
    } else {
        RescanTick::Scan { sleep_secs: check_interval_minutes * 60 }
    }
}

/// What one sweep tick does: skip when no source is tracked or
/// maintenance is off; otherwise sweep and sleep the fixed interval.
pub enum SweepTick {
    Skip { recheck_secs: u64 },
    Sweep { pacing_secs: u64, sleep_secs: u64 },
}

/// Decide one tick of the cache-sweep timer.
pub fn sweep_tick(channels_empty: bool, maintain: bool) -> (r: SweepTick)
    ensures
        (channels_empty || !maintain) ==> (r matches SweepTick::Skip { recheck_secs }
            && recheck_secs == SWEEP_SKIP_SECS),
        !(channels_empty || !maintain) ==> (r matches SweepTick::Sweep { pacing_secs, sleep_secs }
            && pacing_secs == SWEEP_PACING_SECS && sleep_secs == SWEEP_INTERVAL_SECS),
{
    if channels_empty || !maintain {
        SweepTick::Skip { recheck_secs: SWEEP_SKIP_SECS }
    } else {
        SweepTick::Sweep { pacing_secs: SWEEP_PACING_SECS, sleep_secs: SWEEP_INTERVAL_SECS }
    }
}

/// An entry is refreshed when it expires within the sweep window.
pub fn needs_refresh(expires: u64, now: u64) -> (r: bool)
    requires
        now <= u64::MAX - SWEEP_INTERVAL_SECS,
    ensures
        r == (expires < now + SWEEP_INTERVAL_SECS),
{
    expires < now + SWEEP_INTERVAL_SECS
}

} // verus!
