//! The wait-duration computation: the elapsed interval between "now" and a
//! resolved instant, clamped at zero so that an instant already in the past
//! never yields a negative wait.

use vstd::prelude::*;
use crate::instant::LocalInstant;
use crate::instant::lemma_days_from_civil_bounds;

verus! {

/// A non-negative elapsed interval, in whole seconds.
#[derive(Clone, Copy, PartialEq, Eq, Structural, Debug)]
pub struct WaitInterval {
    pub seconds: u64,
}

/// How long to wait until `target` arrives, measured from `now`: their
/// difference in seconds, or zero when `target` has already passed.  Total:
/// there is no failure mode, and the result is never negative.
pub fn wait_interval(target: &LocalInstant, now: &LocalInstant) -> (r: WaitInterval)
    requires
        target.wf(),
        now.wf(),
    ensures
        target.epoch() >= now.epoch() ==> r.seconds == target.epoch() - now.epoch(),
        target.epoch() < now.epoch() ==> r.seconds == 0,
{
    proof {
        lemma_days_from_civil_bounds(
            target.year as int,
            target.month as int,
            target.day as int,
        );
        lemma_days_from_civil_bounds(now.year as int, now.month as int, now.day as int);
    }
    let t: i64 = target.epoch_seconds();
    let n: i64 = now.epoch_seconds();
    if t >= n {
        WaitInterval { seconds: (t - n) as u64 }
    } else {
        WaitInterval { seconds: 0 }
    }
}

} // verus!
