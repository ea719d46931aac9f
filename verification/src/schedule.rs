//! The refresh trigger: a configured hour of day, UTC, and the wait
//! until its next occurrence; and the clock read the scheduler uses.
use vstd::prelude::*;
use vstd::arithmetic::div_mod::{lemma_fundamental_div_mod, lemma_mod_multiples_vanish};
use std::time::{SystemTime, UNIX_EPOCH};

verus! {

/// The wait in seconds from `now` until the next occurrence of the
/// trigger hour: more than zero (a trigger hit now waits a whole day),
/// at most a day.
pub open spec fn spec_secs_until_fetch(now: int, fetch_hour: int) -> int {
    let today = now % 86400;
    let target = fetch_hour * 3600;
    if today < target {
        target - today
    } else {
        86400 - today + target
    }
}

/// Seconds to sleep until the next trigger: waking then lands exactly on
/// the trigger hour, and never more than a day away.
pub fn secs_until_fetch(now: u64, fetch_hour: u64) -> (r: u64)
    requires
        fetch_hour < 24,
        now <= 0xffffffffffffffff - 86400,
    ensures
        r == spec_secs_until_fetch(now as int, fetch_hour as int),
        1 <= r <= 86400,
        ((now + r) % 86400) == fetch_hour * 3600,
{
    let today: u64 = now % 86400;
    let target: u64 = fetch_hour * 3600;
    let r: u64 = if today < target {
        target - today
    } else {
        86400 - today + target
    };
    proof {
        lemma_fundamental_div_mod(now as int, 86400);
        let q = now as int / 86400;
        if today < target {
            lemma_mod_multiples_vanish(q, target as int, 86400);
        } else {
            lemma_mod_multiples_vanish(q + 1, target as int, 86400);
        }
        assert(target < 86400) by {
            assert(fetch_hour * 3600 <= 23 * 3600);
        }
        assert((target as int) % 86400 == target) by {
            vstd::arithmetic::div_mod::lemma_small_mod(target as nat, 86400);
        }
    }
    r
}

/// Relies on std::time::SystemTime::now and duration_since(UNIX_EPOCH):
/// the number of whole seconds since the epoch, which is nonnegative; a
/// clock reading before the epoch or past the signed range is clamped.
#[verifier::external_body]
pub fn now_secs() -> (r: i64)
    ensures
        r >= 0,
{
    let secs = SystemTime::now()
        .duration_since(UNIX_EPOCH)
        .map(|d| d.as_secs())
        .unwrap_or(0);
    if secs > i64::MAX as u64 {
        i64::MAX
    } else {
        secs as i64
    }
}

} // verus!
