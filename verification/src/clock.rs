//! Time as the engine sees it: moments as nanoseconds since the UNIX epoch,
//! and the moment at which a time to live runs out.
use crate::set::KeyExpiry;
use std::time::{SystemTime, UNIX_EPOCH};
use vstd::prelude::*;

verus! {

/// A point in time: nanoseconds since the UNIX epoch.
pub type Timestamp = u128;

/// How many nanoseconds a second has.
pub const NANOS_PER_SECOND: u128 = 1_000_000_000;

/// How many nanoseconds a millisecond has.
pub const NANOS_PER_MILLISECOND: u128 = 1_000_000;

/// The time to live that `expiry` grants, in nanoseconds.
pub open spec fn time_to_live(expiry: KeyExpiry) -> nat {
    match expiry {
        KeyExpiry::EX(seconds) => seconds as nat * NANOS_PER_SECOND as nat,
        KeyExpiry::PX(millis) => millis as nat * NANOS_PER_MILLISECOND as nat,
    }
}

/// The moment at which a key set at `now` with `expiry` is gone: `now` plus
/// the time to live, or the last moment that a [`Timestamp`] can name where
/// the sum lies behind it.
pub open spec fn deadline(now: Timestamp, expiry: KeyExpiry) -> Timestamp {
    if now + time_to_live(expiry) <= u128::MAX {
        (now + time_to_live(expiry)) as u128
    } else {
        u128::MAX
    }
}

/// Computes [`deadline`].
pub fn deadline_of(now: Timestamp, expiry: KeyExpiry) -> (r: Timestamp)
    ensures
        r == deadline(now, expiry),
{
    let ttl: u128 = match expiry {
        KeyExpiry::EX(seconds) => seconds as u128 * NANOS_PER_SECOND,
        KeyExpiry::PX(millis) => millis as u128 * NANOS_PER_MILLISECOND,
    };
    if ttl > u128::MAX - now {
        u128::MAX
    } else {
        now + ttl
    }
}

/// `SystemTime::now`, as the nanoseconds that have passed since the UNIX
/// epoch, none where the clock stands before it. The contract claims nothing
/// of the result: two calls may give any two moments.
#[verifier::external_body]
pub(crate) fn system_time() -> Timestamp {
    SystemTime::now().duration_since(UNIX_EPOCH).unwrap_or_default().as_nanos()
}

} // verus!
