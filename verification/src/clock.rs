//! The time, and how long ago something was.

use crate::number::{decimal, push_decimal};
use std::time::{Duration, UNIX_EPOCH};
use vstd::prelude::*;

verus! {

/// `Duration::as_secs`: the whole seconds of a duration. Nothing is claimed of
/// the number, since a duration is opaque here.
pub assume_specification[ Duration::as_secs ](d: &Duration) -> (r: u64);

/// `SystemTime::elapsed` on `UNIX_EPOCH`: how long ago the epoch was by the
/// clock, or nothing where the clock is set before it. Nothing is claimed of
/// the outcome, which is the clock's; it is public so that the contract of `now_epoch`
/// can speak of it.
#[verifier::external_body]
pub fn since_epoch() -> (r: Option<Duration>) {
    UNIX_EPOCH.elapsed().ok()
}

/// Seconds since the Unix epoch, where `since` is what the clock says; 0 where the
/// clock is set before it.
pub fn epoch_secs(since: Option<u64>) -> (r: u64)
    ensures
        r == match since {
            Some(secs) => secs,
            None => 0,
        },
{
    match since {
        Some(secs) => secs,
        None => 0,
    }
}

/// Seconds since the Unix epoch by the clock; 0 where the clock is set before it.
pub fn now_epoch() -> (r: u64)
    ensures
        exists|since: Option<Duration>| #[trigger]
            call_ensures(since_epoch, (), since) && match since {
                Some(d) => call_ensures(Duration::as_secs, (&d,), r),
                None => r == 0,
            },
{
    match since_epoch() {
        Some(d) => epoch_secs(Some(d.as_secs())),
        None => epoch_secs(None),
    }
}

/// How long before `now` the time `epoch` was, in its largest whole unit. A time
/// that is yet to come was just now.
pub open spec fn age_text(now: u64, epoch: u64) -> Seq<char> {
    let delta = if now >= epoch {
        (now - epoch) as nat
    } else {
        0
    };
    if delta < 60 {
        decimal(delta) + "s"@
    } else if delta < 3600 {
        decimal(delta / 60) + "m"@
    } else if delta < 86400 {
        decimal(delta / 3600) + "h"@
    } else {
        decimal(delta / 86400) + "d"@
    }
}

/// How long before `now` the time `epoch` was.
pub fn age_at(now: u64, epoch: u64) -> (r: String)
    ensures
        r@ == age_text(now, epoch),
{
    let delta: u64 = now.saturating_sub(epoch);
    let mut r = String::new();
    if delta < 60 {
        push_decimal(&mut r, delta);
        r.append("s");
    } else if delta < 3600 {
        push_decimal(&mut r, delta / 60);
        r.append("m");
    } else if delta < 86400 {
        push_decimal(&mut r, delta / 3600);
        r.append("h");
    } else {
        push_decimal(&mut r, delta / 86400);
        r.append("d");
    }
    assert(r@ =~= age_text(now, epoch));
    r
}

/// How long ago the time `epoch` was, by what the clock says now.
pub fn humanize_age(epoch: u64) -> (r: String)
    ensures
        exists|now: u64| call_ensures(now_epoch, (), now) && r@ == #[trigger] age_text(now, epoch),
{
    let now = now_epoch();
    age_at(now, epoch)
}

/// An age is a number and the letter of a unit: the greatest of seconds, minutes, hours
/// and days of which at least one whole has passed, or seconds, and as many of it as have
/// wholly passed. What is yet to come was just now.
pub proof fn age_is_in_its_greatest_unit(now: u64, epoch: u64)
    ensures
        ({
            let passed: int = if now >= epoch {
                now - epoch
            } else {
                0
            };
            exists|n: nat, unit: char, secs: int|
                #![trigger age_in(n, unit, secs)]
                {
                    &&& age_text(now, epoch) == age_in(n, unit, secs)
                    &&& (unit == 's' && secs == 1) || (unit == 'm' && secs == 60) || (unit == 'h'
                        && secs == 3600) || (unit == 'd' && secs == 86400)
                    &&& n * secs <= passed < (n + 1) * secs
                    &&& unit != 's' ==> n > 0
                    &&& unit == 's' ==> passed < 60
                    &&& unit == 'm' ==> passed < 3600
                    &&& unit == 'h' ==> passed < 86400
                }
        }),
{
    let delta: nat = if now >= epoch {
        (now - epoch) as nat
    } else {
        0
    };
    reveal_strlit("s");
    reveal_strlit("m");
    reveal_strlit("h");
    reveal_strlit("d");
    if delta < 60 {
        assert(age_text(now, epoch) =~= age_in(delta, 's', 1));
    } else if delta < 3600 {
        assert(age_text(now, epoch) =~= age_in(delta / 60, 'm', 60));
    } else if delta < 86400 {
        assert(age_text(now, epoch) =~= age_in(delta / 3600, 'h', 3600));
    } else {
        assert(age_text(now, epoch) =~= age_in(delta / 86400, 'd', 86400));
    }
}

/// A number of units of so many seconds, by the letter of the unit.
pub open spec fn age_in(n: nat, unit: char, secs: int) -> Seq<char> {
    decimal(n).push(unit)
}

} // verus!
