//! Calls into `chrono` and `uuid` for the current time, dates before it,
//! and fresh fact ids. The clock reading and the ids depend on the moment
//! or on chance, so little is promised of them; the functions that use them
//! state what holds for every value that can come back.

use vstd::prelude::*;
use crate::store::{days_representable, MAX_TIMESTAMP, MAX_STALE_DAYS};
use crate::fact::opt_view;

verus! {

/// Calls `chrono::Utc::now()` and formats it with `DateTime::to_rfc3339`.
/// The result depends on the clock; no property of it is stated.
#[verifier::external_body]
pub(crate) fn now_rfc3339() -> (r: String) {
    chrono::Utc::now().to_rfc3339()
}

/// Calls `chrono::Utc::now()` and reads it as a Unix timestamp with
/// `timestamp` and `timestamp_subsec_nanos`. The reading depends on the
/// clock. Whatever it is, it lies in chrono's range: `Utc::now` takes the
/// time since the Unix epoch (failing before 1970; the system keeps its
/// seconds in an `i64`, so the cast to `i64` keeps them) and builds it with
/// `DateTime::from_timestamp(secs, subsec_nanos).unwrap()`, which accepts no
/// second after 262142-12-31T23:59:59, and the nanoseconds of a
/// `Duration` are below one second.
#[verifier::external_body]
pub(crate) fn now_timestamp() -> (r: (i64, u32))
    ensures
        0 <= r.0 <= MAX_TIMESTAMP,
        r.1 < 1_000_000_000,
{
    let t = chrono::Utc::now();
    (t.timestamp(), t.timestamp_subsec_nanos())
}

/// What `chrono::DateTime::from_timestamp(secs, nanos)`, less
/// `TimeDelta::try_days(days)` by `checked_sub_signed`, written by
/// `to_rfc3339`, gives: the RFC 3339 text of the moment `days` days before
/// the timestamp, or nothing when one of the three steps fails.
pub uninterp spec fn days_before(secs: i64, nanos: u32, days: i64) -> Option<Seq<char>>;

/// Calls `DateTime::from_timestamp`, `TimeDelta::try_days`,
/// `DateTime::checked_sub_signed` and `DateTime::to_rfc3339`; the result
/// is `days_before` of the arguments. Two facts of chrono's source are
/// stated. `try_days` rejects every `days` beyond `days_representable`
/// (its seconds leave `TimeDelta`'s range of `i64::MAX` milliseconds).
/// And every step succeeds for a timestamp in chrono's range
/// (`from_timestamp` accepts 0 to `MAX_TIMESTAMP` with nanoseconds below a
/// second) and `0 <= days <= MAX_STALE_DAYS`: the moment reached is no
/// earlier than 1970 less 262 840 years, after chrono's first year,
/// -262143, and `checked_sub_signed` fails only past chrono's range.
#[verifier::external_body]
pub(crate) fn days_before_rfc3339(secs: i64, nanos: u32, days: i64) -> (r: Option<String>)
    ensures
        opt_view(r) == days_before(secs, nanos, days),
        0 <= secs <= MAX_TIMESTAMP && nanos < 1_000_000_000 && 0 <= days <= MAX_STALE_DAYS ==> r is Some,
        !days_representable(days) ==> r is None,
{
    let t = match chrono::DateTime::from_timestamp(secs, nanos) {
        Some(t) => t,
        None => return None,
    };
    let delta = match chrono::TimeDelta::try_days(days) {
        Some(d) => d,
        None => return None,
    };
    match t.checked_sub_signed(delta) {
        Some(c) => Some(c.to_rfc3339()),
        None => None,
    }
}

/// Calls `uuid::Uuid::new_v4()` and formats it with `to_string`: a random
/// identifier in the hyphenated form, always 36 characters long. Nothing
/// else is promised of it; in particular it is not known to differ from ids
/// already stored.
#[verifier::external_body]
pub(crate) fn new_fact_id() -> (r: String)
    ensures
        r@.len() == 36,
{
    uuid::Uuid::new_v4().to_string()
}

} // verus!
