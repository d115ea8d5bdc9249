//! The reload supervisor's decisions.
//!
//! The supervisor sleeps, wakes on a fixed interval, compares the
//! last-observed modification stamps of the two source files with the
//! current ones, and rebuilds only on a difference — a stamp appearing or
//! disappearing counts as a change. A failed rebuild keeps the previous
//! store; the attempt always returns to the idle state. The sleeping,
//! stat-ing and lock-swapping live with the caller; the decisions are
//! here.

use vstd::prelude::*;
use crate::store::RecordStore;

verus! {

/// The default number of seconds between two change checks.
pub fn reload_interval_secs() -> (s: u64)
    ensures
        s == 5,
{
    5
}

/// The last-observed modification stamps of the two source files, as
/// opaque ticks; absence means the file could not be observed.
pub struct WatchState {
    pub dhcp_stamp: Option<u64>,
    pub hosts_stamp: Option<u64>,
}

/// Equality of two optional stamps.
pub fn stamp_eq(a: &Option<u64>, b: &Option<u64>) -> (r: bool)
    ensures
        r == (a == b),
{
    match (a, b) {
        (Option::None, Option::None) => true,
        (Option::Some(x), Option::Some(y)) => *x == *y,
        _ => false,
    }
}

/// One wake of the supervisor: record the stamps now observed, and say
/// whether a rebuild is due — exactly when either stamp differs from the
/// one last observed.
pub fn watch_step(st: &WatchState, dhcp_now: Option<u64>, hosts_now: Option<u64>) -> (r: (
    bool,
    WatchState,
))
    ensures
        r.0 == (dhcp_now != st.dhcp_stamp || hosts_now != st.hosts_stamp),
        r.1.dhcp_stamp == dhcp_now,
        r.1.hosts_stamp == hosts_now,
{
    let changed = !stamp_eq(&dhcp_now, &st.dhcp_stamp) || !stamp_eq(&hosts_now, &st.hosts_stamp);
    (changed, WatchState { dhcp_stamp: dhcp_now, hosts_stamp: hosts_now })
}

/// The end of one reload attempt: a successful rebuild replaces the
/// store, a failed one keeps the previous store unchanged.
pub fn settle_reload(prev: RecordStore, built: Option<RecordStore>) -> (r: RecordStore)
    ensures
        match built {
            Some(st) => r == st,
            None => r == prev,
        },
{
    match built {
        Option::Some(st) => st,
        Option::None => prev,
    }
}

} // verus!
