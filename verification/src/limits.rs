//! Open-file limit and a safe concurrent connection cap.

use vstd::prelude::*;

use crate::config::AppConfig;

verus! {

/// Result of process limit configuration at startup.
#[derive(Debug, Clone, Copy)]
pub struct ProcessLimits {
    pub soft_nofile: u64,
    pub max_connections: usize,
}

/// Default file descriptors reserved for listeners, metrics, logs, and libc overhead.
pub const FD_RESERVE: u64 = 128;

/// A soft limit below this is low for heavy traffic.
pub const LOW_NOFILE: u64 = 4096;

/// Sessions that so many file descriptors carry, two each, the reserve aside.
/// Where not even the reserve is there, one is tried all the same.
pub open spec fn sessions_for(soft_nofile: u64, reserve_fds: u64) -> int {
    if soft_nofile >= reserve_fds {
        (soft_nofile - reserve_fds) / 2
    } else {
        1
    }
}

/// Concurrent sessions allowed: as configured, but no more than the file
/// descriptors carry.
pub open spec fn session_limit(soft_nofile: u64, configured_max: usize, reserve_fds: u64) -> int {
    if configured_max <= sessions_for(soft_nofile, reserve_fds) {
        configured_max as int
    } else {
        sessions_for(soft_nofile, reserve_fds)
    }
}

/// Concurrent sessions allowed: min(configured, (soft − reserve) / 2), and at
/// most one where the soft limit is below the reserve.
pub fn effective_connection_limit(
    soft_nofile: u64,
    configured_max: usize,
    reserve_fds: u64,
) -> (r: usize)
    ensures
        r == session_limit(soft_nofile, configured_max, reserve_fds),
{
    let by_fds: u64 = if soft_nofile >= reserve_fds {
        (soft_nofile - reserve_fds) / 2
    } else {
        1
    };
    if configured_max as u64 <= by_fds {
        configured_max
    } else {
        by_fds as usize
    }
}

/// The limit means "no limit".
pub fn rlim_is_infinity(v: u64, infinity: u64) -> (r: bool)
    ensures
        r == (v == infinity),
{
    v == infinity
}

/// The soft limit to ask for: the target, but no more than the hard limit,
/// unless that is `infinity`. Nothing where the soft limit is high enough or as
/// high as it can be.
pub open spec fn soft_limit_to_set(target: u64, soft: u64, hard: u64, infinity: u64) -> Option<
    u64,
> {
    let want = if hard == infinity || target <= hard {
        target
    } else {
        hard
    };
    if soft >= target || want == soft {
        None
    } else {
        Some(want)
    }
}

/// Raise the soft open-file limit toward `target`, without exceeding the hard
/// limit: the value to set, if any.
pub fn raise_nofile_limit(target: u64, soft: u64, hard: u64, infinity: u64) -> (r: Option<u64>)
    ensures
        r == soft_limit_to_set(target, soft, hard, infinity),
{
    if soft >= target {
        return None;
    }
    let want_soft: u64 = if rlim_is_infinity(hard, infinity) || target <= hard {
        target
    } else {
        hard
    };
    if want_soft == soft {
        return None;
    }
    Some(want_soft)
}

/// The soft limit to raise to, where one is configured.
pub fn nofile_target(cfg: &AppConfig) -> (r: Option<u64>)
    ensures
        r == (if cfg.nofile_limit > 0 {
            Some(cfg.nofile_limit)
        } else {
            None
        }),
{
    if cfg.nofile_limit > 0 {
        Some(cfg.nofile_limit)
    } else {
        None
    }
}

/// The soft limit in force: what it was raised to where a limit is configured
/// and could be set, else the current one.
pub open spec fn soft_in_force(nofile_limit: u64, raised: Option<u64>, current: u64) -> u64 {
    match raised {
        Some(soft) => if nofile_limit > 0 {
            soft
        } else {
            current
        },
        None => current,
    }
}

/// How many proxy sessions are allowed, given the soft limit that it could be
/// raised to, if so, and the one from before.
pub fn apply(cfg: &AppConfig, raised: Option<u64>, current: u64) -> (r: ProcessLimits)
    ensures
        r.soft_nofile == soft_in_force(cfg.nofile_limit, raised, current),
        r.max_connections == session_limit(
            soft_in_force(cfg.nofile_limit, raised, current),
            cfg.max_connections,
            FD_RESERVE,
        ),
{
    let soft: u64 = match raised {
        Some(soft) => if cfg.nofile_limit > 0 {
            soft
        } else {
            current
        },
        None => current,
    };
    ProcessLimits {
        soft_nofile: soft,
        max_connections: effective_connection_limit(soft, cfg.max_connections, FD_RESERVE),
    }
}

impl ProcessLimits {
    /// Fewer sessions are allowed than configured.
    pub fn is_capped(&self, cfg: &AppConfig) -> (r: bool)
        ensures
            r == (self.max_connections < cfg.max_connections),
    {
        self.max_connections < cfg.max_connections
    }

    /// The soft limit is low for heavy traffic.
    pub fn is_low(&self) -> (r: bool)
        ensures
            r == (self.soft_nofile < LOW_NOFILE),
    {
        self.soft_nofile < LOW_NOFILE
    }
}

// ── Laws ─────────────────────────────────────────────────────────────────────

/// The allowed sessions never exceed what is configured, and two descriptors for
/// each of them and the reserve fit a soft limit that holds the reserve. Below
/// the reserve there is one at most.
pub proof fn sessions_fit_descriptors(soft: u64, configured: usize, reserve: u64)
    ensures
        0 <= session_limit(soft, configured, reserve) <= configured,
        soft >= reserve ==> 2 * session_limit(soft, configured, reserve) + reserve <= soft,
        soft < reserve ==> session_limit(soft, configured, reserve) <= 1,
{
}

/// A limit that is set is higher than the one before, at most the target, and
/// within the hard limit unless that means "no limit".
pub proof fn raised_limit_is_allowed(target: u64, soft: u64, hard: u64, infinity: u64)
    requires
        soft <= hard || hard == infinity,
    ensures
        soft_limit_to_set(target, soft, hard, infinity) matches Some(want) ==> soft < want <= target
            && (want <= hard || hard == infinity),
{
}

/// As many sessions are allowed as are configured and fit: no larger number of
/// them is within both. One is tried where not even the reserve is there.
pub proof fn all_sessions_that_fit_are_allowed(
    soft: u64,
    configured: usize,
    reserve: u64,
    sessions: int,
)
    ensures
        soft >= reserve && sessions <= configured && 2 * sessions + reserve <= soft ==> sessions
            <= session_limit(soft, configured, reserve),
        soft < reserve && configured > 0 ==> session_limit(soft, configured, reserve) == 1,
{
}

/// The soft limit is raised as far as it is asked for and allowed: no value up
/// to the target and within the hard limit is higher. It is left alone only
/// where it is there already.
pub proof fn limit_is_raised_as_far_as_allowed(
    target: u64,
    soft: u64,
    hard: u64,
    infinity: u64,
    value: u64,
)
    requires
        value <= target,
        value <= hard || hard == infinity,
        soft <= hard || hard == infinity,
    ensures
        match soft_limit_to_set(target, soft, hard, infinity) {
            Some(want) => value <= want,
            None => value <= soft,
        },
{
}

/// The limit in force is the one that was set, where one was to be set and could
/// be, and else the one from before.
pub proof fn raised_limit_is_in_force(nofile_limit: u64, raised: u64, current: u64)
    ensures
        nofile_limit > 0 ==> soft_in_force(nofile_limit, Some(raised), current) == raised,
        nofile_limit == 0 ==> soft_in_force(nofile_limit, Some(raised), current) == current,
        soft_in_force(nofile_limit, None, current) == current,
{
}

} // verus!
