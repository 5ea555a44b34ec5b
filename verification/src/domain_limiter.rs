//! Per-domain daily bandwidth and connection-count limits.
//!
//! Limits are keyed by SNI/Host hostname (lowercased). A config key matches the
//! exact name or any subdomain (`api.example.com` matches key `example.com`).
//! Counters reset at UTC midnight. A state file survives restarts.

use std::time::{Duration, SystemTime, SystemTimeError};

use vstd::prelude::*;
use vstd::slice::slice_subrange;

use crate::config::DomainLimitConfig;
use crate::keyed::KeyedList;
use crate::text;

verus! {

/// Version of the saved state.
pub const STATE_VERSION: u8 = 1;

// ── Day index ────────────────────────────────────────────────────────────────

#[verifier::external_type_specification]
#[verifier::external_body]
pub struct ExSystemTime(SystemTime);

#[verifier::external_type_specification]
#[verifier::external_body]
pub struct ExSystemTimeError(SystemTimeError);

/// `SystemTime::now`: the wall clock. Nothing is claimed of the time.
pub assume_specification[ SystemTime::now ]() -> SystemTime
;

/// `SystemTime::duration_since`, from the Unix epoch: an error where the clock
/// stands before it. The length of the span is the clock's and stays unsaid.
#[verifier::external_body]
fn since_epoch(time: SystemTime) -> Result<Duration, SystemTimeError> {
    time.duration_since(SystemTime::UNIX_EPOCH)
}

/// `Duration::as_secs`: whole seconds. The span comes from the clock, so
/// nothing is claimed of the number.
pub assume_specification[ Duration::as_secs ](d: &Duration) -> u64
;

/// The number of the UTC day that `secs` seconds after the Unix epoch fall in.
pub open spec fn utc_day(secs: u64) -> u32 {
    (secs / 86400) as u32
}

/// The number of the UTC day that `secs` seconds after the Unix epoch fall in.
pub fn day_index(secs: u64) -> (day: u32)
    ensures
        day == utc_day(secs),
{
    (secs / 86400) as u32
}

/// The number of the UTC day on a clock that stands so many seconds after the
/// Unix epoch; day 0 where it stands before the epoch.
pub fn clock_day(secs: Option<u64>) -> (day: u32)
    ensures
        day == (match secs {
            Some(secs) => utc_day(secs),
            None => 0,
        }),
{
    match secs {
        Some(secs) => day_index(secs),
        None => 0,
    }
}

/// Today's UTC day number: [`clock_day`] of the system's clock. Which day that
/// is rests with the clock alone, so nothing is promised of it.
pub fn epoch_day_utc() -> u32 {
    let secs: Option<u64> = match since_epoch(SystemTime::now()) {
        Ok(span) => Some(span.as_secs()),
        Err(_) => None,
    };
    clock_day(secs)
}

// ── Saved state ──────────────────────────────────────────────────────────────

/// Seconds between two saves: as configured, but at least one.
pub fn flush_interval(persist_secs: u64) -> (r: u64)
    ensures
        r == (if persist_secs == 0 {
            1
        } else {
            persist_secs
        }),
{
    if persist_secs == 0 {
        1
    } else {
        persist_secs
    }
}

/// Counters of all domains, as they are saved.
#[derive(Debug)]
pub struct PersistedState {
    pub version: u8,
    pub domains: Vec<(String, PersistedDomain)>,
}

/// Saved counters of one domain.
#[derive(Debug, Clone, Copy)]
pub struct PersistedDomain {
    pub day: u32,
    pub bytes: u64,
    pub connections: u64,
}

/// Names and counters in saved order.
pub open spec fn saved_views(saved: Seq<(String, PersistedDomain)>) -> Seq<
    (Seq<char>, PersistedDomain),
> {
    saved.map_values(|e: (String, PersistedDomain)| (e.0@, e.1))
}

// ── Per-domain counters ──────────────────────────────────────────────────────

/// What one domain has used on one day.
#[derive(Debug, Clone, Copy)]
pub struct DomainCounters {
    pub bytes: u64,
    pub connections: u64,
    pub day: u32,
}

/// Nothing used yet.
pub open spec fn unused(today: u32) -> DomainCounters {
    DomainCounters { bytes: 0, connections: 0, day: today }
}

/// The counters as they stand today: those of another day count for nothing.
pub open spec fn refreshed(c: DomainCounters, today: u32) -> DomainCounters {
    if c.day == today {
        c
    } else {
        unused(today)
    }
}

impl DomainCounters {
    /// Nothing used yet.
    pub fn new(today: u32) -> (r: Self)
        ensures
            r == unused(today),
    {
        DomainCounters { bytes: 0, connections: 0, day: today }
    }

    /// Takes over saved counters.
    pub fn restore(&mut self, day: u32, bytes: u64, connections: u64)
        ensures
            *final(self) == (DomainCounters { bytes, connections, day }),
    {
        self.day = day;
        self.bytes = bytes;
        self.connections = connections;
    }

    /// Resets the counters when the day has changed.
    pub fn refresh_if_new_day(&mut self, today: u32)
        ensures
            *final(self) == refreshed(*old(self), today),
    {
        if self.day != today {
            self.day = today;
            self.bytes = 0;
            self.connections = 0;
        }
    }

    /// Day, bytes and connections as they stand today.
    pub fn snapshot(&mut self, today: u32) -> (r: (u32, u64, u64))
        ensures
            *final(self) == refreshed(*old(self), today),
            r == (final(self).day, final(self).bytes, final(self).connections),
    {
        self.refresh_if_new_day(today);
        (self.day, self.bytes, self.connections)
    }
}

// ── Limit exceeded reason ────────────────────────────────────────────────────

/// Why a connection is refused or cut.
#[derive(Debug, Clone, Copy, PartialEq, Eq, Structural)]
pub enum LimitReason {
    DailyBandwidth,
    DailyConnections,
}

impl LimitReason {
    /// The reason as it is printed.
    pub open spec fn text(self) -> Seq<char> {
        match self {
            LimitReason::DailyBandwidth => "daily_bandwidth"@,
            LimitReason::DailyConnections => "daily_connections"@,
        }
    }

    /// The reason as it is printed.
    pub fn to_text(&self) -> (r: String)
        ensures
            r@ == self.text(),
    {
        match self {
            LimitReason::DailyBandwidth => "daily_bandwidth".to_owned(),
            LimitReason::DailyConnections => "daily_connections".to_owned(),
        }
    }
}

// ── Which limit applies ──────────────────────────────────────────────────────

/// `key` covers `name`: it is the name itself or a parent domain of it.
pub open spec fn covers(key: Seq<char>, name: Seq<char>) -> bool {
    name == key || (name.len() > key.len() && name[name.len() - key.len() - 1] == '.' && name.skip(
        name.len() - key.len(),
    ) == key)
}

/// `key` is the most specific of `keys` that covers `name`.
pub open spec fn governs(keys: Set<Seq<char>>, name: Seq<char>, key: Seq<char>) -> bool {
    &&& keys.contains(key)
    &&& covers(key, name)
    &&& forall|k: Seq<char>|
        keys.contains(k) && #[trigger] covers(k, name) ==> k.len() <= key.len()
}

/// The key whose limit applies to the host `sni`, if any does.
pub open spec fn limit_key(keys: Set<Seq<char>>, sni: Seq<char>) -> Option<Seq<char>> {
    let name = text::lowercase(sni);
    if exists|k: Seq<char>| governs(keys, name, k) {
        Some(choose|k: Seq<char>| governs(keys, name, k))
    } else {
        None
    }
}

/// At most one key governs a name.
proof fn lemma_governs_unique(keys: Set<Seq<char>>, name: Seq<char>, a: Seq<char>, b: Seq<char>)
    requires
        governs(keys, name, a),
        governs(keys, name, b),
    ensures
        a == b,
{
    assert(covers(a, name) && covers(b, name));
    assert(a.len() == b.len());
    assert(name.skip(name.len() - a.len()) == a);
    assert(name.skip(name.len() - b.len()) == b);
}

proof fn lemma_limit_key(keys: Set<Seq<char>>, sni: Seq<char>, k: Seq<char>)
    requires
        governs(keys, text::lowercase(sni), k),
    ensures
        limit_key(keys, sni) == Some(k),
{
    let name = text::lowercase(sni);
    let c = choose|c: Seq<char>| governs(keys, name, c);
    lemma_governs_unique(keys, name, c, k);
}

// ── DomainLimiter ────────────────────────────────────────────────────────────

/// A limit and what has been used of it.
#[derive(Debug, Clone, Copy)]
pub struct DomainState {
    pub limit: DomainLimitConfig,
    pub counters: DomainCounters,
}

/// What a [`DomainLimiter`] holds.
pub struct LimiterState {
    pub domains: Map<Seq<char>, DomainState>,
    /// Where the counters are saved
    pub state_file: Option<Seq<char>>,
    /// Counters changed since they were last saved
    pub dirty: bool,
    /// Counters were handed out for saving and have not changed since
    pub handed_out: bool,
}

/// Per-domain limits with today's usage.
pub struct DomainLimiter {
    domains: KeyedList<DomainState>,
    state_file: Option<String>,
    dirty: bool,
    handed_out: bool,
}

/// The configured limits by lowercased key, nothing used yet; of two limits
/// under one key the later one stands.
pub open spec fn fresh_domains(
    limits: Seq<(Seq<char>, DomainLimitConfig)>,
    today: u32,
) -> Map<Seq<char>, DomainState>
    decreases limits.len(),
{
    if limits.len() == 0 {
        Map::empty()
    } else {
        fresh_domains(limits.drop_last(), today).insert(
            text::lowercase(limits.last().0),
            DomainState { limit: limits.last().1, counters: unused(today) },
        )
    }
}

/// The configured limits with their keys as text.
pub open spec fn limit_views(limits: Seq<(String, DomainLimitConfig)>) -> Seq<
    (Seq<char>, DomainLimitConfig),
> {
    limits.map_values(|e: (String, DomainLimitConfig)| (e.0@, e.1))
}

/// The domains after the saved counters of today were taken over, in order.
/// Names without a limit and counters of another day are passed over.
pub open spec fn restored(
    domains: Map<Seq<char>, DomainState>,
    saved: Seq<(Seq<char>, PersistedDomain)>,
    today: u32,
) -> Map<Seq<char>, DomainState>
    decreases saved.len(),
{
    if saved.len() == 0 {
        domains
    } else {
        let before = restored(domains, saved.drop_last(), today);
        let key = text::lowercase(saved.last().0);
        let d = saved.last().1;
        if before.contains_key(key) && d.day == today {
            before.insert(
                key,
                DomainState {
                    limit: before[key].limit,
                    counters: DomainCounters {
                        bytes: d.bytes,
                        connections: d.connections,
                        day: d.day,
                    },
                },
            )
        } else {
            before
        }
    }
}

/// The state with the counters under `key` replaced.
pub open spec fn with_counters(
    s: LimiterState,
    key: Seq<char>,
    counters: DomainCounters,
) -> LimiterState {
    LimiterState {
        domains: s.domains.insert(key, DomainState { limit: s.domains[key].limit, counters }),
        state_file: s.state_file,
        dirty: s.dirty,
        handed_out: s.handed_out,
    }
}

/// The state marked as changed, where a state file is configured.
pub open spec fn marked_dirty(s: LimiterState) -> LimiterState {
    LimiterState {
        domains: s.domains,
        state_file: s.state_file,
        dirty: s.dirty || s.state_file is Some,
        handed_out: s.handed_out && s.state_file is None,
    }
}

/// The state once what was handed out for saving has been written: the mark goes
/// where nothing has changed since.
pub open spec fn after_save(s: LimiterState) -> LimiterState {
    LimiterState {
        domains: s.domains,
        state_file: s.state_file,
        dirty: s.dirty && !s.handed_out,
        handed_out: false,
    }
}

/// All of the day's bandwidth is used.
pub open spec fn bandwidth_spent(limit: DomainLimitConfig, c: DomainCounters) -> bool {
    limit.daily_bandwidth matches Some(max) && c.bytes >= max.0
}

/// One more connection to `domain`: the state after it, and whether it is
/// admitted. Spent bandwidth is reported before spent connections. An admitted
/// connection is counted where the domain has a connection limit.
pub open spec fn connection_checked(s: LimiterState, domain: Seq<char>, today: u32) -> (
    LimiterState,
    Result<(), LimitReason>,
) {
    match limit_key(s.domains.dom(), domain) {
        None => (s, Ok(())),
        Some(key) => {
            let limit = s.domains[key].limit;
            let c = refreshed(s.domains[key].counters, today);
            let now = with_counters(s, key, c);
            if bandwidth_spent(limit, c) {
                (now, Err(LimitReason::DailyBandwidth))
            } else if limit.daily_connections is None {
                (now, Ok(()))
            } else if c.connections >= limit.daily_connections->0 {
                (now, Err(LimitReason::DailyConnections))
            } else {
                (
                    marked_dirty(
                        with_counters(
                            s,
                            key,
                            DomainCounters {
                                bytes: c.bytes,
                                connections: (c.connections + 1) as u64,
                                day: c.day,
                            },
                        ),
                    ),
                    Ok(()),
                )
            }
        },
    }
}

/// The bandwidth counter of `domain` has room for `bytes` more.
pub open spec fn countable(s: LimiterState, domain: Seq<char>, bytes: u64, today: u32) -> bool {
    match limit_key(s.domains.dom(), domain) {
        None => true,
        Some(key) => s.domains[key].limit.daily_bandwidth is Some ==> refreshed(
            s.domains[key].counters,
            today,
        ).bytes + bytes <= u64::MAX,
    }
}

/// `bytes` more transferred for `domain`: the state after it, and whether the
/// transfer may go on. Bytes are counted where the domain has a bandwidth
/// limit, those that exceed it included.
pub open spec fn bytes_accounted(
    s: LimiterState,
    domain: Seq<char>,
    bytes: u64,
    today: u32,
) -> (LimiterState, Result<(), LimitReason>) {
    if bytes == 0 {
        (s, Ok(()))
    } else {
        match limit_key(s.domains.dom(), domain) {
            None => (s, Ok(())),
            Some(key) => match s.domains[key].limit.daily_bandwidth {
                None => (s, Ok(())),
                Some(max) => {
                    let c = refreshed(s.domains[key].counters, today);
                    let used = (c.bytes + bytes) as u64;
                    let now = marked_dirty(
                        with_counters(
                            s,
                            key,
                            DomainCounters { bytes: used, connections: c.connections, day: c.day },
                        ),
                    );
                    if used > max.0 {
                        (now, Err(LimitReason::DailyBandwidth))
                    } else {
                        (now, Ok(()))
                    }
                },
            },
        }
    }
}

/// All counters as they stand today.
pub open spec fn all_refreshed(domains: Map<Seq<char>, DomainState>, today: u32) -> Map<
    Seq<char>,
    DomainState,
> {
    domains.map_values(
        |d: DomainState|
            DomainState { limit: d.limit, counters: refreshed(d.counters, today) },
    )
}

/// `saved` lists each of `domains` once, with its counters.
pub open spec fn lists_domains(
    saved: Seq<(Seq<char>, PersistedDomain)>,
    domains: Map<Seq<char>, DomainState>,
) -> bool {
    &&& forall|k: Seq<char>|
        #[trigger] domains.contains_key(k) <==> exists|i: int|
            0 <= i < saved.len() && (#[trigger] saved[i]).0 == k
    &&& forall|i: int, j: int|
        0 <= i < j < saved.len() ==> (#[trigger] saved[i]).0 != (#[trigger] saved[j]).0
    &&& forall|i: int|
        0 <= i < saved.len() ==> ({
            let c = domains[(#[trigger] saved[i]).0].counters;
            saved[i].1 == (PersistedDomain {
                day: c.day,
                bytes: c.bytes,
                connections: c.connections,
            })
        })
}

impl View for DomainLimiter {
    type V = LimiterState;

    closed spec fn view(&self) -> LimiterState {
        LimiterState {
            domains: self.domains@,
            state_file: match self.state_file {
                Some(p) => Some(p@),
                None => None,
            },
            dirty: self.dirty,
            handed_out: self.handed_out,
        }
    }
}

impl DomainLimiter {
    /// Every key is listed once.
    pub closed spec fn well_formed(&self) -> bool {
        self.domains.well_formed()
    }

    fn set_counters(&mut self, i: usize, counters: DomainCounters)
        requires
            old(self).well_formed(),
            i < old(self).domains.keys().len(),
        ensures
            final(self).well_formed(),
            final(self).domains.keys() == old(self).domains.keys(),
            final(self)@ == with_counters(
                old(self)@,
                old(self).domains.keys()[i as int],
                counters,
            ),
    {
        let limit: DomainLimitConfig = self.domains.value(i).limit;
        self.domains.set(i, DomainState { limit, counters });
    }

    /// Builds a limiter from the configured limits and takes over the counters
    /// that were saved today. Without a state file nothing is taken over.
    pub fn load_on(
        limits: Vec<(String, DomainLimitConfig)>,
        state_file: Option<String>,
        saved: Option<PersistedState>,
        today: u32,
    ) -> (r: Self)
        ensures
            r.well_formed(),
            !r@.dirty,
            !r@.handed_out,
            r@.state_file == (match state_file {
                Some(p) => Some(p@),
                None => None,
            }),
            r@.domains == (if state_file is Some && saved is Some && saved->0.version
                == STATE_VERSION {
                restored(
                    fresh_domains(limit_views(limits@), today),
                    saved_views(saved->0.domains@),
                    today,
                )
            } else {
                fresh_domains(limit_views(limits@), today)
            }),
    {
        let has_file: bool = state_file.is_some();
        let mut limiter = DomainLimiter {
            domains: KeyedList::new(),
            state_file,
            dirty: false,
            handed_out: false,
        };
        let ghost views = limit_views(limits@);
        let ghost file = limiter@.state_file;
        assert(views.take(0) =~= Seq::empty());
        for i in 0..limits.len()
            invariant
                limiter.well_formed(),
                !limiter.dirty,
                !limiter.handed_out,
                limiter@.state_file == file,
                views == limit_views(limits@),
                limiter@.domains == fresh_domains(views.take(i as int), today),
        {
            assert(views.take(i + 1).drop_last() =~= views.take(i as int));
            assert(views.take(i + 1).last() == (limits@[i as int].0@, limits@[i as int].1));
            limiter.domains.insert(
                limits[i].0.to_lowercase(),
                DomainState { limit: limits[i].1, counters: DomainCounters::new(today) },
            );
        }
        assert(views.take(limits@.len() as int) =~= views);
        if has_file {
            match saved {
                Some(state) => limiter.load_from_disk(state, today),
                None => {},
            }
        }
        limiter
    }

    /// [`load_on`](Self::load_on) today.
    pub fn load(
        limits: Vec<(String, DomainLimitConfig)>,
        state_file: Option<String>,
        saved: Option<PersistedState>,
    ) -> (r: Self)
        ensures
            r.well_formed(),
            !r@.dirty,
            !r@.handed_out,
            r@.state_file == (match state_file {
                Some(p) => Some(p@),
                None => None,
            }),
            exists|today: u32|
                r@.domains == (if state_file is Some && saved is Some && saved->0.version
                    == STATE_VERSION {
                    restored(
                        #[trigger] fresh_domains(limit_views(limits@), today),
                        saved_views(saved->0.domains@),
                        today,
                    )
                } else {
                    fresh_domains(limit_views(limits@), today)
                }),
    {
        DomainLimiter::load_on(limits, state_file, saved, epoch_day_utc())
    }

    /// A limiter that saves nothing.
    pub fn new(limits: Vec<(String, DomainLimitConfig)>) -> (r: Self)
        ensures
            r.well_formed(),
            !r@.dirty,
            !r@.handed_out,
            r@.state_file is None,
            exists|today: u32|
                r@.domains == #[trigger] fresh_domains(limit_views(limits@), today),
    {
        DomainLimiter::load(limits, None, None)
    }

    /// Takes over saved counters. A state of another version is left alone.
    pub fn load_from_disk(&mut self, state: PersistedState, today: u32)
        requires
            old(self).well_formed(),
        ensures
            final(self).well_formed(),
            final(self)@.state_file == old(self)@.state_file,
            final(self)@.dirty == old(self)@.dirty,
            final(self)@.handed_out == old(self)@.handed_out,
            final(self)@.domains == (if state.version == STATE_VERSION {
                restored(old(self)@.domains, saved_views(state.domains@), today)
            } else {
                old(self)@.domains
            }),
    {
        if state.version != STATE_VERSION {
            return;
        }
        let ghost views = saved_views(state.domains@);
        let ghost start = self@;
        assert(views.take(0) =~= Seq::empty());
        for i in 0..state.domains.len()
            invariant
                self.well_formed(),
                self@.state_file == start.state_file,
                self@.dirty == start.dirty,
                self@.handed_out == start.handed_out,
                views == saved_views(state.domains@),
                self@.domains == restored(start.domains, views.take(i as int), today),
        {
            let saved: PersistedDomain = state.domains[i].1;
            let key: String = state.domains[i].0.to_lowercase();
            assert(views.take(i + 1).drop_last() =~= views.take(i as int));
            assert(views.take(i + 1).last() == (
                state.domains@[i as int].0@,
                state.domains@[i as int].1,
            ));
            match self.domains.find(key.as_str()) {
                Some(at) => {
                    if saved.day == today {
                        let mut counters: DomainCounters = self.domains.value(at).counters;
                        counters.restore(saved.day, saved.bytes, saved.connections);
                        self.set_counters(at, counters);
                    }
                },
                None => {},
            }
        }
        assert(views.take(views.len() as int) =~= views);
    }

    /// Notes that the counters have changed, where they are saved at all.
    pub fn mark_dirty(&mut self)
        requires
            old(self).well_formed(),
        ensures
            final(self).well_formed(),
            final(self)@ == marked_dirty(old(self)@),
    {
        if self.state_file.is_some() {
            self.dirty = true;
            self.handed_out = false;
        }
    }

    /// The key whose limit applies to the host `sni`: its own, else that of the
    /// nearest parent domain.
    pub fn resolve_limit_key(&self, sni: &str) -> (r: Option<String>)
        requires
            self.well_formed(),
        ensures
            limit_key(self@.domains.dom(), sni@) == (match r {
                Some(key) => Some(key@),
                None => None,
            }),
    {
        match self.resolve_index(sni) {
            Some(i) => Some(self.domains.key(i).to_owned()),
            None => None,
        }
    }

    fn resolve_index(&self, sni: &str) -> (r: Option<usize>)
        requires
            self.well_formed(),
        ensures
            match r {
                Some(i) => i < self.domains.keys().len() && limit_key(self@.domains.dom(), sni@)
                    == Some(self.domains.keys()[i as int]),
                None => limit_key(self@.domains.dom(), sni@) is None,
            },
    {
        let lower: String = sni.to_lowercase();
        let name: Vec<char> = text::chars_of(lower.as_str());
        let ghost keys = self.domains.keys();
        let mut best: Option<usize> = None;
        let mut best_len: usize = 0;
        let n: usize = self.domains.len();
        for i in 0..n
            invariant
                n == keys.len(),
                keys == self.domains.keys(),
                name@ == text::lowercase(sni@),
                match best {
                    Some(b) => {
                        &&& b < i
                        &&& covers(keys[b as int], name@)
                        &&& best_len == keys[b as int].len()
                        &&& forall|j: int|
                            0 <= j < i && covers(#[trigger] keys[j], name@) ==> keys[j].len()
                                <= best_len
                    },
                    None => forall|j: int| 0 <= j < i ==> !covers(#[trigger] keys[j], name@),
                },
        {
            let key: Vec<char> = text::chars_of(self.domains.key(i));
            if key_covers(key.as_slice(), name.as_slice()) && (best.is_none() || key.len()
                > best_len) {
                best = Some(i);
                best_len = key.len();
            }
        }
        proof {
            self.domains.lemma_keys();
            let set = self@.domains.dom();
            match best {
                Some(b) => {
                    let key = keys[b as int];
                    assert(self@.domains.contains_key(key));
                    assert forall|k: Seq<char>|
                        set.contains(k) && #[trigger] covers(k, name@) implies k.len()
                        <= key.len() by {
                        assert(self@.domains.contains_key(k));
                    }
                    lemma_limit_key(set, sni@, key);
                },
                None => {
                    assert forall|k: Seq<char>| !governs(set, name@, k) by {
                        if governs(set, name@, k) {
                            assert(self@.domains.contains_key(k));
                        }
                    }
                },
            }
        }
        best
    }

    /// The limit that applies to the host `sni`, and what has been used of it.
    pub fn counters_for(&self, sni: &str) -> (r: Option<(DomainLimitConfig, DomainCounters)>)
        requires
            self.well_formed(),
        ensures
            r == (match limit_key(self@.domains.dom(), sni@) {
                Some(key) => Some((self@.domains[key].limit, self@.domains[key].counters)),
                None => None,
            }),
    {
        match self.resolve_index(sni) {
            Some(i) => {
                let state: &DomainState = self.domains.value(i);
                Some((state.limit, state.counters))
            },
            None => None,
        }
    }

    /// Asks for one more connection to `domain` on the day `today`.
    pub fn check_connection_on(&mut self, domain: &str, today: u32) -> (r: Result<(), LimitReason>)
        requires
            old(self).well_formed(),
        ensures
            final(self).well_formed(),
            (final(self)@, r) == connection_checked(old(self)@, domain@, today),
    {
        let i: usize = match self.resolve_index(domain) {
            Some(i) => i,
            None => {
                return Ok(());
            },
        };
        let ghost start = self@;
        let ghost key = self.domains.keys()[i as int];
        let DomainState { limit, mut counters } = *self.domains.value(i);
        counters.refresh_if_new_day(today);
        self.set_counters(i, counters);
        if let Some(max_bytes) = limit.daily_bandwidth {
            if counters.bytes >= max_bytes.0 {
                return Err(LimitReason::DailyBandwidth);
            }
        }
        if let Some(max_conn) = limit.daily_connections {
            if counters.connections >= max_conn {
                return Err(LimitReason::DailyConnections);
            }
            let ghost now = self@;
            counters.connections = counters.connections + 1;
            self.set_counters(i, counters);
            assert(self@ == with_counters(start, key, counters)) by {
                assert(self@.domains =~= with_counters(start, key, counters).domains);
            }
            self.mark_dirty();
        }
        Ok(())
    }

    /// Asks for one more connection to `domain` today.
    pub fn check_connection(&mut self, domain: &str) -> (r: Result<(), LimitReason>)
        requires
            old(self).well_formed(),
        ensures
            final(self).well_formed(),
            exists|today: u32|
                (final(self)@, r) == #[trigger] connection_checked(old(self)@, domain@, today),
    {
        self.check_connection_on(domain, epoch_day_utc())
    }

    /// True when the bandwidth counter of `domain` has room for `bytes` more on
    /// the day `today`.
    pub fn can_count(&self, domain: &str, bytes: u64, today: u32) -> (r: bool)
        requires
            self.well_formed(),
        ensures
            r == countable(self@, domain@, bytes, today),
    {
        match self.counters_for(domain) {
            Some((limit, counters)) => {
                let mut now: DomainCounters = counters;
                now.refresh_if_new_day(today);
                limit.daily_bandwidth.is_none() || now.bytes <= u64::MAX - bytes
            },
            None => true,
        }
    }

    /// Counts `bytes` transferred for `domain` on the day `today`.
    pub fn account_bytes_on(&mut self, domain: &str, bytes: u64, today: u32) -> (r: Result<
        (),
        LimitReason,
    >)
        requires
            old(self).well_formed(),
            countable(old(self)@, domain@, bytes, today),
        ensures
            final(self).well_formed(),
            (final(self)@, r) == bytes_accounted(old(self)@, domain@, bytes, today),
    {
        if bytes == 0 {
            return Ok(());
        }
        let i: usize = match self.resolve_index(domain) {
            Some(i) => i,
            None => {
                return Ok(());
            },
        };
        let DomainState { limit, mut counters } = *self.domains.value(i);
        let max_bytes: u64 = match limit.daily_bandwidth {
            Some(max) => max.0,
            None => {
                return Ok(());
            },
        };
        counters.refresh_if_new_day(today);
        counters.bytes = counters.bytes + bytes;
        self.set_counters(i, counters);
        self.mark_dirty();
        if counters.bytes > max_bytes {
            return Err(LimitReason::DailyBandwidth);
        }
        Ok(())
    }

    /// Counts `bytes` transferred for `domain` on the day `today`, if the counter
    /// has room for them; nothing happens where it has not.
    pub fn try_account_bytes_on(&mut self, domain: &str, bytes: u64, today: u32) -> (r: Option<
        Result<(), LimitReason>,
    >)
        requires
            old(self).well_formed(),
        ensures
            final(self).well_formed(),
            r is Some <==> countable(old(self)@, domain@, bytes, today),
            r matches Some(answer) ==> (final(self)@, answer) == bytes_accounted(
                old(self)@,
                domain@,
                bytes,
                today,
            ),
            r is None ==> final(self)@ == old(self)@,
    {
        if self.can_count(domain, bytes, today) {
            Some(self.account_bytes_on(domain, bytes, today))
        } else {
            None
        }
    }

    /// Counts `bytes` transferred for `domain` today, if the counter has room for
    /// them on any day; nothing happens where it has not.
    pub fn try_account_bytes(&mut self, domain: &str, bytes: u64) -> (r: Option<
        Result<(), LimitReason>,
    >)
        requires
            old(self).well_formed(),
        ensures
            final(self).well_formed(),
            r is Some <==> forall|today: u32| #[trigger]
                countable(old(self)@, domain@, bytes, today),
            r matches Some(answer) ==> exists|today: u32|
                (final(self)@, answer) == #[trigger] bytes_accounted(
                    old(self)@,
                    domain@,
                    bytes,
                    today,
                ),
            r is None ==> final(self)@ == old(self)@,
    {
        let day: u32 = match self.counters_for(domain) {
            Some((_, counters)) => counters.day,
            None => 0,
        };
        if self.can_count(domain, bytes, day) {
            assert forall|today: u32| #[trigger] countable(self@, domain@, bytes, today) by {
                assert(countable(self@, domain@, bytes, day));
            }
            Some(self.account_bytes(domain, bytes))
        } else {
            assert(!countable(self@, domain@, bytes, day));
            None
        }
    }

    /// Counts `bytes` transferred for `domain` today.
    pub fn account_bytes(&mut self, domain: &str, bytes: u64) -> (r: Result<(), LimitReason>)
        requires
            old(self).well_formed(),
            forall|today: u32| #[trigger] countable(old(self)@, domain@, bytes, today),
        ensures
            final(self).well_formed(),
            exists|today: u32|
                (final(self)@, r) == #[trigger] bytes_accounted(
                    old(self)@,
                    domain@,
                    bytes,
                    today,
                ),
    {
        let today: u32 = epoch_day_utc();
        assert(countable(self@, domain@, bytes, today));
        self.account_bytes_on(domain, bytes, today)
    }

    /// All counters as they stand on the day `today`, for saving.
    pub fn build_snapshot(&mut self, today: u32) -> (r: PersistedState)
        requires
            old(self).well_formed(),
        ensures
            final(self).well_formed(),
            final(self)@ == (LimiterState {
                domains: all_refreshed(old(self)@.domains, today),
                state_file: old(self)@.state_file,
                dirty: old(self)@.dirty,
                handed_out: old(self)@.handed_out,
            }),
            r.version == STATE_VERSION,
            lists_domains(saved_views(r.domains@), final(self)@.domains),
    {
        let ghost start = self@;
        let ghost keys = self.domains.keys();
        let mut domains: Vec<(String, PersistedDomain)> = Vec::new();
        let n: usize = self.domains.len();
        proof {
            self.domains.lemma_keys();
        }
        for i in 0..n
            invariant
                self.well_formed(),
                self@.state_file == start.state_file,
                self@.dirty == start.dirty,
                self@.handed_out == start.handed_out,
                self@.domains.dom() == start.domains.dom(),
                self.domains.keys() == keys,
                n == keys.len(),
                domains@.len() == i,
                forall|a: int, b: int| 0 <= a < b < n ==> #[trigger] keys[a] != #[trigger] keys[b],
                forall|j: int| 0 <= j < n ==> start.domains.contains_key(#[trigger] keys[j]),
                forall|j: int|
                    0 <= j < n ==> self@.domains[#[trigger] keys[j]] == (DomainState {
                        limit: start.domains[keys[j]].limit,
                        counters: if j < i {
                            refreshed(start.domains[keys[j]].counters, today)
                        } else {
                            start.domains[keys[j]].counters
                        },
                    }),
                forall|j: int|
                    0 <= j < i ==> (#[trigger] domains@[j]).0@ == keys[j] && domains@[j].1 == ({
                        let c = refreshed(start.domains[keys[j]].counters, today);
                        PersistedDomain { day: c.day, bytes: c.bytes, connections: c.connections }
                    }),
        {
            assert(self@.domains.contains_key(keys[i as int]));
            let DomainState { limit, mut counters } = *self.domains.value(i);
            let (day, bytes, connections): (u32, u64, u64) = counters.snapshot(today);
            domains.push(
                (self.domains.key(i).to_owned(), PersistedDomain { day, bytes, connections }),
            );
            self.domains.set(i, DomainState { limit, counters });
            assert(self@.domains.dom() =~= start.domains.dom());
        }
        proof {
            let saved = saved_views(domains@);
            let wanted = all_refreshed(start.domains, today);
            assert(wanted.dom() =~= start.domains.dom());
            assert forall|k: Seq<char>| wanted.contains_key(k) implies self@.domains[k]
                == wanted[k] by {
                assert(start.domains.contains_key(k));
                let j = choose|j: int| 0 <= j < keys.len() && #[trigger] keys[j] == k;
                assert(keys[j] == k);
            }
            assert(self@.domains =~= wanted);
            assert forall|k: Seq<char>| #[trigger] wanted.contains_key(k) <==> exists|i: int|
                0 <= i < saved.len() && (#[trigger] saved[i]).0 == k by {
                if wanted.contains_key(k) {
                    assert(start.domains.contains_key(k));
                    let j = choose|j: int| 0 <= j < keys.len() && #[trigger] keys[j] == k;
                    assert(keys[j] == k);
                    assert(saved[j].0 == k);
                }
                if exists|i: int| 0 <= i < saved.len() && (#[trigger] saved[i]).0 == k {
                    let i = choose|i: int| 0 <= i < saved.len() && (#[trigger] saved[i]).0 == k;
                    assert(keys[i] == k);
                }
            }
            assert forall|i: int, j: int| 0 <= i < j < saved.len() implies (
            #[trigger] saved[i]).0 != (#[trigger] saved[j]).0 by {
                assert(keys[i] != keys[j]);
            }
            assert forall|i: int| 0 <= i < saved.len() implies ({
                let c = wanted[(#[trigger] saved[i]).0].counters;
                saved[i].1 == (PersistedDomain {
                    day: c.day,
                    bytes: c.bytes,
                    connections: c.connections,
                })
            }) by {
                assert(saved[i].0 == keys[i]);
            }
        }
        PersistedState { version: STATE_VERSION, domains }
    }

    /// What to write on the day `today`, and where. Nothing when no state file
    /// is configured.
    pub fn persist_now_on(&mut self, today: u32) -> (r: Option<SaveRequest>)
        requires
            old(self).well_formed(),
        ensures
            final(self).well_formed(),
            save_requested(old(self)@, final(self)@, r, today),
    {
        match self.state_file {
            Some(ref path) => {
                let path: String = path.clone();
                let state: PersistedState = self.build_snapshot(today);
                self.handed_out = true;
                Some(SaveRequest { path, state })
            },
            None => None,
        }
    }

    /// [`persist_now_on`](Self::persist_now_on) today.
    pub fn persist_now(&mut self) -> (r: Option<SaveRequest>)
        requires
            old(self).well_formed(),
        ensures
            final(self).well_formed(),
            exists|today: u32| #[trigger] save_requested(old(self)@, final(self)@, r, today),
    {
        self.persist_now_on(epoch_day_utc())
    }

    /// What to write when counters changed since the last save.
    pub fn flush_if_dirty(&mut self) -> (r: Option<SaveRequest>)
        requires
            old(self).well_formed(),
        ensures
            final(self).well_formed(),
            !old(self)@.dirty ==> r is None && final(self)@ == old(self)@,
            old(self)@.dirty ==> exists|today: u32| #[trigger]
                save_requested(old(self)@, final(self)@, r, today),
    {
        if !self.dirty {
            return None;
        }
        self.persist_now()
    }

    /// Notes that what was last handed out for saving has been written. Counters
    /// that have changed since are still to be saved.
    pub fn saved(&mut self)
        requires
            old(self).well_formed(),
        ensures
            final(self).well_formed(),
            final(self)@ == after_save(old(self)@),
    {
        if self.handed_out {
            self.dirty = false;
            self.handed_out = false;
        }
    }
}

/// Counters to write, and the file that they go to.
pub struct SaveRequest {
    pub path: String,
    pub state: PersistedState,
}

/// A save on the day `today` takes the limiter from `before` to `after` and
/// hands out `request`: the counters as they stand today, when a state file is
/// configured, and nothing when none is.
pub open spec fn save_requested(
    before: LimiterState,
    after: LimiterState,
    request: Option<SaveRequest>,
    today: u32,
) -> bool {
    match before.state_file {
        None => request is None && after == before,
        Some(path) => {
            &&& after.domains == all_refreshed(before.domains, today)
            &&& after.state_file == before.state_file
            &&& after.dirty == before.dirty
            &&& after.handed_out
            &&& request is Some
            &&& request->0.path@ == path
            &&& request->0.state.version == STATE_VERSION
            &&& lists_domains(saved_views(request->0.state.domains@), after.domains)
        },
    }
}

fn key_covers(key: &[char], name: &[char]) -> (r: bool)
    ensures
        r == covers(key@, name@),
{
    if text::same(name, key) {
        return true;
    }
    if name.len() <= key.len() {
        return false;
    }
    let at: usize = name.len() - key.len();
    assert(name@.subrange(at as int, name@.len() as int) == name@.skip(at as int));
    name[at - 1] == '.' && text::same(slice_subrange(name, at, name.len()), key)
}

// ── Laws ─────────────────────────────────────────────────────────────────────

/// Something that is asked of a limiter.
pub enum Request {
    /// One more connection to a domain
    Connect(Seq<char>),
    /// Bytes transferred for a domain
    Transfer(Seq<char>, u64),
}

impl Request {
    /// The domain that the request is about.
    pub open spec fn domain(self) -> Seq<char> {
        match self {
            Request::Connect(domain) => domain,
            Request::Transfer(domain, _) => domain,
        }
    }
}

/// The state after a request and the answer to it.
pub open spec fn answered(s: LimiterState, request: Request, today: u32) -> (
    LimiterState,
    Result<(), LimitReason>,
) {
    match request {
        Request::Connect(domain) => connection_checked(s, domain, today),
        Request::Transfer(domain, bytes) => bytes_accounted(s, domain, bytes, today),
    }
}

/// The state after the requests of one day, in order.
pub open spec fn after_all(s: LimiterState, requests: Seq<Request>, today: u32) -> LimiterState
    decreases requests.len(),
{
    if requests.len() == 0 {
        s
    } else {
        answered(after_all(s, requests.drop_last(), today), requests.last(), today).0
    }
}

/// Every transfer among the requests finds room in the byte counter.
pub open spec fn all_countable(s: LimiterState, requests: Seq<Request>, today: u32) -> bool
    decreases requests.len(),
{
    requests.len() > 0 ==> {
        &&& all_countable(s, requests.drop_last(), today)
        &&& requests.last() matches Request::Transfer(domain, bytes) ==> countable(
            after_all(s, requests.drop_last(), today),
            domain,
            bytes,
            today,
        )
    }
}

/// How many connections under `key` are admitted.
pub open spec fn admitted(
    s: LimiterState,
    requests: Seq<Request>,
    key: Seq<char>,
    today: u32,
) -> nat
    decreases requests.len(),
{
    if requests.len() == 0 {
        0
    } else {
        let before = after_all(s, requests.drop_last(), today);
        let last = requests.last();
        admitted(s, requests.drop_last(), key, today) + if last is Connect && limit_key(
            before.domains.dom(),
            last.domain(),
        ) == Some(key) && answered(before, last, today).1 is Ok {
            1nat
        } else {
            0nat
        }
    }
}

/// What is used of the limit under `key` today.
pub open spec fn used_today(s: LimiterState, key: Seq<char>, today: u32) -> DomainCounters {
    refreshed(s.domains[key].counters, today)
}

proof fn lemma_limit_key_known(keys: Set<Seq<char>>, sni: Seq<char>)
    ensures
        limit_key(keys, sni) matches Some(k) ==> governs(keys, text::lowercase(sni), k),
{
}

/// One answer leaves every other domain alone, and every limit as it is.
pub proof fn other_domains_untouched(s: LimiterState, request: Request, today: u32)
    ensures
        ({
            let after = answered(s, request, today).0;
            &&& after.domains.dom() == s.domains.dom()
            &&& after.state_file == s.state_file
            &&& forall|k: Seq<char>| #[trigger]
                s.domains.contains_key(k) ==> after.domains[k].limit == s.domains[k].limit
            &&& forall|k: Seq<char>| #[trigger]
                s.domains.contains_key(k) && limit_key(s.domains.dom(), request.domain()) != Some(k)
                    ==> after.domains[k] == s.domains[k]
        }),
{
    lemma_limit_key_known(s.domains.dom(), request.domain());
    let after = answered(s, request, today).0;
    assert(after.domains.dom() =~= s.domains.dom());
}

proof fn lemma_after_all(s: LimiterState, requests: Seq<Request>, key: Seq<char>, today: u32)
    requires
        s.domains.contains_key(key),
        all_countable(s, requests, today),
    ensures
        ({
            let after = after_all(s, requests, today);
            let max = s.domains[key].limit.daily_connections;
            let before = used_today(s, key, today);
            let now = used_today(after, key, today);
            &&& after.domains.dom() == s.domains.dom()
            &&& after.domains[key].limit == s.domains[key].limit
            &&& now.bytes >= before.bytes
            &&& max is Some ==> now.connections == before.connections + admitted(
                s,
                requests,
                key,
                today,
            )
            &&& max is Some ==> now.connections <= before.connections || now.connections <= max->0
        }),
    decreases requests.len(),
{
    if requests.len() > 0 {
        lemma_after_all(s, requests.drop_last(), key, today);
        let before = after_all(s, requests.drop_last(), today);
        let last = requests.last();
        other_domains_untouched(before, last, today);
        let after = after_all(s, requests, today);
        assert(after == answered(before, last, today).0);
        if limit_key(before.domains.dom(), last.domain()) == Some(key) {
            lemma_limit_key_known(before.domains.dom(), last.domain());
        }
    }
}

/// No more connections to a domain are admitted on one day than its limit
/// allows, whatever else is asked in between; those counted before the first
/// request are part of the allowance.
pub proof fn daily_connections_respected(
    s: LimiterState,
    requests: Seq<Request>,
    key: Seq<char>,
    max: u64,
    today: u32,
)
    requires
        s.domains.contains_key(key),
        s.domains[key].limit.daily_connections == Some(max),
        all_countable(s, requests, today),
    ensures
        admitted(s, requests, key, today) == 0 || used_today(s, key, today).connections + admitted(
            s,
            requests,
            key,
            today,
        ) <= max,
        used_today(after_all(s, requests, today), key, today).connections == used_today(
            s,
            key,
            today,
        ).connections + admitted(s, requests, key, today),
{
    lemma_after_all(s, requests, key, today);
}

/// How many bytes are transferred under `key` with leave to go on.
pub open spec fn transferred(
    s: LimiterState,
    requests: Seq<Request>,
    key: Seq<char>,
    today: u32,
) -> int
    decreases requests.len(),
{
    if requests.len() == 0 {
        0
    } else {
        let before = after_all(s, requests.drop_last(), today);
        transferred(s, requests.drop_last(), key, today) + match requests.last() {
            Request::Transfer(domain, bytes) => if limit_key(before.domains.dom(), domain) == Some(
                key,
            ) && answered(before, requests.last(), today).1 is Ok {
                bytes as int
            } else {
                0
            },
            Request::Connect(_) => 0,
        }
    }
}

/// No more bytes pass for a domain on one day with leave to go on than its
/// limit allows, in however many connections and chunks, whatever else is asked
/// in between; those counted before the first request are part of the
/// allowance.
pub proof fn daily_bandwidth_respected(
    s: LimiterState,
    requests: Seq<Request>,
    key: Seq<char>,
    max: crate::config::ByteSize,
    today: u32,
)
    requires
        s.domains.contains_key(key),
        s.domains[key].limit.daily_bandwidth == Some(max),
        all_countable(s, requests, today),
    ensures
        transferred(s, requests, key, today) == 0 || used_today(s, key, today).bytes + transferred(
            s,
            requests,
            key,
            today,
        ) <= max.0,
        used_today(after_all(s, requests, today), key, today).bytes >= used_today(
            s,
            key,
            today,
        ).bytes + transferred(s, requests, key, today),
    decreases requests.len(),
{
    if requests.len() > 0 {
        let init = requests.drop_last();
        daily_bandwidth_respected(s, init, key, max, today);
        lemma_after_all(s, init, key, today);
        let before = after_all(s, init, today);
        let last = requests.last();
        other_domains_untouched(before, last, today);
        assert(after_all(s, requests, today) == answered(before, last, today).0);
        if limit_key(before.domains.dom(), last.domain()) == Some(key) {
            lemma_limit_key_known(before.domains.dom(), last.domain());
        }
    }
}

/// Once a domain's bandwidth is spent, every connection to it is refused for
/// the rest of the day, whatever else is asked in between.
pub proof fn spent_bandwidth_refuses(
    s: LimiterState,
    requests: Seq<Request>,
    domain: Seq<char>,
    key: Seq<char>,
    today: u32,
)
    requires
        limit_key(s.domains.dom(), domain) == Some(key),
        bandwidth_spent(s.domains[key].limit, used_today(s, key, today)),
        all_countable(s, requests, today),
    ensures
        connection_checked(after_all(s, requests, today), domain, today).1 == Err::<(), _>(
            LimitReason::DailyBandwidth,
        ),
{
    lemma_limit_key_known(s.domains.dom(), domain);
    lemma_after_all(s, requests, key, today);
}

/// A transfer that is cut for exceeding the limit leaves the bandwidth spent:
/// connections are refused for the rest of the day. So does one that uses the
/// limit up exactly, though it may go on.
pub proof fn exhausting_transfer_refuses(
    s: LimiterState,
    domain: Seq<char>,
    bytes: u64,
    key: Seq<char>,
    max: crate::config::ByteSize,
    today: u32,
)
    requires
        limit_key(s.domains.dom(), domain) == Some(key),
        s.domains[key].limit.daily_bandwidth == Some(max),
        countable(s, domain, bytes, today),
        bytes > 0,
    ensures
        ({
            let (after, answer) = bytes_accounted(s, domain, bytes, today);
            let used = used_today(s, key, today).bytes + bytes;
            &&& answer is Err <==> used > max.0
            &&& bandwidth_spent(after.domains[key].limit, used_today(after, key, today)) <==> used
                >= max.0
            &&& connection_checked(after, domain, today).1 == Err::<(), _>(
                LimitReason::DailyBandwidth,
            ) <==> used >= max.0
        }),
{
    lemma_limit_key_known(s.domains.dom(), domain);
    other_domains_untouched(s, Request::Transfer(domain, bytes), today);
}

/// Counters reset at midnight: on a day that is not that of the counters, a
/// connection is judged as if nothing had been used.
pub proof fn new_day_starts_afresh(
    s: LimiterState,
    domain: Seq<char>,
    key: Seq<char>,
    today: u32,
)
    requires
        limit_key(s.domains.dom(), domain) == Some(key),
        s.domains[key].counters.day != today,
    ensures
        ({
            let limit = s.domains[key].limit;
            connection_checked(s, domain, today).1 == (if limit.daily_bandwidth == Some(
                crate::config::ByteSize(0),
            ) {
                Err(LimitReason::DailyBandwidth)
            } else if limit.daily_connections == Some(0u64) {
                Err(LimitReason::DailyConnections)
            } else {
                Ok(())
            })
        }),
        connection_checked(s, domain, today) == connection_checked(
            with_counters(s, key, unused(today)),
            domain,
            today,
        ),
{
    lemma_limit_key_known(s.domains.dom(), domain);
    let fresh = with_counters(s, key, unused(today));
    assert(fresh.domains.dom() =~= s.domains.dom());
    assert forall|c: DomainCounters| #[trigger]
        with_counters(fresh, key, c) == with_counters(s, key, c) by {
        assert(with_counters(fresh, key, c).domains =~= with_counters(s, key, c).domains);
    }
}

/// Names that differ in case only are one name.
pub proof fn case_does_not_matter(s: LimiterState, a: Seq<char>, b: Seq<char>, today: u32)
    requires
        text::lowercase(a) == text::lowercase(b),
    ensures
        connection_checked(s, a, today) == connection_checked(s, b, today),
        forall|bytes: u64| #[trigger]
            bytes_accounted(s, a, bytes, today) == bytes_accounted(s, b, bytes, today),
{
}

/// A name that has a limit of its own goes by that limit.
pub proof fn own_limit_wins(keys: Set<Seq<char>>, sni: Seq<char>)
    requires
        keys.contains(text::lowercase(sni)),
    ensures
        limit_key(keys, sni) == Some(text::lowercase(sni)),
{
    let name = text::lowercase(sni);
    assert(governs(keys, name, name));
    lemma_limit_key(keys, sni, name);
}

/// A subdomain goes by the limit of the nearest parent domain that has one.
pub proof fn nearest_parent_applies(
    keys: Set<Seq<char>>,
    sni: Seq<char>,
    label: Seq<char>,
    key: Seq<char>,
)
    requires
        text::lowercase(sni) == label + seq!['.'] + key,
        keys.contains(key),
        forall|k: Seq<char>|
            keys.contains(k) && #[trigger] covers(k, text::lowercase(sni)) ==> k.len()
                <= key.len(),
    ensures
        limit_key(keys, sni) == Some(key),
{
    let name = text::lowercase(sni);
    assert(name.skip(name.len() - key.len()) =~= key);
    lemma_limit_key(keys, sni, key);
}

/// A name that no key covers is never refused and never counted.
pub proof fn uncovered_is_unlimited(s: LimiterState, domain: Seq<char>, today: u32)
    requires
        forall|k: Seq<char>|
            s.domains.contains_key(k) ==> !#[trigger] covers(k, text::lowercase(domain)),
    ensures
        connection_checked(s, domain, today) == (s, Ok::<(), LimitReason>(())),
        forall|bytes: u64| #[trigger]
            bytes_accounted(s, domain, bytes, today) == (s, Ok::<(), LimitReason>(())),
{
    lemma_limit_key_known(s.domains.dom(), domain);
}

/// A domain whose two limits are left out is never refused.
pub proof fn both_left_out_is_unlimited(
    s: LimiterState,
    domain: Seq<char>,
    key: Seq<char>,
    today: u32,
)
    requires
        limit_key(s.domains.dom(), domain) == Some(key),
        s.domains[key].limit.daily_bandwidth is None,
        s.domains[key].limit.daily_connections is None,
    ensures
        connection_checked(s, domain, today).1 is Ok,
        forall|bytes: u64| (#[trigger] bytes_accounted(s, domain, bytes, today)).1 is Ok,
{
}

proof fn lemma_restored_keys(
    domains: Map<Seq<char>, DomainState>,
    saved: Seq<(Seq<char>, PersistedDomain)>,
    today: u32,
)
    ensures
        restored(domains, saved, today).dom() == domains.dom(),
        forall|k: Seq<char>| #[trigger]
            domains.contains_key(k) ==> restored(domains, saved, today)[k].limit
                == domains[k].limit,
    decreases saved.len(),
{
    if saved.len() > 0 {
        lemma_restored_keys(domains, saved.drop_last(), today);
        assert(restored(domains, saved, today).dom() =~= domains.dom());
    }
}

proof fn lemma_restored_counters(
    domains: Map<Seq<char>, DomainState>,
    saved: Seq<(Seq<char>, PersistedDomain)>,
    today: u32,
    k: Seq<char>,
)
    requires
        domains.contains_key(k),
        forall|i: int|
            0 <= i < saved.len() ==> text::lowercase((#[trigger] saved[i]).0) == saved[i].0,
        forall|i: int, j: int|
            0 <= i < j < saved.len() ==> (#[trigger] saved[i]).0 != (#[trigger] saved[j]).0,
    ensures
        (forall|i: int| 0 <= i < saved.len() ==> (#[trigger] saved[i]).0 != k) ==> restored(
            domains,
            saved,
            today,
        )[k] == domains[k],
        forall|i: int|
            0 <= i < saved.len() && (#[trigger] saved[i]).0 == k && saved[i].1.day == today
                ==> restored(domains, saved, today)[k].counters == (DomainCounters {
                bytes: saved[i].1.bytes,
                connections: saved[i].1.connections,
                day: today,
            }),
    decreases saved.len(),
{
    if saved.len() > 0 {
        let init = saved.drop_last();
        assert forall|i: int| 0 <= i < init.len() implies text::lowercase((#[trigger] init[i]).0)
            == init[i].0 by {
            assert(init[i] == saved[i]);
        }
        assert forall|i: int, j: int| 0 <= i < j < init.len() implies (#[trigger] init[i]).0 != (
        #[trigger] init[j]).0 by {
            assert(init[i] == saved[i] && init[j] == saved[j]);
        }
        lemma_restored_counters(domains, init, today, k);
        lemma_restored_keys(domains, init, today);
        let last = saved.len() - 1;
        assert(saved[last] == saved.last());
        assert forall|i: int|
            0 <= i < saved.len() && (#[trigger] saved[i]).0 == k && saved[i].1.day
                == today implies restored(domains, saved, today)[k].counters == (DomainCounters {
            bytes: saved[i].1.bytes,
            connections: saved[i].1.connections,
            day: today,
        }) by {
            if i < last {
                assert(init[i] == saved[i]);
                assert(saved[i].0 != saved[last].0);
            }
        }
        if forall|i: int| 0 <= i < saved.len() ==> (#[trigger] saved[i]).0 != k {
            assert forall|i: int| 0 <= i < init.len() implies (#[trigger] init[i]).0 != k by {
                assert(init[i] == saved[i]);
            }
        }
    }
}

/// Usage survives a restart: a limiter built from the same limits on the day of
/// the save takes over the counters that were saved, all of them and nothing
/// else. The keys are such as a limiter holds, their own lowercase form.
pub proof fn saved_usage_is_restored(
    limits: Seq<(Seq<char>, DomainLimitConfig)>,
    domains: Map<Seq<char>, DomainState>,
    saved: Seq<(Seq<char>, PersistedDomain)>,
    today: u32,
)
    requires
        lists_domains(saved, all_refreshed(domains, today)),
        fresh_domains(limits, today).dom() == domains.dom(),
        forall|k: Seq<char>| #[trigger]
            domains.contains_key(k) ==> fresh_domains(limits, today)[k].limit == domains[k].limit
                && text::lowercase(k) == k,
    ensures
        restored(fresh_domains(limits, today), saved, today) == all_refreshed(domains, today),
{
    let fresh = fresh_domains(limits, today);
    let after = restored(fresh, saved, today);
    let wanted = all_refreshed(domains, today);
    lemma_restored_keys(fresh, saved, today);
    assert(wanted.dom() =~= domains.dom());
    assert forall|i: int| 0 <= i < saved.len() implies text::lowercase((#[trigger] saved[i]).0)
        == saved[i].0 by {
        assert(wanted.contains_key(saved[i].0));
        assert(domains.contains_key(saved[i].0));
    }
    assert forall|k: Seq<char>| wanted.contains_key(k) implies after[k] == wanted[k] by {
        assert(domains.contains_key(k));
        assert(fresh.contains_key(k));
        lemma_restored_counters(fresh, saved, today, k);
        let i = choose|i: int| 0 <= i < saved.len() && (#[trigger] saved[i]).0 == k;
        assert(saved[i].0 == k);
    }
    assert(after =~= wanted);
}

/// No change is lost between saves: once what was handed out has been written
/// nothing is left to save, unless counters changed after the hand-out; such a
/// change stays marked for the next save.
pub proof fn later_changes_are_saved_next(
    before: LimiterState,
    handed: LimiterState,
    request: Option<SaveRequest>,
    today: u32,
    key: Seq<char>,
    counters: DomainCounters,
)
    requires
        before.state_file is Some,
        save_requested(before, handed, request, today),
    ensures
        !after_save(handed).dirty,
        after_save(marked_dirty(with_counters(handed, key, counters))).dirty,
{
}

/// Usage of another day is not taken over.
pub proof fn stale_usage_is_not_restored(
    domains: Map<Seq<char>, DomainState>,
    saved: Seq<(Seq<char>, PersistedDomain)>,
    today: u32,
)
    requires
        forall|i: int| 0 <= i < saved.len() ==> (#[trigger] saved[i]).1.day != today,
    ensures
        restored(domains, saved, today) == domains,
    decreases saved.len(),
{
    if saved.len() > 0 {
        assert forall|i: int| 0 <= i < saved.drop_last().len() implies (
        #[trigger] saved.drop_last()[i]).1.day != today by {
            assert(saved.drop_last()[i] == saved[i]);
        }
        stale_usage_is_not_restored(domains, saved.drop_last(), today);
        assert(saved[saved.len() - 1] == saved.last());
    }
}

/// Days follow the calendar: one begins at every multiple of 24 hours after the
/// Unix epoch and lasts until the next.
pub proof fn days_are_calendar_days(secs: u64)
    requires
        secs / 86400 <= u32::MAX,
    ensures
        utc_day(secs) * 86400 <= secs < (utc_day(secs) + 1) * 86400,
{
}

/// A connection is refused for bandwidth exactly where all of the day's bytes
/// are used, and for connections exactly where bytes are left and all of the
/// day's connections are used; every other is admitted. An admitted one counts
/// for one where connections are limited, and nothing else is counted.
pub proof fn connection_is_judged_by_what_is_used(
    s: LimiterState,
    domain: Seq<char>,
    key: Seq<char>,
    today: u32,
)
    requires
        limit_key(s.domains.dom(), domain) == Some(key),
    ensures
        ({
            let limit = s.domains[key].limit;
            let old = s.domains[key].counters;
            let bytes = if old.day == today {
                old.bytes
            } else {
                0
            };
            let connections = if old.day == today {
                old.connections
            } else {
                0
            };
            let no_bytes = limit.daily_bandwidth matches Some(max) && bytes >= max.0;
            let no_connections = limit.daily_connections matches Some(max) && connections >= max;
            let (after, answer) = connection_checked(s, domain, today);
            let new = after.domains[key].counters;
            &&& answer == Err::<(), _>(LimitReason::DailyBandwidth) <==> no_bytes
            &&& answer == Err::<(), _>(LimitReason::DailyConnections) <==> !no_bytes
                && no_connections
            &&& answer is Ok <==> !no_bytes && !no_connections
            &&& new.day == today
            &&& new.bytes == bytes
            &&& new.connections == connections + (if answer is Ok && limit.daily_connections
                is Some {
                1int
            } else {
                0int
            })
            &&& answer is Ok && limit.daily_connections is Some && s.state_file is Some
                ==> after.dirty
        }),
{
    lemma_limit_key_known(s.domains.dom(), domain);
}

/// A transfer may go on exactly as long as the day's bytes, those of the
/// transfer included, do not exceed the limit; they are counted either way, and
/// nothing else is.
pub proof fn transfer_is_judged_by_what_is_used(
    s: LimiterState,
    domain: Seq<char>,
    bytes: u64,
    key: Seq<char>,
    max: crate::config::ByteSize,
    today: u32,
)
    requires
        limit_key(s.domains.dom(), domain) == Some(key),
        s.domains[key].limit.daily_bandwidth == Some(max),
        bytes > 0,
        s.domains[key].counters.day == today ==> s.domains[key].counters.bytes + bytes <= u64::MAX,
    ensures
        ({
            let old = s.domains[key].counters;
            let used = bytes + (if old.day == today {
                old.bytes as int
            } else {
                0
            });
            let (after, answer) = bytes_accounted(s, domain, bytes, today);
            let new = after.domains[key].counters;
            &&& answer is Ok <==> used <= max.0
            &&& answer is Err <==> answer == Err::<(), _>(LimitReason::DailyBandwidth)
            &&& new.day == today
            &&& new.bytes == used
            &&& new.connections == (if old.day == today {
                old.connections
            } else {
                0
            })
            &&& s.state_file is Some ==> after.dirty
            &&& countable(s, domain, bytes, today)
        }),
{
    lemma_limit_key_known(s.domains.dom(), domain);
}

/// A transfer without a bandwidth limit goes on and leaves no trace, and so does
/// one of no bytes.
pub proof fn unlimited_transfer_goes_on(
    s: LimiterState,
    domain: Seq<char>,
    bytes: u64,
    today: u32,
)
    requires
        bytes == 0 || (limit_key(s.domains.dom(), domain) matches Some(key)
            ==> s.domains[key].limit.daily_bandwidth is None),
    ensures
        bytes_accounted(s, domain, bytes, today) == (s, Ok::<(), LimitReason>(())),
{
}

/// `name` is `key` or a subdomain of it.
pub open spec fn is_under(name: Seq<char>, key: Seq<char>) -> bool {
    name == key || exists|label: Seq<char>| name == #[trigger] (label + seq!['.'] + key)
}

proof fn lemma_is_under(name: Seq<char>, key: Seq<char>)
    ensures
        is_under(name, key) <==> covers(key, name),
{
    if covers(key, name) && name != key {
        let n = name.len() - key.len();
        let label = name.take(n - 1);
        assert(name =~= label + seq!['.'] + key) by {
            let built = label + seq!['.'] + key;
            assert(built.len() == name.len());
            assert forall|i: int| 0 <= i < name.len() implies name[i] == built[i] by {
                if i >= n {
                    assert(name.skip(n)[i - n] == name[i]);
                }
            }
        }
    }
    if is_under(name, key) && name != key {
        let label = choose|label: Seq<char>| name == #[trigger] (label + seq!['.'] + key);
        assert(name.skip(name.len() - key.len()) =~= key);
    }
}

proof fn lemma_longest_key(keys: Set<Seq<char>>, name: Seq<char>, k: Seq<char>)
    requires
        keys.contains(k),
        covers(k, name),
    ensures
        exists|g: Seq<char>| governs(keys, name, g),
    decreases name.len() - k.len(),
{
    if exists|l: Seq<char>| keys.contains(l) && #[trigger] covers(l, name) && l.len() > k.len() {
        let l = choose|l: Seq<char>|
            keys.contains(l) && #[trigger] covers(l, name) && l.len() > k.len();
        lemma_longest_key(keys, name, l);
    } else {
        assert(governs(keys, name, k));
    }
}

/// The limit that applies is that of the longest key that the name is or lies
/// under, in lower case; none applies only where there is no such key.
pub proof fn longest_matching_key_applies(
    keys: Set<Seq<char>>,
    sni: Seq<char>,
    key: Seq<char>,
)
    ensures
        ({
            let name = text::lowercase(sni);
            &&& limit_key(keys, sni) == Some(key) <==> keys.contains(key) && is_under(name, key)
                && forall|k: Seq<char>| #[trigger]
                keys.contains(k) && is_under(name, k) ==> k.len() <= key.len()
            &&& limit_key(keys, sni) is None <==> forall|k: Seq<char>| #[trigger]
                keys.contains(k) ==> !is_under(name, k)
        }),
{
    let name = text::lowercase(sni);
    assert forall|k: Seq<char>| #[trigger] is_under(name, k) == covers(k, name) by {
        lemma_is_under(name, k);
    }
    lemma_limit_key_known(keys, sni);
    if keys.contains(key) && is_under(name, key) && forall|k: Seq<char>| #[trigger]
        keys.contains(k) && is_under(name, k) ==> k.len() <= key.len() {
        assert(governs(keys, name, key));
        lemma_limit_key(keys, sni, key);
    }
    if limit_key(keys, sni) is None {
        assert forall|k: Seq<char>| #[trigger] keys.contains(k) implies !is_under(name, k) by {
            if is_under(name, k) {
                lemma_longest_key(keys, name, k);
            }
        }
    }
    if forall|k: Seq<char>| #[trigger] keys.contains(k) ==> !is_under(name, k) {
        if limit_key(keys, sni) is Some {
            assert(keys.contains(limit_key(keys, sni)->0));
        }
    }
    if limit_key(keys, sni) == Some(key) {
        assert(governs(keys, name, key));
        assert forall|k: Seq<char>| #[trigger] keys.contains(k) && is_under(name, k) implies k.len()
            <= key.len() by {
            assert(covers(k, name));
        }
    }
}

/// Every configured limit applies under its name in lower case, as it is
/// configured and with nothing used, and no other does; of two for one name the
/// later one stands.
pub proof fn configured_limits_are_kept(
    limits: Seq<(Seq<char>, DomainLimitConfig)>,
    i: int,
    key: Seq<char>,
    today: u32,
)
    ensures
        0 <= i < limits.len() && (forall|j: int|
            i < j < limits.len() ==> text::lowercase((#[trigger] limits[j]).0) != text::lowercase(
                limits[i].0,
            )) ==> {
            let domains = fresh_domains(limits, today);
            let name = text::lowercase(limits[i].0);
            &&& domains.contains_key(name)
            &&& domains[name].limit == limits[i].1
            &&& domains[name].counters == (DomainCounters { bytes: 0, connections: 0, day: today })
        },
        fresh_domains(limits, today).contains_key(key) <==> exists|j: int|
            0 <= j < limits.len() && text::lowercase((#[trigger] limits[j]).0) == key,
    decreases limits.len(),
{
    if limits.len() > 0 {
        let init = limits.drop_last();
        assert(forall|j: int| 0 <= j < init.len() ==> #[trigger] init[j] == limits[j]);
        assert(limits.last() == limits[limits.len() - 1]);
        configured_limits_are_kept(init, i, key, today);
        if exists|j: int| 0 <= j < init.len() && text::lowercase((#[trigger] init[j]).0) == key {
            let j = choose|j: int|
                0 <= j < init.len() && text::lowercase((#[trigger] init[j]).0) == key;
            assert(text::lowercase(limits[j].0) == key);
        }
        if exists|j: int|
            0 <= j < limits.len() && text::lowercase((#[trigger] limits[j]).0) == key {
            let j = choose|j: int|
                0 <= j < limits.len() && text::lowercase((#[trigger] limits[j]).0) == key;
            if j < init.len() {
                assert(text::lowercase(init[j].0) == key);
            }
        }
        if 0 <= i < init.len() {
            if forall|j: int|
                i < j < limits.len() ==> text::lowercase((#[trigger] limits[j]).0)
                    != text::lowercase(limits[i].0) {
                assert forall|j: int| i < j < init.len() implies text::lowercase(
                    (#[trigger] init[j]).0,
                ) != text::lowercase(init[i].0) by {
                    assert(init[j] == limits[j]);
                }
                assert(text::lowercase(limits[limits.len() - 1].0) != text::lowercase(limits[i].0));
            }
        }
    }
}

/// What is saved is what was used today: counters of today are kept as they are
/// and those of another day stand at nothing, under the same limits.
pub proof fn usage_of_today_is_saved(domains: Map<Seq<char>, DomainState>, today: u32)
    ensures
        all_refreshed(domains, today).dom() == domains.dom(),
        forall|k: Seq<char>| #[trigger]
            domains.contains_key(k) ==> {
                let old = domains[k];
                let new = all_refreshed(domains, today)[k];
                &&& new.limit == old.limit
                &&& new.counters.day == today
                &&& old.counters.day == today ==> new.counters == old.counters
                &&& old.counters.day != today ==> new.counters.bytes == 0
                    && new.counters.connections == 0
            },
{
    assert(all_refreshed(domains, today).dom() =~= domains.dom());
}

/// What is handed out for saving brings the usage back: a limiter built from the
/// same limits on the same day, with what was handed out, has used what this one
/// has. It goes to the file that is configured, and nothing is handed out without
/// one.
pub proof fn handed_out_usage_is_restored(
    before: LimiterState,
    after: LimiterState,
    request: Option<SaveRequest>,
    limits: Seq<(Seq<char>, DomainLimitConfig)>,
    today: u32,
)
    requires
        save_requested(before, after, request, today),
        fresh_domains(limits, today).dom() == before.domains.dom(),
        forall|k: Seq<char>| #[trigger]
            before.domains.contains_key(k) ==> fresh_domains(limits, today)[k].limit
                == before.domains[k].limit && text::lowercase(k) == k,
    ensures
        request is Some <==> before.state_file is Some,
        request matches Some(save) ==> {
            &&& before.state_file == Some(save.path@)
            &&& save.state.version == STATE_VERSION
            &&& restored(
                fresh_domains(limits, today),
                saved_views(save.state.domains@),
                today,
            ) == all_refreshed(before.domains, today)
            &&& after.domains == all_refreshed(before.domains, today)
        },
{
    if before.state_file is Some {
        saved_usage_is_restored(
            limits,
            before.domains,
            saved_views(request->0.state.domains@),
            today,
        );
    }
}

/// Saved counters are taken over one for one.
pub proof fn saved_counters_are_one_for_one(saved: Seq<(String, PersistedDomain)>, i: int)
    requires
        0 <= i < saved.len(),
    ensures
        saved_views(saved).len() == saved.len(),
        saved_views(saved)[i] == (saved[i].0@, saved[i].1),
{
}

} // verus!
