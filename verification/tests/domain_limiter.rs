use snirelay::config::{ByteSize, DomainLimitConfig};
use snirelay::domain_limiter::{
    clock_day, day_index, epoch_day_utc, flush_interval, DomainLimiter, LimitReason, PersistedDomain,
    PersistedState, STATE_VERSION,
};

fn limit(max_conn: Option<u64>, max_bytes: Option<u64>) -> DomainLimitConfig {
    DomainLimitConfig {
        daily_connections: max_conn,
        daily_bandwidth: max_bytes.map(ByteSize),
    }
}

fn limiter_with(domain: &str, max_conn: Option<u64>, max_bytes: Option<u64>) -> DomainLimiter {
    DomainLimiter::new(vec![(domain.to_string(), limit(max_conn, max_bytes))])
}

#[test]
fn unknown_domain_is_allowed() {
    let mut l = limiter_with("example.com", Some(10), None);
    assert!(l.check_connection("other.com").is_ok());
}

#[test]
fn connection_limit_enforced() {
    let mut l = limiter_with("example.com", Some(2), None);
    assert!(l.check_connection("example.com").is_ok());
    assert!(l.check_connection("example.com").is_ok());
    assert_eq!(
        l.check_connection("example.com"),
        Err(LimitReason::DailyConnections)
    );
}

#[test]
fn bandwidth_limit_enforced_at_connect() {
    let mut l = limiter_with("example.com", None, Some(1000));
    assert!(l.check_connection("example.com").is_ok());
    assert!(l.account_bytes("example.com", 1000).is_ok());
    assert_eq!(
        l.check_connection("example.com"),
        Err(LimitReason::DailyBandwidth)
    );
}

#[test]
fn bandwidth_limit_enforced_mid_transfer() {
    let mut l = limiter_with("example.com", None, Some(1000));
    assert!(l.check_connection("example.com").is_ok());
    assert!(l.account_bytes("example.com", 900).is_ok());
    assert_eq!(
        l.account_bytes("example.com", 200),
        Err(LimitReason::DailyBandwidth)
    );
    assert_eq!(
        l.check_connection("example.com"),
        Err(LimitReason::DailyBandwidth)
    );
}

#[test]
fn case_insensitive_lookup() {
    let mut l = limiter_with("Example.COM", Some(1), None);
    assert!(l.check_connection("example.com").is_ok());
    assert_eq!(
        l.check_connection("EXAMPLE.COM"),
        Err(LimitReason::DailyConnections)
    );
}

#[test]
fn subdomain_inherits_parent_limit() {
    let mut l = limiter_with("limoodns.com", None, Some(500));
    assert!(l.check_connection("yooz106.limoodns.com").is_ok());
    assert!(l.account_bytes("yooz106.limoodns.com", 500).is_ok());
    assert_eq!(
        l.check_connection("yooz106.limoodns.com"),
        Err(LimitReason::DailyBandwidth)
    );
}

#[test]
fn more_specific_limit_wins_over_parent() {
    let limits = vec![
        ("limoodns.com".to_string(), limit(None, Some(10_000))),
        ("yooz106.limoodns.com".to_string(), limit(None, Some(100))),
    ];
    let mut l = DomainLimiter::new(limits);
    assert!(l.check_connection("yooz106.limoodns.com").is_ok());
    assert!(l.account_bytes("yooz106.limoodns.com", 100).is_ok());
    assert_eq!(
        l.check_connection("yooz106.limoodns.com"),
        Err(LimitReason::DailyBandwidth)
    );
    assert!(l.check_connection("other.limoodns.com").is_ok());
}

#[test]
fn unlimited_when_both_none() {
    let mut l = limiter_with("example.com", None, None);
    for _ in 0..1000 {
        assert!(l.check_connection("example.com").is_ok());
    }
}

#[test]
fn persist_and_restore_same_day() {
    let path = "limits.json".to_string();
    let today = epoch_day_utc();
    let limits = vec![("example.com".to_string(), limit(None, Some(50_000)))];

    let request = {
        let mut l = DomainLimiter::load(limits.clone(), Some(path.clone()), None);
        assert!(l.check_connection("example.com").is_ok());
        l.account_bytes("example.com", 42_000).unwrap();
        l.persist_now().unwrap()
    };
    assert_eq!(request.path, path);

    let mut l2 = DomainLimiter::load(limits, Some(path), Some(request.state));
    let (_, counters) = l2.counters_for("example.com").unwrap();
    assert_eq!(counters.day, today);
    assert_eq!(counters.bytes, 42_000);
    assert!(l2.check_connection("example.com").is_ok());
    assert_eq!(
        l2.account_bytes("example.com", 9_000),
        Err(LimitReason::DailyBandwidth)
    );
}

#[test]
fn stale_day_not_restored() {
    let state = PersistedState {
        version: STATE_VERSION,
        domains: vec![(
            "example.com".to_string(),
            PersistedDomain {
                day: epoch_day_utc().saturating_sub(1),
                bytes: 999_999,
                connections: 99,
            },
        )],
    };
    let limits = vec![("example.com".to_string(), limit(None, Some(1000)))];
    let mut l = DomainLimiter::load(limits, Some("limits.json".to_string()), Some(state));
    assert!(l.check_connection("example.com").is_ok());
}

#[test]
fn state_of_another_version_is_ignored() {
    let saved = |version: u8| PersistedState {
        version,
        domains: vec![(
            "EXAMPLE.com".to_string(),
            PersistedDomain { day: 7, bytes: 10, connections: 3 },
        )],
    };
    let limits = vec![("example.com".to_string(), limit(Some(5), None))];
    let file = Some("f".to_string());
    let l = DomainLimiter::load_on(limits.clone(), file.clone(), Some(saved(2)), 7);
    assert_eq!(l.counters_for("example.com").unwrap().1.connections, 0);
    let l = DomainLimiter::load_on(limits.clone(), file, Some(saved(STATE_VERSION)), 7);
    assert_eq!(l.counters_for("example.com").unwrap().1.connections, 3);
    let l = DomainLimiter::load_on(limits, None, Some(saved(STATE_VERSION)), 7);
    assert_eq!(l.counters_for("example.com").unwrap().1.connections, 0);
}

#[test]
fn later_limit_for_one_key_stands() {
    let limits = vec![
        ("Example.com".to_string(), limit(Some(5), None)),
        ("example.COM".to_string(), limit(Some(1), None)),
    ];
    let l = DomainLimiter::new(limits);
    assert_eq!(l.counters_for("example.com").unwrap().0.daily_connections, Some(1));
}

#[test]
fn counters_reset_on_a_new_day() {
    let mut l = limiter_with("example.com", Some(1), Some(100));
    assert_eq!(l.check_connection_on("example.com", 10), Ok(()));
    assert_eq!(l.check_connection_on("example.com", 10), Err(LimitReason::DailyConnections));
    assert_eq!(l.account_bytes_on("example.com", 100, 10), Ok(()));
    assert_eq!(l.check_connection_on("example.com", 10), Err(LimitReason::DailyBandwidth));
    assert_eq!(l.check_connection_on("example.com", 11), Ok(()));
    assert_eq!(l.counters_for("example.com").unwrap().1.bytes, 0);
}

#[test]
fn other_domains_are_left_alone() {
    let limits = vec![
        ("a.example".to_string(), limit(Some(1), None)),
        ("b.example".to_string(), limit(Some(1), None)),
    ];
    let mut l = DomainLimiter::new(limits);
    assert!(l.check_connection_on("a.example", 5).is_ok());
    assert!(l.check_connection_on("a.example", 5).is_err());
    assert!(l.check_connection_on("b.example", 5).is_ok());
}

#[test]
fn a_dot_must_stand_before_the_key() {
    let l = limiter_with("example.com", Some(0), None);
    assert_eq!(l.resolve_limit_key("notexample.com"), None);
    assert_eq!(l.resolve_limit_key("deep.sub.example.com"), Some("example.com".to_string()));
    assert_eq!(l.resolve_limit_key(".example.com"), Some("example.com".to_string()));
    assert_eq!(l.resolve_limit_key("com"), None);
}

#[test]
fn saving_follows_changes() {
    let limits = vec![
        ("example.com".to_string(), limit(Some(3), None)),
        ("other.com".to_string(), limit(None, None)),
    ];
    let mut l = DomainLimiter::load_on(limits.clone(), Some("state.json".to_string()), None, 9);
    assert!(l.flush_if_dirty().is_none());
    assert!(l.check_connection_on("other.com", 9).is_ok());
    assert!(l.flush_if_dirty().is_none());
    assert!(l.check_connection_on("example.com", 9).is_ok());
    assert!(l.flush_if_dirty().is_some());
    assert!(l.flush_if_dirty().is_some());
    l.saved();
    assert!(l.flush_if_dirty().is_none());
    assert!(l.check_connection_on("example.com", 9).is_ok());
    assert!(l.flush_if_dirty().is_some());
    assert!(l.check_connection_on("example.com", 9).is_ok());
    l.saved();
    assert!(l.flush_if_dirty().is_some());
    l.saved();
    assert!(l.flush_if_dirty().is_none());

    let mut l = DomainLimiter::load_on(limits, Some("state.json".to_string()), None, 9);
    assert!(l.check_connection_on("example.com", 9).is_ok());
    let request = l.persist_now_on(9).unwrap();
    assert_eq!(request.path, "state.json");
    assert_eq!(request.state.version, 1);
    let saved: Vec<(String, u32, u64, u64)> = request
        .state
        .domains
        .into_iter()
        .map(|(name, d)| (name, d.day, d.bytes, d.connections))
        .collect();
    assert_eq!(
        saved,
        vec![("example.com".to_string(), 9, 0, 1), ("other.com".to_string(), 9, 0, 0)]
    );
}

#[test]
fn nothing_is_saved_without_a_file() {
    let mut l = limiter_with("example.com", Some(3), None);
    assert!(l.check_connection("example.com").is_ok());
    assert!(l.flush_if_dirty().is_none());
    assert!(l.persist_now().is_none());
}

#[test]
fn room_in_the_byte_counter() {
    let mut l = limiter_with("example.com", None, Some(u64::MAX));
    assert!(l.account_bytes_on("example.com", u64::MAX - 5, 3).is_ok());
    assert!(l.can_count("example.com", 5, 3));
    assert!(!l.can_count("example.com", 6, 3));
    assert!(l.can_count("example.com", 6, 4));
    assert!(l.can_count("other.com", u64::MAX, 3));
    assert!(l.account_bytes_on("example.com", 0, 3).is_ok());
}

#[test]
fn bytes_without_room_are_not_counted() {
    let mut l = limiter_with("example.com", None, Some(10));
    assert_eq!(l.try_account_bytes_on("example.com", 10, 3), Some(Ok(())));
    assert_eq!(
        l.try_account_bytes_on("example.com", 1, 3),
        Some(Err(LimitReason::DailyBandwidth))
    );
    assert_eq!(l.try_account_bytes_on("example.com", u64::MAX, 3), None);
    assert_eq!(l.counters_for("example.com").unwrap().1.bytes, 11);

    let mut l = limiter_with("example.com", None, Some(10));
    assert_eq!(l.try_account_bytes("example.com", 9), Some(Ok(())));
    assert_eq!(l.try_account_bytes("example.com", u64::MAX), None);
    assert_eq!(l.try_account_bytes("other.com", u64::MAX), Some(Ok(())));
}

#[test]
fn a_day_passes_no_more_than_its_limits() {
    let mut l = limiter_with("example.com", Some(7), Some(1000));
    let mut connections = 0;
    let mut bytes = 0;
    for i in 0..200u64 {
        let name = if i % 2 == 0 { "example.com" } else { "a.example.com" };
        if l.check_connection_on(name, 4).is_ok() {
            connections += 1;
        }
        if l.account_bytes_on(name, i, 4).is_ok() {
            bytes += i;
        }
    }
    assert_eq!(connections, 7);
    assert!(bytes <= 1000);
}

#[test]
fn days_are_counted_from_the_epoch() {
    assert_eq!(day_index(0), 0);
    assert_eq!(day_index(86_399), 0);
    assert_eq!(day_index(86_400), 1);
    assert_eq!(day_index(4_294_967_296), 49_710);
    assert!(epoch_day_utc() > 20_000);
    assert_eq!(clock_day(Some(86_400 * 20_000 + 86_399)), 20_000);
    assert_eq!(clock_day(None), 0);
}

#[test]
fn reasons_are_printed() {
    assert_eq!(LimitReason::DailyBandwidth.to_text(), "daily_bandwidth");
    assert_eq!(LimitReason::DailyConnections.to_text(), "daily_connections");
}

#[test]
fn saves_are_a_second_apart_at_least() {
    assert_eq!(flush_interval(0), 1);
    assert_eq!(flush_interval(1), 1);
    assert_eq!(flush_interval(30), 30);
}
