use snirelay::config::{ByteSize, DomainLimitConfig, RouteEntry};
use snirelay::connection::{Action, Connection, ConnectionError, Direction, Stage};
use snirelay::domain_limiter::{DomainLimiter, LimitReason};
use snirelay::hosts::{HostsEntry, HostsTable};
use snirelay::metrics::Metrics;
use snirelay::service::{ReadError, RouteTable};

fn routes(target: &str) -> RouteTable {
    let entry = RouteEntry { pattern: ".*".to_string(), target: target.to_string() };
    RouteTable::compile(&[entry]).unwrap()
}

fn hello(name: &[u8]) -> Vec<u8> {
    let n = name.len() as u16;
    let mut ext = vec![0, 0];
    ext.extend_from_slice(&(n + 5).to_be_bytes());
    ext.extend_from_slice(&(n + 3).to_be_bytes());
    ext.push(0);
    ext.extend_from_slice(&n.to_be_bytes());
    ext.extend_from_slice(name);
    let mut msg = vec![1, 0, 0, 0, 3, 3];
    msg.extend_from_slice(&[9; 32]);
    msg.extend_from_slice(&[0, 0, 2, 0x13, 1, 1, 0]);
    msg.extend_from_slice(&(ext.len() as u16).to_be_bytes());
    msg.extend_from_slice(&ext);
    let mut record = vec![0x16, 3, 1];
    record.extend_from_slice(&(msg.len() as u16).to_be_bytes());
    record.extend_from_slice(&msg);
    record
}

#[test]
fn tls_connection_from_start_to_end() {
    let mut metrics = Metrics::new();
    let bytes = hello(b"A.example");
    let (mut c, first) = Connection::start("10.0.0.1:5", "tls", 443);
    assert!(matches!(first, Action::Read { room: 16384 }));
    assert!(matches!(c.received(&bytes[..10]), Action::Read { room: 16374 }));
    let mut rest = bytes[10..].to_vec();
    rest.extend_from_slice(b"more");
    assert!(matches!(c.received(&rest), Action::Route));
    assert_eq!(c.asked_host(), "a.example");
    match c.route(None, &routes("10.0.0.5:8443")) {
        Action::CheckLimit { domain } => assert_eq!(domain, "a.example"),
        other => panic!("unexpected {:?}", other),
    }
    match c.limit_checked(Ok(())) {
        Action::Dial { host, port } => assert_eq!((host.as_str(), port), ("10.0.0.5", 8443)),
        other => panic!("unexpected {:?}", other),
    }
    assert!(!c.is_mapped());
    match c.connected(&mut metrics) {
        Action::Forward { flight, overflow } => {
            assert_eq!(flight, bytes);
            assert_eq!(overflow, b"more");
        }
        other => panic!("unexpected {:?}", other),
    }
    assert_eq!(c.stage(), Stage::Forwarding);
    assert!(matches!(c.forwarded(), Action::Splice));
    c.passed(Direction::ClientToUpstream, 8);
    c.passed(Direction::UpstreamToClient, 3);
    assert_eq!(c.bytes(), (8, 3));
    c.passed(Direction::UpstreamToClient, u64::MAX);
    assert_eq!(c.bytes(), (8, u64::MAX - 8));
    c.spliced(&mut metrics);
    assert_eq!(c.stage(), Stage::Ended);
}

#[test]
fn connect_request_is_answered_before_it_is_routed() {
    let mut metrics = Metrics::new();
    let (mut c, first) = Connection::start("10.0.0.1:5", "http", 80);
    assert!(matches!(first, Action::Read { room: 8192 }));
    match c.received(b"CONNECT b.example:444 HTTP/1.1\r\n\r\n") {
        Action::Reply { bytes } => {
            assert_eq!(bytes, b"HTTP/1.1 200 Connection Established\r\n\r\n")
        }
        other => panic!("unexpected {:?}", other),
    }
    assert!(matches!(c.replied(), Action::Route));
    let entry = HostsEntry { pattern: "b.example".to_string(), address: "::1".to_string() };
    let table = HostsTable::compile(&[entry]).unwrap();
    c.route(Some(&table), &routes("*"));
    assert!(c.is_mapped());
    match c.limit_checked(Ok(())) {
        Action::Dial { host, port } => assert_eq!((host.as_str(), port), ("::1", 444)),
        other => panic!("unexpected {:?}", other),
    }
    assert!(matches!(c.connected(&mut metrics), Action::Splice));
}

#[test]
fn protocol_is_detected_where_it_is_not_set() {
    let (mut c, first) = Connection::start("10.0.0.1:5", "auto", 80);
    assert!(matches!(first, Action::Peek));
    assert_eq!(c.stage(), Stage::Peeking);
    assert!(matches!(c.peeked(&[0x16, 3, 1, 0]), Action::Read { room: 16384 }));
    let (mut c, _) = Connection::start("10.0.0.1:5", "auto", 80);
    assert!(matches!(c.peeked(b"GET /"), Action::Read { room: 8192 }));
}

#[test]
fn limits_are_kept() {
    let mut metrics = Metrics::new();
    let mut limiter = DomainLimiter::new(vec![(
        "a.example".to_string(),
        DomainLimitConfig { daily_bandwidth: Some(ByteSize(10)), daily_connections: Some(1) },
    )]);
    let start = || {
        let (mut c, _) = Connection::start("10.0.0.1:5", "tls", 443);
        c.received(&hello(b"www.a.example"));
        c.route(None, &routes("*"));
        c
    };
    let mut c = start();
    assert!(matches!(c.check_limit(&mut limiter, 5), Action::Dial { .. }));
    c.connected(&mut metrics);
    c.forwarded();
    assert!(matches!(c.charge(&mut limiter, &mut metrics, 10, 5), Action::Splice));
    c.passed(Direction::UpstreamToClient, 10);
    assert_eq!(c.stage(), Stage::Splicing);
    match c.charge(&mut limiter, &mut metrics, 1, 5) {
        Action::Cut { reason } => assert_eq!(reason, LimitReason::DailyBandwidth),
        other => panic!("unexpected {:?}", other),
    }
    assert_eq!(c.stage(), Stage::Ended);
    assert_eq!(c.bytes(), (0, 10));

    let mut c = start();
    match c.check_limit(&mut limiter, 5) {
        Action::Fail { error } => {
            assert_eq!(error, ConnectionError::Limit { reason: LimitReason::DailyBandwidth });
            assert_eq!(error.message(), "Domain limit reached: daily_bandwidth");
        }
        other => panic!("unexpected {:?}", other),
    }
    assert_eq!(c.stage(), Stage::Failing);
    c.failed(&mut metrics);
    assert_eq!(c.stage(), Stage::Ended);
}

#[test]
fn bytes_without_room_are_refused() {
    let mut metrics = Metrics::new();
    let mut limiter = DomainLimiter::new(vec![(
        "a.example".to_string(),
        DomainLimitConfig { daily_bandwidth: Some(ByteSize(u64::MAX)), daily_connections: None },
    )]);
    let (mut c, _) = Connection::start("10.0.0.1:5", "tls", 443);
    c.received(&hello(b"a.example"));
    c.route(None, &routes("*"));
    c.check_limit(&mut limiter, 5);
    c.connected(&mut metrics);
    c.forwarded();
    assert!(matches!(c.charge(&mut limiter, &mut metrics, u64::MAX - 1, 5), Action::Splice));
    assert!(matches!(c.charge(&mut limiter, &mut metrics, 2, 5), Action::Cut { .. }));
}

#[test]
fn only_listed_hosts_are_relayed() {
    let entry = HostsEntry { pattern: "a.example".to_string(), address: "10.0.0.9".to_string() };
    let table = HostsTable::compile(&[entry]).unwrap();
    let start = |name: &[u8]| {
        let (mut c, _) = Connection::start("10.0.0.1:5", "tls", 443);
        c.received(&hello(name));
        c
    };

    let mut c = start(b"b.example");
    match c.route(Some(&table), &routes("*")) {
        Action::Fail { error } => {
            assert_eq!(error, ConnectionError::NotListed);
            assert_eq!(error.message(), "Host is not in the hosts table");
        }
        other => panic!("unexpected {:?}", other),
    }
    assert_eq!(c.stage(), Stage::Failing);

    let mut c = start(b"A.example");
    assert!(matches!(c.route(Some(&table), &routes("c.example")), Action::CheckLimit { .. }));
    match c.limit_checked(Ok(())) {
        Action::Dial { host, port } => assert_eq!((host.as_str(), port), ("10.0.0.9", 443)),
        other => panic!("unexpected {:?}", other),
    }

    let mut c = start(b"b.example");
    assert!(matches!(c.route(None, &routes("c.example")), Action::CheckLimit { .. }));
}

#[test]
fn unreadable_target_fails() {
    let (mut c, _) = Connection::start("10.0.0.1:5", "tls", 443);
    match c.received(b"") {
        Action::Fail { error } => {
            assert_eq!(error, ConnectionError::Read { cause: ReadError::ClosedInHandshake });
            assert_eq!(
                error.message(),
                "Client closed connection during TLS handshake read"
            );
        }
        other => panic!("unexpected {:?}", other),
    }
}

#[test]
fn active_gauge_follows_the_tunnel() {
    let mut metrics = Metrics::new();
    assert!(metrics.register(&mut prometheus::default_registry().clone()));
    let active = || {
        let families = prometheus::gather();
        let family = families.iter().find(|f| f.get_name() == "sniproxy_active_connections");
        family.unwrap().get_metric()[0].get_gauge().get_value()
    };
    let (mut c, _) = Connection::start("10.0.0.1:5", "tls", 443);
    c.failed(&mut metrics);
    assert_eq!(active(), 0.0);

    let (mut c, _) = Connection::start("10.0.0.1:5", "tls", 443);
    c.received(&hello(b"a.example"));
    c.route(None, &routes("*"));
    c.limit_checked(Ok(()));
    assert_eq!(active(), 0.0);
    c.connected(&mut metrics);
    assert_eq!(active(), 1.0);
    c.failed(&mut metrics);
    assert_eq!(active(), 0.0);
}
