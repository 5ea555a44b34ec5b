use snirelay::config::{AppConfig, ListenerConfig, RouteEntry};
use snirelay::hosts::{HostResolve, HostsEntry, HostsTable};
use snirelay::ip::IpAddress;
use snirelay::service::{
    apply_host_resolve, extract_auto, extract_host_header, hosts_destination, parse_host_port,
    plan_listeners, reader_by_proto, resolve_destination, ClientReader, ClientTarget,
    PlanError, ReadError, ReadStep, ReaderKind, RouteTable,
};

fn table(routes: &[(&str, &str)]) -> RouteTable {
    let entries: Vec<RouteEntry> = routes
        .iter()
        .map(|(p, t)| RouteEntry { pattern: p.to_string(), target: t.to_string() })
        .collect();
    RouteTable::compile(&entries).unwrap()
}

fn hosts(rows: &[(&str, &str)]) -> HostsTable {
    let entries: Vec<HostsEntry> = rows
        .iter()
        .map(|(p, a)| HostsEntry { pattern: p.to_string(), address: a.to_string() })
        .collect();
    HostsTable::compile(&entries).unwrap()
}

fn dest(host: &str, port: u16, mapped: bool) -> (String, u16, bool) {
    (host.to_string(), port, mapped)
}

#[test]
fn first_matching_route_decides() {
    let t = table(&[("^internal\\.example\\.com$", "10.0.0.5:443"), (".*", "*")]);
    assert_eq!(t.resolve("internal.example.com"), Some("10.0.0.5:443"));
    assert_eq!(t.resolve("other.example.com"), Some("*"));
    assert_eq!(table(&[("^a", "x")]).resolve("b"), None);
}

#[test]
fn bad_route_regex() {
    let entries = vec![
        RouteEntry { pattern: "a".to_string(), target: "*".to_string() },
        RouteEntry { pattern: "(".to_string(), target: "*".to_string() },
        RouteEntry { pattern: ")".to_string(), target: "*".to_string() },
    ];
    let e = RouteTable::compile(&entries).unwrap_err();
    assert_eq!(e.pattern, "(");
    assert_eq!(e.message(), "Invalid route regex: '('");
}

#[test]
fn routing_example() {
    let t = table(&[("^internal\\.example\\.com$", "10.0.0.5:443"), (".*", "*")]);
    assert_eq!(
        resolve_destination("internal.example.com", 8443, 8443, None, &t),
        dest("10.0.0.5", 443, false)
    );
    assert_eq!(
        resolve_destination("www.example.com", 8443, 8443, None, &t),
        dest("www.example.com", 8443, false)
    );
}

#[test]
fn star_keeps_host_and_port() {
    let star = table(&[(".*", "*")]);
    let none = table(&[]);
    for host in ["a.example", "::1", "a:b"] {
        assert_eq!(resolve_destination(host, 81, 80, None, &star), dest(host, 81, false));
    }
    for (host, to, port) in
        [("a.example", "a.example", 81), ("::1", "", 80), ("a:b", "a", 80), ("a:9", "a", 9)]
    {
        assert_eq!(resolve_destination(host, 81, 80, None, &none), dest(to, port, false));
    }
}

#[test]
fn targets_of_routes() {
    let go = |target: &str| resolve_destination("a", 81, 80, None, &table(&[(".*", target)]));
    assert_eq!(go("b"), dest("b", 81, false));
    assert_eq!(go("b:9"), dest("b", 9, false));
    assert_eq!(go("b:"), dest("b", 80, false));
    assert_eq!(go("b:9:9"), dest("b", 80, false));
    assert_eq!(go("b:99999"), dest("b", 80, false));
}

#[test]
fn hosts_are_asked_before_routes() {
    let h = hosts(&[("a", "1.2.3.4"), ("b", "*"), ("c", "back:7"), ("d", "back"), ("e", "[::1]:7")]);
    let t = table(&[(".*", "routed:1")]);
    let go = |host: &str| resolve_destination(host, 81, 80, Some(&h), &t);
    assert_eq!(go("A"), dest("1.2.3.4", 81, true));
    assert_eq!(go("B"), dest("B", 81, true));
    assert_eq!(go("c"), dest("back", 7, true));
    assert_eq!(go("d"), dest("back", 81, true));
    assert_eq!(go("e"), dest("::1", 7, true));
    assert_eq!(go("f"), dest("routed", 1, false));
    assert_eq!(hosts_destination("f", 81, 80, &h), None);
    assert_eq!(hosts_destination("d", 81, 80, &h), Some(("back".to_string(), 81)));
    assert_eq!(
        apply_host_resolve("x", 1, 2, HostResolve::Ip(IpAddress::V6([0; 8]))),
        ("::".to_string(), 1)
    );
}

#[test]
fn host_and_port() {
    for (s, host, port) in [
        ("a", "a", 80),
        ("a:1", "a", 1),
        ("a:", "a", 80),
        ("a:x", "a", 80),
        ("a:+5", "a", 5),
        ("a:b:6", "a:b", 6),
        ("", "", 80),
        ("[::1]:443", "::1", 443),
        ("[::1]", "::1", 80),
        ("[::1]:", "::1", 80),
        ("[::1]x443", "::1", 443),
        ("[::1]é443", "::1", 80),
        ("[::1", "[:", 1),
        ("[]", "", 80),
    ] {
        assert_eq!(parse_host_port(s, 80), (host.to_string(), port), "{}", s);
    }
}

#[test]
fn host_headers() {
    assert_eq!(
        extract_host_header("GET / HTTP/1.1\r\nhOsT:  a.example:81 \r\nHost: b\r\n\r\n").as_deref(),
        Some("a.example:81")
    );
    assert_eq!(extract_host_header("GET / HTTP/1.1\nX-Host: a\n"), None);
    assert_eq!(extract_host_header("Host:").as_deref(), Some(""));
    assert_eq!(extract_host_header(""), None);
}

fn hello(name: &[u8]) -> Vec<u8> {
    let n = name.len() as u16;
    let mut ext = vec![0, 0];
    ext.extend_from_slice(&(n + 5).to_be_bytes());
    ext.extend_from_slice(&(n + 3).to_be_bytes());
    ext.push(0);
    ext.extend_from_slice(&n.to_be_bytes());
    ext.extend_from_slice(name);
    let mut msg = vec![1, 0, 0, 0, 3, 3];
    msg.extend_from_slice(&[9; 32]);
    msg.extend_from_slice(&[0, 0, 2, 0x13, 1, 1, 0]);
    msg.extend_from_slice(&(ext.len() as u16).to_be_bytes());
    msg.extend_from_slice(&ext);
    let mut record = vec![0x16, 3, 1];
    record.extend_from_slice(&(msg.len() as u16).to_be_bytes());
    record.extend_from_slice(&msg);
    record
}

fn feed(kind: ReaderKind, chunks: &[&[u8]]) -> ReadStep {
    let (mut reader, mut step) = ClientReader::start(kind, 443);
    for c in chunks {
        step = reader.on_bytes(c);
    }
    step
}

fn found(step: ReadStep) -> ClientTarget {
    match step {
        ReadStep::Found { target } => target,
        other => panic!("expected a target, got {:?}", other),
    }
}

fn failure(step: ReadStep) -> ReadError {
    match step {
        ReadStep::Fail { error } => error,
        other => panic!("expected a failure, got {:?}", other),
    }
}

fn room(step: ReadStep) -> usize {
    match step {
        ReadStep::Read { room } => room,
        other => panic!("expected a read, got {:?}", other),
    }
}

#[test]
fn tls_target_with_overflow() {
    let mut bytes = hello(b"A.example");
    let flight = bytes.clone();
    bytes.extend_from_slice(b"more");
    let t = found(feed(ReaderKind::Tls, &[&bytes]));
    assert_eq!(t.host, "a.example");
    assert_eq!(t.port, 443);
    assert_eq!(t.flight, flight);
    assert_eq!(t.overflow, b"more");
    assert!(t.reply.is_empty());
}

#[test]
fn tls_target_does_not_depend_on_chunks() {
    let bytes = hello(b"a.example");
    for cut in 1..bytes.len() {
        let (a, b) = bytes.split_at(cut);
        assert_eq!(room(feed(ReaderKind::Tls, &[a])), 16384 - cut);
        let t = found(feed(ReaderKind::Tls, &[a, b]));
        assert_eq!(t.host, "a.example");
        assert_eq!(t.flight, bytes);
    }
}

#[test]
fn tls_failures() {
    assert_eq!(room(feed(ReaderKind::Tls, &[])), 16384);
    assert_eq!(failure(feed(ReaderKind::Tls, &[b""])), ReadError::ClosedInHandshake);
    assert_eq!(failure(feed(ReaderKind::Tls, &[b"GET / HTTP/1.1"])), ReadError::NotTls);
    assert_eq!(failure(feed(ReaderKind::Tls, &[b"SSH-2.0-x"])), ReadError::NotTls);
    assert_eq!(failure(feed(ReaderKind::Tls, &[b"\x16\x03\x01\x00\x01\x01"])), ReadError::NoSni);
    let mut large = vec![0x16, 3, 1, 0xff, 0xff];
    large.resize(16384, 0);
    assert_eq!(failure(feed(ReaderKind::Tls, &[&large])), ReadError::HelloTooLarge);
}

#[test]
fn http_target() {
    let request = b"GET /x HTTP/1.1\r\nHost: a.example:81\r\n\r\nbody";
    let t = found(feed(ReaderKind::Http, &[request]));
    assert_eq!((t.host.as_str(), t.port), ("a.example", 81));
    assert_eq!(t.flight, request);
    assert!(t.overflow.is_empty());
    assert!(t.reply.is_empty());
    let t = found(feed(ReaderKind::Http, &[b"GET / HTTP/1.0\n", b"host: b\n\n"]));
    assert_eq!((t.host.as_str(), t.port), ("b", 443));
}

#[test]
fn connect_request_is_answered() {
    let t = found(feed(ReaderKind::Http, &[b"CONNECT [::1]:8443 HTTP/1.1\r\nHost: x\r\n\r\n"]));
    assert_eq!((t.host.as_str(), t.port), ("::1", 8443));
    assert_eq!(t.reply, b"HTTP/1.1 200 Connection Established\r\n\r\n");
    assert!(t.flight.is_empty());
    assert!(t.overflow.is_empty());
    let t = found(feed(ReaderKind::Http, &[b"CONNECT "]));
    assert_eq!((t.host.as_str(), t.port), ("", 443));
}

#[test]
fn http_failures() {
    assert_eq!(room(feed(ReaderKind::Http, &[b"GET /"])), 8192 - 5);
    assert_eq!(room(feed(ReaderKind::Http, &[b"GET /\xff\r\n\r\n"])), 8192 - 10);
    assert_eq!(failure(feed(ReaderKind::Http, &[b""])), ReadError::ClosedInHeaders);
    assert_eq!(failure(feed(ReaderKind::Http, &[b"GET / HTTP/1.1\r\n\r\n"])), ReadError::NoHostHeader);
    assert_eq!(failure(feed(ReaderKind::Http, &[&[b'a'; 8192]])), ReadError::HeadersTooLarge);
}

#[test]
fn read_errors_are_printed() {
    for (e, want) in [
        (ReadError::ClosedInHandshake, "Client closed connection during TLS handshake read"),
        (ReadError::HelloTooLarge, "TLS ClientHello too large (>16384 bytes)"),
        (ReadError::NoSni, "TLS ClientHello has no SNI extension — cannot route"),
        (ReadError::NotTls, "Non-TLS data received on TLS listener"),
        (ReadError::ClosedInHeaders, "EOF while reading HTTP headers"),
        (ReadError::NoHostHeader, "HTTP request has no Host header"),
        (ReadError::HeadersTooLarge, "HTTP headers too large"),
    ] {
        assert_eq!(e.message(), want);
    }
}

#[test]
fn readers_are_chosen() {
    assert_eq!(reader_by_proto("tls"), Some(ReaderKind::Tls));
    assert_eq!(reader_by_proto("http"), Some(ReaderKind::Http));
    assert_eq!(reader_by_proto("auto"), None);
    assert_eq!(extract_auto(&[0x16, 3, 1]), ReaderKind::Tls);
    assert_eq!(extract_auto(&[0x16, 3]), ReaderKind::Http);
    assert_eq!(extract_auto(b"GET /"), ReaderKind::Http);
}

fn listener(addr: &str, pattern: &str) -> ListenerConfig {
    ListenerConfig {
        name: None,
        addr: addr.to_string(),
        proto: Some("http".to_string()),
        routes: vec![RouteEntry { pattern: pattern.to_string(), target: "t".to_string() }],
    }
}

#[test]
fn listeners_are_planned() {
    let mut cfg = AppConfig::default();
    cfg.listens = vec![listener("0.0.0.0:8080", "^a"), listener("[::]:81", "b")];
    let plans = plan_listeners(&cfg).unwrap();
    assert_eq!(plans.len(), 2);
    assert_eq!(plans[0].addr, "0.0.0.0:8080");
    assert_eq!(plans[0].proto, "http");
    assert_eq!(plans[0].label, "http@0.0.0.0:8080");
    assert_eq!(plans[0].listen_port, 8080);
    assert_eq!(plans[1].listen_port, 81);
    assert_eq!(plans[1].routes.resolve("ab"), Some("t"));

    cfg.listens = vec![listener("bad", "("), listener("bad", "a")];
    let e = plan_listeners(&cfg).unwrap_err();
    assert!(matches!(e, PlanError::Route { .. }));
    assert_eq!(e.message(), "Invalid route regex: '('");
    cfg.listens = vec![listener("bad", "a")];
    let e = plan_listeners(&cfg).unwrap_err();
    assert_eq!(e.message(), "listener [http@bad]: invalid listen addr 'bad'");
}
