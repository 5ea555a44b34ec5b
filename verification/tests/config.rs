use snirelay::config::{
    default_listeners, default_routes, docker_default_gateway, hex_le_ipv4,
    is_docker_bridge_gateway, is_loopback_host, parse_byte_size, parse_proxy_string, AppConfig,
    ByteSize, ByteSizeError, ConfigError, DomainLimitConfig, GatewayRemap, ListenerConfig,
    ListenerError, ProxyStringError, RouteEntry, UpstreamProxy,
};
use snirelay::hosts::{HostsEntry, HostsError};

fn routes() -> Vec<RouteEntry> {
    vec![RouteEntry { pattern: ".*".to_string(), target: "*".to_string() }]
}

fn listener(name: Option<&str>, addr: &str, proto: Option<&str>) -> ListenerConfig {
    ListenerConfig {
        name: name.map(|s| s.to_string()),
        addr: addr.to_string(),
        proto: proto.map(|s| s.to_string()),
        routes: routes(),
    }
}

fn empty() -> AppConfig {
    let mut cfg = AppConfig::default();
    cfg.listens.clear();
    cfg
}

#[test]
fn mib_suffix_is_case_insensitive() {
    assert_eq!(parse_byte_size("20MiB").unwrap(), 20 * 1_048_576);
    assert_eq!(parse_byte_size("20Mib").unwrap(), 20 * 1_048_576);
    assert_eq!(parse_byte_size("20mib").unwrap(), 20 * 1_048_576);
}

#[test]
fn hex_le_ipv4_parses_docker_gateway() {
    assert_eq!(hex_le_ipv4("010011AC").as_deref(), Some("172.17.0.1"));
}

#[test]
fn loopback_hosts() {
    assert!(is_loopback_host("127.0.0.1"));
    assert!(is_loopback_host("localhost"));
    assert!(!is_loopback_host("172.17.0.1"));
}

#[test]
fn docker_bridge_gateway_detection() {
    assert!(is_docker_bridge_gateway("172.17.0.1"));
    assert!(!is_docker_bridge_gateway("31.214.250.65"));
}

#[test]
fn parse_multi_listens_yaml() {
    let mut cfg = empty();
    cfg.listens = vec![
        listener(Some("https-main"), "0.0.0.0:443", Some("tls")),
        listener(Some("https-alt"), "0.0.0.0:8443", Some("tls")),
        listener(Some("http-main"), "0.0.0.0:80", Some("http")),
        listener(None, "0.0.0.0:8080", None),
    ];
    cfg.finalize().unwrap();
    assert_eq!(cfg.listens.len(), 4);
    assert!(cfg.listens[0].is_tls());
    assert!(cfg.listens[2].is_http());
    assert!(cfg.listens[3].is_http());
    assert_eq!(cfg.listens[3].proto_str(), "http");
}

#[test]
fn legacy_tls_and_http_listen_merge() {
    let mut cfg = empty();
    cfg.tls_listen = vec![listener(None, "0.0.0.0:9443", Some("tls"))];
    cfg.http_listen = vec![listener(None, "0.0.0.0:8080", Some("http"))];
    cfg.finalize().unwrap();
    assert_eq!(cfg.listens.len(), 2);
    assert_eq!(cfg.listens[0].addr, "0.0.0.0:9443");
    assert_eq!(cfg.listens[1].addr, "0.0.0.0:8080");
}

#[test]
fn listens_hide_the_legacy_lists() {
    let mut cfg = empty();
    cfg.listens = vec![listener(None, "0.0.0.0:1", Some("TLS"))];
    cfg.tls_listen = vec![listener(None, "broken", None)];
    cfg.http_listen = vec![listener(None, "broken", None)];
    cfg.finalize().unwrap();
    assert_eq!(cfg.listens.len(), 1);
    assert_eq!(cfg.listens[0].proto_str(), "tls");
    assert!(cfg.tls_listen.is_empty());
    assert!(cfg.http_listen.is_empty());
}

#[test]
fn without_listeners_the_usual_two_are_used() {
    let mut cfg = empty();
    cfg.finalize().unwrap();
    let labels: Vec<String> = cfg.listens.iter().map(|l| l.label()).collect();
    assert_eq!(labels, vec!["https".to_string(), "http".to_string()]);
    assert_eq!(cfg.listens[0].listen_port(), Ok(443));
    assert_eq!(cfg.listens[1].listen_port(), Ok(80));
    assert_eq!(default_listeners().len(), 2);
    assert_eq!(default_routes()[0].pattern, ".*");
    assert_eq!(default_routes()[0].target, "*");
}

#[test]
fn default_settings() {
    let cfg = AppConfig::default();
    assert_eq!(cfg.connect_timeout_secs, 10);
    assert_eq!(cfg.rw_timeout_secs, 300);
    assert_eq!(cfg.workers, 0);
    assert_eq!(cfg.metrics_refresh_secs, 2);
    assert_eq!(cfg.max_connections, 50_000);
    assert_eq!(cfg.nofile_limit, 1_048_576);
    assert_eq!(cfg.listen_backlog, 4096);
    assert_eq!(cfg.domain_limits_persist_secs, 5);
    assert_eq!(cfg.upstream_proxy.to_text(), "socks5 127.0.0.1:1080");
    let limit = DomainLimitConfig::default();
    assert_eq!(limit.daily_bandwidth, None);
    assert_eq!(limit.daily_connections, None);
}

#[test]
fn proto_is_inferred_from_the_port() {
    for (addr, proto) in [
        ("0.0.0.0:80", "http"),
        ("[::]:8080", "http"),
        ("0.0.0.0:443", "tls"),
        ("127.0.0.1:8000", "tls"),
        ("127.0.0.1:8888", "tls"),
    ] {
        let mut l = listener(None, addr, None);
        assert_eq!(l.normalize_proto(), Ok(()));
        assert_eq!(l.proto_str(), proto);
    }
}

#[test]
fn listener_errors() {
    let mut l = listener(None, "0.0.0.0:80", Some("Quic"));
    let e = l.normalize_proto().unwrap_err();
    assert_eq!(e, ListenerError::BadProto { proto: "Quic".to_string() });
    assert_eq!(e.message(), "proto must be 'tls' or 'http', got 'Quic'");

    let mut l = listener(None, "localhost:80", None);
    let e = l.normalize_proto().unwrap_err();
    assert_eq!(e, ListenerError::BadAddr { addr: "localhost:80".to_string() });
    assert_eq!(e.message(), "invalid listen addr 'localhost:80'");
    assert_eq!(l.proto, None);
    assert_eq!(l.label(), "tls@localhost:80");

    let mut l = listener(None, "nowhere", Some("HTTP"));
    assert_eq!(l.normalize_proto(), Ok(()));
    assert!(l.is_http());
    assert!(l.listen_port().is_err());
}

#[test]
fn first_bad_listener_is_reported() {
    let mut cfg = empty();
    cfg.listens = vec![
        listener(None, "0.0.0.0:443", None),
        listener(None, "bad", None),
        listener(None, "worse", None),
    ];
    let e = cfg.finalize().unwrap_err();
    assert_eq!(e.message(), "listens[1] (bad): invalid listen addr 'bad'");
    assert_eq!(cfg.listens[0].proto.as_deref(), Some("tls"));
    assert_eq!(cfg.listens[2].proto, None);
}

#[test]
fn bad_hosts_pattern_is_reported() {
    let mut cfg = AppConfig::default();
    cfg.hosts = vec![
        HostsEntry { pattern: "a.example".to_string(), address: "*".to_string() },
        HostsEntry { pattern: " *(  ".to_string(), address: "*".to_string() },
    ];
    let e = cfg.finalize().unwrap_err();
    assert_eq!(
        e,
        ConfigError::Hosts { error: HostsError { index: 1, pattern: "*(".to_string() } }
    );
    assert_eq!(e.message(), "hosts[1]: invalid regex '*('");
    assert!(cfg.hosts_table.is_none());
}

#[test]
fn finalizing_compiles_the_hosts_table() {
    let mut cfg = AppConfig::default();
    cfg.finalize().unwrap();
    assert!(cfg.hosts_table.is_none());
    cfg.hosts = vec![HostsEntry { pattern: "a.example".to_string(), address: "*".to_string() }];
    cfg.finalize().unwrap();
    assert_eq!(cfg.hosts_table.unwrap().stats(), (1, 0));
}

#[test]
fn routes_are_ignored_for_a_hosts_table() {
    let mut cfg = AppConfig::default();
    let mut listener = cfg.listens[0].clone();
    assert!(!cfg.ignores_routes(&listener));
    listener.routes[0].target = "10.0.0.1".to_string();
    assert!(!cfg.ignores_routes(&listener));

    cfg.hosts = vec![HostsEntry { pattern: "a.example".to_string(), address: "*".to_string() }];
    cfg.finalize().unwrap();
    assert!(cfg.ignores_routes(&listener));
    listener.routes[0].target = "*".to_string();
    assert!(!cfg.ignores_routes(&listener));
    listener.routes[0].pattern = "a".to_string();
    assert!(cfg.ignores_routes(&listener));
    listener.routes.clear();
    assert!(cfg.ignores_routes(&listener));
}

#[test]
fn environment_proxy_takes_precedence() {
    let cfg = AppConfig::load(None, Some("http 10.0.0.1 3128")).unwrap();
    assert_eq!(cfg.upstream_proxy.to_text(), "http 10.0.0.1:3128");

    let mut file = empty();
    file.upstream_proxy = UpstreamProxy::Direct;
    file.workers = 3;
    let cfg = AppConfig::load(Some(file), Some("socks5 onlyhost")).unwrap();
    assert_eq!(cfg.upstream_proxy, UpstreamProxy::Direct);
    assert_eq!(cfg.workers, 3);
    assert_eq!(cfg.listens.len(), 2);

    let mut file = empty();
    file.listens = vec![listener(None, "x", None)];
    assert!(AppConfig::load(Some(file), None).is_err());
    assert!(AppConfig::from_env(None).upstream_proxy_override.is_none());
}

#[test]
fn byte_sizes() {
    let cases: [(&str, u64); 12] = [
        ("0", 0),
        ("  42 ", 42),
        ("+7", 7),
        ("18446744073709551615", u64::MAX),
        ("5B", 5),
        ("3 kb", 3_000),
        ("2MB", 2_000_000),
        ("100GB", 100_000_000_000),
        ("1TB", 1_000_000_000_000),
        ("4KiB", 4_096),
        ("1GiB", 1_073_741_824),
        ("2TIB", 2_199_023_255_552),
    ];
    for (s, n) in cases {
        assert_eq!(parse_byte_size(s), Ok(n));
    }
    assert_eq!(ByteSize(3), ByteSize(3));
}

#[test]
fn byte_sizes_that_are_not_whole() {
    assert_eq!(
        parse_byte_size(" 1.5 GB "),
        Err(ByteSizeError::NotWhole {
            number: "1.5".to_string(),
            suffix: "GB".to_string(),
            factor: 1_000_000_000,
        })
    );
    assert_eq!(
        parse_byte_size("MiB"),
        Err(ByteSizeError::NotWhole {
            number: String::new(),
            suffix: "MiB".to_string(),
            factor: 1_048_576,
        })
    );
    assert!(matches!(parse_byte_size("9007199254740993B"), Err(ByteSizeError::NotWhole { .. })));
    assert_eq!(parse_byte_size("9007199254740992B"), Ok(9_007_199_254_740_992));
    assert_eq!(
        parse_byte_size(" ten "),
        Err(ByteSizeError::Unreadable { text: "ten".to_string() })
    );
    assert!(matches!(parse_byte_size("é"), Err(ByteSizeError::Unreadable { .. })));
    assert!(matches!(
        parse_byte_size("18446744073709551616"),
        Err(ByteSizeError::Unreadable { .. })
    ));
}

#[test]
fn proxy_strings() {
    assert_eq!(parse_proxy_string(""), Ok(UpstreamProxy::Direct));
    assert_eq!(parse_proxy_string("  DIRECT whatever"), Ok(UpstreamProxy::Direct));
    assert_eq!(
        parse_proxy_string("SOCKS5H  127.0.0.1\t10808"),
        Ok(UpstreamProxy::Socks5 {
            host: "127.0.0.1".to_string(),
            port: 10808,
            username: None,
            password: None,
        })
    );
    assert_eq!(
        parse_proxy_string("socks5 h 1 user pass extra"),
        Ok(UpstreamProxy::Socks5 {
            host: "h".to_string(),
            port: 1,
            username: Some("user".to_string()),
            password: Some("pass".to_string()),
        })
    );
    assert_eq!(
        parse_proxy_string("https 192.168.1.1 3128"),
        Ok(UpstreamProxy::Http { host: "192.168.1.1".to_string(), port: 3128, auth: None })
    );
}

#[test]
fn proxy_string_errors() {
    let e = parse_proxy_string("socks5 host").unwrap_err();
    assert_eq!(e, ProxyStringError::TooShort { text: "socks5 host".to_string() });
    assert_eq!(
        e.message(),
        "Invalid proxy string 'socks5 host'. Expected: '<type> <host> <port>'"
    );
    let e = parse_proxy_string("ftp host 65536").unwrap_err();
    assert_eq!(e, ProxyStringError::BadPort { port: "65536".to_string() });
    assert_eq!(e.message(), "Invalid port in proxy string: '65536'");
    let e = parse_proxy_string("FTP host 21").unwrap_err();
    assert_eq!(e, ProxyStringError::UnknownType { kind: "ftp".to_string() });
    assert_eq!(e.message(), "Unknown proxy type 'ftp'. Expected socks5 or http");
}

#[test]
fn upstream_host_and_text() {
    let http = UpstreamProxy::Http { host: "p".to_string(), port: 8, auth: Some("x".to_string()) };
    assert_eq!(http.host_port(), Some(("p", 8)));
    assert_eq!(http.to_text(), "http p:8");
    assert_eq!(UpstreamProxy::Direct.host_port(), None);
    assert_eq!(UpstreamProxy::Direct.to_text(), "direct");
}

#[test]
fn state_path() {
    let mut cfg = AppConfig::default();
    assert_eq!(cfg.domain_limits_state_path(Some("/x")), None);
    cfg.domain_limits = vec![("a".to_string(), DomainLimitConfig::default())];
    assert_eq!(
        cfg.domain_limits_state_path(None).as_deref(),
        Some("/var/lib/snirelay/domain_limits.json")
    );
    assert_eq!(
        cfg.domain_limits_state_path(Some("")).as_deref(),
        Some("/var/lib/snirelay/domain_limits.json")
    );
    assert_eq!(cfg.domain_limits_state_path(Some("/x")).as_deref(), Some("/x"));
    cfg.domain_limits_state_file = Some("/y".to_string());
    assert_eq!(cfg.domain_limits_state_path(Some("/x")).as_deref(), Some("/y"));
}

#[test]
fn log_path_precedence() {
    let mut cfg = AppConfig::default();
    assert_eq!(cfg.log_path(None, None), None);
    cfg.log_file = Some("c".to_string());
    assert_eq!(cfg.log_path(None, None).as_deref(), Some("c"));
    assert_eq!(cfg.log_path(None, Some("v")).as_deref(), Some("v"));
    assert_eq!(cfg.log_path(Some("o"), Some("v")).as_deref(), Some("o"));
}

#[test]
fn hex_addresses() {
    assert_eq!(hex_le_ipv4("0100007f").as_deref(), Some("127.0.0.1"));
    assert_eq!(hex_le_ipv4("+1+2+3+f").as_deref(), Some("15.3.2.1"));
    assert_eq!(hex_le_ipv4("010011A"), None);
    assert_eq!(hex_le_ipv4("010011AG"), None);
    assert_eq!(hex_le_ipv4("ééab"), None);
}

const ROUTES: &str = "Iface\tDestination\tGateway \tFlags\n\
    eth0\t000011AC\t00000000\t0001\n\
    eth0\t00000000\t010012AC\t0003\n\
    eth1\t00000000\t010013AC\t0003\n";

#[test]
fn default_gateway() {
    assert_eq!(docker_default_gateway(ROUTES).as_deref(), Some("172.18.0.1"));
    assert_eq!(docker_default_gateway(""), None);
    assert_eq!(docker_default_gateway("x 00000000 010012AC"), None);
    assert_eq!(docker_default_gateway("head\neth0 00000000 bad"), None);
}

fn with_proxy(host: &str) -> AppConfig {
    let mut cfg = AppConfig::default();
    cfg.upstream_proxy = UpstreamProxy::Socks5 {
        host: host.to_string(),
        port: 10808,
        username: Some("u".to_string()),
        password: None,
    };
    cfg
}

#[test]
fn loopback_proxy_moves_to_the_gateway() {
    let mut cfg = with_proxy("localhost");
    let what = cfg.remap_docker_loopback_upstream(true, None, Some(ROUTES));
    assert_eq!(
        what,
        GatewayRemap::Remapped {
            old: "localhost".to_string(),
            gateway: "172.18.0.1".to_string(),
        }
    );
    assert_eq!(
        cfg.upstream_proxy,
        UpstreamProxy::Socks5 {
            host: "172.18.0.1".to_string(),
            port: 10808,
            username: Some("u".to_string()),
            password: None,
        }
    );

    let mut cfg = with_proxy("::1");
    cfg.upstream_proxy =
        UpstreamProxy::Http { host: "::1".to_string(), port: 1, auth: None };
    cfg.remap_docker_loopback_upstream(true, Some("192.168.65.2"), None);
    assert_eq!(cfg.upstream_proxy.to_text(), "http 192.168.65.2:1");
}

#[test]
fn loopback_proxy_stays() {
    let cases: [(bool, Option<&str>, Option<&str>, &str, GatewayRemap); 6] = [
        (false, None, Some(ROUTES), "127.0.0.1", GatewayRemap::NotInDocker),
        (true, Some("OFF"), Some(ROUTES), "127.0.0.1", GatewayRemap::SwitchedOff),
        (true, None, None, "127.0.0.1", GatewayRemap::NoGateway),
        (true, Some(""), None, "127.0.0.1", GatewayRemap::NoGateway),
        (
            true,
            Some("10.0.0.1"),
            Some(ROUTES),
            "127.0.0.1",
            GatewayRemap::NotBridge { gateway: "10.0.0.1".to_string() },
        ),
        (true, None, Some(ROUTES), "10.1.1.1", GatewayRemap::NotLoopback),
    ];
    for (in_docker, variable, route, host, want) in cases {
        let mut cfg = with_proxy(host);
        assert_eq!(cfg.remap_docker_loopback_upstream(in_docker, variable, route), want);
        assert_eq!(cfg.upstream_proxy.host_port(), Some((host, 10808)));
    }
    let mut cfg = AppConfig::default();
    cfg.upstream_proxy = UpstreamProxy::Direct;
    assert_eq!(
        cfg.remap_docker_loopback_upstream(true, None, Some(ROUTES)),
        GatewayRemap::NotLoopback
    );
}
