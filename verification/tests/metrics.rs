use snirelay::metrics::{
    client_ip_from_peer, connection_accepted, connection_closed, connection_failed,
    connection_opened, label_value, refresh_interval, response_head, scrape_answer, Metrics,
    TargetLabels,
};

#[test]
fn label_sanitize_and_truncate() {
    assert_eq!(label_value("eu.taline.ir"), "eu.taline.ir");
    assert_eq!(label_value(""), "unknown");
    assert_eq!(label_value("91.107.161.221"), "91.107.161.221");
}

#[test]
fn client_ip_from_peer_parses() {
    assert_eq!(client_ip_from_peer("5.202.52.54:43673"), "5.202.52.54");
    assert_eq!(client_ip_from_peer("[2001:db8::1]:443"), "2001:db8::1");
}

#[test]
fn unsafe_characters_are_replaced() {
    assert_eq!(label_value("a b/c\"é_-:Z9"), "a_b_c___-:Z9");
    assert_eq!(label_value(&"x".repeat(200)), "x".repeat(128));
    assert_eq!(label_value(&"é".repeat(129)), "_".repeat(128));
    assert_eq!(label_value(&"y".repeat(128)), "y".repeat(128));
}

#[test]
fn peers_that_are_no_socket_address() {
    assert_eq!(client_ip_from_peer("unix socket"), "unix_socket");
    assert_eq!(client_ip_from_peer(""), "unknown");
    assert_eq!(client_ip_from_peer("[::ffff:1.2.3.4]:5"), "::ffff:1.2.3.4");
    assert_eq!(client_ip_from_peer("1.2.3.4:99999"), "1.2.3.4:99999");
}

#[test]
fn labels_are_set_one_by_one() {
    let mut labels = TargetLabels::unknown();
    assert_eq!(labels.as_label_values(), ["unknown", "unknown", "unknown"]);
    labels.set_client_ip_from_peer("10.0.0.9:1");
    labels.set_domain("a/b");
    labels.set_upstream("");
    assert_eq!(labels.as_label_values(), ["10.0.0.9", "a_b", "unknown"]);
}

fn value(name: &str, labels: &[(&str, &str)]) -> Option<f64> {
    for family in prometheus::gather() {
        if family.get_name() != name {
            continue;
        }
        for m in family.get_metric() {
            let all = labels.iter().all(|(k, v)| {
                m.get_label().iter().any(|l| l.get_name() == *k && l.get_value() == *v)
            });
            if all && m.get_label().len() == labels.len() {
                return Some(m.get_counter().get_value() + m.get_gauge().get_value());
            }
        }
    }
    None
}

#[test]
fn sessions_are_measured() {
    let mut metrics = Metrics::new();
    assert!(metrics.register(&mut prometheus::default_registry().clone()));

    connection_accepted(&mut metrics, "10.0.0.9:1234");
    connection_accepted(&mut metrics, "10.0.0.9:1235");
    let client = [("client_ip", "10.0.0.9")];
    assert_eq!(value("sniproxy_accepted_connections_total", &client), Some(2.0));

    let mut labels = TargetLabels::unknown();
    labels.set_client_ip_from_peer("10.0.0.9:1234");
    labels.set_domain("a.example");
    labels.set_upstream("b.example");
    let target = [("client_ip", "10.0.0.9"), ("domain", "a.example"), ("upstream", "b.example")];

    connection_opened(&mut metrics, &labels);
    connection_opened(&mut metrics, &labels);
    assert_eq!(value("sniproxy_active_connections", &[]), Some(2.0));
    assert_eq!(value("sniproxy_connections_total", &[]), Some(2.0));
    assert_eq!(value("sniproxy_active_connections_by_target", &target), Some(2.0));
    assert_eq!(value("sniproxy_connections_by_target_total", &target), Some(2.0));

    connection_closed(&mut metrics, &labels, 100, 0);
    assert_eq!(value("sniproxy_active_connections", &[]), Some(1.0));
    assert_eq!(value("sniproxy_active_connections_by_target", &target), Some(1.0));
    assert_eq!(value("sniproxy_bytes_proxied_total", &[]), Some(100.0));
    let up = [target[0], target[1], target[2], ("direction", "client_to_upstream")];
    let down = [target[0], target[1], target[2], ("direction", "upstream_to_client")];
    assert_eq!(value("sniproxy_bytes_proxied_by_target_total", &up), Some(100.0));
    assert_eq!(value("sniproxy_bytes_proxied_by_target_total", &down), None);

    connection_failed(&mut metrics, &labels, true);
    assert_eq!(value("sniproxy_active_connections", &[]), Some(0.0));
    connection_failed(&mut metrics, &labels, false);
    assert_eq!(value("sniproxy_active_connections", &[]), Some(0.0));
    assert_eq!(value("sniproxy_active_connections_by_target", &target), Some(0.0));
    assert_eq!(value("sniproxy_connection_errors_total", &[]), Some(2.0));
    assert_eq!(value("sniproxy_connection_errors_by_target_total", &target), Some(2.0));

    connection_opened(&mut metrics, &labels);
    connection_closed(&mut metrics, &labels, 5, 7);
    assert_eq!(value("sniproxy_bytes_proxied_total", &[]), Some(112.0));
    assert_eq!(value("sniproxy_bytes_proxied_by_target_total", &up), Some(105.0));
    assert_eq!(value("sniproxy_bytes_proxied_by_target_total", &down), Some(7.0));
}

fn exported(registry: &prometheus::Registry) -> Vec<String> {
    registry.gather().iter().map(|f| f.get_name().to_string()).collect()
}

#[test]
fn metrics_are_exported_once() {
    let mut registry = prometheus::Registry::new();
    let mut metrics = Metrics::new();
    assert!(metrics.register(&mut registry));
    assert!(!metrics.register(&mut registry));
    assert!(!Metrics::new().register(&mut registry));
    assert!(Metrics::new().register(&mut prometheus::Registry::new()));

    let mut labels = TargetLabels::unknown();
    labels.set_domain("a.example");
    connection_accepted(&mut metrics, "10.0.0.9:1234");
    connection_opened(&mut metrics, &labels);
    connection_closed(&mut metrics, &labels, 1, 1);
    connection_failed(&mut metrics, &labels, false);
    assert_eq!(
        exported(&registry),
        [
            "sniproxy_accepted_connections_total",
            "sniproxy_active_connections",
            "sniproxy_active_connections_by_target",
            "sniproxy_bytes_proxied_by_target_total",
            "sniproxy_bytes_proxied_total",
            "sniproxy_connection_errors_by_target_total",
            "sniproxy_connection_errors_total",
            "sniproxy_connections_by_target_total",
            "sniproxy_connections_total",
        ]
    );
    let families = registry.gather();
    assert_eq!(families[1].get_help(), "Currently active proxy connections (all)");
    let names: Vec<&str> =
        families[3].get_metric()[0].get_label().iter().map(|l| l.get_name()).collect();
    assert_eq!(names, ["client_ip", "direction", "domain", "upstream"]);
}

#[test]
fn export_stops_at_a_refused_metric() {
    let mut registry = prometheus::Registry::new();
    let taken = prometheus::IntCounter::new("sniproxy_bytes_proxied_total", "Other").unwrap();
    registry.register(Box::new(taken)).unwrap();
    assert!(!Metrics::new().register(&mut registry));
    assert_eq!(
        exported(&registry),
        [
            "sniproxy_active_connections",
            "sniproxy_bytes_proxied_total",
            "sniproxy_connections_total",
        ]
    );

    let mut registry = prometheus::Registry::new();
    let once = prometheus::IntGauge::new("sniproxy_active_connections", "Other").unwrap();
    registry.register(Box::new(once.clone())).unwrap();
    registry.unregister(Box::new(once)).unwrap();
    assert!(!Metrics::new().register(&mut registry));
    assert!(exported(&registry).is_empty());
}

#[test]
fn scrape_answers() {
    assert_eq!(
        response_head("200 OK", 1234),
        "HTTP/1.1 200 OK\r\nContent-Type: text/plain; version=0.0.4; charset=utf-8\r\nConnection: close\r\nContent-Length: 1234\r\n\r\n"
    );
    assert_eq!(refresh_interval(0), 1);
    assert_eq!(refresh_interval(1), 1);
    assert_eq!(refresh_interval(30), 30);

    assert_eq!(scrape_answer(b"a".to_vec(), None), ("200 OK", b"a".to_vec()));
    assert_eq!(scrape_answer(b"a".to_vec(), Some(b"b".to_vec())), ("200 OK", b"a".to_vec()));
    assert_eq!(scrape_answer(Vec::new(), Some(b"b".to_vec())), ("200 OK", b"b".to_vec()));
    assert_eq!(
        scrape_answer(Vec::new(), None),
        ("503 Service Unavailable", b"metrics snapshot not ready yet\n".to_vec())
    );
}
