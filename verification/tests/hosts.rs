use snirelay::hosts::{
    compile_entry, compile_hosts_table, parse_address, HostResolve, HostsEntry, HostsTable,
};
use snirelay::ip::IpAddress;

fn entry(pattern: &str, address: &str) -> HostsEntry {
    HostsEntry { pattern: pattern.into(), address: address.into() }
}

#[test]
fn resolve_exact_and_wildcard() {
    let table = HostsTable::compile(&[
        HostsEntry {
            pattern: "eu.taline.ir".into(),
            address: "91.107.161.221".into(),
        },
        HostsEntry {
            pattern: ".*".into(),
            address: "*".into(),
        },
    ])
    .unwrap();

    assert!(matches!(
        table.resolve("eu.taline.ir"),
        Some(HostResolve::Ip(_))
    ));
    assert!(matches!(
        table.resolve("other.example.com"),
        Some(HostResolve::Passthrough)
    ));
}

#[test]
fn names_are_looked_up_in_lower_case() {
    let table = HostsTable::compile(&[entry(" A.Example ", "10.0.0.1"), entry("^b\\.", "b:1")]).unwrap();
    assert_eq!(table.resolve("a.EXAMPLE"), Some(HostResolve::Ip(IpAddress::V4([10, 0, 0, 1]))));
    assert_eq!(table.resolve("B.example"), Some(HostResolve::Hostname("b:1".to_string())));
    assert_eq!(table.resolve("c.example"), None);
    assert_eq!(table.resolve("xa.example"), None);
}

#[test]
fn last_row_for_a_hostname_stands() {
    let table = HostsTable::compile(&[entry("a", "1.1.1.1"), entry("A", "2.2.2.2")]).unwrap();
    assert_eq!(table.resolve("a"), Some(HostResolve::Ip(IpAddress::V4([2, 2, 2, 2]))));
    assert_eq!(table.stats(), (1, 0));
}

#[test]
fn hostname_rows_come_before_patterns() {
    let table = HostsTable::compile(&[
        entry(".*", "first"),
        entry("^a", "second"),
        entry("a", "exact"),
    ])
    .unwrap();
    assert_eq!(table.resolve("a"), Some(HostResolve::Hostname("exact".to_string())));
    assert_eq!(table.resolve("ab"), Some(HostResolve::Hostname("first".to_string())));
    assert_eq!(table.stats(), (1, 2));
}

#[test]
fn patterns_are_told_from_hostnames() {
    for regex in ["*", "a*", "a?", "^a", "a$", " .* "] {
        assert!(!compile_entry(regex, "*").0);
    }
    assert_eq!(
        compile_entry(" A.b ", " * "),
        (true, "a.b".to_string(), HostResolve::Passthrough)
    );
    assert_eq!(
        compile_entry("^A", "x"),
        (false, "^A".to_string(), HostResolve::Hostname("x".to_string()))
    );
}

#[test]
fn addresses_of_rows() {
    assert_eq!(parse_address(" * "), HostResolve::Passthrough);
    assert_eq!(
        parse_address("::1"),
        HostResolve::Ip(IpAddress::V6([0, 0, 0, 0, 0, 0, 0, 1]))
    );
    assert_eq!(parse_address("256.1.1.1"), HostResolve::Hostname("256.1.1.1".to_string()));
    assert_eq!(parse_address(" backend:8443 "), HostResolve::Hostname("backend:8443".to_string()));
}

#[test]
fn bad_regex_is_reported_with_its_row() {
    let e = HostsTable::compile(&[entry("a", "*"), entry("(*", "*"), entry(")*", "*")]).unwrap_err();
    assert_eq!(e.index, 1);
    assert_eq!(e.pattern, "(*");
    assert_eq!(e.message(), "hosts[1]: invalid regex '(*'");
    assert_eq!(compile_hosts_table(&[entry("(*", "*")]).unwrap_err().index, 0);
}

#[test]
fn no_rows_no_table() {
    assert!(compile_hosts_table(&[]).unwrap().is_none());
    assert_eq!(compile_hosts_table(&[entry("a", "*")]).unwrap().unwrap().stats(), (1, 0));
}

#[test]
fn name_and_lowercase_form_resolve_alike() {
    let table = HostsTable::compile(&[entry("A.example", "10.0.0.1"), entry("b.*", "*")]).unwrap();
    for name in ["A.Example", "B.Example", "C.example"] {
        assert_eq!(table.resolve(name), table.resolve(&name.to_lowercase()));
    }
    assert!(table.resolve("A.EXAMPLE").is_some());
    assert!(table.resolve("c.example").is_none());
}
