use snirelay::sni::{
    is_plain_http, parse_client_hello, parse_sni, parse_sni_extension, parse_sni_with_replay,
    parse_tls_handshake_record, u16_be, u24_be, PeekResult,
};

fn extension(kind: u16, body: &[u8]) -> Vec<u8> {
    let mut out = kind.to_be_bytes().to_vec();
    out.extend_from_slice(&(body.len() as u16).to_be_bytes());
    out.extend_from_slice(body);
    out
}

fn server_name(entries: &[(u8, &[u8])]) -> Vec<u8> {
    let mut list = Vec::new();
    for (kind, name) in entries {
        list.push(*kind);
        list.extend_from_slice(&(name.len() as u16).to_be_bytes());
        list.extend_from_slice(name);
    }
    let mut body = (list.len() as u16).to_be_bytes().to_vec();
    body.extend_from_slice(&list);
    body
}

fn hello(extensions: &[u8]) -> Vec<u8> {
    let mut msg = vec![0x01, 0, 0, 0, 0x03, 0x03];
    msg.extend_from_slice(&[7u8; 32]);
    msg.push(4);
    msg.extend_from_slice(&[1, 2, 3, 4]);
    msg.extend_from_slice(&[0, 2, 0x13, 0x01]);
    msg.extend_from_slice(&[1, 0]);
    msg.extend_from_slice(&(extensions.len() as u16).to_be_bytes());
    msg.extend_from_slice(extensions);
    msg
}

fn record(kind: u8, body: &[u8]) -> Vec<u8> {
    let mut out = vec![kind, 0x03, 0x01];
    out.extend_from_slice(&(body.len() as u16).to_be_bytes());
    out.extend_from_slice(body);
    out
}

fn named(name: &[u8]) -> Vec<u8> {
    let mut exts = extension(10, &[0, 2, 0, 29]);
    exts.extend(extension(0, &server_name(&[(0, name)])));
    exts.extend(extension(16, &[0, 3, 2, b'h', b'2']));
    record(0x16, &hello(&exts))
}

#[test]
fn test_plain_http() {
    assert_eq!(parse_sni(b"GET / HTTP/1.1\r\n"), PeekResult::PlainHttp);
    assert_eq!(parse_sni(b"CONNECT example.com:443 HTTP/1.1\r\n"), PeekResult::PlainHttp);
}

#[test]
fn test_need_more() {
    assert_eq!(parse_sni(b"\x16\x03"), PeekResult::NeedMore);
}

#[test]
fn test_not_tls() {
    assert_eq!(parse_sni(b"SSH-2.0-OpenSSH_8.9"), PeekResult::Unknown);
}

#[test]
fn name_is_read_in_lower_case() {
    let bytes = named(b"API.Example.COM");
    assert_eq!(
        parse_sni_with_replay(&bytes),
        (PeekResult::Tls("api.example.com".to_string()), bytes.len())
    );
}

#[test]
fn name_is_lowercased_beyond_ascii() {
    assert_eq!(parse_sni(&named("ÄÖ.example".as_bytes())), PeekResult::Tls("äö.example".to_string()));
}

#[test]
fn flight_ends_with_the_hello_record() {
    let mut bytes = record(0x14, &[1]);
    bytes.extend(named(b"a.example"));
    let flight = bytes.len();
    bytes.extend_from_slice(b"early data");
    assert_eq!(
        parse_sni_with_replay(&bytes),
        (PeekResult::Tls("a.example".to_string()), flight)
    );
    assert_eq!(
        parse_sni_with_replay(&bytes[..flight]),
        (PeekResult::Tls("a.example".to_string()), flight)
    );
}

#[test]
fn every_shorter_prefix_needs_more() {
    let bytes = named(b"a.example");
    for n in 0..bytes.len() {
        assert_eq!(parse_sni_with_replay(&bytes[..n]), (PeekResult::NeedMore, 0));
    }
}

#[test]
fn further_bytes_do_not_change_a_verdict() {
    let cases: Vec<Vec<u8>> = vec![
        named(b"a.example"),
        record(0x16, &hello(&[])),
        b"GET / HTTP/1.1".to_vec(),
        b"SSH-2.0".to_vec(),
    ];
    for case in cases {
        let before = parse_sni_with_replay(&case);
        let mut longer = case.clone();
        longer.extend_from_slice(&[0x16, 0x03, 0x01, 0xff, 0xff, 0, 1, 2]);
        assert_eq!(parse_sni_with_replay(&longer), before);
    }
}

#[test]
fn hello_without_a_usable_name_has_none() {
    assert_eq!(parse_sni(&record(0x16, &hello(&[]))), PeekResult::TlsNoSni);
    let other = extension(10, &[0, 2, 0, 29]);
    assert_eq!(parse_sni(&record(0x16, &hello(&other))), PeekResult::TlsNoSni);
    let not_utf8 = extension(0, &server_name(&[(0, &[0xff, 0xfe])]));
    assert_eq!(parse_sni(&record(0x16, &hello(&not_utf8))), PeekResult::TlsNoSni);
    assert_eq!(parse_sni(&record(0x16, &[0x02, 0, 0, 0])), PeekResult::TlsNoSni);
    assert_eq!(parse_sni(&record(0x16, &[0x01])), PeekResult::TlsNoSni);
}

#[test]
fn record_version_must_be_known() {
    let mut bytes = named(b"a.example");
    bytes[2] = 0x05;
    assert_eq!(parse_sni(&bytes), PeekResult::Unknown);
    assert_eq!(parse_tls_handshake_record(&bytes), PeekResult::Unknown);
    bytes[2] = 0x04;
    assert_eq!(parse_sni(&bytes), PeekResult::Tls("a.example".to_string()));
    assert_eq!(parse_tls_handshake_record(&[0x17, 3, 3, 0, 0]), PeekResult::Unknown);
}

#[test]
fn first_host_name_entry_counts() {
    let body = server_name(&[(1, b"skipped"), (0, b"first.example"), (0, b"second.example")]);
    assert_eq!(parse_sni_extension(&body), Some("first.example".to_string()));
    assert_eq!(parse_sni_extension(&server_name(&[(1, b"x")])), None);
    assert_eq!(parse_sni_extension(&[0]), None);
    assert_eq!(parse_sni_extension(&[0, 9, 0, 0, 1, b'a']), None);
}

#[test]
fn truncated_hellos_have_no_name() {
    let msg = hello(&extension(0, &server_name(&[(0, b"a.example")])));
    assert_eq!(parse_client_hello(&msg), PeekResult::Tls("a.example".to_string()));
    for n in 0..msg.len() {
        assert_eq!(parse_client_hello(&msg[..n]), PeekResult::TlsNoSni);
    }
}

#[test]
fn http_methods_are_recognised() {
    let methods: [&[u8]; 8] =
        [b"GET ", b"POST", b"HEAD", b"PUT ", b"DELE", b"OPTI", b"PATC", b"CONN"];
    for m in methods {
        assert!(is_plain_http(m));
    }
    assert!(!is_plain_http(b"GET"));
    assert!(!is_plain_http(b"get "));
    assert!(!is_plain_http(b"TRAC"));
}

#[test]
fn big_endian_numbers() {
    assert_eq!(u16_be(&[0x12, 0x34]), 0x1234);
    assert_eq!(u24_be(&[0x12, 0x34, 0x56]), 0x123456);
}
