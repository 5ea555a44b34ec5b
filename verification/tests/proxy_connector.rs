use snirelay::config::UpstreamProxy;
use snirelay::proxy_connector::{
    build_http_connect_request, build_socks5_connect_request, dial_address, find_crlfcrlf,
    host_port, judge_connect_reply, socks5_greeting, socks5_probe_reply, socks5_reply_text,
    ConnectAction, ConnectError, ConnectReply, HttpConnectHandshake, Socks5Action, Socks5Error,
    Socks5Handshake, Socks5Phase,
};

fn sent(action: Socks5Action) -> (Vec<u8>, usize) {
    match action {
        Socks5Action::Send { bytes, then_read } => (bytes, then_read),
        other => panic!("expected bytes to send, got {:?}", other),
    }
}

fn to_read(action: Socks5Action) -> usize {
    match action {
        Socks5Action::Read { len } => len,
        other => panic!("expected a read, got {:?}", other),
    }
}

fn error(action: Socks5Action) -> Socks5Error {
    match action {
        Socks5Action::Fail { error } => error,
        other => panic!("expected a failure, got {:?}", other),
    }
}

#[test]
fn requests_by_kind_of_target() {
    assert_eq!(
        build_socks5_connect_request("1.2.3.4", 443),
        Ok(vec![5, 1, 0, 1, 1, 2, 3, 4, 1, 0xbb])
    );
    assert_eq!(
        build_socks5_connect_request("2001:db8::1", 80),
        Ok(vec![
            5, 1, 0, 4, 0x20, 0x01, 0x0d, 0xb8, 0, 0, 0, 0, 0, 0, 0, 0, 0, 0, 0, 1, 0, 80
        ])
    );
    assert_eq!(
        build_socks5_connect_request("ab.c", 65535),
        Ok(vec![5, 1, 0, 3, 4, b'a', b'b', b'.', b'c', 0xff, 0xff])
    );
    assert_eq!(build_socks5_connect_request("é", 1), Ok(vec![5, 1, 0, 3, 2, 0xc3, 0xa9, 0, 1]));
    assert!(build_socks5_connect_request(&"a".repeat(255), 1).is_ok());
    assert_eq!(
        build_socks5_connect_request(&"a".repeat(256), 1),
        Err(Socks5Error::HostTooLong)
    );
    assert_eq!(
        build_socks5_connect_request(&"é".repeat(128), 1),
        Err(Socks5Error::HostTooLong)
    );
}

#[test]
fn handshake_without_credentials() {
    let (mut h, first) = Socks5Handshake::start("a.b", 443, None, None);
    assert_eq!(sent(first), (vec![5, 1, 0], 2));
    let request = build_socks5_connect_request("a.b", 443).unwrap();
    assert_eq!(sent(h.on_bytes(&[5, 0])), (request, 4));
    assert_eq!(h.phase(), Socks5Phase::Reply);
    assert_eq!(to_read(h.on_bytes(&[5, 0, 0, 1])), 6);
    assert!(matches!(h.on_bytes(&[0; 6]), Socks5Action::Done));
    assert_eq!(h.phase(), Socks5Phase::Connected);
}

#[test]
fn handshake_with_credentials() {
    let (mut h, first) = Socks5Handshake::start("a.b", 443, Some("user"), Some("pw"));
    assert_eq!(sent(first), (vec![5, 1, 2], 2));
    assert_eq!(
        sent(h.on_bytes(&[5, 2])),
        (vec![1, 4, b'u', b's', b'e', b'r', 2, b'p', b'w'], 2)
    );
    assert_eq!(sent(h.on_bytes(&[1, 0])).1, 4);
    assert_eq!(to_read(h.on_bytes(&[5, 0, 0, 3])), 1);
    assert_eq!(to_read(h.on_bytes(&[9])), 11);
    assert!(matches!(h.on_bytes(&[0; 11]), Socks5Action::Done));
}

#[test]
fn proxy_may_ask_for_credentials_that_there_are_none_of() {
    let (mut h, _) = Socks5Handshake::start("a.b", 443, None, None);
    assert_eq!(sent(h.on_bytes(&[5, 2])), (vec![1, 0, 0], 2));
}

#[test]
fn credentials_that_do_not_fit_are_refused() {
    let start = |user: &str, pass: &str| {
        let (mut h, _) = Socks5Handshake::start("a.b", 443, Some(user), Some(pass));
        h.on_bytes(&[5, 2])
    };
    let (fits, long) = ("u".repeat(255), "u".repeat(256));
    let (bytes, _) = sent(start(&fits, &fits));
    assert_eq!(bytes.len(), 3 + 2 * 255);
    assert_eq!((bytes[1], bytes[257]), (255, 255));
    assert_eq!(error(start(&long, "p")), Socks5Error::CredentialsTooLong);
    assert_eq!(error(start("u", &long)), Socks5Error::CredentialsTooLong);
    assert_eq!(
        Socks5Error::CredentialsTooLong.message(),
        "SOCKS5: username or password too long (>255 bytes)"
    );
}

#[test]
fn ipv6_bound_address() {
    let (mut h, _) = Socks5Handshake::start("a.b", 443, None, None);
    h.on_bytes(&[5, 0]);
    assert_eq!(to_read(h.on_bytes(&[5, 0, 0, 4])), 18);
}

#[test]
fn handshake_failures() {
    let start = || Socks5Handshake::start("a.b", 443, None, None).0;
    assert_eq!(error(start().on_bytes(&[4, 0])), Socks5Error::BadVersion { version: 4 });
    assert_eq!(error(start().on_bytes(&[5, 0xff])), Socks5Error::NoAcceptableMethod);
    assert_eq!(error(start().on_bytes(&[5, 1])), Socks5Error::UnsupportedMethod { method: 1 });

    let mut h = start();
    h.on_bytes(&[5, 2]);
    assert_eq!(error(h.on_bytes(&[1, 7])), Socks5Error::AuthFailed { status: 7 });
    assert_eq!(error(h.on_bytes(&[])), Socks5Error::AuthFailed { status: 7 });

    for (reply, want) in [
        ([4, 0, 0, 1], Socks5Error::BadReplyVersion),
        ([5, 5, 0, 1], Socks5Error::Refused { code: 5 }),
        ([5, 0, 0, 2], Socks5Error::UnknownAddressType { kind: 2 }),
    ] {
        let mut h = start();
        h.on_bytes(&[5, 0]);
        assert_eq!(error(h.on_bytes(&reply)), want);
    }

    let long = "a".repeat(300);
    let (mut h, _) = Socks5Handshake::start(&long, 443, None, None);
    assert_eq!(error(h.on_bytes(&[5, 0])), Socks5Error::HostTooLong);
}

#[test]
fn socks5_errors_are_printed() {
    for (e, want) in [
        (
            Socks5Error::BadVersion { version: 4 },
            "SOCKS5: server replied with unexpected version 4",
        ),
        (Socks5Error::AuthFailed { status: 12 }, "SOCKS5 authentication failed (status 12)"),
        (Socks5Error::NoAcceptableMethod, "SOCKS5: no acceptable authentication method"),
        (
            Socks5Error::UnsupportedMethod { method: 0x0a },
            "SOCKS5: unsupported auth method 0x0a",
        ),
        (Socks5Error::HostTooLong, "SOCKS5: hostname too long (>255 bytes)"),
        (Socks5Error::BadReplyVersion, "SOCKS5: unexpected version in response"),
        (
            Socks5Error::Refused { code: 5 },
            "SOCKS5: CONNECT failed with status Connection refused",
        ),
        (
            Socks5Error::UnknownAddressType { kind: 0xfe },
            "SOCKS5: unknown address type 0xfe",
        ),
        (Socks5Error::ProbeBadVersion { version: 9 }, "SOCKS5 probe: unexpected version 9"),
        (Socks5Error::ProbeRejected, "SOCKS5 probe: proxy rejected all auth methods"),
    ] {
        assert_eq!(e.message(), want);
    }
    let codes: Vec<&str> = (0..10).map(socks5_reply_text).collect();
    assert_eq!(
        codes,
        vec![
            "unknown error",
            "general SOCKS server failure",
            "connection not allowed by ruleset",
            "Network unreachable",
            "Host unreachable",
            "Connection refused",
            "TTL expired",
            "Command not supported",
            "Address type not supported",
            "unknown error",
        ]
    );
}

#[test]
fn probe() {
    assert_eq!(socks5_greeting(true), vec![5, 1, 2]);
    assert_eq!(socks5_greeting(false), vec![5, 1, 0]);
    assert_eq!(socks5_probe_reply(&[5, 2]), Ok(2));
    assert_eq!(socks5_probe_reply(&[4, 0]), Err(Socks5Error::ProbeBadVersion { version: 4 }));
    assert_eq!(socks5_probe_reply(&[5, 0xff]), Err(Socks5Error::ProbeRejected));
}

#[test]
fn http_connect_requests() {
    assert_eq!(
        build_http_connect_request("a.b", 443, None),
        "CONNECT a.b:443 HTTP/1.1\r\nHost: a.b:443\r\nProxy-Connection: keep-alive\r\n\r\n"
    );
    assert_eq!(
        build_http_connect_request("a.b", 443, Some("dTpw")),
        "CONNECT a.b:443 HTTP/1.1\r\nHost: a.b:443\r\nProxy-Authorization: Basic dTpw\r\nProxy-Connection: keep-alive\r\n\r\n"
    );
}

#[test]
fn header_block_ends_at_the_blank_line() {
    assert_eq!(find_crlfcrlf(b""), None);
    assert_eq!(find_crlfcrlf(b"\r\n\r"), None);
    assert_eq!(find_crlfcrlf(b"\r\n\r\n"), Some(0));
    assert_eq!(find_crlfcrlf(b"ab\r\r\n\r\n\r\n"), Some(3));
    assert_eq!(find_crlfcrlf(b"a\n\nb"), None);
}

#[test]
fn connect_replies() {
    assert_eq!(
        judge_connect_reply(b"HTTP/1.1 200 Connection established\r\n\r\nxyz"),
        ConnectReply::Established
    );
    assert_eq!(
        judge_connect_reply(b"HTTP/1.1 407 Auth\r\nX: 200\r\n\r\n"),
        ConnectReply::Refused { line: "HTTP/1.1 407 Auth".to_string() }
    );
    assert_eq!(judge_connect_reply(b"HTTP/1.1 2000\r\n\r\n"), ConnectReply::Established);
    assert_eq!(judge_connect_reply(b"200\r\nX: 403\r\n\r\n"), ConnectReply::Established);
    assert_eq!(judge_connect_reply(b"\r\n\r\n"), ConnectReply::Refused { line: String::new() });
    assert_eq!(
        judge_connect_reply(b"\xff 200\r\n\r\n"),
        ConnectReply::Refused { line: "<invalid utf8>".to_string() }
    );
    assert_eq!(judge_connect_reply(b"HTTP/1.1 200"), ConnectReply::NeedMore);
    assert_eq!(judge_connect_reply(&[b'x'; 4096]), ConnectReply::TooLarge);
}

#[test]
fn http_handshake() {
    let (mut h, first) = HttpConnectHandshake::start();
    assert!(matches!(first, ConnectAction::Read { room: 4096 }));
    assert!(matches!(h.on_bytes(b"HTTP/1.1 20"), ConnectAction::Read { room: 4085 }));
    assert!(matches!(h.on_bytes(b"0 OK\r\n\r\n"), ConnectAction::Done));

    let fail = |chunks: &[&[u8]]| {
        let (mut h, mut last) = HttpConnectHandshake::start();
        for c in chunks {
            last = h.on_bytes(c);
        }
        match last {
            ConnectAction::Fail { error } => error,
            other => panic!("expected a failure, got {:?}", other),
        }
    };
    let closed = fail(&[b"HTTP", b""]);
    assert_eq!(closed, ConnectError::Closed);
    assert_eq!(closed.message(), "HTTP proxy closed connection during CONNECT handshake");
    let refused = fail(&[b"HTTP/1.1 503 No\r", b"\n\r\n"]);
    assert_eq!(refused, ConnectError::Refused { line: "HTTP/1.1 503 No".to_string() });
    assert_eq!(refused.message(), "HTTP CONNECT failed: HTTP/1.1 503 No");
    let large = fail(&[&[b'a'; 4000], &[b'a'; 96]]);
    assert_eq!(large, ConnectError::TooLarge);
    assert_eq!(large.message(), "HTTP CONNECT response too large");
}

#[test]
fn addresses_to_dial() {
    assert_eq!(host_port("h", 1), "h:1");
    let socks =
        UpstreamProxy::Socks5 { host: "p".to_string(), port: 1080, username: None, password: None };
    assert_eq!(dial_address(&socks, "t", 443), "p:1080");
    assert_eq!(dial_address(&UpstreamProxy::Direct, "t", 443), "t:443");
}
