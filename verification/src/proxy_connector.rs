//! Upstream proxy handshakes: SOCKS5 (RFC 1928, RFC 1929) and HTTP CONNECT.
//!
//! Nothing here reads or writes a socket. A handshake says what to send and how
//! many bytes to read next, and is told what was read.

use vstd::prelude::*;
use vstd::slice::slice_subrange;
use vstd::utf8;

use crate::config::UpstreamProxy;
use crate::ip;
use crate::ip::IpAddress;
use crate::text;

verus! {

// ── Addresses ────────────────────────────────────────────────────────────────

/// `host:port`.
pub open spec fn host_port_text(host: Seq<char>, port: u16) -> Seq<char> {
    host + ":"@ + text::decimal(port as nat)
}

/// `host:port`.
pub fn host_port(host: &str, port: u16) -> (r: String)
    ensures
        r@ == host_port_text(host@, port),
{
    let mut out: String = host.to_owned();
    text::push_text(&mut out, ":");
    text::push_decimal(&mut out, port as u64);
    out
}

/// The address to open a connection to: that of the proxy, or the target itself
/// where there is no proxy.
pub fn dial_address(proxy: &UpstreamProxy, target_host: &str, target_port: u16) -> (r: String)
    ensures
        r@ == (match proxy@.host_port() {
            Some((host, port)) => host_port_text(host, port),
            None => host_port_text(target_host@, target_port),
        }),
{
    match proxy.host_port() {
        Some((host, port)) => host_port(host, port),
        None => host_port(target_host, target_port),
    }
}

// ── SOCKS5 errors ────────────────────────────────────────────────────────────

/// Why a SOCKS5 handshake fails.
#[derive(Debug, Clone, Copy, PartialEq, Eq, Structural)]
pub enum Socks5Error {
    /// The greeting was answered in another version
    BadVersion { version: u8 },
    /// The credentials were refused
    AuthFailed { status: u8 },
    /// The proxy accepts no method that was offered
    NoAcceptableMethod,
    /// The proxy chose a method that is not known here
    UnsupportedMethod { method: u8 },
    /// The username or the password does not fit its length byte
    CredentialsTooLong,
    /// The target's name does not fit the length byte
    HostTooLong,
    /// The request was answered in another version
    BadReplyVersion,
    /// The request was refused
    Refused { code: u8 },
    /// The bound address is of an unknown type
    UnknownAddressType { kind: u8 },
    /// The probe was answered in another version
    ProbeBadVersion { version: u8 },
    /// The probe found no method that the proxy accepts
    ProbeRejected,
}

/// What a reply code means.
pub open spec fn reply_text(code: u8) -> Seq<char> {
    if code == 0x01 {
        "general SOCKS server failure"@
    } else if code == 0x02 {
        "connection not allowed by ruleset"@
    } else if code == 0x03 {
        "Network unreachable"@
    } else if code == 0x04 {
        "Host unreachable"@
    } else if code == 0x05 {
        "Connection refused"@
    } else if code == 0x06 {
        "TTL expired"@
    } else if code == 0x07 {
        "Command not supported"@
    } else if code == 0x08 {
        "Address type not supported"@
    } else {
        "unknown error"@
    }
}

/// What a reply code means.
pub fn socks5_reply_text(code: u8) -> (r: &'static str)
    ensures
        r@ == reply_text(code),
{
    match code {
        0x01 => "general SOCKS server failure",
        0x02 => "connection not allowed by ruleset",
        0x03 => "Network unreachable",
        0x04 => "Host unreachable",
        0x05 => "Connection refused",
        0x06 => "TTL expired",
        0x07 => "Command not supported",
        0x08 => "Address type not supported",
        _ => "unknown error",
    }
}

/// A byte as two hexadecimal digits.
pub open spec fn hex_byte(n: u8) -> Seq<char> {
    seq![ip::hex_char((n / 16) as nat), ip::hex_char((n % 16) as nat)]
}

fn push_hex_byte(out: &mut String, n: u8)
    ensures
        final(out)@ == old(out)@ + hex_byte(n),
{
    push_hex_digit(out, n / 16);
    push_hex_digit(out, n % 16);
    assert(out@ =~= old(out)@ + hex_byte(n));
}

fn push_hex_digit(out: &mut String, d: u8)
    requires
        d < 16,
    ensures
        final(out)@ == old(out)@.push(ip::hex_char(d as nat)),
{
    if d < 10 {
        out.push((48 + d) as char);
    } else {
        out.push((97 + (d - 10)) as char);
    }
}

impl Socks5Error {
    /// The error as it is printed.
    pub open spec fn text(self) -> Seq<char> {
        match self {
            Socks5Error::BadVersion {
                version,
            } => "SOCKS5: server replied with unexpected version "@ + text::decimal(
                version as nat,
            ),
            Socks5Error::AuthFailed { status } => "SOCKS5 authentication failed (status "@
                + text::decimal(status as nat) + ")"@,
            Socks5Error::NoAcceptableMethod => "SOCKS5: no acceptable authentication method"@,
            Socks5Error::UnsupportedMethod { method } => "SOCKS5: unsupported auth method 0x"@
                + hex_byte(method),
            Socks5Error::CredentialsTooLong => "SOCKS5: username or password too long (>255 bytes)"@,
            Socks5Error::HostTooLong => "SOCKS5: hostname too long (>255 bytes)"@,
            Socks5Error::BadReplyVersion => "SOCKS5: unexpected version in response"@,
            Socks5Error::Refused { code } => "SOCKS5: CONNECT failed with status "@ + reply_text(
                code,
            ),
            Socks5Error::UnknownAddressType { kind } => "SOCKS5: unknown address type 0x"@
                + hex_byte(kind),
            Socks5Error::ProbeBadVersion { version } => "SOCKS5 probe: unexpected version "@
                + text::decimal(version as nat),
            Socks5Error::ProbeRejected => "SOCKS5 probe: proxy rejected all auth methods"@,
        }
    }

    /// The error as it is printed.
    pub fn message(&self) -> (r: String)
        ensures
            r@ == self.text(),
    {
        match self {
            Socks5Error::BadVersion { version } => {
                let mut out: String = "SOCKS5: server replied with unexpected version ".to_owned();
                text::push_decimal(&mut out, *version as u64);
                out
            },
            Socks5Error::AuthFailed { status } => {
                let mut out: String = "SOCKS5 authentication failed (status ".to_owned();
                text::push_decimal(&mut out, *status as u64);
                text::push_text(&mut out, ")");
                out
            },
            Socks5Error::NoAcceptableMethod => {
                "SOCKS5: no acceptable authentication method".to_owned()
            },
            Socks5Error::UnsupportedMethod { method } => {
                let mut out: String = "SOCKS5: unsupported auth method 0x".to_owned();
                push_hex_byte(&mut out, *method);
                out
            },
            Socks5Error::CredentialsTooLong => {
                "SOCKS5: username or password too long (>255 bytes)".to_owned()
            },
            Socks5Error::HostTooLong => "SOCKS5: hostname too long (>255 bytes)".to_owned(),
            Socks5Error::BadReplyVersion => "SOCKS5: unexpected version in response".to_owned(),
            Socks5Error::Refused { code } => {
                let mut out: String = "SOCKS5: CONNECT failed with status ".to_owned();
                text::push_text(&mut out, socks5_reply_text(*code));
                out
            },
            Socks5Error::UnknownAddressType { kind } => {
                let mut out: String = "SOCKS5: unknown address type 0x".to_owned();
                push_hex_byte(&mut out, *kind);
                out
            },
            Socks5Error::ProbeBadVersion { version } => {
                let mut out: String = "SOCKS5 probe: unexpected version ".to_owned();
                text::push_decimal(&mut out, *version as u64);
                out
            },
            Socks5Error::ProbeRejected => {
                "SOCKS5 probe: proxy rejected all auth methods".to_owned()
            },
        }
    }
}

// ── SOCKS5 messages ──────────────────────────────────────────────────────────

/// The greeting: version 5 and one method, username/password where there is a
/// username, else none.
pub open spec fn greeting(has_username: bool) -> Seq<u8> {
    seq![
        0x05u8,
        0x01u8,
        if has_username {
            0x02u8
        } else {
            0x00u8
        },
    ]
}

/// Text by its bytes; nothing where there is none.
pub open spec fn bytes_or_empty(s: Option<Seq<char>>) -> Seq<u8> {
    match s {
        Some(t) => utf8::encode_utf8(t),
        None => Seq::empty(),
    }
}

/// The credentials message: version 1, then username and password, each behind
/// one length byte, if each has at most 255 bytes.
pub open spec fn credentials(username: Option<Seq<char>>, password: Option<Seq<char>>) -> Option<
    Seq<u8>,
> {
    let user = bytes_or_empty(username);
    let pass = bytes_or_empty(password);
    if user.len() > 255 || pass.len() > 255 {
        None
    } else {
        Some(seq![0x01u8, user.len() as u8] + user + seq![pass.len() as u8] + pass)
    }
}

/// A port as two big-endian bytes.
pub open spec fn port_bytes(port: u16) -> Seq<u8> {
    seq![(port / 256) as u8, (port % 256) as u8]
}

/// IPv6 groups as big-endian bytes.
pub open spec fn group_bytes(groups: Seq<u16>) -> Seq<u8>
    decreases groups.len(),
{
    if groups.len() == 0 {
        Seq::empty()
    } else {
        group_bytes(groups.drop_last()) + seq![
            (groups.last() / 256) as u8,
            (groups.last() % 256) as u8,
        ]
    }
}

/// The CONNECT request for a target: an IP address is sent as such, any other
/// host by name, if the name has at most 255 bytes.
pub open spec fn connect_request(host: Seq<char>, port: u16) -> Option<Seq<u8>> {
    match ip::ip_of(host) {
        Some(ip::Ip::V4(octets)) => Some(
            seq![0x05u8, 0x01, 0x00, 0x01] + octets + port_bytes(port),
        ),
        Some(ip::Ip::V6(groups)) => Some(
            seq![0x05u8, 0x01, 0x00, 0x04] + group_bytes(groups) + port_bytes(port),
        ),
        None => {
            let name = utf8::encode_utf8(host);
            if name.len() > 255 {
                None
            } else {
                Some(
                    seq![0x05u8, 0x01, 0x00, 0x03, name.len() as u8] + name + port_bytes(port),
                )
            }
        },
    }
}

fn push_bytes(out: &mut Vec<u8>, bytes: &[u8])
    ensures
        final(out)@ == old(out)@ + bytes@,
{
    let ghost start = out@;
    for i in 0..bytes.len()
        invariant
            out@ == start + bytes@.take(i as int),
    {
        out.push(bytes[i]);
        assert(out@ =~= start + bytes@.take(i + 1));
    }
    assert(bytes@.take(bytes@.len() as int) =~= bytes@);
}

fn push_port(out: &mut Vec<u8>, port: u16)
    ensures
        final(out)@ == old(out)@ + port_bytes(port),
{
    out.push((port / 256) as u8);
    out.push((port % 256) as u8);
    assert(out@ =~= old(out)@ + port_bytes(port));
}

/// Builds the CONNECT request for a target.
pub fn build_socks5_connect_request(target_host: &str, target_port: u16) -> (r: Result<
    Vec<u8>,
    Socks5Error,
>)
    ensures
        match r {
            Ok(req) => connect_request(target_host@, target_port) == Some(req@),
            Err(e) => connect_request(target_host@, target_port) is None && e
                == Socks5Error::HostTooLong,
        },
{
    let chars: Vec<char> = text::chars_of(target_host);
    match ip::parse_ip(chars.as_slice()) {
        Some(IpAddress::V4(octets)) => {
            let mut req: Vec<u8> = vec![0x05, 0x01, 0x00, 0x01];
            let ghost head = req@;
            assert(head =~= seq![0x05u8, 0x01, 0x00, 0x01]);
            for i in 0..4
                invariant
                    req@ == head + octets@.take(i as int),
            {
                req.push(octets[i]);
                assert(req@ =~= head + octets@.take(i + 1));
            }
            assert(octets@.take(4) =~= octets@);
            push_port(&mut req, target_port);
            Ok(req)
        },
        Some(IpAddress::V6(groups)) => {
            let mut req: Vec<u8> = vec![0x05, 0x01, 0x00, 0x04];
            let ghost head = req@;
            assert(head =~= seq![0x05u8, 0x01, 0x00, 0x04]);
            assert(head + group_bytes(groups@.take(0)) =~= head);
            for i in 0..8
                invariant
                    req@ == head + group_bytes(groups@.take(i as int)),
            {
                req.push((groups[i] / 256) as u8);
                req.push((groups[i] % 256) as u8);
                assert(groups@.take(i + 1).drop_last() =~= groups@.take(i as int));
                assert(req@ =~= head + group_bytes(groups@.take(i + 1)));
            }
            assert(groups@.take(8) =~= groups@);
            push_port(&mut req, target_port);
            Ok(req)
        },
        None => {
            let name: &[u8] = target_host.as_bytes();
            if name.len() > 255 {
                return Err(Socks5Error::HostTooLong);
            }
            let mut req: Vec<u8> = vec![0x05, 0x01, 0x00, 0x03, name.len() as u8];
            assert(req@ =~= seq![0x05u8, 0x01, 0x00, 0x03, name@.len() as u8]);
            push_bytes(&mut req, name);
            push_port(&mut req, target_port);
            Ok(req)
        },
    }
}

fn push_counted(out: &mut Vec<u8>, s: &Option<String>) -> (r: bool)
    ensures
        r == (bytes_or_empty(text::opt(*s)).len() <= 255),
        r ==> final(out)@ == old(out)@ + seq![bytes_or_empty(text::opt(*s)).len() as u8]
            + bytes_or_empty(text::opt(*s)),
{
    match s {
        Some(t) => {
            let bytes: &[u8] = t.as_str().as_bytes();
            if bytes.len() > 255 {
                return false;
            }
            out.push(bytes.len() as u8);
            push_bytes(out, bytes);
        },
        None => {
            out.push(0);
        },
    }
    assert(out@ =~= old(out)@ + seq![bytes_or_empty(text::opt(*s)).len() as u8] + bytes_or_empty(
        text::opt(*s),
    ));
    true
}

// ── SOCKS5 handshake ─────────────────────────────────────────────────────────

/// What a handshake waits for.
#[derive(Debug, Clone, Copy, PartialEq, Eq, Structural)]
pub enum Socks5Phase {
    /// The answer to the greeting
    Greeting,
    /// The answer to the credentials
    Auth,
    /// The head of the answer to the request
    Reply,
    /// The length of the bound host name
    BoundLength,
    /// The rest of the bound address
    Bound { len: usize },
    /// Nothing: the tunnel stands
    Connected,
    /// Nothing: the handshake has failed
    Failed { error: Socks5Error },
}

impl Socks5Phase {
    /// How many bytes are waited for.
    pub open spec fn awaited(self) -> nat {
        match self {
            Socks5Phase::Greeting => 2,
            Socks5Phase::Auth => 2,
            Socks5Phase::Reply => 4,
            Socks5Phase::BoundLength => 1,
            Socks5Phase::Bound { len } => len as nat,
            Socks5Phase::Connected => 0,
            Socks5Phase::Failed { .. } => 0,
        }
    }
}

/// What to do next in a handshake.
#[derive(Debug)]
pub enum Socks5Action {
    /// Send the bytes, then read exactly so many
    Send { bytes: Vec<u8>, then_read: usize },
    /// Read exactly so many bytes
    Read { len: usize },
    /// The tunnel stands
    Done,
    /// Give up
    Fail { error: Socks5Error },
}

/// What a [`Socks5Action`] says.
pub enum Step {
    Send(Seq<u8>, int),
    Read(int),
    Done,
    Fail(Socks5Error),
}

impl View for Socks5Action {
    type V = Step;

    open spec fn view(&self) -> Step {
        match self {
            Socks5Action::Send { bytes, then_read } => Step::Send(bytes@, *then_read as int),
            Socks5Action::Read { len } => Step::Read(*len as int),
            Socks5Action::Done => Step::Done,
            Socks5Action::Fail { error } => Step::Fail(*error),
        }
    }
}

/// A SOCKS5 handshake for one target.
#[derive(Debug)]
pub struct Socks5Handshake {
    phase: Socks5Phase,
    host: String,
    port: u16,
    username: Option<String>,
    password: Option<String>,
}

/// What a [`Socks5Handshake`] holds.
pub struct Handshake {
    pub phase: Socks5Phase,
    pub host: Seq<char>,
    pub port: u16,
    pub username: Option<Seq<char>>,
    pub password: Option<Seq<char>>,
}

impl View for Socks5Handshake {
    type V = Handshake;

    closed spec fn view(&self) -> Handshake {
        Handshake {
            phase: self.phase,
            host: self.host@,
            port: self.port,
            username: text::opt(self.username),
            password: text::opt(self.password),
        }
    }
}

impl Handshake {
    /// The handshake in another phase.
    pub open spec fn in_phase(self, phase: Socks5Phase) -> Handshake {
        Handshake {
            phase,
            host: self.host,
            port: self.port,
            username: self.username,
            password: self.password,
        }
    }

    /// Give up.
    pub open spec fn failing(self, error: Socks5Error) -> (Socks5Phase, Step) {
        (Socks5Phase::Failed { error }, Step::Fail(error))
    }

    /// Send the request, if the target can be asked for.
    pub open spec fn requesting(self) -> (Socks5Phase, Step) {
        match connect_request(self.host, self.port) {
            Some(request) => (Socks5Phase::Reply, Step::Send(request, 4)),
            None => self.failing(Socks5Error::HostTooLong),
        }
    }

    /// The phase after `input` was read, and what to do next.
    pub open spec fn next(self, input: Seq<u8>) -> (Socks5Phase, Step) {
        match self.phase {
            Socks5Phase::Greeting => if input[0] != 0x05 {
                self.failing(Socks5Error::BadVersion { version: input[0] })
            } else if input[1] == 0x00 {
                self.requesting()
            } else if input[1] == 0x02 {
                match credentials(self.username, self.password) {
                    Some(message) => (Socks5Phase::Auth, Step::Send(message, 2)),
                    None => self.failing(Socks5Error::CredentialsTooLong),
                }
            } else if input[1] == 0xff {
                self.failing(Socks5Error::NoAcceptableMethod)
            } else {
                self.failing(Socks5Error::UnsupportedMethod { method: input[1] })
            },
            Socks5Phase::Auth => if input[1] != 0x00 {
                self.failing(Socks5Error::AuthFailed { status: input[1] })
            } else {
                self.requesting()
            },
            Socks5Phase::Reply => if input[0] != 0x05 {
                self.failing(Socks5Error::BadReplyVersion)
            } else if input[1] != 0x00 {
                self.failing(Socks5Error::Refused { code: input[1] })
            } else if input[3] == 0x01 {
                (Socks5Phase::Bound { len: 6 }, Step::Read(6))
            } else if input[3] == 0x03 {
                (Socks5Phase::BoundLength, Step::Read(1))
            } else if input[3] == 0x04 {
                (Socks5Phase::Bound { len: 18 }, Step::Read(18))
            } else {
                self.failing(Socks5Error::UnknownAddressType { kind: input[3] })
            },
            Socks5Phase::BoundLength => {
                let len = (input[0] + 2) as usize;
                (Socks5Phase::Bound { len }, Step::Read(len as int))
            },
            Socks5Phase::Bound { .. } => (Socks5Phase::Connected, Step::Done),
            Socks5Phase::Connected => (Socks5Phase::Connected, Step::Done),
            Socks5Phase::Failed { error } => self.failing(error),
        }
    }
}

fn copied(s: Option<&str>) -> (r: Option<String>)
    ensures
        text::opt(r) == text::opt_str(s),
{
    match s {
        Some(t) => Some(t.to_owned()),
        None => None,
    }
}

impl Socks5Handshake {
    /// Starts a handshake for a target, on a connection to the proxy.
    pub fn start(
        target_host: &str,
        target_port: u16,
        username: Option<&str>,
        password: Option<&str>,
    ) -> (r: (Self, Socks5Action))
        ensures
            r.0@ == (Handshake {
                phase: Socks5Phase::Greeting,
                host: target_host@,
                port: target_port,
                username: text::opt_str(username),
                password: text::opt_str(password),
            }),
            r.1@ == Step::Send(greeting(username is Some), 2),
    {
        let action: Socks5Action = Socks5Action::Send {
            bytes: socks5_greeting(username.is_some()),
            then_read: 2,
        };
        let handshake: Socks5Handshake = Socks5Handshake {
            phase: Socks5Phase::Greeting,
            host: target_host.to_owned(),
            port: target_port,
            username: copied(username),
            password: copied(password),
        };
        (handshake, action)
    }

    /// What the handshake waits for.
    pub fn phase(&self) -> (r: Socks5Phase)
        ensures
            r == self@.phase,
    {
        self.phase
    }

    fn request(&mut self) -> (r: Socks5Action)
        ensures
            ({
                let (phase, step) = old(self)@.requesting();
                final(self)@ == old(self)@.in_phase(phase) && r@ == step
            }),
    {
        match build_socks5_connect_request(self.host.as_str(), self.port) {
            Ok(bytes) => {
                self.phase = Socks5Phase::Reply;
                Socks5Action::Send { bytes, then_read: 4 }
            },
            Err(error) => self.fail(error),
        }
    }

    fn fail(&mut self, error: Socks5Error) -> (r: Socks5Action)
        ensures
            final(self)@ == old(self)@.in_phase(Socks5Phase::Failed { error }),
            r@ == Step::Fail(error),
    {
        self.phase = Socks5Phase::Failed { error };
        Socks5Action::Fail { error }
    }

    fn skip(&mut self, len: usize) -> (r: Socks5Action)
        ensures
            final(self)@ == old(self)@.in_phase(Socks5Phase::Bound { len }),
            r@ == Step::Read(len as int),
    {
        self.phase = Socks5Phase::Bound { len };
        Socks5Action::Read { len }
    }

    /// Takes the bytes that were asked for.
    pub fn on_bytes(&mut self, input: &[u8]) -> (r: Socks5Action)
        requires
            input@.len() == old(self)@.phase.awaited(),
        ensures
            ({
                let (phase, step) = old(self)@.next(input@);
                final(self)@ == old(self)@.in_phase(phase) && r@ == step
            }),
    {
        match self.phase {
            Socks5Phase::Greeting => {
                if input[0] != 0x05 {
                    return self.fail(Socks5Error::BadVersion { version: input[0] });
                }
                match input[1] {
                    0x00 => self.request(),
                    0x02 => {
                        let mut bytes: Vec<u8> = vec![0x01];
                        if !push_counted(&mut bytes, &self.username) || !push_counted(
                            &mut bytes,
                            &self.password,
                        ) {
                            return self.fail(Socks5Error::CredentialsTooLong);
                        }
                        assert(bytes@ =~= credentials(self@.username, self@.password)->0);
                        self.phase = Socks5Phase::Auth;
                        Socks5Action::Send { bytes, then_read: 2 }
                    },
                    0xff => self.fail(Socks5Error::NoAcceptableMethod),
                    method => self.fail(Socks5Error::UnsupportedMethod { method }),
                }
            },
            Socks5Phase::Auth => {
                if input[1] != 0x00 {
                    return self.fail(Socks5Error::AuthFailed { status: input[1] });
                }
                self.request()
            },
            Socks5Phase::Reply => {
                if input[0] != 0x05 {
                    return self.fail(Socks5Error::BadReplyVersion);
                }
                if input[1] != 0x00 {
                    return self.fail(Socks5Error::Refused { code: input[1] });
                }
                match input[3] {
                    0x01 => self.skip(6),
                    0x03 => {
                        self.phase = Socks5Phase::BoundLength;
                        Socks5Action::Read { len: 1 }
                    },
                    0x04 => self.skip(18),
                    kind => self.fail(Socks5Error::UnknownAddressType { kind }),
                }
            },
            Socks5Phase::BoundLength => self.skip(input[0] as usize + 2),
            Socks5Phase::Bound { .. } | Socks5Phase::Connected => {
                self.phase = Socks5Phase::Connected;
                Socks5Action::Done
            },
            Socks5Phase::Failed { error } => self.fail(error),
        }
    }
}

/// The greeting that opens a handshake.
pub fn socks5_greeting(has_username: bool) -> (r: Vec<u8>)
    ensures
        r@ == greeting(has_username),
{
    let method: u8 = if has_username {
        0x02
    } else {
        0x00
    };
    let bytes: Vec<u8> = vec![0x05, 0x01, method];
    assert(bytes@ =~= greeting(has_username));
    bytes
}

/// Judges the two bytes with which a proxy answers the greeting of a probe;
/// gives the method that it chose.
pub fn socks5_probe_reply(reply: &[u8]) -> (r: Result<u8, Socks5Error>)
    requires
        reply@.len() == 2,
    ensures
        r == (if reply@[0] != 0x05 {
            Err(Socks5Error::ProbeBadVersion { version: reply@[0] })
        } else if reply@[1] == 0xff {
            Err(Socks5Error::ProbeRejected)
        } else {
            Ok(reply@[1])
        }),
{
    if reply[0] != 0x05 {
        return Err(Socks5Error::ProbeBadVersion { version: reply[0] });
    }
    if reply[1] == 0xff {
        return Err(Socks5Error::ProbeRejected);
    }
    Ok(reply[1])
}

// ── HTTP CONNECT ─────────────────────────────────────────────────────────────

/// The CONNECT request for a target, with credentials where there are any.
pub open spec fn http_connect_text(
    host: Seq<char>,
    port: u16,
    auth: Option<Seq<char>>,
) -> Seq<char> {
    let target = host_port_text(host, port);
    "CONNECT "@ + target + " HTTP/1.1\r\nHost: "@ + target + "\r\n"@ + (match auth {
        Some(value) => "Proxy-Authorization: Basic "@ + value + "\r\n"@,
        None => Seq::empty(),
    }) + "Proxy-Connection: keep-alive\r\n\r\n"@
}

/// Builds the CONNECT request for a target.
pub fn build_http_connect_request(
    target_host: &str,
    target_port: u16,
    auth: Option<&str>,
) -> (r: String)
    ensures
        r@ == http_connect_text(target_host@, target_port, text::opt_str(auth)),
{
    let target: String = host_port(target_host, target_port);
    let mut req: String = "CONNECT ".to_owned();
    text::push_text(&mut req, target.as_str());
    text::push_text(&mut req, " HTTP/1.1\r\nHost: ");
    text::push_text(&mut req, target.as_str());
    text::push_text(&mut req, "\r\n");
    if let Some(value) = auth {
        text::push_text(&mut req, "Proxy-Authorization: Basic ");
        text::push_text(&mut req, value);
        text::push_text(&mut req, "\r\n");
    }
    text::push_text(&mut req, "Proxy-Connection: keep-alive\r\n\r\n");
    assert(req@ =~= http_connect_text(target_host@, target_port, text::opt_str(auth)));
    req
}

/// Room for the head of the answer to a CONNECT request.
pub const RESPONSE_CAPACITY: usize = 4096;

/// The end of a header block.
pub open spec fn blank_line() -> Seq<u8> {
    seq![0x0du8, 0x0au8, 0x0du8, 0x0au8]
}

/// Where the first blank line at or after index `i` begins.
pub open spec fn blank_line_from(s: Seq<u8>, i: int) -> Option<int>
    decreases s.len() - i,
{
    if i < 0 || i + 4 > s.len() {
        None
    } else if text::occurs_at(s, blank_line(), i) {
        Some(i)
    } else {
        blank_line_from(s, i + 1)
    }
}

/// Where the first blank line begins.
pub fn find_crlfcrlf(buf: &[u8]) -> (r: Option<usize>)
    ensures
        blank_line_from(buf@, 0) == (match r {
            Some(i) => Some(i as int),
            None => None,
        }),
        r matches Some(i) ==> i + 4 <= buf@.len(),
{
    let mut i: usize = 0;
    while i < buf.len() && buf.len() - i >= 4
        invariant
            i <= buf@.len(),
            blank_line_from(buf@, 0) == blank_line_from(buf@, i as int),
        decreases buf@.len() - i,
    {
        assert(buf@.subrange(i as int, i + 4) =~= seq![
            buf@[i as int],
            buf@[i + 1],
            buf@[i + 2],
            buf@[i + 3],
        ]);
        if buf[i] == 0x0d && buf[i + 1] == 0x0a && buf[i + 2] == 0x0d && buf[i + 3] == 0x0a {
            assert(text::occurs_at(buf@, blank_line(), i as int));
            return Some(i);
        }
        assert(!text::occurs_at(buf@, blank_line(), i as int)) by {
            if text::occurs_at(buf@, blank_line(), i as int) {
                let w = buf@.subrange(i as int, i + 4);
                assert(w[0] == 0x0d && w[1] == 0x0a && w[2] == 0x0d && w[3] == 0x0a);
            }
        }
        i = i + 1;
    }
    None
}

/// What the bytes received so far say of a CONNECT request.
#[derive(Debug, Clone, PartialEq)]
pub enum ConnectReply {
    /// The header block has not ended
    NeedMore,
    /// The tunnel stands
    Established,
    /// Refused, with the first line of the answer
    Refused { line: String },
    /// The header block does not fit
    TooLarge,
}

/// What a [`ConnectReply`] says.
pub enum Reply {
    NeedMore,
    Established,
    Refused(Seq<char>),
    TooLarge,
}

impl View for ConnectReply {
    type V = Reply;

    open spec fn view(&self) -> Reply {
        match self {
            ConnectReply::NeedMore => Reply::NeedMore,
            ConnectReply::Established => Reply::Established,
            ConnectReply::Refused { line } => Reply::Refused(line@),
            ConnectReply::TooLarge => Reply::TooLarge,
        }
    }
}

/// The first line of a header block; a mark in its place where the block is not
/// UTF-8.
pub open spec fn status_line(head: Seq<u8>) -> Seq<char> {
    if utf8::valid_utf8(head) {
        text::first_line_of(utf8::decode_utf8(head))
    } else {
        text::first_line_of("<invalid utf8>"@)
    }
}

/// What the bytes received so far say: the header block ends at the first blank
/// line, and the tunnel stands when its first line holds `200`.
pub open spec fn connect_reply(received: Seq<u8>) -> Reply {
    match blank_line_from(received, 0) {
        Some(i) => {
            let line = status_line(received.take(i));
            if text::occurs(line, "200"@) {
                Reply::Established
            } else {
                Reply::Refused(line)
            }
        },
        None => if received.len() >= RESPONSE_CAPACITY {
            Reply::TooLarge
        } else {
            Reply::NeedMore
        },
    }
}

fn first_line(s: &str) -> (r: Vec<char>)
    ensures
        r@ == text::first_line_of(s@),
{
    let chars: Vec<char> = text::chars_of(s);
    let lines: Vec<Vec<char>> = text::lines(chars.as_slice());
    let ghost views = text::views(lines@);
    if lines.len() == 0 {
        return Vec::new();
    }
    assert(views[0] == lines@[0]@);
    vstd::slice::slice_to_vec(lines[0].as_slice())
}

/// Judges the bytes received so far in answer to a CONNECT request.
pub fn judge_connect_reply(received: &[u8]) -> (r: ConnectReply)
    ensures
        r@ == connect_reply(received@),
{
    match find_crlfcrlf(received) {
        Some(i) => {
            let head: &[u8] = slice_subrange(received, 0, i);
            assert(head@ == received@.take(i as int));
            let line: Vec<char> = match std::str::from_utf8(head) {
                Ok(s) => {
                    proof {
                        utf8::encode_utf8_decode_utf8(s@);
                    }
                    first_line(s)
                },
                Err(_) => first_line("<invalid utf8>"),
            };
            if text::contains_text(line.as_slice(), "200") {
                ConnectReply::Established
            } else {
                ConnectReply::Refused { line: text::string_of(line.as_slice()) }
            }
        },
        None => if received.len() >= RESPONSE_CAPACITY {
            ConnectReply::TooLarge
        } else {
            ConnectReply::NeedMore
        },
    }
}

/// Why a CONNECT request fails.
#[derive(Debug, Clone, PartialEq)]
pub enum ConnectError {
    /// The proxy closed the connection
    Closed,
    /// The proxy refused
    Refused { line: String },
    /// The answer does not fit
    TooLarge,
}

impl ConnectError {
    /// The error as it is printed.
    pub fn message(&self) -> (r: String)
        ensures
            r@ == (match *self {
                ConnectError::Closed => "HTTP proxy closed connection during CONNECT handshake"@,
                ConnectError::Refused { line } => "HTTP CONNECT failed: "@ + line@,
                ConnectError::TooLarge => "HTTP CONNECT response too large"@,
            }),
    {
        match self {
            ConnectError::Closed => {
                "HTTP proxy closed connection during CONNECT handshake".to_owned()
            },
            ConnectError::Refused { line } => {
                let mut out: String = "HTTP CONNECT failed: ".to_owned();
                text::push_text(&mut out, line.as_str());
                out
            },
            ConnectError::TooLarge => "HTTP CONNECT response too large".to_owned(),
        }
    }
}

/// What to do next in a CONNECT handshake.
#[derive(Debug)]
pub enum ConnectAction {
    /// Read up to so many bytes
    Read { room: usize },
    /// The tunnel stands
    Done,
    /// Give up
    Fail { error: ConnectError },
}

/// A CONNECT handshake: what has been received in answer to the request.
#[derive(Debug)]
pub struct HttpConnectHandshake {
    received: Vec<u8>,
}

impl View for HttpConnectHandshake {
    type V = Seq<u8>;

    closed spec fn view(&self) -> Seq<u8> {
        self.received@
    }
}

/// What to do after a read has brought the bytes received to `received`.
pub open spec fn connect_action(received: Seq<u8>, at_end: bool, action: ConnectAction) -> bool {
    if at_end {
        action matches ConnectAction::Fail { error } && error is Closed
    } else {
        match connect_reply(received) {
            Reply::NeedMore => action matches ConnectAction::Read { room } && room
                == RESPONSE_CAPACITY - received.len(),
            Reply::Established => action is Done,
            Reply::Refused(line) => action matches ConnectAction::Fail { error } && (
            error matches ConnectError::Refused { line: l } && l@ == line),
            Reply::TooLarge => action matches ConnectAction::Fail { error } && error is TooLarge,
        }
    }
}

impl HttpConnectHandshake {
    /// Starts a handshake, after the request was sent.
    pub fn start() -> (r: (Self, ConnectAction))
        ensures
            r.0@ == Seq::<u8>::empty(),
            r.1 matches ConnectAction::Read { room } && room == RESPONSE_CAPACITY,
    {
        (
            HttpConnectHandshake { received: Vec::new() },
            ConnectAction::Read { room: RESPONSE_CAPACITY },
        )
    }

    /// Takes what a read brought; nothing where the proxy has closed.
    pub fn on_bytes(&mut self, chunk: &[u8]) -> (r: ConnectAction)
        requires
            old(self)@.len() + chunk@.len() <= RESPONSE_CAPACITY,
        ensures
            final(self)@ == old(self)@ + chunk@,
            connect_action(final(self)@, chunk@.len() == 0, r),
    {
        push_bytes(&mut self.received, chunk);
        if chunk.len() == 0 {
            return ConnectAction::Fail { error: ConnectError::Closed };
        }
        match judge_connect_reply(self.received.as_slice()) {
            ConnectReply::NeedMore => ConnectAction::Read {
                room: RESPONSE_CAPACITY - self.received.len(),
            },
            ConnectReply::Established => ConnectAction::Done,
            ConnectReply::Refused { line } => ConnectAction::Fail {
                error: ConnectError::Refused { line },
            },
            ConnectReply::TooLarge => ConnectAction::Fail { error: ConnectError::TooLarge },
        }
    }
}

// ── Laws ─────────────────────────────────────────────────────────────────────

/// The target is asked for only once the proxy asks for no credentials or has
/// accepted them.
pub proof fn request_follows_acceptance(h: Handshake, input: Seq<u8>, request: Seq<u8>)
    requires
        h.next(input).1 == Step::Send(request, 4),
    ensures
        h.phase is Greeting && input[0] == 0x05 && input[1] == 0x00 || h.phase is Auth && input[1]
            == 0x00,
        connect_request(h.host, h.port) == Some(request),
{
}

/// Credentials are sent only where the proxy has chosen that method.
pub proof fn credentials_only_when_chosen(h: Handshake, input: Seq<u8>, message: Seq<u8>)
    requires
        h.next(input).1 == Step::Send(message, 2),
    ensures
        h.phase is Greeting,
        input[0] == 0x05,
        input[1] == 0x02,
        credentials(h.username, h.password) == Some(message),
{
}

/// The handshake of `h` after the proxy has sent `inputs`, one for each read.
pub open spec fn after_inputs(h: Handshake, inputs: Seq<Seq<u8>>) -> Handshake
    decreases inputs.len(),
{
    if inputs.len() == 0 {
        h
    } else {
        let before = after_inputs(h, inputs.drop_last());
        before.in_phase(before.next(inputs.last()).0)
    }
}

/// The tunnel stands only after the proxy has reported success: among what it
/// sent there is a reply head with version 5 and code 0.
pub proof fn tunnel_needs_success(h: Handshake, inputs: Seq<Seq<u8>>)
    requires
        h.phase is Greeting,
    ensures
        ({
            let after = after_inputs(h, inputs).phase;
            after is BoundLength || after is Bound || after is Connected ==> exists|i: int|
                0 <= i < inputs.len() && (#[trigger] inputs[i])[0] == 0x05 && inputs[i][1] == 0x00
                    && after_inputs(h, inputs.take(i)).phase is Reply
        }),
        after_inputs(h, inputs) == h.in_phase(after_inputs(h, inputs).phase),
    decreases inputs.len(),
{
    if inputs.len() > 0 {
        let init = inputs.drop_last();
        tunnel_needs_success(h, init);
        let before = after_inputs(h, init);
        let after = after_inputs(h, inputs).phase;
        let last = inputs.len() - 1;
        assert(inputs.take(last) =~= init);
        if after is BoundLength || after is Bound || after is Connected {
            if before.phase is Reply {
                assert(inputs[last] == inputs.last());
                assert(inputs[last][0] == 0x05 && inputs[last][1] == 0x00);
            } else {
                let i = choose|i: int|
                    0 <= i < init.len() && (#[trigger] init[i])[0] == 0x05 && init[i][1] == 0x00
                        && after_inputs(h, init.take(i)).phase is Reply;
                assert(init[i] == inputs[i]);
                assert(init.take(i) =~= inputs.take(i));
            }
        }
    }
}

/// What a CONNECT request asks for, as RFC 1928 lays it out.
pub enum Asked {
    V4(Seq<u8>),
    V6(Seq<u8>),
    Name(Seq<u8>),
}

/// Destination and port of a CONNECT request.
pub open spec fn asked(request: Seq<u8>) -> Option<(Asked, int)> {
    let n = request.len();
    if n < 7 || request[0] != 0x05 || request[1] != 0x01 || request[2] != 0x00 {
        None
    } else {
        let port = request[n - 2] * 256 + request[n - 1];
        if request[3] == 0x01 && n == 10 {
            Some((Asked::V4(request.subrange(4, 8)), port))
        } else if request[3] == 0x04 && n == 22 {
            Some((Asked::V6(request.subrange(4, 20)), port))
        } else if request[3] == 0x03 && n == 7 + request[4] {
            Some((Asked::Name(request.subrange(5, n - 2)), port))
        } else {
            None
        }
    }
}

proof fn lemma_group_bytes_len(groups: Seq<u16>)
    ensures
        group_bytes(groups).len() == 2 * groups.len(),
    decreases groups.len(),
{
    if groups.len() > 0 {
        lemma_group_bytes_len(groups.drop_last());
    }
}

proof fn lemma_ip_len(s: Seq<char>)
    ensures
        ip::ip_of(s) matches Some(ip::Ip::V4(octets)) ==> octets.len() == 4,
        ip::ip_of(s) matches Some(ip::Ip::V6(groups)) ==> groups.len() == 8,
{
}

/// The proxy is asked for exactly the target: reading the request back gives
/// the target's address or name, and its port.
pub proof fn request_names_the_target(host: Seq<char>, port: u16)
    ensures
        connect_request(host, port) matches Some(request) ==> asked(request) == Some(
            (
                match ip::ip_of(host) {
                    Some(ip::Ip::V4(octets)) => Asked::V4(octets),
                    Some(ip::Ip::V6(groups)) => Asked::V6(group_bytes(groups)),
                    None => Asked::Name(utf8::encode_utf8(host)),
                },
                port as int,
            ),
        ),
{
    lemma_ip_len(host);
    match connect_request(host, port) {
        Some(request) => {
            match ip::ip_of(host) {
                Some(ip::Ip::V4(octets)) => {
                    assert(request.subrange(4, 8) =~= octets);
                },
                Some(ip::Ip::V6(groups)) => {
                    lemma_group_bytes_len(groups);
                    assert(request.subrange(4, 20) =~= group_bytes(groups));
                },
                None => {
                    let name = utf8::encode_utf8(host);
                    assert(request.subrange(5, request.len() - 2) =~= name);
                },
            }
        },
        None => {},
    }
}

proof fn lemma_blank_line_stable(s: Seq<u8>, more: Seq<u8>, i: int)
    requires
        blank_line_from(s, i) is Some,
    ensures
        blank_line_from(s + more, i) == blank_line_from(s, i),
        i <= blank_line_from(s, i)->0 <= s.len() - 4,
    decreases s.len() - i,
{
    assert((s + more).subrange(i, i + 4) =~= s.subrange(i, i + 4));
    if !text::occurs_at(s, blank_line(), i) {
        lemma_blank_line_stable(s, more, i + 1);
    }
}

/// A CONNECT answer is judged by its header block alone: once that has ended,
/// how the bytes were split into reads and what follows make no difference.
pub proof fn connect_verdict_is_final(received: Seq<u8>, more: Seq<u8>)
    requires
        connect_reply(received) is Established || connect_reply(received) is Refused,
    ensures
        connect_reply(received + more) == connect_reply(received),
{
    lemma_blank_line_stable(received, more, 0);
    let i = blank_line_from(received, 0)->0;
    assert((received + more).take(i) =~= received.take(i));
}

/// A target that is an IP address is asked for as that address, not by name.
pub proof fn address_is_asked_for_as_such(address: IpAddress, port: u16)
    ensures
        connect_request(ip::ip_text(address@), port) matches Some(request) && asked(request)
            == Some(
            (
                match address@ {
                    ip::Ip::V4(octets) => Asked::V4(octets),
                    ip::Ip::V6(groups) => Asked::V6(group_bytes(groups)),
                },
                port as int,
            ),
        ),
{
    ip::written_address_is_read_back(address);
    request_names_the_target(ip::ip_text(address@), port);
}

/// The line of a CONNECT request that carries the credentials.
pub open spec fn auth_line(value: Seq<char>) -> Seq<char> {
    "Proxy-Authorization: Basic "@ + value
}

#[verifier::rlimit(40)]
proof fn lemma_request_lines(host: Seq<char>, port: u16, auth: Option<Seq<char>>) -> (more: Seq<
    char,
>)
    requires
        text::is_graphic_word(host),
        auth matches Some(value) ==> !value.contains('\n'),
    ensures
        ({
            let target = host + seq![':'] + text::decimal(port as nat);
            let request = http_connect_text(host, port, auth);
            &&& text::is_graphic_word(target)
            &&& text::lines_of(request) == seq![
                "CONNECT "@ + target + " HTTP/1.1"@,
                "Host: "@ + target,
            ] + (match auth {
                Some(value) => seq![auth_line(value)],
                None => Seq::empty(),
            }) + seq!["Proxy-Connection: keep-alive"@, Seq::empty()]
            &&& request == "CONNECT "@ + target + seq![' '] + "HTTP/1.1"@ + seq!['\r', '\n']
                + more
        }),
{
    let digits = text::decimal(port as nat);
    let target = host + seq![':'] + digits;
    let request = http_connect_text(host, port, auth);
    text::written_number_is_read_back(port as nat, u16::MAX as int);
    assert(forall|i: int| 0 <= i < digits.len() ==> text::is_digit(#[trigger] digits[i]));
    assert forall|i: int| 0 <= i < target.len() implies text::is_graphic(#[trigger] target[i]) by {
        if i < host.len() {
            assert(target[i] == host[i]);
        } else if i > host.len() {
            assert(target[i] == digits[i - host.len() - 1]);
        }
    }
    assert(!target.contains('\n')) by {
        if target.contains('\n') {
            let i = choose|i: int| 0 <= i < target.len() && target[i] == '\n';
            assert(text::is_graphic(target[i]));
        }
    }
    reveal_strlit(":");
    reveal_strlit("CONNECT ");
    reveal_strlit(" HTTP/1.1\r\nHost: ");
    reveal_strlit(" HTTP/1.1");
    reveal_strlit("HTTP/1.1");
    reveal_strlit("Host: ");
    reveal_strlit("\r\n");
    reveal_strlit("Proxy-Authorization: Basic ");
    reveal_strlit("Proxy-Connection: keep-alive\r\n\r\n");
    reveal_strlit("Proxy-Connection: keep-alive");
    assert(host_port_text(host, port) =~= target);
    let crlf = seq!['\r', '\n'];
    let first = "CONNECT "@ + target + " HTTP/1.1"@;
    let second = "Host: "@ + target;
    let middle = match auth {
        Some(value) => auth_line(value) + crlf,
        None => Seq::empty(),
    };
    let last = "Proxy-Connection: keep-alive"@;
    let empty = Seq::<char>::empty();
    let tail = last + crlf + (empty + crlf + empty);
    let rest = second + crlf + (middle + tail);
    assert(" HTTP/1.1\r\nHost: "@ =~= " HTTP/1.1"@ + crlf + "Host: "@);
    assert("\r\n"@ =~= crlf);
    assert("Proxy-Connection: keep-alive\r\n\r\n"@ =~= tail);
    assert(request =~= first + crlf + rest);
    assert(" HTTP/1.1"@ =~= seq![' '] + "HTTP/1.1"@);
    assert(request =~= "CONNECT "@ + target + seq![' '] + "HTTP/1.1"@ + crlf + rest);
    assert(!first.contains('\n')) by {
        if first.contains('\n') {
            let i = choose|i: int| 0 <= i < first.len() && first[i] == '\n';
            if 8 <= i < 8 + target.len() {
                assert(target.contains(target[i - 8]));
            }
        }
    }
    assert(!second.contains('\n')) by {
        if second.contains('\n') {
            let i = choose|i: int| 0 <= i < second.len() && second[i] == '\n';
            if 6 <= i {
                assert(target.contains(target[i - 6]));
            }
        }
    }
    assert(!last.contains('\n'));
    let lines = text::lines_of(request);
    lemma_line(first, rest);
    lemma_line(second, middle + tail);
    lemma_line(last, empty + crlf + empty);
    lemma_line(empty, empty);
    assert(text::lines_of(empty) =~= Seq::empty());
    assert(text::lines_of(tail) =~= seq![last, empty]);
    match auth {
        Some(value) => {
            let line = auth_line(value);
            assert(!line.contains('\n')) by {
                if line.contains('\n') {
                    let i = choose|i: int| 0 <= i < line.len() && line[i] == '\n';
                    let n = "Proxy-Authorization: Basic "@.len() as int;
                    if n <= i {
                        assert(value.contains(value[i - n]));
                    }
                }
            }
            lemma_line(line, tail);
            assert(middle + tail =~= line + crlf + tail);
            assert(lines =~= seq![first, second] + seq![line] + seq![last, empty]);
        },
        None => {
            assert(middle + tail =~= tail);
            assert(lines =~= seq![first, second] + Seq::empty() + seq![last, empty]);
        },
    }
    rest
}

proof fn lemma_line(line: Seq<char>, rest: Seq<char>)
    requires
        !line.contains('\n'),
    ensures
        text::lines_of(line + seq!['\r', '\n'] + rest) == seq![line] + text::lines_of(rest),
{
    let list = seq![(line, seq!['\r', '\n'])];
    reveal_with_fuel(text::ended_lines, 2);
    assert(list.drop_first() =~= Seq::empty());
    assert(text::ended_lines(list) =~= line + seq!['\r', '\n']);
    text::ended_lines_are_read(list, rest);
    assert(list.map_values(|e: (Seq<char>, Seq<char>)| e.0) =~= seq![line]);
}

/// The HTTP proxy is asked for exactly the target: the request is understood as
/// a CONNECT to that host and that port, its Host header names the same, it
/// carries the credentials where there are any and only there, and it ends with
/// an empty line.
#[verifier::rlimit(40)]
pub proof fn http_request_names_the_target(
    host: Seq<char>,
    port: u16,
    auth: Option<Seq<char>>,
    other_port: u16,
)
    requires
        text::is_graphic_word(host),
        host[0] != '[',
        auth matches Some(value) ==> !value.contains('\n'),
    ensures
        ({
            let request = http_connect_text(host, port, auth);
            let lines = text::lines_of(request);
            &&& crate::service::http_reading(utf8::encode_utf8(request), other_port) matches
                crate::service::Reading::Found(target) && target.host == host && target.port
                == port
            &&& crate::service::first_host(lines) matches Some(value)
                && crate::service::host_port_of(value, other_port) == (host, port)
            &&& auth matches Some(value) ==> lines.contains(
                "Proxy-Authorization: Basic "@ + value,
            )
            &&& auth is None ==> lines.len() == 4
            &&& lines.last().len() == 0
            &&& port != other_port ==> request != http_connect_text(host, other_port, auth)
        }),
{
    let digits = text::decimal(port as nat);
    let target = host + seq![':'] + digits;
    let request = http_connect_text(host, port, auth);
    let lines = text::lines_of(request);
    let more = lemma_request_lines(host, port, auth);
    reveal_strlit("HTTP/1.1");
    assert(text::is_graphic_word("HTTP/1.1"@));
    crate::service::connect_request_names_its_target(target, "HTTP/1.1"@, more, other_port);
    crate::service::written_host_and_port_are_read_back(host, port, Seq::empty(), other_port);
    reveal_strlit("Host: ");
    reveal_strlit("CONNECT ");
    let first = "CONNECT "@ + target + " HTTP/1.1"@;
    let second = "Host: "@ + target;
    let rest = lines.skip(2);
    assert(lines =~= seq![first] + seq![second] + rest);
    assert(!crate::service::is_host_line(first));
    assert(crate::service::is_host_line(second));
    crate::service::host_line_is_found(seq![first], second, rest);
    assert(second.skip(5) =~= seq![' '] + target + Seq::<char>::empty());
    text::trimming_takes_blanks_only(seq![' '], target, Seq::empty());
    match auth {
        Some(value) => {
            assert(lines[2] == auth_line(value));
        },
        None => {},
    }
    if port != other_port && request == http_connect_text(host, other_port, auth) {
        let _ = lemma_request_lines(host, other_port, auth);
        let other = host + seq![':'] + text::decimal(other_port as nat);
        assert(text::lines_of(request)[1] == "Host: "@ + other);
        assert(second.skip(6) =~= target);
        assert(("Host: "@ + other).skip(6) =~= other);
        assert(target.skip(host.len() as int + 1) =~= digits);
        assert(other.skip(host.len() as int + 1) =~= text::decimal(other_port as nat));
        text::written_number_is_read_back(port as nat, u16::MAX as int);
        text::written_number_is_read_back(other_port as nat, u16::MAX as int);
    }
}

/// An address to dial is read back as the host and the port that it was made of.
pub proof fn dialled_address_is_the_one_given(host: Seq<char>, port: u16)
    requires
        host.len() == 0 || host[0] != '[',
    ensures
        crate::service::host_port_of(host_port_text(host, port), 0) == (host, port),
{
    reveal_strlit(":");
    assert(host_port_text(host, port) =~= host + seq![':'] + text::decimal(port as nat));
    crate::service::written_host_and_port_are_read_back(host, port, Seq::empty(), 0);
}

/// An empty line begins at `i`.
pub open spec fn is_empty_line_at(s: Seq<u8>, i: int) -> bool {
    0 <= i && i + 4 <= s.len() && s[i] == 13 && s[i + 1] == 10 && s[i + 2] == 13 && s[i + 3] == 10
}

proof fn lemma_empty_line_at(s: Seq<u8>, i: int)
    ensures
        is_empty_line_at(s, i) <==> text::occurs_at(s, blank_line(), i),
{
    if 0 <= i && i + 4 <= s.len() {
        let t = s.subrange(i, i + 4);
        assert(t[0] == s[i] && t[1] == s[i + 1] && t[2] == s[i + 2] && t[3] == s[i + 3]);
        if is_empty_line_at(s, i) {
            assert(t =~= blank_line());
        }
        if t == blank_line() {
            assert(t[0] == 13 && t[1] == 10 && t[2] == 13 && t[3] == 10);
        }
    }
}

proof fn lemma_blank_line_from(s: Seq<u8>, i: int)
    requires
        0 <= i,
    ensures
        blank_line_from(s, i) matches Some(at) ==> i <= at && is_empty_line_at(s, at) && forall|
            j: int,
        |
            i <= j < at ==> !#[trigger] is_empty_line_at(s, j),
        blank_line_from(s, i) is None ==> forall|j: int|
            i <= j ==> !#[trigger] is_empty_line_at(s, j),
    decreases s.len() - i,
{
    lemma_empty_line_at(s, i);
    if i + 4 <= s.len() && !text::occurs_at(s, blank_line(), i) {
        lemma_blank_line_from(s, i + 1);
    }
}

/// A header block ends at its first empty line, wherever that stands, and has
/// not ended only where there is none.
pub proof fn header_block_ends_at_its_first_empty_line(s: Seq<u8>, i: int)
    ensures
        blank_line_from(s, 0) == Some(i) <==> is_empty_line_at(s, i) && forall|j: int|
            0 <= j < i ==> !#[trigger] is_empty_line_at(s, j),
        blank_line_from(s, 0) is None <==> forall|j: int| !#[trigger] is_empty_line_at(s, j),
{
    lemma_blank_line_from(s, 0);
    if blank_line_from(s, 0) is Some {
        let at = blank_line_from(s, 0)->0;
        assert(is_empty_line_at(s, at));
    }
}

/// `200` stands somewhere in the line.
pub open spec fn holds_200(line: Seq<char>) -> bool {
    exists|i: int|
        0 <= i && i + 3 <= line.len() && (#[trigger] line[i]) == '2' && line[i + 1] == '0' && line[i
            + 2] == '0'
}

/// The answer to a CONNECT request is judged by its first line, whatever other
/// headers it has: the tunnel stands where that holds `200`, and the request is
/// refused with the line where it does not.
pub proof fn answer_is_judged_by_its_first_line(
    received: Seq<u8>,
    i: int,
    line: Seq<char>,
    more: Seq<char>,
)
    requires
        is_empty_line_at(received, i),
        forall|j: int| 0 <= j < i ==> !#[trigger] is_empty_line_at(received, j),
        line.len() > 0,
        !line.contains('\n'),
        received.take(i) == utf8::encode_utf8(line) || received.take(i) == utf8::encode_utf8(
            line + seq!['\r', '\n'] + more,
        ),
    ensures
        connect_reply(received) == (if holds_200(line) {
            Reply::Established
        } else {
            Reply::Refused(line)
        }),
{
    header_block_ends_at_its_first_empty_line(received, i);
    let head = received.take(i);
    let full = line + seq!['\r', '\n'] + more;
    if head == utf8::encode_utf8(line) {
        utf8::encode_utf8_valid_utf8(line);
        utf8::encode_utf8_decode_utf8(line);
        text::unended_line_is_read(line);
    } else {
        utf8::encode_utf8_valid_utf8(full);
        utf8::encode_utf8_decode_utf8(full);
        lemma_line(line, more);
    }
    assert(status_line(head) == line);
    reveal_strlit("200");
    let code = "200"@;
    if holds_200(line) {
        let k = choose|k: int|
            0 <= k && k + 3 <= line.len() && (#[trigger] line[k]) == '2' && line[k + 1] == '0'
                && line[k + 2] == '0';
        assert(line.subrange(k, k + 3) =~= code);
        assert(text::occurs_at(line, code, k));
    }
    if text::occurs(line, code) {
        let k = choose|k: int| text::occurs_at(line, code, k);
        let t = line.subrange(k, k + 3);
        assert(t[0] == line[k] && t[1] == line[k + 1] && t[2] == line[k + 2]);
        assert(t[0] == '2' && t[1] == '0' && t[2] == '0');
    }
}

/// An answer is read on until its header block has ended, in however many reads,
/// and given up only once 4096 bytes are there without an end of it, or when the
/// proxy closes.
pub proof fn unfinished_answer_is_read_on(received: Seq<u8>, action: ConnectAction)
    requires
        forall|j: int| !#[trigger] is_empty_line_at(received, j),
        received.len() <= 4096,
    ensures
        connect_action(received, false, action) ==> (if received.len() < 4096 {
            action matches ConnectAction::Read { room } && room == 4096 - received.len()
        } else {
            action matches ConnectAction::Fail { error } && error is TooLarge
        }),
        connect_action(received, true, action) ==> (action matches ConnectAction::Fail { error }
            && error is Closed),
{
    header_block_ends_at_its_first_empty_line(received, 0);
}

/// Once the answer is judged, the handshake is done where the tunnel stands and
/// fails with the line where it was refused.
pub proof fn judged_answer_ends_the_handshake(received: Seq<u8>, action: ConnectAction)
    requires
        connect_action(received, false, action),
    ensures
        connect_reply(received) is Established <==> action is Done,
        connect_reply(received) matches Reply::Refused(line) ==> (
        action matches ConnectAction::Fail { error } && (error matches ConnectError::Refused {
            line: l,
        } && l@ == line)),
{
}

/// A SOCKS5 target can be asked for exactly where it is an IP address or a name
/// of at most 255 bytes.
pub proof fn target_can_be_asked_for(host: Seq<char>, port: u16)
    ensures
        connect_request(host, port) is Some <==> ip::ip_of(host) is Some || utf8::encode_utf8(
            host,
        ).len() <= 255,
{
}

/// An IPv6 address is sent group by group, the high byte of each first.
pub proof fn groups_are_sent_in_order(groups: Seq<u16>, i: int)
    requires
        0 <= i < groups.len(),
    ensures
        group_bytes(groups).len() == 2 * groups.len(),
        group_bytes(groups)[2 * i] * 256 + group_bytes(groups)[2 * i + 1] == groups[i],
    decreases groups.len(),
{
    lemma_group_bytes_len(groups);
    let init = groups.drop_last();
    lemma_group_bytes_len(init);
    if i < init.len() {
        groups_are_sent_in_order(init, i);
        assert(init[i] == groups[i]);
    }
}

/// The greeting offers one method in version 5: username and password where
/// there is a username, and else none.
pub proof fn greeting_offers_one_method(has_username: bool)
    ensures
        greeting(has_username).len() == 3,
        greeting(has_username)[0] == 5,
        greeting(has_username)[1] == 1,
        greeting(has_username)[2] == 2 <==> has_username,
        greeting(has_username)[2] == 0 <==> !has_username,
{
}

/// Credentials are read back from their message: version 1, the username behind
/// its length and the password behind its own. They can be sent exactly where
/// each has at most 255 bytes.
pub proof fn credentials_are_sent_as_given(username: Seq<char>, password: Seq<char>)
    ensures
        ({
            let user = utf8::encode_utf8(username);
            let pass = utf8::encode_utf8(password);
            let sent = credentials(Some(username), Some(password));
            &&& sent is Some <==> user.len() <= 255 && pass.len() <= 255
            &&& sent matches Some(m) ==> {
                &&& m.len() == 3 + user.len() + pass.len()
                &&& m[0] == 1
                &&& m[1] == user.len()
                &&& m.subrange(2, 2 + user.len() as int) == user
                &&& m[2 + user.len() as int] == pass.len()
                &&& m.skip(3 + user.len() as int) == pass
            }
            &&& credentials(None, None) == Some(seq![1u8, 0u8, 0u8])
        }),
{
    let user = utf8::encode_utf8(username);
    let pass = utf8::encode_utf8(password);
    let none = credentials(None, None)->0;
    assert(none =~= seq![1u8, 0u8, 0u8]);
    match credentials(Some(username), Some(password)) {
        Some(m) => {
            assert(m.subrange(2, 2 + user.len() as int) =~= user);
            assert(m.skip(3 + user.len() as int) =~= pass);
        },
        None => {},
    }
}

/// A bound address and its port have the length that their type has; that of a
/// name is any that one byte can tell.
pub open spec fn is_bound(kind: u8, address: Seq<u8>) -> bool {
    ||| kind == 1 && address.len() == 6
    ||| kind == 4 && address.len() == 18
    ||| kind == 3 && 2 <= address.len() <= 257
}

/// A proxy that accepts the method offered, and the credentials where it asks
/// for them, is sent the request; once it reports success and has sent its bound
/// address, of whatever type, the tunnel stands. No more and no fewer bytes are
/// read than the proxy sends.
pub proof fn accepting_proxy_opens_the_tunnel(
    h: Handshake,
    asks: bool,
    version: u8,
    reserved: u8,
    kind: u8,
    address: Seq<u8>,
)
    requires
        h.phase is Greeting,
        connect_request(h.host, h.port) is Some,
        asks ==> credentials(h.username, h.password) is Some,
        is_bound(kind, address),
    ensures
        ({
            let request = connect_request(h.host, h.port)->0;
            let chosen = seq![5u8, if asks {
                2u8
            } else {
                0u8
            }];
            let greeted = h.in_phase(h.next(chosen).0);
            let accepted = if asks {
                greeted.in_phase(greeted.next(seq![version, 0u8]).0)
            } else {
                greeted
            };
            let replied = accepted.in_phase(
                accepted.next(seq![5u8, 0u8, reserved, kind]).0,
            );
            &&& h.phase.awaited() == 2
            &&& asks ==> h.next(chosen).1 == Step::Send(
                credentials(h.username, h.password)->0,
                2,
            ) && greeted.phase.awaited() == 2 && greeted.next(seq![version, 0u8]).1 == Step::Send(
                request,
                4,
            )
            &&& !asks ==> h.next(chosen).1 == Step::Send(request, 4)
            &&& accepted.phase.awaited() == 4
            &&& kind != 3 ==> replied.phase.awaited() == address.len() && replied.next(address)
                == (Socks5Phase::Connected, Step::Done)
            &&& kind == 3 ==> replied.phase.awaited() == 1 && ({
                let named = replied.in_phase(replied.next(seq![(address.len() - 2) as u8]).0);
                named.phase.awaited() == address.len() && named.next(address) == (
                    Socks5Phase::Connected,
                    Step::Done,
                )
            })
        }),
{
}

/// A proxy that refuses is believed: another version, a method that was not
/// offered, refused credentials or a reply code other than 0 end the handshake,
/// and it tells which of them it was.
pub proof fn refusing_proxy_ends_the_handshake(h: Handshake, input: Seq<u8>)
    ensures
        h.phase is Greeting && input.len() == 2 ==> {
            &&& input[0] != 5 ==> h.next(input).1 == Step::Fail(
                Socks5Error::BadVersion { version: input[0] },
            )
            &&& input[0] == 5 && input[1] == 255 ==> h.next(input).1 == Step::Fail(
                Socks5Error::NoAcceptableMethod,
            )
            &&& input[0] == 5 && input[1] != 0 && input[1] != 2 && input[1] != 255 ==> h.next(
                input,
            ).1 == Step::Fail(Socks5Error::UnsupportedMethod { method: input[1] })
        },
        h.phase is Auth && input.len() == 2 && input[1] != 0 ==> h.next(input).1 == Step::Fail(
            Socks5Error::AuthFailed { status: input[1] },
        ),
        h.phase is Reply && input.len() == 4 && input[0] == 5 && input[1] != 0 ==> h.next(input).1
            == Step::Fail(Socks5Error::Refused { code: input[1] }),
        h.phase is Reply && input.len() == 4 && input[0] != 5 ==> h.next(input).1 == Step::Fail(
            Socks5Error::BadReplyVersion,
        ),
        h.next(input).1 matches Step::Fail(error) ==> h.next(input).0 == (Socks5Phase::Failed {
            error,
        }),
{
}

/// An answer whose header block is not UTF-8 is a refusal.
pub proof fn unreadable_answer_is_a_refusal(received: Seq<u8>, i: int)
    requires
        is_empty_line_at(received, i),
        forall|j: int| 0 <= j < i ==> !#[trigger] is_empty_line_at(received, j),
        !utf8::valid_utf8(received.take(i)),
    ensures
        connect_reply(received) == Reply::Refused("<invalid utf8>"@),
{
    header_block_ends_at_its_first_empty_line(received, i);
    reveal_strlit("<invalid utf8>");
    let mark = "<invalid utf8>"@;
    assert(!mark.contains('\n'));
    text::unended_line_is_read(mark);
    reveal_strlit("200");
    if text::occurs(mark, "200"@) {
        let k = choose|k: int| text::occurs_at(mark, "200"@, k);
        let t = mark.subrange(k, k + 3);
        assert(t[0] == mark[k]);
        assert(t[0] == '2');
    }
}

/// The reply codes mean what RFC 1928 says, and any other is unknown.
pub proof fn reply_codes_have_their_meaning(code: u8)
    ensures
        code == 1 ==> reply_text(code) == "general SOCKS server failure"@,
        code == 2 ==> reply_text(code) == "connection not allowed by ruleset"@,
        code == 3 ==> reply_text(code) == "Network unreachable"@,
        code == 4 ==> reply_text(code) == "Host unreachable"@,
        code == 5 ==> reply_text(code) == "Connection refused"@,
        code == 6 ==> reply_text(code) == "TTL expired"@,
        code == 7 ==> reply_text(code) == "Command not supported"@,
        code == 8 ==> reply_text(code) == "Address type not supported"@,
        code == 0 || code > 8 ==> reply_text(code) == "unknown error"@,
{
}

/// A byte is written in two hexadecimal digits that stand for it.
pub proof fn byte_is_written_in_hexadecimal(n: u8)
    ensures
        hex_byte(n).len() == 2,
        ip::writes_hex(hex_byte(n), n as int),
{
    let s = hex_byte(n);
    reveal_with_fuel(ip::writes_hex, 3);
    assert(s.drop_last() =~= seq![s[0]]);
    assert(seq![s[0]].drop_last() =~= Seq::empty());
}

} // verus!
