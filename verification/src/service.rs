//! Listeners and their routes, what a client asks for, and where it is sent.
//!
//! The target comes from the SNI (TLS) or the Host header (HTTP) in the first
//! bytes of a connection; the hosts table and the listener's routes say where
//! it goes. Nothing here touches a socket: a reader says how much to read and
//! is told what was read.

use regex::Regex;
use vstd::prelude::*;
use vstd::slice::{slice_subrange, slice_to_vec};
use vstd::utf8;

use crate::config;
use crate::config::{AppConfig, ListenerConfig, ListenerError, RouteEntry};
use crate::hosts;
use crate::hosts::{HostResolve, HostsTable};
use crate::ip;
use crate::pattern;
use crate::sni;
use crate::sni::PeekResult;
use crate::text;

verus! {

// ── Route table (compiled regexes) ───────────────────────────────────────────

/// One compiled route.
#[derive(Debug)]
pub struct CompiledRoute {
    pattern: Regex,
    target: String,
}

/// The compiled routes of a listener.
#[derive(Debug)]
pub struct RouteTable {
    routes: Vec<CompiledRoute>,
}

/// A route whose regex does not compile.
#[derive(Debug, Clone, PartialEq)]
pub struct RouteError {
    pub pattern: String,
}

impl RouteError {
    /// The error as it is printed.
    pub fn message(&self) -> (r: String)
        ensures
            r@ == "Invalid route regex: '"@ + self.pattern@ + "'"@,
    {
        let mut out: String = "Invalid route regex: '".to_owned();
        text::push_text(&mut out, self.pattern.as_str());
        text::push_text(&mut out, "'");
        out
    }
}

impl View for RouteTable {
    type V = Seq<(Seq<char>, Seq<char>)>;

    /// Pattern and target of each route, in order.
    closed spec fn view(&self) -> Seq<(Seq<char>, Seq<char>)> {
        self.routes@.map_values(
            |r: CompiledRoute| (pattern::regex_source(r.pattern), r.target@),
        )
    }
}

/// The target of the first route whose pattern matches.
pub open spec fn first_route(routes: Seq<(Seq<char>, Seq<char>)>, hostname: Seq<char>) -> Option<
    Seq<char>,
>
    decreases routes.len(),
{
    if routes.len() == 0 {
        None
    } else if pattern::regex_matches(routes[0].0, hostname) {
        Some(routes[0].1)
    } else {
        first_route(routes.drop_first(), hostname)
    }
}

/// The pattern of the route compiles.
pub open spec fn route_compiles(route: (Seq<char>, Seq<char>)) -> bool {
    pattern::regex_compiles(route.0, usize::BITS as int)
}

/// Every route compiles.
pub open spec fn routes_compile(routes: Seq<(Seq<char>, Seq<char>)>) -> bool {
    forall|i: int| 0 <= i < routes.len() ==> route_compiles(#[trigger] routes[i])
}

/// `e` is about the first of the routes that does not compile.
pub open spec fn route_refused(routes: Seq<(Seq<char>, Seq<char>)>, e: RouteError) -> bool {
    exists|i: int|
        {
            &&& 0 <= i < routes.len()
            &&& !route_compiles(#[trigger] routes[i])
            &&& forall|j: int| 0 <= j < i ==> route_compiles(#[trigger] routes[j])
            &&& e.pattern@ == routes[i].0
        }
}

impl RouteTable {
    /// Compiles the routes.
    pub fn compile(routes: &[RouteEntry]) -> (r: Result<Self, RouteError>)
        ensures
            r is Ok <==> routes_compile(config::route_views(routes@)),
            r matches Ok(table) ==> table@ == config::route_views(routes@),
            r matches Err(e) ==> route_refused(config::route_views(routes@), e),
    {
        let mut compiled: Vec<CompiledRoute> = Vec::new();
        let ghost all = config::route_views(routes@);
        for i in 0..routes.len()
            invariant
                all == config::route_views(routes@),
                compiled@.len() == i,
                forall|j: int| 0 <= j < i ==> route_compiles(#[trigger] all[j]),
                forall|j: int|
                    0 <= j < i ==> all[j] == (
                        pattern::regex_source((#[trigger] compiled@[j]).pattern),
                        compiled@[j].target@,
                    ),
        {
            assert(all[i as int] == (routes@[i as int].pattern@, routes@[i as int].target@));
            match Regex::new(routes[i].pattern.as_str()) {
                Ok(pattern) => {
                    compiled.push(CompiledRoute { pattern, target: routes[i].target.clone() });
                },
                Err(_) => {
                    let e: RouteError = RouteError { pattern: routes[i].pattern.clone() };
                    assert(!route_compiles(all[i as int]));
                    assert(route_refused(all, e));
                    return Err(e);
                },
            }
        }
        let table: RouteTable = RouteTable { routes: compiled };
        assert(table@ =~= all);
        Ok(table)
    }

    /// Returns the target for a given hostname.
    /// Target "*" means "use the hostname as-is".
    pub fn resolve(&self, hostname: &str) -> (r: Option<&str>)
        ensures
            text::opt_str(r) == first_route(self@, hostname@),
            self@.len() > 0 && self@[0].0 == ".*"@ ==> text::opt_str(r) == Some(self@[0].1),
    {
        let ghost all = self@;
        assert(all.skip(0) =~= all);
        for i in 0..self.routes.len()
            invariant
                all == self@,
                first_route(self@, hostname@) == first_route(all.skip(i as int), hostname@),
                i > 0 ==> all[0].0 != ".*"@,
        {
            let ghost rest = all.skip(i as int);
            assert(rest.drop_first() =~= all.skip(i + 1));
            assert(rest[0] == (
                pattern::regex_source(self.routes@[i as int].pattern),
                self.routes@[i as int].target@,
            ));
            if self.routes[i].pattern.is_match(hostname) {
                return Some(self.routes[i].target.as_str());
            }
        }
        None
    }
}

// ── Host and port ────────────────────────────────────────────────────────────

/// The port that `s` writes, else `default_port`.
pub open spec fn port_or(s: Seq<char>, default_port: u16) -> u16 {
    match text::unsigned_of(s, u16::MAX as int) {
        Some(port) => port as u16,
        None => default_port,
    }
}

fn parse_port_or(s: &[char], default_port: u16) -> (r: u16)
    ensures
        r == port_or(s@, default_port),
{
    match text::parse_u16(s) {
        Some(port) => port,
        None => default_port,
    }
}

/// Host and port of `host:port`, split at the last colon, or of `[host]:port`,
/// where one character of any kind stands between bracket and port. A port that
/// is missing or cannot be read is the default.
pub open spec fn host_port_of(s: Seq<char>, default_port: u16) -> (Seq<char>, u16) {
    if s.len() > 0 && s[0] == '[' && s.contains(']') {
        let end = s.index_of_first(']')->0;
        let rest = s.skip(end + 1);
        (
            s.subrange(1, end),
            if rest.len() > 0 && rest[0] as u32 <= 0x7f {
                port_or(rest.drop_first(), default_port)
            } else {
                default_port
            },
        )
    } else {
        match s.index_of_last(':') {
            Some(i) => (s.take(i), port_or(s.skip(i + 1), default_port)),
            None => (s, default_port),
        }
    }
}

/// Splits `host:port` or `[host]:port`.
pub fn parse_host_port(s: &str, default_port: u16) -> (r: (String, u16))
    ensures
        (r.0@, r.1) == host_port_of(s@, default_port),
{
    let chars: Vec<char> = text::chars_of(s);
    let c: &[char] = chars.as_slice();
    let n: usize = c.len();
    if n > 0 && c[0] == '[' {
        if let Some(end) = text::index_of(c, ']') {
            let ghost rest = c@.skip(end + 1);
            let host: String = text::string_of(slice_subrange(c, 1, end));
            let port: u16 = if n - end >= 2 && c[end + 1] as u32 <= 0x7f {
                assert(c@.subrange(end + 2, n as int) == rest.drop_first());
                parse_port_or(slice_subrange(c, end + 2, n), default_port)
            } else {
                default_port
            };
            return (host, port);
        }
    }
    match text::last_index_of(c, ':') {
        Some(i) => {
            assert(c@.subrange(0, i as int) == c@.take(i as int));
            assert(c@.subrange(i + 1, n as int) == c@.skip(i + 1));
            (
                text::string_of(slice_subrange(c, 0, i)),
                parse_port_or(slice_subrange(c, i + 1, n), default_port),
            )
        },
        None => (s.to_owned(), default_port),
    }
}

// ── Destination ──────────────────────────────────────────────────────────────

/// Where a hosts-table entry sends a connection for `hostname` and `port`.
pub open spec fn backend_destination(
    hostname: Seq<char>,
    port: u16,
    listen_port: u16,
    backend: hosts::Backend,
) -> (Seq<char>, u16) {
    match backend {
        hosts::Backend::Passthrough => (hostname, port),
        hosts::Backend::Ip(address) => (ip::ip_text(address), port),
        hosts::Backend::Hostname(name) => if name.contains(':') {
            host_port_of(name, listen_port)
        } else {
            (name, port)
        },
    }
}

/// Where a hosts-table entry sends a connection.
pub fn apply_host_resolve(
    sni_hostname: &str,
    port: u16,
    listen_port: u16,
    resolved: HostResolve,
) -> (r: (String, u16))
    ensures
        (r.0@, r.1) == backend_destination(sni_hostname@, port, listen_port, resolved@),
{
    match resolved {
        HostResolve::Passthrough => (sni_hostname.to_owned(), port),
        HostResolve::Ip(address) => (address.to_text(), port),
        HostResolve::Hostname(backend) => {
            let chars: Vec<char> = text::chars_of(backend.as_str());
            if text::index_of(chars.as_slice(), ':').is_some() {
                parse_host_port(backend.as_str(), listen_port)
            } else {
                (backend, port)
            }
        },
    }
}

/// The host and the port in `t`, with a colon between; `port` where there is no
/// colon, `listen_port` where no port can be read behind it.
pub open spec fn split_target(t: Seq<char>, port: u16, listen_port: u16) -> (Seq<char>, u16) {
    match t.index_of_first(':') {
        Some(i) => (t.take(i), port_or(t.skip(i + 1), listen_port)),
        None => (t, port),
    }
}

/// Where a route sends a connection for `hostname` and `port`: `*` means the
/// same host and port. Any other target is a host, or a host and a port with a
/// colon between, and so is the hostname where there is no route.
pub open spec fn route_destination(
    hostname: Seq<char>,
    port: u16,
    listen_port: u16,
    target: Option<Seq<char>>,
) -> (Seq<char>, u16) {
    match target {
        None => split_target(hostname, port, listen_port),
        Some(t) => if t == "*"@ {
            (hostname, port)
        } else {
            split_target(t, port, listen_port)
        },
    }
}

/// Where a connection goes, and whether the hosts table said so: the hosts table
/// is asked first, then the listener's routes.
pub open spec fn destination(
    hostname: Seq<char>,
    port: u16,
    listen_port: u16,
    rules: Option<hosts::HostsRules>,
    routes: Seq<(Seq<char>, Seq<char>)>,
) -> (Seq<char>, u16, bool) {
    let backend = match rules {
        Some(rules) => hosts::looked_up(rules, hostname),
        None => None,
    };
    match backend {
        Some(backend) => {
            let (host, port) = backend_destination(hostname, port, listen_port, backend);
            (host, port, true)
        },
        None => {
            let (host, port) = route_destination(
                hostname,
                port,
                listen_port,
                first_route(routes, hostname),
            );
            (host, port, false)
        },
    }
}

/// The rules of a hosts table, where there is one.
pub open spec fn rules_in(table: Option<&HostsTable>) -> Option<hosts::HostsRules> {
    match table {
        Some(table) => Some(table@),
        None => None,
    }
}

/// Where the hosts table alone sends a connection; nothing where no entry
/// matches.
pub fn hosts_destination(
    hostname: &str,
    port: u16,
    listen_port: u16,
    table: &HostsTable,
) -> (r: Option<(String, u16)>)
    requires
        table.well_formed(),
    ensures
        match r {
            Some((host, p)) => hosts::looked_up(table@, hostname@) is Some && (host@, p)
                == backend_destination(
                hostname@,
                port,
                listen_port,
                hosts::looked_up(table@, hostname@)->0,
            ),
            None => hosts::looked_up(table@, hostname@) is None,
        },
{
    match table.resolve(hostname) {
        Some(resolved) => Some(apply_host_resolve(hostname, port, listen_port, resolved)),
        None => None,
    }
}

/// Apply sniproxy `table hosts`, then per-listener `routes`.
pub fn resolve_destination(
    hostname: &str,
    port: u16,
    listen_port: u16,
    hosts: Option<&HostsTable>,
    routes: &RouteTable,
) -> (r: (String, u16, bool))
    requires
        hosts matches Some(table) ==> table.well_formed(),
    ensures
        (r.0@, r.1, r.2) == destination(hostname@, port, listen_port, rules_in(hosts), routes@),
{
    if let Some(table) = hosts {
        if let Some((host, port)) = hosts_destination(hostname, port, listen_port, table) {
            return (host, port, true);
        }
    }
    let target: &str = match routes.resolve(hostname) {
        Some(target) => {
            if text::same_text(target, "*") {
                return (hostname.to_owned(), port, false);
            }
            target
        },
        None => hostname,
    };
    let chars: Vec<char> = text::chars_of(target);
    let t: &[char] = chars.as_slice();
    let n: usize = t.len();
    match text::index_of(t, ':') {
        Some(i) => {
            assert(t@.subrange(0, i as int) == t@.take(i as int));
            assert(t@.subrange(i + 1, n as int) == t@.skip(i + 1));
            (
                text::string_of(slice_subrange(t, 0, i)),
                parse_port_or(slice_subrange(t, i + 1, n), listen_port),
                false,
            )
        },
        None => (target.to_owned(), port, false),
    }
}

// ── Reading the target ───────────────────────────────────────────────────────

/// How the target is read.
#[derive(Debug, Clone, Copy, PartialEq, Eq, Structural)]
pub enum ReaderKind {
    /// From the SNI of a ClientHello
    Tls,
    /// From the Host header of a request, or from a CONNECT request
    Http,
}

/// Room for a ClientHello flight; Chrome/Google ClientHellos can exceed 4 KiB.
pub const TLS_CAPACITY: usize = 16384;

/// Room for the headers of a request.
pub const HTTP_CAPACITY: usize = 8192;

/// The answer to a CONNECT request.
pub open spec fn established() -> Seq<char> {
    "HTTP/1.1 200 Connection Established\r\n\r\n"@
}

impl ReaderKind {
    /// How many bytes are read at most.
    pub open spec fn room(self) -> usize {
        match self {
            ReaderKind::Tls => TLS_CAPACITY,
            ReaderKind::Http => HTTP_CAPACITY,
        }
    }

    /// How many bytes are read at most.
    pub fn capacity(self) -> (r: usize)
        ensures
            r == self.room(),
    {
        match self {
            ReaderKind::Tls => TLS_CAPACITY,
            ReaderKind::Http => HTTP_CAPACITY,
        }
    }
}

/// Why no target can be read.
#[derive(Debug, Clone, Copy, PartialEq, Eq, Structural)]
pub enum ReadError {
    /// The client closed before its ClientHello was complete
    ClosedInHandshake,
    /// The ClientHello does not fit
    HelloTooLarge,
    /// The ClientHello names no host
    NoSni,
    /// What came is not TLS
    NotTls,
    /// The client closed before its headers were complete
    ClosedInHeaders,
    /// The request names no host
    NoHostHeader,
    /// The headers do not fit
    HeadersTooLarge,
}

impl ReadError {
    /// The error as it is printed.
    pub open spec fn text(self) -> Seq<char> {
        match self {
            ReadError::ClosedInHandshake => {
                "Client closed connection during TLS handshake read"@
            },
            ReadError::HelloTooLarge => "TLS ClientHello too large (>16384 bytes)"@,
            ReadError::NoSni => "TLS ClientHello has no SNI extension — cannot route"@,
            ReadError::NotTls => "Non-TLS data received on TLS listener"@,
            ReadError::ClosedInHeaders => "EOF while reading HTTP headers"@,
            ReadError::NoHostHeader => "HTTP request has no Host header"@,
            ReadError::HeadersTooLarge => "HTTP headers too large"@,
        }
    }

    /// The error as it is printed.
    pub fn message(&self) -> (r: String)
        ensures
            r@ == self.text(),
    {
        match self {
            ReadError::ClosedInHandshake => {
                "Client closed connection during TLS handshake read".to_owned()
            },
            ReadError::HelloTooLarge => "TLS ClientHello too large (>16384 bytes)".to_owned(),
            ReadError::NoSni => {
                "TLS ClientHello has no SNI extension — cannot route".to_owned()
            },
            ReadError::NotTls => "Non-TLS data received on TLS listener".to_owned(),
            ReadError::ClosedInHeaders => "EOF while reading HTTP headers".to_owned(),
            ReadError::NoHostHeader => "HTTP request has no Host header".to_owned(),
            ReadError::HeadersTooLarge => "HTTP headers too large".to_owned(),
        }
    }
}

/// What a client asks for.
#[derive(Debug)]
pub struct ClientTarget {
    pub host: String,
    pub port: u16,
    /// To be sent to the client at once
    pub reply: Vec<u8>,
    /// To be sent upstream first
    pub flight: Vec<u8>,
    /// To be sent upstream after it
    pub overflow: Vec<u8>,
}

/// What a [`ClientTarget`] says.
pub struct Target {
    pub host: Seq<char>,
    pub port: u16,
    pub reply: Seq<u8>,
    pub flight: Seq<u8>,
    pub overflow: Seq<u8>,
}

impl View for ClientTarget {
    type V = Target;

    open spec fn view(&self) -> Target {
        Target {
            host: self.host@,
            port: self.port,
            reply: self.reply@,
            flight: self.flight@,
            overflow: self.overflow@,
        }
    }
}

/// What to do next with a client.
#[derive(Debug)]
pub enum ReadStep {
    /// Read up to so many bytes
    Read { room: usize },
    /// The target is known
    Found { target: ClientTarget },
    /// Give up
    Fail { error: ReadError },
}

/// What a [`ReadStep`] says.
pub enum Reading {
    More(int),
    Found(Target),
    Fail(ReadError),
}

impl View for ReadStep {
    type V = Reading;

    open spec fn view(&self) -> Reading {
        match self {
            ReadStep::Read { room } => Reading::More(*room as int),
            ReadStep::Found { target } => Reading::Found(target@),
            ReadStep::Fail { error } => Reading::Fail(*error),
        }
    }
}

/// What the bytes of a TLS client say. The flight, up to and with the
/// ClientHello record, is replayed first; what came behind it follows.
pub open spec fn tls_reading(received: Seq<u8>, listen_port: u16) -> Reading {
    let (peek, flight_len) = sni::peek(received);
    match peek {
        sni::Peek::Tls(host) => Reading::Found(
            Target {
                host,
                port: listen_port,
                reply: Seq::empty(),
                flight: received.take(flight_len),
                overflow: received.skip(flight_len),
            },
        ),
        sni::Peek::NeedMore => if received.len() >= TLS_CAPACITY {
            Reading::Fail(ReadError::HelloTooLarge)
        } else {
            Reading::More(TLS_CAPACITY - received.len())
        },
        sni::Peek::TlsNoSni => Reading::Fail(ReadError::NoSni),
        _ => Reading::Fail(ReadError::NotTls),
    }
}

/// The value of the first Host header among the lines.
pub open spec fn first_host(lines: Seq<Seq<char>>) -> Option<Seq<char>>
    decreases lines.len(),
{
    if lines.len() == 0 {
        None
    } else if lines[0].len() >= 5 && text::equal_ignoring_case(lines[0].take(5), "host:"@) {
        Some(text::trimmed(lines[0].skip(5)))
    } else {
        first_host(lines.drop_first())
    }
}

/// The value of the Host header.
pub fn extract_host_header(headers: &str) -> (r: Option<String>)
    ensures
        text::opt(r) == first_host(text::lines_of(headers@)),
{
    let chars: Vec<char> = text::chars_of(headers);
    let lines: Vec<Vec<char>> = text::lines(chars.as_slice());
    let ghost all = text::views(lines@);
    proof {
        reveal_strlit("host:");
    }
    assert(all.skip(0) =~= all);
    for i in 0..lines.len()
        invariant
            all == text::views(lines@),
            all == text::lines_of(headers@),
            "host:"@.len() == 5,
            first_host(all) == first_host(all.skip(i as int)),
    {
        let ghost rest = all.skip(i as int);
        assert(rest.drop_first() =~= all.skip(i + 1));
        assert(rest[0] == lines@[i as int]@);
        let line: &[char] = lines[i].as_slice();
        if text::starts_with_ignoring_case(line, "host:") {
            assert(line@.subrange(5, line@.len() as int) == line@.skip(5));
            let value: &[char] = text::trim(slice_subrange(line, 5, line.len()));
            return Some(text::string_of(value));
        }
    }
    None
}

/// The bytes as text; nothing where they are not UTF-8.
pub open spec fn text_or_empty(bytes: Seq<u8>) -> Seq<char> {
    if utf8::valid_utf8(bytes) {
        utf8::decode_utf8(bytes)
    } else {
        Seq::empty()
    }
}

/// The second word of a CONNECT request's first line.
pub open spec fn connect_target(headers: Seq<char>) -> Seq<char> {
    let words = text::words(text::first_line_of(headers));
    if words.len() > 1 {
        words[1]
    } else {
        Seq::empty()
    }
}

/// What the bytes of an HTTP client say. A CONNECT request is answered at once
/// and not replayed; any other request is replayed as it came, once its headers
/// are complete.
pub open spec fn http_reading(received: Seq<u8>, listen_port: u16) -> Reading {
    let headers = text_or_empty(received);
    if "CONNECT "@.is_prefix_of(headers) {
        let (host, port) = host_port_of(connect_target(headers), listen_port);
        Reading::Found(
            Target {
                host,
                port,
                reply: utf8::encode_utf8(established()),
                flight: Seq::empty(),
                overflow: Seq::empty(),
            },
        )
    } else if text::occurs(headers, "\r\n\r\n"@) || text::occurs(headers, "\n\n"@) {
        match first_host(text::lines_of(headers)) {
            Some(value) => {
                let (host, port) = host_port_of(value, listen_port);
                Reading::Found(
                    Target {
                        host,
                        port,
                        reply: Seq::empty(),
                        flight: received,
                        overflow: Seq::empty(),
                    },
                )
            },
            None => Reading::Fail(ReadError::NoHostHeader),
        }
    } else if received.len() >= HTTP_CAPACITY {
        Reading::Fail(ReadError::HeadersTooLarge)
    } else {
        Reading::More(HTTP_CAPACITY - received.len())
    }
}

/// What a client's bytes say.
pub open spec fn reading(kind: ReaderKind, received: Seq<u8>, listen_port: u16) -> Reading {
    match kind {
        ReaderKind::Tls => tls_reading(received, listen_port),
        ReaderKind::Http => http_reading(received, listen_port),
    }
}

/// What it means that the client has closed.
pub open spec fn closed_early(kind: ReaderKind) -> ReadError {
    match kind {
        ReaderKind::Tls => ReadError::ClosedInHandshake,
        ReaderKind::Http => ReadError::ClosedInHeaders,
    }
}

fn judge_tls(received: &[u8], listen_port: u16) -> (r: ReadStep)
    ensures
        r@ == tls_reading(received@, listen_port),
{
    let (result, flight_len): (PeekResult, usize) = sni::parse_sni_with_replay(received);
    match result {
        PeekResult::Tls(host) => {
            let flight: Vec<u8> = slice_to_vec(slice_subrange(received, 0, flight_len));
            let overflow: Vec<u8> = slice_to_vec(
                slice_subrange(received, flight_len, received.len()),
            );
            assert(flight@ =~= received@.take(flight_len as int));
            assert(overflow@ =~= received@.skip(flight_len as int));
            let target: ClientTarget = ClientTarget {
                host,
                port: listen_port,
                reply: Vec::new(),
                flight,
                overflow,
            };
            ReadStep::Found { target }
        },
        PeekResult::NeedMore => if received.len() >= TLS_CAPACITY {
            ReadStep::Fail { error: ReadError::HelloTooLarge }
        } else {
            ReadStep::Read { room: TLS_CAPACITY - received.len() }
        },
        PeekResult::TlsNoSni => ReadStep::Fail { error: ReadError::NoSni },
        PeekResult::PlainHttp | PeekResult::Unknown => ReadStep::Fail { error: ReadError::NotTls },
    }
}

fn second_word_of_first_line(headers: &[char]) -> (r: String)
    ensures
        r@ == connect_target(headers@),
{
    let lines: Vec<Vec<char>> = text::lines(headers);
    let ghost views = text::views(lines@);
    if lines.len() == 0 {
        assert(text::first_line_of(headers@).len() == 0);
        return String::new();
    }
    assert(views[0] == lines@[0]@);
    let words: Vec<Vec<char>> = text::split_whitespace(lines[0].as_slice());
    let ghost word_views = text::views(words@);
    if words.len() > 1 {
        assert(word_views[1] == words@[1]@);
        text::string_of(words[1].as_slice())
    } else {
        String::new()
    }
}

fn judge_http(received: &[u8], listen_port: u16) -> (r: ReadStep)
    ensures
        r@ == http_reading(received@, listen_port),
{
    let headers: &str = match std::str::from_utf8(received) {
        Ok(s) => {
            proof {
                utf8::encode_utf8_decode_utf8(s@);
            }
            s
        },
        Err(_) => {
            proof {
                reveal_strlit("");
            }
            assert(""@ =~= Seq::empty());
            ""
        },
    };
    let chars: Vec<char> = text::chars_of(headers);
    let c: &[char] = chars.as_slice();
    if text::starts_with(c, "CONNECT ") {
        let target: String = second_word_of_first_line(c);
        let (host, port): (String, u16) = parse_host_port(target.as_str(), listen_port);
        let reply: Vec<u8> = slice_to_vec(
            "HTTP/1.1 200 Connection Established\r\n\r\n".as_bytes(),
        );
        let target: ClientTarget = ClientTarget {
            host,
            port,
            reply,
            flight: Vec::new(),
            overflow: Vec::new(),
        };
        return ReadStep::Found { target };
    }
    if text::contains_text(c, "\r\n\r\n") || text::contains_text(c, "\n\n") {
        return match extract_host_header(headers) {
            Some(value) => {
                let (host, port): (String, u16) = parse_host_port(value.as_str(), listen_port);
                let target: ClientTarget = ClientTarget {
                    host,
                    port,
                    reply: Vec::new(),
                    flight: slice_to_vec(received),
                    overflow: Vec::new(),
                };
                ReadStep::Found { target }
            },
            None => ReadStep::Fail { error: ReadError::NoHostHeader },
        };
    }
    if received.len() >= HTTP_CAPACITY {
        return ReadStep::Fail { error: ReadError::HeadersTooLarge };
    }
    ReadStep::Read { room: HTTP_CAPACITY - received.len() }
}

/// Reads the target of one client.
#[derive(Debug)]
pub struct ClientReader {
    kind: ReaderKind,
    listen_port: u16,
    received: Vec<u8>,
}

/// What a [`ClientReader`] holds.
pub struct ReaderState {
    pub kind: ReaderKind,
    pub listen_port: u16,
    pub received: Seq<u8>,
}

impl View for ClientReader {
    type V = ReaderState;

    closed spec fn view(&self) -> ReaderState {
        ReaderState {
            kind: self.kind,
            listen_port: self.listen_port,
            received: self.received@,
        }
    }
}

impl ClientReader {
    /// Starts to read a client that came in on `listen_port`.
    pub fn start(kind: ReaderKind, listen_port: u16) -> (r: (Self, ReadStep))
        ensures
            r.0@ == (ReaderState { kind, listen_port, received: Seq::empty() }),
            r.1@ == Reading::More(kind.room() as int),
    {
        let room: usize = kind.capacity();
        (ClientReader { kind, listen_port, received: Vec::new() }, ReadStep::Read { room })
    }

    /// The port that the client came in on.
    pub fn listen_port(&self) -> (r: u16)
        ensures
            r == self@.listen_port,
    {
        self.listen_port
    }

    /// Takes what a read brought; nothing where the client has closed.
    pub fn on_bytes(&mut self, chunk: &[u8]) -> (r: ReadStep)
        requires
            old(self)@.received.len() + chunk@.len() <= old(self)@.kind.room(),
        ensures
            final(self)@ == (ReaderState {
                kind: old(self)@.kind,
                listen_port: old(self)@.listen_port,
                received: old(self)@.received + chunk@,
            }),
            r@ == (if chunk@.len() == 0 {
                Reading::Fail(closed_early(old(self)@.kind))
            } else {
                reading(old(self)@.kind, final(self)@.received, old(self)@.listen_port)
            }),
    {
        let ghost start = self.received@;
        for i in 0..chunk.len()
            invariant
                self.kind == old(self).kind,
                self.listen_port == old(self).listen_port,
                self.received@ == start + chunk@.take(i as int),
        {
            self.received.push(chunk[i]);
            assert(self.received@ =~= start + chunk@.take(i + 1));
        }
        assert(chunk@.take(chunk@.len() as int) =~= chunk@);
        if chunk.len() == 0 {
            let error: ReadError = match self.kind {
                ReaderKind::Tls => ReadError::ClosedInHandshake,
                ReaderKind::Http => ReadError::ClosedInHeaders,
            };
            return ReadStep::Fail { error };
        }
        match self.kind {
            ReaderKind::Tls => judge_tls(self.received.as_slice(), self.listen_port),
            ReaderKind::Http => judge_http(self.received.as_slice(), self.listen_port),
        }
    }
}

/// The first bytes of a client look like a TLS handshake record.
pub open spec fn looks_like_tls(peeked: Seq<u8>) -> bool {
    peeked.len() >= 3 && peeked[0] == 0x16 && peeked[1] == 0x03
}

/// How to read a client on a listener of the protocol `proto`; nothing where its
/// first bytes must be seen.
pub open spec fn kind_by_proto(proto: Seq<char>) -> Option<ReaderKind> {
    if proto == "tls"@ {
        Some(ReaderKind::Tls)
    } else if proto == "http"@ {
        Some(ReaderKind::Http)
    } else {
        None
    }
}

/// How to read a client by the protocol alone; nothing where its first bytes
/// must be seen.
pub fn reader_by_proto(proto: &str) -> (r: Option<ReaderKind>)
    ensures
        r == kind_by_proto(proto@),
{
    if text::same_text(proto, "tls") {
        Some(ReaderKind::Tls)
    } else if text::same_text(proto, "http") {
        Some(ReaderKind::Http)
    } else {
        None
    }
}

/// How to read a client by its first bytes.
pub open spec fn kind_by_bytes(peeked: Seq<u8>) -> ReaderKind {
    if looks_like_tls(peeked) {
        ReaderKind::Tls
    } else {
        ReaderKind::Http
    }
}

/// Auto-detect TLS vs HTTP from the first bytes.
pub fn extract_auto(peeked: &[u8]) -> (r: ReaderKind)
    ensures
        r == kind_by_bytes(peeked@),
{
    if peeked.len() >= 3 && peeked[0] == 0x16 && peeked[1] == 0x03 {
        ReaderKind::Tls
    } else {
        ReaderKind::Http
    }
}

// ── Listeners ────────────────────────────────────────────────────────────────

/// One listener, ready to be bound.
#[derive(Debug)]
pub struct ListenerPlan {
    pub addr: String,
    pub proto: String,
    pub label: String,
    pub listen_port: u16,
    pub routes: RouteTable,
}

impl ListenerPlan {
    /// The plan is for the listener.
    pub open spec fn is_for(self, l: config::Listener) -> bool {
        &&& self.addr@ == l.addr
        &&& self.proto@ == l.proto_text()
        &&& self.label@ == l.label_text()
        &&& l.port() == Some(self.listen_port as int)
        &&& self.routes@ == l.routes
    }
}

/// Why a listener cannot be started.
#[derive(Debug, Clone, PartialEq)]
pub enum PlanError {
    /// One of its routes does not compile
    Route { route: RouteError },
    /// Its address cannot be read
    Address { label: String, cause: ListenerError },
}

impl PlanError {
    /// The error as it is printed.
    pub fn message(&self) -> (r: String)
        ensures
            r@ == (match *self {
                PlanError::Route { route } => "Invalid route regex: '"@ + route.pattern@ + "'"@,
                PlanError::Address { label, cause } => "listener ["@ + label@ + "]: "@
                    + cause.text(),
            }),
    {
        match self {
            PlanError::Route { route } => route.message(),
            PlanError::Address { label, cause } => {
                let mut out: String = "listener [".to_owned();
                text::push_text(&mut out, label.as_str());
                text::push_text(&mut out, "]: ");
                text::push_text(&mut out, cause.message().as_str());
                out
            },
        }
    }
}

/// The listener can be started.
pub open spec fn startable(l: config::Listener) -> bool {
    routes_compile(l.routes) && l.port() is Some
}

/// `e` is why the listener cannot be started; its routes are looked at first.
pub open spec fn not_startable_for(l: config::Listener, e: PlanError) -> bool {
    match e {
        PlanError::Route { route } => route_refused(l.routes, route),
        PlanError::Address { label, cause } => {
            &&& routes_compile(l.routes)
            &&& l.port() is None
            &&& label@ == l.label_text()
            &&& cause matches ListenerError::BadAddr { addr } && addr@ == l.addr
        },
    }
}

/// Prepares one listener.
pub fn plan_listener(l: &ListenerConfig) -> (r: Result<ListenerPlan, PlanError>)
    ensures
        r is Ok <==> startable(l@),
        r matches Ok(plan) ==> plan.is_for(l@),
        r matches Err(e) ==> not_startable_for(l@, e),
{
    let routes: RouteTable = match RouteTable::compile(l.routes.as_slice()) {
        Ok(routes) => routes,
        Err(route) => {
            proof {
                let all = l@.routes;
                let i = choose|i: int|
                    {
                        &&& 0 <= i < all.len()
                        &&& !route_compiles(#[trigger] all[i])
                        &&& forall|j: int| 0 <= j < i ==> route_compiles(#[trigger] all[j])
                        &&& route.pattern@ == all[i].0
                    };
                assert(!route_compiles(all[i]));
            }
            return Err(PlanError::Route { route });
        },
    };
    match l.listen_port() {
        Ok(listen_port) => Ok(
            ListenerPlan {
                addr: l.addr.clone(),
                proto: l.proto_str().to_owned(),
                label: l.label(),
                listen_port,
                routes,
            },
        ),
        Err(cause) => Err(PlanError::Address { label: l.label(), cause }),
    }
}

/// Prepares every listener of a configuration, in order.
pub fn plan_listeners(cfg: &AppConfig) -> (r: Result<Vec<ListenerPlan>, PlanError>)
    ensures
        r is Ok <==> forall|i: int|
            0 <= i < cfg.listens@.len() ==> startable((#[trigger] cfg.listens@[i])@),
        r matches Ok(plans) ==> {
            &&& plans@.len() == cfg.listens@.len()
            &&& forall|i: int|
                0 <= i < plans@.len() ==> (#[trigger] plans@[i]).is_for(cfg.listens@[i]@)
        },
        r matches Err(e) ==> exists|i: int|
            {
                &&& 0 <= i < cfg.listens@.len()
                &&& not_startable_for((#[trigger] cfg.listens@[i])@, e)
                &&& forall|j: int| 0 <= j < i ==> startable((#[trigger] cfg.listens@[j])@)
            },
{
    let mut plans: Vec<ListenerPlan> = Vec::new();
    for i in 0..cfg.listens.len()
        invariant
            plans@.len() == i,
            forall|j: int| 0 <= j < i ==> startable((#[trigger] cfg.listens@[j])@),
            forall|j: int| 0 <= j < i ==> (#[trigger] plans@[j]).is_for(cfg.listens@[j]@),
    {
        match plan_listener(&cfg.listens[i]) {
            Ok(plan) => {
                plans.push(plan);
            },
            Err(e) => {
                assert(not_startable_for(cfg.listens@[i as int]@, e));
                return Err(e);
            },
        }
    }
    Ok(plans)
}

// ── Laws ─────────────────────────────────────────────────────────────────────

/// The client's bytes reach the origin unchanged and in order: the flight and
/// what is sent behind it are together exactly what was received, and the
/// flight alone carries the name.
pub proof fn tls_bytes_are_all_forwarded(received: Seq<u8>, listen_port: u16, target: Target)
    requires
        tls_reading(received, listen_port) == Reading::Found(target),
    ensures
        target.flight + target.overflow == received,
        sni::peek(target.flight) == (sni::Peek::Tls(target.host), target.flight.len() as int),
        target.port == listen_port,
        target.reply.len() == 0,
{
    sni::flight_carries_the_name(received);
    let n = sni::peek(received).1;
    assert(received.take(n) + received.skip(n) =~= received);
}

/// How a TLS client's bytes are split into reads makes no difference: once the
/// target is known, further bytes change nothing but what follows the flight,
/// and a refusal stays.
pub proof fn tls_reading_is_final(received: Seq<u8>, more: Seq<u8>, listen_port: u16)
    ensures
        tls_reading(received, listen_port) matches Reading::Found(t) ==> tls_reading(
            received + more,
            listen_port,
        ) == Reading::Found(
            Target {
                host: t.host,
                port: t.port,
                reply: t.reply,
                flight: t.flight,
                overflow: t.overflow + more,
            },
        ),
        tls_reading(received, listen_port) == Reading::Fail(ReadError::NoSni) || tls_reading(
            received,
            listen_port,
        ) == Reading::Fail(ReadError::NotTls) ==> tls_reading(received + more, listen_port)
            == tls_reading(received, listen_port),
{
    if sni::peek(received).0 !is NeedMore {
        sni::verdict_is_final(received, more);
        if sni::peek(received).0 is Tls {
            sni::flight_carries_the_name(received);
            let n = sni::peek(received).1;
            assert((received + more).take(n) =~= received.take(n));
            assert((received + more).skip(n) =~= received.skip(n) + more);
        }
    }
}

/// A ClientHello that names a host is routed by that name, in lower case, on
/// the listener's port; the flight is the ClientHello with the records before
/// it, and whatever came behind it follows.
pub proof fn named_hello_is_routed(
    skipped: Seq<(u8, u8, Seq<u8>)>,
    hello: sni::NamedHello,
    rest: Seq<u8>,
    listen_port: u16,
)
    requires
        forall|i: int| 0 <= i < skipped.len() ==> (#[trigger] skipped[i]).2.len() < 65536,
        hello.well_formed(),
    ensures
        tls_reading(sni::cipher_spec_records(skipped) + hello.record() + rest, listen_port)
            == Reading::Found(
            Target {
                host: text::lowercase(utf8::decode_utf8(hello.name)),
                port: listen_port,
                reply: Seq::empty(),
                flight: sni::cipher_spec_records(skipped) + hello.record(),
                overflow: rest,
            },
        ),
{
    sni::sent_name_is_read(skipped, hello, rest);
    let flight = sni::cipher_spec_records(skipped) + hello.record();
    let received = flight + rest;
    assert(received.take(flight.len() as int) =~= flight);
    assert(received.skip(flight.len() as int) =~= rest);
}

/// A plain request reaches the origin as it came; a CONNECT request is answered
/// and not passed on.
pub proof fn http_request_is_replayed(received: Seq<u8>, listen_port: u16, target: Target)
    requires
        http_reading(received, listen_port) == Reading::Found(target),
    ensures
        target.overflow.len() == 0,
        "CONNECT "@.is_prefix_of(text_or_empty(received)) ==> target.flight.len() == 0
            && target.reply == utf8::encode_utf8(established()),
        !"CONNECT "@.is_prefix_of(text_or_empty(received)) ==> target.flight == received
            && target.reply.len() == 0,
{
}

/// The hosts table decides first: routes are asked only where it has no entry.
pub proof fn hosts_come_before_routes(
    hostname: Seq<char>,
    port: u16,
    listen_port: u16,
    rules: hosts::HostsRules,
    routes: Seq<(Seq<char>, Seq<char>)>,
    other_routes: Seq<(Seq<char>, Seq<char>)>,
)
    requires
        hosts::looked_up(rules, hostname) is Some,
    ensures
        destination(hostname, port, listen_port, Some(rules), routes) == destination(
            hostname,
            port,
            listen_port,
            Some(rules),
            other_routes,
        ),
        destination(hostname, port, listen_port, Some(rules), routes).2,
{
}

/// Without a hosts entry, a route to `*` leads to the host and the port that the
/// client asked for, whatever they look like; and so does no route at all, for a
/// host without a colon.
pub proof fn star_means_same_host_and_port(
    hostname: Seq<char>,
    port: u16,
    listen_port: u16,
    rules: Option<hosts::HostsRules>,
    routes: Seq<(Seq<char>, Seq<char>)>,
)
    requires
        rules matches Some(r) ==> hosts::looked_up(r, hostname) is None,
        first_route(routes, hostname) == Some("*"@) || first_route(routes, hostname) is None
            && !hostname.contains(':'),
    ensures
        destination(hostname, port, listen_port, rules, routes) == (hostname, port, false),
{
    hostname.index_of_first_ensures(':');
}

/// An entry of `*` in the hosts table leads to the host and the port that the
/// client asked for.
pub proof fn passthrough_means_same_host_and_port(
    hostname: Seq<char>,
    port: u16,
    listen_port: u16,
    rules: hosts::HostsRules,
    routes: Seq<(Seq<char>, Seq<char>)>,
)
    requires
        hosts::looked_up(rules, hostname) == Some(hosts::Backend::Passthrough),
    ensures
        destination(hostname, port, listen_port, Some(rules), routes) == (hostname, port, true),
{
}

/// Among the routes the first one that matches decides, whatever follows it.
pub proof fn first_route_wins(
    routes: Seq<(Seq<char>, Seq<char>)>,
    more: Seq<(Seq<char>, Seq<char>)>,
    hostname: Seq<char>,
)
    requires
        first_route(routes, hostname) is Some,
    ensures
        first_route(routes + more, hostname) == first_route(routes, hostname),
    decreases routes.len(),
{
    if routes.len() > 0 && !pattern::regex_matches(routes[0].0, hostname) {
        assert((routes + more).drop_first() =~= routes.drop_first() + more);
        first_route_wins(routes.drop_first(), more, hostname);
    }
}

/// A request with a Host header right after its first line.
pub open spec fn request_text(
    first_line: Seq<char>,
    value: Seq<char>,
    rest: Seq<char>,
) -> Seq<char> {
    first_line + "\r\n"@ + "Host: "@ + value + "\r\n\r\n"@ + rest
}

/// A line ended by `\r\n` comes first among the lines.
proof fn lemma_first_line(line: Seq<char>, rest: Seq<char>)
    requires
        !line.contains('\n'),
    ensures
        text::lines_of(line + seq!['\r', '\n'] + rest) == seq![line] + text::lines_of(rest),
{
    let s = line + seq!['\r', '\n'] + rest;
    let n = line.len() as int + 1;
    s.index_of_first_ensures('\n');
    assert(s[n] == '\n');
    assert(s.contains('\n'));
    assert forall|j: int| 0 <= j < n implies s[j] != '\n' by {
        if j < line.len() {
            assert(s[j] == line[j]);
        }
    }
    let i = s.index_of_first('\n')->0;
    assert(i == n) by {
        if i < n {
            assert(s[i] != '\n');
        }
        if n < i {
            assert(s[n] != '\n');
        }
    }
    assert(s.take(n) =~= line.push('\r'));
    assert(text::without_cr(s.take(n)) =~= line);
    assert(s.skip(n + 1) =~= rest);
}

/// The host that a client names is the host that is read: a plain request goes
/// by the value of its Host header, white space around it aside, and is
/// replayed as it came.
pub proof fn host_header_is_routed(
    first_line: Seq<char>,
    value: Seq<char>,
    rest: Seq<char>,
    listen_port: u16,
)
    requires
        !first_line.contains('\n'),
        !value.contains('\n'),
        !"CONNECT "@.is_prefix_of(request_text(first_line, value, rest)),
        !(first_line.len() >= 5 && text::equal_ignoring_case(first_line.take(5), "host:"@)),
    ensures
        ({
            let received = utf8::encode_utf8(request_text(first_line, value, rest));
            let (host, port) = host_port_of(text::trimmed(value), listen_port);
            http_reading(received, listen_port) == Reading::Found(
                Target {
                    host,
                    port,
                    reply: Seq::empty(),
                    flight: received,
                    overflow: Seq::empty(),
                },
            )
        }),
{
    let headers = request_text(first_line, value, rest);
    let received = utf8::encode_utf8(headers);
    utf8::encode_utf8_valid_utf8(headers);
    utf8::encode_utf8_decode_utf8(headers);
    reveal_strlit("\r\n");
    reveal_strlit("\r\n\r\n");
    reveal_strlit("Host: ");
    reveal_strlit("host:");
    assert("\r\n"@ =~= seq!['\r', '\n']);
    assert("\r\n\r\n"@ =~= seq!['\r', '\n', '\r', '\n']);
    let line = "Host: "@ + value;
    let after = seq!['\r', '\n'] + rest;
    assert(headers =~= first_line + seq!['\r', '\n'] + (line + seq!['\r', '\n'] + after));
    assert(!line.contains('\n')) by {
        if line.contains('\n') {
            let i = choose|i: int| 0 <= i < line.len() && line[i] == '\n';
            if i >= 6 {
                assert(value[i - 6] == '\n');
            }
        }
    }
    lemma_first_line(first_line, line + seq!['\r', '\n'] + after);
    lemma_first_line(line, after);
    let lines = text::lines_of(headers);
    let more = text::lines_of(after);
    assert(lines =~= seq![first_line] + (seq![line] + more));
    assert(lines.drop_first() =~= seq![line] + more);
    assert(lines.drop_first()[0] == line);
    assert(text::equal_ignoring_case(line.take(5), "host:"@)) by {
        assert(text::ascii_lowercase(line.take(5)) =~= text::ascii_lowercase("host:"@));
    }
    assert(text::trimmed(line.skip(5)) == text::trimmed(value)) by {
        let padded = line.skip(5);
        assert(padded =~= seq![' '] + value);
        assert(padded.drop_first() =~= value);
        assert(text::is_white_space(padded[0]));
    }
    reveal_with_fuel(first_host, 3);
    assert(first_host(lines) == Some(text::trimmed(value)));
    let at = first_line.len() as int + 8 + value.len() as int;
    assert(headers.subrange(at, at + 4) =~= "\r\n\r\n"@);
    assert(text::occurs_at(headers, "\r\n\r\n"@, at));
}

/// A TLS client is read on until its ClientHello is complete, in however many
/// reads, and given up only once 16384 bytes are there without one.
pub proof fn unfinished_hello_is_read_on(
    skipped: Seq<(u8, u8, Seq<u8>)>,
    minor: u8,
    message: Seq<u8>,
    n: int,
    listen_port: u16,
)
    requires
        forall|i: int| 0 <= i < skipped.len() ==> (#[trigger] skipped[i]).2.len() < 65536,
        minor <= 4,
        message.len() < 65536,
        0 <= n < (sni::cipher_spec_records(skipped) + sni::handshake_record(minor, message)).len(),
    ensures
        ({
            let flight = sni::cipher_spec_records(skipped) + sni::handshake_record(minor, message);
            tls_reading(flight.take(n), listen_port) == (if n < 16384 {
                Reading::More(16384 - n)
            } else {
                Reading::Fail(ReadError::HelloTooLarge)
            })
        }),
{
    sni::unfinished_hello_is_waited_for(skipped, minor, message, n);
}

/// A TLS client is asked for what still fits 16384 bytes, and its ClientHello is
/// too large only when they are full.
pub proof fn tls_room_is_used_up(received: Seq<u8>, listen_port: u16)
    ensures
        tls_reading(received, listen_port) matches Reading::More(room) ==> room == 16384
            - received.len() && room > 0,
        tls_reading(received, listen_port) == Reading::Fail(ReadError::HelloTooLarge)
            ==> received.len() >= 16384,
        tls_reading(received, listen_port) == Reading::Fail(ReadError::NoSni) <==> sni::peek(
            received,
        ).0 is TlsNoSni,
        tls_reading(received, listen_port) == Reading::Fail(ReadError::NotTls) <==> sni::peek(
            received,
        ).0 is PlainHttp || sni::peek(received).0 is Unknown,
{
}

/// A line is a Host header: it begins with `host:`, in whatever case.
pub open spec fn is_host_line(line: Seq<char>) -> bool {
    &&& line.len() >= 5
    &&& line[0] == 'h' || line[0] == 'H'
    &&& line[1] == 'o' || line[1] == 'O'
    &&& line[2] == 's' || line[2] == 'S'
    &&& line[3] == 't' || line[3] == 'T'
    &&& line[4] == ':'
}

proof fn lemma_host_line(line: Seq<char>)
    ensures
        is_host_line(line) <==> line.len() >= 5 && text::equal_ignoring_case(
            line.take(5),
            "host:"@,
        ),
{
    reveal_strlit("host:");
    if line.len() >= 5 {
        let t = line.take(5);
        text::only_case_is_ignored(t, "host:"@);
        assert(t[0] == line[0] && t[1] == line[1] && t[2] == line[2] && t[3] == line[3] && t[4]
            == line[4]);
    }
}

/// The Host header is found wherever it stands among the lines, and it is the
/// first one that counts.
pub proof fn host_line_is_found(before: Seq<Seq<char>>, line: Seq<char>, after: Seq<Seq<char>>)
    requires
        forall|i: int| 0 <= i < before.len() ==> !is_host_line(#[trigger] before[i]),
        is_host_line(line),
    ensures
        first_host(before + seq![line] + after) == Some(text::trimmed(line.skip(5))),
    decreases before.len(),
{
    let lines = before + seq![line] + after;
    lemma_host_line(lines[0]);
    if before.len() == 0 {
        assert(lines[0] == line);
    } else {
        assert(lines[0] == before[0]);
        assert(lines.drop_first() =~= before.drop_first() + seq![line] + after);
        assert forall|i: int| 0 <= i < before.drop_first().len() implies !is_host_line(
            #[trigger] before.drop_first()[i],
        ) by {
            assert(before.drop_first()[i] == before[i + 1]);
        }
        host_line_is_found(before.drop_first(), line, after);
    }
}

/// No host is read where no line is a Host header, and only there.
pub proof fn no_host_without_a_host_line(lines: Seq<Seq<char>>)
    ensures
        first_host(lines) is None <==> forall|i: int|
            0 <= i < lines.len() ==> !is_host_line(#[trigger] lines[i]),
    decreases lines.len(),
{
    if lines.len() > 0 {
        lemma_host_line(lines[0]);
        no_host_without_a_host_line(lines.drop_first());
        assert forall|i: int| 0 <= i < lines.drop_first().len() implies #[trigger]
            lines.drop_first()[i] == lines[i + 1] by {}
        if forall|i: int| 0 <= i < lines.len() ==> !is_host_line(#[trigger] lines[i]) {
            assert forall|i: int| 0 <= i < lines.drop_first().len() implies !is_host_line(
                #[trigger] lines.drop_first()[i],
            ) by {
                assert(lines.drop_first()[i] == lines[i + 1]);
            }
        }
        if first_host(lines) is None {
            assert forall|i: int| 0 <= i < lines.len() implies !is_host_line(
                #[trigger] lines[i],
            ) by {
                if i > 0 {
                    assert(lines.drop_first()[i - 1] == lines[i]);
                }
            }
        }
    }
}

/// A header block ends somewhere in `s`: there is an empty line.
pub open spec fn has_empty_line(s: Seq<char>) -> bool {
    exists|i: int|
        #![trigger s[i]]
        {
            ||| 0 <= i && i + 4 <= s.len() && s[i] == '\r' && s[i + 1] == '\n' && s[i + 2] == '\r'
                && s[i + 3] == '\n'
            ||| 0 <= i && i + 2 <= s.len() && s[i] == '\n' && s[i + 1] == '\n'
        }
}

proof fn lemma_empty_line(s: Seq<char>)
    ensures
        has_empty_line(s) <==> text::occurs(s, "\r\n\r\n"@) || text::occurs(s, "\n\n"@),
{
    reveal_strlit("\r\n\r\n");
    reveal_strlit("\n\n");
    let crlf = "\r\n\r\n"@;
    let lf = "\n\n"@;
    if has_empty_line(s) {
        let i = choose|i: int|
            #![trigger s[i]]
            {
                ||| 0 <= i && i + 4 <= s.len() && s[i] == '\r' && s[i + 1] == '\n' && s[i + 2]
                    == '\r' && s[i + 3] == '\n'
                ||| 0 <= i && i + 2 <= s.len() && s[i] == '\n' && s[i + 1] == '\n'
            };
        if s[i] == '\r' {
            assert(s.subrange(i, i + 4) =~= crlf);
            assert(text::occurs_at(s, crlf, i));
        } else {
            assert(s.subrange(i, i + 2) =~= lf);
            assert(text::occurs_at(s, lf, i));
        }
    }
    if text::occurs(s, crlf) {
        let i = choose|i: int| text::occurs_at(s, crlf, i);
        let t = s.subrange(i, i + 4);
        assert(t[0] == s[i] && t[1] == s[i + 1] && t[2] == s[i + 2] && t[3] == s[i + 3]);
        assert(t[0] == '\r' && t[1] == '\n' && t[2] == '\r' && t[3] == '\n');
    }
    if text::occurs(s, lf) {
        let i = choose|i: int| text::occurs_at(s, lf, i);
        let t = s.subrange(i, i + 2);
        assert(t[0] == s[i] && t[1] == s[i + 1]);
        assert(t[0] == '\n' && t[1] == '\n');
    }
}

/// A request with a Host header anywhere among its headers is routed by the
/// value of the first one, the blanks around it aside, and replayed as it came.
#[verifier::rlimit(40)]
pub proof fn request_is_routed_by_its_host(
    before: Seq<(Seq<char>, Seq<char>)>,
    name: Seq<char>,
    pad: Seq<char>,
    value: Seq<char>,
    more_pad: Seq<char>,
    end: Seq<char>,
    after: Seq<char>,
    listen_port: u16,
)
    requires
        forall|i: int|
            0 <= i < before.len() ==> text::is_ended_line((#[trigger] before[i]).0, before[i].1)
                && !is_host_line(before[i].0),
        name.len() == 5,
        is_host_line(name),
        text::all_blank(pad),
        text::all_blank(more_pad),
        value.len() > 0 ==> text::is_graphic(value[0]) && text::is_graphic(value.last()),
        text::is_ended_line(name + pad + value + more_pad, end),
        ({
            let request = text::ended_lines(before) + (name + pad + value + more_pad) + end
                + after;
            has_empty_line(request) && !"CONNECT "@.is_prefix_of(request)
        }),
    ensures
        ({
            let request = text::ended_lines(before) + (name + pad + value + more_pad) + end
                + after;
            let (host, port) = host_port_of(value, listen_port);
            http_reading(utf8::encode_utf8(request), listen_port) == Reading::Found(
                Target {
                    host,
                    port,
                    reply: Seq::empty(),
                    flight: utf8::encode_utf8(request),
                    overflow: Seq::empty(),
                },
            )
        }),
{
    let line = name + pad + value + more_pad;
    let request = text::ended_lines(before) + line + end + after;
    utf8::encode_utf8_valid_utf8(request);
    utf8::encode_utf8_decode_utf8(request);
    lemma_empty_line(request);
    let heads = before.map_values(|e: (Seq<char>, Seq<char>)| e.0);
    let rest = text::ended_lines(seq![(line, end)]) + after;
    assert(seq![(line, end)].drop_first() =~= Seq::empty());
    reveal_with_fuel(text::ended_lines, 2);
    assert(text::ended_lines(seq![(line, end)]) =~= line + end);
    assert(request =~= text::ended_lines(before) + rest);
    text::ended_lines_are_read(before, rest);
    text::ended_lines_are_read(seq![(line, end)], after);
    let last = seq![(line, end)].map_values(|e: (Seq<char>, Seq<char>)| e.0);
    assert(last =~= seq![line]);
    let more = text::lines_of(after);
    assert(text::lines_of(request) =~= heads + seq![line] + more);
    assert(is_host_line(line)) by {
        assert(line[0] == name[0] && line[1] == name[1] && line[2] == name[2] && line[3] == name[3]
            && line[4] == name[4]);
    }
    assert forall|i: int| 0 <= i < heads.len() implies !is_host_line(#[trigger] heads[i]) by {
        assert(heads[i] == before[i].0);
    }
    host_line_is_found(heads, line, more);
    assert(line.skip(5) =~= pad + value + more_pad);
    text::trimming_takes_blanks_only(pad, value, more_pad);
}

/// A request whose headers are complete without a Host header among them is
/// refused for that.
pub proof fn request_without_host_is_refused(
    lines: Seq<(Seq<char>, Seq<char>)>,
    listen_port: u16,
)
    requires
        forall|i: int|
            0 <= i < lines.len() ==> text::is_ended_line((#[trigger] lines[i]).0, lines[i].1)
                && !is_host_line(lines[i].0),
        has_empty_line(text::ended_lines(lines)),
        !"CONNECT "@.is_prefix_of(text::ended_lines(lines)),
    ensures
        http_reading(utf8::encode_utf8(text::ended_lines(lines)), listen_port) == Reading::Fail(
            ReadError::NoHostHeader,
        ),
{
    let request = text::ended_lines(lines);
    utf8::encode_utf8_valid_utf8(request);
    utf8::encode_utf8_decode_utf8(request);
    lemma_empty_line(request);
    let heads = lines.map_values(|e: (Seq<char>, Seq<char>)| e.0);
    text::ended_lines_are_read(lines, Seq::empty());
    assert(request + Seq::<char>::empty() =~= request);
    assert(text::lines_of(request) =~= heads);
    assert forall|i: int| 0 <= i < heads.len() implies !is_host_line(#[trigger] heads[i]) by {
        assert(heads[i] == lines[i].0);
    }
    no_host_without_a_host_line(heads);
}

/// A plain request is read on until its headers are complete, in however many
/// reads, and given up only once 8192 bytes are there without an end of them.
pub proof fn unfinished_request_is_read_on(request: Seq<char>, listen_port: u16)
    requires
        !has_empty_line(request),
        !"CONNECT "@.is_prefix_of(request),
    ensures
        ({
            let received = utf8::encode_utf8(request);
            http_reading(received, listen_port) == (if received.len() < 8192 {
                Reading::More(8192 - received.len())
            } else {
                Reading::Fail(ReadError::HeadersTooLarge)
            })
        }),
{
    utf8::encode_utf8_valid_utf8(request);
    utf8::encode_utf8_decode_utf8(request);
    lemma_empty_line(request);
}

/// A plain client is asked for what still fits 8192 bytes, and its headers are
/// too large only when they are full.
pub proof fn http_room_is_used_up(received: Seq<u8>, listen_port: u16)
    ensures
        http_reading(received, listen_port) matches Reading::More(room) ==> room == 8192
            - received.len() && room > 0,
        http_reading(received, listen_port) == Reading::Fail(ReadError::HeadersTooLarge)
            ==> received.len() >= 8192,
{
}

/// A CONNECT request is taken for the target that it names, whatever headers
/// follow; it is answered at once and not passed on.
pub proof fn connect_request_names_its_target(
    target: Seq<char>,
    version: Seq<char>,
    more: Seq<char>,
    listen_port: u16,
)
    requires
        text::is_graphic_word(target),
        text::is_graphic_word(version),
    ensures
        ({
            let request = "CONNECT "@ + target + seq![' '] + version + seq!['\r', '\n'] + more;
            let (host, port) = host_port_of(target, listen_port);
            http_reading(utf8::encode_utf8(request), listen_port) == Reading::Found(
                Target {
                    host,
                    port,
                    reply: utf8::encode_utf8("HTTP/1.1 200 Connection Established\r\n\r\n"@),
                    flight: Seq::empty(),
                    overflow: Seq::empty(),
                },
            )
        }),
{
    let request = "CONNECT "@ + target + seq![' '] + version + seq!['\r', '\n'] + more;
    utf8::encode_utf8_valid_utf8(request);
    utf8::encode_utf8_decode_utf8(request);
    reveal_strlit("CONNECT ");
    assert(request.take(8) =~= "CONNECT "@);
    assert("CONNECT "@.is_prefix_of(request));
    let method = seq!['C', 'O', 'N', 'N', 'E', 'C', 'T'];
    let line = "CONNECT "@ + target + seq![' '] + version;
    assert(request =~= line + seq!['\r', '\n'] + more);
    assert(!line.contains('\n')) by {
        if line.contains('\n') {
            let i = choose|i: int| 0 <= i < line.len() && line[i] == '\n';
            if 8 <= i < 8 + target.len() {
                assert(text::is_graphic(target[i - 8]));
            }
            if i > 8 + target.len() {
                assert(text::is_graphic(version[i - 9 - target.len()]));
            }
        }
    }
    lemma_first_line(line, more);
    assert(text::first_line_of(request) == line);
    let none = Seq::<char>::empty();
    let one = (none, method);
    let two = (seq![' '], target);
    let three = (seq![' '], version);
    let list = seq![one, two, three];
    assert(list.drop_first() =~= seq![two, three]);
    assert(seq![two, three].drop_first() =~= seq![three]);
    assert(seq![three].drop_first() =~= Seq::empty());
    reveal_with_fuel(text::spaced, 4);
    assert(text::spaced(list) + none =~= line);
    assert forall|i: int| 0 <= i < list.len() implies text::all_blank((#[trigger] list[i]).0)
        && text::is_graphic_word(list[i].1) by {
        if i == 0 {
            assert(list[i] == one);
        } else if i == 1 {
            assert(list[i] == two);
        } else {
            assert(list[i] == three);
        }
    }
    assert forall|i: int| 0 < i < list.len() implies (#[trigger] list[i]).0.len() > 0 by {
        if i == 1 {
            assert(list[i] == two);
        } else {
            assert(list[i] == three);
        }
    }
    text::spaced_words_are_read(list, none);
    let words = list.map_values(|e: (Seq<char>, Seq<char>)| e.1);
    assert(words[1] == target);
}

/// Host and port are read back from `host:port` and from `[host]:port`; without
/// a port, or with one that is no number, the port is the default.
#[verifier::rlimit(40)]
pub proof fn written_host_and_port_are_read_back(
    host: Seq<char>,
    port: u16,
    junk: Seq<char>,
    default_port: u16,
)
    requires
        junk.len() == 0 || !('0' <= junk[0] <= '9') && junk[0] != '+',
        !junk.contains(':'),
    ensures
        !host.contains(':') && !host.contains(']') ==> host_port_of(host, default_port) == (
            host,
            default_port,
        ),
        host.len() == 0 || host[0] != '[' ==> {
            &&& host_port_of(host + seq![':'] + text::decimal(port as nat), default_port) == (
                host,
                port,
            )
            &&& host_port_of(host + seq![':'] + junk, default_port) == (host, default_port)
        },
        !host.contains(']') ==> {
            &&& host_port_of(
                seq!['['] + host + seq![']', ':'] + text::decimal(port as nat),
                default_port,
            ) == (host, port)
            &&& host_port_of(seq!['['] + host + seq![']'], default_port) == (host, default_port)
        },
{
    let digits = text::decimal(port as nat);
    text::written_number_is_read_back(port as nat, u16::MAX as int);
    assert(forall|i: int| 0 <= i < digits.len() ==> text::is_digit(#[trigger] digits[i]));
    assert(!digits.contains(':'));
    assert(text::unsigned_of(junk, u16::MAX as int) is None) by {
        if junk.len() > 0 {
            assert(!text::is_digit(junk[0]));
        }
    }
    if !host.contains(':') && !host.contains(']') {
        host.index_of_last_ensures(':');
    }
    if host.len() == 0 || host[0] != '[' {
        lemma_split_at_last_colon(host, digits, default_port);
        lemma_split_at_last_colon(host, junk, default_port);
    }
    if !host.contains(']') {
        let a = seq!['['] + host + seq![']', ':'] + digits;
        let b = seq!['['] + host + seq![']'];
        lemma_bracket(host, seq![':'] + digits);
        assert(seq!['['] + host + seq![']'] + (seq![':'] + digits) =~= a);
        lemma_bracket(host, Seq::empty());
        assert(seq!['['] + host + seq![']'] + Seq::<char>::empty() =~= b);
        assert(a.subrange(1, host.len() as int + 1) =~= host);
        assert(b.subrange(1, host.len() as int + 1) =~= host);
        assert(a.skip(host.len() as int + 2) =~= seq![':'] + digits);
        assert((seq![':'] + digits).drop_first() =~= digits);
    }
}

proof fn lemma_split_at_last_colon(host: Seq<char>, tail: Seq<char>, default_port: u16)
    requires
        host.len() == 0 || host[0] != '[',
        !tail.contains(':'),
    ensures
        host_port_of(host + seq![':'] + tail, default_port) == (host, port_or(tail, default_port)),
{
    let s = host + seq![':'] + tail;
    let n = host.len() as int;
    s.index_of_last_ensures(':');
    assert(s[n] == ':');
    assert(s.contains(':'));
    let i = s.index_of_last(':')->0;
    if n < i {
        assert(tail[i - n - 1] == ':');
    }
    if i < n {
        assert(s[n] != ':');
    }
    assert(s[0] != '[');
    assert(s.take(n) =~= host);
    assert(s.skip(n + 1) =~= tail);
}

proof fn lemma_bracket(host: Seq<char>, rest: Seq<char>)
    requires
        !host.contains(']'),
    ensures
        ({
            let s = seq!['['] + host + seq![']'] + rest;
            s.contains(']') && s.index_of_first(']') == Some(host.len() as int + 1)
        }),
{
    let s = seq!['['] + host + seq![']'] + rest;
    let n = host.len() as int + 1;
    s.index_of_first_ensures(']');
    assert(s[n] == ']');
    assert(s.contains(']'));
    let i = s.index_of_first(']')->0;
    if 0 < i < n {
        assert(host[i - 1] == ']');
    }
    if n < i {
        assert(s[n] != ']');
    }
}

/// The least index whose pattern matches decides, wherever it stands; there is
/// no route only where no pattern matches.
pub proof fn least_matching_route_decides(
    routes: Seq<(Seq<char>, Seq<char>)>,
    hostname: Seq<char>,
    i: int,
)
    ensures
        0 <= i < routes.len() && pattern::regex_matches(routes[i].0, hostname) && (forall|j: int|
            0 <= j < i ==> !pattern::regex_matches((#[trigger] routes[j]).0, hostname))
            ==> first_route(routes, hostname) == Some(routes[i].1),
        first_route(routes, hostname) is None <==> forall|j: int|
            0 <= j < routes.len() ==> !pattern::regex_matches((#[trigger] routes[j]).0, hostname),
    decreases routes.len(),
{
    if routes.len() > 0 {
        let rest = routes.drop_first();
        assert(forall|j: int| 0 <= j < rest.len() ==> #[trigger] rest[j] == routes[j + 1]);
        assert(forall|j: int| 0 < j < routes.len() ==> #[trigger] routes[j] == rest[j - 1]);
        least_matching_route_decides(rest, hostname, i - 1);
    }
}

/// A route sends a connection to its target: to the port that the target names,
/// or to the port that the client asked for where it names none.
pub proof fn route_leads_to_its_target(
    hostname: Seq<char>,
    asked: u16,
    listen_port: u16,
    rules: Option<hosts::HostsRules>,
    routes: Seq<(Seq<char>, Seq<char>)>,
    host: Seq<char>,
    port: u16,
)
    requires
        rules matches Some(r) ==> hosts::looked_up(r, hostname) is None,
        !host.contains(':'),
    ensures
        first_route(routes, hostname) == Some(host) && host != "*"@ ==> destination(
            hostname,
            asked,
            listen_port,
            rules,
            routes,
        ) == (host, asked, false),
        first_route(routes, hostname) == Some(host + seq![':'] + text::decimal(port as nat))
            ==> destination(hostname, asked, listen_port, rules, routes) == (host, port, false),
{
    let digits = text::decimal(port as nat);
    let s = host + seq![':'] + digits;
    let n = host.len() as int;
    host.index_of_first_ensures(':');
    s.index_of_first_ensures(':');
    assert(s[n] == ':');
    assert(s.contains(':'));
    let i = s.index_of_first(':')->0;
    if i < n {
        assert(host[i] == ':');
    }
    if n < i {
        assert(s[n] != ':');
    }
    assert(s.take(n) =~= host);
    assert(s.skip(n + 1) =~= digits);
    text::written_number_is_read_back(port as nat, u16::MAX as int);
    assert(s != "*"@) by {
        reveal_strlit("*");
        assert("*"@.len() == 1);
    }
}

/// A hosts entry sends a connection to its backend: to the port that the backend
/// names, or to the port that the client asked for where it names none.
pub proof fn hosts_entry_leads_to_its_backend(
    hostname: Seq<char>,
    asked: u16,
    listen_port: u16,
    rules: hosts::HostsRules,
    routes: Seq<(Seq<char>, Seq<char>)>,
    host: Seq<char>,
    port: u16,
    address: ip::IpAddress,
)
    requires
        !host.contains(':'),
        !host.contains(']'),
        host.len() == 0 || host[0] != '[',
    ensures
        ({
            let entry = hosts::looked_up(rules, hostname);
            let to = destination(hostname, asked, listen_port, Some(rules), routes);
            &&& entry == Some(hosts::Backend::Hostname(host)) ==> to == (host, asked, true)
            &&& entry == Some(
                hosts::Backend::Hostname(host + seq![':'] + text::decimal(port as nat)),
            ) ==> to == (host, port, true)
            &&& entry == Some(hosts::Backend::Ip(address@)) ==> to.1 == asked && to.2
                && ip::ip_of(to.0) == Some(address@)
        }),
{
    let s = host + seq![':'] + text::decimal(port as nat);
    assert(s[host.len() as int] == ':');
    assert(s.contains(':'));
    written_host_and_port_are_read_back(host, port, Seq::empty(), listen_port);
    ip::written_address_is_read_back(address);
}

/// A listener of a set protocol reads accordingly; any other goes by the first
/// bytes: a ClientHello, as soon as three bytes of its record are there, is read
/// as TLS, and what does not begin like a handshake record as HTTP.
pub proof fn protocol_is_detected(
    proto: Seq<char>,
    minor: u8,
    message: Seq<u8>,
    n: int,
    bytes: Seq<u8>,
)
    requires
        3 <= n <= sni::handshake_record(minor, message).len(),
        bytes.len() == 0 || bytes[0] != 0x16,
    ensures
        proto == "tls"@ ==> kind_by_proto(proto) == Some(ReaderKind::Tls),
        proto == "http"@ ==> kind_by_proto(proto) == Some(ReaderKind::Http),
        proto != "tls"@ && proto != "http"@ ==> kind_by_proto(proto) is None,
        kind_by_bytes(sni::handshake_record(minor, message).take(n)) is Tls,
        kind_by_bytes(bytes) is Http,
{
    reveal_strlit("tls");
    reveal_strlit("http");
    assert("tls"@.len() != "http"@.len());
    let record = sni::handshake_record(minor, message);
    let t = record.take(n);
    assert(t[0] == record[0] && t[1] == record[1]);
}

/// A plan is made for its listener: it is bound where the listener says, reads
/// by the listener's protocol on the port of that address, under the listener's
/// routes.
pub proof fn plan_is_for_its_listener(plan: ListenerPlan, l: config::Listener, address: ip::IpAddress, port: u16)
    requires
        plan.is_for(l),
    ensures
        plan.addr@ == l.addr,
        l.proto matches Some(proto) ==> plan.proto@ == proto,
        l.proto is None ==> plan.proto@ == "tls"@,
        l.name matches Some(name) ==> plan.label@ == name,
        plan.routes@ == l.routes,
        l.addr == ip::socket_text(address@, port) ==> plan.listen_port == port,
{
    ip::written_socket_is_read_back(address, port);
}

/// Bytes that are not UTF-8 say nothing yet: more are read as long as they fit.
pub proof fn unreadable_request_is_read_on(received: Seq<u8>, listen_port: u16)
    requires
        !utf8::valid_utf8(received),
    ensures
        http_reading(received, listen_port) == (if received.len() < 8192 {
            Reading::More(8192 - received.len())
        } else {
            Reading::Fail(ReadError::HeadersTooLarge)
        }),
{
    let none = Seq::<char>::empty();
    lemma_empty_line(none);
    reveal_strlit("CONNECT ");
    reveal_strlit("\r\n\r\n");
    reveal_strlit("\n\n");
    assert(!"CONNECT "@.is_prefix_of(none));
}

/// Each kind of client is read by its own protocol.
pub proof fn clients_are_read_by_their_kind(received: Seq<u8>, listen_port: u16)
    ensures
        reading(ReaderKind::Tls, received, listen_port) == tls_reading(received, listen_port),
        reading(ReaderKind::Http, received, listen_port) == http_reading(received, listen_port),
        ReaderKind::Tls.room() == 16384,
        ReaderKind::Http.room() == 8192,
        closed_early(ReaderKind::Tls) == ReadError::ClosedInHandshake,
        closed_early(ReaderKind::Http) == ReadError::ClosedInHeaders,
{
}

/// A listener can be started exactly where each of its routes compiles and its
/// address is a socket address.
pub proof fn listener_starts_where_it_can(l: config::Listener)
    ensures
        startable(l) <==> (forall|i: int|
            0 <= i < l.routes.len() ==> pattern::regex_compiles(
                (#[trigger] l.routes[i]).0,
                usize::BITS as int,
            )) && ip::socket_of(l.addr) is Some,
{
    if forall|i: int|
        0 <= i < l.routes.len() ==> pattern::regex_compiles(
            (#[trigger] l.routes[i]).0,
            usize::BITS as int,
        ) {
        assert forall|i: int| 0 <= i < l.routes.len() implies route_compiles(
            #[trigger] l.routes[i],
        ) by {}
    }
    if routes_compile(l.routes) {
        assert forall|i: int| 0 <= i < l.routes.len() implies pattern::regex_compiles(
            (#[trigger] l.routes[i]).0,
            usize::BITS as int,
        ) by {
            assert(route_compiles(l.routes[i]));
        }
    }
}

} // verus!
