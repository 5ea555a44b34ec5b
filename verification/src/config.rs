//! Configuration types and rules.
//!
//! The "proxy string" format is `"<type> <host> <port>"`, e.g.
//! `"socks5 127.0.0.1 10808"` or `"http 192.168.1.1 3128"`.

use vstd::prelude::*;
use vstd::slice::slice_subrange;

use crate::hosts;
use crate::hosts::{HostsEntry, HostsError, HostsTable};
use crate::ip;
use crate::text;

verus! {

// ── Byte sizes ───────────────────────────────────────────────────────────────
//
// "100GB", "20MiB", "500MB", a plain integer (bytes), etc.
// SI: KB=1000, MB=1e6, GB=1e9, TB=1e12
// IEC: KiB=1024, MiB=2^20, GiB=2^30, TiB=2^40

/// A quantity of bytes.
#[derive(Debug, Clone, Copy, PartialEq, Eq, Structural)]
pub struct ByteSize(pub u64);

/// Why a text gives no whole number of bytes.
#[derive(Debug, Clone, PartialEq)]
pub enum ByteSizeError {
    /// A number before a unit that is not written in digits alone, or too large
    /// to be exact: it is to be read as a decimal fraction and multiplied.
    NotWhole {
        /// What stands before the unit
        number: String,
        /// The unit
        suffix: String,
        /// Bytes in one unit
        factor: u64,
    },
    /// Neither a unit at the end nor an integer
    Unreadable { text: String },
}

/// What a text says of a byte size.
pub enum SizeReading {
    Bytes(int),
    NotWhole { number: Seq<char>, suffix: Seq<char>, factor: int },
    Unreadable { text: Seq<char> },
}

/// The unit at the end of `s`, in any case, and the bytes in it. Longer units
/// come before those that they end with.
pub open spec fn unit_of(s: Seq<char>) -> Option<(Seq<char>, int)> {
    if text::ends_ignoring_case(s, "TiB"@) {
        Some(("TiB"@, 1_099_511_627_776))
    } else if text::ends_ignoring_case(s, "GiB"@) {
        Some(("GiB"@, 1_073_741_824))
    } else if text::ends_ignoring_case(s, "MiB"@) {
        Some(("MiB"@, 1_048_576))
    } else if text::ends_ignoring_case(s, "KiB"@) {
        Some(("KiB"@, 1_024))
    } else if text::ends_ignoring_case(s, "TB"@) {
        Some(("TB"@, 1_000_000_000_000))
    } else if text::ends_ignoring_case(s, "GB"@) {
        Some(("GB"@, 1_000_000_000))
    } else if text::ends_ignoring_case(s, "MB"@) {
        Some(("MB"@, 1_000_000))
    } else if text::ends_ignoring_case(s, "KB"@) {
        Some(("KB"@, 1_000))
    } else if text::ends_ignoring_case(s, "B"@) {
        Some(("B"@, 1))
    } else {
        None
    }
}

/// Up to here a whole number of bytes is exact.
pub const LARGEST_EXACT: u64 = 9_007_199_254_740_992;

/// What `s` says of a byte size, white space around it and before the unit
/// aside.
pub open spec fn size_of(s: Seq<char>) -> SizeReading {
    let t = text::trimmed(s);
    match unit_of(t) {
        Some((suffix, factor)) => {
            let number = text::trimmed(t.take(t.len() - suffix.len()));
            if text::all_digits(number) && text::decimal_value(number) * factor
                <= LARGEST_EXACT {
                SizeReading::Bytes(text::decimal_value(number) * factor)
            } else {
                SizeReading::NotWhole { number, suffix, factor }
            }
        },
        None => match text::unsigned_of(t, u64::MAX as int) {
            Some(n) => SizeReading::Bytes(n),
            None => SizeReading::Unreadable { text: t },
        },
    }
}

impl ByteSizeError {
    /// The error says the same as `reading`.
    pub open spec fn says(self, reading: SizeReading) -> bool {
        match self {
            ByteSizeError::NotWhole { number, suffix, factor } => reading
                == (SizeReading::NotWhole {
                number: number@,
                suffix: suffix@,
                factor: factor as int,
            }),
            ByteSizeError::Unreadable { text } => reading == (SizeReading::Unreadable {
                text: text@,
            }),
        }
    }
}

fn find_unit(s: &[char]) -> (r: Option<(&'static str, u64)>)
    ensures
        unit_of(s@) == (match r {
            Some((suffix, factor)) => Some((suffix@, factor as int)),
            None => None,
        }),
        r matches Some((suffix, factor)) ==> suffix@.len() <= s@.len() && factor > 0,
{
    if text::ends_with_ignoring_case(s, "TiB") {
        Some(("TiB", 1_099_511_627_776))
    } else if text::ends_with_ignoring_case(s, "GiB") {
        Some(("GiB", 1_073_741_824))
    } else if text::ends_with_ignoring_case(s, "MiB") {
        Some(("MiB", 1_048_576))
    } else if text::ends_with_ignoring_case(s, "KiB") {
        Some(("KiB", 1_024))
    } else if text::ends_with_ignoring_case(s, "TB") {
        Some(("TB", 1_000_000_000_000))
    } else if text::ends_with_ignoring_case(s, "GB") {
        Some(("GB", 1_000_000_000))
    } else if text::ends_with_ignoring_case(s, "MB") {
        Some(("MB", 1_000_000))
    } else if text::ends_with_ignoring_case(s, "KB") {
        Some(("KB", 1_000))
    } else if text::ends_with_ignoring_case(s, "B") {
        Some(("B", 1))
    } else {
        None
    }
}

/// Reads a byte size.
pub fn parse_byte_size(s: &str) -> (r: Result<u64, ByteSizeError>)
    ensures
        match r {
            Ok(n) => size_of(s@) == SizeReading::Bytes(n as int),
            Err(e) => e.says(size_of(s@)),
        },
{
    let chars: Vec<char> = text::chars_of(s);
    let t: &[char] = text::trim(chars.as_slice());
    match find_unit(t) {
        Some((suffix, factor)) => {
            let suffix_chars: Vec<char> = text::chars_of(suffix);
            let before: &[char] = slice_subrange(t, 0, t.len() - suffix_chars.len());
            assert(before@ == t@.take(t@.len() - suffix@.len()));
            let number: &[char] = text::trim(before);
            let limit: u64 = LARGEST_EXACT / factor;
            match text::parse_digits(number, limit) {
                Some(n) => {
                    proof {
                        let v = n as int;
                        let f = factor as int;
                        let max = LARGEST_EXACT as int;
                        assert(v * f <= max) by (nonlinear_arith)
                            requires
                                0 <= v <= max / f,
                                f > 0,
                                max >= 0,
                        ;
                    }
                    Ok(n * factor)
                },
                None => {
                    proof {
                        let v = text::decimal_value(number@);
                        let f = factor as int;
                        let max = LARGEST_EXACT as int;
                        if text::all_digits(number@) {
                            assert(v * f > max) by (nonlinear_arith)
                                requires
                                    v > max / f,
                                    f > 0,
                                    max >= 0,
                            ;
                        }
                    }
                    Err(
                        ByteSizeError::NotWhole {
                            number: text::string_of(number),
                            suffix: suffix.to_owned(),
                            factor,
                        },
                    )
                },
            }
        },
        None => match text::parse_u64(t) {
            Some(n) => Ok(n),
            None => Err(ByteSizeError::Unreadable { text: text::string_of(t) }),
        },
    }
}

/// A unit means the same in upper and in lower case.
pub proof fn unit_case_does_not_matter(a: Seq<char>, b: Seq<char>)
    requires
        text::equal_ignoring_case(a, b),
    ensures
        unit_of(a) == unit_of(b),
{
    let la = text::ascii_lowercase(a);
    let lb = text::ascii_lowercase(b);
    assert(la.len() == a.len() && lb.len() == b.len());
    assert forall|suffix: Seq<char>| #[trigger]
        text::ends_ignoring_case(a, suffix) == text::ends_ignoring_case(b, suffix) by {
        if a.len() >= suffix.len() {
            let n = a.len() - suffix.len();
            assert(text::ascii_lowercase(a.skip(n)) =~= la.skip(n));
            assert(text::ascii_lowercase(b.skip(n)) =~= lb.skip(n));
        }
    }
}

// ── Per-domain limits ────────────────────────────────────────────────────────

/// Limits for a single domain, applied per UTC calendar day.
/// Both fields are optional: omit to leave that dimension unlimited.
#[derive(Debug, Clone, Copy)]
pub struct DomainLimitConfig {
    /// Maximum bytes (upload + download combined) per calendar day (UTC).
    /// Accepts "100GB", "20MiB", or a raw integer (bytes).
    pub daily_bandwidth: Option<ByteSize>,
    /// Maximum new connections per calendar day (UTC).
    pub daily_connections: Option<u64>,
}

impl Default for DomainLimitConfig {
    fn default() -> (r: Self)
        ensures
            r.daily_bandwidth is None,
            r.daily_connections is None,
    {
        DomainLimitConfig { daily_bandwidth: None, daily_connections: None }
    }
}

// ── Upstream proxy ───────────────────────────────────────────────────────────

/// How connections leave.
#[derive(Debug, Clone, PartialEq)]
pub enum UpstreamProxy {
    /// SOCKS5 upstream (e.g. v2ray / xray inbound)
    Socks5 {
        host: String,
        port: u16,
        /// Optional SOCKS5 username
        username: Option<String>,
        /// Optional SOCKS5 password
        password: Option<String>,
    },
    /// HTTP CONNECT upstream (Squid-style)
    Http {
        host: String,
        port: u16,
        /// Optional Proxy-Authorization header value (base64 user:pass)
        auth: Option<String>,
    },
    /// No upstream: direct connection (for testing / local use)
    Direct,
}

/// What an [`UpstreamProxy`] says.
pub enum Upstream {
    Socks5 {
        host: Seq<char>,
        port: u16,
        username: Option<Seq<char>>,
        password: Option<Seq<char>>,
    },
    Http { host: Seq<char>, port: u16, auth: Option<Seq<char>> },
    Direct,
}

impl View for UpstreamProxy {
    type V = Upstream;

    open spec fn view(&self) -> Upstream {
        match self {
            UpstreamProxy::Socks5 { host, port, username, password } => Upstream::Socks5 {
                host: host@,
                port: *port,
                username: text::opt(*username),
                password: text::opt(*password),
            },
            UpstreamProxy::Http { host, port, auth } => Upstream::Http {
                host: host@,
                port: *port,
                auth: text::opt(*auth),
            },
            UpstreamProxy::Direct => Upstream::Direct,
        }
    }
}

impl Upstream {
    /// Host and port of the proxy.
    pub open spec fn host_port(self) -> Option<(Seq<char>, u16)> {
        match self {
            Upstream::Socks5 { host, port, .. } => Some((host, port)),
            Upstream::Http { host, port, .. } => Some((host, port)),
            Upstream::Direct => None,
        }
    }

    /// The same proxy on another host.
    pub open spec fn on_host(self, new_host: Seq<char>) -> Upstream {
        match self {
            Upstream::Socks5 { host, port, username, password } => Upstream::Socks5 {
                host: new_host,
                port,
                username,
                password,
            },
            Upstream::Http { host, port, auth } => Upstream::Http { host: new_host, port, auth },
            Upstream::Direct => Upstream::Direct,
        }
    }

    /// The proxy as it is printed; credentials are left out.
    pub open spec fn text(self) -> Seq<char> {
        match self {
            Upstream::Socks5 { host, port, .. } => "socks5 "@ + host + ":"@ + text::decimal(
                port as nat,
            ),
            Upstream::Http { host, port, .. } => "http "@ + host + ":"@ + text::decimal(
                port as nat,
            ),
            Upstream::Direct => "direct"@,
        }
    }
}

impl UpstreamProxy {
    /// Host and port of the proxy; none for a direct connection.
    pub fn host_port(&self) -> (r: Option<(&str, u16)>)
        ensures
            self@.host_port() == (match r {
                Some((host, port)) => Some((host@, port)),
                None => None,
            }),
    {
        match self {
            UpstreamProxy::Socks5 { host, port, .. } => Some((host.as_str(), *port)),
            UpstreamProxy::Http { host, port, .. } => Some((host.as_str(), *port)),
            UpstreamProxy::Direct => None,
        }
    }

    /// The proxy as it is printed.
    pub fn to_text(&self) -> (r: String)
        ensures
            r@ == self@.text(),
    {
        match self {
            UpstreamProxy::Socks5 { host, port, .. } => named_address("socks5 ", host, *port),
            UpstreamProxy::Http { host, port, .. } => named_address("http ", host, *port),
            UpstreamProxy::Direct => "direct".to_owned(),
        }
    }
}

fn named_address(name: &str, host: &String, port: u16) -> (r: String)
    ensures
        r@ == name@ + host@ + ":"@ + text::decimal(port as nat),
{
    let mut out: String = name.to_owned();
    text::push_text(&mut out, host.as_str());
    text::push_text(&mut out, ":");
    text::push_decimal(&mut out, port as u64);
    out
}

impl Default for UpstreamProxy {
    fn default() -> (r: Self)
        ensures
            r@ == (Upstream::Socks5 {
                host: "127.0.0.1"@,
                port: 1080,
                username: None,
                password: None,
            }),
    {
        UpstreamProxy::Socks5 {
            host: "127.0.0.1".to_owned(),
            port: 1080,
            username: None,
            password: None,
        }
    }
}

/// Why a proxy string is refused.
#[derive(Debug, Clone, PartialEq)]
pub enum ProxyStringError {
    /// Fewer than three words
    TooShort { text: String },
    /// The third word is no port
    BadPort { port: String },
    /// The first word, in lower case, is no kind of proxy
    UnknownType { kind: String },
}

impl ProxyStringError {
    /// The error as it is printed.
    pub open spec fn text(self) -> Seq<char> {
        match self {
            ProxyStringError::TooShort { text } => "Invalid proxy string '"@ + text@
                + "'. Expected: '<type> <host> <port>'"@,
            ProxyStringError::BadPort { port } => "Invalid port in proxy string: '"@ + port@
                + "'"@,
            ProxyStringError::UnknownType { kind } => "Unknown proxy type '"@ + kind@
                + "'. Expected socks5 or http"@,
        }
    }

    /// The error as it is printed.
    pub fn message(&self) -> (r: String)
        ensures
            r@ == self.text(),
    {
        match self {
            ProxyStringError::TooShort { text } => quoted(
                "Invalid proxy string '",
                text.as_str(),
                "'. Expected: '<type> <host> <port>'",
            ),
            ProxyStringError::BadPort { port } => quoted(
                "Invalid port in proxy string: '",
                port.as_str(),
                "'",
            ),
            ProxyStringError::UnknownType { kind } => quoted(
                "Unknown proxy type '",
                kind.as_str(),
                "'. Expected socks5 or http",
            ),
        }
    }
}

fn quoted(before: &str, inner: &str, after: &str) -> (r: String)
    ensures
        r@ == before@ + inner@ + after@,
{
    let mut out: String = before.to_owned();
    text::push_text(&mut out, inner);
    text::push_text(&mut out, after);
    out
}

/// What a proxy string says: an error carries the text that is at fault.
pub enum ProxyReading {
    Proxy(Upstream),
    TooShort(Seq<char>),
    BadPort(Seq<char>),
    UnknownType(Seq<char>),
}

/// A word where there is one.
pub open spec fn word_at(words: Seq<Seq<char>>, i: int) -> Option<Seq<char>> {
    if 0 <= i < words.len() {
        Some(words[i])
    } else {
        None
    }
}

/// What the words of a proxy string say: nothing or `direct`, else a kind, a
/// host and a port, and for SOCKS5 a username and a password.
pub open spec fn proxy_of(s: Seq<char>) -> ProxyReading {
    let words = text::words(s);
    if words.len() == 0 || text::equal_ignoring_case(words[0], "direct"@) {
        ProxyReading::Proxy(Upstream::Direct)
    } else if words.len() < 3 {
        ProxyReading::TooShort(s)
    } else {
        match text::unsigned_of(words[2], u16::MAX as int) {
            None => ProxyReading::BadPort(words[2]),
            Some(port) => {
                let kind = text::lowercase(words[0]);
                if kind == "socks5"@ || kind == "socks5h"@ {
                    ProxyReading::Proxy(
                        Upstream::Socks5 {
                            host: words[1],
                            port: port as u16,
                            username: word_at(words, 3),
                            password: word_at(words, 4),
                        },
                    )
                } else if kind == "http"@ || kind == "https"@ {
                    ProxyReading::Proxy(
                        Upstream::Http { host: words[1], port: port as u16, auth: None },
                    )
                } else {
                    ProxyReading::UnknownType(kind)
                }
            },
        }
    }
}

fn word_string(words: &Vec<Vec<char>>, i: usize) -> (r: Option<String>)
    ensures
        text::opt(r) == word_at(text::views(words@), i as int),
{
    if i < words.len() {
        Some(text::string_of(words[i].as_slice()))
    } else {
        None
    }
}

/// Parse "socks5 host port" or "http host port" strings (proxychains format)
pub fn parse_proxy_string(s: &str) -> (r: Result<UpstreamProxy, ProxyStringError>)
    ensures
        proxy_of(s@) == (match r {
            Ok(proxy) => ProxyReading::Proxy(proxy@),
            Err(ProxyStringError::TooShort { text }) => ProxyReading::TooShort(text@),
            Err(ProxyStringError::BadPort { port }) => ProxyReading::BadPort(port@),
            Err(ProxyStringError::UnknownType { kind }) => ProxyReading::UnknownType(kind@),
        }),
{
    let chars: Vec<char> = text::chars_of(s);
    let words: Vec<Vec<char>> = text::split_whitespace(chars.as_slice());
    let ghost views = text::views(words@);
    if words.len() == 0 {
        return Ok(UpstreamProxy::Direct);
    }
    assert(views[0] == words@[0]@);
    if text::same_ignoring_case(words[0].as_slice(), "direct") {
        return Ok(UpstreamProxy::Direct);
    }
    if words.len() < 3 {
        return Err(ProxyStringError::TooShort { text: s.to_owned() });
    }
    assert(views[1] == words@[1]@ && views[2] == words@[2]@);
    let host: String = text::string_of(words[1].as_slice());
    let port: u16 = match text::parse_u16(words[2].as_slice()) {
        Some(port) => port,
        None => {
            return Err(ProxyStringError::BadPort { port: text::string_of(words[2].as_slice()) });
        },
    };
    let kind: String = text::string_of(words[0].as_slice()).to_lowercase();
    if text::same_text(kind.as_str(), "socks5") || text::same_text(kind.as_str(), "socks5h") {
        let username: Option<String> = word_string(&words, 3);
        let password: Option<String> = word_string(&words, 4);
        return Ok(UpstreamProxy::Socks5 { host, port, username, password });
    }
    if text::same_text(kind.as_str(), "http") || text::same_text(kind.as_str(), "https") {
        return Ok(UpstreamProxy::Http { host, port, auth: None });
    }
    Err(ProxyStringError::UnknownType { kind })
}

// ── Routing table entry ──────────────────────────────────────────────────────

/// One route of a listener.
#[derive(Debug, Clone)]
pub struct RouteEntry {
    /// Regex pattern matched against the SNI/Host. Use ".*" for wildcard.
    pub pattern: String,
    /// Target address.  "*" means "same host, same port".
    pub target: String,
}

/// The target of a route that names none.
pub fn default_target() -> (r: String)
    ensures
        r@ == "*"@,
{
    "*".to_owned()
}

/// The routes as text: pattern and target.
pub open spec fn route_views(routes: Seq<RouteEntry>) -> Seq<(Seq<char>, Seq<char>)> {
    routes.map_values(|r: RouteEntry| (r.pattern@, r.target@))
}

/// The routes of a listener that names none: everything goes where it asked to.
pub fn default_routes() -> (r: Vec<RouteEntry>)
    ensures
        route_views(r@) == seq![(".*"@, "*"@)],
{
    let mut routes: Vec<RouteEntry> = Vec::new();
    routes.push(RouteEntry { pattern: ".*".to_owned(), target: "*".to_owned() });
    assert(route_views(routes@) =~= seq![(".*"@, "*"@)]);
    routes
}

// ── Listener configuration ───────────────────────────────────────────────────

/// One listen socket.
#[derive(Debug, Clone)]
pub struct ListenerConfig {
    /// Optional label for logs (e.g. "public-https").
    pub name: Option<String>,
    /// Bind address, e.g. "0.0.0.0:443"
    pub addr: String,
    /// Protocol: "tls" (SNI-based) or "http" (Host-header based).
    /// If omitted, inferred from the port (80/8080 → http, otherwise tls).
    pub proto: Option<String>,
    /// Routing table for this listener, for a proxy without a hosts table
    pub routes: Vec<RouteEntry>,
}

/// What a [`ListenerConfig`] says.
pub struct Listener {
    pub name: Option<Seq<char>>,
    pub addr: Seq<char>,
    pub proto: Option<Seq<char>>,
    pub routes: Seq<(Seq<char>, Seq<char>)>,
}

impl View for ListenerConfig {
    type V = Listener;

    open spec fn view(&self) -> Listener {
        Listener {
            name: text::opt(self.name),
            addr: self.addr@,
            proto: text::opt(self.proto),
            routes: route_views(self.routes@),
        }
    }
}

/// Why a listener is refused.
#[derive(Debug, Clone, PartialEq)]
pub enum ListenerError {
    /// The protocol is neither "tls" nor "http"
    BadProto { proto: String },
    /// The bind address is no socket address
    BadAddr { addr: String },
}

impl ListenerError {
    /// The error as it is printed.
    pub open spec fn text(self) -> Seq<char> {
        match self {
            ListenerError::BadProto { proto } => "proto must be 'tls' or 'http', got '"@ + proto@
                + "'"@,
            ListenerError::BadAddr { addr } => "invalid listen addr '"@ + addr@ + "'"@,
        }
    }

    /// The error as it is printed.
    pub fn message(&self) -> (r: String)
        ensures
            r@ == self.text(),
    {
        match self {
            ListenerError::BadProto { proto } => quoted(
                "proto must be 'tls' or 'http', got '",
                proto.as_str(),
                "'",
            ),
            ListenerError::BadAddr { addr } => quoted("invalid listen addr '", addr.as_str(), "'"),
        }
    }
}

impl Listener {
    /// The protocol; TLS where none is set.
    pub open spec fn proto_text(self) -> Seq<char> {
        match self.proto {
            Some(proto) => proto,
            None => "tls"@,
        }
    }

    /// The name, or protocol and address where there is none.
    pub open spec fn label_text(self) -> Seq<char> {
        match self.name {
            Some(name) => name,
            None => self.proto_text() + "@"@ + self.addr,
        }
    }

    /// The port of the bind address.
    pub open spec fn port(self) -> Option<int> {
        match ip::socket_of(self.addr) {
            Some((_, port)) => Some(port),
            None => None,
        }
    }

    /// The protocol that the listener ends up with: the one that is set, in
    /// lower case, if it is one of the two, else by the port.
    pub open spec fn final_proto(self) -> Option<Seq<char>> {
        match self.proto {
            Some(proto) => {
                let lower = text::lowercase(proto);
                if lower == "tls"@ || lower == "http"@ {
                    Some(lower)
                } else {
                    None
                }
            },
            None => match self.port() {
                Some(port) => Some(
                    if port == 80 || port == 8080 {
                        "http"@
                    } else {
                        "tls"@
                    },
                ),
                None => None,
            },
        }
    }

    /// The listener with its final protocol.
    pub open spec fn normalized(self) -> Listener {
        Listener {
            name: self.name,
            addr: self.addr,
            proto: self.final_proto(),
            routes: self.routes,
        }
    }

    /// `e` is why the listener has no final protocol.
    pub open spec fn refused_for(self, e: ListenerError) -> bool {
        match e {
            ListenerError::BadProto { proto } => self.proto == Some(proto@),
            ListenerError::BadAddr { addr } => self.proto is None && addr@ == self.addr,
        }
    }
}

impl ListenerConfig {
    /// Stable id for log lines.
    pub fn label(&self) -> (r: String)
        ensures
            r@ == self@.label_text(),
    {
        match &self.name {
            Some(name) => name.clone(),
            None => quoted(self.proto_str(), "@", self.addr.as_str()),
        }
    }

    /// The protocol; TLS where none is set.
    pub fn proto_str(&self) -> (r: &str)
        ensures
            r@ == self@.proto_text(),
    {
        match &self.proto {
            Some(proto) => proto.as_str(),
            None => "tls",
        }
    }

    /// The protocol is TLS.
    pub fn is_tls(&self) -> (r: bool)
        ensures
            r == (self@.proto_text() == "tls"@),
    {
        text::same_text(self.proto_str(), "tls")
    }

    /// The protocol is plain HTTP.
    pub fn is_http(&self) -> (r: bool)
        ensures
            r == (self@.proto_text() == "http"@),
    {
        text::same_text(self.proto_str(), "http")
    }

    /// Port this listener is bound to (used as the default upstream port for `target: "*"`).
    pub fn listen_port(&self) -> (r: Result<u16, ListenerError>)
        ensures
            match r {
                Ok(port) => self@.port() == Some(port as int),
                Err(e) => self@.port() is None && (e matches ListenerError::BadAddr { addr }
                    && addr@ == self@.addr),
            },
    {
        let chars: Vec<char> = text::chars_of(self.addr.as_str());
        match ip::parse_socket_addr(chars.as_slice()) {
            Some(address) => Ok(address.port),
            None => Err(ListenerError::BadAddr { addr: self.addr.clone() }),
        }
    }

    /// Normalize and infer `proto` from the bind port when not set explicitly.
    pub fn normalize_proto(&mut self) -> (r: Result<(), ListenerError>)
        ensures
            r is Ok <==> old(self)@.final_proto() is Some,
            r is Ok ==> final(self)@ == old(self)@.normalized(),
            r matches Err(e) ==> final(self)@ == old(self)@ && old(self)@.refused_for(e),
    {
        let proto: String = match &self.proto {
            Some(proto) => {
                let lower: String = proto.to_lowercase();
                if !text::same_text(lower.as_str(), "tls") && !text::same_text(
                    lower.as_str(),
                    "http",
                ) {
                    return Err(ListenerError::BadProto { proto: proto.clone() });
                }
                lower
            },
            None => match self.listen_port() {
                Ok(port) => if port == 80 || port == 8080 {
                    "http".to_owned()
                } else {
                    "tls".to_owned()
                },
                Err(e) => {
                    return Err(e);
                },
            },
        };
        self.proto = Some(proto);
        Ok(())
    }
}

/// The listeners of a configuration that names none: HTTPS and HTTP on their
/// usual ports.
pub open spec fn default_listener_views() -> Seq<Listener> {
    seq![
        Listener {
            name: Some("https"@),
            addr: "0.0.0.0:443"@,
            proto: Some("tls"@),
            routes: seq![(".*"@, "*"@)],
        },
        Listener {
            name: Some("http"@),
            addr: "0.0.0.0:80"@,
            proto: Some("http"@),
            routes: seq![(".*"@, "*"@)],
        },
    ]
}

/// The listeners by what they say.
pub open spec fn listener_views(listeners: Seq<ListenerConfig>) -> Seq<Listener> {
    listeners.map_values(|l: ListenerConfig| l@)
}

/// The listeners of a configuration that names none.
pub fn default_listeners() -> (r: Vec<ListenerConfig>)
    ensures
        listener_views(r@) == default_listener_views(),
{
    let mut listeners: Vec<ListenerConfig> = Vec::new();
    listeners.push(
        ListenerConfig {
            name: Some("https".to_owned()),
            addr: "0.0.0.0:443".to_owned(),
            proto: Some("tls".to_owned()),
            routes: default_routes(),
        },
    );
    listeners.push(
        ListenerConfig {
            name: Some("http".to_owned()),
            addr: "0.0.0.0:80".to_owned(),
            proto: Some("http".to_owned()),
            routes: default_routes(),
        },
    );
    assert(listener_views(listeners@) =~= default_listener_views());
    listeners
}

// ── Root configuration ───────────────────────────────────────────────────────

/// The whole configuration.
#[derive(Debug)]
pub struct AppConfig {
    /// All listen sockets (TLS and HTTP). Preferred over `tls_listen` / `http_listen`.
    pub listens: Vec<ListenerConfig>,
    /// Legacy: TLS (HTTPS) listeners (merged into `listens` when `listens` is empty).
    pub tls_listen: Vec<ListenerConfig>,
    /// Legacy: plain HTTP listeners (merged into `listens` when `listens` is empty).
    pub http_listen: Vec<ListenerConfig>,
    /// Upstream proxy to tunnel traffic through
    pub upstream_proxy: UpstreamProxy,
    /// Connection timeout to upstream proxy (seconds)
    pub connect_timeout_secs: u64,
    /// Per-connection read/write timeout (seconds)
    pub rw_timeout_secs: u64,
    /// Worker thread count. 0 = number of logical CPUs.
    pub workers: usize,
    /// Optional Prometheus metrics endpoint, e.g. "0.0.0.0:9090"
    pub metrics_addr: Option<String>,
    /// Append logs to this path (stdout logging remains enabled).
    /// Overridden by `--log-file` or the `LOG_FILE` environment variable.
    pub log_file: Option<String>,
    /// How often to rebuild the /metrics snapshot in the background (seconds).
    pub metrics_refresh_secs: u64,
    /// Maximum concurrent proxy sessions (each uses ~2 TCP sockets). Capped at startup
    /// from the process open-file limit; see `nofile_limit`.
    pub max_connections: usize,
    /// Try to raise RLIMIT_NOFILE (soft limit) to this value at startup. Set to 0 to skip.
    pub nofile_limit: u64,
    /// TCP listen backlog per listener (`listen(2)`).
    pub listen_backlog: u32,
    /// Static hostname → IP map. Where there is one, it is an allowlist: only
    /// hostnames that it lists are relayed, and per-listener routes are ignored.
    pub hosts: Vec<HostsEntry>,
    /// Compiled hosts table (filled by [`AppConfig::finalize`]).
    pub hosts_table: Option<HostsTable>,
    /// Per-domain daily bandwidth and connection limits.
    /// Keys match the exact SNI/Host or any subdomain (case-insensitive).
    pub domain_limits: Vec<(String, DomainLimitConfig)>,
    /// Persist daily limit counters to this JSON file (survives restarts).
    /// When `domain_limits` is set and this is omitted, defaults to
    /// `/var/lib/snirelay/domain_limits.json`.
    pub domain_limits_state_file: Option<String>,
    /// How often to flush limit counters to disk (seconds).
    pub domain_limits_persist_secs: u64,
}

/// Seconds to wait for the upstream proxy where nothing is set.
pub fn default_connect_timeout() -> (r: u64)
    ensures
        r == 10,
{
    10
}

/// Read/write timeout in seconds where nothing is set.
pub fn default_rw_timeout() -> (r: u64)
    ensures
        r == 300,
{
    300
}

/// Concurrent sessions where nothing is set.
pub fn default_max_conn() -> (r: usize)
    ensures
        r == 50_000,
{
    50_000
}

/// Open-file limit to ask for where nothing is set.
pub fn default_nofile_limit() -> (r: u64)
    ensures
        r == 1_048_576,
{
    1_048_576
}

/// Listen backlog where nothing is set.
pub fn default_listen_backlog() -> (r: u32)
    ensures
        r == 4096,
{
    4096
}

/// Seconds between metrics snapshots where nothing is set.
pub fn default_metrics_refresh_secs() -> (r: u64)
    ensures
        r == 2,
{
    2
}

/// Seconds between flushes of limit counters where nothing is set.
pub fn default_domain_limits_persist_secs() -> (r: u64)
    ensures
        r == 5,
{
    5
}

/// Why a configuration is refused.
#[derive(Debug, Clone, PartialEq)]
pub enum ConfigError {
    /// A listener, by its place in the list
    Listener { index: usize, addr: String, error: ListenerError },
    /// A row of the hosts list
    Hosts { error: HostsError },
}

impl ConfigError {
    /// The error as it is printed, with where it stands.
    pub fn message(&self) -> (r: String)
        ensures
            r@ == (match *self {
                ConfigError::Listener { index, addr, error } => "listens["@ + text::decimal(
                    index as nat,
                ) + "] ("@ + addr@ + "): "@ + error.text(),
                ConfigError::Hosts { error } => "hosts["@ + text::decimal(error.index as nat)
                    + "]: invalid regex '"@ + error.pattern@ + "'"@,
            }),
    {
        match self {
            ConfigError::Listener { index, addr, error } => {
                let mut out: String = "listens[".to_owned();
                text::push_decimal(&mut out, *index as u64);
                text::push_text(&mut out, "] (");
                text::push_text(&mut out, addr.as_str());
                text::push_text(&mut out, "): ");
                text::push_text(&mut out, error.message().as_str());
                out
            },
            ConfigError::Hosts { error } => error.message(),
        }
    }
}

impl AppConfig {
    /// The listeners that count: those in `listens`, else the legacy ones, TLS
    /// before HTTP, else the usual two.
    pub open spec fn effective_listeners(self) -> Seq<Listener> {
        let legacy = listener_views(self.tls_listen@) + listener_views(self.http_listen@);
        if self.listens@.len() > 0 {
            listener_views(self.listens@)
        } else if legacy.len() > 0 {
            legacy
        } else {
            default_listener_views()
        }
    }

    /// Every setting but the listeners and the compiled hosts is the same.
    pub open spec fn same_settings(self, other: AppConfig) -> bool {
        &&& self.upstream_proxy == other.upstream_proxy
        &&& self.same_but_upstream(other)
    }

    /// Every setting but the listeners, the compiled hosts and the upstream
    /// proxy is the same.
    pub open spec fn same_but_upstream(self, other: AppConfig) -> bool {
        &&& self.connect_timeout_secs == other.connect_timeout_secs
        &&& self.rw_timeout_secs == other.rw_timeout_secs
        &&& self.workers == other.workers
        &&& self.metrics_addr == other.metrics_addr
        &&& self.log_file == other.log_file
        &&& self.metrics_refresh_secs == other.metrics_refresh_secs
        &&& self.max_connections == other.max_connections
        &&& self.nofile_limit == other.nofile_limit
        &&& self.listen_backlog == other.listen_backlog
        &&& self.hosts == other.hosts
        &&& self.domain_limits == other.domain_limits
        &&& self.domain_limits_state_file == other.domain_limits_state_file
        &&& self.domain_limits_persist_secs == other.domain_limits_persist_secs
    }

    /// The settings that hold where nothing is configured.
    pub open spec fn is_default(self) -> bool {
        &&& listener_views(self.listens@) == default_listener_views()
        &&& self.tls_listen@.len() == 0
        &&& self.http_listen@.len() == 0
        &&& self.upstream_proxy@ == (Upstream::Socks5 {
            host: "127.0.0.1"@,
            port: 1080,
            username: None,
            password: None,
        })
        &&& self.connect_timeout_secs == 10
        &&& self.rw_timeout_secs == 300
        &&& self.workers == 0
        &&& self.metrics_addr is None
        &&& self.log_file is None
        &&& self.metrics_refresh_secs == 2
        &&& self.max_connections == 50_000
        &&& self.nofile_limit == 1_048_576
        &&& self.listen_backlog == 4096
        &&& self.hosts@.len() == 0
        &&& self.hosts_table is None
        &&& self.domain_limits@.len() == 0
        &&& self.domain_limits_state_file is None
        &&& self.domain_limits_persist_secs == 5
    }

    /// The listeners of `after` are those of `self`, each with its final
    /// protocol, and the legacy lists are used up.
    pub open spec fn listeners_finalized(self, after: AppConfig) -> bool {
        &&& listener_views(after.listens@) == self.effective_listeners().map_values(
            |l: Listener| l.normalized(),
        )
        &&& after.tls_listen@.len() == 0
        &&& after.http_listen@.len() == 0
    }

    /// The listeners of `after` are those of `self`, those before index `n` with
    /// their final protocol, and the legacy lists are used up.
    pub open spec fn listeners_finalized_up_to(self, after: AppConfig, n: int) -> bool {
        let all = self.effective_listeners();
        &&& listener_views(after.listens@) == Seq::new(
            all.len(),
            |i: int|
                if i < n {
                    all[i].normalized()
                } else {
                    all[i]
                },
        )
        &&& after.tls_listen@.len() == 0
        &&& after.http_listen@.len() == 0
    }

    /// Every listener gets a protocol.
    pub open spec fn listeners_accepted(self) -> bool {
        forall|i: int|
            0 <= i < self.effective_listeners().len() ==> (
            #[trigger] self.effective_listeners()[i]).final_proto() is Some
    }

    /// `e` is about the first listener that gets no protocol.
    pub open spec fn listener_refused(self, e: ConfigError) -> bool {
        e matches ConfigError::Listener { index, addr, error } && {
            let all = self.effective_listeners();
            &&& index < all.len()
            &&& all[index as int].final_proto() is None
            &&& forall|i: int| 0 <= i < index ==> (#[trigger] all[i]).final_proto() is Some
            &&& addr@ == all[index as int].addr
            &&& all[index as int].refused_for(error)
        }
    }

    /// Every row of the hosts list compiles.
    pub open spec fn hosts_accepted(self) -> bool {
        forall|i: int|
            0 <= i < self.hosts@.len() ==> hosts::row_compiles((#[trigger] self.hosts@[i]).pattern@)
    }

    /// `e` is about the first row of the hosts list that does not compile.
    pub open spec fn hosts_refused(self, e: ConfigError) -> bool {
        e matches ConfigError::Hosts { error } && {
            &&& error.index < self.hosts@.len()
            &&& !hosts::row_compiles(self.hosts@[error.index as int].pattern@)
            &&& forall|i: int|
                0 <= i < error.index ==> hosts::row_compiles(
                    (#[trigger] self.hosts@[i]).pattern@,
                )
            &&& error.pattern@ == text::trimmed(self.hosts@[error.index as int].pattern@)
        }
    }

    /// The hosts table is the compiled hosts list; none where the list is empty.
    pub open spec fn hosts_compiled(self) -> bool {
        &&& self.hosts_table is Some <==> self.hosts@.len() > 0
        &&& self.hosts_table matches Some(table) ==> table.well_formed() && table@
            == hosts::rules_of(hosts::row_views(self.hosts@))
    }

    /// `after` is this configuration made ready.
    pub open spec fn finalized(self, after: AppConfig) -> bool {
        &&& self.listeners_finalized(after)
        &&& after.hosts_compiled()
        &&& after.same_but_upstream(self)
    }
}

impl Default for AppConfig {
    fn default() -> (r: Self)
        ensures
            r.is_default(),
    {
        AppConfig {
            listens: default_listeners(),
            tls_listen: Vec::new(),
            http_listen: Vec::new(),
            upstream_proxy: UpstreamProxy::default(),
            connect_timeout_secs: default_connect_timeout(),
            rw_timeout_secs: default_rw_timeout(),
            workers: 0,
            metrics_addr: None,
            log_file: None,
            metrics_refresh_secs: default_metrics_refresh_secs(),
            max_connections: default_max_conn(),
            nofile_limit: default_nofile_limit(),
            listen_backlog: default_listen_backlog(),
            hosts: Vec::new(),
            hosts_table: None,
            domain_limits: Vec::new(),
            domain_limits_state_file: None,
            domain_limits_persist_secs: default_domain_limits_persist_secs(),
        }
    }
}

/// What the environment overrides.
pub struct EnvOverrides {
    pub upstream_proxy_override: Option<UpstreamProxy>,
}

/// The proxy that the variable `PROXY` sets, if it sets one that can be read.
pub open spec fn proxy_override(proxy: Option<Seq<char>>) -> Option<Upstream> {
    match proxy {
        Some(s) => match proxy_of(s) {
            ProxyReading::Proxy(upstream) => Some(upstream),
            _ => None,
        },
        None => None,
    }
}

/// What loading gives for the configuration `base`: made ready with the proxy
/// of the environment, or the first thing that is wrong with it.
pub open spec fn loaded(
    base: AppConfig,
    proxy: Option<Seq<char>>,
    result: Result<AppConfig, ConfigError>,
) -> bool {
    match result {
        Ok(cfg) => {
            &&& base.listeners_accepted() && base.hosts_accepted()
            &&& base.finalized(cfg)
            &&& cfg.upstream_proxy@ == (match proxy_override(proxy) {
                Some(upstream) => upstream,
                None => base.upstream_proxy@,
            })
        },
        Err(e) => base.listener_refused(e) || (base.listeners_accepted() && base.hosts_refused(e)),
    }
}

impl AppConfig {
    /// True when the routes of a listener are other than those of a listener that
    /// names none, and are ignored for the hosts table.
    pub fn ignores_routes(&self, listener: &ListenerConfig) -> (r: bool)
        ensures
            r == (self.hosts_table is Some && listener@.routes != seq![(".*"@, "*"@)]),
    {
        let ghost unset = seq![(".*"@, "*"@)];
        if self.hosts_table.is_none() {
            return false;
        }
        if listener.routes.len() != 1 {
            assert(listener@.routes.len() != unset.len());
            return true;
        }
        let named: bool = !text::same_text(listener.routes[0].pattern.as_str(), ".*")
            || !text::same_text(listener.routes[0].target.as_str(), "*");
        proof {
            let routes = listener@.routes;
            assert(routes[0] == (listener.routes@[0].pattern@, listener.routes@[0].target@));
            if !named {
                assert(routes =~= unset);
            } else {
                assert(unset[0] == (".*"@, "*"@));
            }
        }
        named
    }

    /// State file path for domain limit counters, if limits are configured:
    /// the configured one, else that of the variable
    /// `DOMAIN_LIMITS_STATE_FILE`, else the default.
    pub fn domain_limits_state_path(&self, variable: Option<&str>) -> (r: Option<String>)
        ensures
            text::opt(r) == (if self.domain_limits@.len() == 0 {
                None
            } else if self.domain_limits_state_file is Some {
                text::opt(self.domain_limits_state_file)
            } else if variable is Some && variable->0@.len() > 0 {
                Some(variable->0@)
            } else {
                Some("/var/lib/snirelay/domain_limits.json"@)
            }),
    {
        if self.domain_limits.len() == 0 {
            return None;
        }
        if let Some(path) = &self.domain_limits_state_file {
            return Some(path.clone());
        }
        if let Some(path) = variable {
            let chars: Vec<char> = text::chars_of(path);
            if chars.len() > 0 {
                return Some(path.to_owned());
            }
        }
        Some("/var/lib/snirelay/domain_limits.json".to_owned())
    }

    /// Where logs are appended to: the `--log-file` option, else the variable
    /// `LOG_FILE`, else the configured path.
    pub fn log_path(&self, option: Option<&str>, variable: Option<&str>) -> (r: Option<String>)
        ensures
            text::opt(r) == (if option is Some {
                text::opt_str(option)
            } else if variable is Some {
                text::opt_str(variable)
            } else {
                text::opt(self.log_file)
            }),
    {
        if let Some(path) = option {
            return Some(path.to_owned());
        }
        if let Some(path) = variable {
            return Some(path.to_owned());
        }
        match &self.log_file {
            Some(path) => Some(path.clone()),
            None => None,
        }
    }

    /// Reads the variable `PROXY`.
    pub fn from_env(proxy: Option<&str>) -> (r: EnvOverrides)
        ensures
            proxy_override(text::opt_str(proxy)) == (match r.upstream_proxy_override {
                Some(proxy) => Some(proxy@),
                None => None,
            }),
    {
        let upstream_proxy_override: Option<UpstreamProxy> = match proxy {
            Some(s) => match parse_proxy_string(s) {
                Ok(proxy) => Some(proxy),
                Err(_) => None,
            },
            None => None,
        };
        EnvOverrides { upstream_proxy_override }
    }

    /// Makes the configuration of a file ready, or the default one where there
    /// is no file. The variable `PROXY` takes precedence over the file.
    pub fn load(file: Option<AppConfig>, proxy: Option<&str>) -> (r: Result<Self, ConfigError>)
        ensures
            file matches Some(base) ==> loaded(base, text::opt_str(proxy), r),
            file is None ==> exists|base: AppConfig|
                base.is_default() && #[trigger] loaded(base, text::opt_str(proxy), r),
    {
        let from_env: EnvOverrides = AppConfig::from_env(proxy);
        let mut cfg: AppConfig = match file {
            Some(cfg) => cfg,
            None => AppConfig::default(),
        };
        let ghost base = cfg;
        if let Some(proxy) = from_env.upstream_proxy_override {
            cfg.upstream_proxy = proxy;
        }
        let ghost start = cfg;
        assert(start.effective_listeners() == base.effective_listeners());
        match cfg.finalize() {
            Ok(()) => {
                assert(loaded(base, text::opt_str(proxy), Ok(cfg)));
                Ok(cfg)
            },
            Err(e) => {
                assert(loaded(base, text::opt_str(proxy), Err(e)));
                Err(e)
            },
        }
    }

    /// Parse listeners and compile the hosts table.
    pub fn finalize(&mut self) -> (r: Result<(), ConfigError>)
        ensures
            r is Ok <==> old(self).listeners_accepted() && old(self).hosts_accepted(),
            r is Ok ==> old(self).finalized(*final(self)),
            r matches Err(e) ==> old(self).listener_refused(e) || (old(self).listeners_accepted()
                && old(self).hosts_refused(e)),
            r matches Err(ConfigError::Listener { index, .. })
                ==> old(self).listeners_finalized_up_to(*final(self), index as int),
            r matches Err(ConfigError::Hosts { .. }) ==> old(self).listeners_finalized(
                *final(self),
            ),
            r is Err ==> final(self).hosts_table == old(self).hosts_table,
            final(self).same_settings(*old(self)),
    {
        match self.finalize_listeners() {
            Ok(()) => {},
            Err(e) => {
                return Err(e);
            },
        }
        match hosts::compile_hosts_table(self.hosts.as_slice()) {
            Ok(table) => {
                self.hosts_table = table;
                Ok(())
            },
            Err(error) => Err(ConfigError::Hosts { error }),
        }
    }

    /// Build the final listener list from `listens` or legacy `tls_listen` + `http_listen`.
    pub fn finalize_listeners(&mut self) -> (r: Result<(), ConfigError>)
        ensures
            r is Ok <==> old(self).listeners_accepted(),
            r is Ok ==> old(self).listeners_finalized(*final(self)),
            r matches Err(e) ==> old(self).listener_refused(e),
            r matches Err(ConfigError::Listener { index, .. })
                ==> old(self).listeners_finalized_up_to(*final(self), index as int),
            final(self).same_settings(*old(self)),
            final(self).hosts_table == old(self).hosts_table,
    {
        let ghost all = self.effective_listeners();
        if self.listens.len() == 0 {
            self.listens.append(&mut self.tls_listen);
            self.listens.append(&mut self.http_listen);
            assert(listener_views(self.listens@) =~= listener_views(old(self).tls_listen@)
                + listener_views(old(self).http_listen@));
        } else {
            self.tls_listen.clear();
            self.http_listen.clear();
        }
        if self.listens.len() == 0 {
            self.listens = default_listeners();
        }
        assert(listener_views(self.listens@) == all);
        let n: usize = self.listens.len();
        for i in 0..n
            invariant
                n == all.len(),
                self.listens@.len() == n,
                all == old(self).effective_listeners(),
                self.tls_listen@.len() == 0,
                self.http_listen@.len() == 0,
                self.same_settings(*old(self)),
                self.hosts_table == old(self).hosts_table,
                forall|j: int| 0 <= j < i ==> (#[trigger] all[j]).final_proto() is Some,
                forall|j: int|
                    0 <= j < n ==> (#[trigger] self.listens@[j])@ == (if j < i {
                        all[j].normalized()
                    } else {
                        all[j]
                    }),
        {
            match self.listens[i].normalize_proto() {
                Ok(()) => {},
                Err(error) => {
                    let addr: String = self.listens[i].addr.clone();
                    let e: ConfigError = ConfigError::Listener { index: i, addr, error };
                    assert(old(self).listener_refused(e));
                    assert(old(self).listeners_finalized_up_to(*self, i as int)) by {
                        assert(listener_views(self.listens@) =~= Seq::new(
                            all.len(),
                            |j: int|
                                if j < i {
                                    all[j].normalized()
                                } else {
                                    all[j]
                                },
                        ));
                    }
                    return Err(e);
                },
            }
        }
        assert(listener_views(self.listens@) =~= all.map_values(|l: Listener| l.normalized()));
        Ok(())
    }
}

// ── Docker ───────────────────────────────────────────────────────────────────

/// The host is the machine itself.
pub open spec fn is_loopback(host: Seq<char>) -> bool {
    host == "127.0.0.1"@ || host == "localhost"@ || host == "::1"@
}

/// True when the host is the machine itself.
pub fn is_loopback_host(host: &str) -> (r: bool)
    ensures
        r == is_loopback(host@),
{
    text::same_text(host, "127.0.0.1") || text::same_text(host, "localhost") || text::same_text(
        host,
        "::1",
    )
}

/// The gateway lies in an address range of Docker's bridges.
pub open spec fn is_bridge(gateway: Seq<char>) -> bool {
    ||| "172.17."@.is_prefix_of(gateway)
    ||| "172.18."@.is_prefix_of(gateway)
    ||| "172.19."@.is_prefix_of(gateway)
    ||| "172.20."@.is_prefix_of(gateway)
    ||| "172.21."@.is_prefix_of(gateway)
    ||| "172.22."@.is_prefix_of(gateway)
    ||| "192.168.65."@.is_prefix_of(gateway)
}

/// True when the default route points at Docker's bridge (not the host's public gateway).
pub fn is_docker_bridge_gateway(gw: &str) -> (r: bool)
    ensures
        r == is_bridge(gw@),
{
    let chars: Vec<char> = text::chars_of(gw);
    let s: &[char] = chars.as_slice();
    text::starts_with(s, "172.17.") || text::starts_with(s, "172.18.") || text::starts_with(
        s,
        "172.19.",
    ) || text::starts_with(s, "172.20.") || text::starts_with(s, "172.21.") || text::starts_with(
        s,
        "172.22.",
    ) || text::starts_with(s, "192.168.65.")
}

/// The octet that two characters write in hexadecimal; a `+` may stand for the
/// first digit.
pub open spec fn hex_octet(a: char, b: char) -> Option<int> {
    match (ip::hex_digit(a), ip::hex_digit(b)) {
        (Some(high), Some(low)) => Some(16 * high + low),
        (None, Some(low)) => if a == '+' {
            Some(low)
        } else {
            None
        },
        _ => None,
    }
}

/// The IPv4 address that eight hexadecimal digits write, last octet first.
pub open spec fn hex_address(hex: Seq<char>) -> Option<Seq<char>> {
    if hex.len() != 8 {
        None
    } else {
        match (
            hex_octet(hex[6], hex[7]),
            hex_octet(hex[4], hex[5]),
            hex_octet(hex[2], hex[3]),
            hex_octet(hex[0], hex[1]),
        ) {
            (Some(a), Some(b), Some(c), Some(d)) => Some(
                ip::ipv4_text(seq![a as u8, b as u8, c as u8, d as u8]),
            ),
            _ => None,
        }
    }
}

fn parse_hex_octet(a: char, b: char) -> (r: Option<u8>)
    ensures
        hex_octet(a, b) == (match r {
            Some(n) => Some(n as int),
            None => None,
        }),
{
    match (ip::parse_hex_digit(a), ip::parse_hex_digit(b)) {
        (Some(high), Some(low)) => Some((16 * high + low) as u8),
        (None, Some(low)) => if a == '+' {
            Some(low as u8)
        } else {
            None
        },
        _ => None,
    }
}

/// Reads an IPv4 address from a little-endian hex uint32, as `/proc/net/route` has it.
pub fn hex_le_ipv4(hex: &str) -> (r: Option<String>)
    ensures
        text::opt(r) == hex_address(hex@),
{
    let h: Vec<char> = text::chars_of(hex);
    if h.len() != 8 {
        return None;
    }
    match (
        parse_hex_octet(h[6], h[7]),
        parse_hex_octet(h[4], h[5]),
        parse_hex_octet(h[2], h[3]),
        parse_hex_octet(h[0], h[1]),
    ) {
        (Some(a), Some(b), Some(c), Some(d)) => {
            let octets: [u8; 4] = [a, b, c, d];
            assert(octets@ =~= seq![a, b, c, d]);
            Some(ip::IpAddress::V4(octets).to_text())
        },
        _ => None,
    }
}

/// The line of a routing table is a default route.
pub open spec fn is_default_route(line: Seq<char>) -> bool {
    text::words(line).len() >= 3 && text::words(line)[1] == "00000000"@
}

/// The gateway of the first default route among the lines.
pub open spec fn first_gateway(lines: Seq<Seq<char>>) -> Option<Seq<char>>
    decreases lines.len(),
{
    if lines.len() == 0 {
        None
    } else if is_default_route(lines[0]) {
        hex_address(text::words(lines[0])[2])
    } else {
        first_gateway(lines.drop_first())
    }
}

/// The gateway of the first default route in a routing table, its heading aside.
pub open spec fn gateway_of(route: Seq<char>) -> Option<Seq<char>> {
    let lines = text::lines_of(route);
    if lines.len() == 0 {
        None
    } else {
        first_gateway(lines.drop_first())
    }
}

/// Default route gateway from the text of `/proc/net/route` (Docker bridge → host).
pub fn docker_default_gateway(route: &str) -> (r: Option<String>)
    ensures
        text::opt(r) == gateway_of(route@),
{
    let chars: Vec<char> = text::chars_of(route);
    let lines: Vec<Vec<char>> = text::lines(chars.as_slice());
    if lines.len() == 0 {
        return None;
    }
    let ghost all = text::views(lines@);
    assert(all.drop_first() =~= all.skip(1));
    for i in 1..lines.len()
        invariant
            all == text::views(lines@),
            lines@.len() > 0,
            first_gateway(all.skip(i as int)) == gateway_of(route@),
    {
        let ghost rest = all.skip(i as int);
        assert(rest.drop_first() =~= all.skip(i + 1));
        assert(rest[0] == lines@[i as int]@);
        let fields: Vec<Vec<char>> = text::split_whitespace(lines[i].as_slice());
        let ghost words = text::views(fields@);
        if fields.len() >= 3 {
            assert(words[1] == fields@[1]@ && words[2] == fields@[2]@);
            if text::is_text(fields[1].as_slice(), "00000000") {
                return hex_le_ipv4(text::string_of(fields[2].as_slice()).as_str());
            }
        }
    }
    assert(all.skip(lines@.len() as int).len() == 0);
    None
}

/// What became of an upstream proxy on the loopback inside a container.
#[derive(Debug, Clone, PartialEq)]
pub enum GatewayRemap {
    /// Not in a container
    NotInDocker,
    /// Switched off by `HOST_PROXY_GATEWAY=off`
    SwitchedOff,
    /// The host's gateway is not known
    NoGateway,
    /// The gateway is not that of a Docker bridge
    NotBridge { gateway: String },
    /// The proxy is not on the loopback
    NotLoopback,
    /// The proxy moved from `old` to `gateway`
    Remapped { old: String, gateway: String },
}

/// What a [`GatewayRemap`] says.
pub enum Remap {
    NotInDocker,
    SwitchedOff,
    NoGateway,
    NotBridge(Seq<char>),
    NotLoopback,
    Remapped(Seq<char>, Seq<char>),
}

impl View for GatewayRemap {
    type V = Remap;

    open spec fn view(&self) -> Remap {
        match self {
            GatewayRemap::NotInDocker => Remap::NotInDocker,
            GatewayRemap::SwitchedOff => Remap::SwitchedOff,
            GatewayRemap::NoGateway => Remap::NoGateway,
            GatewayRemap::NotBridge { gateway } => Remap::NotBridge(gateway@),
            GatewayRemap::NotLoopback => Remap::NotLoopback,
            GatewayRemap::Remapped { old, gateway } => Remap::Remapped(old@, gateway@),
        }
    }
}

/// The host's gateway: that of the variable `HOST_PROXY_GATEWAY`, else that of
/// the routing table.
pub open spec fn host_gateway(variable: Option<Seq<char>>, route: Option<Seq<char>>) -> Option<
    Seq<char>,
> {
    if variable is Some && variable->0.len() > 0 {
        variable
    } else if route is Some {
        gateway_of(route->0)
    } else {
        None
    }
}

/// What becomes of the upstream proxy.
pub open spec fn remap_of(
    upstream: Upstream,
    in_docker: bool,
    variable: Option<Seq<char>>,
    route: Option<Seq<char>>,
) -> Remap {
    if !in_docker {
        Remap::NotInDocker
    } else if variable is Some && text::equal_ignoring_case(variable->0, "off"@) {
        Remap::SwitchedOff
    } else {
        match host_gateway(variable, route) {
            None => Remap::NoGateway,
            Some(gateway) => if !is_bridge(gateway) {
                Remap::NotBridge(gateway)
            } else {
                match upstream.host_port() {
                    Some((host, _)) => if is_loopback(host) {
                        Remap::Remapped(host, gateway)
                    } else {
                        Remap::NotLoopback
                    },
                    None => Remap::NotLoopback,
                }
            },
        }
    }
}

impl AppConfig {
    /// When running inside Docker, `127.0.0.1` / `localhost` on the upstream proxy
    /// refer to the container, not the host where v2ray/SOCKS usually listens.
    /// Takes whether this is a container, the variable `HOST_PROXY_GATEWAY` and
    /// the text of `/proc/net/route`.
    pub fn remap_docker_loopback_upstream(
        &mut self,
        in_docker: bool,
        variable: Option<&str>,
        route: Option<&str>,
    ) -> (r: GatewayRemap)
        ensures
            r@ == remap_of(
                old(self).upstream_proxy@,
                in_docker,
                text::opt_str(variable),
                text::opt_str(route),
            ),
            final(self).upstream_proxy@ == (match r@ {
                Remap::Remapped(_, gateway) => old(self).upstream_proxy@.on_host(gateway),
                _ => old(self).upstream_proxy@,
            }),
            final(self).same_but_upstream(*old(self)),
            final(self).listens == old(self).listens,
            final(self).tls_listen == old(self).tls_listen,
            final(self).http_listen == old(self).http_listen,
            final(self).hosts_table == old(self).hosts_table,
    {
        if !in_docker {
            return GatewayRemap::NotInDocker;
        }
        let mut gateway: Option<String> = None;
        if let Some(value) = variable {
            let chars: Vec<char> = text::chars_of(value);
            if text::same_ignoring_case(chars.as_slice(), "off") {
                return GatewayRemap::SwitchedOff;
            }
            if chars.len() > 0 {
                gateway = Some(value.to_owned());
            }
        }
        if gateway.is_none() {
            if let Some(table) = route {
                gateway = docker_default_gateway(table);
            }
        }
        let gw: String = match gateway {
            Some(gw) => gw,
            None => {
                return GatewayRemap::NoGateway;
            },
        };
        if !is_docker_bridge_gateway(gw.as_str()) {
            return GatewayRemap::NotBridge { gateway: gw };
        }
        let old_host: String = match self.upstream_proxy.host_port() {
            Some((host, _)) => {
                if !is_loopback_host(host) {
                    return GatewayRemap::NotLoopback;
                }
                host.to_owned()
            },
            None => {
                return GatewayRemap::NotLoopback;
            },
        };
        let gateway: String = gw.clone();
        match &mut self.upstream_proxy {
            UpstreamProxy::Socks5 { host, .. } => {
                *host = gw;
            },
            UpstreamProxy::Http { host, .. } => {
                *host = gw;
            },
            UpstreamProxy::Direct => {},
        }
        GatewayRemap::Remapped { old: old_host, gateway }
    }
}

// ── Laws ─────────────────────────────────────────────────────────────────────

/// Only a loopback proxy behind a Docker bridge moves, and it keeps its port
/// and its credentials.
pub proof fn remap_moves_loopback_only(
    upstream: Upstream,
    in_docker: bool,
    variable: Option<Seq<char>>,
    route: Option<Seq<char>>,
    host: Seq<char>,
    port: u16,
)
    requires
        upstream.host_port() == Some((host, port)),
    ensures
        remap_of(upstream, in_docker, variable, route) matches Remap::Remapped(old_host, gateway)
            ==> {
            &&& in_docker
            &&& is_bridge(gateway)
            &&& old_host == host
            &&& is_loopback(host)
            &&& upstream.on_host(gateway).host_port() == Some((gateway, port))
            &&& upstream.on_host(gateway).on_host(host) == upstream
        },
{
}

/// Listeners that are set win over the legacy lists, whatever those hold.
pub proof fn listens_win_over_legacy(cfg: AppConfig)
    requires
        cfg.listens@.len() > 0,
    ensures
        cfg.effective_listeners() == listener_views(cfg.listens@),
{
}

/// Without `listens`, the legacy TLS listeners come first and the legacy HTTP
/// listeners after them.
pub proof fn legacy_lists_merge(cfg: AppConfig)
    requires
        cfg.listens@.len() == 0,
        cfg.tls_listen@.len() + cfg.http_listen@.len() > 0,
    ensures
        cfg.effective_listeners() == listener_views(cfg.tls_listen@) + listener_views(
            cfg.http_listen@,
        ),
{
}

/// The units of byte sizes: powers of 1024 with an `i`, of 1000 without.
pub open spec fn is_unit(name: Seq<char>, factor: int) -> bool {
    ||| name == seq!['B'] && factor == 1
    ||| name == seq!['K', 'B'] && factor == 1000
    ||| name == seq!['M', 'B'] && factor == 1000 * 1000
    ||| name == seq!['G', 'B'] && factor == 1000 * 1000 * 1000
    ||| name == seq!['T', 'B'] && factor == 1000 * 1000 * 1000 * 1000
    ||| name == seq!['K', 'i', 'B'] && factor == 1024
    ||| name == seq!['M', 'i', 'B'] && factor == 1024 * 1024
    ||| name == seq!['G', 'i', 'B'] && factor == 1024 * 1024 * 1024
    ||| name == seq!['T', 'i', 'B'] && factor == 1024 * 1024 * 1024 * 1024
}

/// `a` and `b` are the same but for the case of an ASCII letter.
spec fn same_letter(a: char, b: char) -> bool {
    a == b || ('A' <= a <= 'Z' && b as int == a as int + 32) || ('a' <= a <= 'z' && b as int
        == a as int - 32)
}

proof fn lemma_ends_three(s: Seq<char>, w: Seq<char>)
    requires
        w.len() == 3,
    ensures
        text::ends_ignoring_case(s, w) <==> s.len() >= 3 && same_letter(s[s.len() - 3], w[0])
            && same_letter(s[s.len() - 2], w[1]) && same_letter(s[s.len() - 1], w[2]),
{
    if s.len() >= 3 {
        let t = s.skip(s.len() - 3);
        text::only_case_is_ignored(t, w);
        assert(t[0] == s[s.len() - 3] && t[1] == s[s.len() - 2] && t[2] == s[s.len() - 1]);
    }
}

proof fn lemma_ends_two(s: Seq<char>, w: Seq<char>)
    requires
        w.len() == 2,
    ensures
        text::ends_ignoring_case(s, w) <==> s.len() >= 2 && same_letter(s[s.len() - 2], w[0])
            && same_letter(s[s.len() - 1], w[1]),
{
    if s.len() >= 2 {
        let t = s.skip(s.len() - 2);
        text::only_case_is_ignored(t, w);
        assert(t[0] == s[s.len() - 2] && t[1] == s[s.len() - 1]);
    }
}

proof fn lemma_ends_one(s: Seq<char>, w: Seq<char>)
    requires
        w.len() == 1,
    ensures
        text::ends_ignoring_case(s, w) <==> s.len() >= 1 && same_letter(s[s.len() - 1], w[0]),
{
    if s.len() >= 1 {
        let t = s.skip(s.len() - 1);
        text::only_case_is_ignored(t, w);
        assert(t[0] == s[s.len() - 1]);
    }
}

/// What the last three characters of a text say of its unit.
spec fn unit_by_end(x: char, y: char, z: char) -> Option<(nat, int)> {
    if !same_letter(z, 'B') {
        None
    } else if same_letter(y, 'i') && same_letter(x, 'T') {
        Some((3, 1_099_511_627_776))
    } else if same_letter(y, 'i') && same_letter(x, 'G') {
        Some((3, 1_073_741_824))
    } else if same_letter(y, 'i') && same_letter(x, 'M') {
        Some((3, 1_048_576))
    } else if same_letter(y, 'i') && same_letter(x, 'K') {
        Some((3, 1_024))
    } else if same_letter(y, 'T') {
        Some((2, 1_000_000_000_000))
    } else if same_letter(y, 'G') {
        Some((2, 1_000_000_000))
    } else if same_letter(y, 'M') {
        Some((2, 1_000_000))
    } else if same_letter(y, 'K') {
        Some((2, 1_000))
    } else {
        Some((1, 1))
    }
}

proof fn lemma_unit_by_end(s: Seq<char>, x: char)
    requires
        s.len() >= 2,
        s.len() >= 3 ==> x == s[s.len() - 3],
        s.len() == 2 ==> !same_letter(s[0], 'i'),
    ensures
        unit_of(s) is Some <==> unit_by_end(x, s[s.len() - 2], s[s.len() - 1]) is Some,
        unit_of(s) matches Some((suffix, f)) ==> unit_by_end(
            x,
            s[s.len() - 2],
            s[s.len() - 1],
        ) == Some((suffix.len(), f)),
{
    reveal_strlit("TiB");
    reveal_strlit("GiB");
    reveal_strlit("MiB");
    reveal_strlit("KiB");
    reveal_strlit("TB");
    reveal_strlit("GB");
    reveal_strlit("MB");
    reveal_strlit("KB");
    reveal_strlit("B");
    lemma_ends_three(s, "TiB"@);
    lemma_ends_three(s, "GiB"@);
    lemma_ends_three(s, "MiB"@);
    lemma_ends_three(s, "KiB"@);
    lemma_ends_two(s, "TB"@);
    lemma_ends_two(s, "GB"@);
    lemma_ends_two(s, "MB"@);
    lemma_ends_two(s, "KB"@);
    lemma_ends_one(s, "B"@);
}

proof fn lemma_unit(before: Seq<char>, unit: Seq<char>, name: Seq<char>, factor: int)
    requires
        is_unit(name, factor),
        text::equal_ignoring_case(unit, name),
        before.len() > 0,
        text::is_digit(before.last()) || text::is_blank(before.last()),
    ensures
        unit.len() == name.len(),
        unit_of(before + unit) matches Some((suffix, f)) && suffix.len() == name.len() && f
            == factor,
        text::is_graphic(unit.last()),
{
    let s = before + unit;
    let n = s.len();
    text::only_case_is_ignored(unit, name);
    assert(unit.len() == name.len());
    assert(unit[unit.len() - 1] == unit.last());
    assert(s[n - 1] == unit.last());
    assert(s[n - unit.len() - 1] == before.last());
    if name.len() == 3 {
        assert(same_letter(unit[0], name[0]) && same_letter(unit[1], name[1]) && same_letter(
            unit[2],
            name[2],
        ));
        assert(s[n - 3] == unit[0] && s[n - 2] == unit[1] && s[n - 1] == unit[2]);
        lemma_unit_by_end(s, s[n - 3]);
    } else if name.len() == 2 {
        assert(same_letter(unit[0], name[0]) && same_letter(unit[1], name[1]));
        assert(s[n - 3] == before.last() && s[n - 2] == unit[0] && s[n - 1] == unit[1]);
        lemma_unit_by_end(s, s[n - 3]);
    } else {
        assert(same_letter(unit[0], name[0]));
        assert(s[n - 2] == before.last() && s[n - 1] == unit[0]);
        if n >= 3 {
            lemma_unit_by_end(s, s[n - 3]);
        } else {
            lemma_unit_by_end(s, 'x');
        }
    }
}

/// A size is its number times its unit, the unit in any case and behind blanks
/// or not; a number alone is a number of bytes.
#[verifier::rlimit(40)]
pub proof fn size_is_number_times_unit(
    n: nat,
    blanks: Seq<char>,
    unit: Seq<char>,
    name: Seq<char>,
    factor: int,
)
    requires
        is_unit(name, factor),
        text::equal_ignoring_case(unit, name),
        text::all_blank(blanks),
    ensures
        n * factor <= 9_007_199_254_740_992 ==> size_of(text::decimal(n) + blanks + unit)
            == SizeReading::Bytes(n * factor),
        n <= u64::MAX ==> size_of(text::decimal(n)) == SizeReading::Bytes(n as int),
{
    let digits = text::decimal(n);
    text::written_number_is_read_back(n, u64::MAX as int);
    assert(text::is_digit(digits[0]) && text::is_digit(digits.last()));
    let none = Seq::<char>::empty();
    text::trimming_takes_blanks_only(none, digits, none);
    assert(none + digits + none =~= digits);
    lemma_no_unit(digits);
    lemma_size_with_unit(digits, blanks, unit, name, factor);
}

proof fn lemma_size_with_unit(
    digits: Seq<char>,
    blanks: Seq<char>,
    unit: Seq<char>,
    name: Seq<char>,
    factor: int,
)
    requires
        is_unit(name, factor),
        text::equal_ignoring_case(unit, name),
        text::all_blank(blanks),
        text::all_digits(digits),
    ensures
        text::decimal_value(digits) * factor <= 9_007_199_254_740_992 ==> size_of(
            digits + blanks + unit,
        ) == SizeReading::Bytes(text::decimal_value(digits) * factor),
{
    assert(text::is_digit(digits[0]) && text::is_digit(digits.last()));
    let none = Seq::<char>::empty();
    text::trimming_takes_blanks_only(none, digits, blanks);
    assert(none + digits + blanks =~= digits + blanks);
    let before = digits + blanks;
    let s = before + unit;
    assert(text::is_digit(before.last()) || text::is_blank(before.last())) by {
        if blanks.len() > 0 {
            assert(before.last() == blanks[blanks.len() - 1]);
        } else {
            assert(before.last() == digits.last());
        }
    }
    lemma_unit(before, unit, name, factor);
    assert(s[0] == digits[0]);
    assert(s.last() == unit.last());
    text::trimming_takes_blanks_only(none, s, none);
    assert(none + s + none =~= s);
    assert(s.take(s.len() - unit.len()) =~= before);
}

proof fn lemma_no_unit(digits: Seq<char>)
    requires
        text::all_digits(digits),
    ensures
        unit_of(digits) is None,
{
    let n = digits.len();
    assert(text::is_digit(digits[n - 1]));
    if n >= 3 {
        lemma_unit_by_end(digits, digits[n - 3]);
    } else if n == 2 {
        assert(text::is_digit(digits[0]));
        lemma_unit_by_end(digits, 'x');
    } else {
        reveal_strlit("TiB");
        reveal_strlit("GiB");
        reveal_strlit("MiB");
        reveal_strlit("KiB");
        reveal_strlit("TB");
        reveal_strlit("GB");
        reveal_strlit("MB");
        reveal_strlit("KB");
        reveal_strlit("B");
        lemma_ends_one(digits, "B"@);
    }
}

/// A proxy string is read by its words, whatever blanks stand between them: the
/// kind, the host, the port, and for SOCKS5 a username and a password.
#[verifier::rlimit(40)]
pub proof fn proxy_string_is_read_by_its_words(
    kind: Seq<char>,
    host: Seq<char>,
    port: u16,
    user: Seq<char>,
    pass: Seq<char>,
    gap: Seq<char>,
)
    requires
        text::is_graphic_word(kind),
        text::is_graphic_word(host),
        text::is_graphic_word(user),
        text::is_graphic_word(pass),
        text::all_blank(gap),
        gap.len() > 0,
        !text::equal_ignoring_case(kind, "direct"@),
    ensures
        ({
            let digits = text::decimal(port as nat);
            let short = kind + gap + host + gap + digits;
            let long = short + gap + user + gap + pass;
            let name = text::lowercase(kind);
            &&& name == "socks5"@ || name == "socks5h"@ ==> {
                &&& proxy_of(short) == ProxyReading::Proxy(
                    Upstream::Socks5 { host, port, username: None, password: None },
                )
                &&& proxy_of(long) == ProxyReading::Proxy(
                    Upstream::Socks5 { host, port, username: Some(user), password: Some(pass) },
                )
            }
            &&& name == "http"@ || name == "https"@ ==> proxy_of(short) == ProxyReading::Proxy(
                Upstream::Http { host, port, auth: None },
            )
            &&& name != "socks5"@ && name != "socks5h"@ && name != "http"@ && name != "https"@
                ==> proxy_of(short) == ProxyReading::UnknownType(name)
            &&& proxy_of(kind + gap + host) == ProxyReading::TooShort(kind + gap + host)
        }),
{
    reveal_strlit("socks5");
    reveal_strlit("socks5h");
    reveal_strlit("http");
    reveal_strlit("https");
    let digits = text::decimal(port as nat);
    text::written_number_is_read_back(port as nat, u16::MAX as int);
    assert(forall|i: int| 0 <= i < digits.len() ==> text::is_digit(#[trigger] digits[i]));
    assert(text::is_graphic_word(digits)) by {
        assert forall|i: int| 0 <= i < digits.len() implies text::is_graphic(
            #[trigger] digits[i],
        ) by {
            assert(text::is_digit(digits[i]));
        }
    }
    lemma_words(seq![kind, host], gap);
    lemma_words(seq![kind, host, digits], gap);
    lemma_words(seq![kind, host, digits, user, pass], gap);
    reveal_with_fuel(gapped, 6);
    assert(gapped(seq![kind, host], gap) =~= kind + gap + host) by {
        assert(seq![kind, host].drop_last() =~= seq![kind]);
    }
    assert(gapped(seq![kind, host, digits], gap) =~= kind + gap + host + gap + digits) by {
        assert(seq![kind, host, digits].drop_last() =~= seq![kind, host]);
        assert(seq![kind, host].drop_last() =~= seq![kind]);
    }
    assert(gapped(seq![kind, host, digits, user, pass], gap) =~= kind + gap + host + gap + digits
        + gap + user + gap + pass) by {
        assert(seq![kind, host, digits, user, pass].drop_last() =~= seq![kind, host, digits, user]);
        assert(seq![kind, host, digits, user].drop_last() =~= seq![kind, host, digits]);
        assert(seq![kind, host, digits].drop_last() =~= seq![kind, host]);
        assert(seq![kind, host].drop_last() =~= seq![kind]);
    }
    let short = kind + gap + host + gap + digits;
    let long = short + gap + user + gap + pass;
    assert(text::words(kind + gap + host) == seq![kind, host]);
    assert(text::words(short) == seq![kind, host, digits]);
    assert(text::words(long) == seq![kind, host, digits, user, pass]);
    assert(seq![kind, host][0] == kind);
    assert(seq![kind, host, digits][0] == kind && seq![kind, host, digits][1] == host);
    assert("socks5"@.len() == 6 && "socks5h"@.len() == 7 && "http"@.len() == 4 && "https"@.len()
        == 5);
    assert("socks5"@[0] == 's' && "socks5h"@[0] == 's' && "http"@[0] == 'h' && "https"@[0] == 'h');
}

/// Words with the same gap between any two.
spec fn gapped(list: Seq<Seq<char>>, gap: Seq<char>) -> Seq<char>
    decreases list.len(),
{
    if list.len() == 0 {
        Seq::empty()
    } else if list.len() == 1 {
        list[0]
    } else {
        gapped(list.drop_last(), gap) + gap + list.last()
    }
}

spec fn with_gaps(list: Seq<Seq<char>>, gap: Seq<char>) -> Seq<(Seq<char>, Seq<char>)> {
    Seq::new(
        list.len(),
        |i: int|
            (
                if i == 0 {
                    Seq::empty()
                } else {
                    gap
                },
                list[i],
            ),
    )
}

proof fn lemma_spaced_push(list: Seq<(Seq<char>, Seq<char>)>, e: (Seq<char>, Seq<char>))
    ensures
        text::spaced(list.push(e)) == text::spaced(list) + e.0 + e.1,
    decreases list.len(),
{
    let more = list.push(e);
    if list.len() == 0 {
        assert(more.drop_first() =~= Seq::empty());
        reveal_with_fuel(text::spaced, 2);
        assert(text::spaced(more) =~= e.0 + e.1);
        assert(text::spaced(list) + e.0 + e.1 =~= e.0 + e.1);
    } else {
        assert(more.drop_first() =~= list.drop_first().push(e));
        lemma_spaced_push(list.drop_first(), e);
        assert(text::spaced(more) =~= text::spaced(list) + e.0 + e.1);
    }
}

proof fn lemma_gapped(list: Seq<Seq<char>>, gap: Seq<char>)
    ensures
        text::spaced(with_gaps(list, gap)) == gapped(list, gap),
    decreases list.len(),
{
    if list.len() > 0 {
        let init = list.drop_last();
        let e = with_gaps(list, gap).last();
        assert(with_gaps(list, gap) =~= with_gaps(init, gap).push(e));
        lemma_spaced_push(with_gaps(init, gap), e);
        lemma_gapped(init, gap);
        if list.len() == 1 {
            assert(text::spaced(with_gaps(init, gap)) =~= Seq::empty());
            assert(gapped(list, gap) =~= Seq::<char>::empty() + Seq::empty() + list[0]);
        }
    }
}

proof fn lemma_words(list: Seq<Seq<char>>, gap: Seq<char>)
    requires
        forall|i: int| 0 <= i < list.len() ==> text::is_graphic_word(#[trigger] list[i]),
        text::all_blank(gap),
        gap.len() > 0,
    ensures
        text::words(gapped(list, gap)) == list,
{
    let spaced = with_gaps(list, gap);
    assert forall|i: int| 0 <= i < spaced.len() implies text::all_blank((#[trigger] spaced[i]).0)
        && text::is_graphic_word(spaced[i].1) by {
        assert(text::is_graphic_word(list[i]));
    }
    lemma_gapped(list, gap);
    text::spaced_words_are_read(spaced, Seq::empty());
    assert(gapped(list, gap) + Seq::<char>::empty() =~= gapped(list, gap));
    assert(spaced.map_values(|e: (Seq<char>, Seq<char>)| e.1) =~= list);
}

/// No word, or `direct` in any case as the first, means no proxy; a third word
/// that is no port is told.
pub proof fn direct_needs_no_proxy(s: Seq<char>)
    ensures
        text::words(s).len() == 0 ==> proxy_of(s) == ProxyReading::Proxy(Upstream::Direct),
        text::words(s).len() > 0 && text::equal_ignoring_case(text::words(s)[0], "direct"@)
            ==> proxy_of(s) == ProxyReading::Proxy(Upstream::Direct),
        text::words(s).len() >= 3 && !text::equal_ignoring_case(text::words(s)[0], "direct"@)
            && text::unsigned_of(text::words(s)[2], 65535) is None ==> proxy_of(s)
            == ProxyReading::BadPort(text::words(s)[2]),
{
}

/// The proxy has the host and the port that it was given; a direct connection
/// has none. On another host it keeps all else.
pub proof fn proxy_keeps_its_address(
    host: Seq<char>,
    port: u16,
    username: Option<Seq<char>>,
    password: Option<Seq<char>>,
    other: Seq<char>,
)
    ensures
        ({
            let socks = Upstream::Socks5 { host, port, username, password };
            let http = Upstream::Http { host, port, auth: password };
            &&& socks.host_port() == Some((host, port))
            &&& http.host_port() == Some((host, port))
            &&& Upstream::Direct.host_port() is None
            &&& socks.on_host(other) == (Upstream::Socks5 { host: other, port, username, password })
            &&& http.on_host(other) == (Upstream::Http { host: other, port, auth: password })
        }),
{
}

/// A listener's protocol is the one that is set, in lower case, if it is one of
/// the two; without one it goes by the port of its address: HTTP on 80 and 8080,
/// TLS on any other. All else stays as it is set.
pub proof fn protocol_is_set_or_inferred(l: Listener, address: ip::IpAddress, port: u16)
    ensures
        l.proto matches Some(proto) ==> {
            let lower = text::lowercase(proto);
            l.final_proto() == (if lower == "tls"@ || lower == "http"@ {
                Some(lower)
            } else {
                None
            })
        },
        l.proto is None && l.addr == ip::socket_text(address@, port) ==> l.final_proto() == (
        if port == 80 || port == 8080 {
            Some("http"@)
        } else {
            Some("tls"@)
        }),
        l.proto is None && ip::socket_of(l.addr) is None ==> l.final_proto() is None,
        l.normalized().proto == l.final_proto(),
        l.normalized().name == l.name,
        l.normalized().addr == l.addr,
        l.normalized().routes == l.routes,
{
    ip::written_socket_is_read_back(address, port);
}

/// A listener is called by its name, or by protocol and address without one.
pub proof fn listener_is_called_by_its_name(l: Listener, name: Seq<char>, proto: Seq<char>)
    ensures
        l.name == Some(name) ==> l.label_text() == name,
        l.name is None && l.proto == Some(proto) ==> l.label_text() == proto + seq!['@'] + l.addr,
        l.name is None && l.proto is None ==> l.label_text() == "tls"@ + seq!['@'] + l.addr,
{
    reveal_strlit("@");
    assert("@"@ =~= seq!['@']);
}

/// A configuration without listeners gets two: TLS on port 443 and HTTP on port
/// 80 of every address, both passing everything on.
pub proof fn default_listeners_are_https_and_http(cfg: AppConfig)
    requires
        cfg.listens@.len() == 0,
        cfg.tls_listen@.len() == 0,
        cfg.http_listen@.len() == 0,
    ensures
        ({
            let all = cfg.effective_listeners();
            &&& all.len() == 2
            &&& all[0].addr == "0.0.0.0:443"@ && all[0].proto == Some("tls"@)
            &&& all[1].addr == "0.0.0.0:80"@ && all[1].proto == Some("http"@)
            &&& all[0].routes == seq![(".*"@, "*"@)]
            &&& all[1].routes == seq![(".*"@, "*"@)]
        }),
{
    assert(listener_views(cfg.tls_listen@).len() == 0);
    assert(listener_views(cfg.http_listen@).len() == 0);
}

/// Every listener that counts is there when the configuration is ready, in
/// order, with its final protocol, and nothing else has changed but the compiled
/// hosts.
pub proof fn ready_configuration_keeps_its_settings(before: AppConfig, after: AppConfig, i: int)
    requires
        before.finalized(after),
        0 <= i < before.effective_listeners().len(),
    ensures
        after.listens@.len() == before.effective_listeners().len(),
        after.listens@[i]@.addr == before.effective_listeners()[i].addr,
        after.listens@[i]@.routes == before.effective_listeners()[i].routes,
        after.listens@[i]@.name == before.effective_listeners()[i].name,
        after.listens@[i]@.proto == before.effective_listeners()[i].final_proto(),
        after.hosts_table is Some <==> before.hosts@.len() > 0,
        after.hosts_table matches Some(table) ==> table@ == hosts::rules_of(
            hosts::row_views(before.hosts@),
        ),
        after.domain_limits == before.domain_limits,
        after.domain_limits_state_file == before.domain_limits_state_file,
        after.domain_limits_persist_secs == before.domain_limits_persist_secs,
        after.max_connections == before.max_connections,
        after.nofile_limit == before.nofile_limit,
        after.connect_timeout_secs == before.connect_timeout_secs,
        after.rw_timeout_secs == before.rw_timeout_secs,
        after.workers == before.workers,
        after.listen_backlog == before.listen_backlog,
        after.metrics_addr == before.metrics_addr,
        after.metrics_refresh_secs == before.metrics_refresh_secs,
        after.log_file == before.log_file,
        after.hosts == before.hosts,
{
    let all = before.effective_listeners();
    let views = listener_views(after.listens@);
    assert(views.len() == all.len());
    assert(views[i] == after.listens@[i]@);
    assert(views[i] == all[i].normalized());
}

/// Listeners and routes are taken over one for one.
pub proof fn views_are_one_for_one(
    listeners: Seq<ListenerConfig>,
    routes: Seq<RouteEntry>,
    i: int,
)
    ensures
        listener_views(listeners).len() == listeners.len(),
        0 <= i < listeners.len() ==> listener_views(listeners)[i] == listeners[i]@,
        route_views(routes).len() == routes.len(),
        0 <= i < routes.len() ==> route_views(routes)[i] == (routes[i].pattern@, routes[i].target@),
{
}

/// The proxy of the environment takes precedence where it can be read; else that
/// of the file stays.
pub proof fn environment_wins(base: AppConfig, proxy: Option<Seq<char>>, cfg: AppConfig)
    requires
        loaded(base, proxy, Ok(cfg)),
    ensures
        proxy is Some && proxy_of(proxy->0) is Proxy ==> cfg.upstream_proxy@ == proxy_of(
            proxy->0,
        )->Proxy_0,
        proxy is None || !(proxy_of(proxy->0) is Proxy) ==> cfg.upstream_proxy@
            == base.upstream_proxy@,
{
}

/// A configuration with a listener that gets no protocol, or a hosts row that
/// does not compile, is not loaded; any other is.
pub proof fn bad_configuration_is_refused(
    base: AppConfig,
    proxy: Option<Seq<char>>,
    result: Result<AppConfig, ConfigError>,
)
    requires
        loaded(base, proxy, result),
    ensures
        result is Ok <==> (forall|i: int|
            0 <= i < base.effective_listeners().len() ==> (
            #[trigger] base.effective_listeners()[i]).final_proto() is Some) && (forall|i: int|
            0 <= i < base.hosts@.len() ==> hosts::row_compiles(
                (#[trigger] base.hosts@[i]).pattern@,
            )),
{
    match result {
        Ok(_) => {},
        Err(e) => {
            if base.listener_refused(e) {
                let index = e->Listener_index;
                assert(base.effective_listeners()[index as int].final_proto() is None);
            } else {
                let index = e->Hosts_error.index;
                assert(!hosts::row_compiles(base.hosts@[index as int].pattern@));
            }
        },
    }
}

/// The machine itself goes by three names.
pub proof fn loopback_has_three_names(host: Seq<char>)
    ensures
        is_loopback(host) <==> host == "127.0.0.1"@ || host == "localhost"@ || host == "::1"@,
{
}

/// Docker's bridges lie in 172.17 to 172.22 and in 192.168.65.
pub proof fn docker_bridges_are_known(n: nat, rest: Seq<char>)
    requires
        17 <= n <= 22,
    ensures
        is_bridge("172."@ + text::decimal(n) + "."@ + rest),
        is_bridge("192.168.65."@ + rest),
{
    reveal_strlit("172.");
    reveal_strlit(".");
    reveal_strlit("172.17.");
    reveal_strlit("172.18.");
    reveal_strlit("172.19.");
    reveal_strlit("172.20.");
    reveal_strlit("172.21.");
    reveal_strlit("172.22.");
    reveal_strlit("192.168.65.");
    reveal_with_fuel(text::decimal, 3);
    let g = "172."@ + text::decimal(n) + "."@ + rest;
    let head = g.take(7);
    if n == 17 {
        assert(head =~= "172.17."@);
    } else if n == 18 {
        assert(head =~= "172.18."@);
    } else if n == 19 {
        assert(head =~= "172.19."@);
    } else if n == 20 {
        assert(head =~= "172.20."@);
    } else if n == 21 {
        assert(head =~= "172.21."@);
    } else {
        assert(head =~= "172.22."@);
    }
    let other = "192.168.65."@ + rest;
    assert(other.take(11) =~= "192.168.65."@);
}

/// In a container, a proxy on the loopback moves to the gateway of a Docker
/// bridge, that of the variable before that of the routing table, unless it is
/// switched off.
pub proof fn loopback_proxy_is_moved(
    upstream: Upstream,
    host: Seq<char>,
    port: u16,
    variable: Option<Seq<char>>,
    route: Option<Seq<char>>,
    gateway: Seq<char>,
)
    requires
        upstream.host_port() == Some((host, port)),
        is_loopback(host),
        is_bridge(gateway),
        variable matches Some(value) ==> !text::equal_ignoring_case(value, "off"@),
        (variable == Some(gateway) && gateway.len() > 0) || ((variable is None
            || variable->0.len() == 0) && route is Some && gateway_of(route->0) == Some(gateway)),
    ensures
        remap_of(upstream, true, variable, route) == Remap::Remapped(host, gateway),
        remap_of(upstream, false, variable, route) == Remap::NotInDocker,
        remap_of(upstream, true, Some("off"@), route) == Remap::SwitchedOff,
{
}

/// `c` is the hexadecimal digit for `v`, in either case.
pub open spec fn is_hex(c: char, v: int) -> bool {
    ||| 0 <= v <= 9 && c as int == 48 + v
    ||| 10 <= v <= 15 && (c as int == 97 + v - 10 || c as int == 65 + v - 10)
}

/// An address is read from eight hexadecimal digits, its last octet first.
pub proof fn hex_address_is_read_backwards(a: u8, b: u8, c: u8, d: u8, hex: Seq<char>)
    requires
        hex.len() == 8,
        is_hex(hex[0], d as int / 16) && is_hex(hex[1], d as int % 16),
        is_hex(hex[2], c as int / 16) && is_hex(hex[3], c as int % 16),
        is_hex(hex[4], b as int / 16) && is_hex(hex[5], b as int % 16),
        is_hex(hex[6], a as int / 16) && is_hex(hex[7], a as int % 16),
    ensures
        hex_address(hex) == Some(ip::ipv4_text(seq![a, b, c, d])),
{
    assert(hex_octet(hex[0], hex[1]) == Some(d as int));
    assert(hex_octet(hex[2], hex[3]) == Some(c as int));
    assert(hex_octet(hex[4], hex[5]) == Some(b as int));
    assert(hex_octet(hex[6], hex[7]) == Some(a as int));
}

/// The gateway is that of the first default route, wherever that stands below
/// the heading.
pub proof fn default_route_is_found(
    before: Seq<Seq<char>>,
    line: Seq<char>,
    after: Seq<Seq<char>>,
)
    requires
        forall|i: int|
            0 <= i < before.len() ==> text::words(#[trigger] before[i]).len() < 3 || text::words(
                before[i],
            )[1] != "00000000"@,
        text::words(line).len() >= 3,
        text::words(line)[1] == "00000000"@,
    ensures
        first_gateway(before + seq![line] + after) == hex_address(text::words(line)[2]),
        first_gateway(before) is None,
    decreases before.len(),
{
    let lines = before + seq![line] + after;
    if before.len() == 0 {
        assert(lines[0] == line);
    } else {
        assert(lines[0] == before[0]);
        assert(lines.drop_first() =~= before.drop_first() + seq![line] + after);
        assert forall|i: int| 0 <= i < before.drop_first().len() implies text::words(
            #[trigger] before.drop_first()[i],
        ).len() < 3 || text::words(before.drop_first()[i])[1] != "00000000"@ by {
            assert(before.drop_first()[i] == before[i + 1]);
        }
        default_route_is_found(before.drop_first(), line, after);
    }
}

/// The heading of a routing table is no route.
pub proof fn heading_is_no_route(heading: Seq<char>, rest: Seq<char>)
    requires
        !heading.contains('\n'),
    ensures
        gateway_of(heading + seq!['\r', '\n'] + rest) == first_gateway(text::lines_of(rest)),
{
    let list = seq![(heading, seq!['\r', '\n'])];
    reveal_with_fuel(text::ended_lines, 2);
    assert(list.drop_first() =~= Seq::empty());
    assert(text::ended_lines(list) =~= heading + seq!['\r', '\n']);
    text::ended_lines_are_read(list, rest);
    assert(list.map_values(|e: (Seq<char>, Seq<char>)| e.0) =~= seq![heading]);
    let lines = text::lines_of(heading + seq!['\r', '\n'] + rest);
    assert(lines.drop_first() =~= text::lines_of(rest));
}

/// A number before a unit that is no whole number, or too large to be exact, is
/// handed on with its unit to be scaled.
pub proof fn other_sizes_are_handed_on(
    number: Seq<char>,
    unit: Seq<char>,
    name: Seq<char>,
    factor: int,
)
    requires
        is_unit(name, factor),
        text::equal_ignoring_case(unit, name),
        number.len() > 0,
        text::is_graphic(number[0]),
        text::is_digit(number.last()),
        !text::all_digits(number) || text::decimal_value(number) * factor > 9_007_199_254_740_992,
    ensures
        size_of(number + unit) matches SizeReading::NotWhole { number: n, suffix, factor: f } && n
            == number && f == factor && suffix.len() == unit.len(),
{
    let none = Seq::<char>::empty();
    let s = number + unit;
    lemma_unit(number, unit, name, factor);
    assert(s[0] == number[0]);
    assert(s.last() == unit.last());
    text::trimming_takes_blanks_only(none, s, none);
    assert(none + s + none =~= s);
    text::trimming_takes_blanks_only(none, number, none);
    assert(none + number + none =~= number);
    assert(s.take(s.len() - unit.len()) =~= number);
}

/// What holds where nothing is configured.
pub proof fn defaults_are_as_documented(cfg: AppConfig)
    requires
        cfg.is_default(),
    ensures
        cfg.listens@.len() == 2,
        cfg.upstream_proxy@ == (Upstream::Socks5 {
            host: "127.0.0.1"@,
            port: 1080,
            username: None,
            password: None,
        }),
        cfg.connect_timeout_secs == 10,
        cfg.rw_timeout_secs == 300,
        cfg.workers == 0,
        cfg.metrics_addr is None,
        cfg.log_file is None,
        cfg.metrics_refresh_secs == 2,
        cfg.max_connections == 50_000,
        cfg.nofile_limit == 1_048_576,
        cfg.listen_backlog == 4096,
        cfg.hosts@.len() == 0,
        cfg.hosts_table is None,
        cfg.domain_limits@.len() == 0,
        cfg.domain_limits_state_file is None,
        cfg.domain_limits_persist_secs == 5,
{
    assert(listener_views(cfg.listens@).len() == cfg.listens@.len());
}

/// Blanks around a size do not count.
pub proof fn blanks_around_a_size_do_not_count(
    pad: Seq<char>,
    s: Seq<char>,
    more_pad: Seq<char>,
)
    requires
        text::all_blank(pad),
        text::all_blank(more_pad),
        s.len() > 0,
        text::is_graphic(s[0]),
        text::is_graphic(s.last()),
    ensures
        size_of(pad + s + more_pad) == size_of(s),
{
    let none = Seq::<char>::empty();
    text::trimming_takes_blanks_only(pad, s, more_pad);
    text::trimming_takes_blanks_only(none, s, none);
    assert(none + s + none =~= s);
}

/// What is neither a number nor ends with a unit is no size.
pub proof fn unreadable_size_is_told(s: Seq<char>)
    requires
        s.len() > 0,
        text::is_graphic(s[0]),
        text::is_graphic(s.last()),
        s.last() != 'B',
        s.last() != 'b',
        !text::is_digit(s.last()),
    ensures
        size_of(s) == (SizeReading::Unreadable { text: s }),
{
    let none = Seq::<char>::empty();
    text::trimming_takes_blanks_only(none, s, none);
    assert(none + s + none =~= s);
    reveal_strlit("TiB");
    reveal_strlit("GiB");
    reveal_strlit("MiB");
    reveal_strlit("KiB");
    reveal_strlit("TB");
    reveal_strlit("GB");
    reveal_strlit("MB");
    reveal_strlit("KB");
    reveal_strlit("B");
    lemma_ends_three(s, "TiB"@);
    lemma_ends_three(s, "GiB"@);
    lemma_ends_three(s, "MiB"@);
    lemma_ends_three(s, "KiB"@);
    lemma_ends_two(s, "TB"@);
    lemma_ends_two(s, "GB"@);
    lemma_ends_two(s, "MB"@);
    lemma_ends_two(s, "KB"@);
    lemma_ends_one(s, "B"@);
    let t = text::without_plus(s);
    if text::all_digits(t) {
        assert(text::is_digit(t[t.len() - 1]));
        assert(t.last() == s.last());
    }
}

} // verus!
