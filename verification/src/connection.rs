//! One client connection, from its first byte to its last.
//!
//! A connection is driven from outside: each call says what has happened and
//! gives back what to do next. It reads the target, asks where it goes and
//! whether its domain's limits allow it, dials the upstream, replays what was
//! read, and has bytes passed in both directions, keeping the metrics as it
//! goes.

use vstd::prelude::*;
use vstd::slice::slice_to_vec;

use crate::domain_limiter;
use crate::domain_limiter::{DomainLimiter, LimitReason};
use crate::hosts;
use crate::hosts::HostsTable;
use crate::metrics;
use crate::metrics::{Metrics, TargetLabels};
use crate::service;
use crate::service::{ClientReader, ClientTarget, ReadError, ReadStep, ReaderKind, RouteTable};
use crate::sni;
use crate::text;

verus! {

/// How far a connection has come.
#[derive(Debug, Clone, Copy, PartialEq, Eq, Structural)]
pub enum Stage {
    /// Its first bytes are looked at
    Peeking,
    /// The target is being read
    Reading,
    /// A CONNECT request is being answered
    Replying,
    /// The destination is being looked up
    Routing,
    /// The limits of its domain are being checked
    Limiting,
    /// The upstream is being connected to
    Dialing,
    /// What was read is being replayed
    Forwarding,
    /// Bytes are passed in both directions
    Splicing,
    /// It is to be given up
    Failing,
    /// Nothing more happens
    Ended,
}

/// Which way bytes go.
#[derive(Debug, Clone, Copy, PartialEq, Eq, Structural)]
pub enum Direction {
    ClientToUpstream,
    UpstreamToClient,
}

/// Why a connection is given up.
#[derive(Debug, Clone, Copy, PartialEq, Eq, Structural)]
pub enum ConnectionError {
    /// No target can be read
    Read { cause: ReadError },
    /// The hosts table does not list the host that was asked for
    NotListed,
    /// A limit of its domain is reached
    Limit { reason: LimitReason },
}

impl ConnectionError {
    /// The error as it is printed.
    pub fn message(&self) -> (r: String)
        ensures
            r@ == (match *self {
                ConnectionError::Read { cause } => cause.text(),
                ConnectionError::NotListed => "Host is not in the hosts table"@,
                ConnectionError::Limit { reason } => "Domain limit reached: "@ + reason.text(),
            }),
    {
        match self {
            ConnectionError::Read { cause } => cause.message(),
            ConnectionError::NotListed => "Host is not in the hosts table".to_owned(),
            ConnectionError::Limit { reason } => {
                let mut out: String = "Domain limit reached: ".to_owned();
                text::push_text(&mut out, reason.to_text().as_str());
                out
            },
        }
    }
}

/// What to do next with a connection.
#[derive(Debug)]
pub enum Action {
    /// Look at the client's first bytes without taking them
    Peek,
    /// Read up to so many bytes from the client
    Read { room: usize },
    /// Send the bytes to the client
    Reply { bytes: Vec<u8> },
    /// Look up the destination
    Route,
    /// Ask for one more connection to the domain
    CheckLimit { domain: String },
    /// Open a tunnel
    Dial { host: String, port: u16 },
    /// Send the flight upstream, then the overflow
    Forward { flight: Vec<u8>, overflow: Vec<u8> },
    /// Pass bytes in both directions
    Splice,
    /// Close both sides and pass nothing more: a limit of the domain is exceeded
    Cut { reason: LimitReason },
    /// Give up
    Fail { error: ConnectionError },
    /// Nothing
    Done,
}

/// What an [`Action`] says.
pub enum Todo {
    Peek,
    Read(int),
    Reply(Seq<u8>),
    Route,
    CheckLimit(Seq<char>),
    Dial(Seq<char>, u16),
    Forward(Seq<u8>, Seq<u8>),
    Splice,
    Cut(LimitReason),
    Fail(ConnectionError),
    Done,
}

impl View for Action {
    type V = Todo;

    open spec fn view(&self) -> Todo {
        match self {
            Action::Peek => Todo::Peek,
            Action::Read { room } => Todo::Read(*room as int),
            Action::Reply { bytes } => Todo::Reply(bytes@),
            Action::Route => Todo::Route,
            Action::CheckLimit { domain } => Todo::CheckLimit(domain@),
            Action::Dial { host, port } => Todo::Dial(host@, *port),
            Action::Forward { flight, overflow } => Todo::Forward(flight@, overflow@),
            Action::Splice => Todo::Splice,
            Action::Cut { reason } => Todo::Cut(*reason),
            Action::Fail { error } => Todo::Fail(*error),
            Action::Done => Todo::Done,
        }
    }
}

/// One client connection.
#[derive(Debug)]
pub struct Connection {
    stage: Stage,
    reader: ClientReader,
    target: ClientTarget,
    host: String,
    port: u16,
    mapped: bool,
    labels: TargetLabels,
    client_to_upstream: u64,
    upstream_to_client: u64,
}

/// What a [`Connection`] holds.
pub struct ConnectionState {
    pub stage: Stage,
    /// How the target is read, where it came in, and what was read
    pub reader: service::ReaderState,
    /// What the client asked for, once that is known
    pub target: service::Target,
    /// Host and port to connect to, and whether the hosts table said so, once
    /// that is known
    pub destination: (Seq<char>, u16, bool),
    /// Metric labels: client, domain, upstream
    pub labels: Seq<Seq<char>>,
    /// Bytes passed
    pub client_to_upstream: u64,
    pub upstream_to_client: u64,
}

impl View for Connection {
    type V = ConnectionState;

    closed spec fn view(&self) -> ConnectionState {
        ConnectionState {
            stage: self.stage,
            reader: self.reader@,
            target: self.target@,
            destination: (self.host@, self.port, self.mapped),
            labels: self.labels@,
            client_to_upstream: self.client_to_upstream,
            upstream_to_client: self.upstream_to_client,
        }
    }
}

/// Something that happens to a connection.
pub enum Event {
    /// The client's first bytes were looked at
    Peeked(Seq<u8>),
    /// Bytes came from the client; none where it has closed
    Received(Seq<u8>),
    /// The answer to a CONNECT request was sent
    Replied,
    /// Here are the hosts table and the routes
    Routed(Option<hosts::HostsRules>, Seq<(Seq<char>, Seq<char>)>),
    /// The limits of the domain were checked
    LimitChecked(Result<(), LimitReason>),
    /// The tunnel stands
    Connected,
    /// What was read was replayed
    Forwarded,
    /// Bytes that are to be passed were charged to the domain
    Charged(Result<(), LimitReason>),
    /// Bytes were passed
    Passed(Direction, u64),
    /// Both directions have ended
    Spliced,
    /// It was given up
    Failed,
}

/// The event can happen at the stage.
pub open spec fn can_happen(stage: Stage, event: Event) -> bool {
    match event {
        Event::Peeked(_) => stage is Peeking,
        Event::Received(_) => stage is Reading,
        Event::Replied => stage is Replying,
        Event::Routed(_, _) => stage is Routing,
        Event::LimitChecked(_) => stage is Limiting,
        Event::Connected => stage is Dialing,
        Event::Forwarded => stage is Forwarding,
        Event::Charged(_) => stage is Splicing,
        Event::Passed(_, _) => stage is Splicing,
        Event::Spliced => stage is Splicing,
        Event::Failed => stage !is Ended,
    }
}

/// A hosts table is an allowlist: where there is one, it must list the host.
pub open spec fn is_listed(rules: Option<hosts::HostsRules>, host: Seq<char>) -> bool {
    rules matches Some(rules) ==> hosts::looked_up(rules, host) is Some
}

/// `bytes` more for `domain`: the limits after it, and whether they may be
/// passed. Bytes that the counter has no room for exceed every limit, and the
/// counter stays.
pub open spec fn charged(
    limits: domain_limiter::LimiterState,
    domain: Seq<char>,
    bytes: u64,
    today: u32,
) -> (domain_limiter::LimiterState, Result<(), LimitReason>) {
    if domain_limiter::countable(limits, domain, bytes, today) {
        domain_limiter::bytes_accounted(limits, domain, bytes, today)
    } else {
        (limits, Err(LimitReason::DailyBandwidth))
    }
}

/// The tunnel stands and the connection has not ended.
pub open spec fn is_open(stage: Stage) -> bool {
    stage is Forwarding || stage is Splicing
}

/// The target is known.
pub open spec fn is_targeted(stage: Stage) -> bool {
    stage is Replying || stage is Routing || stage is Limiting || stage is Dialing || is_open(stage)
}

impl ConnectionState {
    /// The connection at another stage.
    pub open spec fn at(self, stage: Stage) -> ConnectionState {
        ConnectionState { stage, ..self }
    }

    /// How many more bytes can be counted: the bytes of both directions
    /// together fit a `u64`.
    pub open spec fn room(self) -> int {
        u64::MAX - self.client_to_upstream - self.upstream_to_client
    }

    /// The connection after `n` bytes went one way, as far as they can be
    /// counted.
    pub open spec fn after_bytes(self, direction: Direction, n: u64) -> ConnectionState {
        let added = if n <= self.room() {
            n as int
        } else {
            self.room()
        };
        match direction {
            Direction::ClientToUpstream => ConnectionState {
                client_to_upstream: (self.client_to_upstream + added) as u64,
                ..self
            },
            Direction::UpstreamToClient => ConnectionState {
                upstream_to_client: (self.upstream_to_client + added) as u64,
                ..self
            },
        }
    }

    /// The connection after its reader has come to `reading`.
    pub open spec fn after_reading(self, reading: service::Reading) -> (ConnectionState, Todo) {
        match reading {
            service::Reading::More(room) => (self, Todo::Read(room)),
            service::Reading::Found(target) => {
                let found = ConnectionState { target, ..self };
                if target.reply.len() > 0 {
                    (found.at(Stage::Replying), Todo::Reply(target.reply))
                } else {
                    (found.at(Stage::Routing), Todo::Route)
                }
            },
            service::Reading::Fail(cause) => (
                self.at(Stage::Failing),
                Todo::Fail(ConnectionError::Read { cause }),
            ),
        }
    }

    /// The connection after an event, and what to do next.
    pub open spec fn next(self, event: Event) -> (ConnectionState, Todo) {
        match event {
            Event::Peeked(bytes) => {
                let kind = service::kind_by_bytes(bytes);
                let reader = service::ReaderState {
                    kind,
                    listen_port: self.reader.listen_port,
                    received: Seq::empty(),
                };
                (
                    ConnectionState { stage: Stage::Reading, reader, ..self },
                    Todo::Read(kind.room() as int),
                )
            },
            Event::Received(chunk) => {
                let reader = service::ReaderState {
                    kind: self.reader.kind,
                    listen_port: self.reader.listen_port,
                    received: self.reader.received + chunk,
                };
                let reading = if chunk.len() == 0 {
                    service::Reading::Fail(service::closed_early(reader.kind))
                } else {
                    service::reading(reader.kind, reader.received, reader.listen_port)
                };
                (ConnectionState { reader, ..self }).after_reading(reading)
            },
            Event::Replied => (self.at(Stage::Routing), Todo::Route),
            Event::Routed(rules, routes) => if is_listed(rules, self.target.host) {
                let destination = service::destination(
                    self.target.host,
                    self.target.port,
                    self.reader.listen_port,
                    rules,
                    routes,
                );
                let labels = seq![
                    self.labels[0],
                    metrics::label_of(self.target.host),
                    metrics::label_of(destination.0),
                ];
                (
                    ConnectionState { stage: Stage::Limiting, destination, labels, ..self },
                    Todo::CheckLimit(self.target.host),
                )
            } else {
                let labels = self.labels.update(1, metrics::label_of(self.target.host));
                (
                    ConnectionState { stage: Stage::Failing, labels, ..self },
                    Todo::Fail(ConnectionError::NotListed),
                )
            },
            Event::LimitChecked(Ok(())) => (
                self.at(Stage::Dialing),
                Todo::Dial(self.destination.0, self.destination.1),
            ),
            Event::LimitChecked(Err(reason)) => (
                self.at(Stage::Failing),
                Todo::Fail(ConnectionError::Limit { reason }),
            ),
            Event::Connected => if self.target.flight.len() > 0 || self.target.overflow.len() > 0 {
                (
                    self.at(Stage::Forwarding),
                    Todo::Forward(self.target.flight, self.target.overflow),
                )
            } else {
                (self.at(Stage::Splicing), Todo::Splice)
            },
            Event::Forwarded => (self.at(Stage::Splicing), Todo::Splice),
            Event::Charged(Ok(())) => (self, Todo::Splice),
            Event::Charged(Err(reason)) => (self.at(Stage::Ended), Todo::Cut(reason)),
            Event::Passed(direction, n) => (self.after_bytes(direction, n), Todo::Splice),
            Event::Spliced => (self.at(Stage::Ended), Todo::Done),
            Event::Failed => (self.at(Stage::Ended), Todo::Done),
        }
    }

    /// The metrics after an event.
    pub open spec fn recorded(
        self,
        v: metrics::MetricValues,
        event: Event,
    ) -> metrics::MetricValues {
        match event {
            Event::Connected => metrics::opened(v, self.labels),
            Event::Spliced | Event::Charged(Err(_)) => metrics::closed(
                v,
                self.labels,
                self.client_to_upstream,
                self.upstream_to_client,
            ),
            Event::Failed => metrics::failed(v, self.labels, is_open(self.stage)),
            _ => v,
        }
    }

    /// What was read fits its buffer, a target that is known is the one that the
    /// bytes name, and the bytes of both directions together fit a `u64`.
    pub open spec fn consistent(self) -> bool {
        &&& self.reader.received.len() <= self.reader.kind.room()
        &&& is_targeted(self.stage) ==> service::reading(
            self.reader.kind,
            self.reader.received,
            self.reader.listen_port,
        ) == service::Reading::Found(self.target)
        &&& self.room() >= 0
        &&& self.labels.len() == 3
    }
}

impl Connection {
    /// The connection is consistent.
    pub open spec fn well_formed(&self) -> bool {
        self@.consistent()
    }

    /// A connection from `peer` on a listener.
    pub fn start(peer: &str, proto: &str, listen_port: u16) -> (r: (Self, Action))
        ensures
            r.0.well_formed(),
            r.0@.stage == (if service::kind_by_proto(proto@) is Some {
                Stage::Reading
            } else {
                Stage::Peeking
            }),
            service::kind_by_proto(proto@) matches Some(kind) ==> r.0@.reader.kind == kind,
            r.0@.reader.listen_port == listen_port,
            r.0@.reader.received.len() == 0,
            r.0@.labels == seq![metrics::peer_label(peer@), "unknown"@, "unknown"@],
            r.0@.client_to_upstream == 0,
            r.0@.upstream_to_client == 0,
            r.1@ == (if r.0@.stage is Reading {
                Todo::Read(r.0@.reader.kind.room() as int)
            } else {
                Todo::Peek
            }),
    {
        let mut labels: TargetLabels = TargetLabels::unknown();
        labels.set_client_ip_from_peer(peer);
        assert(labels@ =~= seq![metrics::peer_label(peer@), "unknown"@, "unknown"@]);
        let by_proto: Option<ReaderKind> = service::reader_by_proto(proto);
        let (stage, kind): (Stage, ReaderKind) = match by_proto {
            Some(kind) => (Stage::Reading, kind),
            None => (Stage::Peeking, ReaderKind::Http),
        };
        let (reader, _): (ClientReader, ReadStep) = ClientReader::start(kind, listen_port);
        let connection: Connection = Connection {
            stage,
            reader,
            target: ClientTarget {
                host: String::new(),
                port: listen_port,
                reply: Vec::new(),
                flight: Vec::new(),
                overflow: Vec::new(),
            },
            host: String::new(),
            port: listen_port,
            mapped: false,
            labels,
            client_to_upstream: 0,
            upstream_to_client: 0,
        };
        let action: Action = match by_proto {
            Some(kind) => Action::Read { room: kind.capacity() },
            None => Action::Peek,
        };
        (connection, action)
    }

    /// How far the connection has come.
    pub fn stage(&self) -> (r: Stage)
        ensures
            r == self@.stage,
    {
        self.stage
    }

    /// The host that the client asked for.
    pub fn asked_host(&self) -> (r: &str)
        ensures
            r@ == self@.target.host,
    {
        self.target.host.as_str()
    }

    /// True when the hosts table chose the destination.
    pub fn is_mapped(&self) -> (r: bool)
        ensures
            r == self@.destination.2,
    {
        self.mapped
    }

    /// Bytes so far: client to upstream, upstream to client.
    pub fn bytes(&self) -> (r: (u64, u64))
        ensures
            r == (self@.client_to_upstream, self@.upstream_to_client),
    {
        (self.client_to_upstream, self.upstream_to_client)
    }

    /// The client's first bytes were looked at.
    pub fn peeked(&mut self, bytes: &[u8]) -> (r: Action)
        requires
            old(self).well_formed(),
            old(self)@.stage is Peeking,
        ensures
            final(self).well_formed(),
            (final(self)@, r@) == old(self)@.next(Event::Peeked(bytes@)),
    {
        let kind: ReaderKind = service::extract_auto(bytes);
        let listen_port: u16 = self.reader.listen_port();
        let (reader, _): (ClientReader, ReadStep) = ClientReader::start(kind, listen_port);
        self.reader = reader;
        self.stage = Stage::Reading;
        Action::Read { room: kind.capacity() }
    }

    /// Bytes came from the client; none where it has closed.
    pub fn received(&mut self, chunk: &[u8]) -> (r: Action)
        requires
            old(self).well_formed(),
            old(self)@.stage is Reading,
            old(self)@.reader.received.len() + chunk@.len() <= old(self)@.reader.kind.room(),
        ensures
            final(self).well_formed(),
            (final(self)@, r@) == old(self)@.next(Event::Received(chunk@)),
    {
        match self.reader.on_bytes(chunk) {
            ReadStep::Read { room } => Action::Read { room },
            ReadStep::Found { target } => {
                let bytes: Vec<u8> = slice_to_vec(target.reply.as_slice());
                self.target = target;
                if bytes.len() > 0 {
                    self.stage = Stage::Replying;
                    Action::Reply { bytes }
                } else {
                    self.stage = Stage::Routing;
                    Action::Route
                }
            },
            ReadStep::Fail { error } => {
                self.stage = Stage::Failing;
                Action::Fail { error: ConnectionError::Read { cause: error } }
            },
        }
    }

    /// The answer to a CONNECT request was sent.
    pub fn replied(&mut self) -> (r: Action)
        requires
            old(self).well_formed(),
            old(self)@.stage is Replying,
        ensures
            final(self).well_formed(),
            (final(self)@, r@) == old(self)@.next(Event::Replied),
    {
        self.stage = Stage::Routing;
        Action::Route
    }

    /// Looks up where the connection goes. A hosts table decides alone; the
    /// routes are for a proxy without one.
    pub fn route(&mut self, hosts: Option<&HostsTable>, routes: &RouteTable) -> (r: Action)
        requires
            old(self).well_formed(),
            old(self)@.stage is Routing,
            hosts matches Some(table) ==> table.well_formed(),
        ensures
            final(self).well_formed(),
            (final(self)@, r@) == old(self)@.next(
                Event::Routed(service::rules_in(hosts), routes@),
            ),
    {
        self.labels.set_domain(self.target.host.as_str());
        if let Some(table) = hosts {
            if table.resolve(self.target.host.as_str()).is_none() {
                self.stage = Stage::Failing;
                return Action::Fail { error: ConnectionError::NotListed };
            }
        }
        let (host, port, mapped): (String, u16, bool) = service::resolve_destination(
            self.target.host.as_str(),
            self.target.port,
            self.reader.listen_port(),
            hosts,
            routes,
        );
        self.labels.set_upstream(host.as_str());
        assert(self.labels@ =~= seq![
            old(self)@.labels[0],
            metrics::label_of(self.target.host@),
            metrics::label_of(host@),
        ]);
        self.host = host;
        self.port = port;
        self.mapped = mapped;
        self.stage = Stage::Limiting;
        Action::CheckLimit { domain: self.target.host.clone() }
    }

    /// The limits of the domain were checked.
    pub fn limit_checked(&mut self, verdict: Result<(), LimitReason>) -> (r: Action)
        requires
            old(self).well_formed(),
            old(self)@.stage is Limiting,
        ensures
            final(self).well_formed(),
            (final(self)@, r@) == old(self)@.next(Event::LimitChecked(verdict)),
    {
        match verdict {
            Ok(()) => {
                self.stage = Stage::Dialing;
                Action::Dial { host: self.host.clone(), port: self.port }
            },
            Err(reason) => {
                self.stage = Stage::Failing;
                Action::Fail { error: ConnectionError::Limit { reason } }
            },
        }
    }

    /// Asks the limits of the domain for one more connection to the host that the
    /// client named.
    pub fn check_limit(&mut self, limiter: &mut DomainLimiter, today: u32) -> (r: Action)
        requires
            old(self).well_formed(),
            old(self)@.stage is Limiting,
            old(limiter).well_formed(),
        ensures
            final(self).well_formed(),
            final(limiter).well_formed(),
            ({
                let (limits, verdict) = domain_limiter::connection_checked(
                    old(limiter)@,
                    old(self)@.target.host,
                    today,
                );
                &&& final(limiter)@ == limits
                &&& (final(self)@, r@) == old(self)@.next(Event::LimitChecked(verdict))
            }),
    {
        let verdict: Result<(), LimitReason> = limiter.check_connection_on(
            self.target.host.as_str(),
            today,
        );
        self.limit_checked(verdict)
    }

    /// The tunnel stands.
    pub fn connected(&mut self, metrics: &mut Metrics) -> (r: Action)
        requires
            old(self).well_formed(),
            old(self)@.stage is Dialing,
            old(metrics).well_formed(),
        ensures
            final(self).well_formed(),
            (final(self)@, r@) == old(self)@.next(Event::Connected),
            final(metrics).well_formed(),
            final(metrics)@ == old(self)@.recorded(old(metrics)@, Event::Connected),
    {
        metrics::connection_opened(metrics, &self.labels);
        if self.target.flight.len() > 0 || self.target.overflow.len() > 0 {
            self.stage = Stage::Forwarding;
            Action::Forward {
                flight: slice_to_vec(self.target.flight.as_slice()),
                overflow: slice_to_vec(self.target.overflow.as_slice()),
            }
        } else {
            self.stage = Stage::Splicing;
            Action::Splice
        }
    }

    /// What was read was replayed.
    pub fn forwarded(&mut self) -> (r: Action)
        requires
            old(self).well_formed(),
            old(self)@.stage is Forwarding,
        ensures
            final(self).well_formed(),
            (final(self)@, r@) == old(self)@.next(Event::Forwarded),
    {
        self.stage = Stage::Splicing;
        Action::Splice
    }

    /// Charges `bytes` that are about to be passed to the limit of the domain. A
    /// refusal ends the connection, whatever it has passed before.
    pub fn charge(
        &mut self,
        limiter: &mut DomainLimiter,
        metrics: &mut Metrics,
        bytes: u64,
        today: u32,
    ) -> (r: Action)
        requires
            old(self).well_formed(),
            old(self)@.stage is Splicing,
            old(limiter).well_formed(),
            old(metrics).well_formed(),
        ensures
            final(self).well_formed(),
            final(limiter).well_formed(),
            final(metrics).well_formed(),
            ({
                let (limits, verdict) = charged(
                    old(limiter)@,
                    old(self)@.target.host,
                    bytes,
                    today,
                );
                &&& final(limiter)@ == limits
                &&& (final(self)@, r@) == old(self)@.next(Event::Charged(verdict))
                &&& final(metrics)@ == old(self)@.recorded(old(metrics)@, Event::Charged(verdict))
            }),
    {
        let verdict: Result<(), LimitReason> = match limiter.try_account_bytes_on(
            self.target.host.as_str(),
            bytes,
            today,
        ) {
            Some(verdict) => verdict,
            None => Err(LimitReason::DailyBandwidth),
        };
        match verdict {
            Ok(()) => Action::Splice,
            Err(reason) => {
                metrics::connection_closed(
                    metrics,
                    &self.labels,
                    self.client_to_upstream,
                    self.upstream_to_client,
                );
                self.stage = Stage::Ended;
                Action::Cut { reason }
            },
        }
    }

    /// Bytes were passed.
    pub fn passed(&mut self, direction: Direction, n: u64)
        requires
            old(self).well_formed(),
            old(self)@.stage is Splicing,
        ensures
            final(self).well_formed(),
            final(self)@ == old(self)@.next(Event::Passed(direction, n)).0,
    {
        let room: u64 = u64::MAX - self.client_to_upstream - self.upstream_to_client;
        let added: u64 = if n <= room {
            n
        } else {
            room
        };
        match direction {
            Direction::ClientToUpstream => {
                self.client_to_upstream = self.client_to_upstream + added;
            },
            Direction::UpstreamToClient => {
                self.upstream_to_client = self.upstream_to_client + added;
            },
        }
    }

    /// Both directions have ended.
    pub fn spliced(&mut self, metrics: &mut Metrics)
        requires
            old(self).well_formed(),
            old(self)@.stage is Splicing,
            old(metrics).well_formed(),
        ensures
            final(self).well_formed(),
            final(self)@ == old(self)@.next(Event::Spliced).0,
            final(metrics).well_formed(),
            final(metrics)@ == old(self)@.recorded(old(metrics)@, Event::Spliced),
    {
        metrics::connection_closed(
            metrics,
            &self.labels,
            self.client_to_upstream,
            self.upstream_to_client,
        );
        self.stage = Stage::Ended;
    }

    /// The connection is given up.
    pub fn failed(&mut self, metrics: &mut Metrics)
        requires
            old(self).well_formed(),
            old(self)@.stage !is Ended,
            old(metrics).well_formed(),
        ensures
            final(self).well_formed(),
            final(self)@ == old(self)@.next(Event::Failed).0,
            final(metrics).well_formed(),
            final(metrics)@ == old(self)@.recorded(old(metrics)@, Event::Failed),
    {
        let was_open: bool = match self.stage {
            Stage::Forwarding | Stage::Splicing => true,
            _ => false,
        };
        metrics::connection_failed(metrics, &self.labels, was_open);
        self.stage = Stage::Ended;
    }
}

// ── Laws ─────────────────────────────────────────────────────────────────────

/// The event can happen to the connection, and brings no more bytes than were
/// asked for.
pub open spec fn acceptable(s: ConnectionState, event: Event) -> bool {
    &&& can_happen(s.stage, event)
    &&& event matches Event::Received(chunk) ==> s.reader.received.len() + chunk.len()
        <= s.reader.kind.room()
}

/// Every event leaves a consistent connection consistent.
pub proof fn events_keep_connections_consistent(s: ConnectionState, event: Event)
    requires
        s.consistent(),
        acceptable(s, event),
    ensures
        s.next(event).0.consistent(),
{
}

/// The connection and the metrics after all the events, in order.
pub open spec fn after_events(
    s: ConnectionState,
    v: metrics::MetricValues,
    events: Seq<Event>,
) -> (ConnectionState, metrics::MetricValues)
    decreases events.len(),
{
    if events.len() == 0 {
        (s, v)
    } else {
        let (s1, v1) = after_events(s, v, events.drop_last());
        (s1.next(events.last()).0, s1.recorded(v1, events.last()))
    }
}

/// Every event is acceptable when it happens.
pub open spec fn all_acceptable(
    s: ConnectionState,
    v: metrics::MetricValues,
    events: Seq<Event>,
) -> bool
    decreases events.len(),
{
    events.len() > 0 ==> {
        &&& all_acceptable(s, v, events.drop_last())
        &&& acceptable(after_events(s, v, events.drop_last()).0, events.last())
    }
}

proof fn lemma_after_events_consistent(
    s: ConnectionState,
    v: metrics::MetricValues,
    events: Seq<Event>,
)
    requires
        s.consistent(),
        all_acceptable(s, v, events),
    ensures
        after_events(s, v, events).0.consistent(),
    decreases events.len(),
{
    if events.len() > 0 {
        lemma_after_events_consistent(s, v, events.drop_last());
        events_keep_connections_consistent(
            after_events(s, v, events.drop_last()).0,
            events.last(),
        );
    }
}

/// The origin gets what the client sent: whenever bytes are replayed, in
/// whatever run of events, flight and overflow together are exactly what was
/// received. For TLS the flight alone carries the name that was routed by.
#[verifier::rlimit(40)]
pub proof fn origin_gets_what_the_client_sent(
    s: ConnectionState,
    v: metrics::MetricValues,
    events: Seq<Event>,
    flight: Seq<u8>,
    overflow: Seq<u8>,
)
    requires
        s.consistent(),
        all_acceptable(s, v, events),
        after_events(s, v, events).0.stage is Dialing,
        after_events(s, v, events).0.next(Event::Connected).1 == Todo::Forward(flight, overflow),
    ensures
        ({
            let now = after_events(s, v, events).0;
            &&& flight + overflow == now.reader.received
            &&& now.reader.kind is Tls ==> sni::peek(flight).0 == sni::Peek::Tls(now.target.host)
        }),
{
    lemma_after_events_consistent(s, v, events);
    let now = after_events(s, v, events).0;
    let received = now.reader.received;
    let port = now.reader.listen_port;
    match now.reader.kind {
        ReaderKind::Tls => {
            service::tls_bytes_are_all_forwarded(received, port, now.target);
        },
        ReaderKind::Http => {
            service::http_request_is_replayed(received, port, now.target);
            assert(flight + overflow =~= received);
        },
    }
}

/// A connection is dialled where its routing says: to the destination of the
/// target that the client's bytes name, once the hosts table lists it.
pub proof fn dialled_where_routed(
    s: ConnectionState,
    rules: Option<hosts::HostsRules>,
    routes: Seq<(Seq<char>, Seq<char>)>,
)
    requires
        s.consistent(),
        s.stage is Routing,
        is_listed(rules, s.target.host),
    ensures
        ({
            let d = service::destination(
                s.target.host,
                s.target.port,
                s.reader.listen_port,
                rules,
                routes,
            );
            let routed = s.next(Event::Routed(rules, routes)).0;
            &&& service::reading(s.reader.kind, s.reader.received, s.reader.listen_port)
                == service::Reading::Found(s.target)
            &&& routed.next(Event::LimitChecked(Ok(()))).1 == Todo::Dial(d.0, d.1)
        }),
{
}

/// The hosts table is an allowlist, whatever the routes say: a connection for a
/// host that it does not list is never dialled, all that can still happen is
/// that it is given up; and one that it lists goes where the table sends it.
pub proof fn only_listed_hosts_are_relayed(
    s: ConnectionState,
    v: metrics::MetricValues,
    rules: hosts::HostsRules,
    routes: Seq<(Seq<char>, Seq<char>)>,
    events: Seq<Event>,
)
    requires
        s.stage is Routing,
        all_acceptable(s.next(Event::Routed(Some(rules), routes)).0, v, events),
    ensures
        ({
            let (routed, todo) = s.next(Event::Routed(Some(rules), routes));
            let after = after_events(routed, v, events).0;
            match hosts::looked_up(rules, s.target.host) {
                None => {
                    &&& todo == Todo::Fail(ConnectionError::NotListed)
                    &&& events.len() == 0 ==> after.stage is Failing
                    &&& events.len() > 0 ==> events.len() == 1 && events[0] is Failed
                        && after.stage is Ended
                },
                Some(backend) => {
                    let d = service::backend_destination(
                        s.target.host,
                        s.target.port,
                        s.reader.listen_port,
                        backend,
                    );
                    routed.next(Event::LimitChecked(Ok(()))).1 == Todo::Dial(d.0, d.1)
                },
            }
        }),
    decreases events.len(),
{
    if events.len() > 0 {
        only_listed_hosts_are_relayed(s, v, rules, routes, events.drop_last());
        assert(events.last() == events[events.len() - 1]);
    }
}

/// A connection that its domain's limits refuse is never dialled: all that can
/// still happen is that it is given up.
pub proof fn refused_connection_ends(
    s: ConnectionState,
    v: metrics::MetricValues,
    reason: LimitReason,
    events: Seq<Event>,
)
    requires
        s.stage is Limiting,
        all_acceptable(s.next(Event::LimitChecked(Err(reason))).0, v, events),
    ensures
        ({
            let refused = s.next(Event::LimitChecked(Err(reason))).0;
            let after = after_events(refused, v, events).0;
            &&& events.len() == 0 ==> after.stage is Failing
            &&& events.len() > 0 ==> events.len() == 1 && events[0] is Failed && after.stage
                is Ended
        }),
    decreases events.len(),
{
    if events.len() > 0 {
        refused_connection_ends(s, v, reason, events.drop_last());
        assert(events.last() == events[events.len() - 1]);
    }
}

/// A transfer that passes the daily bandwidth of its domain while it runs is
/// ended at that chunk: nothing more can happen to the connection, and what it
/// has passed is counted as for any session that is closed.
pub proof fn exceeding_transfer_is_cut(
    s: ConnectionState,
    v: metrics::MetricValues,
    limits: domain_limiter::LimiterState,
    bytes: u64,
    today: u32,
    key: Seq<char>,
)
    requires
        s.stage is Splicing,
        bytes > 0,
        domain_limiter::limit_key(limits.domains.dom(), s.target.host) == Some(key),
        limits.domains[key].limit.daily_bandwidth matches Some(max)
            && domain_limiter::refreshed(limits.domains[key].counters, today).bytes + bytes > max.0,
    ensures
        ({
            let verdict = charged(limits, s.target.host, bytes, today).1;
            let (after, todo) = s.next(Event::Charged(verdict));
            &&& todo == Todo::Cut(LimitReason::DailyBandwidth)
            &&& forall|event: Event| !(#[trigger] can_happen(after.stage, event))
            &&& s.recorded(v, Event::Charged(verdict)) == metrics::closed(
                v,
                s.labels,
                s.client_to_upstream,
                s.upstream_to_client,
            )
        }),
{
}

/// A connection counts as active exactly while its tunnel stands: before that,
/// and once it has ended, in whatever way, the active gauges are where they were
/// before it began, and while the tunnel stands the total is one higher.
pub proof fn active_while_the_tunnel_stands(
    s: ConnectionState,
    v: metrics::MetricValues,
    events: Seq<Event>,
    labels: Seq<Seq<char>>,
)
    requires
        s.stage is Peeking || s.stage is Reading,
        all_acceptable(s, v, events),
    ensures
        ({
            let (after, now) = after_events(s, v, events);
            if is_open(after.stage) {
                &&& now.active == metrics::wrapped_i64(v.active + 1)
                &&& now.active_by == metrics::levelled(v.active_by, after.labels, 1)
            } else {
                &&& now.active == v.active
                &&& metrics::level_at(now.active_by, labels) == metrics::level_at(
                    v.active_by,
                    labels,
                )
                &&& after.stage is Ended || now.active_by == v.active_by
            }
        }),
    decreases events.len(),
{
    if events.len() > 0 {
        let init = events.drop_last();
        active_while_the_tunnel_stands(s, v, init, labels);
        let (before, was) = after_events(s, v, init);
        if is_open(before.stage) {
            metrics::ended_session_is_not_active(v, before.labels, 0, 0, labels);
        }
    }
}

/// A TLS client that names a host is relayed, in however many reads its hello
/// comes: more is read until it is complete, then the destination is looked up,
/// the limits of the domain are asked, the destination is dialled, the hello is
/// replayed with what came behind it, and bytes are passed until both sides have
/// ended.
pub proof fn named_hello_is_relayed(
    s: ConnectionState,
    skipped: Seq<(u8, u8, Seq<u8>)>,
    hello: sni::NamedHello,
    rest: Seq<u8>,
    chunk: Seq<u8>,
    rules: Option<hosts::HostsRules>,
    routes: Seq<(Seq<char>, Seq<char>)>,
)
    requires
        forall|i: int| 0 <= i < skipped.len() ==> (#[trigger] skipped[i]).2.len() < 65536,
        hello.well_formed(),
        s.stage is Reading,
        s.reader.kind is Tls,
        chunk.len() > 0,
        s.reader.received + chunk == sni::cipher_spec_records(skipped) + hello.record() + rest,
        is_listed(rules, text::lowercase(vstd::utf8::decode_utf8(hello.name))),
    ensures
        ({
            let name = text::lowercase(vstd::utf8::decode_utf8(hello.name));
            let port = s.reader.listen_port;
            let to = service::destination(name, port, port, rules, routes);
            let flight = sni::cipher_spec_records(skipped) + hello.record();
            let (read, one) = s.next(Event::Received(chunk));
            let (routed, two) = read.next(Event::Routed(rules, routes));
            let (allowed, three) = routed.next(Event::LimitChecked(Ok(())));
            let (connected, four) = allowed.next(Event::Connected);
            let (forwarded, five) = connected.next(Event::Forwarded);
            let (ended, six) = forwarded.next(Event::Spliced);
            &&& one == Todo::Route && read.stage is Routing
            &&& two == Todo::CheckLimit(name) && routed.stage is Limiting
            &&& routed.labels == seq![
                s.labels[0],
                metrics::label_of(name),
                metrics::label_of(to.0),
            ]
            &&& three == Todo::Dial(to.0, to.1) && allowed.stage is Dialing
            &&& four == Todo::Forward(flight, rest) && connected.stage is Forwarding
            &&& five == Todo::Splice && forwarded.stage is Splicing
            &&& six == Todo::Done && ended.stage is Ended
        }),
{
    service::named_hello_is_routed(skipped, hello, rest, s.reader.listen_port);
    let flight = sni::cipher_spec_records(skipped) + hello.record();
    assert(flight.len() > 0);
}

/// As long as the bytes say no more than that more are needed, more are read; a
/// client that closes, and bytes that name no target, end the connection with
/// the reason.
pub proof fn reading_goes_on_until_the_target_is_known(s: ConnectionState, chunk: Seq<u8>)
    requires
        s.stage is Reading,
    ensures
        ({
            let received = s.reader.received + chunk;
            let reading = service::reading(s.reader.kind, received, s.reader.listen_port);
            let (after, todo) = s.next(Event::Received(chunk));
            &&& after.reader.received == received
            &&& after.reader.kind == s.reader.kind
            &&& after.reader.listen_port == s.reader.listen_port
            &&& chunk.len() == 0 ==> after.stage is Failing && todo is Fail
            &&& chunk.len() == 0 && s.reader.kind is Tls ==> todo == Todo::Fail(
                ConnectionError::Read { cause: ReadError::ClosedInHandshake },
            )
            &&& chunk.len() == 0 && s.reader.kind is Http ==> todo == Todo::Fail(
                ConnectionError::Read { cause: ReadError::ClosedInHeaders },
            )
            &&& chunk.len() > 0 ==> match reading {
                service::Reading::More(room) => after.stage is Reading && todo == Todo::Read(room),
                service::Reading::Found(target) => after.target == target && (
                target.reply.len() == 0 ==> after.stage is Routing && todo == Todo::Route) && (
                target.reply.len() > 0 ==> after.stage is Replying && todo == Todo::Reply(
                    target.reply,
                )),
                service::Reading::Fail(cause) => after.stage is Failing && todo == Todo::Fail(
                    ConnectionError::Read { cause },
                ),
            }
        }),
{
}

/// A CONNECT client is answered and then routed as any other, and nothing is
/// replayed for it: bytes are passed as soon as the tunnel stands.
pub proof fn connect_client_is_relayed(
    s: ConnectionState,
    rules: Option<hosts::HostsRules>,
    routes: Seq<(Seq<char>, Seq<char>)>,
)
    requires
        s.stage is Replying,
        s.target.flight.len() == 0,
        s.target.overflow.len() == 0,
        is_listed(rules, s.target.host),
    ensures
        ({
            let to = service::destination(
                s.target.host,
                s.target.port,
                s.reader.listen_port,
                rules,
                routes,
            );
            let (replied, one) = s.next(Event::Replied);
            let (routed, two) = replied.next(Event::Routed(rules, routes));
            let (allowed, three) = routed.next(Event::LimitChecked(Ok(())));
            let (connected, four) = allowed.next(Event::Connected);
            &&& one == Todo::Route
            &&& two == Todo::CheckLimit(s.target.host)
            &&& three == Todo::Dial(to.0, to.1)
            &&& four == Todo::Splice && connected.stage is Splicing
        }),
{
}

/// A client on a listener without a set protocol is read by its first bytes, from
/// the start.
pub proof fn peeked_client_is_read_from_the_start(s: ConnectionState, bytes: Seq<u8>)
    requires
        s.stage is Peeking,
    ensures
        ({
            let (after, todo) = s.next(Event::Peeked(bytes));
            &&& after.stage is Reading
            &&& after.reader.received.len() == 0
            &&& after.reader.kind == service::kind_by_bytes(bytes)
            &&& after.reader.listen_port == s.reader.listen_port
            &&& todo == Todo::Read(
                if service::kind_by_bytes(bytes) is Tls {
                    16384
                } else {
                    8192
                },
            )
        }),
{
}

/// Bytes that are passed are counted in their own direction, all of them as long
/// as the counters have room, and the connection goes on.
pub proof fn passed_bytes_are_counted(s: ConnectionState, n: u64)
    requires
        s.stage is Splicing,
        s.client_to_upstream + s.upstream_to_client + n <= u64::MAX,
    ensures
        ({
            let (up, todo) = s.next(Event::Passed(Direction::ClientToUpstream, n));
            let (down, _) = s.next(Event::Passed(Direction::UpstreamToClient, n));
            &&& up.client_to_upstream == s.client_to_upstream + n
            &&& up.upstream_to_client == s.upstream_to_client
            &&& down.upstream_to_client == s.upstream_to_client + n
            &&& down.client_to_upstream == s.client_to_upstream
            &&& up.stage is Splicing && down.stage is Splicing && todo == Todo::Splice
            &&& up.labels == s.labels && down.labels == s.labels
        }),
{
}

/// A transfer within the limits of its domain goes on unchanged.
pub proof fn transfer_within_limits_goes_on(
    s: ConnectionState,
    v: metrics::MetricValues,
    limits: domain_limiter::LimiterState,
    bytes: u64,
    today: u32,
)
    requires
        s.stage is Splicing,
        domain_limiter::limit_key(limits.domains.dom(), s.target.host) matches Some(key) ==> (
        limits.domains[key].limit.daily_bandwidth matches Some(max) ==> bytes + (
        if limits.domains[key].counters.day == today {
            limits.domains[key].counters.bytes as int
        } else {
            0
        }) <= max.0),
    ensures
        ({
            let verdict = charged(limits, s.target.host, bytes, today).1;
            &&& verdict is Ok
            &&& s.next(Event::Charged(verdict)) == (s, Todo::Splice)
            &&& s.recorded(v, Event::Charged(verdict)) == v
        }),
{
    let key = domain_limiter::limit_key(limits.domains.dom(), s.target.host);
    if bytes > 0 && key is Some {
        let limit = limits.domains[key->0].limit.daily_bandwidth;
        if limit is Some {
            domain_limiter::transfer_is_judged_by_what_is_used(
                limits,
                s.target.host,
                bytes,
                key->0,
                limit->0,
                today,
            );
        } else {
            domain_limiter::unlimited_transfer_goes_on(limits, s.target.host, bytes, today);
        }
    } else {
        domain_limiter::unlimited_transfer_goes_on(limits, s.target.host, bytes, today);
    }
}

/// The metrics follow the connection: it is opened when the tunnel stands, closed
/// with the bytes that it passed when both directions have ended or a limit cuts
/// it, and failed when it is given up. No other event is measured.
pub proof fn connection_is_measured(s: ConnectionState, v: metrics::MetricValues, event: Event)
    ensures
        event is Connected ==> s.recorded(v, event) == metrics::opened(v, s.labels),
        event is Spliced || (event is Charged && event->Charged_0 is Err) ==> s.recorded(v, event)
            == metrics::closed(v, s.labels, s.client_to_upstream, s.upstream_to_client),
        event is Failed ==> s.recorded(v, event) == metrics::failed(
            v,
            s.labels,
            s.stage is Forwarding || s.stage is Splicing,
        ),
        !(event is Connected) && !(event is Spliced) && !(event is Failed) && !(event is Charged
            && event->Charged_0 is Err) ==> s.recorded(v, event) == v,
{
}

/// Each event has its stage, and a connection that has ended has none left; until
/// then it can be given up at any time, which ends it.
pub proof fn events_have_their_stage(s: ConnectionState, event: Event)
    ensures
        s.stage is Ended ==> !can_happen(s.stage, event),
        !(s.stage is Ended) ==> can_happen(s.stage, Event::Failed),
        s.next(Event::Failed).0.stage is Ended,
        s.next(Event::Failed).1 == Todo::Done,
        event is Peeked ==> (can_happen(s.stage, event) <==> s.stage is Peeking),
        event is Received ==> (can_happen(s.stage, event) <==> s.stage is Reading),
        event is Replied ==> (can_happen(s.stage, event) <==> s.stage is Replying),
        event is Routed ==> (can_happen(s.stage, event) <==> s.stage is Routing),
        event is LimitChecked ==> (can_happen(s.stage, event) <==> s.stage is Limiting),
        event is Connected ==> (can_happen(s.stage, event) <==> s.stage is Dialing),
        event is Forwarded ==> (can_happen(s.stage, event) <==> s.stage is Forwarding),
        event is Charged || event is Passed || event is Spliced ==> (can_happen(s.stage, event)
            <==> s.stage is Splicing),
{
}

/// A refusal of the domain's limits ends the connection with the reason.
pub proof fn refused_limit_is_told(s: ConnectionState, reason: LimitReason)
    ensures
        s.next(Event::LimitChecked(Err(reason))).1 == Todo::Fail(
            ConnectionError::Limit { reason },
        ),
        s.next(Event::LimitChecked(Err(reason))).0.stage is Failing,
{
}

/// Counted bytes never shrink, and those of both directions together never
/// outgrow a `u64`: where there is no room for all of them, as many are counted
/// as fit.
pub proof fn counted_bytes_never_shrink(s: ConnectionState, direction: Direction, n: u64)
    requires
        s.consistent(),
    ensures
        ({
            let after = s.next(Event::Passed(direction, n)).0;
            let before_sum = s.client_to_upstream + s.upstream_to_client;
            let after_sum = after.client_to_upstream + after.upstream_to_client;
            &&& after.client_to_upstream >= s.client_to_upstream
            &&& after.upstream_to_client >= s.upstream_to_client
            &&& after_sum == (if before_sum + n <= u64::MAX {
                before_sum + n
            } else {
                u64::MAX as int
            })
        }),
{
}

} // verus!
