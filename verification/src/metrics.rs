//! Prometheus metrics with per-domain, upstream, and client IP breakdown.

use prometheus::{IntCounter, IntCounterVec, IntGauge, IntGaugeVec, Opts, Registry};
use vstd::prelude::*;
use vstd::slice::{slice_subrange, slice_to_vec};
use vstd::utf8;

use crate::ip;
use crate::text;

verus! {

// ── Counters and gauges of the prometheus crate ──────────────────────────────

/// A number modulo 2^64, as a `u64` holds it.
pub open spec fn wrapped_u64(n: int) -> u64 {
    (n % 0x1_0000_0000_0000_0000) as u64
}

/// A number modulo 2^64, as an `i64` holds it.
pub open spec fn wrapped_i64(n: int) -> i64 {
    ((n + 0x8000_0000_0000_0000) % 0x1_0000_0000_0000_0000 - 0x8000_0000_0000_0000) as i64
}

/// A letter or an underscore.
pub open spec fn is_letter(c: char) -> bool {
    'a' <= c <= 'z' || 'A' <= c <= 'Z' || c == '_'
}

/// `s` can be the name of a label: ASCII letters, underscores and, after the
/// first character, digits.
pub open spec fn is_label_name(s: Seq<char>) -> bool {
    &&& s.len() > 0
    &&& is_letter(s[0])
    &&& forall|i: int| 0 <= i < s.len() ==> is_letter(#[trigger] s[i]) || '0' <= s[i] <= '9'
}

/// `s` can be the name of a metric: as a label, but colons may stand anywhere.
pub open spec fn is_metric_name(s: Seq<char>) -> bool {
    &&& s.len() > 0
    &&& is_letter(s[0]) || s[0] == ':'
    &&& forall|i: int|
        0 <= i < s.len() ==> is_letter(#[trigger] s[i]) || s[i] == ':' || '0' <= s[i] <= '9'
}

/// The texts of a list.
pub open spec fn str_views(labels: Seq<&str>) -> Seq<Seq<char>> {
    labels.map_values(|s: &str| s@)
}

/// Label names that can stand together.
pub open spec fn are_label_names(labels: Seq<Seq<char>>) -> bool {
    &&& forall|i: int| 0 <= i < labels.len() ==> is_label_name(#[trigger] labels[i])
    &&& forall|i: int, j: int|
        0 <= i < j < labels.len() ==> #[trigger] labels[i] != #[trigger] labels[j]
}

/// How a metric is described: its name, its help text, then its label names.
pub open spec fn description(name: Seq<char>, help: Seq<char>, labels: Seq<Seq<char>>) -> Seq<
    Seq<char>,
> {
    seq![name, help] + labels
}

/// `prometheus::Registry`: a handle to what is exported. No function of this
/// library makes a second handle to the same contents, so that here they change
/// through `&mut` alone.
#[verifier::external_type_specification]
#[verifier::external_body]
pub struct ExRegistry(Registry);

/// The identifiers of the descriptions that a registry holds.
pub uninterp spec fn registry_ids(registry: Registry) -> Set<u64>;

/// The numbers under which a registry keeps what it collects from: for what has
/// one description, its identifier.
pub uninterp spec fn registry_collectors(registry: Registry) -> Set<u64>;

/// The shape that each name known to a registry must have.
pub uninterp spec fn registry_shapes(registry: Registry) -> Map<Seq<char>, u64>;

/// The identifier of a description without constant labels: the FNV hash that
/// the crate makes of the name.
pub uninterp spec fn metric_id(name: Seq<char>) -> u64;

/// The shape of a description: the FNV hash that the crate makes of the help
/// text and the label names that follow it.
pub uninterp spec fn metric_shape(help_and_labels: Seq<Seq<char>>) -> u64;

/// What a registry holds.
#[verifier::ext_equal]
pub struct Exports {
    pub ids: Set<u64>,
    pub collectors: Set<u64>,
    pub shapes: Map<Seq<char>, u64>,
}

/// The three together.
pub open spec fn held(
    ids: Set<u64>,
    collectors: Set<u64>,
    shapes: Map<Seq<char>, u64>,
) -> Exports {
    Exports { ids, collectors, shapes }
}

/// What a registry holds.
pub open spec fn exports(registry: Registry) -> Exports {
    held(registry_ids(registry), registry_collectors(registry), registry_shapes(registry))
}

/// The description is new and agrees with what its name stood for before.
pub open spec fn is_consistent(e: Exports, name: Seq<char>, id: u64, shape: u64) -> bool {
    !e.ids.contains(id) && (e.shapes.contains_key(name) ==> e.shapes[name] == shape)
}

/// A metric of this description is taken.
pub open spec fn is_taken(e: Exports, name: Seq<char>, id: u64, shape: u64) -> bool {
    is_consistent(e, name, id, shape) && !e.collectors.contains(id)
}

/// What is held after a metric of this description was offered. The name keeps
/// its shape even where nothing else is taken.
pub open spec fn after_offer(e: Exports, name: Seq<char>, id: u64, shape: u64) -> Exports {
    if is_taken(e, name, id, shape) {
        Exports {
            ids: e.ids.insert(id),
            collectors: e.collectors.insert(id),
            shapes: e.shapes.insert(name, shape),
        }
    } else if is_consistent(e, name, id, shape) {
        Exports { shapes: e.shapes.insert(name, shape), ..e }
    } else {
        e
    }
}

/// A counter.
#[verifier::external_body]
#[derive(Debug)]
pub struct Counter {
    inner: IntCounter,
}

/// What a counter stands at.
pub uninterp spec fn counter_value(counter: Counter) -> u64;

/// How a counter is described.
pub uninterp spec fn counter_description(counter: Counter) -> Seq<Seq<char>>;

impl Counter {
    /// `IntCounter::new` makes a counter that stands at 0. It succeeds on
    /// the name of a metric with a help text, and on nothing else.
    #[verifier::external_body]
    fn new(name: &str, help: &str) -> (r: Option<Self>)
        ensures
            r is Some <==> (is_metric_name(name@) && help@.len() > 0),
            r matches Some(counter) ==> counter_value(counter) == 0 && counter_description(counter)
                == description(name@, help@, seq![]),
    {
        IntCounter::new(name, help).ok().map(|inner| Counter { inner })
    }

    /// `Registry::register` takes the counter where its identifier is new and its
    /// name did not stand for another help text or other labels before, and
    /// refuses it otherwise.
    #[verifier::external_body]
    fn register(&self, registry: &mut Registry) -> (r: bool)
        ensures
            r == is_taken(
                held(
                    registry_ids(*old(registry)),
                    registry_collectors(*old(registry)),
                    registry_shapes(*old(registry)),
                ),
                counter_description(*self)[0],
                metric_id(counter_description(*self)[0]),
                metric_shape(counter_description(*self).drop_first()),
            ),
            held(
                registry_ids(*final(registry)),
                registry_collectors(*final(registry)),
                registry_shapes(*final(registry)),
            ) == after_offer(
                held(
                    registry_ids(*old(registry)),
                    registry_collectors(*old(registry)),
                    registry_shapes(*old(registry)),
                ),
                counter_description(*self)[0],
                metric_id(counter_description(*self)[0]),
                metric_shape(counter_description(*self).drop_first()),
            ),
    {
        registry.register(Box::new(self.inner.clone())).is_ok()
    }

    /// `IntCounter::inc_by` adds `n`, wrapping around at 2^64.
    #[verifier::external_body]
    fn inc_by(&mut self, n: u64)
        ensures
            counter_description(*final(self)) == counter_description(*old(self)),
            counter_value(*final(self)) == wrapped_u64(counter_value(*old(self)) + n),
    {
        self.inner.inc_by(n);
    }
}

/// A gauge.
#[verifier::external_body]
#[derive(Debug)]
pub struct Gauge {
    inner: IntGauge,
}

/// What a gauge stands at.
pub uninterp spec fn gauge_value(gauge: Gauge) -> i64;

/// How a gauge is described.
pub uninterp spec fn gauge_description(gauge: Gauge) -> Seq<Seq<char>>;

impl Gauge {
    /// `IntGauge::new` makes a gauge that stands at 0. It succeeds on the
    /// name of a metric with a help text, and on nothing else.
    #[verifier::external_body]
    fn new(name: &str, help: &str) -> (r: Option<Self>)
        ensures
            r is Some <==> (is_metric_name(name@) && help@.len() > 0),
            r matches Some(gauge) ==> gauge_value(gauge) == 0 && gauge_description(gauge)
                == description(name@, help@, seq![]),
    {
        IntGauge::new(name, help).ok().map(|inner| Gauge { inner })
    }

    /// `Registry::register` takes the gauge where its identifier is new and its
    /// name did not stand for another help text or other labels before, and
    /// refuses it otherwise.
    #[verifier::external_body]
    fn register(&self, registry: &mut Registry) -> (r: bool)
        ensures
            r == is_taken(
                held(
                    registry_ids(*old(registry)),
                    registry_collectors(*old(registry)),
                    registry_shapes(*old(registry)),
                ),
                gauge_description(*self)[0],
                metric_id(gauge_description(*self)[0]),
                metric_shape(gauge_description(*self).drop_first()),
            ),
            held(
                registry_ids(*final(registry)),
                registry_collectors(*final(registry)),
                registry_shapes(*final(registry)),
            ) == after_offer(
                held(
                    registry_ids(*old(registry)),
                    registry_collectors(*old(registry)),
                    registry_shapes(*old(registry)),
                ),
                gauge_description(*self)[0],
                metric_id(gauge_description(*self)[0]),
                metric_shape(gauge_description(*self).drop_first()),
            ),
    {
        registry.register(Box::new(self.inner.clone())).is_ok()
    }

    /// `IntGauge::inc` adds 1, wrapping around.
    #[verifier::external_body]
    fn inc(&mut self)
        ensures
            gauge_description(*final(self)) == gauge_description(*old(self)),
            gauge_value(*final(self)) == wrapped_i64(gauge_value(*old(self)) + 1),
    {
        self.inner.inc();
    }

    /// `IntGauge::dec` subtracts 1, wrapping around.
    #[verifier::external_body]
    fn dec(&mut self)
        ensures
            gauge_description(*final(self)) == gauge_description(*old(self)),
            gauge_value(*final(self)) == wrapped_i64(gauge_value(*old(self)) - 1),
    {
        self.inner.dec();
    }
}

/// No counter yet.
pub open spec fn no_counts() -> Map<u64, u64> {
    Map::empty()
}

/// No gauge yet.
pub open spec fn no_levels() -> Map<u64, i64> {
    Map::empty()
}

/// Where the metric for a list of label values is kept in a family: the FNV
/// hash of the values' bytes one after the other.
pub uninterp spec fn label_slot(labels: Seq<Seq<char>>) -> u64;

/// Counters that share a name and differ in their label values.
#[verifier::external_body]
#[derive(Debug)]
pub struct CounterFamily {
    inner: IntCounterVec,
}

/// What the counters of a family stand at, by slot.
pub uninterp spec fn family_counts(family: CounterFamily) -> Map<u64, u64>;

/// How a family of counters is described.
pub uninterp spec fn counter_family_description(family: CounterFamily) -> Seq<Seq<char>>;

impl CounterFamily {
    /// `IntCounterVec::new` makes an empty family. It succeeds on the
    /// name of a metric with a help text and distinct label names, and on
    /// nothing else.
    #[verifier::external_body]
    fn new(name: &str, help: &str, labels: &[&str]) -> (r: Option<Self>)
        ensures
            r is Some <==> (is_metric_name(name@) && help@.len() > 0 && are_label_names(
                str_views(labels@),
            )),
            r matches Some(family) ==> family_counts(family) == no_counts()
                && counter_family_description(family) == description(name@, help@, str_views(labels@)),
    {
        IntCounterVec::new(Opts::new(name, help), labels).ok().map(|inner| CounterFamily { inner })
    }

    /// `Registry::register` takes the family where its identifier is new and its
    /// name did not stand for another help text or other labels before, and
    /// refuses it otherwise.
    #[verifier::external_body]
    fn register(&self, registry: &mut Registry) -> (r: bool)
        ensures
            r == is_taken(
                held(
                    registry_ids(*old(registry)),
                    registry_collectors(*old(registry)),
                    registry_shapes(*old(registry)),
                ),
                counter_family_description(*self)[0],
                metric_id(counter_family_description(*self)[0]),
                metric_shape(counter_family_description(*self).drop_first()),
            ),
            held(
                registry_ids(*final(registry)),
                registry_collectors(*final(registry)),
                registry_shapes(*final(registry)),
            ) == after_offer(
                held(
                    registry_ids(*old(registry)),
                    registry_collectors(*old(registry)),
                    registry_shapes(*old(registry)),
                ),
                counter_family_description(*self)[0],
                metric_id(counter_family_description(*self)[0]),
                metric_shape(counter_family_description(*self).drop_first()),
            ),
    {
        registry.register(Box::new(self.inner.clone())).is_ok()
    }

    /// `IntCounterVec::with_label_values` finds the counter for the label
    /// values, or makes one that stands at 0, and `IntCounter::inc_by` adds `n`
    /// to it, wrapping around at 2^64. The number of values must be that of the
    /// labels.
    #[verifier::external_body]
    fn inc_by(&mut self, labels: &[&str], n: u64)
        requires
            labels@.len() + 2 == counter_family_description(*old(self)).len(),
        ensures
            counter_family_description(*final(self)) == counter_family_description(*old(self)),
            family_counts(*final(self)) == family_counts(*old(self)).insert(
                label_slot(str_views(labels@)),
                wrapped_u64(count_at(family_counts(*old(self)), str_views(labels@)) + n),
            ),
    {
        self.inner.with_label_values(labels).inc_by(n);
    }
}

/// Gauges that share a name and differ in their label values.
#[verifier::external_body]
#[derive(Debug)]
pub struct GaugeFamily {
    inner: IntGaugeVec,
}

/// What the gauges of a family stand at, by slot.
pub uninterp spec fn family_levels(family: GaugeFamily) -> Map<u64, i64>;

/// How a family of gauges is described.
pub uninterp spec fn gauge_family_description(family: GaugeFamily) -> Seq<Seq<char>>;

impl GaugeFamily {
    /// `IntGaugeVec::new` makes an empty family. It succeeds on the name
    /// of a metric with a help text and distinct label names, and on nothing
    /// else.
    #[verifier::external_body]
    fn new(name: &str, help: &str, labels: &[&str]) -> (r: Option<Self>)
        ensures
            r is Some <==> (is_metric_name(name@) && help@.len() > 0 && are_label_names(
                str_views(labels@),
            )),
            r matches Some(family) ==> family_levels(family) == no_levels()
                && gauge_family_description(family) == description(name@, help@, str_views(labels@)),
    {
        IntGaugeVec::new(Opts::new(name, help), labels).ok().map(|inner| GaugeFamily { inner })
    }

    /// `Registry::register` takes the family where its identifier is new and its
    /// name did not stand for another help text or other labels before, and
    /// refuses it otherwise.
    #[verifier::external_body]
    fn register(&self, registry: &mut Registry) -> (r: bool)
        ensures
            r == is_taken(
                held(
                    registry_ids(*old(registry)),
                    registry_collectors(*old(registry)),
                    registry_shapes(*old(registry)),
                ),
                gauge_family_description(*self)[0],
                metric_id(gauge_family_description(*self)[0]),
                metric_shape(gauge_family_description(*self).drop_first()),
            ),
            held(
                registry_ids(*final(registry)),
                registry_collectors(*final(registry)),
                registry_shapes(*final(registry)),
            ) == after_offer(
                held(
                    registry_ids(*old(registry)),
                    registry_collectors(*old(registry)),
                    registry_shapes(*old(registry)),
                ),
                gauge_family_description(*self)[0],
                metric_id(gauge_family_description(*self)[0]),
                metric_shape(gauge_family_description(*self).drop_first()),
            ),
    {
        registry.register(Box::new(self.inner.clone())).is_ok()
    }

    /// `IntGaugeVec::with_label_values` finds the gauge for the label values, or
    /// makes one that stands at 0, and `IntGauge::inc` adds 1 to it, wrapping
    /// around. The number of values must be that of the labels.
    #[verifier::external_body]
    fn inc(&mut self, labels: &[&str])
        requires
            labels@.len() + 2 == gauge_family_description(*old(self)).len(),
        ensures
            gauge_family_description(*final(self)) == gauge_family_description(*old(self)),
            family_levels(*final(self)) == family_levels(*old(self)).insert(
                label_slot(str_views(labels@)),
                wrapped_i64(level_at(family_levels(*old(self)), str_views(labels@)) + 1),
            ),
    {
        self.inner.with_label_values(labels).inc();
    }

    /// `IntGaugeVec::with_label_values` finds the gauge for the label values, or
    /// makes one that stands at 0, and `IntGauge::dec` subtracts 1 from it,
    /// wrapping around. The number of values must be that of the labels.
    #[verifier::external_body]
    fn dec(&mut self, labels: &[&str])
        requires
            labels@.len() + 2 == gauge_family_description(*old(self)).len(),
        ensures
            gauge_family_description(*final(self)) == gauge_family_description(*old(self)),
            family_levels(*final(self)) == family_levels(*old(self)).insert(
                label_slot(str_views(labels@)),
                wrapped_i64(level_at(family_levels(*old(self)), str_views(labels@)) - 1),
            ),
    {
        self.inner.with_label_values(labels).dec();
    }
}

/// What a counter stands at; 0 where there is none.
pub open spec fn count_at(counts: Map<u64, u64>, labels: Seq<Seq<char>>) -> u64 {
    if counts.contains_key(label_slot(labels)) {
        counts[label_slot(labels)]
    } else {
        0
    }
}

/// What a gauge stands at; 0 where there is none.
pub open spec fn level_at(levels: Map<u64, i64>, labels: Seq<Seq<char>>) -> i64 {
    if levels.contains_key(label_slot(labels)) {
        levels[label_slot(labels)]
    } else {
        0
    }
}

/// The counts after `n` was added under the label values.
pub open spec fn counted(counts: Map<u64, u64>, labels: Seq<Seq<char>>, n: int) -> Map<u64, u64> {
    counts.insert(label_slot(labels), wrapped_u64(count_at(counts, labels) + n))
}

/// The levels after `n` was added under the label values.
pub open spec fn levelled(levels: Map<u64, i64>, labels: Seq<Seq<char>>, n: int) -> Map<u64, i64> {
    levels.insert(label_slot(labels), wrapped_i64(level_at(levels, labels) + n))
}

// ── Labels ───────────────────────────────────────────────────────────────────

/// ASCII letters, digits and `.`, `_`, `-`, `:` stay; anything else becomes `_`.
pub open spec fn label_char(c: char) -> char {
    if 'a' <= c <= 'z' || 'A' <= c <= 'Z' || '0' <= c <= '9' || c == '.' || c == '_' || c == '-'
        || c == ':' {
        c
    } else {
        '_'
    }
}

/// A text as a label value: at most 128 safe characters, `unknown` for none.
pub open spec fn label_of(raw: Seq<char>) -> Seq<char> {
    let s = raw.map_values(|c: char| label_char(c));
    if s.len() > 128 {
        s.take(128)
    } else if s.len() == 0 {
        "unknown"@
    } else {
        s
    }
}

/// Sanitize values for Prometheus labels (safe, bounded length).
pub fn label_value(raw: &str) -> (r: String)
    ensures
        r@ == label_of(raw@),
{
    let chars: Vec<char> = text::chars_of(raw);
    let ghost all = raw@.map_values(|c: char| label_char(c));
    let mut out: Vec<char> = Vec::new();
    for i in 0..chars.len()
        invariant
            chars@ == raw@,
            all == raw@.map_values(|c: char| label_char(c)),
            out@ == all.take(i as int),
    {
        let c: char = chars[i];
        let safe: bool = ('a' <= c && c <= 'z') || ('A' <= c && c <= 'Z') || ('0' <= c && c <= '9')
            || c == '.' || c == '_' || c == '-' || c == ':';
        if safe {
            out.push(c);
        } else {
            out.push('_');
        }
        assert(out@ =~= all.take(i + 1));
    }
    assert(all.take(all.len() as int) =~= all);
    if out.len() > 128 {
        assert(out@.subrange(0, 128) == out@.take(128));
        text::string_of(slice_subrange(out.as_slice(), 0, 128))
    } else if out.len() == 0 {
        "unknown".to_owned()
    } else {
        text::string_of(out.as_slice())
    }
}

/// The label for a peer: its IP address where it is a socket address, else the
/// text itself.
pub open spec fn peer_label(peer: Seq<char>) -> Seq<char> {
    match ip::socket_of(peer) {
        Some((address, _)) => label_of(ip::ip_text(address)),
        None => label_of(peer),
    }
}

/// Extract the client IP from `peer` (e.g. `1.2.3.4:12345` or `[::1]:1234`).
pub fn client_ip_from_peer(peer: &str) -> (r: String)
    ensures
        r@ == peer_label(peer@),
{
    let chars: Vec<char> = text::chars_of(peer);
    match ip::parse_socket_addr(chars.as_slice()) {
        Some(address) => label_value(address.ip.to_text().as_str()),
        None => label_value(peer),
    }
}

/// Labels for one proxied connection.
#[derive(Debug, Clone)]
pub struct TargetLabels {
    pub client_ip: String,
    pub domain: String,
    pub upstream: String,
}

impl View for TargetLabels {
    type V = Seq<Seq<char>>;

    /// The label values in order.
    open spec fn view(&self) -> Seq<Seq<char>> {
        seq![self.client_ip@, self.domain@, self.upstream@]
    }
}

impl TargetLabels {
    /// Nothing is known of the connection.
    pub fn unknown() -> (r: Self)
        ensures
            r@ == seq!["unknown"@, "unknown"@, "unknown"@],
    {
        TargetLabels {
            client_ip: "unknown".to_owned(),
            domain: "unknown".to_owned(),
            upstream: "unknown".to_owned(),
        }
    }

    /// Sets the client from the peer's address.
    pub fn set_client_ip_from_peer(&mut self, peer: &str)
        ensures
            final(self)@ == old(self)@.update(0, peer_label(peer@)),
    {
        self.client_ip = client_ip_from_peer(peer);
        assert(self@ =~= old(self)@.update(0, peer_label(peer@)));
    }

    /// Sets the domain that was asked for.
    pub fn set_domain(&mut self, domain: &str)
        ensures
            final(self)@ == old(self)@.update(1, label_of(domain@)),
    {
        self.domain = label_value(domain);
        assert(self@ =~= old(self)@.update(1, label_of(domain@)));
    }

    /// Sets the host that is connected to.
    pub fn set_upstream(&mut self, upstream: &str)
        ensures
            final(self)@ == old(self)@.update(2, label_of(upstream@)),
    {
        self.upstream = label_value(upstream);
        assert(self@ =~= old(self)@.update(2, label_of(upstream@)));
    }

    /// The label values in order.
    pub fn as_label_values(&self) -> (r: [&str; 3])
        ensures
            str_views(r@) == self@,
    {
        let values: [&str; 3] = [
            self.client_ip.as_str(),
            self.domain.as_str(),
            self.upstream.as_str(),
        ];
        assert(str_views(values@) =~= self@);
        values
    }
}

// ── The metrics ──────────────────────────────────────────────────────────────

/// All metrics of the proxy.
#[derive(Debug)]
pub struct Metrics {
    active_connections: Gauge,
    total_connections: Counter,
    bytes_proxied: Counter,
    connection_errors: Counter,
    accepted_connections: CounterFamily,
    active_by_label: GaugeFamily,
    connections_by_label: CounterFamily,
    bytes_by_label: CounterFamily,
    errors_by_label: CounterFamily,
}

/// What the metrics stand at.
#[verifier::ext_equal]
pub struct MetricValues {
    /// Currently active proxy connections (all)
    pub active: i64,
    /// Successful proxy sessions opened (all)
    pub total: u64,
    /// Bytes proxied in both directions (all)
    pub bytes: u64,
    /// Failed connections (all)
    pub errors: u64,
    /// TCP connections accepted, by client IP
    pub accepted: Map<u64, u64>,
    /// Active connections, by client IP, domain, and upstream target
    pub active_by: Map<u64, i64>,
    /// Successful proxy sessions, by client IP, domain, and upstream target
    pub total_by: Map<u64, u64>,
    /// Bytes proxied, by client IP, domain, upstream, and direction
    pub bytes_by: Map<u64, u64>,
    /// Failed connections, by client IP, domain, and upstream target
    pub errors_by: Map<u64, u64>,
}

impl View for Metrics {
    type V = MetricValues;

    closed spec fn view(&self) -> MetricValues {
        MetricValues {
            active: gauge_value(self.active_connections),
            total: counter_value(self.total_connections),
            bytes: counter_value(self.bytes_proxied),
            errors: counter_value(self.connection_errors),
            accepted: family_counts(self.accepted_connections),
            active_by: family_levels(self.active_by_label),
            total_by: family_counts(self.connections_by_label),
            bytes_by: family_counts(self.bytes_by_label),
            errors_by: family_counts(self.errors_by_label),
        }
    }
}

/// Nothing measured yet.
pub open spec fn nothing_measured() -> MetricValues {
    MetricValues {
        active: 0,
        total: 0,
        bytes: 0,
        errors: 0,
        accepted: Map::empty(),
        active_by: Map::empty(),
        total_by: Map::empty(),
        bytes_by: Map::empty(),
        errors_by: Map::empty(),
    }
}

/// The values after a connection from a peer was accepted.
pub open spec fn accepted(v: MetricValues, peer: Seq<char>) -> MetricValues {
    MetricValues { accepted: counted(v.accepted, seq![peer_label(peer)], 1), ..v }
}

/// The values after a session was opened.
pub open spec fn opened(v: MetricValues, labels: Seq<Seq<char>>) -> MetricValues {
    MetricValues {
        active: wrapped_i64(v.active + 1),
        total: wrapped_u64(v.total + 1),
        active_by: levelled(v.active_by, labels, 1),
        total_by: counted(v.total_by, labels, 1),
        ..v
    }
}

/// Bytes by direction after `n` more; a direction without bytes is left alone.
pub open spec fn bytes_counted(
    counts: Map<u64, u64>,
    labels: Seq<Seq<char>>,
    direction: Seq<char>,
    n: u64,
) -> Map<u64, u64> {
    if n > 0 {
        counted(counts, labels.push(direction), n as int)
    } else {
        counts
    }
}

/// The values after a session was closed with so many bytes in each direction.
pub open spec fn closed(
    v: MetricValues,
    labels: Seq<Seq<char>>,
    client_to_upstream: u64,
    upstream_to_client: u64,
) -> MetricValues {
    MetricValues {
        active: wrapped_i64(v.active - 1),
        active_by: levelled(v.active_by, labels, -1),
        bytes: wrapped_u64(v.bytes + (client_to_upstream + upstream_to_client)),
        bytes_by: bytes_counted(
            bytes_counted(v.bytes_by, labels, "client_to_upstream"@, client_to_upstream),
            labels,
            "upstream_to_client"@,
            upstream_to_client,
        ),
        ..v
    }
}

/// The values after a connection failed, opened before or not.
pub open spec fn failed(v: MetricValues, labels: Seq<Seq<char>>, was_open: bool) -> MetricValues {
    MetricValues {
        errors: wrapped_u64(v.errors + 1),
        errors_by: counted(v.errors_by, labels, 1),
        active: if was_open {
            wrapped_i64(v.active - 1)
        } else {
            v.active
        },
        active_by: if was_open {
            levelled(v.active_by, labels, -1)
        } else {
            v.active_by
        },
        ..v
    }
}

/// How the metrics of the proxy are described.
pub open spec fn proxy_descriptions() -> Seq<Seq<Seq<char>>> {
    let client = seq!["client_ip"@];
    let target = seq!["client_ip"@, "domain"@, "upstream"@];
    let directed = seq!["client_ip"@, "domain"@, "upstream"@, "direction"@];
    seq![
        description(
            "sniproxy_active_connections"@,
            "Currently active proxy connections (all)"@,
            seq![],
        ),
        description(
            "sniproxy_connections_total"@,
            "Successful proxy sessions opened (all)"@,
            seq![],
        ),
        description(
            "sniproxy_bytes_proxied_total"@,
            "Bytes proxied in both directions (all)"@,
            seq![],
        ),
        description("sniproxy_connection_errors_total"@, "Failed connections (all)"@, seq![]),
        description(
            "sniproxy_accepted_connections_total"@,
            "TCP connections accepted on proxy listeners (before TLS/HTTP parsing)"@,
            client,
        ),
        description(
            "sniproxy_active_connections_by_target"@,
            "Active connections by client IP, SNI/Host domain, and upstream target"@,
            target,
        ),
        description(
            "sniproxy_connections_by_target_total"@,
            "Successful proxy sessions by client IP, domain, and upstream target"@,
            target,
        ),
        description(
            "sniproxy_bytes_proxied_by_target_total"@,
            "Bytes proxied by client IP, domain, upstream, and direction"@,
            directed,
        ),
        description(
            "sniproxy_connection_errors_by_target_total"@,
            "Failed connections by client IP, domain, and upstream target"@,
            target,
        ),
    ]
}

/// A metric of this description is taken.
pub open spec fn takes(e: Exports, d: Seq<Seq<char>>) -> bool {
    is_taken(e, d[0], metric_id(d[0]), metric_shape(d.drop_first()))
}

/// What is held after a metric of this description was offered.
pub open spec fn offered(e: Exports, d: Seq<Seq<char>>) -> Exports {
    after_offer(e, d[0], metric_id(d[0]), metric_shape(d.drop_first()))
}

/// The metrics from `i` on are all taken, one after the other.
pub open spec fn all_taken(e: Exports, list: Seq<Seq<Seq<char>>>, i: int) -> bool
    decreases list.len() - i,
{
    i >= list.len() || takes(e, list[i]) && all_taken(offered(e, list[i]), list, i + 1)
}

/// What is held after the metrics from `i` on were offered one after the other,
/// up to the first that was refused.
pub open spec fn after_offers(e: Exports, list: Seq<Seq<Seq<char>>>, i: int) -> Exports
    decreases list.len() - i,
{
    if i >= list.len() {
        e
    } else if takes(e, list[i]) {
        after_offers(offered(e, list[i]), list, i + 1)
    } else {
        offered(e, list[i])
    }
}

proof fn lemma_label_names()
    ensures
        are_label_names(seq!["client_ip"@]),
        are_label_names(seq!["client_ip"@, "domain"@, "upstream"@]),
        are_label_names(seq!["client_ip"@, "domain"@, "upstream"@, "direction"@]),
{
    reveal_strlit("client_ip");
    reveal_strlit("domain");
    reveal_strlit("upstream");
    reveal_strlit("direction");
    assert(is_label_name("client_ip"@));
    assert(is_label_name("domain"@));
    assert(is_label_name("upstream"@));
    assert(is_label_name("direction"@));
    assert("client_ip"@[0] != "direction"@[0]);
    assert("client_ip"@.len() == 9 && "domain"@.len() == 6 && "upstream"@.len() == 8
        && "direction"@.len() == 9);
}

impl Metrics {
    /// How the metrics are described, in the order in which they are exported.
    pub closed spec fn descriptions(&self) -> Seq<Seq<Seq<char>>> {
        seq![
            gauge_description(self.active_connections),
            counter_description(self.total_connections),
            counter_description(self.bytes_proxied),
            counter_description(self.connection_errors),
            counter_family_description(self.accepted_connections),
            gauge_family_description(self.active_by_label),
            counter_family_description(self.connections_by_label),
            counter_family_description(self.bytes_by_label),
            counter_family_description(self.errors_by_label),
        ]
    }

    /// Each metric has its name, its help text and its labels.
    pub open spec fn well_formed(&self) -> bool {
        self.descriptions() == proxy_descriptions()
    }

    /// Metrics that stand at nothing, not exported yet.
    pub fn new() -> (r: Self)
        ensures
            r.well_formed(),
            r@ == nothing_measured(),
    {
        let client: [&str; 1] = ["client_ip"];
        let target: [&str; 3] = ["client_ip", "domain", "upstream"];
        let directed: [&str; 4] = ["client_ip", "domain", "upstream", "direction"];
        proof {
            lemma_label_names();
            assert(str_views(client@) =~= seq!["client_ip"@]);
            assert(str_views(target@) =~= seq!["client_ip"@, "domain"@, "upstream"@]);
            assert(str_views(directed@) =~= seq![
                "client_ip"@,
                "domain"@,
                "upstream"@,
                "direction"@,
            ]);
        }
        proof {
            reveal_strlit("sniproxy_active_connections");
            reveal_strlit("Currently active proxy connections (all)");
        }
        let active_connections: Gauge = Gauge::new(
            "sniproxy_active_connections",
            "Currently active proxy connections (all)",
        ).unwrap();
        proof {
            reveal_strlit("sniproxy_connections_total");
            reveal_strlit("Successful proxy sessions opened (all)");
        }
        let total_connections: Counter = Counter::new(
            "sniproxy_connections_total",
            "Successful proxy sessions opened (all)",
        ).unwrap();
        proof {
            reveal_strlit("sniproxy_bytes_proxied_total");
            reveal_strlit("Bytes proxied in both directions (all)");
        }
        let bytes_proxied: Counter = Counter::new(
            "sniproxy_bytes_proxied_total",
            "Bytes proxied in both directions (all)",
        ).unwrap();
        proof {
            reveal_strlit("sniproxy_connection_errors_total");
            reveal_strlit("Failed connections (all)");
        }
        let connection_errors: Counter = Counter::new(
            "sniproxy_connection_errors_total",
            "Failed connections (all)",
        ).unwrap();
        proof {
            reveal_strlit("sniproxy_accepted_connections_total");
            reveal_strlit("TCP connections accepted on proxy listeners (before TLS/HTTP parsing)");
        }
        let accepted_connections: CounterFamily = CounterFamily::new(
            "sniproxy_accepted_connections_total",
            "TCP connections accepted on proxy listeners (before TLS/HTTP parsing)",
            client.as_slice(),
        ).unwrap();
        proof {
            reveal_strlit("sniproxy_active_connections_by_target");
            reveal_strlit("Active connections by client IP, SNI/Host domain, and upstream target");
        }
        let active_by_label: GaugeFamily = GaugeFamily::new(
            "sniproxy_active_connections_by_target",
            "Active connections by client IP, SNI/Host domain, and upstream target",
            target.as_slice(),
        ).unwrap();
        proof {
            reveal_strlit("sniproxy_connections_by_target_total");
            reveal_strlit("Successful proxy sessions by client IP, domain, and upstream target");
        }
        let connections_by_label: CounterFamily = CounterFamily::new(
            "sniproxy_connections_by_target_total",
            "Successful proxy sessions by client IP, domain, and upstream target",
            target.as_slice(),
        ).unwrap();
        proof {
            reveal_strlit("sniproxy_bytes_proxied_by_target_total");
            reveal_strlit("Bytes proxied by client IP, domain, upstream, and direction");
        }
        let bytes_by_label: CounterFamily = CounterFamily::new(
            "sniproxy_bytes_proxied_by_target_total",
            "Bytes proxied by client IP, domain, upstream, and direction",
            directed.as_slice(),
        ).unwrap();
        proof {
            reveal_strlit("sniproxy_connection_errors_by_target_total");
            reveal_strlit("Failed connections by client IP, domain, and upstream target");
        }
        let errors_by_label: CounterFamily = CounterFamily::new(
            "sniproxy_connection_errors_by_target_total",
            "Failed connections by client IP, domain, and upstream target",
            target.as_slice(),
        ).unwrap();
        Metrics {
            active_connections,
            total_connections,
            bytes_proxied,
            connection_errors,
            accepted_connections,
            active_by_label,
            connections_by_label,
            bytes_by_label,
            errors_by_label,
        }
    }

    /// Exports the metrics through a registry, one after the other; stops at the
    /// first that the registry refuses, with false.
    pub fn register(&self, registry: &mut Registry) -> (r: bool)
        ensures
            r == all_taken(exports(*old(registry)), self.descriptions(), 0),
            exports(*final(registry)) == after_offers(
                exports(*old(registry)),
                self.descriptions(),
                0,
            ),
    {
        proof {
            reveal_with_fuel(all_taken, 10);
            reveal_with_fuel(after_offers, 10);
        }
        self.active_connections.register(registry) && self.total_connections.register(registry)
            && self.bytes_proxied.register(registry) && self.connection_errors.register(registry)
            && self.accepted_connections.register(registry) && self.active_by_label.register(
            registry,
        ) && self.connections_by_label.register(registry) && self.bytes_by_label.register(registry)
            && self.errors_by_label.register(registry)
    }
}

/// Count every accepted TCP connection (includes failures before upstream open).
pub fn connection_accepted(metrics: &mut Metrics, peer: &str)
    requires
        old(metrics).well_formed(),
    ensures
        final(metrics).well_formed(),
        final(metrics)@ == accepted(old(metrics)@, peer@),
{
    let ip: String = client_ip_from_peer(peer);
    let labels: [&str; 1] = [ip.as_str()];
    assert(str_views(labels@) =~= seq![peer_label(peer@)]);
    metrics.accepted_connections.inc_by(labels.as_slice(), 1);
}

/// Counts a session that was opened.
pub fn connection_opened(metrics: &mut Metrics, labels: &TargetLabels)
    requires
        old(metrics).well_formed(),
    ensures
        final(metrics).well_formed(),
        final(metrics)@ == opened(old(metrics)@, labels@),
{
    let lv: [&str; 3] = labels.as_label_values();
    metrics.active_connections.inc();
    metrics.total_connections.inc_by(1);
    metrics.active_by_label.inc(lv.as_slice());
    metrics.connections_by_label.inc_by(lv.as_slice(), 1);
}

/// Counts a session that was closed, with the bytes in each direction.
pub fn connection_closed(
    metrics: &mut Metrics,
    labels: &TargetLabels,
    client_to_upstream: u64,
    upstream_to_client: u64,
)
    requires
        old(metrics).well_formed(),
        client_to_upstream + upstream_to_client <= u64::MAX,
    ensures
        final(metrics).well_formed(),
        final(metrics)@ == closed(
            old(metrics)@,
            labels@,
            client_to_upstream,
            upstream_to_client,
        ),
{
    let lv: [&str; 3] = labels.as_label_values();
    metrics.active_connections.dec();
    metrics.active_by_label.dec(lv.as_slice());
    metrics.bytes_proxied.inc_by(client_to_upstream + upstream_to_client);
    if client_to_upstream > 0 {
        let up: [&str; 4] = [lv[0], lv[1], lv[2], "client_to_upstream"];
        assert(str_views(up@) =~= str_views(lv@).push("client_to_upstream"@));
        metrics.bytes_by_label.inc_by(up.as_slice(), client_to_upstream);
    }
    if upstream_to_client > 0 {
        let down: [&str; 4] = [lv[0], lv[1], lv[2], "upstream_to_client"];
        assert(str_views(down@) =~= str_views(lv@).push("upstream_to_client"@));
        metrics.bytes_by_label.inc_by(down.as_slice(), upstream_to_client);
    }
}

/// Counts a connection that failed.
pub fn connection_failed(metrics: &mut Metrics, labels: &TargetLabels, was_open: bool)
    requires
        old(metrics).well_formed(),
    ensures
        final(metrics).well_formed(),
        final(metrics)@ == failed(old(metrics)@, labels@, was_open),
{
    let lv: [&str; 3] = labels.as_label_values();
    metrics.connection_errors.inc_by(1);
    metrics.errors_by_label.inc_by(lv.as_slice(), 1);
    if was_open {
        metrics.active_connections.dec();
        metrics.active_by_label.dec(lv.as_slice());
    }
}

// ── The metrics endpoint ─────────────────────────────────────────────────────

/// Seconds between two snapshots: as configured, but at least one.
pub fn refresh_interval(refresh_secs: u64) -> (r: u64)
    ensures
        r == (if refresh_secs == 0 {
            1
        } else {
            refresh_secs
        }),
{
    if refresh_secs == 0 {
        1
    } else {
        refresh_secs
    }
}

/// The head of the answer to a scrape.
pub fn response_head(status: &str, body_len: u64) -> (r: String)
    ensures
        r@ == "HTTP/1.1 "@ + status@
            + "\r\nContent-Type: text/plain; version=0.0.4; charset=utf-8\r\nConnection: close\r\nContent-Length: "@
            + text::decimal(body_len as nat) + "\r\n\r\n"@,
{
    let mut out: String = "HTTP/1.1 ".to_owned();
    text::push_text(&mut out, status);
    text::push_text(
        &mut out,
        "\r\nContent-Type: text/plain; version=0.0.4; charset=utf-8\r\nConnection: close\r\nContent-Length: ",
    );
    text::push_decimal(&mut out, body_len);
    text::push_text(&mut out, "\r\n\r\n");
    out
}

/// The status and the body of the answer to a scrape: the snapshot, or the one
/// that was waited for where there was none yet.
pub fn scrape_answer(snapshot: Vec<u8>, waited: Option<Vec<u8>>) -> (r: (&'static str, Vec<u8>))
    ensures
        match (snapshot@.len() > 0, waited) {
            (true, _) => r.0@ == "200 OK"@ && r.1@ == snapshot@,
            (false, Some(body)) => r.0@ == "200 OK"@ && r.1@ == body@,
            (false, None) => r.0@ == "503 Service Unavailable"@ && r.1@ == utf8::encode_utf8(
                "metrics snapshot not ready yet\n"@,
            ),
        },
{
    if snapshot.len() > 0 {
        return ("200 OK", snapshot);
    }
    match waited {
        Some(body) => ("200 OK", body),
        None => (
            "503 Service Unavailable",
            slice_to_vec("metrics snapshot not ready yet\n".as_bytes()),
        ),
    }
}

// ── Laws ─────────────────────────────────────────────────────────────────────

/// Something that is measured.
pub enum Measured {
    Accepted(Seq<char>),
    Opened(Seq<Seq<char>>),
    Closed(Seq<Seq<char>>, u64, u64),
    Failed(Seq<Seq<char>>, bool),
}

/// The values after one thing more was measured.
pub open spec fn measured(v: MetricValues, what: Measured) -> MetricValues {
    match what {
        Measured::Accepted(peer) => accepted(v, peer),
        Measured::Opened(labels) => opened(v, labels),
        Measured::Closed(labels, up, down) => closed(v, labels, up, down),
        Measured::Failed(labels, was_open) => failed(v, labels, was_open),
    }
}

/// The values after all of it was measured, in order.
pub open spec fn all_measured(v: MetricValues, list: Seq<Measured>) -> MetricValues
    decreases list.len(),
{
    if list.len() == 0 {
        v
    } else {
        measured(all_measured(v, list.drop_last()), list.last())
    }
}

/// Sessions opened minus sessions ended, among those that `slot` keeps, or
/// among all where no slot is given.
pub open spec fn balance(list: Seq<Measured>, slot: Option<u64>) -> int
    decreases list.len(),
{
    if list.len() == 0 {
        0
    } else {
        balance(list.drop_last(), slot) + match list.last() {
            Measured::Accepted(_) => 0int,
            Measured::Opened(labels) => if slot is None || slot == Some(label_slot(labels)) {
                1int
            } else {
                0int
            },
            Measured::Closed(labels, _, _) => if slot is None || slot == Some(label_slot(labels)) {
                -1int
            } else {
                0int
            },
            Measured::Failed(labels, was_open) => if was_open && (slot is None || slot == Some(
                label_slot(labels),
            )) {
                -1int
            } else {
                0int
            },
        }
    }
}

proof fn lemma_wrapped(n: int, d: int)
    requires
        -1 <= d <= 1,
    ensures
        wrapped_i64(wrapped_i64(n) + d) == wrapped_i64(n + d),
{
}

proof fn lemma_wrapped_i64(n: i64)
    ensures
        wrapped_i64(n as int) == n,
{
}

/// The active gauges tell the sessions that are open: whatever is measured, in
/// whatever order, each stands at what it stood at plus the sessions opened
/// minus those ended, in all and for every list of label values.
pub proof fn active_is_opened_minus_ended(
    v: MetricValues,
    list: Seq<Measured>,
    labels: Seq<Seq<char>>,
)
    ensures
        all_measured(v, list).active == wrapped_i64(v.active + balance(list, None)),
        level_at(all_measured(v, list).active_by, labels) == wrapped_i64(
            level_at(v.active_by, labels) + balance(list, Some(label_slot(labels))),
        ),
    decreases list.len(),
{
    let slot = Some(label_slot(labels));
    if list.len() == 0 {
        lemma_wrapped_i64(v.active);
        lemma_wrapped_i64(level_at(v.active_by, labels));
    } else {
        let init = list.drop_last();
        active_is_opened_minus_ended(v, init, labels);
        let d = balance(list, None) - balance(init, None);
        let e = balance(list, slot) - balance(init, slot);
        lemma_wrapped(v.active + balance(init, None), d);
        lemma_wrapped(level_at(v.active_by, labels) + balance(init, slot), e);
        lemma_wrapped_i64(all_measured(v, init).active);
        lemma_wrapped_i64(level_at(all_measured(v, init).active_by, labels));
    }
}

/// A session that is opened and then closed, or fails, leaves the active gauges
/// where they were.
pub proof fn ended_session_is_not_active(
    v: MetricValues,
    labels: Seq<Seq<char>>,
    up: u64,
    down: u64,
    others: Seq<Seq<char>>,
)
    ensures
        closed(opened(v, labels), labels, up, down).active == v.active,
        failed(opened(v, labels), labels, true).active == v.active,
        level_at(closed(opened(v, labels), labels, up, down).active_by, others) == level_at(
            v.active_by,
            others,
        ),
        level_at(failed(opened(v, labels), labels, true).active_by, others) == level_at(
            v.active_by,
            others,
        ),
{
    lemma_wrapped(v.active + 1, -1);
    lemma_wrapped_i64(v.active);
    lemma_wrapped(level_at(v.active_by, labels) + 1, -1);
    lemma_wrapped_i64(level_at(v.active_by, labels));
}

proof fn lemma_wrapped_u64(c: u64, a: u64, b: u64)
    ensures
        wrapped_u64(c as int) == c,
        wrapped_u64(wrapped_u64(c + a) + b) == wrapped_u64(c + a + b),
{
}

proof fn lemma_bytes_by(counts: Map<u64, u64>, labels: Seq<Seq<char>>, up: u64, down: u64)
    ensures
        ({
            let sent = labels.push("client_to_upstream"@);
            let got = labels.push("upstream_to_client"@);
            let after = bytes_counted(
                bytes_counted(counts, labels, "client_to_upstream"@, up),
                labels,
                "upstream_to_client"@,
                down,
            );
            if label_slot(sent) == label_slot(got) {
                &&& count_at(after, sent) == wrapped_u64(count_at(counts, sent) + up + down)
                &&& count_at(after, got) == wrapped_u64(count_at(counts, got) + down + up)
            } else {
                &&& count_at(after, sent) == wrapped_u64(count_at(counts, sent) + up)
                &&& count_at(after, got) == wrapped_u64(count_at(counts, got) + down)
            }
        }),
{
    let sent = labels.push("client_to_upstream"@);
    let got = labels.push("upstream_to_client"@);
    lemma_wrapped_u64(count_at(counts, sent), up, down);
    lemma_wrapped_u64(count_at(counts, got), up, down);
    let between = bytes_counted(counts, labels, "client_to_upstream"@, up);
    assert(count_at(between, sent) == wrapped_u64(count_at(counts, sent) + up));
}

/// A session that is opened and then closed counts its bytes: the total grows by
/// those of both directions, and the counter of each direction by its own; if
/// the two share a slot, the one counter that it keeps grows by both. The active
/// gauges are back, the session totals stay one higher and the errors where they
/// were.
pub proof fn closed_session_counts_its_bytes(
    v: MetricValues,
    labels: Seq<Seq<char>>,
    up: u64,
    down: u64,
)
    ensures
        ({
            let after = closed(opened(v, labels), labels, up, down);
            let sent = labels.push("client_to_upstream"@);
            let got = labels.push("upstream_to_client"@);
            let shared = label_slot(sent) == label_slot(got);
            &&& after.active == v.active
            &&& level_at(after.active_by, labels) == level_at(v.active_by, labels)
            &&& after.bytes == wrapped_u64(v.bytes + (up + down))
            &&& count_at(after.bytes_by, sent) == wrapped_u64(
                count_at(v.bytes_by, sent) + up + (if shared {
                    down as int
                } else {
                    0
                }),
            )
            &&& count_at(after.bytes_by, got) == wrapped_u64(
                count_at(v.bytes_by, got) + down + (if shared {
                    up as int
                } else {
                    0
                }),
            )
            &&& after.total == wrapped_u64(v.total + 1)
            &&& count_at(after.total_by, labels) == wrapped_u64(count_at(v.total_by, labels) + 1)
            &&& after.errors == v.errors
            &&& after.errors_by == v.errors_by
        }),
{
    ended_session_is_not_active(v, labels, up, down, labels);
    lemma_bytes_by(v.bytes_by, labels, up, down);
}

proof fn lemma_ids_stay(e: Exports, list: Seq<Seq<Seq<char>>>, i: int)
    ensures
        e.ids.subset_of(after_offers(e, list, i).ids),
    decreases list.len() - i,
{
    if i < list.len() && takes(e, list[i]) {
        lemma_ids_stay(offered(e, list[i]), list, i + 1);
    }
}

/// Metrics are exported once: a registry that took them all refuses them when
/// they are offered again, and holds what it held.
pub proof fn metrics_are_exported_once(e: Exports, list: Seq<Seq<Seq<char>>>)
    requires
        list.len() > 0,
        all_taken(e, list, 0),
    ensures
        ({
            let first = after_offers(e, list, 0);
            !all_taken(first, list, 0) && after_offers(first, list, 0) == first
        }),
{
    lemma_ids_stay(offered(e, list[0]), list, 1);
}

/// Metrics that a registry knows nothing of are exported, all of them: their
/// identifiers are not held and differ, and their names stand for nothing yet.
pub proof fn new_metrics_are_exported(e: Exports, list: Seq<Seq<Seq<char>>>, i: int)
    requires
        0 <= i,
        forall|j: int|
            i <= j < list.len() ==> {
                &&& !e.ids.contains(metric_id((#[trigger] list[j])[0]))
                &&& !e.collectors.contains(metric_id(list[j][0]))
                &&& !e.shapes.contains_key(list[j][0])
            },
        forall|j: int, k: int|
            i <= j < k < list.len() ==> metric_id((#[trigger] list[j])[0]) != metric_id(
                (#[trigger] list[k])[0],
            ),
    ensures
        all_taken(e, list, i),
    decreases list.len() - i,
{
    if i < list.len() {
        new_metrics_are_exported(offered(e, list[i]), list, i + 1);
    }
}

/// Every label value has 1 to 128 characters, each of them safe.
pub proof fn labels_are_safe(raw: Seq<char>)
    ensures
        1 <= label_of(raw).len() <= 128,
        forall|i: int|
            0 <= i < label_of(raw).len() ==> label_char(#[trigger] label_of(raw)[i])
                == label_of(raw)[i],
        label_of(label_of(raw)) == label_of(raw),
{
    reveal_strlit("unknown");
    let s = label_of(raw);
    assert(s.map_values(|c: char| label_char(c)) =~= s);
}

/// A peer is labelled by its IP address alone, whatever its port.
pub proof fn peer_is_labelled_by_address(address: ip::IpAddress, port: u16)
    ensures
        peer_label(ip::socket_text(address@, port)) == label_of(ip::ip_text(address@)),
{
    ip::written_socket_is_read_back(address, port);
}

/// A label value is its text, character by character: letters, digits, `.`, `_`,
/// `-` and `:` as they are and `_` for any other, up to 128 of them. Only an
/// empty text is called unknown.
pub proof fn label_is_its_text(raw: Seq<char>, i: int)
    requires
        0 <= i < raw.len(),
        i < 128,
    ensures
        label_of(raw).len() == (if raw.len() < 128 {
            raw.len()
        } else {
            128
        }),
        ({
            let c = raw[i];
            let safe = 'a' <= c <= 'z' || 'A' <= c <= 'Z' || '0' <= c <= '9' || c == '.' || c
                == '_' || c == '-' || c == ':';
            label_of(raw)[i] == (if safe {
                c
            } else {
                '_'
            })
        }),
        label_of(Seq::empty()) == "unknown"@,
{
    let s = raw.map_values(|c: char| label_char(c));
    assert(s[i] == label_char(raw[i]));
    let none = Seq::<char>::empty().map_values(|c: char| label_char(c));
    assert(none.len() == 0);
}

/// A peer that is no socket address is labelled by its text.
pub proof fn other_peer_is_labelled_by_its_text(peer: Seq<char>)
    requires
        ip::socket_of(peer) is None,
    ensures
        peer_label(peer) == label_of(peer),
{
}

/// `after` counts `n` more than `before` under the label values, and the same
/// under all others that are kept elsewhere.
pub open spec fn counts_grew(
    before: Map<u64, u64>,
    after: Map<u64, u64>,
    labels: Seq<Seq<char>>,
    n: int,
) -> bool {
    &&& count_at(after, labels) == wrapped_u64(count_at(before, labels) + n)
    &&& forall|others: Seq<Seq<char>>|
        label_slot(others) != label_slot(labels) ==> #[trigger] count_at(after, others) == count_at(
            before,
            others,
        )
}

/// `after` stands `n` higher than `before` under the label values, and the same
/// under all others that are kept elsewhere.
pub open spec fn levels_moved(
    before: Map<u64, i64>,
    after: Map<u64, i64>,
    labels: Seq<Seq<char>>,
    n: int,
) -> bool {
    &&& level_at(after, labels) == wrapped_i64(level_at(before, labels) + n)
    &&& forall|others: Seq<Seq<char>>|
        label_slot(others) != label_slot(labels) ==> #[trigger] level_at(after, others) == level_at(
            before,
            others,
        )
}

/// An accepted connection counts for one under its client, and nothing else is
/// touched.
pub proof fn accepted_connection_is_counted(v: MetricValues, peer: Seq<char>)
    ensures
        ({
            let after = accepted(v, peer);
            &&& counts_grew(v.accepted, after.accepted, seq![peer_label(peer)], 1)
            &&& after == MetricValues { accepted: after.accepted, ..v }
        }),
{
}

/// An opened session counts for one, in all and under its labels, in the totals
/// and the active gauges, and nothing else is touched.
pub proof fn opened_session_is_counted(v: MetricValues, labels: Seq<Seq<char>>)
    ensures
        ({
            let after = opened(v, labels);
            &&& after.active == wrapped_i64(v.active + 1)
            &&& after.total == wrapped_u64(v.total + 1)
            &&& levels_moved(v.active_by, after.active_by, labels, 1)
            &&& counts_grew(v.total_by, after.total_by, labels, 1)
            &&& after.bytes == v.bytes && after.bytes_by == v.bytes_by
            &&& after.errors == v.errors && after.errors_by == v.errors_by
            &&& after.accepted == v.accepted
        }),
{
}

/// A failed connection counts for one error, in all and under its labels; it
/// leaves the active gauges only where it was open, and nothing else is touched.
pub proof fn failed_connection_is_counted(
    v: MetricValues,
    labels: Seq<Seq<char>>,
    was_open: bool,
)
    ensures
        ({
            let after = failed(v, labels, was_open);
            &&& after.errors == wrapped_u64(v.errors + 1)
            &&& counts_grew(v.errors_by, after.errors_by, labels, 1)
            &&& was_open ==> after.active == wrapped_i64(v.active - 1) && levels_moved(
                v.active_by,
                after.active_by,
                labels,
                -1,
            )
            &&& !was_open ==> after.active == v.active && after.active_by == v.active_by
            &&& after.total == v.total && after.total_by == v.total_by
            &&& after.bytes == v.bytes && after.bytes_by == v.bytes_by
            &&& after.accepted == v.accepted
        }),
{
}

/// A closed session leaves the active gauges and touches nothing but those and
/// the byte counters.
pub proof fn closed_session_leaves(
    v: MetricValues,
    labels: Seq<Seq<char>>,
    up: u64,
    down: u64,
)
    ensures
        ({
            let after = closed(v, labels, up, down);
            &&& after.active == wrapped_i64(v.active - 1)
            &&& levels_moved(v.active_by, after.active_by, labels, -1)
            &&& after.bytes == wrapped_u64(v.bytes + up + down)
            &&& after.total == v.total && after.total_by == v.total_by
            &&& after.errors == v.errors && after.errors_by == v.errors_by
            &&& after.accepted == v.accepted
            &&& up == 0 && down == 0 ==> after.bytes_by == v.bytes_by
        }),
{
}

/// Counters wrap at 2^64 and gauges at 2^63 either way; below that they are
/// exact.
pub proof fn counts_are_exact_up_to_their_size(n: int)
    ensures
        0 <= n <= u64::MAX ==> wrapped_u64(n) == n,
        i64::MIN <= n <= i64::MAX ==> wrapped_i64(n) == n,
        wrapped_u64(u64::MAX + 1) == 0,
        wrapped_i64(i64::MAX + 1) == i64::MIN,
{
}

/// The metrics are exported under nine names, each with the prefix that
/// dashboards know and no two alike, and each has a help text.
pub proof fn metric_names_are_distinct(i: int, j: int)
    requires
        0 <= i < j < 9,
    ensures
        proxy_descriptions().len() == 9,
        "sniproxy_"@.is_prefix_of(proxy_descriptions()[i][0]),
        "sniproxy_"@.is_prefix_of(proxy_descriptions()[j][0]),
        proxy_descriptions()[i][0] != proxy_descriptions()[j][0],
        proxy_descriptions()[i][1].len() > 0,
        is_metric_name(proxy_descriptions()[i][0]),
{
    reveal_strlit("sniproxy_");
    reveal_strlit("sniproxy_active_connections");
    reveal_strlit("sniproxy_connections_total");
    reveal_strlit("sniproxy_bytes_proxied_total");
    reveal_strlit("sniproxy_connection_errors_total");
    reveal_strlit("sniproxy_accepted_connections_total");
    reveal_strlit("sniproxy_active_connections_by_target");
    reveal_strlit("sniproxy_connections_by_target_total");
    reveal_strlit("sniproxy_bytes_proxied_by_target_total");
    reveal_strlit("sniproxy_connection_errors_by_target_total");
    reveal_strlit("Currently active proxy connections (all)");
    reveal_strlit("Successful proxy sessions opened (all)");
    reveal_strlit("Bytes proxied in both directions (all)");
    reveal_strlit("Failed connections (all)");
    reveal_strlit("TCP connections accepted on proxy listeners (before TLS/HTTP parsing)");
    reveal_strlit("Active connections by client IP, SNI/Host domain, and upstream target");
    reveal_strlit("Successful proxy sessions by client IP, domain, and upstream target");
    reveal_strlit("Bytes proxied by client IP, domain, upstream, and direction");
    reveal_strlit("Failed connections by client IP, domain, and upstream target");
    let a = proxy_descriptions()[i][0];
    let b = proxy_descriptions()[j][0];
    assert(a.take(9) =~= "sniproxy_"@);
    assert(b.take(9) =~= "sniproxy_"@);
    assert(a.len() != b.len() || a[9] != b[9] || a[10] != b[10]);
}

} // verus!
