//! Static hostname → backend address map (`hosts` in the configuration).

use regex::Regex;
use vstd::prelude::*;

use crate::ip;
use crate::ip::IpAddress;
use crate::keyed::KeyedList;
use crate::pattern;
use crate::text;

verus! {

/// One row in the `hosts` list.
#[derive(Debug, Clone)]
pub struct HostsEntry {
    /// Hostname (exact) or regex (e.g. `.*`).
    pub pattern: String,
    /// IPv4/IPv6 address, or `*` to use the client SNI/Host as-is.
    pub address: String,
}

/// Result of a hosts-table lookup.
#[derive(Debug, Clone, PartialEq)]
pub enum HostResolve {
    /// `*`: tunnel to the same hostname the client asked for.
    Passthrough,
    /// Fixed IP backend (DNS override).
    Ip(IpAddress),
    /// Rare: backend hostname string (not an IP).
    Hostname(String),
}

/// What a [`HostResolve`] says.
pub enum Backend {
    Passthrough,
    Ip(ip::Ip),
    Hostname(Seq<char>),
}

impl View for HostResolve {
    type V = Backend;

    open spec fn view(&self) -> Backend {
        match self {
            HostResolve::Passthrough => Backend::Passthrough,
            HostResolve::Ip(address) => Backend::Ip(address@),
            HostResolve::Hostname(name) => Backend::Hostname(name@),
        }
    }
}

impl HostResolve {
    fn copied(&self) -> (r: Self)
        ensures
            r@ == self@,
    {
        match self {
            HostResolve::Passthrough => HostResolve::Passthrough,
            HostResolve::Ip(address) => HostResolve::Ip(*address),
            HostResolve::Hostname(name) => HostResolve::Hostname(name.clone()),
        }
    }
}

/// The rules of a hosts table.
pub struct HostsRules {
    /// By lowercased hostname
    pub exact: Map<Seq<char>, Backend>,
    /// Regexes in order
    pub patterns: Seq<(Seq<char>, Backend)>,
}

/// Compiled `hosts` list.
#[derive(Debug)]
pub struct HostsTable {
    exact: KeyedList<HostResolve>,
    patterns: Vec<(Regex, HostResolve)>,
}

/// A row whose regex does not compile.
#[derive(Debug, Clone, PartialEq)]
pub struct HostsError {
    pub index: usize,
    pub pattern: String,
}

impl HostsError {
    /// The error as it is printed.
    pub fn message(&self) -> (r: String)
        ensures
            r@ == "hosts["@ + text::decimal(self.index as nat) + "]: invalid regex '"@
                + self.pattern@ + "'"@,
    {
        let mut out: String = "hosts[".to_owned();
        text::push_decimal(&mut out, self.index as u64);
        text::push_text(&mut out, "]: invalid regex '");
        text::push_text(&mut out, self.pattern.as_str());
        text::push_text(&mut out, "'");
        out
    }
}

/// What an address stands for: `*` for the name that was asked for, an IP
/// address for itself, anything else for a backend host.
pub open spec fn backend_of(address: Seq<char>) -> Backend {
    let address = text::trimmed(address);
    if address == "*"@ {
        Backend::Passthrough
    } else {
        match ip::ip_of(address) {
            Some(ip) => Backend::Ip(ip),
            None => Backend::Hostname(address),
        }
    }
}

/// A trimmed pattern is a regex: it holds `*` or `?`, begins with `^` or ends
/// with `$`. Any other is a hostname.
pub open spec fn is_regex(pattern: Seq<char>) -> bool {
    ||| pattern.contains('*')
    ||| pattern.contains('?')
    ||| pattern.len() > 0 && pattern[0] == '^'
    ||| pattern.len() > 0 && pattern.last() == '$'
}

/// The rules that rows of pattern and address give, in order. Of two rows for
/// one hostname the later one stands.
pub open spec fn rules_of(rows: Seq<(Seq<char>, Seq<char>)>) -> HostsRules
    decreases rows.len(),
{
    if rows.len() == 0 {
        HostsRules { exact: Map::empty(), patterns: Seq::empty() }
    } else {
        let before = rules_of(rows.drop_last());
        let pattern = text::trimmed(rows.last().0);
        let backend = backend_of(rows.last().1);
        if is_regex(pattern) {
            HostsRules {
                exact: before.exact,
                patterns: before.patterns.push((pattern, backend)),
            }
        } else {
            HostsRules {
                exact: before.exact.insert(text::lowercase(pattern), backend),
                patterns: before.patterns,
            }
        }
    }
}

/// The pattern compiles, if it is a regex at all.
pub open spec fn row_compiles(pattern: Seq<char>) -> bool {
    is_regex(text::trimmed(pattern)) ==> pattern::regex_compiles(
        text::trimmed(pattern),
        usize::BITS as int,
    )
}

/// The rows as text.
pub open spec fn row_views(entries: Seq<HostsEntry>) -> Seq<(Seq<char>, Seq<char>)> {
    entries.map_values(|e: HostsEntry| (e.pattern@, e.address@))
}

/// The backend of the first pattern that matches.
pub open spec fn first_match(patterns: Seq<(Seq<char>, Backend)>, host: Seq<char>) -> Option<
    Backend,
>
    decreases patterns.len(),
{
    if patterns.len() == 0 {
        None
    } else if pattern::regex_matches(patterns[0].0, host) {
        Some(patterns[0].1)
    } else {
        first_match(patterns.drop_first(), host)
    }
}

/// Where the rules send a hostname: its own row first, then the patterns in
/// order. Names are compared in lower case.
pub open spec fn looked_up(rules: HostsRules, hostname: Seq<char>) -> Option<Backend> {
    let host = text::lowercase(hostname);
    if rules.exact.contains_key(host) {
        Some(rules.exact[host])
    } else {
        first_match(rules.patterns, host)
    }
}

spec fn exact_view(exact: Map<Seq<char>, HostResolve>) -> Map<Seq<char>, Backend> {
    exact.map_values(|r: HostResolve| r@)
}

spec fn patterns_view(patterns: Seq<(Regex, HostResolve)>) -> Seq<(Seq<char>, Backend)> {
    patterns.map_values(|p: (Regex, HostResolve)| (pattern::regex_source(p.0), p.1@))
}

impl View for HostsTable {
    type V = HostsRules;

    closed spec fn view(&self) -> HostsRules {
        HostsRules { exact: exact_view(self.exact@), patterns: patterns_view(self.patterns@) }
    }
}

impl HostsTable {
    /// Every hostname has one row.
    pub closed spec fn well_formed(&self) -> bool {
        self.exact.well_formed()
    }

    /// Compiles the rows.
    pub fn compile(entries: &[HostsEntry]) -> (r: Result<Self, HostsError>)
        ensures
            r is Ok <==> forall|i: int|
                0 <= i < entries@.len() ==> row_compiles((#[trigger] entries@[i]).pattern@),
            r matches Ok(table) ==> table.well_formed() && table@ == rules_of(row_views(entries@)),
            r matches Err(e) ==> {
                &&& e.index < entries@.len()
                &&& !row_compiles(entries@[e.index as int].pattern@)
                &&& forall|i: int|
                    0 <= i < e.index ==> row_compiles((#[trigger] entries@[i]).pattern@)
                &&& e.pattern@ == text::trimmed(entries@[e.index as int].pattern@)
            },
    {
        let mut exact: KeyedList<HostResolve> = KeyedList::new();
        let mut patterns: Vec<(Regex, HostResolve)> = Vec::new();
        let ghost rows = row_views(entries@);
        assert(rows.take(0) =~= Seq::empty());
        assert(exact_view(exact@) =~= Map::empty());
        assert(patterns_view(patterns@) =~= Seq::empty());
        for i in 0..entries.len()
            invariant
                exact.well_formed(),
                rows == row_views(entries@),
                exact_view(exact@) == rules_of(rows.take(i as int)).exact,
                patterns_view(patterns@) == rules_of(rows.take(i as int)).patterns,
                forall|j: int|
                    0 <= j < i ==> row_compiles((#[trigger] entries@[j]).pattern@),
        {
            let (is_exact, key, resolve): (bool, String, HostResolve) = compile_entry(
                entries[i].pattern.as_str(),
                entries[i].address.as_str(),
            );
            assert(rows.take(i + 1).drop_last() =~= rows.take(i as int));
            assert(rows.take(i + 1).last() == (
                entries@[i as int].pattern@,
                entries@[i as int].address@,
            ));
            if is_exact {
                let ghost before = exact@;
                let ghost k = key@;
                let ghost v = resolve;
                exact.insert(key, resolve);
                assert(exact_view(exact@) =~= exact_view(before).insert(k, v@));
            } else {
                match Regex::new(key.as_str()) {
                    Ok(re) => {
                        let ghost before = patterns@;
                        patterns.push((re, resolve));
                        assert(patterns_view(patterns@) =~= patterns_view(before).push(
                            (key@, resolve@),
                        ));
                    },
                    Err(_) => {
                        return Err(HostsError { index: i, pattern: key });
                    },
                }
            }
        }
        assert(rows.take(entries@.len() as int) =~= rows);
        Ok(HostsTable { exact, patterns })
    }

    /// First-match wins: exact host map, then regex patterns in config order.
    pub fn resolve(&self, hostname: &str) -> (r: Option<HostResolve>)
        requires
            self.well_formed(),
        ensures
            looked_up(self@, hostname@) == (match r {
                Some(resolve) => Some(resolve@),
                None => None,
            }),
            !self@.exact.contains_key(text::lowercase(hostname@)) && self@.patterns.len() > 0
                && self@.patterns[0].0 == ".*"@ ==> looked_up(self@, hostname@) == Some(
                self@.patterns[0].1,
            ),
            vstd::utf8::is_ascii_chars(hostname@) ==> looked_up(self@, text::lowercase(hostname@))
                == looked_up(self@, hostname@),
    {
        let host: String = hostname.to_lowercase();
        if let Some(i) = self.exact.find(host.as_str()) {
            return Some(self.exact.value(i).copied());
        }
        let ghost all = self@.patterns;
        assert(all.skip(0) =~= all);
        for i in 0..self.patterns.len()
            invariant
                all == patterns_view(self.patterns@),
                host@ == text::lowercase(hostname@),
                vstd::utf8::is_ascii_chars(hostname@) ==> text::lowercase(host@) == host@,
                !self@.exact.contains_key(host@),
                looked_up(self@, hostname@) == first_match(all.skip(i as int), host@),
                i > 0 ==> all[0].0 != ".*"@,
        {
            let ghost rest = all.skip(i as int);
            assert(rest.drop_first() =~= all.skip(i + 1));
            assert(rest[0] == (
                pattern::regex_source(self.patterns@[i as int].0),
                self.patterns@[i as int].1@,
            ));
            if self.patterns[i].0.is_match(host.as_str()) {
                return Some(self.patterns[i].1.copied());
            }
        }
        None
    }

    /// How many hostnames and how many patterns there are.
    pub fn stats(&self) -> (r: (usize, usize))
        requires
            self.well_formed(),
        ensures
            r.0 == self@.exact.len(),
            r.1 == self@.patterns.len(),
    {
        assert(self@.exact.dom() =~= self.exact@.dom());
        (self.exact.len(), self.patterns.len())
    }
}

/// Compiles the rows, if there are any.
pub fn compile_hosts_table(entries: &[HostsEntry]) -> (r: Result<Option<HostsTable>, HostsError>)
    ensures
        r is Ok <==> forall|i: int|
            0 <= i < entries@.len() ==> row_compiles((#[trigger] entries@[i]).pattern@),
        r matches Ok(table) ==> (table is Some <==> entries@.len() > 0),
        r matches Ok(Some(table)) ==> table.well_formed() && table@ == rules_of(
            row_views(entries@),
        ),
        r matches Err(e) ==> {
            &&& e.index < entries@.len()
            &&& !row_compiles(entries@[e.index as int].pattern@)
            &&& forall|i: int| 0 <= i < e.index ==> row_compiles((#[trigger] entries@[i]).pattern@)
            &&& e.pattern@ == text::trimmed(entries@[e.index as int].pattern@)
        },
{
    if entries.len() == 0 {
        return Ok(None);
    }
    match HostsTable::compile(entries) {
        Ok(table) => Ok(Some(table)),
        Err(e) => Err(e),
    }
}

/// Reads one row: whether it is for one hostname, the lowercased hostname or
/// the regex, and where it leads.
pub fn compile_entry(pattern: &str, address: &str) -> (r: (bool, String, HostResolve))
    ensures
        r.0 == !is_regex(text::trimmed(pattern@)),
        r.1@ == (if r.0 {
            text::lowercase(text::trimmed(pattern@))
        } else {
            text::trimmed(pattern@)
        }),
        r.2@ == backend_of(address@),
{
    let resolve: HostResolve = parse_address(address);
    let chars: Vec<char> = text::chars_of(pattern);
    let trimmed: &[char] = text::trim(chars.as_slice());
    let n: usize = trimmed.len();
    let regex: bool = text::index_of(trimmed, '*').is_some() || text::index_of(
        trimmed,
        '?',
    ).is_some() || (n > 0 && trimmed[0] == '^') || (n > 0 && trimmed[n - 1] == '$');
    let key: String = text::string_of(trimmed);
    if regex {
        (false, key, resolve)
    } else {
        (true, key.to_lowercase(), resolve)
    }
}

/// Reads the address of a row.
pub fn parse_address(address: &str) -> (r: HostResolve)
    ensures
        r@ == backend_of(address@),
{
    let chars: Vec<char> = text::chars_of(address);
    let trimmed: &[char] = text::trim(chars.as_slice());
    if text::is_text(trimmed, "*") {
        return HostResolve::Passthrough;
    }
    match ip::parse_ip(trimmed) {
        Some(ip) => HostResolve::Ip(ip),
        None => HostResolve::Hostname(text::string_of(trimmed)),
    }
}

// ── Laws ─────────────────────────────────────────────────────────────────────

/// A hostname with a row of its own never reaches the patterns.
pub proof fn exact_row_wins(rules: HostsRules, hostname: Seq<char>)
    requires
        rules.exact.contains_key(text::lowercase(hostname)),
    ensures
        looked_up(rules, hostname) == Some(rules.exact[text::lowercase(hostname)]),
{
}

/// Names that differ in case only are sent to the same backend.
pub proof fn lookup_ignores_case(rules: HostsRules, a: Seq<char>, b: Seq<char>)
    requires
        text::lowercase(a) == text::lowercase(b),
    ensures
        looked_up(rules, a) == looked_up(rules, b),
{
}

/// A name and its lowercase form are sent to the same backend. The name is such
/// that its lowercase form has itself for lowercase form, as every ASCII name.
pub proof fn lowercase_name_resolves_alike(rules: HostsRules, hostname: Seq<char>)
    requires
        text::lowercase(text::lowercase(hostname)) == text::lowercase(hostname),
    ensures
        looked_up(rules, text::lowercase(hostname)) == looked_up(rules, hostname),
{
}

/// Of two rows for one hostname the later one stands.
pub proof fn last_row_stands(
    rows: Seq<(Seq<char>, Seq<char>)>,
    pattern: Seq<char>,
    address: Seq<char>,
    hostname: Seq<char>,
)
    requires
        !is_regex(text::trimmed(pattern)),
        text::lowercase(hostname) == text::lowercase(text::trimmed(pattern)),
    ensures
        looked_up(rules_of(rows.push((pattern, address))), hostname) == Some(backend_of(address)),
{
    assert(rows.push((pattern, address)).drop_last() =~= rows);
}

/// Among the patterns the first one that matches decides, whatever follows it.
pub proof fn first_pattern_wins(
    patterns: Seq<(Seq<char>, Backend)>,
    more: Seq<(Seq<char>, Backend)>,
    host: Seq<char>,
)
    requires
        first_match(patterns, host) is Some,
    ensures
        first_match(patterns + more, host) == first_match(patterns, host),
    decreases patterns.len(),
{
    if patterns.len() > 0 && !pattern::regex_matches(patterns[0].0, host) {
        assert((patterns + more).drop_first() =~= patterns.drop_first() + more);
        first_pattern_wins(patterns.drop_first(), more, host);
    }
}

/// Without a row of its own a name goes by the pattern of the least index that
/// matches it, wherever that stands; it is not listed only where it has no row
/// and no pattern matches.
pub proof fn least_matching_pattern_decides(rules: HostsRules, hostname: Seq<char>, i: int)
    ensures
        ({
            let host = text::lowercase(hostname);
            let patterns = rules.patterns;
            &&& !rules.exact.contains_key(host) && 0 <= i < patterns.len()
                && pattern::regex_matches(patterns[i].0, host) && (forall|j: int|
                0 <= j < i ==> !pattern::regex_matches((#[trigger] patterns[j]).0, host))
                ==> looked_up(rules, hostname) == Some(patterns[i].1)
            &&& looked_up(rules, hostname) is None <==> !rules.exact.contains_key(host) && (
            forall|j: int|
                0 <= j < patterns.len() ==> !pattern::regex_matches(
                    (#[trigger] patterns[j]).0,
                    host,
                ))
        }),
{
    lemma_least_match(rules.patterns, text::lowercase(hostname), i);
}

proof fn lemma_least_match(patterns: Seq<(Seq<char>, Backend)>, host: Seq<char>, i: int)
    ensures
        0 <= i < patterns.len() && pattern::regex_matches(patterns[i].0, host) && (forall|j: int|
            0 <= j < i ==> !pattern::regex_matches((#[trigger] patterns[j]).0, host))
            ==> first_match(patterns, host) == Some(patterns[i].1),
        first_match(patterns, host) is None <==> forall|j: int|
            0 <= j < patterns.len() ==> !pattern::regex_matches((#[trigger] patterns[j]).0, host),
    decreases patterns.len(),
{
    if patterns.len() > 0 {
        let rest = patterns.drop_first();
        assert(forall|j: int| 0 <= j < rest.len() ==> #[trigger] rest[j] == patterns[j + 1]);
        assert(forall|j: int| 0 < j < patterns.len() ==> #[trigger] patterns[j] == rest[j - 1]);
        lemma_least_match(rest, host, i - 1);
    }
}

/// A row is for one hostname unless its pattern holds `*` or `?`, begins with
/// `^` or ends with `$`; then it is a regex, which comes after those before it.
/// Blanks around the pattern do not count, and no row touches the others but for
/// one of the same hostname.
pub proof fn each_row_is_kept(
    rows: Seq<(Seq<char>, Seq<char>)>,
    pad: Seq<char>,
    pattern: Seq<char>,
    more_pad: Seq<char>,
    address: Seq<char>,
)
    requires
        text::all_blank(pad),
        text::all_blank(more_pad),
        pattern.len() > 0,
        text::is_graphic(pattern[0]),
        text::is_graphic(pattern.last()),
    ensures
        ({
            let regex = pattern[0] == '^' || pattern.last() == '$' || exists|i: int|
                0 <= i < pattern.len() && ((#[trigger] pattern[i]) == '*' || pattern[i] == '?');
            let before = rules_of(rows);
            let after = rules_of(rows.push((pad + pattern + more_pad, address)));
            if regex {
                after.exact == before.exact && after.patterns == before.patterns.push(
                    (pattern, backend_of(address)),
                )
            } else {
                after.patterns == before.patterns && after.exact == before.exact.insert(
                    text::lowercase(pattern),
                    backend_of(address),
                )
            }
        }),
        rules_of(Seq::empty()).exact == Map::<Seq<char>, Backend>::empty(),
        rules_of(Seq::empty()).patterns.len() == 0,
{
    text::trimming_takes_blanks_only(pad, pattern, more_pad);
    let more = rows.push((pad + pattern + more_pad, address));
    assert(more.drop_last() =~= rows);
    assert(more.last() == (pad + pattern + more_pad, address));
    if exists|i: int|
        0 <= i < pattern.len() && ((#[trigger] pattern[i]) == '*' || pattern[i] == '?') {
        let i = choose|i: int|
            0 <= i < pattern.len() && ((#[trigger] pattern[i]) == '*' || pattern[i] == '?');
        assert(pattern.contains(pattern[i]));
    }
}

/// An address of `*` passes the name through, an IP address stands for itself
/// and anything else for a backend host; blanks around it do not count.
pub proof fn address_stands_for_its_backend(
    pad: Seq<char>,
    address: Seq<char>,
    more_pad: Seq<char>,
)
    requires
        text::all_blank(pad),
        text::all_blank(more_pad),
        address.len() > 0,
        text::is_graphic(address[0]),
        text::is_graphic(address.last()),
    ensures
        ({
            let backend = backend_of(pad + address + more_pad);
            &&& backend == Backend::Passthrough <==> address == seq!['*']
            &&& ip::ip_of(address) is Some && address != seq!['*'] ==> backend == Backend::Ip(
                ip::ip_of(address)->0,
            )
            &&& ip::ip_of(address) is None && address != seq!['*'] ==> backend == Backend::Hostname(
                address,
            )
        }),
{
    text::trimming_takes_blanks_only(pad, address, more_pad);
    reveal_strlit("*");
    assert("*"@ =~= seq!['*']);
}

/// A row for one hostname always compiles; one with a regex compiles where the
/// regex does, the blanks around it aside.
pub proof fn row_compiles_with_its_regex(
    pad: Seq<char>,
    pattern: Seq<char>,
    more_pad: Seq<char>,
)
    requires
        text::all_blank(pad),
        text::all_blank(more_pad),
        pattern.len() > 0,
        text::is_graphic(pattern[0]),
        text::is_graphic(pattern.last()),
    ensures
        ({
            let regex = pattern[0] == '^' || pattern.last() == '$' || exists|i: int|
                0 <= i < pattern.len() && ((#[trigger] pattern[i]) == '*' || pattern[i] == '?');
            row_compiles(pad + pattern + more_pad) <==> !regex || pattern::regex_compiles(
                pattern,
                usize::BITS as int,
            )
        }),
{
    text::trimming_takes_blanks_only(pad, pattern, more_pad);
    if exists|i: int|
        0 <= i < pattern.len() && ((#[trigger] pattern[i]) == '*' || pattern[i] == '?') {
        let i = choose|i: int|
            0 <= i < pattern.len() && ((#[trigger] pattern[i]) == '*' || pattern[i] == '?');
        assert(pattern.contains(pattern[i]));
    }
}

/// Rows are taken over one for one.
pub proof fn rows_are_one_for_one(entries: Seq<HostsEntry>, i: int)
    requires
        0 <= i < entries.len(),
    ensures
        row_views(entries).len() == entries.len(),
        row_views(entries)[i] == (entries[i].pattern@, entries[i].address@),
{
}

} // verus!
