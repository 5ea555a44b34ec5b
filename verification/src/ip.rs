//! IP addresses and socket addresses as text.

use vstd::prelude::*;
use vstd::slice::slice_subrange;

use crate::text;

verus! {

/// An IPv4 address by its octets, or an IPv6 address by its 16-bit groups.
#[derive(Debug, Clone, Copy, PartialEq, Eq)]
pub enum IpAddress {
    V4([u8; 4]),
    V6([u16; 8]),
}

/// What an [`IpAddress`] holds.
pub enum Ip {
    V4(Seq<u8>),
    V6(Seq<u16>),
}

impl View for IpAddress {
    type V = Ip;

    open spec fn view(&self) -> Ip {
        match self {
            IpAddress::V4(octets) => Ip::V4(octets@),
            IpAddress::V6(groups) => Ip::V6(groups@),
        }
    }
}

/// An address and a port.
#[derive(Debug, Clone, Copy, PartialEq, Eq)]
pub struct SocketAddress {
    pub ip: IpAddress,
    pub port: u16,
}

// ── Reading IPv4 ─────────────────────────────────────────────────────────────

/// The octet that `s` writes: decimal, up to 255, without leading zeros.
pub open spec fn octet_of(s: Seq<char>) -> Option<int> {
    if s.len() > 1 && s[0] == '0' {
        None
    } else {
        text::number_of(s, 255)
    }
}

/// The octets of the IPv4 address that `s` writes: four, with dots between.
pub open spec fn ipv4_of(s: Seq<char>) -> Option<Seq<u8>> {
    let parts = text::split_at_each(s, '.');
    if parts.len() == 4 && octet_of(parts[0]) is Some && octet_of(parts[1]) is Some && octet_of(
        parts[2],
    ) is Some && octet_of(parts[3]) is Some {
        Some(
            seq![
                octet_of(parts[0])->0 as u8,
                octet_of(parts[1])->0 as u8,
                octet_of(parts[2])->0 as u8,
                octet_of(parts[3])->0 as u8,
            ],
        )
    } else {
        None
    }
}

fn parse_octet(s: &[char]) -> (r: Option<u8>)
    ensures
        octet_of(s@) == (match r {
            Some(n) => Some(n as int),
            None => None,
        }),
{
    if s.len() > 1 && s[0] == '0' {
        return None;
    }
    match text::parse_digits(s, 255) {
        Some(n) => Some(n as u8),
        None => None,
    }
}

/// Reads an IPv4 address.
pub fn parse_ipv4(s: &[char]) -> (r: Option<[u8; 4]>)
    ensures
        ipv4_of(s@) == (match r {
            Some(octets) => Some(octets@),
            None => None,
        }),
{
    let parts: Vec<Vec<char>> = text::split(s, '.');
    let ghost views = text::views(parts@);
    if parts.len() != 4 {
        return None;
    }
    assert(views[0] == parts@[0]@ && views[1] == parts@[1]@ && views[2] == parts@[2]@ && views[3]
        == parts@[3]@);
    match (
        parse_octet(parts[0].as_slice()),
        parse_octet(parts[1].as_slice()),
        parse_octet(parts[2].as_slice()),
        parse_octet(parts[3].as_slice()),
    ) {
        (Some(a), Some(b), Some(c), Some(d)) => {
            let octets: [u8; 4] = [a, b, c, d];
            assert(octets@ =~= ipv4_of(s@)->0);
            Some(octets)
        },
        _ => None,
    }
}

// ── Reading IPv6 ─────────────────────────────────────────────────────────────

/// The value of a hexadecimal digit.
pub open spec fn hex_digit(c: char) -> Option<int> {
    if '0' <= c <= '9' {
        Some(c as int - '0' as int)
    } else if 'a' <= c <= 'f' {
        Some(c as int - 'a' as int + 10)
    } else if 'A' <= c <= 'F' {
        Some(c as int - 'A' as int + 10)
    } else {
        None
    }
}

/// The number that hexadecimal digits write.
pub open spec fn hex_value(s: Seq<char>) -> Option<int>
    decreases s.len(),
{
    if s.len() == 0 {
        Some(0)
    } else {
        match (hex_value(s.drop_last()), hex_digit(s.last())) {
            (Some(high), Some(low)) => Some(16 * high + low),
            _ => None,
        }
    }
}

/// The 16-bit group that `s` writes: one to four hexadecimal digits.
pub open spec fn group_of(s: Seq<char>) -> Option<int> {
    if 1 <= s.len() <= 4 {
        hex_value(s)
    } else {
        None
    }
}

/// The groups that `parts` write, one each.
pub open spec fn hex_groups(parts: Seq<Seq<char>>) -> Option<Seq<u16>>
    decreases parts.len(),
{
    if parts.len() == 0 {
        Some(Seq::empty())
    } else {
        match (hex_groups(parts.drop_last()), group_of(parts.last())) {
            (Some(groups), Some(value)) => Some(groups.push(value as u16)),
            _ => None,
        }
    }
}

/// The groups that `s` writes, with colons between; an empty text writes none.
pub open spec fn leading_groups(s: Seq<char>) -> Option<Seq<u16>> {
    if s.len() == 0 {
        Some(Seq::empty())
    } else {
        hex_groups(text::split_at_each(s, ':'))
    }
}

/// An IPv4 address as two groups.
pub open spec fn as_groups(octets: Seq<u8>) -> Seq<u16> {
    seq![(octets[0] * 256 + octets[1]) as u16, (octets[2] * 256 + octets[3]) as u16]
}

/// The groups that `s` writes, with colons between; the last two may be written
/// as an IPv4 address.
pub open spec fn trailing_groups(s: Seq<char>) -> Option<Seq<u16>> {
    let parts = text::split_at_each(s, ':');
    if s.len() > 0 && ipv4_of(parts.last()) is Some {
        match hex_groups(parts.drop_last()) {
            Some(groups) => Some(groups + as_groups(ipv4_of(parts.last())->0)),
            None => None,
        }
    } else {
        leading_groups(s)
    }
}

/// Where the first `::` of `s` stands.
pub open spec fn gap_of(s: Seq<char>) -> Option<int>
    decreases s.len(),
{
    if s.len() < 2 {
        None
    } else if s[0] == ':' && s[1] == ':' {
        Some(0)
    } else {
        match gap_of(s.drop_first()) {
            Some(i) => Some(i + 1),
            None => None,
        }
    }
}

/// `n` groups of zero.
pub open spec fn zeros(n: nat) -> Seq<u16> {
    Seq::new(n, |i: int| 0u16)
}

/// The groups of the IPv6 address that `s` writes: eight, or fewer around one
/// `::`, which stands for one zero group or more.
pub open spec fn ipv6_of(s: Seq<char>) -> Option<Seq<u16>> {
    match gap_of(s) {
        None => match trailing_groups(s) {
            Some(groups) => if groups.len() == 8 {
                Some(groups)
            } else {
                None
            },
            None => None,
        },
        Some(i) => match (leading_groups(s.take(i)), trailing_groups(s.skip(i + 2))) {
            (Some(head), Some(tail)) => if head.len() + tail.len() < 8 {
                Some(head + zeros((8 - head.len() - tail.len()) as nat) + tail)
            } else {
                None
            },
            _ => None,
        },
    }
}

/// Reads a hexadecimal digit.
pub fn parse_hex_digit(c: char) -> (r: Option<u16>)
    ensures
        hex_digit(c) == (match r {
            Some(n) => Some(n as int),
            None => None,
        }),
        r matches Some(n) ==> n < 16,
{
    if '0' <= c && c <= '9' {
        Some((c as u32 - 48) as u16)
    } else if 'a' <= c && c <= 'f' {
        Some((c as u32 - 97 + 10) as u16)
    } else if 'A' <= c && c <= 'F' {
        Some((c as u32 - 65 + 10) as u16)
    } else {
        None
    }
}

proof fn lemma_hex_prefix(s: Seq<char>, i: int)
    requires
        0 <= i <= s.len(),
        hex_value(s.take(i)) is None,
    ensures
        hex_value(s) is None,
    decreases s.len() - i,
{
    if i < s.len() {
        assert(s.take(i + 1).drop_last() =~= s.take(i));
        lemma_hex_prefix(s, i + 1);
    } else {
        assert(s.take(i) =~= s);
    }
}

fn parse_group(s: &[char]) -> (r: Option<u16>)
    ensures
        group_of(s@) == (match r {
            Some(n) => Some(n as int),
            None => None,
        }),
{
    if s.len() == 0 || s.len() > 4 {
        return None;
    }
    let mut value: u32 = 0;
    let mut bound: u32 = 1;
    for i in 0..s.len()
        invariant
            1 <= s@.len() <= 4,
            value < bound,
            i == 0 ==> bound == 1,
            i == 1 ==> bound == 16,
            i == 2 ==> bound == 256,
            i == 3 ==> bound == 4096,
            i == 4 ==> bound == 65536,
            hex_value(s@.take(i as int)) == Some(value as int),
    {
        assert(s@.take(i + 1).drop_last() =~= s@.take(i as int));
        match parse_hex_digit(s[i]) {
            Some(d) => {
                value = 16 * value + d as u32;
                bound = 16 * bound;
            },
            None => {
                proof {
                    lemma_hex_prefix(s@, i + 1);
                }
                return None;
            },
        }
    }
    assert(s@.take(s@.len() as int) =~= s@);
    Some(value as u16)
}

proof fn lemma_groups_prefix(parts: Seq<Seq<char>>, i: int)
    requires
        0 <= i <= parts.len(),
        hex_groups(parts.take(i)) is None,
    ensures
        hex_groups(parts) is None,
    decreases parts.len() - i,
{
    if i < parts.len() {
        assert(parts.take(i + 1).drop_last() =~= parts.take(i));
        lemma_groups_prefix(parts, i + 1);
    } else {
        assert(parts.take(i) =~= parts);
    }
}

/// Reads the first `n` of `parts` as groups.
fn parse_groups(parts: &Vec<Vec<char>>, n: usize) -> (r: Option<Vec<u16>>)
    requires
        n <= parts@.len(),
    ensures
        hex_groups(text::views(parts@).take(n as int)) == (match r {
            Some(groups) => Some(groups@),
            None => None,
        }),
{
    let mut out: Vec<u16> = Vec::new();
    let ghost all = text::views(parts@).take(n as int);
    assert(all.take(0) =~= Seq::empty());
    for i in 0..n
        invariant
            n <= parts@.len(),
            all == text::views(parts@).take(n as int),
            hex_groups(all.take(i as int)) == Some(out@),
    {
        assert(all.take(i + 1).drop_last() =~= all.take(i as int));
        assert(all.take(i + 1).last() == parts@[i as int]@);
        match parse_group(parts[i].as_slice()) {
            Some(value) => {
                out.push(value);
            },
            None => {
                proof {
                    lemma_groups_prefix(all, i + 1);
                }
                return None;
            },
        }
    }
    assert(all.take(n as int) =~= all);
    Some(out)
}

fn parse_leading_groups(s: &[char]) -> (r: Option<Vec<u16>>)
    ensures
        leading_groups(s@) == (match r {
            Some(groups) => Some(groups@),
            None => None,
        }),
{
    if s.len() == 0 {
        return Some(Vec::new());
    }
    let parts: Vec<Vec<char>> = text::split(s, ':');
    let ghost all = text::views(parts@);
    assert(all.take(parts@.len() as int) =~= all);
    parse_groups(&parts, parts.len())
}

proof fn lemma_split_not_empty(s: Seq<char>, c: char)
    ensures
        text::split_at_each(s, c).len() > 0,
{
}

fn parse_trailing_groups(s: &[char]) -> (r: Option<Vec<u16>>)
    ensures
        trailing_groups(s@) == (match r {
            Some(groups) => Some(groups@),
            None => None,
        }),
{
    if s.len() == 0 {
        return Some(Vec::new());
    }
    let parts: Vec<Vec<char>> = text::split(s, ':');
    let ghost all = text::views(parts@);
    proof {
        lemma_split_not_empty(s@, ':');
    }
    let last: usize = parts.len() - 1;
    assert(all.last() == parts@[last as int]@);
    assert(all.drop_last() =~= all.take(last as int));
    match parse_ipv4(parts[last].as_slice()) {
        Some(octets) => match parse_groups(&parts, last) {
            Some(groups) => {
                let mut out: Vec<u16> = groups;
                out.push(octets[0] as u16 * 256 + octets[1] as u16);
                out.push(octets[2] as u16 * 256 + octets[3] as u16);
                assert(out@ =~= groups@ + as_groups(octets@));
                Some(out)
            },
            None => None,
        },
        None => parse_leading_groups(s),
    }
}

proof fn lemma_gap(s: Seq<char>, i: int)
    requires
        0 <= i,
        i + 2 <= s.len(),
        s[i] == ':' && s[i + 1] == ':',
        forall|j: int| 0 <= j < i ==> !(#[trigger] s[j] == ':' && s[j + 1] == ':'),
    ensures
        gap_of(s) == Some(i),
    decreases s.len(),
{
    if i > 0 {
        assert(!(s[0] == ':' && s[1] == ':'));
        let t = s.drop_first();
        assert forall|j: int| 0 <= j < i - 1 implies !(#[trigger] t[j] == ':' && t[j + 1]
            == ':') by {
            assert(t[j] == s[j + 1]);
            assert(t[j + 1] == s[j + 1 + 1]);
        }
        lemma_gap(t, i - 1);
    }
}

proof fn lemma_no_gap(s: Seq<char>)
    requires
        forall|j: int| 0 <= j < s.len() - 1 ==> !(#[trigger] s[j] == ':' && s[j + 1] == ':'),
    ensures
        gap_of(s) is None,
    decreases s.len(),
{
    if s.len() >= 2 {
        assert(!(s[0] == ':' && s[1] == ':'));
        let t = s.drop_first();
        assert forall|j: int| 0 <= j < t.len() - 1 implies !(#[trigger] t[j] == ':' && t[j + 1]
            == ':') by {
            assert(t[j] == s[j + 1]);
            assert(t[j + 1] == s[j + 1 + 1]);
        }
        lemma_no_gap(t);
    }
}

fn find_gap(s: &[char]) -> (r: Option<usize>)
    ensures
        gap_of(s@) == (match r {
            Some(i) => Some(i as int),
            None => None,
        }),
        r matches Some(i) ==> i + 2 <= s@.len(),
{
    let mut i: usize = 0;
    while i < s.len() && s.len() - i >= 2
        invariant
            i <= s@.len(),
            forall|j: int| 0 <= j < i ==> !(#[trigger] s@[j] == ':' && s@[j + 1] == ':'),
        decreases s@.len() - i,
    {
        if s[i] == ':' && s[i + 1] == ':' {
            proof {
                lemma_gap(s@, i as int);
            }
            return Some(i);
        }
        i = i + 1;
    }
    proof {
        lemma_no_gap(s@);
    }
    None
}

/// Reads an IPv6 address.
pub fn parse_ipv6(s: &[char]) -> (r: Option<[u16; 8]>)
    ensures
        ipv6_of(s@) == (match r {
            Some(groups) => Some(groups@),
            None => None,
        }),
{
    match find_gap(s) {
        None => {
            let g: Vec<u16> = match parse_trailing_groups(s) {
                Some(g) => g,
                None => {
                    return None;
                },
            };
            if g.len() != 8 {
                return None;
            }
            let groups: [u16; 8] = [g[0], g[1], g[2], g[3], g[4], g[5], g[6], g[7]];
            assert(groups@ =~= g@);
            Some(groups)
        },
        Some(i) => {
            let n: usize = s.len();
            assert(s@.subrange(0, i as int) == s@.take(i as int));
            assert(s@.subrange(i + 2, s@.len() as int) == s@.skip(i + 2));
            let head: Vec<u16> = match parse_leading_groups(slice_subrange(s, 0, i)) {
                Some(g) => g,
                None => {
                    return None;
                },
            };
            let tail: Vec<u16> = match parse_trailing_groups(slice_subrange(s, i + 2, n)) {
                Some(g) => g,
                None => {
                    return None;
                },
            };
            if head.len() >= 8 || tail.len() >= 8 - head.len() {
                return None;
            }
            let ghost start = head@;
            let ghost wanted = head@ + zeros((8 - head@.len() - tail@.len()) as nat) + tail@;
            let mut g: Vec<u16> = head;
            let pad: usize = 8 - tail.len();
            while g.len() < pad
                invariant
                    start.len() <= g@.len() <= pad <= 8,
                    pad == 8 - tail@.len(),
                    g@ == start + zeros((g@.len() - start.len()) as nat),
                decreases pad - g@.len(),
            {
                let ghost before = g@;
                g.push(0);
                assert(g@ =~= start + zeros((g@.len() - start.len()) as nat));
            }
            let ghost padded = g@;
            let mut k: usize = 0;
            while k < tail.len()
                invariant
                    k <= tail@.len(),
                    padded.len() == 8 - tail@.len(),
                    g@ == padded + tail@.take(k as int),
                decreases tail@.len() - k,
            {
                g.push(tail[k]);
                k = k + 1;
                assert(g@ =~= padded + tail@.take(k as int));
            }
            assert(tail@.take(tail@.len() as int) =~= tail@);
            assert(g@ =~= wanted);
            let groups: [u16; 8] = [g[0], g[1], g[2], g[3], g[4], g[5], g[6], g[7]];
            assert(groups@ =~= wanted);
            Some(groups)
        },
    }
}

// ── Reading either, and socket addresses ─────────────────────────────────────

/// The IP address that `s` writes.
pub open spec fn ip_of(s: Seq<char>) -> Option<Ip> {
    match ipv4_of(s) {
        Some(octets) => Some(Ip::V4(octets)),
        None => match ipv6_of(s) {
            Some(groups) => Some(Ip::V6(groups)),
            None => None,
        },
    }
}

/// Reads an IP address.
pub fn parse_ip(s: &[char]) -> (r: Option<IpAddress>)
    ensures
        ip_of(s@) == (match r {
            Some(ip) => Some(ip@),
            None => None,
        }),
{
    match parse_ipv4(s) {
        Some(octets) => Some(IpAddress::V4(octets)),
        None => match parse_ipv6(s) {
            Some(groups) => Some(IpAddress::V6(groups)),
            None => None,
        },
    }
}

/// An IPv6 address, followed or not by `%` and a decimal scope id.
pub open spec fn scoped_ipv6_of(s: Seq<char>) -> Option<Seq<u16>> {
    match s.index_of_first('%') {
        Some(i) => if text::number_of(s.skip(i + 1), u32::MAX as int) is Some {
            ipv6_of(s.take(i))
        } else {
            None
        },
        None => ipv6_of(s),
    }
}

/// The address and the port that `s` writes: `a.b.c.d:port`, or an IPv6 address
/// in brackets and `:port`. The port is decimal and may have leading zeros.
pub open spec fn socket_of(s: Seq<char>) -> Option<(Ip, int)> {
    let parts = text::split_at_each(s, ':');
    if s.len() > 0 && s[0] == '[' {
        match s.index_of_first(']') {
            Some(i) => {
                let inner = s.subrange(1, i);
                let rest = s.skip(i + 1);
                if scoped_ipv6_of(inner) is Some && rest.len() > 0 && rest[0] == ':'
                    && text::number_of(rest.drop_first(), u16::MAX as int) is Some {
                    Some(
                        (
                            Ip::V6(scoped_ipv6_of(inner)->0),
                            text::number_of(rest.drop_first(), u16::MAX as int)->0,
                        ),
                    )
                } else {
                    None
                }
            },
            None => None,
        }
    } else if parts.len() == 2 && ipv4_of(parts[0]) is Some && text::number_of(
        parts[1],
        u16::MAX as int,
    ) is Some {
        Some((Ip::V4(ipv4_of(parts[0])->0), text::number_of(parts[1], u16::MAX as int)->0))
    } else {
        None
    }
}

fn parse_scoped_ipv6(s: &[char]) -> (r: Option<[u16; 8]>)
    ensures
        scoped_ipv6_of(s@) == (match r {
            Some(groups) => Some(groups@),
            None => None,
        }),
{
    match text::index_of(s, '%') {
        Some(i) => {
            let n: usize = s.len();
            assert(s@.subrange(i + 1, s@.len() as int) == s@.skip(i + 1));
            assert(s@.subrange(0, i as int) == s@.take(i as int));
            match text::parse_digits(slice_subrange(s, i + 1, n), u32::MAX as u64) {
                Some(_) => parse_ipv6(slice_subrange(s, 0, i)),
                None => None,
            }
        },
        None => parse_ipv6(s),
    }
}

/// Reads a socket address. The scope id of an IPv6 address is left out.
pub fn parse_socket_addr(s: &[char]) -> (r: Option<SocketAddress>)
    ensures
        socket_of(s@) == (match r {
            Some(addr) => Some((addr.ip@, addr.port as int)),
            None => None,
        }),
{
    if s.len() > 0 && s[0] == '[' {
        let i: usize = match text::index_of(s, ']') {
            Some(i) => i,
            None => {
                return None;
            },
        };
        assert(i > 0);
        let groups: [u16; 8] = match parse_scoped_ipv6(slice_subrange(s, 1, i)) {
            Some(groups) => groups,
            None => {
                return None;
            },
        };
        let ghost rest = s@.skip(i + 1);
        if s.len() - i < 2 || s[i + 1] != ':' {
            return None;
        }
        assert(s@.subrange(i + 2, s@.len() as int) == rest.drop_first());
        return match text::parse_digits(slice_subrange(s, i + 2, s.len()), u16::MAX as u64) {
            Some(port) => Some(SocketAddress { ip: IpAddress::V6(groups), port: port as u16 }),
            None => None,
        };
    }
    let parts: Vec<Vec<char>> = text::split(s, ':');
    let ghost views = text::views(parts@);
    if parts.len() != 2 {
        return None;
    }
    assert(views[0] == parts@[0]@ && views[1] == parts@[1]@);
    match (parse_ipv4(parts[0].as_slice()), text::parse_digits(
        parts[1].as_slice(),
        u16::MAX as u64,
    )) {
        (Some(octets), Some(port)) => Some(
            SocketAddress { ip: IpAddress::V4(octets), port: port as u16 },
        ),
        _ => None,
    }
}

// ── Writing ──────────────────────────────────────────────────────────────────

/// The octets in decimal, with dots between.
pub open spec fn ipv4_text(octets: Seq<u8>) -> Seq<char> {
    text::decimal(octets[0] as nat) + seq!['.'] + text::decimal(octets[1] as nat) + seq!['.']
        + text::decimal(octets[2] as nat) + seq!['.'] + text::decimal(octets[3] as nat)
}

/// The hexadecimal digit for `n`, in lower case.
pub open spec fn hex_char(n: nat) -> char {
    if n < 10 {
        ('0' as u32 + n) as char
    } else {
        ('a' as u32 + n - 10) as char
    }
}

/// `n` in hexadecimal, without leading zeros.
pub open spec fn hexadecimal(n: nat) -> Seq<char>
    decreases n,
{
    if n < 16 {
        seq![hex_char(n)]
    } else {
        hexadecimal(n / 16).push(hex_char(n % 16))
    }
}

/// The groups in hexadecimal, with colons between.
pub open spec fn groups_text(groups: Seq<u16>) -> Seq<char>
    decreases groups.len(),
{
    if groups.len() == 0 {
        Seq::empty()
    } else if groups.len() == 1 {
        hexadecimal(groups[0] as nat)
    } else {
        groups_text(groups.drop_last()) + seq![':'] + hexadecimal(groups.last() as nat)
    }
}

/// How many zero groups stand from index `i` on.
pub open spec fn zero_run(groups: Seq<u16>, i: int) -> int
    decreases groups.len() - i,
{
    if 0 <= i < groups.len() && groups[i] == 0 {
        1 + zero_run(groups, i + 1)
    } else {
        0
    }
}

/// Start and length of the longest run of zero groups that starts before index
/// `n`, the first of them where several are longest.
pub open spec fn longest_zero_run(groups: Seq<u16>, n: int) -> (int, int)
    decreases n,
{
    if n <= 0 {
        (0, 0)
    } else {
        let before = longest_zero_run(groups, n - 1);
        if zero_run(groups, n - 1) > before.1 {
            (n - 1, zero_run(groups, n - 1))
        } else {
            before
        }
    }
}

/// The groups are those of an IPv4-mapped address.
pub open spec fn is_mapped(groups: Seq<u16>) -> bool {
    groups[0] == 0 && groups[1] == 0 && groups[2] == 0 && groups[3] == 0 && groups[4] == 0
        && groups[5] == 0xffff
}

/// An IPv6 address as it is written: an IPv4-mapped one with its IPv4 address,
/// any other with its first longest run of two or more zero groups as `::`.
pub open spec fn ipv6_text(groups: Seq<u16>) -> Seq<char> {
    let (at, len) = longest_zero_run(groups, groups.len() as int);
    if is_mapped(groups) {
        seq![':', ':', 'f', 'f', 'f', 'f', ':'] + ipv4_text(
            seq![
                (groups[6] / 256) as u8,
                (groups[6] % 256) as u8,
                (groups[7] / 256) as u8,
                (groups[7] % 256) as u8,
            ],
        )
    } else if len > 1 {
        groups_text(groups.take(at)) + seq![':', ':'] + groups_text(groups.skip(at + len))
    } else {
        groups_text(groups)
    }
}

/// An IP address as it is written.
pub open spec fn ip_text(ip: Ip) -> Seq<char> {
    match ip {
        Ip::V4(octets) => ipv4_text(octets),
        Ip::V6(groups) => ipv6_text(groups),
    }
}

fn push_ipv4(out: &mut String, a: u8, b: u8, c: u8, d: u8)
    ensures
        final(out)@ == old(out)@ + ipv4_text(seq![a, b, c, d]),
{
    text::push_decimal(out, a as u64);
    out.push('.');
    text::push_decimal(out, b as u64);
    out.push('.');
    text::push_decimal(out, c as u64);
    out.push('.');
    text::push_decimal(out, d as u64);
    assert(out@ =~= old(out)@ + ipv4_text(seq![a, b, c, d]));
}

fn push_hexadecimal(out: &mut String, n: u16)
    ensures
        final(out)@ == old(out)@ + hexadecimal(n as nat),
    decreases n,
{
    if n >= 16 {
        push_hexadecimal(out, n / 16);
    }
    let d: u8 = (n % 16) as u8;
    if d < 10 {
        out.push((48 + d) as char);
    } else {
        out.push((97 + (d - 10)) as char);
    }
}

/// Writes the groups from index `from` to before index `to`.
fn push_groups(out: &mut String, groups: &[u16; 8], from: usize, to: usize)
    requires
        from <= to <= 8,
    ensures
        final(out)@ == old(out)@ + groups_text(groups@.subrange(from as int, to as int)),
{
    let ghost start = out@;
    assert(out@ =~= start + groups_text(groups@.subrange(from as int, from as int)));
    for i in from..to
        invariant
            from <= to <= 8,
            out@ == start + groups_text(groups@.subrange(from as int, i as int)),
    {
        let ghost done = groups@.subrange(from as int, i as int);
        let ghost next = groups@.subrange(from as int, i + 1);
        assert(next.drop_last() =~= done);
        assert(next.last() == groups@[i as int]);
        if i > from {
            out.push(':');
        }
        push_hexadecimal(out, groups[i]);
        assert(out@ =~= start + groups_text(next));
    }
}

fn count_zeros(groups: &[u16; 8], at: usize) -> (n: usize)
    requires
        at <= 8,
    ensures
        n == zero_run(groups@, at as int),
        at + n <= 8,
{
    let mut i: usize = at;
    while i < 8 && groups[i] == 0
        invariant
            at <= i <= 8,
            zero_run(groups@, at as int) == i - at + zero_run(groups@, i as int),
        decreases 8 - i,
    {
        i = i + 1;
    }
    i - at
}

impl IpAddress {
    /// The address as it is written.
    pub fn to_text(&self) -> (r: String)
        ensures
            r@ == ip_text(self@),
    {
        let mut out: String = String::new();
        match self {
            IpAddress::V4(o) => {
                push_ipv4(&mut out, o[0], o[1], o[2], o[3]);
                assert(seq![o@[0], o@[1], o@[2], o@[3]] =~= o@);
                assert(out@ =~= ip_text(self@));
            },
            IpAddress::V6(g) => {
                if g[0] == 0 && g[1] == 0 && g[2] == 0 && g[3] == 0 && g[4] == 0 && g[5]
                    == 0xffff {
                    text::push_text(&mut out, "::ffff:");
                    proof {
                        reveal_strlit("::ffff:");
                    }
                    assert(out@ =~= seq![':', ':', 'f', 'f', 'f', 'f', ':']);
                    push_ipv4(
                        &mut out,
                        (g[6] / 256) as u8,
                        (g[6] % 256) as u8,
                        (g[7] / 256) as u8,
                        (g[7] % 256) as u8,
                    );
                    return out;
                }
                let mut at: usize = 0;
                let mut len: usize = 0;
                for i in 0..8
                    invariant
                        (at as int, len as int) == longest_zero_run(g@, i as int),
                        at + len <= 8,
                {
                    let n: usize = count_zeros(g, i);
                    if n > len {
                        at = i;
                        len = n;
                    }
                }
                if len > 1 {
                    assert(g@.subrange(0, at as int) == g@.take(at as int));
                    assert(g@.subrange(at + len, 8) == g@.skip(at + len));
                    push_groups(&mut out, g, 0, at);
                    out.push(':');
                    out.push(':');
                    push_groups(&mut out, g, at + len, 8);
                    assert(out@ =~= ipv6_text(g@));
                } else {
                    assert(g@.subrange(0, 8) =~= g@);
                    push_groups(&mut out, g, 0, 8);
                    assert(out@ =~= ipv6_text(g@));
                }
            },
        }
        out
    }
}

// ── Laws ─────────────────────────────────────────────────────────────────────

proof fn lemma_split_one(s: Seq<char>, c: char)
    requires
        !s.contains(c),
    ensures
        text::split_at_each(s, c) == seq![s],
{
    s.index_of_first_ensures(c);
}

proof fn lemma_first_of_prefix(a: Seq<char>, b: Seq<char>, c: char)
    ensures
        a.contains(c) ==> (a + b).index_of_first(c) == a.index_of_first(c),
        !a.contains(c) ==> (a + seq![c] + b).index_of_first(c) == Some(a.len() as int),
{
    a.index_of_first_ensures(c);
    if a.contains(c) {
        let s = a + b;
        s.index_of_first_ensures(c);
        let i = a.index_of_first(c)->0;
        assert(s[i] == c);
        assert(s.contains(c));
        let j = s.index_of_first(c)->0;
        if j < i {
            assert(a[j] == s[j]);
        }
        if i < j {
            assert(s[i] != c);
        }
    } else {
        let s = a + seq![c] + b;
        s.index_of_first_ensures(c);
        assert(s[a.len() as int] == c);
        assert(s.contains(c));
        let j = s.index_of_first(c)->0;
        if j < a.len() {
            assert(a[j] == c);
            assert(a.contains(c));
        }
        if a.len() < j {
            assert(s[a.len() as int] != c);
        }
    }
}

/// Splitting at a separator and splitting each side is splitting the whole.
proof fn lemma_split_join(a: Seq<char>, b: Seq<char>, c: char)
    ensures
        text::split_at_each(a + seq![c] + b, c) == text::split_at_each(a, c)
            + text::split_at_each(b, c),
    decreases a.len(),
{
    let s = a + seq![c] + b;
    a.index_of_first_ensures(c);
    if a.contains(c) {
        lemma_first_of_prefix(a, seq![c] + b, c);
        assert(a + (seq![c] + b) =~= s);
        let i = a.index_of_first(c)->0;
        assert(s.take(i) =~= a.take(i));
        assert(s.skip(i + 1) =~= a.skip(i + 1) + seq![c] + b);
        lemma_split_join(a.skip(i + 1), b, c);
        assert(text::split_at_each(s, c) =~= seq![a.take(i)] + (text::split_at_each(
            a.skip(i + 1),
            c,
        ) + text::split_at_each(b, c)));
        assert(text::split_at_each(a, c) =~= seq![a.take(i)] + text::split_at_each(
            a.skip(i + 1),
            c,
        ));
    } else {
        lemma_first_of_prefix(a, b, c);
        lemma_split_one(a, c);
        assert(s.take(a.len() as int) =~= a);
        assert(s.skip(a.len() as int + 1) =~= b);
    }
}

proof fn lemma_decimal(n: nat)
    ensures
        text::all_digits(text::decimal(n)),
        text::decimal_value(text::decimal(n)) == n,
        n < 10 ==> text::decimal(n).len() == 1,
        n > 0 ==> text::decimal(n)[0] != '0',
    decreases n,
{
    reveal_with_fuel(text::decimal_value, 2);
    let s = text::decimal(n);
    if n < 10 {
        assert(s.drop_last() =~= Seq::empty());
        assert(text::digit_value(s.last()) == n);
        assert forall|i: int| 0 <= i < s.len() implies text::is_digit(#[trigger] s[i]) by {}
    } else {
        lemma_decimal(n / 10);
        assert(s.drop_last() =~= text::decimal(n / 10));
        assert(text::digit_value(s.last()) == n % 10);
        assert forall|i: int| 0 <= i < s.len() implies text::is_digit(#[trigger] s[i]) by {
            if i < s.len() - 1 {
                assert(s[i] == text::decimal(n / 10)[i]);
            }
        }
        assert(s[0] == text::decimal(n / 10)[0]);
    }
}

proof fn lemma_octet(n: nat)
    requires
        n < 256,
    ensures
        octet_of(text::decimal(n)) == Some(n as int),
        !text::decimal(n).contains('.'),
        !text::decimal(n).contains(':'),
{
    lemma_decimal(n);
    let s = text::decimal(n);
    assert(forall|i: int| 0 <= i < s.len() ==> text::is_digit(#[trigger] s[i]));
}

proof fn lemma_ipv4_text(octets: Seq<u8>)
    requires
        octets.len() == 4,
    ensures
        ipv4_of(ipv4_text(octets)) == Some(octets),
        !ipv4_text(octets).contains(':'),
{
    let a = text::decimal(octets[0] as nat);
    let b = text::decimal(octets[1] as nat);
    let c = text::decimal(octets[2] as nat);
    let d = text::decimal(octets[3] as nat);
    let dot = seq!['.'];
    lemma_octet(octets[0] as nat);
    lemma_octet(octets[1] as nat);
    lemma_octet(octets[2] as nat);
    lemma_octet(octets[3] as nat);
    let s = ipv4_text(octets);
    assert(s == a + dot + b + dot + c + dot + d);
    lemma_split_one(a, '.');
    lemma_split_one(b, '.');
    lemma_split_one(c, '.');
    lemma_split_one(d, '.');
    lemma_split_join(a, b, '.');
    lemma_split_join(a + dot + b, c, '.');
    lemma_split_join(a + dot + b + dot + c, d, '.');
    assert(text::split_at_each(s, '.') =~= seq![a, b, c, d]);
    assert(ipv4_of(s)->0 =~= octets);
    assert forall|i: int| 0 <= i < s.len() implies s[i] != ':' by {
        let p = seq![a, b, c, d];
        if i < a.len() {
            assert(s[i] == a[i]);
        } else if i == a.len() {
        } else if i < a.len() + 1 + b.len() {
            assert(s[i] == b[i - a.len() - 1]);
        } else if i == a.len() + 1 + b.len() {
        } else if i < a.len() + 2 + b.len() + c.len() {
            assert(s[i] == c[i - a.len() - b.len() - 2]);
        } else if i == a.len() + 2 + b.len() + c.len() {
        } else {
            assert(s[i] == d[i - a.len() - b.len() - c.len() - 3]);
        }
    }
}

/// The text is hexadecimal digits only.
spec fn all_hex(s: Seq<char>) -> bool {
    forall|i: int| 0 <= i < s.len() ==> hex_digit(#[trigger] s[i]) is Some
}

proof fn lemma_hexadecimal(n: nat)
    ensures
        hexadecimal(n).len() >= 1,
        n < 16 ==> hexadecimal(n).len() == 1,
        n < 256 ==> hexadecimal(n).len() <= 2,
        n < 4096 ==> hexadecimal(n).len() <= 3,
        n < 65536 ==> hexadecimal(n).len() <= 4,
        hex_value(hexadecimal(n)) == Some(n as int),
        all_hex(hexadecimal(n)),
    decreases n,
{
    let s = hexadecimal(n);
    if n < 16 {
        reveal_with_fuel(hex_value, 2);
        assert(s.drop_last() =~= Seq::empty());
        assert(hex_digit(s.last()) == Some(n as int));
    } else {
        lemma_hexadecimal(n / 16);
        assert(s.drop_last() =~= hexadecimal(n / 16));
        assert(hex_digit(s.last()) == Some((n % 16) as int));
        assert forall|i: int| 0 <= i < s.len() implies hex_digit(#[trigger] s[i]) is Some by {
            if i < s.len() - 1 {
                assert(s[i] == hexadecimal(n / 16)[i]);
            }
        }
    }
}

/// The text is hexadecimal digits and single colons between them.
spec fn is_colon_list(s: Seq<char>) -> bool {
    &&& s.len() > 0
    &&& s[0] != ':'
    &&& s.last() != ':'
    &&& forall|i: int| 0 <= i < s.len() ==> #[trigger] s[i] == ':' || hex_digit(s[i]) is Some
    &&& forall|i: int| 0 <= i < s.len() - 1 ==> !(#[trigger] s[i] == ':' && s[i + 1] == ':')
}

proof fn lemma_groups_text(groups: Seq<u16>)
    requires
        groups.len() > 0,
    ensures
        is_colon_list(groups_text(groups)),
        hex_groups(text::split_at_each(groups_text(groups), ':')) == Some(groups),
        all_hex(text::split_at_each(groups_text(groups), ':').last()),
        text::split_at_each(groups_text(groups), ':').len() == groups.len(),
    decreases groups.len(),
{
    let s = groups_text(groups);
    let last = hexadecimal(groups.last() as nat);
    lemma_hexadecimal(groups.last() as nat);
    assert(!last.contains(':')) by {
        if last.contains(':') {
            let i = choose|i: int| 0 <= i < last.len() && last[i] == ':';
            assert(hex_digit(last[i]) is Some);
        }
    }
    lemma_split_one(last, ':');
    assert(group_of(last) == Some(groups.last() as int));
    if groups.len() == 1 {
        assert(groups[0] == groups.last());
        let parts = seq![last];
        assert(parts.drop_last() =~= Seq::empty());
        assert(hex_groups(parts.drop_last()) == Some(Seq::<u16>::empty()));
        assert(Seq::<u16>::empty().push(groups.last()) =~= groups);
        assert(hex_digit(s[0]) is Some);
        assert(hex_digit(s[s.len() - 1]) is Some);
    } else {
        let init = groups.drop_last();
        lemma_groups_text(init);
        let front = groups_text(init);
        let parts = text::split_at_each(front, ':');
        lemma_split_join(front, last, ':');
        assert(text::split_at_each(s, ':') =~= parts.push(last));
        assert(parts.push(last).drop_last() =~= parts);
        assert(init.push(groups.last()) =~= groups);
        assert(s == front + seq![':'] + last);
        assert forall|i: int| 0 <= i < s.len() implies #[trigger] s[i] == ':' || hex_digit(s[i])
            is Some by {
            if i < front.len() {
                assert(s[i] == front[i]);
            } else if i > front.len() {
                assert(s[i] == last[i - front.len() - 1]);
            }
        }
        assert forall|i: int| 0 <= i < s.len() - 1 implies !(#[trigger] s[i] == ':' && s[i + 1]
            == ':') by {
            if i < front.len() - 1 {
                assert(s[i] == front[i] && s[i + 1] == front[i + 1]);
            } else if i == front.len() - 1 {
                assert(s[i] == front.last());
            } else if i == front.len() {
                assert(s[i + 1] == last[0]);
            } else {
                assert(s[i] == last[i - front.len() - 1]);
            }
        }
        assert(s[0] == front[0]);
        assert(s.last() == last.last());
        assert(hex_digit(last[last.len() - 1]) is Some);
    }
}

proof fn lemma_hex_is_not_ipv4(s: Seq<char>)
    requires
        !s.contains('.'),
    ensures
        ipv4_of(s) is None,
{
    lemma_split_one(s, '.');
}

proof fn lemma_groups_read(groups: Seq<u16>)
    ensures
        leading_groups(groups_text(groups)) == Some(groups),
        trailing_groups(groups_text(groups)) == Some(groups),
        groups.len() == 0 <==> groups_text(groups).len() == 0,
{
    let s = groups_text(groups);
    if groups.len() == 0 {
        assert(groups =~= Seq::empty());
    } else {
        lemma_groups_text(groups);
        let last = text::split_at_each(s, ':').last();
        assert(!last.contains('.')) by {
            if last.contains('.') {
                let i = choose|i: int| 0 <= i < last.len() && last[i] == '.';
                assert(hex_digit(last[i]) is Some);
            }
        }
        lemma_hex_is_not_ipv4(last);
    }
}

proof fn lemma_zero_run(groups: Seq<u16>, i: int)
    requires
        0 <= i <= groups.len(),
    ensures
        0 <= zero_run(groups, i) <= groups.len() - i,
        forall|j: int| i <= j < i + zero_run(groups, i) ==> #[trigger] groups[j] == 0,
    decreases groups.len() - i,
{
    if i < groups.len() && groups[i] == 0 {
        lemma_zero_run(groups, i + 1);
    }
}

proof fn lemma_longest_zero_run(groups: Seq<u16>, n: int)
    requires
        0 <= n <= groups.len(),
    ensures
        ({
            let (at, len) = longest_zero_run(groups, n);
            &&& 0 <= at
            &&& 0 <= len
            &&& at + len <= groups.len()
            &&& forall|j: int| at <= j < at + len ==> #[trigger] groups[j] == 0
        }),
    decreases n,
{
    if n > 0 {
        lemma_longest_zero_run(groups, n - 1);
        lemma_zero_run(groups, n - 1);
    }
}

proof fn lemma_gapped(head: Seq<char>, rest: Seq<char>)
    requires
        head.len() == 0 || is_colon_list(head),
    ensures
        gap_of(head + seq![':', ':'] + rest) == Some(head.len() as int),
        (head + seq![':', ':'] + rest).take(head.len() as int) == head,
        (head + seq![':', ':'] + rest).skip(head.len() as int + 2) == rest,
{
    let s = head + seq![':', ':'] + rest;
    let n = head.len() as int;
    assert(s[n] == ':' && s[n + 1] == ':');
    assert forall|j: int| 0 <= j < n implies !(#[trigger] s[j] == ':' && s[j + 1] == ':') by {
        assert(s[j] == head[j]);
        if j < n - 1 {
            assert(s[j + 1] == head[j + 1]);
        } else {
            assert(head[j] == head.last());
        }
    }
    lemma_gap(s, n);
    assert(s.take(n) =~= head);
    assert(s.skip(n + 2) =~= rest);
}

proof fn lemma_ffff()
    ensures
        hex_groups(seq![seq!['f', 'f', 'f', 'f']]) == Some(seq![0xffffu16]),
{
    let word = seq!['f', 'f', 'f', 'f'];
    assert(seq![word].drop_last() =~= Seq::<Seq<char>>::empty());
    assert(hex_groups(seq![word].drop_last()) == Some(Seq::<u16>::empty()));
    assert(hex_value(word) == Some(0xffffint)) by {
        assert(word.drop_last() =~= seq!['f', 'f', 'f']);
        assert(seq!['f', 'f', 'f'].drop_last() =~= seq!['f', 'f']);
        assert(seq!['f', 'f'].drop_last() =~= seq!['f']);
        assert(seq!['f'].drop_last() =~= Seq::<char>::empty());
        reveal_with_fuel(hex_value, 5);
    }
    assert(Seq::<u16>::empty().push(0xffffu16) =~= seq![0xffffu16]);
}

/// The tail of an IPv4-mapped address, behind its `::`.
proof fn lemma_mapped_tail(octets: Seq<u8>)
    requires
        octets.len() == 4,
    ensures
        trailing_groups(seq!['f', 'f', 'f', 'f', ':'] + ipv4_text(octets)) == Some(
            seq![0xffffu16] + as_groups(octets),
        ),
{
    let word = seq!['f', 'f', 'f', 'f'];
    let v4 = ipv4_text(octets);
    let rest = seq!['f', 'f', 'f', 'f', ':'] + v4;
    assert(rest =~= word + seq![':'] + v4);
    lemma_ipv4_text(octets);
    assert(!word.contains(':'));
    lemma_split_one(word, ':');
    lemma_split_one(v4, ':');
    lemma_split_join(word, v4, ':');
    let parts = text::split_at_each(rest, ':');
    assert(parts =~= seq![word, v4]);
    assert(parts.drop_last() =~= seq![word]);
    lemma_ffff();
}

proof fn lemma_mapped_is_not_ipv4(octets: Seq<u8>)
    requires
        octets.len() == 4,
    ensures
        ipv4_of(seq![':', ':', 'f', 'f', 'f', 'f', ':'] + ipv4_text(octets)) is None,
{
    let a = text::decimal(octets[0] as nat);
    let b = text::decimal(octets[1] as nat);
    let c = text::decimal(octets[2] as nat);
    let d = text::decimal(octets[3] as nat);
    let dot = seq!['.'];
    let mark = seq![':', ':', 'f', 'f', 'f', 'f', ':'];
    let first = mark + a;
    let s = mark + ipv4_text(octets);
    lemma_octet(octets[0] as nat);
    lemma_octet(octets[1] as nat);
    lemma_octet(octets[2] as nat);
    lemma_octet(octets[3] as nat);
    assert(!first.contains('.')) by {
        if first.contains('.') {
            let i = choose|i: int| 0 <= i < first.len() && first[i] == '.';
            if i >= 7 {
                assert(a[i - 7] == first[i]);
            }
        }
    }
    assert(s =~= first + dot + b + dot + c + dot + d);
    lemma_split_one(first, '.');
    lemma_split_one(b, '.');
    lemma_split_one(c, '.');
    lemma_split_one(d, '.');
    lemma_split_join(first, b, '.');
    lemma_split_join(first + dot + b, c, '.');
    lemma_split_join(first + dot + b + dot + c, d, '.');
    assert(text::split_at_each(s, '.')[0] == first);
    assert(!text::is_digit(first[0]));
    assert(octet_of(first) is None);
}

proof fn lemma_mapped(groups: Seq<u16>)
    requires
        groups.len() == 8,
        is_mapped(groups),
    ensures
        ip_of(ipv6_text(groups)) == Some(Ip::V6(groups)),
{
    let octets = seq![
        (groups[6] / 256) as u8,
        (groups[6] % 256) as u8,
        (groups[7] / 256) as u8,
        (groups[7] % 256) as u8,
    ];
    let rest = seq!['f', 'f', 'f', 'f', ':'] + ipv4_text(octets);
    let s = ipv6_text(groups);
    let none = Seq::<char>::empty();
    assert(s =~= none + seq![':', ':'] + rest);
    lemma_gapped(none, rest);
    lemma_mapped_tail(octets);
    assert(as_groups(octets) =~= seq![groups[6], groups[7]]);
    let tail = seq![0xffffu16] + as_groups(octets);
    assert(leading_groups(none) == Some(Seq::<u16>::empty()));
    assert(Seq::<u16>::empty() + zeros(5) + tail =~= groups);
    assert(ipv6_of(s) == Some(groups));
    lemma_mapped_is_not_ipv4(octets);
}

proof fn lemma_colons_are_not_ipv4(s: Seq<char>)
    requires
        forall|i: int| 0 <= i < s.len() ==> #[trigger] s[i] == ':' || hex_digit(s[i]) is Some,
    ensures
        ipv4_of(s) is None,
{
    assert(!s.contains('.')) by {
        if s.contains('.') {
            let i = choose|i: int| 0 <= i < s.len() && s[i] == '.';
            assert(s[i] == ':' || hex_digit(s[i]) is Some);
        }
    }
    lemma_hex_is_not_ipv4(s);
}

#[verifier::rlimit(40)]
proof fn lemma_unmapped(groups: Seq<u16>)
    requires
        groups.len() == 8,
        !is_mapped(groups),
    ensures
        ip_of(ipv6_text(groups)) == Some(Ip::V6(groups)),
{
    let s = ipv6_text(groups);
    let (at, len) = longest_zero_run(groups, 8);
    lemma_longest_zero_run(groups, 8);
    if len > 1 {
        let head = groups.take(at);
        let tail = groups.skip(at + len);
        let h = groups_text(head);
        let t = groups_text(tail);
        lemma_groups_read(head);
        lemma_groups_read(tail);
        if head.len() > 0 {
            lemma_groups_text(head);
        }
        if tail.len() > 0 {
            lemma_groups_text(tail);
        }
        lemma_gapped(h, t);
        assert(head + zeros((8 - head.len() - tail.len()) as nat) + tail =~= groups);
        assert forall|i: int| 0 <= i < s.len() implies #[trigger] s[i] == ':' || hex_digit(s[i])
            is Some by {
            if i < h.len() {
                assert(s[i] == h[i]);
            } else if i >= h.len() + 2 {
                assert(s[i] == t[i - h.len() - 2]);
            }
        }
        lemma_colons_are_not_ipv4(s);
    } else {
        lemma_groups_read(groups);
        lemma_groups_text(groups);
        lemma_no_gap(s);
        lemma_colons_are_not_ipv4(s);
    }
}

/// Every address is read back from what is written: IPv4, IPv6 and
/// IPv4-mapped IPv6 alike.
pub proof fn written_address_is_read_back(address: IpAddress)
    ensures
        ip_of(ip_text(address@)) == Some(address@),
{
    match address {
        IpAddress::V4(octets) => {
            lemma_ipv4_text(octets@);
        },
        IpAddress::V6(groups) => {
            if is_mapped(groups@) {
                lemma_mapped(groups@);
            } else {
                lemma_unmapped(groups@);
            }
        },
    }
}

/// A socket address as it is written: `a.b.c.d:port`, or an IPv6 address in
/// brackets and `:port`.
pub open spec fn socket_text(ip: Ip, port: u16) -> Seq<char> {
    match ip {
        Ip::V4(octets) => ipv4_text(octets) + seq![':'] + text::decimal(port as nat),
        Ip::V6(groups) => seq!['['] + ipv6_text(groups) + seq![']', ':'] + text::decimal(
            port as nat,
        ),
    }
}

/// The text has no character that a written IPv6 address has not.
spec fn all_address_chars(s: Seq<char>) -> bool {
    forall|i: int|
        0 <= i < s.len() ==> #[trigger] s[i] == ':' || s[i] == '.' || hex_digit(s[i]) is Some
}

proof fn lemma_groups_chars(groups: Seq<u16>)
    ensures
        all_address_chars(groups_text(groups)),
{
    if groups.len() > 0 {
        lemma_groups_text(groups);
    }
}

proof fn lemma_ipv4_chars(octets: Seq<u8>)
    ensures
        all_address_chars(ipv4_text(octets)),
        ipv4_text(octets).len() > 0,
        text::is_digit(ipv4_text(octets)[0]),
{
    let a = text::decimal(octets[0] as nat);
    let b = text::decimal(octets[1] as nat);
    let c = text::decimal(octets[2] as nat);
    let d = text::decimal(octets[3] as nat);
    lemma_decimal(octets[0] as nat);
    lemma_decimal(octets[1] as nat);
    lemma_decimal(octets[2] as nat);
    lemma_decimal(octets[3] as nat);
    let s = ipv4_text(octets);
    assert(s[0] == a[0]);
    assert forall|i: int| 0 <= i < s.len() implies #[trigger] s[i] == ':' || s[i] == '.'
        || hex_digit(s[i]) is Some by {
        if i < a.len() {
            assert(s[i] == a[i]);
        } else if i == a.len() {
        } else if i < a.len() + 1 + b.len() {
            assert(s[i] == b[i - a.len() - 1]);
        } else if i == a.len() + 1 + b.len() {
        } else if i < a.len() + 2 + b.len() + c.len() {
            assert(s[i] == c[i - a.len() - b.len() - 2]);
        } else if i == a.len() + 2 + b.len() + c.len() {
        } else {
            assert(s[i] == d[i - a.len() - b.len() - c.len() - 3]);
        }
    }
}

proof fn lemma_ipv6_chars(groups: Seq<u16>)
    requires
        groups.len() == 8,
    ensures
        all_address_chars(ipv6_text(groups)),
{
    let s = ipv6_text(groups);
    let (at, len) = longest_zero_run(groups, 8);
    if is_mapped(groups) {
        let octets = seq![
            (groups[6] / 256) as u8,
            (groups[6] % 256) as u8,
            (groups[7] / 256) as u8,
            (groups[7] % 256) as u8,
        ];
        lemma_ipv4_chars(octets);
        let v4 = ipv4_text(octets);
        assert forall|i: int| 0 <= i < s.len() implies #[trigger] s[i] == ':' || s[i] == '.'
            || hex_digit(s[i]) is Some by {
            if i >= 7 {
                assert(s[i] == v4[i - 7]);
            }
        }
    } else if len > 1 {
        let h = groups_text(groups.take(at));
        let t = groups_text(groups.skip(at + len));
        lemma_groups_chars(groups.take(at));
        lemma_groups_chars(groups.skip(at + len));
        assert forall|i: int| 0 <= i < s.len() implies #[trigger] s[i] == ':' || s[i] == '.'
            || hex_digit(s[i]) is Some by {
            if i < h.len() {
                assert(s[i] == h[i]);
            } else if i >= h.len() + 2 {
                assert(s[i] == t[i - h.len() - 2]);
            }
        }
    } else {
        lemma_groups_chars(groups);
    }
}

proof fn lemma_socket_v4(octets: Seq<u8>, port: u16)
    requires
        octets.len() == 4,
    ensures
        socket_of(socket_text(Ip::V4(octets), port)) == Some((Ip::V4(octets), port as int)),
{
    let v4 = ipv4_text(octets);
    let p = text::decimal(port as nat);
    let s = socket_text(Ip::V4(octets), port);
    lemma_ipv4_text(octets);
    lemma_ipv4_chars(octets);
    lemma_decimal(port as nat);
    assert(s[0] == v4[0]);
    assert(!p.contains(':')) by {
        if p.contains(':') {
            let i = choose|i: int| 0 <= i < p.len() && p[i] == ':';
            assert(text::is_digit(p[i]));
        }
    }
    lemma_split_one(v4, ':');
    lemma_split_one(p, ':');
    lemma_split_join(v4, p, ':');
    assert(text::split_at_each(s, ':') =~= seq![v4, p]);
}

proof fn lemma_socket_v6(groups: Seq<u16>, port: u16)
    requires
        groups.len() == 8,
        ip_of(ipv6_text(groups)) == Some(Ip::V6(groups)),
    ensures
        socket_of(socket_text(Ip::V6(groups), port)) == Some((Ip::V6(groups), port as int)),
{
    let v6 = ipv6_text(groups);
    let p = text::decimal(port as nat);
    let s = socket_text(Ip::V6(groups), port);
    let end = v6.len() as int + 1;
    lemma_ipv6_chars(groups);
    lemma_decimal(port as nat);
    assert(s[0] == '[');
    assert(s[end] == ']');
    assert(s.contains(']'));
    s.index_of_first_ensures(']');
    assert forall|j: int| 0 <= j < end implies s[j] != ']' by {
        if j > 0 {
            assert(s[j] == v6[j - 1]);
        }
    }
    let i = s.index_of_first(']')->0;
    assert(i == end) by {
        if i < end {
            assert(s[i] != ']');
        }
        if end < i {
            assert(s[end] != ']');
        }
    }
    assert(s.subrange(1, end) =~= v6);
    v6.index_of_first_ensures('%');
    assert(!v6.contains('%')) by {
        if v6.contains('%') {
            let k = choose|k: int| 0 <= k < v6.len() && v6[k] == '%';
            assert(v6[k] == ':' || v6[k] == '.' || hex_digit(v6[k]) is Some);
        }
    }
    let rest = s.skip(end + 1);
    assert(rest[0] == ':');
    assert(rest.drop_first() =~= p);
}

/// Every socket address is read back from what is written.
pub proof fn written_socket_is_read_back(address: IpAddress, port: u16)
    ensures
        socket_of(socket_text(address@, port)) == Some((address@, port as int)),
{
    written_address_is_read_back(address);
    match address {
        IpAddress::V4(octets) => {
            lemma_socket_v4(octets@, port);
        },
        IpAddress::V6(groups) => {
            lemma_socket_v6(groups@, port);
        },
    }
}

/// `s` writes `n` in hexadecimal digits of either case, with leading zeros or
/// without.
pub open spec fn writes_hex(s: Seq<char>, n: int) -> bool
    decreases s.len(),
{
    if s.len() == 0 {
        n == 0
    } else {
        let c = s.last() as int;
        let d = n % 16;
        &&& n >= 0
        &&& c == 48 + d && d < 10 || c == 97 + d - 10 && d >= 10 || c == 65 + d - 10 && d >= 10
        &&& writes_hex(s.drop_last(), n / 16)
    }
}

/// The parts write the groups, each in one to four hexadecimal digits.
pub open spec fn write_groups(parts: Seq<Seq<char>>, groups: Seq<u16>) -> bool {
    &&& parts.len() == groups.len()
    &&& forall|i: int|
        0 <= i < parts.len() ==> 1 <= (#[trigger] parts[i]).len() <= 4 && writes_hex(
            parts[i],
            groups[i] as int,
        )
}

/// Parts with colons between.
pub open spec fn colon_joined(parts: Seq<Seq<char>>) -> Seq<char>
    decreases parts.len(),
{
    if parts.len() == 0 {
        Seq::empty()
    } else if parts.len() == 1 {
        parts[0]
    } else {
        colon_joined(parts.drop_last()) + seq![':'] + parts.last()
    }
}

proof fn lemma_writes_hex(s: Seq<char>, n: int)
    requires
        writes_hex(s, n),
    ensures
        hex_value(s) == Some(n),
        all_hex(s),
    decreases s.len(),
{
    if s.len() > 0 {
        lemma_writes_hex(s.drop_last(), n / 16);
        assert(hex_digit(s.last()) == Some(n % 16));
        assert forall|i: int| 0 <= i < s.len() implies hex_digit(#[trigger] s[i]) is Some by {
            if i < s.len() - 1 {
                assert(s[i] == s.drop_last()[i]);
            }
        }
    }
}

proof fn lemma_parts_read(parts: Seq<Seq<char>>, groups: Seq<u16>)
    requires
        write_groups(parts, groups),
        parts.len() > 0,
    ensures
        is_colon_list(colon_joined(parts)),
        text::split_at_each(colon_joined(parts), ':') == parts,
        hex_groups(parts) == Some(groups),
    decreases parts.len(),
{
    let s = colon_joined(parts);
    let at = parts.len() - 1;
    let last = parts[at];
    assert(parts.last() == last && groups.last() == groups[at]);
    lemma_writes_hex(last, groups[at] as int);
    assert(!last.contains(':')) by {
        if last.contains(':') {
            let i = choose|i: int| 0 <= i < last.len() && last[i] == ':';
            assert(hex_digit(last[i]) is Some);
        }
    }
    lemma_split_one(last, ':');
    assert(group_of(last) == Some(groups.last() as int));
    assert(hex_digit(last[0]) is Some);
    assert(hex_digit(last[last.len() - 1]) is Some);
    if parts.len() == 1 {
        assert(parts =~= seq![last]);
        assert(parts.drop_last() =~= Seq::empty());
        assert(hex_groups(parts.drop_last()) == Some(Seq::<u16>::empty()));
        assert(Seq::<u16>::empty().push(groups.last()) =~= groups);
    } else {
        let init = parts.drop_last();
        let front = colon_joined(init);
        assert forall|i: int| 0 <= i < init.len() implies 1 <= (#[trigger] init[i]).len() <= 4
            && writes_hex(init[i], groups.drop_last()[i] as int) by {
            assert(init[i] == parts[i]);
            assert(groups.drop_last()[i] == groups[i]);
        }
        lemma_parts_read(init, groups.drop_last());
        lemma_split_join(front, last, ':');
        assert(init.push(last) =~= parts);
        assert(text::split_at_each(s, ':') =~= parts);
        assert(groups.drop_last().push(groups.last()) =~= groups);
        assert forall|i: int| 0 <= i < s.len() implies #[trigger] s[i] == ':' || hex_digit(s[i])
            is Some by {
            if i < front.len() {
                assert(s[i] == front[i]);
            } else if i > front.len() {
                assert(s[i] == last[i - front.len() - 1]);
            }
        }
        assert forall|i: int| 0 <= i < s.len() - 1 implies !(#[trigger] s[i] == ':' && s[i + 1]
            == ':') by {
            if i < front.len() - 1 {
                assert(s[i] == front[i] && s[i + 1] == front[i + 1]);
            } else if i == front.len() - 1 {
                assert(s[i] == front.last());
            } else if i == front.len() {
                assert(s[i + 1] == last[0]);
            } else {
                assert(s[i] == last[i - front.len() - 1]);
            }
        }
        assert(s[0] == front[0]);
        assert(s.last() == last.last());
    }
}

proof fn lemma_parts_are_groups(parts: Seq<Seq<char>>, groups: Seq<u16>)
    requires
        write_groups(parts, groups),
    ensures
        leading_groups(colon_joined(parts)) == Some(groups),
        trailing_groups(colon_joined(parts)) == Some(groups),
        parts.len() == 0 <==> colon_joined(parts).len() == 0,
{
    if parts.len() == 0 {
        assert(groups =~= Seq::empty());
    } else {
        lemma_parts_read(parts, groups);
        let at = parts.len() - 1;
        let last = parts[at];
        lemma_writes_hex(last, groups[at] as int);
        assert(parts.last() == last);
        assert(!last.contains('.')) by {
            if last.contains('.') {
                let i = choose|i: int| 0 <= i < last.len() && last[i] == '.';
                assert(hex_digit(last[i]) is Some);
            }
        }
        lemma_hex_is_not_ipv4(last);
    }
}

/// An IPv6 address is read group by group, in hexadecimal digits of either case
/// and with leading zeros or without: eight groups, or fewer around a `::`, which
/// stands for the zero groups that are missing.
pub proof fn ipv6_is_read_group_by_group(
    parts: Seq<Seq<char>>,
    groups: Seq<u16>,
    more: Seq<Seq<char>>,
    last_groups: Seq<u16>,
)
    requires
        write_groups(parts, groups),
        write_groups(more, last_groups),
    ensures
        parts.len() == 8 ==> ipv6_of(colon_joined(parts)) == Some(groups),
        parts.len() + more.len() < 8 ==> {
            let read = ipv6_of(colon_joined(parts) + seq![':', ':'] + colon_joined(more));
            &&& read matches Some(all)
            &&& all.len() == 8
            &&& forall|i: int|
                0 <= i < 8 ==> (#[trigger] all[i]) == (if i < groups.len() {
                    groups[i]
                } else if i < 8 - last_groups.len() {
                    0u16
                } else {
                    last_groups[i - (8 - last_groups.len())]
                })
        },
{
    lemma_parts_are_groups(parts, groups);
    lemma_parts_are_groups(more, last_groups);
    if parts.len() == 8 {
        lemma_parts_read(parts, groups);
        lemma_no_gap(colon_joined(parts));
    }
    if parts.len() + more.len() < 8 {
        if parts.len() > 0 {
            lemma_parts_read(parts, groups);
        }
        lemma_gapped(colon_joined(parts), colon_joined(more));
    }
}

proof fn lemma_leading_digit(s: Seq<char>)
    requires
        text::all_digits(s),
        s[0] != '0',
    ensures
        text::decimal_value(s) > 0,
    decreases s.len(),
{
    let n = s.len() as int;
    assert(text::is_digit(s[n - 1]) && text::is_digit(s[0]));
    reveal_with_fuel(text::decimal_value, 2);
    if n > 1 {
        let t = s.drop_last();
        assert(t[0] == s[0]);
        assert forall|i: int| 0 <= i < t.len() implies text::is_digit(#[trigger] t[i]) by {
            assert(t[i] == s[i]);
        }
        lemma_leading_digit(t);
    } else {
        assert(s.drop_last() =~= Seq::empty());
    }
}

proof fn lemma_canonical(s: Seq<char>)
    requires
        text::all_digits(s),
        s.len() > 1 ==> s[0] != '0',
    ensures
        text::decimal_value(s) >= 0,
        s == text::decimal(text::decimal_value(s) as nat),
    decreases s.len(),
{
    let n = s.len() as int;
    reveal_with_fuel(text::decimal_value, 2);
    assert(text::is_digit(s[n - 1]));
    let d = text::digit_value(s.last());
    if n == 1 {
        assert(s.drop_last() =~= Seq::empty());
        assert(s =~= text::decimal(d as nat));
    } else {
        let t = s.drop_last();
        assert(t[0] == s[0]);
        assert forall|i: int| 0 <= i < t.len() implies text::is_digit(#[trigger] t[i]) by {
            assert(t[i] == s[i]);
        }
        lemma_leading_digit(t);
        lemma_canonical(t);
        let v = text::decimal_value(s);
        assert(v / 10 == text::decimal_value(t) && v % 10 == d);
        assert(text::decimal(v as nat) =~= t.push(s.last()));
        assert(t.push(s.last()) =~= s);
    }
}

/// Parts with a separator between.
spec fn rejoined(parts: Seq<Seq<char>>, c: char) -> Seq<char>
    decreases parts.len(),
{
    if parts.len() == 0 {
        Seq::empty()
    } else if parts.len() == 1 {
        parts[0]
    } else {
        parts[0] + seq![c] + rejoined(parts.drop_first(), c)
    }
}

proof fn lemma_rejoined(s: Seq<char>, c: char)
    ensures
        rejoined(text::split_at_each(s, c), c) == s,
    decreases s.len(),
{
    s.index_of_first_ensures(c);
    if s.contains(c) {
        let i = s.index_of_first(c)->0;
        let rest = s.skip(i + 1);
        lemma_rejoined(rest, c);
        lemma_split_not_empty(rest, c);
        let parts = text::split_at_each(s, c);
        assert(parts.drop_first() =~= text::split_at_each(rest, c));
        assert(s.take(i) + seq![c] + rest =~= s);
    } else {
        lemma_split_one(s, c);
    }
}

/// An IPv4 address is read only as it is written: four numbers up to 255 in
/// decimal, without leading zeros, with dots between.
pub proof fn ipv4_is_read_only_as_written(s: Seq<char>)
    ensures
        ipv4_of(s) matches Some(octets) ==> octets.len() == 4 && s == ipv4_text(octets),
{
    if ipv4_of(s) is Some {
        let parts = text::split_at_each(s, '.');
        lemma_rejoined(s, '.');
        lemma_canonical(parts[0]);
        lemma_canonical(parts[1]);
        lemma_canonical(parts[2]);
        lemma_canonical(parts[3]);
        let one = parts.drop_first();
        let two = one.drop_first();
        let three = two.drop_first();
        assert(one[0] == parts[1] && two[0] == parts[2] && three[0] == parts[3]);
        assert(rejoined(three, '.') == parts[3]);
        assert(rejoined(two, '.') == parts[2] + seq!['.'] + parts[3]);
        assert(rejoined(one, '.') == parts[1] + seq!['.'] + (parts[2] + seq!['.'] + parts[3]));
        assert(s == parts[0] + seq!['.'] + rejoined(one, '.'));
        assert(s =~= ipv4_text(ipv4_of(s)->0));
    }
}

/// A socket address may have leading zeros in its port, and an IPv6 address a
/// scope number, which is read over.
pub proof fn other_forms_of_sockets_are_read(
    octets: [u8; 4],
    groups: [u16; 8],
    digits: Seq<char>,
    scope: u32,
)
    requires
        text::all_digits(digits),
        text::decimal_value(digits) <= 65535,
    ensures
        socket_of(ip_text(Ip::V4(octets@)) + seq![':'] + digits) == Some(
            (Ip::V4(octets@), text::decimal_value(digits)),
        ),
        socket_of(
            seq!['['] + ip_text(Ip::V6(groups@)) + seq!['%'] + text::decimal(scope as nat) + seq![
                ']',
                ':',
            ] + digits,
        ) == Some((Ip::V6(groups@), text::decimal_value(digits))),
{
    assert(!digits.contains(':')) by {
        if digits.contains(':') {
            let i = choose|i: int| 0 <= i < digits.len() && digits[i] == ':';
            assert(text::is_digit(digits[i]));
        }
    }
    let v4 = ipv4_text(octets@);
    lemma_ipv4_text(octets@);
    lemma_ipv4_chars(octets@);
    let s = v4 + seq![':'] + digits;
    assert(s[0] == v4[0]);
    lemma_split_one(v4, ':');
    lemma_split_one(digits, ':');
    lemma_split_join(v4, digits, ':');
    assert(text::split_at_each(s, ':') =~= seq![v4, digits]);
    written_address_is_read_back(IpAddress::V6(groups));
    lemma_scoped(groups@, digits, scope);
}

proof fn lemma_scoped(groups: Seq<u16>, digits: Seq<char>, scope: u32)
    requires
        groups.len() == 8,
        ip_of(ipv6_text(groups)) == Some(Ip::V6(groups)),
        text::all_digits(digits),
        text::decimal_value(digits) <= 65535,
    ensures
        socket_of(
            seq!['['] + ipv6_text(groups) + seq!['%'] + text::decimal(scope as nat) + seq![']', ':']
                + digits,
        ) == Some((Ip::V6(groups), text::decimal_value(digits))),
{
    let v6 = ipv6_text(groups);
    let number = text::decimal(scope as nat);
    let inner = v6 + seq!['%'] + number;
    let s = seq!['['] + v6 + seq!['%'] + number + seq![']', ':'] + digits;
    lemma_ipv6_chars(groups);
    lemma_decimal(scope as nat);
    let end = inner.len() as int + 1;
    assert(s =~= seq!['['] + inner + seq![']', ':'] + digits);
    assert(s[end] == ']');
    assert(s.contains(']'));
    s.index_of_first_ensures(']');
    assert forall|j: int| 0 <= j < end implies s[j] != ']' by {
        if 0 < j <= v6.len() {
            assert(s[j] == v6[j - 1]);
        } else if j > v6.len() + 1 {
            assert(s[j] == number[j - v6.len() - 2]);
            assert(text::is_digit(number[j - v6.len() - 2]));
        }
    }
    let i = s.index_of_first(']')->0;
    assert(i == end) by {
        if i < end {
            assert(s[i] != ']');
        }
        if end < i {
            assert(s[end] != ']');
        }
    }
    assert(s.subrange(1, end) =~= inner);
    assert(!v6.contains('%')) by {
        if v6.contains('%') {
            let k = choose|k: int| 0 <= k < v6.len() && v6[k] == '%';
            assert(v6[k] == ':' || v6[k] == '.' || hex_digit(v6[k]) is Some);
        }
    }
    lemma_first_of_prefix(v6, number, '%');
    assert(inner.take(v6.len() as int) =~= v6);
    assert(inner.skip(v6.len() as int + 1) =~= number);
    let rest = s.skip(end + 1);
    assert(rest[0] == ':');
    assert(rest.drop_first() =~= digits);
}

} // verus!
