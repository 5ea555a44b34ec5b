//! Server-name extraction from the first bytes of a TLS connection.
//!
//! The bytes are only looked at: nothing here changes or decrypts them.

use vstd::prelude::*;
use vstd::slice::slice_subrange;
use vstd::utf8;

use crate::text;

verus! {

/// Result of a look at the first bytes of a TCP stream.
#[derive(Debug, Clone, PartialEq)]
pub enum PeekResult {
    /// TLS ClientHello with SNI hostname
    Tls(String),
    /// TLS ClientHello without SNI (IP-literal or very old clients)
    TlsNoSni,
    /// Plain HTTP: the caller should read the Host header instead
    PlainHttp,
    /// Not enough data yet: more bytes are needed
    NeedMore,
    /// Definitely not TLS or HTTP
    Unknown,
}

/// What a [`PeekResult`] says.
pub enum Peek {
    Tls(Seq<char>),
    TlsNoSni,
    PlainHttp,
    NeedMore,
    Unknown,
}

impl View for PeekResult {
    type V = Peek;

    open spec fn view(&self) -> Peek {
        match self {
            PeekResult::Tls(name) => Peek::Tls(name@),
            PeekResult::TlsNoSni => Peek::TlsNoSni,
            PeekResult::PlainHttp => Peek::PlainHttp,
            PeekResult::NeedMore => Peek::NeedMore,
            PeekResult::Unknown => Peek::Unknown,
        }
    }
}

// ── The format ───────────────────────────────────────────────────────────────

/// The big-endian 16-bit number at index `i`.
pub open spec fn be16(s: Seq<u8>, i: int) -> int {
    s[i] * 256 + s[i + 1]
}

/// The body of the first host name in a server-name list. An entry is a type
/// byte (0 is host name), a 16-bit length and that many bytes.
pub open spec fn host_name_entry(list: Seq<u8>) -> Option<Seq<u8>>
    decreases list.len(),
{
    if list.len() < 3 || 3 + be16(list, 1) > list.len() {
        None
    } else if list[0] == 0 {
        Some(list.subrange(3, 3 + be16(list, 1)))
    } else {
        host_name_entry(list.skip(3 + be16(list, 1)))
    }
}

/// The host name in the body of a server-name extension: a 16-bit length, then
/// the list. A name that is not UTF-8 is no name.
pub open spec fn extension_host_name(ext: Seq<u8>) -> Option<Seq<char>> {
    if ext.len() < 2 || 2 + be16(ext, 0) > ext.len() {
        None
    } else {
        match host_name_entry(ext.subrange(2, 2 + be16(ext, 0))) {
            Some(name) => if utf8::valid_utf8(name) {
                Some(text::lowercase(utf8::decode_utf8(name)))
            } else {
                None
            },
            None => None,
        }
    }
}

/// The body of the first server-name extension in an extension block. An
/// extension is a 16-bit type (0 is server name), a 16-bit length and that
/// many bytes.
pub open spec fn server_name_extension(exts: Seq<u8>) -> Option<Seq<u8>>
    decreases exts.len(),
{
    if exts.len() < 4 || 4 + be16(exts, 2) > exts.len() {
        None
    } else if be16(exts, 0) == 0 {
        Some(exts.subrange(4, 4 + be16(exts, 2)))
    } else {
        server_name_extension(exts.skip(4 + be16(exts, 2)))
    }
}

/// The extension block of a ClientHello message: after the type byte, the
/// 24-bit length, the version and the random value come the session id, the
/// cipher suites and the compression methods, each behind its own length.
pub open spec fn hello_extensions(hello: Seq<u8>) -> Option<Seq<u8>> {
    if hello.len() < 39 || hello[0] != 0x01 {
        None
    } else {
        let suites = 39 + hello[38] as int;
        if suites + 2 > hello.len() {
            None
        } else {
            let methods = suites + 2 + be16(hello, suites);
            if methods >= hello.len() {
                None
            } else {
                let exts = methods + 1 + hello[methods] as int;
                if exts + 2 > hello.len() || exts + 2 + be16(hello, exts) > hello.len() {
                    None
                } else {
                    Some(hello.subrange(exts + 2, exts + 2 + be16(hello, exts)))
                }
            }
        }
    }
}

/// What a handshake message says of the server name.
pub open spec fn hello_peek(hello: Seq<u8>) -> Peek {
    match hello_extensions(hello) {
        Some(exts) => match server_name_extension(exts) {
            Some(ext) => match extension_host_name(ext) {
                Some(name) => Peek::Tls(name),
                None => Peek::TlsNoSni,
            },
            None => Peek::TlsNoSni,
        },
        None => Peek::TlsNoSni,
    }
}

/// What a whole handshake record says of the server name. Record versions are
/// 3.0 to 3.4.
pub open spec fn handshake_record_peek(record: Seq<u8>) -> Peek {
    if record.len() < 5 || record[0] != 0x16 || record[1] != 0x03 || record[2] > 0x04 {
        Peek::Unknown
    } else {
        hello_peek(record.skip(5))
    }
}

/// What the records from `offset` on say, and where the first handshake record
/// ends. Change-cipher-spec records before it are skipped.
pub open spec fn records_peek(buf: Seq<u8>, offset: int) -> (Peek, int)
    decreases buf.len() - offset,
{
    if offset < 0 || offset + 5 > buf.len() {
        (Peek::NeedMore, 0)
    } else if buf[offset] != 0x14 && buf[offset] != 0x16 {
        (Peek::Unknown, 0)
    } else {
        let end = offset + 5 + be16(buf, offset + 3);
        if end > buf.len() {
            (Peek::NeedMore, 0)
        } else if buf[offset] == 0x16 {
            (handshake_record_peek(buf.subrange(offset, end)), end)
        } else {
            records_peek(buf, end)
        }
    }
}

/// The first four bytes of the HTTP methods that are recognised.
pub open spec fn begins_like_http(s: Seq<u8>) -> bool {
    s.len() >= 4 && ({
        let m = s.take(4);
        ||| m == seq![0x47u8, 0x45, 0x54, 0x20]  // "GET "
        ||| m == seq![0x50u8, 0x4f, 0x53, 0x54]  // "POST"
        ||| m == seq![0x48u8, 0x45, 0x41, 0x44]  // "HEAD"
        ||| m == seq![0x50u8, 0x55, 0x54, 0x20]  // "PUT "
        ||| m == seq![0x44u8, 0x45, 0x4c, 0x45]  // "DELE"
        ||| m == seq![0x4fu8, 0x50, 0x54, 0x49]  // "OPTI"
        ||| m == seq![0x50u8, 0x41, 0x54, 0x43]  // "PATC"
        ||| m == seq![0x43u8, 0x4f, 0x4e, 0x4e]  // "CONN"
    })
}

/// What the bytes received so far say, and how many of them form the
/// ClientHello flight.
pub open spec fn peek(buf: Seq<u8>) -> (Peek, int) {
    if buf.len() < 5 {
        (Peek::NeedMore, 0)
    } else if begins_like_http(buf) {
        (Peek::PlainHttp, 0)
    } else {
        records_peek(buf, 0)
    }
}

// ── Parsing ──────────────────────────────────────────────────────────────────

/// Parse TLS SNI from the first bytes of a TCP connection.
/// Skips leading TLS middlebox compatibility records (e.g. legacy CCS) before ClientHello.
pub fn parse_sni(buf: &[u8]) -> (r: PeekResult)
    ensures
        r@ == peek(buf@).0,
{
    parse_sni_with_replay(buf).0
}

/// Like [`parse_sni`], but also returns how many leading bytes form the ClientHello
/// flight (leading CCS + ClientHello record). Only those bytes may be replayed first;
/// any further bytes in the buffer must be sent separately (not appended to CH).
pub fn parse_sni_with_replay(buf: &[u8]) -> (r: (PeekResult, usize))
    ensures
        (r.0@, r.1 as int) == peek(buf@),
        r.1 <= buf@.len(),
{
    if buf.len() < 5 {
        return (PeekResult::NeedMore, 0);
    }
    if is_plain_http(buf) {
        return (PeekResult::PlainHttp, 0);
    }
    let mut offset: usize = 0;
    while buf.len() - offset >= 5
        invariant
            offset <= buf@.len(),
            buf@.len() >= 5,
            !begins_like_http(buf@),
            records_peek(buf@, offset as int) == records_peek(buf@, 0),
        decreases buf@.len() - offset,
    {
        let record_type: u8 = buf[offset];
        if record_type != 0x14 && record_type != 0x16 {
            return (PeekResult::Unknown, 0);
        }
        let record_len: usize = u16_be(slice_subrange(buf, offset + 3, offset + 5)) as usize;
        assert(record_len == be16(buf@, offset + 3));
        if record_len > buf.len() - offset - 5 {
            return (PeekResult::NeedMore, 0);
        }
        let record_end: usize = offset + 5 + record_len;
        if record_type == 0x16 {
            let result: PeekResult = parse_tls_handshake_record(
                slice_subrange(buf, offset, record_end),
            );
            return (result, record_end);
        }
        offset = record_end;
    }
    (PeekResult::NeedMore, 0)
}

/// Reads one whole record.
pub fn parse_tls_handshake_record(record: &[u8]) -> (r: PeekResult)
    ensures
        r@ == handshake_record_peek(record@),
{
    if record.len() < 5 || record[0] != 0x16 {
        return PeekResult::Unknown;
    }
    if record[1] != 0x03 || record[2] > 0x04 {
        return PeekResult::Unknown;
    }
    assert(record@.subrange(5, record@.len() as int) == record@.skip(5));
    parse_client_hello(slice_subrange(record, 5, record.len()))
}

/// Reads a ClientHello message.
pub fn parse_client_hello(data: &[u8]) -> (r: PeekResult)
    ensures
        r@ == hello_peek(data@),
{
    // Type, 24-bit length, version, random, session id length
    if data.len() < 39 || data[0] != 0x01 {
        return PeekResult::TlsNoSni;
    }
    let suites: usize = 39 + data[38] as usize;
    if suites + 2 > data.len() {
        return PeekResult::TlsNoSni;
    }
    let suites_len: usize = u16_be(slice_subrange(data, suites, suites + 2)) as usize;
    assert(suites_len == be16(data@, suites as int));
    if suites_len >= data.len() - (suites + 2) {
        return PeekResult::TlsNoSni;
    }
    let methods: usize = suites + 2 + suites_len;
    let methods_len: usize = data[methods] as usize;
    if methods_len > data.len() - methods - 1 {
        return PeekResult::TlsNoSni;
    }
    let exts: usize = methods + 1 + methods_len;
    if data.len() - exts < 2 {
        return PeekResult::TlsNoSni;
    }
    let exts_len: usize = u16_be(slice_subrange(data, exts, exts + 2)) as usize;
    assert(exts_len == be16(data@, exts as int));
    if exts_len > data.len() - exts - 2 {
        return PeekResult::TlsNoSni;
    }
    let block: &[u8] = slice_subrange(data, exts + 2, exts + 2 + exts_len);
    assert(hello_extensions(data@) == Some(block@));
    let mut pos: usize = 0;
    assert(block@.skip(0) == block@);
    while block.len() - pos >= 4
        invariant
            pos <= block@.len(),
            hello_extensions(data@) == Some(block@),
            server_name_extension(block@.skip(pos as int)) == server_name_extension(block@),
        decreases block@.len() - pos,
    {
        let ghost rest = block@.skip(pos as int);
        let ext_type: u16 = u16_be(slice_subrange(block, pos, pos + 2));
        let ext_len: usize = u16_be(slice_subrange(block, pos + 2, pos + 4)) as usize;
        assert(ext_type == be16(rest, 0));
        assert(ext_len == be16(rest, 2));
        if ext_len > block.len() - pos - 4 {
            return PeekResult::TlsNoSni;
        }
        if ext_type == 0x0000 {
            assert(rest.subrange(4, 4 + ext_len) == block@.subrange(pos + 4, pos + 4 + ext_len));
            return match parse_sni_extension(slice_subrange(block, pos + 4, pos + 4 + ext_len)) {
                Some(name) => PeekResult::Tls(name),
                None => PeekResult::TlsNoSni,
            };
        }
        assert(rest.skip(4 + ext_len) == block@.skip(pos + 4 + ext_len));
        pos = pos + 4 + ext_len;
    }
    PeekResult::TlsNoSni
}

/// Reads the body of a server-name extension.
pub fn parse_sni_extension(data: &[u8]) -> (r: Option<String>)
    ensures
        extension_host_name(data@) == (match r {
            Some(name) => Some(name@),
            None => None,
        }),
{
    if data.len() < 2 {
        return None;
    }
    let list_len: usize = u16_be(slice_subrange(data, 0, 2)) as usize;
    assert(list_len == be16(data@, 0));
    if list_len > data.len() - 2 {
        return None;
    }
    let list: &[u8] = slice_subrange(data, 2, 2 + list_len);
    let mut pos: usize = 0;
    assert(list@.skip(0) == list@);
    while list.len() - pos >= 3
        invariant
            pos <= list@.len(),
            data@.len() >= 2,
            2 + be16(data@, 0) <= data@.len(),
            list@ == data@.subrange(2, 2 + be16(data@, 0)),
            host_name_entry(list@.skip(pos as int)) == host_name_entry(list@),
        decreases list@.len() - pos,
    {
        let ghost rest = list@.skip(pos as int);
        let name_type: u8 = list[pos];
        let name_len: usize = u16_be(slice_subrange(list, pos + 1, pos + 3)) as usize;
        assert(name_len == be16(rest, 1));
        if name_len > list.len() - pos - 3 {
            return None;
        }
        if name_type == 0 {
            let name: &[u8] = slice_subrange(list, pos + 3, pos + 3 + name_len);
            assert(rest.subrange(3, 3 + name_len) == name@);
            return match std::str::from_utf8(name) {
                Ok(s) => {
                    proof {
                        utf8::encode_utf8_decode_utf8(s@);
                    }
                    Some(s.to_lowercase())
                },
                Err(_) => None,
            };
        }
        assert(rest.skip(3 + name_len) == list@.skip(pos + 3 + name_len));
        pos = pos + 3 + name_len;
    }
    None
}

/// True when the bytes begin with an HTTP method.
pub fn is_plain_http(prefix: &[u8]) -> (r: bool)
    ensures
        r == begins_like_http(prefix@),
{
    if prefix.len() < 4 {
        return false;
    }
    let (a, b, c, d): (u8, u8, u8, u8) = (prefix[0], prefix[1], prefix[2], prefix[3]);
    assert(prefix@.take(4) == seq![a, b, c, d]);
    let r: bool = (a == 0x47 && b == 0x45 && c == 0x54 && d == 0x20) || (a == 0x50 && b == 0x4f && c
        == 0x53 && d == 0x54) || (a == 0x48 && b == 0x45 && c == 0x41 && d == 0x44) || (a == 0x50
        && b == 0x55 && c == 0x54 && d == 0x20) || (a == 0x44 && b == 0x45 && c == 0x4c && d
        == 0x45) || (a == 0x4f && b == 0x50 && c == 0x54 && d == 0x49) || (a == 0x50 && b == 0x41
        && c == 0x54 && d == 0x43) || (a == 0x43 && b == 0x4f && c == 0x4e && d == 0x4e);
    proof {
        let m = prefix@.take(4);
        lemma_four(m, 0x47, 0x45, 0x54, 0x20);
        lemma_four(m, 0x50, 0x4f, 0x53, 0x54);
        lemma_four(m, 0x48, 0x45, 0x41, 0x44);
        lemma_four(m, 0x50, 0x55, 0x54, 0x20);
        lemma_four(m, 0x44, 0x45, 0x4c, 0x45);
        lemma_four(m, 0x4f, 0x50, 0x54, 0x49);
        lemma_four(m, 0x50, 0x41, 0x54, 0x43);
        lemma_four(m, 0x43, 0x4f, 0x4e, 0x4e);
    }
    r
}

proof fn lemma_four(m: Seq<u8>, a: u8, b: u8, c: u8, d: u8)
    requires
        m.len() == 4,
    ensures
        m == seq![a, b, c, d] <==> (m[0] == a && m[1] == b && m[2] == c && m[3] == d),
{
    if m[0] == a && m[1] == b && m[2] == c && m[3] == d {
        assert(m =~= seq![a, b, c, d]);
    }
}

/// The big-endian 16-bit number in the first two bytes.
pub fn u16_be(b: &[u8]) -> (r: u16)
    requires
        b@.len() >= 2,
    ensures
        r == be16(b@, 0),
{
    b[0] as u16 * 256 + b[1] as u16
}

/// The big-endian 24-bit number in the first three bytes.
pub fn u24_be(b: &[u8]) -> (r: u32)
    requires
        b@.len() >= 3,
    ensures
        r == b@[0] * 65536 + b@[1] * 256 + b@[2],
{
    b[0] as u32 * 65536 + b[1] as u32 * 256 + b[2] as u32
}

// ── Laws ─────────────────────────────────────────────────────────────────────

proof fn lemma_records_stable(buf: Seq<u8>, more: Seq<u8>, offset: int)
    requires
        records_peek(buf, offset).0 !is NeedMore,
    ensures
        records_peek(buf + more, offset) == records_peek(buf, offset),
        0 <= records_peek(buf, offset).1 <= buf.len(),
        records_peek(buf, offset).0 is Tls ==> records_peek(buf, offset).1 >= 5,
    decreases buf.len() - offset,
{
    let all = buf + more;
    let end = offset + 5 + be16(buf, offset + 3);
    if buf[offset] == 0x16 {
        assert(all.subrange(offset, end) == buf.subrange(offset, end));
    } else if buf[offset] == 0x14 {
        lemma_records_stable(buf, more, end);
    }
}

/// A verdict is final: once the bytes received so far give anything but
/// `NeedMore`, further bytes change neither the verdict nor the length of the
/// flight.
pub proof fn verdict_is_final(buf: Seq<u8>, more: Seq<u8>)
    requires
        peek(buf).0 !is NeedMore,
    ensures
        peek(buf + more) == peek(buf),
{
    assert((buf + more).take(4) == buf.take(4));
    if !begins_like_http(buf) {
        lemma_records_stable(buf, more, 0);
    }
}

proof fn lemma_records_prefix(buf: Seq<u8>, offset: int)
    requires
        0 <= offset,
        records_peek(buf, offset).0 is Tls,
    ensures
        offset + 5 <= records_peek(buf, offset).1 <= buf.len(),
        records_peek(buf.take(records_peek(buf, offset).1), offset) == records_peek(buf, offset),
    decreases buf.len() - offset,
{
    let n = records_peek(buf, offset).1;
    let end = offset + 5 + be16(buf, offset + 3);
    if buf[offset] == 0x16 {
        assert(buf.take(n).subrange(offset, end) == buf.subrange(offset, end));
    } else {
        lemma_records_prefix(buf, end);
    }
}

/// The flight is enough: the bytes that are replayed first carry the server
/// name by themselves, and end with the record that it was found in.
pub proof fn flight_carries_the_name(buf: Seq<u8>)
    requires
        peek(buf).0 is Tls,
    ensures
        5 <= peek(buf).1 <= buf.len(),
        peek(buf.take(peek(buf).1)) == peek(buf),
{
    lemma_records_prefix(buf, 0);
    assert(buf.take(peek(buf).1).take(4) == buf.take(4));
}

/// A number below 65536 as two big-endian bytes.
pub open spec fn be16_bytes(n: nat) -> Seq<u8> {
    seq![(n / 256) as u8, (n % 256) as u8]
}

/// An extension of type `kind`.
pub open spec fn extension(kind: nat, body: Seq<u8>) -> Seq<u8> {
    be16_bytes(kind) + be16_bytes(body.len()) + body
}

/// Extensions one after the other.
pub open spec fn extensions(list: Seq<(nat, Seq<u8>)>) -> Seq<u8>
    decreases list.len(),
{
    if list.len() == 0 {
        Seq::empty()
    } else {
        extension(list[0].0, list[0].1) + extensions(list.drop_first())
    }
}

/// The body of a server-name extension that lists one host name.
pub open spec fn server_name_body(name: Seq<u8>) -> Seq<u8> {
    be16_bytes(name.len() + 3) + seq![0u8] + be16_bytes(name.len()) + name
}

/// Change-cipher-spec records, each with the version bytes and the payload given.
pub open spec fn cipher_spec_records(list: Seq<(u8, u8, Seq<u8>)>) -> Seq<u8>
    decreases list.len(),
{
    if list.len() == 0 {
        Seq::empty()
    } else {
        seq![0x14u8, list[0].0, list[0].1] + be16_bytes(list[0].2.len()) + list[0].2
            + cipher_spec_records(list.drop_first())
    }
}

/// A ClientHello that names a host.
pub struct NamedHello {
    /// Minor version in the record header
    pub minor: u8,
    /// Message length, version and random value
    pub head: Seq<u8>,
    pub session_id: Seq<u8>,
    pub cipher_suites: Seq<u8>,
    pub compression: Seq<u8>,
    /// Type and body of the extensions before the server name
    pub before: Seq<(nat, Seq<u8>)>,
    pub name: Seq<u8>,
    /// What follows in the extension block
    pub after: Seq<u8>,
}

impl NamedHello {
    /// The extension block.
    pub open spec fn block(self) -> Seq<u8> {
        extensions(self.before) + extension(0, server_name_body(self.name)) + self.after
    }

    /// The handshake message.
    #[verifier::opaque]
    pub open spec fn message(self) -> Seq<u8> {
        seq![0x01u8] + self.head + seq![self.session_id.len() as u8] + self.session_id + be16_bytes(self.cipher_suites.len()) + self.cipher_suites + seq![self.compression.len() as u8] + self.compression + be16_bytes(self.block().len()) + self.block()
    }

    /// The record that carries the message.
    pub open spec fn record(self) -> Seq<u8> {
        handshake_record(self.minor, self.message())
    }

    /// Every part fits the length field before it.
    pub open spec fn well_formed(self) -> bool {
        &&& self.minor <= 4
        &&& self.head.len() == 37
        &&& self.session_id.len() < 256
        &&& self.compression.len() < 256
        &&& self.message().len() < 65536
        &&& forall|i: int|
            0 <= i < self.before.len() ==> 0 < (#[trigger] self.before[i]).0 < 65536
        &&& utf8::valid_utf8(self.name)
    }
}

proof fn lemma_be16(s: Seq<u8>, i: int, n: nat)
    requires
        0 <= n < 65536,
        0 <= i,
        i + 2 <= s.len(),
        s.subrange(i, i + 2) == be16_bytes(n),
    ensures
        be16(s, i) == n,
{
    assert(s[i] == s.subrange(i, i + 2)[0]);
    assert(s[i + 1] == s.subrange(i, i + 2)[1]);
}

proof fn lemma_server_name_found(
    before: Seq<(nat, Seq<u8>)>,
    body: Seq<u8>,
    after: Seq<u8>,
)
    requires
        forall|i: int| 0 <= i < before.len() ==> 0 < (#[trigger] before[i]).0 < 65536,
        (extensions(before) + extension(0, body) + after).len() < 65536,
    ensures
        server_name_extension(extensions(before) + extension(0, body) + after) == Some(body),
    decreases before.len(),
{
    let s = extensions(before) + extension(0, body) + after;
    if before.len() == 0 {
        assert(s.subrange(0, 2) == be16_bytes(0));
        assert(s.subrange(2, 4) == be16_bytes(body.len()));
        lemma_be16(s, 0, 0);
        lemma_be16(s, 2, body.len());
        assert(s.subrange(4, 4 + body.len() as int) == body);
    } else {
        let first = before[0].1;
        let rest = extensions(before.drop_first()) + extension(0, body) + after;
        assert(s == extension(before[0].0, first) + rest);
        assert(s.subrange(0, 2) == be16_bytes(before[0].0));
        assert(s.subrange(2, 4) == be16_bytes(first.len()));
        lemma_be16(s, 0, before[0].0);
        lemma_be16(s, 2, first.len());
        assert(s.skip(4 + first.len() as int) == rest);
        assert forall|i: int| 0 <= i < before.drop_first().len() implies 0 < (
        #[trigger] before.drop_first()[i]).0 < 65536 by {
            assert(before.drop_first()[i] == before[i + 1]);
        }
        lemma_server_name_found(before.drop_first(), body, after);
    }
}

proof fn lemma_name_found(name: Seq<u8>)
    requires
        name.len() + 3 < 65536,
        utf8::valid_utf8(name),
    ensures
        extension_host_name(server_name_body(name)) == Some(
            text::lowercase(utf8::decode_utf8(name)),
        ),
{
    let ext = server_name_body(name);
    assert(ext.subrange(0, 2) == be16_bytes(name.len() + 3));
    lemma_be16(ext, 0, name.len() + 3);
    let list = ext.subrange(2, 2 + be16(ext, 0));
    assert(list == seq![0u8] + be16_bytes(name.len()) + name);
    assert(list.subrange(1, 3) == be16_bytes(name.len()));
    lemma_be16(list, 1, name.len());
    assert(list.subrange(3, 3 + name.len() as int) == name);
}

proof fn lemma_hello_found(h: NamedHello)
    requires
        h.well_formed(),
    ensures
        hello_peek(h.message()) == Peek::Tls(text::lowercase(utf8::decode_utf8(h.name))),
{
    reveal(NamedHello::message);
    let m = h.message();
    let block = h.block();
    let suites: int = 39 + h.session_id.len() as int;
    let methods = suites + 2 + h.cipher_suites.len();
    let exts = methods + 1 + h.compression.len();
    assert(m[0] == 0x01);
    assert(m[38] == h.session_id.len() as u8);
    assert(m.subrange(suites, suites + 2) == be16_bytes(h.cipher_suites.len()));
    lemma_be16(m, suites, h.cipher_suites.len());
    assert(m[methods] == h.compression.len() as u8);
    assert(m.subrange(exts, exts + 2) == be16_bytes(block.len()));
    lemma_be16(m, exts, block.len());
    assert(m.subrange(exts + 2, exts + 2 + block.len()) == block);
    lemma_server_name_found(h.before, server_name_body(h.name), h.after);
    lemma_name_found(h.name);
}

proof fn lemma_cipher_specs_skipped(
    front: Seq<u8>,
    skipped: Seq<(u8, u8, Seq<u8>)>,
    rest: Seq<u8>,
)
    requires
        forall|i: int| 0 <= i < skipped.len() ==> (#[trigger] skipped[i]).2.len() < 65536,
    ensures
        records_peek(front + cipher_spec_records(skipped) + rest, front.len() as int)
            == records_peek(
            front + cipher_spec_records(skipped) + rest,
            (front + cipher_spec_records(skipped)).len() as int,
        ),
    decreases skipped.len(),
{
    if skipped.len() > 0 {
        let n = skipped[0].2.len();
        let record = seq![0x14u8, skipped[0].0, skipped[0].1] + be16_bytes(n) + skipped[0].2;
        let tail = cipher_spec_records(skipped.drop_first());
        let s = front + cipher_spec_records(skipped) + rest;
        let at = front.len() as int;
        assert(cipher_spec_records(skipped) == record + tail);
        assert(s == front + record + tail + rest);
        assert(s[at] == 0x14);
        assert(s.subrange(at + 3, at + 5) == be16_bytes(n));
        lemma_be16(s, at + 3, n);
        assert((front + record).len() == at + 5 + n);
        assert forall|i: int| 0 <= i < skipped.drop_first().len() implies (
        #[trigger] skipped.drop_first()[i]).2.len() < 65536 by {
            assert(skipped.drop_first()[i] == skipped[i + 1]);
        }
        lemma_cipher_specs_skipped(front + record, skipped.drop_first(), rest);
    } else {
        assert(front + cipher_spec_records(skipped) == front);
    }
}

/// A handshake record around `message`.
pub open spec fn handshake_record(minor: u8, message: Seq<u8>) -> Seq<u8> {
    seq![0x16u8, 0x03, minor] + be16_bytes(message.len()) + message
}

proof fn lemma_record_read(front: Seq<u8>, minor: u8, message: Seq<u8>, rest: Seq<u8>)
    requires
        minor <= 4,
        message.len() < 65536,
    ensures
        handshake_record(minor, message).len() >= 5,
        handshake_record(minor, message)[0] == 0x16,
        records_peek(front + handshake_record(minor, message) + rest, front.len() as int) == (
            hello_peek(message),
            (front + handshake_record(minor, message)).len() as int,
        ),
{
    let n = message.len();
    let record = handshake_record(minor, message);
    let s = front + record + rest;
    let at = front.len() as int;
    assert(s[at] == 0x16);
    assert(s.subrange(at + 3, at + 5) =~= be16_bytes(n));
    lemma_be16(s, at + 3, n);
    assert(s.subrange(at, at + 5 + n) =~= record);
    assert(record.skip(5) =~= message);
}

proof fn lemma_not_http(s: Seq<u8>)
    requires
        s.len() >= 4,
        s[0] == 0x14 || s[0] == 0x16,
    ensures
        !begins_like_http(s),
{
    let m = s.take(4);
    assert(m[0] == s[0]);
    if begins_like_http(s) {
        assert(m[0] == 0x47 || m[0] == 0x50 || m[0] == 0x48 || m[0] == 0x44 || m[0] == 0x4f || m[0]
            == 0x43);
    }
}

proof fn lemma_flight_read(
    skipped: Seq<(u8, u8, Seq<u8>)>,
    minor: u8,
    message: Seq<u8>,
    rest: Seq<u8>,
)
    requires
        forall|i: int| 0 <= i < skipped.len() ==> (#[trigger] skipped[i]).2.len() < 65536,
        minor <= 4,
        message.len() < 65536,
    ensures
        peek(cipher_spec_records(skipped) + handshake_record(minor, message) + rest) == (
            hello_peek(message),
            (cipher_spec_records(skipped) + handshake_record(minor, message)).len() as int,
        ),
{
    let front = cipher_spec_records(skipped);
    let record = handshake_record(minor, message);
    let s = front + record + rest;
    lemma_cipher_specs_skipped(Seq::empty(), skipped, record + rest);
    assert(Seq::<u8>::empty() + front + (record + rest) =~= s);
    assert(Seq::<u8>::empty() + front =~= front);
    lemma_record_read(front, minor, message, rest);
    assert(s[0] == 0x14 || s[0] == 0x16) by {
        if skipped.len() == 0 {
            assert(s[0] == record[0]);
        }
    }
    lemma_not_http(s);
}

/// The name that a client sends is the name that is read: whatever
/// change-cipher-spec records come before a ClientHello and whatever bytes come
/// after it, parsing gives the lowercase form of its host name, and the flight
/// is exactly those records and the ClientHello record.
pub proof fn sent_name_is_read(
    skipped: Seq<(u8, u8, Seq<u8>)>,
    hello: NamedHello,
    rest: Seq<u8>,
)
    requires
        forall|i: int| 0 <= i < skipped.len() ==> (#[trigger] skipped[i]).2.len() < 65536,
        hello.well_formed(),
    ensures
        peek(cipher_spec_records(skipped) + hello.record() + rest) == (
            Peek::Tls(text::lowercase(utf8::decode_utf8(hello.name))),
            (cipher_spec_records(skipped) + hello.record()).len() as int,
        ),
{
    lemma_hello_found(hello);
    lemma_flight_read(skipped, hello.minor, hello.message(), rest);
}

proof fn lemma_records_unfinished(full: Seq<u8>, n: int, offset: int)
    requires
        0 <= offset,
        0 <= n < full.len(),
        records_peek(full, offset).1 == full.len(),
    ensures
        records_peek(full.take(n), offset).0 is NeedMore,
    decreases full.len() - offset,
{
    let end = offset + 5 + be16(full, offset + 3);
    if offset + 5 <= n && end <= n {
        assert(full[offset] == 0x14);
        lemma_records_unfinished(full, n, end);
    }
}

/// However a ClientHello is split into reads, it is waited for: as long as its
/// record is not complete, whatever change-cipher-spec records come before it,
/// the verdict is that more bytes are needed.
pub proof fn unfinished_hello_is_waited_for(
    skipped: Seq<(u8, u8, Seq<u8>)>,
    minor: u8,
    message: Seq<u8>,
    n: int,
)
    requires
        forall|i: int| 0 <= i < skipped.len() ==> (#[trigger] skipped[i]).2.len() < 65536,
        minor <= 4,
        message.len() < 65536,
        0 <= n < (cipher_spec_records(skipped) + handshake_record(minor, message)).len(),
    ensures
        peek((cipher_spec_records(skipped) + handshake_record(minor, message)).take(n)).0
            is NeedMore,
{
    let full = cipher_spec_records(skipped) + handshake_record(minor, message);
    lemma_flight_read(skipped, minor, message, Seq::empty());
    assert(full + Seq::<u8>::empty() =~= full);
    assert(full[0] == 0x14 || full[0] == 0x16) by {
        if skipped.len() == 0 {
            assert(full[0] == handshake_record(minor, message)[0]);
        }
    }
    lemma_not_http(full);
    if n >= 5 {
        assert(full.take(n)[0] == full[0]);
        lemma_not_http(full.take(n));
        lemma_records_unfinished(full, n, 0);
    }
}

proof fn lemma_no_server_name(list: Seq<(nat, Seq<u8>)>)
    requires
        forall|i: int| 0 <= i < list.len() ==> 0 < (#[trigger] list[i]).0 < 65536,
        extensions(list).len() < 65536,
    ensures
        server_name_extension(extensions(list)) is None,
    decreases list.len(),
{
    if list.len() > 0 {
        let s = extensions(list);
        let first = list[0].1;
        let rest = extensions(list.drop_first());
        assert(s == extension(list[0].0, first) + rest);
        assert(s.subrange(0, 2) == be16_bytes(list[0].0));
        assert(s.subrange(2, 4) == be16_bytes(first.len()));
        lemma_be16(s, 0, list[0].0);
        lemma_be16(s, 2, first.len());
        assert(s.skip(4 + first.len() as int) == rest);
        assert forall|i: int| 0 <= i < list.drop_first().len() implies 0 < (
        #[trigger] list.drop_first()[i]).0 < 65536 by {
            assert(list.drop_first()[i] == list[i + 1]);
        }
        lemma_no_server_name(list.drop_first());
    }
}

/// A ClientHello message around an extension block.
pub open spec fn hello_message(
    head: Seq<u8>,
    session_id: Seq<u8>,
    cipher_suites: Seq<u8>,
    compression: Seq<u8>,
    block: Seq<u8>,
) -> Seq<u8> {
    seq![0x01u8] + head + seq![session_id.len() as u8] + session_id + be16_bytes(
        cipher_suites.len(),
    ) + cipher_suites + seq![compression.len() as u8] + compression + be16_bytes(block.len())
        + block
}

proof fn lemma_block_found(
    head: Seq<u8>,
    session_id: Seq<u8>,
    cipher_suites: Seq<u8>,
    compression: Seq<u8>,
    block: Seq<u8>,
)
    requires
        head.len() == 37,
        session_id.len() < 256,
        compression.len() < 256,
        hello_message(head, session_id, cipher_suites, compression, block).len() < 65536,
    ensures
        hello_extensions(hello_message(head, session_id, cipher_suites, compression, block))
            == Some(block),
{
    let m = hello_message(head, session_id, cipher_suites, compression, block);
    let suites: int = 39 + session_id.len() as int;
    let methods = suites + 2 + cipher_suites.len();
    let exts = methods + 1 + compression.len();
    assert(m[0] == 0x01);
    assert(m[38] == session_id.len() as u8);
    assert(m.subrange(suites, suites + 2) == be16_bytes(cipher_suites.len()));
    lemma_be16(m, suites, cipher_suites.len());
    assert(m[methods] == compression.len() as u8);
    assert(m.subrange(exts, exts + 2) == be16_bytes(block.len()));
    lemma_be16(m, exts, block.len());
    assert(m.subrange(exts + 2, exts + 2 + block.len()) == block);
}

/// A ClientHello whose extensions name no host is told from one that does and
/// from what is not complete.
pub proof fn nameless_hello_is_told(
    skipped: Seq<(u8, u8, Seq<u8>)>,
    minor: u8,
    head: Seq<u8>,
    session_id: Seq<u8>,
    cipher_suites: Seq<u8>,
    compression: Seq<u8>,
    list: Seq<(nat, Seq<u8>)>,
    rest: Seq<u8>,
)
    requires
        forall|i: int| 0 <= i < skipped.len() ==> (#[trigger] skipped[i]).2.len() < 65536,
        minor <= 4,
        head.len() == 37,
        session_id.len() < 256,
        compression.len() < 256,
        forall|i: int| 0 <= i < list.len() ==> 0 < (#[trigger] list[i]).0 < 65536,
        hello_message(head, session_id, cipher_suites, compression, extensions(list)).len()
            < 65536,
    ensures
        peek(
            cipher_spec_records(skipped) + handshake_record(
                minor,
                hello_message(head, session_id, cipher_suites, compression, extensions(list)),
            ) + rest,
        ).0 is TlsNoSni,
{
    let block = extensions(list);
    lemma_block_found(head, session_id, cipher_suites, compression, block);
    lemma_no_server_name(list);
    lemma_flight_read(
        skipped,
        minor,
        hello_message(head, session_id, cipher_suites, compression, block),
        rest,
    );
}

/// The first four bytes of a request with one of the usual methods: GET, POST,
/// HEAD, PUT, DELETE, OPTIONS, PATCH, CONNECT.
pub open spec fn is_method(a: u8, b: u8, c: u8, d: u8) -> bool {
    ||| a == 71 && b == 69 && c == 84 && d == 32
    ||| a == 80 && b == 79 && c == 83 && d == 84
    ||| a == 72 && b == 69 && c == 65 && d == 68
    ||| a == 80 && b == 85 && c == 84 && d == 32
    ||| a == 68 && b == 69 && c == 76 && d == 69
    ||| a == 79 && b == 80 && c == 84 && d == 73
    ||| a == 80 && b == 65 && c == 84 && d == 67
    ||| a == 67 && b == 79 && c == 78 && d == 78
}

/// A plain request is told by its method, and what begins neither like a request
/// nor like a TLS record is known to be neither. Before five bytes nothing is
/// decided.
pub proof fn other_protocols_are_told(buf: Seq<u8>)
    ensures
        buf.len() < 5 ==> peek(buf).0 is NeedMore,
        buf.len() >= 5 ==> (peek(buf).0 is PlainHttp <==> is_method(
            buf[0],
            buf[1],
            buf[2],
            buf[3],
        )),
        buf.len() >= 5 && !is_method(buf[0], buf[1], buf[2], buf[3]) && buf[0] != 0x14 && buf[0]
            != 0x16 ==> peek(buf).0 is Unknown,
{
    if buf.len() >= 5 {
        let m = buf.take(4);
        assert(m[0] == buf[0] && m[1] == buf[1] && m[2] == buf[2] && m[3] == buf[3]);
        assert(m =~= seq![buf[0], buf[1], buf[2], buf[3]]);
        if begins_like_http(buf) {
            assert(is_method(m[0], m[1], m[2], m[3]));
        }
        lemma_records_are_tls(buf, 0);
    }
}

proof fn lemma_records_are_tls(buf: Seq<u8>, offset: int)
    ensures
        records_peek(buf, offset).0 !is PlainHttp,
    decreases buf.len() - offset,
{
    if 0 <= offset && offset + 5 <= buf.len() && buf[offset] == 0x14 {
        let end = offset + 5 + be16(buf, offset + 3);
        if end <= buf.len() {
            lemma_records_are_tls(buf, end);
        }
    }
}

/// Entries of a server-name list: a type, a length and a name each.
pub open spec fn name_entries(list: Seq<(u8, Seq<u8>)>) -> Seq<u8>
    decreases list.len(),
{
    if list.len() == 0 {
        Seq::empty()
    } else {
        seq![list[0].0] + be16_bytes(list[0].1.len()) + list[0].1 + name_entries(
            list.drop_first(),
        )
    }
}

/// The host name in a server-name list is found behind entries of other types,
/// and it is the first one that counts.
pub proof fn host_name_is_found_in_its_list(
    before: Seq<(u8, Seq<u8>)>,
    name: Seq<u8>,
    after: Seq<u8>,
)
    requires
        forall|i: int|
            0 <= i < before.len() ==> (#[trigger] before[i]).0 != 0 && before[i].1.len() < 65536,
        name.len() < 65536,
    ensures
        host_name_entry(name_entries(before) + (seq![0u8] + be16_bytes(name.len()) + name) + after)
            == Some(name),
    decreases before.len(),
{
    let entry = seq![0u8] + be16_bytes(name.len()) + name;
    let s = name_entries(before) + entry + after;
    if before.len() == 0 {
        assert(s.subrange(1, 3) =~= be16_bytes(name.len()));
        lemma_be16(s, 1, name.len());
        assert(s.subrange(3, 3 + name.len() as int) =~= name);
    } else {
        let first = before[0].1;
        let rest = name_entries(before.drop_first()) + entry + after;
        assert(s =~= seq![before[0].0] + be16_bytes(first.len()) + first + rest);
        assert(s.subrange(1, 3) =~= be16_bytes(first.len()));
        lemma_be16(s, 1, first.len());
        assert(s.skip(3 + first.len() as int) =~= rest);
        assert forall|i: int| 0 <= i < before.drop_first().len() implies (
        #[trigger] before.drop_first()[i]).0 != 0 && before.drop_first()[i].1.len() < 65536 by {
            assert(before.drop_first()[i] == before[i + 1]);
        }
        host_name_is_found_in_its_list(before.drop_first(), name, after);
    }
}

proof fn lemma_unreadable_name(before: Seq<(nat, Seq<u8>)>, name: Seq<u8>, after: Seq<u8>)
    requires
        forall|i: int| 0 <= i < before.len() ==> 0 < (#[trigger] before[i]).0 < 65536,
        (extensions(before) + extension(0, server_name_body(name)) + after).len() < 65536,
        !utf8::valid_utf8(name),
    ensures
        ({
            let block = extensions(before) + extension(0, server_name_body(name)) + after;
            server_name_extension(block) == Some(server_name_body(name))
        }),
        extension_host_name(server_name_body(name)) is None,
{
    lemma_server_name_found(before, server_name_body(name), after);
    let ext = server_name_body(name);
    assert(name.len() + 3 < 65536);
    assert(ext.subrange(0, 2) =~= be16_bytes(name.len() + 3));
    lemma_be16(ext, 0, name.len() + 3);
    let list = ext.subrange(2, 2 + be16(ext, 0));
    let entry = seq![0u8] + be16_bytes(name.len()) + name;
    let none = name_entries(Seq::empty());
    assert(none.len() == 0);
    assert(list =~= none + entry + Seq::<u8>::empty());
    host_name_is_found_in_its_list(Seq::empty(), name, Seq::empty());
}

/// A name that is not UTF-8 names no host.
pub proof fn unreadable_name_is_no_name(
    skipped: Seq<(u8, u8, Seq<u8>)>,
    minor: u8,
    head: Seq<u8>,
    session_id: Seq<u8>,
    cipher_suites: Seq<u8>,
    compression: Seq<u8>,
    before: Seq<(nat, Seq<u8>)>,
    name: Seq<u8>,
    after: Seq<u8>,
    rest: Seq<u8>,
)
    requires
        forall|i: int| 0 <= i < skipped.len() ==> (#[trigger] skipped[i]).2.len() < 65536,
        minor <= 4,
        head.len() == 37,
        session_id.len() < 256,
        compression.len() < 256,
        forall|i: int| 0 <= i < before.len() ==> 0 < (#[trigger] before[i]).0 < 65536,
        hello_message(
            head,
            session_id,
            cipher_suites,
            compression,
            extensions(before) + extension(0, server_name_body(name)) + after,
        ).len() < 65536,
        !utf8::valid_utf8(name),
    ensures
        peek(
            cipher_spec_records(skipped) + handshake_record(
                minor,
                hello_message(
                    head,
                    session_id,
                    cipher_suites,
                    compression,
                    extensions(before) + extension(0, server_name_body(name)) + after,
                ),
            ) + rest,
        ).0 is TlsNoSni,
{
    let block = extensions(before) + extension(0, server_name_body(name)) + after;
    let message = hello_message(head, session_id, cipher_suites, compression, block);
    lemma_block_found(head, session_id, cipher_suites, compression, block);
    lemma_unreadable_name(before, name, after);
    assert(hello_peek(message) is TlsNoSni);
    lemma_flight_read(skipped, minor, message, rest);
}

/// A handshake record of a version other than 3.0 to 3.4 is no TLS record.
pub proof fn other_record_versions_are_refused(
    major: u8,
    minor: u8,
    message: Seq<u8>,
    rest: Seq<u8>,
)
    requires
        message.len() < 65536,
        major != 3 || minor > 4,
    ensures
        peek(seq![0x16u8, major, minor] + be16_bytes(message.len()) + message + rest).0 is Unknown,
{
    let record = seq![0x16u8, major, minor] + be16_bytes(message.len()) + message;
    let s = record + rest;
    assert(s =~= seq![0x16u8, major, minor] + be16_bytes(message.len()) + message + rest);
    assert(s.subrange(3, 5) =~= be16_bytes(message.len()));
    lemma_be16(s, 3, message.len());
    lemma_not_http(s);
    assert(s.subrange(0, 5 + message.len() as int) =~= record);
}

} // verus!
