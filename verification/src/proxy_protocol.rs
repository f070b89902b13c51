//! PROXY protocol v1 / v2: the header is recognised without losing traffic that carries none.
//!
//! [`next_step`] decides, from the bytes that have arrived, what to do next. It holds no state of
//! its own, so the caller owns the buffer and performs the reads.

use crate::addr;
use crate::addr::{IpAddr, Ipv4Addr, Ipv6Addr, SocketAddr};
use crate::text;
use vstd::prelude::*;
use vstd::slice::slice_subrange;

verus! {

/// The twelve bytes that open a v2 header.
pub const V2_SIG: [u8; 12] = [
    0x0D,
    0x0A,
    0x0D,
    0x0A,
    0x00,
    0x0D,
    0x0A,
    0x51,
    0x55,
    0x49,
    0x54,
    0x0A,
];

/// `PROXY ` in ASCII: the six bytes that open a v1 header.
pub const V1_TAG: [u8; 6] = [0x50, 0x52, 0x4F, 0x58, 0x59, 0x20];

/// How many bytes are asked for before the kind of traffic is known.
pub const PEEK: usize = 16;

/// A v1 line that has not ended after more than this many bytes is refused.
pub const V1_LIMIT: usize = 108;

/// The connection that a PROXY header describes.
#[derive(Clone, Copy, Debug, PartialEq, Eq, Structural)]
pub struct ProxyHeader {
    pub src: SocketAddr,
    pub dst: SocketAddr,
}

/// Why a PROXY header was refused.
#[derive(Clone, Copy, Debug, PartialEq, Eq, Structural)]
pub enum ProxyError {
    /// The stream ended inside a v1 line.
    EofV1,
    /// The stream ended inside a v2 header.
    EofV2,
    /// The v1 line is too long.
    TooLong,
    /// The v1 line is not UTF-8.
    InvalidUtf8,
    /// The v1 line lacks fields, or does not begin with `PROXY`.
    Malformed,
    /// A v1 field is no IP address.
    BadAddress,
    /// A v1 field is no port.
    BadPort,
    /// The v2 address family is unknown, or its addresses are cut short.
    UnsupportedFamily(u8),
}

/// What to do after looking at the bytes that have arrived.
pub enum Step {
    /// Read at most this many bytes and append them.
    Read(usize),
    /// The traffic carries no header; all bytes so far belong to it.
    Plain,
    /// The first `used` bytes are the header.
    Header { header: ProxyHeader, used: usize },
    /// The header is refused.
    Fail(ProxyError),
}

/// A stream in front of which bytes that were already taken from it are put back.
pub struct PrefixedStream<S> {
    inner: S,
    prefix: Vec<u8>,
    prefix_pos: usize,
}

impl<S> PrefixedStream<S> {
    /// At no time has more been handed out than was put back.
    pub closed spec fn wf(&self) -> bool {
        self.prefix_pos <= self.prefix@.len()
    }

    /// The bytes that were put back and have not been read again.
    pub closed spec fn pending(&self) -> Seq<u8> {
        self.prefix@.skip(self.prefix_pos as int)
    }

    /// The stream behind the bytes.
    pub closed spec fn source(&self) -> S {
        self.inner
    }

    /// Puts `prefix` in front of `inner`.
    pub fn new(inner: S, prefix: Vec<u8>) -> (r: Self)
        ensures
            r.wf(),
            r.pending() == prefix@,
            r.source() == inner,
    {
        let r = PrefixedStream { inner, prefix, prefix_pos: 0 };
        assert(r.pending() =~= prefix@);
        r
    }

    /// Drops the bytes that are still pending and gives the stream back.
    pub fn into_inner(self) -> (r: S)
        ensures
            r == self.source(),
    {
        self.inner
    }

    /// The stream itself.
    pub fn inner(&self) -> (r: &S)
        ensures
            *r == self.source(),
    {
        &self.inner
    }

    /// The stream itself, to write to, and to read from once nothing is pending.
    pub fn inner_mut(&mut self) -> (r: &mut S)
        ensures
            *r == old(self).source(),
            final(self).source() == *final(r),
            final(self).pending() == old(self).pending(),
            old(self).wf() ==> final(self).wf(),
    {
        &mut self.inner
    }

    /// Hands out at most `max` of the pending bytes, or nothing where none is pending and the
    /// read goes to the stream.
    pub fn read_prefix(&mut self, max: usize) -> (r: Option<Vec<u8>>)
        requires
            old(self).wf(),
        ensures
            final(self).wf(),
            final(self).source() == old(self).source(),
            match r {
                None => old(self).pending().len() == 0 && final(self).pending()
                    == old(self).pending(),
                Some(out) => {
                    &&& old(self).pending().len() > 0
                    &&& out@.len() == (if max < old(self).pending().len() {
                        max as int
                    } else {
                        old(self).pending().len() as int
                    })
                    &&& out@ + final(self).pending() == old(self).pending()
                },
            },
    {
        let have: usize = self.prefix.len() - self.prefix_pos;
        if have == 0 {
            return None;
        }
        let n: usize = if max < have {
            max
        } else {
            have
        };
        let out: Vec<u8> = copy(self.prefix.as_slice(), self.prefix_pos, self.prefix_pos + n);
        self.prefix_pos = self.prefix_pos + n;
        assert(out@ + self.pending() =~= old(self).pending());
        Some(out)
    }
}

/// A copy of the bytes from `a` up to `b`.
pub fn copy(s: &[u8], a: usize, b: usize) -> (r: Vec<u8>)
    requires
        a <= b <= s@.len(),
    ensures
        r@ == s@.subrange(a as int, b as int),
{
    let mut r: Vec<u8> = Vec::new();
    let mut i: usize = a;
    while i < b
        invariant
            a <= i <= b <= s@.len(),
            r@ == s@.subrange(a as int, i as int),
        decreases b - i,
    {
        r.push(s[i]);
        assert(r@ =~= s@.subrange(a as int, i as int + 1));
        i = i + 1;
    }
    r
}

/// Decodes UTF-8: `std::str::from_utf8` succeeds exactly on valid UTF-8, and then gives the text
/// that the bytes encode.
#[verifier::external_body]
fn utf8_text(bytes: &[u8]) -> (r: Option<String>)
    ensures
        match r {
            Some(t) => vstd::utf8::valid_utf8(bytes@) && t@ == vstd::utf8::decode_utf8(bytes@),
            None => !vstd::utf8::valid_utf8(bytes@),
        },
{
    std::str::from_utf8(bytes).ok().map(String::from)
}

/// The address that stands for an unknown one.
pub open spec fn unspecified() -> SocketAddr {
    SocketAddr { ip: IpAddr::V4(Ipv4Addr { bits: 0 }), port: 0 }
}

/// What a v1 line means.
pub open spec fn v1_line(line: Seq<char>) -> Result<ProxyHeader, ProxyError> {
    let w = text::words(line);
    if w.len() < 2 || w[0] != "PROXY"@ {
        Err(ProxyError::Malformed)
    } else if w[1] == "UNKNOWN"@ {
        Ok(ProxyHeader { src: unspecified(), dst: unspecified() })
    } else if w.len() < 6 {
        Err(ProxyError::Malformed)
    } else if addr::ip_text(w[2]) is None {
        Err(ProxyError::BadAddress)
    } else if text::decimal_number(w[4], 65535) is None {
        Err(ProxyError::BadPort)
    } else if addr::ip_text(w[3]) is None {
        Err(ProxyError::BadAddress)
    } else if text::decimal_number(w[5], 65535) is None {
        Err(ProxyError::BadPort)
    } else {
        Ok(
            ProxyHeader {
                src: SocketAddr {
                    ip: addr::ip_text(w[2])->0,
                    port: (text::decimal_number(w[4], 65535)->0) as u16,
                },
                dst: SocketAddr {
                    ip: addr::ip_text(w[3])->0,
                    port: (text::decimal_number(w[5], 65535)->0) as u16,
                },
            },
        )
    }
}

/// Reads a v1 line, without its line end.
pub fn parse_v1_line(line: &str) -> (r: Result<ProxyHeader, ProxyError>)
    ensures
        r == v1_line(line@),
{
    let line_chars: Vec<char> = text::chars(line);
    let w: Vec<Vec<char>> = text::split_words(line_chars.as_slice());
    let ghost q = text::words(line@);
    assert(q.len() == w@.len());
    assert(forall|i: int| 0 <= i < w@.len() ==> #[trigger] q[i] == w@[i]@);
    if w.len() < 2 || !text::same(w[0].as_slice(), text::chars("PROXY").as_slice()) {
        return Err(ProxyError::Malformed);
    }
    if text::same(w[1].as_slice(), text::chars("UNKNOWN").as_slice()) {
        let none: SocketAddr = SocketAddr::new(IpAddr::V4(Ipv4Addr { bits: 0 }), 0);
        return Ok(ProxyHeader { src: none, dst: none });
    }
    if w.len() < 6 {
        return Err(ProxyError::Malformed);
    }
    let src_ip: IpAddr = match addr::parse_ip(w[2].as_slice()) {
        Some(a) => a,
        None => return Err(ProxyError::BadAddress),
    };
    let src_port: u16 = match text::parse_decimal(w[4].as_slice(), 65535) {
        Some(p) => p as u16,
        None => return Err(ProxyError::BadPort),
    };
    let dst_ip: IpAddr = match addr::parse_ip(w[3].as_slice()) {
        Some(a) => a,
        None => return Err(ProxyError::BadAddress),
    };
    let dst_port: u16 = match text::parse_decimal(w[5].as_slice(), 65535) {
        Some(p) => p as u16,
        None => return Err(ProxyError::BadPort),
    };
    Ok(
        ProxyHeader {
            src: SocketAddr::new(src_ip, src_port),
            dst: SocketAddr::new(dst_ip, dst_port),
        },
    )
}

/// The number of two bytes, first byte highest.
pub open spec fn be16(s: Seq<u8>, i: int) -> int {
    s[i] * 256 + s[i + 1]
}

/// The IPv4 address in the four bytes from `i`.
pub open spec fn v4_at(s: Seq<u8>, i: int) -> IpAddr {
    IpAddr::V4(Ipv4Addr { bits: addr::octets_value(s[i], s[i + 1], s[i + 2], s[i + 3]) as u32 })
}

/// The IPv6 address in the sixteen bytes from `i`.
pub open spec fn v6_at(s: Seq<u8>, i: int) -> IpAddr {
    IpAddr::V6(
        Ipv6Addr {
            bits: addr::groups_value(Seq::new(8, |k: int| be16(s, i + 2 * k) as u16)) as u128,
        },
    )
}

/// What the fields of a v2 header mean: the command byte, the family byte and the address block.
pub open spec fn v2_fields(command: u8, family: u8, block: Seq<u8>) -> Result<
    ProxyHeader,
    ProxyError,
> {
    if command % 16 == 0 {
        Ok(ProxyHeader { src: unspecified(), dst: unspecified() })
    } else if family == 0x11 && block.len() >= 12 {
        Ok(
            ProxyHeader {
                src: SocketAddr { ip: v4_at(block, 0), port: be16(block, 8) as u16 },
                dst: SocketAddr { ip: v4_at(block, 4), port: be16(block, 10) as u16 },
            },
        )
    } else if family == 0x21 && block.len() >= 36 {
        Ok(
            ProxyHeader {
                src: SocketAddr { ip: v6_at(block, 0), port: be16(block, 32) as u16 },
                dst: SocketAddr { ip: v6_at(block, 16), port: be16(block, 34) as u16 },
            },
        )
    } else {
        Err(ProxyError::UnsupportedFamily(family))
    }
}

fn read_be16(s: &[u8], i: usize) -> (r: u16)
    requires
        i + 1 < s@.len(),
    ensures
        r == be16(s@, i as int),
{
    s[i] as u16 * 256 + s[i + 1] as u16
}

fn read_v4(s: &[u8], i: usize) -> (r: IpAddr)
    requires
        i + 3 < s@.len(),
    ensures
        r == v4_at(s@, i as int),
{
    IpAddr::V4(Ipv4Addr::new(s[i], s[i + 1], s[i + 2], s[i + 3]))
}

fn read_v6(s: &[u8], i: usize) -> (r: IpAddr)
    requires
        i + 15 < s@.len(),
    ensures
        r == v6_at(s@, i as int),
{
    let mut g: Vec<u16> = Vec::new();
    let mut k: usize = 0;
    let n: usize = s.len();
    while k < 8
        invariant
            n == s@.len(),
            i + 15 < n,
            k <= 8,
            g@ == Seq::new(k as nat, |k: int| be16(s@, i + 2 * k) as u16),
        decreases 8 - k,
    {
        g.push(read_be16(s, i + 2 * k));
        assert(g@ =~= Seq::new((k + 1) as nat, |k: int| be16(s@, i + 2 * k) as u16));
        k = k + 1;
    }
    IpAddr::V6(Ipv6Addr::from_groups(g.as_slice()))
}

/// Reads the fields of a v2 header.
pub fn parse_v2(command: u8, family: u8, block: &[u8]) -> (r: Result<ProxyHeader, ProxyError>)
    ensures
        r == v2_fields(command, family, block@),
{
    if command % 16 == 0 {
        let none: SocketAddr = SocketAddr::new(IpAddr::V4(Ipv4Addr { bits: 0 }), 0);
        return Ok(ProxyHeader { src: none, dst: none });
    }
    if family == 0x11 && block.len() >= 12 {
        return Ok(
            ProxyHeader {
                src: SocketAddr::new(read_v4(block, 0), read_be16(block, 8)),
                dst: SocketAddr::new(read_v4(block, 4), read_be16(block, 10)),
            },
        );
    }
    if family == 0x21 && block.len() >= 36 {
        return Ok(
            ProxyHeader {
                src: SocketAddr::new(read_v6(block, 0), read_be16(block, 32)),
                dst: SocketAddr::new(read_v6(block, 16), read_be16(block, 34)),
            },
        );
    }
    Err(ProxyError::UnsupportedFamily(family))
}

/// Whether a line end stands at position `i`.
pub open spec fn crlf_at(s: Seq<u8>, i: int) -> bool {
    0 <= i && i + 1 < s.len() && s[i] == 0x0D && s[i + 1] == 0x0A
}

/// The position of the first line end.
pub open spec fn first_crlf(s: Seq<u8>) -> Option<int>
    decreases s.len(),
{
    if s.len() < 2 {
        None
    } else if first_crlf(s.drop_last()) is Some {
        first_crlf(s.drop_last())
    } else if crlf_at(s, s.len() - 2) {
        Some(s.len() - 2)
    } else {
        None
    }
}

/// What `first_crlf` finds is the first line end.
pub proof fn lemma_first_crlf(s: Seq<u8>)
    ensures
        match first_crlf(s) {
            Some(p) => crlf_at(s, p) && forall|j: int| 0 <= j < p ==> !#[trigger] crlf_at(s, j),
            None => forall|j: int| !#[trigger] crlf_at(s, j),
        },
    decreases s.len(),
{
    if s.len() >= 2 {
        let t = s.drop_last();
        lemma_first_crlf(t);
        assert forall|j: int| 0 <= j < s.len() - 2 implies crlf_at(s, j) == crlf_at(t, j) by {}
    }
}

/// A first line end stays the first when more bytes follow.
proof fn lemma_first_crlf_extends(s: Seq<u8>, k: int)
    requires
        0 <= k <= s.len(),
    ensures
        first_crlf(s.take(k)) is Some ==> first_crlf(s) == first_crlf(s.take(k)),
        first_crlf(s) matches Some(p) ==> (p + 2 <= k ==> first_crlf(s.take(k)) == Some(p)),
{
    let t = s.take(k);
    lemma_first_crlf(s);
    lemma_first_crlf(t);
    assert forall|j: int| 0 <= j < k - 1 implies crlf_at(s, j) == crlf_at(t, j) by {}
    if let Some(p) = first_crlf(t) {
        assert(crlf_at(s, p));
        let q = first_crlf(s)->0;
        if q < p {
            assert(crlf_at(t, q));
        }
        if p < q {
            assert(crlf_at(s, p));
        }
    }
    if let Some(p) = first_crlf(s) {
        if p + 2 <= k {
            assert(crlf_at(t, p));
            let q = first_crlf(t)->0;
            if q < p {
                assert(crlf_at(s, q));
            }
        }
    }
}

fn find_crlf(s: &[u8]) -> (r: Option<usize>)
    ensures
        match first_crlf(s@) {
            Some(p) => r == Some(p as usize) && 0 <= p && p + 2 <= s@.len(),
            None => r is None,
        },
{
    proof {
        lemma_first_crlf(s@);
    }
    let n: usize = s.len();
    let mut i: usize = 0;
    while i < n && n - i >= 2
        invariant
            n == s@.len(),
            i <= n,
            match first_crlf(s@) {
                Some(p) => crlf_at(s@, p) && forall|j: int|
                    0 <= j < p ==> !#[trigger] crlf_at(s@, j),
                None => forall|j: int| !#[trigger] crlf_at(s@, j),
            },
            forall|j: int| 0 <= j < i ==> !#[trigger] crlf_at(s@, j),
        decreases n - i,
    {
        if s[i] == 0x0D && s[i + 1] == 0x0A {
            assert(crlf_at(s@, i as int));
            return Some(i);
        }
        i = i + 1;
    }
    None
}

/// What the bytes in front of the line end of a v1 header mean.
pub open spec fn v1_bytes(line: Seq<u8>) -> Result<ProxyHeader, ProxyError> {
    if vstd::utf8::valid_utf8(line) {
        v1_line(vstd::utf8::decode_utf8(line))
    } else {
        Err(ProxyError::InvalidUtf8)
    }
}

/// What a whole stream carries.
pub enum Carried {
    /// No header: every byte is traffic.
    Plain,
    /// A header in the first `used` bytes.
    Header { header: ProxyHeader, used: int },
    /// A header that is refused.
    Refused(ProxyError),
}

/// A header that was read, or the reason why it was refused.
pub open spec fn carried(r: Result<ProxyHeader, ProxyError>, used: int) -> Carried {
    match r {
        Ok(header) => Carried::Header { header, used },
        Err(e) => Carried::Refused(e),
    }
}

/// Whether a stream opens as v1.
pub open spec fn opens_v1(s: Seq<u8>) -> bool {
    V1_TAG@.is_prefix_of(s)
}

/// Whether a stream opens as v2.
pub open spec fn opens_v2(s: Seq<u8>) -> bool {
    V2_SIG@.is_prefix_of(s)
}

/// What a whole stream carries, from its first byte to its end.
pub open spec fn stream_header(s: Seq<u8>) -> Carried {
    if opens_v1(s) {
        match first_crlf(s) {
            Some(p) if p + 2 <= V1_LIMIT + 1 => carried(v1_bytes(s.take(p)), p + 2),
            _ => if s.len() > V1_LIMIT {
                Carried::Refused(ProxyError::TooLong)
            } else {
                Carried::Refused(ProxyError::EofV1)
            },
        }
    } else if opens_v2(s) {
        if s.len() < 16 || s.len() < 16 + be16(s, 14) {
            Carried::Refused(ProxyError::EofV2)
        } else {
            carried(
                v2_fields(s[12], s[13], s.subrange(16, 16 + be16(s, 14))),
                16 + be16(s, 14),
            )
        }
    } else {
        Carried::Plain
    }
}

/// What to do with the bytes so far; `eof` tells that no more will come.
pub open spec fn step(s: Seq<u8>, eof: bool) -> Step {
    if opens_v1(s) {
        match first_crlf(s) {
            Some(p) => match v1_bytes(s.take(p)) {
                Ok(header) => Step::Header { header, used: (p + 2) as usize },
                Err(e) => Step::Fail(e),
            },
            None => if s.len() > V1_LIMIT {
                Step::Fail(ProxyError::TooLong)
            } else if eof {
                Step::Fail(ProxyError::EofV1)
            } else {
                Step::Read(1)
            },
        }
    } else if opens_v2(s) {
        let need = if s.len() < 16 {
            16
        } else {
            16 + be16(s, 14)
        };
        if s.len() < need {
            if eof {
                Step::Fail(ProxyError::EofV2)
            } else {
                Step::Read((need - s.len()) as usize)
            }
        } else {
            match v2_fields(s[12], s[13], s.subrange(16, need)) {
                Ok(header) => Step::Header { header, used: need as usize },
                Err(e) => Step::Fail(e),
            }
        }
    } else if !eof && s.len() < 12 {
        Step::Read((PEEK - s.len()) as usize)
    } else {
        Step::Plain
    }
}

fn same_start(s: &[u8], tag: &[u8]) -> (r: bool)
    ensures
        r == tag@.is_prefix_of(s@),
{
    if s.len() < tag.len() {
        return false;
    }
    let mut i: usize = 0;
    while i < tag.len()
        invariant
            tag@.len() <= s@.len(),
            i <= tag@.len(),
            forall|j: int| 0 <= j < i ==> s@[j] == tag@[j],
        decreases tag@.len() - i,
    {
        if s[i] != tag[i] {
            return false;
        }
        i = i + 1;
    }
    assert(s@.subrange(0, tag@.len() as int) =~= tag@);
    true
}

/// Decides what to do with the bytes that have arrived so far.
pub fn next_step(buf: &[u8], eof: bool) -> (r: Step)
    ensures
        r == step(buf@, eof),
{
    let n: usize = buf.len();
    if same_start(buf, V1_TAG.as_slice()) {
        return match find_crlf(buf) {
            Some(p) => {
                let line: &[u8] = slice_subrange(buf, 0, p);
                assert(line@ =~= buf@.take(p as int));
                match utf8_text(line) {
                    Some(t) => match parse_v1_line(t.as_str()) {
                        Ok(header) => Step::Header { header, used: p + 2 },
                        Err(e) => Step::Fail(e),
                    },
                    None => Step::Fail(ProxyError::InvalidUtf8),
                }
            },
            None => if n > V1_LIMIT {
                Step::Fail(ProxyError::TooLong)
            } else if eof {
                Step::Fail(ProxyError::EofV1)
            } else {
                Step::Read(1)
            },
        };
    }
    if same_start(buf, V2_SIG.as_slice()) {
        let need: usize = if n < 16 {
            16
        } else {
            16 + read_be16(buf, 14) as usize
        };
        if n < need {
            if eof {
                return Step::Fail(ProxyError::EofV2);
            }
            return Step::Read(need - n);
        }
        return match parse_v2(buf[12], buf[13], slice_subrange(buf, 16, need)) {
            Ok(header) => Step::Header { header, used: need },
            Err(e) => Step::Fail(e),
        };
    }
    if !eof && n < 12 {
        return Step::Read(PEEK - n);
    }
    Step::Plain
}

/// Whoever obeys [`next_step`] reads no more of a v1 stream than its longest line.
pub open spec fn within_limit(s: Seq<u8>, k: int) -> bool {
    0 <= k <= s.len() && (opens_v1(s) ==> k <= V1_LIMIT + 1)
}

/// However a stream `s` is cut into reads, the step after its first `k` bytes is the right one:
/// what it reports is what the whole stream carries, a request for more asks for at least one
/// byte and keeps within the limit, and no read goes past both the peeked bytes and the header.
pub proof fn law_step_agrees_with_stream(s: Seq<u8>, k: int, eof: bool)
    requires
        within_limit(s, k),
        eof ==> k == s.len(),
    ensures
        match step(s.take(k), eof) {
            Step::Read(n) => {
                &&& !eof
                &&& n > 0
                &&& opens_v1(s) ==> k + n <= V1_LIMIT + 1
                &&& stream_header(s) matches Carried::Header { header, used } ==> k + n <= used
                    || k + n <= PEEK
            },
            Step::Plain => stream_header(s) == Carried::Plain,
            Step::Header { header, used } => stream_header(s) == (Carried::Header {
                header,
                used: used as int,
            }) && used <= k,
            Step::Fail(e) => stream_header(s) == Carried::Refused(e),
        },
{
    let t = s.take(k);
    assert(eof ==> t =~= s);
    assert(opens_v1(t) ==> opens_v1(s)) by {
        if opens_v1(t) {
            assert(s.subrange(0, 6) =~= t.subrange(0, 6));
        }
    }
    assert(opens_v2(t) ==> opens_v2(s)) by {
        if opens_v2(t) {
            assert(s.subrange(0, 12) =~= t.subrange(0, 12));
        }
    }
    assert(k >= 6 && opens_v1(s) ==> opens_v1(t)) by {
        if k >= 6 && opens_v1(s) {
            assert(s.subrange(0, 6) =~= t.subrange(0, 6));
        }
    }
    assert(k >= 12 && opens_v2(s) ==> opens_v2(t)) by {
        if k >= 12 && opens_v2(s) {
            assert(s.subrange(0, 12) =~= t.subrange(0, 12));
        }
    }
    assert(!(opens_v1(s) && opens_v2(s))) by {
        if opens_v1(s) && opens_v2(s) {
            assert(s[0] == s.subrange(0, 6)[0]);
            assert(s[0] == s.subrange(0, 12)[0]);
            assert(V1_TAG@[0] == 0x50);
            assert(V2_SIG@[0] == 0x0D);
        }
    }
    if opens_v1(t) {
        lemma_first_crlf_extends(s, k);
        lemma_first_crlf(s);
        lemma_first_crlf(t);
        if let Some(p) = first_crlf(t) {
            assert(crlf_at(t, p));
            assert(t.take(p) =~= s.take(p));
        }
    } else if opens_v2(t) {
        if k >= 16 {
            assert(be16(t, 14) == be16(s, 14));
            if k >= 16 + be16(s, 14) {
                assert(t.subrange(16, 16 + be16(s, 14)) =~= s.subrange(16, 16 + be16(s, 14)));
            }
        }
    }
}

/// Whether a step is final and reports what the whole stream carries.
pub open spec fn settles(s: Seq<u8>, k: int, st: Step) -> bool {
    match st {
        Step::Read(n) => false,
        Step::Plain => stream_header(s) == Carried::Plain,
        Step::Header { header, used } => stream_header(s) == (Carried::Header {
            header,
            used: used as int,
        }) && used <= k,
        Step::Fail(e) => stream_header(s) == Carried::Refused(e),
    }
}

/// One look at the first `k` bytes: the step to take, and how far to read on.
fn look(input: &[u8], k: usize) -> (r: (Step, usize))
    requires
        within_limit(input@, k as int),
    ensures
        within_limit(input@, r.1 as int),
        r.0 is Read ==> r.1 > k,
        r.0 !is Read ==> r.1 == k && settles(input@, k as int, r.0),
{
    let n: usize = input.len();
    let buf: &[u8] = slice_subrange(input, 0, k);
    assert(buf@ =~= input@.take(k as int));
    proof {
        law_step_agrees_with_stream(input@, k as int, false);
    }
    match next_step(buf, false) {
        Step::Read(want) => {
            if k < n {
                let to: usize = if want < n - k {
                    k + want
                } else {
                    n
                };
                (Step::Read(want), to)
            } else {
                proof {
                    law_step_agrees_with_stream(input@, k as int, true);
                }
                (next_step(buf, true), k)
            }
        },
        other => (other, k),
    }
}

/// Reads the header in front of an in-memory stream, if it carries one.
///
/// Traffic that carries none comes back whole; after a header, the rest comes back whole.
pub fn maybe_read_proxy_header(input: Vec<u8>) -> (r: Result<
    (Option<ProxyHeader>, PrefixedStream<Vec<u8>>),
    ProxyError,
>)
    ensures
        match stream_header(input@) {
            Carried::Plain => r matches Ok((None, st)) && st.wf() && st.pending() + st.source()@
                == input@,
            Carried::Header { header, used } => r matches Ok((Some(h), st)) && h == header
                && st.wf() && st.pending() + st.source()@ == input@.skip(used),
            Carried::Refused(e) => r matches Err(x) && x == e,
        },
{
    let n: usize = input.len();
    let mut k: usize = 0;
    let mut seen: (Step, usize) = look(input.as_slice(), k);
    while matches!(seen.0, Step::Read(_))
        invariant
            n == input@.len(),
            within_limit(input@, k as int),
            within_limit(input@, seen.1 as int),
            seen.0 is Read ==> seen.1 > k,
            seen.0 !is Read ==> seen.1 == k && settles(input@, k as int, seen.0),
        decreases n - k,
    {
        k = seen.1;
        seen = look(input.as_slice(), k);
    }
    let rest: Vec<u8> = copy(input.as_slice(), k, n);
    match seen.0 {
        Step::Header { header, used } => {
            let left: Vec<u8> = copy(input.as_slice(), used, k);
            assert(left@ + rest@ =~= input@.skip(used as int));
            Ok((Some(header), PrefixedStream::new(rest, left)))
        },
        Step::Fail(e) => Err(e),
        _ => {
            let left: Vec<u8> = copy(input.as_slice(), 0, k);
            assert(left@ + rest@ =~= input@);
            Ok((None, PrefixedStream::new(rest, left)))
        },
    }
}

/// The bytes of a number, first byte highest.
pub open spec fn be_bytes(n: nat, len: nat) -> Seq<u8>
    decreases len,
{
    if len == 0 {
        Seq::empty()
    } else {
        be_bytes(n / 256, (len - 1) as nat).push((n % 256) as u8)
    }
}

proof fn lemma_be_len(n: nat, len: nat)
    ensures
        be_bytes(n, len).len() == len,
    decreases len,
{
    if len > 0 {
        lemma_be_len(n / 256, (len - 1) as nat);
    }
}

proof fn lemma_be2(p: u16, s: Seq<u8>, i: int)
    requires
        0 <= i && i + 2 <= s.len(),
        s.subrange(i, i + 2) == be_bytes(p as nat, 2),
    ensures
        be16(s, i) == p,
{
    let t = be_bytes(p as nat, 2);
    reveal_with_fuel(be_bytes, 3);
    assert(t[0] == s[i] && t[1] == s[i + 1]);
    assert((p as nat / 256) % 256 == p as nat / 256);
}

proof fn lemma_be4(n: u32, s: Seq<u8>, i: int)
    requires
        0 <= i && i + 4 <= s.len(),
        s.subrange(i, i + 4) == be_bytes(n as nat, 4),
    ensures
        v4_at(s, i) == IpAddr::V4(Ipv4Addr { bits: n }),
{
    let t = be_bytes(n as nat, 4);
    reveal_with_fuel(be_bytes, 5);
    assert(t[0] == s[i] && t[1] == s[i + 1] && t[2] == s[i + 2] && t[3] == s[i + 3]);
    let q = n as nat / 256;
    let r = q / 256;
    let u = r / 256;
    assert(u % 256 == u);
}

/// The eight groups of a number, first group highest.
spec fn be_groups(n: nat, len: nat) -> Seq<u16>
    decreases len,
{
    if len == 0 {
        Seq::empty()
    } else {
        be_groups(n / 0x1_0000, (len - 1) as nat).push((n % 0x1_0000) as u16)
    }
}

proof fn lemma_groups_of_bytes(n: nat, len: nat)
    ensures
        be_bytes(n, 2 * len).len() == 2 * len,
        be_groups(n, len).len() == len,
        forall|k: int|
            0 <= k < len ==> #[trigger] be_groups(n, len)[k] == be16(be_bytes(n, 2 * len), 2 * k),
    decreases len,
{
    if len > 0 {
        let m = (len - 1) as nat;
        let q = n / 0x1_0000;
        lemma_groups_of_bytes(q, m);
        assert(n / 256 / 256 == q);
        let t = be_bytes(n, 2 * len);
        assert(t == be_bytes(n / 256, (2 * len - 1) as nat).push((n % 256) as u8));
        assert(be_bytes(n / 256, (2 * len - 1) as nat) == be_bytes(q, 2 * m).push(
            (n / 256 % 256) as u8,
        ));
        assert(n % 0x1_0000 == (n / 256 % 256) * 256 + n % 256);
        assert forall|k: int| 0 <= k < len implies #[trigger] be_groups(n, len)[k] == be16(
            t,
            2 * k,
        ) by {
            if k < m {
                assert(be_groups(q, m)[k] == be16(be_bytes(q, 2 * m), 2 * k));
                assert(t[2 * k] == be_bytes(q, 2 * m)[2 * k]);
                assert(t[2 * k + 1] == be_bytes(q, 2 * m)[2 * k + 1]);
            } else {
                assert(t[2 * k] == (n / 256 % 256) as u8 && t[2 * k + 1] == (n % 256) as u8);
            }
        }
    }
}

proof fn lemma_groups_make_number(n: u128)
    ensures
        addr::groups_value(be_groups(n as nat, 8)) == n,
{
    let q1 = n as nat / 0x1_0000;
    let q2 = q1 / 0x1_0000;
    let q3 = q2 / 0x1_0000;
    let q4 = q3 / 0x1_0000;
    let q5 = q4 / 0x1_0000;
    let q6 = q5 / 0x1_0000;
    let q7 = q6 / 0x1_0000;
    assert(q7 < 0x1_0000);
    let g1 = be_groups(q7, 1);
    let g2 = be_groups(q6, 2);
    let g3 = be_groups(q5, 3);
    let g4 = be_groups(q4, 4);
    let g5 = be_groups(q3, 5);
    let g6 = be_groups(q2, 6);
    let g7 = be_groups(q1, 7);
    let g8 = be_groups(n as nat, 8);
    lemma_groups_of_bytes(q7, 1);
    lemma_groups_of_bytes(q6, 2);
    lemma_groups_of_bytes(q5, 3);
    lemma_groups_of_bytes(q4, 4);
    lemma_groups_of_bytes(q3, 5);
    lemma_groups_of_bytes(q2, 6);
    lemma_groups_of_bytes(q1, 7);
    lemma_groups_of_bytes(n as nat, 8);
    assert(g1 == be_groups(q7 / 0x1_0000, 0).push((q7 % 0x1_0000) as u16));
    assert(be_groups(q7 / 0x1_0000, 0).len() == 0);
    assert(g8[0] == q7);
    assert(g8[1] == q6 % 0x1_0000);
    assert(g8[2] == q5 % 0x1_0000);
    assert(g8[3] == q4 % 0x1_0000);
    assert(g8[4] == q3 % 0x1_0000);
    assert(g8[5] == q2 % 0x1_0000);
    assert(g8[6] == q1 % 0x1_0000);
    assert(g8[7] == n as nat % 0x1_0000);
}

proof fn lemma_be16_bytes(n: u128, s: Seq<u8>, i: int)
    requires
        0 <= i && i + 16 <= s.len(),
        s.subrange(i, i + 16) == be_bytes(n as nat, 16),
    ensures
        v6_at(s, i) == IpAddr::V6(Ipv6Addr { bits: n }),
{
    let t = be_bytes(n as nat, 16);
    lemma_groups_of_bytes(n as nat, 8);
    lemma_groups_make_number(n);
    let g = Seq::new(8, |k: int| be16(s, i + 2 * k) as u16);
    assert forall|k: int| 0 <= k < 8 implies g[k] == be_groups(n as nat, 8)[k] by {
        assert(t[2 * k] == s[i + 2 * k] && t[2 * k + 1] == s[i + 2 * k + 1]);
        assert(be_groups(n as nat, 8)[k] == be16(t, 2 * k));
    }
    assert(g =~= be_groups(n as nat, 8));
}

/// Two IPv6 addresses and two ports come back from the block that they are written in, in network
/// order, whatever follows them.
pub proof fn law_v2_over_ipv6(command: u8, a: u128, b: u128, p: u16, q: u16, rest: Seq<u8>)
    requires
        command % 16 != 0,
    ensures
        v2_fields(
            command,
            0x21,
            be_bytes(a as nat, 16) + be_bytes(b as nat, 16) + be_bytes(p as nat, 2) + be_bytes(
                q as nat,
                2,
            ) + rest,
        ) == Ok::<ProxyHeader, ProxyError>(
            ProxyHeader {
                src: SocketAddr { ip: IpAddr::V6(Ipv6Addr { bits: a }), port: p },
                dst: SocketAddr { ip: IpAddr::V6(Ipv6Addr { bits: b }), port: q },
            },
        ),
{
    let s = be_bytes(a as nat, 16) + be_bytes(b as nat, 16) + be_bytes(p as nat, 2) + be_bytes(
        q as nat,
        2,
    ) + rest;
    lemma_be_len(a as nat, 16);
    lemma_be_len(b as nat, 16);
    lemma_be_len(p as nat, 2);
    lemma_be_len(q as nat, 2);
    assert(s.subrange(0, 16) =~= be_bytes(a as nat, 16));
    assert(s.subrange(16, 32) =~= be_bytes(b as nat, 16));
    assert(s.subrange(32, 34) =~= be_bytes(p as nat, 2));
    assert(s.subrange(34, 36) =~= be_bytes(q as nat, 2));
    lemma_be16_bytes(a, s, 0);
    lemma_be16_bytes(b, s, 16);
    lemma_be2(p, s, 32);
    lemma_be2(q, s, 34);
}

/// Two IPv4 addresses and two ports come back from the block that they are written in, in network
/// order, whatever follows them.
pub proof fn law_v2_over_ipv4(command: u8, a: u32, b: u32, p: u16, q: u16, rest: Seq<u8>)
    requires
        command % 16 != 0,
    ensures
        v2_fields(
            command,
            0x11,
            be_bytes(a as nat, 4) + be_bytes(b as nat, 4) + be_bytes(p as nat, 2) + be_bytes(
                q as nat,
                2,
            ) + rest,
        ) == Ok::<ProxyHeader, ProxyError>(
            ProxyHeader {
                src: SocketAddr { ip: IpAddr::V4(Ipv4Addr { bits: a }), port: p },
                dst: SocketAddr { ip: IpAddr::V4(Ipv4Addr { bits: b }), port: q },
            },
        ),
{
    let s = be_bytes(a as nat, 4) + be_bytes(b as nat, 4) + be_bytes(p as nat, 2) + be_bytes(
        q as nat,
        2,
    ) + rest;
    lemma_be_len(a as nat, 4);
    lemma_be_len(b as nat, 4);
    lemma_be_len(p as nat, 2);
    lemma_be_len(q as nat, 2);
    assert(s.subrange(0, 4) =~= be_bytes(a as nat, 4));
    assert(s.subrange(4, 8) =~= be_bytes(b as nat, 4));
    assert(s.subrange(8, 10) =~= be_bytes(p as nat, 2));
    assert(s.subrange(10, 12) =~= be_bytes(q as nat, 2));
    lemma_be4(a, s, 0);
    lemma_be4(b, s, 4);
    lemma_be2(p, s, 8);
    lemma_be2(q, s, 10);
}

/// A connection that the proxy made for itself (the command in the low half of the byte is zero)
/// has no client: the addresses are the unspecified one, whatever the block holds. With any other
/// command only the two families are read, and only from blocks that hold their addresses.
pub proof fn law_v2_other_blocks(command: u8, family: u8, block: Seq<u8>)
    ensures
        command % 16 == 0 ==> v2_fields(command, family, block) == Ok::<ProxyHeader, ProxyError>(
            ProxyHeader {
                src: SocketAddr { ip: IpAddr::V4(Ipv4Addr { bits: 0 }), port: 0 },
                dst: SocketAddr { ip: IpAddr::V4(Ipv4Addr { bits: 0 }), port: 0 },
            },
        ),
        command % 16 != 0 && (family != 0x11 && family != 0x21 || family == 0x11 && block.len() < 12
            || family == 0x21 && block.len() < 36) ==> v2_fields(command, family, block) == Err::<
            ProxyHeader,
            ProxyError,
        >(ProxyError::UnsupportedFamily(family)),
{
}

/// A v2 header: its signature, the command and the family, the length of the block in network
/// order, and the block.
pub open spec fn v2_header(command: u8, family: u8, block: Seq<u8>) -> Seq<u8> {
    seq![13u8, 10, 13, 10, 0, 13, 10, 81, 85, 73, 84, 10] + seq![command, family] + be_bytes(
        block.len(),
        2,
    ) + block
}

proof fn lemma_v2_header(command: u8, family: u8, block: Seq<u8>)
    ensures
        ({
            let h = v2_header(command, family, block);
            &&& h.len() == 16 + block.len()
            &&& h.take(12) == V2_SIG@
            &&& h[12] == command
            &&& h[13] == family
            &&& h.subrange(14, 16) == be_bytes(block.len(), 2)
            &&& h.skip(16) == block
        }),
{
    let h = v2_header(command, family, block);
    lemma_be_len(block.len(), 2);
    assert(V2_SIG@ =~= seq![13u8, 10, 13, 10, 0, 13, 10, 81, 85, 73, 84, 10]);
    assert(h.take(12) =~= V2_SIG@);
    assert(h.subrange(14, 16) =~= be_bytes(block.len(), 2));
    assert(h.skip(16) =~= block);
}

proof fn lemma_opens_v2(s: Seq<u8>)
    requires
        s.len() >= 12,
        s.take(12) == V2_SIG@,
    ensures
        opens_v2(s),
        !opens_v1(s),
{
    assert(s.subrange(0, 12) =~= s.take(12));
    assert(s[0] == s.take(12)[0]);
    assert(V2_SIG@[0] == 13);
    if opens_v1(s) {
        assert(s.subrange(0, 6)[0] == V1_TAG@[0]);
    }
}

/// A v2 header is found at the beginning of a stream, and the traffic behind it is not touched.
pub proof fn law_v2_is_found(command: u8, family: u8, block: Seq<u8>, rest: Seq<u8>)
    requires
        block.len() <= 65535,
    ensures
        stream_header(v2_header(command, family, block) + rest) == (match v2_fields(
            command,
            family,
            block,
        ) {
            Ok(header) => Carried::Header { header, used: 16 + block.len() as int },
            Err(e) => Carried::Refused(e),
        }),
{
    let h = v2_header(command, family, block);
    let s = h + rest;
    let n = block.len();
    lemma_v2_header(command, family, block);
    assert(s.take(12) =~= h.take(12));
    lemma_opens_v2(s);
    assert(s.subrange(14, 16) =~= h.subrange(14, 16));
    lemma_be2(n as u16, s, 14);
    assert(s.subrange(16, 16 + n as int) =~= h.skip(16));
    assert(s[12] == h[12] && s[13] == h[13]);
}

/// A v2 header that is cut short behind its signature is refused.
pub proof fn law_v2_cut_short(command: u8, family: u8, block: Seq<u8>, k: int)
    requires
        block.len() <= 65535,
        12 <= k < v2_header(command, family, block).len(),
    ensures
        stream_header(v2_header(command, family, block).take(k)) == Carried::Refused(
            ProxyError::EofV2,
        ),
{
    let h = v2_header(command, family, block);
    let t = h.take(k);
    lemma_v2_header(command, family, block);
    assert(t.take(12) =~= h.take(12));
    lemma_opens_v2(t);
    if k >= 16 {
        assert(t.subrange(14, 16) =~= h.subrange(14, 16));
        lemma_be2(block.len() as u16, t, 14);
    }
}

/// Traffic that opens with neither signature is no header, and all of it is traffic.
pub proof fn law_other_traffic(s: Seq<u8>)
    requires
        !(s.len() >= 6 && s.take(6) == seq![80u8, 82, 79, 88, 89, 32]),
        !(s.len() >= 12 && s.take(12) == seq![13u8, 10, 13, 10, 0, 13, 10, 81, 85, 73, 84, 10]),
    ensures
        stream_header(s) == Carried::Plain,
{
    assert(V1_TAG@ =~= seq![80u8, 82, 79, 88, 89, 32]);
    assert(V2_SIG@ =~= seq![13u8, 10, 13, 10, 0, 13, 10, 81, 85, 73, 84, 10]);
    if opens_v1(s) {
        assert(s.take(6) =~= s.subrange(0, 6));
    }
    if opens_v2(s) {
        assert(s.take(12) =~= s.subrange(0, 12));
    }
}

/// A v1 header is found at the beginning of a stream: the line up to the first line end, which
/// comes within the first 109 bytes; the traffic behind it is not touched. A stream without such a
/// line end is refused.
pub proof fn law_v1_is_found(line: Seq<u8>, rest: Seq<u8>)
    requires
        line.len() >= 6,
        line.take(6) == seq![80u8, 82, 79, 88, 89, 32],
        !line.contains(13),
    ensures
        line.len() <= 107 ==> stream_header(line + seq![13u8, 10] + rest) == (match v1_bytes(line) {
            Ok(header) => Carried::Header { header, used: line.len() as int + 2 },
            Err(e) => Carried::Refused(e),
        }),
        line.len() > 107 ==> stream_header(line + seq![13u8, 10] + rest) == Carried::Refused(
            ProxyError::TooLong,
        ),
        line.len() <= 108 ==> stream_header(line) == Carried::Refused(ProxyError::EofV1),
        line.len() > 108 ==> stream_header(line) == Carried::Refused(ProxyError::TooLong),
{
    let s = line + seq![13u8, 10] + rest;
    let n = line.len() as int;
    assert(V1_TAG@ =~= seq![80u8, 82, 79, 88, 89, 32]);
    assert(line.subrange(0, 6) =~= line.take(6));
    assert(s.subrange(0, 6) =~= line.take(6));
    lemma_first_crlf(s);
    lemma_first_crlf(line);
    assert(forall|j: int| 0 <= j < n ==> line.contains(#[trigger] line[j]));
    assert(crlf_at(s, n));
    assert forall|j: int| 0 <= j < n implies !#[trigger] crlf_at(s, j) by {
        assert(s[j] == line[j]);
    }
    assert forall|j: int| !#[trigger] crlf_at(line, j) by {
        if crlf_at(line, j) {
            assert(line.contains(line[j]));
        }
    }
    assert(first_crlf(s) == Some(n));
    assert(s.take(n) =~= line);
}

/// The bytes of a v1 line are read as UTF-8.
pub proof fn law_v1_is_utf8(line: Seq<char>, bytes: Seq<u8>)
    ensures
        v1_bytes(vstd::utf8::encode_utf8(line)) == v1_line(line),
        !vstd::utf8::valid_utf8(bytes) ==> v1_bytes(bytes) == Err::<ProxyHeader, ProxyError>(
            ProxyError::InvalidUtf8,
        ),
{
    vstd::utf8::encode_utf8_valid_utf8(line);
    vstd::utf8::encode_utf8_decode_utf8(line);
}

/// A text without white space is one word.
proof fn lemma_one_word(s: Seq<char>)
    requires
        s.len() > 0,
        forall|i: int| 0 <= i < s.len() ==> !text::is_space(#[trigger] s[i]),
    ensures
        text::words(s) == seq![s],
{
    text::law_words(s, Seq::empty(), Seq::empty());
}

proof fn lemma_next_word(ws: Seq<Seq<char>>, s: Seq<char>, w: Seq<char>)
    requires
        text::words(s) == ws,
        w.len() > 0,
        forall|i: int| 0 <= i < w.len() ==> !text::is_space(#[trigger] w[i]),
    ensures
        text::words(s + " "@ + w) == ws.push(w),
{
    reveal_strlit(" ");
    lemma_one_word(w);
    text::law_words(s, " "@, w);
    assert(ws + seq![w] =~= ws.push(w));
}

/// Whether a text can stand as a word.
pub open spec fn is_word(s: Seq<char>) -> bool {
    s.len() > 0 && forall|i: int| 0 <= i < s.len() ==> !text::is_space(#[trigger] s[i])
}

/// A v1 line means what it says: its third and fifth words are the source, its fourth and sixth the
/// destination, whatever the second one names (but an unknown protocol, which has no addresses).
#[verifier::rlimit(60)]
pub proof fn law_v1_line(
    protocol: Seq<char>,
    a: Seq<char>,
    b: Seq<char>,
    p: u16,
    q: u16,
    x: IpAddr,
    y: IpAddr,
)
    requires
        is_word(protocol),
        addr::ip_text(a) == Some(x),
        addr::ip_text(b) == Some(y),
    ensures
        v1_line(
            "PROXY"@ + " "@ + protocol + " "@ + a + " "@ + b + " "@ + text::decimal(p as nat) + " "@
                + text::decimal(q as nat),
        ) == Ok::<ProxyHeader, ProxyError>(
            if protocol == "UNKNOWN"@ {
                ProxyHeader {
                    src: SocketAddr { ip: IpAddr::V4(Ipv4Addr { bits: 0 }), port: 0 },
                    dst: SocketAddr { ip: IpAddr::V4(Ipv4Addr { bits: 0 }), port: 0 },
                }
            } else {
                ProxyHeader {
                    src: SocketAddr { ip: x, port: p },
                    dst: SocketAddr { ip: y, port: q },
                }
            },
        ),
{
    let pt = text::decimal(p as nat);
    let qt = text::decimal(q as nat);
    let line = "PROXY"@ + " "@ + protocol + " "@ + a + " "@ + b + " "@ + pt + " "@ + qt;
    assert(text::words(line) == seq!["PROXY"@, protocol, a, b, pt, qt]) by {
        lemma_port_word(p);
        lemma_port_word(q);
        lemma_address_word(a);
        lemma_address_word(b);
        lemma_v1_words(protocol, a, b, pt, qt);
    }
    let w = text::words(line);
    assert(w.len() == 6 && w[0] == "PROXY"@ && w[1] == protocol && w[2] == a && w[3] == b && w[4]
        == pt && w[5] == qt);
    assert(text::decimal_number(pt, 65535) == Some(p as nat)) by {
        lemma_port_word(p);
    }
    assert(text::decimal_number(qt, 65535) == Some(q as nat)) by {
        lemma_port_word(q);
    }
}

proof fn lemma_v1_words(
    protocol: Seq<char>,
    a: Seq<char>,
    b: Seq<char>,
    pt: Seq<char>,
    qt: Seq<char>,
)
    requires
        is_word(protocol),
        is_word(a),
        is_word(b),
        is_word(pt),
        is_word(qt),
    ensures
        text::words(
            "PROXY"@ + " "@ + protocol + " "@ + a + " "@ + b + " "@ + pt + " "@ + qt,
        ) == seq!["PROXY"@, protocol, a, b, pt, qt],
{
    reveal_strlit("PROXY");
    let s1 = "PROXY"@;
    lemma_one_word(s1);
    let w1 = seq![s1];
    let s2 = s1 + " "@ + protocol;
    lemma_next_word(w1, s1, protocol);
    let w2 = w1.push(protocol);
    let s3 = s2 + " "@ + a;
    lemma_next_word(w2, s2, a);
    let w3 = w2.push(a);
    let s4 = s3 + " "@ + b;
    lemma_next_word(w3, s3, b);
    let w4 = w3.push(b);
    let s5 = s4 + " "@ + pt;
    lemma_next_word(w4, s4, pt);
    let w5 = w4.push(pt);
    lemma_next_word(w5, s5, qt);
    assert(w5.push(qt) =~= seq!["PROXY"@, protocol, a, b, pt, qt]);
}

proof fn lemma_port_word(p: u16)
    ensures
        is_word(text::decimal(p as nat)),
        text::decimal_number(text::decimal(p as nat), 65535) == Some(p as nat),
{
    let s = text::decimal(p as nat);
    text::law_decimal_round_trip(p as nat, 65535);
    text::law_decimal_is_a_number(s, 65535);
    assert forall|i: int| 0 <= i < s.len() implies !text::is_space(#[trigger] s[i]) by {
        assert('0' <= s[i] <= '9' || (i == 0 && s[0] == '+'));
    }
}

/// A line of another kind is refused: one that does not begin with the word `PROXY`, or has less
/// than two words; and one of a known protocol that has less than six, or whose words for an
/// address or a port are none.
pub proof fn law_v1_refusals(line: Seq<char>)
    ensures
        ({
            let w = text::words(line);
            &&& (w.len() < 2 || w[0] != "PROXY"@) ==> v1_line(line) == Err::<
                ProxyHeader,
                ProxyError,
            >(ProxyError::Malformed)
            &&& w.len() < 6 && !(w.len() >= 2 && w[0] == "PROXY"@ && w[1] == "UNKNOWN"@)
                ==> v1_line(line) == Err::<ProxyHeader, ProxyError>(ProxyError::Malformed)
            &&& w.len() >= 6 && w[0] == "PROXY"@ && w[1] != "UNKNOWN"@ ==> {
                let source = addr::ip_text(w[2]) is Some;
                let source_port = text::decimal_number(w[4], 65535) is Some;
                let target = addr::ip_text(w[3]) is Some;
                let target_port = text::decimal_number(w[5], 65535) is Some;
                let address = Err::<ProxyHeader, ProxyError>(ProxyError::BadAddress);
                let port = Err::<ProxyHeader, ProxyError>(ProxyError::BadPort);
                &&& !source ==> v1_line(line) == address
                &&& source && !source_port ==> v1_line(line) == port
                &&& source && source_port && !target ==> v1_line(line) == address
                &&& source && source_port && target && !target_port ==> v1_line(line) == port
            }
        }),
{
}

/// What follows the sixth word of a line does not matter.
pub proof fn law_v1_further_words(line: Seq<char>, gap: Seq<char>, rest: Seq<char>)
    requires
        text::words(line).len() >= 6,
        gap.len() > 0,
        text::blank(gap),
    ensures
        v1_line(line + gap + rest) == v1_line(line),
{
    text::law_words(line, gap, rest);
    let w = text::words(line);
    let v = text::words(line + gap + rest);
    assert(v[0] == w[0] && v[1] == w[1] && v[2] == w[2] && v[3] == w[3] && v[4] == w[4] && v[5]
        == w[5]);
}

proof fn lemma_address_word(s: Seq<char>)
    requires
        addr::ip_text(s) is Some,
    ensures
        is_word(s),
{
    assert forall|i: int| 0 <= i < s.len() implies !text::is_space(#[trigger] s[i]) by {
        assert(s.contains(s[i]));
        addr::law_address_characters(s, s[i]);
    }
    addr::lemma_address_not_empty(s);
}

/// A decision does not wait for more than it needs. Traffic that opens otherwise is passed on as
/// soon as twelve bytes have come, a v1 header is read with its line end, and a v2 header with its
/// last byte; until then exactly what is missing of it is asked for.
pub proof fn law_step_is_prompt(s: Seq<u8>, eof: bool)
    ensures
        eof ==> step(s, eof) !is Read,
        !opens_v1(s) && !opens_v2(s) && s.len() >= 12 ==> step(s, eof) is Plain,
        opens_v1(s) && first_crlf(s) is Some ==> step(s, eof) !is Read,
        opens_v1(s) && first_crlf(s) is None && s.len() > 108 ==> step(s, eof) == Step::Fail(
            ProxyError::TooLong,
        ),
        opens_v1(s) && first_crlf(s) is None && s.len() <= 108 && !eof ==> step(s, eof)
            == Step::Read(1),
        opens_v2(s) && !opens_v1(s) && 16 <= s.len() && s.len() >= 16 + s[14] * 256 + s[15]
            ==> step(s, eof) !is Read,
        opens_v2(s) && !opens_v1(s) && s.len() < 16 && !eof ==> step(s, eof) == Step::Read(
            (16 - s.len()) as usize,
        ),
        opens_v2(s) && !opens_v1(s) && 16 <= s.len() && s.len() < 16 + s[14] * 256 + s[15] && !eof
            ==> step(s, eof) == Step::Read((16 + s[14] * 256 + s[15] - s.len()) as usize),
        !opens_v1(s) && !opens_v2(s) && s.len() < 12 && !eof ==> step(s, eof) == Step::Read(
            (16 - s.len()) as usize,
        ),
{
}

} // verus!
