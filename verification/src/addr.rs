//! IP addresses and their textual form.

use crate::text;
use vstd::prelude::*;
use vstd::slice::slice_subrange;

verus! {

/// An IPv4 address as a number, first octet highest.
#[derive(Clone, Copy, Debug, PartialEq, Eq, Structural)]
pub struct Ipv4Addr {
    pub bits: u32,
}

/// An IPv6 address as a number, first group highest.
#[derive(Clone, Copy, Debug, PartialEq, Eq, Structural)]
pub struct Ipv6Addr {
    pub bits: u128,
}

/// An IP address of either version.
#[derive(Clone, Copy, Debug, PartialEq, Eq, Structural)]
pub enum IpAddr {
    V4(Ipv4Addr),
    V6(Ipv6Addr),
}

/// An IP address with a port.
#[derive(Clone, Copy, Debug, PartialEq, Eq, Structural)]
pub struct SocketAddr {
    pub ip: IpAddr,
    pub port: u16,
}

/// The number of four octets, first octet highest.
pub open spec fn octets_value(a: u8, b: u8, c: u8, d: u8) -> int {
    a * 0x100_0000 + b * 0x1_0000 + c * 0x100 + d
}

impl Ipv4Addr {
    /// The address `a.b.c.d`.
    pub fn new(a: u8, b: u8, c: u8, d: u8) -> (r: Self)
        ensures
            r.bits == octets_value(a, b, c, d),
    {
        Ipv4Addr {
            bits: a as u32 * 0x100_0000 + b as u32 * 0x1_0000 + c as u32 * 0x100 + d as u32,
        }
    }
}

/// The number of eight groups, first group highest.
pub open spec fn groups_value(g: Seq<u16>) -> int {
    g[0] * 0x1_0000_0000_0000_0000_0000_0000_0000 + g[1] * 0x1_0000_0000_0000_0000_0000_0000 + g[2]
        * 0x1_0000_0000_0000_0000_0000 + g[3] * 0x1_0000_0000_0000_0000 + g[4] * 0x1_0000_0000_0000
        + g[5] * 0x1_0000_0000 + g[6] * 0x1_0000 + g[7]
}

impl Ipv6Addr {
    /// The address with the given groups.
    pub fn from_groups(g: &[u16]) -> (r: Self)
        requires
            g@.len() == 8,
        ensures
            r.bits == groups_value(g@),
    {
        Ipv6Addr {
            bits: g[0] as u128 * 0x1_0000_0000_0000_0000_0000_0000_0000 + g[1] as u128
                * 0x1_0000_0000_0000_0000_0000_0000 + g[2] as u128 * 0x1_0000_0000_0000_0000_0000
                + g[3] as u128 * 0x1_0000_0000_0000_0000 + g[4] as u128 * 0x1_0000_0000_0000
                + g[5] as u128 * 0x1_0000_0000 + g[6] as u128 * 0x1_0000 + g[7] as u128,
        }
    }
}

impl IpAddr {
    /// Whether this is an IPv4 address.
    pub fn is_ipv4(&self) -> (r: bool)
        ensures
            r == (self is V4),
    {
        match self {
            IpAddr::V4(_) => true,
            IpAddr::V6(_) => false,
        }
    }
}

impl SocketAddr {
    /// The address with the given port.
    pub fn new(ip: IpAddr, port: u16) -> (r: Self)
        ensures
            r.ip == ip,
            r.port == port,
    {
        SocketAddr { ip, port }
    }
}

/// The value of a hexadecimal digit, in either case.
pub open spec fn hex_digit(c: char) -> Option<int> {
    if '0' <= c <= '9' {
        Some(c as int - '0' as int)
    } else if 'a' <= c <= 'f' {
        Some(c as int - 'a' as int + 10)
    } else if 'A' <= c <= 'F' {
        Some(c as int - 'A' as int + 10)
    } else {
        None
    }
}

/// The number that a run of hexadecimal digits denotes.
pub open spec fn hex_value(s: Seq<char>) -> int
    decreases s.len(),
{
    if s.len() == 0 {
        0
    } else {
        hex_value(s.drop_last()) * 16 + hex_digit(s.last()).unwrap_or(0)
    }
}

/// The octet that a text denotes: one to three digits, no leading zero, at most 255.
pub open spec fn octet(s: Seq<char>) -> Option<u8> {
    if text::all_digits(s) && s.len() <= 3 && (s[0] == '0' ==> s.len() == 1)
        && text::digits_value(s) <= 255 {
        Some(text::digits_value(s) as u8)
    } else {
        None
    }
}

/// The group that a text denotes: one to four hexadecimal digits.
pub open spec fn hex_group(s: Seq<char>) -> Option<u16> {
    if 1 <= s.len() <= 4 && forall|i: int| 0 <= i < s.len() ==> hex_digit(#[trigger] s[i]) is Some {
        Some(hex_value(s) as u16)
    } else {
        None
    }
}

/// The IPv4 address that a text denotes: four octets with dots between them.
pub open spec fn ipv4_text(s: Seq<char>) -> Option<u32> {
    let p = text::split(s, '.');
    if p.len() == 4 && octet(p[0]) is Some && octet(p[1]) is Some && octet(p[2]) is Some && octet(
        p[3],
    ) is Some {
        Some(
            octets_value(
                octet(p[0])->0,
                octet(p[1])->0,
                octet(p[2])->0,
                octet(p[3])->0,
            ) as u32,
        )
    } else {
        None
    }
}

/// The groups that a list of texts denotes, each a hexadecimal group.
pub open spec fn hex_groups(p: Seq<Seq<char>>) -> Option<Seq<u16>> {
    if forall|i: int| 0 <= i < p.len() ==> hex_group(#[trigger] p[i]) is Some {
        Some(p.map_values(|t: Seq<char>| hex_group(t)->0))
    } else {
        None
    }
}

/// The two groups that an IPv4 address fills.
pub open spec fn v4_groups(v: u32) -> Seq<u16> {
    seq![(v / 0x1_0000) as u16, (v % 0x1_0000) as u16]
}

/// The groups that a list of texts denotes: hexadecimal groups, of which an IPv4 address may
/// replace the last two.
pub open spec fn mixed_groups(p: Seq<Seq<char>>) -> Option<Seq<u16>> {
    if hex_groups(p) is Some {
        hex_groups(p)
    } else if p.len() > 0 && hex_groups(p.drop_last()) is Some && ipv4_text(p.last()) is Some {
        Some(hex_groups(p.drop_last())->0 + v4_groups(ipv4_text(p.last())->0))
    } else {
        None
    }
}

/// Whether `::` stands at position `i`.
pub open spec fn gap_at(s: Seq<char>, i: int) -> bool {
    0 <= i && i + 1 < s.len() && s[i] == ':' && s[i + 1] == ':'
}

/// Whether the first `::` of a text stands at position `i`.
pub open spec fn first_gap_at(s: Seq<char>, i: int) -> bool {
    gap_at(s, i) && forall|j: int| 0 <= j < i ==> !#[trigger] gap_at(s, j)
}

/// The groups on the left of `::`: none, or hexadecimal groups with colons between them.
pub open spec fn left_groups(s: Seq<char>) -> Option<Seq<u16>> {
    if s.len() == 0 {
        Some(Seq::empty())
    } else {
        hex_groups(text::split(s, ':'))
    }
}

/// The groups on the right of `::`: as on the left, but an IPv4 address may end them.
pub open spec fn right_groups(s: Seq<char>) -> Option<Seq<u16>> {
    if s.len() == 0 {
        Some(Seq::empty())
    } else {
        mixed_groups(text::split(s, ':'))
    }
}

/// The groups of an address that is written with `::` at position `i`: the zeros that `::`
/// stands for are at least one, and fill the address up to eight groups.
pub open spec fn compressed_groups(s: Seq<char>, i: int) -> Option<Seq<u16>> {
    match (left_groups(s.take(i)), right_groups(s.skip(i + 2))) {
        (Some(l), Some(r)) => if l.len() + r.len() <= 7 {
            Some(l + Seq::new((8 - l.len() - r.len()) as nat, |k: int| 0u16) + r)
        } else {
            None
        },
        _ => None,
    }
}

/// The eight groups of the IPv6 address that a text denotes.
pub open spec fn ipv6_groups(s: Seq<char>) -> Option<Seq<u16>> {
    if exists|i: int| gap_at(s, i) {
        compressed_groups(s, choose|i: int| first_gap_at(s, i))
    } else {
        match mixed_groups(text::split(s, ':')) {
            Some(g) => if g.len() == 8 {
                Some(g)
            } else {
                None
            },
            None => None,
        }
    }
}

/// The IP address that a text denotes.
#[verifier::opaque]
pub open spec fn ip_text(s: Seq<char>) -> Option<IpAddr> {
    if ipv4_text(s) is Some {
        Some(IpAddr::V4(Ipv4Addr { bits: ipv4_text(s)->0 }))
    } else if ipv6_groups(s) is Some {
        Some(IpAddr::V6(Ipv6Addr { bits: groups_value(ipv6_groups(s)->0) as u128 }))
    } else {
        None
    }
}

fn parse_octet(s: &[char]) -> (r: Option<u8>)
    ensures
        r == octet(s@),
{
    if s.len() == 0 || s.len() > 3 || s[0] == '+' || (s[0] == '0' && s.len() > 1) {
        assert(s@.len() > 0 && s@[0] == '+' ==> !text::is_digit(s@[0]));
        return None;
    }
    match text::parse_decimal(s, 255) {
        Some(v) => Some(v as u8),
        None => None,
    }
}

fn parse_hex_group(s: &[char]) -> (r: Option<u16>)
    ensures
        r == hex_group(s@),
{
    if s.len() == 0 || s.len() > 4 {
        return None;
    }
    let mut v: u32 = 0;
    let mut i: usize = 0;
    let ghost mut bound: int = 1;
    proof {
        assert(s@.take(0) =~= Seq::<char>::empty());
    }
    while i < s.len()
        invariant
            i <= s@.len(),
            1 <= s@.len() <= 4,
            v == hex_value(s@.take(i as int)),
            v < bound,
            bound == (if i == 0 {
                1int
            } else if i == 1 {
                0x10
            } else if i == 2 {
                0x100
            } else if i == 3 {
                0x1000
            } else {
                0x1_0000
            }),
            forall|j: int| 0 <= j < i ==> hex_digit(#[trigger] s@[j]) is Some,
        decreases s@.len() - i,
    {
        let c: char = s[i];
        let k: u32 = if '0' <= c && c <= '9' {
            c as u32 - '0' as u32
        } else if 'a' <= c && c <= 'f' {
            c as u32 - 'a' as u32 + 10
        } else if 'A' <= c && c <= 'F' {
            c as u32 - 'A' as u32 + 10
        } else {
            assert(hex_digit(s@[i as int]) is None);
            return None;
        };
        proof {
            assert(s@.take(i as int + 1).drop_last() =~= s@.take(i as int));
            bound = bound * 16;
        }
        v = v * 16 + k;
        i = i + 1;
    }
    proof {
        assert(s@.take(s@.len() as int) =~= s@);
    }
    Some(v as u16)
}

/// Reads an IPv4 address.
pub fn parse_ipv4(s: &[char]) -> (r: Option<Ipv4Addr>)
    ensures
        match ipv4_text(s@) {
            Some(v) => r == Some(Ipv4Addr { bits: v }),
            None => r is None,
        },
{
    let p: Vec<Vec<char>> = text::pieces(s, '.');
    let ghost q = text::split(s@, '.');
    assert(q.len() == p@.len());
    if p.len() != 4 {
        return None;
    }
    assert(q[0] == p@[0]@ && q[1] == p@[1]@ && q[2] == p@[2]@ && q[3] == p@[3]@);
    match (
        parse_octet(p[0].as_slice()),
        parse_octet(p[1].as_slice()),
        parse_octet(p[2].as_slice()),
        parse_octet(p[3].as_slice()),
    ) {
        (Some(a), Some(b), Some(c), Some(d)) => Some(Ipv4Addr::new(a, b, c, d)),
        _ => None,
    }
}

/// Reads the first `n` texts as hexadecimal groups.
fn parse_hex_groups(p: &Vec<Vec<char>>, n: usize) -> (r: Option<Vec<u16>>)
    requires
        n <= p@.len(),
    ensures
        match hex_groups(text::views(p@).take(n as int)) {
            Some(g) => r matches Some(v) && v@ == g,
            None => r is None,
        },
{
    let mut out: Vec<u16> = Vec::new();
    let mut i: usize = 0;
    let ghost q = text::views(p@).take(n as int);
    while i < n
        invariant
            n <= p@.len(),
            i <= n,
            q == text::views(p@).take(n as int),
            out@.len() == i,
            forall|j: int| 0 <= j < i ==> hex_group(#[trigger] q[j]) is Some,
            forall|j: int| 0 <= j < i ==> out@[j] == hex_group(#[trigger] q[j])->0,
        decreases n - i,
    {
        assert(q[i as int] == p@[i as int]@);
        match parse_hex_group(p[i].as_slice()) {
            Some(g) => out.push(g),
            None => {
                assert(hex_group(q[i as int]) is None);
                return None;
            },
        }
        i = i + 1;
    }
    assert(out@ =~= q.map_values(|t: Seq<char>| hex_group(t)->0));
    Some(out)
}

/// Reads a list of texts as hexadecimal groups, of which an IPv4 address may replace the last two.
fn parse_mixed_groups(p: &Vec<Vec<char>>) -> (r: Option<Vec<u16>>)
    requires
        p@.len() > 0,
    ensures
        match mixed_groups(text::views(p@)) {
            Some(g) => r matches Some(v) && v@ == g,
            None => r is None,
        },
{
    let n: usize = p.len();
    let ghost q = text::views(p@);
    assert(q.take(n as int) =~= q);
    assert(q.take(n as int - 1) =~= q.drop_last());
    assert(q.last() == p@[n as int - 1]@);
    match parse_hex_groups(p, n) {
        Some(g) => Some(g),
        None => match (parse_hex_groups(p, n - 1), parse_ipv4(p[n - 1].as_slice())) {
            (Some(g), Some(a)) => {
                let mut g: Vec<u16> = g;
                g.push((a.bits / 0x1_0000) as u16);
                g.push((a.bits % 0x1_0000) as u16);
                assert(g@ =~= hex_groups(q.drop_last())->0 + v4_groups(a.bits));
                Some(g)
            },
            _ => None,
        },
    }
}

fn find_gap(s: &[char]) -> (r: Option<usize>)
    ensures
        match r {
            Some(i) => first_gap_at(s@, i as int),
            None => forall|i: int| !gap_at(s@, i),
        },
{
    let n: usize = s.len();
    let mut i: usize = 0;
    while i < n && n - i >= 2
        invariant
            n == s@.len(),
            i <= n,
            forall|j: int| 0 <= j < i ==> !#[trigger] gap_at(s@, j),
        decreases n - i,
    {
        if s[i] == ':' && s[i + 1] == ':' {
            return Some(i);
        }
        i = i + 1;
    }
    None
}

fn parse_left(s: &[char]) -> (r: Option<Vec<u16>>)
    ensures
        match left_groups(s@) {
            Some(g) => r matches Some(v) && v@ == g,
            None => r is None,
        },
{
    if s.len() == 0 {
        return Some(Vec::new());
    }
    let p: Vec<Vec<char>> = text::pieces(s, ':');
    assert(text::views(p@).take(p@.len() as int) =~= text::views(p@));
    parse_hex_groups(&p, p.len())
}

fn parse_right(s: &[char]) -> (r: Option<Vec<u16>>)
    ensures
        match right_groups(s@) {
            Some(g) => r matches Some(v) && v@ == g,
            None => r is None,
        },
{
    if s.len() == 0 {
        return Some(Vec::new());
    }
    let p: Vec<Vec<char>> = text::pieces(s, ':');
    parse_mixed_groups(&p)
}

/// Reads the eight groups of an IPv6 address.
fn parse_ipv6_groups(s: &[char]) -> (r: Option<Vec<u16>>)
    ensures
        match ipv6_groups(s@) {
            Some(g) => r matches Some(v) && v@ == g,
            None => r is None,
        },
        r matches Some(v) ==> v@.len() == 8,
{
    match find_gap(s) {
        Some(i) => {
            let ghost k = choose|k: int| first_gap_at(s@, k);
            proof {
                assert(first_gap_at(s@, i as int));
                assert(k == i) by {
                    if k < i {
                        assert(gap_at(s@, k));
                    }
                    if i < k {
                        assert(gap_at(s@, i as int));
                    }
                }
            }
            let n: usize = s.len();
            let l: &[char] = slice_subrange(s, 0, i);
            let r: &[char] = slice_subrange(s, i + 2, n);
            assert(l@ =~= s@.take(i as int));
            assert(r@ =~= s@.skip(i as int + 2));
            match (parse_left(l), parse_right(r)) {
                (Some(l), Some(r)) => {
                    if l.len() > 7 || r.len() > 7 - l.len() {
                        return None;
                    }
                    let mut out: Vec<u16> = l;
                    let ghost left = out@;
                    let zeros: usize = 8 - out.len() - r.len();
                    let mut j: usize = 0;
                    while j < zeros
                        invariant
                            zeros == 8 - left.len() - r@.len(),
                            j <= zeros,
                            out@ == left + Seq::new(j as nat, |k: int| 0u16),
                        decreases zeros - j,
                    {
                        out.push(0);
                        assert(out@ =~= left + Seq::new((j + 1) as nat, |k: int| 0u16));
                        j = j + 1;
                    }
                    let ghost padded = out@;
                    let mut j: usize = 0;
                    while j < r.len()
                        invariant
                            j <= r@.len(),
                            out@ == padded + r@.take(j as int),
                        decreases r@.len() - j,
                    {
                        out.push(r[j]);
                        assert(out@ =~= padded + r@.take(j as int + 1));
                        j = j + 1;
                    }
                    assert(out@ =~= left + Seq::new(zeros as nat, |k: int| 0u16) + r@);
                    Some(out)
                },
                _ => None,
            }
        },
        None => {
            let p: Vec<Vec<char>> = text::pieces(s, ':');
            match parse_mixed_groups(&p) {
                Some(g) => if g.len() == 8 {
                    Some(g)
                } else {
                    None
                },
                None => None,
            }
        },
    }
}

/// Reads an IP address of either version.
pub fn parse_ip(s: &[char]) -> (r: Option<IpAddr>)
    ensures
        r == ip_text(s@),
        match ipv4_text(s@) {
            Some(bits) => r == Some(IpAddr::V4(Ipv4Addr { bits })),
            None => match ipv6_groups(s@) {
                Some(g) => r == Some(IpAddr::V6(Ipv6Addr { bits: groups_value(g) as u128 })),
                None => r is None,
            },
        },
{
    reveal(ip_text);
    match parse_ipv4(s) {
        Some(a) => Some(IpAddr::V4(a)),
        None => match parse_ipv6_groups(s) {
            Some(g) => Some(IpAddr::V6(Ipv6Addr::from_groups(g.as_slice()))),
            None => None,
        },
    }
}

/// The octets of an IPv4 address can be read off its number, the first one highest.
pub proof fn law_octets(a: u8, b: u8, c: u8, d: u8)
    ensures
        octets_value(a, b, c, d) / 0x100_0000 == a,
        octets_value(a, b, c, d) / 0x1_0000 % 0x100 == b,
        octets_value(a, b, c, d) / 0x100 % 0x100 == c,
        octets_value(a, b, c, d) % 0x100 == d,
        0 <= octets_value(a, b, c, d) <= u32::MAX,
{
    let v = octets_value(a, b, c, d);
    let ab = a * 0x100 + b;
    let abc = ab * 0x100 + c;
    vstd::arithmetic::div_mod::lemma_fundamental_div_mod_converse(
        v,
        0x100_0000,
        a as int,
        b * 0x1_0000 + c * 0x100 + d,
    );
    vstd::arithmetic::div_mod::lemma_fundamental_div_mod_converse(v, 0x1_0000, ab, c * 0x100 + d);
    vstd::arithmetic::div_mod::lemma_fundamental_div_mod_converse(ab, 0x100, a as int, b as int);
    vstd::arithmetic::div_mod::lemma_fundamental_div_mod_converse(v, 0x100, abc, d as int);
    vstd::arithmetic::div_mod::lemma_fundamental_div_mod_converse(abc, 0x100, ab, c as int);
}

/// The groups of an IPv6 address can be read off its number, the first one highest.
pub proof fn law_groups(g: Seq<u16>)
    requires
        g.len() == 8,
    ensures
        0 <= groups_value(g) <= u128::MAX,
        groups_value(g) / 0x1_0000_0000_0000_0000_0000_0000_0000 == g[0],
        groups_value(g) / 0x1_0000_0000_0000_0000_0000_0000 % 0x1_0000 == g[1],
        groups_value(g) / 0x1_0000_0000_0000_0000_0000 % 0x1_0000 == g[2],
        groups_value(g) / 0x1_0000_0000_0000_0000 % 0x1_0000 == g[3],
        groups_value(g) / 0x1_0000_0000_0000 % 0x1_0000 == g[4],
        groups_value(g) / 0x1_0000_0000 % 0x1_0000 == g[5],
        groups_value(g) / 0x1_0000 % 0x1_0000 == g[6],
        groups_value(g) % 0x1_0000 == g[7],
{
    let v = groups_value(g);
    let q0 = g[0] as int;
    let q1 = q0 * 0x1_0000 + g[1];
    let q2 = q1 * 0x1_0000 + g[2];
    let q3 = q2 * 0x1_0000 + g[3];
    let q4 = q3 * 0x1_0000 + g[4];
    let q5 = q4 * 0x1_0000 + g[5];
    let q6 = q5 * 0x1_0000 + g[6];
    let q7 = q6 * 0x1_0000 + g[7];
    let r6 = g[7] as int;
    let r5 = g[6] * 0x1_0000 + r6;
    let r4 = g[5] * 0x1_0000_0000 + r5;
    let r3 = g[4] * 0x1_0000_0000_0000 + r4;
    let r2 = g[3] * 0x1_0000_0000_0000_0000 + r3;
    let r1 = g[2] * 0x1_0000_0000_0000_0000_0000 + r2;
    let r0 = g[1] * 0x1_0000_0000_0000_0000_0000_0000 + r1;
    lemma_digit(v, q7, 0, 1, q6, g[7] as int);
    lemma_digit(v, q6, r6, 0x1_0000, q5, g[6] as int);
    lemma_digit(v, q5, r5, 0x1_0000_0000, q4, g[5] as int);
    lemma_digit(v, q4, r4, 0x1_0000_0000_0000, q3, g[4] as int);
    lemma_digit(v, q3, r3, 0x1_0000_0000_0000_0000, q2, g[3] as int);
    lemma_digit(v, q2, r2, 0x1_0000_0000_0000_0000_0000, q1, g[2] as int);
    lemma_digit(v, q1, r1, 0x1_0000_0000_0000_0000_0000_0000, q0, g[1] as int);
    lemma_digit(v, q0, r0, 0x1_0000_0000_0000_0000_0000_0000_0000, 0, g[0] as int);
    vstd::arithmetic::div_mod::lemma_fundamental_div_mod_converse(
        v,
        0x1_0000_0000_0000_0000_0000_0000_0000,
        q0,
        r0,
    );
}

/// A digit of a number to the base 65536.
proof fn lemma_digit(v: int, q: int, r: int, w: int, high: int, g: int)
    requires
        v == q * w + r,
        0 <= r < w,
        q == high * 0x1_0000 + g,
        0 <= g < 0x1_0000,
    ensures
        v / w % 0x1_0000 == g,
{
    vstd::arithmetic::div_mod::lemma_fundamental_div_mod_converse(v, w, q, r);
    vstd::arithmetic::div_mod::lemma_fundamental_div_mod_converse(q, 0x1_0000, high, g);
}

/// The dotted form of an IPv4 address.
pub open spec fn dotted(a: u8, b: u8, c: u8, d: u8) -> Seq<char> {
    text::joined(
        seq![
            text::decimal(a as nat),
            text::decimal(b as nat),
            text::decimal(c as nat),
            text::decimal(d as nat),
        ],
        '.',
    )
}

/// Digits without a leading zero are the decimal form of their number.
proof fn lemma_digits_are_decimal(s: Seq<char>)
    requires
        text::all_digits(s),
        s[0] == '0' ==> s.len() == 1,
    ensures
        s == text::decimal(text::digits_value(s)),
        s.len() > 1 ==> text::digits_value(s) >= 10,
        s[0] != '0' ==> text::digits_value(s) >= 1,
    decreases s.len(),
{
    let p = s.drop_last();
    assert(text::is_digit(s[s.len() - 1]));
    if s.len() == 1 {
        assert(p =~= Seq::<char>::empty());
        assert(text::digits_value(p) == 0);
        assert(s =~= text::decimal(text::digits_value(s)));
    } else {
        assert forall|i: int| 0 <= i < p.len() implies text::is_digit(#[trigger] p[i]) by {
            assert(text::is_digit(s[i]));
        }
        assert(p[0] == s[0]);
        lemma_digits_are_decimal(p);
        assert(s =~= p.push(s.last()));
    }
}

proof fn lemma_decimal_shape(n: nat)
    ensures
        text::all_digits(text::decimal(n)),
        text::digits_value(text::decimal(n)) == n,
        n > 0 ==> text::decimal(n)[0] != '0',
        n < 10 ==> text::decimal(n).len() == 1,
        n < 1000 ==> text::decimal(n).len() <= 3,
    decreases n,
{
    text::law_decimal_round_trip(n, n);
    text::law_decimal_is_a_number(text::decimal(n), n);
    if n >= 10 {
        lemma_decimal_shape(n / 10);
        if n < 1000 {
            lemma_decimal_shape(n / 10 / 10);
        }
        assert(text::decimal(n)[0] == text::decimal(n / 10)[0]);
    }
    lemma_decimal_digits(n);
}

proof fn lemma_decimal_digits(n: nat)
    ensures
        text::all_digits(text::decimal(n)),
        text::digits_value(text::decimal(n)) == n,
    decreases n,
{
    if n < 10 {
        assert(text::decimal(n).drop_last() =~= Seq::<char>::empty());
        assert(text::digits_value(text::decimal(n).drop_last()) == 0);
    } else {
        lemma_decimal_digits(n / 10);
        assert(text::decimal(n).drop_last() =~= text::decimal(n / 10));
    }
}

proof fn lemma_octet(n: u8)
    ensures
        octet(text::decimal(n as nat)) == Some(n),
        !text::decimal(n as nat).contains('.'),
        !text::decimal(n as nat).contains(':'),
{
    let s = text::decimal(n as nat);
    lemma_decimal_shape(n as nat);
    assert forall|x: char| s.contains(x) implies text::is_digit(x) by {
        let i = choose|i: int| 0 <= i < s.len() && s[i] == x;
        assert(text::is_digit(s[i]));
    }
}

/// An IPv4 address in its dotted form is read.
pub proof fn law_dotted_is_read(a: u8, b: u8, c: u8, d: u8)
    ensures
        ip_text(dotted(a, b, c, d)) == Some(
            IpAddr::V4(Ipv4Addr { bits: (a * 0x100_0000 + b * 0x1_0000 + c * 0x100 + d) as u32 }),
        ),
{
    reveal(ip_text);
    let ps = seq![
        text::decimal(a as nat),
        text::decimal(b as nat),
        text::decimal(c as nat),
        text::decimal(d as nat),
    ];
    lemma_octet(a);
    lemma_octet(b);
    lemma_octet(c);
    lemma_octet(d);
    text::law_joined_split(ps, '.');
}

/// Nothing else is read as an IPv4 address: a text that is read as one is its dotted form.
pub proof fn law_only_dotted_is_read(s: Seq<char>)
    requires
        ip_text(s) matches Some(ip) && ip is V4,
    ensures
        exists|a: u8, b: u8, c: u8, d: u8| s == #[trigger] dotted(a, b, c, d),
{
    reveal(ip_text);
    let p = text::split(s, '.');
    text::law_split_joined(s, '.');
    let (a, b, c, d) = (octet(p[0])->0, octet(p[1])->0, octet(p[2])->0, octet(p[3])->0);
    lemma_digits_are_decimal(p[0]);
    lemma_digits_are_decimal(p[1]);
    lemma_digits_are_decimal(p[2]);
    lemma_digits_are_decimal(p[3]);
    assert(p =~= seq![
        text::decimal(a as nat),
        text::decimal(b as nat),
        text::decimal(c as nat),
        text::decimal(d as nat),
    ]);
    assert(s == dotted(a, b, c, d));
}

/// A group is read digit by digit: a hexadecimal digit is its distance from `0`, or ten and its
/// distance from `a` in either case, and a digit more makes the group sixteen times as large, and
/// the digit more. A group has at most four digits, and nothing but digits.
pub proof fn law_hex_group(s: Seq<char>, c: char)
    ensures
        '0' <= c <= '9' ==> hex_group(seq![c]) == Some((c as int - '0' as int) as u16),
        'a' <= c <= 'f' ==> hex_group(seq![c]) == Some((c as int - 'a' as int + 10) as u16),
        'A' <= c <= 'F' ==> hex_group(seq![c]) == Some((c as int - 'A' as int + 10) as u16),
        hex_group(s) is Some && hex_group(seq![c]) is Some && s.len() < 4 ==> hex_group(s.push(c))
            == Some((16 * hex_group(s)->0 + hex_group(seq![c])->0) as u16),
        s.len() >= 4 ==> hex_group(s.push(c)) is None,
        hex_group(Seq::empty()) is None,
        s.contains(c) && hex_group(s) is Some ==> '0' <= c <= '9' || 'a' <= c <= 'f' || 'A' <= c
            <= 'F',
{
    let one = seq![c];
    assert(one.drop_last() =~= Seq::<char>::empty());
    assert(hex_value(one.drop_last()) == 0);
    assert(hex_digit(c) is Some ==> hex_group(one) is Some) by {
        assert(one[0] == c);
    }
    assert(hex_group(one) is Some ==> hex_digit(one[0]) is Some);
    if hex_group(s) is Some && hex_group(one) is Some && s.len() < 4 {
        let t = s.push(c);
        assert(t.drop_last() =~= s);
        assert forall|i: int| 0 <= i < t.len() implies hex_digit(#[trigger] t[i]) is Some by {
            if i < s.len() {
                assert(hex_digit(s[i]) is Some);
            }
        }
        lemma_hex_bound(s);
    }
    if s.contains(c) && hex_group(s) is Some {
        let i = choose|i: int| 0 <= i < s.len() && s[i] == c;
        assert(hex_digit(s[i]) is Some);
    }
}

proof fn lemma_hex_bound(s: Seq<char>)
    requires
        s.len() <= 4,
    ensures
        0 <= hex_value(s) < (if s.len() == 0 {
            1int
        } else if s.len() == 1 {
            0x10
        } else if s.len() == 2 {
            0x100
        } else if s.len() == 3 {
            0x1000
        } else {
            0x1_0000
        }),
    decreases s.len(),
{
    if s.len() > 0 {
        lemma_hex_bound(s.drop_last());
    }
}

/// Whether every text of a list is a hexadecimal group.
pub open spec fn are_groups(p: Seq<Seq<char>>) -> bool {
    forall|i: int| 0 <= i < p.len() ==> hex_group(#[trigger] p[i]) is Some
}

/// The numbers of a list of groups.
pub open spec fn group_values(p: Seq<Seq<char>>) -> Seq<u16> {
    Seq::new(p.len(), |i: int| hex_group(p[i])->0)
}

proof fn lemma_group_chars(s: Seq<char>)
    requires
        hex_group(s) is Some,
    ensures
        s.len() > 0,
        !s.contains(':'),
        !s.contains('.'),
{
    assert forall|x: char| s.contains(x) implies hex_digit(x) is Some by {
        let i = choose|i: int| 0 <= i < s.len() && s[i] == x;
        assert(hex_digit(s[i]) is Some);
    }
}

/// Pieces that are not empty and hold no colon make no double colon when they are joined.
proof fn lemma_no_gap(ps: Seq<Seq<char>>)
    requires
        ps.len() > 0,
        forall|i: int| 0 <= i < ps.len() ==> (#[trigger] ps[i]).len() > 0 && !ps[i].contains(':'),
    ensures
        ({
            let s = text::joined(ps, ':');
            &&& s.len() > 0
            &&& s[0] != ':'
            &&& s.last() != ':'
            &&& forall|i: int| !#[trigger] gap_at(s, i)
        }),
    decreases ps.len(),
{
    let s = text::joined(ps, ':');
    let l = ps[ps.len() - 1];
    assert(forall|k: int| 0 <= k < l.len() ==> l.contains(#[trigger] l[k]));
    if ps.len() > 1 {
        let p = ps.drop_last();
        assert forall|i: int| 0 <= i < p.len() implies (#[trigger] p[i]).len() > 0
            && !p[i].contains(':') by {
            assert(p[i] == ps[i]);
        }
        lemma_no_gap(p);
        let a = text::joined(p, ':');
        assert(s == a.push(':') + l);
        assert(s.last() == l[l.len() - 1]);
        assert forall|i: int| !#[trigger] gap_at(s, i) by {
            assert(!gap_at(a, i));
            if 0 <= i && i + 1 < s.len() {
                if i + 1 < a.len() {
                } else if i + 1 == a.len() {
                    assert(s[i] == a.last());
                } else if i == a.len() {
                    assert(s[i + 1] == l[0]);
                } else {
                    assert(s[i] == l[i - a.len() - 1]);
                }
            }
        }
    } else {
        assert(s == ps[0]);
        assert(s[0] == l[0] && s.last() == l[l.len() - 1]);
        assert forall|i: int| !#[trigger] gap_at(s, i) by {
            if 0 <= i && i + 1 < s.len() {
                assert(s[i] == l[i]);
            }
        }
    }
}

/// A text that is read as an IPv4 address holds digits and dots alone.
proof fn lemma_v4_chars(s: Seq<char>)
    requires
        ipv4_text(s) is Some,
    ensures
        forall|i: int| 0 <= i < s.len() ==> text::is_digit(#[trigger] s[i]) || s[i] == '.',
{
    let p = text::split(s, '.');
    text::law_split_joined(s, '.');
    assert forall|i: int, x: char| 0 <= i < p.len() && #[trigger] p[i].contains(x)
        implies text::is_digit(x) by {
        let k = choose|k: int| 0 <= k < p[i].len() && p[i][k] == x;
        assert(octet(p[i]) is Some);
        assert(text::is_digit(p[i][k]));
    }
    lemma_joined_chars(p, '.');
}

/// Every character of joined pieces is the separator or stands in a piece.
proof fn lemma_joined_chars(ps: Seq<Seq<char>>, sep: char)
    ensures
        forall|i: int|
            0 <= i < text::joined(ps, sep).len() ==> #[trigger] text::joined(ps, sep)[i] == sep
                || exists|k: int|
                0 <= k < ps.len() && (#[trigger] ps[k]).contains(text::joined(ps, sep)[i]),
    decreases ps.len(),
{
    let s = text::joined(ps, sep);
    if ps.len() == 1 {
        assert forall|i: int| 0 <= i < s.len() implies #[trigger] s[i] == sep || exists|k: int|
            0 <= k < ps.len() && (#[trigger] ps[k]).contains(s[i]) by {
            assert(ps[0].contains(s[i]));
        }
    } else if ps.len() > 1 {
        let p = ps.drop_last();
        lemma_joined_chars(p, sep);
        let a = text::joined(p, sep);
        assert forall|i: int| 0 <= i < s.len() implies #[trigger] s[i] == sep || exists|k: int|
            0 <= k < ps.len() && (#[trigger] ps[k]).contains(s[i]) by {
            if i < a.len() {
                assert(s[i] == a[i]);
                if a[i] != sep {
                    let k = choose|k: int| 0 <= k < p.len() && (#[trigger] p[k]).contains(a[i]);
                    assert(ps[k].contains(s[i]));
                }
            } else if i > a.len() {
                let l = ps[ps.len() - 1];
                assert(s[i] == l[i - a.len() - 1]);
                assert(l.contains(s[i]));
            }
        }
    }
}

/// An IPv6 address in its full form, eight groups with colons between them, is read.
pub proof fn law_full_v6_is_read(p: Seq<Seq<char>>)
    requires
        p.len() == 8,
        are_groups(p),
    ensures
        ip_text(text::joined(p, ':')) == Some(
            IpAddr::V6(Ipv6Addr { bits: groups_value(group_values(p)) as u128 }),
        ),
{
    reveal(ip_text);
    let s = text::joined(p, ':');
    assert forall|i: int| 0 <= i < p.len() implies (#[trigger] p[i]).len() > 0
        && !p[i].contains(':') by {
        lemma_group_chars(p[i]);
    }
    lemma_no_gap(p);
    text::law_joined_split(p, ':');
    assert(hex_groups(p)->0 =~= group_values(p));
    lemma_colon_is_no_v4(s, text::joined(p.drop_last(), ':').len() as int);
}

proof fn lemma_colon_is_no_v4(s: Seq<char>, i: int)
    requires
        0 <= i < s.len(),
        s[i] == ':',
    ensures
        ipv4_text(s) is None,
{
    if ipv4_text(s) is Some {
        lemma_v4_chars(s);
        assert(text::is_digit(s[i]) || s[i] == '.');
    }
}

/// An IPv6 address in its short form is read: the double colon stands for as many zero groups as
/// are left out, at least one.
pub proof fn law_short_v6_is_read(l: Seq<Seq<char>>, r: Seq<Seq<char>>)
    requires
        l.len() + r.len() <= 7,
        are_groups(l),
        are_groups(r),
    ensures
        ip_text(text::joined(l, ':') + "::"@ + text::joined(r, ':')) == Some(
            IpAddr::V6(
                Ipv6Addr {
                    bits: groups_value(
                        group_values(l) + Seq::new(
                            (8 - l.len() - r.len()) as nat,
                            |k: int| 0u16,
                        ) + group_values(r),
                    ) as u128,
                },
            ),
        ),
{
    reveal(ip_text);
    lemma_short_v6(l, r);
    let b = text::joined(r, ':');
    if r.len() > 0 {
        assert forall|i: int| 0 <= i < r.len() implies !(#[trigger] r[i]).contains(':') by {
            lemma_group_chars(r[i]);
        }
        text::law_joined_split(r, ':');
        lemma_not_empty(r);
    }
    assert(right_groups(b)->0 =~= group_values(r)) by {
        if r.len() > 0 {
            assert(hex_groups(r)->0 =~= group_values(r));
        } else {
            assert(b.len() == 0);
        }
    }
}

proof fn lemma_not_empty(p: Seq<Seq<char>>)
    requires
        p.len() > 0,
        are_groups(p),
    ensures
        text::joined(p, ':').len() > 0,
{
    assert forall|i: int| 0 <= i < p.len() implies (#[trigger] p[i]).len() > 0
        && !p[i].contains(':') by {
        lemma_group_chars(p[i]);
    }
    lemma_no_gap(p);
}

/// What a short form with the given left groups reads as depends on its right part.
proof fn lemma_short_v6(l: Seq<Seq<char>>, r: Seq<Seq<char>>)
    requires
        are_groups(l),
    ensures
        ({
            let b = text::joined(r, ':');
            let s = text::joined(l, ':') + "::"@ + b;
            &&& ipv4_text(s) is None
            &&& ipv6_groups(s) == (match right_groups(b) {
                Some(g) => if l.len() + g.len() <= 7 {
                    Some(
                        group_values(l) + Seq::new((8 - l.len() - g.len()) as nat, |k: int| 0u16)
                            + g,
                    )
                } else {
                    None
                },
                None => None,
            })
        }),
{
    reveal_strlit("::");
    let a = text::joined(l, ':');
    let b = text::joined(r, ':');
    let s = a + "::"@ + b;
    let n = a.len() as int;
    if l.len() > 0 {
        assert forall|i: int| 0 <= i < l.len() implies (#[trigger] l[i]).len() > 0
            && !l[i].contains(':') by {
            lemma_group_chars(l[i]);
        }
        lemma_no_gap(l);
        text::law_joined_split(l, ':');
        assert(hex_groups(l)->0 =~= group_values(l));
    }
    assert(s[n] == ':' && s[n + 1] == ':');
    assert(gap_at(s, n));
    lemma_colon_is_no_v4(s, n);
    assert forall|j: int| 0 <= j < n implies !#[trigger] gap_at(s, j) by {
        assert(!gap_at(a, j));
        if j + 1 == n {
            assert(s[j] == a.last());
        }
    }
    assert(first_gap_at(s, n));
    let k = choose|k: int| first_gap_at(s, k);
    assert(k == n) by {
        if k < n {
            assert(!gap_at(s, k));
        }
        if n < k {
            assert(!gap_at(s, n));
        }
    }
    assert(s.take(n) =~= a);
    assert(s.skip(n + 2) =~= b);
    assert(left_groups(a)->0 =~= group_values(l));
}

/// An IPv6 address may end with an IPv4 address in its dotted form, in place of its last two
/// groups.
pub proof fn law_v6_with_v4_is_read(l: Seq<Seq<char>>, a: u8, b: u8, c: u8, d: u8)
    requires
        l.len() == 6,
        are_groups(l),
    ensures
        ip_text(text::joined(l.push(dotted(a, b, c, d)), ':')) == Some(
            IpAddr::V6(
                Ipv6Addr {
                    bits: groups_value(
                        group_values(l) + seq![(a * 256 + b) as u16, (c * 256 + d) as u16],
                    ) as u128,
                },
            ),
        ),
{
    reveal(ip_text);
    lemma_dotted_tail(a, b, c, d);
    lemma_full_mixed(l, dotted(a, b, c, d));
}

/// The same in the short form: the double colon stands for as many zero groups as are left out, at
/// least one.
pub proof fn law_short_v6_with_v4_is_read(
    l: Seq<Seq<char>>,
    r: Seq<Seq<char>>,
    a: u8,
    b: u8,
    c: u8,
    d: u8,
)
    requires
        l.len() + r.len() <= 5,
        are_groups(l),
        are_groups(r),
    ensures
        ip_text(
            text::joined(l, ':') + "::"@ + text::joined(r.push(dotted(a, b, c, d)), ':'),
        ) == Some(
            IpAddr::V6(
                Ipv6Addr {
                    bits: groups_value(
                        group_values(l) + Seq::new(
                            (6 - l.len() - r.len()) as nat,
                            |k: int| 0u16,
                        ) + (group_values(r) + seq![(a * 256 + b) as u16, (c * 256 + d) as u16]),
                    ) as u128,
                },
            ),
        ),
{
    reveal(ip_text);
    lemma_dotted_tail(a, b, c, d);
    let v = dotted(a, b, c, d);
    lemma_short_v6(l, r.push(v));
    lemma_right_mixed(r, v);
}

proof fn lemma_dotted_tail(a: u8, b: u8, c: u8, d: u8)
    ensures
        ({
            let v = dotted(a, b, c, d);
            &&& ipv4_text(v) is Some
            &&& v4_groups(ipv4_text(v)->0) == seq![(a * 256 + b) as u16, (c * 256 + d) as u16]
            &&& hex_group(v) is None
            &&& v.len() > 0
            &&& !v.contains(':')
        }),
{
    let v = dotted(a, b, c, d);
    law_dotted_is_read(a, b, c, d);
    lemma_ip_is_v4(v);
    lemma_v4_chars(v);
    lemma_dotted_shape(a, b, c, d);
    assert(v4_groups(ipv4_text(v)->0) =~= seq![(a * 256 + b) as u16, (c * 256 + d) as u16]);
}

proof fn lemma_full_mixed(l: Seq<Seq<char>>, v: Seq<char>)
    requires
        l.len() == 6,
        are_groups(l),
        ipv4_text(v) is Some,
        hex_group(v) is None,
        v.len() > 0,
        !v.contains(':'),
    ensures
        ip_text(text::joined(l.push(v), ':')) == Some(
            IpAddr::V6(
                Ipv6Addr {
                    bits: groups_value(group_values(l) + v4_groups(ipv4_text(v)->0)) as u128,
                },
            ),
        ),
{
    reveal(ip_text);
    let p = l.push(v);
    lemma_mixed(l, v);
    assert forall|i: int| 0 <= i < p.len() implies (#[trigger] p[i]).len() > 0
        && !p[i].contains(':') by {
        if i < l.len() {
            lemma_group_chars(l[i]);
        }
    }
    lemma_no_gap(p);
    text::law_joined_split(p, ':');
    lemma_colon_is_no_v4(text::joined(p, ':'), text::joined(p.drop_last(), ':').len() as int);
}

proof fn lemma_right_mixed(r: Seq<Seq<char>>, v: Seq<char>)
    requires
        are_groups(r),
        ipv4_text(v) is Some,
        hex_group(v) is None,
        v.len() > 0,
        !v.contains(':'),
    ensures
        right_groups(text::joined(r.push(v), ':')) == Some(
            group_values(r) + v4_groups(ipv4_text(v)->0),
        ),
{
    let q = r.push(v);
    lemma_mixed(r, v);
    assert forall|i: int| 0 <= i < q.len() implies (#[trigger] q[i]).len() > 0
        && !q[i].contains(':') by {
        if i < r.len() {
            lemma_group_chars(r[i]);
        }
    }
    lemma_no_gap(q);
    text::law_joined_split(q, ':');
}

proof fn lemma_ip_is_v4(s: Seq<char>)
    requires
        ip_text(s) matches Some(ip) && ip is V4,
    ensures
        ipv4_text(s) is Some,
        ip_text(s) == Some(IpAddr::V4(Ipv4Addr { bits: ipv4_text(s)->0 })),
{
    reveal(ip_text);
}

proof fn lemma_dotted_shape(a: u8, b: u8, c: u8, d: u8)
    ensures
        dotted(a, b, c, d).len() > 0,
        dotted(a, b, c, d).contains('.'),
        hex_group(dotted(a, b, c, d)) is None,
{
    let ps = seq![
        text::decimal(a as nat),
        text::decimal(b as nat),
        text::decimal(c as nat),
        text::decimal(d as nat),
    ];
    let p = ps.drop_last();
    let x = text::joined(p, '.');
    let s = dotted(a, b, c, d);
    assert(s == x.push('.') + ps.last());
    assert(s[x.len() as int] == '.');
    if hex_group(s) is Some {
        lemma_group_chars(s);
    }
}

proof fn lemma_mixed(p: Seq<Seq<char>>, v: Seq<char>)
    requires
        are_groups(p),
        ipv4_text(v) is Some,
        hex_group(v) is None,
    ensures
        mixed_groups(p.push(v)) == Some(group_values(p) + v4_groups(ipv4_text(v)->0)),
{
    let q = p.push(v);
    assert(hex_group(q[q.len() - 1]) is None);
    assert(hex_groups(q) is None);
    assert(q.drop_last() =~= p);
    assert(hex_groups(p)->0 =~= group_values(p));
}

/// A text that is read as an address holds hexadecimal digits, dots and colons alone.
pub proof fn law_address_characters(s: Seq<char>, c: char)
    requires
        ip_text(s) is Some,
        s.contains(c),
    ensures
        '0' <= c <= '9' || 'a' <= c <= 'f' || 'A' <= c <= 'F' || c == '.' || c == ':',
{
    reveal(ip_text);
    let k = choose|k: int| 0 <= k < s.len() && s[k] == c;
    if ipv4_text(s) is Some {
        lemma_v4_chars(s);
        assert(text::is_digit(s[k]) || s[k] == '.');
    } else if exists|i: int| gap_at(s, i) {
        let i = choose|i: int| first_gap_at(s, i);
        lemma_has_first_gap(s);
        if k < i {
            assert(s.take(i)[k] == c);
            assert(s.take(i).contains(c));
            lemma_left_chars(s.take(i), c);
        } else if k >= i + 2 {
            assert(s.skip(i + 2)[k - i - 2] == c);
            assert(s.skip(i + 2).contains(c));
            lemma_mixed_chars(s.skip(i + 2), c);
        }
    } else {
        lemma_mixed_chars(s, c);
    }
}

proof fn lemma_has_first_gap(s: Seq<char>)
    requires
        exists|i: int| gap_at(s, i),
    ensures
        exists|i: int| first_gap_at(s, i),
{
    let i = choose|i: int| gap_at(s, i);
    lemma_first_gap_below(s, i);
}

proof fn lemma_first_gap_below(s: Seq<char>, i: int)
    requires
        gap_at(s, i),
    ensures
        exists|j: int| first_gap_at(s, j),
    decreases i,
{
    if forall|j: int| 0 <= j < i ==> !#[trigger] gap_at(s, j) {
        assert(first_gap_at(s, i));
    } else {
        let j = choose|j: int| 0 <= j < i && #[trigger] gap_at(s, j);
        lemma_first_gap_below(s, j);
    }
}

proof fn lemma_left_chars(s: Seq<char>, c: char)
    requires
        left_groups(s) is Some,
        s.contains(c),
    ensures
        hex_digit(c) is Some || c == ':',
{
    let p = text::split(s, ':');
    text::law_split_joined(s, ':');
    lemma_joined_chars(p, ':');
    let k = choose|k: int| 0 <= k < s.len() && s[k] == c;
    if c != ':' {
        assert(text::joined(p, ':')[k] == c);
        let j = choose|j: int| 0 <= j < p.len() && (#[trigger] p[j]).contains(c);
        law_hex_group(p[j], c);
    }
}

proof fn lemma_mixed_chars(s: Seq<char>, c: char)
    requires
        mixed_groups(text::split(s, ':')) is Some,
        s.contains(c),
    ensures
        hex_digit(c) is Some || c == ':' || c == '.',
{
    let p = text::split(s, ':');
    text::law_split_joined(s, ':');
    lemma_joined_chars(p, ':');
    let k = choose|k: int| 0 <= k < s.len() && s[k] == c;
    if c != ':' {
        assert(text::joined(p, ':')[k] == c);
        let j = choose|j: int| 0 <= j < p.len() && (#[trigger] p[j]).contains(c);
        if hex_group(p[j]) is Some {
            law_hex_group(p[j], c);
        } else {
            if j < p.len() - 1 {
                assert(p.drop_last()[j] == p[j]);
            }
            lemma_v4_chars(p[j]);
            let m = choose|m: int| 0 <= m < p[j].len() && p[j][m] == c;
            assert(text::is_digit(p[j][m]) || p[j][m] == '.');
        }
    }
}

/// Nothing else is read as an IPv6 address: without a double colon there are eight groups, of which
/// an IPv4 address may stand for the last two, and there are no two double colons.
pub proof fn law_only_groups_are_read(s: Seq<char>, i: int, j: int)
    requires
        ip_text(s) matches Some(ip) && ip is V6,
    ensures
        gap_at(s, i) && gap_at(s, j) ==> i == j,
        (forall|k: int| !#[trigger] gap_at(s, k)) ==> {
            let p = text::split(s, ':');
            ||| p.len() == 8 && are_groups(p)
            ||| p.len() == 7 && are_groups(p.drop_last()) && (ip_text(p.last()) matches Some(ip)
                && ip is V4)
        },
{
    reveal(ip_text);
    if exists|k: int| gap_at(s, k) {
        lemma_has_first_gap(s);
        let k = choose|k: int| first_gap_at(s, k);
        lemma_one_gap(s, k, i);
        lemma_one_gap(s, k, j);
    } else {
        let p = text::split(s, ':');
        if hex_groups(p) is Some {
            assert(are_groups(p));
        }
    }
}

proof fn lemma_one_gap(s: Seq<char>, k: int, i: int)
    requires
        first_gap_at(s, k),
        compressed_groups(s, k) is Some,
    ensures
        gap_at(s, i) ==> i == k,
{
    let b = s.skip(k + 2);
    if gap_at(s, i) && i != k {
        assert(i > k);
        if b.len() > 0 {
            lemma_right_shape(b);
        }
        if i == k + 1 {
            assert(s[k + 2] == b[0]);
        } else {
            assert(b[i - k - 2] == s[i] && b[i - k - 1] == s[i + 1]);
            assert(gap_at(b, i - k - 2));
        }
    }
}

proof fn lemma_right_shape(b: Seq<char>)
    requires
        mixed_groups(text::split(b, ':')) is Some,
    ensures
        b.len() > 0,
        b[0] != ':',
        forall|i: int| !#[trigger] gap_at(b, i),
{
    let p = text::split(b, ':');
    text::law_split_joined(b, ':');
    assert forall|i: int| 0 <= i < p.len() implies (#[trigger] p[i]).len() > 0
        && !p[i].contains(':') by {
        if hex_group(p[i]) is None {
            if i < p.len() - 1 {
                assert(p.drop_last()[i] == p[i]);
            }
            assert(ipv4_text(p[i]) is Some);
            text::law_split_joined(p[i], '.');
        }
    }
    lemma_no_gap(p);
}

/// The empty text is no address.
pub proof fn lemma_address_not_empty(s: Seq<char>)
    requires
        ip_text(s) is Some,
    ensures
        s.len() > 0,
{
    reveal(ip_text);
    if s.len() == 0 {
        assert(s =~= Seq::empty());
        text::lemma_split_single(s, '.');
        text::lemma_split_single(s, ':');
        assert(forall|i: int| !#[trigger] gap_at(s, i));
        let p = seq![s];
        assert(hex_group(p[0]) is None);
    }
}

} // verus!
