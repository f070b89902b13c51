//! Security baseline: address lists and hardened response headers.

use crate::addr;
use crate::addr::IpAddr;
use crate::config::validator;
use crate::headers;
use crate::headers::Put;
use crate::text;
use vstd::arithmetic::power2::pow2;
use vstd::prelude::*;
use vstd::slice::slice_subrange;
use vstd::utf8;

verus! {

/// A network: an address and how many of its leading bits count.
#[derive(Clone, Copy, Debug, PartialEq, Eq, Structural)]
pub struct IpNet {
    pub addr: IpAddr,
    pub prefix: u8,
}

/// Whether two numbers of a bit width agree on their leading bits (on all of them, where the
/// prefix is as long as the width or longer).
pub open spec fn same_leading(a: nat, b: nat, width: nat, prefix: nat) -> bool {
    let rest = if prefix >= width {
        0
    } else {
        (width - prefix) as nat
    };
    a / pow2(rest) == b / pow2(rest)
}

impl IpNet {
    /// Whether an address belongs to the network: it is of the same family, and the leading bits
    /// agree.
    pub open spec fn holds(&self, ip: IpAddr) -> bool {
        match (self.addr, ip) {
            (IpAddr::V4(a), IpAddr::V4(b)) => same_leading(
                a.bits as nat,
                b.bits as nat,
                32,
                self.prefix as nat,
            ),
            (IpAddr::V6(a), IpAddr::V6(b)) => same_leading(
                a.bits as nat,
                b.bits as nat,
                128,
                self.prefix as nat,
            ),
            _ => false,
        }
    }

    /// Whether an address belongs to the network.
    pub fn contains(&self, ip: IpAddr) -> (r: bool)
        ensures
            r == self.holds(ip),
    {
        proof {
            vstd::arithmetic::power2::lemma2_to64();
        }
        match (self.addr, ip) {
            (IpAddr::V4(a), IpAddr::V4(b)) => {
                proof {
                    lemma_whole(a.bits as nat);
                    lemma_whole(b.bits as nat);
                }
                if self.prefix >= 32 {
                    a.bits == b.bits
                } else if self.prefix == 0 {
                    proof {
                        vstd::arithmetic::div_mod::lemma_basic_div(a.bits as int, pow2(32) as int);
                        vstd::arithmetic::div_mod::lemma_basic_div(b.bits as int, pow2(32) as int);
                    }
                    true
                } else {
                    let rest: u32 = 32 - self.prefix as u32;
                    proof {
                        vstd::bits::lemma_u32_shr_is_div(a.bits, rest);
                        vstd::bits::lemma_u32_shr_is_div(b.bits, rest);
                    }
                    a.bits >> rest == b.bits >> rest
                }
            },
            (IpAddr::V6(a), IpAddr::V6(b)) => {
                proof {
                    lemma_whole(a.bits as nat);
                    lemma_whole(b.bits as nat);
                }
                if self.prefix >= 128 {
                    a.bits == b.bits
                } else if self.prefix == 0 {
                    proof {
                        lemma_pow2_128();
                        vstd::arithmetic::div_mod::lemma_basic_div(a.bits as int, pow2(128) as int);
                        vstd::arithmetic::div_mod::lemma_basic_div(b.bits as int, pow2(128) as int);
                    }
                    true
                } else {
                    let rest: u128 = 128 - self.prefix as u128;
                    proof {
                        vstd::bits::lemma_u128_shr_is_div(a.bits, rest);
                        vstd::bits::lemma_u128_shr_is_div(b.bits, rest);
                    }
                    a.bits >> rest == b.bits >> rest
                }
            },
            _ => false,
        }
    }
}

proof fn lemma_whole(n: nat)
    ensures
        n / pow2(0) == n,
{
    vstd::arithmetic::power2::lemma2_to64();
    assert(pow2(0) == 1);
    assert(n / 1 == n);
}

proof fn lemma_pow2_128()
    ensures
        pow2(128) == u128::MAX + 1,
{
    vstd::arithmetic::power2::lemma_pow2_adds(64, 64);
    vstd::arithmetic::power2::lemma2_to64();
    assert(pow2(64) == 0x1_0000_0000_0000_0000);
    assert(0x1_0000_0000_0000_0000 * 0x1_0000_0000_0000_0000 == u128::MAX + 1)
        by (nonlinear_arith);
}

/// A network contains its own address.
pub proof fn law_net_holds_itself(net: IpNet)
    ensures
        net.holds(net.addr),
{
}

/// A prefix as long as the address names that address alone.
pub proof fn law_full_prefix_is_one_address(net: IpNet, ip: IpAddr)
    requires
        net.prefix >= (if net.addr is V4 {
            32int
        } else {
            128
        }),
    ensures
        net.holds(ip) <==> ip == net.addr,
{
    match (net.addr, ip) {
        (IpAddr::V4(a), IpAddr::V4(b)) => {
            lemma_whole(a.bits as nat);
            lemma_whole(b.bits as nat);
        },
        (IpAddr::V6(a), IpAddr::V6(b)) => {
            lemma_whole(a.bits as nat);
            lemma_whole(b.bits as nat);
        },
        _ => {},
    }
}

/// An empty prefix takes in every address of the family.
pub proof fn law_empty_prefix_is_family(net: IpNet, ip: IpAddr)
    requires
        net.prefix == 0,
        net.addr is V4 <==> ip is V4,
    ensures
        net.holds(ip),
{
    vstd::arithmetic::power2::lemma2_to64();
    lemma_pow2_128();
    match (net.addr, ip) {
        (IpAddr::V4(a), IpAddr::V4(b)) => {
            vstd::arithmetic::div_mod::lemma_basic_div(a.bits as int, pow2(32) as int);
            vstd::arithmetic::div_mod::lemma_basic_div(b.bits as int, pow2(32) as int);
        },
        (IpAddr::V6(a), IpAddr::V6(b)) => {
            vstd::arithmetic::div_mod::lemma_basic_div(a.bits as int, pow2(128) as int);
            vstd::arithmetic::div_mod::lemma_basic_div(b.bits as int, pow2(128) as int);
        },
        _ => {},
    }
}

/// Why a text is no network.
#[derive(Clone, Copy, Debug, PartialEq, Eq, Structural)]
pub enum CidrError {
    /// The address is no IP address.
    Address,
    /// The part after the slash is no number of at most 255.
    Prefix,
}

/// The network that a text names: an address, a slash and a prefix length, or an address alone,
/// which stands for itself.
#[verifier::opaque]
pub open spec fn cidr(s: Seq<char>) -> Result<IpNet, CidrError> {
    match text::first_at(s, '/') {
        Some(i) => match addr::ip_text(s.take(i)) {
            None => Err(CidrError::Address),
            Some(ip) => match text::decimal_number(s.skip(i + 1), 255) {
                None => Err(CidrError::Prefix),
                Some(p) => Ok(IpNet { addr: ip, prefix: p as u8 }),
            },
        },
        None => match addr::ip_text(s) {
            None => Err(CidrError::Address),
            Some(ip) => Ok(
                IpNet {
                    addr: ip,
                    prefix: if ip is V4 {
                        32
                    } else {
                        128
                    },
                },
            ),
        },
    }
}

/// Reads a network.
pub fn parse_cidr(s: &str) -> (r: Result<IpNet, CidrError>)
    ensures
        r == cidr(s@),
{
    reveal(cidr);
    let cs: Vec<char> = text::chars(s);
    let n: usize = cs.len();
    match text::find(cs.as_slice(), '/') {
        Some(i) => {
            let ip: &[char] = slice_subrange(cs.as_slice(), 0, i);
            let prefix: &[char] = slice_subrange(cs.as_slice(), i + 1, n);
            assert(ip@ =~= s@.take(i as int));
            assert(prefix@ =~= s@.skip(i as int + 1));
            match addr::parse_ip(ip) {
                None => Err(CidrError::Address),
                Some(a) => match text::parse_decimal(prefix, 255) {
                    None => Err(CidrError::Prefix),
                    Some(p) => Ok(IpNet { addr: a, prefix: p as u8 }),
                },
            }
        },
        None => match addr::parse_ip(cs.as_slice()) {
            None => Err(CidrError::Address),
            Some(a) => Ok(
                IpNet {
                    addr: a,
                    prefix: if a.is_ipv4() {
                        32
                    } else {
                        128
                    },
                },
            ),
        },
    }
}

/// A network that the validation of a configuration accepts can be read.
pub proof fn law_validated_cidr_is_read(s: Seq<char>)
    requires
        validator::cidr_problem(s) is None,
    ensures
        cidr(s) is Ok,
{
    reveal(cidr);
}

/// What a list of networks reads as: all of them, or the first error.
pub open spec fn cidrs(list: Seq<String>) -> Result<Seq<IpNet>, CidrError>
    decreases list.len(),
{
    if list.len() == 0 {
        Ok(Seq::empty())
    } else {
        match cidrs(list.drop_last()) {
            Err(e) => Err(e),
            Ok(ns) => match cidr(list.last()@) {
                Err(e) => Err(e),
                Ok(n) => Ok(ns.push(n)),
            },
        }
    }
}

proof fn lemma_cidrs_error(list: Seq<String>, k: int)
    requires
        0 <= k <= list.len(),
        cidrs(list.take(k)) is Err,
    ensures
        cidrs(list) == cidrs(list.take(k)),
    decreases list.len() - k,
{
    if k < list.len() {
        assert(list.take(k + 1).drop_last() =~= list.take(k));
        lemma_cidrs_error(list, k + 1);
    } else {
        assert(list.take(k) =~= list);
    }
}

fn parse_cidrs(list: &[String]) -> (r: Result<Vec<IpNet>, CidrError>)
    ensures
        match r {
            Ok(v) => cidrs(list@) == Ok::<Seq<IpNet>, CidrError>(v@),
            Err(e) => cidrs(list@) == Err::<Seq<IpNet>, CidrError>(e),
        },
{
    let n: usize = list.len();
    let mut out: Vec<IpNet> = Vec::new();
    let mut i: usize = 0;
    assert(list@.take(0) =~= Seq::empty());
    while i < n
        invariant
            n == list@.len(),
            i <= n,
            cidrs(list@.take(i as int)) == Ok::<Seq<IpNet>, CidrError>(out@),
        decreases n - i,
    {
        assert(list@.take(i as int + 1).drop_last() =~= list@.take(i as int));
        match parse_cidr(list[i].as_str()) {
            Ok(net) => {
                out.push(net);
            },
            Err(e) => {
                proof {
                    lemma_cidrs_error(list@, i as int + 1);
                }
                return Err(e);
            },
        }
        i = i + 1;
    }
    assert(list@.take(n as int) =~= list@);
    Ok(out)
}

/// Whether one of the networks contains an address.
pub open spec fn any_holds(nets: Seq<IpNet>, ip: IpAddr) -> bool {
    exists|i: int| 0 <= i < nets.len() && (#[trigger] nets[i]).holds(ip)
}

fn any_contains(nets: &Vec<IpNet>, ip: IpAddr) -> (r: bool)
    ensures
        r == any_holds(nets@, ip),
{
    let mut i: usize = 0;
    while i < nets.len()
        invariant
            i <= nets@.len(),
            forall|j: int| 0 <= j < i ==> !(#[trigger] nets@[j]).holds(ip),
        decreases nets@.len() - i,
    {
        if nets[i].contains(ip) {
            return true;
        }
        i = i + 1;
    }
    false
}

/// Whether an address passes: no denied network contains it, and an allowed one does, unless
/// there is none.
pub open spec fn passes(allow: Seq<IpNet>, deny: Seq<IpNet>, ip: IpAddr) -> bool {
    !any_holds(deny, ip) && (allow.len() == 0 || any_holds(allow, ip))
}

/// IP allow and deny lists.
#[derive(Clone, Debug)]
pub struct Acl {
    allow: Vec<IpNet>,
    deny: Vec<IpNet>,
}

impl Default for Acl {
    /// Lists without a network.
    fn default() -> (r: Self)
        ensures
            r.allowed().len() == 0,
            r.denied().len() == 0,
    {
        Acl { allow: Vec::new(), deny: Vec::new() }
    }
}

impl Acl {
    /// The allowed networks.
    pub closed spec fn allowed(&self) -> Seq<IpNet> {
        self.allow@
    }

    /// The denied networks.
    pub closed spec fn denied(&self) -> Seq<IpNet> {
        self.deny@
    }

    /// Reads the lists; an error is the first one of the allow list, or else of the deny list.
    pub fn from_config(allow: &[String], deny: &[String]) -> (r: Result<Self, CidrError>)
        ensures
            match (cidrs(allow@), cidrs(deny@)) {
                (Err(e), _) => r matches Err(f) && f == e,
                (Ok(_), Err(e)) => r matches Err(f) && f == e,
                (Ok(a), Ok(d)) => r matches Ok(acl) && acl.allowed() == a && acl.denied() == d,
            },
    {
        match parse_cidrs(allow) {
            Err(e) => Err(e),
            Ok(a) => match parse_cidrs(deny) {
                Err(e) => Err(e),
                Ok(d) => Ok(Acl { allow: a, deny: d }),
            },
        }
    }

    /// Returns true if the IP is permitted.
    pub fn is_allowed(&self, ip: IpAddr) -> (r: bool)
        ensures
            r == passes(self.allowed(), self.denied(), ip),
    {
        if any_contains(&self.deny, ip) {
            return false;
        }
        if self.allow.len() == 0 {
            return true;
        }
        any_contains(&self.allow, ip)
    }
}

/// Deny wins: an address in a denied network does not pass, whatever is allowed.
pub proof fn law_deny_wins(allow: Seq<IpNet>, deny: Seq<IpNet>, ip: IpAddr, k: int)
    requires
        0 <= k < deny.len(),
        deny[k].holds(ip),
    ensures
        !passes(allow, deny, ip),
{
}

/// Lists that the validation of a configuration accepts can be read.
pub proof fn law_validated_lists_are_read(list: Seq<String>, kind: validator::CidrList)
    requires
        validator::first_bad_cidr(list, kind) is None,
    ensures
        cidrs(list) is Ok,
    decreases list.len(),
{
    if list.len() > 0 {
        law_validated_lists_are_read(list.drop_last(), kind);
        law_validated_cidr_is_read(list.last()@);
    }
}

/// A map in which a name has at least the given value to fall back on.
pub open spec fn with_default(
    m: Map<Seq<char>, Seq<Seq<u8>>>,
    name: Seq<char>,
    value: Seq<char>,
) -> Map<Seq<char>, Seq<Seq<u8>>> {
    if m.dom().contains(text::lowered(name)) {
        m
    } else {
        m.insert(text::lowered(name), seq![utf8::encode_utf8(value)])
    }
}

/// A map with the security headers, each where the map does not have it.
pub open spec fn secured(m: Map<Seq<char>, Seq<Seq<u8>>>) -> Map<Seq<char>, Seq<Seq<u8>>> {
    let m = with_default(m, "X-Content-Type-Options"@, "nosniff"@);
    let m = with_default(m, "X-Frame-Options"@, "SAMEORIGIN"@);
    let m = with_default(m, "Referrer-Policy"@, "strict-origin-when-cross-origin"@);
    let m = with_default(m, "X-XSS-Protection"@, "0"@);
    with_default(m, "Permissions-Policy"@, "geolocation=(), microphone=(), camera=()"@)
}

/// Puts a field into a map that does not have its name.
fn put_default(m: &mut http::HeaderMap<http::HeaderValue>, name: &str, value: &str) -> (r: bool)
    requires
        headers::is_name(name@),
        headers::is_value(utf8::encode_utf8(value@)),
    ensures
        r ==> headers::fields(*final(m)) == with_default(
            headers::fields(*old(m)),
            name@,
            value@,
        ),
        !r ==> headers::fields(*final(m)) == headers::fields(*old(m)) && !headers::fits(
            headers::fields(*old(m)),
            1,
        ),
{
    if headers::contains(m, name) {
        return true;
    }
    match headers::insert(m, name, value.as_bytes()) {
        Put::Done => true,
        _ => false,
    }
}

pub proof fn lemma_plain_value(s: Seq<char>)
    requires
        forall|i: int| 0 <= i < s.len() ==> ' ' <= #[trigger] s[i] && s[i] <= '~',
    ensures
        headers::is_value(utf8::encode_utf8(s)),
{
    assert(utf8::is_ascii_chars(s));
    utf8::is_ascii_chars_encode_utf8(s);
}

proof fn lemma_with_default_fits(
    m: Map<Seq<char>, Seq<Seq<u8>>>,
    name: Seq<char>,
    value: Seq<char>,
    k: nat,
)
    requires
        headers::fits(m, k + 1),
    ensures
        headers::fits(with_default(m, name, value), k),
{
}

/// The security headers are five names at most.
pub proof fn lemma_secured_fits(m: Map<Seq<char>, Seq<Seq<u8>>>, k: nat)
    requires
        headers::fits(m, k + 5),
    ensures
        headers::fits(secured(m), k),
{
    lemma_with_default_fits(m, "X-Content-Type-Options"@, "nosniff"@, k + 4);
    let m1 = with_default(m, "X-Content-Type-Options"@, "nosniff"@);
    lemma_with_default_fits(m1, "X-Frame-Options"@, "SAMEORIGIN"@, k + 3);
    let m2 = with_default(m1, "X-Frame-Options"@, "SAMEORIGIN"@);
    lemma_with_default_fits(m2, "Referrer-Policy"@, "strict-origin-when-cross-origin"@, k + 2);
    let m3 = with_default(m2, "Referrer-Policy"@, "strict-origin-when-cross-origin"@);
    lemma_with_default_fits(m3, "X-XSS-Protection"@, "0"@, k + 1);
    let m4 = with_default(m3, "X-XSS-Protection"@, "0"@);
    lemma_with_default_fits(
        m4,
        "Permissions-Policy"@,
        "geolocation=(), microphone=(), camera=()"@,
        k,
    );
}

/// Baseline security headers (OWASP-ish, reverse-proxy safe), each where the map does not have it.
///
/// It fails only on a map without room for five more names.
pub fn apply_security_headers(m: &mut http::HeaderMap<http::HeaderValue>) -> (r: bool)
    ensures
        r ==> headers::fields(*final(m)) == secured(headers::fields(*old(m))),
        headers::fits(headers::fields(*old(m)), 5) ==> r,
        forall|n: Seq<char>| #[trigger]
            headers::fields(*old(m)).dom().contains(n) ==> headers::fields(
                *final(m),
            ).dom().contains(n) && headers::fields(*final(m))[n] == headers::fields(*old(m))[n],
{
    let ghost m0 = headers::fields(*m);
    proof {
        lemma_security_headers();
        if headers::fits(m0, 5) {
            lemma_with_default_fits(m0, "X-Content-Type-Options"@, "nosniff"@, 4);
            let m1 = with_default(m0, "X-Content-Type-Options"@, "nosniff"@);
            lemma_with_default_fits(m1, "X-Frame-Options"@, "SAMEORIGIN"@, 3);
            let m2 = with_default(m1, "X-Frame-Options"@, "SAMEORIGIN"@);
            lemma_with_default_fits(
                m2,
                "Referrer-Policy"@,
                "strict-origin-when-cross-origin"@,
                2,
            );
            let m3 = with_default(m2, "Referrer-Policy"@, "strict-origin-when-cross-origin"@);
            lemma_with_default_fits(m3, "X-XSS-Protection"@, "0"@, 1);
        }
    }
    put_default(m, "X-Content-Type-Options", "nosniff") && put_default(
        m,
        "X-Frame-Options",
        "SAMEORIGIN",
    ) && put_default(m, "Referrer-Policy", "strict-origin-when-cross-origin") && put_default(
        m,
        "X-XSS-Protection",
        "0",
    ) && put_default(m, "Permissions-Policy", "geolocation=(), microphone=(), camera=()")
}

/// The security headers are header fields.
proof fn lemma_security_headers()
    ensures
        headers::is_name("X-Content-Type-Options"@),
        headers::is_name("X-Frame-Options"@),
        headers::is_name("Referrer-Policy"@),
        headers::is_name("X-XSS-Protection"@),
        headers::is_name("Permissions-Policy"@),
        headers::is_value(utf8::encode_utf8("nosniff"@)),
        headers::is_value(utf8::encode_utf8("SAMEORIGIN"@)),
        headers::is_value(utf8::encode_utf8("strict-origin-when-cross-origin"@)),
        headers::is_value(utf8::encode_utf8("0"@)),
        headers::is_value(utf8::encode_utf8("geolocation=(), microphone=(), camera=()"@)),
{
    reveal_strlit("X-Content-Type-Options");
    reveal_strlit("X-Frame-Options");
    reveal_strlit("Referrer-Policy");
    reveal_strlit("X-XSS-Protection");
    reveal_strlit("Permissions-Policy");
    reveal_strlit("nosniff");
    reveal_strlit("SAMEORIGIN");
    reveal_strlit("strict-origin-when-cross-origin");
    reveal_strlit("0");
    reveal_strlit("geolocation=(), microphone=(), camera=()");
    lemma_plain_value("nosniff"@);
    lemma_plain_value("SAMEORIGIN"@);
    lemma_plain_value("strict-origin-when-cross-origin"@);
    lemma_plain_value("0"@);
    lemma_plain_value("geolocation=(), microphone=(), camera=()"@);
}

/// The security headers replace no header that a response already has.
pub proof fn law_security_headers_replace_nothing(
    m: Map<Seq<char>, Seq<Seq<u8>>>,
    name: Seq<char>,
)
    requires
        m.dom().contains(name),
    ensures
        secured(m).dom().contains(name),
        secured(m)[name] == m[name],
{
}

/// With the security headers in place, putting them there again changes nothing.
pub proof fn law_security_headers_idempotent(m: Map<Seq<char>, Seq<Seq<u8>>>)
    ensures
        secured(secured(m)) == secured(m),
{
}

/// Every allowed network counts: an address that one of them contains passes, wherever in the list
/// the network stands, if no denied network contains it.
pub proof fn law_allowed_network_admits(
    allow: Seq<IpNet>,
    deny: Seq<IpNet>,
    ip: IpAddr,
    k: int,
)
    requires
        0 <= k < allow.len(),
        allow[k].holds(ip),
        forall|j: int| 0 <= j < deny.len() ==> !(#[trigger] deny[j]).holds(ip),
    ensures
        passes(allow, deny, ip),
{
}

/// Where networks are allowed, an address outside all of them does not pass.
pub proof fn law_outside_the_allowed(allow: Seq<IpNet>, deny: Seq<IpNet>, ip: IpAddr)
    requires
        allow.len() > 0,
        forall|k: int| 0 <= k < allow.len() ==> !(#[trigger] allow[k]).holds(ip),
    ensures
        !passes(allow, deny, ip),
{
}

/// Where no network is allowed by name, every address passes that no denied network contains.
pub proof fn law_nothing_named_allows_all(deny: Seq<IpNet>, ip: IpAddr)
    requires
        forall|j: int| 0 <= j < deny.len() ==> !(#[trigger] deny[j]).holds(ip),
    ensures
        passes(Seq::empty(), deny, ip),
{
}

/// Numbers with the same quotient are those of one block.
proof fn lemma_one_block(a: nat, b: nat, size: nat)
    requires
        size > 0,
    ensures
        a / size == b / size <==> a - a % size <= b < a - a % size + size,
{
    let q = (a / size) as int;
    let base = size * q;
    vstd::arithmetic::div_mod::lemma_fundamental_div_mod(a as int, size as int);
    vstd::arithmetic::div_mod::lemma_fundamental_div_mod(b as int, size as int);
    assert(base == q * size) by (nonlinear_arith)
        requires
            base == size * q,
    ;
    if base <= b < base + size {
        vstd::arithmetic::div_mod::lemma_fundamental_div_mod_converse(
            b as int,
            size as int,
            q,
            b - base,
        );
    }
}

/// A network of IPv4 addresses is a block of them: as many as the bits behind the prefix make,
/// beginning at the network's own address with those bits zero. It holds no IPv6 address.
pub proof fn law_v4_net_is_a_block(net: IpNet, ip: IpAddr)
    requires
        net.addr is V4,
        net.prefix <= 32,
    ensures
        net.holds(ip) <==> match (net.addr, ip) {
            (IpAddr::V4(a), IpAddr::V4(b)) => {
                let size = pow2((32 - net.prefix) as nat);
                a.bits - a.bits as nat % size <= b.bits < a.bits - a.bits as nat % size + size
            },
            _ => false,
        },
{
    match (net.addr, ip) {
        (IpAddr::V4(a), IpAddr::V4(b)) => {
            let rest = (32 - net.prefix) as nat;
            vstd::arithmetic::power2::lemma_pow2_pos(rest);
            lemma_one_block(a.bits as nat, b.bits as nat, pow2(rest));
        },
        _ => {},
    }
}

/// A network of IPv6 addresses is a block of them: as many as the bits behind the prefix make,
/// beginning at the network's own address with those bits zero. It holds no IPv4 address.
pub proof fn law_v6_net_is_a_block(net: IpNet, ip: IpAddr)
    requires
        net.addr is V6,
        net.prefix <= 128,
    ensures
        net.holds(ip) <==> match (net.addr, ip) {
            (IpAddr::V6(a), IpAddr::V6(b)) => {
                let size = pow2((128 - net.prefix) as nat);
                a.bits - a.bits as nat % size <= b.bits < a.bits - a.bits as nat % size + size
            },
            _ => false,
        },
{
    match (net.addr, ip) {
        (IpAddr::V6(a), IpAddr::V6(b)) => {
            let rest = (128 - net.prefix) as nat;
            vstd::arithmetic::power2::lemma_pow2_pos(rest);
            lemma_one_block(a.bits as nat, b.bits as nat, pow2(rest));
        },
        _ => {},
    }
}

/// What follows the first slash of a text.
proof fn lemma_slash(a: Seq<char>, b: Seq<char>)
    requires
        !a.contains('/'),
    ensures
        text::first_at(a + seq!['/'] + b, '/') == Some(a.len() as int),
        (a + seq!['/'] + b).take(a.len() as int) == a,
        (a + seq!['/'] + b).skip(a.len() as int + 1) == b,
{
    let s = a + seq!['/'] + b;
    text::lemma_first_at(s, '/');
    assert(s[a.len() as int] == '/');
    assert forall|j: int| 0 <= j < a.len() implies s[j] != '/' by {
        assert(s[j] == a[j]);
        assert(a.contains(a[j]));
    }
    assert(s.take(a.len() as int) =~= a);
    assert(s.skip(a.len() as int + 1) =~= b);
}

/// A network is written as an address, a slash and how many bits count, and reads as both.
pub proof fn law_cidr_is_read(a: Seq<char>, ip: IpAddr, n: u8)
    requires
        addr::ip_text(a) == Some(ip),
    ensures
        cidr(a + seq!['/'] + text::decimal(n as nat)) == Ok::<IpNet, CidrError>(
            IpNet { addr: ip, prefix: n },
        ),
{
    reveal(cidr);
    if a.contains('/') {
        addr::law_address_characters(a, '/');
    }
    lemma_slash(a, text::decimal(n as nat));
    text::law_decimal_round_trip(n as nat, 255);
}

/// An address alone reads as the network that holds it and no other.
pub proof fn law_address_is_a_cidr(a: Seq<char>, ip: IpAddr, other: IpAddr)
    requires
        addr::ip_text(a) == Some(ip),
    ensures
        cidr(a) matches Ok(net) && net.addr == ip && (net.holds(other) <==> other == ip),
{
    reveal(cidr);
    if a.contains('/') {
        addr::law_address_characters(a, '/');
    }
    text::lemma_first_at(a, '/');
    assert(text::first_at(a, '/') is None) by {
        match text::first_at(a, '/') {
            Some(i) => {
                assert(a.contains(a[i]));
            },
            None => {},
        }
    }
    law_full_prefix_is_one_address(cidr(a)->Ok_0, other);
}

/// What is no network, and why: the text before the first slash is no address, or what follows it
/// is no number of at most 255.
pub proof fn law_cidr_refusals(a: Seq<char>, b: Seq<char>)
    requires
        !a.contains('/'),
    ensures
        addr::ip_text(a) is None ==> cidr(a) == Err::<IpNet, CidrError>(CidrError::Address)
            && cidr(a + seq!['/'] + b) == Err::<IpNet, CidrError>(CidrError::Address),
        addr::ip_text(a) is Some && text::decimal_number(b, 255) is None ==> cidr(
            a + seq!['/'] + b,
        ) == Err::<IpNet, CidrError>(CidrError::Prefix),
{
    reveal(cidr);
    lemma_slash(a, b);
    text::lemma_first_at(a, '/');
    assert(text::first_at(a, '/') is None) by {
        match text::first_at(a, '/') {
            Some(i) => {
                assert(a.contains(a[i]));
            },
            None => {},
        }
    }
}

/// A list is read whole, each network at its own place; or it is refused for the first of its
/// entries that is no network.
pub proof fn law_cidrs(list: Seq<String>)
    ensures
        match cidrs(list) {
            Ok(ns) => ns.len() == list.len() && forall|i: int|
                0 <= i < list.len() ==> cidr((#[trigger] list[i])@) == Ok::<IpNet, CidrError>(
                    ns[i],
                ),
            Err(e) => exists|k: int|
                0 <= k < list.len() && cidr((#[trigger] list[k])@) == Err::<IpNet, CidrError>(e)
                    && forall|i: int| 0 <= i < k ==> cidr((#[trigger] list[i])@) is Ok,
        },
    decreases list.len(),
{
    if list.len() > 0 {
        let p = list.drop_last();
        law_cidrs(p);
        assert(forall|i: int| 0 <= i < p.len() ==> #[trigger] list[i] == p[i]);
        match cidrs(p) {
            Ok(ns) => {
                match cidr(list.last()@) {
                    Ok(n) => {},
                    Err(e) => {
                        let k = list.len() - 1;
                        assert(cidr(list[k]@) == Err::<IpNet, CidrError>(e));
                    },
                }
            },
            Err(e) => {
                let k = choose|k: int|
                    0 <= k < p.len() && cidr((#[trigger] p[k])@) == Err::<IpNet, CidrError>(e)
                        && forall|i: int| 0 <= i < k ==> cidr((#[trigger] p[i])@) is Ok;
                assert(list[k] == p[k]);
            },
        }
    }
}

/// The five security headers in the lower-case form of their names.
pub proof fn lemma_security_names()
    ensures
        text::lowered("X-Content-Type-Options"@) == "x-content-type-options"@,
        text::lowered("X-Frame-Options"@) == "x-frame-options"@,
        text::lowered("Referrer-Policy"@) == "referrer-policy"@,
        text::lowered("X-XSS-Protection"@) == "x-xss-protection"@,
        text::lowered("Permissions-Policy"@) == "permissions-policy"@,
        "x-content-type-options"@.len() == 22,
        "x-frame-options"@.len() == 15,
        "referrer-policy"@.len() == 15,
        "x-xss-protection"@.len() == 16,
        "permissions-policy"@.len() == 18,
        "x-frame-options"@[0] == 'x',
        "referrer-policy"@[0] == 'r',
{
    reveal_strlit("X-Content-Type-Options");
    reveal_strlit("X-Frame-Options");
    reveal_strlit("Referrer-Policy");
    reveal_strlit("X-XSS-Protection");
    reveal_strlit("Permissions-Policy");
    reveal_strlit("x-content-type-options");
    reveal_strlit("x-frame-options");
    reveal_strlit("referrer-policy");
    reveal_strlit("x-xss-protection");
    reveal_strlit("permissions-policy");
    assert(text::lowered("X-Content-Type-Options"@) =~= "x-content-type-options"@);
    assert(text::lowered("X-Frame-Options"@) =~= "x-frame-options"@);
    assert(text::lowered("Referrer-Policy"@) =~= "referrer-policy"@);
    assert(text::lowered("X-XSS-Protection"@) =~= "x-xss-protection"@);
    assert(text::lowered("Permissions-Policy"@) =~= "permissions-policy"@);
}

/// A response that has none of the security headers gets all five with their values, and one that
/// has some of them gets the others. Nothing else comes to it.
pub proof fn law_security_headers(m: Map<Seq<char>, Seq<Seq<u8>>>, name: Seq<char>)
    ensures
        !m.dom().contains(name) ==> {
            let s = secured(m);
            if name == "x-content-type-options"@ {
                s.dom().contains(name) && s[name] == seq![utf8::encode_utf8("nosniff"@)]
            } else if name == "x-frame-options"@ {
                s.dom().contains(name) && s[name] == seq![utf8::encode_utf8("SAMEORIGIN"@)]
            } else if name == "referrer-policy"@ {
                s.dom().contains(name) && s[name] == seq![
                    utf8::encode_utf8("strict-origin-when-cross-origin"@),
                ]
            } else if name == "x-xss-protection"@ {
                s.dom().contains(name) && s[name] == seq![utf8::encode_utf8("0"@)]
            } else if name == "permissions-policy"@ {
                s.dom().contains(name) && s[name] == seq![
                    utf8::encode_utf8("geolocation=(), microphone=(), camera=()"@),
                ]
            } else {
                !s.dom().contains(name)
            }
        },
{
    lemma_security_names();
}

} // verus!
