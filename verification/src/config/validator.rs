//! What a configuration must satisfy before the proxy runs with it.

use crate::addr;
use crate::config::{AclConfig, Config, RateLimitConfigYaml, RouteConfig, Upstream};
use crate::text;
use crate::uri;
use crate::uri::UriParts;
use vstd::prelude::*;
use vstd::slice::slice_subrange;

verus! {

/// What is wrong with an upstream.
#[derive(Clone, Copy, Debug, PartialEq, Eq, Structural)]
pub enum UpstreamProblem {
    EmptyAddress,
    ZeroWeight,
    InvalidUri,
    /// The scheme is neither `http` nor `https`.
    Scheme,
    NoHost,
}

/// What is wrong with a CIDR.
#[derive(Clone, Copy, Debug, PartialEq, Eq, Structural)]
pub enum CidrProblem {
    /// The part before the slash is no IP address.
    Address,
    /// The part after the slash is no number of at most 255.
    Prefix,
    /// The prefix length is above 128.
    PrefixRange,
    /// There is no slash, and the text is no IP address.
    AddressOrCidr,
}

/// The list in which a CIDR stands.
#[derive(Clone, Copy, Debug, PartialEq, Eq, Structural)]
pub enum CidrList {
    Allow,
    Deny,
    Trusted,
}

/// Why a configuration is refused.
#[derive(Clone, Copy, Debug, PartialEq, Eq, Structural)]
pub enum ConfigError {
    /// Neither upstreams nor routes.
    NothingToServe,
    Upstream { index: usize, problem: UpstreamProblem },
    RouteWithoutUpstream { route: usize },
    RouteWithoutPrefix { route: usize },
    RouteUpstream { route: usize, index: usize, problem: UpstreamProblem },
    HealthInterval,
    HealthTimeout,
    /// The health timeout is more than ten intervals.
    HealthRatio,
    Timeouts,
    MaxBody,
    RateLimitRps,
    RateLimitBurst,
    CertMissing,
    KeyMissing,
    Cidr { list: CidrList, position: usize, cause: CidrProblem },
}

/// What is wrong with an upstream, given what its address reads as.
pub open spec fn upstream_verdict(
    u: Upstream,
    parts: Option<(Option<Seq<char>>, Option<Seq<char>>)>,
) -> Option<UpstreamProblem> {
    if u.address@.len() == 0 {
        Some(UpstreamProblem::EmptyAddress)
    } else if u.weight == 0 {
        Some(UpstreamProblem::ZeroWeight)
    } else {
        match parts {
            None => Some(UpstreamProblem::InvalidUri),
            Some((scheme, host)) => if scheme != Some("http"@) && scheme != Some("https"@) {
                Some(UpstreamProblem::Scheme)
            } else if host is None {
                Some(UpstreamProblem::NoHost)
            } else {
                None
            },
        }
    }
}

/// What is wrong with an upstream.
pub open spec fn upstream_problem(u: Upstream) -> Option<UpstreamProblem> {
    upstream_verdict(u, uri::uri_parts(u.address@))
}

fn is_text(s: &Option<String>, t: &str) -> (r: bool)
    ensures
        r == (text::opt_string(*s) == Some(t@)),
{
    match s {
        Some(x) => text::same_str(x.as_str(), t),
        None => false,
    }
}

/// Judges an upstream by its fields and by what its address reads as.
pub fn judge_upstream(u: &Upstream, parts: &Option<UriParts>) -> (r: Option<UpstreamProblem>)
    ensures
        r == upstream_verdict(
            *u,
            match *parts {
                Some(p) => Some(p.parts()),
                None => None,
            },
        ),
{
    if u.address.as_str().is_empty() {
        return Some(UpstreamProblem::EmptyAddress);
    }
    if u.weight == 0 {
        return Some(UpstreamProblem::ZeroWeight);
    }
    match parts {
        None => Some(UpstreamProblem::InvalidUri),
        Some(p) => if !is_text(&p.scheme, "http") && !is_text(&p.scheme, "https") {
            Some(UpstreamProblem::Scheme)
        } else if p.host.is_none() {
            Some(UpstreamProblem::NoHost)
        } else {
            None
        },
    }
}

/// Checks an upstream: an `http` or `https` URI with a host, and a weight above zero.
pub fn validate_upstream(u: &Upstream) -> (r: Option<UpstreamProblem>)
    ensures
        r == upstream_problem(*u),
{
    let parts: Option<UriParts> = uri::read_uri(u.address.as_str());
    judge_upstream(u, &parts)
}

/// The first upstream of a list that has a problem.
pub open spec fn first_bad_upstream(us: Seq<Upstream>) -> Option<(int, UpstreamProblem)>
    decreases us.len(),
{
    if us.len() == 0 {
        None
    } else if first_bad_upstream(us.drop_last()) is Some {
        first_bad_upstream(us.drop_last())
    } else {
        match upstream_problem(us.last()) {
            Some(p) => Some((us.len() - 1, p)),
            None => None,
        }
    }
}

/// A problem early in a list stays the first one of the whole list.
proof fn lemma_first_bad_upstream(us: Seq<Upstream>, k: int)
    requires
        0 <= k <= us.len(),
        first_bad_upstream(us.take(k)) is Some,
    ensures
        first_bad_upstream(us) == first_bad_upstream(us.take(k)),
    decreases us.len() - k,
{
    if k < us.len() {
        assert(us.take(k + 1).drop_last() =~= us.take(k));
        lemma_first_bad_upstream(us, k + 1);
    } else {
        assert(us.take(k) =~= us);
    }
}

fn check_upstreams(us: &Vec<Upstream>) -> (r: Option<(usize, UpstreamProblem)>)
    ensures
        match first_bad_upstream(us@) {
            Some((i, p)) => r == Some((i as usize, p)) && 0 <= i < us@.len(),
            None => r is None,
        },
{
    let mut i: usize = 0;
    assert(us@.take(0) =~= Seq::empty());
    while i < us.len()
        invariant
            i <= us@.len(),
            first_bad_upstream(us@.take(i as int)) is None,
        decreases us@.len() - i,
    {
        proof {
            assert(us@.take(i as int + 1).drop_last() =~= us@.take(i as int));
        }
        match validate_upstream(&us[i]) {
            Some(p) => {
                proof {
                    lemma_first_bad_upstream(us@, i as int + 1);
                }
                return Some((i, p));
            },
            None => {},
        }
        i = i + 1;
    }
    assert(us@.take(us@.len() as int) =~= us@);
    None
}

/// What is wrong with the route at position `k`.
pub open spec fn route_error(r: RouteConfig, k: int) -> Option<ConfigError> {
    if r.upstreams@.len() == 0 {
        Some(ConfigError::RouteWithoutUpstream { route: k as usize })
    } else if r.path_prefix@.len() == 0 {
        Some(ConfigError::RouteWithoutPrefix { route: k as usize })
    } else {
        match first_bad_upstream(r.upstreams@) {
            Some((i, p)) => Some(
                ConfigError::RouteUpstream { route: k as usize, index: i as usize, problem: p },
            ),
            None => None,
        }
    }
}

/// What is wrong with the first bad route.
pub open spec fn first_route_error(rs: Seq<RouteConfig>) -> Option<ConfigError>
    decreases rs.len(),
{
    if rs.len() == 0 {
        None
    } else if first_route_error(rs.drop_last()) is Some {
        first_route_error(rs.drop_last())
    } else {
        route_error(rs.last(), rs.len() - 1)
    }
}

proof fn lemma_first_route_error(rs: Seq<RouteConfig>, k: int)
    requires
        0 <= k <= rs.len(),
        first_route_error(rs.take(k)) is Some,
    ensures
        first_route_error(rs) == first_route_error(rs.take(k)),
    decreases rs.len() - k,
{
    if k < rs.len() {
        assert(rs.take(k + 1).drop_last() =~= rs.take(k));
        lemma_first_route_error(rs, k + 1);
    } else {
        assert(rs.take(k) =~= rs);
    }
}

fn check_route(r: &RouteConfig, k: usize) -> (e: Option<ConfigError>)
    ensures
        e == route_error(*r, k as int),
{
    if r.upstreams.len() == 0 {
        return Some(ConfigError::RouteWithoutUpstream { route: k });
    }
    if r.path_prefix.as_str().is_empty() {
        return Some(ConfigError::RouteWithoutPrefix { route: k });
    }
    match check_upstreams(&r.upstreams) {
        Some((i, p)) => Some(ConfigError::RouteUpstream { route: k, index: i, problem: p }),
        None => None,
    }
}

fn check_routes(rs: &Vec<RouteConfig>) -> (r: Option<ConfigError>)
    ensures
        r == first_route_error(rs@),
{
    let mut i: usize = 0;
    assert(rs@.take(0) =~= Seq::empty());
    while i < rs.len()
        invariant
            i <= rs@.len(),
            first_route_error(rs@.take(i as int)) is None,
        decreases rs@.len() - i,
    {
        proof {
            assert(rs@.take(i as int + 1).drop_last() =~= rs@.take(i as int));
        }
        let e: Option<ConfigError> = check_route(&rs[i], i);
        if e.is_some() {
            proof {
                lemma_first_route_error(rs@, i as int + 1);
            }
            return e;
        }
        i = i + 1;
    }
    assert(rs@.take(rs@.len() as int) =~= rs@);
    None
}

/// What is wrong with a CIDR: an address, a slash and a prefix length of at most 128, or an
/// address alone.
pub open spec fn cidr_problem(s: Seq<char>) -> Option<CidrProblem> {
    match text::first_at(s, '/') {
        Some(i) => if addr::ip_text(s.take(i)) is None {
            Some(CidrProblem::Address)
        } else {
            match text::decimal_number(s.skip(i + 1), 255) {
                None => Some(CidrProblem::Prefix),
                Some(p) => if p > 128 {
                    Some(CidrProblem::PrefixRange)
                } else {
                    None
                },
            }
        },
        None => if addr::ip_text(s) is None {
            Some(CidrProblem::AddressOrCidr)
        } else {
            None
        },
    }
}

/// Checks a CIDR.
pub fn validate_cidr(s: &str) -> (r: Option<CidrProblem>)
    ensures
        r == cidr_problem(s@),
{
    let cs: Vec<char> = text::chars(s);
    let n: usize = cs.len();
    match text::find(cs.as_slice(), '/') {
        Some(i) => {
            let ip: &[char] = slice_subrange(cs.as_slice(), 0, i);
            let prefix: &[char] = slice_subrange(cs.as_slice(), i + 1, n);
            assert(ip@ =~= s@.take(i as int));
            assert(prefix@ =~= s@.skip(i as int + 1));
            if addr::parse_ip(ip).is_none() {
                return Some(CidrProblem::Address);
            }
            match text::parse_decimal(prefix, 255) {
                None => Some(CidrProblem::Prefix),
                Some(p) => if p > 128 {
                    Some(CidrProblem::PrefixRange)
                } else {
                    None
                },
            }
        },
        None => if addr::parse_ip(cs.as_slice()).is_none() {
            Some(CidrProblem::AddressOrCidr)
        } else {
            None
        },
    }
}

/// The first bad CIDR of a list.
pub open spec fn first_bad_cidr(cs: Seq<String>, list: CidrList) -> Option<ConfigError>
    decreases cs.len(),
{
    if cs.len() == 0 {
        None
    } else if first_bad_cidr(cs.drop_last(), list) is Some {
        first_bad_cidr(cs.drop_last(), list)
    } else {
        match cidr_problem(cs.last()@) {
            Some(cause) => Some(
                ConfigError::Cidr { list, position: (cs.len() - 1) as usize, cause },
            ),
            None => None,
        }
    }
}

proof fn lemma_first_bad_cidr(cs: Seq<String>, list: CidrList, k: int)
    requires
        0 <= k <= cs.len(),
        first_bad_cidr(cs.take(k), list) is Some,
    ensures
        first_bad_cidr(cs, list) == first_bad_cidr(cs.take(k), list),
    decreases cs.len() - k,
{
    if k < cs.len() {
        assert(cs.take(k + 1).drop_last() =~= cs.take(k));
        lemma_first_bad_cidr(cs, list, k + 1);
    } else {
        assert(cs.take(k) =~= cs);
    }
}

fn check_cidrs(cs: &Vec<String>, list: CidrList) -> (r: Option<ConfigError>)
    ensures
        r == first_bad_cidr(cs@, list),
{
    let mut i: usize = 0;
    assert(cs@.take(0) =~= Seq::empty());
    while i < cs.len()
        invariant
            i <= cs@.len(),
            first_bad_cidr(cs@.take(i as int), list) is None,
        decreases cs@.len() - i,
    {
        proof {
            assert(cs@.take(i as int + 1).drop_last() =~= cs@.take(i as int));
        }
        match validate_cidr(cs[i].as_str()) {
            Some(cause) => {
                proof {
                    lemma_first_bad_cidr(cs@, list, i as int + 1);
                }
                return Some(ConfigError::Cidr { list, position: i, cause });
            },
            None => {},
        }
        i = i + 1;
    }
    assert(cs@.take(cs@.len() as int) =~= cs@);
    None
}

/// Whether the bits are those of a double that is zero or below: not a positive number, and not
/// a NaN.
pub open spec fn at_most_zero(bits: u64) -> bool {
    bits == 0 || (bits >= 0x8000_0000_0000_0000 && bits - 0x8000_0000_0000_0000
        <= 0x7FF0_0000_0000_0000)
}

/// What is wrong with the numbers of a configuration.
pub open spec fn number_error(c: Config) -> Option<ConfigError> {
    if c.health_check.interval_secs == 0 {
        Some(ConfigError::HealthInterval)
    } else if c.health_check.timeout_secs == 0 {
        Some(ConfigError::HealthTimeout)
    } else if c.health_check.timeout_secs > c.health_check.interval_secs * 10 {
        Some(ConfigError::HealthRatio)
    } else if c.timeouts.connect_secs == 0 || c.timeouts.request_secs == 0 {
        Some(ConfigError::Timeouts)
    } else if c.max_body_bytes == 0 {
        Some(ConfigError::MaxBody)
    } else {
        match c.rate_limit {
            Some(rl) => if rl.rps == 0 {
                Some(ConfigError::RateLimitRps)
            } else if at_most_zero(rl.burst_bits) {
                Some(ConfigError::RateLimitBurst)
            } else {
                None
            },
            None => None,
        }
    }
}

/// What is wrong with the address lists of a configuration.
pub open spec fn list_error(c: Config) -> Option<ConfigError> {
    let acl = match c.acl {
        Some(a) => if first_bad_cidr(a.allow@, CidrList::Allow) is Some {
            first_bad_cidr(a.allow@, CidrList::Allow)
        } else {
            first_bad_cidr(a.deny@, CidrList::Deny)
        },
        None => None,
    };
    if acl is Some {
        acl
    } else {
        first_bad_cidr(c.proxy_protocol_trusted_cidrs@, CidrList::Trusted)
    }
}

/// The reason why a configuration is refused, if there is one; the first in this order. The two
/// flags tell whether the files that the TLS part names exist.
pub open spec fn config_error(c: Config, cert_exists: bool, key_exists: bool) -> Option<
    ConfigError,
> {
    if c.upstreams@.len() == 0 && c.routes@.len() == 0 {
        Some(ConfigError::NothingToServe)
    } else if first_bad_upstream(c.upstreams@) is Some {
        let (i, problem) = first_bad_upstream(c.upstreams@)->0;
        Some(ConfigError::Upstream { index: i as usize, problem })
    } else if first_route_error(c.routes@) is Some {
        first_route_error(c.routes@)
    } else if number_error(c) is Some {
        number_error(c)
    } else if c.tls is Some && !cert_exists {
        Some(ConfigError::CertMissing)
    } else if c.tls is Some && !key_exists {
        Some(ConfigError::KeyMissing)
    } else {
        list_error(c)
    }
}

fn check_numbers(c: &Config) -> (r: Option<ConfigError>)
    requires
        c.health_check.interval_secs * 10 <= u64::MAX,
    ensures
        r == number_error(*c),
{
    if c.health_check.interval_secs == 0 {
        return Some(ConfigError::HealthInterval);
    }
    if c.health_check.timeout_secs == 0 {
        return Some(ConfigError::HealthTimeout);
    }
    if c.health_check.timeout_secs > c.health_check.interval_secs * 10 {
        return Some(ConfigError::HealthRatio);
    }
    if c.timeouts.connect_secs == 0 || c.timeouts.request_secs == 0 {
        return Some(ConfigError::Timeouts);
    }
    if c.max_body_bytes == 0 {
        return Some(ConfigError::MaxBody);
    }
    match &c.rate_limit {
        Some(rl) => {
            let bits: u64 = rl.burst_bits;
            if rl.rps == 0 {
                Some(ConfigError::RateLimitRps)
            } else if bits == 0 || (bits >= 0x8000_0000_0000_0000 && bits - 0x8000_0000_0000_0000
                <= 0x7FF0_0000_0000_0000) {
                Some(ConfigError::RateLimitBurst)
            } else {
                None
            }
        },
        None => None,
    }
}

fn check_lists(c: &Config) -> (r: Option<ConfigError>)
    ensures
        r == list_error(*c),
{
    match &c.acl {
        Some(a) => {
            let e: Option<ConfigError> = check_cidrs(&a.allow, CidrList::Allow);
            if e.is_some() {
                return e;
            }
            let e: Option<ConfigError> = check_cidrs(&a.deny, CidrList::Deny);
            if e.is_some() {
                return e;
            }
        },
        None => {},
    }
    check_cidrs(&c.proxy_protocol_trusted_cidrs, CidrList::Trusted)
}

/// Checks a configuration; the two flags tell whether the files that its TLS part names exist.
pub fn validate(config: &Config, cert_exists: bool, key_exists: bool) -> (r: Result<
    (),
    ConfigError,
>)
    requires
        config.health_check.interval_secs * 10 <= u64::MAX,
    ensures
        match config_error(*config, cert_exists, key_exists) {
            Some(e) => r == Err::<(), ConfigError>(e),
            None => r == Ok::<(), ConfigError>(()),
        },
{
    if config.upstreams.len() == 0 && config.routes.len() == 0 {
        return Err(ConfigError::NothingToServe);
    }
    match check_upstreams(&config.upstreams) {
        Some((index, problem)) => return Err(ConfigError::Upstream { index, problem }),
        None => {},
    }
    match check_routes(&config.routes) {
        Some(e) => return Err(e),
        None => {},
    }
    match check_numbers(config) {
        Some(e) => return Err(e),
        None => {},
    }
    if config.tls.is_some() && !cert_exists {
        return Err(ConfigError::CertMissing);
    }
    if config.tls.is_some() && !key_exists {
        return Err(ConfigError::KeyMissing);
    }
    match check_lists(config) {
        Some(e) => Err(e),
        None => Ok(()),
    }
}

/// Whether any client can claim another source address: PROXY headers are read, and no source is
/// singled out as trusted.
pub fn spoofable_source(config: &Config) -> (r: bool)
    ensures
        r == (config.proxy_protocol && config.proxy_protocol_trusted_cidrs@.len() == 0),
{
    config.proxy_protocol && config.proxy_protocol_trusted_cidrs.len() == 0
}

/// Whether the admin pages are open to everyone.
pub fn open_admin(config: &Config) -> (r: bool)
    ensures
        r == (config.admin_token matches Some(t) ==> t@.len() == 0),
{
    match &config.admin_token {
        Some(t) => t.as_str().is_empty(),
        None => true,
    }
}

/// Every upstream that comes before the first bad one is in order.
proof fn lemma_no_bad_upstream(us: Seq<Upstream>)
    requires
        first_bad_upstream(us) is None,
    ensures
        forall|i: int| 0 <= i < us.len() ==> upstream_problem(#[trigger] us[i]) is None,
    decreases us.len(),
{
    if us.len() > 0 {
        let p = us.drop_last();
        lemma_no_bad_upstream(p);
        assert(forall|i: int| 0 <= i < p.len() ==> p[i] == #[trigger] us[i]);
    }
}

proof fn lemma_no_bad_route(rs: Seq<RouteConfig>)
    requires
        first_route_error(rs) is None,
    ensures
        forall|k: int| 0 <= k < rs.len() ==> route_error(#[trigger] rs[k], k) is None,
    decreases rs.len(),
{
    if rs.len() > 0 {
        let p = rs.drop_last();
        lemma_no_bad_route(p);
        assert(forall|k: int| 0 <= k < p.len() ==> p[k] == #[trigger] rs[k]);
    }
}

/// Whether an upstream can be used: it has a weight, and an `http` or `https` address with a host.
pub open spec fn sound(u: Upstream) -> bool {
    &&& u.weight > 0
    &&& uri::uri_parts(u.address@) matches Some((scheme, host))
    &&& scheme == Some("http"@) || scheme == Some("https"@)
    &&& host is Some
}

/// In a configuration that is accepted there is something to serve, every route has a prefix and
/// an upstream, every upstream can be used, and no timeout is zero.
pub proof fn law_accepted_config_is_sound(c: Config, cert_exists: bool, key_exists: bool)
    requires
        config_error(c, cert_exists, key_exists) is None,
    ensures
        c.upstreams@.len() > 0 || c.routes@.len() > 0,
        forall|i: int| 0 <= i < c.upstreams@.len() ==> sound(#[trigger] c.upstreams@[i]),
        forall|k: int|
            0 <= k < c.routes@.len() ==> (#[trigger] c.routes@[k]).upstreams@.len() > 0
                && c.routes@[k].path_prefix@.len() > 0,
        forall|k: int, i: int|
            0 <= k < c.routes@.len() && 0 <= i < c.routes@[k].upstreams@.len() ==> sound(
                #[trigger] c.routes@[k].upstreams@[i],
            ),
        c.health_check.interval_secs > 0,
        c.health_check.timeout_secs > 0,
        c.timeouts.connect_secs > 0,
        c.timeouts.request_secs > 0,
        c.max_body_bytes > 0,
        c.tls is Some ==> cert_exists && key_exists,
{
    lemma_no_bad_upstream(c.upstreams@);
    lemma_no_bad_route(c.routes@);
    assert forall|k: int, i: int|
        0 <= k < c.routes@.len() && 0 <= i < c.routes@[k].upstreams@.len() implies sound(
        #[trigger] c.routes@[k].upstreams@[i],
    ) by {
        assert(route_error(c.routes@[k], k) is None);
        lemma_no_bad_upstream(c.routes@[k].upstreams@);
    }
    assert forall|k: int| 0 <= k < c.routes@.len() implies (
    #[trigger] c.routes@[k]).upstreams@.len() > 0 && c.routes@[k].path_prefix@.len() > 0 by {
        assert(route_error(c.routes@[k], k) is None);
    }
}

/// What is wrong with an upstream: the first of these that holds. Its address is empty; its weight
/// is zero; its address is no URI; the scheme is neither of the two; there is no host. Nothing is
/// wrong where none of these holds.
pub proof fn law_upstream_problems(
    u: Upstream,
    scheme: Option<Seq<char>>,
    host: Option<Seq<char>>,
)
    ensures
        u.address@.len() == 0 ==> upstream_verdict(u, Some((scheme, host))) == Some(
            UpstreamProblem::EmptyAddress,
        ) && upstream_verdict(u, None) == Some(UpstreamProblem::EmptyAddress),
        u.address@.len() > 0 && u.weight == 0 ==> upstream_verdict(u, Some((scheme, host))) == Some(
            UpstreamProblem::ZeroWeight,
        ) && upstream_verdict(u, None) == Some(UpstreamProblem::ZeroWeight),
        u.address@.len() > 0 && u.weight > 0 ==> {
            &&& upstream_verdict(u, None) == Some(UpstreamProblem::InvalidUri)
            &&& scheme != Some("http"@) && scheme != Some("https"@) ==> upstream_verdict(
                u,
                Some((scheme, host)),
            ) == Some(UpstreamProblem::Scheme)
            &&& (scheme == Some("http"@) || scheme == Some("https"@)) && host is None
                ==> upstream_verdict(u, Some((scheme, host))) == Some(UpstreamProblem::NoHost)
            &&& (scheme == Some("http"@) || scheme == Some("https"@)) && host is Some
                ==> upstream_verdict(u, Some((scheme, host))) is None
        },
{
}

/// The first bad upstream of a list is bad, with its own problem, and those before it are not;
/// there is none exactly where all are in order.
pub proof fn law_first_bad_upstream(us: Seq<Upstream>)
    ensures
        match first_bad_upstream(us) {
            Some((i, p)) => 0 <= i < us.len() && upstream_problem(us[i]) == Some(p)
                && forall|j: int| 0 <= j < i ==> upstream_problem(#[trigger] us[j]) is None,
            None => forall|j: int| 0 <= j < us.len() ==> upstream_problem(#[trigger] us[j]) is None,
        },
    decreases us.len(),
{
    if us.len() > 0 {
        let p = us.drop_last();
        law_first_bad_upstream(p);
        assert(forall|j: int| 0 <= j < p.len() ==> #[trigger] us[j] == p[j]);
    }
}

/// What is wrong with a route: it has no upstream, or else no prefix, or else a bad upstream, of
/// which the first is named. Nothing is wrong where none of these holds.
pub proof fn law_route_problems(r: RouteConfig, k: usize)
    requires
        r.upstreams@.len() <= usize::MAX,
    ensures
        r.upstreams@.len() == 0 ==> route_error(r, k as int) == Some(
            ConfigError::RouteWithoutUpstream { route: k },
        ),
        r.upstreams@.len() > 0 && r.path_prefix@.len() == 0 ==> route_error(r, k as int) == Some(
            ConfigError::RouteWithoutPrefix { route: k },
        ),
        r.upstreams@.len() > 0 && r.path_prefix@.len() > 0 ==> {
            &&& route_error(r, k as int) is None <==> forall|i: int|
                0 <= i < r.upstreams@.len() ==> upstream_problem(
                    #[trigger] r.upstreams@[i],
                ) is None
            &&& route_error(r, k as int) matches Some(e) ==> (e matches ConfigError::RouteUpstream {
                route,
                index,
                problem,
            } && route == k && index < r.upstreams@.len() && upstream_problem(
                r.upstreams@[index as int],
            ) == Some(problem))
        },
{
    law_first_bad_upstream(r.upstreams@);
}

/// The first bad route decides, and there is none exactly where all routes are in order.
pub proof fn law_first_bad_route(rs: Seq<RouteConfig>)
    ensures
        match first_route_error(rs) {
            Some(e) => exists|k: int|
                0 <= k < rs.len() && route_error(#[trigger] rs[k], k) == Some(e) && forall|j: int|
                    0 <= j < k ==> route_error(#[trigger] rs[j], j) is None,
            None => forall|j: int| 0 <= j < rs.len() ==> route_error(#[trigger] rs[j], j) is None,
        },
    decreases rs.len(),
{
    if rs.len() > 0 {
        let p = rs.drop_last();
        law_first_bad_route(p);
        assert(forall|j: int| 0 <= j < p.len() ==> #[trigger] rs[j] == p[j]);
        match first_route_error(p) {
            Some(e) => {
                let k = choose|k: int|
                    0 <= k < p.len() && route_error(#[trigger] p[k], k) == Some(e) && forall|j: int|
                        0 <= j < k ==> route_error(#[trigger] p[j], j) is None;
                assert(rs[k] == p[k]);
            },
            None => {
                let k = rs.len() - 1;
                assert(rs[k] == rs.last());
            },
        }
    }
}

/// Which networks may be configured: an address, a slash and a number of at most 128, or an address
/// alone.
pub proof fn law_cidr_is_accepted(a: Seq<char>, n: u8)
    requires
        addr::ip_text(a) is Some,
    ensures
        cidr_problem(a) is None,
        n <= 128 ==> cidr_problem(a + seq!['/'] + text::decimal(n as nat)) is None,
        n > 128 ==> cidr_problem(a + seq!['/'] + text::decimal(n as nat)) == Some(
            CidrProblem::PrefixRange,
        ),
{
    if a.contains('/') {
        addr::law_address_characters(a, '/');
    }
    lemma_at_slash(a, text::decimal(n as nat));
    text::law_decimal_round_trip(n as nat, 255);
}

/// Which networks may not be configured, and why: the text before the first slash is no address, or
/// what follows is no number of at most 255; or there is no slash, and the text is no address.
pub proof fn law_cidr_is_refused(a: Seq<char>, b: Seq<char>)
    requires
        !a.contains('/'),
    ensures
        addr::ip_text(a) is None ==> cidr_problem(a) == Some(CidrProblem::AddressOrCidr)
            && cidr_problem(a + seq!['/'] + b) == Some(CidrProblem::Address),
        addr::ip_text(a) is Some && text::decimal_number(b, 255) is None ==> cidr_problem(
            a + seq!['/'] + b,
        ) == Some(CidrProblem::Prefix),
{
    lemma_at_slash(a, b);
}

proof fn lemma_at_slash(a: Seq<char>, b: Seq<char>)
    requires
        !a.contains('/'),
    ensures
        text::first_at(a, '/') is None,
        text::first_at(a + seq!['/'] + b, '/') == Some(a.len() as int),
        (a + seq!['/'] + b).take(a.len() as int) == a,
        (a + seq!['/'] + b).skip(a.len() as int + 1) == b,
{
    text::lemma_first_at(a, '/');
    match text::first_at(a, '/') {
        Some(i) => {
            assert(a.contains(a[i]));
        },
        None => {},
    }
    let s = a + seq!['/'] + b;
    text::lemma_first_at(s, '/');
    assert(s[a.len() as int] == '/');
    assert forall|j: int| 0 <= j < a.len() implies s[j] != '/' by {
        assert(s[j] == a[j]);
        assert(a.contains(a[j]));
    }
    assert(s.take(a.len() as int) =~= a);
    assert(s.skip(a.len() as int + 1) =~= b);
}

/// The first bad network of a list is named with its place and its problem, and there is none
/// exactly where all are in order.
pub proof fn law_first_bad_cidr(cs: Seq<String>, list: CidrList)
    requires
        cs.len() <= usize::MAX,
    ensures
        match first_bad_cidr(cs, list) {
            Some(e) => e matches ConfigError::Cidr { list: l, position, cause } && l == list
                && position < cs.len() && cidr_problem(cs[position as int]@) == Some(cause)
                && forall|j: int|
                0 <= j < position ==> cidr_problem((#[trigger] cs[j])@) is None,
            None => forall|j: int| 0 <= j < cs.len() ==> cidr_problem((#[trigger] cs[j])@) is None,
        },
    decreases cs.len(),
{
    if cs.len() > 0 {
        let p = cs.drop_last();
        law_first_bad_cidr(p, list);
        assert(forall|j: int| 0 <= j < p.len() ==> #[trigger] cs[j] == p[j]);
    }
}

/// Of the doubles, those that are zero or negative are at most zero: the two zeros, and every
/// number with the sign set down to minus infinity. No positive number is, and nothing that is no
/// number.
pub proof fn law_at_most_zero(bits: u64)
    ensures
        bits == 0 || bits == 0x8000_0000_0000_0000 ==> at_most_zero(bits),
        0 < bits < 0x8000_0000_0000_0000 ==> !at_most_zero(bits),
        0x8000_0000_0000_0000 < bits <= 0xFFF0_0000_0000_0000 ==> at_most_zero(bits),
        bits > 0xFFF0_0000_0000_0000 ==> !at_most_zero(bits),
{
}

/// What may be wrong with the numbers of a configuration, in the order in which it is looked for.
pub proof fn law_number_errors(c: Config)
    ensures
        ({
            let h = c.health_check;
            let bad_interval = h.interval_secs == 0;
            let bad_timeout = h.timeout_secs == 0;
            let bad_ratio = h.timeout_secs > 10 * h.interval_secs;
            let bad_timeouts = c.timeouts.connect_secs == 0 || c.timeouts.request_secs == 0;
            let bad_body = c.max_body_bytes == 0;
            let bad_rps = c.rate_limit matches Some(rl) && rl.rps == 0;
            let bad_burst = c.rate_limit matches Some(rl) && at_most_zero(rl.burst_bits);
            let e = number_error(c);
            &&& e == Some(ConfigError::HealthInterval) <==> bad_interval
            &&& e == Some(ConfigError::HealthTimeout) <==> !bad_interval && bad_timeout
            &&& e == Some(ConfigError::HealthRatio) <==> !bad_interval && !bad_timeout && bad_ratio
            &&& e == Some(ConfigError::Timeouts) <==> !bad_interval && !bad_timeout && !bad_ratio
                && bad_timeouts
            &&& e == Some(ConfigError::MaxBody) <==> !bad_interval && !bad_timeout && !bad_ratio
                && !bad_timeouts && bad_body
            &&& e == Some(ConfigError::RateLimitRps) <==> !bad_interval && !bad_timeout
                && !bad_ratio && !bad_timeouts && !bad_body && bad_rps
            &&& e == Some(ConfigError::RateLimitBurst) <==> !bad_interval && !bad_timeout
                && !bad_ratio && !bad_timeouts && !bad_body && !bad_rps && bad_burst
            &&& e is None <==> !bad_interval && !bad_timeout && !bad_ratio && !bad_timeouts
                && !bad_body && !bad_rps && !bad_burst
        }),
{
}

/// Which configurations are accepted: those in which there is something to serve, every upstream is
/// in order, every route has a prefix and upstreams, the numbers are in order, the TLS files exist
/// and every network can be read. Nothing else is asked.
pub proof fn law_accepted_configs(c: Config, cert_exists: bool, key_exists: bool)
    requires
        c.proxy_protocol_trusted_cidrs@.len() <= usize::MAX,
        c.acl matches Some(a) ==> a.allow@.len() <= usize::MAX && a.deny@.len() <= usize::MAX,
    ensures
        config_error(c, cert_exists, key_exists) is None <==> {
            &&& c.upstreams@.len() > 0 || c.routes@.len() > 0
            &&& forall|i: int|
                0 <= i < c.upstreams@.len() ==> upstream_problem(#[trigger] c.upstreams@[i]) is None
            &&& forall|k: int|
                0 <= k < c.routes@.len() ==> route_in_order(#[trigger] c.routes@[k])
            &&& number_error(c) is None
            &&& c.tls is Some ==> cert_exists && key_exists
            &&& c.acl matches Some(a) ==> all_readable(a.allow@) && all_readable(a.deny@)
            &&& all_readable(c.proxy_protocol_trusted_cidrs@)
        },
{
    law_first_bad_upstream(c.upstreams@);
    law_first_bad_route(c.routes@);
    assert forall|k: int| 0 <= k < c.routes@.len() implies (route_error(#[trigger] c.routes@[k], k)
        is None <==> route_in_order(c.routes@[k])) by {
        law_first_bad_upstream(c.routes@[k].upstreams@);
    }
    assert(first_route_error(c.routes@) is None <==> forall|k: int|
        0 <= k < c.routes@.len() ==> route_in_order(#[trigger] c.routes@[k])) by {
        match first_route_error(c.routes@) {
            Some(e) => {
                let k = choose|k: int|
                    0 <= k < c.routes@.len() && route_error(#[trigger] c.routes@[k], k) == Some(e)
                        && forall|j: int|
                        0 <= j < k ==> route_error(#[trigger] c.routes@[j], j) is None;
                assert(!route_in_order(c.routes@[k]));
            },
            None => {
                assert forall|k: int| 0 <= k < c.routes@.len() implies route_in_order(
                    #[trigger] c.routes@[k],
                ) by {
                    assert(route_error(c.routes@[k], k) is None);
                }
            },
        }
    }
    match c.acl {
        Some(a) => {
            law_readable_list(a.allow@, CidrList::Allow);
            law_readable_list(a.deny@, CidrList::Deny);
        },
        None => {},
    }
    law_readable_list(c.proxy_protocol_trusted_cidrs@, CidrList::Trusted);
}

/// Whether a route has upstreams, all in order, and a prefix.
pub open spec fn route_in_order(r: RouteConfig) -> bool {
    &&& r.upstreams@.len() > 0
    &&& r.path_prefix@.len() > 0
    &&& forall|i: int|
        0 <= i < r.upstreams@.len() ==> upstream_problem(#[trigger] r.upstreams@[i]) is None
}

/// Whether nothing is wrong with any network of a list.
pub open spec fn all_readable(cs: Seq<String>) -> bool {
    forall|j: int| 0 <= j < cs.len() ==> cidr_problem((#[trigger] cs[j])@) is None
}

/// A list of networks is accepted exactly where nothing is wrong with any of them.
pub proof fn law_readable_list(cs: Seq<String>, list: CidrList)
    requires
        cs.len() <= usize::MAX,
    ensures
        first_bad_cidr(cs, list) is None <==> all_readable(cs),
{
    law_first_bad_cidr(cs, list);
}

/// In which order the parts of a configuration are looked at: what is wrong is named by the first
/// part that something is wrong with.
pub proof fn law_first_complaint(c: Config, cert_exists: bool, key_exists: bool)
    ensures
        ({
            let e = config_error(c, cert_exists, key_exists);
            let nothing = c.upstreams@.len() == 0 && c.routes@.len() == 0;
            let upstream = first_bad_upstream(c.upstreams@);
            let route = first_route_error(c.routes@);
            let number = number_error(c);
            &&& nothing ==> e == Some(ConfigError::NothingToServe)
            &&& !nothing && upstream is Some ==> (e matches Some(ConfigError::Upstream {
                index,
                problem,
            }) && index == (upstream->0).0 as usize && problem == (upstream->0).1)
            &&& !nothing && upstream is None && route is Some ==> e == route
            &&& !nothing && upstream is None && route is None && number is Some ==> e == number
            &&& !nothing && upstream is None && route is None && number is None ==> {
                &&& c.tls is Some && !cert_exists ==> e == Some(ConfigError::CertMissing)
                &&& c.tls is Some && cert_exists && !key_exists ==> e == Some(
                    ConfigError::KeyMissing,
                )
                &&& c.tls is None || (cert_exists && key_exists) ==> {
                    let trusted = first_bad_cidr(
                        c.proxy_protocol_trusted_cidrs@,
                        CidrList::Trusted,
                    );
                    &&& c.acl is None ==> e == trusted
                    &&& c.acl matches Some(a) ==> {
                        let allow = first_bad_cidr(a.allow@, CidrList::Allow);
                        let deny = first_bad_cidr(a.deny@, CidrList::Deny);
                        &&& allow is Some ==> e == allow
                        &&& allow is None && deny is Some ==> e == deny
                        &&& allow is None && deny is None ==> e == trusted
                    }
                }
            }
        }),
{
}

/// What a configuration is warned of: PROXY headers from anywhere, and admin pages without a token.
pub proof fn law_warnings(config: Config, spoofable: bool, open: bool)
    requires
        call_ensures(spoofable_source, (&config,), spoofable),
        call_ensures(open_admin, (&config,), open),
    ensures
        spoofable ==> config.proxy_protocol,
        config.proxy_protocol && config.proxy_protocol_trusted_cidrs@.len() == 0 ==> spoofable,
        config.proxy_protocol_trusted_cidrs@.len() > 0 ==> !spoofable,
        config.admin_token is None ==> open,
        config.admin_token matches Some(t) ==> (open <==> t@.len() == 0),
{
}

} // verus!
