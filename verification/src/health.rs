//! Active health checks.

use crate::headers;
use crate::lb::UpstreamRuntime;
use crate::security;
use crate::text;
use crate::uri;
use vstd::prelude::*;

verus! {

/// How long a health check may take, in seconds.
pub const CHECK_TIMEOUT_SECS: u64 = 2;

/// The text of the target of a health check: the address without slashes at its end, and the path
/// with one at its beginning.
pub open spec fn check_target(address: Seq<char>, path: Seq<char>) -> Seq<char> {
    text::without_trailing(address, '/') + (if path.len() > 0 && path[0] == '/' {
        path
    } else {
        "/"@ + path
    })
}

/// The text of the target of a health check.
pub fn check_text(address: &str, path: &str) -> (r: String)
    ensures
        r@ == check_target(address@, path@),
{
    let a: Vec<char> = text::chars(address);
    let p: Vec<char> = text::chars(path);
    let mut out: String = text::text(text::trim_end_char(a.as_slice(), '/'));
    if p.len() > 0 && p[0] == '/' {
        out.append(path);
    } else {
        let ghost stem = out@;
        out.append("/");
        out.append(path);
        assert(out@ =~= stem + ("/"@ + path@));
    }
    out
}

/// The target of a health check, where it is a URI; an upstream without one counts as unhealthy.
pub fn check_uri(address: &str, path: &str) -> (r: Option<String>)
    ensures
        match r {
            Some(t) => t@ == check_target(address@, path@) && uri::uri_parts(t@) is Some,
            None => uri::uri_parts(check_target(address@, path@)) is None,
        },
{
    let t: String = check_text(address, path);
    match uri::read_uri(t.as_str()) {
        Some(_) => Some(t),
        None => None,
    }
}

/// The headers of a health check.
pub fn check_headers() -> (r: http::HeaderMap<http::HeaderValue>)
    ensures
        headers::fields(r) == headers::two_fields(
            "User-Agent"@,
            "OxiGate-HealthCheck/0.1"@,
            "Connection"@,
            "close"@,
        ),
{
    proof {
        reveal_strlit("User-Agent");
        reveal_strlit("OxiGate-HealthCheck/0.1");
        reveal_strlit("Connection");
        reveal_strlit("close");
        security::lemma_plain_value("OxiGate-HealthCheck/0.1"@);
        security::lemma_plain_value("close"@);
        assert(text::lowered("User-Agent"@)[0] == 'u');
        assert(text::lowered("Connection"@)[0] == 'c');
    }
    headers::pair("User-Agent", "OxiGate-HealthCheck/0.1", "Connection", "close")
}

/// Whether an upstream that answers with a status is healthy: success, redirection, or not found.
pub open spec fn healthy_status(status: u16) -> bool {
    200 <= status < 400 || status == 404
}

/// Whether an upstream is healthy, from the status of its answer, or none where it did not answer
/// in time.
pub fn judge(status: Option<u16>) -> (r: bool)
    ensures
        r == (status matches Some(s) && healthy_status(s)),
{
    match status {
        Some(s) => (200 <= s && s < 400) || s == 404,
        None => false,
    }
}

/// What a health check changed.
#[derive(Clone, Copy, Debug, PartialEq, Eq, Structural)]
pub enum Change {
    WentDown,
    Recovered,
    Same,
}

/// Notes the outcome of a health check.
pub fn record(u: &mut UpstreamRuntime, healthy: bool) -> (r: Change)
    ensures
        *final(u) == (UpstreamRuntime { healthy, ..*old(u) }),
        r == (if old(u).healthy && !healthy {
            Change::WentDown
        } else if !old(u).healthy && healthy {
            Change::Recovered
        } else {
            Change::Same
        }),
{
    let was: bool = u.is_healthy();
    u.set_healthy(healthy);
    if was && !healthy {
        Change::WentDown
    } else if !was && healthy {
        Change::Recovered
    } else {
        Change::Same
    }
}

/// The target of a health check is the address without the slashes at its end, one slash, and the
/// path, which may be written with a slash in front or without.
pub proof fn law_check_target(stem: Seq<char>, slashes: nat, path: Seq<char>)
    requires
        stem.len() > 0 ==> stem.last() != '/',
    ensures
        check_target(stem + text::repeated('/', slashes), seq!['/'] + path) == stem + seq!['/']
            + path,
        path.len() == 0 || path[0] != '/' ==> check_target(
            stem + text::repeated('/', slashes),
            path,
        ) == stem + seq!['/'] + path,
{
    reveal_strlit("/");
    text::law_run_is_taken_off(stem, '/', slashes);
    assert("/"@ =~= seq!['/']);
    assert((seq!['/'] + path)[0] == '/');
    assert(stem + (seq!['/'] + path) =~= stem + seq!['/'] + path);
}

/// Which statuses are those of a healthy upstream: those of success and of redirection, and of what
/// is an error only 404.
pub proof fn law_healthy_status(status: u16)
    ensures
        status / 100 == 2 || status / 100 == 3 ==> healthy_status(status),
        status / 100 < 2 || status / 100 > 4 ==> !healthy_status(status),
        status / 100 == 4 ==> (healthy_status(status) <==> status == 404),
{
}

/// An upstream that does not answer is not healthy, and one that does goes by its status.
pub proof fn law_judge(status: Option<u16>, r: bool)
    requires
        call_ensures(judge, (status,), r),
    ensures
        status is None ==> !r,
        status matches Some(s) ==> (r <==> s / 100 == 2 || s / 100 == 3 || s == 404),
{
}

} // verus!
