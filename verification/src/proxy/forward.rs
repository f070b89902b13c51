//! What is passed on between client and upstream: targets, headers and cookies.

use crate::config::StickyConfig;
use crate::headers;
use crate::headers::Put;
use crate::security;
use crate::text;
use crate::uri;
use vstd::prelude::*;
use vstd::slice::slice_subrange;
use vstd::utf8;

verus! {

/// Why headers could not be put together.
#[derive(Clone, Copy, Debug, PartialEq, Eq, Structural)]
pub enum HeaderError {
    /// A configured header has a name or a value that cannot be sent.
    Refused,
    /// There are too many headers.
    Full,
}

/// The text that an upstream address, a path and a query make as a target.
pub open spec fn target_of(base: Seq<char>, path: Seq<char>, query: Option<Seq<char>>) -> Seq<
    char,
> {
    let p = if path.len() == 0 {
        "/"@
    } else {
        path
    };
    let t = text::without_trailing(base, '/') + p;
    match query {
        Some(q) => t + "?"@ + q,
        None => t,
    }
}

/// The text that an upstream address, a path and a query make as a target.
pub fn target_text(upstream_base: &str, path: &str, query: Option<&str>) -> (r: String)
    ensures
        r@ == target_of(upstream_base@, path@, text::opt_text(query)),
{
    let base: Vec<char> = text::chars(upstream_base);
    let mut out: String = text::text(text::trim_end_char(base.as_slice(), '/'));
    if path.is_empty() {
        out.append("/");
    } else {
        out.append(path);
    }
    match query {
        Some(q) => {
            out.append("?");
            out.append(q);
        },
        None => {},
    }
    out
}

/// The target of a request, where it is a URI.
pub fn build_target_uri(upstream_base: &str, path: &str, query: Option<&str>) -> (r: Option<
    String,
>)
    ensures
        match r {
            Some(t) => t@ == target_of(upstream_base@, path@, text::opt_text(query))
                && uri::uri_parts(t@) is Some,
            None => uri::uri_parts(target_of(upstream_base@, path@, text::opt_text(query))) is None,
        },
{
    let t: String = target_text(upstream_base, path, query);
    match uri::read_uri(t.as_str()) {
        Some(_) => Some(t),
        None => None,
    }
}

/// The text up to the first slash.
pub open spec fn before_slash(s: Seq<char>) -> Seq<char> {
    match text::first_at(s, '/') {
        Some(i) => s.take(i),
        None => s,
    }
}

/// The host (and port) of an upstream address, without its scheme and path.
pub open spec fn host_of(upstream: Seq<char>) -> Option<Seq<char>> {
    if "http://"@.is_prefix_of(upstream) {
        Some(before_slash(upstream.skip("http://"@.len() as int)))
    } else if "https://"@.is_prefix_of(upstream) {
        Some(before_slash(upstream.skip("https://"@.len() as int)))
    } else {
        None
    }
}

fn take_host(s: &[char], skip: usize) -> (r: String)
    requires
        skip <= s@.len(),
    ensures
        r@ == before_slash(s@.skip(skip as int)),
{
    let rest: &[char] = slice_subrange(s, skip, s.len());
    assert(rest@ =~= s@.skip(skip as int));
    match text::find(rest, '/') {
        Some(i) => {
            let h: &[char] = slice_subrange(rest, 0, i);
            assert(h@ =~= rest@.take(i as int));
            text::text(h)
        },
        None => text::text(rest),
    }
}

/// The host (and port) of an upstream address.
pub fn extract_host(upstream: &str) -> (r: Option<String>)
    ensures
        match r {
            Some(h) => host_of(upstream@) == Some(h@),
            None => host_of(upstream@) is None,
        },
{
    let s: Vec<char> = text::chars(upstream);
    let plain: Vec<char> = text::chars("http://");
    let secure: Vec<char> = text::chars("https://");
    if text::starts_with(s.as_slice(), plain.as_slice()) {
        return Some(take_host(s.as_slice(), plain.len()));
    }
    if text::starts_with(s.as_slice(), secure.as_slice()) {
        return Some(take_host(s.as_slice(), secure.len()));
    }
    None
}

/// Whether a header concerns one connection only, and is not passed on.
pub open spec fn hop_by_hop(name: Seq<char>) -> bool {
    name == "connection"@ || name == "upgrade"@ || hop_by_hop_except_upgrade(name)
}

/// Whether a header concerns one connection only, and is not even passed on with an upgrade.
pub open spec fn hop_by_hop_except_upgrade(name: Seq<char>) -> bool {
    name == "keep-alive"@ || name == "proxy-authenticate"@ || name == "proxy-authorization"@
        || name == "te"@ || name == "trailers"@ || name == "transfer-encoding"@
}

/// Whether a header, given in lower case, is not passed on.
pub fn is_hop_by_hop(name: &str) -> (r: bool)
    ensures
        r == hop_by_hop(name@),
{
    text::same_str(name, "connection") || text::same_str(name, "upgrade")
        || is_hop_by_hop_except_upgrade(name)
}

/// Whether a header, given in lower case, is not even passed on with an upgrade.
pub fn is_hop_by_hop_except_upgrade(name: &str) -> (r: bool)
    ensures
        r == hop_by_hop_except_upgrade(name@),
{
    text::same_str(name, "keep-alive") || text::same_str(name, "proxy-authenticate")
        || text::same_str(name, "proxy-authorization") || text::same_str(name, "te")
        || text::same_str(name, "trailers") || text::same_str(name, "transfer-encoding")
}

/// Whether a header is passed on: with or without the host, and with or without the headers of an
/// upgrade.
pub open spec fn passed(name: Seq<char>, without_host: bool, preserve_upgrade: bool) -> bool {
    !(without_host && name == "host"@) && !(if preserve_upgrade {
        hop_by_hop_except_upgrade(name)
    } else {
        hop_by_hop(name)
    })
}

fn is_passed(name: &str, without_host: bool, preserve_upgrade: bool) -> (r: bool)
    ensures
        r == passed(name@, without_host, preserve_upgrade),
{
    if without_host && text::same_str(name, "host") {
        return false;
    }
    if preserve_upgrade {
        !is_hop_by_hop_except_upgrade(name)
    } else {
        !is_hop_by_hop(name)
    }
}

/// The headers that are passed on.
pub open spec fn passed_on(
    m: Map<Seq<char>, Seq<Seq<u8>>>,
    without_host: bool,
    preserve_upgrade: bool,
) -> Map<Seq<char>, Seq<Seq<u8>>> {
    m.restrict(Set::new(|n: Seq<char>| passed(n, without_host, preserve_upgrade)))
}

spec fn part(
    fs: Seq<(&http::HeaderName, &http::HeaderValue)>,
    without_host: bool,
    preserve_upgrade: bool,
) -> Map<Seq<char>, Seq<Seq<u8>>> {
    Map::new(
        |n: Seq<char>|
            passed(n, without_host, preserve_upgrade) && headers::listed(fs, n).len() > 0,
        |n: Seq<char>| headers::listed(fs, n),
    )
}

proof fn lemma_listed_grows(
    fs: Seq<(&http::HeaderName, &http::HeaderValue)>,
    k: int,
    n: Seq<char>,
)
    requires
        0 <= k <= fs.len(),
    ensures
        headers::listed(fs.take(k), n).len() <= headers::listed(fs, n).len(),
    decreases fs.len() - k,
{
    if k < fs.len() {
        assert(fs.take(k + 1).drop_last() =~= fs.take(k));
        lemma_listed_grows(fs, k + 1, n);
    } else {
        assert(fs.take(k) =~= fs);
    }
}

/// Where the whole list of fields leaves room, so does a part of it.
proof fn lemma_part_fits(
    fs: Seq<(&http::HeaderName, &http::HeaderValue)>,
    m: Map<Seq<char>, Seq<Seq<u8>>>,
    k: int,
    without_host: bool,
    preserve_upgrade: bool,
    more: nat,
)
    requires
        0 <= k <= fs.len(),
        forall|n: Seq<char>|
            #[trigger] m.dom().contains(n) <==> headers::listed(fs, n).len() > 0,
        headers::fits(m, more),
    ensures
        headers::fits(part(fs.take(k), without_host, preserve_upgrade), more),
{
    let p = part(fs.take(k), without_host, preserve_upgrade);
    assert forall|n: Seq<char>| p.dom().contains(n) implies m.dom().contains(n) by {
        lemma_listed_grows(fs, k, n);
    }
    assert(p.dom().subset_of(m.dom()));
    vstd::set_lib::lemma_len_subset(p.dom(), m.dom());
}

/// Copies the headers that are passed on. It fails only on a map without room for another name.
pub fn copy_headers(
    m: &http::HeaderMap<http::HeaderValue>,
    without_host: bool,
    preserve_upgrade: bool,
) -> (r: Option<http::HeaderMap<http::HeaderValue>>)
    ensures
        r matches Some(out) ==> headers::fields(out) == passed_on(
            headers::fields(*m),
            without_host,
            preserve_upgrade,
        ),
        headers::fits(headers::fields(*m), 1) ==> r is Some,
{
    let fs: Vec<(&http::HeaderName, &http::HeaderValue)> = headers::pairs(m);
    let mut out: http::HeaderMap<http::HeaderValue> = headers::empty();
    let n: usize = fs.len();
    let mut i: usize = 0;
    let ghost all = headers::fields(*m);
    assert(headers::fields(out) =~= part(fs@.take(0), without_host, preserve_upgrade));
    while i < n
        invariant
            n == fs@.len(),
            i <= n,
            all == headers::fields(*m),
            forall|x: Seq<char>| #[trigger] headers::listed(fs@, x) == headers::values(all, x),
            forall|x: Seq<char>|
                #[trigger] all.dom().contains(x) <==> headers::listed(fs@, x).len() > 0,
            headers::fields(out) == part(fs@.take(i as int), without_host, preserve_upgrade),
        decreases n - i,
    {
        let ghost before = fs@.take(i as int);
        let ghost after = fs@.take(i as int + 1);
        let ghost name = headers::name_text(*fs@[i as int].0);
        let ghost value = headers::value_bytes(*fs@[i as int].1);
        proof {
            assert(after.drop_last() =~= before);
            assert(after.last() == fs@[i as int]);
        }
        if is_passed(fs[i].0.as_str(), without_host, preserve_upgrade) {
            proof {
                if headers::fits(all, 1) {
                    lemma_part_fits(fs@, all, i as int, without_host, preserve_upgrade, 1);
                }
            }
            if !headers::append_field(&mut out, fs[i].0, fs[i].1) {
                return None;
            }
            proof {
                let p = part(before, without_host, preserve_upgrade);
                assert(headers::values(p, name) =~= headers::listed(before, name));
                assert(headers::appended(p, name, value) =~= part(
                    after,
                    without_host,
                    preserve_upgrade,
                ));
            }
        } else {
            assert(part(before, without_host, preserve_upgrade) =~= part(
                after,
                without_host,
                preserve_upgrade,
            ));
        }
        i = i + 1;
    }
    proof {
        assert(fs@.take(n as int) =~= fs@);
        assert(part(fs@, without_host, preserve_upgrade) =~= passed_on(
            all,
            without_host,
            preserve_upgrade,
        ));
    }
    Some(out)
}

/// Whether every field of a list has a name and a value that can be sent.
pub open spec fn all_fields(list: Seq<(String, String)>) -> bool {
    forall|i: int|
        0 <= i < list.len() ==> headers::is_name((#[trigger] list[i]).0@) && headers::is_value(
            utf8::encode_utf8(list[i].1@),
        )
}

/// A map with the fields of a list added.
pub open spec fn with_all(
    m: Map<Seq<char>, Seq<Seq<u8>>>,
    list: Seq<(String, String)>,
) -> Map<Seq<char>, Seq<Seq<u8>>>
    decreases list.len(),
{
    if list.len() == 0 {
        m
    } else {
        headers::appended(
            with_all(m, list.drop_last()),
            text::lowered(list.last().0@),
            utf8::encode_utf8(list.last().1@),
        )
    }
}

proof fn lemma_with_all_fits(
    m: Map<Seq<char>, Seq<Seq<u8>>>,
    list: Seq<(String, String)>,
    more: nat,
)
    requires
        headers::fits(m, list.len() + more),
    ensures
        headers::fits(with_all(m, list), more),
    decreases list.len(),
{
    if list.len() > 0 {
        lemma_with_all_fits(m, list.drop_last(), more + 1);
    }
}

/// Adds the fields of a list.
fn add_all(m: &mut http::HeaderMap<http::HeaderValue>, list: &Vec<(String, String)>) -> (r: Put)
    ensures
        r == Put::Done ==> all_fields(list@) && headers::fields(*final(m)) == with_all(
            headers::fields(*old(m)),
            list@,
        ),
        r == Put::Refused ==> !all_fields(list@),
        headers::fits(headers::fields(*old(m)), list@.len()) ==> r != Put::Full,
{
    let n: usize = list.len();
    let mut i: usize = 0;
    assert(list@.take(0) =~= Seq::empty());
    while i < n
        invariant
            n == list@.len(),
            i <= n,
            all_fields(list@.take(i as int)),
            headers::fields(*m) == with_all(headers::fields(*old(m)), list@.take(i as int)),
        decreases n - i,
    {
        let ghost before = list@.take(i as int);
        let ghost after = list@.take(i as int + 1);
        proof {
            assert(after.drop_last() =~= before);
            if headers::fits(headers::fields(*old(m)), list@.len()) {
                lemma_with_all_fits(headers::fields(*old(m)), before, 1);
            }
        }
        match headers::append(m, list[i].0.as_str(), list[i].1.as_str().as_bytes()) {
            Put::Done => {},
            Put::Refused => {
                assert(!(headers::is_name(list@[i as int].0@) && headers::is_value(
                    utf8::encode_utf8(list@[i as int].1@),
                )));
                return Put::Refused;
            },
            Put::Full => {
                return Put::Full;
            },
        }
        proof {
            assert forall|j: int| 0 <= j < after.len() implies headers::is_name(
                (#[trigger] after[j]).0@,
            ) && headers::is_value(utf8::encode_utf8(after[j].1@)) by {
                if j < before.len() {
                    assert(after[j] == before[j]);
                }
            }
        }
        i = i + 1;
    }
    assert(list@.take(n as int) =~= list@);
    Put::Done
}

/// The scheme that the client used.
pub open spec fn scheme(client_is_tls: bool) -> Seq<char> {
    if client_is_tls {
        "https"@
    } else {
        "http"@
    }
}

/// The headers that tell an upstream who the client is.
pub open spec fn with_client(
    m: Map<Seq<char>, Seq<Seq<u8>>>,
    client_ip: Seq<char>,
    client_is_tls: bool,
) -> Map<Seq<char>, Seq<Seq<u8>>> {
    let ip = utf8::encode_utf8(client_ip);
    let m = headers::appended(m, text::lowered("X-Real-IP"@), ip);
    let m = headers::appended(m, text::lowered("X-Forwarded-For"@), ip);
    headers::appended(
        m,
        text::lowered("X-Forwarded-Proto"@),
        utf8::encode_utf8(scheme(client_is_tls)),
    )
}

/// The host header for an upstream, where its address has a host that can be sent.
pub open spec fn with_host(m: Map<Seq<char>, Seq<Seq<u8>>>, upstream: Seq<char>) -> Map<
    Seq<char>,
    Seq<Seq<u8>>,
> {
    match host_of(upstream) {
        Some(h) if headers::is_value(utf8::encode_utf8(h)) => headers::appended(
            m,
            text::lowered("host"@),
            utf8::encode_utf8(h),
        ),
        _ => m,
    }
}

/// The headers of the request to an upstream: those of the client's request that are passed on,
/// who the client is, the configured ones, and the host.
pub open spec fn forwarded(
    m: Map<Seq<char>, Seq<Seq<u8>>>,
    upstream: Seq<char>,
    client_ip: Seq<char>,
    client_is_tls: bool,
    request_set: Seq<(String, String)>,
    preserve_upgrade: bool,
) -> Map<Seq<char>, Seq<Seq<u8>>> {
    with_host(
        with_all(
            with_client(passed_on(m, true, preserve_upgrade), client_ip, client_is_tls),
            request_set,
        ),
        upstream,
    )
}

/// The names that the proxy adds are header names, and the schemes are header values.
proof fn lemma_own_headers()
    ensures
        headers::is_name("X-Real-IP"@),
        headers::is_name("X-Forwarded-For"@),
        headers::is_name("X-Forwarded-Proto"@),
        headers::is_name("host"@),
        headers::is_name("Set-Cookie"@),
        headers::is_value(utf8::encode_utf8("http"@)),
        headers::is_value(utf8::encode_utf8("https"@)),
{
    reveal_strlit("X-Real-IP");
    reveal_strlit("X-Forwarded-For");
    reveal_strlit("X-Forwarded-Proto");
    reveal_strlit("host");
    reveal_strlit("Set-Cookie");
    reveal_strlit("http");
    reveal_strlit("https");
    security::lemma_plain_value("http"@);
    security::lemma_plain_value("https"@);
}

proof fn lemma_appended_fits(
    m: Map<Seq<char>, Seq<Seq<u8>>>,
    name: Seq<char>,
    value: Seq<u8>,
    more: nat,
)
    requires
        headers::fits(m, more + 1),
    ensures
        headers::fits(headers::appended(m, name, value), more),
{
}

/// Adds the headers that tell an upstream who the client is.
fn add_client(
    m: &mut http::HeaderMap<http::HeaderValue>,
    client_ip: &str,
    client_is_tls: bool,
) -> (r: Put)
    ensures
        r == Put::Done ==> headers::is_value(utf8::encode_utf8(client_ip@)) && headers::fields(
            *final(m),
        ) == with_client(headers::fields(*old(m)), client_ip@, client_is_tls),
        r == Put::Refused ==> !headers::is_value(utf8::encode_utf8(client_ip@)),
        headers::fits(headers::fields(*old(m)), 3) ==> r != Put::Full,
{
    let ghost m0 = headers::fields(*m);
    proof {
        lemma_own_headers();
        let ip = utf8::encode_utf8(client_ip@);
        if headers::fits(m0, 3) {
            lemma_appended_fits(m0, text::lowered("X-Real-IP"@), ip, 2);
            let m1 = headers::appended(m0, text::lowered("X-Real-IP"@), ip);
            lemma_appended_fits(m1, text::lowered("X-Forwarded-For"@), ip, 1);
        }
    }
    match headers::append(m, "X-Real-IP", client_ip.as_bytes()) {
        Put::Done => {},
        p => {
            return p;
        },
    }
    match headers::append(m, "X-Forwarded-For", client_ip.as_bytes()) {
        Put::Done => {},
        p => {
            return p;
        },
    }
    if client_is_tls {
        headers::append(m, "X-Forwarded-Proto", "https".as_bytes())
    } else {
        headers::append(m, "X-Forwarded-Proto", "http".as_bytes())
    }
}

/// Adds the host header for an upstream.
fn add_host(m: &mut http::HeaderMap<http::HeaderValue>, upstream: &str) -> (r: bool)
    ensures
        r ==> headers::fields(*final(m)) == with_host(headers::fields(*old(m)), upstream@),
        headers::fits(headers::fields(*old(m)), 1) ==> r,
{
    proof {
        lemma_own_headers();
    }
    match extract_host(upstream) {
        Some(h) => match headers::append(m, "host", h.as_str().as_bytes()) {
            Put::Full => false,
            _ => true,
        },
        None => true,
    }
}

/// The headers of the request to an upstream.
///
/// They are refused exactly where the client address or a configured header cannot be sent,
/// provided that there is room for them.
pub fn forward_headers(
    m: &http::HeaderMap<http::HeaderValue>,
    upstream: &str,
    client_ip: &str,
    client_is_tls: bool,
    request_set: &Vec<(String, String)>,
    preserve_upgrade: bool,
) -> (r: Result<http::HeaderMap<http::HeaderValue>, HeaderError>)
    ensures
        r matches Ok(out) ==> headers::is_value(utf8::encode_utf8(client_ip@)) && all_fields(
            request_set@,
        ) && headers::fields(out) == forwarded(
            headers::fields(*m),
            upstream@,
            client_ip@,
            client_is_tls,
            request_set@,
            preserve_upgrade,
        ),
        r matches Err(HeaderError::Refused) ==> !(headers::is_value(utf8::encode_utf8(client_ip@))
            && all_fields(request_set@)),
        headers::fits(headers::fields(*m), 4 + request_set@.len()) ==> !(r matches Err(
            HeaderError::Full,
        )),
{
    let ghost m0 = headers::fields(*m);
    let ghost k = request_set@.len();
    let ghost m1 = passed_on(m0, true, preserve_upgrade);
    let ghost m2 = with_client(m1, client_ip@, client_is_tls);
    proof {
        if headers::fits(m0, 4 + k) {
            lemma_passed_on_fits(m0, true, preserve_upgrade, 4 + k);
            lemma_with_client_fits(m1, client_ip@, client_is_tls, 1 + k);
            lemma_with_all_fits(m2, request_set@, 1);
        }
    }
    let mut out: http::HeaderMap<http::HeaderValue> = match copy_headers(
        m,
        true,
        preserve_upgrade,
    ) {
        Some(out) => out,
        None => {
            return Err(HeaderError::Full);
        },
    };
    match add_client(&mut out, client_ip, client_is_tls) {
        Put::Done => {},
        Put::Refused => {
            return Err(HeaderError::Refused);
        },
        Put::Full => {
            return Err(HeaderError::Full);
        },
    }
    match add_all(&mut out, request_set) {
        Put::Done => {},
        Put::Refused => {
            return Err(HeaderError::Refused);
        },
        Put::Full => {
            return Err(HeaderError::Full);
        },
    }
    if !add_host(&mut out, upstream) {
        return Err(HeaderError::Full);
    }
    Ok(out)
}

proof fn lemma_passed_on_fits(
    m: Map<Seq<char>, Seq<Seq<u8>>>,
    without_host: bool,
    preserve_upgrade: bool,
    more: nat,
)
    requires
        headers::fits(m, more),
    ensures
        headers::fits(passed_on(m, without_host, preserve_upgrade), more),
{
    let p = passed_on(m, without_host, preserve_upgrade);
    assert(p.dom().subset_of(m.dom()));
    vstd::set_lib::lemma_len_subset(p.dom(), m.dom());
}

proof fn lemma_with_client_fits(
    m: Map<Seq<char>, Seq<Seq<u8>>>,
    client_ip: Seq<char>,
    client_is_tls: bool,
    more: nat,
)
    requires
        headers::fits(m, more + 3),
    ensures
        headers::fits(with_client(m, client_ip, client_is_tls), more),
{
    let ip = utf8::encode_utf8(client_ip);
    lemma_appended_fits(m, text::lowered("X-Real-IP"@), ip, more + 2);
    let m1 = headers::appended(m, text::lowered("X-Real-IP"@), ip);
    lemma_appended_fits(m1, text::lowered("X-Forwarded-For"@), ip, more + 1);
    let m2 = headers::appended(m1, text::lowered("X-Forwarded-For"@), ip);
    lemma_appended_fits(
        m2,
        text::lowered("X-Forwarded-Proto"@),
        utf8::encode_utf8(scheme(client_is_tls)),
        more,
    );
}

/// The cookie that keeps a client on an upstream.
pub open spec fn cookie_text(name: Seq<char>, address: Seq<char>, max_age_secs: nat) -> Seq<char> {
    name + "="@ + address + "; Path=/; Max-Age="@ + text::decimal(max_age_secs)
        + "; HttpOnly; SameSite=Lax"@
}

/// The cookie that keeps a client on an upstream.
pub fn sticky_cookie(sticky: &StickyConfig, address: &str) -> (r: String)
    ensures
        r@ == cookie_text(sticky.cookie_name@, address@, sticky.max_age_secs as nat),
{
    let mut out: String = sticky.cookie_name.clone();
    out.append("=");
    out.append(address);
    out.append("; Path=/; Max-Age=");
    text::push_decimal(&mut out, sticky.max_age_secs);
    out.append("; HttpOnly; SameSite=Lax");
    out
}

/// A map in which the fields of a list are set, those that can be sent.
pub open spec fn with_set(
    m: Map<Seq<char>, Seq<Seq<u8>>>,
    list: Seq<(String, String)>,
) -> Map<Seq<char>, Seq<Seq<u8>>>
    decreases list.len(),
{
    if list.len() == 0 {
        m
    } else {
        let before = with_set(m, list.drop_last());
        let value = utf8::encode_utf8(list.last().1@);
        if headers::is_name(list.last().0@) && headers::is_value(value) {
            before.insert(text::lowered(list.last().0@), seq![value])
        } else {
            before
        }
    }
}

proof fn lemma_with_set_fits(
    m: Map<Seq<char>, Seq<Seq<u8>>>,
    list: Seq<(String, String)>,
    more: nat,
)
    requires
        headers::fits(m, list.len() + more),
    ensures
        headers::fits(with_set(m, list), more),
    decreases list.len(),
{
    if list.len() > 0 {
        lemma_with_set_fits(m, list.drop_last(), more + 1);
    }
}

/// Sets the fields of a list that can be sent. It fails only where there is no room for them.
pub fn set_all(
    m: &mut http::HeaderMap<http::HeaderValue>,
    list: &Vec<(String, String)>,
) -> (r: bool)
    ensures
        r ==> headers::fields(*final(m)) == with_set(headers::fields(*old(m)), list@),
        headers::fits(headers::fields(*old(m)), list@.len()) ==> r,
{
    let n: usize = list.len();
    let mut i: usize = 0;
    assert(list@.take(0) =~= Seq::empty());
    while i < n
        invariant
            n == list@.len(),
            i <= n,
            headers::fields(*m) == with_set(headers::fields(*old(m)), list@.take(i as int)),
        decreases n - i,
    {
        let ghost before = list@.take(i as int);
        proof {
            assert(list@.take(i as int + 1).drop_last() =~= before);
            if headers::fits(headers::fields(*old(m)), list@.len()) {
                lemma_with_set_fits(headers::fields(*old(m)), before, 1);
            }
        }
        match headers::insert(m, list[i].0.as_str(), list[i].1.as_str().as_bytes()) {
            Put::Full => {
                return false;
            },
            _ => {},
        }
        i = i + 1;
    }
    assert(list@.take(n as int) =~= list@);
    true
}

/// The headers of a response with the cookie that keeps the client on the upstream, where clients
/// are kept and the cookie can be sent.
pub open spec fn with_cookie(
    m: Map<Seq<char>, Seq<Seq<u8>>>,
    sticky: Option<StickyConfig>,
    address: Seq<char>,
) -> Map<Seq<char>, Seq<Seq<u8>>> {
    match sticky {
        Some(s) => {
            let value = utf8::encode_utf8(
                cookie_text(s.cookie_name@, address, s.max_age_secs as nat),
            );
            if headers::is_value(value) {
                headers::appended(m, text::lowered("Set-Cookie"@), value)
            } else {
                m
            }
        },
        None => m,
    }
}

/// The headers of a response to the client: those of the upstream, the cookie, the security
/// headers where they are wanted, and the configured ones, which replace others. The response to
/// an upgrade only gets the configured ones.
pub open spec fn finished(
    m: Map<Seq<char>, Seq<Seq<u8>>>,
    upgrade: bool,
    sticky: Option<StickyConfig>,
    address: Seq<char>,
    security_headers: bool,
    response_set: Seq<(String, String)>,
) -> Map<Seq<char>, Seq<Seq<u8>>> {
    let m = if upgrade {
        m
    } else {
        with_cookie(m, sticky, address)
    };
    let m = if security_headers && !upgrade {
        security::secured(m)
    } else {
        m
    };
    with_set(m, response_set)
}

/// Finishes the headers of a response to the client. It fails only where there is no room for
/// them.
pub fn finish_response(
    m: &mut http::HeaderMap<http::HeaderValue>,
    upgrade: bool,
    sticky: &Option<StickyConfig>,
    address: &str,
    security_headers: bool,
    response_set: &Vec<(String, String)>,
) -> (r: bool)
    ensures
        r ==> headers::fields(*final(m)) == finished(
            headers::fields(*old(m)),
            upgrade,
            *sticky,
            address@,
            security_headers,
            response_set@,
        ),
        headers::fits(headers::fields(*old(m)), 6 + response_set@.len()) ==> r,
{
    if upgrade {
        return set_all(m, response_set);
    }
    let ghost m0 = headers::fields(*m);
    let ghost k = response_set@.len();
    let ghost m1 = with_cookie(m0, *sticky, address@);
    proof {
        lemma_own_headers();
        if headers::fits(m0, 6 + k) {
            match sticky {
                Some(s) => {
                    lemma_appended_fits(
                        m0,
                        text::lowered("Set-Cookie"@),
                        utf8::encode_utf8(
                            cookie_text(s.cookie_name@, address@, s.max_age_secs as nat),
                        ),
                        5 + k,
                    );
                },
                None => {},
            }
            assert(headers::fits(m1, 5 + k));
            security::lemma_secured_fits(m1, k);
        }
    }
    match sticky {
        Some(s) => {
            let cookie: String = sticky_cookie(s, address);
            match headers::append(m, "Set-Cookie", cookie.as_str().as_bytes()) {
                Put::Full => {
                    return false;
                },
                _ => {},
            }
        },
        None => {},
    }
    if security_headers {
        if !security::apply_security_headers(m) {
            return false;
        }
    }
    set_all(m, response_set)
}

/// Whether a text asks for an upgrade.
pub open spec fn asks_upgrade(connection: Seq<char>) -> bool {
    text::holds(text::lowered(connection), "upgrade"@)
}

/// Whether a request asks for an upgrade: it has an upgrade header, or its connection header, in
/// whatever case, mentions one.
pub open spec fn upgrade_request(m: Map<Seq<char>, Seq<Seq<u8>>>) -> bool {
    m.dom().contains("upgrade"@) || (headers::header_text(m, "connection"@) matches Some(c)
        && asks_upgrade(c))
}

proof fn lemma_lower_names()
    ensures
        headers::is_name("upgrade"@),
        headers::is_name("connection"@),
        headers::is_name("cookie"@),
        text::lowered("upgrade"@) == "upgrade"@,
        text::lowered("connection"@) == "connection"@,
        text::lowered("cookie"@) == "cookie"@,
{
    reveal_strlit("upgrade");
    reveal_strlit("connection");
    reveal_strlit("cookie");
    assert(text::lowered("upgrade"@) =~= "upgrade"@);
    assert(text::lowered("connection"@) =~= "connection"@);
    assert(text::lowered("cookie"@) =~= "cookie"@);
}

/// Whether a request asks for an upgrade.
pub fn is_upgrade_request(m: &http::HeaderMap<http::HeaderValue>) -> (r: bool)
    ensures
        r == upgrade_request(headers::fields(*m)),
{
    proof {
        lemma_lower_names();
    }
    if headers::contains(m, "upgrade") {
        return true;
    }
    match headers::first_text(m, "connection") {
        Some(c) => {
            let low: Vec<char> = text::to_lower(text::chars(c.as_str()).as_slice());
            text::contains(low.as_slice(), text::chars("upgrade").as_slice())
        },
        None => false,
    }
}

/// The value that a part of a cookie header gives a name.
pub open spec fn part_value(part: Seq<char>, name: Seq<char>) -> Option<Seq<char>> {
    let p = text::trimmed(part);
    match text::first_at(p, '=') {
        Some(i) => if text::trimmed(p.take(i)) == name {
            Some(text::trimmed(p.skip(i + 1)))
        } else {
            None
        },
        None => None,
    }
}

/// The value that the first of some parts gives a name that gives one.
pub open spec fn parts_value(parts: Seq<Seq<char>>, name: Seq<char>) -> Option<Seq<char>>
    decreases parts.len(),
{
    if parts.len() == 0 {
        None
    } else if parts_value(parts.drop_last(), name) is Some {
        parts_value(parts.drop_last(), name)
    } else {
        part_value(parts.last(), name)
    }
}

/// The value that a cookie header gives a name.
pub open spec fn cookie_value(cookie: Seq<char>, name: Seq<char>) -> Option<Seq<char>> {
    parts_value(text::split(cookie, ';'), name)
}

proof fn lemma_parts_value(parts: Seq<Seq<char>>, name: Seq<char>, k: int)
    requires
        0 <= k <= parts.len(),
        parts_value(parts.take(k), name) is Some,
    ensures
        parts_value(parts, name) == parts_value(parts.take(k), name),
    decreases parts.len() - k,
{
    if k < parts.len() {
        assert(parts.take(k + 1).drop_last() =~= parts.take(k));
        lemma_parts_value(parts, name, k + 1);
    } else {
        assert(parts.take(k) =~= parts);
    }
}

fn read_part(part: &[char], name: &str) -> (r: Option<String>)
    ensures
        match r {
            Some(v) => part_value(part@, name@) == Some(v@),
            None => part_value(part@, name@) is None,
        },
{
    let p: &[char] = text::trim(part);
    match text::find(p, '=') {
        Some(i) => {
            let k: &[char] = slice_subrange(p, 0, i);
            let n: usize = p.len();
            let v: &[char] = slice_subrange(p, i + 1, n);
            assert(k@ =~= p@.take(i as int));
            assert(v@ =~= p@.skip(i as int + 1));
            if text::same(text::trim(k), text::chars(name).as_slice()) {
                Some(text::text(text::trim(v)))
            } else {
                None
            }
        },
        None => None,
    }
}

/// The value that a cookie header gives a name.
pub fn find_cookie(cookie: &str, name: &str) -> (r: Option<String>)
    ensures
        match r {
            Some(v) => cookie_value(cookie@, name@) == Some(v@),
            None => cookie_value(cookie@, name@) is None,
        },
{
    let parts: Vec<Vec<char>> = text::pieces(text::chars(cookie).as_slice(), ';');
    let ghost ps = text::views(parts@);
    let n: usize = parts.len();
    let mut i: usize = 0;
    assert(ps.take(0) =~= Seq::empty());
    while i < n
        invariant
            n == parts@.len(),
            i <= n,
            ps == text::views(parts@),
            ps == text::split(cookie@, ';'),
            parts_value(ps.take(i as int), name@) is None,
        decreases n - i,
    {
        assert(ps.take(i as int + 1).drop_last() =~= ps.take(i as int));
        assert(ps[i as int] == parts@[i as int]@);
        let v: Option<String> = read_part(parts[i].as_slice(), name);
        if v.is_some() {
            proof {
                lemma_parts_value(ps, name@, i as int + 1);
            }
            return v;
        }
        i = i + 1;
    }
    assert(ps.take(n as int) =~= ps);
    None
}

/// The value that the cookie header of a request gives a name.
pub fn extract_cookie(m: &http::HeaderMap<http::HeaderValue>, name: &str) -> (r: Option<String>)
    ensures
        match headers::header_text(headers::fields(*m), "cookie"@) {
            Some(c) => match r {
                Some(v) => cookie_value(c, name@) == Some(v@),
                None => cookie_value(c, name@) is None,
            },
            None => r is None,
        },
{
    proof {
        lemma_lower_names();
    }
    match headers::first_text(m, "cookie") {
        Some(c) => find_cookie(c.as_str(), name),
        None => None,
    }
}

/// Whether a text is not changed by trimming: it neither begins nor ends with white space.
pub open spec fn tight(s: Seq<char>) -> bool {
    s.len() > 0 && !text::is_space(s[0]) && !text::is_space(s.last())
}

/// Affinity: the cookie that a client gets names the upstream address when it comes back. (The
/// name and the address are such that a cookie can carry them: they neither begin nor end with
/// white space, none of them holds a semicolon, and the name holds no equals sign.)
pub proof fn law_cookie_comes_back(name: Seq<char>, address: Seq<char>)
    requires
        tight(name),
        tight(address),
        !name.contains(';'),
        !name.contains('='),
        !address.contains(';'),
    ensures
        cookie_value(name + "="@ + address, name) == Some(address),
{
    reveal_strlit("=");
    let s = name + "="@ + address;
    assert("="@.len() == 1 && "="@[0] == '=');
    assert forall|i: int| 0 <= i < s.len() implies s[i] != ';' by {
        if i < name.len() {
            assert(name.contains(name[i]));
        } else if i > name.len() {
            assert(address.contains(address[i - name.len() - 1]));
        }
    }
    text::lemma_split_single(s, ';');
    let parts = text::split(s, ';');
    assert(parts.drop_last() =~= Seq::empty());
    assert(s[0] == name[0] && s.last() == address.last());
    assert(text::trimmed(s) == s);
    text::lemma_first_at(s, '=');
    assert(s[name.len() as int] == '=');
    assert forall|i: int| 0 <= i < name.len() implies s[i] != '=' by {
        assert(name.contains(name[i]));
    }
    assert(text::first_at(s, '=') == Some(name.len() as int));
    assert(s.take(name.len() as int) =~= name);
    assert(s.skip(name.len() as int + 1) =~= address);
    assert(text::trimmed(name) == name && text::trimmed(address) == address);
    assert(part_value(s, name) == Some(address));
    assert(parts_value(parts.drop_last(), name) is None);
    assert(parts.last() == s);
}

/// Whether a list has a field of a name, in whatever case it is written.
pub open spec fn names(list: Seq<(String, String)>, name: Seq<char>) -> bool {
    exists|i: int| 0 <= i < list.len() && text::lowered((#[trigger] list[i]).0@) == name
}

proof fn lemma_with_all_leaves(
    m: Map<Seq<char>, Seq<Seq<u8>>>,
    list: Seq<(String, String)>,
    name: Seq<char>,
)
    requires
        !names(list, name),
    ensures
        with_all(m, list).dom().contains(name) == m.dom().contains(name),
        m.dom().contains(name) ==> with_all(m, list)[name] == m[name],
    decreases list.len(),
{
    if list.len() > 0 {
        let p = list.drop_last();
        assert forall|i: int| 0 <= i < p.len() implies text::lowered((#[trigger] p[i]).0@)
            != name by {
            assert(p[i] == list[i]);
        }
        lemma_with_all_leaves(m, p, name);
        assert(text::lowered(list[list.len() - 1].0@) != name);
    }
}

proof fn lemma_name_lengths()
    ensures
        text::lowered("X-Real-IP"@).len() == 9,
        text::lowered("X-Forwarded-For"@).len() == 15,
        text::lowered("X-Forwarded-Proto"@).len() == 17,
        text::lowered("host"@).len() == 4,
        text::lowered("X-Real-IP"@)[0] == 'x',
        text::lowered("X-Forwarded-For"@)[0] == 'x',
        text::lowered("X-Forwarded-Proto"@)[0] == 'x',
        text::lowered("host"@)[0] == 'h',
        "connection"@[0] == 'c',
        "upgrade"@[0] == 'u',
        "keep-alive"@[0] == 'k',
        "proxy-authenticate"@[0] == 'p',
        "proxy-authorization"@[0] == 'p',
        "te"@[0] == 't',
        "trailers"@[0] == 't',
        "transfer-encoding"@[0] == 't',
{
    reveal_strlit("X-Real-IP");
    reveal_strlit("X-Forwarded-For");
    reveal_strlit("X-Forwarded-Proto");
    reveal_strlit("host");
    reveal_strlit("connection");
    reveal_strlit("upgrade");
    reveal_strlit("keep-alive");
    reveal_strlit("proxy-authenticate");
    reveal_strlit("proxy-authorization");
    reveal_strlit("te");
    reveal_strlit("trailers");
    reveal_strlit("transfer-encoding");
}

/// Headers that concern one connection only do not reach an upstream, unless the configuration
/// adds them.
pub proof fn law_hop_by_hop_stays(
    m: Map<Seq<char>, Seq<Seq<u8>>>,
    upstream: Seq<char>,
    client_ip: Seq<char>,
    client_is_tls: bool,
    request_set: Seq<(String, String)>,
    preserve_upgrade: bool,
    name: Seq<char>,
)
    requires
        if preserve_upgrade {
            hop_by_hop_except_upgrade(name)
        } else {
            hop_by_hop(name)
        },
        !names(request_set, name),
    ensures
        !forwarded(
            m,
            upstream,
            client_ip,
            client_is_tls,
            request_set,
            preserve_upgrade,
        ).dom().contains(name),
{
    lemma_name_lengths();
    let m1 = passed_on(m, true, preserve_upgrade);
    let m2 = with_client(m1, client_ip, client_is_tls);
    lemma_with_all_leaves(m2, request_set, name);
}

/// An upstream learns who the client is: whatever the client sent, the last value of the address
/// headers is the address of the connection, and the last one of the protocol header is the scheme
/// that the client used, each unless the configuration adds one.
pub proof fn law_client_is_told(
    m: Map<Seq<char>, Seq<Seq<u8>>>,
    upstream: Seq<char>,
    client_ip: Seq<char>,
    client_is_tls: bool,
    request_set: Seq<(String, String)>,
    preserve_upgrade: bool,
)
    ensures
        ({
            let f = forwarded(
                m,
                upstream,
                client_ip,
                client_is_tls,
                request_set,
                preserve_upgrade,
            );
            &&& !names(request_set, text::lowered("X-Real-IP"@)) ==> headers::values(
                f,
                text::lowered("X-Real-IP"@),
            ).last() == utf8::encode_utf8(client_ip)
            &&& !names(request_set, text::lowered("X-Forwarded-For"@)) ==> headers::values(
                f,
                text::lowered("X-Forwarded-For"@),
            ).last() == utf8::encode_utf8(client_ip)
            &&& !names(request_set, text::lowered("X-Forwarded-Proto"@)) ==> headers::values(
                f,
                text::lowered("X-Forwarded-Proto"@),
            ).last() == utf8::encode_utf8(scheme(client_is_tls))
        }),
{
    lemma_name_lengths();
    let m1 = passed_on(m, true, preserve_upgrade);
    let m2 = with_client(m1, client_ip, client_is_tls);
    if !names(request_set, text::lowered("X-Real-IP"@)) {
        lemma_with_all_leaves(m2, request_set, text::lowered("X-Real-IP"@));
    }
    if !names(request_set, text::lowered("X-Forwarded-For"@)) {
        lemma_with_all_leaves(m2, request_set, text::lowered("X-Forwarded-For"@));
    }
    if !names(request_set, text::lowered("X-Forwarded-Proto"@)) {
        lemma_with_all_leaves(m2, request_set, text::lowered("X-Forwarded-Proto"@));
    }
}

/// The host that an upstream is asked for is its own: whatever host the client named, the only
/// value of the host header is the host of the upstream's address (there is none where the address
/// has no host that can be sent), unless the configuration adds one.
pub proof fn law_host_is_the_upstreams(
    m: Map<Seq<char>, Seq<Seq<u8>>>,
    upstream: Seq<char>,
    client_ip: Seq<char>,
    client_is_tls: bool,
    request_set: Seq<(String, String)>,
    preserve_upgrade: bool,
)
    requires
        !names(request_set, "host"@),
    ensures
        headers::values(
            forwarded(m, upstream, client_ip, client_is_tls, request_set, preserve_upgrade),
            "host"@,
        ) == (match host_of(upstream) {
            Some(h) if headers::is_value(utf8::encode_utf8(h)) => seq![utf8::encode_utf8(h)],
            _ => Seq::empty(),
        }),
{
    lemma_name_lengths();
    reveal_strlit("host");
    assert(text::lowered("host"@) =~= "host"@);
    let m1 = passed_on(m, true, preserve_upgrade);
    let m2 = with_client(m1, client_ip, client_is_tls);
    assert(!m2.dom().contains("host"@));
    lemma_with_all_leaves(m2, request_set, "host"@);
    let m3 = with_all(m2, request_set);
    assert(headers::values(m3, "host"@) =~= Seq::empty());
    match host_of(upstream) {
        Some(h) => {
            assert(Seq::<Seq<u8>>::empty().push(utf8::encode_utf8(h)) =~= seq![
                utf8::encode_utf8(h),
            ]);
        },
        None => {},
    }
}

/// Whether a configured header is one that can be sent, and is not named again later.
pub open spec fn settles(list: Seq<(String, String)>, k: int) -> bool {
    &&& 0 <= k < list.len()
    &&& headers::is_name(list[k].0@)
    &&& headers::is_value(utf8::encode_utf8(list[k].1@))
    &&& forall|j: int|
        k < j < list.len() ==> text::lowered((#[trigger] list[j]).0@) != text::lowered(list[k].0@)
}

/// A configured response header is on every response that is delivered, an upgrade included, as
/// the only value of its name.
pub proof fn law_response_header_is_set(
    m: Map<Seq<char>, Seq<Seq<u8>>>,
    upgrade: bool,
    sticky: Option<StickyConfig>,
    address: Seq<char>,
    security_headers: bool,
    response_set: Seq<(String, String)>,
    k: int,
)
    requires
        settles(response_set, k),
    ensures
        headers::values(
            finished(m, upgrade, sticky, address, security_headers, response_set),
            text::lowered(response_set[k].0@),
        ) == seq![utf8::encode_utf8(response_set[k].1@)],
{
    lemma_with_set_sets(
        finished(m, upgrade, sticky, address, security_headers, Seq::empty()),
        response_set,
        k,
    );
}

/// A configured response header is on every answer of the proxy itself, as the only value of its
/// name.
pub proof fn law_answer_header_is_set(
    m: Map<Seq<char>, Seq<Seq<u8>>>,
    response_set: Seq<(String, String)>,
    k: int,
)
    requires
        settles(response_set, k),
    ensures
        headers::values(with_set(m, response_set), text::lowered(response_set[k].0@)) == seq![
            utf8::encode_utf8(response_set[k].1@),
        ],
{
    lemma_with_set_sets(m, response_set, k);
}

proof fn lemma_with_set_sets(
    m: Map<Seq<char>, Seq<Seq<u8>>>,
    list: Seq<(String, String)>,
    k: int,
)
    requires
        settles(list, k),
    ensures
        headers::values(with_set(m, list), text::lowered(list[k].0@)) == seq![
            utf8::encode_utf8(list[k].1@),
        ],
    decreases list.len(),
{
    if k < list.len() - 1 {
        let p = list.drop_last();
        assert(forall|j: int| 0 <= j < p.len() ==> p[j] == #[trigger] list[j]);
        lemma_with_set_sets(m, p, k);
        assert(text::lowered(list[list.len() - 1].0@) != text::lowered(list[k].0@));
    }
}

/// What a target is: the address without the slashes at its end, the path, which is a slash where
/// the request names none, and where there is a query, a question mark and the whole query.
pub proof fn law_target(stem: Seq<char>, slashes: nat, path: Seq<char>, q: Seq<char>)
    requires
        stem.len() > 0 ==> stem.last() != '/',
        path.len() > 0,
    ensures
        ({
            let base = stem + text::repeated('/', slashes);
            &&& target_of(base, path, None) == stem + path
            &&& target_of(base, path, Some(q)) == stem + path + seq!['?'] + q
            &&& target_of(base, Seq::empty(), None) == stem.push('/')
            &&& target_of(base, Seq::empty(), Some(q)) == stem + seq!['/', '?'] + q
        }),
{
    reveal_strlit("/");
    reveal_strlit("?");
    let base = stem + text::repeated('/', slashes);
    text::law_run_is_taken_off(stem, '/', slashes);
    assert("?"@ =~= seq!['?']);
    assert(target_of(base, Seq::empty(), None) =~= stem.push('/'));
    assert(target_of(base, Seq::empty(), Some(q)) =~= stem + seq!['/', '?'] + q);
}

/// A target ends with the path and the query of the request, whatever they hold, and what stands
/// before them is the beginning of the address, of which only slashes are left out.
pub proof fn law_target_keeps_the_request(
    base: Seq<char>,
    path: Seq<char>,
    query: Option<Seq<char>>,
)
    requires
        path.len() > 0,
    ensures
        ({
            let t = target_of(base, path, query);
            let tail = match query {
                Some(q) => path + seq!['?'] + q,
                None => path,
            };
            let head = t.len() - tail.len();
            &&& 0 <= head <= base.len()
            &&& t.skip(head) == tail
            &&& t.take(head) == base.take(head)
            &&& base.skip(head) == text::repeated('/', (base.len() - head) as nat)
            &&& head > 0 ==> t[head - 1] != '/'
        }),
{
    let stem = text::without_trailing(base, '/');
    let n = (base.len() - stem.len()) as nat;
    text::law_trailing_run(base, '/');
    let t = target_of(base, path, query);
    let tail = match query {
        Some(q) => path + seq!['?'] + q,
        None => path,
    };
    let head = stem.len() as int;
    match query {
        Some(q) => {
            law_target(stem, n, path, q);
            assert(t =~= stem + tail);
        },
        None => {
            law_target(stem, n, path, Seq::empty());
        },
    }
    assert(t == stem + tail);
    assert(t.skip(head) =~= tail);
    assert(t.take(head) =~= stem);
    assert(base.take(head) =~= stem);
    assert(base.skip(head) =~= text::repeated('/', n));
    assert(head > 0 ==> t[head - 1] == stem.last());
}

/// The beginning of an address over plain HTTP.
pub open spec fn plain_scheme() -> Seq<char> {
    seq!['h', 't', 't', 'p', ':', '/', '/']
}

/// The beginning of an address over HTTPS.
pub open spec fn secure_scheme() -> Seq<char> {
    seq!['h', 't', 't', 'p', 's', ':', '/', '/']
}

proof fn lemma_before_slash(host: Seq<char>, rest: Seq<char>)
    requires
        !host.contains('/'),
    ensures
        before_slash(host) == host,
        before_slash(host + seq!['/'] + rest) == host,
{
    text::lemma_first_at(host, '/');
    match text::first_at(host, '/') {
        Some(i) => {
            assert(host.contains(host[i]));
        },
        None => {},
    }
    let s = host + seq!['/'] + rest;
    text::lemma_first_at(s, '/');
    assert(s[host.len() as int] == '/');
    assert forall|j: int| 0 <= j < host.len() implies s[j] != '/' by {
        assert(host.contains(host[j]));
        assert(s[j] == host[j]);
    }
    assert(s.take(host.len() as int) =~= host);
}

/// The host of an address is what stands between its scheme and the next slash, or its end. An
/// address that begins with neither scheme has none.
pub proof fn law_host(host: Seq<char>, rest: Seq<char>, other: Seq<char>)
    requires
        !host.contains('/'),
    ensures
        host_of(plain_scheme() + host) == Some(host),
        host_of(secure_scheme() + host) == Some(host),
        host_of(plain_scheme() + host + seq!['/'] + rest) == Some(host),
        host_of(secure_scheme() + host + seq!['/'] + rest) == Some(host),
        !plain_scheme().is_prefix_of(other) && !secure_scheme().is_prefix_of(other) ==> host_of(
            other,
        ) is None,
{
    reveal_strlit("http://");
    reveal_strlit("https://");
    assert("http://"@ =~= plain_scheme());
    assert("https://"@ =~= secure_scheme());
    lemma_before_slash(host, rest);
    let tail = host + seq!['/'] + rest;
    assert(plain_scheme() + host + seq!['/'] + rest =~= plain_scheme() + tail);
    assert(secure_scheme() + host + seq!['/'] + rest =~= secure_scheme() + tail);
    lemma_after_scheme(host);
    lemma_after_scheme(tail);
}

proof fn lemma_after_scheme(s: Seq<char>)
    ensures
        plain_scheme().is_prefix_of(plain_scheme() + s),
        secure_scheme().is_prefix_of(secure_scheme() + s),
        !plain_scheme().is_prefix_of(secure_scheme() + s),
        (plain_scheme() + s).skip(7) == s,
        (secure_scheme() + s).skip(8) == s,
{
    let a = plain_scheme() + s;
    let b = secure_scheme() + s;
    assert(plain_scheme() =~= a.take(7));
    assert(secure_scheme() =~= b.take(8));
    assert(a.skip(7) =~= s);
    assert(b.skip(8) =~= s);
    assert(b.take(7)[4] == 's');
    assert(plain_scheme()[4] == ':');
}

/// The headers of a connection are the eight listed here, and those that do not even go along with
/// an upgrade are the last six of them.
pub proof fn law_connection_headers(name: Seq<char>)
    ensures
        hop_by_hop(name) <==> seq![
            "connection"@,
            "upgrade"@,
            "keep-alive"@,
            "proxy-authenticate"@,
            "proxy-authorization"@,
            "te"@,
            "trailers"@,
            "transfer-encoding"@,
        ].contains(name),
        hop_by_hop_except_upgrade(name) <==> seq![
            "keep-alive"@,
            "proxy-authenticate"@,
            "proxy-authorization"@,
            "te"@,
            "trailers"@,
            "transfer-encoding"@,
        ].contains(name),
{
    let all = seq![
        "connection"@,
        "upgrade"@,
        "keep-alive"@,
        "proxy-authenticate"@,
        "proxy-authorization"@,
        "te"@,
        "trailers"@,
        "transfer-encoding"@,
    ];
    let six = seq![
        "keep-alive"@,
        "proxy-authenticate"@,
        "proxy-authorization"@,
        "te"@,
        "trailers"@,
        "transfer-encoding"@,
    ];
    assert(all[0] == "connection"@ && all[1] == "upgrade"@);
    assert(six[0] == "keep-alive"@ && six[1] == "proxy-authenticate"@ && six[2]
        == "proxy-authorization"@ && six[3] == "te"@ && six[4] == "trailers"@ && six[5]
        == "transfer-encoding"@);
    assert forall|i: int| 0 <= i < 6 implies six[i] == all[i + 2] by {}
    assert(all[2] == six[0] && all[3] == six[1] && all[4] == six[2] && all[5] == six[3] && all[6]
        == six[4] && all[7] == six[5]);
}

/// Copied headers are the same headers: one that is no header of a connection, nor a host that is
/// left out, is there exactly where it was, with the same values in the same order. The upgrade
/// headers go along where an upgrade is wanted.
pub proof fn law_headers_pass_unchanged(
    m: Map<Seq<char>, Seq<Seq<u8>>>,
    without_host: bool,
    preserve_upgrade: bool,
    name: Seq<char>,
)
    ensures
        ({
            let p = passed_on(m, without_host, preserve_upgrade);
            let connection = name == "connection"@ || name == "upgrade"@;
            let stays = (without_host && name == "host"@) || (connection && !preserve_upgrade)
                || seq![
                "keep-alive"@,
                "proxy-authenticate"@,
                "proxy-authorization"@,
                "te"@,
                "trailers"@,
                "transfer-encoding"@,
            ].contains(name);
            &&& stays ==> !p.dom().contains(name)
            &&& !stays ==> p.dom().contains(name) == m.dom().contains(name)
            &&& !stays && m.dom().contains(name) ==> p[name] == m[name]
        }),
{
    law_connection_headers(name);
}

proof fn lemma_own_names()
    ensures
        text::lowered("X-Real-IP"@) == "x-real-ip"@,
        text::lowered("X-Forwarded-For"@) == "x-forwarded-for"@,
        text::lowered("X-Forwarded-Proto"@) == "x-forwarded-proto"@,
        text::lowered("host"@) == "host"@,
        text::lowered("Set-Cookie"@) == "set-cookie"@,
{
    reveal_strlit("X-Real-IP");
    reveal_strlit("X-Forwarded-For");
    reveal_strlit("X-Forwarded-Proto");
    reveal_strlit("host");
    reveal_strlit("Set-Cookie");
    reveal_strlit("x-real-ip");
    reveal_strlit("x-forwarded-for");
    reveal_strlit("x-forwarded-proto");
    reveal_strlit("set-cookie");
    assert(text::lowered("X-Real-IP"@) =~= "x-real-ip"@);
    assert(text::lowered("X-Forwarded-For"@) =~= "x-forwarded-for"@);
    assert(text::lowered("X-Forwarded-Proto"@) =~= "x-forwarded-proto"@);
    assert(text::lowered("host"@) =~= "host"@);
    assert(text::lowered("Set-Cookie"@) =~= "set-cookie"@);
}

/// What an upstream gets of a header that the configuration does not name: the client's values in
/// their order, where the header is passed on; behind them, in the headers that tell of the client,
/// the address of the client or the scheme.
pub proof fn law_forwarded(
    m: Map<Seq<char>, Seq<Seq<u8>>>,
    upstream: Seq<char>,
    client_ip: Seq<char>,
    client_is_tls: bool,
    request_set: Seq<(String, String)>,
    preserve_upgrade: bool,
    name: Seq<char>,
)
    requires
        !names(request_set, name),
        name != "host"@,
        !seq![
            "keep-alive"@,
            "proxy-authenticate"@,
            "proxy-authorization"@,
            "te"@,
            "trailers"@,
            "transfer-encoding"@,
        ].contains(name),
        preserve_upgrade || (name != "connection"@ && name != "upgrade"@),
    ensures
        ({
            let f = forwarded(
                m,
                upstream,
                client_ip,
                client_is_tls,
                request_set,
                preserve_upgrade,
            );
            if name == "x-real-ip"@ || name == "x-forwarded-for"@ {
                headers::values(f, name) == headers::values(m, name).push(
                    utf8::encode_utf8(client_ip),
                )
            } else if name == "x-forwarded-proto"@ {
                headers::values(f, name) == headers::values(m, name).push(
                    utf8::encode_utf8(
                        if client_is_tls {
                            "https"@
                        } else {
                            "http"@
                        },
                    ),
                )
            } else {
                &&& f.dom().contains(name) == m.dom().contains(name)
                &&& m.dom().contains(name) ==> f[name] == m[name]
            }
        }),
{
    lemma_name_lengths();
    lemma_own_names();
    law_connection_headers(name);
    let m1 = passed_on(m, true, preserve_upgrade);
    let m2 = with_client(m1, client_ip, client_is_tls);
    lemma_with_all_leaves(m2, request_set, name);
}

/// Whether a configured header can be sent.
pub open spec fn sendable(field: (String, String)) -> bool {
    headers::is_name(field.0@) && headers::is_value(utf8::encode_utf8(field.1@))
}

/// A configured request header reaches the upstream: one more of them adds its value, behind all
/// other values of its name, and changes no other header. (The host header of the upstream itself
/// comes behind configured ones.)
pub proof fn law_request_header_is_added(
    m: Map<Seq<char>, Seq<Seq<u8>>>,
    upstream: Seq<char>,
    client_ip: Seq<char>,
    client_is_tls: bool,
    request_set: Seq<(String, String)>,
    field: (String, String),
    preserve_upgrade: bool,
    name: Seq<char>,
)
    ensures
        ({
            let before = forwarded(
                m,
                upstream,
                client_ip,
                client_is_tls,
                request_set,
                preserve_upgrade,
            );
            let after = forwarded(
                m,
                upstream,
                client_ip,
                client_is_tls,
                request_set.push(field),
                preserve_upgrade,
            );
            &&& name == text::lowered(field.0@) && name != "host"@ ==> headers::values(after, name)
                == headers::values(before, name).push(utf8::encode_utf8(field.1@))
            &&& name != text::lowered(field.0@) ==> after.dom().contains(name)
                == before.dom().contains(name) && headers::values(after, name) == headers::values(
                before,
                name,
            )
        }),
{
    lemma_own_names();
    assert(request_set.push(field).drop_last() =~= request_set);
}

proof fn lemma_with_set_leaves(
    m: Map<Seq<char>, Seq<Seq<u8>>>,
    list: Seq<(String, String)>,
    name: Seq<char>,
)
    requires
        !names(list, name),
    ensures
        with_set(m, list).dom().contains(name) == m.dom().contains(name),
        m.dom().contains(name) ==> with_set(m, list)[name] == m[name],
    decreases list.len(),
{
    if list.len() > 0 {
        let p = list.drop_last();
        assert forall|i: int| 0 <= i < p.len() implies text::lowered((#[trigger] p[i]).0@)
            != name by {
            assert(p[i] == list[i]);
        }
        lemma_with_set_leaves(m, p, name);
        assert(text::lowered(list[list.len() - 1].0@) != name);
    }
}

/// A configured response header takes the place of every other value of its name and changes no
/// other header; one that cannot be sent changes nothing.
pub proof fn law_response_header_replaces(
    m: Map<Seq<char>, Seq<Seq<u8>>>,
    response_set: Seq<(String, String)>,
    field: (String, String),
    name: Seq<char>,
)
    ensures
        ({
            let before = with_set(m, response_set);
            let after = with_set(m, response_set.push(field));
            &&& !sendable(field) ==> after == before
            &&& sendable(field) && name == text::lowered(field.0@) ==> headers::values(after, name)
                == seq![utf8::encode_utf8(field.1@)]
            &&& name != text::lowered(field.0@) ==> after.dom().contains(name)
                == before.dom().contains(name) && headers::values(after, name) == headers::values(
                before,
                name,
            )
        }),
        with_set(m, Seq::empty()) == m,
{
    assert(response_set.push(field).drop_last() =~= response_set);
}

/// What the client gets of a header that the configuration does not name. The response to an
/// upgrade is as the upstream sent it. Any other keeps what the upstream sent, has the cookie
/// behind the upstream's own cookies where clients are kept and it can be sent, and the security
/// headers that the upstream did not send, where they are wanted.
pub proof fn law_finished(
    m: Map<Seq<char>, Seq<Seq<u8>>>,
    upgrade: bool,
    sticky: Option<StickyConfig>,
    address: Seq<char>,
    security_headers: bool,
    response_set: Seq<(String, String)>,
    name: Seq<char>,
)
    requires
        !names(response_set, name),
    ensures
        ({
            let f = finished(m, upgrade, sticky, address, security_headers, response_set);
            let same = f.dom().contains(name) == m.dom().contains(name) && headers::values(f, name)
                == headers::values(m, name);
            if upgrade {
                same
            } else if name == "set-cookie"@ {
                match sticky {
                    Some(s) => {
                        let cookie = utf8::encode_utf8(
                            cookie_text(s.cookie_name@, address, s.max_age_secs as nat),
                        );
                        if headers::is_value(cookie) {
                            headers::values(f, name) == headers::values(m, name).push(cookie)
                        } else {
                            same
                        }
                    },
                    None => same,
                }
            } else if m.dom().contains(name) || !security_headers {
                same
            } else {
                f.dom().contains(name) == security::secured(m).dom().contains(name)
                    && headers::values(f, name) == headers::values(security::secured(m), name)
            }
        }),
{
    lemma_own_names();
    let m1 = if upgrade {
        m
    } else {
        with_cookie(m, sticky, address)
    };
    let m2 = if security_headers && !upgrade {
        security::secured(m1)
    } else {
        m1
    };
    lemma_with_set_leaves(m2, response_set, name);
    if name == "set-cookie"@ {
        reveal_strlit("set-cookie");
        security::law_security_headers(m1, name);
        security::lemma_security_names();
    } else {
        security::law_security_headers(m1, name);
        security::law_security_headers(m, name);
        if m1.dom().contains(name) {
            security::law_security_headers_replace_nothing(m1, name);
        }
    }
}

/// The parts of the cookie that a client gets: the name and the address, a path that covers the
/// whole site, the number of seconds, and the two flags.
pub proof fn law_sticky_cookie(name: Seq<char>, address: Seq<char>, max_age_secs: nat)
    requires
        !name.contains(';'),
        !address.contains(';'),
    ensures
        text::split(cookie_text(name, address, max_age_secs), ';') == seq![
            name + seq!['='] + address,
            " Path=/"@,
            " Max-Age="@ + text::decimal(max_age_secs),
            " HttpOnly"@,
            " SameSite=Lax"@,
        ],
{
    let age = text::decimal(max_age_secs);
    let first = name + seq!['='] + address;
    let third = " Max-Age="@ + age;
    let ps = seq![first, " Path=/"@, third, " HttpOnly"@, " SameSite=Lax"@];
    assert(!first.contains(';')) by {
        if first.contains(';') {
            let i = choose|i: int| 0 <= i < first.len() && first[i] == ';';
            if i < name.len() {
                assert(name[i] == ';');
            } else if i > name.len() {
                assert(address[i - name.len() - 1] == ';');
            }
        }
    }
    assert(!third.contains(';')) by {
        reveal_strlit(" Max-Age=");
        text::lemma_decimal_digits(max_age_secs);
        if third.contains(';') {
            let i = choose|i: int| 0 <= i < third.len() && third[i] == ';';
            if i >= " Max-Age="@.len() {
                assert(age[i - " Max-Age="@.len()] == ';');
            }
        }
    }
    assert(!" Path=/"@.contains(';') && !" HttpOnly"@.contains(';') && !" SameSite=Lax"@.contains(
        ';',
    )) by {
        reveal_strlit(" Path=/");
        reveal_strlit(" HttpOnly");
        reveal_strlit(" SameSite=Lax");
    }
    text::law_joined_split(ps, ';');
    text::lemma_joined_five(first, " Path=/"@, third, " HttpOnly"@, " SameSite=Lax"@, ';');
    assert("; Path=/; Max-Age="@ == seq![';'] + " Path=/"@ + seq![';'] + " Max-Age="@) by {
        reveal_strlit(" Path=/");
        reveal_strlit(" Max-Age=");
        reveal_strlit("; Path=/; Max-Age=");
        assert("; Path=/; Max-Age="@ =~= seq![';'] + " Path=/"@ + seq![';'] + " Max-Age="@);
    }
    assert("; HttpOnly; SameSite=Lax"@ == seq![';'] + " HttpOnly"@ + seq![';']
        + " SameSite=Lax"@) by {
        reveal_strlit(" HttpOnly");
        reveal_strlit(" SameSite=Lax");
        reveal_strlit("; HttpOnly; SameSite=Lax");
        assert("; HttpOnly; SameSite=Lax"@ =~= seq![';'] + " HttpOnly"@ + seq![';']
            + " SameSite=Lax"@);
    }
    assert("="@ == seq!['=']) by {
        reveal_strlit("=");
        assert("="@ =~= seq!['=']);
    }
    assert(cookie_text(name, address, max_age_secs) =~= text::joined(ps, ';'));
}

/// A connection header asks for an upgrade wherever it holds the word, in whatever case and among
/// whatever else, and nowhere else.
pub proof fn law_asks_upgrade(a: Seq<char>, word: Seq<char>, b: Seq<char>)
    ensures
        text::lowered(word) == "upgrade"@ ==> asks_upgrade(a + word + b),
        asks_upgrade(a) ==> exists|i: int|
            0 <= i && i + 7 <= a.len() && text::lowered(#[trigger] a.subrange(i, i + 7))
                == "upgrade"@,
{
    reveal_strlit("upgrade");
    let s = a + word + b;
    if text::lowered(word) == "upgrade"@ {
        assert(text::lowered(s) =~= text::lowered(a) + text::lowered(word) + text::lowered(b));
        text::law_holds(text::lowered(a), "upgrade"@, text::lowered(b));
    }
    if asks_upgrade(a) {
        let low = text::lowered(a);
        let i = choose|i: int|
            0 <= i <= low.len() - "upgrade"@.len() && #[trigger] low.subrange(
                i,
                i + "upgrade"@.len(),
            ) == "upgrade"@;
        assert(text::lowered(a.subrange(i, i + 7)) =~= low.subrange(i, i + 7));
    }
}

/// Which requests ask for an upgrade: those with an upgrade header, and those whose first
/// connection header is a text that asks for one.
pub proof fn law_upgrade_request(m: Map<Seq<char>, Seq<Seq<u8>>>)
    ensures
        m.dom().contains("upgrade"@) ==> upgrade_request(m),
        !m.dom().contains("upgrade"@) && !m.dom().contains("connection"@) ==> !upgrade_request(m),
        !m.dom().contains("upgrade"@) && m.dom().contains("connection"@) ==> upgrade_request(m) == (
        headers::visible_text(m["connection"@][0]) matches Some(c) && asks_upgrade(c)),
{
}

/// A part of a cookie header gives its name the value behind the first equals sign; white space
/// around the name and the value does not count. It gives no other name a value, and a part without
/// an equals sign gives none at all.
pub proof fn law_cookie_part(
    a: Seq<char>,
    name: Seq<char>,
    b: Seq<char>,
    c: Seq<char>,
    value: Seq<char>,
    d: Seq<char>,
    other: Seq<char>,
)
    requires
        text::blank(a),
        text::blank(b),
        text::blank(c),
        text::blank(d),
        tight(name),
        !name.contains('='),
        tight(value) || value.len() == 0,
    ensures
        part_value(a + name + b + seq!['='] + c + value + d, name) == Some(value),
        other != name ==> part_value(a + name + b + seq!['='] + c + value + d, other) is None,
        !other.contains('=') ==> part_value(other, name) is None,
{
    let part = a + name + b + seq!['='] + c + value + d;
    let (inner, end) = if value.len() == 0 {
        (name + b + seq!['='], c + d)
    } else {
        (name + b + seq!['='] + c + value, d)
    };
    assert(text::blank(c + d));
    assert(part =~= a + inner + end);
    assert(inner[0] == name[0]);
    assert(!text::is_space('='));
    assert(value.len() > 0 ==> inner.last() == value.last());
    assert(value.len() == 0 ==> inner.last() == '=');
    text::law_trimmed(a, inner, end);
    let at = (name.len() + b.len()) as int;
    assert(inner[at] == '=');
    text::lemma_first_at(inner, '=');
    assert forall|i: int| 0 <= i < at implies inner[i] != '=' by {
        if i < name.len() {
            assert(inner[i] == name[i]);
            assert(name.contains(name[i]));
        } else {
            assert(inner[i] == b[i - name.len()]);
            assert(text::is_space(b[i - name.len()]));
        }
    }
    assert(text::first_at(inner, '=') == Some(at));
    let e = Seq::<char>::empty();
    assert(text::blank(e));
    assert(inner.take(at) =~= e + name + b);
    text::law_trimmed(e, name, b);
    if value.len() == 0 {
        assert(inner.skip(at + 1) =~= e + value + e);
        text::law_trimmed(e, value, e);
    } else {
        assert(inner.skip(at + 1) =~= c + value + e);
        text::law_trimmed(c, value, e);
    }
    assert(value.len() == 0 ==> value =~= e);
    if !other.contains('=') {
        let p = text::trimmed(other);
        text::lemma_trimmed_within(other, '=');
        text::lemma_first_at(p, '=');
        match text::first_at(p, '=') {
            Some(i) => {
                assert(p.contains(p[i]));
            },
            None => {},
        }
    }
}

/// The first part that gives a name a value decides; where none does, the header gives none.
pub proof fn law_first_cookie_wins(parts: Seq<Seq<char>>, name: Seq<char>, k: int)
    requires
        parts.len() > 0,
        0 <= k <= parts.len(),
        forall|i: int| 0 <= i < parts.len() ==> !(#[trigger] parts[i]).contains(';'),
        forall|i: int| 0 <= i < k ==> part_value(#[trigger] parts[i], name) is None,
        k < parts.len() ==> part_value(parts[k], name) is Some,
    ensures
        k < parts.len() ==> cookie_value(text::joined(parts, ';'), name) == part_value(
            parts[k],
            name,
        ),
        k == parts.len() ==> cookie_value(text::joined(parts, ';'), name) is None,
{
    text::law_joined_split(parts, ';');
    lemma_no_value(parts, name, k);
    if k < parts.len() {
        assert(parts.take(k + 1).drop_last() =~= parts.take(k));
        lemma_parts_value(parts, name, k + 1);
    } else {
        assert(parts.take(k) =~= parts);
    }
}

proof fn lemma_no_value(parts: Seq<Seq<char>>, name: Seq<char>, k: int)
    requires
        0 <= k <= parts.len(),
        forall|i: int| 0 <= i < k ==> part_value(#[trigger] parts[i], name) is None,
    ensures
        parts_value(parts.take(k), name) is None,
    decreases k,
{
    if k > 0 {
        lemma_no_value(parts, name, k - 1);
        assert(parts.take(k).drop_last() =~= parts.take(k - 1));
        assert(parts.take(k).last() == parts[k - 1]);
    }
}

/// A client that comes back with the cookie among others is still known by it: what the cookie gave
/// the name is what the cookie header gives it, if no part before gives the name a value.
pub proof fn law_cookie_among_others(
    before: Seq<Seq<char>>,
    name: Seq<char>,
    address: Seq<char>,
    after: Seq<Seq<char>>,
)
    requires
        tight(name),
        tight(address),
        !name.contains(';'),
        !name.contains('='),
        !address.contains(';'),
        forall|i: int|
            0 <= i < before.len() ==> !(#[trigger] before[i]).contains(';') && part_value(
                before[i],
                name,
            ) is None,
        forall|i: int| 0 <= i < after.len() ==> !(#[trigger] after[i]).contains(';'),
    ensures
        cookie_value(
            text::joined(before + seq![seq![' '] + name + seq!['='] + address] + after, ';'),
            name,
        ) == Some(address),
{
    let mine = seq![' '] + name + seq!['='] + address;
    let parts = before + seq![mine] + after;
    let e = Seq::<char>::empty();
    let k = before.len() as int;
    assert(text::blank(e) && text::blank(seq![' ']));
    assert(mine =~= seq![' '] + name + e + seq!['='] + e + address + e);
    law_cookie_part(seq![' '], name, e, e, address, e, e);
    assert(parts[k] == mine);
    assert forall|i: int| 0 <= i < parts.len() implies !(#[trigger] parts[i]).contains(';') by {
        if i < k {
            assert(parts[i] == before[i]);
        } else if i == k {
            if mine.contains(';') {
                let j = choose|j: int| 0 <= j < mine.len() && mine[j] == ';';
                if 0 < j <= name.len() {
                    assert(name[j - 1] == ';');
                } else if j > name.len() + 1 {
                    assert(address[j - name.len() - 2] == ';');
                }
            }
        } else {
            assert(parts[i] == after[i - k - 1]);
        }
    }
    assert forall|i: int| 0 <= i < k implies part_value(#[trigger] parts[i], name) is None by {
        assert(parts[i] == before[i]);
    }
    law_first_cookie_wins(parts, name, k);
}

/// A configured host header goes in front of the one that the proxy adds itself.
pub proof fn law_configured_host(
    m: Map<Seq<char>, Seq<Seq<u8>>>,
    upstream: Seq<char>,
    client_ip: Seq<char>,
    client_is_tls: bool,
    request_set: Seq<(String, String)>,
    field: (String, String),
    preserve_upgrade: bool,
)
    requires
        text::lowered(field.0@) == "host"@,
    ensures
        ({
            let before = headers::values(
                forwarded(m, upstream, client_ip, client_is_tls, request_set, preserve_upgrade),
                "host"@,
            );
            let after = headers::values(
                forwarded(
                    m,
                    upstream,
                    client_ip,
                    client_is_tls,
                    request_set.push(field),
                    preserve_upgrade,
                ),
                "host"@,
            );
            let value = utf8::encode_utf8(field.1@);
            match host_of(upstream) {
                Some(h) if headers::is_value(utf8::encode_utf8(h)) => after
                    == before.drop_last().push(value).push(utf8::encode_utf8(h)) && before.last()
                    == utf8::encode_utf8(h),
                _ => after == before.push(value),
            }
        }),
{
    lemma_own_names();
    assert(request_set.push(field).drop_last() =~= request_set);
    let m2 = with_all(
        with_client(passed_on(m, true, preserve_upgrade), client_ip, client_is_tls),
        request_set,
    );
    let v = headers::values(m2, "host"@);
    match host_of(upstream) {
        Some(h) => {
            assert(v.push(utf8::encode_utf8(h)).drop_last() =~= v);
        },
        None => {},
    }
}

/// The configured response headers come last: they are set on what the response is without them.
pub proof fn law_configured_headers_come_last(
    m: Map<Seq<char>, Seq<Seq<u8>>>,
    upgrade: bool,
    sticky: Option<StickyConfig>,
    address: Seq<char>,
    security_headers: bool,
    response_set: Seq<(String, String)>,
)
    ensures
        finished(m, upgrade, sticky, address, security_headers, response_set) == with_set(
            finished(m, upgrade, sticky, address, security_headers, Seq::empty()),
            response_set,
        ),
{
}

} // verus!
