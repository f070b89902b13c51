//! The admin pages: which one a request gets, who may see it, and the statistics.

use crate::headers;
use crate::text;
use vstd::prelude::*;
use vstd::slice::slice_subrange;

verus! {

/// What the admin pages go by.
pub struct DashboardState {
    pub version: String,
    /// Bearer token (none or empty = open; not recommended).
    pub admin_token: Option<String>,
}

/// What an admin request gets.
#[derive(Clone, Copy, Debug, PartialEq, Eq, Structural)]
pub enum Page {
    Health,
    Unauthorized,
    Dashboard,
    Stats,
    Metrics,
    Missing,
}

/// The page at a path.
pub open spec fn page_at(path: Seq<char>) -> Page {
    if path == "/"@ || path == "/dashboard"@ || path == "/dashboard/"@ {
        Page::Dashboard
    } else if path == "/api/stats"@ {
        Page::Stats
    } else if path == "/metrics"@ {
        Page::Metrics
    } else {
        Page::Missing
    }
}

/// What a request gets: the health page is public, and everything else asks for the token, if
/// there is one.
pub open spec fn admin_page(path: Seq<char>, token: Option<Seq<char>>, authorized: bool) -> Page {
    if path == "/healthz"@ {
        Page::Health
    } else if token matches Some(t) && t.len() > 0 && !authorized {
        Page::Unauthorized
    } else {
        page_at(path)
    }
}

/// What the first part of a query that gives a token says.
pub open spec fn query_token(parts: Seq<Seq<char>>) -> Option<Seq<char>>
    decreases parts.len(),
{
    if parts.len() == 0 {
        None
    } else if query_token(parts.drop_last()) is Some {
        query_token(parts.drop_last())
    } else if "token="@.is_prefix_of(parts.last()) {
        Some(parts.last().skip("token="@.len() as int))
    } else {
        None
    }
}

/// Whether a request has the token: in an authorization header with a bearer token, which decides
/// alone, or else in the query.
pub open spec fn has_token(
    m: Map<Seq<char>, Seq<Seq<u8>>>,
    query: Option<Seq<char>>,
    token: Seq<char>,
) -> bool {
    match headers::header_text(m, "authorization"@) {
        Some(s) if "Bearer "@.is_prefix_of(s) => s.skip("Bearer "@.len() as int) == token,
        _ => query matches Some(q) && query_token(text::split(q, '&')) == Some(token),
    }
}

/// What follows a prefix, where a text begins with it.
fn after(s: &[char], prefix: &str) -> (r: Option<Vec<char>>)
    ensures
        match r {
            Some(rest) => prefix@.is_prefix_of(s@) && rest@ == s@.skip(prefix@.len() as int),
            None => !prefix@.is_prefix_of(s@),
        },
{
    let p: Vec<char> = text::chars(prefix);
    if text::starts_with(s, p.as_slice()) {
        let rest: &[char] = slice_subrange(s, p.len(), s.len());
        assert(rest@ =~= s@.skip(prefix@.len() as int));
        Some(text::chars(text::text(rest).as_str()))
    } else {
        None
    }
}

proof fn lemma_query_token(parts: Seq<Seq<char>>, k: int)
    requires
        0 <= k <= parts.len(),
        query_token(parts.take(k)) is Some,
    ensures
        query_token(parts) == query_token(parts.take(k)),
    decreases parts.len() - k,
{
    if k < parts.len() {
        assert(parts.take(k + 1).drop_last() =~= parts.take(k));
        lemma_query_token(parts, k + 1);
    } else {
        assert(parts.take(k) =~= parts);
    }
}

fn query_has_token(query: &str, token: &str) -> (r: bool)
    ensures
        r == (query_token(text::split(query@, '&')) == Some(token@)),
{
    let parts: Vec<Vec<char>> = text::pieces(text::chars(query).as_slice(), '&');
    let ghost ps = text::views(parts@);
    let n: usize = parts.len();
    let mut i: usize = 0;
    assert(ps.take(0) =~= Seq::empty());
    while i < n
        invariant
            n == parts@.len(),
            i <= n,
            ps == text::views(parts@),
            ps == text::split(query@, '&'),
            query_token(ps.take(i as int)) is None,
        decreases n - i,
    {
        assert(ps.take(i as int + 1).drop_last() =~= ps.take(i as int));
        assert(ps[i as int] == parts@[i as int]@);
        match after(parts[i].as_slice(), "token=") {
            Some(v) => {
                proof {
                    lemma_query_token(ps, i as int + 1);
                }
                return text::same(v.as_slice(), text::chars(token).as_slice());
            },
            None => {},
        }
        i = i + 1;
    }
    assert(ps.take(n as int) =~= ps);
    false
}

/// Whether a request has the token.
pub fn authorized(
    m: &http::HeaderMap<http::HeaderValue>,
    query: Option<&str>,
    token: &str,
) -> (r: bool)
    ensures
        r == has_token(headers::fields(*m), text::opt_text(query), token@),
{
    proof {
        reveal_strlit("authorization");
        assert(text::lowered("authorization"@) =~= "authorization"@);
    }
    match headers::first_text(m, "authorization") {
        Some(s) => match after(text::chars(s.as_str()).as_slice(), "Bearer ") {
            Some(rest) => {
                return text::same(rest.as_slice(), text::chars(token).as_slice());
            },
            None => {},
        },
        None => {},
    }
    match query {
        Some(q) => query_has_token(q, token),
        None => false,
    }
}

/// What an admin request gets.
pub fn handle_admin(
    state: &DashboardState,
    path: &str,
    m: &http::HeaderMap<http::HeaderValue>,
    query: Option<&str>,
) -> (r: Page)
    ensures
        r == admin_page(
            path@,
            text::opt_string(state.admin_token),
            text::opt_string(state.admin_token) matches Some(t) && has_token(
                headers::fields(*m),
                text::opt_text(query),
                t,
            ),
        ),
{
    if text::same_str(path, "/healthz") {
        return Page::Health;
    }
    match &state.admin_token {
        Some(t) => {
            if !t.as_str().is_empty() && !authorized(m, query, t.as_str()) {
                return Page::Unauthorized;
            }
        },
        None => {},
    }
    if text::same_str(path, "/") || text::same_str(path, "/dashboard") || text::same_str(
        path,
        "/dashboard/",
    ) {
        Page::Dashboard
    } else if text::same_str(path, "/api/stats") {
        Page::Stats
    } else if text::same_str(path, "/metrics") {
        Page::Metrics
    } else {
        Page::Missing
    }
}

/// The head of an answer.
pub struct PageHead {
    pub status: u16,
    pub content_type: Option<&'static str>,
    pub no_cache: bool,
    /// Whether the answer asks for a bearer token.
    pub asks_token: bool,
}

/// The head of the answer for a page.
pub fn page_head(page: Page) -> (r: PageHead)
    ensures
        r.status == (match page {
            Page::Unauthorized => 401u16,
            Page::Missing => 404,
            _ => 200,
        }),
        match page {
            Page::Health => r.content_type matches Some(c) && c@ == "text/plain"@,
            Page::Dashboard => r.content_type matches Some(c) && c@ == "text/html; charset=utf-8"@,
            Page::Stats => r.content_type matches Some(c) && c@ == "application/json"@,
            Page::Metrics => r.content_type matches Some(c) && c@
                == "text/plain; version=0.0.4; charset=utf-8"@,
            Page::Unauthorized | Page::Missing => r.content_type is None,
        },
        r.no_cache == (page == Page::Dashboard || page == Page::Stats || page == Page::Metrics),
        r.asks_token == (page == Page::Unauthorized),
{
    match page {
        Page::Health => PageHead {
            status: 200,
            content_type: Some("text/plain"),
            no_cache: false,
            asks_token: false,
        },
        Page::Unauthorized => PageHead {
            status: 401,
            content_type: None,
            no_cache: false,
            asks_token: true,
        },
        Page::Dashboard => PageHead {
            status: 200,
            content_type: Some("text/html; charset=utf-8"),
            no_cache: true,
            asks_token: false,
        },
        Page::Stats => PageHead {
            status: 200,
            content_type: Some("application/json"),
            no_cache: true,
            asks_token: false,
        },
        Page::Metrics => PageHead {
            status: 200,
            content_type: Some("text/plain; version=0.0.4; charset=utf-8"),
            no_cache: true,
            asks_token: false,
        },
        Page::Missing => PageHead {
            status: 404,
            content_type: None,
            no_cache: false,
            asks_token: false,
        },
    }
}

/// The text of a page that always says the same. What the others say depends on the state of the
/// proxy (the statistics and the metrics), or is the page of the dashboard.
pub open spec fn fixed_text(page: Page) -> Option<Seq<char>> {
    match page {
        Page::Health => Some("ok"@),
        Page::Unauthorized => Some("unauthorized"@),
        Page::Missing => Some("not found"@),
        Page::Dashboard | Page::Stats | Page::Metrics => None,
    }
}

/// The text of a page that always says the same.
pub fn page_text(page: Page) -> (r: Option<&'static str>)
    ensures
        match r {
            Some(t) => fixed_text(page) == Some(t@),
            None => fixed_text(page) is None,
        },
{
    match page {
        Page::Health => Some("ok"),
        Page::Unauthorized => Some("unauthorized"),
        Page::Missing => Some("not found"),
        Page::Dashboard | Page::Stats | Page::Metrics => None,
    }
}

/// Whether a request is one for the live stream of statistics: it asks for an upgrade, with an
/// upgrade header, at the path of the stream. Every other request gets a page.
pub fn is_stream_request(path: &str, m: &http::HeaderMap<http::HeaderValue>) -> (r: bool)
    ensures
        r == (path@ == "/ws"@ && headers::fields(*m).dom().contains("upgrade"@)),
{
    proof {
        reveal_strlit("upgrade");
        assert(text::lowered("upgrade"@) =~= "upgrade"@);
    }
    text::same_str(path, "/ws") && headers::contains(m, "upgrade")
}

/// The number of requests that a line of the metrics reports: its last word, where the line is one
/// of the request counter and that word is a number.
pub open spec fn line_requests(line: Seq<char>) -> nat {
    if "oxigate_requests_total{"@.is_prefix_of(line) && text::words(line).len() > 0 {
        match text::decimal_number(text::words(line).last(), u64::MAX as nat) {
            Some(n) => n,
            None => 0,
        }
    } else {
        0
    }
}

/// The number of requests that some lines report.
pub open spec fn lines_requests(lines: Seq<Seq<char>>) -> nat
    decreases lines.len(),
{
    if lines.len() == 0 {
        0
    } else {
        lines_requests(lines.drop_last()) + line_requests(lines.last())
    }
}

/// The number of requests that the metrics report.
pub open spec fn reported_requests(metrics: Seq<char>) -> nat {
    lines_requests(text::split(metrics, '\n'))
}

fn count_line(line: &[char]) -> (r: u64)
    ensures
        r == line_requests(line@),
{
    let p: Vec<char> = text::chars("oxigate_requests_total{");
    if !text::starts_with(line, p.as_slice()) {
        return 0;
    }
    let words: Vec<Vec<char>> = text::split_words(line);
    let n: usize = words.len();
    if n == 0 {
        return 0;
    }
    assert(text::views(words@).last() == words@[n - 1]@);
    match text::parse_decimal(words[n - 1].as_slice(), u64::MAX) {
        Some(k) => k,
        None => 0,
    }
}

proof fn lemma_lines_grow(lines: Seq<Seq<char>>, k: int)
    requires
        0 <= k <= lines.len(),
    ensures
        lines_requests(lines.take(k)) <= lines_requests(lines),
    decreases lines.len() - k,
{
    if k < lines.len() {
        assert(lines.take(k + 1).drop_last() =~= lines.take(k));
        lemma_lines_grow(lines, k + 1);
    } else {
        assert(lines.take(k) =~= lines);
    }
}

/// The number of requests that the metrics report, unless it is too large for a counter.
pub fn requests_total(metrics: &str) -> (r: Option<u64>)
    ensures
        match r {
            Some(n) => n == reported_requests(metrics@),
            None => reported_requests(metrics@) > u64::MAX,
        },
{
    let lines: Vec<Vec<char>> = text::pieces(text::chars(metrics).as_slice(), '\n');
    let ghost ls = text::views(lines@);
    let n: usize = lines.len();
    let mut sum: u64 = 0;
    let mut i: usize = 0;
    while i < n
        invariant
            n == lines@.len(),
            i <= n,
            ls == text::views(lines@),
            ls == text::split(metrics@, '\n'),
            sum == lines_requests(ls.take(i as int)),
        decreases n - i,
    {
        assert(ls.take(i as int + 1).drop_last() =~= ls.take(i as int));
        assert(ls[i as int] == lines@[i as int]@);
        let k: u64 = count_line(lines[i].as_slice());
        match sum.checked_add(k) {
            Some(s) => {
                sum = s;
            },
            None => {
                proof {
                    lemma_lines_grow(ls, i as int + 1);
                }
                return None;
            },
        }
        i = i + 1;
    }
    assert(ls.take(n as int) =~= ls);
    Some(sum)
}

/// The statistics as JSON.
pub open spec fn stats_text(
    version: Seq<char>,
    uptime_secs: nat,
    requests: nat,
    allows: nat,
    rejects: nat,
) -> Seq<char> {
    "{\"version\":\""@ + version + "\",\"uptime_secs\":"@ + text::decimal(uptime_secs)
        + ",\"requests_total\":"@ + text::decimal(requests) + ",\"rate_limit_allows\":"@
        + text::decimal(allows) + ",\"rate_limit_rejects\":"@ + text::decimal(rejects) + "}"@
}

/// The statistics as JSON.
pub fn stats_json(
    version: &str,
    uptime_secs: u64,
    requests: u64,
    allows: u64,
    rejects: u64,
) -> (r: String)
    ensures
        r@ == stats_text(
            version@,
            uptime_secs as nat,
            requests as nat,
            allows as nat,
            rejects as nat,
        ),
{
    let mut out: String = "{\"version\":\"".to_owned();
    out.append(version);
    out.append("\",\"uptime_secs\":");
    text::push_decimal(&mut out, uptime_secs);
    out.append(",\"requests_total\":");
    text::push_decimal(&mut out, requests);
    out.append(",\"rate_limit_allows\":");
    text::push_decimal(&mut out, allows);
    out.append(",\"rate_limit_rejects\":");
    text::push_decimal(&mut out, rejects);
    out.append("}");
    out
}

/// The health page is public, whatever token is set and whatever a request brings, and says `ok`.
pub proof fn law_health_is_public(token: Option<Seq<char>>, authorized: bool)
    ensures
        admin_page("/healthz"@, token, authorized) == Page::Health,
        fixed_text(admin_page("/healthz"@, token, authorized)) == Some("ok"@),
{
}

/// With a token set, a request without it gets nothing but the health page.
pub proof fn law_token_protects(path: Seq<char>, token: Seq<char>)
    requires
        token.len() > 0,
        path != "/healthz"@,
    ensures
        admin_page(path, Some(token), false) == Page::Unauthorized,
{
}

/// Without a token, or with an empty one, every page is open.
pub proof fn law_no_token_is_open(path: Seq<char>, token: Option<Seq<char>>, authorized: bool)
    requires
        token is None || (token->0).len() == 0,
    ensures
        admin_page(path, token, authorized) != Page::Unauthorized,
{
}

/// Which page is where: the dashboard at the root and under its own name, the statistics and the
/// metrics under theirs, and nothing anywhere else.
pub proof fn law_pages(path: Seq<char>)
    ensures
        page_at(path) == Page::Dashboard <==> seq!["/"@, "/dashboard"@, "/dashboard/"@].contains(
            path,
        ),
        page_at(path) == Page::Stats <==> path == "/api/stats"@,
        page_at(path) == Page::Metrics <==> path == "/metrics"@,
        page_at(path) == Page::Missing <==> !seq![
            "/"@,
            "/dashboard"@,
            "/dashboard/"@,
            "/api/stats"@,
            "/metrics"@,
        ].contains(path),
{
    reveal_strlit("/");
    reveal_strlit("/dashboard");
    reveal_strlit("/dashboard/");
    reveal_strlit("/api/stats");
    reveal_strlit("/metrics");
    let three = seq!["/"@, "/dashboard"@, "/dashboard/"@];
    let five = seq!["/"@, "/dashboard"@, "/dashboard/"@, "/api/stats"@, "/metrics"@];
    assert(three[0] == "/"@ && three[1] == "/dashboard"@ && three[2] == "/dashboard/"@);
    assert(five[0] == "/"@ && five[1] == "/dashboard"@ && five[2] == "/dashboard/"@ && five[3]
        == "/api/stats"@ && five[4] == "/metrics"@);
    assert("/"@.len() == 1 && "/dashboard"@.len() == 10 && "/dashboard/"@.len() == 11
        && "/api/stats"@.len() == 10 && "/metrics"@.len() == 8);
    assert("/dashboard"@[1] == 'd' && "/api/stats"@[1] == 'a');
}

/// A request with the token sees the page at its path, and so does every request where no token is
/// set.
pub proof fn law_pages_are_served(path: Seq<char>, token: Option<Seq<char>>, authorized: bool)
    requires
        path != "/healthz"@,
        authorized || token is None || (token->0).len() == 0,
    ensures
        admin_page(path, token, authorized) == page_at(path),
{
}

/// What the pages say that always say the same.
pub proof fn law_fixed_texts()
    ensures
        fixed_text(Page::Health) == Some("ok"@),
        fixed_text(Page::Unauthorized) == Some("unauthorized"@),
        fixed_text(Page::Missing) == Some("not found"@),
        fixed_text(Page::Dashboard) is None,
        fixed_text(Page::Stats) is None,
        fixed_text(Page::Metrics) is None,
{
}

/// The beginning of an authorization header with a bearer token.
pub open spec fn bearer() -> Seq<char> {
    seq!['B', 'e', 'a', 'r', 'e', 'r', ' ']
}

/// The beginning of the part of a query that gives a token.
pub open spec fn token_key() -> Seq<char> {
    seq!['t', 'o', 'k', 'e', 'n', '=']
}

/// A bearer token decides alone, whatever the query says: the request has the token exactly where
/// the bearer token is the same, character for character.
pub proof fn law_bearer_decides(
    m: Map<Seq<char>, Seq<Seq<u8>>>,
    query: Option<Seq<char>>,
    given: Seq<char>,
    token: Seq<char>,
)
    requires
        headers::header_text(m, "authorization"@) == Some(bearer() + given),
    ensures
        has_token(m, query, token) <==> given == token,
{
    reveal_strlit("Bearer ");
    assert("Bearer "@ =~= bearer());
    let s = bearer() + given;
    assert(bearer() =~= s.take(7));
    assert(s.skip(7) =~= given);
}

/// Without a bearer token the query decides: the first of its parts that gives a token, character
/// for character. A query without such a part, or no query, has none.
pub proof fn law_query_decides(
    m: Map<Seq<char>, Seq<Seq<u8>>>,
    parts: Seq<Seq<char>>,
    k: int,
    given: Seq<char>,
    token: Seq<char>,
)
    requires
        headers::header_text(m, "authorization"@) matches Some(s) ==> !bearer().is_prefix_of(s),
        parts.len() > 0,
        0 <= k <= parts.len(),
        forall|i: int| 0 <= i < parts.len() ==> !(#[trigger] parts[i]).contains('&'),
        forall|i: int| 0 <= i < k ==> !token_key().is_prefix_of(#[trigger] parts[i]),
        k < parts.len() ==> parts[k] == token_key() + given,
    ensures
        k < parts.len() ==> (has_token(m, Some(text::joined(parts, '&')), token) <==> given
            == token),
        k == parts.len() ==> !has_token(m, Some(text::joined(parts, '&')), token),
        !has_token(m, None, token),
{
    reveal_strlit("Bearer ");
    reveal_strlit("token=");
    assert("Bearer "@ =~= bearer());
    assert("token="@ =~= token_key());
    text::law_joined_split(parts, '&');
    lemma_no_token(parts, k);
    if k < parts.len() {
        let p = parts[k];
        assert(token_key() =~= p.take(6));
        assert(p.skip(6) =~= given);
        assert(parts.take(k + 1).drop_last() =~= parts.take(k));
        assert(parts.take(k + 1).last() == p);
        lemma_query_token(parts, k + 1);
    } else {
        assert(parts.take(k) =~= parts);
    }
}

proof fn lemma_no_token(parts: Seq<Seq<char>>, k: int)
    requires
        0 <= k <= parts.len(),
        forall|i: int| 0 <= i < k ==> !"token="@.is_prefix_of(#[trigger] parts[i]),
    ensures
        query_token(parts.take(k)) is None,
    decreases k,
{
    if k > 0 {
        lemma_no_token(parts, k - 1);
        assert(parts.take(k).drop_last() =~= parts.take(k - 1));
        assert(parts.take(k).last() == parts[k - 1]);
    }
}

/// The beginning of a line of the request counter.
pub open spec fn counter_name() -> Seq<char> {
    "oxigate_requests_total{"@
}

/// A line of the request counter reports the number at its end, whatever its labels are, and none
/// where its last word is no number; a line that begins otherwise reports none either.
pub proof fn law_line_requests(labels: Seq<char>, n: u64, word: Seq<char>, other: Seq<char>)
    ensures
        word.len() > 0 && (forall|i: int|
            0 <= i < word.len() ==> !text::is_space(#[trigger] word[i])) && text::decimal_number(
            word,
            u64::MAX as nat,
        ) is None ==> line_requests(
            counter_name() + labels + seq![' '] + word,
        ) == 0,
        line_requests(counter_name() + labels + seq![' '] + text::decimal(n as nat)) == n,
        !counter_name().is_prefix_of(other) ==> line_requests(other) == 0,
{
    let head = counter_name() + labels;
    let gap = seq![' '];
    let number = text::decimal(n as nat);
    let line = head + gap + number;
    assert(text::blank(gap));
    text::law_words(head, gap, number);
    text::lemma_decimal_digits(n as nat);
    text::law_decimal_round_trip(n as nat, u64::MAX as nat);
    assert forall|i: int| 0 <= i < number.len() implies !text::is_space(#[trigger] number[i]) by {
        assert(text::is_digit(number[i]));
    }
    text::law_words(number, gap, number);
    assert(text::words(line).last() == number);
    if word.len() > 0 && (forall|i: int|
        0 <= i < word.len() ==> !text::is_space(#[trigger] word[i])) {
        text::law_words(head, gap, word);
        text::law_words(word, gap, word);
        assert(text::words(head + gap + word).last() == word);
    }
    assert(counter_name() =~= line.take(counter_name().len() as int));
}

/// The numbers of all lines are added up: two texts of metrics, one after the other, report as many
/// requests as both together.
pub proof fn law_reported_requests(a: Seq<char>, b: Seq<char>, line: Seq<char>)
    ensures
        reported_requests(a + seq!['\n'] + b) == reported_requests(a) + reported_requests(b),
        !line.contains('\n') ==> reported_requests(line) == line_requests(line),
{
    text::law_split_in_two(a, b, '\n');
    lemma_lines_add(text::split(a, '\n'), text::split(b, '\n'));
    if !line.contains('\n') {
        assert forall|i: int| 0 <= i < line.len() implies #[trigger] line[i] != '\n' by {
            assert(line.contains(line[i]));
        }
        text::lemma_split_single(line, '\n');
        let one = seq![line];
        assert(one.drop_last() =~= Seq::empty());
        assert(lines_requests(one.drop_last()) == 0);
    }
}

proof fn lemma_lines_add(p: Seq<Seq<char>>, q: Seq<Seq<char>>)
    ensures
        lines_requests(p + q) == lines_requests(p) + lines_requests(q),
    decreases q.len(),
{
    if q.len() == 0 {
        assert(p + q =~= p);
    } else {
        lemma_lines_add(p, q.drop_last());
        assert((p + q).drop_last() =~= p + q.drop_last());
    }
}

/// The fields of the statistics, in their order: the version and the four numbers. (The version
/// holds no comma.)
pub proof fn law_stats(
    version: Seq<char>,
    uptime_secs: nat,
    requests: nat,
    allows: nat,
    rejects: nat,
)
    requires
        !version.contains(','),
    ensures
        text::split(stats_text(version, uptime_secs, requests, allows, rejects), ',') == seq![
            "{\"version\":\""@ + version + "\""@,
            "\"uptime_secs\":"@ + text::decimal(uptime_secs),
            "\"requests_total\":"@ + text::decimal(requests),
            "\"rate_limit_allows\":"@ + text::decimal(allows),
            "\"rate_limit_rejects\":"@ + text::decimal(rejects) + "}"@,
        ],
{
    let a = "{\"version\":\""@ + version + "\""@;
    let b = "\"uptime_secs\":"@ + text::decimal(uptime_secs);
    let c = "\"requests_total\":"@ + text::decimal(requests);
    let d = "\"rate_limit_allows\":"@ + text::decimal(allows);
    let e = "\"rate_limit_rejects\":"@ + text::decimal(rejects) + "}"@;
    let ps = seq![a, b, c, d, e];
    assert(!a.contains(',') && !b.contains(',') && !c.contains(',') && !d.contains(',')
        && !e.contains(',')) by {
        lemma_stats_without_comma(version, uptime_secs, requests, allows, rejects);
    }
    assert forall|i: int| 0 <= i < ps.len() implies !(#[trigger] ps[i]).contains(',') by {}
    text::law_joined_split(ps, ',');
    lemma_stats_keys();
    lemma_stats_joined(
        "{\"version\":\""@,
        version,
        "\""@,
        "\"uptime_secs\":"@,
        text::decimal(uptime_secs),
        "\"requests_total\":"@,
        text::decimal(requests),
        "\"rate_limit_allows\":"@,
        text::decimal(allows),
        "\"rate_limit_rejects\":"@,
        text::decimal(rejects),
        "}"@,
    );
}

/// The texts between the numbers of the statistics.
proof fn lemma_stats_keys()
    ensures
        "\",\"uptime_secs\":"@ == "\""@ + seq![','] + "\"uptime_secs\":"@,
        ",\"requests_total\":"@ == seq![','] + "\"requests_total\":"@,
        ",\"rate_limit_allows\":"@ == seq![','] + "\"rate_limit_allows\":"@,
        ",\"rate_limit_rejects\":"@ == seq![','] + "\"rate_limit_rejects\":"@,
{
    reveal_strlit("\",\"uptime_secs\":");
    reveal_strlit("\"");
    reveal_strlit("\"uptime_secs\":");
    reveal_strlit(",\"requests_total\":");
    reveal_strlit("\"requests_total\":");
    reveal_strlit(",\"rate_limit_allows\":");
    reveal_strlit("\"rate_limit_allows\":");
    reveal_strlit(",\"rate_limit_rejects\":");
    reveal_strlit("\"rate_limit_rejects\":");
    assert("\",\"uptime_secs\":"@ =~= "\""@ + seq![','] + "\"uptime_secs\":"@);
    assert(",\"requests_total\":"@ =~= seq![','] + "\"requests_total\":"@);
    assert(",\"rate_limit_allows\":"@ =~= seq![','] + "\"rate_limit_allows\":"@);
    assert(",\"rate_limit_rejects\":"@ =~= seq![','] + "\"rate_limit_rejects\":"@);
}

/// Five fields with commas between them, the commas taken with what follows them.
proof fn lemma_stats_joined(
    open: Seq<char>,
    v: Seq<char>,
    quote: Seq<char>,
    k1: Seq<char>,
    n1: Seq<char>,
    k2: Seq<char>,
    n2: Seq<char>,
    k3: Seq<char>,
    n3: Seq<char>,
    k4: Seq<char>,
    n4: Seq<char>,
    end: Seq<char>,
)
    ensures
        open + v + (quote + seq![','] + k1) + n1 + (seq![','] + k2) + n2 + (seq![','] + k3) + n3 + (
        seq![','] + k4) + n4 + end == text::joined(
            seq![open + v + quote, k1 + n1, k2 + n2, k3 + n3, k4 + n4 + end],
            ',',
        ),
{
    let c = seq![','];
    let a = open + v + quote;
    text::lemma_joined_five(a, k1 + n1, k2 + n2, k3 + n3, k4 + n4 + end, ',');
    let l1 = open + v + (quote + c + k1) + n1;
    let r1 = a + c + (k1 + n1);
    assert(l1 =~= r1);
    let l2 = l1 + (c + k2) + n2;
    let r2 = r1 + c + (k2 + n2);
    assert(l2 =~= r2);
    let l3 = l2 + (c + k3) + n3;
    let r3 = r2 + c + (k3 + n3);
    assert(l3 =~= r3);
    assert(l3 + (c + k4) + n4 + end =~= r3 + c + (k4 + n4 + end));
}

proof fn lemma_stats_without_comma(
    version: Seq<char>,
    uptime_secs: nat,
    requests: nat,
    allows: nat,
    rejects: nat,
)
    requires
        !version.contains(','),
    ensures
        !("{\"version\":\""@ + version + "\""@).contains(','),
        !("\"uptime_secs\":"@ + text::decimal(uptime_secs)).contains(','),
        !("\"requests_total\":"@ + text::decimal(requests)).contains(','),
        !("\"rate_limit_allows\":"@ + text::decimal(allows)).contains(','),
        !("\"rate_limit_rejects\":"@ + text::decimal(rejects) + "}"@).contains(','),
{
    let none = Seq::<char>::empty();
    assert(!"{\"version\":\""@.contains(',') && !"\""@.contains(',')
        && !"\"uptime_secs\":"@.contains(',') && !"\"requests_total\":"@.contains(',')
        && !"\"rate_limit_allows\":"@.contains(',') && !"\"rate_limit_rejects\":"@.contains(',')
        && !"}"@.contains(',')) by {
        reveal_strlit("{\"version\":\"");
        reveal_strlit("\"");
        reveal_strlit("\"uptime_secs\":");
        reveal_strlit("\"requests_total\":");
        reveal_strlit("\"rate_limit_allows\":");
        reveal_strlit("\"rate_limit_rejects\":");
        reveal_strlit("}");
    }
    lemma_without_comma("{\"version\":\""@, version, "\""@);
    lemma_number_without_comma(uptime_secs);
    lemma_number_without_comma(requests);
    lemma_number_without_comma(allows);
    lemma_number_without_comma(rejects);
    lemma_without_comma("\"uptime_secs\":"@, text::decimal(uptime_secs), none);
    lemma_without_comma("\"requests_total\":"@, text::decimal(requests), none);
    lemma_without_comma("\"rate_limit_allows\":"@, text::decimal(allows), none);
    lemma_without_comma("\"rate_limit_rejects\":"@, text::decimal(rejects), "}"@);
    assert("\"uptime_secs\":"@ + text::decimal(uptime_secs) + none =~= "\"uptime_secs\":"@
        + text::decimal(uptime_secs));
    assert("\"requests_total\":"@ + text::decimal(requests) + none =~= "\"requests_total\":"@
        + text::decimal(requests));
    assert("\"rate_limit_allows\":"@ + text::decimal(allows) + none =~= "\"rate_limit_allows\":"@
        + text::decimal(allows));
}

proof fn lemma_without_comma(a: Seq<char>, b: Seq<char>, c: Seq<char>)
    requires
        !a.contains(','),
        !b.contains(','),
        !c.contains(','),
    ensures
        !(a + b + c).contains(','),
{
    let s = a + b + c;
    if s.contains(',') {
        let i = choose|i: int| 0 <= i < s.len() && s[i] == ',';
        if i < a.len() {
            assert(a[i] == ',');
        } else if i < a.len() + b.len() {
            assert(b[i - a.len()] == ',');
        } else {
            assert(c[i - a.len() - b.len()] == ',');
        }
    }
}

proof fn lemma_number_without_comma(n: nat)
    ensures
        !text::decimal(n).contains(','),
{
    text::lemma_decimal_digits(n);
    let s = text::decimal(n);
    if s.contains(',') {
        let i = choose|i: int| 0 <= i < s.len() && s[i] == ',';
        assert(text::is_digit(s[i]));
    }
}

/// How the pages are answered: with 200 but where the token is missing, which is asked for with
/// 401, and where there is nothing, which is a 404. What shows the state of the proxy is not
/// cached.
pub proof fn law_page_heads(page: Page, r: PageHead)
    requires
        call_ensures(page_head, (page,), r),
    ensures
        r.status == 401 <==> page == Page::Unauthorized,
        r.status == 404 <==> page == Page::Missing,
        r.status == 200 <==> page != Page::Unauthorized && page != Page::Missing,
        r.asks_token <==> r.status == 401,
        r.content_type is Some <==> r.status == 200,
        r.no_cache <==> r.status == 200 && page != Page::Health,
        page == Page::Health ==> r.content_type->0@ == "text/plain"@,
        page == Page::Dashboard ==> r.content_type->0@ == "text/html; charset=utf-8"@,
        page == Page::Stats ==> r.content_type->0@ == "application/json"@,
        page == Page::Metrics ==> r.content_type->0@
            == "text/plain; version=0.0.4; charset=utf-8"@,
{
}

} // verus!
