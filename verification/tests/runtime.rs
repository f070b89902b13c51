use bytes::BufMut;
use http::{HeaderMap, HeaderValue};
use oxigate::addr::{parse_ip, IpAddr, Ipv4Addr, SocketAddr};
use oxigate::backend::{rest_after, serve, Serve};
use oxigate::config::{
    AclConfig, Config, HeaderConfig, LoadBalancingAlgorithm, RateLimitConfigYaml, StickyConfig,
    Upstream,
};
use oxigate::dashboard::{
    authorized, handle_admin, is_stream_request, page_head, page_text, requests_total, stats_json,
    DashboardState, Page,
};
use oxigate::health::{check_headers, check_text, check_uri, judge, record, Change};
use oxigate::lb::UpstreamRuntime;
use oxigate::middleware::load_shed::{LoadShedMiddleware, SHED_STATUS};
use oxigate::proxy::client::ClientOptions;
use oxigate::proxy_protocol::ProxyHeader;
use oxigate::security::{Acl, CidrError};
use oxigate::server::{
    accept_step, client_address, client_options, configured_acl, configured_limit,
    connection_context, connection_lifetime, dispatch_step, idle_timeout, limits, reload,
    request_limit, source_trusted, trusted_sources, AcceptAction, AcceptEvent, DispatchAction,
    DispatchEvent,
};
use oxigate::span::{Span, MAX_NANOS};
use oxigate::text::chars;
use oxigate::tls::{alpn_protocols, choose_key, read_chain, read_key, PrivateKey, TlsError};
use oxigate::{AppState, BufferPool};

fn config() -> Config {
    let any = SocketAddr::new(IpAddr::V4(Ipv4Addr::new(0, 0, 0, 0)), 1);
    Config {
        listen: any,
        metrics_listen: any,
        upstreams: vec![Upstream { address: "http://a".into(), weight: 1 }],
        routes: vec![],
        load_balancing: LoadBalancingAlgorithm::RoundRobin,
        health_check: Default::default(),
        timeouts: Default::default(),
        tls: None,
        retries: 4,
        max_connections: 0,
        sticky: Some(StickyConfig::default()),
        headers: HeaderConfig {
            request_set: vec![("a".into(), "1".into()), ("b".into(), "2".into())],
            response_set: vec![("c".into(), "3".into())],
        },
        access_log: true,
        rate_limit: Some(RateLimitConfigYaml { rps: 9, burst_bits: 2.0f64.to_bits() }),
        proxy_protocol: true,
        upstream_http2: true,
        pool_max_idle_per_host: 2,
        max_body_bytes: 77,
        retry_idempotent_only: true,
        force_retry_with_body: true,
        acl: Some(AclConfig { allow: vec![], deny: vec!["10.0.0.0/8".into()] }),
        security_headers: true,
        admin_token: None,
        proxy_protocol_trusted_cidrs: vec!["192.168.0.0/16".into()],
    }
}

fn ip(s: &str) -> IpAddr {
    parse_ip(&chars(s)).unwrap()
}

#[test]
fn pools_are_bounded() {
    let mut p = BufferPool::new(1, 10);
    assert_eq!((p.len(), p.capacity()), (64, 64));
    let mut taken = Vec::new();
    for _ in 0..70 {
        let mut b = p.acquire();
        assert!(b.as_mut().is_empty());
        assert!(b.as_mut().capacity() >= 1024);
        b.as_mut().put_slice(b"used");
        taken.push(b);
    }
    assert_eq!(p.len(), 0);
    for b in taken {
        p.release(b);
    }
    assert_eq!((p.len(), p.capacity()), (64, 64));
    assert!(p.acquire().into_inner().is_empty());
    assert_eq!(p.len(), 63);
}

#[test]
fn large_buffers_are_dropped() {
    let mut p = BufferPool::new(64, 1024);
    let mut b = p.acquire();
    b.as_mut().put_slice(&[7; 5000]);
    p.release(b);
    assert_eq!(p.len(), 63);
    let b = p.acquire().into_inner();
    p.put_back(b, 2049);
    assert_eq!(p.len(), 62);
    let b = p.acquire().into_inner();
    p.put_back(b, 2048);
    assert_eq!(p.len(), 62);
}

#[test]
fn default_pool() {
    let p = BufferPool::with_defaults();
    assert_eq!((p.len(), p.capacity()), (4096, 4096));
}

#[test]
fn state_is_swapped() {
    let mut s = AppState::new(config());
    let before = s.load_config();
    assert_eq!(before.retries, 4);
    let mut c = config();
    c.retries = 5;
    s.swap_config(c.clone());
    assert_eq!(s.load_config().retries, 5);
    assert_eq!(before.retries, 4);
    c.retries = 6;
    assert!(!reload(&mut s, None, true));
    assert!(!reload(&mut s, Some(c.clone()), false));
    assert_eq!(s.load_config().retries, 5);
    assert!(reload(&mut s, Some(c), true));
    assert_eq!(s.load_config().retries, 6);
}

#[test]
fn load_is_shed() {
    let mut m = LoadShedMiddleware::new("svc", 2, 1);
    assert!(m.enter());
    assert!(!m.enter());
    m.complete();
    assert!(m.enter());
    assert_eq!(*m.inner_mut(), "svc");
    assert_eq!(SHED_STATUS, 503);
    assert!(!LoadShedMiddleware::new((), 0, 0).enter());
}

#[test]
fn server_limits() {
    let l = limits(0, None);
    assert_eq!((l.max_conn, l.channel_cap, l.conn_limit, l.pool_size), (10_000, 10_000, 10_000, 16_384));
    let l = limits(0, Some(10));
    assert_eq!((l.max_conn, l.channel_cap, l.conn_limit, l.pool_size), (10, 256, 64, 256));
    let l = limits(300, Some(10));
    assert_eq!((l.max_conn, l.channel_cap, l.conn_limit, l.pool_size), (300, 300, 300, 600));
    assert_eq!(request_limit(0), None);
    assert_eq!(request_limit(3), Some(3));
}

#[test]
fn lifetimes() {
    assert_eq!(idle_timeout(0).nanos, 1_000_000_000);
    assert_eq!(idle_timeout(60).nanos, 60_000_000_000);
    assert_eq!(connection_lifetime(Span::from_secs(1), Span::from_secs(2)).nanos, 10_000_000_000);
    assert_eq!(connection_lifetime(Span::from_secs(1), Span::from_secs(30)).nanos, 60_000_000_000);
    let long = Span { nanos: MAX_NANOS };
    assert_eq!(connection_lifetime(long, Span::from_secs(1)).nanos, MAX_NANOS);
}

#[test]
fn sources() {
    let c = config();
    let t = trusted_sources(&c).unwrap();
    assert!(source_trusted(true, &t, ip("192.168.1.1")));
    assert!(!source_trusted(true, &t, ip("1.1.1.1")));
    assert!(source_trusted(false, &t, ip("1.1.1.1")));
    assert!(source_trusted(true, &None, ip("1.1.1.1")));
    let mut bad = config();
    bad.proxy_protocol_trusted_cidrs = vec!["x".into()];
    assert!(matches!(trusted_sources(&bad), Err(CidrError::Address)));
    bad.proxy_protocol = false;
    assert!(matches!(trusted_sources(&bad), Ok(None)));
    let remote = SocketAddr::new(ip("1.1.1.1"), 5);
    let src = SocketAddr::new(ip("2.2.2.2"), 6);
    assert_eq!(client_address(None, remote), remote);
    assert_eq!(client_address(Some(ProxyHeader { src, dst: remote }), remote), src);
}

#[test]
fn contexts() {
    let c = config();
    let x = connection_context(&c, true);
    assert_eq!((x.retries, x.max_body_bytes), (4, 77));
    assert!(x.client_is_tls && x.access_log && x.security_headers);
    assert!(x.retry_idempotent_only && x.force_retry_with_body);
    assert_eq!(x.sticky.unwrap().cookie_name, "OXIGATE");
    assert_eq!(x.headers.request_set[1], ("b".to_string(), "2".to_string()));
    assert_eq!(x.headers.response_set[0], ("c".to_string(), "3".to_string()));
    assert_eq!(x.request_timeout.nanos, 30_000_000_000);
    assert_eq!(x.idle_timeout.nanos, 60_000_000_000);
    assert!(!x.acl.unwrap().is_allowed(ip("10.1.1.1")));
    let mut bad = config();
    bad.acl = Some(AclConfig { allow: vec!["?".into()], deny: vec![] });
    assert!(configured_acl(&bad).is_none());
    let rl = configured_limit(&c).unwrap();
    assert_eq!((rl.rate, rl.window.nanos, f64::from_bits(rl.burst_bits)), (9, 1_000_000_000, 2.0));
    let o: ClientOptions = client_options(&c);
    assert_eq!(o.connect_timeout.nanos, 5_000_000_000);
    assert!(o.http2);
    assert_eq!(o.pool_size(), 4);
    assert_eq!(ClientOptions { pool_max_idle_per_host: 9, ..o }.pool_size(), 9);
}

#[test]
fn loops() {
    assert_eq!(accept_step(AcceptEvent::Signal(true)), AcceptAction::Drain);
    assert_eq!(accept_step(AcceptEvent::Signal(false)), AcceptAction::Continue);
    assert_eq!(accept_step(AcceptEvent::Error), AcceptAction::Continue);
    assert_eq!(accept_step(AcceptEvent::Queued), AcceptAction::Continue);
    assert_eq!(accept_step(AcceptEvent::QueueFull), AcceptAction::Shed);
    assert_eq!(accept_step(AcceptEvent::QueueClosed), AcceptAction::Stop);
    assert_eq!(dispatch_step(DispatchEvent::Signal(true)), DispatchAction::Stop);
    assert_eq!(dispatch_step(DispatchEvent::Signal(false)), DispatchAction::Continue);
    assert_eq!(dispatch_step(DispatchEvent::Closed), DispatchAction::Stop);
    assert_eq!(dispatch_step(DispatchEvent::Connection { permit: true }), DispatchAction::Serve);
    assert_eq!(dispatch_step(DispatchEvent::Connection { permit: false }), DispatchAction::Shed);
}

#[test]
fn health_targets() {
    assert_eq!(check_text("http://a/", "/h"), "http://a/h");
    assert_eq!(check_text("http://a//", "h"), "http://a/h");
    assert_eq!(check_text("http://a", ""), "http://a/");
    assert_eq!(check_uri("http://a", "h").unwrap(), "http://a/h");
    assert!(check_uri("http://a b", "h").is_none());
    let h = check_headers();
    assert_eq!(h["user-agent"], "OxiGate-HealthCheck/0.1");
    assert_eq!(h["connection"], "close");
}

#[test]
fn health_verdicts() {
    for (s, ok) in [(100, false), (199, false), (200, true), (299, true), (302, true), (399, true),
                    (400, false), (403, false), (404, true), (500, false)] {
        assert_eq!(judge(Some(s)), ok, "{s}");
    }
    assert!(!judge(None));
    let mut u = UpstreamRuntime::new(&Upstream { address: "http://a".into(), weight: 1 });
    assert_eq!(record(&mut u, true), Change::Same);
    assert_eq!(record(&mut u, false), Change::WentDown);
    assert!(!u.is_healthy());
    assert_eq!(record(&mut u, false), Change::Same);
    assert_eq!(record(&mut u, true), Change::Recovered);
    assert!(u.is_healthy());
}

fn bearer(v: &'static str) -> HeaderMap {
    let mut m = HeaderMap::new();
    m.insert("Authorization", HeaderValue::from_static(v));
    m
}

#[test]
fn tokens() {
    let none = HeaderMap::new();
    assert!(authorized(&bearer("Bearer t"), None, "t"));
    assert!(!authorized(&bearer("Bearer  t"), None, "t"));
    assert!(!authorized(&bearer("bearer t"), None, "t"));
    assert!(!authorized(&bearer("Bearer x"), Some("token=t"), "t"));
    assert!(authorized(&bearer("Basic x"), Some("token=t"), "t"));
    assert!(authorized(&none, Some("a=b&token=t&token=x"), "t"));
    assert!(!authorized(&none, Some("token=x&token=t"), "t"));
    assert!(!authorized(&none, Some("xtoken=t"), "t"));
    assert!(!authorized(&none, None, "t"));
}

#[test]
fn admin_pages() {
    let none = HeaderMap::new();
    let open = DashboardState { version: "0.1.0".into(), admin_token: None };
    let empty = DashboardState { version: "0.1.0".into(), admin_token: Some(String::new()) };
    let shut = DashboardState { version: "0.1.0".into(), admin_token: Some("t".into()) };
    for s in [&open, &empty] {
        for p in ["/", "/dashboard", "/dashboard/"] {
            assert_eq!(handle_admin(s, p, &none, None), Page::Dashboard);
        }
        assert_eq!(handle_admin(s, "/api/stats", &none, None), Page::Stats);
        assert_eq!(handle_admin(s, "/metrics", &none, None), Page::Metrics);
        assert_eq!(handle_admin(s, "/x", &none, None), Page::Missing);
    }
    assert_eq!(handle_admin(&shut, "/healthz", &none, None), Page::Health);
    assert_eq!(handle_admin(&shut, "/x", &none, None), Page::Unauthorized);
    assert_eq!(handle_admin(&shut, "/metrics", &none, Some("token=t")), Page::Metrics);
    assert_eq!(page_head(Page::Unauthorized).status, 401);
    assert!(page_head(Page::Unauthorized).asks_token);
    assert_eq!(page_head(Page::Missing).status, 404);
    assert_eq!(page_head(Page::Health).content_type, Some("text/plain"));
    assert!(page_head(Page::Stats).no_cache);
    assert_eq!(page_text(Page::Health), Some("ok"));
    assert_eq!(page_text(Page::Unauthorized), Some("unauthorized"));
    assert_eq!(page_text(Page::Missing), Some("not found"));
    for p in [Page::Dashboard, Page::Stats, Page::Metrics] {
        assert_eq!(page_text(p), None);
    }
}

#[test]
fn the_live_stream_asks_for_an_upgrade() {
    let none = HeaderMap::new();
    let mut m = HeaderMap::new();
    m.insert("upgrade", HeaderValue::from_static("websocket"));
    assert!(is_stream_request("/ws", &m));
    assert!(!is_stream_request("/ws", &none));
    assert!(!is_stream_request("/ws/", &m));
    assert!(!is_stream_request("/", &m));
}

#[test]
fn statistics() {
    let text = "# HELP oxigate_requests_total x\noxigate_requests_total{a=\"b\"} 3\r\n\
                oxigate_requests_total{a=\"c c\"} 4\noxigate_requests_total 9\n\
                oxigate_requests_total{bad} x\n";
    assert_eq!(requests_total(text), Some(7));
    assert_eq!(requests_total(""), Some(0));
    let big = format!("oxigate_requests_total{{}} {0}\noxigate_requests_total{{}} 1\n", u64::MAX);
    assert_eq!(requests_total(&big), None);
    assert_eq!(
        stats_json("0.1.0", 12, 7, 0, u64::MAX),
        "{\"version\":\"0.1.0\",\"uptime_secs\":12,\"requests_total\":7,\"rate_limit_allows\":0,\
         \"rate_limit_rejects\":18446744073709551615}"
    );
}

#[test]
fn backend_framing() {
    assert_eq!(serve(b"GET / HTTP/1.1\r\n\r\nGET", false), Serve::Respond { used: 18 });
    assert_eq!(serve(b"\r\n\r\n", true), Serve::Respond { used: 4 });
    assert_eq!(serve(b"GET", false), Serve::Read);
    assert_eq!(serve(b"GET", true), Serve::Close);
    assert_eq!(serve(&[b'x'; 16384], false), Serve::Close);
    assert_eq!(serve(&[b'x'; 16383], false), Serve::Read);
    let mut long = vec![b'x'; 20000];
    long.extend_from_slice(b"\r\n\r\n");
    assert_eq!(serve(&long, false), Serve::Respond { used: 20004 });
    assert_eq!(rest_after(b"abcd", 3), b"d".to_vec());
}

fn pem(label: &str, body: &str) -> String {
    format!("-----BEGIN {label}-----\n{body}\n-----END {label}-----\n")
}

#[test]
fn certificate_chains() {
    let two = pem("CERTIFICATE", "AQID") + &pem("X", "AAAA") + &pem("CERTIFICATE", "BAU=");
    assert_eq!(read_chain(two.as_bytes()).unwrap(), vec![vec![1, 2, 3], vec![4, 5]]);
    assert_eq!(read_chain(b"nothing").unwrap(), Vec::<Vec<u8>>::new());
    let bad = pem("CERTIFICATE", "?");
    assert_eq!(read_chain(bad.as_bytes()), Err(TlsError::Chain));
}

#[test]
fn keys() {
    let rsa = pem("RSA PRIVATE KEY", "AQID");
    let pkcs8 = pem("PRIVATE KEY", "BAU=");
    match read_key((rsa.clone() + &pkcs8).as_bytes()) {
        Ok(PrivateKey::Pkcs8(k)) => assert_eq!(k, vec![4, 5]),
        _ => panic!("not the PKCS#8 key"),
    }
    match read_key(rsa.as_bytes()) {
        Ok(PrivateKey::Rsa(k)) => assert_eq!(k, vec![1, 2, 3]),
        _ => panic!("not the RSA key"),
    }
    assert!(matches!(read_key(b""), Err(TlsError::NoKey)));
    let bad = pem("PRIVATE KEY", "?");
    assert!(matches!(read_key(bad.as_bytes()), Err(TlsError::Pkcs8)));
    assert!(matches!(choose_key(Ok(None), Err(())), Err(TlsError::Rsa)));
    assert!(matches!(choose_key(Ok(Some(vec![1])), Err(())), Ok(PrivateKey::Pkcs8(_))));
    assert_eq!(alpn_protocols(), vec!["h2", "http/1.1"]);
}

#[test]
fn source_lists_can_deny_too() {
    let acl = Acl::from_config(&["10.0.0.0/8".into()], &["10.0.0.1".into()]).unwrap();
    assert!(!source_trusted(true, &Some(acl), ip("10.0.0.1")));
}
