use oxigate::addr::{IpAddr, Ipv4Addr};
use oxigate::config::{HeaderConfig, LoadBalancingAlgorithm, Upstream};
use oxigate::lb::LoadBalancer;
use oxigate::proxy::body_limit::BodyLimitError;
use oxigate::proxy::handler::{
    access_line, admission_at, admit_request, body_refusal, error_headers, gateway_refusal, limiter_passed,
    max_attempts, may_retry, no_upstream_refusal, refusal, upgrade_body_refusal, Action, Admission,
    Attempts, Exchange, Next, Outcome, ProxyContext,
};
use oxigate::ratelimit::{RateLimitConfig, RateLimiter};
use oxigate::router::Router;
use oxigate::security::Acl;
use oxigate::span::Span;

fn context() -> ProxyContext {
    ProxyContext {
        retries: 2,
        request_timeout: Span::from_secs(1),
        sticky: None,
        headers: HeaderConfig::default(),
        access_log: false,
        max_body_bytes: 10,
        retry_idempotent_only: true,
        force_retry_with_body: false,
        acl: None,
        security_headers: false,
        client_is_tls: false,
        idle_timeout: Span::from_secs(1),
    }
}

fn pool(n: usize) -> LoadBalancer {
    let ups: Vec<Upstream> =
        (0..n).map(|i| Upstream { address: format!("http://h{i}"), weight: 1 }).collect();
    LoadBalancer::from_upstreams(&ups, LoadBalancingAlgorithm::RoundRobin)
}

fn conns(lb: &LoadBalancer) -> Vec<usize> {
    lb.upstreams().iter().map(|u| u.connections()).collect()
}

fn config(upstreams: usize) -> oxigate::config::Config {
    oxigate::config::Config {
        listen: oxigate::config::default_metrics_listen(),
        metrics_listen: oxigate::config::default_metrics_listen(),
        upstreams: (0..upstreams)
            .map(|i| Upstream { address: format!("http://h{i}"), weight: 1 })
            .collect(),
        routes: vec![],
        load_balancing: LoadBalancingAlgorithm::RoundRobin,
        health_check: Default::default(),
        timeouts: Default::default(),
        tls: None,
        retries: 1,
        max_connections: 0,
        sticky: None,
        headers: HeaderConfig::default(),
        access_log: false,
        rate_limit: None,
        proxy_protocol: false,
        upstream_http2: false,
        pool_max_idle_per_host: 8,
        max_body_bytes: 1024,
        retry_idempotent_only: true,
        force_retry_with_body: false,
        acl: None,
        security_headers: true,
        admin_token: None,
        proxy_protocol_trusted_cidrs: vec![],
    }
}

fn limiter() -> Option<RateLimiter> {
    let cfg = RateLimitConfig::from_rps(1, 1.0f64.to_bits());
    Some(RateLimiter::new(cfg, Span { nanos: 0 }))
}

#[test]
fn admission_order() {
    let ip = IpAddr::V4(Ipv4Addr::new(10, 0, 0, 1));
    let deny = Some(Acl::from_config(&[], &["10.0.0.0/8".into()]).unwrap());
    let open: Option<Acl> = None;
    let some = Router::from_config(&config(1));
    let none = Router::from_config(&config(0));
    let mut rl = limiter();
    let at = |acl: &Option<Acl>, permit: bool, rl: &mut Option<RateLimiter>, r: &Router| {
        admission_at(acl, permit, rl, r, "/x", ip, 0)
    };
    assert_eq!(at(&deny, false, &mut rl, &none), Admission::Busy);
    assert_eq!(at(&deny, true, &mut rl, &none), Admission::Forbidden);
    assert_eq!(rl.as_ref().unwrap().allows(), 0);
    assert_eq!(at(&open, true, &mut rl, &none), Admission::NoRoute);
    assert_eq!(rl.as_ref().unwrap().allows(), 1);
    assert_eq!(at(&open, true, &mut rl, &none), Admission::Limited);
    assert_eq!(rl.as_ref().unwrap().rejects(), 1);
    assert_eq!(at(&open, true, &mut None, &none), Admission::NoRoute);
    assert_eq!(at(&open, true, &mut None, &some), Admission::Admitted);
    let mut rl = limiter();
    assert_eq!(admit_request(&open, true, &mut rl, &some, "/", ip), Admission::Admitted);
    assert_eq!(admit_request(&open, false, &mut rl, &some, "/", ip), Admission::Busy);
    assert_eq!(rl.as_ref().unwrap().allows(), 1);
}

#[test]
fn refusals() {
    let told = |a: Admission| refusal(a).map(|x| (x.status, x.message, x.counted));
    assert_eq!(told(Admission::Admitted), None);
    assert_eq!(told(Admission::Busy), Some((503, "Too Many Concurrent Requests", true)));
    assert_eq!(told(Admission::Forbidden), Some((403, "Forbidden", true)));
    assert_eq!(told(Admission::Limited), Some((429, "Too Many Requests", true)));
    assert_eq!(told(Admission::NoRoute), Some((404, "No route matched", true)));
    assert!(limiter_passed(Admission::NoRoute, true));
    assert!(!limiter_passed(Admission::Limited, true));
    assert!(!limiter_passed(Admission::Admitted, false));
}

#[test]
fn body_refusals() {
    let told = |e: &BodyLimitError| {
        let a = body_refusal(e);
        (a.status, a.message, a.counted)
    };
    assert_eq!(told(&BodyLimitError::TooLarge), (413, "Payload Too Large", true));
    assert_eq!(told(&BodyLimitError::IdleTimeout), (408, "Request Body Idle Timeout", true));
    assert_eq!(told(&BodyLimitError::Other("x".into())), (400, "Bad Request", false));
    assert_eq!(upgrade_body_refusal(&BodyLimitError::TooLarge).status, 413);
    assert_eq!(upgrade_body_refusal(&BodyLimitError::IdleTimeout).status, 400);
    assert_eq!(gateway_refusal(false).status, 502);
    assert!(gateway_refusal(false).counted);
    assert!(!gateway_refusal(true).counted);
    assert_eq!(no_upstream_refusal().status, 503);
    assert_eq!(no_upstream_refusal().message, "No healthy upstreams");
}

#[test]
fn error_header_fields() {
    let h = error_headers(&vec![]).unwrap();
    assert_eq!(h.len(), 2);
    assert_eq!(h["content-type"], "text/plain; charset=utf-8");
    assert_eq!(h["connection"], "close");
}

#[test]
fn errors_carry_the_configured_headers() {
    let set = vec![
        ("X-A".to_string(), "1".to_string()),
        ("content-type".to_string(), "text/html".to_string()),
        ("bad name".to_string(), "v".to_string()),
    ];
    let h = error_headers(&set).unwrap();
    assert_eq!(h.len(), 3);
    assert_eq!(h["x-a"], "1");
    assert_eq!(h["content-type"], "text/html");
    assert_eq!(h["connection"], "close");
    let many: Vec<(String, String)> = (0..40_000).map(|i| (format!("n{i}"), "v".into())).collect();
    assert!(error_headers(&many).is_none());
}

#[test]
fn access_lines() {
    let mut ctx = context();
    assert!(access_line(&ctx, 200, Some("http://a"), 1).is_none());
    ctx.access_log = true;
    let l = access_line(&ctx, 200, Some("http://a"), 2).unwrap();
    assert_eq!((l.status, l.upstream.as_str(), l.attempt), (200, "http://a", 2));
    let l = access_line(&ctx, 403, None, 0).unwrap();
    assert_eq!((l.status, l.upstream.as_str(), l.attempt), (403, "none", 0));
}

#[test]
fn retries() {
    let mut ctx = context();
    for m in ["GET", "HEAD", "OPTIONS", "PUT", "DELETE"] {
        assert!(may_retry(&ctx, m, false));
    }
    assert!(!may_retry(&ctx, "POST", false));
    assert!(!may_retry(&ctx, "get", false));
    assert!(may_retry(&ctx, "POST", true));
    assert_eq!(max_attempts(&ctx, "POST", false), 1);
    assert_eq!(max_attempts(&ctx, "GET", false), 3);
    ctx.force_retry_with_body = true;
    assert!(may_retry(&ctx, "POST", false));
    ctx.force_retry_with_body = false;
    ctx.retry_idempotent_only = false;
    assert_eq!(max_attempts(&ctx, "PATCH", false), 3);
    ctx.retries = u32::MAX;
    assert_eq!(max_attempts(&ctx, "GET", true), u32::MAX);
}

#[test]
fn attempts_do_not_repeat() {
    let mut lb = pool(2);
    let mut a = Attempts::new(5);
    assert_eq!(a.next(&mut lb, Some("http://h1")), Next::Try { upstream: 1, retry: false });
    assert_eq!(a.next(&mut lb, Some("http://h1")), Next::Try { upstream: 0, retry: true });
    assert_eq!(a.next(&mut lb, None), Next::GiveUp { retry: true });
    assert_eq!(a.made(), 2);
    assert_eq!(conns(&lb), vec![1, 1]);
    let mut b = Attempts::new(1);
    assert_eq!(b.next(&mut lb, None), Next::Try { upstream: 1, retry: false });
    assert_eq!(b.next(&mut lb, None), Next::GiveUp { retry: false });
}

#[test]
fn an_exchange_counts_its_connections_back() {
    let mut lb = pool(3);
    let mut e = Exchange::new(&context(), "GET", true);
    let first = e.advance(&mut lb, None, Outcome::Begin);
    assert_eq!(first, Action::Try { upstream: 0, retry: false });
    assert_eq!(conns(&lb), vec![1, 0, 0]);
    lb.upstream_mut(1).set_healthy(false);
    let second = e.advance(&mut lb, None, Outcome::Failed);
    assert_eq!(second, Action::Try { upstream: 2, retry: true });
    assert_eq!(conns(&lb), vec![0, 0, 1]);
    assert_eq!(e.made(), 2);
    let done = e.advance(&mut lb, None, Outcome::Succeeded);
    assert_eq!(done, Action::Deliver { upstream: 2 });
    assert_eq!(conns(&lb), vec![0, 0, 0]);
}

#[test]
fn an_exchange_gives_up() {
    let mut lb = pool(2);
    let mut e = Exchange::new(&context(), "POST", false);
    assert_eq!(
        e.advance(&mut lb, Some("http://h1"), Outcome::Begin),
        Action::Try { upstream: 1, retry: false }
    );
    assert_eq!(e.advance(&mut lb, None, Outcome::Failed), Action::Fail { retry: false });
    assert_eq!(conns(&lb), vec![0, 0]);
    let mut empty = pool(0);
    let mut e = Exchange::new(&context(), "GET", true);
    assert_eq!(e.advance(&mut empty, None, Outcome::Begin), Action::Fail { retry: false });
}
