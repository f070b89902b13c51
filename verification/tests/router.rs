use oxigate::addr::{IpAddr, Ipv4Addr, SocketAddr};
use oxigate::config::{
    Config, HeaderConfig, HealthCheckConfig, LoadBalancingAlgorithm, RouteConfig, TimeoutConfig,
    Upstream,
};
use oxigate::router::{normalize_prefix, path_matches, Router};

fn base_cfg() -> Config {
    let any = SocketAddr::new(IpAddr::V4(Ipv4Addr::new(127, 0, 0, 1)), 0);
    Config {
        listen: any,
        metrics_listen: any,
        upstreams: vec![Upstream {
            address: "http://127.0.0.1:8081".into(),
            weight: 1,
        }],
        routes: vec![RouteConfig {
            path_prefix: "/api".into(),
            upstreams: vec![Upstream {
                address: "http://127.0.0.1:9001".into(),
                weight: 1,
            }],
            load_balancing: Some(LoadBalancingAlgorithm::LeastConnections),
        }],
        load_balancing: LoadBalancingAlgorithm::RoundRobin,
        health_check: HealthCheckConfig::default(),
        timeouts: TimeoutConfig::default(),
        tls: None,
        retries: 1,
        max_connections: 0,
        sticky: None,
        headers: HeaderConfig::default(),
        access_log: false,
        rate_limit: None,
        proxy_protocol: false,
        upstream_http2: false,
        pool_max_idle_per_host: 8,
        max_body_bytes: 1024,
        retry_idempotent_only: true,
        force_retry_with_body: false,
        acl: None,
        security_headers: true,
        admin_token: None,
        proxy_protocol_trusted_cidrs: vec![],
    }
}

fn route(prefix: &str, address: &str) -> RouteConfig {
    RouteConfig {
        path_prefix: prefix.into(),
        upstreams: vec![Upstream { address: address.into(), weight: 1 }],
        load_balancing: None,
    }
}

fn served(r: &Router, path: &str) -> Option<String> {
    r.resolve(path).map(|lb| lb.upstreams()[0].address.clone())
}

#[test]
fn routes_api_prefix() {
    let r = Router::from_config(&base_cfg());
    let lb = r.resolve("/api/users").unwrap();
    assert_eq!(lb.upstreams()[0].address, "http://127.0.0.1:9001");
}

#[test]
fn routes_default() {
    let r = Router::from_config(&base_cfg());
    let lb = r.resolve("/static/x").unwrap();
    assert_eq!(lb.upstreams()[0].address, "http://127.0.0.1:8081");
}

#[test]
fn segments_are_whole() {
    assert!(path_matches("/api", "/api"));
    assert!(path_matches("/api/", "/api"));
    assert!(path_matches("/api/x", "/api/"));
    assert!(!path_matches("/api", "/api/"));
    assert!(!path_matches("/apiary", "/api"));
    assert!(!path_matches("/ap", "/api"));
    assert!(path_matches("", "/"));
    assert!(path_matches("/x", "//"));
    assert_eq!(normalize_prefix(""), "/");
    assert_eq!(normalize_prefix("/a/"), "/a/");
}

#[test]
fn first_match_wins() {
    let mut c = base_cfg();
    c.routes = vec![route("/", "http://127.0.0.1:9001"), route("/api", "http://127.0.0.1:9002")];
    let r = Router::from_config(&c);
    assert_eq!(served(&r, "/api/users").unwrap(), "http://127.0.0.1:9001");
    assert_eq!(served(&r, "/x").unwrap(), "http://127.0.0.1:9001");
    c.routes.reverse();
    let r = Router::from_config(&c);
    assert_eq!(served(&r, "/api/users").unwrap(), "http://127.0.0.1:9002");
    assert_eq!(served(&r, "/x").unwrap(), "http://127.0.0.1:9001");
}

#[test]
fn longest_prefix_wins() {
    let mut c = base_cfg();
    c.routes = vec![
        route("/api/v2", "http://v2"),
        route("/api/v2", "http://second"),
        route("/api", "http://api"),
        route("/žž", "http://wide"),
        route("/", "http://root"),
    ];
    let r = Router::from_config(&c);
    assert_eq!(served(&r, "/api/v2/x").unwrap(), "http://v2");
    assert_eq!(served(&r, "/api/v1").unwrap(), "http://api");
    assert_eq!(served(&r, "/apiary").unwrap(), "http://root");
    assert_eq!(served(&r, "/žž/1").unwrap(), "http://wide");
    let order: Vec<String> =
        r.all_lbs().iter().map(|lb| lb.upstreams()[0].address.clone()).collect();
    assert_eq!(
        order,
        vec!["http://v2", "http://second", "http://api", "http://wide", "http://root",
             "http://127.0.0.1:8081"]
    );
}

#[test]
fn no_default_pool() {
    let mut c = base_cfg();
    c.upstreams = vec![];
    let r = Router::from_config(&c);
    assert!(r.resolve("/static/x").is_none());
    assert_eq!(r.all_lbs().len(), 1);
    c.routes = vec![];
    assert!(Router::from_config(&c).all_lbs().is_empty());
}

#[test]
fn an_empty_prefix_serves_all() {
    let mut c = base_cfg();
    c.routes = vec![route("", "http://all")];
    let r = Router::from_config(&c);
    assert_eq!(served(&r, "/anything").unwrap(), "http://all");
}

#[test]
fn balancers_can_be_changed_in_place() {
    let mut r = Router::from_config(&base_cfg());
    r.resolve_mut("/api/users").unwrap().upstream_mut(0).inc_connections();
    assert_eq!(r.resolve("/api").unwrap().upstreams()[0].connections(), 1);
    assert_eq!(r.resolve("/").unwrap().upstreams()[0].connections(), 0);
    r.resolve_mut("/").unwrap().upstream_mut(0).set_healthy(false);
    assert_eq!(r.resolve_mut("/").unwrap().select(), None);
    r.lb_mut(1).unwrap().upstream_mut(0).set_healthy(true);
    assert_eq!(r.resolve_mut("/").unwrap().select(), Some(0));
    assert_eq!(r.lb_mut(0).unwrap().upstreams()[0].address, "http://127.0.0.1:9001");
    assert!(r.lb_mut(2).is_none());
}
