use oxigate::addr::{IpAddr, Ipv4Addr, SocketAddr};
use oxigate::config::validator::{
    judge_upstream, open_admin, spoofable_source, validate, validate_cidr, validate_upstream,
    CidrList, CidrProblem, ConfigError, UpstreamProblem,
};
use oxigate::config::{
    default_burst, default_max_body, default_metrics_listen, default_pool_max_idle,
    default_retries, default_true, default_weight, set_header, AclConfig, Config, HeaderConfig,
    HealthCheckConfig, LoadBalancingAlgorithm, RateLimitConfigYaml, RouteConfig, StickyConfig,
    TimeoutConfig, TlsConfig, Upstream,
};
use oxigate::uri::UriParts;

fn up(address: &str, weight: u32) -> Upstream {
    Upstream { address: address.into(), weight }
}

fn base() -> Config {
    Config {
        listen: SocketAddr::new(IpAddr::V4(Ipv4Addr::new(127, 0, 0, 1)), 8080),
        metrics_listen: default_metrics_listen(),
        upstreams: vec![up("http://127.0.0.1:8081", 1)],
        routes: vec![],
        load_balancing: LoadBalancingAlgorithm::default(),
        health_check: HealthCheckConfig::default(),
        timeouts: TimeoutConfig::default(),
        tls: None,
        retries: default_retries(),
        max_connections: 0,
        sticky: None,
        headers: HeaderConfig::default(),
        access_log: default_true(),
        rate_limit: None,
        proxy_protocol: false,
        upstream_http2: false,
        pool_max_idle_per_host: default_pool_max_idle(),
        max_body_bytes: default_max_body(),
        retry_idempotent_only: true,
        force_retry_with_body: false,
        acl: None,
        security_headers: true,
        admin_token: None,
        proxy_protocol_trusted_cidrs: vec![],
    }
}

fn route(prefix: &str, upstreams: Vec<Upstream>) -> RouteConfig {
    RouteConfig { path_prefix: prefix.into(), upstreams, load_balancing: None }
}

fn error(c: &Config) -> Option<ConfigError> {
    validate(c, true, true).err()
}

#[test]
fn defaults() {
    assert_eq!(default_max_body(), 16 * 1024 * 1024);
    assert_eq!(default_pool_max_idle(), 64);
    assert_eq!(f64::from_bits(default_burst()), 1.5);
    assert_eq!(default_retries(), 1);
    assert_eq!(default_weight(), 1);
    let m = default_metrics_listen();
    assert_eq!(m.ip, IpAddr::V4(Ipv4Addr::new(0, 0, 0, 0)));
    assert_eq!(m.port, 9090);
    assert_eq!(LoadBalancingAlgorithm::default(), LoadBalancingAlgorithm::RoundRobin);
    let s = StickyConfig::default();
    assert_eq!(s.cookie_name, "OXIGATE");
    assert_eq!(s.max_age_secs, 3600);
    let h = HealthCheckConfig::default();
    assert_eq!((h.interval_secs, h.timeout_secs), (5, 2));
    assert_eq!((h.unhealthy_threshold, h.healthy_threshold), (3, 2));
    assert_eq!(h.path, "/");
    let t = TimeoutConfig::default();
    assert_eq!((t.connect_secs, t.request_secs, t.idle_secs), (5, 30, 60));
    assert!(AclConfig::default().allow.is_empty());
    assert!(AclConfig::default().deny.is_empty());
}

#[test]
fn timeouts_as_spans() {
    let c = base();
    assert_eq!(c.connect_timeout().nanos, 5_000_000_000);
    assert_eq!(c.request_timeout().nanos, 30_000_000_000);
    assert_eq!(c.health_interval().nanos, 5_000_000_000);
}

#[test]
fn an_ordinary_configuration_is_accepted() {
    assert_eq!(error(&base()), None);
    let mut c = base();
    c.upstreams = vec![];
    c.routes = vec![route("/", vec![up("https://example.org/base", 3)])];
    assert_eq!(error(&c), None);
}

#[test]
fn upstream_errors() {
    assert_eq!(validate_upstream(&up("http://a", 1)), None);
    assert_eq!(validate_upstream(&up("", 0)), Some(UpstreamProblem::EmptyAddress));
    assert_eq!(validate_upstream(&up("http://a", 0)), Some(UpstreamProblem::ZeroWeight));
    assert_eq!(validate_upstream(&up("http://a b", 1)), Some(UpstreamProblem::InvalidUri));
    assert_eq!(validate_upstream(&up("ftp://a", 1)), Some(UpstreamProblem::Scheme));
    assert_eq!(validate_upstream(&up("/path", 1)), Some(UpstreamProblem::Scheme));
    let hostless = Some(UriParts { scheme: Some("http".into()), host: None });
    assert_eq!(judge_upstream(&up("http://a", 1), &hostless), Some(UpstreamProblem::NoHost));
    assert_eq!(judge_upstream(&up("http://a", 1), &None), Some(UpstreamProblem::InvalidUri));
}

#[test]
fn the_first_error_is_reported() {
    let mut c = base();
    c.upstreams = vec![];
    assert_eq!(error(&c), Some(ConfigError::NothingToServe));
    c.upstreams = vec![up("http://a", 1), up("http://b", 0), up("", 1)];
    assert_eq!(
        error(&c),
        Some(ConfigError::Upstream { index: 1, problem: UpstreamProblem::ZeroWeight })
    );
    let mut c = base();
    c.routes = vec![route("/a", vec![up("http://a", 1)]), route("", vec![])];
    assert_eq!(error(&c), Some(ConfigError::RouteWithoutUpstream { route: 1 }));
    c.routes[1].upstreams = vec![up("http://a", 1), up("gopher://a", 1)];
    assert_eq!(error(&c), Some(ConfigError::RouteWithoutPrefix { route: 1 }));
    c.routes[1].path_prefix = "/b".into();
    assert_eq!(
        error(&c),
        Some(ConfigError::RouteUpstream { route: 1, index: 1, problem: UpstreamProblem::Scheme })
    );
}

#[test]
fn number_errors() {
    let mut c = base();
    c.health_check.interval_secs = 0;
    assert_eq!(error(&c), Some(ConfigError::HealthInterval));
    let mut c = base();
    c.health_check.timeout_secs = 0;
    assert_eq!(error(&c), Some(ConfigError::HealthTimeout));
    c.health_check.timeout_secs = 51;
    assert_eq!(error(&c), Some(ConfigError::HealthRatio));
    c.health_check.timeout_secs = 50;
    assert_eq!(error(&c), None);
    let mut c = base();
    c.timeouts.connect_secs = 0;
    assert_eq!(error(&c), Some(ConfigError::Timeouts));
    let mut c = base();
    c.timeouts.request_secs = 0;
    assert_eq!(error(&c), Some(ConfigError::Timeouts));
    let mut c = base();
    c.max_body_bytes = 0;
    assert_eq!(error(&c), Some(ConfigError::MaxBody));
}

#[test]
fn rate_limit_errors() {
    let mut c = base();
    c.rate_limit = Some(RateLimitConfigYaml { rps: 0, burst_bits: default_burst() });
    assert_eq!(error(&c), Some(ConfigError::RateLimitRps));
    for (burst, refused) in [
        (0.0, true),
        (-0.0, true),
        (-1.5, true),
        (f64::NEG_INFINITY, true),
        (f64::MIN_POSITIVE, false),
        (5e-324, false),
        (1.0, false),
        (f64::NAN, false),
        (-f64::NAN, false),
    ] {
        c.rate_limit = Some(RateLimitConfigYaml { rps: 1, burst_bits: burst.to_bits() });
        assert_eq!(error(&c) == Some(ConfigError::RateLimitBurst), refused, "{burst}");
        assert_eq!(refused, burst <= 0.0);
    }
}

#[test]
fn tls_files() {
    let mut c = base();
    assert!(validate(&c, false, false).is_ok());
    c.tls = Some(TlsConfig { cert: "c".into(), key: "k".into() });
    assert_eq!(validate(&c, false, false), Err(ConfigError::CertMissing));
    assert_eq!(validate(&c, true, false), Err(ConfigError::KeyMissing));
    assert_eq!(validate(&c, true, true), Ok(()));
}

#[test]
fn cidr_errors() {
    assert_eq!(validate_cidr("10.0.0.0/8"), None);
    assert_eq!(validate_cidr("::1"), None);
    assert_eq!(validate_cidr("1.2.3.4/128"), None);
    assert_eq!(validate_cidr("1.2.3/8"), Some(CidrProblem::Address));
    assert_eq!(validate_cidr("1.2.3.4/x"), Some(CidrProblem::Prefix));
    assert_eq!(validate_cidr("1.2.3.4/256"), Some(CidrProblem::Prefix));
    assert_eq!(validate_cidr("1.2.3.4/129"), Some(CidrProblem::PrefixRange));
    assert_eq!(validate_cidr("localhost"), Some(CidrProblem::AddressOrCidr));
    let mut c = base();
    c.acl = Some(AclConfig { allow: vec!["1.1.1.1".into()], deny: vec!["::/0".into(), "x".into()] });
    c.proxy_protocol_trusted_cidrs = vec!["y/1".into()];
    assert_eq!(
        error(&c),
        Some(ConfigError::Cidr {
            list: CidrList::Deny,
            position: 1,
            cause: CidrProblem::AddressOrCidr
        })
    );
    c.acl = None;
    assert_eq!(
        error(&c),
        Some(ConfigError::Cidr { list: CidrList::Trusted, position: 0, cause: CidrProblem::Address })
    );
}

#[test]
fn warnings() {
    let mut c = base();
    assert!(!spoofable_source(&c));
    c.proxy_protocol = true;
    assert!(spoofable_source(&c));
    c.proxy_protocol_trusted_cidrs = vec!["10.0.0.0/8".into()];
    assert!(!spoofable_source(&c));
    assert!(open_admin(&c));
    c.admin_token = Some(String::new());
    assert!(open_admin(&c));
    c.admin_token = Some("t".into());
    assert!(!open_admin(&c));
}

#[test]
fn header_lists_hold_a_name_once() {
    let mut list: Vec<(String, String)> = Vec::new();
    set_header(&mut list, "a".into(), "1".into());
    set_header(&mut list, "b".into(), "2".into());
    set_header(&mut list, "a".into(), "3".into());
    assert_eq!(
        list,
        vec![("a".to_string(), "3".to_string()), ("b".to_string(), "2".to_string())]
    );
}
