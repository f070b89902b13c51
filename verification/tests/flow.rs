use oxigate::config::{HeaderConfig, LoadBalancingAlgorithm, Upstream};
use oxigate::lb::LoadBalancer;
use oxigate::proxy::body_limit::BodyLimitError;
use oxigate::proxy::flow::{Flow, FlowAction, FlowEvent};
use oxigate::proxy::handler::ProxyContext;
use oxigate::span::Span;

fn context() -> ProxyContext {
    ProxyContext {
        retries: 1,
        request_timeout: Span::from_secs(1),
        sticky: None,
        headers: HeaderConfig::default(),
        access_log: false,
        max_body_bytes: 10,
        retry_idempotent_only: true,
        force_retry_with_body: false,
        acl: None,
        security_headers: false,
        client_is_tls: false,
        idle_timeout: Span::from_secs(1),
    }
}

fn pool(n: usize) -> LoadBalancer {
    let ups: Vec<Upstream> =
        (0..n).map(|i| Upstream { address: format!("http://h{i}"), weight: 1 }).collect();
    LoadBalancer::from_upstreams(&ups, LoadBalancingAlgorithm::RoundRobin)
}

fn conns(lb: &LoadBalancer) -> Vec<usize> {
    lb.upstreams().iter().map(|u| u.connections()).collect()
}

fn words(a: FlowAction) -> String {
    match a {
        FlowAction::ReadBody => "read".into(),
        FlowAction::Try { upstream, retry, upgrade } => format!("try {upstream} {retry} {upgrade}"),
        FlowAction::Deliver { upstream, upgrade } => format!("deliver {upstream} {upgrade}"),
        FlowAction::Reply { answer, retry } => {
            format!("{} {} {} {retry}", answer.status, answer.message, answer.counted)
        }
        FlowAction::Nothing => "nothing".into(),
    }
}

fn run(lb: &mut LoadBalancer, method: &str, sticky: Option<&str>, events: Vec<FlowEvent>) -> Vec<String> {
    let ctx = context();
    let mut flow = Flow::new();
    events.into_iter().map(|e| words(flow.step(lb, &ctx, method, sticky, e))).collect()
}

#[test]
fn a_request_is_delivered() {
    let mut lb = pool(2);
    let said = run(
        &mut lb,
        "GET",
        Some("http://h1"),
        vec![
            FlowEvent::Admitted { upgrade: false },
            FlowEvent::BodyRead { is_empty: true },
            FlowEvent::AttemptSucceeded,
            FlowEvent::AttemptSucceeded,
        ],
    );
    assert_eq!(said, vec!["read", "try 1 false false", "deliver 1 false", "nothing"]);
    assert_eq!(conns(&lb), vec![0, 0]);
}

#[test]
fn a_request_is_retried_elsewhere() {
    let mut lb = pool(2);
    let said = run(
        &mut lb,
        "GET",
        None,
        vec![
            FlowEvent::Admitted { upgrade: false },
            FlowEvent::BodyRead { is_empty: false },
            FlowEvent::AttemptFailed,
        ],
    );
    assert_eq!(said, vec!["read", "try 0 false false", "try 1 true false"]);
    assert_eq!(conns(&lb), vec![0, 1]);
}

#[test]
fn an_unsafe_request_is_tried_once() {
    let mut lb = pool(2);
    let said = run(
        &mut lb,
        "POST",
        None,
        vec![
            FlowEvent::Admitted { upgrade: false },
            FlowEvent::BodyRead { is_empty: false },
            FlowEvent::AttemptFailed,
        ],
    );
    assert_eq!(said, vec!["read", "try 0 false false", "502 Bad Gateway true false"]);
    assert_eq!(conns(&lb), vec![0, 0]);
}

#[test]
fn no_upstream_is_left() {
    let mut lb = pool(1);
    let said = run(
        &mut lb,
        "GET",
        None,
        vec![
            FlowEvent::Admitted { upgrade: false },
            FlowEvent::BodyRead { is_empty: true },
            FlowEvent::AttemptFailed,
        ],
    );
    assert_eq!(said, vec!["read", "try 0 false false", "502 Bad Gateway true true"]);
}

#[test]
fn bodies_that_fail() {
    for (e, answer) in [
        (BodyLimitError::TooLarge, "413 Payload Too Large true false"),
        (BodyLimitError::IdleTimeout, "408 Request Body Idle Timeout true false"),
        (BodyLimitError::Other("x".into()), "400 Bad Request false false"),
    ] {
        let said = run(
            &mut pool(1),
            "GET",
            None,
            vec![FlowEvent::Admitted { upgrade: false }, FlowEvent::BodyFailed(e)],
        );
        assert_eq!(said, vec!["read", answer]);
    }
    for (e, answer) in [
        (BodyLimitError::TooLarge, "413 Payload Too Large false false"),
        (BodyLimitError::IdleTimeout, "400 Bad Request false false"),
    ] {
        let said = run(
            &mut pool(1),
            "GET",
            None,
            vec![FlowEvent::Admitted { upgrade: true }, FlowEvent::BodyFailed(e)],
        );
        assert_eq!(said, vec!["read", answer]);
    }
}

#[test]
fn upgrades_are_tried_once() {
    let mut lb = pool(2);
    let said = run(
        &mut lb,
        "GET",
        None,
        vec![
            FlowEvent::Admitted { upgrade: true },
            FlowEvent::BodyRead { is_empty: true },
            FlowEvent::AttemptFailed,
        ],
    );
    assert_eq!(said, vec!["read", "try 0 false true", "502 Bad Gateway false false"]);
    let said = run(
        &mut lb,
        "GET",
        None,
        vec![
            FlowEvent::Admitted { upgrade: true },
            FlowEvent::BodyRead { is_empty: true },
            FlowEvent::AttemptSucceeded,
        ],
    );
    assert_eq!(said, vec!["read", "try 1 false true", "deliver 1 true"]);
    assert_eq!(conns(&lb), vec![0, 0]);
    let said = run(&mut pool(0), "GET", None, vec![FlowEvent::Admitted { upgrade: true }]);
    assert_eq!(said, vec!["503 No healthy upstreams false false"]);
}

#[test]
fn events_out_of_turn_do_nothing() {
    let mut lb = pool(1);
    let said = run(
        &mut lb,
        "GET",
        None,
        vec![
            FlowEvent::AttemptFailed,
            FlowEvent::Admitted { upgrade: false },
            FlowEvent::AttemptSucceeded,
            FlowEvent::BodyRead { is_empty: true },
            FlowEvent::BodyRead { is_empty: true },
        ],
    );
    assert_eq!(said, vec!["nothing", "read", "nothing", "try 0 false false", "nothing"]);
}

#[test]
fn attempts_are_limited() {
    let mut lb = pool(5);
    let failing = |is_empty: bool| {
        vec![
            FlowEvent::Admitted { upgrade: false },
            FlowEvent::BodyRead { is_empty },
            FlowEvent::AttemptFailed,
            FlowEvent::AttemptFailed,
            FlowEvent::AttemptFailed,
        ]
    };
    let said = run(&mut lb, "POST", None, failing(false));
    assert_eq!(said[2], "502 Bad Gateway true false");
    assert_eq!(said[3], "nothing");
    for (method, is_empty) in [("POST", true), ("GET", false)] {
        let said = run(&mut lb, method, None, failing(is_empty));
        assert!(said[1].starts_with("try") && said[2].starts_with("try"));
        assert_eq!(said[3], "502 Bad Gateway true false");
    }
    assert_eq!(conns(&lb), vec![0; 5]);
}
