use oxigate::config::{LoadBalancingAlgorithm, Upstream};
use oxigate::lb::least_conn;
use oxigate::lb::{LoadBalancer, UpstreamRuntime};

fn up(address: &str, weight: u32) -> Upstream {
    Upstream { address: address.into(), weight }
}

fn pool(n: usize) -> Vec<Upstream> {
    (0..n).map(|i| up(&format!("http://h{i}"), 1)).collect()
}

fn open(lb: &mut LoadBalancer, i: usize, n: usize) {
    for _ in 0..n {
        lb.upstream_mut(i).inc_connections();
    }
}

#[test]
fn lb_round_robin_cycles() {
    let upstreams = vec![
        Upstream {
            address: "http://a".into(),
            weight: 1,
        },
        Upstream {
            address: "http://b".into(),
            weight: 1,
        },
    ];
    let mut lb = LoadBalancer::from_upstreams(&upstreams, LoadBalancingAlgorithm::RoundRobin);
    let i = lb.select().unwrap();
    let a = lb.upstreams()[i].address.clone();
    let i = lb.select().unwrap();
    let b = lb.upstreams()[i].address.clone();
    assert_ne!(a, b);
}

#[test]
fn round_robin_takes_turns_in_order() {
    let mut lb = LoadBalancer::from_upstreams(&pool(3), LoadBalancingAlgorithm::RoundRobin);
    let picks: Vec<usize> = (0..7).map(|_| lb.select().unwrap()).collect();
    assert_eq!(picks, vec![0, 1, 2, 0, 1, 2, 0]);
}

#[test]
fn unhealthy_and_excluded_are_skipped() {
    let mut lb = LoadBalancer::from_upstreams(&pool(3), LoadBalancingAlgorithm::RoundRobin);
    lb.upstream_mut(1).set_healthy(false);
    assert!(!lb.upstreams()[1].is_healthy());
    let picks: Vec<usize> = (0..4).map(|_| lb.select().unwrap()).collect();
    assert_eq!(picks, vec![0, 2, 0, 2]);
    assert_eq!(lb.select_excluding(&["http://h0"]), Some(2));
    assert_eq!(lb.select_excluding(&["http://h0", "http://h2"]), None);
    lb.upstream_mut(1).set_healthy(true);
    assert_eq!(lb.select_excluding(&["http://h0", "http://h2"]), Some(1));
}

#[test]
fn an_empty_pool_gives_nothing() {
    for a in [
        LoadBalancingAlgorithm::RoundRobin,
        LoadBalancingAlgorithm::WeightedRoundRobin,
        LoadBalancingAlgorithm::LeastConnections,
        LoadBalancingAlgorithm::PowerOfTwoChoices,
    ] {
        let mut lb = LoadBalancer::from_upstreams(&[], a);
        assert_eq!(lb.select(), None);
    }
}

#[test]
fn weighted_turns() {
    let ups = vec![up("http://a", 1), up("http://b", 3), up("http://c", 0)];
    let mut lb = LoadBalancer::from_upstreams(&ups, LoadBalancingAlgorithm::WeightedRoundRobin);
    let picks: Vec<usize> = (0..10).map(|_| lb.select().unwrap()).collect();
    assert_eq!(picks, vec![0, 1, 1, 1, 2, 0, 1, 1, 1, 2]);
    let heavy = vec![up("http://a", u32::MAX), up("http://b", u32::MAX)];
    let mut lb = LoadBalancer::from_upstreams(&heavy, LoadBalancingAlgorithm::WeightedRoundRobin);
    assert_eq!(lb.select(), Some(0));
    assert_eq!(lb.select_excluding(&["http://a"]), Some(1));
}

#[test]
fn least_connections_takes_the_first_smallest() {
    let mut lb = LoadBalancer::from_upstreams(&pool(3), LoadBalancingAlgorithm::LeastConnections);
    assert_eq!(lb.select(), Some(0));
    open(&mut lb, 0, 2);
    open(&mut lb, 2, 1);
    assert_eq!(lb.select(), Some(1));
    open(&mut lb, 1, 1);
    assert_eq!(lb.select(), Some(1));
    assert_eq!(lb.select_excluding(&["http://h1"]), Some(2));
}

#[test]
fn least_conn_select() {
    let mut a = UpstreamRuntime::new(&up("http://a", 1));
    let b = UpstreamRuntime::new(&up("http://b", 1));
    a.inc_connections();
    assert_eq!(least_conn::select(&[&a, &b]), Some(1));
    assert_eq!(least_conn::select(&[&a]), Some(0));
    assert_eq!(least_conn::select(&[]), None);
}

#[test]
fn two_choices() {
    let mut lb = LoadBalancer::from_upstreams(&pool(4), LoadBalancingAlgorithm::PowerOfTwoChoices);
    assert_eq!(lb.select(), Some(0));
    assert_eq!(lb.select(), Some(2));
    open(&mut lb, 0, 1);
    assert_eq!(lb.select(), Some(1));
    assert_eq!(
        lb.select_excluding(&["http://h0", "http://h1", "http://h2"]),
        Some(3)
    );
    assert_eq!(lb.select(), Some(2));
}

#[test]
fn sticky() {
    let mut lb = LoadBalancer::from_upstreams(&pool(3), LoadBalancingAlgorithm::RoundRobin);
    assert_eq!(lb.select_sticky(Some("http://h2")), Some(2));
    assert_eq!(lb.select_sticky(Some("http://h2")), Some(2));
    assert_eq!(lb.select_sticky(Some("http://other")), Some(0));
    assert_eq!(lb.select_sticky(None), Some(1));
    lb.upstream_mut(2).set_healthy(false);
    assert_eq!(lb.select_sticky(Some("http://h2")), Some(0));
}

#[test]
fn connections_count_back() {
    let mut u = UpstreamRuntime::new(&up("http://a", 7));
    assert_eq!(u.weight, 7);
    u.inc_connections();
    u.inc_connections();
    u.dec_connections();
    assert_eq!(u.connections(), 1);
    u.dec_connections();
    u.dec_connections();
    assert_eq!(u.connections(), usize::MAX);
    u.inc_connections();
    assert_eq!(u.connections(), 0);
}
