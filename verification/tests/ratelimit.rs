use oxigate::addr::{IpAddr, Ipv4Addr, Ipv6Addr};
use oxigate::ratelimit::{is_busy, RateLimitConfig, RateLimiter};
use oxigate::span::Span;
use std::time::Duration;

fn tolerance(cfg: &RateLimitConfig) -> Span {
    let emission = Duration::from_nanos(cfg.emission().nanos as u64);
    let requests = cfg.rate as f64 * f64::from_bits(cfg.burst_bits);
    Span { nanos: emission.mul_f64((requests - 1.0).max(0.0)).as_nanos() }
}

fn limiter(cfg: RateLimitConfig) -> RateLimiter {
    RateLimiter::new(cfg, tolerance(&cfg))
}

const SEC: u128 = 1_000_000_000;

#[test]
fn allows_under_limit() {
    let mut rl = limiter(RateLimitConfig::from_rps(10, 1.0f64.to_bits()));
    let ip = IpAddr::V4(Ipv4Addr::new(1, 1, 1, 1));
    for _ in 0..10 {
        assert!(rl.check(ip));
    }
}

#[test]
fn rejects_over_burst() {
    let mut rl = limiter(RateLimitConfig {
        rate: 2,
        window: Span::from_secs(1),
        burst_bits: 1.0f64.to_bits(),
    });
    let ip = IpAddr::V4(Ipv4Addr::new(2, 2, 2, 2));
    assert!(rl.check(ip));
    assert!(rl.check(ip));
    // third immediate should fail with burst=1
    assert!(!rl.check(ip));
    assert!(rl.rejects() >= 1);
}

#[test]
fn rate_limiter_basic() {
    let mut rl = limiter(RateLimitConfig {
        rate: 5,
        window: Span::from_secs(1),
        burst_bits: 1.0f64.to_bits(),
    });
    let ip = IpAddr::V4(Ipv4Addr::new(127, 0, 0, 1));
    let mut ok = 0;
    for _ in 0..10 {
        if rl.check(ip) {
            ok += 1;
        }
    }
    assert!(ok <= 6);
    assert!(rl.rejects() > 0);
}

#[test]
fn configuration_is_clamped() {
    let c = RateLimitConfig::from_rps(0, 0.5f64.to_bits());
    assert_eq!(c.rate, 1);
    assert_eq!(c.window.nanos, SEC);
    assert_eq!(f64::from_bits(c.burst_bits), 1.0);
    for (given, kept) in [(f64::NAN, 1.0), (-3.0, 1.0), (2.5, 2.5), (f64::INFINITY, f64::INFINITY)] {
        let c = RateLimitConfig::from_rps(7, given.to_bits());
        assert_eq!(c.rate, 7);
        assert_eq!(f64::from_bits(c.burst_bits), kept);
    }
    let c = RateLimitConfig { rate: 3, window: Span::from_secs(1), burst_bits: 0 };
    assert_eq!(c.emission().nanos, 333_333_333);
}

#[test]
fn a_burst_and_its_refill() {
    let cfg = RateLimitConfig::from_rps(10, 1.5f64.to_bits());
    let mut rl = limiter(cfg);
    let ip = IpAddr::V4(Ipv4Addr::new(9, 9, 9, 9));
    let passed = (0..40).filter(|_| rl.check_at(ip, 5 * SEC)).count();
    assert_eq!(passed, 15);
    assert_eq!(rl.allows(), 15);
    assert_eq!(rl.rejects(), 25);
    assert!(!rl.check_at(ip, 5 * SEC + SEC / 10 - 1));
    assert!(rl.check_at(ip, 5 * SEC + SEC / 10));
    assert!(!rl.check_at(ip, 5 * SEC + SEC / 10));
    let passed = (0..40).filter(|_| rl.check_at(ip, 60 * SEC)).count();
    assert_eq!(passed, 15);
}

#[test]
fn a_burst_of_as_many_requests_as_the_tolerance_covers() {
    let cfg = RateLimitConfig { rate: 4, window: Span::from_secs(1), burst_bits: 0 };
    let cost = cfg.emission().nanos;
    assert_eq!(cost, SEC / 4);
    for requests in 1u128..6 {
        let mut rl = RateLimiter::new(cfg, Span { nanos: (requests - 1) * cost });
        let ip = IpAddr::V4(Ipv4Addr::new(6, 6, 6, 6));
        let mut passed = 0u128;
        for _ in 0..10 {
            if rl.check_at(ip, 3 * SEC) {
                passed += 1;
            }
        }
        assert_eq!(passed, requests);
    }
}

#[test]
fn the_rate_holds_for_a_client_with_a_past() {
    let cfg = RateLimitConfig { rate: 10, window: Span::from_secs(1), burst_bits: 0 };
    let mut rl = RateLimiter::new(cfg, Span { nanos: SEC / 2 });
    let ip = IpAddr::V4(Ipv4Addr::new(8, 8, 8, 8));
    let other = IpAddr::V4(Ipv4Addr::new(9, 9, 9, 9));
    for _ in 0..20 {
        rl.check_at(ip, SEC);
    }
    let mut passed = 0u128;
    for i in 0..200u128 {
        rl.check_at(other, SEC + i * SEC / 100);
        if rl.check_at(ip, SEC + i * SEC / 100) {
            passed += 1;
        }
    }
    assert_eq!(passed, 19);
    assert!((passed - 1) * (SEC / 10) <= 199 * SEC / 100 + SEC / 2);
}

#[test]
fn clients_do_not_share_buckets() {
    let mut rl = limiter(RateLimitConfig::from_rps(1, 1.0f64.to_bits()));
    let four = IpAddr::V4(Ipv4Addr { bits: 1 });
    let six = IpAddr::V6(Ipv6Addr { bits: 1 });
    assert!(rl.check_at(four, 0));
    assert!(!rl.check_at(four, 0));
    assert!(rl.check_at(six, 0));
}

#[test]
fn cleanup_is_not_noticed() {
    let mut rl = limiter(RateLimitConfig::from_rps(1, 1.0f64.to_bits()));
    let a = IpAddr::V4(Ipv4Addr::new(1, 0, 0, 1));
    let b = IpAddr::V4(Ipv4Addr::new(1, 0, 0, 2));
    assert!(rl.check_at(a, 0));
    assert!(rl.check_at(b, 9 * SEC));
    rl.cleanup_at(Span::from_secs(2), 9 * SEC);
    assert!(!rl.check_at(b, 9 * SEC));
    assert!(rl.check_at(a, 9 * SEC));
    assert!(!rl.check_at(a, 9 * SEC));
    rl.cleanup(Span::from_secs(3600));
    assert!(!rl.check_at(a, 9 * SEC));
}

#[test]
fn a_cleaned_limiter_goes_on_like_another() {
    let cfg = RateLimitConfig { rate: 2, window: Span::from_secs(1), burst_bits: 0 };
    let mut kept = RateLimiter::new(cfg, Span { nanos: SEC });
    let mut cleaned = RateLimiter::new(cfg, Span { nanos: SEC });
    let ips: Vec<IpAddr> = (0..3u8).map(|n| IpAddr::V4(Ipv4Addr::new(3, 3, 3, n))).collect();
    for i in 0..12u128 {
        let ip = ips[i as usize % 3];
        assert_eq!(kept.check_at(ip, i * SEC / 3), cleaned.check_at(ip, i * SEC / 3));
    }
    assert!(kept.check_at(ips[1], 8 * SEC) && cleaned.check_at(ips[1], 8 * SEC));
    cleaned.cleanup_at(Span::from_secs(1), 9 * SEC);
    for i in 0..60u128 {
        let ip = ips[i as usize % 3];
        let now = 9 * SEC + i * SEC / 20;
        assert_eq!(kept.check_at(ip, now), cleaned.check_at(ip, now));
    }
}

#[test]
fn spaced_checks_pass_whoever_else_is_checked() {
    let cfg = RateLimitConfig { rate: 4, window: Span::from_secs(1), burst_bits: 0 };
    let mut rl = RateLimiter::new(cfg, Span { nanos: 0 });
    let ip = IpAddr::V4(Ipv4Addr::new(4, 4, 4, 4));
    let other = IpAddr::V4(Ipv4Addr::new(4, 4, 4, 5));
    for i in 0..50u128 {
        for _ in 0..3 {
            rl.check_at(other, i * SEC / 4);
        }
        assert!(rl.check_at(ip, i * SEC / 4));
    }
    assert!(rl.rejects() > 0);
}

#[test]
fn refused_and_foreign_checks_change_nothing() {
    let cfg = RateLimitConfig { rate: 1, window: Span::from_secs(1), burst_bits: 0 };
    let ip = IpAddr::V4(Ipv4Addr::new(5, 5, 5, 5));
    let other = IpAddr::V4(Ipv4Addr::new(5, 5, 5, 6));
    let mut busy = RateLimiter::new(cfg, Span { nanos: SEC });
    let mut calm = RateLimiter::new(cfg, Span { nanos: SEC });
    assert!(busy.check_at(ip, 0) && busy.check_at(ip, 0));
    assert!(calm.check_at(ip, 0) && calm.check_at(ip, 0));
    for _ in 0..5 {
        assert!(!busy.check_at(ip, SEC / 2));
        busy.check_at(other, SEC / 2);
    }
    for now in [SEC, SEC + 1, 2 * SEC, 5 * SEC] {
        assert_eq!(busy.check_at(ip, now), calm.check_at(ip, now));
    }
}

#[test]
fn busy_buckets() {
    assert!(is_busy(10, 5, 1));
    assert!(is_busy(10, 12, 3));
    assert!(!is_busy(10, 13, 3));
}
