use http::{HeaderMap, HeaderValue};
use oxigate::addr::{parse_ip, IpAddr, Ipv4Addr};
use oxigate::security::{apply_security_headers, parse_cidr, Acl, CidrError};
use oxigate::text::chars;

fn ip(s: &str) -> IpAddr {
    parse_ip(&chars(s)).unwrap()
}

#[test]
fn acl_deny_wins() {
    let acl = Acl::from_config(&["0.0.0.0/0".into()], &["10.0.0.0/8".into()]).unwrap();
    assert!(!acl.is_allowed(IpAddr::V4(Ipv4Addr::new(10, 1, 2, 3))));
    assert!(acl.is_allowed(IpAddr::V4(Ipv4Addr::new(1, 2, 3, 4))));
}

#[test]
fn acl_allow_list() {
    let acl = Acl::from_config(&["192.168.0.0/16".into()], &[]).unwrap();
    assert!(acl.is_allowed(IpAddr::V4(Ipv4Addr::new(192, 168, 1, 1))));
    assert!(!acl.is_allowed(IpAddr::V4(Ipv4Addr::new(1, 1, 1, 1))));
}

#[test]
fn acl_blocks_denied_cidr() {
    let acl = Acl::from_config(&[], &["10.0.0.0/8".into()]).unwrap();
    assert!(!acl.is_allowed(IpAddr::V4(Ipv4Addr::new(10, 1, 1, 1))));
    assert!(acl.is_allowed(IpAddr::V4(Ipv4Addr::new(11, 0, 0, 1))));
}

#[test]
fn networks() {
    let n = parse_cidr("10.20.0.0/14").unwrap();
    assert!(n.contains(ip("10.23.255.255")));
    assert!(!n.contains(ip("10.24.0.0")));
    assert!(!n.contains(ip("::1")));
    let one = parse_cidr("1.2.3.4").unwrap();
    assert_eq!(one.prefix, 32);
    assert!(one.contains(ip("1.2.3.4")));
    assert!(!one.contains(ip("1.2.3.5")));
    let wide = parse_cidr("1.2.3.4/200").unwrap();
    assert!(wide.contains(ip("1.2.3.4")) && !wide.contains(ip("1.2.3.5")));
    let six = parse_cidr("2001:db8::/33").unwrap();
    assert!(six.contains(ip("2001:db8:7fff::1")));
    assert!(!six.contains(ip("2001:db8:8000::1")));
    assert!(parse_cidr("::/0").unwrap().contains(ip("fe80::1")));
    assert!(!parse_cidr("::/0").unwrap().contains(ip("1.2.3.4")));
    assert_eq!(parse_cidr("::1").unwrap().prefix, 128);
}

#[test]
fn network_errors() {
    assert_eq!(parse_cidr("1.2.3/8"), Err(CidrError::Address));
    assert_eq!(parse_cidr("host"), Err(CidrError::Address));
    assert_eq!(parse_cidr("1.2.3.4/256"), Err(CidrError::Prefix));
    assert_eq!(parse_cidr("1.2.3.4/"), Err(CidrError::Prefix));
    assert_eq!(parse_cidr("1.2.3.4/8/8"), Err(CidrError::Prefix));
    let r = Acl::from_config(&["1.2.3.4/x".into()], &["y".into()]);
    assert!(matches!(r, Err(CidrError::Prefix)));
    let r = Acl::from_config(&["1.2.3.4".into()], &["y".into()]);
    assert!(matches!(r, Err(CidrError::Address)));
}

#[test]
fn empty_lists_allow_all() {
    let acl = Acl::default();
    assert!(acl.is_allowed(ip("8.8.8.8")));
    assert!(acl.is_allowed(ip("::1")));
}

#[test]
fn security_headers_fill_gaps() {
    let mut h = HeaderMap::new();
    h.insert("x-frame-options", HeaderValue::from_static("DENY"));
    assert!(apply_security_headers(&mut h));
    assert_eq!(h.len(), 5);
    assert_eq!(h["x-content-type-options"], "nosniff");
    assert_eq!(h["x-frame-options"], "DENY");
    assert_eq!(h["referrer-policy"], "strict-origin-when-cross-origin");
    assert_eq!(h["x-xss-protection"], "0");
    assert_eq!(h["permissions-policy"], "geolocation=(), microphone=(), camera=()");
    let before = h.clone();
    assert!(apply_security_headers(&mut h));
    assert_eq!(h, before);
}
