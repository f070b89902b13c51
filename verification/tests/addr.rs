use oxigate::addr::{parse_ip, parse_ipv4, IpAddr, Ipv4Addr, Ipv6Addr};
use oxigate::text::chars;

fn v6(g: [u16; 8]) -> Option<IpAddr> {
    Some(IpAddr::V6(Ipv6Addr::from_groups(&g)))
}

#[test]
fn ipv4_text() {
    assert_eq!(parse_ipv4(&chars("127.0.0.1")), Some(Ipv4Addr::new(127, 0, 0, 1)));
    assert_eq!(parse_ipv4(&chars("255.255.255.255")).unwrap().bits, u32::MAX);
    for bad in ["", "1.2.3", "1.2.3.4.5", "256.1.1.1", "01.2.3.4", "1..2.3", "1.2.3.4 ", "a.b.c.d"] {
        assert_eq!(parse_ipv4(&chars(bad)), None, "{bad}");
    }
}

#[test]
fn ipv6_text() {
    assert_eq!(parse_ip(&chars("::")), v6([0; 8]));
    assert_eq!(parse_ip(&chars("::1")), v6([0, 0, 0, 0, 0, 0, 0, 1]));
    assert_eq!(parse_ip(&chars("fe80::")), v6([0xfe80, 0, 0, 0, 0, 0, 0, 0]));
    assert_eq!(parse_ip(&chars("1:2:3:4:5:6:7:8")), v6([1, 2, 3, 4, 5, 6, 7, 8]));
    assert_eq!(parse_ip(&chars("2001:DB8::a:b")), v6([0x2001, 0xdb8, 0, 0, 0, 0, 0xa, 0xb]));
    assert_eq!(parse_ip(&chars("::1.2.3.4")), v6([0, 0, 0, 0, 0, 0, 0x0102, 0x0304]));
    for bad in [":", ":::", "1:2:3:4:5:6:7", "1:2:3:4:5:6:7:8:9", "1::2::3", "12345::", "::g"] {
        assert_eq!(parse_ip(&chars(bad)), None, "{bad}");
    }
}

#[test]
fn families() {
    assert!(parse_ip(&chars("10.0.0.1")).unwrap().is_ipv4());
    assert!(!parse_ip(&chars("::1")).unwrap().is_ipv4());
}
