use oxigate::addr::{parse_ip, IpAddr, Ipv4Addr, Ipv6Addr, SocketAddr};
use oxigate::proxy_protocol::{
    maybe_read_proxy_header, next_step, parse_v1_line, parse_v2, PrefixedStream, ProxyError, Step,
};
use oxigate::text::chars;

fn read_all(mut stream: PrefixedStream<Vec<u8>>) -> Vec<u8> {
    let mut out: Vec<u8> = Vec::new();
    while let Some(part) = stream.read_prefix(3) {
        out.extend_from_slice(&part);
    }
    out.extend_from_slice(&stream.into_inner());
    out
}

fn v4(a: u8, b: u8, c: u8, d: u8, port: u16) -> SocketAddr {
    SocketAddr::new(IpAddr::V4(Ipv4Addr::new(a, b, c, d)), port)
}

#[test]
fn v1_parse() {
    let data = b"PROXY TCP4 1.2.3.4 5.6.7.8 12345 80\r\nGET / HTTP/1.1\r\n";
    let (hdr, stream) = maybe_read_proxy_header(data.to_vec()).unwrap();
    let hdr = hdr.unwrap();
    assert_eq!(Some(hdr.src.ip), parse_ip(&chars("1.2.3.4")));
    assert_eq!(hdr.src.port, 12345);
    let rest = String::from_utf8(read_all(stream)).unwrap();
    assert!(rest.starts_with("GET /"));
}

#[test]
fn non_proxy_bytes_preserved() {
    let data = b"GET / HTTP/1.1\r\nHost: x\r\n\r\n";
    let (hdr, stream) = maybe_read_proxy_header(data.to_vec()).unwrap();
    assert!(hdr.is_none());
    assert_eq!(read_all(stream).as_slice(), data.as_slice());
}

#[test]
fn v1_destination_and_rest() {
    let data = b"PROXY TCP4 1.2.3.4 5.6.7.8 12345 80\r\nGET / HTTP/1.1\r\n";
    let (hdr, stream) = maybe_read_proxy_header(data.to_vec()).unwrap();
    assert_eq!(hdr.unwrap().dst, v4(5, 6, 7, 8, 80));
    assert_eq!(read_all(stream), b"GET / HTTP/1.1\r\n".to_vec());
}

#[test]
fn v1_ipv6() {
    let h = parse_v1_line("PROXY TCP6 2001:db8::1 ::ffff:1.2.3.4 1 65535").unwrap();
    assert_eq!(
        h.src.ip,
        IpAddr::V6(Ipv6Addr::from_groups(&[0x2001, 0xdb8, 0, 0, 0, 0, 0, 1]))
    );
    assert_eq!(
        h.dst.ip,
        IpAddr::V6(Ipv6Addr::from_groups(&[0, 0, 0, 0, 0, 0xffff, 0x0102, 0x0304]))
    );
    assert_eq!(h.dst.port, 65535);
}

#[test]
fn v1_unknown_is_unspecified() {
    let h = parse_v1_line("PROXY UNKNOWN anything at all").unwrap();
    assert_eq!(h.src, v4(0, 0, 0, 0, 0));
    assert_eq!(h.dst, v4(0, 0, 0, 0, 0));
}

#[test]
fn v1_line_errors() {
    assert_eq!(parse_v1_line("PROXY").unwrap_err(), ProxyError::Malformed);
    assert_eq!(parse_v1_line("PROXX TCP4").unwrap_err(), ProxyError::Malformed);
    assert_eq!(
        parse_v1_line("PROXY TCP4 1.2.3.4 5.6.7.8 1").unwrap_err(),
        ProxyError::Malformed
    );
    assert_eq!(
        parse_v1_line("PROXY TCP4 1.2.3 5.6.7.8 1 2").unwrap_err(),
        ProxyError::BadAddress
    );
    assert_eq!(
        parse_v1_line("PROXY TCP4 1.2.3.4 5.6.7.8 65536 2").unwrap_err(),
        ProxyError::BadPort
    );
}

#[test]
fn v1_stream_errors() {
    let cut = maybe_read_proxy_header(b"PROXY TCP4 1.2.3.4".to_vec());
    assert!(matches!(cut, Err(ProxyError::EofV1)));
    let mut long = b"PROXY ".to_vec();
    long.extend(std::iter::repeat(b'x').take(200));
    assert!(matches!(maybe_read_proxy_header(long), Err(ProxyError::TooLong)));
    let bad = maybe_read_proxy_header(b"PROXY \xff\xff 1 2 3 4\r\n".to_vec());
    assert!(matches!(bad, Err(ProxyError::InvalidUtf8)));
}

fn v2(command: u8, family: u8, block: &[u8]) -> Vec<u8> {
    let mut out = vec![
        0x0D, 0x0A, 0x0D, 0x0A, 0x00, 0x0D, 0x0A, 0x51, 0x55, 0x49, 0x54, 0x0A, command, family,
    ];
    out.push((block.len() / 256) as u8);
    out.push((block.len() % 256) as u8);
    out.extend_from_slice(block);
    out
}

#[test]
fn v2_ipv4() {
    let mut data = v2(0x21, 0x11, &[1, 2, 3, 4, 5, 6, 7, 8, 0x30, 0x39, 0, 80]);
    data.extend_from_slice(b"rest");
    let (hdr, stream) = maybe_read_proxy_header(data).unwrap();
    let h = hdr.unwrap();
    assert_eq!(h.src, v4(1, 2, 3, 4, 12345));
    assert_eq!(h.dst, v4(5, 6, 7, 8, 80));
    assert_eq!(read_all(stream), b"rest".to_vec());
}

#[test]
fn v2_ipv6() {
    let mut block = vec![0u8; 36];
    block[15] = 1;
    block[31] = 2;
    block[33] = 7;
    block[34] = 1;
    let h = parse_v2(0x21, 0x21, &block).unwrap();
    assert_eq!(h.src, SocketAddr::new(IpAddr::V6(Ipv6Addr { bits: 1 }), 7));
    assert_eq!(h.dst, SocketAddr::new(IpAddr::V6(Ipv6Addr { bits: 2 }), 256));
}

#[test]
fn v2_local_and_errors() {
    assert_eq!(parse_v2(0x20, 0x99, &[]).unwrap().src, v4(0, 0, 0, 0, 0));
    assert_eq!(parse_v2(0x21, 0x31, &[0; 40]).unwrap_err(), ProxyError::UnsupportedFamily(0x31));
    assert_eq!(parse_v2(0x21, 0x11, &[0; 11]).unwrap_err(), ProxyError::UnsupportedFamily(0x11));
    let mut cut = v2(0x21, 0x11, &[1; 12]);
    cut.truncate(20);
    assert!(matches!(maybe_read_proxy_header(cut), Err(ProxyError::EofV2)));
}

#[test]
fn short_streams_are_plain() {
    for data in [b"".to_vec(), b"GET".to_vec(), b"PROX".to_vec(), b"\r\n\r\n\x00\r\n".to_vec()] {
        let (hdr, stream) = maybe_read_proxy_header(data.clone()).unwrap();
        assert!(hdr.is_none());
        assert_eq!(read_all(stream), data);
    }
}

#[test]
fn steps_in_pieces_agree() {
    let data = b"PROXY TCP4 1.2.3.4 5.6.7.8 12345 80\r\nGET";
    let mut k = 0usize;
    let used = loop {
        match next_step(&data[..k], false) {
            Step::Read(n) => {
                assert!(n > 0);
                k += 1;
            }
            Step::Header { header, used } => {
                assert_eq!(header.src, v4(1, 2, 3, 4, 12345));
                break used;
            }
            _ => panic!("not a header"),
        }
    };
    assert_eq!(&data[used..], b"GET");
}

#[test]
fn prefixed_stream_hands_out_everything_once() {
    let mut s: PrefixedStream<u8> = PrefixedStream::new(9, vec![1, 2, 3]);
    assert_eq!(s.read_prefix(2), Some(vec![1, 2]));
    assert_eq!(s.read_prefix(2), Some(vec![3]));
    assert_eq!(s.read_prefix(2), None);
    *s.inner_mut() = 10;
    assert_eq!(s.into_inner(), 10);
}
