use http::{HeaderMap, HeaderName, HeaderValue};
use oxigate::config::StickyConfig;
use oxigate::proxy::forward::{
    build_target_uri, copy_headers, extract_cookie, extract_host, find_cookie, finish_response,
    forward_headers, is_hop_by_hop, is_hop_by_hop_except_upgrade, is_upgrade_request,
    sticky_cookie, target_text, HeaderError,
};

fn map(fields: &[(&str, &str)]) -> HeaderMap {
    let mut m = HeaderMap::new();
    for (n, v) in fields {
        m.append(
            HeaderName::from_bytes(n.as_bytes()).unwrap(),
            HeaderValue::from_str(v).unwrap(),
        );
    }
    m
}

fn values(m: &HeaderMap, name: &str) -> Vec<String> {
    m.get_all(name).iter().map(|v| String::from_utf8(v.as_bytes().to_vec()).unwrap()).collect()
}

fn pairs(list: &[(&str, &str)]) -> Vec<(String, String)> {
    list.iter().map(|(a, b)| (a.to_string(), b.to_string())).collect()
}

#[test]
fn targets() {
    assert_eq!(target_text("http://a:1//", "/x", None), "http://a:1/x");
    assert_eq!(target_text("http://a:1", "", Some("q=1")), "http://a:1/?q=1");
    assert_eq!(target_text("http://a/base/", "/x", Some("")), "http://a/base/x?");
    assert_eq!(
        build_target_uri("http://a:1/", "/x", Some("y")).unwrap(),
        "http://a:1/x?y"
    );
    assert!(build_target_uri("http://a b", "/x", None).is_none());
    assert!(build_target_uri("", "", None).is_some());
}

#[test]
fn hosts() {
    assert_eq!(extract_host("http://a:1/x/y").unwrap(), "a:1");
    assert_eq!(extract_host("https://a").unwrap(), "a");
    assert_eq!(extract_host("http:///x").unwrap(), "");
    assert!(extract_host("ftp://a").is_none());
    assert!(extract_host("HTTP://a").is_none());
}

#[test]
fn hop_by_hop_names() {
    for n in ["connection", "keep-alive", "proxy-authenticate", "proxy-authorization", "te",
              "trailers", "transfer-encoding", "upgrade"] {
        assert!(is_hop_by_hop(n));
        assert_eq!(is_hop_by_hop_except_upgrade(n), n != "connection" && n != "upgrade");
    }
    assert!(!is_hop_by_hop("host"));
    assert!(!is_hop_by_hop("trailer"));
}

#[test]
fn copies_what_is_passed_on() {
    let m = map(&[
        ("Host", "x"),
        ("Accept", "a"),
        ("Accept", "b"),
        ("Connection", "upgrade"),
        ("Upgrade", "websocket"),
        ("TE", "trailers"),
    ]);
    let out = copy_headers(&m, true, false).unwrap();
    assert_eq!(out.keys_len(), 1);
    assert_eq!(values(&out, "accept"), vec!["a", "b"]);
    let out = copy_headers(&m, false, true).unwrap();
    assert_eq!(out.keys_len(), 4);
    assert_eq!(values(&out, "upgrade"), vec!["websocket"]);
    assert!(!out.contains_key("te"));
}

#[test]
fn names_of_other_peers_are_passed_on() {
    let mut m = map(&[("accept", "a")]);
    let quoted = HeaderName::from_lowercase(b"x\"y").unwrap();
    m.append(quoted.clone(), HeaderValue::from_static("1"));
    m.append(quoted.clone(), HeaderValue::from_static("2"));
    let out = copy_headers(&m, false, false).unwrap();
    let got: Vec<&[u8]> = out.get_all(&quoted).iter().map(|v| v.as_bytes()).collect();
    assert_eq!(got, vec![b"1", b"2"]);
    assert_eq!(out.keys_len(), 2);
    let sent = forward_headers(&m, "http://a", "1.2.3.4", false, &vec![], false).unwrap();
    assert_eq!(sent[&quoted], "1");
}

#[test]
fn sensitive_values_stay_marked() {
    let mut m = HeaderMap::new();
    let mut v = HeaderValue::from_static("secret");
    v.set_sensitive(true);
    m.insert("authorization", v);
    let out = copy_headers(&m, true, false).unwrap();
    assert_eq!(out["authorization"], "secret");
    assert!(out["authorization"].is_sensitive());
}

#[test]
fn an_upgrade_gets_the_configured_headers() {
    let sticky = Some(StickyConfig { cookie_name: "S".into(), max_age_secs: 60 });
    let mut m = map(&[("upgrade", "websocket"), ("x-a", "old")]);
    let set = pairs(&[("X-A", "1")]);
    assert!(finish_response(&mut m, true, &sticky, "http://a", true, &set));
    assert_eq!(values(&m, "x-a"), vec!["1"]);
    assert_eq!(values(&m, "upgrade"), vec!["websocket"]);
    assert_eq!(m.keys_len(), 2);
}

#[test]
fn forwards_with_the_client() {
    let m = map(&[
        ("host", "front"),
        ("x-forwarded-for", "6.6.6.6"),
        ("keep-alive", "1"),
        ("cookie", "a=b"),
    ]);
    let out = forward_headers(
        &m,
        "http://back:81/x",
        "1.2.3.4",
        true,
        &pairs(&[("X-Team", "red"), ("x-team", "blue")]),
        false,
    )
    .unwrap();
    assert_eq!(values(&out, "host"), vec!["back:81"]);
    assert_eq!(values(&out, "x-real-ip"), vec!["1.2.3.4"]);
    assert_eq!(values(&out, "x-forwarded-for"), vec!["6.6.6.6", "1.2.3.4"]);
    assert_eq!(values(&out, "x-forwarded-proto"), vec!["https"]);
    assert_eq!(values(&out, "x-team"), vec!["red", "blue"]);
    assert_eq!(values(&out, "cookie"), vec!["a=b"]);
    assert!(!out.contains_key("keep-alive"));
    let out = forward_headers(&m, "other", "::1", false, &vec![], false).unwrap();
    assert_eq!(values(&out, "x-forwarded-proto"), vec!["http"]);
    assert!(!out.contains_key("host"));
}

#[test]
fn refuses_headers_that_cannot_be_sent() {
    let m = HeaderMap::new();
    for (n, v) in [("bad name", "v"), ("", "v"), ("n", "a\nb"), ("n", "\u{7f}")] {
        let r = forward_headers(&m, "http://a", "1.2.3.4", false, &pairs(&[(n, v)]), false);
        assert!(matches!(r, Err(HeaderError::Refused)));
    }
    let r = forward_headers(&m, "http://a", "1.2\r\n", false, &vec![], false);
    assert!(matches!(r, Err(HeaderError::Refused)));
    let ok = forward_headers(&m, "http://a\u{1}b", "1.2.3.4", false, &pairs(&[("n", "ž\t")]), false);
    let ok = ok.unwrap();
    assert!(!ok.contains_key("host"));
    assert_eq!(ok["n"].as_bytes(), "ž\t".as_bytes());
}

#[test]
fn too_many_names() {
    let list: Vec<(String, String)> = (0..40_000).map(|i| (format!("n{i}"), "v".into())).collect();
    let m = HeaderMap::new();
    let r = forward_headers(&m, "http://a", "1.2.3.4", false, &list, false);
    assert!(matches!(r, Err(HeaderError::Full)));
    let mut h = HeaderMap::new();
    assert!(!finish_response(&mut h, false, &None, "http://a", false, &list));
    let fitting: Vec<(String, String)> = list[..6000].to_vec();
    assert!(forward_headers(&m, "http://a", "1.2.3.4", false, &fitting, false).is_ok());
}

#[test]
fn finishes_a_response() {
    let sticky = Some(StickyConfig { cookie_name: "S".into(), max_age_secs: 60 });
    let mut m = map(&[("set-cookie", "x=1"), ("server", "up"), ("x-frame-options", "DENY")]);
    let set = pairs(&[("Server", "OxiGate"), ("bad name", "v"), ("x-new", "1")]);
    assert!(finish_response(&mut m, false, &sticky, "http://a", true, &set));
    assert_eq!(
        values(&m, "set-cookie"),
        vec!["x=1", "S=http://a; Path=/; Max-Age=60; HttpOnly; SameSite=Lax"]
    );
    assert_eq!(values(&m, "server"), vec!["OxiGate"]);
    assert_eq!(values(&m, "x-new"), vec!["1"]);
    assert_eq!(values(&m, "x-frame-options"), vec!["DENY"]);
    assert_eq!(values(&m, "x-content-type-options"), vec!["nosniff"]);
    let mut plain = HeaderMap::new();
    assert!(finish_response(&mut plain, false, &None, "http://a", false, &vec![]));
    assert!(plain.is_empty());
}

#[test]
fn a_cookie_that_cannot_be_sent_is_left_out() {
    let sticky = Some(StickyConfig { cookie_name: "S\n".into(), max_age_secs: 60 });
    let mut m = HeaderMap::new();
    assert!(finish_response(&mut m, false, &sticky, "http://a", false, &vec![]));
    assert!(m.is_empty());
}

#[test]
fn upgrades() {
    assert!(is_upgrade_request(&map(&[("Upgrade", "h2c")])));
    assert!(is_upgrade_request(&map(&[("Connection", "keep-alive, UpGrade")])));
    assert!(!is_upgrade_request(&map(&[("Connection", "keep-alive")])));
    assert!(!is_upgrade_request(&map(&[("Connection", "close"), ("Connection", "upgrade")])));
    assert!(!is_upgrade_request(&map(&[("Connection", "upgradé")])));
    assert!(!is_upgrade_request(&HeaderMap::new()));
}

#[test]
fn cookies() {
    assert_eq!(find_cookie("a=1; b = 2 ;c=3", "b").unwrap(), "2");
    assert_eq!(find_cookie("a=1; a=2", "a").unwrap(), "1");
    assert_eq!(find_cookie("a=b=c", "a").unwrap(), "b=c");
    assert!(find_cookie("a; ab=1", "a").is_none());
    let m = map(&[("Cookie", "S=http://a:1"), ("Cookie", "T=2")]);
    assert_eq!(extract_cookie(&m, "S").unwrap(), "http://a:1");
    assert!(extract_cookie(&m, "T").is_none());
    assert!(extract_cookie(&map(&[("cookie", "S=ž")]), "S").is_none());
    assert!(extract_cookie(&HeaderMap::new(), "S").is_none());
}

#[test]
fn the_sticky_cookie_comes_back() {
    let s = StickyConfig::default();
    let set = sticky_cookie(&s, "http://127.0.0.1:8081");
    assert_eq!(
        set,
        "OXIGATE=http://127.0.0.1:8081; Path=/; Max-Age=3600; HttpOnly; SameSite=Lax"
    );
    let back = set.split(';').next().unwrap();
    assert_eq!(find_cookie(back, &s.cookie_name).unwrap(), "http://127.0.0.1:8081");
}
