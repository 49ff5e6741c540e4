use http::header::HeaderName;
use http::{Extensions, HeaderMap, HeaderValue};
use real_ip::headers::{header_rule, HEADER_COUNT};
use real_ip::resolve::REJECTION_STATUS;
use real_ip::{
    get_ip_from_parts, parse_ip, IpAddr, IpAddrRejection, RealIp, RealIpLayer, RealIpPrivacyMask,
};

const NAMES: [&str; 10] = [
    "cf-connecting-ip",
    "x-cluster-client-ip",
    "fly-client-ip",
    "fastly-client-ip",
    "cloudfront-viewer-address",
    "x-real-ip",
    "x-forwarded-for",
    "x-original-forwarded-for",
    "true-client-ip",
    "client-ip",
];

fn v4(a: u8, b: u8, c: u8, d: u8) -> IpAddr {
    IpAddr::v4(a, b, c, d)
}

fn v6(g: [u16; 8]) -> IpAddr {
    IpAddr::v6(g)
}

fn headers(pairs: &[(&'static str, &'static str)]) -> HeaderMap {
    let mut map = HeaderMap::new();
    for (name, value) in pairs {
        map.insert(HeaderName::from_static(name), HeaderValue::from_static(value));
    }
    map
}

#[test]
fn bare_ipv4_under_every_header() {
    for name in NAMES {
        let map = headers(&[(name, "192.0.2.17")]);
        assert_eq!(get_ip_from_parts(&map, None), Some(RealIp(v4(192, 0, 2, 17))));
    }
}

#[test]
fn bare_ipv6_under_every_header() {
    for name in NAMES {
        let map = headers(&[(name, "2001:db8::8a2e:370:7334")]);
        assert_eq!(
            get_ip_from_parts(&map, None),
            Some(RealIp(v6([0x2001, 0xdb8, 0, 0, 0, 0x8a2e, 0x370, 0x7334])))
        );
    }
}

#[test]
fn higher_priority_header_wins() {
    let map = headers(&[("x-real-ip", "5.6.7.8"), ("cf-connecting-ip", "1.2.3.4")]);
    assert_eq!(get_ip_from_parts(&map, None), Some(RealIp(v4(1, 2, 3, 4))));
}

#[test]
fn every_header_yields_to_those_before_it() {
    for hi in 0..NAMES.len() {
        for lo in (hi + 1)..NAMES.len() {
            let map = headers(&[(NAMES[lo], "10.0.0.2"), (NAMES[hi], "10.0.0.1")]);
            assert_eq!(get_ip_from_parts(&map, None), Some(RealIp(v4(10, 0, 0, 1))));
        }
    }
}

#[test]
fn header_names_match_in_any_case() {
    let mut map = HeaderMap::new();
    map.insert(
        HeaderName::from_bytes(b"X-Real-IP").unwrap(),
        HeaderValue::from_static("198.51.100.7"),
    );
    assert_eq!(get_ip_from_parts(&map, None), Some(RealIp(v4(198, 51, 100, 7))));
}

#[test]
fn first_of_several_values_is_used() {
    let mut map = HeaderMap::new();
    map.append(HeaderName::from_static("x-real-ip"), HeaderValue::from_static("1.1.1.1"));
    map.append(HeaderName::from_static("x-real-ip"), HeaderValue::from_static("2.2.2.2"));
    assert_eq!(get_ip_from_parts(&map, None), Some(RealIp(v4(1, 1, 1, 1))));
}

#[test]
fn unknown_headers_are_not_consulted() {
    let map = headers(&[("forwarded", "1.2.3.4"), ("x-client-ip", "1.2.3.4")]);
    assert_eq!(get_ip_from_parts(&map, None), None);
}

#[test]
fn first_entry_of_a_hop_list() {
    let map = headers(&[("x-forwarded-for", "9.9.9.9, 10.0.0.1")]);
    assert_eq!(get_ip_from_parts(&map, None), Some(RealIp(v4(9, 9, 9, 9))));
}

#[test]
fn only_the_first_entry_counts() {
    let map = headers(&[("x-forwarded-for", "unknown, 10.0.0.1")]);
    assert_eq!(get_ip_from_parts(&map, None), None);
    let map = headers(&[("x-forwarded-for", ", 10.0.0.1")]);
    assert_eq!(get_ip_from_parts(&map, None), None);
    let map = headers(&[("x-forwarded-for", "10.0.0.1,")]);
    assert_eq!(get_ip_from_parts(&map, None), Some(RealIp(v4(10, 0, 0, 1))));
}

#[test]
fn port_is_discarded_where_permitted() {
    let map = headers(&[("cloudfront-viewer-address", "203.0.113.5:443")]);
    assert_eq!(get_ip_from_parts(&map, None), Some(RealIp(v4(203, 0, 113, 5))));
}

#[test]
fn port_is_refused_where_not_permitted() {
    let map = headers(&[("x-real-ip", "203.0.113.5:443")]);
    assert_eq!(get_ip_from_parts(&map, None), None);
    assert_eq!(get_ip_from_parts(&map, Some(v4(127, 0, 0, 1))), Some(RealIp(v4(127, 0, 0, 1))));
    let map = headers(&[("x-real-ip", "203.0.113.5:443"), ("client-ip", "8.8.4.4")]);
    assert_eq!(get_ip_from_parts(&map, None), Some(RealIp(v4(8, 8, 4, 4))));
}

#[test]
fn malformed_header_does_not_block() {
    let map = headers(&[("cf-connecting-ip", "not-an-ip"), ("x-real-ip", "198.51.100.7")]);
    assert_eq!(get_ip_from_parts(&map, None), Some(RealIp(v4(198, 51, 100, 7))));
}

#[test]
fn empty_header_counts_as_absent() {
    let map = headers(&[("cf-connecting-ip", ""), ("fly-client-ip", "   "), ("client-ip", "7.7.7.7")]);
    assert_eq!(get_ip_from_parts(&map, None), Some(RealIp(v4(7, 7, 7, 7))));
}

#[test]
fn nothing_to_resolve_from() {
    let map = HeaderMap::new();
    let ext = Extensions::new();
    assert_eq!(get_ip_from_parts(&map, None), None);
    assert_eq!(RealIp::from_request_parts(&ext, &map, None), Err(IpAddrRejection));
    assert_eq!(RealIpPrivacyMask::from_request_parts(&ext, &map, None), Err(IpAddrRejection));
    assert_eq!(REJECTION_STATUS, 400);
}

#[test]
fn peer_is_the_fallback() {
    let map = HeaderMap::new();
    let ext = Extensions::new();
    let peer = v4(172, 16, 0, 9);
    assert_eq!(get_ip_from_parts(&map, Some(peer)), Some(RealIp(peer)));
    assert_eq!(RealIp::from_request_parts(&ext, &map, Some(peer)), Ok(RealIp(peer)));
    let peer6 = v6([0x2001, 0xdb8, 1, 2, 3, 4, 5, 6]);
    assert_eq!(get_ip_from_parts(&map, Some(peer6)), Some(RealIp(peer6)));
    assert_eq!(
        RealIpPrivacyMask::from_request_parts(&ext, &map, Some(peer6)),
        Ok(RealIpPrivacyMask(RealIp(v6([0x2001, 0xdb8, 1, 2, 0, 0, 0, 0]))))
    );
}

#[test]
fn header_is_preferred_to_peer() {
    let map = headers(&[("client-ip", "7.7.7.7")]);
    assert_eq!(get_ip_from_parts(&map, Some(v4(127, 0, 0, 1))), Some(RealIp(v4(7, 7, 7, 7))));
}

#[test]
fn mask_clears_the_last_64_bits() {
    let ip = RealIp(v6([0x2001, 0xdb8, 0xabcd, 0x1234, 0x5678, 0x9abc, 0xdef0, 0x1111]));
    let once = RealIpPrivacyMask::from(ip);
    assert_eq!(once, RealIpPrivacyMask(RealIp(v6([0x2001, 0xdb8, 0xabcd, 0x1234, 0, 0, 0, 0]))));
    assert_eq!(once.0 .0, IpAddr::V6(0x2001_0db8_abcd_1234_0000_0000_0000_0000));
    let twice = RealIpPrivacyMask::from(once.real_ip());
    assert_eq!(twice, once);
    assert_eq!(ip.ip().mask(), once.real_ip().ip());
}

#[test]
fn mask_keeps_ipv4() {
    let ip = RealIp(v4(203, 0, 113, 5));
    assert_eq!(RealIpPrivacyMask::from(ip), RealIpPrivacyMask(ip));
    assert_eq!(RealIpPrivacyMask::from(RealIp(IpAddr::V4(u32::MAX))).0 .0, IpAddr::V4(u32::MAX));
    assert!(ip.ip().is_ipv4());
    assert!(!ip.ip().is_ipv6());
    assert!(ip.is_ipv4());
    assert_eq!(*ip, IpAddr::V4(0xcb00_7105));
    assert_eq!(*RealIpPrivacyMask(ip), ip);
}

#[test]
fn extraction_without_a_cache_resolves() {
    let ext = Extensions::new();
    let map = headers(&[("x-real-ip", "10.10.10.10"), ("cf-connecting-ip", "1.2.3.4")]);
    assert_eq!(RealIp::from_request_parts(&ext, &map, None), Ok(RealIp(v4(1, 2, 3, 4))));
    assert_eq!(ext.get::<RealIp>(), None);
}

#[test]
fn cache_takes_precedence() {
    let layer = RealIpLayer;
    let service = layer.layer(());
    let mut ext = Extensions::new();
    let map = headers(&[("x-real-ip", "198.51.100.7")]);
    service.annotate(&mut ext, &map, None);
    assert_eq!(ext.get::<RealIp>(), Some(&RealIp(v4(198, 51, 100, 7))));
    let changed = headers(&[("x-real-ip", "10.10.10.10"), ("cf-connecting-ip", "1.2.3.4")]);
    assert_eq!(
        RealIp::from_request_parts(&ext, &changed, Some(v4(127, 0, 0, 1))),
        Ok(RealIp(v4(198, 51, 100, 7)))
    );
    assert_eq!(
        RealIp::from_request_parts(&ext, &HeaderMap::new(), None),
        Ok(RealIp(v4(198, 51, 100, 7)))
    );
}

#[test]
fn cache_holds_the_unmasked_address() {
    let service = RealIpLayer.layer(7u8);
    let mut ext = Extensions::new();
    let map = headers(&[("x-real-ip", "2001:db8:abcd:1234:5678:9abc:def0:1111")]);
    service.annotate(&mut ext, &map, None);
    assert_eq!(
        ext.get::<RealIp>(),
        Some(&RealIp(v6([0x2001, 0xdb8, 0xabcd, 0x1234, 0x5678, 0x9abc, 0xdef0, 0x1111])))
    );
    assert_eq!(
        RealIpPrivacyMask::from_request_parts(&ext, &HeaderMap::new(), None),
        Ok(RealIpPrivacyMask(RealIp(v6([0x2001, 0xdb8, 0xabcd, 0x1234, 0, 0, 0, 0]))))
    );
    assert_eq!(service.into_inner(), 7u8);
}

#[test]
fn annotation_never_rejects() {
    let service = RealIpLayer.layer(());
    let mut ext = Extensions::new();
    ext.insert(5u8);
    let map = headers(&[("x-real-ip", "nonsense")]);
    service.annotate(&mut ext, &map, None);
    assert_eq!(ext.get::<RealIp>(), None);
    assert_eq!(ext.len(), 1);
    ext.insert(RealIp(v4(1, 1, 1, 1)));
    service.annotate(&mut ext, &map, None);
    assert_eq!(ext.get::<RealIp>(), Some(&RealIp(v4(1, 1, 1, 1))));
    service.annotate(&mut ext, &map, Some(v4(2, 2, 2, 2)));
    assert_eq!(ext.get::<RealIp>(), Some(&RealIp(v4(2, 2, 2, 2))));
    assert_eq!(ext.get::<u8>(), Some(&5u8));
    assert_eq!(ext.len(), 2);
}

#[test]
fn value_that_is_no_text_gives_nothing() {
    let value = HeaderValue::from_bytes(b"1.2.3.4\xa0").unwrap();
    assert_eq!(parse_ip(&value, false), None);
    let value = HeaderValue::from_bytes(b"\xc2\xa01.2.3.4").unwrap();
    assert_eq!(parse_ip(&value, true), None);
    let value = HeaderValue::from_bytes(b"\t 1.2.3.4 \t").unwrap();
    assert_eq!(parse_ip(&value, false), Some(v4(1, 2, 3, 4)));
}

#[test]
fn resolved_addresses_are_ordered_by_family_then_bits() {
    assert!(RealIp(v4(255, 255, 255, 255)) < RealIp(v6([0, 0, 0, 0, 0, 0, 0, 0])));
    assert!(RealIp(v4(1, 2, 3, 4)) < RealIp(v4(1, 2, 3, 5)));
    assert!(RealIp(v4(2, 0, 0, 0)) > RealIp(v4(1, 255, 255, 255)));
    assert!(RealIp(v6([1, 0, 0, 0, 0, 0, 0, 0])) > RealIp(v6([0, 0xffff, 0, 0, 0, 0, 0, 0])));
}

#[test]
fn precedence_table() {
    assert_eq!(HEADER_COUNT, 10);
    for (i, name) in NAMES.iter().enumerate() {
        let rule = header_rule(i);
        assert_eq!(rule.name, *name);
        assert_eq!(rule.allow_port, i == 4);
    }
    assert_eq!(header_rule(4).name, "cloudfront-viewer-address");
    assert_eq!(header_rule(6).name, "x-forwarded-for");
}

#[test]
fn port_is_permitted_under_one_header_only() {
    for name in NAMES {
        let map = headers(&[(name, "[2001:db8::5]:443")]);
        let expected = if name == "cloudfront-viewer-address" {
            Some(RealIp(v6([0x2001, 0xdb8, 0, 0, 0, 0, 0, 5])))
        } else {
            None
        };
        assert_eq!(get_ip_from_parts(&map, None), expected);
    }
}
