use real_ip::parse::{parse_ip_addr, parse_socket_ip, parse_text, read_groups, read_ipv4, read_ipv6};
use real_ip::text::{first_entry, read_number, trim};
use real_ip::IpAddr;

fn v4(a: u8, b: u8, c: u8, d: u8) -> IpAddr {
    IpAddr::v4(a, b, c, d)
}

fn v6(g: [u16; 8]) -> IpAddr {
    IpAddr::v6(g)
}

#[test]
fn trims_ascii_whitespace() {
    assert_eq!(trim(b"  a b \t"), b"a b");
    assert_eq!(trim(b"\r\n\x0b\x0cx\n"), b"x");
    assert_eq!(trim(b"   "), b"");
    assert_eq!(trim(b""), b"");
    assert_eq!(trim(b"abc"), b"abc");
}

#[test]
fn takes_the_first_list_entry() {
    assert_eq!(first_entry(b" 9.9.9.9 , 10.0.0.1 "), b"9.9.9.9");
    assert_eq!(first_entry(b"a,b,c"), b"a");
    assert_eq!(first_entry(b",b"), b"");
    assert_eq!(first_entry(b"  "), b"");
    assert_eq!(first_entry(b"one"), b"one");
}

#[test]
fn reads_numbers() {
    assert_eq!(read_number(b"255.", 0, false, Some(3), false, 255), Some((255, 3)));
    assert_eq!(read_number(b"256", 0, false, Some(3), false, 255), None);
    assert_eq!(read_number(b"0", 0, false, Some(3), false, 255), Some((0, 1)));
    assert_eq!(read_number(b"00", 0, false, Some(3), false, 255), None);
    assert_eq!(read_number(b"00", 0, false, None, true, 65535), Some((0, 2)));
    assert_eq!(read_number(b"x1f", 1, true, Some(4), true, 0xffff), Some((0x1f, 3)));
    assert_eq!(read_number(b"FfFf", 0, true, Some(4), true, 0xffff), Some((0xffff, 4)));
    assert_eq!(read_number(b"12345", 0, true, Some(4), true, 0xffff), None);
    assert_eq!(read_number(b"", 0, false, None, true, 65535), None);
    assert_eq!(read_number(b"a", 0, false, None, true, 65535), None);
    assert_eq!(read_number(b"65535", 0, false, None, true, 65535), Some((65535, 5)));
    assert_eq!(read_number(b"65536", 0, false, None, true, 65535), None);
    assert_eq!(read_number(b"99999999999999999999999", 0, false, None, true, 65535), None);
    assert_eq!(read_number(b"4294967295", 0, false, None, true, u32::MAX), Some((u32::MAX, 10)));
    assert_eq!(read_number(b"4294967296", 0, false, None, true, u32::MAX), None);
    assert_eq!(read_number(b"12", 2, false, None, true, 65535), None);
    assert_eq!(read_number(b"12", 7, false, None, true, 65535), None);
}

#[test]
fn reads_dotted_addresses() {
    assert_eq!(parse_ip_addr(b"1.2.3.4"), Some(v4(1, 2, 3, 4)));
    assert_eq!(parse_ip_addr(b"0.0.0.0"), Some(IpAddr::V4(0)));
    assert_eq!(parse_ip_addr(b"255.255.255.255"), Some(IpAddr::V4(u32::MAX)));
    assert_eq!(parse_ip_addr(b"203.0.113.5"), Some(IpAddr::V4(0xcb00_7105)));
    assert_eq!(read_ipv4(b"10.20.30.40:80", 0), Some((0x0a14_1e28, 11)));
}

#[test]
fn refuses_malformed_dotted_addresses() {
    for text in [
        "", "1", "1.2.3", "1.2.3.", "1.2.3.4.", "1.2.3.4.5", ".1.2.3", "1..2.3", "256.1.1.1",
        "1.2.3.256", "01.2.3.4", "1.2.3.04", "1.2.3.0004", "1.2.3.4 ", " 1.2.3.4", "1.2.3.a",
        "1,2,3,4", "0x1.2.3.4", "1.2.3.4/24", "+1.2.3.4", "-1.2.3.4", "1.2.3.4:80", "1111.2.3.4",
    ] {
        assert_eq!(parse_ip_addr(text.as_bytes()), None, "{}", text);
    }
}

#[test]
fn reads_colon_separated_addresses() {
    assert_eq!(parse_ip_addr(b"1:2:3:4:5:6:7:8"), Some(v6([1, 2, 3, 4, 5, 6, 7, 8])));
    assert_eq!(parse_ip_addr(b"::"), Some(IpAddr::V6(0)));
    assert_eq!(parse_ip_addr(b"::1"), Some(IpAddr::V6(1)));
    assert_eq!(parse_ip_addr(b"1::"), Some(v6([1, 0, 0, 0, 0, 0, 0, 0])));
    assert_eq!(parse_ip_addr(b"1::8"), Some(v6([1, 0, 0, 0, 0, 0, 0, 8])));
    assert_eq!(parse_ip_addr(b"1:2:3:4:5:6:7::"), Some(v6([1, 2, 3, 4, 5, 6, 7, 0])));
    assert_eq!(parse_ip_addr(b"::2:3:4:5:6:7:8"), Some(v6([0, 2, 3, 4, 5, 6, 7, 8])));
    assert_eq!(parse_ip_addr(b"1:2:3::6:7:8"), Some(v6([1, 2, 3, 0, 0, 6, 7, 8])));
    assert_eq!(
        parse_ip_addr(b"2001:db8:abcd:1234:5678:9abc:def0:1111"),
        Some(IpAddr::V6(0x2001_0db8_abcd_1234_5678_9abc_def0_1111))
    );
    assert_eq!(
        parse_ip_addr(b"2001:0DB8:0000:0000:0000:ff00:0042:8329"),
        Some(v6([0x2001, 0xdb8, 0, 0, 0, 0xff00, 0x42, 0x8329]))
    );
    assert_eq!(
        parse_ip_addr(b"ffff:ffff:ffff:ffff:ffff:ffff:ffff:ffff"),
        Some(IpAddr::V6(u128::MAX))
    );
    assert_eq!(read_ipv6(b"[fe80::1]", 1), Some((0xfe80_0000_0000_0000_0000_0000_0000_0001, 8)));
}

#[test]
fn reads_a_dotted_tail() {
    assert_eq!(parse_ip_addr(b"::ffff:1.2.3.4"), Some(v6([0, 0, 0, 0, 0, 0xffff, 0x0102, 0x0304])));
    assert_eq!(parse_ip_addr(b"::1.2.3.4"), Some(v6([0, 0, 0, 0, 0, 0, 0x0102, 0x0304])));
    assert_eq!(
        parse_ip_addr(b"1:2:3:4:5:6:192.168.0.1"),
        Some(v6([1, 2, 3, 4, 5, 6, 0xc0a8, 0x0001]))
    );
    assert_eq!(parse_ip_addr(b"64:ff9b::192.0.2.33"), Some(v6([0x64, 0xff9b, 0, 0, 0, 0, 0xc000, 0x0221])));
    assert_eq!(parse_ip_addr(b"1:2:3:4:5::1.2.3.4"), Some(v6([1, 2, 3, 4, 5, 0, 0x0102, 0x0304])));
}

#[test]
fn refuses_malformed_colon_separated_addresses() {
    for text in [
        ":", ":::", "1", "1:", ":1", "1:2:3:4:5:6:7", "1:2:3:4:5:6:7:", "1:2:3:4:5:6:7:8:9",
        "1:2:3:4:5:6:7:8::", "::1:2:3:4:5:6:7:8", "1::2::3", "1:::2", "12345::", "::12345",
        "g::", "::g", "1:2:3:4:5:6:7:1.2.3.4", "1.2.3.4::", "1.2.3.4:5:6:7:8:9:10", "::1.2.3",
        "1:2:3:4:5:6::1.2.3.4", "::1.2.3.4:5", "::1%3", "[::1]", "::01.2.3.4", ":: 1", "1:2:3:4:5:6:7:8 ",
        "fe80::1%eth0", "::ffff:256.0.0.1",
    ] {
        assert_eq!(parse_ip_addr(text.as_bytes()), None, "{}", text);
    }
}

#[test]
fn reads_runs_of_segments() {
    assert_eq!(read_groups(b"1:2:3", 0, 8), (vec![1, 2, 3], 5, false));
    assert_eq!(read_groups(b"1:2::3", 0, 8), (vec![1, 2], 3, false));
    assert_eq!(read_groups(b"1:2.3.4.5", 0, 8), (vec![1, 0x0203, 0x0405], 9, true));
    assert_eq!(read_groups(b"1:2", 0, 1), (vec![1], 1, false));
    assert_eq!(read_groups(b"", 0, 8), (vec![], 0, false));
    assert_eq!(read_groups(b"1", 0, 0), (vec![], 0, false));
    assert_eq!(read_groups(b"1", 3, 8), (vec![], 3, false));
    assert_eq!(read_ipv4(b"1.2.3.4", 9), None);
    assert_eq!(read_ipv6(b"::", 9), None);
}

#[test]
fn reads_addresses_with_a_port() {
    assert_eq!(parse_socket_ip(b"203.0.113.5:443"), Some(v4(203, 0, 113, 5)));
    assert_eq!(parse_socket_ip(b"1.2.3.4:0"), Some(v4(1, 2, 3, 4)));
    assert_eq!(parse_socket_ip(b"1.2.3.4:65535"), Some(v4(1, 2, 3, 4)));
    assert_eq!(parse_socket_ip(b"1.2.3.4:00080"), Some(v4(1, 2, 3, 4)));
    assert_eq!(parse_socket_ip(b"[::1]:8080"), Some(IpAddr::V6(1)));
    assert_eq!(parse_socket_ip(b"[2001:db8::1]:443"), Some(v6([0x2001, 0xdb8, 0, 0, 0, 0, 0, 1])));
    assert_eq!(parse_socket_ip(b"[fe80::1%3]:80"), Some(v6([0xfe80, 0, 0, 0, 0, 0, 0, 1])));
    assert_eq!(parse_socket_ip(b"[::ffff:1.2.3.4]:1"), Some(v6([0, 0, 0, 0, 0, 0xffff, 0x0102, 0x0304])));
}

#[test]
fn refuses_malformed_addresses_with_a_port() {
    for text in [
        "", "1.2.3.4", "1.2.3.4:", "1.2.3.4:65536", "1.2.3.4:-1", "1.2.3.4:80 ", "1.2.3.4:8a",
        "1.2.3.4::80", "::1:80x", "[::1]", "[::1]:", "[::1]80", "[::1:80", "::1]:80", "[1.2.3.4]:80",
        "[::1%]:80", "[::1%eth0]:80", "[::1%4294967296]:80", "[::1]:65536", "[]:80", ":80",
        "1.2.3:80", "[::1] :80",
    ] {
        assert_eq!(parse_socket_ip(text.as_bytes()), None, "{}", text);
    }
}

#[test]
fn reads_header_text() {
    assert_eq!(parse_text(b" 9.9.9.9 , 10.0.0.1", false), Some(v4(9, 9, 9, 9)));
    assert_eq!(parse_text(b"203.0.113.5:443", true), Some(v4(203, 0, 113, 5)));
    assert_eq!(parse_text(b"203.0.113.5:443", false), None);
    assert_eq!(parse_text(b"203.0.113.5", true), Some(v4(203, 0, 113, 5)));
    assert_eq!(parse_text(b"[2001:db8::2]:55011, 1.1.1.1", true), Some(v6([0x2001, 0xdb8, 0, 0, 0, 0, 0, 2])));
    assert_eq!(parse_text(b"2001:db8::2", true), Some(v6([0x2001, 0xdb8, 0, 0, 0, 0, 0, 2])));
    assert_eq!(parse_text(b"[2001:db8::2]:55011", false), None);
    assert_eq!(parse_text(b"", false), None);
    assert_eq!(parse_text(b"", true), None);
    assert_eq!(parse_text(b" \t ", true), None);
    assert_eq!(parse_text(b"1.2.3.4\n", false), Some(v4(1, 2, 3, 4)));
}

#[test]
fn addresses_from_their_parts() {
    assert_eq!(IpAddr::v4(0, 0, 0, 0), IpAddr::V4(0));
    assert_eq!(IpAddr::v4(1, 2, 3, 4), IpAddr::V4(0x0102_0304));
    assert_eq!(IpAddr::v4(192, 168, 0, 1), IpAddr::V4(3_232_235_521));
    assert_eq!(IpAddr::v4(255, 255, 255, 255), IpAddr::V4(u32::MAX));
    assert_eq!(IpAddr::v6([0; 8]), IpAddr::V6(0));
    assert_eq!(IpAddr::v6([0, 0, 0, 0, 0, 0, 0, 1]), IpAddr::V6(1));
    assert_eq!(IpAddr::v6([1, 0, 0, 0, 0, 0, 0, 0]), IpAddr::V6(1 << 112));
    assert_eq!(
        IpAddr::v6([0x2001, 0xdb8, 0xabcd, 0x1234, 0x5678, 0x9abc, 0xdef0, 0x1111]),
        IpAddr::V6(0x2001_0db8_abcd_1234_5678_9abc_def0_1111)
    );
    assert_eq!(IpAddr::v6([0xffff; 8]), IpAddr::V6(u128::MAX));
}

#[test]
fn usual_dotted_texts_are_read() {
    let samples: [u8; 9] = [0, 1, 9, 10, 99, 100, 199, 200, 255];
    for a in samples {
        for b in samples {
            for c in samples {
                for d in samples {
                    let text = format!("{}.{}.{}.{}", a, b, c, d);
                    assert_eq!(parse_ip_addr(text.as_bytes()), Some(IpAddr::v4(a, b, c, d)));
                    let text = format!("{}.{}.{}.{}:{}", a, b, c, d, 256 * u32::from(a) + u32::from(d));
                    assert_eq!(parse_socket_ip(text.as_bytes()), Some(IpAddr::v4(a, b, c, d)));
                }
            }
        }
    }
}

#[test]
fn usual_colon_separated_texts_are_read() {
    let samples: [u16; 8] = [0, 1, 0xf, 0x10, 0xff, 0x100, 0xabc, 0xffff];
    for i in 0..samples.len() {
        let mut g = [0u16; 8];
        for k in 0..8 {
            g[k] = samples[(i + 3 * k) % samples.len()];
        }
        let full = format!(
            "{:x}:{:x}:{:x}:{:x}:{:x}:{:x}:{:x}:{:x}",
            g[0], g[1], g[2], g[3], g[4], g[5], g[6], g[7]
        );
        assert_eq!(parse_ip_addr(full.as_bytes()), Some(IpAddr::v6(g)));
        let bracketed = format!("[{}]:{}", full, g[7]);
        assert_eq!(parse_socket_ip(bracketed.as_bytes()), Some(IpAddr::v6(g)));
        let upper = full.to_uppercase();
        assert_eq!(parse_ip_addr(upper.as_bytes()), Some(IpAddr::v6(g)));
        let short = format!("{:x}:{:x}::{:x}", g[0], g[1], g[7]);
        assert_eq!(
            parse_ip_addr(short.as_bytes()),
            Some(IpAddr::v6([g[0], g[1], 0, 0, 0, 0, 0, g[7]]))
        );
        let mixed = format!(
            "{:x}:{:x}:{:x}:{:x}:{:x}:{:x}:{}.{}.{}.{}",
            g[0], g[1], g[2], g[3], g[4], g[5], g[6] >> 8, g[6] & 0xff, g[7] >> 8, g[7] & 0xff
        );
        assert_eq!(parse_ip_addr(mixed.as_bytes()), Some(IpAddr::v6(g)));
        let short_mixed = format!("{:x}::{}.{}.{}.{}", g[0], g[6] >> 8, g[6] & 0xff, g[7] >> 8, g[7] & 0xff);
        assert_eq!(
            parse_ip_addr(short_mixed.as_bytes()),
            Some(IpAddr::v6([g[0], 0, 0, 0, 0, 0, g[6], g[7]]))
        );
    }
}
