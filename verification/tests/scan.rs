use arp_scan::arp::{scan_devices, sort_devices, NetworkDevice, Platform};
use arp_scan::http::HttpResponse;
use arp_scan::ip::{ip_key, parse_octet};
use arp_scan::text::{contains_char, split_char, split_whitespace_tokens, strip_edges};
use arp_scan::{is_private_ip, parse_ipv4, parse_unix_arp_line, parse_windows_arp_line};

fn dev(ip: &str, mac: Option<&str>) -> NetworkDevice {
    NetworkDevice {
        ip: ip.to_string(),
        mac: mac.map(|m| m.to_string()),
    }
}

#[test]
fn unix_line_full() {
    let r = parse_unix_arp_line("? (192.168.1.10) at a1:b2:c3:d4:e5:f6 on en0 ifscope [ethernet]");
    assert_eq!(r.0.as_deref(), Some("192.168.1.10"));
    assert_eq!(r.1.as_deref(), Some("a1:b2:c3:d4:e5:f6"));
}

#[test]
fn unix_line_incomplete() {
    let r = parse_unix_arp_line("? (192.168.1.20) at (incomplete) on en0");
    assert_eq!(r.0.as_deref(), Some("192.168.1.20"));
    assert_eq!(r.1, None);
}

#[test]
fn unix_line_mac_without_colon() {
    let r = parse_unix_arp_line("? (192.168.1.30) at deadbeef on en0");
    assert_eq!(r.0.as_deref(), Some("192.168.1.30"));
    assert_eq!(r.1, None);
}

#[test]
fn unix_line_too_few_tokens() {
    assert_eq!(parse_unix_arp_line("? (192.168.1.1) at"), (None, None));
    assert_eq!(parse_unix_arp_line(""), (None, None));
    assert_eq!(parse_unix_arp_line("   "), (None, None));
}

#[test]
fn windows_line_full() {
    let r = parse_windows_arp_line("192.168.1.10    a1-b2-c3-d4-e5-f6     dynamic");
    assert_eq!(r.0.as_deref(), Some("192.168.1.10"));
    assert_eq!(r.1.as_deref(), Some("a1:b2:c3:d4:e5:f6"));
}

#[test]
fn windows_line_without_hyphen_mac() {
    let r = parse_windows_arp_line("192.168.1.5 static_entry dynamic");
    assert_eq!(r.0.as_deref(), Some("192.168.1.5"));
    assert_eq!(r.1, None);
}

#[test]
fn windows_header_lines_rejected() {
    assert_eq!(
        parse_windows_arp_line("Internet Address      Physical Address      Type"),
        (None, None)
    );
    assert_eq!(parse_windows_arp_line("Interface: not_an_ip --- 0x4"), (None, None));
    assert_eq!(parse_windows_arp_line("lonely"), (None, None));
}

#[test]
fn scan_unix_end_to_end() {
    let out = "? (192.168.1.10) at a1:b2:c3:d4:e5:f6 on en0 ifscope [ethernet]\n\
               ? (192.168.1.20) at (incomplete) on en0\n";
    let devices = scan_devices(out, Platform::Unix);
    assert_eq!(
        devices,
        vec![
            dev("192.168.1.10", Some("a1:b2:c3:d4:e5:f6")),
            dev("192.168.1.20", None),
        ]
    );
}

#[test]
fn scan_filters_public_addresses() {
    let out = "? (8.8.8.8) at aa:bb:cc:dd:ee:ff on en0 ifscope [ethernet]\n\
               ? (192.168.1.1) at 11:22:33:44:55:66 on en0 ifscope [ethernet]\n";
    let devices = scan_devices(out, Platform::Unix);
    assert_eq!(devices, vec![dev("192.168.1.1", Some("11:22:33:44:55:66"))]);
}

#[test]
fn scan_sorts_numerically_not_lexicographically() {
    let out = "? (192.168.10.1) at aa:aa:aa:aa:aa:01 on en0 x\n\
               ? (192.168.1.10) at aa:aa:aa:aa:aa:02 on en0 x\n\
               ? (192.168.1.2) at aa:aa:aa:aa:aa:03 on en0 x\n";
    let devices = scan_devices(out, Platform::Unix);
    let ips: Vec<&str> = devices.iter().map(|d| d.ip.as_str()).collect();
    assert_eq!(ips, vec!["192.168.1.2", "192.168.1.10", "192.168.10.1"]);
}

#[test]
fn scan_skips_malformed_lines_without_error() {
    let out = "garbage\n\
               \n\
               a b c\n\
               ? (not.an.ip) at aa:bb:cc:dd:ee:ff on en0 x\n\
               ? (192.168.01.1) at aa:bb:cc:dd:ee:ff on en0 x\n\
               ? (256.1.1.1) at aa:bb:cc:dd:ee:ff on en0 x\n";
    let devices = scan_devices(out, Platform::Unix);
    assert!(devices.is_empty());
}

#[test]
fn scan_windows_end_to_end_with_crlf() {
    let out = "Interface: 192.168.1.5 --- 0x4\r\n\
                 Internet Address      Physical Address      Type\r\n\
                 192.168.1.1           aa-bb-cc-dd-ee-ff     dynamic\r\n\
                 8.8.8.8               11-22-33-44-55-66     dynamic\r\n";
    let devices = scan_devices(out, Platform::Windows);
    assert_eq!(devices, vec![dev("192.168.1.1", Some("aa:bb:cc:dd:ee:ff"))]);
}

#[test]
fn scan_repeated_gives_same_result() {
    let out = "? (10.0.0.9) at a1:a2:a3:a4:a5:a6 on en1 x\n\
               ? (10.0.0.2) at b1:b2:b3:b4:b5:b6 on en1 x\n";
    let first = scan_devices(out, Platform::Unix);
    let second = scan_devices(out, Platform::Unix);
    assert_eq!(first, second);
}

#[test]
fn scan_empty_input_yields_empty_list() {
    assert!(scan_devices("", Platform::Unix).is_empty());
    assert!(scan_devices("", Platform::Windows).is_empty());
}

#[test]
fn sort_is_stable_for_equal_addresses() {
    let devices = vec![
        dev("10.0.0.1", Some("aa:aa:aa:aa:aa:01")),
        dev("10.0.0.1", Some("aa:aa:aa:aa:aa:02")),
        dev("10.0.0.0", None),
    ];
    let sorted = sort_devices(devices);
    assert_eq!(
        sorted,
        vec![
            dev("10.0.0.0", None),
            dev("10.0.0.1", Some("aa:aa:aa:aa:aa:01")),
            dev("10.0.0.1", Some("aa:aa:aa:aa:aa:02")),
        ]
    );
}

#[test]
fn private_range_boundaries() {
    assert!(is_private_ip("10.0.0.0"));
    assert!(is_private_ip("10.255.255.255"));
    assert!(!is_private_ip("9.255.255.255"));
    assert!(!is_private_ip("11.0.0.0"));
    assert!(is_private_ip("172.16.0.0"));
    assert!(is_private_ip("172.31.255.255"));
    assert!(!is_private_ip("172.15.255.255"));
    assert!(!is_private_ip("172.32.0.0"));
    assert!(is_private_ip("192.168.0.0"));
    assert!(is_private_ip("192.168.255.255"));
    assert!(!is_private_ip("192.169.0.0"));
    assert!(!is_private_ip("127.0.0.1"));
    assert!(!is_private_ip("169.254.1.1"));
    assert!(!is_private_ip("8.8.8.8"));
    assert!(!is_private_ip("2.0.0.1"));
}

#[test]
fn ipv4_parse_accepts_strict_dotted_quads() {
    assert_eq!(parse_ipv4("1.2.3.4"), Some((1, 2, 3, 4)));
    assert_eq!(parse_ipv4("0.0.0.0"), Some((0, 0, 0, 0)));
    assert_eq!(parse_ipv4("255.255.255.255"), Some((255, 255, 255, 255)));
    assert_eq!(parse_ipv4("192.168.1.10"), Some((192, 168, 1, 10)));
}

#[test]
fn ipv4_parse_rejects_malformed_text() {
    assert_eq!(parse_ipv4(""), None);
    assert_eq!(parse_ipv4("1.2.3"), None);
    assert_eq!(parse_ipv4("1.2.3.4.5"), None);
    assert_eq!(parse_ipv4("1..2.3"), None);
    assert_eq!(parse_ipv4("256.1.1.1"), None);
    assert_eq!(parse_ipv4("192.168.01.1"), None);
    assert_eq!(parse_ipv4("01.1.1.1"), None);
    assert_eq!(parse_ipv4("1.2.3.x"), None);
    assert_eq!(parse_ipv4("1.2.3.-4"), None);
    assert_eq!(parse_ipv4("a.b.c.d"), None);
    assert_eq!(parse_ipv4(" 1.2.3.4"), None);
}

#[test]
fn octet_parse_edges() {
    assert_eq!(parse_octet("0"), Some(0));
    assert_eq!(parse_octet("9"), Some(9));
    assert_eq!(parse_octet("10"), Some(10));
    assert_eq!(parse_octet("255"), Some(255));
    assert_eq!(parse_octet("256"), None);
    assert_eq!(parse_octet("999"), None);
    assert_eq!(parse_octet("00"), None);
    assert_eq!(parse_octet("01"), None);
    assert_eq!(parse_octet(""), None);
    assert_eq!(parse_octet("1234"), None);
    assert_eq!(parse_octet("2a"), None);
}

#[test]
fn numeric_key_orders_octet_by_octet() {
    assert!(ip_key("2.0.0.1") < ip_key("10.0.0.0"));
    assert!(ip_key("192.168.1.2") < ip_key("192.168.1.10"));
    assert!(ip_key("192.168.1.10") < ip_key("192.168.10.1"));
    assert_eq!(ip_key("not an ip"), -1);
    assert_eq!(ip_key("0.0.0.0"), 0);
    assert_eq!(ip_key("0.0.1.0"), 256);
}

#[test]
fn tokenizer_splits_on_runs_of_whitespace() {
    let toks = split_whitespace_tokens("  a\tbb \r\n ccc  ");
    let toks: Vec<&str> = toks.iter().map(|t| t.as_str()).collect();
    assert_eq!(toks, vec!["a", "bb", "ccc"]);
    assert!(split_whitespace_tokens("").is_empty());
    assert!(split_whitespace_tokens(" \t ").is_empty());
}

#[test]
fn split_keeps_empty_segments() {
    let segs = split_char("a..b.", '.');
    let segs: Vec<&str> = segs.iter().map(|t| t.as_str()).collect();
    assert_eq!(segs, vec!["a", "", "b", ""]);
    let one = split_char("", '.');
    let one: Vec<&str> = one.iter().map(|t| t.as_str()).collect();
    assert_eq!(one, vec![""]);
}

#[test]
fn strip_edges_removes_repeated_delimiters() {
    assert_eq!(strip_edges("((10.0.0.1))", '(', ')'), "10.0.0.1");
    assert_eq!(strip_edges("(10.0.0.1", '(', ')'), "10.0.0.1");
    assert_eq!(strip_edges("10.0.0.1)", '(', ')'), "10.0.0.1");
    assert_eq!(strip_edges("10.0.0.1", '(', ')'), "10.0.0.1");
    assert_eq!(strip_edges("(((", '(', ')'), "");
}

#[test]
fn contains_char_scans_the_text() {
    assert!(contains_char("a1:b2", ':'));
    assert!(!contains_char("a1-b2", ':'));
    assert!(!contains_char("", ':'));
}

#[test]
fn http_response_holds_its_fields() {
    let r = HttpResponse::new(200, "{\"ok\":true}".to_string());
    assert_eq!(r.status, 200);
    assert_eq!(r.data, "{\"ok\":true}");
}
