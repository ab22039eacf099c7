//! Subnet inference and IPv4 text round trips.

use adapter_info::{calculate_subnet_info, infer_prefix, ipv4_string, parse_ipv4, u32_of};

#[test]
fn no_match_returns_absent() {
    let network = "10.0.0.1".to_string();
    let broadcast = "192.168.1.1".to_string();
    assert_eq!(calculate_subnet_info(&network, &broadcast), None);
}

#[test]
fn example_end_to_end() {
    let network = "192.168.1.0".to_string();
    let broadcast = "192.168.1.255".to_string();
    assert_eq!(
        calculate_subnet_info(&network, &broadcast),
        Some("255.255.255.0".to_string())
    );
}

#[test]
fn single_host_match() {
    let network = "5.6.7.8".to_string();
    let broadcast = "5.6.7.8".to_string();
    assert_eq!(
        calculate_subnet_info(&network, &broadcast),
        Some("255.255.255.255".to_string())
    );
}

#[test]
fn zero_prefix_match() {
    let network = "0.0.0.0".to_string();
    let broadcast = "255.255.255.255".to_string();
    assert_eq!(
        calculate_subnet_info(&network, &broadcast),
        Some("0.0.0.0".to_string())
    );
}

#[test]
fn inference_matches_reference_library_on_every_prefix_length() {
    // With network 0.0.0.0 each prefix length has a distinct broadcast
    // address, so the most-specific-first search must answer exactly the
    // length the broadcast was built from.
    for l in 0..=32u8 {
        let net = ipnet::Ipv4Net::new("0.0.0.0".parse().unwrap(), l).unwrap();
        let network = "0.0.0.0".to_string();
        let broadcast = net.broadcast().to_string();
        assert_eq!(
            calculate_subnet_info(&network, &broadcast),
            Some(net.netmask().to_string()),
            "prefix length {}",
            l
        );
    }
}

#[test]
fn longest_prefix_wins() {
    // 10.0.0.255's broadcast at /24 equals the address itself, which is also
    // its /32 broadcast; the search from 32 down answers the /32 mask.
    let network = "10.0.0.255".to_string();
    let broadcast = "10.0.0.255".to_string();
    assert_eq!(
        calculate_subnet_info(&network, &broadcast),
        Some("255.255.255.255".to_string())
    );
}

#[test]
fn infer_prefix_concrete() {
    let n = u32_of(192, 168, 1, 0);
    let b = u32_of(192, 168, 1, 255);
    assert_eq!(infer_prefix(n, b), Some(24));
    assert_eq!(infer_prefix(u32_of(10, 0, 0, 1), u32_of(192, 168, 1, 1)), None);
}

#[test]
fn ipv4_text_round_trip() {
    let cases: Vec<(u8, u8, u8, u8)> = vec![
        (0, 0, 0, 0),
        (255, 255, 255, 255),
        (203, 0, 113, 7),
        (10, 99, 100, 1),
        (172, 16, 254, 9),
    ];
    for (a, b, c, d) in cases {
        let s = ipv4_string(a, b, c, d);
        assert_eq!(parse_ipv4(&s), (a, b, c, d));
        let (pa, pb, pc, pd) = parse_ipv4(&s);
        assert_eq!(ipv4_string(pa, pb, pc, pd), s);
    }
}

#[test]
fn ipv4_text_expected_values() {
    assert_eq!(ipv4_string(192, 168, 1, 0), "192.168.1.0");
    assert_eq!(ipv4_string(8, 8, 8, 8), "8.8.8.8");
    assert_eq!(ipv4_string(255, 0, 10, 99), "255.0.10.99");
}
