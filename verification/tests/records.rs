//! Record assembly, the two-pass buffer-sizing protocol, and text decoding.

use adapter_info::{
    ascii_string, build_adapter, first_adapter_query, get_all_adapter_info, get_ip_addr,
    ipv6_string, second_adapter_query, utf16_string, AdapterError, QueryCall, RawAdapter,
    RawSockAddr, TextField, AF_INET, AF_INET6, NO_ERROR, OPER_STATUS_UP,
};

const ERROR_BUFFER_OVERFLOW: u32 = 111;

fn empty_adapter() -> RawAdapter {
    RawAdapter {
        adapter_name: b"{A1B2C3D4-0000-0000-0000-000000000001}".to_vec(),
        friendly_name: "Ethernet".encode_utf16().collect(),
        description: "Test adapter".encode_utf16().collect(),
        oper_status: OPER_STATUS_UP,
        unicast: vec![],
        gateways: vec![],
        dns: vec![],
        prefixes: vec![],
    }
}

fn v4(a: u8, b: u8, c: u8, d: u8) -> RawSockAddr {
    RawSockAddr { family: AF_INET, data: vec![a, b, c, d] }
}

#[test]
fn it_works() {
    let all_adapter: Vec<adapter_info::AdapterInfo> =
        get_all_adapter_info(NO_ERROR, vec![]).unwrap();
    let iter = all_adapter.iter();
    for adapter in iter {
        println!("{:?}", adapter.adapter_name);
    }
}

#[test]
fn buffer_sizing_protocol() {
    // A simulated platform service: the probe reports "buffer too small" and
    // the needed size; the fetch succeeds with one adapter whose lists are
    // all empty.
    let probe = first_adapter_query();
    assert_eq!(probe, QueryCall::SizeProbe);
    let (probe_status, bytes_needed): (u32, u32) = (ERROR_BUFFER_OVERFLOW, 4096);
    let fetch = second_adapter_query(probe_status, bytes_needed);
    assert_eq!(fetch, QueryCall::DataFetch { buffer_bytes: 4096 });
    let result = get_all_adapter_info(NO_ERROR, vec![empty_adapter()]);
    let records = result.unwrap();
    assert_eq!(records.len(), 1);
    let r = &records[0];
    assert_eq!(r.adapter_name, "{A1B2C3D4-0000-0000-0000-000000000001}");
    assert_eq!(r.friendly_name, "Ethernet");
    assert_eq!(r.description, "Test adapter");
    assert_eq!(r.state, OPER_STATUS_UP);
    assert!(r.in_addr.is_empty());
    assert!(r.in6_addr.is_empty());
    assert!(r.in_gw_addr.is_empty());
    assert!(r.in6_gw_addr.is_empty());
    assert!(r.in_dns_addr.is_empty());
    assert!(r.in6_dns_addr.is_empty());
    assert_eq!(r.ip_mask, "");
}

#[test]
fn fatal_status_propagation() {
    // A simulated platform service that fails the data-fetch call: the
    // enumeration fails with that status code and returns no partial records.
    let status: u32 = 232;
    let result = get_all_adapter_info(status, vec![empty_adapter(), empty_adapter()]);
    assert_eq!(result.unwrap_err(), AdapterError::PlatformQuery { code: 232 });
}

#[test]
fn idempotent_shape() {
    // Two enumerations over unchanged configuration: same length, same
    // identifiers, position by position.
    let one = get_all_adapter_info(NO_ERROR, vec![empty_adapter(), empty_adapter()]).unwrap();
    let two = get_all_adapter_info(NO_ERROR, vec![empty_adapter(), empty_adapter()]).unwrap();
    assert_eq!(one.len(), two.len());
    for i in 0..one.len() {
        assert_eq!(one[i].adapter_name, two[i].adapter_name);
    }
}

#[test]
fn addresses_sorted_into_families() {
    let mut raw = empty_adapter();
    raw.unicast = vec![
        v4(192, 168, 0, 10),
        RawSockAddr { family: AF_INET6, data: vec![0xfe, 0x80, 0, 0, 0, 0, 0, 0, 0, 0, 0, 0, 0, 0, 0, 1] },
        RawSockAddr { family: 99, data: vec![] },
        v4(10, 0, 0, 7),
    ];
    raw.gateways = vec![v4(192, 168, 0, 1)];
    raw.dns = vec![v4(8, 8, 8, 8), v4(8, 8, 4, 4)];
    let r = build_adapter(&raw).unwrap();
    assert_eq!(r.in_addr, vec!["192.168.0.10".to_string(), "10.0.0.7".to_string()]);
    assert_eq!(r.in6_addr, vec!["fe80::1".to_string()]);
    assert_eq!(r.in_gw_addr, vec!["192.168.0.1".to_string()]);
    assert_eq!(r.in_dns_addr, vec!["8.8.8.8".to_string(), "8.8.4.4".to_string()]);
    assert!(r.in6_dns_addr.is_empty());
}

#[test]
fn mask_inferred_from_prefix_entries() {
    let mut raw = empty_adapter();
    raw.prefixes = vec![
        v4(192, 168, 1, 0),
        v4(192, 168, 1, 10),
        v4(192, 168, 1, 255),
    ];
    let r = build_adapter(&raw).unwrap();
    assert_eq!(r.ip_mask, "255.255.255.0");
}

#[test]
fn mask_empty_when_adapter_down() {
    let mut raw = empty_adapter();
    raw.oper_status = 2;
    raw.prefixes = vec![
        v4(192, 168, 1, 0),
        v4(192, 168, 1, 10),
        v4(192, 168, 1, 255),
    ];
    let r = build_adapter(&raw).unwrap();
    assert_eq!(r.ip_mask, "");
    assert_eq!(r.state, 2);
}

#[test]
fn mask_empty_when_too_few_prefixes() {
    let mut raw = empty_adapter();
    raw.prefixes = vec![v4(192, 168, 1, 0), v4(192, 168, 1, 255)];
    let r = build_adapter(&raw).unwrap();
    assert_eq!(r.ip_mask, "");
}

#[test]
fn mask_empty_when_no_length_matches() {
    let mut raw = empty_adapter();
    raw.prefixes = vec![v4(10, 0, 0, 1), v4(10, 0, 0, 2), v4(192, 168, 1, 1)];
    let r = build_adapter(&raw).unwrap();
    assert_eq!(r.ip_mask, "");
}

#[test]
fn decoder_appends_by_family() {
    let mut v4_out: Vec<String> = Vec::new();
    let mut v6_out: Vec<String> = Vec::new();
    get_ip_addr(&v4(172, 16, 5, 4), &mut v4_out, &mut v6_out).unwrap();
    get_ip_addr(
        &RawSockAddr { family: AF_INET6, data: vec![0; 16] },
        &mut v4_out,
        &mut v6_out,
    )
    .unwrap();
    get_ip_addr(&RawSockAddr { family: 17, data: vec![1, 2] }, &mut v4_out, &mut v6_out).unwrap();
    assert_eq!(v4_out, vec!["172.16.5.4".to_string()]);
    assert_eq!(v6_out, vec!["::".to_string()]);
}

#[test]
fn decoder_rejects_short_address() {
    let mut v4_out: Vec<String> = Vec::new();
    let mut v6_out: Vec<String> = Vec::new();
    let r = get_ip_addr(
        &RawSockAddr { family: AF_INET, data: vec![1, 2, 3] },
        &mut v4_out,
        &mut v6_out,
    );
    assert_eq!(r.unwrap_err(), AdapterError::AddressConversion);
    assert!(v4_out.is_empty());
}

#[test]
fn conversion_fault_aborts_build() {
    let mut raw = empty_adapter();
    raw.unicast = vec![v4(1, 2, 3, 4), RawSockAddr { family: AF_INET6, data: vec![0; 5] }];
    assert_eq!(build_adapter(&raw).unwrap_err(), AdapterError::AddressConversion);
}

#[test]
fn text_decoding_faults_name_their_field() {
    let mut raw = empty_adapter();
    raw.adapter_name = vec![b'{', 0xC3, b'}'];
    assert_eq!(
        build_adapter(&raw).unwrap_err(),
        AdapterError::TextDecoding { field: TextField::AdapterName }
    );
    let mut raw = empty_adapter();
    raw.friendly_name = vec![0xD800];
    assert_eq!(
        build_adapter(&raw).unwrap_err(),
        AdapterError::TextDecoding { field: TextField::FriendlyName }
    );
    let mut raw = empty_adapter();
    raw.description = vec![0xDC00, 0xD800];
    assert_eq!(
        build_adapter(&raw).unwrap_err(),
        AdapterError::TextDecoding { field: TextField::Description }
    );
}

#[test]
fn utf16_decoding() {
    assert_eq!(utf16_string(&"hello".encode_utf16().collect()), Some("hello".to_string()));
    assert_eq!(utf16_string(&vec![0x4F60, 0x597D]), Some("\u{4F60}\u{597D}".to_string()));
    assert_eq!(utf16_string(&vec![0xD83D, 0xDE00]), Some("\u{1F600}".to_string()));
    assert_eq!(utf16_string(&vec![0x41, 0xD800]), None);
    assert_eq!(utf16_string(&vec![0xDC00, 0xD800]), None);
    assert_eq!(utf16_string(&vec![]), Some(String::new()));
}

#[test]
fn ascii_decoding() {
    assert_eq!(ascii_string(&b"{guid}".to_vec()), Some("{guid}".to_string()));
    assert_eq!(ascii_string(&vec![0x80]), None);
    assert_eq!(ascii_string(&vec![]), Some(String::new()));
}

#[test]
fn ipv6_text_expected_values() {
    let full = |bytes: [u8; 16]| ipv6_string(&bytes.to_vec());
    let mut b = [0u8; 16];
    b[15] = 1;
    assert_eq!(full(b), "::1");
    assert_eq!(full([0u8; 16]), "::");
    let mut b = [0u8; 16];
    b[0] = 0xfe;
    b[1] = 0x80;
    b[15] = 1;
    assert_eq!(full(b), "fe80::1");
    // no run of two zero groups: nothing is compressed
    let b = [0x20, 0x01, 0x0d, 0xb8, 0, 1, 0, 2, 0, 3, 0, 4, 0, 5, 0, 6];
    assert_eq!(full(b), "2001:db8:1:2:3:4:5:6");
    // equal runs: the leftmost is compressed
    let b = [0x20, 0x01, 0, 0, 0, 0, 0, 1, 0, 0, 0, 0, 0, 1, 0, 1];
    assert_eq!(full(b), "2001::1:0:0:1:1");
    // the longer, later run is compressed
    let b = [0x20, 0x01, 0, 0, 0, 0, 0, 1, 0, 0, 0, 0, 0, 0, 0, 1];
    assert_eq!(full(b), "2001:0:0:1::1");
    // a single zero group is not compressed
    let b = [0x20, 0x01, 0x0d, 0xb8, 0, 0, 0, 1, 0, 1, 0, 1, 0, 1, 0, 1];
    assert_eq!(full(b), "2001:db8:0:1:1:1:1:1");
    // mixed-case-free lowercase hex digits
    let b = [0xab, 0xcd, 0xef, 0x01, 0x23, 0x45, 0x67, 0x89, 0x9a, 0xbc, 0xde, 0xf0, 0x0f, 0xf0, 0xff, 0xff];
    assert_eq!(full(b), "abcd:ef01:2345:6789:9abc:def0:ff0:ffff");
}

#[test]
fn probe_status_is_ignored() {
    // The fetch call is planned from the reported size alone, whatever
    // status the sizing probe returned.
    let a = second_adapter_query(ERROR_BUFFER_OVERFLOW, 640);
    let b = second_adapter_query(NO_ERROR, 640);
    assert_eq!(a, QueryCall::DataFetch { buffer_bytes: 640 });
    assert_eq!(a, b);
}

#[test]
fn ipv6_round_trip_via_reference_parser() {
    // Each produced IPv6 text parses as an IPv6 address and re-displays as
    // the same canonical string.
    let cases: Vec<[u8; 16]> = vec![
        {
            let mut b = [0u8; 16];
            b[0] = 0xfe;
            b[1] = 0x80;
            b[15] = 1;
            b
        },
        [0u8; 16],
        [0x20, 0x01, 0x0d, 0xb8, 0, 0, 0, 0, 0, 0, 0, 0, 0, 0, 0, 0x42],
        [0x20, 0x01, 0, 0, 0, 0, 0, 1, 0, 0, 0, 0, 0, 1, 0, 1],
        [0xab, 0xcd, 0xef, 0x01, 0x23, 0x45, 0x67, 0x89, 0x9a, 0xbc, 0xde, 0xf0, 0x0f, 0xf0, 0xff, 0xff],
    ];
    for bytes in cases {
        let ours = ipv6_string(&bytes.to_vec());
        let net = ipnet::Ipv6Net::new(ours.parse().unwrap(), 128).unwrap();
        assert_eq!(net.addr().to_string(), ours);
    }
}
