use globalvpn_proto::ip::parse_ip_exec;
use globalvpn_proto::IpAddress;
use globalvpn_proto::NodeMetadata;
use globalvpn_proto::{NodeIpReachability, NodeProxyReachability, NodeReachabilityInformation};

fn ip(text: &str) -> IpAddress {
    parse_ip_exec(text.as_bytes()).unwrap()
}

#[test]
fn test_encode_decode_node_metadata() {
    let testvec = vec![
        NodeMetadata { maximum_warm_table_seconds: Some(12345), maximum_cold_table_seconds: None },
        NodeMetadata { maximum_warm_table_seconds: None, maximum_cold_table_seconds: Some(12345) },
        NodeMetadata { maximum_warm_table_seconds: None, maximum_cold_table_seconds: None },
        NodeMetadata {
            maximum_warm_table_seconds: Some(12345),
            maximum_cold_table_seconds: Some(54321),
        },
    ];

    for case in testvec {
        let encoded = case.encode_der();
        let decoded = NodeMetadata::decode_ber(encoded.as_slice()).unwrap();
        assert_eq!(case, decoded);
    }
}

#[test]
fn test_encode_decode_node_ip_reachability() {
    let testvec = vec![
        NodeIpReachability { address: ip("127.0.0.1"), quic_port: Some(1337) },
        NodeIpReachability { address: ip("2a0e:46c6::2"), quic_port: Some(1337) },
        NodeIpReachability { address: ip("127.0.0.1"), quic_port: None },
    ];

    for case in testvec {
        let encoded = case.encode_der();
        let decoded = NodeIpReachability::decode_ber(encoded.as_slice()).unwrap();
        assert_eq!(case, decoded);
    }
}

#[test]
fn test_encode_decode_node_proxy_reachability() {
    let testvec = vec![
        NodeProxyReachability::new(vec![123, 34, 54, 96, 34], vec![]),
        NodeProxyReachability::new(
            vec![123, 34, 54, 96, 34],
            vec![NodeIpReachability { address: ip("2a0e:46c6::2"), quic_port: Some(1337) }],
        ),
    ];

    for case in testvec {
        let encoded = case.encode_der();
        let decoded = NodeProxyReachability::decode_ber(encoded.as_slice()).unwrap();
        assert_eq!(case, decoded);
    }
}

#[test]
fn test_encode_decode_node_reachability_information() {
    let testvec = vec![NodeReachabilityInformation::new(
        vec![
            NodeIpReachability { address: ip("127.0.0.1"), quic_port: Some(1337) },
            NodeIpReachability { address: ip("2a0e:46c6::2"), quic_port: Some(1337) },
        ],
        vec![NodeProxyReachability::new(vec![123, 34, 34, 212, 43, 93], vec![])],
    )];

    for case in testvec {
        let encoded = case.encode_der();
        let decoded = NodeReachabilityInformation::decode_ber(encoded.as_slice()).unwrap();
        assert_eq!(case, decoded);
    }
}

#[test]
fn metadata_scenario_exact_value() {
    let meta =
        NodeMetadata { maximum_warm_table_seconds: Some(2600), maximum_cold_table_seconds: None };
    let encoded = meta.encode_der();
    // SEQUENCE { [0] EXPLICIT INTEGER 2600 }; 2600 = 0x0a28
    assert_eq!(encoded, vec![0x30, 0x06, 0xa0, 0x04, 0x02, 0x02, 0x0a, 0x28]);
    let decoded = NodeMetadata::decode_ber(encoded.as_slice()).unwrap();
    assert_eq!(decoded.maximum_warm_table_seconds, Some(2600));
    assert_eq!(decoded.maximum_cold_table_seconds, None);
}

#[test]
fn reachability_scenario() {
    let original = NodeReachabilityInformation::new(
        vec![
            NodeIpReachability { address: ip("127.0.0.1"), quic_port: Some(1337) },
            NodeIpReachability { address: ip("2a0e:46c6::2"), quic_port: Some(1337) },
        ],
        vec![NodeProxyReachability::new(vec![1, 2, 3, 4, 5, 6], vec![])],
    );
    let encoded = original.encode_der();
    let decoded = NodeReachabilityInformation::decode_ber(encoded.as_slice()).unwrap();
    assert_eq!(original, decoded);
}

#[test]
fn empty_inner_proxy_set_is_omitted_byte_for_byte() {
    let proxy = NodeProxyReachability::new(vec![123, 34, 34, 212, 43, 93], vec![]);
    let encoded = proxy.encode_der();
    // SEQUENCE { OCTET STRING of six bytes } and nothing else: no [0] tag.
    assert_eq!(encoded, vec![0x30, 0x08, 0x04, 0x06, 123, 34, 34, 212, 43, 93]);
}

#[test]
fn metadata_with_no_fields_encodes_to_empty_sequence() {
    let meta = NodeMetadata::default();
    assert_eq!(meta.encode_der(), vec![0x30, 0x00]);
    let decoded = NodeMetadata::decode_ber(&[0x30, 0x00]).unwrap();
    assert_eq!(decoded, meta);
}

#[test]
fn boundary_values_round_trip() {
    let meta = NodeMetadata {
        maximum_warm_table_seconds: Some(u64::MAX),
        maximum_cold_table_seconds: Some(0),
    };
    let decoded = NodeMetadata::decode_ber(meta.encode_der().as_slice()).unwrap();
    assert_eq!(meta, decoded);

    for port in [Some(0u16), Some(255), Some(256), Some(65535), None] {
        let entry = NodeIpReachability { address: ip("0.0.0.0"), quic_port: port };
        let decoded = NodeIpReachability::decode_ber(entry.encode_der().as_slice()).unwrap();
        assert_eq!(entry, decoded);
    }

    let long_proxy = NodeProxyReachability::new(vec![0xab; 300], vec![]);
    let decoded = NodeProxyReachability::decode_ber(long_proxy.encode_der().as_slice()).unwrap();
    assert_eq!(long_proxy, decoded);
}

#[test]
fn metadata_trailing_data_is_rejected() {
    let meta =
        NodeMetadata { maximum_warm_table_seconds: Some(7), maximum_cold_table_seconds: None };
    let mut encoded = meta.encode_der();
    encoded.push(0x00);
    assert!(NodeMetadata::decode_ber(encoded.as_slice()).is_err());
}

#[test]
fn metadata_malformed_buffers_are_rejected() {
    assert!(NodeMetadata::decode_ber(&[]).is_err());
    assert!(NodeMetadata::decode_ber(&[0x31, 0x00]).is_err());
    assert!(NodeMetadata::decode_ber(&[0x30]).is_err());
    assert!(NodeMetadata::decode_ber(&[0x30, 0x02, 0xa0]).is_err());
}

#[test]
fn reachability_set_order_and_duplicates_collapse() {
    let a = NodeIpReachability { address: ip("127.0.0.1"), quic_port: Some(1337) };
    let b = NodeIpReachability { address: ip("2a0e:46c6::2"), quic_port: None };
    let one = NodeReachabilityInformation::new(vec![a, b], vec![]);
    let other = NodeReachabilityInformation::new(vec![b, a, b], vec![]);
    assert_eq!(one, other);
    assert_eq!(one.encode_der(), other.encode_der());
}

#[test]
fn ip_text_forms() {
    // the canonical v6 text spells out all eight groups in lower case
    let addr = ip("2a0e:46c6::2");
    assert_eq!(addr.to_text(), b"2a0e:46c6:0:0:0:0:0:2".to_vec());
    assert_eq!(parse_ip_exec(b"2a0e:46c6:0:0:0:0:0:2"), Some(addr));
    // compression anywhere, upper-case digits, and plain v4 all parse
    assert_eq!(parse_ip_exec(b"::"), Some(ip("0:0:0:0:0:0:0:0")));
    assert_eq!(parse_ip_exec(b"::1"), Some(ip("0:0:0:0:0:0:0:1")));
    assert_eq!(parse_ip_exec(b"1::"), Some(ip("1:0:0:0:0:0:0:0")));
    assert_eq!(parse_ip_exec(b"2A0E:46C6::2"), Some(ip("2a0e:46c6::2")));
    assert_eq!(parse_ip_exec(b"255.255.255.255"), Some(IpAddress::V4(255, 255, 255, 255)));
    assert_eq!(ip("127.0.0.1").to_text(), b"127.0.0.1".to_vec());
}

#[test]
fn ip_v4_in_v6_text_forms() {
    // a dotted v4 tail stands for the last two groups
    assert_eq!(parse_ip_exec(b"::ffff:1.2.3.4"), Some(ip("0:0:0:0:0:ffff:102:304")));
    assert_eq!(parse_ip_exec(b"::1.2.3.4"), Some(ip("0:0:0:0:0:0:102:304")));
    assert_eq!(parse_ip_exec(b"64:ff9b::192.0.2.33"), Some(ip("64:ff9b:0:0:0:0:c000:221")));
    assert_eq!(parse_ip_exec(b"1:2:3:4:5:6:1.2.3.4"), Some(ip("1:2:3:4:5:6:102:304")));
    // and such an address round-trips through its canonical group text
    let mapped = ip("::ffff:1.2.3.4");
    assert_eq!(mapped.to_text(), b"0:0:0:0:0:ffff:102:304".to_vec());
    assert_eq!(parse_ip_exec(mapped.to_text().as_slice()), Some(mapped));
    // malformed tails are rejected
    assert_eq!(parse_ip_exec(b"::1.2.3"), None);
    assert_eq!(parse_ip_exec(b"1.2.3.4:5"), None);
    assert_eq!(parse_ip_exec(b"1:2:3:4:5:6:7:1.2.3.4"), None);
    assert_eq!(parse_ip_exec(b"::ffff:1.2.3.256"), None);
}

#[test]
fn ip_text_rejections() {
    assert_eq!(parse_ip_exec(b""), None);
    assert_eq!(parse_ip_exec(b"256.1.1.1"), None);
    assert_eq!(parse_ip_exec(b"01.2.3.4"), None);
    assert_eq!(parse_ip_exec(b"1.2.3"), None);
    assert_eq!(parse_ip_exec(b"1.2.3.4.5"), None);
    assert_eq!(parse_ip_exec(b"1:2:3"), None);
    assert_eq!(parse_ip_exec(b"1:2:3:4:5:6:7:8:9"), None);
    assert_eq!(parse_ip_exec(b"12345::1"), None);
    assert_eq!(parse_ip_exec(b"1::2::3"), None);
    assert_eq!(parse_ip_exec(b"hello"), None);
}

#[test]
fn ip_reachability_with_port_rejects_truncation() {
    let entry = NodeIpReachability { address: ip("10.0.0.1"), quic_port: Some(443) };
    let encoded = entry.encode_der();
    for cut in 0..encoded.len() {
        assert!(NodeIpReachability::decode_ber(&encoded[..cut]).is_err());
    }
}
