use globalvpn_proto::ip::parse_ip_exec;
use globalvpn_proto::{
    CertificateData, CertificateError, IpAddress, NodeIpReachability, NodeMetadata,
    NodeProxyReachability, NodeReachabilityInformation, RawCertificate,
};
use ring::rand::SystemRandom;
use ring::signature::KeyPair as RingKeyPair;

fn ip(text: &str) -> IpAddress {
    parse_ip_exec(text.as_bytes()).unwrap()
}

fn sample_data() -> CertificateData {
    let reachability = NodeReachabilityInformation::new(
        vec![
            NodeIpReachability { address: ip("127.0.0.1"), quic_port: Some(1337) },
            NodeIpReachability { address: ip("2a0e:46c6::2"), quic_port: Some(1337) },
        ],
        vec![NodeProxyReachability::new(vec![123, 34, 34, 212, 43, 93], vec![])],
    );

    let metadata =
        NodeMetadata { maximum_warm_table_seconds: Some(2600), maximum_cold_table_seconds: None };

    CertificateData { reachability, metadata }
}

#[test]
fn roundtrip() {
    let certificate_data = sample_data();
    let rng = SystemRandom::new();
    let private_key = ring::signature::Ed25519KeyPair::generate_pkcs8(&rng).unwrap();

    let encoded = certificate_data.sign(private_key.as_ref()).unwrap();
    let decoded = CertificateData::try_from(encoded).unwrap();
    assert_eq!(certificate_data, decoded);
}

#[test]
fn pem_rendering_labels_the_der() {
    let data = sample_data();
    let rng = SystemRandom::new();
    let private_key = ring::signature::Ed25519KeyPair::generate_pkcs8(&rng).unwrap();
    let cert = data.sign(private_key.as_ref()).unwrap();
    let pem_text = cert.pem();
    assert!(pem_text.starts_with("-----BEGIN CERTIFICATE-----"));
    assert!(pem_text.trim_end().ends_with("-----END CERTIFICATE-----"));
    // the rendering is not the raw bytes handed back unchanged
    assert_ne!(pem_text.as_bytes(), cert.der());
    // and it is lossless: parsing the text recovers the exact DER
    let parsed = pem::parse(pem_text.as_bytes()).unwrap();
    assert_eq!(parsed.tag(), "CERTIFICATE");
    assert_eq!(parsed.contents(), cert.der());
}

#[test]
fn signed_certificate_validity_and_subject_key() {
    let data = sample_data();
    let rng = SystemRandom::new();
    let private_key = ring::signature::Ed25519KeyPair::generate_pkcs8(&rng).unwrap();
    let keypair = ring::signature::Ed25519KeyPair::from_pkcs8(private_key.as_ref()).unwrap();
    let cert = data.sign(private_key.as_ref()).unwrap();

    let (_, parsed) = x509_parser::parse_x509_certificate(cert.der()).unwrap();
    // the validity window starts at a day boundary and spans exactly seven days
    let not_before = parsed.validity.not_before.timestamp();
    let not_after = parsed.validity.not_after.timestamp();
    assert_eq!(not_before % 86400, 0);
    assert_eq!(not_after, not_before + 7 * 86400);
    // the supplied key's public half is the certificate's subject key
    assert_eq!(
        parsed.subject_pki.subject_public_key.data.as_ref(),
        keypair.public_key().as_ref()
    );
}

#[test]
fn structurally_invalid_certificate_is_rejected() {
    let raw = RawCertificate::from_der(vec![1, 2, 3, 4]);
    match CertificateData::try_from(raw) {
        Err(e) => assert_eq!(e, CertificateError::X509),
        Ok(_) => panic!("garbage bytes were accepted as a certificate"),
    }
}

#[test]
fn wrong_signature_algorithm_is_rejected() {
    // a certificate signed with ECDSA P-256, carrying both payload extensions
    let data = sample_data();
    let reach = data.reachability.encode_der();
    let meta = data.metadata.encode_der();
    let key = rcgen::KeyPair::generate_for(&rcgen::PKCS_ECDSA_P256_SHA256).unwrap();
    let mut params = rcgen::CertificateParams::default();
    params.custom_extensions.push(rcgen::CustomExtension::from_oid_content(
        &[1, 3, 6, 1, 4, 1, 57716, 2, 1, 1],
        reach,
    ));
    params.custom_extensions.push(rcgen::CustomExtension::from_oid_content(
        &[1, 3, 6, 1, 4, 1, 57716, 2, 1, 2],
        meta,
    ));
    let cert = params.self_signed(&key).unwrap();
    let raw = RawCertificate::from_der(cert.der().to_vec());
    match CertificateData::try_from(raw) {
        Err(e) => assert_eq!(e, CertificateError::InvalidSignatureAlgorithm),
        Ok(_) => panic!("certificate with a non-Ed25519 algorithm was accepted"),
    }
}

fn ed25519_cert_with_extensions(exts: Vec<(Vec<u64>, Vec<u8>)>) -> RawCertificate {
    let key = rcgen::KeyPair::generate_for(&rcgen::PKCS_ED25519).unwrap();
    let mut params = rcgen::CertificateParams::default();
    for (oid, content) in exts {
        params
            .custom_extensions
            .push(rcgen::CustomExtension::from_oid_content(oid.as_slice(), content));
    }
    let cert = params.self_signed(&key).unwrap();
    RawCertificate::from_der(cert.der().to_vec())
}

#[test]
fn missing_reachability_extension_is_rejected() {
    let meta = sample_data().metadata.encode_der();
    let raw = ed25519_cert_with_extensions(vec![(vec![1, 3, 6, 1, 4, 1, 57716, 2, 1, 2], meta)]);
    match CertificateData::try_from(raw) {
        Err(e) => assert_eq!(e, CertificateError::MissingReachabilityInformation),
        Ok(_) => panic!("certificate without reachability extension was accepted"),
    }
}

#[test]
fn missing_metadata_extension_is_rejected() {
    let reach = sample_data().reachability.encode_der();
    let raw = ed25519_cert_with_extensions(vec![(vec![1, 3, 6, 1, 4, 1, 57716, 2, 1, 1], reach)]);
    match CertificateData::try_from(raw) {
        Err(e) => assert_eq!(e, CertificateError::MissingNodeMetadata),
        Ok(_) => panic!("certificate without metadata extension was accepted"),
    }
}

#[test]
fn undecodable_extension_is_rejected() {
    let meta = sample_data().metadata.encode_der();
    let raw = ed25519_cert_with_extensions(vec![
        (vec![1, 3, 6, 1, 4, 1, 57716, 2, 1, 1], vec![0xff, 0x00]),
        (vec![1, 3, 6, 1, 4, 1, 57716, 2, 1, 2], meta),
    ]);
    match CertificateData::try_from(raw) {
        Err(e) => assert_eq!(e, CertificateError::DecodeReachabilityInformation),
        Ok(_) => panic!("certificate with malformed reachability extension was accepted"),
    }
}

#[test]
fn undecodable_metadata_is_rejected() {
    let reach = sample_data().reachability.encode_der();
    let raw = ed25519_cert_with_extensions(vec![
        (vec![1, 3, 6, 1, 4, 1, 57716, 2, 1, 1], reach),
        (vec![1, 3, 6, 1, 4, 1, 57716, 2, 1, 2], vec![0x13, 0x37]),
    ]);
    match CertificateData::try_from(raw) {
        Err(e) => assert_eq!(e, CertificateError::DecodeNodeMetadata),
        Ok(_) => panic!("certificate with malformed metadata extension was accepted"),
    }
}

#[test]
fn tampered_signature_is_rejected() {
    let data = sample_data();
    let rng = SystemRandom::new();
    let private_key = ring::signature::Ed25519KeyPair::generate_pkcs8(&rng).unwrap();
    let cert = data.sign(private_key.as_ref()).unwrap();
    let mut der = cert.der().to_vec();
    let last = der.len() - 1;
    der[last] ^= 0x01;
    let raw = RawCertificate::from_der(der);
    match CertificateData::try_from(raw) {
        Err(e) => assert_eq!(e, CertificateError::InvalidSignature),
        Ok(_) => panic!("certificate with a tampered signature was accepted"),
    }
}

#[test]
fn raw_certificates_order_by_bytes() {
    let a = RawCertificate::from_der(vec![1, 2, 3]);
    let b = RawCertificate::from_der(vec![1, 2, 4]);
    assert!(a.le(&b));
    assert!(!b.le(&a));
    assert!(a.le(&a));
    assert_eq!(a, RawCertificate::from_der(vec![1, 2, 3]));
    assert_ne!(a, b);
}
