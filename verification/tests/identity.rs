use globalvpn_proto::{NodeId, Signkey, SignkeyV1, VersionedSignkey};

#[test]
fn node_id_is_the_sha256_of_the_key() {
    // SHA-256 of the empty string, a fixed reference value: the digest
    // is a real hash, not the input handed back.
    let id = NodeId::from_public_key(&[]);
    let expected: Vec<u8> = vec![
        0xe3, 0xb0, 0xc4, 0x42, 0x98, 0xfc, 0x1c, 0x14, 0x9a, 0xfb, 0xf4, 0xc8, 0x99, 0x6f, 0xb9,
        0x24, 0x27, 0xae, 0x41, 0xe4, 0x64, 0x9b, 0x93, 0x4c, 0xa4, 0x95, 0x99, 0x1b, 0x78, 0x52,
        0xb8, 0x55,
    ];
    assert_eq!(id.as_bytes(), expected.as_slice());
}

#[test]
fn node_ids_order_by_bytes() {
    let a = NodeId::from_public_key(&[1]);
    let b = NodeId::from_public_key(&[2]);
    assert!(a.le(&a));
    assert_eq!(a.le(&b), !b.le(&a));
    assert_eq!(a, NodeId::from_public_key(&[1]));
    assert_ne!(a, b);
}

#[test]
fn signkey_derivation_is_deterministic() {
    let seed = vec![7u8; 32];
    let one = Signkey::from_seed(seed.clone());
    let two = Signkey::from_seed(seed.clone());
    assert_eq!(one.public_key(), two.public_key());
    assert_eq!(one.secret_key(), two.secret_key());
    assert_eq!(one.public_key().len(), 32);
    assert_eq!(one.secret_key().len(), 64);
    // the derived public key is not the seed handed back
    assert_ne!(one.public_key(), seed.as_slice());
    // and a different seed gives a different key
    let other = Signkey::from_seed(vec![8u8; 32]);
    assert_ne!(one.public_key(), other.public_key());
}

#[test]
fn node_id_of_a_keyset_hashes_its_public_key() {
    let key = Signkey::from_seed(vec![3u8; 32]);
    let id = key.node_id();
    assert_eq!(id, NodeId::from_public_key(key.public_key()));
    assert_ne!(id.as_bytes(), key.public_key());
}

#[test]
fn versioned_signkey_holds_the_seed() {
    let v1 = SignkeyV1 { seed: String::from("FOO") };
    let versioned = VersionedSignkey::V1(v1.clone());
    assert_eq!(versioned, VersionedSignkey::V1(SignkeyV1 { seed: String::from("FOO") }));
    match versioned {
        VersionedSignkey::V1(inner) => assert_eq!(inner.seed, "FOO"),
    }
}
