use globalvpn_proto::crypto::{gen_kx_keypair, gen_sign_keypair};
use globalvpn_proto::{
    CryptoProtocol, ExtensionField, HandshakeError, SessionHandshake,
    SessionHandshakeSodiumExtraData,
};

#[test]
fn sodium_extra_data() {
    let (sign_pk, sign_sk) = gen_sign_keypair();
    let (kx_pk, _kx_sk) = gen_kx_keypair();

    let extra = SessionHandshakeSodiumExtraData::new(sign_pk.as_slice(), kx_pk);
    let signed = extra.sign_and_serialize(sign_sk.as_slice());

    SessionHandshakeSodiumExtraData::try_from(signed.as_slice()).unwrap();
}

#[test]
fn extra_data_round_trips_the_keys() {
    let (sign_pk, sign_sk) = gen_sign_keypair();
    let (kx_pk, _) = gen_kx_keypair();

    let extra = SessionHandshakeSodiumExtraData::new(sign_pk.as_slice(), kx_pk.clone());
    let signed = extra.sign_and_serialize(sign_sk.as_slice());
    assert_eq!(signed.len(), 128);

    let received = SessionHandshakeSodiumExtraData::try_from(signed.as_slice()).unwrap();
    assert_eq!(received.signing_pk, sign_pk);
    assert_eq!(received.session_pk, kx_pk);
}

#[test]
fn extra_data_bit_flips_are_rejected() {
    let (sign_pk, sign_sk) = gen_sign_keypair();
    let (kx_pk, _) = gen_kx_keypair();
    let extra = SessionHandshakeSodiumExtraData::new(sign_pk.as_slice(), kx_pk);
    let signed = extra.sign_and_serialize(sign_sk.as_slice());

    for index in [0usize, 16, 31, 32, 64, 95, 96, 110, 127] {
        let mut tampered = signed.clone();
        tampered[index] ^= 0x01;
        match SessionHandshakeSodiumExtraData::try_from(tampered.as_slice()) {
            Err(HandshakeError::WrongSignature) | Err(HandshakeError::InvalidData) => {},
            other => panic!("tampered byte {} gave {:?}", index, other),
        }
    }
}

#[test]
fn extra_data_truncation_is_too_short() {
    let (sign_pk, sign_sk) = gen_sign_keypair();
    let (kx_pk, _) = gen_kx_keypair();
    let extra = SessionHandshakeSodiumExtraData::new(sign_pk.as_slice(), kx_pk);
    let signed = extra.sign_and_serialize(sign_sk.as_slice());

    for cut in [0usize, 1, 32, 96, 127] {
        match SessionHandshakeSodiumExtraData::try_from(&signed[..cut]) {
            Err(HandshakeError::SodiumExtraDataToShort) => {},
            other => panic!("truncation to {} gave {:?}", cut, other),
        }
    }
}

#[test]
fn packet_round_trip_via_wire() {
    let (sign_pk, sign_sk) = gen_sign_keypair();
    let (kx_pk, _) = gen_kx_keypair();
    let extra = SessionHandshakeSodiumExtraData::new(sign_pk.as_slice(), kx_pk.clone());
    let packet = SessionHandshake::build_sodium(&extra, sign_sk.as_slice());

    let wire = packet.encode();
    let received = SessionHandshake::parse(wire.as_slice()).unwrap();
    assert_eq!(received.supported_protocols, vec![CryptoProtocol::Sodium]);
    assert_eq!(received.extensions.len(), 1);
    assert_eq!(received.extensions[0].field_type, 1);

    let got = received.sodium_extra().unwrap();
    assert_eq!(got.signing_pk, sign_pk);
    assert_eq!(got.session_pk, kx_pk);
}

#[test]
fn unknown_values_are_preserved() {
    // protocol id 7 is unknown; extension type 0x00ff is unknown and is
    // skipped by its declared length without derailing the next field
    let wire = vec![
        0xf0, 0x0f, // magic
        2, 1, 7, // two protocols: Sodium and Unknown(7)
        2, // two extension fields
        0x00, 0xff, 0x00, 0x02, 0xaa, 0xbb, // unknown type, two payload bytes
        0x00, 0x01, 0x00, 0x00, // type 1, empty payload
    ];
    let packet = SessionHandshake::parse(wire.as_slice()).unwrap();
    assert_eq!(
        packet.supported_protocols,
        vec![CryptoProtocol::Sodium, CryptoProtocol::Unknown(7)]
    );
    assert!(packet.supported_protocols[1].is_unknown());
    assert!(!packet.supported_protocols[0].is_unknown());
    assert_eq!(packet.extensions[0].field_type, 0x00ff);
    assert_eq!(packet.extensions[0].payload, vec![0xaa, 0xbb]);
    assert_eq!(packet.extensions[1].field_type, 1);
    assert_eq!(packet.extensions[1].payload, Vec::<u8>::new());
    // and the packet re-encodes to the same bytes
    assert_eq!(packet.encode(), wire);
}

#[test]
fn malformed_packets_are_rejected() {
    // wrong magic
    assert!(SessionHandshake::parse(&[0xf0, 0x0e, 0, 0]).is_err());
    // protocol count larger than the buffer
    assert!(SessionHandshake::parse(&[0xf0, 0x0f, 3, 1, 1]).is_err());
    // extension length runs past the end
    assert!(SessionHandshake::parse(&[0xf0, 0x0f, 0, 1, 0x00, 0x01, 0x00, 0x05, 0xaa]).is_err());
    // trailing bytes after the declared fields
    assert!(SessionHandshake::parse(&[0xf0, 0x0f, 0, 0, 0xee]).is_err());
    // truncated header
    assert!(SessionHandshake::parse(&[0xf0]).is_err());
}

#[test]
fn packet_without_extra_data_yields_invalid_data() {
    let packet = SessionHandshake {
        supported_protocols: vec![CryptoProtocol::Sodium],
        extensions: vec![ExtensionField { field_type: 9, payload: vec![1, 2, 3] }],
    };
    match packet.sodium_extra() {
        Err(HandshakeError::InvalidData) => {},
        other => panic!("expected InvalidData, got {:?}", other),
    }
}
