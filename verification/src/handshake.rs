//! Session handshake: packet framing and the signature-authenticated
//! key-exchange extra data.
//!
//! Packet wire format: `u16 magic 0xf00f | u8 n | n x u8 protocol id |
//! u8 m | m x (u16 field type | u16 length | payload)`, all integers
//! big-endian.  Unknown protocol ids are preserved as `Unknown`, and an
//! unrecognized extension field is carried through unchanged, skipped
//! over by its declared length.
//!
//! The type-1 extension carries the sender's long-term public signing
//! key followed by the signed-message form of its ephemeral key-exchange
//! public key: accepting it proves that the holder of the signing key
//! vouches for the exchange key.  It does not by itself prove that the
//! signing key belongs to an expected node identifier; callers must
//! check the received key against the identifier they meant to reach.

use vstd::prelude::*;
use vstd::slice::slice_to_vec;

use crate::crypto::{
    signed_message_of, sign_keypair_of_seed, verify_attached, sign_attached, authentic_extra,
    attached_verifies,
};

verus! {

/// One supported cryptography protocol; an unrecognized identifier is
/// preserved rather than rejected, for forward compatibility.
#[derive(Clone, Copy, Debug, PartialEq, Eq, Structural)]
pub enum CryptoProtocol {
    /// The libsodium-based session protocol, identifier 1.
    Sodium,
    /// Any identifier outside the known set, carried unchanged.
    Unknown(u8),
}

/// The wire identifier of a protocol.
pub open spec fn proto_byte(p: CryptoProtocol) -> u8 {
    match p {
        CryptoProtocol::Sodium => 1,
        CryptoProtocol::Unknown(b) => b,
    }
}

/// The protocol a wire identifier denotes.
pub open spec fn proto_of_byte(b: u8) -> CryptoProtocol {
    if b == 1 {
        CryptoProtocol::Sodium
    } else {
        CryptoProtocol::Unknown(b)
    }
}

/// Parsing never yields `Unknown` with a known identifier.
pub open spec fn proto_wf(p: CryptoProtocol) -> bool {
    p matches CryptoProtocol::Unknown(b) ==> b != 1
}

impl CryptoProtocol {
    /// True exactly when the protocol identifier is outside the known set.
    pub fn is_unknown(&self) -> (r: bool)
        ensures
            r == (*self is Unknown),
    {
        match *self {
            CryptoProtocol::Unknown(_) => true,
            _ => false,
        }
    }
}

/// One tagged extension field: a 16-bit field-type identifier and its
/// opaque payload.
#[derive(Debug, Clone)]
pub struct ExtensionField {
    /// Identifier of the field type.
    pub field_type: u16,
    /// Opaque content of the field.
    pub payload: Vec<u8>,
}

/// Mathematical value of an extension field.
#[verifier::ext_equal]
pub struct ExtV {
    pub field_type: u16,
    pub payload: Seq<u8>,
}

impl View for ExtensionField {
    type V = ExtV;

    open spec fn view(&self) -> ExtV {
        ExtV { field_type: self.field_type, payload: self.payload@ }
    }
}

/// A handshake packet: the advertised protocols and the extension fields.
#[derive(Debug, Clone)]
pub struct SessionHandshake {
    /// Cryptography protocols the sender supports, in wire order.
    pub supported_protocols: Vec<CryptoProtocol>,
    /// Tagged extension fields, in wire order; unrecognized fields are
    /// preserved.
    pub extensions: Vec<ExtensionField>,
}

/// Mathematical value of a handshake packet.
#[verifier::ext_equal]
pub struct HandshakeV {
    pub protocols: Seq<CryptoProtocol>,
    pub extensions: Seq<ExtV>,
}

/// Views of an extension vector.
pub open spec fn eviews(s: Seq<ExtensionField>) -> Seq<ExtV> {
    s.map_values(|e: ExtensionField| e@)
}

impl View for SessionHandshake {
    type V = HandshakeV;

    open spec fn view(&self) -> HandshakeV {
        HandshakeV { protocols: self.supported_protocols@, extensions: eviews(self.extensions@) }
    }
}

/// Error that can be sent to another node when a wire exchange breaks off.
#[derive(Clone, Copy, Debug, PartialEq, Eq, Structural)]
pub enum ProtocolError {
    /// The stream ended in the middle of a frame.
    UnexpectedEof,
}

pub type ProtocolResult<T> = Result<T, ProtocolError>;

/// Errors of the handshake protocol.
#[derive(Clone, Copy, Debug, PartialEq, Eq, Structural)]
pub enum HandshakeError {
    /// The signature over the exchange key does not verify.
    WrongSignature,
    /// Bytes that do not form a valid packet or key.
    InvalidData,
    /// The extra-data payload is shorter than one public key plus one
    /// signed exchange key.
    SodiumExtraDataToShort,
}

pub type HandshakeResult<T> = Result<T, HandshakeError>;

// ---------------------------------------------------------------------
// Packet encoding
// ---------------------------------------------------------------------

/// Big-endian bytes of a 16-bit value.
pub open spec fn be16(n: u16) -> Seq<u8> {
    seq![(n / 256) as u8, (n % 256) as u8]
}

/// Wire identifiers of a protocol list.
pub open spec fn proto_bytes(s: Seq<CryptoProtocol>) -> Seq<u8> {
    s.map_values(|p: CryptoProtocol| proto_byte(p))
}

/// Encoding of one extension field: type, length, payload.
pub open spec fn enc_ext(e: ExtV) -> Seq<u8> {
    be16(e.field_type) + be16(e.payload.len() as u16) + e.payload
}

pub open spec fn concat_exts(s: Seq<ExtV>) -> Seq<u8>
    decreases s.len(),
{
    if s.len() == 0 {
        Seq::empty()
    } else {
        enc_ext(s[0]) + concat_exts(s.skip(1))
    }
}

/// Encoding of a whole packet.
pub open spec fn enc_packet(h: HandshakeV) -> Seq<u8> {
    seq![0xf0u8, 0x0fu8, h.protocols.len() as u8] + proto_bytes(h.protocols) + seq![
        h.extensions.len() as u8,
    ] + concat_exts(h.extensions)
}

/// Counts and payload lengths fit their wire fields.
pub open spec fn hs_bounded(h: HandshakeV) -> bool {
    &&& h.protocols.len() <= 255
    &&& h.extensions.len() <= 255
    &&& forall|k: int| 0 <= k < h.extensions.len() ==> (#[trigger] h.extensions[k]).payload.len()
        <= 0xffff
}

/// A well-formed packet value: bounded, with canonical protocol values.
pub open spec fn hs_wf(h: HandshakeV) -> bool {
    hs_bounded(h) && forall|k: int| 0 <= k < h.protocols.len() ==> proto_wf(
        #[trigger] h.protocols[k],
    )
}

// ---------------------------------------------------------------------
// Packet parsing (specification)
// ---------------------------------------------------------------------

/// Reads `n` protocol identifier bytes at `i`.
pub open spec fn parse_protos(b: Seq<u8>, i: int, n: int, acc: Seq<CryptoProtocol>) -> Option<
    (Seq<CryptoProtocol>, int),
>
    decreases n,
{
    if n <= 0 {
        Some((acc, i))
    } else if !(0 <= i < b.len()) {
        None
    } else {
        parse_protos(b, i + 1, n - 1, acc.push(proto_of_byte(b[i])))
    }
}

/// Reads `n` extension fields at `i`, each skipped by its declared length.
pub open spec fn parse_exts(b: Seq<u8>, i: int, n: int, acc: Seq<ExtV>) -> Option<(Seq<ExtV>, int)>
    decreases n,
{
    if n <= 0 {
        Some((acc, i))
    } else if !(0 <= i && i + 4 <= b.len()) {
        None
    } else {
        let t = (b[i] as u16) * 256 + (b[i + 1] as u16);
        let l = (b[i + 2] as int) * 256 + (b[i + 3] as int);
        if i + 4 + l <= b.len() {
            parse_exts(
                b,
                i + 4 + l,
                n - 1,
                acc.push(ExtV { field_type: t as u16, payload: b.subrange(i + 4, i + 4 + l) }),
            )
        } else {
            None
        }
    }
}

/// Strict parsing of a whole packet: magic number, protocol list,
/// extension list, nothing else.
pub open spec fn parse_packet(b: Seq<u8>) -> Option<HandshakeV> {
    if b.len() >= 3 && b[0] == 0xf0 && b[1] == 0x0f {
        match parse_protos(b, 3, b[2] as int, Seq::empty()) {
            Some((protocols, j)) => {
                if j < b.len() {
                    match parse_exts(b, j + 1, b[j] as int, Seq::empty()) {
                        Some((extensions, k)) => {
                            if k == b.len() {
                                Some(HandshakeV { protocols, extensions })
                            } else {
                                None
                            }
                        },
                        None => None,
                    }
                } else {
                    None
                }
            },
            None => None,
        }
    } else {
        None
    }
}

// ---------------------------------------------------------------------
// Packet round trip
// ---------------------------------------------------------------------

proof fn lemma_parse_protos_frame(b: Seq<u8>, i: int, ps: Seq<CryptoProtocol>, acc: Seq<
    CryptoProtocol,
>)
    requires
        forall|k: int| 0 <= k < ps.len() ==> proto_wf(#[trigger] ps[k]),
        0 <= i,
        i + ps.len() <= b.len(),
        b.subrange(i, i + ps.len()) == proto_bytes(ps),
    ensures
        parse_protos(b, i, ps.len() as int, acc) == Some((acc + ps, i + ps.len())),
    decreases ps.len(),
{
    if ps.len() == 0 {
        assert(acc + ps =~= acc);
    } else {
        crate::der::lemma_subrange_index(b, i, proto_bytes(ps), 0);
        assert(b[i] == proto_byte(ps[0]));
        assert(proto_of_byte(b[i]) == ps[0]);
        crate::der::lemma_subrange_shift(b, i, proto_bytes(ps), 1, ps.len() as int);
        assert(proto_bytes(ps).subrange(1, ps.len() as int) =~= proto_bytes(ps.skip(1)));
        lemma_parse_protos_frame(b, i + 1, ps.skip(1), acc.push(ps[0]));
        assert(acc.push(ps[0]) + ps.skip(1) =~= acc + ps);
    }
}

proof fn lemma_parse_exts_frame(b: Seq<u8>, i: int, es: Seq<ExtV>, acc: Seq<ExtV>)
    requires
        forall|k: int| 0 <= k < es.len() ==> (#[trigger] es[k]).payload.len() <= 0xffff,
        0 <= i,
        i + concat_exts(es).len() <= b.len(),
        b.subrange(i, i + concat_exts(es).len()) == concat_exts(es),
    ensures
        parse_exts(b, i, es.len() as int, acc) == Some((acc + es, i + concat_exts(es).len())),
    decreases es.len(),
{
    if es.len() == 0 {
        assert(acc + es =~= acc);
    } else {
        let e = es[0];
        let ee = enc_ext(e);
        let c = concat_exts(es);
        assert(c == ee + concat_exts(es.skip(1)));
        crate::der::lemma_subrange_index(b, i, c, 0);
        crate::der::lemma_subrange_index(b, i, c, 1);
        crate::der::lemma_subrange_index(b, i, c, 2);
        crate::der::lemma_subrange_index(b, i, c, 3);
        assert(b[i] == (e.field_type / 256) as u8);
        assert(b[i + 1] == (e.field_type % 256) as u8);
        assert(b[i + 2] == ((e.payload.len() as u16) / 256) as u8);
        assert(b[i + 3] == ((e.payload.len() as u16) % 256) as u8);
        assert((b[i] as u16) * 256 + (b[i + 1] as u16) == e.field_type);
        assert((b[i + 2] as int) * 256 + (b[i + 3] as int) == e.payload.len());
        crate::der::lemma_subrange_shift(b, i, c, 4, 4 + e.payload.len() as int);
        assert(c.subrange(4, 4 + e.payload.len() as int) =~= e.payload);
        assert(ExtV { field_type: e.field_type, payload: b.subrange(i + 4, i + 4 + e.payload.len())
        } =~= e);
        crate::der::lemma_subrange_shift(b, i, c, ee.len() as int, c.len() as int);
        assert(c.subrange(ee.len() as int, c.len() as int) =~= concat_exts(es.skip(1)));
        lemma_parse_exts_frame(b, i + 4 + e.payload.len(), es.skip(1), acc.push(e));
        assert(acc.push(e) + es.skip(1) =~= acc + es);
    }
}

/// Round-trip law: parsing the encoding of any well-formed packet yields
/// exactly that packet.  This covers packets advertising unknown
/// protocol identifiers and carrying extension fields of unrecognized
/// types: both are preserved, never rejected.
pub proof fn lemma_packet_round_trip(h: HandshakeV)
    requires
        hs_wf(h),
    ensures
        parse_packet(enc_packet(h)) == Some(h),
{
    let b = enc_packet(h);
    let pb = proto_bytes(h.protocols);
    let ce = concat_exts(h.extensions);
    assert(b[0] == 0xf0 && b[1] == 0x0f && b[2] == h.protocols.len() as u8);
    assert(b.subrange(3, 3 + pb.len() as int) =~= pb);
    lemma_parse_protos_frame(b, 3, h.protocols, Seq::empty());
    assert(Seq::empty() + h.protocols =~= h.protocols);
    let j = 3 + pb.len() as int;
    assert(b[j] == h.extensions.len() as u8);
    assert(b.subrange(j + 1, j + 1 + ce.len() as int) =~= ce);
    lemma_parse_exts_frame(b, j + 1, h.extensions, Seq::empty());
    assert(Seq::empty() + h.extensions =~= h.extensions);
    assert(pb.len() == h.protocols.len());
    assert(HandshakeV { protocols: h.protocols, extensions: h.extensions } =~= h);
}

// ---------------------------------------------------------------------
// Packet encoding and parsing (executable)
// ---------------------------------------------------------------------

impl SessionHandshake {
    /// A well-formed packet value: bounded counts, canonical protocols.
    pub open spec fn wf(&self) -> bool {
        hs_wf(self@)
    }

    /// Serializes the packet for the wire.
    pub fn encode(&self) -> (r: Vec<u8>)
        requires
            hs_bounded(self@),
        ensures
            r@ == enc_packet(self@),
    {
        let mut r: Vec<u8> = Vec::new();
        r.push(0xf0);
        r.push(0x0f);
        r.push(self.supported_protocols.len() as u8);
        let mut k: usize = 0;
        while k < self.supported_protocols.len()
            invariant
                k <= self@.protocols.len(),
                hs_bounded(self@),
                r@ == seq![0xf0u8, 0x0fu8, self@.protocols.len() as u8] + proto_bytes(
                    self@.protocols.take(k as int),
                ),
            decreases self@.protocols.len() - k,
        {
            let byte = match self.supported_protocols[k] {
                CryptoProtocol::Sodium => 1u8,
                CryptoProtocol::Unknown(v) => v,
            };
            r.push(byte);
            proof {
                assert(proto_bytes(self@.protocols.take(k + 1 as int)) =~= proto_bytes(
                    self@.protocols.take(k as int),
                ).push(proto_byte(self@.protocols[k as int])));
            }
            k = k + 1;
        }
        proof {
            assert(self@.protocols.take(self@.protocols.len() as int) =~= self@.protocols);
        }
        r.push(self.extensions.len() as u8);
        let ghost head = r@;
        let mut k2: usize = 0;
        while k2 < self.extensions.len()
            invariant
                k2 <= self@.extensions.len(),
                hs_bounded(self@),
                self@.extensions.len() == self.extensions@.len(),
                r@ == head + concat_exts(self@.extensions.take(k2 as int)),
            decreases self@.extensions.len() - k2,
        {
            let e = &self.extensions[k2];
            proof {
                assert(self@.extensions[k2 as int] == self.extensions@[k2 as int]@);
            }
            let t = e.field_type;
            let l = e.payload.len() as u16;
            r.push((t / 256) as u8);
            r.push((t % 256) as u8);
            r.push((l / 256) as u8);
            r.push((l % 256) as u8);
            let mut p = e.payload.clone();
            r.append(&mut p);
            proof {
                lemma_concat_exts_snoc(self@.extensions, k2 as int);
                assert(r@ =~= head + concat_exts(self@.extensions.take(k2 + 1 as int)));
            }
            k2 = k2 + 1;
        }
        proof {
            assert(self@.extensions.take(self@.extensions.len() as int) =~= self@.extensions);
            assert(r@ =~= enc_packet(self@));
        }
        r
    }

    /// Parses a wire packet; unknown protocol identifiers and unknown
    /// extension-field types are preserved, not rejected.
    pub fn parse(bytes: &[u8]) -> (r: HandshakeResult<SessionHandshake>)
        ensures
            match r {
                Ok(h) => parse_packet(bytes@) == Some(h@) && hs_wf(h@),
                Err(e) => parse_packet(bytes@) is None && e is InvalidData,
            },
    {
        if bytes.len() < 3 || bytes[0] != 0xf0 || bytes[1] != 0x0f {
            return Err(HandshakeError::InvalidData);
        }
        let n = bytes[2] as usize;
        let mut protocols: Vec<CryptoProtocol> = Vec::new();
        let mut i: usize = 3;
        let mut c: usize = 0;
        proof {
            assert(protocols@ =~= Seq::<CryptoProtocol>::empty());
        }
        while c < n
            invariant
                c <= n <= 255,
                3 <= i <= bytes@.len(),
                bytes@.len() >= 3 && bytes@[0] == 0xf0 && bytes@[1] == 0x0f,
                n == bytes@[2] as usize,
                forall|k: int| 0 <= k < protocols@.len() ==> proto_wf(#[trigger] protocols@[k]),
                protocols@.len() <= c,
                parse_protos(bytes@, 3, n as int, Seq::empty()) == parse_protos(
                    bytes@,
                    i as int,
                    n - c,
                    protocols@,
                ),
            decreases n - c,
        {
            if i >= bytes.len() {
                return Err(HandshakeError::InvalidData);
            }
            let byte = bytes[i];
            let p = if byte == 1 {
                CryptoProtocol::Sodium
            } else {
                CryptoProtocol::Unknown(byte)
            };
            protocols.push(p);
            i = i + 1;
            c = c + 1;
        }
        if i >= bytes.len() {
            return Err(HandshakeError::InvalidData);
        }
        let m = bytes[i] as usize;
        let ghost protos_done = protocols@;
        let mut extensions: Vec<ExtensionField> = Vec::new();
        let mut j: usize = i + 1;
        let mut c2: usize = 0;
        proof {
            assert(eviews(extensions@) =~= Seq::<ExtV>::empty());
        }
        while c2 < m
            invariant
                c2 <= m <= 255,
                j <= bytes@.len(),
                bytes@.len() >= 3 && bytes@[0] == 0xf0 && bytes@[1] == 0x0f,
                n == bytes@[2] as usize,
                3 <= i < bytes@.len(),
                m == bytes@[i as int] as usize,
                parse_protos(bytes@, 3, n as int, Seq::empty()) == Some(
                    (protos_done, i as int),
                ),
                protos_done.len() <= 255,
                forall|k: int| 0 <= k < protos_done.len() ==> proto_wf(#[trigger] protos_done[k]),
                protocols@ == protos_done,
                extensions@.len() <= c2,
                forall|k: int| 0 <= k < eviews(extensions@).len() ==> (#[trigger] eviews(
                    extensions@,
                )[k]).payload.len() <= 0xffff,
                parse_exts(bytes@, i + 1 as int, m as int, Seq::empty()) == parse_exts(
                    bytes@,
                    j as int,
                    m - c2,
                    eviews(extensions@),
                ),
            decreases m - c2,
        {
            if bytes.len() - j < 4 {
                return Err(HandshakeError::InvalidData);
            }
            let t = (bytes[j] as u16) * 256 + (bytes[j + 1] as u16);
            let l = (bytes[j + 2] as usize) * 256 + (bytes[j + 3] as usize);
            if l > bytes.len() - (j + 4) {
                return Err(HandshakeError::InvalidData);
            }
            let payload = slice_to_vec(&bytes[j + 4..j + 4 + l]);
            let ghost old_exts = eviews(extensions@);
            extensions.push(ExtensionField { field_type: t, payload });
            proof {
                assert(eviews(extensions@) =~= old_exts.push(
                    ExtV {
                        field_type: t,
                        payload: bytes@.subrange(j + 4 as int, j + 4 + l as int),
                    },
                ));
            }
            j = j + 4 + l;
            c2 = c2 + 1;
        }
        if j != bytes.len() {
            return Err(HandshakeError::InvalidData);
        }
        let r = SessionHandshake { supported_protocols: protocols, extensions };
        proof {
            assert(r@ =~= HandshakeV { protocols: protos_done, extensions: eviews(r.extensions@) });
        }
        Ok(r)
    }
}

proof fn lemma_concat_exts_snoc(s: Seq<ExtV>, k: int)
    requires
        0 <= k < s.len(),
    ensures
        concat_exts(s.take(k + 1)) == concat_exts(s.take(k)) + enc_ext(s[k]),
    decreases k,
{
    if k == 0 {
        assert(s.take(1) =~= seq![s[0]]);
        assert(seq![s[0]].skip(1) =~= Seq::<ExtV>::empty());
        assert(s.take(0) =~= Seq::<ExtV>::empty());
        assert(concat_exts(s.take(k + 1)) =~= concat_exts(s.take(k)) + enc_ext(s[k]));
    } else {
        lemma_concat_exts_snoc(s.skip(1), k - 1);
        assert(s.take(k + 1)[0] == s[0]);
        assert(s.take(k)[0] == s[0]);
        assert(s.take(k + 1).skip(1) =~= s.skip(1).take(k));
        assert(s.take(k).skip(1) =~= s.skip(1).take(k - 1));
        assert(s.skip(1)[k - 1] == s[k]);
        assert(concat_exts(s.take(k + 1)) =~= concat_exts(s.take(k)) + enc_ext(s[k]));
    }
}

// ---------------------------------------------------------------------
// The type-1 extension: signed key-exchange key
// ---------------------------------------------------------------------

/// The parsed payload of the type-1 extension: a long-term public
/// signing key and an ephemeral key-exchange public key.  On the wire
/// the signing key is followed by the signed-message form of the
/// exchange key; a parsed value exists only after that signature has
/// been verified.
#[derive(Debug, Clone)]
pub struct SessionHandshakeSodiumExtraData {
    /// The sender's long-term Ed25519 public signing key, 32 bytes.
    pub signing_pk: Vec<u8>,
    /// The sender's ephemeral key-exchange public key, 32 bytes.
    pub session_pk: Vec<u8>,
}

impl SessionHandshakeSodiumExtraData {
    /// Both keys have their fixed lengths.
    pub open spec fn wf(&self) -> bool {
        self.signing_pk@.len() == 32 && self.session_pk@.len() == 32
    }

    /// Pairs a long-term signing key with a fresh exchange key.
    pub fn new(signing_pk: &[u8], session_pk: Vec<u8>) -> (r: SessionHandshakeSodiumExtraData)
        ensures
            r.signing_pk@ == signing_pk@,
            r.session_pk@ == session_pk@,
    {
        SessionHandshakeSodiumExtraData { signing_pk: slice_to_vec(signing_pk), session_pk }
    }

    /// Serializes the extra data for the wire: the signing key followed
    /// by the signed-message form of the exchange key under `secret`.
    pub fn sign_and_serialize(&self, secret: &[u8]) -> (r: Vec<u8>)
        requires
            self.wf(),
            secret@.len() == 64,
        ensures
            r@ == self.signing_pk@ + signed_message_of(self.session_pk@, secret@),
            r@.len() == 128,
    {
        let mut out = self.signing_pk.clone();
        let mut sm = sign_attached(self.session_pk.as_slice(), secret);
        out.append(&mut sm);
        out
    }

    /// Parses and authenticates a wire payload: splits off the leading
    /// signing key, verifies the signature over the embedded exchange
    /// key with it, and yields the verified pair.
    ///
    /// A payload assembled from a seed-derived keypair and a 32-byte
    /// exchange key is always accepted and yields exactly those keys;
    /// a payload shorter than one key plus one signed key is rejected
    /// as too short, a failed signature as `WrongSignature`, and an
    /// embedded message that is not a 32-byte key as `InvalidData`.
    pub fn try_from(value: &[u8]) -> (r: HandshakeResult<SessionHandshakeSodiumExtraData>)
        ensures
            value@.len() < 128 <==> (r matches Err(e) && e is SodiumExtraDataToShort),
            r is Ok <==> value@.len() == 128 && attached_verifies(
                value@.skip(32),
                value@.take(32),
            ),
            r matches Err(e) ==> (e is WrongSignature <==> value@.len() >= 128
                && !attached_verifies(value@.skip(32), value@.take(32))),
            r matches Err(e) ==> (e is InvalidData <==> value@.len() > 128 && attached_verifies(
                value@.skip(32),
                value@.take(32),
            )),
            r matches Ok(d) ==> {
                &&& d.wf()
                &&& value@.len() == 128
                &&& d.signing_pk@ == value@.take(32)
                &&& d.session_pk@ == value@.skip(96)
            },
            forall|kx: Seq<u8>|
                (value@.len() == 128 && kx.len() == 32 && #[trigger] authentic_extra(
                    value@.skip(32),
                    value@.take(32),
                    kx,
                )) ==> (r matches Ok(d) && d.signing_pk@ == value@.take(32) && d.session_pk@
                    == kx),
    {
        if value.len() < 128 {
            return Err(HandshakeError::SodiumExtraDataToShort);
        }
        let signing_key = &value[0..32];
        let rest = &value[32..value.len()];
        proof {
            assert(rest@ =~= value@.skip(32));
            assert(signing_key@ =~= value@.take(32));
        }
        match verify_attached(rest, signing_key) {
            None => Err(HandshakeError::WrongSignature),
            Some(m) => {
                if m.len() != 32 {
                    Err(HandshakeError::InvalidData)
                } else {
                    let d = SessionHandshakeSodiumExtraData {
                        signing_pk: slice_to_vec(signing_key),
                        session_pk: m,
                    };
                    proof {
                        assert(d.session_pk@ =~= value@.skip(96));
                    }
                    Ok(d)
                }
            },
        }
    }
}

/// The wire field-type identifier of the signed key-exchange extension.
pub open spec fn sodium_extra_field_type() -> u16 {
    1
}

/// The payload of the first type-1 extension of a packet, if any.
pub open spec fn first_sodium_payload(exts: Seq<ExtV>) -> Option<Seq<u8>>
    decreases exts.len(),
{
    if exts.len() == 0 {
        None
    } else if exts[0].field_type == sodium_extra_field_type() {
        Some(exts[0].payload)
    } else {
        first_sodium_payload(exts.skip(1))
    }
}

impl SessionHandshake {
    /// Builds the outgoing handshake packet of the sending side: it
    /// advertises support for the libsodium protocol and carries one
    /// type-1 extension holding the signing key and the signed exchange
    /// key.
    pub fn build_sodium(extra: &SessionHandshakeSodiumExtraData, secret: &[u8]) -> (r:
        SessionHandshake)
        requires
            extra.wf(),
            secret@.len() == 64,
        ensures
            r@.protocols == seq![CryptoProtocol::Sodium],
            r@.extensions.len() == 1,
            r@.extensions[0].field_type == sodium_extra_field_type(),
            r@.extensions[0].payload == extra.signing_pk@ + signed_message_of(
                extra.session_pk@,
                secret@,
            ),
            hs_wf(r@),
    {
        let payload = extra.sign_and_serialize(secret);
        let mut supported_protocols: Vec<CryptoProtocol> = Vec::new();
        supported_protocols.push(CryptoProtocol::Sodium);
        let mut extensions: Vec<ExtensionField> = Vec::new();
        extensions.push(ExtensionField { field_type: 1, payload });
        let r = SessionHandshake { supported_protocols, extensions };
        proof {
            assert(r@.protocols =~= seq![CryptoProtocol::Sodium]);
            assert(r@.extensions =~= seq![r.extensions@[0]@]);
        }
        r
    }

    /// Locates the first type-1 extension of a received packet and
    /// parses and authenticates its payload: the verified keys come from
    /// exactly that payload, and an authentic payload is always
    /// accepted.  A packet without such an extension carries no usable
    /// key material and is rejected as `InvalidData`.
    pub fn sodium_extra(&self) -> (r: HandshakeResult<SessionHandshakeSodiumExtraData>)
        ensures
            first_sodium_payload(self@.extensions) is None ==> (r matches Err(e)
                && e is InvalidData),
            first_sodium_payload(self@.extensions) matches Some(p) ==> (r is Ok <==> p.len()
                == 128 && attached_verifies(p.skip(32), p.take(32))),
            first_sodium_payload(self@.extensions) matches Some(p) ==> (r matches Err(e) ==> (
            e is SodiumExtraDataToShort <==> p.len() < 128)),
            first_sodium_payload(self@.extensions) matches Some(p) ==> (r matches Err(e) ==> (
            e is WrongSignature <==> p.len() >= 128 && !attached_verifies(
                p.skip(32),
                p.take(32),
            ))),
            r matches Ok(d) ==> (first_sodium_payload(self@.extensions) matches Some(p) && {
                &&& d.wf()
                &&& p.len() == 128
                &&& d.signing_pk@ == p.take(32)
                &&& d.session_pk@ == p.skip(96)
            }),
            forall|kx: Seq<u8>|
                (first_sodium_payload(self@.extensions) is Some && first_sodium_payload(
                    self@.extensions,
                ).unwrap().len() == 128 && kx.len() == 32 && #[trigger] authentic_extra(
                    first_sodium_payload(self@.extensions).unwrap().skip(32),
                    first_sodium_payload(self@.extensions).unwrap().take(32),
                    kx,
                )) ==> (r matches Ok(d) && d.signing_pk@ == first_sodium_payload(
                    self@.extensions,
                ).unwrap().take(32) && d.session_pk@ == kx),
    {
        let ghost exts = self@.extensions;
        let mut k: usize = 0;
        proof {
            assert(exts.skip(0) =~= exts);
        }
        while k < self.extensions.len()
            invariant
                k <= self@.extensions.len(),
                exts == self@.extensions,
                self@.extensions.len() == self.extensions@.len(),
                first_sodium_payload(exts) == first_sodium_payload(exts.skip(k as int)),
            decreases self@.extensions.len() - k,
        {
            proof {
                assert(self@.extensions[k as int] == self.extensions@[k as int]@);
                assert(exts.skip(k as int)[0] == exts[k as int]);
            }
            if self.extensions[k].field_type == 1 {
                proof {
                    assert(first_sodium_payload(exts) == Some(
                        self.extensions@[k as int]@.payload,
                    ));
                }
                return SessionHandshakeSodiumExtraData::try_from(
                    self.extensions[k].payload.as_slice(),
                );
            }
            proof {
                assert(exts.skip(k as int).skip(1) =~= exts.skip(k as int + 1));
            }
            k = k + 1;
        }
        proof {
            assert(exts.skip(self@.extensions.len() as int).len() == 0);
        }
        Err(HandshakeError::InvalidData)
    }
}

/// Handshake authenticity, sender's side of the composition: the wire
/// payload built from a seed-derived signing keypair and a 32-byte
/// exchange key splits back into exactly that signing key and an
/// authentic signed message over that exchange key, so `try_from`
/// accepts it and yields the original keys.
pub proof fn lemma_extra_data_round_trip(seed: Seq<u8>, kx: Seq<u8>)
    requires
        kx.len() == 32,
        sign_keypair_of_seed(seed).0.len() == 32,
        signed_message_of(kx, sign_keypair_of_seed(seed).1).len() == 96,
    ensures
        ({
            let wire = sign_keypair_of_seed(seed).0 + signed_message_of(
                kx,
                sign_keypair_of_seed(seed).1,
            );
            &&& wire.len() == 128
            &&& wire.take(32) == sign_keypair_of_seed(seed).0
            &&& authentic_extra(wire.skip(32), wire.take(32), kx)
        }),
{
    let pk = sign_keypair_of_seed(seed).0;
    let sm = signed_message_of(kx, sign_keypair_of_seed(seed).1);
    let wire = pk + sm;
    assert(wire.take(32) =~= pk);
    assert(wire.skip(32) =~= sm);
    assert(pk == sign_keypair_of_seed(seed).0 && sm == signed_message_of(
        kx,
        sign_keypair_of_seed(seed).1,
    ));
}

} // verus!
