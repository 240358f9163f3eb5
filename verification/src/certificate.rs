//! Certificate container: binds a reachability/metadata payload to a
//! signing keypair inside a self-signed X.509 certificate, and recovers
//! the payload from an untrusted certificate.
//!
//! The payload travels in two custom extensions under the private parent
//! arc `1.3.6.1.4.1.57716.2.1`: `.1` carries the DER encoding of the
//! reachability structure and `.2` the DER encoding of the metadata.
//! The certificate itself must be signed with Ed25519
//! (`1.3.101.112`); parsing checks, in this fixed order: the
//! structure, the signature algorithm identifier, the self-signature,
//! the reachability extension, then the metadata extension.

use vstd::prelude::*;

use rcgen::{CertificateParams, CustomExtension, KeyPair, PKCS_ED25519};
use time::{Duration, OffsetDateTime, Time};

use crate::certificate::CertificateError::{GeneratingCertificate, ParseDer};

use crate::der::{bytes_cmp, Cmp};
use crate::metadata::{NodeMetadata, enc_meta, dec_meta, lemma_meta_round_trip};
use crate::reachability::{
    NodeReachabilityInformation, ReachV, enc_reach, dec_reach, reach_wf, lemma_reach_round_trip,
};

verus! {

/// Errors of certificate construction and parsing.
#[derive(Clone, Copy, Debug, PartialEq, Eq, Structural)]
pub enum CertificateError {
    /// The certificate builder failed.
    GeneratingCertificate,
    /// The private key is not a valid DER-encoded Ed25519 key.
    ParseDer,
    /// The declared signature algorithm is not the Ed25519 identifier.
    InvalidSignatureAlgorithm,
    /// The self-signature does not verify under the embedded public key.
    InvalidSignature,
    /// The bytes are not a structurally valid X.509 certificate.
    X509,
    /// The metadata extension is present but does not decode.
    DecodeNodeMetadata,
    /// The metadata extension is missing.
    MissingNodeMetadata,
    /// The reachability extension is present but does not decode.
    DecodeReachabilityInformation,
    /// The reachability extension is missing.
    MissingReachabilityInformation,
}

pub type CertificateResult<T> = Result<T, CertificateError>;

// ---------------------------------------------------------------------
// Object identifiers, as raw DER content bytes
// ---------------------------------------------------------------------

/// DER content bytes of `1.3.6.1.4.1.57716.2.1.1`, the reachability extension.
pub open spec fn reach_oid() -> Seq<u8> {
    seq![0x2bu8, 6, 1, 4, 1, 0x83, 0xc2, 0x74, 2, 1, 1]
}

/// DER content bytes of `1.3.6.1.4.1.57716.2.1.2`, the metadata extension.
pub open spec fn meta_oid() -> Seq<u8> {
    seq![0x2bu8, 6, 1, 4, 1, 0x83, 0xc2, 0x74, 2, 1, 2]
}

/// DER content bytes of `1.3.101.112`, the Ed25519 signature algorithm.
pub open spec fn ed25519_oid() -> Seq<u8> {
    seq![0x2bu8, 0x65, 0x70]
}

fn reach_oid_exec() -> (r: Vec<u8>)
    ensures
        r@ == reach_oid(),
{
    let mut v: Vec<u8> = Vec::new();
    v.push(0x2b);
    v.push(6);
    v.push(1);
    v.push(4);
    v.push(1);
    v.push(0x83);
    v.push(0xc2);
    v.push(0x74);
    v.push(2);
    v.push(1);
    v.push(1);
    proof {
        assert(v@ =~= reach_oid());
    }
    v
}

fn meta_oid_exec() -> (r: Vec<u8>)
    ensures
        r@ == meta_oid(),
{
    let mut v: Vec<u8> = Vec::new();
    v.push(0x2b);
    v.push(6);
    v.push(1);
    v.push(4);
    v.push(1);
    v.push(0x83);
    v.push(0xc2);
    v.push(0x74);
    v.push(2);
    v.push(1);
    v.push(2);
    proof {
        assert(v@ =~= meta_oid());
    }
    v
}

fn ed25519_oid_exec() -> (r: Vec<u8>)
    ensures
        r@ == ed25519_oid(),
{
    let mut v: Vec<u8> = Vec::new();
    v.push(0x2b);
    v.push(0x65);
    v.push(0x70);
    proof {
        assert(v@ =~= ed25519_oid());
    }
    v
}

// ---------------------------------------------------------------------
// The parsed shape of an untrusted certificate
// ---------------------------------------------------------------------

/// One extension of a parsed certificate: its object identifier (as raw
/// DER content bytes) and its value.
#[derive(Debug, Clone)]
pub struct ExtensionEntry {
    pub oid: Vec<u8>,
    pub value: Vec<u8>,
}

/// Mathematical values of an extension list.
pub open spec fn entry_views(s: Seq<ExtensionEntry>) -> Seq<(Seq<u8>, Seq<u8>)> {
    s.map_values(|e: ExtensionEntry| (e.oid@, e.value@))
}

/// What X.509 parsing exposes of a certificate: the signature algorithm
/// identifier, whether the self-signature verifies under the embedded
/// public key, the extension list, the validity window (as Unix
/// timestamps in seconds), and the subject public key bytes.
#[derive(Debug, Clone)]
pub struct ParsedCertificate {
    pub sig_alg_oid: Vec<u8>,
    pub self_signature_valid: bool,
    pub extensions: Vec<ExtensionEntry>,
    pub not_before: i64,
    pub not_after: i64,
    pub subject_public_key: Vec<u8>,
}

/// The result of parsing a DER buffer as an X.509 certificate: `None`
/// when the bytes are not structurally valid, otherwise the signature
/// algorithm identifier, the self-signature verdict, the extensions in
/// certificate order, the `notBefore` and `notAfter` instants as Unix
/// timestamps in seconds, and the subject public key bytes.  Parsing and
/// signature verification are deterministic functions of the bytes.
pub uninterp spec fn cert_parse(der: Seq<u8>) -> Option<
    (Seq<u8>, bool, Seq<(Seq<u8>, Seq<u8>)>, i64, i64, Seq<u8>),
>;

/// First extension value carrying the given object identifier.
pub open spec fn ext_lookup(s: Seq<(Seq<u8>, Seq<u8>)>, oid: Seq<u8>) -> Option<Seq<u8>>
    decreases s.len(),
{
    if s.len() == 0 {
        None
    } else if s[0].0 == oid {
        Some(s[0].1)
    } else {
        ext_lookup(s.skip(1), oid)
    }
}

/// Relies on x509-parser `parse_x509_certificate` and
/// `X509Certificate::verify_signature` (backed by ring): structural
/// parsing of the DER certificate, and verification of its
/// self-signature against its own embedded public key.
#[verifier::external_body]
fn parse_certificate(der: &[u8]) -> (r: Option<ParsedCertificate>)
    ensures
        r is Some <==> cert_parse(der@) is Some,
        r matches Some(c) ==> cert_parse(der@) matches Some(t) && c.sig_alg_oid@ == t.0
            && c.self_signature_valid == t.1 && entry_views(c.extensions@) == t.2 && c.not_before
            == t.3 && c.not_after == t.4 && c.subject_public_key@ == t.5,
{
    match x509_parser::parse_x509_certificate(der) {
        Ok((_, cert)) => Some(ParsedCertificate {
            sig_alg_oid: cert.signature_algorithm.algorithm.as_bytes().to_vec(),
            self_signature_valid: cert.verify_signature(None).is_ok(),
            not_before: cert.validity.not_before.timestamp(),
            not_after: cert.validity.not_after.timestamp(),
            subject_public_key: cert.subject_pki.subject_public_key.data.to_vec(),
            extensions: cert.tbs_certificate.extensions().iter().map(
                |e| ExtensionEntry { oid: e.oid.as_bytes().to_vec(), value: e.value.to_vec() },
            ).collect(),
        }),
        Err(_) => None,
    }
}

/// The DER certificate `der` carries the Ed25519 algorithm identifier, a
/// valid self-signature, the two payload extensions with exactly the
/// given contents, and a validity window that starts on a day boundary
/// (00:00 UTC) and ends exactly seven days later.
pub open spec fn built_cert_ok(der: Seq<u8>, reach: Seq<u8>, meta: Seq<u8>) -> bool {
    match cert_parse(der) {
        Some(t) => {
            &&& t.0 == ed25519_oid()
            &&& t.1 == true
            &&& ext_lookup(t.2, reach_oid()) == Some(reach)
            &&& ext_lookup(t.2, meta_oid()) == Some(meta)
            &&& t.3 % 86400 == 0
            &&& t.4 == t.3 + 7 * 86400
        },
        None => false,
    }
}

/// The public half of a PKCS#8 DER document that rcgen's
/// `KeyPair::from_der_and_sign_algo` (backed by ring's Ed25519 PKCS#8
/// parsing) accepts as an Ed25519 private key; `None` when it rejects
/// the bytes.  A deterministic function of the key bytes.
pub uninterp spec fn ed25519_pkcs8_public_key(key_der: Seq<u8>) -> Option<Seq<u8>>;

/// Relies on rcgen (`CertificateParams`, `CustomExtension::from_oid_content`,
/// `KeyPair::from_der_and_sign_algo`, `CertificateParams::self_signed`,
/// `Certificate::der`): builds a self-signed X.509 certificate whose
/// validity window starts at the current day (00:00 UTC) and ends seven
/// days later, signed with Ed25519 by the given PKCS#8 DER key, carrying
/// the two given extension contents under their private object
/// identifiers; and on x509-parser recovering exactly those fields from
/// the produced DER.  The key's public half becomes the certificate's
/// subject public key.  A key that is not a valid DER-encoded Ed25519
/// key is rejected as `ParseDer`; any builder failure is
/// `GeneratingCertificate`.
#[verifier::external_body]
fn build_signed_certificate(reach: &Vec<u8>, meta: &Vec<u8>, key_der: &[u8]) -> (r: Result<
    Vec<u8>,
    CertificateError,
>)
    ensures
        r matches Ok(c) ==> built_cert_ok(c@, reach@, meta@),
        r matches Ok(c) ==> ed25519_pkcs8_public_key(key_der@) matches Some(pk) && cert_parse(c@)
            matches Some(t) && t.5 == pk,
        r is Ok ==> ed25519_pkcs8_public_key(key_der@) is Some,
        r matches Err(e) ==> (e == CertificateError::ParseDer || e
            == CertificateError::GeneratingCertificate),
        r matches Err(e) && e == CertificateError::GeneratingCertificate
            ==> ed25519_pkcs8_public_key(key_der@) is Some,
{
    let parsed = key_der.try_into().map_err(|_| ParseDer)?;
    let key = KeyPair::from_der_and_sign_algo(&parsed, &PKCS_ED25519).map_err(|_| ParseDer)?;
    let mut p = CertificateParams::default();
    p.not_before = OffsetDateTime::now_utc().replace_time(Time::MIDNIGHT);
    p.not_after = p.not_before.saturating_add(Duration::days(7));
    let mut arc = [1, 3, 6, 1, 4, 1, 57716, 2, 1, 1];
    p.custom_extensions.push(CustomExtension::from_oid_content(&arc, reach.clone()));
    arc[9] = 2;
    p.custom_extensions.push(CustomExtension::from_oid_content(&arc, meta.clone()));
    let cert = p.self_signed(&key).map_err(|_| GeneratingCertificate)?;
    Ok(cert.der().to_vec())
}

/// The textual rendering of a DER certificate: a Base64 block under a
/// `CERTIFICATE` label, a function of the bytes alone.
pub uninterp spec fn pem_text_of(der: Seq<u8>) -> Seq<char>;

/// What pem's `parse` recovers from a text: the contents of the block,
/// or `None` when the text is not a well-formed block.  A deterministic
/// function of the text.
pub uninterp spec fn pem_contents_of(text: Seq<char>) -> Option<Seq<u8>>;

/// Relies on pem `encode`, `Pem::new` and `parse`: the rendering is a
/// `CERTIFICATE`-labelled block whose Base64 body `parse` decodes back
/// to exactly the input bytes, so the rendering is lossless.
#[verifier::external_body]
fn pem_encode(der: &Vec<u8>) -> (r: String)
    ensures
        r@ == pem_text_of(der@),
        pem_contents_of(r@) == Some(der@),
        r@.len() >= 27 && r@.take(27) == "-----BEGIN CERTIFICATE-----"@,
{
    pem::encode(&pem::Pem::new("CERTIFICATE", der.clone()))
}

// ---------------------------------------------------------------------
// The trust container
// ---------------------------------------------------------------------

/// An opaque, already-signed certificate in canonical DER bytes, with a
/// lossless textual rendering for configuration files.  Comparable by
/// byte content for deduplication.
#[derive(Debug, Clone)]
pub struct RawCertificate {
    pub(crate) encoded_der: Vec<u8>,
}

impl View for RawCertificate {
    type V = Seq<u8>;

    closed spec fn view(&self) -> Seq<u8> {
        self.encoded_der@
    }
}

impl RawCertificate {
    /// Wraps already-encoded certificate bytes.
    pub fn from_der(encoded_der: Vec<u8>) -> (r: RawCertificate)
        ensures
            r@ == encoded_der@,
    {
        RawCertificate { encoded_der }
    }

    /// The canonical DER bytes.
    pub fn der(&self) -> (r: &[u8])
        ensures
            r@ == self@,
    {
        self.encoded_der.as_slice()
    }

    /// The textual rendering for configuration files: a lossless
    /// `CERTIFICATE`-labelled block holding exactly the DER bytes.
    pub fn pem(&self) -> (r: String)
        ensures
            r@ == pem_text_of(self@),
            pem_contents_of(r@) == Some(self@),
            r@.len() >= 27 && r@.take(27) == "-----BEGIN CERTIFICATE-----"@,
    {
        pem_encode(&self.encoded_der)
    }

    /// Total order by byte content, for deduplication.
    pub fn le(&self, other: &RawCertificate) -> (r: bool)
        ensures
            r <==> (self@ == other@ || crate::der::bytes_lt(self@, other@)),
    {
        match bytes_cmp(self.encoded_der.as_slice(), other.encoded_der.as_slice()) {
            Cmp::Gt => false,
            _ => true,
        }
    }
}

impl PartialEq for RawCertificate {
    /// Equality of the certificate bytes.
    fn eq(&self, other: &Self) -> (r: bool) {
        let r = bytes_cmp(self.encoded_der.as_slice(), other.encoded_der.as_slice()) == Cmp::Eq;
        proof {
            if r {
                assert(self@ =~= other@);
            }
        }
        r
    }
}

impl vstd::std_specs::cmp::PartialEqSpecImpl for RawCertificate {
    open spec fn obeys_eq_spec() -> bool {
        true
    }

    open spec fn eq_spec(&self, other: &Self) -> bool {
        self@ == other@
    }
}

/// The payload to be certified: one reachability structure and one
/// metadata structure.  Equality is structural over both.
#[derive(Debug, Clone)]
pub struct CertificateData {
    pub reachability: NodeReachabilityInformation,
    pub metadata: NodeMetadata,
}

/// Mathematical value of a certificate payload.
#[verifier::ext_equal]
pub struct CertV {
    pub reach: ReachV,
    pub meta: NodeMetadata,
}

impl View for CertificateData {
    type V = CertV;

    open spec fn view(&self) -> CertV {
        CertV { reach: self.reachability@, meta: self.metadata }
    }
}

impl PartialEq for CertificateData {
    /// Structural equality over the mathematical value.
    fn eq(&self, other: &Self) -> (r: bool) {
        let r1 = self.reachability == other.reachability;
        let r2 = self.metadata == other.metadata;
        proof {
            if r1 && r2 {
                assert(self@ =~= other@);
            }
        }
        r1 && r2
    }
}

impl vstd::std_specs::cmp::PartialEqSpecImpl for CertificateData {
    open spec fn obeys_eq_spec() -> bool {
        true
    }

    open spec fn eq_spec(&self, other: &Self) -> bool {
        self@ == other@
    }
}

// ---------------------------------------------------------------------
// Parsing: the exact decision tree
// ---------------------------------------------------------------------

/// The payload an untrusted certificate yields, or the exact error,
/// checked in this fixed order: structure, algorithm identifier,
/// self-signature, reachability extension (presence then decoding),
/// metadata extension (presence then decoding).
pub open spec fn cert_data_of(der: Seq<u8>) -> Result<(ReachV, NodeMetadata), CertificateError> {
    match cert_parse(der) {
        None => Err(CertificateError::X509),
        Some(t) => {
            if t.0 != ed25519_oid() {
                Err(CertificateError::InvalidSignatureAlgorithm)
            } else if !t.1 {
                Err(CertificateError::InvalidSignature)
            } else {
                match ext_lookup(t.2, reach_oid()) {
                    None => Err(CertificateError::MissingReachabilityInformation),
                    Some(rb) => match dec_reach(rb) {
                        None => Err(CertificateError::DecodeReachabilityInformation),
                        Some(rv) => match ext_lookup(t.2, meta_oid()) {
                            None => Err(CertificateError::MissingNodeMetadata),
                            Some(mb) => match dec_meta(mb) {
                                None => Err(CertificateError::DecodeNodeMetadata),
                                Some(mv) => Ok((rv, mv)),
                            },
                        },
                    },
                }
            }
        },
    }
}

/// Finds the first extension carrying `oid`.
fn find_ext(exts: &Vec<ExtensionEntry>, oid: &[u8]) -> (r: Option<usize>)
    ensures
        match r {
            Some(ix) => ix < exts@.len() && ext_lookup(entry_views(exts@), oid@) == Some(
                exts@[ix as int].value@,
            ),
            None => ext_lookup(entry_views(exts@), oid@) is None,
        },
{
    let mut k: usize = 0;
    proof {
        assert(entry_views(exts@).skip(0) =~= entry_views(exts@));
    }
    while k < exts.len()
        invariant
            k <= exts@.len(),
            ext_lookup(entry_views(exts@), oid@) == ext_lookup(
                entry_views(exts@).skip(k as int),
                oid@,
            ),
        decreases exts@.len() - k,
    {
        proof {
            assert(entry_views(exts@).skip(k as int)[0] == entry_views(exts@)[k as int]);
            assert(entry_views(exts@)[k as int] == (exts@[k as int].oid@, exts@[k as int].value@));
        }
        if bytes_cmp(exts[k].oid.as_slice(), oid) == Cmp::Eq {
            return Some(k);
        }
        proof {
            assert(entry_views(exts@).skip(k as int).skip(1) =~= entry_views(exts@).skip(
                k as int + 1,
            ));
        }
        k = k + 1;
    }
    None
}

impl CertificateData {
    /// Builds and signs a self-signed certificate holding this payload:
    /// the reachability and metadata encodings become the two custom
    /// extensions, the certificate is valid from today (00:00 UTC) for
    /// exactly seven days, and the node's public signing key (from the
    /// PKCS#8 DER `private_key_der`) becomes the certificate's subject
    /// public key.  A key that does not parse as an Ed25519 key yields
    /// `ParseDer`.
    ///
    /// A produced certificate always parses back to this payload
    /// (`lemma_certificate_round_trip` closes the loop over
    /// `try_from`).
    pub fn sign(&self, private_key_der: &[u8]) -> (r: CertificateResult<RawCertificate>)
        ensures
            r matches Ok(c) ==> built_cert_ok(c@, enc_reach(self@.reach), enc_meta(self@.meta)),
            r matches Ok(c) ==> ed25519_pkcs8_public_key(private_key_der@) matches Some(pk)
                && cert_parse(c@) matches Some(t) && t.5 == pk,
            ed25519_pkcs8_public_key(private_key_der@) is None ==> (r matches Err(e) && e
                == CertificateError::ParseDer),
            r matches Err(e) ==> (e == CertificateError::ParseDer || e
                == CertificateError::GeneratingCertificate),
    {
        let reach = self.reachability.encode_der();
        let meta = self.metadata.encode_der();
        match build_signed_certificate(&reach, &meta, private_key_der) {
            Ok(der) => Ok(RawCertificate { encoded_der: der }),
            Err(e) => Err(e),
        }
    }

    /// Recovers the payload of an untrusted certificate, rejecting a
    /// malformed structure, a signature algorithm other than Ed25519, an
    /// invalid self-signature, and a missing or undecodable extension,
    /// each with its specific error, in that fixed order.
    pub fn try_from(value: RawCertificate) -> (r: CertificateResult<CertificateData>)
        ensures
            match r {
                Ok(d) => cert_data_of(value@) matches Ok(p) && d@.reach == p.0 && d@.meta == p.1
                    && crate::reachability::reach_sorted(d@.reach),
                Err(e) => cert_data_of(value@) == Err::<(ReachV, NodeMetadata),
                    CertificateError,
                >(e),
            },
    {
        let parsed = match parse_certificate(value.encoded_der.as_slice()) {
            Some(p) => p,
            None => {
                return Err(CertificateError::X509);
            },
        };
        let alg_oid = ed25519_oid_exec();
        if !(bytes_cmp(parsed.sig_alg_oid.as_slice(), alg_oid.as_slice()) == Cmp::Eq) {
            return Err(CertificateError::InvalidSignatureAlgorithm);
        }
        if !parsed.self_signature_valid {
            return Err(CertificateError::InvalidSignature);
        }
        let roid = reach_oid_exec();
        let reachability = match find_ext(&parsed.extensions, roid.as_slice()) {
            None => {
                return Err(CertificateError::MissingReachabilityInformation);
            },
            Some(ix) => {
                match NodeReachabilityInformation::decode_ber(
                    parsed.extensions[ix].value.as_slice(),
                ) {
                    Ok(v) => v,
                    Err(_) => {
                        return Err(CertificateError::DecodeReachabilityInformation);
                    },
                }
            },
        };
        let moid = meta_oid_exec();
        let metadata = match find_ext(&parsed.extensions, moid.as_slice()) {
            None => {
                return Err(CertificateError::MissingNodeMetadata);
            },
            Some(ix) => {
                match NodeMetadata::decode_ber(parsed.extensions[ix].value.as_slice()) {
                    Ok(v) => v,
                    Err(_) => {
                        return Err(CertificateError::DecodeNodeMetadata);
                    },
                }
            },
        };
        Ok(CertificateData { reachability, metadata })
    }
}

// ---------------------------------------------------------------------
// Laws
// ---------------------------------------------------------------------

/// Certificate round trip: a certificate that carries the canonical
/// encodings of a well-formed payload — as every certificate produced by
/// `sign` does — parses back to exactly that payload.
pub proof fn lemma_certificate_round_trip(der: Seq<u8>, rv: ReachV, mv: NodeMetadata)
    requires
        reach_wf(rv),
        built_cert_ok(der, enc_reach(rv), enc_meta(mv)),
    ensures
        cert_data_of(der) == Ok::<(ReachV, NodeMetadata), CertificateError>((rv, mv)),
{
    lemma_reach_round_trip(rv);
    lemma_meta_round_trip(mv);
}

/// Algorithm rejection: whatever its extensions hold, a certificate
/// whose signature algorithm identifier is not the Ed25519 identifier is
/// rejected as `InvalidSignatureAlgorithm`.
pub proof fn lemma_algorithm_rejected(der: Seq<u8>)
    requires
        cert_parse(der) matches Some(t) && t.0 != ed25519_oid(),
    ensures
        cert_data_of(der) == Err::<(ReachV, NodeMetadata), CertificateError>(
            CertificateError::InvalidSignatureAlgorithm,
        ),
{
}

/// Missing-extension rejection, first half of the fixed check order: a
/// certificate lacking the reachability extension fails as
/// `MissingReachabilityInformation`, whatever the metadata extension holds.
pub proof fn lemma_missing_reachability_rejected(der: Seq<u8>)
    requires
        cert_parse(der) matches Some(t) && t.0 == ed25519_oid() && t.1 && ext_lookup(
            t.2,
            reach_oid(),
        ) is None,
    ensures
        cert_data_of(der) == Err::<(ReachV, NodeMetadata), CertificateError>(
            CertificateError::MissingReachabilityInformation,
        ),
{
}

/// Missing-extension rejection, second half: with the reachability
/// extension present and decodable, a certificate lacking the metadata
/// extension fails as `MissingNodeMetadata`.
pub proof fn lemma_missing_metadata_rejected(der: Seq<u8>)
    requires
        cert_parse(der) matches Some(t) && t.0 == ed25519_oid() && t.1 && (ext_lookup(
            t.2,
            reach_oid(),
        ) matches Some(rb) && dec_reach(rb) is Some) && ext_lookup(t.2, meta_oid()) is None,
    ensures
        cert_data_of(der) == Err::<(ReachV, NodeMetadata), CertificateError>(
            CertificateError::MissingNodeMetadata,
        ),
{
}

} // verus!
