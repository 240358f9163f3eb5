//! Identity and trust layer of a peer-to-peer overlay network.
//!
//! Each node proves who it is and how it can be reached through a
//! self-signed certificate carrying two custom attribute extensions
//! (reachability and operational metadata, both in a canonical DER
//! form), and opens encrypted sessions through a signature-authenticated
//! key-exchange handshake.

pub mod certificate;
pub mod crypto;
pub mod der;
pub mod handshake;
pub mod identity;
pub mod ip;
pub mod metadata;
pub mod reachability;

pub use certificate::{
    CertificateData, CertificateError, CertificateResult, RawCertificate,
};
pub use der::DecodeError;
pub use identity::{NodeId, Signkey, SignkeyV1, VersionedSignkey};
pub use metadata::NodeMetadata;
pub use handshake::{
    CryptoProtocol, ExtensionField, HandshakeError, HandshakeResult, ProtocolError,
    ProtocolResult, SessionHandshake, SessionHandshakeSodiumExtraData,
};
pub use reachability::{
    NodeIpReachability, NodeProxyReachability, NodeReachabilityInformation,
};
pub use ip::IpAddress;
