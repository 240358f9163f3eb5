//! Node identity: the long-term signing keyset, the node identifier
//! derived from its public key, and the versioned persisted form of the
//! signing seed.

use vstd::prelude::*;

use crate::crypto::{sha256, sha256_of, sign_keypair_from_seed, sign_keypair_of_seed};
use crate::der::{bytes_lt, bytes_cmp, Cmp};

verus! {

/// Hash value of the public signing key of a node; identifies the node
/// in the node directory.  Totally ordered over its bytes, for
/// deterministic directory placement.
#[derive(Debug, Clone)]
pub struct NodeId {
    hash: Vec<u8>,
}

impl View for NodeId {
    type V = Seq<u8>;

    closed spec fn view(&self) -> Seq<u8> {
        self.hash@
    }
}

impl NodeId {
    /// An identifier is the 32-byte SHA-256 digest of a public key.
    pub open spec fn wf(&self) -> bool {
        self@.len() == 32
    }

    /// Derives the identifier of a node from its public signing key.
    pub fn from_public_key(pk: &[u8]) -> (r: NodeId)
        ensures
            r@ == sha256_of(pk@),
            r.wf(),
    {
        NodeId { hash: sha256(pk) }
    }

    /// The identifier bytes.
    pub fn as_bytes(&self) -> (r: &[u8])
        ensures
            r@ == self@,
    {
        self.hash.as_slice()
    }

    /// Total order over the identifier bytes.
    pub fn le(&self, other: &NodeId) -> (r: bool)
        ensures
            r <==> (self@ == other@ || bytes_lt(self@, other@)),
    {
        match bytes_cmp(self.hash.as_slice(), other.hash.as_slice()) {
            Cmp::Gt => false,
            _ => true,
        }
    }
}

impl PartialEq for NodeId {
    /// Equality of the identifier bytes.
    fn eq(&self, other: &Self) -> (r: bool) {
        let r = bytes_cmp(self.hash.as_slice(), other.hash.as_slice()) == Cmp::Eq;
        proof {
            if r {
                assert(self@ =~= other@);
            }
        }
        r
    }
}

impl vstd::std_specs::cmp::PartialEqSpecImpl for NodeId {
    open spec fn obeys_eq_spec() -> bool {
        true
    }

    open spec fn eq_spec(&self, other: &Self) -> bool {
        self@ == other@
    }
}

/// A complete keyset used to sign data originating from a node: the
/// seed, the secret signing key derived from it, and the matching public
/// signing key.  Contains **private** information; it is never
/// serialized except through the explicitly versioned secret file form.
pub struct Signkey {
    seed: Vec<u8>,
    sk: Vec<u8>,
    pk: Vec<u8>,
}

impl Signkey {
    /// The keys are exactly the deterministic derivation of the seed.
    pub closed spec fn wf(&self) -> bool {
        &&& self.seed@.len() == 32
        &&& (self.pk@, self.sk@) == sign_keypair_of_seed(self.seed@)
        &&& self.pk@.len() == 32
        &&& self.sk@.len() == 64
    }

    pub closed spec fn spec_public_key(&self) -> Seq<u8> {
        self.pk@
    }

    pub closed spec fn spec_secret_key(&self) -> Seq<u8> {
        self.sk@
    }

    pub closed spec fn spec_seed(&self) -> Seq<u8> {
        self.seed@
    }

    /// Derives the complete keyset from a 32-byte seed: the same seed
    /// always restores the same identity, which is what the versioned
    /// secret file format rests on.
    pub fn from_seed(seed: Vec<u8>) -> (r: Signkey)
        requires
            seed@.len() == 32,
        ensures
            r.wf(),
            r.spec_seed() == seed@,
            (r.spec_public_key(), r.spec_secret_key()) == sign_keypair_of_seed(seed@),
            r.spec_public_key().len() == 32,
            r.spec_secret_key().len() == 64,
    {
        let (pk, sk) = sign_keypair_from_seed(seed.as_slice());
        Signkey { seed, sk, pk }
    }

    /// The public signing key.
    pub fn public_key(&self) -> (r: &[u8])
        ensures
            r@ == self.spec_public_key(),
    {
        self.pk.as_slice()
    }

    /// The secret signing key.
    pub fn secret_key(&self) -> (r: &[u8])
        ensures
            r@ == self.spec_secret_key(),
    {
        self.sk.as_slice()
    }

    /// The identifier under which this node appears in the directory:
    /// the hash of its public signing key.
    pub fn node_id(&self) -> (r: NodeId)
        ensures
            r@ == sha256_of(self.spec_public_key()),
            r.wf(),
    {
        NodeId::from_public_key(self.pk.as_slice())
    }
}

/// The versioned, persisted form of a signing seed, as read from the
/// secret key file.  Versioning allows the key derivation to change
/// without breaking stored secrets.
#[derive(Debug, Clone, PartialEq, Eq)]
pub enum VersionedSignkey {
    V1(SignkeyV1),
}

/// Version 1 of the persisted signing seed.
#[derive(Debug, Clone, PartialEq, Eq)]
pub struct SignkeyV1 {
    /// The encoded seed string.
    pub seed: String,
}

} // verus!
