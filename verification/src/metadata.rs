//! Operational metadata attribute and its canonical DER codec.
//!
//! Wire schema: `SEQUENCE { maximumWarmTableSeconds [0] EXPLICIT INTEGER
//! OPTIONAL, maximumColdTableSeconds [1] EXPLICIT INTEGER OPTIONAL }`.
//! An absent field is omitted from the encoding entirely.

use vstd::prelude::*;

use crate::der::{
    tlv, int_content, rd_tlv, rd_opt_tagged_int, enc_len, DecodeError, lemma_rd_tlv_frame,
    lemma_opt_tagged_int_frame, lemma_subrange_shift, lemma_subrange_index, lemma_pow256_8,
    lemma_be_bytes_len, write_tlv, write_tagged_int, rd_tlv_exec, rd_opt_tagged_int_exec,
};

verus! {

/// Two independent optional durations, in seconds: how long a warm
/// (already-bootstrapped) node may cache the enclosing certificate's
/// claims, and how long a cold-booted node may rely on them.  Absence
/// means "no limit specified".
#[derive(Clone, Copy, Debug, PartialEq, Eq, Structural)]
pub struct NodeMetadata {
    /// Time, in seconds, that an operating node may keep the certificate cached.
    pub maximum_warm_table_seconds: Option<u64>,
    /// Time, in seconds, that a freshly booted node without prior state
    /// may rely on the certificate.
    pub maximum_cold_table_seconds: Option<u64>,
}

impl Default for NodeMetadata {
    /// The default metadata specifies no limits at all.
    fn default() -> (r: Self)
        ensures
            r.maximum_warm_table_seconds is None,
            r.maximum_cold_table_seconds is None,
    {
        NodeMetadata { maximum_warm_table_seconds: None, maximum_cold_table_seconds: None }
    }
}

/// Encoding of one optional tagged INTEGER field: empty when absent.
pub open spec fn opt_field(tag: u8, v: Option<u64>) -> Seq<u8> {
    match v {
        None => Seq::empty(),
        Some(n) => tlv(tag, tlv(0x02, int_content(n))),
    }
}

/// Canonical encoding of a metadata value.
pub open spec fn enc_meta(m: NodeMetadata) -> Seq<u8> {
    tlv(
        0x30,
        opt_field(0xa0, m.maximum_warm_table_seconds) + opt_field(
            0xa1,
            m.maximum_cold_table_seconds,
        ),
    )
}

/// Strict decoding of a metadata value: one SEQUENCE spanning the whole
/// buffer, two independently optional tagged INTEGER fields, nothing else.
pub open spec fn dec_meta(b: Seq<u8>) -> Option<NodeMetadata> {
    match rd_tlv(b, 0) {
        Some((t, cs, ce)) => {
            if t == 0x30 && ce == b.len() {
                match rd_opt_tagged_int(b, cs, ce, 0xa0, u64::MAX) {
                    Some((warm, i1)) => {
                        match rd_opt_tagged_int(b, i1, ce, 0xa1, u64::MAX) {
                            Some((cold, i2)) => {
                                if i2 == ce {
                                    Some(
                                        NodeMetadata {
                                            maximum_warm_table_seconds: warm,
                                            maximum_cold_table_seconds: cold,
                                        },
                                    )
                                } else {
                                    None
                                }
                            },
                            None => None,
                        }
                    },
                    None => None,
                }
            } else {
                None
            }
        },
        None => None,
    }
}

/// An optional field encodes into at most 13 bytes.
proof fn lemma_opt_field_len(tag: u8, v: Option<u64>)
    ensures
        opt_field(tag, v).len() <= 13,
        v is Some ==> opt_field(tag, v)[0] == tag,
{
    lemma_pow256_8();
    if let Some(n) = v {
        lemma_be_bytes_len(n as nat, 8);
        assert(int_content(n).len() <= 9);
        assert(opt_field(tag, v)[0] == tag);
    }
}

/// Round-trip law: decoding the canonical encoding of any metadata value
/// yields exactly that value.
pub proof fn lemma_meta_round_trip(m: NodeMetadata)
    ensures
        dec_meta(enc_meta(m)) == Some(m),
{
    lemma_pow256_8();
    let wf_ = opt_field(0xa0, m.maximum_warm_table_seconds);
    let cf = opt_field(0xa1, m.maximum_cold_table_seconds);
    lemma_opt_field_len(0xa0, m.maximum_warm_table_seconds);
    lemma_opt_field_len(0xa1, m.maximum_cold_table_seconds);
    let content = wf_ + cf;
    let b = enc_meta(m);
    assert(b.subrange(0, tlv(0x30, content).len() as int) =~= tlv(0x30, content));
    lemma_rd_tlv_frame(b, 0, 0x30, content);
    let cs: int = 1 + enc_len(content.len()).len() as int;
    let ce: int = tlv(0x30, content).len() as int;
    assert(ce == b.len());
    // the warm field sits first in the content
    lemma_subrange_shift(b, cs, content, 0, wf_.len() as int);
    assert(content.subrange(0, wf_.len() as int) =~= wf_);
    // the cold field follows it
    lemma_subrange_shift(b, cs, content, wf_.len() as int, content.len() as int);
    assert(content.subrange(wf_.len() as int, content.len() as int) =~= cf);
    let i1: int = cs + wf_.len() as int;
    match m.maximum_warm_table_seconds {
        Some(n) => {
            lemma_opt_tagged_int_frame(b, cs, ce, 0xa0, n, u64::MAX);
        },
        None => {
            if m.maximum_cold_table_seconds is Some {
                lemma_subrange_index(b, i1, cf, 0);
                assert(b[cs] == 0xa1);
            }
            assert(rd_opt_tagged_int(b, cs, ce, 0xa0, u64::MAX) == Some(
                (Option::<u64>::None, cs),
            ));
        },
    }
    match m.maximum_cold_table_seconds {
        Some(n) => {
            lemma_opt_tagged_int_frame(b, i1, ce, 0xa1, n, u64::MAX);
        },
        None => {
            assert(i1 == ce);
            assert(rd_opt_tagged_int(b, i1, ce, 0xa1, u64::MAX) == Some(
                (Option::<u64>::None, i1),
            ));
        },
    }
}

impl NodeMetadata {
    /// Serializes the value into its canonical DER form.
    pub fn encode_der(&self) -> (r: Vec<u8>)
        ensures
            r@ == enc_meta(*self),
    {
        let mut content: Vec<u8> = Vec::new();
        if let Some(w) = self.maximum_warm_table_seconds {
            let mut f = write_tagged_int(0xa0, w);
            content.append(&mut f);
        }
        if let Some(c) = self.maximum_cold_table_seconds {
            let mut f = write_tagged_int(0xa1, c);
            content.append(&mut f);
        }
        proof {
            assert(content@ =~= opt_field(0xa0, self.maximum_warm_table_seconds) + opt_field(
                0xa1,
                self.maximum_cold_table_seconds,
            ));
        }
        write_tlv(0x30, content)
    }

    /// Parses a buffer as a metadata value; rejects anything that is not
    /// exactly one well-formed encoding, including trailing data.
    pub fn decode_ber(bytes: &[u8]) -> (r: Result<NodeMetadata, DecodeError>)
        ensures
            match r {
                Ok(m) => dec_meta(bytes@) == Some(m),
                Err(_) => dec_meta(bytes@) is None,
            },
    {
        let (t, cs, ce) = match rd_tlv_exec(bytes, 0) {
            Some(x) => x,
            None => {
                return Err(DecodeError::Malformed);
            },
        };
        if t != 0x30 || ce != bytes.len() {
            return Err(DecodeError::Malformed);
        }
        let (warm, i1) = match rd_opt_tagged_int_exec(bytes, cs, ce, 0xa0, u64::MAX) {
            Some(x) => x,
            None => {
                return Err(DecodeError::Malformed);
            },
        };
        let (cold, i2) = match rd_opt_tagged_int_exec(bytes, i1, ce, 0xa1, u64::MAX) {
            Some(x) => x,
            None => {
                return Err(DecodeError::Malformed);
            },
        };
        if i2 != ce {
            return Err(DecodeError::Malformed);
        }
        Ok(NodeMetadata { maximum_warm_table_seconds: warm, maximum_cold_table_seconds: cold })
    }
}

} // verus!
