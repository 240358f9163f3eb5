//! Reachability attribute structures and their canonical DER codec.
//!
//! Wire schema:
//! `NodeReachabilityInformation ::= SEQUENCE { networkReachability SET OF
//! NodeIpReachability, proxyReachability SET OF NodeProxyReachability }`;
//! `NodeIpReachability ::= SEQUENCE { address UTF8String, quicPort [0]
//! EXPLICIT INTEGER OPTIONAL }`; `NodeProxyReachability ::= SEQUENCE {
//! proxyAddress OCTET STRING, proxyReachability [0] EXPLICIT SET OF
//! NodeIpReachability OPTIONAL }`.
//!
//! The wire form is a mathematical set: the encoder emits members sorted
//! by their own encodings (one canonical order), the decoder accepts any
//! member order and collapses duplicates.  A `ProxyReachability` whose
//! inner set is empty is encoded without the tagged sub-field entirely.

use vstd::prelude::*;

use crate::der::{
    tlv, int_content, rd_tlv, rd_opt_tagged_int, enc_len, fits_der_len, bytes_lt, DecodeError,
    lemma_rd_tlv_frame, lemma_opt_tagged_int_frame, lemma_subrange_shift, lemma_pow256_8,
    lemma_be_bytes_len, lemma_bytes_lt_asym, write_tlv, write_tagged_int, rd_tlv_exec,
    rd_opt_tagged_int_exec, bytes_cmp, Cmp,
};
use crate::ip::{IpAddress, ip_text, parse_ip, lemma_ip_text_round_trip, parse_ip_exec};

verus! {

/// How to reach one node directly: a public IP address and the optional
/// port of its QUIC socket.
#[derive(Clone, Copy, Debug, PartialEq, Eq, Structural)]
pub struct NodeIpReachability {
    /// Public IP address of the node.
    pub address: IpAddress,
    /// Port of the QUIC socket.
    pub quic_port: Option<u16>,
}

/// How to reach one node through a proxy node: the opaque identifier of
/// the proxy (typically the hash of its public key) and an optional set
/// of addresses under which the proxy itself is reachable.  An empty set
/// means "look the proxy up in the directory".
#[derive(Debug, Clone)]
pub struct NodeProxyReachability {
    /// Hash of the public key of the proxy node.
    pub proxy_address: Vec<u8>,
    /// Optional IP address information, to omit a directory lookup;
    /// kept sorted by member encoding.
    pub proxy_reachability: Vec<NodeIpReachability>,
}

/// Complete reachability information for a node: direct network
/// reachability and reachability through proxy nodes.  Both collections
/// are sets; they are kept sorted by member encoding.
#[derive(Debug, Clone)]
pub struct NodeReachabilityInformation {
    /// Reachability of this node over the internet.
    pub network_reachability: Vec<NodeIpReachability>,
    /// Reachability of this node using proxy nodes.
    pub proxy_reachability: Vec<NodeProxyReachability>,
}

/// Mathematical value of a proxy entry.
#[verifier::ext_equal]
pub struct ProxyV {
    pub addr: Seq<u8>,
    pub reach: Seq<NodeIpReachability>,
}

/// Mathematical value of a reachability structure.
#[verifier::ext_equal]
pub struct ReachV {
    pub network: Seq<NodeIpReachability>,
    pub proxies: Seq<ProxyV>,
}

impl View for NodeProxyReachability {
    type V = ProxyV;

    open spec fn view(&self) -> ProxyV {
        ProxyV { addr: self.proxy_address@, reach: self.proxy_reachability@ }
    }
}

impl View for NodeReachabilityInformation {
    type V = ReachV;

    open spec fn view(&self) -> ReachV {
        ReachV {
            network: self.network_reachability@,
            proxies: self.proxy_reachability@.map_values(|p: NodeProxyReachability| p@),
        }
    }
}

// ---------------------------------------------------------------------
// Canonical encodings
// ---------------------------------------------------------------------

/// Encoding of the optional QUIC port field.
pub open spec fn port_field(p: Option<u16>) -> Seq<u8> {
    match p {
        None => Seq::empty(),
        Some(v) => tlv(0xa0, tlv(0x02, int_content(v as u64))),
    }
}

/// Canonical encoding of one direct-reachability entry.
pub open spec fn enc_ip(e: NodeIpReachability) -> Seq<u8> {
    tlv(0x30, tlv(0x0c, ip_text(e.address)) + port_field(e.quic_port))
}

/// Concatenation of the encodings of a member sequence.
pub open spec fn concat_enc_ips(s: Seq<NodeIpReachability>) -> Seq<u8>
    decreases s.len(),
{
    if s.len() == 0 {
        Seq::empty()
    } else {
        enc_ip(s[0]) + concat_enc_ips(s.skip(1))
    }
}

/// Canonical encoding of one proxy entry: the tagged inner set is
/// omitted entirely when empty.
pub open spec fn enc_proxy(p: ProxyV) -> Seq<u8> {
    tlv(
        0x30,
        tlv(0x04, p.addr) + if p.reach.len() == 0 {
            Seq::empty()
        } else {
            tlv(0xa0, tlv(0x31, concat_enc_ips(p.reach)))
        },
    )
}

pub open spec fn concat_enc_proxies(s: Seq<ProxyV>) -> Seq<u8>
    decreases s.len(),
{
    if s.len() == 0 {
        Seq::empty()
    } else {
        enc_proxy(s[0]) + concat_enc_proxies(s.skip(1))
    }
}

/// Canonical encoding of a reachability structure.
pub open spec fn enc_reach(r: ReachV) -> Seq<u8> {
    tlv(0x30, tlv(0x31, concat_enc_ips(r.network)) + tlv(0x31, concat_enc_proxies(r.proxies)))
}

// ---------------------------------------------------------------------
// Well-formed values: sets sorted by member encoding
// ---------------------------------------------------------------------

/// Strictly ascending by member encoding: a canonical set.
pub open spec fn ip_sorted(s: Seq<NodeIpReachability>) -> bool {
    forall|k: int, l: int|
        0 <= k < l < s.len() ==> bytes_lt(enc_ip(#[trigger] s[k]), enc_ip(#[trigger] s[l]))
}

pub open spec fn proxy_sorted(s: Seq<ProxyV>) -> bool {
    forall|k: int, l: int|
        0 <= k < l < s.len() ==> bytes_lt(enc_proxy(#[trigger] s[k]), enc_proxy(#[trigger] s[l]))
}

/// A proxy entry is well formed when its inner set is canonical and its
/// encoding fits in memory.
pub open spec fn proxy_wf(p: ProxyV) -> bool {
    ip_sorted(p.reach) && fits_der_len(enc_proxy(p).len())
}

/// Both sets and every inner set are canonical.
pub open spec fn reach_sorted(r: ReachV) -> bool {
    &&& ip_sorted(r.network)
    &&& proxy_sorted(r.proxies)
    &&& forall|k: int| 0 <= k < r.proxies.len() ==> ip_sorted(#[trigger] r.proxies[k].reach)
}

/// A reachability value is well formed when all its sets are canonical
/// and the whole encoding fits in memory.
pub open spec fn reach_wf(r: ReachV) -> bool {
    reach_sorted(r) && fits_der_len(enc_reach(r).len())
}

// ---------------------------------------------------------------------
// Decoding (specification)
// ---------------------------------------------------------------------

/// Reads one direct-reachability entry at `i`.
pub open spec fn dec_ip_at(b: Seq<u8>, i: int) -> Option<(NodeIpReachability, int)> {
    match rd_tlv(b, i) {
        Some((t, cs, ce)) => {
            if t == 0x30 {
                match rd_tlv(b, cs) {
                    Some((t2, ts, te)) => {
                        if t2 == 0x0c {
                            match parse_ip(b.subrange(ts, te)) {
                                Some(addr) => {
                                    match rd_opt_tagged_int(b, te, ce, 0xa0, 0xffff) {
                                        Some((port, k)) => {
                                            if k == ce {
                                                Some(
                                                    (
                                                        NodeIpReachability {
                                                            address: addr,
                                                            quic_port: match port {
                                                                None => None,
                                                                Some(v) => Some(v as u16),
                                                            },
                                                        },
                                                        ce,
                                                    ),
                                                )
                                            } else {
                                                None
                                            }
                                        },
                                        None => None,
                                    }
                                },
                                None => None,
                            }
                        } else {
                            None
                        }
                    },
                    None => None,
                }
            } else {
                None
            }
        },
        None => None,
    }
}

/// Inserts a member into a canonical set, dropping duplicates.
pub open spec fn insert_ip(x: NodeIpReachability, s: Seq<NodeIpReachability>) -> Seq<
    NodeIpReachability,
>
    decreases s.len(),
{
    if s.len() == 0 {
        seq![x]
    } else if bytes_lt(enc_ip(x), enc_ip(s[0])) {
        seq![x] + s
    } else if enc_ip(x) == enc_ip(s[0]) {
        s
    } else {
        seq![s[0]] + insert_ip(x, s.skip(1))
    }
}

/// Reads the members of a `SET OF NodeIpReachability` in `[i, end)`,
/// in any order, into a canonical set.
pub open spec fn dec_ip_set(b: Seq<u8>, i: int, end: int, acc: Seq<NodeIpReachability>) -> Option<
    Seq<NodeIpReachability>,
>
    decreases end - i,
{
    if i == end {
        Some(acc)
    } else if !(0 <= i < end <= b.len()) {
        None
    } else {
        match dec_ip_at(b, i) {
            Some((e, j)) => {
                if i < j <= end {
                    dec_ip_set(b, j, end, insert_ip(e, acc))
                } else {
                    None
                }
            },
            None => None,
        }
    }
}

/// Reads one proxy entry at `i`; an absent tagged sub-field yields the
/// empty inner set.
pub open spec fn dec_proxy_at(b: Seq<u8>, i: int) -> Option<(ProxyV, int)> {
    match rd_tlv(b, i) {
        Some((t, cs, ce)) => {
            if t == 0x30 {
                match rd_tlv(b, cs) {
                    Some((t2, as_, ae)) => {
                        if t2 == 0x04 {
                            let addr = b.subrange(as_, ae);
                            if ae == ce {
                                Some((ProxyV { addr, reach: Seq::empty() }, ce))
                            } else {
                                match rd_tlv(b, ae) {
                                    Some((t3, ss, se)) => {
                                        if t3 == 0xa0 && se == ce {
                                            match rd_tlv(b, ss) {
                                                Some((t4, es, ee)) => {
                                                    if t4 == 0x31 && ee == se {
                                                        match dec_ip_set(b, es, ee, Seq::empty()) {
                                                            Some(reach) => Some(
                                                                (ProxyV { addr, reach }, ce),
                                                            ),
                                                            None => None,
                                                        }
                                                    } else {
                                                        None
                                                    }
                                                },
                                                None => None,
                                            }
                                        } else {
                                            None
                                        }
                                    },
                                    None => None,
                                }
                            }
                        } else {
                            None
                        }
                    },
                    None => None,
                }
            } else {
                None
            }
        },
        None => None,
    }
}

pub open spec fn insert_proxy(x: ProxyV, s: Seq<ProxyV>) -> Seq<ProxyV>
    decreases s.len(),
{
    if s.len() == 0 {
        seq![x]
    } else if bytes_lt(enc_proxy(x), enc_proxy(s[0])) {
        seq![x] + s
    } else if enc_proxy(x) == enc_proxy(s[0]) {
        s
    } else {
        seq![s[0]] + insert_proxy(x, s.skip(1))
    }
}

pub open spec fn dec_proxy_set(b: Seq<u8>, i: int, end: int, acc: Seq<ProxyV>) -> Option<
    Seq<ProxyV>,
>
    decreases end - i,
{
    if i == end {
        Some(acc)
    } else if !(0 <= i < end <= b.len()) {
        None
    } else {
        match dec_proxy_at(b, i) {
            Some((p, j)) => {
                if i < j <= end {
                    dec_proxy_set(b, j, end, insert_proxy(p, acc))
                } else {
                    None
                }
            },
            None => None,
        }
    }
}

/// Strict decoding of a reachability structure: one SEQUENCE spanning
/// the whole buffer holding exactly two SET OF fields.
pub open spec fn dec_reach(b: Seq<u8>) -> Option<ReachV> {
    match rd_tlv(b, 0) {
        Some((t, cs, ce)) => {
            if t == 0x30 && ce == b.len() {
                match rd_tlv(b, cs) {
                    Some((tn, ns, ne)) => {
                        if tn == 0x31 {
                            match dec_ip_set(b, ns, ne, Seq::empty()) {
                                Some(network) => {
                                    match rd_tlv(b, ne) {
                                        Some((tp, ps, pe)) => {
                                            if tp == 0x31 && pe == ce {
                                                match dec_proxy_set(b, ps, pe, Seq::empty()) {
                                                    Some(proxies) => Some(
                                                        ReachV { network, proxies },
                                                    ),
                                                    None => None,
                                                }
                                            } else {
                                                None
                                            }
                                        },
                                        None => None,
                                    }
                                },
                                None => None,
                            }
                        } else {
                            None
                        }
                    },
                    None => None,
                }
            } else {
                None
            }
        },
        None => None,
    }
}

// ---------------------------------------------------------------------
// Size facts
// ---------------------------------------------------------------------

/// The optional port field encodes into at most 13 bytes.
proof fn lemma_port_field_len(p: Option<u16>)
    ensures
        port_field(p).len() <= 13,
        p is Some ==> port_field(p)[0] == 0xa0,
{
    lemma_pow256_8();
    if let Some(v) = p {
        lemma_be_bytes_len(v as nat, 8);
        assert(int_content(v as u64).len() <= 9);
        assert(port_field(p)[0] == 0xa0);
    }
}

/// One direct-reachability entry encodes into at most 64 bytes.
pub proof fn lemma_enc_ip_len(e: NodeIpReachability)
    ensures
        enc_ip(e).len() <= 64,
        fits_der_len(enc_ip(e).len()),
        fits_der_len(ip_text(e.address).len()),
        fits_der_len((tlv(0x0c, ip_text(e.address)) + port_field(e.quic_port)).len()),
{
    lemma_pow256_8();
    crate::ip::lemma_ip_text_len(e.address);
    lemma_port_field_len(e.quic_port);
}

// ---------------------------------------------------------------------
// Frame lemma: one direct-reachability entry
// ---------------------------------------------------------------------

/// Reading an entry at the start of its own encoding recovers the entry.
pub proof fn lemma_dec_ip_at_frame(b: Seq<u8>, i: int, e: NodeIpReachability)
    requires
        0 <= i,
        i + enc_ip(e).len() <= b.len(),
        b.subrange(i, i + enc_ip(e).len()) == enc_ip(e),
    ensures
        dec_ip_at(b, i) == Some((e, i + enc_ip(e).len())),
{
    lemma_enc_ip_len(e);
    let it = tlv(0x0c, ip_text(e.address));
    let pf = port_field(e.quic_port);
    let c = it + pf;
    lemma_rd_tlv_frame(b, i, 0x30, c);
    let cs = i + 1 + enc_len(c.len()).len();
    let ce = i + enc_ip(e).len();
    // the address text field sits first in the content
    lemma_subrange_shift(b, cs, c, 0, it.len() as int);
    assert(c.subrange(0, it.len() as int) =~= it);
    lemma_rd_tlv_frame(b, cs, 0x0c, ip_text(e.address));
    let ts = cs + 1 + enc_len(ip_text(e.address).len()).len();
    let te = cs + it.len();
    lemma_ip_text_round_trip(e.address);
    assert(parse_ip(b.subrange(ts, te)) == Some(e.address));
    // the port field follows it
    lemma_subrange_shift(b, cs, c, it.len() as int, c.len() as int);
    assert(c.subrange(it.len() as int, c.len() as int) =~= pf);
    match e.quic_port {
        Some(v) => {
            lemma_opt_tagged_int_frame(b, te, ce, 0xa0, v as u64, 0xffff);
        },
        None => {
            assert(te == ce);
            assert(rd_opt_tagged_int(b, te, ce, 0xa0, 0xffff) == Some((Option::<u64>::None, te)));
        },
    }
}

// ---------------------------------------------------------------------
// Canonical sets round-trip
// ---------------------------------------------------------------------

/// Inserting a member larger than everything in a set appends it.
proof fn lemma_insert_ip_append(x: NodeIpReachability, s: Seq<NodeIpReachability>)
    requires
        forall|k: int| 0 <= k < s.len() ==> bytes_lt(enc_ip(#[trigger] s[k]), enc_ip(x)),
    ensures
        insert_ip(x, s) == s + seq![x],
    decreases s.len(),
{
    if s.len() == 0 {
        assert(insert_ip(x, s) =~= s + seq![x]);
    } else {
        lemma_bytes_lt_asym(enc_ip(s[0]), enc_ip(x));
        lemma_insert_ip_append(x, s.skip(1));
        assert(seq![s[0]] + (s.skip(1) + seq![x]) =~= s + seq![x]);
    }
}

/// Reading the concatenated canonical encodings of the members from `m`
/// on, with the first `m` members already collected, yields the full set.
proof fn lemma_dec_ip_set_frame(b: Seq<u8>, i: int, end: int, s: Seq<NodeIpReachability>, m: int)
    requires
        ip_sorted(s),
        0 <= m <= s.len(),
        0 <= i,
        i + concat_enc_ips(s.skip(m)).len() == end <= b.len(),
        b.subrange(i, end) == concat_enc_ips(s.skip(m)),
    ensures
        dec_ip_set(b, i, end, s.take(m)) == Some(s),
    decreases s.len() - m,
{
    if m == s.len() {
        assert(s.skip(m).len() == 0);
        assert(i == end);
        assert(s.take(m) =~= s);
    } else {
        let x = s[m];
        let rest = s.skip(m);
        assert(rest[0] == x);
        assert(concat_enc_ips(rest) == enc_ip(x) + concat_enc_ips(rest.skip(1)));
        assert(rest.skip(1) =~= s.skip(m + 1));
        let j = i + enc_ip(x).len();
        lemma_subrange_shift(b, i, concat_enc_ips(rest), 0, enc_ip(x).len() as int);
        assert(concat_enc_ips(rest).subrange(0, enc_ip(x).len() as int) =~= enc_ip(x));
        lemma_dec_ip_at_frame(b, i, x);
        assert forall|k: int| 0 <= k < s.take(m).len() implies bytes_lt(
            enc_ip(#[trigger] s.take(m)[k]),
            enc_ip(x),
        ) by {
            assert(s.take(m)[k] == s[k]);
        }
        lemma_insert_ip_append(x, s.take(m));
        assert(s.take(m) + seq![x] =~= s.take(m + 1));
        lemma_subrange_shift(
            b,
            i,
            concat_enc_ips(rest),
            enc_ip(x).len() as int,
            concat_enc_ips(rest).len() as int,
        );
        assert(concat_enc_ips(rest).subrange(
            enc_ip(x).len() as int,
            concat_enc_ips(rest).len() as int,
        ) =~= concat_enc_ips(s.skip(m + 1)));
        lemma_dec_ip_set_frame(b, j, end, s, m + 1);
    }
}

// ---------------------------------------------------------------------
// Frame lemma: one proxy entry
// ---------------------------------------------------------------------

/// Pieces of a well-formed proxy encoding all fit the length form.
proof fn lemma_enc_proxy_fits(p: ProxyV)
    requires
        fits_der_len(enc_proxy(p).len()),
    ensures
        fits_der_len(p.addr.len()),
        fits_der_len(concat_enc_ips(p.reach).len()),
        fits_der_len(tlv(0x31, concat_enc_ips(p.reach)).len()),
        fits_der_len(
            (tlv(0x04, p.addr) + if p.reach.len() == 0 {
                Seq::<u8>::empty()
            } else {
                tlv(0xa0, tlv(0x31, concat_enc_ips(p.reach)))
            }).len(),
        ),
{
}

/// Reading a proxy entry at the start of its own encoding recovers it.
pub proof fn lemma_dec_proxy_at_frame(b: Seq<u8>, i: int, p: ProxyV)
    requires
        proxy_wf(p),
        0 <= i,
        i + enc_proxy(p).len() <= b.len(),
        b.subrange(i, i + enc_proxy(p).len()) == enc_proxy(p),
    ensures
        dec_proxy_at(b, i) == Some((p, i + enc_proxy(p).len())),
{
    lemma_enc_proxy_fits(p);
    let at = tlv(0x04, p.addr);
    let sf = if p.reach.len() == 0 {
        Seq::<u8>::empty()
    } else {
        tlv(0xa0, tlv(0x31, concat_enc_ips(p.reach)))
    };
    let c = at + sf;
    lemma_rd_tlv_frame(b, i, 0x30, c);
    let cs = i + 1 + enc_len(c.len()).len();
    let ce = i + enc_proxy(p).len();
    lemma_subrange_shift(b, cs, c, 0, at.len() as int);
    assert(c.subrange(0, at.len() as int) =~= at);
    lemma_rd_tlv_frame(b, cs, 0x04, p.addr);
    let ae = cs + at.len();
    if p.reach.len() == 0 {
        assert(ae == ce);
        assert(ProxyV { addr: p.addr, reach: Seq::empty() } =~= p);
    } else {
        let inner = tlv(0x31, concat_enc_ips(p.reach));
        lemma_subrange_shift(b, cs, c, at.len() as int, c.len() as int);
        assert(c.subrange(at.len() as int, c.len() as int) =~= sf);
        lemma_rd_tlv_frame(b, ae, 0xa0, inner);
        let ss = ae + 1 + enc_len(inner.len()).len();
        let se = ae + sf.len();
        assert(se == ce);
        lemma_rd_tlv_frame(b, ss, 0x31, concat_enc_ips(p.reach));
        let es = ss + 1 + enc_len(concat_enc_ips(p.reach).len()).len();
        let ee = ss + inner.len();
        assert(p.reach.skip(0) =~= p.reach);
        assert(p.reach.take(0) =~= Seq::<NodeIpReachability>::empty());
        lemma_dec_ip_set_frame(b, es, ee, p.reach, 0);
        assert(ProxyV { addr: p.addr, reach: p.reach } =~= p);
    }
}

proof fn lemma_insert_proxy_append(x: ProxyV, s: Seq<ProxyV>)
    requires
        forall|k: int| 0 <= k < s.len() ==> bytes_lt(enc_proxy(#[trigger] s[k]), enc_proxy(x)),
    ensures
        insert_proxy(x, s) == s + seq![x],
    decreases s.len(),
{
    if s.len() == 0 {
        assert(insert_proxy(x, s) =~= s + seq![x]);
    } else {
        lemma_bytes_lt_asym(enc_proxy(s[0]), enc_proxy(x));
        lemma_insert_proxy_append(x, s.skip(1));
        assert(seq![s[0]] + (s.skip(1) + seq![x]) =~= s + seq![x]);
    }
}

#[verifier::rlimit(50)]
proof fn lemma_dec_proxy_set_frame(b: Seq<u8>, i: int, end: int, s: Seq<ProxyV>, m: int)
    requires
        proxy_sorted(s),
        forall|k: int| 0 <= k < s.len() ==> proxy_wf(#[trigger] s[k]),
        0 <= m <= s.len(),
        0 <= i,
        i + concat_enc_proxies(s.skip(m)).len() == end <= b.len(),
        b.subrange(i, end) == concat_enc_proxies(s.skip(m)),
    ensures
        dec_proxy_set(b, i, end, s.take(m)) == Some(s),
    decreases s.len() - m,
{
    if m == s.len() {
        assert(s.skip(m).len() == 0);
        assert(i == end);
        assert(s.take(m) =~= s);
    } else {
        let x = s[m];
        let rest = s.skip(m);
        assert(rest[0] == x);
        assert(concat_enc_proxies(rest) == enc_proxy(x) + concat_enc_proxies(rest.skip(1)));
        assert(rest.skip(1) =~= s.skip(m + 1));
        let j = i + enc_proxy(x).len();
        lemma_subrange_shift(b, i, concat_enc_proxies(rest), 0, enc_proxy(x).len() as int);
        assert(concat_enc_proxies(rest).subrange(0, enc_proxy(x).len() as int) =~= enc_proxy(x));
        lemma_dec_proxy_at_frame(b, i, x);
        assert forall|k: int| 0 <= k < s.take(m).len() implies bytes_lt(
            enc_proxy(#[trigger] s.take(m)[k]),
            enc_proxy(x),
        ) by {
            assert(s.take(m)[k] == s[k]);
        }
        lemma_insert_proxy_append(x, s.take(m));
        assert(s.take(m) + seq![x] =~= s.take(m + 1));
        lemma_subrange_shift(
            b,
            i,
            concat_enc_proxies(rest),
            enc_proxy(x).len() as int,
            concat_enc_proxies(rest).len() as int,
        );
        assert(concat_enc_proxies(rest).subrange(
            enc_proxy(x).len() as int,
            concat_enc_proxies(rest).len() as int,
        ) =~= concat_enc_proxies(s.skip(m + 1)));
        lemma_dec_proxy_set_frame(b, j, end, s, m + 1);
    }
}

// ---------------------------------------------------------------------
// Laws
// ---------------------------------------------------------------------

/// Reading the first SET OF field of the content recovers the network set.
proof fn lemma_dec_reach_network(b: Seq<u8>, cs: int, ce: int, r: ReachV)
    requires
        reach_wf(r),
        fits_der_len(concat_enc_ips(r.network).len()),
        0 <= cs,
        cs + (tlv(0x31, concat_enc_ips(r.network)) + tlv(
            0x31,
            concat_enc_proxies(r.proxies),
        )).len() == ce <= b.len(),
        b.subrange(cs, ce) == tlv(0x31, concat_enc_ips(r.network)) + tlv(
            0x31,
            concat_enc_proxies(r.proxies),
        ),
    ensures
        ({
            let cn = concat_enc_ips(r.network);
            let ns = cs + 1 + enc_len(cn.len()).len();
            let ne = cs + tlv(0x31, cn).len();
            &&& rd_tlv(b, cs) == Some((0x31u8, ns, ne))
            &&& dec_ip_set(b, ns, ne, Seq::<NodeIpReachability>::empty()) == Some(r.network)
            &&& ne <= ce
        }),
{
    let cn = concat_enc_ips(r.network);
    let tn = tlv(0x31, cn);
    let c = tn + tlv(0x31, concat_enc_proxies(r.proxies));
    lemma_subrange_shift(b, cs, c, 0, tn.len() as int);
    assert(c.subrange(0, tn.len() as int) =~= tn);
    lemma_rd_tlv_frame(b, cs, 0x31, cn);
    let ns = cs + 1 + enc_len(cn.len()).len();
    let ne = cs + tn.len();
    assert(r.network.skip(0) =~= r.network);
    assert(r.network.take(0) =~= Seq::<NodeIpReachability>::empty());
    lemma_dec_ip_set_frame(b, ns, ne, r.network, 0);
}

/// Each member's encoding is no longer than the whole concatenation.
proof fn lemma_concat_proxies_elem_len(s: Seq<ProxyV>, k: int)
    requires
        0 <= k < s.len(),
    ensures
        enc_proxy(s[k]).len() <= concat_enc_proxies(s).len(),
    decreases k,
{
    if k > 0 {
        lemma_concat_proxies_elem_len(s.skip(1), k - 1);
        assert(s.skip(1)[k - 1] == s[k]);
    }
}

/// Reading the second SET OF field of the content recovers the proxy set.
proof fn lemma_dec_reach_proxies(b: Seq<u8>, cs: int, ce: int, r: ReachV)
    requires
        reach_wf(r),
        fits_der_len(concat_enc_proxies(r.proxies).len()),
        0 <= cs,
        cs + (tlv(0x31, concat_enc_ips(r.network)) + tlv(
            0x31,
            concat_enc_proxies(r.proxies),
        )).len() == ce <= b.len(),
        b.subrange(cs, ce) == tlv(0x31, concat_enc_ips(r.network)) + tlv(
            0x31,
            concat_enc_proxies(r.proxies),
        ),
    ensures
        ({
            let cp = concat_enc_proxies(r.proxies);
            let ne = cs + tlv(0x31, concat_enc_ips(r.network)).len();
            let ps = ne + 1 + enc_len(cp.len()).len();
            let pe = ne + tlv(0x31, cp).len();
            &&& rd_tlv(b, ne) == Some((0x31u8, ps, pe))
            &&& dec_proxy_set(b, ps, pe, Seq::<ProxyV>::empty()) == Some(r.proxies)
            &&& pe == ce
        }),
{
    let cp = concat_enc_proxies(r.proxies);
    let tn = tlv(0x31, concat_enc_ips(r.network));
    let tp = tlv(0x31, cp);
    let c = tn + tp;
    let ne = cs + tn.len();
    assert forall|k: int| 0 <= k < r.proxies.len() implies proxy_wf(#[trigger] r.proxies[k]) by {
        lemma_concat_proxies_elem_len(r.proxies, k);
    }
    lemma_subrange_shift(b, cs, c, tn.len() as int, c.len() as int);
    assert(c.subrange(tn.len() as int, c.len() as int) =~= tp);
    lemma_rd_tlv_frame(b, ne, 0x31, cp);
    let ps = ne + 1 + enc_len(cp.len()).len();
    let pe = ne + tp.len();
    assert(r.proxies.skip(0) =~= r.proxies);
    assert(r.proxies.take(0) =~= Seq::<ProxyV>::empty());
    lemma_dec_proxy_set_frame(b, ps, pe, r.proxies, 0);
}

/// Round-trip law: decoding the canonical encoding of any well-formed
/// reachability value yields exactly that value.
#[verifier::rlimit(50)]
pub proof fn lemma_reach_round_trip(r: ReachV)
    requires
        reach_wf(r),
    ensures
        dec_reach(enc_reach(r)) == Some(r),
{
    let cn = concat_enc_ips(r.network);
    let cp = concat_enc_proxies(r.proxies);
    let tn = tlv(0x31, cn);
    let tp = tlv(0x31, cp);
    let c = tn + tp;
    let b = enc_reach(r);
    assert(fits_der_len(c.len()) && fits_der_len(cn.len()) && fits_der_len(cp.len())) by {
        assert(b.len() == 1 + enc_len(c.len()).len() + c.len());
        assert(c.len() == tn.len() + tp.len());
        assert(tn.len() == 1 + enc_len(cn.len()).len() + cn.len());
        assert(tp.len() == 1 + enc_len(cp.len()).len() + cp.len());
    }
    assert(b.subrange(0, b.len() as int) =~= b);
    lemma_rd_tlv_frame(b, 0, 0x30, c);
    let cs: int = 1 + enc_len(c.len()).len() as int;
    let ce: int = tlv(0x30, c).len() as int;
    assert(ce == b.len());
    lemma_dec_reach_network(b, cs, ce, r);
    lemma_dec_reach_proxies(b, cs, ce, r);
    assert(ReachV { network: r.network, proxies: r.proxies } =~= r);
}

/// Canonicality under omission: the encoding of a proxy entry with an
/// empty inner reachability set carries no tagged sub-field at all; it
/// is byte-for-byte the SEQUENCE holding only the proxy address.
pub proof fn lemma_proxy_empty_inner_set_omitted(p: ProxyV)
    requires
        p.reach.len() == 0,
    ensures
        enc_proxy(p) == tlv(0x30, tlv(0x04, p.addr)),
{
    assert(tlv(0x04, p.addr) + Seq::<u8>::empty() =~= tlv(0x04, p.addr));
}

// ---------------------------------------------------------------------
// Set construction
// ---------------------------------------------------------------------

/// The canonical set collecting the given members into `acc`.
pub open spec fn ip_set_of(items: Seq<NodeIpReachability>, acc: Seq<NodeIpReachability>) -> Seq<
    NodeIpReachability,
>
    decreases items.len(),
{
    if items.len() == 0 {
        acc
    } else {
        ip_set_of(items.skip(1), insert_ip(items[0], acc))
    }
}

pub open spec fn proxy_set_of(items: Seq<ProxyV>, acc: Seq<ProxyV>) -> Seq<ProxyV>
    decreases items.len(),
{
    if items.len() == 0 {
        acc
    } else {
        proxy_set_of(items.skip(1), insert_proxy(items[0], acc))
    }
}

/// Inserting keeps a set canonical, and adds no member but `x`.
proof fn lemma_insert_ip_props(x: NodeIpReachability, s: Seq<NodeIpReachability>)
    requires
        ip_sorted(s),
    ensures
        ip_sorted(insert_ip(x, s)),
        forall|y: NodeIpReachability|
            insert_ip(x, s).contains(y) ==> (s.contains(y) || y == x),
    decreases s.len(),
{
    let r = insert_ip(x, s);
    if s.len() == 0 {
    } else if bytes_lt(enc_ip(x), enc_ip(s[0])) {
        assert forall|k: int, l: int| 0 <= k < l < r.len() implies bytes_lt(
            enc_ip(#[trigger] r[k]),
            enc_ip(#[trigger] r[l]),
        ) by {
            if k == 0 {
                assert(r[l] == s[l - 1]);
                if l > 1 {
                    crate::der::lemma_bytes_lt_trans(enc_ip(x), enc_ip(s[0]), enc_ip(s[l - 1]));
                }
            } else {
                assert(r[k] == s[k - 1] && r[l] == s[l - 1]);
            }
        }
    } else if enc_ip(x) == enc_ip(s[0]) {
    } else {
        lemma_bytes_lt_asym(enc_ip(x), enc_ip(s[0]));
        lemma_bytes_lt_asym(enc_ip(s[0]), enc_ip(x));
        assert(bytes_lt(enc_ip(s[0]), enc_ip(x)));
        assert(ip_sorted(s.skip(1)));
        lemma_insert_ip_props(x, s.skip(1));
        let t = insert_ip(x, s.skip(1));
        assert forall|k: int, l: int| 0 <= k < l < r.len() implies bytes_lt(
            enc_ip(#[trigger] r[k]),
            enc_ip(#[trigger] r[l]),
        ) by {
            if k == 0 {
                assert(r[l] == t[l - 1]);
                assert(t.contains(t[l - 1]));
                if s.skip(1).contains(t[l - 1]) {
                    let w = choose|w: int| 0 <= w < s.skip(1).len() && s.skip(1)[w] == t[l - 1];
                    assert(s[w + 1] == t[l - 1]);
                } else {
                    assert(t[l - 1] == x);
                }
            } else {
                assert(r[k] == t[k - 1] && r[l] == t[l - 1]);
            }
        }
        assert forall|y: NodeIpReachability| r.contains(y) implies (s.contains(y) || y == x) by {
            let w = choose|w: int| 0 <= w < r.len() && r[w] == y;
            if w == 0 {
                assert(s[0] == y);
            } else {
                assert(t[w - 1] == y);
                assert(t.contains(y));
                if s.skip(1).contains(y) {
                    let v = choose|v: int| 0 <= v < s.skip(1).len() && s.skip(1)[v] == y;
                    assert(s[v + 1] == y);
                }
            }
        }
    }
}

proof fn lemma_insert_proxy_props(x: ProxyV, s: Seq<ProxyV>)
    requires
        proxy_sorted(s),
    ensures
        proxy_sorted(insert_proxy(x, s)),
        forall|y: ProxyV| insert_proxy(x, s).contains(y) ==> (s.contains(y) || y == x),
    decreases s.len(),
{
    let r = insert_proxy(x, s);
    if s.len() == 0 {
    } else if bytes_lt(enc_proxy(x), enc_proxy(s[0])) {
        assert forall|k: int, l: int| 0 <= k < l < r.len() implies bytes_lt(
            enc_proxy(#[trigger] r[k]),
            enc_proxy(#[trigger] r[l]),
        ) by {
            if k == 0 {
                assert(r[l] == s[l - 1]);
                if l > 1 {
                    crate::der::lemma_bytes_lt_trans(
                        enc_proxy(x),
                        enc_proxy(s[0]),
                        enc_proxy(s[l - 1]),
                    );
                }
            } else {
                assert(r[k] == s[k - 1] && r[l] == s[l - 1]);
            }
        }
    } else if enc_proxy(x) == enc_proxy(s[0]) {
    } else {
        lemma_bytes_lt_asym(enc_proxy(x), enc_proxy(s[0]));
        lemma_bytes_lt_asym(enc_proxy(s[0]), enc_proxy(x));
        assert(bytes_lt(enc_proxy(s[0]), enc_proxy(x)));
        assert(proxy_sorted(s.skip(1)));
        lemma_insert_proxy_props(x, s.skip(1));
        let t = insert_proxy(x, s.skip(1));
        assert forall|k: int, l: int| 0 <= k < l < r.len() implies bytes_lt(
            enc_proxy(#[trigger] r[k]),
            enc_proxy(#[trigger] r[l]),
        ) by {
            if k == 0 {
                assert(r[l] == t[l - 1]);
                assert(t.contains(t[l - 1]));
                if s.skip(1).contains(t[l - 1]) {
                    let w = choose|w: int| 0 <= w < s.skip(1).len() && s.skip(1)[w] == t[l - 1];
                    assert(s[w + 1] == t[l - 1]);
                } else {
                    assert(t[l - 1] == x);
                }
            } else {
                assert(r[k] == t[k - 1] && r[l] == t[l - 1]);
            }
        }
        assert forall|y: ProxyV| r.contains(y) implies (s.contains(y) || y == x) by {
            let w = choose|w: int| 0 <= w < r.len() && r[w] == y;
            if w == 0 {
                assert(s[0] == y);
            } else {
                assert(t[w - 1] == y);
                assert(t.contains(y));
                if s.skip(1).contains(y) {
                    let v = choose|v: int| 0 <= v < s.skip(1).len() && s.skip(1)[v] == y;
                    assert(s[v + 1] == y);
                }
            }
        }
    }
}

/// The collected set is canonical, and every member comes from the
/// accumulator or the items.
pub proof fn lemma_ip_set_of_props(items: Seq<NodeIpReachability>, acc: Seq<NodeIpReachability>)
    requires
        ip_sorted(acc),
    ensures
        ip_sorted(ip_set_of(items, acc)),
        forall|y: NodeIpReachability|
            ip_set_of(items, acc).contains(y) ==> (acc.contains(y) || items.contains(y)),
    decreases items.len(),
{
    if items.len() > 0 {
        lemma_insert_ip_props(items[0], acc);
        lemma_ip_set_of_props(items.skip(1), insert_ip(items[0], acc));
        assert forall|y: NodeIpReachability| ip_set_of(items, acc).contains(y) implies (
        acc.contains(y) || items.contains(y)) by {
            if !acc.contains(y) {
                if insert_ip(items[0], acc).contains(y) {
                    assert(y == items[0]);
                    assert(items.contains(y));
                } else {
                    assert(items.skip(1).contains(y));
                    let v = choose|v: int| 0 <= v < items.skip(1).len() && items.skip(1)[v] == y;
                    assert(items[v + 1] == y);
                }
            }
        }
    }
}

pub proof fn lemma_proxy_set_of_props(items: Seq<ProxyV>, acc: Seq<ProxyV>)
    requires
        proxy_sorted(acc),
    ensures
        proxy_sorted(proxy_set_of(items, acc)),
        forall|y: ProxyV|
            proxy_set_of(items, acc).contains(y) ==> (acc.contains(y) || items.contains(y)),
    decreases items.len(),
{
    if items.len() > 0 {
        lemma_insert_proxy_props(items[0], acc);
        lemma_proxy_set_of_props(items.skip(1), insert_proxy(items[0], acc));
        assert forall|y: ProxyV| proxy_set_of(items, acc).contains(y) implies (acc.contains(y)
            || items.contains(y)) by {
            if !acc.contains(y) {
                if insert_proxy(items[0], acc).contains(y) {
                    assert(y == items[0]);
                    assert(items.contains(y));
                } else {
                    assert(items.skip(1).contains(y));
                    let v = choose|v: int| 0 <= v < items.skip(1).len() && items.skip(1)[v] == y;
                    assert(items[v + 1] == y);
                }
            }
        }
    }
}

// ---------------------------------------------------------------------
// Decoded sets are canonical
// ---------------------------------------------------------------------

proof fn lemma_dec_ip_set_sorted(b: Seq<u8>, i: int, end: int, acc: Seq<NodeIpReachability>)
    requires
        ip_sorted(acc),
    ensures
        dec_ip_set(b, i, end, acc) matches Some(v) ==> ip_sorted(v),
    decreases end - i,
{
    if i != end && 0 <= i < end <= b.len() {
        if let Some((e, j)) = dec_ip_at(b, i) {
            if i < j <= end {
                lemma_insert_ip_props(e, acc);
                lemma_dec_ip_set_sorted(b, j, end, insert_ip(e, acc));
            }
        }
    }
}

proof fn lemma_dec_proxy_at_sorted(b: Seq<u8>, i: int)
    ensures
        dec_proxy_at(b, i) matches Some(p) ==> ip_sorted(p.0.reach),
{
    if let Some((t, cs, ce)) = rd_tlv(b, i) {
        if t == 0x30 {
            if let Some((t2, as_, ae)) = rd_tlv(b, cs) {
                if t2 == 0x04 && ae != ce {
                    if let Some((t3, ss, se)) = rd_tlv(b, ae) {
                        if t3 == 0xa0 && se == ce {
                            if let Some((t4, es, ee)) = rd_tlv(b, ss) {
                                if t4 == 0x31 && ee == se {
                                    lemma_dec_ip_set_sorted(
                                        b,
                                        es,
                                        ee,
                                        Seq::<NodeIpReachability>::empty(),
                                    );
                                }
                            }
                        }
                    }
                }
            }
        }
    }
}

proof fn lemma_dec_proxy_set_sorted(b: Seq<u8>, i: int, end: int, acc: Seq<ProxyV>)
    requires
        proxy_sorted(acc),
        forall|k: int| 0 <= k < acc.len() ==> ip_sorted(#[trigger] acc[k].reach),
    ensures
        dec_proxy_set(b, i, end, acc) matches Some(v) ==> proxy_sorted(v) && forall|k: int|
            0 <= k < v.len() ==> ip_sorted(#[trigger] v[k].reach),
    decreases end - i,
{
    if i != end && 0 <= i < end <= b.len() {
        if let Some((p, j)) = dec_proxy_at(b, i) {
            if i < j <= end {
                lemma_dec_proxy_at_sorted(b, i);
                lemma_insert_proxy_props(p, acc);
                let acc2 = insert_proxy(p, acc);
                assert forall|k: int| 0 <= k < acc2.len() implies ip_sorted(
                    #[trigger] acc2[k].reach,
                ) by {
                    assert(acc2.contains(acc2[k]));
                    if acc.contains(acc2[k]) {
                        let w = choose|w: int| 0 <= w < acc.len() && acc[w] == acc2[k];
                        assert(ip_sorted(acc[w].reach));
                    } else {
                        assert(acc2[k] == p);
                    }
                }
                lemma_dec_proxy_set_sorted(b, j, end, acc2);
            }
        }
    }
}

/// Whatever buffer it accepts, the decoder hands back canonical sets.
pub proof fn lemma_dec_reach_sorted(b: Seq<u8>)
    ensures
        dec_reach(b) matches Some(r) ==> reach_sorted(r),
{
    if let Some((t, cs, ce)) = rd_tlv(b, 0) {
        if t == 0x30 && ce == b.len() {
            if let Some((tn, ns, ne)) = rd_tlv(b, cs) {
                if tn == 0x31 {
                    lemma_dec_ip_set_sorted(b, ns, ne, Seq::<NodeIpReachability>::empty());
                    if let Some((tp, ps, pe)) = rd_tlv(b, ne) {
                        if tp == 0x31 && pe == ce {
                            lemma_dec_proxy_set_sorted(b, ps, pe, Seq::<ProxyV>::empty());
                        }
                    }
                }
            }
        }
    }
}

// ---------------------------------------------------------------------
// Executable encoding
// ---------------------------------------------------------------------

/// Views of a proxy vector.
pub open spec fn pviews(s: Seq<NodeProxyReachability>) -> Seq<ProxyV> {
    s.map_values(|p: NodeProxyReachability| p@)
}

proof fn lemma_concat_ips_snoc(s: Seq<NodeIpReachability>, k: int)
    requires
        0 <= k < s.len(),
    ensures
        concat_enc_ips(s.take(k + 1)) == concat_enc_ips(s.take(k)) + enc_ip(s[k]),
    decreases k,
{
    if k == 0 {
        assert(s.take(1) =~= seq![s[0]]);
        assert(seq![s[0]].skip(1) =~= Seq::<NodeIpReachability>::empty());
        assert(s.take(0) =~= Seq::<NodeIpReachability>::empty());
        assert(concat_enc_ips(s.take(k + 1)) =~= concat_enc_ips(s.take(k)) + enc_ip(s[k]));
    } else {
        lemma_concat_ips_snoc(s.skip(1), k - 1);
        assert(s.take(k + 1)[0] == s[0]);
        assert(s.take(k)[0] == s[0]);
        assert(s.take(k + 1).skip(1) =~= s.skip(1).take(k));
        assert(s.take(k).skip(1) =~= s.skip(1).take(k - 1));
        assert(s.skip(1)[k - 1] == s[k]);
        assert(concat_enc_ips(s.take(k + 1)) =~= concat_enc_ips(s.take(k)) + enc_ip(s[k]));
    }
}

proof fn lemma_concat_proxies_snoc(s: Seq<ProxyV>, k: int)
    requires
        0 <= k < s.len(),
    ensures
        concat_enc_proxies(s.take(k + 1)) == concat_enc_proxies(s.take(k)) + enc_proxy(s[k]),
    decreases k,
{
    if k == 0 {
        assert(s.take(1) =~= seq![s[0]]);
        assert(seq![s[0]].skip(1) =~= Seq::<ProxyV>::empty());
        assert(s.take(0) =~= Seq::<ProxyV>::empty());
        assert(concat_enc_proxies(s.take(k + 1)) =~= concat_enc_proxies(s.take(k)) + enc_proxy(
            s[k],
        ));
    } else {
        lemma_concat_proxies_snoc(s.skip(1), k - 1);
        assert(s.take(k + 1)[0] == s[0]);
        assert(s.take(k)[0] == s[0]);
        assert(s.take(k + 1).skip(1) =~= s.skip(1).take(k));
        assert(s.take(k).skip(1) =~= s.skip(1).take(k - 1));
        assert(s.skip(1)[k - 1] == s[k]);
        assert(concat_enc_proxies(s.take(k + 1)) =~= concat_enc_proxies(s.take(k)) + enc_proxy(
            s[k],
        ));
    }
}

fn encode_ip_set(items: &Vec<NodeIpReachability>) -> (r: Vec<u8>)
    ensures
        r@ == concat_enc_ips(items@),
{
    let mut r: Vec<u8> = Vec::new();
    let mut k: usize = 0;
    proof {
        assert(items@.take(0) =~= Seq::<NodeIpReachability>::empty());
    }
    while k < items.len()
        invariant
            k <= items@.len(),
            r@ == concat_enc_ips(items@.take(k as int)),
        decreases items@.len() - k,
    {
        let mut e = items[k].encode_der();
        r.append(&mut e);
        proof {
            lemma_concat_ips_snoc(items@, k as int);
        }
        k = k + 1;
    }
    proof {
        assert(items@.take(items@.len() as int) =~= items@);
    }
    r
}

impl NodeIpReachability {
    /// Serializes the entry into its canonical DER form.
    pub fn encode_der(&self) -> (r: Vec<u8>)
        ensures
            r@ == enc_ip(*self),
    {
        let text = self.address.to_text();
        let mut content = write_tlv(0x0c, text);
        if let Some(p) = self.quic_port {
            let mut f = write_tagged_int(0xa0, p as u64);
            content.append(&mut f);
        }
        proof {
            assert(content@ =~= tlv(0x0c, ip_text(self.address)) + port_field(self.quic_port));
        }
        write_tlv(0x30, content)
    }
}

impl NodeProxyReachability {
    /// Serializes the entry into its canonical DER form; an empty inner
    /// set is omitted entirely.
    pub fn encode_der(&self) -> (r: Vec<u8>)
        ensures
            r@ == enc_proxy(self@),
    {
        let mut content = write_tlv(0x04, self.proxy_address.clone());
        if self.proxy_reachability.len() > 0 {
            let inner = encode_ip_set(&self.proxy_reachability);
            let mut f = write_tlv(0xa0, write_tlv(0x31, inner));
            content.append(&mut f);
        }
        proof {
            assert(content@ =~= tlv(0x04, self@.addr) + if self@.reach.len() == 0 {
                Seq::<u8>::empty()
            } else {
                tlv(0xa0, tlv(0x31, concat_enc_ips(self@.reach)))
            });
        }
        write_tlv(0x30, content)
    }
}

fn encode_proxy_set(items: &Vec<NodeProxyReachability>) -> (r: Vec<u8>)
    ensures
        r@ == concat_enc_proxies(pviews(items@)),
{
    let mut r: Vec<u8> = Vec::new();
    let mut k: usize = 0;
    proof {
        assert(pviews(items@).take(0) =~= Seq::<ProxyV>::empty());
    }
    while k < items.len()
        invariant
            k <= items@.len(),
            r@ == concat_enc_proxies(pviews(items@).take(k as int)),
        decreases items@.len() - k,
    {
        let mut e = items[k].encode_der();
        proof {
            assert(pviews(items@)[k as int] == items@[k as int]@);
        }
        r.append(&mut e);
        proof {
            lemma_concat_proxies_snoc(pviews(items@), k as int);
        }
        k = k + 1;
    }
    proof {
        assert(pviews(items@).take(pviews(items@).len() as int) =~= pviews(items@));
    }
    r
}

impl NodeReachabilityInformation {
    /// Serializes the structure into its canonical DER form.
    pub fn encode_der(&self) -> (r: Vec<u8>)
        ensures
            r@ == enc_reach(self@),
    {
        let n = write_tlv(0x31, encode_ip_set(&self.network_reachability));
        let mut p = write_tlv(0x31, encode_proxy_set(&self.proxy_reachability));
        let mut content = n;
        content.append(&mut p);
        proof {
            assert(content@ =~= tlv(0x31, concat_enc_ips(self@.network)) + tlv(
                0x31,
                concat_enc_proxies(self@.proxies),
            ));
        }
        write_tlv(0x30, content)
    }
}

// ---------------------------------------------------------------------
// Executable decoding
// ---------------------------------------------------------------------

fn copy_range(b: &[u8], i: usize, j: usize) -> (r: Vec<u8>)
    requires
        i <= j <= b@.len(),
    ensures
        r@ == b@.subrange(i as int, j as int),
{
    let mut r: Vec<u8> = Vec::new();
    let mut k: usize = i;
    while k < j
        invariant
            i <= k <= j <= b@.len(),
            r@ == b@.subrange(i as int, k as int),
        decreases j - k,
    {
        r.push(b[k]);
        proof {
            assert(b@.subrange(i as int, k + 1 as int) =~= b@.subrange(i as int, k as int).push(
                b@[k as int],
            ));
        }
        k = k + 1;
    }
    r
}

fn dec_ip_at_exec(b: &[u8], i: usize) -> (r: Option<(NodeIpReachability, usize)>)
    ensures
        match r {
            Some((e, j)) => dec_ip_at(b@, i as int) == Some((e, j as int)) && i < j <= b@.len(),
            None => dec_ip_at(b@, i as int) is None,
        },
{
    let (t, cs, ce) = match rd_tlv_exec(b, i) {
        Some(x) => x,
        None => {
            return None;
        },
    };
    if t != 0x30 {
        return None;
    }
    let (t2, ts, te) = match rd_tlv_exec(b, cs) {
        Some(x) => x,
        None => {
            return None;
        },
    };
    if t2 != 0x0c {
        return None;
    }
    let addr = match parse_ip_exec(&b[ts..te]) {
        Some(a) => a,
        None => {
            return None;
        },
    };
    if te > ce {
        return None;
    }
    let (port, k) = match rd_opt_tagged_int_exec(b, te, ce, 0xa0, 0xffff) {
        Some(x) => x,
        None => {
            return None;
        },
    };
    if k != ce {
        return None;
    }
    let quic_port = match port {
        None => None,
        Some(v) => Some(v as u16),
    };
    Some((NodeIpReachability { address: addr, quic_port }, ce))
}

fn insert_ip_exec(x: NodeIpReachability, s: Vec<NodeIpReachability>) -> (r: Vec<
    NodeIpReachability,
>)
    ensures
        r@ == insert_ip(x, s@),
    decreases s@.len(),
{
    if s.len() == 0 {
        let mut r = s;
        r.push(x);
        proof {
            assert(r@ =~= seq![x]);
        }
        r
    } else {
        let ex = x.encode_der();
        let e0 = s[0].encode_der();
        match bytes_cmp(ex.as_slice(), e0.as_slice()) {
            Cmp::Lt => {
                let mut r = s;
                r.insert(0, x);
                proof {
                    assert(r@ =~= seq![x] + s@);
                }
                r
            },
            Cmp::Eq => s,
            Cmp::Gt => {
                let mut ss = s;
                let h = ss.remove(0);
                proof {
                    assert(ss@ =~= s@.skip(1));
                }
                let t = insert_ip_exec(x, ss);
                let mut r = t;
                r.insert(0, h);
                proof {
                    assert(r@ =~= seq![h] + insert_ip(x, s@.skip(1)));
                }
                r
            },
        }
    }
}

fn dec_ip_set_exec(b: &[u8], i: usize, end: usize, acc: Vec<NodeIpReachability>) -> (r: Option<
    Vec<NodeIpReachability>,
>)
    requires
        i <= end <= b@.len(),
    ensures
        match r {
            Some(v) => dec_ip_set(b@, i as int, end as int, acc@) == Some(v@),
            None => dec_ip_set(b@, i as int, end as int, acc@) is None,
        },
    decreases end - i,
{
    if i == end {
        return Some(acc);
    }
    match dec_ip_at_exec(b, i) {
        Some((e, j)) => {
            if j <= end {
                let acc2 = insert_ip_exec(e, acc);
                dec_ip_set_exec(b, j, end, acc2)
            } else {
                None
            }
        },
        None => None,
    }
}

fn dec_proxy_at_exec(b: &[u8], i: usize) -> (r: Option<(NodeProxyReachability, usize)>)
    ensures
        match r {
            Some((p, j)) => dec_proxy_at(b@, i as int) == Some((p@, j as int)) && i < j
                <= b@.len(),
            None => dec_proxy_at(b@, i as int) is None,
        },
{
    let (t, cs, ce) = match rd_tlv_exec(b, i) {
        Some(x) => x,
        None => {
            return None;
        },
    };
    if t != 0x30 {
        return None;
    }
    let (t2, as_, ae) = match rd_tlv_exec(b, cs) {
        Some(x) => x,
        None => {
            return None;
        },
    };
    if t2 != 0x04 {
        return None;
    }
    let addr = copy_range(b, as_, ae);
    if ae == ce {
        let r = NodeProxyReachability { proxy_address: addr, proxy_reachability: Vec::new() };
        proof {
            assert(r@ =~= ProxyV { addr: b@.subrange(as_ as int, ae as int), reach: Seq::empty() });
        }
        return Some((r, ce));
    }
    let (t3, ss, se) = match rd_tlv_exec(b, ae) {
        Some(x) => x,
        None => {
            return None;
        },
    };
    if t3 != 0xa0 || se != ce {
        return None;
    }
    let (t4, es, ee) = match rd_tlv_exec(b, ss) {
        Some(x) => x,
        None => {
            return None;
        },
    };
    if t4 != 0x31 || ee != se {
        return None;
    }
    let empty_acc: Vec<NodeIpReachability> = Vec::new();
    proof {
        assert(empty_acc@ =~= Seq::<NodeIpReachability>::empty());
    }
    let reach = match dec_ip_set_exec(b, es, ee, empty_acc) {
        Some(v) => v,
        None => {
            return None;
        },
    };
    let r = NodeProxyReachability { proxy_address: addr, proxy_reachability: reach };
    proof {
        assert(r@ =~= ProxyV { addr: b@.subrange(as_ as int, ae as int), reach: reach@ });
    }
    Some((r, ce))
}

fn insert_proxy_exec(x: NodeProxyReachability, s: Vec<NodeProxyReachability>) -> (r: Vec<
    NodeProxyReachability,
>)
    ensures
        pviews(r@) == insert_proxy(x@, pviews(s@)),
    decreases s@.len(),
{
    if s.len() == 0 {
        let mut r = s;
        r.push(x);
        proof {
            assert(pviews(r@) =~= seq![x@]);
            assert(pviews(s@) =~= Seq::<ProxyV>::empty());
        }
        r
    } else {
        let ex = x.encode_der();
        let e0 = s[0].encode_der();
        proof {
            assert(pviews(s@)[0] == s@[0]@);
        }
        match bytes_cmp(ex.as_slice(), e0.as_slice()) {
            Cmp::Lt => {
                let mut r = s;
                r.insert(0, x);
                proof {
                    assert(pviews(r@) =~= seq![x@] + pviews(s@));
                }
                r
            },
            Cmp::Eq => {
                proof {
                    assert(insert_proxy(x@, pviews(s@)) == pviews(s@));
                }
                s
            },
            Cmp::Gt => {
                let mut ss = s;
                let h = ss.remove(0);
                proof {
                    assert(pviews(ss@) =~= pviews(s@).skip(1));
                }
                let t = insert_proxy_exec(x, ss);
                let mut r = t;
                r.insert(0, h);
                proof {
                    assert(pviews(r@) =~= seq![h@] + insert_proxy(x@, pviews(s@).skip(1)));
                }
                r
            },
        }
    }
}

fn dec_proxy_set_exec(b: &[u8], i: usize, end: usize, acc: Vec<NodeProxyReachability>) -> (r:
    Option<Vec<NodeProxyReachability>>)
    requires
        i <= end <= b@.len(),
    ensures
        match r {
            Some(v) => dec_proxy_set(b@, i as int, end as int, pviews(acc@)) == Some(pviews(v@)),
            None => dec_proxy_set(b@, i as int, end as int, pviews(acc@)) is None,
        },
    decreases end - i,
{
    if i == end {
        return Some(acc);
    }
    match dec_proxy_at_exec(b, i) {
        Some((p, j)) => {
            if j <= end {
                let acc2 = insert_proxy_exec(p, acc);
                dec_proxy_set_exec(b, j, end, acc2)
            } else {
                None
            }
        },
        None => None,
    }
}

/// Strict decoding of one direct-reachability entry spanning the buffer.
pub open spec fn dec_ip_strict(b: Seq<u8>) -> Option<NodeIpReachability> {
    match dec_ip_at(b, 0) {
        Some((e, j)) => {
            if j == b.len() {
                Some(e)
            } else {
                None
            }
        },
        None => None,
    }
}

/// Strict decoding of one proxy entry spanning the buffer.
pub open spec fn dec_proxy_strict(b: Seq<u8>) -> Option<ProxyV> {
    match dec_proxy_at(b, 0) {
        Some((p, j)) => {
            if j == b.len() {
                Some(p)
            } else {
                None
            }
        },
        None => None,
    }
}

/// Round-trip law for one entry: decoding its own encoding yields it.
pub proof fn lemma_ip_entry_round_trip(e: NodeIpReachability)
    ensures
        dec_ip_strict(enc_ip(e)) == Some(e),
{
    let b = enc_ip(e);
    assert(b.subrange(0, b.len() as int) =~= b);
    lemma_dec_ip_at_frame(b, 0, e);
}

/// Round-trip law for one proxy entry: decoding its own encoding yields it.
pub proof fn lemma_proxy_entry_round_trip(p: ProxyV)
    requires
        proxy_wf(p),
    ensures
        dec_proxy_strict(enc_proxy(p)) == Some(p),
{
    let b = enc_proxy(p);
    assert(b.subrange(0, b.len() as int) =~= b);
    lemma_dec_proxy_at_frame(b, 0, p);
}

impl NodeIpReachability {
    /// Parses a buffer holding exactly one entry.
    pub fn decode_ber(bytes: &[u8]) -> (r: Result<NodeIpReachability, DecodeError>)
        ensures
            match r {
                Ok(e) => dec_ip_strict(bytes@) == Some(e),
                Err(_) => dec_ip_strict(bytes@) is None,
            },
    {
        match dec_ip_at_exec(bytes, 0) {
            Some((e, j)) => {
                if j == bytes.len() {
                    Ok(e)
                } else {
                    Err(DecodeError::Malformed)
                }
            },
            None => Err(DecodeError::Malformed),
        }
    }
}

impl NodeProxyReachability {
    /// Parses a buffer holding exactly one proxy entry.
    pub fn decode_ber(bytes: &[u8]) -> (r: Result<NodeProxyReachability, DecodeError>)
        ensures
            match r {
                Ok(p) => dec_proxy_strict(bytes@) == Some(p@) && ip_sorted(p@.reach),
                Err(_) => dec_proxy_strict(bytes@) is None,
            },
    {
        proof {
            lemma_dec_proxy_at_sorted(bytes@, 0);
        }
        match dec_proxy_at_exec(bytes, 0) {
            Some((p, j)) => {
                if j == bytes.len() {
                    Ok(p)
                } else {
                    Err(DecodeError::Malformed)
                }
            },
            None => Err(DecodeError::Malformed),
        }
    }
}

impl NodeReachabilityInformation {
    /// Parses a buffer as a reachability structure; rejects anything
    /// that is not exactly one well-formed encoding, accepting the set
    /// members in any order.
    pub fn decode_ber(bytes: &[u8]) -> (r: Result<NodeReachabilityInformation, DecodeError>)
        ensures
            match r {
                Ok(v) => dec_reach(bytes@) == Some(v@) && reach_sorted(v@),
                Err(_) => dec_reach(bytes@) is None,
            },
    {
        proof {
            lemma_dec_reach_sorted(bytes@);
        }
        let (t, cs, ce) = match rd_tlv_exec(bytes, 0) {
            Some(x) => x,
            None => {
                return Err(DecodeError::Malformed);
            },
        };
        if t != 0x30 || ce != bytes.len() {
            return Err(DecodeError::Malformed);
        }
        let (tn, ns, ne) = match rd_tlv_exec(bytes, cs) {
            Some(x) => x,
            None => {
                return Err(DecodeError::Malformed);
            },
        };
        if tn != 0x31 {
            return Err(DecodeError::Malformed);
        }
        let empty_ips: Vec<NodeIpReachability> = Vec::new();
        proof {
            assert(empty_ips@ =~= Seq::<NodeIpReachability>::empty());
        }
        let network = match dec_ip_set_exec(bytes, ns, ne, empty_ips) {
            Some(v) => v,
            None => {
                return Err(DecodeError::Malformed);
            },
        };
        let (tp, ps, pe) = match rd_tlv_exec(bytes, ne) {
            Some(x) => x,
            None => {
                return Err(DecodeError::Malformed);
            },
        };
        if tp != 0x31 || pe != ce {
            return Err(DecodeError::Malformed);
        }
        let empty_proxies: Vec<NodeProxyReachability> = Vec::new();
        proof {
            assert(pviews(empty_proxies@) =~= Seq::<ProxyV>::empty());
        }
        let proxies = match dec_proxy_set_exec(bytes, ps, pe, empty_proxies) {
            Some(v) => v,
            None => {
                return Err(DecodeError::Malformed);
            },
        };
        let r = NodeReachabilityInformation {
            network_reachability: network,
            proxy_reachability: proxies,
        };
        proof {
            assert(r@ =~= ReachV { network: network@, proxies: pviews(proxies@) });
        }
        Ok(r)
    }
}

// ---------------------------------------------------------------------
// Constructors: collecting members into canonical sets
// ---------------------------------------------------------------------

fn collect_ip_set(items: Vec<NodeIpReachability>) -> (r: Vec<NodeIpReachability>)
    ensures
        r@ == ip_set_of(items@, Seq::empty()),
        ip_sorted(r@),
{
    let mut acc: Vec<NodeIpReachability> = Vec::new();
    let mut k: usize = 0;
    proof {
        assert(acc@ =~= Seq::<NodeIpReachability>::empty());
        assert(items@.skip(0) =~= items@);
    }
    while k < items.len()
        invariant
            k <= items@.len(),
            ip_sorted(acc@),
            ip_set_of(items@.skip(k as int), acc@) == ip_set_of(items@, Seq::empty()),
        decreases items@.len() - k,
    {
        proof {
            lemma_insert_ip_props(items@[k as int], acc@);
            assert(items@.skip(k as int)[0] == items@[k as int]);
            assert(items@.skip(k as int).skip(1) =~= items@.skip(k as int + 1));
        }
        acc = insert_ip_exec(items[k], acc);
        k = k + 1;
    }
    proof {
        assert(items@.skip(items@.len() as int).len() == 0);
    }
    acc
}

impl NodeProxyReachability {
    /// Builds a proxy entry, collecting the given addresses into a
    /// canonical set (duplicates collapse, order carries no meaning).
    pub fn new(proxy_address: Vec<u8>, reachability: Vec<NodeIpReachability>) -> (r:
        NodeProxyReachability)
        ensures
            r@.addr == proxy_address@,
            r@.reach == ip_set_of(reachability@, Seq::empty()),
            ip_sorted(r@.reach),
    {
        let set = collect_ip_set(reachability);
        NodeProxyReachability { proxy_address, proxy_reachability: set }
    }
}

impl NodeReachabilityInformation {
    /// Builds a reachability structure, collecting both member lists
    /// into canonical sets (duplicates collapse, order carries no
    /// meaning).
    #[verifier::rlimit(100)]
    pub fn new(
        network: Vec<NodeIpReachability>,
        proxies: Vec<NodeProxyReachability>,
    ) -> (r: NodeReachabilityInformation)
        requires
            forall|k: int|
                0 <= k < proxies@.len() ==> ip_sorted(#[trigger] proxies@[k]@.reach),
        ensures
            r@.network == ip_set_of(network@, Seq::empty()),
            r@.proxies == proxy_set_of(pviews(proxies@), Seq::empty()),
            reach_sorted(r@),
    {
        let ghost all = pviews(proxies@);
        let net = collect_ip_set(network);
        let mut acc: Vec<NodeProxyReachability> = Vec::new();
        let mut rest = proxies;
        proof {
            assert(pviews(acc@) =~= Seq::<ProxyV>::empty());
        }
        while rest.len() > 0
            invariant
                proxy_sorted(pviews(acc@)),
                forall|q: int| 0 <= q < rest@.len() ==> ip_sorted(#[trigger] rest@[q]@.reach),
                forall|q: int| 0 <= q < acc@.len() ==> ip_sorted(#[trigger] acc@[q]@.reach),
                proxy_set_of(pviews(rest@), pviews(acc@)) == proxy_set_of(all, Seq::empty()),
            decreases rest@.len(),
        {
            proof {
                lemma_insert_proxy_props(rest@[0]@, pviews(acc@));
                assert(pviews(rest@)[0] == rest@[0]@);
            }
            let ghost old_acc = acc@;
            let ghost old_rest = rest@;
            let item = rest.remove(0);
            proof {
                assert(pviews(rest@) =~= pviews(old_rest).skip(1));
            }
            acc = insert_proxy_exec(item, acc);
            proof {
                assert forall|q: int| 0 <= q < acc@.len() implies ip_sorted(
                    #[trigger] acc@[q]@.reach,
                ) by {
                    assert(pviews(acc@)[q] == acc@[q]@);
                    assert(pviews(acc@).contains(acc@[q]@));
                    if pviews(old_acc).contains(acc@[q]@) {
                        let w = choose|w: int|
                            0 <= w < pviews(old_acc).len() && pviews(old_acc)[w] == acc@[q]@;
                        assert(old_acc[w]@ == acc@[q]@);
                    } else {
                        assert(acc@[q]@ == old_rest[0]@);
                    }
                }
            }
        }
        proof {
            assert(pviews(rest@).len() == 0);
        }
        let r = NodeReachabilityInformation { network_reachability: net, proxy_reachability: acc };
        proof {
            assert(r@.proxies =~= pviews(acc@));
        }
        r
    }
}

impl Default for NodeReachabilityInformation {
    /// The default value carries no reachability at all.
    fn default() -> (r: Self)
        ensures
            r@.network.len() == 0,
            r@.proxies.len() == 0,
            reach_sorted(r@),
    {
        let r = NodeReachabilityInformation {
            network_reachability: Vec::new(),
            proxy_reachability: Vec::new(),
        };
        proof {
            assert(r@.proxies =~= Seq::<ProxyV>::empty());
        }
        r
    }
}

// ---------------------------------------------------------------------
// Equality
// ---------------------------------------------------------------------

fn ip_vec_eq(a: &Vec<NodeIpReachability>, b: &Vec<NodeIpReachability>) -> (r: bool)
    ensures
        r <==> a@ == b@,
{
    if a.len() != b.len() {
        proof {
            assert(a@.len() != b@.len());
        }
        return false;
    }
    let mut k: usize = 0;
    while k < a.len()
        invariant
            k <= a@.len(),
            a@.len() == b@.len(),
            forall|j: int| 0 <= j < k ==> a@[j] == b@[j],
        decreases a@.len() - k,
    {
        if a[k] != b[k] {
            return false;
        }
        k = k + 1;
    }
    proof {
        assert(a@ =~= b@);
    }
    true
}

impl PartialEq for NodeProxyReachability {
    /// Structural equality over the mathematical value.
    fn eq(&self, other: &Self) -> (r: bool) {
        let addr_eq = crate::der::bytes_cmp(
            self.proxy_address.as_slice(),
            other.proxy_address.as_slice(),
        ) == Cmp::Eq;
        let reach_eq = ip_vec_eq(&self.proxy_reachability, &other.proxy_reachability);
        proof {
            if addr_eq && reach_eq {
                assert(self@ =~= other@);
            }
        }
        addr_eq && reach_eq
    }
}

impl vstd::std_specs::cmp::PartialEqSpecImpl for NodeProxyReachability {
    open spec fn obeys_eq_spec() -> bool {
        true
    }

    open spec fn eq_spec(&self, other: &Self) -> bool {
        self@ == other@
    }
}

fn proxy_vec_eq(a: &Vec<NodeProxyReachability>, b: &Vec<NodeProxyReachability>) -> (r: bool)
    ensures
        r <==> pviews(a@) == pviews(b@),
{
    if a.len() != b.len() {
        proof {
            assert(pviews(a@).len() != pviews(b@).len());
        }
        return false;
    }
    let mut k: usize = 0;
    while k < a.len()
        invariant
            k <= a@.len(),
            a@.len() == b@.len(),
            forall|j: int| 0 <= j < k ==> a@[j]@ == b@[j]@,
        decreases a@.len() - k,
    {
        if !(a[k] == b[k]) {
            proof {
                assert(pviews(a@)[k as int] == a@[k as int]@);
                assert(pviews(b@)[k as int] == b@[k as int]@);
            }
            return false;
        }
        k = k + 1;
    }
    proof {
        assert(pviews(a@) =~= pviews(b@));
    }
    true
}

impl PartialEq for NodeReachabilityInformation {
    /// Structural equality over the mathematical value.
    fn eq(&self, other: &Self) -> (r: bool) {
        let net_eq = ip_vec_eq(&self.network_reachability, &other.network_reachability);
        let prox_eq = proxy_vec_eq(&self.proxy_reachability, &other.proxy_reachability);
        proof {
            if net_eq && prox_eq {
                assert(self@ =~= other@);
            }
        }
        net_eq && prox_eq
    }
}

impl vstd::std_specs::cmp::PartialEqSpecImpl for NodeReachabilityInformation {
    open spec fn obeys_eq_spec() -> bool {
        true
    }

    open spec fn eq_spec(&self, other: &Self) -> bool {
        self@ == other@
    }
}

} // verus!
