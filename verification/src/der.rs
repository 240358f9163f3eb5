//! Canonical DER primitives shared by the attribute codecs.
//!
//! The wire form of every attribute structure is built from
//! tag-length-value (TLV) triples: a one-byte tag, a definite length in
//! shortest form, and the content bytes.  This module defines the
//! mathematical encoding functions, the position-based readers that the
//! decoders are specified against, and the lemmas that connect the two.

use vstd::prelude::*;

verus! {

/// Error returned by the strict attribute decoders: the buffer is not a
/// valid encoding of the requested structure (short, malformed, trailing
/// data, or an address text that is not an IP address).
#[derive(Clone, Copy, Debug, PartialEq, Eq, Structural)]
pub enum DecodeError {
    Malformed,
}

/// Result of a three-way byte-string comparison.
#[derive(Clone, Copy, Debug, PartialEq, Eq, Structural)]
pub enum Cmp {
    Lt,
    Eq,
    Gt,
}

// ---------------------------------------------------------------------
// Lexicographic order on byte strings
// ---------------------------------------------------------------------

/// Strict lexicographic order on the suffixes of `a` and `b` starting at `i`.
pub open spec fn bytes_lt_from(a: Seq<u8>, b: Seq<u8>, i: int) -> bool
    decreases b.len() - i,
{
    if i >= b.len() {
        false
    } else if i >= a.len() {
        true
    } else if a[i] != b[i] {
        a[i] < b[i]
    } else {
        bytes_lt_from(a, b, i + 1)
    }
}

/// Strict lexicographic order on byte strings.
pub open spec fn bytes_lt(a: Seq<u8>, b: Seq<u8>) -> bool {
    bytes_lt_from(a, b, 0)
}

/// If `a` and `b` agree strictly below `i`, the order is decided by the suffixes at `i`.
pub proof fn lemma_bytes_lt_from_agree(a: Seq<u8>, b: Seq<u8>, i: int)
    requires
        0 <= i <= a.len(),
        0 <= i <= b.len(),
        forall|j: int| 0 <= j < i ==> a[j] == b[j],
    ensures
        bytes_lt(a, b) == bytes_lt_from(a, b, i),
    decreases i,
{
    if i > 0 {
        lemma_bytes_lt_from_agree(a, b, i - 1);
        assert(bytes_lt_from(a, b, i - 1) == bytes_lt_from(a, b, i));
    }
}

/// The order is irreflexive and asymmetric.
pub proof fn lemma_bytes_lt_asym(a: Seq<u8>, b: Seq<u8>)
    ensures
        bytes_lt(a, b) ==> !bytes_lt(b, a) && a != b,
        !bytes_lt(a, b) && !bytes_lt(b, a) ==> a == b,
{
    lemma_bytes_lt_from_asym(a, b, 0);
}

proof fn lemma_bytes_lt_from_asym(a: Seq<u8>, b: Seq<u8>, i: int)
    requires
        0 <= i <= a.len(),
        0 <= i <= b.len(),
        forall|j: int| 0 <= j < i ==> a[j] == b[j],
    ensures
        bytes_lt_from(a, b, i) ==> !bytes_lt_from(b, a, i) && a != b,
        !bytes_lt_from(a, b, i) && !bytes_lt_from(b, a, i) ==> a =~= b,
    decreases a.len() + b.len() - 2 * i,
{
    if i < a.len() && i < b.len() && a[i] == b[i] {
        lemma_bytes_lt_from_asym(a, b, i + 1);
    }
}

/// The order is transitive.
pub proof fn lemma_bytes_lt_trans(a: Seq<u8>, b: Seq<u8>, c: Seq<u8>)
    requires
        bytes_lt(a, b),
        bytes_lt(b, c),
    ensures
        bytes_lt(a, c),
{
    lemma_bytes_lt_from_trans(a, b, c, 0);
}

proof fn lemma_bytes_lt_from_trans(a: Seq<u8>, b: Seq<u8>, c: Seq<u8>, i: int)
    requires
        0 <= i,
        bytes_lt_from(a, b, i),
        bytes_lt_from(b, c, i),
    ensures
        bytes_lt_from(a, c, i),
    decreases c.len() - i,
{
    if i < a.len() && i < b.len() && i < c.len() && a[i] == b[i] && b[i] == c[i] {
        lemma_bytes_lt_from_trans(a, b, c, i + 1);
    }
}

/// Three-way comparison of two byte vectors in lexicographic order.
pub fn bytes_cmp(a: &[u8], b: &[u8]) -> (r: Cmp)
    ensures
        r == Cmp::Lt <==> bytes_lt(a@, b@),
        r == Cmp::Eq <==> a@ == b@,
        r == Cmp::Gt <==> bytes_lt(b@, a@),
{
    proof {
        lemma_bytes_lt_asym(a@, b@);
    }
    let mut i: usize = 0;
    loop
        invariant
            0 <= i <= a@.len(),
            0 <= i <= b@.len(),
            forall|j: int| 0 <= j < i ==> a@[j] == b@[j],
        ensures
            bytes_lt(a@, b@) == bytes_lt_from(a@, b@, i as int),
            bytes_lt(b@, a@) == bytes_lt_from(b@, a@, i as int),
            i <= a@.len() && i <= b@.len(),
            forall|j: int| 0 <= j < i ==> a@[j] == b@[j],
            i >= a@.len() || i >= b@.len() || a@[i as int] != b@[i as int],
        decreases a@.len() - i,
    {
        proof {
            lemma_bytes_lt_from_agree(a@, b@, i as int);
            lemma_bytes_lt_from_agree(b@, a@, i as int);
        }
        if i >= a.len() || i >= b.len() {
            break;
        }
        if a[i] != b[i] {
            break;
        }
        i = i + 1;
    }
    proof {
        lemma_bytes_lt_from_agree(a@, b@, i as int);
        lemma_bytes_lt_from_agree(b@, a@, i as int);
    }
    if i < a.len() && i < b.len() {
        if a[i] < b[i] {
            Cmp::Lt
        } else {
            proof {
                assert(bytes_lt(b@, a@));
            }
            Cmp::Gt
        }
    } else if i < b.len() {
        Cmp::Lt
    } else if i < a.len() {
        Cmp::Gt
    } else {
        proof {
            assert(a@ =~= b@);
        }
        Cmp::Eq
    }
}

// ---------------------------------------------------------------------
// Subrange algebra
// ---------------------------------------------------------------------

/// When `s` sits in `b` at position `i`, any part of `s` sits in `b` at
/// the shifted position.
pub proof fn lemma_subrange_shift(b: Seq<u8>, i: int, s: Seq<u8>, lo: int, hi: int)
    requires
        0 <= i,
        i + s.len() <= b.len(),
        b.subrange(i, i + s.len()) == s,
        0 <= lo <= hi <= s.len(),
    ensures
        b.subrange(i + lo, i + hi) == s.subrange(lo, hi),
{
    assert(b.subrange(i + lo, i + hi) =~= s.subrange(lo, hi)) by {
        assert forall|k: int| 0 <= k < hi - lo implies b.subrange(i + lo, i + hi)[k] == s.subrange(
            lo,
            hi,
        )[k] by {
            assert(b.subrange(i, i + s.len())[lo + k] == s[lo + k]);
        }
    }
}

/// When `s` sits in `b` at position `i`, each byte of `s` is the
/// corresponding byte of `b`.
pub proof fn lemma_subrange_index(b: Seq<u8>, i: int, s: Seq<u8>, k: int)
    requires
        0 <= i,
        i + s.len() <= b.len(),
        b.subrange(i, i + s.len()) == s,
        0 <= k < s.len(),
    ensures
        b[i + k] == s[k],
{
    assert(b.subrange(i, i + s.len())[k] == s[k]);
}

// ---------------------------------------------------------------------
// Big-endian numerals
// ---------------------------------------------------------------------

/// 256 to the power `k`.
pub open spec fn pow256(k: nat) -> nat
    decreases k,
{
    if k == 0 {
        1
    } else {
        256 * pow256((k - 1) as nat)
    }
}

/// Shortest big-endian byte string of `n` (empty for zero).
pub open spec fn be_bytes(n: nat) -> Seq<u8>
    decreases n,
{
    if n == 0 {
        Seq::empty()
    } else {
        be_bytes(n / 256).push((n % 256) as u8)
    }
}

/// Value of the big-endian digits of `b` in the range `[i, j)`.
pub open spec fn be_val_at(b: Seq<u8>, i: int, j: int) -> nat
    decreases j - i,
{
    if j <= i {
        0
    } else {
        (be_val_at(b, i, j - 1) * 256 + b[j - 1]) as nat
    }
}

pub proof fn lemma_be_bytes_val(b: Seq<u8>, i: int, n: nat)
    requires
        0 <= i,
        i + be_bytes(n).len() <= b.len(),
        b.subrange(i, i + be_bytes(n).len()) == be_bytes(n),
    ensures
        be_val_at(b, i, i + be_bytes(n).len()) == n,
    decreases n,
{
    if n > 0 {
        let s = be_bytes(n);
        let s0 = be_bytes(n / 256);
        assert(s == s0.push((n % 256) as u8));
        lemma_subrange_shift(b, i, s, 0, s.len() - 1);
        assert(s.subrange(0, s.len() - 1) =~= s0);
        lemma_be_bytes_val(b, i, n / 256);
        lemma_subrange_index(b, i, s, s.len() - 1);
        assert(be_val_at(b, i, i + s.len()) == be_val_at(b, i, i + s.len() - 1) * 256 + b[i + s.len()
            - 1]);
    }
}

/// The shortest form has no leading zero byte.
pub proof fn lemma_be_bytes_first(n: nat)
    requires
        n > 0,
    ensures
        be_bytes(n).len() >= 1,
        be_bytes(n)[0] != 0,
    decreases n,
{
    if n >= 256 {
        lemma_be_bytes_first(n / 256);
        assert(be_bytes(n)[0] == be_bytes(n / 256)[0]);
    } else {
        assert(be_bytes((n / 256) as nat) =~= Seq::<u8>::empty());
        assert(be_bytes(n)[0] == n);
    }
}

pub proof fn lemma_be_bytes_len(n: nat, k: nat)
    requires
        n < pow256(k),
    ensures
        be_bytes(n).len() <= k,
    decreases k,
{
    if n > 0 {
        assert(k > 0);
        assert(n / 256 < pow256((k - 1) as nat)) by {
            assert(pow256(k) == 256 * pow256((k - 1) as nat));
        }
        lemma_be_bytes_len(n / 256, (k - 1) as nat);
    }
}

/// A digit string with a nonzero first byte has a large value.
pub proof fn lemma_be_val_lower(b: Seq<u8>, i: int, j: int)
    requires
        0 <= i < j <= b.len(),
        b[i] != 0,
    ensures
        be_val_at(b, i, j) >= pow256((j - i - 1) as nat),
    decreases j - i,
{
    if j - i > 1 {
        lemma_be_val_lower(b, i, j - 1);
        assert(pow256((j - i - 1) as nat) == 256 * pow256((j - i - 2) as nat));
    }
}

/// An upper bound on the value of any digit string.
pub proof fn lemma_be_val_upper(b: Seq<u8>, i: int, j: int)
    requires
        0 <= i <= j <= b.len(),
    ensures
        be_val_at(b, i, j) < pow256((j - i) as nat),
    decreases j - i,
{
    if j > i {
        lemma_be_val_upper(b, i, j - 1);
        assert(pow256((j - i) as nat) == 256 * pow256((j - i - 1) as nat));
    }
}

// ---------------------------------------------------------------------
// Tag-length-value encoding
// ---------------------------------------------------------------------

/// A definite length in shortest DER form.
pub open spec fn enc_len(n: nat) -> Seq<u8> {
    if n < 128 {
        seq![n as u8]
    } else {
        seq![(128 + be_bytes(n).len()) as u8] + be_bytes(n)
    }
}

/// A complete TLV triple: tag byte, shortest length, content.
pub open spec fn tlv(tag: u8, content: Seq<u8>) -> Seq<u8> {
    seq![tag] + enc_len(content.len()) + content
}

/// Lengths below this bound (`256^8`) have a length field of at most
/// nine bytes; every value that fits in memory satisfies it.
pub open spec fn fits_der_len(n: nat) -> bool {
    n < pow256(8)
}

/// Reads a definite length at position `i`: returns the content length
/// and the position of the first content byte.  Rejects indefinite and
/// non-shortest forms.
pub open spec fn rd_len(b: Seq<u8>, i: int) -> Option<(nat, int)> {
    if 0 <= i < b.len() {
        let f = b[i];
        if f < 0x80 {
            Some((f as nat, i + 1))
        } else {
            let k = f - 0x80;
            if k == 0 || i + 1 + k > b.len() {
                None
            } else if b[i + 1] == 0 {
                None
            } else if k == 1 && b[i + 1] < 0x80 {
                None
            } else {
                Some((be_val_at(b, i + 1, i + 1 + k), i + 1 + k))
            }
        }
    } else {
        None
    }
}

/// Reads a TLV triple at position `i`: returns the tag and the content
/// range `[cs, ce)`; the triple itself ends at `ce`.
pub open spec fn rd_tlv(b: Seq<u8>, i: int) -> Option<(u8, int, int)> {
    if 0 <= i < b.len() {
        match rd_len(b, i + 1) {
            Some((l, cs)) => {
                if cs + l <= b.len() {
                    Some((b[i], cs, cs + l as int))
                } else {
                    None
                }
            },
            None => None,
        }
    } else {
        None
    }
}

/// Reading a length field at the start of its own encoding recovers `n`.
pub proof fn lemma_rd_len_frame(b: Seq<u8>, i: int, n: nat)
    requires
        fits_der_len(n),
        0 <= i,
        i + enc_len(n).len() <= b.len(),
        b.subrange(i, i + enc_len(n).len()) == enc_len(n),
    ensures
        rd_len(b, i) == Some((n, i + enc_len(n).len())),
{
    let e = enc_len(n);
    lemma_subrange_index(b, i, e, 0);
    if n >= 128 {
        let d = be_bytes(n);
        lemma_be_bytes_len(n, 8);
        lemma_be_bytes_first(n);
        assert(b[i] == 128 + d.len());
        lemma_subrange_shift(b, i, e, 1, e.len() as int);
        assert(e.subrange(1, e.len() as int) =~= d);
        lemma_subrange_index(b, i + 1, d, 0);
        lemma_be_bytes_val(b, i + 1, n);
        if d.len() == 1 {
            // the single digit is at least 128, else the short form applied
            assert(be_val_at(b, i + 1, i + 1) == 0);
            assert(be_val_at(b, i + 1, i + 2) == n);
        }
    }
}

/// Reading a TLV triple at the start of its own encoding recovers the
/// tag and content range, whatever follows it in the buffer.
pub proof fn lemma_rd_tlv_frame(b: Seq<u8>, i: int, tag: u8, content: Seq<u8>)
    requires
        fits_der_len(content.len()),
        0 <= i,
        i + tlv(tag, content).len() <= b.len(),
        b.subrange(i, i + tlv(tag, content).len()) == tlv(tag, content),
    ensures
        ({
            let cs = i + 1 + enc_len(content.len()).len();
            let ce = i + tlv(tag, content).len();
            &&& rd_tlv(b, i) == Some((tag, cs, ce))
            &&& ce == cs + content.len()
            &&& b.subrange(cs, ce) == content
        }),
{
    let t = tlv(tag, content);
    let e = enc_len(content.len());
    let cs = i + 1 + e.len();
    let ce = i + t.len();
    lemma_subrange_index(b, i, t, 0);
    lemma_subrange_shift(b, i, t, 1, 1 + e.len() as int);
    assert(t.subrange(1, 1 + e.len() as int) =~= e);
    lemma_rd_len_frame(b, i + 1, content.len());
    lemma_subrange_shift(b, i, t, 1 + e.len() as int, t.len() as int);
    assert(t.subrange(1 + e.len() as int, t.len() as int) =~= content);
}

// ---------------------------------------------------------------------
// INTEGER contents
// ---------------------------------------------------------------------

/// Content bytes of a DER INTEGER holding the unsigned value `n`:
/// shortest big-endian form, with a leading zero byte when the first
/// digit would read as a sign bit.
pub open spec fn int_content(n: u64) -> Seq<u8> {
    if n == 0 {
        seq![0u8]
    } else if be_bytes(n as nat)[0] >= 0x80 {
        seq![0u8] + be_bytes(n as nat)
    } else {
        be_bytes(n as nat)
    }
}

/// Reads an unsigned INTEGER from the content range `[i, j)`: the value
/// must be non-negative, in shortest form, and fit `max`.
pub open spec fn int_at(b: Seq<u8>, i: int, j: int, max: u64) -> Option<u64> {
    if 0 <= i < j <= b.len() && b[i] < 0x80 && (j - i < 2 || !(b[i] == 0 && b[i + 1] < 0x80)) {
        let di = if b[i] == 0 && j - i >= 2 { i + 1 } else { i };
        if j - di <= 8 {
            let v = be_val_at(b, di, j);
            if v <= max {
                Some(v as u64)
            } else {
                None
            }
        } else {
            None
        }
    } else {
        None
    }
}

/// Reading an INTEGER content at the start of its own encoding recovers `n`.
pub proof fn lemma_int_frame(b: Seq<u8>, i: int, n: u64, max: u64)
    requires
        n <= max,
        0 <= i,
        i + int_content(n).len() <= b.len(),
        b.subrange(i, i + int_content(n).len()) == int_content(n),
    ensures
        int_at(b, i, i + int_content(n).len(), max) == Some(n),
{
    let c = int_content(n);
    let j = i + c.len();
    lemma_subrange_index(b, i, c, 0);
    if n == 0 {
        assert(be_val_at(b, i, i) == 0);
        assert(be_val_at(b, i, j) == b[i]);
    } else {
        let d = be_bytes(n as nat);
        lemma_be_bytes_first(n as nat);
        assert(pow256(8) == 0x1_0000_0000_0000_0000) by {
            reveal_with_fuel(pow256, 9);
        }
        lemma_be_bytes_len(n as nat, 8);
        if d[0] >= 0x80 {
            assert(c == seq![0u8] + d);
            lemma_subrange_shift(b, i, c, 1, c.len() as int);
            assert(c.subrange(1, c.len() as int) =~= d);
            lemma_subrange_index(b, i + 1, d, 0);
            lemma_be_bytes_val(b, i + 1, n as nat);
        } else {
            assert(c == d);
            lemma_be_bytes_val(b, i, n as nat);
            if d.len() >= 2 {
                lemma_subrange_index(b, i, d, 1);
            }
        }
    }
}

// ---------------------------------------------------------------------
// Small arithmetic facts
// ---------------------------------------------------------------------

pub proof fn lemma_pow256_8()
    ensures
        pow256(8) == 0x1_0000_0000_0000_0000,
{
    reveal_with_fuel(pow256, 9);
}

pub proof fn lemma_pow256_mono(a: nat, b: nat)
    requires
        a <= b,
    ensures
        pow256(a) <= pow256(b),
    decreases b,
{
    if a < b {
        lemma_pow256_mono(a, (b - 1) as nat);
        assert(pow256(b) == 256 * pow256((b - 1) as nat));
    }
}

// ---------------------------------------------------------------------
// Executable writers
// ---------------------------------------------------------------------

/// Shortest big-endian byte string of `n`.
pub fn be_bytes_exec(n: u64) -> (r: Vec<u8>)
    ensures
        r@ == be_bytes(n as nat),
    decreases n,
{
    if n == 0 {
        Vec::new()
    } else {
        let mut r = be_bytes_exec(n / 256);
        r.push((n % 256) as u8);
        r
    }
}

/// Wraps content bytes into a TLV triple with the given tag.
pub fn write_tlv(tag: u8, content: Vec<u8>) -> (r: Vec<u8>)
    ensures
        r@ == tlv(tag, content@),
{
    let mut r: Vec<u8> = Vec::new();
    r.push(tag);
    let n = content.len();
    if n < 128 {
        r.push(n as u8);
    } else {
        proof {
            lemma_pow256_8();
            lemma_be_bytes_len(n as nat, 8);
        }
        let mut d = be_bytes_exec(n as u64);
        r.push(128 + d.len() as u8);
        r.append(&mut d);
    }
    let mut c = content;
    r.append(&mut c);
    proof {
        assert(r@ =~= tlv(tag, content@));
    }
    r
}

/// Content bytes of a DER INTEGER holding the unsigned value `n`.
pub fn int_content_exec(n: u64) -> (r: Vec<u8>)
    ensures
        r@ == int_content(n),
{
    if n == 0 {
        let mut r: Vec<u8> = Vec::new();
        r.push(0u8);
        proof {
            assert(r@ =~= int_content(n));
        }
        r
    } else {
        proof {
            lemma_be_bytes_first(n as nat);
        }
        let d = be_bytes_exec(n);
        if d[0] >= 0x80 {
            let mut r: Vec<u8> = Vec::new();
            r.push(0u8);
            let mut dd = d;
            r.append(&mut dd);
            proof {
                assert(r@ =~= int_content(n));
            }
            r
        } else {
            d
        }
    }
}

/// An explicitly tagged INTEGER field: `[tag] EXPLICIT INTEGER n`.
pub fn write_tagged_int(tag: u8, n: u64) -> (r: Vec<u8>)
    ensures
        r@ == tlv(tag, tlv(0x02, int_content(n))),
{
    write_tlv(tag, write_tlv(0x02, int_content_exec(n)))
}

// ---------------------------------------------------------------------
// Executable readers
// ---------------------------------------------------------------------

/// Reads a TLV triple at position `i` of `b`, exactly as `rd_tlv` does.
pub fn rd_tlv_exec(b: &[u8], i: usize) -> (r: Option<(u8, usize, usize)>)
    ensures
        match r {
            Some((t, cs, ce)) => {
                &&& rd_tlv(b@, i as int) == Some((t, cs as int, ce as int))
                &&& i < cs <= ce <= b@.len()
            },
            None => rd_tlv(b@, i as int) is None,
        },
{
    proof {
        lemma_pow256_8();
    }
    if i >= b.len() {
        return None;
    }
    let tag = b[i];
    let li = i + 1;
    if li >= b.len() {
        return None;
    }
    let f = b[li];
    if f < 0x80 {
        let l = f as usize;
        let cs = li + 1;
        if l > b.len() - cs {
            return None;
        }
        return Some((tag, cs, cs + l));
    }
    let k = (f - 0x80) as usize;
    if k == 0 {
        return None;
    }
    if k > b.len() - li - 1 {
        return None;
    }
    let cs = li + 1 + k;
    if b[li + 1] == 0 {
        return None;
    }
    if k == 1 && b[li + 1] < 0x80 {
        return None;
    }
    if k > 8 {
        proof {
            lemma_be_val_lower(b@, li + 1, cs as int);
            lemma_pow256_mono(8, (k - 1) as nat);
        }
        return None;
    }
    let mut l: u64 = 0;
    let mut p: usize = li + 1;
    while p < cs
        invariant
            li + 1 <= p <= cs <= b@.len(),
            cs == li + 1 + k,
            k <= 8,
            l == be_val_at(b@, li + 1 as int, p as int),
        decreases cs - p,
    {
        proof {
            lemma_be_val_upper(b@, li + 1 as int, p as int);
            lemma_pow256_mono((p - li - 1) as nat, 7);
            lemma_pow256_8();
            assert(pow256(8) == 256 * pow256(7));
        }
        l = l * 256 + b[p] as u64;
        p = p + 1;
    }
    if l > (b.len() - cs) as u64 {
        return None;
    }
    Some((tag, cs, cs + l as usize))
}

/// Reads an unsigned INTEGER content, exactly as `int_at` does.
pub fn int_at_exec(b: &[u8], i: usize, j: usize, max: u64) -> (r: Option<u64>)
    requires
        i <= j <= b@.len(),
    ensures
        r == int_at(b@, i as int, j as int, max),
{
    if i >= j {
        return None;
    }
    let f = b[i];
    if f >= 0x80 {
        return None;
    }
    if j - i >= 2 && f == 0 && b[i + 1] < 0x80 {
        return None;
    }
    let di = if f == 0 && j - i >= 2 {
        i + 1
    } else {
        i
    };
    if j - di > 8 {
        return None;
    }
    proof {
        lemma_pow256_8();
    }
    let mut v: u64 = 0;
    let mut p: usize = di;
    while p < j
        invariant
            di <= p <= j <= b@.len(),
            j - di <= 8,
            v == be_val_at(b@, di as int, p as int),
        decreases j - p,
    {
        proof {
            lemma_be_val_upper(b@, di as int, p as int);
            lemma_pow256_mono((p - di) as nat, 7);
            lemma_pow256_8();
            assert(pow256(8) == 256 * pow256(7));
        }
        v = v * 256 + b[p] as u64;
        p = p + 1;
    }
    if v > max {
        None
    } else {
        Some(v)
    }
}

// ---------------------------------------------------------------------
// Optional explicitly tagged INTEGER fields
// ---------------------------------------------------------------------

/// Reads an optional `[tag] EXPLICIT INTEGER` field inside the content
/// range `[i, end)`: absent when the range is empty or starts with a
/// different tag; present fields must be well-formed and bounded by `max`.
pub open spec fn rd_opt_tagged_int(b: Seq<u8>, i: int, end: int, tag: u8, max: u64) -> Option<
    (Option<u64>, int),
> {
    if !(0 <= i <= end <= b.len()) {
        None
    } else if i == end {
        Some((None, i))
    } else if b[i] != tag {
        Some((None, i))
    } else {
        match rd_tlv(b, i) {
            Some((t, cs, ce)) => {
                if ce <= end {
                    match rd_tlv(b, cs) {
                        Some((t2, cs2, ce2)) => {
                            if t2 == 0x02 && ce2 == ce {
                                match int_at(b, cs2, ce2, max) {
                                    Some(v) => Some((Some(v), ce)),
                                    None => None,
                                }
                            } else {
                                None
                            }
                        },
                        None => None,
                    }
                } else {
                    None
                }
            },
            None => None,
        }
    }
}

/// Reading an optional tagged INTEGER at the start of its own encoding
/// recovers `n`.
pub proof fn lemma_opt_tagged_int_frame(b: Seq<u8>, i: int, end: int, tag: u8, n: u64, max: u64)
    requires
        n <= max,
        0 <= i,
        i + tlv(tag, tlv(0x02, int_content(n))).len() <= end <= b.len(),
        b.subrange(i, i + tlv(tag, tlv(0x02, int_content(n))).len()) == tlv(
            tag,
            tlv(0x02, int_content(n)),
        ),
    ensures
        rd_opt_tagged_int(b, i, end, tag, max) == Some(
            (Some(n), i + tlv(tag, tlv(0x02, int_content(n))).len()),
        ),
{
    let inner = tlv(0x02, int_content(n));
    let outer = tlv(tag, inner);
    lemma_pow256_8();
    lemma_be_bytes_len(n as nat, 8);
    assert(int_content(n).len() <= 9);
    assert(fits_der_len(inner.len()));
    lemma_subrange_index(b, i, outer, 0);
    lemma_rd_tlv_frame(b, i, tag, inner);
    let cs = i + 1 + enc_len(inner.len()).len();
    let ce = i + outer.len();
    lemma_rd_tlv_frame(b, cs, 0x02, int_content(n));
    lemma_int_frame(b, cs + 1 + enc_len(int_content(n).len()).len(), n, max);
}

/// Reads an optional tagged INTEGER field, exactly as `rd_opt_tagged_int` does.
pub fn rd_opt_tagged_int_exec(b: &[u8], i: usize, end: usize, tag: u8, max: u64) -> (r: Option<
    (Option<u64>, usize),
>)
    requires
        i <= end <= b@.len(),
    ensures
        match r {
            Some((v, next)) => {
                &&& rd_opt_tagged_int(b@, i as int, end as int, tag, max) == Some(
                    (v, next as int),
                )
                &&& i <= next <= end
            },
            None => rd_opt_tagged_int(b@, i as int, end as int, tag, max) is None,
        },
{
    if i == end {
        return Some((None, i));
    }
    if b[i] != tag {
        return Some((None, i));
    }
    match rd_tlv_exec(b, i) {
        Some((t, cs, ce)) => {
            if ce > end {
                return None;
            }
            match rd_tlv_exec(b, cs) {
                Some((t2, cs2, ce2)) => {
                    if t2 == 0x02 && ce2 == ce {
                        match int_at_exec(b, cs2, ce2, max) {
                            Some(v) => Some((Some(v), ce)),
                            None => None,
                        }
                    } else {
                        None
                    }
                },
                None => None,
            }
        },
        None => None,
    }
}

} // verus!
