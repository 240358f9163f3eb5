//! IP addresses and their textual form.
//!
//! The reachability attribute stores an address as UTF-8 text inside its
//! DER encoding.  This module holds the address model, the canonical
//! formatter (dotted decimal for v4; eight lower-case hexadecimal groups
//! separated by colons, without `::` compression, for v6) and a parser
//! that also accepts compressed v6 text and an embedded dotted-decimal
//! v4 tail (`::ffff:1.2.3.4`).

use vstd::prelude::*;

verus! {

/// An IP address, v4 or v6, as plain numeric components.
#[derive(Clone, Copy, Debug, PartialEq, Eq, Structural)]
pub enum IpAddress {
    /// Four dotted-decimal octets.
    V4(u8, u8, u8, u8),
    /// Eight 16-bit groups.
    V6(u16, u16, u16, u16, u16, u16, u16, u16),
}

// ---------------------------------------------------------------------
// Numerals
// ---------------------------------------------------------------------

/// Decimal digits of `n`, most significant first; empty for zero.
pub open spec fn dec_digits(n: nat) -> Seq<u8>
    decreases n,
{
    if n == 0 {
        Seq::empty()
    } else {
        dec_digits(n / 10).push((48 + n % 10) as u8)
    }
}

/// Decimal text of `n` (`"0"` for zero, no leading zeros otherwise).
pub open spec fn dec_text(n: nat) -> Seq<u8> {
    if n == 0 {
        seq![48u8]
    } else {
        dec_digits(n)
    }
}

/// The character for one hexadecimal digit, lower case.
pub open spec fn hex_digit(d: nat) -> u8 {
    if d < 10 {
        (48 + d) as u8
    } else {
        (87 + d) as u8
    }
}

/// Hexadecimal digits of `n`, most significant first; empty for zero.
pub open spec fn hex_digits(n: nat) -> Seq<u8>
    decreases n,
{
    if n == 0 {
        Seq::empty()
    } else {
        hex_digits(n / 16).push(hex_digit(n % 16))
    }
}

/// Hexadecimal text of `n` (`"0"` for zero, no leading zeros otherwise).
pub open spec fn hex_text(n: nat) -> Seq<u8> {
    if n == 0 {
        seq![48u8]
    } else {
        hex_digits(n)
    }
}

pub open spec fn is_dec(c: u8) -> bool {
    48 <= c <= 57
}

pub open spec fn dec_val(c: u8) -> nat {
    (c - 48) as nat
}

pub open spec fn is_hex(c: u8) -> bool {
    is_dec(c) || (97 <= c <= 102) || (65 <= c <= 70)
}

pub open spec fn hex_val(c: u8) -> nat {
    if is_dec(c) {
        dec_val(c)
    } else if c >= 97 {
        (c - 87) as nat
    } else {
        (c - 55) as nat
    }
}

// ---------------------------------------------------------------------
// Formatting
// ---------------------------------------------------------------------

/// Canonical text of the eight groups of a v6 address, joined by colons.
pub open spec fn fmt_groups(gs: Seq<u16>) -> Seq<u8>
    decreases gs.len(),
{
    if gs.len() == 0 {
        Seq::empty()
    } else if gs.len() == 1 {
        hex_text(gs[0] as nat)
    } else {
        hex_text(gs[0] as nat) + seq![58u8] + fmt_groups(gs.skip(1))
    }
}

/// The eight groups of a v6 address.
pub open spec fn v6_groups(a: IpAddress) -> Seq<u16> {
    match a {
        IpAddress::V6(g0, g1, g2, g3, g4, g5, g6, g7) => seq![g0, g1, g2, g3, g4, g5, g6, g7],
        _ => Seq::empty(),
    }
}

/// Canonical text of an address.
pub open spec fn ip_text(a: IpAddress) -> Seq<u8> {
    match a {
        IpAddress::V4(a0, a1, a2, a3) => dec_text(a0 as nat) + seq![46u8] + dec_text(a1 as nat)
            + seq![46u8] + dec_text(a2 as nat) + seq![46u8] + dec_text(a3 as nat),
        IpAddress::V6(..) => fmt_groups(v6_groups(a)),
    }
}

// ---------------------------------------------------------------------
// Parsing (specification)
// ---------------------------------------------------------------------

/// Reads one dotted-decimal octet at `i`: one to three digits, value at
/// most 255, no leading zero.
pub open spec fn parse_dec_u8(b: Seq<u8>, i: int) -> Option<(u8, int)> {
    if !(0 <= i < b.len() && is_dec(b[i])) {
        None
    } else if b[i] == 48 {
        Some((0u8, i + 1))
    } else {
        let d0 = dec_val(b[i]);
        if i + 1 < b.len() && is_dec(b[i + 1]) {
            let d1 = dec_val(b[i + 1]);
            if i + 2 < b.len() && is_dec(b[i + 2]) {
                let v = d0 * 100 + d1 * 10 + dec_val(b[i + 2]);
                if v <= 255 && !(i + 3 < b.len() && is_dec(b[i + 3])) {
                    Some((v as u8, i + 3))
                } else {
                    None
                }
            } else {
                Some(((d0 * 10 + d1) as u8, i + 2))
            }
        } else {
            Some((d0 as u8, i + 1))
        }
    }
}

/// Reads one v6 group at `i`: one to four hexadecimal digits.
pub open spec fn parse_h16(b: Seq<u8>, i: int) -> Option<(u16, int)> {
    if !(0 <= i < b.len() && is_hex(b[i])) {
        None
    } else {
        let v1 = hex_val(b[i]);
        if i + 1 < b.len() && is_hex(b[i + 1]) {
            let v2 = v1 * 16 + hex_val(b[i + 1]);
            if i + 2 < b.len() && is_hex(b[i + 2]) {
                let v3 = v2 * 16 + hex_val(b[i + 2]);
                if i + 3 < b.len() && is_hex(b[i + 3]) {
                    if i + 4 < b.len() && is_hex(b[i + 4]) {
                        None
                    } else {
                        Some(((v3 * 16 + hex_val(b[i + 3])) as u16, i + 4))
                    }
                } else {
                    Some((v3 as u16, i + 3))
                }
            } else {
                Some((v2 as u16, i + 2))
            }
        } else {
            Some((v1 as u16, i + 1))
        }
    }
}

/// Reads the groups after a `::` until the end of the text; a dotted
/// v4 tail stands for the last two groups.
pub open spec fn parse_v6_tail(b: Seq<u8>, i: int, acc: Seq<u16>) -> Option<Seq<u16>>
    decreases b.len() - i,
{
    if i == b.len() {
        Some(acc)
    } else if parse_v4_quad(b, i) is Some {
        let gs = v4_tail_groups(parse_v4_quad(b, i).unwrap());
        Some(acc.push(gs.0).push(gs.1))
    } else {
        match parse_h16(b, i) {
            Some((g, j)) => {
                if j == b.len() {
                    Some(acc.push(g))
                } else if b[j] == 58 && j + 1 < b.len() {
                    parse_v6_tail(b, j + 1, acc.push(g))
                } else {
                    None
                }
            },
            None => None,
        }
    }
}

/// Distributes the groups before and after a `::` over eight slots.
pub open spec fn combine_v6(front: Seq<u16>, tail: Seq<u16>) -> Option<Seq<u16>> {
    if front.len() + tail.len() <= 7 {
        Some(front + Seq::new((8 - front.len() - tail.len()) as nat, |k: int| 0u16) + tail)
    } else {
        None
    }
}

/// Reads groups from `i` on: either eight plain groups, or a `::` with
/// the remaining groups distributed around it; a dotted v4 tail stands
/// for the last two groups.
pub open spec fn parse_v6_head(b: Seq<u8>, i: int, acc: Seq<u16>) -> Option<Seq<u16>>
    decreases b.len() - i,
{
    if parse_v4_quad(b, i) is Some {
        let gs = v4_tail_groups(parse_v4_quad(b, i).unwrap());
        let acc2 = acc.push(gs.0).push(gs.1);
        if acc2.len() == 8 {
            Some(acc2)
        } else {
            None
        }
    } else { match parse_h16(b, i) {
        Some((g, j)) => {
            let acc2 = acc.push(g);
            if j == b.len() {
                if acc2.len() == 8 {
                    Some(acc2)
                } else {
                    None
                }
            } else if b[j] == 58 {
                if j + 1 < b.len() && b[j + 1] == 58 {
                    match parse_v6_tail(b, j + 2, Seq::empty()) {
                        Some(tail) => combine_v6(acc2, tail),
                        None => None,
                    }
                } else if j + 1 < b.len() {
                    parse_v6_head(b, j + 1, acc2)
                } else {
                    None
                }
            } else {
                None
            }
        },
        None => None,
    } }
}

/// Parses a complete v6 text.
pub open spec fn parse_v6(b: Seq<u8>) -> Option<Seq<u16>> {
    if b.len() >= 2 && b[0] == 58 {
        if b[1] == 58 {
            match parse_v6_tail(b, 2, Seq::empty()) {
                Some(tail) => combine_v6(Seq::empty(), tail),
                None => None,
            }
        } else {
            None
        }
    } else {
        parse_v6_head(b, 0, Seq::empty())
    }
}

/// Reads four dotted-decimal octets from `i` to the end of the text.
pub open spec fn parse_v4_quad(b: Seq<u8>, i: int) -> Option<(u8, u8, u8, u8)> {
    match parse_dec_u8(b, i) {
        Some((a0, i1)) => {
            if i1 < b.len() && b[i1] == 46 {
                match parse_dec_u8(b, i1 + 1) {
                    Some((a1, i2)) => {
                        if i2 < b.len() && b[i2] == 46 {
                            match parse_dec_u8(b, i2 + 1) {
                                Some((a2, i3)) => {
                                    if i3 < b.len() && b[i3] == 46 {
                                        match parse_dec_u8(b, i3 + 1) {
                                            Some((a3, i4)) => {
                                                if i4 == b.len() {
                                                    Some((a0, a1, a2, a3))
                                                } else {
                                                    None
                                                }
                                            },
                                            None => None,
                                        }
                                    } else {
                                        None
                                    }
                                },
                                None => None,
                            }
                        } else {
                            None
                        }
                    },
                    None => None,
                }
            } else {
                None
            }
        },
        None => None,
    }
}

/// Parses a complete v4 text: four octets joined by dots.
pub open spec fn parse_v4(b: Seq<u8>) -> Option<IpAddress> {
    match parse_v4_quad(b, 0) {
        Some((a0, a1, a2, a3)) => Some(IpAddress::V4(a0, a1, a2, a3)),
        None => None,
    }
}

/// The two v6 groups a dotted v4 tail stands for.
pub open spec fn v4_tail_groups(q: (u8, u8, u8, u8)) -> (u16, u16) {
    ((q.0 as u16 * 256 + q.1 as u16) as u16, (q.2 as u16 * 256 + q.3 as u16) as u16)
}

/// Parses an address text: v6 groups when a colon occurs, dotted
/// decimal otherwise.
pub open spec fn parse_ip(b: Seq<u8>) -> Option<IpAddress> {
    if !(exists|k: int| 0 <= k < b.len() && b[k] == 58) {
        parse_v4(b)
    } else {
        match parse_v6(b) {
            Some(gs) => {
                if gs.len() == 8 {
                    Some(IpAddress::V6(
                        gs[0],
                        gs[1],
                        gs[2],
                        gs[3],
                        gs[4],
                        gs[5],
                        gs[6],
                        gs[7],
                    ))
                } else {
                    None
                }
            },
            None => None,
        }
    }
}

// ---------------------------------------------------------------------
// Character and digit facts
// ---------------------------------------------------------------------

pub proof fn lemma_hex_digit(d: nat)
    requires
        d < 16,
    ensures
        is_hex(hex_digit(d)),
        hex_val(hex_digit(d)) == d,
        hex_digit(d) != 58,
        hex_digit(d) != 46,
{
}

/// Every character of `hex_digits(n)` is a hexadecimal digit.
pub proof fn lemma_hex_digits_chars(n: nat)
    ensures
        forall|k: int| 0 <= k < hex_digits(n).len() ==> is_hex(#[trigger] hex_digits(n)[k])
            && hex_digits(n)[k] != 58 && hex_digits(n)[k] != 46,
    decreases n,
{
    if n > 0 {
        lemma_hex_digits_chars(n / 16);
        lemma_hex_digit(n % 16);
        assert forall|k: int| 0 <= k < hex_digits(n).len() implies is_hex(
            #[trigger] hex_digits(n)[k],
        ) && hex_digits(n)[k] != 58 && hex_digits(n)[k] != 46 by {
            if k < hex_digits(n).len() - 1 {
                assert(hex_digits(n)[k] == hex_digits(n / 16)[k]);
            }
        }
    }
}

/// Every character of a joined group text is a hexadecimal digit or a colon.
pub proof fn lemma_fmt_groups_chars(gs: Seq<u16>)
    ensures
        forall|k: int| 0 <= k < fmt_groups(gs).len() ==> (is_hex(#[trigger] fmt_groups(gs)[k])
            || fmt_groups(gs)[k] == 58) && fmt_groups(gs)[k] != 46,
    decreases gs.len(),
{
    if gs.len() >= 1 {
        lemma_hex_digits_chars(gs[0] as nat);
        let h = hex_text(gs[0] as nat);
        assert(forall|k: int| 0 <= k < h.len() ==> (is_hex(#[trigger] h[k]) || h[k] == 58)
            && h[k] != 46);
        if gs.len() > 1 {
            lemma_fmt_groups_chars(gs.skip(1));
            let rest = fmt_groups(gs.skip(1));
            assert forall|k: int| 0 <= k < fmt_groups(gs).len() implies (is_hex(
                #[trigger] fmt_groups(gs)[k],
            ) || fmt_groups(gs)[k] == 58) && fmt_groups(gs)[k] != 46 by {
                if k < h.len() {
                    assert(fmt_groups(gs)[k] == h[k]);
                } else if k == h.len() {
                    assert(fmt_groups(gs)[k] == 58);
                } else {
                    assert(fmt_groups(gs)[k] == rest[k - h.len() - 1]);
                }
            }
        }
    }
}

/// Shape of the decimal text for each octet range, in nested-division form.
proof fn lemma_dec_text_shape(n: nat)
    requires
        n <= 255,
    ensures
        n == 0 ==> dec_text(n) == seq![48u8],
        1 <= n <= 9 ==> dec_text(n) == seq![(48 + n) as u8],
        10 <= n <= 99 ==> dec_text(n) == seq![(48 + n / 10) as u8, (48 + n % 10) as u8],
        100 <= n ==> dec_text(n) == seq![
            (48 + n / 10 / 10) as u8,
            (48 + (n / 10) % 10) as u8,
            (48 + n % 10) as u8,
        ],
{
    reveal_with_fuel(dec_digits, 4);
    if 1 <= n <= 9 {
        assert(dec_digits(n) =~= seq![(48 + n) as u8]);
    } else if 10 <= n <= 99 {
        assert(dec_digits(n / 10) =~= seq![(48 + n / 10) as u8]);
        assert(dec_digits(n) =~= seq![(48 + n / 10) as u8, (48 + n % 10) as u8]);
    } else if 100 <= n {
        assert(dec_digits(n / 10 / 10) =~= seq![(48 + n / 10 / 10) as u8]);
        assert(dec_digits(n / 10) =~= seq![(48 + n / 10 / 10) as u8, (48 + (n / 10) % 10) as u8]);
        assert(dec_digits(n) =~= seq![
            (48 + n / 10 / 10) as u8,
            (48 + (n / 10) % 10) as u8,
            (48 + n % 10) as u8,
        ]);
    }
}

/// Shape of the hexadecimal text for each group range, in nested-division form.
proof fn lemma_hex_text_shape(n: nat)
    requires
        n <= 0xffff,
    ensures
        n == 0 ==> hex_text(n) == seq![48u8],
        1 <= n < 16 ==> hex_text(n) == seq![hex_digit(n)],
        16 <= n < 256 ==> hex_text(n) == seq![hex_digit(n / 16), hex_digit(n % 16)],
        256 <= n < 4096 ==> hex_text(n) == seq![
            hex_digit(n / 16 / 16),
            hex_digit((n / 16) % 16),
            hex_digit(n % 16),
        ],
        4096 <= n ==> hex_text(n) == seq![
            hex_digit(n / 16 / 16 / 16),
            hex_digit((n / 16 / 16) % 16),
            hex_digit((n / 16) % 16),
            hex_digit(n % 16),
        ],
{
    reveal_with_fuel(hex_digits, 5);
    if 1 <= n < 16 {
        assert(hex_digits(n) =~= seq![hex_digit(n)]);
    } else if 16 <= n < 256 {
        assert(hex_digits(n / 16) =~= seq![hex_digit(n / 16)]);
        assert(hex_digits(n) =~= seq![hex_digit(n / 16), hex_digit(n % 16)]);
    } else if 256 <= n < 4096 {
        assert(hex_digits(n / 16 / 16) =~= seq![hex_digit(n / 16 / 16)]);
        assert(hex_digits(n / 16) =~= seq![hex_digit(n / 16 / 16), hex_digit((n / 16) % 16)]);
        assert(hex_digits(n) =~= seq![
            hex_digit(n / 16 / 16),
            hex_digit((n / 16) % 16),
            hex_digit(n % 16),
        ]);
    } else if 4096 <= n {
        assert(hex_digits(n / 16 / 16 / 16) =~= seq![hex_digit(n / 16 / 16 / 16)]);
        assert(hex_digits(n / 16 / 16) =~= seq![
            hex_digit(n / 16 / 16 / 16),
            hex_digit((n / 16 / 16) % 16),
        ]);
        assert(hex_digits(n / 16) =~= seq![
            hex_digit(n / 16 / 16 / 16),
            hex_digit((n / 16 / 16) % 16),
            hex_digit((n / 16) % 16),
        ]);
        assert(hex_digits(n) =~= seq![
            hex_digit(n / 16 / 16 / 16),
            hex_digit((n / 16 / 16) % 16),
            hex_digit((n / 16) % 16),
            hex_digit(n % 16),
        ]);
    }
}

/// The joined text of up to eight groups is short.
proof fn lemma_fmt_groups_len(gs: Seq<u16>)
    ensures
        fmt_groups(gs).len() <= 5 * gs.len(),
    decreases gs.len(),
{
    if gs.len() >= 1 {
        lemma_hex_text_shape(gs[0] as nat);
        assert(hex_text(gs[0] as nat).len() <= 4);
        if gs.len() > 1 {
            lemma_fmt_groups_len(gs.skip(1));
        }
    }
}

/// The canonical address text is at most 40 bytes and never empty.
pub proof fn lemma_ip_text_len(a: IpAddress)
    ensures
        1 <= ip_text(a).len() <= 40,
{
    match a {
        IpAddress::V4(a0, a1, a2, a3) => {
            lemma_dec_text_shape(a0 as nat);
            lemma_dec_text_shape(a1 as nat);
            lemma_dec_text_shape(a2 as nat);
            lemma_dec_text_shape(a3 as nat);
        },
        IpAddress::V6(..) => {
            let gs = v6_groups(a);
            lemma_fmt_groups_len(gs);
            assert(fmt_groups(gs).len() >= 1) by {
                lemma_hex_text_shape(gs[0] as nat);
            }
        },
    }
}

// ---------------------------------------------------------------------
// Frame lemmas for the numeral parsers
// ---------------------------------------------------------------------

/// Reading a decimal octet at the start of its own text recovers `n`,
/// provided no digit follows the text.
pub proof fn lemma_parse_dec_u8_frame(b: Seq<u8>, i: int, n: u8)
    requires
        0 <= i,
        i + dec_text(n as nat).len() <= b.len(),
        b.subrange(i, i + dec_text(n as nat).len()) == dec_text(n as nat),
        i + dec_text(n as nat).len() == b.len() || !is_dec(b[i + dec_text(n as nat).len()]),
    ensures
        parse_dec_u8(b, i) == Some((n, i + dec_text(n as nat).len())),
{
    let t = dec_text(n as nat);
    lemma_dec_text_shape(n as nat);
    crate::der::lemma_subrange_index(b, i, t, 0);
    if n == 0 {
    } else if n <= 9 {
    } else if n <= 99 {
        crate::der::lemma_subrange_index(b, i, t, 1);
    } else {
        crate::der::lemma_subrange_index(b, i, t, 1);
        crate::der::lemma_subrange_index(b, i, t, 2);
    }
}

/// Reading a v6 group at the start of its own text recovers `g`,
/// provided no hexadecimal digit follows the text.
pub proof fn lemma_parse_h16_frame(b: Seq<u8>, i: int, g: u16)
    requires
        0 <= i,
        i + hex_text(g as nat).len() <= b.len(),
        b.subrange(i, i + hex_text(g as nat).len()) == hex_text(g as nat),
        i + hex_text(g as nat).len() == b.len() || !is_hex(b[i + hex_text(g as nat).len()]),
    ensures
        parse_h16(b, i) == Some((g, i + hex_text(g as nat).len())),
{
    let t = hex_text(g as nat);
    let n = g as nat;
    lemma_hex_text_shape(n);
    crate::der::lemma_subrange_index(b, i, t, 0);
    if g == 0 {
    } else if n < 16 {
        lemma_hex_digit(n);
    } else if n < 256 {
        lemma_hex_digit(n / 16);
        lemma_hex_digit(n % 16);
        crate::der::lemma_subrange_index(b, i, t, 1);
    } else if n < 4096 {
        lemma_hex_digit(n / 16 / 16);
        lemma_hex_digit((n / 16) % 16);
        lemma_hex_digit(n % 16);
        crate::der::lemma_subrange_index(b, i, t, 1);
        crate::der::lemma_subrange_index(b, i, t, 2);
    } else {
        lemma_hex_digit(n / 16 / 16 / 16);
        lemma_hex_digit((n / 16 / 16) % 16);
        lemma_hex_digit((n / 16) % 16);
        lemma_hex_digit(n % 16);
        crate::der::lemma_subrange_index(b, i, t, 1);
        crate::der::lemma_subrange_index(b, i, t, 2);
        crate::der::lemma_subrange_index(b, i, t, 3);
    }
}

// ---------------------------------------------------------------------
// Round-trip laws
// ---------------------------------------------------------------------

/// Parsing the canonical group text of a full 8-group suffix extends the
/// accumulated groups with exactly that suffix.
proof fn lemma_parse_v6_head_frame(b: Seq<u8>, i: int, gs: Seq<u16>, acc: Seq<u16>)
    requires
        gs.len() >= 1,
        acc.len() + gs.len() == 8,
        0 <= i,
        i + fmt_groups(gs).len() == b.len(),
        b.subrange(i, b.len() as int) == fmt_groups(gs),
    ensures
        parse_v6_head(b, i, acc) == Some(acc + gs),
    decreases gs.len(),
{
    let h = hex_text(gs[0] as nat);
    if gs.len() == 1 {
        assert(fmt_groups(gs) == h);
        lemma_parse_h16_frame(b, i, gs[0]);
        assert(acc.push(gs[0]) =~= acc + gs);
    } else {
        let rest = fmt_groups(gs.skip(1));
        assert(fmt_groups(gs) == h + seq![58u8] + rest);
        let j = i + h.len();
        crate::der::lemma_subrange_shift(b, i, fmt_groups(gs), 0, h.len() as int);
        assert(fmt_groups(gs).subrange(0, h.len() as int) =~= h);
        crate::der::lemma_subrange_index(b, i, fmt_groups(gs), h.len() as int);
        assert(b[j] == 58);
        lemma_parse_h16_frame(b, i, gs[0]);
        // the character after the colon is the first digit of the next group
        crate::der::lemma_subrange_index(b, i, fmt_groups(gs), h.len() as int + 1);
        assert(b[j + 1] == rest[0]);
        lemma_fmt_groups_chars(gs.skip(1));
        assert(rest.len() >= 1);
        assert(is_hex(rest[0]) || rest[0] == 58);
        // the next group text never starts with a colon
        assert(rest[0] == hex_text(gs.skip(1)[0] as nat)[0]);
        lemma_hex_digits_chars(gs.skip(1)[0] as nat);
        assert(is_hex(rest[0]));
        assert(rest[0] != 58);
        crate::der::lemma_subrange_shift(
            b,
            i,
            fmt_groups(gs),
            h.len() as int + 1,
            fmt_groups(gs).len() as int,
        );
        assert(fmt_groups(gs).subrange(h.len() as int + 1, fmt_groups(gs).len() as int) =~= rest);
        assert(b.subrange(j + 1, b.len() as int) == rest);
        lemma_parse_v6_head_frame(b, j + 1, gs.skip(1), acc.push(gs[0]));
        assert(acc.push(gs[0]) + gs.skip(1) =~= acc + gs);
    }
}

/// Round-trip law for the address text: parsing the canonical text of
/// any address yields exactly that address.
/// Every character of `dec_digits(n)` is a decimal digit.
proof fn lemma_dec_digits_chars(n: nat)
    ensures
        forall|k: int| 0 <= k < dec_digits(n).len() ==> is_dec(#[trigger] dec_digits(n)[k]),
    decreases n,
{
    if n > 0 {
        lemma_dec_digits_chars(n / 10);
        assert forall|k: int| 0 <= k < dec_digits(n).len() implies is_dec(
            #[trigger] dec_digits(n)[k],
        ) by {
            if k < dec_digits(n).len() - 1 {
                assert(dec_digits(n)[k] == dec_digits(n / 10)[k]);
            }
        }
    }
}

/// A dotted-decimal text holds digits and dots only, never a colon.
proof fn lemma_v4_text_no_colon(a0: u8, a1: u8, a2: u8, a3: u8)
    ensures
        ({
            let t = ip_text(IpAddress::V4(a0, a1, a2, a3));
            forall|k: int| 0 <= k < t.len() ==> #[trigger] t[k] != 58
        }),
{
    let d0 = dec_text(a0 as nat);
    let d1 = dec_text(a1 as nat);
    let d2 = dec_text(a2 as nat);
    let d3 = dec_text(a3 as nat);
    lemma_dec_digits_chars(a0 as nat);
    lemma_dec_digits_chars(a1 as nat);
    lemma_dec_digits_chars(a2 as nat);
    lemma_dec_digits_chars(a3 as nat);
    let t = ip_text(IpAddress::V4(a0, a1, a2, a3));
    let i1 = d0.len() as int;
    let i2 = i1 + 1 + d1.len();
    let i3 = i2 + 1 + d2.len();
    assert forall|k: int| 0 <= k < t.len() implies #[trigger] t[k] != 58 by {
        if k < i1 {
            assert(t[k] == d0[k]);
        } else if k == i1 {
            assert(t[k] == 46);
        } else if k < i2 {
            assert(t[k] == d1[k - i1 - 1]);
        } else if k == i2 {
            assert(t[k] == 46);
        } else if k < i3 {
            assert(t[k] == d2[k - i2 - 1]);
        } else if k == i3 {
            assert(t[k] == 46);
        } else {
            assert(t[k] == d3[k - i3 - 1]);
        }
    }
}

#[verifier::rlimit(50)]
proof fn lemma_ip_text_round_trip_v4(a0: u8, a1: u8, a2: u8, a3: u8)
    ensures
        parse_ip(ip_text(IpAddress::V4(a0, a1, a2, a3))) == Some(IpAddress::V4(a0, a1, a2, a3)),
{
    let b = ip_text(IpAddress::V4(a0, a1, a2, a3));
    let d0 = dec_text(a0 as nat);
    let d1 = dec_text(a1 as nat);
    let d2 = dec_text(a2 as nat);
    let d3 = dec_text(a3 as nat);
    let i1 = d0.len() as int;
    let i2 = i1 + 1 + d1.len();
    let i3 = i2 + 1 + d2.len();
    let i4 = i3 + 1 + d3.len();
    assert(b[i1] == 46);
    lemma_v4_text_no_colon(a0, a1, a2, a3);
    assert(!(exists|k: int| 0 <= k < b.len() && b[k] == 58));
    lemma_dec_text_shape(a0 as nat);
    lemma_dec_text_shape(a1 as nat);
    lemma_dec_text_shape(a2 as nat);
    lemma_dec_text_shape(a3 as nat);
    assert(b.subrange(0, i1) =~= d0);
    assert(b.subrange(i1 + 1, i2) =~= d1);
    assert(b.subrange(i2 + 1, i3) =~= d2);
    assert(b.subrange(i3 + 1, i4) =~= d3);
    lemma_parse_dec_u8_frame(b, 0, a0);
    assert(b[i2] == 46);
    lemma_parse_dec_u8_frame(b, i1 + 1, a1);
    assert(b[i3] == 46);
    lemma_parse_dec_u8_frame(b, i2 + 1, a2);
    assert(i4 == b.len());
    lemma_parse_dec_u8_frame(b, i3 + 1, a3);
    assert(parse_v4_quad(b, 0) == Some((a0, a1, a2, a3)));
}

#[verifier::rlimit(50)]
proof fn lemma_ip_text_round_trip_v6(a: IpAddress)
    requires
        a is V6,
    ensures
        parse_ip(ip_text(a)) == Some(a),
{
    let b = ip_text(a);
    let gs = v6_groups(a);
    assert(gs.len() == 8);
    lemma_fmt_groups_chars(gs);
    // the colon after the first group decides the dispatch
    assert(b[hex_text(gs[0] as nat).len() as int] == 58);
    assert(exists|k: int| 0 <= k < b.len() && b[k] == 58);
    // the text starts with a digit, not a colon
    lemma_hex_digits_chars(gs[0] as nat);
    assert(b[0] == hex_text(gs[0] as nat)[0]);
    assert(b[0] != 58);
    assert(b.subrange(0, b.len() as int) =~= fmt_groups(gs));
    lemma_parse_v6_head_frame(b, 0, gs, Seq::empty());
    assert(Seq::empty() + gs =~= gs);
    assert(parse_v6(b) == Some(gs));
}

pub proof fn lemma_ip_text_round_trip(a: IpAddress)
    ensures
        parse_ip(ip_text(a)) == Some(a),
{
    match a {
        IpAddress::V4(a0, a1, a2, a3) => {
            lemma_ip_text_round_trip_v4(a0, a1, a2, a3);
        },
        IpAddress::V6(..) => {
            lemma_ip_text_round_trip_v6(a);
        },
    }
}

// ---------------------------------------------------------------------
// Executable formatting
// ---------------------------------------------------------------------

fn dec_digits_exec(n: u16) -> (r: Vec<u8>)
    ensures
        r@ == dec_digits(n as nat),
    decreases n,
{
    if n == 0 {
        Vec::new()
    } else {
        let mut r = dec_digits_exec(n / 10);
        r.push(48 + (n % 10) as u8);
        r
    }
}

fn dec_text_exec(n: u16) -> (r: Vec<u8>)
    ensures
        r@ == dec_text(n as nat),
{
    if n == 0 {
        let mut r: Vec<u8> = Vec::new();
        r.push(48);
        proof {
            assert(r@ =~= dec_text(0));
        }
        r
    } else {
        dec_digits_exec(n)
    }
}

fn hex_digits_exec(n: u16) -> (r: Vec<u8>)
    ensures
        r@ == hex_digits(n as nat),
    decreases n,
{
    if n == 0 {
        Vec::new()
    } else {
        let mut r = hex_digits_exec(n / 16);
        let d = (n % 16) as u8;
        if d < 10 {
            r.push(48 + d);
        } else {
            r.push(87 + d);
        }
        r
    }
}

fn hex_text_exec(n: u16) -> (r: Vec<u8>)
    ensures
        r@ == hex_text(n as nat),
{
    if n == 0 {
        let mut r: Vec<u8> = Vec::new();
        r.push(48);
        proof {
            assert(r@ =~= hex_text(0));
        }
        r
    } else {
        hex_digits_exec(n)
    }
}

fn fmt_groups_exec(gs: &Vec<u16>, i: usize) -> (r: Vec<u8>)
    requires
        i <= gs@.len(),
    ensures
        r@ == fmt_groups(gs@.skip(i as int)),
    decreases gs@.len() - i,
{
    if i == gs.len() {
        Vec::new()
    } else if i + 1 == gs.len() {
        let r = hex_text_exec(gs[i]);
        proof {
            assert(gs@.skip(i as int) =~= seq![gs@[i as int]]);
        }
        r
    } else {
        let mut r = hex_text_exec(gs[i]);
        r.push(58);
        let mut rest = fmt_groups_exec(gs, i + 1);
        r.append(&mut rest);
        proof {
            assert(gs@.skip(i as int).skip(1) =~= gs@.skip(i as int + 1));
            assert(gs@.skip(i as int)[0] == gs@[i as int]);
            assert(r@ =~= fmt_groups(gs@.skip(i as int)));
        }
        r
    }
}

impl IpAddress {
    /// Canonical text of the address as UTF-8 bytes.
    pub fn to_text(&self) -> (r: Vec<u8>)
        ensures
            r@ == ip_text(*self),
    {
        match *self {
            IpAddress::V4(a0, a1, a2, a3) => {
                let mut r = dec_text_exec(a0 as u16);
                r.push(46);
                let mut p1 = dec_text_exec(a1 as u16);
                r.append(&mut p1);
                r.push(46);
                let mut p2 = dec_text_exec(a2 as u16);
                r.append(&mut p2);
                r.push(46);
                let mut p3 = dec_text_exec(a3 as u16);
                r.append(&mut p3);
                proof {
                    assert(r@ =~= ip_text(*self));
                }
                r
            },
            IpAddress::V6(g0, g1, g2, g3, g4, g5, g6, g7) => {
                let mut gs: Vec<u16> = Vec::new();
                gs.push(g0);
                gs.push(g1);
                gs.push(g2);
                gs.push(g3);
                gs.push(g4);
                gs.push(g5);
                gs.push(g6);
                gs.push(g7);
                proof {
                    assert(gs@ =~= v6_groups(*self));
                    assert(gs@.skip(0) =~= gs@);
                }
                fmt_groups_exec(&gs, 0)
            },
        }
    }
}

// ---------------------------------------------------------------------
// Executable parsing
// ---------------------------------------------------------------------

fn hex_val_exec(c: u8) -> (r: u8)
    requires
        is_hex(c),
    ensures
        r as nat == hex_val(c),
        r < 16,
{
    if 48 <= c && c <= 57 {
        c - 48
    } else if c >= 97 {
        c - 87
    } else {
        c - 55
    }
}

fn is_hex_exec(c: u8) -> (r: bool)
    ensures
        r == is_hex(c),
{
    (48 <= c && c <= 57) || (97 <= c && c <= 102) || (65 <= c && c <= 70)
}

fn parse_dec_u8_exec(b: &[u8], i: usize) -> (r: Option<(u8, usize)>)
    ensures
        match r {
            Some((v, j)) => parse_dec_u8(b@, i as int) == Some((v, j as int)) && i < j <= b@.len(),
            None => parse_dec_u8(b@, i as int) is None,
        },
{
    if i >= b.len() || !(48 <= b[i] && b[i] <= 57) {
        return None;
    }
    if b[i] == 48 {
        return Some((0, i + 1));
    }
    let d0 = (b[i] - 48) as u16;
    if i + 1 < b.len() && 48 <= b[i + 1] && b[i + 1] <= 57 {
        let d1 = (b[i + 1] - 48) as u16;
        if i + 2 < b.len() && 48 <= b[i + 2] && b[i + 2] <= 57 {
            let d2 = (b[i + 2] - 48) as u16;
            let v = d0 * 100 + d1 * 10 + d2;
            if v <= 255 && !(i + 3 < b.len() && 48 <= b[i + 3] && b[i + 3] <= 57) {
                Some((v as u8, i + 3))
            } else {
                None
            }
        } else {
            Some(((d0 * 10 + d1) as u8, i + 2))
        }
    } else {
        Some((d0 as u8, i + 1))
    }
}

fn parse_h16_exec(b: &[u8], i: usize) -> (r: Option<(u16, usize)>)
    ensures
        match r {
            Some((v, j)) => parse_h16(b@, i as int) == Some((v, j as int)) && i < j <= b@.len(),
            None => parse_h16(b@, i as int) is None,
        },
{
    if i >= b.len() || !is_hex_exec(b[i]) {
        return None;
    }
    let v1 = hex_val_exec(b[i]) as u16;
    if i + 1 < b.len() && is_hex_exec(b[i + 1]) {
        let v2 = v1 * 16 + hex_val_exec(b[i + 1]) as u16;
        if i + 2 < b.len() && is_hex_exec(b[i + 2]) {
            let v3 = v2 * 16 + hex_val_exec(b[i + 2]) as u16;
            if i + 3 < b.len() && is_hex_exec(b[i + 3]) {
                if i + 4 < b.len() && is_hex_exec(b[i + 4]) {
                    None
                } else {
                    Some((v3 * 16 + hex_val_exec(b[i + 3]) as u16, i + 4))
                }
            } else {
                Some((v3, i + 3))
            }
        } else {
            Some((v2, i + 2))
        }
    } else {
        Some((v1, i + 1))
    }
}

fn parse_v4_quad_exec(b: &[u8], i: usize) -> (r: Option<(u8, u8, u8, u8)>)
    ensures
        r == parse_v4_quad(b@, i as int),
{
    let (a0, i1) = match parse_dec_u8_exec(b, i) {
        Some(x) => x,
        None => {
            return None;
        },
    };
    if !(i1 < b.len() && b[i1] == 46) {
        return None;
    }
    let (a1, i2) = match parse_dec_u8_exec(b, i1 + 1) {
        Some(x) => x,
        None => {
            return None;
        },
    };
    if !(i2 < b.len() && b[i2] == 46) {
        return None;
    }
    let (a2, i3) = match parse_dec_u8_exec(b, i2 + 1) {
        Some(x) => x,
        None => {
            return None;
        },
    };
    if !(i3 < b.len() && b[i3] == 46) {
        return None;
    }
    let (a3, i4) = match parse_dec_u8_exec(b, i3 + 1) {
        Some(x) => x,
        None => {
            return None;
        },
    };
    if i4 != b.len() {
        return None;
    }
    Some((a0, a1, a2, a3))
}

fn parse_v6_tail_exec(b: &[u8], i: usize, acc: Vec<u16>) -> (r: Option<Vec<u16>>)
    requires
        i <= b@.len(),
    ensures
        match r {
            Some(v) => parse_v6_tail(b@, i as int, acc@) == Some(v@),
            None => parse_v6_tail(b@, i as int, acc@) is None,
        },
    decreases b@.len() - i,
{
    if i == b.len() {
        return Some(acc);
    }
    if let Some((a0, a1, a2, a3)) = parse_v4_quad_exec(b, i) {
        let mut acc2 = acc;
        acc2.push(a0 as u16 * 256 + a1 as u16);
        acc2.push(a2 as u16 * 256 + a3 as u16);
        return Some(acc2);
    }
    match parse_h16_exec(b, i) {
        Some((g, j)) => {
            let mut acc2 = acc;
            acc2.push(g);
            if j == b.len() {
                Some(acc2)
            } else if b[j] == 58 && j + 1 < b.len() {
                parse_v6_tail_exec(b, j + 1, acc2)
            } else {
                None
            }
        },
        None => None,
    }
}

fn parse_v6_head_exec(b: &[u8], i: usize, acc: Vec<u16>) -> (r: Option<Vec<u16>>)
    requires
        i <= b@.len(),
    ensures
        match r {
            Some(v) => parse_v6_head(b@, i as int, acc@) == Some(v@),
            None => parse_v6_head(b@, i as int, acc@) is None,
        },
    decreases b@.len() - i,
{
    if let Some((a0, a1, a2, a3)) = parse_v4_quad_exec(b, i) {
        let mut acc2 = acc;
        acc2.push(a0 as u16 * 256 + a1 as u16);
        acc2.push(a2 as u16 * 256 + a3 as u16);
        return if acc2.len() == 8 {
            Some(acc2)
        } else {
            None
        };
    }
    match parse_h16_exec(b, i) {
        Some((g, j)) => {
            let mut acc2 = acc;
            acc2.push(g);
            if j == b.len() {
                if acc2.len() == 8 {
                    Some(acc2)
                } else {
                    None
                }
            } else if b[j] == 58 {
                if j + 1 < b.len() && b[j + 1] == 58 {
                    match parse_v6_tail_exec(b, j + 2, Vec::new()) {
                        Some(tail) => combine_v6_exec(acc2, tail),
                        None => None,
                    }
                } else if j + 1 < b.len() {
                    parse_v6_head_exec(b, j + 1, acc2)
                } else {
                    None
                }
            } else {
                None
            }
        },
        None => None,
    }
}

fn combine_v6_exec(front: Vec<u16>, tail: Vec<u16>) -> (r: Option<Vec<u16>>)
    ensures
        match r {
            Some(v) => combine_v6(front@, tail@) == Some(v@),
            None => combine_v6(front@, tail@) is None,
        },
{
    if front.len() <= 7 && tail.len() <= 7 - front.len() {
        let zeros = 8 - front.len() - tail.len();
        let mut r = front;
        let mut k: usize = 0;
        while k < zeros
            invariant
                k <= zeros,
                r@ == front@ + Seq::new(k as nat, |q: int| 0u16),
            decreases zeros - k,
        {
            r.push(0);
            proof {
                assert(Seq::new((k + 1) as nat, |q: int| 0u16) =~= Seq::new(
                    k as nat,
                    |q: int| 0u16,
                ).push(0u16));
            }
            k = k + 1;
        }
        let mut t = tail;
        r.append(&mut t);
        proof {
            assert(combine_v6(front@, tail@) matches Some(v) && v =~= r@);
        }
        Some(r)
    } else {
        None
    }
}

/// Parses an address text, exactly as `parse_ip` does.
pub fn parse_ip_exec(b: &[u8]) -> (r: Option<IpAddress>)
    ensures
        r == parse_ip(b@),
{
    let mut has_colon = false;
    let mut k: usize = 0;
    while k < b.len()
        invariant
            k <= b@.len(),
            has_colon == exists|q: int| 0 <= q < k && b@[q] == 58,
        decreases b@.len() - k,
    {
        if b[k] == 58 {
            has_colon = true;
        }
        k = k + 1;
    }
    if !has_colon {
        match parse_v4_quad_exec(b, 0) {
            Some((a0, a1, a2, a3)) => Some(IpAddress::V4(a0, a1, a2, a3)),
            None => None,
        }
    } else {
        let gs = if b.len() >= 2 && b[0] == 58 {
            if b[1] == 58 {
                match parse_v6_tail_exec(b, 2, Vec::new()) {
                    Some(tail) => combine_v6_exec(Vec::new(), tail),
                    None => None,
                }
            } else {
                None
            }
        } else {
            parse_v6_head_exec(b, 0, Vec::new())
        };
        match gs {
            Some(v) => {
                if v.len() == 8 {
                    Some(IpAddress::V6(v[0], v[1], v[2], v[3], v[4], v[5], v[6], v[7]))
                } else {
                    None
                }
            },
            None => None,
        }
    }
}

} // verus!
