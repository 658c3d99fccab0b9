//! The wire codec: a deterministic, length-prefixed binary layout for the
//! protocol messages, with encoding and decoding proved to be exact inverses.
//!
//! Layout: one tag byte, then the fields in order. Fixed-width integers are
//! little-endian; text is a 32-bit character count followed by one 32-bit
//! Unicode scalar per character; the roster is a 32-bit entry count followed
//! by its entries; a chunk payload is exactly one chunk's cells. Malformed
//! bytes decode to nothing, never to a partial message.

use vstd::prelude::*;
use vstd::utf8::is_scalar;

use crate::coords::IVec3;
use crate::packet::{roster_view, CPacket, CPacketV, SPacket, SPacketV};

verus! {

// ---------------------------------------------------------------------------
// Primitive layouts
// ---------------------------------------------------------------------------
/// The four little-endian bytes of `v`.
pub open spec fn se_u32(v: u32) -> Seq<u8> {
    seq![
        (v & 0xff) as u8,
        ((v >> 8) & 0xff) as u8,
        ((v >> 16) & 0xff) as u8,
        ((v >> 24) & 0xff) as u8,
    ]
}

/// The eight little-endian bytes of `v`.
pub open spec fn se_u64(v: u64) -> Seq<u8> {
    se_u32((v & 0xffff_ffff) as u32) + se_u32(((v >> 32) & 0xffff_ffff) as u32)
}

/// A signed value travels as the four bytes of its two's-complement bits.
pub open spec fn se_i32(v: i32) -> Seq<u8> {
    se_u32(v as u32)
}

/// The three components of an integer vector, in x, y, z order.
pub open spec fn se_ivec3(p: IVec3) -> Seq<u8> {
    se_i32(p.x) + se_i32(p.y) + se_i32(p.z)
}

/// The value whose little-endian bytes are `d0 .. d3`.
pub open spec fn u32_of_bytes(d0: u8, d1: u8, d2: u8, d3: u8) -> u32 {
    (d0 as u32) | ((d1 as u32) << 8) | ((d2 as u32) << 16) | ((d3 as u32) << 24)
}

/// Reading one byte at position `i`.
pub open spec fn sd_u8(b: Seq<u8>, i: int) -> Option<(u8, int)> {
    if 0 <= i && i + 1 <= b.len() {
        Some((b[i], i + 1))
    } else {
        None
    }
}

/// Reading a little-endian `u32` at position `i`.
pub open spec fn sd_u32(b: Seq<u8>, i: int) -> Option<(u32, int)> {
    if 0 <= i && i + 4 <= b.len() {
        Some((u32_of_bytes(b[i], b[i + 1], b[i + 2], b[i + 3]), i + 4))
    } else {
        None
    }
}

/// Reading a little-endian `u64` at position `i`.
pub open spec fn sd_u64(b: Seq<u8>, i: int) -> Option<(u64, int)> {
    match sd_u32(b, i) {
        Some((lo, j)) => match sd_u32(b, j) {
            Some((hi, k)) => Some(((lo as u64) | ((hi as u64) << 32), k)),
            None => None,
        },
        None => None,
    }
}

/// Reading an `i32` as its two's-complement bits.
pub open spec fn sd_i32(b: Seq<u8>, i: int) -> Option<(i32, int)> {
    match sd_u32(b, i) {
        Some((v, j)) => Some((v as i32, j)),
        None => None,
    }
}

/// Reading an integer vector.
pub open spec fn sd_ivec3(b: Seq<u8>, i: int) -> Option<(IVec3, int)> {
    match sd_i32(b, i) {
        Some((x, j)) => match sd_i32(b, j) {
            Some((y, k)) => match sd_i32(b, k) {
                Some((z, l)) => Some((IVec3 { x, y, z }, l)),
                None => None,
            },
            None => None,
        },
        None => None,
    }
}

// ---------------------------------------------------------------------------
// Primitive lemmas: parsing an encoding yields the value back, and a parsed
// slice is the encoding of its value.
// ---------------------------------------------------------------------------
/// Splitting a known concatenation of two parts out of a byte sequence.
proof fn lemma_concat_split(b: Seq<u8>, i: int, s1: Seq<u8>, s2: Seq<u8>)
    requires
        0 <= i,
        i + s1.len() + s2.len() <= b.len(),
        b.subrange(i, i + s1.len() + s2.len()) == s1 + s2,
    ensures
        b.subrange(i, i + s1.len()) == s1,
        b.subrange(i + s1.len(), i + s1.len() + s2.len()) == s2,
{
    let n1 = s1.len() as int;
    let n2 = s2.len() as int;
    assert forall|k: int| 0 <= k < n1 implies b.subrange(i, i + n1)[k] == s1[k] by {
        assert(b.subrange(i, i + n1 + n2)[k] == (s1 + s2)[k]);
    }
    assert(b.subrange(i, i + n1) =~= s1);
    assert forall|k: int| 0 <= k < n2 implies b.subrange(i + n1, i + n1 + n2)[k] == s2[k] by {
        assert(b.subrange(i, i + n1 + n2)[n1 + k] == (s1 + s2)[n1 + k]);
    }
    assert(b.subrange(i + n1, i + n1 + n2) =~= s2);
}

proof fn lemma_byte_casts(v: u32)
    by (bit_vector)
    ensures
        ((v & 0xff) as u8) as u32 == v & 0xff,
        (((v >> 8) & 0xff) as u8) as u32 == (v >> 8) & 0xff,
        (((v >> 16) & 0xff) as u8) as u32 == (v >> 16) & 0xff,
        (((v >> 24) & 0xff) as u8) as u32 == (v >> 24) & 0xff,
{
}

proof fn lemma_u32_decompose(d0: u32, d1: u32, d2: u32, d3: u32)
    by (bit_vector)
    requires
        d0 < 256,
        d1 < 256,
        d2 < 256,
        d3 < 256,
    ensures
        (d0 | (d1 << 8) | (d2 << 16) | (d3 << 24)) & 0xff == d0,
        ((d0 | (d1 << 8) | (d2 << 16) | (d3 << 24)) >> 8) & 0xff == d1,
        ((d0 | (d1 << 8) | (d2 << 16) | (d3 << 24)) >> 16) & 0xff == d2,
        ((d0 | (d1 << 8) | (d2 << 16) | (d3 << 24)) >> 24) & 0xff == d3,
{
}

proof fn lemma_u32_recompose(v: u32)
    by (bit_vector)
    ensures
        (v & 0xff) | (((v >> 8) & 0xff) << 8) | (((v >> 16) & 0xff) << 16) | (((v >> 24) & 0xff)
            << 24) == v,
{
}

proof fn lemma_u64_split(v: u64)
    by (bit_vector)
    ensures
        (((v & 0xffff_ffff) as u32) as u64) | ((((v >> 32) & 0xffff_ffff) as u32) as u64) << 32
            == v,
        ((v & 0xffff_ffff) as u32) as u64 == v & 0xffff_ffff,
{
}

proof fn lemma_u64_join(lo: u32, hi: u32)
    by (bit_vector)
    ensures
        ((((lo as u64) | ((hi as u64) << 32)) & 0xffff_ffff) as u32) == lo,
        (((((lo as u64) | ((hi as u64) << 32)) >> 32) & 0xffff_ffff) as u32) == hi,
{
}

proof fn lemma_i32_bits(v: i32)
    by (bit_vector)
    ensures
        (v as u32) as i32 == v,
{
}

/// Parsing four bytes that are the encoding of `v` yields `v`.
proof fn lemma_sd_u32(b: Seq<u8>, i: int, v: u32)
    requires
        0 <= i,
        i + 4 <= b.len(),
        b.subrange(i, i + 4) == se_u32(v),
    ensures
        sd_u32(b, i) == Some((v, i + 4)),
{
    assert(b[i] == se_u32(v)[0]);
    assert(b[i + 1] == se_u32(v)[1]);
    assert(b[i + 2] == se_u32(v)[2]);
    assert(b[i + 3] == se_u32(v)[3]);
    lemma_u32_recompose(v);
    lemma_byte_casts(v);
    assert(u32_of_bytes((v & 0xff) as u8, ((v >> 8) & 0xff) as u8, ((v >> 16) & 0xff) as u8, ((v
        >> 24) & 0xff) as u8) == v);
}

/// A parsed `u32` slice is the encoding of the parsed value.
proof fn lemma_sd_u32_inv(b: Seq<u8>, i: int)
    requires
        sd_u32(b, i) is Some,
    ensures
        ({
            let (v, j) = sd_u32(b, i)->Some_0;
            &&& j == i + 4
            &&& 0 <= i && j <= b.len()
            &&& b.subrange(i, j) == se_u32(v)
        }),
{
    let (v, j) = sd_u32(b, i)->Some_0;
    lemma_u32_decompose(b[i] as u32, b[i + 1] as u32, b[i + 2] as u32, b[i + 3] as u32);
    assert(b.subrange(i, j) =~= se_u32(v));
}

/// Parsing eight bytes that are the encoding of `v` yields `v`.
proof fn lemma_sd_u64(b: Seq<u8>, i: int, v: u64)
    requires
        0 <= i,
        i + 8 <= b.len(),
        b.subrange(i, i + 8) == se_u64(v),
    ensures
        sd_u64(b, i) == Some((v, i + 8)),
{
    let lo = (v & 0xffff_ffff) as u32;
    let hi = ((v >> 32) & 0xffff_ffff) as u32;
    lemma_concat_split(b, i, se_u32(lo), se_u32(hi));
    lemma_sd_u32(b, i, lo);
    lemma_sd_u32(b, i + 4, hi);
    lemma_u64_split(v);
}

/// A parsed `u64` slice is the encoding of the parsed value.
proof fn lemma_sd_u64_inv(b: Seq<u8>, i: int)
    requires
        sd_u64(b, i) is Some,
    ensures
        ({
            let (v, j) = sd_u64(b, i)->Some_0;
            &&& j == i + 8
            &&& 0 <= i && j <= b.len()
            &&& b.subrange(i, j) == se_u64(v)
        }),
{
    let (v, j) = sd_u64(b, i)->Some_0;
    let (lo, j1) = sd_u32(b, i)->Some_0;
    let (hi, j2) = sd_u32(b, j1)->Some_0;
    lemma_sd_u32_inv(b, i);
    lemma_sd_u32_inv(b, j1);
    lemma_u64_join(lo, hi);
    assert(b.subrange(i, j) =~= b.subrange(i, i + 4) + b.subrange(i + 4, i + 8));
}

/// Parsing four bytes that are the encoding of `v` yields `v`.
proof fn lemma_sd_i32(b: Seq<u8>, i: int, v: i32)
    requires
        0 <= i,
        i + 4 <= b.len(),
        b.subrange(i, i + 4) == se_i32(v),
    ensures
        sd_i32(b, i) == Some((v, i + 4)),
{
    lemma_sd_u32(b, i, v as u32);
    lemma_i32_bits(v);
}

/// A parsed `i32` slice is the encoding of the parsed value.
proof fn lemma_sd_i32_inv(b: Seq<u8>, i: int)
    requires
        sd_i32(b, i) is Some,
    ensures
        ({
            let (v, j) = sd_i32(b, i)->Some_0;
            &&& j == i + 4
            &&& 0 <= i && j <= b.len()
            &&& b.subrange(i, j) == se_i32(v)
        }),
{
    let (u, j) = sd_u32(b, i)->Some_0;
    lemma_sd_u32_inv(b, i);
    assert((u as i32) as u32 == u) by (bit_vector);
}

/// Parsing twelve bytes that are the encoding of `p` yields `p`.
proof fn lemma_sd_ivec3(b: Seq<u8>, i: int, p: IVec3)
    requires
        0 <= i,
        i + 12 <= b.len(),
        b.subrange(i, i + 12) == se_ivec3(p),
    ensures
        sd_ivec3(b, i) == Some((p, i + 12)),
{
    assert(b.subrange(i, i + 12) =~= (se_i32(p.x) + se_i32(p.y)) + se_i32(p.z));
    lemma_concat_split(b, i, se_i32(p.x) + se_i32(p.y), se_i32(p.z));
    lemma_concat_split(b, i, se_i32(p.x), se_i32(p.y));
    lemma_sd_i32(b, i, p.x);
    lemma_sd_i32(b, i + 4, p.y);
    lemma_sd_i32(b, i + 8, p.z);
}

/// A parsed vector slice is the encoding of the parsed vector.
proof fn lemma_sd_ivec3_inv(b: Seq<u8>, i: int)
    requires
        sd_ivec3(b, i) is Some,
    ensures
        ({
            let (p, j) = sd_ivec3(b, i)->Some_0;
            &&& j == i + 12
            &&& 0 <= i && j <= b.len()
            &&& b.subrange(i, j) == se_ivec3(p)
        }),
{
    let (p, j) = sd_ivec3(b, i)->Some_0;
    lemma_sd_i32_inv(b, i);
    lemma_sd_i32_inv(b, i + 4);
    lemma_sd_i32_inv(b, i + 8);
    assert(b.subrange(i, j) =~= b.subrange(i, i + 4) + b.subrange(i + 4, i + 8) + b.subrange(
        i + 8,
        i + 12,
    ));
}

// ---------------------------------------------------------------------------
// Variable-length layouts: text, chunk payloads, the roster
// ---------------------------------------------------------------------------
/// Each character as the four little-endian bytes of its Unicode scalar.
pub open spec fn se_chars(s: Seq<char>) -> Seq<u8>
    decreases s.len(),
{
    if s.len() == 0 {
        Seq::empty()
    } else {
        se_u32(s[0] as u32) + se_chars(s.skip(1))
    }
}

/// Text: a 32-bit character count, then the characters.
pub open spec fn se_string(s: Seq<char>) -> Seq<u8> {
    se_u32(s.len() as u32) + se_chars(s)
}

/// Voxel cells, one 32-bit value each, without a count (the count is fixed
/// by the message that carries them).
pub open spec fn se_cells(v: Seq<u32>) -> Seq<u8>
    decreases v.len(),
{
    if v.len() == 0 {
        Seq::empty()
    } else {
        se_u32(v[0]) + se_cells(v.skip(1))
    }
}

/// Roster entries: identifier, then name.
pub open spec fn se_roster(r: Seq<(u64, Seq<char>)>) -> Seq<u8>
    decreases r.len(),
{
    if r.len() == 0 {
        Seq::empty()
    } else {
        se_u64(r[0].0) + se_string(r[0].1) + se_roster(r.skip(1))
    }
}

/// Reading `n` characters.
pub open spec fn sd_chars(b: Seq<u8>, i: int, n: nat) -> Option<(Seq<char>, int)>
    decreases n,
{
    if n == 0 {
        Some((Seq::empty(), i))
    } else {
        match sd_u32(b, i) {
            Some((v, j)) => if is_scalar(v) {
                match sd_chars(b, j, (n - 1) as nat) {
                    Some((tail, k)) => Some((seq![v as char] + tail, k)),
                    None => None,
                }
            } else {
                None
            },
            None => None,
        }
    }
}

/// Reading counted text.
pub open spec fn sd_string(b: Seq<u8>, i: int) -> Option<(Seq<char>, int)> {
    match sd_u32(b, i) {
        Some((n, j)) => sd_chars(b, j, n as nat),
        None => None,
    }
}

/// Reading `n` voxel cells.
pub open spec fn sd_cells(b: Seq<u8>, i: int, n: nat) -> Option<(Seq<u32>, int)>
    decreases n,
{
    if n == 0 {
        Some((Seq::empty(), i))
    } else {
        match sd_u32(b, i) {
            Some((v, j)) => match sd_cells(b, j, (n - 1) as nat) {
                Some((tail, k)) => Some((seq![v] + tail, k)),
                None => None,
            },
            None => None,
        }
    }
}

/// Reading `n` roster entries.
pub open spec fn sd_roster(b: Seq<u8>, i: int, n: nat) -> Option<(Seq<(u64, Seq<char>)>, int)>
    decreases n,
{
    if n == 0 {
        Some((Seq::empty(), i))
    } else {
        match sd_u64(b, i) {
            Some((id, j)) => match sd_string(b, j) {
                Some((name, k)) => match sd_roster(b, k, (n - 1) as nat) {
                    Some((tail, l)) => Some((seq![(id, name)] + tail, l)),
                    None => None,
                },
                None => None,
            },
            None => None,
        }
    }
}

proof fn lemma_se_chars_len(s: Seq<char>)
    ensures
        se_chars(s).len() == 4 * s.len(),
    decreases s.len(),
{
    if s.len() > 0 {
        lemma_se_chars_len(s.skip(1));
    }
}

proof fn lemma_se_cells_len(v: Seq<u32>)
    ensures
        se_cells(v).len() == 4 * v.len(),
    decreases v.len(),
{
    if v.len() > 0 {
        lemma_se_cells_len(v.skip(1));
    }
}

/// Appending one character appends its four bytes.
proof fn lemma_se_chars_push(s: Seq<char>, c: char)
    ensures
        se_chars(s.push(c)) == se_chars(s) + se_u32(c as u32),
    decreases s.len(),
{
    if s.len() == 0 {
        assert(s.push(c)[0] == c);
        assert(s.push(c).skip(1) =~= Seq::<char>::empty());
        assert(se_chars(Seq::<char>::empty()) == Seq::<u8>::empty());
        assert(se_chars(s.push(c)) == se_u32(c as u32) + Seq::<u8>::empty());
        assert(se_u32(c as u32) + Seq::<u8>::empty() =~= se_u32(c as u32));
        assert(se_chars(s) + se_u32(c as u32) =~= se_u32(c as u32));
    } else {
        assert(s.push(c).skip(1) =~= s.skip(1).push(c));
        lemma_se_chars_push(s.skip(1), c);
        assert(se_chars(s.push(c)) == se_u32(s[0] as u32) + (se_chars(s.skip(1)) + se_u32(
            c as u32,
        )));
        assert(se_u32(s[0] as u32) + (se_chars(s.skip(1)) + se_u32(c as u32)) =~= (se_u32(
            s[0] as u32,
        ) + se_chars(s.skip(1))) + se_u32(c as u32));
    }
}

/// Appending one cell appends its four bytes.
proof fn lemma_se_cells_push(v: Seq<u32>, x: u32)
    ensures
        se_cells(v.push(x)) == se_cells(v) + se_u32(x),
    decreases v.len(),
{
    if v.len() == 0 {
        assert(v.push(x)[0] == x);
        assert(v.push(x).skip(1) =~= Seq::<u32>::empty());
        assert(se_cells(Seq::<u32>::empty()) == Seq::<u8>::empty());
        assert(se_cells(v.push(x)) == se_u32(x) + Seq::<u8>::empty());
        assert(se_u32(x) + Seq::<u8>::empty() =~= se_u32(x));
        assert(se_cells(v) + se_u32(x) =~= se_u32(x));
    } else {
        assert(v.push(x).skip(1) =~= v.skip(1).push(x));
        lemma_se_cells_push(v.skip(1), x);
        assert(se_cells(v.push(x)) == se_u32(v[0]) + (se_cells(v.skip(1)) + se_u32(x)));
        assert(se_u32(v[0]) + (se_cells(v.skip(1)) + se_u32(x)) =~= (se_u32(v[0]) + se_cells(
            v.skip(1),
        )) + se_u32(x));
    }
}

/// Appending one roster entry appends its bytes.
proof fn lemma_se_roster_push(r: Seq<(u64, Seq<char>)>, e: (u64, Seq<char>))
    ensures
        se_roster(r.push(e)) == se_roster(r) + (se_u64(e.0) + se_string(e.1)),
    decreases r.len(),
{
    if r.len() == 0 {
        assert(r.push(e)[0] == e);
        assert(r.push(e).skip(1) =~= Seq::<(u64, Seq<char>)>::empty());
        assert(se_roster(Seq::<(u64, Seq<char>)>::empty()) == Seq::<u8>::empty());
        assert(se_roster(r.push(e)) == se_u64(e.0) + se_string(e.1) + Seq::<u8>::empty());
        assert(se_u64(e.0) + se_string(e.1) + Seq::<u8>::empty() =~= se_u64(e.0) + se_string(
            e.1,
        ));
        assert(se_roster(r) + (se_u64(e.0) + se_string(e.1)) =~= se_u64(e.0) + se_string(e.1));
    } else {
        assert(r.push(e).skip(1) =~= r.skip(1).push(e));
        lemma_se_roster_push(r.skip(1), e);
        assert(se_roster(r.push(e)) == se_u64(r[0].0) + se_string(r[0].1) + (se_roster(r.skip(1))
            + (se_u64(e.0) + se_string(e.1))));
        assert(se_u64(r[0].0) + se_string(r[0].1) + (se_roster(r.skip(1)) + (se_u64(e.0)
            + se_string(e.1))) =~= (se_u64(r[0].0) + se_string(r[0].1) + se_roster(r.skip(1))) + (
        se_u64(e.0) + se_string(e.1)));
    }
}

/// Parsing the encoding of `s` yields `s`.
proof fn lemma_sd_chars(b: Seq<u8>, i: int, s: Seq<char>)
    requires
        0 <= i,
        i + 4 * s.len() <= b.len(),
        b.subrange(i, i + 4 * s.len()) == se_chars(s),
    ensures
        sd_chars(b, i, s.len()) == Some((s, i + 4 * s.len())),
    decreases s.len(),
{
    lemma_se_chars_len(s);
    if s.len() == 0 {
        assert(sd_chars(b, i, 0) == Some((Seq::<char>::empty(), i)));
        assert(s =~= Seq::<char>::empty());
    } else {
        lemma_se_chars_len(s.skip(1));
        lemma_concat_split(b, i, se_u32(s[0] as u32), se_chars(s.skip(1)));
        lemma_sd_u32(b, i, s[0] as u32);
        vstd::utf8::char_is_scalar(s[0]);
        vstd::utf8::char_u32_cast(s[0], s[0] as u32);
        lemma_sd_chars(b, i + 4, s.skip(1));
        assert(seq![(s[0] as u32) as char] + s.skip(1) =~= s);
    }
}

/// A parsed character slice is the encoding of the parsed text.
proof fn lemma_sd_chars_inv(b: Seq<u8>, i: int, n: nat)
    requires
        0 <= i <= b.len(),
        sd_chars(b, i, n) is Some,
    ensures
        ({
            let (s, j) = sd_chars(b, i, n)->Some_0;
            &&& s.len() == n
            &&& j == i + 4 * n
            &&& j <= b.len()
            &&& b.subrange(i, j) == se_chars(s)
        }),
    decreases n,
{
    if n == 0 {
        let (s, j) = sd_chars(b, i, n)->Some_0;
        assert(b.subrange(i, i) =~= Seq::<u8>::empty());
        assert(se_chars(s) =~= Seq::<u8>::empty());
    } else {
        let (s, j) = sd_chars(b, i, n)->Some_0;
        let (v, j1) = sd_u32(b, i)->Some_0;
        let (tail, k) = sd_chars(b, j1, (n - 1) as nat)->Some_0;
        lemma_sd_u32_inv(b, i);
        lemma_sd_chars_inv(b, j1, (n - 1) as nat);
        vstd::utf8::char_u32_cast(v as char, v);
        assert(s == seq![v as char] + tail);
        assert(s[0] == v as char);
        assert(s.skip(1) =~= tail);
        assert((v as char) as u32 == v) by {
            vstd::utf8::char_u32_cast(v as char, v);
        }
        assert(se_chars(s) == se_u32(v) + se_chars(tail));
        assert(b.subrange(i, j) =~= b.subrange(i, i + 4) + b.subrange(i + 4, j));
    }
}

/// Parsing the encoding of counted text yields the text.
proof fn lemma_sd_string(b: Seq<u8>, i: int, s: Seq<char>)
    requires
        0 <= i,
        s.len() <= 0xFFFF_FFFF,
        i + 4 + 4 * s.len() <= b.len(),
        b.subrange(i, i + 4 + 4 * s.len()) == se_string(s),
    ensures
        sd_string(b, i) == Some((s, i + 4 + 4 * s.len())),
{
    lemma_se_chars_len(s);
    lemma_concat_split(b, i, se_u32(s.len() as u32), se_chars(s));
    lemma_sd_u32(b, i, s.len() as u32);
    assert((s.len() as u32) as nat == s.len());
    lemma_sd_chars(b, i + 4, s);
}

/// A parsed text slice is the encoding of the parsed text.
proof fn lemma_sd_string_inv(b: Seq<u8>, i: int)
    requires
        sd_string(b, i) is Some,
    ensures
        ({
            let (s, j) = sd_string(b, i)->Some_0;
            &&& s.len() <= 0xFFFF_FFFF
            &&& j == i + 4 + 4 * s.len()
            &&& 0 <= i && j <= b.len()
            &&& b.subrange(i, j) == se_string(s)
        }),
{
    let (s, j) = sd_string(b, i)->Some_0;
    let (n, j1) = sd_u32(b, i)->Some_0;
    lemma_sd_u32_inv(b, i);
    lemma_sd_chars_inv(b, j1, n as nat);
    assert(s.len() == n as nat);
    assert(s.len() as u32 == n);
    assert(b.subrange(i, j) =~= b.subrange(i, i + 4) + b.subrange(i + 4, j));
}

/// Parsing the encoding of `v` yields `v`.
proof fn lemma_sd_cells(b: Seq<u8>, i: int, v: Seq<u32>)
    requires
        0 <= i,
        i + 4 * v.len() <= b.len(),
        b.subrange(i, i + 4 * v.len()) == se_cells(v),
    ensures
        sd_cells(b, i, v.len()) == Some((v, i + 4 * v.len())),
    decreases v.len(),
{
    lemma_se_cells_len(v);
    if v.len() == 0 {
        assert(v =~= Seq::<u32>::empty());
    } else {
        lemma_se_cells_len(v.skip(1));
        lemma_concat_split(b, i, se_u32(v[0]), se_cells(v.skip(1)));
        lemma_sd_u32(b, i, v[0]);
        lemma_sd_cells(b, i + 4, v.skip(1));
        assert(seq![v[0]] + v.skip(1) =~= v);
    }
}

/// A parsed cell slice is the encoding of the parsed cells.
proof fn lemma_sd_cells_inv(b: Seq<u8>, i: int, n: nat)
    requires
        0 <= i <= b.len(),
        sd_cells(b, i, n) is Some,
    ensures
        ({
            let (v, j) = sd_cells(b, i, n)->Some_0;
            &&& v.len() == n
            &&& j == i + 4 * n
            &&& j <= b.len()
            &&& b.subrange(i, j) == se_cells(v)
        }),
    decreases n,
{
    if n == 0 {
        let (v, j) = sd_cells(b, i, n)->Some_0;
        assert(b.subrange(i, i) =~= Seq::<u8>::empty());
        assert(se_cells(v) =~= Seq::<u8>::empty());
    } else {
        let (v, j) = sd_cells(b, i, n)->Some_0;
        let (x, j1) = sd_u32(b, i)->Some_0;
        let (tail, k) = sd_cells(b, j1, (n - 1) as nat)->Some_0;
        lemma_sd_u32_inv(b, i);
        lemma_sd_cells_inv(b, j1, (n - 1) as nat);
        assert(v[0] == x);
        assert(v.skip(1) =~= tail);
        assert(se_cells(v) == se_u32(x) + se_cells(tail));
        assert(b.subrange(i, j) =~= b.subrange(i, i + 4) + b.subrange(i + 4, j));
    }
}

/// Parsing the encoding of `r` yields `r`.
proof fn lemma_sd_roster(b: Seq<u8>, i: int, r: Seq<(u64, Seq<char>)>)
    requires
        0 <= i,
        i + se_roster(r).len() <= b.len(),
        b.subrange(i, i + se_roster(r).len()) == se_roster(r),
        forall|k: int| 0 <= k < r.len() ==> (#[trigger] r[k]).1.len() <= 0xFFFF_FFFF,
    ensures
        sd_roster(b, i, r.len()) == Some((r, i + se_roster(r).len())),
    decreases r.len(),
{
    if r.len() == 0 {
        assert(r =~= Seq::<(u64, Seq<char>)>::empty());
    } else {
        let head = se_u64(r[0].0) + se_string(r[0].1);
        let tail = se_roster(r.skip(1));
        assert(se_roster(r) == head + tail) by {
            assert(se_u64(r[0].0) + se_string(r[0].1) + tail =~= head + tail);
        }
        lemma_concat_split(b, i, head, tail);
        lemma_concat_split(b, i, se_u64(r[0].0), se_string(r[0].1));
        lemma_sd_u64(b, i, r[0].0);
        lemma_se_chars_len(r[0].1);
        assert(r[0].1.len() <= 0xFFFF_FFFF);
        lemma_sd_string(b, i + 8, r[0].1);
        assert(forall|k: int|
            0 <= k < r.skip(1).len() ==> (#[trigger] r.skip(1)[k]).1.len() <= 0xFFFF_FFFF);
        lemma_sd_roster(b, i + head.len(), r.skip(1));
        assert(seq![(r[0].0, r[0].1)] + r.skip(1) =~= r);
    }
}

/// A parsed roster slice is the encoding of the parsed roster.
proof fn lemma_sd_roster_inv(b: Seq<u8>, i: int, n: nat)
    requires
        0 <= i <= b.len(),
        sd_roster(b, i, n) is Some,
    ensures
        ({
            let (r, j) = sd_roster(b, i, n)->Some_0;
            &&& r.len() == n
            &&& i <= j <= b.len()
            &&& b.subrange(i, j) == se_roster(r)
            &&& forall|k: int| 0 <= k < r.len() ==> (#[trigger] r[k]).1.len() <= 0xFFFF_FFFF
        }),
    decreases n,
{
    if n == 0 {
        let (r, j) = sd_roster(b, i, n)->Some_0;
        assert(b.subrange(i, i) =~= Seq::<u8>::empty());
        assert(se_roster(r) =~= Seq::<u8>::empty());
    } else {
        let (r, j) = sd_roster(b, i, n)->Some_0;
        let (id, j1) = sd_u64(b, i)->Some_0;
        let (name, j2) = sd_string(b, j1)->Some_0;
        let (tail, k) = sd_roster(b, j2, (n - 1) as nat)->Some_0;
        lemma_sd_u64_inv(b, i);
        lemma_sd_string_inv(b, j1);
        lemma_sd_roster_inv(b, j2, (n - 1) as nat);
        assert(r[0] == (id, name));
        assert(r.skip(1) =~= tail);
        assert(se_roster(r) == se_u64(id) + se_string(name) + se_roster(tail));
        assert(b.subrange(i, j) =~= (b.subrange(i, j1) + b.subrange(j1, j2)) + b.subrange(j2, j));
    }
}

// ---------------------------------------------------------------------------
// Whole messages
// ---------------------------------------------------------------------------
/// The bytes of a request message: tag, then fields.
pub open spec fn spec_encode_cpacket(m: CPacketV) -> Seq<u8> {
    match m {
        CPacketV::Handshake { protocol_version } => seq![0u8] + se_u64(protocol_version),
        CPacketV::ServerQuery => seq![1u8],
        CPacketV::Ping { client_time } => seq![2u8] + se_u64(client_time),
        CPacketV::Login { uuid, access_token, username } => seq![3u8] + se_u64(uuid) + se_u64(
            access_token,
        ) + se_string(username),
        CPacketV::ChatMessage { message } => seq![4u8] + se_string(message),
    }
}

/// The bytes of an event message: tag, then fields.
pub open spec fn spec_encode_spacket(m: SPacketV) -> Seq<u8> {
    match m {
        SPacketV::Disconnect { reason } => seq![0u8] + se_string(reason),
        SPacketV::ServerInfo { motd, num_players_limit, num_players_online, protocol_version, favicon } => seq![
            1u8,
        ] + se_string(motd) + se_u32(num_players_limit) + se_u32(num_players_online) + se_u64(
            protocol_version,
        ) + se_string(favicon),
        SPacketV::Pong { client_time, server_time } => seq![2u8] + se_u64(client_time) + se_u64(
            server_time,
        ),
        SPacketV::LoginSuccess => seq![3u8],
        SPacketV::Chat { message } => seq![4u8] + se_string(message),
        SPacketV::EntityNew { entity_id, name } => seq![5u8] + se_u64(entity_id) + se_string(name),
        SPacketV::EntityPos { entity_id, position } => seq![6u8] + se_u64(entity_id) + se_ivec3(
            position,
        ),
        SPacketV::EntityDel { entity_id } => seq![7u8] + se_u64(entity_id),
        SPacketV::PlayerList { playerlist } => seq![8u8] + se_u32(playerlist.len() as u32)
            + se_roster(playerlist),
        SPacketV::ChunkNew { chunkpos, voxel } => seq![9u8] + se_ivec3(chunkpos) + se_cells(voxel),
        SPacketV::ChunkDel { chunkpos } => seq![10u8] + se_ivec3(chunkpos),
    }
}

/// The request message a byte sequence holds, if it is exactly one
/// well-formed message.
pub open spec fn spec_decode_cpacket(b: Seq<u8>) -> Option<CPacketV> {
    match sd_u8(b, 0) {
        Some((tag, i)) => if tag == 0 {
            match sd_u64(b, i) {
                Some((protocol_version, j)) => if j == b.len() {
                    Some(CPacketV::Handshake { protocol_version })
                } else {
                    None
                },
                None => None,
            }
        } else if tag == 1 {
            if i == b.len() {
                Some(CPacketV::ServerQuery)
            } else {
                None
            }
        } else if tag == 2 {
            match sd_u64(b, i) {
                Some((client_time, j)) => if j == b.len() {
                    Some(CPacketV::Ping { client_time })
                } else {
                    None
                },
                None => None,
            }
        } else if tag == 3 {
            match sd_u64(b, i) {
                Some((uuid, j1)) => match sd_u64(b, j1) {
                    Some((access_token, j2)) => match sd_string(b, j2) {
                        Some((username, j3)) => if j3 == b.len() {
                            Some(CPacketV::Login { uuid, access_token, username })
                        } else {
                            None
                        },
                        None => None,
                    },
                    None => None,
                },
                None => None,
            }
        } else if tag == 4 {
            match sd_string(b, i) {
                Some((message, j)) => if j == b.len() {
                    Some(CPacketV::ChatMessage { message })
                } else {
                    None
                },
                None => None,
            }
        } else {
            None
        },
        None => None,
    }
}

/// The event message a byte sequence holds, if it is exactly one well-formed
/// message.
pub open spec fn spec_decode_spacket(b: Seq<u8>) -> Option<SPacketV> {
    match sd_u8(b, 0) {
        Some((tag, i)) => if tag == 0 {
            match sd_string(b, i) {
                Some((reason, j)) => if j == b.len() {
                    Some(SPacketV::Disconnect { reason })
                } else {
                    None
                },
                None => None,
            }
        } else if tag == 1 {
            match sd_string(b, i) {
                Some((motd, j1)) => match sd_u32(b, j1) {
                    Some((num_players_limit, j2)) => match sd_u32(b, j2) {
                        Some((num_players_online, j3)) => match sd_u64(b, j3) {
                            Some((protocol_version, j4)) => match sd_string(b, j4) {
                                Some((favicon, j5)) => if j5 == b.len() {
                                    Some(
                                        SPacketV::ServerInfo {
                                            motd,
                                            num_players_limit,
                                            num_players_online,
                                            protocol_version,
                                            favicon,
                                        },
                                    )
                                } else {
                                    None
                                },
                                None => None,
                            },
                            None => None,
                        },
                        None => None,
                    },
                    None => None,
                },
                None => None,
            }
        } else if tag == 2 {
            match sd_u64(b, i) {
                Some((client_time, j1)) => match sd_u64(b, j1) {
                    Some((server_time, j2)) => if j2 == b.len() {
                        Some(SPacketV::Pong { client_time, server_time })
                    } else {
                        None
                    },
                    None => None,
                },
                None => None,
            }
        } else if tag == 3 {
            if i == b.len() {
                Some(SPacketV::LoginSuccess)
            } else {
                None
            }
        } else if tag == 4 {
            match sd_string(b, i) {
                Some((message, j)) => if j == b.len() {
                    Some(SPacketV::Chat { message })
                } else {
                    None
                },
                None => None,
            }
        } else if tag == 5 {
            match sd_u64(b, i) {
                Some((entity_id, j1)) => match sd_string(b, j1) {
                    Some((name, j2)) => if j2 == b.len() {
                        Some(SPacketV::EntityNew { entity_id, name })
                    } else {
                        None
                    },
                    None => None,
                },
                None => None,
            }
        } else if tag == 6 {
            match sd_u64(b, i) {
                Some((entity_id, j1)) => match sd_ivec3(b, j1) {
                    Some((position, j2)) => if j2 == b.len() {
                        Some(SPacketV::EntityPos { entity_id, position })
                    } else {
                        None
                    },
                    None => None,
                },
                None => None,
            }
        } else if tag == 7 {
            match sd_u64(b, i) {
                Some((entity_id, j)) => if j == b.len() {
                    Some(SPacketV::EntityDel { entity_id })
                } else {
                    None
                },
                None => None,
            }
        } else if tag == 8 {
            match sd_u32(b, i) {
                Some((n, j1)) => match sd_roster(b, j1, n as nat) {
                    Some((playerlist, j2)) => if j2 == b.len() {
                        Some(SPacketV::PlayerList { playerlist })
                    } else {
                        None
                    },
                    None => None,
                },
                None => None,
            }
        } else if tag == 9 {
            match sd_ivec3(b, i) {
                Some((chunkpos, j1)) => match sd_cells(b, j1, crate::coords::VOLUME as nat) {
                    Some((voxel, j2)) => if j2 == b.len() {
                        Some(SPacketV::ChunkNew { chunkpos, voxel })
                    } else {
                        None
                    },
                    None => None,
                },
                None => None,
            }
        } else if tag == 10 {
            match sd_ivec3(b, i) {
                Some((chunkpos, j)) => if j == b.len() {
                    Some(SPacketV::ChunkDel { chunkpos })
                } else {
                    None
                },
                None => None,
            }
        } else {
            None
        },
        None => None,
    }
}

// ---------------------------------------------------------------------------
// The codec laws: decoding an encoding yields the message back, and any
// bytes that decode are exactly the encoding of the decoded message.
// ---------------------------------------------------------------------------
/// Round trip for request messages: every well-formed message survives
/// encoding followed by decoding unchanged.
#[verifier::rlimit(40)]
pub proof fn lemma_cpacket_round_trip(m: CPacketV)
    requires
        m.wf(),
    ensures
        spec_decode_cpacket(spec_encode_cpacket(m)) == Some(m),
{
    let b = spec_encode_cpacket(m);
    assert(b.subrange(0, b.len() as int) =~= b);
    match m {
        CPacketV::Handshake { protocol_version } => {
            lemma_concat_split(b, 0, seq![0u8], se_u64(protocol_version));
            assert(b[0] == b.subrange(0, 1)[0]);
            lemma_sd_u64(b, 1, protocol_version);
        },
        CPacketV::ServerQuery => {
            assert(b[0] == 1u8);
        },
        CPacketV::Ping { client_time } => {
            lemma_concat_split(b, 0, seq![2u8], se_u64(client_time));
            assert(b[0] == b.subrange(0, 1)[0]);
            lemma_sd_u64(b, 1, client_time);
        },
        CPacketV::Login { uuid, access_token, username } => {
            lemma_se_chars_len(username);
            lemma_concat_split(b, 0, seq![3u8] + se_u64(uuid) + se_u64(access_token), se_string(username));
            lemma_concat_split(b, 0, seq![3u8] + se_u64(uuid), se_u64(access_token));
            lemma_concat_split(b, 0, seq![3u8], se_u64(uuid));
            assert(b[0] == b.subrange(0, 1)[0]);
            lemma_sd_u64(b, 1, uuid);
            lemma_sd_u64(b, 9, access_token);
            lemma_sd_string(b, 17, username);
        },
        CPacketV::ChatMessage { message } => {
            lemma_se_chars_len(message);
            lemma_concat_split(b, 0, seq![4u8], se_string(message));
            assert(b[0] == b.subrange(0, 1)[0]);
            lemma_sd_string(b, 1, message);
        },
    }
}

/// Exactness for request messages: bytes that decode are precisely the
/// encoding of the decoded message, which is well formed.
#[verifier::rlimit(40)]
pub proof fn lemma_cpacket_exact(b: Seq<u8>, m: CPacketV)
    requires
        spec_decode_cpacket(b) == Some(m),
    ensures
        m.wf(),
        spec_encode_cpacket(m) == b,
{
    let (tag, i) = sd_u8(b, 0)->Some_0;
    if tag == 0 {
        let (protocol_version, j) = sd_u64(b, i)->Some_0;
        lemma_sd_u64_inv(b, i);
        assert(spec_encode_cpacket(m) =~= b);
    } else if tag == 1 {
        assert(b.len() == 1);
        assert(spec_encode_cpacket(m) =~= b);
    } else if tag == 2 {
        let (client_time, j) = sd_u64(b, i)->Some_0;
        lemma_sd_u64_inv(b, i);
        assert(spec_encode_cpacket(m) =~= b);
    } else if tag == 3 {
        let (uuid, j1) = sd_u64(b, i)->Some_0;
        let (access_token, j2) = sd_u64(b, j1)->Some_0;
        let (username, j3) = sd_string(b, j2)->Some_0;
        lemma_sd_u64_inv(b, i);
        lemma_sd_u64_inv(b, j1);
        lemma_sd_string_inv(b, j2);
        lemma_se_chars_len(username);
        assert(spec_encode_cpacket(m) =~= b);
    } else {
        let (message, j) = sd_string(b, i)->Some_0;
        lemma_sd_string_inv(b, i);
        lemma_se_chars_len(message);
        assert(spec_encode_cpacket(m) =~= b);
    }
}

/// Round trip for event messages: every well-formed message survives
/// encoding followed by decoding unchanged.
pub proof fn lemma_spacket_round_trip(m: SPacketV)
    requires
        m.wf(),
    ensures
        spec_decode_spacket(spec_encode_spacket(m)) == Some(m),
{
    match m {
        SPacketV::Disconnect { reason } => lemma_sp_rt_disconnect(reason),
        SPacketV::ServerInfo { motd, num_players_limit, num_players_online, protocol_version, favicon } => lemma_sp_rt_server_info(
            motd,
            num_players_limit,
            num_players_online,
            protocol_version,
            favicon,
        ),
        SPacketV::Pong { client_time, server_time } => lemma_sp_rt_pong(client_time, server_time),
        SPacketV::LoginSuccess => {
            let b = spec_encode_spacket(m);
            assert(b[0] == 3u8);
        },
        SPacketV::Chat { message } => lemma_sp_rt_chat(message),
        SPacketV::EntityNew { entity_id, name } => lemma_sp_rt_entity_new(entity_id, name),
        SPacketV::EntityPos { entity_id, position } => lemma_sp_rt_entity_pos(
            entity_id,
            position,
        ),
        SPacketV::EntityDel { entity_id } => lemma_sp_rt_entity_del(entity_id),
        SPacketV::PlayerList { playerlist } => lemma_sp_rt_player_list(playerlist),
        SPacketV::ChunkNew { chunkpos, voxel } => lemma_sp_rt_chunk_new(chunkpos, voxel),
        SPacketV::ChunkDel { chunkpos } => lemma_sp_rt_chunk_del(chunkpos),
    }
}

proof fn lemma_sp_rt_disconnect(reason: Seq<char>)
    requires
        reason.len() <= 0xFFFF_FFFF,
    ensures
        spec_decode_spacket(spec_encode_spacket(SPacketV::Disconnect { reason })) == Some(
            SPacketV::Disconnect { reason },
        ),
{
    let b = spec_encode_spacket(SPacketV::Disconnect { reason });
    assert(b.subrange(0, b.len() as int) =~= b);
    lemma_se_chars_len(reason);
    lemma_concat_split(b, 0, seq![0u8], se_string(reason));
    assert(b[0] == b.subrange(0, 1)[0]);
    lemma_sd_string(b, 1, reason);
}

#[verifier::rlimit(60)]
proof fn lemma_sp_rt_server_info(
    motd: Seq<char>,
    num_players_limit: u32,
    num_players_online: u32,
    protocol_version: u64,
    favicon: Seq<char>,
)
    requires
        motd.len() <= 0xFFFF_FFFF,
        favicon.len() <= 0xFFFF_FFFF,
    ensures
        ({
            let m = SPacketV::ServerInfo {
                motd,
                num_players_limit,
                num_players_online,
                protocol_version,
                favicon,
            };
            spec_decode_spacket(spec_encode_spacket(m)) == Some(m)
        }),
{
    let m = SPacketV::ServerInfo {
        motd,
        num_players_limit,
        num_players_online,
        protocol_version,
        favicon,
    };
    let b = spec_encode_spacket(m);
    assert(b.subrange(0, b.len() as int) =~= b);
    lemma_se_chars_len(motd);
    lemma_se_chars_len(favicon);
    let l1 = 1 + 4 + 4 * motd.len() as int;
    lemma_concat_split(
        b,
        0,
        seq![1u8] + se_string(motd) + se_u32(num_players_limit) + se_u32(num_players_online)
            + se_u64(protocol_version),
        se_string(favicon),
    );
    lemma_concat_split(
        b,
        0,
        seq![1u8] + se_string(motd) + se_u32(num_players_limit) + se_u32(num_players_online),
        se_u64(protocol_version),
    );
    lemma_concat_split(
        b,
        0,
        seq![1u8] + se_string(motd) + se_u32(num_players_limit),
        se_u32(num_players_online),
    );
    lemma_concat_split(b, 0, seq![1u8] + se_string(motd), se_u32(num_players_limit));
    lemma_concat_split(b, 0, seq![1u8], se_string(motd));
    assert(b[0] == b.subrange(0, 1)[0]);
    lemma_sd_string(b, 1, motd);
    lemma_sd_u32(b, l1, num_players_limit);
    lemma_sd_u32(b, l1 + 4, num_players_online);
    lemma_sd_u64(b, l1 + 8, protocol_version);
    lemma_sd_string(b, l1 + 16, favicon);
}

proof fn lemma_sp_rt_pong(client_time: u64, server_time: u64)
    ensures
        spec_decode_spacket(spec_encode_spacket(SPacketV::Pong { client_time, server_time }))
            == Some(SPacketV::Pong { client_time, server_time }),
{
    let b = spec_encode_spacket(SPacketV::Pong { client_time, server_time });
    assert(b.subrange(0, b.len() as int) =~= b);
    lemma_concat_split(b, 0, seq![2u8] + se_u64(client_time), se_u64(server_time));
    lemma_concat_split(b, 0, seq![2u8], se_u64(client_time));
    assert(b[0] == b.subrange(0, 1)[0]);
    lemma_sd_u64(b, 1, client_time);
    lemma_sd_u64(b, 9, server_time);
}

proof fn lemma_sp_rt_chat(message: Seq<char>)
    requires
        message.len() <= 0xFFFF_FFFF,
    ensures
        spec_decode_spacket(spec_encode_spacket(SPacketV::Chat { message })) == Some(
            SPacketV::Chat { message },
        ),
{
    let b = spec_encode_spacket(SPacketV::Chat { message });
    assert(b.subrange(0, b.len() as int) =~= b);
    lemma_se_chars_len(message);
    lemma_concat_split(b, 0, seq![4u8], se_string(message));
    assert(b[0] == b.subrange(0, 1)[0]);
    lemma_sd_string(b, 1, message);
}

proof fn lemma_sp_rt_entity_new(entity_id: u64, name: Seq<char>)
    requires
        name.len() <= 0xFFFF_FFFF,
    ensures
        spec_decode_spacket(spec_encode_spacket(SPacketV::EntityNew { entity_id, name })) == Some(
            SPacketV::EntityNew { entity_id, name },
        ),
{
    let b = spec_encode_spacket(SPacketV::EntityNew { entity_id, name });
    assert(b.subrange(0, b.len() as int) =~= b);
    lemma_se_chars_len(name);
    lemma_concat_split(b, 0, seq![5u8] + se_u64(entity_id), se_string(name));
    lemma_concat_split(b, 0, seq![5u8], se_u64(entity_id));
    assert(b[0] == b.subrange(0, 1)[0]);
    lemma_sd_u64(b, 1, entity_id);
    lemma_sd_string(b, 9, name);
}

proof fn lemma_sp_rt_entity_pos(entity_id: u64, position: IVec3)
    ensures
        spec_decode_spacket(spec_encode_spacket(SPacketV::EntityPos { entity_id, position }))
            == Some(SPacketV::EntityPos { entity_id, position }),
{
    let b = spec_encode_spacket(SPacketV::EntityPos { entity_id, position });
    assert(b.subrange(0, b.len() as int) =~= b);
    lemma_concat_split(b, 0, seq![6u8] + se_u64(entity_id), se_ivec3(position));
    lemma_concat_split(b, 0, seq![6u8], se_u64(entity_id));
    assert(b[0] == b.subrange(0, 1)[0]);
    lemma_sd_u64(b, 1, entity_id);
    lemma_sd_ivec3(b, 9, position);
}

proof fn lemma_sp_rt_entity_del(entity_id: u64)
    ensures
        spec_decode_spacket(spec_encode_spacket(SPacketV::EntityDel { entity_id })) == Some(
            SPacketV::EntityDel { entity_id },
        ),
{
    let b = spec_encode_spacket(SPacketV::EntityDel { entity_id });
    assert(b.subrange(0, b.len() as int) =~= b);
    lemma_concat_split(b, 0, seq![7u8], se_u64(entity_id));
    assert(b[0] == b.subrange(0, 1)[0]);
    lemma_sd_u64(b, 1, entity_id);
}

proof fn lemma_sp_rt_player_list(playerlist: Seq<(u64, Seq<char>)>)
    requires
        playerlist.len() <= 0xFFFF_FFFF,
        forall|i: int| 0 <= i < playerlist.len() ==> (#[trigger] playerlist[i]).1.len()
            <= 0xFFFF_FFFF,
    ensures
        spec_decode_spacket(spec_encode_spacket(SPacketV::PlayerList { playerlist })) == Some(
            SPacketV::PlayerList { playerlist },
        ),
{
    let b = spec_encode_spacket(SPacketV::PlayerList { playerlist });
    assert(b.subrange(0, b.len() as int) =~= b);
    let n = playerlist.len() as u32;
    lemma_concat_split(b, 0, seq![8u8] + se_u32(n), se_roster(playerlist));
    lemma_concat_split(b, 0, seq![8u8], se_u32(n));
    assert(b[0] == b.subrange(0, 1)[0]);
    lemma_sd_u32(b, 1, n);
    assert(n as nat == playerlist.len());
    lemma_sd_roster(b, 5, playerlist);
}

proof fn lemma_sp_rt_chunk_new(chunkpos: IVec3, voxel: Seq<u32>)
    requires
        voxel.len() == crate::coords::VOLUME,
    ensures
        spec_decode_spacket(spec_encode_spacket(SPacketV::ChunkNew { chunkpos, voxel })) == Some(
            SPacketV::ChunkNew { chunkpos, voxel },
        ),
{
    let b = spec_encode_spacket(SPacketV::ChunkNew { chunkpos, voxel });
    assert(b.subrange(0, b.len() as int) =~= b);
    lemma_se_cells_len(voxel);
    lemma_concat_split(b, 0, seq![9u8] + se_ivec3(chunkpos), se_cells(voxel));
    lemma_concat_split(b, 0, seq![9u8], se_ivec3(chunkpos));
    assert(b[0] == b.subrange(0, 1)[0]);
    lemma_sd_ivec3(b, 1, chunkpos);
    lemma_sd_cells(b, 13, voxel);
    assert(voxel.len() == crate::coords::VOLUME as nat);
}

proof fn lemma_sp_rt_chunk_del(chunkpos: IVec3)
    ensures
        spec_decode_spacket(spec_encode_spacket(SPacketV::ChunkDel { chunkpos })) == Some(
            SPacketV::ChunkDel { chunkpos },
        ),
{
    let b = spec_encode_spacket(SPacketV::ChunkDel { chunkpos });
    assert(b.subrange(0, b.len() as int) =~= b);
    lemma_concat_split(b, 0, seq![10u8], se_ivec3(chunkpos));
    assert(b[0] == b.subrange(0, 1)[0]);
    lemma_sd_ivec3(b, 1, chunkpos);
}

/// Exactness for event messages: bytes that decode are precisely the
/// encoding of the decoded message, which is well formed.
#[verifier::rlimit(80)]
pub proof fn lemma_spacket_exact(b: Seq<u8>, m: SPacketV)
    requires
        spec_decode_spacket(b) == Some(m),
    ensures
        m.wf(),
        spec_encode_spacket(m) == b,
{
    let (tag, i) = sd_u8(b, 0)->Some_0;
    if tag == 0 {
        lemma_sd_string_inv(b, i);
        let (reason, j) = sd_string(b, i)->Some_0;
        lemma_se_chars_len(reason);
        assert(spec_encode_spacket(m) =~= b);
    } else if tag == 1 {
        let (motd, j1) = sd_string(b, i)->Some_0;
        let (num_players_limit, j2) = sd_u32(b, j1)->Some_0;
        let (num_players_online, j3) = sd_u32(b, j2)->Some_0;
        let (protocol_version, j4) = sd_u64(b, j3)->Some_0;
        let (favicon, j5) = sd_string(b, j4)->Some_0;
        lemma_sd_string_inv(b, i);
        lemma_sd_u32_inv(b, j1);
        lemma_sd_u32_inv(b, j2);
        lemma_sd_u64_inv(b, j3);
        lemma_sd_string_inv(b, j4);
        lemma_se_chars_len(motd);
        lemma_se_chars_len(favicon);
        assert(spec_encode_spacket(m) =~= b);
    } else if tag == 2 {
        lemma_sd_u64_inv(b, i);
        let (client_time, j1) = sd_u64(b, i)->Some_0;
        lemma_sd_u64_inv(b, j1);
        assert(spec_encode_spacket(m) =~= b);
    } else if tag == 3 {
        assert(b.len() == 1);
        assert(spec_encode_spacket(m) =~= b);
    } else if tag == 4 {
        lemma_sd_string_inv(b, i);
        let (message, j) = sd_string(b, i)->Some_0;
        lemma_se_chars_len(message);
        assert(spec_encode_spacket(m) =~= b);
    } else if tag == 5 {
        lemma_sd_u64_inv(b, i);
        let (entity_id, j1) = sd_u64(b, i)->Some_0;
        lemma_sd_string_inv(b, j1);
        let (name, j2) = sd_string(b, j1)->Some_0;
        lemma_se_chars_len(name);
        assert(spec_encode_spacket(m) =~= b);
    } else if tag == 6 {
        lemma_sd_u64_inv(b, i);
        let (entity_id, j1) = sd_u64(b, i)->Some_0;
        lemma_sd_ivec3_inv(b, j1);
        assert(spec_encode_spacket(m) =~= b);
    } else if tag == 7 {
        lemma_sd_u64_inv(b, i);
        assert(spec_encode_spacket(m) =~= b);
    } else if tag == 8 {
        let (n, j1) = sd_u32(b, i)->Some_0;
        let (playerlist, j2) = sd_roster(b, j1, n as nat)->Some_0;
        lemma_sd_u32_inv(b, i);
        lemma_sd_roster_inv(b, j1, n as nat);
        assert(playerlist.len() as u32 == n);
        assert(spec_encode_spacket(m) =~= b);
    } else if tag == 9 {
        let (chunkpos, j1) = sd_ivec3(b, i)->Some_0;
        let (voxel, j2) = sd_cells(b, j1, crate::coords::VOLUME as nat)->Some_0;
        lemma_sd_ivec3_inv(b, i);
        lemma_sd_cells_inv(b, j1, crate::coords::VOLUME as nat);
        assert(spec_encode_spacket(m) =~= b);
    } else {
        lemma_sd_ivec3_inv(b, i);
        assert(spec_encode_spacket(m) =~= b);
    }
}

// ---------------------------------------------------------------------------
// Executable writers
// ---------------------------------------------------------------------------
fn put_u32(out: &mut Vec<u8>, v: u32)
    ensures
        final(out)@ == old(out)@ + se_u32(v),
{
    out.push((v & 0xff) as u8);
    out.push(((v >> 8) & 0xff) as u8);
    out.push(((v >> 16) & 0xff) as u8);
    out.push(((v >> 24) & 0xff) as u8);
    proof {
        assert(out@ =~= old(out)@ + se_u32(v));
    }
}

fn put_u64(out: &mut Vec<u8>, v: u64)
    ensures
        final(out)@ == old(out)@ + se_u64(v),
{
    put_u32(out, (v & 0xffff_ffff) as u32);
    put_u32(out, ((v >> 32) & 0xffff_ffff) as u32);
    proof {
        assert(out@ =~= old(out)@ + se_u64(v));
    }
}

fn put_i32(out: &mut Vec<u8>, v: i32)
    ensures
        final(out)@ == old(out)@ + se_i32(v),
{
    put_u32(out, v as u32);
}

fn put_ivec3(out: &mut Vec<u8>, p: IVec3)
    ensures
        final(out)@ == old(out)@ + se_ivec3(p),
{
    put_i32(out, p.x);
    put_i32(out, p.y);
    put_i32(out, p.z);
    proof {
        assert(out@ =~= old(out)@ + se_ivec3(p));
    }
}

#[verifier::loop_isolation(false)]
fn put_string(out: &mut Vec<u8>, s: &str)
    requires
        s@.len() <= 0xFFFF_FFFF,
    ensures
        final(out)@ == old(out)@ + se_string(s@),
{
    let n = s.unicode_len();
    put_u32(out, n as u32);
    let mut i: usize = 0;
    while i < n
        invariant
            i <= n,
            n == s@.len(),
            out@ == old(out)@ + se_u32(n as u32) + se_chars(s@.take(i as int)),
        decreases n - i,
    {
        let c = s.get_char(i);
        put_u32(out, c as u32);
        proof {
            lemma_se_chars_push(s@.take(i as int), c);
            assert(s@.take(i as int).push(c) =~= s@.take(i + 1));
            assert(out@ =~= old(out)@ + se_u32(n as u32) + se_chars(s@.take(i + 1)));
        }
        i = i + 1;
    }
    proof {
        assert(s@.take(n as int) =~= s@);
        assert(old(out)@ + se_u32(n as u32) + se_chars(s@) =~= old(out)@ + se_string(s@));
    }
}

#[verifier::loop_isolation(false)]
fn put_cells(out: &mut Vec<u8>, v: &Vec<u32>)
    ensures
        final(out)@ == old(out)@ + se_cells(v@),
{
    let n = v.len();
    let mut i: usize = 0;
    while i < n
        invariant
            i <= n,
            n == v@.len(),
            out@ == old(out)@ + se_cells(v@.take(i as int)),
        decreases n - i,
    {
        put_u32(out, v[i]);
        proof {
            lemma_se_cells_push(v@.take(i as int), v@[i as int]);
            assert(v@.take(i as int).push(v@[i as int]) =~= v@.take(i + 1));
            assert(out@ =~= old(out)@ + se_cells(v@.take(i + 1)));
        }
        i = i + 1;
    }
    proof {
        assert(v@.take(n as int) =~= v@);
    }
}

#[verifier::loop_isolation(false)]
fn put_roster(out: &mut Vec<u8>, r: &Vec<(u64, String)>)
    requires
        forall|i: int| 0 <= i < r@.len() ==> (#[trigger] r@[i]).1@.len() <= 0xFFFF_FFFF,
    ensures
        final(out)@ == old(out)@ + se_roster(roster_view(r@)),
{
    let n = r.len();
    let mut i: usize = 0;
    while i < n
        invariant
            i <= n,
            n == r@.len(),
            out@ == old(out)@ + se_roster(roster_view(r@).take(i as int)),
        decreases n - i,
    {
        put_u64(out, r[i].0);
        put_string(out, r[i].1.as_str());
        proof {
            lemma_se_roster_push(roster_view(r@).take(i as int), roster_view(r@)[i as int]);
            assert(roster_view(r@).take(i as int).push(roster_view(r@)[i as int]) =~= roster_view(
                r@,
            ).take(i + 1));
            assert(roster_view(r@)[i as int] == (r@[i as int].0, r@[i as int].1@));
            assert(out@ =~= old(out)@ + se_roster(roster_view(r@).take(i + 1)));
        }
        i = i + 1;
    }
    proof {
        assert(roster_view(r@).take(n as int) =~= roster_view(r@));
    }
}

// ---------------------------------------------------------------------------
// Executable readers
// ---------------------------------------------------------------------------
/// Relies on char::from_u32: the character of a Unicode scalar value, and
/// nothing for a surrogate or out-of-range value.
#[verifier::external_body]
pub(crate) fn char_from_u32(v: u32) -> (r: Option<char>)
    ensures
        r matches Some(c) ==> c as u32 == v,
        r is Some <==> is_scalar(v),
{
    char::from_u32(v)
}

/// Relies on String::from for a character: the one-character string.
#[verifier::external_body]
pub(crate) fn string_of_char(c: char) -> (r: String)
    ensures
        r@ == seq![c],
{
    String::from(c)
}

fn get_u8(b: &Vec<u8>, i: usize) -> (r: Option<(u8, usize)>)
    ensures
        match r {
            Some((v, j)) => sd_u8(b@, i as int) == Some((v, j as int)) && j <= b@.len(),
            None => sd_u8(b@, i as int) is None,
        },
{
    if i < b.len() {
        Some((b[i], i + 1))
    } else {
        None
    }
}

fn get_u32(b: &Vec<u8>, i: usize) -> (r: Option<(u32, usize)>)
    ensures
        match r {
            Some((v, j)) => sd_u32(b@, i as int) == Some((v, j as int)) && j <= b@.len(),
            None => sd_u32(b@, i as int) is None,
        },
{
    if i < b.len() && b.len() - i >= 4 {
        let v = (b[i] as u32) | ((b[i + 1] as u32) << 8) | ((b[i + 2] as u32) << 16) | ((b[i
            + 3] as u32) << 24);
        Some((v, i + 4))
    } else {
        None
    }
}

fn get_u64(b: &Vec<u8>, i: usize) -> (r: Option<(u64, usize)>)
    ensures
        match r {
            Some((v, j)) => sd_u64(b@, i as int) == Some((v, j as int)) && j <= b@.len(),
            None => sd_u64(b@, i as int) is None,
        },
{
    match get_u32(b, i) {
        Some((lo, j)) => match get_u32(b, j) {
            Some((hi, k)) => Some(((lo as u64) | ((hi as u64) << 32), k)),
            None => None,
        },
        None => None,
    }
}

fn get_i32(b: &Vec<u8>, i: usize) -> (r: Option<(i32, usize)>)
    ensures
        match r {
            Some((v, j)) => sd_i32(b@, i as int) == Some((v, j as int)) && j <= b@.len(),
            None => sd_i32(b@, i as int) is None,
        },
{
    match get_u32(b, i) {
        Some((v, j)) => Some((v as i32, j)),
        None => None,
    }
}

fn get_ivec3(b: &Vec<u8>, i: usize) -> (r: Option<(IVec3, usize)>)
    ensures
        match r {
            Some((p, j)) => sd_ivec3(b@, i as int) == Some((p, j as int)) && j <= b@.len(),
            None => sd_ivec3(b@, i as int) is None,
        },
{
    match get_i32(b, i) {
        Some((x, j)) => match get_i32(b, j) {
            Some((y, k)) => match get_i32(b, k) {
                Some((z, l)) => Some((IVec3 { x, y, z }, l)),
                None => None,
            },
            None => None,
        },
        None => None,
    }
}

/// Reading one more character extends a successful character parse, and a
/// failed read fails it.
proof fn lemma_sd_chars_snoc(b: Seq<u8>, i: int, n: nat)
    requires
        sd_chars(b, i, n) is Some,
    ensures
        ({
            let (s, j) = sd_chars(b, i, n)->Some_0;
            match sd_u32(b, j) {
                Some((v, j2)) => if is_scalar(v) {
                    sd_chars(b, i, n + 1) == Some((s.push(v as char), j2))
                } else {
                    sd_chars(b, i, n + 1) is None
                },
                None => sd_chars(b, i, n + 1) is None,
            }
        }),
    decreases n,
{
    reveal_with_fuel(sd_chars, 3);
    let (s, j) = sd_chars(b, i, n)->Some_0;
    if n == 0 {
        match sd_u32(b, j) {
            Some((v, j2)) => {
                if is_scalar(v) {
                    assert(seq![v as char] + Seq::<char>::empty() =~= Seq::<char>::empty().push(
                        v as char,
                    ));
                }
            },
            None => {},
        }
    } else {
        let (v0, j0) = sd_u32(b, i)->Some_0;
        let (tail, _k) = sd_chars(b, j0, (n - 1) as nat)->Some_0;
        lemma_sd_chars_snoc(b, j0, (n - 1) as nat);
        match sd_u32(b, j) {
            Some((v, j2)) => {
                if is_scalar(v) {
                    assert(seq![v0 as char] + tail.push(v as char) =~= (seq![v0 as char]
                        + tail).push(v as char));
                }
            },
            None => {},
        }
    }
}

/// A character parse that fails at some count fails at every larger count.
proof fn lemma_sd_chars_none(b: Seq<u8>, i: int, n: nat, m: nat)
    requires
        sd_chars(b, i, n) is None,
        n <= m,
    ensures
        sd_chars(b, i, m) is None,
    decreases n,
{
    if n > 0 && m > 0 {
        match sd_u32(b, i) {
            Some((v, j)) => {
                if is_scalar(v) {
                    lemma_sd_chars_none(b, j, (n - 1) as nat, (m - 1) as nat);
                }
            },
            None => {},
        }
    }
}

#[verifier::loop_isolation(false)]
fn get_string(b: &Vec<u8>, i: usize) -> (r: Option<(String, usize)>)
    ensures
        match r {
            Some((s, j)) => sd_string(b@, i as int) == Some((s@, j as int)) && j <= b@.len(),
            None => sd_string(b@, i as int) is None,
        },
{
    let (n, start) = match get_u32(b, i) {
        Some(x) => x,
        None => {
            return None;
        },
    };
    let mut s = String::new();
    let mut pos = start;
    let mut k: u32 = 0;
    while k < n
        invariant
            k <= n,
            pos <= b@.len(),
            sd_chars(b@, start as int, k as nat) == Some((s@, pos as int)),
        decreases n - k,
    {
        proof {
            lemma_sd_chars_snoc(b@, start as int, k as nat);
        }
        let (v, pos2) = match get_u32(b, pos) {
            Some(x) => x,
            None => {
                proof {
                    lemma_sd_chars_none(b@, start as int, (k + 1) as nat, n as nat);
                }
                return None;
            },
        };
        let c = match char_from_u32(v) {
            Some(c) => c,
            None => {
                proof {
                    lemma_sd_chars_none(b@, start as int, (k + 1) as nat, n as nat);
                }
                return None;
            },
        };
        let one = string_of_char(c);
        s.append(one.as_str());
        proof {
            vstd::utf8::char_u32_cast(c, v);
            assert(s@ =~= sd_chars(b@, start as int, k as nat)->Some_0.0.push(v as char));
        }
        pos = pos2;
        k = k + 1;
    }
    Some((s, pos))
}

/// Reading one more cell extends a successful cell parse, and a failed read
/// fails it.
proof fn lemma_sd_cells_snoc(b: Seq<u8>, i: int, n: nat)
    requires
        sd_cells(b, i, n) is Some,
    ensures
        ({
            let (s, j) = sd_cells(b, i, n)->Some_0;
            match sd_u32(b, j) {
                Some((v, j2)) => sd_cells(b, i, n + 1) == Some((s.push(v), j2)),
                None => sd_cells(b, i, n + 1) is None,
            }
        }),
    decreases n,
{
    reveal_with_fuel(sd_cells, 3);
    let (s, j) = sd_cells(b, i, n)->Some_0;
    if n == 0 {
        match sd_u32(b, j) {
            Some((v, j2)) => {
                assert(seq![v] + Seq::<u32>::empty() =~= Seq::<u32>::empty().push(v));
            },
            None => {},
        }
    } else {
        let (v0, j0) = sd_u32(b, i)->Some_0;
        let (tail, _k) = sd_cells(b, j0, (n - 1) as nat)->Some_0;
        lemma_sd_cells_snoc(b, j0, (n - 1) as nat);
        match sd_u32(b, j) {
            Some((v, j2)) => {
                assert(seq![v0] + tail.push(v) =~= (seq![v0] + tail).push(v));
            },
            None => {},
        }
    }
}

/// A cell parse that fails at some count fails at every larger count.
proof fn lemma_sd_cells_none(b: Seq<u8>, i: int, n: nat, m: nat)
    requires
        sd_cells(b, i, n) is None,
        n <= m,
    ensures
        sd_cells(b, i, m) is None,
    decreases n,
{
    if n > 0 && m > 0 {
        match sd_u32(b, i) {
            Some((v, j)) => {
                lemma_sd_cells_none(b, j, (n - 1) as nat, (m - 1) as nat);
            },
            None => {},
        }
    }
}

#[verifier::loop_isolation(false)]
fn get_cells(b: &Vec<u8>, i: usize, count: usize) -> (r: Option<(Vec<u32>, usize)>)
    requires
        i <= b@.len(),
    ensures
        match r {
            Some((v, j)) => sd_cells(b@, i as int, count as nat) == Some((v@, j as int)) && j
                <= b@.len(),
            None => sd_cells(b@, i as int, count as nat) is None,
        },
{
    let mut v: Vec<u32> = Vec::new();
    let mut pos = i;
    let mut k: usize = 0;
    while k < count
        invariant
            k <= count,
            pos <= b@.len(),
            sd_cells(b@, i as int, k as nat) == Some((v@, pos as int)),
        decreases count - k,
    {
        proof {
            lemma_sd_cells_snoc(b@, i as int, k as nat);
        }
        let (x, pos2) = match get_u32(b, pos) {
            Some(x) => x,
            None => {
                proof {
                    lemma_sd_cells_none(b@, i as int, (k + 1) as nat, count as nat);
                }
                return None;
            },
        };
        v.push(x);
        proof {
            assert(v@ =~= sd_cells(b@, i as int, k as nat)->Some_0.0.push(x));
        }
        pos = pos2;
        k = k + 1;
    }
    Some((v, pos))
}

/// Reading one more entry extends a successful roster parse, and a failed
/// read fails it.
proof fn lemma_sd_roster_snoc(b: Seq<u8>, i: int, n: nat)
    requires
        sd_roster(b, i, n) is Some,
    ensures
        ({
            let (s, j) = sd_roster(b, i, n)->Some_0;
            match sd_u64(b, j) {
                Some((id, j2)) => match sd_string(b, j2) {
                    Some((name, j3)) => sd_roster(b, i, n + 1) == Some((s.push((id, name)), j3)),
                    None => sd_roster(b, i, n + 1) is None,
                },
                None => sd_roster(b, i, n + 1) is None,
            }
        }),
    decreases n,
{
    reveal_with_fuel(sd_roster, 3);
    let (s, j) = sd_roster(b, i, n)->Some_0;
    if n == 0 {
        match sd_u64(b, j) {
            Some((id, j2)) => match sd_string(b, j2) {
                Some((name, j3)) => {
                    assert(seq![(id, name)] + Seq::<(u64, Seq<char>)>::empty() =~= Seq::<(
                        u64,
                        Seq<char>,
                    )>::empty().push((id, name)));
                },
                None => {},
            },
            None => {},
        }
    } else {
        let (id0, j0) = sd_u64(b, i)->Some_0;
        let (name0, j1) = sd_string(b, j0)->Some_0;
        let (tail, _k) = sd_roster(b, j1, (n - 1) as nat)->Some_0;
        lemma_sd_roster_snoc(b, j1, (n - 1) as nat);
        match sd_u64(b, j) {
            Some((id, j2)) => match sd_string(b, j2) {
                Some((name, j3)) => {
                    assert(seq![(id0, name0)] + tail.push((id, name)) =~= (seq![(id0, name0)]
                        + tail).push((id, name)));
                },
                None => {},
            },
            None => {},
        }
    }
}

/// A roster parse that fails at some count fails at every larger count.
proof fn lemma_sd_roster_none(b: Seq<u8>, i: int, n: nat, m: nat)
    requires
        sd_roster(b, i, n) is None,
        n <= m,
    ensures
        sd_roster(b, i, m) is None,
    decreases n,
{
    if n > 0 && m > 0 {
        match sd_u64(b, i) {
            Some((id, j)) => match sd_string(b, j) {
                Some((name, k)) => {
                    lemma_sd_roster_none(b, k, (n - 1) as nat, (m - 1) as nat);
                },
                None => {},
            },
            None => {},
        }
    }
}

#[verifier::loop_isolation(false)]
fn get_roster(b: &Vec<u8>, i: usize, count: u32) -> (r: Option<(Vec<(u64, String)>, usize)>)
    requires
        i <= b@.len(),
    ensures
        match r {
            Some((v, j)) => sd_roster(b@, i as int, count as nat) == Some(
                (roster_view(v@), j as int),
            ) && j <= b@.len(),
            None => sd_roster(b@, i as int, count as nat) is None,
        },
{
    let mut v: Vec<(u64, String)> = Vec::new();
    let mut pos = i;
    let mut k: u32 = 0;
    proof {
        assert(roster_view(v@) =~= Seq::<(u64, Seq<char>)>::empty());
    }
    while k < count
        invariant
            k <= count,
            pos <= b@.len(),
            sd_roster(b@, i as int, k as nat) == Some((roster_view(v@), pos as int)),
        decreases count - k,
    {
        proof {
            lemma_sd_roster_snoc(b@, i as int, k as nat);
        }
        let (id, pos1) = match get_u64(b, pos) {
            Some(x) => x,
            None => {
                proof {
                    lemma_sd_roster_none(b@, i as int, (k + 1) as nat, count as nat);
                }
                return None;
            },
        };
        let (name, pos2) = match get_string(b, pos1) {
            Some(x) => x,
            None => {
                proof {
                    lemma_sd_roster_none(b@, i as int, (k + 1) as nat, count as nat);
                }
                return None;
            },
        };
        let ghost prev = roster_view(v@);
        let ghost namev = name@;
        v.push((id, name));
        proof {
            assert(roster_view(v@) =~= prev.push((id, namev)));
        }
        pos = pos2;
        k = k + 1;
    }
    Some((v, pos))
}

// ---------------------------------------------------------------------------
// The codec itself
// ---------------------------------------------------------------------------
fn text_fits(s: &str) -> (r: bool)
    ensures
        r == (s@.len() <= 0xFFFF_FFFF),
{
    s.unicode_len() <= 0xFFFF_FFFF
}

/// Encode a request message; a message whose text exceeds the wire's 32-bit
/// counts (and only such a message) has no encoding.
pub fn encode_cpacket(m: &CPacket) -> (r: Option<Vec<u8>>)
    ensures
        match r {
            Some(b) => m@.wf() && b@ == spec_encode_cpacket(m@),
            None => !m@.wf(),
        },
{
    let mut out: Vec<u8> = Vec::new();
    match m {
        CPacket::Handshake { protocol_version } => {
            out.push(0u8);
            proof {
                assert(out@ =~= seq![0u8]);
            }
            put_u64(&mut out, *protocol_version);
        },
        CPacket::ServerQuery => {
            out.push(1u8);
            proof {
                assert(out@ =~= seq![1u8]);
            }
        },
        CPacket::Ping { client_time } => {
            out.push(2u8);
            proof {
                assert(out@ =~= seq![2u8]);
            }
            put_u64(&mut out, *client_time);
        },
        CPacket::Login { uuid, access_token, username } => {
            if !text_fits(username.as_str()) {
                return None;
            }
            out.push(3u8);
            proof {
                assert(out@ =~= seq![3u8]);
            }
            put_u64(&mut out, *uuid);
            put_u64(&mut out, *access_token);
            put_string(&mut out, username.as_str());
        },
        CPacket::ChatMessage { message } => {
            if !text_fits(message.as_str()) {
                return None;
            }
            out.push(4u8);
            proof {
                assert(out@ =~= seq![4u8]);
            }
            put_string(&mut out, message.as_str());
        },
    }
    Some(out)
}

/// Encode an event message; a message whose text or roster exceeds the
/// wire's 32-bit counts, or whose chunk payload is not exactly one chunk,
/// has no encoding.
#[verifier::loop_isolation(false)]
pub fn encode_spacket(m: &SPacket) -> (r: Option<Vec<u8>>)
    ensures
        match r {
            Some(b) => m@.wf() && b@ == spec_encode_spacket(m@),
            None => !m@.wf(),
        },
{
    let mut out: Vec<u8> = Vec::new();
    match m {
        SPacket::Disconnect { reason } => {
            if !text_fits(reason.as_str()) {
                return None;
            }
            out.push(0u8);
            proof {
                assert(out@ =~= seq![0u8]);
            }
            put_string(&mut out, reason.as_str());
        },
        SPacket::ServerInfo { motd, num_players_limit, num_players_online, protocol_version, favicon } => {
            if !text_fits(motd.as_str()) || !text_fits(favicon.as_str()) {
                return None;
            }
            out.push(1u8);
            proof {
                assert(out@ =~= seq![1u8]);
            }
            put_string(&mut out, motd.as_str());
            put_u32(&mut out, *num_players_limit);
            put_u32(&mut out, *num_players_online);
            put_u64(&mut out, *protocol_version);
            put_string(&mut out, favicon.as_str());
        },
        SPacket::Pong { client_time, server_time } => {
            out.push(2u8);
            proof {
                assert(out@ =~= seq![2u8]);
            }
            put_u64(&mut out, *client_time);
            put_u64(&mut out, *server_time);
        },
        SPacket::LoginSuccess => {
            out.push(3u8);
            proof {
                assert(out@ =~= seq![3u8]);
            }
        },
        SPacket::Chat { message } => {
            if !text_fits(message.as_str()) {
                return None;
            }
            out.push(4u8);
            proof {
                assert(out@ =~= seq![4u8]);
            }
            put_string(&mut out, message.as_str());
        },
        SPacket::EntityNew { entity_id, name } => {
            if !text_fits(name.as_str()) {
                return None;
            }
            out.push(5u8);
            proof {
                assert(out@ =~= seq![5u8]);
            }
            put_u64(&mut out, *entity_id);
            put_string(&mut out, name.as_str());
        },
        SPacket::EntityPos { entity_id, position } => {
            out.push(6u8);
            proof {
                assert(out@ =~= seq![6u8]);
            }
            put_u64(&mut out, *entity_id);
            put_ivec3(&mut out, *position);
        },
        SPacket::EntityDel { entity_id } => {
            out.push(7u8);
            proof {
                assert(out@ =~= seq![7u8]);
            }
            put_u64(&mut out, *entity_id);
        },
        SPacket::PlayerList { playerlist } => {
            let n = playerlist.len();
            if n > 0xFFFF_FFFF {
                return None;
            }
            let mut i: usize = 0;
            while i < n
                invariant
                    i <= n,
                    n == playerlist@.len(),
                    forall|j: int| 0 <= j < i ==> (#[trigger] playerlist@[j]).1@.len()
                        <= 0xFFFF_FFFF,
                decreases n - i,
            {
                if !text_fits(playerlist[i].1.as_str()) {
                    proof {
                        assert(roster_view(playerlist@)[i as int] == (
                            playerlist@[i as int].0,
                            playerlist@[i as int].1@,
                        ));
                        assert(roster_view(playerlist@)[i as int].1.len() > 0xFFFF_FFFF);
                    }
                    return None;
                }
                i = i + 1;
            }
            out.push(8u8);
            proof {
                assert(out@ =~= seq![8u8]);
                assert(forall|j: int|
                    0 <= j < playerlist@.len() ==> (#[trigger] roster_view(playerlist@)[j]).1.len()
                        <= 0xFFFF_FFFF);
            }
            put_u32(&mut out, n as u32);
            put_roster(&mut out, playerlist);
            proof {
                assert(roster_view(playerlist@).len() == playerlist@.len());
            }
        },
        SPacket::ChunkNew { chunkpos, voxel } => {
            if voxel.len() != crate::coords::VOLUME {
                return None;
            }
            out.push(9u8);
            proof {
                assert(out@ =~= seq![9u8]);
            }
            put_ivec3(&mut out, *chunkpos);
            put_cells(&mut out, voxel);
        },
        SPacket::ChunkDel { chunkpos } => {
            out.push(10u8);
            proof {
                assert(out@ =~= seq![10u8]);
            }
            put_ivec3(&mut out, *chunkpos);
        },
    }
    Some(out)
}

/// Decode a request message: the bytes must be exactly one well-formed
/// message, else nothing is returned and nothing is applied.
pub fn decode_cpacket(b: &Vec<u8>) -> (r: Option<CPacket>)
    ensures
        match r {
            Some(m) => spec_decode_cpacket(b@) == Some(m@) && m@.wf(),
            None => spec_decode_cpacket(b@) is None,
        },
{
    let (tag, i) = match get_u8(b, 0) {
        Some(x) => x,
        None => {
            return None;
        },
    };
    if tag == 0 {
        match get_u64(b, i) {
            Some((protocol_version, j)) => {
                if j == b.len() {
                    Some(CPacket::Handshake { protocol_version })
                } else {
                    None
                }
            },
            None => None,
        }
    } else if tag == 1 {
        if i == b.len() {
            Some(CPacket::ServerQuery)
        } else {
            None
        }
    } else if tag == 2 {
        match get_u64(b, i) {
            Some((client_time, j)) => {
                if j == b.len() {
                    Some(CPacket::Ping { client_time })
                } else {
                    None
                }
            },
            None => None,
        }
    } else if tag == 3 {
        match get_u64(b, i) {
            Some((uuid, j1)) => match get_u64(b, j1) {
                Some((access_token, j2)) => match get_string(b, j2) {
                    Some((username, j3)) => {
                        if j3 == b.len() {
                            proof {
                                lemma_sd_string_inv(b@, j2 as int);
                            }
                            Some(CPacket::Login { uuid, access_token, username })
                        } else {
                            None
                        }
                    },
                    None => None,
                },
                None => None,
            },
            None => None,
        }
    } else if tag == 4 {
        match get_string(b, i) {
            Some((message, j)) => {
                if j == b.len() {
                    proof {
                        lemma_sd_string_inv(b@, i as int);
                    }
                    Some(CPacket::ChatMessage { message })
                } else {
                    None
                }
            },
            None => None,
        }
    } else {
        None
    }
}

/// Decode an event message: the bytes must be exactly one well-formed
/// message, else nothing is returned and nothing is applied.
pub fn decode_spacket(b: &Vec<u8>) -> (r: Option<SPacket>)
    ensures
        match r {
            Some(m) => spec_decode_spacket(b@) == Some(m@) && m@.wf(),
            None => spec_decode_spacket(b@) is None,
        },
{
    let (tag, i) = match get_u8(b, 0) {
        Some(x) => x,
        None => {
            return None;
        },
    };
    if tag == 0 {
        match get_string(b, i) {
            Some((reason, j)) => {
                if j == b.len() {
                    proof {
                        lemma_sd_string_inv(b@, i as int);
                    }
                    Some(SPacket::Disconnect { reason })
                } else {
                    None
                }
            },
            None => None,
        }
    } else if tag == 1 {
        match get_string(b, i) {
            Some((motd, j1)) => match get_u32(b, j1) {
                Some((num_players_limit, j2)) => match get_u32(b, j2) {
                    Some((num_players_online, j3)) => match get_u64(b, j3) {
                        Some((protocol_version, j4)) => match get_string(b, j4) {
                            Some((favicon, j5)) => {
                                if j5 == b.len() {
                                    proof {
                                        lemma_sd_string_inv(b@, i as int);
                                        lemma_sd_string_inv(b@, j4 as int);
                                    }
                                    Some(
                                        SPacket::ServerInfo {
                                            motd,
                                            num_players_limit,
                                            num_players_online,
                                            protocol_version,
                                            favicon,
                                        },
                                    )
                                } else {
                                    None
                                }
                            },
                            None => None,
                        },
                        None => None,
                    },
                    None => None,
                },
                None => None,
            },
            None => None,
        }
    } else if tag == 2 {
        match get_u64(b, i) {
            Some((client_time, j1)) => match get_u64(b, j1) {
                Some((server_time, j2)) => {
                    if j2 == b.len() {
                        Some(SPacket::Pong { client_time, server_time })
                    } else {
                        None
                    }
                },
                None => None,
            },
            None => None,
        }
    } else if tag == 3 {
        if i == b.len() {
            Some(SPacket::LoginSuccess)
        } else {
            None
        }
    } else if tag == 4 {
        match get_string(b, i) {
            Some((message, j)) => {
                if j == b.len() {
                    proof {
                        lemma_sd_string_inv(b@, i as int);
                    }
                    Some(SPacket::Chat { message })
                } else {
                    None
                }
            },
            None => None,
        }
    } else if tag == 5 {
        match get_u64(b, i) {
            Some((entity_id, j1)) => match get_string(b, j1) {
                Some((name, j2)) => {
                    if j2 == b.len() {
                        proof {
                            lemma_sd_string_inv(b@, j1 as int);
                        }
                        Some(SPacket::EntityNew { entity_id, name })
                    } else {
                        None
                    }
                },
                None => None,
            },
            None => None,
        }
    } else if tag == 6 {
        match get_u64(b, i) {
            Some((entity_id, j1)) => match get_ivec3(b, j1) {
                Some((position, j2)) => {
                    if j2 == b.len() {
                        Some(SPacket::EntityPos { entity_id, position })
                    } else {
                        None
                    }
                },
                None => None,
            },
            None => None,
        }
    } else if tag == 7 {
        match get_u64(b, i) {
            Some((entity_id, j)) => {
                if j == b.len() {
                    Some(SPacket::EntityDel { entity_id })
                } else {
                    None
                }
            },
            None => None,
        }
    } else if tag == 8 {
        match get_u32(b, i) {
            Some((n, j1)) => match get_roster(b, j1, n) {
                Some((playerlist, j2)) => {
                    if j2 == b.len() {
                        proof {
                            lemma_sd_roster_inv(b@, j1 as int, n as nat);
                            assert(roster_view(playerlist@).len() == n as nat);
                            assert(playerlist@.len() <= 0xFFFF_FFFF);
                            assert forall|k: int|
                                0 <= k < playerlist@.len() implies (
                            #[trigger] playerlist@[k]).1@.len() <= 0xFFFF_FFFF by {
                                assert(roster_view(playerlist@)[k] == (
                                    playerlist@[k].0,
                                    playerlist@[k].1@,
                                ));
                                assert(roster_view(playerlist@)[k].1.len() <= 0xFFFF_FFFF);
                            }
                        }
                        Some(SPacket::PlayerList { playerlist })
                    } else {
                        None
                    }
                },
                None => None,
            },
            None => None,
        }
    } else if tag == 9 {
        match get_ivec3(b, i) {
            Some((chunkpos, j1)) => match get_cells(b, j1, crate::coords::VOLUME) {
                Some((voxel, j2)) => {
                    if j2 == b.len() {
                        proof {
                            lemma_sd_cells_inv(b@, j1 as int, crate::coords::VOLUME as nat);
                        }
                        Some(SPacket::ChunkNew { chunkpos, voxel })
                    } else {
                        None
                    }
                },
                None => None,
            },
            None => None,
        }
    } else if tag == 10 {
        match get_ivec3(b, i) {
            Some((chunkpos, j)) => {
                if j == b.len() {
                    Some(SPacket::ChunkDel { chunkpos })
                } else {
                    None
                }
            },
            None => None,
        }
    } else {
        None
    }
}

} // verus!
