//! Little-endian integers in byte buffers, read through `byteorder`.
use byteorder::{ByteOrder, LittleEndian};
use vstd::prelude::*;

verus! {

/// The little-endian value of the 2 bytes of `b` from `p`.
pub open spec fn le_u16(b: Seq<u8>, p: int) -> nat {
    (b[p] as nat) + (b[p + 1] as nat) * 0x100
}

/// The little-endian value of the 4 bytes of `b` from `p`.
pub open spec fn le_u32(b: Seq<u8>, p: int) -> nat {
    le_u16(b, p) + le_u16(b, p + 2) * 0x1_0000
}

/// The little-endian value of the 8 bytes of `b` from `p`.
pub open spec fn le_u64(b: Seq<u8>, p: int) -> nat {
    le_u32(b, p) + le_u32(b, p + 4) * 0x1_0000_0000
}

/// The 2 little-endian bytes of `v` (below 2^16).
pub open spec fn le2(v: nat) -> Seq<u8> {
    seq![(v % 0x100) as u8, ((v / 0x100) % 0x100) as u8]
}

/// The 4 little-endian bytes of `v` (below 2^32).
pub open spec fn le4(v: nat) -> Seq<u8> {
    le2(v % 0x1_0000) + le2(v / 0x1_0000)
}

/// The 8 little-endian bytes of `v` (below 2^64).
pub open spec fn le8(v: nat) -> Seq<u8> {
    le4(v % 0x1_0000_0000) + le4(v / 0x1_0000_0000)
}

/// The 4 little-endian bytes of each word, one word after the other.
pub open spec fn le4_words(ws: Seq<u32>) -> Seq<u8>
    decreases ws.len(),
{
    if ws.len() == 0 {
        seq![]
    } else {
        le4_words(ws.drop_last()) + le4(ws.last() as nat)
    }
}

pub proof fn lemma_le2(v: nat)
    requires
        v < 0x1_0000,
    ensures
        le2(v).len() == 2,
        le_u16(le2(v), 0) == v,
{
    assert((v % 0x100) + (v / 0x100) * 0x100 == v) by (nonlinear_arith);
    assert(v / 0x100 < 0x100) by (nonlinear_arith)
        requires
            v < 0x1_0000,
    ;
}

pub proof fn lemma_le4(v: nat)
    requires
        v < 0x1_0000_0000,
    ensures
        le4(v).len() == 4,
        le_u32(le4(v), 0) == v,
{
    assert(v / 0x1_0000 < 0x1_0000) by (nonlinear_arith)
        requires
            v < 0x1_0000_0000,
    ;
    lemma_le2(v % 0x1_0000);
    lemma_le2(v / 0x1_0000);
    let b = le4(v);
    assert(le_u16(b, 0) == le_u16(le2(v % 0x1_0000), 0));
    assert(le_u16(b, 2) == le_u16(le2(v / 0x1_0000), 0));
    assert((v % 0x1_0000) + (v / 0x1_0000) * 0x1_0000 == v) by (nonlinear_arith);
}

pub proof fn lemma_le8(v: nat)
    requires
        v < 0x1_0000_0000_0000_0000,
    ensures
        le8(v).len() == 8,
        le_u64(le8(v), 0) == v,
{
    assert(v / 0x1_0000_0000 < 0x1_0000_0000) by (nonlinear_arith)
        requires
            v < 0x1_0000_0000_0000_0000,
    ;
    lemma_le4(v % 0x1_0000_0000);
    lemma_le4(v / 0x1_0000_0000);
    let b = le8(v);
    let lo = le4(v % 0x1_0000_0000);
    let hi = le4(v / 0x1_0000_0000);
    assert(b[0] == lo[0] && b[1] == lo[1] && b[2] == lo[2] && b[3] == lo[3]);
    assert(b[4] == hi[0] && b[5] == hi[1] && b[6] == hi[2] && b[7] == hi[3]);
    assert(le_u32(b, 0) == le_u32(lo, 0));
    assert(le_u32(b, 4) == le_u32(hi, 0));
    assert((v % 0x1_0000_0000) + (v / 0x1_0000_0000) * 0x1_0000_0000 == v) by (nonlinear_arith);
}

pub proof fn lemma_le4_words(ws: Seq<u32>, i: int)
    requires
        0 <= i < ws.len(),
    ensures
        le4_words(ws).len() == 4 * ws.len(),
        le4_words(ws).subrange(4 * i, 4 * i + 4) == le4(ws[i] as nat),
    decreases ws.len(),
{
    lemma_le4(ws.last() as nat);
    lemma_le4_words_len(ws.drop_last());
    if i < ws.len() - 1 {
        lemma_le4_words(ws.drop_last(), i);
        assert(le4_words(ws).subrange(4 * i, 4 * i + 4) =~= le4_words(ws.drop_last()).subrange(
            4 * i,
            4 * i + 4,
        ));
    } else {
        assert(le4_words(ws).subrange(4 * i, 4 * i + 4) =~= le4(ws.last() as nat));
    }
}

pub proof fn lemma_le4_words_len(ws: Seq<u32>)
    ensures
        le4_words(ws).len() == 4 * ws.len(),
    decreases ws.len(),
{
    if ws.len() > 0 {
        lemma_le4_words_len(ws.drop_last());
        lemma_le4(ws.last() as nat);
    }
}

/// The value read at `p` depends only on the bytes there.
pub proof fn lemma_le_at(b: Seq<u8>, p: int, t: Seq<u8>)
    requires
        0 <= p,
        p + t.len() <= b.len(),
        b.subrange(p, p + t.len()) == t,
    ensures
        t.len() >= 2 ==> le_u16(b, p) == le_u16(t, 0),
        t.len() >= 4 ==> le_u32(b, p) == le_u32(t, 0),
        t.len() >= 8 ==> le_u64(b, p) == le_u64(t, 0),
{
    assert forall|k: int| 0 <= k < t.len() implies #[trigger] b[p + k] == t[k] by {
        assert(b.subrange(p, p + t.len())[k] == b[p + k]);
    }
}

/// `LittleEndian::read_u16` on `buf[pos..]`: the little-endian value of
/// the two bytes at `pos` (it panics on fewer than two bytes, which
/// `requires` rules out).
#[verifier::external_body]
pub(crate) fn read_u16_at(buf: &[u8], pos: usize) -> (r: u16)
    requires
        pos + 2 <= buf@.len(),
    ensures
        r as nat == le_u16(buf@, pos as int),
{
    LittleEndian::read_u16(&buf[pos..])
}

/// `LittleEndian::read_u32` on `buf[pos..]`: the little-endian value of
/// the four bytes at `pos` (it panics on fewer than four bytes, which
/// `requires` rules out).
#[verifier::external_body]
pub(crate) fn read_u32_at(buf: &[u8], pos: usize) -> (r: u32)
    requires
        pos + 4 <= buf@.len(),
    ensures
        r as nat == le_u32(buf@, pos as int),
{
    LittleEndian::read_u32(&buf[pos..])
}

/// `LittleEndian::read_u64` on `buf[pos..]`: the little-endian value of
/// the eight bytes at `pos` (it panics on fewer than eight bytes, which
/// `requires` rules out).
#[verifier::external_body]
pub(crate) fn read_u64_at(buf: &[u8], pos: usize) -> (r: u64)
    requires
        pos + 8 <= buf@.len(),
    ensures
        r as nat == le_u64(buf@, pos as int),
{
    LittleEndian::read_u64(&buf[pos..])
}

} // verus!
