//! The `VOCOSRS1` tensor file: the magic `VOCOSRS1`, a `u32` tensor count,
//! then per tensor a `u16` name length, the UTF-8 name, a `u8` dimension
//! count, that many `u32` dimensions, a `u64` value count and that many
//! `f32` values, all little-endian. Values are kept as their bit patterns.
use vstd::prelude::*;
use vstd::utf8::{decode_utf8, valid_utf8};

use crate::le_bytes::{
    le2, le4, le4_words, le8, le_u16, le_u32, le_u64, lemma_le2, lemma_le4, lemma_le4_words,
    lemma_le4_words_len, lemma_le8, lemma_le_at, read_u16_at, read_u32_at, read_u64_at,
};

verus! {

/// Why a tensor file was refused.
#[derive(Debug, PartialEq, Eq, Structural, Clone, Copy)]
pub enum VbinError {
    /// The file ends inside a field.
    Truncated,
    /// The file does not start with `VOCOSRS1`.
    BadMagic,
    /// A tensor name is not valid UTF-8.
    NonUtf8Name,
}

/// A tensor of the file: its name and the bit patterns of its `f32` values.
pub struct VbinTensor {
    pub name: String,
    pub data_bits: Vec<u32>,
}

pub open spec fn tensor_view(t: VbinTensor) -> (Seq<char>, Seq<u32>) {
    (t.name@, t.data_bits@)
}

pub open spec fn vbin_magic() -> Seq<u8> {
    seq![0x56u8, 0x4fu8, 0x43u8, 0x4fu8, 0x53u8, 0x52u8, 0x53u8, 0x31u8]
}

/// The tensor that starts at byte `p`, and the byte after it.
pub open spec fn parse_tensor_at(b: Seq<u8>, p: int) -> Result<((Seq<char>, Seq<u32>), int), VbinError> {
    if p + 2 > b.len() {
        Err(VbinError::Truncated)
    } else {
        let name_len = le_u16(b, p);
        let q = p + 2;
        if q + name_len > b.len() {
            Err(VbinError::Truncated)
        } else {
            let name = b.subrange(q, q + name_len);
            if !valid_utf8(name) {
                Err(VbinError::NonUtf8Name)
            } else {
                let q2 = q + name_len;
                if q2 + 1 > b.len() {
                    Err(VbinError::Truncated)
                } else {
                    let q3 = q2 + 1 + 4 * (b[q2] as int);
                    if q3 + 8 > b.len() {
                        Err(VbinError::Truncated)
                    } else {
                        let n = le_u64(b, q3);
                        let q4 = q3 + 8;
                        if q4 + 4 * n > b.len() {
                            Err(VbinError::Truncated)
                        } else {
                            Ok(
                                (
                                    (
                                        decode_utf8(name),
                                        Seq::new(n, |i: int| le_u32(b, q4 + 4 * i) as u32),
                                    ),
                                    q4 + 4 * n,
                                ),
                            )
                        }
                    }
                }
            }
        }
    }
}

/// The first `k` tensors from byte `p`, and the byte after them.
pub open spec fn parse_tensors(b: Seq<u8>, p: int, k: nat) -> Result<(Seq<(Seq<char>, Seq<u32>)>, int), VbinError>
    decreases k,
{
    if k == 0 {
        Ok((seq![], p))
    } else {
        match parse_tensors(b, p, (k - 1) as nat) {
            Err(e) => Err(e),
            Ok((ts, q)) => match parse_tensor_at(b, q) {
                Err(e) => Err(e),
                Ok((t, q2)) => Ok((ts.push(t), q2)),
            },
        }
    }
}

/// The tensors of a file, in file order; bytes after the last tensor are
/// not read.
pub open spec fn parse_vbin_spec(b: Seq<u8>) -> Result<Seq<(Seq<char>, Seq<u32>)>, VbinError> {
    if b.len() < 8 {
        Err(VbinError::Truncated)
    } else if b.take(8) != vbin_magic() {
        Err(VbinError::BadMagic)
    } else if b.len() < 12 {
        Err(VbinError::Truncated)
    } else {
        match parse_tensors(b, 12, le_u32(b, 8)) {
            Ok((ts, _)) => Ok(ts),
            Err(e) => Err(e),
        }
    }
}

/// `String::from_utf8`: the string whose UTF-8 encoding the bytes are, when
/// they are valid UTF-8 (std's documentation: it fails exactly on invalid
/// UTF-8 and otherwise takes the bytes as they are).
#[verifier::external_body]
fn string_from_utf8(bytes: Vec<u8>) -> (r: Option<String>)
    ensures
        r is Some <==> valid_utf8(bytes@),
        r matches Some(s) ==> s@ == decode_utf8(bytes@),
{
    String::from_utf8(bytes).ok()
}

/// Reads the tensor at byte `p` of `b`.
fn parse_tensor_exec(b: &[u8], p: usize) -> (r: Result<(VbinTensor, usize), VbinError>)
    requires
        p <= b@.len(),
    ensures
        match r {
            Ok((t, q)) => parse_tensor_at(b@, p as int) == Ok::<
                ((Seq<char>, Seq<u32>), int),
                VbinError,
            >((tensor_view(t), q as int)) && q <= b@.len(),
            Err(e) => parse_tensor_at(b@, p as int) == Err::<
                ((Seq<char>, Seq<u32>), int),
                VbinError,
            >(e),
        },
{
    let len = b.len();
    if len - p < 2 {
        return Err(VbinError::Truncated);
    }
    let name_len = read_u16_at(b, p) as usize;
    let q = p + 2;
    if len - q < name_len {
        return Err(VbinError::Truncated);
    }
    let mut name_bytes: Vec<u8> = Vec::new();
    let mut i = q;
    while i < q + name_len
        invariant
            q <= i <= q + name_len <= len == b@.len(),
            name_bytes@ == b@.subrange(q as int, i as int),
        decreases q + name_len - i,
    {
        name_bytes.push(b[i]);
        assert(b@.subrange(q as int, i + 1) == b@.subrange(q as int, i as int).push(b@[i as int]));
        i += 1;
    }
    let name = match string_from_utf8(name_bytes) {
        Some(s) => s,
        None => {
            return Err(VbinError::NonUtf8Name);
        },
    };
    let q2 = q + name_len;
    if len - q2 < 1 {
        return Err(VbinError::Truncated);
    }
    let ndim = b[q2] as usize;
    let skip = 4 * ndim;
    if len - (q2 + 1) < skip {
        return Err(VbinError::Truncated);
    }
    let q3 = q2 + 1 + skip;
    if len - q3 < 8 {
        return Err(VbinError::Truncated);
    }
    let n = read_u64_at(b, q3);
    let q4 = q3 + 8;
    let room = ((len - q4) / 4) as u64;
    if n > room {
        assert(q4 + 4 * n > len);
        return Err(VbinError::Truncated);
    }
    let n = n as usize;
    let mut data_bits: Vec<u32> = Vec::new();
    let mut k: usize = 0;
    let ghost want = Seq::new(n as nat, |i: int| le_u32(b@, q4 + 4 * i) as u32);
    while k < n
        invariant
            k <= n,
            q4 + 4 * n <= len == b@.len(),
            want == Seq::new(n as nat, |i: int| le_u32(b@, q4 + 4 * i) as u32),
            data_bits@ == want.take(k as int),
        decreases n - k,
    {
        let v = read_u32_at(b, q4 + 4 * k);
        data_bits.push(v);
        assert(want.take(k + 1) == want.take(k as int).push(want[k as int]));
        k += 1;
    }
    assert(want.take(n as int) == want);
    Ok((VbinTensor { name, data_bits }, q4 + 4 * n))
}

/// Reads a `VOCOSRS1` tensor file, as `parse_vbin_spec` states: the
/// tensors in file order, or the first fault met.
pub fn parse_vbin(b: &[u8]) -> (r: Result<Vec<VbinTensor>, VbinError>)
    ensures
        match r {
            Ok(ts) => parse_vbin_spec(b@) == Ok::<Seq<(Seq<char>, Seq<u32>)>, VbinError>(
                ts@.map_values(|t: VbinTensor| tensor_view(t)),
            ),
            Err(e) => parse_vbin_spec(b@) == Err::<Seq<(Seq<char>, Seq<u32>)>, VbinError>(e),
        },
{
    let len = b.len();
    if len < 8 {
        return Err(VbinError::Truncated);
    }
    let magic: [u8; 8] = [0x56, 0x4f, 0x43, 0x4f, 0x53, 0x52, 0x53, 0x31];
    let mut i: usize = 0;
    while i < 8
        invariant
            i <= 8 <= len == b@.len(),
            magic@ == vbin_magic(),
            forall|k: int| 0 <= k < i ==> b@[k] == vbin_magic()[k],
        decreases 8 - i,
    {
        if b[i] != magic[i] {
            assert(b@.take(8)[i as int] != vbin_magic()[i as int]);
            return Err(VbinError::BadMagic);
        }
        i += 1;
    }
    assert(b@.take(8) == vbin_magic());
    if len < 12 {
        return Err(VbinError::Truncated);
    }
    let count = read_u32_at(b, 8);
    let mut tensors: Vec<VbinTensor> = Vec::new();
    let mut pos: usize = 12;
    let mut k: u32 = 0;
    assert(tensors@.map_values(|t: VbinTensor| tensor_view(t)) =~= Seq::<(Seq<char>, Seq<u32>)>::empty());
    while k < count
        invariant
            k <= count,
            b@.take(8) == vbin_magic(),
            12 <= len,
            count as nat == le_u32(b@, 8),
            pos <= len == b@.len(),
            parse_tensors(b@, 12, k as nat) == Ok::<(Seq<(Seq<char>, Seq<u32>)>, int), VbinError>(
                (tensors@.map_values(|t: VbinTensor| tensor_view(t)), pos as int),
            ),
        decreases count - k,
    {
        match parse_tensor_exec(b, pos) {
            Ok((t, next)) => {
                let ghost before = tensors@;
                tensors.push(t);
                assert(tensors@.map_values(|t: VbinTensor| tensor_view(t)) == before.map_values(
                    |t: VbinTensor| tensor_view(t),
                ).push(tensor_view(t)));
                pos = next;
            },
            Err(e) => {
                proof {
                    assert(parse_tensors(b@, 12, (k + 1) as nat) == Err::<
                        (Seq<(Seq<char>, Seq<u32>)>, int),
                        VbinError,
                    >(e));
                    lemma_parse_tensors_err(b@, (k + 1) as nat, count as nat);
                }
                return Err(e);
            },
        }
        k += 1;
    }
    Ok(tensors)
}

/// Once the first `k` tensors fail, so do the first `n >= k`.
proof fn lemma_parse_tensors_err(b: Seq<u8>, k: nat, n: nat)
    requires
        k <= n,
        parse_tensors(b, 12, k) is Err,
    ensures
        parse_tensors(b, 12, n) == parse_tensors(b, 12, k),
    decreases n - k,
{
    if n > k {
        lemma_parse_tensors_err(b, k, (n - 1) as nat);
    }
}

/// The bytes of one tensor: `u16` name length, name, `u8` dimension count,
/// the `u32` dimensions, `u64` value count, the values' `u32` bit patterns.
#[verifier::opaque]
pub open spec fn encode_tensor(name: Seq<u8>, dims: Seq<u32>, values: Seq<u32>) -> Seq<u8> {
    le2(name.len()) + name + seq![dims.len() as u8] + le4_words(dims) + le8(values.len()) + le4_words(
        values,
    )
}

/// Law: reading a tensor gives back what was written: wherever an encoded
/// tensor stands in the file, whatever follows it, the reader returns its
/// name and values and stops right after it, skipping every dimension word.
pub proof fn law_tensor_round_trip(
    pre: Seq<u8>,
    name: Seq<u8>,
    dims: Seq<u32>,
    values: Seq<u32>,
    post: Seq<u8>,
)
    requires
        name.len() < 0x1_0000,
        valid_utf8(name),
        dims.len() <= 255,
        values.len() < 0x1_0000_0000_0000_0000,
    ensures
        parse_tensor_at(pre + encode_tensor(name, dims, values) + post, pre.len() as int) == Ok::<
            ((Seq<char>, Seq<u32>), int),
            VbinError,
        >(((decode_utf8(name), values), (pre.len() + encode_tensor(name, dims, values).len()) as int)),
{
    reveal(encode_tensor);
    let l2 = le2(name.len());
    let nb = seq![dims.len() as u8];
    let dw = le4_words(dims);
    let l8 = le8(values.len());
    let vw = le4_words(values);
    lemma_le2(name.len());
    lemma_le8(values.len());
    lemma_le4_words_len(dims);
    lemma_le4_words_len(values);
    let e = encode_tensor(name, dims, values);
    let b = pre + e + post;
    let p = pre.len() as int;
    let q = p + 2;
    let q2 = q + name.len();
    let q3 = q2 + 1 + 4 * dims.len();
    let q4 = q3 + 8;
    let end = q4 + 4 * values.len();
    assert(e.len() == 2 + name.len() + 1 + 4 * dims.len() + 8 + 4 * values.len());
    assert(b.subrange(p, q) =~= l2);
    lemma_le_at(b, p, l2);
    assert(b.subrange(q, q2) =~= name);
    assert(b[q2] == dims.len() as u8);
    assert(b.subrange(q3, q4) =~= l8);
    lemma_le_at(b, q3, l8);
    let data = Seq::new(values.len(), |i: int| le_u32(b, q4 + 4 * i) as u32);
    assert forall|i: int| 0 <= i < values.len() implies #[trigger] data[i] == values[i] by {
        lemma_le4_words(values, i);
        lemma_le4(values[i] as nat);
        assert(b.subrange(q4 + 4 * i, q4 + 4 * i + 4) =~= vw.subrange(4 * i, 4 * i + 4));
        lemma_le_at(b, q4 + 4 * i, le4(values[i] as nat));
    }
    assert(data =~= values);
}

/// A tensor to encode: its name's bytes, its dimensions and its values'
/// bit patterns.
pub type TensorParts = (Seq<u8>, Seq<u32>, Seq<u32>);

/// The tensors' encodings, one after the other.
pub open spec fn encode_tensors(ts: Seq<TensorParts>) -> Seq<u8>
    decreases ts.len(),
{
    if ts.len() == 0 {
        seq![]
    } else {
        encode_tensors(ts.drop_last()) + encode_tensor(ts.last().0, ts.last().1, ts.last().2)
    }
}

/// A whole file: the magic, the tensor count and the tensors.
pub open spec fn encode_vbin(ts: Seq<TensorParts>) -> Seq<u8> {
    vbin_magic() + le4(ts.len()) + encode_tensors(ts)
}

/// Each tensor fits the format: a name of valid UTF-8 under 2^16 bytes, at
/// most 255 dimensions and under 2^64 values.
pub open spec fn tensor_encodable(t: TensorParts) -> bool {
    &&& t.0.len() < 0x1_0000
    &&& valid_utf8(t.0)
    &&& t.1.len() <= 255
    &&& t.2.len() < 0x1_0000_0000_0000_0000
}

/// What the reader gives back of each tensor: its name and its values.
pub open spec fn decoded_tensors(ts: Seq<TensorParts>) -> Seq<(Seq<char>, Seq<u32>)> {
    ts.map_values(|t: TensorParts| (decode_utf8(t.0), t.2))
}

proof fn lemma_encode_tensors_prefix(ts: Seq<TensorParts>, j: int)
    requires
        0 <= j <= ts.len(),
    ensures
        encode_tensors(ts.take(j)).len() <= encode_tensors(ts).len(),
        encode_tensors(ts).subrange(0, encode_tensors(ts.take(j)).len() as int) == encode_tensors(
            ts.take(j),
        ),
    decreases ts.len(),
{
    if j == ts.len() {
        assert(ts.take(j) =~= ts);
    } else {
        let d = ts.drop_last();
        lemma_encode_tensors_prefix(d, j);
        assert(d.take(j) =~= ts.take(j));
        let a = encode_tensors(d);
        let x = encode_tensor(ts.last().0, ts.last().1, ts.last().2);
        assert((a + x).subrange(0, encode_tensors(ts.take(j)).len() as int) =~= a.subrange(
            0,
            encode_tensors(ts.take(j)).len() as int,
        ));
    }
}

proof fn lemma_encoded_split(ts: Seq<TensorParts>, post: Seq<u8>, k: nat) -> (rest: Seq<u8>)
    requires
        0 < k <= ts.len(),
    ensures
        encode_vbin(ts) + post == (vbin_magic() + le4(ts.len()) + encode_tensors(ts.take(k - 1)))
            + encode_tensor(ts[k - 1].0, ts[k - 1].1, ts[k - 1].2) + rest,
{
    let cur = ts.take(k as int);
    let prev = ts.take(k - 1);
    assert(cur.drop_last() =~= prev);
    let t = ts[k - 1];
    assert(cur.last() == t);
    let e = encode_tensor(t.0, t.1, t.2);
    assert(encode_tensors(cur) == encode_tensors(prev) + e);
    lemma_encode_tensors_prefix(ts, k as int);
    let full = encode_tensors(ts);
    let n = encode_tensors(cur).len() as int;
    let rf = full.subrange(n, full.len() as int);
    assert(full =~= full.subrange(0, n) + rf);
    let hd = vbin_magic() + le4(ts.len());
    let rest = rf + post;
    assert(hd + full + post =~= (hd + encode_tensors(prev)) + e + rest);
    rest
}

#[verifier::spinoff_prover]
proof fn lemma_parse_encoded(ts: Seq<TensorParts>, post: Seq<u8>, k: nat)
    requires
        k <= ts.len(),
        forall|i: int| 0 <= i < ts.len() ==> tensor_encodable(#[trigger] ts[i]),
    ensures
        parse_tensors(encode_vbin(ts) + post, 12, k) == Ok::<(Seq<(Seq<char>, Seq<u32>)>, int), VbinError>(
            (decoded_tensors(ts.take(k as int)), 12 + encode_tensors(ts.take(k as int)).len() as int),
        ),
    decreases k,
{
    let b = encode_vbin(ts) + post;
    lemma_le4(ts.len() as nat % 0x1_0000_0000);
    if k == 0 {
        assert(decoded_tensors(ts.take(0)) =~= Seq::<(Seq<char>, Seq<u32>)>::empty());
        assert(encode_tensors(ts.take(0)) == Seq::<u8>::empty());
    } else {
        lemma_parse_encoded(ts, post, (k - 1) as nat);
        let t = ts[k - 1];
        assert(tensor_encodable(t));
        let prev = ts.take(k - 1);
        let cur = ts.take(k as int);
        assert(cur.drop_last() =~= prev);
        assert(cur.last() == t);
        let e = encode_tensor(t.0, t.1, t.2);
        assert(encode_tensors(cur) == encode_tensors(prev) + e);
        let hd = vbin_magic() + le4(ts.len());
        assert(hd.len() == 12);
        let pre = hd + encode_tensors(prev);
        let rest = lemma_encoded_split(ts, post, k);
        law_tensor_round_trip(pre, t.0, t.1, t.2, rest);
        assert(decoded_tensors(cur) =~= decoded_tensors(prev).push((decode_utf8(t.0), t.2)));
    }
}

/// Law: reading a file gives back what was written: whatever bytes follow
/// the last tensor, the reader returns every tensor of an encoded file, in
/// order, with its name and values.
pub proof fn law_vbin_round_trip(ts: Seq<TensorParts>, post: Seq<u8>)
    requires
        ts.len() < 0x1_0000_0000,
        forall|i: int| 0 <= i < ts.len() ==> tensor_encodable(#[trigger] ts[i]),
    ensures
        parse_vbin_spec(encode_vbin(ts) + post) == Ok::<Seq<(Seq<char>, Seq<u32>)>, VbinError>(
            decoded_tensors(ts),
        ),
{
    let b = encode_vbin(ts) + post;
    let hd = vbin_magic() + le4(ts.len());
    lemma_le4(ts.len() as nat);
    assert(b.take(8) =~= vbin_magic());
    assert(b.subrange(8, 12) =~= le4(ts.len()));
    lemma_le_at(b, 8, le4(ts.len()));
    lemma_parse_encoded(ts, post, ts.len());
    assert(ts.take(ts.len() as int) =~= ts);
}

} // verus!
