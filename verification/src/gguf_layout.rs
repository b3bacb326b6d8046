//! Arithmetic on GGUF tensor records: index and byte-range checks, tensor
//! dimensions, element counts, and little-endian words of tensor data.
use vstd::prelude::*;

use crate::le_bytes::{le_u16, le_u32, read_u16_at, read_u32_at};

verus! {

/// A tensor byte range that does not fit: the offset and size reported.
#[derive(Debug, PartialEq, Eq, Structural, Clone, Copy)]
pub struct TensorRangeError {
    pub offset: usize,
    pub size: usize,
}

/// Whether `index` names one of `count` tensors.
pub fn tensor_index_valid(index: i64, count: i64) -> (r: bool)
    ensures
        r == (0 <= index && index < count),
{
    !(index < 0 || index >= count)
}

/// Where a tensor's data starts in the file: the data section's offset plus
/// the tensor's offset, refused (with the tensor's own offset) when the sum
/// does not fit in `usize`.
pub fn tensor_absolute_offset(data_offset: usize, offset: usize, size: usize) -> (r: Result<usize, TensorRangeError>)
    ensures
        match r {
            Ok(a) => a == data_offset + offset,
            Err(e) => data_offset + offset > usize::MAX && e == (TensorRangeError { offset, size }),
        },
{
    match data_offset.checked_add(offset) {
        Some(a) => Ok(a),
        None => Err(TensorRangeError { offset, size }),
    }
}

/// Where a tensor's data ends in a file of `file_len` bytes (the length
/// taken as a `usize`, cut to its width as `as` does): refused, with the
/// absolute offset, when the end does not fit in `usize` or lies past the
/// end of the file.
pub fn tensor_data_end(absolute: usize, size: usize, file_len: u64) -> (r: Result<usize, TensorRangeError>)
    ensures
        match r {
            Ok(e) => e == absolute + size && e <= (file_len as usize),
            Err(e) => (absolute + size > usize::MAX || absolute + size > (file_len as usize)) && e
                == (TensorRangeError { offset: absolute, size }),
        },
{
    let end = match absolute.checked_add(size) {
        Some(e) => e,
        None => {
            return Err(TensorRangeError { offset: absolute, size });
        },
    };
    let limit = #[verifier::truncate] (file_len as usize);
    if end > limit {
        return Err(TensorRangeError { offset: absolute, size });
    }
    Ok(end)
}

/// The little-endian 32-bit words of `bytes`, when its length is a
/// multiple of 4.
pub fn le_words_u32(bytes: &[u8]) -> (r: Option<Vec<u32>>)
    ensures
        match r {
            Some(w) => bytes@.len() % 4 == 0 && w@.len() == bytes@.len() / 4 && forall|i: int|
                0 <= i < w@.len() ==> #[trigger] w@[i] as nat == le_u32(bytes@, 4 * i),
            None => bytes@.len() % 4 != 0,
        },
{
    let len = bytes.len();
    if len % 4 != 0 {
        return None;
    }
    let n = len / 4;
    let mut w: Vec<u32> = Vec::new();
    let mut i: usize = 0;
    while i < n
        invariant
            i <= n,
            n * 4 == len == bytes@.len(),
            w@.len() == i,
            forall|k: int| 0 <= k < i ==> #[trigger] w@[k] as nat == le_u32(bytes@, 4 * k),
        decreases n - i,
    {
        w.push(read_u32_at(bytes, 4 * i));
        i += 1;
    }
    Some(w)
}

/// The little-endian 16-bit words of `bytes`, when its length is even.
pub fn le_words_u16(bytes: &[u8]) -> (r: Option<Vec<u16>>)
    ensures
        match r {
            Some(w) => bytes@.len() % 2 == 0 && w@.len() == bytes@.len() / 2 && forall|i: int|
                0 <= i < w@.len() ==> #[trigger] w@[i] as nat == le_u16(bytes@, 2 * i),
            None => bytes@.len() % 2 != 0,
        },
{
    let len = bytes.len();
    if len % 2 != 0 {
        return None;
    }
    let n = len / 2;
    let mut w: Vec<u16> = Vec::new();
    let mut i: usize = 0;
    while i < n
        invariant
            i <= n,
            n * 2 == len == bytes@.len(),
            w@.len() == i,
            forall|k: int| 0 <= k < i ==> #[trigger] w@[k] as nat == le_u16(bytes@, 2 * k),
        decreases n - i,
    {
        w.push(read_u16_at(bytes, 2 * i));
        i += 1;
    }
    Some(w)
}

/// The product of the dimensions.
pub open spec fn shape_product(shape: Seq<usize>) -> nat
    decreases shape.len(),
{
    if shape.len() == 0 {
        1
    } else {
        shape_product(shape.drop_last()) * (shape.last() as nat)
    }
}

/// The number of elements of a tensor of the given shape (1 for no
/// dimension), multiplied out from the first dimension on; `None` when a
/// partial product does not fit in `usize`.
pub fn element_count(shape: &[usize]) -> (r: Option<usize>)
    ensures
        match r {
            Some(n) => n == shape_product(shape@) && forall|i: int|
                0 <= i <= shape@.len() ==> #[trigger] shape_product(shape@.take(i)) <= usize::MAX,
            None => exists|i: int|
                0 <= i <= shape@.len() && #[trigger] shape_product(shape@.take(i)) > usize::MAX,
        },
{
    let mut acc: usize = 1;
    let mut i: usize = 0;
    assert(shape@.take(0) =~= Seq::<usize>::empty());
    while i < shape.len()
        invariant
            i <= shape@.len(),
            acc as nat == shape_product(shape@.take(i as int)),
            forall|k: int| 0 <= k <= i ==> #[trigger] shape_product(shape@.take(k)) <= usize::MAX,
        decreases shape@.len() - i,
    {
        assert(shape@.take(i + 1).drop_last() == shape@.take(i as int));
        match acc.checked_mul(shape[i]) {
            Some(v) => {
                acc = v;
            },
            None => {
                assert(shape_product(shape@.take(i + 1)) > usize::MAX);
                return None;
            },
        }
        i += 1;
    }
    assert(shape@.take(shape@.len() as int) == shape@);
    Some(acc)
}

/// The dimensions of a new GGML tensor: the first four of `shape`, each
/// taken as an `i64` (cut as `as` does), 1 for those missing; and the
/// dimension count, `shape.len()` held between 1 and 4.
pub fn tensor_dims(shape: &[usize]) -> (r: ([i64; 4], i32))
    ensures
        forall|i: int|
            0 <= i < 4 ==> #[trigger] r.0@[i] == if i < shape@.len() {
                shape@[i] as i64
            } else {
                1i64
            },
        r.1 == if shape@.len() == 0 {
            1
        } else if shape@.len() > 4 {
            4
        } else {
            shape@.len() as i32
        },
{
    let n = shape.len();
    let d0: i64 = if 0 < n {
        #[verifier::truncate] (shape[0] as i64)
    } else {
        1
    };
    let d1: i64 = if 1 < n {
        #[verifier::truncate] (shape[1] as i64)
    } else {
        1
    };
    let d2: i64 = if 2 < n {
        #[verifier::truncate] (shape[2] as i64)
    } else {
        1
    };
    let d3: i64 = if 3 < n {
        #[verifier::truncate] (shape[3] as i64)
    } else {
        1
    };
    let dims = if n == 0 {
        1
    } else if n > 4 {
        4
    } else {
        n as i32
    };
    let ne = [d0, d1, d2, d3];
    assert(ne@ == seq![d0, d1, d2, d3]);
    (ne, dims)
}

} // verus!
