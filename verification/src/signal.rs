//! Index arithmetic of the short-time transforms: reflection padding.
use vstd::prelude::*;

verus! {

/// Sample `k` of `input` padded by reflection with `pad` samples on each
/// side: the reflection leaves out the edge sample itself and stays inside
/// the input (a one-sample input repeats that sample).
pub open spec fn reflect_pad_value<T>(input: Seq<T>, pad: nat, k: int) -> T {
    let n = input.len() as int;
    if k < pad {
        let i = pad - k;
        input[if i < n - 1 {
            i
        } else {
            n - 1
        }]
    } else if k < pad + n {
        input[k - pad]
    } else {
        let i = k - pad - n + 1;
        input[if n - 1 > i {
            n - 1 - i
        } else {
            0
        }]
    }
}

/// `input` with `pad` samples added on each side by reflection; an empty
/// input gives `2 * pad` copies of `zero`.
pub fn reflect_pad<T: Copy>(input: &[T], pad: usize, zero: T) -> (out: Vec<T>)
    requires
        input@.len() + 2 * pad <= usize::MAX,
    ensures
        out@.len() == input@.len() + 2 * pad,
        input@.len() == 0 ==> forall|k: int| 0 <= k < out@.len() ==> #[trigger] out@[k] == zero,
        input@.len() > 0 ==> forall|k: int|
            0 <= k < out@.len() ==> #[trigger] out@[k] == reflect_pad_value(input@, pad as nat, k),
{
    let n = input.len();
    let mut out: Vec<T> = Vec::new();
    if n == 0 {
        let mut k: usize = 0;
        let total = 2 * pad;
        while k < total
            invariant
                total == 2 * pad,
                k <= total,
                out@.len() == k,
                forall|j: int| 0 <= j < k ==> #[trigger] out@[j] == zero,
            decreases total - k,
        {
            out.push(zero);
            k += 1;
        }
        return out;
    }
    let mut i: usize = pad;
    while i > 0
        invariant
            i <= pad,
            n == input@.len() > 0,
            input@.len() + 2 * pad <= usize::MAX,
            out@.len() == pad - i,
            forall|j: int| 0 <= j < out@.len() ==> #[trigger] out@[j] == reflect_pad_value(input@, pad as nat, j),
        decreases i,
    {
        let idx = if i < n - 1 {
            i
        } else {
            n - 1
        };
        out.push(input[idx]);
        i -= 1;
    }
    let mut j: usize = 0;
    while j < n
        invariant
            j <= n == input@.len(),
            input@.len() + 2 * pad <= usize::MAX,
            out@.len() == pad + j,
            forall|k: int| 0 <= k < out@.len() ==> #[trigger] out@[k] == reflect_pad_value(input@, pad as nat, k),
        decreases n - j,
    {
        out.push(input[j]);
        j += 1;
    }
    let last = n - 1;
    let mut i: usize = 1;
    while i <= pad
        invariant
            1 <= i <= pad + 1,
            n == input@.len() > 0,
            last == n - 1,
            input@.len() + 2 * pad <= usize::MAX,
            out@.len() == pad + n + i - 1,
            forall|k: int| 0 <= k < out@.len() ==> #[trigger] out@[k] == reflect_pad_value(input@, pad as nat, k),
        decreases pad + 1 - i,
    {
        out.push(input[last.saturating_sub(i)]);
        i += 1;
    }
    out
}

/// Sample `i` of block `k` when `input` is cut into blocks of `block`
/// samples, the last one filled up with `zero`.
pub open spec fn block_value<T>(input: Seq<T>, block: nat, k: int, i: int, zero: T) -> T {
    if k * block + i < input.len() {
        input[k * block + i]
    } else {
        zero
    }
}

/// `input` cut into blocks of `block` samples, as many as it takes to cover
/// it, the last one filled up with `zero`.
pub fn input_blocks<T: Copy>(input: &[T], block: usize, zero: T) -> (blocks: Vec<Vec<T>>)
    requires
        block > 0,
        input@.len() + block <= usize::MAX,
    ensures
        blocks@.len() * block >= input@.len(),
        blocks@.len() == 0 || (blocks@.len() - 1) * block < input@.len(),
        forall|k: int|
            0 <= k < blocks@.len() ==> (#[trigger] blocks@[k])@.len() == block && forall|i: int|
                0 <= i < block ==> #[trigger] blocks@[k]@[i] == block_value(input@, block as nat, k, i, zero),
{
    let n = input.len();
    let mut blocks: Vec<Vec<T>> = Vec::new();
    let mut pos: usize = 0;
    assert(blocks@.len() * block == 0);
    while pos < n
        invariant
            block > 0,
            n == input@.len(),
            n + block <= usize::MAX,
            pos == blocks@.len() * block,
            blocks@.len() == 0 || (blocks@.len() - 1) * block < n,
            pos <= n + block,
            forall|k: int|
                0 <= k < blocks@.len() ==> (#[trigger] blocks@[k])@.len() == block && forall|i: int|
                    0 <= i < block ==> #[trigger] blocks@[k]@[i] == block_value(input@, block as nat, k, i, zero),
        decreases n + block - pos,
    {
        let ghost k = blocks@.len() as int;
        let mut b: Vec<T> = Vec::new();
        let mut i: usize = 0;
        while i < block
            invariant
                i <= block,
                pos == k * block,
                pos < n,
                n == input@.len(),
                b@.len() == i,
                forall|j: int| 0 <= j < i ==> #[trigger] b@[j] == block_value(input@, block as nat, k, j, zero),
            decreases block - i,
        {
            if i < n - pos {
                b.push(input[pos + i]);
            } else {
                b.push(zero);
            }
            i += 1;
        }
        blocks.push(b);
        assert(blocks@[k] == b);
        assert forall|kk: int|
            0 <= kk < blocks@.len() implies (#[trigger] blocks@[kk])@.len() == block && forall|i: int|
                0 <= i < block ==> #[trigger] blocks@[kk]@[i] == block_value(input@, block as nat, kk, i, zero) by {
        }
        assert((k + 1) * block == k * block + block) by (nonlinear_arith);
        pos = pos + block;
    }
    blocks
}

/// The length the resampled signal is cut to: `len * to / from`, when the
/// product fits in `usize`.
pub fn resampled_len(len: usize, from: usize, to: usize) -> (r: Option<usize>)
    requires
        from > 0,
    ensures
        match r {
            Some(n) => len * to <= usize::MAX && n == len * to / (from as int),
            None => len * to > usize::MAX,
        },
{
    match len.checked_mul(to) {
        Some(p) => Some(p / from),
        None => None,
    }
}

} // verus!
