//! Byte strides and offsets of the per-head views in relative-position
//! self-attention. The projected input holds, per frame, the queries of all
//! heads, then their keys, then their position queries (`f32` values); the
//! projected positional encoding holds the position keys of all heads per
//! relative position.
use vstd::prelude::*;

verus! {

/// Bytes of an `f32`.
pub const F32_BYTES: usize = 4;

/// Strides and offsets shared by all heads, in bytes except `seq_len2`.
#[derive(Debug, Clone, Copy, PartialEq, Eq, Structural)]
pub struct AttentionLayout {
    /// Stride between frames of the projected input.
    pub qkp_stride: usize,
    /// Stride between relative positions of the projected encoding.
    pub pos_stride: usize,
    /// Number of relative positions, `2 * frames - 1`.
    pub seq_len2: usize,
    /// Row stride of the view that turns relative into absolute positions.
    pub rel_stride: usize,
    /// Offset of that view.
    pub rel_offset: usize,
}

/// Offsets, in bytes, of one head's views.
#[derive(Debug, Clone, Copy, PartialEq, Eq, Structural)]
pub struct HeadViews {
    pub q_offset: usize,
    pub k_offset: usize,
    pub p_offset: usize,
    pub pos_offset: usize,
}

/// Values per frame of the projected input: queries and keys of all heads,
/// then their position queries.
pub open spec fn qkp_width(num_heads: nat, query_head_dim: nat, pos_head_dim: nat) -> nat {
    2 * (num_heads * query_head_dim) + num_heads * pos_head_dim
}

/// The layout for `frames` frames, when `frames` is at least 1 and every
/// stride fits in `usize`.
pub fn attention_layout(num_heads: usize, query_head_dim: usize, pos_head_dim: usize, frames: usize) -> (r: Option<AttentionLayout>)
    ensures
        r is Some <==> frames >= 1 && qkp_width(num_heads as nat, query_head_dim as nat, pos_head_dim as nat) * 4 <= usize::MAX
            && (2 * frames - 2) * 4 <= usize::MAX,
        r matches Some(l) ==> {
            &&& l.qkp_stride == qkp_width(num_heads as nat, query_head_dim as nat, pos_head_dim as nat) * 4
            &&& l.pos_stride == num_heads * pos_head_dim * 4
            &&& l.seq_len2 == 2 * frames - 1
            &&& l.rel_stride == (2 * frames - 2) * 4
            &&& l.rel_offset == (frames - 1) * 4
        },
{
    let ghost width = qkp_width(num_heads as nat, query_head_dim as nat, pos_head_dim as nat);
    let ghost qd = (num_heads * query_head_dim) as nat;
    let ghost pd = (num_heads * pos_head_dim) as nat;
    assert(width == 2 * qd + pd);
    if frames == 0 {
        return None;
    }
    if frames - 1 > usize::MAX / 8 {
        return None;
    }
    let query_dim = match num_heads.checked_mul(query_head_dim) {
        Some(v) => v,
        None => {
            assert(width * 4 > usize::MAX) by (nonlinear_arith)
                requires
                    width == 2 * qd + pd,
                    qd > usize::MAX,
            ;
            return None;
        },
    };
    let pos_dim = match num_heads.checked_mul(pos_head_dim) {
        Some(v) => v,
        None => {
            assert(width * 4 > usize::MAX) by (nonlinear_arith)
                requires
                    width == 2 * qd + pd,
                    pd > usize::MAX,
            ;
            return None;
        },
    };
    if query_dim > usize::MAX / 8 || pos_dim > (usize::MAX / 4) - 2 * query_dim {
        return None;
    }
    let qkp_stride = (2 * query_dim + pos_dim) * F32_BYTES;
    let pos_stride = pos_dim * F32_BYTES;
    Some(
        AttentionLayout {
            qkp_stride,
            pos_stride,
            seq_len2: 2 * frames - 1,
            rel_stride: (2 * frames - 2) * F32_BYTES,
            rel_offset: (frames - 1) * F32_BYTES,
        },
    )
}

/// The views of head `head`: its queries, its keys and its position queries
/// in the projected input, and its position keys in the projected encoding.
pub fn head_views(num_heads: usize, query_head_dim: usize, pos_head_dim: usize, head: usize) -> (r: HeadViews)
    requires
        head < num_heads,
        qkp_width(num_heads as nat, query_head_dim as nat, pos_head_dim as nat) * 4 <= usize::MAX,
    ensures
        r.q_offset == head * query_head_dim * 4,
        r.k_offset == (num_heads * query_head_dim + head * query_head_dim) * 4,
        r.p_offset == (2 * (num_heads * query_head_dim) + head * pos_head_dim) * 4,
        r.pos_offset == head * pos_head_dim * 4,
{
    let ghost qd = num_heads * query_head_dim;
    let ghost pd = num_heads * pos_head_dim;
    assert(head * query_head_dim <= qd && head * pos_head_dim <= pd) by (nonlinear_arith)
        requires
            head < num_heads,
            qd == num_heads * query_head_dim,
            pd == num_heads * pos_head_dim,
    ;
    assert(qd >= 0 && pd >= 0) by (nonlinear_arith)
        requires
            qd == num_heads * query_head_dim,
            pd == num_heads * pos_head_dim,
    ;
    let query_dim = num_heads * query_head_dim;
    HeadViews {
        q_offset: head * query_head_dim * F32_BYTES,
        k_offset: (query_dim + head * query_head_dim) * F32_BYTES,
        p_offset: (2 * query_dim + head * pos_head_dim) * F32_BYTES,
        pos_offset: head * pos_head_dim * F32_BYTES,
    }
}

} // verus!
