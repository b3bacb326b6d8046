//! The layout of the text condition: how many frames the prompt and target
//! take, which token each frame takes its features from, and the token and
//! mask inputs of the text encoder.
use vstd::prelude::*;

verus! {

/// Token and frame counts of a prompt followed by a target.
#[derive(Clone, Copy, Debug)]
pub struct TextPlan {
    pub prompt_tokens: usize,
    pub target_tokens: usize,
    pub total_tokens: usize,
    pub prompt_frames: usize,
    pub predicted_frames: usize,
    pub total_frames: usize,
}

impl TextPlan {
    /// The totals are the sums of their parts.
    pub open spec fn wf(self) -> bool {
        &&& self.total_tokens == self.prompt_tokens + self.target_tokens
        &&& self.total_frames == self.prompt_frames + self.predicted_frames
    }

    /// The plan for a prompt of `prompt_tokens` tokens over `prompt_frames`
    /// frames, followed by a target of `target_tokens` tokens predicted to
    /// take `predicted_frames` frames.
    pub fn from_counts(
        prompt_tokens: usize,
        target_tokens: usize,
        prompt_frames: usize,
        predicted_frames: usize,
    ) -> (p: TextPlan)
        requires
            prompt_tokens + target_tokens <= usize::MAX,
            prompt_frames + predicted_frames <= usize::MAX,
        ensures
            p.wf(),
            p.prompt_tokens == prompt_tokens,
            p.target_tokens == target_tokens,
            p.prompt_frames == prompt_frames,
            p.predicted_frames == predicted_frames,
    {
        TextPlan {
            prompt_tokens,
            target_tokens,
            total_tokens: prompt_tokens + target_tokens,
            prompt_frames,
            predicted_frames,
            total_frames: prompt_frames + predicted_frames,
        }
    }
}

/// Frames given to each token: the frames per token, rounded down, at least 1.
pub open spec fn token_duration(plan: TextPlan) -> nat {
    let per = plan.total_frames as nat / (if plan.total_tokens == 0 {
        1nat
    } else {
        plan.total_tokens as nat
    });
    if per == 0 {
        1
    } else {
        per
    }
}

/// The token whose features frame `f` takes: tokens in turn, each for
/// `token_duration` frames, then the padding token (index `total_tokens`)
/// for the frames left over.
pub open spec fn frame_token(plan: TextPlan, f: nat) -> nat {
    let t = f / token_duration(plan);
    if t < plan.total_tokens {
        t
    } else {
        plan.total_tokens as nat
    }
}

/// The text condition as `expand_token_features` builds it.
pub open spec fn expanded_features<T>(features: Seq<T>, feat_dim: nat, plan: TextPlan) -> Seq<T> {
    Seq::new(
        (plan.total_frames * feat_dim) as nat,
        |i: int| features[frame_token(plan, (i / feat_dim as int) as nat) * feat_dim + i % feat_dim as int],
    )
}

/// Spreads per-token features (`feat_dim` values per token, the padding token
/// last) over the plan's frames: frame `f` takes the features of token
/// `frame_token(plan, f)`.
pub fn expand_token_features<T: Copy>(features: &[T], feat_dim: usize, plan: &TextPlan) -> (out: Vec<T>)
    requires
        (plan.total_tokens + 1) * feat_dim <= features@.len(),
        plan.total_frames * feat_dim <= usize::MAX,
    ensures
        out@ == expanded_features(features@, feat_dim as nat, *plan),
        out@.len() == plan.total_frames * feat_dim,
        forall|f: int, c: int|
            0 <= f < plan.total_frames && 0 <= c < feat_dim ==> #[trigger] out@[f * feat_dim + c]
                == features@[frame_token(*plan, f as nat) * feat_dim + c],
{
    let per = plan.total_frames / if plan.total_tokens == 0 {
        1
    } else {
        plan.total_tokens
    };
    let dur = if per == 0 {
        1
    } else {
        per
    };
    assert(dur == token_duration(*plan));
    let mut out: Vec<T> = Vec::new();
    let mut f: usize = 0;
    let features_len = features.len();
    assert(features@.len() == features_len);
    let ghost want = expanded_features(features@, feat_dim as nat, *plan);
    while f < plan.total_frames
        invariant
            f <= plan.total_frames,
            dur == token_duration(*plan),
            dur >= 1,
            (plan.total_tokens + 1) * feat_dim <= features@.len(),
            features@.len() <= usize::MAX,
            plan.total_frames * feat_dim <= usize::MAX,
            want == expanded_features(features@, feat_dim as nat, *plan),
            out@ == want.take(f * feat_dim),
        decreases plan.total_frames - f,
    {
        let q = f / dur;
        let t = if q < plan.total_tokens {
            q
        } else {
            plan.total_tokens
        };
        assert(t == frame_token(*plan, f as nat));
        assert(t * feat_dim + feat_dim <= (plan.total_tokens + 1) * feat_dim) by (nonlinear_arith)
            requires
                t <= plan.total_tokens,
        ;
        assert(f * feat_dim + feat_dim <= plan.total_frames * feat_dim) by (nonlinear_arith)
            requires
                f < plan.total_frames,
        ;
        assert(t * feat_dim + feat_dim == (t + 1) * feat_dim) by (nonlinear_arith);
        let base = t * feat_dim;
        let mut c: usize = 0;
        while c < feat_dim
            invariant
                c <= feat_dim,
                f < plan.total_frames,
                base == t * feat_dim,
                t == frame_token(*plan, f as nat),
                base + feat_dim <= features@.len(),
                features@.len() <= usize::MAX,
                f * feat_dim + feat_dim <= plan.total_frames * feat_dim,
                plan.total_frames * feat_dim <= usize::MAX,
                want == expanded_features(features@, feat_dim as nat, *plan),
                out@ == want.take(f * feat_dim + c),
            decreases feat_dim - c,
        {
            out.push(features[base + c]);
            proof {
                let i = f * feat_dim + c;
                assert(i / feat_dim as int == f && i % feat_dim as int == c) by (nonlinear_arith)
                    requires
                        i == f * feat_dim + c,
                        0 <= c < feat_dim,
                ;
                assert(want[i] == features@[base + c]);
                assert(want.take(i + 1) == want.take(i).push(want[i]));
            }
            c += 1;
        }
        assert(f * feat_dim + feat_dim == (f + 1) * feat_dim) by (nonlinear_arith);
        f += 1;
    }
    proof {
        assert(want.take(plan.total_frames * feat_dim) == want);
        assert forall|f: int, c: int|
            0 <= f < plan.total_frames && 0 <= c < feat_dim implies #[trigger] out@[f * feat_dim + c]
            == features@[frame_token(*plan, f as nat) * feat_dim + c] by {
            let i = f * feat_dim + c;
            assert(i / feat_dim as int == f && i % feat_dim as int == c) by (nonlinear_arith)
                requires
                    i == f * feat_dim + c,
                    0 <= c < feat_dim,
            ;
            assert(i < plan.total_frames * feat_dim) by (nonlinear_arith)
                requires
                    i == f * feat_dim + c,
                    0 <= c < feat_dim,
                    f < plan.total_frames,
            ;
        }
    }
    out
}

/// The tokens that the text encoder reads: the prompt's, the target's, and
/// the padding token.
pub fn token_sequence(prompt: &[i64], target: &[i64], pad_id: u32) -> (tokens: Vec<i64>)
    requires
        prompt@.len() + target@.len() + 1 <= usize::MAX,
    ensures
        tokens@ == prompt@ + target@ + seq![pad_id as i64],
{
    let mut tokens: Vec<i64> = Vec::new();
    let mut i: usize = 0;
    while i < prompt.len()
        invariant
            i <= prompt@.len(),
            tokens@ == prompt@.take(i as int),
        decreases prompt@.len() - i,
    {
        tokens.push(prompt[i]);
        assert(prompt@.take(i + 1) == prompt@.take(i as int).push(prompt@[i as int]));
        i += 1;
    }
    assert(prompt@.take(prompt@.len() as int) == prompt@);
    let mut j: usize = 0;
    while j < target.len()
        invariant
            j <= target@.len(),
            tokens@ == prompt@ + target@.take(j as int),
        decreases target@.len() - j,
    {
        tokens.push(target[j]);
        assert(target@.take(j + 1) == target@.take(j as int).push(target@[j as int]));
        j += 1;
    }
    assert(target@.take(target@.len() as int) == target@);
    tokens.push(pad_id as i64);
    tokens
}

/// The id a token takes in the encoder's index tensor: negative ids become
/// 0, and the id is cut to 32 bits.
pub open spec fn graph_token_id(t: i64) -> i32 {
    (if t > 0 {
        t
    } else {
        0
    }) as i32
}

/// The encoder's token indices, one per token.
pub fn graph_token_ids(tokens: &[i64]) -> (ids: Vec<i32>)
    ensures
        ids@.len() == tokens@.len(),
        forall|i: int| 0 <= i < tokens@.len() ==> #[trigger] ids@[i] == graph_token_id(tokens@[i]),
{
    let mut ids: Vec<i32> = Vec::new();
    let mut i: usize = 0;
    while i < tokens.len()
        invariant
            i <= tokens@.len(),
            ids@.len() == i,
            forall|k: int| 0 <= k < i ==> #[trigger] ids@[k] == graph_token_id(tokens@[k]),
        decreases tokens@.len() - i,
    {
        let t = tokens[i];
        let clamped: i64 = if t > 0 {
            t
        } else {
            0
        };
        ids.push(clamped as i32);
        i += 1;
    }
    ids
}

/// An attention mask over `frames` query and key frames: `masked` where the
/// key is a padding frame (at or after `valid`), `open` elsewhere, row by
/// row per query.
pub fn padding_mask<T: Copy>(frames: usize, valid: usize, open: T, masked: T) -> (mask: Vec<T>)
    requires
        frames * frames <= usize::MAX,
    ensures
        mask@.len() == frames * frames,
        forall|q: int, k: int|
            0 <= q < frames && 0 <= k < frames ==> #[trigger] mask@[q * frames + k] == if k
                >= valid {
                masked
            } else {
                open
            },
{
    let mut mask: Vec<T> = Vec::new();
    let mut q: usize = 0;
    while q < frames
        invariant
            q <= frames,
            frames * frames <= usize::MAX,
            mask@.len() == q * frames,
            forall|qq: int, k: int|
                0 <= qq < q && 0 <= k < frames ==> #[trigger] mask@[qq * frames + k] == if k
                    >= valid {
                    masked
                } else {
                    open
                },
        decreases frames - q,
    {
        assert(q * frames + frames <= frames * frames) by (nonlinear_arith)
            requires
                q < frames,
        ;
        let ghost before = mask@;
        let mut k: usize = 0;
        while k < frames
            invariant
                k <= frames,
                q < frames,
                mask@.len() == q * frames + k,
                q * frames + frames <= frames * frames,
                frames * frames <= usize::MAX,
                before.len() == q * frames,
                forall|i: int| 0 <= i < before.len() ==> #[trigger] mask@[i] == before[i],
                forall|kk: int|
                    0 <= kk < k ==> #[trigger] mask@[q * frames + kk] == if kk >= valid {
                        masked
                    } else {
                        open
                    },
            decreases frames - k,
        {
            mask.push(
                if k >= valid {
                    masked
                } else {
                    open
                },
            );
            k += 1;
        }
        assert forall|qq: int, k: int|
            0 <= qq < q + 1 && 0 <= k < frames implies #[trigger] mask@[qq * frames + k] == if k
                >= valid {
                masked
            } else {
                open
            } by {
            if qq < q {
                assert(qq * frames + k < q * frames) by (nonlinear_arith)
                    requires
                        qq < q,
                        k < frames,
                ;
                assert(mask@[qq * frames + k] == before[qq * frames + k]);
            }
        }
        assert(q * frames + frames == (q + 1) * frames) by (nonlinear_arith);
        q += 1;
    }
    mask
}

/// The table row of a token id: negative ids are taken as 0, and the id is
/// cut to the width of `usize`.
pub open spec fn token_row(t: i64) -> usize {
    (if t > 0 {
        t
    } else {
        0
    }) as usize
}

/// Entry `c` of the table row of token `t`, or `zero` for a token outside
/// the table.
pub open spec fn embedding_value<T>(table: Seq<T>, dim: nat, vocab: nat, t: i64, c: int, zero: T) -> T {
    let id = token_row(t);
    if id < vocab {
        table[id * dim + c]
    } else {
        zero
    }
}

/// The rows of `table` (`dim` values per token, `vocab` tokens) that the
/// tokens select, one after the other; a token at or past `vocab` gives a
/// row of `zero`.
pub fn gather_embedding_rows<T: Copy>(table: &[T], dim: usize, vocab: usize, tokens: &[i64], zero: T) -> (out: Vec<T>)
    requires
        tokens@.len() * dim <= usize::MAX,
        forall|i: int|
            0 <= i < tokens@.len() && #[trigger] token_row(tokens@[i]) < vocab ==> (token_row(
                tokens@[i],
            ) + 1) * dim <= table@.len(),
    ensures
        out@.len() == tokens@.len() * dim,
        forall|p: int, c: int|
            0 <= p < tokens@.len() && 0 <= c < dim ==> #[trigger] out@[p * dim + c]
                == embedding_value(table@, dim as nat, vocab as nat, tokens@[p], c, zero),
{
    let mut out: Vec<T> = Vec::new();
    let mut p: usize = 0;
    let table_len = table.len();
    assert(table@.len() == table_len);
    while p < tokens.len()
        invariant
            p <= tokens@.len(),
            tokens@.len() * dim <= usize::MAX,
            forall|i: int|
                0 <= i < tokens@.len() && #[trigger] token_row(tokens@[i]) < vocab ==> (token_row(
                    tokens@[i],
                ) + 1) * dim <= table@.len(),
            table@.len() <= usize::MAX,
            out@.len() == p * dim,
            forall|pp: int, c: int|
                0 <= pp < p && 0 <= c < dim ==> #[trigger] out@[pp * dim + c] == embedding_value(
                    table@,
                    dim as nat,
                    vocab as nat,
                    tokens@[pp],
                    c,
                    zero,
                ),
        decreases tokens@.len() - p,
    {
        let t = tokens[p];
        let clamped: i64 = if t > 0 {
            t
        } else {
            0
        };
        let id: usize = #[verifier::truncate] (clamped as usize);
        assert(id == token_row(t));
        assert(p * dim + dim <= tokens@.len() * dim) by (nonlinear_arith)
            requires
                p < tokens@.len(),
        ;
        let ghost before = out@;
        let mut c: usize = 0;
        while c < dim
            invariant
                c <= dim,
                p < tokens@.len(),
                t == tokens@[p as int],
                id == token_row(t),
                table@.len() <= usize::MAX,
                id < vocab ==> (id + 1) * dim <= table@.len(),
                out@.len() == p * dim + c,
                p * dim + dim <= tokens@.len() * dim,
                tokens@.len() * dim <= usize::MAX,
                before.len() == p * dim,
                forall|i: int| 0 <= i < before.len() ==> #[trigger] out@[i] == before[i],
                forall|cc: int|
                    0 <= cc < c ==> #[trigger] out@[p * dim + cc] == embedding_value(
                        table@,
                        dim as nat,
                        vocab as nat,
                        t,
                        cc,
                        zero,
                    ),
            decreases dim - c,
        {
            if id < vocab {
                assert(id * dim + c < (id + 1) * dim) by (nonlinear_arith)
                    requires
                        c < dim,
                ;
                out.push(table[id * dim + c]);
            } else {
                out.push(zero);
            }
            c += 1;
        }
        assert forall|pp: int, c: int|
            0 <= pp < p + 1 && 0 <= c < dim implies #[trigger] out@[pp * dim + c] == embedding_value(
                table@,
                dim as nat,
                vocab as nat,
                tokens@[pp],
                c,
                zero,
            ) by {
            if pp < p {
                assert(pp * dim + c < p * dim) by (nonlinear_arith)
                    requires
                        pp < p,
                        c < dim,
                ;
                assert(out@[pp * dim + c] == before[pp * dim + c]);
            }
        }
        assert(p * dim + dim == (p + 1) * dim) by (nonlinear_arith);
        p += 1;
    }
    out
}

/// The speech condition: the prompt's features, then `zero` up to `total`
/// values.
pub fn prompt_then_zeros<T: Copy>(prompt: &[T], total: usize, zero: T) -> (out: Vec<T>)
    requires
        prompt@.len() <= total,
    ensures
        out@.len() == total,
        out@.take(prompt@.len() as int) == prompt@,
        forall|i: int| prompt@.len() <= i < total ==> #[trigger] out@[i] == zero,
{
    let mut out: Vec<T> = Vec::new();
    let mut i: usize = 0;
    while i < prompt.len()
        invariant
            i <= prompt@.len() <= total,
            out@ == prompt@.take(i as int),
        decreases prompt@.len() - i,
    {
        out.push(prompt[i]);
        assert(prompt@.take(i + 1) == prompt@.take(i as int).push(prompt@[i as int]));
        i += 1;
    }
    while i < total
        invariant
            prompt@.len() <= i <= total,
            out@.len() == i,
            out@.take(prompt@.len() as int) == prompt@,
            forall|k: int| prompt@.len() <= k < i ==> #[trigger] out@[k] == zero,
        decreases total - i,
    {
        let ghost before = out@;
        out.push(zero);
        assert(out@.take(prompt@.len() as int) == before.take(prompt@.len() as int));
        i += 1;
    }
    out
}

/// Law: frames take tokens in order: a later frame never takes an earlier
/// token, and no frame takes a token past the padding token.
pub proof fn law_frame_token_monotone(plan: TextPlan, f1: nat, f2: nat)
    requires
        f1 <= f2,
    ensures
        frame_token(plan, f1) <= frame_token(plan, f2),
        frame_token(plan, f2) <= plan.total_tokens,
{
    let d = token_duration(plan);
    assert(f1 / d <= f2 / d) by (nonlinear_arith)
        requires
            f1 <= f2,
            d > 0,
    ;
}

} // verus!
