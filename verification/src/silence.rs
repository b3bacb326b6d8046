//! Silence removal on a prompt or a generated waveform. Whether a frame is
//! active (holds sound above the threshold) is decided per frame outside this
//! module; here are the intervals, merges, segments and trims that follow
//! from those decisions.
use vstd::prelude::*;

verus! {

/// Hop between the frames that `split_intervals` examines.
pub const SPLIT_HOP: usize = 512;

/// Frames of `len` samples at `hop` apart: those that start before `len`.
pub open spec fn covers_split_frames(n_frames: nat, hop: nat, len: nat) -> bool {
    &&& n_frames * hop >= len
    &&& (n_frames == 0 || (n_frames - 1) * hop < len)
}

/// An interval list in increasing order: each interval is non-empty, lies
/// within `[0, len]`, and ends before the next one starts.
pub open spec fn intervals_ordered(iv: Seq<(usize, usize)>, len: nat) -> bool {
    &&& forall|i: int| 0 <= i < iv.len() ==> #[trigger] iv[i].0 < iv[i].1 && iv[i].1 <= len
    &&& forall|i: int, j: int| 0 <= i < j < iv.len() ==> #[trigger] iv[i].1 < #[trigger] iv[j].0
}

/// The intervals found after the first `k` frames, and the start of the
/// interval still open, if any.
pub open spec fn split_scan(act: Seq<bool>, hop: nat, k: nat) -> (Seq<(usize, usize)>, Option<usize>)
    decreases k,
{
    if k == 0 {
        (seq![], None)
    } else {
        let prev = split_scan(act, hop, (k - 1) as nat);
        let fs = ((k - 1) * hop) as usize;
        if act[k - 1] {
            match prev.1 {
                None => (prev.0, Some(fs)),
                Some(s) => prev,
            }
        } else {
            match prev.1 {
                Some(s) => (prev.0.push((s, fs)), None),
                None => prev,
            }
        }
    }
}

/// The active intervals of a waveform of `len` samples whose frame `k`,
/// starting at sample `k * hop`, is active exactly when `act[k]`: an interval
/// opens at the first active frame and closes at the next inactive one; one
/// still open at the end closes at `len`.
pub open spec fn split_spec(act: Seq<bool>, hop: nat, len: usize) -> Seq<(usize, usize)> {
    let r = split_scan(act, hop, act.len());
    match r.1 {
        Some(s) => r.0.push((s, len)),
        None => r.0,
    }
}

pub open spec fn sat_sub(a: usize, b: usize) -> usize {
    if a > b {
        (a - b) as usize
    } else {
        0
    }
}

/// Intervals with a gap under `min_gap` to the one before them are joined to it.
pub open spec fn merge_close(iv: Seq<(usize, usize)>, min_gap: usize) -> Seq<(usize, usize)>
    decreases iv.len(),
{
    if iv.len() == 0 {
        seq![]
    } else {
        let m = merge_close(iv.drop_last(), min_gap);
        let cur = iv.last();
        if m.len() > 0 && sat_sub(cur.0, m.last().1) < min_gap {
            m.update(m.len() - 1, (m.last().0, cur.1))
        } else {
            m.push(cur)
        }
    }
}

pub open spec fn min_usize(a: usize, b: usize) -> usize {
    if a < b {
        a
    } else {
        b
    }
}

pub open spec fn max_usize(a: usize, b: usize) -> usize {
    if a > b {
        a
    } else {
        b
    }
}

/// The segments kept around the first `k` merged intervals (each widened by
/// `keep` on both sides, clipped to `[0, len]` and to the end of the segment
/// before), and the end of the last one.
pub open spec fn segments_scan(m: Seq<(usize, usize)>, keep: usize, len: usize, k: nat) -> (Seq<(usize, usize)>, usize)
    decreases k,
{
    if k == 0 {
        (seq![], 0)
    } else {
        let prev = segments_scan(m, keep, len, (k - 1) as nat);
        let cur = m[k - 1];
        let start = max_usize(sat_sub(cur.0, keep), prev.1);
        let end = min_usize((cur.1 + keep) as usize, len);
        (prev.0.push((start, end)), end)
    }
}

/// The segments that long-silence removal keeps: the whole waveform when it
/// has no active interval, else the segments around the intervals merged
/// across gaps under `min_gap`, each widened by `keep`.
pub open spec fn long_silence_segments(iv: Seq<(usize, usize)>, min_gap: usize, keep: usize, len: usize) -> Seq<(usize, usize)> {
    if iv.len() == 0 {
        seq![(0usize, len)]
    } else {
        let m = merge_close(iv, min_gap);
        segments_scan(m, keep, len, m.len()).0
    }
}

/// The samples of the segments, one after the other.
pub open spec fn gather_spec<T>(s: Seq<T>, segs: Seq<(usize, usize)>) -> Seq<T>
    decreases segs.len(),
{
    if segs.len() == 0 {
        seq![]
    } else {
        gather_spec(s, segs.drop_last()) + s.subrange(segs.last().0 as int, segs.last().1 as int)
    }
}

/// Total length of the segments.
pub open spec fn segments_len(segs: Seq<(usize, usize)>) -> int
    decreases segs.len(),
{
    if segs.len() == 0 {
        0
    } else {
        segments_len(segs.drop_last()) + segs.last().1 - segs.last().0
    }
}

/// Segments in increasing order that do not overlap and lie in `[0, len]`.
pub open spec fn segments_ordered(segs: Seq<(usize, usize)>, len: nat) -> bool {
    &&& forall|i: int| 0 <= i < segs.len() ==> #[trigger] segs[i].0 <= segs[i].1 && segs[i].1 <= len
    &&& forall|i: int, j: int| 0 <= i < j < segs.len() ==> #[trigger] segs[i].1 <= #[trigger] segs[j].0
}

#[verifier::spinoff_prover]
proof fn lemma_split_scan(act: Seq<bool>, hop: nat, len: nat, k: nat)
    requires
        k <= act.len(),
        hop > 0,
        len <= usize::MAX,
        covers_split_frames(act.len(), hop, len),
    ensures
        intervals_ordered(split_scan(act, hop, k).0, len),
        forall|i: int|
            0 <= i < split_scan(act, hop, k).0.len() ==> #[trigger] split_scan(act, hop, k).0[i].1
                < k * hop,
        split_scan(act, hop, k).1 matches Some(s) ==> k > 0 && s <= (k - 1) * hop && (forall|i: int|
            0 <= i < split_scan(act, hop, k).0.len() ==> #[trigger] split_scan(act, hop, k).0[i].1
                < s),
    decreases k,
{
    if k > 0 {
        lemma_split_scan(act, hop, len, (k - 1) as nat);
        assert((k - 1) * hop < len) by (nonlinear_arith)
            requires
                k <= act.len(),
                act.len() == 0 || (act.len() - 1) * hop < len,
                hop > 0,
        ;
        assert((k - 1) * hop + hop == k * hop) by (nonlinear_arith);
        if k > 1 {
            assert((k - 2) * hop + hop == (k - 1) * hop) by (nonlinear_arith);
        }
        let prev = split_scan(act, hop, (k - 1) as nat);
        let fs = ((k - 1) * hop) as usize;
        assert(fs as int == (k - 1) * hop);
        let r = split_scan(act, hop, k);
        if !act[k - 1] {
            if let Some(st) = prev.1 {
                assert(r.0 == prev.0.push((st, fs)));
                assert forall|i: int| 0 <= i < r.0.len() implies #[trigger] r.0[i].0 < r.0[i].1
                    && r.0[i].1 <= len by {
                    if i < prev.0.len() {
                        assert(r.0[i] == prev.0[i]);
                    }
                }
                assert forall|i: int, j: int| 0 <= i < j < r.0.len() implies #[trigger] r.0[i].1
                    < #[trigger] r.0[j].0 by {
                    assert(r.0[i] == prev.0[i]);
                    if j < prev.0.len() {
                        assert(r.0[j] == prev.0[j]);
                    }
                }
                assert forall|i: int| 0 <= i < r.0.len() implies #[trigger] r.0[i].1 < k * hop by {
                    if i < prev.0.len() {
                        assert(r.0[i] == prev.0[i]);
                    }
                }
            }
        }
    }
}

pub proof fn lemma_split_spec_ordered(act: Seq<bool>, hop: nat, len: usize)
    requires
        hop > 0,
        covers_split_frames(act.len(), hop, len as nat),
    ensures
        intervals_ordered(split_spec(act, hop, len), len as nat),
{
    lemma_split_scan(act, hop, len as nat, act.len());
    let r = split_scan(act, hop, act.len());
    if let Some(st) = r.1 {
        let res = split_spec(act, hop, len);
        assert(res == r.0.push((st, len)));
        assert forall|i: int| 0 <= i < res.len() implies #[trigger] res[i].0 < res[i].1 && res[i].1
            <= len by {
            if i < r.0.len() {
                assert(res[i] == r.0[i]);
            }
        }
        assert forall|i: int, j: int| 0 <= i < j < res.len() implies #[trigger] res[i].1
            < #[trigger] res[j].0 by {
            assert(res[i] == r.0[i]);
            if j < r.0.len() {
                assert(res[j] == r.0[j]);
            }
        }
    }
}

/// The active intervals, as `split_spec` states them, of a waveform of `len`
/// samples whose frame `k` (from sample `k * hop`) is active when `act[k]`.
pub fn split_intervals(act: &[bool], hop: usize, len: usize) -> (iv: Vec<(usize, usize)>)
    requires
        hop > 0,
        covers_split_frames(act.len() as nat, hop as nat, len as nat),
    ensures
        iv@ == split_spec(act@, hop as nat, len),
        intervals_ordered(iv@, len as nat),
{
    let n = act.len();
    let mut iv: Vec<(usize, usize)> = Vec::new();
    let mut open: Option<usize> = None;
    let mut k: usize = 0;
    while k < n
        invariant
            k <= n == act.len(),
            hop > 0,
            covers_split_frames(act.len() as nat, hop as nat, len as nat),
            (iv@, open) == split_scan(act@, hop as nat, k as nat),
        decreases n - k,
    {
        assert(k * hop < len) by (nonlinear_arith)
            requires
                k < n,
                (n - 1) * hop < len,
                hop > 0,
        ;
        let fs = k * hop;
        if act[k] {
            if open.is_none() {
                open = Some(fs);
            }
        } else {
            match open {
                Some(s) => {
                    iv.push((s, fs));
                    open = None;
                },
                None => {},
            }
        }
        k += 1;
    }
    match open {
        Some(s) => {
            iv.push((s, len));
        },
        None => {},
    }
    proof {
        lemma_split_spec_ordered(act@, hop as nat, len);
    }
    iv
}

#[verifier::spinoff_prover]
proof fn lemma_merge_close(iv: Seq<(usize, usize)>, min_gap: usize, len: nat)
    requires
        intervals_ordered(iv, len),
    ensures
        intervals_ordered(merge_close(iv, min_gap), len),
        iv.len() > 0 ==> merge_close(iv, min_gap).len() > 0 && merge_close(iv, min_gap).last().1
            == iv.last().1,
        forall|i: int| 0 <= i < merge_close(iv, min_gap).len() ==> exists|j: int| 0 <= j < iv.len() && #[trigger] merge_close(iv, min_gap)[i].0 == #[trigger] iv[j].0,
    decreases iv.len(),
{
    if iv.len() > 0 {
        let d = iv.drop_last();
        assert(intervals_ordered(d, len)) by {
            assert forall|i: int, j: int| 0 <= i < j < d.len() implies #[trigger] d[i].1 < #[trigger] d[j].0 by {
                assert(d[i] == iv[i] && d[j] == iv[j]);
            }
        }
        lemma_merge_close(d, min_gap, len);
        let m = merge_close(d, min_gap);
        let cur = iv.last();
        let r = merge_close(iv, min_gap);
        if d.len() > 0 {
            assert(iv[d.len() - 1].1 < iv[iv.len() - 1].0);
            assert(m.last().1 == d.last().1);
        }
        assert forall|i: int| 0 <= i < r.len() implies exists|j: int| 0 <= j < iv.len() && #[trigger] r[i].0 == #[trigger] iv[j].0 by {
            if i < m.len() {
                let j = choose|j: int| 0 <= j < d.len() && #[trigger] m[i].0 == #[trigger] d[j].0;
                assert(r[i].0 == m[i].0);
                assert(iv[j] == d[j]);
            } else {
                assert(r[i].0 == iv[iv.len() - 1].0);
            }
        }
        // every merged start comes from some input interval, so it precedes the current one
        assert forall|i: int| 0 <= i < m.len() implies #[trigger] m[i].1 < cur.0 by {
            if i == m.len() - 1 {
                assert(m[i].1 == d.last().1);
                assert(iv[d.len() - 1].1 < iv[iv.len() - 1].0);
            } else {
                assert(m[i].1 < m[i + 1].0);
                let j = choose|j: int| 0 <= j < d.len() && #[trigger] m[i + 1].0 == #[trigger] d[j].0;
                assert(d[j] == iv[j]);
                assert(iv[j].0 < iv[j].1);
                if j < iv.len() - 1 {
                    assert(iv[j].1 < iv[iv.len() - 1].0);
                }
            }
        }
        assert(intervals_ordered(r, len)) by {
            if m.len() > 0 && sat_sub(cur.0, m.last().1) < min_gap {
                assert forall|i: int| 0 <= i < r.len() implies #[trigger] r[i].0 < r[i].1 && r[i].1 <= len by {
                    if i == r.len() - 1 {
                        assert(m[i].0 < m[i].1);
                        assert(m[i].1 < cur.0);
                    }
                }
                assert forall|i: int, j: int| 0 <= i < j < r.len() implies #[trigger] r[i].1 < #[trigger] r[j].0 by {
                    assert(r[i] == m[i]);
                    assert(r[j].0 == m[j].0);
                }
            } else {
                assert forall|i: int, j: int| 0 <= i < j < r.len() implies #[trigger] r[i].1 < #[trigger] r[j].0 by {
                    assert(r[i] == m[i]);
                    if j < m.len() {
                        assert(r[j] == m[j]);
                    }
                }
            }
        }
    }
}

/// Joins each interval whose gap to the one before (as far as that one has
/// grown) is under `min_gap`, as `merge_close` states.
pub fn merge_close_intervals(iv: &Vec<(usize, usize)>, min_gap: usize, Ghost(len): Ghost<nat>) -> (m: Vec<(usize, usize)>)
    requires
        intervals_ordered(iv@, len),
    ensures
        m@ == merge_close(iv@, min_gap),
        intervals_ordered(m@, len),
{
    let mut m: Vec<(usize, usize)> = Vec::new();
    let mut k: usize = 0;
    while k < iv.len()
        invariant
            k <= iv.len(),
            m@ == merge_close(iv@.take(k as int), min_gap),
        decreases iv.len() - k,
    {
        let cur = iv[k];
        assert(iv@.take(k + 1).drop_last() == iv@.take(k as int));
        assert(iv@.take(k + 1).last() == cur);
        let n = m.len();
        if n > 0 && cur.0.saturating_sub(m[n - 1].1) < min_gap {
            let last_start = m[n - 1].0;
            m.set(n - 1, (last_start, cur.1));
        } else {
            m.push(cur);
        }
        k += 1;
    }
    assert(iv@.take(iv.len() as int) == iv@);
    proof {
        lemma_merge_close(iv@, min_gap, len);
    }
    m
}

proof fn lemma_segments_scan(m: Seq<(usize, usize)>, keep: usize, len: usize, k: nat)
    requires
        k <= m.len(),
        intervals_ordered(m, len as nat),
        len + keep <= usize::MAX,
    ensures
        segments_ordered(segments_scan(m, keep, len, k).0, len as nat),
        segments_scan(m, keep, len, k).0.len() == k,
        segments_scan(m, keep, len, k).1 <= len,
        k > 0 ==> segments_scan(m, keep, len, k).1 == min_usize((m[k - 1].1 + keep) as usize, len),
        forall|i: int| 0 <= i < k ==> #[trigger] segments_scan(m, keep, len, k).0[i].1 <= segments_scan(m, keep, len, k).1,
        segments_len(segments_scan(m, keep, len, k).0) <= segments_scan(m, keep, len, k).1,
    decreases k,
{
    if k > 0 {
        lemma_segments_scan(m, keep, len, (k - 1) as nat);
        let prev = segments_scan(m, keep, len, (k - 1) as nat);
        let r = segments_scan(m, keep, len, k);
        let cur = m[k - 1];
        if k > 1 {
            assert(m[k - 2].1 < m[k - 1].0);
        }
        assert(r.0.drop_last() == prev.0);
        assert forall|i: int| 0 <= i < r.0.len() implies #[trigger] r.0[i].0 <= r.0[i].1 && r.0[i].1 <= len by {
            if i < k - 1 {
                assert(r.0[i] == prev.0[i]);
            }
        }
        assert forall|i: int, j: int| 0 <= i < j < r.0.len() implies #[trigger] r.0[i].1 <= #[trigger] r.0[j].0 by {
            assert(r.0[i] == prev.0[i]);
            if j < k - 1 {
                assert(r.0[j] == prev.0[j]);
            }
        }
    }
}

/// The segments that long-silence removal keeps, as
/// `long_silence_segments` states them.
pub fn long_silence_segments_exec(iv: &Vec<(usize, usize)>, min_gap: usize, keep: usize, len: usize) -> (segs: Vec<(usize, usize)>)
    requires
        intervals_ordered(iv@, len as nat),
        len + keep <= usize::MAX,
    ensures
        segs@ == long_silence_segments(iv@, min_gap, keep, len),
        segments_ordered(segs@, len as nat),
        segments_len(segs@) <= len,
{
    let mut segs: Vec<(usize, usize)> = Vec::new();
    if iv.len() == 0 {
        segs.push((0, len));
        assert(segs@.drop_last() == Seq::<(usize, usize)>::empty());
        assert(segments_len(Seq::<(usize, usize)>::empty()) == 0);
        assert(segments_len(segs@) == len);
        return segs;
    }
    let m = merge_close_intervals(iv, min_gap, Ghost(len as nat));
    let mut prev_end: usize = 0;
    let mut k: usize = 0;
    while k < m.len()
        invariant
            k <= m.len(),
            intervals_ordered(m@, len as nat),
            len + keep <= usize::MAX,
            (segs@, prev_end) == segments_scan(m@, keep, len, k as nat),
        decreases m.len() - k,
    {
        proof {
            lemma_segments_scan(m@, keep, len, k as nat);
        }
        let (s, e) = m[k];
        let lo = s.saturating_sub(keep);
        let start = if lo > prev_end {
            lo
        } else {
            prev_end
        };
        let hi = e + keep;
        let end = if hi < len {
            hi
        } else {
            len
        };
        segs.push((start, end));
        prev_end = end;
        k += 1;
    }
    proof {
        lemma_segments_scan(m@, keep, len, m@.len());
    }
    segs
}

/// The samples of `segs`, one segment after the other.
pub fn gather_segments<T: Copy>(samples: &[T], segs: &Vec<(usize, usize)>) -> (out: Vec<T>)
    requires
        segments_ordered(segs@, samples@.len()),
    ensures
        out@ == gather_spec(samples@, segs@),
{
    let mut out: Vec<T> = Vec::new();
    let mut k: usize = 0;
    while k < segs.len()
        invariant
            k <= segs.len(),
            segments_ordered(segs@, samples@.len()),
            out@ == gather_spec(samples@, segs@.take(k as int)),
        decreases segs.len() - k,
    {
        let (s, e) = segs[k];
        assert(segs@.take(k + 1).drop_last() == segs@.take(k as int));
        assert(segs@.take(k + 1).last() == segs@[k as int]);
        let ghost before = out@;
        let mut i = s;
        while i < e
            invariant
                s <= i <= e <= samples@.len(),
                out@ == before + samples@.subrange(s as int, i as int),
            decreases e - i,
        {
            out.push(samples[i]);
            assert(samples@.subrange(s as int, i + 1) == samples@.subrange(s as int, i as int).push(samples@[i as int]));
            i += 1;
        }
        k += 1;
    }
    assert(segs@.take(segs.len() as int) == segs@);
    out
}

/// Frames that `trim_bounds_from_activity` examines: `hop` apart, from 0 up
/// to and including `len` rounded down to a multiple of `hop`.
pub open spec fn covers_trim_frames(n_frames: nat, hop: nat, len: nat) -> bool {
    n_frames == len / hop + 1
}

/// The first active frame's start and the last active frame's start plus
/// `hop`, over the first `k` frames.
pub open spec fn trim_scan(act: Seq<bool>, hop: nat, k: nat) -> (Option<usize>, Option<usize>)
    decreases k,
{
    if k == 0 {
        (None, None)
    } else {
        let prev = trim_scan(act, hop, (k - 1) as nat);
        if act[k - 1] {
            (
                if prev.0 is Some {
                    prev.0
                } else {
                    Some(((k - 1) * hop) as usize)
                },
                Some((k * hop) as usize),
            )
        } else {
            prev
        }
    }
}

/// The part of a waveform of `len` samples that edge trimming keeps: from
/// `keep_edge` before the first active frame to `keep_edge` after the end of
/// the last one, clipped to `[0, len]`; all of it when no frame is active.
pub open spec fn trim_spec(act: Seq<bool>, hop: nat, len: usize, keep_edge: usize) -> (usize, usize) {
    if len == 0 {
        (0, 0)
    } else {
        match trim_scan(act, hop, act.len()) {
            (Some(first), Some(last)) => (
                sat_sub(first, keep_edge),
                min_usize((last + keep_edge) as usize, len),
            ),
            _ => (0, len),
        }
    }
}

proof fn lemma_trim_scan(act: Seq<bool>, hop: nat, k: nat)
    requires
        k <= act.len(),
        k * hop <= usize::MAX,
    ensures
        trim_scan(act, hop, k).0 is Some <==> trim_scan(act, hop, k).1 is Some,
        trim_scan(act, hop, k).0 matches Some(f) ==> k > 0 && f <= (k - 1) * hop && f
            <= trim_scan(act, hop, k).1->0,
        trim_scan(act, hop, k).1 matches Some(l) ==> l <= k * hop,
    decreases k,
{
    if k > 0 {
        assert((k - 1) * hop + hop == k * hop) by (nonlinear_arith);
        lemma_trim_scan(act, hop, (k - 1) as nat);
        if k > 1 {
            assert((k - 2) * hop + hop == (k - 1) * hop) by (nonlinear_arith);
        }
    }
}

/// The part of a waveform of `len` samples that edge trimming keeps, as
/// `trim_spec` states it, given which of its frames (`hop` apart, from 0)
/// are active.
pub fn trim_bounds_from_activity(act: &[bool], hop: usize, len: usize, keep_edge: usize) -> (r: (usize, usize))
    requires
        hop > 0,
        covers_trim_frames(act.len() as nat, hop as nat, len as nat),
        len + hop + keep_edge <= usize::MAX,
    ensures
        r == trim_spec(act@, hop as nat, len, keep_edge),
        r.0 <= r.1 <= len,
{
    if len == 0 {
        return (0, 0);
    }
    let n = act.len();
    let mut first: Option<usize> = None;
    let mut last: Option<usize> = None;
    let mut k: usize = 0;
    proof {
        assert(((len as int) / (hop as int)) * hop <= len) by (nonlinear_arith)
            requires
                hop > 0,
        ;
    }
    while k < n
        invariant
            k <= n == act.len(),
            hop > 0,
            n == (len as int) / (hop as int) + 1,
            ((len as int) / (hop as int)) * hop <= len,
            len + hop + keep_edge <= usize::MAX,
            (first, last) == trim_scan(act@, hop as nat, k as nat),
        decreases n - k,
    {
        assert(k * hop + hop <= len + hop) by (nonlinear_arith)
            requires
                k < n,
                n == (len as int) / (hop as int) + 1,
                ((len as int) / (hop as int)) * hop <= len,
                hop > 0,
        ;
        assert(k * hop + hop == (k + 1) * hop) by (nonlinear_arith);
        if act[k] {
            if first.is_none() {
                first = Some(k * hop);
            }
            last = Some(k * hop + hop);
        }
        k += 1;
    }
    proof {
        assert(n * hop <= len + hop) by (nonlinear_arith)
            requires
                n == (len as int) / (hop as int) + 1,
                ((len as int) / (hop as int)) * hop <= len,
                hop > 0,
        ;
        assert((n - 1) * hop <= len) by (nonlinear_arith)
            requires
                n == (len as int) / (hop as int) + 1,
                ((len as int) / (hop as int)) * hop <= len,
        ;
        lemma_trim_scan(act@, hop as nat, n as nat);
    }
    match (first, last) {
        (Some(f), Some(l)) => {
            let end = if l + keep_edge < len {
                l + keep_edge
            } else {
                len
            };
            (f.saturating_sub(keep_edge), end)
        },
        _ => (0, len),
    }
}

/// Shortest silence that long-silence removal cuts, in samples.
pub const MIN_SILENCE: usize = 24_000;

/// Samples kept on each side of an active interval.
pub const KEEP_AROUND: usize = 24_000;

/// Hop between the frames that edge trimming examines.
pub const TRIM_HOP: usize = 128;

/// Samples kept before the first and after the last active trim frame.
pub const KEEP_EDGE: usize = 2_400;

pub proof fn lemma_gather_len<T>(s: Seq<T>, segs: Seq<(usize, usize)>)
    requires
        segments_ordered(segs, s.len()),
    ensures
        gather_spec(s, segs).len() == segments_len(segs),
    decreases segs.len(),
{
    if segs.len() > 0 {
        let d = segs.drop_last();
        assert forall|i: int| 0 <= i < d.len() implies #[trigger] d[i].0 <= d[i].1 && d[i].1
            <= s.len() by {
            assert(d[i] == segs[i]);
        }
        assert forall|i: int, j: int| 0 <= i < j < d.len() implies #[trigger] d[i].1
            <= #[trigger] d[j].0 by {
            assert(d[i] == segs[i] && d[j] == segs[j]);
        }
        lemma_gather_len(s, d);
        assert(segs.last() == segs[segs.len() - 1]);
    }
}

/// What long-silence removal keeps of `samples` when `act` tells which of
/// its frames (from sample `k * SPLIT_HOP`) are active.
pub open spec fn remove_long_silence_spec<T>(samples: Seq<T>, act: Seq<bool>) -> Seq<T> {
    gather_spec(
        samples,
        long_silence_segments(
            split_spec(act, SPLIT_HOP as nat, samples.len() as usize),
            MIN_SILENCE,
            KEEP_AROUND,
            samples.len() as usize,
        ),
    )
}

/// Cuts the silences of a second or more out of `samples`, keeping a second
/// on each side of the sound around them; `act[k]` tells whether the frame
/// from sample `k * SPLIT_HOP` holds sound.
pub fn remove_long_silence<T: Copy>(samples: &[T], act: &[bool]) -> (out: Vec<T>)
    requires
        covers_split_frames(act.len() as nat, SPLIT_HOP as nat, samples@.len()),
        samples@.len() + KEEP_AROUND <= usize::MAX,
    ensures
        out@ == remove_long_silence_spec(samples@, act@),
        out@.len() <= samples@.len(),
{
    let len = samples.len();
    let iv = split_intervals(act, SPLIT_HOP, len);
    let segs = long_silence_segments_exec(&iv, MIN_SILENCE, KEEP_AROUND, len);
    proof {
        lemma_gather_len(samples@, segs@);
    }
    gather_segments(samples, &segs)
}

/// The bounds `(start, end)` of what edge trimming keeps of a waveform of
/// `len` samples; `act[k]` tells whether the frame at `k * TRIM_HOP` (in
/// the waveform padded by half a frame on each side) holds sound.
pub fn trim_interval(act: &[bool], len: usize) -> (r: (usize, usize))
    requires
        covers_trim_frames(act.len() as nat, TRIM_HOP as nat, len as nat),
        len + TRIM_HOP + KEEP_EDGE <= usize::MAX,
    ensures
        r == trim_spec(act@, TRIM_HOP as nat, len, KEEP_EDGE),
        r.0 <= r.1 <= len,
{
    trim_bounds_from_activity(act, TRIM_HOP, len, KEEP_EDGE)
}

proof fn lemma_split_scan_silent(act: Seq<bool>, hop: nat, k: nat)
    requires
        k <= act.len(),
        forall|i: int| 0 <= i < act.len() ==> !#[trigger] act[i],
    ensures
        split_scan(act, hop, k) == (Seq::<(usize, usize)>::empty(), None::<usize>),
    decreases k,
{
    if k > 0 {
        lemma_split_scan_silent(act, hop, (k - 1) as nat);
    }
}

proof fn lemma_trim_scan_silent(act: Seq<bool>, hop: nat, k: nat)
    requires
        k <= act.len(),
        forall|i: int| 0 <= i < act.len() ==> !#[trigger] act[i],
    ensures
        trim_scan(act, hop, k) == (None::<usize>, None::<usize>),
    decreases k,
{
    if k > 0 {
        lemma_trim_scan_silent(act, hop, (k - 1) as nat);
    }
}

/// Law: where no frame holds sound, neither long-silence removal nor edge
/// trimming cuts anything.
pub proof fn law_silent_input_kept<T>(samples: Seq<T>, split_act: Seq<bool>, trim_act: Seq<bool>)
    requires
        samples.len() <= usize::MAX,
        forall|i: int| 0 <= i < split_act.len() ==> !#[trigger] split_act[i],
        forall|i: int| 0 <= i < trim_act.len() ==> !#[trigger] trim_act[i],
    ensures
        remove_long_silence_spec(samples, split_act) == samples,
        trim_spec(trim_act, TRIM_HOP as nat, samples.len() as usize, KEEP_EDGE) == (
            0usize,
            samples.len() as usize,
        ),
{
    lemma_split_scan_silent(split_act, SPLIT_HOP as nat, split_act.len());
    lemma_trim_scan_silent(trim_act, TRIM_HOP as nat, trim_act.len());
    let segs = seq![(0usize, samples.len() as usize)];
    assert(split_spec(split_act, SPLIT_HOP as nat, samples.len() as usize).len() == 0);
    assert(long_silence_segments(
        split_spec(split_act, SPLIT_HOP as nat, samples.len() as usize),
        MIN_SILENCE,
        KEEP_AROUND,
        samples.len() as usize,
    ) == segs);
    assert(segs.drop_last() == Seq::<(usize, usize)>::empty());
    assert(gather_spec(samples, Seq::<(usize, usize)>::empty()) == Seq::<T>::empty());
    assert(samples.subrange(0, samples.len() as int) == samples);
    assert(gather_spec(samples, segs) == Seq::<T>::empty() + samples);
    assert(Seq::<T>::empty() + samples == samples);
}

proof fn lemma_ordered_drop_last(iv: Seq<(usize, usize)>, len: nat)
    requires
        intervals_ordered(iv, len),
        iv.len() > 0,
    ensures
        intervals_ordered(iv.drop_last(), len),
{
    let d = iv.drop_last();
    assert forall|i: int, j: int| 0 <= i < j < d.len() implies #[trigger] d[i].1 < #[trigger] d[j].0 by {
        assert(d[i] == iv[i] && d[j] == iv[j]);
    }
    assert forall|i: int| 0 <= i < d.len() implies #[trigger] d[i].0 < d[i].1 && d[i].1 <= len by {
        assert(d[i] == iv[i]);
    }
}

proof fn lemma_merge_close_gaps(iv: Seq<(usize, usize)>, min_gap: usize, len: nat)
    requires
        intervals_ordered(iv, len),
    ensures
        forall|j: int|
            0 < j < merge_close(iv, min_gap).len() ==> sat_sub(
                #[trigger] merge_close(iv, min_gap)[j].0,
                merge_close(iv, min_gap)[j - 1].1,
            ) >= min_gap,
    decreases iv.len(),
{
    if iv.len() > 0 {
        let d = iv.drop_last();
        lemma_ordered_drop_last(iv, len);
        lemma_merge_close_gaps(d, min_gap, len);
        let m = merge_close(d, min_gap);
        let cur = iv.last();
        let r = merge_close(iv, min_gap);
        if m.len() > 0 && sat_sub(cur.0, m.last().1) < min_gap {
            assert forall|j: int| 0 < j < r.len() implies sat_sub(#[trigger] r[j].0, r[j - 1].1)
                >= min_gap by {
                assert(r[j].0 == m[j].0);
                if j - 1 < m.len() - 1 {
                    assert(r[j - 1] == m[j - 1]);
                }
            }
        } else {
            assert forall|j: int| 0 < j < r.len() implies sat_sub(#[trigger] r[j].0, r[j - 1].1)
                >= min_gap by {
                if j < m.len() {
                    assert(r[j] == m[j] && r[j - 1] == m[j - 1]);
                } else {
                    assert(r[j - 1] == m[m.len() - 1]);
                }
            }
        }
    }
}

/// Every interval of `iv` lies inside some interval of `outer`.
pub open spec fn covered_by(iv: Seq<(usize, usize)>, outer: Seq<(usize, usize)>) -> bool {
    forall|i: int|
        0 <= i < iv.len() ==> exists|j: int|
            0 <= j < outer.len() && #[trigger] outer[j].0 <= #[trigger] iv[i].0 && iv[i].1
                <= outer[j].1
}

proof fn lemma_merge_close_last(iv: Seq<(usize, usize)>, min_gap: usize)
    requires
        iv.len() > 0,
    ensures
        merge_close(iv, min_gap).len() > 0,
        merge_close(iv, min_gap).last().1 == iv.last().1,
{
}

#[verifier::spinoff_prover]
#[verifier::rlimit(40)]
proof fn lemma_merge_close_contains(iv: Seq<(usize, usize)>, min_gap: usize, len: nat)
    requires
        intervals_ordered(iv, len),
    ensures
        covered_by(iv, merge_close(iv, min_gap)),
    decreases iv.len(),
{
    if iv.len() > 0 {
        let d = iv.drop_last();
        lemma_ordered_drop_last(iv, len);
        lemma_merge_close_contains(d, min_gap, len);
        let m = merge_close(d, min_gap);
        let cur = iv.last();
        let r = merge_close(iv, min_gap);
        let merged = m.len() > 0 && sat_sub(cur.0, m.last().1) < min_gap;
        if merged {
            lemma_merge_close_last(d, min_gap);
            assert(m[m.len() - 1].0 < m[m.len() - 1].1) by {
                lemma_merge_close(d, min_gap, len);
            }
            assert(iv[d.len() - 1].1 < iv[iv.len() - 1].0);
            assert(iv[iv.len() - 1].0 < iv[iv.len() - 1].1);
            assert(m.last().1 <= cur.1);
            assert(r[r.len() - 1] == (m.last().0, cur.1));
        } else {
            assert(r[r.len() - 1] == cur);
        }
        assert forall|i: int| 0 <= i < iv.len() implies exists|j: int|
            0 <= j < r.len() && #[trigger] r[j].0 <= #[trigger] iv[i].0 && iv[i].1 <= r[j].1 by {
            if i == iv.len() - 1 {
                assert(r[r.len() - 1].0 <= iv[i].0 && iv[i].1 <= r[r.len() - 1].1);
            } else {
                assert(d[i] == iv[i]);
                let j = choose|j: int|
                    0 <= j < m.len() && #[trigger] m[j].0 <= #[trigger] d[i].0 && d[i].1 <= m[j].1;
                if merged && j == m.len() - 1 {
                    assert(r[j].0 == m[j].0 && r[j].1 == cur.1);
                } else {
                    assert(r[j] == m[j]);
                }
            }
        }
    }
}

proof fn lemma_segments_cover(m: Seq<(usize, usize)>, min_gap: usize, keep: usize, len: usize, k: nat)
    requires
        k <= m.len(),
        intervals_ordered(m, len as nat),
        len + keep <= usize::MAX,
        keep <= min_gap,
        forall|j: int| 0 < j < m.len() ==> sat_sub(#[trigger] m[j].0, m[j - 1].1) >= min_gap,
    ensures
        forall|j: int|
            0 <= j < k ==> #[trigger] segments_scan(m, keep, len, k).0[j].0 <= m[j].0 && m[j].1
                <= segments_scan(m, keep, len, k).0[j].1,
    decreases k,
{
    if k > 0 {
        lemma_segments_cover(m, min_gap, keep, len, (k - 1) as nat);
        lemma_segments_scan(m, keep, len, (k - 1) as nat);
        let prev = segments_scan(m, keep, len, (k - 1) as nat);
        let r = segments_scan(m, keep, len, k);
        let cur = m[k - 1];
        if k > 1 {
            assert(sat_sub(m[k - 1].0, m[k - 2].1) >= min_gap);
            assert(m[k - 2].1 < m[k - 1].0);
        }
        assert forall|j: int| 0 <= j < k implies #[trigger] r.0[j].0 <= m[j].0 && m[j].1 <= r.0[j].1 by {
            if j < k - 1 {
                assert(r.0[j] == prev.0[j]);
            }
        }
    }
}

/// Law: long-silence removal keeps all sound: every active interval lies
/// inside one of the segments kept.
pub proof fn law_long_silence_keeps_sound(act: Seq<bool>, len: usize)
    requires
        covers_split_frames(act.len(), SPLIT_HOP as nat, len as nat),
        len + KEEP_AROUND <= usize::MAX,
    ensures
        covered_by(
            split_spec(act, SPLIT_HOP as nat, len),
            long_silence_segments(split_spec(act, SPLIT_HOP as nat, len), MIN_SILENCE, KEEP_AROUND, len),
        ),
{
    let iv = split_spec(act, SPLIT_HOP as nat, len);
    lemma_split_spec_ordered(act, SPLIT_HOP as nat, len);
    if iv.len() > 0 {
        lemma_keeps_sound_merged(iv, len);
    }
}

#[verifier::spinoff_prover]
proof fn lemma_keeps_sound_merged(iv: Seq<(usize, usize)>, len: usize)
    requires
        intervals_ordered(iv, len as nat),
        iv.len() > 0,
        len + KEEP_AROUND <= usize::MAX,
    ensures
        covered_by(iv, long_silence_segments(iv, MIN_SILENCE, KEEP_AROUND, len)),
{
    let m = merge_close(iv, MIN_SILENCE);
    lemma_merge_close(iv, MIN_SILENCE, len as nat);
    lemma_merge_close_gaps(iv, MIN_SILENCE, len as nat);
    lemma_merge_close_contains(iv, MIN_SILENCE, len as nat);
    lemma_segments_cover(m, MIN_SILENCE, KEEP_AROUND, len, m.len());
    lemma_segments_scan(m, KEEP_AROUND, len, m.len());
    let segs = segments_scan(m, KEEP_AROUND, len, m.len()).0;
    assert(segs == long_silence_segments(iv, MIN_SILENCE, KEEP_AROUND, len));
    assert forall|i: int| 0 <= i < iv.len() implies exists|j: int|
        0 <= j < segs.len() && #[trigger] segs[j].0 <= #[trigger] iv[i].0 && iv[i].1 <= segs[j].1 by {
        let j = choose|j: int| 0 <= j < m.len() && #[trigger] m[j].0 <= #[trigger] iv[i].0 && iv[i].1 <= m[j].1;
        assert(segs[j].0 <= m[j].0 && m[j].1 <= segs[j].1);
    }
}

proof fn lemma_trim_scan_covers(act: Seq<bool>, hop: nat, k: nat)
    requires
        k <= act.len(),
        k * hop <= usize::MAX,
    ensures
        forall|i: int|
            0 <= i < k && #[trigger] act[i] ==> trim_scan(act, hop, k).0 is Some && trim_scan(
                act,
                hop,
                k,
            ).0->0 <= i * hop && trim_scan(act, hop, k).1 is Some && trim_scan(act, hop, k).1->0
                >= i * hop + hop,
    decreases k,
{
    if k > 0 {
        assert((k - 1) * hop + hop == k * hop) by (nonlinear_arith);
        lemma_trim_scan_covers(act, hop, (k - 1) as nat);
        lemma_trim_scan(act, hop, (k - 1) as nat);
        assert forall|i: int| 0 <= i < k && #[trigger] act[i] implies trim_scan(act, hop, k).0 is Some
            && trim_scan(act, hop, k).0->0 <= i * hop && trim_scan(act, hop, k).1 is Some
            && trim_scan(act, hop, k).1->0 >= i * hop + hop by {
            if i < k - 1 {
                assert(i * hop + hop <= (k - 1) * hop) by (nonlinear_arith)
                    requires
                        i < k - 1,
                ;
            }
        }
    }
}

/// Law: edge trimming keeps all sound: the part kept starts no later than
/// any active frame and ends no earlier than the end of any active frame
/// (or the waveform).
pub proof fn law_trim_keeps_sound(act: Seq<bool>, len: usize, k: int)
    requires
        covers_trim_frames(act.len(), TRIM_HOP as nat, len as nat),
        len + TRIM_HOP + KEEP_EDGE <= usize::MAX,
        0 <= k < act.len(),
        act[k],
    ensures
        trim_spec(act, TRIM_HOP as nat, len, KEEP_EDGE).0 <= k * TRIM_HOP,
        trim_spec(act, TRIM_HOP as nat, len, KEEP_EDGE).1 >= if k * TRIM_HOP + TRIM_HOP < len {
            k * TRIM_HOP + TRIM_HOP
        } else {
            len as int
        },
{
    let n = act.len();
    assert(n * TRIM_HOP <= len + TRIM_HOP) by (nonlinear_arith)
        requires
            n == (len as int) / 128 + 1,
    ;
    lemma_trim_scan_covers(act, TRIM_HOP as nat, n);
    lemma_trim_scan(act, TRIM_HOP as nat, n);
    if len == 0 {
        assert(n == 1);
    }
}

proof fn lemma_trim_scan_exact(act: Seq<bool>, hop: nat, kf: int, kl: int, k: nat)
    requires
        k <= act.len(),
        k * hop <= usize::MAX,
        0 <= kf <= kl < act.len(),
        act[kf],
        act[kl],
        forall|j: int| 0 <= j < kf ==> !#[trigger] act[j],
        forall|j: int| kl < j < act.len() ==> !#[trigger] act[j],
    ensures
        k <= kf ==> trim_scan(act, hop, k).0 is None,
        k > kf ==> trim_scan(act, hop, k).0 == Some((kf * hop) as usize),
        k > kl ==> trim_scan(act, hop, k).1 == Some(((kl + 1) * hop) as usize),
    decreases k,
{
    if k > 0 {
        assert((k - 1) * hop <= k * hop) by (nonlinear_arith);
        lemma_trim_scan_exact(act, hop, kf, kl, (k - 1) as nat);
    }
}

/// Law: when some frame holds sound, edge trimming keeps from `keep_edge`
/// before the start of the first active frame (at least 0) to `keep_edge`
/// after the end of the last active frame (at most `len`), each bound set
/// by its own frame alone.
pub proof fn law_trim_bounds_follow_sound(act: Seq<bool>, len: usize, kf: int, kl: int)
    requires
        covers_trim_frames(act.len(), TRIM_HOP as nat, len as nat),
        len + TRIM_HOP + KEEP_EDGE <= usize::MAX,
        len > 0,
        0 <= kf <= kl < act.len(),
        act[kf],
        act[kl],
        forall|j: int| 0 <= j < kf ==> !#[trigger] act[j],
        forall|j: int| kl < j < act.len() ==> !#[trigger] act[j],
    ensures
        trim_spec(act, TRIM_HOP as nat, len, KEEP_EDGE).0 == if kf * 128 > 2400 {
            kf * 128 - 2400
        } else {
            0
        },
        trim_spec(act, TRIM_HOP as nat, len, KEEP_EDGE).1 == if (kl + 1) * 128 + 2400 < len {
            (kl + 1) * 128 + 2400
        } else {
            len as int
        },
{
    let n = act.len();
    assert(n * 128 <= len + 128) by (nonlinear_arith)
        requires
            n == (len as int) / 128 + 1,
    ;
    lemma_trim_scan_exact(act, TRIM_HOP as nat, kf, kl, n);
    assert((kl + 1) * 128 <= n * 128) by (nonlinear_arith)
        requires
            kl < n,
    ;
    assert(kf * 128 <= kl * 128) by (nonlinear_arith)
        requires
            kf <= kl,
    ;
}

proof fn lemma_split_scan_tail(act: Seq<bool>, hop: nat, len: nat, k: int, kk: nat)
    requires
        hop > 0,
        len <= usize::MAX,
        covers_split_frames(act.len(), hop, len),
        0 <= k < act.len(),
        act[k],
        forall|j: int| k < j < act.len() ==> !#[trigger] act[j],
        k + 1 <= kk <= act.len(),
    ensures
        kk == k + 1 ==> split_scan(act, hop, kk).1 is Some && split_scan(act, hop, kk).1->0 <= k
            * hop,
        kk >= k + 2 ==> split_scan(act, hop, kk).1 is None && split_scan(act, hop, kk).0.len() > 0
            && split_scan(act, hop, kk).0.last().1 == (k + 1) * hop && split_scan(act, hop, kk).0.last().0
            <= k * hop,
    decreases kk,
{
    lemma_split_scan(act, hop, len, kk);
    assert((act.len() - 1) * hop < len);
    assert(k * hop <= (act.len() - 1) * hop) by (nonlinear_arith)
        requires
            k <= act.len() - 1,
    ;
    if kk == k + 1 {
        lemma_split_scan(act, hop, len, k as nat);
    } else {
        lemma_split_scan_tail(act, hop, len, k, (kk - 1) as nat);
        if kk == k + 2 {
            assert((k + 1) * hop <= (act.len() - 1) * hop) by (nonlinear_arith)
                requires
                    k + 1 <= act.len() - 1,
            ;
            assert(k * hop + hop == (k + 1) * hop) by (nonlinear_arith);
        }
    }
}

/// Where the last active interval ends: at the start of the frame after
/// the last active frame `k`, or at `len` when `k` is the last frame.
pub open spec fn sound_end(n_frames: nat, hop: nat, len: nat, k: int) -> int {
    if k + 1 < n_frames {
        (k + 1) * hop
    } else {
        len as int
    }
}

/// Where the kept audio ends when `k` is the last active frame: a second
/// after the end of the sound, clipped to the length.
pub open spec fn kept_end(n_frames: nat, len: nat, k: int) -> int {
    let e = sound_end(n_frames, SPLIT_HOP as nat, len, k);
    if e + KEEP_AROUND < len {
        e + KEEP_AROUND
    } else {
        len as int
    }
}

proof fn lemma_split_spec_tail(act: Seq<bool>, len: usize, k: int)
    requires
        covers_split_frames(act.len(), SPLIT_HOP as nat, len as nat),
        0 <= k < act.len(),
        act[k],
        forall|j: int| k < j < act.len() ==> !#[trigger] act[j],
    ensures
        split_spec(act, SPLIT_HOP as nat, len).len() > 0,
        split_spec(act, SPLIT_HOP as nat, len).last().1 == sound_end(act.len(), 512, len as nat, k),
        split_spec(act, SPLIT_HOP as nat, len).last().0 <= k * 512,
{
    let n = act.len();
    lemma_split_scan_tail(act, 512, len as nat, k, n);
}

proof fn lemma_merge_close_last_start(iv: Seq<(usize, usize)>, min_gap: usize, len: nat)
    requires
        intervals_ordered(iv, len),
        iv.len() > 0,
    ensures
        merge_close(iv, min_gap).len() > 0,
        merge_close(iv, min_gap).last().1 == iv.last().1,
        merge_close(iv, min_gap).last().0 <= iv.last().0,
{
    let d = iv.drop_last();
    let m = merge_close(d, min_gap);
    if m.len() > 0 && sat_sub(iv.last().0, m.last().1) < min_gap {
        lemma_ordered_drop_last(iv, len);
        lemma_merge_close(d, min_gap, len);
        lemma_merge_close_last(d, min_gap);
        assert(m[m.len() - 1].0 < m[m.len() - 1].1);
        assert(iv[d.len() - 1].1 < iv[iv.len() - 1].0);
    }
}

/// Law: long-silence removal keeps exactly `KEEP_AROUND` samples after the
/// end of the last sound (fewer where the waveform ends first), and nothing
/// beyond them: the output ends with the samples from somewhere at or before
/// the last active frame up to that point.
pub proof fn law_long_silence_tail<T>(samples: Seq<T>, act: Seq<bool>, k: int)
    requires
        covers_split_frames(act.len(), SPLIT_HOP as nat, samples.len()),
        samples.len() + KEEP_AROUND <= usize::MAX,
        0 <= k < act.len(),
        act[k],
        forall|j: int| k < j < act.len() ==> !#[trigger] act[j],
    ensures
        exists|a: int, front: Seq<T>|
            #![trigger front + samples.subrange(a, kept_end(act.len(), samples.len(), k))]
            0 <= a <= k * 512 && a < kept_end(act.len(), samples.len(), k)
                && remove_long_silence_spec(samples, act) == front + samples.subrange(
                a,
                kept_end(act.len(), samples.len(), k),
            ),
{
    let len = samples.len() as usize;
    let iv = split_spec(act, SPLIT_HOP as nat, len);
    lemma_split_spec_ordered(act, SPLIT_HOP as nat, len);
    lemma_split_spec_tail(act, len, k);
    let m = merge_close(iv, MIN_SILENCE);
    lemma_merge_close_last_start(iv, MIN_SILENCE, len as nat);
    lemma_merge_close(iv, MIN_SILENCE, len as nat);
    lemma_merge_close_gaps(iv, MIN_SILENCE, len as nat);
    lemma_segments_cover(m, MIN_SILENCE, KEEP_AROUND, len, m.len());
    lemma_segments_scan(m, KEEP_AROUND, len, m.len());
    let segs = segments_scan(m, KEEP_AROUND, len, m.len()).0;
    assert(segs == long_silence_segments(iv, MIN_SILENCE, KEEP_AROUND, len));
    let last = segs[segs.len() - 1];
    assert(last == segs.last());
    assert(last.0 <= m[m.len() - 1].0);
    assert(m[m.len() - 1] == m.last());
    let e = sound_end(act.len(), 512, samples.len(), k);
    assert(last.1 == min_usize((m.last().1 + KEEP_AROUND) as usize, len));
    assert(m.last().1 == e);
    let front = gather_spec(samples, segs.drop_last());
    assert(remove_long_silence_spec(samples, act) == front + samples.subrange(last.0 as int, last.1 as int));
    assert(last.1 == kept_end(act.len(), samples.len(), k));
    assert(0 <= last.0 <= k * 512);
    assert(k * 512 <= (act.len() - 1) * 512) by (nonlinear_arith)
        requires k <= act.len() - 1;
}

proof fn lemma_split_scan_head(act: Seq<bool>, hop: nat, len: nat, k: int, kk: nat)
    requires
        hop > 0,
        len <= usize::MAX,
        covers_split_frames(act.len(), hop, len),
        0 <= k < act.len(),
        act[k],
        forall|j: int| 0 <= j < k ==> !#[trigger] act[j],
        kk <= act.len(),
    ensures
        kk <= k ==> split_scan(act, hop, kk) == (Seq::<(usize, usize)>::empty(), None::<usize>),
        kk > k ==> (split_scan(act, hop, kk).0.len() > 0 && split_scan(act, hop, kk).0[0].0 == k * hop)
            || (split_scan(act, hop, kk).0.len() == 0 && split_scan(act, hop, kk).1 == Some((k * hop) as usize)),
    decreases kk,
{
    if kk > 0 {
        lemma_split_scan_head(act, hop, len, k, (kk - 1) as nat);
        assert(k * hop <= (act.len() - 1) * hop) by (nonlinear_arith)
            requires
                k <= act.len() - 1,
        ;
        let prev = split_scan(act, hop, (kk - 1) as nat);
        let r = split_scan(act, hop, kk);
        if prev.0.len() > 0 && kk > k + 1 {
            assert(r.0.len() > 0 && r.0[0] == prev.0[0]);
        }
    }
}

proof fn lemma_merge_close_first(iv: Seq<(usize, usize)>, min_gap: usize)
    requires
        iv.len() > 0,
    ensures
        merge_close(iv, min_gap).len() > 0,
        merge_close(iv, min_gap)[0].0 == iv[0].0,
    decreases iv.len(),
{
    let d = iv.drop_last();
    if d.len() > 0 {
        lemma_merge_close_first(d, min_gap);
        assert(d[0] == iv[0]);
        let m = merge_close(d, min_gap);
        let cur = iv.last();
        let r = merge_close(iv, min_gap);
        if sat_sub(cur.0, m.last().1) < min_gap {
            assert(r == m.update(m.len() - 1, (m.last().0, cur.1)));
            assert(m.last() == m[m.len() - 1]);
            assert(r[0].0 == m[0].0);
        } else {
            assert(r == m.push(cur));
            assert(r[0] == m[0]);
        }
    } else {
        let m = merge_close(d, min_gap);
        assert(m.len() == 0);
        assert(merge_close(iv, min_gap) == m.push(iv.last()));
        assert(merge_close(iv, min_gap)[0] == iv.last());
        assert(iv.last() == iv[0]);
    }
}

proof fn lemma_segments_scan_first(m: Seq<(usize, usize)>, keep: usize, len: usize, k: nat)
    requires
        0 < k <= m.len(),
    ensures
        segments_scan(m, keep, len, k).0.len() > 0,
        segments_scan(m, keep, len, k).0[0] == (
            sat_sub(m[0].0, keep),
            min_usize((m[0].1 + keep) as usize, len),
        ),
    decreases k,
{
    let r = segments_scan(m, keep, len, k);
    let prev = segments_scan(m, keep, len, (k - 1) as nat);
    if k > 1 {
        lemma_segments_scan_first(m, keep, len, (k - 1) as nat);
        assert(r.0[0] == prev.0[0]);
    } else {
        assert(prev.1 == 0);
        assert(r.0[0] == (max_usize(sat_sub(m[0].0, keep), 0), min_usize((m[0].1 + keep) as usize, len)));
    }
}

proof fn lemma_gather_first<T>(s: Seq<T>, segs: Seq<(usize, usize)>)
    requires
        segs.len() > 0,
    ensures
        gather_spec(s, segs) == s.subrange(segs[0].0 as int, segs[0].1 as int) + gather_spec(
            s,
            segs.drop_first(),
        ),
    decreases segs.len(),
{
    let d = segs.drop_last();
    let f = segs.drop_first();
    if d.len() == 0 {
        assert(f.len() == 0);
        assert(gather_spec(s, d) == Seq::<T>::empty());
        assert(gather_spec(s, f) == Seq::<T>::empty());
        assert(segs.last() == segs[0]);
        assert(Seq::<T>::empty() + s.subrange(segs[0].0 as int, segs[0].1 as int) =~= s.subrange(
            segs[0].0 as int,
            segs[0].1 as int,
        ) + Seq::<T>::empty());
    } else {
        lemma_gather_first(s, d);
        assert(d[0] == segs[0]);
        assert(d.drop_first() =~= f.drop_last());
        assert(f.last() == segs.last());
        let a = s.subrange(segs[0].0 as int, segs[0].1 as int);
        let b = gather_spec(s, d.drop_first());
        let c = s.subrange(segs.last().0 as int, segs.last().1 as int);
        assert((a + b) + c =~= a + (b + c));
    }
}

/// Where the kept audio starts when `k` is the first active frame: a second
/// before the start of the sound, or at the first sample.
pub open spec fn kept_start(k: int) -> int {
    if k * 512 > KEEP_AROUND {
        k * 512 - KEEP_AROUND
    } else {
        0
    }
}

/// Law: long-silence removal keeps exactly `KEEP_AROUND` samples before the
/// start of the first sound (fewer where the waveform starts first), and
/// nothing before them: the output begins with the samples from that point
/// on.
pub proof fn law_long_silence_head<T>(samples: Seq<T>, act: Seq<bool>, k: int)
    requires
        covers_split_frames(act.len(), SPLIT_HOP as nat, samples.len()),
        samples.len() + KEEP_AROUND <= usize::MAX,
        0 <= k < act.len(),
        act[k],
        forall|j: int| 0 <= j < k ==> !#[trigger] act[j],
    ensures
        exists|b: int, rest: Seq<T>|
            #![trigger samples.subrange(kept_start(k), b) + rest]
            kept_start(k) < b <= samples.len() && remove_long_silence_spec(samples, act)
                == samples.subrange(kept_start(k), b) + rest,
{
    let len = samples.len() as usize;
    let iv = split_spec(act, SPLIT_HOP as nat, len);
    lemma_split_spec_ordered(act, SPLIT_HOP as nat, len);
    lemma_split_scan_head(act, 512, len as nat, k, act.len());
    assert(iv.len() > 0 && iv[0].0 == k * 512);
    let m = merge_close(iv, MIN_SILENCE);
    lemma_merge_close(iv, MIN_SILENCE, len as nat);
    lemma_merge_close_first(iv, MIN_SILENCE);
    lemma_segments_scan(m, KEEP_AROUND, len, m.len());
    lemma_segments_scan_first(m, KEEP_AROUND, len, m.len());
    let segs = segments_scan(m, KEEP_AROUND, len, m.len()).0;
    assert(segs == long_silence_segments(iv, MIN_SILENCE, KEEP_AROUND, len));
    assert(m[0].0 < m[0].1);
    lemma_gather_first(samples, segs);
    let b = segs[0].1 as int;
    let rest = gather_spec(samples, segs.drop_first());
    assert(segs[0].0 == kept_start(k));
    assert(remove_long_silence_spec(samples, act) == samples.subrange(kept_start(k), b) + rest);
}

/// Whether sample `i` lies within `keep` samples of one of the intervals.
pub open spec fn near_sound(iv: Seq<(usize, usize)>, keep: int, i: int) -> bool {
    exists|j: int| #![trigger iv[j]] 0 <= j < iv.len() && iv[j].0 <= i + keep && i < iv[j].1 + keep
}

/// The first `n` samples that lie within `keep` samples of one of the
/// intervals, in their order.
pub open spec fn samples_near<T>(s: Seq<T>, iv: Seq<(usize, usize)>, keep: int, n: nat) -> Seq<T>
    decreases n,
{
    if n == 0 {
        seq![]
    } else {
        let prev = samples_near(s, iv, keep, (n - 1) as nat);
        if near_sound(iv, keep, n - 1) {
            prev.push(s[n - 1])
        } else {
            prev
        }
    }
}

proof fn lemma_samples_near_run<T>(s: Seq<T>, iv: Seq<(usize, usize)>, keep: int, a: nat, b: nat)
    requires
        a <= b <= s.len(),
        forall|i: int| a <= i < b ==> near_sound(iv, keep, i),
    ensures
        samples_near(s, iv, keep, b) == samples_near(s, iv, keep, a) + s.subrange(a as int, b as int),
    decreases b,
{
    if b > a {
        lemma_samples_near_run(s, iv, keep, a, (b - 1) as nat);
        assert(near_sound(iv, keep, b - 1));
        assert(samples_near(s, iv, keep, a) + s.subrange(a as int, b as int) =~= (samples_near(
            s,
            iv,
            keep,
            a,
        ) + s.subrange(a as int, b - 1)).push(s[b - 1]));
    } else {
        assert(s.subrange(a as int, b as int) =~= Seq::<T>::empty());
        assert(samples_near(s, iv, keep, a) + Seq::<T>::empty() =~= samples_near(s, iv, keep, a));
    }
}

proof fn lemma_samples_near_skip<T>(s: Seq<T>, iv: Seq<(usize, usize)>, keep: int, a: nat, b: nat)
    requires
        a <= b,
        forall|i: int| a <= i < b ==> !near_sound(iv, keep, i),
    ensures
        samples_near(s, iv, keep, b) == samples_near(s, iv, keep, a),
    decreases b,
{
    if b > a {
        lemma_samples_near_skip(s, iv, keep, a, (b - 1) as nat);
        assert(!near_sound(iv, keep, b - 1));
    }
}

#[verifier::spinoff_prover]
proof fn lemma_segments_near<T>(s: Seq<T>, m: Seq<(usize, usize)>, keep: usize, len: usize, k: nat)
    requires
        s.len() == len,
        intervals_ordered(m, len as nat),
        len + keep <= usize::MAX,
        0 < k <= m.len(),
    ensures
        gather_spec(s, segments_scan(m, keep, len, k).0) == samples_near(
            s,
            m,
            keep as int,
            segments_scan(m, keep, len, k).1 as nat,
        ),
    decreases k,
{
    let kp = keep as int;
    lemma_segments_scan(m, keep, len, k);
    let r = segments_scan(m, keep, len, k);
    let prev = segments_scan(m, keep, len, (k - 1) as nat);
    let cur = m[k - 1];
    let seg = r.0.last();
    assert(r.0 == prev.0.push(seg));
    assert(r.0.drop_last() == prev.0);
    assert(seg.0 <= seg.1 && seg.1 <= len) by {
        assert(seg == r.0[k - 1]);
    }
    assert(cur.0 < cur.1 && cur.1 <= len);
    // the samples of the segment all lie near the current interval
    assert forall|i: int| seg.0 <= i < seg.1 implies near_sound(m, kp, i) by {
        assert(m[k - 1].0 <= i + kp && i < m[k - 1].1 + kp);
    }
    lemma_samples_near_run(s, m, kp, seg.0 as nat, seg.1 as nat);
    if k == 1 {
        assert(prev.0 == Seq::<(usize, usize)>::empty());
        assert(gather_spec(s, prev.0) == Seq::<T>::empty());
        assert(seg.0 == sat_sub(cur.0, keep));
        assert forall|i: int| 0 <= i < seg.0 implies !near_sound(m, kp, i) by {
            assert forall|j: int| 0 <= j < m.len() implies !(#[trigger] m[j].0 <= i + kp && i < m[j].1 + kp) by {
                if j > 0 {
                    assert(m[0].1 < m[j].0);
                }
            }
        }
        lemma_samples_near_skip(s, m, kp, 0, seg.0 as nat);
        assert(samples_near(s, m, kp, 0) == Seq::<T>::empty());
    } else {
        lemma_segments_near(s, m, keep, len, (k - 1) as nat);
        lemma_segments_scan(m, keep, len, (k - 1) as nat);
        assert(prev.1 == min_usize((m[k - 2].1 + keep) as usize, len));
        assert(seg.0 == max_usize(sat_sub(cur.0, keep), prev.1));
        // between the previous segment and this one no sample lies near an interval
        assert forall|i: int| prev.1 <= i < seg.0 implies !near_sound(m, kp, i) by {
            assert(i < len);
            assert(i >= m[k - 2].1 + kp);
            assert(i + kp < cur.0);
            assert forall|j: int| 0 <= j < m.len() implies !(#[trigger] m[j].0 <= i + kp && i < m[j].1 + kp) by {
                if j < k - 2 {
                    assert(m[j].1 < m[k - 2].0);
                    assert(m[k - 2].0 < m[k - 2].1);
                } else if j > k - 1 {
                    assert(m[k - 1].1 < m[j].0);
                }
            }
        }
        lemma_samples_near_skip(s, m, kp, prev.1 as nat, seg.0 as nat);
    }
}

proof fn lemma_merge_near(iv: Seq<(usize, usize)>, min_gap: usize, t: int, p: int)
    requires
        0 <= t < merge_close(iv, min_gap).len(),
        merge_close(iv, min_gap)[t].0 <= p + min_gap,
        p < merge_close(iv, min_gap)[t].1 + min_gap,
    ensures
        near_sound(iv, min_gap as int, p),
    decreases iv.len(),
{
    let g = min_gap as int;
    let d = iv.drop_last();
    let m = merge_close(d, min_gap);
    let cur = iv.last();
    let r = merge_close(iv, min_gap);
    let last = iv.len() - 1;
    assert(cur == iv[last]);
    if m.len() > 0 && sat_sub(cur.0, m.last().1) < min_gap {
        if t < m.len() - 1 {
            assert(r[t] == m[t]);
            lemma_merge_close_near_lift(iv, min_gap, t, p);
        } else {
            assert(r[t] == (m.last().0, cur.1));
            if p < m.last().1 + g {
                assert(m.last() == m[m.len() - 1]);
                lemma_merge_close_near_lift(iv, min_gap, m.len() - 1, p);
            } else {
                assert(iv[last].0 <= p + g && p < iv[last].1 + g);
            }
        }
    } else {
        if t < m.len() {
            assert(r[t] == m[t]);
            lemma_merge_close_near_lift(iv, min_gap, t, p);
        } else {
            assert(r[t] == cur);
            assert(iv[last].0 <= p + g && p < iv[last].1 + g);
        }
    }
}

proof fn lemma_merge_close_near_lift(iv: Seq<(usize, usize)>, min_gap: usize, t: int, p: int)
    requires
        iv.len() > 0,
        0 <= t < merge_close(iv.drop_last(), min_gap).len(),
        merge_close(iv.drop_last(), min_gap)[t].0 <= p + min_gap,
        p < merge_close(iv.drop_last(), min_gap)[t].1 + min_gap,
    ensures
        near_sound(iv, min_gap as int, p),
    decreases iv.len(), 0int,
{
    let d = iv.drop_last();
    lemma_merge_near(d, min_gap, t, p);
    let j = choose|j: int| #![trigger d[j]] 0 <= j < d.len() && d[j].0 <= p + min_gap && p < d[j].1 + min_gap;
    assert(d[j] == iv[j]);
}

proof fn lemma_split_scan_some(act: Seq<bool>, hop: nat, k: int, kk: nat)
    requires
        0 <= k < kk <= act.len(),
        act[k],
    ensures
        split_scan(act, hop, kk).0.len() > 0 || split_scan(act, hop, kk).1 is Some,
    decreases kk,
{
    if kk > k + 1 {
        lemma_split_scan_some(act, hop, k, (kk - 1) as nat);
    }
}

proof fn lemma_samples_near_same<T>(s: Seq<T>, a: Seq<(usize, usize)>, b: Seq<(usize, usize)>, keep: int, n: nat)
    requires
        forall|i: int| 0 <= i < n ==> near_sound(a, keep, i) == near_sound(b, keep, i),
    ensures
        samples_near(s, a, keep, n) == samples_near(s, b, keep, n),
    decreases n,
{
    if n > 0 {
        lemma_samples_near_same(s, a, b, keep, (n - 1) as nat);
        assert(near_sound(a, keep, n - 1) == near_sound(b, keep, n - 1));
    }
}

#[verifier::spinoff_prover]
proof fn lemma_merge_near_same(iv: Seq<(usize, usize)>, len: usize)
    requires
        intervals_ordered(iv, len as nat),
    ensures
        forall|i: int|
            near_sound(merge_close(iv, MIN_SILENCE), KEEP_AROUND as int, i) == near_sound(
                iv,
                KEEP_AROUND as int,
                i,
            ),
{
    let kp = KEEP_AROUND as int;
    let m = merge_close(iv, MIN_SILENCE);
    lemma_merge_close_contains(iv, MIN_SILENCE, len as nat);
    assert forall|i: int| near_sound(m, kp, i) == near_sound(iv, kp, i) by {
        if near_sound(m, kp, i) {
            let t = choose|t: int| #![trigger m[t]] 0 <= t < m.len() && m[t].0 <= i + kp && i < m[t].1 + kp;
            lemma_merge_near(iv, MIN_SILENCE, t, i);
        }
        if near_sound(iv, kp, i) {
            let j = choose|j: int| #![trigger iv[j]] 0 <= j < iv.len() && iv[j].0 <= i + kp && i < iv[j].1 + kp;
            let t = choose|t: int| 0 <= t < m.len() && #[trigger] m[t].0 <= #[trigger] iv[j].0 && iv[j].1 <= m[t].1;
            assert(m[t].0 <= i + kp && i < m[t].1 + kp);
        }
    }
}

#[verifier::spinoff_prover]
proof fn lemma_after_last_not_near(m: Seq<(usize, usize)>, len: usize, e: usize)
    requires
        intervals_ordered(m, len as nat),
        m.len() > 0,
        e == min_usize((m.last().1 + KEEP_AROUND) as usize, len),
        len + KEEP_AROUND <= usize::MAX,
    ensures
        forall|i: int| e <= i < len ==> !near_sound(m, KEEP_AROUND as int, i),
{
    let kp = KEEP_AROUND as int;
    assert(m.last() == m[m.len() - 1]);
    let lt = m.len() - 1;
    assert(0 <= lt < m.len());
    assert(m[lt].0 < m[lt].1);
    assert(m[lt].1 <= len);
    assert(e == m.last().1 + kp || e == len);
    assert forall|i: int| e <= i < len implies !near_sound(m, kp, i) by {
        assert(i >= m.last().1 + kp);
        assert forall|j: int| 0 <= j < m.len() implies !(#[trigger] m[j].0 <= i + kp && i < m[j].1 + kp) by {
            if j < m.len() - 1 {
                assert(m[j].1 < m[m.len() - 1].0);
            }
        }
    }
}

/// Law: where some frame holds sound, long-silence removal keeps exactly the
/// samples that lie within `KEEP_AROUND` samples of an active interval, in
/// their order: of a silence of a second or more only a second on each side
/// of the sound stays, and a shorter one stays whole.
#[verifier::spinoff_prover]
pub proof fn law_long_silence_keeps_near_sound<T>(samples: Seq<T>, act: Seq<bool>, k: int)
    requires
        covers_split_frames(act.len(), SPLIT_HOP as nat, samples.len()),
        samples.len() + KEEP_AROUND <= usize::MAX,
        0 <= k < act.len(),
        act[k],
    ensures
        remove_long_silence_spec(samples, act) == samples_near(
            samples,
            split_spec(act, SPLIT_HOP as nat, samples.len() as usize),
            KEEP_AROUND as int,
            samples.len(),
        ),
{
    let len = samples.len() as usize;
    let kp = KEEP_AROUND as int;
    let iv = split_spec(act, SPLIT_HOP as nat, len);
    lemma_split_spec_ordered(act, SPLIT_HOP as nat, len);
    lemma_split_scan_some(act, SPLIT_HOP as nat, k, act.len());
    assert(iv.len() > 0);
    let m = merge_close(iv, MIN_SILENCE);
    lemma_merge_close(iv, MIN_SILENCE, len as nat);
    lemma_segments_scan(m, KEEP_AROUND, len, m.len());
    lemma_segments_near(samples, m, KEEP_AROUND, len, m.len());
    let r = segments_scan(m, KEEP_AROUND, len, m.len());
    assert(r.0 == long_silence_segments(iv, MIN_SILENCE, KEEP_AROUND, len));
    assert(m.last() == m[m.len() - 1]);
    lemma_after_last_not_near(m, len, r.1);
    lemma_samples_near_skip(samples, m, kp, r.1 as nat, len as nat);
    lemma_merge_near_same(iv, len);
    lemma_samples_near_same(samples, m, iv, kp, len as nat);
}

} // verus!
