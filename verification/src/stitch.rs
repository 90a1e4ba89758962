//! The sequence stitcher: given two time-adjacent sample windows for one
//! service and the elapsed time between them, infer how many trailing
//! samples of the current window are genuinely new, merge the one
//! provisional boundary sample, and return the new samples together with
//! the alignment residual.
use vstd::prelude::*;

verus! {

/// Nominal spacing of consecutive samples, in seconds.
pub const DEFAULT_INTERVAL_SECONDS: u64 = 900;

/// Reconciliation tolerance: the largest acceptable mean squared
/// difference between aligned samples, in squared microseconds
/// (1000 squared milliseconds).
pub const DEFAULT_TOLERANCE_SQ_MICROS: u64 = 1_000_000_000;

/// Largest sample value, in microseconds, that the exact residual
/// arithmetic is sized for (2^40 microseconds, about 12 days).
pub const MAX_SAMPLE_MICROS: u64 = 0x100_0000_0000;

/// Largest window length that the exact residual arithmetic is sized for.
pub const MAX_WINDOW_LEN: usize = 0x10_0000;

/// Configuration of the stitcher: the sampling cadence and the
/// reconciliation tolerance.
#[derive(Clone, Copy, Debug)]
pub struct StitchConfig {
    /// Nominal seconds between consecutive samples of a window.
    pub interval_seconds: u64,
    /// Largest acceptable mean squared difference (squared microseconds)
    /// between the aligned parts of two windows.
    pub tolerance_sq_micros: u64,
}

impl StitchConfig {
    pub open spec fn wf(self) -> bool {
        self.interval_seconds >= 1
    }

    /// The reference deployment: 900 s cadence, 1000 ms^2 tolerance.
    pub fn new_default() -> (r: Self)
        ensures
            r.wf(),
            r.interval_seconds == DEFAULT_INTERVAL_SECONDS,
            r.tolerance_sq_micros == DEFAULT_TOLERANCE_SQ_MICROS,
    {
        StitchConfig {
            interval_seconds: DEFAULT_INTERVAL_SECONDS,
            tolerance_sq_micros: DEFAULT_TOLERANCE_SQ_MICROS,
        }
    }
}

/// Why a pair of windows could not be stitched.
#[derive(Clone, Copy, Debug, PartialEq, Eq, Structural)]
pub enum StitchError {
    /// The two windows have different lengths.
    WindowLengthMismatch,
    /// The best alignment's residual exceeds the tolerance.
    ReconciliationError,
}

/// Every sample of the window is small enough for the exact arithmetic.
pub open spec fn window_bounded(w: Seq<u64>) -> bool {
    forall|i: int| 0 <= i < w.len() ==> w[i] < MAX_SAMPLE_MICROS
}

pub open spec fn sq(d: int) -> int {
    d * d
}

/// Sum over `i < n` of the squared difference between `cur[i]` and
/// `prev[keep - 1 + i]`: the residual of aligning the head of the current
/// window against the tail of the previous one under the hypothesis that
/// the last `keep` samples of `cur` are new.
pub open spec fn diff_sq_sum(cur: Seq<u64>, prev: Seq<u64>, keep: int, n: int) -> int
    decreases n,
{
    if n <= 0 {
        0
    } else {
        diff_sq_sum(cur, prev, keep, n - 1) + sq(cur[n - 1] - prev[keep - 1 + n - 1])
    }
}

/// Alignment error of one candidate `keep`, as the pair
/// (sum of squared differences, number of compared samples).
/// A candidate with no overlap at all (`keep >= len`) compares nothing
/// and has error zero.
pub open spec fn cand_err(cur: Seq<u64>, prev: Seq<u64>, keep: int) -> (int, int) {
    if keep >= cur.len() {
        (0, 1)
    } else {
        (diff_sq_sum(cur, prev, keep, cur.len() - keep), cur.len() - keep)
    }
}

/// `e1` has a strictly smaller root-mean-square error than `e2`:
/// sqrt(s1/n1) < sqrt(s2/n2), i.e. s1 * n2 < s2 * n1.
pub open spec fn err_lt(e1: (int, int), e2: (int, int)) -> bool {
    e1.0 * e2.1 < e2.0 * e1.1
}

/// The winning candidate among `m`, `m + 1` and `m + 2`: the one of
/// least root-mean-square error, ties broken towards the smallest.
pub open spec fn chosen_keep(cur: Seq<u64>, prev: Seq<u64>, m: int) -> int {
    let e0 = cand_err(cur, prev, m);
    let e1 = cand_err(cur, prev, m + 1);
    let e2 = cand_err(cur, prev, m + 2);
    let k01 = if err_lt(e1, e0) {
        m + 1
    } else {
        m
    };
    let e01 = if err_lt(e1, e0) {
        e1
    } else {
        e0
    };
    if err_lt(e2, e01) {
        m + 2
    } else {
        k01
    }
}

pub open spec fn spec_max_u64(a: u64, b: u64) -> u64 {
    if a >= b {
        a
    } else {
        b
    }
}

/// The retained samples before the boundary merge: the last `keep`
/// elements of `cur` without `cur`'s own provisional last element.
pub open spec fn stitch_kept(cur: Seq<u64>, keep: int) -> Seq<u64> {
    let len = cur.len() as int;
    let start = if keep >= len {
        0
    } else {
        len - keep
    };
    cur.subrange(start, len - 1)
}

/// The emitted samples.  When the overlap is partial or the candidate
/// disagrees with the clock estimate `m`, the one ambiguous boundary
/// sample is merged conservatively: the first retained sample is replaced
/// by the larger of itself and the previous window's provisional last
/// sample.  When the hypothesis is exact and the windows do not overlap
/// at all, the previous window's provisional sample was never compared,
/// so it is prepended unmodified.
pub open spec fn stitch_new_samples(cur: Seq<u64>, prev: Seq<u64>, keep: int, m: int) -> Seq<u64> {
    let kept = stitch_kept(cur, keep);
    let pl = prev[prev.len() - 1];
    if keep < cur.len() || keep != m {
        if kept.len() == 0 {
            kept
        } else {
            kept.update(0, spec_max_u64(kept[0], pl))
        }
    } else {
        seq![pl] + kept
    }
}

/// The whole stitch, as a mathematical function of the two windows, the
/// elapsed seconds between their timestamps and the configuration.
pub open spec fn stitch_spec(cur: Seq<u64>, prev: Seq<u64>, elapsed: int, cfg: StitchConfig) -> Result<
    (Seq<u64>, (int, int)),
    StitchError,
> {
    if cur.len() != prev.len() {
        Err(StitchError::WindowLengthMismatch)
    } else {
        let m = elapsed / (cfg.interval_seconds as int);
        if m == 0 {
            Ok((Seq::empty(), (0, 1)))
        } else {
            let k = chosen_keep(cur, prev, m);
            let e = cand_err(cur, prev, k);
            if e.0 > (cfg.tolerance_sq_micros as int) * e.1 {
                Err(StitchError::ReconciliationError)
            } else {
                Ok((stitch_new_samples(cur, prev, k, m), e))
            }
        }
    }
}

proof fn lemma_diff_sq_sum_zero(cur: Seq<u64>, prev: Seq<u64>, keep: int, n: int)
    requires
        0 <= n,
        forall|i: int| 0 <= i < n ==> cur[i] == prev[keep - 1 + i],
    ensures
        diff_sq_sum(cur, prev, keep, n) == 0,
    decreases n,
{
    if n > 0 {
        lemma_diff_sq_sum_zero(cur, prev, keep, n - 1);
        assert(cur[n - 1] == prev[keep - 1 + (n - 1)]);
        assert(sq(cur[n - 1] - prev[keep - 1 + n - 1]) == 0) by (nonlinear_arith)
            requires cur[n - 1] == prev[keep - 1 + n - 1],
        ;
    }
}

/// The law of the consistent stream: when two windows of length `len`
/// are cut from one underlying sample sequence `base` at offsets `p` and
/// `p + d`, the elapsed time agrees with the true shift `d`, and no
/// spurious alignment matches (the residuals of the neighbouring
/// candidates are nonzero), the stitch returns exactly
/// `base[p + len - 1 .. p + d + len - 1)` with residual zero: the samples
/// between the previous window's provisional slot (inclusive) and the
/// current one's (exclusive).  Chained over a run, consecutive outputs
/// tile `base` with no gap and no duplicate.
pub proof fn lemma_consistent_stream_stitch(base: Seq<u64>, p: int, d: int, len: int, elapsed: int, cfg: StitchConfig)
    requires
        cfg.wf(),
        0 <= p,
        1 <= d,
        d + 1 < len,
        p + d + len <= base.len(),
        elapsed / (cfg.interval_seconds as int) == d,
        diff_sq_sum(base.subrange(p + d, p + d + len), base.subrange(p, p + len), d, len - d) > 0,
        d + 2 < len ==> diff_sq_sum(
            base.subrange(p + d, p + d + len),
            base.subrange(p, p + len),
            d + 2,
            len - d - 2,
        ) > 0,
    ensures
        stitch_spec(base.subrange(p + d, p + d + len), base.subrange(p, p + len), elapsed, cfg)
            == Ok::<(Seq<u64>, (int, int)), StitchError>(
            (base.subrange(p + len - 1, p + d + len - 1), (0int, len - d - 1)),
        ),
{
    let cur = base.subrange(p + d, p + d + len);
    let prev = base.subrange(p, p + len);
    let n1 = len - d - 1;
    assert forall|i: int| 0 <= i < n1 implies cur[i] == prev[d + i] by {
        assert(cur[i] == base[p + d + i]);
        assert(prev[d + i] == base[p + d + i]);
    }
    lemma_diff_sq_sum_zero(cur, prev, d + 1, n1);
    let e0 = cand_err(cur, prev, d);
    let e1 = cand_err(cur, prev, d + 1);
    let e2 = cand_err(cur, prev, d + 2);
    assert(e1 == (0int, n1));
    assert(err_lt(e1, e0)) by {
        assert(0 * e0.1 == 0 && e0.0 * n1 > 0) by (nonlinear_arith)
            requires
                e0.0 >= 1,
                n1 >= 1,
                e0.1 >= 1,
        ;
    }
    assert(!err_lt(e2, e1)) by {
        if d + 2 < len {
            assert(e2.0 * n1 > 0 && 0 * e2.1 == 0) by (nonlinear_arith)
                requires
                    e2.0 >= 1,
                    n1 >= 1,
            ;
        } else {
            assert(e2 == (0int, 1int));
            assert(0 * n1 == 0 && 0 * 1 == 0) by (nonlinear_arith);
        }
    }
    let k = chosen_keep(cur, prev, d);
    assert(k == d + 1);
    assert(!(0 > (cfg.tolerance_sq_micros as int) * n1)) by {
        assert((cfg.tolerance_sq_micros as int) * n1 >= 0) by (nonlinear_arith)
            requires
                cfg.tolerance_sq_micros as int >= 0,
                n1 >= 1,
        ;
    }
    let kept = stitch_kept(cur, k);
    assert(kept =~= base.subrange(p + len - 1, p + d + len - 1));
    assert(kept[0] == base[p + len - 1]);
    assert(prev[prev.len() - 1] == base[p + len - 1]);
    assert(kept.update(0, spec_max_u64(kept[0], base[p + len - 1])) =~= kept);
    assert(stitch_new_samples(cur, prev, k, d) == base.subrange(p + len - 1, p + d + len - 1));
}

/// Adjacent ranges of one underlying sequence concatenate to the
/// enclosing range: consecutive stitched outputs, which the previous law
/// shows are adjacent ranges of the true sample stream, reconstruct it
/// with no gap and no duplicate.
pub proof fn lemma_stitched_outputs_tile(base: Seq<u64>, a: int, b: int, c: int)
    requires
        0 <= a <= b <= c <= base.len(),
    ensures
        base.subrange(a, b) + base.subrange(b, c) == base.subrange(a, c),
{
    assert(base.subrange(a, b) + base.subrange(b, c) =~= base.subrange(a, c));
}

fn max_u64(a: u64, b: u64) -> (r: u64)
    ensures
        r == spec_max_u64(a, b),
{
    if a >= b {
        a
    } else {
        b
    }
}

proof fn lemma_diff_sq_sum_bound(cur: Seq<u64>, prev: Seq<u64>, keep: int, n: int)
    requires
        window_bounded(cur),
        window_bounded(prev),
        1 <= keep,
        0 <= n <= cur.len() - keep,
        keep - 1 + n <= prev.len(),
    ensures
        0 <= diff_sq_sum(cur, prev, keep, n),
        diff_sq_sum(cur, prev, keep, n) <= n * 0x1_0000_0000_0000_0000_0000,
    decreases n,
{
    if n <= 0 {
        assert(n * 0x1_0000_0000_0000_0000_0000 == 0) by (nonlinear_arith)
            requires n == 0,
        ;
    } else {
        lemma_diff_sq_sum_bound(cur, prev, keep, n - 1);
        let d = cur[n - 1] - prev[keep - 1 + n - 1];
        assert(0 <= sq(d) < 0x1_0000_0000_0000_0000_0000) by (nonlinear_arith)
            requires -0x100_0000_0000 < d < 0x100_0000_0000,
        ;
        assert((n - 1) * 0x1_0000_0000_0000_0000_0000 + 0x1_0000_0000_0000_0000_0000 == n
            * 0x1_0000_0000_0000_0000_0000) by (nonlinear_arith);
    }
}

/// The exact alignment error of one candidate `keep`.
fn cand_err_exec(cur: &Vec<u64>, prev: &Vec<u64>, keep: usize) -> (r: (u128, u64))
    requires
        cur@.len() == prev@.len(),
        cur@.len() <= MAX_WINDOW_LEN,
        1 <= keep,
        window_bounded(cur@),
        window_bounded(prev@),
    ensures
        r.0 as int == cand_err(cur@, prev@, keep as int).0,
        r.1 as int == cand_err(cur@, prev@, keep as int).1,
        r.0 <= 0x10_0000_0000_0000_0000_0000_0000,
        1 <= r.1 <= 0x10_0000,
{
    let len = cur.len();
    if keep >= len {
        return (0, 1);
    }
    let n = len - keep;
    let mut s: u128 = 0;
    let mut i: usize = 0;
    while i < n
        invariant
            cur@.len() == prev@.len(),
            cur@.len() <= MAX_WINDOW_LEN,
            window_bounded(cur@),
            window_bounded(prev@),
            1 <= keep < cur@.len(),
            n == cur@.len() - keep,
            0 <= i <= n,
            s as int == diff_sq_sum(cur@, prev@, keep as int, i as int),
            s <= (i as int) * 0x1_0000_0000_0000_0000_0000,
        decreases n - i,
    {
        let a = cur[i];
        let b = prev[keep - 1 + i];
        let d: u64 = if a >= b {
            a - b
        } else {
            b - a
        };
        proof {
            assert((d as int) * (d as int) == sq(a - b) && sq(a - b)
                < 0x1_0000_0000_0000_0000_0000) by (nonlinear_arith)
                requires
                    d < 0x100_0000_0000,
                    (a >= b && d == a - b) || (a < b && d == b - a),
            ;
        }
        let dsq: u128 = (d as u128) * (d as u128);
        proof {
            assert((i as int) * 0x1_0000_0000_0000_0000_0000 + 0x1_0000_0000_0000_0000_0000 == (i
                + 1) * 0x1_0000_0000_0000_0000_0000) by (nonlinear_arith);
            assert((i + 1) * 0x1_0000_0000_0000_0000_0000 <= 0x10_0000
                * 0x1_0000_0000_0000_0000_0000) by (nonlinear_arith)
                requires i + 1 <= 0x10_0000,
            ;
        }
        s = s + dsq;
        i = i + 1;
    }
    proof {
        assert((n as int) * 0x1_0000_0000_0000_0000_0000 <= 0x10_0000
            * 0x1_0000_0000_0000_0000_0000) by (nonlinear_arith)
            requires n as int <= 0x10_0000,
        ;
    }
    (s, n as u64)
}

/// Whether `e1` has a strictly smaller root-mean-square error than `e2`.
fn err_lt_exec(e1: (u128, u64), e2: (u128, u64)) -> (r: bool)
    requires
        e1.0 <= 0x10_0000_0000_0000_0000_0000_0000,
        e2.0 <= 0x10_0000_0000_0000_0000_0000_0000,
        1 <= e1.1 <= 0x10_0000,
        1 <= e2.1 <= 0x10_0000,
    ensures
        r == err_lt((e1.0 as int, e1.1 as int), (e2.0 as int, e2.1 as int)),
{
    proof {
        assert(e1.0 * e2.1 <= 0x10_0000_0000_0000_0000_0000_0000 * 0x10_0000 && e2.0 * e1.1
            <= 0x10_0000_0000_0000_0000_0000_0000 * 0x10_0000) by (nonlinear_arith)
            requires
                e1.0 <= 0x10_0000_0000_0000_0000_0000_0000,
                e2.0 <= 0x10_0000_0000_0000_0000_0000_0000,
                1 <= e1.1 <= 0x10_0000,
                1 <= e2.1 <= 0x10_0000,
        ;
    }
    let lhs: u128 = e1.0 * (e2.1 as u128);
    let rhs: u128 = e2.0 * (e1.1 as u128);
    lhs < rhs
}

/// Stitch two time-adjacent equal-length sample windows.
///
/// `current` and `previous` are the two windows, most recent sample last,
/// in microseconds; `elapsed_seconds` is the difference of their
/// timestamps.  On success the result holds the genuinely new samples of
/// `current` (with the one provisional boundary sample merged
/// conservatively) and the winning alignment's summed squared residual in
/// squared microseconds.  The result is exactly `stitch_spec`, and never
/// holds more samples than `current` does.
#[verifier::rlimit(100)]
pub fn stitch(current: &Vec<u64>, previous: &Vec<u64>, elapsed_seconds: u64, config: &StitchConfig) -> (r: Result<
    (Vec<u64>, u128),
    StitchError,
>)
    requires
        config.wf(),
        window_bounded(current@),
        window_bounded(previous@),
        1 <= current@.len() <= MAX_WINDOW_LEN,
    ensures
        (r matches Ok(p)) <==> (stitch_spec(current@, previous@, elapsed_seconds as int, *config)
            matches Ok(_)),
        r matches Ok(p) ==> {
            let s = stitch_spec(current@, previous@, elapsed_seconds as int, *config)->Ok_0;
            p.0@ == s.0 && p.1 as int == s.1.0
        },
        r matches Err(e) ==> Err::<(Seq<u64>, (int, int)), StitchError>(e) == stitch_spec(
            current@,
            previous@,
            elapsed_seconds as int,
            *config,
        ),
        r matches Ok(p) ==> p.0@.len() <= current@.len(),
{
    let len = current.len();
    if len != previous.len() {
        return Err(StitchError::WindowLengthMismatch);
    }
    let m64: u64 = elapsed_seconds / config.interval_seconds;
    if m64 == 0 {
        return Ok((Vec::new(), 0));
    }
    if m64 >= len as u64 {
        // No overlap is possible and the candidate equals the clock
        // estimate: surface the predecessor's provisional sample, then
        // everything of `current` but its own provisional tail.
        let ghost m = m64 as int;
        let ghost k = chosen_keep(current@, previous@, m);
        proof {
            assert(cand_err(current@, previous@, m) == (0int, 1int));
            assert(k == m);
        }
        let mut out: Vec<u64> = Vec::new();
        out.push(previous[len - 1]);
        let mut i: usize = 0;
        while i < len - 1
            invariant
                1 <= current@.len(),
                len == current@.len(),
                current@.len() == previous@.len(),
                0 <= i <= current@.len() - 1,
                out@ == seq![previous@[current@.len() - 1]] + current@.subrange(0, i as int),
            decreases len - 1 - i,
        {
            out.push(current[i]);
            i = i + 1;
        }
        proof {
            assert(stitch_kept(current@, k) == current@.subrange(0, current@.len() - 1));
            assert(out@ =~= stitch_new_samples(current@, previous@, k, m));
        }
        return Ok((out, 0));
    }
    let m = m64 as usize;
    let e0 = cand_err_exec(current, previous, m);
    let e1 = cand_err_exec(current, previous, m + 1);
    let e2 = cand_err_exec(current, previous, m + 2);
    let better1 = err_lt_exec(e1, e0);
    let k01 = if better1 {
        m + 1
    } else {
        m
    };
    let e01 = if better1 {
        e1
    } else {
        e0
    };
    let better2 = err_lt_exec(e2, e01);
    let k = if better2 {
        m + 2
    } else {
        k01
    };
    let ew = if better2 {
        e2
    } else {
        e01
    };
    proof {
        assert(k as int == chosen_keep(current@, previous@, m as int));
        assert(ew.0 as int == cand_err(current@, previous@, k as int).0);
        assert(ew.1 as int == cand_err(current@, previous@, k as int).1);
        assert((config.tolerance_sq_micros as u128) * (ew.1 as u128) == (
        config.tolerance_sq_micros as int) * (ew.1 as int) && (config.tolerance_sq_micros as int)
            * (ew.1 as int) <= 0xFFFF_FFFF_FFFF_FFFF * 0x10_0000) by (nonlinear_arith)
            requires
                config.tolerance_sq_micros <= 0xFFFF_FFFF_FFFF_FFFF,
                1 <= ew.1 <= 0x10_0000,
        ;
    }
    if ew.0 > (config.tolerance_sq_micros as u128) * (ew.1 as u128) {
        return Err(StitchError::ReconciliationError);
    }
    // The candidate disagrees with the clock estimate or the overlap is
    // only partial: merge the ambiguous boundary sample conservatively.
    let start = if k >= len {
        0
    } else {
        len - k
    };
    let pl = previous[len - 1];
    let mut out: Vec<u64> = Vec::new();
    if start < len - 1 {
        out.push(max_u64(current[start], pl));
        let mut i = start + 1;
        while i < len - 1
            invariant
                1 <= current@.len(),
                len == current@.len(),
                current@.len() == previous@.len(),
                start < current@.len() - 1,
                start < i <= current@.len() - 1,
                pl == previous@[current@.len() - 1],
                out@ == seq![spec_max_u64(current@[start as int], pl)] + current@.subrange(
                    start + 1,
                    i as int,
                ),
            decreases len - 1 - i,
        {
            out.push(current[i]);
            i = i + 1;
        }
    }
    proof {
        let kept = stitch_kept(current@, k as int);
        if start < len - 1 {
            assert(kept.len() > 0);
            assert(out@ =~= kept.update(0, spec_max_u64(kept[0], pl)));
        } else {
            assert(kept.len() == 0);
            assert(out@ =~= kept);
        }
        assert(out@ == stitch_new_samples(current@, previous@, k as int, m as int));
    }
    Ok((out, ew.0))
}

} // verus!
