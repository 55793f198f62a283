//! Sub-sample period refinement and the full detection cycle.
//!
//! The integer lag from the autocorrelation search is refined against the
//! original fixed-point samples: the fractional position of a zero crossing
//! is found by linear interpolation between the last non-positive and first
//! positive sample, so the refined period is an exact rational number of
//! samples and the frequency an exact rational number of hertz.

use crate::bitstream::{autocorr_post, harmonics_result, Bitstream};
use crate::config::Config;
use crate::zero_cross::{zc_level_at, zc_levels, ZeroCross};
use vstd::prelude::*;

verus! {

/// An exact rational frequency in hertz: `num / den`, both positive.
#[derive(Clone, Copy, PartialEq, Eq, Structural, Debug)]
pub struct Frequency {
    /// Numerator, in hertz times `den`.
    pub num: i128,
    /// Denominator.
    pub den: i128,
}

/// Index of the first strictly positive sample at or after `from`, or
/// `s.len()` when no such sample exists.
pub open spec fn find_pos(s: Seq<i32>, from: int) -> int
    decreases s.len() - from,
{
    if from >= s.len() {
        s.len() as int
    } else if s[from] > 0 {
        from
    } else {
        find_pos(s, from + 1)
    }
}

/// In a window with no strictly positive sample from `from` on, the search
/// exhausts the window.
pub proof fn lemma_find_pos_exhausted(s: Seq<i32>, from: int)
    requires
        0 <= from,
        forall|j: int| from <= j < s.len() ==> s[j] <= 0,
    ensures
        find_pos(s, from) == s.len(),
    decreases s.len() - from,
{
    if from < s.len() {
        lemma_find_pos_exhausted(s, from + 1);
    }
}

/// What the sub-sample refiner returns for a window `s` and integer lag
/// `est`: absent when the lag does not fit the window or either crossing
/// search exhausts the window; otherwise the exact rational frequency
/// `samples_per_second / period`, where the period is the index distance
/// between the two crossings corrected by the interpolated fractional
/// offsets `-prev / (cur - prev)` at each end (absent if that period is not
/// positive).
pub open spec fn refine_spec(cfg: Config, s: Seq<i32>, est: int) -> Option<Frequency> {
    let st = find_pos(s, 0);
    let nx = find_pos(s, est - 1);
    if est < 1 || est >= cfg.buff_size {
        None
    } else if st >= s.len() {
        None
    } else if nx >= s.len() {
        None
    } else {
        let p1 = if st == 0 {
            0
        } else {
            s[st - 1] as int
        };
        let c1 = s[st] as int;
        let d1 = c1 - p1;
        let p2 = if nx == est - 1 {
            p1
        } else {
            s[nx - 1] as int
        };
        let c2 = s[nx] as int;
        let d2 = c2 - p2;
        let n = nx - st;
        let num = n * d1 * d2 + p1 * d2 - p2 * d1;
        if num > 0 {
            Some(
                Frequency {
                    num: (cfg.samples_per_second * d1 * d2) as i128,
                    den: num as i128,
                },
            )
        } else {
            None
        }
    }
}

/// The whole detection cycle, relationally: some score table, best lag and
/// maximum score agree with the autocorrelation search over the binarized
/// window (they are unique), and the result is the refinement of the
/// harmonically corrected best lag.
pub open spec fn pitch_result_matches(cfg: Config, s: Seq<i32>, r: Option<Frequency>) -> bool {
    exists|max_count: u32, est: int, corr: Seq<u32>|
        {
            &&& #[trigger] autocorr_post(
                zc_levels(s),
                cfg,
                cfg.min_period as int,
                max_count,
                est,
                corr,
            )
            &&& r == refine_spec(cfg, s, harmonics_result(corr, cfg, max_count, est))
        }
}

impl Bitstream {
    /// Refines the integer lag `est_index` to an exact rational frequency
    /// from the zero crossings of the original samples.
    pub fn estimate_pitch_with_index(
        cfg: &Config,
        signal: &Vec<i32>,
        est_index: usize,
    ) -> (r: Option<Frequency>)
        requires
            cfg.wf(),
            signal@.len() == cfg.buff_size,
            1 <= est_index,
        ensures
            r == refine_spec(*cfg, signal@, est_index as int),
            r is Some ==> r->0.num > 0 && r->0.den > 0,
    {
        if est_index >= cfg.buff_size {
            return None;
        }
        let buff = cfg.buff_size;
        let mut prev: i32 = 0;
        let mut start_edge_index: usize = 0;
        let mut start_edge = signal[0];
        while start_edge <= 0
            invariant
                cfg.wf(),
                signal@.len() == cfg.buff_size,
                buff == cfg.buff_size,
                start_edge_index < buff,
                start_edge == signal@[start_edge_index as int],
                find_pos(signal@, 0) == find_pos(signal@, start_edge_index as int),
                prev <= 0,
                start_edge_index == 0 ==> prev == 0,
                start_edge_index > 0 ==> prev == signal@[start_edge_index as int - 1],
            decreases buff - start_edge_index,
        {
            prev = start_edge;
            start_edge_index = start_edge_index + 1;
            if start_edge_index >= buff {
                proof {
                    lemma_find_pos_exhausted(signal@, start_edge_index as int);
                }
                return None;
            }
            start_edge = signal[start_edge_index];
        }
        let ghost st = find_pos(signal@, 0);
        proof {
            assert(st == start_edge_index as int);
        }
        let c1 = start_edge;
        let p1v = prev;
        let mut next_edge_index: usize = est_index - 1;
        let mut next_edge = signal[next_edge_index];
        while next_edge <= 0
            invariant
                cfg.wf(),
                signal@.len() == cfg.buff_size,
                buff == cfg.buff_size,
                est_index >= 1,
                next_edge_index < buff,
                next_edge == signal@[next_edge_index as int],
                next_edge_index >= est_index as int - 1,
                find_pos(signal@, est_index as int - 1) == find_pos(
                    signal@,
                    next_edge_index as int,
                ),
                prev <= 0,
                next_edge_index == est_index - 1 ==> prev == p1v,
                next_edge_index > est_index - 1 ==> prev == signal@[next_edge_index as int - 1],
                p1v <= 0,
                st == find_pos(signal@, 0),
                st == start_edge_index as int,
                start_edge_index < buff,
                c1 == signal@[st] && c1 > 0,
                start_edge_index == 0 ==> p1v == 0,
                start_edge_index > 0 ==> p1v == signal@[st - 1],
            decreases buff - next_edge_index,
        {
            prev = next_edge;
            next_edge_index = next_edge_index + 1;
            if next_edge_index >= buff {
                proof {
                    lemma_find_pos_exhausted(signal@, next_edge_index as int);
                }
                return None;
            }
            next_edge = signal[next_edge_index];
        }
        let ghost nx = find_pos(signal@, est_index as int - 1);
        proof {
            assert(nx == next_edge_index as int);
        }
        let c2 = next_edge;
        let p2v = prev;
        let d1: i128 = c1 as i128 - p1v as i128;
        let d2: i128 = c2 as i128 - p2v as i128;
        let n: i128 = next_edge_index as i128 - start_edge_index as i128;
        proof {
            assert(0 < d1 <= 0x1_0000_0000int && 0 < d2 <= 0x1_0000_0000int);
            assert(-0x10000int <= n <= 0x10000int);
            assert(-0x1_0000_0000_0000_0000int <= n * d1 <= 0x1_0000_0000_0000_0000int)
                by (nonlinear_arith)
                requires
                    0 < d1 <= 0x1_0000_0000int,
                    -0x10000int <= n <= 0x10000int,
            ;
            assert(0 < (cfg.samples_per_second as int) * d1 <= 0x4_0000_0000_0000_0000int)
                by (nonlinear_arith)
                requires
                    0 < d1 <= 0x1_0000_0000int,
                    0 < cfg.samples_per_second as int <= 0x4000_0000int,
            ;
            assert(-0x1_0000_0000_0000_0000_0000_0000int <= n * d1 * d2
                <= 0x1_0000_0000_0000_0000_0000_0000int) by (nonlinear_arith)
                requires
                    0 < d1 <= 0x1_0000_0000int,
                    0 < d2 <= 0x1_0000_0000int,
                    -0x10000int <= n <= 0x10000int,
            ;
            assert(-0x8000_0000_0000_0000_0000int <= (p1v as int) * d2
                <= 0x8000_0000_0000_0000_0000int) by (nonlinear_arith)
                requires
                    0 < d2 <= 0x1_0000_0000int,
                    -0x8000_0000int <= p1v as int <= 0x8000_0000int,
            ;
            assert(-0x8000_0000_0000_0000_0000int <= (p2v as int) * d1
                <= 0x8000_0000_0000_0000_0000int) by (nonlinear_arith)
                requires
                    0 < d1 <= 0x1_0000_0000int,
                    -0x8000_0000int <= p2v as int <= 0x8000_0000int,
            ;
            assert(0 < d1 * d2 <= 0x1_0000_0000_0000_0000int) by (nonlinear_arith)
                requires
                    0 < d1 <= 0x1_0000_0000int,
                    0 < d2 <= 0x1_0000_0000int,
            ;
            assert(0 < (cfg.samples_per_second as int) * d1 * d2
                <= 0x4000_0000_0000_0000_0000_0000_0000int) by (nonlinear_arith)
                requires
                    0 < d1 <= 0x1_0000_0000int,
                    0 < d2 <= 0x1_0000_0000int,
                    0 < cfg.samples_per_second as int <= 0x4000_0000int,
            ;
        }
        let num: i128 = n * d1 * d2 + (p1v as i128) * d2 - (p2v as i128) * d1;
        if num > 0 {
            let freq_num: i128 = (cfg.samples_per_second as i128) * d1 * d2;
            Some(Frequency { num: freq_num, den: num })
        } else {
            None
        }
    }

    /// One full detection cycle on a window of fixed-point samples: binarize
    /// through a fresh hysteresis detector, pack into a fresh bitstream, find
    /// the most self-similar lag, correct octave errors, and refine the lag
    /// against the original samples.  Absent exactly when the refiner finds
    /// no usable pair of zero crossings.
    pub fn estimate_pitch(cfg: &Config, signal: &Vec<i32>) -> (r: Option<Frequency>)
        requires
            cfg.wf(),
            signal@.len() == cfg.buff_size,
        ensures
            pitch_result_matches(*cfg, signal@, r),
            r is Some ==> r->0.num > 0 && r->0.den > 0,
    {
        let mut zc = ZeroCross::new();
        let mut bs = Bitstream::new(cfg);
        let mut i: usize = 0;
        proof {
            assert(!zc_level_at(signal@, -1));
        }
        while i < cfg.buff_size
            invariant
                cfg.wf(),
                signal@.len() == cfg.buff_size,
                bs.bits@.len() == cfg.array_size,
                bs@.len() == cfg.buff_size,
                i <= cfg.buff_size,
                zc.y == zc_level_at(signal@, i as int - 1),
                forall|j: int| 0 <= j < i ==> bs@[j] == zc_level_at(signal@, j),
            decreases cfg.buff_size - i,
        {
            let b = zc.run(signal[i]);
            proof {
                assert(zc.y == zc_level_at(signal@, i as int));
            }
            bs.set(i, b);
            i = i + 1;
        }
        proof {
            assert(bs@ =~= zc_levels(signal@));
        }
        let (count, est_index, corr) = bs.autocorrelate(cfg, cfg.min_period);
        let est2 = Self::handle_harmonics(cfg, count, est_index, &corr);
        let r = Self::estimate_pitch_with_index(cfg, signal, est2);
        proof {
            assert(autocorr_post(
                zc_levels(signal@),
                *cfg,
                cfg.min_period as int,
                count,
                est_index as int,
                corr@,
            ));
            assert(r == refine_spec(
                *cfg,
                signal@,
                harmonics_result(corr@, *cfg, count, est_index as int),
            ));
        }
        r
    }
}

/// Determinism: the relational description of one detection cycle admits a
/// single result, so for a fixed window and configuration the estimate is a
/// pure function of its inputs.
pub proof fn lemma_estimate_pitch_deterministic(
    cfg: Config,
    s: Seq<i32>,
    r1: Option<Frequency>,
    r2: Option<Frequency>,
)
    requires
        pitch_result_matches(cfg, s, r1),
        pitch_result_matches(cfg, s, r2),
    ensures
        r1 == r2,
{
    let start = cfg.min_period as int;
    let (m1, e1, c1) = choose|m: u32, e: int, c: Seq<u32>|
        {
            &&& #[trigger] autocorr_post(zc_levels(s), cfg, start, m, e, c)
            &&& r1 == refine_spec(cfg, s, harmonics_result(c, cfg, m, e))
        };
    let (m2, e2, c2) = choose|m: u32, e: int, c: Seq<u32>|
        {
            &&& #[trigger] autocorr_post(zc_levels(s), cfg, start, m, e, c)
            &&& r2 == refine_spec(cfg, s, harmonics_result(c, cfg, m, e))
        };
    assert(c1 =~= c2) by {
        assert forall|l: int| 0 <= l < c1.len() implies c1[l] == c2[l] by {
            if l >= start {
                assert(c1[l] as nat == c2[l] as nat);
            }
        }
    }
    assert(e1 == e2) by {
        if e1 < e2 {
            assert(c2[e1] > c2[e2]);
            assert(c1[e1] <= c1[e2]);
            assert(false);
        }
        if e2 < e1 {
            assert(c1[e2] > c1[e1]);
            assert(c2[e2] <= c2[e1]);
            assert(false);
        }
    }
    assert(m1 == m2) by {
        let l1 = choose|l: int| start <= l < cfg.mid_pos && c1[l] == m1;
        let l2 = choose|l: int| start <= l < cfg.mid_pos && c2[l] == m2;
        assert(c2[l1] <= m2);
        assert(c1[l2] <= m1);
    }
}

/// A strictly positive (DC-offset) window never triggers a falling edge, so
/// no meaningful crossing pair exists; the refiner degenerates: both
/// interpolated offsets are zero and the result is the rational
/// `samples_per_second / (est - 1)` rather than an absent one.
pub proof fn lemma_positive_window_degenerate(cfg: Config, s: Seq<i32>, est: int)
    requires
        cfg.wf(),
        s.len() == cfg.buff_size,
        forall|j: int| 0 <= j < s.len() ==> s[j] > 0,
        2 <= est < cfg.buff_size,
    ensures
        refine_spec(cfg, s, est) == Some(
            Frequency {
                num: (cfg.samples_per_second * (s[0] as int) * (s[est - 1] as int)) as i128,
                den: ((est - 1) * (s[0] as int) * (s[est - 1] as int)) as i128,
            },
        ),
{
    assert(find_pos(s, 0) == 0);
    assert(find_pos(s, est - 1) == est - 1);
    let d1 = s[0] as int;
    let d2 = s[est - 1] as int;
    assert(0 < (est - 1) * d1 * d2 <= 0x1_0000_0000_0000_0000_0000_0000int) by (nonlinear_arith)
        requires
            0 < d1 <= 0x8000_0000int,
            0 < d2 <= 0x8000_0000int,
            1 <= est - 1 <= 0x10000int,
    ;
}

/// Silence: a window with no strictly positive sample has no zero crossing,
/// so the detection cycle reports no pitch at all.
pub proof fn lemma_silent_window_absent(cfg: Config, s: Seq<i32>, r: Option<Frequency>)
    requires
        cfg.wf(),
        s.len() == cfg.buff_size,
        forall|j: int| 0 <= j < s.len() ==> s[j] == 0,
        pitch_result_matches(cfg, s, r),
    ensures
        r is None,
{
    let start = cfg.min_period as int;
    let (m1, e1, c1) = choose|m: u32, e: int, c: Seq<u32>|
        {
            &&& #[trigger] autocorr_post(zc_levels(s), cfg, start, m, e, c)
            &&& r == refine_spec(cfg, s, harmonics_result(c, cfg, m, e))
        };
    lemma_find_pos_exhausted(s, 0);
    let est = harmonics_result(c1, cfg, m1, e1);
    if 1 <= est < cfg.buff_size {
        lemma_find_pos_exhausted(s, est - 1);
    }
}

} // verus!
