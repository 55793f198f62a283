//! Fixed-capacity packed-bit container and the bitwise autocorrelation
//! search, with its octave (sub-harmonic) correction.

use crate::bits::{
    bit_of, lemma_flat_index, lemma_index_decompose,
    lemma_mask_test, lemma_masked_write, lemma_pop_below_bound, lemma_recombine, lemma_xor_bits,
    lemma_zero_word_bits, pop_below, popcount, u32_bit,
};
use crate::config::Config;
use vstd::prelude::*;

verus! {

/// A binarized window packed 32 bits to the word; stream bit `i` is bit
/// `i % 32` of word `i / 32`.
pub struct Bitstream {
    /// The packed words.
    pub bits: Vec<u32>,
}

impl View for Bitstream {
    type V = Seq<bool>;

    open spec fn view(&self) -> Seq<bool> {
        Seq::new(32 * self.bits@.len(), |i: int| bit_of(self.bits@, i))
    }
}

/// Number of positions `i` in `[0, n)` at which stream bits `i` and
/// `i + lag` differ: the Hamming distance between the stream and its copy
/// shifted left by `lag`, over the first `n` positions.
pub open spec fn diff_count(bs: Seq<bool>, lag: int, n: int) -> nat
    decreases n,
{
    if n <= 0 {
        0
    } else {
        diff_count(bs, lag, n - 1) + if bs[n - 1] != bs[n - 1 + lag] {
            1nat
        } else {
            0nat
        }
    }
}

pub proof fn lemma_diff_count_bound(bs: Seq<bool>, lag: int, n: int)
    requires
        0 <= n,
    ensures
        diff_count(bs, lag, n) <= n,
    decreases n,
{
    if n > 0 {
        lemma_diff_count_bound(bs, lag, n - 1);
    }
}

/// One compared word advances the running Hamming distance by the
/// population count of `x ^ v`, when `x` carries stream bits
/// `base..base + 32` and `v` the bits `lag` further on.
proof fn lemma_diff_block(bs: Seq<bool>, lag: int, x: u32, v: u32, base: int, j: int)
    requires
        0 <= base,
        0 <= lag,
        0 <= j <= 32,
        base + 32 + lag <= bs.len(),
        forall|m: u32| m < 32 ==> #[trigger] u32_bit(x, m) == bs[base + m],
        forall|m: u32| m < 32 ==> #[trigger] u32_bit(v, m) == bs[base + lag + m],
    ensures
        diff_count(bs, lag, base + j) == diff_count(bs, lag, base) + pop_below(x ^ v, j),
    decreases j,
{
    if j > 0 {
        lemma_diff_block(bs, lag, x, v, base, j - 1);
        lemma_xor_bits(x, v);
        assert(u32_bit(x, (j - 1) as u32) == bs[base + (j - 1)]);
        assert(u32_bit(v, (j - 1) as u32) == bs[base + lag + (j - 1)]);
    }
}

/// Everything the autocorrelation search promises about its result.
///
/// The score table `corr` holds the Hamming distance at every lag in
/// `[start, mid_pos)` (and zero elsewhere); `est` is the lag of the smallest
/// score, the earliest such lag on a tie, because the scan updates only on a
/// strict improvement; `max_count` is the largest score in the table.  These
/// clauses determine `corr`, `est` and `max_count` uniquely.
pub open spec fn autocorr_post(
    bs: Seq<bool>,
    cfg: Config,
    start: int,
    max_count: u32,
    est: int,
    corr: Seq<u32>,
) -> bool {
    &&& corr.len() == cfg.mid_pos
    &&& (forall|l: int| 0 <= l < start ==> corr[l] == 0u32)
    &&& (forall|l: int|
        start <= l < cfg.mid_pos ==> corr[l] as nat == diff_count(bs, l, 32 * cfg.mid_array))
    &&& start <= est < cfg.mid_pos
    &&& (forall|l: int| start <= l < cfg.mid_pos ==> corr[est] <= corr[l])
    &&& (forall|l: int| start <= l < est ==> corr[est] < corr[l])
    &&& (forall|l: int| start <= l < cfg.mid_pos ==> corr[l] <= max_count)
    &&& (exists|l: int| start <= l < cfg.mid_pos && corr[l] == max_count)
}

/// Scores at or below this fraction (15%) of the largest score count as
/// "strong" self-similarity when probing sub-periods.
pub open spec fn sub_threshold(max_count: u32) -> int {
    3 * max_count / 20
}

/// Every multiple `k * (est / div)` of the candidate sub-period, for `k` in
/// `1..div`, scores at or below the threshold.
pub open spec fn all_strong(corr: Seq<u32>, est: int, thr: int, div: int) -> bool {
    forall|k: int| 1 <= k < div ==> #[trigger] corr[k * (est / div)] <= thr
}

/// The divisor the corrector settles on: scanning from `div` down, the first
/// divisor all of whose sub-period multiples are strong; 1 if none is.
pub open spec fn pick_div(corr: Seq<u32>, est: int, thr: int, div: int) -> int
    decreases div,
{
    if div <= 1 {
        1
    } else if all_strong(corr, est, thr, div) {
        div
    } else {
        pick_div(corr, est, thr, div - 1)
    }
}

/// The corrected lag: the best lag divided by the chosen divisor, candidates
/// ranging up to `est / min_period` so the result never falls below the
/// shortest admissible period.
pub open spec fn harmonics_result(corr: Seq<u32>, cfg: Config, max_count: u32, est: int) -> int {
    est / pick_div(corr, est, sub_threshold(max_count), est / cfg.min_period as int)
}

/// `1 <= b <= x / a` implies `x / b >= a` (for positive `a`): dividing by a
/// divisor no larger than `x / a` cannot drop below `a`.
proof fn lemma_div_bound_swap(x: int, a: int, b: int)
    requires
        0 <= x,
        1 <= a,
        1 <= b <= x / a,
    ensures
        x / b >= a,
{
    vstd::arithmetic::div_mod::lemma_remainder_lower(x, a);
    vstd::arithmetic::mul::lemma_mul_inequality(b, x / a, a);
    assert(b * a <= x);
    vstd::arithmetic::div_mod::lemma_div_is_ordered(b * a, x, b);
    vstd::arithmetic::div_mod::lemma_div_multiples_vanish(a, b);
    assert((b * a) / b == a);
}

impl Bitstream {
    /// All-clear bitstream sized for one window of `cfg`.
    pub fn new(cfg: &Config) -> (r: Self)
        requires
            cfg.wf(),
        ensures
            r.bits@.len() == cfg.array_size,
            r@.len() == cfg.buff_size,
            forall|i: int| 0 <= i < r@.len() ==> !r@[i],
    {
        let mut bits: Vec<u32> = Vec::new();
        let mut k: usize = 0;
        while k < cfg.array_size
            invariant
                bits@.len() == k,
                k <= cfg.array_size,
                forall|j: int| 0 <= j < k ==> bits@[j] == 0u32,
            decreases cfg.array_size - k,
        {
            bits.push(0);
            k = k + 1;
        }
        let r = Bitstream { bits };
        proof {
            lemma_zero_word_bits();
            assert forall|i: int| 0 <= i < r@.len() implies !r@[i] by {
                lemma_flat_index(i, r.bits@.len() as int);
            }
        }
        r
    }

    /// Writes bit `i` in place by word-level masking; every other bit of the
    /// stream is untouched.
    pub fn set(&mut self, i: usize, val: bool)
        requires
            i < old(self)@.len(),
        ensures
            final(self)@ == old(self)@.update(i as int, val),
            final(self).bits@.len() == old(self).bits@.len(),
    {
        proof {
            lemma_flat_index(i as int, self.bits@.len() as int);
        }
        let idx = i / 32;
        let sh = (i % 32) as u32;
        let w = self.bits[idx];
        let id: u32 = if val {
            0xffff_ffffu32
        } else {
            0u32
        };
        let w2 = w ^ ((id ^ w) & (1u32 << sh));
        self.bits.set(idx, w2);
        proof {
            lemma_masked_write(w, id, sh, val);
            assert forall|j: int|
                0 <= j < self@.len() implies self@[j] == old(self)@.update(i as int, val)[j] by {
                lemma_flat_index(j, self.bits@.len() as int);
                lemma_flat_index(i as int, self.bits@.len() as int);
            }
            assert(self@ =~= old(self)@.update(i as int, val));
        }
    }

    /// Dissimilarity search over every candidate lag in `[start_pos, mid_pos)`.
    ///
    /// For each lag the score is the Hamming distance between the stream and
    /// its lag-shifted copy over `32 * mid_array` positions, computed with a
    /// running word/bit offset so each lag costs one sweep of whole-word XOR
    /// and population counts.  Returns `(max_count, est_index, corr)`:
    /// `corr` is the score table, `est_index` the lag of the smallest score
    /// (the earliest on a tie) and `max_count` the largest score.
    pub fn autocorrelate(&self, cfg: &Config, start_pos: usize) -> (r: (u32, usize, Vec<u32>))
        requires
            cfg.wf(),
            self.bits@.len() == cfg.array_size,
            1 <= start_pos < cfg.mid_pos,
        ensures
            autocorr_post(self@, *cfg, start_pos as int, r.0, r.1 as int, r.2@),
    {
        let mid_pos = cfg.mid_pos;
        let mid_array = cfg.mid_array;
        let mut corr: Vec<u32> = Vec::new();
        let mut z: usize = 0;
        while z < mid_pos
            invariant
                corr@.len() == z,
                z <= mid_pos,
                forall|l: int| 0 <= l < z ==> corr@[l] == 0u32,
            decreases mid_pos - z,
        {
            corr.push(0);
            z = z + 1;
        }
        let mut max_count: u32 = 0;
        let mut min_count: u32 = 0xffff_ffffu32;
        let mut est_index: usize = 0;
        let mut index: usize = start_pos / 32;
        let mut shift: usize = start_pos % 32;
        proof {
            lemma_flat_index(start_pos as int, (cfg.mid_pos + cfg.mid_pos) as int);
        }
        let mut pos: usize = start_pos;
        while pos < mid_pos
            invariant
                cfg.wf(),
                self.bits@.len() == cfg.array_size,
                mid_pos == cfg.mid_pos,
                mid_array == cfg.mid_array,
                1 <= start_pos <= pos <= mid_pos,
                corr@.len() == mid_pos,
                32 * index + shift == pos,
                shift < 32,
                forall|l: int| 0 <= l < start_pos ==> corr@[l] == 0u32,
                forall|l: int| pos <= l < mid_pos ==> corr@[l] == 0u32,
                forall|l: int|
                    start_pos <= l < pos ==> corr@[l] as nat == diff_count(
                        self@,
                        l,
                        32 * cfg.mid_array,
                    ),
                pos == start_pos ==> min_count == 0xffff_ffffu32 && max_count == 0,
                pos > start_pos ==> {
                    &&& start_pos <= est_index < pos
                    &&& corr@[est_index as int] == min_count
                    &&& forall|l: int| start_pos <= l < pos ==> min_count <= corr@[l]
                    &&& forall|l: int| start_pos <= l < est_index ==> min_count < corr@[l]
                    &&& forall|l: int| start_pos <= l < pos ==> corr@[l] <= max_count
                    &&& exists|l: int| start_pos <= l < pos && corr@[l] == max_count
                },
            decreases mid_pos - pos,
        {
            let mut p1: usize = 0;
            let mut p2: usize = index;
            let mut count: u32 = 0;
            proof {
                assert(32 * index < 32 * (cfg.mid_array + 1));
            }
            if shift == 0 {
                while p1 < mid_array
                    invariant
                        cfg.wf(),
                        self.bits@.len() == cfg.array_size,
                        mid_array == cfg.mid_array,
                        p1 <= mid_array,
                        p2 == index + p1,
                        index <= cfg.mid_array,
                        32 * index == pos,
                        pos < cfg.mid_pos,
                        count as nat == diff_count(self@, pos as int, 32 * p1),
                        count <= 32 * p1,
                    decreases mid_array - p1,
                {
                    let x = self.bits[p1];
                    let v = self.bits[p2];
                    proof {
                        assert forall|m: u32| m < 32 implies #[trigger] u32_bit(x, m) == self@[32
                            * (p1 as int) + m] by {
                            lemma_index_decompose(p1 as int, m as int);
                        }
                        assert forall|m: u32| m < 32 implies #[trigger] u32_bit(v, m) == self@[32
                            * (p1 as int) + pos + m] by {
                            lemma_index_decompose(p2 as int, m as int);
                        }
                        lemma_diff_block(self@, pos as int, x, v, 32 * (p1 as int), 32);
                        lemma_pop_below_bound(x ^ v, 32);
                    }
                    count = count + popcount(x ^ v);
                    p1 = p1 + 1;
                    p2 = p2 + 1;
                }
            } else {
                let shift_u: u32 = shift as u32;
                let shift2: u32 = 32 - shift_u;
                while p1 < mid_array
                    invariant
                        cfg.wf(),
                        self.bits@.len() == cfg.array_size,
                        mid_array == cfg.mid_array,
                        p1 <= mid_array,
                        p2 == index + p1,
                        index <= cfg.mid_array,
                        0 < shift_u < 32,
                        shift2 == 32 - shift_u,
                        32 * index + shift_u == pos,
                        pos < cfg.mid_pos,
                        count as nat == diff_count(self@, pos as int, 32 * p1),
                        count <= 32 * p1,
                    decreases mid_array - p1,
                {
                    let x = self.bits[p1];
                    let a = self.bits[p2];
                    let b = self.bits[p2 + 1];
                    let v = (a >> shift_u) | (b << shift2);
                    proof {
                        lemma_recombine(a, b, shift_u);
                        assert forall|m: u32| m < 32 implies #[trigger] u32_bit(x, m) == self@[32
                            * (p1 as int) + m] by {
                            lemma_index_decompose(p1 as int, m as int);
                        }
                        assert forall|m: u32| m < 32 implies #[trigger] u32_bit(v, m) == self@[32
                            * (p1 as int) + pos + m] by {
                            let vv = (a >> shift_u) | (b << (32 - shift_u) as u32);
                            assert(vv == v);
                            if m + shift_u < 32 {
                                assert(u32_bit(vv, m) == u32_bit(a, (m + shift_u) as u32));
                                lemma_index_decompose(p2 as int, m + shift_u);
                            } else {
                                assert(u32_bit(vv, m) == u32_bit(b, (m + shift_u - 32) as u32));
                                lemma_index_decompose(p2 as int + 1, m + shift_u - 32);
                            }
                        }
                        lemma_diff_block(self@, pos as int, x, v, 32 * (p1 as int), 32);
                        lemma_pop_below_bound(x ^ v, 32);
                    }
                    count = count + popcount(x ^ v);
                    p1 = p1 + 1;
                    p2 = p2 + 1;
                }
            }
            shift = shift + 1;
            if shift == 32 {
                shift = 0;
                index = index + 1;
            }
            let ghost corr0 = corr@;
            let ghost old_max = max_count;
            corr.set(pos, count);
            proof {
                lemma_diff_count_bound(self@, pos as int, 32 * cfg.mid_array);
                assert(corr@ == corr0.update(pos as int, count));
                assert(count <= 32 * cfg.mid_array);
                assert(count < 0xffff_ffffu32);
            }
            if count > max_count {
                max_count = count;
            }
            if count < min_count {
                min_count = count;
                est_index = pos;
            }
            proof {
                if pos > start_pos {
                    let lw = choose|l: int| start_pos <= l < pos && corr0[l] == old_max;
                    assert(corr@[lw] == old_max);
                    assert(exists|l: int| start_pos <= l < pos + 1 && corr@[l] == max_count) by {
                        if count > old_max {
                            assert(corr@[pos as int] == max_count);
                        } else {
                            assert(corr@[lw] == max_count);
                        }
                    }
                } else {
                    assert(est_index == pos && min_count == count);
                    assert(corr@[pos as int] == max_count);
                }
            }
            pos = pos + 1;
        }
        (max_count, est_index, corr)
    }

    /// Octave (sub-harmonic) correction of the best lag.
    ///
    /// Scans candidate divisors from `est_index / min_period` down to 1,
    /// preferring the largest, and returns `est_index / div` for the first
    /// divisor whose sub-period multiples all score at or below 15% of the
    /// largest score; the uncorrected `est_index` is kept when no divisor
    /// qualifies.  The corrected lag never falls below `min_period`.
    pub fn handle_harmonics(
        cfg: &Config,
        max_count: u32,
        est_index: usize,
        corr: &Vec<u32>,
    ) -> (r: usize)
        requires
            cfg.wf(),
            corr@.len() == cfg.mid_pos,
            cfg.min_period <= est_index < cfg.mid_pos,
        ensures
            r as int == harmonics_result(corr@, *cfg, max_count, est_index as int),
            cfg.min_period <= r <= est_index,
    {
        let thr: u64 = 3 * (max_count as u64) / 20;
        let ghost thr_i: int = sub_threshold(max_count);
        let max_div = est_index / cfg.min_period;
        proof {
            assert(thr as int == thr_i);
            vstd::arithmetic::div_mod::lemma_div_is_ordered(
                cfg.min_period as int,
                est_index as int,
                cfg.min_period as int,
            );
            vstd::arithmetic::div_mod::lemma_div_multiples_vanish(1, cfg.min_period as int);
            assert(max_div >= 1);
        }
        let mut div = max_div;
        while div > 1
            invariant
                cfg.wf(),
                corr@.len() == cfg.mid_pos,
                cfg.min_period <= est_index < cfg.mid_pos,
                1 <= div <= max_div,
                max_div == est_index as int / cfg.min_period as int,
                thr as int == thr_i,
                thr_i == sub_threshold(max_count),
                pick_div(corr@, est_index as int, thr_i, max_div as int) == pick_div(
                    corr@,
                    est_index as int,
                    thr_i,
                    div as int,
                ),
            decreases div,
        {
            let sub = est_index / div;
            proof {
                lemma_div_bound_swap(est_index as int, cfg.min_period as int, div as int);
                vstd::arithmetic::div_mod::lemma_remainder_lower(est_index as int, div as int);
                vstd::arithmetic::mul::lemma_mul_inequality(1, div as int, sub as int);
                assert(sub <= est_index);
            }
            let mut k: usize = 1;
            let mut strong = true;
            while k < div && strong
                invariant
                    corr@.len() == cfg.mid_pos,
                    cfg.min_period <= est_index < cfg.mid_pos,
                    2 <= div,
                    sub == est_index as int / div as int,
                    1 <= k <= div,
                    thr as int == thr_i,
                    strong ==> forall|kk: int|
                        1 <= kk < k ==> #[trigger] corr@[kk * (est_index as int / div as int)]
                            <= thr_i,
                    !strong ==> !all_strong(corr@, est_index as int, thr_i, div as int),
                decreases div - k,
            {
                proof {
                    vstd::arithmetic::mul::lemma_mul_inequality(k as int, div as int, sub as int);
                    vstd::arithmetic::div_mod::lemma_remainder_lower(
                        est_index as int,
                        div as int,
                    );
                    assert(est_index as int / div as int * div as int == div as int
                        * sub as int) by (nonlinear_arith)
                        requires
                            sub == est_index as int / div as int,
                    ;
                    assert(k as int * sub as int <= est_index as int);
                }
                let idx = k * sub;
                if (corr[idx] as u64) > thr {
                    strong = false;
                    proof {
                        assert(corr@[k as int * (est_index as int / div as int)] > thr_i);
                    }
                }
                k = k + 1;
            }
            if strong {
                proof {
                    assert(k >= div);
                    assert(all_strong(corr@, est_index as int, thr_i, div as int));
                    assert(pick_div(corr@, est_index as int, thr_i, div as int) == div as int);
                }
                return sub;
            }
            proof {
                assert(pick_div(corr@, est_index as int, thr_i, div as int) == pick_div(
                    corr@,
                    est_index as int,
                    thr_i,
                    div as int - 1,
                ));
            }
            div = div - 1;
        }
        proof {
            assert(pick_div(corr@, est_index as int, thr_i, div as int) == 1);
            vstd::arithmetic::div_mod::lemma_div_multiples_vanish(est_index as int, 1);
            assert(est_index as int / 1 == est_index as int);
        }
        est_index
    }

    /// Reads bit `i`.
    pub fn get(&self, i: usize) -> (r: bool)
        requires
            i < self@.len(),
        ensures
            r == self@[i as int],
    {
        proof {
            lemma_flat_index(i as int, self.bits@.len() as int);
            lemma_mask_test(self.bits@[i as int / 32], (i as int % 32) as u32);
        }
        let idx = i / 32;
        let sh = (i % 32) as u32;
        (self.bits[idx] & (1u32 << sh)) != 0
    }
}

} // verus!
