//! Derived constants of the detector, computed once from three tunables.

use vstd::arithmetic::div_mod::{
    lemma_div_is_ordered, lemma_div_multiples_vanish, lemma_fundamental_div_mod_converse_div,
};
use vstd::arithmetic::power2::{
    lemma2_to64, lemma_pow2_adds, lemma_pow2_pos, lemma_pow2_strictly_increases, lemma_pow2_unfold,
    pow2,
};
use vstd::prelude::*;

verus! {

/// Immutable set of derived constants shared by every stage of the detector.
///
/// All sizes are in samples (or, for `array_size` and `mid_array`, in packed
/// 32-bit words).  `buff_size` is a power of two so that one window holds at
/// least two full periods of the lowest supported frequency.
pub struct Config {
    /// Width of one packed word of the bitstream; always 32.
    pub nbits: usize,
    /// Sample rate in samples per second.
    pub samples_per_second: usize,
    /// Shortest admissible period, `samples_per_second / max_freq`.
    pub min_period: usize,
    /// Longest admissible period, `samples_per_second / min_freq`.
    pub max_period: usize,
    /// Number of samples in one detection window.
    pub buff_size: usize,
    /// Number of packed words holding one window, `buff_size / nbits`.
    pub array_size: usize,
    /// Number of whole words compared per autocorrelation lag.
    pub mid_array: usize,
    /// Exclusive upper bound of the lag search, `buff_size / 2`.
    pub mid_pos: usize,
}

impl Config {
    /// Structural invariant tying the derived constants together.
    pub open spec fn wf(self) -> bool {
        &&& self.nbits == 32
        &&& 1 <= self.min_period
        &&& self.min_period < self.max_period
        &&& self.max_period < self.mid_pos
        &&& self.mid_pos < self.buff_size
        &&& self.buff_size == 2 * self.mid_pos
        &&& self.buff_size == 32 * self.array_size
        &&& self.array_size == 2 * (self.mid_array + 1)
        &&& self.mid_pos == 32 * (self.mid_array + 1)
        &&& 1 <= self.mid_array
        &&& self.buff_size <= 0x10000
        &&& exists|e: nat| self.buff_size == pow2(e)
        &&& 2 <= self.samples_per_second <= 0x4000_0000
    }

    /// The tunables from which a configuration can be derived at all.
    pub open spec fn tunables_ok(min_freq: usize, max_freq: usize, samples_per_second: usize) -> bool {
        &&& 1 <= min_freq
        &&& min_freq < max_freq
        &&& 2 * max_freq < samples_per_second
        &&& samples_per_second <= 0x4000_0000
        &&& (samples_per_second as int / max_freq as int)
            < (samples_per_second as int / min_freq as int)
        &&& 33 <= (samples_per_second as int / min_freq as int)
        &&& (samples_per_second as int / min_freq as int) <= 0x4000
        &&& !(exists|e: nat| (samples_per_second as int / min_freq as int) == pow2(e) as int)
    }

    /// How every field of a derived configuration is determined by the
    /// tunables.  Together with `wf`, this pins the configuration uniquely.
    pub open spec fn derived_from(
        self,
        min_freq: usize,
        max_freq: usize,
        samples_per_second: usize,
    ) -> bool {
        &&& self.wf()
        &&& self.samples_per_second == samples_per_second
        &&& self.min_period == (samples_per_second as int / max_freq as int)
        &&& self.max_period == (samples_per_second as int / min_freq as int)
        &&& self.max_period < self.mid_pos < 2 * self.max_period
        &&& exists|e: nat| self.mid_pos == pow2(e)
    }

    /// Computes every derived constant from the three tunables, or returns
    /// `None` exactly when they admit no valid configuration: the frequency
    /// bounds must be ordered, the sample rate must exceed twice the highest
    /// frequency, the periods must stay in a range the buffer sizes can hold,
    /// and the longest period must not itself be a power of two (otherwise the
    /// lag search could not reach it).
    pub fn new(min_freq: usize, max_freq: usize, samples_per_second: usize) -> (r: Option<Config>)
        ensures
            r is Some <==> Self::tunables_ok(min_freq, max_freq, samples_per_second),
            r is Some ==> r->0.derived_from(min_freq, max_freq, samples_per_second),
    {
        if min_freq < 1 {
            return None;
        }
        if max_freq <= min_freq {
            return None;
        }
        if samples_per_second > 0x4000_0000 {
            return None;
        }
        if max_freq > 0x2000_0000 {
            return None;
        }
        if samples_per_second <= 2 * max_freq {
            return None;
        }
        let min_period = samples_per_second / max_freq;
        let max_period = samples_per_second / min_freq;
        proof {
            lemma_div_is_ordered(2 * max_freq as int, samples_per_second as int, max_freq as int);
            lemma_div_multiples_vanish(2, max_freq as int);
            assert(min_period >= 2);
        }
        if min_period >= max_period {
            return None;
        }
        if max_period < 33 {
            return None;
        }
        if max_period > 0x4000 {
            return None;
        }
        let p = get_smallest_pow2(max_period);
        let ghost e: nat = choose|e: nat| p == pow2(e);
        if p == max_period {
            proof {
                assert(!Self::tunables_ok(min_freq, max_freq, samples_per_second));
            }
            return None;
        }
        proof {
            // The longest period is not a power of two: a power of two in
            // [max_period, 2 * max_period) would have to be p itself.
            if exists|e2: nat| max_period as int == pow2(e2) as int {
                let e2 = choose|e2: nat| max_period as int == pow2(e2) as int;
                lemma_pow2_in_range_unique(e2, e, max_period as nat);
                assert(false);
            }
            // p >= 64, hence divisible by 64.
            lemma2_to64();
            assert(pow2(6) == 64);
            if e < 6 {
                lemma_pow2_strictly_increases(e, 6);
                assert(p < 64);
                assert(false);
            }
            lemma_pow2_adds(6, (e - 6) as nat);
            lemma_pow2_pos((e - 6) as nat);
        }
        let ghost half_words: nat = pow2((e - 6) as nat);
        proof {
            assert(p == 64 * half_words);
            assert(half_words >= 1);
            assert(2 * p <= 0x10000) by {
                assert(p < 2 * max_period);
            }
        }
        let buff_size = p * 2;
        let array_size = buff_size / 32;
        let mid_array = array_size / 2 - 1;
        let mid_pos = buff_size / 2;
        proof {
            lemma_fundamental_div_mod_converse_div(buff_size as int, 32, 4 * half_words as int, 0);
            assert(array_size == 4 * half_words);
            lemma_fundamental_div_mod_converse_div(array_size as int, 2, 2 * half_words as int, 0);
            assert(mid_array == 2 * half_words - 1);
            lemma_fundamental_div_mod_converse_div(buff_size as int, 2, 64 * half_words as int, 0);
            assert(mid_pos == 64 * half_words);
            lemma_pow2_unfold((e + 1) as nat);
            assert(buff_size == pow2((e + 1) as nat));
        }
        Some(
            Config {
                nbits: 32,
                samples_per_second,
                min_period,
                max_period,
                buff_size,
                array_size,
                mid_array,
                mid_pos,
            },
        )
    }
}

/// Two powers of two lying in `[n, 2n)` are the same number.
proof fn lemma_pow2_in_range_unique(e1: nat, e2: nat, n: nat)
    requires
        n <= pow2(e1) < 2 * n,
        n <= pow2(e2) < 2 * n,
    ensures
        pow2(e1) == pow2(e2),
        e1 == e2,
{
    if e1 < e2 {
        lemma_pow2_unfold((e1 + 1) as nat);
        if e1 + 1 < e2 {
            lemma_pow2_strictly_increases((e1 + 1) as nat, e2);
        }
        assert(pow2(e2) >= 2 * pow2(e1));
        assert(false);
    } else if e2 < e1 {
        lemma_pow2_unfold((e2 + 1) as nat);
        if e2 + 1 < e1 {
            lemma_pow2_strictly_increases((e2 + 1) as nat, e1);
        }
        assert(pow2(e1) >= 2 * pow2(e2));
        assert(false);
    }
}

/// The smallest power of two that is at least `n`; used to size the window.
pub fn get_smallest_pow2(n: usize) -> (r: usize)
    requires
        1 <= n <= 0x4000_0000,
    ensures
        n <= r < 2 * n,
        exists|e: nat| r == pow2(e),
{
    let mut m: usize = 1;
    proof {
        lemma2_to64();
        assert(m == pow2(0));
    }
    while m < n
        invariant
            1 <= m < 2 * n,
            n <= 0x4000_0000,
            exists|e: nat| m == pow2(e),
        decreases 2 * n - m,
    {
        proof {
            let e = choose|e: nat| m == pow2(e);
            lemma_pow2_unfold((e + 1) as nat);
            assert(2 * m == pow2((e + 1) as nat));
        }
        m = m * 2;
    }
    m
}

/// Recomputing the derived constants from the same tunables yields the same
/// configuration: the derivation admits exactly one result.
pub proof fn lemma_config_derivation_unique(
    c1: Config,
    c2: Config,
    min_freq: usize,
    max_freq: usize,
    samples_per_second: usize,
)
    requires
        c1.derived_from(min_freq, max_freq, samples_per_second),
        c2.derived_from(min_freq, max_freq, samples_per_second),
    ensures
        c1 == c2,
{
    let e1 = choose|e: nat| c1.mid_pos == pow2(e);
    let e2 = choose|e: nat| c2.mid_pos == pow2(e);
    lemma_pow2_in_range_unique(e1, e2, (c1.max_period + 1) as nat);
    assert(c1.mid_pos == c2.mid_pos);
    assert(c1.buff_size == c2.buff_size);
    assert(c1.array_size == c2.array_size) by {
        assert(32 * c1.array_size == 32 * c2.array_size);
    }
    assert(c1.mid_array == c2.mid_array) by {
        assert(32 * (c1.mid_array + 1) == 32 * (c2.mid_array + 1));
    }
}

} // verus!
