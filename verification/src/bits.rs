//! Bit-level helpers for the packed 32-bit words of the bitstream.

use vstd::arithmetic::div_mod::{
    lemma_fundamental_div_mod_converse_div, lemma_fundamental_div_mod_converse_mod,
};
use vstd::prelude::*;

verus! {

/// Bit `k` of word `w`.
pub open spec fn u32_bit(w: u32, k: u32) -> bool {
    (w >> k) & 1u32 == 1u32
}

/// Bit `i` of a run of packed words: bit `i % 32` of word `i / 32`.
pub open spec fn bit_of(words: Seq<u32>, i: int) -> bool {
    u32_bit(words[i / 32], (i % 32) as u32)
}

/// Number of set bits among the low `n` bits of `w`.
pub open spec fn pop_below(w: u32, n: int) -> nat
    decreases n,
{
    if n <= 0 {
        0
    } else {
        pop_below(w, n - 1) + if u32_bit(w, (n - 1) as u32) {
            1nat
        } else {
            0nat
        }
    }
}

pub proof fn lemma_pop_below_bound(w: u32, n: int)
    requires
        0 <= n,
    ensures
        pop_below(w, n) <= n,
    decreases n,
{
    if n > 0 {
        lemma_pop_below_bound(w, n - 1);
    }
}

/// Each bit of an XOR says whether the operands' bits differ there.
pub proof fn lemma_xor_bits(x: u32, y: u32)
    by (bit_vector)
    ensures
        forall|k: u32| k < 32 ==> #[trigger] u32_bit(x ^ y, k) == (u32_bit(x, k) != u32_bit(y, k)),
{
}

/// A word rebuilt from two neighbours by a right/left shift pair carries the
/// 32 bits that start `sh` positions into the first word.
pub proof fn lemma_recombine(a: u32, b: u32, sh: u32)
    by (bit_vector)
    requires
        0 < sh < 32,
    ensures
        forall|m: u32|
            m < 32 ==> #[trigger] u32_bit((a >> sh) | (b << (32 - sh) as u32), m) == (if m + sh
                < 32 {
                u32_bit(a, (m + sh) as u32)
            } else {
                u32_bit(b, (m + sh - 32) as u32)
            }),
{
}

/// The masked XOR write `w ^ ((id ^ w) & (1 << sh))`, with `id` all ones for
/// a set and all zeros for a clear, changes exactly bit `sh` of `w`.
pub proof fn lemma_masked_write(w: u32, id: u32, sh: u32, val: bool)
    by (bit_vector)
    requires
        sh < 32,
        val ==> id == 0xffff_ffffu32,
        !val ==> id == 0u32,
    ensures
        forall|k: u32|
            k < 32 ==> #[trigger] u32_bit(w ^ ((id ^ w) & (1u32 << sh)), k) == (if k == sh {
                val
            } else {
                u32_bit(w, k)
            }),
{
}

/// Testing a bit through a mask agrees with `u32_bit`.
pub proof fn lemma_mask_test(w: u32, sh: u32)
    by (bit_vector)
    requires
        sh < 32,
    ensures
        (w & (1u32 << sh) != 0) == u32_bit(w, sh),
{
}

/// Every bit of the zero word is clear.
pub proof fn lemma_zero_word_bits()
    by (bit_vector)
    ensures
        forall|k: u32| k < 32 ==> !#[trigger] u32_bit(0u32, k),
{
}

/// Splits a flat bit index into its word and in-word positions.
pub proof fn lemma_index_decompose(p: int, t: int)
    requires
        0 <= p,
        0 <= t < 32,
    ensures
        (32 * p + t) / 32 == p,
        (32 * p + t) % 32 == t,
{
    lemma_fundamental_div_mod_converse_div(32 * p + t, 32, p, t);
    lemma_fundamental_div_mod_converse_mod(32 * p + t, 32, p, t);
}

/// A flat bit index below `32 * n` lands in word `i / 32` at bit `i % 32`.
pub proof fn lemma_flat_index(i: int, n: int)
    requires
        0 <= i < 32 * n,
    ensures
        0 <= i / 32 < n,
        0 <= i % 32 < 32,
        i == 32 * (i / 32) + (i % 32),
{
    vstd::arithmetic::div_mod::lemma_fundamental_div_mod(i, 32);
    vstd::arithmetic::div_mod::lemma_mod_bound(i, 32);
}

/// Population count of the low 32 bits, one probe per bit.
pub fn popcount(w: u32) -> (r: u32)
    ensures
        r == pop_below(w, 32),
        r <= 32,
{
    let mut c: u32 = 0;
    let mut k: u32 = 0;
    while k < 32
        invariant
            k <= 32,
            c == pop_below(w, k as int),
            c <= k,
        decreases 32 - k,
    {
        if (w >> k) & 1u32 == 1u32 {
            c = c + 1;
        }
        k = k + 1;
    }
    c
}

} // verus!
