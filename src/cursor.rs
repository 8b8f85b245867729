//! Arithmetic on cursors over a ring of slots.
use vstd::arithmetic::div_mod::{lemma_mod_multiples_vanish, lemma_small_mod};
use vstd::arithmetic::power2::{lemma_pow2_pos, lemma_pow2_strictly_increases, lemma_pow2_unfold, pow2};
use vstd::bits::{lemma_usize_low_bits_mask_is_mod, low_bits_mask};
use vstd::prelude::*;

verus! {

/// `n` is a power of two.
pub open spec fn is_power_of_two(n: nat) -> bool {
    exists|k: nat| n == #[trigger] pow2(k)
}

/// A power of two that fits in a `usize` has an exponent below the word width.
pub proof fn lemma_exponent_fits(k: nat)
    requires
        pow2(k) <= usize::MAX,
    ensures
        k < usize::BITS,
{
    vstd::layout::unsigned_int_max_values();
    if k > usize::BITS {
        lemma_pow2_strictly_increases(usize::BITS as nat, k);
    }
}

/// Masking by `2^k - 1` is reduction modulo `2^k`.
pub proof fn lemma_mask_is_mod(x: usize, k: nat)
    requires
        pow2(k) <= usize::MAX,
    ensures
        x & ((pow2(k) - 1) as usize) == x % (pow2(k) as usize),
{
    lemma_exponent_fits(k);
    lemma_pow2_pos(k);
    lemma_usize_low_bits_mask_is_mod(x, k);
    assert(low_bits_mask(k) == pow2(k) - 1);
}

/// `p` is the smallest power of two that is at least `n`.
pub open spec fn is_power_of_two_round_up(n: nat, p: nat) -> bool {
    &&& is_power_of_two(p)
    &&& p >= n
    &&& forall|q: nat| is_power_of_two(q) && q >= n ==> p <= q
}

/// A power of two that fits in a `usize` fits twice over in its range.
pub proof fn lemma_power_of_two_fits(k: nat)
    requires
        pow2(k) <= usize::MAX,
    ensures
        pow2(k) <= usize::MAX / 2 + 1,
{
    lemma_exponent_fits(k);
    vstd::layout::unsigned_int_max_values();
    lemma_pow2_unfold(usize::BITS as nat);
    if k + 1 < usize::BITS {
        lemma_pow2_strictly_increases(k, (usize::BITS - 1) as nat);
    }
}

/// A position below twice the modulus wraps at most once.
pub proof fn lemma_wrap_once(a: int, m: int)
    requires
        0 < m,
        0 <= a < 2 * m,
    ensures
        a % m == if a < m { a } else { a - m },
{
    if a < m {
        lemma_small_mod(a as nat, m as nat);
    } else {
        lemma_mod_multiples_vanish(1, a - m, m);
        lemma_small_mod((a - m) as nat, m as nat);
    }
}

} // verus!
