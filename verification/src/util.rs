//! Integer helpers shared by the folding schemes: exact base-two logarithms and
//! bit lengths.
use vstd::arithmetic::power2::{
    lemma2_to64, lemma2_to64_rest, lemma_pow2_pos, lemma_pow2_strictly_increases, lemma_pow2_unfold,
    pow2,
};
use vstd::prelude::*;
use vstd::std_specs::bits::u64_leading_zeros;

verus! {

/// The number of binary digits of `n` (zero for zero).
pub open spec fn num_bits(n: nat) -> nat
    decreases n,
{
    if n == 0 {
        0
    } else {
        1 + num_bits(n / 2)
    }
}

/// `n` is a power of two.
pub open spec fn is_power_of_two(n: int) -> bool {
    exists|k: nat| pow2(k) == n
}

/// Two to the power `k`, as a machine integer.
pub fn pow2_of(k: usize) -> (r: usize)
    requires
        pow2(k as nat) <= usize::MAX,
    ensures
        r == pow2(k as nat),
{
    proof {
        lemma_pow2_pos(k as nat);
        lemma2_to64();
        lemma2_to64_rest();
        if k >= usize::BITS {
            if k > usize::BITS {
                lemma_pow2_strictly_increases(usize::BITS as nat, k as nat);
            }
        }
        vstd::bits::lemma_usize_shl_is_mul(1, k);
    }
    1usize << k
}

/// A positive power of two is at least two.
proof fn lemma_pow2_ge_two(e: nat)
    requires
        e >= 1,
    ensures
        pow2(e) >= 2,
{
    lemma2_to64();
    if e > 1 {
        lemma_pow2_strictly_increases(1, e);
    }
}

/// The exponent of a power of two.
pub fn log2_strict(n: usize) -> (r: usize)
    requires
        is_power_of_two(n as int),
    ensures
        pow2(r as nat) == n,
        r < 64,
{
    let ghost k = choose|k: nat| pow2(k) == n;
    let mut m = n;
    let mut r: usize = 0;
    proof {
        lemma_pow2_pos(k);
        lemma2_to64_rest();
        if k > 64 {
            lemma_pow2_strictly_increases(64, k);
        }
    }
    while m > 1
        invariant
            r <= k,
            k < 64,
            m == pow2((k - r) as nat),
            pow2(k) == n,
            m >= 1,
        decreases m,
    {
        proof {
            if k == r {
                lemma2_to64();
            }
            lemma_pow2_unfold((k - r) as nat);
        }
        m = m / 2;
        r = r + 1;
    }
    proof {
        if k > r {
            lemma_pow2_ge_two((k - r) as nat);
        }
    }
    r
}

/// The bits below the leading zeros of `n` are the bits of `n`.
proof fn lemma_leading_zeros_bits(n: u64)
    ensures
        64 - u64_leading_zeros(n) == num_bits(n as nat),
    decreases n,
{
    reveal(u64_leading_zeros);
    if n > 0 {
        lemma_leading_zeros_bits(n / 2);
    }
}

/// `n` lies below two to the power of its bit length, and not below half of it.
pub proof fn lemma_num_bits_bounds(n: nat)
    ensures
        n < pow2(num_bits(n)),
        n > 0 ==> pow2((num_bits(n) - 1) as nat) <= n,
    decreases n,
{
    lemma2_to64();
    if n > 0 {
        lemma_num_bits_bounds(n / 2);
        lemma_pow2_unfold(num_bits(n));
        if n / 2 > 0 {
            lemma_pow2_unfold((num_bits(n) - 1) as nat);
        }
    }
}

/// The bit length of `n`.
pub fn bits_u64(n: u64) -> (r: usize)
    ensures
        r == num_bits(n as nat),
        r <= 64,
{
    proof {
        lemma_leading_zeros_bits(n);
        reveal(u64_leading_zeros);
        if n == 0 {
        }
        lemma_num_bits_bounds(n as nat);
        if num_bits(n as nat) > 64 {
            lemma_pow2_strictly_increases(64, (num_bits(n as nat) - 1) as nat);
            lemma2_to64_rest();
        }
    }
    (64 - n.leading_zeros()) as usize
}

} // verus!
