//! Encodings over the boolean hypercube and the foldable domain, and the small
//! evaluation helpers of the FRI-based commitment: coefficient interpolation,
//! bit-reversal, butterfly encoding, multilinear folding, query indices.
use crate::domain::RootOfUnity;
use crate::mersenne_61_mont::{
    fadd, finv, fmul, fpow, fsub, le_bytes, lemma_view_range, p, views, Mersenne61Mont,
};
use crate::fold::{basefold_one_round_by_interpolation_weights, line_at};
use crate::util::{is_power_of_two, log2_strict, pow2_of};
use rand_chacha::ChaCha12Rng;
use vstd::arithmetic::div_mod::{
    lemma_fundamental_div_mod, lemma_fundamental_div_mod_converse, lemma_mod_bound,
};
use vstd::arithmetic::power2::{lemma2_to64, lemma_pow2_adds, lemma_pow2_pos, lemma_pow2_unfold, pow2};
use vstd::prelude::*;

verus! {

broadcast use lemma_view_range;

// ---------------------------------------------------------------------------
// Bit reversal
// ---------------------------------------------------------------------------

/// The `n`-bit reversal of the low `n` bits of `i`.
pub open spec fn rev_bits(i: int, n: nat) -> int
    decreases n,
{
    if n == 0 {
        0
    } else {
        2 * rev_bits(i, (n - 1) as nat) + (i / pow2((n - 1) as nat) as int) % 2
    }
}

/// Reversing `n` bits gives an index below `2^n`.
pub proof fn lemma_rev_bits_bound(i: int, n: nat)
    requires
        i >= 0,
    ensures
        0 <= rev_bits(i, n) < pow2(n),
    decreases n,
{
    lemma2_to64();
    if n > 0 {
        lemma_rev_bits_bound(i, (n - 1) as nat);
        lemma_pow2_unfold(n);
        lemma_pow2_pos((n - 1) as nat);
        vstd::arithmetic::div_mod::lemma_div_pos_is_pos(i, pow2((n - 1) as nat) as int);
    }
}

/// Reverses the low `num_bits` bits of `n`.
pub fn reverse_bits(n: usize, num_bits: usize) -> (r: usize)
    requires
        pow2(num_bits as nat) <= usize::MAX,
    ensures
        r == rev_bits(n as int, num_bits as nat),
{
    let mut cur = n;
    let mut r: usize = 0;
    proof {
        lemma2_to64();
    }
    for t in 0..num_bits
        invariant
            pow2(num_bits as nat) <= usize::MAX,
            cur == n as int / pow2(t as nat) as int,
            r == rev_bits(n as int, t as nat),
            t <= num_bits,
    {
        proof {
            lemma_rev_bits_bound(n as int, t as nat);
            lemma_pow2_pos(t as nat);
            lemma_pow2_unfold((t + 1) as nat);
            if t + 1 < num_bits {
                vstd::arithmetic::power2::lemma_pow2_strictly_increases((t + 1) as nat, num_bits as nat);
            }
            vstd::arithmetic::div_mod::lemma_div_denominator(n as int, pow2(t as nat) as int, 2);
            vstd::arithmetic::mul::lemma_mul_is_commutative(pow2(t as nat) as int, 2);
        }
        r = 2 * r + cur % 2;
        cur = cur / 2;
    }
    r
}

/// The vector permuted by bit-reversal of its positions.
pub open spec fn bit_reversed(s: Seq<int>, n: nat) -> Seq<int> {
    Seq::new(s.len(), |i: int| s[rev_bits(i, n)])
}

/// Permutes a vector of length 2^n by reversing the bits of every position.
pub fn reverse_index_bits_in_place(v: &mut Vec<Mersenne61Mont>)
    requires
        is_power_of_two(old(v).len() as int),
    ensures
        forall|n: nat|
            pow2(n) == old(v).len() ==> views(final(v)@) == bit_reversed(views(old(v)@), n),
{
    let n = log2_strict(v.len());
    let len = v.len();
    let mut out: Vec<Mersenne61Mont> = Vec::new();
    for i in 0..len
        invariant
            len == v.len(),
            pow2(n as nat) == len,
            out.len() == i,
            forall|k: int|
                0 <= k < i ==> #[trigger] out[k]@ == v[rev_bits(k, n as nat)]@,
    {
        proof {
            lemma_rev_bits_bound(i as int, n as nat);
        }
        let j = reverse_bits(i, n);
        out.push(v[j]);
    }
    proof {
        assert forall|m: nat| pow2(m) == len implies views(out@) == bit_reversed(views(v@), m) by {
            if m < n {
                vstd::arithmetic::power2::lemma_pow2_strictly_increases(m, n as nat);
            }
            if m > n {
                vstd::arithmetic::power2::lemma_pow2_strictly_increases(n as nat, m);
            }
            assert forall|k: int| 0 <= k < len implies views(out@)[k] == bit_reversed(views(v@), m)[k] by {
                lemma_rev_bits_bound(k, n as nat);
            }
            assert(views(out@) =~= bit_reversed(views(v@), m));
        }
    }
    *v = out;
}

// ---------------------------------------------------------------------------
// Coefficients over the boolean hypercube
// ---------------------------------------------------------------------------

/// One differencing stage on blocks of size 2^i: the second half of every
/// block loses the matching entry of the first half.
pub open spec fn hypercube_stage(s: Seq<int>, i: nat) -> Seq<int> {
    let cs = pow2(i) as int;
    let half = cs / 2;
    Seq::new(
        s.len(),
        |k: int|
            if k % cs >= half {
                fsub(s[k], s[k - half])
            } else {
                s[k]
            },
    )
}

/// The differencing stages 1..=i applied in order.
pub open spec fn hypercube_stages(s: Seq<int>, i: nat) -> Seq<int>
    decreases i,
{
    if i == 0 {
        s
    } else {
        hypercube_stage(hypercube_stages(s, (i - 1) as nat), i)
    }
}

/// An index in the upper half of its block has its partner `half` below it.
proof fn lemma_block_offset(k: int, cs: int, half: int)
    requires
        cs > 0,
        cs == 2 * half,
        k >= 0,
        k % cs >= half,
    ensures
        k - half >= 0,
        (k - half) % cs == k % cs - half,
        (k - half) % cs < half,
{
    lemma_fundamental_div_mod(k, cs);
    lemma_mod_bound(k, cs);
    lemma_fundamental_div_mod_converse(k - half, cs, k / cs, k % cs - half);
}

/// An index in the lower half of its block has its partner `half` above it.
proof fn lemma_block_partner(k: int, cs: int, half: int)
    requires
        cs > 0,
        cs == 2 * half,
        k >= 0,
        k % cs < half,
    ensures
        (k + half) % cs == k % cs + half,
{
    lemma_fundamental_div_mod(k, cs);
    lemma_mod_bound(k, cs);
    lemma_fundamental_div_mod_converse(k + half, cs, k / cs, k % cs + half);
}

/// Applies one differencing stage in place.
fn hypercube_stage_in_place(v: &mut Vec<Mersenne61Mont>, i: usize)
    requires
        1 <= i,
        pow2(i as nat) <= usize::MAX,
    ensures
        final(v).len() == old(v).len(),
        views(final(v)@) == hypercube_stage(views(old(v)@), i as nat),
{
    let ghost s = views(v@);
    let chunk_size = pow2_of(i);
    let half = chunk_size / 2;
    proof {
        lemma_pow2_unfold(i as nat);
        lemma_pow2_pos((i - 1) as nat);
    }
    let len = v.len();
    for k in 0..len
        invariant
            len == v.len(),
            chunk_size == pow2(i as nat),
            chunk_size == 2 * half,
            half > 0,
            s.len() == len,
            forall|m: int|
                0 <= m < len ==> #[trigger] v[m]@ == (if m < k {
                    hypercube_stage(s, i as nat)[m]
                } else {
                    s[m]
                }),
    {
        if k % chunk_size >= half {
            proof {
                lemma_block_offset(k as int, chunk_size as int, half as int);
            }
            let d = v[k].sub(v[k - half]);
            v.set(k, d);
        }
    }
    assert(views(v@) =~= hypercube_stage(s, i as nat));
}

/// The coefficients of the multilinear polynomial with the given evaluations
/// over the boolean hypercube, in bit-reversed order.
pub fn interpolate_over_boolean_hypercube(evals: Vec<Mersenne61Mont>) -> (r: Vec<Mersenne61Mont>)
    requires
        is_power_of_two(evals.len() as int),
    ensures
        forall|n: nat|
            pow2(n) == evals.len() ==> views(r@) == bit_reversed(
                hypercube_stages(views(evals@), n),
                n,
            ),
{
    let mut evals = evals;
    let ghost s = views(evals@);
    let n = log2_strict(evals.len());
    let len = evals.len();
    let mut i: usize = 1;
    while i <= n
        invariant
            1 <= i <= n + 1,
            n < 64,
            pow2(n as nat) == len,
            evals.len() == len,
            s.len() == len,
            views(evals@) == hypercube_stages(s, (i - 1) as nat),
        decreases n + 1 - i,
    {
        proof {
            vstd::arithmetic::power2::lemma_pow2_strictly_increases(i as nat, (n + 1) as nat);
            if i < n {
                vstd::arithmetic::power2::lemma_pow2_strictly_increases(i as nat, n as nat);
            }
        }
        hypercube_stage_in_place(&mut evals, i);
        i = i + 1;
    }
    let ghost staged = views(evals@);
    reverse_index_bits_in_place(&mut evals);
    proof {
        assert forall|m: nat| pow2(m) == len implies views(evals@) == bit_reversed(
            hypercube_stages(s, m),
            m,
        ) by {
            if m < n {
                vstd::arithmetic::power2::lemma_pow2_strictly_increases(m, n as nat);
            }
            if m > n {
                vstd::arithmetic::power2::lemma_pow2_strictly_increases(n as nat, m);
            }
        }
    }
    evals
}

/// The coefficients over the boolean hypercube in natural order, with a copy
/// of the evaluations.
pub fn interpolate_over_boolean_hypercube_with_copy(evals: &Vec<Mersenne61Mont>) -> (r: (
    Vec<Mersenne61Mont>,
    Vec<Mersenne61Mont>,
))
    requires
        is_power_of_two(evals.len() as int),
        evals.len() >= 2,
    ensures
        views(r.1@) == views(evals@),
        forall|n: nat|
            pow2(n) == evals.len() ==> views(r.0@) == hypercube_stages(views(evals@), n),
{
    let n = log2_strict(evals.len());
    let len = evals.len();
    let ghost s = views(evals@);
    let mut coeffs: Vec<Mersenne61Mont> = Vec::new();
    let mut new_evals: Vec<Mersenne61Mont> = Vec::new();
    proof {
        lemma2_to64();
        if n == 0 {
        }
        lemma_pow2_unfold(n as nat);
        assert(len % 2 == 0);
    }
    let mut j: usize = 0;
    while j < len
        invariant
            len == evals.len(),
            len % 2 == 0,
            j % 2 == 0,
            j <= len,
            s == views(evals@),
            coeffs.len() == j,
            new_evals.len() == j,
            pow2(1) == 2,
            forall|m: int| 0 <= m < j ==> #[trigger] new_evals[m]@ == s[m],
            forall|m: int| 0 <= m < j ==> #[trigger] coeffs[m]@ == hypercube_stage(s, 1)[m],
        decreases len - j,
    {
        let ghost oc = coeffs@;
        let ghost on = new_evals@;
        new_evals.push(evals[j]);
        new_evals.push(evals[j + 1]);
        coeffs.push(evals[j]);
        coeffs.push(evals[j + 1].sub(evals[j]));
        assert forall|m: int| 0 <= m < j + 2 implies #[trigger] new_evals[m]@ == s[m] && coeffs[m]@
            == hypercube_stage(s, 1)[m] by {
            if m < j {
                assert(new_evals[m] == on[m]);
                assert(coeffs[m] == oc[m]);
            }
        }
        j = j + 2;
    }
    assert(views(coeffs@) =~= hypercube_stage(s, 1));
    assert(views(new_evals@) =~= s);
    assert(hypercube_stages(s, 0) == s);
    assert(hypercube_stages(s, 1) == hypercube_stage(hypercube_stages(s, 0), 1));
    let mut i: usize = 2;
    while i <= n
        invariant
            2 <= i <= n + 1 || (n == 0 && i == 2),
            n < 64,
            pow2(n as nat) == len,
            coeffs.len() == len,
            s.len() == len,
            views(coeffs@) == hypercube_stages(s, (i - 1) as nat),
        decreases n + 1 - i,
    {
        proof {
            vstd::arithmetic::power2::lemma_pow2_strictly_increases(i as nat, (n + 1) as nat);
            if i < n {
                vstd::arithmetic::power2::lemma_pow2_strictly_increases(i as nat, n as nat);
            }
        }
        hypercube_stage_in_place(&mut coeffs, i);
        i = i + 1;
    }
    proof {
        assert forall|m: nat| pow2(m) == len implies views(coeffs@) == hypercube_stages(s, m) by {
            if m < n {
                vstd::arithmetic::power2::lemma_pow2_strictly_increases(m, n as nat);
            }
            if m > n {
                vstd::arithmetic::power2::lemma_pow2_strictly_increases(n as nat, m);
            }
        }
    }
    (coeffs, new_evals)
}

// ---------------------------------------------------------------------------
// Encoding over the foldable domain
// ---------------------------------------------------------------------------

/// Every coefficient repeated `rate` times.
pub open spec fn repeated(c: Seq<int>, rate: int) -> Seq<int> {
    Seq::new((c.len() * rate) as nat, |k: int| c[k / rate])
}

/// One butterfly stage on blocks of size `cs`, with twiddles `lvl`: the pair
/// `(a, b)` at offsets `j` and `j + cs/2` becomes `(a + b*l, a - b*l)`.
pub open spec fn butterfly(s: Seq<int>, lvl: Seq<int>, cs: int) -> Seq<int> {
    let half = cs / 2;
    Seq::new(
        s.len(),
        |k: int|
            if k % cs < half {
                fadd(s[k], fmul(s[k + half], lvl[k % cs]))
            } else {
                fsub(s[k - half], fmul(s[k], lvl[k % cs - half]))
            },
    )
}

/// The encoding after `i` butterfly stages.
pub open spec fn foldable_encoding(
    c: Seq<int>,
    log_rate: nat,
    table: Seq<Seq<int>>,
    i: nat,
) -> Seq<int>
    decreases i,
{
    if i == 0 {
        repeated(c, pow2(log_rate) as int)
    } else {
        butterfly(
            foldable_encoding(c, log_rate, table, (i - 1) as nat),
            table[(i - 1) + log_rate],
            pow2(log_rate + i) as int,
        )
    }
}

/// The table levels, as integers.
pub open spec fn table_view(t: Seq<Vec<Mersenne61Mont>>) -> Seq<Seq<int>> {
    t.map_values(|l: Vec<Mersenne61Mont>| views(l@))
}

/// The table holds, for every stage, a level of half the stage's block size.
pub open spec fn foldable_table_ok(t: Seq<Vec<Mersenne61Mont>>, log_rate: nat, logk: nat) -> bool {
    forall|j: int|
        log_rate <= j < log_rate + logk ==> j < t.len() && #[trigger] t[j].len() == pow2(j as nat)
}

/// One butterfly stage over every chunk of `chunk_size` entries.
fn butterfly_in_place(v: &mut Vec<Mersenne61Mont>, level: &Vec<Mersenne61Mont>, chunk_size: usize)
    requires
        chunk_size >= 2,
        chunk_size % 2 == 0,
        level.len() == chunk_size / 2,
    ensures
        final(v).len() == old(v).len(),
        old(v).len() % chunk_size == 0 ==> views(final(v)@) == butterfly(
            views(old(v)@),
            views(level@),
            chunk_size as int,
        ),
{
    let ghost s = views(v@);
    let ghost lv = views(level@);
    let half = chunk_size / 2;
    let len = v.len();
    for k in 0..len
        invariant
            len == v.len(),
            chunk_size == 2 * half,
            half >= 1,
            level.len() == half,
            s.len() == len,
            lv == views(level@),
            len % chunk_size == 0 ==> forall|m: int|
                0 <= m < len ==> #[trigger] v[m]@ == (if (m % (chunk_size as int) >= half && m
                    < k) || (m % (chunk_size as int) < half && m + half < k) {
                    butterfly(s, lv, chunk_size as int)[m]
                } else {
                    s[m]
                }),
    {
        let ghost before = v@;
        if k % chunk_size >= half {
            proof {
                lemma_block_offset(k as int, chunk_size as int, half as int);
            }
            let off = k % chunk_size - half;
            let a = v[k - half];
            let b = v[k];
            let rhs = b.mul(level[off]);
            v.set(k, a.sub(rhs));
            v.set(k - half, a.add(rhs));
        }
        proof {
            if len % chunk_size == 0 {
                assert forall|m: int|
                    0 <= m < len implies #[trigger] v[m]@ == (if (m % (chunk_size as int) >= half && m
                    < k + 1) || (m % (chunk_size as int) < half && m + half < k + 1) {
                    butterfly(s, lv, chunk_size as int)[m]
                } else {
                    s[m]
                }) by {
                    if m % (chunk_size as int) < half {
                        lemma_block_partner(m, chunk_size as int, half as int);
                    } else {
                        lemma_block_offset(m, chunk_size as int, half as int);
                    }
                    if (k as int) % (chunk_size as int) >= half {
                        lemma_block_offset(k as int, chunk_size as int, half as int);
                        if m != k && m != k - half {
                            assert(v[m] == before[m]);
                        }
                    } else {
                        lemma_block_partner(k as int, chunk_size as int, half as int);
                        assert(v[m] == before[m]);
                    }
                }
            }
        }
    }
    proof {
        if len % chunk_size == 0 {
            assert forall|m: int| 0 <= m < len implies views(v@)[m] == butterfly(
                s,
                lv,
                chunk_size as int,
            )[m] by {
                if m % (chunk_size as int) < half {
                    lemma_block_partner(m, chunk_size as int, half as int);
                    lemma_fundamental_div_mod(m, chunk_size as int);
                    lemma_fundamental_div_mod(len as int, chunk_size as int);
                    assert((len as int) % (chunk_size as int) == 0);
                    assert(m + half < len) by (nonlinear_arith)
                        requires
                            m == (chunk_size as int) * (m / (chunk_size as int)) + m % (chunk_size as int),
                            len as int == (chunk_size as int) * ((len as int) / (chunk_size as int)),
                            m < len,
                            m % (chunk_size as int) < half,
                            chunk_size == 2 * half,
                            m >= 0,
                            half >= 1,
                    ;
                }
            }
            assert(views(v@) =~= butterfly(s, lv, chunk_size as int));
        }
    }
}

/// Encodes coefficients over the foldable domain: every coefficient is
/// repeated `2^log_rate` times, then butterfly stages with the table's levels
/// are applied on blocks of doubling size.
pub fn evaluate_over_foldable_domain(
    log_rate: usize,
    coeffs: Vec<Mersenne61Mont>,
    table: &Vec<Vec<Mersenne61Mont>>,
) -> (r: Vec<Mersenne61Mont>)
    requires
        is_power_of_two(coeffs.len() as int),
        coeffs.len() * pow2(log_rate as nat) <= usize::MAX,
        forall|n: nat| pow2(n) == coeffs.len() ==> foldable_table_ok(table@, log_rate as nat, n),
    ensures
        forall|n: nat|
            pow2(n) == coeffs.len() ==> views(r@) == foldable_encoding(
                views(coeffs@),
                log_rate as nat,
                table_view(table@),
                n,
            ),
{
    let k = coeffs.len();
    let logk = log2_strict(k);
    proof {
        lemma_pow2_pos(log_rate as nat);
        lemma_pow2_pos(logk as nat);
        lemma_pow2_adds(logk as nat, log_rate as nat);
        vstd::arithmetic::mul::lemma_mul_inequality(1, k as int, pow2(log_rate as nat) as int);
    }
    let rate = pow2_of(log_rate);
    let cl = k * rate;
    let ghost c = views(coeffs@);
    let mut coeffs_with_rep: Vec<Mersenne61Mont> = Vec::new();
    for i in 0..cl
        invariant
            coeffs_with_rep.len() == i,
            forall|m: int| 0 <= m < i ==> #[trigger] coeffs_with_rep[m]@ == 0,
    {
        coeffs_with_rep.push(Mersenne61Mont::zero());
    }
    for i in 0..k
        invariant
            k == coeffs.len(),
            cl == k * rate,
            rate >= 1,
            c == views(coeffs@),
            coeffs_with_rep.len() == cl,
            forall|m: int|
                0 <= m < cl ==> #[trigger] coeffs_with_rep[m]@ == (if m / (rate as int) < i {
                    c[m / (rate as int)]
                } else {
                    0
                }),
    {
        for j in 0..rate
            invariant
                k == coeffs.len(),
                cl == k * rate,
                rate >= 1,
                i < k,
                c == views(coeffs@),
                coeffs_with_rep.len() == cl,
                forall|m: int|
                    0 <= m < cl ==> #[trigger] coeffs_with_rep[m]@ == (if m / (rate as int) < i || (
                    m / (rate as int) == i && m % (rate as int) < j) {
                        c[m / (rate as int)]
                    } else {
                        0
                    }),
        {
            proof {
                assert(i * rate + j < cl) by (nonlinear_arith)
                    requires
                        i < k,
                        j < rate,
                        cl == k * rate,
                ;
                lemma_fundamental_div_mod_converse((i * rate + j) as int, rate as int, i as int, j as int);
            }
            coeffs_with_rep.set(i * rate + j, coeffs[i]);
            proof {
                assert forall|m: int| 0 <= m < cl implies #[trigger] coeffs_with_rep[m]@ == (if m / (
                rate as int) < i || (m / (rate as int) == i && m % (rate as int) < j + 1) {
                    c[m / (rate as int)]
                } else {
                    0
                }) by {
                    lemma_fundamental_div_mod(m, rate as int);
                    if m / (rate as int) == i && m % (rate as int) == j {
                        assert(m == i * rate + j) by (nonlinear_arith)
                            requires
                                m == (rate as int) * (m / (rate as int)) + m % (rate as int),
                                m / (rate as int) == i,
                                m % (rate as int) == j,
                        ;
                    }
                    if m == i * rate + j {
                        assert(m / (rate as int) == i && m % (rate as int) == j);
                    }
                }
            }
        }
        proof {
            assert forall|m: int| 0 <= m < cl implies #[trigger] coeffs_with_rep[m]@ == (if m / (
            rate as int) < i + 1 {
                c[m / (rate as int)]
            } else {
                0
            }) by {
                lemma_mod_bound(m, rate as int);
            }
        }
    }
    proof {
        assert forall|m: int| 0 <= m < cl implies #[trigger] views(coeffs_with_rep@)[m] == foldable_encoding(
            c,
            log_rate as nat,
            table_view(table@),
            0,
        )[m] by {
            vstd::arithmetic::mul::lemma_mul_is_commutative(rate as int, k as int);
            vstd::arithmetic::div_mod::lemma_multiply_divide_lt(m, rate as int, k as int);
            vstd::arithmetic::div_mod::lemma_div_pos_is_pos(m, rate as int);
        }
        assert(views(coeffs_with_rep@) =~= foldable_encoding(c, log_rate as nat, table_view(table@), 0));
    }
    let mut chunk_size = rate;
    let mut i: usize = 0;
    while i < logk
        invariant
            logk < 64,
            pow2(logk as nat) == k,
            foldable_table_ok(table@, log_rate as nat, logk as nat),
            chunk_size == pow2((log_rate + i) as nat),
            cl == pow2((log_rate + logk) as nat),
            cl == k * rate,
            coeffs_with_rep.len() == cl,
            views(coeffs_with_rep@) == foldable_encoding(c, log_rate as nat, table_view(table@), i as nat),
            i <= logk,
        decreases logk - i,
    {
        proof {
            let j: int = i + log_rate;
            assert(table@[j].len() == pow2(j as nat));
            assert(j < table@.len());
            assert(i + log_rate < table.len());
        }
        let level = &table[i + log_rate];
        proof {
            assert(level.len() == pow2((log_rate + i) as nat));
            lemma_pow2_unfold((log_rate + i + 1) as nat);
            if i + 1 < logk {
                vstd::arithmetic::power2::lemma_pow2_strictly_increases(
                    (log_rate + i + 1) as nat,
                    (log_rate + logk) as nat,
                );
            }
            lemma_pow2_adds((log_rate + i + 1) as nat, (logk - i - 1) as nat);
            lemma_pow2_pos((logk - i - 1) as nat);
            lemma_pow2_pos((log_rate + i + 1) as nat);
            vstd::arithmetic::div_mod::lemma_mod_multiples_basic(
                pow2((logk - i - 1) as nat) as int,
                pow2((log_rate + i + 1) as nat) as int,
            );
            vstd::arithmetic::mul::lemma_mul_is_commutative(
                pow2((log_rate + i + 1) as nat) as int,
                pow2((logk - i - 1) as nat) as int,
            );
            assert(table_view(table@)[(i + log_rate) as int] == views(level@));
        }
        chunk_size = chunk_size * 2;
        butterfly_in_place(&mut coeffs_with_rep, level, chunk_size);
        i = i + 1;
    }
    proof {
        assert forall|n: nat| pow2(n) == coeffs.len() implies views(coeffs_with_rep@)
            == foldable_encoding(c, log_rate as nat, table_view(table@), n) by {
            if n < logk {
                vstd::arithmetic::power2::lemma_pow2_strictly_increases(n, logk as nat);
            }
            if n > logk {
                vstd::arithmetic::power2::lemma_pow2_strictly_increases(logk as nat, n);
            }
        }
    }
    coeffs_with_rep
}

// ---------------------------------------------------------------------------
// Multilinear evaluation by folding
// ---------------------------------------------------------------------------

/// One round of folding at `pt`: every adjacent pair `(a, b)` becomes `a + pt * b`.
pub open spec fn ztoa_round(s: Seq<int>, pt: int) -> Seq<int> {
    Seq::new(s.len() / 2, |i: int| fadd(s[2 * i], fmul(pt, s[2 * i + 1])))
}

/// The folding rounds at every point in order, the first point folding the
/// lowest variable.
pub open spec fn ztoa(s: Seq<int>, pts: Seq<int>) -> Seq<int>
    decreases pts.len(),
{
    if pts.len() == 0 {
        s
    } else {
        ztoa(ztoa_round(s, pts[0]), pts.drop_first())
    }
}

/// Folds the evaluation vector at every point of `point` in order, each round
/// halving it exactly (equal adjacent results are all kept); at a point of
/// one coordinate per variable, what is left is the multilinear polynomial's
/// value there.
pub fn multilinear_evaluation_ztoa(poly: &mut Vec<Mersenne61Mont>, point: &Vec<Mersenne61Mont>)
    requires
        is_power_of_two(old(poly).len() as int),
        pow2(point.len() as nat) <= old(poly).len(),
    ensures
        views(final(poly)@) == ztoa(views(old(poly)@), views(point@)),
        final(poly)@.len() * pow2(point.len() as nat) == old(poly)@.len(),
{
    let n = log2_strict(poly.len());
    let ghost s0 = views(poly@);
    let ghost len0 = poly@.len();
    let ghost pts = views(point@);
    proof {
        if point.len() > n {
            vstd::arithmetic::power2::lemma_pow2_strictly_increases(n as nat, point.len() as nat);
        }
    }
    assert(pts.subrange(0, pts.len() as int) =~= pts);
    let mut t: usize = 0;
    while t < point.len()
        invariant
            pts == views(point@),
            point.len() <= n,
            t <= point.len(),
            poly@.len() == pow2((n - t) as nat),
            len0 == pow2(n as nat),
            ztoa(views(poly@), pts.subrange(t as int, pts.len() as int)) == ztoa(s0, pts),
        decreases point.len() - t,
    {
        let ghost cur = views(poly@);
        let ghost rest = pts.subrange(t as int, pts.len() as int);
        proof {
            assert(rest[0] == pts[t as int]);
            assert(rest.drop_first() =~= pts.subrange(t + 1, pts.len() as int));
            vstd::arithmetic::power2::lemma_pow2_unfold((n - t) as nat);
        }
        let pt = point[t];
        let len = poly.len();
        let half = len / 2;
        let mut next: Vec<Mersenne61Mont> = Vec::new();
        let mut i: usize = 0;
        while i < half
            invariant
                len == poly@.len(),
                half == poly@.len() / 2,
                poly@.len() % 2 == 0,
                cur == views(poly@),
                i <= half,
                views(next@) == ztoa_round(cur, pt@).subrange(0, i as int),
            decreases half - i,
        {
            let c = poly[2 * i].add(pt.mul(poly[2 * i + 1]));
            let ghost before = views(next@);
            next.push(c);
            assert(views(next@) =~= ztoa_round(cur, pt@).subrange(0, i + 1)) by {
                assert(views(next@) =~= before.push(c@));
            }
            i = i + 1;
        }
        assert(views(next@) =~= ztoa_round(cur, pt@));
        *poly = next;
        t = t + 1;
    }
    proof {
        assert(pts.subrange(pts.len() as int, pts.len() as int) =~= Seq::<int>::empty());
        vstd::arithmetic::power2::lemma_pow2_adds((n - point.len()) as nat, point.len() as nat);
    }
}

// ---------------------------------------------------------------------------
// Small evaluation helpers
// ---------------------------------------------------------------------------

/// The sum of a degree-2 polynomial's values at zero and one: `2 c0 + c1 + c2`.
pub fn degree_2_zero_plus_one(poly: &Vec<Mersenne61Mont>) -> (r: Mersenne61Mont)
    requires
        poly.len() >= 3,
    ensures
        r@ == fadd(fadd(fadd(poly[0]@, poly[0]@), poly[1]@), poly[2]@),
{
    poly[0].add(poly[0]).add(poly[1]).add(poly[2])
}

/// The value of a degree-2 polynomial at `point`: `c0 + point c1 + point^2 c2`.
pub fn degree_2_eval(poly: &Vec<Mersenne61Mont>, point: Mersenne61Mont) -> (r: Mersenne61Mont)
    requires
        poly.len() >= 3,
    ensures
        r@ == fadd(fadd(poly[0]@, fmul(point@, poly[1]@)), fmul(fmul(point@, point@), poly[2]@)),
{
    poly[0].add(point.mul(poly[1])).add(point.mul(point).mul(poly[2]))
}

/// The sum of the bytes, as a field element.
pub open spec fn byte_sum(b: Seq<u8>) -> int
    decreases b.len(),
{
    if b.len() == 0 {
        0
    } else {
        fadd(byte_sum(b.drop_last()), (b.last() as int) % p())
    }
}

/// The field element obtained by adding up the bytes one by one.
pub fn from_raw_bytes(bytes: &Vec<u8>) -> (r: Mersenne61Mont)
    ensures
        r@ == byte_sum(bytes@),
{
    let mut res = Mersenne61Mont::zero();
    for k in 0..bytes.len()
        invariant
            res@ == byte_sum(bytes@.subrange(0, k as int)),
    {
        proof {
            assert(bytes@.subrange(0, k + 1).drop_last() =~= bytes@.subrange(0, k as int));
        }
        res = res.add(Mersenne61Mont::from_int(bytes[k] as u64));
    }
    assert(bytes@.subrange(0, bytes.len() as int) =~= bytes@);
    res
}

/// The first four bytes of an element's representation, read big-endian.
pub open spec fn leading_u32(x: int) -> int {
    let b = le_bytes(x);
    (b[0] as int) * 16777216 + (b[1] as int) * 65536 + (b[2] as int) * 256 + (b[3] as int)
}

/// The codeword positions selected by random field elements: the leading four
/// bytes of each element, big-endian, reduced modulo the codeword length.
pub fn get_query_indices(rand_queries: &Vec<Mersenne61Mont>, codeword_len: usize) -> (r: Vec<usize>)
    requires
        codeword_len > 0,
    ensures
        r.len() == rand_queries.len(),
        forall|i: int|
            0 <= i < r.len() ==> #[trigger] r[i] == leading_u32(rand_queries[i]@) % (
            codeword_len as int),
{
    let mut out: Vec<usize> = Vec::new();
    for i in 0..rand_queries.len()
        invariant
            codeword_len > 0,
            out.len() == i,
            forall|k: int|
                0 <= k < i ==> #[trigger] out[k] == leading_u32(rand_queries[k]@) % (
                codeword_len as int),
    {
        let bytes = rand_queries[i].to_bytes();
        let x_int: u32 = (bytes[0] as u32) * 16777216 + (bytes[1] as u32) * 65536 + (bytes[2] as u32)
            * 256 + (bytes[3] as u32);
        out.push((x_int as usize) % codeword_len);
    }
    out
}

/// The ChaCha generator with twelve rounds, from which the prover draws the
/// challenges of the rounds it opens on its own.
#[verifier::external_type_specification]
#[verifier::external_body]
pub struct ExChaCha12Rng(ChaCha12Rng);

/// `<ChaCha12Rng as rand::SeedableRng>::from_entropy`: a generator seeded
/// from the operating system. Nothing is claimed of it.
#[verifier::external_body]
fn chacha_from_entropy() -> (r: ChaCha12Rng) {
    <ChaCha12Rng as rand::SeedableRng>::from_entropy()
}

/// `rand::RngCore::fill_bytes` on a buffer of `len` bytes. The contract
/// claims only the number of bytes; their values depend on the generator's
/// state.
#[verifier::external_body]
fn chacha_fill_bytes(rng: &mut ChaCha12Rng, len: usize) -> (r: Vec<u8>)
    ensures
        r@.len() == len,
{
    let mut dest = vec![0u8; len];
    rand::RngCore::fill_bytes(rng, &mut dest);
    dest
}

/// A field element drawn from the generator: the sum of eight bytes, the
/// size in bytes of the next power of two above the field's 61 bits.
pub fn rand_chacha(rng: &mut ChaCha12Rng) -> (r: Mersenne61Mont)
    ensures
        exists|b: Seq<u8>| b.len() == 8 && r@ == byte_sum(b),
{
    let bytes = chacha_fill_bytes(rng, 8);
    let r = from_raw_bytes(&bytes);
    assert(bytes@.len() == 8 && r@ == byte_sum(bytes@));
    r
}

/// One folding of integer values with a table level: entry `j` is the line
/// through the pair `2j`, `2j + 1` at the level's point, with its weight,
/// evaluated at the challenge.
pub open spec fn level_fold(v: Seq<int>, level: Seq<(Mersenne61Mont, Mersenne61Mont)>, c: int) -> Seq<int> {
    Seq::new(v.len() / 2, |j: int| line_at(level[j].0@, v[2 * j], v[2 * j + 1], level[j].1@, c))
}

/// The values folded `k` times from round `start` on, with the challenges
/// `cs` and the table levels of those rounds.
pub open spec fn folds_from(
    v: Seq<int>,
    table: Seq<Vec<(Mersenne61Mont, Mersenne61Mont)>>,
    start: nat,
    cs: Seq<int>,
    k: nat,
) -> Seq<int>
    decreases k,
{
    if k == 0 {
        v
    } else {
        level_fold(
            folds_from(v, table, start, cs, (k - 1) as nat),
            table[table.len() - 1 - (start + k - 1)]@,
            cs[k - 1],
        )
    }
}

/// One value, repeated.
pub open spec fn constant(v: Seq<int>) -> bool {
    v.len() >= 1 && forall|i: int| 0 <= i < v.len() ==> #[trigger] v[i] == v[0]
}

/// Opens the rounds after the first `num_rounds` on the prover's side:
/// draws a challenge per round from a freshly seeded generator, appends it to
/// `challenges`, folds the last oracle with it, and tells whether the oracle
/// folded to the end is one value repeated.
pub fn virtual_open(
    num_vars: usize,
    num_rounds: usize,
    last_oracle: &Vec<Mersenne61Mont>,
    challenges: &mut Vec<Mersenne61Mont>,
    table: &Vec<Vec<(Mersenne61Mont, Mersenne61Mont)>>,
) -> (r: bool)
    requires
        num_rounds <= num_vars,
        num_vars <= table.len(),
        last_oracle.len() == pow2((num_vars - num_rounds) as nat),
        forall|k: int|
            num_rounds <= k < num_vars ==> #[trigger] table@[table.len() - 1 - k]@.len() == pow2(
                (num_vars - k - 1) as nat,
            ),
    ensures
        final(challenges)@.len() == old(challenges)@.len() + (num_vars - num_rounds),
        final(challenges)@.subrange(0, old(challenges)@.len() as int) == old(challenges)@,
        r == constant(
            folds_from(
                views(last_oracle@),
                table@,
                num_rounds as nat,
                views(final(challenges)@).subrange(old(challenges)@.len() as int, final(challenges)@.len() as int),
                (num_vars - num_rounds) as nat,
            ),
        ),
{
    let mut rng = chacha_from_entropy();
    let rounds = num_vars - num_rounds;
    let ghost start = challenges@.len();
    let ghost c0 = challenges@;
    let ghost v0 = views(last_oracle@);
    let mut cur: Vec<Mersenne61Mont> = Vec::new();
    for i in 0..last_oracle.len()
        invariant
            cur@ == last_oracle@.subrange(0, i as int),
    {
        cur.push(last_oracle[i]);
        assert(cur@ =~= last_oracle@.subrange(0, i + 1));
    }
    assert(cur@ =~= last_oracle@);
    let mut round: usize = 0;
    while round < rounds
        invariant
            rounds == num_vars - num_rounds,
            num_rounds <= num_vars,
            num_vars <= table.len(),
            forall|k: int|
                num_rounds <= k < num_vars ==> #[trigger] table@[table.len() - 1 - k]@.len() == pow2(
                    (num_vars - k - 1) as nat,
                ),
            round <= rounds,
            start == old(challenges)@.len(),
            c0 == old(challenges)@,
            v0 == views(last_oracle@),
            challenges@.len() == start + round,
            challenges@.subrange(0, start as int) == c0,
            cur@.len() == pow2((rounds - round) as nat),
            views(cur@) == folds_from(
                v0,
                table@,
                num_rounds as nat,
                views(challenges@).subrange(start as int, challenges@.len() as int),
                round as nat,
            ),
        decreases rounds - round,
    {
        let c = rand_chacha(&mut rng);
        let ghost before = challenges@;
        challenges.push(c);
        assert(challenges@.subrange(0, start as int) =~= before.subrange(0, start as int));
        let ghost cs = views(challenges@).subrange(start as int, challenges@.len() as int);
        let ghost prev_cs = views(before).subrange(start as int, before.len() as int);
        assert forall|k: int| 0 <= k < round implies #[trigger] cs[k] == prev_cs[k] by {}
        proof {
            lemma_folds_from_prefix(v0, table@, num_rounds as nat, prev_cs, cs, round as nat);
            lemma_pow2_unfold((rounds - round) as nat);
            assert(table@[table.len() - 1 - (round + num_rounds)]@.len() == pow2((rounds - round - 1) as nat));
        }
        let next = basefold_one_round_by_interpolation_weights(table, round + num_rounds, &cur, c);
        assert(views(next@) =~= level_fold(
            views(cur@),
            table@[table.len() - 1 - (num_rounds + round)]@,
            cs[round as int],
        ));
        cur = next;
        round = round + 1;
    }
    proof {
        lemma2_to64();
    }
    let first = cur[0];
    let mut i: usize = 1;
    while i < cur.len()
        invariant
            start == old(challenges)@.len(),
            c0 == old(challenges)@,
            rounds == num_vars - num_rounds,
            v0 == views(last_oracle@),
            challenges@.len() == start + rounds,
            challenges@.subrange(0, start as int) == c0,
            views(cur@) == folds_from(
                v0,
                table@,
                num_rounds as nat,
                views(challenges@).subrange(start as int, challenges@.len() as int),
                rounds as nat,
            ),
            cur@.len() >= 1,
            first == cur@[0],
            1 <= i <= cur@.len(),
            forall|j: int| 0 <= j < i ==> #[trigger] views(cur@)[j] == views(cur@)[0],
        decreases cur@.len() - i,
    {
        if !cur[i].equals(&first) {
            assert(views(cur@)[i as int] != views(cur@)[0]);
            return false;
        }
        i = i + 1;
    }
    true
}

/// Folding uses only the challenges of the rounds folded.
proof fn lemma_folds_from_prefix(
    v: Seq<int>,
    table: Seq<Vec<(Mersenne61Mont, Mersenne61Mont)>>,
    start: nat,
    a: Seq<int>,
    b: Seq<int>,
    k: nat,
)
    requires
        k <= a.len(),
        k <= b.len(),
        forall|i: int| 0 <= i < k ==> #[trigger] a[i] == b[i],
    ensures
        folds_from(v, table, start, a, k) == folds_from(v, table, start, b, k),
    decreases k,
{
    if k > 0 {
        lemma_folds_from_prefix(v, table, start, a, b, (k - 1) as nat);
    }
}


// ---------------------------------------------------------------------------
// The shifted codeword and the checks of its openings
// ---------------------------------------------------------------------------

/// A value of the codeword shifted by the claim: `(c - eval) / (1 - point)`,
/// zero where `point == 1`.
pub open spec fn shifted(c: int, eval: int, point: int) -> int {
    fmul(fsub(c, eval), finv(fsub(1, point)))
}

/// The codeword the prover folds when it opens at `point`: every entry
/// shifted by the claimed value.
pub fn shifted_codeword(codeword: &Vec<Mersenne61Mont>, eval: Mersenne61Mont, point: Mersenne61Mont) -> (r: Vec<
    Mersenne61Mont,
>)
    ensures
        views(r@) == Seq::new(codeword@.len(), |j: int| shifted(codeword@[j]@, eval@, point@)),
{
    proof {
        crate::coset::lemma_finv_zero();
    }
    let d = Mersenne61Mont::one().sub(point);
    let inv = if d.iszero() {
        Mersenne61Mont::zero()
    } else {
        d.inverse()
    };
    let mut r: Vec<Mersenne61Mont> = Vec::new();
    let mut j: usize = 0;
    while j < codeword.len()
        invariant
            inv@ == finv(fsub(1, point@)),
            j <= codeword.len(),
            views(r@) == Seq::new(j as nat, |t: int| shifted(codeword@[t]@, eval@, point@)),
        decreases codeword.len() - j,
    {
        let v = codeword[j].sub(eval).mul(inv);
        let ghost before = views(r@);
        r.push(v);
        assert(views(r@) =~= before.push(v@));
        assert(views(r@) =~= Seq::new((j + 1) as nat, |t: int| shifted(codeword@[t]@, eval@, point@)));
        j = j + 1;
    }
    r
}

/// Why the verifier rejects the openings of the commitment against the
/// shifted codeword.
#[derive(Clone, Copy, Debug, PartialEq, Eq, Structural)]
pub enum OpeningCheckError {
    /// The `i`-th opening of the shifted codeword does not authenticate.
    EvalPath(usize),
    /// The `i`-th opening of the commitment does not authenticate.
    CommPath(usize),
    /// The `i`-th opening of the commitment, shifted, is not the shifted
    /// codeword's pair.
    Mismatch(usize),
}

/// The first of the first `k` pairs whose path does not authenticate it at
/// its index.
pub open spec fn first_bad_path(
    paths: Seq<Vec<([u8; 32], [u8; 32])>>,
    pairs: Seq<(Mersenne61Mont, Mersenne61Mont)>,
    indices: Seq<usize>,
    k: nat,
) -> Option<usize>
    decreases k,
{
    if k == 0 {
        None
    } else {
        match first_bad_path(paths, pairs, indices, (k - 1) as nat) {
            Some(i) => Some(i),
            None => if !crate::merkle::path_chain_ok(
                crate::merkle::pairs_view(paths[k - 1]@),
                pairs[k - 1].0@,
                pairs[k - 1].1@,
                indices[k - 1] as int,
            ) {
                Some((k - 1) as usize)
            } else {
                None
            },
        }
    }
}

/// The first of the first `k` pairs of the commitment that, shifted, is not
/// the shifted codeword's pair.
pub open spec fn first_mismatch(
    comm: Seq<(Mersenne61Mont, Mersenne61Mont)>,
    shifted_pairs: Seq<(Mersenne61Mont, Mersenne61Mont)>,
    eval: int,
    point: int,
    k: nat,
) -> Option<usize>
    decreases k,
{
    if k == 0 {
        None
    } else {
        match first_mismatch(comm, shifted_pairs, eval, point, (k - 1) as nat) {
            Some(i) => Some(i),
            None => if shifted(comm[k - 1].0@, eval, point) != shifted_pairs[k - 1].0@ || shifted(
                comm[k - 1].1@,
                eval,
                point,
            ) != shifted_pairs[k - 1].1@ {
                Some((k - 1) as usize)
            } else {
                None
            },
        }
    }
}

/// Once a path fails, the first failing path among more is that one.
proof fn lemma_first_bad_path_stays(
    paths: Seq<Vec<([u8; 32], [u8; 32])>>,
    pairs: Seq<(Mersenne61Mont, Mersenne61Mont)>,
    indices: Seq<usize>,
    j: nat,
    k: nat,
)
    requires
        j <= k,
        first_bad_path(paths, pairs, indices, j) is Some,
    ensures
        first_bad_path(paths, pairs, indices, k) == first_bad_path(paths, pairs, indices, j),
    decreases k - j,
{
    if j < k {
        lemma_first_bad_path_stays(paths, pairs, indices, j, (k - 1) as nat);
    }
}

/// Once a pair mismatches, the first mismatch among more is that one.
proof fn lemma_first_mismatch_stays(
    comm: Seq<(Mersenne61Mont, Mersenne61Mont)>,
    shifted_pairs: Seq<(Mersenne61Mont, Mersenne61Mont)>,
    eval: int,
    point: int,
    j: nat,
    k: nat,
)
    requires
        j <= k,
        first_mismatch(comm, shifted_pairs, eval, point, j) is Some,
    ensures
        first_mismatch(comm, shifted_pairs, eval, point, k) == first_mismatch(comm, shifted_pairs, eval, point, j),
    decreases k - j,
{
    if j < k {
        lemma_first_mismatch_stays(comm, shifted_pairs, eval, point, j, (k - 1) as nat);
    }
}

/// The index of the first pair whose path does not authenticate it.
fn find_bad_path(
    paths: &Vec<Vec<([u8; 32], [u8; 32])>>,
    pairs: &Vec<(Mersenne61Mont, Mersenne61Mont)>,
    indices: &Vec<usize>,
) -> (r: Option<usize>)
    requires
        pairs.len() <= paths.len(),
        pairs.len() <= indices.len(),
        forall|i: int| 0 <= i < pairs.len() ==> #[trigger] paths@[i]@.len() >= 1,
    ensures
        r == first_bad_path(paths@, pairs@, indices@, pairs.len() as nat),
{
    let mut i: usize = 0;
    while i < pairs.len()
        invariant
            pairs.len() <= paths.len(),
            pairs.len() <= indices.len(),
            forall|k: int| 0 <= k < pairs.len() ==> #[trigger] paths@[k]@.len() >= 1,
            i <= pairs.len(),
            first_bad_path(paths@, pairs@, indices@, i as nat) is None,
        decreases pairs.len() - i,
    {
        if !crate::merkle::authenticate_merkle_path(&paths[i], pairs[i], indices[i]) {
            proof {
                lemma_first_bad_path_stays(paths@, pairs@, indices@, (i + 1) as nat, pairs.len() as nat);
            }
            return Some(i);
        }
        i = i + 1;
    }
    None
}

/// The index of the first pair of the commitment that, shifted, is not the
/// shifted codeword's pair.
fn find_mismatch(
    comm: &Vec<(Mersenne61Mont, Mersenne61Mont)>,
    shifted_pairs: &Vec<(Mersenne61Mont, Mersenne61Mont)>,
    eval: Mersenne61Mont,
    point: Mersenne61Mont,
) -> (r: Option<usize>)
    requires
        point@ != 1,
        comm.len() <= shifted_pairs.len(),
    ensures
        r == first_mismatch(comm@, shifted_pairs@, eval@, point@, comm.len() as nat),
{
    let d = Mersenne61Mont::one().sub(point);
    assert(d@ != 0) by {
        lemma_fundamental_div_mod(1 - point@, p());
    }
    let inv = d.inverse();
    let mut i: usize = 0;
    while i < comm.len()
        invariant
            comm.len() <= shifted_pairs.len(),
            inv@ == finv(fsub(1, point@)),
            i <= comm.len(),
            first_mismatch(comm@, shifted_pairs@, eval@, point@, i as nat) is None,
        decreases comm.len() - i,
    {
        let s0 = comm[i].0.sub(eval).mul(inv);
        let s1 = comm[i].1.sub(eval).mul(inv);
        if !s0.equals(&shifted_pairs[i].0) || !s1.equals(&shifted_pairs[i].1) {
            proof {
                lemma_first_mismatch_stays(comm@, shifted_pairs@, eval@, point@, (i + 1) as nat, comm.len() as nat);
            }
            return Some(i);
        }
        i = i + 1;
    }
    None
}

/// Checks the openings of the commitment at the queries of the folding
/// phase: every pair authenticates at its index, then every pair, shifted
/// by the claim at `point`, is the first pair read by the query. The first
/// failing pair decides the error.
pub fn check_corresponding_openings(
    comm_pairs: &Vec<(Mersenne61Mont, Mersenne61Mont)>,
    comm_paths: &Vec<Vec<([u8; 32], [u8; 32])>>,
    indices: &Vec<usize>,
    first_pairs: &Vec<(Mersenne61Mont, Mersenne61Mont)>,
    eval: Mersenne61Mont,
    point: Mersenne61Mont,
) -> (r: Result<(), OpeningCheckError>)
    requires
        point@ != 1,
        comm_pairs.len() <= comm_paths.len(),
        comm_pairs.len() <= indices.len(),
        comm_pairs.len() <= first_pairs.len(),
        forall|i: int| 0 <= i < comm_pairs.len() ==> #[trigger] comm_paths@[i]@.len() >= 1,
    ensures
        r == (match first_bad_path(comm_paths@, comm_pairs@, indices@, comm_pairs.len() as nat) {
            Some(i) => Err(OpeningCheckError::CommPath(i)),
            None => match first_mismatch(comm_pairs@, first_pairs@, eval@, point@, comm_pairs.len() as nat) {
                Some(i) => Err(OpeningCheckError::Mismatch(i)),
                None => Ok(()),
            },
        }),
{
    match find_bad_path(comm_paths, comm_pairs, indices) {
        Some(i) => {
            return Err(OpeningCheckError::CommPath(i));
        },
        None => {},
    }
    match find_mismatch(comm_pairs, first_pairs, eval, point) {
        Some(i) => Err(OpeningCheckError::Mismatch(i)),
        None => Ok(()),
    }
}

/// The first of the first `k` queries whose opening of the shifted codeword,
/// or else of the commitment, does not authenticate.
pub open spec fn first_bad_pair_paths(
    eval_paths: Seq<Vec<([u8; 32], [u8; 32])>>,
    eval_pairs: Seq<(Mersenne61Mont, Mersenne61Mont)>,
    comm_paths: Seq<Vec<([u8; 32], [u8; 32])>>,
    comm_pairs: Seq<(Mersenne61Mont, Mersenne61Mont)>,
    indices: Seq<usize>,
    k: nat,
) -> Option<OpeningCheckError>
    decreases k,
{
    if k == 0 {
        None
    } else {
        let i = k - 1;
        match first_bad_pair_paths(eval_paths, eval_pairs, comm_paths, comm_pairs, indices, (k - 1) as nat) {
            Some(e) => Some(e),
            None => if !crate::merkle::path_chain_ok(
                crate::merkle::pairs_view(eval_paths[i]@),
                eval_pairs[i].0@,
                eval_pairs[i].1@,
                indices[i] as int,
            ) {
                Some(OpeningCheckError::EvalPath(i as usize))
            } else if !crate::merkle::path_chain_ok(
                crate::merkle::pairs_view(comm_paths[i]@),
                comm_pairs[i].0@,
                comm_pairs[i].1@,
                indices[i] as int,
            ) {
                Some(OpeningCheckError::CommPath(i as usize))
            } else {
                None
            },
        }
    }
}

/// Once a query's openings fail, the first failure among more is that one.
proof fn lemma_first_bad_pair_paths_stays(
    eval_paths: Seq<Vec<([u8; 32], [u8; 32])>>,
    eval_pairs: Seq<(Mersenne61Mont, Mersenne61Mont)>,
    comm_paths: Seq<Vec<([u8; 32], [u8; 32])>>,
    comm_pairs: Seq<(Mersenne61Mont, Mersenne61Mont)>,
    indices: Seq<usize>,
    j: nat,
    k: nat,
)
    requires
        j <= k,
        first_bad_pair_paths(eval_paths, eval_pairs, comm_paths, comm_pairs, indices, j) is Some,
    ensures
        first_bad_pair_paths(eval_paths, eval_pairs, comm_paths, comm_pairs, indices, k) == first_bad_pair_paths(
            eval_paths,
            eval_pairs,
            comm_paths,
            comm_pairs,
            indices,
            j,
        ),
    decreases k - j,
{
    if j < k {
        lemma_first_bad_pair_paths_stays(eval_paths, eval_pairs, comm_paths, comm_pairs, indices, j, (k - 1) as nat);
    }
}

/// Checks the extra queries of the consistency check: at every index the
/// shifted codeword's pair and then the commitment's pair authenticate, then
/// every commitment pair, shifted by the claim at `point`, is the shifted
/// codeword's pair. The first failing query decides the error.
pub fn check_consistency_openings(
    eval_pairs: &Vec<(Mersenne61Mont, Mersenne61Mont)>,
    eval_paths: &Vec<Vec<([u8; 32], [u8; 32])>>,
    comm_pairs: &Vec<(Mersenne61Mont, Mersenne61Mont)>,
    comm_paths: &Vec<Vec<([u8; 32], [u8; 32])>>,
    indices: &Vec<usize>,
    eval: Mersenne61Mont,
    point: Mersenne61Mont,
) -> (r: Result<(), OpeningCheckError>)
    requires
        point@ != 1,
        eval_pairs.len() <= eval_paths.len(),
        eval_pairs.len() <= comm_pairs.len(),
        eval_pairs.len() <= comm_paths.len(),
        eval_pairs.len() <= indices.len(),
        forall|i: int| 0 <= i < eval_pairs.len() ==> #[trigger] eval_paths@[i]@.len() >= 1,
        forall|i: int| 0 <= i < eval_pairs.len() ==> #[trigger] comm_paths@[i]@.len() >= 1,
    ensures
        ({
            let n = eval_pairs.len() as nat;
            r == (match first_bad_pair_paths(eval_paths@, eval_pairs@, comm_paths@, comm_pairs@, indices@, n) {
                Some(e) => Err(e),
                None => match first_mismatch(comm_pairs@.subrange(0, n as int), eval_pairs@, eval@, point@, n) {
                    Some(i) => Err(OpeningCheckError::Mismatch(i)),
                    None => Ok(()),
                },
            })
        }),
{
    let n = eval_pairs.len();
    let mut i: usize = 0;
    while i < n
        invariant
            n == eval_pairs.len(),
            eval_pairs.len() <= eval_paths.len(),
            eval_pairs.len() <= comm_pairs.len(),
            eval_pairs.len() <= comm_paths.len(),
            eval_pairs.len() <= indices.len(),
            forall|k: int| 0 <= k < n ==> #[trigger] eval_paths@[k]@.len() >= 1,
            forall|k: int| 0 <= k < n ==> #[trigger] comm_paths@[k]@.len() >= 1,
            i <= n,
            first_bad_pair_paths(eval_paths@, eval_pairs@, comm_paths@, comm_pairs@, indices@, i as nat) is None,
        decreases n - i,
    {
        if !crate::merkle::authenticate_merkle_path(&eval_paths[i], eval_pairs[i], indices[i]) {
            proof {
                lemma_first_bad_pair_paths_stays(eval_paths@, eval_pairs@, comm_paths@, comm_pairs@, indices@, (i + 1) as nat, n as nat);
            }
            return Err(OpeningCheckError::EvalPath(i));
        }
        if !crate::merkle::authenticate_merkle_path(&comm_paths[i], comm_pairs[i], indices[i]) {
            proof {
                lemma_first_bad_pair_paths_stays(eval_paths@, eval_pairs@, comm_paths@, comm_pairs@, indices@, (i + 1) as nat, n as nat);
            }
            return Err(OpeningCheckError::CommPath(i));
        }
        i = i + 1;
    }
    let mut prefix: Vec<(Mersenne61Mont, Mersenne61Mont)> = Vec::new();
    let mut k: usize = 0;
    while k < n
        invariant
            n == eval_pairs.len(),
            n <= comm_pairs.len(),
            k <= n,
            prefix@ == comm_pairs@.subrange(0, k as int),
        decreases n - k,
    {
        prefix.push(comm_pairs[k]);
        assert(prefix@ =~= comm_pairs@.subrange(0, k + 1));
        k = k + 1;
    }
    match find_mismatch(&prefix, eval_pairs, eval, point) {
        Some(i) => Err(OpeningCheckError::Mismatch(i)),
        None => Ok(()),
    }
}


// ---------------------------------------------------------------------------
// The tables of roots and weights
// ---------------------------------------------------------------------------

/// The base of level `i` of the tables for a domain of `2^lg_n` points: the
/// domain's generator raised to `2^(lg_n - 1 - i)`.
pub open spec fn level_base(g: int, lg_n: nat, i: nat) -> int {
    fpow(g, pow2((lg_n - 1 - i) as nat))
}

/// The number of entries of level `i`: two at level zero, `2^i` after.
pub open spec fn level_len(i: nat) -> nat {
    if i == 0 {
        2
    } else {
        pow2(i)
    }
}

/// The number of bits of a position in level `i`.
pub open spec fn level_bits(i: nat) -> nat {
    if i == 0 {
        1
    } else {
        i
    }
}

/// Level `i` of the root table: the first `level_len(i)` powers of its base.
pub open spec fn root_level(g: int, lg_n: nat, i: nat) -> Seq<int> {
    Seq::new(level_len(i), |j: int| fpow(level_base(g, lg_n, i), j as nat))
}

/// The weight of a root `x`: `1 / (-x - x)`, zero for a zero root.
pub open spec fn root_weight(x: int) -> int {
    finv(fsub(fsub(0, x), x))
}

/// The powers of `base` below `len`.
fn powers_of(base: Mersenne61Mont, len: usize) -> (r: Vec<Mersenne61Mont>)
    ensures
        views(r@) == Seq::new(len as nat, |j: int| fpow(base@, j as nat)),
{
    let mut r: Vec<Mersenne61Mont> = Vec::new();
    let mut cur = Mersenne61Mont::one();
    let mut j: usize = 0;
    while j < len
        invariant
            j <= len,
            cur@ == fpow(base@, j as nat),
            views(r@) == Seq::new(j as nat, |t: int| fpow(base@, t as nat)),
        decreases len - j,
    {
        let ghost before = views(r@);
        r.push(cur);
        assert(views(r@) =~= before.push(cur@));
        assert(views(r@) =~= Seq::new((j + 1) as nat, |t: int| fpow(base@, t as nat)));
        proof {
            crate::mersenne_61_mont::lemma_fmul_comm(cur@, base@);
        }
        cur = cur.mul(base);
        j = j + 1;
    }
    r
}

/// The tables of a domain of `2^lg_n` points: per level, the pairs of root
/// and weight in bit-reversed order, and the roots in natural order, for the
/// domain that the source `d` generates. Level `i` holds the powers of
/// `level_base(g, lg_n, i)` for that domain's generator `g`.
pub fn fri_tables(lg_n: usize, d: &RootOfUnity) -> (r: (Vec<Vec<(Mersenne61Mont, Mersenne61Mont)>>, Vec<Vec<Mersenne61Mont>>))
    requires
        1 <= lg_n <= d.log_order_view(),
    ensures
        fri_tables_of(r.0@, d.gen(lg_n as nat), lg_n as nat),
        r.0@.len() == lg_n,
        r.1@.len() == lg_n,
        forall|i: int| 0 <= i < lg_n ==> views(#[trigger] r.1@[i]@) == root_level(d.gen(lg_n as nat), lg_n as nat, i as nat),
        forall|i: int| 0 <= i < lg_n ==> #[trigger] r.0@[i]@.len() == level_len(i as nat),
        forall|i: int, k: int|
            #![trigger r.0@[i]@[k]]
            0 <= i < lg_n && 0 <= k < level_len(i as nat) ==> {
                let x = root_level(d.gen(lg_n as nat), lg_n as nat, i as nat)[rev_bits(k, level_bits(i as nat))];
                &&& r.0@[i]@[k].0@ == x
                &&& r.0@[i]@[k].1@ == root_weight(x)
            },
{
    proof {
        use_type_invariant(d);
        lemma2_to64();
        crate::coset::lemma_finv_zero();
    }
    let g = d.generator(lg_n);
    let mut pairs_table: Vec<Vec<(Mersenne61Mont, Mersenne61Mont)>> = Vec::new();
    let mut roots_table: Vec<Vec<Mersenne61Mont>> = Vec::new();
    let mut i: usize = 0;
    while i < lg_n
        invariant
            1 <= lg_n <= 30,
            g@ == d.gen(lg_n as nat),
            finv(0) == 0,
            i <= lg_n,
            pairs_table@.len() == i,
            roots_table@.len() == i,
            forall|t: int| 0 <= t < i ==> views(#[trigger] roots_table@[t]@) == root_level(d.gen(lg_n as nat), lg_n as nat, t as nat),
            forall|t: int| 0 <= t < i ==> #[trigger] pairs_table@[t]@.len() == level_len(t as nat),
            forall|t: int, k: int|
                #![trigger pairs_table@[t]@[k]]
                0 <= t < i && 0 <= k < level_len(t as nat) ==> {
                    let x = root_level(d.gen(lg_n as nat), lg_n as nat, t as nat)[rev_bits(k, level_bits(t as nat))];
                    &&& pairs_table@[t]@[k].0@ == x
                    &&& pairs_table@[t]@[k].1@ == root_weight(x)
                },
        decreases lg_n - i,
    {
        proof {
            lemma2_to64();
            if i > 0 {
                vstd::arithmetic::power2::lemma_pow2_strictly_increases(i as nat, 30);
            }
            vstd::arithmetic::power2::lemma2_to64_rest();
        }
        let base = crate::fold::exp_power_of_2(g, lg_n - 1 - i);
        let len: usize = if i == 0 {
            2
        } else {
            pow2_of(i)
        };
        let bits: usize = if i == 0 {
            1
        } else {
            i
        };
        assert(len == level_len(i as nat) && bits == level_bits(i as nat) && pow2(bits as nat) == len) by {
            lemma2_to64();
        }
        let roots = powers_of(base, len);
        let ghost rl = root_level(d.gen(lg_n as nat), lg_n as nat, i as nat);
        assert(views(roots@) =~= rl);
        let mut pairs: Vec<(Mersenne61Mont, Mersenne61Mont)> = Vec::new();
        let mut k: usize = 0;
        while k < len
            invariant
                len == level_len(i as nat),
                bits == level_bits(i as nat),
                pow2(bits as nat) == len,
                len <= 0x4000_0000,
                roots@.len() == len,
                views(roots@) == rl,
                finv(0) == 0,
                k <= len,
                pairs@.len() == k,
                forall|m: int|
                    #![trigger pairs@[m]]
                    0 <= m < k ==> {
                        let x = rl[rev_bits(m, bits as nat)];
                        &&& pairs@[m].0@ == x
                        &&& pairs@[m].1@ == root_weight(x)
                    },
            decreases len - k,
        {
            let idx = reverse_bits(k, bits);
            proof {
                lemma_rev_bits_bound(k as int, bits as nat);
            }
            let x = roots[idx];
            assert(x@ == rl[idx as int]);
            let d = Mersenne61Mont::zero().sub(x).sub(x);
            let w = if d.iszero() {
                Mersenne61Mont::zero()
            } else {
                d.inverse()
            };
            pairs.push((x, w));
            k = k + 1;
        }
        let ghost old_pairs = pairs_table@;
        let ghost old_roots = roots_table@;
        pairs_table.push(pairs);
        roots_table.push(roots);
        assert forall|t: int| 0 <= t < i + 1 implies views(#[trigger] roots_table@[t]@) == root_level(
            d.gen(lg_n as nat),
            lg_n as nat,
            t as nat,
        ) by {
            if t < i {
                assert(roots_table@[t] == old_roots[t]);
            }
        }
        assert forall|t: int| 0 <= t < i + 1 implies #[trigger] pairs_table@[t]@.len() == level_len(t as nat) by {
            if t < i {
                assert(pairs_table@[t] == old_pairs[t]);
            }
        }
        assert forall|t: int, k: int|
            #![trigger pairs_table@[t]@[k]]
            0 <= t < i + 1 && 0 <= k < level_len(t as nat) implies {
                let x = root_level(d.gen(lg_n as nat), lg_n as nat, t as nat)[rev_bits(k, level_bits(t as nat))];
                &&& pairs_table@[t]@[k].0@ == x
                &&& pairs_table@[t]@[k].1@ == root_weight(x)
            } by {
            if t < i {
                assert(pairs_table@[t] == old_pairs[t]);
            } else {
                assert(pairs_table@[t]@[k] == pairs@[k]);
            }
        }
        i = i + 1;
    }
    (pairs_table, roots_table)
}


/// The commitment to a polynomial: its coefficients encoded over the
/// foldable domain, in bit-reversed order, and the Merkle tree over that
/// codeword.
pub fn commit_codeword(
    coeffs: Vec<Mersenne61Mont>,
    log_rate: usize,
    table: &Vec<Vec<Mersenne61Mont>>,
) -> (r: (Vec<Mersenne61Mont>, Vec<Vec<[u8; 32]>>))
    requires
        is_power_of_two(coeffs.len() as int),
        coeffs.len() * pow2(log_rate as nat) <= usize::MAX,
        forall|n: nat| pow2(n) == coeffs.len() ==> foldable_table_ok(table@, log_rate as nat, n),
    ensures
        forall|n: nat|
            pow2(n) == coeffs.len() ==> {
                &&& views(r.0@) == bit_reversed(
                    foldable_encoding(views(coeffs@), log_rate as nat, table_view(table@), n),
                    n + log_rate as nat,
                )
                &&& crate::merkle::tree_view(r.1@) == crate::merkle::merkle_tree_of(views(r.0@), n + log_rate as nat)
            },
{
    let ghost c = views(coeffs@);
    let ghost n0 = choose|n: nat| pow2(n) == coeffs.len();
    let mut codeword = evaluate_over_foldable_domain(log_rate, coeffs, table);
    let ghost enc = foldable_encoding(c, log_rate as nat, table_view(table@), n0);
    proof {
        lemma_encoding_len(c, log_rate as nat, table_view(table@), n0);
        lemma_pow2_adds(n0, log_rate as nat);
    }
    assert(views(codeword@) == enc);
    assert(codeword@.len() == pow2(n0 + log_rate as nat));
    reverse_index_bits_in_place(&mut codeword);
    assert(views(codeword@) == bit_reversed(enc, n0 + log_rate as nat));
    assert(views(codeword@).len() == codeword@.len());
    let tree = crate::merkle::merkelize(&codeword);
    assert forall|n: nat| pow2(n) == c.len() implies {
        &&& views(codeword@) == bit_reversed(
            foldable_encoding(c, log_rate as nat, table_view(table@), n),
            n + log_rate as nat,
        )
        &&& crate::merkle::tree_view(tree@) == crate::merkle::merkle_tree_of(views(codeword@), n + log_rate as nat)
    } by {
        if n != n0 {
            if n < n0 {
                vstd::arithmetic::power2::lemma_pow2_strictly_increases(n, n0);
            } else {
                vstd::arithmetic::power2::lemma_pow2_strictly_increases(n0, n);
            }
        }
    }
    (codeword, tree)
}

/// The encoding of `c` over the foldable domain has `2^log_rate` entries per
/// coefficient.
pub proof fn lemma_encoding_len(c: Seq<int>, log_rate: nat, t: Seq<Seq<int>>, i: nat)
    ensures
        foldable_encoding(c, log_rate, t, i).len() == c.len() * pow2(log_rate),
    decreases i,
{
    lemma_pow2_pos(log_rate);
    vstd::arithmetic::mul::lemma_mul_nonnegative(c.len() as int, pow2(log_rate) as int);
    if i > 0 {
        lemma_encoding_len(c, log_rate, t, (i - 1) as nat);
    }
}


/// A power of a power multiplies the exponents.
pub proof fn lemma_fpow_fpow(x: int, a: nat, b: nat)
    ensures
        fpow(fpow(x, a), b) == fpow(x, a * b),
    decreases b,
{
    if b > 0 {
        let c = (b - 1) as nat;
        lemma_fpow_fpow(x, a, c);
        crate::mersenne_61_mont::lemma_fpow_add(x, a, a * c);
        assert(a + a * c == a * b) by (nonlinear_arith)
            requires
                c == b - 1,
        ;
        assert(fpow(fpow(x, a), b) == fmul(fpow(x, a), fpow(fpow(x, a), c)));
    } else {
        assert(a * b == 0) by (nonlinear_arith)
            requires
                b == 0,
        ;
    }
}

/// The levels of the root table are nested: in bit-reversed order, the
/// first half of level `k` is level `k - 1`, root for root (hence weight for
/// weight).
pub proof fn lemma_root_levels_nested(g: int, lg_n: nat, k: nat, m: int)
    requires
        2 <= k < lg_n,
        0 <= m < pow2((k - 1) as nat),
    ensures
        root_level(g, lg_n, k)[rev_bits(m, k)] == root_level(g, lg_n, (k - 1) as nat)[rev_bits(m, (k - 1) as nat)],
{
    let r = rev_bits(m, (k - 1) as nat);
    lemma_rev_bits_bound(m, (k - 1) as nat);
    assert(m / (pow2((k - 1) as nat) as int) == 0) by {
        vstd::arithmetic::div_mod::lemma_basic_div(m, pow2((k - 1) as nat) as int);
    }
    assert(rev_bits(m, k) == 2 * r);
    vstd::arithmetic::power2::lemma_pow2_unfold(k);
    let e = pow2((lg_n - 1 - k) as nat);
    assert(pow2((lg_n - 1 - (k - 1)) as nat) == 2 * e) by {
        vstd::arithmetic::power2::lemma_pow2_unfold((lg_n - k) as nat);
    }
    lemma_fpow_fpow(g, e, (2 * r) as nat);
    lemma_fpow_fpow(g, 2 * e, r as nat);
    assert(e * (2 * r) == (2 * e) * r) by (nonlinear_arith);
}

/// An honest opening of a committed codeword of `2^n` entries at `x`: the
/// pair is the codeword's pair holding `x`, and the path is the one the
/// codeword's Merkle tree gives for `x`.
pub open spec fn honest_opening(
    codeword: Seq<Mersenne61Mont>,
    n: nat,
    pair: (Mersenne61Mont, Mersenne61Mont),
    path: Vec<([u8; 32], [u8; 32])>,
    x: int,
) -> bool {
    &&& 0 <= x < codeword.len()
    &&& pair.0@ == codeword[crate::merkle::pair_lo(x)]@
    &&& pair.1@ == codeword[crate::merkle::pair_hi(x)]@
    &&& crate::merkle::pairs_view(path@) == crate::merkle::path_pairs(
        crate::merkle::merkle_tree_of(views(codeword), n),
        x,
        n - 1,
    )
}

/// An honest opening's path authenticates its pair.
proof fn lemma_honest_opening_path(
    codeword: Seq<Mersenne61Mont>,
    n: nat,
    pair: (Mersenne61Mont, Mersenne61Mont),
    path: Vec<([u8; 32], [u8; 32])>,
    x: int,
)
    requires
        codeword.len() == pow2(n),
        n >= 2,
        honest_opening(codeword, n, pair, path, x),
    ensures
        crate::merkle::path_chain_ok(crate::merkle::pairs_view(path@), pair.0@, pair.1@, x),
        0 <= crate::merkle::pair_lo(x) && crate::merkle::pair_hi(x) < codeword.len(),
{
    crate::merkle::lemma_merkle_path_complete(views(codeword), n, x);
    lemma_pair_bounds(x, n);
    assert(views(codeword)[crate::merkle::pair_lo(x)] == codeword[crate::merkle::pair_lo(x)]@);
    assert(views(codeword)[crate::merkle::pair_hi(x)] == codeword[crate::merkle::pair_hi(x)]@);
}

/// The pair holding a position of a codeword of `2^n` entries, `n >= 1`,
/// lies in the codeword.
proof fn lemma_pair_bounds(x: int, n: nat)
    requires
        0 <= x < pow2(n),
        n >= 1,
    ensures
        0 <= crate::merkle::pair_lo(x),
        crate::merkle::pair_hi(x) < pow2(n),
{
    vstd::arithmetic::power2::lemma_pow2_unfold(n);
}

/// Completeness of the check of corresponding openings: when every opened
/// pair of the commitment is an honest opening of the committed codeword at
/// its index, and every first pair is the pair of the shifted codeword at
/// the same index, no path is bad and no pair mismatches.
pub proof fn lemma_honest_corresponding_openings(
    codeword: Seq<Mersenne61Mont>,
    shifted_code: Seq<Mersenne61Mont>,
    n: nat,
    comm_pairs: Seq<(Mersenne61Mont, Mersenne61Mont)>,
    comm_paths: Seq<Vec<([u8; 32], [u8; 32])>>,
    indices: Seq<usize>,
    first_pairs: Seq<(Mersenne61Mont, Mersenne61Mont)>,
    eval: int,
    point: int,
    k: nat,
)
    requires
        codeword.len() == pow2(n),
        n >= 2,
        views(shifted_code) == Seq::new(codeword.len(), |j: int| shifted(codeword[j]@, eval, point)),
        forall|i: int|
            0 <= i < k ==> #[trigger] honest_opening(codeword, n, comm_pairs[i], comm_paths[i], indices[i] as int),
        forall|i: int|
            0 <= i < k ==> #[trigger] first_pairs[i].0@ == shifted_code[crate::merkle::pair_lo(indices[i] as int)]@
                && first_pairs[i].1@ == shifted_code[crate::merkle::pair_hi(indices[i] as int)]@,
    ensures
        first_bad_path(comm_paths, comm_pairs, indices, k) is None,
        first_mismatch(comm_pairs, first_pairs, eval, point, k) is None,
    decreases k,
{
    if k > 0 {
        let i = k - 1;
        lemma_honest_corresponding_openings(
            codeword,
            shifted_code,
            n,
            comm_pairs,
            comm_paths,
            indices,
            first_pairs,
            eval,
            point,
            (k - 1) as nat,
        );
        assert(honest_opening(codeword, n, comm_pairs[i], comm_paths[i], indices[i] as int));
        lemma_honest_opening_path(codeword, n, comm_pairs[i], comm_paths[i], indices[i] as int);
        let x = indices[i] as int;
        let lo = crate::merkle::pair_lo(x);
        let hi = crate::merkle::pair_hi(x);
        assert(first_pairs[i].0@ == shifted_code[lo]@ && first_pairs[i].1@ == shifted_code[hi]@);
        assert(views(shifted_code).len() == shifted_code.len());
        assert(views(shifted_code)[lo] == shifted_code[lo]@);
        assert(views(shifted_code)[hi] == shifted_code[hi]@);
    }
}

/// Completeness of the check of consistency openings: when every opened
/// pair of the commitment is an honest opening of the committed codeword,
/// and every opened pair of the evaluation is an honest opening of the
/// shifted codeword at the same index, no path is bad and no pair
/// mismatches.
pub proof fn lemma_honest_consistency_openings(
    codeword: Seq<Mersenne61Mont>,
    shifted_code: Seq<Mersenne61Mont>,
    n: nat,
    eval_pairs: Seq<(Mersenne61Mont, Mersenne61Mont)>,
    eval_paths: Seq<Vec<([u8; 32], [u8; 32])>>,
    comm_pairs: Seq<(Mersenne61Mont, Mersenne61Mont)>,
    comm_paths: Seq<Vec<([u8; 32], [u8; 32])>>,
    indices: Seq<usize>,
    eval: int,
    point: int,
    k: nat,
)
    requires
        codeword.len() == pow2(n),
        n >= 2,
        views(shifted_code) == Seq::new(codeword.len(), |j: int| shifted(codeword[j]@, eval, point)),
        k <= comm_pairs.len(),
        forall|i: int|
            0 <= i < k ==> #[trigger] honest_opening(codeword, n, comm_pairs[i], comm_paths[i], indices[i] as int),
        forall|i: int|
            0 <= i < k ==> #[trigger] honest_opening(shifted_code, n, eval_pairs[i], eval_paths[i], indices[i] as int),
    ensures
        first_bad_pair_paths(eval_paths, eval_pairs, comm_paths, comm_pairs, indices, k) is None,
        first_mismatch(comm_pairs.subrange(0, k as int), eval_pairs, eval, point, k) is None,
    decreases k,
{
    if k > 0 {
        let i = k - 1;
        lemma_honest_consistency_openings(
            codeword,
            shifted_code,
            n,
            eval_pairs,
            eval_paths,
            comm_pairs,
            comm_paths,
            indices,
            eval,
            point,
            (k - 1) as nat,
        );
        assert(honest_opening(codeword, n, comm_pairs[i], comm_paths[i], indices[i] as int));
        assert(honest_opening(shifted_code, n, eval_pairs[i], eval_paths[i], indices[i] as int));
        lemma_honest_opening_path(codeword, n, comm_pairs[i], comm_paths[i], indices[i] as int);
        lemma_honest_opening_path(shifted_code, n, eval_pairs[i], eval_paths[i], indices[i] as int);
        let x = indices[i] as int;
        let lo = crate::merkle::pair_lo(x);
        let hi = crate::merkle::pair_hi(x);
        assert(views(shifted_code)[lo] == shifted_code[lo]@);
        assert(views(shifted_code)[hi] == shifted_code[hi]@);
        let c = comm_pairs.subrange(0, k as int);
        let c1 = comm_pairs.subrange(0, k - 1);
        assert(c[i] == comm_pairs[i]);
        lemma_first_mismatch_prefix(c, c1, eval_pairs, eval, point, (k - 1) as nat);
    }
}

/// The first mismatch among the first `k` pairs reads only those pairs.
proof fn lemma_first_mismatch_prefix(
    a: Seq<(Mersenne61Mont, Mersenne61Mont)>,
    b: Seq<(Mersenne61Mont, Mersenne61Mont)>,
    shifted_pairs: Seq<(Mersenne61Mont, Mersenne61Mont)>,
    eval: int,
    point: int,
    k: nat,
)
    requires
        k <= a.len(),
        k <= b.len(),
        forall|i: int| 0 <= i < k ==> a[i] == b[i],
    ensures
        first_mismatch(a, shifted_pairs, eval, point, k) == first_mismatch(b, shifted_pairs, eval, point, k),
    decreases k,
{
    if k > 0 {
        lemma_first_mismatch_prefix(a, b, shifted_pairs, eval, point, (k - 1) as nat);
    }
}

/// Reversing the bits of an even index `2j` over `m + 1` bits is reversing
/// those of `j` over `m` bits.
pub proof fn lemma_rev_bits_double(j: int, m: nat)
    requires
        j >= 0,
    ensures
        rev_bits(2 * j, m + 1) == rev_bits(j, m),
    decreases m,
{
    lemma2_to64();
    assert(rev_bits(2 * j, m + 1) == 2 * rev_bits(2 * j, m) + ((2 * j) / (pow2(m) as int)) % 2);
    if m > 0 {
        lemma_rev_bits_double(j, (m - 1) as nat);
        vstd::arithmetic::power2::lemma_pow2_unfold(m);
        vstd::arithmetic::power2::lemma_pow2_pos((m - 1) as nat);
        vstd::arithmetic::div_mod::lemma_div_denominator(2 * j, 2, pow2((m - 1) as nat) as int);
        assert((2 * j) / 2 == j);
        assert(rev_bits(j, m) == 2 * rev_bits(j, (m - 1) as nat) + (j / (pow2((m - 1) as nat) as int)) % 2);
        assert((2 * j) / (pow2(m) as int) == j / (pow2((m - 1) as nat) as int));
    } else {
        assert(pow2(0) == 1);
        assert((2 * j) / 1 == 2 * j);
        assert((2 * j) % 2 == 0);
    }
}

/// The levels that `fri_tables` builds for the domain of `2^lg_n` points
/// generated by `g`: per level, the pairs of root and weight in bit-reversed
/// order.
pub open spec fn fri_tables_of(table: Seq<Vec<(Mersenne61Mont, Mersenne61Mont)>>, g: int, lg_n: nat) -> bool {
    &&& table.len() == lg_n
    &&& forall|i: int| 0 <= i < lg_n ==> #[trigger] table[i]@.len() == level_len(i as nat)
    &&& forall|i: int, k: int|
        #![trigger table[i]@[k]]
        0 <= i < lg_n && 0 <= k < level_len(i as nat) ==> {
            let x = root_level(g, lg_n, i as nat)[rev_bits(k, level_bits(i as nat))];
            &&& table[i]@[k].0@ == x
            &&& table[i]@[k].1@ == root_weight(x)
        }
}

/// Query `i`'s shifted pair and commitment pair both authenticate along
/// their paths at the query's position.
pub open spec fn pair_paths_authenticated(
    eval_paths: Seq<Vec<([u8; 32], [u8; 32])>>,
    eval_pairs: Seq<(Mersenne61Mont, Mersenne61Mont)>,
    comm_paths: Seq<Vec<([u8; 32], [u8; 32])>>,
    comm_pairs: Seq<(Mersenne61Mont, Mersenne61Mont)>,
    indices: Seq<usize>,
    i: int,
) -> bool {
    &&& crate::merkle::path_chain_ok(
        crate::merkle::pairs_view(eval_paths[i]@),
        eval_pairs[i].0@,
        eval_pairs[i].1@,
        indices[i] as int,
    )
    &&& crate::merkle::path_chain_ok(
        crate::merkle::pairs_view(comm_paths[i]@),
        comm_pairs[i].0@,
        comm_pairs[i].1@,
        indices[i] as int,
    )
}

/// When no path among the first `k` queries fails, every one of them (not
/// only the first) has both its pairs authenticated.
pub proof fn lemma_no_bad_pair_paths_authenticates(
    eval_paths: Seq<Vec<([u8; 32], [u8; 32])>>,
    eval_pairs: Seq<(Mersenne61Mont, Mersenne61Mont)>,
    comm_paths: Seq<Vec<([u8; 32], [u8; 32])>>,
    comm_pairs: Seq<(Mersenne61Mont, Mersenne61Mont)>,
    indices: Seq<usize>,
    k: nat,
)
    requires
        first_bad_pair_paths(eval_paths, eval_pairs, comm_paths, comm_pairs, indices, k) is None,
    ensures
        forall|i: int|
            0 <= i < k ==> #[trigger] pair_paths_authenticated(eval_paths, eval_pairs, comm_paths, comm_pairs, indices, i),
    decreases k,
{
    if k > 0 {
        lemma_no_bad_pair_paths_authenticates(eval_paths, eval_pairs, comm_paths, comm_pairs, indices, (k - 1) as nat);
        assert(pair_paths_authenticated(eval_paths, eval_pairs, comm_paths, comm_pairs, indices, k - 1));
    }
}

/// Soundness of the consistency check: when it accepts the openings of `n`
/// queries (the outcome `check_consistency_openings` returns), every query's
/// shifted pair and commitment pair authenticate along their paths.
pub proof fn lemma_consistency_accepted_authenticates(
    eval_paths: Seq<Vec<([u8; 32], [u8; 32])>>,
    eval_pairs: Seq<(Mersenne61Mont, Mersenne61Mont)>,
    comm_paths: Seq<Vec<([u8; 32], [u8; 32])>>,
    comm_pairs: Seq<(Mersenne61Mont, Mersenne61Mont)>,
    indices: Seq<usize>,
    eval: int,
    point: int,
    n: nat,
)
    requires
        (match first_bad_pair_paths(eval_paths, eval_pairs, comm_paths, comm_pairs, indices, n) {
            Some(e) => Err(e),
            None => match first_mismatch(comm_pairs.subrange(0, n as int), eval_pairs, eval, point, n) {
                Some(i) => Err(OpeningCheckError::Mismatch(i)),
                None => Ok(()),
            },
        }) == Ok::<(), OpeningCheckError>(()),
    ensures
        forall|i: int|
            0 <= i < n ==> #[trigger] pair_paths_authenticated(eval_paths, eval_pairs, comm_paths, comm_pairs, indices, i),
{
    lemma_no_bad_pair_paths_authenticates(eval_paths, eval_pairs, comm_paths, comm_pairs, indices, n);
}

} // verus!
