//! Codeword operations of the folding-based Zeromorph variant: splitting a
//! codeword into its even and odd parts, quotients and remainders by a linear
//! factor, folding, barycentric weights and evaluation from evaluations; and
//! the verifier's check of one query and of the degree identity at `xi`.
use crate::basefold::query_views;
use crate::coset::{horner, lemma_finv_zero, poly_eval};
use crate::fold::exp_power_of_2;
use crate::merkle::{
    authenticate_merkle_path, authenticate_merkle_path_root, dseq, pairs_view, path_chain_ok,
    path_root_ok,
};
use crate::mersenne_61_mont::{
    fadd, fdiv, finv, fmul, fneg, fpow, fsub, lemma_fmul_comm, lemma_view_range, p, views,
    Mersenne61Mont,
};
use crate::mmcs::{authenticate_merkle_path_mmcs, mmcs_climb};
use crate::util::pow2_of;
use crate::zeromorph_fri_v2::chosen_point;
use vstd::arithmetic::power2::{lemma2_to64, lemma_pow2_pos, lemma_pow2_strictly_increases, pow2};
use std::marker::PhantomData;
use vstd::prelude::*;

verus! {

broadcast use lemma_view_range;

/// The folding-based Zeromorph reduction, over a univariate scheme `Pcs`.
pub struct ZeromorphFriV4<Pcs>(PhantomData<Pcs>);

/// The inverse of two in the field.
pub open spec fn inv2() -> int {
    (p() + 1) / 2
}

/// The sum of a sequence of field elements.
pub open spec fn fsum(s: Seq<int>) -> int
    decreases s.len(),
{
    if s.len() == 0 {
        0
    } else {
        fadd(fsum(s.drop_last()), s.last())
    }
}

/// The product of a sequence of field elements.
pub open spec fn fprod(s: Seq<int>) -> int
    decreases s.len(),
{
    if s.len() == 0 {
        1
    } else {
        fmul(fprod(s.drop_last()), s.last())
    }
}

/// `1 + x + ... + x^(m-1)` in the field.
pub open spec fn fgeom(x: int, m: nat) -> int
    decreases m,
{
    if m == 0 {
        0
    } else {
        fadd(fgeom(x, (m - 1) as nat), fpow(x, (m - 1) as nat))
    }
}

/// The even part of a codeword at `i`: the mean of positions `2i` and `2i+1`.
pub open spec fn even_at(c: Seq<int>, i: int) -> int {
    fmul(fadd(c[2 * i], c[2 * i + 1]), inv2())
}

/// The odd part of a codeword at `i`: the scaled difference of `2i+1` and `2i`.
pub open spec fn odd_at(c: Seq<int>, w: int, i: int) -> int {
    fmul(fsub(c[2 * i + 1], c[2 * i]), w)
}

/// The table weights, as integers.
pub open spec fn table_weights(t: Seq<(Mersenne61Mont, Mersenne61Mont)>) -> Seq<int> {
    t.map_values(|e: (Mersenne61Mont, Mersenne61Mont)| e.1@)
}

/// The table points, as integers.
pub open spec fn table_points(t: Seq<(Mersenne61Mont, Mersenne61Mont)>) -> Seq<int> {
    t.map_values(|e: (Mersenne61Mont, Mersenne61Mont)| e.0@)
}

/// The even part of a codeword.
pub fn even_code_op(code: &Vec<Mersenne61Mont>) -> (r: Vec<Mersenne61Mont>)
    ensures
        r.len() == code.len() / 2,
        forall|i: int| 0 <= i < r.len() ==> #[trigger] r[i]@ == even_at(views(code@), i),
{
    let n = code.len();
    let two_inv = Mersenne61Mont::inverse_2();
    let mut even_code: Vec<Mersenne61Mont> = Vec::new();
    for i in 0..n / 2
        invariant
            n == code.len(),
            two_inv@ == inv2(),
            even_code.len() == i,
            forall|k: int| 0 <= k < i ==> #[trigger] even_code[k]@ == even_at(views(code@), k),
    {
        even_code.push(code[2 * i].add(code[2 * i + 1]).mul(two_inv));
    }
    even_code
}

/// The odd part of a codeword, scaled by the table weights.
pub fn odd_code_op(code: &Vec<Mersenne61Mont>, table_w_weights: &Vec<(Mersenne61Mont, Mersenne61Mont)>) -> (r:
    Vec<Mersenne61Mont>)
    requires
        code.len() == table_w_weights.len() * 2,
    ensures
        r.len() == table_w_weights.len(),
        forall|i: int|
            0 <= i < r.len() ==> #[trigger] r[i]@ == odd_at(views(code@), table_w_weights[i].1@, i),
{
    let n = code.len();
    let mut odd_code: Vec<Mersenne61Mont> = Vec::new();
    for i in 0..n / 2
        invariant
            n == code.len(),
            n == table_w_weights.len() * 2,
            odd_code.len() == i,
            forall|k: int|
                0 <= k < i ==> #[trigger] odd_code[k]@ == odd_at(
                    views(code@),
                    table_w_weights[k].1@,
                    k,
                ),
    {
        odd_code.push(code[2 * i + 1].sub(code[2 * i]).mul(table_w_weights[i].1));
    }
    odd_code
}

/// The quotient of a codeword by the linear factor: odd part minus even part.
pub fn quotient_op(code: &Vec<Mersenne61Mont>, table_w_weights: &Vec<(Mersenne61Mont, Mersenne61Mont)>) -> (r:
    Vec<Mersenne61Mont>)
    requires
        code.len() == table_w_weights.len() * 2,
    ensures
        r.len() == table_w_weights.len(),
        forall|i: int|
            0 <= i < r.len() ==> #[trigger] r[i]@ == fsub(
                odd_at(views(code@), table_w_weights[i].1@, i),
                even_at(views(code@), i),
            ),
{
    let even_code = even_code_op(code);
    let odd_code = odd_code_op(code, table_w_weights);
    let mut quotient: Vec<Mersenne61Mont> = Vec::new();
    for i in 0..even_code.len()
        invariant
            even_code.len() == table_w_weights.len(),
            odd_code.len() == table_w_weights.len(),
            forall|k: int| 0 <= k < even_code.len() ==> #[trigger] even_code[k]@ == even_at(views(code@), k),
            forall|k: int|
                0 <= k < odd_code.len() ==> #[trigger] odd_code[k]@ == odd_at(
                    views(code@),
                    table_w_weights[k].1@,
                    k,
                ),
            quotient.len() == i,
            forall|k: int|
                0 <= k < i ==> #[trigger] quotient[k]@ == fsub(
                    odd_at(views(code@), table_w_weights[k].1@, k),
                    even_at(views(code@), k),
                ),
    {
        quotient.push(odd_code[i].sub(even_code[i]));
    }
    quotient
}

/// The quotient computed from coefficients: differences of adjacent pairs.
pub fn quotient_op_coef(coef: &Vec<Mersenne61Mont>) -> (r: Vec<Mersenne61Mont>)
    requires
        coef.len() % 2 == 0,
    ensures
        r.len() == coef.len() / 2,
        forall|i: int|
            0 <= i < r.len() ==> #[trigger] r[i]@ == fsub(coef[2 * i + 1]@, coef[2 * i]@),
{
    let n = coef.len();
    let mut quotient: Vec<Mersenne61Mont> = Vec::new();
    for i in 0..n / 2
        invariant
            n == coef.len(),
            n % 2 == 0,
            quotient.len() == i,
            forall|k: int|
                0 <= k < i ==> #[trigger] quotient[k]@ == fsub(coef[2 * k + 1]@, coef[2 * k]@),
    {
        quotient.push(coef[2 * i + 1].sub(coef[2 * i]));
    }
    quotient
}

/// The remainder of a codeword at `point`: `(1 - point) * even + point * odd`.
pub fn remainder_op(
    code: &Vec<Mersenne61Mont>,
    point: Mersenne61Mont,
    table_w_weights: &Vec<(Mersenne61Mont, Mersenne61Mont)>,
) -> (r: Vec<Mersenne61Mont>)
    requires
        code.len() == table_w_weights.len() * 2,
    ensures
        r.len() == table_w_weights.len(),
        forall|i: int|
            0 <= i < r.len() ==> #[trigger] r[i]@ == fadd(
                fmul(fsub(1, point@), even_at(views(code@), i)),
                fmul(point@, odd_at(views(code@), table_w_weights[i].1@, i)),
            ),
{
    let even_code = even_code_op(code);
    let odd_code = odd_code_op(code, table_w_weights);
    let one_minus = Mersenne61Mont::one().sub(point);
    let mut remainder: Vec<Mersenne61Mont> = Vec::new();
    for i in 0..even_code.len()
        invariant
            even_code.len() == table_w_weights.len(),
            odd_code.len() == table_w_weights.len(),
            one_minus@ == fsub(1, point@),
            forall|k: int| 0 <= k < even_code.len() ==> #[trigger] even_code[k]@ == even_at(views(code@), k),
            forall|k: int|
                0 <= k < odd_code.len() ==> #[trigger] odd_code[k]@ == odd_at(
                    views(code@),
                    table_w_weights[k].1@,
                    k,
                ),
            remainder.len() == i,
            forall|k: int|
                0 <= k < i ==> #[trigger] remainder[k]@ == fadd(
                    fmul(fsub(1, point@), even_at(views(code@), k)),
                    fmul(point@, odd_at(views(code@), table_w_weights[k].1@, k)),
                ),
    {
        remainder.push(one_minus.mul(even_code[i]).add(point.mul(odd_code[i])));
    }
    remainder
}

/// The remainder computed from coefficients: `c[2i] + point * (c[2i+1] - c[2i])`.
pub fn remainder_op_coef(coef: &Vec<Mersenne61Mont>, point: Mersenne61Mont) -> (r: Vec<Mersenne61Mont>)
    requires
        coef.len() % 2 == 0,
    ensures
        r.len() == coef.len() / 2,
        forall|i: int|
            0 <= i < r.len() ==> #[trigger] r[i]@ == fadd(
                coef[2 * i]@,
                fmul(point@, fsub(coef[2 * i + 1]@, coef[2 * i]@)),
            ),
{
    let n = coef.len();
    let mut remainder: Vec<Mersenne61Mont> = Vec::new();
    for i in 0..n / 2
        invariant
            n == coef.len(),
            n % 2 == 0,
            remainder.len() == i,
            forall|k: int|
                0 <= k < i ==> #[trigger] remainder[k]@ == fadd(
                    coef[2 * k]@,
                    fmul(point@, fsub(coef[2 * k + 1]@, coef[2 * k]@)),
                ),
    {
        remainder.push(coef[2 * i].add(point.mul(coef[2 * i + 1].sub(coef[2 * i]))));
    }
    remainder
}

/// `1 + x + x^2 + ... + x^(2^k - 1)`.
pub fn phi(k: usize, x: Mersenne61Mont) -> (r: Mersenne61Mont)
    requires
        pow2(k as nat) <= usize::MAX,
    ensures
        r@ == fgeom(x@, pow2(k as nat)),
{
    let mut base = Mersenne61Mont::one();
    let mut result = Mersenne61Mont::zero();
    let m = pow2_of(k);
    for i in 0..m
        invariant
            base@ == fpow(x@, i as nat),
            result@ == fgeom(x@, i as nat),
    {
        result = result.add(base);
        proof {
            lemma_fmul_comm(base@, x@);
        }
        base = base.mul(x);
    }
    result
}

/// One folding round on evaluations: `even + alpha * odd` at every position.
pub fn fold(evals: Vec<Mersenne61Mont>, alpha: Mersenne61Mont, table_w_weights: &Vec<(Mersenne61Mont, Mersenne61Mont)>) -> (r:
    Vec<Mersenne61Mont>)
    requires
        evals.len() == table_w_weights.len() * 2,
    ensures
        r.len() == table_w_weights.len(),
        forall|i: int|
            0 <= i < r.len() ==> #[trigger] r[i]@ == fadd(
                even_at(views(evals@), i),
                fmul(alpha@, odd_at(views(evals@), table_w_weights[i].1@, i)),
            ),
{
    let n = evals.len();
    let two_inv = Mersenne61Mont::inverse_2();
    let mut res: Vec<Mersenne61Mont> = Vec::new();
    for i in 0..n / 2
        invariant
            n == evals.len(),
            n == table_w_weights.len() * 2,
            two_inv@ == inv2(),
            res.len() == i,
            forall|k: int|
                0 <= k < i ==> #[trigger] res[k]@ == fadd(
                    even_at(views(evals@), k),
                    fmul(alpha@, odd_at(views(evals@), table_w_weights[k].1@, k)),
                ),
    {
        let f_even = evals[2 * i].add(evals[2 * i + 1]).mul(two_inv);
        let f_odd = evals[2 * i + 1].sub(evals[2 * i]).mul(table_w_weights[i].1);
        res.push(f_even.add(alpha.mul(f_odd)));
    }
    res
}

/// Inverts every element of a vector in place, leaving zeros as zero.
pub fn batch_invert(v: &mut Vec<Mersenne61Mont>)
    ensures
        final(v).len() == old(v).len(),
        forall|i: int| 0 <= i < final(v).len() ==> #[trigger] final(v)[i]@ == finv(old(v)[i]@),
{
    let ghost orig = v@;
    let n = v.len();
    for i in 0..n
        invariant
            n == v.len(),
            orig.len() == n,
            forall|k: int| 0 <= k < i ==> #[trigger] v[k]@ == finv(orig[k]@),
            forall|k: int| i <= k < n ==> #[trigger] v[k] == orig[k],
    {
        let x = v[i];
        if !x.iszero() {
            v.set(i, x.inverse());
        } else {
            proof {
                assert(!crate::mersenne_61_mont::has_inverse(0)) by {
                    assert forall|y: int| 0 <= y < p() implies #[trigger] fmul(0, y) != 1 by {
                    }
                }
            }
        }
    }
}

/// The sum of the elements of a vector.
pub fn sum_elements(v: &Vec<Mersenne61Mont>) -> (r: Mersenne61Mont)
    ensures
        r@ == fsum(views(v@)),
{
    let mut acc = Mersenne61Mont::zero();
    for i in 0..v.len()
        invariant
            acc@ == fsum(views(v@).subrange(0, i as int)),
    {
        proof {
            assert(views(v@).subrange(0, i + 1).drop_last() =~= views(v@).subrange(0, i as int));
        }
        acc = acc.add(v[i]);
    }
    assert(views(v@).subrange(0, v.len() as int) =~= views(v@));
    acc
}

/// The entries `1 / (point - x)` and `1 / (point + x)` for every table point
/// `x`, those entries scaled by the weights, and the sum of the scaled entries.
pub fn precompute_e_vec(
    point: Mersenne61Mont,
    weights: &Vec<Mersenne61Mont>,
    table: &Vec<(Mersenne61Mont, Mersenne61Mont)>,
) -> (r: (Vec<Mersenne61Mont>, Vec<Mersenne61Mont>, Mersenne61Mont))
    requires
        weights.len() == table.len() * 2,
    ensures
        r.0.len() == weights.len(),
        r.1.len() == weights.len(),
        forall|i: int|
            0 <= i < table.len() ==> #[trigger] r.0[2 * i]@ == finv(fsub(point@, table[i].0@))
                && r.0[2 * i + 1]@ == finv(fadd(point@, table[i].0@)),
        forall|i: int|
            0 <= i < weights.len() ==> #[trigger] r.1[i]@ == fmul(r.0[i]@, weights[i]@),
        r.2@ == fsum(views(r.1@)),
{
    let n = table.len() * 2;
    let mut e_vec: Vec<Mersenne61Mont> = Vec::new();
    for i in 0..table.len()
        invariant
            e_vec.len() == 2 * i,
            forall|k: int|
                0 <= k < i ==> #[trigger] e_vec[2 * k]@ == fsub(point@, table[k].0@) && e_vec[2 * k
                    + 1]@ == fadd(point@, table[k].0@),
    {
        let x = table[i].0;
        let ghost old_e = e_vec@;
        let lo = point.sub(x);
        let hi = point.add(x);
        e_vec.push(lo);
        e_vec.push(hi);
        assert(e_vec@ == old_e.push(lo).push(hi));
        assert(e_vec[2 * i as int] == lo && e_vec[2 * i as int + 1] == hi);
        assert forall|k: int| 0 <= k < i + 1 implies #[trigger] e_vec[2 * k]@ == fsub(point@, table[k].0@)
            && e_vec[2 * k + 1]@ == fadd(point@, table[k].0@) by {
            if k < i {
                assert(e_vec[2 * k] == old_e[2 * k]);
                assert(e_vec[2 * k + 1] == old_e[2 * k + 1]);
            } else {
                assert(k == i);
                assert(e_vec[2 * k] == lo && e_vec[2 * k + 1] == hi);
                assert(x == table[k].0);
            }
        }
    }
    let ghost before = e_vec@;
    batch_invert(&mut e_vec);
    let ghost e_vec_inv = e_vec@;
    let mut raw_e_vec: Vec<Mersenne61Mont> = Vec::new();
    for k in 0..e_vec.len()
        invariant
            raw_e_vec.len() == k,
            forall|m: int| 0 <= m < k ==> #[trigger] raw_e_vec[m] == e_vec[m],
    {
        raw_e_vec.push(e_vec[k]);
    }
    let mut i: usize = 0;
    while i < n
        invariant
            n == e_vec.len(),
            n == weights.len(),
            raw_e_vec.len() == n,
            forall|k: int| 0 <= k < i ==> #[trigger] e_vec[k]@ == fmul(raw_e_vec[k]@, weights[k]@),
            forall|k: int| i <= k < n ==> #[trigger] e_vec[k] == raw_e_vec[k],
        decreases n - i,
    {
        let e = e_vec[i].mul(weights[i]);
        e_vec.set(i, e);
        i = i + 1;
    }
    proof {
        assert forall|k: int| 0 <= k < table.len() implies #[trigger] raw_e_vec[2 * k]@ == finv(
            fsub(point@, table[k].0@),
        ) && raw_e_vec[2 * k + 1]@ == finv(fadd(point@, table[k].0@)) by {
            assert(before[2 * k]@ == fsub(point@, table[k].0@));
            assert(before[2 * k + 1]@ == fadd(point@, table[k].0@));
            assert(raw_e_vec[2 * k] == e_vec_inv[2 * k]);
            assert(raw_e_vec[2 * k + 1] == e_vec_inv[2 * k + 1]);
        }
    }
    let sum = sum_elements(&e_vec);
    (raw_e_vec, e_vec, sum)
}

/// The weighted sum of evaluations divided by `denominator`.
pub fn evaluate_from_evals(evals: &Vec<Mersenne61Mont>, e_vec: &Vec<Mersenne61Mont>, denominator: Mersenne61Mont) -> (r:
    Mersenne61Mont)
    requires
        evals.len() == e_vec.len(),
        denominator@ != 0,
    ensures
        r@ == fdiv(
            fsum(Seq::new(evals.len() as nat, |i: int| fmul(evals[i]@, e_vec[i]@))),
            denominator@,
        ),
{
    let ghost terms = Seq::new(evals.len() as nat, |i: int| fmul(evals[i]@, e_vec[i]@));
    let mut numerator = Mersenne61Mont::zero();
    for i in 0..evals.len()
        invariant
            evals.len() == e_vec.len(),
            terms == Seq::new(evals.len() as nat, |i: int| fmul(evals[i]@, e_vec[i]@)),
            numerator@ == fsum(terms.subrange(0, i as int)),
    {
        proof {
            assert(terms.subrange(0, i + 1).drop_last() =~= terms.subrange(0, i as int));
        }
        numerator = numerator.add(evals[i].mul(e_vec[i]));
    }
    assert(terms.subrange(0, evals.len() as int) =~= terms);
    numerator.div(denominator)
}

/// The factors of the barycentric weight at position `i` of the table domain
/// `[x0, -x0, x1, -x1, ...]`: its difference to every other domain point.
pub open spec fn weight_factors(xs: Seq<int>, i: int) -> Seq<int> {
    let first = if i % 2 == 0 {
        xs[i as int / 2]
    } else {
        fneg(xs[i as int / 2])
    };
    Seq::new(
        (2 * xs.len()) as nat,
        |j: int|
            if j == i {
                1
            } else if j % 2 == 0 {
                fsub(first, xs[j / 2])
            } else {
                fadd(first, xs[j / 2])
            },
    )
}

/// The barycentric weights of the table domain: the inverse of each point's
/// product of differences to the other points.
pub fn barycentric_weights(table: &Vec<(Mersenne61Mont, Mersenne61Mont)>) -> (r: Vec<Mersenne61Mont>)
    requires
        table.len() * 2 <= usize::MAX,
    ensures
        r.len() == table.len() * 2,
        forall|i: int|
            0 <= i < r.len() ==> #[trigger] r[i]@ == finv(
                fprod(weight_factors(table_points(table@), i)),
            ),
{
    let n = table.len() * 2;
    let ghost xs = table_points(table@);
    let mut weights: Vec<Mersenne61Mont> = Vec::new();
    for i in 0..n
        invariant
            n == table.len() * 2,
            xs == table_points(table@),
            weights.len() == i,
            forall|k: int|
                0 <= k < i ==> #[trigger] weights[k]@ == fprod(weight_factors(xs, k)),
    {
        let base = table[i / 2].0;
        let first = if i % 2 == 0 {
            base
        } else {
            base.neg()
        };
        let ghost f = weight_factors(xs, i as int);
        let mut t = Mersenne61Mont::one();
        proof {
            assert(xs[i as int / 2] == base@);
            assert(f.subrange(0, 0) =~= Seq::<int>::empty());
        }
        for j in 0..n / 2
            invariant
                n == table.len() * 2,
                xs == table_points(table@),
                f == weight_factors(xs, i as int),
                i < n,
                first@ == (if i % 2 == 0 {
                    xs[i as int / 2]
                } else {
                    fneg(xs[i as int / 2])
                }),
                t@ == fprod(f.subrange(0, 2 * j)),
        {
            let second = table[j].0;
            assert(xs[j as int] == second@);
            let ghost t0 = t@;
            proof {
                assert(f.subrange(0, 2 * j + 1).drop_last() =~= f.subrange(0, 2 * j));
                assert(f.subrange(0, 2 * j + 2).drop_last() =~= f.subrange(0, 2 * j + 1));
                assert((2 * j) / 2 == j && (2 * j + 1) / 2 == j);
                assert(fmul(t0, 1) == t0) by {
                    vstd::arithmetic::div_mod::lemma_small_mod(t0 as nat, p() as nat);
                }
            }
            assert(f[2 * j] == (if i == 2 * j {
                1
            } else {
                fsub(first@, second@)
            }));
            assert(f[2 * j + 1] == (if i == 2 * j + 1 {
                1
            } else {
                fadd(first@, second@)
            }));
            assert(fprod(f.subrange(0, 2 * j + 1)) == fmul(fprod(f.subrange(0, 2 * j)), f[2 * j]));
            assert(fprod(f.subrange(0, 2 * j + 2)) == fmul(fprod(f.subrange(0, 2 * j + 1)), f[2 * j + 1]));
            if i != 2 * j {
                t = t.mul(first.sub(second));
            }
            assert(t@ == fmul(t0, f[2 * j]));
            let ghost t1 = t@;
            proof {
                assert(fmul(t1, 1) == t1) by {
                    vstd::arithmetic::div_mod::lemma_small_mod(t1 as nat, p() as nat);
                }
            }
            if i != 2 * j + 1 {
                t = t.mul(first.add(second));
            }
            assert(t@ == fmul(t1, f[2 * j + 1]));
        }
        proof {
            assert(f.subrange(0, n as int) =~= f);
        }
        weights.push(t);
    }
    batch_invert(&mut weights);
    weights
}

/// The domain point that position `idx` lands on after `log_power` squarings:
/// the table point of its pair, negated at odd positions.
pub fn power_of_element(idx: usize, log_power: usize, table: &Vec<(Mersenne61Mont, Mersenne61Mont)>) -> (r:
    Mersenne61Mont)
    requires
        log_power < usize::BITS,
        (idx as int / pow2(log_power as nat) as int) / 2 < table.len(),
    ensures
        ({
            let new_idx = idx as int / pow2(log_power as nat) as int;
            r@ == (if new_idx % 2 == 0 {
                table[new_idx / 2].0@
            } else {
                fneg(table[new_idx / 2].0@)
            })
        }),
{
    proof {
        vstd::bits::lemma_usize_shr_is_div(idx, log_power);
    }
    let new_idx = idx >> log_power;
    assert((new_idx >> 1) == new_idx / 2 && (new_idx & 1) == new_idx % 2) by (bit_vector);
    let x = table[new_idx >> 1].0;
    if new_idx & 1 == 0 {
        x
    } else {
        x.neg()
    }
}


/// Why the verifier rejects a query of the folding-based opening.
#[derive(Clone, Copy, Debug, PartialEq, Eq, Structural)]
pub enum FoldQueryError {
    /// The codeword's pair does not authenticate up to the codeword's root.
    CodewordPath,
    /// The quotients' opening does not reach their root.
    QuotientPath,
    /// The queried point or its negation is the evaluation point `xi`.
    Pole,
    /// In round `j` the neighbour at the query is not the fold plus the
    /// round's quotient.
    Neighbor(usize),
    /// In round `j` the neighbours do not authenticate along their path.
    NeighborPath(usize),
    /// The last fold is not the value sent for it.
    LastFold,
}

/// What the prover sends for one query.
pub struct FoldQueryProof {
    /// The codeword's pair at the query.
    pub codeword_pair: (Mersenne61Mont, Mersenne61Mont),
    /// The path of that pair up to the codeword's root.
    pub codeword_path: Vec<([u8; 32], [u8; 32])>,
    /// The sibling digests of the quotients' opening.
    pub quotient_path: Vec<[u8; 32]>,
    /// The quotients at the query, one per round.
    pub quotients: Vec<Mersenne61Mont>,
    /// The pair of neighbours read in each round.
    pub neighbors: Vec<(Mersenne61Mont, Mersenne61Mont)>,
    /// The path of each round's neighbours.
    pub neighbor_paths: Vec<Vec<([u8; 32], [u8; 32])>>,
}

/// What every query is checked against.
pub struct FoldQueryContext {
    /// The number of variables of the committed polynomial.
    pub num_vars: usize,
    /// The logarithm of the code's blow-up.
    pub log_rate: usize,
    /// The root of the committed codeword.
    pub codeword_root: [u8; 32],
    /// The root of the quotients' commitment.
    pub quotient_root: [u8; 32],
    /// The evaluation point of the degree check.
    pub xi: Mersenne61Mont,
    /// The challenge that batches the quotients.
    pub alpha: Mersenne61Mont,
    /// The challenge of the degree correction `1 + lambda x`.
    pub lambda: Mersenne61Mont,
    /// The challenges of the padding factors.
    pub padding_lambdas: Vec<Mersenne61Mont>,
    /// The openings at `xi`: the codeword's first, then the quotients'.
    pub xi_openings: Vec<Mersenne61Mont>,
    /// The folding challenges, one per round.
    pub betas: Vec<Mersenne61Mont>,
    /// The value the prover sent for the last fold.
    pub folded_last: Mersenne61Mont,
}

/// `prod_{j < m} (1 + lambdas[j] * powers[j])`.
pub open spec fn padding_at(lambdas: Seq<int>, powers: Seq<int>, m: nat) -> int
    decreases m,
{
    if m == 0 {
        1
    } else {
        fmul(padding_at(lambdas, powers, (m - 1) as nat), fadd(1, fmul(lambdas[m - 1], powers[m - 1])))
    }
}

/// The values of `padding_at` for `m` from `0` to `n - 1`.
pub open spec fn padding_seq(lambdas: Seq<int>, powers: Seq<int>, n: nat) -> Seq<int> {
    Seq::new(n, |m: int| padding_at(lambdas, powers, m as nat))
}

/// The point under position `2 (q / 2) + k` after `j` squarings: the table
/// point of its pair there, negated at odd positions.
pub open spec fn point_power(level: Seq<(Mersenne61Mont, Mersenne61Mont)>, q: int, k: int, j: nat) -> int {
    let idx = ((q / 2) * 2 + k) / pow2(j) as int;
    if idx % 2 == 0 {
        level[idx / 2].0@
    } else {
        fneg(level[idx / 2].0@)
    }
}

/// The quotient batched at the side point `x` after `j` quotient terms:
/// `(f - o_0) (1 + lambda x) / (x - xi)`, plus for each `i < j` the term
/// `alpha^(i+1) (1 + lambda x) (q_i pad_x[i+1] - o_(i+1) pad_xi[i+1]) / (x - xi)`.
pub open spec fn batched_quotient(
    f: int,
    x: int,
    xi: int,
    alpha: int,
    lambda: int,
    openings: Seq<int>,
    quotients: Seq<int>,
    pad_x: Seq<int>,
    pad_xi: Seq<int>,
    j: nat,
) -> int
    decreases j,
{
    let w = fadd(1, fmul(lambda, x));
    if j == 0 {
        fdiv(fmul(fsub(f, openings[0]), w), fsub(x, xi))
    } else {
        let i = j - 1;
        let num = fsub(fmul(quotients[i], pad_x[i + 1]), fmul(openings[i + 1], pad_xi[i + 1]));
        fadd(
            batched_quotient(f, x, xi, alpha, lambda, openings, quotients, pad_x, pad_xi, (j - 1) as nat),
            fmul(fmul(fmul(fpow(alpha, j), w), num), finv(fsub(x, xi))),
        )
    }
}

/// One fold of the pair `(a, b)` with weight `w` at `beta`:
/// `(a + b) / 2 + (b - a) w beta`.
pub open spec fn fold_pair(a: int, b: int, w: int, beta: int) -> int {
    fadd(fmul(fadd(a, b), inv2()), fmul(fmul(fsub(b, a), w), beta))
}

/// The batched quotient on side `k` of the query: at the queried point for
/// `k == 0`, at its negation for `k == 1`.
pub open spec fn side_quotient(
    proof: FoldQueryProof,
    ctx: FoldQueryContext,
    level: Seq<(Mersenne61Mont, Mersenne61Mont)>,
    q: int,
    k: int,
) -> int {
    let n = ctx.num_vars as nat;
    batched_quotient(
        if k == 0 {
            proof.codeword_pair.0@
        } else {
            proof.codeword_pair.1@
        },
        point_power(level, q, k, 0),
        ctx.xi@,
        ctx.alpha@,
        ctx.lambda@,
        views(ctx.xi_openings@),
        views(proof.quotients@),
        padding_seq(
            views(ctx.padding_lambdas@),
            Seq::new((n - 1) as nat, |j: int| point_power(level, q, k, j as nat)),
            n,
        ),
        padding_seq(
            views(ctx.padding_lambdas@),
            Seq::new((n - 1) as nat, |j: int| fpow(ctx.xi@, pow2(j as nat))),
            n,
        ),
        (n - 1) as nat,
    )
}

/// The fold after `j` rounds from `first`, or the first round that rejects:
/// in round `j` the neighbour at `q / 2^j` must be the fold plus the round's
/// quotient, and the neighbours must authenticate; they are then folded.
pub open spec fn fold_chain(
    q: int,
    first: int,
    proof: FoldQueryProof,
    ctx: FoldQueryContext,
    table: Seq<Vec<(Mersenne61Mont, Mersenne61Mont)>>,
    j: nat,
) -> Result<int, FoldQueryError>
    decreases j,
{
    if j == 0 {
        Ok(first)
    } else {
        let i = j - 1;
        match fold_chain(q, first, proof, ctx, table, (j - 1) as nat) {
            Err(e) => Err(e),
            Ok(folded) => {
                let nb = proof.neighbors@[i];
                let x = q / pow2(j) as int;
                let lg = ctx.num_vars + ctx.log_rate;
                if (if x % 2 == 0 {
                    nb.0@
                } else {
                    nb.1@
                }) != fadd(folded, proof.quotients@[i]@) {
                    Err(FoldQueryError::Neighbor(i as usize))
                } else if !path_chain_ok(pairs_view(proof.neighbor_paths@[i]@), nb.0@, nb.1@, x) {
                    Err(FoldQueryError::NeighborPath(i as usize))
                } else {
                    Ok(fold_pair(nb.0@, nb.1@, table[lg - j]@[q / pow2(j + 1) as int].1@, ctx.betas@[j as int]@))
                }
            },
        }
    }
}

/// The outcome of the check of query `q`: the codeword's opening, the
/// quotients' opening, a pole at `xi`, then the folding rounds from the fold
/// of the two batched quotients, whose last fold must be the value sent.
pub open spec fn fold_query_outcome(
    q: int,
    proof: FoldQueryProof,
    ctx: FoldQueryContext,
    table: Seq<Vec<(Mersenne61Mont, Mersenne61Mont)>>,
) -> Result<(), FoldQueryError> {
    let n = ctx.num_vars as nat;
    let lg = n + ctx.log_rate;
    let level = table[lg - 1]@;
    if !path_root_ok(
        pairs_view(proof.codeword_path@),
        proof.codeword_pair.0@,
        proof.codeword_pair.1@,
        q,
        ctx.codeword_root@,
    ) {
        Err(FoldQueryError::CodewordPath)
    } else if mmcs_climb(dseq(proof.quotient_path@), views(proof.quotients@), q / 2, (lg - 1) as nat)
        != ctx.quotient_root@ {
        Err(FoldQueryError::QuotientPath)
    } else if point_power(level, q, 0, 0) == ctx.xi@ || point_power(level, q, 1, 0) == ctx.xi@ {
        Err(FoldQueryError::Pole)
    } else {
        let first = fold_pair(
            side_quotient(proof, ctx, level, q, 0),
            side_quotient(proof, ctx, level, q, 1),
            level[q / 2].1@,
            ctx.betas@[0]@,
        );
        match fold_chain(q, first, proof, ctx, table, (n - 1) as nat) {
            Err(e) => Err(e),
            Ok(v) => if v == ctx.folded_last@ {
                Ok(())
            } else {
                Err(FoldQueryError::LastFold)
            },
        }
    }
}

/// The sizes the check of query `q` reads: at least two variables, every
/// round's table entry, and as many paths, quotients, neighbours and
/// challenges as rounds.
pub open spec fn fold_query_shape(
    q: int,
    proof: FoldQueryProof,
    ctx: FoldQueryContext,
    table: Seq<Vec<(Mersenne61Mont, Mersenne61Mont)>>,
) -> bool {
    let n = ctx.num_vars as int;
    let lg = n + ctx.log_rate;
    &&& n >= 2
    &&& lg <= 30
    &&& table.len() >= lg
    &&& q / 2 < table[lg - 1]@.len()
    &&& forall|j: int| 1 <= j < n ==> q / (pow2((j + 1) as nat) as int) < #[trigger] table[lg - j]@.len()
    &&& proof.codeword_path@.len() >= 1
    &&& proof.quotient_path@.len() >= lg - 1
    &&& proof.quotients@.len() == n - 1
    &&& proof.neighbors@.len() >= n - 1
    &&& proof.neighbor_paths@.len() >= n - 1
    &&& forall|j: int| 0 <= j < n - 1 ==> #[trigger] proof.neighbor_paths@[j]@.len() >= 1
    &&& ctx.padding_lambdas@.len() >= n - 1
    &&& ctx.xi_openings@.len() >= n
    &&& ctx.betas@.len() >= n
}

/// `xi^(2^j)` for `j < m`.
fn square_chain(xi: Mersenne61Mont, m: usize) -> (r: Vec<Mersenne61Mont>)
    ensures
        views(r@) == Seq::new(m as nat, |j: int| fpow(xi@, pow2(j as nat))),
{
    let mut r: Vec<Mersenne61Mont> = Vec::new();
    let mut j: usize = 0;
    while j < m
        invariant
            j <= m,
            views(r@) == Seq::new(j as nat, |i: int| fpow(xi@, pow2(i as nat))),
        decreases m - j,
    {
        let v = exp_power_of_2(xi, j);
        let ghost before = r@;
        r.push(v);
        assert(views(r@) =~= views(before).push(v@));
        assert(views(r@) =~= Seq::new((j + 1) as nat, |i: int| fpow(xi@, pow2(i as nat))));
        j = j + 1;
    }
    r
}

/// The side-`k` point after `j` squarings, for `j < m`.
fn side_powers(level: &Vec<(Mersenne61Mont, Mersenne61Mont)>, q: usize, k: usize, m: usize) -> (r: Vec<
    Mersenne61Mont,
>)
    requires
        k < 2,
        m <= 30,
        q / 2 < level.len(),
    ensures
        views(r@) == Seq::new(m as nat, |j: int| point_power(level@, q as int, k as int, j as nat)),
{
    let idx = q / 2 * 2 + k;
    assert(idx / 2 == q / 2) by (nonlinear_arith)
        requires
            idx == q / 2 * 2 + k,
            k < 2,
    ;
    let mut r: Vec<Mersenne61Mont> = Vec::new();
    let mut j: usize = 0;
    while j < m
        invariant
            j <= m,
            m <= 30,
            idx == q / 2 * 2 + k,
            idx / 2 == q / 2,
            q / 2 < level.len(),
            views(r@) == Seq::new(j as nat, |i: int| point_power(level@, q as int, k as int, i as nat)),
        decreases m - j,
    {
        proof {
            lemma_pow2_pos(j as nat);
            vstd::arithmetic::div_mod::lemma_div_is_ordered_by_denominator(idx as int, 1, pow2(j as nat) as int);
            vstd::arithmetic::div_mod::lemma_div_is_ordered(idx as int / pow2(j as nat) as int, idx as int, 2);
        }
        let v = power_of_element(idx, j, level);
        let ghost before = r@;
        r.push(v);
        assert(views(r@) =~= views(before).push(v@));
        assert(views(r@) =~= Seq::new((j + 1) as nat, |i: int| point_power(level@, q as int, k as int, i as nat)));
        j = j + 1;
    }
    r
}

/// The padding factors `padding_at(lambdas, powers, m)` for `m < n`.
fn padding_values(lambdas: &Vec<Mersenne61Mont>, powers: &Vec<Mersenne61Mont>, n: usize) -> (r: Vec<
    Mersenne61Mont,
>)
    requires
        n >= 1,
        lambdas.len() >= n - 1,
        powers.len() >= n - 1,
    ensures
        r@.len() == n,
        views(r@) == padding_seq(views(lambdas@), views(powers@), n as nat),
{
    let ghost ls = views(lambdas@);
    let ghost ps = views(powers@);
    let mut r: Vec<Mersenne61Mont> = Vec::new();
    let mut cur = Mersenne61Mont::one();
    r.push(cur);
    assert(views(r@) =~= padding_seq(ls, ps, 1)) by {
        reveal_with_fuel(padding_at, 1);
    }
    let mut m: usize = 1;
    while m < n
        invariant
            1 <= m <= n,
            lambdas.len() >= n - 1,
            powers.len() >= n - 1,
            ls == views(lambdas@),
            ps == views(powers@),
            r@.len() == m,
            cur@ == padding_at(ls, ps, (m - 1) as nat),
            views(r@) == padding_seq(ls, ps, m as nat),
        decreases n - m,
    {
        assert(ls[m - 1] == lambdas@[m - 1]@ && ps[m - 1] == powers@[m - 1]@);
        cur = cur.mul(Mersenne61Mont::one().add(lambdas[m - 1].mul(powers[m - 1])));
        let ghost before = r@;
        r.push(cur);
        assert(views(r@) =~= views(before).push(cur@));
        assert(views(r@) =~= padding_seq(ls, ps, (m + 1) as nat));
        m = m + 1;
    }
    r
}

/// The batched quotient at the side point `x` with the side's value `f`.
fn side_batched(
    f: Mersenne61Mont,
    x: Mersenne61Mont,
    ctx: &FoldQueryContext,
    quotients: &Vec<Mersenne61Mont>,
    pad_x: &Vec<Mersenne61Mont>,
    pad_xi: &Vec<Mersenne61Mont>,
) -> (r: Mersenne61Mont)
    requires
        x@ != ctx.xi@,
        ctx.num_vars >= 1,
        quotients.len() >= ctx.num_vars - 1,
        ctx.xi_openings.len() >= ctx.num_vars,
        pad_x.len() == ctx.num_vars,
        pad_xi.len() == ctx.num_vars,
    ensures
        r@ == batched_quotient(
            f@,
            x@,
            ctx.xi@,
            ctx.alpha@,
            ctx.lambda@,
            views(ctx.xi_openings@),
            views(quotients@),
            views(pad_x@),
            views(pad_xi@),
            (ctx.num_vars - 1) as nat,
        ),
{
    let n = ctx.num_vars;
    let ghost os = views(ctx.xi_openings@);
    let ghost qs = views(quotients@);
    let ghost px = views(pad_x@);
    let ghost pxi = views(pad_xi@);
    let w = Mersenne61Mont::one().add(ctx.lambda.mul(x));
    let d = x.sub(ctx.xi);
    assert(d@ != 0) by {
        vstd::arithmetic::div_mod::lemma_fundamental_div_mod(x@ - ctx.xi@, p());
    }
    let mut acc = f.sub(ctx.xi_openings[0]).mul(w).div(d);
    let den = d.inverse();
    let mut base = ctx.alpha;
    proof {
        reveal_with_fuel(fpow, 2);
        assert(fpow(ctx.alpha@, 1) == fmul(ctx.alpha@, 1));
        vstd::arithmetic::div_mod::lemma_small_mod(ctx.alpha@ as nat, p() as nat);
    }
    let mut j: usize = 0;
    while j + 1 < n
        invariant
            n == ctx.num_vars,
            j + 1 <= n,
            quotients.len() >= n - 1,
            ctx.xi_openings.len() >= n,
            pad_x.len() == n,
            pad_xi.len() == n,
            os == views(ctx.xi_openings@),
            qs == views(quotients@),
            px == views(pad_x@),
            pxi == views(pad_xi@),
            w@ == fadd(1, fmul(ctx.lambda@, x@)),
            den@ == finv(fsub(x@, ctx.xi@)),
            base@ == fpow(ctx.alpha@, (j + 1) as nat),
            acc@ == batched_quotient(f@, x@, ctx.xi@, ctx.alpha@, ctx.lambda@, os, qs, px, pxi, j as nat),
        decreases n - j,
    {
        let num = quotients[j].mul(pad_x[j + 1]).sub(ctx.xi_openings[j + 1].mul(pad_xi[j + 1]));
        acc = acc.add(base.mul(w).mul(num).mul(den));
        proof {
            lemma_fmul_comm(base@, ctx.alpha@);
        }
        base = base.mul(ctx.alpha);
        j = j + 1;
    }
    acc
}

/// One fold of a pair: `(a + b) / 2 + (b - a) w beta`.
fn fold_pair_value(a: Mersenne61Mont, b: Mersenne61Mont, w: Mersenne61Mont, beta: Mersenne61Mont) -> (r:
    Mersenne61Mont)
    ensures
        r@ == fold_pair(a@, b@, w@, beta@),
{
    let f_even = a.add(b).mul(Mersenne61Mont::inverse_2());
    let f_odd = b.sub(a).mul(w);
    f_even.add(f_odd.mul(beta))
}

/// Once a round rejects, the outcome of more rounds is that rejection.
proof fn lemma_fold_chain_stays(
    q: int,
    first: int,
    proof: FoldQueryProof,
    ctx: FoldQueryContext,
    table: Seq<Vec<(Mersenne61Mont, Mersenne61Mont)>>,
    j: nat,
    k: nat,
)
    requires
        j <= k,
        fold_chain(q, first, proof, ctx, table, j) is Err,
    ensures
        fold_chain(q, first, proof, ctx, table, k) == fold_chain(q, first, proof, ctx, table, j),
    decreases k - j,
{
    if j < k {
        lemma_fold_chain_stays(q, first, proof, ctx, table, j, (k - 1) as nat);
    }
}

/// The folding rounds from `first`: the fold after the last round, or the
/// first round that rejects.
#[verifier::rlimit(50)]
fn fold_rounds(
    q: usize,
    first: Mersenne61Mont,
    proof: &FoldQueryProof,
    ctx: &FoldQueryContext,
    table: &Vec<Vec<(Mersenne61Mont, Mersenne61Mont)>>,
) -> (r: Result<Mersenne61Mont, FoldQueryError>)
    requires
        fold_query_shape(q as int, *proof, *ctx, table@),
    ensures
        match fold_chain(q as int, first@, *proof, *ctx, table@, (ctx.num_vars - 1) as nat) {
            Ok(v) => r is Ok && r->Ok_0@ == v,
            Err(e) => r == Err::<Mersenne61Mont, FoldQueryError>(e),
        },
{
    let n = ctx.num_vars;
    let lg = n + ctx.log_rate;
    let mut folded = first;
    let mut j: usize = 0;
    proof {
        lemma2_to64();
    }
    while j + 1 < n
        invariant
            n == ctx.num_vars,
            lg == n + ctx.log_rate,
            j + 1 <= n,
            fold_query_shape(q as int, *proof, *ctx, table@),
            fold_chain(q as int, first@, *proof, *ctx, table@, j as nat) == Ok::<int, FoldQueryError>(folded@),
        decreases n - j,
    {
        proof {
            lemma2_to64();
            lemma_pow2_pos((j + 1) as nat);
            lemma_pow2_pos((j + 2) as nat);
            lemma_pow2_strictly_increases((j + 1) as nat, (j + 2) as nat);
            lemma_pow2_strictly_increases((j + 2) as nat, 31);
        }
        let x = q / pow2_of(j + 1);
        let nb = proof.neighbors[j];
        let sel = if x % 2 == 0 {
            nb.0
        } else {
            nb.1
        };
        if !sel.equals(&folded.add(proof.quotients[j])) {
            proof {
                lemma_fold_chain_stays(q as int, first@, *proof, *ctx, table@, (j + 1) as nat, (n - 1) as nat);
            }
            return Err(FoldQueryError::Neighbor(j));
        }
        if !authenticate_merkle_path(&proof.neighbor_paths[j], nb, x) {
            proof {
                lemma_fold_chain_stays(q as int, first@, *proof, *ctx, table@, (j + 1) as nat, (n - 1) as nat);
            }
            return Err(FoldQueryError::NeighborPath(j));
        }
        assert(q as int / (pow2((j + 2) as nat) as int) < table@[lg - (j + 1)]@.len());
        let w = table[lg - j - 1][q / pow2_of(j + 2)].1;
        folded = fold_pair_value(nb.0, nb.1, w, ctx.betas[j + 1]);
        j = j + 1;
    }
    Ok(folded)
}

/// The two side points of query `q`: the table point of its pair and its
/// negation.
proof fn lemma_side_points(level: Seq<(Mersenne61Mont, Mersenne61Mont)>, q: int)
    requires
        q >= 0,
    ensures
        point_power(level, q, 0, 0) == level[q / 2].0@,
        point_power(level, q, 1, 0) == fneg(level[q / 2].0@),
{
    let i0 = (q / 2) * 2;
    assert(pow2(0) == 1) by {
        lemma2_to64();
    }
    assert(i0 % 2 == 0 && i0 / 2 == q / 2 && (i0 + 1) % 2 == 1 && (i0 + 1) / 2 == q / 2) by (nonlinear_arith)
        requires
            i0 == (q / 2) * 2,
            q >= 0,
    ;
}

/// The fold of the two batched quotients of query `q`.
fn first_fold(
    q: usize,
    proof: &FoldQueryProof,
    ctx: &FoldQueryContext,
    table: &Vec<Vec<(Mersenne61Mont, Mersenne61Mont)>>,
) -> (r: Mersenne61Mont)
    requires
        fold_query_shape(q as int, *proof, *ctx, table@),
        point_power(table@[ctx.num_vars + ctx.log_rate - 1]@, q as int, 0, 0) != ctx.xi@,
        point_power(table@[ctx.num_vars + ctx.log_rate - 1]@, q as int, 1, 0) != ctx.xi@,
    ensures
        ({
            let level = table@[ctx.num_vars + ctx.log_rate - 1]@;
            r@ == fold_pair(
                side_quotient(*proof, *ctx, level, q as int, 0),
                side_quotient(*proof, *ctx, level, q as int, 1),
                level[q as int / 2].1@,
                ctx.betas@[0]@,
            )
        }),
{
    let n = ctx.num_vars;
    let level = &table[n + ctx.log_rate - 1];
    let ghost lv = level@;
    proof {
        lemma_side_points(lv, q as int);
    }
    let t = level[q / 2].0;
    let xi_pows = square_chain(ctx.xi, n - 1);
    assert(views(xi_pows@).len() == xi_pows@.len());
    let pad_xi = padding_values(&ctx.padding_lambdas, &xi_pows, n);
    let pows0 = side_powers(level, q, 0, n - 1);
    assert(views(pows0@).len() == pows0@.len());
    let pad0 = padding_values(&ctx.padding_lambdas, &pows0, n);
    let pows1 = side_powers(level, q, 1, n - 1);
    assert(views(pows1@).len() == pows1@.len());
    let pad1 = padding_values(&ctx.padding_lambdas, &pows1, n);
    let b0 = side_batched(proof.codeword_pair.0, t, ctx, &proof.quotients, &pad0, &pad_xi);
    let b1 = side_batched(proof.codeword_pair.1, t.neg(), ctx, &proof.quotients, &pad1, &pad_xi);
    fold_pair_value(b0, b1, level[q / 2].1, ctx.betas[0])
}

/// Checks query `q` of the folding-based opening: the codeword's pair
/// against its root, the quotients against theirs, then the batched
/// quotients at the queried point and its negation folded round by round
/// against the neighbours, down to the value sent for the last fold. The
/// first failing check decides the error.
pub fn verify_fold_query(
    q: usize,
    proof: &FoldQueryProof,
    ctx: &FoldQueryContext,
    table: &Vec<Vec<(Mersenne61Mont, Mersenne61Mont)>>,
) -> (r: Result<(), FoldQueryError>)
    requires
        fold_query_shape(q as int, *proof, *ctx, table@),
    ensures
        r == fold_query_outcome(q as int, *proof, *ctx, table@),
{
    let n = ctx.num_vars;
    let lg = n + ctx.log_rate;
    if !authenticate_merkle_path_root(&proof.codeword_path, proof.codeword_pair, q, &ctx.codeword_root) {
        return Err(FoldQueryError::CodewordPath);
    }
    if !authenticate_merkle_path_mmcs(&proof.quotient_path, &proof.quotients, q / 2, lg - 1, &ctx.quotient_root) {
        return Err(FoldQueryError::QuotientPath);
    }
    let t = table[lg - 1][q / 2].0;
    proof {
        lemma_side_points(table@[lg - 1]@, q as int);
    }
    if t.equals(&ctx.xi) || t.neg().equals(&ctx.xi) {
        return Err(FoldQueryError::Pole);
    }
    let first = first_fold(q, proof, ctx, table);
    match fold_rounds(q, first, proof, ctx, table) {
        Err(e) => Err(e),
        Ok(v) => {
            if v.equals(&ctx.folded_last) {
                Ok(())
            } else {
                Err(FoldQueryError::LastFold)
            }
        },
    }
}


/// `xi^(2^i) phi_i(xi) - u phi_(i+1)(xi)`, where `phi_k(x) = 1 + x + ... +
/// x^(2^k - 1)`: the factor of the `i`-th quotient in the degree identity.
pub open spec fn degree_factor(xi: int, u: int, i: nat) -> int {
    fsub(fmul(fpow(xi, pow2(i)), fgeom(xi, pow2(i))), fmul(u, fgeom(xi, pow2(i + 1))))
}

/// `o_0 - eval phi_n(xi)` less `o_(i+1)` times the `i`-th factor, for `i < k`.
pub open spec fn degree_partial(xi: int, eval: int, point: Seq<int>, openings: Seq<int>, n: nat, k: nat) -> int
    decreases k,
{
    if k == 0 {
        fsub(openings[0], fmul(eval, fgeom(xi, pow2(n))))
    } else {
        fsub(
            degree_partial(xi, eval, point, openings, n, (k - 1) as nat),
            fmul(openings[k as int], degree_factor(xi, point[k - 1], (k - 1) as nat)),
        )
    }
}

/// What the degree identity leaves at `xi` for `n` variables: the partial
/// sum over the first `n - 1` quotients, less the last quotient's value
/// times its factor. It is zero for an honest opening.
pub open spec fn degree_residue(
    xi: int,
    eval: int,
    point: Seq<int>,
    openings: Seq<int>,
    quotient_last: int,
    n: nat,
) -> int {
    fsub(
        degree_partial(xi, eval, point, openings, n, (n - 1) as nat),
        fmul(quotient_last, degree_factor(xi, point[n - 1], (n - 1) as nat)),
    )
}

/// The residue of the degree identity at `xi` for the claimed evaluation
/// `eval` at `point`, with the openings at `xi` and the last quotient's
/// value; the verifier accepts only a zero residue.
pub fn expected_zero(
    xi: Mersenne61Mont,
    eval: Mersenne61Mont,
    point: &Vec<Mersenne61Mont>,
    xi_openings: &Vec<Mersenne61Mont>,
    quotient_last: Mersenne61Mont,
    num_vars: usize,
) -> (r: Mersenne61Mont)
    requires
        1 <= num_vars <= 30,
        point.len() >= num_vars,
        xi_openings.len() >= num_vars,
    ensures
        r@ == degree_residue(xi@, eval@, views(point@), views(xi_openings@), quotient_last@, num_vars as nat),
{
    let n = num_vars;
    let ghost ps = views(point@);
    let ghost os = views(xi_openings@);
    proof {
        lemma2_to64();
        lemma_pow2_strictly_increases(n as nat, 31);
    }
    let mut acc = xi_openings[0].sub(eval.mul(phi(n, xi)));
    let mut i: usize = 0;
    while i + 1 < n
        invariant
            1 <= n <= 30,
            point.len() >= n,
            xi_openings.len() >= n,
            ps == views(point@),
            os == views(xi_openings@),
            i + 1 <= n,
            acc@ == degree_partial(xi@, eval@, ps, os, n as nat, i as nat),
        decreases n - i,
    {
        proof {
            lemma2_to64();
            lemma_pow2_strictly_increases((i + 1) as nat, 31);
            if i > 0 {
                lemma_pow2_strictly_increases(i as nat, (i + 1) as nat);
            }
        }
        let factor = exp_power_of_2(xi, i).mul(phi(i, xi)).sub(point[i].mul(phi(i + 1, xi)));
        acc = acc.sub(xi_openings[i + 1].mul(factor));
        i = i + 1;
    }
    proof {
        lemma2_to64();
        lemma_pow2_strictly_increases(n as nat, 31);
        if n > 1 {
            lemma_pow2_strictly_increases((n - 1) as nat, n as nat);
        }
    }
    let factor = exp_power_of_2(xi, n - 1).mul(phi(n - 1, xi)).sub(point[n - 1].mul(phi(n, xi)));
    acc.sub(quotient_last.mul(factor))
}


/// The quotient of a codeword by the linear factor, over the level's
/// weights (as `quotient_op` computes it).
pub open spec fn quotient_seq(code: Seq<int>, level: Seq<(Mersenne61Mont, Mersenne61Mont)>) -> Seq<int> {
    Seq::new(level.len(), |i: int| fsub(odd_at(code, level[i].1@, i), even_at(code, i)))
}

/// The remainder of a codeword at `u` (as `remainder_op` computes it).
pub open spec fn remainder_seq(code: Seq<int>, u: int, level: Seq<(Mersenne61Mont, Mersenne61Mont)>) -> Seq<int> {
    Seq::new(
        level.len(),
        |i: int| fadd(fmul(fsub(1, u), even_at(code, i)), fmul(u, odd_at(code, level[i].1@, i))),
    )
}

/// The quotient of a coefficient vector (as `quotient_op_coef` computes it).
pub open spec fn quotient_coef_seq(c: Seq<int>) -> Seq<int> {
    Seq::new(c.len() / 2, |i: int| fsub(c[2 * i + 1], c[2 * i]))
}

/// The remainder of a coefficient vector at `u` (as `remainder_op_coef`
/// computes it).
pub open spec fn remainder_coef_seq(c: Seq<int>, u: int) -> Seq<int> {
    Seq::new(c.len() / 2, |i: int| fadd(c[2 * i], fmul(u, fsub(c[2 * i + 1], c[2 * i]))))
}

/// The remainder codeword after `i` divisions of `code`: division `k` is at
/// `point[k]` over level `top - k` of the table.
pub open spec fn remainder_code(
    code: Seq<int>,
    point: Seq<int>,
    table: Seq<Vec<(Mersenne61Mont, Mersenne61Mont)>>,
    top: int,
    i: nat,
) -> Seq<int>
    decreases i,
{
    if i == 0 {
        code
    } else {
        remainder_seq(remainder_code(code, point, table, top, (i - 1) as nat), point[i - 1], table[top - (i - 1)]@)
    }
}

/// The remainder coefficients after `i` divisions of `coef`.
pub open spec fn remainder_coef(coef: Seq<int>, point: Seq<int>, i: nat) -> Seq<int>
    decreases i,
{
    if i == 0 {
        coef
    } else {
        remainder_coef_seq(remainder_coef(coef, point, (i - 1) as nat), point[i - 1])
    }
}

/// Every level of the table from `lo` below `hi` holds `2^j` entries at
/// index `j`.
pub open spec fn levels_ok(table: Seq<Vec<(Mersenne61Mont, Mersenne61Mont)>>, lo: int, hi: int) -> bool {
    &&& hi <= table.len()
    &&& forall|j: int| lo <= j < hi ==> #[trigger] table[j]@.len() == pow2(j as nat)
}

/// The quotients of the opening: dividing the codeword (over the table's
/// levels from the top down) and the coefficients by one coordinate of the
/// point after another. Returns the first `n - 1` quotient codewords, their
/// coefficients, and the last quotient codeword.
#[verifier::spinoff_prover]
pub fn quotient_chain(
    code: &Vec<Mersenne61Mont>,
    coef: &Vec<Mersenne61Mont>,
    point: &Vec<Mersenne61Mont>,
    table: &Vec<Vec<(Mersenne61Mont, Mersenne61Mont)>>,
    num_vars: usize,
    log_rate: usize,
) -> (r: (Vec<Vec<Mersenne61Mont>>, Vec<Vec<Mersenne61Mont>>, Vec<Mersenne61Mont>))
    requires
        1 <= num_vars,
        num_vars + log_rate <= 30,
        levels_ok(table@, log_rate as int, (num_vars + log_rate) as int),
        code.len() == pow2((num_vars + log_rate) as nat),
        coef.len() == pow2(num_vars as nat),
        point.len() >= num_vars - 1,
    ensures
        ({
            let top = (num_vars + log_rate - 1) as int;
            let c = views(code@);
            let f = views(coef@);
            let u = views(point@);
            &&& r.0@.len() == num_vars - 1
            &&& r.1@.len() == num_vars - 1
            &&& forall|i: int|
                0 <= i < num_vars - 1 ==> views(#[trigger] r.0@[i]@) == quotient_seq(
                    remainder_code(c, u, table@, top, i as nat),
                    table@[top - i]@,
                ) && views(r.1@[i]@) == quotient_coef_seq(remainder_coef(f, u, i as nat))
            &&& views(r.2@) == quotient_seq(
                remainder_code(c, u, table@, top, (num_vars - 1) as nat),
                table@[log_rate as int]@,
            )
        }),
{
    let n = num_vars;
    let lg = n + log_rate;
    let ghost top = (lg - 1) as int;
    let ghost c = views(code@);
    let ghost f = views(coef@);
    let ghost u = views(point@);
    let mut codes: Vec<Vec<Mersenne61Mont>> = Vec::new();
    let mut coefs: Vec<Vec<Mersenne61Mont>> = Vec::new();
    let mut rem_code: Vec<Mersenne61Mont> = copy_vec(code);
    let mut rem_coef: Vec<Mersenne61Mont> = copy_vec(coef);
    let mut i: usize = 0;
    while i + 1 < n
        invariant
            n == num_vars,
            lg == n + log_rate,
            lg <= 30,
            top == lg - 1,
            i + 1 <= n,
            levels_ok(table@, log_rate as int, lg as int),
            c == views(code@),
            f == views(coef@),
            u == views(point@),
            point.len() >= n - 1,
            rem_code@.len() == pow2((lg - i) as nat),
            rem_coef@.len() == pow2((n - i) as nat),
            views(rem_code@) == remainder_code(c, u, table@, top, i as nat),
            views(rem_coef@) == remainder_coef(f, u, i as nat),
            codes@.len() == i,
            coefs@.len() == i,
            forall|k: int|
                0 <= k < i ==> views(#[trigger] codes@[k]@) == quotient_seq(
                    remainder_code(c, u, table@, top, k as nat),
                    table@[top - k]@,
                ) && views(coefs@[k]@) == quotient_coef_seq(remainder_coef(f, u, k as nat)),
        decreases n - i,
    {
        let level = &table[lg - i - 1];
        proof {
            vstd::arithmetic::power2::lemma_pow2_unfold((lg - i) as nat);
            vstd::arithmetic::power2::lemma_pow2_unfold((n - i) as nat);
        }
        assert(level@.len() * 2 == rem_code@.len());
        let qc = quotient_op(&rem_code, level);
        assert(views(qc@) =~= quotient_seq(views(rem_code@), level@)) by {
            assert forall|t: int| 0 <= t < qc@.len() implies #[trigger] views(qc@)[t] == quotient_seq(views(rem_code@), level@)[t] by {
                assert(views(qc@)[t] == qc@[t]@);
            }
        }
        let qf = quotient_op_coef(&rem_coef);
        assert(views(qf@) =~= quotient_coef_seq(views(rem_coef@))) by {
            assert forall|t: int| 0 <= t < qf@.len() implies #[trigger] views(qf@)[t] == quotient_coef_seq(views(rem_coef@))[t] by {
                assert(views(qf@)[t] == qf@[t]@);
                assert(views(rem_coef@)[2 * t] == rem_coef@[2 * t]@);
                assert(views(rem_coef@)[2 * t + 1] == rem_coef@[2 * t + 1]@);
            }
        }
        let nc = remainder_op(&rem_code, point[i], level);
        assert(views(nc@) =~= remainder_seq(views(rem_code@), u[i as int], level@)) by {
            assert forall|t: int| 0 <= t < nc@.len() implies #[trigger] views(nc@)[t] == remainder_seq(views(rem_code@), u[i as int], level@)[t] by {
                assert(views(nc@)[t] == nc@[t]@);
            }
        }
        let nf = remainder_op_coef(&rem_coef, point[i]);
        assert(views(nf@) =~= remainder_coef_seq(views(rem_coef@), u[i as int])) by {
            assert forall|t: int| 0 <= t < nf@.len() implies #[trigger] views(nf@)[t] == remainder_coef_seq(views(rem_coef@), u[i as int])[t] by {
                assert(views(nf@)[t] == nf@[t]@);
                assert(views(rem_coef@)[2 * t] == rem_coef@[2 * t]@);
                assert(views(rem_coef@)[2 * t + 1] == rem_coef@[2 * t + 1]@);
            }
        }
        let ghost old_codes = codes@;
        let ghost old_coefs = coefs@;
        codes.push(qc);
        coefs.push(qf);
        assert(codes@ == old_codes.push(qc));
        assert(coefs@ == old_coefs.push(qf));
        assert forall|k: int|
            0 <= k < i + 1 implies views(#[trigger] codes@[k]@) == quotient_seq(
                remainder_code(c, u, table@, top, k as nat),
                table@[top - k]@,
            ) && views(coefs@[k]@) == quotient_coef_seq(remainder_coef(f, u, k as nat)) by {
            if k < i {
                assert(codes@[k] == old_codes[k]);
                assert(coefs@[k] == old_coefs[k]);
            } else {
                assert(codes@[k] == qc);
                assert(coefs@[k] == qf);
                assert(table@[top - k] == *level);
            }
        }
        rem_code = nc;
        rem_coef = nf;
        i = i + 1;
    }
    let level = &table[log_rate];
    proof {
        vstd::arithmetic::power2::lemma_pow2_unfold((lg - i) as nat);
    }
    let last = quotient_op(&rem_code, level);
    assert(views(last@) =~= quotient_seq(views(rem_code@), level@)) by {
        assert forall|t: int| 0 <= t < last@.len() implies #[trigger] views(last@)[t] == quotient_seq(views(rem_code@), level@)[t] by {
            assert(views(last@)[t] == last@[t]@);
        }
    }
    (codes, coefs, last)
}

/// A copy of a vector of field elements.
pub(crate) fn copy_vec(v: &Vec<Mersenne61Mont>) -> (r: Vec<Mersenne61Mont>)
    ensures
        r@ == v@,
{
    let mut r: Vec<Mersenne61Mont> = Vec::new();
    let mut i: usize = 0;
    while i < v.len()
        invariant
            i <= v.len(),
            r@ == v@.subrange(0, i as int),
        decreases v.len() - i,
    {
        r.push(v[i]);
        assert(r@ =~= v@.subrange(0, i + 1));
        i = i + 1;
    }
    assert(r@ =~= v@);
    r
}


/// One expansion of the batched codeword: entry `2j + s` is
/// `alpha (1 + lambda t) b_j + code[2j + s]`, where `t` is the level's point
/// at `j`, negated for `s = 1`.
pub open spec fn expand_seq(
    b: Seq<int>,
    alpha: int,
    lambda: int,
    level: Seq<(Mersenne61Mont, Mersenne61Mont)>,
    code: Seq<int>,
) -> Seq<int> {
    Seq::new(
        2 * b.len(),
        |k: int| fadd(fmul(fmul(alpha, fadd(1, fmul(lambda, chosen_point(level, k)))), b[k / 2]), code[k]),
    )
}

/// The batched codeword after `i` expansions, starting from the last of the
/// `n - 1` quotient codewords and taking the others from the end.
pub open spec fn batched_code(
    codes: Seq<Seq<int>>,
    alpha: int,
    lambdas: Seq<int>,
    table: Seq<Vec<(Mersenne61Mont, Mersenne61Mont)>>,
    n: int,
    log_rate: int,
    i: nat,
) -> Seq<int>
    decreases i,
{
    if i == 0 {
        codes[n - 2]
    } else {
        let k = i - 1;
        expand_seq(
            batched_code(codes, alpha, lambdas, table, n, log_rate, (i - 1) as nat),
            alpha,
            lambdas[n - k - 2],
            table[log_rate + k + 1]@,
            codes[n - k - 3],
        )
    }
}

/// The batched codeword of the degree check: every quotient codeword
/// expanded in, then the committed codeword with the first padding challenge.
pub open spec fn batched_degree_code(
    codes: Seq<Seq<int>>,
    f_code: Seq<int>,
    alpha: int,
    lambdas: Seq<int>,
    table: Seq<Vec<(Mersenne61Mont, Mersenne61Mont)>>,
    n: int,
    log_rate: int,
) -> Seq<int> {
    expand_seq(
        batched_code(codes, alpha, lambdas, table, n, log_rate, (n - 2) as nat),
        alpha,
        lambdas[0],
        table[log_rate + n - 1]@,
        f_code,
    )
}

/// One expansion of the batched codeword with the level's points.
fn expand(
    b: &Vec<Mersenne61Mont>,
    alpha: Mersenne61Mont,
    lambda: Mersenne61Mont,
    level: &Vec<(Mersenne61Mont, Mersenne61Mont)>,
    code: &Vec<Mersenne61Mont>,
) -> (r: Vec<Mersenne61Mont>)
    requires
        b.len() <= level.len(),
        code.len() == 2 * b.len(),
    ensures
        r@.len() == 2 * b.len(),
        views(r@) == expand_seq(views(b@), alpha@, lambda@, level@, views(code@)),
{
    let ghost bv = views(b@);
    let ghost cv = views(code@);
    let mut r: Vec<Mersenne61Mont> = Vec::new();
    let mut j: usize = 0;
    while j < b.len()
        invariant
            b.len() <= level.len(),
            code.len() == 2 * b.len(),
            bv == views(b@),
            cv == views(code@),
            j <= b.len(),
            r@.len() == 2 * j,
            forall|k: int| 0 <= k < 2 * j ==> #[trigger] views(r@)[k] == expand_seq(bv, alpha@, lambda@, level@, cv)[k],
        decreases b.len() - j,
    {
        let t = level[j].0;
        let bj = b[j];
        let t0 = alpha.mul(Mersenne61Mont::one().add(lambda.mul(t))).mul(bj).add(code[2 * j]);
        let t1 = alpha.mul(Mersenne61Mont::one().add(lambda.mul(t.neg()))).mul(bj).add(code[2 * j + 1]);
        let ghost before = r@;
        r.push(t0);
        r.push(t1);
        proof {
            let k0 = 2 * j as int;
            assert(k0 % 2 == 0 && k0 / 2 == j as int && (k0 + 1) % 2 == 1 && (k0 + 1) / 2 == j as int) by (nonlinear_arith)
                requires
                    k0 == 2 * j,
            ;
            assert(r@ == before.push(t0).push(t1));
            assert(bv[j as int] == bj@ && cv[k0] == code@[k0]@ && cv[k0 + 1] == code@[k0 + 1]@);
            assert forall|k: int| 0 <= k < 2 * (j + 1) implies #[trigger] views(r@)[k] == expand_seq(
                bv,
                alpha@,
                lambda@,
                level@,
                cv,
            )[k] by {
                assert(views(r@)[k] == r@[k]@);
                if k < 2 * j {
                    assert(views(before)[k] == before[k]@);
                }
            }
        }
        j = j + 1;
    }
    assert(views(r@) =~= expand_seq(bv, alpha@, lambda@, level@, cv));
    r
}

/// The batched codeword of the degree check, from the quotient codewords
/// and the committed codeword, with the batching challenge `alpha` and the
/// padding challenges.
pub fn batched_degree_codeword(
    codes: &Vec<Vec<Mersenne61Mont>>,
    f_code: &Vec<Mersenne61Mont>,
    alpha: Mersenne61Mont,
    padding_lambdas: &Vec<Mersenne61Mont>,
    table: &Vec<Vec<(Mersenne61Mont, Mersenne61Mont)>>,
    num_vars: usize,
    log_rate: usize,
) -> (r: Vec<Mersenne61Mont>)
    requires
        2 <= num_vars,
        num_vars + log_rate <= 30,
        levels_ok(table@, log_rate as int, (num_vars + log_rate) as int),
        codes.len() == num_vars - 1,
        forall|i: int|
            0 <= i < num_vars - 1 ==> #[trigger] codes@[i]@.len() == pow2((num_vars + log_rate - 1 - i) as nat),
        f_code.len() == pow2((num_vars + log_rate) as nat),
        padding_lambdas.len() >= num_vars - 1,
    ensures
        views(r@) == batched_degree_code(
            query_views(codes@),
            views(f_code@),
            alpha@,
            views(padding_lambdas@),
            table@,
            num_vars as int,
            log_rate as int,
        ),
{
    let n = num_vars;
    let lr = log_rate;
    let ghost cs = query_views(codes@);
    let ghost ls = views(padding_lambdas@);
    let mut b = copy_vec(&codes[n - 2]);
    assert(views(b@) == cs[n - 2]);
    let mut i: usize = 0;
    while i + 2 < n
        invariant
            n == num_vars,
            lr == log_rate,
            2 <= n,
            n + lr <= 30,
            i + 2 <= n,
            levels_ok(table@, lr as int, (n + lr) as int),
            codes.len() == n - 1,
            forall|k: int| 0 <= k < n - 1 ==> #[trigger] codes@[k]@.len() == pow2((n + lr - 1 - k) as nat),
            padding_lambdas.len() >= n - 1,
            cs == query_views(codes@),
            ls == views(padding_lambdas@),
            b@.len() == pow2((lr + 1 + i) as nat),
            views(b@) == batched_code(cs, alpha@, ls, table@, n as int, lr as int, i as nat),
        decreases n - i,
    {
        let level = &table[lr + i + 1];
        let code = &codes[n - i - 3];
        proof {
            vstd::arithmetic::power2::lemma_pow2_unfold((lr + i + 2) as nat);
        }
        assert(cs[n - i - 3] == views(code@));
        assert(ls[n - i - 2] == padding_lambdas@[n - i - 2]@);
        b = expand(&b, alpha, padding_lambdas[n - i - 2], level, code);
        i = i + 1;
    }
    proof {
        vstd::arithmetic::power2::lemma_pow2_unfold((lr + n) as nat);
    }
    assert(ls[0] == padding_lambdas@[0]@);
    expand(&b, alpha, padding_lambdas[0], &table[lr + n - 1], f_code)
}

/// The batch at `xi` of the openings: `o_0 + sum_(0 < k <= m) alpha^k
/// pad_k o_k`, where `pad_k` is the padding factor over the first `k`
/// challenges at the squares `xi^(2^j)`.
pub open spec fn batched_xi_value(openings: Seq<int>, alpha: int, lambdas: Seq<int>, xi: int, m: nat) -> int
    decreases m,
{
    if m == 0 {
        openings[0]
    } else {
        fadd(
            batched_xi_value(openings, alpha, lambdas, xi, (m - 1) as nat),
            fmul(
                fmul(fpow(alpha, m), padding_at(lambdas, Seq::new(m, |j: int| fpow(xi, pow2(j as nat))), m)),
                openings[m as int],
            ),
        )
    }
}

/// The openings at `xi`: the polynomial's coefficients evaluated at `xi`,
/// then quotient `i` at `xi^(2^(i+1))`; and their batch with `alpha` and the
/// padding challenges.
pub fn xi_openings(
    f_coef: &Vec<Mersenne61Mont>,
    coefs: &Vec<Vec<Mersenne61Mont>>,
    xi: Mersenne61Mont,
    alpha: Mersenne61Mont,
    padding_lambdas: &Vec<Mersenne61Mont>,
) -> (r: (Vec<Mersenne61Mont>, Mersenne61Mont))
    requires
        padding_lambdas.len() >= coefs.len(),
        coefs.len() < 64,
    ensures
        r.0@.len() == coefs.len() + 1,
        r.0@[0]@ == poly_eval(views(f_coef@), xi@),
        forall|i: int|
            0 <= i < coefs.len() ==> #[trigger] r.0@[i + 1]@ == poly_eval(
                views(coefs@[i]@),
                fpow(xi@, pow2((i + 1) as nat)),
            ),
        r.1@ == batched_xi_value(views(r.0@), alpha@, views(padding_lambdas@), xi@, coefs.len() as nat),
{
    let m = coefs.len();
    let ghost ls = views(padding_lambdas@);
    let mut openings: Vec<Mersenne61Mont> = Vec::new();
    openings.push(horner(f_coef, xi));
    let mut value = openings[0];
    let mut pad = Mersenne61Mont::one();
    let mut base = alpha;
    proof {
        reveal_with_fuel(fpow, 2);
        vstd::arithmetic::div_mod::lemma_small_mod(alpha@ as nat, p() as nat);
    }
    let mut i: usize = 0;
    while i < m
        invariant
            m == coefs.len(),
            m < 64,
            padding_lambdas.len() >= m,
            ls == views(padding_lambdas@),
            i <= m,
            openings@.len() == i + 1,
            openings@[0]@ == poly_eval(views(f_coef@), xi@),
            forall|k: int|
                0 <= k < i ==> #[trigger] openings@[k + 1]@ == poly_eval(
                    views(coefs@[k]@),
                    fpow(xi@, pow2((k + 1) as nat)),
                ),
            pad@ == padding_at(ls, Seq::new(i as nat, |j: int| fpow(xi@, pow2(j as nat))), i as nat),
            base@ == fpow(alpha@, (i + 1) as nat),
            value@ == batched_xi_value(views(openings@), alpha@, ls, xi@, i as nat),
        decreases m - i,
    {
        let ghost pows = Seq::new((i + 1) as nat, |j: int| fpow(xi@, pow2(j as nat)));
        let ghost prev_pows = Seq::new(i as nat, |j: int| fpow(xi@, pow2(j as nat)));
        proof {
            lemma_padding_prefix(ls, prev_pows, pows, i as nat);
        }
        let xp = exp_power_of_2(xi, i);
        assert(ls[i as int] == padding_lambdas@[i as int]@);
        pad = pad.mul(Mersenne61Mont::one().add(padding_lambdas[i].mul(xp)));
        let xq = exp_power_of_2(xi, i + 1);
        let o = horner(&coefs[i], xq);
        let ghost before = openings@;
        openings.push(o);
        proof {
            assert(views(openings@) =~= views(before).push(o@));
            lemma_batched_xi_prefix(views(before), views(openings@), alpha@, ls, xi@, i as nat);
            lemma_padding_prefix(ls, pows, Seq::new((i + 1) as nat, |j: int| fpow(xi@, pow2(j as nat))), (i + 1) as nat);
        }
        value = value.add(base.mul(pad).mul(o));
        proof {
            lemma_fmul_comm(base@, alpha@);
        }
        base = base.mul(alpha);
        i = i + 1;
    }
    (openings, value)
}

/// The padding factor over the first `m` entries only reads those entries.
proof fn lemma_padding_prefix(lambdas: Seq<int>, a: Seq<int>, b: Seq<int>, m: nat)
    requires
        m <= a.len(),
        m <= b.len(),
        forall|j: int| 0 <= j < m ==> a[j] == b[j],
    ensures
        padding_at(lambdas, a, m) == padding_at(lambdas, b, m),
    decreases m,
{
    if m > 0 {
        lemma_padding_prefix(lambdas, a, b, (m - 1) as nat);
    }
}

/// The batch over the first `m` openings only reads those openings.
proof fn lemma_batched_xi_prefix(a: Seq<int>, b: Seq<int>, alpha: int, lambdas: Seq<int>, xi: int, m: nat)
    requires
        m < a.len(),
        m < b.len(),
        forall|j: int| 0 <= j <= m ==> a[j] == b[j],
    ensures
        batched_xi_value(a, alpha, lambdas, xi, m) == batched_xi_value(b, alpha, lambdas, xi, m),
    decreases m,
{
    if m > 0 {
        lemma_batched_xi_prefix(a, b, alpha, lambdas, xi, (m - 1) as nat);
    }
}

/// The degree-check quotient codeword: at position `i`, with the domain
/// point `x` there, `(1 + lambda x) (b_i - value) / (x - xi)` (zero where
/// `x == xi`).
pub open spec fn degree_quotient_seq(
    b: Seq<int>,
    value: int,
    lambda: int,
    xi: int,
    level: Seq<(Mersenne61Mont, Mersenne61Mont)>,
) -> Seq<int> {
    Seq::new(
        b.len(),
        |i: int|
            fmul(
                fmul(fadd(1, fmul(lambda, chosen_point(level, i))), fsub(b[i], value)),
                finv(fsub(chosen_point(level, i), xi)),
            ),
    )
}

/// The degree-check quotient of the batched codeword by `X - xi`, corrected
/// by `1 + lambda X`.
pub fn degree_quotient_codeword(
    b: &Vec<Mersenne61Mont>,
    value: Mersenne61Mont,
    lambda: Mersenne61Mont,
    xi: Mersenne61Mont,
    level: &Vec<(Mersenne61Mont, Mersenne61Mont)>,
) -> (r: Vec<Mersenne61Mont>)
    requires
        b.len() <= 2 * level.len(),
    ensures
        views(r@) == degree_quotient_seq(views(b@), value@, lambda@, xi@, level@),
{
    let ghost bv = views(b@);
    proof {
        lemma_finv_zero();
    }
    let mut r: Vec<Mersenne61Mont> = Vec::new();
    let mut i: usize = 0;
    while i < b.len()
        invariant
            b.len() <= 2 * level.len(),
            bv == views(b@),
            finv(0) == 0,
            i <= b.len(),
            r@.len() == i,
            forall|k: int|
                0 <= k < i ==> #[trigger] views(r@)[k] == degree_quotient_seq(bv, value@, lambda@, xi@, level@)[k],
        decreases b.len() - i,
    {
        let t = level[i / 2].0;
        let x = if i % 2 == 0 {
            t
        } else {
            t.neg()
        };
        assert(x@ == chosen_point(level@, i as int));
        let d = x.sub(xi);
        let inv = if d.iszero() {
            Mersenne61Mont::zero()
        } else {
            d.inverse()
        };
        let c = Mersenne61Mont::one().add(lambda.mul(x)).mul(b[i].sub(value)).mul(inv);
        let ghost before = r@;
        r.push(c);
        proof {
            assert(bv[i as int] == b@[i as int]@);
            assert forall|k: int| 0 <= k < i + 1 implies #[trigger] views(r@)[k] == degree_quotient_seq(
                bv,
                value@,
                lambda@,
                xi@,
                level@,
            )[k] by {
                assert(views(r@)[k] == r@[k]@);
                if k < i {
                    assert(r@[k] == before[k]);
                    assert(views(before)[k] == before[k]@);
                }
            }
        }
        i = i + 1;
    }
    assert(views(r@) =~= degree_quotient_seq(bv, value@, lambda@, xi@, level@));
    r
}

/// One folding round of the opening: the codeword folded with `beta` over
/// the level's weights, plus the round's quotient codeword.
pub fn fold_with_quotient(
    code: Vec<Mersenne61Mont>,
    beta: Mersenne61Mont,
    level: &Vec<(Mersenne61Mont, Mersenne61Mont)>,
    quotient: &Vec<Mersenne61Mont>,
) -> (r: Vec<Mersenne61Mont>)
    requires
        code.len() == level.len() * 2,
        quotient.len() >= level.len(),
    ensures
        r@.len() == level.len(),
        forall|i: int|
            0 <= i < level.len() ==> #[trigger] r@[i]@ == fadd(
                fadd(even_at(views(code@), i), fmul(beta@, odd_at(views(code@), level@[i].1@, i))),
                quotient@[i]@,
            ),
{
    let ghost cv = views(code@);
    let folded = fold(code, beta, level);
    let mut r: Vec<Mersenne61Mont> = Vec::new();
    let mut i: usize = 0;
    while i < folded.len()
        invariant
            folded.len() == level.len(),
            quotient.len() >= level.len(),
            forall|k: int|
                0 <= k < folded.len() ==> #[trigger] folded[k]@ == fadd(
                    even_at(cv, k),
                    fmul(beta@, odd_at(cv, level[k].1@, k)),
                ),
            i <= folded.len(),
            r@.len() == i,
            forall|k: int|
                0 <= k < i ==> #[trigger] r@[k]@ == fadd(
                    fadd(even_at(cv, k), fmul(beta@, odd_at(cv, level@[k].1@, k))),
                    quotient@[k]@,
                ),
        decreases folded.len() - i,
    {
        r.push(folded[i].add(quotient[i]));
        i = i + 1;
    }
    r
}


/// The fold of a codeword with `beta` over the level's weights, as `fold`
/// computes it.
pub open spec fn fold_seq(e: Seq<int>, beta: int, level: Seq<(Mersenne61Mont, Mersenne61Mont)>) -> Seq<int> {
    Seq::new(level.len(), |i: int| fadd(even_at(e, i), fmul(beta, odd_at(e, level[i].1@, i))))
}

/// The prover's fold of round `i`, before the round's quotient codeword is
/// added: the degree-check quotient codeword `start` folded over the top
/// level, then each round's codeword (the previous fold plus that round's
/// quotient codeword) folded one level down.
pub open spec fn prover_fold(
    start: Seq<int>,
    betas: Seq<int>,
    codes: Seq<Seq<int>>,
    table: Seq<Vec<(Mersenne61Mont, Mersenne61Mont)>>,
    lg: int,
    i: nat,
) -> Seq<int>
    decreases i, 0nat,
{
    if i == 0 {
        fold_seq(start, betas[0], table[lg - 1]@)
    } else {
        fold_seq(
            prover_round_codeword(start, betas, codes, table, lg, (i - 1) as nat),
            betas[i as int],
            table[lg - 1 - i]@,
        )
    }
}

/// The codeword the prover commits to in round `i`: its fold plus the
/// round's quotient codeword.
pub open spec fn prover_round_codeword(
    start: Seq<int>,
    betas: Seq<int>,
    codes: Seq<Seq<int>>,
    table: Seq<Vec<(Mersenne61Mont, Mersenne61Mont)>>,
    lg: int,
    i: nat,
) -> Seq<int>
    decreases i, 1nat,
{
    let f = prover_fold(start, betas, codes, table, lg, i);
    Seq::new(f.len(), |m: int| fadd(f[m], codes[i as int][m]))
}

/// The prover's fold of round `i` has as many entries as its level.
proof fn lemma_prover_fold_len(
    start: Seq<int>,
    betas: Seq<int>,
    codes: Seq<Seq<int>>,
    table: Seq<Vec<(Mersenne61Mont, Mersenne61Mont)>>,
    lg: int,
    i: nat,
)
    ensures
        prover_fold(start, betas, codes, table, lg, i).len() == table[lg - 1 - i]@.len(),
{
}

/// Whether the answer to query `q` holds, for its first `j` rounds, the
/// honest prover's entries: each round's quotient at the query's position,
/// and each round's codeword pair around it.
pub open spec fn honest_fold_answer(
    q: int,
    proof: FoldQueryProof,
    start: Seq<int>,
    betas: Seq<int>,
    codes: Seq<Seq<int>>,
    table: Seq<Vec<(Mersenne61Mont, Mersenne61Mont)>>,
    lg: int,
    j: nat,
) -> bool {
    forall|i: int|
        0 <= i < j ==> {
            let r = prover_round_codeword(start, betas, codes, table, lg, i as nat);
            let h = q / pow2((i + 2) as nat) as int;
            &&& #[trigger] proof.quotients@[i]@ == codes[i][q / pow2((i + 1) as nat) as int]
            &&& proof.neighbors@[i].0@ == r[2 * h]
            &&& proof.neighbors@[i].1@ == r[2 * h + 1]
        }
}

/// Round consistency of the folding-based opening: when the answer to a
/// query holds the honest prover's quotients and neighbours, the first fold
/// is the prover's, and the weights the verifier reads in each round are
/// those the prover folded with (the level above holds them at the same
/// positions), every round's neighbour check passes: after `j` rounds the
/// check has either failed on a neighbours' path or reached the prover's
/// fold at the query's position.
#[verifier::spinoff_prover]
pub proof fn lemma_fold_chain_tracks_prover(
    q: int,
    proof: FoldQueryProof,
    ctx: FoldQueryContext,
    table: Seq<Vec<(Mersenne61Mont, Mersenne61Mont)>>,
    start: Seq<int>,
    codes: Seq<Seq<int>>,
    j: nat,
)
    requires
        ({
            let lg = ctx.num_vars + ctx.log_rate;
            &&& j < ctx.num_vars
            &&& ctx.betas@.len() >= ctx.num_vars
            &&& 0 <= q < pow2(lg as nat)
            &&& table.len() >= lg
            &&& forall|i: int| 0 <= i <= j ==> #[trigger] table[lg - 1 - i]@.len() == pow2((lg - 1 - i) as nat)
            &&& start.len() == pow2(lg as nat)
            &&& forall|i: int| 0 <= i < j ==> #[trigger] codes[i].len() >= table[lg - 1 - i]@.len()
            &&& forall|i: int|
                1 <= i <= j ==> (#[trigger] table[lg - i]@[q / pow2((i + 1) as nat) as int]).1@
                    == table[lg - 1 - i]@[q / pow2((i + 1) as nat) as int].1@
            &&& honest_fold_answer(q, proof, start, views(ctx.betas@), codes, table, lg, j)
        }),
    ensures
        ({
            let lg = ctx.num_vars + ctx.log_rate;
            let first = prover_fold(start, views(ctx.betas@), codes, table, lg, 0)[q / 2];
            match fold_chain(q, first, proof, ctx, table, j) {
                Ok(v) => v == prover_fold(start, views(ctx.betas@), codes, table, lg, j)[q / pow2(j + 1) as int],
                Err(e) => e is NeighborPath,
            }
        }),
    decreases j,
{
    let lg = ctx.num_vars + ctx.log_rate;
    let betas = views(ctx.betas@);
    let first = prover_fold(start, betas, codes, table, lg, 0)[q / 2];
    if j == 0 {
        assert(pow2(1) == 2) by {
            lemma2_to64();
        }
    } else {
        let k = (j - 1) as nat;
        lemma_fold_chain_tracks_prover(q, proof, ctx, table, start, codes, k);
        match fold_chain(q, first, proof, ctx, table, k) {
            Err(e) => {},
            Ok(v) => {
                let x = q / pow2(j) as int;
                let h = q / pow2(j + 1) as int;
                lemma_pow2_pos(j);
                lemma_pow2_pos(j + 1);
                assert(x / 2 == h && (x % 2 == 0 ==> x == 2 * h) && (x % 2 == 1 ==> x == 2 * h + 1) && (x % 2 == 0
                    || x % 2 == 1)) by {
                    vstd::arithmetic::div_mod::lemma_div_denominator(q, pow2(j) as int, 2);
                    vstd::arithmetic::power2::lemma_pow2_unfold(j + 1);
                    vstd::arithmetic::mul::lemma_mul_is_commutative(pow2(j) as int, 2);
                    vstd::arithmetic::div_mod::lemma_fundamental_div_mod(x, 2);
                }
                assert(0 <= h < pow2((lg - 1 - j) as nat)) by {
                    vstd::arithmetic::power2::lemma_pow2_adds(j + 1, (lg - 1 - j) as nat);
                    vstd::arithmetic::div_mod::lemma_multiply_divide_lt(q, pow2(j + 1) as int, pow2((lg - 1 - j) as nat) as int);
                    vstd::arithmetic::div_mod::lemma_div_pos_is_pos(q, pow2(j + 1) as int);
                }
                let r = prover_round_codeword(start, betas, codes, table, lg, k);
                lemma_prover_fold_len(start, betas, codes, table, lg, k);
                assert(table[lg - 1 - k as int]@.len() == pow2((lg - 1 - k) as nat));
                assert(pow2((lg - 1 - k) as nat) == 2 * pow2((lg - 1 - j) as nat)) by {
                    vstd::arithmetic::power2::lemma_pow2_unfold((lg - 1 - k) as nat);
                }
                assert(proof.quotients@[k as int]@ == codes[k as int][x]);
                assert(r[x] == fadd(v, proof.quotients@[k as int]@));
                let nb = proof.neighbors@[k as int];
                assert(nb.0@ == r[2 * h] && nb.1@ == r[2 * h + 1]);
                let w = table[lg - j]@[h].1@;
                assert(table[lg - j]@[h].1@ == table[lg - 1 - j]@[h].1@);
                lemma_fmul_comm(ctx.betas@[j as int]@, odd_at(r, w, h));
                assert(betas[j as int] == ctx.betas@[j as int]@);
                assert(fold_pair(nb.0@, nb.1@, w, ctx.betas@[j as int]@) == fold_seq(r, betas[j as int], table[lg - 1
                    - j]@)[h]);
            },
        }
    }
}


/// The path of the pair at position `x` in a tree: the sibling pairs below
/// the first layer of one digest.
pub open spec fn tree_path(tree: Seq<Vec<[u8; 32]>>, x: int, path: Seq<([u8; 32], [u8; 32])>) -> bool {
    exists|k: int|
        #![trigger crate::merkle::path_stop(crate::merkle::tree_view(tree), k)]
        crate::merkle::path_stop(crate::merkle::tree_view(tree), k) && pairs_view(path)
            == crate::merkle::path_pairs(crate::merkle::tree_view(tree), x, k)
}

/// The prover's answer to query `q` of the folding-based opening: the
/// codeword's pair with its path, the quotients' opening with its path, and
/// for each round the pair of neighbours around the query with its path.
pub fn fold_query_answer(
    q: usize,
    f_code: &Vec<Mersenne61Mont>,
    f_tree: &Vec<Vec<[u8; 32]>>,
    quotient_tree: &Vec<Vec<[u8; 32]>>,
    codes: &Vec<Vec<Mersenne61Mont>>,
    tree_evals: &Vec<Vec<Mersenne61Mont>>,
    trees: &Vec<Vec<Vec<[u8; 32]>>>,
    num_vars: usize,
) -> (r: FoldQueryProof)
    requires
        1 <= num_vars <= 30,
        q / 2 * 2 + 1 < f_code.len(),
        crate::merkle::path_in_bounds(crate::merkle::tree_view(f_tree@), q as int),
        crate::mmcs::mmcs_path_in_bounds(crate::merkle::tree_view(quotient_tree@), q as int / 2),
        codes.len() >= num_vars - 1,
        forall|i: int|
            0 <= i < num_vars - 1 ==> (q as int / pow2((i + 1) as nat) as int) < #[trigger] codes@[i]@.len(),
        tree_evals.len() >= num_vars - 1,
        trees.len() >= num_vars - 1,
        forall|i: int|
            0 <= i < num_vars - 1 ==> 2 * (q as int / pow2((i + 2) as nat) as int) + 1
                < #[trigger] tree_evals@[i]@.len(),
        forall|i: int|
            0 <= i < num_vars - 1 ==> crate::merkle::path_in_bounds(
                crate::merkle::tree_view(#[trigger] trees@[i]@),
                2 * (q as int / pow2((i + 2) as nat) as int),
            ),
    ensures
        r.codeword_pair == (f_code@[q / 2 * 2], f_code@[q / 2 * 2 + 1]),
        tree_path(f_tree@, q as int, r.codeword_path@),
        dseq(r.quotient_path@) == crate::mmcs::mmcs_path(
            crate::merkle::tree_view(quotient_tree@),
            q as int / 2,
            (quotient_tree@.len() - 1) as nat,
        ),
        r.quotients@.len() == num_vars - 1,
        r.neighbors@.len() == num_vars - 1,
        r.neighbor_paths@.len() == num_vars - 1,
        forall|i: int|
            0 <= i < num_vars - 1 ==> {
                let h = q as int / pow2((i + 2) as nat) as int;
                &&& #[trigger] r.quotients@[i] == codes@[i]@[q as int / pow2((i + 1) as nat) as int]
                &&& r.neighbors@[i] == (tree_evals@[i]@[2 * h], tree_evals@[i]@[2 * h + 1])
                &&& tree_path(trees@[i]@, 2 * h, r.neighbor_paths@[i]@)
            },
{
    let n = num_vars;
    let lo = q / 2 * 2;
    let codeword_pair = (f_code[lo], f_code[lo + 1]);
    let codeword_path = crate::merkle::get_merkle_path(f_tree, q, false);
    let quotient_path = crate::mmcs::get_merkle_path_mmcs(quotient_tree, q / 2);
    let mut quotients: Vec<Mersenne61Mont> = Vec::new();
    let mut neighbors: Vec<(Mersenne61Mont, Mersenne61Mont)> = Vec::new();
    let mut neighbor_paths: Vec<Vec<([u8; 32], [u8; 32])>> = Vec::new();
    let mut i: usize = 0;
    proof {
        lemma2_to64();
    }
    while i + 1 < n
        invariant
            1 <= n <= 30,
            n == num_vars,
            codes.len() >= n - 1,
            tree_evals.len() >= n - 1,
            trees.len() >= n - 1,
            forall|t: int| 0 <= t < n - 1 ==> (q as int / pow2((t + 1) as nat) as int) < #[trigger] codes@[t]@.len(),
            forall|t: int|
                0 <= t < n - 1 ==> 2 * (q as int / pow2((t + 2) as nat) as int) + 1 < #[trigger] tree_evals@[t]@.len(),
            forall|t: int|
                0 <= t < n - 1 ==> crate::merkle::path_in_bounds(
                    crate::merkle::tree_view(#[trigger] trees@[t]@),
                    2 * (q as int / pow2((t + 2) as nat) as int),
                ),
            i + 1 <= n,
            quotients@.len() == i,
            neighbors@.len() == i,
            neighbor_paths@.len() == i,
            forall|t: int|
                0 <= t < i ==> {
                    let h = q as int / pow2((t + 2) as nat) as int;
                    &&& #[trigger] quotients@[t] == codes@[t]@[q as int / pow2((t + 1) as nat) as int]
                    &&& neighbors@[t] == (tree_evals@[t]@[2 * h], tree_evals@[t]@[2 * h + 1])
                    &&& tree_path(trees@[t]@, 2 * h, neighbor_paths@[t]@)
                },
        decreases n - i,
    {
        proof {
            lemma2_to64();
            lemma_pow2_pos((i + 1) as nat);
            lemma_pow2_pos((i + 2) as nat);
            lemma_pow2_strictly_increases((i + 2) as nat, 31);
            lemma_pow2_strictly_increases((i + 1) as nat, (i + 2) as nat);
        }
        let p1 = pow2_of(i + 1);
        let p2 = pow2_of(i + 2);
        let qi = q / p1;
        let h = q / p2;
        assert(qi as int == q as int / pow2((i + 1) as nat) as int);
        assert(h as int == q as int / pow2((i + 2) as nat) as int);
        assert(2 * (h as int) + 1 < tree_evals@[i as int]@.len());
        assert((qi as int) < codes@[i as int]@.len());
        assert(crate::merkle::path_in_bounds(crate::merkle::tree_view(trees@[i as int]@), 2 * (h as int)));
        let quot = codes[i][qi];
        let te_len = tree_evals[i].len();
        assert(te_len == tree_evals@[i as int]@.len());
        let h2 = 2 * h;
        let nb = (tree_evals[i][h2], tree_evals[i][h2 + 1]);
        let path = crate::merkle::get_merkle_path(&trees[i], h2, false);
        let ghost old_q = quotients@;
        let ghost old_n = neighbors@;
        let ghost old_p = neighbor_paths@;
        quotients.push(quot);
        neighbors.push(nb);
        neighbor_paths.push(path);
        assert forall|t: int|
            0 <= t < i + 1 implies {
                let h = q as int / pow2((t + 2) as nat) as int;
                &&& #[trigger] quotients@[t] == codes@[t]@[q as int / pow2((t + 1) as nat) as int]
                &&& neighbors@[t] == (tree_evals@[t]@[2 * h], tree_evals@[t]@[2 * h + 1])
                &&& tree_path(trees@[t]@, 2 * h, neighbor_paths@[t]@)
            } by {
            if t < i {
                assert(quotients@[t] == old_q[t] && neighbors@[t] == old_n[t] && neighbor_paths@[t] == old_p[t]);
            }
        }
        i = i + 1;
    }
    FoldQueryProof { codeword_pair, codeword_path, quotient_path, quotients, neighbors, neighbor_paths }
}

/// Round `i`'s neighbours authenticate along their path at the position
/// `q / 2^(i+1)` the verifier checks them at.
pub open spec fn neighbors_authenticated(proof: FoldQueryProof, q: int, i: int) -> bool {
    path_chain_ok(
        pairs_view(proof.neighbor_paths@[i]@),
        proof.neighbors@[i].0@,
        proof.neighbors@[i].1@,
        q / pow2((i + 1) as nat) as int,
    )
}

/// One passing round: when the first `k + 1` folding rounds pass, the first
/// `k` do, and round `k`'s neighbours authenticate.
proof fn lemma_fold_round_authenticates(
    q: int,
    first: int,
    proof: FoldQueryProof,
    ctx: FoldQueryContext,
    table: Seq<Vec<(Mersenne61Mont, Mersenne61Mont)>>,
    k: nat,
)
    requires
        fold_chain(q, first, proof, ctx, table, k + 1) is Ok,
    ensures
        fold_chain(q, first, proof, ctx, table, k) is Ok,
        neighbors_authenticated(proof, q, k as int),
{
}

/// Soundness of the neighbours' checks: when the first `j` folding rounds of
/// a query pass, the neighbours of every one of them (not only the first)
/// authenticate along their path.
pub proof fn lemma_fold_chain_authenticates_every_round(
    q: int,
    first: int,
    proof: FoldQueryProof,
    ctx: FoldQueryContext,
    table: Seq<Vec<(Mersenne61Mont, Mersenne61Mont)>>,
    j: nat,
)
    requires
        fold_chain(q, first, proof, ctx, table, j) is Ok,
    ensures
        forall|i: int| 0 <= i < j ==> #[trigger] neighbors_authenticated(proof, q, i),
    decreases j,
{
    if j > 0 {
        lemma_fold_round_authenticates(q, first, proof, ctx, table, (j - 1) as nat);
        lemma_fold_chain_authenticates_every_round(q, first, proof, ctx, table, (j - 1) as nat);
    }
}

/// Soundness of the check of one query: when it accepts, the codeword's
/// pair authenticates up to the codeword's root, the quotients climb to the
/// quotients' root, and every round's neighbours authenticate along their
/// path.
pub proof fn lemma_fold_query_accepted_authenticates(
    q: int,
    proof: FoldQueryProof,
    ctx: FoldQueryContext,
    table: Seq<Vec<(Mersenne61Mont, Mersenne61Mont)>>,
)
    requires
        fold_query_outcome(q, proof, ctx, table) is Ok,
    ensures
        path_root_ok(
            pairs_view(proof.codeword_path@),
            proof.codeword_pair.0@,
            proof.codeword_pair.1@,
            q,
            ctx.codeword_root@,
        ),
        mmcs_climb(dseq(proof.quotient_path@), views(proof.quotients@), q / 2, (ctx.num_vars + ctx.log_rate - 1) as nat)
            == ctx.quotient_root@,
        forall|i: int| 0 <= i < ctx.num_vars - 1 ==> #[trigger] neighbors_authenticated(proof, q, i),
{
    let n = ctx.num_vars as nat;
    let lg = n + ctx.log_rate;
    let level = table[lg - 1]@;
    let first = fold_pair(
        side_quotient(proof, ctx, level, q, 0),
        side_quotient(proof, ctx, level, q, 1),
        level[q / 2].1@,
        ctx.betas@[0]@,
    );
    lemma_fold_chain_authenticates_every_round(q, first, proof, ctx, table, (n - 1) as nat);
}

} // verus!
