//! Field arithmetic of the Basefold/FRI folding: two-point interpolation,
//! powers, evaluation points of the foldable domain, one folding round, and the
//! positions a query reads in every round.
use crate::merkle::{lemma_level_index_step, lemma_xor_one, level_index, pair_hi, pair_lo};
use crate::mersenne_61_mont::{
    fadd, fmul, fneg, fpow, fsub, finv, lemma_fmul_minus_one, lemma_fpow_add, lemma_fpow_double,
    lemma_view_range, p, views, Mersenne61Mont, LOG_ORDER,
};
use crate::zeromorph_fri_v4::inv2;
use crate::util::{bits_u64, lemma_num_bits_bounds, num_bits};
use vstd::arithmetic::power2::{lemma2_to64, lemma_pow2_pos, lemma_pow2_unfold, pow2};
use vstd::prelude::*;

verus! {

broadcast use lemma_view_range;

/// The value at `x` of the line through `(a0, a1)` with slope `(b1 - a1) * w`.
pub open spec fn line_at(a0: int, a1: int, b1: int, w: int, x: int) -> int {
    fadd(a1, fmul(fmul(fsub(x, a0), fsub(b1, a1)), w))
}

/// Interpolates the line through `(a0, a1)` and `(b0, b1)` at `x`, given the
/// precomputed weight `1 / (b0 - a0)`.
pub fn interpolate2_weights(
    points: [(Mersenne61Mont, Mersenne61Mont); 2],
    weight: Mersenne61Mont,
    x: Mersenne61Mont,
) -> (r: Mersenne61Mont)
    ensures
        r@ == line_at(points[0].0@, points[0].1@, points[1].1@, weight@, x@),
{
    let (a0, a1) = points[0];
    let (_b0, b1) = points[1];
    a1.add(x.sub(a0).mul(b1.sub(a1)).mul(weight))
}

/// Interpolates the line through two points with distinct abscissas at `x`.
pub fn interpolate2(points: [(Mersenne61Mont, Mersenne61Mont); 2], x: Mersenne61Mont) -> (r:
    Mersenne61Mont)
    requires
        points[0].0@ != points[1].0@,
    ensures
        r@ == line_at(
            points[0].0@,
            points[0].1@,
            points[1].1@,
            finv(fsub(points[1].0@, points[0].0@)),
            x@,
        ),
{
    let (a0, a1) = points[0];
    let (b0, b1) = points[1];
    let d = b0.sub(a0);
    proof {
        if b0@ > a0@ {
            vstd::arithmetic::div_mod::lemma_small_mod((b0@ - a0@) as nat, p() as nat);
        } else {
            vstd::arithmetic::div_mod::lemma_small_mod((b0@ - a0@ + p()) as nat, p() as nat);
            vstd::arithmetic::div_mod::lemma_mod_add_multiples_vanish(b0@ - a0@, p());
        }
    }
    a1.add(x.sub(a0).mul(b1.sub(a1)).mul(d.inverse()))
}

/// A canonical value to the first power is itself.
proof fn lemma_fpow_one(a: int)
    requires
        0 <= a < p(),
    ensures
        fpow(a, 1) == a,
{
    assert(fpow(a, 0) == 1);
    assert(fpow(a, 1) == fmul(a, fpow(a, 0)));
    vstd::arithmetic::div_mod::lemma_small_mod(a as nat, p() as nat);
}

/// Raises an element to a 64-bit power by square-and-multiply.
pub fn exp_u64(el: &Mersenne61Mont, power: u64) -> (r: Mersenne61Mont)
    ensures
        r@ == fpow(el@, power as nat),
{
    let ghost a = el@;
    let mut current = *el;
    let mut product = Mersenne61Mont::one();
    let nb = bits_u64(power);
    proof {
        lemma2_to64();
        lemma_fpow_one(a);
        vstd::arithmetic::div_mod::lemma_mod_self_0(1);
    }
    for j in 0..nb
        invariant
            nb == num_bits(power as nat),
            nb <= 64,
            a == el@,
            current@ == fpow(a, pow2(j as nat)),
            product@ == fpow(a, (power as nat) % pow2(j as nat)),
    {
        let ghost old_exp = (power as nat) % pow2(j as nat);
        let ghost y = pow2(j as nat) as int;
        let ghost bit = ((power as int) / y) % 2;
        proof {
            lemma_pow2_pos(j as nat);
            lemma_pow2_unfold((j + 1) as nat);
            assert(y * 2 == pow2((j + 1) as nat));
            vstd::arithmetic::div_mod::lemma_mod_breakdown(power as int, y, 2);
            vstd::bits::lemma_u64_shr_is_div(power, j as u64);
            let sh = power >> (j as u64);
            assert(sh as int == (power as int) / y);
            assert(sh & 1 == sh % 2) by (bit_vector);
        }
        let ghost new_exp = (power as nat) % pow2((j + 1) as nat);
        assert(new_exp == y * bit + old_exp);
        if (power >> (j as u64)) & 1 != 0 {
            proof {
                assert(bit == 1);
                assert(new_exp == old_exp + pow2(j as nat));
                lemma_fpow_add(a, old_exp, pow2(j as nat));
            }
            product = product.mul(current);
        } else {
            proof {
                assert(bit == 0);
                vstd::arithmetic::mul::lemma_mul_basics(y);
                assert(new_exp == old_exp);
            }
        }
        proof {
            lemma_fpow_double(a, pow2(j as nat));
        }
        current = current.mul(current);
    }
    proof {
        lemma_num_bits_bounds(power as nat);
        vstd::arithmetic::div_mod::lemma_small_mod(power as nat, pow2(nb as nat));
    }
    product
}

/// Squares an element `power_log` times: raises it to 2^power_log.
pub fn exp_power_of_2(el: Mersenne61Mont, power_log: usize) -> (r: Mersenne61Mont)
    ensures
        r@ == fpow(el@, pow2(power_log as nat)),
{
    let mut res = el;
    proof {
        lemma2_to64();
        lemma_fpow_one(el@);
    }
    for i in 0..power_log
        invariant
            res@ == fpow(el@, pow2(i as nat)),
    {
        proof {
            lemma_fpow_double(el@, pow2(i as nat));
            lemma_pow2_unfold((i + 1) as nat);
        }
        res = res.mul(res);
    }
    res
}

/// The generator of the subgroup of order 2^n_log derived from the field's
/// advertised root of unity.
pub fn primitive_root_of_unity(n_log: usize) -> (r: Mersenne61Mont)
    requires
        n_log <= LOG_ORDER,
    ensures
        r@ == fpow(p() - 1, pow2((LOG_ORDER - n_log) as nat)),
{
    let base = Mersenne61Mont::root_of_unity();
    exp_power_of_2(base, (LOG_ORDER as usize) - n_log)
}

/// The point of the foldable domain at `eval_index`: within a block, the first
/// half holds the powers of `base` and the second half their negations.
pub fn query_point(block_length: usize, eval_index: usize, level: usize, base: Mersenne61Mont) -> (r:
    Mersenne61Mont)
    requires
        block_length >= 2,
    ensures
        ({
            let li = eval_index % block_length;
            let e = fpow(base@, (li % (block_length / 2)) as nat);
            r@ == (if li >= block_length / 2 {
                fneg(e)
            } else {
                e
            })
        }),
{
    let level_index = eval_index % block_length;
    assert((block_length >> 1) == block_length / 2) by (bit_vector);
    let mut el = exp_u64(&base, (level_index % (block_length >> 1)) as u64);
    if level_index >= (block_length >> 1) {
        proof {
            lemma_fmul_minus_one(el@);
        }
        el = Mersenne61Mont::one().neg().mul(el);
    }
    el
}

/// One folding round: each adjacent pair of values is read as the line
/// through `(x, v[2i])` and `(-x, v[2i+1])`, with `x` and its weight taken
/// from the table level, and evaluated at the challenge.
pub fn basefold_one_round_by_interpolation_weights(
    table: &Vec<Vec<(Mersenne61Mont, Mersenne61Mont)>>,
    table_offset: usize,
    values: &Vec<Mersenne61Mont>,
    challenge: Mersenne61Mont,
) -> (r: Vec<Mersenne61Mont>)
    requires
        table_offset < table.len(),
        table[table.len() - 1 - table_offset].len() == values.len() / 2,
    ensures
        r.len() == values.len() / 2,
        forall|i: int|
            0 <= i < r.len() ==> {
                let level = table[table.len() - 1 - table_offset];
                #[trigger] r[i]@ == line_at(
                    level[i].0@,
                    values[2 * i]@,
                    values[2 * i + 1]@,
                    level[i].1@,
                    challenge@,
                )
            },
{
    let level = &table[table.len() - 1 - table_offset];
    let half = values.len() / 2;
    let mut out: Vec<Mersenne61Mont> = Vec::new();
    for i in 0..half
        invariant
            half == values.len() / 2,
            level.len() == half,
            level == table[table.len() - 1 - table_offset],
            out.len() == i,
            forall|k: int|
                0 <= k < i ==> #[trigger] out[k]@ == line_at(
                    level[k].0@,
                    values[2 * k]@,
                    values[2 * k + 1]@,
                    level[k].1@,
                    challenge@,
                ),
    {
        let x = level[i].0;
        let w = level[i].1;
        let v = interpolate2_weights([(x, values[2 * i]), (x.neg(), values[2 * i + 1])], w, challenge);
        out.push(v);
    }
    out
}

/// Every oracle holds the sibling pair of the query's ancestor in its round.
pub open spec fn query_in_bounds(oracles: Seq<Vec<Mersenne61Mont>>, x: int) -> bool {
    forall|i: int|
        0 <= i < oracles.len() ==> pair_hi(level_index(x, i)) < #[trigger] oracles[i].len()
}

/// The sibling pair of the query's ancestor in round `k`.
pub open spec fn query_pair(oracles: Seq<Vec<Mersenne61Mont>>, x: int, k: int) -> (
    Mersenne61Mont,
    Mersenne61Mont,
) {
    let y = level_index(x, k);
    (oracles[k]@[pair_lo(y)], oracles[k]@[pair_hi(y)])
}

/// Round `k` of a query read `q` at even position `idx`.
pub open spec fn query_read_ok(
    oracles: Seq<Vec<Mersenne61Mont>>,
    x: int,
    k: int,
    q: (Mersenne61Mont, Mersenne61Mont),
    idx: usize,
) -> bool {
    q == query_pair(oracles, x, k) && idx == pair_lo(level_index(x, k))
}

/// The sibling pairs a query reads from each folded oracle, with the even
/// position of each pair.
pub fn basefold_get_query(oracles: &Vec<Vec<Mersenne61Mont>>, x_index: usize) -> (r: (
    Vec<(Mersenne61Mont, Mersenne61Mont)>,
    Vec<usize>,
))
    requires
        query_in_bounds(oracles@, x_index as int),
    ensures
        r.0.len() == oracles.len(),
        r.1.len() == oracles.len(),
        forall|i: int|
            0 <= i < oracles.len() ==> query_read_ok(oracles@, x_index as int, i, #[trigger] r.0[i], r.1[i]),
{
    let mut queries: Vec<(Mersenne61Mont, Mersenne61Mont)> = Vec::new();
    let mut indices: Vec<usize> = Vec::new();
    proof {
        lemma_xor_one(x_index);
        lemma2_to64();
    }
    let mut x = x_index >> 1;
    let mut i: usize = 0;
    while i < oracles.len()
        invariant
            i <= oracles.len(),
            query_in_bounds(oracles@, x_index as int),
            x == level_index(x_index as int, i as int),
            queries.len() == i,
            indices.len() == i,
            forall|k: int|
                0 <= k < i ==> query_read_ok(oracles@, x_index as int, k, #[trigger] queries[k], indices[k]),
        decreases oracles.len() - i,
    {
        let oracle = &oracles[i];
        proof {
            lemma_xor_one(x);
        }
        let mut p0 = x;
        let mut p1 = x ^ 1;
        if p1 < p0 {
            p0 = x ^ 1;
            p1 = x;
        }
        assert(p0 == pair_lo(x as int) && p1 == pair_hi(x as int));
        assert(pair_hi(level_index(x_index as int, i as int)) < oracles@[i as int].len());
        let ghost oq = queries@;
        let ghost oi = indices@;
        queries.push((oracle[p0], oracle[p1]));
        indices.push(p0);
        assert forall|k: int|
            0 <= k < i + 1 implies query_read_ok(oracles@, x_index as int, k, #[trigger] queries[k], indices[k]) by {
            if k < i {
                assert(queries[k] == oq[k]);
                assert(indices[k] == oi[k]);
            }
        }
        proof {
            lemma_level_index_step(x_index as int, i as int);
        }
        x = x >> 1;
        i = i + 1;
    }
    assert(i == oracles.len());
    assert(forall|k: int| 0 <= k < i ==> query_read_ok(oracles@, x_index as int, k, #[trigger] queries[k], indices[k]));
    (queries, indices)
}

/// The query reads its own sibling pair from the first oracle, then the pair
/// of its ancestor from each folded oracle.
pub fn basefold_get_query_with_first(
    first_oracle: &Vec<Mersenne61Mont>,
    oracles: &Vec<Vec<Mersenne61Mont>>,
    x_index: usize,
) -> (r: (Vec<(Mersenne61Mont, Mersenne61Mont)>, Vec<usize>))
    requires
        pair_hi(x_index as int) < first_oracle.len(),
        query_in_bounds(oracles@, x_index as int),
    ensures
        r.0.len() == oracles.len() + 1,
        r.1.len() == oracles.len() + 1,
        r.0[0] == (first_oracle[pair_lo(x_index as int)], first_oracle[pair_hi(x_index as int)]),
        r.1[0] == pair_lo(x_index as int),
        forall|i: int|
            1 <= i <= oracles.len() ==> query_read_ok(oracles@, x_index as int, i - 1, #[trigger] r.0[i], r.1[i]),
{
    proof {
        lemma_xor_one(x_index);
    }
    let mut p0 = x_index;
    let mut p1 = x_index ^ 1;
    if p1 < p0 {
        p0 = x_index ^ 1;
        p1 = x_index;
    }
    let mut queries: Vec<(Mersenne61Mont, Mersenne61Mont)> = Vec::new();
    let mut indices: Vec<usize> = Vec::new();
    queries.push((first_oracle[p0], first_oracle[p1]));
    indices.push(p0);
    let (rest_q, rest_i) = basefold_get_query(oracles, x_index);
    let mut j: usize = 0;
    while j < rest_q.len()
        invariant
            rest_q.len() == oracles.len(),
            rest_i.len() == oracles.len(),
            j <= rest_q.len(),
            queries.len() == j + 1,
            indices.len() == j + 1,
            queries[0] == (first_oracle[pair_lo(x_index as int)], first_oracle[pair_hi(
                x_index as int,
            )]),
            indices[0] == pair_lo(x_index as int),
            pair_hi(x_index as int) < first_oracle.len(),
            forall|k: int| 0 <= k < j ==> #[trigger] queries[k + 1] == rest_q[k],
            forall|k: int| 0 <= k < j ==> #[trigger] indices[k + 1] == rest_i[k],
        decreases rest_q.len() - j,
    {
        queries.push(rest_q[j]);
        indices.push(rest_i[j]);
        j = j + 1;
    }
    assert(j == oracles.len());
    assert forall|k: int| 1 <= k <= oracles.len() implies query_read_ok(oracles@, x_index as int, k - 1, #[trigger] queries[k], indices[k]) by {
        assert(queries[(k - 1) + 1] == rest_q[k - 1]);
        assert(indices[(k - 1) + 1] == rest_i[k - 1]);
    }
    (queries, indices)
}

/// One folding of a row of evaluations: pair `i`, at entries `2i` and
/// `2i + 1`, gives `(e0 + e1) / 2 + alpha * (e0 - e1) / 2 * t`, where `t` is
/// the inverse of table entry `2i`, or zero where that entry is zero.
pub open spec fn folded_row(evals: Seq<int>, alpha: int, table: Seq<int>) -> Seq<int> {
    Seq::new(
        evals.len() / 2,
        |i: int|
            fadd(
                fmul(fadd(evals[2 * i], evals[2 * i + 1]), inv2()),
                fmul(alpha, fmul(fmul(fsub(evals[2 * i], evals[2 * i + 1]), inv2()), finv(table[2 * i]))),
            ),
    )
}

/// Folds a row of evaluations of even length with the challenge `alpha` and
/// the table of points whose inverses weigh the differences.
pub fn fold_row(evals: &Vec<Mersenne61Mont>, alpha: Mersenne61Mont, table: &Vec<Mersenne61Mont>) -> (r: Vec<
    Mersenne61Mont,
>)
    requires
        evals.len() % 2 == 0,
        table.len() == evals.len(),
    ensures
        views(r@) == folded_row(views(evals@), alpha@, views(table@)),
{
    let inv_two = Mersenne61Mont::inverse_2();
    let half = evals.len() / 2;
    let ghost want = folded_row(views(evals@), alpha@, views(table@));
    let mut out: Vec<Mersenne61Mont> = Vec::new();
    let mut i: usize = 0;
    while i < half
        invariant
            half == evals.len() / 2,
            evals.len() % 2 == 0,
            table.len() == evals.len(),
            inv_two@ == inv2(),
            want == folded_row(views(evals@), alpha@, views(table@)),
            i <= half,
            views(out@) == want.subrange(0, i as int),
        decreases half - i,
    {
        let t = table[2 * i];
        let inv_p = if t.iszero() {
            assert(finv(0) == 0) by {
                assert forall|x: int| 0 <= x < p() implies #[trigger] fmul(0, x) != 1 by {}
            }
            Mersenne61Mont::zero()
        } else {
            t.inverse()
        };
        let x = evals[2 * i];
        let y = evals[2 * i + 1];
        let a = x.add(y).mul(inv_two);
        let b = x.sub(y).mul(inv_two).mul(inv_p);
        let v = a.add(alpha.mul(b));
        let ghost before = views(out@);
        out.push(v);
        assert(views(out@) =~= before.push(v@));
        assert(views(out@) =~= want.subrange(0, i + 1));
        i = i + 1;
    }
    assert(views(out@) =~= want);
    out
}

} // verus!
