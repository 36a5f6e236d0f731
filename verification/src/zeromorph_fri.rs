//! The scalars of the Zeromorph reduction from a multilinear evaluation claim
//! to univariate quotient claims, in the plain and in the degree-checked form.
use crate::mersenne_61_mont::{
    fadd, finv, fmul, fneg, fpow, fsub, lemma_fmul_comm, lemma_fpow_double, lemma_view_range,
    Mersenne61Mont,
};
use crate::zeromorph_fri_v4::batch_invert;
use vstd::arithmetic::power2::{lemma2_to64, lemma_pow2_unfold, pow2};
use std::marker::PhantomData;
use vstd::prelude::*;

verus! {

broadcast use lemma_view_range;

/// The Zeromorph reduction of multilinear claims to a univariate scheme `Pcs`.
pub struct ZeromorphFri<Pcs>(PhantomData<Pcs>);

/// `x^(2^i)`.
pub open spec fn square_of_x(x: int, i: nat) -> int {
    fpow(x, pow2(i))
}

/// `(x^(2^n) - 1) / (x^(2^i) - 1)`, with the inverse read as zero when it
/// does not exist.
pub open spec fn v_scalar(x: int, n: nat, i: nat) -> int {
    fmul(fsub(square_of_x(x, n), 1), finv(fsub(square_of_x(x, i), 1)))
}

/// The scalar of the `i`-th quotient: `x^(2^i) v_{i+1} - u_i v_i`.
pub open spec fn q_scalar(x: int, u: Seq<int>, n: nat, i: nat) -> int {
    fsub(fmul(square_of_x(x, i), v_scalar(x, n, i + 1)), fmul(u[i as int], v_scalar(x, n, i)))
}

/// The product `x^(2^i) x^(2^(i+1)) ... x^(2^(n-1))`.
pub open spec fn offset_of_x(x: int, n: nat, i: nat) -> int
    decreases n - i,
{
    if i >= n {
        1
    } else {
        fmul(square_of_x(x, i), offset_of_x(x, n, i + 1))
    }
}

/// The degree-checked scalar of the `i`-th quotient.
pub open spec fn q_scalar_checked(y: int, x: int, z: int, u: Seq<int>, n: nat, i: nat) -> int {
    fneg(fadd(fmul(fpow(y, i), offset_of_x(x, n, i)), fmul(z, q_scalar(x, u, n, i))))
}

/// The squares `x, x^2, x^4, ..., x^(2^n)`.
fn squares_of(x: Mersenne61Mont, count: usize) -> (r: Vec<Mersenne61Mont>)
    ensures
        r.len() == count,
        forall|i: int| 0 <= i < count ==> #[trigger] r[i]@ == square_of_x(x@, i as nat),
{
    let mut out: Vec<Mersenne61Mont> = Vec::new();
    let mut cur = x;
    proof {
        lemma2_to64();
        assert(fpow(x@, 0) == 1);
        assert(fpow(x@, 1) == fmul(x@, 1));
        vstd::arithmetic::div_mod::lemma_small_mod(x@ as nat, crate::mersenne_61_mont::p() as nat);
    }
    for i in 0..count
        invariant
            out.len() == i,
            cur@ == square_of_x(x@, i as nat),
            forall|k: int| 0 <= k < i ==> #[trigger] out[k]@ == square_of_x(x@, k as nat),
    {
        out.push(cur);
        proof {
            lemma_fpow_double(x@, pow2(i as nat));
            lemma_pow2_unfold((i + 1) as nat);
        }
        cur = cur.square();
    }
    out
}

/// The values `v_0, ..., v_n` of the reduction.
fn v_scalars(x: Mersenne61Mont, num_vars: usize) -> (r: Vec<Mersenne61Mont>)
    requires
        num_vars < usize::MAX,
    ensures
        r.len() == num_vars + 1,
        forall|i: int| 0 <= i <= num_vars ==> #[trigger] r[i]@ == v_scalar(x@, num_vars as nat, i as nat),
{
    let squares = squares_of(x, num_vars + 1);
    let one = Mersenne61Mont::one();
    let v_numer = squares[num_vars].sub(one);
    let mut v_denoms: Vec<Mersenne61Mont> = Vec::new();
    for i in 0..num_vars + 1
        invariant
            squares.len() == num_vars + 1,
            one@ == 1,
            forall|k: int| 0 <= k <= num_vars ==> #[trigger] squares[k]@ == square_of_x(x@, k as nat),
            v_denoms.len() == i,
            forall|k: int| 0 <= k < i ==> #[trigger] v_denoms[k]@ == fsub(square_of_x(x@, k as nat), 1),
    {
        v_denoms.push(squares[i].sub(one));
    }
    batch_invert(&mut v_denoms);
    let mut vs: Vec<Mersenne61Mont> = Vec::new();
    for i in 0..num_vars + 1
        invariant
            v_denoms.len() == num_vars + 1,
            v_numer@ == fsub(square_of_x(x@, num_vars as nat), 1),
            forall|k: int|
                0 <= k <= num_vars ==> #[trigger] v_denoms[k]@ == finv(fsub(square_of_x(x@, k as nat), 1)),
            vs.len() == i,
            forall|k: int|
                0 <= k < i ==> #[trigger] vs[k]@ == v_scalar(x@, num_vars as nat, k as nat),
    {
        vs.push(v_numer.mul(v_denoms[i]));
    }
    vs
}

/// The evaluation scalar `v_0` and the quotient scalars of the reduction at
/// the challenge `x` for the point `u`.
pub fn eval_and_quotient_scalars(x: Mersenne61Mont, u: &Vec<Mersenne61Mont>) -> (r: (
    Mersenne61Mont,
    Vec<Mersenne61Mont>,
))
    requires
        u.len() < usize::MAX,
    ensures
        r.0@ == v_scalar(x@, u.len() as nat, 0),
        r.1.len() == u.len(),
        forall|i: int|
            0 <= i < u.len() ==> #[trigger] r.1[i]@ == q_scalar(
                x@,
                crate::mersenne_61_mont::views(u@),
                u.len() as nat,
                i as nat,
            ),
{
    let num_vars = u.len();
    let squares = squares_of(x, num_vars + 1);
    let vs = v_scalars(x, num_vars);
    let mut q_scalars: Vec<Mersenne61Mont> = Vec::new();
    for i in 0..num_vars
        invariant
            num_vars == u.len(),
            squares.len() == num_vars + 1,
            vs.len() == num_vars + 1,
            forall|k: int| 0 <= k <= num_vars ==> #[trigger] squares[k]@ == square_of_x(x@, k as nat),
            forall|k: int|
                0 <= k <= num_vars ==> #[trigger] vs[k]@ == v_scalar(x@, num_vars as nat, k as nat),
            q_scalars.len() == i,
            forall|k: int|
                0 <= k < i ==> #[trigger] q_scalars[k]@ == q_scalar(
                    x@,
                    crate::mersenne_61_mont::views(u@),
                    num_vars as nat,
                    k as nat,
                ),
    {
        q_scalars.push(squares[i].mul(vs[i + 1]).sub(u[i].mul(vs[i])));
    }
    (vs[0], q_scalars)
}

/// The degree-checked variant: the evaluation scalar `-v_0 z` and, for every
/// variable, `-(y^i x^(2^i + ... + 2^(n-1)) + z (x^(2^i) v_{i+1} - u_i v_i))`.
pub fn eval_and_quotient_scalars_degree_checked(
    y: Mersenne61Mont,
    x: Mersenne61Mont,
    z: Mersenne61Mont,
    u: &Vec<Mersenne61Mont>,
) -> (r: (Mersenne61Mont, Vec<Mersenne61Mont>))
    requires
        u.len() < usize::MAX,
    ensures
        r.0@ == fmul(fneg(v_scalar(x@, u.len() as nat, 0)), z@),
        r.1.len() == u.len(),
        forall|i: int|
            0 <= i < u.len() ==> #[trigger] r.1[i]@ == q_scalar_checked(
                y@,
                x@,
                z@,
                crate::mersenne_61_mont::views(u@),
                u.len() as nat,
                i as nat,
            ),
{
    let num_vars = u.len();
    let squares = squares_of(x, num_vars + 1);
    // offsets[i] = squares[i] * ... * squares[n - 1], filled from the end.
    let mut offsets: Vec<Mersenne61Mont> = Vec::new();
    for i in 0..num_vars
        invariant
            offsets.len() == i,
    {
        offsets.push(Mersenne61Mont::one());
    }
    let mut state = Mersenne61Mont::one();
    let mut t = num_vars;
    while t > 0
        invariant
            t <= num_vars,
            num_vars == u.len(),
            offsets.len() == num_vars,
            squares.len() == num_vars + 1,
            forall|k: int| 0 <= k <= num_vars ==> #[trigger] squares[k]@ == square_of_x(x@, k as nat),
            state@ == offset_of_x(x@, num_vars as nat, t as nat),
            forall|k: int|
                t <= k < num_vars ==> #[trigger] offsets[k]@ == offset_of_x(x@, num_vars as nat, k as nat),
        decreases t,
    {
        proof {
            lemma_fmul_comm(state@, squares[t - 1]@);
        }
        state = state.mul(squares[t - 1]);
        offsets.set(t - 1, state);
        t = t - 1;
    }
    let vs = v_scalars(x, num_vars);
    let mut power_of_y = Mersenne61Mont::one();
    let mut q_scalars: Vec<Mersenne61Mont> = Vec::new();
    for i in 0..num_vars
        invariant
            num_vars == u.len(),
            squares.len() == num_vars + 1,
            vs.len() == num_vars + 1,
            offsets.len() == num_vars,
            power_of_y@ == fpow(y@, i as nat),
            forall|k: int| 0 <= k <= num_vars ==> #[trigger] squares[k]@ == square_of_x(x@, k as nat),
            forall|k: int|
                0 <= k <= num_vars ==> #[trigger] vs[k]@ == v_scalar(x@, num_vars as nat, k as nat),
            forall|k: int|
                0 <= k < num_vars ==> #[trigger] offsets[k]@ == offset_of_x(x@, num_vars as nat, k as nat),
            q_scalars.len() == i,
            forall|k: int|
                0 <= k < i ==> #[trigger] q_scalars[k]@ == q_scalar_checked(
                    y@,
                    x@,
                    z@,
                    crate::mersenne_61_mont::views(u@),
                    num_vars as nat,
                    k as nat,
                ),
    {
        let inner = squares[i].mul(vs[i + 1]).sub(u[i].mul(vs[i]));
        let q = power_of_y.mul(offsets[i]).add(z.mul(inner)).neg();
        q_scalars.push(q);
        proof {
            lemma_fmul_comm(power_of_y@, y@);
        }
        power_of_y = power_of_y.mul(y);
    }
    (vs[0].neg().mul(z), q_scalars)
}


/// The value the folded polynomial must take at `x`, over the first `k`
/// quotients: `eval_scalar eval + sum_i s_i q_i(x)`.
pub open spec fn claim_at_x(eval_scalar: int, eval: int, q_evals: Seq<int>, scalars: Seq<int>, k: nat) -> int
    decreases k,
{
    if k == 0 {
        fmul(eval_scalar, eval)
    } else {
        fadd(claim_at_x(eval_scalar, eval, q_evals, scalars, (k - 1) as nat), fmul(scalars[k - 1], q_evals[k - 1]))
    }
}

/// The value the folded polynomial must take at `x`, from the claimed
/// evaluation and the quotients' values at `x`, over as many quotients as
/// there are scalars.
pub fn eval_at_x(
    eval_scalar: Mersenne61Mont,
    eval: Mersenne61Mont,
    q_evals: &Vec<Mersenne61Mont>,
    q_scalars: &Vec<Mersenne61Mont>,
) -> (r: Mersenne61Mont)
    ensures
        r@ == claim_at_x(
            eval_scalar@,
            eval@,
            crate::mersenne_61_mont::views(q_evals@),
            crate::mersenne_61_mont::views(q_scalars@),
            (if q_evals.len() <= q_scalars.len() {
                q_evals.len()
            } else {
                q_scalars.len()
            }) as nat,
        ),
{
    let ghost qe = crate::mersenne_61_mont::views(q_evals@);
    let ghost qs = crate::mersenne_61_mont::views(q_scalars@);
    let k = if q_evals.len() <= q_scalars.len() {
        q_evals.len()
    } else {
        q_scalars.len()
    };
    let mut acc = eval_scalar.mul(eval);
    let mut i: usize = 0;
    while i < k
        invariant
            k <= q_evals.len(),
            k <= q_scalars.len(),
            qe == crate::mersenne_61_mont::views(q_evals@),
            qs == crate::mersenne_61_mont::views(q_scalars@),
            i <= k,
            acc@ == claim_at_x(eval_scalar@, eval@, qe, qs, i as nat),
        decreases k - i,
    {
        assert(qe[i as int] == q_evals@[i as int]@ && qs[i as int] == q_scalars@[i as int]@);
        acc = acc.add(q_scalars[i].mul(q_evals[i]));
        i = i + 1;
    }
    acc
}

} // verus!
