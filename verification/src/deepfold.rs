//! Deepfold evaluation claims. A multilinear polynomial is given by its values
//! on the Boolean hypercube; a claim holds its value at a point and, round by
//! round, its value at the point moved by one in the next variable. The
//! verifier folds those values with its challenges into a single value.
use crate::mersenne_61_mont::{fadd, fmul, fsub, lemma_view_range, views, Mersenne61Mont};
use crate::interpolation::{QueryResult, ELEMENT_BYTES};
use crate::mersenne_61_mont::p;
use vstd::arithmetic::div_mod::{lemma_add_mod_noop, lemma_mul_mod_noop, lemma_small_mod, lemma_sub_mod_noop};
use vstd::arithmetic::power2::{lemma_pow2_pos, lemma_pow2_unfold, pow2};
use vstd::prelude::*;

verus! {

broadcast use lemma_view_range;

/// The first variable fixed to `v`: entry `i` of the lower half becomes
/// `h[i] * (1 - v) + h[i + half] * v`.
pub open spec fn fix_first(h: Seq<int>, v: int) -> Seq<int> {
    let half = h.len() / 2;
    Seq::new(half, |i: int| fadd(fmul(h[i], fsub(1, v)), fmul(h[i + half], v)))
}

/// The multilinear extension of the hypercube values `h` at `point`; the first
/// coordinate of the point belongs to the top bit of the index.
pub open spec fn ml_eval(point: Seq<int>, h: Seq<int>) -> int
    decreases point.len(),
{
    if point.len() == 0 {
        h[0]
    } else {
        ml_eval(point.drop_first(), fix_first(h, point[0]))
    }
}

/// The point with its first coordinate moved by one.
pub open spec fn shift_first(point: Seq<int>) -> Seq<int> {
    point.update(0, fadd(point[0], 1))
}

/// The running value of the verifier's fold after `k` rounds: each round draws
/// the line through `(x, y)` and `(x + 1, y1)` and moves to the challenge.
pub open spec fn deep_fold(y0: int, xs: Seq<int>, ys: Seq<int>, cs: Seq<int>, k: nat) -> int
    decreases k,
{
    if k == 0 {
        y0
    } else {
        let y = deep_fold(y0, xs, ys, cs, (k - 1) as nat);
        fadd(y, fmul(fsub(ys[k - 1], y), fsub(cs[k - 1], xs[k - 1])))
    }
}

/// One variable fixed to `c` in place: the first `m` entries become
/// `h[i] * (1 - c) + h[i + m] * c` and the vector is cut to `m` entries.
pub fn sumcheck_next_domain(hypercube_interpolation: &mut Vec<Mersenne61Mont>, m: usize, challenge: Mersenne61Mont)
    requires
        2 * m <= old(hypercube_interpolation).len(),
    ensures
        2 * m == old(hypercube_interpolation).len() ==> views(final(hypercube_interpolation)@)
            == fix_first(views(old(hypercube_interpolation)@), challenge@),
        views(final(hypercube_interpolation)@) == Seq::new(
            m as nat,
            |i: int|
                fadd(
                    fmul(views(old(hypercube_interpolation)@)[i], fsub(1, challenge@)),
                    fmul(views(old(hypercube_interpolation)@)[i + m], challenge@),
                ),
        ),
{
    let ghost h0 = views(hypercube_interpolation@);
    let len = hypercube_interpolation.len();
    let mut i: usize = 0;
    while i < m
        invariant
            2 * m <= len,
            len == hypercube_interpolation.len(),
            h0.len() == len,
            i <= m,
            forall|k: int|
                0 <= k < len ==> #[trigger] hypercube_interpolation@[k]@ == (if k < i {
                    fadd(fmul(h0[k], fsub(1, challenge@)), fmul(h0[k + m], challenge@))
                } else {
                    h0[k]
                }),
        decreases m - i,
    {
        let a = hypercube_interpolation[i].mul(Mersenne61Mont::from_int(1).sub(challenge));
        let tmp = hypercube_interpolation[i + m].mul(challenge);
        hypercube_interpolation.set(i, a.add(tmp));
        i = i + 1;
    }
    hypercube_interpolation.truncate(m);
    assert(views(hypercube_interpolation@) =~= Seq::new(
        m as nat,
        |i: int| fadd(fmul(h0[i], fsub(1, challenge@)), fmul(h0[i + m], challenge@)),
    ));
}

// ---------------------------------------------------------------------------
// Laws of evaluation claims
// ---------------------------------------------------------------------------

/// Every entry is a canonical field element.
pub open spec fn canon(s: Seq<int>) -> bool {
    forall|i: int| 0 <= i < s.len() ==> 0 <= #[trigger] s[i] < p()
}

/// The hypercube values with the first `k` variables fixed to the challenges.
pub open spec fn fold_prefix(h: Seq<int>, cs: Seq<int>, k: nat) -> Seq<int>
    decreases k,
{
    if k == 0 {
        h
    } else {
        fix_first(fold_prefix(h, cs, (k - 1) as nat), cs[k - 1])
    }
}

/// Fixing variables uses only the challenges it fixes them to.
pub proof fn lemma_fold_prefix_same(h: Seq<int>, cs1: Seq<int>, cs2: Seq<int>, k: nat)
    requires
        forall|i: int| 0 <= i < k ==> #[trigger] cs1[i] == cs2[i],
    ensures
        fold_prefix(h, cs1, k) == fold_prefix(h, cs2, k),
    decreases k,
{
    if k > 0 {
        lemma_fold_prefix_same(h, cs1, cs2, (k - 1) as nat);
        assert(cs1[k - 1] == cs2[k - 1]);
    }
}

/// Fixing `t` variables and then `k` more is fixing `t + k` variables.
pub proof fn lemma_fold_prefix_compose(h: Seq<int>, cs: Seq<int>, t: nat, k: nat)
    requires
        t + k <= cs.len(),
    ensures
        fold_prefix(fold_prefix(h, cs, t), cs.subrange(t as int, cs.len() as int), k) == fold_prefix(
            h,
            cs,
            t + k,
        ),
    decreases k,
{
    if k > 0 {
        lemma_fold_prefix_compose(h, cs, t, (k - 1) as nat);
        assert(cs.subrange(t as int, cs.len() as int)[k - 1] == cs[t + k - 1]);
    }
}

/// The index of a Boolean point on the hypercube; the first coordinate is the top bit.
pub open spec fn hypercube_index(point: Seq<int>) -> int
    decreases point.len(),
{
    if point.len() == 0 {
        0
    } else {
        point[0] * pow2((point.len() - 1) as nat) + hypercube_index(point.drop_first())
    }
}

/// The pointwise line `A + t * (B - A)` between two value vectors.
spec fn lin(a: Seq<int>, b: Seq<int>, t: int) -> Seq<int> {
    Seq::new(a.len(), |i: int| fadd(a[i], fmul(t, fsub(b[i], a[i]))))
}

/// Field addition of reduced values is the reduced sum.
proof fn lemma_cadd(x: int, y: int)
    ensures
        fadd(x % p(), y % p()) == (x + y) % p(),
{
    lemma_add_mod_noop(x, y, p());
}

/// Field subtraction of reduced values is the reduced difference.
proof fn lemma_csub(x: int, y: int)
    ensures
        fsub(x % p(), y % p()) == (x - y) % p(),
{
    lemma_sub_mod_noop(x, y, p());
}

/// Field multiplication of reduced values is the reduced product.
proof fn lemma_cmul(x: int, y: int)
    ensures
        fmul(x % p(), y % p()) == (x * y) % p(),
{
    lemma_mul_mod_noop(x, y, p());
}

/// A canonical value is its own reduction.
proof fn lemma_canon(x: int)
    requires
        0 <= x < p(),
    ensures
        x % p() == x,
{
    lemma_small_mod(x as nat, p() as nat);
}

/// Fixing a variable draws the line between the two halves.
proof fn lemma_fix_entry(x: int, y: int, r: int)
    requires
        0 <= x < p(),
        0 <= y < p(),
        0 <= r < p(),
    ensures
        fadd(fmul(x, fsub(1, r)), fmul(y, r)) == fadd(x, fmul(r, fsub(y, x))),
{
    lemma_canon(x);
    lemma_canon(y);
    lemma_canon(r);
    lemma_canon(1);
    lemma_csub(1, r);
    lemma_cmul(x, 1 - r);
    lemma_cmul(y, r);
    lemma_cadd(x * (1 - r), y * r);
    lemma_csub(y, x);
    lemma_cmul(r, y - x);
    lemma_cadd(x, r * (y - x));
    assert(x * (1 - r) + y * r == x + r * (y - x)) by (nonlinear_arith);
}

/// Fixing the first variable is the line between the two halves.
proof fn lemma_fix_first_is_lin(f: Seq<int>, t: int)
    requires
        canon(f),
        f.len() % 2 == 0,
        0 <= t < p(),
    ensures
        fix_first(f, t) == lin(
            f.subrange(0, (f.len() / 2) as int),
            f.subrange((f.len() / 2) as int, f.len() as int),
            t,
        ),
{
    let half = (f.len() / 2) as int;
    assert forall|i: int| 0 <= i < half implies fix_first(f, t)[i] == lin(
        f.subrange(0, half),
        f.subrange(half, f.len() as int),
        t,
    )[i] by {
        lemma_fix_entry(f[i], f[i + half], t);
    }
    assert(fix_first(f, t) =~= lin(f.subrange(0, half), f.subrange(half, f.len() as int), t));
}

/// Fixing a variable commutes with drawing a line between two vectors.
proof fn lemma_fix_lin_commute(a: Seq<int>, b: Seq<int>, t: int, r: int)
    requires
        canon(a),
        canon(b),
        a.len() == b.len(),
        a.len() % 2 == 0,
        0 <= t < p(),
        0 <= r < p(),
    ensures
        fix_first(lin(a, b, t), r) == lin(fix_first(a, r), fix_first(b, r), t),
{
    let half = a.len() / 2;
    assert forall|i: int| 0 <= i < half implies #[trigger] fix_first(lin(a, b, t), r)[i] == lin(
        fix_first(a, r),
        fix_first(b, r),
        t,
    )[i] by {
        let a0 = a[i];
        let a1 = a[i + half];
        let b0 = b[i];
        let b1 = b[i + half];
        lemma_canon(a0);
        lemma_canon(a1);
        lemma_canon(b0);
        lemma_canon(b1);
        lemma_canon(t);
        lemma_canon(r);
        lemma_canon(1);
        // the line values, reduced
        lemma_csub(b0, a0);
        lemma_cmul(t, b0 - a0);
        lemma_cadd(a0, t * (b0 - a0));
        lemma_csub(b1, a1);
        lemma_cmul(t, b1 - a1);
        lemma_cadd(a1, t * (b1 - a1));
        let e0 = a0 + t * (b0 - a0);
        let e1 = a1 + t * (b1 - a1);
        lemma_csub(1, r);
        lemma_cmul(e0, 1 - r);
        lemma_cmul(e1, r);
        lemma_cadd(e0 * (1 - r), e1 * r);
        // the fixed vectors, reduced
        lemma_cmul(a0, 1 - r);
        lemma_cmul(a1, r);
        lemma_cadd(a0 * (1 - r), a1 * r);
        lemma_cmul(b0, 1 - r);
        lemma_cmul(b1, r);
        lemma_cadd(b0 * (1 - r), b1 * r);
        let g = a0 * (1 - r) + a1 * r;
        let k = b0 * (1 - r) + b1 * r;
        lemma_csub(k, g);
        lemma_cmul(t, k - g);
        lemma_cadd(g, t * (k - g));
        assert(e0 * (1 - r) + e1 * r == g + t * (k - g)) by (nonlinear_arith)
            requires
                e0 == a0 + t * (b0 - a0),
                e1 == a1 + t * (b1 - a1),
                g == a0 * (1 - r) + a1 * r,
                k == b0 * (1 - r) + b1 * r,
        ;
    }
    assert(fix_first(lin(a, b, t), r) =~= lin(fix_first(a, r), fix_first(b, r), t));
}

/// Fixing the first variable gives canonical values.
proof fn lemma_fix_first_canon(f: Seq<int>, t: int)
    ensures
        canon(fix_first(f, t)),
{
}

/// The value of a multilinear extension is a canonical field element.
proof fn lemma_ml_eval_canon(point: Seq<int>, h: Seq<int>)
    requires
        canon(h),
        h.len() == pow2(point.len()),
    ensures
        0 <= ml_eval(point, h) < p(),
    decreases point.len(),
{
    lemma_pow2_pos(point.len());
    if point.len() > 0 {
        lemma_pow2_unfold(point.len());
        lemma_ml_eval_canon(point.drop_first(), fix_first(h, point[0]));
    }
}

/// The multilinear extension is linear in the hypercube values.
proof fn lemma_ml_eval_lin(point: Seq<int>, a: Seq<int>, b: Seq<int>, t: int)
    requires
        canon(a),
        canon(b),
        canon(point),
        a.len() == pow2(point.len()),
        b.len() == a.len(),
        0 <= t < p(),
    ensures
        ml_eval(point, lin(a, b, t)) == fadd(
            ml_eval(point, a),
            fmul(t, fsub(ml_eval(point, b), ml_eval(point, a))),
        ),
    decreases point.len(),
{
    lemma_pow2_pos(point.len());
    if point.len() > 0 {
        lemma_pow2_unfold(point.len());
        let r = point[0];
        lemma_fix_lin_commute(a, b, t, r);
        lemma_ml_eval_lin(point.drop_first(), fix_first(a, r), fix_first(b, r), t);
    }
}

/// The claims that the shifted values are honest.
pub open spec fn honest_else(h: Seq<int>, z: Seq<int>, ys: Seq<int>, cs: Seq<int>) -> bool {
    forall|k: int|
        0 <= k < z.len() ==> #[trigger] ys[k] == ml_eval(
            shift_first(z.subrange(k, z.len() as int)),
            fold_prefix(h, cs, k as nat),
        )
}

/// Fixing `k` of the `n` variables of canonical hypercube values leaves
/// `2^(n - k)` canonical values.
pub proof fn lemma_fold_prefix_shape(h: Seq<int>, cs: Seq<int>, n: nat, k: nat)
    requires
        canon(h),
        h.len() == pow2(n),
        k <= n,
    ensures
        canon(fold_prefix(h, cs, k)),
        fold_prefix(h, cs, k).len() == pow2((n - k) as nat),
    decreases k,
{
    if k > 0 {
        lemma_fold_prefix_shape(h, cs, n, (k - 1) as nat);
        lemma_pow2_unfold((n - k + 1) as nat);
        lemma_fix_first_canon(fold_prefix(h, cs, (k - 1) as nat), cs[k - 1]);
    }
}

/// Folding the first `k` challenges and evaluating at the rest is evaluating
/// at all of them.
pub proof fn lemma_fold_prefix_eval(h: Seq<int>, cs: Seq<int>, k: nat)
    requires
        k <= cs.len(),
    ensures
        ml_eval(cs.subrange(k as int, cs.len() as int), fold_prefix(h, cs, k)) == ml_eval(cs, h),
    decreases k,
{
    let n = cs.len() as int;
    if k == 0 {
        assert(cs.subrange(0, n) =~= cs);
    } else {
        lemma_fold_prefix_eval(h, cs, (k - 1) as nat);
        let sub = cs.subrange(k - 1, n);
        assert(sub[0] == cs[k - 1]);
        assert(sub.drop_first() =~= cs.subrange(k as int, n));
    }
}

/// After `k` rounds the verifier's fold is the evaluation of the hypercube
/// folded by the first `k` challenges at the rest of the point.
proof fn lemma_deep_fold_prefix(h: Seq<int>, z: Seq<int>, ys: Seq<int>, cs: Seq<int>, k: nat)
    requires
        h.len() == pow2(z.len()),
        canon(h),
        canon(z),
        canon(cs),
        cs.len() == z.len(),
        ys.len() == z.len(),
        honest_else(h, z, ys, cs),
        k <= z.len(),
    ensures
        deep_fold(ml_eval(z, h), z, ys, cs, k) == ml_eval(
            z.subrange(k as int, z.len() as int),
            fold_prefix(h, cs, k),
        ),
    decreases k,
{
    let n = z.len();
    if k == 0 {
        assert(z.subrange(0, n as int) =~= z);
    } else {
        let j = (k - 1) as nat;
        lemma_deep_fold_prefix(h, z, ys, cs, j);
        lemma_fold_prefix_shape(h, cs, n, j);
        let f = fold_prefix(h, cs, j);
        let m = (n - j) as nat;
        lemma_pow2_unfold(m);
        lemma_pow2_pos((m - 1) as nat);
        let half = (f.len() / 2) as int;
        let lo = f.subrange(0, half);
        let hi = f.subrange(half, f.len() as int);
        let sub = z.subrange(j as int, n as int);
        let rest = z.subrange(k as int, n as int);
        assert(sub.drop_first() =~= rest);
        assert(shift_first(sub).drop_first() =~= rest);
        let zk = z[j as int];
        let ck = cs[j as int];
        let y = deep_fold(ml_eval(z, h), z, ys, cs, j);
        lemma_fix_first_is_lin(f, zk);
        lemma_canon(zk);
        lemma_canon(1);
        lemma_cadd(zk, 1);
        let z1 = fadd(zk, 1);
        lemma_fix_first_is_lin(f, z1);
        lemma_fix_first_is_lin(f, ck);
        lemma_ml_eval_lin(rest, lo, hi, zk);
        lemma_ml_eval_lin(rest, lo, hi, z1);
        lemma_ml_eval_lin(rest, lo, hi, ck);
        let a = ml_eval(rest, lo);
        let b = ml_eval(rest, hi);
        lemma_ml_eval_canon(rest, lo);
        lemma_ml_eval_canon(rest, hi);
        assert(y == fadd(a, fmul(zk, fsub(b, a))));
        assert(ys[j as int] == fadd(a, fmul(z1, fsub(b, a))));
        lemma_canon(a);
        lemma_canon(b);
        lemma_canon(ck);
        lemma_csub(b, a);
        lemma_cmul(zk, b - a);
        lemma_cadd(a, zk * (b - a));
        lemma_cmul(zk + 1, b - a);
        lemma_cadd(a, (zk + 1) * (b - a));
        let yy = a + zk * (b - a);
        let yy1 = a + (zk + 1) * (b - a);
        lemma_csub(yy1, yy);
        lemma_csub(ck, zk);
        lemma_cmul(yy1 - yy, ck - zk);
        lemma_cadd(yy, (yy1 - yy) * (ck - zk));
        lemma_cmul(ck, b - a);
        lemma_cadd(a, ck * (b - a));
        assert(yy + (yy1 - yy) * (ck - zk) == a + ck * (b - a)) by (nonlinear_arith)
            requires
                yy == a + zk * (b - a),
                yy1 == a + (zk + 1) * (b - a),
        ;
        assert(fold_prefix(h, cs, k) == fix_first(f, ck));
    }
}

/// Completeness of Deepfold claims: when each shifted value is the value of
/// the hypercube folded by the earlier challenges, taken at the rest of the
/// point moved by one in its first coordinate, the verifier's fold of the
/// claim is the polynomial's value at the challenges.
pub proof fn lemma_deep_fold_complete(h: Seq<int>, z: Seq<int>, ys: Seq<int>, cs: Seq<int>)
    requires
        h.len() == pow2(z.len()),
        canon(h),
        canon(z),
        canon(cs),
        cs.len() == z.len(),
        ys.len() == z.len(),
        honest_else(h, z, ys, cs),
    ensures
        deep_fold(ml_eval(z, h), z, ys, cs, z.len()) == ml_eval(cs, h),
{
    let n = z.len();
    lemma_deep_fold_prefix(h, z, ys, cs, n);
    lemma_fold_prefix_eval(h, cs, n);
    assert(z.subrange(n as int, n as int).len() == 0);
    assert(cs.subrange(n as int, n as int).len() == 0);
}

/// At a Boolean point, the multilinear extension is the hypercube entry at
/// the point's index.
pub proof fn lemma_ml_eval_boolean(point: Seq<int>, h: Seq<int>)
    requires
        canon(h),
        h.len() == pow2(point.len()),
        forall|i: int| 0 <= i < point.len() ==> #[trigger] point[i] == 0 || point[i] == 1,
    ensures
        0 <= hypercube_index(point) < h.len(),
        ml_eval(point, h) == h[hypercube_index(point)],
    decreases point.len(),
{
    lemma_pow2_pos(point.len());
    if point.len() > 0 {
        let n = point.len();
        lemma_pow2_unfold(n);
        let half = h.len() / 2;
        let b = point[0];
        let rest = point.drop_first();
        let f = fix_first(h, b);
        lemma_canon(0);
        lemma_canon(1);
        assert forall|i: int| 0 <= i < half implies #[trigger] f[i] == h[b * half + i] by {
            lemma_canon(h[i]);
            lemma_canon(h[i + half]);
            if b == 0 {
                assert(fsub(1, b) == 1);
                assert(h[i] * 1 == h[i]);
                assert(h[i + half] * 0 == 0);
            } else {
                assert(fsub(1, b) == 0);
                assert(h[i] * 0 == 0);
                assert(h[i + half] * 1 == h[i + half]);
            }
        }
        assert(canon(f));
        lemma_ml_eval_boolean(rest, f);
        let j = hypercube_index(rest);
        assert(f[j] == h[b * half + j]);
        assert(hypercube_index(point) == b * half + j);
    }
}

/// A Deepfold evaluation claim: the point, the value there, and the values at
/// the point moved by one in each variable handled so far.
#[derive(Clone)]
pub struct DeepEval {
    point: Vec<Mersenne61Mont>,
    pub first_eval: Mersenne61Mont,
    pub else_evals: Vec<Mersenne61Mont>,
}

impl DeepEval {
    /// The coordinates of the claim's point.
    pub closed spec fn point_view(&self) -> Seq<int> {
        views(self.point@)
    }

    /// The claimed value at the point.
    pub closed spec fn first_view(&self) -> int {
        self.first_eval@
    }

    /// The claimed values at the shifted points, in order.
    pub closed spec fn else_view(&self) -> Seq<int> {
        views(self.else_evals@)
    }

    /// A claim made of its parts: the point, the value there, and the values
    /// at the shifted points.
    pub fn from_parts(point: Vec<Mersenne61Mont>, first_eval: Mersenne61Mont, else_evals: Vec<Mersenne61Mont>) -> (r: Self)
        ensures
            r.point_view() == views(point@),
            r.first_view() == first_eval@,
            r.else_view() == views(else_evals@),
    {
        DeepEval { point, first_eval, else_evals }
    }

    /// The claimed value at the point.
    pub fn first_value(&self) -> (r: Mersenne61Mont)
        ensures
            r@ == self.first_view(),
    {
        self.first_eval
    }

    /// The claimed values at the shifted points.
    pub fn else_values(&self) -> (r: &Vec<Mersenne61Mont>)
        ensures
            views(r@) == self.else_view(),
    {
        &self.else_evals
    }

    /// The number of coordinates of the point.
    pub fn point_len(&self) -> (r: usize)
        ensures
            r == self.point_view().len(),
    {
        self.point.len()
    }

    /// The claim at `point` about the polynomial with hypercube values
    /// `poly_hypercube`, with no shifted values yet.
    pub fn new(point: Vec<Mersenne61Mont>, poly_hypercube: Vec<Mersenne61Mont>) -> (r: Self)
        requires
            poly_hypercube.len() == pow2(point.len() as nat),
        ensures
            r.point_view() == views(point@),
            r.first_view() == ml_eval(views(point@), views(poly_hypercube@)),
            r.else_view().len() == 0,
    {
        DeepEval {
            point: point.clone(),
            first_eval: Self::evaluation_at(point, poly_hypercube),
            else_evals: Vec::new(),
        }
    }

    /// The multilinear extension of the hypercube values at `point`, folding
    /// one variable after the other in place.
    fn evaluation_at(point: Vec<Mersenne61Mont>, poly_hypercube: Vec<Mersenne61Mont>) -> (r:
        Mersenne61Mont)
        requires
            poly_hypercube.len() == pow2(point.len() as nat),
        ensures
            r@ == ml_eval(views(point@), views(poly_hypercube@)),
    {
        let ghost pts = views(point@);
        let ghost h0 = views(poly_hypercube@);
        let n = point.len();
        let mut h = poly_hypercube;
        let mut len = h.len();
        proof {
            assert(pts.subrange(0, n as int) =~= pts);
            assert(views(h@).subrange(0, len as int) =~= h0);
        }
        let mut r: usize = 0;
        while r < n
            invariant
                n == point.len(),
                pts == views(point@),
                r <= n,
                h@.len() == h0.len(),
                len == pow2((n - r) as nat),
                len <= h@.len(),
                ml_eval(pts.subrange(r as int, n as int), views(h@).subrange(0, len as int)) == ml_eval(
                    pts,
                    h0,
                ),
            decreases n - r,
        {
            let v = point[r];
            let ghost cur = views(h@).subrange(0, len as int);
            proof {
                lemma_pow2_unfold((n - r) as nat);
            }
            let half = len / 2;
            let mut i: usize = 0;
            while i < half
                invariant
                    half * 2 == len,
                    len <= h@.len(),
                    h@.len() == h0.len(),
                    cur.len() == len,
                    i <= half,
                    forall|k: int|
                        0 <= k < len ==> #[trigger] h@[k]@ == (if k < i {
                            fix_first(cur, v@)[k]
                        } else {
                            cur[k]
                        }),
                decreases half - i,
            {
                let a = h[i].mul(Mersenne61Mont::from_int(1).sub(v));
                let tmp = h[i + half].mul(v);
                h.set(i, a.add(tmp));
                i = i + 1;
            }
            proof {
                assert(views(h@).subrange(0, half as int) =~= fix_first(cur, v@));
                let rest = pts.subrange(r as int, n as int);
                assert(rest[0] == v@);
                assert(rest.drop_first() =~= pts.subrange(r + 1, n as int));
            }
            len = half;
            r = r + 1;
        }
        proof {
            assert(pts.subrange(n as int, n as int).len() == 0);
            lemma_pow2_pos(0);
            assert(pow2(0) == 1) by {
                vstd::arithmetic::power2::lemma2_to64();
            }
        }
        h[0]
    }

    /// Records the value at the point moved by one in the next variable, for
    /// the polynomial whose hypercube values over the remaining variables are
    /// `poly_hypercube`.
    pub fn append_else_eval(&mut self, poly_hypercube: Vec<Mersenne61Mont>)
        requires
            old(self).else_view().len() < old(self).point_view().len(),
            poly_hypercube.len() == pow2(
                (old(self).point_view().len() - old(self).else_view().len()) as nat,
            ),
        ensures
            final(self).point_view() == old(self).point_view(),
            final(self).first_view() == old(self).first_view(),
            final(self).else_view() == old(self).else_view().push(
                ml_eval(
                    shift_first(
                        old(self).point_view().subrange(
                            old(self).else_view().len() as int,
                            old(self).point_view().len() as int,
                        ),
                    ),
                    views(poly_hypercube@),
                ),
            ),
    {
        let start = self.else_evals.len();
        let ghost pv = views(self.point@);
        let mut point: Vec<Mersenne61Mont> = Vec::new();
        let mut k = start;
        while k < self.point.len()
            invariant
                start <= k <= self.point.len(),
                pv == views(self.point@),
                views(point@) == pv.subrange(start as int, k as int),
            decreases self.point.len() - k,
        {
            let ghost before = views(point@);
            let x = self.point[k];
            point.push(x);
            assert(views(point@) =~= before.push(x@));
            assert(views(point@) =~= pv.subrange(start as int, k + 1));
            k = k + 1;
        }
        let first = point[0].add(Mersenne61Mont::from_int(1));
        point.set(0, first);
        let ghost sub = pv.subrange(start as int, pv.len() as int);
        assert(views(point@) =~= shift_first(sub));
        let e = Self::evaluation_at(point, poly_hypercube);
        let ghost old_else = views(self.else_evals@);
        self.else_evals.push(e);
        assert(views(self.else_evals@) =~= old_else.push(e@));
    }

    /// Folds the claim with the last `point.len()` challenges: starting from
    /// the value at the point, each round moves along the line through the
    /// value at the point and the value at the point moved by one.
    pub fn verify(&self, challenges: &Vec<Mersenne61Mont>) -> (r: Mersenne61Mont)
        requires
            challenges.len() >= self.point_view().len(),
            self.point_view().len() == self.else_view().len(),
        ensures
            r@ == deep_fold(
                self.first_view(),
                self.point_view(),
                self.else_view(),
                views(challenges@).subrange(
                    challenges.len() - self.point_view().len(),
                    challenges.len() as int,
                ),
                self.point_view().len(),
            ),
    {
        let n = self.point.len();
        let off = challenges.len() - n;
        let ghost xs = views(self.point@);
        let ghost ys = views(self.else_evals@);
        let ghost cs = views(challenges@).subrange(off as int, challenges.len() as int);
        let mut y_0 = self.first_eval;
        let mut k: usize = 0;
        while k < n
            invariant
                n == self.point.len(),
                n == self.else_evals.len(),
                off + n == challenges.len(),
                xs == views(self.point@),
                ys == views(self.else_evals@),
                cs == views(challenges@).subrange(off as int, challenges.len() as int),
                k <= n,
                y_0@ == deep_fold(self.first_eval@, xs, ys, cs, k as nat),
            decreases n - k,
        {
            let x = self.point[k];
            let y_1 = self.else_evals[k];
            let c = challenges[off + k];
            assert(cs[k as int] == c@);
            y_0 = y_0.add(y_1.sub(y_0).mul(c.sub(x)));
            k = k + 1;
        }
        y_0
    }
}

/// The Deepfold commitment: the Merkle root of the first codeword and the
/// first deep evaluation.
#[derive(Clone, Debug)]
pub struct Commit {
    pub merkle_root: [u8; 32],
    pub deep: Mersenne61Mont,
}

/// The total size of a list of query results.
pub open spec fn query_sizes(s: Seq<QueryResult>) -> int
    decreases s.len(),
{
    if s.len() == 0 {
        0
    } else {
        query_sizes(s.drop_last()) + s.last().size_spec()
    }
}

/// The total number of shifted values in a list of deep evaluations.
pub open spec fn deep_lens(s: Seq<(Mersenne61Mont, Vec<Mersenne61Mont>)>) -> int
    decreases s.len(),
{
    if s.len() == 0 {
        0
    } else {
        deep_lens(s.drop_last()) + s.last().1@.len()
    }
}

/// The sizes of a prefix of query results add up to at most the total.
proof fn lemma_query_sizes_mono(s: Seq<QueryResult>, k: int)
    requires
        0 <= k <= s.len(),
    ensures
        0 <= query_sizes(s.subrange(0, k)) <= query_sizes(s),
    decreases s.len(),
{
    if s.len() > 0 {
        if k == s.len() {
            assert(s.subrange(0, k) =~= s);
            lemma_query_sizes_mono(s.drop_last(), k - 1);
            assert(s.drop_last().subrange(0, k - 1) =~= s.drop_last());
        } else {
            lemma_query_sizes_mono(s.drop_last(), k);
            assert(s.drop_last().subrange(0, k) =~= s.subrange(0, k));
        }
    }
}

/// The lengths of a prefix of deep evaluations add up to at most the total.
proof fn lemma_deep_lens_mono(s: Seq<(Mersenne61Mont, Vec<Mersenne61Mont>)>, k: int)
    requires
        0 <= k <= s.len(),
    ensures
        0 <= deep_lens(s.subrange(0, k)) <= deep_lens(s),
    decreases s.len(),
{
    if s.len() > 0 {
        if k == s.len() {
            assert(s.subrange(0, k) =~= s);
            lemma_deep_lens_mono(s.drop_last(), k - 1);
            assert(s.drop_last().subrange(0, k - 1) =~= s.drop_last());
        } else {
            lemma_deep_lens_mono(s.drop_last(), k);
            assert(s.drop_last().subrange(0, k) =~= s.subrange(0, k));
        }
    }
}

/// A Deepfold proof: the Merkle roots of the folded codewords, the query
/// results, the deep evaluations, the shifted evaluations at the opening
/// point, the claimed evaluation, the final value and the final polynomial.
#[derive(Clone, Debug)]
pub struct Proof {
    pub merkle_root: Vec<[u8; 32]>,
    pub query_result: Vec<QueryResult>,
    pub deep_evals: Vec<(Mersenne61Mont, Vec<Mersenne61Mont>)>,
    pub shuffle_evals: Vec<Mersenne61Mont>,
    pub evaluation: Mersenne61Mont,
    pub final_value: Mersenne61Mont,
    pub final_poly: Vec<Mersenne61Mont>,
}

impl Proof {
    /// The size in bytes: the roots, the query results, and the field elements
    /// of the deep and shifted evaluations plus the evaluation and the final value.
    pub open spec fn size_spec(&self) -> int {
        self.merkle_root@.len() * 32 + query_sizes(self.query_result@) + (deep_lens(self.deep_evals@)
            + self.shuffle_evals@.len() + 2) * ELEMENT_BYTES
    }

    /// The size of the proof in bytes.
    pub fn size(&self) -> (r: usize)
        requires
            self.size_spec() <= usize::MAX,
        ensures
            r == self.size_spec(),
    {
        let ghost qs = self.query_result@;
        let ghost ds = self.deep_evals@;
        proof {
            lemma_query_sizes_mono(qs, qs.len() as int);
            lemma_deep_lens_mono(ds, ds.len() as int);
            assert(qs.subrange(0, qs.len() as int) =~= qs);
            assert(ds.subrange(0, ds.len() as int) =~= ds);
        }
        let mut queries: usize = 0;
        let mut t: usize = 0;
        while t < self.query_result.len()
            invariant
                qs == self.query_result@,
                t <= qs.len(),
                queries == query_sizes(qs.subrange(0, t as int)),
                query_sizes(qs) <= usize::MAX,
            decreases qs.len() - t,
        {
            proof {
                lemma_query_sizes_mono(qs, t + 1);
                assert(qs.subrange(0, t + 1).drop_last() =~= qs.subrange(0, t as int));
                assert(self.query_result@[t as int].size_spec() >= 0);
            }
            queries = queries + self.query_result[t].proof_size();
            t = t + 1;
        }
        let mut deeps: usize = 0;
        let mut u: usize = 0;
        while u < self.deep_evals.len()
            invariant
                ds == self.deep_evals@,
                u <= ds.len(),
                deeps == deep_lens(ds.subrange(0, u as int)),
                deep_lens(ds) <= usize::MAX,
            decreases ds.len() - u,
        {
            proof {
                lemma_deep_lens_mono(ds, u + 1);
                assert(ds.subrange(0, u + 1).drop_last() =~= ds.subrange(0, u as int));
            }
            deeps = deeps + self.deep_evals[u].1.len();
            u = u + 1;
        }
        assert(qs.subrange(0, qs.len() as int) =~= qs);
        assert(ds.subrange(0, ds.len() as int) =~= ds);
        self.merkle_root.len() * 32 + queries + (deeps + self.shuffle_evals.len() + 2) * ELEMENT_BYTES
    }
}

/// The Deepfold polynomial commitment scheme.
#[derive(Clone, Debug)]
pub struct Deepfold;

/// Field addition of integers taken modulo `p` is their sum taken modulo `p`.
proof fn lemma_mod_add(a: int, b: int)
    ensures
        fadd(a % p(), b % p()) == (a + b) % p(),
        fadd(a, b % p()) == (a + b) % p(),
        fadd(a % p(), b) == (a + b) % p(),
{
    lemma_add_mod_noop(a, b, p());
    lemma_add_mod_noop(a, b % p(), p());
    lemma_add_mod_noop(a % p(), b, p());
    vstd::arithmetic::div_mod::lemma_mod_twice(a, p());
    vstd::arithmetic::div_mod::lemma_mod_twice(b, p());
}

/// Field subtraction of integers taken modulo `p` is their difference taken modulo `p`.
proof fn lemma_mod_sub(a: int, b: int)
    ensures
        fsub(a % p(), b % p()) == (a - b) % p(),
        fsub(a, b % p()) == (a - b) % p(),
        fsub(a % p(), b) == (a - b) % p(),
{
    lemma_sub_mod_noop(a, b, p());
    lemma_sub_mod_noop(a, b % p(), p());
    lemma_sub_mod_noop(a % p(), b, p());
    vstd::arithmetic::div_mod::lemma_mod_twice(a, p());
    vstd::arithmetic::div_mod::lemma_mod_twice(b, p());
}

/// Field multiplication of integers taken modulo `p` is their product taken modulo `p`.
proof fn lemma_mod_mul(a: int, b: int)
    ensures
        fmul(a % p(), b % p()) == (a * b) % p(),
        fmul(a, b % p()) == (a * b) % p(),
        fmul(a % p(), b) == (a * b) % p(),
{
    lemma_mul_mod_noop(a, b, p());
    lemma_mul_mod_noop(a, b % p(), p());
    lemma_mul_mod_noop(a % p(), b, p());
    vstd::arithmetic::div_mod::lemma_mod_twice(a, p());
    vstd::arithmetic::div_mod::lemma_mod_twice(b, p());
}

/// The value of the polynomial in one variable with hypercube values `h0`
/// and `h1` at `x` taken modulo `p` is `h0 (1 - x) + h1 x` taken modulo `p`.
proof fn lemma_ml_eval_one(x: int, h0: int, h1: int)
    requires
        0 <= h0 < p(),
        0 <= h1 < p(),
    ensures
        ml_eval(seq![x % p()], seq![h0, h1]) == (h0 * (1 - x) + h1 * x) % p(),
{
    let xm = x % p();
    reveal_with_fuel(ml_eval, 2);
    assert(seq![xm].drop_first() =~= Seq::<int>::empty());
    assert(ml_eval(seq![xm], seq![h0, h1]) == fadd(fmul(h0, fsub(1, xm)), fmul(h1, xm)));
    lemma_mod_sub(1, x);
    lemma_mod_mul(h0, 1 - x);
    lemma_mod_mul(h1, x);
    lemma_mod_add(h0 * (1 - x), h1 * x);
}

/// One round of the fold, from `f0` with the recorded value `e0`, taken
/// modulo `p`, with the challenge `c` at the point `x`.
proof fn lemma_fold_round(f0: int, e0: int, c: int, x: int)
    requires
        0 <= c < p(),
        0 <= x < p(),
    ensures
        fadd(f0 % p(), fmul(fsub(e0 % p(), f0 % p()), fsub(c, x))) == (f0 + (e0 - f0) * (c - x)) % p(),
{
    lemma_small_mod(c as nat, p() as nat);
    lemma_small_mod(x as nat, p() as nat);
    lemma_mod_sub(e0, f0);
    lemma_mod_sub(c, x);
    lemma_mod_mul(e0 - f0, c - x);
    lemma_mod_add(f0, (e0 - f0) * (c - x));
}

/// The fold of the two values is the line through the hypercube values.
proof fn lemma_line_identity(x: int, c: int, h0: int, h1: int)
    ensures
        h0 * (1 - x) + h1 * x + (h0 * (-x) + h1 * (x + 1) - (h0 * (1 - x) + h1 * x)) * (c - x) == (1 - c) * h0
            + c * h1,
{
    assert(h0 * (1 - x) + h1 * x + (h0 * (-x) + h1 * (x + 1) - (h0 * (1 - x) + h1 * x)) * (c - x) == (1 - c)
        * h0 + c * h1) by (nonlinear_arith);
}

/// A claim about a polynomial in one variable, with hypercube values `h0`
/// and `h1`, at the point `x`, with its value at `x + 1` recorded, folds with
/// a challenge `c` to the value of the line through the hypercube values at
/// `c`: `(1 - c) h0 + c h1`, whatever `x` is.
pub proof fn lemma_deep_eval_line(x: int, c: int, h0: int, h1: int)
    requires
        0 <= x < p(),
        0 <= c < p(),
        0 <= h0 < p(),
        0 <= h1 < p(),
    ensures
        deep_fold(
            ml_eval(seq![x], seq![h0, h1]),
            seq![x],
            seq![ml_eval(shift_first(seq![x]), seq![h0, h1])],
            seq![c],
            1,
        ) == fadd(fmul(fsub(1, c), h0), fmul(c, h1)),
{
    let m = p();
    let x1 = fadd(x, 1);
    assert(shift_first(seq![x]) =~= seq![x1]);
    lemma_small_mod(x as nat, m as nat);
    lemma_small_mod(c as nat, m as nat);
    let f0 = h0 * (1 - x) + h1 * x;
    let e0 = h0 * (-x) + h1 * (x + 1);
    lemma_ml_eval_one(x, h0, h1);
    lemma_ml_eval_one(x + 1, h0, h1);
    assert(1 - (x + 1) == -x);
    let f = ml_eval(seq![x], seq![h0, h1]);
    let e = ml_eval(seq![x1], seq![h0, h1]);
    assert(f == f0 % m);
    assert(e == e0 % m);
    lemma_fold_round(f0, e0, c, x);
    reveal_with_fuel(deep_fold, 2);
    assert(deep_fold(f, seq![x], seq![e], seq![c], 1) == fadd(f, fmul(fsub(e, f), fsub(c, x))));
    lemma_line_identity(x, c, h0, h1);
    lemma_mod_sub(1, c);
    lemma_mod_mul(1 - c, h0);
    lemma_mod_mul(c, h1);
    lemma_mod_add((1 - c) * h0, c * h1);
}

/// Only the last challenges count: the fold of a claim over the last `n` of
/// `prefix + cs`, where `cs` holds `n` challenges, is its fold over `cs`.
pub proof fn lemma_deep_fold_last_challenges(y0: int, xs: Seq<int>, ys: Seq<int>, prefix: Seq<int>, cs: Seq<int>)
    ensures
        deep_fold(
            y0,
            xs,
            ys,
            (prefix + cs).subrange((prefix + cs).len() - cs.len(), (prefix + cs).len() as int),
            cs.len(),
        ) == deep_fold(y0, xs, ys, cs, cs.len()),
{
    assert((prefix + cs).subrange((prefix + cs).len() - cs.len(), (prefix + cs).len() as int) =~= cs);
}

} // verus!
