//! The Virgo polynomial commitment scheme: the prover commits to the values
//! of the polynomial moved onto a coset, proves an evaluation through a
//! quotient codeword, and folds the combined codeword round by round; the
//! verifier checks the openings of every round against the next one.
use crate::coset::{dft, idft, Coset, VanishingPolynomial};
use crate::domain::RootOfUnity;
use crate::interpolation::{iv_root, merkle_ok, query_of, InterpolateValue, QueryResult};
use crate::merkle_tree::{lemma_log2_of, log2_of, MerkleTreeVerifier};
use crate::mersenne_61_mont::{
    fadd, finv, fmul, fpow, fsub, lemma_view_range, p, views, Mersenne61Mont,
};
use crate::multilinear::{
    fold_indices, mult_poly, ones_index, same_poly, MultilinearPolynomial, VirgoPolyExt,
};
use crate::util::{is_power_of_two, log2_strict, pow2_of};
use std::collections::HashMap;
use vstd::arithmetic::power2::{lemma2_to64, lemma_pow2_adds, lemma_pow2_pos, pow2};
use vstd::prelude::*;

verus! {

broadcast use lemma_view_range;

/// The base-two logarithm of the blow-up of the first codeword over the polynomial.
pub const CODE_RATE: usize = 2usize;

/// The values `prod_i (point_i if bit i of the index is set)`: the tensor
/// product of the pairs `(1, point_i)`, first coordinate lowest.
pub open spec fn tensor(point: Seq<int>) -> Seq<int>
    decreases point.len(),
{
    if point.len() == 0 {
        seq![1]
    } else {
        let t = tensor(point.drop_last());
        t + Seq::new(t.len(), |j: int| fmul(t[j], point.last()))
    }
}

/// The pointwise product of two value vectors.
pub open spec fn pointwise(a: Seq<int>, b: Seq<int>) -> Seq<int> {
    Seq::new(a.len(), |i: int| fmul(a[i], b[i]))
}

/// The cosets halve in size from `2^m`: coset `k` has `2^(m - k)` elements.
pub open spec fn halving(cosets: Seq<Coset>, m: nat) -> bool {
    &&& cosets.len() >= 1
    &&& m + 1 >= cosets.len()
    &&& pow2(m) < p()
    &&& forall|k: int| 0 <= k < cosets.len() ==> #[trigger] cosets[k].size_view() == pow2((m - k) as nat)
}

/// The shape of a Virgo run: `total_round / step` rounds of `step` foldings
/// each, over cosets that halve from the first one, which is long enough that
/// every folded codeword still fills whole leaves of `2^step` entries.
pub open spec fn virgo_shape(total_round: nat, step: nat, cosets: Seq<Coset>) -> bool {
    let m = log2_of(cosets[0].size_view() as int);
    &&& step >= 1
    &&& cosets.len() >= 1
    &&& pow2(m) == cosets[0].size_view()
    &&& halving(cosets, m)
    &&& (total_round / step) * step < cosets.len()
    &&& m >= (total_round / step + 1) * step
}

/// One folding of a codeword on a coset with challenge `c`: entry `i` of the
/// result is `(f[i] + f[i + h]) + c * (f[i] - f[i + h]) / x_i`.
pub open spec fn virgo_fold(f: Seq<int>, c: int, co: Coset) -> Seq<int> {
    let half = co.size_view() / 2;
    Seq::new(
        half,
        |i: int|
            fadd(fadd(f[i], f[i + half]), fmul(fmul(c, fsub(f[i], f[i + half])), finv(co.elem(i as nat)))),
    )
}

/// `j` foldings with the challenges `cs`, on the cosets from `start` on.
pub open spec fn virgo_folds(f: Seq<int>, cs: Seq<int>, cosets: Seq<Coset>, start: int, j: nat) -> Seq<int>
    decreases j,
{
    if j == 0 {
        f
    } else {
        virgo_fold(virgo_folds(f, cs, cosets, start, (j - 1) as nat), cs[j - 1], cosets[start + j - 1])
    }
}

/// One entry of the combined codeword: `u + r * h + r^2 * (u * v * n - z * h * n - e) / x`,
/// here with the combination scalar `r` equal to one.
pub open spec fn init_entry(u: int, h: int, v: int, e: int, n: int, z: int, x_inv: int) -> int {
    fadd(
        fadd(u, fmul(1, h)),
        fmul(fmul(1, fsub(fsub(fmul(fmul(u, v), n), fmul(fmul(z, h), n)), e)), x_inv),
    )
}

/// The combined codeword on the first coset.
pub open spec fn virgo_init(
    u: Seq<int>,
    h: Seq<int>,
    v: Seq<int>,
    e: int,
    vic: Coset,
    fri0: Coset,
) -> Seq<int> {
    Seq::new(
        u.len(),
        |i: int|
            if i < fri0.size_view() {
                init_entry(
                    u[i],
                    h[i],
                    v[i],
                    e,
                    vic.size_view() as int % p(),
                    fsub(fpow(fri0.elem(i as nat), vic.size_view()), fpow(vic.shift_view(), vic.size_view())),
                    finv(fri0.elem(i as nat)),
                )
            } else {
                u[i]
            },
    )
}

/// `2^m / 2^s` is `2^(m - s)`, and `2^s` divides `2^m`.
proof fn lemma_pow2_div(m: nat, s: nat)
    requires
        s <= m,
    ensures
        pow2(m) % pow2(s) == 0,
        pow2(m) / pow2(s) == pow2((m - s) as nat),
{
    lemma_pow2_adds(s, (m - s) as nat);
    lemma_pow2_pos(s);
    vstd::arithmetic::div_mod::lemma_div_multiples_vanish(pow2((m - s) as nat) as int, pow2(s) as int);
    vstd::arithmetic::div_mod::lemma_mod_multiples_basic(pow2((m - s) as nat) as int, pow2(s) as int);
    vstd::arithmetic::mul::lemma_mul_is_commutative(pow2(s) as int, pow2((m - s) as nat) as int);
}

/// Consequences of the shape: a round fits in the first codeword, whose
/// length is below the modulus.
proof fn lemma_shape_facts(total_round: nat, step: nat, cosets: Seq<Coset>)
    requires
        virgo_shape(total_round, step, cosets),
    ensures
        step <= log2_of(cosets[0].size_view() as int),
        log2_of(cosets[0].size_view() as int) < 61,
        pow2(step) <= pow2(log2_of(cosets[0].size_view() as int)),
        pow2(log2_of(cosets[0].size_view() as int)) < p(),
        pow2(step) < p(),
        pow2(step) <= usize::MAX,
        rounds(total_round, step) * step < cosets.len(),
{
    cosets[0].lemma_size_bound();
    let m = log2_of(cosets[0].size_view() as int);
    let r = total_round / step;
    vstd::arithmetic::mul::lemma_mul_inequality(1, r as int + 1, step as int);
    lemma2_to64();
    vstd::arithmetic::power2::lemma2_to64_rest();
    if m >= 61 {
        if m > 61 {
            vstd::arithmetic::power2::lemma_pow2_strictly_increases(61, m);
        }
    }
    if step < m {
        vstd::arithmetic::power2::lemma_pow2_strictly_increases(step, m);
    }
}

/// A strictly sorted list of the residues of the first leaf is that leaf alone.
proof fn lemma_single_zero(r: Seq<usize>, len: int)
    requires
        len > 0,
        len <= usize::MAX,
        crate::multilinear::strictly_sorted(r),
        r.to_set() == crate::multilinear::residues(seq![0usize], len),
    ensures
        r == seq![0usize],
{
    let z = seq![0usize];
    let n = len as usize;
    assert(n as int == len);
    assert(0usize % n == 0) by (nonlinear_arith)
        requires
            n > 0,
    ;
    assert(z[0] % (len as usize) == 0);
    assert(crate::multilinear::residues(z, len).contains(0usize));
    assert(r.to_set().contains(0usize));
    let i = choose|i: int| 0 <= i < r.len() && r[i] == 0usize;
    assert forall|j: int| 0 <= j < r.len() implies r[j] == 0usize by {
        assert(r.to_set().contains(r[j]));
        assert(crate::multilinear::residues(z, len).contains(r[j]));
        let t = choose|t: int| 0 <= t < z.len() && r[j] == #[trigger] z[t] % (len as usize);
        assert(t == 0);
    }
    if r.len() > 1 {
        assert(r[0] < r[1]);
    }
    assert(r =~= z);
}

/// A copy of a list of cosets.
fn copy_cosets(v: &Vec<Coset>) -> (r: Vec<Coset>)
    ensures
        r@ == v@,
{
    let mut out: Vec<Coset> = Vec::new();
    for i in 0..v.len()
        invariant
            out@ == v@.subrange(0, i as int),
    {
        out.push(v[i]);
        assert(out@ =~= v@.subrange(0, i + 1));
    }
    assert(v@.subrange(0, v.len() as int) =~= v@);
    out
}

/// A copy of a list of field elements.
fn copy_elems(v: &Vec<Mersenne61Mont>) -> (r: Vec<Mersenne61Mont>)
    ensures
        r@ == v@,
{
    let mut out: Vec<Mersenne61Mont> = Vec::new();
    for i in 0..v.len()
        invariant
            out@ == v@.subrange(0, i as int),
    {
        out.push(v[i]);
        assert(out@ =~= v@.subrange(0, i + 1));
    }
    assert(v@.subrange(0, v.len() as int) =~= v@);
    out
}

/// Coset `k` is the coset of squares of coset `k - 1`.
pub open spec fn square_step(cosets: Seq<Coset>, k: int) -> bool {
    &&& cosets[k].size_view() == cosets[k - 1].size_view() / 2
    &&& cosets[k].shift_view() == fpow(cosets[k - 1].shift_view(), 2)
    &&& cosets[k].generator_view() == fpow(cosets[k - 1].generator_view(), 2)
}

/// Every coset is the coset of squares of the one before.
pub open spec fn squares(cosets: Seq<Coset>) -> bool {
    forall|k: int| 0 < k < cosets.len() ==> #[trigger] square_step(cosets, k)
}

/// The parameters of Virgo: the number of rounds, the cosets of the codewords,
/// the coset on which the polynomial's values are interpolated, and the
/// number of foldings per round.
#[derive(Clone, Debug)]
pub struct VirgoParams {
    pub total_round: usize,
    pub fri_cosets: Vec<Coset>,
    pub vector_interpolation_coset: Coset,
    pub step: usize,
}

/// A Virgo commitment: the Merkle root of the first codeword.
#[derive(Clone, Debug)]
pub struct VirgoCommitment {
    pub u_root: [u8; 32],
}

/// A Virgo proof: the openings of the folded codewords, of the first
/// codeword and of the quotient codeword, and the values of the public vector.
#[derive(Clone, Debug)]
pub struct VirgoProof {
    pub folding_proofs: Vec<QueryResult>,
    pub function_proofs: Vec<QueryResult>,
    pub v_values: HashMap<usize, Mersenne61Mont>,
}

/// The Virgo polynomial commitment scheme.
#[derive(Clone, Debug)]
pub struct Virgo;

impl Virgo {
    /// The parameters for polynomials of `poly_size` evaluations, that is in
    /// `k = log2(poly_size)` variables, on the domains of the source `d`: one
    /// round per variable, one folding per round, a first coset of
    /// `2^(k + CODE_RATE)` elements and its successive squares, and an
    /// interpolation coset of `poly_size` elements.
    pub fn setup(poly_size: usize, d: &RootOfUnity) -> (r: VirgoParams)
        requires
            is_power_of_two(poly_size as int),
            log2_of(poly_size as int) + CODE_RATE <= d.log_order_view(),
        ensures
            r.total_round == log2_of(poly_size as int),
            r.step == 1,
            r.fri_cosets@.len() == log2_of(poly_size as int) + 1,
            r.fri_cosets@[0].size_view() == pow2((log2_of(poly_size as int) + CODE_RATE) as nat),
            r.fri_cosets@[0].shift_view() == 1,
            r.fri_cosets@[0].generator_view() == d.gen((log2_of(poly_size as int) + CODE_RATE) as nat),
            squares(r.fri_cosets@),
            r.vector_interpolation_coset.size_view() == poly_size,
            r.vector_interpolation_coset.shift_view() == 1,
            r.vector_interpolation_coset.generator_view() == d.gen(log2_of(poly_size as int)),
    {
        let k = log2_strict(poly_size);
        proof {
            use_type_invariant(d);
            lemma_log2_of(poly_size as int, k as nat);
            d.lemma_order_bound();
            lemma2_to64();
            vstd::arithmetic::power2::lemma2_to64_rest();
            if k + CODE_RATE < d.log_order_view() {
                vstd::arithmetic::power2::lemma_pow2_strictly_increases((k + CODE_RATE) as nat, d.log_order_view());
            }
            if k < d.log_order_view() {
                vstd::arithmetic::power2::lemma_pow2_strictly_increases(k as nat, d.log_order_view());
            }
        }
        let first_coset = Coset::new(pow2_of(k + CODE_RATE), Mersenne61Mont::from_int(1), d);
        proof {
            lemma_log2_of(pow2((k + CODE_RATE) as nat) as int, (k + CODE_RATE) as nat);
        }
        let mut fri_cosets: Vec<Coset> = Vec::new();
        fri_cosets.push(first_coset);
        let mut i: usize = 1;
        while i <= k
            invariant
                1 <= i <= k + 1,
                k + CODE_RATE <= d.log_order_view(),
                k <= 30,
                fri_cosets@.len() == i,
                fri_cosets@[0] == first_coset,
                squares(fri_cosets@),
            decreases k + 1 - i,
        {
            let next = fri_cosets[i - 1].pow(2);
            let ghost before = fri_cosets@;
            fri_cosets.push(next);
            assert forall|j: int| 0 < j < fri_cosets@.len() implies square_step(fri_cosets@, j) by {
                if j < i {
                    assert(square_step(before, j));
                }
            }
            i = i + 1;
        }
        let vector_interpolation_coset = Coset::new(poly_size, Mersenne61Mont::from_int(1), d);
        VirgoParams { total_round: k, fri_cosets, vector_interpolation_coset, step: 1 }
    }

    /// The commitment to a polynomial: the root of its first codeword.
    pub fn commit(pp: &VirgoParams, poly: &MultilinearPolynomial) -> (r: VirgoCommitment)
        requires
            virgo_shape(pp.total_round as nat, pp.step as nat, pp.fri_cosets@),
            poly.wf(),
            pp.vector_interpolation_coset.size_view() == pow2(poly.num_vars_view()),
            pp.vector_interpolation_coset.size_view() < p(),
        ensures
            ({
                let vic = pp.vector_interpolation_coset;
                let f0 = pp.fri_cosets@[0];
                let code = dft(
                    idft(poly.evals_view(), vic.shift_view(), vic.generator_view(), vic.size_view()),
                    f0.shift_view(),
                    f0.generator_view(),
                    f0.size_view(),
                );
                exists|iv: InterpolateValue|
                    #![trigger iv_root(iv)]
                    iv.wf() && iv.values() == code && iv.leaf_count() == pow2(pp.step as nat) && r.u_root@
                        == iv_root(iv)
            }),
    {
        let prover = VirgoProver::new(
            pp.total_round,
            &pp.fri_cosets,
            &pp.vector_interpolation_coset,
            poly.copy_poly(),
            pp.step,
        );
        let u_root = prover.commit_first_polynomial();
        proof {
            let iv = prover.u_view();
            assert(iv.wf() && iv.leaf_count() == pow2(pp.step as nat));
        }
        VirgoCommitment { u_root }
    }
}


/// One entry of the combined codeword as the verifier computes it from the
/// opened values: `u + h * r + r^2 * (u * v * n - z * h * n - e) / x`, with `r = 1`.
pub open spec fn verify_entry(u: int, h: int, v: int, e: int, n: int, z: int, x_inv: int) -> int {
    fadd(
        fadd(u, fmul(h, 1)),
        fmul(fmul(1, fsub(fsub(fmul(fmul(u, v), n), fmul(fmul(z, h), n)), e)), x_inv),
    )
}

/// The value the verifier reads at position `ind` in round `i`: in the
/// first round the combined codeword from the opened first, quotient and
/// public values; later the opened folded codeword of the previous round.
pub open spec fn read_value(
    ver: &VirgoVerifier,
    fps: Seq<QueryResult>,
    vv: Map<usize, Mersenne61Mont>,
    fnps: Seq<QueryResult>,
    i: int,
    ind: usize,
) -> Option<int> {
    if i == 0 {
        if fnps.len() >= 2 && fnps[0].proof_values@.contains_key(ind) && fnps[1].proof_values@.contains_key(ind)
            && vv.contains_key(ind) && ver.evaluation_view() is Some {
            let x = ver.cosets_view()[0].elem(ind as nat);
            Some(
                verify_entry(
                    fnps[0].proof_values@[ind]@,
                    fnps[1].proof_values@[ind]@,
                    vv[ind]@,
                    ver.evaluation_view().unwrap()@,
                    ver.vic_view().size_view() as int % p(),
                    fsub(fpow(x, ver.vanishing_view().degree_view()), ver.vanishing_view().shift_pow_view()),
                    finv(x),
                ),
            )
        } else {
            None
        }
    } else if i - 1 < fps.len() && fps[i - 1].proof_values@.contains_key(ind) {
        Some(fps[i - 1].proof_values@[ind]@)
    } else {
        None
    }
}

/// One folding of the values read at leaf `k`: the values sit at positions
/// `k + l * len`, and the challenge is one.
pub open spec fn check_fold(vals: Seq<int>, k: int, len: int, co: Coset) -> Seq<int> {
    let half = vals.len() / 2;
    Seq::new(
        half,
        |l: int|
            fadd(
                fadd(vals[l], vals[l + half]),
                fmul(fmul(1, fsub(vals[l], vals[l + half])), finv(co.elem((k + l * len) as nat))),
            ),
    )
}

/// `j` foldings of the values read at leaf `k`, on the cosets from `start` on.
pub open spec fn check_folds(vals: Seq<int>, k: int, len: int, cosets: Seq<Coset>, start: int, j: nat) -> Seq<int>
    decreases j,
{
    if j == 0 {
        vals
    } else {
        check_fold(check_folds(vals, k, len, cosets, start, (j - 1) as nat), k, len, cosets[start + j - 1])
    }
}

/// The values of round `i` read at the first leaf, when all are present.
pub open spec fn round_values(
    ver: &VirgoVerifier,
    fps: Seq<QueryResult>,
    vv: Map<usize, Mersenne61Mont>,
    fnps: Seq<QueryResult>,
    i: int,
) -> Seq<int> {
    let leaf = pow2(ver.step_view());
    let len = ver.cosets_view()[i * ver.step_view()].size_view() / leaf;
    Seq::new(leaf, |j: int| read_value(ver, fps, vv, fnps, i, (j * len) as usize).unwrap())
}

/// Round `i` of the check passes: in the first round the first and the
/// quotient codewords' openings authenticate, and in a later round the
/// opening of the previous folded codeword authenticates against its
/// received root, whose tree has one leaf per `2^step` values of that
/// codeword; every value of the first leaf
/// is present; and the folded value matches the next round's opened value,
/// or, after the last round, the final polynomial at the next coset's first point.
pub open spec fn round_ok(
    ver: &VirgoVerifier,
    fps: Seq<QueryResult>,
    vv: Map<usize, Mersenne61Mont>,
    fnps: Seq<QueryResult>,
    i: int,
) -> bool {
    let step = ver.step_view();
    let leaf = pow2(step);
    let len = ver.cosets_view()[i * step].size_view() / leaf;
    let r = rounds(ver.total_round_view(), step);
    let folded = check_folds(round_values(ver, fps, vv, fnps, i), 0, len as int, ver.cosets_view(), i * step, step)[0];
    let point = ver.cosets_view()[(i + 1) * step].elem(0);
    &&& (i == 0 ==> fnps.len() >= 2 && ver.h_root_view() is Some && merkle_ok(fnps[0], seq![0usize], leaf, ver.u_root_view())
        && merkle_ok(fnps[1], seq![0usize], leaf, ver.h_root_view().unwrap()))
    &&& (i > 0 ==> fps.len() >= i && ver.folding_roots_view().len() >= i
        && ver.folding_roots_view()[i - 1].leave_number == len
        && merkle_ok(fps[i - 1], seq![0usize], leaf, ver.folding_roots_view()[i - 1]))
    &&& forall|j: int| 0 <= j < leaf ==> #[trigger] read_value(ver, fps, vv, fnps, i, (j * len) as usize) is Some
    &&& if i < r - 1 {
        &&& fps.len() > i
        &&& fps[i].proof_values@.contains_key(0usize)
        &&& folded == fps[i].proof_values@[0usize]@
    } else {
        &&& ver.final_poly_view() is Some
        &&& (point == 1 ==> ver.final_poly_view().unwrap().num_vars_view() > 0)
        &&& folded == ver.final_poly_view().unwrap().evals_view()[ones_index(seq![point])]
    }
}

/// The Virgo verifier's state.
pub struct VirgoVerifier {
    total_round: usize,
    interpolate_cosets: Vec<Coset>,
    vector_interpolation_coset: Coset,
    u_root: MerkleTreeVerifier,
    h_root: Option<MerkleTreeVerifier>,
    folding_roots: Vec<MerkleTreeVerifier>,
    vanishing_polynomial: VanishingPolynomial,
    final_poly: Option<MultilinearPolynomial>,
    evaluation: Option<Mersenne61Mont>,
    open_point: Option<Vec<Mersenne61Mont>>,
    step: usize,
}

impl VirgoVerifier {
    /// The number of rounds of foldings.
    pub closed spec fn total_round_view(&self) -> nat {
        self.total_round as nat
    }

    /// The number of foldings per round.
    pub closed spec fn step_view(&self) -> nat {
        self.step as nat
    }

    /// The cosets of the codewords.
    pub closed spec fn cosets_view(&self) -> Seq<Coset> {
        self.interpolate_cosets@
    }

    /// The interpolation coset.
    pub closed spec fn vic_view(&self) -> Coset {
        self.vector_interpolation_coset
    }

    /// The root of the first codeword.
    pub closed spec fn u_root_view(&self) -> MerkleTreeVerifier {
        self.u_root
    }

    /// The root of the quotient codeword, once received.
    pub closed spec fn h_root_view(&self) -> Option<MerkleTreeVerifier> {
        self.h_root
    }

    /// The roots of the folded codewords received so far.
    pub closed spec fn folding_roots_view(&self) -> Seq<MerkleTreeVerifier> {
        self.folding_roots@
    }

    /// The vanishing polynomial of the interpolation coset.
    pub closed spec fn vanishing_view(&self) -> VanishingPolynomial {
        self.vanishing_polynomial
    }

    /// The final polynomial, once received.
    pub closed spec fn final_poly_view(&self) -> Option<MultilinearPolynomial> {
        self.final_poly
    }

    /// The claimed evaluation, once received.
    pub closed spec fn evaluation_view(&self) -> Option<Mersenne61Mont> {
        self.evaluation
    }

    /// The opening point, once drawn.
    pub closed spec fn open_point_view(&self) -> Option<Seq<int>> {
        match self.open_point {
            Some(v) => Some(views(v@)),
            None => None,
        }
    }

    /// Both verifiers share their parameters and the first root.
    pub open spec fn same_setup(&self, other: &Self) -> bool {
        &&& self.total_round_view() == other.total_round_view()
        &&& self.step_view() == other.step_view()
        &&& self.cosets_view() == other.cosets_view()
        &&& self.vic_view() == other.vic_view()
        &&& self.u_root_view() == other.u_root_view()
        &&& self.vanishing_view() == other.vanishing_view()
    }

    /// The cosets are there, a leaf of `2^step` entries has a machine size,
    /// the roots of the first round cover the leaves of the first coset, and
    /// a received final polynomial has one value per point of its hypercube.
    pub closed spec fn wf(&self) -> bool {
        &&& self.interpolate_cosets@.len() >= 1
        &&& pow2(self.step as nat) <= usize::MAX
        &&& self.u_root.leave_number == self.interpolate_cosets@[0].size_view() / pow2(self.step as nat)
        &&& (self.h_root matches Some(h) ==> h.leave_number == self.interpolate_cosets@[0].size_view()
            / pow2(self.step as nat))
        &&& (self.final_poly matches Some(f) ==> f.wf())
    }

    /// A verifier for the commitment `u_commitment`.
    pub fn new(
        total_round: usize,
        cosets: &Vec<Coset>,
        vector_interpolation_coset: &Coset,
        u_commitment: [u8; 32],
        step: usize,
    ) -> (r: Self)
        requires
            cosets.len() >= 1,
            pow2(step as nat) <= usize::MAX,
        ensures
            r.wf(),
            r.total_round_view() == total_round,
            r.step_view() == step,
            r.cosets_view() == cosets@,
            r.vic_view() == *vector_interpolation_coset,
            r.u_root_view().leave_number == cosets@[0].size_view() / pow2(step as nat),
            r.u_root_view().merkle_root@ == u_commitment@,
            r.h_root_view() is None,
            r.folding_roots_view().len() == 0,
            r.vanishing_view().degree_view() == vector_interpolation_coset.size_view(),
            r.vanishing_view().shift_pow_view() == fpow(
                vector_interpolation_coset.shift_view(),
                vector_interpolation_coset.size_view(),
            ),
            r.final_poly_view() is None,
            r.evaluation_view() is None,
            r.open_point_view() is None,
    {
        proof {
            lemma_pow2_pos(step as nat);
        }
        VirgoVerifier {
            total_round,
            interpolate_cosets: copy_cosets(cosets),
            vector_interpolation_coset: *vector_interpolation_coset,
            u_root: MerkleTreeVerifier {
                leave_number: cosets[0].size() / pow2_of(step),
                merkle_root: u_commitment,
            },
            h_root: None,
            folding_roots: Vec::new(),
            vanishing_polynomial: VanishingPolynomial::new(vector_interpolation_coset),
            final_poly: None,
            evaluation: None,
            open_point: None,
            step,
        }
    }

    /// Records the claimed evaluation.
    pub fn set_evaluation(&mut self, v: Mersenne61Mont)
        ensures
            final(self).evaluation_view() == Some(v),
            final(self).total_round_view() == old(self).total_round_view(),
            final(self).step_view() == old(self).step_view(),
            final(self).cosets_view() == old(self).cosets_view(),
            final(self).vic_view() == old(self).vic_view(),
            final(self).u_root_view() == old(self).u_root_view(),
            final(self).h_root_view() == old(self).h_root_view(),
            final(self).folding_roots_view() == old(self).folding_roots_view(),
            final(self).vanishing_view() == old(self).vanishing_view(),
            final(self).final_poly_view() == old(self).final_poly_view(),
            final(self).open_point_view() == old(self).open_point_view(),
            old(self).wf() ==> final(self).wf(),
    {
        self.evaluation = Some(v);
    }

    /// Draws a random opening point of `total_round` coordinates and keeps it.
    pub fn get_open_point(&mut self) -> (r: Vec<Mersenne61Mont>)
        ensures
            r@.len() == old(self).total_round_view(),
            final(self).open_point_view() == Some(views(r@)),
            final(self).evaluation_view() == old(self).evaluation_view(),
            final(self).total_round_view() == old(self).total_round_view(),
            final(self).step_view() == old(self).step_view(),
            final(self).cosets_view() == old(self).cosets_view(),
            final(self).vic_view() == old(self).vic_view(),
            final(self).u_root_view() == old(self).u_root_view(),
            final(self).h_root_view() == old(self).h_root_view(),
            final(self).folding_roots_view() == old(self).folding_roots_view(),
            final(self).vanishing_view() == old(self).vanishing_view(),
            final(self).final_poly_view() == old(self).final_poly_view(),
            old(self).wf() ==> final(self).wf(),
    {
        let mut pts: Vec<Mersenne61Mont> = Vec::new();
        let mut i: usize = 0;
        while i < self.total_round
            invariant
                i <= self.total_round,
                pts@.len() == i,
            decreases self.total_round - i,
        {
            pts.push(Mersenne61Mont::random_element());
            i = i + 1;
        }
        self.open_point = Some(copy_elems(&pts));
        pts
    }

    /// Records the root of the quotient codeword.
    pub fn set_h_root(&mut self, h_root: [u8; 32])
        requires
            old(self).wf(),
        ensures
            final(self).h_root_view() matches Some(v) && v.merkle_root@ == h_root@ && v.leave_number
                == old(self).cosets_view()[0].size_view() / pow2(old(self).step_view()),
            final(self).evaluation_view() == old(self).evaluation_view(),
            final(self).total_round_view() == old(self).total_round_view(),
            final(self).step_view() == old(self).step_view(),
            final(self).cosets_view() == old(self).cosets_view(),
            final(self).vic_view() == old(self).vic_view(),
            final(self).u_root_view() == old(self).u_root_view(),
            final(self).folding_roots_view() == old(self).folding_roots_view(),
            final(self).vanishing_view() == old(self).vanishing_view(),
            final(self).final_poly_view() == old(self).final_poly_view(),
            final(self).open_point_view() == old(self).open_point_view(),
            final(self).wf(),
    {
        proof {
            lemma_pow2_pos(self.step as nat);
        }
        let leave_number = self.interpolate_cosets[0].size() / pow2_of(self.step);
        self.h_root = Some(MerkleTreeVerifier { merkle_root: h_root, leave_number });
    }

    /// Records the root of the next folded codeword.
    pub fn receive_folding_root(&mut self, leave_number: usize, folding_root: [u8; 32])
        ensures
            final(self).folding_roots_view().len() == old(self).folding_roots_view().len() + 1,
            final(self).folding_roots_view().drop_last() == old(self).folding_roots_view(),
            final(self).folding_roots_view().last().leave_number == leave_number,
            final(self).folding_roots_view().last().merkle_root@ == folding_root@,
            final(self).evaluation_view() == old(self).evaluation_view(),
            final(self).total_round_view() == old(self).total_round_view(),
            final(self).step_view() == old(self).step_view(),
            final(self).cosets_view() == old(self).cosets_view(),
            final(self).vic_view() == old(self).vic_view(),
            final(self).u_root_view() == old(self).u_root_view(),
            final(self).h_root_view() == old(self).h_root_view(),
            final(self).vanishing_view() == old(self).vanishing_view(),
            final(self).final_poly_view() == old(self).final_poly_view(),
            final(self).open_point_view() == old(self).open_point_view(),
            old(self).wf() ==> final(self).wf(),
    {
        let ghost before = self.folding_roots@;
        self.folding_roots.push(MerkleTreeVerifier { leave_number, merkle_root: folding_root });
        assert(self.folding_roots@.drop_last() =~= before);
    }

    /// Records the final polynomial.
    pub fn set_final_poly(&mut self, poly: MultilinearPolynomial)
        requires
            poly.wf(),
        ensures
            final(self).final_poly_view() == Some(poly),
            final(self).evaluation_view() == old(self).evaluation_view(),
            final(self).total_round_view() == old(self).total_round_view(),
            final(self).step_view() == old(self).step_view(),
            final(self).cosets_view() == old(self).cosets_view(),
            final(self).vic_view() == old(self).vic_view(),
            final(self).u_root_view() == old(self).u_root_view(),
            final(self).h_root_view() == old(self).h_root_view(),
            final(self).folding_roots_view() == old(self).folding_roots_view(),
            final(self).vanishing_view() == old(self).vanishing_view(),
            final(self).open_point_view() == old(self).open_point_view(),
            old(self).wf() ==> final(self).wf(),
    {
        self.final_poly = Some(poly);
    }

    /// The value at position `index` of round `i`, or nothing when an opened
    /// value or the evaluation is missing.
    fn folding_value(
        &self,
        i: usize,
        index: usize,
        folding_proofs: &Vec<QueryResult>,
        v_values: &HashMap<usize, Mersenne61Mont>,
        function_proofs: &Vec<QueryResult>,
    ) -> (r: Option<Mersenne61Mont>)
        requires
            self.wf(),
        ensures
            match r {
                Some(x) => read_value(self, folding_proofs@, v_values@, function_proofs@, i as int, index) == Some(x@),
                None => read_value(self, folding_proofs@, v_values@, function_proofs@, i as int, index) is None,
            },
    {
        if i == 0 {
            if function_proofs.len() < 2 {
                return None;
            }
            let u = match function_proofs[0].proof_values.get(&index) {
                Some(x) => *x,
                None => {
                    return None;
                },
            };
            let h = match function_proofs[1].proof_values.get(&index) {
                Some(x) => *x,
                None => {
                    return None;
                },
            };
            let v = match v_values.get(&index) {
                Some(x) => *x,
                None => {
                    return None;
                },
            };
            let e = match self.evaluation {
                Some(x) => x,
                None => {
                    return None;
                },
            };
            let rlc = self.oracle_rlc();
            let vanish_size = Mersenne61Mont::from_int(self.vector_interpolation_coset.size() as u64);
            let x = self.interpolate_cosets[0].element_at(index);
            let x_inv = self.interpolate_cosets[0].element_inv_at(index);
            let mut res = u;
            let mut acc = rlc;
            res = res.add(h.mul(acc));
            acc = acc.mul(rlc);
            let t = u.mul(v).mul(vanish_size).sub(self.vanishing_polynomial.evaluation_at(x).mul(h).mul(vanish_size)).sub(e);
            res = res.add(acc.mul(t).mul(x_inv));
            Some(res)
        } else {
            if folding_proofs.len() < i {
                return None;
            }
            match folding_proofs[i - 1].proof_values.get(&index) {
                Some(x) => Some(*x),
                None => None,
            }
        }
    }

    /// Checks the openings round by round: in the first round the openings
    /// of the first and the quotient codewords authenticate against their
    /// roots, in a later round the opening of the previous folded codeword
    /// authenticates against its received root; in every round the values of the queried leaf fold to the value
    /// opened in the next round, or after the last round to the final
    /// polynomial's value.
    pub fn verify(
        &self,
        folding_proofs: &Vec<QueryResult>,
        v_values: &HashMap<usize, Mersenne61Mont>,
        function_proofs: &Vec<QueryResult>,
    ) -> (r: bool)
        requires
            self.wf(),
            virgo_shape(self.total_round_view(), self.step_view(), self.cosets_view()),
        ensures
            r == (forall|i: int|
                0 <= i < rounds(self.total_round_view(), self.step_view()) ==> #[trigger] round_ok(
                    self,
                    folding_proofs@,
                    v_values@,
                    function_proofs@,
                    i,
                )),
    {
        let ghost fps = folding_proofs@;
        let ghost vv = v_values@;
        let ghost fnps = function_proofs@;
        let step = self.step;
        let rr = self.total_round / step;
        proof {
            lemma_shape_facts(self.total_round as nat, self.step as nat, self.interpolate_cosets@);
        }
        let leaf_size = pow2_of(step);
        let clen = self.interpolate_cosets.len();
        let mut leaf_indices = self.oracle_query_list();
        let mut i: usize = 0;
        while i < rr
            invariant
                self.wf(),
                virgo_shape(self.total_round_view(), self.step_view(), self.cosets_view()),
                fps == folding_proofs@,
                vv == v_values@,
                fnps == function_proofs@,
                step == self.step,
                rr == rounds(self.total_round as nat, step as nat),
                leaf_size == pow2(step as nat),
                clen == self.interpolate_cosets@.len(),
                i <= rr,
                leaf_indices@ == seq![0usize],
                forall|q: int| 0 <= q < i ==> #[trigger] round_ok(self, fps, vv, fnps, q),
            decreases rr - i,
        {
            let ghost m = log2_of(self.interpolate_cosets@[0].size_view() as int);
            proof {
                lemma_shape_facts(self.total_round as nat, self.step as nat, self.interpolate_cosets@);
                vstd::arithmetic::mul::lemma_mul_inequality(i as int + 1, rr as int, step as int);
                vstd::arithmetic::mul::lemma_mul_inequality(i as int + 2, rr as int + 1, step as int);
                vstd::arithmetic::mul::lemma_mul_is_distributive_add_other_way(step as int, i as int, 1);
                vstd::arithmetic::mul::lemma_mul_is_distributive_add_other_way(step as int, i as int + 1, 1);
                lemma_pow2_pos(step as nat);
                lemma_pow2_div((m - i * step) as nat, step as nat);
                lemma_pow2_pos((m - i * step - step) as nat);
            }
            let c = self.interpolate_cosets[i * step];
            let len = c.size() / leaf_size;
            proof {
                assert(c.size_view() == pow2((m - i * step) as nat));
                vstd::arithmetic::div_mod::lemma_fundamental_div_mod(c.size_view() as int, leaf_size as int);
                assert(len == pow2((m - i * step - step) as nat));
                vstd::arithmetic::mul::lemma_mul_is_commutative(len as int, leaf_size as int);
            }
            leaf_indices = fold_indices(&leaf_indices, len);
            proof {
                lemma_single_zero(leaf_indices@, len as int);
            }
            if i == 0 {
                if function_proofs.len() < 2 {
                    assert(!round_ok(self, fps, vv, fnps, i as int));
                    return false;
                }
                proof {
                    lemma_pow2_div(m, step as nat);
                    vstd::arithmetic::div_mod::lemma_fundamental_div_mod(
                        self.interpolate_cosets@[0].size_view() as int,
                        leaf_size as int,
                    );
                    self.interpolate_cosets@[0].lemma_size_bound();
                    vstd::arithmetic::mul::lemma_mul_is_commutative(self.u_root.leave_number as int, leaf_size as int);
                    assert(is_power_of_two(self.u_root.leave_number as int)) by {
                        assert(pow2((m - step) as nat) == self.u_root.leave_number);
                    }
                }
                if !function_proofs[0].verify_merkle_tree(&leaf_indices, leaf_size, &self.u_root) {
                    assert(!round_ok(self, fps, vv, fnps, i as int));
                    return false;
                }
                match &self.h_root {
                    None => {
                        assert(!round_ok(self, fps, vv, fnps, i as int));
                        return false;
                    },
                    Some(hr) => {
                        if !function_proofs[1].verify_merkle_tree(&leaf_indices, leaf_size, hr) {
                            assert(!round_ok(self, fps, vv, fnps, i as int));
                            return false;
                        }
                    },
                }
            } else {
                if folding_proofs.len() < i || self.folding_roots.len() < i {
                    assert(!round_ok(self, fps, vv, fnps, i as int));
                    return false;
                }
                let fr = &self.folding_roots[i - 1];
                if fr.leave_number != len {
                    assert(!round_ok(self, fps, vv, fnps, i as int));
                    return false;
                }
                proof {
                    lemma_pow2_pos((m - i * step - step) as nat);
                    assert(is_power_of_two(fr.leave_number as int)) by {
                        assert(pow2((m - i * step - step) as nat) == fr.leave_number);
                    }
                    vstd::arithmetic::mul::lemma_mul_is_commutative(len as int, leaf_size as int);
                }
                if !folding_proofs[i - 1].verify_merkle_tree(&leaf_indices, leaf_size, fr) {
                    assert(!round_ok(self, fps, vv, fnps, i as int));
                    return false;
                }
            }
            let k: usize = leaf_indices[0];
            let ghost vals = round_values(self, fps, vv, fnps, i as int);
            let mut verify_values: Vec<Mersenne61Mont> = Vec::new();
            let mut verify_inds: Vec<usize> = Vec::new();
            let mut j: usize = 0;
            while j < leaf_size
                invariant
                    self.wf(),
                    step == self.step,
                    i < rr,
                    rr == rounds(self.total_round as nat, step as nat),
                    fps == folding_proofs@,
                    vv == v_values@,
                    fnps == function_proofs@,
                    k == 0,
                    len * leaf_size == c.size_view(),
                    c.size_view() <= usize::MAX,
                    vals == round_values(self, fps, vv, fnps, i as int),
                    leaf_size == pow2(step as nat),
                    len == self.interpolate_cosets@[i * step].size_view() / pow2(step as nat),
                    j <= leaf_size,
                    verify_values@.len() == j,
                    verify_inds@.len() == j,
                    forall|q: int| 0 <= q < j ==> #[trigger] verify_inds@[q] == q * len,
                    forall|q: int| 0 <= q < j ==> #[trigger] read_value(self, fps, vv, fnps, i as int, (q * len) as usize) is Some,
                    views(verify_values@) == vals.subrange(0, j as int),
                decreases leaf_size - j,
            {
                proof {
                    vstd::arithmetic::mul::lemma_mul_inequality(j as int + 1, leaf_size as int, len as int);
                    vstd::arithmetic::mul::lemma_mul_is_distributive_add_other_way(len as int, j as int, 1);
                    vstd::arithmetic::mul::lemma_mul_is_commutative(len as int, leaf_size as int);
                }
                let ind = k + j * len;
                assert(ind == (j * len) as usize);
                match self.folding_value(i, ind, folding_proofs, v_values, function_proofs) {
                    None => {
                        assert(!(read_value(self, fps, vv, fnps, i as int, (j * len) as usize) is Some));
                        assert(!round_ok(self, fps, vv, fnps, i as int));
                        return false;
                    },
                    Some(x) => {
                        let ghost before = views(verify_values@);
                        verify_values.push(x);
                        verify_inds.push(ind);
                        assert(vals[j as int] == x@);
                        assert(views(verify_values@) =~= before.push(x@));
                        assert(views(verify_values@) =~= vals.subrange(0, j + 1));
                    },
                }
                j = j + 1;
            }
            assert(vals.subrange(0, leaf_size as int) =~= vals);
            proof {
                lemma2_to64();
            }
            let mut jj: usize = 0;
            while jj < step
                invariant
                    self.wf(),
                    step == self.step,
                    i * step + step < clen,
                    clen == self.interpolate_cosets@.len(),
                    jj <= step,
                    leaf_size == pow2(step as nat),
                    pow2(step as nat) == pow2(jj as nat) * pow2((step - jj) as nat),
                    verify_values@.len() == pow2((step - jj) as nat),
                    verify_inds@.len() == verify_values@.len(),
                    forall|q: int| 0 <= q < verify_inds@.len() ==> #[trigger] verify_inds@[q] == q * len,
                    views(verify_values@) == check_folds(vals, 0, len as int, self.interpolate_cosets@, i * step, jj as nat),
                decreases step - jj,
            {
                let challenge = self.oracle_folding_challenge(i * step + jj);
                let co = self.interpolate_cosets[i * step + jj];
                let size = verify_values.len();
                proof {
                    vstd::arithmetic::power2::lemma_pow2_unfold((step - jj) as nat);
                }
                let ghost cur = views(verify_values@);
                let mut tmp: Vec<Mersenne61Mont> = Vec::new();
                let mut tmp_inds: Vec<usize> = Vec::new();
                let mut l: usize = 0;
                while l < size / 2
                    invariant
                        size == verify_values@.len(),
                        size % 2 == 0,
                        cur == views(verify_values@),
                        verify_inds@.len() == size,
                        forall|q: int| 0 <= q < verify_inds@.len() ==> #[trigger] verify_inds@[q] == q * len,
                        challenge@ == 1,
                        l <= size / 2,
                        tmp_inds@.len() == l,
                        forall|q: int| 0 <= q < l ==> #[trigger] tmp_inds@[q] == q * len,
                        views(tmp@) == check_fold(cur, 0, len as int, co).subrange(0, l as int),
                    decreases size / 2 - l,
                {
                    let x = verify_values[l];
                    let nx = verify_values[l + size / 2];
                    let nv = x.add(nx).add(challenge.mul(x.sub(nx)).mul(co.element_inv_at(verify_inds[l])));
                    let ghost before = views(tmp@);
                    tmp.push(nv);
                    tmp_inds.push(verify_inds[l]);
                    assert(views(tmp@) =~= before.push(nv@));
                    assert(views(tmp@) =~= check_fold(cur, 0, len as int, co).subrange(0, l + 1));
                    l = l + 1;
                }
                assert(views(tmp@) =~= check_fold(cur, 0, len as int, co));
                verify_values = tmp;
                verify_inds = tmp_inds;
                proof {
                    vstd::arithmetic::power2::lemma_pow2_adds(jj as nat, 1);
                    vstd::arithmetic::power2::lemma_pow2_adds((jj + 1) as nat, (step - jj - 1) as nat);
                }
                jj = jj + 1;
            }
            let v_val = verify_values[0];
            let ghost folded = check_folds(vals, 0, len as int, self.interpolate_cosets@, i * step, step as nat)[0];
            assert(v_val@ == folded);
            if i + 1 < rr {
                if folding_proofs.len() <= i {
                    assert(!round_ok(self, fps, vv, fnps, i as int));
                    return false;
                }
                match folding_proofs[i].proof_values.get(&k) {
                    None => {
                        assert(!round_ok(self, fps, vv, fnps, i as int));
                        return false;
                    },
                    Some(x) => {
                        if !v_val.equals(x) {
                            assert(!round_ok(self, fps, vv, fnps, i as int));
                            return false;
                        }
                    },
                }
            } else {
                let point = self.interpolate_cosets[(i + 1) * step].element_at(k);
                match &self.final_poly {
                    None => {
                        assert(!round_ok(self, fps, vv, fnps, i as int));
                        return false;
                    },
                    Some(fp) => {
                        if point.equals(&Mersenne61Mont::one()) && fp.num_vars() == 0 {
                            assert(!round_ok(self, fps, vv, fnps, i as int));
                            return false;
                        }
                        let mut pt: Vec<Mersenne61Mont> = Vec::new();
                        pt.push(point);
                        assert(views(pt@) =~= seq![point@]);
                        let y = fp.evaluate_poly(pt.as_slice());
                        if !v_val.equals(&y) {
                            assert(!round_ok(self, fps, vv, fnps, i as int));
                            return false;
                        }
                    },
                }
            }
            assert(round_ok(self, fps, vv, fnps, i as int));
            i = i + 1;
        }
        true
    }

    /// The random-linear-combination scalar: one.
    fn oracle_rlc(&self) -> (r: Mersenne61Mont)
        ensures
            r@ == 1,
    {
        Mersenne61Mont::from_int(1)
    }

    /// The folding challenge of every round: one.
    fn oracle_folding_challenge(&self, _idx: usize) -> (r: Mersenne61Mont)
        ensures
            r@ == 1,
    {
        Mersenne61Mont::from_int(1)
    }

    /// The queried leaf indices: the first leaf.
    fn oracle_query_list(&self) -> (r: Vec<usize>)
        ensures
            r@ == seq![0usize],
    {
        let mut v: Vec<usize> = Vec::new();
        v.push(0);
        assert(v@ =~= seq![0usize]);
        v
    }
}


/// The codeword that round `round` starts from: the combined codeword in the
/// first round, the previous folded codeword after it.
pub open spec fn round_start(prover: &VirgoProver, round: int) -> Seq<int> {
    if round == 0 {
        virgo_init(
            prover.u_view().values(),
            prover.h_view().unwrap().values(),
            prover.v_view().unwrap(),
            prover.evaluation_view().unwrap()@,
            prover.vic_view(),
            prover.cosets_view()[0],
        )
    } else {
        prover.foldings_view()[round - 1].values()
    }
}

/// The Virgo prover's state.
pub struct VirgoProver {
    total_round: usize,
    vector_interpolation_coset: Coset,
    fri_cosets: Vec<Coset>,
    function_h: Option<InterpolateValue>,
    function_u: InterpolateValue,
    interpolation_v: Option<Vec<Mersenne61Mont>>,
    poly_u: MultilinearPolynomial,
    polynomial: MultilinearPolynomial,
    foldings: Vec<InterpolateValue>,
    evaluation: Option<Mersenne61Mont>,
    final_poly: Option<MultilinearPolynomial>,
    step: usize,
}

/// The number of rounds of `step` foldings.
pub open spec fn rounds(total_round: nat, step: nat) -> nat {
    total_round / step
}

impl VirgoProver {
    /// The number of variables, which is the number of foldings.
    pub closed spec fn total_round_view(&self) -> nat {
        self.total_round as nat
    }

    /// The number of foldings per round.
    pub closed spec fn step_view(&self) -> nat {
        self.step as nat
    }

    /// The cosets of the codewords.
    pub closed spec fn cosets_view(&self) -> Seq<Coset> {
        self.fri_cosets@
    }

    /// The interpolation coset.
    pub closed spec fn vic_view(&self) -> Coset {
        self.vector_interpolation_coset
    }

    /// The committed first codeword.
    pub closed spec fn u_view(&self) -> InterpolateValue {
        self.function_u
    }

    /// The committed quotient codeword, once computed.
    pub closed spec fn h_view(&self) -> Option<InterpolateValue> {
        self.function_h
    }

    /// The codeword of the public vector, once computed.
    pub closed spec fn v_view(&self) -> Option<Seq<int>> {
        match self.interpolation_v {
            Some(v) => Some(views(v@)),
            None => None,
        }
    }

    /// The polynomial moved onto the interpolation coset.
    pub closed spec fn poly_u_view(&self) -> MultilinearPolynomial {
        self.poly_u
    }

    /// The committed polynomial.
    pub closed spec fn polynomial_view(&self) -> MultilinearPolynomial {
        self.polynomial
    }

    /// The folded codewords so far.
    pub closed spec fn foldings_view(&self) -> Seq<InterpolateValue> {
        self.foldings@
    }

    /// The evaluation at the opening point, once computed.
    pub closed spec fn evaluation_view(&self) -> Option<Mersenne61Mont> {
        self.evaluation
    }

    /// The final polynomial, once computed.
    pub closed spec fn final_poly_view(&self) -> Option<MultilinearPolynomial> {
        self.final_poly
    }

    /// The state is consistent: the shape of the run, the sizes of all
    /// codewords, and the commitments to them.
    pub closed spec fn wf(&self) -> bool {
        let f0 = self.fri_cosets@[0];
        let leaf = pow2(self.step as nat);
        &&& virgo_shape(self.total_round as nat, self.step as nat, self.fri_cosets@)
        &&& self.function_u.wf()
        &&& self.function_u.leaf_count() == leaf
        &&& self.function_u.values().len() == f0.size_view()
        &&& (self.function_h matches Some(h) ==> h.wf() && h.leaf_count() == leaf
            && h.values().len() == f0.size_view())
        &&& (self.interpolation_v matches Some(v) ==> v@.len() == f0.size_view())
        &&& self.polynomial.wf()
        &&& self.poly_u.wf()
        &&& self.poly_u.evals_view().len() == self.vector_interpolation_coset.size_view()
        &&& pow2(self.polynomial.num_vars_view()) == self.vector_interpolation_coset.size_view()
        &&& 0 < self.vector_interpolation_coset.size_view() < p()
        &&& self.foldings@.len() <= rounds(self.total_round as nat, self.step as nat)
        &&& forall|i: int|
            0 <= i < self.foldings@.len() ==> #[trigger] self.foldings@[i].wf()
                && self.foldings@[i].leaf_count() == leaf && self.foldings@[i].values().len()
                == self.fri_cosets@[(i + 1) * self.step].size_view()
        &&& (self.final_poly matches Some(f) ==> f.wf())
    }

    /// The prover for `polynomial`: its values are moved onto the
    /// interpolation coset and evaluated on the first coset, whose codeword is
    /// committed with `2^step` entries per leaf.
    pub fn new(
        total_round: usize,
        fri_cosets: &Vec<Coset>,
        vector_interpolation_coset: &Coset,
        polynomial: MultilinearPolynomial,
        step: usize,
    ) -> (r: Self)
        requires
            virgo_shape(total_round as nat, step as nat, fri_cosets@),
            polynomial.wf(),
            vector_interpolation_coset.size_view() == pow2(polynomial.num_vars_view()),
            vector_interpolation_coset.size_view() < p(),
        ensures
            r.wf(),
            r.total_round_view() == total_round,
            r.step_view() == step,
            r.cosets_view() == fri_cosets@,
            r.vic_view() == *vector_interpolation_coset,
            r.polynomial_view() == polynomial,
            r.poly_u_view().evals_view() == idft(
                polynomial.evals_view(),
                vector_interpolation_coset.shift_view(),
                vector_interpolation_coset.generator_view(),
                vector_interpolation_coset.size_view(),
            ),
            r.u_view().values() == dft(
                r.poly_u_view().evals_view(),
                fri_cosets@[0].shift_view(),
                fri_cosets@[0].generator_view(),
                fri_cosets@[0].size_view(),
            ),
            r.h_view() is None,
            r.v_view() is None,
            r.foldings_view().len() == 0,
            r.evaluation_view() is None,
            r.final_poly_view() is None,
    {
        let ghost m = log2_of(fri_cosets@[0].size_view() as int);
        proof {
            lemma_shape_facts(total_round as nat, step as nat, fri_cosets@);
            lemma_pow2_pos(polynomial.num_vars_view());
            lemma_pow2_div(m, step as nat);
            lemma_pow2_pos(m);
            lemma_pow2_pos(step as nat);
            if step < m {
                vstd::arithmetic::power2::lemma_pow2_strictly_increases(step as nat, m);
            }
        }
        let interpolation = vector_interpolation_coset.ifft(polynomial.coefficients());
        let leaf = pow2_of(step);
        let code = fri_cosets[0].fft(copy_elems(&interpolation));
        proof {
            assert(views(code@).len() == code@.len());
            assert(code@.len() == pow2(m));
            assert(is_power_of_two((code.len() / leaf) as int)) by {
                assert(pow2((m - step) as nat) == code.len() / leaf);
            }
        }
        let function_u = InterpolateValue::new(code, leaf);
        assert(views(interpolation@).len() == interpolation@.len());
        assert(is_power_of_two(interpolation.len() as int)) by {
            assert(pow2(polynomial.num_vars_view()) == interpolation.len());
        }
        let poly_u = MultilinearPolynomial::new(interpolation);
        VirgoProver {
            total_round,
            vector_interpolation_coset: *vector_interpolation_coset,
            fri_cosets: copy_cosets(fri_cosets),
            function_h: None,
            function_u,
            interpolation_v: None,
            poly_u,
            polynomial,
            foldings: Vec::new(),
            evaluation: None,
            final_poly: None,
            step,
        }
    }

    /// The root of the first codeword.
    pub fn commit_first_polynomial(&self) -> (r: [u8; 32])
        requires
            self.wf(),
        ensures
            r@ == iv_root(self.u_view()),
    {
        self.function_u.commit()
    }


    /// Both provers share their parameters, the polynomial and the first codeword.
    pub open spec fn same_params(&self, other: &Self) -> bool {
        &&& self.total_round_view() == other.total_round_view()
        &&& self.step_view() == other.step_view()
        &&& self.cosets_view() == other.cosets_view()
        &&& self.vic_view() == other.vic_view()
        &&& self.u_view() == other.u_view()
        &&& self.poly_u_view() == other.poly_u_view()
        &&& self.polynomial_view() == other.polynomial_view()
    }

    /// Commits to the quotient codeword for the opening point and computes
    /// the evaluation there; the verifier receives the quotient's root and the
    /// evaluation.
    #[verifier::spinoff_prover]
    #[verifier::rlimit(40)]
    pub fn commit_functions(&mut self, verifier: &mut VirgoVerifier, open_point: &Vec<Mersenne61Mont>)
        requires
            old(self).wf(),
            old(verifier).wf(),
            open_point.len() == old(self).total_round_view(),
            pow2(old(self).total_round_view()) == old(self).vic_view().size_view(),
        ensures
            final(self).wf(),
            final(self).same_params(&*old(self)),
            final(self).foldings_view() == old(self).foldings_view(),
            final(self).final_poly_view() == old(self).final_poly_view(),
            ({
                let vic = old(self).vic_view();
                let f0 = old(self).cosets_view()[0];
                let vcoef = idft(tensor(views(open_point@)), vic.shift_view(), vic.generator_view(), vic.size_view());
                &&& final(self).v_view() == Some(dft(vcoef, f0.shift_view(), f0.generator_view(), f0.size_view()))
                &&& final(self).h_view() is Some
                &&& final(self).h_view().unwrap().values() == dft(
                    pointwise(old(self).poly_u_view().evals_view(), vcoef),
                    f0.shift_view(),
                    f0.generator_view(),
                    f0.size_view(),
                )
                &&& final(verifier).h_root_view() is Some
                &&& final(verifier).h_root_view().unwrap().merkle_root@ == iv_root(final(self).h_view().unwrap())
                &&& final(verifier).h_root_view().unwrap().leave_number == old(verifier).cosets_view()[0].size_view()
                    / pow2(old(verifier).step_view())
            }),
            final(self).evaluation_view() is Some,
            final(self).evaluation_view().unwrap()@ == old(self).polynomial_view().evals_view()[ones_index(
                views(open_point@),
            )],
            final(verifier).evaluation_view() == final(self).evaluation_view(),
            final(verifier).same_setup(&*old(verifier)),
            final(verifier).folding_roots_view() == old(verifier).folding_roots_view(),
            final(verifier).final_poly_view() == old(verifier).final_poly_view(),
            final(verifier).open_point_view() == old(verifier).open_point_view(),
            final(verifier).wf(),
    {
        let ghost pts = views(open_point@);
        let ghost n = self.total_round as nat;
        proof {
            lemma_shape_facts(self.total_round as nat, self.step as nat, self.fri_cosets@);
            self.vector_interpolation_coset.lemma_size_bound();
            crate::merkle_tree::lemma_log2_of(self.vector_interpolation_coset.size_view() as int, n);
            crate::merkle_tree::lemma_log2_of(
                self.vector_interpolation_coset.size_view() as int,
                self.polynomial.num_vars_view(),
            );
            lemma2_to64();
        }
        let mut public_vector: Vec<Mersenne61Mont> = Vec::new();
        public_vector.push(Mersenne61Mont::from_int(1));
        assert(views(public_vector@) =~= tensor(pts.subrange(0, 0)));
        let mut r: usize = 0;
        while r < open_point.len()
            invariant
                pts == views(open_point@),
                open_point.len() == n,
                pow2(n) <= usize::MAX,
                r <= n,
                public_vector@.len() == pow2(r as nat),
                views(public_vector@) == tensor(pts.subrange(0, r as int)),
            decreases n - r,
        {
            let x = open_point[r];
            let len = public_vector.len();
            let ghost t = views(public_vector@);
            proof {
                vstd::arithmetic::power2::lemma_pow2_unfold((r + 1) as nat);
                if r + 1 < n {
                    vstd::arithmetic::power2::lemma_pow2_strictly_increases((r + 1) as nat, n);
                }
            }
            let mut j: usize = 0;
            while j < len
                invariant
                    len == t.len(),
                    2 * len <= usize::MAX,
                    j <= len,
                    public_vector@.len() == len + j,
                    views(public_vector@) == t + Seq::new(j as nat, |q: int| fmul(t[q], x@)),
                decreases len - j,
            {
                let ghost before = views(public_vector@);
                let val = public_vector[j].mul(x);
                assert(before[j as int] == t[j as int]);
                public_vector.push(val);
                assert(views(public_vector@) =~= before.push(val@));
                assert(views(public_vector@) =~= t + Seq::new((j + 1) as nat, |q: int| fmul(t[q], x@)));
                j = j + 1;
            }
            let ghost sub = pts.subrange(0, r + 1);
            assert(sub.drop_last() =~= pts.subrange(0, r as int));
            assert(sub.last() == x@);
            r = r + 1;
        }
        assert(pts.subrange(0, n as int) =~= pts);
        let vic = self.vector_interpolation_coset;
        let f0 = self.fri_cosets[0];
        let v_coeffs = vic.ifft(public_vector);
        assert(views(v_coeffs@).len() == v_coeffs@.len());
        assert(is_power_of_two(v_coeffs.len() as int)) by {
            assert(pow2(n) == v_coeffs.len());
        }
        let poly_v = MultilinearPolynomial::new(v_coeffs);
        let h = mult_poly(&self.poly_u, &poly_v).over_vanish_polynomial(&VanishingPolynomial::new(&vic));
        let ghost vcoef = idft(tensor(pts), vic.shift_view(), vic.generator_view(), vic.size_view());
        assert(h.evals_view() =~= pointwise(self.poly_u.evals_view(), vcoef));
        let leaf = pow2_of(self.step);
        let h_code = f0.fft(h.coefficients());
        let ghost m = log2_of(f0.size_view() as int);
        proof {
            lemma_pow2_div(m, self.step as nat);
            lemma_pow2_pos(self.step as nat);
            assert(views(h_code@).len() == h_code@.len());
        }
        assert(is_power_of_two((h_code.len() / leaf) as int)) by {
            assert(pow2((m - self.step) as nat) == h_code.len() / leaf);
        }
        let function_h = InterpolateValue::new(h_code, leaf);
        verifier.set_h_root(function_h.commit());
        self.function_h = Some(function_h);
        let v_code = f0.fft(poly_v.coefficients());
        assert(views(v_code@).len() == v_code@.len());
        self.interpolation_v = Some(v_code);
        let evaluation = self.polynomial.evaluate_poly(open_point.as_slice());
        self.evaluation = Some(evaluation);
        verifier.set_evaluation(evaluation);
    }

    /// Sends the roots of the folded codewords and the final polynomial to the verifier.
    pub fn commit_foldings(&self, verifier: &mut VirgoVerifier)
        requires
            self.wf(),
            self.final_poly_view() is Some,
        ensures
            final(verifier).folding_roots_view().len() == old(verifier).folding_roots_view().len()
                + self.foldings_view().len(),
            final(verifier).folding_roots_view().subrange(0, old(verifier).folding_roots_view().len() as int)
                == old(verifier).folding_roots_view(),
            forall|i: int|
                0 <= i < self.foldings_view().len() ==> {
                    let fr = #[trigger] final(verifier).folding_roots_view()[old(verifier).folding_roots_view().len() + i];
                    &&& fr.leave_number == pow2(self.foldings_view()[i].depth())
                    &&& fr.merkle_root@ == iv_root(self.foldings_view()[i])
                },
            final(verifier).final_poly_view() is Some,
            same_poly(final(verifier).final_poly_view().unwrap(), self.final_poly_view().unwrap()),
            final(verifier).same_setup(&*old(verifier)),
            final(verifier).h_root_view() == old(verifier).h_root_view(),
            final(verifier).evaluation_view() == old(verifier).evaluation_view(),
            final(verifier).open_point_view() == old(verifier).open_point_view(),
            old(verifier).wf() ==> final(verifier).wf(),
    {
        let ghost base = verifier.folding_roots_view();
        let mut i: usize = 0;
        while i < self.foldings.len()
            invariant
                self.wf(),
                i <= self.foldings@.len(),
                verifier.folding_roots_view().len() == base.len() + i,
                verifier.folding_roots_view().subrange(0, base.len() as int) == base,
                forall|k: int|
                    0 <= k < i ==> {
                        let fr = #[trigger] verifier.folding_roots_view()[base.len() + k];
                        &&& fr.leave_number == pow2(self.foldings@[k].depth())
                        &&& fr.merkle_root@ == iv_root(self.foldings@[k])
                    },
                verifier.final_poly_view() == old(verifier).final_poly_view(),
                verifier.same_setup(&*old(verifier)),
                verifier.h_root_view() == old(verifier).h_root_view(),
                verifier.evaluation_view() == old(verifier).evaluation_view(),
                verifier.open_point_view() == old(verifier).open_point_view(),
                old(verifier).wf() ==> verifier.wf(),
            decreases self.foldings@.len() - i,
        {
            let folding = &self.foldings[i];
            let ghost before = verifier.folding_roots_view();
            verifier.receive_folding_root(folding.leave_num(), folding.commit());
            assert(verifier.folding_roots_view().subrange(0, base.len() as int) =~= base) by {
                assert(verifier.folding_roots_view().drop_last() == before);
                assert forall|q: int| 0 <= q < base.len() implies verifier.folding_roots_view()[q] == base[q] by {
                    assert(before.subrange(0, base.len() as int)[q] == base[q]);
                }
            }
            assert forall|k: int| 0 <= k < i + 1 implies {
                let fr = #[trigger] verifier.folding_roots_view()[base.len() + k];
                &&& fr.leave_number == pow2(self.foldings@[k].depth())
                &&& fr.merkle_root@ == iv_root(self.foldings@[k])
            } by {
                if k < i {
                    assert(verifier.folding_roots_view()[base.len() + k] == before[base.len() + k]) by {
                        assert(verifier.folding_roots_view().drop_last()[base.len() + k] == before[base.len() + k]);
                    }
                }
            }
            i = i + 1;
        }
        match &self.final_poly {
            Some(fp) => {
                verifier.set_final_poly(fp.copy_poly());
            },
            None => {},
        }
    }

    /// The combined codeword on the first coset: the first codeword, plus the
    /// quotient codeword, plus the check of the sum over the interpolation
    /// coset divided by the point.
    fn initial_interpolation(&self) -> (r: Vec<Mersenne61Mont>)
        requires
            self.wf(),
            self.h_view() is Some,
            self.v_view() is Some,
            self.evaluation_view() is Some,
        ensures
            views(r@) == virgo_init(
                self.u_view().values(),
                self.h_view().unwrap().values(),
                self.v_view().unwrap(),
                self.evaluation_view().unwrap()@,
                self.vic_view(),
                self.cosets_view()[0],
            ),
    {
        let rlc = self.oracle_rlc();
        let u = self.function_u.value();
        let h = match &self.function_h {
            Some(fh) => fh.value(),
            None => {
                return Vec::new();
            },
        };
        let v = match &self.interpolation_v {
            Some(iv) => iv,
            None => {
                return Vec::new();
            },
        };
        let e = match self.evaluation {
            Some(x) => x,
            None => {
                return Vec::new();
            },
        };
        let f0 = self.fri_cosets[0];
        let size = f0.size();
        let ghost uu = views(u@);
        let ghost hh = views(h@);
        let ghost vv = views(v@);
        let mut res = copy_elems(u);
        let mut acc = rlc;
        let mut i: usize = 0;
        while i < size
            invariant
                size == f0.size_view(),
                uu == views(u@),
                hh == views(h@),
                uu.len() == size,
                hh.len() == size,
                acc@ == 1,
                i <= size,
                res@.len() == uu.len(),
                forall|k: int| 0 <= k < uu.len() ==> #[trigger] res@[k]@ == (if k < i {
                    fadd(uu[k], fmul(1, hh[k]))
                } else {
                    uu[k]
                }),
            decreases size - i,
        {
            let nv = res[i].add(acc.mul(h[i]));
            res.set(i, nv);
            i = i + 1;
        }
        acc = acc.mul(rlc);
        let vanish_size = Mersenne61Mont::from_int(self.vector_interpolation_coset.size() as u64);
        let vanishing = VanishingPolynomial::new(&self.vector_interpolation_coset);
        let ghost vic = self.vector_interpolation_coset;
        let mut i: usize = 0;
        while i < size
            invariant
                size == f0.size_view(),
                uu == views(u@),
                hh == views(h@),
                vv == views(v@),
                uu.len() == size,
                hh.len() == size,
                vv.len() == size,
                acc@ == 1,
                vanish_size@ == vic.size_view() as int % p(),
                vanishing.degree_view() == vic.size_view(),
                vanishing.shift_pow_view() == fpow(vic.shift_view(), vic.size_view()),
                i <= size,
                res@.len() == uu.len(),
                forall|k: int| 0 <= k < uu.len() ==> #[trigger] res@[k]@ == (if k < i {
                    virgo_init(uu, hh, vv, e@, vic, f0)[k]
                } else {
                    fadd(uu[k], fmul(1, hh[k]))
                }),
            decreases size - i,
        {
            let x = f0.element_at(i);
            let x_inv = f0.element_inv_at(i);
            let vanish = vanishing.evaluation_at(x);
            let t = u[i].mul(v[i]).mul(vanish_size).sub(vanish.mul(h[i]).mul(vanish_size)).sub(e);
            let nv = res[i].add(acc.mul(t).mul(x_inv));
            res.set(i, nv);
            i = i + 1;
        }
        assert(views(res@) =~= virgo_init(uu, hh, vv, e@, vic, f0));
        res
    }

    /// The codeword of the next round: the combined codeword in the first
    /// round, the last folded codeword after it, folded `step` times with the
    /// round's challenges.
    fn evaluation_next_domain(&self, round: usize, challenge: Vec<Mersenne61Mont>) -> (r: Vec<
        Mersenne61Mont,
    >)
        requires
            self.wf(),
            challenge.len() >= self.step_view(),
            round < rounds(self.total_round_view(), self.step_view()),
            round == 0 ==> self.h_view() is Some && self.v_view() is Some && self.evaluation_view() is Some,
            round > 0 ==> self.foldings_view().len() == round,
        ensures
            views(r@) == virgo_folds(
                round_start(self, round as int),
                views(challenge@),
                self.cosets_view(),
                round * self.step_view(),
                self.step_view(),
            ),
            r@.len() == self.cosets_view()[(round + 1) * self.step_view()].size_view(),
    {
        let ghost m = log2_of(self.fri_cosets@[0].size_view() as int);
        let ghost cs = views(challenge@);
        proof {
            lemma_shape_facts(self.total_round as nat, self.step as nat, self.fri_cosets@);
            vstd::arithmetic::mul::lemma_mul_inequality(round as int + 1, rounds(self.total_round as nat, self.step as nat) as int, self.step as int);
            vstd::arithmetic::mul::lemma_mul_is_distributive_add_other_way(self.step as int, round as int, 1);
        }
        let mut function = if round == 0 {
            self.initial_interpolation()
        } else {
            let last = self.foldings.len() - 1;
            copy_elems(self.foldings[last].value())
        };
        let base = round * self.step;
        let clen = self.fri_cosets.len();
        let ghost start = round_start(self, round as int);
        assert(views(function@) == start);
        assert(views(function@).len() == function@.len());
        if round == 0 {
            assert(start.len() == self.function_u.values().len());
        } else {
            assert(self.foldings@[round - 1].wf());
            assert(start.len() == self.fri_cosets@[round * self.step].size_view());
        }
        let mut j: usize = 0;
        while j < self.step
            invariant
                self.wf(),
                clen == self.fri_cosets@.len(),
                base == round * self.step,
                base + self.step < self.fri_cosets@.len(),
                halving(self.fri_cosets@, m),
                challenge.len() >= self.step,
                cs == views(challenge@),
                j <= self.step,
                function@.len() == self.fri_cosets@[base + j].size_view(),
                views(function@) == virgo_folds(start, cs, self.fri_cosets@, base as int, j as nat),
            decreases self.step - j,
        {
            let coset = self.fri_cosets[base + j];
            let len = coset.size();
            proof {
                vstd::arithmetic::power2::lemma_pow2_unfold((m - (base + j)) as nat);
                assert(self.fri_cosets@[base + j + 1].size_view() == pow2((m - (base + j + 1)) as nat));
            }
            let half = len / 2;
            let ghost f = views(function@);
            let mut tmp: Vec<Mersenne61Mont> = Vec::new();
            let mut i: usize = 0;
            while i < half
                invariant
                    half == len / 2,
                    len == coset.size_view(),
                    function@.len() == len,
                    f == views(function@),
                    j < challenge.len(),
                    cs == views(challenge@),
                    i <= half,
                    views(tmp@) == virgo_fold(f, cs[j as int], coset).subrange(0, i as int),
                decreases half - i,
            {
                let x = function[i];
                let nx = function[i + half];
                let new_val = x.add(nx).add(challenge[j].mul(x.sub(nx)).mul(coset.element_inv_at(i)));
                let ghost before = views(tmp@);
                tmp.push(new_val);
                assert(views(tmp@) =~= before.push(new_val@));
                assert(views(tmp@) =~= virgo_fold(f, cs[j as int], coset).subrange(0, i + 1));
                i = i + 1;
            }
            assert(views(tmp@) =~= virgo_fold(f, cs[j as int], coset));
            function = tmp;
            j = j + 1;
        }
        function
    }

    /// Folds round after round with `step` challenges per round, committing
    /// every folded codeword; after the last round the final polynomial is
    /// the inverse transform of the last codeword on its coset.
    #[verifier::spinoff_prover]
    #[verifier::rlimit(40)]
    pub fn prove(&mut self, challenges: &Vec<Mersenne61Mont>)
        requires
            old(self).wf(),
            old(self).h_view() is Some,
            old(self).v_view() is Some,
            old(self).evaluation_view() is Some,
            old(self).foldings_view().len() == 0,
            challenges.len() >= rounds(old(self).total_round_view(), old(self).step_view()) * old(self).step_view(),
        ensures
            final(self).wf(),
            final(self).same_params(&*old(self)),
            final(self).h_view() == old(self).h_view(),
            final(self).v_view() == old(self).v_view(),
            final(self).evaluation_view() == old(self).evaluation_view(),
            final(self).foldings_view().len() == rounds(old(self).total_round_view(), old(self).step_view()),
            forall|i: int|
                0 <= i < rounds(old(self).total_round_view(), old(self).step_view()) ==> (
                #[trigger] final(self).foldings_view()[i]).values() == virgo_folds(
                    round_start(final(self), i),
                    views(challenges@).subrange(i * old(self).step_view(), (i + 1) * old(self).step_view()),
                    old(self).cosets_view(),
                    i * old(self).step_view(),
                    old(self).step_view(),
                ),
            rounds(old(self).total_round_view(), old(self).step_view()) == 0 ==> final(self).final_poly_view()
                == old(self).final_poly_view(),
            rounds(old(self).total_round_view(), old(self).step_view()) > 0 ==> ({
                let r = rounds(old(self).total_round_view(), old(self).step_view());
                let c = old(self).cosets_view()[(r * old(self).step_view()) as int];
                &&& final(self).final_poly_view() is Some
                &&& final(self).final_poly_view().unwrap().evals_view() == idft(
                    final(self).foldings_view()[r - 1].values(),
                    c.shift_view(),
                    c.generator_view(),
                    c.size_view(),
                )
            }),
    {
        let ghost m = log2_of(self.fri_cosets@[0].size_view() as int);
        let ghost cs = views(challenges@);
        let step = self.step;
        let r = self.total_round / step;
        proof {
            lemma_shape_facts(self.total_round as nat, self.step as nat, self.fri_cosets@);
        }
        let leaf = pow2_of(step);
        let mut i: usize = 0;
        while i < r
            invariant
                self.wf(),
                self.same_params(&*old(self)),
                self.h_view() == old(self).h_view(),
                self.v_view() == old(self).v_view(),
                self.evaluation_view() == old(self).evaluation_view(),
                self.h_view() is Some,
                self.v_view() is Some,
                self.evaluation_view() is Some,
                step == self.step,
                r == rounds(self.total_round as nat, step as nat),
                leaf == pow2(step as nat),
                m == log2_of(self.fri_cosets@[0].size_view() as int),
                cs == views(challenges@),
                challenges.len() >= r * step,
                i <= r,
                self.foldings@.len() == i,
                forall|k: int|
                    0 <= k < i ==> (#[trigger] self.foldings@[k]).values() == virgo_folds(
                        round_start(self, k),
                        cs.subrange(k * step, (k + 1) * step),
                        self.fri_cosets@,
                        k * step,
                        step as nat,
                    ),
                i == 0 ==> self.final_poly == old(self).final_poly,
                i > 0 ==> self.final_poly matches Some(f) && f.evals_view() == idft(
                    self.foldings@[i - 1].values(),
                    self.fri_cosets@[i * step].shift_view(),
                    self.fri_cosets@[i * step].generator_view(),
                    self.fri_cosets@[i * step].size_view(),
                ) || (i < r),
            decreases r - i,
        {
            proof {
                vstd::arithmetic::mul::lemma_mul_inequality(i as int + 1, r as int, step as int);
                vstd::arithmetic::mul::lemma_mul_is_distributive_add_other_way(step as int, i as int, 1);
            }
            let mut challenge: Vec<Mersenne61Mont> = Vec::new();
            let mut j: usize = 0;
            while j < step
                invariant
                    (i + 1) * step <= r * step,
                    (i + 1) * step == i * step + step,
                    challenges.len() >= r * step,
                    cs == views(challenges@),
                    j <= step,
                    views(challenge@) == cs.subrange(i * step, i * step + j),
                decreases step - j,
            {
                let ghost before = views(challenge@);
                let c = challenges[i * step + j];
                challenge.push(c);
                assert(views(challenge@) =~= before.push(c@));
                assert(views(challenge@) =~= cs.subrange(i * step, i * step + j + 1));
                j = j + 1;
            }
            let ghost start_i = round_start(self, i as int);
            let next_eval = self.evaluation_next_domain(i, challenge);
            let ghost m2 = (m - (i + 1) * step) as nat;
            proof {
                vstd::arithmetic::mul::lemma_mul_inequality(i as int + 2, r as int + 1, step as int);
                vstd::arithmetic::mul::lemma_mul_is_distributive_add_other_way(step as int, i as int + 1, 1);
                assert(self.fri_cosets@[(i + 1) * step].size_view() == pow2(m2));
                lemma_pow2_div(m2, step as nat);
                lemma_pow2_pos(step as nat);
                lemma_pow2_pos(m2);
            }
            assert(is_power_of_two((next_eval.len() / leaf) as int)) by {
                assert(pow2((m2 - step) as nat) == next_eval.len() / leaf);
            }
            let ghost old_foldings = self.foldings@;
            let folding = InterpolateValue::new(copy_elems(&next_eval), leaf);
            self.foldings.push(folding);
            assert(round_start(self, i as int) == start_i) by {
                if i > 0 {
                    assert(self.foldings@[i - 1] == old_foldings[i - 1]);
                }
            }
            assert forall|k: int|
                0 <= k < i + 1 implies (#[trigger] self.foldings@[k]).values() == virgo_folds(
                    round_start(self, k),
                    cs.subrange(k * step, (k + 1) * step),
                    self.fri_cosets@,
                    k * step,
                    step as nat,
                ) by {
                if k < i {
                    assert(self.foldings@[k] == old_foldings[k]);
                    if k > 0 {
                        assert(self.foldings@[k - 1] == old_foldings[k - 1]);
                    }
                } else {
                    vstd::arithmetic::mul::lemma_mul_is_distributive_add_other_way(step as int, k, 1);
                }
            }
            if i + 1 == r {
                let c = self.fri_cosets[(i + 1) * step];
                proof {
                    c.lemma_size_bound();
                    assert(views(next_eval@).len() == next_eval@.len());
                    if m2 < m {
                        vstd::arithmetic::power2::lemma_pow2_strictly_increases(m2, m);
                    }
                }
                let coeffs = c.ifft(next_eval);
                assert(views(coeffs@).len() == coeffs@.len());
                assert(is_power_of_two(coeffs.len() as int)) by {
                    assert(pow2(m2) == coeffs.len());
                }
                self.final_poly = Some(MultilinearPolynomial::new(coeffs));
            }
            i = i + 1;
        }
    }

    /// Opens the first leaf of every codeword: of the first and the quotient
    /// codeword in the first round, with the public vector's codeword at the
    /// same positions, and of the folded codeword of every later round.
    #[verifier::spinoff_prover]
    #[verifier::rlimit(40)]
    pub fn query(&self) -> (r: (Vec<QueryResult>, Vec<QueryResult>, HashMap<usize, Mersenne61Mont>))
        requires
            self.wf(),
            self.h_view() is Some,
            rounds(self.total_round_view(), self.step_view()) >= 1,
            self.foldings_view().len() + 1 >= rounds(self.total_round_view(), self.step_view()),
        ensures
            r.1@.len() == 2,
            query_of(r.1@[0], self.u_view(), seq![0usize]),
            query_of(r.1@[1], self.h_view().unwrap(), seq![0usize]),
            r.0@.len() == rounds(self.total_round_view(), self.step_view()) - 1,
            forall|i: int|
                0 <= i < r.0@.len() ==> query_of(#[trigger] r.0@[i], self.foldings_view()[i], seq![0usize]),
            ({
                let len0 = self.cosets_view()[0].size_view() / pow2(self.step_view());
                match self.v_view() {
                    Some(v) => {
                        &&& r.2@.dom() == Set::new(
                            |p: usize| exists|k: int| 0 <= k < pow2(self.step_view()) && p == #[trigger] (k * len0),
                        )
                        &&& forall|p: usize| #[trigger] r.2@.contains_key(p) ==> r.2@[p]@ == v[p as int]
                    },
                    None => r.2@.dom().len() == 0,
                }
            }),
    {
        let step = self.step;
        let r = self.total_round / step;
        proof {
            lemma_shape_facts(self.total_round as nat, self.step as nat, self.fri_cosets@);
        }
        let leaf_size = pow2_of(step);
        let mut leaf_indices = self.oracle_query_list();
        let mut folding_results: Vec<QueryResult> = Vec::new();
        let mut function_results: Vec<QueryResult> = Vec::new();
        let mut v_value: HashMap<usize, Mersenne61Mont> = HashMap::new();
        let ghost len0 = self.fri_cosets@[0].size_view() / pow2(step as nat);
        let clen = self.fri_cosets.len();
        let mut i: usize = 0;
        while i < r
            invariant
                self.wf(),
                clen == self.fri_cosets@.len(),
                self.h_view() is Some,
                step == self.step,
                r == rounds(self.total_round as nat, step as nat),
                leaf_size == pow2(step as nat),
                self.foldings@.len() + 1 >= r,
                i <= r,
                leaf_indices@ == seq![0usize],
                len0 == self.fri_cosets@[0].size_view() / pow2(step as nat),
                i == 0 ==> function_results@.len() == 0 && v_value@.dom().len() == 0,
                i > 0 ==> function_results@.len() == 2 && query_of(function_results@[0], self.u_view(), seq![0usize])
                    && query_of(function_results@[1], self.h_view().unwrap(), seq![0usize]),
                i > 0 ==> match self.v_view() {
                    Some(v) => {
                        &&& v_value@.dom() == Set::new(
                            |p: usize| exists|k: int| 0 <= k < pow2(step as nat) && p == #[trigger] (k * len0),
                        )
                        &&& forall|p: usize| #[trigger] v_value@.contains_key(p) ==> v_value@[p]@ == v[p as int]
                    },
                    None => v_value@.dom().len() == 0,
                },
                folding_results@.len() == if i == 0 { 0 } else { i - 1 },
                forall|k: int|
                    0 <= k < folding_results@.len() ==> query_of(#[trigger] folding_results@[k], self.foldings@[k], seq![0usize]),
            decreases r - i,
        {
            proof {
                lemma_shape_facts(self.total_round as nat, self.step as nat, self.fri_cosets@);
                vstd::arithmetic::mul::lemma_mul_inequality(i as int, r as int, step as int);
                lemma_pow2_pos(step as nat);
            }
            let ghost m = log2_of(self.fri_cosets@[0].size_view() as int);
            let c = self.fri_cosets[i * step];
            let len = c.size() / leaf_size;
            proof {
                vstd::arithmetic::mul::lemma_mul_inequality(i as int + 1, r as int + 1, step as int);
                vstd::arithmetic::mul::lemma_mul_is_distributive_add_other_way(step as int, i as int, 1);
                lemma_pow2_div((m - i * step) as nat, step as nat);
                lemma_pow2_pos((m - i * step - step) as nat);
                assert(c.size_view() == pow2((m - i * step) as nat));
                vstd::arithmetic::div_mod::lemma_fundamental_div_mod(c.size_view() as int, leaf_size as int);
                assert(len == pow2((m - i * step - step) as nat));
                if i > 0 {
                    assert(self.foldings@[i - 1].wf());
                    assert(self.foldings@[i - 1].values().len() == c.size_view());
                }
            }
            leaf_indices = fold_indices(&leaf_indices, len);
            proof {
                lemma_single_zero(leaf_indices@, len as int);
            }
            if i == 0 {
                function_results.push(self.function_u.query(&leaf_indices));
                match &self.function_h {
                    Some(fh) => {
                        function_results.push(fh.query(&leaf_indices));
                    },
                    None => {},
                }
                match &self.interpolation_v {
                    Some(interpolation_v) => {
                        let vlen = interpolation_v.len();
                        assert(interpolation_v@.len() == self.fri_cosets@[0].size_view());
                        assert(i * step == 0);
                        assert(c.size_view() == self.fri_cosets@[0].size_view());
                        assert(len * leaf_size == vlen);
                        let mut k: usize = 0;
                        while k < leaf_size
                            invariant
                                k <= leaf_size,
                                len > 0,
                                vlen == interpolation_v@.len(),
                                len * leaf_size == interpolation_v@.len(),
                                len as int == len0,
                                self.v_view() == Some(views(interpolation_v@)),
                                v_value@.dom() == Set::new(
                                    |p: usize| exists|q: int| 0 <= q < k && p == #[trigger] (q * len0),
                                ),
                                forall|p: usize| #[trigger] v_value@.contains_key(p) ==> v_value@[p]@ == views(interpolation_v@)[p as int],
                            decreases leaf_size - k,
                        {
                            proof {
                                vstd::arithmetic::mul::lemma_mul_inequality(k as int + 1, leaf_size as int, len as int);
                                vstd::arithmetic::mul::lemma_mul_is_commutative(len as int, k as int);
                                vstd::arithmetic::mul::lemma_mul_is_commutative(len as int, leaf_size as int);
                                vstd::arithmetic::mul::lemma_mul_is_distributive_add_other_way(len as int, k as int, 1);
                            }
                            let pos = 0 + k * len;
                            v_value.insert(pos, interpolation_v[pos]);
                            assert(v_value@.dom() =~= Set::new(
                                |p: usize| exists|q: int| 0 <= q < k + 1 && p == #[trigger] (q * len0),
                            )) by {
                                assert forall|p: usize| #[trigger] v_value@.dom().contains(p) == Set::new(
                                    |p: usize| exists|q: int| 0 <= q < k + 1 && p == #[trigger] (q * len0),
                                ).contains(p) by {
                                    if p == pos {
                                        assert(p == k * len0);
                                    }
                                    if exists|q: int| 0 <= q < k + 1 && p == #[trigger] (q * len0) {
                                        let q = choose|q: int| 0 <= q < k + 1 && p == #[trigger] (q * len0);
                                        if q < k {
                                            assert(exists|q: int| 0 <= q < k && p == #[trigger] (q * len0));
                                        }
                                    }
                                }
                            }
                            k = k + 1;
                        }
                    },
                    None => {},
                }
            } else {
                let qr = self.foldings[i - 1].query(&leaf_indices);
                folding_results.push(qr);
            }
            i = i + 1;
        }
        (folding_results, function_results, v_value)
    }
    /// The combination scalar: one.
    fn oracle_rlc(&self) -> (r: Mersenne61Mont)
        ensures
            r@ == 1,
    {
        Mersenne61Mont::from_int(1)
    }

    /// The queried leaf indices: the first leaf.
    fn oracle_query_list(&self) -> (r: Vec<usize>)
        ensures
            r@ == seq![0usize],
    {
        let mut v: Vec<usize> = Vec::new();
        v.push(0);
        assert(v@ =~= seq![0usize]);
        v
    }
}

/// The root of the first codeword is fixed by the prover's constructor
/// inputs: two provers with the same cosets, interpolation coset, polynomial
/// and folding step, whose codewords are the polynomial's values moved onto
/// the interpolation coset and evaluated on the first coset (as the
/// constructor makes them, and every later step keeps them), commit to the
/// same root.
pub proof fn lemma_first_root_fixed(a: VirgoProver, b: VirgoProver)
    requires
        a.wf(),
        b.wf(),
        a.cosets_view() == b.cosets_view(),
        a.vic_view() == b.vic_view(),
        a.polynomial_view() == b.polynomial_view(),
        a.step_view() == b.step_view(),
        a.poly_u_view().evals_view() == idft(
            a.polynomial_view().evals_view(),
            a.vic_view().shift_view(),
            a.vic_view().generator_view(),
            a.vic_view().size_view(),
        ),
        b.poly_u_view().evals_view() == idft(
            b.polynomial_view().evals_view(),
            b.vic_view().shift_view(),
            b.vic_view().generator_view(),
            b.vic_view().size_view(),
        ),
        a.u_view().values() == dft(
            a.poly_u_view().evals_view(),
            a.cosets_view()[0].shift_view(),
            a.cosets_view()[0].generator_view(),
            a.cosets_view()[0].size_view(),
        ),
        b.u_view().values() == dft(
            b.poly_u_view().evals_view(),
            b.cosets_view()[0].shift_view(),
            b.cosets_view()[0].generator_view(),
            b.cosets_view()[0].size_view(),
        ),
    ensures
        iv_root(a.u_view()) == iv_root(b.u_view()),
{
    crate::interpolation::lemma_iv_root_determined(a.u_view(), b.u_view());
}

/// No step of the prover changes its first root: a prover that keeps the
/// parameters of another, as `commit_functions` and `prove` keep those of
/// the prover they start from, commits to the same root.
pub proof fn lemma_first_root_kept(a: VirgoProver, b: VirgoProver)
    requires
        b.same_params(&a),
    ensures
        iv_root(a.u_view()) == iv_root(b.u_view()),
{
}

} // verus!
