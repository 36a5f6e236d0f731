//! The Deepfold prover and verifier. The prover commits to the codeword of
//! the polynomial, folds it round by round with the oracle's challenges while
//! fixing the hypercube values variable by variable, and records deep
//! evaluation claims at the oracle's points; the verifier checks the claims
//! and the folding of the queried positions.
use crate::coset::{dft, idft, Coset};
use crate::deepfold::{
    canon, deep_fold, fix_first, fold_prefix, honest_else, lemma_deep_fold_complete, lemma_fold_prefix_compose,
    lemma_fold_prefix_eval, lemma_fold_prefix_shape, lemma_fold_prefix_same, ml_eval, shift_first, sumcheck_next_domain, Commit, DeepEval,
    Proof,
};
use crate::interpolation::{
    iv_root, leaf_pos, leaf_present, merkle_ok, opened_positions, query_of, InterpolateValue, QueryResult,
};
use crate::merkle_tree::{log2_of, MerkleTreeVerifier};
use crate::mersenne_61_mont::{
    fadd, finv, fmul, fpow, fsub, lemma_fpow_double, lemma_view_range, p, views, Mersenne61Mont,
};
use crate::multilinear::{fold_indices, lemma_sorted_unique, residues, strictly_sorted, MultilinearPolynomial};
use crate::util::{is_power_of_two, pow2_of};
use crate::virgo::CODE_RATE;
use crate::zeromorph_fri_v4::inv2;
use vstd::arithmetic::power2::{lemma2_to64, lemma_pow2_pos, lemma_pow2_unfold, pow2};
use vstd::prelude::*;

verus! {

broadcast use lemma_view_range;

/// The points and challenges the protocol draws: a deep point per round, a
/// folding challenge per round, and the queried positions.
#[derive(Clone, Debug)]
pub struct RandomOracle {
    pub deep: Vec<Mersenne61Mont>,
    pub folding_challenges: Vec<Mersenne61Mont>,
    pub query_list: Vec<usize>,
}

impl RandomOracle {
    /// Random points and challenges for `total_round` rounds and
    /// `query_num` queried positions.
    pub fn new(total_round: usize, query_num: usize) -> (r: Self)
        ensures
            r.deep@.len() == total_round,
            r.folding_challenges@.len() == total_round,
            r.query_list@.len() == query_num,
    {
        let mut deep: Vec<Mersenne61Mont> = Vec::new();
        let mut folding_challenges: Vec<Mersenne61Mont> = Vec::new();
        let mut i: usize = 0;
        while i < total_round
            invariant
                i <= total_round,
                deep@.len() == i,
                folding_challenges@.len() == i,
            decreases total_round - i,
        {
            deep.push(Mersenne61Mont::random_element());
            folding_challenges.push(Mersenne61Mont::random_element());
            i = i + 1;
        }
        let mut query_list: Vec<usize> = Vec::new();
        let mut q: usize = 0;
        while q < query_num
            invariant
                q <= query_num,
                query_list@.len() == q,
            decreases query_num - q,
        {
            query_list.push(Mersenne61Mont::random_element().as_canonical_u64() as usize);
            q = q + 1;
        }
        RandomOracle { deep, folding_challenges, query_list }
    }
}

/// The point `(d, d^2, d^4, ...)` of `len` coordinates.
pub open spec fn squares_chain(d: int, len: nat) -> Seq<int> {
    Seq::new(len, |k: int| fpow(d, pow2(k as nat)))
}

/// The point `(d, d^2, d^4, ...)` of `len` coordinates.
pub fn squares_point(d: Mersenne61Mont, len: usize) -> (r: Vec<Mersenne61Mont>)
    ensures
        views(r@) == squares_chain(d@, len as nat),
{
    let mut out: Vec<Mersenne61Mont> = Vec::new();
    let mut x = d;
    proof {
        lemma2_to64();
        assert(fpow(d@, 1) == fmul(d@, fpow(d@, 0)));
        vstd::arithmetic::div_mod::lemma_small_mod(d@ as nat, p() as nat);
    }
    let mut k: usize = 0;
    while k < len
        invariant
            k <= len,
            x@ == fpow(d@, pow2(k as nat)),
            views(out@) == squares_chain(d@, k as nat),
        decreases len - k,
    {
        let ghost before = views(out@);
        out.push(x);
        assert(views(out@) =~= before.push(x@));
        assert(views(out@) =~= squares_chain(d@, (k + 1) as nat));
        proof {
            lemma_fpow_double(d@, pow2(k as nat));
            lemma_pow2_unfold((k + 1) as nat);
            vstd::arithmetic::mul::lemma_mul_is_commutative(2, pow2(k as nat) as int);
        }
        x = x.mul(x);
        k = k + 1;
    }
    out
}

/// One folding of a codeword: entry `i` is `((f[i] + f[i + h]) + c (f[i] - f[i + h]) / x_i) / 2`.
pub open spec fn deep_code_fold(f: Seq<int>, c: int, co: Coset) -> Seq<int> {
    let half = co.size_view() / 2;
    Seq::new(
        half,
        |i: int|
            fmul(
                fadd(fadd(f[i], f[i + half]), fmul(fmul(c, fsub(f[i], f[i + half])), finv(co.elem(i as nat)))),
                inv2(),
            ),
    )
}

/// `j` foldings with the challenges `cs`, on the cosets from `start` on.
pub open spec fn deep_code_folds(f: Seq<int>, cs: Seq<int>, cosets: Seq<Coset>, start: int, j: nat) -> Seq<int>
    decreases j,
{
    if j == 0 {
        f
    } else {
        deep_code_fold(deep_code_folds(f, cs, cosets, start, (j - 1) as nat), cs[j - 1], cosets[start + j - 1])
    }
}

/// The number of foldings of round `round`: `step`, or what is left before
/// `total_round`.
pub open spec fn round_folds(total_round: nat, step: nat, round: nat) -> nat {
    if round * step + step <= total_round {
        step
    } else if round * step <= total_round {
        (total_round - round * step) as nat
    } else {
        0
    }
}

/// The cosets halve in size from the first one, of `2^(total_round + CODE_RATE)`
/// elements, and are long enough for every round.
pub open spec fn deep_shape(total_round: nat, step: nat, cosets: Seq<Coset>) -> bool {
    let m = (total_round + CODE_RATE) as nat;
    &&& step >= 1
    &&& total_round / step >= 1
    &&& m >= (total_round / step + 1) * step
    &&& cosets.len() > total_round
    &&& pow2(m) < p()
    &&& forall|k: int| 0 <= k < cosets.len() ==> #[trigger] cosets[k].size_view() == pow2((m - k) as nat)
}


/// A copy of a list of field elements.
fn copy_elems(v: &Vec<Mersenne61Mont>) -> (r: Vec<Mersenne61Mont>)
    ensures
        r@ == v@,
{
    let mut out: Vec<Mersenne61Mont> = Vec::new();
    for i in 0..v.len()
        invariant
            out@ == v@.subrange(0, i as int),
    {
        out.push(v[i]);
        assert(out@ =~= v@.subrange(0, i + 1));
    }
    assert(v@.subrange(0, v.len() as int) =~= v@);
    out
}

/// A copy of a list of positions.
fn copy_positions(v: &Vec<usize>) -> (r: Vec<usize>)
    ensures
        r@ == v@,
{
    let mut out: Vec<usize> = Vec::new();
    for i in 0..v.len()
        invariant
            out@ == v@.subrange(0, i as int),
    {
        out.push(v[i]);
        assert(out@ =~= v@.subrange(0, i + 1));
    }
    assert(v@.subrange(0, v.len() as int) =~= v@);
    out
}

/// A copy of a list of cosets.
fn copy_cosets(v: &Vec<Coset>) -> (r: Vec<Coset>)
    ensures
        r@ == v@,
{
    let mut out: Vec<Coset> = Vec::new();
    for i in 0..v.len()
        invariant
            out@ == v@.subrange(0, i as int),
    {
        out.push(v[i]);
        assert(out@ =~= v@.subrange(0, i + 1));
    }
    assert(v@.subrange(0, v.len() as int) =~= v@);
    out
}

/// A copy of the oracle.
fn copy_oracle(o: &RandomOracle) -> (r: RandomOracle)
    ensures
        r.deep@ == o.deep@,
        r.folding_challenges@ == o.folding_challenges@,
        r.query_list@ == o.query_list@,
{
    RandomOracle {
        deep: copy_elems(&o.deep),
        folding_challenges: copy_elems(&o.folding_challenges),
        query_list: copy_positions(&o.query_list),
    }
}

/// `2^m / 2^s` is `2^(m - s)`, and `2^s` divides `2^m`.
proof fn lemma_pow2_div(m: nat, s: nat)
    requires
        s <= m,
    ensures
        pow2(m) % pow2(s) == 0,
        pow2(m) / pow2(s) == pow2((m - s) as nat),
{
    vstd::arithmetic::power2::lemma_pow2_adds(s, (m - s) as nat);
    lemma_pow2_pos(s);
    vstd::arithmetic::div_mod::lemma_div_multiples_vanish(pow2((m - s) as nat) as int, pow2(s) as int);
    vstd::arithmetic::div_mod::lemma_mod_multiples_basic(pow2((m - s) as nat) as int, pow2(s) as int);
    vstd::arithmetic::mul::lemma_mul_is_commutative(pow2(s) as int, pow2((m - s) as nat) as int);
}

/// Consequences of the shape: the rounds fit, and a leaf has a machine size.
proof fn lemma_deep_shape_facts(total_round: nat, step: nat, cosets: Seq<Coset>)
    requires
        deep_shape(total_round, step, cosets),
    ensures
        step <= total_round + CODE_RATE,
        (total_round / step) * step <= total_round,
        pow2(step) <= pow2((total_round + CODE_RATE) as nat),
        pow2((total_round + CODE_RATE) as nat) < p(),
        pow2(step) <= usize::MAX,
        total_round + CODE_RATE < 61,
{
    let m = (total_round + CODE_RATE) as nat;
    let r = total_round / step;
    vstd::arithmetic::mul::lemma_mul_inequality(1, r as int + 1, step as int);
    vstd::arithmetic::div_mod::lemma_fundamental_div_mod(total_round as int, step as int);
    lemma2_to64();
    vstd::arithmetic::power2::lemma2_to64_rest();
    if m >= 61 {
        if m > 61 {
            vstd::arithmetic::power2::lemma_pow2_strictly_increases(61, m);
        }
    }
    if step < m {
        vstd::arithmetic::power2::lemma_pow2_strictly_increases(step, m);
    }
    cosets[0].lemma_size_bound();
}

/// Deep claim `t` after `done` of its rounds: at `(d_t, d_t^2, ...)` of
/// `n - t` coordinates, about the hypercube with its first `t` variables
/// fixed to the challenges, with the value at each shifted point taken on
/// the hypercube fixed one variable further per round.
pub open spec fn deep_claim_ok(d: DeepEval, h0: Seq<int>, cs: Seq<int>, deep: Seq<Mersenne61Mont>, n: nat, t: nat, done: nat) -> bool {
    let point = squares_chain(deep[t as int]@, (n - t) as nat);
    &&& d.point_view() == point
    &&& d.first_view() == ml_eval(point, fold_prefix(h0, cs, t))
    &&& d.else_view() == Seq::new(
        done,
        |k: int| ml_eval(shift_first(point.subrange(k, (n - t) as int)), fold_prefix(h0, cs, (t + k) as nat)),
    )
}

/// The claim at the opening point after `done` rounds.
pub open spec fn shuffle_claim_ok(d: DeepEval, h0: Seq<int>, cs: Seq<int>, point: Seq<int>, done: nat) -> bool {
    &&& d.point_view() == point
    &&& d.first_view() == ml_eval(point, h0)
    &&& d.else_view() == Seq::new(
        done,
        |k: int| ml_eval(shift_first(point.subrange(k, point.len() as int)), fold_prefix(h0, cs, k as nat)),
    )
}

/// Records on every claim its value at the shifted point for the hypercube `h`.
fn append_all(deeps: &mut Vec<DeepEval>, h: &Vec<Mersenne61Mont>)
    requires
        forall|t: int|
            0 <= t < old(deeps)@.len() ==> (#[trigger] old(deeps)@[t]).else_view().len() < old(deeps)@[t].point_view().len()
                && h.len() == pow2((old(deeps)@[t].point_view().len() - old(deeps)@[t].else_view().len()) as nat),
    ensures
        final(deeps)@.len() == old(deeps)@.len(),
        forall|t: int|
            0 <= t < old(deeps)@.len() ==> {
                let o = old(deeps)@[t];
                let d = #[trigger] final(deeps)@[t];
                &&& d.point_view() == o.point_view()
                &&& d.first_view() == o.first_view()
                &&& d.else_view() == o.else_view().push(
                    ml_eval(
                        shift_first(o.point_view().subrange(o.else_view().len() as int, o.point_view().len() as int)),
                        views(h@),
                    ),
                )
            },
{
    let ghost olds = deeps@;
    let mut rest: Vec<DeepEval> = Vec::new();
    std::mem::swap(&mut rest, deeps);
    let n = rest.len();
    let mut k: usize = 0;
    while k < n
        invariant
            n == olds.len(),
            k <= n,
            rest@ == olds.subrange(k as int, n as int),
            deeps@.len() == k,
            forall|t: int|
                0 <= t < olds.len() ==> (#[trigger] olds[t]).else_view().len() < olds[t].point_view().len()
                    && h.len() == pow2((olds[t].point_view().len() - olds[t].else_view().len()) as nat),
            forall|t: int|
                0 <= t < k ==> {
                    let o = olds[t];
                    let d = #[trigger] deeps@[t];
                    &&& d.point_view() == o.point_view()
                    &&& d.first_view() == o.first_view()
                    &&& d.else_view() == o.else_view().push(
                        ml_eval(
                            shift_first(o.point_view().subrange(o.else_view().len() as int, o.point_view().len() as int)),
                            views(h@),
                        ),
                    )
                },
        decreases n - k,
    {
        let mut d = rest.remove(0);
        assert(d == olds[k as int]);
        d.append_else_eval(copy_elems(h));
        let ghost before = deeps@;
        deeps.push(d);
        assert(rest@ =~= olds.subrange(k + 1, n as int));
        assert forall|t: int| 0 <= t < k + 1 implies {
            let o = olds[t];
            let d = #[trigger] deeps@[t];
            &&& d.point_view() == o.point_view()
            &&& d.first_view() == o.first_view()
            &&& d.else_view() == o.else_view().push(
                ml_eval(
                    shift_first(o.point_view().subrange(o.else_view().len() as int, o.point_view().len() as int)),
                    views(h@),
                ),
            )
        } by {
            if t < k {
                assert(deeps@[t] == before[t]);
            }
        }
        k = k + 1;
    }
}

/// The claims after `s` rounds: the claim at the opening point and one deep
/// claim per round begun, with the hypercube fixed in the first `s`
/// variables (in all but the last of them once every round is done).
pub open spec fn claims_at(
    shuffle: DeepEval,
    deeps: Seq<DeepEval>,
    hv: Seq<int>,
    h0: Seq<int>,
    cs: Seq<int>,
    deep: Seq<Mersenne61Mont>,
    point: Seq<int>,
    n: nat,
    s: nat,
) -> bool {
    let fixed = if s < n { s } else { (n - 1) as nat };
    &&& 1 <= n
    &&& s <= n
    &&& shuffle_claim_ok(shuffle, h0, cs, point, s)
    &&& deeps.len() == (if s < n { s + 1 } else { n })
    &&& forall|t: int| 0 <= t < deeps.len() ==> #[trigger] deep_claim_ok(deeps[t], h0, cs, deep, n, t as nat, (s - t) as nat)
    &&& hv == fold_prefix(h0, cs, fixed)
    &&& hv.len() == pow2((n - fixed) as nat)
}

/// One round of the claims: every claim records its value at its shifted
/// point on the current hypercube; unless this is the last round, the
/// hypercube is fixed in its first variable to the round's challenge and a
/// new deep claim is made on it.
fn claims_round(
    shuffle: &mut DeepEval,
    deeps: &mut Vec<DeepEval>,
    h: &mut Vec<Mersenne61Mont>,
    s: usize,
    n: usize,
    c: Mersenne61Mont,
    oracle_deep: &Vec<Mersenne61Mont>,
    Ghost(h0): Ghost<Seq<int>>,
    Ghost(cs): Ghost<Seq<int>>,
    Ghost(point): Ghost<Seq<int>>,
)
    requires
        s < n,
        claims_at(*old(shuffle), old(deeps)@, views(old(h)@), h0, cs, oracle_deep@, point, n as nat, s as nat),
        c@ == cs[s as int],
        point.len() == n,
        oracle_deep@.len() >= n,
        pow2(n as nat) <= usize::MAX,
    ensures
        claims_at(*final(shuffle), final(deeps)@, views(final(h)@), h0, cs, oracle_deep@, point, n as nat, (s + 1) as nat),
{
    let ghost olds = deeps@;
    assert(views(h@).len() == h@.len());
    shuffle.append_else_eval(copy_elems(h));
    assert(shuffle.else_view() =~= Seq::new(
        (s + 1) as nat,
        |k: int| ml_eval(shift_first(point.subrange(k, point.len() as int)), fold_prefix(h0, cs, k as nat)),
    ));
    assert forall|t: int|
        0 <= t < deeps@.len() implies (#[trigger] deeps@[t]).else_view().len() < deeps@[t].point_view().len()
            && h.len() == pow2((deeps@[t].point_view().len() - deeps@[t].else_view().len()) as nat) by {
        assert(deep_claim_ok(deeps@[t], h0, cs, oracle_deep@, n as nat, t as nat, (s - t) as nat));
    }
    append_all(deeps, h);
    assert forall|t: int| 0 <= t < deeps@.len() implies #[trigger] deep_claim_ok(deeps@[t], h0, cs, oracle_deep@, n as nat, t as nat, (s + 1 - t) as nat) by {
        let o = olds[t];
        assert(deep_claim_ok(o, h0, cs, oracle_deep@, n as nat, t as nat, (s - t) as nat));
        let pt = squares_chain(oracle_deep@[t]@, (n - t) as nat);
        assert(deeps@[t].else_view() =~= Seq::new(
            (s + 1 - t) as nat,
            |k: int| ml_eval(shift_first(pt.subrange(k, (n - t) as int)), fold_prefix(h0, cs, (t + k) as nat)),
        ));
    }
    if s + 1 < n {
        proof {
            if n - s - 1 < n {
                vstd::arithmetic::power2::lemma_pow2_strictly_increases((n - s - 1) as nat, n as nat);
            }
            lemma_pow2_unfold((n - s) as nat);
        }
        let m = pow2_of(n - s - 1);
        let ghost hs = views(h@);
        sumcheck_next_domain(h, m, c);
        assert(views(h@) == fold_prefix(h0, cs, (s + 1) as nat));
        assert(views(h@).len() == h@.len());
        let pt = squares_point(oracle_deep[s + 1], n - s - 1);
        assert(views(pt@).len() == pt@.len());
        assert(h@.len() == m);
        let d = DeepEval::new(pt, copy_elems(h));
        let ghost before = deeps@;
        deeps.push(d);
        assert forall|t: int| 0 <= t < deeps@.len() implies #[trigger] deep_claim_ok(deeps@[t], h0, cs, oracle_deep@, n as nat, t as nat, (s + 1 - t) as nat) by {
            if t < before.len() {
                assert(deeps@[t] == before[t]);
            } else {
                assert(t == s + 1);
                assert(deeps@[t].else_view() =~= Seq::<int>::empty());
                assert(Seq::new(
                    0nat,
                    |k: int| ml_eval(shift_first(squares_chain(oracle_deep@[t]@, (n - t) as nat).subrange(k, (n - t) as int)), fold_prefix(h0, cs, (t + k) as nat)),
                ) =~= Seq::<int>::empty());
            }
        }
    }
}

/// The deep claim `t` that `prove` leaves behind folds, under the check of
/// `DeepEval::verify` with the first `n` challenges, to the polynomial's value
/// at those challenges: every deep claim agrees with the evaluation the
/// verifier compares the final value against.
pub proof fn lemma_deep_claim_folds(d: DeepEval, h0: Seq<int>, cs: Seq<int>, deep: Seq<Mersenne61Mont>, n: nat, t: nat)
    requires
        deep_claim_ok(d, h0, cs, deep, n, t, (n - t) as nat),
        t < n,
        h0.len() == pow2(n),
        canon(h0),
        canon(cs),
        cs.len() >= n,
        deep.len() > t,
    ensures
        deep_fold(d.first_view(), d.point_view(), d.else_view(), cs.subrange(0, n as int).subrange(t as int, n as int), (n - t) as nat)
            == ml_eval(cs.subrange(0, n as int), h0),
{
    let c = cs.subrange(0, n as int);
    let z = d.point_view();
    let ct = c.subrange(t as int, n as int);
    assert forall|i: int| 0 <= i < t implies #[trigger] c[i] == cs[i] by {}
    lemma_fold_prefix_same(h0, c, cs, t);
    let h = fold_prefix(h0, c, t);
    lemma_fold_prefix_shape(h0, c, n, t);
    assert forall|k: int| 0 <= k < z.len() implies 0 <= #[trigger] z[k] < p() by {
        crate::mersenne_61_mont::lemma_fpow_range(deep[t as int]@, pow2(k as nat));
    }
    assert forall|k: int| 0 <= k < z.len() implies #[trigger] d.else_view()[k] == ml_eval(
        shift_first(z.subrange(k, z.len() as int)),
        fold_prefix(h, ct, k as nat),
    ) by {
        lemma_fold_prefix_compose(h0, c, t, k as nat);
        assert(c.subrange(t as int, c.len() as int) =~= ct);
        assert forall|i: int| 0 <= i < t + k implies #[trigger] c[i] == cs[i] by {}
        lemma_fold_prefix_same(h0, c, cs, (t + k) as nat);
    }
    lemma_deep_fold_complete(h, z, d.else_view(), ct);
    lemma_fold_prefix_eval(h0, c, t);
}

/// The claim at the opening point that `prove` leaves behind folds, under
/// the check of `DeepEval::verify` with the first `n` challenges, to the
/// polynomial's value at those challenges.
pub proof fn lemma_shuffle_claim_folds(d: DeepEval, h0: Seq<int>, cs: Seq<int>, point: Seq<int>, n: nat)
    requires
        shuffle_claim_ok(d, h0, cs, point, n),
        point.len() == n,
        h0.len() == pow2(n),
        canon(h0),
        canon(cs),
        canon(point),
        cs.len() >= n,
    ensures
        deep_fold(d.first_view(), d.point_view(), d.else_view(), cs.subrange(0, n as int), n)
            == ml_eval(cs.subrange(0, n as int), h0),
{
    let c = cs.subrange(0, n as int);
    assert forall|k: int| 0 <= k < n implies #[trigger] d.else_view()[k] == ml_eval(
        shift_first(point.subrange(k, point.len() as int)),
        fold_prefix(h0, c, k as nat),
    ) by {
        assert forall|i: int| 0 <= i < k implies #[trigger] c[i] == cs[i] by {}
        lemma_fold_prefix_same(h0, c, cs, k as nat);
    }
    lemma_deep_fold_complete(h0, point, d.else_view(), c);
}

/// The leaves queried in a codeword of `leaves` leaves: the oracle's
/// positions modulo `leaves`, increasing and without repetition.
pub open spec fn query_leaves(idx: Seq<usize>, query_list: Seq<usize>, leaves: int) -> bool {
    &&& strictly_sorted(idx)
    &&& idx.to_set() == residues(query_list, leaves)
}

/// The leaves queried in a codeword of `leaves` leaves, in increasing order:
/// the one sequence that `query_leaves` admits.
pub open spec fn queried_leaves(query_list: Seq<usize>, leaves: int) -> Seq<usize> {
    choose|idx: Seq<usize>| query_leaves(idx, query_list, leaves)
}

/// The members of `s` in `[lo, hi)`, in increasing order.
pub open spec fn members_between(s: Set<usize>, lo: int, hi: int) -> Seq<usize>
    decreases hi - lo,
{
    if lo >= hi {
        Seq::empty()
    } else if s.contains(lo as usize) {
        seq![lo as usize] + members_between(s, lo + 1, hi)
    } else {
        members_between(s, lo + 1, hi)
    }
}

/// The members of `s` in `[lo, hi)` come in increasing order, each once.
proof fn lemma_members_between(s: Set<usize>, lo: int, hi: int)
    requires
        0 <= lo,
        hi <= usize::MAX + 1,
    ensures
        strictly_sorted(members_between(s, lo, hi)),
        forall|t: int|
            0 <= t < members_between(s, lo, hi).len() ==> lo <= #[trigger] members_between(s, lo, hi)[t] < hi,
        forall|v: usize| #[trigger]
            members_between(s, lo, hi).contains(v) <==> (s.contains(v) && lo <= v < hi),
    decreases hi - lo,
{
    if lo < hi {
        lemma_members_between(s, lo + 1, hi);
        let rest = members_between(s, lo + 1, hi);
        if s.contains(lo as usize) {
            let m = seq![lo as usize] + rest;
            assert(m == members_between(s, lo, hi));
            assert forall|i: int, j: int| 0 <= i < j < m.len() implies m[i] < m[j] by {
                if i > 0 {
                    assert(m[i] == rest[i - 1] && m[j] == rest[j - 1]);
                } else {
                    assert(m[j] == rest[j - 1]);
                }
            }
            assert forall|v: usize| #[trigger] m.contains(v) <==> (s.contains(v) && lo <= v < hi) by {
                if m.contains(v) {
                    let t = choose|t: int| 0 <= t < m.len() && m[t] == v;
                    if t > 0 {
                        assert(rest[t - 1] == v);
                        assert(rest.contains(v));
                    } else {
                        assert(v == lo as usize);
                        assert(v == lo);
                    }
                }
                if s.contains(v) && lo <= v < hi {
                    if v == lo {
                        assert(m[0] == v);
                    } else {
                        assert(rest.contains(v));
                        let t = choose|t: int| 0 <= t < rest.len() && rest[t] == v;
                        assert(m[t + 1] == v);
                    }
                }
            }
        }
    }
}

/// The queried leaves of a codeword of `leaves` leaves exist: they are the
/// residues of the queries in increasing order, each below `leaves`.
pub proof fn lemma_queried_leaves(query_list: Seq<usize>, leaves: int)
    requires
        0 < leaves <= usize::MAX,
    ensures
        query_leaves(queried_leaves(query_list, leaves), query_list, leaves),
        forall|t: int|
            0 <= t < queried_leaves(query_list, leaves).len() ==> #[trigger] queried_leaves(query_list, leaves)[t]
                < leaves,
{
    let r = residues(query_list, leaves);
    lemma_members_between(r, 0, leaves);
    let m = members_between(r, 0, leaves);
    assert forall|v: usize| r.contains(v) implies v < leaves by {
        let t = choose|t: int| 0 <= t < query_list.len() && v == #[trigger] query_list[t] % (leaves as usize);
    }
    assert(m.to_set() =~= r);
    assert(query_leaves(m, query_list, leaves));
    let idx = queried_leaves(query_list, leaves);
    assert(query_leaves(idx, query_list, leaves));
    lemma_sorted_unique(idx, m);
}

/// One opening per codeword of the prover, each at the queried leaves.
pub open spec fn queries_ok(p: Prover, qs: Seq<QueryResult>) -> bool {
    let it = p.interpolations_view();
    &&& qs.len() == it.len()
    &&& forall|i: int|
        0 <= i < qs.len() ==> #[trigger] query_of(
            qs[i],
            it[i],
            queried_leaves(p.oracle_view().query_list@, it[i].leaves_len()),
        )
}

/// The proof read off the prover `p` after proving: the roots of the
/// codewords between the first and the last, the openings at the queried
/// leaves, the deep claims, the claim at the opening point, and the final
/// value and polynomial.
pub open spec fn proof_from(p: Prover, r: Proof) -> bool {
    let rr = p.total_round_view() / p.step_view();
    let it = p.interpolations_view();
    let ds = p.deep_eval_view();
    &&& r.merkle_root@.len() == rr - 1
    &&& forall|x: int| 0 <= x < rr - 1 ==> (#[trigger] r.merkle_root@[x])@ == iv_root(it[x + 1])
    &&& queries_ok(p, r.query_result@)
    &&& r.deep_evals@.len() == ds.len()
    &&& forall|t: int|
        0 <= t < ds.len() ==> (#[trigger] r.deep_evals@[t]).0@ == ds[t].first_view() && views(r.deep_evals@[t].1@)
            == ds[t].else_view()
    &&& p.shuffle_view() is Some
    &&& views(r.shuffle_evals@) == p.shuffle_view().unwrap().else_view()
    &&& r.evaluation@ == p.shuffle_view().unwrap().first_view()
    &&& p.final_value_view() == Some(r.final_value@)
    &&& p.final_poly_view() == Some(views(r.final_poly@))
}

/// What `prove` makes of the prover `before` at `point`: the shape, the
/// hypercube, the oracle and the first codeword stay; the claim at the point
/// and every deep claim hold their shifted values for all the rounds; each
/// codeword is the one before folded with its round's challenges; the final
/// polynomial interpolates the last codeword, and the final value is that
/// codeword folded to the end.
pub open spec fn proved(before: Prover, after: Prover, point: Seq<int>) -> bool {
    let n = before.total_round_view();
    let step = before.step_view();
    let rr = n / step;
    let cs = views(before.oracle_view().folding_challenges@);
    let h0 = before.hypercube_view();
    let it = after.interpolations_view();
    let c = before.cosets_view()[(rr * step) as int];
    &&& after.total_round_view() == n
    &&& after.step_view() == step
    &&& after.cosets_view() == before.cosets_view()
    &&& after.hypercube_view() == h0
    &&& after.oracle_view().deep@ == before.oracle_view().deep@
    &&& after.oracle_view().folding_challenges@ == before.oracle_view().folding_challenges@
    &&& after.oracle_view().query_list@ == before.oracle_view().query_list@
    &&& it[0] == before.interpolations_view()[0]
    &&& after.shuffle_view() is Some
    &&& shuffle_claim_ok(after.shuffle_view().unwrap(), h0, cs, point, n)
    &&& after.deep_eval_view().len() == n
    &&& forall|t: int|
        0 <= t < n ==> #[trigger] deep_claim_ok(
            after.deep_eval_view()[t],
            h0,
            cs,
            before.oracle_view().deep@,
            n,
            t as nat,
            (n - t) as nat,
        )
    &&& it.len() == rr + 1
    &&& forall|i: int|
        0 <= i < rr ==> (#[trigger] it[i + 1]).values() == deep_code_folds(
            it[i].values(),
            cs.subrange(i * step, i * step + step),
            before.cosets_view(),
            i * step,
            step,
        )
    &&& after.final_poly_view() == Some(idft(it[rr as int].values(), c.shift_view(), c.generator_view(), c.size_view()))
    &&& after.final_value_view() == Some(deep_code_folds(
        it[rr as int].values(),
        cs.subrange((rr * step) as int, n as int),
        before.cosets_view(),
        (rr * step) as int,
        (n - rr * step) as nat,
    )[0])
}

/// Field elements viewed as integers are canonical.
proof fn lemma_views_canon(s: Seq<Mersenne61Mont>)
    ensures
        canon(views(s)),
{
    assert forall|i: int| 0 <= i < views(s).len() implies 0 <= #[trigger] views(s)[i] < p() by {
        assert(views(s)[i] == s[i]@);
    }
}

/// In a proof that proving at `point` gives, every claim folds, under the
/// verifier's check with the first `n` challenges, to the polynomial's value
/// at those challenges; so a verifier at the same point accepts the claims
/// exactly when the final value is that value.
#[verifier::spinoff_prover]
#[verifier::rlimit(50)]
pub proof fn lemma_honest_claims(before: Prover, p: Prover, proof: Proof, point: Seq<int>)
    requires
        before.wf(),
        proved(before, p, point),
        proof_from(p, proof),
        point.len() == before.total_round_view(),
        canon(point),
    ensures
        claims_ok(
            before.oracle_view().deep@,
            views(before.oracle_view().folding_challenges@),
            before.total_round_view(),
            point,
            proof,
        ) <==> proof.final_value@ == ml_eval(
            views(before.oracle_view().folding_challenges@).subrange(0, before.total_round_view() as int),
            before.hypercube_view(),
        ),
{
    let n = before.total_round_view();
    let cs = views(before.oracle_view().folding_challenges@);
    let c = cs.subrange(0, n as int);
    let h0 = before.hypercube_view();
    let deep = before.oracle_view().deep@;
    let target = ml_eval(c, h0);
    lemma_views_canon(before.oracle_view().folding_challenges@);
    lemma_views_canon(before.hypercube_interpolation@);
    let sh = p.shuffle_view().unwrap();
    lemma_shuffle_claim_folds(sh, h0, cs, point, n);
    assert(c.subrange(n - n, n as int) =~= c);
    assert(sh.else_view().len() == n);
    assert(views(proof.shuffle_evals@).len() == proof.shuffle_evals@.len());
    assert(proof.shuffle_evals@.len() == point.len());
    assert(deep_fold(proof.evaluation@, point, views(proof.shuffle_evals@), c.subrange(n - point.len(), n as int), point.len()) == target);
    assert forall|t: int| 0 <= t < proof.deep_evals@.len() implies #[trigger] deep_claim_checks(
        deep,
        c,
        n,
        t,
        proof.deep_evals@[t],
        target,
    ) by {
        let d = p.deep_eval_view()[t];
        assert(t < n);
        assert(deep_claim_ok(d, h0, cs, deep, n, t as nat, (n - t) as nat));
        lemma_deep_claim_folds(d, h0, cs, deep, n, t as nat);
        let e = proof.deep_evals@[t];
        assert(e.0@ == d.first_view());
        assert(views(e.1@) == d.else_view());
        assert(d.else_view().len() == n - t);
        assert(views(e.1@).len() == e.1@.len());
        assert(d.point_view() == squares_chain(deep[t]@, (n - t) as nat));
        assert(c.subrange(t, n as int) == cs.subrange(0, n as int).subrange(t, n as int));
    }
    if proof.final_value@ == target {
        assert forall|t: int| 0 <= t < proof.deep_evals@.len() implies #[trigger] deep_claim_checks(
            deep,
            c,
            n,
            t,
            proof.deep_evals@[t],
            proof.final_value@,
        ) by {
            assert(deep_claim_checks(deep, c, n, t, proof.deep_evals@[t], target));
        }
    }
}

/// The Deepfold prover's state.
pub struct Prover {
    total_round: usize,
    interpolate_cosets: Vec<Coset>,
    interpolations: Vec<InterpolateValue>,
    hypercube_interpolation: Vec<Mersenne61Mont>,
    deep_eval: Vec<DeepEval>,
    shuffle_eval: Option<DeepEval>,
    oracle: RandomOracle,
    final_value: Option<Mersenne61Mont>,
    final_poly: Option<Vec<Mersenne61Mont>>,
    step: usize,
}

impl Prover {
    /// The number of variables, which is the number of foldings.
    pub closed spec fn total_round_view(&self) -> nat {
        self.total_round as nat
    }

    /// The number of foldings per round.
    pub closed spec fn step_view(&self) -> nat {
        self.step as nat
    }

    /// The cosets of the codewords.
    pub closed spec fn cosets_view(&self) -> Seq<Coset> {
        self.interpolate_cosets@
    }

    /// The committed codewords so far.
    pub closed spec fn interpolations_view(&self) -> Seq<InterpolateValue> {
        self.interpolations@
    }

    /// The hypercube values of the polynomial.
    pub closed spec fn hypercube_view(&self) -> Seq<int> {
        views(self.hypercube_interpolation@)
    }

    /// The deep evaluation claims.
    pub closed spec fn deep_eval_view(&self) -> Seq<DeepEval> {
        self.deep_eval@
    }

    /// The claim at the opening point, once proved.
    pub closed spec fn shuffle_view(&self) -> Option<DeepEval> {
        self.shuffle_eval
    }

    /// The oracle's draws.
    pub closed spec fn oracle_view(&self) -> RandomOracle {
        self.oracle
    }

    /// The value of the last codeword, once proved.
    pub closed spec fn final_value_view(&self) -> Option<int> {
        match self.final_value {
            Some(v) => Some(v@),
            None => None,
        }
    }

    /// The coefficients of the final polynomial, once proved.
    pub closed spec fn final_poly_view(&self) -> Option<Seq<int>> {
        match self.final_poly {
            Some(v) => Some(views(v@)),
            None => None,
        }
    }

    /// The state is consistent: the shape of the run and the sizes of the
    /// committed codewords.
    pub closed spec fn wf(&self) -> bool {
        let n = self.total_round as nat;
        let step = self.step as nat;
        &&& deep_shape(n, step, self.interpolate_cosets@)
        &&& self.interpolations@.len() >= 1
        &&& self.interpolations@.len() <= n / step + 1
        &&& forall|i: int|
            0 <= i < self.interpolations@.len() ==> #[trigger] self.interpolations@[i].wf()
                && self.interpolations@[i].leaf_count() == pow2(step)
                && self.interpolations@[i].values().len() == self.interpolate_cosets@[i * step].size_view()
        &&& self.hypercube_interpolation@.len() == pow2(n)
        &&& self.oracle.deep@.len() >= n
        &&& self.oracle.folding_challenges@.len() >= n
    }

    /// The prover for `polynomial`: its codeword on the first coset is
    /// committed with `2^step` entries per leaf, and the first deep claim is
    /// made at `(d, d^2, d^4, ...)` for the oracle's first deep point `d`.
    #[verifier::spinoff_prover]
    pub fn new(
        total_round: usize,
        interpolate_cosets: &Vec<Coset>,
        polynomial: MultilinearPolynomial,
        oracle: &RandomOracle,
        step: usize,
    ) -> (r: Self)
        requires
            deep_shape(total_round as nat, step as nat, interpolate_cosets@),
            polynomial.wf(),
            polynomial.num_vars_view() == total_round,
            oracle.deep@.len() >= total_round,
            oracle.deep@.len() >= 1,
            oracle.folding_challenges@.len() >= total_round,
        ensures
            r.wf(),
            r.total_round_view() == total_round,
            r.step_view() == step,
            r.cosets_view() == interpolate_cosets@,
            r.hypercube_view() == polynomial.evals_view(),
            r.oracle_view().deep@ == oracle.deep@,
            r.oracle_view().folding_challenges@ == oracle.folding_challenges@,
            r.oracle_view().query_list@ == oracle.query_list@,
            r.interpolations_view().len() == 1,
            r.interpolations_view()[0].values() == dft(
                polynomial.evals_view(),
                interpolate_cosets@[0].shift_view(),
                interpolate_cosets@[0].generator_view(),
                interpolate_cosets@[0].size_view(),
            ),
            r.deep_eval_view().len() == 1,
            r.deep_eval_view()[0].point_view() == squares_chain(oracle.deep@[0]@, total_round as nat),
            r.deep_eval_view()[0].first_view() == ml_eval(
                squares_chain(oracle.deep@[0]@, total_round as nat),
                polynomial.evals_view(),
            ),
            r.deep_eval_view()[0].else_view().len() == 0,
            r.shuffle_view() is None,
            r.final_value_view() is None,
            r.final_poly_view() is None,
            deep_claim_ok(
                r.deep_eval_view()[0],
                r.hypercube_view(),
                views(oracle.folding_challenges@),
                oracle.deep@,
                total_round as nat,
                0,
                0,
            ),
    {
        let ghost m = (total_round + CODE_RATE) as nat;
        proof {
            lemma_deep_shape_facts(total_round as nat, step as nat, interpolate_cosets@);
            lemma_pow2_div(m, step as nat);
            lemma_pow2_pos(m);
            lemma_pow2_pos(step as nat);
        }
        let point = squares_point(oracle.deep[0], total_round);
        let hypercube_interpolation = polynomial.evaluate_hypercube();
        let ghost hv = views(hypercube_interpolation@);
        let ghost pv = views(point@);
        let leaf = pow2_of(step);
        let code = interpolate_cosets[0].fft(polynomial.coefficients());
        assert(views(code@).len() == code@.len());
        assert(code.len() == pow2(m));
        assert(is_power_of_two((code.len() / leaf) as int)) by {
            assert(pow2((m - step) as nat) == code.len() / leaf);
        }
        let first = InterpolateValue::new(code, leaf);
        let mut interpolations: Vec<InterpolateValue> = Vec::new();
        interpolations.push(first);
        assert(views(hypercube_interpolation@).len() == hypercube_interpolation@.len());
        assert(views(point@).len() == point@.len());
        let deep0 = DeepEval::new(point, copy_elems(&hypercube_interpolation));
        let mut deep_eval: Vec<DeepEval> = Vec::new();
        deep_eval.push(deep0);
        let r = Prover {
            total_round,
            interpolate_cosets: copy_cosets(interpolate_cosets),
            interpolations,
            hypercube_interpolation,
            deep_eval,
            shuffle_eval: None,
            oracle: copy_oracle(oracle),
            final_value: None,
            final_poly: None,
            step,
        };
        assert(r.interpolations@[0].wf());
        proof {
            let t: nat = 0;
            let n = total_round as nat;
            let cs = views(oracle.folding_challenges@);
            let point = squares_chain(oracle.deep@[t as int]@, (n - t) as nat);
            assert(pv == point);
            assert(fold_prefix(hv, cs, t) == hv);
            assert(r.deep_eval@[0].else_view() =~= Seq::new(
                t,
                |k: int| ml_eval(shift_first(point.subrange(k, (n - t) as int)), fold_prefix(hv, cs, (t + k) as nat)),
            ));
            assert(r.hypercube_view() == hv);
        }
        r
    }

    /// The commitment: the root of the first codeword and the first deep claim's value.
    pub fn commit_polynomial(&self) -> (r: Commit)
        requires
            self.wf(),
            self.deep_eval_view().len() >= 1,
        ensures
            r.merkle_root@ == iv_root(self.interpolations_view()[0]),
            r.deep@ == self.deep_eval_view()[0].first_view(),
    {
        Commit { merkle_root: self.interpolations[0].commit(), deep: self.deep_eval[0].first_value() }
    }

    /// Proves the evaluation at `point`: round after round the claims record
    /// their shifted values and the hypercube is fixed to the oracle's
    /// challenges, while the codeword is folded with the same challenges and
    /// committed; the codeword after the last full round gives the final
    /// polynomial, and the codeword after every folding the final value.
    #[verifier::spinoff_prover]
    #[verifier::rlimit(60)]
    pub fn prove(&mut self, point: Vec<Mersenne61Mont>)
        requires
            old(self).wf(),
            point.len() == old(self).total_round_view(),
            old(self).interpolations_view().len() == 1,
            old(self).deep_eval_view().len() == 1,
            deep_claim_ok(
                old(self).deep_eval_view()[0],
                old(self).hypercube_view(),
                views(old(self).oracle_view().folding_challenges@),
                old(self).oracle_view().deep@,
                old(self).total_round_view(),
                0,
                0,
            ),
        ensures
            final(self).wf(),
            proved(*old(self), *final(self), views(point@)),
    {
        let n = self.total_round;
        let step = self.step;
        let rr = n / step;
        let ghost m = (n + CODE_RATE) as nat;
        let ghost h0 = views(self.hypercube_interpolation@);
        let ghost cs = views(self.oracle.folding_challenges@);
        let ghost pt = views(point@);
        let ghost it0 = self.interpolations@[0];
        proof {
            lemma_deep_shape_facts(n as nat, step as nat, self.interpolate_cosets@);
        }
        let hl = self.hypercube_interpolation.len();
        assert(hl == pow2(n as nat));
        let leaf = pow2_of(step);
        proof {
            lemma_pow2_pos(step as nat);
            vstd::arithmetic::mul::lemma_mul_inequality(1, step as int, rr as int);
            vstd::arithmetic::mul::lemma_mul_is_commutative(step as int, rr as int);
        }
        assert(rr <= n);
        let mut h = copy_elems(&self.hypercube_interpolation);
        assert(views(h@).len() == h@.len());
        let mut shuffle = DeepEval::new(copy_elems(&point), copy_elems(&h));
        assert(shuffle.else_view() =~= Seq::new(
            0nat,
            |k: int| ml_eval(shift_first(pt.subrange(k, pt.len() as int)), fold_prefix(h0, cs, k as nat)),
        ));
        let mut deeps: Vec<DeepEval> = Vec::new();
        std::mem::swap(&mut deeps, &mut self.deep_eval);
        assert(deep_claim_ok(deeps@[0], h0, cs, self.oracle.deep@, n as nat, 0, 0));
        assert(claims_at(shuffle, deeps@, views(h@), h0, cs, self.oracle.deep@, pt, n as nat, 0));
        let mut i: usize = 0;
        while i < rr + 1
            invariant
                self.wf(),
                n == self.total_round,
                step == self.step,
                rr == n / step,
                rr * step <= n,
                m == n + CODE_RATE,
                pow2(n as nat) <= usize::MAX,
                leaf == pow2(step as nat),
                leaf > 0,
                rr <= n,
                n < 64,
                h0 == views(self.hypercube_interpolation@),
                cs == views(self.oracle.folding_challenges@),
                pt == views(point@),
                pt.len() == n,
                self.total_round_view() == old(self).total_round_view(),
                self.step_view() == old(self).step_view(),
                self.cosets_view() == old(self).cosets_view(),
                self.hypercube_view() == old(self).hypercube_view(),
                self.oracle.deep@ == old(self).oracle_view().deep@,
                self.oracle.folding_challenges@ == old(self).oracle_view().folding_challenges@,
                self.oracle.query_list@ == old(self).oracle_view().query_list@,
                i <= rr + 1,
                claims_at(shuffle, deeps@, views(h@), h0, cs, self.oracle.deep@, pt, n as nat, if i <= rr { (i * step) as nat } else { n as nat }),
                self.interpolations@.len() == if i <= rr { i + 1 } else { rr + 1 },
                self.interpolations@[0] == it0,
                forall|k: int|
                    0 <= k < i && k < rr ==> (#[trigger] self.interpolations@[k + 1]).values() == deep_code_folds(
                        self.interpolations@[k].values(),
                        cs.subrange(k * step, k * step + step),
                        self.interpolate_cosets@,
                        k * step,
                        step as nat,
                    ),
                i > rr - 1 ==> self.final_poly_view() == Some(idft(
                    self.interpolations@[rr as int].values(),
                    self.interpolate_cosets@[(rr * step) as int].shift_view(),
                    self.interpolate_cosets@[(rr * step) as int].generator_view(),
                    self.interpolate_cosets@[(rr * step) as int].size_view(),
                )),
                i > rr ==> self.final_value_view() == Some(deep_code_folds(
                    self.interpolations@[rr as int].values(),
                    cs.subrange(rr * step, n as int),
                    self.interpolate_cosets@,
                    rr * step,
                    (n - rr * step) as nat,
                )[0]),
            decreases rr + 1 - i,
        {
            proof {
                vstd::arithmetic::mul::lemma_mul_inequality(i as int, rr as int, step as int);
                vstd::arithmetic::mul::lemma_mul_is_distributive_add_other_way(step as int, i as int, 1);
                if i < rr {
                    vstd::arithmetic::mul::lemma_mul_inequality(i as int + 1, rr as int, step as int);
                }
            }
            let base = i * step;
            let folds = if base + step <= n {
                step
            } else {
                n - base
            };
            assert(folds == round_folds(n as nat, step as nat, i as nat));
            let mut challenges: Vec<Mersenne61Mont> = Vec::new();
            let mut j: usize = 0;
            while j < folds
                invariant
                    base + folds <= n,
                    cs == views(self.oracle.folding_challenges@),
                    self.oracle.folding_challenges@.len() >= n,
                    j <= folds,
                    views(challenges@) == cs.subrange(base as int, base + j),
                decreases folds - j,
            {
                let c = self.oracle.folding_challenges[base + j];
                let ghost before = views(challenges@);
                challenges.push(c);
                assert(views(challenges@) =~= before.push(c@));
                assert(views(challenges@) =~= cs.subrange(base as int, base + j + 1));
                j = j + 1;
            }
            assert(views(challenges@).len() == challenges@.len());
            let mut j: usize = 0;
            while j < folds
                invariant
                    base + folds <= n,
                    n >= 1,
                    pow2(n as nat) <= usize::MAX,
                    h0 == views(self.hypercube_interpolation@),
                    cs == views(self.oracle.folding_challenges@),
                    pt == views(point@),
                    pt.len() == n,
                    self.oracle.deep@.len() >= n,
                    views(challenges@) == cs.subrange(base as int, base + folds),
                    challenges@.len() == folds,
                    cs.len() >= n,
                    j <= folds,
                    claims_at(shuffle, deeps@, views(h@), h0, cs, self.oracle.deep@, pt, n as nat, (base + j) as nat),
                decreases folds - j,
            {
                assert(views(challenges@)[j as int] == challenges@[j as int]@);
                assert(challenges@[j as int]@ == cs[base + j]);
                claims_round(&mut shuffle, &mut deeps, &mut h, base + j, n, challenges[j], &self.oracle.deep, Ghost(h0), Ghost(cs), Ghost(pt));
                j = j + 1;
            }
            let next = self.evaluation_next_domain(i, &challenges);
            assert(views(next@).len() == next@.len());
            let ghost old_its = self.interpolations@;
            if i + 1 < rr {
                proof {
                    vstd::arithmetic::mul::lemma_mul_inequality(i as int + 2, rr as int + 1, step as int);
                    vstd::arithmetic::mul::lemma_mul_is_distributive_add_other_way(step as int, i as int + 1, 1);
                    lemma_pow2_div((m - (i + 1) * step) as nat, step as nat);
                    lemma_pow2_pos((m - (i + 1) * step - step) as nat);
                }
                assert((i + 1) * step == base + step);
                assert(next@.len() == pow2((m - (i + 1) * step) as nat));
                assert(is_power_of_two((next.len() / leaf) as int)) by {
                    assert(pow2((m - (i + 1) * step - step) as nat) == next.len() / leaf);
                }
                let iv = InterpolateValue::new(next, leaf);
                assert(iv.values().len() == self.interpolate_cosets@[(i + 1) * step].size_view());
                self.interpolations.push(iv);
                assert(self.interpolations@[i + 1] == iv);
            } else if i + 1 == rr {
                proof {
                    vstd::arithmetic::mul::lemma_mul_inequality(i as int + 2, rr as int + 1, step as int);
                    vstd::arithmetic::mul::lemma_mul_is_distributive_add_other_way(step as int, i as int + 1, 1);
                    lemma_pow2_div((m - (i + 1) * step) as nat, step as nat);
                    lemma_pow2_pos((m - (i + 1) * step - step) as nat);
                    if (m - (i + 1) * step) < m {
                        vstd::arithmetic::power2::lemma_pow2_strictly_increases((m - (i + 1) * step) as nat, m);
                    }
                }
                assert((i + 1) * step == base + step);
                assert(next@.len() == pow2((m - (i + 1) * step) as nat));
                assert(is_power_of_two((next.len() / leaf) as int)) by {
                    assert(pow2((m - (i + 1) * step - step) as nat) == next.len() / leaf);
                }
                let iv = InterpolateValue::new(copy_elems(&next), leaf);
                assert(iv.values().len() == self.interpolate_cosets@[(i + 1) * step].size_view());
                self.interpolations.push(iv);
                assert(self.interpolations@[i + 1] == iv);
                let c = self.interpolate_cosets[(i + 1) * step];
                self.final_poly = Some(c.ifft(next));
            } else {
                proof {
                    lemma2_to64();
                    vstd::arithmetic::div_mod::lemma_fundamental_div_mod(n as int, step as int);
                    vstd::arithmetic::mul::lemma_mul_is_commutative(step as int, rr as int);
                }
                assert(i == rr);
                assert(base + step > n);
                assert(folds == n - base);
                assert(next@.len() == pow2(CODE_RATE as nat));
                self.final_value = Some(next[0]);
            }
            assert forall|k: int|
                0 <= k < i + 1 && k < rr implies (#[trigger] self.interpolations@[k + 1]).values() == deep_code_folds(
                    self.interpolations@[k].values(),
                    cs.subrange(k * step, k * step + step),
                    self.interpolate_cosets@,
                    k * step,
                    step as nat,
                ) by {
                if k < i {
                    assert(self.interpolations@[k + 1] == old_its[k + 1]);
                    assert(self.interpolations@[k] == old_its[k]);
                } else {
                    assert(self.interpolations@[k] == old_its[k]);
                }
            }
            i = i + 1;
        }
        self.deep_eval = deeps;
        self.shuffle_eval = Some(shuffle);
    }

    /// Opens every codeword at the queried leaves: for each codeword, the
    /// oracle's positions modulo its number of leaves, in increasing order
    /// without repetition.
    pub fn query(&self) -> (r: Vec<QueryResult>)
        requires
            self.wf(),
        ensures
            queries_ok(*self, r@),
    {
        let mut res: Vec<QueryResult> = Vec::new();
        let ghost ql = self.oracle.query_list@;
        let mut i: usize = 0;
        while i < self.interpolations.len()
            invariant
                self.wf(),
                ql == self.oracle.query_list@,
                i <= self.interpolations@.len(),
                res@.len() == i,
                forall|k: int|
                    0 <= k < i ==> #[trigger] query_of(
                        res@[k],
                        self.interpolations@[k],
                        queried_leaves(ql, self.interpolations@[k].leaves_len()),
                    ),
            decreases self.interpolations@.len() - i,
        {
            assert(self.interpolations@[i as int].wf());
            let leaves = self.interpolations[i].leave_num();
            proof {
                lemma_pow2_pos(self.interpolations@[i as int].depth());
            }
            let leaf_indices = fold_indices(&self.oracle.query_list, leaves);
            proof {
                let want = queried_leaves(ql, leaves as int);
                assert(query_leaves(leaf_indices@, ql, leaves as int));
                assert(query_leaves(want, ql, leaves as int));
                lemma_sorted_unique(leaf_indices@, want);
            }
            let q = self.interpolations[i].query(&leaf_indices);
            res.push(q);
            i = i + 1;
        }
        res
    }

    /// Proves the evaluation at `point` and reads the proof off the prover.
    pub fn generate_proof(self, point: Vec<Mersenne61Mont>) -> (r: Proof)
        requires
            self.wf(),
            point.len() == self.total_round_view(),
            self.interpolations_view().len() == 1,
            self.deep_eval_view().len() == 1,
            deep_claim_ok(
                self.deep_eval_view()[0],
                self.hypercube_view(),
                views(self.oracle_view().folding_challenges@),
                self.oracle_view().deep@,
                self.total_round_view(),
                0,
                0,
            ),
        ensures
            exists|p: Prover| p.wf() && proved(self, p, views(point@)) && #[trigger] proof_from(p, r),
    {
        let ghost pt = views(point@);
        let ghost before = self;
        let mut prover = self;
        prover.prove(point);
        let ghost p = prover;
        let query_result = prover.query();
        let rr = prover.total_round / prover.step;
        let mut merkle_root: Vec<[u8; 32]> = Vec::new();
        let mut x: usize = 1;
        while x < rr
            invariant
                prover == p,
                p.wf(),
                proved(before, p, pt),
                rr == p.total_round_view() / p.step_view(),
                1 <= x <= rr || (x == 1 && rr < 1),
                merkle_root@.len() == x - 1,
                forall|y: int| 0 <= y < x - 1 ==> (#[trigger] merkle_root@[y])@ == iv_root(p.interpolations_view()[y + 1]),
            decreases rr - x,
        {
            assert(prover.interpolations@[x as int].wf());
            let root = prover.interpolations[x].commit();
            merkle_root.push(root);
            x = x + 1;
        }
        let mut deep_evals: Vec<(Mersenne61Mont, Vec<Mersenne61Mont>)> = Vec::new();
        let mut t: usize = 0;
        while t < prover.deep_eval.len()
            invariant
                prover == p,
                t <= prover.deep_eval@.len(),
                deep_evals@.len() == t,
                forall|u: int|
                    0 <= u < t ==> (#[trigger] deep_evals@[u]).0@ == prover.deep_eval@[u].first_view() && views(
                        deep_evals@[u].1@,
                    ) == prover.deep_eval@[u].else_view(),
            decreases prover.deep_eval@.len() - t,
        {
            let first = prover.deep_eval[t].first_value();
            let rest = copy_elems(prover.deep_eval[t].else_values());
            deep_evals.push((first, rest));
            t = t + 1;
        }
        let shuffle = prover.shuffle_eval.unwrap();
        let r = Proof {
            merkle_root,
            query_result,
            deep_evals,
            shuffle_evals: copy_elems(shuffle.else_values()),
            evaluation: shuffle.first_value(),
            final_value: prover.final_value.unwrap(),
            final_poly: prover.final_poly.unwrap(),
        };
        assert(proof_from(p, r));
        r
    }

    /// The codeword of round `round + 1`: the round's codeword folded with
    /// the round's challenges, one folding per challenge, and each fold
    /// halved.
    fn evaluation_next_domain(&self, round: usize, challenges: &Vec<Mersenne61Mont>) -> (r: Vec<Mersenne61Mont>)
        requires
            self.wf(),
            round < self.interpolations_view().len(),
            challenges.len() >= round_folds(self.total_round_view(), self.step_view(), round as nat),
        ensures
            views(r@) == deep_code_folds(
                self.interpolations_view()[round as int].values(),
                views(challenges@),
                self.cosets_view(),
                round * self.step_view(),
                round_folds(self.total_round_view(), self.step_view(), round as nat),
            ),
            r@.len() == self.cosets_view()[round * self.step_view() + round_folds(
                self.total_round_view(),
                self.step_view(),
                round as nat,
            )].size_view(),
    {
        let n = self.total_round;
        let step = self.step;
        let ghost m = (n + CODE_RATE) as nat;
        let ghost folds = round_folds(n as nat, step as nat, round as nat);
        let ghost cs = views(challenges@);
        proof {
            lemma_deep_shape_facts(n as nat, step as nat, self.interpolate_cosets@);
            vstd::arithmetic::mul::lemma_mul_inequality(round as int, (n / step) as int, step as int);
            assert(self.interpolations@[round as int].wf());
        }
        let mut get_folding_value = copy_elems(self.interpolations[round].value());
        let base = round * step;
        assert(views(get_folding_value@) == self.interpolations@[round as int].values());
        assert(views(get_folding_value@).len() == get_folding_value@.len());
        let inv_two = Mersenne61Mont::inverse_2();
        let mut j: usize = 0;
        while j < step
            invariant
                self.wf(),
                n == self.total_round,
                step == self.step,
                base == round * step,
                base <= n,
                m == n + CODE_RATE,
                folds == round_folds(n as nat, step as nat, round as nat),
                cs == views(challenges@),
                challenges.len() >= folds,
                inv_two@ == inv2(),
                j <= folds,
                j <= step,
                base + j <= n,
                get_folding_value@.len() == self.interpolate_cosets@[base + j].size_view(),
                views(get_folding_value@) == deep_code_folds(
                    self.interpolations@[round as int].values(),
                    cs,
                    self.interpolate_cosets@,
                    base as int,
                    j as nat,
                ),
            ensures
                j == folds,
                get_folding_value@.len() == self.interpolate_cosets@[base + j].size_view(),
                views(get_folding_value@) == deep_code_folds(
                    self.interpolations@[round as int].values(),
                    cs,
                    self.interpolate_cosets@,
                    base as int,
                    j as nat,
                ),
            decreases step - j,
        {
            if base + j == n {
                break;
            }
            let coset = self.interpolate_cosets[base + j];
            let len = coset.size();
            proof {
                lemma_pow2_unfold((m - (base + j)) as nat);
                assert(self.interpolate_cosets@[base + j + 1].size_view() == pow2((m - (base + j + 1)) as nat));
            }
            let half = len / 2;
            let ghost f = views(get_folding_value@);
            let mut tmp: Vec<Mersenne61Mont> = Vec::new();
            let mut i: usize = 0;
            while i < half
                invariant
                    half == len / 2,
                    len == coset.size_view(),
                    get_folding_value@.len() == len,
                    f == views(get_folding_value@),
                    j < challenges.len(),
                    cs == views(challenges@),
                    inv_two@ == inv2(),
                    i <= half,
                    views(tmp@) == deep_code_fold(f, cs[j as int], coset).subrange(0, i as int),
                decreases half - i,
            {
                let x = get_folding_value[i];
                let nx = get_folding_value[i + half];
                let new_v = x.add(nx).add(challenges[j].mul(x.sub(nx)).mul(coset.element_inv_at(i)));
                let v = new_v.mul(inv_two);
                let ghost before = views(tmp@);
                tmp.push(v);
                assert(views(tmp@) =~= before.push(v@));
                assert(views(tmp@) =~= deep_code_fold(f, cs[j as int], coset).subrange(0, i + 1));
                i = i + 1;
            }
            assert(views(tmp@) =~= deep_code_fold(f, cs[j as int], coset));
            get_folding_value = tmp;
            j = j + 1;
        }
        assert(j == folds);
        get_folding_value
    }
}

/// The values a query result holds at the entries `k, k + len, ...` of a
/// leaf of `leaf_size` entries.
pub open spec fn leaf_values(vals: Map<usize, Mersenne61Mont>, k: int, len: int, leaf_size: nat) -> Seq<int> {
    Seq::new(leaf_size, |j: int| vals[(k + len * j) as usize]@)
}

/// One folding of the entries of a leaf: entry `l` combines entries `l` and
/// `l + h` of the `2h` entries with the inverse of the coset element at
/// `k + l * stride`, which is where entry `l` sits in the codeword.
pub open spec fn leaf_fold(vals: Seq<int>, k: int, stride: int, c: int, co: Coset) -> Seq<int> {
    let half = vals.len() / 2;
    Seq::new(
        half,
        |l: int|
            fmul(
                fadd(
                    fadd(vals[l], vals[l + half]),
                    fmul(fmul(c, fsub(vals[l], vals[l + half])), finv(co.elem((k + l * stride) as nat))),
                ),
                inv2(),
            ),
    )
}

/// `j` foldings of the entries of a leaf with the challenges `cs`, on the
/// cosets from `start` on.
pub open spec fn leaf_folds(vals: Seq<int>, k: int, stride: int, cs: Seq<int>, cosets: Seq<Coset>, start: int, j: nat) -> Seq<int>
    decreases j,
{
    if j == 0 {
        vals
    } else {
        leaf_fold(leaf_folds(vals, k, stride, cs, cosets, start, (j - 1) as nat), k, stride, cs[j - 1], cosets[start + j - 1])
    }
}

/// The leaf at `k` of a codeword with `leaves` leaves of `2^step` entries
/// folds to the next codeword's entry `k`: all its entries are opened in
/// `q`, entry `k` is opened in `next`, and the entries folded `step` times
/// with the challenges `cs` give it.
pub open spec fn leaf_ok(q: QueryResult, next: QueryResult, k: usize, leaves: int, step: nat, cs: Seq<int>, cosets: Seq<Coset>, start: int) -> bool {
    let leaf = pow2(step);
    &&& leaf_present(q.proof_values@, k as int, leaves, leaf)
    &&& next.proof_values@.contains_key(k)
    &&& leaf_folds(leaf_values(q.proof_values@, k as int, leaves, leaf), k as int, leaves, cs, cosets, start, step)[0]
        == next.proof_values@[k]@
}

/// Deep claim `t` of a proof, at `(d_t, d_t^2, ...)` of `n - t` coordinates,
/// has a shifted value per coordinate and folds with the last `n - t` of the
/// challenges `c` to the final value.
pub open spec fn deep_claim_checks(deep: Seq<Mersenne61Mont>, c: Seq<int>, n: nat, t: int, d: (Mersenne61Mont, Vec<Mersenne61Mont>), final_value: int) -> bool {
    let point = squares_chain(deep[t]@, (n - t) as nat);
    &&& d.1@.len() == n - t
    &&& deep_fold(d.0@, point, views(d.1@), c.subrange(t, n as int), (n - t) as nat) == final_value
}

/// The claims of a proof fold to its final value under the first `n`
/// challenges `cs`: the claim at the opening point `open_point`, with the
/// proof's evaluation and shifted values, and every deep claim at the
/// oracle's points `deep`.
pub open spec fn claims_ok(deep: Seq<Mersenne61Mont>, cs: Seq<int>, n: nat, open_point: Seq<int>, proof: Proof) -> bool {
    let c = cs.subrange(0, n as int);
    let k = open_point.len();
    &&& k <= n
    &&& proof.shuffle_evals@.len() == k
    &&& deep_fold(proof.evaluation@, open_point, views(proof.shuffle_evals@), c.subrange(n - k, n as int), k)
        == proof.final_value@
    &&& forall|t: int|
        0 <= t < proof.deep_evals@.len() ==> #[trigger] deep_claim_checks(
            deep,
            c,
            n,
            t,
            proof.deep_evals@[t],
            proof.final_value@,
        )
}

/// The number of leaves of round `i`'s codeword, of `2^step` entries each.
pub open spec fn round_leaves(cosets: Seq<Coset>, step: nat, i: int) -> int {
    cosets[i * step].size_view() as int / pow2(step) as int
}

/// In round `i`, the queried leaf `k` of the round's opening folds to the
/// next opening's entry `k`.
pub open spec fn round_leaf_ok(v: Verifier, proof: Proof, i: int, k: usize) -> bool {
    let step = v.step_view();
    let qs = proof.query_result@;
    let cs = views(v.oracle_view().folding_challenges@);
    &&& i + 1 < qs.len()
    &&& leaf_ok(
        qs[i],
        qs[i + 1],
        k,
        round_leaves(v.cosets_view(), step, i),
        step,
        cs.subrange(i * step, i * step + step),
        v.cosets_view(),
        i * step,
    )
}

/// The root against which round `i`'s opening is checked: the committed
/// root in the first round, and the proof's root `i - 1` after it, with one
/// leaf per `2^step` entries of the round's codeword.
pub open spec fn round_root(v: Verifier, proof: Proof, i: int) -> MerkleTreeVerifier {
    if i == 0 {
        v.roots_view()[0]
    } else {
        MerkleTreeVerifier {
            merkle_root: proof.merkle_root@[i - 1],
            leave_number: round_leaves(v.cosets_view(), v.step_view(), i) as usize,
        }
    }
}

/// Round `i`'s opening authenticates against the round's root at the
/// queried leaves.
pub open spec fn round_auth_ok(v: Verifier, proof: Proof, i: int) -> bool {
    merkle_ok(
        proof.query_result@[i],
        queried_leaves(v.oracle_view().query_list@, round_leaves(v.cosets_view(), v.step_view(), i)),
        pow2(v.step_view()),
        round_root(v, proof, i),
    )
}

/// What the verifier accepts: the first deep claim is the committed one;
/// there are at most `n + 1` deep claims, each with an oracle point; there is
/// an opening and a root for every round; the claims fold to the final
/// value; in every round the opening authenticates against the round's root
/// at the queried leaves, and each queried leaf folds to the next opening.
pub open spec fn accepts(v: Verifier, proof: Proof) -> bool {
    let n = v.total_round_view();
    let step = v.step_view();
    let rr = n / step;
    let ql = v.oracle_view().query_list@;
    &&& proof.deep_evals@.len() >= 1
    &&& proof.deep_evals@[0].0@ == v.first_deep_view()
    &&& proof.deep_evals@.len() <= n + 1
    &&& proof.deep_evals@.len() <= v.oracle_view().deep@.len()
    &&& proof.query_result@.len() >= rr
    &&& proof.merkle_root@.len() + 1 >= rr
    &&& claims_ok(v.oracle_view().deep@, views(v.oracle_view().folding_challenges@), n, v.open_point_view(), proof)
    &&& forall|i: int| 0 <= i < rr ==> #[trigger] round_auth_ok(v, proof, i)
    &&& forall|i: int, k: usize|
        0 <= i < rr && residues(ql, round_leaves(v.cosets_view(), step, i)).contains(k)
            ==> #[trigger] round_leaf_ok(v, proof, i, k)
}

/// The Deepfold verifier's state.
pub struct Verifier {
    total_round: usize,
    interpolate_cosets: Vec<Coset>,
    polynomial_roots: Vec<MerkleTreeVerifier>,
    first_deep: Mersenne61Mont,
    oracle: RandomOracle,
    open_point: Vec<Mersenne61Mont>,
    step: usize,
}

impl Verifier {
    /// The number of variables.
    pub closed spec fn total_round_view(&self) -> nat {
        self.total_round as nat
    }

    /// The number of foldings per round.
    pub closed spec fn step_view(&self) -> nat {
        self.step as nat
    }

    /// The cosets of the codewords.
    pub closed spec fn cosets_view(&self) -> Seq<Coset> {
        self.interpolate_cosets@
    }

    /// The Merkle roots known so far.
    pub closed spec fn roots_view(&self) -> Seq<MerkleTreeVerifier> {
        self.polynomial_roots@
    }

    /// The committed first deep claim's value.
    pub closed spec fn first_deep_view(&self) -> int {
        self.first_deep@
    }

    /// The oracle's draws.
    pub closed spec fn oracle_view(&self) -> RandomOracle {
        self.oracle
    }

    /// The opening point.
    pub closed spec fn open_point_view(&self) -> Seq<int> {
        views(self.open_point@)
    }

    /// The shape of the run is consistent and the oracle covers every round.
    pub closed spec fn wf(&self) -> bool {
        &&& deep_shape(self.total_round as nat, self.step as nat, self.interpolate_cosets@)
        &&& self.polynomial_roots@.len() >= 1
        &&& self.polynomial_roots@[0].leave_number == self.interpolate_cosets@[0].size_view() / pow2(self.step as nat)
        &&& self.oracle.deep@.len() >= self.total_round
        &&& self.oracle.folding_challenges@.len() >= self.total_round
    }

    /// The verifier for the commitment `commit`: it knows the root of the
    /// first codeword, of `2^step` entries per leaf, and the first deep
    /// claim's value, and draws a random opening point.
    pub fn new(total_round: usize, cosets: &Vec<Coset>, commit: Commit, oracle: &RandomOracle, step: usize) -> (r: Self)
        requires
            deep_shape(total_round as nat, step as nat, cosets@),
            oracle.deep@.len() >= total_round,
            oracle.folding_challenges@.len() >= total_round,
        ensures
            r.wf(),
            r.total_round_view() == total_round,
            r.step_view() == step,
            r.cosets_view() == cosets@,
            r.roots_view().len() == 1,
            r.roots_view()[0].merkle_root@ == commit.merkle_root@,
            r.roots_view()[0].leave_number == cosets@[0].size_view() / pow2(step as nat),
            r.first_deep_view() == commit.deep@,
            r.oracle_view().deep@ == oracle.deep@,
            r.oracle_view().folding_challenges@ == oracle.folding_challenges@,
            r.oracle_view().query_list@ == oracle.query_list@,
            r.open_point_view().len() == total_round,
    {
        proof {
            lemma_deep_shape_facts(total_round as nat, step as nat, cosets@);
        }
        let leaf = pow2_of(step);
        proof {
            lemma_pow2_pos(step as nat);
        }
        let mut polynomial_roots: Vec<MerkleTreeVerifier> = Vec::new();
        polynomial_roots.push(MerkleTreeVerifier::new(cosets[0].size() / leaf, &commit.merkle_root));
        let mut open_point: Vec<Mersenne61Mont> = Vec::new();
        let mut i: usize = 0;
        while i < total_round
            invariant
                i <= total_round,
                open_point@.len() == i,
            decreases total_round - i,
        {
            open_point.push(Mersenne61Mont::random_element());
            i = i + 1;
        }
        Verifier {
            total_round,
            interpolate_cosets: copy_cosets(cosets),
            polynomial_roots,
            first_deep: commit.deep,
            oracle: copy_oracle(oracle),
            open_point,
            step,
        }
    }

    /// The opening point.
    pub fn get_open_point(&self) -> (r: Vec<Mersenne61Mont>)
        ensures
            views(r@) == self.open_point_view(),
    {
        copy_elems(&self.open_point)
    }

    /// Replaces the opening point.
    pub fn set_open_point(&mut self, point: &Vec<Mersenne61Mont>)
        ensures
            final(self).open_point_view() == views(point@),
            final(self).total_round_view() == old(self).total_round_view(),
            final(self).step_view() == old(self).step_view(),
            final(self).cosets_view() == old(self).cosets_view(),
            final(self).roots_view() == old(self).roots_view(),
            final(self).first_deep_view() == old(self).first_deep_view(),
            final(self).oracle_view() == old(self).oracle_view(),
            final(self).wf() == old(self).wf(),
    {
        self.open_point = copy_elems(point);
    }

    /// Checks `proof` at the opening point: the commitment's deep claim, the
    /// folding of every claim to the final value, the authentication of each
    /// round's opening against the round's root, and the folding of the
    /// queried leaves from each round's opening to the next.
    pub fn verify(self, proof: Proof) -> (r: bool)
        requires
            self.wf(),
        ensures
            r == accepts(self, proof),
    {
        proof {
            lemma_deep_shape_facts(self.total_round as nat, self.step as nat, self.interpolate_cosets@);
        }
        let n = self.total_round;
        let step = self.step;
        let rr = n / step;
        if proof.deep_evals.len() == 0 {
            return false;
        }
        if !self.first_deep.equals(&proof.deep_evals[0].0) {
            return false;
        }
        if proof.deep_evals.len() > n + 1 || proof.deep_evals.len() > self.oracle.deep.len() {
            return false;
        }
        if proof.query_result.len() < rr || proof.merkle_root.len() < rr - 1 {
            return false;
        }
        if !self.claims_fold(&proof) {
            return false;
        }
        self.rounds_fold(&proof)
    }

    /// Checks that the claims of `proof` fold to its final value.
    fn claims_fold(&self, proof: &Proof) -> (r: bool)
        requires
            self.wf(),
            proof.deep_evals@.len() <= self.total_round + 1,
            proof.deep_evals@.len() <= self.oracle.deep@.len(),
        ensures
            r == claims_ok(
                self.oracle.deep@,
                views(self.oracle.folding_challenges@),
                self.total_round as nat,
                self.open_point_view(),
                *proof,
            ),
    {
        let n = self.total_round;
        let ghost cs = views(self.oracle.folding_challenges@);
        let ghost c = cs.subrange(0, n as int);
        let challenges = prefix_elems(&self.oracle.folding_challenges, n);
        assert(views(challenges@) == c);
        let k = self.open_point.len();
        if k > n || proof.shuffle_evals.len() != k {
            return false;
        }
        let shuffle = DeepEval::from_parts(copy_elems(&self.open_point), proof.evaluation, copy_elems(&proof.shuffle_evals));
        let folded = shuffle.verify(&challenges);
        if !folded.equals(&proof.final_value) {
            return false;
        }
        let mut t: usize = 0;
        while t < proof.deep_evals.len()
            invariant
                n == self.total_round,
                cs == views(self.oracle.folding_challenges@),
                c == cs.subrange(0, n as int),
                views(challenges@) == c,
                challenges@.len() == n,
                proof.deep_evals@.len() <= n + 1,
                proof.deep_evals@.len() <= self.oracle.deep@.len(),
                t <= proof.deep_evals@.len(),
                forall|u: int|
                    0 <= u < t ==> #[trigger] deep_claim_checks(
                        self.oracle.deep@,
                        c,
                        n as nat,
                        u,
                        proof.deep_evals@[u],
                        proof.final_value@,
                    ),
            decreases proof.deep_evals@.len() - t,
        {
            let point = squares_point(self.oracle.deep[t], n - t);
            if proof.deep_evals[t].1.len() != n - t {
                assert(!deep_claim_checks(self.oracle.deep@, c, n as nat, t as int, proof.deep_evals@[t as int], proof.final_value@));
                return false;
            }
            let d = DeepEval::from_parts(point, proof.deep_evals[t].0, copy_elems(&proof.deep_evals[t].1));
            let y = d.verify(&challenges);
            assert(c.subrange(n - (n - t), n as int) == c.subrange(t as int, n as int));
            if !y.equals(&proof.final_value) {
                assert(!deep_claim_checks(self.oracle.deep@, c, n as nat, t as int, proof.deep_evals@[t as int], proof.final_value@));
                return false;
            }
            assert(deep_claim_checks(self.oracle.deep@, c, n as nat, t as int, proof.deep_evals@[t as int], proof.final_value@));
            t = t + 1;
        }
        true
    }

    /// Checks, round by round, that the round's opening authenticates against
    /// the round's root and that every queried leaf of it folds to the next
    /// opening.
    fn rounds_fold(&self, proof: &Proof) -> (r: bool)
        requires
            self.wf(),
            proof.query_result@.len() >= self.total_round / self.step,
            proof.merkle_root@.len() + 1 >= self.total_round / self.step,
        ensures
            r == ((forall|i: int| 0 <= i < self.total_round / self.step ==> #[trigger] round_auth_ok(*self, *proof, i))
                && forall|i: int, k: usize|
                0 <= i < self.total_round / self.step && residues(
                    self.oracle.query_list@,
                    round_leaves(self.interpolate_cosets@, self.step as nat, i),
                ).contains(k) ==> #[trigger] round_leaf_ok(*self, *proof, i, k)),
    {
        let n = self.total_round;
        let step = self.step;
        let rr = n / step;
        let ghost m = (n + CODE_RATE) as nat;
        proof {
            lemma_deep_shape_facts(n as nat, step as nat, self.interpolate_cosets@);
        }
        let leaf = pow2_of(step);
        proof {
            lemma_pow2_pos(step as nat);
        }
        let mut i: usize = 0;
        while i < rr
            invariant
                self.wf(),
                n == self.total_round,
                step == self.step,
                rr == n / step,
                rr * step <= n,
                leaf == pow2(step as nat),
                leaf > 0,
                m == n + CODE_RATE,
                i <= rr,
                proof.query_result@.len() >= rr,
                proof.merkle_root@.len() + 1 >= rr,
                forall|i2: int| 0 <= i2 < i ==> #[trigger] round_auth_ok(*self, *proof, i2),
                forall|i2: int, k: usize|
                    0 <= i2 < i && residues(
                        self.oracle.query_list@,
                        round_leaves(self.interpolate_cosets@, step as nat, i2),
                    ).contains(k) ==> #[trigger] round_leaf_ok(*self, *proof, i2, k),
            decreases rr - i,
        {
            proof {
                vstd::arithmetic::mul::lemma_mul_inequality(i as int + 1, rr as int, step as int);
                vstd::arithmetic::mul::lemma_mul_is_distributive_add_other_way(step as int, i as int, 1);
                lemma_pow2_div((m - i * step) as nat, step as nat);
                lemma_pow2_pos((m - i * step - step) as nat);
            }
            let size = self.interpolate_cosets[i * step].size();
            assert(size == pow2((m - i * step) as nat));
            let leaves = size / leaf;
            proof {
                vstd::arithmetic::div_mod::lemma_fundamental_div_mod(size as int, leaf as int);
            }
            let leaf_indices = fold_indices(&self.oracle.query_list, leaves);
            proof {
                let ghost want = queried_leaves(self.oracle.query_list@, leaves as int);
                assert(query_leaves(leaf_indices@, self.oracle.query_list@, leaves as int));
                assert(query_leaves(want, self.oracle.query_list@, leaves as int));
                lemma_sorted_unique(leaf_indices@, want);
                assert(is_power_of_two(leaves as int)) by {
                    assert(pow2((m - i * step - step) as nat) == leaves);
                }
                vstd::arithmetic::mul::lemma_mul_is_commutative(leaves as int, leaf as int);
            }
            let authenticated = if i == 0 {
                proof {
                    assert(self.interpolate_cosets@[0 * step] == self.interpolate_cosets@[0]);
                }
                proof.query_result[i].verify_merkle_tree(&leaf_indices, leaf, &self.polynomial_roots[0])
            } else {
                let root = MerkleTreeVerifier { merkle_root: proof.merkle_root[i - 1], leave_number: leaves };
                proof.query_result[i].verify_merkle_tree(&leaf_indices, leaf, &root)
            };
            if !authenticated {
                assert(!round_auth_ok(*self, *proof, i as int));
                return false;
            }
            assert(round_auth_ok(*self, *proof, i as int));
            let mut t: usize = 0;
            while t < leaf_indices.len()
                invariant
                    self.wf(),
                    n == self.total_round,
                    step == self.step,
                    rr == n / step,
                    i < rr,
                    leaves == round_leaves(self.interpolate_cosets@, step as nat, i as int),
                    leaves > 0,
                    leaf == pow2(step as nat),
                    leaves * leaf == size,
                    size == self.interpolate_cosets@[i * step].size_view(),
                    leaf_indices@.to_set() == residues(self.oracle.query_list@, leaves as int),
                    forall|u: int| 0 <= u < leaf_indices@.len() ==> #[trigger] leaf_indices@[u] < leaves,
                    t <= leaf_indices@.len(),
                    forall|u: int| 0 <= u < t ==> #[trigger] round_leaf_ok(*self, *proof, i as int, leaf_indices@[u]),
                decreases leaf_indices@.len() - t,
            {
                let k = leaf_indices[t];
                assert(leaf_indices@.to_set().contains(k)) by {
                    assert(leaf_indices@.contains(k));
                }
                assert(residues(self.oracle.query_list@, round_leaves(self.interpolate_cosets@, step as nat, i as int)).contains(k));
                if i + 1 >= proof.query_result.len() {
                    assert(!round_leaf_ok(*self, *proof, i as int, k));
                    return false;
                }
                if !self.leaf_check(&proof.query_result[i], &proof.query_result[i + 1], k, leaves, i) {
                    assert(!round_leaf_ok(*self, *proof, i as int, k));
                    return false;
                }
                assert(round_leaf_ok(*self, *proof, i as int, leaf_indices@[t as int]));
                t = t + 1;
            }
            assert forall|i2: int, k: usize|
                0 <= i2 < i + 1 && residues(
                    self.oracle.query_list@,
                    round_leaves(self.interpolate_cosets@, step as nat, i2),
                ).contains(k) implies #[trigger] round_leaf_ok(*self, *proof, i2, k) by {
                if i2 == i {
                    assert(leaf_indices@.to_set().contains(k));
                    let u = choose|u: int| 0 <= u < leaf_indices@.len() && leaf_indices@[u] == k;
                    assert(round_leaf_ok(*self, *proof, i as int, leaf_indices@[u]));
                }
            }
            i = i + 1;
        }
        true
    }

    /// Checks that the leaf at `k` of round `round`'s opening `q`, in a
    /// codeword of `leaves` leaves, folds to entry `k` of `next`.
    fn leaf_check(&self, q: &QueryResult, next: &QueryResult, k: usize, leaves: usize, round: usize) -> (r: bool)
        requires
            self.wf(),
            round < self.total_round / self.step,
            leaves == round_leaves(self.interpolate_cosets@, self.step as nat, round as int),
            leaves * pow2(self.step as nat) == self.interpolate_cosets@[round * self.step].size_view(),
            k < leaves,
        ensures
            r == leaf_ok(
                *q,
                *next,
                k,
                leaves as int,
                self.step as nat,
                views(self.oracle.folding_challenges@).subrange(round * self.step, round * self.step + self.step),
                self.interpolate_cosets@,
                round * self.step,
            ),
    {
        let n = self.total_round;
        let step = self.step;
        let ghost m = (n + CODE_RATE) as nat;
        let ghost start = round * step;
        let ghost cs = views(self.oracle.folding_challenges@).subrange(start as int, start + step);
        proof {
            lemma_deep_shape_facts(n as nat, step as nat, self.interpolate_cosets@);
            vstd::arithmetic::mul::lemma_mul_inequality(round as int + 1, (n / step) as int, step as int);
            vstd::arithmetic::mul::lemma_mul_is_distributive_add_other_way(step as int, round as int, 1);
        }
        let leaf = pow2_of(step);
        let size = self.interpolate_cosets[round * step].size();
        let ghost vals = q.proof_values@;
        let ghost v0 = leaf_values(vals, k as int, leaves as int, leaf as nat);
        let mut cur: Vec<Mersenne61Mont> = Vec::new();
        let mut j: usize = 0;
        while j < leaf
            invariant
                step == self.step,
                leaf == pow2(step as nat),
                leaves * leaf == size,
                k < leaves,
                vals == q.proof_values@,
                v0 == leaf_values(vals, k as int, leaves as int, leaf as nat),
                j <= leaf,
                forall|i: int| 0 <= i < j ==> #[trigger] vals.contains_key((k + leaves * i) as usize),
                views(cur@) == v0.subrange(0, j as int),
            decreases leaf - j,
        {
            proof {
                vstd::arithmetic::mul::lemma_mul_inequality(j as int + 1, leaf as int, leaves as int);
                vstd::arithmetic::mul::lemma_mul_is_commutative(leaves as int, j as int);
                vstd::arithmetic::mul::lemma_mul_is_commutative(leaves as int, leaf as int);
                vstd::arithmetic::mul::lemma_mul_is_distributive_add_other_way(leaves as int, j as int, 1);
            }
            let pos = k + leaves * j;
            match q.proof_values.get(&pos) {
                None => {
                    assert(!vals.contains_key(pos));
                    assert(pos == (k + leaves * j) as usize);
                    assert(!leaf_present(vals, k as int, leaves as int, leaf as nat));
                    return false;
                },
                Some(x) => {
                    let ghost before = views(cur@);
                    cur.push(*x);
                    assert(views(cur@) =~= before.push(x@));
                    assert(views(cur@) =~= v0.subrange(0, j + 1));
                },
            }
            j = j + 1;
        }
        assert(views(cur@) =~= v0);
        assert(leaf_present(vals, k as int, leaves as int, leaf as nat));
        let inv_two = Mersenne61Mont::inverse_2();
        let mut f: usize = 0;
        while f < step
            invariant
                self.wf(),
                n == self.total_round,
                step == self.step,
                round < n / step,
                start == round * step,
                start + step <= n,
                m == n + CODE_RATE,
                leaf == pow2(step as nat),
                leaves * leaf == size,
                size == self.interpolate_cosets@[start].size_view(),
                k < leaves,
                cs == views(self.oracle.folding_challenges@).subrange(start as int, start + step),
                inv_two@ == inv2(),
                f <= step,
                cur@.len() == pow2((step - f) as nat),
                cur@.len() <= leaf,
                views(cur@) == leaf_folds(v0, k as int, leaves as int, cs, self.interpolate_cosets@, start as int, f as nat),
            decreases step - f,
        {
            let co = self.interpolate_cosets[round * step + f];
            let c = self.oracle.folding_challenges[round * step + f];
            assert(c@ == cs[f as int]);
            proof {
                lemma_pow2_unfold((step - f) as nat);
            }
            let half = cur.len() / 2;
            let ghost fv = views(cur@);
            proof {
                if f + 1 < step {
                    vstd::arithmetic::power2::lemma_pow2_strictly_increases((step - f - 1) as nat, step as nat);
                }
            }
            let mut tmp: Vec<Mersenne61Mont> = Vec::new();
            let mut l: usize = 0;
            while l < half
                invariant
                    half == cur@.len() / 2,
                    half * 2 == cur@.len(),
                    cur@.len() <= leaf,
                    fv == views(cur@),
                    c@ == cs[f as int],
                    inv_two@ == inv2(),
                    leaves * leaf == size,
                    half <= leaf,
                    k < leaves,
                    l <= half,
                    views(tmp@) == leaf_fold(fv, k as int, leaves as int, c@, co).subrange(0, l as int),
                decreases half - l,
            {
                proof {
                    vstd::arithmetic::mul::lemma_mul_inequality(l as int + 1, leaf as int, leaves as int);
                    vstd::arithmetic::mul::lemma_mul_is_commutative(leaves as int, l as int);
                    vstd::arithmetic::mul::lemma_mul_is_commutative(leaves as int, leaf as int);
                    vstd::arithmetic::mul::lemma_mul_is_distributive_add_other_way(leaves as int, l as int, 1);
                }
                let x = cur[l];
                let nx = cur[l + half];
                let inv = co.element_inv_at(k + l * leaves);
                let v = x.add(nx).add(c.mul(x.sub(nx)).mul(inv)).mul(inv_two);
                let ghost before = views(tmp@);
                tmp.push(v);
                assert(views(tmp@) =~= before.push(v@));
                assert(views(tmp@) =~= leaf_fold(fv, k as int, leaves as int, c@, co).subrange(0, l + 1));
                l = l + 1;
            }
            assert(views(tmp@) =~= leaf_fold(fv, k as int, leaves as int, c@, co));
            cur = tmp;
            f = f + 1;
        }
        proof {
            vstd::arithmetic::power2::lemma2_to64();
        }
        match next.proof_values.get(&k) {
            None => false,
            Some(y) => cur[0].equals(y),
        }
    }
}

/// The first `len` entries of a list of field elements.
fn prefix_elems(v: &Vec<Mersenne61Mont>, len: usize) -> (r: Vec<Mersenne61Mont>)
    requires
        len <= v.len(),
    ensures
        r@ == v@.subrange(0, len as int),
{
    let mut out: Vec<Mersenne61Mont> = Vec::new();
    for i in 0..len
        invariant
            len <= v.len(),
            out@ == v@.subrange(0, i as int),
    {
        out.push(v[i]);
        assert(out@ =~= v@.subrange(0, i + 1));
    }
    out
}

/// Every opening of an honest proof authenticates: for the prover after
/// proving, the proof read off it, and a verifier of the same shape and
/// queries that holds the prover's first root, each round's opening passes
/// the verifier's check against the round's root at the queried leaves.
pub proof fn lemma_honest_openings_authenticate(before: Prover, p: Prover, proof: Proof, v: Verifier, point: Seq<int>)
    requires
        before.wf(),
        p.wf(),
        proved(before, p, point),
        proof_from(p, proof),
        v.wf(),
        v.total_round_view() == before.total_round_view(),
        v.step_view() == before.step_view(),
        v.cosets_view() == before.cosets_view(),
        v.oracle_view().query_list@ == before.oracle_view().query_list@,
        v.roots_view()[0].merkle_root@ == iv_root(before.interpolations_view()[0]),
    ensures
        forall|i: int| 0 <= i < v.total_round_view() / v.step_view() ==> #[trigger] round_auth_ok(v, proof, i),
{
    let n = v.total_round_view();
    let step = v.step_view();
    let rr = n / step;
    let m = (n + CODE_RATE) as nat;
    let it = p.interpolations_view();
    let ql = v.oracle_view().query_list@;
    lemma_deep_shape_facts(n, step, v.cosets_view());
    assert forall|i: int| 0 <= i < rr implies #[trigger] round_auth_ok(v, proof, i) by {
        vstd::arithmetic::mul::lemma_mul_inequality(i + 1, rr as int, step as int);
        vstd::arithmetic::mul::lemma_mul_is_distributive_add_other_way(step as int, i, 1);
        lemma_pow2_div((m - i * step) as nat, step);
        lemma_pow2_pos((m - i * step - step) as nat);
        v.cosets_view()[i * step].lemma_size_bound();
        let iv = it[i];
        let len = round_leaves(v.cosets_view(), step, i);
        assert(it.len() == rr + 1);
        assert(p.cosets_view() == v.cosets_view());
        assert(p.interpolations@[i].wf());
        assert(p.step as nat == step);
        assert(iv.wf() && iv.leaf_count() == pow2(step) && iv.values().len() == v.cosets_view()[i * step].size_view());
        assert(iv.leaves_len() == len);
        lemma_pow2_pos(step);
        assert(0 < len <= usize::MAX) by {
            vstd::arithmetic::div_mod::lemma_div_is_ordered_by_denominator(
                v.cosets_view()[i * step].size_view() as int,
                1,
                pow2(step) as int,
            );
        }
        lemma_queried_leaves(ql, len);
        let idx = queried_leaves(ql, len);
        let q = proof.query_result@[i];
        assert(query_of(q, iv, idx));
        let mv = round_root(v, proof, i);
        if i == 0 {
            assert(v.cosets_view()[0 * step as int] == v.cosets_view()[0]);
        } else {
            assert((proof.merkle_root@[i - 1])@ == iv_root(it[i]));
        }
        assert(mv.merkle_root@ == iv_root(iv));
        assert(mv.leave_number == iv.leaves_len());
        crate::interpolation::lemma_query_verifies(iv, q, idx, mv);
    }
}

/// Folding the entries of the leaf at `k` of a codeword of `len` leaves, `j`
/// times, gives the entries of the leaf at `k` of the codeword folded `j`
/// times, when each coset has the length of the codeword it folds.
proof fn lemma_leaf_folds_track(
    f: Seq<int>,
    k: int,
    len: int,
    cs: Seq<int>,
    cosets: Seq<Coset>,
    start: int,
    s: nat,
    j: nat,
)
    requires
        0 <= k < len,
        j <= s,
        f.len() == len * pow2(s),
        forall|t: int| 0 <= t < j ==> (#[trigger] cosets[start + t]).size_view() == len * pow2((s - t) as nat),
    ensures
        deep_code_folds(f, cs, cosets, start, j).len() == len * pow2((s - j) as nat),
        leaf_folds(Seq::new(pow2(s), |l: int| f[k + len * l]), k, len, cs, cosets, start, j) == Seq::new(
            pow2((s - j) as nat),
            |l: int| deep_code_folds(f, cs, cosets, start, j)[k + len * l],
        ),
    decreases j,
{
    let v0 = Seq::new(pow2(s), |l: int| f[k + len * l]);
    if j > 0 {
        lemma_leaf_folds_track(f, k, len, cs, cosets, start, s, (j - 1) as nat);
        let g = deep_code_folds(f, cs, cosets, start, (j - 1) as nat);
        let v = leaf_folds(v0, k, len, cs, cosets, start, (j - 1) as nat);
        let co = cosets[start + j - 1];
        let c = cs[j - 1];
        let e = (s - j) as nat;
        let half = pow2(e);
        lemma_pow2_unfold((s - j + 1) as nat);
        assert(pow2((s - (j - 1)) as nat) == 2 * half);
        assert(co.size_view() == len * pow2((s - (j - 1)) as nat));
        let sz = co.size_view() as int;
        assert(sz / 2 == len * half) by (nonlinear_arith)
            requires
                sz == len * (2 * half),
        ;
        let h = deep_code_folds(f, cs, cosets, start, j);
        assert(h == deep_code_fold(g, c, co));
        assert(h.len() == len * half);
        assert(v.len() == 2 * half);
        let w = leaf_folds(v0, k, len, cs, cosets, start, j);
        assert(w == leaf_fold(v, k, len, c, co));
        assert forall|l: int| 0 <= l < half implies #[trigger] w[l] == h[k + len * l] by {
            let i = k + len * l;
            assert(0 <= i < len * half) by (nonlinear_arith)
                requires
                    0 <= k < len,
                    0 <= l < half,
                    i == k + len * l,
            ;
            assert(i + len * half == k + len * (l + half)) by (nonlinear_arith)
                requires
                    i == k + len * l,
            ;
            assert(v[l] == g[i]);
            assert(v[l + half] == g[k + len * (l + half)]);
            assert(k + l * len == i) by (nonlinear_arith)
                requires
                    i == k + len * l,
            ;
        }
        assert(w =~= Seq::new(half, |l: int| h[k + len * l]));
    } else {
        assert(v0 =~= Seq::new(pow2(s), |l: int| f[k + len * l]));
    }
}

/// In an honest proof, the queried leaf `k` of round `i`'s opening folds to
/// the next opening's entry `k`.
proof fn lemma_honest_leaf_folds(
    before: Prover,
    p: Prover,
    proof: Proof,
    v: Verifier,
    point: Seq<int>,
    i: int,
    k: usize,
)
    requires
        before.wf(),
        p.wf(),
        proved(before, p, point),
        proof_from(p, proof),
        v.wf(),
        v.total_round_view() == before.total_round_view(),
        v.step_view() == before.step_view(),
        v.cosets_view() == before.cosets_view(),
        v.oracle_view().query_list@ == before.oracle_view().query_list@,
        v.oracle_view().folding_challenges@ == before.oracle_view().folding_challenges@,
        0 <= i < v.total_round_view() / v.step_view(),
        residues(v.oracle_view().query_list@, round_leaves(v.cosets_view(), v.step_view(), i)).contains(k),
    ensures
        round_leaf_ok(v, proof, i, k),
{
    let n = v.total_round_view();
    let step = v.step_view();
    let rr = n / step;
    let m = (n + CODE_RATE) as nat;
    let it = p.interpolations_view();
    let ql = v.oracle_view().query_list@;
    let cosets = v.cosets_view();
    let leaf = pow2(step);
    lemma_deep_shape_facts(n, step, cosets);
    vstd::arithmetic::mul::lemma_mul_inequality(i + 1, rr as int, step as int);
    vstd::arithmetic::mul::lemma_mul_inequality(i + 2, rr as int + 1, step as int);
    vstd::arithmetic::mul::lemma_mul_is_distributive_add_other_way(step as int, i, 1);
    vstd::arithmetic::mul::lemma_mul_is_distributive_add_other_way(step as int, i + 1, 1);
    lemma_pow2_pos(step);
    let e = (m - i * step - step) as nat;
    let e2 = (m - (i + 1) * step - step) as nat;
    lemma_pow2_div((m - i * step) as nat, step);
    lemma_pow2_div((m - (i + 1) * step) as nat, step);
    lemma_pow2_pos(e);
    lemma_pow2_pos(e2);
    vstd::arithmetic::power2::lemma_pow2_adds(e, step);
    vstd::arithmetic::power2::lemma_pow2_adds(e2, step);
    let len = round_leaves(cosets, step, i);
    let len2 = round_leaves(cosets, step, i + 1);
    assert(len == pow2(e));
    assert(len2 == pow2(e2));
    assert(e2 + step == e);
    assert(len == len2 * leaf);
    cosets[i * step].lemma_size_bound();
    let size = cosets[i * step].size_view() as int;
    assert(size == len * leaf);
    assert(0 < len <= usize::MAX) by {
        vstd::arithmetic::div_mod::lemma_div_is_ordered_by_denominator(size, 1, leaf as int);
    }
    assert(0 < len2 <= len);
    // the codewords of the two rounds and their openings
    let iv = it[i];
    let iv2 = it[i + 1];
    assert(it.len() == rr + 1);
    assert(p.cosets_view() == cosets);
    assert(p.interpolations@[i].wf());
    assert(p.interpolations@[i + 1].wf());
    assert(p.step as nat == step);
    assert(iv.values().len() == size);
    assert(iv.leaves_len() == len);
    assert(iv2.leaves_len() == len2);
    lemma_queried_leaves(ql, len);
    lemma_queried_leaves(ql, len2);
    let idx = queried_leaves(ql, len);
    let idx2 = queried_leaves(ql, len2);
    let q = proof.query_result@[i];
    let q2 = proof.query_result@[i + 1];
    assert(query_of(q, iv, idx));
    assert(query_of(q2, iv2, idx2));
    // the leaf at k is opened in round i
    assert(idx.to_set().contains(k));
    let t0 = choose|t: int| 0 <= t < idx.len() && idx[t] == k;
    assert forall|j: int| 0 <= j < leaf implies #[trigger] q.proof_values@.contains_key((k + len * j) as usize) by {
        assert(0 <= k + len * j < size) by (nonlinear_arith)
            requires
                0 <= k < len,
                0 <= j < leaf,
                size == len * leaf,
        ;
        assert(((k + len * j) as usize) == leaf_pos(idx[t0] as int, len, j));
        assert(opened_positions(idx, len, leaf).contains((k + len * j) as usize));
    }
    assert(leaf_present(q.proof_values@, k as int, len, leaf));
    // entry k is opened in round i + 1
    let r = k as int % len2;
    let jj = k as int / len2;
    assert(k as int == r + len2 * jj && 0 <= r < len2 && 0 <= jj < leaf) by {
        vstd::arithmetic::div_mod::lemma_fundamental_div_mod(k as int, len2);
        assert(0 <= jj < leaf) by (nonlinear_arith)
            requires
                jj == k as int / len2,
                0 <= k < len,
                len == len2 * leaf,
                len2 > 0,
        ;
    }
    let t1 = choose|t: int| 0 <= t < ql.len() && k == #[trigger] ql[t] % (len as usize);
    assert(r == ql[t1] as int % len2) by {
        vstd::arithmetic::div_mod::lemma_mod_mod(ql[t1] as int, len2, leaf as int);
    }
    assert(residues(ql, len2).contains(r as usize));
    assert(idx2.to_set().contains(r as usize));
    let t2 = choose|t: int| 0 <= t < idx2.len() && idx2[t] == r as usize;
    assert(k == leaf_pos(idx2[t2] as int, len2, jj));
    assert(opened_positions(idx2, len2, leaf).contains(k));
    assert(q2.proof_values@.contains_key(k));
    // the folded leaf is entry k of the next codeword
    let f = iv.values();
    let cs = views(v.oracle_view().folding_challenges@).subrange(i * step, i * step + step);
    assert forall|t: int| 0 <= t < step implies (#[trigger] cosets[i * step + t]).size_view() == len * pow2(
        (step - t) as nat,
    ) by {
        vstd::arithmetic::power2::lemma_pow2_adds(e, (step - t) as nat);
    }
    lemma_leaf_folds_track(f, k as int, len, cs, cosets, i * step, step, step);
    let vals = leaf_values(q.proof_values@, k as int, len, leaf);
    assert forall|l: int| 0 <= l < leaf implies #[trigger] vals[l] == f[k + len * l] by {
        assert(0 <= k + len * l < size) by (nonlinear_arith)
            requires
                0 <= k < len,
                0 <= l < leaf,
                size == len * leaf,
        ;
        assert(q.proof_values@.contains_key((k + len * l) as usize));
    }
    assert(vals =~= Seq::new(leaf, |l: int| f[k + len * l]));
    assert(iv2.values() == deep_code_folds(f, cs, cosets, i * step, step));
    assert(q2.proof_values@[k]@ == iv2.values()[k as int]);
}

/// Every queried leaf of an honest proof folds to the next opening: for the
/// prover after proving, the proof read off it, and a verifier of the same
/// shape, queries and challenges, each queried leaf of each round's opening
/// folds with the round's challenges to the next opening's entry.
pub proof fn lemma_honest_leaves_fold(before: Prover, p: Prover, proof: Proof, v: Verifier, point: Seq<int>)
    requires
        before.wf(),
        p.wf(),
        proved(before, p, point),
        proof_from(p, proof),
        v.wf(),
        v.total_round_view() == before.total_round_view(),
        v.step_view() == before.step_view(),
        v.cosets_view() == before.cosets_view(),
        v.oracle_view().query_list@ == before.oracle_view().query_list@,
        v.oracle_view().folding_challenges@ == before.oracle_view().folding_challenges@,
    ensures
        forall|i: int, k: usize|
            0 <= i < v.total_round_view() / v.step_view() && residues(
                v.oracle_view().query_list@,
                round_leaves(v.cosets_view(), v.step_view(), i),
            ).contains(k) ==> #[trigger] round_leaf_ok(v, proof, i, k),
{
    assert forall|i: int, k: usize|
        0 <= i < v.total_round_view() / v.step_view() && residues(
            v.oracle_view().query_list@,
            round_leaves(v.cosets_view(), v.step_view(), i),
        ).contains(k) implies #[trigger] round_leaf_ok(v, proof, i, k) by {
        lemma_honest_leaf_folds(before, p, proof, v, point, i, k);
    }
}

/// An honest proof is accepted exactly when its final value is the
/// polynomial's value at the challenges: for the prover before and after
/// proving at `point` (its first deep claim made as the constructor makes
/// it), the proof read off it, and a verifier at `point` that holds the
/// prover's commitment (the first root and the first deep claim) and has the
/// same shape, oracle draws and queries, every other check passes.
pub proof fn lemma_honest_acceptance(before: Prover, p: Prover, proof: Proof, v: Verifier, point: Seq<int>)
    requires
        before.wf(),
        p.wf(),
        before.deep_eval_view().len() >= 1,
        deep_claim_ok(
            before.deep_eval_view()[0],
            before.hypercube_view(),
            views(before.oracle_view().folding_challenges@),
            before.oracle_view().deep@,
            before.total_round_view(),
            0,
            0,
        ),
        point.len() == before.total_round_view(),
        canon(point),
        proved(before, p, point),
        proof_from(p, proof),
        v.wf(),
        v.total_round_view() == before.total_round_view(),
        v.step_view() == before.step_view(),
        v.cosets_view() == before.cosets_view(),
        v.oracle_view().deep@ == before.oracle_view().deep@,
        v.oracle_view().query_list@ == before.oracle_view().query_list@,
        v.oracle_view().folding_challenges@ == before.oracle_view().folding_challenges@,
        v.roots_view()[0].merkle_root@ == iv_root(before.interpolations_view()[0]),
        v.first_deep_view() == before.deep_eval_view()[0].first_view(),
        v.open_point_view() == point,
    ensures
        accepts(v, proof) <==> proof.final_value@ == ml_eval(
            views(before.oracle_view().folding_challenges@).subrange(0, before.total_round_view() as int),
            before.hypercube_view(),
        ),
{
    let n = v.total_round_view();
    let step = v.step_view();
    lemma_deep_shape_facts(n, step, v.cosets_view());
    vstd::arithmetic::div_mod::lemma_div_is_ordered_by_denominator(n as int, 1, step as int);
    assert(n >= 1);
    lemma_honest_claims(before, p, proof, point);
    lemma_honest_openings_authenticate(before, p, proof, v, point);
    lemma_honest_leaves_fold(before, p, proof, v, point);
    assert(proof.deep_evals@[0].0@ == p.deep_eval_view()[0].first_view());
    assert(deep_claim_ok(
        p.deep_eval_view()[0],
        before.hypercube_view(),
        views(before.oracle_view().folding_challenges@),
        before.oracle_view().deep@,
        n,
        0int as nat,
        (n - 0int) as nat,
    ));
    assert(p.deep_eval_view()[0].first_view() == before.deep_eval_view()[0].first_view());
    assert(proof.query_result@.len() == p.interpolations_view().len());
}

/// A prover as `Prover::new` makes it for `polynomial` under these
/// parameters, before it proves anything.
pub open spec fn fresh_prover(
    p: Prover,
    total_round: nat,
    cosets: Seq<Coset>,
    polynomial: MultilinearPolynomial,
    oracle: RandomOracle,
    step: nat,
) -> bool {
    &&& p.wf()
    &&& p.total_round_view() == total_round
    &&& p.step_view() == step
    &&& p.cosets_view() == cosets
    &&& p.hypercube_view() == polynomial.evals_view()
    &&& p.oracle_view().deep@ == oracle.deep@
    &&& p.oracle_view().folding_challenges@ == oracle.folding_challenges@
    &&& p.oracle_view().query_list@ == oracle.query_list@
    &&& p.interpolations_view().len() == 1
    &&& p.interpolations_view()[0].values() == dft(
        polynomial.evals_view(),
        cosets[0].shift_view(),
        cosets[0].generator_view(),
        cosets[0].size_view(),
    )
}

/// Why the scheme refuses to open.
#[derive(Clone, Copy, Debug, PartialEq, Eq, Structural)]
pub enum DeepfoldOpenError {
    /// The claimed value is not the polynomial's value at the point.
    EvaluationMismatch,
}

/// Opens `polynomial` at `point` to the claimed value `eval`: a fresh
/// prover proves the evaluation at `point`, and its proof is returned when
/// the value it proves is `eval`.
pub fn deepfold_open(
    total_round: usize,
    cosets: &Vec<Coset>,
    polynomial: MultilinearPolynomial,
    oracle: &RandomOracle,
    step: usize,
    point: Vec<Mersenne61Mont>,
    eval: Mersenne61Mont,
) -> (r: Result<Proof, DeepfoldOpenError>)
    requires
        deep_shape(total_round as nat, step as nat, cosets@),
        polynomial.wf(),
        polynomial.num_vars_view() == total_round,
        oracle.deep@.len() >= total_round,
        oracle.deep@.len() >= 1,
        oracle.folding_challenges@.len() >= total_round,
        point@.len() == total_round,
    ensures
        (r is Ok) == (ml_eval(views(point@), polynomial.evals_view()) == eval@),
        r is Ok ==> exists|before: Prover, after: Prover|
            #![trigger proved(before, after, views(point@))]
            fresh_prover(before, total_round as nat, cosets@, polynomial, *oracle, step as nat) && after.wf()
                && proved(before, after, views(point@)) && proof_from(after, r->Ok_0),
{
    let ghost pt = views(point@);
    let ghost poly = polynomial;
    let prover = Prover::new(total_round, cosets, polynomial, oracle, step);
    let ghost before = prover;
    assert(fresh_prover(before, total_round as nat, cosets@, poly, *oracle, step as nat));
    let proof = prover.generate_proof(point);
    proof {
        let after = choose|p: Prover| p.wf() && proved(before, p, pt) && #[trigger] proof_from(p, proof);
        assert(proved(before, after, pt));
        assert(proof.evaluation@ == ml_eval(pt, poly.evals_view()));
    }
    if proof.evaluation.equals(&eval) {
        Ok(proof)
    } else {
        Err(DeepfoldOpenError::EvaluationMismatch)
    }
}

/// A verifier as `Verifier::new` makes it for the commitment `commit`,
/// with its opening point set to `point`.
pub open spec fn verifier_for(
    v: Verifier,
    total_round: nat,
    cosets: Seq<Coset>,
    commit: Commit,
    oracle: RandomOracle,
    step: nat,
    point: Seq<int>,
) -> bool {
    &&& v.wf()
    &&& v.total_round_view() == total_round
    &&& v.step_view() == step
    &&& v.cosets_view() == cosets
    &&& v.roots_view().len() == 1
    &&& v.roots_view()[0].merkle_root@ == commit.merkle_root@
    &&& v.roots_view()[0].leave_number == cosets[0].size_view() / pow2(step)
    &&& v.first_deep_view() == commit.deep@
    &&& v.oracle_view().deep@ == oracle.deep@
    &&& v.oracle_view().folding_challenges@ == oracle.folding_challenges@
    &&& v.oracle_view().query_list@ == oracle.query_list@
    &&& v.open_point_view() == point
}

/// Why the verifier rejects an opening.
#[derive(Clone, Copy, Debug, PartialEq, Eq, Structural)]
pub enum DeepfoldVerifyError {
    /// The proof's value is not the claimed one.
    EvaluationMismatch,
    /// The proof fails the verifier's checks.
    Rejected,
}

/// Verifies an opening of the commitment `commit` at `point` to `eval`: the
/// proof must prove `eval`, and a verifier for the commitment at `point`
/// must accept it.
pub fn deepfold_verify(
    total_round: usize,
    cosets: &Vec<Coset>,
    commit: Commit,
    oracle: &RandomOracle,
    step: usize,
    point: &Vec<Mersenne61Mont>,
    eval: Mersenne61Mont,
    proof: Proof,
) -> (r: Result<(), DeepfoldVerifyError>)
    requires
        deep_shape(total_round as nat, step as nat, cosets@),
        oracle.deep@.len() >= total_round,
        oracle.folding_challenges@.len() >= total_round,
        point@.len() == total_round,
    ensures
        proof.evaluation@ != eval@ ==> r == Err::<(), DeepfoldVerifyError>(DeepfoldVerifyError::EvaluationMismatch),
        proof.evaluation@ == eval@ ==> exists|v: Verifier|
            #![trigger accepts(v, proof)]
            verifier_for(v, total_round as nat, cosets@, commit, *oracle, step as nat, views(point@)) && (r
                is Ok) == accepts(v, proof) && (r is Err ==> r == Err::<(), DeepfoldVerifyError>(
                DeepfoldVerifyError::Rejected,
            )),
{
    if !proof.evaluation.equals(&eval) {
        return Err(DeepfoldVerifyError::EvaluationMismatch);
    }
    let ghost cm = commit;
    let mut verifier = Verifier::new(total_round, cosets, commit, oracle, step);
    verifier.set_open_point(point);
    let ghost v = verifier;
    assert(verifier_for(v, total_round as nat, cosets@, cm, *oracle, step as nat, views(point@)));
    let ok = verifier.verify(proof);
    assert(ok == accepts(v, proof));
    if ok {
        Ok(())
    } else {
        Err(DeepfoldVerifyError::Rejected)
    }
}

/// Soundness of the verifier's Merkle checks: when it accepts, the first
/// round's opening authenticates at the queried leaves against the committed
/// root, and every later round's opening against the root the proof sends
/// for that round.
pub proof fn lemma_accepts_authenticates_every_round(v: Verifier, proof: Proof)
    requires
        accepts(v, proof),
    ensures
        ({
            let rr = v.total_round_view() / v.step_view();
            let ql = v.oracle_view().query_list@;
            &&& rr >= 1 ==> merkle_ok(
                proof.query_result@[0],
                queried_leaves(ql, round_leaves(v.cosets_view(), v.step_view(), 0)),
                pow2(v.step_view()),
                v.roots_view()[0],
            )
            &&& forall|i: int|
                1 <= i < rr ==> #[trigger] merkle_ok(
                    proof.query_result@[i],
                    queried_leaves(ql, round_leaves(v.cosets_view(), v.step_view(), i)),
                    pow2(v.step_view()),
                    MerkleTreeVerifier {
                        merkle_root: proof.merkle_root@[i - 1],
                        leave_number: round_leaves(v.cosets_view(), v.step_view(), i) as usize,
                    },
                )
        }),
{
    let rr = v.total_round_view() / v.step_view();
    if rr >= 1 {
        assert(round_auth_ok(v, proof, 0));
    }
    assert forall|i: int| 1 <= i < rr implies #[trigger] merkle_ok(
        proof.query_result@[i],
        queried_leaves(v.oracle_view().query_list@, round_leaves(v.cosets_view(), v.step_view(), i)),
        pow2(v.step_view()),
        MerkleTreeVerifier {
            merkle_root: proof.merkle_root@[i - 1],
            leave_number: round_leaves(v.cosets_view(), v.step_view(), i) as usize,
        },
    ) by {
        assert(round_auth_ok(v, proof, i));
    }
}

/// Soundness of the scheme's verification at the commitment: a verifier for
/// `commit` that accepts has the first round's opening authenticated against
/// the committed root.
pub proof fn lemma_verify_authenticates_commitment(
    v: Verifier,
    total_round: nat,
    cosets: Seq<Coset>,
    commit: Commit,
    oracle: RandomOracle,
    step: nat,
    point: Seq<int>,
    proof: Proof,
)
    requires
        verifier_for(v, total_round, cosets, commit, oracle, step, point),
        accepts(v, proof),
        step >= 1,
        total_round >= step,
    ensures
        merkle_ok(
            proof.query_result@[0],
            queried_leaves(oracle.query_list@, round_leaves(cosets, step, 0)),
            pow2(step),
            MerkleTreeVerifier { merkle_root: commit.merkle_root, leave_number: (cosets[0].size_view() / pow2(step)) as usize },
        ),
{
    lemma_accepts_authenticates_every_round(v, proof);
    assert(total_round / step >= 1) by (nonlinear_arith)
        requires
            step >= 1,
            total_round >= step,
    ;
}

} // verus!
