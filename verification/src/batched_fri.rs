//! Batched FRI over a family of codewords of halving lengths: the prover's
//! quotients, folding rounds and query answers, and the verifier's check of
//! one query, which recomputes every round's value from the openings.
use crate::fold::{fold_row, folded_row};
use crate::merkle::{authenticate_merkle_path_root, dseq, pairs_view, path_root_ok};
use crate::mersenne_61_mont::{
    fadd, finv, fmul, fpow, fsub, lemma_fmul_assoc, lemma_fmul_comm, lemma_view_range, p, views, Mersenne61Mont,
};
use crate::domain::RootOfUnity;
use crate::mmcs::{authenticate_merkle_path_mmcs, mmcs_climb};
use crate::p3_fri::{bit_reversed, foldable_encoding, reverse_index_bits_in_place};
use crate::util::{is_power_of_two, pow2_of};
use crate::zeromorph_fri_v4::inv2;
use vstd::arithmetic::power2::{lemma2_to64, lemma_pow2_pos, lemma_pow2_strictly_increases, pow2};
use vstd::prelude::*;

verus! {

broadcast use lemma_view_range;

/// Why the verifier rejects a query of batched FRI.
#[derive(Clone, Copy, Debug, PartialEq, Eq, Structural)]
pub enum BatchQueryError {
    /// The openings do not reach the first oracle along their path.
    FirstPath,
    /// In round `i` the query's point is the opening point.
    Pole(usize),
    /// In round `i` the pair does not authenticate against the round's root.
    RoundPath(usize),
    /// In round `i` the pair's point is zero, so it has no inverse.
    ZeroPoint(usize),
    /// The last fold is not the final value.
    Final,
}

/// The quotient of a codeword by `X - point`: entry `j` is
/// `(p_j - eval) / (t_j - point)`, zero where `t_j == point`.
pub open spec fn batch_quotient_seq(p: Seq<int>, eval: int, point: int, layer: Seq<int>) -> Seq<int> {
    Seq::new(p.len(), |j: int| fmul(fsub(p[j], eval), finv(fsub(layer[j], point))))
}

/// The codeword of a round before folding: `f_j + q_j (1 + lambda t_j)`.
pub open spec fn with_quotient(f: Seq<int>, q: Seq<int>, lambda: int, layer: Seq<int>) -> Seq<int> {
    Seq::new(f.len(), |j: int| fadd(f[j], fmul(q[j], fadd(1, fmul(lambda, layer[j])))))
}

/// The position of query `q` in round `i`.
pub open spec fn round_pos(q: int, i: nat) -> int {
    q / pow2(i) as int
}

/// The running value of one query after `i` rounds, or the first round that
/// rejects. Round `k` adds the quotient term `(1 + lambda p) (o_k - e_k) /
/// (p - point)` at the query's point `p`, authenticates the pair made of
/// that value and its sibling from the path, and folds the pair with the
/// round's challenge.
pub open spec fn batch_query_chain(
    q: int,
    cur_path: Seq<int>,
    openings: Seq<int>,
    round_paths: Seq<Vec<([u8; 32], [u8; 32])>>,
    round_roots: Seq<[u8; 32]>,
    table: Seq<Vec<Mersenne61Mont>>,
    evals: Seq<int>,
    point: int,
    lambda: int,
    challenges: Seq<int>,
    i: nat,
) -> Result<int, BatchQueryError>
    decreases i,
{
    if i == 0 {
        Ok(0)
    } else {
        let k = (i - 1) as nat;
        match batch_query_chain(
            q,
            cur_path,
            openings,
            round_paths,
            round_roots,
            table,
            evals,
            point,
            lambda,
            challenges,
            k,
        ) {
            Err(e) => Err(e),
            Ok(folded) => {
                let qc = round_pos(q, k);
                let layer = views(table[k as int]@);
                let p = layer[qc];
                if p == point {
                    Err(BatchQueryError::Pole(k as usize))
                } else {
                    let acc = fadd(
                        folded,
                        fmul(fadd(1, fmul(lambda, p)), fmul(fsub(openings[k as int], evals[k as int]), finv(fsub(p, point)))),
                    );
                    let e0 = if qc % 2 == 0 {
                        acc
                    } else {
                        cur_path[k as int]
                    };
                    let e1 = if qc % 2 == 1 {
                        acc
                    } else {
                        cur_path[k as int]
                    };
                    let pe = layer[qc - qc % 2];
                    if !path_root_ok(pairs_view(round_paths[k as int]@), e0, e1, qc, round_roots[k as int]@) {
                        Err(BatchQueryError::RoundPath(k as usize))
                    } else if pe == 0 {
                        Err(BatchQueryError::ZeroPoint(k as usize))
                    } else {
                        Ok(
                            fadd(
                                fmul(fadd(e0, e1), inv2()),
                                fmul(fmul(fmul(challenges[k as int], fsub(e0, e1)), inv2()), finv(pe)),
                            ),
                        )
                    }
                }
            },
        }
    }
}

/// What the check of one query reads: `rounds` rounds over layers of
/// halving lengths `2^(lg - i)`, a query below `2^lg`, and as many openings,
/// path entries, paths, roots, claims and challenges as rounds.
pub open spec fn batch_query_shape(
    q: int,
    cur_path: Seq<Mersenne61Mont>,
    openings: Seq<Mersenne61Mont>,
    round_paths: Seq<Vec<([u8; 32], [u8; 32])>>,
    first_path: Seq<[u8; 32]>,
    round_roots: Seq<[u8; 32]>,
    table: Seq<Vec<Mersenne61Mont>>,
    evals: Seq<Mersenne61Mont>,
    challenges: Seq<Mersenne61Mont>,
    log_evals: nat,
    rounds: nat,
) -> bool {
    &&& 1 <= rounds <= log_evals
    &&& log_evals <= 30
    &&& 0 <= q < pow2(log_evals)
    &&& table.len() >= rounds
    &&& forall|i: int| 0 <= i < rounds ==> #[trigger] table[i]@.len() == pow2((log_evals - i) as nat)
    &&& cur_path.len() >= rounds
    &&& openings.len() >= rounds
    &&& round_paths.len() >= rounds
    &&& forall|i: int| 0 <= i < rounds ==> #[trigger] round_paths[i]@.len() >= 1
    &&& first_path.len() >= log_evals
    &&& round_roots.len() >= rounds
    &&& evals.len() >= rounds
    &&& challenges.len() >= rounds
}

/// The outcome of the check of one query: the openings against the first
/// oracle, then every round, then the last fold against the final value.
pub open spec fn batch_query_outcome(
    q: int,
    cur_path: Seq<Mersenne61Mont>,
    openings: Seq<Mersenne61Mont>,
    round_paths: Seq<Vec<([u8; 32], [u8; 32])>>,
    first_path: Seq<[u8; 32]>,
    first_root: [u8; 32],
    round_roots: Seq<[u8; 32]>,
    table: Seq<Vec<Mersenne61Mont>>,
    evals: Seq<Mersenne61Mont>,
    point: int,
    lambda: int,
    challenges: Seq<Mersenne61Mont>,
    final_value: int,
    log_evals: nat,
    rounds: nat,
) -> Result<(), BatchQueryError> {
    if mmcs_climb(dseq(first_path), views(openings), q, log_evals) != first_root@ {
        Err(BatchQueryError::FirstPath)
    } else {
        match batch_query_chain(
            q,
            views(cur_path),
            views(openings),
            round_paths,
            round_roots,
            table,
            views(evals),
            point,
            lambda,
            views(challenges),
            rounds,
        ) {
            Err(e) => Err(e),
            Ok(v) => if v == final_value {
                Ok(())
            } else {
                Err(BatchQueryError::Final)
            },
        }
    }
}

/// Every layer of the table, permuted by bit reversal of its positions.
pub fn reverse_layers(table: &mut Vec<Vec<Mersenne61Mont>>)
    requires
        forall|i: int| 0 <= i < old(table)@.len() ==> is_power_of_two(#[trigger] old(table)@[i]@.len() as int),
    ensures
        final(table)@.len() == old(table)@.len(),
        forall|i: int, n: nat|
            #![trigger final(table)@[i], pow2(n)]
            0 <= i < old(table)@.len() && pow2(n) == old(table)@[i]@.len() ==> views(final(table)@[i]@)
                == bit_reversed(views(old(table)@[i]@), n),
{
    let ghost orig = table@;
    let len = table.len();
    let mut out: Vec<Vec<Mersenne61Mont>> = Vec::new();
    let mut i: usize = 0;
    while i < len
        invariant
            len == orig.len(),
            table@ == orig,
            forall|k: int| 0 <= k < orig.len() ==> is_power_of_two(#[trigger] orig[k]@.len() as int),
            i <= len,
            out@.len() == i,
            forall|k: int, n: nat|
                #![trigger out@[k], pow2(n)]
                0 <= k < i && pow2(n) == orig[k]@.len() ==> views(out@[k]@) == bit_reversed(views(orig[k]@), n),
        decreases len - i,
    {
        let mut layer = copy_layer(&table[i]);
        reverse_index_bits_in_place(&mut layer);
        let ghost before = out@;
        out.push(layer);
        assert forall|k: int, n: nat|
            #![trigger out@[k], pow2(n)]
            0 <= k < i + 1 && pow2(n) == orig[k]@.len() implies views(out@[k]@) == bit_reversed(
            views(orig[k]@),
            n,
        ) by {
            if k < i {
                assert(out@[k] == before[k]);
            }
        }
        i = i + 1;
    }
    *table = out;
}

/// A copy of a layer.
fn copy_layer(v: &Vec<Mersenne61Mont>) -> (r: Vec<Mersenne61Mont>)
    ensures
        r@ == v@,
{
    let mut r: Vec<Mersenne61Mont> = Vec::new();
    let mut i: usize = 0;
    while i < v.len()
        invariant
            i <= v.len(),
            r@ == v@.subrange(0, i as int),
        decreases v.len() - i,
    {
        r.push(v[i]);
        assert(r@ =~= v@.subrange(0, i + 1));
        i = i + 1;
    }
    assert(r@ =~= v@);
    r
}

/// The quotient of the codeword `p` by `X - point` over the layer's points,
/// with the claimed value `eval` subtracted first.
pub fn batch_quotient(
    p: &Vec<Mersenne61Mont>,
    eval: Mersenne61Mont,
    point: Mersenne61Mont,
    layer: &Vec<Mersenne61Mont>,
) -> (r: Vec<Mersenne61Mont>)
    requires
        p.len() <= layer.len(),
    ensures
        views(r@) == batch_quotient_seq(views(p@), eval@, point@, views(layer@)),
{
    let ghost pv = views(p@);
    let ghost lv = views(layer@);
    proof {
        crate::coset::lemma_finv_zero();
    }
    let mut r: Vec<Mersenne61Mont> = Vec::new();
    let mut j: usize = 0;
    while j < p.len()
        invariant
            p.len() <= layer.len(),
            pv == views(p@),
            lv == views(layer@),
            finv(0) == 0,
            j <= p.len(),
            views(r@) == batch_quotient_seq(pv, eval@, point@, lv).subrange(0, j as int),
        decreases p.len() - j,
    {
        let d = layer[j].sub(point);
        let inv = if d.iszero() {
            Mersenne61Mont::zero()
        } else {
            d.inverse()
        };
        let v = p[j].sub(eval).mul(inv);
        let ghost before = views(r@);
        r.push(v);
        assert(pv[j as int] == p@[j as int]@ && lv[j as int] == layer@[j as int]@);
        assert(views(r@) =~= before.push(v@));
        assert(views(r@) =~= batch_quotient_seq(pv, eval@, point@, lv).subrange(0, j + 1));
        j = j + 1;
    }
    assert(views(r@) =~= batch_quotient_seq(pv, eval@, point@, lv));
    r
}

/// One round of the batched prover: the round's quotient weighted by
/// `1 + lambda t` is added to the running codeword, which is returned, and
/// then folded with `alpha`.
pub fn batch_round(
    folded: &Vec<Mersenne61Mont>,
    quotient: &Vec<Mersenne61Mont>,
    layer: &Vec<Mersenne61Mont>,
    lambda: Mersenne61Mont,
    alpha: Mersenne61Mont,
) -> (r: (Vec<Mersenne61Mont>, Vec<Mersenne61Mont>))
    requires
        folded.len() % 2 == 0,
        quotient.len() == folded.len(),
        layer.len() == folded.len(),
    ensures
        views(r.0@) == with_quotient(views(folded@), views(quotient@), lambda@, views(layer@)),
        views(r.1@) == folded_row(
            with_quotient(views(folded@), views(quotient@), lambda@, views(layer@)),
            alpha@,
            views(layer@),
        ),
{
    let ghost want = with_quotient(views(folded@), views(quotient@), lambda@, views(layer@));
    let mut before: Vec<Mersenne61Mont> = Vec::new();
    let mut j: usize = 0;
    while j < folded.len()
        invariant
            quotient.len() == folded.len(),
            layer.len() == folded.len(),
            want == with_quotient(views(folded@), views(quotient@), lambda@, views(layer@)),
            j <= folded.len(),
            views(before@) == want.subrange(0, j as int),
        decreases folded.len() - j,
    {
        let v = folded[j].add(quotient[j].mul(Mersenne61Mont::one().add(lambda.mul(layer[j]))));
        let ghost b0 = views(before@);
        before.push(v);
        assert(views(before@) =~= b0.push(v@));
        assert(views(before@) =~= want.subrange(0, j + 1));
        j = j + 1;
    }
    assert(views(before@) =~= want);
    assert(views(before@).len() == before@.len());
    let after = fold_row(&before, alpha, layer);
    (before, after)
}

/// The answer to query `q` over `rounds` rounds: the sibling entry of every
/// round's codeword, the query's position in each round, and the entry of
/// each round's opened codeword there.
pub fn batch_query_path(
    q: usize,
    tree_evals: &Vec<Vec<Mersenne61Mont>>,
    p_evals: &Vec<Vec<Mersenne61Mont>>,
    rounds: usize,
) -> (r: (Vec<Mersenne61Mont>, Vec<usize>, Vec<Mersenne61Mont>))
    requires
        rounds <= 30,
        tree_evals.len() >= rounds,
        p_evals.len() >= rounds,
        forall|i: int|
            0 <= i < rounds ==> (q as int / pow2(i as nat) as int) / 2 * 2 + 1 < #[trigger] tree_evals@[i]@.len(),
        forall|i: int| 0 <= i < rounds ==> (q as int / pow2(i as nat) as int) < #[trigger] p_evals@[i]@.len(),
    ensures
        r.0@.len() == rounds,
        r.1@.len() == rounds,
        r.2@.len() == rounds,
        forall|i: int|
            0 <= i < rounds ==> {
                let qi = round_pos(q as int, i as nat);
                &&& #[trigger] r.1@[i] == qi
                &&& r.0@[i] == tree_evals@[i]@[if qi % 2 == 0 {
                    qi + 1
                } else {
                    qi - 1
                }]
                &&& r.2@[i] == p_evals@[i]@[qi]
            },
{
    let mut cur_path: Vec<Mersenne61Mont> = Vec::new();
    let mut indices: Vec<usize> = Vec::new();
    let mut openings: Vec<Mersenne61Mont> = Vec::new();
    let mut qc = q;
    let mut i: usize = 0;
    proof {
        lemma2_to64();
    }
    while i < rounds
        invariant
            rounds <= 30,
            tree_evals.len() >= rounds,
            p_evals.len() >= rounds,
            forall|k: int|
                0 <= k < rounds ==> (q as int / pow2(k as nat) as int) / 2 * 2 + 1 < #[trigger] tree_evals@[k]@.len(),
            forall|k: int| 0 <= k < rounds ==> (q as int / pow2(k as nat) as int) < #[trigger] p_evals@[k]@.len(),
            i <= rounds,
            qc == q as int / pow2(i as nat) as int,
            cur_path@.len() == i,
            indices@.len() == i,
            openings@.len() == i,
            forall|k: int|
                0 <= k < i ==> {
                    let qk = round_pos(q as int, k as nat);
                    &&& #[trigger] indices@[k] == qk
                    &&& cur_path@[k] == tree_evals@[k]@[if qk % 2 == 0 {
                        qk + 1
                    } else {
                        qk - 1
                    }]
                    &&& openings@[k] == p_evals@[k]@[qk]
                },
        decreases rounds - i,
    {
        let sib = if qc % 2 == 0 {
            qc + 1
        } else {
            qc - 1
        };
        assert(sib <= qc / 2 * 2 + 1);
        cur_path.push(tree_evals[i][sib]);
        openings.push(p_evals[i][qc]);
        indices.push(qc);
        proof {
            lemma_pow2_pos(i as nat);
            vstd::arithmetic::div_mod::lemma_div_denominator(q as int, pow2(i as nat) as int, 2);
            vstd::arithmetic::power2::lemma_pow2_unfold((i + 1) as nat);
            vstd::arithmetic::mul::lemma_mul_is_commutative(pow2(i as nat) as int, 2);
        }
        qc = qc / 2;
        i = i + 1;
    }
    (cur_path, indices, openings)
}

/// Checks query `q` of batched FRI: the openings against the first oracle
/// along `first_path`, then round by round the running value, which gains
/// the round's quotient term, forms a pair with the path's sibling entry that
/// must authenticate against the round's root, and is folded with the
/// round's challenge; the last fold must be the final value. The layers of
/// `table` are in bit-reversed order (see `reverse_layers`).
#[verifier::rlimit(40)]
pub fn verify_batch_query(
    q: usize,
    cur_path: &Vec<Mersenne61Mont>,
    openings: &Vec<Mersenne61Mont>,
    round_paths: &Vec<Vec<([u8; 32], [u8; 32])>>,
    first_path: &Vec<[u8; 32]>,
    first_root: &[u8; 32],
    round_roots: &Vec<[u8; 32]>,
    table: &Vec<Vec<Mersenne61Mont>>,
    evals: &Vec<Mersenne61Mont>,
    point: Mersenne61Mont,
    lambda: Mersenne61Mont,
    challenges: &Vec<Mersenne61Mont>,
    final_value: Mersenne61Mont,
    log_evals: usize,
    rounds: usize,
) -> (r: Result<(), BatchQueryError>)
    requires
        batch_query_shape(
            q as int,
            cur_path@,
            openings@,
            round_paths@,
            first_path@,
            round_roots@,
            table@,
            evals@,
            challenges@,
            log_evals as nat,
            rounds as nat,
        ),
    ensures
        r == batch_query_outcome(
            q as int,
            cur_path@,
            openings@,
            round_paths@,
            first_path@,
            *first_root,
            round_roots@,
            table@,
            evals@,
            point@,
            lambda@,
            challenges@,
            final_value@,
            log_evals as nat,
            rounds as nat,
        ),
{
    if !authenticate_merkle_path_mmcs(first_path, openings, q, log_evals, first_root) {
        return Err(BatchQueryError::FirstPath);
    }
    match batch_rounds(
        q,
        cur_path,
        openings,
        round_paths,
        round_roots,
        table,
        evals,
        point,
        lambda,
        challenges,
        log_evals,
        rounds,
    ) {
        Err(e) => Err(e),
        Ok(v) => {
            if v.equals(&final_value) {
                Ok(())
            } else {
                Err(BatchQueryError::Final)
            }
        },
    }
}

/// Once a round rejects, the outcome of more rounds is that rejection.
proof fn lemma_batch_chain_stays(
    q: int,
    cur_path: Seq<int>,
    openings: Seq<int>,
    round_paths: Seq<Vec<([u8; 32], [u8; 32])>>,
    round_roots: Seq<[u8; 32]>,
    table: Seq<Vec<Mersenne61Mont>>,
    evals: Seq<int>,
    point: int,
    lambda: int,
    challenges: Seq<int>,
    j: nat,
    k: nat,
)
    requires
        j <= k,
        batch_query_chain(q, cur_path, openings, round_paths, round_roots, table, evals, point, lambda, challenges, j)
            is Err,
    ensures
        batch_query_chain(q, cur_path, openings, round_paths, round_roots, table, evals, point, lambda, challenges, k)
            == batch_query_chain(
            q,
            cur_path,
            openings,
            round_paths,
            round_roots,
            table,
            evals,
            point,
            lambda,
            challenges,
            j,
        ),
    decreases k - j,
{
    if j < k {
        lemma_batch_chain_stays(
            q,
            cur_path,
            openings,
            round_paths,
            round_roots,
            table,
            evals,
            point,
            lambda,
            challenges,
            j,
            (k - 1) as nat,
        );
    }
}

/// The rounds of the check of one query: the last fold, or the first
/// round that rejects.
#[verifier::rlimit(60)]
fn batch_rounds(
    q: usize,
    cur_path: &Vec<Mersenne61Mont>,
    openings: &Vec<Mersenne61Mont>,
    round_paths: &Vec<Vec<([u8; 32], [u8; 32])>>,
    round_roots: &Vec<[u8; 32]>,
    table: &Vec<Vec<Mersenne61Mont>>,
    evals: &Vec<Mersenne61Mont>,
    point: Mersenne61Mont,
    lambda: Mersenne61Mont,
    challenges: &Vec<Mersenne61Mont>,
    log_evals: usize,
    rounds: usize,
) -> (r: Result<Mersenne61Mont, BatchQueryError>)
    requires
        1 <= rounds <= log_evals,
        log_evals <= 30,
        q < pow2(log_evals as nat),
        table.len() >= rounds,
        forall|i: int| 0 <= i < rounds ==> #[trigger] table@[i]@.len() == pow2((log_evals - i) as nat),
        cur_path.len() >= rounds,
        openings.len() >= rounds,
        round_paths.len() >= rounds,
        forall|i: int| 0 <= i < rounds ==> #[trigger] round_paths@[i]@.len() >= 1,
        round_roots.len() >= rounds,
        evals.len() >= rounds,
        challenges.len() >= rounds,
    ensures
        match batch_query_chain(
            q as int,
            views(cur_path@),
            views(openings@),
            round_paths@,
            round_roots@,
            table@,
            views(evals@),
            point@,
            lambda@,
            views(challenges@),
            rounds as nat,
        ) {
            Ok(v) => r is Ok && r->Ok_0@ == v,
            Err(e) => r == Err::<Mersenne61Mont, BatchQueryError>(e),
        },
{
    let ghost cp = views(cur_path@);
    let ghost ov = views(openings@);
    let ghost ev = views(evals@);
    let ghost cv = views(challenges@);
    let inv_two = Mersenne61Mont::inverse_2();
    let mut folded = Mersenne61Mont::zero();
    let mut qc = q;
    let mut i: usize = 0;
    proof {
        lemma2_to64();
    }
    while i < rounds
        invariant
            1 <= rounds <= log_evals,
            log_evals <= 30,
            q < pow2(log_evals as nat),
            table.len() >= rounds,
            forall|k: int| 0 <= k < rounds ==> #[trigger] table@[k]@.len() == pow2((log_evals - k) as nat),
            cur_path.len() >= rounds,
            openings.len() >= rounds,
            round_paths.len() >= rounds,
            forall|k: int| 0 <= k < rounds ==> #[trigger] round_paths@[k]@.len() >= 1,
            round_roots.len() >= rounds,
            evals.len() >= rounds,
            challenges.len() >= rounds,
            cp == views(cur_path@),
            ov == views(openings@),
            ev == views(evals@),
            cv == views(challenges@),
            inv_two@ == inv2(),
            i <= rounds,
            qc == round_pos(q as int, i as nat),
            batch_query_chain(q as int, cp, ov, round_paths@, round_roots@, table@, ev, point@, lambda@, cv, i as nat)
                == Ok::<int, BatchQueryError>(folded@),
        decreases rounds - i,
    {
        proof {
            lemma2_to64();
            lemma_pow2_pos(i as nat);
            lemma_pow2_pos((log_evals - i) as nat);
            vstd::arithmetic::power2::lemma_pow2_adds(i as nat, (log_evals - i) as nat);
            vstd::arithmetic::div_mod::lemma_multiply_divide_lt(q as int, pow2(i as nat) as int, pow2((log_evals - i) as nat) as int);
            vstd::arithmetic::power2::lemma_pow2_unfold((log_evals - i) as nat);
        }
        assert(qc < table@[i as int]@.len());
        let layer = &table[i];
        let p = layer[qc];
        assert(views(layer@)[qc as int] == p@);
        if p.equals(&point) {
            proof {
                lemma_batch_chain_stays(q as int, cp, ov, round_paths@, round_roots@, table@, ev, point@, lambda@, cv, (i + 1) as nat, rounds as nat);
            }
            return Err(BatchQueryError::Pole(i));
        }
        let d = p.sub(point);
        assert(d@ != 0) by {
            vstd::arithmetic::div_mod::lemma_fundamental_div_mod(p@ - point@, crate::mersenne_61_mont::p());
        }
        let tmp = openings[i].sub(evals[i]).mul(d.inverse());
        let cur_quotient = Mersenne61Mont::one().add(lambda.mul(p)).mul(tmp);
        folded = folded.add(cur_quotient);
        assert(ov[i as int] == openings@[i as int]@ && ev[i as int] == evals@[i as int]@);
        assert(cp[i as int] == cur_path@[i as int]@ && cv[i as int] == challenges@[i as int]@);
        let (e0, e1) = if qc % 2 == 0 {
            (folded, cur_path[i])
        } else {
            (cur_path[i], folded)
        };
        if !authenticate_merkle_path_root(&round_paths[i], (e0, e1), qc, &round_roots[i]) {
            proof {
                lemma_batch_chain_stays(q as int, cp, ov, round_paths@, round_roots@, table@, ev, point@, lambda@, cv, (i + 1) as nat, rounds as nat);
            }
            return Err(BatchQueryError::RoundPath(i));
        }
        let even = qc - qc % 2;
        let pe = layer[even];
        assert(views(layer@)[even as int] == pe@);
        if pe.iszero() {
            proof {
                lemma_batch_chain_stays(q as int, cp, ov, round_paths@, round_roots@, table@, ev, point@, lambda@, cv, (i + 1) as nat, rounds as nat);
            }
            return Err(BatchQueryError::ZeroPoint(i));
        }
        let inv_p = pe.inverse();
        folded = e0.add(e1).mul(inv_two).add(challenges[i].mul(e0.sub(e1)).mul(inv_two).mul(inv_p));
        proof {
            vstd::arithmetic::div_mod::lemma_div_denominator(q as int, pow2(i as nat) as int, 2);
            vstd::arithmetic::power2::lemma_pow2_unfold((i + 1) as nat);
            vstd::arithmetic::mul::lemma_mul_is_commutative(pow2(i as nat) as int, 2);
        }
        qc = qc / 2;
        i = i + 1;
    }
    Ok(folded)
}


/// The prover's running codeword before round `i`: all zeros at the start,
/// then each round's codeword with its quotient added, folded.
pub open spec fn prover_running(
    ps: Seq<Seq<int>>,
    evals: Seq<int>,
    point: int,
    lambda: int,
    challenges: Seq<int>,
    table: Seq<Vec<Mersenne61Mont>>,
    lg: nat,
    i: nat,
) -> Seq<int>
    decreases i,
{
    if i == 0 {
        Seq::new(pow2(lg), |j: int| 0)
    } else {
        let k = (i - 1) as nat;
        let layer = views(table[k as int]@);
        folded_row(
            with_quotient(
                prover_running(ps, evals, point, lambda, challenges, table, lg, k),
                batch_quotient_seq(ps[k as int], evals[k as int], point, layer),
                lambda,
                layer,
            ),
            challenges[k as int],
            layer,
        )
    }
}

/// The codeword the prover commits to in round `i`: the running codeword
/// with the round's quotient added.
pub open spec fn prover_round_code(
    ps: Seq<Seq<int>>,
    evals: Seq<int>,
    point: int,
    lambda: int,
    challenges: Seq<int>,
    table: Seq<Vec<Mersenne61Mont>>,
    lg: nat,
    i: nat,
) -> Seq<int> {
    let layer = views(table[i as int]@);
    with_quotient(
        prover_running(ps, evals, point, lambda, challenges, table, lg, i),
        batch_quotient_seq(ps[i as int], evals[i as int], point, layer),
        lambda,
        layer,
    )
}

/// The prover's running codeword before round `i` has `2^(lg - i)` entries.
proof fn lemma_prover_running_len(
    ps: Seq<Seq<int>>,
    evals: Seq<int>,
    point: int,
    lambda: int,
    challenges: Seq<int>,
    table: Seq<Vec<Mersenne61Mont>>,
    lg: nat,
    i: nat,
)
    requires
        i <= lg,
        table.len() >= i,
        forall|k: int| 0 <= k < i ==> #[trigger] table[k]@.len() == pow2((lg - k) as nat),
        ps.len() >= i,
        forall|k: int| 0 <= k < i ==> #[trigger] ps[k].len() == pow2((lg - k) as nat),
    ensures
        prover_running(ps, evals, point, lambda, challenges, table, lg, i).len() == pow2((lg - i) as nat),
    decreases i,
{
    if i > 0 {
        let k = (i - 1) as nat;
        lemma_prover_running_len(ps, evals, point, lambda, challenges, table, lg, k);
        vstd::arithmetic::power2::lemma_pow2_unfold((lg - k) as nat);
        assert(views(table[k as int]@).len() == table[k as int]@.len());
    }
}

/// Whether the answer to query `q` holds, for the first `i` rounds, the
/// honest prover's entries: the opened codewords at the query's position,
/// and the round codewords at the sibling position.
pub open spec fn honest_answer(
    q: int,
    cur_path: Seq<int>,
    openings: Seq<int>,
    ps: Seq<Seq<int>>,
    evals: Seq<int>,
    point: int,
    lambda: int,
    challenges: Seq<int>,
    table: Seq<Vec<Mersenne61Mont>>,
    lg: nat,
    i: nat,
) -> bool {
    forall|k: int|
        0 <= k < i ==> {
            let qk = round_pos(q, k as nat);
            &&& #[trigger] openings[k] == ps[k][qk]
            &&& cur_path[k] == prover_round_code(ps, evals, point, lambda, challenges, table, lg, k as nat)[if qk % 2
                == 0 {
                qk + 1
            } else {
                qk - 1
            }]
        }
}

/// Round consistency of batched FRI: when the answer to a query holds the
/// honest prover's entries and the first `i` rounds of its check pass, the
/// verifier's running value is the entry of the prover's running codeword
/// at the query's position in round `i`.
#[verifier::rlimit(40)]
pub proof fn lemma_batch_query_tracks_prover(
    q: int,
    cur_path: Seq<int>,
    openings: Seq<int>,
    round_paths: Seq<Vec<([u8; 32], [u8; 32])>>,
    round_roots: Seq<[u8; 32]>,
    table: Seq<Vec<Mersenne61Mont>>,
    ps: Seq<Seq<int>>,
    evals: Seq<int>,
    point: int,
    lambda: int,
    challenges: Seq<int>,
    lg: nat,
    i: nat,
)
    requires
        i <= lg,
        0 <= q < pow2(lg),
        table.len() >= i,
        forall|k: int| 0 <= k < i ==> #[trigger] table[k]@.len() == pow2((lg - k) as nat),
        ps.len() >= i,
        forall|k: int| 0 <= k < i ==> #[trigger] ps[k].len() == pow2((lg - k) as nat),
        honest_answer(q, cur_path, openings, ps, evals, point, lambda, challenges, table, lg, i),
        batch_query_chain(q, cur_path, openings, round_paths, round_roots, table, evals, point, lambda, challenges, i)
            is Ok,
    ensures
        batch_query_chain(q, cur_path, openings, round_paths, round_roots, table, evals, point, lambda, challenges, i)
            == Ok::<int, BatchQueryError>(
            prover_running(ps, evals, point, lambda, challenges, table, lg, i)[round_pos(q, i)],
        ),
    decreases i,
{
    if i == 0 {
        assert(round_pos(q, 0) == q) by {
            lemma2_to64();
        }
        assert(prover_running(ps, evals, point, lambda, challenges, table, lg, 0)[q] == 0) by {
            lemma_pow2_pos(lg);
        }
    } else {
        let k = (i - 1) as nat;
        if batch_query_chain(q, cur_path, openings, round_paths, round_roots, table, evals, point, lambda, challenges, k)
            is Err {
            lemma_batch_chain_stays(q, cur_path, openings, round_paths, round_roots, table, evals, point, lambda, challenges, k, i);
        }
        lemma_batch_query_tracks_prover(
            q,
            cur_path,
            openings,
            round_paths,
            round_roots,
            table,
            ps,
            evals,
            point,
            lambda,
            challenges,
            lg,
            k,
        );
        let qk = round_pos(q, k);
        let v = prover_running(ps, evals, point, lambda, challenges, table, lg, k)[qk];
        lemma_batch_chain_step(q, cur_path, openings, round_paths, round_roots, table, evals, point, lambda, challenges, k, v);
        lemma_honest_step(q, cur_path, openings, ps, evals, point, lambda, challenges, table, lg, k);
    }
}

/// The verifier's value after one round from the running value `v`: the
/// quotient term is added at the position `qc`, paired with the sibling's
/// value, and the pair is folded with `alpha`.
pub open spec fn verifier_step(
    v: int,
    qc: int,
    sibling_value: int,
    opening: int,
    eval: int,
    layer: Seq<int>,
    point: int,
    lambda: int,
    alpha: int,
) -> int {
    let p = layer[qc];
    let acc = fadd(v, fmul(fadd(1, fmul(lambda, p)), fmul(fsub(opening, eval), finv(fsub(p, point)))));
    let e0 = if qc % 2 == 0 {
        acc
    } else {
        sibling_value
    };
    let e1 = if qc % 2 == 1 {
        acc
    } else {
        sibling_value
    };
    fadd(fmul(fadd(e0, e1), inv2()), fmul(fmul(fmul(alpha, fsub(e0, e1)), inv2()), finv(layer[qc - qc % 2])))
}

/// A round that passes takes the running value one verifier step on.
proof fn lemma_batch_chain_step(
    q: int,
    cur_path: Seq<int>,
    openings: Seq<int>,
    round_paths: Seq<Vec<([u8; 32], [u8; 32])>>,
    round_roots: Seq<[u8; 32]>,
    table: Seq<Vec<Mersenne61Mont>>,
    evals: Seq<int>,
    point: int,
    lambda: int,
    challenges: Seq<int>,
    k: nat,
    v: int,
)
    requires
        batch_query_chain(q, cur_path, openings, round_paths, round_roots, table, evals, point, lambda, challenges, k)
            == Ok::<int, BatchQueryError>(v),
        batch_query_chain(q, cur_path, openings, round_paths, round_roots, table, evals, point, lambda, challenges, k + 1)
            is Ok,
    ensures
        batch_query_chain(q, cur_path, openings, round_paths, round_roots, table, evals, point, lambda, challenges, k + 1)
            == Ok::<int, BatchQueryError>(
            verifier_step(
                v,
                round_pos(q, k),
                cur_path[k as int],
                openings[k as int],
                evals[k as int],
                views(table[k as int]@),
                point,
                lambda,
                challenges[k as int],
            ),
        ),
{
}

/// With the honest prover's entries, one verifier step from the prover's
/// running entry gives the prover's next running entry.
#[verifier::spinoff_prover]
proof fn lemma_honest_step(
    q: int,
    cur_path: Seq<int>,
    openings: Seq<int>,
    ps: Seq<Seq<int>>,
    evals: Seq<int>,
    point: int,
    lambda: int,
    challenges: Seq<int>,
    table: Seq<Vec<Mersenne61Mont>>,
    lg: nat,
    k: nat,
)
    requires
        k < lg,
        0 <= q < pow2(lg),
        table.len() > k,
        forall|j: int| 0 <= j <= k ==> #[trigger] table[j]@.len() == pow2((lg - j) as nat),
        ps.len() > k,
        forall|j: int| 0 <= j <= k ==> #[trigger] ps[j].len() == pow2((lg - j) as nat),
        honest_answer(q, cur_path, openings, ps, evals, point, lambda, challenges, table, lg, k + 1),
    ensures
        verifier_step(
            prover_running(ps, evals, point, lambda, challenges, table, lg, k)[round_pos(q, k)],
            round_pos(q, k),
            cur_path[k as int],
            openings[k as int],
            evals[k as int],
            views(table[k as int]@),
            point,
            lambda,
            challenges[k as int],
        ) == prover_running(ps, evals, point, lambda, challenges, table, lg, k + 1)[round_pos(q, k + 1)],
{
    lemma_prover_running_len(ps, evals, point, lambda, challenges, table, lg, k);
    proof_round_pos_bounds(q, k, lg);
    let qk = round_pos(q, k);
    let layer = views(table[k as int]@);
    let run = prover_running(ps, evals, point, lambda, challenges, table, lg, k);
    let quot = batch_quotient_seq(ps[k as int], evals[k as int], point, layer);
    let b = with_quotient(run, quot, lambda, layer);
    assert(b == prover_round_code(ps, evals, point, lambda, challenges, table, lg, k));
    assert(layer.len() == table[k as int]@.len());
    let p = layer[qk];
    let w = fadd(1, fmul(lambda, p));
    let tmp = fmul(fsub(openings[k as int], evals[k as int]), finv(fsub(p, point)));
    let acc = fadd(run[qk], fmul(w, tmp));
    assert(openings[k as int] == ps[k as int][qk]);
    assert(acc == b[qk]) by {
        lemma_fmul_comm(w, tmp);
    }
    let h = qk / 2;
    assert(qk - qk % 2 == 2 * h && (qk % 2 == 0 ==> qk + 1 == 2 * h + 1 && qk == 2 * h) && (qk % 2 == 1 ==> qk - 1
        == 2 * h && qk == 2 * h + 1) && (qk % 2 == 0 || qk % 2 == 1)) by {
        vstd::arithmetic::div_mod::lemma_fundamental_div_mod(qk, 2);
    }
    let alpha = challenges[k as int];
    let sib = if qk % 2 == 0 {
        qk + 1
    } else {
        qk - 1
    };
    assert(cur_path[k as int] == b[sib]);
    let e0 = if qk % 2 == 0 {
        acc
    } else {
        cur_path[k as int]
    };
    let e1 = if qk % 2 == 1 {
        acc
    } else {
        cur_path[k as int]
    };
    assert(e0 == b[2 * h] && e1 == b[2 * h + 1]);
    assert(verifier_step(run[qk], qk, cur_path[k as int], openings[k as int], evals[k as int], layer, point, lambda, alpha)
        == fadd(fmul(fadd(e0, e1), inv2()), fmul(fmul(fmul(alpha, fsub(e0, e1)), inv2()), finv(layer[2 * h]))));
    lemma_fold_value(b[2 * h], b[2 * h + 1], alpha, finv(layer[2 * h]));
    assert(b.len() == 2 * pow2((lg - k - 1) as nat)) by {
        vstd::arithmetic::power2::lemma_pow2_unfold((lg - k) as nat);
    }
    assert(folded_row(b, alpha, layer)[h] == fadd(
        fmul(fadd(b[2 * h], b[2 * h + 1]), inv2()),
        fmul(alpha, fmul(fmul(fsub(b[2 * h], b[2 * h + 1]), inv2()), finv(layer[2 * h]))),
    ));
    assert(folded_row(b, alpha, layer)[h] == prover_running(ps, evals, point, lambda, challenges, table, lg, k + 1)[h]);
    assert(round_pos(q, k + 1) == h) by {
        lemma_pow2_pos(k);
        vstd::arithmetic::div_mod::lemma_div_denominator(q, pow2(k) as int, 2);
        vstd::arithmetic::power2::lemma_pow2_unfold(k + 1);
        vstd::arithmetic::mul::lemma_mul_is_commutative(pow2(k) as int, 2);
    }
}

/// The verifier's arrangement of a fold equals the prover's.
proof fn lemma_fold_value(e0: int, e1: int, alpha: int, t: int)
    ensures
        fadd(fmul(fadd(e0, e1), inv2()), fmul(fmul(fmul(alpha, fsub(e0, e1)), inv2()), t)) == fadd(
            fmul(fadd(e0, e1), inv2()),
            fmul(alpha, fmul(fmul(fsub(e0, e1), inv2()), t)),
        ),
{
    lemma_fmul_assoc(alpha, fsub(e0, e1), inv2());
    lemma_fmul_assoc(alpha, fmul(fsub(e0, e1), inv2()), t);
}

/// The position of a query in round `k` lies in that round's layer.
proof fn proof_round_pos_bounds(q: int, k: nat, lg: nat)
    requires
        k < lg,
        0 <= q < pow2(lg),
    ensures
        0 <= round_pos(q, k) < pow2((lg - k) as nat),
        round_pos(q, k) / 2 < pow2((lg - k - 1) as nat),
{
    lemma_pow2_pos(k);
    vstd::arithmetic::power2::lemma_pow2_adds(k, (lg - k) as nat);
    vstd::arithmetic::div_mod::lemma_multiply_divide_lt(q, pow2(k) as int, pow2((lg - k) as nat) as int);
    vstd::arithmetic::div_mod::lemma_div_pos_is_pos(q, pow2(k) as int);
    vstd::arithmetic::power2::lemma_pow2_unfold((lg - k) as nat);
}


/// Level `i` of the table of a domain of `2^log_evals` points generated by
/// `g`: the first `2^(log_evals - i)` powers of `g^(2^i)`.
pub open spec fn batch_level(g: int, log_evals: nat, i: nat) -> Seq<int> {
    Seq::new(pow2((log_evals - i) as nat), |j: int| fpow(fpow(g, pow2(i)), j as nat))
}

/// The table of the domain of `2^log_evals` points that the source `d`
/// generates, one level per halving.
pub fn batch_table(log_evals: usize, d: &RootOfUnity) -> (r: Vec<Vec<Mersenne61Mont>>)
    requires
        log_evals <= d.log_order_view(),
    ensures
        r@.len() == log_evals,
        forall|i: int| 0 <= i < log_evals ==> views(#[trigger] r@[i]@) == batch_level(d.gen(log_evals as nat), log_evals as nat, i as nat),
{
    proof {
        use_type_invariant(d);
    }
    let g = d.generator(log_evals);
    let mut table: Vec<Vec<Mersenne61Mont>> = Vec::new();
    let mut i: usize = 0;
    while i < log_evals
        invariant
            log_evals <= 30,
            g@ == d.gen(log_evals as nat),
            i <= log_evals,
            table@.len() == i,
            forall|t: int| 0 <= t < i ==> views(#[trigger] table@[t]@) == batch_level(d.gen(log_evals as nat), log_evals as nat, t as nat),
        decreases log_evals - i,
    {
        proof {
            lemma2_to64();
            vstd::arithmetic::power2::lemma2_to64_rest();
            if log_evals - i < 30 {
                lemma_pow2_strictly_increases((log_evals - i) as nat, 30);
            }
        }
        let base = crate::fold::exp_power_of_2(g, i);
        let len = pow2_of(log_evals - i);
        let row = powers_row(base, len);
        let ghost before = table@;
        table.push(row);
        assert forall|t: int| 0 <= t < i + 1 implies views(#[trigger] table@[t]@) == batch_level(
            d.gen(log_evals as nat),
            log_evals as nat,
            t as nat,
        ) by {
            if t < i {
                assert(table@[t] == before[t]);
            } else {
                assert(views(row@) =~= batch_level(d.gen(log_evals as nat), log_evals as nat, i as nat));
            }
        }
        i = i + 1;
    }
    table
}

/// The powers of `base` below `len`.
fn powers_row(base: Mersenne61Mont, len: usize) -> (r: Vec<Mersenne61Mont>)
    ensures
        views(r@) == Seq::new(len as nat, |j: int| fpow(base@, j as nat)),
{
    let mut r: Vec<Mersenne61Mont> = Vec::new();
    let mut cur = Mersenne61Mont::one();
    let mut j: usize = 0;
    while j < len
        invariant
            j <= len,
            cur@ == fpow(base@, j as nat),
            views(r@) == Seq::new(j as nat, |t: int| fpow(base@, t as nat)),
        decreases len - j,
    {
        let ghost before = views(r@);
        r.push(cur);
        assert(views(r@) =~= before.push(cur@));
        assert(views(r@) =~= Seq::new((j + 1) as nat, |t: int| fpow(base@, t as nat)));
        proof {
            lemma_fmul_comm(cur@, base@);
        }
        cur = cur.mul(base);
        j = j + 1;
    }
    r
}

/// The levels of the table in reverse order, as the encoding reads them.
pub open spec fn reversed_levels(t: Seq<Vec<Mersenne61Mont>>) -> Seq<Seq<int>> {
    Seq::new(t.len(), |j: int| views(t[t.len() - 1 - j]@))
}

/// The levels the encoding of `2^n` coefficients reads, from `log_rate` on,
/// are in the reversed table, each as long as its stage's blocks.
pub open spec fn lde_table_ok(t: Seq<Vec<Mersenne61Mont>>, log_rate: nat, n: nat) -> bool {
    &&& log_rate + n <= t.len()
    &&& forall|k: int|
        t.len() - log_rate - n <= k < t.len() - log_rate ==> #[trigger] t[k]@.len() == pow2((t.len() - k) as nat)
}

/// The first half of every level.
pub open spec fn half_levels(t: Seq<Seq<int>>) -> Seq<Seq<int>> {
    Seq::new(t.len(), |j: int| t[j].subrange(0, (t[j].len() / 2) as int))
}

/// The stages the encoding of `2^n` coefficients reads, from `log_rate` on,
/// are as long as their blocks.
pub open spec fn batched_table_ok(t: Seq<Vec<Mersenne61Mont>>, log_rate: nat, n: nat) -> bool {
    &&& log_rate + n <= t.len()
    &&& forall|j: int| log_rate <= j < log_rate + n ==> #[trigger] t[j]@.len() == pow2((j + 1) as nat)
}

/// Encodes coefficients over the foldable domain with stages as long as
/// their blocks, of which the butterflies read the first half: every
/// coefficient is repeated `2^log_rate` times, then each stage is applied on
/// blocks of doubling size.
pub fn evaluate_over_foldable_domain(
    log_rate: usize,
    coeffs: Vec<Mersenne61Mont>,
    table: &Vec<Vec<Mersenne61Mont>>,
) -> (r: Vec<Mersenne61Mont>)
    requires
        is_power_of_two(coeffs.len() as int),
        coeffs.len() * pow2(log_rate as nat) <= usize::MAX,
        forall|n: nat| pow2(n) == coeffs.len() ==> batched_table_ok(table@, log_rate as nat, n),
    ensures
        forall|n: nat|
            pow2(n) == coeffs.len() ==> views(r@) == foldable_encoding(
                views(coeffs@),
                log_rate as nat,
                half_levels(crate::p3_fri::table_view(table@)),
                n,
            ),
{
    let ghost n0 = choose|n: nat| pow2(n) == coeffs.len();
    let mut halves: Vec<Vec<Mersenne61Mont>> = Vec::new();
    let mut j: usize = 0;
    while j < table.len()
        invariant
            j <= table.len(),
            halves@.len() == j,
            forall|k: int| 0 <= k < j ==> #[trigger] halves@[k]@ == table@[k]@.subrange(0, (table@[k]@.len() / 2) as int),
        decreases table.len() - j,
    {
        let level = &table[j];
        let half = level.len() / 2;
        let mut h: Vec<Mersenne61Mont> = Vec::new();
        let mut t: usize = 0;
        while t < half
            invariant
                half == level.len() / 2,
                t <= half,
                h@ == level@.subrange(0, t as int),
            decreases half - t,
        {
            h.push(level[t]);
            assert(h@ =~= level@.subrange(0, t + 1));
            t = t + 1;
        }
        let ghost before = halves@;
        halves.push(h);
        assert forall|k: int| 0 <= k < j + 1 implies #[trigger] halves@[k]@ == table@[k]@.subrange(
            0,
            (table@[k]@.len() / 2) as int,
        ) by {
            if k < j {
                assert(halves@[k] == before[k]);
            }
        }
        j = j + 1;
    }
    assert(halves@.len() == table@.len());
    proof {
        assert forall|m: nat| pow2(m) == coeffs.len() implies crate::p3_fri::foldable_table_ok(halves@, log_rate as nat, m) by {
            lemma_halves_ok(table@, halves@, log_rate as nat, m);
        }
    }
    let r = crate::p3_fri::evaluate_over_foldable_domain(log_rate, coeffs, &halves);
    assert(crate::p3_fri::table_view(halves@) =~= half_levels(crate::p3_fri::table_view(table@))) by {
        assert forall|k: int| 0 <= k < halves@.len() implies #[trigger] crate::p3_fri::table_view(halves@)[k]
            == half_levels(crate::p3_fri::table_view(table@))[k] by {
            assert(views(halves@[k]@) =~= views(table@[k]@).subrange(0, (views(table@[k]@).len() / 2) as int));
        }
    }
    r
}

/// Encodings over tables that agree on the levels they read are equal.
proof fn lemma_encoding_reads(c: Seq<int>, log_rate: nat, t1: Seq<Seq<int>>, t2: Seq<Seq<int>>, i: nat)
    requires
        forall|j: int| log_rate <= j < log_rate + i ==> t1[j] == t2[j],
    ensures
        foldable_encoding(c, log_rate, t1, i) == foldable_encoding(c, log_rate, t2, i),
    decreases i,
{
    if i > 0 {
        lemma_encoding_reads(c, log_rate, t1, t2, (i - 1) as nat);
    }
}

/// The extension of a polynomial over the batched domain: its coefficients
/// in bit-reversed order, encoded over the foldable domain with the table's
/// levels reversed (the first level gaining the point `-1`; the butterflies
/// read the first half of each level), then the evaluations in bit-reversed
/// order.
pub fn batch_lde(coeffs: &Vec<Mersenne61Mont>, log_rate: usize, table: &Vec<Vec<Mersenne61Mont>>) -> (r: Vec<
    Mersenne61Mont,
>)
    requires
        log_rate >= 1,
        table.len() >= 1,
        is_power_of_two(coeffs.len() as int),
        coeffs.len() * pow2(log_rate as nat) <= 0x4000_0000,
        forall|n: nat| pow2(n) == coeffs.len() ==> lde_table_ok(table@, log_rate as nat, n),
    ensures
        r@.len() == coeffs.len() * pow2(log_rate as nat),
        forall|n: nat|
            pow2(n) == coeffs.len() ==> views(r@) == bit_reversed(
                foldable_encoding(
                    bit_reversed(views(coeffs@), n),
                    log_rate as nat,
                    half_levels(reversed_levels(table@)),
                    n,
                ),
                n + log_rate as nat,
            ),
{
    let ghost n0 = choose|n: nat| pow2(n) == coeffs.len();
    let len_t = table.len();
    let mut table_copy: Vec<Vec<Mersenne61Mont>> = Vec::new();
    let mut j: usize = 0;
    while j < len_t
        invariant
            len_t == table.len(),
            j <= len_t,
            table_copy@.len() == j,
            forall|k: int| 0 <= k < j ==> #[trigger] table_copy@[k]@ == table@[len_t - 1 - k]@,
        decreases len_t - j,
    {
        let level = copy_layer(&table[len_t - 1 - j]);
        let ghost before = table_copy@;
        table_copy.push(level);
        assert forall|k: int| 0 <= k < j + 1 implies #[trigger] table_copy@[k]@ == table@[len_t - 1 - k]@ by {
            if k < j {
                assert(table_copy@[k] == before[k]);
            }
        }
        j = j + 1;
    }
    let mut first = copy_layer(&table_copy[0]);
    first.push(Mersenne61Mont::zero().sub(Mersenne61Mont::one()));
    let ghost before_set = table_copy@;
    table_copy.set(0, first);
    assert forall|k: int| 1 <= k < len_t implies #[trigger] table_copy@[k]@ == table@[len_t - 1 - k]@ by {
        assert(table_copy@[k] == before_set[k]);
    }
    let mut c = copy_layer(coeffs);
    reverse_index_bits_in_place(&mut c);
    let ghost cr = bit_reversed(views(coeffs@), n0);
    assert(views(c@) == cr);
    assert(views(c@).len() == c@.len());
    proof {
        lemma2_to64();
        assert(lde_table_ok(table@, log_rate as nat, n0));
        assert(c@.len() == coeffs@.len());
        assert(pow2(n0) == coeffs@.len());
        assert forall|m: nat| pow2(m) == c.len() implies batched_table_ok(table_copy@, log_rate as nat, m) by {
            assert(m == n0) by {
                if m < n0 {
                    lemma_pow2_strictly_increases(m, n0);
                } else if n0 < m {
                    lemma_pow2_strictly_increases(n0, m);
                }
            }
            assert forall|j: int| log_rate <= j < log_rate + m implies j < table_copy@.len() && #[trigger] table_copy@[j].len()
                == pow2((j + 1) as nat) by {
                let k = len_t - 1 - j;
                assert(table@[k]@.len() == pow2((len_t - k) as nat));
                assert(table_copy@[j]@ == table@[len_t - 1 - j]@);
            }
        }
        assert forall|j: int| log_rate <= j < log_rate + n0 implies half_levels(crate::p3_fri::table_view(table_copy@))[j]
            == half_levels(reversed_levels(table@))[j] by {
            assert(j < table@.len());
            assert(table_copy@[j]@ == table@[len_t - 1 - j]@);
        }
        assert(c@.len() * pow2(log_rate as nat) <= usize::MAX);
    }
    let mut evals = evaluate_over_foldable_domain(log_rate, c, &table_copy);
    let ghost enc = foldable_encoding(cr, log_rate as nat, half_levels(crate::p3_fri::table_view(table_copy@)), n0);
    assert(views(evals@) == enc);
    proof {
        lemma_encoding_reads(
            cr,
            log_rate as nat,
            half_levels(crate::p3_fri::table_view(table_copy@)),
            half_levels(reversed_levels(table@)),
            n0,
        );
        crate::p3_fri::lemma_encoding_len(cr, log_rate as nat, half_levels(crate::p3_fri::table_view(table_copy@)), n0);
        vstd::arithmetic::power2::lemma_pow2_adds(n0, log_rate as nat);
    }
    assert(views(evals@).len() == evals@.len());
    assert(evals@.len() == coeffs.len() * pow2(log_rate as nat));
    reverse_index_bits_in_place(&mut evals);
    assert(views(evals@).len() == evals@.len());
    assert forall|n: nat| pow2(n) == coeffs.len() implies views(evals@) == bit_reversed(
        foldable_encoding(bit_reversed(views(coeffs@), n), log_rate as nat, half_levels(reversed_levels(table@)), n),
        n + log_rate as nat,
    ) by {
        if n != n0 {
            if n < n0 {
                lemma_pow2_strictly_increases(n, n0);
            } else {
                lemma_pow2_strictly_increases(n0, n);
            }
        }
    }
    evals
}


/// The commitment to a batch of polynomials of strictly decreasing sizes:
/// their extensions over the batched domain and the tree over all of them.
pub fn batch_commit(polys: &Vec<Vec<Mersenne61Mont>>, log_rate: usize, table: &Vec<Vec<Mersenne61Mont>>) -> (r: (
    Vec<Vec<Mersenne61Mont>>,
    Vec<Vec<[u8; 32]>>,
))
    requires
        polys.len() >= 1,
        log_rate >= 1,
        table.len() >= 1,
        forall|k: int|
            0 <= k < polys.len() ==> is_power_of_two(#[trigger] polys@[k]@.len() as int) && polys@[k]@.len() * pow2(
                log_rate as nat,
            ) <= 0x4000_0000,
        forall|k: int, n: nat|
            #![trigger polys@[k], pow2(n)]
            0 <= k < polys.len() && pow2(n) == polys@[k]@.len() ==> lde_table_ok(table@, log_rate as nat, n),
        forall|k: int| 0 < k < polys.len() ==> #[trigger] polys@[k]@.len() < polys@[k - 1]@.len(),
    ensures
        r.0@.len() == polys.len(),
        forall|k: int, n: nat|
            #![trigger r.0@[k], pow2(n)]
            0 <= k < polys.len() && pow2(n) == polys@[k]@.len() ==> views(r.0@[k]@) == bit_reversed(
                foldable_encoding(
                    bit_reversed(views(polys@[k]@), n),
                    log_rate as nat,
                    half_levels(reversed_levels(table@)),
                    n,
                ),
                n + log_rate as nat,
            ),
        crate::merkle::tree_view(r.1@) == crate::mmcs::mmcs_tree(
            crate::mmcs::hashed_values(r.0@),
            crate::mmcs::log2_of_len(r.0@[0]@.len()),
        ),
{
    let mut ldes: Vec<Vec<Mersenne61Mont>> = Vec::new();
    let mut k: usize = 0;
    proof {
        lemma_pow2_pos(log_rate as nat);
    }
    while k < polys.len()
        invariant
            polys.len() >= 1,
            log_rate >= 1,
            table.len() >= 1,
            pow2(log_rate as nat) > 0,
            forall|m: int|
                0 <= m < polys.len() ==> is_power_of_two(#[trigger] polys@[m]@.len() as int) && polys@[m]@.len()
                    * pow2(log_rate as nat) <= 0x4000_0000,
            forall|m: int, n: nat|
                #![trigger polys@[m], pow2(n)]
                0 <= m < polys.len() && pow2(n) == polys@[m]@.len() ==> lde_table_ok(table@, log_rate as nat, n),
            k <= polys.len(),
            ldes@.len() == k,
            forall|m: int| 0 <= m < k ==> #[trigger] ldes@[m]@.len() == polys@[m]@.len() * pow2(log_rate as nat),
            forall|m: int, n: nat|
                #![trigger ldes@[m], pow2(n)]
                0 <= m < k && pow2(n) == polys@[m]@.len() ==> views(ldes@[m]@) == bit_reversed(
                    foldable_encoding(
                        bit_reversed(views(polys@[m]@), n),
                        log_rate as nat,
                        half_levels(reversed_levels(table@)),
                        n,
                    ),
                    n + log_rate as nat,
                ),
        decreases polys.len() - k,
    {
        let p = &polys[k];
        assert(is_power_of_two(polys@[k as int]@.len() as int));
        let lde = batch_lde(p, log_rate, table);
        let ghost before = ldes@;
        ldes.push(lde);
        assert forall|m: int, n: nat|
            #![trigger ldes@[m], pow2(n)]
            0 <= m < k + 1 && pow2(n) == polys@[m]@.len() implies views(ldes@[m]@) == bit_reversed(
                foldable_encoding(
                        bit_reversed(views(polys@[m]@), n),
                        log_rate as nat,
                        half_levels(reversed_levels(table@)),
                        n,
                    ),
                n + log_rate as nat,
            ) by {
            if m < k {
                assert(ldes@[m] == before[m]);
            }
        }
        assert forall|m: int| 0 <= m < k + 1 implies #[trigger] ldes@[m]@.len() == polys@[m]@.len() * pow2(
            log_rate as nat,
        ) by {
            if m < k {
                assert(ldes@[m] == before[m]);
            }
        }
        k = k + 1;
    }
    proof {
        assert forall|m: int| 0 <= m < ldes@.len() implies is_power_of_two(#[trigger] ldes@[m]@.len() as int) by {
            let n = choose|n: nat| pow2(n) == polys@[m]@.len();
            vstd::arithmetic::power2::lemma_pow2_adds(n, log_rate as nat);
        }
        assert forall|m: int| 0 < m < ldes@.len() implies #[trigger] ldes@[m]@.len() < ldes@[m - 1]@.len() by {
            vstd::arithmetic::mul::lemma_mul_strict_inequality(
                polys@[m]@.len() as int,
                polys@[m - 1]@.len() as int,
                pow2(log_rate as nat) as int,
            );
        }
    }
    let tree = crate::mmcs::merkelize_mmcs(&ldes);
    (ldes, tree)
}


/// The first halves of levels as long as their blocks are as long as the
/// stages read.
proof fn lemma_halves_ok(table: Seq<Vec<Mersenne61Mont>>, halves: Seq<Vec<Mersenne61Mont>>, log_rate: nat, m: nat)
    requires
        batched_table_ok(table, log_rate, m),
        halves.len() == table.len(),
        forall|k: int| 0 <= k < halves.len() ==> #[trigger] halves[k]@ == table[k]@.subrange(0, (table[k]@.len() / 2) as int),
    ensures
        crate::p3_fri::foldable_table_ok(halves, log_rate, m),
{
    assert forall|j: int| log_rate <= j < log_rate + m implies j < halves.len() && #[trigger] halves[j].len() == pow2(
        j as nat,
    ) by {
        assert(j < table.len() && table[j]@.len() == pow2((j + 1) as nat));
        vstd::arithmetic::power2::lemma_pow2_unfold((j + 1) as nat);
        assert(halves[j]@ == table[j]@.subrange(0, (table[j]@.len() / 2) as int));
    }
}

/// The pair a round authenticates: the running value `a` at the query's
/// position `qc` and the sibling entry `sib` beside it, in the order of their
/// positions, must hash along `path` up to `root`.
#[verifier::opaque]
pub open spec fn round_pair_authenticates(
    path: Vec<([u8; 32], [u8; 32])>,
    root: [u8; 32],
    sib: int,
    a: int,
    qc: int,
) -> bool {
    path_root_ok(
        pairs_view(path@),
        if qc % 2 == 0 { a } else { sib },
        if qc % 2 == 0 { sib } else { a },
        qc,
        root@,
    )
}

/// One passing round: when the first `k + 1` rounds pass, the first `k` do,
/// and round `k`'s path authenticates a pair with the sibling entry.
#[verifier::spinoff_prover]
proof fn lemma_batch_round_authenticates(
    q: int,
    cur_path: Seq<int>,
    openings: Seq<int>,
    round_paths: Seq<Vec<([u8; 32], [u8; 32])>>,
    round_roots: Seq<[u8; 32]>,
    table: Seq<Vec<Mersenne61Mont>>,
    evals: Seq<int>,
    point: int,
    lambda: int,
    challenges: Seq<int>,
    k: nat,
)
    requires
        batch_query_chain(q, cur_path, openings, round_paths, round_roots, table, evals, point, lambda, challenges, k + 1)
            is Ok,
    ensures
        batch_query_chain(q, cur_path, openings, round_paths, round_roots, table, evals, point, lambda, challenges, k)
            is Ok,
        round_authenticated(round_paths, round_roots, cur_path, q, k as int),
{
    let folded = batch_query_chain(q, cur_path, openings, round_paths, round_roots, table, evals, point, lambda, challenges, k)->Ok_0;
    let qc = round_pos(q, k);
    let p = views(table[k as int]@)[qc];
    let acc = fadd(
        folded,
        fmul(fadd(1, fmul(lambda, p)), fmul(fsub(openings[k as int], evals[k as int]), finv(fsub(p, point)))),
    );
    reveal(round_pair_authenticates);
    assert(round_pair_authenticates(round_paths[k as int], round_roots[k as int], cur_path[k as int], acc, qc));
}

/// Round `k`'s path authenticates, against the round's root, a pair made of
/// the sibling entry `sibs[k]` and some value at the query's position.
pub open spec fn round_authenticated(
    round_paths: Seq<Vec<([u8; 32], [u8; 32])>>,
    round_roots: Seq<[u8; 32]>,
    sibs: Seq<int>,
    q: int,
    k: int,
) -> bool {
    exists|a: int| #[trigger] round_pair_authenticates(round_paths[k], round_roots[k], sibs[k], a, round_pos(q, k as nat))
}

/// Soundness of the rounds' Merkle checks: when the first `j` rounds of a
/// query's check pass, then in every one of them (not only the first) the
/// round's path authenticates against the round's root a pair made of the
/// sibling entry from the answer and a value at the query's position.
pub proof fn lemma_batch_chain_authenticates_every_round(
    q: int,
    cur_path: Seq<int>,
    openings: Seq<int>,
    round_paths: Seq<Vec<([u8; 32], [u8; 32])>>,
    round_roots: Seq<[u8; 32]>,
    table: Seq<Vec<Mersenne61Mont>>,
    evals: Seq<int>,
    point: int,
    lambda: int,
    challenges: Seq<int>,
    j: nat,
)
    requires
        batch_query_chain(q, cur_path, openings, round_paths, round_roots, table, evals, point, lambda, challenges, j)
            is Ok,
    ensures
        forall|k: int| 0 <= k < j ==> #[trigger] round_authenticated(round_paths, round_roots, cur_path, q, k),
    decreases j,
{
    if j > 0 {
        let k = (j - 1) as nat;
        lemma_batch_round_authenticates(q, cur_path, openings, round_paths, round_roots, table, evals, point, lambda, challenges, k);
        lemma_batch_chain_authenticates_every_round(
            q,
            cur_path,
            openings,
            round_paths,
            round_roots,
            table,
            evals,
            point,
            lambda,
            challenges,
            k,
        );
    }
}

#[verifier::spinoff_prover]
/// Soundness of a query's check: an accepted query has, in every round, a
/// path that authenticates against the round's root the answer's sibling
/// entry together with a value at the query's position.
pub proof fn lemma_batch_query_authenticates_every_round(
    q: int,
    cur_path: Seq<Mersenne61Mont>,
    openings: Seq<Mersenne61Mont>,
    round_paths: Seq<Vec<([u8; 32], [u8; 32])>>,
    first_path: Seq<[u8; 32]>,
    first_root: [u8; 32],
    round_roots: Seq<[u8; 32]>,
    table: Seq<Vec<Mersenne61Mont>>,
    evals: Seq<Mersenne61Mont>,
    point: int,
    lambda: int,
    challenges: Seq<Mersenne61Mont>,
    final_value: int,
    log_evals: nat,
    rounds: nat,
)
    requires
        batch_query_outcome(
            q,
            cur_path,
            openings,
            round_paths,
            first_path,
            first_root,
            round_roots,
            table,
            evals,
            point,
            lambda,
            challenges,
            final_value,
            log_evals,
            rounds,
        ) is Ok,
    ensures
        mmcs_climb(dseq(first_path), views(openings), q, log_evals) == first_root@,
        forall|k: int| 0 <= k < rounds ==> #[trigger] round_authenticated(round_paths, round_roots, views(cur_path), q, k),
{
    lemma_batch_chain_authenticates_every_round(
        q,
        views(cur_path),
        views(openings),
        round_paths,
        round_roots,
        table,
        views(evals),
        point,
        lambda,
        views(challenges),
        rounds,
    );
}

} // verus!
