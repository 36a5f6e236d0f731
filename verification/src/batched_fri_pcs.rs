//! Batched FRI as a whole: the opening of a family of committed codewords of
//! halving lengths at one point and its verification, with the verifier's
//! challenges handed in by the caller.
use crate::basefold::query_views;
use crate::batched_fri::{
    batch_query_chain, batch_query_outcome, lemma_batch_query_authenticates_every_round, round_authenticated, batch_query_path, batch_quotient, batch_round,
    honest_answer as batch_honest, lemma_batch_query_tracks_prover, prover_round_code, prover_running, round_pos,
    verify_batch_query, BatchQueryError,
};
use crate::merkle::{dseq, get_merkle_path, lemma_merkle_path_complete, merkelize, merkle_tree_of, tree_view};
use crate::mersenne_61_mont::{fadd, finv, fmul, fsub, lemma_fmul_comm, views, Mersenne61Mont};
use crate::mmcs::{get_merkle_path_mmcs, hashed_values, lemma_mmcs_path_complete, mmcs_path, mmcs_tree};
use crate::util::pow2_of;
use crate::zeromorph_fri_v4::copy_vec;
use crate::zeromorph_fri_v4_pcs::{codeword_root, lemma_path_in_root, path_in};
use vstd::arithmetic::power2::{lemma2_to64, lemma_pow2_pos, lemma_pow2_strictly_increases, lemma_pow2_unfold, pow2};
use vstd::prelude::*;

verus! {

/// The parameters: `2^log_evals` entries in the longest codeword, one round
/// per committed codeword, and the bit-reversed layers of points (layer `i`
/// holds `2^(log_evals - i)` points).
pub struct BatchedParams {
    pub log_evals: usize,
    pub rounds: usize,
    pub layers: Vec<Vec<Mersenne61Mont>>,
}

impl BatchedParams {
    /// Parameters the scheme runs with: every round's codeword has at least
    /// four entries, so that its tree has a layer below the root.
    pub open spec fn wf(&self) -> bool {
        &&& 1 <= self.rounds < self.log_evals
        &&& self.log_evals <= 30
        &&& self.layers@.len() >= self.rounds
        &&& forall|i: int|
            0 <= i < self.rounds ==> #[trigger] self.layers@[i]@.len() == pow2((self.log_evals - i) as nat)
    }
}

/// The commitment: the codewords of halving lengths and the tree over them.
pub struct BatchedCommitment {
    pub codewords: Vec<Vec<Mersenne61Mont>>,
    pub tree: Vec<Vec<[u8; 32]>>,
}

/// The commitment holds one codeword per round, of halving lengths, and the
/// tree over them.
pub open spec fn batched_committed(pp: BatchedParams, comm: BatchedCommitment) -> bool {
    &&& comm.codewords@.len() == pp.rounds
    &&& forall|i: int|
        0 <= i < pp.rounds ==> #[trigger] comm.codewords@[i]@.len() == pow2((pp.log_evals - i) as nat)
    &&& tree_view(comm.tree@) == mmcs_tree(hashed_values(comm.codewords@), pp.log_evals as nat)
}

/// The verifier's challenges: the weight `lambda` of the quotient terms, one
/// folding challenge per round, and the queried positions.
pub struct BatchedChallenges {
    pub lambda: Mersenne61Mont,
    pub alphas: Vec<Mersenne61Mont>,
    pub queries: Vec<usize>,
}

/// The answer to one query: the sibling entry of each round's codeword, the
/// committed codewords' entries, each round's path, and the path of the
/// openings to the commitment's root.
pub struct BatchedAnswer {
    pub cur_path: Vec<Mersenne61Mont>,
    pub openings: Vec<Mersenne61Mont>,
    pub round_paths: Vec<Vec<([u8; 32], [u8; 32])>>,
    pub first_path: Vec<[u8; 32]>,
}

/// What the prover sends: the root of each round's codeword, the final
/// value and the answer to every query.
pub struct BatchedProof {
    pub round_roots: Vec<[u8; 32]>,
    pub final_value: Mersenne61Mont,
    pub answers: Vec<BatchedAnswer>,
}

/// Why the verifier rejects a batched opening.
#[derive(Clone, Copy, Debug, PartialEq, Eq, Structural)]
pub enum BatchedError {
    /// The proof does not have the sizes the parameters ask for.
    Shape,
    /// Query `k` fails its check.
    Query(usize, BatchQueryError),
}

/// The position that query `k` reads.
pub open spec fn batched_position(pp: BatchedParams, ch: BatchedChallenges, k: int) -> int {
    ch.queries@[k] as int % pow2(pp.log_evals as nat) as int
}

/// The honest prover's codeword of round `i`.
pub open spec fn batched_round_code(
    pp: BatchedParams,
    comm: BatchedCommitment,
    evals: Seq<int>,
    point: int,
    ch: BatchedChallenges,
    i: nat,
) -> Seq<int> {
    prover_round_code(
        query_views(comm.codewords@),
        evals,
        point,
        ch.lambda@,
        views(ch.alphas@),
        pp.layers@,
        pp.log_evals as nat,
        i,
    )
}

/// The honest answer at position `q`: the sibling entries of the round
/// codewords, the committed entries, the rounds' paths and the openings'
/// path.
pub open spec fn batched_honest_answer(
    pp: BatchedParams,
    comm: BatchedCommitment,
    evals: Seq<int>,
    point: int,
    ch: BatchedChallenges,
    q: int,
    a: BatchedAnswer,
) -> bool {
    let n = pp.rounds as int;
    let lg = pp.log_evals as nat;
    &&& a.cur_path@.len() == n
    &&& a.openings@.len() == n
    &&& a.round_paths@.len() == n
    &&& dseq(a.first_path@) == mmcs_path(tree_view(comm.tree@), q, lg)
    &&& forall|i: int|
        0 <= i < n ==> {
            let qi = round_pos(q, i as nat);
            let code = batched_round_code(pp, comm, evals, point, ch, i as nat);
            &&& #[trigger] a.openings@[i]@ == views(comm.codewords@[i]@)[qi]
            &&& a.cur_path@[i]@ == code[if qi % 2 == 0 {
                qi + 1
            } else {
                qi - 1
            }]
            &&& path_in(merkle_tree_of(code, (lg - i) as nat), qi, a.round_paths@[i]@)
        }
}

/// The honest opening of the committed codewords at `point` to the values
/// `evals` under the challenges `ch`.
pub open spec fn batched_honest_proof(
    pp: BatchedParams,
    comm: BatchedCommitment,
    evals: Seq<int>,
    point: int,
    ch: BatchedChallenges,
    r: BatchedProof,
) -> bool {
    let n = pp.rounds as int;
    let lg = pp.log_evals as nat;
    &&& r.round_roots@.len() == n
    &&& forall|i: int|
        0 <= i < n ==> (#[trigger] r.round_roots@[i])@ == codeword_root(
            batched_round_code(pp, comm, evals, point, ch, i as nat),
            (lg - i) as nat,
        )
    &&& r.final_value@ == prover_running(
        query_views(comm.codewords@),
        evals,
        point,
        ch.lambda@,
        views(ch.alphas@),
        pp.layers@,
        lg,
        n as nat,
    )[0]
    &&& r.answers@.len() == ch.queries@.len()
    &&& forall|k: int|
        0 <= k < ch.queries@.len() ==> batched_honest_answer(
            pp,
            comm,
            evals,
            point,
            ch,
            batched_position(pp, ch, k),
            #[trigger] r.answers@[k],
        )
}

/// The running codeword before round `i` has `2^(log_evals - i)` entries.
proof fn lemma_running_len(
    pp: BatchedParams,
    ps: Seq<Seq<int>>,
    evals: Seq<int>,
    point: int,
    lambda: int,
    alphas: Seq<int>,
    i: nat,
)
    requires
        pp.wf(),
        i <= pp.rounds,
        ps.len() >= i,
        forall|k: int| 0 <= k < i ==> #[trigger] ps[k].len() == pow2((pp.log_evals - k) as nat),
    ensures
        prover_running(ps, evals, point, lambda, alphas, pp.layers@, pp.log_evals as nat, i).len() == pow2(
            (pp.log_evals - i) as nat,
        ),
    decreases i,
{
    if i > 0 {
        lemma_running_len(pp, ps, evals, point, lambda, alphas, (i - 1) as nat);
        lemma_pow2_unfold((pp.log_evals - i + 1) as nat);
        assert(pp.layers@[i - 1]@.len() == pow2((pp.log_evals - (i - 1)) as nat));
    }
}

/// The honest rounds: each round's codeword with its tree and root, and the
/// final value.
#[verifier::spinoff_prover]
#[verifier::rlimit(60)]
fn batched_rounds_honest(
    pp: &BatchedParams,
    comm: &BatchedCommitment,
    evals: &Vec<Mersenne61Mont>,
    point: Mersenne61Mont,
    ch: &BatchedChallenges,
) -> (r: (Vec<Vec<Mersenne61Mont>>, Vec<Vec<Vec<[u8; 32]>>>, Vec<[u8; 32]>, Mersenne61Mont))
    requires
        pp.wf(),
        batched_committed(*pp, *comm),
        evals@.len() == pp.rounds,
        ch.alphas@.len() == pp.rounds,
    ensures
        r.0@.len() == pp.rounds,
        r.1@.len() == pp.rounds,
        r.2@.len() == pp.rounds,
        forall|i: int|
            0 <= i < pp.rounds ==> {
                let code = batched_round_code(*pp, *comm, views(evals@), point@, *ch, i as nat);
                &&& views(#[trigger] r.0@[i]@) == code
                &&& r.0@[i]@.len() == pow2((pp.log_evals - i) as nat)
                &&& tree_view(r.1@[i]@) == merkle_tree_of(code, (pp.log_evals - i) as nat)
                &&& r.2@[i]@ == codeword_root(code, (pp.log_evals - i) as nat)
            },
        r.3@ == prover_running(
            query_views(comm.codewords@),
            views(evals@),
            point@,
            ch.lambda@,
            views(ch.alphas@),
            pp.layers@,
            pp.log_evals as nat,
            pp.rounds as nat,
        )[0],
{
    let n = pp.rounds;
    let lg = pp.log_evals;
    let ghost ps = query_views(comm.codewords@);
    let ghost ev = views(evals@);
    let ghost al = views(ch.alphas@);
    proof {
        lemma2_to64();
        lemma_pow2_strictly_increases(lg as nat, 31);
    }
    let size = pow2_of(lg);
    let mut folded: Vec<Mersenne61Mont> = Vec::new();
    let mut j: usize = 0;
    while j < size
        invariant
            j <= size,
            folded@.len() == j,
            forall|t: int| 0 <= t < j ==> #[trigger] folded@[t]@ == 0,
        decreases size - j,
    {
        folded.push(Mersenne61Mont::zero());
        j = j + 1;
    }
    proof {
        assert(views(folded@) =~= prover_running(ps, ev, point@, ch.lambda@, al, pp.layers@, lg as nat, 0));
    }
    let mut tree_evals: Vec<Vec<Mersenne61Mont>> = Vec::new();
    let mut trees: Vec<Vec<Vec<[u8; 32]>>> = Vec::new();
    let mut roots: Vec<[u8; 32]> = Vec::new();
    let mut i: usize = 0;
    while i < n
        invariant
            pp.wf(),
            batched_committed(*pp, *comm),
            n == pp.rounds,
            lg == pp.log_evals,
            ps == query_views(comm.codewords@),
            ev == views(evals@),
            al == views(ch.alphas@),
            evals@.len() == n,
            ch.alphas@.len() == n,
            i <= n,
            views(folded@) == prover_running(ps, ev, point@, ch.lambda@, al, pp.layers@, lg as nat, i as nat),
            folded@.len() == pow2((lg - i) as nat),
            tree_evals@.len() == i,
            trees@.len() == i,
            roots@.len() == i,
            forall|t: int|
                0 <= t < i ==> {
                    let code = batched_round_code(*pp, *comm, ev, point@, *ch, t as nat);
                    &&& views(#[trigger] tree_evals@[t]@) == code
                    &&& tree_evals@[t]@.len() == pow2((lg - t) as nat)
                    &&& tree_view(trees@[t]@) == merkle_tree_of(code, (lg - t) as nat)
                    &&& roots@[t]@ == codeword_root(code, (lg - t) as nat)
                },
        decreases n - i,
    {
        let layer = &pp.layers[i];
        let cw = &comm.codewords[i];
        proof {
            assert(layer@.len() == pow2((lg - i) as nat));
            assert(cw@.len() == pow2((lg - i) as nat));
            assert(views(cw@) == ps[i as int]);
            lemma_pow2_unfold((lg - i) as nat);
            lemma_pow2_pos((lg - i - 1) as nat);
        }
        let quotient = batch_quotient(cw, evals[i], point, layer);
        assert(views(quotient@).len() == quotient@.len());
        let (before, after) = batch_round(&folded, &quotient, layer, ch.lambda, ch.alphas[i]);
        let ghost code = batched_round_code(*pp, *comm, ev, point@, *ch, i as nat);
        proof {
            assert(views(before@) == code);
            assert(views(after@) == prover_running(ps, ev, point@, ch.lambda@, al, pp.layers@, lg as nat, (i + 1) as nat));
            assert(views(before@).len() == before@.len());
            assert(views(after@).len() == after@.len());
            assert(crate::fold::folded_row(code, al[i as int], views(layer@)).len() == code.len() / 2);
            lemma_pow2_pos((lg - i) as nat);
            lemma_pow2_strictly_increases(0, (lg - i) as nat);
            lemma_merkle_path_complete(code, (lg - i) as nat, 0);
        }
        let tree = merkelize(&before);
        assert(tree_view(tree@) == merkle_tree_of(code, (lg - i) as nat));
        assert(tree@.len() == tree_view(tree@).len());
        let root = tree[lg - i - 1][0];
        assert(dseq(tree@[lg - i - 1]@)[0] == root@);
        let te = copy_vec(&before);
        let ghost old_te = tree_evals@;
        let ghost old_tr = trees@;
        let ghost old_rt = roots@;
        tree_evals.push(te);
        trees.push(tree);
        roots.push(root);
        proof {
            assert forall|t: int| 0 <= t < i + 1 implies {
                let c2 = batched_round_code(*pp, *comm, ev, point@, *ch, t as nat);
                &&& views(#[trigger] tree_evals@[t]@) == c2
                &&& tree_evals@[t]@.len() == pow2((lg - t) as nat)
                &&& tree_view(trees@[t]@) == merkle_tree_of(c2, (lg - t) as nat)
                &&& roots@[t]@ == codeword_root(c2, (lg - t) as nat)
            } by {
                if t < i {
                    assert(tree_evals@[t] == old_te[t] && trees@[t] == old_tr[t] && roots@[t] == old_rt[t]);
                }
            }
        }
        folded = after;
        i = i + 1;
    }
    proof {
        lemma_pow2_pos((lg - n) as nat);
    }
    let final_value = folded[0];
    (tree_evals, trees, roots, final_value)
}

/// The honest answer to the query at position `q`.
#[verifier::spinoff_prover]
fn batched_answer(
    pp: &BatchedParams,
    comm: &BatchedCommitment,
    q: usize,
    tree_evals: &Vec<Vec<Mersenne61Mont>>,
    trees: &Vec<Vec<Vec<[u8; 32]>>>,
    Ghost(evals): Ghost<Seq<int>>,
    Ghost(point): Ghost<int>,
    Ghost(ch): Ghost<BatchedChallenges>,
) -> (a: BatchedAnswer)
    requires
        pp.wf(),
        batched_committed(*pp, *comm),
        q < pow2(pp.log_evals as nat),
        tree_evals@.len() == pp.rounds,
        trees@.len() == pp.rounds,
        forall|i: int|
            0 <= i < pp.rounds ==> {
                let code = batched_round_code(*pp, *comm, evals, point, ch, i as nat);
                &&& views(#[trigger] tree_evals@[i]@) == code
                &&& tree_evals@[i]@.len() == pow2((pp.log_evals - i) as nat)
                &&& tree_view(trees@[i]@) == merkle_tree_of(code, (pp.log_evals - i) as nat)
            },
    ensures
        batched_honest_answer(*pp, *comm, evals, point, ch, q as int, a),
{
    let n = pp.rounds;
    let ghost lg = pp.log_evals as nat;
    proof {
        lemma2_to64();
        assert forall|i: int| 0 <= i < n implies (q as int / pow2(i as nat) as int) / 2 * 2 + 1
            < #[trigger] tree_evals@[i]@.len() by {
            crate::zeromorph_fri_v4_pcs::lemma_div_pow2_below(q as int, lg, i as nat);
            lemma_pow2_unfold((lg - i) as nat);
        }
        assert forall|i: int| 0 <= i < n implies (q as int / pow2(i as nat) as int) < #[trigger] comm.codewords@[
            i
        ]@.len() by {
            crate::zeromorph_fri_v4_pcs::lemma_div_pow2_below(q as int, lg, i as nat);
        }
        assert(crate::mmcs::consecutive_heights(comm.codewords@, lg));
        lemma_mmcs_path_complete(comm.codewords@, lg, q as int);
    }
    let (cur_path, indices, openings) = batch_query_path(q, tree_evals, &comm.codewords, n);
    let first_path = get_merkle_path_mmcs(&comm.tree, q);
    assert(comm.tree@.len() == tree_view(comm.tree@).len());
    let mut round_paths: Vec<Vec<([u8; 32], [u8; 32])>> = Vec::new();
    let mut i: usize = 0;
    let mut qc: usize = q;
    assert(round_pos(q as int, 0) == q) by {
        lemma2_to64();
    }
    while i < n
        invariant
            pp.wf(),
            n == pp.rounds,
            lg == pp.log_evals,
            i <= n,
            q < pow2(lg),
            qc == round_pos(q as int, i as nat),
            trees@.len() == n,
            tree_evals@.len() == n,
            forall|t: int|
                0 <= t < pp.rounds ==> {
                    let code = batched_round_code(*pp, *comm, evals, point, ch, t as nat);
                    &&& views(#[trigger] tree_evals@[t]@) == code
                    &&& tree_evals@[t]@.len() == pow2((pp.log_evals - t) as nat)
                    &&& tree_view(trees@[t]@) == merkle_tree_of(code, (pp.log_evals - t) as nat)
                },
            round_paths@.len() == i,
            forall|t: int|
                0 <= t < i ==> path_in(
                    merkle_tree_of(batched_round_code(*pp, *comm, evals, point, ch, t as nat), (lg - t) as nat),
                    round_pos(q as int, t as nat),
                    #[trigger] round_paths@[t]@,
                ),
        decreases n - i,
    {
        let ghost code = batched_round_code(*pp, *comm, evals, point, ch, i as nat);
        proof {
            assert(views(tree_evals@[i as int]@) == code);
            assert(tree_evals@[i as int]@.len() == pow2((lg - i) as nat));
            crate::zeromorph_fri_v4_pcs::lemma_div_pow2_below(q as int, lg, i as nat);
            lemma_merkle_path_complete(code, (lg - i) as nat, qc as int);
        }
        let path = get_merkle_path(&trees[i], qc, false);
        let ghost old = round_paths@;
        round_paths.push(path);
        proof {
            assert forall|t: int|
                0 <= t < i + 1 implies path_in(
                merkle_tree_of(batched_round_code(*pp, *comm, evals, point, ch, t as nat), (lg - t) as nat),
                round_pos(q as int, t as nat),
                #[trigger] round_paths@[t]@,
            ) by {
                if t < i {
                    assert(round_paths@[t] == old[t]);
                }
            }
            lemma_pow2_pos(i as nat);
            vstd::arithmetic::div_mod::lemma_div_denominator(q as int, pow2(i as nat) as int, 2);
            lemma_pow2_unfold((i + 1) as nat);
            vstd::arithmetic::mul::lemma_mul_is_commutative(pow2(i as nat) as int, 2);
        }
        qc = qc / 2;
        i = i + 1;
    }
    proof {
        assert forall|i: int| 0 <= i < n implies {
            let qi = round_pos(q as int, i as nat);
            let code = batched_round_code(*pp, *comm, evals, point, ch, i as nat);
            &&& #[trigger] openings@[i]@ == views(comm.codewords@[i]@)[qi]
            &&& cur_path@[i]@ == code[if qi % 2 == 0 {
                qi + 1
            } else {
                qi - 1
            }]
            &&& path_in(merkle_tree_of(code, (lg - i) as nat), qi, round_paths@[i]@)
        } by {
            let qi = round_pos(q as int, i as nat);
            assert(path_in(
                merkle_tree_of(batched_round_code(*pp, *comm, evals, point, ch, i as nat), (lg - i) as nat),
                round_pos(q as int, i as nat),
                round_paths@[i]@,
            ));
            assert(views(tree_evals@[i]@) == batched_round_code(*pp, *comm, evals, point, ch, i as nat));
            assert(indices@[i] == qi);
            assert(openings@[i] == comm.codewords@[i]@[qi]);
        }
    }
    assert(dseq(first_path@) == mmcs_path(tree_view(comm.tree@), q as int, lg));
    assert(cur_path@.len() == n && openings@.len() == n && round_paths@.len() == n);
    let a = BatchedAnswer { cur_path, openings, round_paths, first_path };
    proof {
        assert forall|i: int| 0 <= i < n implies {
            let qi = round_pos(q as int, i as nat);
            let code = batched_round_code(*pp, *comm, evals, point, ch, i as nat);
            &&& #[trigger] a.openings@[i]@ == views(comm.codewords@[i]@)[qi]
            &&& a.cur_path@[i]@ == code[if qi % 2 == 0 {
                qi + 1
            } else {
                qi - 1
            }]
            &&& path_in(merkle_tree_of(code, (lg - i) as nat), qi, a.round_paths@[i]@)
        } by {
            assert(a.openings@[i] == openings@[i]);
        }
        assert(batched_honest_answer(*pp, *comm, evals, point, ch, q as int, a));
    }
    a
}

/// Opens the committed codewords at `point` to the values `evals`: round
/// by round, the codeword's quotient by `X - point` (weighted by `1 + lambda
/// X`) is added to the running codeword, which is committed and folded with
/// the round's challenge; then every query is answered.
pub fn batched_fri_open(
    pp: &BatchedParams,
    comm: &BatchedCommitment,
    evals: &Vec<Mersenne61Mont>,
    point: Mersenne61Mont,
    ch: &BatchedChallenges,
) -> (r: BatchedProof)
    requires
        pp.wf(),
        batched_committed(*pp, *comm),
        evals@.len() == pp.rounds,
        ch.alphas@.len() == pp.rounds,
    ensures
        batched_honest_proof(*pp, *comm, views(evals@), point@, *ch, r),
{
    let (tree_evals, trees, round_roots, final_value) = batched_rounds_honest(pp, comm, evals, point, ch);
    let lg = pp.log_evals;
    proof {
        lemma2_to64();
        lemma_pow2_strictly_increases(lg as nat, 31);
    }
    let p2 = pow2_of(lg);
    let mut answers: Vec<BatchedAnswer> = Vec::new();
    let mut k: usize = 0;
    while k < ch.queries.len()
        invariant
            pp.wf(),
            batched_committed(*pp, *comm),
            lg == pp.log_evals,
            p2 == pow2(lg as nat),
            tree_evals@.len() == pp.rounds,
            trees@.len() == pp.rounds,
            forall|i: int|
                0 <= i < pp.rounds ==> {
                    let code = batched_round_code(*pp, *comm, views(evals@), point@, *ch, i as nat);
                    &&& views(#[trigger] tree_evals@[i]@) == code
                    &&& tree_evals@[i]@.len() == pow2((pp.log_evals - i) as nat)
                    &&& tree_view(trees@[i]@) == merkle_tree_of(code, (pp.log_evals - i) as nat)
                },
            k <= ch.queries@.len(),
            answers@.len() == k,
            forall|t: int|
                0 <= t < k ==> batched_honest_answer(
                    *pp,
                    *comm,
                    views(evals@),
                    point@,
                    *ch,
                    batched_position(*pp, *ch, t),
                    #[trigger] answers@[t],
                ),
        decreases ch.queries@.len() - k,
    {
        proof {
            lemma_pow2_pos(lg as nat);
        }
        let q = ch.queries[k] % p2;
        let a = batched_answer(pp, comm, q, &tree_evals, &trees, Ghost(views(evals@)), Ghost(point@), Ghost(*ch));
        let ghost old = answers@;
        answers.push(a);
        proof {
            assert forall|t: int|
                0 <= t < k + 1 implies batched_honest_answer(
                *pp,
                *comm,
                views(evals@),
                point@,
                *ch,
                batched_position(*pp, *ch, t),
                #[trigger] answers@[t],
            ) by {
                if t < k {
                    assert(answers@[t] == old[t]);
                }
            }
        }
        k = k + 1;
    }
    proof {
        assert forall|i: int| 0 <= i < pp.rounds implies (#[trigger] round_roots@[i])@ == codeword_root(
            batched_round_code(*pp, *comm, views(evals@), point@, *ch, i as nat),
            (pp.log_evals - i) as nat,
        ) by {
            assert(views(tree_evals@[i]@) == batched_round_code(*pp, *comm, views(evals@), point@, *ch, i as nat));
        }
    }
    BatchedProof { round_roots, final_value, answers }
}

/// An answer has the sizes a query reads.
pub open spec fn batched_answer_shape(pp: BatchedParams, a: BatchedAnswer) -> bool {
    &&& a.cur_path@.len() >= pp.rounds
    &&& a.openings@.len() >= pp.rounds
    &&& a.round_paths@.len() >= pp.rounds
    &&& forall|i: int| 0 <= i < pp.rounds ==> #[trigger] a.round_paths@[i]@.len() >= 1
    &&& a.first_path@.len() >= pp.log_evals
}

/// The proof has a root per round and an answer of the right sizes per
/// query.
pub open spec fn batched_shape(pp: BatchedParams, proof: BatchedProof, ch: BatchedChallenges) -> bool {
    &&& proof.round_roots@.len() >= pp.rounds
    &&& proof.answers@.len() == ch.queries@.len()
    &&& forall|k: int| 0 <= k < proof.answers@.len() ==> batched_answer_shape(pp, #[trigger] proof.answers@[k])
}

/// The outcome of the check of query `k`.
pub open spec fn batched_query_outcome(
    pp: BatchedParams,
    root: [u8; 32],
    evals: Seq<Mersenne61Mont>,
    point: int,
    proof: BatchedProof,
    ch: BatchedChallenges,
    k: int,
) -> Result<(), BatchQueryError> {
    let a = proof.answers@[k];
    batch_query_outcome(
        batched_position(pp, ch, k),
        a.cur_path@,
        a.openings@,
        a.round_paths@,
        a.first_path@,
        root,
        proof.round_roots@,
        pp.layers@,
        evals,
        point,
        ch.lambda@,
        ch.alphas@,
        proof.final_value@,
        pp.log_evals as nat,
        pp.rounds as nat,
    )
}

/// The outcome of the first `m` queries: the first that fails, or none.
#[verifier::opaque]
pub open spec fn batched_queries_outcome(
    pp: BatchedParams,
    root: [u8; 32],
    evals: Seq<Mersenne61Mont>,
    point: int,
    proof: BatchedProof,
    ch: BatchedChallenges,
    m: nat,
) -> Result<(), BatchedError>
    decreases m,
{
    if m == 0 {
        Ok(())
    } else {
        match batched_queries_outcome(pp, root, evals, point, proof, ch, (m - 1) as nat) {
            Err(e) => Err(e),
            Ok(_) => match batched_query_outcome(pp, root, evals, point, proof, ch, m - 1) {
                Ok(_) => Ok(()),
                Err(e) => Err(BatchedError::Query((m - 1) as usize, e)),
            },
        }
    }
}

/// The verifier's verdict on a batched opening: the sizes, then every query
/// in turn.
pub open spec fn batched_outcome(
    pp: BatchedParams,
    root: [u8; 32],
    evals: Seq<Mersenne61Mont>,
    point: int,
    proof: BatchedProof,
    ch: BatchedChallenges,
) -> Result<(), BatchedError> {
    if !batched_shape(pp, proof, ch) {
        Err(BatchedError::Shape)
    } else {
        batched_queries_outcome(pp, root, evals, point, proof, ch, ch.queries@.len())
    }
}

/// Whether the proof has the sizes the parameters and challenges ask for.
fn batched_shape_ok(pp: &BatchedParams, proof: &BatchedProof, ch: &BatchedChallenges) -> (r: bool)
    requires
        pp.wf(),
    ensures
        r == batched_shape(*pp, *proof, *ch),
{
    if proof.round_roots.len() < pp.rounds || proof.answers.len() != ch.queries.len() {
        return false;
    }
    let mut k: usize = 0;
    while k < proof.answers.len()
        invariant
            pp.wf(),
            k <= proof.answers@.len(),
            forall|t: int| 0 <= t < k ==> batched_answer_shape(*pp, #[trigger] proof.answers@[t]),
        decreases proof.answers@.len() - k,
    {
        let a = &proof.answers[k];
        if a.cur_path.len() < pp.rounds || a.openings.len() < pp.rounds || a.round_paths.len() < pp.rounds
            || a.first_path.len() < pp.log_evals {
            return false;
        }
        let mut i: usize = 0;
        while i < pp.rounds
            invariant
                pp.wf(),
                k < proof.answers@.len(),
                a == proof.answers@[k as int],
                a.round_paths@.len() >= pp.rounds,
                i <= pp.rounds,
                forall|t: int| 0 <= t < i ==> #[trigger] a.round_paths@[t]@.len() >= 1,
            decreases pp.rounds - i,
        {
            if a.round_paths[i].len() < 1 {
                return false;
            }
            i = i + 1;
        }
        k = k + 1;
    }
    true
}

/// Verifies a batched opening of the commitment with root `root` at
/// `point` to the values `evals`: checks the proof's sizes, then each query
/// in turn; the first failing check decides the error.
pub fn batched_fri_verify(
    pp: &BatchedParams,
    root: [u8; 32],
    evals: &Vec<Mersenne61Mont>,
    point: Mersenne61Mont,
    proof: &BatchedProof,
    ch: &BatchedChallenges,
) -> (r: Result<(), BatchedError>)
    requires
        pp.wf(),
        evals@.len() == pp.rounds,
        ch.alphas@.len() == pp.rounds,
    ensures
        r == batched_outcome(*pp, root, evals@, point@, *proof, *ch),
{
    if !batched_shape_ok(pp, proof, ch) {
        return Err(BatchedError::Shape);
    }
    let lg = pp.log_evals;
    proof {
        lemma2_to64();
        lemma_pow2_strictly_increases(lg as nat, 31);
        reveal(batched_queries_outcome);
    }
    let p2 = pow2_of(lg);
    let mut k: usize = 0;
    while k < ch.queries.len()
        invariant
            pp.wf(),
            lg == pp.log_evals,
            p2 == pow2(lg as nat),
            evals@.len() == pp.rounds,
            ch.alphas@.len() == pp.rounds,
            batched_shape(*pp, *proof, *ch),
            k <= ch.queries@.len(),
            batched_queries_outcome(*pp, root, evals@, point@, *proof, *ch, k as nat) == Ok::<(), BatchedError>(()),
        decreases ch.queries@.len() - k,
    {
        let checked = batched_check_one(pp, root, evals, point, proof, ch, k, p2);
        match checked {
            Ok(u) => {
                assert(batched_queries_outcome(*pp, root, evals@, point@, *proof, *ch, (k + 1) as nat) == Ok::<
                    (),
                    BatchedError,
                >(u));
            },
            Err(e) => {
                proof {
                    lemma_batched_stay(*pp, root, evals@, point@, *proof, *ch, (k + 1) as nat, ch.queries@.len());
                }
                return Err(e);
            },
        }
        k = k + 1;
    }
    Ok(())
}

/// Once a query fails, the outcome of more queries is that failure.
proof fn lemma_batched_stay(
    pp: BatchedParams,
    root: [u8; 32],
    evals: Seq<Mersenne61Mont>,
    point: int,
    proof: BatchedProof,
    ch: BatchedChallenges,
    k: nat,
    m: nat,
)
    requires
        k <= m,
        batched_queries_outcome(pp, root, evals, point, proof, ch, k) is Err,
    ensures
        batched_queries_outcome(pp, root, evals, point, proof, ch, m) == batched_queries_outcome(
            pp,
            root,
            evals,
            point,
            proof,
            ch,
            k,
        ),
    decreases m - k,
{
    reveal(batched_queries_outcome);
    if k < m {
        lemma_batched_stay(pp, root, evals, point, proof, ch, k, (m - 1) as nat);
    }
}

/// Checks query `k` after the earlier ones passed.
#[verifier::spinoff_prover]
#[verifier::rlimit(40)]
fn batched_check_one(
    pp: &BatchedParams,
    root: [u8; 32],
    evals: &Vec<Mersenne61Mont>,
    point: Mersenne61Mont,
    proof: &BatchedProof,
    ch: &BatchedChallenges,
    k: usize,
    p2: usize,
) -> (r: Result<(), BatchedError>)
    requires
        pp.wf(),
        p2 == pow2(pp.log_evals as nat),
        evals@.len() == pp.rounds,
        ch.alphas@.len() == pp.rounds,
        batched_shape(*pp, *proof, *ch),
        k < ch.queries@.len(),
        batched_queries_outcome(*pp, root, evals@, point@, *proof, *ch, k as nat) == Ok::<(), BatchedError>(()),
    ensures
        r == batched_queries_outcome(*pp, root, evals@, point@, *proof, *ch, (k + 1) as nat),
{
    proof {
        lemma_pow2_pos(pp.log_evals as nat);
        reveal(batched_queries_outcome);
    }
    let q = ch.queries[k] % p2;
    let a = &proof.answers[k];
    assert(batched_answer_shape(*pp, *a));
    let checked = verify_batch_query(
        q,
        &a.cur_path,
        &a.openings,
        &a.round_paths,
        &a.first_path,
        &root,
        &proof.round_roots,
        &pp.layers,
        evals,
        point,
        ch.lambda,
        &ch.alphas,
        proof.final_value,
        pp.log_evals,
        pp.rounds,
    );
    match checked {
        Ok(()) => Ok(()),
        Err(e) => Err(BatchedError::Query(k, e)),
    }
}

/// The root of the commitment's tree.
pub open spec fn batched_root(pp: BatchedParams, comm: BatchedCommitment) -> Seq<u8> {
    tree_view(comm.tree@)[pp.log_evals as int][0]
}

/// The query at position `q` meets no degenerate point: in no round is its
/// point the opening point or its pair's point zero, and the last running
/// codeword is the same at its position as at position 0.
pub open spec fn batched_query_regular(
    pp: BatchedParams,
    comm: BatchedCommitment,
    evals: Seq<int>,
    point: int,
    ch: BatchedChallenges,
    q: int,
) -> bool {
    let last = prover_running(
        query_views(comm.codewords@),
        evals,
        point,
        ch.lambda@,
        views(ch.alphas@),
        pp.layers@,
        pp.log_evals as nat,
        pp.rounds as nat,
    );
    &&& forall|k: int|
        0 <= k < pp.rounds ==> {
            let qk = round_pos(q, k as nat);
            &&& views((#[trigger] pp.layers@[k])@)[qk] != point
            &&& views(pp.layers@[k]@)[qk - qk % 2] != 0
        }
    &&& last[round_pos(q, pp.rounds as nat)] == last[0]
}

/// The first `j` rounds of the check of an honest, regular answer pass.
#[verifier::spinoff_prover]
#[verifier::rlimit(60)]
proof fn lemma_batched_chain_ok(
    pp: BatchedParams,
    comm: BatchedCommitment,
    evals: Seq<Mersenne61Mont>,
    point: int,
    ch: BatchedChallenges,
    r: BatchedProof,
    q: int,
    a: BatchedAnswer,
    j: nat,
)
    requires
        pp.wf(),
        batched_committed(pp, comm),
        evals.len() == pp.rounds,
        ch.alphas@.len() == pp.rounds,
        0 <= q < pow2(pp.log_evals as nat),
        batched_honest_proof(pp, comm, views(evals), point, ch, r),
        batched_honest_answer(pp, comm, views(evals), point, ch, q, a),
        batched_query_regular(pp, comm, views(evals), point, ch, q),
        j <= pp.rounds,
    ensures
        batch_query_chain(
            q,
            views(a.cur_path@),
            views(a.openings@),
            a.round_paths@,
            r.round_roots@,
            pp.layers@,
            views(evals),
            point,
            ch.lambda@,
            views(ch.alphas@),
            j,
        ) is Ok,
    decreases j,
{
    let lg = pp.log_evals as nat;
    let ps = query_views(comm.codewords@);
    let ev = views(evals);
    let al = views(ch.alphas@);
    let cur = views(a.cur_path@);
    let ops = views(a.openings@);
    if j > 0 {
        let k = (j - 1) as nat;
        lemma_batched_chain_ok(pp, comm, evals, point, ch, r, q, a, k);
        assert forall|t: int| 0 <= t < k implies #[trigger] pp.layers@[t]@.len() == pow2((lg - t) as nat) by {}
        assert forall|t: int| 0 <= t < k implies #[trigger] ps[t].len() == pow2((lg - t) as nat) by {
            assert(ps[t] == views(comm.codewords@[t]@));
        }
        assert(batch_honest(q, cur, ops, ps, ev, point, ch.lambda@, al, pp.layers@, lg, k)) by {
            assert forall|t: int| 0 <= t < k implies {
                let qt = round_pos(q, t as nat);
                &&& #[trigger] ops[t] == ps[t][qt]
                &&& cur[t] == prover_round_code(ps, ev, point, ch.lambda@, al, pp.layers@, lg, t as nat)[if qt % 2
                    == 0 {
                    qt + 1
                } else {
                    qt - 1
                }]
            } by {
                assert(a.openings@[t]@ == views(comm.codewords@[t]@)[round_pos(q, t as nat)]);
            }
        }
        lemma_batch_query_tracks_prover(
            q,
            cur,
            ops,
            a.round_paths@,
            r.round_roots@,
            pp.layers@,
            ps,
            ev,
            point,
            ch.lambda@,
            al,
            lg,
            k,
        );
        let qk = round_pos(q, k);
        let layer = views(pp.layers@[k as int]@);
        let code = batched_round_code(pp, comm, ev, point, ch, k);
        let running = prover_running(ps, ev, point, ch.lambda@, al, pp.layers@, lg, k);
        let p = layer[qk];
        assert(p != point && layer[qk - qk % 2] != 0);
        crate::zeromorph_fri_v4_pcs::lemma_div_pow2_below(q, lg, k);
        lemma_running_len(pp, ps, ev, point, ch.lambda@, al, k);
        assert(a.openings@[k as int]@ == views(comm.codewords@[k as int]@)[qk]);
        let acc = fadd(
            running[qk],
            fmul(fadd(1, fmul(ch.lambda@, p)), fmul(fsub(ops[k as int], ev[k as int]), finv(fsub(p, point)))),
        );
        lemma_fmul_comm(fadd(1, fmul(ch.lambda@, p)), fmul(fsub(ops[k as int], ev[k as int]), finv(fsub(p, point))));
        assert(acc == code[qk]);
        let m = (lg - k) as nat;
        assert(code.len() == pow2(m));
        lemma_path_in_root(code, m, qk, a.round_paths@[k as int]@);
        assert(r.round_roots@[k as int]@ == codeword_root(code, m));
    }
}

/// Completeness of batched FRI on regular queries: the verifier accepts
/// the honest opening when no query meets a degenerate point.
pub proof fn lemma_batched_honest_accepted(
    pp: BatchedParams,
    comm: BatchedCommitment,
    evals: Seq<Mersenne61Mont>,
    point: int,
    ch: BatchedChallenges,
    r: BatchedProof,
    root: [u8; 32],
)
    requires
        pp.wf(),
        batched_committed(pp, comm),
        evals.len() == pp.rounds,
        ch.alphas@.len() == pp.rounds,
        root@ == batched_root(pp, comm),
        batched_honest_proof(pp, comm, views(evals), point, ch, r),
        forall|k: int|
            0 <= k < ch.queries@.len() ==> #[trigger] batched_query_regular(
                pp,
                comm,
                views(evals),
                point,
                ch,
                batched_position(pp, ch, k),
            ),
    ensures
        batched_outcome(pp, root, evals, point, r, ch) == Ok::<(), BatchedError>(()),
{
    lemma2_to64();
    assert forall|k: int| 0 <= k < r.answers@.len() implies batched_answer_shape(pp, #[trigger] r.answers@[k]) by {
        let q = batched_position(pp, ch, k);
        let a = r.answers@[k];
        lemma_pow2_pos(pp.log_evals as nat);
        assert(batched_honest_answer(pp, comm, views(evals), point, ch, q, a));
        assert forall|i: int| 0 <= i < pp.rounds implies #[trigger] a.round_paths@[i]@.len() >= 1 by {
            let code = batched_round_code(pp, comm, views(evals), point, ch, i as nat);
            let m = (pp.log_evals - i) as nat;
            lemma_running_len(
                pp,
                query_views(comm.codewords@),
                views(evals),
                point,
                ch.lambda@,
                views(ch.alphas@),
                i as nat,
            );
            crate::zeromorph_fri_v4_pcs::lemma_div_pow2_below(q, pp.log_evals as nat, i as nat);
            assert(a.openings@[i]@ == views(comm.codewords@[i]@)[round_pos(q, i as nat)]);
            lemma_path_in_root(code, m, round_pos(q, i as nat), a.round_paths@[i]@);
        }
        assert(dseq(a.first_path@).len() == a.first_path@.len());
    }
    lemma_batched_queries_pass(pp, comm, evals, point, ch, r, root, ch.queries@.len());
}

/// The first `m` queries of the honest opening pass.
proof fn lemma_batched_queries_pass(
    pp: BatchedParams,
    comm: BatchedCommitment,
    evals: Seq<Mersenne61Mont>,
    point: int,
    ch: BatchedChallenges,
    r: BatchedProof,
    root: [u8; 32],
    m: nat,
)
    requires
        pp.wf(),
        batched_committed(pp, comm),
        evals.len() == pp.rounds,
        ch.alphas@.len() == pp.rounds,
        root@ == batched_root(pp, comm),
        batched_honest_proof(pp, comm, views(evals), point, ch, r),
        forall|k: int|
            0 <= k < ch.queries@.len() ==> #[trigger] batched_query_regular(
                pp,
                comm,
                views(evals),
                point,
                ch,
                batched_position(pp, ch, k),
            ),
        m <= ch.queries@.len(),
    ensures
        batched_queries_outcome(pp, root, evals, point, r, ch, m) == Ok::<(), BatchedError>(()),
    decreases m,
{
    reveal(batched_queries_outcome);
    if m > 0 {
        lemma_batched_queries_pass(pp, comm, evals, point, ch, r, root, (m - 1) as nat);
        lemma_batched_query_passes(pp, comm, evals, point, ch, r, root, m - 1);
    }
}

/// Query `k` of the honest opening passes when it is regular.
#[verifier::spinoff_prover]
#[verifier::rlimit(40)]
proof fn lemma_batched_query_passes(
    pp: BatchedParams,
    comm: BatchedCommitment,
    evals: Seq<Mersenne61Mont>,
    point: int,
    ch: BatchedChallenges,
    r: BatchedProof,
    root: [u8; 32],
    k: int,
)
    requires
        pp.wf(),
        batched_committed(pp, comm),
        evals.len() == pp.rounds,
        ch.alphas@.len() == pp.rounds,
        root@ == batched_root(pp, comm),
        batched_honest_proof(pp, comm, views(evals), point, ch, r),
        0 <= k < ch.queries@.len(),
        batched_query_regular(pp, comm, views(evals), point, ch, batched_position(pp, ch, k)),
    ensures
        batched_query_outcome(pp, root, evals, point, r, ch, k) == Ok::<(), BatchQueryError>(()),
{
    let lg = pp.log_evals as nat;
    let q = batched_position(pp, ch, k);
    let a = r.answers@[k];
    let ps = query_views(comm.codewords@);
    let ev = views(evals);
    let al = views(ch.alphas@);
    lemma2_to64();
    lemma_pow2_pos(lg);
    assert(batched_honest_answer(pp, comm, ev, point, ch, q, a));
    // the openings authenticate up to the commitment's root
    assert(crate::mmcs::consecutive_heights(comm.codewords@, lg));
    lemma_mmcs_path_complete(comm.codewords@, lg, q);
    assert(views(a.openings@) =~= crate::mmcs::mmcs_openings(comm.codewords@, q)) by {
        assert forall|t: int| 0 <= t < pp.rounds implies #[trigger] views(a.openings@)[t]
            == crate::mmcs::mmcs_openings(comm.codewords@, q)[t] by {
            assert(a.openings@[t]@ == views(comm.codewords@[t]@)[round_pos(q, t as nat)]);
        }
    }
    // every round passes, and the last value is the final one
    lemma_batched_chain_ok(pp, comm, evals, point, ch, r, q, a, pp.rounds as nat);
    assert forall|t: int| 0 <= t < pp.rounds implies #[trigger] ps[t].len() == pow2((lg - t) as nat) by {
        assert(ps[t] == views(comm.codewords@[t]@));
    }
    assert(batch_honest(q, views(a.cur_path@), views(a.openings@), ps, ev, point, ch.lambda@, al, pp.layers@, lg, pp.rounds as nat)) by {
        assert forall|t: int| 0 <= t < pp.rounds implies {
            let qt = round_pos(q, t as nat);
            &&& #[trigger] views(a.openings@)[t] == ps[t][qt]
            &&& views(a.cur_path@)[t] == prover_round_code(ps, ev, point, ch.lambda@, al, pp.layers@, lg, t as nat)[if qt % 2
                == 0 {
                qt + 1
            } else {
                qt - 1
            }]
        } by {
            assert(a.openings@[t]@ == views(comm.codewords@[t]@)[round_pos(q, t as nat)]);
        }
    }
    lemma_batch_query_tracks_prover(
        q,
        views(a.cur_path@),
        views(a.openings@),
        a.round_paths@,
        r.round_roots@,
        pp.layers@,
        ps,
        ev,
        point,
        ch.lambda@,
        al,
        lg,
        pp.rounds as nat,
    );
}

/// When the first `m` queries pass, each of them passes its own check.
proof fn lemma_batched_each_query_passes(
    pp: BatchedParams,
    root: [u8; 32],
    evals: Seq<Mersenne61Mont>,
    point: int,
    proof: BatchedProof,
    ch: BatchedChallenges,
    m: nat,
)
    requires
        batched_queries_outcome(pp, root, evals, point, proof, ch, m) is Ok,
    ensures
        forall|k: int| 0 <= k < m ==> #[trigger] batched_query_outcome(pp, root, evals, point, proof, ch, k) is Ok,
    decreases m,
{
    reveal(batched_queries_outcome);
    if m > 0 {
        lemma_batched_each_query_passes(pp, root, evals, point, proof, ch, (m - 1) as nat);
    }
}

/// Soundness of the batched verifier's Merkle checks: when it accepts, every
/// query's openings climb to the commitment's root, and in every round of
/// every query (not only the first) the round's path authenticates, against
/// the round's root, the answer's sibling entry paired with a value at the
/// query's position.
pub proof fn lemma_batched_accepted_authenticates(
    pp: BatchedParams,
    root: [u8; 32],
    evals: Seq<Mersenne61Mont>,
    point: int,
    proof: BatchedProof,
    ch: BatchedChallenges,
)
    requires
        batched_outcome(pp, root, evals, point, proof, ch) is Ok,
    ensures
        forall|k: int|
            0 <= k < ch.queries@.len() ==> {
                let a = #[trigger] proof.answers@[k];
                let q = batched_position(pp, ch, k);
                &&& crate::mmcs::mmcs_climb(dseq(a.first_path@), views(a.openings@), q, pp.log_evals as nat) == root@
                &&& forall|i: int|
                    0 <= i < pp.rounds ==> #[trigger] round_authenticated(
                        a.round_paths@,
                        proof.round_roots@,
                        views(a.cur_path@),
                        q,
                        i,
                    )
            },
{
    lemma_batched_each_query_passes(pp, root, evals, point, proof, ch, ch.queries@.len());
    assert forall|k: int| 0 <= k < ch.queries@.len() implies {
        let a = #[trigger] proof.answers@[k];
        let q = batched_position(pp, ch, k);
        &&& crate::mmcs::mmcs_climb(dseq(a.first_path@), views(a.openings@), q, pp.log_evals as nat) == root@
        &&& forall|i: int|
            0 <= i < pp.rounds ==> #[trigger] round_authenticated(a.round_paths@, proof.round_roots@, views(a.cur_path@), q, i)
    } by {
        assert(batched_query_outcome(pp, root, evals, point, proof, ch, k) is Ok);
        let a = proof.answers@[k];
        lemma_batch_query_authenticates_every_round(
            batched_position(pp, ch, k),
            a.cur_path@,
            a.openings@,
            a.round_paths@,
            a.first_path@,
            root,
            proof.round_roots@,
            pp.layers@,
            evals,
            point,
            ch.lambda@,
            ch.alphas@,
            proof.final_value@,
            pp.log_evals as nat,
            pp.rounds as nat,
        );
    }
}

} // verus!
