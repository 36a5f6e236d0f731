//! The folding-based Zeromorph scheme as a whole: the commitment to a
//! codeword, the opening at a point and its verification. The verifier's
//! challenges (what the transcript squeezes) are handed in by the caller, so
//! both sides are functions of their inputs and of the challenges.
use crate::basefold::query_views;
use crate::coset::poly_eval;
use crate::hash::{spec_hash_element, spec_hash_pair};
use crate::merkle::{
    dseq, lemma_merkle_path_complete, level_index, merkelize, merkle_tree_of, pair_hi, pair_lo, pairs_view,
    path_chain_ok, path_in_bounds, path_pairs, path_root_ok, path_stop, tree_view,
};
use crate::merkle_tree::lemma_log2_of;
use crate::mersenne_61_mont::{fadd, fmul, fpow, views, Mersenne61Mont};
use crate::mmcs::{
    consecutive_heights, hashed_values, heights_ok, lemma_mmcs_path_complete, lemma_mmcs_state_shape,
    merkelize_mmcs, mmcs_climb, mmcs_openings, mmcs_path, mmcs_path_in_bounds, mmcs_tree,
};
use crate::p3_fri::{
    fri_tables_of, lemma_fpow_fpow, lemma_rev_bits_bound, level_base, level_len, rev_bits, root_level,
};
use crate::util::pow2_of;
use crate::zeromorph_fri_v4::{
    batched_code, batched_degree_code, batched_degree_codeword, batched_xi_value, copy_vec, degree_quotient_codeword,
    degree_quotient_seq, degree_residue, expected_zero, fold, fold_query_answer, fold_query_outcome,
    fold_query_shape, fold_with_quotient, levels_ok, prover_fold, prover_round_codeword, quotient_chain,
    even_at, fold_seq, odd_at, quotient_coef_seq, quotient_seq, remainder_code, remainder_coef, verify_fold_query, xi_openings,
    FoldQueryContext, FoldQueryError, FoldQueryProof, fold_chain, fold_pair, lemma_fold_chain_tracks_prover,
    point_power, side_quotient, neighbors_authenticated, lemma_fold_query_accepted_authenticates,
};
use vstd::arithmetic::power2::{lemma2_to64, lemma_pow2_pos, lemma_pow2_strictly_increases, lemma_pow2_unfold, pow2};
use vstd::prelude::*;

verus! {

/// The parameters of the scheme: the number of variables, the logarithm of
/// the code's blow-up, and the table of domain points and weights (level `j`
/// holds `2^j` entries).
pub struct ZmV4Params {
    pub num_vars: usize,
    pub log_rate: usize,
    pub table: Vec<Vec<(Mersenne61Mont, Mersenne61Mont)>>,
}

impl ZmV4Params {
    /// Parameters the scheme runs with: at least two variables, a blow-up of
    /// at least two, and every level the rounds read.
    pub open spec fn wf(&self) -> bool {
        &&& 2 <= self.num_vars
        &&& 1 <= self.log_rate
        &&& self.num_vars + self.log_rate <= 30
        &&& levels_ok(self.table@, self.log_rate as int, (self.num_vars + self.log_rate) as int)
    }

    /// The logarithm of the codeword's length.
    pub open spec fn log_len(&self) -> nat {
        (self.num_vars + self.log_rate) as nat
    }
}

/// A commitment: the codeword and its Merkle tree.
pub struct ZmV4Commitment {
    pub codeword: Vec<Mersenne61Mont>,
    pub tree: Vec<Vec<[u8; 32]>>,
}

/// The commitment holds a codeword of the parameters' length and its tree.
pub open spec fn committed(pp: ZmV4Params, comm: ZmV4Commitment) -> bool {
    &&& comm.codeword@.len() == pow2(pp.log_len())
    &&& tree_view(comm.tree@) == merkle_tree_of(views(comm.codeword@), pp.log_len())
}

/// The root of the Merkle tree of a codeword of length `2^lg`.
pub open spec fn codeword_root(code: Seq<int>, lg: nat) -> Seq<u8> {
    merkle_tree_of(code, lg)[lg - 1][0]
}

/// The verifier's challenges: the batching challenge `alpha`, the point
/// `xi` of the degree check, the padding challenges, the degree correction
/// `lambda`, one folding challenge per round and the queried positions.
pub struct ZmV4Challenges {
    pub alpha: Mersenne61Mont,
    pub xi: Mersenne61Mont,
    pub padding_lambdas: Vec<Mersenne61Mont>,
    pub lambda: Mersenne61Mont,
    pub betas: Vec<Mersenne61Mont>,
    pub queries: Vec<usize>,
}

impl ZmV4Challenges {
    /// As many padding challenges as quotients and folding challenges as
    /// variables.
    pub open spec fn fits(&self, num_vars: nat) -> bool {
        &&& self.padding_lambdas@.len() == num_vars - 1
        &&& self.betas@.len() == num_vars
    }
}

/// What the prover sends: the last quotient's value, the root of the
/// quotients' tree, the openings at `xi`, the root of each round's
/// codeword, the last fold, and the answer to every query.
pub struct ZmV4Proof {
    pub quotient_last: Mersenne61Mont,
    pub quotient_root: [u8; 32],
    pub xi_openings: Vec<Mersenne61Mont>,
    pub round_roots: Vec<[u8; 32]>,
    pub folded_last: Mersenne61Mont,
    pub query_proofs: Vec<FoldQueryProof>,
}

/// Why the verifier rejects an opening.
#[derive(Clone, Copy, Debug, PartialEq, Eq, Structural)]
pub enum ZmV4Error {
    /// The proof does not have the sizes the parameters ask for.
    Shape,
    /// Query `k` fails its check.
    Query(usize, FoldQueryError),
    /// The degree identity at `xi` does not vanish.
    DegreeCheck,
}

/// The quotient codewords of the opening: the first `n - 1` divisions of
/// the codeword by the point's coordinates.
pub open spec fn honest_codes(pp: ZmV4Params, code: Seq<int>, point: Seq<int>) -> Seq<Seq<int>> {
    let top = (pp.num_vars + pp.log_rate - 1) as int;
    Seq::new(
        (pp.num_vars - 1) as nat,
        |i: int| quotient_seq(remainder_code(code, point, pp.table@, top, i as nat), pp.table@[top - i]@),
    )
}

/// The last quotient codeword.
pub open spec fn honest_last(pp: ZmV4Params, code: Seq<int>, point: Seq<int>) -> Seq<int> {
    let top = (pp.num_vars + pp.log_rate - 1) as int;
    quotient_seq(remainder_code(code, point, pp.table@, top, (pp.num_vars - 1) as nat), pp.table@[pp.log_rate as int]@)
}

/// The openings at `xi`: the coefficients at `xi`, then quotient `i` at
/// `xi^(2^(i+1))`.
pub open spec fn honest_openings(n: nat, coef: Seq<int>, point: Seq<int>, xi: int) -> Seq<int> {
    Seq::new(
        n,
        |i: int|
            if i == 0 {
                poly_eval(coef, xi)
            } else {
                poly_eval(quotient_coef_seq(remainder_coef(coef, point, (i - 1) as nat)), fpow(xi, pow2(i as nat)))
            },
    )
}

/// The degree-check quotient codeword that the folding starts from.
pub open spec fn honest_start(
    pp: ZmV4Params,
    code: Seq<int>,
    coef: Seq<int>,
    point: Seq<int>,
    ch: ZmV4Challenges,
) -> Seq<int> {
    let n = pp.num_vars as nat;
    let lambdas = views(ch.padding_lambdas@);
    degree_quotient_seq(
        batched_degree_code(
            honest_codes(pp, code, point),
            code,
            ch.alpha@,
            lambdas,
            pp.table@,
            n as int,
            pp.log_rate as int,
        ),
        batched_xi_value(honest_openings(n, coef, point, ch.xi@), ch.alpha@, lambdas, ch.xi@, (n - 1) as nat),
        ch.lambda@,
        ch.xi@,
        pp.table@[pp.log_len() - 1]@,
    )
}

/// The digests of the entries of every codeword.
pub open spec fn hashed_codes(codes: Seq<Seq<int>>) -> Seq<Seq<Seq<u8>>> {
    codes.map_values(|v: Seq<int>| v.map_values(|x: int| spec_hash_element(x)))
}

/// The tree over the quotient codewords, one per layer below the top.
pub open spec fn quotient_tree_of(codes: Seq<Seq<int>>, log_v: nat) -> Seq<Seq<Seq<u8>>> {
    mmcs_tree(hashed_codes(codes), log_v)
}

/// `path` is the path from position `x` in the tree `t`.
pub open spec fn path_in(t: Seq<Seq<Seq<u8>>>, x: int, path: Seq<([u8; 32], [u8; 32])>) -> bool {
    exists|k: int| #![trigger path_stop(t, k)] path_stop(t, k) && pairs_view(path) == path_pairs(t, x, k)
}

/// The position that query `k` reads.
pub open spec fn query_position(ch: ZmV4Challenges, lg: nat, k: int) -> int {
    ch.queries@[k] as int % pow2(lg) as int
}

/// The honest answer to query position `q`: the committed codeword's pair
/// and path, the quotients' path, and per round the quotient at the query
/// and the round codeword's pair around it with its path.
pub open spec fn honest_answer(
    pp: ZmV4Params,
    code: Seq<int>,
    codes: Seq<Seq<int>>,
    start: Seq<int>,
    betas: Seq<int>,
    q: int,
    a: FoldQueryProof,
) -> bool {
    let n = pp.num_vars as int;
    let lg = pp.log_len() as int;
    &&& a.codeword_pair.0@ == code[q / 2 * 2]
    &&& a.codeword_pair.1@ == code[q / 2 * 2 + 1]
    &&& path_in(merkle_tree_of(code, lg as nat), q, a.codeword_path@)
    &&& dseq(a.quotient_path@) == mmcs_path(quotient_tree_of(codes, (lg - 1) as nat), q / 2, (lg - 1) as nat)
    &&& mmcs_climb(dseq(a.quotient_path@), views(a.quotients@), q / 2, (lg - 1) as nat) == quotient_tree_of(
        codes,
        (lg - 1) as nat,
    )[lg - 1][0]
    &&& a.quotients@.len() == n - 1
    &&& a.neighbors@.len() == n - 1
    &&& a.neighbor_paths@.len() == n - 1
    &&& forall|i: int|
        0 <= i < n - 1 ==> {
            let r = prover_round_codeword(start, betas, codes, pp.table@, lg, i as nat);
            let h = q / pow2((i + 2) as nat) as int;
            &&& #[trigger] a.quotients@[i]@ == codes[i][q / pow2((i + 1) as nat) as int]
            &&& a.neighbors@[i].0@ == r[2 * h]
            &&& a.neighbors@[i].1@ == r[2 * h + 1]
            &&& path_in(merkle_tree_of(r, (lg - 1 - i) as nat), 2 * h, a.neighbor_paths@[i]@)
        }
}

/// The honest opening of the committed codeword `code` (with coefficients
/// `coef`) at `point` under the challenges `ch`.
pub open spec fn honest_proof(
    pp: ZmV4Params,
    code: Seq<int>,
    coef: Seq<int>,
    point: Seq<int>,
    ch: ZmV4Challenges,
    r: ZmV4Proof,
) -> bool {
    let n = pp.num_vars as int;
    let lg = pp.log_len() as int;
    let codes = honest_codes(pp, code, point);
    let start = honest_start(pp, code, coef, point, ch);
    let betas = views(ch.betas@);
    &&& r.quotient_last@ == honest_last(pp, code, point)[0]
    &&& r.quotient_root@ == quotient_tree_of(codes, (lg - 1) as nat)[lg - 1][0]
    &&& views(r.xi_openings@) == honest_openings(n as nat, coef, point, ch.xi@)
    &&& r.round_roots@.len() == n - 1
    &&& forall|i: int|
        0 <= i < n - 1 ==> (#[trigger] r.round_roots@[i])@ == codeword_root(
            prover_round_codeword(start, betas, codes, pp.table@, lg, i as nat),
            (lg - 1 - i) as nat,
        )
    &&& r.folded_last@ == prover_fold(start, betas, codes, pp.table@, lg, (n - 1) as nat)[0]
    &&& r.query_proofs@.len() == ch.queries@.len()
    &&& forall|k: int|
        0 <= k < ch.queries@.len() ==> honest_answer(
            pp,
            code,
            codes,
            start,
            betas,
            query_position(ch, lg as nat, k),
            #[trigger] r.query_proofs@[k],
        )
}

/// `q / 2^j < 2^(lg - j)` for `q < 2^lg`.
pub(crate) proof fn lemma_div_pow2_below(q: int, lg: nat, j: nat)
    requires
        0 <= q < pow2(lg),
        j <= lg,
    ensures
        0 <= (q / pow2(j) as int),
        (q / pow2(j) as int) < pow2((lg - j) as nat),
{
    lemma_pow2_pos(j);
    vstd::arithmetic::power2::lemma_pow2_adds(j, (lg - j) as nat);
    vstd::arithmetic::div_mod::lemma_div_pos_is_pos(q, pow2(j) as int);
    vstd::arithmetic::mul::lemma_mul_is_commutative(pow2(j) as int, pow2((lg - j) as nat) as int);
    vstd::arithmetic::div_mod::lemma_multiply_divide_lt(q, pow2(j) as int, pow2((lg - j) as nat) as int);
}

/// `(q / 2) / 2^j == q / 2^(j + 1)`.
proof fn lemma_half_div(q: int, j: nat)
    requires
        q >= 0,
    ensures
        (q / 2) / (pow2(j) as int) == q / (pow2(j + 1) as int),
{
    lemma_pow2_pos(j);
    lemma_pow2_unfold(j + 1);
    vstd::arithmetic::div_mod::lemma_div_denominator(q, 2, pow2(j) as int);
}

/// The honest quotient codeword `i` has `2^(lg - 1 - i)` entries.
proof fn lemma_codes_len(pp: ZmV4Params, code: Seq<int>, point: Seq<int>, i: int)
    requires
        pp.wf(),
        0 <= i < pp.num_vars - 1,
    ensures
        honest_codes(pp, code, point)[i].len() == pow2((pp.log_len() - 1 - i) as nat),
{
    let top = (pp.num_vars + pp.log_rate - 1) as int;
    assert(pp.table@[top - i]@.len() == pow2((top - i) as nat));
}

/// Commits to a codeword of the parameters' length: the codeword and its
/// Merkle tree.
pub fn zeromorph_fri_v4_commit(pp: &ZmV4Params, codeword: Vec<Mersenne61Mont>) -> (r: ZmV4Commitment)
    requires
        pp.wf(),
        codeword@.len() == pow2(pp.log_len()),
    ensures
        r.codeword@ == codeword@,
        committed(*pp, r),
{
    let tree = merkelize(&codeword);
    ZmV4Commitment { codeword, tree }
}

/// The root of a commitment.
pub fn commitment_root(pp: &ZmV4Params, comm: &ZmV4Commitment) -> (r: [u8; 32])
    requires
        pp.wf(),
        committed(*pp, *comm),
    ensures
        r@ == codeword_root(views(comm.codeword@), pp.log_len()),
{
    let lg = pp.num_vars + pp.log_rate;
    proof {
        lemma_pow2_pos(lg as nat);
        lemma_merkle_path_complete(views(comm.codeword@), lg as nat, 0);
        lemma2_to64();
        lemma_pow2_strictly_increases(0, lg as nat);
    }
    comm.tree[lg - 1][0]
}

/// The batched codeword after `i` expansions has `2^(log_rate + 1 + i)`
/// entries.
proof fn lemma_batched_code_len(
    codes: Seq<Seq<int>>,
    alpha: int,
    lambdas: Seq<int>,
    table: Seq<Vec<(Mersenne61Mont, Mersenne61Mont)>>,
    n: int,
    lr: int,
    i: nat,
)
    requires
        n >= 2,
        lr >= 0,
        i <= n - 2,
        codes[n - 2].len() == pow2((lr + 1) as nat),
    ensures
        batched_code(codes, alpha, lambdas, table, n, lr, i).len() == pow2((lr + 1 + i) as nat),
    decreases i,
{
    if i > 0 {
        lemma_batched_code_len(codes, alpha, lambdas, table, n, lr, (i - 1) as nat);
        lemma_pow2_unfold((lr + 1 + i) as nat);
    }
}

/// The honest prover's round codewords and their trees, for the first `m`
/// rounds.
spec fn rounds_ok(
    pp: ZmV4Params,
    codes: Seq<Seq<int>>,
    start: Seq<int>,
    betas: Seq<int>,
    tree_evals: Seq<Vec<Mersenne61Mont>>,
    trees: Seq<Vec<Vec<[u8; 32]>>>,
    m: int,
) -> bool {
    let lg = pp.log_len() as int;
    &&& tree_evals.len() == m
    &&& trees.len() == m
    &&& forall|t: int|
        0 <= t < m ==> {
            let rt = prover_round_codeword(start, betas, codes, pp.table@, lg, t as nat);
            &&& views(#[trigger] tree_evals[t]@) == rt
            &&& tree_evals[t]@.len() == pow2((lg - 1 - t) as nat)
            &&& tree_view(trees[t]@) == merkle_tree_of(rt, (lg - 1 - t) as nat)
        }
}

/// The exact digests of the quotient codewords are those of their views.
proof fn lemma_hashed_codes(codes: Seq<Vec<Mersenne61Mont>>)
    ensures
        hashed_values(codes) == hashed_codes(query_views(codes)),
{
    assert forall|k: int| 0 <= k < codes.len() implies #[trigger] hashed_values(codes)[k] == hashed_codes(
        query_views(codes),
    )[k] by {
        assert(hashed_values(codes)[k] =~= hashed_codes(query_views(codes))[k]);
    }
    assert(hashed_values(codes) =~= hashed_codes(query_views(codes)));
}

/// The honest answer to the query at position `q`.
fn answer_query(
    pp: &ZmV4Params,
    comm: &ZmV4Commitment,
    q: usize,
    quotient_tree: &Vec<Vec<[u8; 32]>>,
    codes: &Vec<Vec<Mersenne61Mont>>,
    tree_evals: &Vec<Vec<Mersenne61Mont>>,
    trees: &Vec<Vec<Vec<[u8; 32]>>>,
    Ghost(start): Ghost<Seq<int>>,
    Ghost(betas): Ghost<Seq<int>>,
) -> (a: FoldQueryProof)
    requires
        pp.wf(),
        committed(*pp, *comm),
        q < pow2(pp.log_len()),
        codes@.len() == pp.num_vars - 1,
        forall|t: int| 0 <= t < pp.num_vars - 1 ==> #[trigger] codes@[t]@.len() == pow2((pp.log_len() - 1 - t) as nat),
        tree_view(quotient_tree@) == quotient_tree_of(query_views(codes@), (pp.log_len() - 1) as nat),
        rounds_ok(*pp, query_views(codes@), start, betas, tree_evals@, trees@, pp.num_vars - 1),
    ensures
        honest_answer(*pp, views(comm.codeword@), query_views(codes@), start, betas, q as int, a),
{
    let n = pp.num_vars;
    let ghost lg = pp.log_len();
    let ghost code = views(comm.codeword@);
    let ghost hc = query_views(codes@);
    proof {
        lemma2_to64();
        lemma_pow2_unfold(lg);
        lemma_div_pow2_below(q as int, lg, 1);
        assert(q as int / 2 * 2 + 1 < pow2(lg));
        lemma_merkle_path_complete(code, lg, q as int);
        lemma_hashed_codes(codes@);
        assert(consecutive_heights(codes@, (lg - 1) as nat));
        lemma_mmcs_path_complete(codes@, (lg - 1) as nat, q as int / 2);
        assert forall|i: int| 0 <= i < n - 1 implies (q as int / pow2((i + 1) as nat) as int) < #[trigger] codes@[
            i
        ]@.len() by {
            lemma_div_pow2_below(q as int, lg, (i + 1) as nat);
        }
        assert forall|i: int|
            0 <= i < n - 1 implies 2 * (q as int / pow2((i + 2) as nat) as int) + 1 < #[trigger] tree_evals@[
                i
            ]@.len() by {
            lemma_div_pow2_below(q as int, lg, (i + 2) as nat);
            lemma_pow2_unfold((lg - 1 - i) as nat);
        }
        assert forall|i: int|
            0 <= i < n - 1 implies path_in_bounds(
                tree_view(#[trigger] trees@[i]@),
                2 * (q as int / pow2((i + 2) as nat) as int),
            ) by {
            lemma_div_pow2_below(q as int, lg, (i + 2) as nat);
            lemma_pow2_unfold((lg - 1 - i) as nat);
            assert(tree_evals@[i]@.len() == pow2((lg - 1 - i) as nat));
            lemma_merkle_path_complete(
                views(tree_evals@[i]@),
                (lg - 1 - i) as nat,
                2 * (q as int / pow2((i + 2) as nat) as int),
            );
        }
    }
    let a = fold_query_answer(q, &comm.codeword, &comm.tree, quotient_tree, codes, tree_evals, trees, n);
    proof {
        assert(views(a.quotients@) =~= mmcs_openings(codes@, q as int / 2)) by {
            assert forall|k: int| 0 <= k < n - 1 implies #[trigger] views(a.quotients@)[k] == mmcs_openings(
                codes@,
                q as int / 2,
            )[k] by {
                lemma_half_div(q as int, k as nat);
                assert(a.quotients@[k] == codes@[k]@[q as int / pow2((k + 1) as nat) as int]);
            }
        }
        assert forall|i: int| 0 <= i < n - 1 implies {
            let r = prover_round_codeword(start, betas, hc, pp.table@, lg as int, i as nat);
            let h = q as int / pow2((i + 2) as nat) as int;
            &&& #[trigger] a.quotients@[i]@ == hc[i][q as int / pow2((i + 1) as nat) as int]
            &&& a.neighbors@[i].0@ == r[2 * h]
            &&& a.neighbors@[i].1@ == r[2 * h + 1]
            &&& path_in(merkle_tree_of(r, (lg - 1 - i) as nat), 2 * h, a.neighbor_paths@[i]@)
        } by {
            let h = q as int / pow2((i + 2) as nat) as int;
            assert(a.quotients@[i] == codes@[i]@[q as int / pow2((i + 1) as nat) as int]);
            assert(a.neighbors@[i] == (tree_evals@[i]@[2 * h], tree_evals@[i]@[2 * h + 1]));
            assert(views(tree_evals@[i]@) == prover_round_codeword(start, betas, hc, pp.table@, lg as int, i as nat));
            assert(crate::zeromorph_fri_v4::tree_path(trees@[i]@, 2 * h, a.neighbor_paths@[i]@));
        }
        assert(crate::zeromorph_fri_v4::tree_path(comm.tree@, q as int, a.codeword_path@));
    }
    a
}

/// Quotient codewords of lengths `2^(lg - 1 - t)`: a tree over them has
/// `lg` layers, the top one of a single digest.
proof fn lemma_codes_heights(codes: Seq<Vec<Mersenne61Mont>>, lg: nat)
    requires
        2 <= codes.len() + 1 <= lg,
        lg <= 31,
        forall|t: int| 0 <= t < codes.len() ==> #[trigger] codes[t]@.len() == pow2((lg - 1 - t) as nat),
    ensures
        heights_ok(codes),
        consecutive_heights(codes, (lg - 1) as nat),
        crate::mmcs::log2_of_len(codes[0]@.len()) == lg - 1,
        mmcs_tree(hashed_values(codes), (lg - 1) as nat).len() == lg,
        mmcs_tree(hashed_values(codes), (lg - 1) as nat)[lg - 1].len() == 1,
{
    assert forall|k: int| 0 <= k < codes.len() implies crate::util::is_power_of_two(
        #[trigger] codes[k]@.len() as int,
    ) by {
        assert(pow2((lg - 1 - k) as nat) == codes[k]@.len());
    }
    assert forall|k: int| 0 < k < codes.len() implies #[trigger] codes[k]@.len() < codes[k - 1]@.len() by {
        lemma_pow2_strictly_increases((lg - 1 - k) as nat, (lg - k) as nat);
    }
    lemma_log2_of(pow2((lg - 1) as nat) as int, (lg - 1) as nat);
    lemma_mmcs_state_shape(codes, (lg - 1) as nat, (lg - 1) as nat);
    lemma2_to64();
}

/// The quotient codewords and coefficients of the opening, the last
/// quotient's value, and the tree over the quotient codewords with its root.
#[verifier::spinoff_prover]
fn commit_quotients(
    pp: &ZmV4Params,
    coef: &Vec<Mersenne61Mont>,
    comm: &ZmV4Commitment,
    point: &Vec<Mersenne61Mont>,
) -> (r: (Vec<Vec<Mersenne61Mont>>, Vec<Vec<Mersenne61Mont>>, Mersenne61Mont, Vec<Vec<[u8; 32]>>, [u8; 32]))
    requires
        pp.wf(),
        committed(*pp, *comm),
        coef@.len() == pow2(pp.num_vars as nat),
        point@.len() == pp.num_vars,
    ensures
        ({
            let n = pp.num_vars as int;
            let lg = pp.log_len();
            let hc = honest_codes(*pp, views(comm.codeword@), views(point@));
            &&& query_views(r.0@) == hc
            &&& r.0@.len() == n - 1
            &&& forall|t: int| 0 <= t < n - 1 ==> #[trigger] r.0@[t]@.len() == pow2((lg - 1 - t) as nat)
            &&& r.1@.len() == n - 1
            &&& forall|i: int|
                0 <= i < n - 1 ==> views(#[trigger] r.1@[i]@) == quotient_coef_seq(
                    remainder_coef(views(coef@), views(point@), i as nat),
                )
            &&& r.2@ == honest_last(*pp, views(comm.codeword@), views(point@))[0]
            &&& tree_view(r.3@) == quotient_tree_of(hc, (lg - 1) as nat)
            &&& r.4@ == quotient_tree_of(hc, (lg - 1) as nat)[lg - 1][0]
        }),
{
    let n = pp.num_vars;
    let lr = pp.log_rate;
    let lg = n + lr;
    let ghost code = views(comm.codeword@);
    let ghost u = views(point@);
    let ghost hc = honest_codes(*pp, code, u);
    let (codes, coefs, last) = quotient_chain(&comm.codeword, coef, point, &pp.table, n, lr);
    proof {
        lemma2_to64();
        assert(query_views(codes@) =~= hc);
        assert forall|i: int| 0 <= i < n - 1 implies #[trigger] codes@[i]@.len() == pow2((lg - 1 - i) as nat) by {
            lemma_codes_len(*pp, code, u, i);
            assert(views(codes@[i]@) == hc[i]);
        }
        assert(pp.table@[lr as int]@.len() == pow2(lr as nat));
        lemma_pow2_pos(lr as nat);
        assert(views(last@).len() == last@.len());
        lemma_codes_heights(codes@, lg as nat);
    }
    let quotient_last = last[0];
    let quotient_tree = merkelize_mmcs(&codes);
    proof {
        lemma_hashed_codes(codes@);
        assert(tree_view(quotient_tree@) == quotient_tree_of(hc, (lg - 1) as nat));
        assert(quotient_tree@.len() == tree_view(quotient_tree@).len());
        assert(tree_view(quotient_tree@)[lg - 1] == dseq(quotient_tree@[lg - 1]@));
    }
    let quotient_root = quotient_tree[lg - 1][0];
    proof {
        assert(views(last@)[0] == last@[0]@);
        assert(dseq(quotient_tree@[lg - 1]@)[0] == quotient_root@);
        assert forall|i: int| 0 <= i < n - 1 implies views(#[trigger] coefs@[i]@) == quotient_coef_seq(
            remainder_coef(views(coef@), u, i as nat),
        ) by {
            assert(views(codes@[i]@) == hc[i]);
        }
        assert(quotient_last@ == honest_last(*pp, code, u)[0]);
        assert(quotient_root@ == quotient_tree_of(hc, (lg - 1) as nat)[lg - 1][0]);
    }
    (codes, coefs, quotient_last, quotient_tree, quotient_root)
}

/// The openings at `xi` and the degree-check quotient codeword that the
/// folding starts from.
#[verifier::spinoff_prover]
fn degree_start(
    pp: &ZmV4Params,
    coef: &Vec<Mersenne61Mont>,
    comm: &ZmV4Commitment,
    point: &Vec<Mersenne61Mont>,
    ch: &ZmV4Challenges,
    codes: &Vec<Vec<Mersenne61Mont>>,
    coefs: &Vec<Vec<Mersenne61Mont>>,
) -> (r: (Vec<Mersenne61Mont>, Vec<Mersenne61Mont>))
    requires
        pp.wf(),
        committed(*pp, *comm),
        ch.fits(pp.num_vars as nat),
        query_views(codes@) == honest_codes(*pp, views(comm.codeword@), views(point@)),
        codes@.len() == pp.num_vars - 1,
        forall|t: int|
            0 <= t < pp.num_vars - 1 ==> #[trigger] codes@[t]@.len() == pow2((pp.log_len() - 1 - t) as nat),
        coefs@.len() == pp.num_vars - 1,
        forall|i: int|
            0 <= i < pp.num_vars - 1 ==> views(#[trigger] coefs@[i]@) == quotient_coef_seq(
                remainder_coef(views(coef@), views(point@), i as nat),
            ),
    ensures
        views(r.0@) == honest_openings(pp.num_vars as nat, views(coef@), views(point@), ch.xi@),
        views(r.1@) == honest_start(*pp, views(comm.codeword@), views(coef@), views(point@), *ch),
        r.1@.len() == pow2(pp.log_len()),
{
    let n = pp.num_vars;
    let lr = pp.log_rate;
    let lg = n + lr;
    let ghost hc = honest_codes(*pp, views(comm.codeword@), views(point@));
    let b = batched_degree_codeword(codes, &comm.codeword, ch.alpha, &ch.padding_lambdas, &pp.table, n, lr);
    let (openings, value) = xi_openings(coef, coefs, ch.xi, ch.alpha, &ch.padding_lambdas);
    proof {
        let cf = views(coef@);
        let u = views(point@);
        assert forall|i: int| 0 <= i < n implies #[trigger] views(openings@)[i] == honest_openings(
            n as nat,
            cf,
            u,
            ch.xi@,
        )[i] by {
            if i > 0 {
                assert(openings@[(i - 1) + 1]@ == poly_eval(views(coefs@[i - 1]@), fpow(ch.xi@, pow2(i as nat))));
            }
        }
        assert(views(openings@) =~= honest_openings(n as nat, cf, u, ch.xi@));
        assert(hc[n - 2] == views(codes@[n - 2]@));
        lemma_batched_code_len(hc, ch.alpha@, views(ch.padding_lambdas@), pp.table@, n as int, lr as int, (n - 2) as nat);
        lemma_pow2_unfold(lg as nat);
        assert(views(b@).len() == b@.len());
        assert(pp.table@[lg - 1]@.len() == pow2((lg - 1) as nat));
    }
    let start = degree_quotient_codeword(&b, value, ch.lambda, ch.xi, &pp.table[lg - 1]);
    assert(views(start@).len() == start@.len());
    (openings, start)
}

/// The fold of the previous round's codeword plus the round's quotient
/// codeword is the round's codeword.
proof fn lemma_round_codeword(
    start: Seq<int>,
    betas: Seq<int>,
    codes: Seq<Seq<int>>,
    table: Seq<Vec<(Mersenne61Mont, Mersenne61Mont)>>,
    lg: int,
    i: nat,
    e: Seq<int>,
    r: Seq<int>,
)
    requires
        e == (if i == 0 {
            start
        } else {
            prover_round_codeword(start, betas, codes, table, lg, (i - 1) as nat)
        }),
        r.len() == table[lg - 1 - i]@.len(),
        forall|m: int|
            0 <= m < r.len() ==> #[trigger] r[m] == fadd(
                fadd(even_at(e, m), fmul(betas[i as int], odd_at(e, table[lg - 1 - i]@[m].1@, m))),
                codes[i as int][m],
            ),
    ensures
        r == prover_round_codeword(start, betas, codes, table, lg, i),
{
    let f = prover_fold(start, betas, codes, table, lg, i);
    assert(f == fold_seq(e, betas[i as int], table[lg - 1 - i]@));
    assert(r =~= prover_round_codeword(start, betas, codes, table, lg, i));
}

/// Round `i` of the honest prover: the fold of the previous codeword plus
/// the round's quotient codeword, its tree and its root.
#[verifier::spinoff_prover]
fn one_round(
    pp: &ZmV4Params,
    ch: &ZmV4Challenges,
    codes: &Vec<Vec<Mersenne61Mont>>,
    folded: Vec<Mersenne61Mont>,
    i: usize,
    Ghost(hc): Ghost<Seq<Seq<int>>>,
    Ghost(start_s): Ghost<Seq<int>>,
) -> (r: (Vec<Mersenne61Mont>, Vec<Vec<[u8; 32]>>, [u8; 32]))
    requires
        pp.wf(),
        ch.fits(pp.num_vars as nat),
        query_views(codes@) == hc,
        codes@.len() == pp.num_vars - 1,
        forall|t: int|
            0 <= t < pp.num_vars - 1 ==> #[trigger] codes@[t]@.len() == pow2((pp.log_len() - 1 - t) as nat),
        i + 1 < pp.num_vars,
        folded@.len() == pow2((pp.log_len() - i) as nat),
        views(folded@) == (if i == 0 {
            start_s
        } else {
            prover_round_codeword(start_s, views(ch.betas@), hc, pp.table@, pp.log_len() as int, (i - 1) as nat)
        }),
    ensures
        ({
            let lg = pp.log_len() as int;
            let rt = prover_round_codeword(start_s, views(ch.betas@), hc, pp.table@, lg, i as nat);
            &&& views(r.0@) == rt
            &&& r.0@.len() == pow2((lg - 1 - i) as nat)
            &&& tree_view(r.1@) == merkle_tree_of(rt, (lg - 1 - i) as nat)
            &&& r.2@ == codeword_root(rt, (lg - 1 - i) as nat)
        }),
{
    let lg = pp.num_vars + pp.log_rate;
    let ghost betas = views(ch.betas@);
    let level = &pp.table[lg - 1 - i];
    proof {
        assert(level@.len() == pow2((lg - 1 - i) as nat));
        lemma_pow2_unfold((lg - i) as nat);
    }
    let next = fold_with_quotient(folded, ch.betas[i], level, &codes[i]);
    let ghost rt = prover_round_codeword(start_s, betas, hc, pp.table@, lg as int, i as nat);
    proof {
        assert(views(codes@[i as int]@) == hc[i as int]);
        lemma_round_codeword(start_s, betas, hc, pp.table@, lg as int, i as nat, views(folded@), views(next@));
        lemma_pow2_pos((lg - 1 - i) as nat);
        lemma2_to64();
        lemma_merkle_path_complete(rt, (lg - 1 - i) as nat, 0);
        lemma_pow2_strictly_increases(0, (lg - 1 - i) as nat);
    }
    let tree = merkelize(&next);
    assert(tree_view(tree@) == merkle_tree_of(rt, (lg - 1 - i) as nat));
    assert(tree@.len() == tree_view(tree@).len());
    let root = tree[lg - 2 - i][0];
    assert(dseq(tree@[lg - 2 - i]@)[0] == root@);
    (next, tree, root)
}

/// The folding rounds of the honest prover: each round's codeword (the fold
/// plus the round's quotient codeword) with its tree and root, then the
/// last fold.
#[verifier::spinoff_prover]
#[verifier::rlimit(60)]
fn fold_rounds_honest(
    pp: &ZmV4Params,
    ch: &ZmV4Challenges,
    codes: &Vec<Vec<Mersenne61Mont>>,
    start: Vec<Mersenne61Mont>,
    Ghost(hc): Ghost<Seq<Seq<int>>>,
    Ghost(start_s): Ghost<Seq<int>>,
) -> (r: (Vec<Vec<Mersenne61Mont>>, Vec<Vec<Vec<[u8; 32]>>>, Vec<[u8; 32]>, Mersenne61Mont))
    requires
        pp.wf(),
        ch.fits(pp.num_vars as nat),
        query_views(codes@) == hc,
        codes@.len() == pp.num_vars - 1,
        forall|t: int|
            0 <= t < pp.num_vars - 1 ==> #[trigger] codes@[t]@.len() == pow2((pp.log_len() - 1 - t) as nat),
        views(start@) == start_s,
        start@.len() == pow2(pp.log_len()),
    ensures
        ({
            let n = pp.num_vars as int;
            let lg = pp.log_len() as int;
            let betas = views(ch.betas@);
            &&& rounds_ok(*pp, hc, start_s, betas, r.0@, r.1@, n - 1)
            &&& r.2@.len() == n - 1
            &&& forall|t: int|
                0 <= t < n - 1 ==> (#[trigger] r.2@[t])@ == codeword_root(
                    prover_round_codeword(start_s, betas, hc, pp.table@, lg, t as nat),
                    (lg - 1 - t) as nat,
                )
            &&& r.3@ == prover_fold(start_s, betas, hc, pp.table@, lg, (n - 1) as nat)[0]
        }),
{
    let n = pp.num_vars;
    let lr = pp.log_rate;
    let lg = n + lr;
    let ghost betas = views(ch.betas@);
    let mut folded = start;
    let mut tree_evals: Vec<Vec<Mersenne61Mont>> = Vec::new();
    let mut trees: Vec<Vec<Vec<[u8; 32]>>> = Vec::new();
    let mut round_roots: Vec<[u8; 32]> = Vec::new();
    let mut i: usize = 0;
    while i + 1 < n
        invariant
            pp.wf(),
            n == pp.num_vars,
            lr == pp.log_rate,
            lg == n + lr,
            ch.fits(n as nat),
            betas == views(ch.betas@),
            query_views(codes@) == hc,
            codes@.len() == n - 1,
            forall|t: int| 0 <= t < n - 1 ==> #[trigger] codes@[t]@.len() == pow2((lg - 1 - t) as nat),
            i + 1 <= n,
            folded@.len() == pow2((lg - i) as nat),
            views(folded@) == (if i == 0 {
                start_s
            } else {
                prover_round_codeword(start_s, betas, hc, pp.table@, lg as int, (i - 1) as nat)
            }),
            rounds_ok(*pp, hc, start_s, betas, tree_evals@, trees@, i as int),
            round_roots@.len() == i,
            forall|t: int|
                0 <= t < i ==> (#[trigger] round_roots@[t])@ == codeword_root(
                    prover_round_codeword(start_s, betas, hc, pp.table@, lg as int, t as nat),
                    (lg - 1 - t) as nat,
                ),
        decreases n - i,
    {
        let (next, tree, root) = one_round(pp, ch, codes, folded, i, Ghost(hc), Ghost(start_s));
        let ghost rt = prover_round_codeword(start_s, betas, hc, pp.table@, lg as int, i as nat);
        let te = copy_vec(&next);
        let ghost old_te = tree_evals@;
        let ghost old_tr = trees@;
        let ghost old_rr = round_roots@;
        tree_evals.push(te);
        trees.push(tree);
        round_roots.push(root);
        proof {
            assert forall|t: int| 0 <= t < i + 1 implies {
                let r2 = prover_round_codeword(start_s, betas, hc, pp.table@, lg as int, t as nat);
                &&& views(#[trigger] tree_evals@[t]@) == r2
                &&& tree_evals@[t]@.len() == pow2((lg - 1 - t) as nat)
                &&& tree_view(trees@[t]@) == merkle_tree_of(r2, (lg - 1 - t) as nat)
            } by {
                if t < i {
                    assert(tree_evals@[t] == old_te[t] && trees@[t] == old_tr[t]);
                }
            }
            assert forall|t: int| 0 <= t < i + 1 implies (#[trigger] round_roots@[t])@ == codeword_root(
                prover_round_codeword(start_s, betas, hc, pp.table@, lg as int, t as nat),
                (lg - 1 - t) as nat,
            ) by {
                if t < i {
                    assert(round_roots@[t] == old_rr[t]);
                }
            }
        }
        folded = next;
        i = i + 1;
    }
    proof {
        assert(pp.table@[lr as int]@.len() == pow2(lr as nat));
        lemma_pow2_unfold((lr + 1) as nat);
    }
    let final_fold = fold(folded, ch.betas[n - 1], &pp.table[lr]);
    proof {
        lemma_pow2_pos(lr as nat);
    }
    let folded_last = final_fold[0];
    assert(folded_last@ == prover_fold(start_s, betas, hc, pp.table@, lg as int, (n - 1) as nat)[0]);
    (tree_evals, trees, round_roots, folded_last)
}

/// The honest answers to every query.
#[verifier::spinoff_prover]
fn answer_queries(
    pp: &ZmV4Params,
    comm: &ZmV4Commitment,
    ch: &ZmV4Challenges,
    quotient_tree: &Vec<Vec<[u8; 32]>>,
    codes: &Vec<Vec<Mersenne61Mont>>,
    tree_evals: &Vec<Vec<Mersenne61Mont>>,
    trees: &Vec<Vec<Vec<[u8; 32]>>>,
    Ghost(start): Ghost<Seq<int>>,
) -> (r: Vec<FoldQueryProof>)
    requires
        pp.wf(),
        committed(*pp, *comm),
        codes@.len() == pp.num_vars - 1,
        forall|t: int| 0 <= t < pp.num_vars - 1 ==> #[trigger] codes@[t]@.len() == pow2((pp.log_len() - 1 - t) as nat),
        tree_view(quotient_tree@) == quotient_tree_of(query_views(codes@), (pp.log_len() - 1) as nat),
        rounds_ok(*pp, query_views(codes@), start, views(ch.betas@), tree_evals@, trees@, pp.num_vars - 1),
    ensures
        r@.len() == ch.queries@.len(),
        forall|k: int|
            0 <= k < ch.queries@.len() ==> honest_answer(
                *pp,
                views(comm.codeword@),
                query_views(codes@),
                start,
                views(ch.betas@),
                query_position(*ch, pp.log_len(), k),
                #[trigger] r@[k],
            ),
{
    let lg = pp.num_vars + pp.log_rate;
    proof {
        lemma2_to64();
        if lg < 30 {
            lemma_pow2_strictly_increases(lg as nat, 30);
        }
    }
    let p2 = pow2_of(lg);
    let mut query_proofs: Vec<FoldQueryProof> = Vec::new();
    let mut k: usize = 0;
    while k < ch.queries.len()
        invariant
            pp.wf(),
            committed(*pp, *comm),
            lg == pp.log_len(),
            p2 == pow2(lg as nat),
            codes@.len() == pp.num_vars - 1,
            forall|t: int|
                0 <= t < pp.num_vars - 1 ==> #[trigger] codes@[t]@.len() == pow2((pp.log_len() - 1 - t) as nat),
            tree_view(quotient_tree@) == quotient_tree_of(query_views(codes@), (pp.log_len() - 1) as nat),
            rounds_ok(*pp, query_views(codes@), start, views(ch.betas@), tree_evals@, trees@, pp.num_vars - 1),
            k <= ch.queries@.len(),
            query_proofs@.len() == k,
            forall|t: int|
                0 <= t < k ==> honest_answer(
                    *pp,
                    views(comm.codeword@),
                    query_views(codes@),
                    start,
                    views(ch.betas@),
                    query_position(*ch, lg as nat, t),
                    #[trigger] query_proofs@[t],
                ),
        decreases ch.queries@.len() - k,
    {
        proof {
            lemma_pow2_pos(lg as nat);
        }
        let q = ch.queries[k] % p2;
        let a = answer_query(pp, comm, q, quotient_tree, codes, tree_evals, trees, Ghost(start), Ghost(views(ch.betas@)));
        let ghost old_qp = query_proofs@;
        query_proofs.push(a);
        proof {
            assert forall|t: int| 0 <= t < k + 1 implies honest_answer(
                *pp,
                views(comm.codeword@),
                query_views(codes@),
                start,
                views(ch.betas@),
                query_position(*ch, lg as nat, t),
                #[trigger] query_proofs@[t],
            ) by {
                if t < k {
                    assert(query_proofs@[t] == old_qp[t]);
                }
            }
        }
        k = k + 1;
    }
    query_proofs
}

/// Opens the committed codeword at `point`: divides it (and its
/// coefficients) by the point's coordinates one after another, commits to
/// the quotients, batches them with the codeword into the degree-check
/// quotient at `xi`, folds that round by round (adding each round's
/// quotient and committing to the result) down to one value, and answers
/// every query.
pub fn zeromorph_fri_v4_open(
    pp: &ZmV4Params,
    coef: &Vec<Mersenne61Mont>,
    comm: &ZmV4Commitment,
    point: &Vec<Mersenne61Mont>,
    ch: &ZmV4Challenges,
) -> (r: ZmV4Proof)
    requires
        pp.wf(),
        committed(*pp, *comm),
        coef@.len() == pow2(pp.num_vars as nat),
        point@.len() == pp.num_vars,
        ch.fits(pp.num_vars as nat),
    ensures
        honest_proof(*pp, views(comm.codeword@), views(coef@), views(point@), *ch, r),
{
    let ghost hc = honest_codes(*pp, views(comm.codeword@), views(point@));
    let ghost start_s = honest_start(*pp, views(comm.codeword@), views(coef@), views(point@), *ch);
    let (codes, coefs, quotient_last, quotient_tree, quotient_root) = commit_quotients(pp, coef, comm, point);
    let (openings, start) = degree_start(pp, coef, comm, point, ch, &codes, &coefs);
    let (tree_evals, trees, round_roots, folded_last) = fold_rounds_honest(
        pp,
        ch,
        &codes,
        start,
        Ghost(hc),
        Ghost(start_s),
    );
    let query_proofs = answer_queries(pp, comm, ch, &quotient_tree, &codes, &tree_evals, &trees, Ghost(start_s));
    ZmV4Proof { quotient_last, quotient_root, xi_openings: openings, round_roots, folded_last, query_proofs }
}

/// What every query of `proof` is checked against: the parameters, the
/// commitment's root, the values the proof sends and the challenges.
pub open spec fn v4_context(vp: ZmV4Params, root: [u8; 32], proof: ZmV4Proof, ch: ZmV4Challenges) -> FoldQueryContext {
    FoldQueryContext {
        num_vars: vp.num_vars,
        log_rate: vp.log_rate,
        codeword_root: root,
        quotient_root: proof.quotient_root,
        xi: ch.xi,
        alpha: ch.alpha,
        lambda: ch.lambda,
        padding_lambdas: ch.padding_lambdas,
        xi_openings: proof.xi_openings,
        betas: ch.betas,
        folded_last: proof.folded_last,
    }
}

/// An answer has the sizes a query of `n` variables reads.
pub open spec fn answer_shape(a: FoldQueryProof, n: int, lg: int) -> bool {
    &&& a.codeword_path@.len() >= 1
    &&& a.quotient_path@.len() >= lg - 1
    &&& a.quotients@.len() == n - 1
    &&& a.neighbors@.len() >= n - 1
    &&& a.neighbor_paths@.len() >= n - 1
    &&& forall|j: int| 0 <= j < n - 1 ==> #[trigger] a.neighbor_paths@[j]@.len() >= 1
}

/// The proof has one opening at `xi` per variable and one answer of the
/// right sizes per query.
pub open spec fn proof_shape(vp: ZmV4Params, proof: ZmV4Proof, ch: ZmV4Challenges) -> bool {
    &&& proof.xi_openings@.len() == vp.num_vars
    &&& proof.query_proofs@.len() == ch.queries@.len()
    &&& forall|k: int|
        0 <= k < proof.query_proofs@.len() ==> answer_shape(
            #[trigger] proof.query_proofs@[k],
            vp.num_vars as int,
            vp.log_len() as int,
        )
}

/// The outcome of the first `m` queries: the first that fails, or none.
#[verifier::opaque]
pub open spec fn queries_outcome(
    vp: ZmV4Params,
    root: [u8; 32],
    proof: ZmV4Proof,
    ch: ZmV4Challenges,
    m: nat,
) -> Result<(), ZmV4Error>
    decreases m,
{
    if m == 0 {
        Ok(())
    } else {
        match queries_outcome(vp, root, proof, ch, (m - 1) as nat) {
            Err(e) => Err(e),
            Ok(_) => match fold_query_outcome(
                query_position(ch, vp.log_len(), m - 1),
                proof.query_proofs@[m - 1],
                v4_context(vp, root, proof, ch),
                vp.table@,
            ) {
                Ok(_) => Ok(()),
                Err(e) => Err(ZmV4Error::Query((m - 1) as usize, e)),
            },
        }
    }
}

/// The verifier's verdict on `proof` for the claim that the committed
/// polynomial (root `root`) takes `eval` at `point`: the sizes, then every
/// query in turn, then the degree identity at `xi`.
pub open spec fn v4_outcome(
    vp: ZmV4Params,
    root: [u8; 32],
    point: Seq<int>,
    eval: int,
    proof: ZmV4Proof,
    ch: ZmV4Challenges,
) -> Result<(), ZmV4Error> {
    if !proof_shape(vp, proof, ch) {
        Err(ZmV4Error::Shape)
    } else {
        match queries_outcome(vp, root, proof, ch, ch.queries@.len()) {
            Err(e) => Err(e),
            Ok(_) => if degree_residue(
                ch.xi@,
                eval,
                point,
                views(proof.xi_openings@),
                proof.quotient_last@,
                vp.num_vars as nat,
            ) == 0 {
                Ok(())
            } else {
                Err(ZmV4Error::DegreeCheck)
            },
        }
    }
}

/// Whether an answer has the sizes a query reads.
fn answer_shape_ok(a: &FoldQueryProof, n: usize, lg: usize) -> (r: bool)
    requires
        1 <= n <= lg,
    ensures
        r == answer_shape(*a, n as int, lg as int),
{
    if a.codeword_path.len() < 1 || a.quotient_path.len() < lg - 1 || a.quotients.len() != n - 1
        || a.neighbors.len() < n - 1 || a.neighbor_paths.len() < n - 1 {
        return false;
    }
    let mut j: usize = 0;
    while j + 1 < n
        invariant
            1 <= n,
            a.neighbor_paths@.len() >= n - 1,
            j + 1 <= n,
            forall|t: int| 0 <= t < j ==> #[trigger] a.neighbor_paths@[t]@.len() >= 1,
        decreases n - j,
    {
        if a.neighbor_paths[j].len() < 1 {
            return false;
        }
        j = j + 1;
    }
    true
}

/// An answer of the right sizes, at a position below `2^lg`, under
/// parameters the scheme runs with, meets what the check of one query reads.
proof fn lemma_query_shape(vp: ZmV4Params, q: int, a: FoldQueryProof, ctx: FoldQueryContext)
    requires
        vp.wf(),
        0 <= q < pow2(vp.log_len()),
        answer_shape(a, vp.num_vars as int, vp.log_len() as int),
        ctx.num_vars == vp.num_vars,
        ctx.log_rate == vp.log_rate,
        ctx.padding_lambdas@.len() >= vp.num_vars - 1,
        ctx.xi_openings@.len() >= vp.num_vars,
        ctx.betas@.len() >= vp.num_vars,
    ensures
        fold_query_shape(q, a, ctx, vp.table@),
{
    let n = vp.num_vars as int;
    let lg = vp.log_len();
    lemma2_to64();
    lemma_div_pow2_below(q, lg, 1);
    assert(vp.table@[lg - 1]@.len() == pow2((lg - 1) as nat));
    assert forall|j: int| 1 <= j < n implies q / (pow2((j + 1) as nat) as int) < #[trigger] vp.table@[lg - j]@.len() by {
        lemma_div_pow2_below(q, lg, (j + 1) as nat);
        lemma_pow2_strictly_increases((lg - j - 1) as nat, (lg - j) as nat);
        assert(vp.table@[lg - j]@.len() == pow2((lg - j) as nat));
    }
}

/// Whether the proof has the sizes the parameters and challenges ask for.
fn proof_shape_ok(vp: &ZmV4Params, proof: &ZmV4Proof, ch: &ZmV4Challenges) -> (r: bool)
    requires
        vp.wf(),
    ensures
        r == proof_shape(*vp, *proof, *ch),
{
    let n = vp.num_vars;
    let lg = n + vp.log_rate;
    if proof.xi_openings.len() != n || proof.query_proofs.len() != ch.queries.len() {
        return false;
    }
    let mut k: usize = 0;
    while k < proof.query_proofs.len()
        invariant
            2 <= n <= lg,
            n == vp.num_vars,
            lg == vp.log_len(),
            k <= proof.query_proofs@.len(),
            forall|t: int| 0 <= t < k ==> answer_shape(#[trigger] proof.query_proofs@[t], n as int, lg as int),
        decreases proof.query_proofs@.len() - k,
    {
        if !answer_shape_ok(&proof.query_proofs[k], n, lg) {
            return false;
        }
        k = k + 1;
    }
    true
}

/// Once a query fails, the outcome of more queries is that failure.
proof fn lemma_queries_stay(vp: ZmV4Params, root: [u8; 32], proof: ZmV4Proof, ch: ZmV4Challenges, k: nat, m: nat)
    requires
        k <= m,
        queries_outcome(vp, root, proof, ch, k) is Err,
    ensures
        queries_outcome(vp, root, proof, ch, m) == queries_outcome(vp, root, proof, ch, k),
    decreases m - k,
{
    reveal(queries_outcome);
    if k < m {
        lemma_queries_stay(vp, root, proof, ch, k, (m - 1) as nat);
    }
}

/// Checks query `k` after the earlier ones passed.
#[verifier::spinoff_prover]
#[verifier::rlimit(40)]
fn check_one(
    vp: &ZmV4Params,
    root: [u8; 32],
    query_proofs: &Vec<FoldQueryProof>,
    queries: &Vec<usize>,
    ctx: &FoldQueryContext,
    k: usize,
    p2: usize,
    Ghost(proof0): Ghost<ZmV4Proof>,
    Ghost(ch0): Ghost<ZmV4Challenges>,
) -> (r: Result<(), ZmV4Error>)
    requires
        vp.wf(),
        p2 == pow2(vp.log_len()),
        proof_shape(*vp, proof0, ch0),
        ch0.fits(vp.num_vars as nat),
        *ctx == v4_context(*vp, root, proof0, ch0),
        queries@ == ch0.queries@,
        query_proofs@ == proof0.query_proofs@,
        k < queries@.len(),
        queries_outcome(*vp, root, proof0, ch0, k as nat) == Ok::<(), ZmV4Error>(()),
    ensures
        r == queries_outcome(*vp, root, proof0, ch0, (k + 1) as nat),
{
    proof {
        lemma_pow2_pos(vp.log_len());
        reveal(queries_outcome);
    }
    let q = queries[k] % p2;
    proof {
        lemma_query_shape(*vp, q as int, query_proofs@[k as int], *ctx);
    }
    let checked = verify_fold_query(q, &query_proofs[k], ctx, &vp.table);
    match checked {
        Ok(()) => Ok(()),
        Err(e) => Err(ZmV4Error::Query(k, e)),
    }
}

/// Checks every query in turn against the context; the first failing one
/// decides the error.
#[verifier::spinoff_prover]
#[verifier::rlimit(40)]
fn check_queries(
    vp: &ZmV4Params,
    root: [u8; 32],
    query_proofs: &Vec<FoldQueryProof>,
    queries: &Vec<usize>,
    ctx: &FoldQueryContext,
    Ghost(proof0): Ghost<ZmV4Proof>,
    Ghost(ch0): Ghost<ZmV4Challenges>,
) -> (r: Result<(), ZmV4Error>)
    requires
        vp.wf(),
        proof_shape(*vp, proof0, ch0),
        ch0.fits(vp.num_vars as nat),
        *ctx == v4_context(*vp, root, proof0, ch0),
        queries@ == ch0.queries@,
        query_proofs@ == proof0.query_proofs@,
    ensures
        r == queries_outcome(*vp, root, proof0, ch0, ch0.queries@.len()),
{
    let lg = vp.num_vars + vp.log_rate;
    proof {
        lemma2_to64();
        if lg < 30 {
            lemma_pow2_strictly_increases(lg as nat, 30);
        }
    }
    let p2 = pow2_of(lg);
    proof {
        reveal(queries_outcome);
    }
    let mut k: usize = 0;
    while k < queries.len()
        invariant
            vp.wf(),
            lg == vp.log_len(),
            p2 == pow2(lg as nat),
            proof_shape(*vp, proof0, ch0),
            ch0.fits(vp.num_vars as nat),
            *ctx == v4_context(*vp, root, proof0, ch0),
            queries@ == ch0.queries@,
            query_proofs@ == proof0.query_proofs@,
            k <= queries@.len(),
            queries_outcome(*vp, root, proof0, ch0, k as nat) == Ok::<(), ZmV4Error>(()),
        decreases queries@.len() - k,
    {
        let checked = check_one(vp, root, query_proofs, queries, ctx, k, p2, Ghost(proof0), Ghost(ch0));
        match checked {
            Ok(u) => {
                assert(queries_outcome(*vp, root, proof0, ch0, (k + 1) as nat) == Ok::<(), ZmV4Error>(u));
            },
            Err(e) => {
                proof {
                    lemma_queries_stay(*vp, root, proof0, ch0, (k + 1) as nat, ch0.queries@.len());
                }
                return Err(e);
            },
        }
        k = k + 1;
    }
    Ok(())
}

/// Verifies an opening of the commitment with root `root` at `point` to the
/// value `eval`: checks the proof's sizes, then each query (the codeword's
/// and the quotients' openings, the batched quotient folded round by round
/// against the neighbours down to the last fold), then that the degree
/// identity at `xi` vanishes. The first failing check decides the error.
pub fn zeromorph_fri_v4_verify(
    vp: &ZmV4Params,
    root: [u8; 32],
    point: &Vec<Mersenne61Mont>,
    eval: Mersenne61Mont,
    proof: ZmV4Proof,
    ch: ZmV4Challenges,
) -> (r: Result<(), ZmV4Error>)
    requires
        vp.wf(),
        point@.len() == vp.num_vars,
        ch.fits(vp.num_vars as nat),
    ensures
        r == v4_outcome(*vp, root, views(point@), eval@, proof, ch),
{
    let n = vp.num_vars;
    let lg = n + vp.log_rate;
    let ghost proof0 = proof;
    let ghost ch0 = ch;
    if !proof_shape_ok(vp, &proof, &ch) {
        return Err(ZmV4Error::Shape);
    }
    let ZmV4Proof { quotient_last, quotient_root, xi_openings, round_roots, folded_last, query_proofs } = proof;
    let ZmV4Challenges { alpha, xi, padding_lambdas, lambda, betas, queries } = ch;
    let ctx = FoldQueryContext {
        num_vars: n,
        log_rate: vp.log_rate,
        codeword_root: root,
        quotient_root,
        xi,
        alpha,
        lambda,
        padding_lambdas,
        xi_openings,
        betas,
        folded_last,
    };
    assert(ctx == v4_context(*vp, root, proof0, ch0));
    let checked = check_queries(vp, root, &query_proofs, &queries, &ctx, Ghost(proof0), Ghost(ch0));
    if let Err(e) = checked {
        return Err(e);
    }
    proof {
        lemma2_to64();
    }
    let z = expected_zero(ctx.xi, eval, point, &ctx.xi_openings, quotient_last, n);
    if z.equals(&Mersenne61Mont::zero()) {
        Ok(())
    } else {
        Err(ZmV4Error::DegreeCheck)
    }
}

/// The path a tree over `2^m` entries (m >= 2) gives for a position holds
/// the `m - 1` pairs below the root and authenticates that position's pair
/// up to the root.
pub(crate) proof fn lemma_path_in_root(v: Seq<int>, m: nat, x: int, path: Seq<([u8; 32], [u8; 32])>)
    requires
        v.len() == pow2(m),
        m >= 2,
        0 <= x < v.len(),
        path_in(merkle_tree_of(v, m), x, path),
    ensures
        pairs_view(path) == path_pairs(merkle_tree_of(v, m), x, m - 1),
        path.len() == m - 1,
        path_root_ok(pairs_view(path), v[pair_lo(x)], v[pair_hi(x)], x, merkle_tree_of(v, m)[m - 1][0]),
{
    lemma_merkle_path_complete(v, m, x);
    let t = merkle_tree_of(v, m);
    let k = choose|k: int| path_stop(t, k) && pairs_view(path) == path_pairs(t, x, k);
    if k < m - 1 {
        assert(t[k].len() == 1);
    }
    if k > m - 1 {
        assert(t[m - 1].len() != 1);
    }
    assert(pairs_view(path).len() == path.len());
}

/// The positions of round `i`'s pair: `x = q / 2^(i+1)` and `2 (q / 2^(i+2))`
/// have the same ancestors in every layer.
proof fn lemma_same_ancestors(q: int, i: nat)
    requires
        q >= 0,
    ensures
        forall|l: int|
            0 <= l ==> #[trigger] level_index(q / pow2(i + 1) as int, l) == level_index(
                2 * (q / pow2(i + 2) as int),
                l,
            ),
{
    let y = q / pow2(i + 1) as int;
    let h = q / pow2(i + 2) as int;
    lemma_pow2_pos(i + 1);
    vstd::arithmetic::div_mod::lemma_div_pos_is_pos(q, pow2(i + 1) as int);
    lemma_half_div(q, i + 1);
    assert(y / 2 == h) by {
        lemma_pow2_unfold(i + 2);
        vstd::arithmetic::div_mod::lemma_div_denominator(q, pow2(i + 1) as int, 2);
        vstd::arithmetic::mul::lemma_mul_is_commutative(pow2(i + 1) as int, 2);
    }
    assert forall|l: int| 0 <= l implies #[trigger] level_index(y, l) == level_index(2 * h, l) by {
        lemma_pow2_pos(l as nat);
        lemma_pow2_unfold((l + 1) as nat);
        vstd::arithmetic::div_mod::lemma_div_denominator(y, 2, pow2(l as nat) as int);
        vstd::arithmetic::div_mod::lemma_div_denominator(2 * h, 2, pow2(l as nat) as int);
        vstd::arithmetic::mul::lemma_mul_is_commutative(pow2(l as nat) as int, 2);
    }
}

/// Path checks that read a position only through its ancestors agree on
/// positions with the same ancestors.
proof fn lemma_chain_same_ancestors(path: Seq<(Seq<u8>, Seq<u8>)>, l0: int, l1: int, x: int, y: int)
    requires
        path_chain_ok(path, l0, l1, x),
        forall|l: int| 0 <= l ==> #[trigger] level_index(y, l) == level_index(x, l),
    ensures
        path_chain_ok(path, l0, l1, y),
{
    assert(level_index(y, 0) == level_index(x, 0));
    assert forall|i: int| 0 <= i < path.len() - 1 implies spec_hash_pair(#[trigger] path[i].0, path[i].1) == (
    if level_index(y, i + 1) % 2 == 0 {
        path[i + 1].0
    } else {
        path[i + 1].1
    }) by {
        assert(level_index(y, i + 1) == level_index(x, i + 1));
    }
}

/// Round `j`'s pair in an honest answer authenticates along its path at the
/// position the verifier checks it at.
proof fn lemma_honest_neighbor(
    pp: ZmV4Params,
    code: Seq<int>,
    codes: Seq<Seq<int>>,
    start: Seq<int>,
    betas: Seq<int>,
    q: int,
    a: FoldQueryProof,
    j: int,
)
    requires
        pp.wf(),
        0 <= q < pow2(pp.log_len()),
        honest_answer(pp, code, codes, start, betas, q, a),
        0 <= j < pp.num_vars - 1,
    ensures
        a.neighbor_paths@[j]@.len() >= 1,
        path_chain_ok(
            pairs_view(a.neighbor_paths@[j]@),
            a.neighbors@[j].0@,
            a.neighbors@[j].1@,
            q / pow2((j + 1) as nat) as int,
        ),
{
    let lg = pp.log_len();
    let rt = prover_round_codeword(start, betas, codes, pp.table@, lg as int, j as nat);
    let m = (lg - 1 - j) as nat;
    let h = q / pow2((j + 2) as nat) as int;
    assert(a.quotients@[j]@ == codes[j][q / pow2((j + 1) as nat) as int]);
    assert(rt.len() == pp.table@[lg - 1 - j]@.len());
    assert(pp.table@[lg - 1 - j]@.len() == pow2(m));
    lemma_div_pow2_below(q, lg, (j + 2) as nat);
    lemma_pow2_unfold(m);
    lemma2_to64();
    assert(0 <= 2 * h < rt.len());
    lemma_path_in_root(rt, m, 2 * h, a.neighbor_paths@[j]@);
    assert(pair_lo(2 * h) == 2 * h && pair_hi(2 * h) == 2 * h + 1);
    lemma_same_ancestors(q, j as nat);
    lemma_chain_same_ancestors(
        pairs_view(a.neighbor_paths@[j]@),
        a.neighbors@[j].0@,
        a.neighbors@[j].1@,
        2 * h,
        q / pow2((j + 1) as nat) as int,
    );
}

/// An honest answer has the sizes the verifier reads; its codeword pair
/// authenticates up to the codeword's root, its quotients up to the
/// quotients' root, and each round's pair along its path.
proof fn lemma_honest_answer_authenticates(
    pp: ZmV4Params,
    code: Seq<int>,
    codes: Seq<Seq<int>>,
    start: Seq<int>,
    betas: Seq<int>,
    q: int,
    a: FoldQueryProof,
)
    requires
        pp.wf(),
        code.len() == pow2(pp.log_len()),
        0 <= q < pow2(pp.log_len()),
        honest_answer(pp, code, codes, start, betas, q, a),
    ensures
        answer_shape(a, pp.num_vars as int, pp.log_len() as int),
        path_root_ok(pairs_view(a.codeword_path@), a.codeword_pair.0@, a.codeword_pair.1@, q, codeword_root(code, pp.log_len())),
        mmcs_climb(dseq(a.quotient_path@), views(a.quotients@), q / 2, (pp.log_len() - 1) as nat) == quotient_tree_of(
            codes,
            (pp.log_len() - 1) as nat,
        )[pp.log_len() - 1][0],
        forall|j: int|
            0 <= j < pp.num_vars - 1 ==> path_chain_ok(
                pairs_view(#[trigger] a.neighbor_paths@[j]@),
                a.neighbors@[j].0@,
                a.neighbors@[j].1@,
                q / pow2((j + 1) as nat) as int,
            ),
{
    let lg = pp.log_len();
    lemma_path_in_root(code, lg, q, a.codeword_path@);
    assert(q / 2 * 2 == pair_lo(q) && q / 2 * 2 + 1 == pair_hi(q));
    assert(dseq(a.quotient_path@).len() == a.quotient_path@.len());
    assert forall|j: int| 0 <= j < pp.num_vars - 1 implies {
        &&& #[trigger] a.neighbor_paths@[j]@.len() >= 1
        &&& path_chain_ok(
            pairs_view(a.neighbor_paths@[j]@),
            a.neighbors@[j].0@,
            a.neighbors@[j].1@,
            q / pow2((j + 1) as nat) as int,
        )
    } by {
        lemma_honest_neighbor(pp, code, codes, start, betas, q, a, j);
    }
}

/// The honest answers have the sizes the verifier reads; each answer's
/// codeword pair authenticates up to the commitment's root, its quotients up
/// to the quotients' root, and each round's neighbours along their path at
/// the position the verifier checks them at.
pub proof fn lemma_v4_honest_authenticates(
    pp: ZmV4Params,
    code: Seq<int>,
    coef: Seq<int>,
    point: Seq<int>,
    ch: ZmV4Challenges,
    r: ZmV4Proof,
)
    requires
        pp.wf(),
        code.len() == pow2(pp.log_len()),
        ch.fits(pp.num_vars as nat),
        honest_proof(pp, code, coef, point, ch, r),
    ensures
        proof_shape(pp, r, ch),
        forall|k: int|
            0 <= k < ch.queries@.len() ==> {
                let q = query_position(ch, pp.log_len(), k);
                let a = #[trigger] r.query_proofs@[k];
                &&& path_root_ok(
                    pairs_view(a.codeword_path@),
                    a.codeword_pair.0@,
                    a.codeword_pair.1@,
                    q,
                    codeword_root(code, pp.log_len()),
                )
                &&& mmcs_climb(dseq(a.quotient_path@), views(a.quotients@), q / 2, (pp.log_len() - 1) as nat)
                    == r.quotient_root@
                &&& forall|j: int|
                    0 <= j < pp.num_vars - 1 ==> path_chain_ok(
                        pairs_view(#[trigger] a.neighbor_paths@[j]@),
                        a.neighbors@[j].0@,
                        a.neighbors@[j].1@,
                        q / pow2((j + 1) as nat) as int,
                    )
            },
{
    let lg = pp.log_len();
    let codes = honest_codes(pp, code, point);
    let start = honest_start(pp, code, coef, point, ch);
    let betas = views(ch.betas@);
    assert(views(r.xi_openings@).len() == r.xi_openings@.len());
    assert forall|k: int| 0 <= k < ch.queries@.len() implies {
        let q = query_position(ch, lg, k);
        let a = #[trigger] r.query_proofs@[k];
        &&& answer_shape(a, pp.num_vars as int, lg as int)
        &&& path_root_ok(pairs_view(a.codeword_path@), a.codeword_pair.0@, a.codeword_pair.1@, q, codeword_root(code, lg))
        &&& mmcs_climb(dseq(a.quotient_path@), views(a.quotients@), q / 2, (lg - 1) as nat) == r.quotient_root@
        &&& forall|j: int|
            0 <= j < pp.num_vars - 1 ==> path_chain_ok(
                pairs_view(#[trigger] a.neighbor_paths@[j]@),
                a.neighbors@[j].0@,
                a.neighbors@[j].1@,
                q / pow2((j + 1) as nat) as int,
            )
    } by {
        lemma_pow2_pos(lg);
        lemma_honest_answer_authenticates(
            pp,
            code,
            codes,
            start,
            betas,
            query_position(ch, lg, k),
            r.query_proofs@[k],
        );
    }
}

/// Below half its length, each level between `lo` and `hi` holds the
/// weights of the level under it, as the tables of a bit-reversed domain do;
/// the verifier reads each round's weight one level up.
pub open spec fn nested_weights(table: Seq<Vec<(Mersenne61Mont, Mersenne61Mont)>>, lo: int, hi: int) -> bool {
    forall|l: int, x: int|
        lo < l < hi && 0 <= x < pow2((l - 1) as nat) ==> #[trigger] table[l]@[x].1@ == table[l - 1]@[x].1@
}

/// The algebra that query `k` of the honest opening rests on: the queried
/// point and its negation are not `xi`, the verifier's batched quotients at
/// them fold to the prover's first fold, and the prover's last fold is the
/// same at the query's position as at position 0.
pub open spec fn query_algebra_holds(
    pp: ZmV4Params,
    root: [u8; 32],
    code: Seq<int>,
    coef: Seq<int>,
    point: Seq<int>,
    ch: ZmV4Challenges,
    r: ZmV4Proof,
    k: int,
) -> bool {
    let n = pp.num_vars as nat;
    let lg = pp.log_len() as int;
    let q = query_position(ch, pp.log_len(), k);
    let level = pp.table@[lg - 1]@;
    let ctx = v4_context(pp, root, r, ch);
    let a = r.query_proofs@[k];
    let codes = honest_codes(pp, code, point);
    let start = honest_start(pp, code, coef, point, ch);
    let betas = views(ch.betas@);
    &&& point_power(level, q, 0, 0) != ch.xi@
    &&& point_power(level, q, 1, 0) != ch.xi@
    &&& fold_pair(side_quotient(a, ctx, level, q, 0), side_quotient(a, ctx, level, q, 1), level[q / 2].1@, betas[0])
        == prover_fold(start, betas, codes, pp.table@, lg, 0)[q / 2]
    &&& prover_fold(start, betas, codes, pp.table@, lg, (n - 1) as nat)[q / pow2(n) as int] == prover_fold(
        start,
        betas,
        codes,
        pp.table@,
        lg,
        (n - 1) as nat,
    )[0]
}

/// With every round's path authenticating, the folding rounds never fail on
/// a path.
proof fn lemma_chain_no_path_error(
    q: int,
    first: int,
    a: FoldQueryProof,
    ctx: FoldQueryContext,
    table: Seq<Vec<(Mersenne61Mont, Mersenne61Mont)>>,
    j: nat,
)
    requires
        forall|i: int|
            0 <= i < j ==> path_chain_ok(
                pairs_view(#[trigger] a.neighbor_paths@[i]@),
                a.neighbors@[i].0@,
                a.neighbors@[i].1@,
                q / pow2((i + 1) as nat) as int,
            ),
    ensures
        !(fold_chain(q, first, a, ctx, table, j) is Err && fold_chain(q, first, a, ctx, table, j)->Err_0 is NeighborPath),
    decreases j,
{
    if j > 0 {
        lemma_chain_no_path_error(q, first, a, ctx, table, (j - 1) as nat);
        assert(path_chain_ok(
            pairs_view(a.neighbor_paths@[j - 1]@),
            a.neighbors@[j - 1].0@,
            a.neighbors@[j - 1].1@,
            q / pow2(j) as int,
        ));
    }
}

/// Query `k` of the honest opening passes its check when the algebra it
/// rests on holds and the table's weights are nested.
#[verifier::spinoff_prover]
#[verifier::rlimit(40)]
proof fn lemma_honest_query_passes(
    pp: ZmV4Params,
    root: [u8; 32],
    code: Seq<int>,
    coef: Seq<int>,
    point: Seq<int>,
    ch: ZmV4Challenges,
    r: ZmV4Proof,
    k: int,
)
    requires
        pp.wf(),
        nested_weights(pp.table@, pp.log_rate as int, pp.log_len() as int),
        code.len() == pow2(pp.log_len()),
        root@ == codeword_root(code, pp.log_len()),
        ch.fits(pp.num_vars as nat),
        honest_proof(pp, code, coef, point, ch, r),
        0 <= k < ch.queries@.len(),
        query_algebra_holds(pp, root, code, coef, point, ch, r, k),
    ensures
        fold_query_outcome(query_position(ch, pp.log_len(), k), r.query_proofs@[k], v4_context(pp, root, r, ch), pp.table@)
            == Ok::<(), FoldQueryError>(()),
{
    let n = pp.num_vars as nat;
    let lg = pp.log_len();
    let q = query_position(ch, lg, k);
    let a = r.query_proofs@[k];
    let ctx = v4_context(pp, root, r, ch);
    let codes = honest_codes(pp, code, point);
    let start = honest_start(pp, code, coef, point, ch);
    let betas = views(ch.betas@);
    let table = pp.table@;
    lemma2_to64();
    lemma_pow2_pos(lg);
    lemma_v4_honest_authenticates(pp, code, coef, point, ch, r);
    assert(honest_answer(pp, code, codes, start, betas, q, a));
    // the degree-check quotient codeword spans the top level
    lemma_codes_len(pp, code, point, n - 2);
    lemma_batched_code_len(
        codes,
        ch.alpha@,
        views(ch.padding_lambdas@),
        table,
        n as int,
        pp.log_rate as int,
        (n - 2) as nat,
    );
    lemma_pow2_unfold(lg);
    assert(start.len() == pow2(lg));
    assert forall|i: int| 0 <= i < n - 1 implies #[trigger] codes[i].len() >= table[lg - 1 - i]@.len() by {
        lemma_codes_len(pp, code, point, i);
    }
    assert forall|i: int| 0 <= i <= n - 1 implies #[trigger] table[lg - 1 - i]@.len() == pow2((lg - 1 - i) as nat) by {}
    assert forall|i: int|
        1 <= i <= n - 1 implies (#[trigger] table[lg - i]@[q / pow2((i + 1) as nat) as int]).1@ == table[lg - 1
        - i]@[q / pow2((i + 1) as nat) as int].1@ by {
        lemma_div_pow2_below(q, lg, (i + 1) as nat);
    }
    assert(views(ctx.betas@) == betas);
    lemma_fold_chain_tracks_prover(q, a, ctx, table, start, codes, (n - 1) as nat);
    let first = prover_fold(start, betas, codes, table, lg as int, 0)[q / 2];
    lemma_chain_no_path_error(q, first, a, ctx, table, (n - 1) as nat);
}

/// Completeness of the scheme, resting on the algebra of each query and on
/// the degree identity: when the table's weights are nested, every query's
/// algebra holds and the degree identity at `xi` vanishes for the claimed
/// value, the verifier accepts the honest opening.
pub proof fn lemma_v4_honest_accepted(
    pp: ZmV4Params,
    root: [u8; 32],
    code: Seq<int>,
    coef: Seq<int>,
    point: Seq<int>,
    eval: int,
    ch: ZmV4Challenges,
    r: ZmV4Proof,
)
    requires
        pp.wf(),
        nested_weights(pp.table@, pp.log_rate as int, pp.log_len() as int),
        code.len() == pow2(pp.log_len()),
        root@ == codeword_root(code, pp.log_len()),
        ch.fits(pp.num_vars as nat),
        honest_proof(pp, code, coef, point, ch, r),
        forall|k: int| 0 <= k < ch.queries@.len() ==> #[trigger] query_algebra_holds(pp, root, code, coef, point, ch, r, k),
        degree_residue(ch.xi@, eval, point, views(r.xi_openings@), r.quotient_last@, pp.num_vars as nat) == 0,
    ensures
        v4_outcome(pp, root, point, eval, r, ch) == Ok::<(), ZmV4Error>(()),
{
    lemma_v4_honest_authenticates(pp, code, coef, point, ch, r);
    lemma_honest_queries_pass(pp, root, code, coef, point, ch, r, ch.queries@.len());
}

/// The first `m` queries of the honest opening pass.
proof fn lemma_honest_queries_pass(
    pp: ZmV4Params,
    root: [u8; 32],
    code: Seq<int>,
    coef: Seq<int>,
    point: Seq<int>,
    ch: ZmV4Challenges,
    r: ZmV4Proof,
    m: nat,
)
    requires
        pp.wf(),
        nested_weights(pp.table@, pp.log_rate as int, pp.log_len() as int),
        code.len() == pow2(pp.log_len()),
        root@ == codeword_root(code, pp.log_len()),
        ch.fits(pp.num_vars as nat),
        honest_proof(pp, code, coef, point, ch, r),
        forall|k: int| 0 <= k < ch.queries@.len() ==> #[trigger] query_algebra_holds(pp, root, code, coef, point, ch, r, k),
        m <= ch.queries@.len(),
    ensures
        queries_outcome(pp, root, r, ch, m) == Ok::<(), ZmV4Error>(()),
    decreases m,
{
    reveal(queries_outcome);
    if m > 0 {
        lemma_honest_queries_pass(pp, root, code, coef, point, ch, r, (m - 1) as nat);
        assert(query_algebra_holds(pp, root, code, coef, point, ch, r, m - 1));
        lemma_honest_query_passes(pp, root, code, coef, point, ch, r, m - 1);
    }
}

/// The tables of a domain of `2^lg_n` roots (as `fri_tables` builds them,
/// in bit-reversed order) have nested weights: below half its length, each
/// level from the second on holds the weights of the level under it.
pub proof fn lemma_fri_tables_nested(table: Seq<Vec<(Mersenne61Mont, Mersenne61Mont)>>, g: int, lg_n: nat)
    requires
        fri_tables_of(table, g, lg_n),
    ensures
        nested_weights(table, 1, lg_n as int),
{
    assert forall|l: int, x: int| 1 < l < lg_n && 0 <= x < pow2((l - 1) as nat) implies #[trigger] table[l]@[x].1@
        == table[l - 1]@[x].1@ by {
        let m = rev_bits(x, (l - 1) as nat);
        lemma_pow2_pos((l - 1) as nat);
        assert(x / (pow2((l - 1) as nat) as int) == 0) by {
            vstd::arithmetic::div_mod::lemma_basic_div(x, pow2((l - 1) as nat) as int);
        }
        assert(rev_bits(x, l as nat) == 2 * m);
        lemma_rev_bits_bound(x, (l - 1) as nat);
        lemma_pow2_unfold(l as nat);
        assert(x < level_len(l as nat) && x < level_len((l - 1) as nat));
        assert(0 <= 2 * m < level_len(l as nat));
        // level l's base squared is level l - 1's base
        let b = level_base(g, lg_n, l as nat);
        lemma_pow2_unfold((lg_n - l) as nat);
        lemma_fpow_fpow(g, pow2((lg_n - 1 - l) as nat), 2);
        vstd::arithmetic::mul::lemma_mul_is_commutative(pow2((lg_n - 1 - l) as nat) as int, 2);
        assert(fpow(b, 2) == level_base(g, lg_n, (l - 1) as nat));
        lemma_fpow_fpow(b, 2, m as nat);
        assert(root_level(g, lg_n, l as nat)[2 * m] == root_level(g, lg_n, (l - 1) as nat)[m]);
    }
}

/// When the first `m` queries pass, each of them passes its own check.
proof fn lemma_each_query_passes(vp: ZmV4Params, root: [u8; 32], proof: ZmV4Proof, ch: ZmV4Challenges, m: nat)
    requires
        queries_outcome(vp, root, proof, ch, m) is Ok,
    ensures
        forall|k: int|
            0 <= k < m ==> #[trigger] fold_query_outcome(
                query_position(ch, vp.log_len(), k),
                proof.query_proofs@[k],
                v4_context(vp, root, proof, ch),
                vp.table@,
            ) is Ok,
    decreases m,
{
    reveal(queries_outcome);
    if m > 0 {
        lemma_each_query_passes(vp, root, proof, ch, (m - 1) as nat);
    }
}

/// Soundness of the verifier's authentication: when it accepts, for every
/// query the codeword's pair authenticates up to the commitment's root, the
/// quotients climb to the quotients' root, and the neighbours of every round
/// (not only the first) authenticate along their path; and the degree
/// identity at `xi` vanishes.
pub proof fn lemma_v4_accepted_authenticates(
    vp: ZmV4Params,
    root: [u8; 32],
    point: Seq<int>,
    eval: int,
    proof: ZmV4Proof,
    ch: ZmV4Challenges,
)
    requires
        v4_outcome(vp, root, point, eval, proof, ch) is Ok,
    ensures
        degree_residue(ch.xi@, eval, point, views(proof.xi_openings@), proof.quotient_last@, vp.num_vars as nat) == 0,
        forall|k: int|
            0 <= k < ch.queries@.len() ==> {
                let a = #[trigger] proof.query_proofs@[k];
                let q = query_position(ch, vp.log_len(), k);
                &&& path_root_ok(pairs_view(a.codeword_path@), a.codeword_pair.0@, a.codeword_pair.1@, q, root@)
                &&& mmcs_climb(dseq(a.quotient_path@), views(a.quotients@), q / 2, (vp.log_len() - 1) as nat)
                    == proof.quotient_root@
                &&& forall|i: int| 0 <= i < vp.num_vars - 1 ==> #[trigger] neighbors_authenticated(a, q, i)
            },
{
    lemma_each_query_passes(vp, root, proof, ch, ch.queries@.len());
    assert forall|k: int| 0 <= k < ch.queries@.len() implies {
        let a = #[trigger] proof.query_proofs@[k];
        let q = query_position(ch, vp.log_len(), k);
        &&& path_root_ok(pairs_view(a.codeword_path@), a.codeword_pair.0@, a.codeword_pair.1@, q, root@)
        &&& mmcs_climb(dseq(a.quotient_path@), views(a.quotients@), q / 2, (vp.log_len() - 1) as nat)
            == proof.quotient_root@
        &&& forall|i: int| 0 <= i < vp.num_vars - 1 ==> #[trigger] neighbors_authenticated(a, q, i)
    } by {
        let q = query_position(ch, vp.log_len(), k);
        let a = proof.query_proofs@[k];
        assert(fold_query_outcome(q, a, v4_context(vp, root, proof, ch), vp.table@) is Ok);
        lemma_fold_query_accepted_authenticates(q, a, v4_context(vp, root, proof, ch), vp.table@);
    }
}

} // verus!
