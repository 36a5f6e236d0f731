//! The folding rounds of the degree-checked Zeromorph scheme: the prover folds
//! its codeword round by round and commits to every folded oracle; a query
//! reads the sibling pairs along its path; the verifier checks each pair
//! against the folded value of the previous round and the Merkle root of
//! its round.
use crate::fold::{
    basefold_get_query, basefold_one_round_by_interpolation_weights, exp_power_of_2, interpolate2,
    line_at, query_in_bounds, query_point, query_read_ok,
};
use crate::merkle::{
    authenticate_merkle_path_root, lemma_merkle_path_complete, level_index, merkelize, merkle_tree_of,
    pair_hi, pair_lo, pairs_view, path_pairs, path_root_ok, tree_view,
};
use crate::mersenne_61_mont::{
    finv, fmul, fneg, fpow, fsub, lemma_fpow_double, lemma_view_range, p, views, Mersenne61Mont,
};
use crate::domain::{RootOfUnity, MAX_LOG_ORDER};
use crate::p3_fri::{
    fri_tables_of, get_query_indices, leading_u32, level_base, level_bits, level_len, rev_bits, reverse_bits,
};
use crate::util::pow2_of;
use vstd::arithmetic::power2::{lemma2_to64, lemma_pow2_pos, lemma_pow2_strictly_increases, lemma_pow2_unfold, pow2};
use vstd::prelude::*;

verus! {

broadcast use lemma_view_range;

/// The table level that round `i` folds with.
pub open spec fn level_of(table: Seq<Vec<(Mersenne61Mont, Mersenne61Mont)>>, i: int) -> Seq<(Mersenne61Mont, Mersenne61Mont)> {
    table[table.len() - 1 - i]@
}

/// Oracle `i` is the fold of the previous oracle (the codeword for the first)
/// with challenge `i` and the table level of round `i`.
pub open spec fn folded_from(
    prev: Seq<Mersenne61Mont>,
    cur: Seq<Mersenne61Mont>,
    level: Seq<(Mersenne61Mont, Mersenne61Mont)>,
    c: int,
) -> bool {
    &&& cur.len() == prev.len() / 2
    &&& forall|j: int|
        0 <= j < cur.len() ==> #[trigger] cur[j]@ == line_at(level[j].0@, prev[2 * j]@, prev[2 * j + 1]@, level[j].1@, c)
}

/// The table has a level of `2^(n - i - 1)` points for each of the first `rounds` rounds.
pub open spec fn table_fits(table: Seq<Vec<(Mersenne61Mont, Mersenne61Mont)>>, n: nat, rounds: nat) -> bool {
    &&& rounds <= table.len()
    &&& forall|i: int| 0 <= i < rounds ==> #[trigger] level_of(table, i).len() == pow2((n - i - 1) as nat)
}

/// Folds the codeword round after round with the given challenges and builds
/// the Merkle tree of every folded oracle.
#[verifier::rlimit(40)]
pub fn commit_phase(
    f: &Vec<Mersenne61Mont>,
    challenges: &Vec<Mersenne61Mont>,
    num_vars: usize,
    num_rounds: usize,
    table_w_weights: &Vec<Vec<(Mersenne61Mont, Mersenne61Mont)>>,
) -> (r: (Vec<Vec<Vec<[u8; 32]>>>, Vec<Vec<Mersenne61Mont>>))
    requires
        f.len() == pow2(num_vars as nat),
        num_rounds < num_vars,
        challenges.len() >= num_rounds,
        table_fits(table_w_weights@, num_vars as nat, num_rounds as nat),
    ensures
        r.1@.len() == num_rounds,
        r.0@.len() == num_rounds,
        forall|i: int|
            0 <= i < num_rounds ==> folded_from(
                if i == 0 { f@ } else { r.1@[i - 1]@ },
                #[trigger] r.1@[i]@,
                level_of(table_w_weights@, i),
                challenges@[i]@,
            ),
        forall|i: int|
            0 <= i < num_rounds ==> #[trigger] tree_view(r.0@[i]@) == merkle_tree_of(
                views(r.1@[i]@),
                (num_vars - i - 1) as nat,
            ),
{
    let mut oracles: Vec<Vec<Mersenne61Mont>> = Vec::new();
    let mut trees: Vec<Vec<Vec<[u8; 32]>>> = Vec::new();
    let mut i: usize = 0;
    while i < num_rounds
        invariant
            f.len() == pow2(num_vars as nat),
            num_rounds < num_vars,
            challenges.len() >= num_rounds,
            table_fits(table_w_weights@, num_vars as nat, num_rounds as nat),
            i <= num_rounds,
            oracles@.len() == i,
            trees@.len() == i,
            i > 0 ==> oracles@[i - 1]@.len() == pow2((num_vars - i) as nat),
            forall|k: int|
                0 <= k < i ==> folded_from(
                    if k == 0 { f@ } else { oracles@[k - 1]@ },
                    #[trigger] oracles@[k]@,
                    level_of(table_w_weights@, k),
                    challenges@[k]@,
                ),
            forall|k: int|
                0 <= k < i ==> #[trigger] tree_view(trees@[k]@) == merkle_tree_of(
                    views(oracles@[k]@),
                    (num_vars - k - 1) as nat,
                ),
        decreases num_rounds - i,
    {
        proof {
            lemma_pow2_unfold((num_vars - i) as nat);
            assert(level_of(table_w_weights@, i as int).len() == pow2((num_vars - i - 1) as nat));
        }
        let next = if i == 0 {
            basefold_one_round_by_interpolation_weights(table_w_weights, i, f, challenges[i])
        } else {
            basefold_one_round_by_interpolation_weights(table_w_weights, i, &oracles[i - 1], challenges[i])
        };
        assert(folded_from(
            if i == 0 { f@ } else { oracles@[i - 1]@ },
            next@,
            level_of(table_w_weights@, i as int),
            challenges@[i as int]@,
        ));
        assert(next@.len() == pow2((num_vars - i - 1) as nat));
        let tree = merkelize(&next);
        let ghost old_o = oracles@;
        let ghost old_t = trees@;
        oracles.push(next);
        trees.push(tree);
        assert forall|k: int|
            0 <= k < i + 1 implies folded_from(
                if k == 0 { f@ } else { oracles@[k - 1]@ },
                #[trigger] oracles@[k]@,
                level_of(table_w_weights@, k),
                challenges@[k]@,
            ) by {
            if k < i {
                assert(oracles@[k] == old_o[k]);
                if k > 0 {
                    assert(oracles@[k - 1] == old_o[k - 1]);
                }
            } else if k > 0 {
                assert(oracles@[k - 1] == old_o[k - 1]);
            }
        }
        assert forall|k: int|
            0 <= k < i + 1 implies #[trigger] tree_view(trees@[k]@) == merkle_tree_of(
                views(oracles@[k]@),
                (num_vars - k - 1) as nat,
            ) by {
            if k < i {
                assert(trees@[k] == old_t[k]);
                assert(oracles@[k] == old_o[k]);
            }
        }
        i = i + 1;
    }
    (trees, oracles)
}

/// Each oracle has `2^(n - i - 1)` entries.
pub open spec fn oracles_fit(oracles: Seq<Vec<Mersenne61Mont>>, n: nat) -> bool {
    &&& oracles.len() < n
    &&& forall|i: int| 0 <= i < oracles.len() ==> #[trigger] oracles[i]@.len() == pow2((n - i - 1) as nat)
}

/// Draws the query positions from random field elements and reads, for each,
/// the sibling pairs along its path in every folded oracle.
pub fn query_phase(
    f_len: usize,
    oracles: &Vec<Vec<Mersenne61Mont>>,
    queries: &Vec<Mersenne61Mont>,
) -> (r: (Vec<(Vec<(Mersenne61Mont, Mersenne61Mont)>, Vec<usize>)>, Vec<usize>))
    requires
        exists|n: nat| #[trigger] pow2(n) == f_len && oracles_fit(oracles@, n),
    ensures
        r.1@.len() == queries@.len(),
        r.0@.len() == queries@.len(),
        forall|q: int|
            0 <= q < r.1@.len() ==> #[trigger] r.1@[q] == leading_u32(queries@[q]@) % (f_len as int),
        forall|q: int|
            0 <= q < r.0@.len() ==> {
                &&& (#[trigger] r.0@[q]).0@.len() == oracles@.len()
                &&& r.0@[q].1@.len() == oracles@.len()
                &&& forall|i: int|
                    0 <= i < oracles@.len() ==> query_read_ok(oracles@, r.1@[q] as int, i, #[trigger] r.0@[q].0@[i], r.0@[q].1@[i])
            },
{
    let ghost n = choose|n: nat| #[trigger] pow2(n) == f_len && oracles_fit(oracles@, n);
    proof {
        lemma_pow2_pos(n);
    }
    let queries_usize = get_query_indices(queries, f_len);
    let mut out: Vec<(Vec<(Mersenne61Mont, Mersenne61Mont)>, Vec<usize>)> = Vec::new();
    let mut q: usize = 0;
    while q < queries_usize.len()
        invariant
            pow2(n) == f_len,
            f_len > 0,
            oracles_fit(oracles@, n),
            queries_usize@.len() == queries@.len(),
            forall|k: int|
                0 <= k < queries_usize@.len() ==> #[trigger] queries_usize@[k] == leading_u32(queries@[k]@) % (f_len as int),
            q <= queries_usize@.len(),
            out@.len() == q,
            forall|k: int|
                0 <= k < q ==> {
                    &&& (#[trigger] out@[k]).0@.len() == oracles@.len()
                    &&& out@[k].1@.len() == oracles@.len()
                    &&& forall|i: int|
                        0 <= i < oracles@.len() ==> query_read_ok(oracles@, queries_usize@[k] as int, i, #[trigger] out@[k].0@[i], out@[k].1@[i])
                },
        decreases queries_usize@.len() - q,
    {
        let x = queries_usize[q];
        proof {
            lemma_query_in_bounds(oracles@, n, x as int);
        }
        let read = basefold_get_query(oracles, x);
        let ghost before = out@;
        out.push(read);
        assert forall|k: int|
            0 <= k < q + 1 implies {
                &&& (#[trigger] out@[k]).0@.len() == oracles@.len()
                &&& out@[k].1@.len() == oracles@.len()
                &&& forall|i: int|
                    0 <= i < oracles@.len() ==> query_read_ok(oracles@, queries_usize@[k] as int, i, #[trigger] out@[k].0@[i], out@[k].1@[i])
            } by {
            if k < q {
                assert(out@[k] == before[k]);
            }
        }
        q = q + 1;
    }
    (out, queries_usize)
}

/// A position of the codeword has its sibling pair inside every folded oracle.
proof fn lemma_query_in_bounds(oracles: Seq<Vec<Mersenne61Mont>>, n: nat, x: int)
    requires
        oracles_fit(oracles, n),
        0 <= x < pow2(n),
    ensures
        query_in_bounds(oracles, x),
{
    assert forall|i: int| 0 <= i < oracles.len() implies pair_hi(level_index(x, i)) < #[trigger] oracles[i]@.len() by {
        let m = (n - i - 1) as nat;
        lemma_pow2_pos((i + 1) as nat);
        vstd::arithmetic::power2::lemma_pow2_adds((i + 1) as nat, m);
        vstd::arithmetic::div_mod::lemma_multiply_divide_lt(x, pow2((i + 1) as nat) as int, pow2(m) as int);
        vstd::arithmetic::div_mod::lemma_div_pos_is_pos(x, pow2((i + 1) as nat) as int);
        if m > 0 {
            lemma_pow2_unfold(m);
        } else {
            lemma2_to64();
        }
    }
    assert(forall|i: int| 0 <= i < oracles.len() ==> pair_hi(level_index(x, i)) < #[trigger] oracles[i].len());
}

/// Why a query of the folding rounds is rejected, and in which round.
#[derive(Clone, Copy, Debug, PartialEq, Eq, Structural)]
pub enum QueryError {
    /// The point of the round and its negation coincide.
    DegeneratePoint(usize),
    /// The pair does not fold to the value read in the next round.
    FoldMismatch(usize),
    /// The pair does not authenticate against the round's root.
    MerklePath(usize),
}

/// The even member of the pair holding the query's ancestor in round `i`.
pub open spec fn round_index(query: int, i: nat) -> int {
    pair_lo(query / pow2(i) as int)
}

/// The point of round `i`: the domain point at the bit reversal of the
/// round's index, in the domain of `2^(lg_n - i)` points generated by
/// `base^(2^i)`.
pub open spec fn round_point(query: int, i: nat, lg_n: nat, base: int) -> int {
    let block = pow2((lg_n - i) as nat) as int;
    let li = rev_bits(round_index(query, i), (lg_n - i) as nat) % block;
    let e = fpow(fpow(base, pow2(i)), (li % (block / 2)) as nat);
    if li >= block / 2 {
        fneg(e)
    } else {
        e
    }
}

/// The values of the pairs read in each round.
pub open spec fn query_views(q: Seq<Vec<Mersenne61Mont>>) -> Seq<Seq<int>> {
    q.map_values(|v: Vec<Mersenne61Mont>| views(v@))
}

/// The outcome of round `i` of the check, or `None` when it passes.
#[verifier::opaque]
pub open spec fn round_error(
    query: int,
    paths: Seq<Vec<([u8; 32], [u8; 32])>>,
    challenges: Seq<Mersenne61Mont>,
    queries: Seq<Seq<int>>,
    lg_n: nat,
    g: int,
    roots: Seq<[u8; 32]>,
    i: nat,
) -> Option<QueryError> {
    let x0 = round_point(query, i, lg_n, g);
    let x1 = fneg(x0);
    let idx = round_index(query, i);
    let q = queries[i as int];
    let next = queries[i as int + 1];
    if x0 == x1 {
        Some(QueryError::DegeneratePoint(i as usize))
    } else if line_at(x0, q[0], q[1], finv(fsub(x1, x0)), challenges[i as int]@) != next[(idx / 2) % 2] {
        Some(QueryError::FoldMismatch(i as usize))
    } else if i > 0 && !path_root_ok(pairs_view(paths[i - 1]@), q[0], q[1], idx, roots[i - 1]@) {
        Some(QueryError::MerklePath(i as usize))
    } else {
        None
    }
}

/// The outcome of the first `k` rounds of the check: the error of the first
/// failing round, or success.
pub open spec fn rounds_outcome(
    query: int,
    paths: Seq<Vec<([u8; 32], [u8; 32])>>,
    challenges: Seq<Mersenne61Mont>,
    queries: Seq<Seq<int>>,
    lg_n: nat,
    g: int,
    roots: Seq<[u8; 32]>,
    k: nat,
) -> Result<(), QueryError>
    decreases k,
{
    if k == 0 {
        Ok(())
    } else {
        match rounds_outcome(query, paths, challenges, queries, lg_n, g, roots, (k - 1) as nat) {
            Err(e) => Err(e),
            Ok(()) => match round_error(query, paths, challenges, queries, lg_n, g, roots, (k - 1) as nat) {
                Some(e) => Err(e),
                None => Ok(()),
            },
        }
    }
}

/// Once a round fails, the outcome of more rounds is that failure.
proof fn lemma_rounds_outcome_stays(
    query: int,
    paths: Seq<Vec<([u8; 32], [u8; 32])>>,
    challenges: Seq<Mersenne61Mont>,
    queries: Seq<Seq<int>>,
    lg_n: nat,
    g: int,
    roots: Seq<[u8; 32]>,
    j: nat,
    k: nat,
)
    requires
        j <= k,
        rounds_outcome(query, paths, challenges, queries, lg_n, g, roots, j) is Err,
    ensures
        rounds_outcome(query, paths, challenges, queries, lg_n, g, roots, k) == rounds_outcome(
            query,
            paths,
            challenges,
            queries,
            lg_n,
            g,
            roots,
            j,
        ),
    decreases k - j,
{
    if j < k {
        lemma_rounds_outcome_stays(query, paths, challenges, queries, lg_n, g, roots, j, (k - 1) as nat);
    }
}

/// The shape of a query's data: a pair per round and one more, a path and a
/// root per round after the first, a challenge per round, and a domain of
/// `2^lg_n` points, more than the rounds.
pub open spec fn query_shape(
    paths: Seq<Vec<([u8; 32], [u8; 32])>>,
    challenges: Seq<Mersenne61Mont>,
    queries: Seq<Vec<Mersenne61Mont>>,
    num_rounds: nat,
    lg_n: nat,
    roots: Seq<[u8; 32]>,
) -> bool {
    &&& queries.len() > num_rounds
    &&& forall|i: int| 0 <= i <= num_rounds ==> #[trigger] queries[i]@.len() >= 2
    &&& challenges.len() >= num_rounds
    &&& paths.len() + 1 >= num_rounds
    &&& roots.len() + 1 >= num_rounds
    &&& forall|i: int| 0 <= i < paths.len() ==> #[trigger] paths[i]@.len() >= 1
    &&& num_rounds < lg_n
    &&& lg_n <= MAX_LOG_ORDER
}

/// Round `i` of the check of one query.
fn check_round(
    query_usize: usize,
    cur_index: usize,
    base: Mersenne61Mont,
    i: usize,
    query_merkle_paths: &Vec<Vec<([u8; 32], [u8; 32])>>,
    fold_challenges: &Vec<Mersenne61Mont>,
    queries: &Vec<Vec<Mersenne61Mont>>,
    num_rounds: usize,
    lg_n: usize,
    roots: &Vec<[u8; 32]>,
    Ghost(g): Ghost<int>,
) -> (r: Result<(), QueryError>)
    requires
        query_shape(query_merkle_paths@, fold_challenges@, queries@, num_rounds as nat, lg_n as nat, roots@),
        i < num_rounds,
        base@ == fpow(g, pow2(i as nat)),
        cur_index == query_usize as int / pow2(i as nat) as int,
    ensures
        match r {
            Ok(()) => round_error(query_usize as int, query_merkle_paths@, fold_challenges@, query_views(queries@), lg_n as nat, g, roots@, i as nat) is None,
            Err(e) => round_error(query_usize as int, query_merkle_paths@, fold_challenges@, query_views(queries@), lg_n as nat, g, roots@, i as nat) == Some(e),
        },
{
    proof {
        reveal(round_error);
        crate::merkle::lemma_xor_one(cur_index);
        lemma_pow2_pos(i as nat);
        lemma2_to64();
        vstd::arithmetic::power2::lemma2_to64_rest();
        if (lg_n - i) < MAX_LOG_ORDER {
            lemma_pow2_strictly_increases((lg_n - i) as nat, MAX_LOG_ORDER as nat);
        }
        lemma_pow2_unfold((lg_n - i) as nat);
        if (lg_n - i - 1) > 0 {
            lemma_pow2_pos((lg_n - i - 1) as nat);
        }
    }
    let temp = cur_index;
    let mut lo = cur_index;
    let mut other_index = cur_index ^ 1;
    if other_index < lo {
        lo = other_index;
        other_index = temp;
    }
    assert(lo == round_index(query_usize as int, i as nat));
    let ri0 = reverse_bits(lo, lg_n - i);
    let block = pow2_of(lg_n - i);
    let x0 = query_point(block, ri0, lg_n - i - 1, base);
    let x1 = x0.neg();
    assert(x0@ == round_point(query_usize as int, i as nat, lg_n as nat, g));
    let ghost e = round_error(query_usize as int, query_merkle_paths@, fold_challenges@, query_views(queries@), lg_n as nat, g, roots@, i as nat);
    if x0.equals(&x1) {
        assert(e == Some(QueryError::DegeneratePoint(i)));
        return Err(QueryError::DegeneratePoint(i));
    }
    let q = &queries[i];
    let res = interpolate2([(x0, q[0]), (x1, q[1])], fold_challenges[i]);
    let next = &queries[i + 1];
    proof {
        crate::merkle::lemma_xor_one(lo);
    }
    let sel = (lo >> 1) % 2;
    if !res.equals(&next[sel]) {
        assert(e == Some(QueryError::FoldMismatch(i)));
        return Err(QueryError::FoldMismatch(i));
    }
    if i > 0 {
        if !authenticate_merkle_path_root(&query_merkle_paths[i - 1], (q[0], q[1]), lo, &roots[i - 1]) {
            assert(e == Some(QueryError::MerklePath(i)));
            return Err(QueryError::MerklePath(i));
        }
    }
    assert(e is None);
    Ok(())
}

/// Checks one query through the folding rounds: in round `i` the pair read
/// at the query's ancestor is interpolated at the round's point and its
/// negation, evaluated at the round's challenge, and compared with the value
/// read in the next round; after the first round the pair must also
/// authenticate against the round's root. The first failing round decides
/// the error.
pub fn verifier_query_phase(
    query_usize: usize,
    query_merkle_paths: &Vec<Vec<([u8; 32], [u8; 32])>>,
    fold_challenges: &Vec<Mersenne61Mont>,
    queries: &Vec<Vec<Mersenne61Mont>>,
    num_rounds: usize,
    num_vars: usize,
    log_rate: usize,
    roots: &Vec<[u8; 32]>,
    d: &RootOfUnity,
) -> (r: Result<(), QueryError>)
    requires
        num_vars + log_rate <= d.log_order_view(),
        query_shape(
            query_merkle_paths@,
            fold_challenges@,
            queries@,
            num_rounds as nat,
            (num_vars + log_rate) as nat,
            roots@,
        ),
    ensures
        r == rounds_outcome(
            query_usize as int,
            query_merkle_paths@,
            fold_challenges@,
            query_views(queries@),
            (num_vars + log_rate) as nat,
            d.gen((num_vars + log_rate) as nat),
            roots@,
            num_rounds as nat,
        ),
        match r {
            Ok(()) => forall|i: int|
                0 <= i < num_rounds ==> #[trigger] round_error(
                    query_usize as int,
                    query_merkle_paths@,
                    fold_challenges@,
                    query_views(queries@),
                    (num_vars + log_rate) as nat,
                    d.gen((num_vars + log_rate) as nat),
                    roots@,
                    i as nat,
                ) is None,
            Err(e) => exists|i: int|
                0 <= i < num_rounds && #[trigger] round_error(
                    query_usize as int,
                    query_merkle_paths@,
                    fold_challenges@,
                    query_views(queries@),
                    (num_vars + log_rate) as nat,
                    d.gen((num_vars + log_rate) as nat),
                    roots@,
                    i as nat,
                ) == Some(e) && forall|k: int|
                    0 <= k < i ==> #[trigger] round_error(
                        query_usize as int,
                        query_merkle_paths@,
                        fold_challenges@,
                        query_views(queries@),
                        (num_vars + log_rate) as nat,
                        d.gen((num_vars + log_rate) as nat),
                        roots@,
                        k as nat,
                    ) is None,
        },
{
    let lg_n = num_vars + log_rate;
    let ghost g = d.gen(lg_n as nat);
    let mut base = d.generator(lg_n);
    proof {
        crate::mersenne_61_mont::lemma_fpow_range(d.root_view(), pow2((d.log_order_view() - lg_n) as nat));
        assert(fpow(g, 0) == 1);
        assert(fpow(g, 1) == fmul(g, fpow(g, 0)));
        vstd::arithmetic::div_mod::lemma_small_mod(g as nat, p() as nat);
        lemma2_to64();
        assert(pow2(0) == 1);
    }
    let mut cur_index = query_usize;
    let mut i: usize = 0;
    while i < num_rounds
        invariant
            query_shape(query_merkle_paths@, fold_challenges@, queries@, num_rounds as nat, lg_n as nat, roots@),
            lg_n == num_vars + log_rate,
            g == d.gen(lg_n as nat),
            i <= num_rounds,
            base@ == fpow(g, pow2(i as nat)),
            cur_index == query_usize as int / pow2(i as nat) as int,
            forall|k: int|
                0 <= k < i ==> #[trigger] round_error(query_usize as int, query_merkle_paths@, fold_challenges@, query_views(queries@), lg_n as nat, g, roots@, k as nat) is None,
            rounds_outcome(query_usize as int, query_merkle_paths@, fold_challenges@, query_views(queries@), lg_n as nat, g, roots@, i as nat) == Ok::<(), QueryError>(()),
        decreases num_rounds - i,
    {
        let res = check_round(query_usize, cur_index, base, i, query_merkle_paths, fold_challenges, queries, num_rounds, lg_n, roots, Ghost(g));
        match res {
            Err(e) => {
                let ghost ii: int = i as int;
                assert(round_error(query_usize as int, query_merkle_paths@, fold_challenges@, query_views(queries@), lg_n as nat, g, roots@, ii as nat) == Some(e));
                assert(forall|k: int| 0 <= k < ii ==> #[trigger] round_error(query_usize as int, query_merkle_paths@, fold_challenges@, query_views(queries@), lg_n as nat, g, roots@, k as nat) is None);
                assert(0 <= ii < num_rounds);
                proof {
                    lemma_rounds_outcome_stays(query_usize as int, query_merkle_paths@, fold_challenges@, query_views(queries@), lg_n as nat, g, roots@, (i + 1) as nat, num_rounds as nat);
                }
                return Err(e);
            },
            Ok(()) => {},
        }
        proof {
            lemma_pow2_pos(i as nat);
            lemma_fpow_double(g, pow2(i as nat));
            lemma_pow2_unfold((i + 1) as nat);
            vstd::arithmetic::mul::lemma_mul_is_commutative(2, pow2(i as nat) as int);
            vstd::arithmetic::div_mod::lemma_div_denominator(query_usize as int, pow2(i as nat) as int, 2);
            vstd::arithmetic::mul::lemma_mul_is_commutative(pow2(i as nat) as int, 2);
            crate::merkle::lemma_xor_one(cur_index);
        }
        base = base.mul(base);
        cur_index = cur_index >> 1;
        i = i + 1;
    }
    Ok(())
}

/// The codeword folded `i` times: the codeword itself before the first round.
pub open spec fn oracle_before(f: Seq<Mersenne61Mont>, oracles: Seq<Vec<Mersenne61Mont>>, i: nat) -> Seq<Mersenne61Mont> {
    if i == 0 {
        f
    } else {
        oracles[i - 1]@
    }
}

/// Round `i`'s answer to `query` is the honest one: its pair is the pair at
/// the query's index in the codeword folded `i` times, the next round's pair
/// holds the next fold at half that index, and after the first round the
/// path and the root are those of the Merkle tree of the codeword the pair
/// is read from.
pub open spec fn honest_round(
    query: int,
    f: Seq<Mersenne61Mont>,
    oracles: Seq<Vec<Mersenne61Mont>>,
    queries: Seq<Seq<int>>,
    paths: Seq<Vec<([u8; 32], [u8; 32])>>,
    roots: Seq<[u8; 32]>,
    lg_n: nat,
    i: nat,
) -> bool {
    let prev = oracle_before(f, oracles, i);
    let idx = round_index(query, i);
    let t = merkle_tree_of(views(prev), (lg_n - i) as nat);
    &&& queries[i as int][0] == prev[idx]@
    &&& queries[i as int][1] == prev[idx + 1]@
    &&& queries[i + 1 as int][(idx / 2) % 2] == oracles[i as int]@[idx / 2]@
    &&& (i > 0 ==> pairs_view(paths[i - 1]@) == path_pairs(t, idx, lg_n - i - 1) && roots[i - 1]@ == t[lg_n - i
        - 1][0])
}

/// The table level round `i` folds with holds, at the query's pair, the
/// verifier's point `x` of the round, distinct from `-x`, and the weight
/// `1 / (-x - x)` of the pair `(x, -x)`.
pub open spec fn table_matches(
    table: Seq<Vec<(Mersenne61Mont, Mersenne61Mont)>>,
    query: int,
    lg_n: nat,
    g: int,
    i: nat,
) -> bool {
    let x0 = round_point(query, i, lg_n, g);
    let e = level_of(table, i as int)[round_index(query, i) / 2];
    &&& x0 != fneg(x0)
    &&& e.0@ == x0
    &&& e.1@ == finv(fsub(fneg(x0), x0))
}

/// The codeword folded `i` times has `2^(lg_n - i)` entries.
proof fn lemma_oracle_lengths(
    f: Seq<Mersenne61Mont>,
    oracles: Seq<Vec<Mersenne61Mont>>,
    table: Seq<Vec<(Mersenne61Mont, Mersenne61Mont)>>,
    challenges: Seq<Mersenne61Mont>,
    lg_n: nat,
    i: nat,
)
    requires
        i <= lg_n,
        f.len() == pow2(lg_n),
        forall|j: int|
            0 <= j < i ==> folded_from(
                #[trigger] oracle_before(f, oracles, j as nat),
                oracles[j]@,
                level_of(table, j),
                challenges[j]@,
            ),
    ensures
        oracle_before(f, oracles, i).len() == pow2((lg_n - i) as nat),
    decreases i,
{
    if i > 0 {
        lemma_oracle_lengths(f, oracles, table, challenges, lg_n, (i - 1) as nat);
        assert(folded_from(oracle_before(f, oracles, (i - 1) as nat), oracles[i - 1]@, level_of(table, i - 1), challenges[i - 1]@));
        lemma_pow2_unfold((lg_n - i + 1) as nat);
    }
}

/// An honest round passes the verifier's check of round `i`.
#[verifier::rlimit(40)]
proof fn lemma_honest_round_passes(
    query: int,
    paths: Seq<Vec<([u8; 32], [u8; 32])>>,
    challenges: Seq<Mersenne61Mont>,
    queries: Seq<Seq<int>>,
    lg_n: nat,
    g: int,
    roots: Seq<[u8; 32]>,
    f: Seq<Mersenne61Mont>,
    oracles: Seq<Vec<Mersenne61Mont>>,
    table: Seq<Vec<(Mersenne61Mont, Mersenne61Mont)>>,
    i: nat,
)
    requires
        i + 1 < lg_n,
        0 <= query < pow2(lg_n),
        oracle_before(f, oracles, i).len() == pow2((lg_n - i) as nat),
        folded_from(oracle_before(f, oracles, i), oracles[i as int]@, level_of(table, i as int), challenges[i as int]@),
        honest_round(query, f, oracles, queries, paths, roots, lg_n, i),
        table_matches(table, query, lg_n, g, i),
    ensures
        round_error(query, paths, challenges, queries, lg_n, g, roots, i) is None,
{
    reveal(round_error);
    let prev = oracle_before(f, oracles, i);
    let y = query / pow2(i) as int;
    let idx = round_index(query, i);
    lemma_pow2_pos(i);
    vstd::arithmetic::power2::lemma_pow2_adds(i, (lg_n - i) as nat);
    vstd::arithmetic::div_mod::lemma_div_pos_is_pos(query, pow2(i) as int);
    vstd::arithmetic::div_mod::lemma_multiply_divide_lt(query, pow2(i) as int, pow2((lg_n - i) as nat) as int);
    lemma_pow2_unfold((lg_n - i) as nat);
    assert(0 <= y < pow2((lg_n - i) as nat));
    assert(idx == y - y % 2);
    assert(idx % 2 == 0 && 0 <= idx && idx + 1 < prev.len());
    let j = idx / 2;
    assert(2 * j == idx);
    assert(0 <= j < oracles[i as int]@.len());
    assert(oracles[i as int]@[j]@ == line_at(
        level_of(table, i as int)[j].0@,
        prev[2 * j]@,
        prev[2 * j + 1]@,
        level_of(table, i as int)[j].1@,
        challenges[i as int]@,
    ));
    if i > 0 {
        let v = views(prev);
        lemma_merkle_path_complete(v, (lg_n - i) as nat, idx);
        assert(pair_lo(idx) == idx && pair_hi(idx) == idx + 1);
        assert(v[idx] == prev[idx]@ && v[idx + 1] == prev[idx + 1]@);
    }
}

/// Completeness of the folding rounds: when the codewords are folded as the
/// prover folds them, every round's answer to the query is the honest one,
/// and each round's table level holds the verifier's point and weight at
/// the query's pair, the first `k` rounds of the verifier's check pass.
pub proof fn lemma_honest_rounds_pass(
    query: int,
    paths: Seq<Vec<([u8; 32], [u8; 32])>>,
    challenges: Seq<Mersenne61Mont>,
    queries: Seq<Seq<int>>,
    lg_n: nat,
    g: int,
    roots: Seq<[u8; 32]>,
    f: Seq<Mersenne61Mont>,
    oracles: Seq<Vec<Mersenne61Mont>>,
    table: Seq<Vec<(Mersenne61Mont, Mersenne61Mont)>>,
    k: nat,
)
    requires
        k < lg_n,
        0 <= query < pow2(lg_n),
        f.len() == pow2(lg_n),
        forall|i: int|
            0 <= i < k ==> folded_from(
                #[trigger] oracle_before(f, oracles, i as nat),
                oracles[i]@,
                level_of(table, i),
                challenges[i]@,
            ),
        forall|i: int| 0 <= i < k ==> #[trigger] honest_round(query, f, oracles, queries, paths, roots, lg_n, i as nat),
        forall|i: int| 0 <= i < k ==> #[trigger] table_matches(table, query, lg_n, g, i as nat),
    ensures
        rounds_outcome(query, paths, challenges, queries, lg_n, g, roots, k) == Ok::<(), QueryError>(()),
    decreases k,
{
    if k > 0 {
        let i = (k - 1) as nat;
        lemma_honest_rounds_pass(query, paths, challenges, queries, lg_n, g, roots, f, oracles, table, i);
        lemma_oracle_lengths(f, oracles, table, challenges, lg_n, i);
        assert(folded_from(oracle_before(f, oracles, i), oracles[i as int]@, level_of(table, i as int), challenges[i as int]@));
        assert(honest_round(query, f, oracles, queries, paths, roots, lg_n, i));
        assert(table_matches(table, query, lg_n, g, i));
        lemma_honest_round_passes(query, paths, challenges, queries, lg_n, g, roots, f, oracles, table, i);
    }
}

/// The tables that `fri_tables` builds hold the verifier's points: for the
/// domain of `2^lg_n` points generated by an element `g` whose `2^lg_n`-th
/// power is one, the level each round before the last folds with holds, at
/// the pair of any query, the round's point and its weight.
pub proof fn lemma_fri_tables_match(
    table: Seq<Vec<(Mersenne61Mont, Mersenne61Mont)>>,
    g: int,
    lg_n: nat,
    query: int,
    i: nat,
)
    requires
        fri_tables_of(table, g, lg_n),
        fpow(g, pow2(lg_n)) == 1,
        0 <= query < pow2(lg_n),
        i + 1 < lg_n,
    ensures
        table_matches(table, query, lg_n, g, i),
{
    let t = (lg_n - 1 - i) as nat;
    let y = query / pow2(i) as int;
    let idx = round_index(query, i);
    lemma_pow2_pos(i);
    vstd::arithmetic::power2::lemma_pow2_adds(i, (lg_n - i) as nat);
    vstd::arithmetic::div_mod::lemma_div_pos_is_pos(query, pow2(i) as int);
    vstd::arithmetic::div_mod::lemma_multiply_divide_lt(query, pow2(i) as int, pow2((lg_n - i) as nat) as int);
    lemma_pow2_unfold((lg_n - i) as nat);
    assert(lg_n - i == t + 1);
    assert(0 <= y < 2 * pow2(t));
    let j = idx / 2;
    assert(idx == 2 * j && 0 <= j < pow2(t));
    assert(level_len(t) == pow2(t) && level_bits(t) == t);
    assert(level_of(table, i as int) == table[t as int]@);
    let r = rev_bits(j, t);
    crate::p3_fri::lemma_rev_bits_bound(j, t);
    crate::p3_fri::lemma_rev_bits_double(j, t);
    let base = fpow(g, pow2(i));
    assert(level_base(g, lg_n, t) == base);
    let x = fpow(base, r as nat);
    assert(table[t as int]@[j].0@ == x);
    // the verifier's point
    let block = pow2(t + 1) as int;
    assert(rev_bits(idx, t + 1) == r);
    vstd::arithmetic::div_mod::lemma_small_mod(r as nat, block as nat);
    vstd::arithmetic::div_mod::lemma_small_mod(r as nat, (block / 2) as nat);
    assert(round_point(query, i, lg_n, g) == x);
    // the point is not zero, so it is not its own negation
    crate::p3_fri::lemma_fpow_fpow(g, pow2(i), r as nat);
    assert(pow2(i) * r <= pow2(i) * pow2(t)) by (nonlinear_arith)
        requires
            0 <= r < pow2(t),
    ;
    vstd::arithmetic::power2::lemma_pow2_adds(i, t);
    vstd::arithmetic::power2::lemma_pow2_strictly_increases(i + t, lg_n);
    crate::mersenne_61_mont::lemma_fpow_nonzero(g, (pow2(i) * r) as nat, pow2(lg_n));
    crate::mersenne_61_mont::lemma_fpow_range(base, r as nat);
    assert(fneg(x) == p() - x);
    assert(fsub(0, x) == fneg(x));
}

} // verus!
