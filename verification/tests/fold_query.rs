use plonkish_backend::hash::{hash_bytes, hash_element, hash_elements, hash_pair};
use plonkish_backend::mersenne_61_mont::Mersenne61Mont;
use plonkish_backend::merkle::merkelize;
use plonkish_backend::mersenne_61_mont::MODULUS;
use plonkish_backend::mmcs::merkelize_mmcs;
use plonkish_backend::zeromorph_fri_v4::{
    batched_degree_codeword, degree_quotient_codeword, expected_zero, fold, fold_query_answer, fold_with_quotient,
    quotient_chain,
    verify_fold_query, xi_openings, FoldQueryContext, FoldQueryError, FoldQueryProof,
};

fn fe(x: u64) -> Mersenne61Mont {
    Mersenne61Mont::from_int(x)
}

fn one() -> Mersenne61Mont {
    fe(1)
}

/// The table of a code of eight positions: the last level holds the point
/// 3 with weight 5 at every pair.
fn table() -> Vec<Vec<(Mersenne61Mont, Mersenne61Mont)>> {
    vec![vec![(fe(1), fe(1))], vec![(fe(1), fe(1)); 2], vec![(fe(3), fe(5)); 4]]
}

/// `(f - o0) w / (x - xi) + alpha w (q0 pad_x - o1 pad_xi) / (x - xi)` with
/// `w = 1 + lambda x`, `pad_x = 1 + l0 x` and `pad_xi = 1 + l0 xi`, for two
/// variables.
fn batched(f: Mersenne61Mont, x: Mersenne61Mont, ctx: &FoldQueryContext, q0: Mersenne61Mont) -> Mersenne61Mont {
    let w = one().add(ctx.lambda.mul(x));
    let d = x.sub(ctx.xi);
    let pad_x = one().add(ctx.padding_lambdas[0].mul(x));
    let pad_xi = one().add(ctx.padding_lambdas[0].mul(ctx.xi));
    let head = f.sub(ctx.xi_openings[0]).mul(w).div(d);
    let num = q0.mul(pad_x).sub(ctx.xi_openings[1].mul(pad_xi));
    head.add(ctx.alpha.mul(w).mul(num).mul(d.inverse()))
}

fn fold_pair(a: Mersenne61Mont, b: Mersenne61Mont, w: Mersenne61Mont, beta: Mersenne61Mont) -> Mersenne61Mont {
    a.add(b).mul(Mersenne61Mont::inverse_2()).add(b.sub(a).mul(w).mul(beta))
}

/// An honest query 0 on two variables with rate one half.
fn honest() -> (FoldQueryProof, FoldQueryContext) {
    let (a0, a1, q0) = (fe(11), fe(12), fe(13));
    let h = hash_elements(a0, a1);
    let sib = hash_element(fe(99));
    let codeword_root = hash_pair(&h, &sib);
    let default = hash_bytes(&vec![0u8; 32]);
    let (s0, s1) = (hash_element(fe(21)), hash_element(fe(22)));
    let o1 = hash_pair(&hash_pair(&hash_element(q0), &s0), &default);
    let quotient_root = hash_pair(&hash_pair(&o1, &s1), &default);
    let mut ctx = FoldQueryContext {
        num_vars: 2,
        log_rate: 1,
        codeword_root,
        quotient_root,
        xi: fe(7),
        alpha: fe(2),
        lambda: fe(3),
        padding_lambdas: vec![fe(4)],
        xi_openings: vec![fe(6), fe(8)],
        betas: vec![fe(9), fe(10)],
        folded_last: fe(0),
    };
    let b0 = batched(a0, fe(3), &ctx, q0);
    let b1 = batched(a1, fe(3).neg(), &ctx, q0);
    let first = fold_pair(b0, b1, fe(5), fe(9));
    // the neighbour at the query is the fold plus the quotient
    let (n0, n1) = (first.add(q0), fe(40));
    ctx.folded_last = fold_pair(n0, n1, fe(5), fe(10));
    let nh = hash_elements(n0, n1);
    let proof = FoldQueryProof {
        codeword_pair: (a0, a1),
        codeword_path: vec![(h, sib)],
        quotient_path: vec![s0, s1],
        quotients: vec![q0],
        neighbors: vec![(n0, n1)],
        neighbor_paths: vec![vec![(nh, nh)]],
    };
    (proof, ctx)
}

#[test]
fn verify_fold_query_accepts_an_honest_query() {
    let (proof, ctx) = honest();
    assert_eq!(verify_fold_query(0, &proof, &ctx, &table()), Ok(()));
}

#[test]
fn verify_fold_query_rejects_each_broken_part() {
    let (proof, mut ctx) = honest();
    ctx.folded_last = ctx.folded_last.add(one());
    assert_eq!(verify_fold_query(0, &proof, &ctx, &table()), Err(FoldQueryError::LastFold));

    let (mut proof, ctx) = honest();
    proof.neighbors[0].0 = proof.neighbors[0].0.add(one());
    assert_eq!(verify_fold_query(0, &proof, &ctx, &table()), Err(FoldQueryError::Neighbor(0)));

    let (mut proof, ctx) = honest();
    let other = hash_element(fe(5));
    proof.neighbor_paths[0] = vec![(other, other)];
    assert_eq!(verify_fold_query(0, &proof, &ctx, &table()), Err(FoldQueryError::NeighborPath(0)));

    let (mut proof, ctx) = honest();
    proof.codeword_pair.1 = fe(0);
    assert_eq!(verify_fold_query(0, &proof, &ctx, &table()), Err(FoldQueryError::CodewordPath));

    let (mut proof, ctx) = honest();
    proof.quotients[0] = fe(14);
    assert_eq!(verify_fold_query(0, &proof, &ctx, &table()), Err(FoldQueryError::QuotientPath));

    let (proof, mut ctx) = honest();
    ctx.xi = fe(3).neg();
    assert_eq!(verify_fold_query(0, &proof, &ctx, &table()), Err(FoldQueryError::Pole));
}

#[test]
fn expected_zero_is_the_residue_of_the_degree_identity() {
    // one variable: o0 - eval (1 + xi) - q (xi - u0 (1 + xi)) = 10 - 9 + 13
    let r = expected_zero(fe(2), fe(3), &vec![fe(5)], &vec![fe(10)], fe(1), 1);
    assert_eq!(r.as_canonical_u64(), 14);
    let r = expected_zero(fe(2), fe(3), &vec![fe(5)], &vec![fe(MODULUS - 4)], fe(1), 1);
    assert_eq!(r.as_canonical_u64(), 0);
    // two variables: 20 - 15 - 1 (2 - 3 * 3) - 1 (4 * 3 - 4 * 15) = 60
    let r = expected_zero(fe(2), fe(1), &vec![fe(3), fe(4)], &vec![fe(20), fe(1)], fe(1), 2);
    assert_eq!(r.as_canonical_u64(), 60);
}

fn vals(xs: &[Mersenne61Mont]) -> Vec<u64> {
    xs.iter().map(|x| x.as_canonical_u64()).collect()
}

fn neg(x: u64) -> u64 {
    MODULUS - x
}

#[test]
fn quotient_chain_divides_by_each_coordinate() {
    // weights one: quotient = odd - even, remainder at 3 = -2 even + 3 odd
    let table = vec![vec![], vec![(fe(1), fe(1)); 2], vec![(fe(1), fe(1)); 4]];
    let code: Vec<Mersenne61Mont> = [1, 3, 5, 9, 2, 2, 7, 9].iter().map(|&x| fe(x)).collect();
    let coef: Vec<Mersenne61Mont> = [1, 4, 2, 7].iter().map(|&x| fe(x)).collect();
    let (codes, coefs, last) = quotient_chain(&code, &coef, &vec![fe(3)], &table, 2, 1);
    assert_eq!(codes.len(), 1);
    assert_eq!(vals(&codes[0]), vec![0, neg(3), neg(2), neg(6)]);
    assert_eq!(vals(&coefs[0]), vec![3, 5]);
    // the remainder (2, -2, -4, -10) divided once more
    assert_eq!(vals(&last), vec![neg(4), 1]);
}

#[test]
fn batched_degree_codeword_expands_with_the_points() {
    let table = vec![vec![], vec![(fe(1), fe(1)); 2], (1..5).map(|t| (fe(t), fe(1))).collect()];
    let codes = vec![vec![fe(1); 4]];
    let f_code: Vec<Mersenne61Mont> = (0..8).map(fe).collect();
    // entry 2j + s: 2 (1 + 3 (+-t_j)) + f[2j + s]
    let r = batched_degree_codeword(&codes, &f_code, fe(2), &vec![fe(3)], &table, 2, 1);
    assert_eq!(vals(&r), vec![8, neg(3), 16, neg(7), 24, neg(11), 32, neg(15)]);
}

#[test]
fn xi_openings_evaluate_and_batch() {
    // f = 1 + 2X at 3 is 7; q = 5 + X at 9 is 14; 7 + 2 (1 + 4 * 3) 14 = 371
    let (openings, value) =
        xi_openings(&vec![fe(1), fe(2)], &vec![vec![fe(5), fe(1)]], fe(3), fe(2), &vec![fe(4)]);
    assert_eq!(vals(&openings), vec![7, 14]);
    assert_eq!(value.as_canonical_u64(), 371);
}

#[test]
fn degree_quotient_codeword_divides_by_the_shifted_points() {
    // (1 + 2) (10 - 4) / 2 and (1 - 2) (20 - 4) / (-2)
    let r = degree_quotient_codeword(&vec![fe(10), fe(20)], fe(4), fe(1), fe(0), &vec![(fe(2), fe(0))]);
    assert_eq!(vals(&r), vec![9, 8]);
    // a point equal to xi gives zero
    let r = degree_quotient_codeword(&vec![fe(10), fe(20)], fe(4), fe(1), fe(2), &vec![(fe(2), fe(0))]);
    assert_eq!(r[0].as_canonical_u64(), 0);
}

#[test]
fn fold_with_quotient_adds_the_quotient() {
    // (1 + 3) / 2 + 5 (3 - 1) 2 + 10
    let r = fold_with_quotient(vec![fe(1), fe(3)], fe(5), &vec![(fe(0), fe(2))], &vec![fe(10)]);
    assert_eq!(vals(&r), vec![32]);
}

/// The prover's opening pieces composed as the opening runs them, then the
/// verifier's check of the answer to query 0.
#[test]
fn honest_opening_answer_passes_the_query_check() {
    // a table of the shape of an eight-point domain whose roots are all one,
    // each with its weight 1 / (-2)
    let w = fe(1).add(fe(1)).neg().inverse();
    let table: Vec<Vec<(Mersenne61Mont, Mersenne61Mont)>> = vec![vec![(fe(1), w); 2], vec![(fe(1), w); 2], vec![(fe(1), w); 4]];
    let f_code: Vec<Mersenne61Mont> = [3, 1, 4, 1, 5, 9, 2, 6].iter().map(|&x| fe(x)).collect();
    let f_coef: Vec<Mersenne61Mont> = [2, 7, 1, 8].iter().map(|&x| fe(x)).collect();
    let (codes, coefs, _last) = quotient_chain(&f_code, &f_coef, &vec![fe(5)], &table, 2, 1);
    let quotient_tree = merkelize_mmcs(&codes);
    let (alpha, xi, lambda) = (fe(3), fe(11), fe(13));
    let lambdas = vec![fe(17)];
    let b = batched_degree_codeword(&codes, &f_code, alpha, &lambdas, &table, 2, 1);
    let (openings, value) = xi_openings(&f_coef, &coefs, xi, alpha, &lambdas);
    let c0 = degree_quotient_codeword(&b, value, lambda, xi, &table[2]);
    let betas = vec![fe(19), fe(23)];
    let t0 = fold_with_quotient(c0, betas[0], &table[2], &codes[0]);
    let t0_tree = merkelize(&t0);
    let folded_last = fold(t0.clone(), betas[1], &table[1])[0];
    let f_tree = merkelize(&f_code);
    let proof = fold_query_answer(0, &f_code, &f_tree, &quotient_tree, &codes, &vec![t0], &vec![t0_tree], 2);
    let ctx = FoldQueryContext {
        num_vars: 2,
        log_rate: 1,
        codeword_root: f_tree.last().unwrap()[0],
        quotient_root: quotient_tree.last().unwrap()[0],
        xi,
        alpha,
        lambda,
        padding_lambdas: lambdas,
        xi_openings: openings,
        betas,
        folded_last,
    };
    assert_eq!(verify_fold_query(0, &proof, &ctx, &table), Ok(()));
}
