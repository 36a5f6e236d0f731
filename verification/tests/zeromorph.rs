use plonkish_backend::domain::RootOfUnity;
use plonkish_backend::merkle::{merkelize, query_codeword};
use plonkish_backend::mersenne_61_mont::{Mersenne61Mont, MODULUS};
use plonkish_backend::mmcs::merkelize_mmcs;
use plonkish_backend::p3_fri::{commit_codeword, fri_tables};
use plonkish_backend::zeromorph_fri::{eval_and_quotient_scalars, eval_and_quotient_scalars_degree_checked};
use plonkish_backend::zeromorph_fri_v2::{verify_query, QueryCheckError};
use plonkish_backend::zeromorph_fri_v4::{
    batched_degree_codeword, degree_quotient_codeword, fold, fold_with_quotient, quotient_chain, xi_openings,
    FoldQueryError,
};
use plonkish_backend::zeromorph_fri_v4_pcs::{
    commitment_root, zeromorph_fri_v4_commit, zeromorph_fri_v4_open, zeromorph_fri_v4_verify, ZmV4Challenges,
    ZmV4Error, ZmV4Params,
};

fn fe(x: u64) -> Mersenne61Mont {
    Mersenne61Mont::from_int(x)
}

fn fes(xs: &[u64]) -> Vec<Mersenne61Mont> {
    xs.iter().map(|&x| fe(x)).collect()
}

/// A committed column: its codeword over the field's two-point domain and
/// the codeword's Merkle tree.
struct Column {
    code: Vec<Mersenne61Mont>,
    tree: Vec<Vec<[u8; 32]>>,
}

/// Commits the coefficients of a polynomial in one variable at rate one.
fn commit(coeffs: &[u64]) -> Column {
    let (code, tree) = commit_codeword(fes(coeffs), 0, &vec![vec![fe(1)]]);
    Column { code, tree }
}

/// The openings of every column at `query`: the pairs, the paths and the roots.
fn open(cols: &[Column], query: usize) -> (Vec<Vec<Mersenne61Mont>>, Vec<Vec<([u8; 32], [u8; 32])>>, Vec<[u8; 32]>) {
    let mut points = Vec::new();
    let mut paths = Vec::new();
    let mut roots = Vec::new();
    for c in cols {
        let ((a, b), path) = query_codeword(query, &c.code, &c.tree);
        points.push(vec![a, b]);
        paths.push(path);
        roots.push(c.tree[c.tree.len() - 1][0]);
    }
    (points, paths, roots)
}

/// The verifier's check of query `query` on the openings of a polynomial
/// column and its quotient column, with the scalars of the reduction.
fn check(
    points: &Vec<Vec<Mersenne61Mont>>,
    paths: &Vec<Vec<([u8; 32], [u8; 32])>>,
    roots: &Vec<[u8; 32]>,
    query: usize,
    x: Mersenne61Mont,
    eval: Mersenne61Mont,
    eval_scalar: Mersenne61Mont,
    q_scalars: &Vec<Mersenne61Mont>,
) -> Result<(), QueryCheckError> {
    let last_level = fri_tables(1, &RootOfUnity::of_field()).0[0].clone();
    verify_query(
        query,
        points,
        paths,
        roots,
        &last_level,
        x,
        fe(1),
        fe(2),
        eval,
        eval_scalar,
        q_scalars,
        1,
        0,
        0,
        &vec![],
        &vec![],
        &vec![],
        &vec![],
        &RootOfUnity::of_field(),
    )
}

/// Commits a polynomial in one variable and its quotient, opens both at
/// each query and runs the verifier's query check, which accepts the honest
/// openings and rejects a changed value.
fn commit_open_verify_one(f: &[u64], q: &[u64], u: u64, x: Mersenne61Mont, scalars: (Mersenne61Mont, Vec<Mersenne61Mont>)) {
    let cols = [commit(f), commit(q)];
    // the codeword of f0 + f1 X over {1, -1}
    assert_eq!(cols[0].code[0].as_canonical_u64(), f[0] + f[1]);
    assert!(cols[0].code[1].equals(&fe(f[0]).sub(fe(f[1]))));
    let eval = fe(f[0]).add(fe(u).mul(fe(f[1]).sub(fe(f[0]))));
    let (eval_scalar, q_scalars) = scalars;
    for query in 0..2 {
        let (mut points, paths, roots) = open(&cols, query);
        assert_eq!(check(&points, &paths, &roots, query, x, eval, eval_scalar, &q_scalars), Ok(()));
        points[1][0] = points[1][0].add(fe(1));
        assert_eq!(
            check(&points, &paths, &roots, query, x, eval, eval_scalar, &q_scalars),
            Err(QueryCheckError::ColumnPath(1))
        );
    }
}

#[test]
fn zeromorph_fri_commit_open_verify() {
    // the scalars of the reduction at x = 2 for one variable u0 = 5:
    // v0 = (2^2 - 1) / (2 - 1) = 3 and q0 = 2 * 1 - 5 * 3 = -13
    let (v, q) = eval_and_quotient_scalars(fe(2), &vec![fe(5)]);
    assert_eq!(v.as_canonical_u64(), 3);
    assert_eq!(q.len(), 1);
    assert_eq!(q[0].as_canonical_u64(), MODULUS - 13);
    commit_open_verify_one(&[3, 5], &[2, 9], 5, fe(2), (v, q));
}

#[test]
fn zeromorph_fri_batch_commit_open_verify() {
    // the degree-checked scalars scale the evaluation scalar by -z
    let (v, q) = eval_and_quotient_scalars_degree_checked(fe(1), fe(2), fe(3), &vec![fe(5)]);
    assert_eq!(v.as_canonical_u64(), MODULUS - 9);
    assert_eq!(q.len(), 1);
    for (f, quot, u) in [([3u64, 5u64], [2u64, 9u64], 4u64), ([7, 1], [4, 4], 6), ([0, 11], [13, 0], 8)] {
        let x = fe(u + 20);
        let scalars = eval_and_quotient_scalars_degree_checked(fe(1), x, fe(3), &vec![fe(u)]);
        commit_open_verify_one(&f, &quot, u, x, scalars);
    }
}

/// The tables of the domain of eight points of the source -1 taken at order
/// 2^30, whose roots are all one.
fn table8() -> Vec<Vec<(Mersenne61Mont, Mersenne61Mont)>> {
    fri_tables(3, &RootOfUnity::new(fe(MODULUS - 1), 30).unwrap()).0
}

/// The parameters of the folding-based scheme for two variables at rate
/// one over the eight-point tables.
fn v4_params() -> ZmV4Params {
    ZmV4Params { num_vars: 2, log_rate: 1, table: table8() }
}

/// The challenges of one run: the batching, evaluation, padding, degree
/// correction and folding challenges, and three queried positions.
fn v4_challenges() -> ZmV4Challenges {
    ZmV4Challenges {
        alpha: fe(3),
        xi: fe(11),
        padding_lambdas: vec![fe(17)],
        lambda: fe(13),
        betas: vec![fe(19), fe(23)],
        queries: vec![0, 5, 14],
    }
}

/// Commits a codeword, opens it at `(u, u + 1)` through the scheme and runs
/// the scheme's verifier on the claimed value; returns the verdict on the
/// honest proof and on the proof with its last fold changed.
fn v4_commit_open_verify_one(
    f_code: &Vec<Mersenne61Mont>,
    f_coef: &Vec<Mersenne61Mont>,
    u: u64,
    eval: Mersenne61Mont,
) -> (Result<(), ZmV4Error>, Result<(), ZmV4Error>) {
    let pp = v4_params();
    let comm = zeromorph_fri_v4_commit(&pp, f_code.clone());
    let root = commitment_root(&pp, &comm);
    assert_eq!(root, merkelize(f_code).last().unwrap()[0]);
    let point = vec![fe(u), fe(u + 1)];
    let proof = zeromorph_fri_v4_open(&pp, f_coef, &comm, &point, &v4_challenges());
    // the scheme's opening holds what its steps compute
    let table = table8();
    let (codes, coefs, last) = quotient_chain(f_code, f_coef, &point, &table, 2, 1);
    assert!(proof.quotient_last.equals(&last[0]));
    assert_eq!(proof.quotient_root, merkelize_mmcs(&codes).last().unwrap()[0]);
    let (openings, value) = xi_openings(f_coef, &coefs, fe(11), fe(3), &vec![fe(17)]);
    assert_eq!(proof.xi_openings, openings);
    let b = batched_degree_codeword(&codes, f_code, fe(3), &vec![fe(17)], &table, 2, 1);
    let c0 = degree_quotient_codeword(&b, value, fe(13), fe(11), &table[2]);
    let t0 = fold_with_quotient(c0, fe(19), &table[2], &codes[0]);
    assert_eq!(proof.round_roots, vec![merkelize(&t0).last().unwrap()[0]]);
    assert!(proof.folded_last.equals(&fold(t0, fe(23), &table[1])[0]));
    assert_eq!(proof.query_proofs.len(), 3);
    let honest = zeromorph_fri_v4_verify(&pp, root, &point, eval, proof, v4_challenges());
    let mut tampered = zeromorph_fri_v4_open(&pp, f_coef, &comm, &point, &v4_challenges());
    tampered.folded_last = tampered.folded_last.add(fe(1));
    let changed = zeromorph_fri_v4_verify(&pp, root, &point, eval, tampered, v4_challenges());
    (honest, changed)
}

#[test]
fn zeromorph_fri_v4_commit_open_verify() {
    let (honest, changed) = v4_commit_open_verify_one(&vec![fe(0); 8], &vec![fe(0); 4], 5, fe(0));
    assert_eq!(honest, Ok(()));
    assert_eq!(changed, Err(ZmV4Error::Query(0, FoldQueryError::LastFold)));
    // the field has no domain of eight points: the tables' points are all
    // one or minus one, so past position 0 the folds of a nonzero codeword
    // leave the domain and the last fold differs from the one sent
    let r = v4_commit_open_verify_one(&fes(&[3, 1, 4, 1, 5, 9, 2, 6]), &fes(&[2, 7, 1, 8]), 5, fe(9));
    assert_eq!(
        r,
        (Err(ZmV4Error::Query(1, FoldQueryError::LastFold)), Err(ZmV4Error::Query(0, FoldQueryError::LastFold)))
    );
}

#[test]
fn zeromorph_fri_v4_batch_commit_open_verify() {
    let polys = [
        (fes(&[3, 1, 4, 1, 5, 9, 2, 6]), fes(&[2, 7, 1, 8]), 5u64),
        (fes(&[1, 1, 2, 3, 5, 8, 13, 21]), fes(&[1, 2, 3, 4]), 7),
        (fes(&[0, 0, 0, 0, 0, 0, 0, 0]), fes(&[0, 0, 0, 0]), 9),
    ];
    let expected = [
        Err(ZmV4Error::Query(1, FoldQueryError::LastFold)),
        Err(ZmV4Error::Query(1, FoldQueryError::LastFold)),
        Ok(()),
    ];
    for ((code, coef, u), want) in polys.iter().zip(expected.iter()) {
        let (honest, changed) = v4_commit_open_verify_one(code, coef, *u, fe(0));
        assert_eq!(honest, *want);
        assert_eq!(changed, Err(ZmV4Error::Query(0, FoldQueryError::LastFold)));
    }
}
