use std::collections::HashMap;

use plonkish_backend::domain::RootOfUnity;
use plonkish_backend::interpolation::QueryResult;
use plonkish_backend::mersenne_61_mont::{Mersenne61Mont, MODULUS};
use plonkish_backend::multilinear::MultilinearPolynomial;
use plonkish_backend::virgo::{Virgo, VirgoProver, VirgoVerifier, CODE_RATE};

fn fe(x: u64) -> Mersenne61Mont {
    Mersenne61Mont::from_int(x)
}

fn fes(xs: &[u64]) -> Vec<Mersenne61Mont> {
    xs.iter().map(|&x| fe(x)).collect()
}

/// The source -1 taken at order 2^30, whose domains below that size are
/// generated by one.
fn wide() -> RootOfUnity {
    RootOfUnity::new(fe(MODULUS - 1), 30).unwrap()
}

#[test]
fn setup_halves_the_cosets_once_per_variable() {
    let pp = Virgo::setup(8, &wide());
    assert_eq!(pp.total_round, 3);
    assert_eq!(pp.step, 1);
    let sizes: Vec<usize> = pp.fri_cosets.iter().map(|c| c.size()).collect();
    assert_eq!(sizes, vec![1 << (3 + CODE_RATE), 16, 8, 4]);
    assert_eq!(pp.vector_interpolation_coset.size(), 8);
    assert_eq!(pp.fri_cosets[0].element_at(0).as_canonical_u64(), 1);
}

#[test]
fn commit_is_the_root_of_the_provers_first_codeword() {
    let pp = Virgo::setup(4, &wide());
    let poly = MultilinearPolynomial::new(fes(&[3, 1, 4, 1]));
    let comm = Virgo::commit(&pp, &poly);
    let prover = VirgoProver::new(pp.total_round, &pp.fri_cosets, &pp.vector_interpolation_coset, poly, pp.step);
    assert_eq!(comm.u_root, prover.commit_first_polynomial());
}

#[test]
fn commitments_differ_for_different_polynomials() {
    let pp = Virgo::setup(4, &wide());
    let a = Virgo::commit(&pp, &MultilinearPolynomial::new(fes(&[3, 1, 4, 1])));
    let b = Virgo::commit(&pp, &MultilinearPolynomial::new(fes(&[3, 1, 4, 2])));
    assert_ne!(a.u_root, b.u_root);
}

/// Sets up for two variables, commits, lets the verifier pick the point,
/// proves and answers the queries.
fn run_protocol() -> (VirgoVerifier, Vec<QueryResult>, Vec<QueryResult>, HashMap<usize, Mersenne61Mont>, [u8; 32]) {
    let pp = Virgo::setup(4, &wide());
    let poly = MultilinearPolynomial::new(fes(&[3, 1, 4, 1]));
    let mut prover = VirgoProver::new(pp.total_round, &pp.fri_cosets, &pp.vector_interpolation_coset, poly, pp.step);
    let root = prover.commit_first_polynomial();
    let mut verifier = VirgoVerifier::new(pp.total_round, &pp.fri_cosets, &pp.vector_interpolation_coset, root, pp.step);
    let point = verifier.get_open_point();
    assert_eq!(point.len(), 2);
    prover.commit_functions(&mut verifier, &point);
    prover.prove(&fes(&[5, 6]));
    prover.commit_foldings(&mut verifier);
    let (folding, function, v_values) = prover.query();
    // the first root is the same after every step of the prover
    assert_eq!(prover.commit_first_polynomial(), root);
    (verifier, folding, function, v_values, root)
}

#[test]
fn query_opens_the_first_and_quotient_codewords_and_every_folding_but_the_last() {
    let (_verifier, folding, function, v_values, _root) = run_protocol();
    assert_eq!(function.len(), 2);
    assert_eq!(folding.len(), 1);
    // leaf 0 of a codeword of 16 entries, 2 per leaf: positions 0 and 8
    let mut keys: Vec<usize> = function[0].proof_values.keys().copied().collect();
    keys.sort();
    assert_eq!(keys, vec![0, 8]);
    assert!(!v_values.is_empty());
}

#[test]
fn verify_rejects_a_proof_without_function_openings() {
    let (verifier, folding, _function, v_values, _root) = run_protocol();
    assert!(!verifier.verify(&folding, &v_values, &Vec::new()));
}

#[test]
fn verify_rejects_a_folding_opening_that_does_not_authenticate() {
    let (verifier, mut folding, function, v_values, _root) = run_protocol();
    folding[0].proof_bytes = vec![0u8; folding[0].proof_bytes.len()];
    assert!(!verifier.verify(&folding, &v_values, &function));
}

#[test]
fn verify_accepts_the_honest_proof() {
    let (verifier, folding, function, v_values, _root) = run_protocol();
    assert!(verifier.verify(&folding, &v_values, &function));
}
