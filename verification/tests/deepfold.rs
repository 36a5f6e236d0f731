use plonkish_backend::deepfold::{sumcheck_next_domain, DeepEval, Proof};
use plonkish_backend::coset::Coset;
use plonkish_backend::deepfold_protocol::{
    deepfold_open, deepfold_verify, squares_point, DeepfoldOpenError, DeepfoldVerifyError, Prover, RandomOracle, Verifier,
};
use plonkish_backend::domain::RootOfUnity;
use plonkish_backend::multilinear::MultilinearPolynomial;
use plonkish_backend::mersenne_61_mont::{Mersenne61Mont, MODULUS};

fn fe(x: u64) -> Mersenne61Mont {
    Mersenne61Mont::from_int(x)
}

fn fes(xs: &[u64]) -> Vec<Mersenne61Mont> {
    xs.iter().map(|&x| fe(x)).collect()
}

fn vals(xs: &[Mersenne61Mont]) -> Vec<u64> {
    xs.iter().map(|x| x.as_canonical_u64()).collect()
}

/// The multilinear extension of `h` at `point`, computed by the textbook
/// sum; the first coordinate is the highest bit of the index.
fn ml_eval(point: &[u64], h: &[u64]) -> u64 {
    let p = MODULUS as u128;
    let n = point.len();
    let mut total: u128 = 0;
    for (x, &hx) in h.iter().enumerate() {
        let mut w: u128 = 1;
        for (i, &c) in point.iter().enumerate() {
            let c = c as u128 % p;
            let f = if (x >> (n - 1 - i)) & 1 == 1 { c } else { (1 + p - c) % p };
            w = w * f % p;
        }
        total = (total + w * (hx as u128 % p)) % p;
    }
    total as u64
}

#[test]
fn deep_eval_at_a_boolean_point_is_the_hypercube_value() {
    let h = fes(&[3, 5, 7, 11]);
    // the first coordinate is the highest bit of the index
    assert_eq!(DeepEval::new(fes(&[0, 0]), h.clone()).first_value().as_canonical_u64(), 3);
    assert_eq!(DeepEval::new(fes(&[1, 0]), h.clone()).first_value().as_canonical_u64(), 7);
    assert_eq!(DeepEval::new(fes(&[0, 1]), h.clone()).first_value().as_canonical_u64(), 5);
    assert_eq!(DeepEval::new(fes(&[1, 1]), h.clone()).first_value().as_canonical_u64(), 11);
}

#[test]
fn deep_eval_at_a_general_point_is_the_multilinear_extension() {
    let h = [3u64, 5, 7, 11];
    let point = [2u64, 9];
    let d = DeepEval::new(fes(&point), fes(&h));
    assert_eq!(d.first_value().as_canonical_u64(), ml_eval(&point, &h));
    assert_eq!(d.point_len(), 2);
    assert!(d.else_values().is_empty());
}

#[test]
fn append_else_eval_records_the_shifted_value() {
    let h = [3u64, 5, 7, 11];
    let mut d = DeepEval::new(fes(&[2, 9]), fes(&h));
    d.append_else_eval(fes(&h));
    // the point moved by one in its first coordinate
    assert_eq!(vals(d.else_values()), vec![ml_eval(&[3, 9], &h)]);
}

#[test]
fn sumcheck_next_domain_fixes_the_first_variable() {
    let mut h = fes(&[3, 5, 7, 11]);
    sumcheck_next_domain(&mut h, 2, fe(4));
    // (1 - 4) * h[i] + 4 * h[i + 2]
    assert_eq!(vals(&h), vec![(MODULUS - 9 + 28) % MODULUS, (MODULUS - 15 + 44) % MODULUS]);
}

#[test]
fn honest_deep_claims_fold_to_the_evaluation_at_the_challenges() {
    let h = [3u64, 5, 7, 11];
    let challenges = fes(&[6, 13]);
    let point = fes(&[2, 9]);
    let mut d = DeepEval::new(point, fes(&h));
    let mut cube = fes(&h);
    d.append_else_eval(cube.clone());
    sumcheck_next_domain(&mut cube, 2, challenges[0]);
    d.append_else_eval(cube.clone());
    assert_eq!(d.verify(&challenges).as_canonical_u64(), ml_eval(&[6, 13], &h));
}

#[test]
fn deep_eval_verify_uses_the_last_challenges() {
    // a one-coordinate claim folds with the last challenge only
    let d = DeepEval::from_parts(fes(&[2]), fe(10), fes(&[20]));
    // 10 + (20 - 10) * (c - 2) with c = 5
    assert_eq!(d.verify(&fes(&[99, 5])).as_canonical_u64(), 40);
}

#[test]
fn squares_point_repeats_squaring() {
    assert_eq!(vals(&squares_point(fe(3), 4)), vec![3, 9, 81, 6561]);
}

#[test]
fn proof_size_counts_roots_queries_and_field_elements() {
    let proof = Proof {
        merkle_root: vec![[0u8; 32], [1u8; 32]],
        query_result: vec![],
        deep_evals: vec![(fe(1), fes(&[1, 2])), (fe(2), fes(&[3]))],
        shuffle_evals: fes(&[4, 5]),
        evaluation: fe(0),
        final_value: fe(0),
        final_poly: vec![],
    };
    assert_eq!(proof.size(), 2 * 32 + (3 + 2 + 2) * 8);
}

#[test]
fn one_variable_claim_folds_to_the_line_through_the_hypercube_values() {
    let (h0, h1) = (6u64, 17u64);
    for (x, c) in [(3u64, 5u64), (0, 1), (MODULUS - 1, 12)] {
        let mut d = DeepEval::new(vec![fe(x)], fes(&[h0, h1]));
        d.append_else_eval(fes(&[h0, h1]));
        let line = fe(1).sub(fe(c)).mul(fe(h0)).add(fe(c).mul(fe(h1)));
        assert!(d.verify(&vec![fe(c)]).equals(&line));
        // earlier challenges are not read
        assert!(d.verify(&vec![fe(9), fe(4), fe(c)]).equals(&line));
    }
}

/// Cosets of 16, 8 and 4 points of the source -1 taken at order 2^30, and
/// an oracle with the given queries and challenges.
fn setup(query_list: Vec<usize>, challenges: Vec<Mersenne61Mont>) -> (Vec<Coset>, RandomOracle) {
    let one = fe(1);
    let d = RootOfUnity::new(fe(MODULUS - 1), 30).unwrap();
    let cosets = vec![Coset::new(16, one, &d), Coset::new(8, one, &d), Coset::new(4, one, &d)];
    let oracle = RandomOracle { deep: fes(&[3, 7]), folding_challenges: challenges, query_list };
    (cosets, oracle)
}

fn prove_and_verify(h: &[u64], challenges: Vec<Mersenne61Mont>, tamper: bool) -> bool {
    let (cosets, oracle) = setup(vec![1, 6, 13], challenges);
    let poly = MultilinearPolynomial::new(fes(h));
    let prover = Prover::new(2, &cosets, poly, &oracle, 1);
    let commit = prover.commit_polynomial();
    let point = fes(&[4, 8]);
    let mut proof = prover.generate_proof(point.clone());
    assert_eq!(proof.evaluation.as_canonical_u64(), ml_eval(&[4, 8], h));
    assert_eq!(proof.deep_evals.len(), 2);
    assert_eq!(proof.query_result.len(), 3);
    if tamper {
        proof.final_value = proof.final_value.add(fe(1));
    }
    let mut verifier = Verifier::new(2, &cosets, commit, &oracle, 1);
    verifier.set_open_point(&point);
    assert_eq!(vals(&verifier.get_open_point()), vec![4, 8]);
    verifier.verify(proof)
}

#[test]
fn verifier_accepts_an_honest_proof_whose_claims_meet_the_codeword() {
    // with zero challenges the claims fold to h[0], and the folded codeword
    // of these values is h[0] as well
    assert!(prove_and_verify(&[5, 0, 0, 0], fes(&[0, 0]), false));
}

#[test]
fn verifier_rejects_a_changed_final_value() {
    assert!(!prove_and_verify(&[5, 0, 0, 0], fes(&[0, 0]), true));
}

#[test]
fn verifier_rejects_claims_that_miss_the_final_value() {
    // the folded codeword of these values is their sum, 10, while the claims
    // fold to h[0] = 1
    assert!(!prove_and_verify(&[1, 2, 3, 4], fes(&[0, 0]), false));
}

#[test]
fn verifier_rejects_an_opening_that_does_not_authenticate() {
    let (cosets, oracle) = setup(vec![1, 6, 13], fes(&[0, 0]));
    let poly = MultilinearPolynomial::new(fes(&[5, 0, 0, 0]));
    let prover = Prover::new(2, &cosets, poly, &oracle, 1);
    let commit = prover.commit_polynomial();
    let point = fes(&[4, 8]);
    let mut proof = prover.generate_proof(point.clone());
    let n = proof.query_result[1].proof_bytes.len();
    proof.query_result[1].proof_bytes = vec![7u8; n];
    let mut verifier = Verifier::new(2, &cosets, commit, &oracle, 1);
    verifier.set_open_point(&point);
    assert!(!verifier.verify(proof));
}

#[test]
fn verifier_rejects_a_proof_without_deep_claims() {
    let (cosets, oracle) = setup(vec![1], fes(&[0, 0]));
    let poly = MultilinearPolynomial::new(fes(&[5, 0, 0, 0]));
    let prover = Prover::new(2, &cosets, poly, &oracle, 1);
    let commit = prover.commit_polynomial();
    let mut proof = prover.generate_proof(fes(&[4, 8]));
    proof.deep_evals.clear();
    let verifier = Verifier::new(2, &cosets, commit, &oracle, 1);
    assert!(!verifier.verify(proof));
}

#[test]
fn prover_query_opens_every_codeword() {
    let (cosets, oracle) = setup(vec![2, 5], fes(&[0, 0]));
    let poly = MultilinearPolynomial::new(fes(&[5, 0, 0, 0]));
    let mut prover = Prover::new(2, &cosets, poly, &oracle, 1);
    prover.prove(fes(&[4, 8]));
    let queries = prover.query();
    assert_eq!(queries.len(), 3);
    // the first codeword has 8 leaves of 2 entries: positions k and k + 8
    let mut keys: Vec<usize> = queries[0].proof_values.keys().copied().collect();
    keys.sort();
    assert_eq!(keys, vec![2, 5, 10, 13]);
}

#[test]
fn deepfold_open_then_verify_accepts_the_claimed_value() {
    let (cosets, oracle) = setup(vec![1, 6, 13], fes(&[0, 0]));
    let h = [5u64, 0, 0, 0];
    let point = fes(&[4, 8]);
    let eval = fe(ml_eval(&[4, 8], &h));
    let prover = Prover::new(2, &cosets, MultilinearPolynomial::new(fes(&h)), &oracle, 1);
    let commit = prover.commit_polynomial();
    let proof = deepfold_open(2, &cosets, MultilinearPolynomial::new(fes(&h)), &oracle, 1, point.clone(), eval).unwrap();
    assert!(proof.evaluation.equals(&eval));
    assert_eq!(deepfold_verify(2, &cosets, commit, &oracle, 1, &point, eval, proof), Ok(()));
}

#[test]
fn deepfold_open_refuses_a_wrong_value_and_verify_rejects_it() {
    let (cosets, oracle) = setup(vec![1, 6, 13], fes(&[0, 0]));
    let h = [5u64, 0, 0, 0];
    let point = fes(&[4, 8]);
    let eval = fe(ml_eval(&[4, 8], &h));
    let wrong = eval.add(fe(1));
    assert_eq!(
        deepfold_open(2, &cosets, MultilinearPolynomial::new(fes(&h)), &oracle, 1, point.clone(), wrong).err(),
        Some(DeepfoldOpenError::EvaluationMismatch)
    );
    let prover = Prover::new(2, &cosets, MultilinearPolynomial::new(fes(&h)), &oracle, 1);
    let commit = prover.commit_polynomial();
    let proof = deepfold_open(2, &cosets, MultilinearPolynomial::new(fes(&h)), &oracle, 1, point.clone(), eval).unwrap();
    assert_eq!(
        deepfold_verify(2, &cosets, commit, &oracle, 1, &point, wrong, proof),
        Err(DeepfoldVerifyError::EvaluationMismatch)
    );
    // claims that miss the final value are rejected
    let h2 = [1u64, 2, 3, 4];
    let eval2 = fe(ml_eval(&[4, 8], &h2));
    let commit2 = Prover::new(2, &cosets, MultilinearPolynomial::new(fes(&h2)), &oracle, 1).commit_polynomial();
    let proof2 =
        deepfold_open(2, &cosets, MultilinearPolynomial::new(fes(&h2)), &oracle, 1, point.clone(), eval2).unwrap();
    assert_eq!(
        deepfold_verify(2, &cosets, commit2, &oracle, 1, &point, eval2, proof2),
        Err(DeepfoldVerifyError::Rejected)
    );
}
