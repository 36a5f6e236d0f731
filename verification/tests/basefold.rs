use plonkish_backend::basefold::{commit_phase, query_phase, verifier_query_phase, QueryError};
use plonkish_backend::domain::RootOfUnity;
use plonkish_backend::fold::interpolate2;
use plonkish_backend::mersenne_61_mont::MODULUS;
use plonkish_backend::merkle::merkelize;
use plonkish_backend::mersenne_61_mont::Mersenne61Mont;

fn fe(x: u64) -> Mersenne61Mont {
    Mersenne61Mont::from_int(x)
}

fn fes(xs: &[u64]) -> Vec<Mersenne61Mont> {
    xs.iter().map(|&x| fe(x)).collect()
}

fn vals(xs: &[Mersenne61Mont]) -> Vec<u64> {
    xs.iter().map(|x| x.as_canonical_u64()).collect()
}

/// A table whose points are zero and weights one: each fold is
/// `f[2j] + c * (f[2j + 1] - f[2j])`.
fn plain_table() -> Vec<Vec<(Mersenne61Mont, Mersenne61Mont)>> {
    vec![vec![(fe(0), fe(1)); 2], vec![(fe(0), fe(1)); 4]]
}

#[test]
fn commit_phase_folds_pairs_and_commits_every_oracle() {
    let f = fes(&[1, 2, 3, 4, 5, 6, 7, 8]);
    let (trees, oracles) = commit_phase(&f, &fes(&[10, 3]), 3, 2, &plain_table());
    assert_eq!(oracles.len(), 2);
    // 1 + 10 * (2 - 1), 3 + 10 * (4 - 3), ...
    assert_eq!(vals(&oracles[0]), vec![11, 13, 15, 17]);
    // 11 + 3 * (13 - 11), 15 + 3 * (17 - 15)
    assert_eq!(vals(&oracles[1]), vec![17, 21]);
    assert_eq!(trees.len(), 2);
    assert_eq!(trees[0], merkelize(&oracles[0]));
    assert_eq!(trees[1], merkelize(&oracles[1]));
}

#[test]
fn query_phase_reads_the_pairs_along_the_path() {
    let f = fes(&[1, 2, 3, 4, 5, 6, 7, 8]);
    let (_trees, oracles) = commit_phase(&f, &fes(&[10, 3]), 3, 2, &plain_table());
    // the leading four bytes, big-endian, of 5 * 2^24 end in 5
    let (reads, indices) = query_phase(8, &oracles, &vec![fe(5 << 24)]);
    assert_eq!(indices, vec![5]);
    assert_eq!(reads.len(), 1);
    let (pairs, idx) = &reads[0];
    // position 5 sits under entry 2 of the first oracle and entry 1 of the second
    assert_eq!(idx, &vec![2, 0]);
    assert_eq!(vals(&[pairs[0].0, pairs[0].1]), vec![15, 17]);
    assert_eq!(vals(&[pairs[1].0, pairs[1].1]), vec![17, 21]);
}

#[test]
fn verifier_query_phase_without_rounds_accepts() {
    // the field's only two-power domain has two points, so a codeword over
    // it leaves no round to fold
    let q = vec![vec![fe(4), fe(9)]];
    assert_eq!(verifier_query_phase(1, &vec![], &vec![], &q, 0, 1, 0, &vec![], &RootOfUnity::of_field()), Ok(()));
    assert_eq!(verifier_query_phase(0, &vec![], &vec![], &q, 0, 0, 1, &vec![], &RootOfUnity::of_field()), Ok(()));
}

#[test]
fn verifier_query_phase_checks_the_fold_of_the_first_round() {
    let d = RootOfUnity::new(fe(MODULUS - 1), 30).unwrap();
    let (a, b, c) = (fe(4), fe(9), fe(6));
    // query 5 reads the pair (4, 5); its point is the domain element 1 and
    // its negation, as the source's generator of four points is one
    let folded = interpolate2([(fe(1), a), (fe(1).neg(), b)], c);
    let good = vec![vec![a, b], vec![folded, fe(0)]];
    assert_eq!(verifier_query_phase(5, &vec![], &vec![c], &good, 1, 2, 1, &vec![], &d), Ok(()));
    let bad = vec![vec![a, b], vec![folded.add(fe(1)), fe(0)]];
    assert_eq!(
        verifier_query_phase(5, &vec![], &vec![c], &bad, 1, 2, 1, &vec![], &d),
        Err(QueryError::FoldMismatch(0))
    );
}

/// Commits a codeword of eight entries with the tables of the source -1
/// taken at order 2^30, folds it twice, answers every query with the pairs
/// and paths of the committed oracles, and runs the verifier's check.
#[test]
fn honest_basefold_answers_pass_the_query_check() {
    let d = RootOfUnity::new(fe(MODULUS - 1), 30).unwrap();
    let table = plonkish_backend::p3_fri::fri_tables(3, &d).0;
    let f = fes(&[3, 1, 4, 1, 5, 9, 2, 6]);
    let challenges = fes(&[10, 3]);
    let (trees, oracles) = commit_phase(&f, &challenges, 3, 2, &table);
    let roots: Vec<[u8; 32]> = trees.iter().map(|t| t[t.len() - 1][0]).collect();
    for q in 0..8usize {
        let mut queries = Vec::new();
        let mut paths = Vec::new();
        for i in 0..3usize {
            let lo = (q >> i) & !1;
            let src = if i == 0 { &f } else { &oracles[i - 1] };
            queries.push(vec![src[lo], src[lo + 1]]);
            if i > 0 && i < 2 {
                paths.push(plonkish_backend::merkle::get_merkle_path(&trees[i - 1], lo, false));
            }
        }
        assert_eq!(verifier_query_phase(q, &paths, &challenges, &queries, 2, 2, 1, &roots, &d), Ok(()), "query {q}");
        // a changed value in the last pair is a fold mismatch
        let mut bad = queries.clone();
        let s = (q >> 2) % 2;
        bad[2][s] = bad[2][s].add(fe(1));
        assert_eq!(
            verifier_query_phase(q, &paths, &challenges, &bad, 2, 2, 1, &roots, &d),
            Err(QueryError::FoldMismatch(1))
        );
    }
}
