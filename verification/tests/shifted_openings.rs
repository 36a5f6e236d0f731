use plonkish_backend::domain::RootOfUnity;
use plonkish_backend::hash::{hash_element, hash_elements};
use plonkish_backend::mersenne_61_mont::{Mersenne61Mont, MODULUS};
use plonkish_backend::p3_fri::{
    check_consistency_openings, check_corresponding_openings, shifted_codeword, OpeningCheckError,
};

fn fe(x: u64) -> Mersenne61Mont {
    Mersenne61Mont::from_int(x)
}

type Path = Vec<([u8; 32], [u8; 32])>;

/// A one-level path that authenticates the pair at index 0.
fn path_of(a: Mersenne61Mont, b: Mersenne61Mont) -> Path {
    vec![(hash_elements(a, b), hash_element(fe(99)))]
}

#[test]
fn shifted_codeword_subtracts_and_divides() {
    // (5 - 1) / (1 - 3), (9 - 1) / (1 - 3)
    let c = shifted_codeword(&vec![fe(5), fe(9)], fe(1), fe(3));
    assert_eq!(c[0].as_canonical_u64(), MODULUS - 2);
    assert_eq!(c[1].as_canonical_u64(), MODULUS - 4);
    let c = shifted_codeword(&vec![fe(5), fe(9)], fe(1), fe(1));
    assert_eq!(c[0].as_canonical_u64(), 0);
}

#[test]
fn corresponding_openings_authenticate_then_match() {
    let comm = vec![(fe(5), fe(9))];
    let first = vec![(fe(MODULUS - 2), fe(MODULUS - 4))];
    let paths = vec![path_of(fe(5), fe(9))];
    assert_eq!(check_corresponding_openings(&comm, &paths, &vec![0], &first, fe(1), fe(3)), Ok(()));
    let wrong = vec![(fe(MODULUS - 2), fe(4))];
    assert_eq!(
        check_corresponding_openings(&comm, &paths, &vec![0], &wrong, fe(1), fe(3)),
        Err(OpeningCheckError::Mismatch(0))
    );
    let bad_paths = vec![path_of(fe(5), fe(8))];
    assert_eq!(
        check_corresponding_openings(&comm, &bad_paths, &vec![0], &first, fe(1), fe(3)),
        Err(OpeningCheckError::CommPath(0))
    );
}

#[test]
fn consistency_openings_check_both_paths_then_match() {
    let comm = vec![(fe(5), fe(9))];
    let shifted = vec![(fe(MODULUS - 2), fe(MODULUS - 4))];
    let comm_paths = vec![path_of(fe(5), fe(9))];
    let eval_paths = vec![path_of(fe(MODULUS - 2), fe(MODULUS - 4))];
    let idx = vec![0];
    assert_eq!(
        check_consistency_openings(&shifted, &eval_paths, &comm, &comm_paths, &idx, fe(1), fe(3)),
        Ok(())
    );
    assert_eq!(
        check_consistency_openings(&shifted, &comm_paths, &comm, &comm_paths, &idx, fe(1), fe(3)),
        Err(OpeningCheckError::EvalPath(0))
    );
    assert_eq!(
        check_consistency_openings(&shifted, &eval_paths, &comm, &eval_paths, &idx, fe(1), fe(3)),
        Err(OpeningCheckError::CommPath(0))
    );
    // a commitment pair that does not shift to the evaluation pair
    let other = vec![(fe(5), fe(7))];
    let other_paths = vec![path_of(fe(5), fe(7))];
    assert_eq!(
        check_consistency_openings(&shifted, &eval_paths, &other, &other_paths, &idx, fe(1), fe(3)),
        Err(OpeningCheckError::Mismatch(0))
    );
}

#[test]
fn fri_tables_hold_powers_and_weights() {
    // the only two-power domain of the field is {1, -1}
    let (pairs, roots) = plonkish_backend::p3_fri::fri_tables(1, &RootOfUnity::of_field());
    assert_eq!(pairs.len(), 1);
    assert_eq!(roots.len(), 1);
    let got: Vec<u64> = roots[0].iter().map(|x| x.as_canonical_u64()).collect();
    assert_eq!(got, vec![1, MODULUS - 1]);
    // the weight of x is 1 / (-2x)
    let got: Vec<(u64, u64)> = pairs[0].iter().map(|(x, w)| (x.as_canonical_u64(), w.as_canonical_u64())).collect();
    assert_eq!(got, vec![(1, (MODULUS - 1) / 2), (MODULUS - 1, (MODULUS + 1) / 2)]);
}

#[test]
fn commit_codeword_encodes_reverses_and_hashes() {
    let table = vec![vec![fe(1)], vec![fe(1), fe(2)]];
    let (codeword, tree) = plonkish_backend::p3_fri::commit_codeword(vec![fe(3), fe(5)], 1, &table);
    // the encoding (8, 13, -2, -7) in bit-reversed order
    let got: Vec<u64> = codeword.iter().map(|x| x.as_canonical_u64()).collect();
    assert_eq!(got, vec![8, MODULUS - 2, 13, MODULUS - 7]);
    assert_eq!(tree, plonkish_backend::merkle::merkelize(&codeword));
}

#[test]
fn fri_table_levels_are_nested() {
    let d = RootOfUnity::new(Mersenne61Mont::from_int(MODULUS - 1), 30).unwrap();
    let (pairs, roots) = plonkish_backend::p3_fri::fri_tables(4, &d);
    assert_eq!(roots[3].len(), 8);
    for k in 2..4 {
        for m in 0..(1usize << (k - 1)) {
            assert_eq!(pairs[k][m].0, pairs[k - 1][m].0);
            assert_eq!(pairs[k][m].1, pairs[k - 1][m].1);
        }
    }
}

/// Commits a codeword with the library's tables, shifts it by an evaluation
/// at a point, commits the shifted codeword, opens both at every index with
/// the trees' paths, and runs both checks.
#[test]
fn honest_openings_pass_both_checks() {
    let d = RootOfUnity::new(fe(MODULUS - 1), 30).unwrap();
    let table = plonkish_backend::p3_fri::fri_tables(3, &d).1;
    let (codeword, tree) = plonkish_backend::p3_fri::commit_codeword(vec![fe(3), fe(1), fe(4), fe(1)], 1, &table);
    let (eval, point) = (fe(7), fe(5));
    let shifted = shifted_codeword(&codeword, eval, point);
    let shifted_tree = plonkish_backend::merkle::merkelize(&shifted);
    let mut comm_pairs = Vec::new();
    let mut comm_paths = Vec::new();
    let mut eval_pairs = Vec::new();
    let mut eval_paths = Vec::new();
    let mut indices = Vec::new();
    for x in 0..8usize {
        let lo = x & !1;
        comm_pairs.push((codeword[lo], codeword[lo + 1]));
        comm_paths.push(plonkish_backend::merkle::get_merkle_path(&tree, x, false));
        eval_pairs.push((shifted[lo], shifted[lo + 1]));
        eval_paths.push(plonkish_backend::merkle::get_merkle_path(&shifted_tree, x, false));
        indices.push(x);
    }
    assert_eq!(check_corresponding_openings(&comm_pairs, &comm_paths, &indices, &eval_pairs, eval, point), Ok(()));
    assert_eq!(
        check_consistency_openings(&eval_pairs, &eval_paths, &comm_pairs, &comm_paths, &indices, eval, point),
        Ok(())
    );
    // a shifted value that does not follow from the committed one
    eval_pairs[3].0 = eval_pairs[3].0.add(fe(1));
    assert_eq!(
        check_corresponding_openings(&comm_pairs, &comm_paths, &indices, &eval_pairs, eval, point),
        Err(OpeningCheckError::Mismatch(3))
    );
}
