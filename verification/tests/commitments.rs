use plonkish_backend::interpolation::InterpolateValue;
use plonkish_backend::merkle_tree::{MerkleTreeProver, MerkleTreeVerifier};
use plonkish_backend::mersenne_61_mont::Mersenne61Mont;
use plonkish_backend::mmcs::{authenticate_merkle_path_mmcs, get_merkle_path_mmcs, merkelize_mmcs};

fn fe(x: u64) -> Mersenne61Mont {
    Mersenne61Mont::from_int(x)
}

fn fes(xs: &[u64]) -> Vec<Mersenne61Mont> {
    xs.iter().map(|&x| fe(x)).collect()
}

fn leaves(n: usize) -> Vec<Vec<u8>> {
    (0..n).map(|i| vec![i as u8, (i * 7) as u8, 42]).collect()
}

#[test]
fn merkle_tree_openings_authenticate_against_the_root() {
    let tree = MerkleTreeProver::new(leaves(8));
    assert_eq!(tree.leave_num(), 8);
    let root = tree.commit();
    let verifier = MerkleTreeVerifier::new(8, &root);
    let idx = vec![1usize, 4, 6];
    let proof = tree.open(&idx);
    let opened: Vec<Vec<u8>> = idx.iter().map(|&i| leaves(8)[i].clone()).collect();
    assert!(verifier.verify(&proof, &idx, &opened));
}

#[test]
fn merkle_tree_rejects_a_changed_leaf_or_root() {
    let tree = MerkleTreeProver::new(leaves(8));
    let root = tree.commit();
    let idx = vec![3usize];
    let proof = tree.open(&idx);
    let mut bad = leaves(8)[3].clone();
    bad[0] ^= 1;
    assert!(!MerkleTreeVerifier::new(8, &root).verify(&proof, &idx, &vec![bad]));
    let mut other = root;
    other[0] ^= 1;
    assert!(!MerkleTreeVerifier::new(8, &other).verify(&proof, &idx, &vec![leaves(8)[3].clone()]));
}

#[test]
fn merkle_tree_of_one_leaf_has_no_path() {
    let tree = MerkleTreeProver::new(leaves(1));
    assert_eq!(tree.leave_num(), 1);
    assert!(tree.open(&vec![0usize]).is_empty());
}

#[test]
fn interpolate_value_query_opens_whole_leaves() {
    let values = fes(&[10, 11, 12, 13, 14, 15, 16, 17]);
    let iv = InterpolateValue::new(values.clone(), 2);
    assert_eq!(iv.leave_num(), 4);
    let q = iv.query(&vec![1usize, 3]);
    // leaf k holds positions k and k + 4
    let mut keys: Vec<usize> = q.proof_values.keys().copied().collect();
    keys.sort();
    assert_eq!(keys, vec![1, 3, 5, 7]);
    for k in keys {
        assert_eq!(q.proof_values[&k].as_canonical_u64(), values[k].as_canonical_u64());
    }
    assert_eq!(q.proof_size(), q.proof_bytes.len() + 4 * 8);
    let verifier = MerkleTreeVerifier::new(4, &iv.commit());
    assert!(q.verify_merkle_tree(&vec![1usize, 3], 2, &verifier));
}

#[test]
fn interpolate_value_query_rejects_a_changed_value() {
    let iv = InterpolateValue::new(fes(&[10, 11, 12, 13, 14, 15, 16, 17]), 2);
    let mut q = iv.query(&vec![2usize]);
    q.proof_values.insert(6, fe(99));
    let verifier = MerkleTreeVerifier::new(4, &iv.commit());
    assert!(!q.verify_merkle_tree(&vec![2usize], 2, &verifier));
    q.proof_values.remove(&6);
    assert!(!q.verify_merkle_tree(&vec![2usize], 2, &verifier));
}

#[test]
fn mmcs_paths_authenticate_every_position() {
    // codewords of 8, 4 and 2 entries, one per layer
    let values = vec![fes(&[1, 2, 3, 4, 5, 6, 7, 8]), fes(&[9, 10, 11, 12]), fes(&[13, 14])];
    let tree = merkelize_mmcs(&values);
    assert_eq!(tree.len(), 4);
    let root = tree[3][0];
    for x in 0..8usize {
        let path = get_merkle_path_mmcs(&tree, x);
        assert_eq!(path.len(), 3);
        let openings = vec![values[0][x], values[1][x / 2], values[2][x / 4]];
        assert!(authenticate_merkle_path_mmcs(&path, &openings, x, 3, &root));
        let mut wrong = openings.clone();
        wrong[1] = wrong[1].add(fe(1));
        assert!(!authenticate_merkle_path_mmcs(&path, &wrong, x, 3, &root));
    }
}
