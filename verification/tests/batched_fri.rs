use plonkish_backend::batched_fri::{
    batch_commit, batch_query_path, batch_quotient, batch_round, batch_table, reverse_layers, verify_batch_query,
    BatchQueryError,
};
use plonkish_backend::batched_fri_pcs::{
    batched_fri_open, batched_fri_verify, BatchedChallenges, BatchedCommitment, BatchedError, BatchedParams,
};
use plonkish_backend::domain::RootOfUnity;
use plonkish_backend::merkle::{get_merkle_path, merkelize};
use plonkish_backend::mmcs::get_merkle_path_mmcs;
use plonkish_backend::hash::{hash_bytes, hash_element, hash_elements, hash_pair};
use plonkish_backend::mersenne_61_mont::{Mersenne61Mont, MODULUS};

fn fe(x: u64) -> Mersenne61Mont {
    Mersenne61Mont::from_int(x)
}

fn fes(xs: &[u64]) -> Vec<Mersenne61Mont> {
    xs.iter().map(|&x| fe(x)).collect()
}

fn vals(xs: &[Mersenne61Mont]) -> Vec<u64> {
    xs.iter().map(|x| x.as_canonical_u64()).collect()
}

#[test]
fn reverse_layers_permutes_every_layer() {
    let mut table = vec![fes(&[1, 2, 3, 4]), fes(&[5, 6])];
    reverse_layers(&mut table);
    assert_eq!(vals(&table[0]), vec![1, 3, 2, 4]);
    assert_eq!(vals(&table[1]), vec![5, 6]);
}

#[test]
fn batch_quotient_divides_by_the_shifted_layer() {
    // (5 - 1) / (3 - 2), (7 - 1) / (4 - 2)
    let q = batch_quotient(&fes(&[5, 7]), fe(1), fe(2), &fes(&[3, 4]));
    assert_eq!(vals(&q), vec![4, 3]);
    // a layer point equal to the opening point gives zero
    let q = batch_quotient(&fes(&[5, 7]), fe(1), fe(3), &fes(&[3, 4]));
    assert_eq!(q[0].as_canonical_u64(), 0);
}

#[test]
fn batch_round_adds_then_folds() {
    let (before, after) = batch_round(&fes(&[0, 0]), &fes(&[4, 3]), &fes(&[3, 4]), fe(1), fe(2));
    // 4 (1 + 3), 3 (1 + 4)
    assert_eq!(vals(&before), vec![16, 15]);
    // (16 + 15) / 2 + 2 (16 - 15) / 2 / 3
    let want = fe(31).mul(Mersenne61Mont::inverse_2()).add(fe(1).div(fe(3)));
    assert_eq!(vals(&after), vals(&[want]));
}

#[test]
fn batch_query_path_reads_siblings_and_openings() {
    let tree_evals = vec![fes(&[10, 11, 12, 13, 14, 15, 16, 17]), fes(&[20, 21, 22, 23])];
    let p_evals = vec![fes(&[30, 31, 32, 33, 34, 35, 36, 37]), fes(&[40, 41, 42, 43])];
    let (cur_path, indices, openings) = batch_query_path(5, &tree_evals, &p_evals, 2);
    assert_eq!(vals(&cur_path), vec![14, 23]);
    assert_eq!(indices, vec![5, 2]);
    assert_eq!(vals(&openings), vec![35, 42]);
}

struct Honest {
    cur_path: Vec<Mersenne61Mont>,
    openings: Vec<Mersenne61Mont>,
    round_paths: Vec<Vec<([u8; 32], [u8; 32])>>,
    first_path: Vec<[u8; 32]>,
    first_root: [u8; 32],
    round_roots: Vec<[u8; 32]>,
    table: Vec<Vec<Mersenne61Mont>>,
    final_value: Mersenne61Mont,
}

/// Query 0 of one round over a layer of four points, answered by the
/// prover's own codewords.
fn honest(layer: Vec<Mersenne61Mont>, point: Mersenne61Mont) -> Honest {
    let p0 = fes(&[5, 6, 7, 8]);
    let quotient = batch_quotient(&p0, fe(2), point, &layer);
    let (before, after) = batch_round(&fes(&[0, 0, 0, 0]), &quotient, &layer, fe(3), fe(4));
    let h = hash_elements(before[0], before[1]);
    let sib = hash_element(fe(77));
    let default = hash_bytes(&vec![0u8; 32]);
    let (s0, s1) = (hash_element(fe(1)), hash_element(fe(2)));
    let o1 = hash_pair(&hash_pair(&hash_element(p0[0]), &s0), &default);
    Honest {
        cur_path: vec![before[1]],
        openings: vec![p0[0]],
        round_paths: vec![vec![(h, sib)]],
        first_path: vec![s0, s1],
        first_root: hash_pair(&hash_pair(&o1, &s1), &default),
        round_roots: vec![hash_pair(&h, &sib)],
        table: vec![layer],
        final_value: after[0],
    }
}

fn check(c: &Honest, point: Mersenne61Mont) -> Result<(), BatchQueryError> {
    verify_batch_query(
        0,
        &c.cur_path,
        &c.openings,
        &c.round_paths,
        &c.first_path,
        &c.first_root,
        &c.round_roots,
        &c.table,
        &vec![fe(2)],
        point,
        fe(3),
        &vec![fe(4)],
        c.final_value,
        2,
        1,
    )
}

#[test]
fn verify_batch_query_accepts_the_prover_answer() {
    let c = honest(fes(&[3, 9, 5, 11]), fe(2));
    assert_eq!(check(&c, fe(2)), Ok(()));
}

#[test]
fn verify_batch_query_rejects_each_broken_part() {
    let mut c = honest(fes(&[3, 9, 5, 11]), fe(2));
    c.final_value = c.final_value.add(fe(1));
    assert_eq!(check(&c, fe(2)), Err(BatchQueryError::Final));

    let mut c = honest(fes(&[3, 9, 5, 11]), fe(2));
    c.cur_path[0] = c.cur_path[0].add(fe(1));
    assert_eq!(check(&c, fe(2)), Err(BatchQueryError::RoundPath(0)));

    let mut c = honest(fes(&[3, 9, 5, 11]), fe(2));
    c.first_root = hash_element(fe(0));
    assert_eq!(check(&c, fe(2)), Err(BatchQueryError::FirstPath));

    let c = honest(fes(&[3, 9, 5, 11]), fe(3));
    assert_eq!(check(&c, fe(3)), Err(BatchQueryError::Pole(0)));

    let c = honest(fes(&[0, 9, 5, 11]), fe(2));
    assert_eq!(check(&c, fe(2)), Err(BatchQueryError::ZeroPoint(0)));
}

#[test]
fn batch_table_holds_powers_of_the_generator() {
    // the generator of the field's only two-point domain is -1
    let field = RootOfUnity::of_field();
    let t = plonkish_backend::batched_fri::batch_table(1, &field);
    assert_eq!(t.len(), 1);
    assert_eq!(vals(&t[0]), vec![1, MODULUS - 1]);
    assert_eq!(plonkish_backend::batched_fri::batch_table(0, &field).len(), 0);
    // the generator of four points of -1 taken at order 2^30 is one
    let wide = RootOfUnity::new(fe(MODULUS - 1), 30).unwrap();
    let t = plonkish_backend::batched_fri::batch_table(2, &wide);
    assert_eq!(vals(&t[0]), vec![1, 1, 1, 1]);
    assert_eq!(vals(&t[1]), vec![1, 1]);
}

#[test]
fn batch_lde_and_commit() {
    // the encoding reads the first half of each level
    let table = vec![fes(&[1, 7, 0, 0]), fes(&[9, 0])];
    // (3, 5) repeated, one butterfly with (1, 7): (8, 38, -2, -32), bit-reversed
    let lde = plonkish_backend::batched_fri::batch_lde(&fes(&[3, 5]), 1, &table);
    assert_eq!(vals(&lde), vec![8, MODULUS - 2, 38, MODULUS - 32]);
    let (ldes, tree) = plonkish_backend::batched_fri::batch_commit(&vec![fes(&[3, 5]), fes(&[4])], 1, &table);
    assert_eq!(vals(&ldes[0]), vals(&lde));
    assert_eq!(vals(&ldes[1]), vec![4, 4]);
    assert_eq!(tree, plonkish_backend::mmcs::merkelize_mmcs(&ldes));
}

/// The prover's pieces composed as the batched opening runs them, then the
/// verifier's check of the queries that the last fold's first entry answers.
#[test]
fn honest_batched_opening_passes_every_query_check() {
    let d = RootOfUnity::new(fe(MODULUS - 1), 30).unwrap();
    let table = batch_table(4, &d);
    let polys = vec![fes(&[3, 1, 4, 1]), fes(&[5, 9]), fes(&[2])];
    let (ldes, comm_tree) = batch_commit(&polys, 2, &table);
    let mut rev = table.clone();
    reverse_layers(&mut rev);
    let point = fe(7);
    let evals = fes(&[10, 20, 30]);
    let lambda = fe(3);
    let alphas = fes(&[4, 5, 6]);
    let mut folded = vec![fe(0); 16];
    let mut tree_evals = vec![];
    let mut trees = vec![];
    for i in 0..3 {
        let q = batch_quotient(&ldes[i], evals[i], point, &rev[i]);
        let (before, after) = batch_round(&folded, &q, &rev[i], lambda, alphas[i]);
        trees.push(merkelize(&before));
        tree_evals.push(before);
        folded = after;
    }
    let final_value = folded[0];
    let first_root = comm_tree.last().unwrap()[0];
    let round_roots: Vec<[u8; 32]> = trees.iter().map(|t| t.last().unwrap()[0]).collect();
    for q in 0..8usize {
        let (cur_path, _indices, openings) = batch_query_path(q, &tree_evals, &ldes, 3);
        let first_path = get_merkle_path_mmcs(&comm_tree, q);
        let round_paths: Vec<Vec<([u8; 32], [u8; 32])>> =
            (0..3).map(|i| get_merkle_path(&trees[i], q >> i, false)).collect();
        let r = verify_batch_query(
            q,
            &cur_path,
            &openings,
            &round_paths,
            &first_path,
            &first_root,
            &round_roots,
            &rev,
            &evals,
            point,
            lambda,
            &alphas,
            final_value,
            4,
            3,
        );
        assert_eq!(r, Ok(()), "query {q}");
    }
}

/// The honest batched opening of three committed codewords through the
/// scheme, over the tables of the source -1 taken at order 2^30.
fn batched_run() -> (BatchedParams, BatchedCommitment, Vec<Mersenne61Mont>, BatchedChallenges) {
    let d = RootOfUnity::new(fe(MODULUS - 1), 30).unwrap();
    let table = batch_table(4, &d);
    let polys = vec![fes(&[3, 1, 4, 1]), fes(&[5, 9]), fes(&[2])];
    let (codewords, tree) = batch_commit(&polys, 2, &table);
    let mut layers = table.clone();
    reverse_layers(&mut layers);
    let pp = BatchedParams { log_evals: 4, rounds: 3, layers };
    let ch = BatchedChallenges { lambda: fe(3), alphas: fes(&[4, 5, 6]), queries: vec![0, 3, 5, 6, 7, 21] };
    (pp, BatchedCommitment { codewords, tree }, fes(&[10, 20, 30]), ch)
}

#[test]
fn batched_fri_open_then_verify_accepts() {
    let (pp, comm, evals, ch) = batched_run();
    let proof = batched_fri_open(&pp, &comm, &evals, fe(7), &ch);
    assert_eq!(proof.round_roots.len(), 3);
    assert_eq!(proof.answers.len(), 6);
    // position 21 reads position 5 of the sixteen
    assert_eq!(proof.answers[5].openings, proof.answers[2].openings);
    let root = comm.tree.last().unwrap()[0];
    assert_eq!(batched_fri_verify(&pp, root, &evals, fe(7), &proof, &ch), Ok(()));
}

#[test]
fn batched_fri_verify_rejects_changed_proofs() {
    let (pp, comm, evals, ch) = batched_run();
    let root = comm.tree.last().unwrap()[0];
    let mut proof = batched_fri_open(&pp, &comm, &evals, fe(7), &ch);
    proof.final_value = proof.final_value.add(fe(1));
    assert_eq!(
        batched_fri_verify(&pp, root, &evals, fe(7), &proof, &ch),
        Err(BatchedError::Query(0, BatchQueryError::Final))
    );
    let mut proof = batched_fri_open(&pp, &comm, &evals, fe(7), &ch);
    proof.answers[1].openings[0] = proof.answers[1].openings[0].add(fe(1));
    assert_eq!(
        batched_fri_verify(&pp, root, &evals, fe(7), &proof, &ch),
        Err(BatchedError::Query(1, BatchQueryError::FirstPath))
    );
    // a claimed value that differs changes every quotient term
    let proof = batched_fri_open(&pp, &comm, &evals, fe(7), &ch);
    assert!(batched_fri_verify(&pp, root, &fes(&[11, 20, 30]), fe(7), &proof, &ch).is_err());
    let mut proof = batched_fri_open(&pp, &comm, &evals, fe(7), &ch);
    proof.answers.pop();
    assert_eq!(batched_fri_verify(&pp, root, &evals, fe(7), &proof, &ch), Err(BatchedError::Shape));
}
