use plonkish_backend::basefold::QueryError;
use plonkish_backend::hash::hash_elements;
use plonkish_backend::domain::RootOfUnity;
use plonkish_backend::fold::interpolate2;
use plonkish_backend::mersenne_61_mont::{Mersenne61Mont, MODULUS};
use plonkish_backend::zeromorph_fri_v2::{verify_query, QueryCheckError};

fn fe(x: u64) -> Mersenne61Mont {
    Mersenne61Mont::from_int(x)
}

/// A query on a polynomial column `(3, 5)` and one quotient column `(2, 9)`,
/// with `x = 10`, `y = 1`, `z = 2`, `eval = 7`, `eval_scalar = 4`, the
/// quotient scalar `11` and the last level's point `c`, in one variable
/// at rate one half, on the domains of -1 taken at order 2^30.
struct Case {
    points: Vec<Vec<Mersenne61Mont>>,
    paths: Vec<Vec<([u8; 32], [u8; 32])>>,
    roots: Vec<[u8; 32]>,
    level: Vec<(Mersenne61Mont, Mersenne61Mont)>,
}

fn honest_case(c: u64) -> Case {
    let points = vec![vec![fe(3), fe(5)], vec![fe(2), fe(9)]];
    let mut paths = Vec::new();
    let mut roots = Vec::new();
    for col in &points {
        let h = hash_elements(col[0], col[1]);
        paths.push(vec![(h, h)]);
        roots.push(h);
    }
    Case { points, paths, roots, level: vec![(fe(c), fe(0))] }
}

/// `(f z + q c^(2 - 1) + eval_scalar eval + s q) / (c - x)` with one quotient.
fn virtual_at(f: u64, q: u64, c: Mersenne61Mont) -> Mersenne61Mont {
    let num = fe(f).mul(fe(2)).add(fe(q).mul(c)).add(fe(4).mul(fe(7))).add(fe(11).mul(fe(q)));
    num.div(c.sub(fe(10)))
}

fn run(case: &Case, num_rounds: usize, ldt_pairs: &Vec<Vec<Mersenne61Mont>>) -> Result<(), QueryCheckError> {
    verify_query(
        0,
        &case.points,
        &case.paths,
        &case.roots,
        &case.level,
        fe(10),
        fe(1),
        fe(2),
        fe(7),
        fe(4),
        &vec![fe(11)],
        1,
        num_rounds,
        1,
        ldt_pairs,
        &vec![],
        &vec![fe(3)],
        &vec![],
        &RootOfUnity::new(fe(MODULUS - 1), 30).unwrap(),
    )
}

#[test]
fn verify_query_rejects_a_pole() {
    let case = honest_case(10);
    assert_eq!(run(&case, 0, &vec![]), Err(QueryCheckError::Pole));
    let case = honest_case((1u64 << 61) - 11);
    assert_eq!(run(&case, 0, &vec![]), Err(QueryCheckError::Pole));
}

#[test]
fn verify_query_rejects_a_bad_column_opening() {
    let mut case = honest_case(6);
    let h = case.roots[0];
    case.paths[0] = vec![(h, hash_elements(fe(1), fe(1)))];
    assert_eq!(run(&case, 0, &vec![]), Err(QueryCheckError::ColumnRoot(0)));

    let mut case = honest_case(6);
    let other = hash_elements(fe(1), fe(1));
    case.paths[1] = vec![(other, other)];
    case.roots[1] = other;
    assert_eq!(run(&case, 0, &vec![]), Err(QueryCheckError::ColumnPath(1)));
    assert_eq!(run(&honest_case(6), 0, &vec![]), Ok(()));
}

#[test]
fn verify_query_accepts_the_fold_of_the_virtual_pair() {
    let case = honest_case(6);
    let g = virtual_at(3, 2, fe(6));
    let gs = virtual_at(5, 9, fe(6).neg());
    // query 0 sits at the point 1 and its negation in the first round
    let folded = interpolate2([(fe(1), g), (fe(1).neg(), gs)], fe(3));
    assert_eq!(run(&case, 1, &vec![vec![folded, fe(0)]]), Ok(()));
    // a different value in the next round is a fold mismatch
    assert_eq!(
        run(&case, 1, &vec![vec![folded.add(fe(1)), fe(0)]]),
        Err(QueryCheckError::Round(QueryError::FoldMismatch(0)))
    );
}
