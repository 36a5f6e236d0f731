use plonkish_backend::fold::fold_row;
use plonkish_backend::mersenne_61_mont::{Mersenne61Mont, MODULUS};
use plonkish_backend::p3_fri::virtual_open;

fn fe(x: u64) -> Mersenne61Mont {
    Mersenne61Mont::from_int(x)
}

fn fes(xs: &[u64]) -> Vec<Mersenne61Mont> {
    xs.iter().map(|&x| fe(x)).collect()
}

fn vals(xs: &[Mersenne61Mont]) -> Vec<u64> {
    xs.iter().map(|x| x.as_canonical_u64()).collect()
}

#[test]
fn fold_row_combines_the_half_sum_and_the_weighted_half_difference() {
    // pair (5, 3) with table entry 2: (5 + 3) / 2 + 7 * (5 - 3) / 2 / 2 = 4 + 3.5 * ... in the field
    let r = fold_row(&fes(&[5, 3, 9, 1]), fe(7), &fes(&[2, 0, 4, 0]));
    let inv2 = (MODULUS + 1) / 2;
    // 4 + 7 * 1 * inv(2)
    let first = (4 + 7 * inv2 as u128 % MODULUS as u128) as u64 % MODULUS;
    // 5 + 7 * 4 * inv(4) = 5 + 7
    assert_eq!(vals(&r), vec![first, 12]);
}

#[test]
fn fold_row_treats_a_zero_table_entry_as_zero_weight() {
    let r = fold_row(&fes(&[5, 3]), fe(7), &fes(&[0, 1]));
    assert_eq!(vals(&r), vec![4]);
}

#[test]
fn from_hash_reads_the_whole_hash_big_endian_modulo_p() {
    let mut h = [0u8; 32];
    h[31] = 5;
    h[30] = 1;
    assert_eq!(Mersenne61Mont::from_hash(h).as_canonical_u64(), 261);
    // 2^248 is 2^4 modulo 2^61 - 1, so the first byte counts sixteen-fold
    h[0] = 0xff;
    assert_eq!(Mersenne61Mont::from_hash(h).as_canonical_u64(), 261 + 255 * 16);
    // 2^64 is 8 modulo 2^61 - 1
    let mut g = [0u8; 32];
    g[23] = 1;
    assert_eq!(Mersenne61Mont::from_hash(g).as_canonical_u64(), 8);
    let mut top = [0u8; 32];
    top[0] = 1;
    assert_eq!(Mersenne61Mont::from_hash(top).as_canonical_u64(), 16);
}

#[test]
fn virtual_open_draws_one_challenge_per_remaining_round() {
    let table = vec![vec![(fe(1), fe(1))], vec![(fe(1), fe(1)); 2]];
    let mut challenges = fes(&[42]);
    assert!(virtual_open(2, 0, &fes(&[1, 2, 3, 4]), &mut challenges, &table));
    assert_eq!(challenges.len(), 3);
    assert_eq!(challenges[0].as_canonical_u64(), 42);
    // each drawn challenge is a sum of eight bytes
    assert!(challenges[1].as_canonical_u64() <= 8 * 255);
    assert!(challenges[2].as_canonical_u64() <= 8 * 255);
}
