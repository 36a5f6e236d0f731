use plonkish_backend::mersenne_61_mont::{Mersenne61Mont, MODULUS};
use plonkish_backend::zeromorph_fri_v2::{
    evaluation_codeword, q_hat_coeffs, quotient_codeword, virtual_poly_coeffs,
};

fn fe(x: u64) -> Mersenne61Mont {
    Mersenne61Mont::from_int(x)
}

fn fes(xs: &[u64]) -> Vec<Mersenne61Mont> {
    xs.iter().map(|&x| fe(x)).collect()
}

fn vals(xs: &[Mersenne61Mont]) -> Vec<u64> {
    xs.iter().map(|x| x.as_canonical_u64()).collect()
}

#[test]
fn q_hat_places_each_quotient_at_the_top() {
    // q_0 = 5 lands at 2^2 - 1 = 3; q_1 = (7, 11), times 3, at 2^2 - 2 = 2
    let qs = vec![fes(&[5]), fes(&[7, 11])];
    assert_eq!(vals(&q_hat_coeffs(&qs, fe(3), 2)), vec![0, 0, 21, 38]);
    assert_eq!(vals(&q_hat_coeffs(&vec![], fe(3), 1)), vec![0, 0]);
}

#[test]
fn virtual_poly_adds_every_term() {
    let qs = vec![fes(&[5]), fes(&[7, 11])];
    let f = fes(&[1, 2, 3, 4]);
    // 2 f + q_hat = (2, 4, 27, 46); + 6 * 5 at 0; + 10 * 5 at 0; + 100 * (7, 11)
    let g = virtual_poly_coeffs(&f, &qs, fe(3), fe(2), fe(5), fe(6), &fes(&[10, 100]), 2);
    assert_eq!(vals(&g), vec![782, 1104, 27, 46]);
}

#[test]
fn quotient_codeword_divides_by_the_points() {
    let level = vec![(fe(1), fe(0)), (fe(2), fe(0))];
    // bit-reversed (4, 8, 6, 10) over the points (1, -1, 2, -2)
    let c = quotient_codeword(&fes(&[4, 6, 8, 10]), &level, fe(0));
    assert_eq!(vals(&c), vec![4, MODULUS - 8, 3, MODULUS - 5]);
    // where the point is the divisor's root the entry is zero
    let c = quotient_codeword(&fes(&[4, 6, 8, 10]), &level, fe(1));
    assert_eq!(c[0].as_canonical_u64(), 0);
}

#[test]
fn evaluation_codeword_encodes_then_divides() {
    // g = (3, 5); the encoding with twiddles (1, 2) is (8, 13, -2, -7)
    let table = vec![fes(&[1]), fes(&[1, 2])];
    let level = vec![(fe(1), fe(0)), (fe(2), fe(0))];
    let c = evaluation_codeword(
        &fes(&[3, 5]),
        &vec![],
        fe(3),
        fe(9),
        fe(1),
        fe(0),
        fe(0),
        &vec![],
        1,
        1,
        &table,
        &level,
    );
    // (8, -2, 13, -7) over (1 - 3, -1 - 3, 2 - 3, -2 - 3)
    let expected = vec![
        fe(MODULUS - 4),
        Mersenne61Mont::inverse_2(),
        fe(MODULUS - 13),
        fe(7).div(fe(5)),
    ];
    assert_eq!(vals(&c), vals(&expected));
}

#[test]
fn pad_quotients_fills_with_zeros() {
    let padded = plonkish_backend::zeromorph_fri_v2::pad_quotients(&vec![fes(&[5]), fes(&[7, 11])], 2);
    assert_eq!(vals(&padded[0]), vec![5, 0, 0, 0]);
    assert_eq!(vals(&padded[1]), vec![7, 11, 0, 0]);
}

#[test]
fn eval_at_x_batches_the_quotient_values() {
    // 2 * 3 + 10 * 4 + 100 * 5
    let v = plonkish_backend::zeromorph_fri::eval_at_x(fe(2), fe(3), &fes(&[4, 5]), &fes(&[10, 100]));
    assert_eq!(v.as_canonical_u64(), 546);
    // extra values without scalars are not read
    let v = plonkish_backend::zeromorph_fri::eval_at_x(fe(2), fe(3), &fes(&[4, 5, 6]), &fes(&[10, 100]));
    assert_eq!(v.as_canonical_u64(), 546);
}
