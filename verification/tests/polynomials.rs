use plonkish_backend::coset::{Coset, VanishingPolynomial};
use plonkish_backend::domain::RootOfUnity;
use plonkish_backend::mersenne_61_mont::{Mersenne61Mont, MODULUS};
use plonkish_backend::multilinear::{fold_indices, mult_poly, MultilinearPolynomial};

fn fe(x: u64) -> Mersenne61Mont {
    Mersenne61Mont::from_int(x)
}

fn fes(xs: &[u64]) -> Vec<Mersenne61Mont> {
    xs.iter().map(|&x| fe(x)).collect()
}

fn vals(xs: &[Mersenne61Mont]) -> Vec<u64> {
    xs.iter().map(|x| x.as_canonical_u64()).collect()
}

#[test]
fn coset_elements_are_shift_times_generator_powers() {
    // the field's only element of order two is -1
    let c = Coset::new(2, fe(3), &RootOfUnity::of_field());
    assert_eq!(c.size(), 2);
    assert_eq!(vals(&[c.element_at(0), c.element_at(1)]), vec![3, MODULUS - 3]);
    assert_eq!(c.element_at(1).mul(c.element_inv_at(1)).as_canonical_u64(), 1);
    let half = c.pow(2);
    assert_eq!(half.size(), 1);
    assert_eq!(half.element_at(0).as_canonical_u64(), 9);
}

#[test]
fn fft_evaluates_the_coefficients_on_the_coset() {
    let c = Coset::new(2, fe(2), &RootOfUnity::of_field());
    // 1 + 2x + 3x^2 at x = 2 is 17, at x = -2 it is 9
    assert_eq!(vals(&c.fft(fes(&[1, 2, 3]))), vec![17, 9]);
}

#[test]
fn ifft_undoes_fft_on_the_coset() {
    let c = Coset::new(2, fe(2), &RootOfUnity::of_field());
    let evals = c.fft(fes(&[4, 7]));
    assert_eq!(vals(&c.ifft(evals)), vec![4, 7]);
}

#[test]
fn vanishing_polynomial_is_x_to_the_n_minus_shift_to_the_n() {
    let v = VanishingPolynomial::new(&Coset::new(2, fe(2), &RootOfUnity::of_field()));
    assert_eq!(v.evaluation_at(fe(3)).as_canonical_u64(), 9 - 4);
    assert_eq!(v.evaluation_at(fe(2)).as_canonical_u64(), 0);
    assert_eq!(v.evaluation_at(fe(1)).as_canonical_u64(), MODULUS - 3);
}

#[test]
fn multilinear_boolean_evaluation_reads_the_value_table() {
    let p = MultilinearPolynomial::new(fes(&[3, 5, 7, 11]));
    assert_eq!(p.num_vars(), 2);
    assert_eq!(p.degree(), 3);
    assert_eq!(vals(&p.coefficients()), vec![3, 5, 7, 11]);
    assert_eq!(vals(&p.evaluate_hypercube()), vec![3, 5, 7, 11]);
    assert_eq!(p.evaluate_poly(&fes(&[0, 0])).as_canonical_u64(), 3);
    assert_eq!(p.evaluate_poly(&fes(&[1, 0])).as_canonical_u64(), 5);
    assert_eq!(p.evaluate_poly(&fes(&[0, 1])).as_canonical_u64(), 7);
    assert_eq!(p.evaluate_poly(&fes(&[1, 1])).as_canonical_u64(), 11);
    // coordinates other than one count as zero
    assert_eq!(p.evaluate_poly(&fes(&[5, 1])).as_canonical_u64(), 7);
}

#[test]
fn mult_poly_multiplies_value_by_value() {
    let a = MultilinearPolynomial::new(fes(&[1, 2, 3, 4]));
    let b = MultilinearPolynomial::new(fes(&[5, 6, 7, 8]));
    assert_eq!(vals(mult_poly(&a, &b).evals()), vec![5, 12, 21, 32]);
}

#[test]
fn fold_indices_sorts_and_dedups_the_residues() {
    assert_eq!(fold_indices(&vec![13, 2, 5, 10, 21], 8), vec![2, 5]);
    assert_eq!(fold_indices(&vec![], 8), Vec::<usize>::new());
    assert_eq!(fold_indices(&vec![7, 3, 3, 0], 4), vec![0, 3]);
}

#[test]
fn a_wider_source_gives_larger_cosets() {
    // -1 taken as a root of order 2^30: its domains below that size are
    // generated by one
    let d = RootOfUnity::new(fe(MODULUS - 1), 30).unwrap();
    let c = Coset::new(8, fe(5), &d);
    assert_eq!(c.size(), 8);
    assert_eq!(vals(&[c.element_at(0), c.element_at(7)]), vec![5, 5]);
    assert!(RootOfUnity::new(fe(3), 2).is_none());
    assert!(RootOfUnity::new(fe(MODULUS - 1), 31).is_none());
    assert_eq!(RootOfUnity::of_field().log_order(), 1);
}
