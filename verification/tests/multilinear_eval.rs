use plonkish_backend::mersenne_61_mont::Mersenne61Mont;
use plonkish_backend::p3_fri::multilinear_evaluation_ztoa;

fn fes(xs: &[u64]) -> Vec<Mersenne61Mont> {
    xs.iter().map(|&x| Mersenne61Mont::from_int(x)).collect()
}

fn vals(xs: &[Mersenne61Mont]) -> Vec<u64> {
    xs.iter().map(|x| x.as_canonical_u64()).collect()
}

#[test]
fn ztoa_folds_to_the_multilinear_value() {
    // 1 + 0 * 0 twice, then 1 + 5 * 1
    let mut poly = fes(&[1, 0, 1, 0]);
    multilinear_evaluation_ztoa(&mut poly, &fes(&[0, 5]));
    assert_eq!(vals(&poly), vec![6]);
    // sum of poly[i] times the point's coordinates at the set bits of i
    let mut poly = fes(&[2, 3, 5, 7]);
    multilinear_evaluation_ztoa(&mut poly, &fes(&[10, 100]));
    assert_eq!(vals(&poly), vec![2 + 3 * 10 + 5 * 100 + 7 * 1000]);
}

#[test]
fn ztoa_with_fewer_points_halves_once_per_point() {
    let mut poly = fes(&[2, 3, 5, 7]);
    multilinear_evaluation_ztoa(&mut poly, &fes(&[10]));
    assert_eq!(vals(&poly), vec![32, 75]);
    let mut poly = fes(&[4, 4, 4, 4]);
    multilinear_evaluation_ztoa(&mut poly, &vec![]);
    assert_eq!(vals(&poly), vec![4, 4, 4, 4]);
}
