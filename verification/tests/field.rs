use plonkish_backend::fold::{exp_power_of_2, exp_u64, interpolate2, interpolate2_weights};
use plonkish_backend::mersenne_61_mont::{Mersenne61Mont, MODULUS};
use plonkish_backend::util::{bits_u64, log2_strict};

fn fe(x: u64) -> Mersenne61Mont {
    Mersenne61Mont::from_int(x)
}

#[test]
fn field_addition_wraps_around_the_modulus() {
    let a = fe(MODULUS - 1);
    assert_eq!(a.add(fe(2)).as_canonical_u64(), 1);
    assert_eq!(fe(MODULUS).as_canonical_u64(), 0);
    assert_eq!(fe(MODULUS + 5).as_canonical_u64(), 5);
}

#[test]
fn field_subtraction_and_negation() {
    assert_eq!(fe(3).sub(fe(5)).as_canonical_u64(), MODULUS - 2);
    assert_eq!(fe(7).neg().as_canonical_u64(), MODULUS - 7);
    assert_eq!(fe(0).neg().as_canonical_u64(), 0);
}

#[test]
fn field_multiplication_reduces() {
    // 2^32 * 2^32 = 2^64 = 8 * (2^61 - 1) + 8
    let x = fe(1u64 << 32);
    assert_eq!(x.mul(x).as_canonical_u64(), 8);
    assert_eq!(fe(12).square().as_canonical_u64(), 144);
    assert_eq!(fe(21).double().as_canonical_u64(), 42);
}

#[test]
fn field_inverse_and_division() {
    let a = fe(123456789);
    assert_eq!(a.mul(a.inverse()).as_canonical_u64(), 1);
    assert_eq!(fe(2).mul(Mersenne61Mont::inverse_2()).as_canonical_u64(), 1);
    assert_eq!(fe(10).div(fe(5)).as_canonical_u64(), 2);
    assert_eq!(fe(1).div(fe(2)).as_canonical_u64(), (MODULUS + 1) / 2);
}

#[test]
fn field_equality_and_zero() {
    assert!(fe(5).equals(&fe(MODULUS + 5)));
    assert!(!fe(5).equals(&fe(6)));
    assert!(fe(MODULUS).iszero());
    assert!(!Mersenne61Mont::one().iszero());
    assert_eq!(Mersenne61Mont::root_of_unity().as_canonical_u64(), MODULUS - 1);
    // a primitive square root of one
    let w = Mersenne61Mont::root_of_unity();
    assert_eq!(w.mul(w).as_canonical_u64(), 1);
    assert_eq!(exp_power_of_2(w, 1).as_canonical_u64(), 1);
}

#[test]
fn field_bytes_round_trip() {
    let b = fe(0x0102030405060708).to_bytes();
    assert_eq!(b, vec![8, 7, 6, 5, 4, 3, 2, 1]);
    let mut arr = [0u8; 8];
    arr.copy_from_slice(&b);
    assert_eq!(Mersenne61Mont::from_le_bytes8(arr).as_canonical_u64(), 0x0102030405060708);
    // 2^64 - 1 = 8 * (2^61 - 1) + 7
    assert_eq!(Mersenne61Mont::from_le_bytes8([0xff; 8]).as_canonical_u64(), 7);
}

#[test]
fn field_random_elements_are_canonical() {
    for _ in 0..16 {
        assert!(Mersenne61Mont::random_element().as_canonical_u64() < MODULUS);
    }
}

#[test]
fn powers_by_squaring() {
    assert_eq!(exp_u64(&fe(3), 5).as_canonical_u64(), 243);
    assert_eq!(exp_u64(&fe(3), 0).as_canonical_u64(), 1);
    assert_eq!(exp_u64(&fe(2), 61).as_canonical_u64(), 1);
    assert_eq!(exp_power_of_2(fe(3), 2).as_canonical_u64(), 81);
    assert_eq!(exp_power_of_2(fe(5), 0).as_canonical_u64(), 5);
}

#[test]
fn two_point_interpolation() {
    // the line through (1, 2) and (3, 8) is 3x - 1
    let pts = [(fe(1), fe(2)), (fe(3), fe(8))];
    assert_eq!(interpolate2(pts, fe(2)).as_canonical_u64(), 5);
    assert_eq!(interpolate2(pts, fe(1)).as_canonical_u64(), 2);
    assert_eq!(interpolate2(pts, fe(3)).as_canonical_u64(), 8);
    let w = fe(2).inverse();
    assert_eq!(interpolate2_weights(pts, w, fe(4)).as_canonical_u64(), 11);
}

#[test]
fn logarithms_and_bit_lengths() {
    assert_eq!(log2_strict(1), 0);
    assert_eq!(log2_strict(1024), 10);
    assert_eq!(bits_u64(0), 0);
    assert_eq!(bits_u64(1), 1);
    assert_eq!(bits_u64(255), 8);
    assert_eq!(bits_u64(256), 9);
    assert_eq!(bits_u64(u64::MAX), 64);
}
