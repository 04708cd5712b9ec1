use ark_ff::{BigInt, PrimeField};
use gkr::field::Fq;

fn to_ark(x: &Fq) -> ark_bls12_381::Fq {
    ark_bls12_381::Fq::from_bigint(BigInt::new(x.to_limbs())).unwrap()
}

fn from_ark(x: ark_bls12_381::Fq) -> Fq {
    Fq::from_limbs(x.into_bigint().0).unwrap()
}

const MODULUS: [u64; 6] = [
    0xb9fe_ffff_ffff_aaab,
    0x1eab_fffe_b153_ffff,
    0x6730_d2a0_f6b0_f624,
    0x6477_4b84_f385_12bf,
    0x4b1b_a7b6_434b_acd7,
    0x1a01_11ea_397f_e69a,
];

#[test]
fn modulus_limbs_are_those_of_the_curve() {
    assert_eq!(ark_bls12_381::Fq::MODULUS.0, MODULUS);
}

#[test]
fn small_sums_and_products() {
    let three = Fq::from_u64(3);
    let five = Fq::from_u64(5);
    assert!(three.add(&five) == Fq::from_u64(8));
    assert!(three.mul(&five) == Fq::from_u64(15));
    assert!(five.sub(&three) == Fq::from_u64(2));
    assert!(Fq::zero() == Fq::from_u64(0));
    assert!(Fq::one() == Fq::from_u64(1));
    assert!(three != five);
}

#[test]
fn subtraction_wraps_around_the_modulus() {
    let minus_one = Fq::zero().sub(&Fq::one());
    let mut expected = MODULUS;
    expected[0] -= 1;
    assert_eq!(minus_one.to_limbs(), expected);
    assert!(minus_one.add(&Fq::one()) == Fq::zero());
    assert!(minus_one.mul(&minus_one) == Fq::one());
}

#[test]
fn from_limbs_accepts_only_canonical_limbs() {
    assert!(Fq::from_limbs(MODULUS).is_none());
    let mut below = MODULUS;
    below[0] -= 1;
    assert!(Fq::from_limbs(below).is_some());
    let mut above = MODULUS;
    above[0] += 1;
    assert!(Fq::from_limbs(above).is_none());
    let mut high = [0u64; 6];
    high[5] = 0x1a01_11ea_397f_e69b;
    assert!(Fq::from_limbs(high).is_none());
    high[5] = 0x1a01_11ea_397f_e699;
    high[0] = u64::MAX;
    assert!(Fq::from_limbs(high).is_some());
    assert_eq!(Fq::from_limbs([7, 0, 0, 0, 0, 0]).unwrap().to_limbs(), [7, 0, 0, 0, 0, 0]);
}

#[test]
fn arithmetic_agrees_with_the_curve_library() {
    let mut a = Fq::from_u64(0xdead_beef_1234_5678);
    let mut b = Fq::from_u64(0x0bad_cafe_8765_4321);
    for _ in 0..40 {
        let sum = a.add(&b);
        let product = a.mul(&b);
        let difference = a.sub(&b);
        assert_eq!(to_ark(&sum), to_ark(&a) + to_ark(&b));
        assert_eq!(to_ark(&product), to_ark(&a) * to_ark(&b));
        assert_eq!(to_ark(&difference), to_ark(&a) - to_ark(&b));
        assert!(from_ark(to_ark(&product)) == product);
        a = product.add(&Fq::one());
        b = difference.mul(&sum);
    }
}

#[test]
fn interpolate_is_the_line_through_two_values() {
    let lo = Fq::from_u64(10);
    let hi = Fq::from_u64(4);
    assert!(Fq::interpolate(&lo, &hi, &Fq::zero()) == lo);
    assert!(Fq::interpolate(&lo, &hi, &Fq::one()) == hi);
    // 10 + 3 * (4 - 10) = -8
    assert!(Fq::interpolate(&lo, &hi, &Fq::from_u64(3)) == Fq::zero().sub(&Fq::from_u64(8)));
}

#[test]
fn bytes_are_little_endian() {
    let mut out = vec![0xffu8];
    Fq::from_u64(0x0102_0304_0506_0708).write_le_bytes(&mut out);
    assert_eq!(out.len(), 49);
    assert_eq!(&out[..9], &[0xff, 8, 7, 6, 5, 4, 3, 2, 1]);
    assert!(out[9..].iter().all(|b| *b == 0));
    let mut all = Vec::new();
    let minus_one = Fq::zero().sub(&Fq::one());
    minus_one.write_le_bytes(&mut all);
    assert_eq!(ark_bls12_381::Fq::from_le_bytes_mod_order(&all), to_ark(&minus_one));
}
