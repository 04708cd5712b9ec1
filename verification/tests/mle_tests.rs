use ark_ff::{BigInt, PrimeField};
use ark_poly::{DenseMultilinearExtension, MultilinearExtension};
use gkr::field::Fq;
use gkr::mle::{is_pow2_of, pow2_checked, power_of_two, Mle};

fn elements(xs: &[u64]) -> Vec<Fq> {
    xs.iter().map(|x| Fq::from_u64(*x)).collect()
}

fn to_ark(x: &Fq) -> ark_bls12_381::Fq {
    ark_bls12_381::Fq::from_bigint(BigInt::new(x.to_limbs())).unwrap()
}

#[test]
fn build_wants_one_value_per_hypercube_point() {
    assert!(Mle::build(2, elements(&[1, 2, 3, 4])).is_some());
    assert!(Mle::build(2, elements(&[1, 2, 3])).is_none());
    assert!(Mle::build(1, elements(&[1, 2, 3, 4])).is_none());
    assert!(Mle::build(0, elements(&[9])).is_some());
    assert!(Mle::build(0, elements(&[])).is_none());
    assert!(Mle::build(200, elements(&[1, 2])).is_none());
}

#[test]
fn powers_of_two() {
    assert!(power_of_two(1) && power_of_two(2) && power_of_two(1 << 40));
    assert!(!power_of_two(0) && !power_of_two(3) && !power_of_two(12) && !power_of_two(usize::MAX));
    assert!(is_pow2_of(8, 3) && !is_pow2_of(8, 2) && !is_pow2_of(0, 0) && is_pow2_of(1, 0));
    assert_eq!(pow2_checked(10), Some(1024));
    assert_eq!(pow2_checked(0), Some(1));
    assert_eq!(pow2_checked(usize::BITS as usize), None);
    assert_eq!(pow2_checked(usize::BITS as usize - 1), Some(1usize << (usize::BITS - 1)));
}

#[test]
fn evaluation_agrees_with_table_on_hypercube() {
    let table = elements(&[7, 11, 13, 17, 19, 23, 29, 31]);
    let mle = Mle::build(3, table.clone()).unwrap();
    for x in 0..8usize {
        let point: Vec<Fq> = (0..3).map(|j| Fq::from_u64(((x >> j) & 1) as u64)).collect();
        assert!(mle.evaluate(&point) == table[x]);
    }
}

#[test]
fn evaluation_is_the_weighted_sum() {
    // f(x0, x1) with table [1, 2, 3, 4] is 1 + x0 + 2 x1, so f(5, 7) = 20.
    let mle = Mle::build(2, elements(&[1, 2, 3, 4])).unwrap();
    assert!(mle.evaluate(&elements(&[5, 7])) == Fq::from_u64(20));
    let constant = Mle::build(0, elements(&[42])).unwrap();
    assert!(constant.evaluate(&elements(&[])) == Fq::from_u64(42));
}

#[test]
fn fold_binds_the_lowest_variable() {
    let mle = Mle::build(3, elements(&[7, 11, 13, 17, 19, 23, 29, 31])).unwrap();
    let r = Fq::from_u64(1_000_003);
    let folded = mle.fold_one_variable(&r);
    assert_eq!(folded.num_vars(), 2);
    assert_eq!(folded.evaluations().len(), 4);
    // entry 0 is 7 + r (11 - 7)
    assert!(folded.evaluations()[0] == Fq::from_u64(7 + 4 * 1_000_003));
    for rest in [[0u64, 0], [1, 0], [3, 9], [123456, 654321]] {
        let rest = elements(&rest);
        let mut whole = vec![r];
        whole.extend(rest.iter().cloned());
        assert!(folded.evaluate(&rest) == mle.evaluate(&whole));
    }
}

#[test]
fn fix_variables_binds_a_prefix() {
    let mle = Mle::build(3, elements(&[7, 11, 13, 17, 19, 23, 29, 31])).unwrap();
    let fixed = mle.fix_variables(&elements(&[5, 6]));
    assert_eq!(fixed.num_vars(), 1);
    assert!(fixed.evaluate(&elements(&[9])) == mle.evaluate(&elements(&[5, 6, 9])));
    let same = mle.fix_variables(&elements(&[]));
    assert_eq!(same.num_vars(), 3);
    assert!(same.evaluate(&elements(&[1, 2, 3])) == mle.evaluate(&elements(&[1, 2, 3])));
}

#[test]
fn evaluation_agrees_with_the_polynomial_library() {
    let table = elements(&[3, 1, 4, 1, 5, 9, 2, 6, 5, 3, 5, 8, 9, 7, 9, 3]);
    let mle = Mle::build(4, table.clone()).unwrap();
    let dense =
        DenseMultilinearExtension::from_evaluations_vec(4, table.iter().map(to_ark).collect());
    let point = elements(&[101, 202, 303, 404]);
    let ark_point: Vec<ark_bls12_381::Fq> = point.iter().map(to_ark).collect();
    assert_eq!(Some(to_ark(&mle.evaluate(&point))), dense.evaluate(&ark_point));
    let fixed = mle.fix_variables(&point[..2].to_vec());
    let ark_fixed = dense.fix_variables(&ark_point[..2]);
    let ours: Vec<ark_bls12_381::Fq> = fixed.evaluations().iter().map(to_ark).collect();
    assert_eq!(ours, ark_fixed.evaluations);
}

#[test]
fn restriction_to_a_line_meets_both_ends() {
    let mle = Mle::build(3, elements(&[7, 11, 13, 17, 19, 23, 29, 31])).unwrap();
    let b = elements(&[2, 3, 5]);
    let c = elements(&[8, 13, 21]);
    let q = mle.restrict_to_line(&b, &c);
    assert!(q.len() <= 4);
    assert!(gkr::poly::evaluate(&q, &Fq::zero()) == mle.evaluate(&b));
    assert!(gkr::poly::evaluate(&q, &Fq::one()) == mle.evaluate(&c));
    let t = Fq::from_u64(77);
    let on_line: Vec<Fq> = (0..3).map(|j| Fq::interpolate(&b[j], &c[j], &t)).collect();
    assert!(gkr::poly::evaluate(&q, &t) == mle.evaluate(&on_line));
}

#[test]
fn restriction_has_the_coefficients_of_the_composition() {
    // f(x0, x1) = 1 + x0 + 2 x1 on the line t -> (t, t) is 1 + 3t
    let mle = Mle::build(2, elements(&[1, 2, 3, 4])).unwrap();
    let q = mle.restrict_to_line(&elements(&[0, 0]), &elements(&[1, 1]));
    assert!(q == elements(&[1, 3, 0]));
    // g(x0, x1) = x0 x1 on the line t -> (2 + t, 3 + 2t) is 6 + 7t + 2t^2
    let product = Mle::build(2, elements(&[0, 0, 0, 1])).unwrap();
    let q = product.restrict_to_line(&elements(&[2, 3]), &elements(&[3, 5]));
    assert!(q == elements(&[6, 7, 2]));
    let constant = Mle::build(0, elements(&[9])).unwrap();
    assert!(constant.restrict_to_line(&elements(&[]), &elements(&[])) == elements(&[9]));
}
