use gkr::field::Fq;
use gkr::mle::Mle;
use gkr::poly;
use gkr::sumcheck::interactive::interactive_protocol;
use gkr::sumcheck::non_interactive::{non_interactive_protocol, verify_non_interactive_proof, Proof};
use gkr::sumcheck::product_sum::ProductSum;
use gkr::sumcheck::prover::Prover;
use gkr::sumcheck::checker::{Phase, Verifier};

fn elements(xs: &[u64]) -> Vec<Fq> {
    xs.iter().map(|x| Fq::from_u64(*x)).collect()
}

/// g(x0, x1, x2) = 2 x0^3 + x0 x2 + x1 x2, which sums to 12 over the cube.
fn cubic() -> ProductSum {
    let two = Mle::build(3, elements(&[2; 8])).unwrap();
    let x0 = Mle::build(3, elements(&[0, 1, 0, 1, 0, 1, 0, 1])).unwrap();
    let x1 = Mle::build(3, elements(&[0, 0, 1, 1, 0, 0, 1, 1])).unwrap();
    let x2 = Mle::build(3, elements(&[0, 0, 0, 0, 1, 1, 1, 1])).unwrap();
    ProductSum::build(3, vec![two, x0, x1, x2], vec![vec![0, 1, 1, 1], vec![1, 3], vec![2, 3]])
        .unwrap()
}

#[test]
fn build_checks_tables_and_terms() {
    let t = || Mle::build(1, elements(&[1, 2])).unwrap();
    assert!(ProductSum::build(1, vec![t()], vec![vec![0, 0]]).is_some());
    assert!(ProductSum::build(1, vec![t()], vec![vec![0, 1]]).is_none());
    assert!(ProductSum::build(2, vec![t()], vec![vec![0]]).is_none());
    assert!(ProductSum::build(1, vec![], vec![]).is_none());
}

#[test]
fn sum_and_value_of_the_cubic() {
    let g = cubic();
    assert_eq!(g.num_vars(), 3);
    assert_eq!(g.degree(), 4);
    assert!(g.sum() == Fq::from_u64(12));
    // g(2, 3, 5) = 16 + 10 + 15
    assert!(g.evaluate(&elements(&[2, 3, 5])) == Fq::from_u64(41));
    assert!(g.evaluate_at(&elements(&[2, 3])).is_none());
}

#[test]
fn round_polynomial_sums_to_the_claim() {
    let g = cubic();
    let round = g.round_polynomial();
    // g_1(X) = sum over x1, x2 of g(X, x1, x2) = 8 X^3 + 2 X + 1
    assert_eq!(round.len(), 5);
    assert!(round[0] == Fq::from_u64(1));
    assert!(round[1] == Fq::from_u64(2));
    assert!(round[2] == Fq::zero());
    assert!(round[3] == Fq::from_u64(8));
    assert!(round[4] == Fq::zero());
    let at0 = poly::evaluate(&round, &Fq::zero());
    let at1 = poly::evaluate(&round, &Fq::one());
    assert!(at0.add(&at1) == g.sum());
    let r = Fq::from_u64(9);
    let folded = g.duplicate().fold(&r);
    assert!(poly::evaluate(&round, &r) == folded.sum());
}

#[test]
fn every_round_of_an_honest_run_meets_its_claim() {
    let g = cubic();
    let mut prover = Prover::new(&g);
    let mut claim = prover.claimed_sum();
    for (j, r) in [17u64, 4, 99].iter().enumerate() {
        assert_eq!(prover.rounds_left(), 3 - j);
        let round = prover.round();
        let at0 = poly::evaluate(&round, &Fq::zero());
        let at1 = poly::evaluate(&round, &Fq::one());
        assert!(at0.add(&at1) == claim);
        let r = Fq::from_u64(*r);
        claim = poly::evaluate(&round, &r);
        prover = prover.receive_challenge(&r);
    }
    assert!(claim == g.evaluate(&elements(&[17, 4, 99])));
}

#[test]
fn interactive_protocol_accepts_the_true_sum() {
    let g = cubic();
    for _ in 0..5 {
        assert!(interactive_protocol(&g, &Fq::from_u64(12)));
    }
}

#[test]
fn interactive_protocol_rejects_a_false_sum() {
    let g = cubic();
    assert!(!interactive_protocol(&g, &Fq::from_u64(13)));
    assert!(!interactive_protocol(&g, &Fq::zero()));
}

#[test]
fn verifier_walks_through_its_phases() {
    let g = cubic();
    let mut prover = Prover::new(&g);
    let mut verifier = Verifier::new(3, 4, Fq::from_u64(12));
    assert!(verifier.phase() == Phase::Round(0));
    for (j, r) in [5u64, 6, 7].iter().enumerate() {
        assert!(verifier.phase() == Phase::Round(j));
        let round = prover.round();
        let r = Fq::from_u64(*r);
        verifier.receive_round(&round, &r);
        prover = prover.receive_challenge(&r);
    }
    assert!(verifier.phase() == Phase::Done);
    assert_eq!(verifier.point().len(), 3);
    let oracle = g.evaluate(verifier.point());
    assert!(verifier.claim() == oracle);
    assert!(verifier.final_check(&oracle));
    assert!(!verifier.final_check(&oracle.add(&Fq::one())));
    // a round too many
    verifier.receive_round(&vec![oracle], &Fq::one());
    assert!(verifier.phase() == Phase::Rejected);
    assert!(!verifier.final_check(&oracle));
}

#[test]
fn verifier_rejects_a_wrong_round_or_too_high_a_degree() {
    let g = cubic();
    let round = g.round_polynomial();
    let mut tampered = round.clone();
    tampered[1] = tampered[1].add(&Fq::one());
    let mut verifier = Verifier::new(3, 4, Fq::from_u64(12));
    verifier.receive_round(&tampered, &Fq::from_u64(3));
    assert!(verifier.phase() == Phase::Rejected);
    // once rejected, for good
    verifier.receive_round(&round, &Fq::from_u64(3));
    assert!(verifier.phase() == Phase::Rejected);

    let mut strict = Verifier::new(3, 3, Fq::from_u64(12));
    strict.receive_round(&round, &Fq::from_u64(3));
    assert!(strict.phase() == Phase::Rejected);
    let mut enough = Verifier::new(3, 4, Fq::from_u64(12));
    enough.receive_round(&round, &Fq::from_u64(3));
    assert!(enough.phase() == Phase::Round(1));
    // before the last round the final check cannot pass
    assert!(!enough.final_check(&enough.claim()));
}

#[test]
fn non_interactive_proof_is_accepted() {
    let g = cubic();
    let proof = non_interactive_protocol(&g);
    assert_eq!(proof.rounds.len(), 3);
    assert!(verify_non_interactive_proof(&g, &Fq::from_u64(12), &proof));
    // the same proof is produced again
    let again = non_interactive_protocol(&g);
    assert!(again.rounds == proof.rounds);
    assert!(again.evaluation == proof.evaluation);
}

#[test]
fn non_interactive_verifier_rejects_what_is_not_the_proof() {
    let g = cubic();
    let proof = non_interactive_protocol(&g);
    assert!(!verify_non_interactive_proof(&g, &Fq::from_u64(13), &proof));

    let mut rounds = proof.rounds.clone();
    rounds[1][0] = rounds[1][0].add(&Fq::one());
    let tampered = Proof { rounds, evaluation: proof.evaluation };
    assert!(!verify_non_interactive_proof(&g, &Fq::from_u64(12), &tampered));

    let short = Proof { rounds: proof.rounds[..2].to_vec(), evaluation: proof.evaluation };
    assert!(!verify_non_interactive_proof(&g, &Fq::from_u64(12), &short));

    let wrong_value =
        Proof { rounds: proof.rounds.clone(), evaluation: proof.evaluation.add(&Fq::one()) };
    assert!(!verify_non_interactive_proof(&g, &Fq::from_u64(12), &wrong_value));
}

#[test]
fn interactive_and_non_interactive_sumcheck_runs_agree() {
    let g = cubic();
    let proof = non_interactive_protocol(&g);
    for claim in [12u64, 13] {
        let claim = Fq::from_u64(claim);
        assert_eq!(
            interactive_protocol(&g, &claim),
            verify_non_interactive_proof(&g, &claim, &proof)
        );
    }
}

#[test]
fn polynomial_arithmetic() {
    let p = elements(&[1, 2, 3]);
    // 1 + 2 * 5 + 3 * 25
    assert!(poly::evaluate(&p, &Fq::from_u64(5)) == Fq::from_u64(86));
    assert!(poly::evaluate(&vec![], &Fq::from_u64(5)) == Fq::zero());
    assert!(poly::add_polys(&p, &elements(&[10])) == elements(&[11, 2, 3]));
    assert!(poly::sub_polys(&p, &elements(&[1, 1, 1, 0])) == elements(&[0, 1, 2, 0]));
    // (1 + 2X + 3X^2)(4 + 5X) = 4 + 13X + 22X^2 + 15X^3
    assert!(
        poly::mul_linear(&p, &Fq::from_u64(4), &Fq::from_u64(5)) == elements(&[4, 13, 22, 15])
    );
    assert!(poly::mul_linear(&vec![], &Fq::from_u64(4), &Fq::from_u64(5)) == elements(&[0]));
}
