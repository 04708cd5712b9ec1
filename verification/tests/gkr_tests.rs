use gkr::gkr::circuit::{Circuit, CircuitError, GateType};
use gkr::field::Fq;
use gkr::gkr::interactive::interactive_protocol;
use gkr::gkr::non_interactive::{verify, Proof};
use gkr::gkr::prover::{draw_point, Prover};
use gkr::gkr::claim::{Claim, LayerProof};
use gkr::mle::Mle;
use gkr::poly;
use gkr::transcript::ChallengeSource;

fn elements(xs: &[u64]) -> Vec<Fq> {
    xs.iter().map(|x| Fq::from_u64(*x)).collect()
}

fn adder_tree(inputs: &[u64]) -> Circuit {
    let layers = vec![
        vec![GateType::Add, GateType::Add, GateType::Add, GateType::Add],
        vec![GateType::Add, GateType::Add],
        vec![GateType::Add],
    ];
    Circuit::new(layers, &elements(inputs)).unwrap()
}

const LEAVES: [u64; 8] = [10, 1, 2, 3, 11, 4, 5, 7];

fn copy_layer(p: &LayerProof) -> LayerProof {
    LayerProof { rounds: p.rounds.clone(), line: p.line.clone(), left: p.left, right: p.right }
}

fn copy_proof(p: &Proof) -> Proof {
    Proof { layers: p.layers.iter().map(copy_layer).collect() }
}

#[test]
fn single_add_gate_is_accepted() {
    let circuit = Circuit::new(vec![vec![GateType::Add]], &elements(&[3, 5])).unwrap();
    assert!(circuit.outputs() == elements(&[8]));
    assert_eq!(interactive_protocol(&circuit, &elements(&[8])), Ok(true));
    let proof = Prover::new(&circuit).prove().unwrap();
    assert_eq!(proof.layers.len(), 1);
    assert_eq!(verify(&circuit, &elements(&[8]), &proof), Ok(true));
}

#[test]
fn single_mult_gate_is_accepted() {
    let circuit = Circuit::new(vec![vec![GateType::Mult]], &elements(&[3, 5])).unwrap();
    assert!(circuit.outputs() == elements(&[15]));
    assert_eq!(interactive_protocol(&circuit, &elements(&[15])), Ok(true));
    let proof = Prover::new(&circuit).prove().unwrap();
    assert_eq!(verify(&circuit, &elements(&[15]), &proof), Ok(true));
    assert_eq!(verify(&circuit, &elements(&[8]), &proof), Ok(false));
}

#[test]
fn three_layer_sum_is_accepted() {
    let circuit = adder_tree(&LEAVES);
    assert!(circuit.outputs() == elements(&[43]));
    assert_eq!(interactive_protocol(&circuit, &elements(&[43])), Ok(true));
    let proof = Prover::new(&circuit).prove().unwrap();
    assert_eq!(proof.layers.len(), 3);
    // two positions of 0, 1 and 2 bits below the three gate layers
    assert_eq!(proof.layers[0].rounds.len(), 2);
    assert_eq!(proof.layers[1].rounds.len(), 4);
    assert_eq!(proof.layers[2].rounds.len(), 6);
    assert_eq!(verify(&circuit, &elements(&[43]), &proof), Ok(true));
}

#[test]
fn a_false_output_is_rejected() {
    let circuit = adder_tree(&LEAVES);
    let proof = Prover::new(&circuit).prove().unwrap();
    for wrong in [0u64, 42, 44] {
        assert_eq!(verify(&circuit, &elements(&[wrong]), &proof), Ok(false));
        assert_eq!(interactive_protocol(&circuit, &elements(&[wrong])), Ok(false));
    }
    assert_eq!(verify(&circuit, &elements(&[43, 0]), &proof), Ok(false));
    assert_eq!(interactive_protocol(&circuit, &elements(&[])), Ok(false));
}

#[test]
fn tampering_with_any_leaf_is_rejected() {
    let circuit = adder_tree(&LEAVES);
    let proof = Prover::new(&circuit).prove().unwrap();
    for leaf in 0..8 {
        let mut leaves = LEAVES;
        leaves[leaf] += 1;
        let tampered = adder_tree(&leaves);
        assert_eq!(verify(&tampered, &elements(&[43]), &proof), Ok(false));
        assert_eq!(interactive_protocol(&tampered, &elements(&[43])), Ok(false));
        // the tampered circuit proves its own output
        assert_eq!(interactive_protocol(&tampered, &elements(&[44])), Ok(true));
    }
}

#[test]
fn tampering_with_the_proof_is_rejected() {
    let circuit = adder_tree(&LEAVES);
    let outputs = elements(&[43]);
    let proof = Prover::new(&circuit).prove().unwrap();
    let one = Fq::one();
    for layer in 0..3 {
        let mut p = copy_proof(&proof);
        p.layers[layer].left = p.layers[layer].left.add(&one);
        assert_eq!(verify(&circuit, &outputs, &p), Ok(false));

        let mut p = copy_proof(&proof);
        p.layers[layer].right = p.layers[layer].right.add(&one);
        assert_eq!(verify(&circuit, &outputs, &p), Ok(false));

        let mut p = copy_proof(&proof);
        let last = p.layers[layer].line.len() - 1;
        p.layers[layer].line[last] = p.layers[layer].line[last].add(&one);
        assert_eq!(verify(&circuit, &outputs, &p), Ok(false));

        let mut p = copy_proof(&proof);
        p.layers[layer].rounds[0][0] = p.layers[layer].rounds[0][0].add(&one);
        assert_eq!(verify(&circuit, &outputs, &p), Ok(false));

        let mut p = copy_proof(&proof);
        p.layers[layer].rounds.pop();
        assert_eq!(verify(&circuit, &outputs, &p), Ok(false));

        let mut p = copy_proof(&proof);
        p.layers[layer].line.push(Fq::zero());
        p.layers[layer].line.push(Fq::zero());
        p.layers[layer].line.push(Fq::zero());
        assert_eq!(verify(&circuit, &outputs, &p), Ok(false));
    }
    let mut short = copy_proof(&proof);
    short.layers.pop();
    assert_eq!(verify(&circuit, &outputs, &short), Ok(false));
    let mut long = copy_proof(&proof);
    long.layers.push(copy_layer(&proof.layers[2]));
    assert_eq!(verify(&circuit, &outputs, &long), Ok(false));
}

#[test]
fn interactive_and_non_interactive_gkr_runs_agree() {
    let cases: Vec<(Circuit, Vec<Fq>)> = vec![
        (adder_tree(&LEAVES), elements(&[43])),
        (adder_tree(&LEAVES), elements(&[45])),
        (Circuit::new(vec![vec![GateType::Mult]], &elements(&[3, 5])).unwrap(), elements(&[15])),
        (Circuit::new(vec![vec![GateType::Mult]], &elements(&[3, 5])).unwrap(), elements(&[16])),
    ];
    for (circuit, outputs) in cases.iter() {
        let proof = Prover::new(circuit).prove().unwrap();
        assert_eq!(interactive_protocol(circuit, outputs), verify(circuit, outputs, &proof));
    }
}

#[test]
fn mixed_gates_and_ragged_layers() {
    // 8 inputs, three gates, then one: layers of 3 and 1 gates are padded
    let layers = vec![vec![GateType::Mult, GateType::Add, GateType::Mult], vec![GateType::Add]];
    let circuit = Circuit::new(layers, &elements(&[2, 3, 4, 5, 6, 7, 8, 9])).unwrap();
    // (2 * 3) + (4 + 5)
    assert!(circuit.outputs() == elements(&[15]));
    assert_eq!(circuit.layer_bit_width(0), 0);
    assert_eq!(circuit.layer_bit_width(1), 2);
    assert_eq!(circuit.layer_bit_width(2), 3);
    assert_eq!(interactive_protocol(&circuit, &elements(&[15])), Ok(true));
    assert_eq!(interactive_protocol(&circuit, &elements(&[51])), Ok(false));
    let proof = Prover::new(&circuit).prove().unwrap();
    assert_eq!(verify(&circuit, &elements(&[15]), &proof), Ok(true));

    let wide = Circuit::new(
        vec![vec![GateType::Add, GateType::Mult]],
        &elements(&[1, 2, 3, 4]),
    )
    .unwrap();
    assert!(wide.outputs() == elements(&[3, 12]));
    assert_eq!(interactive_protocol(&wide, &elements(&[3, 12])), Ok(true));
    assert_eq!(interactive_protocol(&wide, &elements(&[12, 3])), Ok(false));
    let proof = Prover::new(&wide).prove().unwrap();
    assert_eq!(verify(&wide, &elements(&[3, 12]), &proof), Ok(true));
    assert_eq!(verify(&wide, &elements(&[3, 13]), &proof), Ok(false));
}

#[test]
fn a_circuit_without_gates_claims_its_inputs() {
    let circuit = Circuit::new(vec![], &elements(&[6, 9])).unwrap();
    assert_eq!(circuit.depth(), 0);
    assert!(circuit.outputs() == elements(&[6, 9]));
    assert_eq!(interactive_protocol(&circuit, &elements(&[6, 9])), Ok(true));
    assert_eq!(interactive_protocol(&circuit, &elements(&[6, 8])), Ok(false));
    let proof = Prover::new(&circuit).prove().unwrap();
    assert!(proof.layers.is_empty());
    assert_eq!(verify(&circuit, &elements(&[6, 9]), &proof), Ok(true));
}

#[test]
fn layer_sum_is_the_value_of_the_layer_above() {
    let circuit = adder_tree(&LEAVES);
    let prover = Prover::new(&circuit);
    // layer 1 has two gates, with values 16 and 27
    let z = elements(&[1_000_003]);
    let (poly, next) = prover.layer_polynomial(1, &z).unwrap();
    let above = circuit.w_i_mle(1).unwrap();
    assert!(above.evaluations()[..] == elements(&[16, 27])[..]);
    assert!(poly.sum() == above.evaluate(&z));
    assert_eq!(poly.num_vars(), 4);
    assert_eq!(poly.degree(), 3);
    assert!(next.evaluations()[..] == elements(&[11, 5, 15, 12])[..]);
}

#[test]
fn a_layer_reduces_two_claims_to_one_on_the_line() {
    let circuit = adder_tree(&LEAVES);
    let prover = Prover::new(&circuit);
    let mut source = ChallengeSource::random();
    let z = draw_point(&mut source, 1);
    let run = prover.prove_layer(1, &z, &mut source).unwrap();
    let next = circuit.w_i_mle(2).unwrap();
    let b = run.challenges[..2].to_vec();
    let c = run.challenges[2..].to_vec();
    assert!(run.proof.left == next.evaluate(&b));
    assert!(run.proof.right == next.evaluate(&c));
    assert!(poly::evaluate(&run.proof.line, &Fq::zero()) == run.proof.left);
    assert!(poly::evaluate(&run.proof.line, &Fq::one()) == run.proof.right);
    assert!(run.proof.line.len() <= 3);
    // the line passes through b at 0 and through c at 1
    for j in 0..2 {
        assert!(Fq::interpolate(&b[j], &c[j], &Fq::zero()) == b[j]);
        assert!(Fq::interpolate(&b[j], &c[j], &Fq::one()) == c[j]);
        assert!(Fq::interpolate(&b[j], &c[j], &run.t) == run.next_point[j]);
    }
    assert!(poly::evaluate(&run.proof.line, &run.t) == next.evaluate(&run.next_point));
}

#[test]
fn the_verifier_steps_from_layer_to_layer() {
    let circuit = adder_tree(&LEAVES);
    let prover = Prover::new(&circuit);
    let mut source = ChallengeSource::random();
    let z = draw_point(&mut source, 0);
    let mut claim = Claim::start(&circuit, &elements(&[43]), &z).unwrap();
    assert!(!claim.is_rejected());
    assert!(claim.value() == Fq::from_u64(43));
    for layer in 0..3 {
        assert_eq!(claim.layer(), layer);
        assert_eq!(claim.finish(&circuit), Ok(false));
        let run = prover.prove_layer(layer, claim.point(), &mut source).unwrap();
        claim.reduce(&circuit, &run.proof, &run.challenges, &run.t).unwrap();
        assert!(!claim.is_rejected());
        assert!(claim.point() == &run.next_point);
        let values = circuit.w_i_mle(layer + 1).unwrap();
        assert!(claim.value() == values.evaluate(claim.point()));
    }
    assert_eq!(claim.layer(), 3);
    assert_eq!(claim.finish(&circuit), Ok(true));
    // there is no fourth layer to reduce
    let run = prover.prove_layer(2, &elements(&[1, 2]), &mut source).unwrap();
    claim.reduce(&circuit, &run.proof, &run.challenges, &run.t).unwrap();
    assert!(claim.is_rejected());
    assert_eq!(claim.finish(&circuit), Ok(false));
}

#[test]
fn the_first_claim_wants_the_circuit_s_number_of_outputs() {
    let circuit = adder_tree(&LEAVES);
    let claim = Claim::start(&circuit, &elements(&[43, 1]), &elements(&[])).unwrap();
    assert!(claim.is_rejected());
    let claim = Claim::start(&circuit, &elements(&[43]), &elements(&[5])).unwrap();
    assert!(claim.is_rejected());
    let input_table = Mle::build(3, elements(&LEAVES)).unwrap();
    assert!(circuit.w_i_mle(3).unwrap().evaluations() == input_table.evaluations());
    assert!(matches!(circuit.w_i_mle(4), Err(CircuitError::LayerOutOfRange)));
}

#[test]
fn a_deeper_circuit_of_mixed_gates() {
    let (a, m) = (GateType::Add, GateType::Mult);
    let layers = vec![
        vec![a, m, a, m, m, a, a, m],
        vec![m, a, a, m],
        vec![a, m],
        vec![m],
    ];
    let inputs: Vec<u64> = (1..=16).collect();
    let circuit = Circuit::new(layers, &elements(&inputs)).unwrap();
    // (1+2)(3*4) + ((5+6)+(7*8)) = 36 + 67 = 103
    // ((9*10)+(11+12)) * ((13+14)(15*16)) = 113 * 6480 = 732240
    assert!(circuit.w_i(1, 0) == Some(Fq::from_u64(103)));
    assert!(circuit.w_i(1, 1) == Some(Fq::from_u64(732240)));
    let output = Fq::from_u64(103 * 732240);
    assert!(circuit.outputs() == vec![output]);
    assert_eq!(interactive_protocol(&circuit, &vec![output]), Ok(true));
    assert_eq!(interactive_protocol(&circuit, &vec![output.add(&Fq::one())]), Ok(false));
    let proof = Prover::new(&circuit).prove().unwrap();
    assert_eq!(proof.layers.len(), 4);
    assert_eq!(verify(&circuit, &vec![output], &proof), Ok(true));
    assert_eq!(verify(&circuit, &vec![output.sub(&Fq::one())], &proof), Ok(false));
    // a proof for other inputs does not fit these
    let mut other = inputs.clone();
    other[7] = 80;
    let other = Circuit::new(
        vec![
            vec![a, m, a, m, m, a, a, m],
            vec![m, a, a, m],
            vec![a, m],
            vec![m],
        ],
        &elements(&other),
    )
    .unwrap();
    assert_eq!(verify(&other, &vec![output], &proof), Ok(false));
    assert_eq!(verify(&other, &other.outputs(), &proof), Ok(false));
}
