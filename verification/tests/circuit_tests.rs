use gkr::gkr::circuit::{Circuit, CircuitError, GateType};
use gkr::field::Fq;

fn elements(xs: &[u64]) -> Vec<Fq> {
    xs.iter().map(|x| Fq::from_u64(*x)).collect()
}

#[test]
fn single_add_gate_outputs_eight() {
    let circuit = Circuit::new(vec![vec![GateType::Add]], &elements(&[3, 5])).unwrap();
    assert_eq!(circuit.depth(), 1);
    assert!(circuit.w_i(0, 0) == Some(Fq::from_u64(8)));
}

#[test]
fn single_mult_gate_outputs_fifteen() {
    let circuit = Circuit::new(vec![vec![GateType::Mult]], &elements(&[3, 5])).unwrap();
    assert!(circuit.w_i(0, 0) == Some(Fq::from_u64(15)));
}

#[test]
fn three_layers_of_additions_sum_the_inputs() {
    let layers = vec![
        vec![GateType::Add, GateType::Add, GateType::Add, GateType::Add],
        vec![GateType::Add, GateType::Add],
        vec![GateType::Add],
    ];
    let circuit = Circuit::new(layers, &elements(&[10, 1, 2, 3, 11, 4, 5, 7])).unwrap();
    assert_eq!(circuit.depth(), 3);
    assert!(circuit.w_i(0, 0) == Some(Fq::from_u64(43)));
    assert!(circuit.w_i(2, 0) == Some(Fq::from_u64(11)));
    assert!(circuit.w_i(2, 3) == Some(Fq::from_u64(12)));
    assert!(circuit.w_i(3, 4) == Some(Fq::from_u64(11)));
    assert!(circuit.w_i(3, 8).is_none());
    assert!(circuit.w_i(4, 0).is_none());
}

#[test]
fn odd_input_length_is_refused() {
    let r = Circuit::new(vec![vec![GateType::Add]], &elements(&[3, 5, 7]));
    assert!(matches!(r, Err(CircuitError::OddInputLength)));
}

#[test]
fn input_length_must_be_a_power_of_two() {
    let r = Circuit::new(vec![vec![GateType::Add]], &elements(&[1, 2, 3, 4, 5, 6]));
    assert!(matches!(r, Err(CircuitError::InputLengthNotPowerOfTwo)));
    let r = Circuit::new(vec![], &elements(&[]));
    assert!(matches!(r, Err(CircuitError::InputLengthNotPowerOfTwo)));
}

#[test]
fn too_many_gates_for_the_wires_below() {
    let r = Circuit::new(vec![vec![GateType::Add, GateType::Add]], &elements(&[1, 2]));
    assert!(matches!(r, Err(CircuitError::InsufficientInputs { layer: 0 })));
    let r = Circuit::new(
        vec![vec![GateType::Add, GateType::Mult], vec![GateType::Add, GateType::Add]],
        &elements(&[1, 2, 3, 4]),
    );
    assert!(matches!(r, Err(CircuitError::InsufficientInputs { layer: 1 })));
}

#[test]
fn extract_index_slices_bits() {
    assert_eq!(Circuit::extract_index(0b110101, 0, 2), 0b01);
    assert_eq!(Circuit::extract_index(0b110101, 2, 2), 0b01);
    assert_eq!(Circuit::extract_index(0b110101, 4, 2), 0b11);
    assert_eq!(Circuit::extract_index(0b110101, 3, 0), 0);
    assert_eq!(Circuit::extract_index(usize::MAX, 0, 64), usize::MAX);
    assert_eq!(Circuit::extract_index(usize::MAX, 64, 3), 0);
    assert_eq!(Circuit::extract_index(usize::MAX, 200, 200), 0);
}

#[test]
fn wiring_predicates_follow_the_gates() {
    let layers = vec![vec![GateType::Add, GateType::Mult], vec![GateType::Mult]];
    let circuit = Circuit::new(layers, &elements(&[1, 2, 3, 4])).unwrap();
    assert!(circuit.mult_i(0, 0, 0, 1));
    assert!(!circuit.add_i(0, 0, 0, 1));
    assert!(!circuit.mult_i(0, 0, 1, 0));
    assert!(circuit.add_i(1, 0, 0, 1));
    assert!(circuit.mult_i(1, 1, 2, 3));
    assert!(!circuit.mult_i(1, 1, 3, 2));
    assert!(!circuit.add_i(1, 2, 4, 5));
    assert!(!circuit.add_i(2, 0, 0, 1));
    assert!(circuit.w_i(0, 0) == Some(Fq::from_u64(36)));
}

#[test]
fn add_i_mle_marks_the_wired_triples() {
    let layers = vec![vec![GateType::Add, GateType::Mult], vec![GateType::Mult]];
    let circuit = Circuit::new(layers, &elements(&[1, 2, 3, 4])).unwrap();
    let add = circuit.add_i_mle(1).unwrap();
    let mult = circuit.mult_i_mle(1).unwrap();
    assert_eq!(add.num_vars(), 5);
    assert_eq!(add.evaluations().len(), 32);
    for x in 0..32usize {
        let expect_add = x == 0b01_00_0;
        let expect_mult = x == 0b11_10_1;
        assert!(add.evaluations()[x] == Fq::from_u64(expect_add as u64));
        assert!(mult.evaluations()[x] == Fq::from_u64(expect_mult as u64));
    }
    let top = circuit.mult_i_mle(0).unwrap();
    assert_eq!(top.num_vars(), 2);
    assert!(top.evaluations()[0b1_0] == Fq::one());
    assert!(matches!(circuit.add_i_mle(2), Err(CircuitError::LayerOutOfRange)));
}

#[test]
fn a_table_that_cannot_be_addressed_is_refused() {
    // 2^22 inputs under 2^21 gates: the wiring table would have 2^65 entries
    let inputs = vec![Fq::one(); 1 << 22];
    let circuit = Circuit::new(vec![vec![GateType::Add; 1 << 21]], &inputs).unwrap();
    assert_eq!(circuit.layer_bit_width(0), 21);
    assert_eq!(circuit.layer_bit_width(1), 22);
    assert!(circuit.w_i(0, (1 << 21) - 1) == Some(Fq::from_u64(2)));
    assert!(matches!(circuit.add_i_mle(0), Err(CircuitError::TableTooLarge)));
    assert!(matches!(circuit.mult_i_mle(0), Err(CircuitError::TableTooLarge)));
    assert_eq!(
        gkr::gkr::interactive::interactive_protocol(&circuit, &circuit.outputs()),
        Err(CircuitError::TableTooLarge)
    );
}
