use quantum_os::ecc::{BitFlipCode, SyndromeVerdict};
use quantum_os::instruction::QuantumOp;
use quantum_os::mitigation::ErrorMitigation;
use quantum_os::qir::QuantumIROptimizer;
use quantum_os::quantum::{apply_cnot_to_amplitudes, apply_x_to_amplitudes};
use quantum_os::resource_estimator::ResourceEstimator;

fn h(q: usize) -> QuantumOp {
    QuantumOp::Hadamard(q)
}

fn cnot(control: usize, target: usize) -> QuantumOp {
    QuantumOp::CNOT { control, target }
}

#[test]
fn optimizer_removes_redundant_pairs() {
    let program = vec![h(0), h(0), h(1), cnot(0, 1), cnot(0, 1)];
    assert_eq!(QuantumIROptimizer::optimize(program), vec![h(1)]);
}

#[test]
fn optimizer_cancels_nested_pairs() {
    assert_eq!(QuantumIROptimizer::optimize(vec![h(0), cnot(0, 1), cnot(0, 1), h(0)]), vec![]);
    assert_eq!(QuantumIROptimizer::optimize(vec![h(0), h(0), h(0)]), vec![h(0)]);
}

#[test]
fn optimizer_keeps_distinct_neighbours() {
    let program = vec![h(0), h(1), cnot(0, 1), cnot(1, 0), QuantumOp::Measure(0), QuantumOp::Measure(0)];
    assert_eq!(QuantumIROptimizer::optimize(program.clone()), program);
    let blocked = vec![h(0), QuantumOp::Measure(0), h(0)];
    assert_eq!(QuantumIROptimizer::optimize(blocked.clone()), blocked);
}

#[test]
fn optimizing_twice_changes_nothing_more() {
    let program = vec![h(2), cnot(0, 1), h(3), h(3), cnot(0, 1), h(2), h(1), QuantumOp::Measure(1)];
    let once = QuantumIROptimizer::optimize(program.clone());
    assert_eq!(once, vec![h(1), QuantumOp::Measure(1)]);
    assert_eq!(QuantumIROptimizer::optimize(once.clone()), once);
    assert_eq!((program.len() - once.len()) % 2, 0);
}

#[test]
fn noise_scaling_repeats_cnots() {
    let program = vec![h(0), cnot(0, 1), QuantumOp::Measure(1)];
    assert_eq!(
        ErrorMitigation::scale_noise_digital(&program, 3),
        vec![h(0), cnot(0, 1), cnot(0, 1), cnot(0, 1), QuantumOp::Measure(1)]
    );
    assert_eq!(ErrorMitigation::scale_noise_digital(&program, 1), program);
    assert_eq!(
        ErrorMitigation::scale_noise_digital(&program, 0),
        vec![h(0), QuantumOp::Measure(1)]
    );
    assert_eq!(ErrorMitigation::scale_noise_digital(&[], 5), vec![]);
}

#[test]
fn resource_counts_of_sample_circuit() {
    let circuit = vec![h(0), cnot(0, 1), cnot(1, 2)];
    let c = ResourceEstimator::count_gates(&circuit);
    assert_eq!(c.total_gates, 3);
    assert_eq!(c.cnot_count, 2);
    assert_eq!(c.t_count, 0);
    let c2 = ResourceEstimator::count_gates(&[QuantumOp::Measure(0), h(1), QuantumOp::Measure(2)]);
    assert_eq!((c2.total_gates, c2.cnot_count, c2.t_count, c2.circuit_depth), (3, 0, 0, 2));
    let c3 = ResourceEstimator::count_gates(&[QuantumOp::Measure(0)]);
    assert_eq!((c3.total_gates, c3.cnot_count, c3.t_count, c3.circuit_depth), (1, 0, 0, 1));
    let c4 = ResourceEstimator::count_gates(&[]);
    assert_eq!((c4.total_gates, c4.circuit_depth), (0, 0));
}

#[test]
fn cnot_permutes_basis_states() {
    let mut s = vec![0u32, 1, 2, 3];
    apply_cnot_to_amplitudes(&mut s, 0, 1);
    assert_eq!(s, vec![0, 3, 2, 1]);
    let mut t = vec![0u32, 1, 2, 3];
    apply_cnot_to_amplitudes(&mut t, 1, 0);
    assert_eq!(t, vec![0, 1, 3, 2]);
    let mut same = vec![5u8, 6, 7, 8];
    apply_cnot_to_amplitudes(&mut same, 1, 1);
    assert_eq!(same, vec![5, 6, 7, 8]);
}

#[test]
fn cnot_twice_restores_state() {
    let initial: Vec<u32> = (0..16).collect();
    let mut s = initial.clone();
    apply_cnot_to_amplitudes(&mut s, 2, 0);
    assert_ne!(s, initial);
    apply_cnot_to_amplitudes(&mut s, 2, 0);
    assert_eq!(s, initial);
}

#[test]
fn pauli_x_flips_qubit() {
    let mut s = vec![10u32, 11, 12, 13];
    apply_x_to_amplitudes(&mut s, 0);
    assert_eq!(s, vec![11, 10, 13, 12]);
    apply_x_to_amplitudes(&mut s, 1);
    assert_eq!(s, vec![13, 12, 11, 10]);
    apply_x_to_amplitudes(&mut s, 1);
    apply_x_to_amplitudes(&mut s, 0);
    assert_eq!(s, vec![10, 11, 12, 13]);
}

#[test]
fn bit_flip_syndromes_are_read() {
    assert_eq!(BitFlipCode::classify_syndrome(0, 0), SyndromeVerdict::NoError);
    assert_eq!(BitFlipCode::classify_syndrome(1, 0), SyndromeVerdict::Ancilla1);
    assert_eq!(BitFlipCode::classify_syndrome(0, 1), SyndromeVerdict::Ancilla2);
    assert_eq!(BitFlipCode::classify_syndrome(1, 1), SyndromeVerdict::DataQubit);
    assert_eq!(BitFlipCode::verdict_text(SyndromeVerdict::NoError), "There is no mistake");
    assert_eq!(
        BitFlipCode::verdict_text(SyndromeVerdict::Ancilla1),
        "Error detected on Ancilla 1 \u{2013} Corrected."
    );
    assert_eq!(
        BitFlipCode::verdict_text(SyndromeVerdict::DataQubit),
        "Critical error detected on Data Qubit - Corrected successfully!"
    );
}

#[test]
fn odd_noise_scaling_optimises_to_the_same_program() {
    let program = vec![h(0), cnot(0, 1), h(0), cnot(1, 2), QuantumOp::Measure(0), cnot(1, 2)];
    let base = QuantumIROptimizer::optimize(program.clone());
    for k in [1usize, 3, 5] {
        let scaled = ErrorMitigation::scale_noise_digital(&program, k);
        assert_eq!(QuantumIROptimizer::optimize(scaled), base);
    }
    let even = ErrorMitigation::scale_noise_digital(&program, 2);
    assert_ne!(QuantumIROptimizer::optimize(even), base);
}

#[test]
fn optimising_joined_programs_gives_one_normal_form() {
    let a = vec![h(0), cnot(0, 1), h(2)];
    let b = vec![h(2), cnot(0, 1), QuantumOp::Measure(1), h(1), h(1)];
    let mut joined = a.clone();
    joined.extend(b.clone());
    let whole = QuantumIROptimizer::optimize(joined);
    assert_eq!(whole, vec![h(0), QuantumOp::Measure(1)]);
    let mut parts = QuantumIROptimizer::optimize(a.clone());
    parts.extend(QuantumIROptimizer::optimize(b.clone()));
    assert_eq!(QuantumIROptimizer::optimize(parts), whole);
    let mut first = QuantumIROptimizer::optimize(a);
    first.extend(b);
    assert_eq!(QuantumIROptimizer::optimize(first), whole);
}
