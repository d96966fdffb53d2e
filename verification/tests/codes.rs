use quantum_os::stabilizer::{Pauli, StabilizerTableau};
use quantum_os::surface_code::{QubitCoord, SurfaceCode17};
use std::collections::HashMap;

fn at(x: usize, y: usize) -> QubitCoord {
    QubitCoord { x, y }
}

#[test]
fn tableau_starts_in_zero_state() {
    let t = StabilizerTableau::new(2);
    assert_eq!(t.num_qubits, 2);
    assert_eq!(t.phases, vec![false; 4]);
    assert_eq!(
        t.table,
        vec![
            vec![Pauli::X, Pauli::I],
            vec![Pauli::I, Pauli::X],
            vec![Pauli::Z, Pauli::I],
            vec![Pauli::I, Pauli::Z],
        ]
    );
}

#[test]
fn hadamard_then_cnot_gives_bell_stabilizers() {
    let mut t = StabilizerTableau::new(2);
    t.apply_h(0);
    t.apply_cnot(0, 1);
    assert_eq!(
        t.table,
        vec![
            vec![Pauli::Z, Pauli::I],
            vec![Pauli::I, Pauli::X],
            vec![Pauli::X, Pauli::X],
            vec![Pauli::Z, Pauli::Z],
        ]
    );
    assert_eq!(t.phases, vec![false; 4]);
}

#[test]
fn bell_state_on_thousand_qubits() {
    let mut t = StabilizerTableau::new(1000);
    t.apply_h(0);
    t.apply_cnot(0, 1);
    assert_eq!(t.table.len(), 2000);
    assert_eq!(&t.table[1000][..3], &[Pauli::X, Pauli::X, Pauli::I]);
    assert_eq!(&t.table[1001][..3], &[Pauli::Z, Pauli::Z, Pauli::I]);
    assert_eq!(&t.table[0][..2], &[Pauli::Z, Pauli::I]);
    assert_eq!(t.table[1999][999], Pauli::Z);
}

#[test]
fn hadamard_twice_restores_tableau() {
    let mut t = StabilizerTableau::new(3);
    t.apply_cnot(0, 2);
    let before = t.table.clone();
    t.apply_h(1);
    assert_ne!(t.table, before);
    t.apply_h(1);
    assert_eq!(t.table, before);
}

#[test]
fn cnot_twice_restores_tableau() {
    let mut t = StabilizerTableau::new(2);
    t.apply_cnot(0, 1);
    assert_eq!(
        t.table,
        vec![
            vec![Pauli::X, Pauli::X],
            vec![Pauli::I, Pauli::X],
            vec![Pauli::Z, Pauli::I],
            vec![Pauli::Z, Pauli::Z],
        ]
    );
    t.apply_cnot(0, 1);
    assert_eq!(t.table, StabilizerTableau::new(2).table);
}

#[test]
fn cnot_spreads_y_parts() {
    let mut t = StabilizerTableau {
        num_qubits: 1,
        table: vec![vec![Pauli::Y, Pauli::I], vec![Pauli::I, Pauli::Y]],
        phases: vec![false, true],
    };
    t.apply_cnot(0, 1);
    assert_eq!(t.table, vec![vec![Pauli::Y, Pauli::X], vec![Pauli::Z, Pauli::Y]]);
    assert_eq!(t.phases, vec![false, true]);
}

#[test]
fn hadamard_keeps_y() {
    let mut t = StabilizerTableau { num_qubits: 1, table: vec![vec![Pauli::Y], vec![Pauli::I]], phases: vec![true, false] };
    t.apply_h(0);
    assert_eq!(t.table, vec![vec![Pauli::Y], vec![Pauli::I]]);
    assert_eq!(t.phases, vec![true, false]);
}

#[test]
fn surface_code_layout() {
    let code = SurfaceCode17::new();
    assert_eq!(
        code.data_qubits,
        vec![at(0, 0), at(0, 2), at(0, 4), at(2, 0), at(2, 2), at(2, 4), at(4, 0), at(4, 2), at(4, 4)]
    );
    assert_eq!(code.ancilla_x, vec![at(1, 0), at(3, 2), at(1, 4), at(3, 4)]);
    assert_eq!(code.ancilla_z, vec![at(0, 1), at(2, 1), at(2, 3), at(4, 3)]);
}

#[test]
fn single_error_is_located_by_decoder() {
    let code = SurfaceCode17::new();
    let mut noisy = HashMap::new();
    noisy.insert(at(2, 2), true);
    let syndromes = code.measure_syndromes(&noisy);
    assert_eq!(syndromes, vec![at(3, 2), at(2, 1), at(2, 3)]);
    assert_eq!(code.mwpm_decode(&syndromes), Some(at(2, 2)));
}

#[test]
fn decoder_picks_first_closest_qubit() {
    let code = SurfaceCode17::new();
    let mut noisy = HashMap::new();
    noisy.insert(at(0, 2), true);
    let syndromes = code.measure_syndromes(&noisy);
    assert_eq!(syndromes, vec![at(0, 1)]);
    assert_eq!(code.mwpm_decode(&syndromes), Some(at(0, 0)));
}

#[test]
fn no_syndromes_without_errors() {
    let code = SurfaceCode17::new();
    let mut noisy = HashMap::new();
    noisy.insert(at(2, 2), false);
    noisy.insert(at(4, 0), true);
    assert_eq!(code.measure_syndromes(&noisy), vec![]);
    assert_eq!(code.measure_syndromes(&HashMap::new()), vec![]);
    assert_eq!(code.mwpm_decode(&[]), None);
}

#[test]
fn two_errors_on_one_ancilla_cancel() {
    let code = SurfaceCode17::new();
    let mut noisy = HashMap::new();
    noisy.insert(at(2, 2), true);
    noisy.insert(at(4, 2), true);
    assert_eq!(code.measure_syndromes(&noisy), vec![at(2, 1), at(2, 3), at(4, 3)]);
}

#[test]
fn syndromes_add_up_modulo_two() {
    let code = SurfaceCode17::new();
    let patterns = [vec![at(2, 2)], vec![at(0, 0)], vec![at(2, 2), at(2, 4)], vec![at(4, 2), at(0, 2)]];
    for e1 in patterns.iter() {
        for e2 in patterns.iter() {
            let mut m1 = HashMap::new();
            for &d in e1 {
                m1.insert(d, true);
            }
            let mut m2 = HashMap::new();
            for &d in e2 {
                m2.insert(d, true);
            }
            let mut both = HashMap::new();
            for d in code.data_qubits.iter() {
                let f = m1.contains_key(d) != m2.contains_key(d);
                both.insert(*d, f);
            }
            let s1 = code.measure_syndromes(&m1);
            let s2 = code.measure_syndromes(&m2);
            let s = code.measure_syndromes(&both);
            for a in code.ancilla_x.iter().chain(code.ancilla_z.iter()) {
                assert_eq!(s.contains(a), s1.contains(a) != s2.contains(a));
            }
        }
    }
}
