use quantum_os::instruction::QuantumOp;
use quantum_os::transpiler::{HardwareCouplingMap, QuantumTranspiler};
use std::collections::HashMap;

fn cnot(control: usize, target: usize) -> QuantumOp {
    QuantumOp::CNOT { control, target }
}

#[test]
fn grid_lists_neighbours_up_down_left_right() {
    let g = HardwareCouplingMap::new_grid(3, 3);
    assert_eq!(g.connections.len(), 9);
    assert_eq!(g.connections[&0], vec![3, 1]);
    assert_eq!(g.connections[&4], vec![1, 7, 3, 5]);
    assert_eq!(g.connections[&8], vec![5, 7]);
    assert_eq!(g.connections[&2], vec![5, 1]);
}

#[test]
fn grid_links_run_both_ways() {
    let g = HardwareCouplingMap::new_grid(4, 5);
    for (u, ns) in &g.connections {
        for v in ns {
            assert!(g.connections[v].contains(u));
        }
    }
}

#[test]
fn empty_grid_has_no_qubits() {
    assert!(HardwareCouplingMap::new_grid(0, 7).connections.is_empty());
    assert!(HardwareCouplingMap::new_grid(3, 0).connections.is_empty());
}

#[test]
fn shortest_path_on_grid() {
    let g = HardwareCouplingMap::new_grid(3, 3);
    assert_eq!(g.shortest_path(0, 8), vec![0, 3, 6, 7, 8]);
    assert_eq!(g.shortest_path(0, 1), vec![0, 1]);
    assert_eq!(g.shortest_path(4, 4), vec![4]);
}

#[test]
fn shortest_path_to_unreachable_qubit_is_start_alone() {
    let mut connections = HashMap::new();
    connections.insert(0usize, vec![1usize]);
    connections.insert(1usize, vec![0usize]);
    connections.insert(2usize, vec![]);
    let g = HardwareCouplingMap { connections };
    assert_eq!(g.shortest_path(0, 2), vec![0]);
    assert_eq!(g.shortest_path(5, 0), vec![5]);
}

#[test]
fn shortest_path_prefers_first_listed_neighbour() {
    let mut connections = HashMap::new();
    connections.insert(0usize, vec![2usize, 1]);
    connections.insert(1usize, vec![3usize]);
    connections.insert(2usize, vec![3usize]);
    let g = HardwareCouplingMap { connections };
    assert_eq!(g.shortest_path(0, 3), vec![0, 2, 3]);
    let mut connections = HashMap::new();
    connections.insert(0usize, vec![1usize, 2]);
    connections.insert(1usize, vec![3usize]);
    connections.insert(2usize, vec![3usize]);
    let g = HardwareCouplingMap { connections };
    assert_eq!(g.shortest_path(0, 3), vec![0, 1, 3]);
}

#[test]
fn shortest_path_follows_one_way_links() {
    let mut connections = HashMap::new();
    connections.insert(0usize, vec![1usize, 2]);
    connections.insert(1usize, vec![3usize]);
    connections.insert(2usize, vec![3usize]);
    connections.insert(3usize, vec![]);
    let g = HardwareCouplingMap { connections };
    assert_eq!(g.shortest_path(0, 3), vec![0, 1, 3]);
    assert_eq!(g.shortest_path(3, 0), vec![3]);
}

#[test]
fn transpile_inserts_swaps_along_route() {
    let g = HardwareCouplingMap::new_grid(3, 3);
    let out = QuantumTranspiler::transpile(vec![cnot(0, 8)], &g);
    assert_eq!(out.len(), 10);
    assert_eq!(
        out,
        vec![
            cnot(0, 3),
            cnot(3, 0),
            cnot(0, 3),
            cnot(3, 6),
            cnot(6, 3),
            cnot(3, 6),
            cnot(6, 7),
            cnot(7, 6),
            cnot(6, 7),
            cnot(7, 8),
        ]
    );
    for op in &out {
        if let QuantumOp::CNOT { control, target } = op {
            assert!(g.connections[control].contains(target));
        }
    }
}

#[test]
fn transpile_keeps_adjacent_and_other_gates() {
    let g = HardwareCouplingMap::new_grid(2, 2);
    let program = vec![
        QuantumOp::Hadamard(0),
        cnot(0, 1),
        QuantumOp::Measure(3),
        cnot(2, 2),
    ];
    assert_eq!(QuantumTranspiler::transpile(program.clone(), &g), program);
}

#[test]
fn grid_routes_are_as_long_as_the_manhattan_distance() {
    for (rows, cols) in [(3usize, 3usize), (2, 5), (4, 1)] {
        let g = HardwareCouplingMap::new_grid(rows, cols);
        for a in 0..rows * cols {
            for b in 0..rows * cols {
                let (ra, ca, rb, cb) = (a / cols, a % cols, b / cols, b % cols);
                let dist = ra.abs_diff(rb) + ca.abs_diff(cb);
                assert_eq!(g.shortest_path(a, b).len(), dist + 1);
            }
        }
    }
    assert_eq!(HardwareCouplingMap::new_grid(3, 3).shortest_path(0, 8).len(), 5);
}
