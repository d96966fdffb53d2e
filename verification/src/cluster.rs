//! Planning of a state vector split across a cluster of GPUs.

use vstd::prelude::*;

verus! {

/// One GPU of the cluster and the contiguous range of qubits it holds,
/// both ends included.
#[derive(Debug)]
pub struct GPUNode {
    pub node_id: usize,
    pub memory_gb: usize,
    pub assigned_qubit_range: (usize, usize),
}

/// The GPUs of the cluster, in order of their ids.
pub struct ClusterOrchestrator {
    pub nodes: Vec<GPUNode>,
}

/// The first qubit of node `i` when `total` qubits go to `n` nodes: every
/// node gets `total / n`, and the last one also the remainder.
pub open spec fn range_start(n: nat, total: nat, i: nat) -> nat {
    i * (total / n)
}

/// The last qubit of node `i`.
pub open spec fn range_end(n: nat, total: nat, i: nat) -> nat {
    if i == n - 1 {
        (total - 1) as nat
    } else {
        ((i + 1) * (total / n) - 1) as nat
    }
}

impl ClusterOrchestrator {
    /// Splits `total_qubits` qubits over `num_nodes` GPUs of 80 GB each.
    pub fn new(num_nodes: usize, total_qubits: usize) -> (c: Self)
        requires
            num_nodes > 0,
            total_qubits > 0,
            num_nodes == 1 || total_qubits >= num_nodes,
        ensures
            c.nodes@.len() == num_nodes,
            forall|i: int|
                0 <= i < num_nodes ==> {
                    &&& (#[trigger] c.nodes@[i]).node_id == i
                    &&& c.nodes@[i].memory_gb == 80
                    &&& c.nodes@[i].assigned_qubit_range.0 == range_start(num_nodes as nat, total_qubits as nat, i as nat)
                    &&& c.nodes@[i].assigned_qubit_range.1 == range_end(num_nodes as nat, total_qubits as nat, i as nat)
                },
    {
        let mut nodes: Vec<GPUNode> = Vec::new();
        let q = total_qubits / num_nodes;
        assert(num_nodes * q <= total_qubits) by (nonlinear_arith)
            requires
                q == total_qubits / num_nodes,
                num_nodes > 0,
        ;
        assert(num_nodes > 1 ==> q >= 1) by (nonlinear_arith)
            requires
                q == total_qubits / num_nodes,
                num_nodes > 0,
                num_nodes == 1 || total_qubits >= num_nodes,
        ;
        let mut i: usize = 0;
        while i < num_nodes
            invariant
                q == total_qubits / num_nodes,
                num_nodes > 0,
                total_qubits > 0,
                num_nodes * q <= total_qubits,
                num_nodes > 1 ==> q >= 1,
                i <= num_nodes,
                nodes@.len() == i,
                forall|k: int|
                    0 <= k < i ==> {
                        &&& (#[trigger] nodes@[k]).node_id == k
                        &&& nodes@[k].memory_gb == 80
                        &&& nodes@[k].assigned_qubit_range.0 == range_start(num_nodes as nat, total_qubits as nat, k as nat)
                        &&& nodes@[k].assigned_qubit_range.1 == range_end(num_nodes as nat, total_qubits as nat, k as nat)
                    },
            decreases num_nodes - i,
        {
            assert((i + 1) * q <= num_nodes * q) by (nonlinear_arith)
                requires
                    i < num_nodes,
            ;
            assert((i + 1) * q == i * q + q) by (nonlinear_arith);
            let start = i * q;
            let end = if i == num_nodes - 1 {
                total_qubits - 1
            } else {
                (i + 1) * q - 1
            };
            nodes.push(GPUNode { node_id: i, memory_gb: 80, assigned_qubit_range: (start, end) });
            i = i + 1;
        }
        ClusterOrchestrator { nodes }
    }
}

/// The node ranges cover the qubits `0..total` without gap or overlap: the
/// first starts at qubit 0, each starts right after the one before ends,
/// none is empty, and the last ends at the last qubit.
pub proof fn cluster_ranges_partition(n: nat, total: nat)
    requires
        n > 0,
        total > 0,
        n == 1 || total >= n,
    ensures
        range_start(n, total, 0) == 0,
        range_end(n, total, (n - 1) as nat) == total - 1,
        forall|i: nat| i < n ==> range_start(n, total, i) <= #[trigger] range_end(n, total, i),
        forall|i: nat| i + 1 < n ==> range_end(n, total, i) + 1 == #[trigger] range_start(n, total, i + 1),
{
    let q = total / n;
    assert(0 * q == 0);
    assert(n * q <= total) by (nonlinear_arith)
        requires
            q == total / n,
            n > 0,
    ;
    assert(n > 1 ==> q >= 1) by (nonlinear_arith)
        requires
            q == total / n,
            n > 0,
            n == 1 || total >= n,
    ;
    assert forall|i: nat| i < n implies range_start(n, total, i) <= #[trigger] range_end(n, total, i) by {
        assert((i + 1) * q == i * q + q) by (nonlinear_arith);
        assert(i * q <= (n - 1) * q) by (nonlinear_arith)
            requires
                i < n,
        ;
        assert((n - 1) * q + q == n * q) by (nonlinear_arith);
    }
    assert forall|i: nat| i + 1 < n implies range_end(n, total, i) + 1 == #[trigger] range_start(n, total, i + 1) by {
        assert((i + 1) * q == i * q + q) by (nonlinear_arith);
    }
}

} // verus!
