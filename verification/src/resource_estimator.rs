//! Gate counts of a circuit, the integer part of its resource estimate.

use vstd::prelude::*;
use crate::instruction::QuantumOp;

verus! {

/// How many gates of each kind a circuit has.
#[derive(Debug, Clone, Copy, PartialEq, Eq, Structural)]
pub struct GateCounts {
    /// All instructions.
    pub total_gates: usize,
    /// T gates; the instruction set has none, so this is always 0.
    pub t_count: usize,
    /// CNOTs.
    pub cnot_count: usize,
    /// The estimated depth: two gates per layer, rounded up.
    pub circuit_depth: usize,
}

/// The number of instructions of `p` that satisfy `pred`.
pub open spec fn count_where(p: Seq<QuantumOp>, pred: spec_fn(QuantumOp) -> bool) -> nat
    decreases p.len(),
{
    if p.len() == 0 {
        0
    } else {
        count_where(p.drop_last(), pred) + if pred(p.last()) { 1nat } else { 0nat }
    }
}

proof fn lemma_count_where_bounded(p: Seq<QuantumOp>, pred: spec_fn(QuantumOp) -> bool)
    ensures
        count_where(p, pred) <= p.len(),
    decreases p.len(),
{
    if p.len() > 0 {
        lemma_count_where_bounded(p.drop_last(), pred);
    }
}

/// Static analysis of circuits.
pub struct ResourceEstimator;

impl ResourceEstimator {
    /// Counts the instructions of `program` (all of them, the CNOTs and the
    /// T gates) and gives the depth as the number of gates over two, plus
    /// one for an odd count.
    pub fn count_gates(program: &[QuantumOp]) -> (c: GateCounts)
        ensures
            c.total_gates == program@.len(),
            c.cnot_count == count_where(program@, |op: QuantumOp| op is CNOT),
            c.t_count == 0,
            c.circuit_depth == (program@.len() + 1) / 2,
    {
        let n = program.len();
        let mut cnots: usize = 0;
        let mut i: usize = 0;
        assert(program@.take(0) =~= Seq::<QuantumOp>::empty());
        while i < n
            invariant
                n == program@.len(),
                i <= n,
                cnots == count_where(program@.take(i as int), |op: QuantumOp| op is CNOT),
            decreases n - i,
        {
            let ghost pre = program@.take(i + 1);
            proof {
                assert(pre.drop_last() =~= program@.take(i as int));
                assert(pre.last() == program@[i as int]);
                lemma_count_where_bounded(pre, |op: QuantumOp| op is CNOT);
            }
            match program[i] {
                QuantumOp::CNOT { .. } => {
                    cnots = cnots + 1;
                },
                QuantumOp::Hadamard(_) => {},
                QuantumOp::Measure(_) => {},
            }
            i = i + 1;
        }
        assert(program@.take(n as int) =~= program@);
        GateCounts { total_gates: n, t_count: 0, cnot_count: cnots, circuit_depth: n / 2 + n % 2 }
    }
}

} // verus!
