//! Peephole optimisation of instruction sequences.

use vstd::prelude::*;
use crate::instruction::QuantumOp;

verus! {

/// Whether `b` right after `a` undoes it: two Hadamards on one qubit, or
/// two identical CNOTs.
pub open spec fn cancels(a: QuantumOp, b: QuantumOp) -> bool {
    match (a, b) {
        (QuantumOp::Hadamard(t1), QuantumOp::Hadamard(t2)) => t1 == t2,
        (
            QuantumOp::CNOT { control: c1, target: t1 },
            QuantumOp::CNOT { control: c2, target: t2 },
        ) => c1 == c2 && t1 == t2,
        _ => false,
    }
}

/// The result of the optimiser: the instructions are taken in order, and
/// each one that cancels the last kept instruction removes it instead of
/// being kept.
pub open spec fn optimized(p: Seq<QuantumOp>) -> Seq<QuantumOp>
    decreases p.len(),
{
    if p.len() == 0 {
        Seq::empty()
    } else {
        let prev = optimized(p.drop_last());
        if prev.len() > 0 && cancels(prev.last(), p.last()) {
            prev.drop_last()
        } else {
            prev.push(p.last())
        }
    }
}

/// Whether no two neighbouring instructions of `p` cancel.
pub open spec fn irreducible(p: Seq<QuantumOp>) -> bool {
    forall|i: int| 0 <= i < p.len() - 1 ==> !cancels(#[trigger] p[i], p[i + 1])
}

/// The measurements of `p`, in order.
pub open spec fn measurements(p: Seq<QuantumOp>) -> Seq<QuantumOp>
    decreases p.len(),
{
    if p.len() == 0 {
        Seq::empty()
    } else if p.last() is Measure {
        measurements(p.drop_last()).push(p.last())
    } else {
        measurements(p.drop_last())
    }
}

/// Peephole optimiser over instruction sequences.
pub struct QuantumIROptimizer;

impl QuantumIROptimizer {
    /// Removes back-to-back pairs of self-inverse gates (H·H, CNOT·CNOT on
    /// the same qubits), also pairs that meet only after an inner pair went.
    pub fn optimize(pipeline: Vec<QuantumOp>) -> (out: Vec<QuantumOp>)
        ensures
            out@ == optimized(pipeline@),
    {
        let mut out: Vec<QuantumOp> = Vec::new();
        let n = pipeline.len();
        let mut i: usize = 0;
        while i < n
            invariant
                n == pipeline@.len(),
                i <= n,
                out@ == optimized(pipeline@.take(i as int)),
            decreases n - i,
        {
            let op = pipeline[i];
            proof {
                assert(pipeline@.take(i + 1).drop_last() =~= pipeline@.take(i as int));
                assert(pipeline@.take(i + 1).last() == op);
            }
            let len = out.len();
            let mut cancelled = false;
            if len > 0 {
                let last = out[len - 1];
                cancelled = match (last, op) {
                    (QuantumOp::Hadamard(t1), QuantumOp::Hadamard(t2)) => t1 == t2,
                    (
                        QuantumOp::CNOT { control: c1, target: t1 },
                        QuantumOp::CNOT { control: c2, target: t2 },
                    ) => c1 == c2 && t1 == t2,
                    _ => false,
                };
            }
            if cancelled {
                out.pop();
            } else {
                out.push(op);
            }
            i = i + 1;
        }
        assert(pipeline@.take(n as int) =~= pipeline@);
        out
    }
}

/// The optimiser's output never holds two neighbouring instructions that
/// cancel.
pub proof fn optimized_is_irreducible(p: Seq<QuantumOp>)
    ensures
        irreducible(optimized(p)),
    decreases p.len(),
{
    if p.len() > 0 {
        optimized_is_irreducible(p.drop_last());
        let prev = optimized(p.drop_last());
        let r = optimized(p);
        if prev.len() > 0 && cancels(prev.last(), p.last()) {
            assert forall|i: int| 0 <= i < r.len() - 1 implies !cancels(#[trigger] r[i], r[i + 1]) by {
                assert(r[i] == prev[i] && r[i + 1] == prev[i + 1]);
            }
        } else {
            assert forall|i: int| 0 <= i < r.len() - 1 implies !cancels(#[trigger] r[i], r[i + 1]) by {
                if i < prev.len() - 1 {
                    assert(r[i] == prev[i] && r[i + 1] == prev[i + 1]);
                }
            }
        }
    }
}

/// A sequence with nothing left to cancel comes out of the optimiser as it
/// went in.
pub proof fn optimizing_irreducible_is_identity(p: Seq<QuantumOp>)
    requires
        irreducible(p),
    ensures
        optimized(p) == p,
    decreases p.len(),
{
    if p.len() > 0 {
        let q = p.drop_last();
        assert forall|i: int| 0 <= i < q.len() - 1 implies !cancels(#[trigger] q[i], q[i + 1]) by {
            assert(q[i] == p[i] && q[i + 1] == p[i + 1]);
        }
        optimizing_irreducible_is_identity(q);
        if q.len() > 0 {
            assert(!cancels(p[p.len() - 2], p[p.len() - 2 + 1]));
        }
        assert(q.push(p.last()) =~= p);
    }
}

/// Optimising twice gives what optimising once gives.
pub proof fn optimize_is_idempotent(p: Seq<QuantumOp>)
    ensures
        optimized(optimized(p)) == optimized(p),
{
    optimized_is_irreducible(p);
    optimizing_irreducible_is_identity(optimized(p));
}

/// The optimiser removes instructions in pairs only, so it never lengthens
/// a program and keeps the parity of its length.
pub proof fn optimize_removes_pairs(p: Seq<QuantumOp>)
    ensures
        optimized(p).len() <= p.len(),
        (p.len() - optimized(p).len()) % 2 == 0,
    decreases p.len(),
{
    if p.len() > 0 {
        optimize_removes_pairs(p.drop_last());
    }
}

/// The optimiser keeps every measurement, in order.
pub proof fn optimize_keeps_measurements(p: Seq<QuantumOp>)
    ensures
        measurements(optimized(p)) == measurements(p),
    decreases p.len(),
{
    if p.len() > 0 {
        optimize_keeps_measurements(p.drop_last());
        let prev = optimized(p.drop_last());
        if prev.len() > 0 && cancels(prev.last(), p.last()) {
            assert(prev.drop_last().push(prev.last()) =~= prev);
            assert(!(prev.last() is Measure));
            assert(!(p.last() is Measure));
        } else {
            assert(prev.push(p.last()).drop_last() =~= prev);
        }
    }
}

/// The stack `s` after instruction `x` arrives: `x` removes the top when
/// it cancels it, and is put on top otherwise.
pub open spec fn push_reduced(s: Seq<QuantumOp>, x: QuantumOp) -> Seq<QuantumOp> {
    if s.len() > 0 && cancels(s.last(), x) {
        s.drop_last()
    } else {
        s.push(x)
    }
}

/// The stack `s` after the instructions `p` arrive, in order.
pub open spec fn reduce_onto(s: Seq<QuantumOp>, p: Seq<QuantumOp>) -> Seq<QuantumOp>
    decreases p.len(),
{
    if p.len() == 0 {
        s
    } else {
        push_reduced(reduce_onto(s, p.drop_last()), p.last())
    }
}

/// Optimising is reducing onto the empty stack.
pub proof fn lemma_optimized_is_reduction(p: Seq<QuantumOp>)
    ensures
        optimized(p) == reduce_onto(Seq::empty(), p),
    decreases p.len(),
{
    if p.len() > 0 {
        lemma_optimized_is_reduction(p.drop_last());
    }
}

/// Reducing a joined program is reducing its second part onto what the
/// first part left.
pub proof fn lemma_reduce_concat(s: Seq<QuantumOp>, a: Seq<QuantumOp>, b: Seq<QuantumOp>)
    ensures
        reduce_onto(s, a + b) == reduce_onto(reduce_onto(s, a), b),
    decreases b.len(),
{
    if b.len() == 0 {
        assert(a + b =~= a);
    } else {
        assert((a + b).drop_last() =~= a + b.drop_last());
        assert((a + b).last() == b.last());
        lemma_reduce_concat(s, a, b.drop_last());
    }
}

/// Reducing keeps a stack irreducible.
pub proof fn lemma_reduce_irreducible(s: Seq<QuantumOp>, p: Seq<QuantumOp>)
    requires
        irreducible(s),
    ensures
        irreducible(reduce_onto(s, p)),
    decreases p.len(),
{
    if p.len() > 0 {
        lemma_reduce_irreducible(s, p.drop_last());
        let prev = reduce_onto(s, p.drop_last());
        let r = reduce_onto(s, p);
        if prev.len() > 0 && cancels(prev.last(), p.last()) {
            assert forall|i: int| 0 <= i < r.len() - 1 implies !cancels(#[trigger] r[i], r[i + 1]) by {
                assert(r[i] == prev[i] && r[i + 1] == prev[i + 1]);
            }
        } else {
            assert forall|i: int| 0 <= i < r.len() - 1 implies !cancels(#[trigger] r[i], r[i + 1]) by {
                if i < prev.len() - 1 {
                    assert(r[i] == prev[i] && r[i + 1] == prev[i + 1]);
                }
            }
        }
    }
}

/// On an irreducible stack, a self-cancelling instruction arriving twice
/// leaves the stack as it was.
pub proof fn lemma_push_twice(u: Seq<QuantumOp>, y: QuantumOp)
    requires
        irreducible(u),
        cancels(y, y),
    ensures
        push_reduced(push_reduced(u, y), y) == u,
{
    if u.len() > 0 && cancels(u.last(), y) {
        let v = u.drop_last();
        if v.len() > 0 && cancels(v.last(), y) {
            assert(cancels(u[u.len() - 2], u[u.len() - 2 + 1]));
            assert(false);
        }
        assert(v.push(y) =~= u);
    } else {
        assert(u.push(y).drop_last() =~= u);
    }
}

proof fn lemma_reduce_optimized(s: Seq<QuantumOp>, b: Seq<QuantumOp>)
    requires
        irreducible(s),
    ensures
        reduce_onto(s, b) == reduce_onto(s, optimized(b)),
    decreases b.len(),
{
    if b.len() > 0 {
        let b1 = b.drop_last();
        let x = b.last();
        let t = optimized(b1);
        lemma_reduce_optimized(s, b1);
        if t.len() > 0 && cancels(t.last(), x) {
            let y = t.last();
            assert(y == x);
            assert(t.drop_last().push(y) =~= t);
            lemma_reduce_irreducible(s, t.drop_last());
            lemma_push_twice(reduce_onto(s, t.drop_last()), y);
        } else {
            assert(t.push(x).drop_last() =~= t);
        }
    }
}

/// The optimiser's result is a normal form: optimising a joined program
/// gives what optimising the two optimised parts joined gives, and what
/// optimising the first part's result followed by the second part gives.
pub proof fn optimize_of_concatenation(a: Seq<QuantumOp>, b: Seq<QuantumOp>)
    ensures
        optimized(a + b) == optimized(optimized(a) + optimized(b)),
        optimized(a + b) == optimized(optimized(a) + b),
{
    lemma_optimized_is_reduction(a + b);
    lemma_optimized_is_reduction(a);
    lemma_optimized_is_reduction(optimized(a) + optimized(b));
    lemma_optimized_is_reduction(optimized(a) + b);
    lemma_reduce_concat(Seq::empty(), a, b);
    lemma_reduce_concat(Seq::empty(), optimized(a), optimized(b));
    lemma_reduce_concat(Seq::empty(), optimized(a), b);
    optimized_is_irreducible(a);
    optimize_is_idempotent(a);
    lemma_optimized_is_reduction(optimized(a));
    lemma_reduce_optimized(optimized(a), b);
}

} // verus!
