//! Zero-noise extrapolation: programs that keep their logic but take more
//! noise.

use vstd::prelude::*;
use crate::instruction::QuantumOp;
use crate::qir::{
    optimized, irreducible, cancels, push_reduced, reduce_onto, lemma_optimized_is_reduction, lemma_reduce_concat,
    lemma_reduce_irreducible, lemma_push_twice, optimized_is_irreducible,
};

verus! {

/// What one instruction becomes at noise scale `k`: a CNOT repeated `k`
/// times, any other instruction once.
pub open spec fn scale_op(op: QuantumOp, k: nat) -> Seq<QuantumOp> {
    match op {
        QuantumOp::CNOT { .. } => Seq::new(k, |i: int| op),
        _ => seq![op],
    }
}

/// The program `p` at noise scale `k`.
pub open spec fn scaled(p: Seq<QuantumOp>, k: nat) -> Seq<QuantumOp>
    decreases p.len(),
{
    if p.len() == 0 {
        Seq::empty()
    } else {
        scaled(p.drop_last(), k) + scale_op(p.last(), k)
    }
}

/// The number of CNOTs in `p`.
pub open spec fn cnot_count(p: Seq<QuantumOp>) -> nat
    decreases p.len(),
{
    if p.len() == 0 {
        0
    } else {
        cnot_count(p.drop_last()) + if p.last() is CNOT { 1nat } else { 0nat }
    }
}

/// The instructions of `p` other than CNOTs, in order.
pub open spec fn non_cnots(p: Seq<QuantumOp>) -> Seq<QuantumOp>
    decreases p.len(),
{
    if p.len() == 0 {
        Seq::empty()
    } else if p.last() is CNOT {
        non_cnots(p.drop_last())
    } else {
        non_cnots(p.drop_last()).push(p.last())
    }
}

/// Zero-noise extrapolation engine.
pub struct ErrorMitigation;

impl ErrorMitigation {
    /// Repeats every CNOT `scale_factor` times (an odd factor leaves the
    /// logic unchanged, since CNOT·CNOT is the identity) and keeps the
    /// other instructions.
    pub fn scale_noise_digital(program: &[QuantumOp], scale_factor: usize) -> (out: Vec<QuantumOp>)
        ensures
            out@ == scaled(program@, scale_factor as nat),
    {
        let mut out: Vec<QuantumOp> = Vec::new();
        let n = program.len();
        let mut i: usize = 0;
        while i < n
            invariant
                n == program@.len(),
                i <= n,
                out@ == scaled(program@.take(i as int), scale_factor as nat),
            decreases n - i,
        {
            let op = program[i];
            let ghost before = out@;
            match op {
                QuantumOp::CNOT { control, target } => {
                    let mut j: usize = 0;
                    while j < scale_factor
                        invariant
                            j <= scale_factor,
                            out@ =~= before + Seq::new(j as nat, |k: int| op),
                            op == (QuantumOp::CNOT { control, target }),
                        decreases scale_factor - j,
                    {
                        out.push(QuantumOp::CNOT { control, target });
                        j = j + 1;
                    }
                },
                _ => {
                    out.push(op);
                },
            }
            proof {
                assert(out@ =~= before + scale_op(op, scale_factor as nat));
                assert(program@.take(i + 1).drop_last() =~= program@.take(i as int));
                assert(program@.take(i + 1).last() == op);
            }
            i = i + 1;
        }
        assert(program@.take(n as int) =~= program@);
        out
    }
}

/// Scaling by one leaves a program as it is.
pub proof fn scale_by_one_is_identity(p: Seq<QuantumOp>)
    ensures
        scaled(p, 1) == p,
    decreases p.len(),
{
    if p.len() > 0 {
        scale_by_one_is_identity(p.drop_last());
        assert(scale_op(p.last(), 1) =~= seq![p.last()]);
        assert(p.drop_last() + seq![p.last()] =~= p);
    }
}

proof fn lemma_cnot_count_concat(a: Seq<QuantumOp>, b: Seq<QuantumOp>)
    ensures
        cnot_count(a + b) == cnot_count(a) + cnot_count(b),
    decreases b.len(),
{
    if b.len() > 0 {
        lemma_cnot_count_concat(a, b.drop_last());
        assert((a + b).drop_last() =~= a + b.drop_last());
    } else {
        assert(a + b =~= a);
    }
}

proof fn lemma_non_cnots_concat(a: Seq<QuantumOp>, b: Seq<QuantumOp>)
    ensures
        non_cnots(a + b) == non_cnots(a) + non_cnots(b),
    decreases b.len(),
{
    if b.len() > 0 {
        lemma_non_cnots_concat(a, b.drop_last());
        assert((a + b).drop_last() =~= a + b.drop_last());
        assert(non_cnots(a) + non_cnots(b.drop_last()).push(b.last()) =~= (non_cnots(a) + non_cnots(
            b.drop_last(),
        )).push(b.last()));
    } else {
        assert(a + b =~= a);
        assert(non_cnots(a) + Seq::<QuantumOp>::empty() =~= non_cnots(a));
    }
}

proof fn lemma_repeat_counts(op: QuantumOp, k: nat)
    requires
        op is CNOT,
    ensures
        cnot_count(Seq::new(k, |i: int| op)) == k,
        non_cnots(Seq::new(k, |i: int| op)) == Seq::<QuantumOp>::empty(),
    decreases k,
{
    if k > 0 {
        lemma_repeat_counts(op, (k - 1) as nat);
        assert(Seq::new(k, |i: int| op).drop_last() =~= Seq::new((k - 1) as nat, |i: int| op));
    }
}

/// At scale `k` a program holds `k` times as many CNOTs.
pub proof fn scaling_multiplies_cnots(p: Seq<QuantumOp>, k: nat)
    ensures
        cnot_count(scaled(p, k)) == k * cnot_count(p),
    decreases p.len(),
{
    if p.len() > 0 {
        scaling_multiplies_cnots(p.drop_last(), k);
        lemma_cnot_count_concat(scaled(p.drop_last(), k), scale_op(p.last(), k));
        assert(scaled(p, k) == scaled(p.drop_last(), k) + scale_op(p.last(), k));
        if p.last() is CNOT {
            lemma_repeat_counts(p.last(), k);
            assert(scale_op(p.last(), k) =~= Seq::new(k, |i: int| p.last()));
            assert(cnot_count(scale_op(p.last(), k)) == k);
        } else {
            let one = seq![p.last()];
            assert(one.drop_last() =~= Seq::<QuantumOp>::empty());
            assert(one.last() == p.last());
            assert(cnot_count(Seq::<QuantumOp>::empty()) == 0);
            assert(cnot_count(one) == 0);
            assert(scale_op(p.last(), k) == one);
        }
        if p.last() is CNOT {
            assert(cnot_count(p) == cnot_count(p.drop_last()) + 1);
            assert(k * cnot_count(p) == k * cnot_count(p.drop_last()) + k) by (nonlinear_arith)
                requires
                    cnot_count(p) == cnot_count(p.drop_last()) + 1,
            ;
        } else {
            assert(cnot_count(p) == cnot_count(p.drop_last()));
        }
    } else {
        assert(cnot_count(p) == 0);
        assert(k * cnot_count(p) == 0) by (nonlinear_arith)
            requires
                cnot_count(p) == 0,
        ;
    }
}

/// Scaling keeps every instruction other than a CNOT, in order.
pub proof fn scaling_keeps_other_gates(p: Seq<QuantumOp>, k: nat)
    ensures
        non_cnots(scaled(p, k)) == non_cnots(p),
    decreases p.len(),
{
    if p.len() > 0 {
        scaling_keeps_other_gates(p.drop_last(), k);
        lemma_non_cnots_concat(scaled(p.drop_last(), k), scale_op(p.last(), k));
        if p.last() is CNOT {
            lemma_repeat_counts(p.last(), k);
            assert(non_cnots(p.drop_last()) + Seq::<QuantumOp>::empty() =~= non_cnots(p.drop_last()));
        } else {
            let one = seq![p.last()];
            assert(one.drop_last() =~= Seq::<QuantumOp>::empty());
            assert(one.last() == p.last());
            assert(non_cnots(Seq::<QuantumOp>::empty()) == Seq::<QuantumOp>::empty());
            assert(non_cnots(one) =~= one);
            assert(scale_op(p.last(), k) == one);
            assert(non_cnots(p.drop_last()) + seq![p.last()] =~= non_cnots(p.drop_last()).push(p.last()));
        }
    }
}

proof fn lemma_odd_run(u: Seq<QuantumOp>, x: QuantumOp, k: nat)
    requires
        irreducible(u),
        cancels(x, x),
        k % 2 == 1,
    ensures
        reduce_onto(u, Seq::new(k, |i: int| x)) == push_reduced(u, x),
    decreases k,
{
    let r = Seq::new(k, |i: int| x);
    assert(reduce_onto(u, Seq::<QuantumOp>::empty()) == u);
    assert(seq![x].drop_last() =~= Seq::<QuantumOp>::empty());
    assert(reduce_onto(u, seq![x]) == push_reduced(reduce_onto(u, seq![x].drop_last()), x));
    if k == 1 {
        assert(r =~= seq![x]);
    } else {
        let r1 = r.drop_last();
        let r2 = Seq::new((k - 2) as nat, |i: int| x);
        assert(r1.drop_last() =~= r2);
        assert(r.last() == x);
        assert(r1.last() == x);
        assert(reduce_onto(u, r) == push_reduced(reduce_onto(u, r1), x));
        assert(reduce_onto(u, r1) == push_reduced(reduce_onto(u, r2), x));
        lemma_odd_run(u, x, (k - 2) as nat);
        lemma_reduce_irreducible(u, seq![x]);
        lemma_push_twice(push_reduced(u, x), x);
    }
}

/// Scaling by an odd factor keeps a program's logic: each CNOT becomes an
/// odd run of copies, which the optimiser folds back into one, so the
/// scaled program optimises to what the program itself optimises to.
pub proof fn odd_scaling_keeps_logic(p: Seq<QuantumOp>, k: nat)
    requires
        k % 2 == 1,
    ensures
        optimized(scaled(p, k)) == optimized(p),
    decreases p.len(),
{
    if p.len() > 0 {
        let p1 = p.drop_last();
        let x = p.last();
        let e = scale_op(x, k);
        odd_scaling_keeps_logic(p1, k);
        lemma_optimized_is_reduction(scaled(p, k));
        lemma_optimized_is_reduction(scaled(p1, k));
        lemma_reduce_concat(Seq::empty(), scaled(p1, k), e);
        optimized_is_irreducible(p1);
        let u = optimized(p1);
        match x {
            QuantumOp::CNOT { .. } => {
                assert(cancels(x, x));
                assert(e == Seq::new(k, |i: int| x));
                lemma_odd_run(u, x, k);
            },
            _ => {
                assert(e =~= seq![x]);
                assert(seq![x].drop_last() =~= Seq::<QuantumOp>::empty());
                assert(reduce_onto(u, Seq::<QuantumOp>::empty()) == u);
                assert(reduce_onto(u, seq![x]) == push_reduced(reduce_onto(u, seq![x].drop_last()), x));
            },
        }
        assert(scaled(p, k) == scaled(p1, k) + e);
        assert(optimized(p) == push_reduced(optimized(p1), x));
    }
}

} // verus!
