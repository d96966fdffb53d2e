//! The index permutations that the basis-permuting gates (CNOT, Pauli X)
//! perform on a state vector of `2^n` amplitudes.

use vstd::prelude::*;

verus! {

/// Whether bit `k` of `i` is set.
pub open spec fn has_bit(i: usize, k: usize) -> bool {
    i & (1usize << k) != 0
}

/// `i` with bit `k` flipped.
pub open spec fn flip_bit(i: usize, k: usize) -> usize {
    i ^ (1usize << k)
}

/// The basis state that a CNOT from `c` to `t` sends to `j`: `j` with bit
/// `t` flipped where bit `c` is set (and `c != t`), else `j` itself.
pub open spec fn cnot_source(j: usize, c: usize, t: usize) -> usize {
    if c != t && has_bit(j, c) {
        flip_bit(j, t)
    } else {
        j
    }
}

/// The amplitudes after a CNOT from `c` to `t`.
pub open spec fn cnot_permuted<T>(s: Seq<T>, c: usize, t: usize) -> Seq<T> {
    Seq::new(s.len(), |j: int| s[cnot_source(j as usize, c, t) as int])
}

/// The amplitudes after a Pauli X on qubit `q`.
pub open spec fn x_permuted<T>(s: Seq<T>, q: usize) -> Seq<T> {
    Seq::new(s.len(), |j: int| s[flip_bit(j as usize, q) as int])
}

/// Whether every basis state of a vector of `len` amplitudes that a CNOT
/// from `c` to `t` pairs off has its partner in the vector too.
pub open spec fn cnot_in_range(len: nat, c: usize, t: usize) -> bool {
    forall|i: usize| i < len ==> (#[trigger] cnot_source(i, c, t)) < len
}

/// Whether every basis state of a vector of `len` amplitudes has its
/// partner under a flip of bit `q` in the vector too.
pub open spec fn flip_in_range(len: nat, q: usize) -> bool {
    forall|i: usize| i < len ==> (#[trigger] flip_bit(i, q)) < len
}

proof fn lemma_bits(i: usize, c: usize, t: usize)
    requires
        c < usize::BITS,
        t < usize::BITS,
    ensures
        flip_bit(flip_bit(i, t), t) == i,
        c != t ==> (has_bit(flip_bit(i, t), c) == has_bit(i, c)),
        has_bit(i, t) == (flip_bit(i, t) < i),
        flip_bit(i, t) != i,
{
    assert(((i ^ (1usize << t)) ^ (1usize << t)) == i) by (bit_vector)
        requires
            t < usize::BITS,
    ;
    assert(c != t ==> (((i ^ (1usize << t)) & (1usize << c) != 0) == (i & (1usize << c) != 0))) by (bit_vector)
        requires
            c < usize::BITS,
            t < usize::BITS,
    ;
    assert((i & (1usize << t) != 0) == ((i ^ (1usize << t)) < i)) by (bit_vector)
        requires
            t < usize::BITS,
    ;
    assert((i ^ (1usize << t)) != i) by (bit_vector)
        requires
            t < usize::BITS,
    ;
}

/// A CNOT undoes itself: the basis state sent to the one sent to `j` is `j`.
pub proof fn cnot_source_is_involution(j: usize, c: usize, t: usize)
    requires
        c < usize::BITS,
        t < usize::BITS,
    ensures
        cnot_source(cnot_source(j, c, t), c, t) == j,
{
    lemma_bits(j, c, t);
}

/// Two CNOTs on the same qubits leave a state vector unchanged, the
/// identity that lets the optimiser cancel them.
pub proof fn cnot_twice_is_identity<T>(s: Seq<T>, c: usize, t: usize)
    requires
        c < usize::BITS,
        t < usize::BITS,
        s.len() <= usize::MAX,
        cnot_in_range(s.len(), c, t),
    ensures
        cnot_permuted(cnot_permuted(s, c, t), c, t) == s,
{
    assert forall|j: int| 0 <= j < s.len() implies #[trigger] cnot_permuted(cnot_permuted(s, c, t), c, t)[j]
        == s[j] by {
        cnot_source_is_involution(j as usize, c, t);
        lemma_bits(j as usize, c, t);
        let k = cnot_source(j as usize, c, t);
        assert(k < s.len());
        assert(cnot_permuted(s, c, t)[k as int] == s[cnot_source(k, c, t) as int]);
    }
    assert(cnot_permuted(cnot_permuted(s, c, t), c, t) =~= s);
}

/// The smaller of two indices.
pub open spec fn min_index(a: usize, b: usize) -> usize {
    if a <= b {
        a
    } else {
        b
    }
}

/// Permutes the amplitudes as a CNOT from `control` to `target` does:
/// each basis state with the control bit set trades places with its
/// partner whose target bit differs.
pub fn apply_cnot_to_amplitudes<T: Copy>(state: &mut Vec<T>, control: usize, target: usize)
    requires
        control < usize::BITS,
        target < usize::BITS,
        cnot_in_range(old(state)@.len(), control, target),
    ensures
        final(state)@ == cnot_permuted(old(state)@, control, target),
{
    let ghost orig = state@;
    let size = state.len();
    let cbit: usize = 1usize << control;
    let tbit: usize = 1usize << target;
    let mut i: usize = 0;
    while i < size
        invariant
            size == orig.len(),
            state@.len() == size,
            control < usize::BITS,
            target < usize::BITS,
            cbit == 1usize << control,
            tbit == 1usize << target,
            cnot_in_range(orig.len(), control, target),
            i <= size,
            forall|j: int| 0 <= j < size ==> #[trigger] state@[j] == if min_index(j as usize, cnot_source(j as usize, control, target)) < i {
                orig[cnot_source(j as usize, control, target) as int]
            } else {
                orig[j]
            },
        decreases size - i,
    {
        proof {
            lemma_bits(i, control, target);
        }
        if (i & cbit) != 0 {
            let paired = i ^ tbit;
            if i < paired {
                proof {
                    assert(control != target) by {
                        if control == target {
                            assert(has_bit(i, target));
                        }
                    }
                    assert(cnot_source(i, control, target) == paired);
                    assert(paired < size);
                    lemma_bits(paired, control, target);
                    assert(cnot_source(paired, control, target) == i);
                }
                let a = state[i];
                let b = state[paired];
                state.set(i, b);
                state.set(paired, a);
            }
        }
        proof {
            assert forall|j: int| 0 <= j < size implies #[trigger] state@[j] == if min_index(j as usize, cnot_source(j as usize, control, target)) < i + 1 {
                orig[cnot_source(j as usize, control, target) as int]
            } else {
                orig[j]
            } by {
                lemma_bits(j as usize, control, target);
                let k = cnot_source(j as usize, control, target);
                if k != j as usize {
                    lemma_bits(k, control, target);
                }
            }
        }
        i = i + 1;
    }
    proof {
        assert forall|j: int| 0 <= j < size implies #[trigger] state@[j] == cnot_permuted(orig, control, target)[j] by {
            let k = cnot_source(j as usize, control, target);
            assert(min_index(j as usize, k) <= j);
        }
        assert(state@ =~= cnot_permuted(orig, control, target));
    }
}

/// Permutes the amplitudes as a Pauli X on `qubit` does: every basis
/// state trades places with the one whose `qubit` bit differs.
pub fn apply_x_to_amplitudes<T: Copy>(state: &mut Vec<T>, qubit: usize)
    requires
        qubit < usize::BITS,
        flip_in_range(old(state)@.len(), qubit),
    ensures
        final(state)@ == x_permuted(old(state)@, qubit),
{
    let ghost orig = state@;
    let size = state.len();
    let bit: usize = 1usize << qubit;
    let mut i: usize = 0;
    while i < size
        invariant
            size == orig.len(),
            state@.len() == size,
            qubit < usize::BITS,
            bit == 1usize << qubit,
            flip_in_range(orig.len(), qubit),
            i <= size,
            forall|j: int| 0 <= j < size ==> #[trigger] state@[j] == if min_index(j as usize, flip_bit(j as usize, qubit)) < i {
                orig[flip_bit(j as usize, qubit) as int]
            } else {
                orig[j]
            },
        decreases size - i,
    {
        proof {
            lemma_bits(i, qubit, qubit);
        }
        if (i & bit) == 0 {
            let paired = i ^ bit;
            proof {
                assert(paired < size);
                lemma_bits(paired, qubit, qubit);
            }
            let a = state[i];
            let b = state[paired];
            state.set(i, b);
            state.set(paired, a);
        }
        proof {
            assert forall|j: int| 0 <= j < size implies #[trigger] state@[j] == if min_index(j as usize, flip_bit(j as usize, qubit)) < i + 1 {
                orig[flip_bit(j as usize, qubit) as int]
            } else {
                orig[j]
            } by {
                lemma_bits(j as usize, qubit, qubit);
                lemma_bits(flip_bit(j as usize, qubit), qubit, qubit);
            }
        }
        i = i + 1;
    }
    proof {
        assert forall|j: int| 0 <= j < size implies #[trigger] state@[j] == x_permuted(orig, qubit)[j] by {
            assert(min_index(j as usize, flip_bit(j as usize, qubit)) <= j);
        }
        assert(state@ =~= x_permuted(orig, qubit));
    }
}

/// Two Pauli X gates on the same qubit leave a state vector unchanged.
pub proof fn x_twice_is_identity<T>(s: Seq<T>, q: usize)
    requires
        q < usize::BITS,
        s.len() <= usize::MAX,
        flip_in_range(s.len(), q),
    ensures
        x_permuted(x_permuted(s, q), q) == s,
{
    assert forall|j: int| 0 <= j < s.len() implies #[trigger] x_permuted(x_permuted(s, q), q)[j] == s[j] by {
        lemma_bits(j as usize, q, q);
        let k = flip_bit(j as usize, q);
        assert(k < s.len());
    }
    assert(x_permuted(x_permuted(s, q), q) =~= s);
}

} // verus!
