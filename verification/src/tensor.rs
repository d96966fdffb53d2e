//! Bond truncation of matrix-product-state tensors.

use vstd::prelude::*;

verus! {

/// One qubit of a matrix product state: its entries, indexed by bond and
/// physical index, and the dimension of its bond.
#[derive(Clone, Debug)]
pub struct TensorNode<T> {
    pub qubit_id: usize,
    pub data: Vec<T>,
    pub bond_dimension: usize,
}

/// The first `n` entries of `s`, or all of them when it has fewer.
pub open spec fn first_entries<T>(s: Seq<T>, n: nat) -> Seq<T> {
    if n <= s.len() {
        s.subrange(0, n as int)
    } else {
        s
    }
}

/// Cuts every bond above `max_bond` down to `max_bond`, keeping the first
/// two entries per remaining bond value; nodes within the limit stay as
/// they are.
pub fn compress_bonds<T>(nodes: &mut Vec<TensorNode<T>>, max_bond: usize)
    requires
        forall|i: int|
            0 <= i < old(nodes)@.len() && #[trigger] old(nodes)@[i].bond_dimension > max_bond ==> max_bond * 2
                <= usize::MAX,
    ensures
        final(nodes)@.len() == old(nodes)@.len(),
        forall|i: int|
            0 <= i < old(nodes)@.len() ==> {
                let before = #[trigger] old(nodes)@[i];
                let after = final(nodes)@[i];
                &&& after.qubit_id == before.qubit_id
                &&& if before.bond_dimension > max_bond {
                    &&& after.bond_dimension == max_bond
                    &&& after.data@ == first_entries(before.data@, max_bond as nat * 2)
                } else {
                    &&& after.bond_dimension == before.bond_dimension
                    &&& after.data@ == before.data@
                }
            },
{
    let n = nodes.len();
    let mut i: usize = 0;
    while i < n
        invariant
            n == old(nodes)@.len(),
            nodes@.len() == n,
            i <= n,
            forall|j: int|
                0 <= j < n && #[trigger] old(nodes)@[j].bond_dimension > max_bond ==> max_bond * 2 <= usize::MAX,
            forall|j: int| i <= j < n ==> #[trigger] nodes@[j] == old(nodes)@[j],
            forall|j: int|
                0 <= j < i ==> {
                    let before = #[trigger] old(nodes)@[j];
                    let after = nodes@[j];
                    &&& after.qubit_id == before.qubit_id
                    &&& if before.bond_dimension > max_bond {
                        &&& after.bond_dimension == max_bond
                        &&& after.data@ == first_entries(before.data@, max_bond as nat * 2)
                    } else {
                        &&& after.bond_dimension == before.bond_dimension
                        &&& after.data@ == before.data@
                    }
                },
        decreases n - i,
    {
        if nodes[i].bond_dimension > max_bond {
            let mut node = TensorNode { qubit_id: 0, data: Vec::new(), bond_dimension: 0 };
            nodes.set_and_swap(i, &mut node);
            assert(node == old(nodes)@[i as int]);
            node.bond_dimension = max_bond;
            node.data.truncate(max_bond * 2);
            nodes.set_and_swap(i, &mut node);
        }
        i = i + 1;
    }
}

} // verus!
