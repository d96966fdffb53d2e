//! Gottesman–Knill tableau simulation of Clifford circuits.

use vstd::prelude::*;

verus! {

/// A single-qubit Pauli operator.
#[derive(Debug, Clone, Copy, PartialEq, Eq, Structural)]
pub enum Pauli {
    I,
    X,
    Y,
    Z,
}

/// A stabilizer tableau over `num_qubits` qubits: rows `0..num_qubits` are
/// the destabilizers, rows `num_qubits..2 * num_qubits` the stabilizers, and
/// each row holds one Pauli per qubit and a sign in `phases`.
pub struct StabilizerTableau {
    pub num_qubits: usize,
    pub table: Vec<Vec<Pauli>>,
    pub phases: Vec<bool>,
}

/// The rows of a tableau, as sequences.
pub open spec fn rows_of(table: Seq<Vec<Pauli>>) -> Seq<Seq<Pauli>> {
    table.map_values(|r: Vec<Pauli>| r@)
}

/// The entry at `(row, col)` of the tableau of `|0...0>` on `n` qubits:
/// destabilizer `i` is `X` on qubit `i`, stabilizer `i` is `Z` on qubit `i`.
pub open spec fn initial_entry(n: nat, row: int, col: int) -> Pauli {
    if row < n && col == row {
        Pauli::X
    } else if row >= n && col == row - n {
        Pauli::Z
    } else {
        Pauli::I
    }
}

/// What a Hadamard does to one Pauli: swaps `X` and `Z`, keeps `I` and `Y`.
pub open spec fn h_map(p: Pauli) -> Pauli {
    match p {
        Pauli::X => Pauli::Z,
        Pauli::Z => Pauli::X,
        _ => p,
    }
}

/// A row after a Hadamard on qubit `q`.
pub open spec fn h_row(row: Seq<Pauli>, q: int) -> Seq<Pauli> {
    row.update(q, h_map(row[q]))
}

/// Whether `p` has an `X` part (`X` or `Y`).
pub open spec fn x_part(p: Pauli) -> bool {
    p == Pauli::X || p == Pauli::Y
}

/// Whether `p` has a `Z` part (`Z` or `Y`).
pub open spec fn z_part(p: Pauli) -> bool {
    p == Pauli::Z || p == Pauli::Y
}

/// The Pauli with the given `X` and `Z` parts.
pub open spec fn pauli_of(x: bool, z: bool) -> Pauli {
    if x && z {
        Pauli::Y
    } else if x {
        Pauli::X
    } else if z {
        Pauli::Z
    } else {
        Pauli::I
    }
}

/// A row after a CNOT from `c` to `t`: the `X` part of the control spreads
/// to the target and the `Z` part of the target spreads back to the
/// control (each added modulo 2); a CNOT of a qubit onto itself changes
/// nothing.
pub open spec fn cnot_row(row: Seq<Pauli>, c: int, t: int) -> Seq<Pauli> {
    if c == t {
        row
    } else {
        let xc = x_part(row[c]);
        let zc = z_part(row[c]);
        let xt = x_part(row[t]);
        let zt = z_part(row[t]);
        row.update(t, pauli_of(xt != xc, zt)).update(c, pauli_of(xc, zc != zt))
    }
}

/// The `X` and `Z` parts of `p`.
fn parts(p: Pauli) -> (r: (bool, bool))
    ensures
        r.0 == x_part(p),
        r.1 == z_part(p),
{
    match p {
        Pauli::I => (false, false),
        Pauli::X => (true, false),
        Pauli::Y => (true, true),
        Pauli::Z => (false, true),
    }
}

/// The Pauli with `X` part `x` and `Z` part `z`.
fn from_parts(x: bool, z: bool) -> (p: Pauli)
    ensures
        p == pauli_of(x, z),
{
    if x && z {
        Pauli::Y
    } else if x {
        Pauli::X
    } else if z {
        Pauli::Z
    } else {
        Pauli::I
    }
}

impl StabilizerTableau {
    /// The rows of the tableau.
    pub open spec fn rows(&self) -> Seq<Seq<Pauli>> {
        rows_of(self.table@)
    }

    /// Whether each of the `2 * num_qubits` rows exists and is long enough
    /// to hold column `q`.
    pub open spec fn has_column(&self, q: usize) -> bool {
        &&& 2 * self.num_qubits <= usize::MAX
        &&& forall|r: int| 0 <= r < 2 * self.num_qubits ==> r < self.table@.len() && q < #[trigger] self.table@[r]@.len()
    }

    /// The tableau of `|0...0>` on `num_qubits` qubits, all signs positive.
    pub fn new(num_qubits: usize) -> (t: Self)
        requires
            2 * num_qubits <= usize::MAX,
        ensures
            t.num_qubits == num_qubits,
            t.phases@ == Seq::new(2 * num_qubits as nat, |i: int| false),
            t.rows() == Seq::new(
                2 * num_qubits as nat,
                |r: int| Seq::new(num_qubits as nat, |c: int| initial_entry(num_qubits as nat, r, c)),
            ),
    {
        let n = num_qubits;
        let mut table: Vec<Vec<Pauli>> = Vec::new();
        let mut r: usize = 0;
        while r < 2 * n
            invariant
                2 * n <= usize::MAX,
                r <= 2 * n,
                table@.len() == r,
                forall|k: int| 0 <= k < r ==> #[trigger] table@[k]@ == Seq::new(
                    n as nat,
                    |c: int| initial_entry(n as nat, k, c),
                ),
            decreases 2 * n - r,
        {
            let mut row: Vec<Pauli> = Vec::new();
            let mut c: usize = 0;
            while c < n
                invariant
                    c <= n,
                    r < 2 * n,
                    row@ =~= Seq::new(c as nat, |cc: int| initial_entry(n as nat, r as int, cc)),
                decreases n - c,
            {
                let p = if r < n && c == r {
                    Pauli::X
                } else if r >= n && c == r - n {
                    Pauli::Z
                } else {
                    Pauli::I
                };
                row.push(p);
                c = c + 1;
            }
            table.push(row);
            r = r + 1;
        }
        let mut phases: Vec<bool> = Vec::new();
        let mut i: usize = 0;
        while i < 2 * n
            invariant
                2 * n <= usize::MAX,
                i <= 2 * n,
                phases@ =~= Seq::new(i as nat, |k: int| false),
            decreases 2 * n - i,
        {
            phases.push(false);
            i = i + 1;
        }
        let t = StabilizerTableau { num_qubits: n, table, phases };
        assert(t.rows() =~= Seq::new(
            2 * n as nat,
            |r: int| Seq::new(n as nat, |c: int| initial_entry(n as nat, r, c)),
        ));
        t
    }

    /// Hadamard on `qubit`: `X` and `Z` trade places in that column of every
    /// row; the signs are left as they are.
    pub fn apply_h(&mut self, qubit: usize)
        requires
            old(self).has_column(qubit),
        ensures
            final(self).num_qubits == old(self).num_qubits,
            final(self).phases@ == old(self).phases@,
            final(self).rows().len() == old(self).rows().len(),
            forall|r: int|
                0 <= r < final(self).rows().len() ==> #[trigger] final(self).rows()[r] == if r < 2
                    * old(self).num_qubits {
                    h_row(old(self).rows()[r], qubit as int)
                } else {
                    old(self).rows()[r]
                },
    {
        let ghost orig = self.rows();
        let n2 = 2 * self.num_qubits;
        let mut row: usize = 0;
        while row < n2
            invariant
                n2 == 2 * self.num_qubits,
                self.num_qubits == old(self).num_qubits,
                self.phases@ == old(self).phases@,
                orig == old(self).rows(),
                old(self).has_column(qubit),
                row <= n2,
                self.table@.len() == orig.len(),
                forall|r: int|
                    0 <= r < orig.len() ==> #[trigger] self.rows()[r] == if r < row {
                        h_row(orig[r], qubit as int)
                    } else {
                        orig[r]
                    },
            decreases n2 - row,
        {
            proof {
                assert(qubit < old(self).table@[row as int]@.len());
                assert(self.rows()[row as int] == orig[row as int]);
            }
            let p = self.table[row][qubit];
            let np = match p {
                Pauli::X => Pauli::Z,
                Pauli::Z => Pauli::X,
                other => other,
            };
            let ghost prev_rows = self.rows();
            let mut tmp: Vec<Pauli> = Vec::new();
            self.table.set_and_swap(row, &mut tmp);
            tmp.set(qubit, np);
            self.table.set(row, tmp);
            proof {
                assert forall|r: int| 0 <= r < orig.len() implies #[trigger] self.rows()[r] == if r < row
                    + 1 {
                    h_row(orig[r], qubit as int)
                } else {
                    orig[r]
                } by {
                    if r == row {
                        assert(self.rows()[r] =~= h_row(orig[r], qubit as int));
                    } else {
                        assert(self.rows()[r] == prev_rows[r]);
                    }
                }
            }
            row = row + 1;
        }
    }

    /// CNOT from `control` to `target`, row by row as `cnot_row` says; the
    /// signs are left as they are, as the Hadamard leaves them.
    pub fn apply_cnot(&mut self, control: usize, target: usize)
        requires
            old(self).has_column(control),
            old(self).has_column(target),
        ensures
            final(self).num_qubits == old(self).num_qubits,
            final(self).phases@ == old(self).phases@,
            final(self).rows().len() == old(self).rows().len(),
            forall|r: int|
                0 <= r < final(self).rows().len() ==> #[trigger] final(self).rows()[r] == if r < 2
                    * old(self).num_qubits {
                    cnot_row(old(self).rows()[r], control as int, target as int)
                } else {
                    old(self).rows()[r]
                },
    {
        let ghost orig = self.rows();
        let n2 = 2 * self.num_qubits;
        let mut row: usize = 0;
        while row < n2
            invariant
                n2 == 2 * self.num_qubits,
                self.num_qubits == old(self).num_qubits,
                self.phases@ == old(self).phases@,
                orig == old(self).rows(),
                old(self).has_column(control),
                old(self).has_column(target),
                row <= n2,
                self.table@.len() == orig.len(),
                forall|r: int|
                    0 <= r < orig.len() ==> #[trigger] self.rows()[r] == if r < row {
                        cnot_row(orig[r], control as int, target as int)
                    } else {
                        orig[r]
                    },
            decreases n2 - row,
        {
            proof {
                assert(control < old(self).table@[row as int]@.len());
                assert(target < old(self).table@[row as int]@.len());
                assert(self.rows()[row as int] == orig[row as int]);
            }
            let ghost prev_rows = self.rows();
            if control != target {
                let (xc, zc) = parts(self.table[row][control]);
                let (xt, zt) = parts(self.table[row][target]);
                let mut tmp: Vec<Pauli> = Vec::new();
                self.table.set_and_swap(row, &mut tmp);
                tmp.set(target, from_parts(xt != xc, zt));
                tmp.set(control, from_parts(xc, zc != zt));
                self.table.set(row, tmp);
            }
            proof {
                assert forall|r: int| 0 <= r < orig.len() implies #[trigger] self.rows()[r] == if r < row
                    + 1 {
                    cnot_row(orig[r], control as int, target as int)
                } else {
                    orig[r]
                } by {
                    if r == row {
                        assert(self.rows()[r] =~= cnot_row(orig[r], control as int, target as int));
                    } else {
                        assert(self.rows()[r] == prev_rows[r]);
                    }
                }
            }
            row = row + 1;
        }
    }
}

/// A Hadamard undoes itself: applied twice to a row it gives the row back.
pub proof fn hadamard_is_involution(row: Seq<Pauli>, q: int)
    requires
        0 <= q < row.len(),
    ensures
        h_row(h_row(row, q), q) == row,
{
    assert(h_row(h_row(row, q), q) =~= row);
}

/// A CNOT undoes itself: applied twice to a row it gives the row back.
pub proof fn cnot_is_involution(row: Seq<Pauli>, c: int, t: int)
    requires
        0 <= c < row.len(),
        0 <= t < row.len(),
    ensures
        cnot_row(cnot_row(row, c, t), c, t) == row,
{
    if c != t {
        let once = cnot_row(row, c, t);
        assert(once[c] == pauli_of(x_part(row[c]), z_part(row[c]) != z_part(row[t])));
        assert(once[t] == pauli_of(x_part(row[t]) != x_part(row[c]), z_part(row[t])));
        assert(cnot_row(once, c, t) =~= row);
    }
}

/// The product of two Paulis, up to sign: the `X` parts and the `Z` parts
/// each add modulo 2.
pub open spec fn pauli_mul(p: Pauli, q: Pauli) -> Pauli {
    pauli_of(x_part(p) != x_part(q), z_part(p) != z_part(q))
}

/// The product of two rows, qubit by qubit, up to sign.
pub open spec fn row_mul(r1: Seq<Pauli>, r2: Seq<Pauli>) -> Seq<Pauli> {
    Seq::new(r1.len(), |i: int| pauli_mul(r1[i], r2[i]))
}

/// The row of `n` qubits that is `p` on qubit `q` and `I` elsewhere.
pub open spec fn unit_row(n: nat, q: int, p: Pauli) -> Seq<Pauli> {
    Seq::new(n, |i: int| if i == q { p } else { Pauli::I })
}

proof fn lemma_parts_of(x: bool, z: bool)
    ensures
        x_part(pauli_of(x, z)) == x,
        z_part(pauli_of(x, z)) == z,
{
}

/// A CNOT conjugates products of Paulis into products: the row of a
/// product comes out as the product of the rows that come out.
pub proof fn cnot_respects_products(r1: Seq<Pauli>, r2: Seq<Pauli>, c: int, t: int)
    requires
        r1.len() == r2.len(),
        0 <= c < r1.len(),
        0 <= t < r1.len(),
    ensures
        cnot_row(row_mul(r1, r2), c, t) == row_mul(cnot_row(r1, c, t), cnot_row(r2, c, t)),
{
    let m = row_mul(r1, r2);
    let lhs = cnot_row(m, c, t);
    let rhs = row_mul(cnot_row(r1, c, t), cnot_row(r2, c, t));
    lemma_parts_of(x_part(r1[c]) != x_part(r2[c]), z_part(r1[c]) != z_part(r2[c]));
    lemma_parts_of(x_part(r1[t]) != x_part(r2[t]), z_part(r1[t]) != z_part(r2[t]));
    assert forall|i: int| 0 <= i < lhs.len() implies lhs[i] == rhs[i] by {
        if c != t {
            lemma_parts_of(x_part(r1[t]) != x_part(r1[c]), z_part(r1[t]));
            lemma_parts_of(x_part(r2[t]) != x_part(r2[c]), z_part(r2[t]));
            lemma_parts_of(x_part(r1[c]), z_part(r1[c]) != z_part(r1[t]));
            lemma_parts_of(x_part(r2[c]), z_part(r2[c]) != z_part(r2[t]));
        }
    }
    assert(lhs =~= rhs);
}

/// What a CNOT from `c` to `t` does to the single-qubit Paulis, on a row of
/// `n` qubits: `X` on the control spreads to `X` on both, `Z` on the target
/// spreads to `Z` on both, and `Z` on the control and `X` on the target are
/// left as they are.  With `cnot_respects_products` this fixes the CNOT on
/// every row.
pub proof fn cnot_on_single_paulis(n: nat, c: int, t: int)
    requires
        0 <= c < n,
        0 <= t < n,
        c != t,
    ensures
        cnot_row(unit_row(n, c, Pauli::X), c, t) == unit_row(n, c, Pauli::X).update(t, Pauli::X),
        cnot_row(unit_row(n, t, Pauli::Z), c, t) == unit_row(n, t, Pauli::Z).update(c, Pauli::Z),
        cnot_row(unit_row(n, c, Pauli::Z), c, t) == unit_row(n, c, Pauli::Z),
        cnot_row(unit_row(n, t, Pauli::X), c, t) == unit_row(n, t, Pauli::X),
{
    assert(cnot_row(unit_row(n, c, Pauli::X), c, t) =~= unit_row(n, c, Pauli::X).update(t, Pauli::X));
    assert(cnot_row(unit_row(n, t, Pauli::Z), c, t) =~= unit_row(n, t, Pauli::Z).update(c, Pauli::Z));
    assert(cnot_row(unit_row(n, c, Pauli::Z), c, t) =~= unit_row(n, c, Pauli::Z));
    assert(cnot_row(unit_row(n, t, Pauli::X), c, t) =~= unit_row(n, t, Pauli::X));
}

} // verus!
