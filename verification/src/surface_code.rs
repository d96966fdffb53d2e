//! The 17-qubit surface code: syndrome extraction and a minimum-distance
//! decoder.

use vstd::prelude::*;
use std::collections::HashMap;

verus! {

/// A position on the code's lattice.
#[derive(Debug, Clone, Copy, PartialEq, Eq, Hash, Structural)]
pub struct QubitCoord {
    pub x: usize,
    pub y: usize,
}

/// The point `(x, y)`.
pub open spec fn coord(x: usize, y: usize) -> QubitCoord {
    QubitCoord { x, y }
}

/// The data qubits of the standard layout, `x` major.
pub open spec fn standard_data() -> Seq<QubitCoord> {
    seq![coord(0, 0), coord(0, 2), coord(0, 4), coord(2, 0), coord(2, 2), coord(2, 4), coord(4, 0), coord(4, 2), coord(4, 4)]
}

/// The X-parity ancillas of the standard layout.
pub open spec fn standard_ancilla_x() -> Seq<QubitCoord> {
    seq![coord(1, 0), coord(3, 2), coord(1, 4), coord(3, 4)]
}

/// The Z-parity ancillas of the standard layout.
pub open spec fn standard_ancilla_z() -> Seq<QubitCoord> {
    seq![coord(0, 1), coord(2, 1), coord(2, 3), coord(4, 3)]
}

/// The layout of the code: nine data qubits on the even points of a 5x5
/// lattice and the ancillas that measure X and Z parities.
pub struct SurfaceCode17 {
    pub data_qubits: Vec<QubitCoord>,
    pub ancilla_x: Vec<QubitCoord>,
    pub ancilla_z: Vec<QubitCoord>,
}

/// The Manhattan distance between two lattice points.
pub open spec fn manhattan(a: QubitCoord, b: QubitCoord) -> int {
    (if a.x >= b.x { a.x - b.x } else { b.x - a.x }) + (if a.y >= b.y { a.y - b.y } else { b.y - a.y })
}

/// Whether the error map marks `d` as flipped.
pub open spec fn is_flipped(noisy: Map<QubitCoord, bool>, d: QubitCoord) -> bool {
    noisy.contains_key(d) && noisy[d]
}

/// How many of the qubits `data` next to `anc` are flipped.
pub open spec fn flipped_neighbours(data: Seq<QubitCoord>, anc: QubitCoord, noisy: Map<QubitCoord, bool>) -> nat
    decreases data.len(),
{
    if data.len() == 0 {
        0
    } else {
        flipped_neighbours(data.drop_last(), anc, noisy) + if manhattan(data.last(), anc) == 1
            && is_flipped(noisy, data.last()) {
            1nat
        } else {
            0nat
        }
    }
}

/// The ancillas of `ancs`, in order, that see an odd number of flipped
/// neighbours among `data`.
pub open spec fn triggered(ancs: Seq<QubitCoord>, data: Seq<QubitCoord>, noisy: Map<QubitCoord, bool>) -> Seq<QubitCoord>
    decreases ancs.len(),
{
    if ancs.len() == 0 {
        Seq::empty()
    } else if flipped_neighbours(data, ancs.last(), noisy) % 2 == 1 {
        triggered(ancs.drop_last(), data, noisy).push(ancs.last())
    } else {
        triggered(ancs.drop_last(), data, noisy)
    }
}

/// The sum of the distances from `d` to each of `syns`.
pub open spec fn total_distance(d: QubitCoord, syns: Seq<QubitCoord>) -> int
    decreases syns.len(),
{
    if syns.len() == 0 {
        0
    } else {
        total_distance(d, syns.drop_last()) + manhattan(d, syns.last())
    }
}

/// Whether both coordinates of `c` fit in an `isize`.
pub open spec fn fits_isize(c: QubitCoord) -> bool {
    c.x <= isize::MAX && c.y <= isize::MAX
}

/// The flip that the error map records for `c`, if any.
///
/// Calls `HashMap::get`. Trusted: the map answers by the derived `Hash` and
/// `Eq` of `QubitCoord`, which compare both coordinates, so the result is
/// the entry for `c` in the map's contents.
#[verifier::external_body]
fn lookup_flip(noisy: &HashMap<QubitCoord, bool>, c: &QubitCoord) -> (r: Option<bool>)
    ensures
        r == (if noisy@.contains_key(*c) { Some(noisy@[*c]) } else { None::<bool> }),
{
    noisy.get(c).copied()
}

fn abs_diff(a: usize, b: usize) -> (d: usize)
    ensures
        d == if a >= b { a - b } else { b - a },
{
    if a >= b {
        a - b
    } else {
        b - a
    }
}

impl SurfaceCode17 {
    /// The standard layout: data qubits at the even points of the 5x5
    /// lattice, row by row in `x`, and four X and four Z ancillas.
    pub fn new() -> (code: Self)
        ensures
            code.data_qubits@ == standard_data(),
            code.ancilla_x@ == standard_ancilla_x(),
            code.ancilla_z@ == standard_ancilla_z(),
    {
        let mut data: Vec<QubitCoord> = Vec::new();
        let mut x: usize = 0;
        while x < 5
            invariant
                x % 2 == 0,
                x <= 6,
                data@.len() == 3 * (x / 2),
                forall|k: int| 0 <= k < data@.len() ==> #[trigger] data@[k] == coord(
                    (2 * (k / 3)) as usize,
                    (2 * (k % 3)) as usize,
                ),
            decreases 6 - x,
        {
            let mut y: usize = 0;
            while y < 5
                invariant
                    x % 2 == 0,
                    x < 5,
                    y % 2 == 0,
                    y <= 6,
                    data@.len() == 3 * (x / 2) + y / 2,
                    forall|k: int| 0 <= k < data@.len() ==> #[trigger] data@[k] == coord(
                        (2 * (k / 3)) as usize,
                        (2 * (k % 3)) as usize,
                    ),
                decreases 6 - y,
            {
                data.push(QubitCoord { x, y });
                y = y + 2;
            }
            x = x + 2;
        }
        let ancilla_x = vec![
            QubitCoord { x: 1, y: 0 },
            QubitCoord { x: 3, y: 2 },
            QubitCoord { x: 1, y: 4 },
            QubitCoord { x: 3, y: 4 },
        ];
        let ancilla_z = vec![
            QubitCoord { x: 0, y: 1 },
            QubitCoord { x: 2, y: 1 },
            QubitCoord { x: 2, y: 3 },
            QubitCoord { x: 4, y: 3 },
        ];
        assert(data@ =~= standard_data());
        assert(ancilla_x@ =~= standard_ancilla_x());
        assert(ancilla_z@ =~= standard_ancilla_z());
        SurfaceCode17 { data_qubits: data, ancilla_x, ancilla_z }
    }
}

/// Whether every data qubit and every point of `others` have coordinates
/// that fit in an `isize`, at a Manhattan distance that fits too: the
/// distance arithmetic never overflows.
pub open spec fn distances_fit(data: Seq<QubitCoord>, others: Seq<QubitCoord>) -> bool {
    forall|i: int, j: int|
        0 <= i < data.len() && 0 <= j < others.len() ==> #[trigger] pair_fits(data[i], others[j])
}

/// Whether the coordinates of `d` and `o` and their distance fit in an
/// `isize`.
pub open spec fn pair_fits(d: QubitCoord, o: QubitCoord) -> bool {
    fits_isize(d) && fits_isize(o) && manhattan(d, o) <= isize::MAX
}

impl SurfaceCode17 {
    /// Whether an odd number of the data qubits next to `anc` are flipped.
    fn odd_parity(&self, anc: QubitCoord, noisy_data: &HashMap<QubitCoord, bool>) -> (b: bool)
        requires
            forall|i: int| 0 <= i < self.data_qubits@.len() ==> manhattan(#[trigger] self.data_qubits@[i], anc) <= isize::MAX,
        ensures
            b == (flipped_neighbours(self.data_qubits@, anc, noisy_data@) % 2 == 1),
    {
        let ghost data = self.data_qubits@;
        let n = self.data_qubits.len();
        let mut parity = false;
        let mut j: usize = 0;
        assert(data.take(0) =~= Seq::<QubitCoord>::empty());
        while j < n
            invariant
                n == data.len(),
                data == self.data_qubits@,
                j <= n,
                parity == (flipped_neighbours(data.take(j as int), anc, noisy_data@) % 2 == 1),
                forall|i: int| 0 <= i < data.len() ==> manhattan(#[trigger] data[i], anc) <= isize::MAX,
            decreases n - j,
        {
            let d = self.data_qubits[j];
            proof {
                assert(data.take(j + 1).drop_last() =~= data.take(j as int));
                assert(data.take(j + 1).last() == d);
                assert(manhattan(data[j as int], anc) <= isize::MAX);
            }
            let dx = abs_diff(d.x, anc.x);
            let dy = abs_diff(d.y, anc.y);
            if dx + dy == 1 {
                let flipped = match lookup_flip(noisy_data, &d) {
                    Some(v) => v,
                    None => false,
                };
                if flipped {
                    parity = !parity;
                }
            }
            j = j + 1;
        }
        assert(data.take(n as int) =~= data);
        parity
    }

    /// The ancillas, X ones first, each in layout order, that see an odd
    /// number of flipped data neighbours in `noisy_data`; a data qubit that
    /// the map leaves out counts as unflipped.
    pub fn measure_syndromes(&self, noisy_data: &HashMap<QubitCoord, bool>) -> (r: Vec<QubitCoord>)
        requires
            distances_fit(self.data_qubits@, self.ancilla_x@ + self.ancilla_z@),
        ensures
            r@ == triggered(self.ancilla_x@ + self.ancilla_z@, self.data_qubits@, noisy_data@),
    {
        let ghost ax = self.ancilla_x@;
        let ghost az = self.ancilla_z@;
        proof {
            lemma_distances_fit_split(self.data_qubits@, ax, az);
        }
        let mut out: Vec<QubitCoord> = Vec::new();
        self.collect_triggered(&self.ancilla_x, noisy_data, &mut out);
        self.collect_triggered(&self.ancilla_z, noisy_data, &mut out);
        proof {
            lemma_triggered_concat(ax, az, self.data_qubits@, noisy_data@);
            assert(Seq::<QubitCoord>::empty() + triggered(ax, self.data_qubits@, noisy_data@) =~= triggered(
                ax,
                self.data_qubits@,
                noisy_data@,
            ));
        }
        out
    }

    /// Appends the ancillas of `ancs` that see odd parity.
    fn collect_triggered(
        &self,
        ancs: &Vec<QubitCoord>,
        noisy_data: &HashMap<QubitCoord, bool>,
        out: &mut Vec<QubitCoord>,
    )
        requires
            distances_fit(self.data_qubits@, ancs@),
        ensures
            final(out)@ == old(out)@ + triggered(ancs@, self.data_qubits@, noisy_data@),
    {
        let n = ancs.len();
        let mut i: usize = 0;
        assert(ancs@.take(0) =~= Seq::<QubitCoord>::empty());
        assert(old(out)@ + Seq::<QubitCoord>::empty() =~= old(out)@);
        while i < n
            invariant
                n == ancs@.len(),
                i <= n,
                distances_fit(self.data_qubits@, ancs@),
                out@ == old(out)@ + triggered(ancs@.take(i as int), self.data_qubits@, noisy_data@),
            decreases n - i,
        {
            let anc = ancs[i];
            proof {
                assert(ancs@.take(i + 1).drop_last() =~= ancs@.take(i as int));
                assert(ancs@.take(i + 1).last() == anc);
                assert forall|k: int| 0 <= k < self.data_qubits@.len() implies manhattan(
                    #[trigger] self.data_qubits@[k],
                    anc,
                ) <= isize::MAX by {
                    assert(ancs@[i as int] == anc);
                    assert(pair_fits(self.data_qubits@[k], ancs@[i as int]));
                }
            }
            let ghost before = out@;
            if self.odd_parity(anc, noisy_data) {
                out.push(anc);
                assert(out@ =~= old(out)@ + triggered(ancs@.take(i + 1), self.data_qubits@, noisy_data@));
            }
            i = i + 1;
        }
        assert(ancs@.take(n as int) =~= ancs@);
    }

    /// The sum of distances from `d` to the syndromes.
    fn total_distance_to(d: QubitCoord, syndromes: &[QubitCoord]) -> (t: usize)
        requires
            total_distance(d, syndromes@) <= usize::MAX,
        ensures
            t == total_distance(d, syndromes@),
    {
        let n = syndromes.len();
        let mut total: usize = 0;
        let mut j: usize = 0;
        assert(syndromes@.take(0) =~= Seq::<QubitCoord>::empty());
        while j < n
            invariant
                n == syndromes@.len(),
                j <= n,
                total == total_distance(d, syndromes@.take(j as int)),
                total_distance(d, syndromes@) <= usize::MAX,
            decreases n - j,
        {
            let s = syndromes[j];
            proof {
                assert(syndromes@.take(j + 1).drop_last() =~= syndromes@.take(j as int));
                assert(syndromes@.take(j + 1).last() == s);
                lemma_total_distance_prefix(d, syndromes@, j + 1);
            }
            let dist = abs_diff(d.x, s.x) + abs_diff(d.y, s.y);
            total = total + dist;
            j = j + 1;
        }
        assert(syndromes@.take(n as int) =~= syndromes@);
        total
    }

    /// The data qubit that best explains the syndromes: the first one, in
    /// layout order, whose summed distance to all syndromes is least, where
    /// a sum must stay below `usize::MAX` to count.  `None` for no
    /// syndromes (or no data qubit that counts).
    pub fn mwpm_decode(&self, syndromes: &[QubitCoord]) -> (r: Option<QubitCoord>)
        requires
            forall|i: int| 0 <= i < self.data_qubits@.len() ==> fits_isize(#[trigger] self.data_qubits@[i]),
            forall|j: int| 0 <= j < syndromes@.len() ==> fits_isize(#[trigger] syndromes@[j]),
            forall|i: int| 0 <= i < self.data_qubits@.len() ==> total_distance(#[trigger] self.data_qubits@[i], syndromes@) <= usize::MAX,
        ensures
            syndromes@.len() == 0 ==> r is None,
            syndromes@.len() > 0 && r is None ==> forall|i: int|
                0 <= i < self.data_qubits@.len() ==> total_distance(#[trigger] self.data_qubits@[i], syndromes@) == usize::MAX,
            r matches Some(c) ==> syndromes@.len() > 0 && exists|k: int| {
                &&& 0 <= k < self.data_qubits@.len()
                &&& self.data_qubits@[k] == c
                &&& total_distance(c, syndromes@) < usize::MAX
                &&& forall|j: int| 0 <= j < k ==> total_distance(#[trigger] self.data_qubits@[j], syndromes@) > total_distance(c, syndromes@)
                &&& forall|j: int| 0 <= j < self.data_qubits@.len() ==> total_distance(#[trigger] self.data_qubits@[j], syndromes@) >= total_distance(c, syndromes@)
            },
    {
        if syndromes.len() == 0 {
            return None;
        }
        let ghost data = self.data_qubits@;
        let ghost syns = syndromes@;
        let n = self.data_qubits.len();
        let mut best: Option<QubitCoord> = None;
        let mut min_total: usize = usize::MAX;
        let ghost mut best_k: int = 0;
        let mut i: usize = 0;
        while i < n
            invariant
                n == data.len(),
                data == self.data_qubits@,
                syns == syndromes@,
                i <= n,
                forall|k: int| 0 <= k < data.len() ==> total_distance(#[trigger] data[k], syns) <= usize::MAX,
                forall|j: int| 0 <= j < i ==> total_distance(#[trigger] data[j], syns) >= min_total,
                best is None ==> min_total == usize::MAX,
                best matches Some(c) ==> {
                    &&& 0 <= best_k < i
                    &&& data[best_k] == c
                    &&& total_distance(c, syns) == min_total
                    &&& min_total < usize::MAX
                    &&& forall|j: int| 0 <= j < best_k ==> total_distance(#[trigger] data[j], syns) > min_total
                },
            decreases n - i,
        {
            let d = self.data_qubits[i];
            proof {
                assert(total_distance(data[i as int], syns) <= usize::MAX);
            }
            let total = Self::total_distance_to(d, syndromes);
            if total < min_total {
                min_total = total;
                best = Some(d);
                proof {
                    best_k = i as int;
                }
            }
            i = i + 1;
        }
        best
    }
}

proof fn lemma_distances_fit_split(data: Seq<QubitCoord>, a: Seq<QubitCoord>, b: Seq<QubitCoord>)
    requires
        distances_fit(data, a + b),
    ensures
        distances_fit(data, a),
        distances_fit(data, b),
{
    assert forall|i: int, j: int| 0 <= i < data.len() && 0 <= j < a.len() implies #[trigger] pair_fits(
        data[i],
        a[j],
    ) by {
        assert((a + b)[j] == a[j]);
        assert(pair_fits(data[i], (a + b)[j]));
    }
    assert forall|i: int, j: int| 0 <= i < data.len() && 0 <= j < b.len() implies #[trigger] pair_fits(
        data[i],
        b[j],
    ) by {
        assert((a + b)[a.len() + j] == b[j]);
        assert(pair_fits(data[i], (a + b)[a.len() + j]));
    }
}

proof fn lemma_triggered_concat(
    a: Seq<QubitCoord>,
    b: Seq<QubitCoord>,
    data: Seq<QubitCoord>,
    noisy: Map<QubitCoord, bool>,
)
    ensures
        triggered(a + b, data, noisy) == triggered(a, data, noisy) + triggered(b, data, noisy),
    decreases b.len(),
{
    if b.len() == 0 {
        assert(a + b =~= a);
        assert(triggered(a, data, noisy) + Seq::<QubitCoord>::empty() =~= triggered(a, data, noisy));
    } else {
        lemma_triggered_concat(a, b.drop_last(), data, noisy);
        assert((a + b).drop_last() =~= a + b.drop_last());
        assert((a + b).last() == b.last());
        assert((triggered(a, data, noisy) + triggered(b.drop_last(), data, noisy)).push(b.last())
            =~= triggered(a, data, noisy) + triggered(b.drop_last(), data, noisy).push(b.last()));
    }
}

proof fn lemma_total_distance_prefix(d: QubitCoord, syns: Seq<QubitCoord>, j: int)
    requires
        0 <= j <= syns.len(),
    ensures
        total_distance(d, syns.take(j)) <= total_distance(d, syns),
    decreases syns.len() - j,
{
    if j < syns.len() {
        lemma_total_distance_prefix(d, syns.drop_last(), j);
        assert(syns.drop_last().take(j) =~= syns.take(j));
    } else {
        assert(syns.take(j) =~= syns);
    }
}

/// The error pattern that flips exactly the qubits flipped by one of `e1`
/// and `e2` but not both.
pub open spec fn xor_errors(e1: Map<QubitCoord, bool>, e2: Map<QubitCoord, bool>) -> Map<QubitCoord, bool> {
    Map::new(
        |d: QubitCoord| e1.contains_key(d) || e2.contains_key(d),
        |d: QubitCoord| is_flipped(e1, d) != is_flipped(e2, d),
    )
}

proof fn lemma_parity_xor(data: Seq<QubitCoord>, a: QubitCoord, e1: Map<QubitCoord, bool>, e2: Map<QubitCoord, bool>)
    ensures
        (flipped_neighbours(data, a, xor_errors(e1, e2)) % 2 == 1) == ((flipped_neighbours(data, a, e1) % 2 == 1)
            != (flipped_neighbours(data, a, e2) % 2 == 1)),
    decreases data.len(),
{
    if data.len() > 0 {
        let d = data.last();
        lemma_parity_xor(data.drop_last(), a, e1, e2);
        assert(is_flipped(xor_errors(e1, e2), d) == (is_flipped(e1, d) != is_flipped(e2, d)));
    }
}

proof fn lemma_triggered_contains(ancs: Seq<QubitCoord>, data: Seq<QubitCoord>, e: Map<QubitCoord, bool>, a: QubitCoord)
    ensures
        triggered(ancs, data, e).contains(a) == (ancs.contains(a) && flipped_neighbours(data, a, e) % 2 == 1),
    decreases ancs.len(),
{
    if ancs.len() > 0 {
        let rest = ancs.drop_last();
        lemma_triggered_contains(rest, data, e, a);
        let t = triggered(rest, data, e);
        if ancs.contains(a) && a != ancs.last() {
            let i = choose|i: int| 0 <= i < ancs.len() && ancs[i] == a;
            assert(rest[i] == a);
        }
        if rest.contains(a) {
            let i = choose|i: int| 0 <= i < rest.len() && rest[i] == a;
            assert(ancs[i] == a);
        }
        if flipped_neighbours(data, ancs.last(), e) % 2 == 1 {
            assert(t.push(ancs.last()).contains(a) == (t.contains(a) || a == ancs.last())) by {
                if t.push(ancs.last()).contains(a) && a != ancs.last() {
                    let i = choose|i: int| 0 <= i < t.len() + 1 && t.push(ancs.last())[i] == a;
                    assert(t[i] == a);
                }
                if t.contains(a) {
                    let i = choose|i: int| 0 <= i < t.len() && t[i] == a;
                    assert(t.push(ancs.last())[i] == a);
                }
                if a == ancs.last() {
                    assert(t.push(ancs.last())[t.len() as int] == a);
                }
            }
        }
        if ancs.last() == a {
            assert(ancs[ancs.len() - 1] == a);
        }
    }
}

/// Syndromes are linear in the error pattern: an ancilla fires for the
/// combined pattern `e1` xor `e2` exactly when it fires for one of the two
/// patterns and not the other.
pub proof fn syndromes_are_linear(
    ancs: Seq<QubitCoord>,
    data: Seq<QubitCoord>,
    e1: Map<QubitCoord, bool>,
    e2: Map<QubitCoord, bool>,
)
    ensures
        forall|a: QubitCoord|
            #[trigger] triggered(ancs, data, xor_errors(e1, e2)).contains(a) == (triggered(ancs, data, e1).contains(a)
                != triggered(ancs, data, e2).contains(a)),
{
    assert forall|a: QubitCoord|
        #[trigger] triggered(ancs, data, xor_errors(e1, e2)).contains(a) == (triggered(ancs, data, e1).contains(a)
            != triggered(ancs, data, e2).contains(a)) by {
        lemma_triggered_contains(ancs, data, xor_errors(e1, e2), a);
        lemma_triggered_contains(ancs, data, e1, a);
        lemma_triggered_contains(ancs, data, e2, a);
        lemma_parity_xor(data, a, e1, e2);
    }
}

/// The same law for the ancillas and data qubits of a code, as sets: the
/// syndromes that `measure_syndromes` reports for the combined pattern
/// `e1` xor `e2` are the symmetric difference of those it reports for `e1`
/// and for `e2`.
pub proof fn code_syndromes_are_linear(code: SurfaceCode17, e1: Map<QubitCoord, bool>, e2: Map<QubitCoord, bool>)
    ensures
        ({
            let ancs = code.ancilla_x@ + code.ancilla_z@;
            let data = code.data_qubits@;
            let s1 = triggered(ancs, data, e1).to_set();
            let s2 = triggered(ancs, data, e2).to_set();
            triggered(ancs, data, xor_errors(e1, e2)).to_set() == s1.union(s2).difference(s1.intersect(s2))
        }),
{
    let ancs = code.ancilla_x@ + code.ancilla_z@;
    let data = code.data_qubits@;
    syndromes_are_linear(ancs, data, e1, e2);
    let s1 = triggered(ancs, data, e1).to_set();
    let s2 = triggered(ancs, data, e2).to_set();
    assert(triggered(ancs, data, xor_errors(e1, e2)).to_set() =~= s1.union(s2).difference(s1.intersect(s2))) by {
        assert forall|a: QubitCoord| triggered(ancs, data, xor_errors(e1, e2)).to_set().contains(a) == s1.union(
            s2,
        ).difference(s1.intersect(s2)).contains(a) by {
            assert(triggered(ancs, data, xor_errors(e1, e2)).contains(a) == (triggered(ancs, data, e1).contains(a)
                != triggered(ancs, data, e2).contains(a)));
        }
    }
}

/// The error pattern with exactly one flipped qubit, `d`.
pub open spec fn single_flip(d: QubitCoord) -> Map<QubitCoord, bool> {
    Map::empty().insert(d, true)
}

proof fn lemma_single_flip_count(data: Seq<QubitCoord>, a: QubitCoord, d: QubitCoord)
    requires
        data.no_duplicates(),
    ensures
        flipped_neighbours(data, a, single_flip(d)) == if data.contains(d) && manhattan(d, a) == 1 {
            1nat
        } else {
            0nat
        },
    decreases data.len(),
{
    if data.len() > 0 {
        let rest = data.drop_last();
        let x = data.last();
        assert(rest.no_duplicates()) by {
            assert forall|i: int, j: int| 0 <= i < rest.len() && 0 <= j < rest.len() && i != j implies rest[i]
                != rest[j] by {
                assert(rest[i] == data[i] && rest[j] == data[j]);
            }
        }
        lemma_single_flip_count(rest, a, d);
        if x == d {
            if rest.contains(d) {
                let i = choose|i: int| 0 <= i < rest.len() && rest[i] == d;
                assert(data[i] == data[data.len() - 1]);
            }
            assert(data.contains(d)) by {
                assert(data[data.len() - 1] == d);
            }
        } else {
            assert(!is_flipped(single_flip(d), x));
            if data.contains(d) {
                let i = choose|i: int| 0 <= i < data.len() && data[i] == d;
                assert(i != data.len() - 1);
                assert(rest[i] == d);
            }
            if rest.contains(d) {
                let i = choose|i: int| 0 <= i < rest.len() && rest[i] == d;
                assert(data[i] == d);
            }
        }
    }
}

/// A single flipped data qubit is seen by exactly the ancillas next to it:
/// for data qubits listed once each, a flip of one of them, `d`, makes an
/// ancilla fire exactly when it is one of `ancs` at distance 1 from `d`,
/// wherever `d` stands among the data qubits.
pub proof fn single_flip_triggers_its_neighbours(ancs: Seq<QubitCoord>, data: Seq<QubitCoord>, d: QubitCoord)
    requires
        data.no_duplicates(),
        data.contains(d),
    ensures
        forall|a: QubitCoord|
            #[trigger] triggered(ancs, data, single_flip(d)).contains(a) == (ancs.contains(a) && manhattan(d, a)
                == 1),
{
    assert forall|a: QubitCoord|
        #[trigger] triggered(ancs, data, single_flip(d)).contains(a) == (ancs.contains(a) && manhattan(d, a) == 1) by {
        lemma_triggered_contains(ancs, data, single_flip(d), a);
        lemma_single_flip_count(data, a, d);
    }
}

/// The data qubits of the standard layout are all different.
pub proof fn standard_data_is_distinct()
    ensures
        standard_data().no_duplicates(),
{
    let s = standard_data();
    assert forall|i: int, j: int| 0 <= i < s.len() && 0 <= j < s.len() && i != j implies s[i] != s[j] by {
        assert(s[i].x == 2 * (i / 3) && s[i].y == 2 * (i % 3));
        assert(s[j].x == 2 * (j / 3) && s[j].y == 2 * (j % 3));
    }
}

/// On the standard layout that `SurfaceCode17::new` builds, a flip of any
/// one data qubit makes exactly the ancillas at distance 1 from it fire.
pub proof fn standard_code_sees_every_single_flip(d: QubitCoord)
    requires
        standard_data().contains(d),
    ensures
        forall|a: QubitCoord|
            #[trigger] triggered(standard_ancilla_x() + standard_ancilla_z(), standard_data(), single_flip(d)).contains(
                a,
            ) == ((standard_ancilla_x() + standard_ancilla_z()).contains(a) && manhattan(d, a) == 1),
{
    standard_data_is_distinct();
    single_flip_triggers_its_neighbours(standard_ancilla_x() + standard_ancilla_z(), standard_data(), d);
}

} // verus!
