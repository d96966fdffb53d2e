//! Routing of two-qubit gates on a chip whose qubits are wired to a few
//! neighbours only.

use vstd::prelude::*;
use std::collections::{HashMap, HashSet, VecDeque};
use crate::instruction::QuantumOp;

verus! {

broadcast use vstd::std_specs::hash::group_hash_axioms;

/// The physical wiring of a chip: for each qubit, the qubits it can talk to.
pub struct HardwareCouplingMap {
    pub connections: HashMap<usize, Vec<usize>>,
}

/// The neighbour lists of a wiring, as sequences.
pub open spec fn adjacency_of(m: Map<usize, Vec<usize>>) -> Map<usize, Seq<usize>> {
    m.map_values(|v: Vec<usize>| v@)
}

/// Whether `v` is listed as a neighbour of `u`.
pub open spec fn has_edge(g: Map<usize, Seq<usize>>, u: usize, v: usize) -> bool {
    g.contains_key(u) && g[u].contains(v)
}

/// Whether `p` walks from `s` to `e` along listed connections.
pub open spec fn is_route(g: Map<usize, Seq<usize>>, p: Seq<usize>, s: usize, e: usize) -> bool {
    &&& p.len() >= 1
    &&& p[0] == s
    &&& p.last() == e
    &&& forall|i: int| 0 <= i < p.len() - 1 ==> has_edge(g, #[trigger] p[i], p[i + 1])
}

/// Whether some route leads from `s` to `e`.
pub open spec fn reachable(g: Map<usize, Seq<usize>>, s: usize, e: usize) -> bool {
    exists|p: Seq<usize>| is_route(g, p, s, e)
}

/// Whether `p` is a route from `s` to `e` with no route shorter than it.
pub open spec fn is_shortest_route(g: Map<usize, Seq<usize>>, p: Seq<usize>, s: usize, e: usize) -> bool {
    &&& is_route(g, p, s, e)
    &&& forall|q: Seq<usize>| is_route(g, q, s, e) ==> p.len() <= q.len()
}

/// What `shortest_path` answers: a shortest route where one exists, and the
/// one-element sequence `[s]` where `e` cannot be reached from `s`.
pub open spec fn is_path_answer(g: Map<usize, Seq<usize>>, p: Seq<usize>, s: usize, e: usize) -> bool {
    if reachable(g, s, e) {
        is_shortest_route(g, p, s, e)
    } else {
        p == seq![s]
    }
}

/// The neighbours of the qubit at row `r`, column `c` of a `rows` by `cols`
/// grid numbered row by row: the one above, below, left and right of it, in
/// that order, where they exist.
pub open spec fn grid_neighbors(rows: nat, cols: nat, r: nat, c: nat) -> Seq<usize> {
    (if r > 0 { seq![((r - 1) * cols + c) as usize] } else { Seq::empty() })
        + (if r + 1 < rows { seq![((r + 1) * cols + c) as usize] } else { Seq::empty() })
        + (if c > 0 { seq![(r * cols + c - 1) as usize] } else { Seq::empty() })
        + (if c + 1 < cols { seq![(r * cols + c + 1) as usize] } else { Seq::empty() })
}

/// The wiring of a `rows` by `cols` grid: qubit `k` sits at row `k / cols`
/// and column `k % cols`.
pub open spec fn grid_adjacency(rows: nat, cols: nat) -> Map<usize, Seq<usize>> {
    Map::new(
        |k: usize| k < rows * cols,
        |k: usize| grid_neighbors(rows, cols, k as nat / cols, k as nat % cols),
    )
}

proof fn lemma_row_major(cols: nat, r: nat, c: nat)
    requires
        c < cols,
    ensures
        (r * cols + c) / cols == r,
        (r * cols + c) % cols == c,
{
    vstd::arithmetic::div_mod::lemma_fundamental_div_mod_converse(
        (r * cols + c) as int,
        cols as int,
        r as int,
        c as int,
    );
}

proof fn lemma_row_major_bound(rows: nat, cols: nat, r: nat, c: nat)
    requires
        r < rows,
        c < cols,
    ensures
        r * cols + c < rows * cols,
        (r + 1) * cols == r * cols + cols,
{
    assert(r * cols + c < rows * cols) by (nonlinear_arith)
        requires
            r < rows,
            c < cols,
    ;
    assert((r + 1) * cols == r * cols + cols) by (nonlinear_arith);
}

/// The qubits that some qubit of `d` lists as a neighbour.
pub open spec fn targets_in(g: Map<usize, Seq<usize>>, d: Set<usize>) -> Set<usize> {
    Set::new(|v: usize| exists|u: usize| d.contains(u) && has_edge(g, u, v))
}

proof fn lemma_targets_in_finite(g: Map<usize, Seq<usize>>, d: Set<usize>)
    requires
        d.finite(),
    ensures
        targets_in(g, d).finite(),
    decreases d.len(),
{
    if d.len() == 0 {
        d.lemma_len0_is_empty();
        assert(targets_in(g, d) =~= Set::empty());
    } else {
        let u = d.choose();
        lemma_targets_in_finite(g, d.remove(u));
        let own = if g.contains_key(u) { g[u].to_set() } else { Set::empty() };
        if g.contains_key(u) {
            vstd::seq_lib::seq_to_set_is_finite(g[u]);
        }
        assert(targets_in(g, d) =~= targets_in(g, d.remove(u)).union(own)) by {
            assert forall|v: usize| targets_in(g, d).contains(v) implies targets_in(
                g,
                d.remove(u),
            ).union(own).contains(v) by {
                let w = choose|w: usize| d.contains(w) && has_edge(g, w, v);
                if w != u {
                    assert(d.remove(u).contains(w));
                }
            }
        }
    }
}

/// The levels that breadth-first search gives the qubits it has reached,
/// and the tree of parents that leads back to `start`.
spec fn bfs_tree(
    g: Map<usize, Seq<usize>>,
    start: usize,
    visited: Set<usize>,
    parent: Map<usize, usize>,
    level: Map<usize, nat>,
) -> bool {
    &&& visited == level.dom()
    &&& visited.contains(start)
    &&& level[start] == 0
    &&& parent.dom() == visited.remove(start)
    &&& forall|v: usize| #[trigger]
        parent.contains_key(v) ==> visited.contains(parent[v]) && level[v] == level[parent[v]] + 1
            && has_edge(g, parent[v], v)
}

/// Every neighbour of an expanded qubit `u` has been reached, one level
/// deeper than `u` at most.
spec fn expanded(g: Map<usize, Seq<usize>>, visited: Set<usize>, level: Map<usize, nat>, u: usize) -> bool {
    g.contains_key(u) ==> forall|k: int|
        0 <= k < g[u].len() ==> visited.contains(#[trigger] g[u][k]) && level[g[u][k]] <= level[u]
            + 1
}

/// The queue holds reached, unexpanded qubits in order of level, all at
/// level `lo` or `lo + 1`; the expanded qubits lie at level `lo` or below.
spec fn bfs_frontier(
    g: Map<usize, Seq<usize>>,
    visited: Set<usize>,
    queue: Seq<usize>,
    level: Map<usize, nat>,
    done: Set<usize>,
    lo: nat,
) -> bool {
    &&& done.subset_of(visited)
    &&& forall|i: int| 0 <= i < queue.len() ==> visited.contains(#[trigger] queue[i]) && !done.contains(queue[i])
    &&& forall|i: int, j: int| 0 <= i <= j < queue.len() ==> level[#[trigger] queue[i]] <= level[#[trigger] queue[j]]
    &&& forall|i: int| 0 <= i < queue.len() ==> lo <= level[#[trigger] queue[i]] <= lo + 1
    &&& forall|i: int, j: int| 0 <= i < j < queue.len() ==> #[trigger] queue[i] != #[trigger] queue[j]
    &&& forall|u: usize| #[trigger] done.contains(u) ==> level[u] <= lo && expanded(g, visited, level, u)
}

proof fn lemma_prefix_levels(
    g: Map<usize, Seq<usize>>,
    start: usize,
    visited: Set<usize>,
    level: Map<usize, nat>,
    done: Set<usize>,
    q: Seq<usize>,
    e: usize,
    i: int,
)
    requires
        visited.contains(start),
        level[start] == 0,
        forall|u: usize| #[trigger] done.contains(u) ==> expanded(g, visited, level, u),
        is_route(g, q, start, e),
        0 <= i < q.len(),
        forall|k: int| 0 <= k < i ==> done.contains(#[trigger] q[k]),
    ensures
        visited.contains(q[i]),
        level[q[i]] <= i,
    decreases i,
{
    if i > 0 {
        lemma_prefix_levels(g, start, visited, level, done, q, e, i - 1);
        let u = q[i - 1];
        assert(done.contains(u));
        assert(has_edge(g, q[i - 1], q[i]));
        let k = choose|k: int| 0 <= k < g[u].len() && g[u][k] == q[i];
        assert(expanded(g, visited, level, u));
    }
}

proof fn lemma_first_unexpanded(
    g: Map<usize, Seq<usize>>,
    start: usize,
    end: usize,
    visited: Set<usize>,
    queue: Seq<usize>,
    level: Map<usize, nat>,
    done: Set<usize>,
    q: Seq<usize>,
    i: int,
)
    requires
        visited.contains(start),
        level[start] == 0,
        forall|u: usize| #[trigger] done.contains(u) ==> expanded(g, visited, level, u),
        is_route(g, q, start, end),
        0 <= i < q.len(),
        forall|k: int| 0 <= k < i ==> done.contains(#[trigger] q[k]),
        !done.contains(end),
        forall|v: usize| #[trigger] visited.contains(v) ==> done.contains(v) || queue.contains(v) || v == end,
        forall|k: int| 0 <= k < queue.len() ==> level[end] <= level[#[trigger] queue[k]],
    ensures
        level[end] + 1 <= q.len(),
    decreases q.len() - i,
{
    if done.contains(q[i]) {
        lemma_first_unexpanded(g, start, end, visited, queue, level, done, q, i + 1);
    } else {
        lemma_prefix_levels(g, start, visited, level, done, q, end, i);
        if q[i] != end {
            let k = choose|k: int| 0 <= k < queue.len() && queue[k] == q[i];
            assert(level[end] <= level[queue[k]]);
        }
    }
}

proof fn lemma_closed_set_holds_route(
    g: Map<usize, Seq<usize>>,
    start: usize,
    visited: Set<usize>,
    level: Map<usize, nat>,
    q: Seq<usize>,
    e: usize,
    i: int,
)
    requires
        visited.contains(start),
        forall|u: usize| #[trigger] visited.contains(u) ==> expanded(g, visited, level, u),
        is_route(g, q, start, e),
        0 <= i < q.len(),
    ensures
        visited.contains(q[i]),
    decreases i,
{
    if i > 0 {
        lemma_closed_set_holds_route(g, start, visited, level, q, e, i - 1);
        let u = q[i - 1];
        assert(has_edge(g, q[i - 1], q[i]));
        let k = choose|k: int| 0 <= k < g[u].len() && g[u][k] == q[i];
        assert(expanded(g, visited, level, u));
    }
}

impl HardwareCouplingMap {
    /// The neighbour lists of this wiring.
    pub open spec fn adjacency(&self) -> Map<usize, Seq<usize>> {
        adjacency_of(self.connections@)
    }

    /// The wiring of a `rows` by `cols` grid of qubits numbered row by row.
    pub fn new_grid(rows: usize, cols: usize) -> (g: Self)
        requires
            rows * cols <= usize::MAX + 1,
        ensures
            g.adjacency() == grid_adjacency(rows as nat, cols as nat),
    {
        let mut connections: HashMap<usize, Vec<usize>> = HashMap::new();
        let mut r: usize = 0;
        while r < rows
            invariant
                rows * cols <= usize::MAX + 1,
                r <= rows,
                forall|k: usize|
                    #[trigger] connections@.contains_key(k) <==> k < r * cols,
                forall|k: usize|
                    k < r * cols ==> #[trigger] connections@[k]@ == grid_neighbors(
                        rows as nat,
                        cols as nat,
                        k as nat / cols as nat,
                        k as nat % cols as nat,
                    ),
            decreases rows - r,
        {
            let mut c: usize = 0;
            assert(r * cols + cols <= rows * cols) by (nonlinear_arith)
                requires
                    r < rows,
            ;
            while c < cols
                invariant
                    rows * cols <= usize::MAX + 1,
                    r < rows,
                    c <= cols,
                    r * cols + cols <= rows * cols,
                    forall|k: usize|
                        #[trigger] connections@.contains_key(k) <==> k < r * cols + c,
                    forall|k: usize|
                        k < r * cols + c ==> #[trigger] connections@[k]@ == grid_neighbors(
                            rows as nat,
                            cols as nat,
                            k as nat / cols as nat,
                            k as nat % cols as nat,
                        ),
                decreases cols - c,
            {
                proof {
                    lemma_row_major_bound(rows as nat, cols as nat, r as nat, c as nat);
                    lemma_row_major(cols as nat, r as nat, c as nat);
                }
                let id = r * cols + c;
                let mut neighbors: Vec<usize> = Vec::new();
                if r > 0 {
                    proof {
                        lemma_row_major_bound(rows as nat, cols as nat, (r - 1) as nat, c as nat);
                    }
                    neighbors.push((r - 1) * cols + c);
                }
                if r + 1 < rows {
                    proof {
                        lemma_row_major_bound(rows as nat, cols as nat, (r + 1) as nat, c as nat);
                    }
                    neighbors.push((r + 1) * cols + c);
                }
                if c > 0 {
                    neighbors.push(r * cols + (c - 1));
                }
                if c + 1 < cols {
                    neighbors.push(r * cols + (c + 1));
                }
                assert(neighbors@ =~= grid_neighbors(rows as nat, cols as nat, r as nat, c as nat));
                connections.insert(id, neighbors);
                c = c + 1;
            }
            assert((r + 1) * cols == r * cols + cols) by (nonlinear_arith);
            r = r + 1;
        }
        let g = HardwareCouplingMap { connections };
        assert(g.adjacency() =~= grid_adjacency(rows as nat, cols as nat));
        g
    }
}

/// The state while the neighbours of `curr`, the qubit just taken from the
/// queue, are being scanned.
spec fn expanding(
    g: Map<usize, Seq<usize>>,
    start: usize,
    end: usize,
    visited: Set<usize>,
    parent: Map<usize, usize>,
    queue: Seq<usize>,
    level: Map<usize, nat>,
    done: Set<usize>,
    lo: nat,
    curr: usize,
) -> bool {
    &&& bfs_tree(g, start, visited, parent, level)
    &&& visited.contains(curr)
    &&& !done.contains(curr)
    &&& level[curr] == lo
    &&& curr != end
    &&& !done.contains(end)
    &&& bfs_frontier(g, visited, queue, level, done, lo)
    &&& forall|i: int| 0 <= i < queue.len() ==> #[trigger] queue[i] != curr
    &&& forall|v: usize| #[trigger] visited.contains(v) ==> done.contains(v) || queue.contains(v) || v == curr
}

/// Reaching a new neighbour `next` of `curr` keeps the scanning state.
proof fn lemma_discover(
    g: Map<usize, Seq<usize>>,
    start: usize,
    end: usize,
    visited: Set<usize>,
    parent: Map<usize, usize>,
    queue: Seq<usize>,
    level: Map<usize, nat>,
    done: Set<usize>,
    lo: nat,
    curr: usize,
    next: usize,
)
    requires
        expanding(g, start, end, visited, parent, queue, level, done, lo, curr),
        !visited.contains(next),
        has_edge(g, curr, next),
    ensures
        expanding(
            g,
            start,
            end,
            visited.insert(next),
            parent.insert(next, curr),
            queue.push(next),
            level.insert(next, lo + 1),
            done,
            lo,
            curr,
        ),
{
    let v2 = visited.insert(next);
    let p2 = parent.insert(next, curr);
    let q2 = queue.push(next);
    let l2 = level.insert(next, lo + 1);
    assert(v2 =~= l2.dom());
    assert(p2.dom() =~= v2.remove(start));
    assert forall|v: usize| #[trigger] p2.contains_key(v) implies v2.contains(p2[v]) && l2[v] == l2[p2[v]]
        + 1 && has_edge(g, p2[v], v) by {
        if v != next {
            assert(parent.contains_key(v));
        }
    }
    assert forall|u: usize| #[trigger] done.contains(u) implies l2[u] <= lo && expanded(g, v2, l2, u) by {
        assert(expanded(g, visited, level, u));
        if g.contains_key(u) {
            assert forall|kk: int| 0 <= kk < g[u].len() implies v2.contains(#[trigger] g[u][kk]) && l2[g[u][kk]]
                <= l2[u] + 1 by {
                assert(visited.contains(g[u][kk]));
            }
        }
    }
    assert forall|v: usize| #[trigger] v2.contains(v) implies done.contains(v) || q2.contains(v) || v == curr by {
        if v == next {
            assert(q2[q2.len() - 1] == next);
        } else if !done.contains(v) && v != curr {
            assert(queue.contains(v));
            let j = choose|j: int| 0 <= j < queue.len() && queue[j] == v;
            assert(q2[j] == v);
        }
    }
    assert forall|i: int| 0 <= i < q2.len() implies v2.contains(#[trigger] q2[i]) && !done.contains(q2[i]) by {
        if i < queue.len() {
            assert(q2[i] == queue[i]);
        }
    }
    assert forall|i: int, j: int| 0 <= i <= j < q2.len() implies l2[#[trigger] q2[i]] <= l2[#[trigger] q2[j]] by {
        if i < queue.len() {
            assert(q2[i] == queue[i]);
        }
        if j < queue.len() {
            assert(q2[j] == queue[j]);
        }
    }
    assert forall|i: int| 0 <= i < q2.len() implies lo <= l2[#[trigger] q2[i]] <= lo + 1 by {
        if i < queue.len() {
            assert(q2[i] == queue[i]);
        }
    }
    assert forall|i: int, j: int| 0 <= i < j < q2.len() implies #[trigger] q2[i] != #[trigger] q2[j] by {
        assert(q2[i] == queue[i]);
        if j < queue.len() {
            assert(q2[j] == queue[j]);
        } else {
            assert(visited.contains(queue[i]));
        }
    }
    assert forall|i: int| 0 <= i < q2.len() implies #[trigger] q2[i] != curr by {
        if i < queue.len() {
            assert(q2[i] == queue[i]);
        }
    }
}

/// Taking the front of the queue starts the scan of its neighbours.
proof fn lemma_take_front(
    g: Map<usize, Seq<usize>>,
    start: usize,
    end: usize,
    visited: Set<usize>,
    parent: Map<usize, usize>,
    queue: Seq<usize>,
    level: Map<usize, nat>,
    done: Set<usize>,
    lo: nat,
)
    requires
        bfs_tree(g, start, visited, parent, level),
        bfs_frontier(g, visited, queue, level, done, lo),
        forall|v: usize| #[trigger] visited.contains(v) ==> done.contains(v) || queue.contains(v),
        queue.len() > 0,
        !done.contains(end),
    ensures
        queue[0] != end ==> expanding(
            g,
            start,
            end,
            visited,
            parent,
            queue.subrange(1, queue.len() as int),
            level,
            done,
            level[queue[0]],
            queue[0],
        ),
        queue[0] == end ==> forall|q: Seq<usize>|
            is_route(g, q, start, end) ==> level[end] + 1 <= q.len(),
{
    let curr = queue[0];
    let rest = queue.subrange(1, queue.len() as int);
    let l = level[curr];
    assert forall|j: int| 0 <= j < rest.len() implies l <= level[#[trigger] rest[j]] && level[rest[j]] <= l + 1 by {
        assert(rest[j] == queue[j + 1]);
        assert(level[queue[0]] <= level[queue[j + 1]]);
    }
    assert forall|v: usize| #[trigger] visited.contains(v) implies done.contains(v) || rest.contains(v) || v == curr by {
        if !done.contains(v) {
            assert(queue.contains(v));
            let j = choose|j: int| 0 <= j < queue.len() && queue[j] == v;
            if j > 0 {
                assert(rest[j - 1] == v);
            }
        }
    }
    assert forall|i: int| 0 <= i < rest.len() implies visited.contains(#[trigger] rest[i]) && !done.contains(rest[i]) by {
        assert(rest[i] == queue[i + 1]);
    }
    assert forall|i: int, j: int| 0 <= i <= j < rest.len() implies level[#[trigger] rest[i]] <= level[#[trigger] rest[j]] by {
        assert(rest[i] == queue[i + 1]);
        assert(rest[j] == queue[j + 1]);
    }
    assert forall|i: int, j: int| 0 <= i < j < rest.len() implies #[trigger] rest[i] != #[trigger] rest[j] by {
        assert(rest[i] == queue[i + 1]);
        assert(rest[j] == queue[j + 1]);
    }
    assert forall|i: int| 0 <= i < rest.len() implies #[trigger] rest[i] != curr by {
        assert(rest[i] == queue[i + 1]);
        assert(queue[0] != queue[i + 1]);
    }
    if curr == end {
        assert forall|q: Seq<usize>| is_route(g, q, start, end) implies level[end] + 1 <= q.len() by {
            lemma_first_unexpanded(g, start, end, visited, rest, level, done, q, 0);
        }
    }
}

/// Once every neighbour of `curr` is reached, `curr` counts as expanded.
proof fn lemma_finish_scan(
    g: Map<usize, Seq<usize>>,
    start: usize,
    end: usize,
    visited: Set<usize>,
    parent: Map<usize, usize>,
    queue: Seq<usize>,
    level: Map<usize, nat>,
    done: Set<usize>,
    lo: nat,
    curr: usize,
)
    requires
        expanding(g, start, end, visited, parent, queue, level, done, lo, curr),
        expanded(g, visited, level, curr),
    ensures
        bfs_frontier(g, visited, queue, level, done.insert(curr), lo),
        forall|v: usize| #[trigger] visited.contains(v) ==> done.insert(curr).contains(v) || queue.contains(v),
        !done.insert(curr).contains(end),
{
    let d2 = done.insert(curr);
    assert forall|i: int| 0 <= i < queue.len() implies visited.contains(#[trigger] queue[i]) && !d2.contains(queue[i]) by {
        assert(queue[i] != curr);
    }
}

/// The queue was empty: nothing outside the reached set can be reached.
proof fn lemma_exhausted(
    g: Map<usize, Seq<usize>>,
    start: usize,
    end: usize,
    visited: Set<usize>,
    parent: Map<usize, usize>,
    level: Map<usize, nat>,
    done: Set<usize>,
    lo: nat,
)
    requires
        bfs_tree(g, start, visited, parent, level),
        bfs_frontier(g, visited, Seq::empty(), level, done, lo),
        forall|v: usize| #[trigger] visited.contains(v) ==> done.contains(v) || Seq::<usize>::empty().contains(v),
        !done.contains(end),
    ensures
        !visited.contains(end),
        !reachable(g, start, end),
{
    assert forall|u: usize| #[trigger] visited.contains(u) implies expanded(g, visited, level, u) by {
        assert(done.contains(u) || Seq::<usize>::empty().contains(u));
    }
    if reachable(g, start, end) {
        let q = choose|q: Seq<usize>| is_route(g, q, start, end);
        lemma_closed_set_holds_route(g, start, visited, level, q, end, q.len() - 1);
        assert(done.contains(end) || Seq::<usize>::empty().contains(end));
    }
    if visited.contains(end) {
        assert(done.contains(end) || Seq::<usize>::empty().contains(end));
    }
}

/// Everything reached lies in `universe`.
proof fn lemma_reached_in_universe(
    g: Map<usize, Seq<usize>>,
    start: usize,
    visited: Set<usize>,
    parent: Map<usize, usize>,
    level: Map<usize, nat>,
    universe: Set<usize>,
)
    requires
        bfs_tree(g, start, visited, parent, level),
        universe == targets_in(g, g.dom()).insert(start),
    ensures
        visited.subset_of(universe),
{
    assert forall|v: usize| visited.contains(v) implies universe.contains(v) by {
        if v != start {
            assert(parent.contains_key(v));
            let u = parent[v];
            assert(has_edge(g, u, v));
        }
    }
}

/// `w` leads back from `e` to `s`, each step from a qubit to one that lists it
/// as a neighbour.
spec fn is_back_route(g: Map<usize, Seq<usize>>, w: Seq<usize>, e: usize, s: usize) -> bool {
    &&& w.len() >= 1
    &&& w[0] == e
    &&& w.last() == s
    &&& forall|i: int| 0 <= i < w.len() - 1 ==> has_edge(g, w[i + 1], #[trigger] w[i])
}

/// Where breadth-first search stands: the qubits still to expand, in
/// order, those reached so far, the qubit each reached one was reached
/// from, and whether the search stopped at its goal.
pub struct BfsState {
    pub queue: Seq<usize>,
    pub visited: Set<usize>,
    pub parent: Map<usize, usize>,
    pub stopped: bool,
}

/// The search before its first step: only `start` reached and queued.
pub open spec fn bfs_start(start: usize) -> BfsState {
    BfsState { queue: seq![start], visited: set![start], parent: Map::empty(), stopped: false }
}

/// `st` after scanning the first `k` neighbours `nbrs` of `curr`: each one
/// not yet reached is reached from `curr` and queued.
pub open spec fn bfs_visit(st: BfsState, curr: usize, nbrs: Seq<usize>, k: nat) -> BfsState
    decreases k,
{
    if k == 0 {
        st
    } else {
        let prev = bfs_visit(st, curr, nbrs, (k - 1) as nat);
        let next = nbrs[k - 1];
        if prev.visited.contains(next) {
            prev
        } else {
            BfsState {
                queue: prev.queue.push(next),
                visited: prev.visited.insert(next),
                parent: prev.parent.insert(next, curr),
                stopped: false,
            }
        }
    }
}

/// One step of the search for `end`: take the first queued qubit; stop if
/// it is `end`, else scan its neighbours in the order `g` lists them.  A
/// stopped search, or one with nothing queued, stays as it is.
#[verifier::opaque]
pub open spec fn bfs_step(g: Map<usize, Seq<usize>>, end: usize, st: BfsState) -> BfsState {
    if st.stopped || st.queue.len() == 0 {
        st
    } else {
        let curr = st.queue[0];
        let rest = BfsState { queue: st.queue.drop_first(), visited: st.visited, parent: st.parent, stopped: false };
        if curr == end {
            BfsState { queue: rest.queue, visited: rest.visited, parent: rest.parent, stopped: true }
        } else if g.contains_key(curr) {
            bfs_visit(rest, curr, g[curr], g[curr].len())
        } else {
            rest
        }
    }
}

/// The search from `start` for `end` after `n` steps.
pub open spec fn bfs_steps(g: Map<usize, Seq<usize>>, start: usize, end: usize, n: nat) -> BfsState
    decreases n,
{
    if n == 0 {
        bfs_start(start)
    } else {
        bfs_step(g, end, bfs_steps(g, start, end, (n - 1) as nat))
    }
}

/// The search run to its end: one step more than there are qubits it can
/// ever reach is always enough.
pub open spec fn bfs_search(g: Map<usize, Seq<usize>>, start: usize, end: usize) -> BfsState {
    bfs_steps(g, start, end, targets_in(g, g.dom()).insert(start).len() + 1)
}

/// Whether `w` follows the parent links from `v` until a qubit without a
/// parent.
pub open spec fn is_parent_chain(parent: Map<usize, usize>, v: usize, w: Seq<usize>) -> bool {
    &&& w.len() >= 1
    &&& w[0] == v
    &&& !parent.contains_key(w.last())
    &&& forall|i: int| 0 <= i < w.len() - 1 ==> #[trigger] parent.contains_key(w[i]) && w[i + 1] == parent[w[i]]
}

/// The route that breadth-first search answers from `start` to `end`: the
/// parent links followed back from `end`, with `start` put last, reversed;
/// `[start]` when `end` is `start`.
pub open spec fn bfs_route(g: Map<usize, Seq<usize>>, start: usize, end: usize) -> Seq<usize> {
    if start == end {
        seq![start]
    } else {
        let w = choose|w: Seq<usize>| is_parent_chain(bfs_search(g, start, end).parent, end, w);
        w.drop_last().push(start).reverse()
    }
}

proof fn lemma_parent_chain_unique(parent: Map<usize, usize>, v: usize, a: Seq<usize>, b: Seq<usize>)
    requires
        is_parent_chain(parent, v, a),
        is_parent_chain(parent, v, b),
    ensures
        a == b,
    decreases a.len(),
{
    if parent.contains_key(v) {
        if a.len() == 1 || b.len() == 1 {
            assert(false);
        }
        assert(parent.contains_key(a[0]) && a[1] == parent[a[0]]);
        assert(parent.contains_key(b[0]) && b[1] == parent[b[0]]);
        let a1 = a.drop_first();
        let b1 = b.drop_first();
        assert forall|i: int| 0 <= i < a1.len() - 1 implies #[trigger] parent.contains_key(a1[i]) && a1[i + 1]
            == parent[a1[i]] by {
            let j = i + 1;
            assert(parent.contains_key(a[j]) && a[j + 1] == parent[a[j]]);
            assert(a1[i] == a[j] && a1[i + 1] == a[j + 1]);
        }
        assert forall|i: int| 0 <= i < b1.len() - 1 implies #[trigger] parent.contains_key(b1[i]) && b1[i + 1]
            == parent[b1[i]] by {
            let j = i + 1;
            assert(parent.contains_key(b[j]) && b[j + 1] == parent[b[j]]);
            assert(b1[i] == b[j] && b1[i + 1] == b[j + 1]);
        }
        lemma_parent_chain_unique(parent, a[1], a1, b1);
        assert(a =~= seq![v] + a1);
        assert(b =~= seq![v] + b1);
    } else {
        if a.len() > 1 {
            assert(parent.contains_key(a[0]));
        }
        if b.len() > 1 {
            assert(parent.contains_key(b[0]));
        }
        assert(a =~= seq![v]);
        assert(b =~= seq![v]);
    }
}

proof fn lemma_step_idle(g: Map<usize, Seq<usize>>, end: usize, st: BfsState)
    requires
        st.stopped || st.queue.len() == 0,
    ensures
        bfs_step(g, end, st) == st,
{
    reveal(bfs_step);
}

proof fn lemma_step_goal(g: Map<usize, Seq<usize>>, end: usize, st: BfsState)
    requires
        !st.stopped,
        st.queue.len() > 0,
        st.queue[0] == end,
    ensures
        bfs_step(g, end, st) == (BfsState {
            queue: st.queue.drop_first(),
            visited: st.visited,
            parent: st.parent,
            stopped: true,
        }),
{
    reveal(bfs_step);
}

proof fn lemma_step_expand(g: Map<usize, Seq<usize>>, end: usize, st: BfsState)
    requires
        !st.stopped,
        st.queue.len() > 0,
        st.queue[0] != end,
    ensures
        ({
            let curr = st.queue[0];
            let rest = BfsState { queue: st.queue.drop_first(), visited: st.visited, parent: st.parent, stopped: false };
            bfs_step(g, end, st) == if g.contains_key(curr) {
                bfs_visit(rest, curr, g[curr], g[curr].len())
            } else {
                rest
            }
        }),
{
    reveal(bfs_step);
}

proof fn lemma_steps_settle(g: Map<usize, Seq<usize>>, start: usize, end: usize, k: nat, n: nat)
    requires
        k <= n,
        bfs_step(g, end, bfs_steps(g, start, end, k)) == bfs_steps(g, start, end, k),
    ensures
        bfs_steps(g, start, end, n) == bfs_steps(g, start, end, k),
    decreases n,
{
    if n > k {
        lemma_steps_settle(g, start, end, k, (n - 1) as nat);
    }
}

impl HardwareCouplingMap {
    /// A shortest route between two qubits, found by breadth-first search
    /// that scans each qubit's neighbours in the order they are listed:
    /// `[start]` where `end` is `start` or cannot be reached from it.
    pub fn shortest_path(&self, start: usize, end: usize) -> (path: Vec<usize>)
        ensures
            is_path_answer(self.adjacency(), path@, start, end),
            path@ == bfs_route(self.adjacency(), start, end),
    {
        let ghost g = self.adjacency();
        if start == end {
            let mut one: Vec<usize> = Vec::new();
            one.push(start);
            assert(is_route(g, one@, start, end));
            assert(forall|q: Seq<usize>| is_route(g, q, start, end) ==> one@.len() <= q.len());
            assert(one@ =~= seq![start]);
            return one;
        }
        let mut visited: HashSet<usize> = HashSet::new();
        let mut queue: VecDeque<usize> = VecDeque::new();
        let mut parent: HashMap<usize, usize> = HashMap::new();
        queue.push_back(start);
        visited.insert(start);
        let ghost mut level: Map<usize, nat> = Map::empty().insert(start, 0nat);
        let ghost mut done: Set<usize> = Set::empty();
        let ghost mut lo: nat = 0;
        let ghost universe = targets_in(g, g.dom()).insert(start);
        proof {
            assert(self.connections@.dom().finite());
            assert(g.dom() =~= self.connections@.dom());
            lemma_targets_in_finite(g, g.dom());
            assert(visited@ =~= level.dom());
            assert(parent@.dom() =~= visited@.remove(start));
            assert(queue@[0] == start);
            assert(queue@ =~= seq![start]);
            assert(visited@ =~= set![start]);
            assert(parent@ =~= Map::<usize, usize>::empty());
        }
        let mut found = false;
        let ghost mut steps: nat = 0;
        loop
            invariant_except_break
                bfs_frontier(g, visited@, queue@, level, done, lo),
                forall|v: usize| #[trigger] visited@.contains(v) ==> done.contains(v) || queue@.contains(v),
                !found,
                steps == done.len(),
            invariant
                g == self.adjacency(),
                bfs_steps(g, start, end, steps) == (BfsState {
                    queue: queue@,
                    visited: visited@,
                    parent: parent@,
                    stopped: found,
                }),
                steps <= done.len() + 1,
                done.len() <= universe.len(),
                start != end,
                universe == targets_in(g, g.dom()).insert(start),
                universe.finite(),
                bfs_tree(g, start, visited@, parent@, level),
                done.subset_of(visited@),
                done.finite(),
                !done.contains(end),
            ensures
                found ==> visited@.contains(end) && forall|q: Seq<usize>|
                    is_route(g, q, start, end) ==> level[end] + 1 <= q.len(),
                !found ==> !visited@.contains(end) && !reachable(g, start, end),
                bfs_step(g, end, BfsState { queue: queue@, visited: visited@, parent: parent@, stopped: found })
                    == (BfsState { queue: queue@, visited: visited@, parent: parent@, stopped: found }),
                steps <= universe.len() + 1,
            decreases universe.len() - done.len(),
        {
            proof {
                lemma_reached_in_universe(g, start, visited@, parent@, level, universe);
                vstd::set_lib::lemma_len_subset(done, universe);
            }
            let ghost old_queue = queue@;
            let ghost st0 = BfsState { queue: queue@, visited: visited@, parent: parent@, stopped: false };
            let popped = queue.pop_front();
            if popped.is_none() {
                proof {
                    assert(queue@ =~= Seq::<usize>::empty());
                    assert(old_queue =~= Seq::<usize>::empty());
                    lemma_step_idle(g, end, st0);
                    steps = steps + 1;
                    lemma_exhausted(g, start, end, visited@, parent@, level, done, lo);
                }
                break;
            }
            let curr = popped.unwrap();
            proof {
                lemma_take_front(g, start, end, visited@, parent@, old_queue, level, done, lo);
                assert(queue@ =~= old_queue.subrange(1, old_queue.len() as int));
                assert(queue@ =~= old_queue.drop_first());
                assert(old_queue[0] == curr);
                lo = level[curr];
            }
            let ghost st_rest = BfsState { queue: queue@, visited: visited@, parent: parent@, stopped: false };
            if curr == end {
                found = true;
                proof {
                    lemma_step_goal(g, end, st0);
                    lemma_step_idle(g, end, BfsState { queue: queue@, visited: visited@, parent: parent@, stopped: true });
                    steps = steps + 1;
                }
                break;
            }
            let nb = self.connections.get(&curr);
            match nb {
                Some(neighbors) => {
                    let n = neighbors.len();
                    let mut k: usize = 0;
                    while k < n
                        invariant
                            n == neighbors@.len(),
                            g.contains_key(curr),
                            g[curr] == neighbors@,
                            k <= n,
                            expanding(g, start, end, visited@, parent@, queue@, level, done, lo, curr),
                            forall|j: int| 0 <= j < k ==> visited@.contains(#[trigger] neighbors@[j])
                                && level[neighbors@[j]] <= lo + 1,
                            bfs_visit(st_rest, curr, neighbors@, k as nat) == (BfsState {
                                queue: queue@,
                                visited: visited@,
                                parent: parent@,
                                stopped: false,
                            }),
                        decreases n - k,
                    {
                        let next = neighbors[k];
                        proof {
                            assert(neighbors@[k as int] == next);
                        }
                        if !visited.contains(&next) {
                            proof {
                                assert(g[curr][k as int] == next);
                                lemma_discover(g, start, end, visited@, parent@, queue@, level, done, lo, curr, next);
                            }
                            visited.insert(next);
                            parent.insert(next, curr);
                            queue.push_back(next);
                            proof {
                                level = level.insert(next, lo + 1);
                            }
                        }
                        k = k + 1;
                    }
                    proof {
                        assert(expanded(g, visited@, level, curr));
                        lemma_step_expand(g, end, st0);
                    }
                },
                None => {
                    proof {
                        assert(!g.contains_key(curr));
                        assert(expanded(g, visited@, level, curr));
                        lemma_step_expand(g, end, st0);
                    }
                },
            }
            proof {
                lemma_finish_scan(g, start, end, visited@, parent@, queue@, level, done, lo, curr);
                assert(!done.contains(curr));
                done = done.insert(curr);
                steps = steps + 1;
                lemma_reached_in_universe(g, start, visited@, parent@, level, universe);
                vstd::set_lib::lemma_len_subset(done, universe);
            }
        }
        proof {
            lemma_steps_settle(g, start, end, steps, universe.len() + 1);
            assert(bfs_search(g, start, end).parent == parent@);
        }
        let mut back: Vec<usize> = Vec::new();
        let mut curr = end;
        proof {
            if found {
                assert(is_back_route(g, back@.push(curr), end, curr));
            }
        }
        loop
            invariant
                bfs_tree(g, start, visited@, parent@, level),
                found ==> visited@.contains(end) && forall|q: Seq<usize>|
                    is_route(g, q, start, end) ==> level[end] + 1 <= q.len(),
                found ==> visited@.contains(curr) && is_back_route(g, back@.push(curr), end, curr)
                    && back@.len() + level[curr] == level[end],
                !found ==> curr == end && back@.len() == 0 && !visited@.contains(end)
                    && !reachable(g, start, end),
                back@.push(curr)[0] == end,
                forall|i: int| 0 <= i < back@.len() ==> #[trigger] parent@.contains_key(back@.push(curr)[i])
                    && back@.push(curr)[i + 1] == parent@[back@.push(curr)[i]],
            ensures
                !parent@.contains_key(curr),
            decreases level[curr],
        {
            match parent.get(&curr) {
                Some(p) => {
                    let pv = *p;
                    proof {
                        assert(parent@.contains_key(curr));
                        let w = back@.push(curr);
                        let w2 = back@.push(curr).push(pv);
                        assert(w2.len() - 1 == w.len());
                        assert forall|i: int| 0 <= i < w2.len() - 1 implies has_edge(g, w2[i + 1], #[trigger] w2[i]) by {
                            if i < w.len() - 1 {
                                assert(w2[i] == w[i]);
                                assert(w2[i + 1] == w[i + 1]);
                            }
                        }
                        assert(w2[0] == end) by {
                            if back@.len() > 0 {
                                assert(w2[0] == w[0]);
                            }
                        }
                        assert forall|i: int| 0 <= i < w.len() implies #[trigger] parent@.contains_key(w2[i])
                            && w2[i + 1] == parent@[w2[i]] by {
                            if i < back@.len() {
                                assert(w2[i] == w[i] && w2[i + 1] == w[i + 1]);
                            } else {
                                assert(w2[i] == curr && w2[i + 1] == pv);
                            }
                        }
                    }
                    back.push(curr);
                    curr = pv;
                },
                None => {
                    break;
                },
            }
        }
        let ghost chain = back@.push(curr);
        proof {
            if found {
                assert(curr == start);
            }
            assert forall|i: int| 0 <= i < chain.len() - 1 implies #[trigger] parent@.contains_key(chain[i])
                && chain[i + 1] == parent@[chain[i]] by {
                assert(parent@.contains_key(back@.push(curr)[i]));
            }
            assert(is_parent_chain(parent@, end, chain));
            let w = choose|w: Seq<usize>| is_parent_chain(bfs_search(g, start, end).parent, end, w);
            lemma_parent_chain_unique(parent@, end, w, chain);
            assert(chain.drop_last() =~= back@);
        }
        back.push(start);
        let m = back.len();
        let mut path: Vec<usize> = Vec::new();
        let mut i = m;
        while i > 0
            invariant
                m == back@.len(),
                i <= m,
                path@.len() == m - i,
                forall|j: int| 0 <= j < path@.len() ==> #[trigger] path@[j] == back@[m - 1 - j],
            decreases i,
        {
            i = i - 1;
            path.push(back[i]);
        }
        proof {
            if found {
                let w = back@;
                assert(is_back_route(g, w, end, start));
                assert(path@[0] == w[m - 1]);
                assert(path@[m - 1] == w[0]);
                assert forall|j: int| 0 <= j < path@.len() - 1 implies has_edge(g, #[trigger] path@[j], path@[j + 1]) by {
                    let k = m - 2 - j;
                    assert(path@[j] == w[k + 1]);
                    assert(path@[j + 1] == w[k]);
                }
                assert(is_route(g, path@, start, end));
            } else {
                assert(path@ =~= seq![start]);
            }
            assert(path@ =~= back@.reverse());
            assert(back@ == chain.drop_last().push(start));
        }
        path
    }
}

/// The three CNOTs that swap the states of qubits `a` and `b`.
pub open spec fn swap_gates(a: usize, b: usize) -> Seq<QuantumOp> {
    seq![
        QuantumOp::CNOT { control: a, target: b },
        QuantumOp::CNOT { control: b, target: a },
        QuantumOp::CNOT { control: a, target: b },
    ]
}

/// The swaps that move a state along the first `n` steps of route `p`.
pub open spec fn swap_chain(p: Seq<usize>, n: nat) -> Seq<QuantumOp>
    decreases n,
{
    if n == 0 {
        Seq::empty()
    } else {
        swap_chain(p, (n - 1) as nat) + swap_gates(p[n - 1], p[n as int])
    }
}

/// How a CNOT from `control` to `target` is carried out along route `p`:
/// unchanged when `p` has at most two qubits, else swapped along all but
/// the last step of `p` and applied across that last step.
pub open spec fn routed_cnot(control: usize, target: usize, p: Seq<usize>) -> Seq<QuantumOp> {
    if p.len() <= 2 {
        seq![QuantumOp::CNOT { control, target }]
    } else {
        swap_chain(p, (p.len() - 2) as nat) + seq![
            QuantumOp::CNOT { control: p[p.len() - 2], target: p[p.len() - 1] },
        ]
    }
}

/// The physical gates for one instruction, given the route chosen for it.
pub open spec fn expand_op(op: QuantumOp, p: Seq<usize>) -> Seq<QuantumOp> {
    match op {
        QuantumOp::CNOT { control, target } => routed_cnot(control, target, p),
        _ => seq![op],
    }
}

/// The physical program for `program` when its `i`-th instruction is routed
/// along `paths[i]`.
pub open spec fn transpiled(program: Seq<QuantumOp>, paths: Seq<Seq<usize>>) -> Seq<QuantumOp>
    decreases program.len(),
{
    if program.len() == 0 || paths.len() != program.len() {
        Seq::empty()
    } else {
        transpiled(program.drop_last(), paths.drop_last()) + expand_op(program.last(), paths.last())
    }
}

/// Whether each CNOT of `program` is given, in `paths`, the route that
/// `shortest_path` answers for its qubits.
pub open spec fn routes_for(
    g: Map<usize, Seq<usize>>,
    program: Seq<QuantumOp>,
    paths: Seq<Seq<usize>>,
) -> bool {
    &&& paths.len() == program.len()
    &&& forall|i: int|
        0 <= i < program.len() ==> match #[trigger] program[i] {
            QuantumOp::CNOT { control, target } => is_path_answer(g, paths[i], control, target),
            _ => true,
        }
}

/// The route that `shortest_path` gives a CNOT, and none for any other
/// instruction.
pub open spec fn route_of(g: Map<usize, Seq<usize>>, op: QuantumOp) -> Seq<usize> {
    match op {
        QuantumOp::CNOT { control, target } => bfs_route(g, control, target),
        _ => Seq::empty(),
    }
}

/// The routes of the instructions of `program`, one each.
pub open spec fn bfs_routes(g: Map<usize, Seq<usize>>, program: Seq<QuantumOp>) -> Seq<Seq<usize>> {
    program.map_values(|op: QuantumOp| route_of(g, op))
}

/// Rewriter of logical programs into programs the chip can run.
pub struct QuantumTranspiler;

impl QuantumTranspiler {
    /// Replaces each CNOT between qubits that are not wired together by a
    /// chain of swaps along the route `shortest_path` gives, followed by a
    /// CNOT across its last step; other instructions pass through unchanged.
    pub fn transpile(program: Vec<QuantumOp>, map: &HardwareCouplingMap) -> (out: Vec<QuantumOp>)
        ensures
            routes_for(map.adjacency(), program@, bfs_routes(map.adjacency(), program@)),
            out@ == transpiled(program@, bfs_routes(map.adjacency(), program@)),
    {
        let ghost g = map.adjacency();
        let mut physical_ops: Vec<QuantumOp> = Vec::new();
        let ghost mut paths: Seq<Seq<usize>> = Seq::empty();
        let n = program.len();
        let mut idx: usize = 0;
        while idx < n
            invariant
                n == program@.len(),
                idx <= n,
                g == map.adjacency(),
                routes_for(g, program@.take(idx as int), paths),
                paths == bfs_routes(g, program@.take(idx as int)),
                physical_ops@ == transpiled(program@.take(idx as int), paths),
            decreases n - idx,
        {
            let op = program[idx];
            let ghost before = physical_ops@;
            let ghost mut p: Seq<usize> = Seq::empty();
            match op {
                QuantumOp::CNOT { control, target } => {
                    let path = map.shortest_path(control, target);
                    proof {
                        p = path@;
                    }
                    if path.len() <= 2 {
                        physical_ops.push(QuantumOp::CNOT { control, target });
                    } else {
                        let m = path.len() - 2;
                        let mut i: usize = 0;
                        while i < m
                            invariant
                                m == path@.len() - 2,
                                i <= m,
                                physical_ops@ == before + swap_chain(path@, i as nat),
                            decreases m - i,
                        {
                            let q1 = path[i];
                            let q2 = path[i + 1];
                            physical_ops.push(QuantumOp::CNOT { control: q1, target: q2 });
                            physical_ops.push(QuantumOp::CNOT { control: q2, target: q1 });
                            physical_ops.push(QuantumOp::CNOT { control: q1, target: q2 });
                            proof {
                                assert(swap_chain(path@, (i + 1) as nat) == swap_chain(path@, i as nat)
                                    + swap_gates(path@[i as int], path@[i + 1]));
                                assert(physical_ops@ =~= before + swap_chain(path@, (i + 1) as nat));
                            }
                            i = i + 1;
                        }
                        let last_control = path[path.len() - 2];
                        let last_target = path[path.len() - 1];
                        physical_ops.push(QuantumOp::CNOT { control: last_control, target: last_target });
                    }
                    assert(physical_ops@ =~= before + expand_op(op, p));
                },
                _ => {
                    physical_ops.push(op);
                    assert(physical_ops@ =~= before + expand_op(op, p));
                },
            }
            proof {
                let pre = program@.take(idx as int);
                let post = program@.take(idx + 1);
                let paths2 = paths.push(p);
                assert(post.drop_last() =~= pre);
                assert(paths2.drop_last() =~= paths);
                assert(post.last() == op);
                assert forall|i: int| 0 <= i < post.len() implies match #[trigger] post[i] {
                    QuantumOp::CNOT { control, target } => is_path_answer(g, paths2[i], control, target),
                    _ => true,
                } by {
                    if i < idx {
                        assert(post[i] == pre[i]);
                        assert(paths2[i] == paths[i]);
                    }
                }
                assert(paths2 =~= bfs_routes(g, post));
                paths = paths2;
            }
            idx = idx + 1;
        }
        proof {
            assert(program@.take(n as int) =~= program@);
        }
        physical_ops
    }
}

/// Whether every connection of `g` is listed in both directions.
pub open spec fn is_symmetric(g: Map<usize, Seq<usize>>) -> bool {
    forall|u: usize, v: usize| #[trigger] has_edge(g, u, v) ==> has_edge(g, v, u)
}

/// Whether every CNOT of `ops` acts on two wired qubits.
pub open spec fn cnots_wired(g: Map<usize, Seq<usize>>, ops: Seq<QuantumOp>) -> bool {
    forall|k: int|
        0 <= k < ops.len() ==> match #[trigger] ops[k] {
            QuantumOp::CNOT { control, target } => has_edge(g, control, target),
            _ => true,
        }
}

/// Whether every CNOT of `program` joins two distinct qubits that are
/// connected on the chip.
pub open spec fn cnots_routable(g: Map<usize, Seq<usize>>, program: Seq<QuantumOp>) -> bool {
    forall|k: int|
        0 <= k < program.len() ==> match #[trigger] program[k] {
            QuantumOp::CNOT { control, target } => control != target && reachable(g, control, target),
            _ => true,
        }
}

proof fn lemma_swap_chain_wired(g: Map<usize, Seq<usize>>, p: Seq<usize>, s: usize, e: usize, n: nat)
    requires
        is_symmetric(g),
        is_route(g, p, s, e),
        n + 1 < p.len(),
    ensures
        cnots_wired(g, swap_chain(p, n)),
    decreases n,
{
    if n > 0 {
        lemma_swap_chain_wired(g, p, s, e, (n - 1) as nat);
        let prev = swap_chain(p, (n - 1) as nat);
        let sw = swap_gates(p[n - 1], p[n as int]);
        assert(has_edge(g, p[n - 1], p[n - 1 + 1]));
        assert(has_edge(g, p[n as int], p[n - 1]));
        assert forall|k: int| 0 <= k < prev.len() + sw.len() implies match #[trigger] (prev + sw)[k] {
            QuantumOp::CNOT { control, target } => has_edge(g, control, target),
            _ => true,
        } by {
            if k < prev.len() {
                assert((prev + sw)[k] == prev[k]);
            } else {
                assert((prev + sw)[k] == sw[k - prev.len()]);
            }
        }
    }
}

proof fn lemma_concat_wired(g: Map<usize, Seq<usize>>, a: Seq<QuantumOp>, b: Seq<QuantumOp>)
    requires
        cnots_wired(g, a),
        cnots_wired(g, b),
    ensures
        cnots_wired(g, a + b),
{
    assert forall|k: int| 0 <= k < (a + b).len() implies match #[trigger] (a + b)[k] {
        QuantumOp::CNOT { control, target } => has_edge(g, control, target),
        _ => true,
    } by {
        if k < a.len() {
            assert((a + b)[k] == a[k]);
        } else {
            assert((a + b)[k] == b[k - a.len()]);
        }
    }
}

/// On a chip whose wiring runs both ways, routing leaves no CNOT between
/// unwired qubits, provided every CNOT of the program joins two distinct
/// qubits that are connected at all.
pub proof fn transpiled_cnots_are_wired(
    g: Map<usize, Seq<usize>>,
    program: Seq<QuantumOp>,
    paths: Seq<Seq<usize>>,
)
    requires
        is_symmetric(g),
        cnots_routable(g, program),
        routes_for(g, program, paths),
    ensures
        cnots_wired(g, transpiled(program, paths)),
    decreases program.len(),
{
    if program.len() > 0 {
        let pre = program.drop_last();
        let pp = paths.drop_last();
        assert forall|k: int| 0 <= k < pre.len() implies match #[trigger] pre[k] {
            QuantumOp::CNOT { control, target } => control != target && reachable(g, control, target),
            _ => true,
        } by {
            assert(pre[k] == program[k]);
        }
        assert forall|k: int| 0 <= k < pre.len() implies match #[trigger] pre[k] {
            QuantumOp::CNOT { control, target } => is_path_answer(g, pp[k], control, target),
            _ => true,
        } by {
            assert(pre[k] == program[k]);
            assert(pp[k] == paths[k]);
        }
        transpiled_cnots_are_wired(g, pre, pp);
        let op = program.last();
        let p = paths.last();
        assert(program[program.len() - 1] == op);
        match op {
            QuantumOp::CNOT { control, target } => {
                assert(is_path_answer(g, p, control, target));
                assert(is_route(g, p, control, target));
                if p.len() <= 2 {
                    assert(p.len() == 2);
                    assert(has_edge(g, p[0], p[0int + 1]));
                } else {
                    let m = (p.len() - 2) as nat;
                    lemma_swap_chain_wired(g, p, control, target, m);
                    assert(has_edge(g, p[m as int], p[m as int + 1]));
                    lemma_concat_wired(
                        g,
                        swap_chain(p, m),
                        seq![QuantumOp::CNOT { control: p[p.len() - 2], target: p[p.len() - 1] }],
                    );
                }
            },
            _ => {},
        }
        lemma_concat_wired(g, transpiled(pre, pp), expand_op(op, p));
    }
}

proof fn lemma_grid_position(rows: nat, cols: nat, k: nat)
    requires
        k < rows * cols,
    ensures
        cols > 0,
        k / cols < rows,
        k % cols < cols,
        k == (k / cols) * cols + k % cols,
{
    if cols == 0 {
        assert(rows * cols == 0) by (nonlinear_arith)
            requires
                cols == 0,
        ;
    }
    vstd::arithmetic::div_mod::lemma_fundamental_div_mod(k as int, cols as int);
    let q = k / cols;
    let r = k % cols;
    assert(cols * q == q * cols) by (nonlinear_arith);
    assert(k == q * cols + r);
    if q >= rows {
        assert(q * cols >= rows * cols) by (nonlinear_arith)
            requires
                q >= rows,
        ;
    }
}

/// The neighbours of a grid qubit are exactly the qubits one row or one
/// column away from it.
proof fn lemma_grid_member(rows: nat, cols: nat, r: nat, c: nat, v: usize)
    requires
        r < rows,
        c < cols,
        rows * cols <= usize::MAX + 1,
    ensures
        grid_neighbors(rows, cols, r, c).contains(v) <==> ((r > 0 && v as int == (r - 1) * cols + c)
            || (r + 1 < rows && v as int == (r + 1) * cols + c) || (c > 0 && v as int == r * cols + c
            - 1) || (c + 1 < cols && v as int == r * cols + c + 1)),
{
    let up: Seq<usize> = if r > 0 { seq![((r - 1) * cols + c) as usize] } else { Seq::empty() };
    let down: Seq<usize> = if r + 1 < rows { seq![((r + 1) * cols + c) as usize] } else { Seq::empty() };
    let left: Seq<usize> = if c > 0 { seq![(r * cols + c - 1) as usize] } else { Seq::empty() };
    let right: Seq<usize> = if c + 1 < cols { seq![(r * cols + c + 1) as usize] } else { Seq::empty() };
    let nb = grid_neighbors(rows, cols, r, c);
    assert(nb =~= up + down + left + right);
    lemma_row_major_bound(rows, cols, r, c);
    if r > 0 {
        lemma_row_major_bound(rows, cols, (r - 1) as nat, c);
    }
    if r + 1 < rows {
        lemma_row_major_bound(rows, cols, (r + 1) as nat, c);
    }
    let a = up.len() as int;
    let b = a + down.len();
    let d = b + left.len();
    if nb.contains(v) {
        let k = choose|k: int| 0 <= k < nb.len() && nb[k] == v;
        if k < a {
            assert(nb[k] == up[k]);
        } else if k < b {
            assert(nb[k] == down[k - a]);
        } else if k < d {
            assert(nb[k] == left[k - b]);
        } else {
            assert(nb[k] == right[k - d]);
        }
    }
    if r > 0 && v as int == (r - 1) * cols + c {
        assert(nb[0] == v);
    }
    if r + 1 < rows && v as int == (r + 1) * cols + c {
        assert(nb[a] == v);
    }
    if c > 0 && v as int == r * cols + c - 1 {
        assert(nb[b] == v);
    }
    if c + 1 < cols && v as int == r * cols + c + 1 {
        assert(nb[d] == v);
    }
}

/// In a grid every connection runs both ways.
pub proof fn grid_links_are_symmetric(rows: nat, cols: nat)
    requires
        rows * cols <= usize::MAX + 1,
    ensures
        is_symmetric(grid_adjacency(rows, cols)),
{
    let g = grid_adjacency(rows, cols);
    assert forall|u: usize, v: usize| #[trigger] has_edge(g, u, v) implies has_edge(g, v, u) by {
        lemma_grid_position(rows, cols, u as nat);
        let r = u as nat / cols;
        let c = u as nat % cols;
        lemma_grid_member(rows, cols, r, c, v);
        if r > 0 && v as int == (r - 1) * cols + c {
            lemma_row_major(cols, (r - 1) as nat, c);
            lemma_row_major_bound(rows, cols, (r - 1) as nat, c);
            assert(r * cols == (r - 1) * cols + cols) by (nonlinear_arith)
                requires
                    r > 0,
            ;
            lemma_grid_member(rows, cols, (r - 1) as nat, c, u);
        } else if r + 1 < rows && v as int == (r + 1) * cols + c {
            lemma_row_major(cols, (r + 1) as nat, c);
            lemma_row_major_bound(rows, cols, (r + 1) as nat, c);
            lemma_grid_member(rows, cols, (r + 1) as nat, c, u);
        } else if c > 0 && v as int == r * cols + c - 1 {
            lemma_row_major(cols, r, (c - 1) as nat);
            lemma_row_major_bound(rows, cols, r, (c - 1) as nat);
            lemma_grid_member(rows, cols, r, (c - 1) as nat, u);
        } else {
            lemma_row_major(cols, r, (c + 1) as nat);
            lemma_row_major_bound(rows, cols, r, (c + 1) as nat);
            lemma_grid_member(rows, cols, r, (c + 1) as nat, u);
        }
    }
}

/// The number of steps between qubits `a` and `b` of a grid with `cols`
/// columns: the rows apart plus the columns apart.
pub open spec fn grid_distance(cols: nat, a: nat, b: nat) -> nat {
    let ra = a / cols;
    let ca = a % cols;
    let rb = b / cols;
    let cb = b % cols;
    ((if ra >= rb { ra - rb } else { rb - ra }) + (if ca >= cb { ca - cb } else { cb - ca })) as nat
}

/// A grid connection joins two qubits of the grid one row or one column
/// apart.
proof fn lemma_grid_edge(rows: nat, cols: nat, u: usize, v: usize, b: usize)
    requires
        rows * cols <= usize::MAX + 1,
        has_edge(grid_adjacency(rows, cols), u, v),
    ensures
        u < rows * cols,
        v < rows * cols,
        grid_distance(cols, u as nat, b as nat) <= grid_distance(cols, v as nat, b as nat) + 1,
{
    let g = grid_adjacency(rows, cols);
    assert(g.contains_key(u));
    lemma_grid_position(rows, cols, u as nat);
    let r = u as nat / cols;
    let c = u as nat % cols;
    assert(g[u] == grid_neighbors(rows, cols, r, c));
    lemma_grid_member(rows, cols, r, c, v);
    if r > 0 && v as int == (r - 1) * cols + c {
        lemma_row_major(cols, (r - 1) as nat, c);
        lemma_row_major_bound(rows, cols, (r - 1) as nat, c);
    } else if r + 1 < rows && v as int == (r + 1) * cols + c {
        lemma_row_major(cols, (r + 1) as nat, c);
        lemma_row_major_bound(rows, cols, (r + 1) as nat, c);
    } else if c > 0 && v as int == r * cols + c - 1 {
        lemma_row_major(cols, r, (c - 1) as nat);
        lemma_row_major_bound(rows, cols, r, (c - 1) as nat);
    } else {
        lemma_row_major(cols, r, (c + 1) as nat);
        lemma_row_major_bound(rows, cols, r, (c + 1) as nat);
    }
    lemma_one_step_apart(
        r as int,
        c as int,
        (v as nat / cols) as int,
        (v as nat % cols) as int,
        (b as nat / cols) as int,
        (b as nat % cols) as int,
    );
}

proof fn lemma_one_step_apart(ra: int, ca: int, rv: int, cv: int, rb: int, cb: int)
    requires
        (ra == rv && (ca == cv + 1 || cv == ca + 1)) || (ca == cv && (ra == rv + 1 || rv == ra + 1)),
    ensures
        (if ra >= rb { ra - rb } else { rb - ra }) + (if ca >= cb { ca - cb } else { cb - ca }) <= (if rv >= rb {
            rv - rb
        } else {
            rb - rv
        }) + (if cv >= cb { cv - cb } else { cb - cv }) + 1,
{
}

/// Every route between two grid qubits takes at least as many steps as
/// they are apart.
proof fn lemma_grid_route_long(rows: nat, cols: nat, q: Seq<usize>, a: usize, b: usize)
    requires
        rows * cols <= usize::MAX + 1,
        is_route(grid_adjacency(rows, cols), q, a, b),
    ensures
        q.len() >= grid_distance(cols, a as nat, b as nat) + 1,
    decreases q.len(),
{
    let g = grid_adjacency(rows, cols);
    if q.len() > 1 {
        assert(has_edge(g, q[0], q[0int + 1]));
        lemma_grid_edge(rows, cols, q[0], q[1], b);
        let u1 = q[1];
        assert(q[0] == a);
        let q1 = q.drop_first();
        assert forall|i: int| 0 <= i < q1.len() - 1 implies has_edge(g, #[trigger] q1[i], q1[i + 1]) by {
            assert(has_edge(g, q[i + 1], q[i + 1 + 1]));
        }
        assert(q1.last() == q.last());
        assert(q1[0] == u1);
        lemma_grid_route_long(rows, cols, q1, u1, b);
    } else {
        assert(q[0] == a && q.last() == b);
        assert(a == b);
    }
}

/// A route between two grid qubits that takes exactly as many steps as they
/// are apart: first along the column, then along the row.
proof fn lemma_grid_route_exists(rows: nat, cols: nat, a: usize, b: usize) -> (q: Seq<usize>)
    requires
        rows * cols <= usize::MAX + 1,
        a < rows * cols,
        b < rows * cols,
    ensures
        is_route(grid_adjacency(rows, cols), q, a, b),
        q.len() == grid_distance(cols, a as nat, b as nat) + 1,
    decreases grid_distance(cols, a as nat, b as nat),
{
    let g = grid_adjacency(rows, cols);
    lemma_grid_position(rows, cols, a as nat);
    lemma_grid_position(rows, cols, b as nat);
    let ra = a as nat / cols;
    let ca = a as nat % cols;
    let rb = b as nat / cols;
    let cb = b as nat % cols;
    if ra == rb && ca == cb {
        assert(a == b);
        let q = seq![a];
        q
    } else {
        let v: usize = if ra < rb {
            ((ra + 1) * cols + ca) as usize
        } else if ra > rb {
            ((ra - 1) * cols + ca) as usize
        } else if ca < cb {
            (ra * cols + ca + 1) as usize
        } else {
            (ra * cols + ca - 1) as usize
        };
        if ra < rb {
            lemma_row_major(cols, (ra + 1) as nat, ca);
            lemma_row_major_bound(rows, cols, (ra + 1) as nat, ca);
        } else if ra > rb {
            lemma_row_major(cols, (ra - 1) as nat, ca);
            lemma_row_major_bound(rows, cols, (ra - 1) as nat, ca);
        } else if ca < cb {
            lemma_row_major(cols, ra, (ca + 1) as nat);
            lemma_row_major_bound(rows, cols, ra, (ca + 1) as nat);
        } else {
            lemma_row_major(cols, ra, (ca - 1) as nat);
            lemma_row_major_bound(rows, cols, ra, (ca - 1) as nat);
        }
        lemma_grid_member(rows, cols, ra, ca, v);
        assert(g[a] == grid_neighbors(rows, cols, ra, ca));
        assert(has_edge(g, a, v));
        let rest = lemma_grid_route_exists(rows, cols, v, b);
        let q = seq![a] + rest;
        assert forall|i: int| 0 <= i < q.len() - 1 implies has_edge(g, #[trigger] q[i], q[i + 1]) by {
            if i == 0 {
                assert(q[0] == a && q[1] == rest[0]);
            } else {
                assert(q[i] == rest[i - 1] && q[i + 1] == rest[i - 1 + 1]);
                assert(has_edge(g, rest[i - 1], rest[i - 1 + 1]));
            }
        }
        assert(q.last() == rest.last());
        q
    }
}

/// On a grid, the answer of `shortest_path` between two of its qubits takes
/// exactly as many steps as they are rows apart plus columns apart: it has
/// that many qubits plus one.
pub proof fn grid_route_length(rows: nat, cols: nat, a: usize, b: usize, p: Seq<usize>)
    requires
        rows * cols <= usize::MAX + 1,
        a < rows * cols,
        b < rows * cols,
        is_path_answer(grid_adjacency(rows, cols), p, a, b),
    ensures
        p.len() == grid_distance(cols, a as nat, b as nat) + 1,
{
    let g = grid_adjacency(rows, cols);
    let q = lemma_grid_route_exists(rows, cols, a, b);
    assert(reachable(g, a, b));
    lemma_grid_route_long(rows, cols, p, a, b);
}

} // verus!
