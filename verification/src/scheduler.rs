//! Allocation of the machine's physical qubits to processes, and the frozen
//! context of a process.

use vstd::prelude::*;
use std::collections::HashMap;
use crate::text::{decimal, push_decimal};

verus! {

broadcast use vstd::std_specs::hash::group_hash_axioms;

/// A frozen process context: its id, how many qubits it held, and the
/// amplitudes that mattered, each as its basis-state index and the bit
/// patterns of its real and imaginary parts.
#[derive(Clone, Debug)]
pub struct QuantumContextFrame {
    pub pid: usize,
    pub num_qubits: usize,
    pub sparse_state: Vec<(usize, u64, u64)>,
}

/// A process and the physical qubits it holds.
pub struct QuantumProcess {
    pub pid: usize,
    pub allocated_qubits: Vec<usize>,
}

/// Bookkeeping of which physical qubits are free and which process holds
/// which.
pub struct QuantumScheduler {
    pub active_processes: HashMap<usize, QuantumProcess>,
    free_qubit_map: Vec<bool>,
}

/// The indices `i` with `m[i]` set, in increasing order.
pub open spec fn free_indices(m: Seq<bool>) -> Seq<usize>
    decreases m.len(),
{
    if m.len() == 0 {
        Seq::empty()
    } else if m.last() {
        free_indices(m.drop_last()).push((m.len() - 1) as usize)
    } else {
        free_indices(m.drop_last())
    }
}

/// The message of a failed allocation: `Not enough free quantum resources!`.
pub open spec fn not_enough_message() -> Seq<char> {
    seq!['N', 'o', 't', ' ', 'e', 'n', 'o', 'u', 'g', 'h', ' ', 'f', 'r', 'e', 'e', ' ', 'q', 'u', 'a', 'n', 't', 'u', 'm', ' ', 'r', 'e', 's', 'o', 'u', 'r', 'c', 'e', 's', '!']
}

/// The message for an unknown process: `Proces PID <pid> not found`.
pub open spec fn unknown_pid_message(pid: usize) -> Seq<char> {
    seq!['P', 'r', 'o', 'c', 'e', 's', ' ', 'P', 'I', 'D', ' '] + decimal(pid as nat) + seq![' ', 'n', 'o', 't', ' ', 'f', 'o', 'u', 'n', 'd']
}

proof fn lemma_free_indices_props(m: Seq<bool>)
    requires
        m.len() <= usize::MAX,
    ensures
        forall|k: int| 0 <= k < free_indices(m).len() ==> #[trigger] free_indices(m)[k] < m.len() && m[free_indices(m)[k] as int],
        forall|i: int| 0 <= i < m.len() && m[i] ==> free_indices(m).contains(i as usize),
        forall|a: int, b: int| 0 <= a < b < free_indices(m).len() ==> #[trigger] free_indices(m)[a] < #[trigger] free_indices(m)[b],
    decreases m.len(),
{
    if m.len() > 0 {
        let p = m.drop_last();
        lemma_free_indices_props(p);
        let f = free_indices(m);
        let fp = free_indices(p);
        assert forall|k: int| 0 <= k < f.len() implies #[trigger] f[k] < m.len() && m[f[k] as int] by {
            if k < fp.len() {
                assert(f[k] == fp[k]);
            }
        }
        assert forall|i: int| 0 <= i < m.len() && m[i] implies f.contains(i as usize) by {
            if i < p.len() {
                assert(p[i] == m[i]);
                let k = choose|k: int| 0 <= k < fp.len() && fp[k] == i as usize;
                assert(f[k] == fp[k]);
            } else {
                assert(f[f.len() - 1] == i as usize);
            }
        }
        assert forall|a: int, b: int| 0 <= a < b < f.len() implies #[trigger] f[a] < #[trigger] f[b] by {
            assert(f[a] == fp[a]);
            if b < fp.len() {
                assert(f[b] == fp[b]);
            }
        }
    }
}

/// The free indices of a prefix come first among the free indices.
proof fn lemma_free_indices_prefix(m: Seq<bool>, j: int)
    requires
        0 <= j <= m.len(),
    ensures
        free_indices(m.take(j)).len() <= free_indices(m).len(),
        free_indices(m).take(free_indices(m.take(j)).len() as int) == free_indices(m.take(j)),
    decreases m.len() - j,
{
    if j < m.len() {
        let p = m.drop_last();
        assert(p.take(j) =~= m.take(j));
        lemma_free_indices_prefix(p, j);
        let a = free_indices(m.take(j));
        assert(free_indices(m).take(a.len() as int) =~= free_indices(p).take(a.len() as int));
    } else {
        assert(m.take(j) =~= m);
    }
}

impl QuantumScheduler {
    /// The processes, by id.
    pub closed spec fn processes(&self) -> Map<usize, QuantumProcess> {
        self.active_processes@
    }

    /// The free/busy flag of each physical qubit.
    pub closed spec fn free_map(&self) -> Seq<bool> {
        self.free_qubit_map@
    }

    /// The scheduler's invariant: each process is filed under its own id,
    /// holds distinct qubits of the machine that are all marked busy, and no
    /// qubit is held by two processes.
    pub open spec fn wf(&self) -> bool {
        &&& forall|p: usize| #[trigger] self.processes().contains_key(p)
            ==> self.processes()[p].pid == p
        &&& forall|p: usize, k: int| #![trigger self.processes()[p].allocated_qubits@[k]]
            self.processes().contains_key(p) && 0 <= k < self.processes()[p].allocated_qubits@.len()
            ==> self.processes()[p].allocated_qubits@[k] < self.free_map().len()
            && !self.free_map()[self.processes()[p].allocated_qubits@[k] as int]
        &&& forall|p: usize, a: int, b: int| #![trigger self.processes()[p].allocated_qubits@[a], self.processes()[p].allocated_qubits@[b]]
            self.processes().contains_key(p) && 0 <= a < b < self.processes()[p].allocated_qubits@.len()
            ==> self.processes()[p].allocated_qubits@[a] != self.processes()[p].allocated_qubits@[b]
        &&& forall|p: usize, q: usize, a: int, b: int| #![trigger self.processes()[p].allocated_qubits@[a], self.processes()[q].allocated_qubits@[b]]
            self.processes().contains_key(p) && self.processes().contains_key(q) && p != q
            && 0 <= a < self.processes()[p].allocated_qubits@.len()
            && 0 <= b < self.processes()[q].allocated_qubits@.len()
            ==> self.processes()[p].allocated_qubits@[a] != self.processes()[q].allocated_qubits@[b]
    }

    /// A scheduler for `total_qubits` physical qubits, all free, and no
    /// process.
    pub fn new(total_qubits: usize) -> (s: Self)
        ensures
            s.wf(),
            s.processes() == Map::<usize, QuantumProcess>::empty(),
            s.free_map() == Seq::new(total_qubits as nat, |i: int| true),
    {
        let mut free_qubit_map: Vec<bool> = Vec::new();
        let mut i: usize = 0;
        while i < total_qubits
            invariant
                i <= total_qubits,
                free_qubit_map@ =~= Seq::new(i as nat, |k: int| true),
            decreases total_qubits - i,
        {
            free_qubit_map.push(true);
            i = i + 1;
        }
        QuantumScheduler { active_processes: HashMap::new(), free_qubit_map }
    }

    /// Whether physical qubit `q` is free.
    pub fn is_free(&self, q: usize) -> (b: bool)
        requires
            q < self.free_map().len(),
        ensures
            b == self.free_map()[q as int],
    {
        self.free_qubit_map[q]
    }

    /// The number of physical qubits.
    pub fn total_qubits(&self) -> (n: usize)
        ensures
            n == self.free_map().len(),
    {
        self.free_qubit_map.len()
    }
}

/// The free map after a request took the qubits `taken`.
pub open spec fn after_taking(m: Seq<bool>, taken: Seq<usize>) -> Seq<bool> {
    Seq::new(m.len(), |i: int| m[i] && !taken.contains(i as usize))
}

impl QuantumScheduler {
    proof fn lemma_allocate_keeps_wf(
        old_s: &Self,
        new_s: &Self,
        pid: usize,
        taken: Seq<usize>,
        inserted: bool,
    )
        requires
            old_s.wf(),
            old_s.free_map().len() <= usize::MAX,
            new_s.free_map() == after_taking(old_s.free_map(), taken),
            forall|k: int| 0 <= k < taken.len() ==> #[trigger] taken[k] < old_s.free_map().len()
                && old_s.free_map()[taken[k] as int],
            forall|a: int, b: int| 0 <= a < b < taken.len() ==> #[trigger] taken[a] != #[trigger] taken[b],
            inserted ==> new_s.processes().dom() == old_s.processes().dom().insert(pid)
                && new_s.processes()[pid].pid == pid
                && new_s.processes()[pid].allocated_qubits@ == taken
                && forall|p: usize| p != pid && #[trigger] old_s.processes().contains_key(p)
                    ==> new_s.processes()[p] == old_s.processes()[p],
            !inserted ==> new_s.processes() == old_s.processes(),
        ensures
            new_s.wf(),
    {
        let m = old_s.free_map();
        let op = old_s.processes();
        let np = new_s.processes();
        assert forall|p: usize| #[trigger] np.contains_key(p) implies np[p].pid == p by {
            if p != pid || !inserted {
                assert(op.contains_key(p));
            }
        }
        assert forall|p: usize, k: int| #![trigger np[p].allocated_qubits@[k]]
            np.contains_key(p) && 0 <= k < np[p].allocated_qubits@.len()
            implies np[p].allocated_qubits@[k] < new_s.free_map().len()
            && !new_s.free_map()[np[p].allocated_qubits@[k] as int] by {
            if inserted && p == pid {
                assert(taken.contains(taken[k]));
            } else {
                assert(op.contains_key(p));
                assert(np[p] == op[p]);
                assert(!m[op[p].allocated_qubits@[k] as int]);
            }
        }
        assert forall|p: usize, a: int, b: int| #![trigger np[p].allocated_qubits@[a], np[p].allocated_qubits@[b]]
            np.contains_key(p) && 0 <= a < b < np[p].allocated_qubits@.len()
            implies np[p].allocated_qubits@[a] != np[p].allocated_qubits@[b] by {
            if !(inserted && p == pid) {
                assert(op.contains_key(p));
                assert(np[p] == op[p]);
            }
        }
        assert forall|p: usize, q: usize, a: int, b: int| #![trigger np[p].allocated_qubits@[a], np[q].allocated_qubits@[b]]
            np.contains_key(p) && np.contains_key(q) && p != q
            && 0 <= a < np[p].allocated_qubits@.len()
            && 0 <= b < np[q].allocated_qubits@.len()
            implies np[p].allocated_qubits@[a] != np[q].allocated_qubits@[b] by {
            if inserted && p == pid {
                assert(op.contains_key(q));
                assert(np[q] == op[q]);
                assert(!m[op[q].allocated_qubits@[b] as int]);
            } else if inserted && q == pid {
                assert(op.contains_key(p));
                assert(np[p] == op[p]);
                assert(!m[op[p].allocated_qubits@[a] as int]);
            } else {
                assert(op.contains_key(p) && op.contains_key(q));
                assert(np[p] == op[p] && np[q] == op[q]);
            }
        }
    }

    /// Gives process `pid` the `count` lowest free qubits and records the
    /// process under `pid` (replacing any process filed there).  When fewer
    /// than `count` qubits are free the request fails and nothing changes.
    pub fn allocate_qubits(&mut self, pid: usize, count: usize) -> (r: Result<Vec<usize>, String>)
        ensures
            ({
                let m = old(self).free_map();
                let f = free_indices(m);
                match r {
                    Ok(v) => {
                        &&& count <= f.len()
                        &&& v@ == f.take(count as int)
                        &&& final(self).free_map() == after_taking(m, v@)
                        &&& final(self).processes().dom() == old(self).processes().dom().insert(pid)
                        &&& final(self).processes()[pid].pid == pid
                        &&& final(self).processes()[pid].allocated_qubits@ == v@
                        &&& forall|p: usize| p != pid && #[trigger] old(self).processes().contains_key(p)
                            ==> final(self).processes()[p] == old(self).processes()[p]
                    },
                    Err(e) => {
                        &&& f.len() < count
                        &&& e@ == not_enough_message()
                        &&& final(self).free_map() == m
                        &&& final(self).processes() == old(self).processes()
                    },
                }
            }),
            count == 0 ==> r is Ok && final(self).free_map() == old(self).free_map(),
            old(self).wf() ==> final(self).wf(),
    {
        let ghost m = self.free_qubit_map@;
        let mut allocated: Vec<usize> = Vec::new();
        let n = self.free_qubit_map.len();
        let mut idx: usize = 0;
        proof {
            lemma_free_indices_props(m);
            assert(m.take(0) =~= Seq::<bool>::empty());
        }
        while idx < n && allocated.len() < count
            invariant
                n == m.len(),
                idx <= n,
                self.free_qubit_map@ == m,
                self.active_processes@ == old(self).active_processes@,
                m == old(self).free_map(),
                allocated@ == free_indices(m.take(idx as int)),
                allocated@.len() <= count,
            decreases n - idx,
        {
            proof {
                assert(m.take(idx + 1).drop_last() =~= m.take(idx as int));
                assert(m.take(idx + 1).last() == m[idx as int]);
                assert(m.take(idx + 1).len() - 1 == idx);
            }
            if self.free_qubit_map[idx] {
                allocated.push(idx);
            }
            idx = idx + 1;
        }
        let ghost f = free_indices(m);
        proof {
            lemma_free_indices_prefix(m, idx as int);
            if idx == n {
                assert(m.take(n as int) =~= m);
                assert(f.take(f.len() as int) =~= f);
            }
        }
        if allocated.len() < count {
            proof {
                reveal_strlit("Not enough free quantum resources!");
            }
            let msg = String::from_str("Not enough free quantum resources!");
            assert(msg@ =~= not_enough_message());
            return Err(msg);
        }
        assert(allocated@ == f.take(count as int));
        let ghost tk = allocated@;
        proof {
            assert forall|kk: int| 0 <= kk < tk.len() implies #[trigger] tk[kk] < m.len() && m[tk[kk] as int] by {
                assert(tk[kk] == f[kk]);
            }
            assert forall|a: int, b: int| 0 <= a < b < tk.len() implies #[trigger] tk[a] != #[trigger] tk[b] by {
                assert(tk[a] == f[a] && tk[b] == f[b]);
            }
            assert(after_taking(m, tk.take(0)) =~= m);
        }
        let mut j: usize = 0;
        while j < count
            invariant
                count == tk.len(),
                tk == allocated@,
                j <= count,
                n == m.len(),
                self.free_qubit_map@.len() == n,
                self.active_processes@ == old(self).active_processes@,
                forall|kk: int| 0 <= kk < tk.len() ==> #[trigger] tk[kk] < m.len(),
                self.free_qubit_map@ == after_taking(m, tk.take(j as int)),
            decreases count - j,
        {
            let q = allocated[j];
            self.free_qubit_map.set(q, false);
            proof {
                let t0 = tk.take(j as int);
                let t1 = tk.take(j + 1);
                assert(t1 =~= t0.push(q));
                assert forall|i: int| 0 <= i < m.len() implies #[trigger] self.free_qubit_map@[i]
                    == (m[i] && !t1.contains(i as usize)) by {
                    if t1.contains(i as usize) && i as usize != q {
                        let x = choose|x: int| 0 <= x < t1.len() && t1[x] == i as usize;
                        assert(t0[x] == i as usize);
                    }
                    if t0.contains(i as usize) {
                        let x = choose|x: int| 0 <= x < t0.len() && t0[x] == i as usize;
                        assert(t1[x] == i as usize);
                    }
                    if i as usize == q {
                        assert(t1[j as int] == q);
                    }
                }
                assert(self.free_qubit_map@ =~= after_taking(m, t1));
            }
            j = j + 1;
        }
        proof {
            assert(tk.take(count as int) =~= tk);
        }
        let ghost old_self = *old(self);
        let process = QuantumProcess { pid, allocated_qubits: allocated.clone() };
        proof {
            assert(process.allocated_qubits@ =~= allocated@);
        }
        self.active_processes.insert(pid, process);
        proof {
            assert(self.processes().dom() =~= old_self.processes().dom().insert(pid));
            if old_self.wf() {
                Self::lemma_allocate_keeps_wf(&old_self, self, pid, allocated@, true);
            }
            if count == 0 {
                assert(after_taking(m, tk) =~= m);
            }
        }
        Ok(allocated)
    }
}

/// The free map after the qubits `freed` were handed back.
pub open spec fn after_freeing(m: Seq<bool>, freed: Seq<usize>) -> Seq<bool> {
    Seq::new(m.len(), |i: int| m[i] || freed.contains(i as usize))
}

/// The message `Proces PID <pid> not found`.
fn unknown_pid(pid: usize) -> (msg: String)
    ensures
        msg@ == unknown_pid_message(pid),
{
    let mut msg = String::from_str("Proces PID ");
    push_decimal(&mut msg, pid);
    msg.append(" not found");
    proof {
        reveal_strlit("Proces PID ");
        reveal_strlit(" not found");
        assert(msg@ =~= unknown_pid_message(pid));
    }
    msg
}

impl QuantumScheduler {
    /// Freezes process `pid`: hands its qubits back, forgets the process, and
    /// returns its context with the amplitudes `sparse_state` that the
    /// caller kept of the hardware register.
    pub fn freeze_process(&mut self, pid: usize, sparse_state: Vec<(usize, u64, u64)>) -> (r: Result<
        QuantumContextFrame,
        String,
    >)
        requires
            old(self).processes().contains_key(pid) ==> forall|k: int|
                0 <= k < old(self).processes()[pid].allocated_qubits@.len()
                    ==> #[trigger] old(self).processes()[pid].allocated_qubits@[k] < old(self).free_map().len(),
        ensures
            match r {
                Ok(f) => {
                    &&& old(self).processes().contains_key(pid)
                    &&& f.pid == pid
                    &&& f.num_qubits == old(self).processes()[pid].allocated_qubits@.len()
                    &&& f.sparse_state@ == sparse_state@
                    &&& final(self).processes() == old(self).processes().remove(pid)
                    &&& final(self).free_map() == after_freeing(
                        old(self).free_map(),
                        old(self).processes()[pid].allocated_qubits@,
                    )
                },
                Err(e) => {
                    &&& !old(self).processes().contains_key(pid)
                    &&& e@ == unknown_pid_message(pid)
                    &&& final(self).processes() == old(self).processes()
                    &&& final(self).free_map() == old(self).free_map()
                },
            },
            old(self).wf() ==> final(self).wf(),
    {
        let ghost old_self = *old(self);
        let removed = self.active_processes.remove(&pid);
        match removed {
            None => {
                Err(unknown_pid(pid))
            },
            Some(process) => {
                let ghost qs = process.allocated_qubits@;
                let ghost m = self.free_qubit_map@;
                let n = process.allocated_qubits.len();
                let total = self.free_qubit_map.len();
                let mut i: usize = 0;
                while i < n
                    invariant
                        n == qs.len(),
                        qs == process.allocated_qubits@,
                        i <= n,
                        m == old_self.free_map(),
                        total == m.len(),
                        qs == old_self.processes()[pid].allocated_qubits@,
                        old_self.processes().contains_key(pid),
                        forall|k: int| 0 <= k < qs.len() ==> #[trigger] qs[k] < m.len(),
                        self.free_qubit_map@ == after_freeing(m, qs.take(i as int)),
                        self.active_processes@ == old_self.processes().remove(pid),
                    decreases n - i,
                {
                    let q = process.allocated_qubits[i];
                    proof {
                        assert(qs[i as int] < m.len());
                    }
                    self.free_qubit_map.set(q, true);
                    proof {
                        let t0 = qs.take(i as int);
                        let t1 = qs.take(i + 1);
                        assert(t1 =~= t0.push(q));
                        assert forall|j: int| 0 <= j < m.len() implies #[trigger] self.free_qubit_map@[j]
                            == (m[j] || t1.contains(j as usize)) by {
                            if t1.contains(j as usize) && j as usize != q {
                                let x = choose|x: int| 0 <= x < t1.len() && t1[x] == j as usize;
                                assert(t0[x] == j as usize);
                            }
                            if t0.contains(j as usize) {
                                let x = choose|x: int| 0 <= x < t0.len() && t0[x] == j as usize;
                                assert(t1[x] == j as usize);
                            }
                            if j as usize == q {
                                assert(t1[i as int] == q);
                            }
                        }
                        assert(self.free_qubit_map@ =~= after_freeing(m, t1));
                    }
                    i = i + 1;
                }
                proof {
                    assert(qs.take(n as int) =~= qs);
                    if old_self.wf() {
                        let np = self.processes();
                        let op = old_self.processes();
                        let nm = self.free_map();
                        assert forall|p: usize, k: int| #![trigger np[p].allocated_qubits@[k]]
                            np.contains_key(p) && 0 <= k < np[p].allocated_qubits@.len()
                            implies np[p].allocated_qubits@[k] < nm.len()
                            && !nm[np[p].allocated_qubits@[k] as int] by {
                            let x = np[p].allocated_qubits@[k];
                            assert(op.contains_key(p) && p != pid);
                            if qs.contains(x) {
                                let j = choose|j: int| 0 <= j < qs.len() && qs[j] == x;
                                assert(op[pid].allocated_qubits@[j] != op[p].allocated_qubits@[k]);
                            }
                        }
                        assert forall|p: usize| #[trigger] np.contains_key(p) implies np[p].pid == p by {
                            assert(op.contains_key(p));
                        }
                        assert forall|p: usize, a: int, b: int| #![trigger np[p].allocated_qubits@[a], np[p].allocated_qubits@[b]]
                            np.contains_key(p) && 0 <= a < b < np[p].allocated_qubits@.len()
                            implies np[p].allocated_qubits@[a] != np[p].allocated_qubits@[b] by {
                            assert(op.contains_key(p));
                        }
                        assert forall|p: usize, q: usize, a: int, b: int| #![trigger np[p].allocated_qubits@[a], np[q].allocated_qubits@[b]]
                            np.contains_key(p) && np.contains_key(q) && p != q
                            && 0 <= a < np[p].allocated_qubits@.len()
                            && 0 <= b < np[q].allocated_qubits@.len()
                            implies np[p].allocated_qubits@[a] != np[q].allocated_qubits@[b] by {
                            assert(op.contains_key(p) && op.contains_key(q));
                        }
                    }
                }
                Ok(QuantumContextFrame { pid, num_qubits: n, sparse_state })
            },
        }
    }

    /// Brings a frozen process back: allocates `frame.num_qubits` qubits to
    /// `frame.pid` exactly as `allocate_qubits` does.  The caller then
    /// writes the frame's amplitudes into the hardware register.
    pub fn restore_process(&mut self, frame: &QuantumContextFrame) -> (r: Result<(), String>)
        ensures
            ({
                let m = old(self).free_map();
                let f = free_indices(m);
                let count = frame.num_qubits;
                match r {
                    Ok(_) => {
                        &&& count <= f.len()
                        &&& final(self).free_map() == after_taking(m, f.take(count as int))
                        &&& final(self).processes().dom() == old(self).processes().dom().insert(frame.pid)
                        &&& final(self).processes()[frame.pid].pid == frame.pid
                        &&& final(self).processes()[frame.pid].allocated_qubits@ == f.take(count as int)
                        &&& forall|p: usize| p != frame.pid && #[trigger] old(self).processes().contains_key(p)
                            ==> final(self).processes()[p] == old(self).processes()[p]
                    },
                    Err(e) => {
                        &&& f.len() < count
                        &&& e@ == not_enough_message()
                        &&& final(self).free_map() == m
                        &&& final(self).processes() == old(self).processes()
                    },
                }
            }),
            old(self).wf() ==> final(self).wf(),
    {
        match self.allocate_qubits(frame.pid, frame.num_qubits) {
            Ok(_) => Ok(()),
            Err(e) => Err(e),
        }
    }
}

/// Freezing the process that a successful allocation created hands back
/// exactly the qubits the allocation took: the free map is again the one
/// from before the allocation.
pub proof fn freeing_undoes_taking(m: Seq<bool>, count: usize)
    requires
        m.len() <= usize::MAX,
        count <= free_indices(m).len(),
    ensures
        ({
            let t = free_indices(m).take(count as int);
            after_freeing(after_taking(m, t), t) == m
        }),
{
    lemma_free_indices_props(m);
    let f = free_indices(m);
    let t = f.take(count as int);
    assert forall|i: int| 0 <= i < m.len() implies #[trigger] after_freeing(after_taking(m, t), t)[i] == m[i] by {
        if t.contains(i as usize) {
            let j = choose|j: int| 0 <= j < t.len() && t[j] == i as usize;
            assert(f[j] == t[j]);
        }
    }
    assert(after_freeing(after_taking(m, t), t) =~= m);
}
proof fn lemma_free_indices_len(m: Seq<bool>)
    ensures
        free_indices(m).len() <= m.len(),
    decreases m.len(),
{
    if m.len() > 0 {
        lemma_free_indices_len(m.drop_last());
    }
}

/// A context switch in right after a switch out always finds room: once a
/// process of a well-formed scheduler is frozen, at least as many qubits
/// are free as it held, so restoring its frame does not fail.
pub proof fn restore_after_freeze_has_room(s: QuantumScheduler, pid: usize)
    requires
        s.wf(),
        s.processes().contains_key(pid),
        s.free_map().len() <= usize::MAX,
    ensures
        ({
            let held = s.processes()[pid].allocated_qubits@;
            let free = free_indices(after_freeing(s.free_map(), held)).len();
            free >= held.len()
        }),
{
    let held = s.processes()[pid].allocated_qubits@;
    let m2 = after_freeing(s.free_map(), held);
    let f = free_indices(m2);
    lemma_free_indices_props(m2);
    assert(held.no_duplicates()) by {
        assert forall|a: int, b: int| 0 <= a < held.len() && 0 <= b < held.len() && a != b implies held[a] != held[b] by {
            if a < b {
                assert(s.processes()[pid].allocated_qubits@[a] != s.processes()[pid].allocated_qubits@[b]);
            } else {
                assert(s.processes()[pid].allocated_qubits@[b] != s.processes()[pid].allocated_qubits@[a]);
            }
        }
    }
    assert(f.no_duplicates()) by {
        assert forall|a: int, b: int| 0 <= a < f.len() && 0 <= b < f.len() && a != b implies f[a] != f[b] by {
            if a < b {
                assert(f[a] < f[b]);
            } else {
                assert(f[b] < f[a]);
            }
        }
    }
    held.unique_seq_to_set();
    f.unique_seq_to_set();
    assert(held.to_set().subset_of(f.to_set())) by {
        assert forall|x: usize| held.to_set().contains(x) implies f.to_set().contains(x) by {
            let k = choose|k: int| 0 <= k < held.len() && held[k] == x;
            assert(s.processes()[pid].allocated_qubits@[k] < s.free_map().len());
            assert(held.contains(x));
            assert(m2[x as int]);
        }
    }
    vstd::seq_lib::seq_to_set_is_finite(f);
    vstd::set_lib::lemma_len_subset(held.to_set(), f.to_set());
    lemma_free_indices_len(m2);
}

} // verus!
