//! Tenant quotas on the shared quantum hardware.

use vstd::prelude::*;
use vstd::hash_map::StringHashMap;

verus! {

/// The role of a tenant.
#[derive(Debug, Clone, PartialEq, Eq, Structural)]
pub enum TenantRole {
    Admin,
    StandardUser,
}

/// The remaining hardware quota of each known tenant, by tenant id.
pub struct QuantumTenantManager {
    pub tenant_quotas: StringHashMap<usize>,
}

/// The message for an unknown tenant:
/// ` [SECURITY] Unauthorized Tenant ID: '<id>'`.
pub open spec fn unauthorized_message(id: Seq<char>) -> Seq<char> {
    " [SECURITY] Unauthorized Tenant ID: '"@ + id + "'"@
}

/// The message for a tenant without quota:
/// ` [SECURITY] Tenant '<id>' has exhausted quantum hardware quota!`.
pub open spec fn exhausted_message(id: Seq<char>) -> Seq<char> {
    " [SECURITY] Tenant '"@ + id + "' has exhausted quantum hardware quota!"@
}

/// Whether a request of tenant `id` is admitted under the quotas `q`: the
/// tenant is known and has quota left.
pub open spec fn admitted(q: Map<Seq<char>, usize>, id: Seq<char>) -> bool {
    q.contains_key(id) && q[id] > 0
}

/// The quotas after tenant `id` was charged one unit.
pub open spec fn charged(q: Map<Seq<char>, usize>, id: Seq<char>) -> Map<Seq<char>, usize> {
    q.insert(id, (q[id] - 1) as usize)
}

/// The quotas after `n` admitted requests of tenant `id`.
pub open spec fn charged_times(q: Map<Seq<char>, usize>, id: Seq<char>, n: nat) -> Map<Seq<char>, usize>
    decreases n,
{
    if n == 0 {
        q
    } else {
        charged(charged_times(q, id, (n - 1) as nat), id)
    }
}

impl QuantumTenantManager {
    /// The two tenants of the installation: `Pharmaceutical_Corp` with 3600
    /// units and `Academic_User` with 60.
    pub fn new() -> (m: Self)
        ensures
            m.tenant_quotas@ == Map::<Seq<char>, usize>::empty().insert("Pharmaceutical_Corp"@, 3600).insert(
                "Academic_User"@,
                60,
            ),
    {
        let mut tenant_quotas = StringHashMap::<usize>::new();
        tenant_quotas.insert(String::from_str("Pharmaceutical_Corp"), 3600);
        tenant_quotas.insert(String::from_str("Academic_User"), 60);
        QuantumTenantManager { tenant_quotas }
    }

    /// Admits a request of tenant `tenant_id`: a known tenant with quota
    /// left is charged one unit; an unknown tenant, or one whose quota is
    /// used up, is refused and nothing changes.
    pub fn authorize_and_isolate(&mut self, tenant_id: &str, requested_qubits: usize) -> (r: Result<(), String>)
        ensures
            match r {
                Ok(()) => {
                    &&& admitted(old(self).tenant_quotas@, tenant_id@)
                    &&& final(self).tenant_quotas@ == charged(old(self).tenant_quotas@, tenant_id@)
                },
                Err(e) => {
                    &&& final(self).tenant_quotas@ == old(self).tenant_quotas@
                    &&& if old(self).tenant_quotas@.contains_key(tenant_id@) {
                        old(self).tenant_quotas@[tenant_id@] == 0 && e@ == exhausted_message(tenant_id@)
                    } else {
                        e@ == unauthorized_message(tenant_id@)
                    }
                },
            },
    {
        match self.tenant_quotas.get(tenant_id) {
            Some(quota) => {
                let q = *quota;
                if q == 0 {
                    let mut msg = String::from_str(" [SECURITY] Tenant '");
                    msg.append(tenant_id);
                    msg.append("' has exhausted quantum hardware quota!");
                    return Err(msg);
                }
                self.tenant_quotas.insert(String::from_str(tenant_id), q - 1);
                Ok(())
            },
            None => {
                let mut msg = String::from_str(" [SECURITY] Unauthorized Tenant ID: '");
                msg.append(tenant_id);
                msg.append("'");
                Err(msg)
            },
        }
    }
}

/// A known tenant with quota `n` is admitted for exactly `n` requests in a
/// row, and refused from then on; the other tenants' quotas stay as they
/// were.
pub proof fn quota_admits_exactly_its_size(q: Map<Seq<char>, usize>, id: Seq<char>)
    requires
        q.contains_key(id),
    ensures
        forall|k: nat| k < q[id] ==> admitted(#[trigger] charged_times(q, id, k), id),
        !admitted(charged_times(q, id, q[id] as nat), id),
        charged_times(q, id, q[id] as nat).contains_key(id),
        charged_times(q, id, q[id] as nat).remove(id) == q.remove(id),
{
    assert forall|k: nat| k < q[id] implies admitted(#[trigger] charged_times(q, id, k), id) by {
        lemma_charged_times(q, id, k);
    }
    lemma_charged_times(q, id, q[id] as nat);
}

proof fn lemma_charged_times(q: Map<Seq<char>, usize>, id: Seq<char>, k: nat)
    requires
        q.contains_key(id),
        k <= q[id],
    ensures
        charged_times(q, id, k).contains_key(id),
        charged_times(q, id, k)[id] == q[id] - k,
        charged_times(q, id, k).remove(id) == q.remove(id),
    decreases k,
{
    if k > 0 {
        lemma_charged_times(q, id, (k - 1) as nat);
        let p = charged_times(q, id, (k - 1) as nat);
        assert(charged(p, id).remove(id) =~= p.remove(id));
    }
}

} // verus!
