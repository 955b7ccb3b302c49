use vstd::prelude::*;

verus! {

use crate::vault::{entry_keys_unique, Node, NodeView};

/// The mathematical value of the shared store: the vaults and the replicas,
/// each in insertion order.
#[verifier::ext_equal]
pub struct StateView {
    pub vaults: Seq<NodeView>,
    pub replicas: Seq<NodeView>,
}

/// The views of a sequence of owned vaults.
pub open spec fn view_nodes(s: Seq<Node>) -> Seq<NodeView> {
    s.map_values(|n: Node| n@)
}

/// Every vault in the sequence carries pairwise distinct entry keys.
pub open spec fn wf_nodes(ns: Seq<NodeView>) -> bool {
    forall|i: int| 0 <= i < ns.len() ==> entry_keys_unique((#[trigger] ns[i]).entries)
}

/// Every vault and every replica in the store is well-formed.
pub open spec fn wf_state(s: StateView) -> bool {
    wf_nodes(s.vaults) && wf_nodes(s.replicas)
}

/// Deep-copy a sequence of vaults, preserving their views.
fn clone_nodes(v: &Vec<Node>) -> (r: Vec<Node>)
    ensures
        view_nodes(r@) == view_nodes(v@),
{
    let mut out: Vec<Node> = Vec::new();
    let mut i: usize = 0;
    while i < v.len()
        invariant
            i <= v@.len(),
            out@.len() == i,
            view_nodes(out@) =~= view_nodes(v@).take(i as int),
        decreases v@.len() - i,
    {
        let ghost prev = out@;
        out.push(v[i].clone());
        proof {
            assert forall|j: int| 0 <= j < out@.len() implies view_nodes(out@)[j] == view_nodes(
                v@,
            ).take(i as int + 1)[j] by {
                if j < i as int {
                    assert(out@[j] == prev[j]);
                    assert(view_nodes(prev)[j] == view_nodes(v@).take(i as int)[j]);
                }
            }
            assert(view_nodes(out@) =~= view_nodes(v@).take(i as int + 1));
        }
        i = i + 1;
    }
    proof {
        assert(view_nodes(v@).take(v@.len() as int) =~= view_nodes(v@));
    }
    out
}

/// The process-wide store of vaults and their replicas.
///
/// The store is a plain value; callers that share it across threads guard it
/// with their own mutual exclusion and surface a poisoned lock as
/// `VaultError::LockPoisoned` instead of ignoring it.
pub struct AppState {
    pub(crate) vaults: Vec<Node>,
    pub(crate) replicas: Vec<Node>,
}

impl View for AppState {
    type V = StateView;

    closed spec fn view(&self) -> StateView {
        StateView { vaults: view_nodes(self.vaults@), replicas: view_nodes(self.replicas@) }
    }
}

impl AppState {
    /// Every held vault and replica is well-formed.
    pub open spec fn wf(&self) -> bool {
        wf_state(self@)
    }

    /// An empty store: no vaults, no replicas.
    pub fn new() -> (r: AppState)
        ensures
            r@.vaults.len() == 0,
            r@.replicas.len() == 0,
            r.wf(),
    {
        let r = AppState { vaults: Vec::new(), replicas: Vec::new() };
        proof {
            assert(r@.vaults =~= Seq::<NodeView>::empty());
            assert(r@.replicas =~= Seq::<NodeView>::empty());
        }
        r
    }

    /// Append a vault to the store.
    pub fn add_vault(&mut self, v: Node)
        requires
            old(self).wf(),
            v.wf(),
        ensures
            final(self).wf(),
            final(self)@.vaults == old(self)@.vaults.push(v@),
            final(self)@.replicas == old(self)@.replicas,
    {
        let ghost prev = self.vaults@;
        let ghost vv = v@;
        self.vaults.push(v);
        proof {
            assert forall|j: int| 0 <= j < self.vaults@.len() implies view_nodes(self.vaults@)[j]
                == view_nodes(prev).push(vv)[j] by {
                if j < prev.len() {
                    assert(self.vaults@[j] == prev[j]);
                }
            }
            assert(view_nodes(self.vaults@) =~= view_nodes(prev).push(vv));
        }
    }

    /// Append each given replica, preserving order.
    pub fn add_replicas(&mut self, replicas: &Vec<Node>)
        requires
            old(self).wf(),
            wf_nodes(view_nodes(replicas@)),
        ensures
            final(self).wf(),
            final(self)@.vaults == old(self)@.vaults,
            final(self)@.replicas == old(self)@.replicas + view_nodes(replicas@),
    {
        let ghost base = self.replicas@;
        let mut i: usize = 0;
        while i < replicas.len()
            invariant
                i <= replicas@.len(),
                old(self).wf(),
                wf_nodes(view_nodes(replicas@)),
                self.vaults@ == old(self).vaults@,
                self.replicas@.len() == base.len() + i,
                view_nodes(self.replicas@) =~= view_nodes(base) + view_nodes(replicas@).take(
                    i as int,
                ),
            decreases replicas@.len() - i,
        {
            let ghost prev = self.replicas@;
            self.replicas.push(replicas[i].clone());
            proof {
                assert forall|j: int|
                    0 <= j < self.replicas@.len() implies view_nodes(self.replicas@)[j] == (
                view_nodes(base) + view_nodes(replicas@).take(i as int + 1))[j] by {
                    if j < prev.len() {
                        assert(self.replicas@[j] == prev[j]);
                        assert(view_nodes(prev)[j] == (view_nodes(base) + view_nodes(
                            replicas@,
                        ).take(i as int))[j]);
                    }
                }
                assert(view_nodes(self.replicas@) =~= view_nodes(base) + view_nodes(
                    replicas@,
                ).take(i as int + 1));
            }
            i = i + 1;
        }
        proof {
            assert(view_nodes(replicas@).take(replicas@.len() as int) =~= view_nodes(replicas@));
            assert forall|j: int|
                0 <= j < final(self)@.replicas.len() implies entry_keys_unique(
                (#[trigger] final(self)@.replicas[j]).entries,
            ) by {
                if j < base.len() {
                    assert(old(self)@.replicas[j] == view_nodes(base)[j]);
                } else {
                    assert(final(self)@.replicas[j] == view_nodes(replicas@)[j - base.len()]);
                }
            }
        }
    }

    /// How the store's value is composed from its two sequences; for use by
    /// the crate's own modules, which see the fields.
    pub(crate) proof fn lemma_parts(&self)
        ensures
            self@.vaults == view_nodes(self.vaults@),
            self@.replicas == view_nodes(self.replicas@),
    {
    }

    /// Assemble a store from already-validated sequences.
    pub(crate) fn from_parts(vaults: Vec<Node>, replicas: Vec<Node>) -> (r: AppState)
        ensures
            r@.vaults == view_nodes(vaults@),
            r@.replicas == view_nodes(replicas@),
    {
        AppState { vaults, replicas }
    }

    /// A value-copy of the vaults at call time; callers never observe partial
    /// mutation.
    pub fn list_vaults(&self) -> (r: Vec<Node>)
        ensures
            view_nodes(r@) == self@.vaults,
    {
        clone_nodes(&self.vaults)
    }

    /// A value-copy of the replicas at call time.
    pub fn list_replicas(&self) -> (r: Vec<Node>)
        ensures
            view_nodes(r@) == self@.replicas,
    {
        clone_nodes(&self.replicas)
    }
}

} // verus!
