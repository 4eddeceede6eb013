//! Namespace emission plans: for a node id, the prefixed declarations it emits.
use vstd::prelude::*;
use crate::dom::assoc::{Pairs, pairs_view};
use crate::dom::element::NodeId;

verus! {

/// An emission plan mapping a node to the prefixed namespace declarations it emits.
pub type NamespacePlan = Vec<(NodeId, Vec<(String, String)>)>;

/// The model of a plan: the declarations of each planned node.
pub type PlanModel = Map<u32, Pairs>;

/// The entries of a plan as plain values.
pub open spec fn plan_entries(p: Seq<(NodeId, Vec<(String, String)>)>) -> Seq<(u32, Pairs)> {
    p.map_values(|e: (NodeId, Vec<(String, String)>)| (e.0, pairs_view(e.1@)))
}

/// The declarations of the first entry for node `id`.
pub open spec fn plan_get(entries: Seq<(u32, Pairs)>, id: u32) -> Option<Pairs>
    decreases entries.len(),
{
    if entries.len() == 0 {
        None
    } else if entries[0].0 == id {
        Some(entries[0].1)
    } else {
        plan_get(entries.drop_first(), id)
    }
}

/// The map a list of entries stands for.
pub open spec fn entries_map(entries: Seq<(u32, Pairs)>) -> PlanModel {
    Map::new(|id: u32| plan_get(entries, id) is Some, |id: u32| plan_get(entries, id)->Some_0)
}

/// The model of a plan.
pub open spec fn plan_view(p: Seq<(NodeId, Vec<(String, String)>)>) -> PlanModel {
    entries_map(plan_entries(p))
}

/// The model of an optional plan.
pub open spec fn opt_plan_view(p: Option<&NamespacePlan>) -> Option<PlanModel> {
    match p {
        Some(v) => Some(plan_view(v@)),
        None => None,
    }
}

/// No node id occurs twice among the entries.
pub open spec fn unique_ids(entries: Seq<(u32, Pairs)>) -> bool {
    forall|i: int, j: int| 0 <= i < entries.len() && 0 <= j < entries.len() && i != j ==> entries[i].0 != entries[j].0
}

/// With unique ids, the entry at `i` is what the plan gives its node, and a node without
/// an entry gets nothing.
pub proof fn lemma_plan_get(entries: Seq<(u32, Pairs)>, id: u32)
    requires
        unique_ids(entries),
    ensures
        forall|i: int| 0 <= i < entries.len() && entries[i].0 == id ==> plan_get(entries, id) == Some(entries[i].1),
        (forall|i: int| 0 <= i < entries.len() ==> entries[i].0 != id) ==> plan_get(entries, id) is None,
    decreases entries.len(),
{
    if entries.len() > 0 {
        let rest = entries.drop_first();
        assert(unique_ids(rest)) by {
            assert forall|i: int, j: int| 0 <= i < rest.len() && 0 <= j < rest.len() && i != j implies rest[i].0 != rest[j].0 by {
                assert(rest[i] == entries[i + 1]);
                assert(rest[j] == entries[j + 1]);
            }
        }
        lemma_plan_get(rest, id);
        assert forall|i: int| 0 <= i < entries.len() && entries[i].0 == id implies plan_get(entries, id) == Some(entries[i].1) by {
            if i > 0 {
                assert(rest[i - 1] == entries[i]);
                assert(entries[0].0 != id);
            }
        }
        if forall|i: int| 0 <= i < entries.len() ==> entries[i].0 != id {
            assert forall|i: int| 0 <= i < rest.len() implies rest[i].0 != id by {
                assert(rest[i] == entries[i + 1]);
            }
            assert(entries[0].0 != id);
        }
    }
}

/// Replacing the declarations of the entry at `i` replaces them in the plan's map.
pub proof fn lemma_plan_update(entries: Seq<(u32, Pairs)>, i: int, ds: Pairs)
    requires
        unique_ids(entries),
        0 <= i < entries.len(),
    ensures
        unique_ids(entries.update(i, (entries[i].0, ds))),
        entries_map(entries.update(i, (entries[i].0, ds))) == entries_map(entries).insert(entries[i].0, ds),
{
    let n = entries.update(i, (entries[i].0, ds));
    assert(unique_ids(n));
    assert forall|id: u32| #![auto] plan_get(n, id) == entries_map(entries).insert(entries[i].0, ds).get(id) by {
        lemma_plan_get(entries, id);
        lemma_plan_get(n, id);
        if id == entries[i].0 {
            assert(n[i].0 == id);
        } else if exists|k: int| 0 <= k < entries.len() && entries[k].0 == id {
            let k = choose|k: int| 0 <= k < entries.len() && entries[k].0 == id;
            assert(n[k] == entries[k]);
        } else {
            assert forall|k: int| 0 <= k < n.len() implies n[k].0 != id by {
                if k != i {
                    assert(n[k] == entries[k]);
                }
            }
        }
    }
    assert(entries_map(n) =~= entries_map(entries).insert(entries[i].0, ds));
}

/// A new entry for a node without one adds it to the plan's map.
pub proof fn lemma_plan_push(entries: Seq<(u32, Pairs)>, id: u32, ds: Pairs)
    requires
        unique_ids(entries),
        forall|i: int| 0 <= i < entries.len() ==> entries[i].0 != id,
    ensures
        unique_ids(entries.push((id, ds))),
        entries_map(entries.push((id, ds))) == entries_map(entries).insert(id, ds),
{
    let n = entries.push((id, ds));
    assert(unique_ids(n));
    assert forall|x: u32| #![auto] plan_get(n, x) == entries_map(entries).insert(id, ds).get(x) by {
        lemma_plan_get(entries, x);
        lemma_plan_get(n, x);
        assert(n[entries.len() as int] == (id, ds));
        if x != id {
            if exists|k: int| 0 <= k < entries.len() && entries[k].0 == x {
                let k = choose|k: int| 0 <= k < entries.len() && entries[k].0 == x;
                assert(n[k] == entries[k]);
            } else {
                assert forall|k: int| 0 <= k < n.len() implies n[k].0 != x by {
                    if k < entries.len() {
                        assert(n[k] == entries[k]);
                    }
                }
            }
        }
    }
    assert(entries_map(n) =~= entries_map(entries).insert(id, ds));
}

/// The position of the entry for node `id`.
pub fn plan_lookup(plan: &NamespacePlan, id: NodeId) -> (r: Option<usize>)
    ensures
        match r {
            Some(i) => i < plan@.len() && plan@[i as int].0 == id && plan_get(plan_entries(plan@), id)
                == Some(pairs_view(plan@[i as int].1@)),
            None => plan_get(plan_entries(plan@), id) is None && forall|k: int|
                0 <= k < plan@.len() ==> plan@[k].0 != id,
        },
{
    let ghost pv = plan_entries(plan@);
    let mut i: usize = 0;
    assert(pv.subrange(0, pv.len() as int) =~= pv);
    while i < plan.len()
        invariant
            i <= plan.len(),
            pv == plan_entries(plan@),
            plan_get(pv, id) == plan_get(pv.subrange(i as int, pv.len() as int), id),
            forall|k: int| 0 <= k < i ==> plan@[k].0 != id,
        decreases plan.len() - i,
    {
        let ghost rest = pv.subrange(i as int, pv.len() as int);
        assert(rest[0] == (plan@[i as int].0, pairs_view(plan@[i as int].1@)));
        if plan[i].0 == id {
            return Some(i);
        }
        assert(rest.drop_first() =~= pv.subrange(i + 1, pv.len() as int));
        i = i + 1;
    }
    None
}

} // verus!
