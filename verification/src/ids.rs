//! Node identifiers and the order in which sets of them are walked.

use std::collections::BTreeSet;
use vstd::prelude::*;

verus! {

/// Identifier of a node of the network.
pub type NodeId = u8;

/// The members of `s` that are smaller than `n`, in increasing order.
pub open spec fn ascending_below(s: Set<NodeId>, n: nat) -> Seq<NodeId>
    decreases n,
{
    if n == 0 {
        Seq::empty()
    } else if s.contains((n - 1) as NodeId) {
        ascending_below(s, (n - 1) as nat).push((n - 1) as NodeId)
    } else {
        ascending_below(s, (n - 1) as nat)
    }
}

/// The members of `s`, in increasing order.
pub open spec fn ascending(s: Set<NodeId>) -> Seq<NodeId> {
    ascending_below(s, 256)
}

/// Lists the members of a set of nodes in increasing order.
pub fn members(s: &BTreeSet<NodeId>) -> (ids: Vec<NodeId>)
    ensures
        ids@ == ascending(s@),
{
    let mut ids: Vec<NodeId> = Vec::new();
    let mut n: u16 = 0;
    while n < 256
        invariant
            n <= 256,
            ids@ == ascending_below(s@, n as nat),
        decreases 256 - n,
    {
        let id: NodeId = n as NodeId;
        if s.contains(&id) {
            ids.push(id);
        }
        n = n + 1;
    }
    ids
}

/// The members below a number, in order, are all of these, each once.
pub proof fn lemma_ascending_members(s: Set<NodeId>, n: nat)
    requires
        n <= 256,
    ensures
        forall|id: NodeId| #[trigger] ascending_below(s, n).contains(id) <==> s.contains(id) && id < n,
        ascending_below(s, n).no_duplicates(),
    decreases n,
{
    if n > 0 {
        lemma_ascending_members(s, (n - 1) as nat);
        let shorter = ascending_below(s, (n - 1) as nat);
        let all = ascending_below(s, n);
        let last = (n - 1) as NodeId;
        assert forall|id: NodeId| #[trigger] all.contains(id) <==> s.contains(id) && id < n by {
            if s.contains(last) {
                assert(all == shorter.push(last));
                assert(all[shorter.len() as int] == last);
                if shorter.contains(id) {
                    let i = choose|i: int| 0 <= i < shorter.len() && shorter[i] == id;
                    assert(all[i] == id);
                }
                if all.contains(id) && id != last {
                    let i = choose|i: int| 0 <= i < all.len() && all[i] == id;
                    assert(shorter[i] == id);
                }
            }
            assert(shorter.contains(id) <==> s.contains(id) && id < n - 1);
        }
        assert forall|i: int, j: int| 0 <= i < all.len() && 0 <= j < all.len() && i != j implies all[i] != all[j] by {
            assert(!shorter.contains(last));
        }
    }
}

} // verus!
