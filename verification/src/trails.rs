//! All the ways through the known network that pass no node twice.

use crate::ids::NodeId;
use crate::packet::{copy_ids, NodeType};
use crate::routing::{lemma_id_set_bound, linked};
use std::collections::{BTreeMap, BTreeSet};
use vstd::prelude::*;

verus! {

/// What trails are looked for in: the known network and the two ends.
pub struct TrailQuery {
    pub topology: Set<(NodeId, NodeId)>,
    pub node_types: Map<NodeId, NodeType>,
    pub source: NodeId,
    pub target: NodeId,
}

impl TrailQuery {
    /// Whether a trail may go on from `a` to `b`: they are linked, and `b` is of a
    /// known type, which is not that of a client unless `b` is the target.
    pub open spec fn may_step(self, a: NodeId, b: NodeId) -> bool {
        &&& linked(self.topology, a, b)
        &&& self.node_types.contains_key(b)
        &&& self.node_types[b] != NodeType::Client || b == self.target
    }

    /// Whether `p` leaves the source, takes only permitted steps and passes no
    /// node twice.
    pub open spec fn is_trail(self, p: Seq<NodeId>) -> bool {
        &&& p.len() > 0
        &&& p[0] == self.source
        &&& p.no_duplicates()
        &&& forall|i: int| 0 <= i < p.len() - 1 ==> self.may_step(#[trigger] p[i], p[i + 1])
    }

    /// Whether `p` is a trail that ends at the target.
    pub open spec fn is_full_trail(self, p: Seq<NodeId>) -> bool {
        self.is_trail(p) && p.last() == self.target
    }

    /// Whether `paths` lists each full trail once, and nothing else.
    pub open spec fn are_all_trails(self, paths: Seq<Seq<NodeId>>) -> bool {
        &&& paths.no_duplicates()
        &&& forall|p: Seq<NodeId>| #[trigger] paths.contains(p) <==> self.is_full_trail(p)
    }

    /// Whether `p` begins with `start`, goes on by permitted steps only, to nodes that are
    /// not on it yet, and ends at the target.
    pub open spec fn goes_on(self, start: Seq<NodeId>, p: Seq<NodeId>) -> bool {
        &&& start.is_prefix_of(p)
        &&& p.last() == self.target
        &&& forall|i: int| start.len() <= i + 1 < p.len() ==> self.may_step(#[trigger] p[i], p[i + 1])
        &&& forall|i: int, j: int| 0 <= i < j < p.len() && start.len() <= j ==> p[i] != p[j]
    }

    /// Whether `after` is `before` with each path to the target that goes on from `start`
    /// added to it once, and nothing else.
    pub open spec fn trails_appended(
        self,
        start: Seq<NodeId>,
        before: Seq<Seq<NodeId>>,
        after: Seq<Seq<NodeId>>,
    ) -> bool {
        let added = after.skip(before.len() as int);
        &&& before.len() <= after.len()
        &&& after.take(before.len() as int) == before
        &&& added.no_duplicates()
        &&& forall|p: Seq<NodeId>| #[trigger] added.contains(p) <==> self.goes_on(start, p)
    }

    /// Whether `added` lists each of the paths that `extends` admits once, and nothing
    /// else.
    #[verifier::opaque]
    spec fn lists(self, start: Seq<NodeId>, bound: int, added: Seq<Seq<NodeId>>) -> bool {
        &&& added.no_duplicates()
        &&& forall|p: Seq<NodeId>| #[trigger] added.contains(p) <==> self.extends(start, bound, p)
    }

    /// The paths to the target that go on from `start`, and that to a node below `bound`
    /// where they go on at all.
    spec fn extends(self, start: Seq<NodeId>, bound: int, p: Seq<NodeId>) -> bool {
        &&& self.goes_on(start, p)
        &&& p.len() > start.len() ==> p[start.len() as int] < bound
    }
}

/// The paths of a list, by their contents.
pub open spec fn path_views(paths: Seq<Vec<NodeId>>) -> Seq<Seq<NodeId>> {
    paths.map_values(|p: Vec<NodeId>| p@)
}

/// The full trails are the paths to the target that go on from the source alone.
pub proof fn lemma_full_trail(q: TrailQuery, p: Seq<NodeId>)
    ensures
        q.is_full_trail(p) <==> q.goes_on(seq![q.source], p),
{
    let start = seq![q.source];
    if q.is_full_trail(p) {
        assert(start =~= p.take(1));
    }
    if q.goes_on(start, p) {
        assert(p[0] == start[0]);
        assert(p.no_duplicates());
    }
}

/// A path that has reached the target goes no further.
proof fn lemma_ends_at_target(q: TrailQuery, start: Seq<NodeId>, p: Seq<NodeId>)
    requires
        start.len() > 0,
        start.last() == q.target,
    ensures
        q.goes_on(start, p) <==> p == start,
{
    if q.goes_on(start, p) {
        assert(p[start.len() - 1] == start[start.len() - 1]);
        assert(p[p.len() - 1] == q.target);
        assert(p =~= start);
    }
    assert(start =~= start.take(start.len() as int));
}

/// Where a path goes on that has not reached the target: to a node that it may enter and
/// has not passed.
proof fn lemma_next_node(q: TrailQuery, start: Seq<NodeId>, p: Seq<NodeId>)
    requires
        start.len() > 0,
        start.last() != q.target,
        q.goes_on(start, p),
    ensures
        p.len() > start.len(),
        q.may_step(start.last(), p[start.len() as int]),
        !start.contains(p[start.len() as int]),
        q.goes_on(start.push(p[start.len() as int]), p),
{
    let k = start.len() as int;
    assert(forall|i: int| 0 <= i < k ==> #[trigger] start[i] == p[i]);
    if p.len() == start.len() {
        assert(p[k - 1] == start[k - 1]);
    }
    assert(q.may_step(p[k - 1], p[k - 1 + 1]));
    if start.contains(p[k]) {
        let i = choose|i: int| 0 <= i < start.len() && start[i] == p[k];
        assert(p[i] == p[k]);
    }
    assert(start.push(p[k]) =~= p.take(k + 1));
}

/// A path that goes on from a longer one goes on from the shorter one.
proof fn lemma_shorter_start(q: TrailQuery, start: Seq<NodeId>, b: NodeId, p: Seq<NodeId>)
    requires
        start.len() > 0,
        q.may_step(start.last(), b),
        !start.contains(b),
        q.goes_on(start.push(b), p),
    ensures
        q.goes_on(start, p),
        p.len() > start.len(),
        p[start.len() as int] == b,
{
    let k = start.len() as int;
    let longer = start.push(b);
    assert(forall|i: int| 0 <= i <= k ==> #[trigger] longer[i] == p[i]);
    assert(p[k] == longer[k]);
    assert(start =~= p.take(k));
    assert forall|i: int| k <= i + 1 < p.len() implies q.may_step(#[trigger] p[i], p[i + 1]) by {
        if i + 1 == k {
            assert(p[i] == longer[i]);
        }
    }
    assert forall|i: int, j: int| 0 <= i < j < p.len() && k <= j implies p[i] != p[j] by {
        if j == k {
            assert(p[i] == longer[i]);
            assert(start.contains(start[i]));
        }
    }
}

/// The paths through `b` come after those through the nodes below it.
proof fn lemma_next_trails(
    q: TrailQuery,
    start: Seq<NodeId>,
    b: NodeId,
    before: Seq<Seq<NodeId>>,
    added: Seq<Seq<NodeId>>,
    after: Seq<Seq<NodeId>>,
) -> (more: Seq<Seq<NodeId>>)
    requires
        start.len() > 0,
        start.last() != q.target,
        q.may_step(start.last(), b),
        !start.contains(b),
        q.lists(start, b as int, added),
        q.trails_appended(start.push(b), before + added, after),
    ensures
        after == before + (added + more),
        q.lists(start, b + 1, added + more),
{
    reveal(TrailQuery::lists);
    let more = after.skip((before + added).len() as int);
    assert(after =~= before + (added + more)) by {
        assert(after.take((before + added).len() as int) == before + added);
        assert(after =~= after.take((before + added).len() as int) + more);
    }
    let all = added + more;
    let k = start.len() as int;
    assert forall|p: Seq<NodeId>| #[trigger] more.contains(p) implies q.goes_on(start, p) && p.len() > k && p[k]
        == b by {
        lemma_shorter_start(q, start, b, p);
    }
    assert forall|p: Seq<NodeId>| #[trigger] added.contains(p) implies p.len() > k && p[k] < b by {
        lemma_next_node(q, start, p);
    }
    assert forall|p: Seq<NodeId>| #[trigger] all.contains(p) <==> added.contains(p) || more.contains(p) by {
        if added.contains(p) {
            let i = choose|i: int| 0 <= i < added.len() && added[i] == p;
            assert(all[i] == p);
        }
        if more.contains(p) {
            let i = choose|i: int| 0 <= i < more.len() && more[i] == p;
            assert(all[added.len() + i] == p);
        }
    }
    assert forall|p: Seq<NodeId>| #[trigger] all.contains(p) <==> q.extends(start, b + 1, p) by {
        assert(all.contains(p) <==> added.contains(p) || more.contains(p));
        if q.goes_on(start, p) {
            lemma_next_node(q, start, p);
        }
    }
    assert forall|i: int, j: int| 0 <= i < all.len() && 0 <= j < all.len() && i != j implies all[i] != all[j] by {
        if i < added.len() && j >= added.len() {
            assert(added.contains(added[i]));
            assert(more.contains(more[j - added.len()]));
        } else if j < added.len() && i >= added.len() {
            assert(added.contains(added[j]));
            assert(more.contains(more[i - added.len()]));
        }
    }
    more
}

/// There are no paths through a node that may not be entered.
proof fn lemma_no_trails(q: TrailQuery, start: Seq<NodeId>, b: NodeId, added: Seq<Seq<NodeId>>)
    requires
        start.len() > 0,
        start.last() != q.target,
        q.lists(start, b as int, added),
        !q.may_step(start.last(), b) || start.contains(b),
    ensures
        q.lists(start, b + 1, added),
{
    reveal(TrailQuery::lists);
    assert forall|p: Seq<NodeId>| #[trigger] added.contains(p) <==> q.extends(start, b + 1, p) by {
        assert(added.contains(p) <==> q.extends(start, b as int, p));
        if q.extends(start, b + 1, p) {
            lemma_next_node(q, start, p);
        }
    }
}

/// Once every next node was tried, all the paths are listed.
proof fn lemma_all_trails(q: TrailQuery, start: Seq<NodeId>, before: Seq<Seq<NodeId>>, added: Seq<Seq<NodeId>>)
    requires
        q.lists(start, 256, added),
    ensures
        q.trails_appended(start, before, before + added),
{
    reveal(TrailQuery::lists);
    let after = before + added;
    assert(after.take(before.len() as int) =~= before);
    assert(after.skip(before.len() as int) =~= added);
    assert forall|p: Seq<NodeId>| #[trigger] added.contains(p) <==> q.goes_on(start, p) by {
        assert(added.contains(p) <==> q.extends(start, 256, p));
    }
}

/// A path that has reached the target is the only one that goes on from it.
proof fn lemma_only_trail(q: TrailQuery, start: Seq<NodeId>, before: Seq<Seq<NodeId>>)
    requires
        start.len() > 0,
        start.last() == q.target,
    ensures
        q.trails_appended(start, before, before.push(start)),
{
    let after = before.push(start);
    let added = seq![start];
    assert(after.take(before.len() as int) =~= before);
    assert(after.skip(before.len() as int) =~= added);
    assert forall|p: Seq<NodeId>| #[trigger] added.contains(p) <==> q.goes_on(start, p) by {
        lemma_ends_at_target(q, start, p);
        assert(added[0] == start);
    }
}

/// A path with a node that it has not passed yet passes one node more.
proof fn lemma_longer_path(start: Seq<NodeId>, b: NodeId)
    requires
        !start.contains(b),
    ensures
        start.to_set().len() < start.push(b).to_set().len() <= 256,
{
    let longer = start.push(b);
    assert forall|x: NodeId| #[trigger] longer.to_set().contains(x) <==> start.to_set().insert(b).contains(x) by {
        if start.contains(x) {
            let i = choose|i: int| 0 <= i < start.len() && start[i] == x;
            assert(longer[i] == x);
        }
        assert(longer[start.len() as int] == b);
    }
    assert(longer.to_set() =~= start.to_set().insert(b));
    lemma_id_set_bound(start.to_set(), 256);
    lemma_id_set_bound(longer.to_set(), 256);
}

/// Appends to `all_paths` each path to the target that goes on from `current_path` and
/// passes no further node twice.
pub fn find_paths_recursive(
    topology: &BTreeSet<(NodeId, NodeId)>,
    node_types: &BTreeMap<NodeId, NodeType>,
    target: NodeId,
    current_path: &mut Vec<NodeId>,
    all_paths: &mut Vec<Vec<NodeId>>,
)
    requires
        old(current_path)@.len() > 0,
    ensures
        final(current_path)@ == old(current_path)@,
        (TrailQuery {
            topology: topology@,
            node_types: node_types@,
            source: old(current_path)@[0],
            target,
        }).trails_appended(old(current_path)@, path_views(old(all_paths)@), path_views(final(all_paths)@)),
    decreases 256 - old(current_path)@.to_set().len(),
{
    let ghost q = TrailQuery {
        topology: topology@,
        node_types: node_types@,
        source: current_path@[0],
        target,
    };
    let ghost start = current_path@;
    let ghost before = path_views(all_paths@);
    let last: NodeId = current_path[current_path.len() - 1];
    if last == target {
        all_paths.push(copy_ids(current_path));
        proof {
            assert(path_views(all_paths@) =~= before.push(start));
            lemma_only_trail(q, start, before);
        }
        return;
    }
    let ghost mut added: Seq<Seq<NodeId>> = Seq::empty();
    assert(q.lists(start, 0, added)) by {
        reveal(TrailQuery::lists);
        assert forall|p: Seq<NodeId>| #[trigger] added.contains(p) <==> q.extends(start, 0, p) by {
            if q.extends(start, 0, p) {
                lemma_next_node(q, start, p);
            }
        }
    }
    let mut n: u16 = 0;
    while n < 256
        invariant
            n <= 256,
            q == (TrailQuery { topology: topology@, node_types: node_types@, source: start[0], target }),
            start.len() > 0,
            start == old(current_path)@,
            last == start.last(),
            last != target,
            current_path@ == start,
            path_views(all_paths@) == before + added,
            q.lists(start, n as int, added),
        decreases 256 - n,
    {
        let b: NodeId = n as NodeId;
        let linked_to: bool = topology.contains(&(last, b)) || topology.contains(&(b, last));
        let admitted: bool = match node_types.get(&b) {
            Some(node_type) => *node_type != NodeType::Client || b == target,
            None => false,
        };
        assert(q.may_step(last, b) <==> linked_to && admitted);
        if linked_to && admitted && !holds(current_path, b) {
            proof {
                lemma_longer_path(start, b);
            }
            current_path.push(b);
            find_paths_recursive(topology, node_types, target, current_path, all_paths);
            current_path.pop();
            proof {
                assert(current_path@ =~= start);
                let more = lemma_next_trails(q, start, b, before, added, path_views(all_paths@));
                added = added + more;
            }
        } else {
            proof {
                lemma_no_trails(q, start, b, added);
            }
        }
        n = n + 1;
    }
    proof {
        lemma_all_trails(q, start, before, added);
    }
}

/// Whether a path passes a node.
fn holds(path: &Vec<NodeId>, id: NodeId) -> (res: bool)
    ensures
        res == path@.contains(id),
{
    for i in 0..path.len()
        invariant
            forall|j: int| 0 <= j < i ==> path@[j] != id,
    {
        if path[i] == id {
            return true;
        }
    }
    false
}

} // verus!
