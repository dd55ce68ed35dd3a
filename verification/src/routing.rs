//! Routes through the known part of the network.

use crate::ids::NodeId;
use crate::packet::{reversed, NodeType};
use std::collections::{BTreeMap, BTreeSet, VecDeque};
use vstd::prelude::*;

verus! {

/// Whether the topology holds a link between two nodes, in either direction.
pub open spec fn linked(topology: Set<(NodeId, NodeId)>, a: NodeId, b: NodeId) -> bool {
    topology.contains((a, b)) || topology.contains((b, a))
}

/// What a route is looked for in: the known network, the nodes to keep clear
/// of, and the two ends.
pub struct RouteQuery {
    pub topology: Set<(NodeId, NodeId)>,
    pub node_types: Map<NodeId, NodeType>,
    pub excluded: Set<NodeId>,
    pub source: NodeId,
    pub target: NodeId,
}

impl RouteQuery {
    /// Whether a route may go on from `a` to `b`: they are linked, `b` is not
    /// excluded, and `b` is known to be a drone unless it is the target.
    pub open spec fn may_step(self, a: NodeId, b: NodeId) -> bool {
        &&& linked(self.topology, a, b)
        &&& !self.excluded.contains(b)
        &&& self.node_types.contains_key(b)
        &&& self.node_types[b] == NodeType::Drone || b == self.target
    }

    /// Whether `p` leaves the source and takes only permitted steps.
    pub open spec fn is_walk(self, p: Seq<NodeId>) -> bool {
        &&& p.len() > 0
        &&& p[0] == self.source
        &&& forall|i: int| 0 <= i < p.len() - 1 ==> self.may_step(#[trigger] p[i], p[i + 1])
    }

    /// Whether `p` leads from the source to the target.
    pub open spec fn is_route(self, p: Seq<NodeId>) -> bool {
        self.is_walk(p) && p.last() == self.target
    }

    /// Whether there is a route at all.
    pub open spec fn has_route(self) -> bool {
        exists|p: Seq<NodeId>| self.is_route(p)
    }

    /// Whether `p` is a route and no route has fewer hops.
    pub open spec fn is_shortest_route(self, p: Seq<NodeId>) -> bool {
        &&& self.is_route(p)
        &&& forall|q: Seq<NodeId>| #[trigger] self.is_route(q) ==> p.len() <= q.len()
    }
}

/// Bookkeeping of a breadth-first search that has found the walk `found[n]` to
/// each node `n` it has seen, has followed the links of the nodes in `done`, and
/// has the nodes of `queue` still to look at.
struct Search {
    found: Map<NodeId, Seq<NodeId>>,
    done: Set<NodeId>,
    queue: Seq<NodeId>,
}

/// Whether the predecessors spell out the walks that were found.
spec fn traced(found: Map<NodeId, Seq<NodeId>>, source: NodeId, predecessors: Map<NodeId, NodeId>) -> bool {
    &&& forall|n: NodeId| #[trigger] predecessors.contains_key(n) <==> found.contains_key(n) && n != source
    &&& forall|n: NodeId| #[trigger] predecessors.contains_key(n) ==> {
        &&& found.contains_key(predecessors[n])
        &&& found[n] == found[predecessors[n]].push(n)
    }
}

impl Search {
    spec fn seen(self, n: NodeId) -> bool {
        self.found.contains_key(n)
    }

    spec fn depth(self, n: NodeId) -> nat {
        self.found[n].len()
    }

    /// Each found walk is one, and the source is found as itself.
    spec fn walks(self, q: RouteQuery) -> bool {
        &&& self.seen(q.source)
        &&& self.found[q.source] == seq![q.source]
        &&& forall|n: NodeId| #[trigger] self.seen(n) ==> q.is_walk(self.found[n]) && self.found[n].last() == n
    }

    /// What has been seen is done or queued, and not both.
    spec fn partitioned(self) -> bool {
        &&& forall|n: NodeId| #[trigger] self.done.contains(n) ==> self.seen(n)
        &&& forall|i: int| 0 <= i < self.queue.len() ==> self.seen(#[trigger] self.queue[i]) && !self.done.contains(self.queue[i])
        &&& forall|n: NodeId| #[trigger] self.seen(n) ==> self.done.contains(n) || self.queue.contains(n)
        &&& self.queue.no_duplicates()
    }

    /// Every step from a done node leads to a node that was found no deeper than one
    /// step further on.
    spec fn followed(self, q: RouteQuery) -> bool {
        forall|a: NodeId, b: NodeId|
            #![trigger self.done.contains(a), self.seen(b)]
            #![trigger q.may_step(a, b)]
            self.done.contains(a) && q.may_step(a, b) ==> self.seen(b) && self.depth(b) <= self.depth(a) + 1
    }

    /// The queue goes by depth and spans at most two depths.
    spec fn layered(self) -> bool {
        &&& forall|i: int, j: int|
            0 <= i <= j < self.queue.len() ==> self.depth(#[trigger] self.queue[i]) <= self.depth(#[trigger] self.queue[j])
        &&& forall|i: int, j: int|
            0 <= i < self.queue.len() && 0 <= j < self.queue.len()
                ==> self.depth(#[trigger] self.queue[j]) <= self.depth(#[trigger] self.queue[i]) + 1
    }

    /// No done node lies deeper than a queued one.
    spec fn settled(self) -> bool {
        forall|n: NodeId, i: int|
            self.done.contains(n) && 0 <= i < self.queue.len()
                ==> #[trigger] self.depth(n) <= self.depth(#[trigger] self.queue[i])
    }

    spec fn inv(self, q: RouteQuery) -> bool {
        &&& self.walks(q)
        &&& self.partitioned()
        &&& self.followed(q)
        &&& self.layered()
        &&& self.settled()
        &&& !self.done.contains(q.target)
    }

    /// What holds while the links of `current`, which has just left the queue, are
    /// followed, and those to nodes below `n` have been.
    spec fn expanding(self, q: RouteQuery, current: NodeId, n: int) -> bool {
        &&& self.walks(q)
        &&& self.followed(q)
        &&& self.layered()
        &&& self.queue.no_duplicates()
        &&& !self.done.contains(q.target)
        &&& current != q.target
        &&& self.seen(current)
        &&& !self.done.contains(current)
        &&& !self.queue.contains(current)
        &&& forall|m: NodeId| #[trigger]
            self.done.contains(m) ==> self.seen(m) && self.depth(m) <= self.depth(current)
        &&& forall|i: int|
            0 <= i < self.queue.len() ==> {
                &&& self.seen(#[trigger] self.queue[i])
                &&& !self.done.contains(self.queue[i])
                &&& self.depth(current) <= self.depth(self.queue[i]) <= self.depth(current) + 1
            }
        &&& forall|m: NodeId| #[trigger]
            self.seen(m) ==> self.done.contains(m) || self.queue.contains(m) || m == current
        &&& forall|b: NodeId|
            b < n && #[trigger] q.may_step(current, b) ==> self.seen(b) && self.depth(b) <= self.depth(current) + 1
    }

    /// The search after `b` was found from `current`.
    spec fn discover(self, current: NodeId, b: NodeId) -> Search {
        Search {
            found: self.found.insert(b, self.found[current].push(b)),
            done: self.done,
            queue: self.queue.push(b),
        }
    }
}

/// Taking the head off the queue starts its expansion.
proof fn lemma_pop(s: Search, q: RouteQuery)
    requires
        s.inv(q),
        s.queue.len() > 0,
        s.queue[0] != q.target,
    ensures
        (Search { queue: s.queue.subrange(1, s.queue.len() as int), ..s }).expanding(q, s.queue[0], 0),
        !s.done.contains(s.queue[0]),
{
    let current = s.queue[0];
    let rest = s.queue.subrange(1, s.queue.len() as int);
    let t = Search { queue: rest, ..s };
    assert forall|i: int| 0 <= i < rest.len() implies #[trigger] rest[i] == s.queue[i + 1] by {}
    assert(forall|m: NodeId| #[trigger] t.seen(m) <==> s.seen(m));
    assert(forall|m: NodeId| #[trigger] t.depth(m) == s.depth(m));
    assert forall|m: NodeId| #[trigger] t.seen(m) implies t.done.contains(m) || t.queue.contains(m) || m == current by {
        assert(s.seen(m));
        if !s.done.contains(m) {
            let i = choose|i: int| 0 <= i < s.queue.len() && s.queue[i] == m;
            if i > 0 {
                assert(rest[i - 1] == m);
            }
        }
    }
    assert(t.walks(q));
    assert(t.followed(q));
    assert(t.layered());
    assert forall|i: int| 0 <= i < rest.len() implies {
        &&& t.seen(#[trigger] rest[i])
        &&& !t.done.contains(rest[i])
        &&& t.depth(current) <= t.depth(rest[i]) <= t.depth(current) + 1
    } by {
        assert(s.depth(s.queue[0]) <= s.depth(s.queue[i + 1]));
    }
    assert forall|m: NodeId| #[trigger] t.done.contains(m) implies t.seen(m) && t.depth(m) <= t.depth(current) by {
        assert(s.depth(m) <= s.depth(s.queue[0]));
    }
}

/// A new node goes to the end of the queue, one step deeper than where it was found from.
proof fn lemma_discover(s: Search, q: RouteQuery, predecessors: Map<NodeId, NodeId>, current: NodeId, b: NodeId)
    requires
        s.expanding(q, current, b as int),
        traced(s.found, q.source, predecessors),
        q.may_step(current, b),
        !s.seen(b),
    ensures
        s.discover(current, b).expanding(q, current, b + 1),
        traced(s.discover(current, b).found, q.source, predecessors.insert(b, current)),
{
    let t = s.discover(current, b);
    let walk = s.found[current].push(b);
    assert(s.seen(current));
    assert(q.is_walk(walk)) by {
        assert forall|i: int| 0 <= i < walk.len() - 1 implies q.may_step(#[trigger] walk[i], walk[i + 1]) by {
            if i < s.found[current].len() - 1 {
                assert(walk[i] == s.found[current][i]);
            }
        }
    }
    assert(forall|m: NodeId| #[trigger] t.seen(m) <==> s.seen(m) || m == b);
    assert(forall|m: NodeId| s.seen(m) ==> #[trigger] t.depth(m) == s.depth(m));
    assert(t.depth(b) == s.depth(current) + 1);
    assert(t.walks(q));
    assert forall|m: NodeId| #[trigger] t.seen(m) implies t.done.contains(m) || t.queue.contains(m) || m == current by {
        if m == b {
            assert(t.queue.last() == b);
        } else if s.queue.contains(m) {
            assert(s.seen(m));
            let i = choose|i: int| 0 <= i < s.queue.len() && s.queue[i] == m;
            assert(t.queue[i] == m);
        } else {
            assert(s.seen(m));
        }
    }
    assert forall|i: int| 0 <= i < t.queue.len() implies {
        &&& t.seen(#[trigger] t.queue[i])
        &&& !t.done.contains(t.queue[i])
        &&& t.depth(current) <= t.depth(t.queue[i]) <= t.depth(current) + 1
    } by {
        if i < s.queue.len() {
            assert(t.queue[i] == s.queue[i]);
        }
    }
    assert(t.queue.no_duplicates());
    assert(!t.queue.contains(current)) by {
        if t.queue.contains(current) {
            let i = choose|i: int| 0 <= i < t.queue.len() && t.queue[i] == current;
            if i < s.queue.len() {
                assert(s.queue[i] == current);
            }
        }
    }
    assert(t.layered()) by {
        assert forall|i: int, j: int| 0 <= i <= j < t.queue.len() implies t.depth(#[trigger] t.queue[i]) <= t.depth(
            #[trigger] t.queue[j],
        ) by {
            if j < s.queue.len() {
                assert(s.depth(s.queue[i]) <= s.depth(s.queue[j]));
            }
        }
    }
    assert(t.followed(q)) by {
        assert forall|x: NodeId, y: NodeId| t.done.contains(x) && #[trigger] q.may_step(x, y) implies t.seen(y) && t.depth(
            y,
        ) <= t.depth(x) + 1 by {
            assert(s.done.contains(x));
            assert(s.seen(x) && s.seen(y));
        }
    }
    let preds = predecessors.insert(b, current);
    assert forall|m: NodeId| #[trigger] preds.contains_key(m) <==> t.found.contains_key(m) && m != q.source by {
        assert(predecessors.contains_key(m) <==> s.found.contains_key(m) && m != q.source);
    }
    assert forall|m: NodeId| #[trigger] preds.contains_key(m) implies {
        &&& t.found.contains_key(preds[m])
        &&& t.found[m] == t.found[preds[m]].push(m)
    } by {
        if m != b {
            assert(predecessors.contains_key(m));
            assert(s.seen(m));
        }
    }
}

/// A node that is not new, or that may not be stepped to, changes nothing.
proof fn lemma_skip(s: Search, q: RouteQuery, current: NodeId, b: NodeId)
    requires
        s.expanding(q, current, b as int),
        q.may_step(current, b) ==> s.seen(b),
    ensures
        s.expanding(q, current, b + 1),
{
    if s.seen(b) {
        if s.queue.contains(b) {
            let i = choose|i: int| 0 <= i < s.queue.len() && s.queue[i] == b;
            assert(s.depth(s.queue[i]) <= s.depth(current) + 1);
        }
        assert(s.depth(b) <= s.depth(current) + 1);
    }
}

/// Once all its links are followed, the node is done.
proof fn lemma_finish(s: Search, q: RouteQuery, current: NodeId)
    requires
        s.expanding(q, current, 256),
    ensures
        (Search { done: s.done.insert(current), ..s }).inv(q),
{
    let t = Search { done: s.done.insert(current), ..s };
    assert(forall|m: NodeId| #[trigger] t.seen(m) <==> s.seen(m));
    assert(forall|m: NodeId| #[trigger] t.depth(m) == s.depth(m));
    assert(t.walks(q));
    assert(t.layered());
    assert(t.partitioned()) by {
        assert forall|i: int| 0 <= i < t.queue.len() implies t.seen(#[trigger] t.queue[i]) && !t.done.contains(
            t.queue[i],
        ) by {
            assert(s.seen(s.queue[i]));
            assert(s.queue.contains(s.queue[i]));
        }
        assert forall|m: NodeId| #[trigger] t.done.contains(m) implies t.seen(m) by {
            if m != current {
                assert(s.done.contains(m));
            }
        }
        assert forall|m: NodeId| #[trigger] t.seen(m) implies t.done.contains(m) || t.queue.contains(m) by {
            assert(s.seen(m));
        }
    }
    assert(t.followed(q)) by {
        assert forall|x: NodeId, y: NodeId| t.done.contains(x) && #[trigger] q.may_step(x, y) implies t.seen(y) && t.depth(
            y,
        ) <= t.depth(x) + 1 by {
            if x != current {
                assert(s.done.contains(x));
            }
        }
    }
    assert(t.settled()) by {
        assert forall|m: NodeId, i: int| t.done.contains(m) && 0 <= i < t.queue.len() implies #[trigger] t.depth(m)
            <= t.depth(#[trigger] t.queue[i]) by {
            if m != current {
                assert(s.done.contains(m));
            }
            assert(s.depth(current) <= s.depth(s.queue[i]));
        }
    }
}

/// A walk whose nodes are all shallower than the head of the queue stays among
/// the nodes that are done.
proof fn lemma_walk_is_found(s: Search, q: RouteQuery, p: Seq<NodeId>, i: int)
    requires
        s.walks(q),
        s.followed(q),
        q.is_walk(p),
        0 <= i < p.len(),
        forall|n: NodeId| #[trigger] s.seen(n) && s.depth(n) < p.len() ==> s.done.contains(n),
    ensures
        s.seen(p[i]),
        s.depth(p[i]) <= i + 1,
    decreases i,
{
    if i > 0 {
        lemma_walk_is_found(s, q, p, i - 1);
        assert(s.seen(p[i - 1]));
        assert(s.done.contains(p[i - 1]));
        assert(q.may_step(p[i - 1], p[i - 1 + 1]));
    }
}

/// When the target is at the head of the queue, the walk found to it is a
/// shortest route.
proof fn lemma_head_is_shortest(s: Search, q: RouteQuery)
    requires
        s.inv(q),
        s.queue.len() > 0,
        s.queue[0] == q.target,
    ensures
        q.is_shortest_route(s.found[q.target]),
{
    assert(s.seen(s.queue[0]));
    assert forall|p: Seq<NodeId>| #[trigger] q.is_route(p) implies s.found[q.target].len() <= p.len() by {
        if p.len() < s.depth(q.target) {
            assert forall|n: NodeId| #[trigger] s.seen(n) && s.depth(n) < p.len() implies s.done.contains(n) by {
                if !s.done.contains(n) {
                    let i = choose|i: int| 0 <= i < s.queue.len() && s.queue[i] == n;
                    assert(s.depth(s.queue[0]) <= s.depth(s.queue[i]));
                }
            }
            lemma_walk_is_found(s, q, p, p.len() - 1);
        }
    }
}

/// When the queue has run dry, there is no route.
proof fn lemma_exhausted(s: Search, q: RouteQuery)
    requires
        s.inv(q),
        s.queue.len() == 0,
    ensures
        !q.has_route(),
{
    if q.has_route() {
        let p = choose|p: Seq<NodeId>| q.is_route(p);
        assert forall|n: NodeId| #[trigger] s.seen(n) implies s.done.contains(n) by {
            assert(!s.queue.contains(n));
        }
        lemma_walk_is_found(s, q, p, p.len() - 1);
    }
}

/// A set of node identifiers below `n` has at most `n` members.
pub proof fn lemma_id_set_bound(s: Set<NodeId>, n: nat)
    requires
        n <= 256,
        forall|x: NodeId| #[trigger] s.contains(x) ==> x < n,
    ensures
        s.finite(),
        s.len() <= n,
    decreases n,
{
    if n == 0 {
        assert(s =~= Set::empty());
    } else {
        let x = (n - 1) as NodeId;
        lemma_id_set_bound(s.remove(x), (n - 1) as nat);
        if s.contains(x) {
            assert(s =~= s.remove(x).insert(x));
        } else {
            assert(s =~= s.remove(x));
        }
    }
}

/// Follows the predecessors back from the target and turns the walk round.
fn trace_back(
    predecessors: &BTreeMap<NodeId, NodeId>,
    source: NodeId,
    target: NodeId,
    Ghost(s): Ghost<Search>,
    Ghost(q): Ghost<RouteQuery>,
) -> (path: Vec<NodeId>)
    requires
        q.source == source,
        s.walks(q),
        traced(s.found, q.source, predecessors@),
        s.seen(target),
    ensures
        path@ == s.found[target],
{
    let mut path: Vec<NodeId> = Vec::new();
    let mut current: NodeId = target;
    loop
        invariant
            s.walks(q),
            traced(s.found, q.source, predecessors@),
            s.seen(current),
            s.found[target] == s.found[current] + path@.reverse(),
        ensures
            !predecessors@.contains_key(current),
        decreases s.depth(current),
    {
        let prev: NodeId = match predecessors.get(&current) {
            Some(prev) => *prev,
            None => {
                break;
            },
        };
        assert(predecessors@.contains_key(current));
        let ghost before = path@;
        path.push(current);
        proof {
            assert(path@.reverse() =~= seq![current] + before.reverse());
            assert(s.found[target] =~= s.found[prev] + path@.reverse());
        }
        current = prev;
    }
    assert(current == source);
    let ghost before = path@;
    path.push(source);
    assert(path@.reverse() =~= seq![source] + before.reverse());
    reversed(&path)
}

/// Looks for a shortest route from `source` to `target`, breadth first.
pub fn find_route(
    topology: &BTreeSet<(NodeId, NodeId)>,
    node_types: &BTreeMap<NodeId, NodeType>,
    excluded: &BTreeSet<NodeId>,
    source: NodeId,
    target: NodeId,
) -> (res: Option<Vec<NodeId>>)
    ensures
        ({
            let q = RouteQuery {
                topology: topology@,
                node_types: node_types@,
                excluded: excluded@,
                source,
                target,
            };
            match res {
                Some(path) => q.is_shortest_route(path@),
                None => !q.has_route(),
            }
        }),
{
    let ghost q = RouteQuery {
        topology: topology@,
        node_types: node_types@,
        excluded: excluded@,
        source,
        target,
    };
    let mut visited: BTreeSet<NodeId> = BTreeSet::new();
    let mut queue: VecDeque<NodeId> = VecDeque::new();
    let mut predecessors: BTreeMap<NodeId, NodeId> = BTreeMap::new();
    queue.push_back(source);
    visited.insert(source);
    let ghost mut s = Search {
        found: map![source => seq![source]],
        done: Set::empty(),
        queue: queue@,
    };
    assert(s.queue[0] == source);
    loop
        invariant
            q == (RouteQuery {
                topology: topology@,
                node_types: node_types@,
                excluded: excluded@,
                source,
                target,
            }),
            s.inv(q),
            traced(s.found, q.source, predecessors@),
            s.queue == queue@,
            s.found.dom() == visited@,
        ensures
            s.queue.len() == 0,
        decreases 256 - s.done.len(),
    {
        let current: NodeId = match queue.pop_front() {
            Some(current) => current,
            None => {
                break;
            },
        };
        if current == target {
            proof {
                lemma_head_is_shortest(s, q);
            }
            return Some(trace_back(&predecessors, source, target, Ghost(s), Ghost(q)));
        }
        let ghost done = s.done;
        proof {
            lemma_id_set_bound(done, 256);
            lemma_id_set_bound(done.insert(current), 256);
            lemma_pop(s, q);
            s = Search { queue: queue@, ..s };
        }
        let mut n: u16 = 0;
        while n < 256
            invariant
                n <= 256,
                q == (RouteQuery {
                    topology: topology@,
                    node_types: node_types@,
                    excluded: excluded@,
                    source,
                    target,
                }),
                s.expanding(q, current, n as int),
                traced(s.found, q.source, predecessors@),
                s.queue == queue@,
                s.found.dom() == visited@,
                s.done == done,
            decreases 256 - n,
        {
            let b: NodeId = n as NodeId;
            let ghost before = s;
            if (topology.contains(&(current, b)) || topology.contains(&(b, current))) && !excluded.contains(&b)
                && !visited.contains(&b) {
                if let Some(node_type) = node_types.get(&b) {
                    if *node_type == NodeType::Drone || b == target {
                        visited.insert(b);
                        queue.push_back(b);
                        predecessors.insert(b, current);
                        proof {
                            lemma_discover(s, q, predecessors@.remove(b), current, b);
                            s = s.discover(current, b);
                            assert(predecessors@.remove(b).insert(b, current) == predecessors@);
                        }
                    }
                }
            }
            proof {
                if s == before {
                    lemma_skip(s, q, current, b);
                }
            }
            n = n + 1;
        }
        proof {
            lemma_finish(s, q, current);
            s = Search { done: s.done.insert(current), ..s };
        }
    }
    proof {
        lemma_exhausted(s, q);
    }
    None
}

} // verus!
