//! Depth-first traversal of a graph given by adjacency lists, and the
//! post-order in which it finishes the nodes.

use vstd::prelude::*;

verus! {

/// The state of a traversal: which nodes have been entered, and the nodes
/// that have been finished, in the order in which they were.
pub struct Traversal {
    pub seen: Seq<bool>,
    pub order: Seq<usize>,
}

/// The number of nodes that have not been entered.
pub open spec fn unseen(seen: Seq<bool>) -> nat
    decreases seen.len(),
{
    if seen.len() == 0 {
        0
    } else {
        unseen(seen.drop_last()) + if seen.last() {
            0nat
        } else {
            1nat
        }
    }
}

/// Entering a node that has not been entered leaves one node less to enter.
pub proof fn lemma_unseen_mark(seen: Seq<bool>, node: int)
    requires
        0 <= node < seen.len(),
        !seen[node],
    ensures
        unseen(seen.update(node, true)) + 1 == unseen(seen),
    decreases seen.len(),
{
    let marked = seen.update(node, true);
    if node == seen.len() - 1 {
        assert(marked.drop_last() =~= seen.drop_last());
    } else {
        assert(marked.drop_last() =~= seen.drop_last().update(node, true));
        lemma_unseen_mark(seen.drop_last(), node);
    }
}

/// Every adjacency list names nodes of the graph only.
pub open spec fn is_graph(adj: Seq<Seq<usize>>) -> bool {
    forall|i: int, k: int|
        0 <= i < adj.len() && 0 <= k < adj[i].len() ==> (#[trigger] adj[i][k]) < adj.len()
}

impl Traversal {
    /// A traversal of a graph of `nodes` nodes that has entered none.
    pub open spec fn start(nodes: nat) -> Traversal {
        Traversal { seen: Seq::new(nodes, |i: int| false), order: Seq::empty() }
    }

    /// Whether `node` has been entered.
    pub open spec fn entered(self, node: usize) -> bool {
        node < self.seen.len() && self.seen[node as int]
    }

    /// Visits `node`: a node that has been entered before is left alone; one
    /// that has not is entered, then its neighbours are visited in the order
    /// of its adjacency list, then it is finished.
    ///
    /// The comparison of the numbers of nodes not entered always holds
    /// ([`lemma_unseen_mark`]); it is there to show that the recursion ends.
    pub open spec fn visit(self, adj: Seq<Seq<usize>>, node: usize) -> Traversal
        decreases unseen(self.seen), 0nat, 0nat,
    {
        if node < self.seen.len() && node < adj.len() && !self.seen[node as int] {
            let entered = Traversal { seen: self.seen.update(node as int, true), order: self.order };
            if unseen(entered.seen) < unseen(self.seen) {
                let after = entered.visit_all(adj, adj[node as int], 0);
                Traversal { seen: after.seen, order: after.order.push(node) }
            } else {
                self
            }
        } else {
            self
        }
    }

    /// Visits `nodes[from..]` one after the other.
    ///
    /// The comparison of the numbers of nodes not entered always holds
    /// ([`lemma_visit_enters`]); it is there to show that the recursion
    /// ends.
    pub open spec fn visit_all(self, adj: Seq<Seq<usize>>, nodes: Seq<usize>, from: int) -> Traversal
        decreases unseen(self.seen), 1nat, nodes.len() - from,
    {
        if 0 <= from < nodes.len() {
            let after = self.visit(adj, nodes[from]);
            if unseen(after.seen) <= unseen(self.seen) {
                after.visit_all(adj, nodes, from + 1)
            } else {
                after
            }
        } else {
            self
        }
    }

    /// The nodes entered and not finished are exactly `pending`, and no node
    /// is finished twice.
    pub open spec fn consistent(self, pending: Set<usize>) -> bool {
        &&& self.order.no_duplicates()
        &&& forall|k: int| 0 <= k < self.order.len() ==> (#[trigger] self.order[k]) < self.seen.len()
        &&& forall|k: int| 0 <= k < self.order.len() ==> !pending.contains(#[trigger] self.order[k])
        &&& forall|node: usize|
            node < self.seen.len() ==> (#[trigger] self.entered(node) <==> (self.order.contains(
                node,
            ) || pending.contains(node)))
    }

    /// A later state of the same traversal: the nodes are the same, what
    /// was entered stays entered, what was finished stays finished in its
    /// place, and no more nodes are left to enter than before.
    pub open spec fn continues(self, earlier: Traversal) -> bool {
        &&& self.seen.len() == earlier.seen.len()
        &&& unseen(self.seen) <= unseen(earlier.seen)
        &&& forall|node: usize| #[trigger] earlier.entered(node) ==> self.entered(node)
        &&& earlier.order.len() <= self.order.len()
        &&& forall|k: int| 0 <= k < earlier.order.len() ==> #[trigger] self.order[k] == earlier.order[k]
    }
}

/// A visit continues the traversal and keeps it consistent, and afterwards
/// the node visited has been entered.
pub proof fn lemma_visit_enters(
    state: Traversal,
    adj: Seq<Seq<usize>>,
    node: usize,
    pending: Set<usize>,
)
    requires
        is_graph(adj),
        state.seen.len() == adj.len(),
        node < adj.len(),
        state.consistent(pending),
    ensures
        state.visit(adj, node).continues(state),
        state.visit(adj, node).consistent(pending),
        state.visit(adj, node).entered(node),
        !state.entered(node) ==> state.visit(adj, node).order.len() > state.order.len()
            && state.visit(adj, node).order.last() == node,
    decreases unseen(state.seen), 0nat, 0nat,
{
    if !state.seen[node as int] {
        let entered = Traversal { seen: state.seen.update(node as int, true), order: state.order };
        lemma_unseen_mark(state.seen, node as int);
        assert(state.entered(node) <==> (state.order.contains(node) || pending.contains(node)));
        assert(entered.consistent(pending.insert(node))) by {
            assert forall|other: usize| other < entered.seen.len() implies (
            #[trigger] entered.entered(other) <==> (entered.order.contains(other)
                || pending.insert(node).contains(other))) by {
                assert(state.entered(other) <==> (state.order.contains(other) || pending.contains(
                    other,
                )));
            }
        }
        assert forall|k: int| 0 <= k < adj[node as int].len() implies (
        #[trigger] adj[node as int][k]) < adj.len() by {}
        lemma_visit_all_enters(entered, adj, adj[node as int], 0, pending.insert(node));
        let after = entered.visit_all(adj, adj[node as int], 0);
        let done = state.visit(adj, node);
        assert(done.order == after.order.push(node));
        assert(entered.entered(node));
        assert(after.entered(node));
        assert(!after.order.contains(node)) by {
            if after.order.contains(node) {
                let k = choose|k: int| 0 <= k < after.order.len() && after.order[k] == node;
                assert(!pending.insert(node).contains(after.order[k]));
            }
        }
        crate::text::lemma_push_unique(after.order, node);
        assert(done.order == crate::text::push_unique(after.order, node));
        assert(done.order.last() == node);
        assert(done.continues(state)) by {
            assert forall|other: usize| #[trigger] state.entered(other) implies done.entered(
                other,
            ) by {
                assert(entered.entered(other));
                assert(after.entered(other));
            }
        }
        assert(done.consistent(pending)) by {
            assert forall|k: int| 0 <= k < done.order.len() implies !pending.contains(
                #[trigger] done.order[k],
            ) by {
                if k < after.order.len() {
                    assert(!pending.insert(node).contains(after.order[k]));
                }
            }
            assert forall|other: usize| other < done.seen.len() implies (
            #[trigger] done.entered(other) <==> (done.order.contains(other) || pending.contains(
                other,
            ))) by {
                assert(after.entered(other) <==> (after.order.contains(other) || pending.insert(
                    node,
                ).contains(other)));
            }
        }
    }
}

/// Visiting a list of nodes continues the traversal and keeps it
/// consistent, and afterwards each node of the list has been entered.
pub proof fn lemma_visit_all_enters(
    state: Traversal,
    adj: Seq<Seq<usize>>,
    nodes: Seq<usize>,
    from: int,
    pending: Set<usize>,
)
    requires
        is_graph(adj),
        state.seen.len() == adj.len(),
        forall|k: int| 0 <= k < nodes.len() ==> (#[trigger] nodes[k]) < adj.len(),
        0 <= from <= nodes.len(),
        state.consistent(pending),
    ensures
        state.visit_all(adj, nodes, from).continues(state),
        state.visit_all(adj, nodes, from).consistent(pending),
        forall|k: int|
            from <= k < nodes.len() ==> state.visit_all(adj, nodes, from).entered(
                #[trigger] nodes[k],
            ),
    decreases unseen(state.seen), 1nat, nodes.len() - from,
{
    if from < nodes.len() {
        lemma_visit_enters(state, adj, nodes[from], pending);
        let after = state.visit(adj, nodes[from]);
        lemma_visit_all_enters(after, adj, nodes, from + 1, pending);
        let done = after.visit_all(adj, nodes, from + 1);
        assert(done.continues(state)) by {
            assert forall|other: usize| #[trigger] state.entered(other) implies done.entered(
                other,
            ) by {
                assert(after.entered(other));
            }
        }
        assert forall|k: int| from <= k < nodes.len() implies done.entered(#[trigger] nodes[k]) by {
            if k == from {
                assert(after.entered(nodes[from]));
            }
        }
    }
}

/// The post-order of the nodes that can be reached from `roots`, the roots
/// taken in order and the neighbours of a node in the order of its
/// adjacency list.
pub open spec fn post_order_spec(adj: Seq<Seq<usize>>, roots: Seq<usize>) -> Seq<usize> {
    Traversal::start(adj.len()).visit_all(adj, roots, 0).order
}

/// A post-order names no node twice, names nodes of the graph only, and
/// names every root.
pub proof fn lemma_post_order_distinct(adj: Seq<Seq<usize>>, roots: Seq<usize>)
    requires
        is_graph(adj),
        forall|k: int| 0 <= k < roots.len() ==> (#[trigger] roots[k]) < adj.len(),
    ensures
        post_order_spec(adj, roots).no_duplicates(),
        forall|k: int|
            0 <= k < post_order_spec(adj, roots).len() ==> (#[trigger] post_order_spec(
                adj,
                roots,
            )[k]) < adj.len(),
        forall|k: int|
            0 <= k < roots.len() ==> post_order_spec(adj, roots).contains(#[trigger] roots[k]),
        post_order_spec(adj, roots).len() <= adj.len(),
{
    let start = Traversal::start(adj.len());
    assert(start.consistent(Set::empty()));
    lemma_visit_all_enters(start, adj, roots, 0, Set::empty());
    let done = start.visit_all(adj, roots, 0);
    assert forall|k: int| 0 <= k < roots.len() implies done.order.contains(
        #[trigger] roots[k],
    ) by {
        assert(done.entered(roots[k]));
    }
    lemma_indices_bounded(done.order, adj.len());
}

/// Distinct numbers below `bound` are at most `bound` many.
pub proof fn lemma_indices_bounded(indices: Seq<usize>, bound: nat)
    requires
        indices.no_duplicates(),
        forall|k: int| 0 <= k < indices.len() ==> (#[trigger] indices[k]) < bound,
    ensures
        indices.len() <= bound,
{
    let below = Set::new(|i: int| 0 <= i < bound);
    vstd::set_lib::lemma_int_range(0, bound as int);
    assert(below =~= vstd::set_lib::set_int_range(0, bound as int));
    let ints = indices.map_values(|i: usize| i as int);
    assert(ints.no_duplicates()) by {
        assert forall|a: int, b: int| 0 <= a < ints.len() && 0 <= b < ints.len() && a
            != b implies ints[a] != ints[b] by {
            assert(indices[a] != indices[b]);
        }
    }
    ints.unique_seq_to_set();
    assert(ints.to_set().subset_of(below)) by {
        assert forall|i: int| ints.to_set().contains(i) implies below.contains(i) by {
            let k = choose|k: int| 0 <= k < ints.len() && ints[k] == i;
            assert(indices[k] < bound);
        }
    }
    vstd::set_lib::lemma_len_subset(ints.to_set(), below);
}

/// The adjacency list of `from` names `to`.
pub open spec fn has_edge(adj: Seq<Seq<usize>>, from: usize, to: usize) -> bool {
    from < adj.len() && adj[from as int].contains(to)
}

/// A non-empty sequence of nodes with an edge from each to the next.
pub open spec fn is_walk(adj: Seq<Seq<usize>>, walk: Seq<usize>) -> bool {
    walk.len() > 0 && forall|i: int|
        0 <= i < walk.len() - 1 ==> has_edge(adj, #[trigger] walk[i], walk[i + 1])
}

/// There is a walk from `from` to `to`; every node leads to itself.
pub open spec fn leads_to(adj: Seq<Seq<usize>>, from: usize, to: usize) -> bool {
    exists|walk: Seq<usize>| #[trigger] is_walk(adj, walk) && walk.first() == from && walk.last() == to
}

pub proof fn lemma_leads_to_itself(adj: Seq<Seq<usize>>, node: usize)
    ensures
        leads_to(adj, node, node),
{
    let walk = seq![node];
    assert(is_walk(adj, walk) && walk.first() == node && walk.last() == node);
}

/// An edge followed by a walk is a walk.
pub proof fn lemma_edge_then_walk(adj: Seq<Seq<usize>>, from: usize, via: usize, to: usize)
    requires
        has_edge(adj, from, via),
        leads_to(adj, via, to),
    ensures
        leads_to(adj, from, to),
{
    let rest = choose|walk: Seq<usize>| #[trigger]
        is_walk(adj, walk) && walk.first() == via && walk.last() == to;
    let walk = seq![from] + rest;
    assert forall|i: int| 0 <= i < walk.len() - 1 implies has_edge(
        adj,
        #[trigger] walk[i],
        walk[i + 1],
    ) by {
        if i > 0 {
            assert(walk[i] == rest[i - 1]);
            assert(walk[i + 1] == rest[i - 1 + 1]);
            assert(has_edge(adj, rest[i - 1], rest[i - 1 + 1]));
        } else {
            assert(walk[1] == rest[0]);
        }
    }
    assert(is_walk(adj, walk) && walk.first() == from && walk.last() == to);
}

impl Traversal {
    /// `node` was finished before the node at place `place`.
    pub open spec fn finished_before(self, node: usize, place: int) -> bool {
        exists|j: int| 0 <= j < place && j < self.order.len() && #[trigger] self.order[j] == node
    }

    /// What holds of the node finished at place `place` and each of its
    /// neighbours: the neighbour has been entered; and it was finished
    /// before the node, or it is one of `pending`, or it leads back to the
    /// node.
    pub open spec fn settled(self, adj: Seq<Seq<usize>>, place: int, pending: Set<usize>) -> bool {
        forall|m: int|
            0 <= m < adj[self.order[place] as int].len() ==> {
                let neighbour = #[trigger] adj[self.order[place] as int][m];
                &&& self.entered(neighbour)
                &&& (self.finished_before(neighbour, place) || pending.contains(neighbour)
                    || leads_to(adj, neighbour, self.order[place]))
            }
    }
}

/// What is settled stays settled as the traversal goes on.
pub proof fn lemma_settled_stays(
    earlier: Traversal,
    later: Traversal,
    adj: Seq<Seq<usize>>,
    place: int,
    pending: Set<usize>,
    wider: Set<usize>,
    back: usize,
)
    requires
        later.continues(earlier),
        0 <= place < earlier.order.len(),
        earlier.settled(adj, place, pending),
        forall|node: usize| pending.contains(node) ==> wider.contains(node) || node == back,
        leads_to(adj, back, earlier.order[place]) || !pending.contains(back) || wider.contains(
            back,
        ),
    ensures
        later.settled(adj, place, wider),
{
    assert(later.order[place] == earlier.order[place]);
    assert forall|m: int| 0 <= m < adj[later.order[place] as int].len() implies {
        let neighbour = #[trigger] adj[later.order[place] as int][m];
        &&& later.entered(neighbour)
        &&& (later.finished_before(neighbour, place) || wider.contains(neighbour) || leads_to(
            adj,
            neighbour,
            later.order[place],
        ))
    } by {
        let neighbour = adj[earlier.order[place] as int][m];
        assert(earlier.entered(neighbour));
        if earlier.finished_before(neighbour, place) {
            let j = choose|j: int|
                0 <= j < place && j < earlier.order.len() && #[trigger] earlier.order[j]
                    == neighbour;
            assert(later.order[j] == neighbour);
        }
    }
}

/// What a visit of a node that has not been entered adds to the order:
/// nodes that the visited node leads to, each settled.
pub proof fn lemma_visit_settles(
    state: Traversal,
    adj: Seq<Seq<usize>>,
    node: usize,
    pending: Set<usize>,
)
    requires
        is_graph(adj),
        state.seen.len() == adj.len(),
        node < adj.len(),
        state.consistent(pending),
    ensures
        forall|k: int|
            state.order.len() <= k < state.visit(adj, node).order.len() ==> leads_to(
                adj,
                node,
                #[trigger] state.visit(adj, node).order[k],
            ) && state.visit(adj, node).settled(adj, k, pending),
    decreases unseen(state.seen), 0nat, 0nat,
{
    if !state.seen[node as int] {
        let entered = Traversal { seen: state.seen.update(node as int, true), order: state.order };
        lemma_unseen_mark(state.seen, node as int);
        assert(state.entered(node) <==> (state.order.contains(node) || pending.contains(node)));
        let inner = pending.insert(node);
        assert(entered.consistent(inner)) by {
            assert forall|other: usize| other < entered.seen.len() implies (
            #[trigger] entered.entered(other) <==> (entered.order.contains(other)
                || inner.contains(other))) by {
                assert(state.entered(other) <==> (state.order.contains(other) || pending.contains(
                    other,
                )));
            }
        }
        let neighbours = adj[node as int];
        assert forall|k: int| 0 <= k < neighbours.len() implies (#[trigger] neighbours[k])
            < adj.len() by {}
        lemma_visit_all_enters(entered, adj, neighbours, 0, inner);
        lemma_visit_all_settles(entered, adj, neighbours, 0, inner);
        let after = entered.visit_all(adj, neighbours, 0);
        let done = state.visit(adj, node);
        assert(done.order == after.order.push(node));
        assert(done.continues(after)) by {
            assert forall|other: usize| #[trigger] after.entered(other) implies done.entered(
                other,
            ) by {}
        }
        lemma_leads_to_itself(adj, node);
        assert forall|k: int| state.order.len() <= k < done.order.len() implies leads_to(
            adj,
            node,
            #[trigger] done.order[k],
        ) && done.settled(adj, k, pending) by {
            if k < after.order.len() {
                assert(after.settled(adj, k, inner));
                let r = choose|r: int|
                    0 <= r < neighbours.len() && leads_to(
                        adj,
                        #[trigger] neighbours[r],
                        after.order[k],
                    );
                assert(neighbours.contains(neighbours[r]));
                lemma_edge_then_walk(adj, node, neighbours[r], after.order[k]);
                lemma_settled_stays(after, done, adj, k, inner, pending, node);
            } else {
                assert forall|m: int| 0 <= m < adj[done.order[k] as int].len() implies {
                    let neighbour = #[trigger] adj[done.order[k] as int][m];
                    &&& done.entered(neighbour)
                    &&& (done.finished_before(neighbour, k) || pending.contains(neighbour)
                        || leads_to(adj, neighbour, done.order[k]))
                } by {
                    let neighbour = neighbours[m];
                    assert(after.entered(neighbour));
                    assert(after.entered(neighbour) <==> (after.order.contains(neighbour)
                        || inner.contains(neighbour)));
                    if after.order.contains(neighbour) {
                        let j = choose|j: int|
                            0 <= j < after.order.len() && after.order[j] == neighbour;
                        assert(done.order[j] == neighbour);
                    }
                }
            }
        }
    }
}

/// What visiting a list of nodes adds to the order: nodes that some node
/// of the list leads to, each settled.
pub proof fn lemma_visit_all_settles(
    state: Traversal,
    adj: Seq<Seq<usize>>,
    nodes: Seq<usize>,
    from: int,
    pending: Set<usize>,
)
    requires
        is_graph(adj),
        state.seen.len() == adj.len(),
        forall|k: int| 0 <= k < nodes.len() ==> (#[trigger] nodes[k]) < adj.len(),
        0 <= from <= nodes.len(),
        state.consistent(pending),
    ensures
        forall|k: int|
            state.order.len() <= k < state.visit_all(adj, nodes, from).order.len() ==> (exists|
                r: int,
            |
                from <= r < nodes.len() && leads_to(
                    adj,
                    #[trigger] nodes[r],
                    state.visit_all(adj, nodes, from).order[k],
                )) && (#[trigger] state.visit_all(adj, nodes, from).settled(adj, k, pending)),
    decreases unseen(state.seen), 1nat, nodes.len() - from,
{
    if from < nodes.len() {
        lemma_visit_enters(state, adj, nodes[from], pending);
        lemma_visit_settles(state, adj, nodes[from], pending);
        let after = state.visit(adj, nodes[from]);
        lemma_visit_all_enters(after, adj, nodes, from + 1, pending);
        lemma_visit_all_settles(after, adj, nodes, from + 1, pending);
        let done = after.visit_all(adj, nodes, from + 1);
        assert(state.visit_all(adj, nodes, from) == done);
        assert forall|k: int| state.order.len() <= k < done.order.len() implies (exists|r: int|
            from <= r < nodes.len() && leads_to(adj, #[trigger] nodes[r], done.order[k])) && (
        #[trigger] done.settled(adj, k, pending)) by {
            if k < after.order.len() {
                assert(done.order[k] == after.order[k]);
                assert(leads_to(adj, nodes[from], after.order[k]));
                lemma_settled_stays(after, done, adj, k, pending, pending, nodes[from]);
            } else {
                assert(done.settled(adj, k, pending));
                let r = choose|r: int|
                    from + 1 <= r < nodes.len() && leads_to(adj, #[trigger] nodes[r], done.order[k]);
                assert(from <= r < nodes.len() && leads_to(adj, nodes[r], done.order[k]));
            }
        }
    }
}

/// The neighbour `adj[order[place]][m]` of the node at place `place` is in
/// the order; it comes before the node unless it leads back to the node.
pub open spec fn neighbour_ordered(adj: Seq<Seq<usize>>, order: Seq<usize>, place: int, m: int) -> bool {
    let neighbour = adj[order[place] as int][m];
    &&& order.contains(neighbour)
    &&& (order.index_of(neighbour) < place || leads_to(adj, neighbour, order[place]))
}

/// What holds of a post-order and the edges of the graph.
///
/// Every node of the order can be reached from a root. Every neighbour of
/// a node of the order is in the order too; it comes before the node unless
/// it leads back to the node, that is unless the two lie on a cycle.
pub proof fn lemma_post_order_edges(adj: Seq<Seq<usize>>, roots: Seq<usize>)
    requires
        is_graph(adj),
        forall|k: int| 0 <= k < roots.len() ==> (#[trigger] roots[k]) < adj.len(),
    ensures
        forall|k: int|
            0 <= k < post_order_spec(adj, roots).len() ==> exists|r: int|
                0 <= r < roots.len() && leads_to(
                    adj,
                    #[trigger] roots[r],
                    #[trigger] post_order_spec(adj, roots)[k],
                ),
        forall|k: int, m: int|
            0 <= k < post_order_spec(adj, roots).len() && 0 <= m < adj[post_order_spec(
                adj,
                roots,
            )[k] as int].len() ==> #[trigger] neighbour_ordered(
                adj,
                post_order_spec(adj, roots),
                k,
                m,
            ),
{
    let start = Traversal::start(adj.len());
    assert(start.consistent(Set::empty()));
    lemma_visit_all_enters(start, adj, roots, 0, Set::empty());
    lemma_visit_all_settles(start, adj, roots, 0, Set::empty());
    let done = start.visit_all(adj, roots, 0);
    let order = post_order_spec(adj, roots);
    assert forall|k: int| 0 <= k < order.len() implies exists|r: int|
        0 <= r < roots.len() && leads_to(adj, #[trigger] roots[r], #[trigger] order[k]) by {
        assert(done.settled(adj, k, Set::empty()));
    }
    assert forall|k: int, m: int|
        0 <= k < order.len() && 0 <= m < adj[order[k] as int].len() implies #[trigger] neighbour_ordered(
        adj,
        order,
        k,
        m,
    ) by {
        assert(done.settled(adj, k, Set::empty()));
        let neighbour = adj[order[k] as int][m];
        assert(done.entered(neighbour));
        assert(neighbour < adj.len());
        assert(done.entered(neighbour) <==> (done.order.contains(neighbour) || Set::<
            usize,
        >::empty().contains(neighbour)));
        if done.finished_before(neighbour, k) {
            let j = choose|j: int|
                0 <= j < k && j < done.order.len() && #[trigger] done.order[j] == neighbour;
            let i = order.index_of(neighbour);
            assert(0 <= i < order.len() && order[i] == neighbour);
        }
    }
}

/// A post-order holds every node that a root leads to.
pub proof fn lemma_post_order_complete(
    adj: Seq<Seq<usize>>,
    roots: Seq<usize>,
    root: int,
    node: usize,
)
    requires
        is_graph(adj),
        forall|k: int| 0 <= k < roots.len() ==> (#[trigger] roots[k]) < adj.len(),
        0 <= root < roots.len(),
        leads_to(adj, roots[root], node),
    ensures
        post_order_spec(adj, roots).contains(node),
{
    let walk = choose|walk: Seq<usize>| #[trigger]
        is_walk(adj, walk) && walk.first() == roots[root] && walk.last() == node;
    lemma_post_order_distinct(adj, roots);
    lemma_post_order_edges(adj, roots);
    lemma_walk_stays_in_order(adj, roots, walk, walk.len() - 1);
}

proof fn lemma_walk_stays_in_order(
    adj: Seq<Seq<usize>>,
    roots: Seq<usize>,
    walk: Seq<usize>,
    upto: int,
)
    requires
        is_graph(adj),
        is_walk(adj, walk),
        0 <= upto < walk.len(),
        post_order_spec(adj, roots).contains(walk.first()),
        forall|k: int, m: int|
            0 <= k < post_order_spec(adj, roots).len() && 0 <= m < adj[post_order_spec(
                adj,
                roots,
            )[k] as int].len() ==> #[trigger] neighbour_ordered(
                adj,
                post_order_spec(adj, roots),
                k,
                m,
            ),
    ensures
        post_order_spec(adj, roots).contains(walk[upto]),
    decreases upto,
{
    if upto > 0 {
        lemma_walk_stays_in_order(adj, roots, walk, upto - 1);
        let order = post_order_spec(adj, roots);
        let from = walk[upto - 1];
        assert(has_edge(adj, walk[upto - 1], walk[upto - 1 + 1]));
        let k = choose|k: int| 0 <= k < order.len() && order[k] == from;
        let m = choose|m: int| 0 <= m < adj[from as int].len() && adj[from as int][m] == walk[upto];
        assert(neighbour_ordered(adj, order, k, m));
    }
}

/// With a single root, the root is finished last.
pub proof fn lemma_post_order_root_last(adj: Seq<Seq<usize>>, root: usize)
    requires
        is_graph(adj),
        root < adj.len(),
    ensures
        post_order_spec(adj, seq![root]).len() > 0,
        post_order_spec(adj, seq![root]).last() == root,
{
    let start = Traversal::start(adj.len());
    assert(start.consistent(Set::empty()));
    lemma_visit_enters(start, adj, root, Set::empty());
    let roots = seq![root];
    let after = start.visit(adj, roots[0]);
    assert(after.visit_all(adj, roots, 1) == after);
}

/// A visit leaves no more nodes to enter than there were, and the same
/// number of nodes.
pub proof fn lemma_visit_shrinks(state: Traversal, adj: Seq<Seq<usize>>, node: usize)
    ensures
        unseen(state.visit(adj, node).seen) <= unseen(state.seen),
        state.visit(adj, node).seen.len() == state.seen.len(),
    decreases unseen(state.seen), 0nat, 0nat,
{
    if node < state.seen.len() && node < adj.len() && !state.seen[node as int] {
        let entered = Traversal { seen: state.seen.update(node as int, true), order: state.order };
        if unseen(entered.seen) < unseen(state.seen) {
            lemma_visit_all_shrinks(entered, adj, adj[node as int], 0);
        }
    }
}

/// Visiting a list of nodes leaves no more nodes to enter than there were,
/// and the same number of nodes.
pub proof fn lemma_visit_all_shrinks(
    state: Traversal,
    adj: Seq<Seq<usize>>,
    nodes: Seq<usize>,
    from: int,
)
    ensures
        unseen(state.visit_all(adj, nodes, from).seen) <= unseen(state.seen),
        state.visit_all(adj, nodes, from).seen.len() == state.seen.len(),
    decreases unseen(state.seen), 1nat, nodes.len() - from,
{
    if 0 <= from < nodes.len() {
        lemma_visit_shrinks(state, adj, nodes[from]);
        let after = state.visit(adj, nodes[from]);
        if unseen(after.seen) <= unseen(state.seen) {
            lemma_visit_all_shrinks(after, adj, nodes, from + 1);
        }
    }
}

/// `to` gives each of `count` nodes another name among them, and no two
/// nodes the same.
pub open spec fn is_renaming(to: spec_fn(usize) -> usize, count: nat) -> bool {
    &&& forall|i: usize| i < count ==> #[trigger] to(i) < count
    &&& forall|i: usize, j: usize| i < count && j < count && i != j ==> #[trigger] to(i) != #[trigger] to(j)
}

/// `other` is the graph `adj` with its nodes renamed by `to`.
pub open spec fn is_renamed_graph(
    adj: Seq<Seq<usize>>,
    other: Seq<Seq<usize>>,
    to: spec_fn(usize) -> usize,
) -> bool {
    &&& other.len() == adj.len()
    &&& forall|i: usize|
        i < adj.len() ==> other[#[trigger] to(i) as int] == adj[i as int].map_values(to)
}

impl Traversal {
    /// `other` is this state with the nodes renamed by `to`.
    pub open spec fn renamed_to(self, other: Traversal, to: spec_fn(usize) -> usize) -> bool {
        &&& other.seen.len() == self.seen.len()
        &&& forall|i: usize|
            i < self.seen.len() ==> other.seen[#[trigger] to(i) as int] == self.seen[i as int]
        &&& other.order == self.order.map_values(to)
    }
}

/// Renaming the nodes of a graph renames the traversal: a visit.
pub proof fn lemma_visit_renamed(
    state: Traversal,
    other: Traversal,
    adj: Seq<Seq<usize>>,
    renamed: Seq<Seq<usize>>,
    to: spec_fn(usize) -> usize,
    node: usize,
)
    requires
        is_graph(adj),
        state.seen.len() == adj.len(),
        node < adj.len(),
        is_renaming(to, adj.len()),
        is_renamed_graph(adj, renamed, to),
        state.renamed_to(other, to),
    ensures
        state.visit(adj, node).renamed_to(other.visit(renamed, to(node)), to),
    decreases unseen(state.seen), 0nat, 0nat,
{
    let image = to(node);
    assert(other.seen[image as int] == state.seen[node as int]);
    if !state.seen[node as int] {
        let entered = Traversal { seen: state.seen.update(node as int, true), order: state.order };
        let entered_other = Traversal {
            seen: other.seen.update(image as int, true),
            order: other.order,
        };
        lemma_unseen_mark(state.seen, node as int);
        lemma_unseen_mark(other.seen, image as int);
        assert(entered.renamed_to(entered_other, to)) by {
            assert forall|i: usize| i < entered.seen.len() implies entered_other.seen[
            #[trigger] to(i) as int] == entered.seen[i as int] by {
                assert(other.seen[to(i) as int] == state.seen[i as int]);
                if i != node {
                    assert(to(i) != to(node));
                }
            }
        }
        let neighbours = adj[node as int];
        assert forall|k: int| 0 <= k < neighbours.len() implies (#[trigger] neighbours[k])
            < adj.len() by {}
        assert(renamed[image as int] == neighbours.map_values(to));
        lemma_visit_all_renamed(entered, entered_other, adj, renamed, to, neighbours, 0);
        let after = entered.visit_all(adj, neighbours, 0);
        let after_other = entered_other.visit_all(renamed, neighbours.map_values(to), 0);
        assert(after.order.push(node).map_values(to) =~= after_other.order.push(image));
    }
}

/// Renaming the nodes of a graph renames the traversal: a list of visits.
pub proof fn lemma_visit_all_renamed(
    state: Traversal,
    other: Traversal,
    adj: Seq<Seq<usize>>,
    renamed: Seq<Seq<usize>>,
    to: spec_fn(usize) -> usize,
    nodes: Seq<usize>,
    from: int,
)
    requires
        is_graph(adj),
        state.seen.len() == adj.len(),
        forall|k: int| 0 <= k < nodes.len() ==> (#[trigger] nodes[k]) < adj.len(),
        0 <= from <= nodes.len(),
        is_renaming(to, adj.len()),
        is_renamed_graph(adj, renamed, to),
        state.renamed_to(other, to),
    ensures
        state.visit_all(adj, nodes, from).renamed_to(
            other.visit_all(renamed, nodes.map_values(to), from),
            to,
        ),
    decreases unseen(state.seen), 1nat, nodes.len() - from,
{
    if from < nodes.len() {
        let images = nodes.map_values(to);
        assert(images[from] == to(nodes[from]));
        lemma_visit_renamed(state, other, adj, renamed, to, nodes[from]);
        lemma_visit_shrinks(state, adj, nodes[from]);
        lemma_visit_shrinks(other, renamed, images[from]);
        let after = state.visit(adj, nodes[from]);
        let after_other = other.visit(renamed, images[from]);
        lemma_visit_all_renamed(after, after_other, adj, renamed, to, nodes, from + 1);
    }
}

/// Renaming the nodes of a graph renames its post-order.
pub proof fn lemma_post_order_renamed(
    adj: Seq<Seq<usize>>,
    renamed: Seq<Seq<usize>>,
    to: spec_fn(usize) -> usize,
    roots: Seq<usize>,
)
    requires
        is_graph(adj),
        forall|k: int| 0 <= k < roots.len() ==> (#[trigger] roots[k]) < adj.len(),
        is_renaming(to, adj.len()),
        is_renamed_graph(adj, renamed, to),
    ensures
        post_order_spec(renamed, roots.map_values(to)) == post_order_spec(adj, roots).map_values(
            to,
        ),
{
    let start = Traversal::start(adj.len());
    let other = Traversal::start(renamed.len());
    assert(start.order.map_values(to) =~= other.order);
    lemma_visit_all_renamed(start, other, adj, renamed, to, roots, 0);
}

/// The adjacency lists of a graph held in vectors.
pub open spec fn rows(adj: Seq<Vec<usize>>) -> Seq<Seq<usize>> {
    adj.map_values(|row: Vec<usize>| row@)
}

/// Visits `node` and everything that can be reached from it and has not
/// been entered, and appends each node to `order` when it is finished.
pub fn visit(adj: &Vec<Vec<usize>>, node: usize, seen: &mut Vec<bool>, order: &mut Vec<usize>)
    requires
        is_graph(rows(adj@)),
        old(seen)@.len() == adj@.len(),
        node < adj@.len(),
    ensures
        (Traversal { seen: final(seen)@, order: final(order)@ }) == (Traversal {
            seen: old(seen)@,
            order: old(order)@,
        }).visit(rows(adj@), node),
        final(seen)@.len() == old(seen)@.len(),
        unseen(final(seen)@) <= unseen(old(seen)@),
    decreases unseen(old(seen)@),
{
    let ghost graph = rows(adj@);
    let ghost before = Traversal { seen: seen@, order: order@ };
    if seen[node] {
        return ;
    }
    seen[node] = true;
    let ghost entered = Traversal { seen: seen@, order: order@ };
    proof {
        lemma_unseen_mark(before.seen, node as int);
        assert(entered.seen =~= before.seen.update(node as int, true));
        assert(graph[node as int] == adj@[node as int]@);
    }
    let neighbours = &adj[node];
    let mut k: usize = 0;
    while k < neighbours.len()
        invariant
            k <= neighbours.len(),
            neighbours@ == graph[node as int],
            graph == rows(adj@),
            is_graph(graph),
            node < adj@.len(),
            seen@.len() == adj@.len(),
            unseen(seen@) <= unseen(entered.seen),
            unseen(entered.seen) < unseen(before.seen),
            before.seen == old(seen)@,
            (Traversal { seen: seen@, order: order@ }).visit_all(graph, neighbours@, k as int)
                == entered.visit_all(graph, neighbours@, 0),
        decreases neighbours.len() - k,
    {
        let ghost current = Traversal { seen: seen@, order: order@ };
        assert(neighbours@[k as int] < adj@.len()) by {
            assert(graph[node as int][k as int] < graph.len());
        }
        visit(adj, neighbours[k], seen, order);
        k += 1;
    }
    order.push(node);
}

/// The post-order of the nodes that can be reached from `roots`.
pub fn post_order(adj: &Vec<Vec<usize>>, roots: &Vec<usize>) -> (order: Vec<usize>)
    requires
        is_graph(rows(adj@)),
        forall|k: int| 0 <= k < roots@.len() ==> (#[trigger] roots@[k]) < adj@.len(),
    ensures
        order@ == post_order_spec(rows(adj@), roots@),
{
    let ghost graph = rows(adj@);
    let mut seen: Vec<bool> = Vec::new();
    let mut i: usize = 0;
    while i < adj.len()
        invariant
            i <= adj.len(),
            seen@.len() == i,
            forall|j: int| 0 <= j < i ==> !seen@[j],
        decreases adj.len() - i,
    {
        seen.push(false);
        i += 1;
    }
    let mut order: Vec<usize> = Vec::new();
    assert(seen@ =~= Traversal::start(graph.len()).seen);
    let ghost start = Traversal { seen: seen@, order: order@ };
    let mut r: usize = 0;
    while r < roots.len()
        invariant
            r <= roots.len(),
            graph == rows(adj@),
            is_graph(graph),
            seen@.len() == adj@.len(),
            forall|k: int| 0 <= k < roots@.len() ==> (#[trigger] roots@[k]) < adj@.len(),
            unseen(seen@) <= unseen(start.seen),
            (Traversal { seen: seen@, order: order@ }).visit_all(graph, roots@, r as int)
                == start.visit_all(graph, roots@, 0),
        decreases roots.len() - r,
    {
        visit(adj, roots[r], &mut seen, &mut order);
        r += 1;
    }
    order
}

} // verus!
