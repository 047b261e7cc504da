//! The pass that follows quiescence: it assigns every module its place in
//! the execution order, by a depth-first traversal from the entries along
//! static references, and marks the entries.

use crate::module::{Dependency, DependencyView, ModuleView};
use crate::module_graph::{uris_of, ModuleGraph};
use crate::traversal::{is_graph, lemma_post_order_distinct, post_order, post_order_spec, rows};
use crate::{ResolvedId, ResolvedView};
use vstd::prelude::*;

verus! {

/// Where the nodes that static references lead to are stored: one index for
/// each reference that is not dynamic and whose target is among `uris`, in
/// the order of the references.
pub open spec fn static_targets(uris: Seq<Seq<char>>, dependencies: Seq<DependencyView>) -> Seq<
    usize,
>
    decreases dependencies.len(),
{
    if dependencies.len() == 0 {
        Seq::empty()
    } else {
        let before = static_targets(uris, dependencies.drop_last());
        let last = dependencies.last();
        match last.target() {
            Some(uri) => if !last.is_dynamic() && uris.contains(uri) {
                before.push(uris.index_of(uri) as usize)
            } else {
                before
            },
            None => before,
        }
    }
}

/// The static references of a graph as adjacency lists over the places
/// where its nodes are stored.
pub open spec fn adjacency(nodes: Seq<ModuleView>) -> Seq<Seq<usize>> {
    Seq::new(nodes.len(), |i: int| static_targets(uris_of(nodes), nodes[i].dependencies))
}

/// Where the entries are stored: one index for each entry that is neither
/// external nor ignored and is among `uris`, in the order of the entries.
pub open spec fn roots_of(uris: Seq<Seq<char>>, entries: Seq<ResolvedView>) -> Seq<usize>
    decreases entries.len(),
{
    if entries.len() == 0 {
        Seq::empty()
    } else {
        let before = roots_of(uris, entries.drop_last());
        let last = entries.last();
        if last.is_internal() && uris.contains(last.uri) {
            before.push(uris.index_of(last.uri) as usize)
        } else {
            before
        }
    }
}

/// The nodes in the order in which they are to be executed: the post-order
/// of a depth-first traversal from the entries, in their order, along the
/// static references of each module, in source order.
pub open spec fn execution_order(nodes: Seq<ModuleView>, entries: Seq<ResolvedView>) -> Seq<usize> {
    post_order_spec(adjacency(nodes), roots_of(uris_of(nodes), entries))
}

/// The place of a node in an order; `usize::MAX` for a node that the order
/// does not name.
pub open spec fn rank(order: Seq<usize>, node: usize) -> usize {
    if order.contains(node) {
        order.index_of(node) as usize
    } else {
        usize::MAX
    }
}

/// The nodes after the pass: each with its place in the execution order,
/// and marked as an entry exactly if the build was seeded with it.
pub open spec fn finalized(nodes: Seq<ModuleView>, entries: Seq<ResolvedView>) -> Seq<ModuleView> {
    Seq::new(
        nodes.len(),
        |i: int|
            ModuleView {
                exec_order: rank(execution_order(nodes, entries), i as usize),
                is_entry: roots_of(uris_of(nodes), entries).contains(i as usize),
                ..nodes[i]
            },
    )
}

/// Static targets are places of nodes.
pub proof fn lemma_static_targets_bounded(uris: Seq<Seq<char>>, dependencies: Seq<DependencyView>)
    requires
        uris.len() <= usize::MAX,
    ensures
        forall|k: int|
            0 <= k < static_targets(uris, dependencies).len() ==> (#[trigger] static_targets(
                uris,
                dependencies,
            )[k]) < uris.len(),
    decreases dependencies.len(),
{
    if dependencies.len() > 0 {
        lemma_static_targets_bounded(uris, dependencies.drop_last());
        let before = static_targets(uris, dependencies.drop_last());
        let all = static_targets(uris, dependencies);
        assert forall|k: int| 0 <= k < all.len() implies (#[trigger] all[k]) < uris.len() by {
            if k < before.len() {
                assert(all[k] == before[k]);
            } else {
                let uri = dependencies.last().target().unwrap();
                let i = uris.index_of(uri);
                assert(0 <= i < uris.len());
                assert(all[k] == i as usize);
            }
        }
    }
}

/// Roots are places of nodes.
pub proof fn lemma_roots_bounded(uris: Seq<Seq<char>>, entries: Seq<ResolvedView>)
    requires
        uris.len() <= usize::MAX,
    ensures
        forall|k: int|
            0 <= k < roots_of(uris, entries).len() ==> (#[trigger] roots_of(uris, entries)[k])
                < uris.len(),
    decreases entries.len(),
{
    if entries.len() > 0 {
        lemma_roots_bounded(uris, entries.drop_last());
        let before = roots_of(uris, entries.drop_last());
        let all = roots_of(uris, entries);
        assert forall|k: int| 0 <= k < all.len() implies (#[trigger] all[k]) < uris.len() by {
            if k < before.len() {
                assert(all[k] == before[k]);
            } else {
                let i = uris.index_of(entries.last().uri);
                assert(0 <= i < uris.len());
                assert(all[k] == i as usize);
            }
        }
    }
}

/// The adjacency lists of a graph name places of its nodes only.
pub proof fn lemma_adjacency_is_graph(nodes: Seq<ModuleView>)
    requires
        nodes.len() <= usize::MAX,
    ensures
        is_graph(adjacency(nodes)),
{
    assert forall|i: int, k: int|
        0 <= i < adjacency(nodes).len() && 0 <= k < adjacency(nodes)[i].len() implies (
    #[trigger] adjacency(nodes)[i][k]) < adjacency(nodes).len() by {
        lemma_static_targets_bounded(uris_of(nodes), nodes[i].dependencies);
    }
}

/// The execution order names no node twice and names places of nodes only;
/// it names every entry that is in the graph.
pub proof fn lemma_execution_order_distinct(nodes: Seq<ModuleView>, entries: Seq<ResolvedView>)
    requires
        nodes.len() <= usize::MAX,
    ensures
        execution_order(nodes, entries).no_duplicates(),
        execution_order(nodes, entries).len() <= nodes.len(),
        forall|k: int|
            0 <= k < execution_order(nodes, entries).len() ==> (#[trigger] execution_order(
                nodes,
                entries,
            )[k]) < nodes.len(),
        forall|k: int|
            0 <= k < roots_of(uris_of(nodes), entries).len() ==> execution_order(
                nodes,
                entries,
            ).contains(#[trigger] roots_of(uris_of(nodes), entries)[k]),
{
    lemma_adjacency_is_graph(nodes);
    lemma_roots_bounded(uris_of(nodes), entries);
    lemma_post_order_distinct(adjacency(nodes), roots_of(uris_of(nodes), entries));
}

/// The pass changes nothing but the place in the execution order and the
/// entry mark.
pub proof fn lemma_finalized_keeps(nodes: Seq<ModuleView>, entries: Seq<ResolvedView>)
    ensures
        finalized(nodes, entries).len() == nodes.len(),
        uris_of(finalized(nodes, entries)) == uris_of(nodes),
        forall|i: int|
            0 <= i < nodes.len() ==> (#[trigger] finalized(nodes, entries)[i]).dependencies
                == nodes[i].dependencies && finalized(nodes, entries)[i].uri == nodes[i].uri
                && finalized(nodes, entries)[i].resolved_ids == nodes[i].resolved_ids
                && finalized(nodes, entries)[i].source_type == nodes[i].source_type,
{
    assert(uris_of(finalized(nodes, entries)) =~= uris_of(nodes));
}

/// Where the nodes that the static references in `dependencies` lead to are
/// stored.
fn static_target_indices(graph: &ModuleGraph, dependencies: &Vec<Dependency>) -> (targets: Vec<
    usize,
>)
    requires
        graph.wf(),
    ensures
        targets@ == static_targets(
            uris_of(graph.nodes()),
            crate::module::dependency_views(dependencies@),
        ),
{
    let ghost uris = uris_of(graph.nodes());
    let ghost all = crate::module::dependency_views(dependencies@);
    let mut targets: Vec<usize> = Vec::new();
    let mut k: usize = 0;
    assert(all.take(0) =~= Seq::empty());
    while k < dependencies.len()
        invariant
            k <= dependencies.len(),
            graph.wf(),
            uris == uris_of(graph.nodes()),
            all == crate::module::dependency_views(dependencies@),
            targets@ == static_targets(uris, all.take(k as int)),
        decreases dependencies.len() - k,
    {
        let dependency = &dependencies[k];
        proof {
            let upto = all.take(k + 1);
            assert(upto.drop_last() =~= all.take(k as int));
            assert(upto.last() == dependency@);
        }
        if !dependency.is_dynamic() {
            if let Some(uri) = dependency.target() {
                if let Some(i) = graph.position(uri) {
                    targets.push(i);
                }
            }
        }
        k += 1;
    }
    assert(all.take(k as int) =~= all);
    targets
}

/// Where the entries are stored.
fn root_indices(graph: &ModuleGraph, entries: &Vec<ResolvedId>) -> (roots: Vec<usize>)
    requires
        graph.wf(),
    ensures
        roots@ == roots_of(uris_of(graph.nodes()), entries@.map_values(|e: ResolvedId| e@)),
{
    let ghost uris = uris_of(graph.nodes());
    let ghost all = entries@.map_values(|e: ResolvedId| e@);
    let mut roots: Vec<usize> = Vec::new();
    let mut k: usize = 0;
    assert(all.take(0) =~= Seq::empty());
    while k < entries.len()
        invariant
            k <= entries.len(),
            graph.wf(),
            uris == uris_of(graph.nodes()),
            all == entries@.map_values(|e: ResolvedId| e@),
            roots@ == roots_of(uris, all.take(k as int)),
        decreases entries.len() - k,
    {
        let entry = &entries[k];
        proof {
            let upto = all.take(k + 1);
            assert(upto.drop_last() =~= all.take(k as int));
            assert(upto.last() == entry@);
        }
        if entry.is_internal() {
            if let Some(i) = graph.position(entry.uri.as_str()) {
                roots.push(i);
            }
        }
        k += 1;
    }
    assert(all.take(k as int) =~= all);
    roots
}

/// For each of `count` nodes its place in `order`.
fn ranks(order: &Vec<usize>, count: usize) -> (places: Vec<usize>)
    requires
        order@.no_duplicates(),
        forall|k: int| 0 <= k < order@.len() ==> (#[trigger] order@[k]) < count,
    ensures
        places@.len() == count,
        forall|node: usize| node < count ==> #[trigger] places@[node as int] == rank(order@, node),
{
    let mut places: Vec<usize> = Vec::new();
    let mut i: usize = 0;
    while i < count
        invariant
            i <= count,
            places@.len() == i,
            forall|j: int| 0 <= j < i ==> places@[j] == usize::MAX,
        decreases count - i,
    {
        places.push(usize::MAX);
        i += 1;
    }
    let mut k: usize = 0;
    while k < order.len()
        invariant
            k <= order.len(),
            places@.len() == count,
            order@.no_duplicates(),
            forall|j: int| 0 <= j < order@.len() ==> (#[trigger] order@[j]) < count,
            forall|j: int| 0 <= j < k ==> places@[(#[trigger] order@[j]) as int] == j,
            forall|node: usize|
                node < count && !order@.take(k as int).contains(node) ==> #[trigger] places@[node as int]
                    == usize::MAX,
        decreases order.len() - k,
    {
        let node = order[k];
        places[node] = k;
        proof {
            let upto = order@.take(k + 1);
            assert(upto[k as int] == node);
            assert forall|other: usize|
                other < count && !upto.contains(other) implies #[trigger] places@[other as int]
                == usize::MAX by {
                if order@.take(k as int).contains(other) {
                    let j = choose|j: int|
                        0 <= j < order@.take(k as int).len() && order@.take(k as int)[j] == other;
                    assert(upto[j] == other);
                }
                assert(other != node);
            }
        }
        k += 1;
    }
    proof {
        assert(order@.take(k as int) =~= order@);
        assert forall|node: usize| node < count implies #[trigger] places@[node as int] == rank(
            order@,
            node,
        ) by {
            if order@.contains(node) {
                let j = order@.index_of(node);
                assert(0 <= j < order@.len() && order@[j] == node);
            }
        }
    }
    places
}

/// For each of `count` nodes whether `roots` names it.
fn marks(roots: &Vec<usize>, count: usize) -> (flags: Vec<bool>)
    requires
        forall|k: int| 0 <= k < roots@.len() ==> (#[trigger] roots@[k]) < count,
    ensures
        flags@.len() == count,
        forall|node: usize| node < count ==> #[trigger] flags@[node as int] == roots@.contains(node),
{
    let mut flags: Vec<bool> = Vec::new();
    let mut i: usize = 0;
    while i < count
        invariant
            i <= count,
            flags@.len() == i,
            forall|j: int| 0 <= j < i ==> !flags@[j],
        decreases count - i,
    {
        flags.push(false);
        i += 1;
    }
    let mut k: usize = 0;
    while k < roots.len()
        invariant
            k <= roots.len(),
            flags@.len() == count,
            forall|j: int| 0 <= j < roots@.len() ==> (#[trigger] roots@[j]) < count,
            forall|node: usize|
                node < count ==> #[trigger] flags@[node as int] == roots@.take(k as int).contains(
                    node,
                ),
        decreases roots.len() - k,
    {
        let root = roots[k];
        flags[root] = true;
        proof {
            let before = roots@.take(k as int);
            let upto = roots@.take(k + 1);
            assert(upto[k as int] == root);
            assert forall|node: usize| node < count implies #[trigger] flags@[node as int]
                == upto.contains(node) by {
                if before.contains(node) {
                    let j = choose|j: int| 0 <= j < before.len() && before[j] == node;
                    assert(upto[j] == node);
                }
                if upto.contains(node) && node != root {
                    let j = choose|j: int| 0 <= j < upto.len() && upto[j] == node;
                    assert(before[j] == node);
                }
            }
        }
        k += 1;
    }
    assert(roots@.take(k as int) =~= roots@);
    flags
}

impl ModuleGraph {
    /// Assigns every module its place in the execution order and marks the
    /// entries. The order is the post-order of a depth-first traversal from
    /// `entries`, in their order, along the static references of each
    /// module, in source order; a module that the traversal does not reach
    /// gets `usize::MAX`.
    pub fn finalize(&mut self, entries: &Vec<ResolvedId>)
        requires
            old(self).wf(),
        ensures
            final(self).wf(),
            final(self).nodes() == finalized(
                old(self).nodes(),
                entries@.map_values(|e: ResolvedId| e@),
            ),
    {
        let ghost nodes = self.nodes();
        let ghost seeds = entries@.map_values(|e: ResolvedId| e@);
        let count = self.modules.len();
        let mut adj: Vec<Vec<usize>> = Vec::new();
        let mut i: usize = 0;
        while i < count
            invariant
                i <= count,
                count == self.modules@.len(),
                self.wf(),
                self.nodes() == nodes,
                adj@.len() == i,
                forall|j: int| 0 <= j < i ==> (#[trigger] adj@[j])@ == adjacency(nodes)[j],
            decreases count - i,
        {
            let row = static_target_indices(self, &self.modules[i].all_dependecies);
            adj.push(row);
            i += 1;
        }
        assert(rows(adj@) =~= adjacency(nodes));
        let roots = root_indices(self, entries);
        proof {
            lemma_adjacency_is_graph(nodes);
            lemma_roots_bounded(uris_of(nodes), seeds);
            lemma_execution_order_distinct(nodes, seeds);
        }
        let order = post_order(&adj, &roots);
        let places = ranks(&order, count);
        let flags = marks(&roots, count);
        let mut n: usize = 0;
        while n < count
            invariant
                n <= count,
                count == self.modules@.len(),
                count == nodes.len(),
                places@.len() == count,
                flags@.len() == count,
                order@ == execution_order(nodes, seeds),
                roots@ == roots_of(uris_of(nodes), seeds),
                forall|node: usize| node < count ==> #[trigger] places@[node as int] == rank(order@, node),
                forall|node: usize|
                    node < count ==> #[trigger] flags@[node as int] == roots@.contains(node),
                forall|j: int| 0 <= j < n ==> #[trigger] self.nodes()[j] == finalized(nodes, seeds)[j],
                forall|j: int| n <= j < count ==> #[trigger] self.nodes()[j] == nodes[j],
            decreases count - n,
        {
            let ghost before = self.nodes();
            self.modules[n].exec_order = places[n];
            self.modules[n].is_entry = flags[n];
            proof {
                assert forall|j: int| 0 <= j < n + 1 implies #[trigger] self.nodes()[j] == finalized(
                    nodes,
                    seeds,
                )[j] by {
                    if j < n {
                        assert(self.nodes()[j] == before[j]);
                    } else {
                        assert(before[j] == nodes[j]);
                        assert(places@[n as int] == rank(order@, n));
                        assert(flags@[n as int] == roots@.contains(n));
                        assert(self.modules@[j].exec_order == places@[n as int]);
                        assert(self.modules@[j].is_entry == flags@[n as int]);
                        assert(self.nodes()[j].dependencies == before[j].dependencies);
                        assert(self.nodes()[j].resolved_ids == before[j].resolved_ids);
                    }
                }
                assert forall|j: int| n + 1 <= j < count implies #[trigger] self.nodes()[j]
                    == nodes[j] by {
                    assert(self.nodes()[j] == before[j]);
                }
            }
            n += 1;
        }
        proof {
            assert(self.nodes() =~= finalized(nodes, seeds));
            lemma_finalized_keeps(nodes, seeds);
        }
    }
}

} // verus!
