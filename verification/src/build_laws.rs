//! What holds of every build once it is quiescent, and of rebuilding.

use crate::build_invariant::lemma_quiescent_accounts;
use crate::bundle::{finished_modules, targets_visited, BundleView};
use crate::error::ErrorView;
use crate::finalize::finalized;
use crate::invalidation::lemma_reaches_itself;
use crate::module::ModuleView;
use crate::module_graph::{by_uri, lemma_by_uri, uris_of};
use crate::order_laws::lemma_finalized_independent_of_storage;
use crate::reachability::{
    is_closed, is_path, is_root, lemma_closed_graph_holds_reachable, reachable, reaches, refers_to,
};
use crate::text::lemma_keep_all;
use crate::ResolvedView;
use vstd::prelude::*;

verus! {

/// At quiescence, with no module failed, the graph is closed under the
/// references of its modules and holds every entry that is neither external
/// nor ignored.
pub proof fn lemma_quiescent_graph_closed(state: BundleView)
    requires
        state.inv(),
        state.is_quiescent(),
        state.failed.len() == 0,
    ensures
        is_closed(by_uri(state.nodes)),
        forall|root: Seq<char>| #[trigger]
            is_root(state.entries, root) ==> by_uri(state.nodes).contains_key(root),
        by_uri(state.nodes).dom() == state.ctx.visited,
{
    lemma_quiescent_accounts(state);
    let graph = by_uri(state.nodes);
    let done = uris_of(state.nodes);
    assert(done + state.failed =~= done);
    assert(graph.dom() =~= state.ctx.visited) by {
        assert forall|uri: Seq<char>| graph.dom().contains(uri) <==> state.ctx.visited.contains(
            uri,
        ) by {
            assert(done.to_set().contains(uri) <==> done.contains(uri));
        }
    }
    assert forall|from: Seq<char>, to: Seq<char>| #[trigger]
        refers_to(graph, from, to) implies graph.contains_key(to) by {
        let i = done.index_of(from);
        assert(0 <= i < done.len() && done[i] == from);
        lemma_by_uri(state.nodes, i);
        assert(targets_visited(state.nodes[i], state.ctx.visited));
        let k = choose|k: int|
            0 <= k < graph[from].dependencies.len() && (
            #[trigger] graph[from].dependencies[k]).target() == Some(to);
        assert(state.nodes[i].dependencies[k].target() == Some(to));
    }
    assert forall|root: Seq<char>| #[trigger] is_root(state.entries, root) implies graph.contains_key(
        root,
    ) by {
        let i = choose|i: int|
            0 <= i < state.entries.len() && (#[trigger] state.entries[i]).is_internal()
                && state.entries[i].uri == root;
        assert(state.ctx.visited.contains(state.entries[i].uri));
    }
}

/// Every module that can be reached from an entry, over static and dynamic
/// references, is in the graph of a quiescent build in which no module
/// failed, and it is there once.
pub proof fn lemma_reachable_modules_present(state: BundleView, uri: Seq<char>)
    requires
        state.inv(),
        state.is_quiescent(),
        state.failed.len() == 0,
        reachable(by_uri(state.nodes), state.entries, uri),
    ensures
        by_uri(state.nodes).contains_key(uri),
        uris_of(state.nodes).contains(uri),
        uris_of(state.nodes).no_duplicates(),
{
    lemma_quiescent_graph_closed(state);
    lemma_closed_graph_holds_reachable(by_uri(state.nodes), state.entries, uri);
}

/// At quiescence, with no module failed, the graph of a rooted build is
/// closed, holds the entries, and holds nothing but what can be reached
/// from them; its modules are the visited identifiers.
pub proof fn lemma_quiescent_rooted(state: BundleView)
    requires
        state.inv(),
        state.rooted(),
        state.is_quiescent(),
        state.failed.len() == 0,
    ensures
        is_closed(by_uri(state.nodes)),
        forall|root: Seq<char>| #[trigger]
            is_root(state.entries, root) ==> by_uri(state.nodes).contains_key(root),
        forall|uri: Seq<char>|
            by_uri(state.nodes).contains_key(uri) ==> #[trigger] reachable(
                by_uri(state.nodes),
                state.entries,
                uri,
            ),
        by_uri(state.nodes).dom() == state.ctx.visited,
{
    lemma_quiescent_graph_closed(state);
    lemma_quiescent_accounts(state);
    assert(finished_modules(state.queued) =~= Seq::empty());
    assert(state.known() =~= state.nodes);
    assert forall|uri: Seq<char>| by_uri(state.nodes).contains_key(uri) implies #[trigger] reachable(
        by_uri(state.nodes),
        state.entries,
        uri,
    ) by {
        assert(by_uri(state.nodes).dom().contains(uri));
        assert(state.ctx.visited.contains(uri));
    }
}

/// The modules that both graphs hold are the same in both.
pub open spec fn agree(graph: Map<Seq<char>, ModuleView>, other: Map<Seq<char>, ModuleView>) -> bool {
    forall|uri: Seq<char>| #[trigger]
        graph.contains_key(uri) && other.contains_key(uri) ==> graph[uri] == other[uri]
}

/// Two builds on the same inputs end with the same graph.
///
/// Take two quiescent builds, neither prepared for building again, in which
/// no module failed, seeded with the same entries, and such that a module
/// that both hold is the same in both: the hooks answered alike. Then both
/// hold the same modules, whatever the order in which their tasks ran.
pub proof fn lemma_same_inputs_same_graph(one: BundleView, other: BundleView)
    requires
        one.inv() && other.inv(),
        one.rooted() && other.rooted(),
        one.is_quiescent() && other.is_quiescent(),
        one.failed.len() == 0 && other.failed.len() == 0,
        one.entries == other.entries,
        agree(by_uri(one.nodes), by_uri(other.nodes)),
    ensures
        by_uri(one.nodes) == by_uri(other.nodes),
        one.ctx.visited == other.ctx.visited,
{
    let first = by_uri(one.nodes);
    let second = by_uri(other.nodes);
    lemma_quiescent_rooted(one);
    lemma_quiescent_rooted(other);
    lemma_closed_graphs_agree(first, second, one.entries);
}

/// Two builds on the same inputs assign the same execution order.
///
/// Under the conditions of [`lemma_same_inputs_same_graph`], every module
/// gets the same place in the execution order and the same entry mark in
/// both builds.
pub proof fn lemma_same_inputs_same_order(one: BundleView, other: BundleView)
    requires
        one.inv() && other.inv(),
        one.rooted() && other.rooted(),
        one.is_quiescent() && other.is_quiescent(),
        one.failed.len() == 0 && other.failed.len() == 0,
        one.entries == other.entries,
        agree(by_uri(one.nodes), by_uri(other.nodes)),
        one.nodes.len() <= usize::MAX,
    ensures
        by_uri(finalized(one.nodes, one.entries)) == by_uri(
            finalized(other.nodes, other.entries),
        ),
{
    lemma_same_inputs_same_graph(one, other);
    lemma_finalized_independent_of_storage(
        one.nodes,
        other.nodes,
        one.entries,
    );
}

/// Two closed graphs that hold the entries and nothing but what can be
/// reached from them, and that agree on the modules that both hold, are the
/// same graph.
pub proof fn lemma_closed_graphs_agree(
    first: Map<Seq<char>, ModuleView>,
    second: Map<Seq<char>, ModuleView>,
    entries: Seq<ResolvedView>,
)
    requires
        is_closed(first),
        is_closed(second),
        forall|root: Seq<char>| #[trigger] is_root(entries, root) ==> first.contains_key(root),
        forall|root: Seq<char>| #[trigger] is_root(entries, root) ==> second.contains_key(root),
        forall|uri: Seq<char>| first.contains_key(uri) ==> #[trigger] reachable(first, entries, uri),
        forall|uri: Seq<char>|
            second.contains_key(uri) ==> #[trigger] reachable(second, entries, uri),
        agree(first, second),
    ensures
        first == second,
{
    assert(agree(second, first));
    assert forall|uri: Seq<char>| first.contains_key(uri) implies second.contains_key(uri) by {
        lemma_reachable_in_both(first, second, entries, uri);
    }
    assert forall|uri: Seq<char>| second.contains_key(uri) implies first.contains_key(uri) by {
        lemma_reachable_in_both(second, first, entries, uri);
    }
    assert(first =~= second);
}

/// What can be reached in one closed graph is held by another closed graph
/// that holds the entries and agrees with the first on the modules that
/// both hold.
pub proof fn lemma_reachable_in_both(
    graph: Map<Seq<char>, ModuleView>,
    other: Map<Seq<char>, ModuleView>,
    entries: Seq<ResolvedView>,
    uri: Seq<char>,
)
    requires
        is_closed(graph),
        is_closed(other),
        forall|root: Seq<char>| #[trigger] is_root(entries, root) ==> other.contains_key(root),
        forall|root: Seq<char>| #[trigger] is_root(entries, root) ==> graph.contains_key(root),
        agree(graph, other),
        reachable(graph, entries, uri),
    ensures
        other.contains_key(uri),
{
    let root = choose|root: Seq<char>| #[trigger]
        is_root(entries, root) && reaches(graph, root, uri);
    let path = choose|path: Seq<Seq<char>>| #[trigger]
        is_path(graph, path) && path.first() == root && path.last() == uri;
    lemma_path_in_both(graph, other, path, path.len() - 1);
}

proof fn lemma_path_in_both(
    graph: Map<Seq<char>, ModuleView>,
    other: Map<Seq<char>, ModuleView>,
    path: Seq<Seq<char>>,
    upto: int,
)
    requires
        is_closed(graph),
        is_closed(other),
        agree(graph, other),
        is_path(graph, path),
        graph.contains_key(path.first()),
        other.contains_key(path.first()),
        0 <= upto < path.len(),
    ensures
        graph.contains_key(path[upto]),
        other.contains_key(path[upto]),
    decreases upto,
{
    if upto > 0 {
        lemma_path_in_both(graph, other, path, upto - 1);
        let from = path[upto - 1];
        assert(refers_to(graph, path[upto - 1], path[upto - 1 + 1]));
        assert(graph[from] == other[from]);
        let k = choose|k: int|
            0 <= k < graph[from].dependencies.len() && (
            #[trigger] graph[from].dependencies[k]).target() == Some(path[upto]);
        assert(other[from].dependencies[k].target() == Some(path[upto]));
        assert(refers_to(other, from, path[upto]));
    }
}

/// A change of a module that the build has never visited makes nothing
/// stale: nothing would be taken out of the build.
pub proof fn lemma_unvisited_change(state: BundleView, changed: Seq<char>)
    requires
        !state.ctx.visited.contains(changed),
    ensures
        state.stale(changed) == Set::<Seq<char>>::empty(),
        state.invalidate(changed) == (BundleView { closed: false, ..state }),
{
    let stale = state.stale(changed);
    assert(stale =~= Set::empty());
    lemma_keep_all(state.nodes, |m: ModuleView| m.uri, stale);
    lemma_keep_all(state.failed, |text: Seq<char>| text, stale);
    lemma_keep_all(state.errors, |e: ErrorView| e.uri, stale);
    assert(state.ctx.visited.difference(stale) =~= state.ctx.visited);
}

/// Where no other module refers to the changed module, the changed module
/// alone is stale.
pub proof fn lemma_change_without_referrers(state: BundleView, changed: Seq<char>)
    requires
        state.ctx.visited.contains(changed),
        forall|i: int|
            0 <= i < state.nodes.len() && (#[trigger] state.nodes[i]).uri != changed
                ==> !state.nodes[i].refers_to(changed),
        uris_of(state.nodes).no_duplicates(),
    ensures
        state.stale(changed) == set![changed],
{
    let graph = by_uri(state.nodes);
    let stale = state.stale(changed);
    lemma_reaches_itself(graph, changed);
    assert forall|uri: Seq<char>| stale.contains(uri) implies uri == changed by {
        let path = choose|path: Seq<Seq<char>>| #[trigger]
            is_path(graph, path) && path.first() == uri && path.last() == changed;
        lemma_path_into_unreferred(state.nodes, changed, path);
    }
    assert(stale =~= set![changed]);
}

/// A path that ends at a module to which no other module refers starts
/// there.
pub proof fn lemma_path_into_unreferred(
    nodes: Seq<ModuleView>,
    changed: Seq<char>,
    path: Seq<Seq<char>>,
)
    requires
        uris_of(nodes).no_duplicates(),
        forall|i: int|
            0 <= i < nodes.len() && (#[trigger] nodes[i]).uri != changed ==> !nodes[i].refers_to(
                changed,
            ),
        is_path(by_uri(nodes), path),
        path.last() == changed,
    ensures
        path.first() == changed,
    decreases path.len(),
{
    let graph = by_uri(nodes);
    if path.len() > 1 {
        let rest = path.drop_first();
        assert forall|j: int| 0 <= j < rest.len() - 1 implies refers_to(
            graph,
            #[trigger] rest[j],
            rest[j + 1],
        ) by {
            assert(refers_to(graph, path[j + 1], path[j + 1 + 1]));
        }
        lemma_path_into_unreferred(nodes, changed, rest);
        assert(refers_to(graph, path[0int], path[0int + 1]));
        let from = path[0int];
        let uris = uris_of(nodes);
        let i = uris.index_of(from);
        assert(0 <= i < uris.len() && uris[i] == from);
        lemma_by_uri(nodes, i);
        let k = choose|k: int|
            0 <= k < graph[from].dependencies.len() && (
            #[trigger] graph[from].dependencies[k]).target() == Some(path[1int]);
        assert(nodes[i].dependencies[k].target() == Some(changed));
        assert(nodes[i].refers_to(changed));
    }
}

} // verus!
