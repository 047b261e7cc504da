//! What holds of the execution order.

use crate::finalize::{
    adjacency, execution_order, finalized, lemma_adjacency_is_graph,
    lemma_execution_order_distinct, lemma_finalized_keeps, lemma_roots_bounded, rank, roots_of,
    static_targets,
};
use crate::module::{DependencyView, ModuleView};
use crate::module_graph::{by_uri, lemma_by_uri, uris_of};
use crate::reachability::{imports, is_root, is_static_path, reaches_statically};
use crate::traversal::{
    has_edge, is_renamed_graph, is_renaming, is_walk, leads_to, lemma_edge_then_walk,
    lemma_leads_to_itself, lemma_post_order_complete, lemma_post_order_edges,
    lemma_post_order_renamed, lemma_post_order_root_last, neighbour_ordered,
};
use crate::ResolvedView;
use vstd::prelude::*;

verus! {

/// One of `dependencies` is a static reference to the module stored at
/// `index`.
pub open spec fn is_static_target(
    uris: Seq<Seq<char>>,
    dependencies: Seq<DependencyView>,
    index: usize,
) -> bool {
    exists|k: int|
        0 <= k < dependencies.len() && !(#[trigger] dependencies[k]).is_dynamic()
            && dependencies[k].target() is Some && uris.contains(
            dependencies[k].target().unwrap(),
        ) && uris.index_of(dependencies[k].target().unwrap()) == index
}

/// Each static target stands for a static reference to a module of the
/// graph, and each such reference has its static target.
pub proof fn lemma_static_targets_are_imports(
    uris: Seq<Seq<char>>,
    dependencies: Seq<DependencyView>,
)
    requires
        uris.len() <= usize::MAX,
    ensures
        forall|m: int|
            0 <= m < static_targets(uris, dependencies).len() ==> is_static_target(
                uris,
                dependencies,
                #[trigger] static_targets(uris, dependencies)[m],
            ),
        forall|k: int|
            0 <= k < dependencies.len() && !(#[trigger] dependencies[k]).is_dynamic()
                && dependencies[k].target() is Some && uris.contains(
                dependencies[k].target().unwrap(),
            ) ==> static_targets(uris, dependencies).contains(
                uris.index_of(dependencies[k].target().unwrap()) as usize,
            ),
    decreases dependencies.len(),
{
    if dependencies.len() > 0 {
        let shorter = dependencies.drop_last();
        lemma_static_targets_are_imports(uris, shorter);
        let before = static_targets(uris, shorter);
        let all = static_targets(uris, dependencies);
        let last = dependencies.last();
        let added = last.target() is Some && !last.is_dynamic() && uris.contains(
            last.target().unwrap(),
        );
        assert forall|m: int| 0 <= m < all.len() implies is_static_target(
            uris,
            dependencies,
            #[trigger] all[m],
        ) by {
            if m < before.len() {
                assert(all[m] == before[m]);
                assert(is_static_target(uris, shorter, before[m]));
                let k = choose|k: int|
                    0 <= k < shorter.len() && !(#[trigger] shorter[k]).is_dynamic()
                        && shorter[k].target() is Some && uris.contains(
                        shorter[k].target().unwrap(),
                    ) && uris.index_of(shorter[k].target().unwrap()) == before[m];
                assert(dependencies[k] == shorter[k]);
            } else {
                let i = uris.index_of(last.target().unwrap());
                assert(0 <= i < uris.len());
                assert(dependencies[dependencies.len() - 1] == last);
            }
        }
        assert forall|k: int|
            0 <= k < dependencies.len() && !(#[trigger] dependencies[k]).is_dynamic()
                && dependencies[k].target() is Some && uris.contains(
                dependencies[k].target().unwrap(),
            ) implies all.contains(uris.index_of(dependencies[k].target().unwrap()) as usize) by {
            let wanted = uris.index_of(dependencies[k].target().unwrap()) as usize;
            if k < shorter.len() {
                assert(shorter[k] == dependencies[k]);
                assert(before.contains(wanted));
                let m = choose|m: int| 0 <= m < before.len() && before[m] == wanted;
                assert(all[m] == wanted);
            } else {
                assert(all[before.len() as int] == wanted);
            }
        }
    }
}

/// An edge of the adjacency lists is a static reference between the modules
/// stored at its ends.
pub proof fn lemma_edge_is_import(nodes: Seq<ModuleView>, from: usize, to: usize)
    requires
        uris_of(nodes).no_duplicates(),
        nodes.len() <= usize::MAX,
        has_edge(adjacency(nodes), from, to),
    ensures
        to < nodes.len(),
        imports(by_uri(nodes), nodes[from as int].uri, nodes[to as int].uri),
{
    let uris = uris_of(nodes);
    let dependencies = nodes[from as int].dependencies;
    lemma_static_targets_are_imports(uris, dependencies);
    let targets = static_targets(uris, dependencies);
    let m = choose|m: int| 0 <= m < targets.len() && targets[m] == to;
    assert(is_static_target(uris, dependencies, targets[m]));
    let k = choose|k: int|
        0 <= k < dependencies.len() && !(#[trigger] dependencies[k]).is_dynamic()
            && dependencies[k].target() is Some && uris.contains(
            dependencies[k].target().unwrap(),
        ) && uris.index_of(dependencies[k].target().unwrap()) == targets[m];
    let uri = dependencies[k].target().unwrap();
    let i = uris.index_of(uri);
    assert(0 <= i < uris.len() && uris[i] == uri);
    lemma_by_uri(nodes, from as int);
    assert(by_uri(nodes)[nodes[from as int].uri].dependencies[k].target() == Some(
        nodes[to as int].uri,
    ));
}

/// A static reference between two modules of the graph is an edge of the
/// adjacency lists.
pub proof fn lemma_import_is_edge(nodes: Seq<ModuleView>, from: int, to: int)
    requires
        uris_of(nodes).no_duplicates(),
        nodes.len() <= usize::MAX,
        0 <= from < nodes.len(),
        0 <= to < nodes.len(),
        imports(by_uri(nodes), nodes[from].uri, nodes[to].uri),
    ensures
        has_edge(adjacency(nodes), from as usize, to as usize),
{
    let uris = uris_of(nodes);
    let graph = by_uri(nodes);
    lemma_by_uri(nodes, from);
    lemma_by_uri(nodes, to);
    let dependencies = nodes[from].dependencies;
    lemma_static_targets_are_imports(uris, dependencies);
    let k = choose|k: int|
        0 <= k < graph[nodes[from].uri].dependencies.len() && !(
        #[trigger] graph[nodes[from].uri].dependencies[k]).is_dynamic()
            && graph[nodes[from].uri].dependencies[k].target() == Some(nodes[to].uri);
    assert(uris[to] == nodes[to].uri);
    assert(!dependencies[k].is_dynamic());
}

/// A walk through the adjacency lists is a path of static references
/// between the modules stored at its nodes.
pub proof fn lemma_walk_is_static_path(nodes: Seq<ModuleView>, from: usize, to: usize)
    requires
        uris_of(nodes).no_duplicates(),
        nodes.len() <= usize::MAX,
        from < nodes.len(),
        leads_to(adjacency(nodes), from, to),
    ensures
        to < nodes.len(),
        reaches_statically(by_uri(nodes), nodes[from as int].uri, nodes[to as int].uri),
{
    let adj = adjacency(nodes);
    let walk = choose|walk: Seq<usize>| #[trigger]
        is_walk(adj, walk) && walk.first() == from && walk.last() == to;
    assert forall|i: int| 0 <= i < walk.len() implies (#[trigger] walk[i]) < nodes.len() by {
        lemma_walk_bounded(nodes, walk, i);
    }
    let path = Seq::new(walk.len(), |i: int| nodes[walk[i] as int].uri);
    assert forall|i: int| 0 <= i < path.len() - 1 implies imports(
        by_uri(nodes),
        #[trigger] path[i],
        path[i + 1],
    ) by {
        assert(has_edge(adj, walk[i], walk[i + 1]));
        lemma_edge_is_import(nodes, walk[i], walk[i + 1]);
    }
    assert(is_static_path(by_uri(nodes), path) && path.first() == nodes[from as int].uri
        && path.last() == nodes[to as int].uri);
}

proof fn lemma_walk_bounded(nodes: Seq<ModuleView>, walk: Seq<usize>, upto: int)
    requires
        uris_of(nodes).no_duplicates(),
        nodes.len() <= usize::MAX,
        is_walk(adjacency(nodes), walk),
        walk.first() < nodes.len(),
        0 <= upto < walk.len(),
    ensures
        walk[upto] < nodes.len(),
    decreases upto,
{
    if upto > 0 {
        lemma_walk_bounded(nodes, walk, upto - 1);
        assert(has_edge(adjacency(nodes), walk[upto - 1], walk[upto - 1 + 1]));
        lemma_edge_is_import(nodes, walk[upto - 1], walk[upto]);
    }
}

/// A path of static references that starts in the graph and ends in the
/// graph is a walk through the adjacency lists.
pub proof fn lemma_static_path_is_walk(nodes: Seq<ModuleView>, path: Seq<Seq<char>>)
    requires
        uris_of(nodes).no_duplicates(),
        nodes.len() <= usize::MAX,
        is_static_path(by_uri(nodes), path),
        uris_of(nodes).contains(path.last()),
    ensures
        uris_of(nodes).contains(path.first()),
        leads_to(
            adjacency(nodes),
            uris_of(nodes).index_of(path.first()) as usize,
            uris_of(nodes).index_of(path.last()) as usize,
        ),
    decreases path.len(),
{
    let uris = uris_of(nodes);
    let adj = adjacency(nodes);
    let last = uris.index_of(path.last());
    assert(0 <= last < uris.len() && uris[last] == path.last());
    if path.len() == 1 {
        lemma_leads_to_itself(adj, last as usize);
    } else {
        let rest = path.drop_first();
        assert forall|i: int| 0 <= i < rest.len() - 1 implies imports(
            by_uri(nodes),
            #[trigger] rest[i],
            rest[i + 1],
        ) by {
            assert(imports(by_uri(nodes), path[i + 1], path[i + 1 + 1]));
        }
        lemma_static_path_is_walk(nodes, rest);
        assert(imports(by_uri(nodes), path[0int], path[0int + 1]));
        let first = uris.index_of(path.first());
        assert(0 <= first < uris.len() && uris[first] == path.first());
        let second = uris.index_of(rest.first());
        assert(0 <= second < uris.len() && uris[second] == rest.first());
        lemma_import_is_edge(nodes, first, second);
        lemma_edge_then_walk(adj, first as usize, second as usize, last as usize);
    }
}

/// Each root stands for an entry of the graph, and each such entry has its
/// root.
pub proof fn lemma_roots_are_entries(uris: Seq<Seq<char>>, entries: Seq<ResolvedView>)
    requires
        uris.len() <= usize::MAX,
    ensures
        forall|r: int|
            0 <= r < roots_of(uris, entries).len() ==> (#[trigger] roots_of(uris, entries)[r])
                < uris.len() && is_root(entries, uris[roots_of(uris, entries)[r] as int]),
        forall|uri: Seq<char>|
            is_root(entries, uri) && uris.contains(uri) ==> roots_of(uris, entries).contains(
                #[trigger] uris.index_of(uri) as usize,
            ),
    decreases entries.len(),
{
    if entries.len() > 0 {
        let shorter = entries.drop_last();
        lemma_roots_are_entries(uris, shorter);
        let before = roots_of(uris, shorter);
        let all = roots_of(uris, entries);
        let last = entries.last();
        assert forall|r: int| 0 <= r < all.len() implies (#[trigger] all[r]) < uris.len()
            && is_root(entries, uris[all[r] as int]) by {
            if r < before.len() {
                assert(all[r] == before[r]);
                let uri = uris[before[r] as int];
                let i = choose|i: int|
                    0 <= i < shorter.len() && (#[trigger] shorter[i]).is_internal()
                        && shorter[i].uri == uri;
                assert(entries[i] == shorter[i]);
            } else {
                let i = uris.index_of(last.uri);
                assert(0 <= i < uris.len() && uris[i] == last.uri);
                assert(entries[entries.len() - 1] == last);
            }
        }
        assert forall|uri: Seq<char>| is_root(entries, uri) && uris.contains(uri) implies all.contains(
            #[trigger] uris.index_of(uri) as usize,
        ) by {
            let wanted = uris.index_of(uri) as usize;
            let i = choose|i: int|
                0 <= i < entries.len() && (#[trigger] entries[i]).is_internal() && entries[i].uri
                    == uri;
            if i < shorter.len() {
                assert(shorter[i] == entries[i]);
                assert(is_root(shorter, uri));
                assert(before.contains(wanted));
                let m = choose|m: int| 0 <= m < before.len() && before[m] == wanted;
                assert(all[m] == wanted);
            } else {
                assert(all[before.len() as int] == wanted);
            }
        }
    }
}

/// The execution order is a numbering: the modules that have a place are
/// those that the order names, their places are distinct, and every number
/// below the count of ordered modules is the place of one of them.
pub proof fn lemma_exec_order_is_numbering(nodes: Seq<ModuleView>, entries: Seq<ResolvedView>)
    requires
        nodes.len() <= usize::MAX,
    ensures
        forall|i: int|
            0 <= i < nodes.len() ==> ((#[trigger] finalized(nodes, entries)[i]).exec_order
                != usize::MAX <==> execution_order(nodes, entries).contains(i as usize)),
        forall|i: int|
            0 <= i < nodes.len() && (#[trigger] finalized(nodes, entries)[i]).exec_order
                != usize::MAX ==> finalized(nodes, entries)[i].exec_order < execution_order(
                nodes,
                entries,
            ).len(),
        forall|i: int, j: int|
            0 <= i < nodes.len() && 0 <= j < nodes.len() && i != j && (#[trigger] finalized(
                nodes,
                entries,
            )[i]).exec_order != usize::MAX ==> finalized(nodes, entries)[i].exec_order != (
            #[trigger] finalized(nodes, entries)[j]).exec_order,
        forall|k: int|
            0 <= k < execution_order(nodes, entries).len() ==> finalized(nodes, entries)[(
            #[trigger] execution_order(nodes, entries)[k]) as int].exec_order == k,
{
    let order = execution_order(nodes, entries);
    let done = finalized(nodes, entries);
    lemma_execution_order_distinct(nodes, entries);
    assert forall|i: int| 0 <= i < nodes.len() implies ((#[trigger] done[i]).exec_order
        != usize::MAX <==> order.contains(i as usize)) && (done[i].exec_order != usize::MAX
        ==> done[i].exec_order < order.len() && order[done[i].exec_order as int] == i) by {
        if order.contains(i as usize) {
            let k = order.index_of(i as usize);
            assert(0 <= k < order.len() && order[k] == i as usize);
        }
    }
    assert forall|i: int, j: int|
        0 <= i < nodes.len() && 0 <= j < nodes.len() && i != j && (#[trigger] done[i]).exec_order
            != usize::MAX implies done[i].exec_order != (#[trigger] done[j]).exec_order by {
        if done[j].exec_order != usize::MAX {
            assert(order[done[i].exec_order as int] == i);
            assert(order[done[j].exec_order as int] == j);
        }
    }
    assert forall|k: int| 0 <= k < order.len() implies done[(#[trigger] order[k]) as int].exec_order
        == k by {
        let node = order[k];
        assert(order.contains(node));
        let found = order.index_of(node);
        assert(0 <= found < order.len() && order[found] == node);
    }
}

/// The modules that have a place in the execution order are exactly those
/// that an entry reaches over static references.
pub proof fn lemma_exec_order_covers_static_closure(
    nodes: Seq<ModuleView>,
    entries: Seq<ResolvedView>,
    i: int,
)
    requires
        uris_of(nodes).no_duplicates(),
        nodes.len() <= usize::MAX,
        0 <= i < nodes.len(),
    ensures
        finalized(nodes, entries)[i].exec_order != usize::MAX <==> exists|root: Seq<char>|
            #![trigger is_root(entries, root)]
            is_root(entries, root) && by_uri(nodes).contains_key(root) && reaches_statically(
                by_uri(nodes),
                root,
                nodes[i].uri,
            ),
{
    let uris = uris_of(nodes);
    let adj = adjacency(nodes);
    let roots = roots_of(uris, entries);
    let order = execution_order(nodes, entries);
    lemma_adjacency_is_graph(nodes);
    lemma_roots_bounded(uris, entries);
    lemma_roots_are_entries(uris, entries);
    lemma_exec_order_is_numbering(nodes, entries);
    lemma_post_order_edges(adj, roots);
    if order.contains(i as usize) {
        let k = order.index_of(i as usize);
        assert(0 <= k < order.len() && order[k] == i as usize);
        let r = choose|r: int|
            0 <= r < roots.len() && leads_to(adj, #[trigger] roots[r], #[trigger] order[k]);
        lemma_walk_is_static_path(nodes, roots[r], i as usize);
        let root = uris[roots[r] as int];
        assert(is_root(entries, root));
        assert(uris.contains(root));
        assert(nodes[roots[r] as int].uri == root);
    }
    if exists|root: Seq<char>|
        #![trigger is_root(entries, root)]
        is_root(entries, root) && by_uri(nodes).contains_key(root) && reaches_statically(
            by_uri(nodes),
            root,
            nodes[i].uri,
        ) {
        let root = choose|root: Seq<char>|
            #![trigger is_root(entries, root)]
            is_root(entries, root) && by_uri(nodes).contains_key(root) && reaches_statically(
                by_uri(nodes),
                root,
                nodes[i].uri,
            );
        let path = choose|path: Seq<Seq<char>>| #[trigger]
            is_static_path(by_uri(nodes), path) && path.first() == root && path.last()
                == nodes[i].uri;
        assert(uris[i] == nodes[i].uri);
        lemma_static_path_is_walk(nodes, path);
        lemma_by_uri(nodes, i);
        let wanted = uris.index_of(root) as usize;
        assert(roots.contains(wanted));
        let r = choose|r: int| 0 <= r < roots.len() && roots[r] == wanted;
        lemma_post_order_complete(adj, roots, r, i as usize);
    }
}

/// The execution order respects static references.
///
/// Where a module with a place in the order statically refers to a module
/// of the graph, that module has a place too, and an earlier one, unless it
/// reaches the first module over static references: unless the two lie on a
/// cycle.
pub proof fn lemma_exec_order_respects_imports(
    nodes: Seq<ModuleView>,
    entries: Seq<ResolvedView>,
    from: int,
    to: int,
)
    requires
        uris_of(nodes).no_duplicates(),
        nodes.len() <= usize::MAX,
        0 <= from < nodes.len(),
        0 <= to < nodes.len(),
        imports(by_uri(nodes), nodes[from].uri, nodes[to].uri),
        finalized(nodes, entries)[from].exec_order != usize::MAX,
    ensures
        finalized(nodes, entries)[to].exec_order != usize::MAX,
        finalized(nodes, entries)[to].exec_order < finalized(nodes, entries)[from].exec_order
            || reaches_statically(by_uri(nodes), nodes[to].uri, nodes[from].uri),
{
    let uris = uris_of(nodes);
    let adj = adjacency(nodes);
    let roots = roots_of(uris, entries);
    let order = execution_order(nodes, entries);
    lemma_adjacency_is_graph(nodes);
    lemma_roots_bounded(uris, entries);
    lemma_exec_order_is_numbering(nodes, entries);
    lemma_post_order_edges(adj, roots);
    lemma_import_is_edge(nodes, from, to);
    let k = order.index_of(from as usize);
    assert(0 <= k < order.len() && order[k] == from as usize);
    let m = choose|m: int| 0 <= m < adj[from].len() && adj[from][m] == to as usize;
    assert(neighbour_ordered(adj, order, k, m));
    let found = order.index_of(to as usize);
    assert(0 <= found < order.len() && order[found] == to as usize);
    if !(found < k) {
        lemma_walk_is_static_path(nodes, to as usize, from as usize);
    }
}

/// In a build with a single entry, the entry is executed last.
pub proof fn lemma_single_entry_is_last(nodes: Seq<ModuleView>, entries: Seq<ResolvedView>)
    requires
        nodes.len() <= usize::MAX,
        roots_of(uris_of(nodes), entries).len() == 1,
    ensures
        execution_order(nodes, entries).len() > 0,
        finalized(nodes, entries)[roots_of(uris_of(nodes), entries)[0] as int].exec_order
            == execution_order(nodes, entries).len() - 1,
{
    let roots = roots_of(uris_of(nodes), entries);
    lemma_adjacency_is_graph(nodes);
    lemma_roots_bounded(uris_of(nodes), entries);
    assert(roots =~= seq![roots[0]]);
    lemma_post_order_root_last(adjacency(nodes), roots[0]);
    lemma_exec_order_is_numbering(nodes, entries);
    let order = execution_order(nodes, entries);
    assert(order[order.len() - 1] == roots[0]);
}

/// Where the node that is stored at `i` among `nodes` is stored among
/// `others`.
pub open spec fn place_among(nodes: Seq<ModuleView>, others: Seq<ModuleView>) -> spec_fn(usize) -> usize {
    |i: usize| uris_of(others).index_of(nodes[i as int].uri) as usize
}

/// Two sequences of nodes that stand for the same mapping hold the same
/// nodes, each at its place.
pub proof fn lemma_same_mapping(nodes: Seq<ModuleView>, others: Seq<ModuleView>)
    requires
        uris_of(nodes).no_duplicates(),
        uris_of(others).no_duplicates(),
        by_uri(nodes) == by_uri(others),
        nodes.len() <= usize::MAX,
    ensures
        others.len() == nodes.len(),
        is_renaming(place_among(nodes, others), nodes.len()),
        forall|i: usize|
            i < nodes.len() ==> others[#[trigger] place_among(nodes, others)(i) as int]
                == nodes[i as int],
        forall|uri: Seq<char>| uris_of(nodes).contains(uri) <==> uris_of(others).contains(uri),
        forall|uri: Seq<char>| #[trigger]
            uris_of(nodes).contains(uri) ==> uris_of(others).index_of(uri) == place_among(
                nodes,
                others,
            )(uris_of(nodes).index_of(uri) as usize),
{
    let to = place_among(nodes, others);
    let uris = uris_of(nodes);
    let names = uris_of(others);
    assert forall|uri: Seq<char>| uris.contains(uri) <==> names.contains(uri) by {
        assert(by_uri(nodes).dom().contains(uri) <==> uris.contains(uri));
        assert(by_uri(others).dom().contains(uri) <==> names.contains(uri));
    }
    uris.unique_seq_to_set();
    names.unique_seq_to_set();
    assert(uris.to_set() =~= names.to_set());
    assert(others.len() == nodes.len());
    assert forall|i: usize| i < nodes.len() implies to(i) < others.len() && others[to(i) as int]
        == nodes[i as int] by {
        let uri = nodes[i as int].uri;
        assert(uris[i as int] == uri);
        assert(uris.contains(uri));
        lemma_by_uri(nodes, i as int);
        assert(names.contains(uri));
        let j = names.index_of(uri);
        assert(0 <= j < names.len() && names[j] == uri);
        lemma_by_uri(others, j);
        assert(others[j].uri == uri);
        assert(by_uri(others)[uri] == others[j]);
        assert(to(i) == j as usize);
    }
    assert forall|i: usize, j: usize|
        i < nodes.len() && j < nodes.len() && i != j implies #[trigger] to(i) != #[trigger] to(
        j,
    ) by {
        assert(others[to(i) as int] == nodes[i as int]);
        assert(others[to(j) as int] == nodes[j as int]);
        assert(uris[i as int] != uris[j as int]);
    }
    assert forall|uri: Seq<char>| #[trigger] uris.contains(uri) implies names.index_of(uri) == to(
        uris.index_of(uri) as usize,
    ) by {
        let i = uris.index_of(uri);
        assert(0 <= i < uris.len() && uris[i] == uri);
    }
}

/// Static targets among nodes stored in another order are the static
/// targets renamed.
pub proof fn lemma_static_targets_renamed(
    uris: Seq<Seq<char>>,
    names: Seq<Seq<char>>,
    to: spec_fn(usize) -> usize,
    dependencies: Seq<DependencyView>,
)
    requires
        forall|uri: Seq<char>| uris.contains(uri) <==> names.contains(uri),
        forall|uri: Seq<char>| #[trigger]
            uris.contains(uri) ==> names.index_of(uri) == to(uris.index_of(uri) as usize),
        names.len() <= usize::MAX,
    ensures
        static_targets(names, dependencies) == static_targets(uris, dependencies).map_values(to),
    decreases dependencies.len(),
{
    if dependencies.len() > 0 {
        lemma_static_targets_renamed(uris, names, to, dependencies.drop_last());
        if let Some(uri) = dependencies.last().target() {
            if uris.contains(uri) {
                let j = names.index_of(uri);
                assert(0 <= j < names.len());
            }
        }
        assert(static_targets(names, dependencies) =~= static_targets(
            uris,
            dependencies,
        ).map_values(to));
    } else {
        assert(static_targets(names, dependencies) =~= static_targets(
            uris,
            dependencies,
        ).map_values(to));
    }
}

/// Roots among nodes stored in another order are the roots renamed.
pub proof fn lemma_roots_renamed(
    uris: Seq<Seq<char>>,
    names: Seq<Seq<char>>,
    to: spec_fn(usize) -> usize,
    entries: Seq<ResolvedView>,
)
    requires
        forall|uri: Seq<char>| uris.contains(uri) <==> names.contains(uri),
        forall|uri: Seq<char>| #[trigger]
            uris.contains(uri) ==> names.index_of(uri) == to(uris.index_of(uri) as usize),
        names.len() <= usize::MAX,
    ensures
        roots_of(names, entries) == roots_of(uris, entries).map_values(to),
    decreases entries.len(),
{
    if entries.len() > 0 {
        lemma_roots_renamed(uris, names, to, entries.drop_last());
        if uris.contains(entries.last().uri) {
            let j = names.index_of(entries.last().uri);
            assert(0 <= j < names.len());
        }
        assert(roots_of(names, entries) =~= roots_of(uris, entries).map_values(to));
    } else {
        assert(roots_of(names, entries) =~= roots_of(uris, entries).map_values(to));
    }
}

/// A renaming keeps what an order names and where.
pub proof fn lemma_rank_renamed(order: Seq<usize>, to: spec_fn(usize) -> usize, count: nat, node: usize)
    requires
        is_renaming(to, count),
        order.no_duplicates(),
        forall|k: int| 0 <= k < order.len() ==> (#[trigger] order[k]) < count,
        node < count,
    ensures
        order.map_values(to).contains(to(node)) <==> order.contains(node),
        rank(order.map_values(to), to(node)) == rank(order, node),
{
    let images = order.map_values(to);
    if order.contains(node) {
        let k = order.index_of(node);
        assert(0 <= k < order.len() && order[k] == node);
        assert(images[k] == to(node));
        let found = images.index_of(to(node));
        assert(0 <= found < images.len() && images[found] == to(node));
        assert(to(order[found]) == to(node));
        if order[found] != node {
            assert(order[found] < count);
        }
    }
    if images.contains(to(node)) {
        let k = images.index_of(to(node));
        assert(0 <= k < images.len() && images[k] == to(node));
        assert(to(order[k]) == to(node));
        if order[k] != node {
            assert(order[k] < count);
        }
        assert(order.contains(order[k]));
    }
}

/// The pass does not depend on the order in which the nodes are stored:
/// graphs that stand for the same mapping stand for the same mapping
/// afterwards. So every module gets the same place in the execution order
/// whatever the order in which the modules of a build were finished.
pub proof fn lemma_finalized_independent_of_storage(
    nodes: Seq<ModuleView>,
    others: Seq<ModuleView>,
    entries: Seq<ResolvedView>,
)
    requires
        uris_of(nodes).no_duplicates(),
        uris_of(others).no_duplicates(),
        by_uri(nodes) == by_uri(others),
        nodes.len() <= usize::MAX,
    ensures
        by_uri(finalized(nodes, entries)) == by_uri(finalized(others, entries)),
{
    let to = place_among(nodes, others);
    let uris = uris_of(nodes);
    let names = uris_of(others);
    lemma_same_mapping(nodes, others);
    let adj = adjacency(nodes);
    let renamed = adjacency(others);
    lemma_adjacency_is_graph(nodes);
    lemma_roots_bounded(uris, entries);
    assert(is_renamed_graph(adj, renamed, to)) by {
        assert forall|i: usize| i < adj.len() implies renamed[#[trigger] to(i) as int]
            == adj[i as int].map_values(to) by {
            assert(others[to(i) as int] == nodes[i as int]);
            lemma_static_targets_renamed(uris, names, to, nodes[i as int].dependencies);
        }
    }
    lemma_roots_renamed(uris, names, to, entries);
    let roots = roots_of(uris, entries);
    lemma_post_order_renamed(adj, renamed, to, roots);
    let order = execution_order(nodes, entries);
    assert(execution_order(others, entries) == order.map_values(to));
    lemma_execution_order_distinct(nodes, entries);
    let done = finalized(nodes, entries);
    let done_others = finalized(others, entries);
    lemma_finalized_keeps(nodes, entries);
    lemma_finalized_keeps(others, entries);
    assert forall|i: usize| i < nodes.len() implies done_others[#[trigger] to(i) as int]
        == done[i as int] by {
        assert(others[to(i) as int] == nodes[i as int]);
        lemma_rank_renamed(order, to, nodes.len(), i);
        let images = roots.map_values(to);
        if roots.contains(i) {
            let k = choose|k: int| 0 <= k < roots.len() && roots[k] == i;
            assert(images[k] == to(i));
        }
        if images.contains(to(i)) {
            let k = choose|k: int| 0 <= k < images.len() && images[k] == to(i);
            assert(to(roots[k]) == to(i));
            if roots[k] != i {
                assert(roots[k] < nodes.len());
            }
            assert(roots.contains(roots[k]));
        }
    }
    assert forall|uri: Seq<char>| by_uri(done).contains_key(uri) implies by_uri(
        done_others,
    ).contains_key(uri) && by_uri(done)[uri] == by_uri(done_others)[uri] by {
        let i = uris.index_of(uri);
        assert(0 <= i < uris.len() && uris[i] == uri);
        lemma_by_uri(done, i);
        let j = to(i as usize);
        assert(done_others[j as int] == done[i]);
        lemma_by_uri(done_others, j as int);
    }
    assert(by_uri(done) =~= by_uri(done_others));
}

} // verus!
