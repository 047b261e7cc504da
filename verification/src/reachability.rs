//! Paths through a module graph, along the references of its nodes.

use crate::module::ModuleView;
use crate::ResolvedView;
use vstd::prelude::*;

verus! {

/// The module `from` is in the graph and one of its references leads to
/// `to`.
pub open spec fn refers_to(graph: Map<Seq<char>, ModuleView>, from: Seq<char>, to: Seq<char>) -> bool {
    graph.contains_key(from) && exists|k: int|
        0 <= k < graph[from].dependencies.len() && (#[trigger] graph[from].dependencies[k]).target()
            == Some(to)
}

/// The module `from` is in the graph and one of its static references leads
/// to `to`.
pub open spec fn imports(graph: Map<Seq<char>, ModuleView>, from: Seq<char>, to: Seq<char>) -> bool {
    graph.contains_key(from) && exists|k: int|
        0 <= k < graph[from].dependencies.len() && !(
        #[trigger] graph[from].dependencies[k]).is_dynamic() && graph[from].dependencies[k].target()
            == Some(to)
}

/// A non-empty sequence of identifiers in which each module refers to the
/// next.
pub open spec fn is_path(graph: Map<Seq<char>, ModuleView>, path: Seq<Seq<char>>) -> bool {
    path.len() > 0 && forall|i: int|
        0 <= i < path.len() - 1 ==> refers_to(graph, #[trigger] path[i], path[i + 1])
}

/// There is a path from `from` to `to`; every identifier reaches itself.
pub open spec fn reaches(graph: Map<Seq<char>, ModuleView>, from: Seq<char>, to: Seq<char>) -> bool {
    exists|path: Seq<Seq<char>>| #[trigger]
        is_path(graph, path) && path.first() == from && path.last() == to
}

/// A non-empty sequence of identifiers in which each module statically
/// refers to the next.
pub open spec fn is_static_path(graph: Map<Seq<char>, ModuleView>, path: Seq<Seq<char>>) -> bool {
    path.len() > 0 && forall|i: int|
        0 <= i < path.len() - 1 ==> imports(graph, #[trigger] path[i], path[i + 1])
}

/// There is a path of static references from `from` to `to`; every
/// identifier reaches itself.
pub open spec fn reaches_statically(
    graph: Map<Seq<char>, ModuleView>,
    from: Seq<char>,
    to: Seq<char>,
) -> bool {
    exists|path: Seq<Seq<char>>| #[trigger]
        is_static_path(graph, path) && path.first() == from && path.last() == to
}

/// `uri` is the identifier of an entry that is neither external nor
/// ignored.
pub open spec fn is_root(entries: Seq<ResolvedView>, uri: Seq<char>) -> bool {
    exists|i: int|
        0 <= i < entries.len() && (#[trigger] entries[i]).is_internal() && entries[i].uri == uri
}

/// `uri` can be reached from an entry, over static and dynamic references.
pub open spec fn reachable(
    graph: Map<Seq<char>, ModuleView>,
    entries: Seq<ResolvedView>,
    uri: Seq<char>,
) -> bool {
    exists|root: Seq<char>| #[trigger] is_root(entries, root) && reaches(graph, root, uri)
}

/// Whatever a module of the graph refers to is in the graph.
pub open spec fn is_closed(graph: Map<Seq<char>, ModuleView>) -> bool {
    forall|from: Seq<char>, to: Seq<char>| #[trigger]
        refers_to(graph, from, to) ==> graph.contains_key(to)
}

/// In a closed graph, a path that starts inside the graph stays inside.
pub proof fn lemma_path_stays_inside(
    graph: Map<Seq<char>, ModuleView>,
    path: Seq<Seq<char>>,
    upto: int,
)
    requires
        is_closed(graph),
        is_path(graph, path),
        graph.contains_key(path.first()),
        0 <= upto < path.len(),
    ensures
        graph.contains_key(path[upto]),
    decreases upto,
{
    if upto > 0 {
        lemma_path_stays_inside(graph, path, upto - 1);
        assert(refers_to(graph, path[upto - 1], path[upto - 1 + 1]));
    }
}

/// A closed graph that holds every entry holds every module that can be
/// reached from an entry.
pub proof fn lemma_closed_graph_holds_reachable(
    graph: Map<Seq<char>, ModuleView>,
    entries: Seq<ResolvedView>,
    uri: Seq<char>,
)
    requires
        is_closed(graph),
        forall|root: Seq<char>| #[trigger] is_root(entries, root) ==> graph.contains_key(root),
        reachable(graph, entries, uri),
    ensures
        graph.contains_key(uri),
{
    let root = choose|root: Seq<char>| #[trigger]
        is_root(entries, root) && reaches(graph, root, uri);
    let path = choose|path: Seq<Seq<char>>| #[trigger]
        is_path(graph, path) && path.first() == root && path.last() == uri;
    lemma_path_stays_inside(graph, path, path.len() - 1);
}

/// An entry that is neither external nor ignored can be reached.
pub proof fn lemma_root_reachable(
    graph: Map<Seq<char>, ModuleView>,
    entries: Seq<ResolvedView>,
    root: Seq<char>,
)
    requires
        is_root(entries, root),
    ensures
        reachable(graph, entries, root),
{
    let path = seq![root];
    assert(is_path(graph, path) && path.first() == root && path.last() == root);
    assert(reaches(graph, root, root));
}

/// What a reachable module refers to can be reached.
pub proof fn lemma_reachable_step(
    graph: Map<Seq<char>, ModuleView>,
    entries: Seq<ResolvedView>,
    from: Seq<char>,
    to: Seq<char>,
)
    requires
        reachable(graph, entries, from),
        refers_to(graph, from, to),
    ensures
        reachable(graph, entries, to),
{
    let root = choose|root: Seq<char>| #[trigger]
        is_root(entries, root) && reaches(graph, root, from);
    let first = choose|path: Seq<Seq<char>>| #[trigger]
        is_path(graph, path) && path.first() == root && path.last() == from;
    let path = first.push(to);
    assert forall|i: int| 0 <= i < path.len() - 1 implies refers_to(
        graph,
        #[trigger] path[i],
        path[i + 1],
    ) by {
        if i < first.len() - 1 {
            assert(refers_to(graph, first[i], first[i + 1]));
        }
    }
    assert(is_path(graph, path) && path.first() == root && path.last() == to);
    assert(reaches(graph, root, to));
}

/// `bigger` holds every module of `graph` with the same references.
pub open spec fn extends_graph(
    bigger: Map<Seq<char>, ModuleView>,
    graph: Map<Seq<char>, ModuleView>,
) -> bool {
    forall|uri: Seq<char>| #[trigger]
        graph.contains_key(uri) ==> bigger.contains_key(uri) && bigger[uri].dependencies
            == graph[uri].dependencies
}

/// What can be reached stays reachable when modules and entries are added.
pub proof fn lemma_reachable_grows(
    graph: Map<Seq<char>, ModuleView>,
    bigger: Map<Seq<char>, ModuleView>,
    entries: Seq<ResolvedView>,
    more: Seq<ResolvedView>,
    uri: Seq<char>,
)
    requires
        extends_graph(bigger, graph),
        forall|root: Seq<char>| #[trigger] is_root(entries, root) ==> is_root(more, root),
        reachable(graph, entries, uri),
    ensures
        reachable(bigger, more, uri),
{
    let root = choose|root: Seq<char>| #[trigger]
        is_root(entries, root) && reaches(graph, root, uri);
    let path = choose|path: Seq<Seq<char>>| #[trigger]
        is_path(graph, path) && path.first() == root && path.last() == uri;
    assert forall|i: int| 0 <= i < path.len() - 1 implies refers_to(
        bigger,
        #[trigger] path[i],
        path[i + 1],
    ) by {
        assert(refers_to(graph, path[i], path[i + 1]));
        let k = choose|k: int|
            0 <= k < graph[path[i]].dependencies.len() && (
            #[trigger] graph[path[i]].dependencies[k]).target() == Some(path[i + 1]);
        assert(bigger[path[i]].dependencies[k].target() == Some(path[i + 1]));
    }
    assert(is_path(bigger, path) && path.first() == root && path.last() == uri);
    assert(reaches(bigger, root, uri));
    assert(is_root(more, root));
}

} // verus!
