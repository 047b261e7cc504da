//! What a change of one module makes stale: the module itself and every
//! module that refers to it, directly or through others.

use crate::module::{module_views, ModuleGraphModule, ModuleView};
use crate::module_graph::{by_uri, lemma_by_uri, uris_of, ModuleGraph};
use crate::reachability::{is_path, reaches, refers_to};
use crate::text::{drop_texts, keep_by, lemma_keep_by_keys, lemma_keep_texts, texts};
use vstd::prelude::*;

verus! {

impl ModuleView {
    /// One of the references of this module leads to `uri`.
    pub open spec fn refers_to(self, uri: Seq<char>) -> bool {
        exists|k: int|
            0 <= k < self.dependencies.len() && (#[trigger] self.dependencies[k]).target() == Some(
                uri,
            )
    }
}

impl ModuleGraphModule {
    /// Whether one of the references of this module leads to `uri`.
    pub fn refers_to(&self, uri: &str) -> (refers: bool)
        ensures
            refers == self@.refers_to(uri@),
    {
        let mut k: usize = 0;
        while k < self.all_dependecies.len()
            invariant
                k <= self.all_dependecies.len(),
                forall|j: int| 0 <= j < k ==> (#[trigger] self@.dependencies[j]).target() != Some(uri@),
            decreases self.all_dependecies.len() - k,
        {
            if let Some(target) = self.all_dependecies[k].target() {
                if *target == *uri {
                    assert(self@.dependencies[k as int].target() == Some(uri@));
                    return true;
                }
            }
            k += 1;
        }
        false
    }
}

/// The nodes that refer to `uri`, in the order in which they are stored.
pub open spec fn referrers(nodes: Seq<ModuleView>, uri: Seq<char>) -> Seq<ModuleView>
    decreases nodes.len(),
{
    if nodes.len() == 0 {
        Seq::empty()
    } else if nodes.last().refers_to(uri) {
        referrers(nodes.drop_last(), uri).push(nodes.last())
    } else {
        referrers(nodes.drop_last(), uri)
    }
}

/// A reference followed by a path is a path.
pub proof fn lemma_reference_then_path(
    graph: Map<Seq<char>, ModuleView>,
    from: Seq<char>,
    via: Seq<char>,
    to: Seq<char>,
)
    requires
        refers_to(graph, from, via),
        reaches(graph, via, to),
    ensures
        reaches(graph, from, to),
{
    let rest = choose|path: Seq<Seq<char>>| #[trigger]
        is_path(graph, path) && path.first() == via && path.last() == to;
    let path = seq![from] + rest;
    assert forall|i: int| 0 <= i < path.len() - 1 implies refers_to(
        graph,
        #[trigger] path[i],
        path[i + 1],
    ) by {
        if i > 0 {
            assert(path[i] == rest[i - 1]);
            assert(path[i + 1] == rest[i - 1 + 1]);
            assert(refers_to(graph, rest[i - 1], rest[i - 1 + 1]));
        } else {
            assert(path[1] == rest[0]);
        }
    }
    assert(is_path(graph, path) && path.first() == from && path.last() == to);
}

/// Every identifier reaches itself.
pub proof fn lemma_reaches_itself(graph: Map<Seq<char>, ModuleView>, uri: Seq<char>)
    ensures
        reaches(graph, uri, uri),
{
    let path = seq![uri];
    assert(is_path(graph, path) && path.first() == uri && path.last() == uri);
}

/// The node stored at `i` refers to `changed` or to a node that is marked.
pub open spec fn refers_to_marked(
    nodes: Seq<ModuleView>,
    marks: Seq<bool>,
    changed: Seq<char>,
    i: int,
) -> bool {
    exists|k: int|
        0 <= k < nodes[i].dependencies.len() && (
        #[trigger] nodes[i].dependencies[k]).target() is Some && is_marked(
            nodes,
            marks,
            changed,
            nodes[i].dependencies[k].target().unwrap(),
        )
}

/// `uri` is `changed`, or the node that carries it is marked.
pub open spec fn is_marked(
    nodes: Seq<ModuleView>,
    marks: Seq<bool>,
    changed: Seq<char>,
    uri: Seq<char>,
) -> bool {
    uri == changed || (uris_of(nodes).contains(uri) && marks[uris_of(nodes).index_of(uri)])
}

/// Every marked node reaches `changed`.
pub open spec fn marks_sound(nodes: Seq<ModuleView>, marks: Seq<bool>, changed: Seq<char>) -> bool {
    forall|i: int|
        0 <= i < nodes.len() && #[trigger] marks[i] ==> reaches(
            by_uri(nodes),
            nodes[i].uri,
            changed,
        )
}

/// The node that carries `changed` is marked, and so is every node that
/// refers to `changed` or to a marked node.
pub open spec fn marks_closed(nodes: Seq<ModuleView>, marks: Seq<bool>, changed: Seq<char>) -> bool {
    forall|i: int|
        0 <= i < nodes.len() && (nodes[i].uri == changed || refers_to_marked(
            nodes,
            marks,
            changed,
            i,
        )) ==> #[trigger] marks[i]
}

/// Marks that are closed mark every node that reaches `changed`.
pub proof fn lemma_closed_marks_complete(
    nodes: Seq<ModuleView>,
    marks: Seq<bool>,
    changed: Seq<char>,
    path: Seq<Seq<char>>,
)
    requires
        uris_of(nodes).no_duplicates(),
        marks.len() == nodes.len(),
        marks_closed(nodes, marks, changed),
        is_path(by_uri(nodes), path),
        path.last() == changed,
        uris_of(nodes).contains(path.first()),
    ensures
        marks[uris_of(nodes).index_of(path.first())],
    decreases path.len(),
{
    let uris = uris_of(nodes);
    let graph = by_uri(nodes);
    let i = uris.index_of(path.first());
    assert(0 <= i < uris.len() && uris[i] == path.first());
    if path.len() > 1 {
        let rest = path.drop_first();
        assert forall|j: int| 0 <= j < rest.len() - 1 implies refers_to(
            graph,
            #[trigger] rest[j],
            rest[j + 1],
        ) by {
            assert(refers_to(graph, path[j + 1], path[j + 1 + 1]));
        }
        assert(refers_to(graph, path[0int], path[0int + 1]));
        lemma_by_uri(nodes, i);
        let k = choose|k: int|
            0 <= k < graph[path[0int]].dependencies.len() && (
            #[trigger] graph[path[0int]].dependencies[k]).target() == Some(path[1int]);
        if rest.first() != changed {
            if rest.len() > 1 {
                assert(refers_to(graph, rest[0int], rest[0int + 1]));
            }
            assert(uris.contains(rest.first())) by {
                assert(rest.len() > 1);
                assert(graph.contains_key(rest[0int]));
            }
            lemma_closed_marks_complete(nodes, marks, changed, rest);
        }
        assert(is_marked(nodes, marks, changed, nodes[i].dependencies[k].target().unwrap()));
        assert(refers_to_marked(nodes, marks, changed, i));
    }
}

/// The identifiers of the marked nodes.
pub open spec fn marked_uris(nodes: Seq<ModuleView>, marks: Seq<bool>) -> Set<Seq<char>> {
    Set::new(
        |uri: Seq<char>| exists|i: int| 0 <= i < nodes.len() && marks[i] && #[trigger] nodes[i].uri == uri,
    )
}

/// The nodes whose identifier is not in `drop`, in their order.
pub open spec fn keep_nodes(nodes: Seq<ModuleView>, drop: Set<Seq<char>>) -> Seq<ModuleView> {
    keep_by(nodes, |m: ModuleView| m.uri, drop)
}

impl ModuleGraph {
    /// The nodes that refer to `uri` directly.
    pub fn reverse_dependencies_of(&self, uri: &str) -> (found: Vec<&ModuleGraphModule>)
        ensures
            module_views(found@) == referrers(self.nodes(), uri@),
    {
        let mut found: Vec<&ModuleGraphModule> = Vec::new();
        let mut i: usize = 0;
        assert(self.nodes().take(0) =~= Seq::empty());
        assert(module_views(found@) =~= Seq::empty());
        while i < self.modules.len()
            invariant
                i <= self.modules.len(),
                module_views(found@) == referrers(self.nodes().take(i as int), uri@),
            decreases self.modules.len() - i,
        {
            proof {
                let upto = self.nodes().take(i + 1);
                assert(upto.drop_last() =~= self.nodes().take(i as int));
                assert(upto.last() == self.modules[i as int]@);
            }
            if self.modules[i].refers_to(uri) {
                let ghost before = found@;
                found.push(&self.modules[i]);
                assert(module_views(found@) =~= module_views(before).push(self.modules[i as int]@));
            }
            i += 1;
        }
        assert(self.nodes().take(i as int) =~= self.nodes());
        found
    }

    /// Takes the marked nodes out of the graph and hands back their
    /// identifiers, in the order in which the nodes were stored.
    pub fn remove_marked(&mut self, marks: &Vec<bool>) -> (removed: Vec<String>)
        requires
            old(self).wf(),
            marks@.len() == old(self).nodes().len(),
        ensures
            final(self).wf(),
            final(self).nodes() == keep_nodes(
                old(self).nodes(),
                marked_uris(old(self).nodes(), marks@),
            ),
            texts(removed@) == drop_texts(
                uris_of(old(self).nodes()),
                marked_uris(old(self).nodes(), marks@),
            ),
    {
        let ghost nodes = self.nodes();
        let ghost drop = marked_uris(nodes, marks@);
        let ghost key = |m: ModuleView| m.uri;
        let mut removed: Vec<String> = Vec::new();
        let mut at: usize = 0;
        let mut i: usize = 0;
        proof {
            assert(nodes.take(0) =~= Seq::empty());
            assert(uris_of(nodes).take(0) =~= Seq::empty());
            assert(texts(removed@) =~= Seq::empty());
            assert(self.nodes() =~= keep_nodes(nodes.take(0), drop) + nodes.skip(0));
        }
        while i < marks.len()
            invariant
                i <= marks@.len(),
                marks@.len() == nodes.len(),
                uris_of(nodes).no_duplicates(),
                drop == marked_uris(nodes, marks@),
                at == keep_nodes(nodes.take(i as int), drop).len(),
                at <= i,
                self.nodes() == keep_nodes(nodes.take(i as int), drop) + nodes.skip(i as int),
                texts(removed@) == drop_texts(uris_of(nodes).take(i as int), drop),
            decreases marks@.len() - i,
        {
            proof {
                let upto = nodes.take(i + 1);
                assert(upto.drop_last() =~= nodes.take(i as int));
                assert(upto.last() == nodes[i as int]);
                let names = uris_of(nodes).take(i + 1);
                assert(names.drop_last() =~= uris_of(nodes).take(i as int));
                assert(names.last() == nodes[i as int].uri);
                assert(self.nodes()[at as int] == nodes.skip(i as int)[0]);
                assert(drop.contains(nodes[i as int].uri) <==> marks@[i as int]) by {
                    if drop.contains(nodes[i as int].uri) {
                        let j = choose|j: int|
                            0 <= j < nodes.len() && marks@[j] && #[trigger] nodes[j].uri
                                == nodes[i as int].uri;
                        assert(uris_of(nodes)[j] == uris_of(nodes)[i as int]);
                    }
                }
            }
            let ghost before = self.nodes();
            if marks[i] {
                let module = self.modules.remove(at);
                let ghost listed = removed@;
                removed.push(module.uri);
                proof {
                    assert(texts(removed@) =~= texts(listed).push(nodes[i as int].uri));
                    assert(self.nodes() =~= before.remove(at as int));
                    assert(keep_nodes(nodes.take(i + 1), drop) == keep_nodes(
                        nodes.take(i as int),
                        drop,
                    ));
                    assert(self.nodes() =~= keep_nodes(nodes.take(i + 1), drop) + nodes.skip(
                        i + 1,
                    ));
                }
            } else {
                proof {
                    assert(keep_nodes(nodes.take(i + 1), drop) == keep_nodes(
                        nodes.take(i as int),
                        drop,
                    ).push(nodes[i as int]));
                    assert(self.nodes() =~= keep_nodes(nodes.take(i + 1), drop) + nodes.skip(
                        i + 1,
                    ));
                }
                at += 1;
            }
            i += 1;
        }
        proof {
            assert(nodes.take(i as int) =~= nodes);
            assert(uris_of(nodes).take(i as int) =~= uris_of(nodes));
            assert(self.nodes() =~= keep_nodes(nodes, drop));
            lemma_keep_by_keys(nodes, key, drop);
            lemma_keep_texts(uris_of(nodes), drop);
            assert(uris_of(self.nodes()) =~= keep_nodes(nodes, drop).map_values(key));
            assert(uris_of(nodes) =~= nodes.map_values(key));
        }
        removed
    }

    /// Whether the node stored at `i` refers to `changed` or to a marked
    /// node.
    fn refers_to_marked(&self, marks: &Vec<bool>, changed: &str, i: usize) -> (refers: bool)
        requires
            self.wf(),
            marks@.len() == self.nodes().len(),
            i < self.nodes().len(),
        ensures
            refers == refers_to_marked(self.nodes(), marks@, changed@, i as int),
    {
        let node = &self.modules[i];
        let mut k: usize = 0;
        while k < node.all_dependecies.len()
            invariant
                k <= node.all_dependecies.len(),
                self.wf(),
                marks@.len() == self.nodes().len(),
                node@ == self.nodes()[i as int],
                forall|j: int|
                    0 <= j < k ==> !((#[trigger] node@.dependencies[j]).target() is Some
                        && is_marked(
                        self.nodes(),
                        marks@,
                        changed@,
                        node@.dependencies[j].target().unwrap(),
                    )),
            decreases node.all_dependecies.len() - k,
        {
            if let Some(target) = node.all_dependecies[k].target() {
                let marked = if *target == *changed {
                    true
                } else {
                    match self.position(target) {
                        Some(j) => marks[j],
                        None => false,
                    }
                };
                if marked {
                    assert(node@.dependencies[k as int].target() is Some);
                    return true;
                }
            }
            k += 1;
        }
        false
    }

    /// Marks the nodes that a change of `changed` makes stale: those that
    /// reach `changed` along references of any kind, the node of `changed`
    /// itself among them.
    pub fn stale_marks(&self, changed: &str) -> (marks: Vec<bool>)
        requires
            self.wf(),
        ensures
            marks@.len() == self.nodes().len(),
            forall|i: int|
                0 <= i < self.nodes().len() ==> (#[trigger] marks@[i] <==> reaches(
                    self@,
                    self.nodes()[i].uri,
                    changed@,
                )),
    {
        let ghost nodes = self.nodes();
        let count = self.modules.len();
        let mut marks: Vec<bool> = Vec::new();
        let mut i: usize = 0;
        while i < count
            invariant
                i <= count,
                marks@.len() == i,
                forall|j: int| 0 <= j < i ==> !marks@[j],
            decreases count - i,
        {
            marks.push(false);
            i += 1;
        }
        let mut unmarked: usize = count;
        proof {
            lemma_unseen_none(marks@);
        }
        loop
            invariant
                self.wf(),
                nodes == self.nodes(),
                count == nodes.len(),
                marks@.len() == count,
                marks_sound(nodes, marks@, changed@),
                unmarked <= count,
                crate::traversal::unseen(marks@) == unmarked,
            ensures
                marks@.len() == count,
                marks_sound(nodes, marks@, changed@),
                marks_closed(nodes, marks@, changed@),
            decreases unmarked,
        {
            let ghost at_start = marks@;
            let mut grown = false;
            let mut n: usize = 0;
            while n < count
                invariant
                    n <= count,
                    self.wf(),
                    nodes == self.nodes(),
                    count == nodes.len(),
                    marks@.len() == count,
                    marks_sound(nodes, marks@, changed@),
                    unmarked <= count,
                    crate::traversal::unseen(marks@) == unmarked,
                    crate::traversal::unseen(at_start) >= unmarked,
                    grown <==> crate::traversal::unseen(at_start) > unmarked,
                    !grown ==> marks@ == at_start,
                    !grown ==> forall|j: int|
                        0 <= j < n && (nodes[j].uri == changed@ || refers_to_marked(
                            nodes,
                            marks@,
                            changed@,
                            j,
                        )) ==> #[trigger] marks@[j],
                decreases count - n,
            {
                if !marks[n] {
                    let hit = *self.modules[n].uri.as_str() == *changed || self.refers_to_marked(
                        &marks,
                        changed,
                        n,
                    );
                    if hit {
                        proof {
                            lemma_marking_sound(nodes, marks@, changed@, n as int);
                            crate::traversal::lemma_unseen_mark(marks@, n as int);
                        }
                        marks[n] = true;
                        unmarked = unmarked - 1;
                        grown = true;
                    }
                }
                n += 1;
            }
            if !grown {
                break ;
            }
        }
        proof {
            assert forall|i: int| 0 <= i < nodes.len() implies (#[trigger] marks@[i] <==> reaches(
                self@,
                nodes[i].uri,
                changed@,
            )) by {
                if reaches(self@, nodes[i].uri, changed@) {
                    let path = choose|path: Seq<Seq<char>>| #[trigger]
                        is_path(self@, path) && path.first() == nodes[i].uri && path.last()
                            == changed@;
                    lemma_by_uri(nodes, i);
                    assert(uris_of(nodes)[i] == nodes[i].uri);
                    lemma_closed_marks_complete(nodes, marks@, changed@, path);
                }
            }
        }
        marks
    }
}

/// Where nothing is marked, every node is left to mark.
pub proof fn lemma_unseen_none(marks: Seq<bool>)
    requires
        forall|j: int| 0 <= j < marks.len() ==> !marks[j],
    ensures
        crate::traversal::unseen(marks) == marks.len(),
    decreases marks.len(),
{
    if marks.len() > 0 {
        lemma_unseen_none(marks.drop_last());
    }
}

/// A node that carries `changed`, or refers to `changed` or to a marked
/// node, may be marked too: it reaches `changed`.
pub proof fn lemma_marking_sound(
    nodes: Seq<ModuleView>,
    marks: Seq<bool>,
    changed: Seq<char>,
    i: int,
)
    requires
        uris_of(nodes).no_duplicates(),
        marks.len() == nodes.len(),
        marks_sound(nodes, marks, changed),
        0 <= i < nodes.len(),
        nodes[i].uri == changed || refers_to_marked(nodes, marks, changed, i),
    ensures
        marks_sound(nodes, marks.update(i, true), changed),
{
    let graph = by_uri(nodes);
    let uris = uris_of(nodes);
    lemma_by_uri(nodes, i);
    if nodes[i].uri == changed {
        lemma_reaches_itself(graph, changed);
    } else {
        let k = choose|k: int|
            0 <= k < nodes[i].dependencies.len() && (
            #[trigger] nodes[i].dependencies[k]).target() is Some && is_marked(
                nodes,
                marks,
                changed,
                nodes[i].dependencies[k].target().unwrap(),
            );
        let target = nodes[i].dependencies[k].target().unwrap();
        assert(refers_to(graph, nodes[i].uri, target));
        if target == changed {
            lemma_reaches_itself(graph, changed);
        } else {
            let j = uris.index_of(target);
            assert(0 <= j < uris.len() && uris[j] == target);
            assert(marks[j]);
        }
        lemma_reference_then_path(graph, nodes[i].uri, target, changed);
    }
    assert forall|j: int| 0 <= j < nodes.len() && #[trigger] marks.update(i, true)[j] implies reaches(
        graph,
        nodes[j].uri,
        changed,
    ) by {
        if j != i {
            assert(marks[j]);
        }
    }
}

} // verus!
