//! The graph of finished modules: nodes keyed by identifier, edges looked up
//! through each node's references.

use crate::error::{BuildError, ErrorKind};
use crate::module::{depended_views, module_views, Dependency, ModuleGraphModule, ModuleView};
use vstd::prelude::*;

verus! {

/// The identifiers of a sequence of nodes.
pub open spec fn uris_of(nodes: Seq<ModuleView>) -> Seq<Seq<char>> {
    nodes.map_values(|m: ModuleView| m.uri)
}

/// The mapping from identifier to node that a sequence of nodes with distinct
/// identifiers stands for.
pub open spec fn by_uri(nodes: Seq<ModuleView>) -> Map<Seq<char>, ModuleView> {
    Map::new(
        |uri: Seq<char>| uris_of(nodes).contains(uri),
        |uri: Seq<char>| nodes[uris_of(nodes).index_of(uri)],
    )
}

/// Finished modules, at most one for an identifier.
pub struct ModuleGraph {
    pub modules: Vec<ModuleGraphModule>,
}

impl View for ModuleGraph {
    type V = Map<Seq<char>, ModuleView>;

    open spec fn view(&self) -> Map<Seq<char>, ModuleView> {
        by_uri(self.nodes())
    }
}

/// In a sequence of nodes with distinct identifiers, the node found under an
/// identifier is the one that carries it.
pub proof fn lemma_by_uri(nodes: Seq<ModuleView>, i: int)
    requires
        uris_of(nodes).no_duplicates(),
        0 <= i < nodes.len(),
    ensures
        by_uri(nodes).contains_key(nodes[i].uri),
        by_uri(nodes)[nodes[i].uri] == nodes[i],
        uris_of(nodes).index_of(nodes[i].uri) == i,
{
    let uris = uris_of(nodes);
    assert(uris[i] == nodes[i].uri);
    let j = uris.index_of(nodes[i].uri);
    assert(0 <= j < uris.len() && uris[j] == nodes[i].uri);
}

impl ModuleGraph {
    /// The nodes in the order in which they are stored.
    pub open spec fn nodes(&self) -> Seq<ModuleView> {
        self.modules@.map_values(|m: ModuleGraphModule| m@)
    }

    /// No identifier has two nodes.
    pub open spec fn wf(&self) -> bool {
        uris_of(self.nodes()).no_duplicates()
    }

    pub fn new() -> (graph: Self)
        ensures
            graph.wf(),
            graph.nodes() == Seq::<ModuleView>::empty(),
            graph@ == Map::<Seq<char>, ModuleView>::empty(),
    {
        let graph = ModuleGraph { modules: Vec::new() };
        assert(graph.nodes() =~= Seq::empty());
        assert(graph@ =~= Map::empty());
        graph
    }

    /// The number of nodes.
    pub fn len(&self) -> (count: usize)
        ensures
            count == self.nodes().len(),
    {
        self.modules.len()
    }

    /// Where the node with the given identifier is stored.
    pub fn position(&self, uri: &str) -> (found: Option<usize>)
        ensures
            match found {
                Some(i) => i < self.nodes().len() && self.nodes()[i as int].uri == uri@,
                None => !uris_of(self.nodes()).contains(uri@),
            },
            self.wf() ==> match found {
                Some(i) => self@.contains_key(uri@) && uris_of(self.nodes()).index_of(uri@) == i,
                None => !self@.contains_key(uri@),
            },
    {
        let mut i: usize = 0;
        while i < self.modules.len()
            invariant
                i <= self.modules.len(),
                forall|j: int| 0 <= j < i ==> uris_of(self.nodes())[j] != uri@,
            decreases self.modules.len() - i,
        {
            if *self.modules[i].uri.as_str() == *uri {
                proof {
                    if self.wf() {
                        lemma_by_uri(self.nodes(), i as int);
                    }
                }
                return Some(i);
            }
            i += 1;
        }
        None
    }

    pub fn contains(&self, uri: &str) -> (found: bool)
        requires
            self.wf(),
        ensures
            found == self@.contains_key(uri@),
    {
        self.position(uri).is_some()
    }

    /// The node with the given identifier.
    pub fn module_by_id(&self, uri: &str) -> (found: Option<&ModuleGraphModule>)
        requires
            self.wf(),
        ensures
            found.is_some() == self@.contains_key(uri@),
            found matches Some(node) ==> node@ == self@[uri@],
    {
        match self.position(uri) {
            Some(i) => Some(&self.modules[i]),
            None => None,
        }
    }

    /// The node that a reference leads to: the one stored under the
    /// identifier of its resolved location.
    pub fn module_by_dependency(&self, dependency: &Dependency) -> (found: Option<
        &ModuleGraphModule,
    >)
        requires
            self.wf(),
        ensures
            found.is_some() == (dependency@.target() matches Some(uri) && self@.contains_key(uri)),
            found matches Some(node) ==> node@ == self@[dependency@.target().unwrap()],
    {
        match dependency.target() {
            Some(uri) => self.module_by_id(uri),
            None => None,
        }
    }

    /// The finished modules that the static references of `module` lead
    /// to, in the order of the references.
    pub fn dependencies_of<'a>(&'a self, module: &ModuleGraphModule) -> (found: Vec<
        &'a ModuleGraphModule,
    >)
        requires
            self.wf(),
        ensures
            module_views(found@) == depended_views(module@.dependencies, self@, false),
    {
        module.depended_modules(self)
    }

    /// The finished modules that the dynamic references of `module` lead
    /// to, in the order of the references.
    pub fn dynamic_dependencies_of<'a>(&'a self, module: &ModuleGraphModule) -> (found: Vec<
        &'a ModuleGraphModule,
    >)
        requires
            self.wf(),
        ensures
            module_views(found@) == depended_views(module@.dependencies, self@, true),
    {
        module.dynamic_depended_modules(self)
    }

    /// Adds a finished module. A second module for an identifier is refused
    /// and leaves the graph as it was.
    pub fn insert(&mut self, module: ModuleGraphModule) -> (outcome: Result<(), BuildError>)
        requires
            old(self).wf(),
        ensures
            final(self).wf(),
            outcome.is_ok() == !old(self)@.contains_key(module@.uri),
            outcome.is_ok() ==> final(self).nodes() == old(self).nodes().push(module@),
            outcome.is_ok() ==> final(self)@ == old(self)@.insert(module@.uri, module@),
            outcome matches Err(error) ==> final(self).nodes() == old(self).nodes()
                && error@.kind == ErrorKind::InvariantViolation && error@.uri == module@.uri,
    {
        if self.position(module.uri.as_str()).is_some() {
            return Err(BuildError::invariant_violation(module.uri.clone()));
        }
        let ghost added = module@;
        self.modules.push(module);
        proof {
            let before = old(self).nodes();
            let after = self.nodes();
            assert(after =~= before.push(added));
            assert(uris_of(after) =~= uris_of(before).push(added.uri));
            assert forall|i: int, j: int|
                0 <= i < uris_of(after).len() && 0 <= j < uris_of(after).len() && i
                    != j implies uris_of(after)[i] != uris_of(after)[j] by {
                if i < before.len() {
                    assert(uris_of(before)[i] == uris_of(after)[i]);
                }
                if j < before.len() {
                    assert(uris_of(before)[j] == uris_of(after)[j]);
                }
            }
            lemma_by_uri_push(before, added);
        }
        Ok(())
    }
}

/// Appending a node with a new identifier adds exactly that entry to the
/// mapping.
pub proof fn lemma_by_uri_push(nodes: Seq<ModuleView>, node: ModuleView)
    requires
        uris_of(nodes).no_duplicates(),
        !uris_of(nodes).contains(node.uri),
    ensures
        uris_of(nodes.push(node)).no_duplicates(),
        by_uri(nodes.push(node)) == by_uri(nodes).insert(node.uri, node),
{
    let grown = nodes.push(node);
    assert(uris_of(grown) =~= uris_of(nodes).push(node.uri));
    assert forall|i: int, j: int|
        0 <= i < uris_of(grown).len() && 0 <= j < uris_of(grown).len() && i != j implies uris_of(
        grown,
    )[i] != uris_of(grown)[j] by {
        if i < nodes.len() {
            assert(uris_of(nodes)[i] == uris_of(grown)[i]);
        }
        if j < nodes.len() {
            assert(uris_of(nodes)[j] == uris_of(grown)[j]);
        }
    }
    assert forall|uri: Seq<char>| by_uri(grown).contains_key(uri) <==> by_uri(nodes).insert(
        node.uri,
        node,
    ).contains_key(uri) by {
        if uris_of(grown).contains(uri) {
            let i = choose|i: int| 0 <= i < uris_of(grown).len() && uris_of(grown)[i] == uri;
            if i < nodes.len() {
                assert(uris_of(nodes)[i] == uri);
            }
        }
        if uris_of(nodes).contains(uri) {
            let i = choose|i: int| 0 <= i < uris_of(nodes).len() && uris_of(nodes)[i] == uri;
            assert(uris_of(grown)[i] == uri);
        }
        if uri == node.uri {
            assert(uris_of(grown)[nodes.len() as int] == uri);
        }
    }
    assert forall|uri: Seq<char>| by_uri(grown).contains_key(uri) implies by_uri(grown)[uri]
        == by_uri(nodes).insert(node.uri, node)[uri] by {
        let i = uris_of(grown).index_of(uri);
        assert(0 <= i < grown.len() && uris_of(grown)[i] == uri);
        lemma_by_uri(grown, i);
        if i < nodes.len() {
            assert(nodes[i].uri == uri);
            lemma_by_uri(nodes, i);
        }
    }
    assert(by_uri(grown) =~= by_uri(nodes).insert(node.uri, node));
}

} // verus!

