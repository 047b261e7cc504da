//! Modules as the graph holds them: a node with its identifier, its place in
//! the execution order and its outgoing references, and the payload that a
//! kind of module brings along.

use crate::concurrent::{cache_new, cached_ids};
use crate::dependency_scanner::{scan_spec, DependencyScanner, DynImportDesc};
use crate::module_graph::ModuleGraph;
use crate::syntax::Ast;
use crate::{ImportKind, ResolvedId, ResolvedView};
use dashmap::DashMap;
use std::collections::hash_map::RandomState;
use vstd::prelude::*;

verus! {

/// A reference from a module to another, as it stands in the source: the
/// specifier and the syntactic form.
#[derive(Debug, PartialEq, Eq, Hash)]
pub struct ModuleDependency {
    pub specifier: String,
    pub kind: ImportKind,
}

/// Mathematical content of a [`ModuleDependency`].
pub struct ReferenceView {
    pub specifier: Seq<char>,
    pub kind: ImportKind,
}

impl View for ModuleDependency {
    type V = ReferenceView;

    open spec fn view(&self) -> ReferenceView {
        ReferenceView { specifier: self.specifier@, kind: self.kind }
    }
}

impl Clone for ModuleDependency {
    fn clone(&self) -> (copy: Self)
        ensures
            copy@ == self@,
    {
        ModuleDependency { specifier: self.specifier.clone(), kind: self.kind }
    }
}

/// A reference from a module to another together with what its specifier
/// resolved to; `None` where resolution failed.
#[derive(Debug, PartialEq, Eq, Hash)]
pub struct Dependency {
    pub specifier: String,
    pub kind: ImportKind,
    pub resolved_id: Option<ResolvedId>,
}

/// Mathematical content of a [`Dependency`].
pub struct DependencyView {
    pub specifier: Seq<char>,
    pub kind: ImportKind,
    pub resolved_id: Option<ResolvedView>,
}

impl View for Dependency {
    type V = DependencyView;

    open spec fn view(&self) -> DependencyView {
        DependencyView {
            specifier: self.specifier@,
            kind: self.kind,
            resolved_id: match self.resolved_id {
                Some(resolved) => Some(resolved@),
                None => None,
            },
        }
    }
}

impl DependencyView {
    pub open spec fn is_dynamic(self) -> bool {
        self.kind == ImportKind::DynamicImport
    }

    /// The identifier of the graph node that this reference leads to: that of
    /// its resolved location, unless resolution failed or the location is
    /// external or ignored.
    pub open spec fn target(self) -> Option<Seq<char>> {
        match self.resolved_id {
            Some(resolved) => if resolved.is_internal() {
                Some(resolved.uri)
            } else {
                None
            },
            None => None,
        }
    }
}

impl Clone for Dependency {
    fn clone(&self) -> (copy: Self)
        ensures
            copy@ == self@,
    {
        let resolved_id = match &self.resolved_id {
            Some(resolved) => Some(resolved.clone()),
            None => None,
        };
        Dependency { specifier: self.specifier.clone(), kind: self.kind, resolved_id }
    }
}

impl Dependency {
    pub fn is_dynamic(&self) -> (dynamic: bool)
        ensures
            dynamic == self@.is_dynamic(),
    {
        match self.kind {
            ImportKind::DynamicImport => true,
            _ => false,
        }
    }

    /// The identifier of the graph node that this reference leads to, if it
    /// leads to one.
    pub fn target(&self) -> (uri: Option<&str>)
        ensures
            uri.is_some() == self@.target().is_some(),
            uri matches Some(text) ==> self@.target() == Some(text@),
    {
        match &self.resolved_id {
            Some(resolved) => if resolved.is_internal() {
                Some(resolved.uri.as_str())
            } else {
                None
            },
            None => None,
        }
    }
}

/// The contents of a list of dependencies.
pub open spec fn dependency_views(dependencies: Seq<Dependency>) -> Seq<DependencyView> {
    dependencies.map_values(|d: Dependency| d@)
}

/// The contents of a list of references.
pub open spec fn reference_views(references: Seq<ModuleDependency>) -> Seq<ReferenceView> {
    references.map_values(|d: ModuleDependency| d@)
}

/// The language a module is written in.
#[derive(Debug, Clone, Copy, PartialEq, Eq, Hash, Structural)]
pub enum SourceType {
    JavaScript,
    Css,
    Asset,
}

/// What a kind of module has to offer to the graph that holds it.
pub trait Module: Send + Sync {
    /// The text that stands for this module in the output.
    fn render(&self) -> String;

    /// The references that this module makes to other modules. A kind of
    /// module that does not say otherwise makes none.
    fn dependencies(&mut self) -> (found: Vec<ModuleDependency>)
        default_ensures
            reference_views(found@) == Seq::<ReferenceView>::empty(),
    {
        let found: Vec<ModuleDependency> = Vec::new();
        assert(reference_views(found@) =~= Seq::empty());
        found
    }
}

pub type BoxModule = Box<dyn Module>;

/// A JavaScript module: its syntax tree and what a walk over it found.
pub struct JsModule {
    pub ast: Ast,
    /// The text to emit for this module; empty until somebody has printed the
    /// tree.
    pub code: String,
}

impl Module for JsModule {
    fn render(&self) -> (code: String)
        ensures
            code@ == self.code@,
    {
        self.code.clone()
    }

    /// The static references of the tree, each once, in source order.
    fn dependencies(&mut self) -> (found: Vec<ModuleDependency>)
        ensures
            *final(self) == *old(self),
            reference_views(found@) == scan_spec(old(self).ast@).dependencies,
    {
        DependencyScanner::scan(&self.ast).dependencies
    }
}

/// A finished module as a node of the graph.
pub struct ModuleGraphModule {
    /// The module's place in the execution order; `usize::MAX` until the
    /// order has been assigned.
    pub exec_order: usize,
    pub uri: String,
    pub module: BoxModule,
    pub source_type: SourceType,
    /// Whether the build was seeded with this module.
    pub is_entry: bool,
    /// What each specifier of this module resolved to.
    pub resolved_ids: DashMap<String, ResolvedId, RandomState>,
    /// The dynamic imports of this module, those whose target is unknown
    /// until run time among them.
    pub dyn_imports: Vec<DynImportDesc>,
    pub all_dependecies: Vec<Dependency>,
}

/// Mathematical content of a [`ModuleGraphModule`], the payload left out.
pub struct ModuleView {
    pub exec_order: usize,
    pub uri: Seq<char>,
    pub source_type: SourceType,
    pub is_entry: bool,
    pub resolved_ids: Map<Seq<char>, ResolvedView>,
    pub dyn_imports: Seq<Option<Seq<char>>>,
    pub dependencies: Seq<DependencyView>,
}

impl View for ModuleGraphModule {
    type V = ModuleView;

    open spec fn view(&self) -> ModuleView {
        ModuleView {
            exec_order: self.exec_order,
            uri: self.uri@,
            source_type: self.source_type,
            is_entry: self.is_entry,
            resolved_ids: cached_ids(self.resolved_ids),
            dyn_imports: self.dyn_imports@.map_values(|d: DynImportDesc| d@),
            dependencies: dependency_views(self.all_dependecies@),
        }
    }
}

impl ModuleView {
    /// Every reference agrees with the table of resolved specifiers: one that
    /// resolved is in the table with what it resolved to.
    pub open spec fn resolutions_recorded(self) -> bool {
        forall|i: int|
            0 <= i < self.dependencies.len() ==> match (#[trigger] self.dependencies[i]).resolved_id {
                Some(resolved) => self.resolved_ids.contains_key(self.dependencies[i].specifier)
                    && self.resolved_ids[self.dependencies[i].specifier] == resolved,
                None => true,
            }
    }
}

/// The nodes that the references of one module lead to, in the order of the
/// references: those references that are dynamic, or those that are not, and
/// of these the ones whose target the graph holds.
pub open spec fn depended_views(
    dependencies: Seq<DependencyView>,
    graph: Map<Seq<char>, ModuleView>,
    dynamic: bool,
) -> Seq<ModuleView>
    decreases dependencies.len(),
{
    if dependencies.len() == 0 {
        Seq::empty()
    } else {
        let before = depended_views(dependencies.drop_last(), graph, dynamic);
        let last = dependencies.last();
        match last.target() {
            Some(uri) => if last.is_dynamic() == dynamic && graph.contains_key(uri) {
                before.push(graph[uri])
            } else {
                before
            },
            None => before,
        }
    }
}

/// The contents of a list of borrowed nodes.
pub open spec fn module_views(modules: Seq<&ModuleGraphModule>) -> Seq<ModuleView> {
    modules.map_values(|m: &ModuleGraphModule| m@)
}

impl ModuleGraphModule {
    pub fn new(
        uri: String,
        module: BoxModule,
        dependecies: Vec<Dependency>,
        source_type: SourceType,
    ) -> (node: Self)
        ensures
            node@ == (ModuleView {
                exec_order: usize::MAX,
                uri: uri@,
                source_type,
                is_entry: false,
                resolved_ids: Map::empty(),
                dyn_imports: Seq::empty(),
                dependencies: dependency_views(dependecies@),
            }),
            node.module === module,
    {
        let resolved_ids = cache_new();
        assert(cached_ids(resolved_ids) =~= Map::empty());
        let node = ModuleGraphModule {
            exec_order: usize::MAX,
            uri,
            module,
            source_type,
            is_entry: false,
            resolved_ids,
            dyn_imports: Vec::new(),
            all_dependecies: dependecies,
        };
        assert(node@.dyn_imports =~= Seq::empty());
        node
    }

    /// The references of this module, static and dynamic, in source order.
    pub fn all_dependencies(&self) -> (dependencies: &Vec<Dependency>)
        ensures
            dependency_views(dependencies@) == self@.dependencies,
    {
        &self.all_dependecies
    }

    fn depended<'a>(&self, module_graph: &'a ModuleGraph, dynamic: bool) -> (found: Vec<
        &'a ModuleGraphModule,
    >)
        requires
            module_graph.wf(),
        ensures
            module_views(found@) == depended_views(self@.dependencies, module_graph@, dynamic),
    {
        let mut found: Vec<&'a ModuleGraphModule> = Vec::new();
        let mut i: usize = 0;
        assert(self@.dependencies.take(0) =~= Seq::empty());
        assert(module_views(found@) =~= Seq::empty());
        while i < self.all_dependecies.len()
            invariant
                i <= self.all_dependecies.len(),
                module_graph.wf(),
                module_views(found@) == depended_views(
                    self@.dependencies.take(i as int),
                    module_graph@,
                    dynamic,
                ),
            decreases self.all_dependecies.len() - i,
        {
            let dependency = &self.all_dependecies[i];
            proof {
                let upto = self@.dependencies.take(i + 1);
                assert(upto.drop_last() =~= self@.dependencies.take(i as int));
                assert(upto.last() == dependency@);
            }
            if dependency.is_dynamic() == dynamic {
                if let Some(node) = module_graph.module_by_dependency(dependency) {
                    let ghost before = found@;
                    found.push(node);
                    assert(module_views(found@) =~= module_views(before).push(node@));
                }
            }
            i += 1;
        }
        assert(self@.dependencies.take(i as int) =~= self@.dependencies);
        found
    }

    /// The nodes that the static references of this module lead to.
    pub fn depended_modules<'a>(&self, module_graph: &'a ModuleGraph) -> (found: Vec<
        &'a ModuleGraphModule,
    >)
        requires
            module_graph.wf(),
        ensures
            module_views(found@) == depended_views(self@.dependencies, module_graph@, false),
    {
        self.depended(module_graph, false)
    }

    /// The nodes that the dynamic references of this module lead to.
    pub fn dynamic_depended_modules<'a>(&self, module_graph: &'a ModuleGraph) -> (found: Vec<
        &'a ModuleGraphModule,
    >)
        requires
            module_graph.wf(),
        ensures
            module_views(found@) == depended_views(self@.dependencies, module_graph@, true),
    {
        self.depended(module_graph, true)
    }

    pub fn id(&self) -> (uri: &str)
        ensures
            uri@ == self@.uri,
    {
        self.uri.as_str()
    }
}

} // verus!
