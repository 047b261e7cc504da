//! Core of a module bundler: the data that describes modules and their
//! references to one another, the rules by which a build discovers the module
//! graph, and the order in which the finished modules are to be executed.
//!
//! Everything here is free of I/O. What has to be fetched from outside (source
//! text, syntax trees, the answers of resolve hooks) is handed in as plain
//! values, and every decision taken on those values carries a contract.
//!
//! A build goes through [`bundle::Bundle`]: it is seeded with the resolved
//! entries, which spawns the first tasks. Whoever runs a task loads, parses
//! and transforms the module, puts its specifiers to the resolve hook through
//! a [`task::DependencyIdResolver`], and hands the tree to
//! [`bundle::Bundle::run_task`], which sends the finished module and spawns
//! tasks for what the module refers to. The coordinator consumes what was
//! sent; when no task is in flight the build is quiescent, and
//! [`bundle::Bundle::finalize`] assigns the execution order.
//!
//! The modules: [`syntax`] and [`dependency_scanner`] read a syntax tree;
//! [`task`] and [`bundle_context`] hold the per-module work and the spawn
//! policy; [`module`], [`module_graph`], [`finalize`] and [`invalidation`]
//! hold the graph and the passes over it; [`plugin_driver`], [`options`] and
//! [`host`] hold what is decided at the edge of the bundler. What is proved
//! of builds stands in [`build_invariant`], [`build_laws`] and
//! [`order_laws`], over the graph notions of [`reachability`] and
//! [`traversal`]. The collections of [`concurrent`] are taken on trust.

use vstd::prelude::*;

pub mod build_invariant;
pub mod build_laws;
pub mod bundle;
pub mod bundle_context;
pub mod concurrent;
pub mod dependency_scanner;
pub mod error;
pub mod finalize;
pub mod host;
pub mod invalidation;
pub mod module;
pub mod module_graph;
pub mod options;
pub mod order_laws;
pub mod plugin_driver;
pub mod reachability;
pub mod syntax;
pub mod task;
pub mod text;
pub mod traversal;

verus! {

/// The syntactic relationship through which one module refers to another.
#[derive(Clone, Copy, Debug, PartialEq, Eq, Hash, Structural)]
pub enum ImportKind {
    StaticImport,
    DynamicImport,
    ExportAll,
    ExportNamed,
    Require,
}

/// The outcome of resolving a specifier: the canonical location of the module
/// it names, and how the build is to treat it.
#[derive(Debug, Hash, PartialEq, Eq)]
pub struct ResolvedURI {
    pub uri: String,
    pub kind: ImportKind,
    pub external: bool,
    pub ignored: bool,
}

/// A resolved identifier is the same thing as a resolved location.
pub type ResolvedId = ResolvedURI;

/// Mathematical content of a [`ResolvedURI`].
pub struct ResolvedView {
    pub uri: Seq<char>,
    pub kind: ImportKind,
    pub external: bool,
    pub ignored: bool,
}

impl View for ResolvedURI {
    type V = ResolvedView;

    open spec fn view(&self) -> ResolvedView {
        ResolvedView {
            uri: self.uri@,
            kind: self.kind,
            external: self.external,
            ignored: self.ignored,
        }
    }
}

impl ResolvedView {
    /// Whether a build gives this location a node of its own: neither
    /// external nor ignored.
    pub open spec fn is_internal(self) -> bool {
        !self.external && !self.ignored
    }
}

impl Clone for ResolvedURI {
    fn clone(&self) -> (copy: Self)
        ensures
            copy@ == self@,
    {
        ResolvedURI {
            uri: self.uri.clone(),
            kind: self.kind,
            external: self.external,
            ignored: self.ignored,
        }
    }
}

impl ResolvedURI {
    pub fn new(path: String, external: bool, kind: ImportKind, ignored: bool) -> (resolved: Self)
        ensures
            resolved@ == (ResolvedView { uri: path@, kind, external, ignored }),
    {
        ResolvedURI { uri: path, kind, external, ignored }
    }

    /// Whether a build gives this location a node of its own.
    pub fn is_internal(&self) -> (internal: bool)
        ensures
            internal == self@.is_internal(),
    {
        !self.external && !self.ignored
    }
}

} // verus!
