//! Dependency discovery: one walk over a parsed module that collects the
//! specifiers it refers to, statically and dynamically.

use crate::module::{reference_views, ModuleDependency, ReferenceView};
use crate::syntax::{
    is_dynamic_import, literal_argument, require_with_literal, static_reference, Ast, CallExpr,
    CallView, Node, NodeView,
};
use crate::text::{lemma_push_unique, push_unique};
use crate::ImportKind;
use vstd::prelude::*;

verus! {

/// A dynamic import found in a module. `argument` is the specifier where the
/// import names its target by a string literal; where it does not, the target
/// is unknown until run time and `argument` is `None`.
#[derive(Debug, Clone, PartialEq, Eq, Hash)]
pub struct DynImportDesc {
    pub argument: Option<String>,
}

impl View for DynImportDesc {
    type V = Option<Seq<char>>;

    open spec fn view(&self) -> Option<Seq<char>> {
        self.argument.deep_view()
    }
}

/// What one walk over a module has found so far.
#[derive(Debug, Clone, PartialEq, Eq)]
pub struct DependencyScanner {
    /// Static references, each distinct one once, in the order in which they
    /// first occur.
    pub dependencies: Vec<ModuleDependency>,
    /// Dynamic imports, each distinct one once, in the order in which they
    /// first occur.
    pub dyn_dependencies: Vec<DynImportDesc>,
}

/// Mathematical content of a [`DependencyScanner`].
pub struct ScanView {
    pub dependencies: Seq<ReferenceView>,
    pub dyn_dependencies: Seq<Option<Seq<char>>>,
}

impl View for DependencyScanner {
    type V = ScanView;

    open spec fn view(&self) -> ScanView {
        ScanView {
            dependencies: reference_views(self.dependencies@),
            dyn_dependencies: self.dyn_dependencies@.map_values(|d: DynImportDesc| d@),
        }
    }
}

impl ScanView {
    pub open spec fn empty() -> ScanView {
        ScanView { dependencies: Seq::empty(), dyn_dependencies: Seq::empty() }
    }

    /// Every specifier is recorded once.
    pub open spec fn distinct(self) -> bool {
        self.dependencies.no_duplicates() && self.dyn_dependencies.no_duplicates()
    }

    pub open spec fn add_dependency(self, reference: ReferenceView) -> ScanView {
        ScanView { dependencies: push_unique(self.dependencies, reference), ..self }
    }

    /// A dynamic import is recorded whether or not its target is a literal.
    pub open spec fn add_dynamic_import(self, call: CallView) -> ScanView {
        if call.is_dynamic_import() {
            ScanView {
                dyn_dependencies: push_unique(self.dyn_dependencies, call.literal_argument()),
                ..self
            }
        } else {
            self
        }
    }

    /// A `require` of a literal is a static dependency.
    pub open spec fn add_require(self, call: CallView) -> ScanView {
        match call.require_literal() {
            Some(specifier) => self.add_dependency(
                ReferenceView { specifier, kind: ImportKind::Require },
            ),
            None => self,
        }
    }

    pub open spec fn visit_call(self, call: CallView) -> ScanView {
        self.add_dynamic_import(call).add_require(call)
    }

    pub open spec fn visit_calls(self, calls: Seq<CallView>) -> ScanView
        decreases calls.len(),
    {
        if calls.len() == 0 {
            self
        } else {
            self.visit_calls(calls.drop_last()).visit_call(calls.last())
        }
    }

    /// The declaration of a top-level item comes before the calls inside it.
    pub open spec fn visit_node(self, node: NodeView) -> ScanView {
        let declared = match node.decl.reference() {
            Some(reference) => self.add_dependency(reference),
            None => self,
        };
        declared.visit_calls(node.calls)
    }

    pub open spec fn visit_nodes(self, nodes: Seq<NodeView>) -> ScanView
        decreases nodes.len(),
    {
        if nodes.len() == 0 {
            self
        } else {
            self.visit_nodes(nodes.drop_last()).visit_node(nodes.last())
        }
    }
}

/// What a walk over a whole module finds.
pub open spec fn scan_spec(ast: Seq<NodeView>) -> ScanView {
    ScanView::empty().visit_nodes(ast)
}

pub proof fn lemma_visit_call_distinct(found: ScanView, call: CallView)
    requires
        found.distinct(),
    ensures
        found.visit_call(call).distinct(),
{
    lemma_push_unique(found.dyn_dependencies, call.literal_argument());
    let mid = found.add_dynamic_import(call);
    if let Some(specifier) = call.require_literal() {
        lemma_push_unique(mid.dependencies, ReferenceView { specifier, kind: ImportKind::Require });
    }
}

pub proof fn lemma_visit_calls_distinct(found: ScanView, calls: Seq<CallView>)
    requires
        found.distinct(),
    ensures
        found.visit_calls(calls).distinct(),
    decreases calls.len(),
{
    if calls.len() > 0 {
        lemma_visit_calls_distinct(found, calls.drop_last());
        lemma_visit_call_distinct(found.visit_calls(calls.drop_last()), calls.last());
    }
}

pub proof fn lemma_visit_nodes_distinct(found: ScanView, nodes: Seq<NodeView>)
    requires
        found.distinct(),
    ensures
        found.visit_nodes(nodes).distinct(),
    decreases nodes.len(),
{
    if nodes.len() > 0 {
        lemma_visit_nodes_distinct(found, nodes.drop_last());
        let before = found.visit_nodes(nodes.drop_last());
        let node = nodes.last();
        if let Some(reference) = node.decl.reference() {
            lemma_push_unique(before.dependencies, reference);
            lemma_visit_calls_distinct(before.add_dependency(reference), node.calls);
        } else {
            lemma_visit_calls_distinct(before, node.calls);
        }
    }
}

/// A walk never records a specifier twice.
pub proof fn lemma_scan_distinct(ast: Seq<NodeView>)
    ensures
        scan_spec(ast).distinct(),
{
    lemma_visit_nodes_distinct(ScanView::empty(), ast);
}

/// Visiting calls forgets no static reference.
pub proof fn lemma_visit_calls_keeps(found: ScanView, calls: Seq<CallView>, reference: ReferenceView)
    requires
        found.dependencies.contains(reference),
    ensures
        found.visit_calls(calls).dependencies.contains(reference),
    decreases calls.len(),
{
    if calls.len() > 0 {
        lemma_visit_calls_keeps(found, calls.drop_last(), reference);
        let before = found.visit_calls(calls.drop_last());
        let mid = before.add_dynamic_import(calls.last());
        if let Some(specifier) = calls.last().require_literal() {
            lemma_push_unique_keeps(
                mid.dependencies,
                ReferenceView { specifier, kind: ImportKind::Require },
                reference,
            );
        }
    }
}

/// Appending keeps what was there.
pub proof fn lemma_push_unique_keeps<T>(items: Seq<T>, item: T, other: T)
    requires
        items.contains(other),
    ensures
        push_unique(items, item).contains(other),
{
    let i = choose|i: int| 0 <= i < items.len() && items[i] == other;
    assert(push_unique(items, item)[i] == other);
}

/// Visiting a node forgets no static reference, and finds the reference
/// that its declaration makes.
pub proof fn lemma_visit_node_keeps(found: ScanView, node: NodeView, reference: ReferenceView)
    requires
        found.dependencies.contains(reference) || node.decl.reference() == Some(reference),
    ensures
        found.visit_node(node).dependencies.contains(reference),
{
    let declared = match node.decl.reference() {
        Some(made) => found.add_dependency(made),
        None => found,
    };
    if let Some(made) = node.decl.reference() {
        if found.dependencies.contains(reference) {
            lemma_push_unique_keeps(found.dependencies, made, reference);
        } else {
            let grown = push_unique(found.dependencies, made);
            if !found.dependencies.contains(made) {
                assert(grown[found.dependencies.len() as int] == made);
            }
        }
    }
    lemma_visit_calls_keeps(declared, node.calls, reference);
}

/// A walk finds the reference that each declaration makes.
pub proof fn lemma_scan_finds_declarations(ast: Seq<NodeView>, i: int)
    requires
        0 <= i < ast.len(),
        ast[i].decl.reference() is Some,
    ensures
        scan_spec(ast).dependencies.contains(ast[i].decl.reference().unwrap()),
    decreases ast.len(),
{
    let reference = ast[i].decl.reference().unwrap();
    let before = ScanView::empty().visit_nodes(ast.drop_last());
    if i < ast.len() - 1 {
        lemma_scan_finds_declarations(ast.drop_last(), i);
    }
    lemma_visit_node_keeps(before, ast.last(), reference);
}

impl DependencyScanner {
    pub fn new() -> (scanner: Self)
        ensures
            scanner@ == ScanView::empty(),
    {
        let scanner = DependencyScanner { dependencies: Vec::new(), dyn_dependencies: Vec::new() };
        assert(scanner@.dependencies =~= Seq::empty());
        assert(scanner@.dyn_dependencies =~= Seq::empty());
        scanner
    }

    fn has_dependency(&self, reference: &ModuleDependency) -> (found: bool)
        ensures
            found == self@.dependencies.contains(reference@),
    {
        let mut i: usize = 0;
        while i < self.dependencies.len()
            invariant
                i <= self.dependencies.len(),
                forall|j: int| 0 <= j < i ==> self@.dependencies[j] != reference@,
            decreases self.dependencies.len() - i,
        {
            let known = &self.dependencies[i];
            if known.kind == reference.kind && known.specifier == reference.specifier {
                assert(self@.dependencies[i as int] == reference@);
                return true;
            }
            i += 1;
        }
        false
    }

    pub fn add_dependency(&mut self, reference: ModuleDependency)
        ensures
            final(self)@ == old(self)@.add_dependency(reference@),
    {
        if !self.has_dependency(&reference) {
            self.dependencies.push(reference);
            assert(self@.dependencies =~= old(self)@.dependencies.push(reference@));
        }
    }

    fn has_dynamic_import(&self, argument: &Option<String>) -> (found: bool)
        ensures
            found == self@.dyn_dependencies.contains(argument.deep_view()),
    {
        let mut i: usize = 0;
        while i < self.dyn_dependencies.len()
            invariant
                i <= self.dyn_dependencies.len(),
                forall|j: int| 0 <= j < i ==> self@.dyn_dependencies[j] != argument.deep_view(),
            decreases self.dyn_dependencies.len() - i,
        {
            let same = match (&self.dyn_dependencies[i].argument, argument) {
                (Some(a), Some(b)) => *a == *b,
                (None, None) => true,
                _ => false,
            };
            if same {
                assert(self@.dyn_dependencies[i as int] == argument.deep_view());
                return true;
            }
            i += 1;
        }
        false
    }

    pub fn add_dynamic_import(&mut self, node: &CallExpr)
        ensures
            final(self)@ == old(self)@.add_dynamic_import(node@),
    {
        if is_dynamic_import(node) {
            let argument = literal_argument(node);
            if !self.has_dynamic_import(&argument) {
                self.dyn_dependencies.push(DynImportDesc { argument });
                assert(self@.dyn_dependencies =~= old(self)@.dyn_dependencies.push(
                    node@.literal_argument(),
                ));
            }
        }
    }

    pub fn add_require(&mut self, node: &CallExpr)
        ensures
            final(self)@ == old(self)@.add_require(node@),
    {
        if let Some(specifier) = require_with_literal(node) {
            self.add_dependency(ModuleDependency { specifier, kind: ImportKind::Require });
        }
    }

    pub fn visit_call_expr(&mut self, node: &CallExpr)
        ensures
            final(self)@ == old(self)@.visit_call(node@),
    {
        self.add_dynamic_import(node);
        self.add_require(node);
    }

    pub fn visit_node(&mut self, node: &Node)
        ensures
            final(self)@ == old(self)@.visit_node(node@),
    {
        if let Some(reference) = static_reference(&node.item) {
            self.add_dependency(reference);
        }
        let ghost declared = self@;
        let mut i: usize = 0;
        while i < node.calls.len()
            invariant
                i <= node.calls.len(),
                self@ == declared.visit_calls(node@.calls.take(i as int)),
            decreases node.calls.len() - i,
        {
            self.visit_call_expr(&node.calls[i]);
            proof {
                let upto = node@.calls.take(i + 1);
                assert(upto.drop_last() =~= node@.calls.take(i as int));
                assert(upto.last() == node.calls[i as int]@);
            }
            i += 1;
        }
        assert(node@.calls.take(i as int) =~= node@.calls);
    }

    /// Walks a whole module.
    pub fn scan(ast: &Ast) -> (scanner: Self)
        ensures
            scanner@ == scan_spec(ast@),
            scanner@.distinct(),
    {
        let mut scanner = DependencyScanner::new();
        let mut i: usize = 0;
        while i < ast.body.len()
            invariant
                i <= ast.body.len(),
                scanner@ == ScanView::empty().visit_nodes(ast@.take(i as int)),
            decreases ast.body.len() - i,
        {
            scanner.visit_node(&ast.body[i]);
            proof {
                let upto = ast@.take(i + 1);
                assert(upto.drop_last() =~= ast@.take(i as int));
                assert(upto.last() == ast.body[i as int]@);
            }
            i += 1;
        }
        proof {
            assert(ast@.take(i as int) =~= ast@);
            lemma_scan_distinct(ast@);
        }
        scanner
    }
}

} // verus!
