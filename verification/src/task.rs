//! The unit of work of a build: what is done for one module once its syntax
//! tree is at hand and its specifiers have been put to the resolve hook.

use crate::bundle_context::{BundleContext, ContextView};
use crate::concurrent::{cache_get, cache_insert, cache_new, cached_ids};
use crate::dependency_scanner::{
    lemma_scan_finds_declarations, scan_spec, DependencyScanner, DynImportDesc, ScanView,
};
use crate::error::{error_views, BuildError, ErrorKind, ErrorView};
use crate::module::{
    dependency_views, reference_views, BoxModule, Dependency, DependencyView, JsModule,
    ModuleDependency, ModuleGraphModule, ModuleView, ReferenceView, SourceType,
};
use crate::syntax::{static_reference, Ast, NodeView};
use crate::{ImportKind, ResolvedId, ResolvedView};
use dashmap::DashMap;
use std::collections::hash_map::RandomState;
use vstd::prelude::*;

verus! {

/// What is handed to the resolve hook.
#[derive(Debug, PartialEq, Eq)]
pub struct ResolveArgs {
    pub specifier: String,
    /// The identifier of the module that holds the specifier.
    pub importer: Option<String>,
    pub is_entry: bool,
}

/// Mathematical content of [`ResolveArgs`].
pub struct ResolveArgsView {
    pub specifier: Seq<char>,
    pub importer: Option<Seq<char>>,
    pub is_entry: bool,
}

impl View for ResolveArgs {
    type V = ResolveArgsView;

    open spec fn view(&self) -> ResolveArgsView {
        ResolveArgsView {
            specifier: self.specifier@,
            importer: self.importer.deep_view(),
            is_entry: self.is_entry,
        }
    }
}

impl ResolveArgs {
    /// What is handed to the resolve hook for an entry of the build: the
    /// specifier has no importer.
    pub fn entry(specifier: String) -> (args: Self)
        ensures
            args@ == (ResolveArgsView { specifier: specifier@, importer: None, is_entry: true }),
    {
        ResolveArgs { specifier, importer: None, is_entry: true }
    }
}

/// The answer of a per-module resolver.
#[derive(Debug, PartialEq, Eq)]
pub enum Resolution {
    /// The specifier has been resolved before, to this.
    Cached(ResolvedId),
    /// The specifier has not been resolved yet: the resolve hook is to be
    /// asked with these arguments.
    Miss(ResolveArgs),
}

/// The resolved specifiers of one module.
pub struct DependencyIdResolver {
    pub module_id: String,
    pub resolved_ids: DashMap<String, ResolvedId, RandomState>,
}

/// Mathematical content of a [`DependencyIdResolver`].
pub struct ResolverView {
    pub module_id: Seq<char>,
    pub resolved_ids: Map<Seq<char>, ResolvedView>,
}

impl View for DependencyIdResolver {
    type V = ResolverView;

    open spec fn view(&self) -> ResolverView {
        ResolverView { module_id: self.module_id@, resolved_ids: cached_ids(self.resolved_ids) }
    }
}

impl DependencyIdResolver {
    /// A resolver for the module `module_id` that has resolved nothing yet.
    pub fn new(module_id: String) -> (resolver: Self)
        ensures
            resolver@ == (ResolverView { module_id: module_id@, resolved_ids: Map::empty() }),
    {
        let resolved_ids = cache_new();
        assert(cached_ids(resolved_ids) =~= Map::empty());
        DependencyIdResolver { module_id, resolved_ids }
    }

    /// What `dep_src` has been resolved to, if it has been resolved.
    pub fn cached(&self, dep_src: &String) -> (hit: Option<ResolvedId>)
        ensures
            hit.is_some() == self@.resolved_ids.contains_key(dep_src@),
            hit matches Some(resolved) ==> resolved@ == self@.resolved_ids[dep_src@],
    {
        cache_get(&self.resolved_ids, dep_src)
    }

    /// Resolves `dep_src` from what is known: the cached value where there
    /// is one, and otherwise the question to put to the resolve hook, which
    /// names this module as the importer and is never that of an entry.
    pub fn resolve_id(&self, dep_src: &String) -> (resolution: Resolution)
        ensures
            match resolution {
                Resolution::Cached(resolved) => self@.resolved_ids.contains_key(dep_src@)
                    && resolved@ == self@.resolved_ids[dep_src@],
                Resolution::Miss(args) => !self@.resolved_ids.contains_key(dep_src@) && args@ == (
                ResolveArgsView {
                    specifier: dep_src@,
                    importer: Some(self@.module_id),
                    is_entry: false,
                }),
            },
    {
        match self.cached(dep_src) {
            Some(resolved) => Resolution::Cached(resolved),
            None => Resolution::Miss(
                ResolveArgs {
                    specifier: dep_src.clone(),
                    importer: Some(self.module_id.clone()),
                    is_entry: false,
                },
            ),
        }
    }

    /// Stores the answer of the resolve hook for `dep_src` and hands back a
    /// copy of it. A later answer for the same specifier replaces the
    /// earlier one.
    pub fn record(&mut self, dep_src: String, resolved: ResolvedId) -> (copy: ResolvedId)
        ensures
            copy@ == resolved@,
            final(self)@ == (ResolverView {
                module_id: old(self)@.module_id,
                resolved_ids: old(self)@.resolved_ids.insert(dep_src@, resolved@),
            }),
    {
        let copy = resolved.clone();
        cache_insert(&mut self.resolved_ids, dep_src, resolved);
        copy
    }
}

/// The shared state of a build together with the tasks spawned so far, in
/// the order in which they were spawned.
pub struct SpawnView {
    pub ctx: ContextView,
    pub spawned: Seq<ResolvedView>,
}

/// A reference together with what its specifier resolved to according to
/// `cache`.
pub open spec fn resolve_reference(
    cache: Map<Seq<char>, ResolvedView>,
    reference: ReferenceView,
) -> DependencyView {
    DependencyView {
        specifier: reference.specifier,
        kind: reference.kind,
        resolved_id: if cache.contains_key(reference.specifier) {
            Some(cache[reference.specifier])
        } else {
            None
        },
    }
}

pub open spec fn resolve_references(
    cache: Map<Seq<char>, ResolvedView>,
    references: Seq<ReferenceView>,
) -> Seq<DependencyView> {
    references.map_values(|r: ReferenceView| resolve_reference(cache, r))
}

impl SpawnView {
    /// The spawn policy. A task is spawned for a resolved location exactly
    /// when the location is neither external nor ignored and has not been
    /// visited; then it is marked visited and one more task is in flight.
    pub open spec fn spawn(self, id: ResolvedView) -> SpawnView {
        if id.is_internal() && !self.ctx.visited.contains(id.uri) {
            SpawnView { ctx: self.ctx.spawn(id.uri), spawned: self.spawned.push(id) }
        } else {
            self
        }
    }

    /// A reference whose specifier has been resolved is put to the spawn
    /// policy; for one that has not, nothing is spawned.
    pub open spec fn spawn_reference(
        self,
        cache: Map<Seq<char>, ResolvedView>,
        reference: ReferenceView,
    ) -> SpawnView {
        match resolve_reference(cache, reference).resolved_id {
            Some(id) => self.spawn(id),
            None => self,
        }
    }

    pub open spec fn spawn_references(
        self,
        cache: Map<Seq<char>, ResolvedView>,
        references: Seq<ReferenceView>,
    ) -> SpawnView
        decreases references.len(),
    {
        if references.len() == 0 {
            self
        } else {
            self.spawn_references(cache, references.drop_last()).spawn_reference(
                cache,
                references.last(),
            )
        }
    }
}

impl SpawnView {
    /// What spawning can do to the shared state: identifiers are only ever
    /// added to the visited set, and the in-flight count grows by the number
    /// of identifiers added.
    pub open spec fn extends(self, start: SpawnView) -> bool {
        &&& self.ctx.visited.finite()
        &&& start.ctx.visited.subset_of(self.ctx.visited)
        &&& self.ctx.active - start.ctx.active == self.ctx.visited.len()
            - start.ctx.visited.len()
    }

    /// The resolved locations put to the spawn policy one after the other.
    pub open spec fn spawn_all(self, ids: Seq<ResolvedView>) -> SpawnView
        decreases ids.len(),
    {
        if ids.len() == 0 {
            self
        } else {
            self.spawn_all(ids.drop_last()).spawn(ids.last())
        }
    }
}

/// One application of the spawn policy extends the shared state, and
/// afterwards the location is visited if it is neither external nor ignored.
pub proof fn lemma_spawn(start: SpawnView, id: ResolvedView)
    requires
        start.ctx.visited.finite(),
    ensures
        start.spawn(id).extends(start),
        id.is_internal() ==> start.spawn(id).ctx.visited.contains(id.uri),
{
}

/// Putting resolved locations to the spawn policy extends the shared state,
/// and afterwards each of them that is neither external nor ignored is
/// visited.
pub proof fn lemma_spawn_all(start: SpawnView, ids: Seq<ResolvedView>)
    requires
        start.ctx.visited.finite(),
    ensures
        start.spawn_all(ids).extends(start),
        forall|i: int|
            0 <= i < ids.len() && (#[trigger] ids[i]).is_internal() ==> start.spawn_all(
                ids,
            ).ctx.visited.contains(ids[i].uri),
    decreases ids.len(),
{
    if ids.len() > 0 {
        lemma_spawn_all(start, ids.drop_last());
        let before = start.spawn_all(ids.drop_last());
        lemma_spawn(before, ids.last());
        assert forall|i: int| 0 <= i < ids.len() && (#[trigger] ids[i]).is_internal() implies start.spawn_all(
            ids,
        ).ctx.visited.contains(ids[i].uri) by {
            if i < ids.len() - 1 {
                assert(ids.drop_last()[i] == ids[i]);
            }
        }
    }
}

/// Putting references to the spawn policy extends the shared state, and
/// afterwards the target of each of them is visited.
pub proof fn lemma_spawn_references(
    start: SpawnView,
    cache: Map<Seq<char>, ResolvedView>,
    references: Seq<ReferenceView>,
)
    requires
        start.ctx.visited.finite(),
    ensures
        start.spawn_references(cache, references).extends(start),
        forall|i: int|
            0 <= i < references.len() ==> (resolve_reference(
                cache,
                #[trigger] references[i],
            ).target() matches Some(uri) ==> start.spawn_references(
                cache,
                references,
            ).ctx.visited.contains(uri)),
    decreases references.len(),
{
    if references.len() > 0 {
        lemma_spawn_references(start, cache, references.drop_last());
        let before = start.spawn_references(cache, references.drop_last());
        if let Some(id) = resolve_reference(cache, references.last()).resolved_id {
            lemma_spawn(before, id);
        }
        assert forall|i: int| 0 <= i < references.len() implies (resolve_reference(
            cache,
            #[trigger] references[i],
        ).target() matches Some(uri) ==> start.spawn_references(
            cache,
            references,
        ).ctx.visited.contains(uri)) by {
            if i < references.len() - 1 {
                assert(references.drop_last()[i] == references[i]);
            }
        }
    }
}

/// An identifier that is visited after resolved locations have been put to
/// the spawn policy was visited before or is that of one of them.
pub proof fn lemma_spawn_all_origin(start: SpawnView, ids: Seq<ResolvedView>, uri: Seq<char>)
    requires
        start.spawn_all(ids).ctx.visited.contains(uri),
    ensures
        start.ctx.visited.contains(uri) || exists|i: int|
            0 <= i < ids.len() && (#[trigger] ids[i]).is_internal() && ids[i].uri == uri,
    decreases ids.len(),
{
    if ids.len() > 0 {
        let before = start.spawn_all(ids.drop_last());
        if before.ctx.visited.contains(uri) {
            lemma_spawn_all_origin(start, ids.drop_last(), uri);
            if !start.ctx.visited.contains(uri) {
                let i = choose|i: int|
                    0 <= i < ids.drop_last().len() && (#[trigger] ids.drop_last()[i]).is_internal()
                        && ids.drop_last()[i].uri == uri;
                assert(ids[i] == ids.drop_last()[i]);
            }
        } else {
            assert(ids[ids.len() - 1] == ids.last());
        }
    }
}

/// An identifier that is visited after references have been put to the
/// spawn policy was visited before or is the target of one of them.
pub proof fn lemma_spawn_references_origin(
    start: SpawnView,
    cache: Map<Seq<char>, ResolvedView>,
    references: Seq<ReferenceView>,
    uri: Seq<char>,
)
    requires
        start.spawn_references(cache, references).ctx.visited.contains(uri),
    ensures
        start.ctx.visited.contains(uri) || exists|i: int|
            0 <= i < references.len() && resolve_reference(
                cache,
                #[trigger] references[i],
            ).target() == Some(uri),
    decreases references.len(),
{
    if references.len() > 0 {
        let shorter = references.drop_last();
        let before = start.spawn_references(cache, shorter);
        if before.ctx.visited.contains(uri) {
            lemma_spawn_references_origin(start, cache, shorter, uri);
            if !start.ctx.visited.contains(uri) {
                let i = choose|i: int|
                    0 <= i < shorter.len() && resolve_reference(
                        cache,
                        #[trigger] shorter[i],
                    ).target() == Some(uri);
                assert(references[i] == shorter[i]);
            }
        } else {
            assert(references[references.len() - 1] == references.last());
        }
    }
}

/// The reference that a top-level declaration makes is among the static
/// references of the tree.
pub proof fn lemma_prescan_is_scanned(ast: Seq<NodeView>, i: int)
    requires
        0 <= i < prescan_spec(ast).len(),
    ensures
        scan_spec(ast).dependencies.contains(prescan_spec(ast)[i]),
    decreases ast.len(),
{
    if ast.len() > 0 {
        let shorter = ast.drop_last();
        let before = prescan_spec(shorter);
        if i < before.len() {
            lemma_prescan_is_scanned(shorter, i);
            crate::dependency_scanner::lemma_visit_node_keeps(
                ScanView::empty().visit_nodes(shorter),
                ast.last(),
                before[i],
            );
        } else {
            lemma_scan_finds_declarations(ast, ast.len() - 1);
        }
    }
}

/// An identifier that is visited after a task has run was visited before or
/// is the target of a reference of the finished module.
pub proof fn lemma_task_spawns_origin(
    start: SpawnView,
    uri: Seq<char>,
    ast: Seq<NodeView>,
    cache: Map<Seq<char>, ResolvedView>,
    visited: Seq<char>,
)
    requires
        task_spawns(start, ast, cache).ctx.visited.contains(visited),
    ensures
        start.ctx.visited.contains(visited) || exists|k: int|
            0 <= k < finished_module(uri, ast, cache).dependencies.len() && (
            #[trigger] finished_module(uri, ast, cache).dependencies[k]).target() == Some(visited),
{
    let found = scan_spec(ast);
    let dynamic = dynamic_references(found.dyn_dependencies);
    let first = start.spawn_references(cache, prescan_spec(ast));
    let second = first.spawn_references(cache, dynamic);
    let references = module_references(found);
    let dependencies = finished_module(uri, ast, cache).dependencies;
    lemma_spawn_references_origin(second, cache, found.dependencies, visited);
    if second.ctx.visited.contains(visited) {
        lemma_spawn_references_origin(first, cache, dynamic, visited);
        if first.ctx.visited.contains(visited) {
            lemma_spawn_references_origin(start, cache, prescan_spec(ast), visited);
            if !start.ctx.visited.contains(visited) {
                let i = choose|i: int|
                    0 <= i < prescan_spec(ast).len() && resolve_reference(
                        cache,
                        #[trigger] prescan_spec(ast)[i],
                    ).target() == Some(visited);
                lemma_prescan_is_scanned(ast, i);
                let k = choose|k: int|
                    0 <= k < found.dependencies.len() && found.dependencies[k] == prescan_spec(
                        ast,
                    )[i];
                assert(references[k] == found.dependencies[k]);
                assert(dependencies[k] == resolve_reference(cache, references[k]));
            }
        } else {
            let i = choose|i: int|
                0 <= i < dynamic.len() && resolve_reference(cache, #[trigger] dynamic[i]).target()
                    == Some(visited);
            let k = found.dependencies.len() + i;
            assert(references[k] == dynamic[i]);
            assert(dependencies[k] == resolve_reference(cache, references[k]));
        }
    } else {
        let i = choose|i: int|
            0 <= i < found.dependencies.len() && resolve_reference(
                cache,
                #[trigger] found.dependencies[i],
            ).target() == Some(visited);
        assert(references[i] == found.dependencies[i]);
        assert(dependencies[i] == resolve_reference(cache, references[i]));
    }
}

/// All the spawns of one task extend the shared state, and afterwards the
/// target of every reference of the finished module is visited.
pub proof fn lemma_task_spawns(
    start: SpawnView,
    uri: Seq<char>,
    ast: Seq<NodeView>,
    cache: Map<Seq<char>, ResolvedView>,
)
    requires
        start.ctx.visited.finite(),
    ensures
        task_spawns(start, ast, cache).extends(start),
        forall|i: int|
            0 <= i < finished_module(uri, ast, cache).dependencies.len() ==> ((
            #[trigger] finished_module(uri, ast, cache).dependencies[i]).target() matches Some(
                target,
            ) ==> task_spawns(start, ast, cache).ctx.visited.contains(target)),
{
    let found = scan_spec(ast);
    let dynamic = dynamic_references(found.dyn_dependencies);
    let first = start.spawn_references(cache, prescan_spec(ast));
    lemma_spawn_references(start, cache, prescan_spec(ast));
    let second = first.spawn_references(cache, dynamic);
    lemma_spawn_references(first, cache, dynamic);
    let third = second.spawn_references(cache, found.dependencies);
    lemma_spawn_references(second, cache, found.dependencies);
    let dependencies = finished_module(uri, ast, cache).dependencies;
    assert forall|i: int| 0 <= i < dependencies.len() implies ((
    #[trigger] dependencies[i]).target() matches Some(target) ==> third.ctx.visited.contains(
        target,
    )) by {
        let references = module_references(found);
        assert(dependencies[i] == resolve_reference(cache, references[i]));
        if i < found.dependencies.len() {
            assert(references[i] == found.dependencies[i]);
        } else {
            assert(references[i] == dynamic[i - found.dependencies.len()]);
        }
    }
}

/// The references made by the top-level declarations of a module, one for
/// each declaration that makes one, in source order.
pub open spec fn prescan_spec(ast: Seq<NodeView>) -> Seq<ReferenceView>
    decreases ast.len(),
{
    if ast.len() == 0 {
        Seq::empty()
    } else {
        match ast.last().decl.reference() {
            Some(reference) => prescan_spec(ast.drop_last()).push(reference),
            None => prescan_spec(ast.drop_last()),
        }
    }
}

/// The dynamic imports whose target is a literal, as references; those
/// whose target is unknown until run time make no reference.
pub open spec fn dynamic_references(dyn_imports: Seq<Option<Seq<char>>>) -> Seq<ReferenceView>
    decreases dyn_imports.len(),
{
    if dyn_imports.len() == 0 {
        Seq::empty()
    } else {
        match dyn_imports.last() {
            Some(specifier) => dynamic_references(dyn_imports.drop_last()).push(
                ReferenceView { specifier, kind: ImportKind::DynamicImport },
            ),
            None => dynamic_references(dyn_imports.drop_last()),
        }
    }
}

/// All references of a module: the static ones in source order, then the
/// dynamic ones in source order.
pub open spec fn module_references(found: ScanView) -> Seq<ReferenceView> {
    found.dependencies + dynamic_references(found.dyn_dependencies)
}

/// One failure for each reference whose specifier did not resolve, in the
/// order of the references.
pub open spec fn resolve_failures(uri: Seq<char>, dependencies: Seq<DependencyView>) -> Seq<
    ErrorView,
>
    decreases dependencies.len(),
{
    if dependencies.len() == 0 {
        Seq::empty()
    } else {
        let before = resolve_failures(uri, dependencies.drop_last());
        if dependencies.last().resolved_id is None {
            before.push(
                ErrorView {
                    kind: ErrorKind::ResolveFailure,
                    uri,
                    detail: dependencies.last().specifier,
                },
            )
        } else {
            before
        }
    }
}

/// The node that a task makes of a module: not yet ordered, not marked as an
/// entry, with every reference resolved as far as `cache` goes. A dynamic
/// import whose target is unknown until run time is recorded among the
/// dynamic imports and makes no reference.
pub open spec fn finished_module(
    uri: Seq<char>,
    ast: Seq<NodeView>,
    cache: Map<Seq<char>, ResolvedView>,
) -> ModuleView {
    ModuleView {
        exec_order: usize::MAX,
        uri,
        source_type: SourceType::JavaScript,
        is_entry: false,
        resolved_ids: cache,
        dyn_imports: scan_spec(ast).dyn_dependencies,
        dependencies: resolve_references(cache, module_references(scan_spec(ast))),
    }
}

/// The spawns of one task, in order: first for the references of the
/// top-level declarations, then for the dynamic imports, then for all static
/// references.
pub open spec fn task_spawns(
    start: SpawnView,
    ast: Seq<NodeView>,
    cache: Map<Seq<char>, ResolvedView>,
) -> SpawnView {
    start.spawn_references(cache, prescan_spec(ast)).spawn_references(
        cache,
        dynamic_references(scan_spec(ast).dyn_dependencies),
    ).spawn_references(cache, scan_spec(ast).dependencies)
}

/// What holds of the resolutions of a finished module.
///
/// Every reference that resolved stands in the table of resolved specifiers
/// with what it resolved to. Where no reference failed to resolve, the
/// specifier of every reference that the scan found is a key of the table.
pub proof fn lemma_finished_module_resolutions(
    uri: Seq<char>,
    ast: Seq<NodeView>,
    cache: Map<Seq<char>, ResolvedView>,
)
    ensures
        finished_module(uri, ast, cache).resolutions_recorded(),
        resolve_failures(uri, finished_module(uri, ast, cache).dependencies).len() == 0
            ==> forall|i: int|
            0 <= i < module_references(scan_spec(ast)).len() ==> cache.contains_key(
                (#[trigger] module_references(scan_spec(ast))[i]).specifier,
            ),
{
    let module = finished_module(uri, ast, cache);
    let references = module_references(scan_spec(ast));
    assert forall|i: int| 0 <= i < module.dependencies.len() implies match (
    #[trigger] module.dependencies[i]).resolved_id {
        Some(resolved) => module.resolved_ids.contains_key(module.dependencies[i].specifier)
            && module.resolved_ids[module.dependencies[i].specifier] == resolved,
        None => true,
    } by {
        assert(module.dependencies[i] == resolve_reference(cache, references[i]));
    }
    if resolve_failures(uri, module.dependencies).len() == 0 {
        assert forall|i: int| 0 <= i < references.len() implies cache.contains_key(
            (#[trigger] references[i]).specifier,
        ) by {
            assert(module.dependencies[i] == resolve_reference(cache, references[i]));
            lemma_no_failures(uri, module.dependencies, i);
        }
    }
}

/// Where there is no failure, every reference resolved.
pub proof fn lemma_no_failures(uri: Seq<char>, dependencies: Seq<DependencyView>, i: int)
    requires
        resolve_failures(uri, dependencies).len() == 0,
        0 <= i < dependencies.len(),
    ensures
        dependencies[i].resolved_id is Some,
    decreases dependencies.len(),
{
    if i < dependencies.len() - 1 {
        lemma_no_failures(uri, dependencies.drop_last(), i);
    }
}

/// The work to be done for one resolved location.
#[derive(Debug, PartialEq, Eq)]
pub struct Task {
    pub resolved_id: ResolvedId,
}

impl View for Task {
    type V = ResolvedView;

    open spec fn view(&self) -> ResolvedView {
        self.resolved_id@
    }
}

/// The contents of a list of tasks.
pub open spec fn task_views(tasks: Seq<Task>) -> Seq<ResolvedView> {
    tasks.map_values(|t: Task| t@)
}

/// What a task hands back.
pub struct TaskOutput {
    /// The finished module; `None` where the task had nothing to do.
    pub module: Option<ModuleGraphModule>,
    /// The tasks spawned for newly discovered modules, in spawn order.
    pub spawned: Vec<Task>,
    /// The specifiers that did not resolve.
    pub errors: Vec<BuildError>,
}

/// The references made by the top-level declarations of `ast`.
pub fn prescan(ast: &Ast) -> (references: Vec<ModuleDependency>)
    ensures
        reference_views(references@) == prescan_spec(ast@),
{
    let mut references: Vec<ModuleDependency> = Vec::new();
    let mut i: usize = 0;
    assert(ast@.take(0) =~= Seq::empty());
    assert(reference_views(references@) =~= Seq::empty());
    while i < ast.body.len()
        invariant
            i <= ast.body.len(),
            reference_views(references@) == prescan_spec(ast@.take(i as int)),
        decreases ast.body.len() - i,
    {
        proof {
            let upto = ast@.take(i + 1);
            assert(upto.drop_last() =~= ast@.take(i as int));
            assert(upto.last() == ast.body[i as int]@);
        }
        if let Some(reference) = static_reference(&ast.body[i].item) {
            let ghost before = references@;
            references.push(reference);
            assert(reference_views(references@) =~= reference_views(before).push(reference@));
        }
        i += 1;
    }
    assert(ast@.take(i as int) =~= ast@);
    references
}

/// The dynamic imports with a literal target, as references.
pub fn dynamic_imports_as_references(dyn_imports: &Vec<DynImportDesc>) -> (references: Vec<
    ModuleDependency,
>)
    ensures
        reference_views(references@) == dynamic_references(
            dyn_imports@.map_values(|d: DynImportDesc| d@),
        ),
{
    let ghost all = dyn_imports@.map_values(|d: DynImportDesc| d@);
    let mut references: Vec<ModuleDependency> = Vec::new();
    let mut i: usize = 0;
    assert(all.take(0) =~= Seq::empty());
    assert(reference_views(references@) =~= Seq::empty());
    while i < dyn_imports.len()
        invariant
            i <= dyn_imports.len(),
            all == dyn_imports@.map_values(|d: DynImportDesc| d@),
            reference_views(references@) == dynamic_references(all.take(i as int)),
        decreases dyn_imports.len() - i,
    {
        proof {
            let upto = all.take(i + 1);
            assert(upto.drop_last() =~= all.take(i as int));
            assert(upto.last() == dyn_imports[i as int]@);
        }
        if let Some(specifier) = &dyn_imports[i].argument {
            let ghost before = references@;
            let reference = ModuleDependency {
                specifier: specifier.clone(),
                kind: ImportKind::DynamicImport,
            };
            references.push(reference);
            assert(reference_views(references@) =~= reference_views(before).push(reference@));
        }
        i += 1;
    }
    assert(all.take(i as int) =~= all);
    references
}

impl Task {
    pub fn new(resolved_id: ResolvedId) -> (task: Self)
        ensures
            task@ == resolved_id@,
    {
        Task { resolved_id }
    }

    /// Applies the spawn policy to `id`: where the location is neither
    /// external nor ignored and has not been visited, it is marked visited,
    /// one more task counts as in flight, and the task for it is handed
    /// back. Otherwise nothing changes.
    pub fn spawn(ctx: &mut BundleContext, id: ResolvedId) -> (child: Option<Task>)
        requires
            old(ctx).wf(),
        ensures
            final(ctx).wf(),
            child.is_some() == (id@.is_internal() && !old(ctx)@.visited.contains(id@.uri)),
            child matches Some(task) ==> task@ == id@,
            final(ctx)@ == if child.is_some() {
                old(ctx)@.spawn(id@.uri)
            } else {
                old(ctx)@
            },
    {
        if id.is_internal() {
            if ctx.try_visit(id.uri.clone()) {
                Some(Task { resolved_id: id })
            } else {
                None
            }
        } else {
            None
        }
    }

    /// Applies the spawn policy to a location discovered while working on a
    /// module; see [`Task::spawn`].
    pub fn spawn_new_task(&self, ctx: &mut BundleContext, id: ResolvedId) -> (child: Option<Task>)
        requires
            old(ctx).wf(),
        ensures
            final(ctx).wf(),
            child.is_some() == (id@.is_internal() && !old(ctx)@.visited.contains(id@.uri)),
            child matches Some(task) ==> task@ == id@,
            final(ctx)@ == if child.is_some() {
                old(ctx)@.spawn(id@.uri)
            } else {
                old(ctx)@
            },
    {
        Task::spawn(ctx, id)
    }

    /// Puts each of `references` whose specifier `resolver` knows to the
    /// spawn policy, in order, and appends the tasks spawned to `spawned`.
    pub fn spawn_references(
        &self,
        ctx: &mut BundleContext,
        resolver: &DependencyIdResolver,
        references: &Vec<ModuleDependency>,
        spawned: &mut Vec<Task>,
    )
        requires
            old(ctx).wf(),
        ensures
            final(ctx).wf(),
            (SpawnView { ctx: final(ctx)@, spawned: task_views(final(spawned)@) }) == (SpawnView {
                ctx: old(ctx)@,
                spawned: task_views(old(spawned)@),
            }).spawn_references(resolver@.resolved_ids, reference_views(references@)),
    {
        let ghost start = SpawnView { ctx: ctx@, spawned: task_views(spawned@) };
        let ghost cache = resolver@.resolved_ids;
        let ghost all = reference_views(references@);
        let mut i: usize = 0;
        assert(all.take(0) =~= Seq::empty());
        while i < references.len()
            invariant
                i <= references.len(),
                ctx.wf(),
                cache == resolver@.resolved_ids,
                all == reference_views(references@),
                (SpawnView { ctx: ctx@, spawned: task_views(spawned@) }) == start.spawn_references(
                    cache,
                    all.take(i as int),
                ),
            decreases references.len() - i,
        {
            proof {
                let upto = all.take(i + 1);
                assert(upto.drop_last() =~= all.take(i as int));
                assert(upto.last() == references[i as int]@);
            }
            if let Some(resolved) = resolver.cached(&references[i].specifier) {
                let ghost before = spawned@;
                if let Some(child) = self.spawn_new_task(ctx, resolved) {
                    spawned.push(child);
                    assert(task_views(spawned@) =~= task_views(before).push(child@));
                }
            }
            i += 1;
        }
        assert(all.take(i as int) =~= all);
    }

    /// The fast path for static imports and exports: walks only the
    /// top-level declarations of `ast` and applies the spawn policy to each
    /// one whose specifier `resolver` knows, in source order. Hands back the
    /// tasks spawned.
    pub fn pre_analyze_imported_module(
        &self,
        ctx: &mut BundleContext,
        resolver: &DependencyIdResolver,
        ast: &Ast,
    ) -> (spawned: Vec<Task>)
        requires
            old(ctx).wf(),
        ensures
            final(ctx).wf(),
            (SpawnView { ctx: final(ctx)@, spawned: task_views(spawned@) }) == (SpawnView {
                ctx: old(ctx)@,
                spawned: Seq::empty(),
            }).spawn_references(resolver@.resolved_ids, prescan_spec(ast@)),
    {
        let references = prescan(ast);
        let mut spawned: Vec<Task> = Vec::new();
        assert(task_views(spawned@) =~= Seq::empty());
        self.spawn_references(ctx, resolver, &references, &mut spawned);
        spawned
    }

    /// Resolves each reference as far as `resolver` goes.
    pub fn resolve_dependencies(
        resolver: &DependencyIdResolver,
        references: &Vec<ModuleDependency>,
    ) -> (dependencies: Vec<Dependency>)
        ensures
            dependency_views(dependencies@) == resolve_references(
                resolver@.resolved_ids,
                reference_views(references@),
            ),
    {
        let mut dependencies: Vec<Dependency> = Vec::new();
        let mut i: usize = 0;
        while i < references.len()
            invariant
                i <= references.len(),
                dependencies@.len() == i,
                forall|j: int|
                    0 <= j < i ==> (#[trigger] dependencies@[j])@ == resolve_reference(
                        resolver@.resolved_ids,
                        references@[j]@,
                    ),
            decreases references.len() - i,
        {
            let reference = &references[i];
            let resolved_id = resolver.cached(&reference.specifier);
            dependencies.push(
                Dependency {
                    specifier: reference.specifier.clone(),
                    kind: reference.kind,
                    resolved_id,
                },
            );
            i += 1;
        }
        assert(dependency_views(dependencies@) =~= resolve_references(
            resolver@.resolved_ids,
            reference_views(references@),
        ));
        dependencies
    }

    /// One failure for each reference that did not resolve.
    pub fn collect_failures(uri: &String, dependencies: &Vec<Dependency>) -> (errors: Vec<
        BuildError,
    >)
        ensures
            error_views(errors@) == resolve_failures(uri@, dependency_views(dependencies@)),
    {
        let ghost all = dependency_views(dependencies@);
        let mut errors: Vec<BuildError> = Vec::new();
        let mut i: usize = 0;
        assert(all.take(0) =~= Seq::empty());
        assert(error_views(errors@) =~= Seq::empty());
        while i < dependencies.len()
            invariant
                i <= dependencies.len(),
                all == dependency_views(dependencies@),
                error_views(errors@) == resolve_failures(uri@, all.take(i as int)),
            decreases dependencies.len() - i,
        {
            proof {
                let upto = all.take(i + 1);
                assert(upto.drop_last() =~= all.take(i as int));
                assert(upto.last() == dependencies[i as int]@);
            }
            if dependencies[i].resolved_id.is_none() {
                let ghost before = errors@;
                let error = BuildError::resolve_failure(
                    uri.clone(),
                    dependencies[i].specifier.clone(),
                );
                errors.push(error);
                assert(error_views(errors@) =~= error_views(before).push(error@));
            }
            i += 1;
        }
        assert(all.take(i as int) =~= all);
        errors
    }

    /// Processes one module: takes its syntax tree, as it stands after all
    /// transforms, and a resolver that holds the answers of the resolve hook
    /// for its specifiers.
    ///
    /// For an external or ignored location there is nothing to do. Otherwise
    /// the top-level declarations are put to the spawn policy first; then the
    /// whole tree is scanned, and the dynamic imports and all static
    /// references are put to the spawn policy in turn. The finished module
    /// carries all references, each with what it resolved to, and the
    /// resolver's table. A reference whose specifier the resolver does not
    /// know is a resolve failure; it spawns nothing.
    pub fn run(&self, ctx: &mut BundleContext, resolver: DependencyIdResolver, ast: Ast) -> (output:
        TaskOutput)
        requires
            old(ctx).wf(),
        ensures
            final(ctx).wf(),
            !self@.is_internal() ==> output.module is None && output.spawned@.len() == 0
                && output.errors@.len() == 0 && final(ctx)@ == old(ctx)@,
            self@.is_internal() ==> output.module is Some && output.module.unwrap()@
                == finished_module(self@.uri, ast@, resolver@.resolved_ids),
            self@.is_internal() ==> error_views(output.errors@) == resolve_failures(
                self@.uri,
                finished_module(self@.uri, ast@, resolver@.resolved_ids).dependencies,
            ),
            self@.is_internal() ==> (SpawnView {
                ctx: final(ctx)@,
                spawned: task_views(output.spawned@),
            }) == task_spawns(
                SpawnView { ctx: old(ctx)@, spawned: Seq::empty() },
                ast@,
                resolver@.resolved_ids,
            ),
    {
        if !self.resolved_id.is_internal() {
            return TaskOutput { module: None, spawned: Vec::new(), errors: Vec::new() };
        }
        let mut spawned = self.pre_analyze_imported_module(ctx, &resolver, &ast);
        let scanner = DependencyScanner::scan(&ast);
        let dynamic = dynamic_imports_as_references(&scanner.dyn_dependencies);
        self.spawn_references(ctx, &resolver, &dynamic, &mut spawned);
        self.spawn_references(ctx, &resolver, &scanner.dependencies, &mut spawned);

        let mut dependencies = Task::resolve_dependencies(&resolver, &scanner.dependencies);
        let mut dynamic_dependencies = Task::resolve_dependencies(&resolver, &dynamic);
        let ghost statics = dependencies@;
        dependencies.append(&mut dynamic_dependencies);
        proof {
            let cache = resolver@.resolved_ids;
            assert(dependency_views(dependencies@) =~= dependency_views(statics)
                + resolve_references(cache, reference_views(dynamic@)));
            assert(resolve_references(cache, module_references(scan_spec(ast@)))
                =~= resolve_references(cache, scan_spec(ast@).dependencies) + resolve_references(
                cache,
                dynamic_references(scan_spec(ast@).dyn_dependencies),
            ));
        }
        let errors = Task::collect_failures(&self.resolved_id.uri, &dependencies);
        let payload: BoxModule = Box::new(JsModule { ast, code: String::new() });
        let mut module = ModuleGraphModule::new(
            self.resolved_id.uri.clone(),
            payload,
            dependencies,
            SourceType::JavaScript,
        );
        module.resolved_ids = resolver.resolved_ids;
        module.dyn_imports = scanner.dyn_dependencies;
        TaskOutput { module: Some(module), spawned, errors }
    }
}

} // verus!
