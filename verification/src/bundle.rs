//! The coordinator of a build: it owns the shared state, the results that
//! tasks have sent and that wait to be consumed, the graph of finished
//! modules and the failures, and it decides when the build is quiescent.

use crate::build_invariant::{
    lemma_consumed, lemma_invalidated_is_stale, lemma_marked, lemma_outside_reaches_itself_only,
    lemma_quiescent_accounts, lemma_rebuilt, lemma_rooted_consumed, lemma_rooted_finalized,
    lemma_rooted_finished, lemma_rooted_seeded, lemma_sent, lemma_stale_entries,
    lemma_waiting_in_flight,
};
use crate::bundle_context::{BundleContext, ContextView};
use crate::error::{error_views, retain_errors, BuildError, ErrorKind, ErrorView};
use crate::finalize::{finalized, lemma_finalized_keeps};
use crate::invalidation::{keep_nodes, lemma_reaches_itself, marked_uris};
use crate::module::{ModuleGraphModule, ModuleView};
use crate::module_graph::{by_uri, lemma_by_uri_push, uris_of, ModuleGraph};
use crate::reachability::{reachable, reaches, refers_to};
use crate::syntax::Ast;
use crate::task::{
    finished_module, lemma_finished_module_resolutions, lemma_spawn_all, lemma_task_spawns,
    lemma_task_spawns_origin,
    resolve_failures, task_spawns, task_views, DependencyIdResolver, SpawnView, Task,
};
use crate::text::{
    contains_text, drop_texts, keep_by, keep_texts, lemma_drop_texts_agree, lemma_keep_by_agree,
    lemma_keep_texts_concat, retain_texts, select_texts, texts,
};
use crate::{ImportKind, ResolvedId, ResolvedView};
use vstd::prelude::*;

verus! {

/// What a task sends to the coordinator when it is done.
pub enum Msg {
    /// The module is finished.
    TaskFinished(ModuleGraphModule),
    /// The module could not be loaded, parsed or transformed.
    TaskFailed(BuildError),
}

/// Mathematical content of a [`Msg`].
pub enum MsgView {
    TaskFinished(ModuleView),
    TaskFailed(ErrorView),
}

impl View for Msg {
    type V = MsgView;

    open spec fn view(&self) -> MsgView {
        match self {
            Msg::TaskFinished(module) => MsgView::TaskFinished(module@),
            Msg::TaskFailed(error) => MsgView::TaskFailed(error@),
        }
    }
}

impl MsgView {
    /// The identifier of the module that the message is about.
    pub open spec fn uri(self) -> Seq<char> {
        match self {
            MsgView::TaskFinished(module) => module.uri,
            MsgView::TaskFailed(error) => error.uri,
        }
    }
}

impl Msg {
    /// The identifier of the module that the message is about.
    pub fn uri(&self) -> (uri: &String)
        ensures
            uri@ == self@.uri(),
    {
        match self {
            Msg::TaskFinished(module) => &module.uri,
            Msg::TaskFailed(error) => &error.uri,
        }
    }
}

/// The identifiers of the modules that a sequence of messages is about.
pub open spec fn queued_uris(queued: Seq<MsgView>) -> Seq<Seq<char>> {
    queued.map_values(|m: MsgView| m.uri())
}

/// The target of every reference of `module` is among `visited`.
pub open spec fn targets_visited(module: ModuleView, visited: Set<Seq<char>>) -> bool {
    forall|k: int|
        0 <= k < module.dependencies.len() ==> ((
        #[trigger] module.dependencies[k]).target() matches Some(uri) ==> visited.contains(uri))
}

/// The finished modules among waiting results, in their order.
pub open spec fn finished_modules(queued: Seq<MsgView>) -> Seq<ModuleView>
    decreases queued.len(),
{
    if queued.len() == 0 {
        Seq::empty()
    } else {
        match queued.last() {
            MsgView::TaskFinished(module) => finished_modules(queued.drop_last()).push(module),
            MsgView::TaskFailed(_) => finished_modules(queued.drop_last()),
        }
    }
}

/// The entries that are neither external nor ignored and whose identifier is
/// in `stale`, in their order.
pub open spec fn stale_entries(entries: Seq<ResolvedView>, stale: Set<Seq<char>>) -> Seq<ResolvedView>
    decreases entries.len(),
{
    if entries.len() == 0 {
        Seq::empty()
    } else if entries.last().is_internal() && stale.contains(entries.last().uri) {
        stale_entries(entries.drop_last(), stale).push(entries.last())
    } else {
        stale_entries(entries.drop_last(), stale)
    }
}

/// What a rebuild starts with.
pub struct Rebuild {
    /// The identifiers of the modules that are to be built again: first
    /// those that were in the graph, in the order in which they were
    /// consumed, then those that had failed.
    pub invalidated: Vec<String>,
    /// The tasks spawned to build them.
    pub tasks: Vec<Task>,
}

/// One build: the shared state of its tasks and what has come of them.
pub struct Bundle {
    context: BundleContext,
    module_graph: ModuleGraph,
    entries: Vec<ResolvedId>,
    channel: Vec<Msg>,
    closed: bool,
    failed: Vec<String>,
    errors: Vec<BuildError>,
}

/// Mathematical content of a [`Bundle`].
pub struct BundleView {
    pub ctx: ContextView,
    /// The finished modules that have been consumed, in the order in which
    /// they were.
    pub nodes: Seq<ModuleView>,
    /// The resolved locations that the build was seeded with, in order.
    pub entries: Seq<ResolvedView>,
    /// The results sent and not yet consumed, oldest first.
    pub queued: Seq<MsgView>,
    /// Whether the host has closed the result channel: a closed channel
    /// takes no more results.
    pub closed: bool,
    /// The identifiers of the modules whose task failed, once the failure
    /// was consumed.
    pub failed: Seq<Seq<char>>,
    pub errors: Seq<ErrorView>,
}

impl BundleView {
    /// No identifier occurs twice among the modules consumed, among those
    /// failed, or among those waiting to be consumed.
    pub open spec fn distinct(self) -> bool {
        &&& uris_of(self.nodes).no_duplicates()
        &&& self.failed.no_duplicates()
        &&& queued_uris(self.queued).no_duplicates()
    }

    /// Every module consumed, failed or waiting is visited, and none is two
    /// of these at once.
    pub open spec fn claimed(self) -> bool {
        &&& forall|uri: Seq<char>| #[trigger]
            uris_of(self.nodes).contains(uri) ==> self.ctx.visited.contains(uri)
                && !self.failed.contains(uri) && !queued_uris(self.queued).contains(uri)
        &&& forall|uri: Seq<char>| #[trigger]
            self.failed.contains(uri) ==> self.ctx.visited.contains(uri) && !queued_uris(
                self.queued,
            ).contains(uri)
        &&& forall|uri: Seq<char>| #[trigger]
            queued_uris(self.queued).contains(uri) ==> self.ctx.visited.contains(uri)
    }

    /// The tasks in flight are the visited identifiers that are neither
    /// consumed nor failed.
    pub open spec fn counted(self) -> bool {
        self.ctx.active + self.nodes.len() + self.failed.len() == self.ctx.visited.len()
    }

    /// Whatever a finished module refers to, and every entry, is visited.
    pub open spec fn covered(self) -> bool {
        &&& forall|i: int|
            0 <= i < self.nodes.len() ==> targets_visited(
                #[trigger] self.nodes[i],
                self.ctx.visited,
            )
        &&& forall|i: int|
            0 <= i < self.queued.len() ==> (#[trigger] self.queued[i] matches MsgView::TaskFinished(
                module,
            ) ==> targets_visited(module, self.ctx.visited))
        &&& forall|i: int|
            0 <= i < self.entries.len() && (#[trigger] self.entries[i]).is_internal()
                ==> self.ctx.visited.contains(self.entries[i].uri)
    }

    /// Every finished module has each reference that resolved in its table of
    /// resolved specifiers, with what it resolved to.
    pub open spec fn recorded(self) -> bool {
        &&& forall|i: int|
            0 <= i < self.nodes.len() ==> (#[trigger] self.nodes[i]).resolutions_recorded()
        &&& forall|i: int|
            0 <= i < self.queued.len() ==> (#[trigger] self.queued[i] matches MsgView::TaskFinished(
                module,
            ) ==> module.resolutions_recorded())
    }

    /// What holds of a build at every moment.
    pub open spec fn inv(self) -> bool {
        &&& self.ctx.visited.finite()
        &&& self.distinct()
        &&& self.claimed()
        &&& self.counted()
        &&& self.covered()
        &&& self.recorded()
    }

    /// Whether a task for `uri` is under way: the identifier is visited, and
    /// its module is neither consumed nor failed nor waiting to be consumed.
    pub open spec fn is_running(self, uri: Seq<char>) -> bool {
        &&& self.ctx.visited.contains(uri)
        &&& !uris_of(self.nodes).contains(uri)
        &&& !self.failed.contains(uri)
        &&& !queued_uris(self.queued).contains(uri)
    }

    /// Quiescence: no task is in flight.
    pub open spec fn is_quiescent(self) -> bool {
        self.ctx.active == 0
    }

    /// What a change of the module `changed` makes stale: nothing, where the
    /// build has never visited `changed`; otherwise every visited
    /// identifier that reaches `changed` along references of any kind,
    /// `changed` itself among them.
    pub open spec fn stale(self, changed: Seq<char>) -> Set<Seq<char>> {
        Set::new(
            |uri: Seq<char>|
                self.ctx.visited.contains(changed) && self.ctx.visited.contains(uri) && reaches(
                    by_uri(self.nodes),
                    uri,
                    changed,
                ),
        )
    }

    /// The build without what a change of `changed` makes stale: the stale
    /// modules are gone from the graph and from the failed modules, their
    /// failures are forgotten, and their identifiers count as not visited.
    /// The result channel is open again.
    pub open spec fn invalidate(self, changed: Seq<char>) -> BundleView {
        let stale = self.stale(changed);
        BundleView {
            ctx: ContextView {
                visited: self.ctx.visited.difference(stale),
                active: self.ctx.active,
            },
            closed: false,
            nodes: keep_nodes(self.nodes, stale),
            failed: keep_texts(self.failed, stale),
            errors: keep_by(self.errors, |e: ErrorView| e.uri, stale),
            ..self
        }
    }

    /// What a rebuild after a change of `changed` is seeded with: the
    /// changed module, then the stale entries in their order.
    pub open spec fn reseeds(self, changed: Seq<char>) -> Seq<ResolvedView> {
        seq![
            ResolvedView {
                uri: changed,
                kind: ImportKind::StaticImport,
                external: false,
                ignored: false,
            },
        ] + stale_entries(self.entries, self.stale(changed))
    }

    /// The finished modules that the build knows: those consumed, then
    /// those waiting to be consumed.
    pub open spec fn known(self) -> Seq<ModuleView> {
        self.nodes + finished_modules(self.queued)
    }

    /// Every visited identifier can be reached from an entry along the
    /// references of the finished modules. This holds of a build as long as
    /// it has not been prepared for building again.
    pub open spec fn rooted(self) -> bool {
        forall|uri: Seq<char>|
            self.ctx.visited.contains(uri) ==> #[trigger] reachable(
                by_uri(self.known()),
                self.entries,
                uri,
            )
    }

    /// The build after its oldest waiting result has been consumed.
    pub open spec fn consume_next(self) -> BundleView {
        match self.queued.first() {
            MsgView::TaskFinished(module) => BundleView {
                ctx: self.ctx.consume(),
                nodes: self.nodes.push(module),
                queued: self.queued.drop_first(),
                ..self
            },
            MsgView::TaskFailed(error) => BundleView {
                ctx: self.ctx.consume(),
                queued: self.queued.drop_first(),
                failed: self.failed.push(error.uri),
                errors: self.errors.push(error),
                ..self
            },
        }
    }

    /// The build after all waiting results have been consumed, oldest
    /// first.
    pub open spec fn drain(self) -> BundleView
        decreases self.queued.len(),
    {
        if self.queued.len() == 0 {
            self
        } else {
            self.consume_next().drain()
        }
    }
}

impl View for Bundle {
    type V = BundleView;

    closed spec fn view(&self) -> BundleView {
        BundleView {
            ctx: self.context@,
            nodes: self.module_graph.nodes(),
            entries: self.entries@.map_values(|e: ResolvedId| e@),
            queued: self.channel@.map_values(|m: Msg| m@),
            closed: self.closed,
            failed: texts(self.failed@),
            errors: error_views(self.errors@),
        }
    }
}

impl Bundle {
    /// The invariant of a build holds.
    pub open spec fn wf(&self) -> bool {
        self@.inv()
    }

    /// A build that has not been seeded: nothing visited, nothing in flight,
    /// an empty graph.
    pub fn new() -> (bundle: Self)
        ensures
            bundle.wf(),
            bundle@.rooted(),
            bundle@ == (BundleView {
                ctx: ContextView { visited: Set::empty(), active: 0 },
                nodes: Seq::empty(),
                entries: Seq::empty(),
                queued: Seq::empty(),
                closed: false,
                failed: Seq::empty(),
                errors: Seq::empty(),
            }),
    {
        let bundle = Bundle {
            context: BundleContext::new(),
            module_graph: ModuleGraph::new(),
            entries: Vec::new(),
            channel: Vec::new(),
            closed: false,
            failed: Vec::new(),
            errors: Vec::new(),
        };
        assert(bundle@.entries =~= Seq::empty());
        assert(bundle@.queued =~= Seq::empty());
        assert(bundle@.failed =~= Seq::empty());
        assert(bundle@.errors =~= Seq::empty());
        assert(uris_of(bundle@.nodes) =~= Seq::empty());
        assert(queued_uris(bundle@.queued) =~= Seq::empty());
        bundle
    }

    /// The graph of the modules consumed so far.
    pub fn module_graph(&self) -> (graph: &ModuleGraph)
        ensures
            graph.nodes() == self@.nodes,
            self.wf() ==> graph.wf(),
    {
        &self.module_graph
    }

    /// The shared state of the tasks.
    pub fn context(&self) -> (ctx: &BundleContext)
        ensures
            ctx@ == self@.ctx,
            self.wf() ==> ctx.wf(),
    {
        proof {
            if self.wf() {
                lemma_waiting_in_flight(self@);
            }
        }
        &self.context
    }

    /// The failures recorded so far.
    pub fn errors(&self) -> (errors: &Vec<BuildError>)
        ensures
            error_views(errors@) == self@.errors,
    {
        &self.errors
    }

    /// The resolved locations that the build was seeded with.
    pub fn entries(&self) -> (entries: &Vec<ResolvedId>)
        ensures
            entries@.map_values(|e: ResolvedId| e@) == self@.entries,
    {
        &self.entries
    }

    /// The identifiers of the modules whose task failed.
    pub fn failed(&self) -> (failed: &Vec<String>)
        ensures
            texts(failed@) == self@.failed,
    {
        &self.failed
    }

    /// The number of results sent and not yet consumed.
    pub fn waiting(&self) -> (count: usize)
        ensures
            count == self@.queued.len(),
    {
        self.channel.len()
    }

    /// Closes the result channel: the host cancels the build. Results sent
    /// before stay and can be consumed; no more are taken.
    pub fn close(&mut self)
        ensures
            final(self)@ == (BundleView { closed: true, ..old(self)@ }),
    {
        self.closed = true;
    }

    /// Whether the host has closed the result channel.
    pub fn is_closed(&self) -> (closed: bool)
        ensures
            closed == self@.closed,
    {
        self.closed
    }

    /// Whether the build is quiescent: no task is in flight. Then no result
    /// waits to be consumed either.
    pub fn is_quiescent(&self) -> (quiescent: bool)
        requires
            self.wf(),
        ensures
            quiescent == self@.is_quiescent(),
            quiescent ==> self@.queued.len() == 0,
    {
        proof {
            lemma_waiting_in_flight(self@);
        }
        self.context.is_idle()
    }

    /// Seeds the build: each entry is put to the spawn policy in order, and
    /// the tasks spawned are handed back. Entries add up over several calls.
    pub fn seed(&mut self, entries: Vec<ResolvedId>) -> (spawned: Vec<Task>)
        requires
            old(self).wf(),
        ensures
            final(self).wf(),
            old(self)@.rooted() ==> final(self)@.rooted(),
            (SpawnView { ctx: final(self)@.ctx, spawned: task_views(spawned@) }) == (SpawnView {
                ctx: old(self)@.ctx,
                spawned: Seq::empty(),
            }).spawn_all(entries@.map_values(|e: ResolvedId| e@)),
            final(self)@ == (BundleView {
                ctx: final(self)@.ctx,
                entries: old(self)@.entries + entries@.map_values(|e: ResolvedId| e@),
                ..old(self)@
            }),
    {
        let ghost start = SpawnView { ctx: self@.ctx, spawned: Seq::empty() };
        let ghost all = entries@.map_values(|e: ResolvedId| e@);
        let mut spawned: Vec<Task> = Vec::new();
        let mut entries = entries;
        let mut i: usize = 0;
        proof {
            lemma_waiting_in_flight(self@);
            assert(all.take(0) =~= Seq::empty());
            assert(task_views(spawned@) =~= Seq::empty());
            assert(self@.entries =~= old(self)@.entries + all.take(0));
        }
        while i < entries.len()
            invariant
                i <= entries.len(),
                entries@.map_values(|e: ResolvedId| e@) == all,
                self.context.wf(),
                start.ctx.visited.finite(),
                (SpawnView { ctx: self@.ctx, spawned: task_views(spawned@) }) == start.spawn_all(
                    all.take(i as int),
                ),
                self@ == (BundleView {
                    ctx: self@.ctx,
                    entries: old(self)@.entries + all.take(i as int),
                    ..old(self)@
                }),
            decreases entries.len() - i,
        {
            proof {
                let upto = all.take(i + 1);
                assert(upto.drop_last() =~= all.take(i as int));
                assert(upto.last() == entries[i as int]@);
            }
            let entry = entries[i].clone();
            let ghost before = spawned@;
            let ghost known = self.entries@;
            if let Some(task) = Task::spawn(&mut self.context, entries[i].clone()) {
                spawned.push(task);
                assert(task_views(spawned@) =~= task_views(before).push(task@));
            }
            self.entries.push(entry);
            proof {
                assert(self.entries@.map_values(|e: ResolvedId| e@) =~= known.map_values(
                    |e: ResolvedId| e@,
                ).push(entry@));
                assert(old(self)@.entries + all.take(i + 1) =~= (old(self)@.entries + all.take(
                    i as int,
                )).push(entry@));
            }
            i += 1;
        }
        proof {
            assert(all.take(i as int) =~= all);
            lemma_spawn_all(start, all);
            let before = old(self)@;
            let after = self@;
            if before.rooted() {
                lemma_rooted_seeded(before, after, all);
            }
            assert(after.inv()) by {
                assert forall|k: int|
                    0 <= k < after.entries.len() && (
                    #[trigger] after.entries[k]).is_internal() implies after.ctx.visited.contains(
                    after.entries[k].uri,
                ) by {
                    if k < before.entries.len() {
                        assert(after.entries[k] == before.entries[k]);
                    } else {
                        assert(after.entries[k] == all[k - before.entries.len()]);
                    }
                }
                assert forall|k: int| 0 <= k < after.nodes.len() implies targets_visited(
                    #[trigger] after.nodes[k],
                    after.ctx.visited,
                ) by {
                    assert(targets_visited(before.nodes[k], before.ctx.visited));
                }
                assert forall|k: int|
                    0 <= k < after.queued.len() implies (
                #[trigger] after.queued[k] matches MsgView::TaskFinished(module)
                    ==> targets_visited(module, after.ctx.visited)) by {
                    if let MsgView::TaskFinished(module) = before.queued[k] {
                        assert(targets_visited(module, before.ctx.visited));
                    }
                }
            }
        }
        spawned
    }

    fn is_waiting(&self, uri: &String) -> (waiting: bool)
        ensures
            waiting == queued_uris(self@.queued).contains(uri@),
    {
        let ghost all = queued_uris(self@.queued);
        let mut i: usize = 0;
        while i < self.channel.len()
            invariant
                i <= self.channel.len(),
                all == queued_uris(self@.queued),
                forall|j: int| 0 <= j < i ==> all[j] != uri@,
            decreases self.channel.len() - i,
        {
            if *self.channel[i].uri() == *uri {
                assert(all[i as int] == uri@);
                return true;
            }
            i += 1;
        }
        false
    }

    /// Whether a task for `uri` is under way: the identifier is visited, and
    /// its module is neither consumed nor failed nor waiting to be consumed.
    pub fn is_running(&self, uri: &String) -> (running: bool)
        requires
            self.wf(),
        ensures
            running == self@.is_running(uri@),
    {
        self.context.is_visited(uri) && self.module_graph.position(uri.as_str()).is_none()
            && !contains_text(&self.failed, uri) && !self.is_waiting(uri)
    }

    /// Runs `task` on the syntax tree of its module and sends the finished
    /// module to the coordinator, where it waits to be consumed. Hands back
    /// the tasks spawned for the modules that this one refers to.
    ///
    /// Once the host has closed the result channel, nothing is taken any
    /// more: the call fails with a host failure. For an external or ignored
    /// location there is nothing to do. Otherwise a task must be under way
    /// for the module; where none is, the build is left as it was and the
    /// call fails with an invariant violation. Specifiers that `resolver`
    /// does not know are recorded as resolve failures of the module.
    pub fn run_task(&mut self, task: &Task, resolver: DependencyIdResolver, ast: Ast) -> (outcome:
        Result<Vec<Task>, BuildError>)
        requires
            old(self).wf(),
        ensures
            final(self).wf(),
            old(self)@.rooted() ==> final(self)@.rooted(),
            outcome.is_ok() == (!old(self)@.closed && (!task@.is_internal() || old(
                self,
            )@.is_running(task@.uri))),
            outcome matches Err(error) ==> final(self)@ == old(self)@ && error@.uri == task@.uri
                && error@.kind == if old(self)@.closed {
                ErrorKind::HostFailure
            } else {
                ErrorKind::InvariantViolation
            },
            outcome matches Ok(spawned) ==> !task@.is_internal() ==> final(self)@ == old(self)@
                && spawned@.len() == 0,
            outcome matches Ok(spawned) ==> task@.is_internal() ==> (SpawnView {
                ctx: final(self)@.ctx,
                spawned: task_views(spawned@),
            }) == task_spawns(
                SpawnView { ctx: old(self)@.ctx, spawned: Seq::empty() },
                ast@,
                resolver@.resolved_ids,
            ),
            outcome matches Ok(spawned) ==> task@.is_internal() ==> final(self)@ == (BundleView {
                ctx: final(self)@.ctx,
                queued: old(self)@.queued.push(
                    MsgView::TaskFinished(
                        finished_module(task@.uri, ast@, resolver@.resolved_ids),
                    ),
                ),
                errors: old(self)@.errors + resolve_failures(
                    task@.uri,
                    finished_module(task@.uri, ast@, resolver@.resolved_ids).dependencies,
                ),
                ..old(self)@
            }),
    {
        if self.closed {
            return Err(BuildError::host_failure(task.resolved_id.uri.clone()));
        }
        if !task.resolved_id.is_internal() {
            return Ok(Vec::new());
        }
        if !self.is_running(&task.resolved_id.uri) {
            return Err(BuildError::invariant_violation(task.resolved_id.uri.clone()));
        }
        proof {
            lemma_waiting_in_flight(self@);
            lemma_finished_module_resolutions(task@.uri, ast@, resolver@.resolved_ids);
            lemma_task_spawns(
                SpawnView { ctx: self@.ctx, spawned: Seq::empty() },
                task@.uri,
                ast@,
                resolver@.resolved_ids,
            );
        }
        let ghost finished = finished_module(task@.uri, ast@, resolver@.resolved_ids);
        let output = task.run(&mut self.context, resolver, ast);
        let crate::task::TaskOutput { module, spawned, errors } = output;
        let mut errors = errors;
        let ghost recorded = self.errors@;
        let ghost failures = errors@;
        self.errors.append(&mut errors);
        match module {
            Some(module) => {
                let ghost sent = self.channel@;
                self.channel.push(Msg::TaskFinished(module));
                proof {
                    let before = old(self)@;
                    let after = self@;
                    assert(error_views(self.errors@) =~= error_views(recorded) + error_views(
                        failures,
                    ));
                    assert(after.queued =~= before.queued.push(MsgView::TaskFinished(finished)));
                    lemma_sent(before, after, MsgView::TaskFinished(finished));
                    if before.rooted() {
                        assert forall|uri: Seq<char>| #[trigger]
                            after.ctx.visited.contains(uri) implies before.ctx.visited.contains(uri)
                            || finished.refers_to(uri) by {
                            lemma_task_spawns_origin(
                                SpawnView { ctx: before.ctx, spawned: Seq::empty() },
                                task@.uri,
                                ast@,
                                resolver@.resolved_ids,
                                uri,
                            );
                        }
                        lemma_rooted_finished(before, after, finished);
                    }
                }
            },
            None => {
                assert(false);
            },
        }
        Ok(spawned)
    }

    /// Reports that the module of `task` could not be loaded, parsed or
    /// transformed. The failure waits to be consumed like a finished module.
    ///
    /// Once the host has closed the result channel, the call fails with a
    /// host failure. Otherwise a task must be under way for the module, whose
    /// location is neither external nor ignored; where none is, the build is
    /// left as it was and the call fails with an invariant violation.
    pub fn fail_task(&mut self, task: &Task, kind: ErrorKind, detail: String) -> (outcome: Result<
        (),
        BuildError,
    >)
        requires
            old(self).wf(),
        ensures
            final(self).wf(),
            old(self)@.rooted() ==> final(self)@.rooted(),
            outcome.is_ok() == (!old(self)@.closed && task@.is_internal() && old(
                self,
            )@.is_running(task@.uri)),
            outcome matches Err(error) ==> final(self)@ == old(self)@ && error@.uri == task@.uri
                && error@.kind == if old(self)@.closed {
                ErrorKind::HostFailure
            } else {
                ErrorKind::InvariantViolation
            },
            outcome.is_ok() ==> final(self)@ == (BundleView {
                queued: old(self)@.queued.push(
                    MsgView::TaskFailed(ErrorView { kind, uri: task@.uri, detail: detail@ }),
                ),
                ..old(self)@
            }),
    {
        if self.closed {
            return Err(BuildError::host_failure(task.resolved_id.uri.clone()));
        }
        if !task.resolved_id.is_internal() || !self.is_running(&task.resolved_id.uri) {
            return Err(BuildError::invariant_violation(task.resolved_id.uri.clone()));
        }
        let error = BuildError::new(kind, task.resolved_id.uri.clone(), detail);
        self.channel.push(Msg::TaskFailed(error));
        proof {
            let before = old(self)@;
            let after = self@;
            let msg = MsgView::TaskFailed(ErrorView { kind, uri: task@.uri, detail: detail@ });
            assert(after.queued =~= before.queued.push(msg));
            lemma_sent(before, after, msg);
            if before.rooted() {
                assert(after.queued.drop_last() =~= before.queued);
                assert(after.known() =~= before.known());
                assert forall|uri: Seq<char>| after.ctx.visited.contains(uri) implies #[trigger] reachable(
                    by_uri(after.known()),
                    after.entries,
                    uri,
                ) by {
                    assert(reachable(by_uri(before.known()), before.entries, uri));
                }
            }
        }
        Ok(())
    }

    /// Consumes the oldest waiting result, if there is one: a finished
    /// module goes into the graph, a failure into the list of failures, and
    /// either way one task less is in flight.
    pub fn consume_next(&mut self) -> (consumed: bool)
        requires
            old(self).wf(),
        ensures
            final(self).wf(),
            old(self)@.rooted() ==> final(self)@.rooted(),
            consumed == (old(self)@.queued.len() > 0),
            final(self)@ == if consumed {
                old(self)@.consume_next()
            } else {
                old(self)@
            },
    {
        if self.channel.len() == 0 {
            return false;
        }
        proof {
            lemma_waiting_in_flight(self@);
            lemma_consumed(self@);
            if self@.rooted() {
                lemma_rooted_consumed(self@);
            }
        }
        let ghost sent = self.channel@;
        let msg = self.channel.remove(0);
        assert(self.channel@.map_values(|m: Msg| m@) =~= sent.map_values(
            |m: Msg| m@,
        ).drop_first());
        assert(msg@ == old(self)@.queued.first());
        match msg {
            Msg::TaskFinished(module) => {
                assert(uris_of(old(self)@.nodes).contains(module@.uri) ==> false) by {
                    assert(queued_uris(old(self)@.queued)[0] == module@.uri);
                }
                proof {
                    lemma_by_uri_push(old(self)@.nodes, module@);
                }
                match self.module_graph.insert(module) {
                    Ok(()) => {},
                    Err(_) => {
                        assert(false);
                    },
                }
            },
            Msg::TaskFailed(error) => {
                let ghost known = self.failed@;
                let ghost recorded = self.errors@;
                self.failed.push(error.uri.clone());
                assert(texts(self.failed@) =~= texts(known).push(error@.uri));
                self.errors.push(error);
                assert(error_views(self.errors@) =~= error_views(recorded).push(error@));
            },
        }
        let counted = self.context.consume();
        assert(counted);
        true
    }

    /// Consumes all waiting results, oldest first, and says how many there
    /// were.
    pub fn drain(&mut self) -> (count: usize)
        requires
            old(self).wf(),
        ensures
            final(self).wf(),
            old(self)@.rooted() ==> final(self)@.rooted(),
            count == old(self)@.queued.len(),
            final(self)@ == old(self)@.drain(),
            final(self)@.queued.len() == 0,
    {
        let mut count: usize = 0;
        let total = self.channel.len();
        assert(total == self@.queued.len());
        while self.channel.len() > 0
            invariant
                self.wf(),
                old(self)@.rooted() ==> self@.rooted(),
                self.channel@.len() == self@.queued.len(),
                total == old(self)@.queued.len(),
                count + self@.queued.len() == old(self)@.queued.len(),
                self@.drain() == old(self)@.drain(),
            decreases self@.queued.len(),
        {
            let ghost before = self@;
            self.consume_next();
            assert(self@.queued.len() == before.queued.len() - 1);
            count = count + 1;
        }
        count
    }

    /// Assigns every module in the graph its place in the execution order
    /// and marks the entries; see [`ModuleGraph::finalize`]. Meant for a
    /// quiescent build: modules that arrive later are not ordered.
    pub fn finalize(&mut self)
        requires
            old(self).wf(),
        ensures
            final(self).wf(),
            old(self)@.rooted() ==> final(self)@.rooted(),
            final(self)@ == (BundleView {
                nodes: finalized(old(self)@.nodes, old(self)@.entries),
                ..old(self)@
            }),
    {
        self.module_graph.finalize(&self.entries);
        proof {
            let before = old(self)@;
            let after = self@;
            lemma_finalized_keeps(before.nodes, before.entries);
            if before.rooted() {
                lemma_rooted_finalized(before, after);
            }
            assert forall|i: int| 0 <= i < after.nodes.len() implies targets_visited(
                #[trigger] after.nodes[i],
                after.ctx.visited,
            ) && after.nodes[i].resolutions_recorded() by {
                assert(targets_visited(before.nodes[i], before.ctx.visited));
                assert(before.nodes[i].resolutions_recorded());
                assert(after.nodes[i].dependencies == before.nodes[i].dependencies);
                assert(after.nodes[i].resolved_ids == before.nodes[i].resolved_ids);
            }
        }
    }

    /// Prepares the build for building again after the module `changed_uri`
    /// has changed.
    ///
    /// Only a quiescent build that has visited `changed_uri` is changed;
    /// any other is left as it was, and nothing is invalidated or spawned.
    /// Otherwise the changed module and every module that refers to it,
    /// directly or through others, are taken out of the graph and out of
    /// the failed modules, their failures are forgotten and their
    /// identifiers count as not visited. Then tasks are spawned for the
    /// changed module and for the stale entries, in this order.
    pub fn rebuild(&mut self, changed_uri: &String) -> (rebuild: Rebuild)
        requires
            old(self).wf(),
        ensures
            final(self).wf(),
            !(old(self)@.is_quiescent() && old(self)@.ctx.visited.contains(changed_uri@))
                ==> final(self)@ == old(self)@ && rebuild.invalidated@.len() == 0
                && rebuild.tasks@.len() == 0,
            old(self)@.is_quiescent() && old(self)@.ctx.visited.contains(changed_uri@) ==> texts(
                rebuild.invalidated@,
            ) == drop_texts(
                uris_of(old(self)@.nodes) + old(self)@.failed,
                old(self)@.stale(changed_uri@),
            ),
            old(self)@.is_quiescent() && old(self)@.ctx.visited.contains(changed_uri@)
                ==> (SpawnView { ctx: final(self)@.ctx, spawned: task_views(rebuild.tasks@) })
                == (SpawnView {
                ctx: old(self)@.invalidate(changed_uri@).ctx,
                spawned: Seq::empty(),
            }).spawn_all(old(self)@.reseeds(changed_uri@)),
            old(self)@.is_quiescent() && old(self)@.ctx.visited.contains(changed_uri@)
                ==> final(self)@ == (BundleView {
                ctx: final(self)@.ctx,
                ..old(self)@.invalidate(changed_uri@)
            }),
    {
        if !self.context.is_idle() || !self.context.is_visited(changed_uri) {
            return Rebuild { invalidated: Vec::new(), tasks: Vec::new() };
        }
        let ghost before = self@;
        let ghost changed = changed_uri@;
        let ghost stale = before.stale(changed);
        let ghost done = uris_of(before.nodes);
        proof {
            lemma_quiescent_accounts(before);
            lemma_reaches_itself(by_uri(before.nodes), changed);
            assert(stale.contains(changed));
        }
        self.closed = false;
        let marks = self.module_graph.stale_marks(changed_uri.as_str());
        let ghost marked = marked_uris(before.nodes, marks@);
        proof {
            assert forall|i: int| 0 <= i < before.nodes.len() implies (marked.contains(
                (|m: ModuleView| m.uri)(#[trigger] before.nodes[i]),
            ) <==> stale.contains((|m: ModuleView| m.uri)(before.nodes[i]))) by {
                lemma_marked(before, changed, marks@, i);
            }
            lemma_keep_by_agree(before.nodes, |m: ModuleView| m.uri, marked, stale);
            assert forall|i: int| 0 <= i < done.len() implies (marked.contains(
                #[trigger] done[i],
            ) <==> stale.contains(done[i])) by {
                lemma_marked(before, changed, marks@, i);
            }
            lemma_drop_texts_agree(done, marked, stale);
        }
        let mut invalidated = self.module_graph.remove_marked(&marks);
        let mut only: Vec<String> = Vec::new();
        only.push(changed_uri.clone());
        let mut failed_again = select_texts(&self.failed, &only);
        let failed = retain_texts(&self.failed, &only);
        proof {
            assert(texts(only@) =~= seq![changed]);
            let one = texts(only@).to_set();
            assert(one.contains(changed)) by {
                assert(texts(only@)[0] == changed);
            }
            assert forall|i: int| 0 <= i < before.failed.len() implies (one.contains(
                #[trigger] before.failed[i],
            ) <==> stale.contains(before.failed[i])) by {
                let uri = before.failed[i];
                assert(before.failed.contains(uri));
                assert(!done.contains(uri));
                if stale.contains(uri) {
                    lemma_outside_reaches_itself_only(before.nodes, uri, changed);
                }
                if one.contains(uri) {
                    let k = choose|k: int| 0 <= k < texts(only@).len() && texts(only@)[k] == uri;
                }
            }
            lemma_keep_by_agree(before.failed, |text: Seq<char>| text, one, stale);
            lemma_drop_texts_agree(before.failed, one, stale);
            lemma_keep_texts_concat(done, before.failed, stale);
        }
        let ghost from_graph = invalidated@;
        let ghost from_failed = failed_again@;
        invalidated.append(&mut failed_again);
        self.failed = failed;
        proof {
            assert(texts(invalidated@) =~= texts(from_graph) + texts(from_failed));
            lemma_invalidated_is_stale(before, changed, texts(invalidated@));
        }
        let errors = retain_errors(&self.errors, &invalidated);
        self.errors = errors;
        let mut i: usize = 0;
        proof {
            assert(texts(invalidated@).take(0) =~= Seq::empty());
            assert(before.ctx.visited.difference(Seq::<Seq<char>>::empty().to_set())
                =~= before.ctx.visited);
        }
        while i < invalidated.len()
            invariant
                i <= invalidated.len(),
                self.context.wf(),
                self.context@.active == 0,
                self.context@.visited == before.ctx.visited.difference(
                    texts(invalidated@).take(i as int).to_set(),
                ),
                self@ == (BundleView { ctx: self@.ctx, ..before.invalidate(changed) }),
            decreases invalidated.len() - i,
        {
            let ghost gone = texts(invalidated@).take(i as int).to_set();
            self.context.forget(&invalidated[i]);
            proof {
                let more = texts(invalidated@).take(i + 1);
                assert(more.to_set() =~= gone.insert(invalidated[i as int]@)) by {
                    assert(more.drop_last() =~= texts(invalidated@).take(i as int));
                    assert(more.last() == invalidated[i as int]@);
                    assert forall|uri: Seq<char>| more.to_set().contains(uri) <==> gone.insert(
                        invalidated[i as int]@,
                    ).contains(uri) by {
                        if more.contains(uri) {
                            let k = choose|k: int| 0 <= k < more.len() && more[k] == uri;
                            if k < i {
                                assert(more.drop_last()[k] == uri);
                            }
                        }
                        if gone.contains(uri) {
                            let k = choose|k: int|
                                0 <= k < more.drop_last().len() && more.drop_last()[k] == uri;
                            assert(more[k] == uri);
                        }
                        if uri == invalidated[i as int]@ {
                            assert(more[i as int] == uri);
                        }
                    }
                }
                assert(self.context@.visited =~= before.ctx.visited.difference(more.to_set()));
            }
            i += 1;
        }
        proof {
            assert(texts(invalidated@).take(i as int) =~= texts(invalidated@));
            assert(self@.ctx == before.invalidate(changed).ctx);
        }
        let changed_id = ResolvedId::new(
            changed_uri.clone(),
            false,
            ImportKind::StaticImport,
            false,
        );
        let ghost start = SpawnView { ctx: self@.ctx, spawned: Seq::empty() };
        let ghost first = changed_id@;
        let mut tasks: Vec<Task> = Vec::new();
        if let Some(task) = Task::spawn(&mut self.context, changed_id) {
            tasks.push(task);
            assert(task_views(tasks@) =~= Seq::<ResolvedView>::empty().push(task@));
        } else {
            assert(task_views(tasks@) =~= Seq::<ResolvedView>::empty());
        }
        let ghost all = before.entries;
        proof {
            let one = seq![first];
            assert(one.drop_last() =~= Seq::empty());
            assert(one.last() == first);
            assert(start.spawn_all(one.drop_last()) == start);
            assert(start.spawn_all(one) == start.spawn(first));
            assert((SpawnView { ctx: self@.ctx, spawned: task_views(tasks@) }) == start.spawn_all(
                seq![first],
            ));
            assert(all.take(0) =~= Seq::empty());
            assert(seq![first] + stale_entries(all.take(0), stale) =~= seq![first]);
        }
        let mut n: usize = 0;
        while n < self.entries.len()
            invariant
                n <= self.entries.len(),
                self.context.wf(),
                all == before.entries,
                self.entries@.map_values(|e: ResolvedId| e@) == all,
                stale == texts(invalidated@).to_set(),
                start.ctx.visited.finite(),
                (SpawnView { ctx: self@.ctx, spawned: task_views(tasks@) }) == start.spawn_all(
                    seq![first] + stale_entries(all.take(n as int), stale),
                ),
                self@ == (BundleView { ctx: self@.ctx, ..before.invalidate(changed) }),
            decreases self.entries.len() - n,
        {
            proof {
                let upto = all.take(n + 1);
                assert(upto.drop_last() =~= all.take(n as int));
                assert(upto.last() == self.entries[n as int]@);
            }
            if self.entries[n].is_internal() && contains_text(&invalidated, &self.entries[n].uri) {
                let ghost listed = tasks@;
                let ghost seeds = seq![first] + stale_entries(all.take(n as int), stale);
                let entry = self.entries[n].clone();
                if let Some(task) = Task::spawn(&mut self.context, entry) {
                    tasks.push(task);
                    assert(task_views(tasks@) =~= task_views(listed).push(task@));
                }
                proof {
                    let more = seq![first] + stale_entries(all.take(n + 1), stale);
                    assert(more.drop_last() =~= seeds);
                    assert(more.last() == all[n as int]);
                }
            }
            n += 1;
        }
        proof {
            assert(all.take(n as int) =~= all);
            let seeds = before.reseeds(changed);
            lemma_spawn_all(start, seeds);
            assert forall|k: int|
                0 <= k < before.entries.len() && (#[trigger] before.entries[k]).is_internal()
                    && stale.contains(before.entries[k].uri) implies self@.ctx.visited.contains(
                before.entries[k].uri,
            ) by {
                lemma_stale_entries(before.entries, stale, k);
                let found = stale_entries(before.entries, stale);
                let j = choose|j: int| 0 <= j < found.len() && found[j] == before.entries[k];
                assert(seeds[j + 1] == before.entries[k]);
            }
            lemma_rebuilt(before, changed, self@);
        }
        Rebuild { invalidated, tasks }
    }
}

} // verus!
