//! The invariant of a build, and why every step of a build keeps it.

use crate::bundle::{
    finished_modules, queued_uris, stale_entries, targets_visited, BundleView, MsgView,
};
use crate::finalize::{finalized, lemma_finalized_keeps};
use crate::invalidation::{lemma_reference_then_path, marked_uris};
use crate::module::ModuleView;
use crate::module_graph::{by_uri, lemma_by_uri, lemma_by_uri_push, uris_of};
use crate::reachability::{
    extends_graph, is_path, is_root, lemma_reachable_grows, lemma_reachable_step,
    lemma_root_reachable, reachable, reaches, refers_to,
};
use crate::task::{lemma_spawn_all_origin, SpawnView};
use crate::text::{
    drop_texts, keep_texts, lemma_drop_first_distinct, lemma_keep_by_contains, lemma_keep_by_keys,
    lemma_keep_texts, lemma_keep_texts_concat, lemma_push_unique, push_unique,
};
use crate::ResolvedView;
use vstd::prelude::*;

verus! {

/// The identifiers in `all` are distinct members of the finite set
/// `universe`, so there are at most as many of them as the set has members.
pub proof fn lemma_distinct_members(all: Seq<Seq<char>>, universe: Set<Seq<char>>)
    requires
        universe.finite(),
        all.no_duplicates(),
        forall|i: int| 0 <= i < all.len() ==> universe.contains(#[trigger] all[i]),
    ensures
        all.len() <= universe.len(),
{
    all.unique_seq_to_set();
    assert(all.to_set().subset_of(universe)) by {
        assert forall|uri: Seq<char>| all.to_set().contains(uri) implies universe.contains(
            uri,
        ) by {
            let i = choose|i: int| 0 <= i < all.len() && all[i] == uri;
            assert(universe.contains(all[i]));
        }
    }
    vstd::set_lib::lemma_len_subset(all.to_set(), universe);
}

/// The modules consumed, failed and waiting, taken together, are distinct
/// visited identifiers.
pub proof fn lemma_claimed(state: BundleView)
    requires
        state.inv(),
    ensures
        (uris_of(state.nodes) + state.failed + queued_uris(state.queued)).no_duplicates(),
        forall|i: int|
            0 <= i < (uris_of(state.nodes) + state.failed + queued_uris(state.queued)).len()
                ==> state.ctx.visited.contains(
                #[trigger] (uris_of(state.nodes) + state.failed + queued_uris(state.queued))[i],
            ),
{
    let done = uris_of(state.nodes);
    let waiting = queued_uris(state.queued);
    let all = done + state.failed + waiting;
    assert forall|i: int, j: int| 0 <= i < all.len() && 0 <= j < all.len() && i != j implies all[i]
        != all[j] by {
        lemma_claimed_member(state, i);
        lemma_claimed_member(state, j);
    }
    assert forall|i: int| 0 <= i < all.len() implies state.ctx.visited.contains(
        #[trigger] all[i],
    ) by {
        lemma_claimed_member(state, i);
    }
}

proof fn lemma_claimed_member(state: BundleView, i: int)
    requires
        state.inv(),
        0 <= i < (uris_of(state.nodes) + state.failed + queued_uris(state.queued)).len(),
    ensures
        ({
            let done = uris_of(state.nodes);
            let waiting = queued_uris(state.queued);
            let all = done + state.failed + waiting;
            &&& state.ctx.visited.contains(all[i])
            &&& i < done.len() ==> all[i] == done[i] && done.contains(all[i])
            &&& done.len() <= i < done.len() + state.failed.len() ==> all[i] == state.failed[i
                - done.len()] && state.failed.contains(all[i])
            &&& done.len() + state.failed.len() <= i ==> all[i] == waiting[i - done.len()
                - state.failed.len()] && waiting.contains(all[i])
        }),
{
    let done = uris_of(state.nodes);
    let waiting = queued_uris(state.queued);
    let all = done + state.failed + waiting;
    if i < done.len() {
        assert(all[i] == done[i]);
        assert(done.contains(done[i]));
    } else if i < done.len() + state.failed.len() {
        let k = i - done.len();
        assert(all[i] == state.failed[k]);
        assert(state.failed.contains(state.failed[k]));
    } else {
        let k = i - done.len() - state.failed.len();
        assert(all[i] == waiting[k]);
        assert(waiting.contains(waiting[k]));
    }
}

/// No more results wait to be consumed than tasks are in flight. So a
/// quiescent build has nothing waiting.
pub proof fn lemma_waiting_in_flight(state: BundleView)
    requires
        state.inv(),
    ensures
        state.queued.len() <= state.ctx.active,
{
    lemma_claimed(state);
    lemma_distinct_members(
        uris_of(state.nodes) + state.failed + queued_uris(state.queued),
        state.ctx.visited,
    );
}

/// While a task is under way, more tasks are in flight than results wait to
/// be consumed.
pub proof fn lemma_running_in_flight(state: BundleView, uri: Seq<char>)
    requires
        state.inv(),
        state.is_running(uri),
    ensures
        state.queued.len() < state.ctx.active,
{
    lemma_claimed(state);
    let all = uris_of(state.nodes) + state.failed + queued_uris(state.queued);
    let more = all.push(uri);
    assert forall|i: int, j: int| 0 <= i < more.len() && 0 <= j < more.len() && i
        != j implies more[i] != more[j] by {
        if i < all.len() {
            lemma_claimed_member(state, i);
        }
        if j < all.len() {
            lemma_claimed_member(state, j);
        }
    }
    assert forall|i: int| 0 <= i < more.len() implies state.ctx.visited.contains(
        #[trigger] more[i],
    ) by {
        if i < all.len() {
            assert(more[i] == all[i]);
        }
    }
    lemma_distinct_members(more, state.ctx.visited);
}

/// Sending a result for a module whose task is under way keeps the
/// invariant, provided that whatever a finished module refers to is visited.
pub proof fn lemma_sent(before: BundleView, after: BundleView, msg: MsgView)
    requires
        before.inv(),
        before.is_running(msg.uri()),
        after.ctx.visited.finite(),
        before.ctx.visited.subset_of(after.ctx.visited),
        after.ctx.active - before.ctx.active == after.ctx.visited.len()
            - before.ctx.visited.len(),
        after.nodes == before.nodes,
        after.entries == before.entries,
        after.failed == before.failed,
        after.queued == before.queued.push(msg),
        msg matches MsgView::TaskFinished(module) ==> targets_visited(module, after.ctx.visited)
            && module.resolutions_recorded(),
    ensures
        after.inv(),
{
    let waiting = queued_uris(before.queued);
    assert(queued_uris(after.queued) =~= waiting.push(msg.uri()));
    lemma_push_unique(waiting, msg.uri());
    assert(queued_uris(after.queued) == push_unique(waiting, msg.uri()));
    assert forall|i: int| 0 <= i < after.nodes.len() implies targets_visited(
        #[trigger] after.nodes[i],
        after.ctx.visited,
    ) by {
        assert(targets_visited(before.nodes[i], before.ctx.visited));
    }
    assert forall|i: int| 0 <= i < after.queued.len() implies (
    #[trigger] after.queued[i] matches MsgView::TaskFinished(module) ==> targets_visited(
        module,
        after.ctx.visited,
    )) by {
        if i < before.queued.len() {
            if let MsgView::TaskFinished(module) = before.queued[i] {
                assert(targets_visited(module, before.ctx.visited));
            }
        }
    }
    assert forall|i: int|
        0 <= i < after.entries.len() && (
        #[trigger] after.entries[i]).is_internal() implies after.ctx.visited.contains(
        after.entries[i].uri,
    ) by {
        assert(before.ctx.visited.contains(before.entries[i].uri));
    }
    let sent = queued_uris(after.queued);
    assert forall|uri: Seq<char>| sent.contains(uri) <==> (waiting.contains(uri) || uri
        == msg.uri()) by {}
    assert forall|uri: Seq<char>| #[trigger]
        uris_of(after.nodes).contains(uri) implies after.ctx.visited.contains(uri)
        && !after.failed.contains(uri) && !sent.contains(uri) by {
        assert(uris_of(before.nodes).contains(uri));
    }
    assert forall|uri: Seq<char>| #[trigger]
        after.failed.contains(uri) implies after.ctx.visited.contains(uri) && !sent.contains(
        uri,
    ) by {
        assert(before.failed.contains(uri));
    }
    assert forall|uri: Seq<char>| #[trigger] sent.contains(uri) implies after.ctx.visited.contains(
        uri,
    ) by {
        if uri != msg.uri() {
            assert(waiting.contains(uri));
        }
    }
}

/// Consuming the oldest waiting result keeps the invariant.
pub proof fn lemma_consumed(state: BundleView)
    requires
        state.inv(),
        state.queued.len() > 0,
    ensures
        state.consume_next().inv(),
        state.ctx.active > 0,
{
    lemma_waiting_in_flight(state);
    let next = state.consume_next();
    let waiting = queued_uris(state.queued);
    let first = state.queued.first();
    assert(waiting[0] == first.uri());
    assert(waiting.contains(first.uri()));
    lemma_drop_first_distinct(waiting);
    assert(queued_uris(next.queued) =~= waiting.drop_first());
    assert forall|i: int| 0 <= i < next.queued.len() implies (
    #[trigger] next.queued[i] matches MsgView::TaskFinished(module) ==> targets_visited(
        module,
        next.ctx.visited,
    )) by {
        assert(next.queued[i] == state.queued[i + 1]);
    }
    match first {
        MsgView::TaskFinished(module) => {
            let done = uris_of(state.nodes);
            assert(uris_of(next.nodes) =~= done.push(module.uri));
            lemma_push_unique(done, module.uri);
            assert(uris_of(next.nodes) == push_unique(done, module.uri));
            assert forall|i: int| 0 <= i < next.nodes.len() implies targets_visited(
                #[trigger] next.nodes[i],
                next.ctx.visited,
            ) by {
                if i < state.nodes.len() {
                    assert(next.nodes[i] == state.nodes[i]);
                } else {
                    assert(state.queued[0] == first);
                }
            }
        },
        MsgView::TaskFailed(error) => {
            lemma_push_unique(state.failed, error.uri);
            assert(next.failed == push_unique(state.failed, error.uri));
            assert forall|i: int| 0 <= i < next.nodes.len() implies targets_visited(
                #[trigger] next.nodes[i],
                next.ctx.visited,
            ) by {
                assert(next.nodes[i] == state.nodes[i]);
            }
        },
    }
    let left = queued_uris(next.queued);
    let done = uris_of(state.nodes);
    assert forall|uri: Seq<char>| waiting.contains(uri) <==> (uri == first.uri() || left.contains(
        uri,
    )) by {}
    assert forall|uri: Seq<char>| #[trigger]
        uris_of(next.nodes).contains(uri) implies next.ctx.visited.contains(uri)
        && !next.failed.contains(uri) && !left.contains(uri) by {
        if uri == first.uri() {
            assert(waiting.contains(uri));
        } else {
            assert(done.contains(uri));
        }
    }
    assert forall|uri: Seq<char>| #[trigger]
        next.failed.contains(uri) implies next.ctx.visited.contains(uri) && !left.contains(
        uri,
    ) by {
        if uri == first.uri() {
            assert(waiting.contains(uri));
        } else {
            assert(state.failed.contains(uri));
        }
    }
    assert forall|uri: Seq<char>| #[trigger] left.contains(uri) implies next.ctx.visited.contains(
        uri,
    ) by {
        assert(waiting.contains(uri));
    }
}

/// At quiescence every task has been accounted for: nothing waits to be
/// consumed, and the visited identifiers are exactly those of the modules
/// in the graph and of the modules that failed, each counted once.
pub proof fn lemma_quiescent_accounts(state: BundleView)
    requires
        state.inv(),
        state.is_quiescent(),
    ensures
        state.queued.len() == 0,
        state.ctx.visited.len() == state.nodes.len() + state.failed.len(),
        state.ctx.visited == (uris_of(state.nodes) + state.failed).to_set(),
        (uris_of(state.nodes) + state.failed).no_duplicates(),
{
    lemma_waiting_in_flight(state);
    lemma_claimed(state);
    let all = uris_of(state.nodes) + state.failed + queued_uris(state.queued);
    let settled = uris_of(state.nodes) + state.failed;
    assert(all =~= settled);
    all.unique_seq_to_set();
    assert(all.to_set().subset_of(state.ctx.visited)) by {
        assert forall|uri: Seq<char>| all.to_set().contains(uri) implies state.ctx.visited.contains(
            uri,
        ) by {
            let i = choose|i: int| 0 <= i < all.len() && all[i] == uri;
            assert(state.ctx.visited.contains(all[i]));
        }
    }
    vstd::set_lib::lemma_len_subset(all.to_set(), state.ctx.visited);
    vstd::set_lib::lemma_subset_equality(all.to_set(), state.ctx.visited);
}

/// Every stale entry is among the stale entries.
pub proof fn lemma_stale_entries(entries: Seq<ResolvedView>, stale: Set<Seq<char>>, i: int)
    requires
        0 <= i < entries.len(),
        entries[i].is_internal(),
        stale.contains(entries[i].uri),
    ensures
        stale_entries(entries, stale).contains(entries[i]),
    decreases entries.len(),
{
    let all = stale_entries(entries, stale);
    if i == entries.len() - 1 {
        assert(all[all.len() - 1] == entries[i]);
    } else {
        let shorter = entries.drop_last();
        lemma_stale_entries(shorter, stale, i);
        let before = stale_entries(shorter, stale);
        let k = choose|k: int| 0 <= k < before.len() && before[k] == shorter[i];
        assert(all[k] == entries[i]);
    }
}

/// A path that starts outside the graph goes nowhere.
pub proof fn lemma_outside_reaches_itself_only(
    nodes: Seq<ModuleView>,
    from: Seq<char>,
    to: Seq<char>,
)
    requires
        !by_uri(nodes).contains_key(from),
        reaches(by_uri(nodes), from, to),
    ensures
        from == to,
{
    let graph = by_uri(nodes);
    let path = choose|path: Seq<Seq<char>>| #[trigger]
        is_path(graph, path) && path.first() == from && path.last() == to;
    if path.len() > 1 {
        assert(refers_to(graph, path[0int], path[0int + 1]));
    }
}

/// The marks of the stale nodes mark the nodes whose identifier is stale.
pub proof fn lemma_marked(before: BundleView, changed: Seq<char>, marks: Seq<bool>, i: int)
    requires
        before.inv(),
        before.ctx.visited.contains(changed),
        marks.len() == before.nodes.len(),
        forall|j: int|
            0 <= j < before.nodes.len() ==> (#[trigger] marks[j] <==> reaches(
                by_uri(before.nodes),
                before.nodes[j].uri,
                changed,
            )),
        0 <= i < before.nodes.len(),
    ensures
        marked_uris(before.nodes, marks).contains(before.nodes[i].uri) <==> before.stale(
            changed,
        ).contains(before.nodes[i].uri),
        uris_of(before.nodes)[i] == before.nodes[i].uri,
{
    let uri = before.nodes[i].uri;
    let done = uris_of(before.nodes);
    assert(done[i] == uri);
    assert(done.contains(uri));
    if marked_uris(before.nodes, marks).contains(uri) {
        let j = choose|j: int|
            0 <= j < before.nodes.len() && marks[j] && #[trigger] before.nodes[j].uri == uri;
        assert(done[j] == done[i]);
    }
}

/// The identifiers taken out of the graph and out of the failed modules are
/// exactly the stale ones.
pub proof fn lemma_invalidated_is_stale(
    before: BundleView,
    changed: Seq<char>,
    invalidated: Seq<Seq<char>>,
)
    requires
        before.inv(),
        before.is_quiescent(),
        invalidated == drop_texts(uris_of(before.nodes) + before.failed, before.stale(changed)),
    ensures
        invalidated.to_set() == before.stale(changed),
{
    let stale = before.stale(changed);
    let all = uris_of(before.nodes) + before.failed;
    lemma_quiescent_accounts(before);
    lemma_keep_texts(all, stale);
    assert forall|uri: Seq<char>| invalidated.to_set().contains(uri) <==> stale.contains(uri) by {
        assert(invalidated.contains(uri) <==> (all.contains(uri) && stale.contains(uri)));
        assert(all.to_set().contains(uri) <==> all.contains(uri));
    }
    assert(invalidated.to_set() =~= stale);
}

/// What remains of a quiescent build when the stale modules are taken away
/// and tasks are spawned anew, for the stale entries among others, is a
/// build again.
pub proof fn lemma_rebuilt(before: BundleView, changed: Seq<char>, after: BundleView)
    requires
        before.inv(),
        before.is_quiescent(),
        before.ctx.visited.contains(changed),
        after == (BundleView { ctx: after.ctx, ..before.invalidate(changed) }),
        (SpawnView { ctx: after.ctx, spawned: Seq::empty() }).extends(
            SpawnView { ctx: before.invalidate(changed).ctx, spawned: Seq::empty() },
        ),
        forall|i: int|
            0 <= i < before.entries.len() && (#[trigger] before.entries[i]).is_internal()
                && before.stale(changed).contains(before.entries[i].uri)
                ==> after.ctx.visited.contains(before.entries[i].uri),
    ensures
        after.inv(),
{
    let stale = before.stale(changed);
    let middle = before.invalidate(changed);
    let graph = by_uri(before.nodes);
    let done = uris_of(before.nodes);
    let key = |m: ModuleView| m.uri;
    lemma_quiescent_accounts(before);
    let all = done + before.failed;
    assert(done =~= before.nodes.map_values(key));
    lemma_keep_by_keys(before.nodes, key, stale);
    assert(uris_of(after.nodes) =~= keep_texts(done, stale));
    lemma_keep_texts(done, stale);
    lemma_keep_texts(before.failed, stale);
    lemma_keep_texts(all, stale);
    lemma_keep_texts_concat(done, before.failed, stale);
    lemma_keep_by_contains(before.nodes, key, stale);
    assert(after.queued =~= Seq::empty());
    assert(queued_uris(after.queued) =~= Seq::empty());
    let kept = keep_texts(all, stale);
    assert(kept.to_set() =~= middle.ctx.visited) by {
        assert forall|uri: Seq<char>| kept.to_set().contains(uri) <==> middle.ctx.visited.contains(
            uri,
        ) by {
            assert(kept.contains(uri) <==> (all.contains(uri) && !stale.contains(uri)));
            assert(all.to_set().contains(uri) <==> all.contains(uri));
        }
    }
    kept.unique_seq_to_set();
    assert(after.distinct());
    assert(after.counted());
    assert(after.claimed()) by {
        assert forall|uri: Seq<char>| #[trigger]
            uris_of(after.nodes).contains(uri) implies after.ctx.visited.contains(uri)
            && !after.failed.contains(uri) && !queued_uris(after.queued).contains(uri) by {
            assert(done.contains(uri));
            assert(middle.ctx.visited.contains(uri));
        }
        assert forall|uri: Seq<char>| #[trigger]
            after.failed.contains(uri) implies after.ctx.visited.contains(uri) && !queued_uris(
            after.queued,
        ).contains(uri) by {
            assert(before.failed.contains(uri));
            assert(middle.ctx.visited.contains(uri));
        }
    }
    assert(after.recorded()) by {
        assert forall|i: int| 0 <= i < after.nodes.len() implies (
        #[trigger] after.nodes[i]).resolutions_recorded() by {
            let module = after.nodes[i];
            assert(after.nodes.contains(module));
            assert(before.nodes.contains(module));
            let j = choose|j: int| 0 <= j < before.nodes.len() && before.nodes[j] == module;
            assert(before.nodes[j].resolutions_recorded());
        }
    }
    assert(after.covered()) by {
        assert forall|i: int| 0 <= i < after.nodes.len() implies targets_visited(
            #[trigger] after.nodes[i],
            after.ctx.visited,
        ) by {
            let module = after.nodes[i];
            assert(after.nodes.contains(module));
            assert(before.nodes.contains(module) && !stale.contains(module.uri));
            let j = choose|j: int| 0 <= j < before.nodes.len() && before.nodes[j] == module;
            assert(targets_visited(before.nodes[j], before.ctx.visited));
            lemma_by_uri(before.nodes, j);
            assert forall|k: int| 0 <= k < module.dependencies.len() implies ((
            #[trigger] module.dependencies[k]).target() matches Some(uri)
                ==> after.ctx.visited.contains(uri)) by {
                if let Some(uri) = module.dependencies[k].target() {
                    assert(before.ctx.visited.contains(uri));
                    if stale.contains(uri) {
                        assert(refers_to(graph, module.uri, uri));
                        lemma_reference_then_path(graph, module.uri, uri, changed);
                        assert(before.ctx.visited.contains(module.uri));
                        assert(stale.contains(module.uri));
                    }
                    assert(middle.ctx.visited.contains(uri));
                }
            }
        }
        assert forall|i: int|
            0 <= i < after.entries.len() && (
            #[trigger] after.entries[i]).is_internal() implies after.ctx.visited.contains(
            after.entries[i].uri,
        ) by {
            assert(before.ctx.visited.contains(before.entries[i].uri));
            if !stale.contains(before.entries[i].uri) {
                assert(middle.ctx.visited.contains(before.entries[i].uri));
            }
        }
    }
}

/// The finished modules among waiting results are among the modules that
/// the results are about; where no module has two results, no finished
/// module occurs twice.
pub proof fn lemma_finished_modules(queued: Seq<MsgView>)
    ensures
        forall|uri: Seq<char>| #[trigger]
            uris_of(finished_modules(queued)).contains(uri) ==> queued_uris(queued).contains(uri),
        queued_uris(queued).no_duplicates() ==> uris_of(finished_modules(queued)).no_duplicates(),
    decreases queued.len(),
{
    let all = finished_modules(queued);
    let names = queued_uris(queued);
    if queued.len() > 0 {
        let shorter = queued.drop_last();
        lemma_finished_modules(shorter);
        let before = finished_modules(shorter);
        assert(queued_uris(shorter) =~= names.drop_last());
        assert(names[names.len() - 1] == queued.last().uri());
        assert forall|uri: Seq<char>| #[trigger] uris_of(all).contains(uri) implies names.contains(
            uri,
        ) by {
            let i = choose|i: int| 0 <= i < uris_of(all).len() && uris_of(all)[i] == uri;
            if i < before.len() {
                assert(uris_of(before)[i] == uri);
                assert(uris_of(before).contains(uri));
                assert(queued_uris(shorter).contains(uri));
                let j = choose|j: int| 0 <= j < names.drop_last().len() && names.drop_last()[j] == uri;
                assert(names[j] == uri);
            }
        }
        if names.no_duplicates() {
            assert(names.drop_last().no_duplicates());
            if let MsgView::TaskFinished(module) = queued.last() {
                assert(uris_of(all) =~= uris_of(before).push(module.uri));
                assert(!uris_of(before).contains(module.uri)) by {
                    if uris_of(before).contains(module.uri) {
                        let j = choose|j: int|
                            0 <= j < names.drop_last().len() && names.drop_last()[j] == module.uri;
                        assert(names[j] == names[names.len() - 1]);
                    }
                }
                lemma_push_unique(uris_of(before), module.uri);
                assert(uris_of(all) == push_unique(uris_of(before), module.uri));
            }
        }
    }
}

/// Taking the oldest result off takes the module it finished, if any, off
/// the finished modules.
pub proof fn lemma_finished_modules_drop_first(queued: Seq<MsgView>)
    requires
        queued.len() > 0,
    ensures
        finished_modules(queued) == match queued.first() {
            MsgView::TaskFinished(module) => seq![module] + finished_modules(queued.drop_first()),
            MsgView::TaskFailed(_) => finished_modules(queued.drop_first()),
        },
    decreases queued.len(),
{
    if queued.len() == 1 {
        assert(queued.drop_last() =~= Seq::empty());
        assert(queued.drop_first() =~= Seq::empty());
        assert(queued.last() == queued.first());
        match queued.first() {
            MsgView::TaskFinished(module) => {
                assert(finished_modules(queued) =~= seq![module] + finished_modules(
                    queued.drop_first(),
                ));
            },
            MsgView::TaskFailed(_) => {},
        }
    } else {
        let shorter = queued.drop_last();
        lemma_finished_modules_drop_first(shorter);
        assert(shorter.first() == queued.first());
        assert(shorter.drop_first() =~= queued.drop_first().drop_last());
        assert(queued.drop_first().last() == queued.last());
        match queued.first() {
            MsgView::TaskFinished(module) => {
                assert(finished_modules(queued) =~= seq![module] + finished_modules(
                    queued.drop_first(),
                ));
            },
            MsgView::TaskFailed(_) => {},
        }
    }
}

/// No identifier has two modules among the modules that a build knows.
pub proof fn lemma_known_distinct(state: BundleView)
    requires
        state.inv(),
    ensures
        uris_of(state.known()).no_duplicates(),
        forall|uri: Seq<char>| #[trigger]
            uris_of(state.known()).contains(uri) ==> uris_of(state.nodes).contains(uri)
                || queued_uris(state.queued).contains(uri),
{
    let done = uris_of(state.nodes);
    let sent = uris_of(finished_modules(state.queued));
    lemma_finished_modules(state.queued);
    assert(uris_of(state.known()) =~= done + sent);
    assert forall|i: int, j: int| 0 <= i < done.len() && 0 <= j < sent.len() implies done[i]
        != sent[j] by {
        assert(done.contains(done[i]));
        assert(sent.contains(sent[j]));
    }
    vstd::seq_lib::lemma_no_dup_in_concat(done, sent);
    assert forall|uri: Seq<char>| #[trigger] (done + sent).contains(uri) implies done.contains(uri)
        || queued_uris(state.queued).contains(uri) by {
        let i = choose|i: int| 0 <= i < (done + sent).len() && (done + sent)[i] == uri;
        if i < done.len() {
            assert(done[i] == uri);
        } else {
            assert(sent[i - done.len()] == uri);
            assert(sent.contains(uri));
        }
    }
}

/// Seeding keeps a build rooted.
pub proof fn lemma_rooted_seeded(before: BundleView, after: BundleView, ids: Seq<ResolvedView>)
    requires
        before.rooted(),
        after == (BundleView { ctx: after.ctx, entries: before.entries + ids, ..before }),
        after.ctx == (SpawnView { ctx: before.ctx, spawned: Seq::empty() }).spawn_all(ids).ctx,
    ensures
        after.rooted(),
{
    let graph = by_uri(before.known());
    let start = SpawnView { ctx: before.ctx, spawned: Seq::empty() };
    assert forall|root: Seq<char>| #[trigger] is_root(before.entries, root) implies is_root(
        after.entries,
        root,
    ) by {
        let i = choose|i: int|
            0 <= i < before.entries.len() && (#[trigger] before.entries[i]).is_internal()
                && before.entries[i].uri == root;
        assert(after.entries[i] == before.entries[i]);
    }
    assert forall|uri: Seq<char>| after.ctx.visited.contains(uri) implies #[trigger] reachable(
        by_uri(after.known()),
        after.entries,
        uri,
    ) by {
        lemma_spawn_all_origin(start, ids, uri);
        if before.ctx.visited.contains(uri) {
            lemma_reachable_grows(
                graph,
                graph,
                before.entries,
                after.entries,
                uri,
            );
        } else {
            let i = choose|i: int|
                0 <= i < ids.len() && (#[trigger] ids[i]).is_internal() && ids[i].uri == uri;
            assert(after.entries[before.entries.len() + i] == ids[i]);
            assert(is_root(after.entries, uri));
            lemma_root_reachable(graph, after.entries, uri);
        }
    }
}

/// Sending a finished module keeps a build rooted, provided that whatever
/// has been visited since is a target of the module.
pub proof fn lemma_rooted_finished(before: BundleView, after: BundleView, module: ModuleView)
    requires
        before.inv(),
        before.rooted(),
        before.is_running(module.uri),
        after.nodes == before.nodes,
        after.entries == before.entries,
        after.queued == before.queued.push(MsgView::TaskFinished(module)),
        forall|uri: Seq<char>| #[trigger]
            after.ctx.visited.contains(uri) ==> before.ctx.visited.contains(uri)
                || module.refers_to(uri),
    ensures
        after.rooted(),
{
    let known = before.known();
    let graph = by_uri(known);
    lemma_known_distinct(before);
    assert(before.queued.push(MsgView::TaskFinished(module)).drop_last() =~= before.queued);
    assert(after.known() =~= known.push(module));
    assert(!uris_of(known).contains(module.uri));
    lemma_by_uri_push(known, module);
    let bigger = by_uri(after.known());
    assert(extends_graph(bigger, graph));
    assert forall|uri: Seq<char>| after.ctx.visited.contains(uri) implies #[trigger] reachable(
        bigger,
        after.entries,
        uri,
    ) by {
        if before.ctx.visited.contains(uri) {
            lemma_reachable_grows(
                graph,
                bigger,
                before.entries,
                after.entries,
                uri,
            );
        } else {
            lemma_reachable_grows(
                graph,
                bigger,
                before.entries,
                after.entries,
                module.uri,
            );
            let k = choose|k: int|
                0 <= k < module.dependencies.len() && (#[trigger] module.dependencies[k]).target()
                    == Some(uri);
            assert(bigger[module.uri] == module);
            assert(refers_to(bigger, module.uri, uri));
            lemma_reachable_step(bigger, after.entries, module.uri, uri);
        }
    }
}

/// Consuming the oldest waiting result keeps a build rooted.
pub proof fn lemma_rooted_consumed(state: BundleView)
    requires
        state.rooted(),
        state.queued.len() > 0,
    ensures
        state.consume_next().rooted(),
{
    let next = state.consume_next();
    lemma_finished_modules_drop_first(state.queued);
    match state.queued.first() {
        MsgView::TaskFinished(module) => {
            assert(next.known() =~= state.known());
        },
        MsgView::TaskFailed(_) => {
            assert(next.known() =~= state.known());
        },
    }
    assert forall|uri: Seq<char>| next.ctx.visited.contains(uri) implies #[trigger] reachable(
        by_uri(next.known()),
        next.entries,
        uri,
    ) by {
        assert(reachable(by_uri(state.known()), state.entries, uri));
    }
}

/// Assigning the execution order keeps a build rooted.
pub proof fn lemma_rooted_finalized(before: BundleView, after: BundleView)
    requires
        before.inv(),
        before.rooted(),
        after == (BundleView { nodes: finalized(before.nodes, before.entries), ..before }),
    ensures
        after.rooted(),
{
    let known = before.known();
    let later = after.known();
    lemma_known_distinct(before);
    lemma_finalized_keeps(before.nodes, before.entries);
    assert(uris_of(later) =~= uris_of(known));
    let graph = by_uri(known);
    let bigger = by_uri(later);
    assert forall|uri: Seq<char>| #[trigger] graph.contains_key(uri) implies bigger.contains_key(
        uri,
    ) && bigger[uri].dependencies == graph[uri].dependencies by {
        let i = uris_of(known).index_of(uri);
        assert(0 <= i < known.len() && uris_of(known)[i] == uri);
        lemma_by_uri(known, i);
        lemma_by_uri(later, i);
        if i < before.nodes.len() {
            assert(known[i] == before.nodes[i]);
            assert(later[i] == after.nodes[i]);
        } else {
            assert(known[i] == finished_modules(before.queued)[i - before.nodes.len()]);
            assert(later[i] == finished_modules(after.queued)[i - after.nodes.len()]);
        }
    }
    assert forall|uri: Seq<char>| after.ctx.visited.contains(uri) implies #[trigger] reachable(
        bigger,
        after.entries,
        uri,
    ) by {
        lemma_reachable_grows(
                graph,
            bigger,
            before.entries,
            after.entries,
            uri,
        );
    }
}

} // verus!
