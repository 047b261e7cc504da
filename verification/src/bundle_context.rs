//! The state that every task of a build shares: which module identifiers
//! some task has taken responsibility for, and how many tasks are in flight.

use crate::concurrent::{
    visited_contains, visited_insert, visited_len, visited_new, visited_remove, visited_uris,
};
use dashmap::DashSet;
use std::collections::hash_map::RandomState;
use vstd::prelude::*;

verus! {

/// The visited set and the in-flight counter of one build.
pub struct BundleContext {
    visited_module_id: DashSet<String, RandomState>,
    active_task_count: usize,
}

/// Mathematical content of a [`BundleContext`].
pub struct ContextView {
    /// The identifiers that some task is or was responsible for.
    pub visited: Set<Seq<char>>,
    /// The number of tasks spawned and not yet consumed.
    pub active: nat,
}

impl ContextView {
    /// The state after a task has been spawned for `uri`.
    pub open spec fn spawn(self, uri: Seq<char>) -> ContextView {
        ContextView { visited: self.visited.insert(uri), active: self.active + 1 }
    }

    /// The state after an attempt to spawn a task for `uri`: nothing changes
    /// where the identifier has been visited before.
    pub open spec fn visit(self, uri: Seq<char>) -> ContextView {
        if self.visited.contains(uri) {
            self
        } else {
            self.spawn(uri)
        }
    }

    /// The state after the result of one task has been consumed.
    pub open spec fn consume(self) -> ContextView {
        ContextView { visited: self.visited, active: (self.active - 1) as nat }
    }
}

impl View for BundleContext {
    type V = ContextView;

    closed spec fn view(&self) -> ContextView {
        ContextView {
            visited: visited_uris(self.visited_module_id),
            active: self.active_task_count as nat,
        }
    }
}

impl BundleContext {
    /// Finitely many identifiers have been visited, and no more tasks are in
    /// flight than identifiers have been visited.
    pub open spec fn wf(&self) -> bool {
        self@.visited.finite() && self@.active <= self@.visited.len()
    }

    pub fn new() -> (ctx: Self)
        ensures
            ctx.wf(),
            ctx@ == (ContextView { visited: Set::empty(), active: 0 }),
    {
        BundleContext { visited_module_id: visited_new(), active_task_count: 0 }
    }

    /// The number of tasks spawned and not yet consumed.
    pub fn active_task_count(&self) -> (count: usize)
        ensures
            count == self@.active,
    {
        self.active_task_count
    }

    /// The number of identifiers visited.
    pub fn visited_count(&self) -> (count: usize)
        ensures
            count == self@.visited.len(),
    {
        visited_len(&self.visited_module_id)
    }

    pub fn is_visited(&self, uri: &String) -> (visited: bool)
        ensures
            visited == self@.visited.contains(uri@),
    {
        visited_contains(&self.visited_module_id, uri)
    }

    /// Whether no task is in flight.
    pub fn is_idle(&self) -> (idle: bool)
        ensures
            idle == (self@.active == 0),
    {
        self.active_task_count == 0
    }

    /// Tests and marks `uri` in one step. Where the identifier was not
    /// visited before, it is now, one more task counts as in flight, and the
    /// result is `true`; otherwise nothing changes.
    pub fn try_visit(&mut self, uri: String) -> (fresh: bool)
        requires
            old(self).wf(),
        ensures
            final(self).wf(),
            fresh == !old(self)@.visited.contains(uri@),
            final(self)@ == old(self)@.visit(uri@),
    {
        let fresh = visited_insert(&mut self.visited_module_id, uri);
        if fresh {
            let visited = visited_len(&self.visited_module_id);
            assert(visited == old(self)@.visited.len() + 1);
            self.active_task_count = self.active_task_count + 1;
        } else {
            assert(old(self)@.visited.insert(uri@) =~= old(self)@.visited);
        }
        fresh
    }

    /// Counts the result of one task as consumed. With no task in flight
    /// there is nothing to count, and the result is `false`.
    pub fn consume(&mut self) -> (counted: bool)
        requires
            old(self).wf(),
        ensures
            final(self).wf(),
            counted == (old(self)@.active > 0),
            final(self)@ == if counted {
                old(self)@.consume()
            } else {
                old(self)@
            },
    {
        if self.active_task_count > 0 {
            self.active_task_count = self.active_task_count - 1;
            true
        } else {
            false
        }
    }

    /// Forgets that `uri` was visited, so that a later build visits it
    /// again. Only an idle context forgets; with tasks in flight nothing
    /// changes and the result is `false`.
    pub fn forget(&mut self, uri: &String) -> (forgotten: bool)
        requires
            old(self).wf(),
        ensures
            final(self).wf(),
            forgotten == (old(self)@.active == 0),
            final(self)@ == if forgotten {
                (ContextView { visited: old(self)@.visited.remove(uri@), active: 0 })
            } else {
                old(self)@
            },
    {
        if self.active_task_count == 0 {
            let _ = visited_remove(&mut self.visited_module_id, uri);
            true
        } else {
            false
        }
    }
}

} // verus!
