//! The deferred-update queue: tasks enqueued during a main-thread turn
//! are coalesced and handed back in order, once, when the pending pass
//! runs.
//!
//! Tasks are named by caller-chosen identifiers; the runtime around the
//! library keeps the actual closures and runs each identifier this queue
//! hands back.

use vstd::prelude::*;

verus! {

/// The queue of deferred update tasks, in the order they were enqueued.
pub struct UpdateQueue {
    pub tasks: Vec<u64>,
}

impl UpdateQueue {
    /// An empty queue: no pass is pending.
    pub fn new() -> (r: UpdateQueue)
        ensures
            r.tasks@.len() == 0,
    {
        UpdateQueue { tasks: Vec::new() }
    }

    /// Enqueue a deferred task.
    ///
    /// Returns `true` exactly when the queue was empty, that is, when
    /// the caller must schedule one `process_pending_invocations` pass
    /// on the main thread; later tasks of the same turn coalesce into
    /// that pass.
    pub fn invoke_on_update(&mut self, task: u64) -> (schedule: bool)
        ensures
            final(self).tasks@ == old(self).tasks@.push(task),
            schedule == (old(self).tasks@.len() == 0),
    {
        let was_empty = self.tasks.len() == 0;
        self.tasks.push(task);
        was_empty
    }

    /// Take every pending task, first enqueued first, leaving the queue
    /// empty. The caller runs the tasks; one that enqueues further work
    /// re-arms the queue through `invoke_on_update`.
    pub fn process_pending_invocations(&mut self) -> (r: Vec<u64>)
        ensures
            r@ == old(self).tasks@,
            final(self).tasks@.len() == 0,
    {
        let mut r: Vec<u64> = Vec::new();
        while self.tasks.len() > 0
            invariant
                r@ + self.tasks@ == old(self).tasks@,
            decreases self.tasks@.len(),
        {
            let t = self.tasks.remove(0);
            r.push(t);
            proof {
                assert(r@ + self.tasks@ =~= old(self).tasks@);
            }
        }
        proof {
            assert(r@ =~= old(self).tasks@);
        }
        r
    }
}

} // verus!
