//! The task-record glue: each task embeds two intrusive node slots.  The
//! state node is linked into exactly one run-state list (a priority ready
//! list, the delayed list, or the suspended list); the event node is linked
//! into a queue's or semaphore's wait list only while the task blocks on
//! that object.  The two slots are independent, giving a task its dual
//! simultaneous list membership.

use vstd::prelude::*;
use crate::list::{preserves_list, NodePool};

verus! {

/// Run state of a task, as run-state list membership encodes it.
#[derive(Clone, Copy, PartialEq, Eq, Structural, Debug)]
pub enum TaskState {
    Running,
    Ready,
    Blocked,
    Suspended,
    Deleted,
}

/// A task record: its priority and its two node slots.  Both nodes carry
/// the task's identity as owner, so either list membership leads back to
/// the owning record.
pub struct Task {
    /// Priority of the task; 0 is the lowest.
    pub priority: usize,
    /// Node slot for run-state list membership.
    pub state_node: usize,
    /// Node slot for event wait-list membership.
    pub event_node: usize,
}

impl Task {
    /// Both slots exist in the pool and are two different nodes.
    pub open spec fn wf(self, pool: NodePool) -> bool {
        &&& pool.has_node(self.state_node)
        &&& pool.has_node(self.event_node)
        &&& self.state_node != self.event_node
    }

    /// Creates a task record with identity `task_id`, allocating its two
    /// node slots fresh and unlinked, keys cleared.
    pub fn create(pool: &mut NodePool, task_id: usize, priority: usize) -> (t: Task)
        requires
            old(pool).wf(),
            old(pool).nodes@.len() + 2 <= usize::MAX,
        ensures
            final(pool).wf(),
            t.wf(*final(pool)),
            t.priority == priority,
            t.state_node == old(pool).nodes@.len(),
            t.event_node == old(pool).nodes@.len() + 1,
            final(pool).unlinked(t.state_node),
            final(pool).unlinked(t.event_node),
            final(pool).node(t.state_node).owner == task_id,
            final(pool).node(t.event_node).owner == task_id,
            final(pool).node(t.state_node).value == 0,
            final(pool).node(t.event_node).value == 0,
            final(pool).nodes@.len() == old(pool).nodes@.len() + 2,
            forall|i: int|
                0 <= i < old(pool).nodes@.len() ==> final(pool).nodes@[i] == old(pool).nodes@[i],
            final(pool).next_list_id == old(pool).next_list_id,
            forall|id: usize| #[trigger] preserves_list(*old(pool), *final(pool), id),
    {
        let state_node = pool.new_node(0, task_id);
        let ghost pool_mid = *pool;
        let event_node = pool.new_node(0, task_id);
        proof {
            assert forall|id: usize| #[trigger] preserves_list(*old(pool), *pool, id) by {
                assert(preserves_list(*old(pool), pool_mid, id));
                assert(preserves_list(pool_mid, *pool, id));
            }
        }
        Task { priority, state_node, event_node }
    }
}

} // verus!
