//! The queue record: a bounded message buffer together with the two wait
//! lists that implement priority-ordered blocking — one for tasks waiting
//! to send into the queue, one for tasks waiting to receive from it.
//! Blocked tasks are inserted into these lists with `insert_sorted`, keyed
//! so that the highest-priority waiter sits nearest the head.

use vstd::prelude::*;
use crate::list::{lemma_frame_wf, preserves_list, NodePool, OrderedList};

verus! {

/// Lock state of one direction of a queue while the scheduler is suspended.
#[derive(Clone, Copy, PartialEq, Eq, Structural, Debug)]
pub enum QueueLock {
    Unlocked,
    LockedUnmodified,
}

/// A message queue.  The byte storage is addressed by indices: `head` is
/// the first byte, `tail` the last (one spare byte beyond the messages, to
/// make wrap checking easy), and `write_to` the next write position.
pub struct Queue {
    /// Index of the first storage byte.
    pub head: usize,
    /// Index of the spare byte at the end of the storage.
    pub tail: usize,
    /// Index of the next byte to write a message to.
    pub write_to: usize,
    /// Byte storage for `length` messages of `item_size` bytes each, plus
    /// one spare byte.
    pub storage: Vec<u8>,
    pub recursive_call_count: usize,
    /// Tasks blocked waiting to post into this queue, by waiter priority.
    pub tasks_waiting_to_send: OrderedList,
    /// Tasks blocked waiting to read from this queue, by waiter priority.
    pub tasks_waiting_to_recv: OrderedList,
    /// Number of messages currently in the queue.
    pub messages_waiting: usize,
    /// Number of messages the queue can hold.
    pub length: usize,
    /// Size in bytes of each message.
    pub item_size: usize,
    pub rx_lock: QueueLock,
    pub tx_lock: QueueLock,
}

impl Queue {
    /// Well-formedness over the shared node pool: both wait lists are
    /// well-formed, they are two different lists, and the storage indices
    /// describe the buffer.
    pub open spec fn wf(self, pool: NodePool) -> bool {
        &&& self.tasks_waiting_to_send.wf(pool)
        &&& self.tasks_waiting_to_recv.wf(pool)
        &&& self.tasks_waiting_to_send.id != self.tasks_waiting_to_recv.id
        &&& self.storage@.len() == self.length * self.item_size + 1
        &&& self.head == 0
        &&& self.tail == self.storage@.len() - 1
        &&& self.write_to < self.storage@.len()
    }

    /// Creates a queue for `length` messages of `item_size` bytes.  The
    /// storage is one byte longer than the messages need, to make wrap
    /// checking easier and faster; both wait lists start empty, with fresh,
    /// distinct identities.
    pub fn create(pool: &mut NodePool, length: usize, item_size: usize, _queue_type: u8) -> (q:
        Queue)
        requires
            old(pool).wf(),
            length >= 1,
            length * item_size + 1 <= usize::MAX,
            old(pool).next_list_id + 2 <= usize::MAX,
        ensures
            final(pool).wf(),
            q.wf(*final(pool)),
            q.length == length,
            q.item_size == item_size,
            q.storage@.len() == length * item_size + 1,
            forall|i: int| 0 <= i < q.storage@.len() ==> q.storage@[i] == 0u8,
            q.head == 0,
            q.write_to == 0,
            q.tail == length * item_size,
            q.messages_waiting == 0,
            q.recursive_call_count == 0,
            q.rx_lock == QueueLock::Unlocked,
            q.tx_lock == QueueLock::Unlocked,
            q.tasks_waiting_to_send.empty_state(),
            q.tasks_waiting_to_recv.empty_state(),
            q.tasks_waiting_to_send.id == old(pool).next_list_id,
            q.tasks_waiting_to_recv.id == old(pool).next_list_id + 1,
            final(pool).nodes@ == old(pool).nodes@,
            final(pool).next_list_id == old(pool).next_list_id + 2,
            forall|id: usize| #[trigger] preserves_list(*old(pool), *final(pool), id),
    {
        let size = length * item_size + 1;
        let mut storage: Vec<u8> = Vec::new();
        let mut i: usize = 0;
        while i < size
            invariant
                i <= size,
                storage@.len() == i,
                forall|j: int| 0 <= j < i ==> storage@[j] == 0u8,
            decreases size - i,
        {
            storage.push(0u8);
            i = i + 1;
        }
        let tasks_waiting_to_send = OrderedList::init(pool);
        let ghost pool_mid = *pool;
        let tasks_waiting_to_recv = OrderedList::init(pool);
        proof {
            lemma_frame_wf(tasks_waiting_to_send, pool_mid, *pool);
        }
        Queue {
            head: 0,
            tail: size - 1,
            write_to: 0,
            storage,
            recursive_call_count: 0,
            tasks_waiting_to_send,
            tasks_waiting_to_recv,
            messages_waiting: 0,
            length,
            item_size,
            rx_lock: QueueLock::Unlocked,
            tx_lock: QueueLock::Unlocked,
        }
    }
}

} // verus!
