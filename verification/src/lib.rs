//! Core data structures of a small real-time kernel: an intrusive,
//! priority-ordered circular doubly-linked list engine (`list`), together
//! with the queue and task records that embed its lists and nodes
//! (`queue`, `task`).
//!
//! The engine performs no allocation of its own and contains no locking:
//! every mutating call must be made under a caller-supplied critical
//! section, exactly as a tick-driven preemptive scheduler requires.

pub mod list;
pub mod queue;
pub mod task;
