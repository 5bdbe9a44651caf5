//! Scheduling and resource-safety core of a teaching operating-system kernel:
//! a stride scheduler, process-scoped synchronization primitives guarded by a
//! deadlock-avoidance check, and anonymous virtual-memory region mapping.

pub mod banker;
pub mod scheduler;
pub mod sync;
pub mod task;
pub mod vm;
