//! Tasks and the scheduler that switches between them.
pub mod scheduler;
pub mod thread;
