//! Execution substrate of a small x86-64 kernel: the physical frame
//! allocator, the four-level page-table mapper and heap growth, the
//! round-robin task scheduler, and the interrupt dispatch decisions.

pub mod frame;
pub mod paging;
pub mod heap;
pub mod memory;
pub mod task;
pub mod scheduler;
pub mod timer;
pub mod interrupts;
pub mod log_buffer;
