//! Early-boot memory management for a freestanding kernel.
//!
//! Before paging, scheduling or a second core exist, the kernel has two jobs
//! to do with memory: read what the boot loader left behind, and hand out
//! memory from a small fixed heap.
//!
//! * [`boot_info`] reads the boot information blob, a header followed by a
//!   stream of tags; [`blob_layout`] says what such a blob encodes and proves
//!   that the reader reads exactly that.
//! * [`chunk_allocator`] is a first-fit allocator that keeps one bit per chunk
//!   of the heap; [`heap_history`] proves what holds however it is used.
//! * [`global_alloc`] turns the allocator's offsets into addresses for the
//!   kernel's allocation entry point.
//! * [`boot`] is the order of early boot as a state machine, [`error`] the
//!   kinds of failure, and [`debugcon`] the text that goes to the debug
//!   console.
//!
//! Everything here runs on one core with interrupts off. Nothing in it blocks,
//! waits or locks. Arithmetic and indexing are proved in range for every
//! input, and the allocator's entry points are proved never to unwind.

pub mod blob_layout;
pub mod boot;
pub mod boot_info;
pub mod chunk_allocator;
pub mod debugcon;
pub mod error;
pub mod global_alloc;
pub mod heap_history;
