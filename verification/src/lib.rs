//! Pure-logic core of the jos kernel.
//!
//! Everything here is hardware-free, heap-free and deterministic: the kernel
//! wraps these data structures and rules with the real objects and syscalls.
//! Each module states its behaviour as contracts over a mathematical model,
//! and the properties that relate several operations as public proof functions.
pub mod bitmap;
pub mod cap_rights;
pub mod cap_space;
pub mod cap_table;
pub mod clock;
pub mod counting;
pub mod endpoint;
pub mod fault;
pub mod frame_allocator;
pub mod notification;
pub mod page_table;
pub mod placement;
pub mod pte;
pub mod ring_buffer;
pub mod rng;
pub mod run_queue;
pub mod timer;
pub mod trace;
pub mod untyped;
