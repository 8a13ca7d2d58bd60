//! Core of an incremental, evacuation-compacting garbage collector for a
//! 32-bit linear-memory virtual machine.
//!
//! The heap is divided into equally sized partitions. Objects are bump
//! allocated inside a dedicated allocation partition. A garbage collection
//! run proceeds in three incremental phases, mark, evacuate and update,
//! interleaved with the mutator. Consistency between mutator and collector
//! rests on a snapshot-at-the-beginning write barrier, conservative marking
//! of new allocations, and forwarding pointers that are installed when live
//! objects are copied out of high-garbage partitions.
//!
//! The heap is modelled explicitly: raw linear memory is represented by a
//! block store that maps word-aligned addresses to blocks, and committed
//! memory growth is tracked by a [`memory::Memory`] implementation. All
//! partition accounting, marking, evacuation and pointer-update logic works
//! on this model and is verified against the contracts stated throughout.

pub mod constants;
pub mod mark_bitmap;
pub mod mark_stack;
pub mod memory;
pub mod gc;
pub mod partitioned_heap;
pub mod roots;
pub mod time;
pub mod types;
