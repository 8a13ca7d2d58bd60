//! Global size constants of the collector.

use vstd::prelude::*;

verus! {

/// Word size of the target machine, in bytes.
pub const WORD_SIZE: usize = 8;

/// Size of each heap partition, in bytes.
pub const PARTITION_SIZE: usize = 32 * 1024 * 1024;

/// Number of partitions in the 4 GiB address space.
/// The last partition is left unused so that the end address of every
/// usable partition can be computed without numeric overflow.
pub const MAX_PARTITIONS: usize = 127;

} // verus!
