//! Partitioned heap of the incremental GC.
//!
//! The heap is divided into equally sized partitions. A partition may start
//! with a static space of compiler-emitted data that is never moved; beyond
//! it, the dynamic space grows by bump allocation up to the partition end.
//! One non-free partition is the allocation partition, the target of all
//! normal-sized allocations; it is never evacuated. When its tail is too
//! small for a requested allocation, a filler block is written over the tail
//! to keep the partition sweepable and a free partition takes over.
//!
//! Objects larger than a partition occupy a contiguous run of completely
//! free partitions, flagged as large content. They keep their address for
//! their whole lifetime and their partition run is freed as a whole as soon
//! as they are unreachable.
//!
//! On garbage collection, partitions with low survival rates are selected
//! for evacuation: their live objects are moved out through regular
//! allocation, so that the partition can be freed entirely.
//!
//! Heap memory is modelled by a block store: a map from word-aligned
//! addresses to blocks. The central invariant is that the dynamic space of
//! every non-free, non-large partition is exactly tiled by blocks, which
//! makes sweeping by block size land precisely on the dynamic space end.

use vstd::prelude::*;

use crate::constants::MAX_PARTITIONS;
use crate::constants::PARTITION_SIZE;
use crate::constants::WORD_SIZE;
use crate::mark_bitmap::MarkBitmap;
use crate::memory::Memory;
use crate::time::BoundedTime;
use crate::types::spec_wf_block;
use crate::types::Block;
use crate::types::Value;
use crate::types::TAG_FREE_SPACE;
use crate::types::TAG_ONE_WORD_FILLER;

use std::collections::HashMap;

verus! {

broadcast use vstd::std_specs::hash::group_hash_axioms;

/// Survival rate threshold for evacuation, as the exact fraction
/// `SURVIVAL_NUMERATOR / SURVIVAL_DENOMINATOR` (85 percent).
pub const SURVIVAL_NUMERATOR: usize = 17;

pub const SURVIVAL_DENOMINATOR: usize = 20;

/// The byte size of a block in the store, zero for an absent address.
pub open spec fn spec_size_at(blocks: Map<usize, Block>, addr: int) -> int {
    spec_block_size_of(blocks[addr as usize])
}

pub open spec fn spec_block_size_of(block: Block) -> int {
    crate::types::spec_block_size(block)
}

/// The address range `[addr, end)` is exactly tiled by well-formed blocks:
/// starting at `addr`, each block is followed immediately by the next, and
/// the last one ends exactly at `end`. Sweeping by block size therefore
/// lands precisely on `end`.
pub open spec fn spec_tiled(blocks: Map<usize, Block>, addr: int, end: int) -> bool
    decreases end - addr when addr <= end
{
    if addr < end {
        &&& 0 <= addr
        &&& addr % (WORD_SIZE as int) == 0
        &&& blocks.contains_key(addr as usize)
        &&& spec_wf_block(blocks[addr as usize])
        &&& addr + spec_size_at(blocks, addr) <= end
        &&& spec_tiled(blocks, addr + spec_size_at(blocks, addr), end)
    } else {
        addr == end
    }
}

/// Tiling is unaffected by binding an address outside the tiled range.
pub proof fn lemma_tiled_insert_outside(
    blocks: Map<usize, Block>,
    addr: int,
    end: int,
    key: usize,
    block: Block,
)
    requires
        addr <= end <= usize::MAX,
        spec_tiled(blocks, addr, end),
        key < addr || key >= end,
    ensures
        spec_tiled(blocks.insert(key, block), addr, end),
    decreases end - addr,
{
    if addr < end {
        let updated = blocks.insert(key, block);
        assert(key != addr as usize);
        assert(updated.contains_key(addr as usize) && updated[addr as usize] == blocks[addr
            as usize]);
        assert(spec_size_at(updated, addr) == spec_size_at(blocks, addr));
        lemma_tiled_insert_outside(
            blocks,
            addr + spec_size_at(blocks, addr),
            end,
            key,
            block,
        );
        assert(spec_tiled(updated, addr + spec_size_at(updated, addr), end));
    } else {
        assert(addr == end);
        assert(spec_tiled(blocks.insert(key, block), addr, end));
    }
}

/// Tiling is unaffected by replacing a block with one of the same size.
pub proof fn lemma_tiled_update_same_size(
    blocks: Map<usize, Block>,
    addr: int,
    end: int,
    key: usize,
    block: Block,
)
    requires
        addr <= end <= usize::MAX,
        spec_tiled(blocks, addr, end),
        blocks.contains_key(key),
        spec_wf_block(block) == spec_wf_block(blocks[key]),
        spec_block_size_of(block) == spec_block_size_of(blocks[key]),
    ensures
        spec_tiled(blocks.insert(key, block), addr, end),
    decreases end - addr,
{
    if addr < end {
        lemma_tiled_update_same_size(
            blocks,
            addr + spec_size_at(blocks, addr),
            end,
            key,
            block,
        );
    }
}

/// A well-formed block bound exactly at the end of a tiled range extends the
/// tiling by its size.
pub proof fn lemma_tiled_extend(blocks: Map<usize, Block>, addr: int, end: int, block: Block)
    requires
        0 <= addr <= end,
        end + spec_block_size_of(block) <= usize::MAX,
        spec_tiled(blocks, addr, end),
        end % (WORD_SIZE as int) == 0,
        blocks.contains_key(end as usize),
        blocks[end as usize] == block,
        spec_wf_block(block),
    ensures
        spec_tiled(blocks, addr, end + spec_block_size_of(block)),
    decreases end - addr,
{
    if addr < end {
        lemma_tiled_extend(blocks, addr + spec_size_at(blocks, addr), end, block);
    } else {
        assert(spec_tiled(blocks, end + spec_block_size_of(block), end + spec_block_size_of(
            block,
        )));
    }
}

/// An address inside partition `index` divides down to that index.
pub proof fn lemma_partition_of_address(index: int, addr: int)
    requires
        0 <= index,
        index * PARTITION_SIZE <= addr,
        addr < index * PARTITION_SIZE + PARTITION_SIZE,
    ensures
        addr / (PARTITION_SIZE as int) == index,
{
    assert(addr / (PARTITION_SIZE as int) == index) by (nonlinear_arith)
        requires
            0 <= index,
            index * PARTITION_SIZE <= addr,
            addr < index * PARTITION_SIZE + PARTITION_SIZE,
            PARTITION_SIZE > 0,
    ;
}

/// The address range of a valid partition index stays below the end of the
/// usable address space.
pub proof fn lemma_partition_bounds(index: int)
    requires
        0 <= index < MAX_PARTITIONS,
    ensures
        0 <= index * PARTITION_SIZE,
        index * PARTITION_SIZE + PARTITION_SIZE <= MAX_PARTITIONS * PARTITION_SIZE,
        MAX_PARTITIONS * PARTITION_SIZE < usize::MAX,
{
    assert(0 <= index * PARTITION_SIZE && index * PARTITION_SIZE + PARTITION_SIZE
        <= MAX_PARTITIONS * PARTITION_SIZE && MAX_PARTITIONS * PARTITION_SIZE < usize::MAX)
        by (nonlinear_arith)
        requires
            0 <= index < MAX_PARTITIONS,
    ;
}

/// Partition boundaries and the dynamic space limits are word-aligned.
pub proof fn lemma_partition_aligned(p: Partition, index: int)
    requires
        p.spec_wf(index),
    ensures
        p.spec_start() % (WORD_SIZE as int) == 0,
        p.spec_end() % (WORD_SIZE as int) == 0,
        p.spec_dynamic_start() % (WORD_SIZE as int) == 0,
        p.spec_dynamic_end() % (WORD_SIZE as int) == 0,
{
    assert((index * PARTITION_SIZE) % (WORD_SIZE as int) == 0 && (index * PARTITION_SIZE
        + PARTITION_SIZE) % (WORD_SIZE as int) == 0 && (index * PARTITION_SIZE + p.static_size)
        % (WORD_SIZE as int) == 0 && (index * PARTITION_SIZE + p.static_size + p.dynamic_size)
        % (WORD_SIZE as int) == 0) by (nonlinear_arith)
        requires
            0 <= index,
            p.static_size as int % (WORD_SIZE as int) == 0,
            p.dynamic_size as int % (WORD_SIZE as int) == 0,
    ;
}

/// Heap partition of size `PARTITION_SIZE`.
pub struct Partition {
    /// Position of the partition in the heap; start address divided by the
    /// partition size.
    pub index: usize,
    /// A free partition, which may still hold static space.
    pub free: bool,
    /// Whether a large object spanning multiple partitions is contained.
    pub large_content: bool,
    /// Bytes of marked object space within the dynamic space.
    pub marked_size: usize,
    /// Size of the static space at the partition start.
    pub static_size: usize,
    /// Size of the dynamic space following the static space.
    pub dynamic_size: usize,
    /// The partition is selected for or undergoing evacuation.
    pub evacuate: bool,
    /// The pointers in the partition still have to be updated.
    pub update: bool,
    /// Mark bitmap of this partition, bound during a GC run.
    pub bitmap: MarkBitmap,
    /// Head partition index of the large-object run this partition belongs
    /// to; meaningful only while `large_content` is set.
    pub large_head: usize,
}

impl Partition {
    pub open spec fn spec_large_head(self) -> int {
        self.large_head as int
    }
    pub open spec fn spec_start(self) -> int {
        self.index * PARTITION_SIZE
    }

    pub open spec fn spec_end(self) -> int {
        self.index * PARTITION_SIZE + PARTITION_SIZE
    }

    pub open spec fn spec_dynamic_start(self) -> int {
        self.spec_start() + self.static_size
    }

    pub open spec fn spec_dynamic_end(self) -> int {
        self.spec_dynamic_start() + self.dynamic_size
    }

    /// Per-partition well-formedness at its heap position.
    pub open spec fn spec_wf(self, index: int) -> bool {
        &&& self.index == index
        &&& 0 <= index < MAX_PARTITIONS
        &&& self.static_size + self.dynamic_size <= PARTITION_SIZE
        &&& self.static_size as int % (WORD_SIZE as int) == 0
        &&& self.dynamic_size as int % (WORD_SIZE as int) == 0
        &&& self.marked_size <= self.dynamic_size
        &&& (self.free ==> self.dynamic_size == 0 && !self.large_content && !self.evacuate
            && !self.update && !self.bitmap.spec_assigned())
        &&& (self.evacuate ==> !self.free && !self.large_content)
        &&& (self.large_content ==> !self.free && self.static_size == 0
            && !self.bitmap.spec_assigned())
    }

    /// Exact rational form of "survival rate at most 85 percent": the
    /// marked space is at most 85 percent of the dynamic capacity.
    pub open spec fn spec_low_survival(self) -> bool {
        SURVIVAL_DENOMINATOR * self.marked_size <= SURVIVAL_NUMERATOR * (PARTITION_SIZE
            - self.static_size)
    }

    /// The condition under which a partition is selected for evacuation:
    /// not free, not hosting large content, not the allocation partition,
    /// has dynamic capacity, and has a low survival rate.
    pub open spec fn spec_evacuation_candidate(self, allocation_index: int) -> bool {
        &&& !self.free
        &&& !self.large_content
        &&& self.index != allocation_index
        &&& self.static_size < PARTITION_SIZE
        &&& self.spec_low_survival()
    }

    pub fn get_index(&self) -> (index: usize)
        ensures
            index == self.index,
    {
        self.index
    }

    pub fn start_address(&self) -> (address: usize)
        requires
            self.spec_wf(self.index as int),
        ensures
            address == self.spec_start(),
    {
        proof {
            lemma_partition_bounds(self.index as int);
        }
        self.index * PARTITION_SIZE
    }

    pub fn end_address(&self) -> (address: usize)
        requires
            self.spec_wf(self.index as int),
        ensures
            address == self.spec_end(),
    {
        proof {
            lemma_partition_bounds(self.index as int);
        }
        self.index * PARTITION_SIZE + PARTITION_SIZE
    }

    pub fn dynamic_space_start(&self) -> (address: usize)
        requires
            self.spec_wf(self.index as int),
        ensures
            address == self.spec_dynamic_start(),
    {
        proof {
            lemma_partition_bounds(self.index as int);
        }
        self.start_address() + self.static_size
    }

    pub fn dynamic_space_end(&self) -> (address: usize)
        requires
            self.spec_wf(self.index as int),
        ensures
            address == self.spec_dynamic_end(),
    {
        proof {
            lemma_partition_bounds(self.index as int);
        }
        self.dynamic_space_start() + self.dynamic_size
    }

    pub fn dynamic_size(&self) -> (size: usize)
        ensures
            size == self.dynamic_size,
    {
        self.dynamic_size
    }

    pub fn marked_size(&self) -> (size: usize)
        ensures
            size == self.marked_size,
    {
        self.marked_size
    }

    pub fn free_size(&self) -> (size: usize)
        requires
            self.spec_wf(self.index as int),
        ensures
            size == self.spec_end() - self.spec_dynamic_end(),
    {
        self.end_address() - self.dynamic_space_end()
    }

    pub fn is_free(&self) -> (free: bool)
        ensures
            free == self.free,
    {
        self.free
    }

    pub fn to_be_evacuated(&self) -> (evacuate: bool)
        ensures
            evacuate == self.evacuate,
    {
        self.evacuate
    }

    pub fn to_be_updated(&self) -> (update: bool)
        ensures
            update == self.update,
    {
        self.update
    }

    pub fn has_large_content(&self) -> (large: bool)
        ensures
            large == self.large_content,
    {
        self.large_content
    }

    /// Whether a mark bitmap is currently bound to this partition.
    pub fn bitmap_is_assigned(&self) -> (assigned: bool)
        ensures
            assigned == self.bitmap.spec_assigned(),
    {
        self.bitmap.is_assigned()
    }

    pub fn is_completely_free(&self) -> (completely_free: bool)
        requires
            self.spec_wf(self.index as int),
        ensures
            completely_free == (self.free && self.static_size == 0 && self.dynamic_size == 0),
    {
        self.free && self.free_size() == PARTITION_SIZE
    }

    /// Whether the partition has a low survival rate, decided in exact
    /// rational arithmetic: marked space at most 85 percent of the dynamic
    /// capacity.
    pub fn has_low_survival_rate(&self) -> (low: bool)
        requires
            self.spec_wf(self.index as int),
        ensures
            low == self.spec_low_survival(),
    {
        SURVIVAL_DENOMINATOR * self.marked_size <= SURVIVAL_NUMERATOR * (PARTITION_SIZE
            - self.static_size)
    }

    /// Free the partition after evacuation or large-object collection.
    pub fn free(&mut self)
        requires
            old(self).spec_wf(old(self).index as int),
            !old(self).free,
            old(self).evacuate || old(self).large_content,
            old(self).marked_size == 0,
            !old(self).update,
            !old(self).bitmap.spec_assigned(),
        ensures
            final(self).spec_wf(old(self).index as int),
            final(self).free,
            final(self).dynamic_size == 0,
            !final(self).evacuate,
            !final(self).large_content,
            final(self).index == old(self).index,
            final(self).static_size == old(self).static_size,
            final(self).marked_size == 0,
            !final(self).update,
            !final(self).bitmap.spec_assigned(),
    {
        self.free = true;
        self.dynamic_size = 0;
        self.evacuate = false;
        self.large_content = false;
    }
}

/// Iterator state that is retained between GC increments: the partition
/// under scan and the address reached within it.
pub struct HeapIteratorState {
    pub partition_index: usize,
    pub current_address: usize,
}

impl HeapIteratorState {
    pub fn new() -> (state: HeapIteratorState)
        ensures
            state.partition_index == 0,
            state.current_address == 0,
    {
        HeapIteratorState { partition_index: 0, current_address: 0 }
    }

    /// The scan is complete once the partition index has reached the end of
    /// the partition array.
    pub fn completed(&self) -> (completed: bool)
        ensures
            completed == (self.partition_index >= MAX_PARTITIONS),
    {
        self.partition_index >= MAX_PARTITIONS
    }
}

/// Partitioned heap: the partition array, the block store modelling the
/// heap memory, and the allocation state.
pub struct PartitionedHeap {
    pub partitions: Vec<Partition>,
    pub heap_base: usize,
    /// Index of the partition currently used for allocations.
    pub allocation_index: usize,
    pub evacuating: bool,
    pub reclaimed: u64,
    /// The block store: every allocated block, keyed by its address.
    pub blocks: HashMap<usize, Block>,
}

impl PartitionedHeap {
    pub open spec fn spec_blocks(self) -> Map<usize, Block> {
        self.blocks@
    }

    pub open spec fn spec_partition(self, index: int) -> Partition {
        self.partitions@[index]
    }

    /// The address lies in the dynamic space of the non-free partition that
    /// contains it.
    pub open spec fn spec_in_dynamic_space(self, addr: int) -> bool {
        let index = addr / (PARTITION_SIZE as int);
        &&& 0 <= index < MAX_PARTITIONS
        &&& !self.spec_partition(index).free
        &&& self.spec_partition(index).spec_dynamic_start() <= addr < self.spec_partition(
            index,
        ).spec_dynamic_end()
    }

    /// Every non-free partition without large content has its dynamic space
    /// exactly tiled by blocks.
    pub open spec fn spec_tiling_wf(self) -> bool {
        forall|i: int|
            0 <= i < MAX_PARTITIONS && !(#[trigger] self.partitions@[i]).free
                && !self.spec_partition(i).large_content ==> spec_tiled(
                self.spec_blocks(),
                self.spec_partition(i).spec_dynamic_start(),
                self.spec_partition(i).spec_dynamic_end(),
            )
    }

    /// Number of partitions occupied by a large object of the given size.
    pub open spec fn spec_run_length(size: int) -> int {
        (size + PARTITION_SIZE - 1) / (PARTITION_SIZE as int)
    }

    /// Well-formed large-object run with head partition `head`: the block
    /// at the start of the head partition spans the whole run, all member
    /// partitions are flagged as large content and record the spanned
    /// sizes, and the run lies within the partition array.
    pub open spec fn spec_large_run_wf(self, head: int) -> bool {
        let addr = head * PARTITION_SIZE;
        let block = self.spec_blocks()[addr as usize];
        let size = spec_block_size_of(block);
        let length = Self::spec_run_length(size);
        &&& 0 <= head < MAX_PARTITIONS
        &&& self.spec_blocks().contains_key(addr as usize)
        &&& spec_wf_block(block)
        &&& size > PARTITION_SIZE
        &&& head + length <= MAX_PARTITIONS
        &&& forall|j: int|
            head <= j < head + length ==> (#[trigger] self.partitions@[j]).large_content
                && self.spec_partition(j).spec_large_head() == head && self.spec_partition(
                j,
            ).dynamic_size == (if j < head + length - 1 {
                PARTITION_SIZE as int
            } else {
                size - (length - 1) * PARTITION_SIZE
            })
    }

    /// Every partition flagged as large content belongs to the well-formed
    /// run of its head.
    pub open spec fn spec_large_wf(self) -> bool {
        forall|i: int|
            0 <= i < MAX_PARTITIONS && (#[trigger] self.partitions@[i]).large_content
                ==> self.spec_large_run_wf(self.spec_partition(i).spec_large_head())
                    && self.spec_partition(i).spec_large_head() <= i < self.spec_partition(
                    i,
                ).spec_large_head() + Self::spec_run_length(
                    spec_size_at(
                        self.spec_blocks(),
                        self.spec_partition(i).spec_large_head() * PARTITION_SIZE,
                    ),
                )
    }

    /// Global well-formedness of the heap.
    pub open spec fn wf(self) -> bool {
        &&& self.partitions@.len() == MAX_PARTITIONS
        &&& forall|i: int|
            0 <= i < MAX_PARTITIONS ==> (#[trigger] self.partitions@[i]).spec_wf(i)
        &&& 0 <= self.allocation_index < MAX_PARTITIONS
        &&& !self.spec_partition(self.allocation_index as int).free
        &&& !self.spec_partition(self.allocation_index as int).large_content
        &&& !self.spec_partition(self.allocation_index as int).evacuate
        &&& forall|i: int|
            0 <= i < MAX_PARTITIONS && (#[trigger] self.partitions@[i]).evacuate ==> i
                != self.allocation_index && self.evacuating
        &&& self.spec_tiling_wf()
        &&& self.spec_large_wf()
        &&& self.heap_base as int % (WORD_SIZE as int) == 0
        &&& 0 < self.heap_base < MAX_PARTITIONS * PARTITION_SIZE
        &&& self.partitions@[0].static_size > 0
    }

    /// Create the partitioned heap over the given base address: everything
    /// below the base is static space, the partition holding the base
    /// becomes the allocation partition, and all later partitions are free.
    #[verifier::rlimit(100)]
    pub fn new<M: Memory>(memory: &mut M, heap_base: usize) -> (heap: PartitionedHeap)
        requires
            heap_base as int % (WORD_SIZE as int) == 0,
            0 < heap_base < MAX_PARTITIONS * PARTITION_SIZE,
        ensures
            heap.wf(),
            heap.heap_base == heap_base,
            heap.allocation_index == heap_base / PARTITION_SIZE,
            heap.spec_blocks() == Map::<usize, Block>::empty(),
            heap.reclaimed == 0,
            !heap.evacuating,
            forall|i: int|
                0 <= i < MAX_PARTITIONS ==> (#[trigger] heap.partitions@[i]).marked_size == 0
                    && !heap.spec_partition(i).evacuate && !heap.spec_partition(i).update
                    && !heap.spec_partition(i).large_content && heap.spec_partition(i).dynamic_size
                    == 0,
            forall|i: int|
                0 <= i < MAX_PARTITIONS ==> (#[trigger] heap.partitions@[i]).free == (i
                    > heap_base as int / (PARTITION_SIZE as int)),
            forall|i: int|
                0 <= i < MAX_PARTITIONS ==> (#[trigger] heap.partitions@[i]).static_size == (
                if i < heap_base as int / (PARTITION_SIZE as int) {
                    PARTITION_SIZE as int
                } else if i == heap_base as int / (PARTITION_SIZE as int) {
                    heap_base as int % (PARTITION_SIZE as int)
                } else {
                    0int
                }),
            heap.spec_partition(heap_base as int / (PARTITION_SIZE as int)).spec_dynamic_start()
                == heap_base,
            final(memory).spec_committed() >= (heap_base as int / (PARTITION_SIZE as int))
                * PARTITION_SIZE + PARTITION_SIZE,
            final(memory).spec_committed() >= old(memory).spec_committed(),
    {
        let allocation_index: usize = heap_base / PARTITION_SIZE;
        proof {
            assert(heap_base as int / (PARTITION_SIZE as int) < MAX_PARTITIONS)
                by (nonlinear_arith)
                requires
                    heap_base < MAX_PARTITIONS * PARTITION_SIZE,
                    heap_base >= 0,
            ;
            lemma_partition_bounds(allocation_index as int);
        }
        memory.grow_memory(((allocation_index * PARTITION_SIZE + PARTITION_SIZE) as u64));
        let mut partitions: Vec<Partition> = Vec::new();
        loop
            invariant
                partitions@.len() <= MAX_PARTITIONS,
                allocation_index == heap_base as int / (PARTITION_SIZE as int),
                heap_base < MAX_PARTITIONS * PARTITION_SIZE,
                heap_base as int % (WORD_SIZE as int) == 0,
                forall|i: int|
                    0 <= i < partitions@.len() ==> (#[trigger] partitions@[i]).spec_wf(i),
                forall|i: int|
                    0 <= i < partitions@.len() ==> (#[trigger] partitions@[i]).marked_size == 0
                        && !partitions@[i].evacuate && !partitions@[i].update
                        && !partitions@[i].large_content && partitions@[i].dynamic_size == 0
                        && !partitions@[i].bitmap.spec_assigned(),
                forall|i: int|
                    0 <= i < partitions@.len() ==> (#[trigger] partitions@[i]).free == (i
                        > allocation_index as int),
                forall|i: int|
                    0 <= i < partitions@.len() ==> (#[trigger] partitions@[i]).static_size == (
                    if i < allocation_index as int {
                        PARTITION_SIZE as int
                    } else if i == allocation_index as int {
                        heap_base as int % (PARTITION_SIZE as int)
                    } else {
                        0int
                    }),
            ensures
                partitions@.len() == MAX_PARTITIONS,
                forall|i: int|
                    0 <= i < partitions@.len() ==> (#[trigger] partitions@[i]).spec_wf(i),
                forall|i: int|
                    0 <= i < partitions@.len() ==> (#[trigger] partitions@[i]).marked_size == 0
                        && !partitions@[i].evacuate && !partitions@[i].update
                        && !partitions@[i].large_content && partitions@[i].dynamic_size == 0
                        && !partitions@[i].bitmap.spec_assigned(),
                forall|i: int|
                    0 <= i < partitions@.len() ==> (#[trigger] partitions@[i]).free == (i
                        > allocation_index as int),
                forall|i: int|
                    0 <= i < partitions@.len() ==> (#[trigger] partitions@[i]).static_size == (
                    if i < allocation_index as int {
                        PARTITION_SIZE as int
                    } else if i == allocation_index as int {
                        heap_base as int % (PARTITION_SIZE as int)
                    } else {
                        0int
                    }),
            decreases MAX_PARTITIONS - partitions@.len(),
        {
            let index = partitions.len();
            if index == MAX_PARTITIONS {
                break ;
            }
            let static_size: usize = if index < allocation_index {
                PARTITION_SIZE
            } else if index == allocation_index {
                heap_base % PARTITION_SIZE
            } else {
                0
            };
            proof {
                assert(heap_base as int % (PARTITION_SIZE as int) % (WORD_SIZE as int) == 0)
                    by (nonlinear_arith)
                    requires
                        heap_base as int % (WORD_SIZE as int) == 0,
                ;
            }
            partitions.push(
                Partition {
                    index,
                    free: index > allocation_index,
                    large_content: false,
                    marked_size: 0,
                    static_size,
                    dynamic_size: 0,
                    evacuate: false,
                    update: false,
                    bitmap: MarkBitmap::new(),
                    large_head: 0,
                },
            );
        }
        let heap = PartitionedHeap {
            partitions,
            heap_base,
            allocation_index,
            evacuating: false,
            reclaimed: 0,
            blocks: HashMap::new(),
        };
        proof {
            vstd::arithmetic::div_mod::lemma_fundamental_div_mod(
                heap_base as int,
                PARTITION_SIZE as int,
            );
            lemma_partition_bounds(allocation_index as int);
            assert((allocation_index as int) * (PARTITION_SIZE as int) == (PARTITION_SIZE as int)
                * (allocation_index as int)) by (nonlinear_arith);
            assert(heap.partitions@[0].static_size > 0) by {
                if allocation_index == 0 {
                    assert(heap_base as int % (PARTITION_SIZE as int) == heap_base)
                        by (nonlinear_arith)
                        requires
                            0 <= heap_base,
                            heap_base as int / (PARTITION_SIZE as int) == 0,
                    ;
                }
            }
            assert forall|i: int|
                0 <= i < MAX_PARTITIONS && !(#[trigger] heap.partitions@[i]).free && !heap
                    .spec_partition(i).large_content implies spec_tiled(
                heap.spec_blocks(),
                heap.spec_partition(i).spec_dynamic_start(),
                heap.spec_partition(i).spec_dynamic_end(),
            ) by {
                assert(heap.spec_partition(i).dynamic_size == 0);
            }
        }
        heap
    }

    pub fn base_address(&self) -> (address: usize)
        ensures
            address == self.heap_base,
    {
        self.heap_base
    }

    pub fn get_partition(&self, index: usize) -> (partition: &Partition)
        requires
            self.wf(),
            index < MAX_PARTITIONS,
        ensures
            *partition == self.spec_partition(index as int),
    {
        &self.partitions[index]
    }

    pub fn is_allocation_partition(&self, index: usize) -> (r: bool)
        ensures
            r == (self.allocation_index == index),
    {
        self.allocation_index == index
    }

    /// Select every candidate partition for evacuation: not free, no large
    /// content, not the allocation partition, with dynamic capacity and a
    /// survival rate of at most the threshold.
    pub fn plan_evacuations(&mut self)
        requires
            old(self).wf(),
        ensures
            final(self).wf(),
            forall|i: int|
                0 <= i < MAX_PARTITIONS ==> (#[trigger] final(self).partitions@[i]).evacuate
                    == old(self).spec_partition(i).spec_evacuation_candidate(
                    old(self).allocation_index as int,
                ),
            forall|i: int|
                0 <= i < MAX_PARTITIONS ==> (#[trigger] final(self).partitions@[i]) == (
                Partition {
                    evacuate: final(self).spec_partition(i).evacuate,
                    ..old(self).spec_partition(i)
                }),
            final(self).allocation_index == old(self).allocation_index,
            final(self).heap_base == old(self).heap_base,
            final(self).reclaimed == old(self).reclaimed,
            final(self).spec_blocks() == old(self).spec_blocks(),
    {
        let ghost heap0 = *self;
        let mut index: usize = 0;
        while index < MAX_PARTITIONS
            invariant
                heap0 == *old(self),
                heap0.wf(),
                self.partitions@.len() == MAX_PARTITIONS,
                index <= MAX_PARTITIONS,
                self.allocation_index == heap0.allocation_index,
                self.heap_base == heap0.heap_base,
                self.reclaimed == heap0.reclaimed,
                self.spec_blocks() == heap0.spec_blocks(),
                forall|i: int|
                    index <= i < MAX_PARTITIONS ==> (#[trigger] self.partitions@[i])
                        == heap0.spec_partition(i),
                forall|i: int|
                    0 <= i < index ==> (#[trigger] self.partitions@[i]) == (Partition {
                        evacuate: heap0.spec_partition(i).spec_evacuation_candidate(
                            heap0.allocation_index as int,
                        ),
                        ..heap0.spec_partition(i)
                    }),
                heap0.evacuating ==> self.evacuating,
                forall|i: int|
                    0 <= i < index && (#[trigger] self.partitions@[i]).evacuate
                        ==> self.evacuating,
            decreases MAX_PARTITIONS - index,
        {
            let allocation_index = self.allocation_index;
            proof {
                assert(self.spec_partition(index as int) == heap0.spec_partition(index as int));
                assert(heap0.spec_partition(index as int).spec_wf(index as int));
            }
            let probe = &self.partitions[index];
            let candidate = allocation_index != probe.index && !probe.free
                && !probe.large_content && probe.static_size < PARTITION_SIZE
                && probe.has_low_survival_rate();
            let partition = &mut self.partitions[index];
            partition.evacuate = candidate;
            self.evacuating = self.evacuating || candidate;
            index = index + 1;
        }
        proof {
            assert forall|i: int|
                0 <= i < MAX_PARTITIONS implies (#[trigger] self.partitions@[i]).spec_wf(
                i,
            ) by {
                assert(heap0.spec_partition(i).spec_wf(i));
            }
            assert forall|i: int|
                0 <= i < MAX_PARTITIONS && !(#[trigger] self.partitions@[i]).free && !self
                .spec_partition(i).large_content implies spec_tiled(
                self.spec_blocks(),
                self.spec_partition(i).spec_dynamic_start(),
                self.spec_partition(i).spec_dynamic_end(),
            ) by {
                assert(heap0.spec_partition(i).spec_wf(i));
            }
            lemma_large_wf_preserved(heap0, *self);
        }
    }

    /// Select every non-free, non-evacuating partition for pointer updates.
    pub fn plan_updates(&mut self)
        requires
            old(self).wf(),
        ensures
            final(self).wf(),
            forall|i: int|
                0 <= i < MAX_PARTITIONS ==> (#[trigger] final(self).partitions@[i]).update == (
                !old(self).spec_partition(i).free && !old(self).spec_partition(i).evacuate),
            forall|i: int|
                0 <= i < MAX_PARTITIONS ==> (#[trigger] final(self).partitions@[i]) == (
                Partition { update: final(self).spec_partition(i).update, ..old(self).spec_partition(i) }),
            final(self).allocation_index == old(self).allocation_index,
            final(self).heap_base == old(self).heap_base,
            final(self).reclaimed == old(self).reclaimed,
            final(self).evacuating == old(self).evacuating,
            final(self).spec_blocks() == old(self).spec_blocks(),
    {
        let ghost heap0 = *self;
        let mut index: usize = 0;
        while index < MAX_PARTITIONS
            invariant
                heap0 == *old(self),
                heap0.wf(),
                self.partitions@.len() == MAX_PARTITIONS,
                index <= MAX_PARTITIONS,
                self.allocation_index == heap0.allocation_index,
                self.heap_base == heap0.heap_base,
                self.reclaimed == heap0.reclaimed,
                self.evacuating == heap0.evacuating,
                self.spec_blocks() == heap0.spec_blocks(),
                forall|i: int|
                    index <= i < MAX_PARTITIONS ==> (#[trigger] self.partitions@[i])
                        == heap0.spec_partition(i),
                forall|i: int|
                    0 <= i < index ==> (#[trigger] self.partitions@[i]) == (Partition {
                        update: !heap0.spec_partition(i).free && !heap0.spec_partition(
                            i,
                        ).evacuate,
                        ..heap0.spec_partition(i)
                    }),
            decreases MAX_PARTITIONS - index,
        {
            proof {
                assert(self.spec_partition(index as int) == heap0.spec_partition(index as int));
            }
            let partition = &mut self.partitions[index];
            partition.update = !partition.free && !partition.evacuate;
            index = index + 1;
        }
        proof {
            assert forall|i: int|
                0 <= i < MAX_PARTITIONS implies (#[trigger] self.partitions@[i]).spec_wf(
                i,
            ) by {
                assert(heap0.spec_partition(i).spec_wf(i));
            }
            assert forall|i: int|
                0 <= i < MAX_PARTITIONS && !(#[trigger] self.partitions@[i]).free && !self
                .spec_partition(i).large_content implies spec_tiled(
                self.spec_blocks(),
                self.spec_partition(i).spec_dynamic_start(),
                self.spec_partition(i).spec_dynamic_end(),
            ) by {
                assert(heap0.spec_partition(i).spec_wf(i));
            }
            lemma_large_wf_preserved(heap0, *self);
        }
    }

    /// Whether pointer updates are needed because evacuations are planned
    /// or in progress.
    pub fn updates_needed(&self) -> (needed: bool)
        ensures
            needed == self.evacuating,
    {
        self.evacuating
    }

    pub fn reclaimed_size(&self) -> (size: u64)
        ensures
            size == self.reclaimed,
    {
        self.reclaimed
    }

    /// Total bytes of static and dynamic space over all partitions.
    pub fn occupied_size(&self) -> (size: u64)
        requires
            self.wf(),
        ensures
            size == spec_occupied_sum(self.partitions@, MAX_PARTITIONS as int),
    {
        let mut index: usize = 0;
        let mut sum: u64 = 0;
        while index < MAX_PARTITIONS
            invariant
                self.wf(),
                index <= MAX_PARTITIONS,
                sum == spec_occupied_sum(self.partitions@, index as int),
                sum <= index * PARTITION_SIZE,
            decreases MAX_PARTITIONS - index,
        {
            let partition = &self.partitions[index];
            proof {
                assert(self.spec_partition(index as int).spec_wf(index as int));
                assert((index + 1) * PARTITION_SIZE == index * PARTITION_SIZE + PARTITION_SIZE)
                    by (nonlinear_arith)
                ;
                assert(MAX_PARTITIONS * PARTITION_SIZE < u64::MAX);
                assert(index * PARTITION_SIZE <= MAX_PARTITIONS * PARTITION_SIZE)
                    by (nonlinear_arith)
                    requires
                        index <= MAX_PARTITIONS,
                ;
            }
            sum = sum + (partition.static_size as u64) + (partition.dynamic_size as u64);
            index = index + 1;
            proof {
                assert(index as int * PARTITION_SIZE <= MAX_PARTITIONS as int * PARTITION_SIZE)
                    by (nonlinear_arith)
                    requires
                        index <= MAX_PARTITIONS,
                ;
            }
        }
        sum
    }
}

/// Sum of static and dynamic sizes of the first `count` partitions.
pub open spec fn spec_occupied_sum(partitions: Seq<Partition>, count: int) -> int
    decreases count,
{
    if count <= 0 {
        0
    } else {
        spec_occupied_sum(partitions, count - 1) + partitions[count - 1].static_size
            + partitions[count - 1].dynamic_size
    }
}

/// Sum of `dynamic_size - marked_size` over the evacuating ones of the
/// first `count` partitions: the garbage amount reclaimed when they are
/// freed at the end of a collection.
pub open spec fn spec_reclaimed_sum(partitions: Seq<Partition>, count: int) -> int
    decreases count,
{
    if count <= 0 {
        0
    } else {
        spec_reclaimed_sum(partitions, count - 1) + (if partitions[count - 1].evacuate {
            partitions[count - 1].dynamic_size - partitions[count - 1].marked_size
        } else {
            0
        })
    }
}

impl PartitionedHeap {
    /// Every pointer field of a live block is word-aligned; a forwarding
    /// pointer either points back to its own block or to a live block that
    /// is forwarded to itself. The latter holds because a copy made by
    /// evacuation starts out forwarded to itself.
    pub open spec fn spec_forward_wf(self) -> bool {
        forall|addr: int|
            #![trigger self.spec_blocks().contains_key(addr as usize)]
            self.spec_in_dynamic_space(addr) && self.spec_blocks().contains_key(addr as usize)
                ==> {
                let forward = self.spec_blocks()[addr as usize].forward;
                &&& forward.spec_is_ptr()
                &&& !forward.spec_is_null()
                &&& forward.spec_ptr() % (WORD_SIZE as int) == 0
                &&& (forward.spec_ptr() != addr ==> self.spec_in_dynamic_space(forward.spec_ptr())
                    && self.spec_blocks().contains_key(forward.spec_ptr() as usize)
                    && self.spec_blocks()[forward.spec_ptr() as usize].forward == forward)
            }
    }

    /// The abstract forwarding resolution: the address a value resolves to
    /// after following the forwarding pointer of the block it points to,
    /// if such a live block exists.
    pub open spec fn spec_forward_of(self, value: Value) -> Value {
        if value.spec_is_ptr() && !value.spec_is_null() && self.spec_in_dynamic_space(
            value.spec_ptr(),
        ) && self.spec_blocks().contains_key(value.spec_ptr() as usize) {
            self.spec_blocks()[value.spec_ptr() as usize].forward
        } else {
            value
        }
    }

    /// Whether a block is bound at the address.
    pub fn has_block(&self, address: usize) -> (present: bool)
        ensures
            present == self.spec_blocks().contains_key(address),
    {
        self.blocks.contains_key(&address)
    }

    /// The block bound at the address.
    pub fn get_block(&self, address: usize) -> (block: &Block)
        requires
            self.spec_blocks().contains_key(address),
        ensures
            *block == self.spec_blocks()[address],
    {
        self.blocks.get(&address).unwrap()
    }

    /// Read a payload word of the block at the address as a value.
    pub fn read_field(&self, address: usize, index: usize) -> (value: Value)
        requires
            self.spec_blocks().contains_key(address),
            index < self.spec_blocks()[address].payload@.len(),
        ensures
            value.spec_raw() == self.spec_blocks()[address].payload@[index as int],
    {
        let block = self.get_block(address);
        Value::from_raw(block.payload[index])
    }

    /// Write a pointer field of the block at the address. Only the fields
    /// inside the pointer-field range may be written, which keeps the block
    /// size and layout unchanged.
    pub fn write_field(&mut self, address: usize, index: usize, value: Value)
        requires
            old(self).wf(),
            old(self).spec_blocks().contains_key(address),
            spec_wf_block(old(self).spec_blocks()[address]),
            crate::types::spec_pointer_fields(
                old(self).spec_blocks()[address].tag,
                old(self).spec_blocks()[address].payload@.len() as int,
            ).0 <= index < crate::types::spec_pointer_fields(
                old(self).spec_blocks()[address].tag,
                old(self).spec_blocks()[address].payload@.len() as int,
            ).1,
            index < old(self).spec_blocks()[address].payload@.len(),
        ensures
            final(self).wf(),
            final(self).spec_blocks() == old(self).spec_blocks().insert(
                address,
                (Block {
                    payload: final(self).spec_blocks()[address].payload,
                    ..old(self).spec_blocks()[address]
                }),
            ),
            final(self).spec_blocks()[address].payload@ == old(self).spec_blocks()[address].payload@.update(index as int, value.spec_raw() as usize),
            final(self).partitions@ == old(self).partitions@,
            final(self).allocation_index == old(self).allocation_index,
            final(self).heap_base == old(self).heap_base,
            final(self).reclaimed == old(self).reclaimed,
            final(self).evacuating == old(self).evacuating,
            old(self).spec_forward_wf() ==> final(self).spec_forward_wf(),
    {
        let ghost pre = *self;
        let mut block = self.blocks.remove(&address).unwrap();
        block.payload.set(index, value.get_raw());
        proof {
            assert(block.payload@.len() == pre.spec_blocks()[address].payload@.len());
            if index != 0 {
                assert(block.payload@[0] == pre.spec_blocks()[address].payload@[0]);
            }
            assert(spec_wf_block(block));
            assert(spec_block_size_of(block) == spec_block_size_of(pre.spec_blocks()[address]));
        }
        self.blocks.insert(address, block);
        proof {
            assert(self.spec_blocks() =~= pre.spec_blocks().insert(
                address,
                self.spec_blocks()[address],
            ));
            lemma_wf_after_same_size_update(pre, *self, address);
            assert(final(self).spec_blocks() =~= old(self).spec_blocks().insert(
                address,
                final(self).spec_blocks()[address],
            ));
            if pre.spec_forward_wf() {
                assert forall|addr: int|
                    #![trigger self.spec_blocks().contains_key(addr as usize)]
                    self.spec_in_dynamic_space(addr) && self.spec_blocks().contains_key(
                        addr as usize,
                    ) implies {
                    let forward = self.spec_blocks()[addr as usize].forward;
                    &&& forward.spec_is_ptr()
                    &&& !forward.spec_is_null()
                    &&& forward.spec_ptr() % (WORD_SIZE as int) == 0
                    &&& (forward.spec_ptr() != addr ==> self.spec_in_dynamic_space(
                        forward.spec_ptr(),
                    ) && self.spec_blocks().contains_key(forward.spec_ptr() as usize)
                        && self.spec_blocks()[forward.spec_ptr() as usize].forward == forward)
                } by {
                    assert(pre.spec_blocks().contains_key(addr as usize));
                    assert(self.spec_blocks()[addr as usize].forward
                        == pre.spec_blocks()[addr as usize].forward);
                }
            }
        }
    }

    /// Overwrite the tag word of the block at the address with one of the
    /// same layout: used by the array slicing protocol of the mark phase.
    pub fn set_tag(&mut self, address: usize, tag: usize)
        requires
            old(self).wf(),
            old(self).spec_blocks().contains_key(address),
            spec_wf_block(old(self).spec_blocks()[address]),
            spec_wf_block((Block { tag, ..old(self).spec_blocks()[address] })),
            spec_block_size_of((Block { tag, ..old(self).spec_blocks()[address] }))
                == spec_block_size_of(old(self).spec_blocks()[address]),
        ensures
            final(self).wf(),
            final(self).spec_blocks() == old(self).spec_blocks().insert(
                address,
                (Block { tag, ..old(self).spec_blocks()[address] }),
            ),
            final(self).partitions@ == old(self).partitions@,
            final(self).allocation_index == old(self).allocation_index,
            final(self).heap_base == old(self).heap_base,
            final(self).reclaimed == old(self).reclaimed,
            final(self).evacuating == old(self).evacuating,
            old(self).spec_forward_wf() ==> final(self).spec_forward_wf(),
    {
        let ghost pre = *self;
        let mut block = self.blocks.remove(&address).unwrap();
        block.tag = tag;
        self.blocks.insert(address, block);
        proof {
            assert(self.spec_blocks() =~= pre.spec_blocks().insert(
                address,
                self.spec_blocks()[address],
            ));
            lemma_wf_after_same_size_update(pre, *self, address);
            assert(final(self).spec_blocks() =~= old(self).spec_blocks().insert(
                address,
                (Block { tag, ..old(self).spec_blocks()[address] }),
            ));
            lemma_forward_unchanged(pre, *self);
        }
    }

    /// Install a forwarding pointer in the block at the address.
    pub fn set_forward(&mut self, address: usize, forward: Value)
        requires
            old(self).wf(),
            old(self).spec_blocks().contains_key(address),
        ensures
            final(self).wf(),
            final(self).spec_blocks() == old(self).spec_blocks().insert(
                address,
                (Block { forward, ..old(self).spec_blocks()[address] }),
            ),
            final(self).partitions@ == old(self).partitions@,
            final(self).allocation_index == old(self).allocation_index,
            final(self).heap_base == old(self).heap_base,
            final(self).reclaimed == old(self).reclaimed,
            final(self).evacuating == old(self).evacuating,
            // Installing a forwarding pointer keeps the forwarding
            // well-formedness provided the new target is a live,
            // word-aligned, self-forwarded block and no other live block
            // forwards to the overwritten one, as evacuation guarantees.
            old(self).spec_forward_wf() && forward.spec_is_ptr() && !forward.spec_is_null()
                && forward.spec_ptr() % (WORD_SIZE as int) == 0 && old(self).spec_in_dynamic_space(forward.spec_ptr()) && old(self).spec_blocks().contains_key(
                forward.spec_ptr() as usize,
            ) && old(self).spec_blocks()[forward.spec_ptr() as usize].forward == forward && (
            forall|k: int|
                old(self).spec_in_dynamic_space(k) && old(self).spec_blocks().contains_key(
                    k as usize,
                ) && k != address ==> (#[trigger] old(self).spec_blocks()[k as usize]).forward.spec_ptr() != address) ==> final(self).spec_forward_wf(),
    {
        let ghost pre = *self;
        let mut block = self.blocks.remove(&address).unwrap();
        block.forward = forward;
        self.blocks.insert(address, block);
        proof {
            assert(self.spec_blocks() =~= pre.spec_blocks().insert(
                address,
                self.spec_blocks()[address],
            ));
            lemma_wf_after_same_size_update(pre, *self, address);
            assert(final(self).spec_blocks() =~= old(self).spec_blocks().insert(
                address,
                (Block { forward, ..old(self).spec_blocks()[address] }),
            ));
        }
    }

    /// Set the mark state of the block at the address.
    pub fn set_mark(&mut self, address: usize, marked: bool)
        requires
            old(self).wf(),
            old(self).spec_blocks().contains_key(address),
        ensures
            final(self).wf(),
            final(self).spec_blocks() == old(self).spec_blocks().insert(
                address,
                (Block { marked, ..old(self).spec_blocks()[address] }),
            ),
            final(self).partitions@ == old(self).partitions@,
            final(self).allocation_index == old(self).allocation_index,
            final(self).heap_base == old(self).heap_base,
            final(self).reclaimed == old(self).reclaimed,
            final(self).evacuating == old(self).evacuating,
            old(self).spec_forward_wf() ==> final(self).spec_forward_wf(),
    {
        let ghost pre = *self;
        let mut block = self.blocks.remove(&address).unwrap();
        block.marked = marked;
        self.blocks.insert(address, block);
        proof {
            assert(self.spec_blocks() =~= pre.spec_blocks().insert(
                address,
                self.spec_blocks()[address],
            ));
            lemma_wf_after_same_size_update(pre, *self, address);
            assert(final(self).spec_blocks() =~= old(self).spec_blocks().insert(
                address,
                (Block { marked, ..old(self).spec_blocks()[address] }),
            ));
            lemma_forward_unchanged(pre, *self);
        }
    }

    /// Resolve a value through the forwarding pointer of the block it
    /// points to: if the block is forwarded, the forwarded value is
    /// returned, otherwise the value itself.
    pub fn forward_if_possible(&self, value: Value) -> (forwarded: Value)
        requires
            self.wf(),
        ensures
            forwarded == self.spec_forward_of(value),
    {
        if value.is_non_null_ptr() {
            let address = value.get_ptr();
            let index = address / PARTITION_SIZE;
            if index < MAX_PARTITIONS && index < self.partitions.len() {
                let partition = &self.partitions[index];
                proof {
                    assert(self.partitions@[index as int].spec_wf(index as int));
                }
                if !partition.free && address >= partition.dynamic_space_start()
                    && address < partition.dynamic_space_end() && self.blocks.contains_key(
                    &address,
                ) {
                    proof {
                        lemma_partition_bounds(index as int);
                    }
                    return Value::from_raw(self.get_block(address).forward.get_raw());
                }
            }
            value
        } else {
            value
        }
    }

    /// Whether the value is a non-null pointer to a live block of the
    /// dynamic heap.
    pub fn is_live_pointer(&self, value: Value) -> (live: bool)
        requires
            self.wf(),
        ensures
            live == (value.spec_is_ptr() && !value.spec_is_null() && self.spec_in_dynamic_space(
                value.spec_ptr(),
            ) && self.spec_blocks().contains_key(value.spec_ptr() as usize)),
    {
        if !value.is_non_null_ptr() {
            return false;
        }
        let address = value.get_ptr();
        let index = address / PARTITION_SIZE;
        if index >= MAX_PARTITIONS || index >= self.partitions.len() {
            return false;
        }
        let partition = &self.partitions[index];
        proof {
            assert(self.partitions@[index as int].spec_wf(index as int));
        }
        !partition.free && address >= partition.dynamic_space_start()
            && address < partition.dynamic_space_end() && self.blocks.contains_key(&address)
    }

    /// Clean up after a garbage collection run: free the evacuated
    /// partitions, accumulating the reclaimed garbage amount, and clear all
    /// per-partition cycle state including the mark bitmaps.
    pub fn complete_collection(&mut self)
        requires
            old(self).wf(),
        ensures
            final(self).wf(),
            !final(self).evacuating,
            final(self).allocation_index == old(self).allocation_index,
            final(self).heap_base == old(self).heap_base,
            final(self).spec_blocks() == old(self).spec_blocks(),
            final(self).reclaimed == spec_sat_add64(
                old(self).reclaimed as int,
                spec_reclaimed_sum(old(self).partitions@, MAX_PARTITIONS as int),
            ),
            forall|i: int|
                0 <= i < MAX_PARTITIONS ==> (#[trigger] final(self).partitions@[i]).marked_size
                    == 0 && !final(self).partitions@[i].update && !final(self).partitions@[i].evacuate && !final(self).partitions@[i].bitmap.spec_assigned(),
            forall|i: int|
                0 <= i < MAX_PARTITIONS ==> (#[trigger] final(self).partitions@[i]).free == (old(self).partitions@[i].free || old(self).partitions@[i].evacuate),
            forall|i: int|
                0 <= i < MAX_PARTITIONS ==> (#[trigger] final(self).partitions@[i]).static_size
                    == old(self).partitions@[i].static_size && final(self).partitions@[i].large_content == old(self).partitions@[i].large_content && final(self).partitions@[i].index == old(self).partitions@[i].index,
            forall|i: int|
                0 <= i < MAX_PARTITIONS && !old(self).partitions@[i].evacuate ==> (
                #[trigger] final(self).partitions@[i]).dynamic_size == old(self).partitions@[i].dynamic_size,
    {
        let ghost heap0 = *self;
        let mut index: usize = 0;
        while index < MAX_PARTITIONS
            invariant
                heap0 == *old(self),
                heap0.wf(),
                self.partitions@.len() == MAX_PARTITIONS,
                index <= MAX_PARTITIONS,
                self.allocation_index == heap0.allocation_index,
                self.heap_base == heap0.heap_base,
                self.evacuating == heap0.evacuating,
                self.spec_blocks() == heap0.spec_blocks(),
                self.reclaimed == spec_sat_add64(
                    heap0.reclaimed as int,
                    spec_reclaimed_sum(heap0.partitions@, index as int),
                ),
                forall|i: int|
                    index <= i < MAX_PARTITIONS ==> (#[trigger] self.partitions@[i])
                        == heap0.partitions@[i],
                forall|i: int|
                    0 <= i < index ==> (#[trigger] self.partitions@[i]).marked_size == 0
                        && !self.partitions@[i].update && !self.partitions@[i].evacuate
                        && !self.partitions@[i].bitmap.spec_assigned(),
                forall|i: int|
                    0 <= i < index ==> (#[trigger] self.partitions@[i]).free == (
                    heap0.partitions@[i].free || heap0.partitions@[i].evacuate),
                forall|i: int|
                    0 <= i < index ==> (#[trigger] self.partitions@[i]).static_size
                        == heap0.partitions@[i].static_size && self.partitions@[i].large_content
                        == heap0.partitions@[i].large_content && self.partitions@[i].index
                        == heap0.partitions@[i].index && self.partitions@[i].large_head
                        == heap0.partitions@[i].large_head,
                forall|i: int|
                    0 <= i < index && !heap0.partitions@[i].evacuate ==> (
                    #[trigger] self.partitions@[i]).dynamic_size
                        == heap0.partitions@[i].dynamic_size,
                forall|i: int|
                    0 <= i < index ==> (#[trigger] self.partitions@[i]).spec_wf(i),
            decreases MAX_PARTITIONS - index,
        {
            proof {
                assert(self.partitions@[index as int] == heap0.partitions@[index as int]);
                assert(heap0.partitions@[index as int].spec_wf(index as int));
            }
            let partition = &mut self.partitions[index];
            let marked_size = partition.marked_size;
            partition.update = false;
            partition.marked_size = 0;
            partition.bitmap.release();
            if partition.to_be_evacuated() {
                let reclaimed_now = partition.dynamic_size - marked_size;
                partition.free = true;
                partition.dynamic_size = 0;
                partition.evacuate = false;
                partition.large_content = false;
                self.reclaimed = self.reclaimed.saturating_add(reclaimed_now as u64);
            }
            index = index + 1;
        }
        self.evacuating = false;
        proof {
            assert forall|i: int|
                0 <= i < MAX_PARTITIONS && !(#[trigger] self.partitions@[i]).free && !self
                .partitions@[i].large_content implies spec_tiled(
                self.spec_blocks(),
                self.spec_partition(i).spec_dynamic_start(),
                self.spec_partition(i).spec_dynamic_end(),
            ) by {
                assert(!heap0.partitions@[i].free && !heap0.partitions@[i].large_content);
                assert(self.partitions@[i].dynamic_size == heap0.partitions@[i].dynamic_size);
                assert(heap0.spec_tiling_wf());
            }
            lemma_large_wf_preserved(heap0, *self);
        }
    }
}

/// Replacing a block by one of the same size and layout class preserves the
/// whole heap well-formedness: every tiling and every large-object run only
/// depends on block sizes and structural well-formedness.
pub proof fn lemma_wf_after_same_size_update(
    pre: PartitionedHeap,
    post: PartitionedHeap,
    address: usize,
)
    requires
        pre.wf(),
        pre.spec_blocks().contains_key(address),
        post.partitions@ == pre.partitions@,
        post.allocation_index == pre.allocation_index,
        post.heap_base == pre.heap_base,
        post.evacuating == pre.evacuating,
        post.spec_blocks() == pre.spec_blocks().insert(address, post.spec_blocks()[address]),
        post.spec_blocks().contains_key(address),
        spec_wf_block(post.spec_blocks()[address]) == spec_wf_block(pre.spec_blocks()[address]),
        spec_block_size_of(post.spec_blocks()[address]) == spec_block_size_of(
            pre.spec_blocks()[address],
        ),
    ensures
        post.wf(),
{
    assert forall|i: int|
        0 <= i < MAX_PARTITIONS && !(#[trigger] post.partitions@[i]).free && !post
        .partitions@[i].large_content implies spec_tiled(
        post.spec_blocks(),
        post.spec_partition(i).spec_dynamic_start(),
        post.spec_partition(i).spec_dynamic_end(),
    ) by {
        assert(pre.spec_partition(i).spec_wf(i));
        lemma_partition_bounds(i);
        lemma_tiled_update_same_size(
            pre.spec_blocks(),
            pre.spec_partition(i).spec_dynamic_start(),
            pre.spec_partition(i).spec_dynamic_end(),
            address,
            post.spec_blocks()[address],
        );
    }
    assert forall|i: int|
        0 <= i < MAX_PARTITIONS && (#[trigger] post.partitions@[i]).large_content implies post
        .spec_large_run_wf(post.spec_partition(i).spec_large_head()) && post.spec_partition(
        i,
    ).spec_large_head() <= i < post.spec_partition(i).spec_large_head()
        + PartitionedHeap::spec_run_length(
        spec_size_at(post.spec_blocks(), post.spec_partition(i).spec_large_head()
            * PARTITION_SIZE),
    ) by {
        let h = post.spec_partition(i).spec_large_head();
        assert(pre.spec_large_run_wf(h));
        assert(spec_size_at(post.spec_blocks(), h * PARTITION_SIZE) == spec_size_at(
            pre.spec_blocks(),
            h * PARTITION_SIZE,
        ));
        assert(spec_wf_block(post.spec_blocks()[(h * PARTITION_SIZE) as usize]));
    }
}

/// The large-object structure is preserved by any change that keeps the
/// large-content classification, the run heads, the dynamic sizes of large
/// partitions and the head blocks themselves: the common case of metadata
/// updates such as planning flags, mark accounting and bitmap binding.
pub proof fn lemma_large_wf_preserved(pre: PartitionedHeap, post: PartitionedHeap)
    requires
        pre.wf(),
        post.partitions@.len() == MAX_PARTITIONS,
        forall|i: int|
            0 <= i < MAX_PARTITIONS ==> ((#[trigger] post.partitions@[i]).large_content
                == pre.partitions@[i].large_content && post.partitions@[i].large_head
                == pre.partitions@[i].large_head && (pre.partitions@[i].large_content
                ==> post.partitions@[i].dynamic_size == pre.partitions@[i].dynamic_size)),
        forall|i: int|
            0 <= i < MAX_PARTITIONS && (#[trigger] pre.partitions@[i]).large_content
                ==> post.spec_blocks().contains_key(
                (pre.partitions@[i].spec_large_head() * PARTITION_SIZE) as usize,
            ) && post.spec_blocks()[(pre.partitions@[i].spec_large_head() * PARTITION_SIZE)
                as usize] == pre.spec_blocks()[(pre.partitions@[i].spec_large_head()
                * PARTITION_SIZE) as usize],
    ensures
        post.spec_large_wf(),
{
    assert forall|i: int|
        0 <= i < MAX_PARTITIONS && (#[trigger] post.partitions@[i]).large_content implies post
        .spec_large_run_wf(post.spec_partition(i).spec_large_head()) && post.spec_partition(
        i,
    ).spec_large_head() <= i < post.spec_partition(i).spec_large_head()
        + PartitionedHeap::spec_run_length(
        spec_size_at(post.spec_blocks(), post.spec_partition(i).spec_large_head()
            * PARTITION_SIZE),
    ) by {
        let h = post.spec_partition(i).spec_large_head();
        assert(pre.partitions@[i].large_content);
        assert(h == pre.spec_partition(i).spec_large_head());
        assert(pre.spec_large_run_wf(h));
        assert(pre.partitions@[h].large_content);
        assert(post.spec_blocks()[(h * PARTITION_SIZE) as usize] == pre.spec_blocks()[(h
            * PARTITION_SIZE) as usize]);
        assert forall|j: int|
            h <= j < h + PartitionedHeap::spec_run_length(
                spec_size_at(pre.spec_blocks(), h * PARTITION_SIZE),
            ) implies (#[trigger] post.partitions@[j]).large_content && post.spec_partition(
            j,
        ).spec_large_head() == h && post.spec_partition(j).dynamic_size == pre.spec_partition(
            j,
        ).dynamic_size by {
            assert(pre.partitions@[j].large_content);
        }
    }
}

/// When no forwarding pointer and no partition state changes, the
/// forwarding well-formedness carries over.
pub proof fn lemma_forward_unchanged(pre: PartitionedHeap, post: PartitionedHeap)
    requires
        post.partitions@ == pre.partitions@,
        post.spec_blocks().dom() == pre.spec_blocks().dom(),
        forall|addr: int|
            pre.spec_blocks().contains_key(addr as usize) ==> (
            #[trigger] post.spec_blocks()[addr as usize]).forward
                == pre.spec_blocks()[addr as usize].forward,
    ensures
        pre.spec_forward_wf() ==> post.spec_forward_wf(),
{
    if pre.spec_forward_wf() {
        assert forall|addr: int|
            #![trigger post.spec_blocks().contains_key(addr as usize)]
            post.spec_in_dynamic_space(addr) && post.spec_blocks().contains_key(addr as usize)
                implies {
            let forward = post.spec_blocks()[addr as usize].forward;
            &&& forward.spec_is_ptr()
            &&& !forward.spec_is_null()
            &&& forward.spec_ptr() % (WORD_SIZE as int) == 0
            &&& (forward.spec_ptr() != addr ==> post.spec_in_dynamic_space(forward.spec_ptr())
                && post.spec_blocks().contains_key(forward.spec_ptr() as usize)
                && post.spec_blocks()[forward.spec_ptr() as usize].forward == forward)
        } by {
            assert(pre.spec_blocks().contains_key(addr as usize));
            assert(pre.spec_in_dynamic_space(addr));
        }
    }
}

/// Applying the forwarding resolution twice gives the same result as
/// applying it once: forwarding pointers never form chains, because a copy
/// made by evacuation is always forwarded to itself.
pub proof fn lemma_forward_idempotent(heap: PartitionedHeap, value: Value)
    requires
        heap.spec_forward_wf(),
    ensures
        heap.spec_forward_of(heap.spec_forward_of(value)) == heap.spec_forward_of(value),
{
    let once = heap.spec_forward_of(value);
    if value.spec_is_ptr() && !value.spec_is_null() && heap.spec_in_dynamic_space(
        value.spec_ptr(),
    ) && heap.spec_blocks().contains_key(value.spec_ptr() as usize) {
        let addr = value.spec_ptr();
        assert(heap.spec_blocks().contains_key(addr as usize));
        let forward = heap.spec_blocks()[addr as usize].forward;
        if forward.spec_ptr() == addr {
            assert(heap.spec_forward_of(once) == once);
        } else {
            assert(heap.spec_blocks()[forward.spec_ptr() as usize].forward == forward);
        }
    }
}

impl PartitionedHeap {
    /// A normal-sized allocation of the given byte size can be served:
    /// either the allocation partition has room, or some free partition
    /// has enough capacity.
    pub open spec fn spec_can_allocate_normal(self, size: int) -> bool {
        ||| self.spec_partition(self.allocation_index as int).spec_dynamic_end() + size
            <= self.spec_partition(self.allocation_index as int).spec_end()
        ||| exists|j: int|
            0 <= j < MAX_PARTITIONS && (#[trigger] self.partitions@[j]).free && PARTITION_SIZE
                - self.partitions@[j].static_size >= size
    }

    /// The partitions `[head, head + length)` are all completely free.
    pub open spec fn spec_free_run(self, head: int, length: int) -> bool {
        forall|j: int|
            head <= j < head + length ==> (#[trigger] self.partitions@[j]).free
                && self.partitions@[j].static_size == 0 && self.partitions@[j].dynamic_size == 0
    }

    /// The block as it is bound into the heap at the given address: its
    /// forwarding pointer is initialized to the block itself.
    pub open spec fn spec_placed(block: Block, address: int) -> Block {
        Block { forward: Value { raw: (address - 1) as usize }, ..block }
    }

    /// Append a block to the dynamic space of the given partition.
    #[verifier::rlimit(100)]
    fn place_block(&mut self, index: usize, block: Block) -> (v: Value)
        requires
            old(self).wf(),
            spec_wf_block(block),
            index < MAX_PARTITIONS,
            !old(self).partitions@[index as int].free,
            !old(self).partitions@[index as int].large_content,
            old(self).partitions@[index as int].spec_dynamic_end() + spec_block_size_of(block)
                <= old(self).partitions@[index as int].spec_end(),
        ensures
            final(self).wf(),
            v.spec_is_ptr(),
            !v.spec_is_null(),
            v.spec_ptr() == old(self).partitions@[index as int].spec_dynamic_end(),
            v.spec_ptr() as int % (WORD_SIZE as int) == 0,
            final(self).spec_blocks() == old(self).spec_blocks().insert(
                v.spec_ptr() as usize,
                Self::spec_placed(block, v.spec_ptr()),
            ),
            final(self).partitions@ == old(self).partitions@.update(
                index as int,
                (Partition {
                    dynamic_size: final(self).partitions@[index as int].dynamic_size,
                    ..old(self).partitions@[index as int]
                }),
            ),
            final(self).partitions@[index as int].dynamic_size == old(self).partitions@[index as int].dynamic_size + spec_block_size_of(block),
            final(self).allocation_index == old(self).allocation_index,
            final(self).heap_base == old(self).heap_base,
            final(self).reclaimed == old(self).reclaimed,
            final(self).evacuating == old(self).evacuating,
            forall|k: int|
                old(self).spec_in_dynamic_space(k) ==> ((#[trigger] final(self).spec_blocks().contains_key(k as usize)) == old(self).spec_blocks().contains_key(
                    k as usize,
                ) && (old(self).spec_blocks().contains_key(k as usize) ==> final(self).spec_blocks()[k as usize] == old(self).spec_blocks()[k as usize])),
    {
        let ghost pre = *self;
        proof {
            lemma_partition_bounds(index as int);
            assert(pre.partitions@[index as int].spec_wf(index as int));
        }
        let size = block.block_size();
        let address = self.partitions[index].dynamic_space_end();
        proof {
            lemma_partition_aligned(pre.partitions@[index as int], index as int);
            if index as int == 0 {
                assert(pre.partitions@[0].static_size > 0);
            } else {
                assert(address >= index * PARTITION_SIZE);
                assert(index * PARTITION_SIZE >= PARTITION_SIZE) by (nonlinear_arith)
                    requires
                        index >= 1,
                ;
            }
            assert(address > 0);
            assert((address as int) < pre.partitions@[index as int].spec_end());
        }
        let value = Value::from_ptr(address);
        let placed = Block { forward: value, ..block };
        self.blocks.insert(address, placed);
        let partition = &mut self.partitions[index];
        partition.dynamic_size = partition.dynamic_size + size;
        proof {
            let ghost post = *self;
            assert(post.partitions@[index as int].spec_wf(index as int));
            assert forall|k: int|
                pre.spec_in_dynamic_space(k) implies !(k == address as int) by {
                let i = k / (PARTITION_SIZE as int);
                if k == address as int {
                    lemma_partition_of_address(index as int, address as int);
                    assert(i == index as int);
                    assert(k < pre.partitions@[i].spec_dynamic_end());
                }
            }
            assert forall|k: int|
                pre.spec_in_dynamic_space(k) implies ((post.spec_blocks().contains_key(k as usize))
                == pre.spec_blocks().contains_key(k as usize) && (pre.spec_blocks().contains_key(
                k as usize,
            ) ==> post.spec_blocks()[k as usize] == pre.spec_blocks()[k as usize])) by {
                let i = k / (PARTITION_SIZE as int);
                assert(pre.partitions@[i].spec_wf(i));
                lemma_partition_bounds(i);
                assert(0 <= k);
                assert(k < i * PARTITION_SIZE + PARTITION_SIZE);
                assert(k <= usize::MAX);
                assert(k != address as int);
                assert((k as usize) != address);
            }
            assert forall|i: int|
                0 <= i < MAX_PARTITIONS && !(#[trigger] post.partitions@[i]).free && !post
                .partitions@[i].large_content implies spec_tiled(
                post.spec_blocks(),
                post.spec_partition(i).spec_dynamic_start(),
                post.spec_partition(i).spec_dynamic_end(),
            ) by {
                assert(pre.partitions@[i].spec_wf(i));
                lemma_partition_bounds(i);
                if i == index as int {
                    lemma_tiled_insert_outside(
                        pre.spec_blocks(),
                        pre.partitions@[i].spec_dynamic_start(),
                        pre.partitions@[i].spec_dynamic_end(),
                        address,
                        placed,
                    );
                    lemma_tiled_extend(
                        post.spec_blocks(),
                        pre.partitions@[i].spec_dynamic_start(),
                        pre.partitions@[i].spec_dynamic_end(),
                        placed,
                    );
                } else {
                    assert(pre.spec_tiling_wf());
                    assert(spec_tiled(
                        pre.spec_blocks(),
                        pre.partitions@[i].spec_dynamic_start(),
                        pre.partitions@[i].spec_dynamic_end(),
                    ));
                    lemma_partition_of_address(index as int, address as int);
                    assert((address as int) < pre.partitions@[i].spec_dynamic_start() || address
                        as int >= pre.partitions@[i].spec_dynamic_end()) by {
                        if pre.partitions@[i].spec_dynamic_start() <= (address as int) && (
                        address as int) < pre.partitions@[i].spec_dynamic_end() {
                            lemma_partition_of_address(i, address as int);
                        }
                    }
                    lemma_tiled_insert_outside(
                        pre.spec_blocks(),
                        pre.partitions@[i].spec_dynamic_start(),
                        pre.partitions@[i].spec_dynamic_end(),
                        address,
                        placed,
                    );
                }
            }
            assert forall|i: int|
                0 <= i < MAX_PARTITIONS && (#[trigger] pre.partitions@[i]).large_content
                implies post.spec_blocks().contains_key(
                (pre.partitions@[i].spec_large_head() * PARTITION_SIZE) as usize,
            ) && post.spec_blocks()[(pre.partitions@[i].spec_large_head() * PARTITION_SIZE)
                as usize] == pre.spec_blocks()[(pre.partitions@[i].spec_large_head()
                * PARTITION_SIZE) as usize] by {
                let h = pre.partitions@[i].spec_large_head();
                assert(pre.spec_large_run_wf(h));
                assert(pre.partitions@[h].large_content);
                lemma_partition_bounds(h);
                assert(h * PARTITION_SIZE != address as int) by {
                    lemma_partition_of_address(index as int, address as int);
                    if h * PARTITION_SIZE == address as int {
                        lemma_partition_of_address(h, h * PARTITION_SIZE);
                    }
                }
            }
            lemma_large_wf_preserved(pre, post);
            assert(post.spec_blocks() =~= pre.spec_blocks().insert(address, placed));
        }
        value
    }

    /// Close the allocation partition: write a filler block over its free
    /// tail so that sweeping by block size still lands exactly on the
    /// partition end. A one-word tail gets a one-word filler, a larger tail
    /// a free-space block spanning it; nothing is written if no tail
    /// remains.
    #[verifier::rlimit(100)]
    fn close_allocation_partition(&mut self)
        requires
            old(self).wf(),
        ensures
            final(self).wf(),
            final(self).partitions@ == old(self).partitions@,
            final(self).allocation_index == old(self).allocation_index,
            final(self).heap_base == old(self).heap_base,
            final(self).reclaimed == old(self).reclaimed,
            final(self).evacuating == old(self).evacuating,
            forall|k: int|
                old(self).spec_in_dynamic_space(k) ==> ((#[trigger] final(self).spec_blocks().contains_key(k as usize)) == old(self).spec_blocks().contains_key(
                    k as usize,
                ) && (old(self).spec_blocks().contains_key(k as usize) ==> final(self).spec_blocks()[k as usize] == old(self).spec_blocks()[k as usize])),
            spec_tail_filler(
                final(self).spec_blocks(),
                old(self).partitions@[old(self).allocation_index as int].spec_dynamic_end(),
                old(self).partitions@[old(self).allocation_index as int].spec_end(),
            ),
    {
        let ghost pre = *self;
        let index = self.allocation_index;
        proof {
            lemma_partition_bounds(index as int);
            assert(pre.partitions@[index as int].spec_wf(index as int));
        }
        let remainder = self.partitions[index].free_size();
        if remainder == 0 {
            return ;
        }
        let address = self.partitions[index].dynamic_space_end();
        proof {
            lemma_partition_aligned(pre.partitions@[index as int], index as int);
            if index as int == 0 {
                assert(pre.partitions@[0].static_size > 0);
            } else {
                assert(address >= index * PARTITION_SIZE);
                assert(index * PARTITION_SIZE >= PARTITION_SIZE) by (nonlinear_arith)
                    requires
                        index >= 1,
                ;
            }
            assert(address > 0);
            assert((address as int) < pre.partitions@[index as int].spec_end());
        }
        let filler = if remainder == WORD_SIZE {
            Block {
                tag: TAG_ONE_WORD_FILLER,
                forward: Value::from_ptr(address),
                marked: false,
                payload: Vec::new(),
            }
        } else {
            let mut payload: Vec<usize> = Vec::new();
            payload.push(remainder / WORD_SIZE - 2);
            Block {
                tag: TAG_FREE_SPACE,
                forward: Value::from_ptr(address),
                marked: false,
                payload,
            }
        };
        proof {
            assert(spec_wf_block(filler));
        }
        self.blocks.insert(address, filler);
        proof {
            let ghost post = *self;
            assert forall|k: int|
                pre.spec_in_dynamic_space(k) implies k != address as int by {
                let i = k / (PARTITION_SIZE as int);
                if k == address as int {
                    lemma_partition_of_address(index as int, address as int);
                    assert(i == index as int);
                    assert(k < pre.partitions@[i].spec_dynamic_end());
                }
            }
            assert forall|k: int|
                pre.spec_in_dynamic_space(k) implies ((post.spec_blocks().contains_key(k as usize))
                == pre.spec_blocks().contains_key(k as usize) && (pre.spec_blocks().contains_key(
                k as usize,
            ) ==> post.spec_blocks()[k as usize] == pre.spec_blocks()[k as usize])) by {
                let i = k / (PARTITION_SIZE as int);
                assert(pre.partitions@[i].spec_wf(i));
                lemma_partition_bounds(i);
                assert(0 <= k);
                assert(k < i * PARTITION_SIZE + PARTITION_SIZE);
                assert(k <= usize::MAX);
                assert(k != address as int);
                assert((k as usize) != address);
            }
            assert forall|i: int|
                0 <= i < MAX_PARTITIONS && !(#[trigger] post.partitions@[i]).free && !post
                .partitions@[i].large_content implies spec_tiled(
                post.spec_blocks(),
                post.spec_partition(i).spec_dynamic_start(),
                post.spec_partition(i).spec_dynamic_end(),
            ) by {
                assert(pre.partitions@[i].spec_wf(i));
                lemma_partition_bounds(i);
                assert(pre.spec_tiling_wf());
                assert(spec_tiled(
                    pre.spec_blocks(),
                    pre.partitions@[i].spec_dynamic_start(),
                    pre.partitions@[i].spec_dynamic_end(),
                ));
                assert((address as int) < pre.partitions@[i].spec_dynamic_start() || address
                    as int >= pre.partitions@[i].spec_dynamic_end()) by {
                    lemma_partition_of_address(index as int, address as int);
                    if pre.partitions@[i].spec_dynamic_start() <= (address as int) && (
                    address as int) < pre.partitions@[i].spec_dynamic_end() {
                        lemma_partition_of_address(i, address as int);
                        assert(i == index as int);
                    }
                }
                lemma_tiled_insert_outside(
                    pre.spec_blocks(),
                    pre.partitions@[i].spec_dynamic_start(),
                    pre.partitions@[i].spec_dynamic_end(),
                    address,
                    filler,
                );
            }
            assert forall|i: int|
                0 <= i < MAX_PARTITIONS && (#[trigger] pre.partitions@[i]).large_content
                implies post.spec_blocks().contains_key(
                (pre.partitions@[i].spec_large_head() * PARTITION_SIZE) as usize,
            ) && post.spec_blocks()[(pre.partitions@[i].spec_large_head() * PARTITION_SIZE)
                as usize] == pre.spec_blocks()[(pre.partitions@[i].spec_large_head()
                * PARTITION_SIZE) as usize] by {
                let h = pre.partitions@[i].spec_large_head();
                assert(pre.spec_large_run_wf(h));
                assert(pre.partitions@[h].large_content);
                lemma_partition_bounds(h);
                assert(h * PARTITION_SIZE != address as int) by {
                    lemma_partition_of_address(index as int, address as int);
                    if h * PARTITION_SIZE == address as int {
                        lemma_partition_of_address(h, h * PARTITION_SIZE);
                    }
                }
            }
            lemma_large_wf_preserved(pre, post);
        }
    }

    /// Find the first free partition with enough capacity for the
    /// requested space.
    fn allocate_free_partition(&self, requested_space: usize) -> (index: usize)
        requires
            self.wf(),
            exists|j: int|
                0 <= j < MAX_PARTITIONS && (#[trigger] self.partitions@[j]).free && PARTITION_SIZE
                    - self.partitions@[j].static_size >= requested_space,
        ensures
            index < MAX_PARTITIONS,
            self.partitions@[index as int].free,
            PARTITION_SIZE - self.partitions@[index as int].static_size >= requested_space,
    {
        let mut index: usize = 0;
        loop
            invariant
                self.wf(),
                index <= MAX_PARTITIONS,
                exists|j: int|
                    0 <= j < MAX_PARTITIONS && (#[trigger] self.partitions@[j]).free
                        && PARTITION_SIZE - self.partitions@[j].static_size >= requested_space,
                forall|j: int|
                    0 <= j < index ==> !((#[trigger] self.partitions@[j]).free && PARTITION_SIZE
                        - self.partitions@[j].static_size >= requested_space),
            decreases MAX_PARTITIONS - index,
        {
            if index == MAX_PARTITIONS {
                proof {
                    let j = choose|j: int|
                        0 <= j < MAX_PARTITIONS && (#[trigger] self.partitions@[j]).free
                            && PARTITION_SIZE - self.partitions@[j].static_size
                            >= requested_space;
                    assert(false);
                }
            }
            let partition = &self.partitions[index];
            proof {
                assert(self.partitions@[index as int].spec_wf(index as int));
            }
            if partition.free && PARTITION_SIZE - partition.static_size >= requested_space {
                return index;
            }
            index = index + 1;
        }
    }

    /// Bump allocate a normal-sized block: in the current allocation
    /// partition if its tail is large enough, otherwise in a free
    /// partition that takes over as allocation partition, after the old
    /// one is closed with a tail filler.
    #[verifier::rlimit(100)]
    pub fn allocate_normal_object<M: Memory>(&mut self, memory: &mut M, block: Block) -> (v:
        Value)
        requires
            old(self).wf(),
            spec_wf_block(block),
            spec_block_size_of(block) <= PARTITION_SIZE,
            old(self).spec_can_allocate_normal(spec_block_size_of(block)),
        ensures
            final(self).wf(),
            v.spec_is_ptr(),
            !v.spec_is_null(),
            v.spec_ptr() as int % (WORD_SIZE as int) == 0,
            final(self).spec_blocks().contains_key(v.spec_ptr() as usize),
            final(self).spec_blocks()[v.spec_ptr() as usize] == Self::spec_placed(
                block,
                v.spec_ptr(),
            ),
            v.spec_ptr() + spec_block_size_of(block) == final(self).partitions@[final(self).allocation_index as int].spec_dynamic_end(),
            v.spec_ptr() / (PARTITION_SIZE as int) == final(self).allocation_index as int,
            !old(self).partitions@[final(self).allocation_index as int].free ==> final(self).allocation_index == old(self).allocation_index,
            final(self).partitions@[final(self).allocation_index as int].dynamic_size == old(self).partitions@[final(self).allocation_index as int].dynamic_size + spec_block_size_of(
                block,
            ),
            final(self).heap_base == old(self).heap_base,
            final(self).reclaimed == old(self).reclaimed,
            final(self).evacuating == old(self).evacuating,
            forall|i: int|
                0 <= i < MAX_PARTITIONS ==> (#[trigger] final(self).partitions@[i]).static_size
                    == old(self).partitions@[i].static_size && final(self).partitions@[i].large_content == old(self).partitions@[i].large_content && final(self).partitions@[i].evacuate == old(self).partitions@[i].evacuate && final(self).partitions@[i].update == old(self).partitions@[i].update && final(self).partitions@[i].marked_size == old(self).partitions@[i].marked_size && final(self).partitions@[i].bitmap == old(self).partitions@[i].bitmap && final(self).partitions@[i].large_head == old(self).partitions@[i].large_head,
            forall|i: int|
                0 <= i < MAX_PARTITIONS && i != final(self).allocation_index ==> (
                #[trigger] final(self).partitions@[i]).dynamic_size == old(self).partitions@[i].dynamic_size,
            forall|i: int|
                0 <= i < MAX_PARTITIONS && i != final(self).allocation_index ==> (
                #[trigger] final(self).partitions@[i]).free == old(self).partitions@[i].free,
            !final(self).partitions@[final(self).allocation_index as int].free,
            final(memory).spec_committed() >= old(memory).spec_committed(),
            final(self).allocation_index != old(self).allocation_index ==> final(memory).spec_committed() >= final(self).partitions@[final(self).allocation_index
                as int].spec_end(),
            final(self).allocation_index != old(self).allocation_index ==> spec_tail_filler(
                final(self).spec_blocks(),
                old(self).partitions@[old(self).allocation_index as int].spec_dynamic_end(),
                old(self).partitions@[old(self).allocation_index as int].spec_end(),
            ),
            forall|k: int|
                old(self).spec_in_dynamic_space(k) ==> ((#[trigger] final(self).spec_blocks().contains_key(k as usize)) == old(self).spec_blocks().contains_key(
                    k as usize,
                ) && (old(self).spec_blocks().contains_key(k as usize) ==> final(self).spec_blocks()[k as usize] == old(self).spec_blocks()[k as usize])),
    {
        let ghost pre = *self;
        let size = block.block_size();
        let index = self.allocation_index;
        proof {
            lemma_partition_bounds(index as int);
            assert(pre.partitions@[index as int].spec_wf(index as int));
        }
        if self.partitions[index].free_size() >= size {
            let v = self.place_block(index, block);
            proof {
                lemma_partition_of_address(index as int, v.spec_ptr());
                assert forall|k: int|
                    pre.spec_in_dynamic_space(k) implies ((self.spec_blocks().contains_key(
                    k as usize,
                )) == pre.spec_blocks().contains_key(k as usize) && (pre
                    .spec_blocks().contains_key(k as usize) ==> self.spec_blocks()[k as usize]
                    == pre.spec_blocks()[k as usize])) by {
                    assert(pre.spec_in_dynamic_space(k));
                }
            }
            v
        } else {
            self.close_allocation_partition();
            let fresh = self.allocate_free_partition(size);
            proof {
                assert(self.partitions@[fresh as int].spec_wf(fresh as int));
            }
            let target = &mut self.partitions[fresh];
            target.free = false;
            proof {
                assert(self.partitions@[fresh as int].spec_wf(fresh as int));
                lemma_partition_bounds(fresh as int);
                assert(spec_tiled(
                    self.spec_blocks(),
                    self.partitions@[fresh as int].spec_dynamic_start(),
                    self.partitions@[fresh as int].spec_dynamic_end(),
                ));
            }
            self.allocation_index = fresh;
            let ghost mid = *self;
            proof {
                assert forall|i: int|
                    0 <= i < MAX_PARTITIONS && !(#[trigger] mid.partitions@[i]).free && !mid
                    .partitions@[i].large_content implies spec_tiled(
                    mid.spec_blocks(),
                    mid.spec_partition(i).spec_dynamic_start(),
                    mid.spec_partition(i).spec_dynamic_end(),
                ) by {
                    if i != fresh as int {
                        assert(!pre.partitions@[i].free);
                    }
                }
                assert forall|i: int|
                    0 <= i < MAX_PARTITIONS && (#[trigger] pre.partitions@[i]).large_content
                    implies mid.spec_blocks().contains_key(
                    (pre.partitions@[i].spec_large_head() * PARTITION_SIZE) as usize,
                ) && mid.spec_blocks()[(pre.partitions@[i].spec_large_head()
                    * PARTITION_SIZE) as usize] == pre.spec_blocks()[(pre.partitions@[
                i].spec_large_head() * PARTITION_SIZE) as usize] by {
                    let h = pre.partitions@[i].spec_large_head();
                    assert(pre.spec_large_run_wf(h));
                    assert(pre.partitions@[h].spec_wf(h));
                    lemma_partition_bounds(h);
                    let size = spec_size_at(pre.spec_blocks(), h * PARTITION_SIZE);
                    lemma_run_length(size);
                    assert(pre.partitions@[h].dynamic_size == PARTITION_SIZE as int);
                    assert(pre.spec_in_dynamic_space(h * PARTITION_SIZE)) by {
                        lemma_partition_of_address(h, h * PARTITION_SIZE);
                    }
                }
                lemma_large_wf_preserved(pre, mid);
                assert(mid.wf());
            }
            let end = self.partitions[fresh].end_address();
            memory.grow_memory(end as u64);
            let v = self.place_block(fresh, block);
            proof {
                lemma_partition_of_address(fresh as int, v.spec_ptr());
                assert forall|k: int|
                    pre.spec_in_dynamic_space(k) implies ((self.spec_blocks().contains_key(
                    k as usize,
                )) == pre.spec_blocks().contains_key(k as usize) && (pre
                    .spec_blocks().contains_key(k as usize) ==> self.spec_blocks()[k as usize]
                    == pre.spec_blocks()[k as usize])) by {
                    let i = k / (PARTITION_SIZE as int);
                    assert(pre.partitions@[i].spec_wf(i));
                    assert(i != fresh as int);
                    assert(mid.spec_in_dynamic_space(k));
                }
                // The tail filler written when the old allocation partition
                // was retired is untouched by the placement in the fresh
                // partition.
                let filler_at = pre.partitions@[pre.allocation_index
                    as int].spec_dynamic_end();
                let retired_end = pre.partitions@[pre.allocation_index as int].spec_end();
                if filler_at < retired_end {
                    assert(pre.partitions@[pre.allocation_index as int].spec_wf(
                        pre.allocation_index as int,
                    ));
                    lemma_partition_bounds(pre.allocation_index as int);
                    assert((filler_at as usize) != v.spec_ptr() as usize) by {
                        if filler_at == v.spec_ptr() {
                            lemma_partition_of_address(pre.allocation_index as int, filler_at);
                        }
                    }
                    assert(self.spec_blocks()[filler_at as usize]
                        == mid.spec_blocks()[filler_at as usize]);
                }
                assert(spec_tail_filler(self.spec_blocks(), filler_at, retired_end));
            }
            v
        }
    }
}

/// Arithmetic facts about the partition run covering a large object.
pub proof fn lemma_run_length(size: int)
    requires
        PARTITION_SIZE < size,
    ensures
        (size - 1) / (PARTITION_SIZE as int) + 1 == PartitionedHeap::spec_run_length(size),
        2 <= PartitionedHeap::spec_run_length(size),
        (PartitionedHeap::spec_run_length(size) - 1) * PARTITION_SIZE < size,
        size <= PartitionedHeap::spec_run_length(size) * PARTITION_SIZE,
        size - (PartitionedHeap::spec_run_length(size) - 1) * PARTITION_SIZE > 0,
        size - (PartitionedHeap::spec_run_length(size) - 1) * PARTITION_SIZE <= PARTITION_SIZE,
        size % (PARTITION_SIZE as int) != 0 ==> size - (PartitionedHeap::spec_run_length(size)
            - 1) * PARTITION_SIZE == size % (PARTITION_SIZE as int),
        size % (PARTITION_SIZE as int) == 0 ==> size - (PartitionedHeap::spec_run_length(size)
            - 1) * PARTITION_SIZE == PARTITION_SIZE,
{
    let n = PartitionedHeap::spec_run_length(size);
    assert(2 <= n && (n - 1) * PARTITION_SIZE < size && size <= n * PARTITION_SIZE && (size % (
    PARTITION_SIZE as int) != 0 ==> size - (n - 1) * PARTITION_SIZE == size % (PARTITION_SIZE
        as int)) && (size % (PARTITION_SIZE as int) == 0 ==> size - (n - 1) * PARTITION_SIZE
        == PARTITION_SIZE)) by (nonlinear_arith)
        requires
            PARTITION_SIZE < size,
            n == (size + PARTITION_SIZE - 1) / (PARTITION_SIZE as int),
            PARTITION_SIZE > 0,
    ;
    assert((size - 1) / (PARTITION_SIZE as int) + 1 == (size + PARTITION_SIZE - 1) / (
    PARTITION_SIZE as int)) by (nonlinear_arith)
        requires
            PARTITION_SIZE < size,
            PARTITION_SIZE > 0,
    ;
}

/// A run that fits the partition array bounds the object size.
pub proof fn lemma_run_size_bound(size: int)
    requires
        PARTITION_SIZE < size,
        PartitionedHeap::spec_run_length(size) <= MAX_PARTITIONS,
    ensures
        size <= MAX_PARTITIONS * PARTITION_SIZE,
        size + PARTITION_SIZE - 1 <= usize::MAX,
{
    assert(size <= MAX_PARTITIONS * PARTITION_SIZE && MAX_PARTITIONS * PARTITION_SIZE
        + PARTITION_SIZE - 1 <= usize::MAX) by (nonlinear_arith)
        requires
            PARTITION_SIZE < size,
            (size + PARTITION_SIZE - 1) / (PARTITION_SIZE as int) <= MAX_PARTITIONS,
            PARTITION_SIZE > 0,
    ;
}

impl PartitionedHeap {
    /// Find the first contiguous run of completely free partitions that
    /// can hold the requested number of partitions.
    fn run_is_completely_free(&self, start: usize, length: usize) -> (all_free: bool)
        requires
            self.wf(),
            start + length <= MAX_PARTITIONS,
        ensures
            all_free == self.spec_free_run(start as int, length as int),
    {
        let mut window: usize = 0;
        while window < length
            invariant
                self.wf(),
                start + length <= MAX_PARTITIONS,
                window <= length,
                forall|j: int|
                    start <= j < start + window ==> (#[trigger] self.partitions@[j]).free
                        && self.partitions@[j].static_size == 0
                        && self.partitions@[j].dynamic_size == 0,
            decreases length - window,
        {
            let candidate = &self.partitions[start + window];
            proof {
                assert(self.partitions@[start as int + window as int].spec_wf(
                    start as int + window as int,
                ));
            }
            if !candidate.is_completely_free() {
                return false;
            }
            window = window + 1;
        }
        true
    }

    /// Find the first contiguous run of completely free partitions that
    /// can hold the requested number of partitions.
    fn find_large_space(&self, number_of_partitions: usize) -> (start: usize)
        requires
            self.wf(),
            1 <= number_of_partitions <= MAX_PARTITIONS,
            exists|h: int|
                0 <= h && h + number_of_partitions <= MAX_PARTITIONS && (#[trigger] self
                    .spec_free_run(h, number_of_partitions as int)),
        ensures
            start + number_of_partitions <= MAX_PARTITIONS,
            self.spec_free_run(start as int, number_of_partitions as int),
    {
        let mut start: usize = 0;
        loop
            invariant
                self.wf(),
                1 <= number_of_partitions <= MAX_PARTITIONS,
                start <= MAX_PARTITIONS,
                exists|h: int|
                    0 <= h && h + number_of_partitions <= MAX_PARTITIONS && (#[trigger] self
                        .spec_free_run(h, number_of_partitions as int)),
                forall|h: int|
                    0 <= h < start ==> !(h + number_of_partitions <= MAX_PARTITIONS && (
                    #[trigger] self.spec_free_run(h, number_of_partitions as int))),
            decreases MAX_PARTITIONS - start,
        {
            if start + number_of_partitions > MAX_PARTITIONS {
                proof {
                    let h = choose|h: int|
                        0 <= h && h + number_of_partitions <= MAX_PARTITIONS && (#[trigger] self
                            .spec_free_run(h, number_of_partitions as int));
                    assert(false);
                }
            }
            if self.run_is_completely_free(start, number_of_partitions) {
                return start;
            }
            start = start + 1;
        }
    }

    /// Allocate a block larger than one partition: claim a contiguous run
    /// of completely free partitions, flag them as large content, and place
    /// the block at the start of the run.
    #[verifier::rlimit(100)]
    pub fn allocate_large_object<M: Memory>(&mut self, memory: &mut M, block: Block) -> (v:
        Value)
        requires
            old(self).wf(),
            spec_wf_block(block),
            spec_block_size_of(block) > PARTITION_SIZE,
            spec_block_size_of(block) <= usize::MAX - PARTITION_SIZE,
            exists|h: int|
                0 <= h && h + Self::spec_run_length(spec_block_size_of(block)) <= MAX_PARTITIONS
                    && (#[trigger] old(self).spec_free_run(
                    h,
                    Self::spec_run_length(spec_block_size_of(block)),
                )),
        ensures
            final(self).wf(),
            v.spec_is_ptr(),
            !v.spec_is_null(),
            v.spec_ptr() % (PARTITION_SIZE as int) == 0,
            v.spec_ptr() == (v.spec_ptr() / (PARTITION_SIZE as int)) * PARTITION_SIZE,
            0 <= v.spec_ptr() / (PARTITION_SIZE as int) < MAX_PARTITIONS,
            final(self).spec_blocks() == old(self).spec_blocks().insert(
                v.spec_ptr() as usize,
                Self::spec_placed(block, v.spec_ptr()),
            ),
            final(self).partitions@[v.spec_ptr() / (PARTITION_SIZE as int)].large_content,
            final(self).partitions@[v.spec_ptr() / (PARTITION_SIZE as int)].spec_large_head()
                == v.spec_ptr() / (PARTITION_SIZE as int),
            forall|i: int|
                0 <= i < MAX_PARTITIONS && !(v.spec_ptr() / (PARTITION_SIZE as int) <= i < v
                    .spec_ptr() / (PARTITION_SIZE as int) + Self::spec_run_length(
                    spec_block_size_of(block),
                )) ==> (#[trigger] final(self).partitions@[i]) == old(self).partitions@[i],
            forall|i: int|
                v.spec_ptr() / (PARTITION_SIZE as int) <= i < v.spec_ptr() / (PARTITION_SIZE
                    as int) + Self::spec_run_length(spec_block_size_of(block)) ==> (
                #[trigger] final(self).partitions@[i]).large_content && !final(self).partitions@[i].free && old(self).partitions@[i].free,
            final(self).allocation_index == old(self).allocation_index,
            final(self).heap_base == old(self).heap_base,
            final(self).reclaimed == old(self).reclaimed,
            final(self).evacuating == old(self).evacuating,
            final(memory).spec_committed() >= old(memory).spec_committed(),
            final(memory).spec_committed() >= v.spec_ptr() + spec_block_size_of(block),
            forall|k: int|
                old(self).spec_in_dynamic_space(k) ==> ((#[trigger] final(self).spec_blocks().contains_key(k as usize)) == old(self).spec_blocks().contains_key(
                    k as usize,
                ) && (old(self).spec_blocks().contains_key(k as usize) ==> final(self).spec_blocks()[k as usize] == old(self).spec_blocks()[k as usize])),
    {
        let ghost pre = *self;
        let size = block.block_size();
        let number_of_partitions = (size + PARTITION_SIZE - 1) / PARTITION_SIZE;
        proof {
            lemma_run_length(size as int);
        }
        let first = self.find_large_space(number_of_partitions);
        let last = first + number_of_partitions - 1;
        proof {
            lemma_partition_bounds(last as int);
        }
        proof {
            assert(first as int * PARTITION_SIZE + size as int <= last as int * PARTITION_SIZE
                + PARTITION_SIZE) by (nonlinear_arith)
                requires
                    last as int == first as int + number_of_partitions - 1,
                    size as int <= number_of_partitions as int * PARTITION_SIZE,
            ;
        }
        memory.grow_memory((last * PARTITION_SIZE + PARTITION_SIZE) as u64);
        let mut offset: usize = 0;
        while offset < number_of_partitions
            invariant
                pre.wf(),
                spec_wf_block(block),
                size == spec_block_size_of(block),
                PARTITION_SIZE < size <= usize::MAX - PARTITION_SIZE,
                number_of_partitions == Self::spec_run_length(size as int),
                2 <= number_of_partitions,
                first + number_of_partitions <= MAX_PARTITIONS,
                pre.spec_free_run(first as int, number_of_partitions as int),
                offset <= number_of_partitions,
                self.partitions@.len() == MAX_PARTITIONS,
                self.allocation_index == pre.allocation_index,
                self.heap_base == pre.heap_base,
                self.reclaimed == pre.reclaimed,
                self.evacuating == pre.evacuating,
                self.spec_blocks() == pre.spec_blocks(),
                forall|i: int|
                    0 <= i < MAX_PARTITIONS && !(first <= i < first + offset) ==> (
                    #[trigger] self.partitions@[i]) == pre.partitions@[i],
                forall|j: int|
                    first <= j < first + offset ==> (#[trigger] self.partitions@[j]) == (
                    Partition {
                        free: false,
                        large_content: true,
                        dynamic_size: (if j < first + number_of_partitions - 1 {
                            PARTITION_SIZE as usize
                        } else {
                            (size - (number_of_partitions - 1) * PARTITION_SIZE) as usize
                        }),
                        large_head: first,
                        ..pre.partitions@[j]
                    }),
            decreases number_of_partitions - offset,
        {
            let index = first + offset;
            proof {
                assert(pre.partitions@[index as int].spec_wf(index as int));
                assert((number_of_partitions - 1) * PARTITION_SIZE < size <= number_of_partitions
                    * PARTITION_SIZE) by (nonlinear_arith)
                    requires
                        number_of_partitions == (size + PARTITION_SIZE - 1) / (PARTITION_SIZE
                            as int),
                        PARTITION_SIZE < size <= usize::MAX - PARTITION_SIZE,
                        PARTITION_SIZE > 0,
                ;
                assert((number_of_partitions - 1) * PARTITION_SIZE >= PARTITION_SIZE)
                    by (nonlinear_arith)
                    requires
                        number_of_partitions >= 2,
                ;
            }
            let partition = &mut self.partitions[index];
            partition.free = false;
            partition.large_content = true;
            partition.large_head = first;
            if offset == number_of_partitions - 1 {
                partition.dynamic_size = size - (number_of_partitions - 1) * PARTITION_SIZE;
            } else {
                partition.dynamic_size = PARTITION_SIZE;
            }
            offset = offset + 1;
        }
        proof {
            lemma_partition_bounds(first as int);
            assert(first * PARTITION_SIZE >= PARTITION_SIZE || first == 0) by (nonlinear_arith)
                requires
                    first >= 1 || first == 0,
            ;
            if first == 0 {
                assert(pre.partitions@[0].static_size > 0);
                assert(pre.spec_free_run(first as int, number_of_partitions as int));
                assert(pre.partitions@[0].static_size == 0);
                assert(false);
            }
        }
        let address = first * PARTITION_SIZE;
        proof {
            assert((first as int * PARTITION_SIZE) % (PARTITION_SIZE as int) == 0 && (first
                as int * PARTITION_SIZE) % (WORD_SIZE as int) == 0) by (nonlinear_arith)
                requires
                    0 <= first,
            ;
        }
        let value = Value::from_ptr(address);
        let placed = Block { forward: value, ..block };
        self.blocks.insert(address, placed);
        proof {
            let ghost post = *self;
            lemma_partition_of_address(first as int, address as int);
            assert forall|k: int|
                pre.spec_in_dynamic_space(k) implies k != address as int by {
                let i = k / (PARTITION_SIZE as int);
                if k == address as int {
                    assert(i == first as int);
                    assert(!pre.partitions@[i].free);
                    assert(pre.partitions@[i].free);
                }
            }
            assert forall|k: int|
                pre.spec_in_dynamic_space(k) implies ((post.spec_blocks().contains_key(
                k as usize,
            )) == pre.spec_blocks().contains_key(k as usize) && (pre.spec_blocks().contains_key(
                k as usize,
            ) ==> post.spec_blocks()[k as usize] == pre.spec_blocks()[k as usize])) by {
                let i = k / (PARTITION_SIZE as int);
                assert(pre.partitions@[i].spec_wf(i));
                lemma_partition_bounds(i);
                assert(0 <= k);
                assert(k <= usize::MAX);
                assert((k as usize) != address);
            }
            assert forall|i: int|
                0 <= i < MAX_PARTITIONS && !(#[trigger] post.partitions@[i]).free && !post
                .partitions@[i].large_content implies spec_tiled(
                post.spec_blocks(),
                post.spec_partition(i).spec_dynamic_start(),
                post.spec_partition(i).spec_dynamic_end(),
            ) by {
                assert(pre.partitions@[i].spec_wf(i));
                assert(!(first <= i < first + number_of_partitions));
                assert(post.partitions@[i] == pre.partitions@[i]);
                assert(!pre.partitions@[i].free);
                lemma_partition_bounds(i);
                assert(spec_tiled(
                    pre.spec_blocks(),
                    pre.partitions@[i].spec_dynamic_start(),
                    pre.partitions@[i].spec_dynamic_end(),
                ));
                assert((address as int) < pre.partitions@[i].spec_dynamic_start() || address
                    as int >= pre.partitions@[i].spec_dynamic_end()) by {
                    if pre.partitions@[i].spec_dynamic_start() <= (address as int) && (
                    address as int) < pre.partitions@[i].spec_dynamic_end() {
                        lemma_partition_of_address(i, address as int);
                    }
                }
                lemma_tiled_insert_outside(
                    pre.spec_blocks(),
                    pre.partitions@[i].spec_dynamic_start(),
                    pre.partitions@[i].spec_dynamic_end(),
                    address,
                    placed,
                );
            }
            assert forall|i: int|
                0 <= i < MAX_PARTITIONS implies (#[trigger] post.partitions@[i]).spec_wf(i) by {
                assert(pre.partitions@[i].spec_wf(i));
                if first as int <= i < first as int + number_of_partitions as int {
                    assert(pre.partitions@[i].free && pre.partitions@[i].static_size == 0
                        && pre.partitions@[i].dynamic_size == 0);
                    assert((PARTITION_SIZE as int) % (WORD_SIZE as int) == 0)
                        by (nonlinear_arith);
                    assert((size as int) % (WORD_SIZE as int) == 0) by {
                        assert((crate::types::spec_size_words(block.tag, block.payload@)
                            * WORD_SIZE) % (WORD_SIZE as int) == 0) by (nonlinear_arith);
                    }
                    assert((size as int - (number_of_partitions as int - 1) * PARTITION_SIZE)
                        % (WORD_SIZE as int) == 0) by (nonlinear_arith)
                        requires
                            (size as int) % (WORD_SIZE as int) == 0,
                            (PARTITION_SIZE as int) % (WORD_SIZE as int) == 0,
                            number_of_partitions >= 1,
                    ;
                }
            }
            assert(post.spec_large_run_wf(first as int)) by {
                assert(post.spec_blocks().contains_key(address));
                assert(post.spec_blocks()[address] == placed);
                assert(spec_wf_block(placed));
                assert(spec_block_size_of(placed) == size as int);
            }
            assert forall|i: int|
                0 <= i < MAX_PARTITIONS && (#[trigger] post.partitions@[i]).large_content
                implies post.spec_large_run_wf(post.spec_partition(i).spec_large_head())
                && post.spec_partition(i).spec_large_head() <= i < post.spec_partition(
                i,
            ).spec_large_head() + Self::spec_run_length(
                spec_size_at(
                    post.spec_blocks(),
                    post.spec_partition(i).spec_large_head() * PARTITION_SIZE,
                ),
            ) by {
                if first <= i < first + number_of_partitions {
                    assert(post.spec_partition(i).spec_large_head() == first as int);
                } else {
                    let h = post.spec_partition(i).spec_large_head();
                    assert(pre.partitions@[i].large_content);
                    assert(pre.spec_large_run_wf(h));
                    assert(pre.partitions@[h].large_content);
                    assert(!(first <= h < first + number_of_partitions)) by {
                        if first <= h < first + number_of_partitions {
                            assert(pre.partitions@[h].free);
                        }
                    }
                    lemma_partition_bounds(h);
                    assert(h * PARTITION_SIZE != address as int) by {
                        if h * PARTITION_SIZE == address as int {
                            lemma_partition_of_address(h, h * PARTITION_SIZE);
                        }
                    }
                    assert(post.spec_blocks()[(h * PARTITION_SIZE) as usize]
                        == pre.spec_blocks()[(h * PARTITION_SIZE) as usize]);
                    assert forall|j: int|
                        h <= j < h + Self::spec_run_length(
                            spec_size_at(pre.spec_blocks(), h * PARTITION_SIZE),
                        ) implies (#[trigger] post.partitions@[j]).large_content && post
                        .spec_partition(j).spec_large_head() == h && post.spec_partition(
                        j,
                    ).dynamic_size == pre.spec_partition(j).dynamic_size by {
                        assert(pre.partitions@[j].large_content);
                        assert(!(first <= j < first + number_of_partitions)) by {
                            if first <= j < first + number_of_partitions {
                                assert(pre.partitions@[j].free);
                            }
                        }
                    }
                }
            }
        }
        value
    }
}

/// The tail of a retired allocation partition carries a filler: a one-word
/// filler when exactly one word remains, else a free-space block spanning
/// the whole remainder, keeping the partition sweepable.
pub open spec fn spec_tail_filler(blocks: Map<usize, Block>, dynamic_end: int, end: int) -> bool {
    dynamic_end < end ==> {
        &&& blocks.contains_key(dynamic_end as usize)
        &&& blocks[dynamic_end as usize].tag == (if end - dynamic_end == WORD_SIZE {
            TAG_ONE_WORD_FILLER
        } else {
            TAG_FREE_SPACE
        })
        &&& (end - dynamic_end > WORD_SIZE ==> blocks[dynamic_end as usize].payload@ =~= seq![
            (((end - dynamic_end) / (WORD_SIZE as int) - 2)) as usize,
        ])
    }
}

/// Effect of a served bump allocation of `size` bytes returning `v`: the
/// block sits at the frontier of the (possibly rotated) allocation
/// partition, only that partition's dynamic space grew, every other
/// partition field is unchanged, and a rotation leaves a tail filler in
/// the retired partition with memory committed up to the new partition's
/// end.
pub open spec fn spec_bump_allocated(
    pre: PartitionedHeap,
    post: PartitionedHeap,
    post_committed: int,
    v: Value,
    size: int,
) -> bool {
    &&& v.spec_ptr() / (PARTITION_SIZE as int) == post.allocation_index as int
    &&& v.spec_ptr() + size == post.partitions@[post.allocation_index as int].spec_dynamic_end()
    &&& post.partitions@[post.allocation_index as int].dynamic_size == pre.partitions@[post.allocation_index as int].dynamic_size + size
    &&& !post.partitions@[post.allocation_index as int].free
    &&& (!pre.partitions@[post.allocation_index as int].free ==> post.allocation_index
        == pre.allocation_index)
    &&& (forall|i: int|
        0 <= i < MAX_PARTITIONS && i != post.allocation_index ==> (
        #[trigger] post.partitions@[i]).dynamic_size == pre.partitions@[i].dynamic_size
            && post.partitions@[i].free == pre.partitions@[i].free)
    &&& (forall|i: int|
        0 <= i < MAX_PARTITIONS ==> (#[trigger] post.partitions@[i]).static_size
            == pre.partitions@[i].static_size && post.partitions@[i].large_content
            == pre.partitions@[i].large_content && post.partitions@[i].evacuate
            == pre.partitions@[i].evacuate && post.partitions@[i].update
            == pre.partitions@[i].update && post.partitions@[i].marked_size
            == pre.partitions@[i].marked_size && post.partitions@[i].bitmap
            == pre.partitions@[i].bitmap && post.partitions@[i].large_head
            == pre.partitions@[i].large_head)
    &&& (post.allocation_index != pre.allocation_index ==> spec_tail_filler(
        post.spec_blocks(),
        pre.partitions@[pre.allocation_index as int].spec_dynamic_end(),
        pre.partitions@[pre.allocation_index as int].spec_end(),
    ) && post_committed >= post.partitions@[post.allocation_index as int].spec_end())
}

/// Effect of a served large allocation of `size` bytes returning `v`: the
/// block sits at the start of a newly claimed run of previously free
/// partitions, every partition outside the run is unchanged, no other
/// block of the store is touched, and memory is committed over the run.
pub open spec fn spec_run_allocated(
    pre: PartitionedHeap,
    post: PartitionedHeap,
    post_committed: int,
    v: Value,
    size: int,
) -> bool {
    &&& v.spec_ptr() % (PARTITION_SIZE as int) == 0
    &&& 0 <= v.spec_ptr() / (PARTITION_SIZE as int) < MAX_PARTITIONS
    &&& post.allocation_index == pre.allocation_index
    &&& post_committed >= v.spec_ptr() + size
    &&& (forall|i: int|
        0 <= i < MAX_PARTITIONS && !(v.spec_ptr() / (PARTITION_SIZE as int) <= i < v.spec_ptr()
            / (PARTITION_SIZE as int) + PartitionedHeap::spec_run_length(size)) ==> (
        #[trigger] post.partitions@[i]) == pre.partitions@[i])
    &&& (forall|i: int|
        v.spec_ptr() / (PARTITION_SIZE as int) <= i < v.spec_ptr() / (PARTITION_SIZE as int)
            + PartitionedHeap::spec_run_length(size) ==> (
        #[trigger] post.partitions@[i]).large_content && !post.partitions@[i].free
            && pre.partitions@[i].free && post.partitions@[i].spec_large_head() == v.spec_ptr()
            / (PARTITION_SIZE as int))
    &&& (forall|k: usize|
        k != v.spec_ptr() as usize ==> ((#[trigger] post.spec_blocks().contains_key(k))
            == pre.spec_blocks().contains_key(k) && (pre.spec_blocks().contains_key(k)
            ==> post.spec_blocks()[k] == pre.spec_blocks()[k])))
}

/// Saturating 64-bit accumulation.
pub open spec fn spec_sat_add64(a: int, b: int) -> int {
    if a + b > u64::MAX {
        u64::MAX as int
    } else {
        a + b
    }
}

impl PartitionedHeap {
    /// Allocate a block: bump allocation for normal sizes, a partition run
    /// for blocks larger than one partition.
    pub fn allocate<M: Memory>(&mut self, memory: &mut M, block: Block) -> (v: Value)
        requires
            old(self).wf(),
            spec_wf_block(block),
            spec_block_size_of(block) <= PARTITION_SIZE ==> old(self).spec_can_allocate_normal(
                spec_block_size_of(block),
            ),
            spec_block_size_of(block) > PARTITION_SIZE ==> spec_block_size_of(block)
                <= usize::MAX - PARTITION_SIZE && exists|h: int|
                0 <= h && h + Self::spec_run_length(spec_block_size_of(block)) <= MAX_PARTITIONS
                    && (#[trigger] old(self).spec_free_run(
                    h,
                    Self::spec_run_length(spec_block_size_of(block)),
                )),
        ensures
            final(self).wf(),
            v.spec_is_ptr(),
            !v.spec_is_null(),
            v.spec_ptr() as int % (WORD_SIZE as int) == 0,
            final(self).spec_blocks().contains_key(v.spec_ptr() as usize),
            final(self).spec_blocks()[v.spec_ptr() as usize] == Self::spec_placed(
                block,
                v.spec_ptr(),
            ),
            final(self).heap_base == old(self).heap_base,
            final(self).reclaimed == old(self).reclaimed,
            final(self).evacuating == old(self).evacuating,
            final(memory).spec_committed() >= old(memory).spec_committed(),
            forall|i: int|
                0 <= i < MAX_PARTITIONS && !(#[trigger] old(self).partitions@[i]).free ==> !final(self).partitions@[i].free && final(self).partitions@[i].large_content == old(self).partitions@[i].large_content && final(self).partitions@[i].large_head == old(self).partitions@[i].large_head,
            forall|k: int|
                old(self).spec_in_dynamic_space(k) ==> ((#[trigger] final(self).spec_blocks().contains_key(k as usize)) == old(self).spec_blocks().contains_key(
                    k as usize,
                ) && (old(self).spec_blocks().contains_key(k as usize) ==> final(self).spec_blocks()[k as usize] == old(self).spec_blocks()[k as usize])),
            // Normal-sized blocks are bump allocated at the frontier of the
            // allocation partition, rotating to a free partition when the
            // tail is too small and leaving a filler over the retired tail;
            // larger blocks claim a run of completely free partitions.
            spec_block_size_of(block) <= PARTITION_SIZE ==> spec_bump_allocated(
                *old(self),
                *final(self),
                final(memory).spec_committed(),
                v,
                spec_block_size_of(block),
            ),
            spec_block_size_of(block) > PARTITION_SIZE ==> spec_run_allocated(
                *old(self),
                *final(self),
                final(memory).spec_committed(),
                v,
                spec_block_size_of(block),
            ) && final(self).spec_blocks() == old(self).spec_blocks().insert(
                v.spec_ptr() as usize,
                Self::spec_placed(block, v.spec_ptr()),
            ),
    {
        let size = block.block_size();
        if size <= PARTITION_SIZE {
            let v = self.allocate_normal_object(memory, block);
            proof {
                assert forall|i: int|
                    0 <= i < MAX_PARTITIONS && !(#[trigger] old(self).partitions@[i]).free
                    implies !self.partitions@[i].free && self.partitions@[i].large_content
                    == old(self).partitions@[i].large_content && self.partitions@[i].large_head
                    == old(self).partitions@[i].large_head by {
                    let probe = self.partitions@[i];
                    assert(probe.free ==> old(self).partitions@[i].free);
                }
            }
            v
        } else {
            proof {
                assert((PARTITION_SIZE as int) % (WORD_SIZE as int) == 0) by (nonlinear_arith);
            }
            let v = self.allocate_large_object(memory, block);
            proof {
                assert(v.spec_ptr() as int % (WORD_SIZE as int) == 0) by (nonlinear_arith)
                    requires
                        v.spec_ptr() % (PARTITION_SIZE as int) == 0,
                        (PARTITION_SIZE as int) % (WORD_SIZE as int) == 0,
                ;
                assert forall|i: int|
                    0 <= i < MAX_PARTITIONS && !(#[trigger] old(self).partitions@[i]).free
                    implies !self.partitions@[i].free && self.partitions@[i].large_content
                    == old(self).partitions@[i].large_content && self.partitions@[i].large_head
                    == old(self).partitions@[i].large_head by {
                    let h = v.spec_ptr() / (PARTITION_SIZE as int);
                    let probe = self.partitions@[i];
                    if h <= i < h + Self::spec_run_length(spec_block_size_of(block)) {
                        assert(probe.large_content && old(self).partitions@[i].free);
                    } else {
                        assert(self.partitions@[i] == old(self).partitions@[i]);
                    }
                }
            }
            v
        }
    }

    /// Allocate a blob of the given payload size in bytes, zero-filled.
    pub fn alloc_blob<M: Memory>(&mut self, memory: &mut M, size_bytes: usize) -> (v: Value)
        requires
            old(self).wf(),
            size_bytes <= usize::MAX - 4 * PARTITION_SIZE,
            3 * WORD_SIZE + ((size_bytes + WORD_SIZE - 1) / (WORD_SIZE as int)) * WORD_SIZE
                <= PARTITION_SIZE ==> old(self).spec_can_allocate_normal(
                3 * WORD_SIZE + ((size_bytes + WORD_SIZE - 1) / (WORD_SIZE as int)) * WORD_SIZE,
            ),
            3 * WORD_SIZE + ((size_bytes + WORD_SIZE - 1) / (WORD_SIZE as int)) * WORD_SIZE
                > PARTITION_SIZE ==> exists|h: int|
                0 <= h && h + Self::spec_run_length(
                    3 * WORD_SIZE + ((size_bytes + WORD_SIZE - 1) / (WORD_SIZE as int))
                        * WORD_SIZE,
                ) <= MAX_PARTITIONS && (#[trigger] old(self).spec_free_run(
                    h,
                    Self::spec_run_length(
                        3 * WORD_SIZE + ((size_bytes + WORD_SIZE - 1) / (WORD_SIZE as int))
                            * WORD_SIZE,
                    ),
                )),
        ensures
            final(self).wf(),
            v.spec_is_ptr(),
            !v.spec_is_null(),
            final(self).spec_blocks().contains_key(v.spec_ptr() as usize),
            final(self).spec_blocks()[v.spec_ptr() as usize].tag == crate::types::TAG_BLOB,
            final(self).spec_blocks()[v.spec_ptr() as usize].payload@.len() == 1 + (size_bytes
                + WORD_SIZE - 1) / (WORD_SIZE as int),
            final(self).spec_blocks()[v.spec_ptr() as usize].payload@[0] == size_bytes,
            final(self).spec_blocks()[v.spec_ptr() as usize].forward.spec_ptr() == v.spec_ptr(),
            !final(self).spec_blocks()[v.spec_ptr() as usize].marked,
            final(self).heap_base == old(self).heap_base,
            forall|i: int|
                0 <= i < MAX_PARTITIONS && !(#[trigger] old(self).partitions@[i]).free ==> !final(self).partitions@[i].free && final(self).partitions@[i].large_content == old(self).partitions@[i].large_content && final(self).partitions@[i].large_head == old(self).partitions@[i].large_head,
            3 * WORD_SIZE + ((size_bytes + WORD_SIZE - 1) / (WORD_SIZE as int)) * WORD_SIZE <= PARTITION_SIZE ==> spec_bump_allocated(
                *old(self),
                *final(self),
                final(memory).spec_committed(),
                v,
                3 * WORD_SIZE + ((size_bytes + WORD_SIZE - 1) / (WORD_SIZE as int)) * WORD_SIZE,
            ),
            3 * WORD_SIZE + ((size_bytes + WORD_SIZE - 1) / (WORD_SIZE as int)) * WORD_SIZE > PARTITION_SIZE ==> spec_run_allocated(
                *old(self),
                *final(self),
                final(memory).spec_committed(),
                v,
                3 * WORD_SIZE + ((size_bytes + WORD_SIZE - 1) / (WORD_SIZE as int)) * WORD_SIZE,
            ),
            final(memory).spec_committed() >= old(memory).spec_committed(),
    {
        let payload_words = (size_bytes + WORD_SIZE - 1) / WORD_SIZE;
        let mut payload: Vec<usize> = Vec::new();
        payload.push(size_bytes);
        let mut filled: usize = 0;
        while filled < payload_words
            invariant
                payload@.len() == 1 + filled,
                filled <= payload_words,
                payload@[0] == size_bytes,
            decreases payload_words - filled,
        {
            payload.push(0);
            filled = filled + 1;
        }
        let block = Block {
            tag: crate::types::TAG_BLOB,
            forward: Value::null_value(),
            marked: false,
            payload,
        };
        proof {
            assert(spec_wf_block(block));
            assert(spec_block_size_of(block) == 3 * WORD_SIZE + ((size_bytes + WORD_SIZE - 1) / (
            WORD_SIZE as int)) * WORD_SIZE) by (nonlinear_arith)
                requires
                    block.payload@.len() == 1 + (size_bytes + WORD_SIZE - 1) / (WORD_SIZE
                        as int),
                    block.tag == crate::types::TAG_BLOB,
                    spec_block_size_of(block) == (2 + block.payload@.len()) * WORD_SIZE,
            ;
        }
        let ghost pre = *self;
        let v = self.allocate(memory, block);
        proof {
            assert forall|i: int|
                0 <= i < MAX_PARTITIONS && !(#[trigger] pre.partitions@[i]).free
                implies !self.partitions@[i].free && self.partitions@[i].large_content
                == pre.partitions@[i].large_content && self.partitions@[i].large_head
                == pre.partitions@[i].large_head by {
                assert(!pre.partitions@[i].free);
            }
        }
        v
    }

    /// Allocate an array of the given length, with all elements initialized
    /// to the scalar zero.
    pub fn alloc_array<M: Memory>(&mut self, memory: &mut M, length: usize) -> (v: Value)
        requires
            old(self).wf(),
            length <= usize::MAX / WORD_SIZE - 4 * PARTITION_SIZE,
            3 * WORD_SIZE + length * WORD_SIZE <= PARTITION_SIZE ==> old(self).spec_can_allocate_normal(3 * WORD_SIZE + length * WORD_SIZE),
            3 * WORD_SIZE + length * WORD_SIZE > PARTITION_SIZE ==> exists|h: int|
                0 <= h && h + Self::spec_run_length(3 * WORD_SIZE + length * WORD_SIZE)
                    <= MAX_PARTITIONS && (#[trigger] old(self).spec_free_run(
                    h,
                    Self::spec_run_length(3 * WORD_SIZE + length * WORD_SIZE),
                )),
        ensures
            final(self).wf(),
            v.spec_is_ptr(),
            !v.spec_is_null(),
            final(self).spec_blocks().contains_key(v.spec_ptr() as usize),
            final(self).spec_blocks()[v.spec_ptr() as usize].tag == crate::types::TAG_ARRAY,
            final(self).spec_blocks()[v.spec_ptr() as usize].payload@.len() == 1 + length,
            final(self).spec_blocks()[v.spec_ptr() as usize].payload@[0] == length,
            forall|i: int|
                1 <= i < 1 + length ==> (#[trigger] final(self).spec_blocks()[v.spec_ptr()
                    as usize].payload@[i]) == 0usize,
            final(self).spec_blocks()[v.spec_ptr() as usize].forward.spec_ptr() == v.spec_ptr(),
            !final(self).spec_blocks()[v.spec_ptr() as usize].marked,
            final(self).heap_base == old(self).heap_base,
            forall|i: int|
                0 <= i < MAX_PARTITIONS && !(#[trigger] old(self).partitions@[i]).free ==> !final(self).partitions@[i].free && final(self).partitions@[i].large_content == old(self).partitions@[i].large_content && final(self).partitions@[i].large_head == old(self).partitions@[i].large_head,
            3 * WORD_SIZE + length * WORD_SIZE <= PARTITION_SIZE ==> spec_bump_allocated(
                *old(self),
                *final(self),
                final(memory).spec_committed(),
                v,
                3 * WORD_SIZE + length * WORD_SIZE,
            ),
            3 * WORD_SIZE + length * WORD_SIZE > PARTITION_SIZE ==> spec_run_allocated(
                *old(self),
                *final(self),
                final(memory).spec_committed(),
                v,
                3 * WORD_SIZE + length * WORD_SIZE,
            ),
            final(memory).spec_committed() >= old(memory).spec_committed(),
    {
        let mut payload: Vec<usize> = Vec::new();
        payload.push(length);
        let mut filled: usize = 0;
        while filled < length
            invariant
                payload@.len() == 1 + filled,
                filled <= length,
                payload@[0] == length,
                forall|i: int| 1 <= i < payload@.len() ==> (#[trigger] payload@[i]) == 0usize,
            decreases length - filled,
        {
            payload.push(0);
            filled = filled + 1;
        }
        let block = Block {
            tag: crate::types::TAG_ARRAY,
            forward: Value::null_value(),
            marked: false,
            payload,
        };
        proof {
            assert(spec_wf_block(block));
            assert(spec_block_size_of(block) == 3 * WORD_SIZE + length * WORD_SIZE)
                by (nonlinear_arith)
                requires
                    block.payload@.len() == 1 + length,
                    spec_block_size_of(block) == (2 + block.payload@.len()) * WORD_SIZE,
            ;
        }
        let ghost pre = *self;
        let v = self.allocate(memory, block);
        proof {
            assert forall|i: int|
                0 <= i < MAX_PARTITIONS && !(#[trigger] pre.partitions@[i]).free
                implies !self.partitions@[i].free && self.partitions@[i].large_content
                == pre.partitions@[i].large_content && self.partitions@[i].large_head
                == pre.partitions@[i].large_head by {
                assert(!pre.partitions@[i].free);
            }
        }
        v
    }

    /// Retire the current allocation partition and continue allocating in
    /// a free partition.
    pub fn start_new_allocation_partition<M: Memory>(&mut self, memory: &mut M)
        requires
            old(self).wf(),
            exists|j: int|
                0 <= j < MAX_PARTITIONS && (#[trigger] old(self).partitions@[j]).free
                    && old(self).partitions@[j].static_size < PARTITION_SIZE,
        ensures
            final(self).wf(),
            final(self).heap_base == old(self).heap_base,
            final(self).reclaimed == old(self).reclaimed,
            final(self).evacuating == old(self).evacuating,
            old(self).partitions@[final(self).allocation_index as int].free,
            forall|k: int|
                old(self).spec_in_dynamic_space(k) ==> ((#[trigger] final(self).spec_blocks().contains_key(k as usize)) == old(self).spec_blocks().contains_key(
                    k as usize,
                ) && (old(self).spec_blocks().contains_key(k as usize) ==> final(self).spec_blocks()[k as usize] == old(self).spec_blocks()[k as usize])),
    {
        let ghost pre = *self;
        self.close_allocation_partition();
        let fresh = self.allocate_free_partition(WORD_SIZE);
        proof {
            assert(self.partitions@[fresh as int].spec_wf(fresh as int));
        }
        let target = &mut self.partitions[fresh];
        target.free = false;
        proof {
            lemma_partition_bounds(fresh as int);
        }
        self.allocation_index = fresh;
        let end = self.partitions[fresh].end_address();
        memory.grow_memory(end as u64);
        proof {
            assert forall|i: int|
                0 <= i < MAX_PARTITIONS && !(#[trigger] self.partitions@[i]).free && !self
                .partitions@[i].large_content implies spec_tiled(
                self.spec_blocks(),
                self.spec_partition(i).spec_dynamic_start(),
                self.spec_partition(i).spec_dynamic_end(),
            ) by {
                if i != fresh as int {
                    assert(!pre.partitions@[i].free);
                }
                assert(pre.partitions@[i].spec_wf(i));
            }
            assert forall|i: int|
                    0 <= i < MAX_PARTITIONS && (#[trigger] pre.partitions@[i]).large_content
                    implies self.spec_blocks().contains_key(
                    (pre.partitions@[i].spec_large_head() * PARTITION_SIZE) as usize,
                ) && self.spec_blocks()[(pre.partitions@[i].spec_large_head()
                    * PARTITION_SIZE) as usize] == pre.spec_blocks()[(pre.partitions@[
                i].spec_large_head() * PARTITION_SIZE) as usize] by {
                    let h = pre.partitions@[i].spec_large_head();
                    assert(pre.spec_large_run_wf(h));
                    assert(pre.partitions@[h].spec_wf(h));
                    lemma_partition_bounds(h);
                    let size = spec_size_at(pre.spec_blocks(), h * PARTITION_SIZE);
                    lemma_run_length(size);
                    assert(pre.partitions@[h].dynamic_size == PARTITION_SIZE as int);
                    assert(pre.spec_in_dynamic_space(h * PARTITION_SIZE)) by {
                        lemma_partition_of_address(h, h * PARTITION_SIZE);
                    }
                }
            lemma_large_wf_preserved(pre, *self);
            assert forall|i: int|
                0 <= i < MAX_PARTITIONS implies (#[trigger] self.partitions@[i]).spec_wf(i) by {
                assert(pre.partitions@[i].spec_wf(i));
            }
        }
    }

    /// Add the size of the marked object to the owning partition's marked
    /// space. For a large object, the marked space is distributed over its
    /// partition run.
    pub fn record_marked_space(&mut self, address: usize)
        requires
            old(self).wf(),
            old(self).spec_blocks().contains_key(address),
            spec_wf_block(old(self).spec_blocks()[address]),
            spec_block_size_of(old(self).spec_blocks()[address]) <= PARTITION_SIZE ==> old(self).spec_in_dynamic_space(address as int) && address as int + spec_block_size_of(
                old(self).spec_blocks()[address],
            ) <= old(self).partitions@[address as int / (PARTITION_SIZE as int)].spec_dynamic_end()
                && old(self).partitions@[address as int / (PARTITION_SIZE as int)].marked_size
                + spec_block_size_of(old(self).spec_blocks()[address]) <= old(self).partitions@[address as int / (PARTITION_SIZE as int)].dynamic_size,
            spec_block_size_of(old(self).spec_blocks()[address]) > PARTITION_SIZE ==> address
                as int % (PARTITION_SIZE as int) == 0 && 0 <= address as int / (PARTITION_SIZE
                as int) < MAX_PARTITIONS && old(self).partitions@[address as int / (
            PARTITION_SIZE as int)].large_content && old(self).partitions@[address as int / (
            PARTITION_SIZE as int)].spec_large_head() == address as int / (PARTITION_SIZE
                as int),
        ensures
            final(self).wf(),
            final(self).spec_blocks() == old(self).spec_blocks(),
            final(self).allocation_index == old(self).allocation_index,
            final(self).heap_base == old(self).heap_base,
            final(self).reclaimed == old(self).reclaimed,
            final(self).evacuating == old(self).evacuating,
            spec_block_size_of(old(self).spec_blocks()[address]) <= PARTITION_SIZE ==> final(self).partitions@ == old(self).partitions@.update(
                address as int / (PARTITION_SIZE as int),
                (Partition {
                    marked_size: (old(self).partitions@[address as int / (PARTITION_SIZE
                        as int)].marked_size + spec_block_size_of(
                        old(self).spec_blocks()[address],
                    )) as usize,
                    ..old(self).partitions@[address as int / (PARTITION_SIZE as int)]
                }),
            ),
            spec_block_size_of(old(self).spec_blocks()[address]) > PARTITION_SIZE ==> (forall|
                i: int,
            |
                0 <= i < MAX_PARTITIONS && !(address as int / (PARTITION_SIZE as int) <= i
                    < address as int / (PARTITION_SIZE as int) + Self::spec_run_length(
                    spec_size_at(old(self).spec_blocks(), address as int),
                )) ==> (#[trigger] final(self).partitions@[i]) == old(self).partitions@[i])
                && (forall|i: int|
                address as int / (PARTITION_SIZE as int) <= i < address as int / (
                PARTITION_SIZE as int) + Self::spec_run_length(
                    spec_size_at(old(self).spec_blocks(), address as int),
                ) ==> (#[trigger] final(self).partitions@[i]) == (Partition {
                    marked_size: final(self).partitions@[i].marked_size,
                    ..old(self).partitions@[i]
                }) && final(self).partitions@[i].marked_size == (if i < address as int / (
                PARTITION_SIZE as int) + Self::spec_run_length(
                    spec_size_at(old(self).spec_blocks(), address as int),
                ) - 1 {
                    PARTITION_SIZE as int
                } else {
                    spec_size_at(old(self).spec_blocks(), address as int) % (PARTITION_SIZE
                        as int)
                })),
    {
        let ghost pre = *self;
        let size = self.get_block(address).block_size();
        if size <= PARTITION_SIZE {
            let index = address / PARTITION_SIZE;
            let partition = &mut self.partitions[index];
            partition.marked_size = partition.marked_size + size;
            proof {
                assert forall|i: int|
                    0 <= i < MAX_PARTITIONS implies (#[trigger] self.partitions@[i]).spec_wf(
                    i,
                ) by {
                    assert(pre.partitions@[i].spec_wf(i));
                }
                assert forall|i: int|
                    0 <= i < MAX_PARTITIONS && !(#[trigger] self.partitions@[i]).free && !self
                    .partitions@[i].large_content implies spec_tiled(
                    self.spec_blocks(),
                    self.spec_partition(i).spec_dynamic_start(),
                    self.spec_partition(i).spec_dynamic_end(),
                ) by {
                    assert(pre.partitions@[i].spec_wf(i));
                    assert(pre.spec_tiling_wf());
                }
                lemma_large_wf_preserved(pre, *self);
            }
        } else {
            self.mark_large_object(address);
        }
    }

    /// Distribute the marked space of a large object over its partition
    /// run: all partitions but the last count fully, the last counts the
    /// remainder of the object size.
    pub fn mark_large_object(&mut self, address: usize)
        requires
            old(self).wf(),
            address as int % (PARTITION_SIZE as int) == 0,
            0 <= address as int / (PARTITION_SIZE as int) < MAX_PARTITIONS,
            old(self).partitions@[address as int / (PARTITION_SIZE as int)].large_content,
            old(self).partitions@[address as int / (PARTITION_SIZE as int)].spec_large_head()
                == address as int / (PARTITION_SIZE as int),
        ensures
            final(self).wf(),
            final(self).spec_blocks() == old(self).spec_blocks(),
            final(self).allocation_index == old(self).allocation_index,
            final(self).heap_base == old(self).heap_base,
            final(self).reclaimed == old(self).reclaimed,
            final(self).evacuating == old(self).evacuating,
            forall|i: int|
                0 <= i < MAX_PARTITIONS && !(address as int / (PARTITION_SIZE as int) <= i
                    < address as int / (PARTITION_SIZE as int) + Self::spec_run_length(
                    spec_size_at(old(self).spec_blocks(), address as int),
                )) ==> (#[trigger] final(self).partitions@[i]) == old(self).partitions@[i],
            forall|i: int|
                address as int / (PARTITION_SIZE as int) <= i < address as int / (PARTITION_SIZE
                    as int) + Self::spec_run_length(
                    spec_size_at(old(self).spec_blocks(), address as int),
                ) ==> (#[trigger] final(self).partitions@[i]) == (Partition {
                    marked_size: final(self).partitions@[i].marked_size,
                    ..old(self).partitions@[i]
                }) && final(self).partitions@[i].marked_size == (if i < address as int / (
                PARTITION_SIZE as int) + Self::spec_run_length(
                    spec_size_at(old(self).spec_blocks(), address as int),
                ) - 1 {
                    PARTITION_SIZE as int
                } else {
                    spec_size_at(old(self).spec_blocks(), address as int) % (PARTITION_SIZE
                        as int)
                }),
    {
        let ghost pre = *self;
        let head = address / PARTITION_SIZE;
        proof {
            assert(pre.spec_large_run_wf(head as int));
            assert((head as int) * PARTITION_SIZE == address as int) by (nonlinear_arith)
                requires
                    address as int % (PARTITION_SIZE as int) == 0,
                    head as int == address as int / (PARTITION_SIZE as int),
                    PARTITION_SIZE > 0,
            ;
        }
        let size = self.get_block(address).block_size();
        proof {
            assert(Self::spec_run_length(size as int) <= MAX_PARTITIONS);
            lemma_run_size_bound(size as int);
            lemma_run_length(size as int);
        }
        let number_of_partitions = (size - 1) / PARTITION_SIZE + 1;
        let mut offset: usize = 0;
        while offset < number_of_partitions
            invariant
                pre.wf(),
                head as int == address as int / (PARTITION_SIZE as int),
                (head as int) * PARTITION_SIZE == address as int,
                pre.spec_large_run_wf(head as int),
                pre.spec_blocks().contains_key(address),
                size == spec_size_at(pre.spec_blocks(), address as int),
                PARTITION_SIZE < size,
                size + PARTITION_SIZE - 1 <= usize::MAX,
                number_of_partitions == Self::spec_run_length(size as int),
                head + number_of_partitions <= MAX_PARTITIONS,
                offset <= number_of_partitions,
                self.partitions@.len() == MAX_PARTITIONS,
                self.allocation_index == pre.allocation_index,
                self.heap_base == pre.heap_base,
                self.reclaimed == pre.reclaimed,
                self.evacuating == pre.evacuating,
                self.spec_blocks() == pre.spec_blocks(),
                forall|i: int|
                    0 <= i < MAX_PARTITIONS && !(head as int <= i < head as int + offset as int)
                        ==> (#[trigger] self.partitions@[i]) == pre.partitions@[i],
                forall|i: int|
                    head as int <= i < head as int + offset as int ==> (#[trigger] self
                        .partitions@[i]) == (Partition {
                        marked_size: (if i < head as int + number_of_partitions - 1 {
                            PARTITION_SIZE as usize
                        } else {
                            (size as int % (PARTITION_SIZE as int)) as usize
                        }),
                        ..pre.partitions@[i]
                    }),
            decreases number_of_partitions - offset,
        {
            let index = head + offset;
            proof {
                assert(pre.partitions@[index as int].large_content
                    && pre.partitions@[index as int].dynamic_size == (if (index as int) < (head
                    as int) + number_of_partitions - 1 {
                    PARTITION_SIZE as int
                } else {
                    size - (number_of_partitions - 1) * PARTITION_SIZE
                }));
            }
            let partition = &mut self.partitions[index];
            if offset == number_of_partitions - 1 {
                partition.marked_size = size % PARTITION_SIZE;
            } else {
                partition.marked_size = PARTITION_SIZE;
            }
            offset = offset + 1;
        }
        proof {
            assert forall|i: int|
                0 <= i < MAX_PARTITIONS implies (#[trigger] self.partitions@[i]).spec_wf(i) by {
                assert(pre.partitions@[i].spec_wf(i));
                if head as int <= i < head as int + number_of_partitions as int {
                    assert(pre.partitions@[i].dynamic_size == (if i < head as int
                        + number_of_partitions - 1 {
                        PARTITION_SIZE as int
                    } else {
                        size - (number_of_partitions - 1) * PARTITION_SIZE
                    }));
                }
            }
            assert forall|i: int|
                0 <= i < MAX_PARTITIONS && !(#[trigger] self.partitions@[i]).free && !self
                .partitions@[i].large_content implies spec_tiled(
                self.spec_blocks(),
                self.spec_partition(i).spec_dynamic_start(),
                self.spec_partition(i).spec_dynamic_end(),
            ) by {
                assert(pre.partitions@[i].spec_wf(i));
                assert(pre.spec_tiling_wf());
                assert(self.partitions@[i] == pre.partitions@[i]);
            }
            lemma_large_wf_preserved(pre, *self);
        }
    }
}



/// Sum of the dynamic sizes of the partitions `[from, to)`.
pub open spec fn spec_run_dynamic_sum(partitions: Seq<Partition>, from: int, to: int) -> int
    decreases to - from,
{
    if from >= to {
        0
    } else {
        partitions[from].dynamic_size + spec_run_dynamic_sum(partitions, from + 1, to)
    }
}

/// Partition `i` belongs to a large object whose run head block is
/// unmarked, so collecting large objects frees it.
pub open spec fn spec_large_garbage(
    partitions: Seq<Partition>,
    blocks: Map<usize, Block>,
    i: int,
) -> bool {
    partitions[i].large_content && !blocks[(partitions[i].spec_large_head() * PARTITION_SIZE)
        as usize].marked
}

/// Total dynamic space of the first `count` partitions that belong to
/// unreachable large objects: the amount freed by collecting them.
pub open spec fn spec_large_garbage_sum(
    partitions: Seq<Partition>,
    blocks: Map<usize, Block>,
    count: int,
) -> int
    decreases count,
{
    if count <= 0 {
        0
    } else {
        spec_large_garbage_sum(partitions, blocks, count - 1) + (if spec_large_garbage(
            partitions,
            blocks,
            count - 1,
        ) {
            partitions[count - 1].dynamic_size as int
        } else {
            0
        })
    }
}

pub proof fn lemma_run_sum_extend(partitions: Seq<Partition>, from: int, to: int)
    requires
        from <= to,
    ensures
        spec_run_dynamic_sum(partitions, from, to + 1) == spec_run_dynamic_sum(
            partitions,
            from,
            to,
        ) + partitions[to].dynamic_size,
    decreases to - from,
{
    if from < to {
        lemma_run_sum_extend(partitions, from + 1, to);
    } else {
        assert(spec_run_dynamic_sum(partitions, to + 1, to + 1) == 0);
    }
}

pub proof fn lemma_run_sum_nonneg(partitions: Seq<Partition>, from: int, to: int)
    ensures
        spec_run_dynamic_sum(partitions, from, to) >= 0,
    decreases to - from,
{
    if from < to {
        lemma_run_sum_nonneg(partitions, from + 1, to);
    }
}

/// Two partition arrays that agree on a range have the same dynamic sum
/// over it.
pub proof fn lemma_run_sum_agree(
    first: Seq<Partition>,
    second: Seq<Partition>,
    from: int,
    to: int,
)
    requires
        forall|j: int| from <= j < to ==> (#[trigger] first[j]) == second[j],
    ensures
        spec_run_dynamic_sum(first, from, to) == spec_run_dynamic_sum(second, from, to),
    decreases to - from,
{
    if from < to {
        lemma_run_sum_agree(first, second, from + 1, to);
    }
}

/// The garbage sum does not change over a stretch without large garbage.
pub proof fn lemma_garbage_sum_skip(
    partitions: Seq<Partition>,
    blocks: Map<usize, Block>,
    from: int,
    to: int,
)
    requires
        0 <= from <= to,
        forall|j: int| from <= j < to ==> !spec_large_garbage(partitions, blocks, j),
    ensures
        spec_large_garbage_sum(partitions, blocks, to) == spec_large_garbage_sum(
            partitions,
            blocks,
            from,
        ),
    decreases to - from,
{
    if from < to {
        lemma_garbage_sum_skip(partitions, blocks, from, to - 1);
    }
}

/// The garbage sum grows by exactly the run's dynamic space over a run of
/// large garbage partitions.
pub proof fn lemma_garbage_sum_run(
    partitions: Seq<Partition>,
    blocks: Map<usize, Block>,
    from: int,
    to: int,
)
    requires
        0 <= from <= to,
        forall|j: int| from <= j < to ==> spec_large_garbage(partitions, blocks, j),
    ensures
        spec_large_garbage_sum(partitions, blocks, to) == spec_large_garbage_sum(
            partitions,
            blocks,
            from,
        ) + spec_run_dynamic_sum(partitions, from, to),
    decreases to - from,
{
    if from < to {
        lemma_garbage_sum_run(partitions, blocks, from, to - 1);
        lemma_run_sum_extend(partitions, from, to - 1);
    }
}

pub proof fn lemma_garbage_sum_nonneg(
    partitions: Seq<Partition>,
    blocks: Map<usize, Block>,
    count: int,
)
    ensures
        spec_large_garbage_sum(partitions, blocks, count) >= 0,
    decreases count,
{
    if count > 0 {
        lemma_garbage_sum_nonneg(partitions, blocks, count - 1);
    }
}

/// Saturating accumulation composes.
pub proof fn lemma_sat_chain(base: int, first: int, second: int)
    requires
        0 <= base,
        0 <= first,
        0 <= second,
    ensures
        spec_sat_add64(spec_sat_add64(base, first), second) == spec_sat_add64(
            base,
            first + second,
        ),
{
}

impl PartitionedHeap {
    /// Free the whole partition run of an unreachable large object and
    /// account the freed space as reclaimed.
    fn free_large_run(&mut self, head: usize, number_of_partitions: usize)
        requires
            old(self).wf(),
            (head as int) < MAX_PARTITIONS,
            old(self).partitions@[head as int].large_content,
            old(self).partitions@[head as int].spec_large_head() == head as int,
            number_of_partitions as int == Self::spec_run_length(
                spec_size_at(old(self).spec_blocks(), head as int * PARTITION_SIZE),
            ),
            head + number_of_partitions <= MAX_PARTITIONS,
            forall|j: int|
                head as int <= j < head as int + number_of_partitions ==> (#[trigger] old(self).partitions@[j]).large_content && old(self).partitions@[j].spec_large_head()
                    == head as int,
            (old(self).allocation_index as int) < head as int || old(self).allocation_index as int >= head as int + number_of_partitions,
        ensures
            final(self).wf(),
            final(self).spec_blocks() == old(self).spec_blocks(),
            final(self).allocation_index == old(self).allocation_index,
            final(self).heap_base == old(self).heap_base,
            final(self).evacuating == old(self).evacuating,
            final(self).reclaimed == spec_sat_add64(
                old(self).reclaimed as int,
                spec_run_dynamic_sum(
                    old(self).partitions@,
                    head as int,
                    head as int + number_of_partitions,
                ),
            ),
            forall|i: int|
                0 <= i < MAX_PARTITIONS && !(head as int <= i < head as int
                    + number_of_partitions) ==> (#[trigger] final(self).partitions@[i]) == old(self).partitions@[i],
            forall|i: int|
                head as int <= i < head as int + number_of_partitions ==> (#[trigger] final(self).partitions@[i]).free && !final(self).partitions@[i].large_content && final(self).partitions@[i].dynamic_size == 0 && final(self).partitions@[i].marked_size == 0
                    && !final(self).partitions@[i].evacuate && !final(self).partitions@[i].update
                    && final(self).partitions@[i].static_size == old(self).partitions@[i].static_size,
    {
        let ghost pre = *self;
        let mut offset: usize = 0;
        while offset < number_of_partitions
            invariant
                pre.wf(),
                (head as int) < MAX_PARTITIONS,
                head + number_of_partitions <= MAX_PARTITIONS,
                offset <= number_of_partitions,
                self.partitions@.len() == MAX_PARTITIONS,
                self.allocation_index == pre.allocation_index,
                self.heap_base == pre.heap_base,
                self.evacuating == pre.evacuating,
                self.spec_blocks() == pre.spec_blocks(),
                self.reclaimed == spec_sat_add64(
                    pre.reclaimed as int,
                    spec_run_dynamic_sum(
                        pre.partitions@,
                        head as int,
                        head as int + offset as int,
                    ),
                ),
                forall|i: int|
                    0 <= i < MAX_PARTITIONS && !(head as int <= i < head as int + offset as int)
                        ==> (#[trigger] self.partitions@[i]) == pre.partitions@[i],
                forall|i: int|
                    head as int <= i < head as int + offset as int ==> (#[trigger] self
                        .partitions@[i]) == (Partition {
                        free: true,
                        large_content: false,
                        dynamic_size: 0,
                        marked_size: 0,
                        evacuate: false,
                        update: false,
                        ..pre.partitions@[i]
                    }),
            decreases number_of_partitions - offset,
        {
            let index = head + offset;
            proof {
                assert(pre.partitions@[index as int].spec_wf(index as int));
            }
            let freed_space = self.partitions[index].dynamic_size;
            proof {
                lemma_run_sum_extend(pre.partitions@, head as int, head as int + offset as int);
                lemma_run_sum_nonneg(pre.partitions@, head as int, head as int + offset as int);
                lemma_sat_chain(
                    pre.reclaimed as int,
                    spec_run_dynamic_sum(
                        pre.partitions@,
                        head as int,
                        head as int + offset as int,
                    ),
                    freed_space as int,
                );
            }
            let partition = &mut self.partitions[index];
            partition.free = true;
            partition.large_content = false;
            partition.dynamic_size = 0;
            partition.marked_size = 0;
            partition.evacuate = false;
            partition.update = false;
            self.reclaimed = self.reclaimed.saturating_add(freed_space as u64);
            offset = offset + 1;
        }
        proof {
            let ghost post = *self;
            assert forall|i: int|
                0 <= i < MAX_PARTITIONS implies (#[trigger] post.partitions@[i]).spec_wf(i) by {
                assert(pre.partitions@[i].spec_wf(i));
            }
            assert forall|i: int|
                0 <= i < MAX_PARTITIONS && !(#[trigger] post.partitions@[i]).free && !post
                .partitions@[i].large_content implies spec_tiled(
                post.spec_blocks(),
                post.spec_partition(i).spec_dynamic_start(),
                post.spec_partition(i).spec_dynamic_end(),
            ) by {
                assert(post.partitions@[i] == pre.partitions@[i]);
                assert(pre.spec_tiling_wf());
            }
            assert forall|i: int|
                0 <= i < MAX_PARTITIONS && (#[trigger] post.partitions@[i]).large_content
                implies post.spec_large_run_wf(post.spec_partition(i).spec_large_head())
                && post.spec_partition(i).spec_large_head() <= i < post.spec_partition(
                i,
            ).spec_large_head() + Self::spec_run_length(
                spec_size_at(
                    post.spec_blocks(),
                    post.spec_partition(i).spec_large_head() * PARTITION_SIZE,
                ),
            ) by {
                let h = post.spec_partition(i).spec_large_head();
                assert(post.partitions@[i] == pre.partitions@[i]);
                assert(pre.partitions@[i].large_content);
                assert(pre.spec_large_run_wf(h));
                assert(!(head as int <= h < head as int + number_of_partitions)) by {
                    if head as int <= h < head as int + number_of_partitions {
                        assert(pre.partitions@[h].spec_large_head() == head as int);
                        assert(pre.partitions@[i].spec_large_head() == h);
                        assert(pre.spec_large_run_wf(head as int));
                        assert(pre.partitions@[h].large_content);
                        assert(h == head as int);
                        assert(!(head as int <= i < head as int + number_of_partitions));
                        assert(pre.spec_large_run_wf(h));
                        assert(h <= i < h + Self::spec_run_length(
                            spec_size_at(pre.spec_blocks(), h * PARTITION_SIZE),
                        ));
                        assert(false);
                    }
                }
                assert forall|j: int|
                    h <= j < h + Self::spec_run_length(
                        spec_size_at(pre.spec_blocks(), h * PARTITION_SIZE),
                    ) implies (#[trigger] post.partitions@[j]).large_content && post
                    .spec_partition(j).spec_large_head() == h && post.spec_partition(
                    j,
                ).dynamic_size == pre.spec_partition(j).dynamic_size by {
                    assert(pre.partitions@[j].large_content);
                    assert(pre.partitions@[j].spec_large_head() == h);
                    assert(!(head as int <= j < head as int + number_of_partitions)) by {
                        if head as int <= j < head as int + number_of_partitions {
                            assert(pre.partitions@[j].spec_large_head() == head as int);
                        }
                    }
                }
            }
        }
    }

    /// Iterate the partition array; every large object whose head block is
    /// unmarked has its whole partition run freed.
    pub fn collect_large_objects(&mut self)
        requires
            old(self).wf(),
        ensures
            final(self).wf(),
            final(self).spec_blocks() == old(self).spec_blocks(),
            final(self).allocation_index == old(self).allocation_index,
            final(self).heap_base == old(self).heap_base,
            final(self).evacuating == old(self).evacuating,
            // The reclaimed counter grows by exactly the total dynamic
            // space of the freed large objects.
            final(self).reclaimed == spec_sat_add64(
                old(self).reclaimed as int,
                spec_large_garbage_sum(
                    old(self).partitions@,
                    old(self).spec_blocks(),
                    MAX_PARTITIONS as int,
                ),
            ),
            forall|i: int|
                0 <= i < MAX_PARTITIONS && !(#[trigger] old(self).partitions@[i]).large_content
                    ==> final(self).partitions@[i] == old(self).partitions@[i],
            forall|i: int|
                0 <= i < MAX_PARTITIONS && (#[trigger] old(self).partitions@[i]).large_content
                    && old(self).spec_blocks()[(old(self).partitions@[i].spec_large_head()
                    * PARTITION_SIZE) as usize].marked ==> final(self).partitions@[i] == old(self).partitions@[i],
            forall|i: int|
                0 <= i < MAX_PARTITIONS && (#[trigger] old(self).partitions@[i]).large_content
                    && !old(self).spec_blocks()[(old(self).partitions@[i].spec_large_head()
                    * PARTITION_SIZE) as usize].marked ==> final(self).partitions@[i].free
                    && !final(self).partitions@[i].large_content && final(self).partitions@[i].dynamic_size == 0 && !final(self).partitions@[i].evacuate
                    && final(self).partitions@[i].static_size == old(self).partitions@[i].static_size,
    {
        let ghost pre = *self;
        let mut index: usize = 0;
        while index < MAX_PARTITIONS
            invariant
                pre.wf(),
                index <= MAX_PARTITIONS,
                self.partitions@.len() == MAX_PARTITIONS,
                self.allocation_index == pre.allocation_index,
                self.heap_base == pre.heap_base,
                self.evacuating == pre.evacuating,
                self.spec_blocks() == pre.spec_blocks(),
                self.reclaimed == spec_sat_add64(
                    pre.reclaimed as int,
                    spec_large_garbage_sum(pre.partitions@, pre.spec_blocks(), index as int),
                ),
                self.wf(),
                forall|h: int|
                    0 <= h < MAX_PARTITIONS && (#[trigger] pre.partitions@[h]).large_content
                        && pre.partitions@[h].spec_large_head() == h ==> h >= index || h
                        + Self::spec_run_length(
                        spec_size_at(pre.spec_blocks(), h * PARTITION_SIZE),
                    ) <= index,
                forall|i: int|
                    index <= i < MAX_PARTITIONS ==> (#[trigger] self.partitions@[i])
                        == pre.partitions@[i],
                forall|i: int|
                    0 <= i < MAX_PARTITIONS && !(#[trigger] pre.partitions@[i]).large_content
                        ==> self.partitions@[i] == pre.partitions@[i],
                forall|i: int|
                    0 <= i < index && (#[trigger] pre.partitions@[i]).large_content && pre
                        .spec_blocks()[(pre.partitions@[i].spec_large_head() * PARTITION_SIZE)
                        as usize].marked ==> self.partitions@[i] == pre.partitions@[i],
                forall|i: int|
                    0 <= i < index && (#[trigger] pre.partitions@[i]).large_content && !pre
                        .spec_blocks()[(pre.partitions@[i].spec_large_head() * PARTITION_SIZE)
                        as usize].marked ==> self.partitions@[i].free
                        && !self.partitions@[i].large_content
                        && self.partitions@[i].dynamic_size == 0
                        && !self.partitions@[i].evacuate
                        && self.partitions@[i].static_size == pre.partitions@[i].static_size,
            decreases MAX_PARTITIONS - index,
        {
            proof {
                assert(self.partitions@[index as int] == pre.partitions@[index as int]);
            }
            if self.partitions[index].has_large_content() {
                proof {
                    let h = pre.partitions@[index as int].spec_large_head();
                    assert(pre.spec_large_run_wf(h));
                    assert(h == index as int) by {
                        if h < index as int {
                            assert(pre.partitions@[h].large_content);
                            assert(pre.partitions@[h].spec_large_head() == h);
                            assert(h >= index as int || h + Self::spec_run_length(
                                spec_size_at(pre.spec_blocks(), h * PARTITION_SIZE),
                            ) <= index as int);
                        }
                    }
                    assert((index as int) * PARTITION_SIZE == index * PARTITION_SIZE);
                }
                proof {
                    lemma_partition_bounds(index as int);
                }
                let address = index * PARTITION_SIZE;
                let marked = self.get_block(address).is_marked();
                let size = self.get_block(address).block_size();
                proof {
                    lemma_run_size_bound(size as int);
                    lemma_run_length(size as int);
                }
                let number_of_partitions = (size - 1) / PARTITION_SIZE + 1;
                let ghost before_free = *self;
                if !marked {
                    proof {
                        assert((self.allocation_index as int) < index as int || self
                            .allocation_index as int >= index as int + number_of_partitions)
                            by {
                            let a = self.allocation_index as int;
                            if index as int <= a < index as int + number_of_partitions {
                                assert(pre.partitions@[a].large_content);
                                assert(!self.partitions@[a].large_content);
                                assert(self.partitions@[a] == pre.partitions@[a]);
                            }
                        }
                        assert forall|j: int|
                            index as int <= j < index as int + number_of_partitions implies (
                        #[trigger] self.partitions@[j]).large_content && self.partitions@[
                        j].spec_large_head() == index as int by {
                            assert(pre.partitions@[j].large_content);
                            assert(self.partitions@[j] == pre.partitions@[j]);
                        }
                    }
                    self.free_large_run(index, number_of_partitions);
                }
                proof {
                    assert forall|i: int|
                        index as int <= i < index as int + number_of_partitions implies (pre
                        .partitions@[i].large_content && pre.partitions@[i].spec_large_head()
                        == index as int) by {
                        assert(pre.spec_large_run_wf(index as int));
                    }
                    // Account the garbage sum over the run.
                    if marked {
                        assert forall|j: int|
                            index as int <= j < index as int + number_of_partitions
                            implies !spec_large_garbage(pre.partitions@, pre.spec_blocks(), j)
                            by {
                            assert(pre.partitions@[j].spec_large_head() == index as int);
                        }
                        lemma_garbage_sum_skip(
                            pre.partitions@,
                            pre.spec_blocks(),
                            index as int,
                            index as int + number_of_partitions,
                        );
                    } else {
                        assert forall|j: int|
                            index as int <= j < index as int + number_of_partitions
                            implies spec_large_garbage(pre.partitions@, pre.spec_blocks(), j)
                            by {
                            assert(pre.partitions@[j].spec_large_head() == index as int);
                        }
                        lemma_run_sum_agree(
                            before_free.partitions@,
                            pre.partitions@,
                            index as int,
                            index as int + number_of_partitions,
                        );
                        lemma_garbage_sum_run(
                            pre.partitions@,
                            pre.spec_blocks(),
                            index as int,
                            index as int + number_of_partitions,
                        );
                        lemma_garbage_sum_nonneg(
                            pre.partitions@,
                            pre.spec_blocks(),
                            index as int,
                        );
                        lemma_run_sum_nonneg(
                            pre.partitions@,
                            index as int,
                            index as int + number_of_partitions,
                        );
                        lemma_sat_chain(
                            pre.reclaimed as int,
                            spec_large_garbage_sum(
                                pre.partitions@,
                                pre.spec_blocks(),
                                index as int,
                            ),
                            spec_run_dynamic_sum(
                                pre.partitions@,
                                index as int,
                                index as int + number_of_partitions,
                            ),
                        );
                    }
                }
                index = index + number_of_partitions;
            } else {
                proof {
                    assert(!spec_large_garbage(pre.partitions@, pre.spec_blocks(), index
                        as int));
                    assert(spec_large_garbage_sum(
                        pre.partitions@,
                        pre.spec_blocks(),
                        index as int + 1,
                    ) == spec_large_garbage_sum(
                        pre.partitions@,
                        pre.spec_blocks(),
                        index as int,
                    ));
                }
                index = index + 1;
            }
        }
    }

    /// Bind a zeroed mark bitmap to the eligible partition at mark phase
    /// start.
    pub fn assign_bitmap(&mut self, index: usize)
        requires
            old(self).wf(),
            index < MAX_PARTITIONS,
            !old(self).partitions@[index as int].free,
            !old(self).partitions@[index as int].large_content,
            !old(self).partitions@[index as int].bitmap.spec_assigned(),
        ensures
            final(self).wf(),
            final(self).spec_blocks() == old(self).spec_blocks(),
            final(self).allocation_index == old(self).allocation_index,
            final(self).heap_base == old(self).heap_base,
            final(self).reclaimed == old(self).reclaimed,
            final(self).evacuating == old(self).evacuating,
            final(self).partitions@ == old(self).partitions@.update(
                index as int,
                (Partition {
                    bitmap: final(self).partitions@[index as int].bitmap,
                    ..old(self).partitions@[index as int]
                }),
            ),
            final(self).partitions@[index as int].bitmap.spec_assigned(),
            forall|b: int| !final(self).partitions@[index as int].bitmap.spec_bit(b),
    {
        let ghost pre = *self;
        proof {
            assert(pre.partitions@[index as int].spec_wf(index as int));
        }
        let partition = &mut self.partitions[index];
        partition.bitmap.assign();
        proof {
            assert forall|i: int|
                0 <= i < MAX_PARTITIONS implies (#[trigger] self.partitions@[i]).spec_wf(i) by {
                assert(pre.partitions@[i].spec_wf(i));
            }
            assert forall|i: int|
                0 <= i < MAX_PARTITIONS && !(#[trigger] self.partitions@[i]).free && !self
                .partitions@[i].large_content implies spec_tiled(
                self.spec_blocks(),
                self.spec_partition(i).spec_dynamic_start(),
                self.spec_partition(i).spec_dynamic_end(),
            ) by {
                assert(pre.spec_tiling_wf());
                assert(pre.partitions@[i].spec_wf(i));
            }
            lemma_large_wf_preserved(pre, *self);
        }
    }

    /// Whether the mark bit for the object at the given partition offset is
    /// set.
    pub fn is_marked_in_bitmap(&self, index: usize, offset_in_partition: usize) -> (marked:
        bool)
        requires
            self.wf(),
            index < MAX_PARTITIONS,
            self.partitions@[index as int].bitmap.spec_assigned(),
            offset_in_partition as int % (WORD_SIZE as int) == 0,
            offset_in_partition < PARTITION_SIZE,
        ensures
            marked == self.partitions@[index as int].bitmap.spec_bit(
                MarkBitmap::spec_bit_of_offset(offset_in_partition as int),
            ),
    {
        self.partitions[index].bitmap.is_marked(offset_in_partition)
    }

    /// Set the mark bit for the object at the given partition offset.
    pub fn mark_in_bitmap(&mut self, index: usize, offset_in_partition: usize)
        requires
            old(self).wf(),
            index < MAX_PARTITIONS,
            old(self).partitions@[index as int].bitmap.spec_assigned(),
            offset_in_partition as int % (WORD_SIZE as int) == 0,
            offset_in_partition < PARTITION_SIZE,
        ensures
            final(self).wf(),
            final(self).spec_blocks() == old(self).spec_blocks(),
            final(self).allocation_index == old(self).allocation_index,
            final(self).heap_base == old(self).heap_base,
            final(self).reclaimed == old(self).reclaimed,
            final(self).evacuating == old(self).evacuating,
            final(self).partitions@ == old(self).partitions@.update(
                index as int,
                (Partition {
                    bitmap: final(self).partitions@[index as int].bitmap,
                    ..old(self).partitions@[index as int]
                }),
            ),
            final(self).partitions@[index as int].bitmap.spec_assigned(),
            final(self).partitions@[index as int].bitmap.spec_bit(
                MarkBitmap::spec_bit_of_offset(offset_in_partition as int),
            ),
            forall|b: int|
                b != MarkBitmap::spec_bit_of_offset(offset_in_partition as int) ==> final(self).partitions@[index as int].bitmap.spec_bit(b) == old(self).partitions@[index
                    as int].bitmap.spec_bit(b),
    {
        let ghost pre = *self;
        proof {
            assert(pre.partitions@[index as int].spec_wf(index as int));
        }
        let partition = &mut self.partitions[index];
        partition.bitmap.mark(offset_in_partition);
        proof {
            assert forall|i: int|
                0 <= i < MAX_PARTITIONS implies (#[trigger] self.partitions@[i]).spec_wf(i) by {
                assert(pre.partitions@[i].spec_wf(i));
            }
            assert forall|i: int|
                0 <= i < MAX_PARTITIONS && !(#[trigger] self.partitions@[i]).free && !self
                .partitions@[i].large_content implies spec_tiled(
                self.spec_blocks(),
                self.spec_partition(i).spec_dynamic_start(),
                self.spec_partition(i).spec_dynamic_end(),
            ) by {
                assert(pre.spec_tiling_wf());
                assert(pre.partitions@[i].spec_wf(i));
            }
            lemma_large_wf_preserved(pre, *self);
        }
    }
}

impl PartitionedHeap {
    /// A partition index at which an iteration may stand: at the array end,
    /// or on a partition that is not in the middle of a large-object run.
    pub open spec fn spec_valid_partition_position(self, index: int) -> bool {
        ||| index == MAX_PARTITIONS
        ||| (0 <= index < MAX_PARTITIONS && (self.partitions@[index].large_content
            ==> self.partitions@[index].spec_large_head() == index))
    }

    /// Walk the dynamic space of a non-free, non-large partition block by
    /// block; the walk lands exactly on the dynamic space end. This is the
    /// sweepability of partitions: the tail filler written when a partition
    /// is retired keeps bump-allocated partitions traversable.
    pub fn sweep_partition(&self, index: usize) -> (end: usize)
        requires
            self.wf(),
            index < MAX_PARTITIONS,
            !self.partitions@[index as int].free,
            !self.partitions@[index as int].large_content,
        ensures
            end == self.partitions@[index as int].spec_dynamic_end(),
    {
        proof {
            lemma_partition_bounds(index as int);
            assert(self.partitions@[index as int].spec_wf(index as int));
            assert(self.spec_tiling_wf());
        }
        let partition = &self.partitions[index];
        let end = partition.dynamic_space_end();
        let mut sweep: usize = partition.dynamic_space_start();
        while sweep < end
            invariant
                self.wf(),
                index < MAX_PARTITIONS,
                end == self.partitions@[index as int].spec_dynamic_end(),
                end <= MAX_PARTITIONS * PARTITION_SIZE,
                spec_tiled(self.spec_blocks(), sweep as int, end as int),
                sweep <= end,
            decreases end - sweep,
        {
            let block = self.get_block(sweep);
            let size = block.block_size();
            sweep = sweep + size;
        }
        sweep
    }
}

/// Iterates over the partitions of the heap, skipping free partitions and
/// the interior partitions of large-object runs. Instantiated per GC
/// increment over a retained [`HeapIteratorState`].
pub struct PartitionedHeapIterator<'a> {
    pub heap: &'a PartitionedHeap,
    pub partition_index: usize,
}

impl<'a> PartitionedHeapIterator<'a> {
    pub open spec fn spec_heap(self) -> PartitionedHeap {
        *self.heap
    }

    pub open spec fn spec_index(self) -> int {
        self.partition_index as int
    }

    /// The iterator stands at the array end or on a non-free partition that
    /// is not in the middle of a large-object run.
    pub open spec fn wf(self) -> bool {
        &&& self.heap.wf()
        &&& self.spec_heap().spec_valid_partition_position(self.spec_index())
        &&& (self.spec_index() < MAX_PARTITIONS ==> !self.spec_heap().partitions@[self.spec_index()].free)
    }

    /// Advance over free partitions to the next partition holding content.
    fn skip_free_partitions(&mut self)
        requires
            old(self).heap.wf(),
            old(self).spec_heap().spec_valid_partition_position(old(self).spec_index()),
        ensures
            final(self).wf(),
            final(self).heap == old(self).heap,
            final(self).spec_index() >= old(self).spec_index(),
            forall|j: int|
                old(self).spec_index() <= j < final(self).spec_index() ==> (#[trigger] final(self).spec_heap().partitions@[j]).free,
    {
        let ghost start = self.partition_index as int;
        while self.partition_index < MAX_PARTITIONS && self.heap.get_partition(
            self.partition_index,
        ).is_free()
            invariant
                self.heap == old(self).heap,
                self.heap.wf(),
                start <= self.partition_index <= MAX_PARTITIONS,
                forall|j: int|
                    start <= j < self.partition_index ==> (#[trigger] self
                        .heap.partitions@[j]).free,
            decreases MAX_PARTITIONS - self.partition_index,
        {
            self.partition_index = self.partition_index + 1;
        }
        proof {
            let i = self.partition_index as int;
            if i < MAX_PARTITIONS && self.heap.partitions@[i].large_content {
                let h = self.heap.partitions@[i].spec_large_head();
                assert(self.heap.spec_large_run_wf(h));
                if h < i {
                    assert(h <= i - 1 < h + PartitionedHeap::spec_run_length(
                        spec_size_at(self.heap.spec_blocks(), h * PARTITION_SIZE),
                    ));
                    assert(self.heap.partitions@[i - 1].large_content);
                    assert(!self.heap.partitions@[i - 1].free);
                    if start <= i - 1 {
                        assert(self.heap.partitions@[i - 1].free);
                        assert(false);
                    } else {
                        assert(start == i);
                        assert(false);
                    }
                }
            }
        }
    }

    /// Instantiate the iterator from the retained state.
    pub fn load_from(heap: &'a PartitionedHeap, state: &HeapIteratorState) -> (iterator:
        PartitionedHeapIterator<'a>)
        requires
            heap.wf(),
            heap.spec_valid_partition_position(state.partition_index as int),
        ensures
            iterator.wf(),
            iterator.spec_heap() == *heap,
            iterator.spec_index() >= state.partition_index,
            forall|j: int|
                state.partition_index <= j < iterator.spec_index() ==> (#[trigger] heap
                    .partitions@[j]).free,
    {
        let mut iterator = PartitionedHeapIterator { heap, partition_index: state.partition_index };
        iterator.skip_free_partitions();
        iterator
    }

    /// Retain the iteration position for the next increment.
    pub fn save_to(&self, state: &mut HeapIteratorState)
        ensures
            final(state).partition_index == self.spec_index(),
            final(state).current_address == old(state).current_address,
    {
        state.partition_index = self.partition_index;
    }

    /// The partition under iteration, or none at the end of the heap.
    pub fn current_partition(&self) -> (current: Option<&Partition>)
        requires
            self.wf(),
        ensures
            self.spec_index() < MAX_PARTITIONS ==> current == Some(
                &self.spec_heap().partitions@[self.spec_index()],
            ),
            self.spec_index() >= MAX_PARTITIONS ==> current is None,
    {
        if self.partition_index < MAX_PARTITIONS {
            Some(self.heap.get_partition(self.partition_index))
        } else {
            None
        }
    }

    /// Move past the current partition: beyond the whole partition run if
    /// it hosts a large object, then over any free partitions.
    pub fn next_partition(&mut self)
        requires
            old(self).wf(),
            old(self).spec_index() < MAX_PARTITIONS,
        ensures
            final(self).wf(),
            final(self).heap == old(self).heap,
            final(self).spec_index() > old(self).spec_index(),
            // The iterator advances by the whole partition run of a large
            // object, or by one partition, and then only over free
            // partitions.
            !old(self).spec_heap().partitions@[old(self).spec_index()].large_content
                ==> forall|j: int|
                old(self).spec_index() + 1 <= j < final(self).spec_index() ==> (#[trigger] old(self).spec_heap().partitions@[j]).free,
            old(self).spec_heap().partitions@[old(self).spec_index()].large_content ==> final(self).spec_index() >= old(self).spec_index() + PartitionedHeap::spec_run_length(
                spec_size_at(
                    old(self).spec_heap().spec_blocks(),
                    old(self).spec_index() * PARTITION_SIZE,
                ),
            ) && forall|j: int|
                old(self).spec_index() + PartitionedHeap::spec_run_length(
                    spec_size_at(
                        old(self).spec_heap().spec_blocks(),
                        old(self).spec_index() * PARTITION_SIZE,
                    ),
                ) <= j < final(self).spec_index() ==> (#[trigger] old(self).spec_heap().partitions@[j]).free,
    {
        let index = self.partition_index;
        let partition = self.heap.get_partition(index);
        if partition.has_large_content() {
            proof {
                assert(self.heap.partitions@[index as int].spec_large_head() == index as int);
                assert(self.heap.spec_large_run_wf(index as int));
                lemma_partition_bounds(index as int);
            }
            let address = index * PARTITION_SIZE;
            let size = self.heap.get_block(address).block_size();
            proof {
                lemma_run_size_bound(size as int);
                lemma_run_length(size as int);
            }
            let number_of_partitions = (size - 1) / PARTITION_SIZE + 1;
            self.partition_index = index + number_of_partitions;
            proof {
                let ghost i = self.partition_index as int;
                if i < MAX_PARTITIONS && self.heap.partitions@[i].large_content {
                    let h = self.heap.partitions@[i].spec_large_head();
                    assert(self.heap.spec_large_run_wf(h));
                    if h < i {
                        assert(self.heap.partitions@[i - 1].large_content);
                        assert(h + PartitionedHeap::spec_run_length(
                            spec_size_at(self.heap.spec_blocks(), h * PARTITION_SIZE),
                        ) > i - 1);
                        assert(self.heap.partitions@[i - 1].spec_large_head() == h);
                        assert(i - 1 < index as int + number_of_partitions);
                        assert(i - 1 >= index as int);
                        assert(self.heap.partitions@[i - 1].spec_large_head() == index as int);
                        assert(h == index as int);
                        assert(index as int + PartitionedHeap::spec_run_length(
                            spec_size_at(
                                self.heap.spec_blocks(),
                                index as int * PARTITION_SIZE,
                            ),
                        ) <= i);
                        assert((index as int) * PARTITION_SIZE == index * PARTITION_SIZE);
                        assert(false);
                    }
                }
            }
        } else {
            self.partition_index = index + 1;
            proof {
                let ghost i = self.partition_index as int;
                if i < MAX_PARTITIONS && self.heap.partitions@[i].large_content {
                    let h = self.heap.partitions@[i].spec_large_head();
                    assert(self.heap.spec_large_run_wf(h));
                    if h < i {
                        assert(self.heap.partitions@[i - 1].large_content);
                        assert(false);
                    }
                }
            }
        }
        self.skip_free_partitions();
    }
}

/// The address at which a partition sweep resumes from a retained state:
/// the retained address when it lies within the partition's dynamic space,
/// else the dynamic space start.
pub open spec fn spec_resume_point(
    heap: PartitionedHeap,
    partition_index: int,
    state: HeapIteratorState,
) -> int {
    if state.current_address < heap.partitions@[partition_index].spec_dynamic_start()
        || state.current_address > heap.partitions@[partition_index].spec_dynamic_end() {
        heap.partitions@[partition_index].spec_dynamic_start()
    } else {
        state.current_address as int
    }
}

/// Iterates over the marked objects of one partition, sweeping block by
/// block. Instantiated per GC increment over a retained
/// [`HeapIteratorState`].
pub struct PartitionIterator {
    pub partition_index: usize,
    pub start_address: usize,
    pub end_address: usize,
    pub current_address: usize,
}

/// The end address of a large object stays within the usable address
/// space.
pub proof fn lemma_large_end_bound(head: int, size: int)
    requires
        0 <= head,
        PARTITION_SIZE < size,
        head + PartitionedHeap::spec_run_length(size) <= MAX_PARTITIONS,
    ensures
        head * PARTITION_SIZE + size <= MAX_PARTITIONS * PARTITION_SIZE,
        MAX_PARTITIONS * PARTITION_SIZE < usize::MAX,
{
    assert(head * PARTITION_SIZE + size <= MAX_PARTITIONS * PARTITION_SIZE && MAX_PARTITIONS
        * PARTITION_SIZE < usize::MAX) by (nonlinear_arith)
        requires
            0 <= head,
            PARTITION_SIZE < size,
            head + (size + PARTITION_SIZE - 1) / (PARTITION_SIZE as int) <= MAX_PARTITIONS,
            PARTITION_SIZE > 0,
    ;
}

impl PartitionIterator {
    pub open spec fn spec_index(self) -> int {
        self.partition_index as int
    }

    pub open spec fn spec_current(self) -> int {
        self.current_address as int
    }

    pub open spec fn spec_end(self) -> int {
        self.end_address as int
    }

    /// Remaining sweep span, zero once the end is passed.
    pub open spec fn spec_remaining(self) -> int {
        if self.spec_current() < self.spec_end() {
            self.spec_end() - self.spec_current()
        } else {
            0
        }
    }

    /// Iterator validity over the heap: the window matches the partition's
    /// dynamic space, the remaining range is tiled (for normal partitions)
    /// and the current position holds a marked block unless the sweep is
    /// done. A large-content partition is iterated as the single object at
    /// its run start.
    pub open spec fn wf(self, heap: PartitionedHeap) -> bool {
        &&& heap.wf()
        &&& 0 <= self.spec_index() < MAX_PARTITIONS
        &&& !heap.partitions@[self.spec_index()].free
        &&& self.start_address == heap.partitions@[self.spec_index()].spec_dynamic_start()
        &&& self.end_address == heap.partitions@[self.spec_index()].spec_dynamic_end()
        &&& self.start_address <= self.current_address
        &&& if heap.partitions@[self.spec_index()].large_content {
            &&& heap.partitions@[self.spec_index()].spec_large_head() == self.spec_index()
            &&& (self.spec_current() < self.spec_end() ==> self.spec_current()
                == self.start_address)
        } else {
            spec_tiled(heap.spec_blocks(), self.spec_current(), self.spec_end())
        }
    }

    /// Advance over unmarked blocks, charging one time step per block; a
    /// whole unmarked large object is skipped in one step.
    fn skip_unmarked_space(&mut self, heap: &PartitionedHeap, time: &mut BoundedTime)
        requires
            heap.wf(),
            0 <= old(self).spec_index() < MAX_PARTITIONS,
            !heap.partitions@[old(self).spec_index()].free,
            old(self).start_address == heap.partitions@[old(self).spec_index()].spec_dynamic_start(),
            old(self).end_address == heap.partitions@[old(self).spec_index()].spec_dynamic_end(),
            old(self).start_address <= old(self).current_address,
            heap.partitions@[old(self).spec_index()].large_content ==> heap.partitions@[old(self).spec_index()].spec_large_head() == old(self).spec_index() && (old(self).spec_current() < old(self).spec_end() ==> old(self).spec_current() == old(self).start_address),
            !heap.partitions@[old(self).spec_index()].large_content ==> spec_tiled(
                heap.spec_blocks(),
                old(self).spec_current(),
                old(self).spec_end(),
            ),
        ensures
            final(self).wf(*heap),
            final(self).partition_index == old(self).partition_index,
            final(self).start_address == old(self).start_address,
            final(self).end_address == old(self).end_address,
            final(self).spec_current() >= old(self).spec_current(),
            final(self).spec_current() < final(self).spec_end() ==> heap.spec_blocks().contains_key(final(self).current_address) && heap.spec_blocks()[final(self).current_address].marked,
            !heap.partitions@[old(self).spec_index()].large_content ==> spec_swept_unmarked(
                heap.spec_blocks(),
                old(self).spec_current(),
                final(self).spec_current(),
            ),
            heap.partitions@[old(self).spec_index()].large_content ==> final(self).spec_current() == old(self).spec_current() || (old(self).spec_current() < old(self).spec_end() ==> !heap.spec_blocks()[old(self).current_address].marked),
            old(self).spec_current() >= old(self).spec_end() ==> final(self).spec_current()
                == old(self).spec_current(),
    {
        proof {
            lemma_partition_bounds(self.partition_index as int);
            assert(heap.partitions@[self.spec_index()].spec_wf(self.spec_index()));
        }
        if heap.get_partition(self.partition_index).has_large_content() {
            proof {
                assert(heap.spec_large_run_wf(self.spec_index()));
                assert((self.spec_index()) * PARTITION_SIZE == self.partition_index
                    * PARTITION_SIZE);
            }
            if self.current_address < self.end_address {
                let address = self.current_address;
                let block = heap.get_block(address);
                if !block.is_marked() {
                    let size = block.block_size();
                    proof {
                        lemma_run_size_bound(size as int);
                        lemma_large_end_bound(self.spec_index(), size as int);
                    }
                    self.current_address = self.current_address + size;
                    time.tick();
                    proof {
                        assert(self.spec_current() >= self.spec_end());
                    }
                }
            }
            return ;
        }
        let ghost begin = self.spec_current();
        while self.current_address < self.end_address && !heap.blocks.get(
            &self.current_address,
        ).unwrap().is_marked()
            invariant
                heap.wf(),
                0 <= self.spec_index() < MAX_PARTITIONS,
                self.partition_index == old(self).partition_index,
                self.start_address == old(self).start_address,
                self.end_address == old(self).end_address,
                self.end_address <= MAX_PARTITIONS * PARTITION_SIZE,
                !heap.partitions@[self.spec_index()].large_content,
                spec_tiled(heap.spec_blocks(), self.spec_current(), self.spec_end()),
                self.spec_current() >= old(self).spec_current(),
                begin == old(self).spec_current(),
                spec_swept_unmarked(heap.spec_blocks(), begin, self.spec_current()),
                begin >= self.spec_end() ==> self.spec_current() == begin,
            decreases self.spec_end() - self.spec_current(),
        {
            let block = heap.get_block(self.current_address);
            let size = block.block_size();
            proof {
                lemma_swept_extend(heap.spec_blocks(), begin, self.spec_current());
            }
            self.current_address = self.current_address + size;
            time.tick();
        }
    }

    /// Instantiate the iterator for a partition from the retained state:
    /// resume at the retained address if it lies in the partition's dynamic
    /// space, else restart at the dynamic space start; then advance to the
    /// first marked block.
    pub fn load_from(
        heap: &PartitionedHeap,
        partition_index: usize,
        state: &HeapIteratorState,
        time: &mut BoundedTime,
    ) -> (iterator: PartitionIterator)
        requires
            heap.wf(),
            partition_index < MAX_PARTITIONS,
            !heap.partitions@[partition_index as int].free,
            heap.partitions@[partition_index as int].large_content ==> heap.partitions@[
            partition_index as int].spec_large_head() == partition_index as int,
            heap.partitions@[partition_index as int].spec_dynamic_start()
                <= state.current_address <= heap.partitions@[partition_index
                as int].spec_dynamic_end() ==> (if heap.partitions@[partition_index
                as int].large_content {
                state.current_address as int == heap.partitions@[partition_index
                    as int].spec_dynamic_start() || state.current_address as int
                    == heap.partitions@[partition_index as int].spec_dynamic_end()
            } else {
                spec_tiled(
                    heap.spec_blocks(),
                    state.current_address as int,
                    heap.partitions@[partition_index as int].spec_dynamic_end(),
                )
            }),
        ensures
            iterator.wf(*heap),
            iterator.spec_index() == partition_index,
            iterator.spec_current() < iterator.spec_end() ==> heap.spec_blocks().contains_key(iterator.current_address) && heap.spec_blocks()[iterator.current_address].marked,
            // Everything between the resume point and the first yield has
            // been swept over as unmarked blocks.
            !heap.partitions@[partition_index as int].large_content ==> spec_swept_unmarked(
                heap.spec_blocks(),
                spec_resume_point(*heap, partition_index as int, *state),
                iterator.spec_current(),
            ),
            heap.partitions@[partition_index as int].large_content ==> iterator.spec_current()
                == spec_resume_point(*heap, partition_index as int, *state) || (
            spec_resume_point(*heap, partition_index as int, *state) < heap.partitions@[
            partition_index as int].spec_dynamic_end() ==> !heap.spec_blocks()[spec_resume_point(
                *heap,
                partition_index as int,
                *state,
            ) as usize].marked),
    {
        proof {
            lemma_partition_bounds(partition_index as int);
            assert(heap.partitions@[partition_index as int].spec_wf(partition_index as int));
            assert(heap.spec_tiling_wf());
        }
        let partition = heap.get_partition(partition_index);
        let start_address = partition.dynamic_space_start();
        let end_address = partition.dynamic_space_end();
        let current_address = if state.current_address < start_address || state.current_address
            > end_address {
            start_address
        } else {
            state.current_address
        };
        let mut iterator = PartitionIterator {
            partition_index,
            start_address,
            end_address,
            current_address,
        };
        proof {
            if heap.partitions@[partition_index as int].large_content {
                assert(heap.spec_large_run_wf(partition_index as int));
            }
        }
        iterator.skip_unmarked_space(heap, time);
        iterator
    }

    /// Retain the sweep position for the next increment.
    pub fn save_to(&self, state: &mut HeapIteratorState)
        ensures
            final(state).current_address == self.spec_current(),
            final(state).partition_index == old(state).partition_index,
    {
        state.current_address = self.current_address;
    }

    /// The address of the marked object under the sweep, or none once the
    /// dynamic space end is reached.
    pub fn current_object(&self, heap: &PartitionedHeap) -> (current: Option<usize>)
        requires
            self.wf(*heap),
        ensures
            self.spec_current() < self.spec_end() ==> current == Some(self.current_address)
                && heap.spec_blocks().contains_key(self.current_address),
            self.spec_current() >= self.spec_end() ==> current is None,
    {
        if self.current_address < self.end_address {
            proof {
                if heap.partitions@[self.spec_index()].large_content {
                    assert(heap.spec_large_run_wf(self.spec_index()));
                    assert((self.spec_index()) * PARTITION_SIZE
                        == heap.partitions@[self.spec_index()].spec_dynamic_start());
                }
            }
            Some(self.current_address)
        } else {
            None
        }
    }

    /// Move past the current object to the next marked block.
    pub fn next_object(&mut self, heap: &PartitionedHeap, time: &mut BoundedTime)
        requires
            old(self).wf(*heap),
            old(self).spec_current() < old(self).spec_end(),
        ensures
            final(self).wf(*heap),
            final(self).partition_index == old(self).partition_index,
            final(self).start_address == old(self).start_address,
            final(self).end_address == old(self).end_address,
            final(self).spec_current() > old(self).spec_current(),
            final(self).spec_current() < final(self).spec_end() ==> heap.spec_blocks().contains_key(final(self).current_address) && heap.spec_blocks()[final(self).current_address].marked,
            // Everything between the previous object and the next yield
            // has been swept over as unmarked blocks.
            spec_swept_unmarked(
                heap.spec_blocks(),
                old(self).spec_current() + spec_size_at(heap.spec_blocks(), old(self).spec_current()),
                final(self).spec_current(),
            ),
    {
        proof {
            lemma_partition_bounds(self.partition_index as int);
            assert(heap.partitions@[self.spec_index()].spec_wf(self.spec_index()));
            if heap.partitions@[self.spec_index()].large_content {
                assert(heap.spec_large_run_wf(self.spec_index()));
                assert((self.spec_index()) * PARTITION_SIZE
                    == heap.partitions@[self.spec_index()].spec_dynamic_start());
            }
        }
        let block = heap.get_block(self.current_address);
        let size = block.block_size();
        proof {
            if heap.partitions@[self.spec_index()].large_content {
                lemma_run_size_bound(size as int);
                lemma_large_end_bound(self.spec_index(), size as int);
            }
        }
        self.current_address = self.current_address + size;
        time.tick();
        let ghost bumped = self.spec_current();
        self.skip_unmarked_space(heap, time);
        proof {
            if heap.partitions@[self.spec_index()].large_content {
                assert(self.spec_current() == bumped);
                assert(spec_swept_unmarked(heap.spec_blocks(), bumped, bumped));
            }
        }
    }
}

/// Tiling only depends on the blocks inside the tiled range: two stores
/// that agree there are tiled alike.
pub proof fn lemma_tiled_agreement(
    before: Map<usize, Block>,
    after: Map<usize, Block>,
    addr: int,
    end: int,
)
    requires
        addr <= end <= usize::MAX,
        spec_tiled(before, addr, end),
        forall|a: int|
            addr <= a < end ==> (#[trigger] after.contains_key(a as usize))
                == before.contains_key(a as usize),
        forall|a: int|
            addr <= a < end && before.contains_key(a as usize) ==> (#[trigger] after[a
                as usize]) == before[a as usize],
    ensures
        spec_tiled(after, addr, end),
    decreases end - addr,
{
    if addr < end {
        assert(after.contains_key(addr as usize));
        assert(after[addr as usize] == before[addr as usize]);
        lemma_tiled_agreement(before, after, addr + spec_size_at(before, addr), end);
        assert(spec_size_at(after, addr) == spec_size_at(before, addr));
    }
}

/// The address range `[addr, to)` is exactly tiled by well-formed blocks
/// that are all unmarked: the stretch a sweep skips between two yields.
pub open spec fn spec_swept_unmarked(blocks: Map<usize, Block>, addr: int, to: int) -> bool
    decreases to - addr when addr <= to
{
    if addr < to {
        &&& 0 <= addr
        &&& blocks.contains_key(addr as usize)
        &&& spec_wf_block(blocks[addr as usize])
        &&& !blocks[addr as usize].marked
        &&& addr + spec_size_at(blocks, addr) <= to
        &&& spec_swept_unmarked(blocks, addr + spec_size_at(blocks, addr), to)
    } else {
        addr == to
    }
}

/// An unmarked well-formed block bound exactly at the end of a swept range
/// extends the range by its size.
pub proof fn lemma_swept_extend(blocks: Map<usize, Block>, addr: int, to: int)
    requires
        0 <= addr <= to,
        to + spec_size_at(blocks, to) <= usize::MAX,
        spec_swept_unmarked(blocks, addr, to),
        blocks.contains_key(to as usize),
        spec_wf_block(blocks[to as usize]),
        !blocks[to as usize].marked,
    ensures
        spec_swept_unmarked(blocks, addr, to + spec_size_at(blocks, to)),
    decreases to - addr,
{
    if addr < to {
        lemma_swept_extend(blocks, addr + spec_size_at(blocks, addr), to);
    } else {
        assert(spec_swept_unmarked(
            blocks,
            to + spec_size_at(blocks, to),
            to + spec_size_at(blocks, to),
        ));
    }
}

impl PartitionedHeap {
    /// Whether a normal-sized allocation of the given byte size can be
    /// served without trapping.
    pub fn can_allocate_normal(&self, size: usize) -> (possible: bool)
        requires
            self.wf(),
            size <= PARTITION_SIZE,
        ensures
            possible == self.spec_can_allocate_normal(size as int),
    {
        proof {
            lemma_partition_bounds(self.allocation_index as int);
            assert(self.partitions@[self.allocation_index as int].spec_wf(
                self.allocation_index as int,
            ));
        }
        if self.partitions[self.allocation_index].free_size() >= size {
            return true;
        }
        let mut index: usize = 0;
        while index < MAX_PARTITIONS
            invariant
                self.wf(),
                index <= MAX_PARTITIONS,
                forall|j: int|
                    0 <= j < index ==> !((#[trigger] self.partitions@[j]).free && PARTITION_SIZE
                        - self.partitions@[j].static_size >= size),
            decreases MAX_PARTITIONS - index,
        {
            let partition = &self.partitions[index];
            proof {
                assert(self.partitions@[index as int].spec_wf(index as int));
            }
            if partition.free && PARTITION_SIZE - partition.static_size >= size {
                return true;
            }
            index = index + 1;
        }
        false
    }
}

} // verus!
