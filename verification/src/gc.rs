//! Incremental evacuation-compacting garbage collection.
//!
//! A garbage collection run proceeds in three phases, each performed in
//! potentially many bounded increments interleaved with the mutator:
//!
//! 1. Mark: snapshot-at-the-beginning marking over the whole heap, started
//!    from the root set on an empty call stack. Objects overwritten by the
//!    mutator are kept reachable by the pre-write barrier, and new
//!    allocations are conservatively marked.
//! 2. Evacuate: live objects are copied out of high-garbage partitions into
//!    the allocation partition; a forwarding pointer to the copy is
//!    installed in each evacuated original.
//! 3. Update: every pointer in the surviving objects and in the roots is
//!    rewritten through the forwarding resolution; afterwards the evacuated
//!    partitions are freed and all per-partition state is cleared.
//!
//! The phase state survives between increments in a persistent [`State`]
//! record. Mark and update phase boundaries require an empty mutator call
//! stack, since the collector can neither scan nor patch stack frames.

use vstd::prelude::*;

use crate::constants::MAX_PARTITIONS;
use crate::constants::PARTITION_SIZE;
use crate::constants::WORD_SIZE;
use crate::mark_bitmap::MarkBitmap;
use crate::mark_stack::MarkStack;
use crate::memory::Memory;
use crate::memory::ModelMemory;
use crate::partitioned_heap::lemma_partition_bounds;
use crate::partitioned_heap::lemma_partition_of_address;
use crate::partitioned_heap::lemma_tiled_agreement;
use crate::partitioned_heap::lemma_tiled_update_same_size;
use crate::partitioned_heap::spec_block_size_of;
use crate::partitioned_heap::spec_tiled;
use crate::partitioned_heap::HeapIteratorState;
use crate::partitioned_heap::Partition;
use crate::partitioned_heap::PartitionIterator;
use crate::partitioned_heap::PartitionedHeap;
use crate::partitioned_heap::PartitionedHeapIterator;
use crate::roots::RootSet;
use crate::time::BoundedTime;
use crate::types::spec_is_array_tag;
use crate::types::spec_wf_block;
use crate::types::Block;
use crate::types::Value;
use crate::types::TAG_ARRAY;
use crate::types::TAG_ARRAY_SLICE_MIN;

verus! {

/// Increment budget without concurrent allocations, in synthetic steps.
pub const INCREMENT_BASE_LIMIT: usize = 3500000;

/// Additional budget per concurrent allocation during a running GC.
pub const INCREMENT_ALLOCATION_FACTOR: usize = 10;

/// Number of array elements scanned per mark step of a large array.
pub const SLICE_INCREMENT: usize = 128;

/// Normal heap growth threshold for starting a GC run, as the exact
/// fraction `NORMAL_GROWTH_NUMERATOR / GROWTH_DENOMINATOR` (65 percent).
pub const NORMAL_GROWTH_NUMERATOR: u64 = 65;

/// Critical heap growth threshold (1 percent), applied when the heap size
/// approaches the end of the address space.
pub const CRITICAL_GROWTH_NUMERATOR: u64 = 1;

pub const GROWTH_DENOMINATOR: u64 = 100;

/// Heap size beyond which the critical growth threshold is used:
/// 768 MiB below the 4 GiB address space end.
pub const CRITICAL_HEAP_LIMIT: u64 = 4 * 1024 * 1024 * 1024 - 768 * 1024 * 1024;

/// GC phase of the current run.
#[derive(Clone, Copy, PartialEq, Eq, Structural, Debug)]
pub enum Phase {
    /// Inactive, waiting for the next GC run.
    Pause,
    /// Incremental snapshot-at-the-beginning marking.
    Mark,
    /// Incremental evacuation of high-garbage partitions.
    Evacuate,
    /// Incremental rewriting of pointers to the forwarded locations.
    Update,
}

/// Persistent GC statistics used for scheduling and diagnostics.
pub struct Statistics {
    /// Total allocated bytes at the start of the last GC run.
    pub last_allocations: u64,
    /// Maximum live heap size seen at the end of a GC run.
    pub max_live: u64,
}

/// GC state retained over multiple GC increments and consulted on every
/// allocation and every pointer store.
pub struct State {
    pub phase: Phase,
    pub partitioned_heap: PartitionedHeap,
    /// Committed-memory tracker of the embedder.
    pub memory: ModelMemory,
    /// Number of allocations during the active GC run, scaling the budget
    /// of the next increment.
    pub allocation_count: usize,
    /// Total allocated bytes over the lifetime of the heap.
    pub total_allocations: u64,
    /// Work list of gray objects during the mark phase.
    pub mark_stack: MarkStack,
    /// Partition scan position retained between increments of the
    /// evacuation and update phases.
    pub iterator_state: HeapIteratorState,
    pub statistics: Statistics,
}

/// A partition scan position retained between increments: the end of the
/// partition array, or a non-free partition that is not in the middle of a
/// large-object run.
pub open spec fn spec_valid_scan_position(heap: PartitionedHeap, index: int) -> bool {
    ||| index == MAX_PARTITIONS
    ||| (0 <= index < MAX_PARTITIONS && !heap.partitions@[index].free && (heap.partitions@[
    index].large_content ==> heap.partitions@[index].spec_large_head() == index))
}

/// The heap stores agree except that blocks may have become marked: block
/// identity, layout and forwarding are untouched.
pub open spec fn spec_marking_effect_only(pre: PartitionedHeap, post: PartitionedHeap) -> bool {
    &&& forall|k: usize|
        (#[trigger] post.spec_blocks().contains_key(k)) == pre.spec_blocks().contains_key(k)
    &&& forall|k: usize|
        pre.spec_blocks().contains_key(k) ==> (#[trigger] post.spec_blocks()[k]).tag
            == pre.spec_blocks()[k].tag && post.spec_blocks()[k].payload@
            == pre.spec_blocks()[k].payload@ && post.spec_blocks()[k].forward
            == pre.spec_blocks()[k].forward && (pre.spec_blocks()[k].marked
            ==> post.spec_blocks()[k].marked)
}

/// The scheduling statistics and the lifetime allocation counter are not
/// touched by GC work itself.
pub open spec fn spec_counters_preserved(pre: State, post: State) -> bool {
    &&& post.statistics.last_allocations == pre.statistics.last_allocations
    &&& post.statistics.max_live == pre.statistics.max_live
    &&& post.total_allocations == pre.total_allocations
    &&& post.allocation_count == pre.allocation_count
}

/// Frame of the mark phase: no block appears or disappears, mark state
/// only grows, forwarding pointers are untouched, and all partition
/// attributes except the marked sizes and the bitmaps are unchanged.
pub open spec fn spec_mark_phase_frame(pre: PartitionedHeap, post: PartitionedHeap) -> bool {
    &&& forall|k: usize|
        (#[trigger] post.spec_blocks().contains_key(k)) == pre.spec_blocks().contains_key(k)
    &&& forall|k: usize|
        pre.spec_blocks().contains_key(k) ==> ((#[trigger] post.spec_blocks()[k]).forward
            == pre.spec_blocks()[k].forward && (pre.spec_blocks()[k].marked
            ==> post.spec_blocks()[k].marked))
    &&& post.partitions@.len() == pre.partitions@.len()
    &&& post.allocation_index == pre.allocation_index
    &&& post.heap_base == pre.heap_base
    &&& forall|i: int|
        0 <= i < pre.partitions@.len() ==> ((#[trigger] post.partitions@[i]).index
            == pre.partitions@[i].index && post.partitions@[i].free
            == pre.partitions@[i].free && post.partitions@[i].static_size
            == pre.partitions@[i].static_size && post.partitions@[i].dynamic_size
            == pre.partitions@[i].dynamic_size && post.partitions@[i].large_content
            == pre.partitions@[i].large_content && post.partitions@[i].large_head
            == pre.partitions@[i].large_head && post.partitions@[i].evacuate
            == pre.partitions@[i].evacuate && post.partitions@[i].update
            == pre.partitions@[i].update)
}

/// The mark phase frame composes over consecutive steps.
pub proof fn lemma_mark_phase_frame_transitive(
    first: PartitionedHeap,
    second: PartitionedHeap,
    third: PartitionedHeap,
)
    requires
        spec_mark_phase_frame(first, second),
        spec_mark_phase_frame(second, third),
    ensures
        spec_mark_phase_frame(first, third),
{
}

/// A pointer to a live block of the dynamic heap.
pub open spec fn spec_live_pointer(heap: PartitionedHeap, value: Value) -> bool {
    &&& value.spec_is_ptr()
    &&& !value.spec_is_null()
    &&& heap.spec_in_dynamic_space(value.spec_ptr())
    &&& heap.spec_blocks().contains_key(value.spec_ptr() as usize)
}

/// A value the marking step is owed to mark: a word-aligned pointer to a
/// live block, pointing at the run start when the block is a large object.
pub open spec fn spec_markable(heap: PartitionedHeap, value: Value) -> bool {
    &&& spec_live_pointer(heap, value)
    &&& value.spec_ptr() % (WORD_SIZE as int) == 0
    &&& (heap.partitions@[value.spec_ptr() / (PARTITION_SIZE as int)].large_content
        ==> heap.partitions@[value.spec_ptr() / (PARTITION_SIZE as int)].spec_large_head()
            == value.spec_ptr() / (PARTITION_SIZE as int) && value.spec_ptr() % (PARTITION_SIZE
            as int) == 0)
}

impl State {
    pub open spec fn wf(self) -> bool {
        &&& self.partitioned_heap.wf()
        &&& (self.phase == Phase::Mark ==> self.mark_stack.spec_allocated()
            && self.mark_stack.wf())
        &&& (self.phase != Phase::Mark ==> !self.mark_stack.spec_allocated())
        &&& ((self.phase == Phase::Evacuate || self.phase == Phase::Update)
            ==> spec_valid_scan_position(
            self.partitioned_heap,
            self.iterator_state.partition_index as int,
        ))
    }

    pub fn get_partitioned_heap(&mut self) -> (heap: &mut PartitionedHeap)
        ensures
            *heap == old(self).partitioned_heap,
            *final(self) == (State { partitioned_heap: *final(heap), ..*old(self) }),
    {
        &mut self.partitioned_heap
    }

    /// Total allocated bytes over the lifetime of the heap.
    pub fn get_total_allocations(&self) -> (total: u64)
        ensures
            total == self.total_allocations,
    {
        self.total_allocations
    }

    /// Total bytes reclaimed by completed GC runs.
    pub fn get_reclaimed(&self) -> (reclaimed: u64)
        ensures
            reclaimed == self.partitioned_heap.reclaimed,
    {
        self.partitioned_heap.reclaimed_size()
    }

    /// Occupied heap size: static and dynamic space over all partitions.
    pub fn get_heap_size(&self) -> (size: u64)
        requires
            self.wf(),
        ensures
            size == crate::partitioned_heap::spec_occupied_sum(
                self.partitioned_heap.partitions@,
                MAX_PARTITIONS as int,
            ),
    {
        self.partitioned_heap.occupied_size()
    }

    /// Maximum live set size seen at the end of a GC run.
    pub fn get_max_live_size(&self) -> (size: u64)
        ensures
            size == self.statistics.max_live,
    {
        self.statistics.max_live
    }

    /// Allocate a blob and account the allocation; the caller initializes
    /// the payload and then applies the post-allocation barrier.
    pub fn alloc_blob(&mut self, size_bytes: usize) -> (v: Value)
        requires
            old(self).wf(),
            size_bytes <= usize::MAX - 4 * PARTITION_SIZE,
            3 * WORD_SIZE + ((size_bytes + WORD_SIZE - 1) / (WORD_SIZE as int)) * WORD_SIZE
                <= PARTITION_SIZE ==> old(self).partitioned_heap.spec_can_allocate_normal(
                3 * WORD_SIZE + ((size_bytes + WORD_SIZE - 1) / (WORD_SIZE as int)) * WORD_SIZE,
            ),
            3 * WORD_SIZE + ((size_bytes + WORD_SIZE - 1) / (WORD_SIZE as int)) * WORD_SIZE
                > PARTITION_SIZE ==> exists|h: int|
                0 <= h && h + PartitionedHeap::spec_run_length(
                    3 * WORD_SIZE + ((size_bytes + WORD_SIZE - 1) / (WORD_SIZE as int))
                        * WORD_SIZE,
                ) <= MAX_PARTITIONS && (#[trigger] old(self).partitioned_heap.spec_free_run(
                    h,
                    PartitionedHeap::spec_run_length(
                        3 * WORD_SIZE + ((size_bytes + WORD_SIZE - 1) / (WORD_SIZE as int))
                            * WORD_SIZE,
                    ),
                )),
        ensures
            final(self).wf(),
            final(self).phase == old(self).phase,
            v.spec_is_ptr() && !v.spec_is_null(),
            final(self).partitioned_heap.spec_blocks().contains_key(v.spec_ptr() as usize),
            final(self).partitioned_heap.spec_blocks()[v.spec_ptr() as usize].tag
                == crate::types::TAG_BLOB,
            final(self).partitioned_heap.spec_blocks()[v.spec_ptr() as usize].payload@.len()
                == 1 + (size_bytes + WORD_SIZE - 1) / (WORD_SIZE as int),
            final(self).partitioned_heap.spec_blocks()[v.spec_ptr() as usize].payload@[0]
                == size_bytes,
            final(self).partitioned_heap.spec_blocks()[v.spec_ptr()
                as usize].forward.spec_ptr() == v.spec_ptr(),
            !final(self).partitioned_heap.spec_blocks()[v.spec_ptr() as usize].marked,
            3 * WORD_SIZE + ((size_bytes + WORD_SIZE - 1) / (WORD_SIZE as int)) * WORD_SIZE <= PARTITION_SIZE ==> crate::partitioned_heap::spec_bump_allocated(
                old(self).partitioned_heap,
                final(self).partitioned_heap,
                final(self).memory.spec_committed(),
                v,
                3 * WORD_SIZE + ((size_bytes + WORD_SIZE - 1) / (WORD_SIZE as int)) * WORD_SIZE,
            ),
            3 * WORD_SIZE + ((size_bytes + WORD_SIZE - 1) / (WORD_SIZE as int)) * WORD_SIZE > PARTITION_SIZE ==> crate::partitioned_heap::spec_run_allocated(
                old(self).partitioned_heap,
                final(self).partitioned_heap,
                final(self).memory.spec_committed(),
                v,
                3 * WORD_SIZE + ((size_bytes + WORD_SIZE - 1) / (WORD_SIZE as int)) * WORD_SIZE,
            ),
    {
        let ghost pre = *self;
        let v = self.partitioned_heap.alloc_blob(&mut self.memory, size_bytes);
        let words = (size_bytes as u64 + WORD_SIZE as u64 - 1) / WORD_SIZE as u64;
        self.count_allocation(3 * WORD_SIZE as u64 + words * WORD_SIZE as u64);
        proof {
            assert(self.wf()) by {
                assert(self.partitioned_heap.wf());
                if self.phase == Phase::Evacuate || self.phase == Phase::Update {
                    lemma_scan_position_stable(
                        pre.partitioned_heap,
                        self.partitioned_heap,
                        self.iterator_state.partition_index as int,
                    );
                }
            }
        }
        v
    }

    /// Allocate an array with zeroed elements and account the allocation;
    /// the caller initializes the elements and then applies the
    /// post-allocation barrier.
    pub fn alloc_array(&mut self, length: usize) -> (v: Value)
        requires
            old(self).wf(),
            length <= usize::MAX / WORD_SIZE - 4 * PARTITION_SIZE,
            3 * WORD_SIZE + length * WORD_SIZE <= PARTITION_SIZE ==> old(
                self,
            ).partitioned_heap.spec_can_allocate_normal(3 * WORD_SIZE + length * WORD_SIZE),
            3 * WORD_SIZE + length * WORD_SIZE > PARTITION_SIZE ==> exists|h: int|
                0 <= h && h + PartitionedHeap::spec_run_length(
                    3 * WORD_SIZE + length * WORD_SIZE,
                ) <= MAX_PARTITIONS && (#[trigger] old(self).partitioned_heap.spec_free_run(
                    h,
                    PartitionedHeap::spec_run_length(3 * WORD_SIZE + length * WORD_SIZE),
                )),
        ensures
            final(self).wf(),
            final(self).phase == old(self).phase,
            v.spec_is_ptr() && !v.spec_is_null(),
            final(self).partitioned_heap.spec_blocks().contains_key(v.spec_ptr() as usize),
            final(self).partitioned_heap.spec_blocks()[v.spec_ptr() as usize].tag
                == crate::types::TAG_ARRAY,
            final(self).partitioned_heap.spec_blocks()[v.spec_ptr() as usize].payload@.len() == 1
                + length,
            final(self).partitioned_heap.spec_blocks()[v.spec_ptr() as usize].payload@[0]
                == length,
            forall|i: int|
                1 <= i < 1 + length ==> (#[trigger] final(self).partitioned_heap.spec_blocks()[
                v.spec_ptr() as usize].payload@[i]) == 0usize,
            final(self).partitioned_heap.spec_blocks()[v.spec_ptr()
                as usize].forward.spec_ptr() == v.spec_ptr(),
            !final(self).partitioned_heap.spec_blocks()[v.spec_ptr() as usize].marked,
            3 * WORD_SIZE + length * WORD_SIZE <= PARTITION_SIZE ==> crate::partitioned_heap::spec_bump_allocated(
                old(self).partitioned_heap,
                final(self).partitioned_heap,
                final(self).memory.spec_committed(),
                v,
                3 * WORD_SIZE + length * WORD_SIZE,
            ),
            3 * WORD_SIZE + length * WORD_SIZE > PARTITION_SIZE ==> crate::partitioned_heap::spec_run_allocated(
                old(self).partitioned_heap,
                final(self).partitioned_heap,
                final(self).memory.spec_committed(),
                v,
                3 * WORD_SIZE + length * WORD_SIZE,
            ),
    {
        let ghost pre = *self;
        let v = self.partitioned_heap.alloc_array(&mut self.memory, length);
        self.count_allocation(3 * WORD_SIZE as u64 + length as u64 * WORD_SIZE as u64);
        proof {
            assert(self.wf()) by {
                assert(self.partitioned_heap.wf());
                if self.phase == Phase::Evacuate || self.phase == Phase::Update {
                    lemma_scan_position_stable(
                        pre.partitioned_heap,
                        self.partitioned_heap,
                        self.iterator_state.partition_index as int,
                    );
                }
            }
        }
        v
    }

    /// Count an allocation of the given byte size: the lifetime total of
    /// allocated bytes always grows, and during a running GC the allocation
    /// count scales the next increment budget.
    fn count_allocation(&mut self, size: u64)
        ensures
            *final(self) == (State {
                allocation_count: final(self).allocation_count,
                total_allocations: final(self).total_allocations,
                ..*old(self)
            }),
    {
        if !matches!(self.phase, Phase::Pause) {
            self.allocation_count = self.allocation_count.saturating_add(1);
        }
        self.total_allocations = self.total_allocations.saturating_add(size);
    }
}

/// Allocations never turn a retained scan position invalid: partitions can
/// only go from free to non-free, and a non-free partition keeps its large
/// content classification.
pub proof fn lemma_scan_position_stable(
    pre: PartitionedHeap,
    post: PartitionedHeap,
    index: int,
)
    requires
        spec_valid_scan_position(pre, index),
        post.partitions@.len() == MAX_PARTITIONS,
        forall|i: int|
            0 <= i < MAX_PARTITIONS && !(#[trigger] pre.partitions@[i]).free
                ==> !post.partitions@[i].free && post.partitions@[i].large_content
                == pre.partitions@[i].large_content && post.partitions@[i].large_head
                == pre.partitions@[i].large_head,
    ensures
        spec_valid_scan_position(post, index),
{
}

/// Incremental GC, performing one bounded increment per call over the
/// persistent state.
pub struct IncrementalGC {}

impl IncrementalGC {
    /// (Re-)initialize the garbage collector state over a fresh partitioned
    /// heap starting at the given base address.
    pub fn initial_gc_state(memory: &mut ModelMemory, heap_base: usize) -> (state: State)
        requires
            heap_base as int % (WORD_SIZE as int) == 0,
            0 < heap_base < MAX_PARTITIONS * PARTITION_SIZE,
        ensures
            state.wf(),
            state.phase == Phase::Pause,
            state.partitioned_heap.heap_base == heap_base,
            state.total_allocations == 0,
    {
        let partitioned_heap = PartitionedHeap::new(memory, heap_base);
        State {
            phase: Phase::Pause,
            partitioned_heap,
            memory: ModelMemory::new(),
            allocation_count: 0,
            total_allocations: 0,
            mark_stack: MarkStack::new(),
            iterator_state: HeapIteratorState::new(),
            statistics: Statistics { last_allocations: 0, max_live: 0 },
        }
    }

    /// Regular GC increment invoked when the mutator call stack is empty:
    /// the mark phase may only be started, and the update phase only be
    /// completed, on an empty call stack.
    pub fn empty_call_stack_increment(state: &mut State, roots: &mut RootSet)
        requires
            old(state).wf(),
        ensures
            final(state).wf(),
            final(state).statistics.last_allocations == old(state).statistics.last_allocations,
            final(state).statistics.max_live == old(state).statistics.max_live,
            final(state).total_allocations == old(state).total_allocations,
            final(state).allocation_count == 0,
            // From a pause, a run begins: marking is entered with every
            // root that points into the dynamic heap marked, and while the
            // phase is still marking, the heap changed by marking effects
            // only.
            final(state).phase == Phase::Mark ==> spec_mark_phase_frame(
                old(state).partitioned_heap,
                final(state).partitioned_heap,
            ),
            old(state).phase == Phase::Pause && final(state).phase == Phase::Mark ==> forall|
                i: int,
            |
                0 <= i < old(roots)@.len() && (#[trigger] old(roots)@[i]).spec_ptr() >= old(state).partitioned_heap.heap_base && spec_markable(old(state).partitioned_heap, old(roots)@[i])
                    ==> final(state).partitioned_heap.spec_blocks()[old(roots)@[i].spec_ptr() as usize].marked,
            // A return to the pause phase means the run completed: the
            // evacuated partitions were freed and all per-partition cycle
            // state was cleared.
            final(state).phase == Phase::Pause ==> forall|i: int|
                0 <= i < MAX_PARTITIONS ==> !(#[trigger] final(state).partitioned_heap.partitions@[i]).evacuate && !final(state).partitioned_heap.partitions@[i].update && final(state).partitioned_heap.partitions@[i].marked_size == 0,
    {
        let limit = if state.allocation_count < 100000000 {
            proof {
                assert(state.allocation_count * INCREMENT_ALLOCATION_FACTOR <= 1000000000)
                    by (nonlinear_arith)
                    requires
                        state.allocation_count < 100000000,
                        INCREMENT_ALLOCATION_FACTOR == 10,
                ;
            }
            INCREMENT_BASE_LIMIT + state.allocation_count * INCREMENT_ALLOCATION_FACTOR
        } else {
            INCREMENT_BASE_LIMIT + 1000000000
        };
        state.allocation_count = 0;
        proof {
            assert(limit < usize::MAX);
        }
        let mut time = BoundedTime::new(limit);
        let ghost entry = *state;
        if matches!(state.phase, Phase::Pause) {
            start_marking(state, roots, &mut time);
        }
        let ghost after_start = *state;
        if matches!(state.phase, Phase::Mark) {
            mark_increment(state, &mut time);
        }
        proof {
            if state.phase == Phase::Mark {
                if entry.phase == Phase::Pause {
                    lemma_mark_phase_frame_transitive(
                        entry.partitioned_heap,
                        after_start.partitioned_heap,
                        state.partitioned_heap,
                    );
                }
            }
        }
        let ghost after_mark = *state;
        if matches!(state.phase, Phase::Mark) && state.mark_stack.is_empty() {
            start_evacuating(state);
        }
        if matches!(state.phase, Phase::Evacuate) {
            evacuation_increment(state, &mut time);
        }
        if matches!(state.phase, Phase::Evacuate) && state.iterator_state.completed() {
            start_updating(state, roots);
        }
        if matches!(state.phase, Phase::Update) {
            update_increment(state, &mut time);
        }
        if matches!(state.phase, Phase::Update) && state.iterator_state.completed() {
            complete_run(state);
        }
        proof {
            if state.phase == Phase::Mark {
                assert(*state == after_mark);
                if entry.phase == Phase::Pause {
                    assert forall|i: int|
                        0 <= i < roots@.len() && (#[trigger] roots@[i]).spec_ptr()
                            >= entry.partitioned_heap.heap_base && spec_markable(
                        entry.partitioned_heap,
                        roots@[i],
                    ) implies state.partitioned_heap.spec_blocks()[roots@[i].spec_ptr()
                        as usize].marked by {
                        assert(after_start.partitioned_heap.spec_blocks()[roots@[i].spec_ptr()
                            as usize].marked);
                        assert(after_start.partitioned_heap.spec_blocks().contains_key(
                            roots@[i].spec_ptr() as usize,
                        ));
                    }
                }
            }
        }
    }
}

/// Mark a value if it is a pointer to a live, word-aligned block of the
/// dynamic heap: set its mark state (through the partition bitmap where one
/// is bound), account the marked space, and push it on the mark stack when
/// freshly marked and `push_to_stack` is set.
#[verifier::rlimit(100)]
fn mark_value(state: &mut State, value: Value, push_to_stack: bool)
    requires
        old(state).wf(),
        old(state).phase == Phase::Mark,
    ensures
        spec_counters_preserved(*old(state), *final(state)),
        final(state).wf(),
        final(state).phase == Phase::Mark,
        spec_marking_effect_only(old(state).partitioned_heap, final(state).partitioned_heap),
        spec_markable(old(state).partitioned_heap, value) ==> final(state).partitioned_heap.spec_blocks()[value.spec_ptr() as usize].marked,
        spec_mark_phase_frame(old(state).partitioned_heap, final(state).partitioned_heap),
        final(state).memory == old(state).memory,
        final(state).total_allocations == old(state).total_allocations,
{
    let heap = &state.partitioned_heap;
    if !heap.is_live_pointer(value) {
        return ;
    }
    let address = value.get_ptr();
    if address % WORD_SIZE != 0 {
        return ;
    }
    let index = address / PARTITION_SIZE;
    proof {
        assert(state.partitioned_heap.partitions@[index as int].spec_wf(index as int));
        lemma_partition_bounds(index as int);
    }
    if state.partitioned_heap.get_partition(index).has_large_content() {
        // A large object: only its run start is a valid object address.
        let head = state.partitioned_heap.get_partition(index).large_head;
        if !(head == index && address == index * PARTITION_SIZE) {
            proof {
                assert(address as int % (PARTITION_SIZE as int) == 0 ==> address as int == (
                index as int) * PARTITION_SIZE) by (nonlinear_arith)
                    requires
                        index as int == address as int / (PARTITION_SIZE as int),
                        PARTITION_SIZE > 0,
                ;
            }
            return ;
        }
        proof {
            assert(address as int % (PARTITION_SIZE as int) == 0) by (nonlinear_arith)
                requires
                    address as int == (index as int) * PARTITION_SIZE,
                    0 <= index as int,
                    PARTITION_SIZE > 0,
            ;
            assert(state.partitioned_heap.spec_large_run_wf(index as int));
            assert(state.partitioned_heap.spec_blocks()[(index as int * PARTITION_SIZE)
                as usize] == state.partitioned_heap.spec_blocks()[address]);
        }
        if state.partitioned_heap.get_block(address).is_marked() {
            return ;
        }
        state.partitioned_heap.set_mark(address, true);
        state.partitioned_heap.mark_large_object(address);
        if push_to_stack {
            state.mark_stack.push(value);
        }
        proof {
            lemma_mark_effect(old(state).partitioned_heap, state.partitioned_heap, address);
        }
        return ;
    }
    // A normal object: test whether it is already marked, through the
    // partition bitmap where one is bound.
    if state.partitioned_heap.get_block(address).is_marked() {
        return ;
    }
    let offset = address % PARTITION_SIZE;
    proof {
        assert((PARTITION_SIZE as int) % (WORD_SIZE as int) == 0) by (nonlinear_arith);
        assert(offset as int % (WORD_SIZE as int) == 0) by (nonlinear_arith)
            requires
                address as int % (WORD_SIZE as int) == 0,
                offset as int == address as int % (PARTITION_SIZE as int),
                (PARTITION_SIZE as int) % (WORD_SIZE as int) == 0,
        ;
        assert(offset < PARTITION_SIZE) by (nonlinear_arith)
            requires
                offset as int == address as int % (PARTITION_SIZE as int),
                PARTITION_SIZE > 0,
        ;
    }
    if state.partitioned_heap.get_partition(index).bitmap_is_assigned() {
        if state.partitioned_heap.is_marked_in_bitmap(index, offset) {
            // The bit is set but the block is not yet marked: make the two
            // mark states consistent.
            state.partitioned_heap.set_mark(address, true);
            proof {
                lemma_mark_effect(
                    old(state).partitioned_heap,
                    state.partitioned_heap,
                    address,
                );
            }
            return ;
        }
        state.partitioned_heap.mark_in_bitmap(index, offset);
    }
    state.partitioned_heap.set_mark(address, true);
    // Account the marked space. The bounds are tested at run time because
    // an arbitrary live pointer is not known to sit on a block boundary of
    // the partition tiling; for pointers produced by the allocator the test
    // always passes and the marked size grows by the block size.
    let block_ref = state.partitioned_heap.get_block(address);
    if block_is_wf(block_ref) {
        let size = block_ref.block_size();
        let partition = state.partitioned_heap.get_partition(index);
        let fits = size <= PARTITION_SIZE && address + size <= partition.dynamic_space_end()
            && partition.marked_size() + size <= partition.dynamic_size()
            && address >= partition.dynamic_space_start();
        if fits {
            proof {
                assert(state.partitioned_heap.spec_in_dynamic_space(address as int));
            }
            state.partitioned_heap.record_marked_space(address);
        }
    }
    if push_to_stack {
        state.mark_stack.push(value);
    }
    proof {
        lemma_mark_effect(old(state).partitioned_heap, state.partitioned_heap, address);
    }
}

/// Marking steps compose: a sequence of steps that each only set mark
/// state leaves every block's identity, layout and forwarding untouched
/// over the whole mark phase, which is what makes the snapshot marking
/// discipline sound alongside the mutator.
pub proof fn lemma_marking_effect_transitive(
    first: PartitionedHeap,
    second: PartitionedHeap,
    third: PartitionedHeap,
)
    requires
        spec_marking_effect_only(first, second),
        spec_marking_effect_only(second, third),
    ensures
        spec_marking_effect_only(first, third),
{
}

/// The heap changes of one marking step only set mark state.
proof fn lemma_mark_effect(pre: PartitionedHeap, post: PartitionedHeap, address: usize)
    requires
        forall|k: usize|
            (#[trigger] post.spec_blocks().contains_key(k)) == pre.spec_blocks().contains_key(k),
        forall|k: usize|
            k != address && pre.spec_blocks().contains_key(k) ==> (
            #[trigger] post.spec_blocks()[k]) == pre.spec_blocks()[k],
        pre.spec_blocks().contains_key(address) ==> post.spec_blocks()[address].tag
            == pre.spec_blocks()[address].tag && post.spec_blocks()[address].payload@
            == pre.spec_blocks()[address].payload@ && post.spec_blocks()[address].forward
            == pre.spec_blocks()[address].forward && (pre.spec_blocks()[address].marked
            ==> post.spec_blocks()[address].marked),
    ensures
        spec_marking_effect_only(pre, post),
{
}

/// Start the mark phase: allocate the mark stack and mark all roots that
/// point into the dynamic heap. Only called on an empty call stack.
fn start_marking(state: &mut State, roots: &RootSet, time: &mut BoundedTime)
    requires
        old(state).wf(),
        old(state).phase == Phase::Pause,
    ensures
        spec_counters_preserved(*old(state), *final(state)),
        final(state).wf(),
        final(state).phase == Phase::Mark,
        final(time).spec_limit() == old(time).spec_limit(),
        spec_mark_phase_frame(old(state).partitioned_heap, final(state).partitioned_heap),
        // Every root that points into the dynamic heap is marked.
        forall|i: int|
            0 <= i < roots@.len() && (#[trigger] roots@[i]).spec_ptr() >= old(state).partitioned_heap.heap_base && spec_markable(old(state).partitioned_heap, roots@[i])
                ==> final(state).partitioned_heap.spec_blocks()[roots@[i].spec_ptr() as usize].marked,
{
    let ghost limit0 = time.spec_limit();
    let ghost heap0 = old(state).partitioned_heap;
    state.mark_stack.allocate();
    state.phase = Phase::Mark;
    // Bind a zeroed mark bitmap to every partition eligible for marking.
    let mut index: usize = 0;
    while index < MAX_PARTITIONS
        invariant
            state.wf(),
            spec_counters_preserved(*old(state), *state),
            state.phase == Phase::Mark,
            index <= MAX_PARTITIONS,
            heap0 == old(state).partitioned_heap,
            spec_mark_phase_frame(heap0, state.partitioned_heap),
        decreases MAX_PARTITIONS - index,
    {
        let ghost mid = state.partitioned_heap;
        let partition = state.partitioned_heap.get_partition(index);
        let eligible = !partition.is_free() && !partition.has_large_content()
            && !partition.bitmap_is_assigned();
        if eligible {
            state.partitioned_heap.assign_bitmap(index);
            proof {
                lemma_mark_phase_frame_transitive(heap0, mid, state.partitioned_heap);
            }
        }
        index = index + 1;
    }
    // Mark the roots.
    let mut root_index: usize = 0;
    let count = roots.count();
    while root_index < count
        invariant
            state.wf(),
            spec_counters_preserved(*old(state), *state),
            state.phase == Phase::Mark,
            count == roots@.len(),
            root_index <= count,
            time.spec_limit() == limit0,
            heap0 == old(state).partitioned_heap,
            spec_mark_phase_frame(heap0, state.partitioned_heap),
            forall|i: int|
                0 <= i < root_index && (#[trigger] roots@[i]).spec_ptr() >= heap0.heap_base
                    && spec_markable(heap0, roots@[i]) ==> state.partitioned_heap.spec_blocks()[
                roots@[i].spec_ptr() as usize].marked,
        decreases count - root_index,
    {
        let ghost mid = state.partitioned_heap;
        let root = roots.get(root_index);
        let base = state.partitioned_heap.base_address();
        if root.points_to_or_beyond(base) {
            proof {
                if spec_markable(heap0, root) {
                    assert(spec_markable(mid, root)) by {
                        let p = root.spec_ptr() / (PARTITION_SIZE as int);
                        assert(mid.partitions@[p].index == heap0.partitions@[p].index
                            && mid.partitions@[p].free == heap0.partitions@[p].free
                            && mid.partitions@[p].static_size == heap0.partitions@[p].static_size
                            && mid.partitions@[p].dynamic_size
                            == heap0.partitions@[p].dynamic_size && mid.partitions@[
                        p].large_content == heap0.partitions@[p].large_content && mid.partitions@[
                        p].large_head == heap0.partitions@[p].large_head);
                        assert(mid.spec_blocks().contains_key(root.spec_ptr() as usize)
                            == heap0.spec_blocks().contains_key(root.spec_ptr() as usize));
                    }
                }
            }
            mark_value(state, root, true);
            proof {
                lemma_mark_phase_frame_transitive(heap0, mid, state.partitioned_heap);
            }
        }
        root_index = root_index + 1;
        time.tick();
    }
}

/// Scan one gray object: visit its pointer fields and mark the objects they
/// reference. A large array is scanned in bounded slices, with the progress
/// recorded in its transient tag; an unfinished array stays gray.
fn scan_object(state: &mut State, value: Value, time: &mut BoundedTime)
    requires
        old(state).wf(),
        old(state).phase == Phase::Mark,
    ensures
        spec_counters_preserved(*old(state), *final(state)),
        final(state).wf(),
        final(state).phase == Phase::Mark,
        final(time).spec_limit() == old(time).spec_limit(),
        final(time).spec_steps() >= old(time).spec_steps(),
        spec_mark_phase_frame(old(state).partitioned_heap, final(state).partitioned_heap),
{
    let ghost limit0 = time.spec_limit();
    let ghost steps0 = time.spec_steps();
    if !state.partitioned_heap.is_live_pointer(value) {
        return ;
    }
    let address = value.get_ptr();
    let block = state.partitioned_heap.get_block(address);
    proof {
        assert(state.partitioned_heap.spec_in_dynamic_space(address as int));
    }
    if !block_is_wf(block) {
        return ;
    }
    let tag = block.tag();
    let payload_len = block.payload.len();
    let (fields_start, fields_end) = block.pointer_fields();
    if tag == TAG_ARRAY || tag >= TAG_ARRAY_SLICE_MIN {
        let length = payload_len - 1;
        let mut next_index: usize = if tag >= TAG_ARRAY_SLICE_MIN {
            tag - TAG_ARRAY_SLICE_MIN
        } else {
            0
        };
        if next_index > length {
            next_index = length;
        }
        let slice_end = if length - next_index > SLICE_INCREMENT {
            next_index + SLICE_INCREMENT
        } else {
            length
        };
        let mut element: usize = next_index;
        while element < slice_end
            invariant
                state.wf(),
                spec_counters_preserved(*old(state), *state),
                state.phase == Phase::Mark,
                state.partitioned_heap.spec_blocks().contains_key(address),
                state.partitioned_heap.spec_blocks()[address].payload@.len() == payload_len,
                next_index <= element <= slice_end <= length,
                length + 1 == payload_len,
                time.spec_limit() == limit0,
                time.spec_steps() >= steps0,
                spec_mark_phase_frame(old(state).partitioned_heap, state.partitioned_heap),
            decreases slice_end - element,
        {
            let field = state.partitioned_heap.read_field(address, element + 1);
            mark_value(state, field, true);
            time.tick();
            element = element + 1;
        }
        // Record or clear the scan progress in the array tag.
        let current_block = state.partitioned_heap.get_block(address);
        let current_tag = current_block.tag();
        let still_array = tag_is_array(current_tag) && block_is_wf(current_block)
            && current_block.payload.len() == payload_len;
        if still_array {
            proof {
                assert(state.partitioned_heap.spec_blocks()[address].payload@.len() == 1
                    + length);
                assert((2 + state.partitioned_heap.spec_blocks()[address].payload@.len())
                    * WORD_SIZE <= usize::MAX);
                assert(length <= usize::MAX - TAG_ARRAY_SLICE_MIN) by (nonlinear_arith)
                    requires
                        (2 + (1 + length)) * WORD_SIZE <= usize::MAX,
                        WORD_SIZE == 8,
                        TAG_ARRAY_SLICE_MIN == 32,
                ;
                lemma_slice_tag_same_layout(
                    state.partitioned_heap.spec_blocks()[address],
                    ((TAG_ARRAY_SLICE_MIN + slice_end) as usize),
                );
                lemma_slice_tag_same_layout(
                    state.partitioned_heap.spec_blocks()[address],
                    TAG_ARRAY,
                );
            }
            if slice_end < length {
                state.partitioned_heap.set_tag(address, TAG_ARRAY_SLICE_MIN + slice_end);
                state.mark_stack.push(value);
            } else if current_tag >= TAG_ARRAY_SLICE_MIN {
                state.partitioned_heap.set_tag(address, TAG_ARRAY);
            }
        }
    } else {
        let mut field_index: usize = fields_start;
        while field_index < fields_end
            invariant
                state.wf(),
                spec_counters_preserved(*old(state), *state),
                state.phase == Phase::Mark,
                state.partitioned_heap.spec_blocks().contains_key(address),
                state.partitioned_heap.spec_blocks()[address].payload@.len() == payload_len,
                fields_end <= payload_len,
                time.spec_limit() == limit0,
                time.spec_steps() >= steps0,
                spec_mark_phase_frame(old(state).partitioned_heap, state.partitioned_heap),
            decreases fields_end - field_index,
        {
            let field = state.partitioned_heap.read_field(address, field_index);
            mark_value(state, field, true);
            time.tick();
            field_index = field_index + 1;
        }
    }
}

/// An array tag, either the plain one or a transient slice tag.
fn tag_is_array(tag: usize) -> (r: bool)
    ensures
        r == spec_is_array_tag(tag),
{
    tag == TAG_ARRAY || tag >= TAG_ARRAY_SLICE_MIN
}

/// Structural well-formedness of a block, in executable form.
fn block_is_wf(block: &Block) -> (r: bool)
    ensures
        r == spec_wf_block(*block),
{
    let len = block.payload.len();
    let size_ok = if block.tag == crate::types::TAG_ONE_WORD_FILLER {
        true
    } else if block.tag == crate::types::TAG_FREE_SPACE {
        len == 1 && block.payload[0] <= usize::MAX / WORD_SIZE - 2
    } else {
        len <= usize::MAX / WORD_SIZE - 2
    };
    if !size_ok {
        return false;
    }
    proof {
        if block.tag == crate::types::TAG_FREE_SPACE {
            assert((2 + block.payload@[0]) * WORD_SIZE <= usize::MAX) by (nonlinear_arith)
                requires
                    block.payload@[0] <= usize::MAX / WORD_SIZE - 2,
                    WORD_SIZE > 0,
            ;
        } else if block.tag != crate::types::TAG_ONE_WORD_FILLER {
            assert((2 + block.payload@.len()) * WORD_SIZE <= usize::MAX) by (nonlinear_arith)
                requires
                    block.payload@.len() <= usize::MAX / WORD_SIZE - 2,
                    WORD_SIZE > 0,
            ;
        }
    }
    if block.tag == TAG_ARRAY || block.tag >= TAG_ARRAY_SLICE_MIN {
        len >= 1 && len - 1 == block.payload[0]
    } else if block.tag == crate::types::TAG_OBJECT {
        len >= 1 && len - 1 == block.payload[0]
    } else if block.tag == crate::types::TAG_BLOB || block.tag == crate::types::TAG_BIGINT {
        len >= 1 && block.payload[0] <= usize::MAX - WORD_SIZE && len - 1 == (block.payload[0]
            + WORD_SIZE - 1) / WORD_SIZE
    } else if block.tag == crate::types::TAG_MUTBOX || block.tag == crate::types::TAG_SOME
        || block.tag == crate::types::TAG_OBJ_IND || block.tag == crate::types::TAG_BITS64
        || block.tag == crate::types::TAG_BITS32 {
        len == 1
    } else if block.tag == crate::types::TAG_VARIANT {
        len == 2
    } else if block.tag == crate::types::TAG_CONCAT || block.tag == crate::types::TAG_REGION {
        len == 3
    } else if block.tag == crate::types::TAG_ONE_WORD_FILLER {
        len == 0
    } else if block.tag == crate::types::TAG_FREE_SPACE {
        len == 1
    } else {
        false
    }
}

/// Replacing an array tag by another array tag keeps layout and size.
proof fn lemma_slice_tag_same_layout(block: Block, new_tag: usize)
    requires
        spec_wf_block(block),
        spec_is_array_tag(block.tag),
        spec_is_array_tag(new_tag),
    ensures
        spec_wf_block((Block { tag: new_tag, ..block })),
        spec_block_size_of((Block { tag: new_tag, ..block })) == spec_block_size_of(block),
{
}

/// One mark increment: pop and scan gray objects until the stack runs empty
/// or the time budget is exhausted.
fn mark_increment(state: &mut State, time: &mut BoundedTime)
    requires
        old(state).wf(),
        old(state).phase == Phase::Mark,
        old(time).spec_limit() < usize::MAX,
    ensures
        spec_counters_preserved(*old(state), *final(state)),
        final(state).wf(),
        final(state).phase == Phase::Mark,
        final(state).mark_stack.view().len() == 0 || final(time).spec_steps() > final(time).spec_limit(),
        spec_mark_phase_frame(old(state).partitioned_heap, final(state).partitioned_heap),
{
    let ghost limit0 = time.spec_limit();
    let ghost steps0 = time.spec_steps();
    proof {
        time.lemma_bounds();
    }
    let mut fuel: usize = usize::MAX;
    loop
        invariant
            state.wf(),
            spec_counters_preserved(*old(state), *state),
            state.phase == Phase::Mark,
            0 <= steps0,
            limit0 < usize::MAX,
            time.spec_limit() == limit0,
            time.spec_steps() >= steps0 + (usize::MAX - fuel) || time.spec_steps() > limit0,
            spec_mark_phase_frame(old(state).partitioned_heap, state.partitioned_heap),
        decreases fuel,
    {
        if fuel == 0 {
            proof {
                assert(time.spec_steps() > limit0);
            }
            return ;
        }
        fuel = fuel - 1;
        if time.is_over() {
            return ;
        }
        if state.mark_stack.is_empty() {
            return ;
        }
        let value = state.mark_stack.pop();
        scan_object(state, value, time);
        time.tick();
    }
}

/// Enter the evacuation phase: free the unreachable large objects, select
/// the evacuation candidates and reset the partition scan.
fn start_evacuating(state: &mut State)
    requires
        old(state).wf(),
        old(state).phase == Phase::Mark,
        old(state).mark_stack.view().len() == 0,
    ensures
        spec_counters_preserved(*old(state), *final(state)),
        final(state).wf(),
        final(state).phase == Phase::Evacuate,
{
    state.mark_stack.free();
    state.partitioned_heap.collect_large_objects();
    state.partitioned_heap.plan_evacuations();
    state.phase = Phase::Evacuate;
    state.iterator_state = HeapIteratorState::new();
    normalize_scan_position(state);
}

/// Move the retained scan position onto the next partition with content.
fn normalize_scan_position(state: &mut State)
    requires
        old(state).partitioned_heap.wf(),
        old(state).partitioned_heap.spec_valid_partition_position(
            old(state).iterator_state.partition_index as int,
        ),
        old(state).phase == Phase::Evacuate || old(state).phase == Phase::Update,
        !old(state).mark_stack.spec_allocated(),
    ensures
        final(state).wf(),
        final(state).phase == old(state).phase,
        *final(state) == (State { iterator_state: final(state).iterator_state, ..*old(state) }),
{
    let next = {
        let iterator = PartitionedHeapIterator::load_from(
            &state.partitioned_heap,
            &state.iterator_state,
        );
        let mut position = HeapIteratorState::new();
        iterator.save_to(&mut position);
        position.partition_index
    };
    state.iterator_state.partition_index = next;
    proof {
        assert(spec_valid_scan_position(
            state.partitioned_heap,
            state.iterator_state.partition_index as int,
        ));
    }
}

/// One evacuation increment: copy the live objects of evacuating partitions
/// into the allocation partition, installing forwarding pointers in the
/// originals, until all partitions are processed or the budget runs out.
fn evacuation_increment(state: &mut State, time: &mut BoundedTime)
    requires
        old(state).wf(),
        old(state).phase == Phase::Evacuate,
    ensures
        spec_counters_preserved(*old(state), *final(state)),
        final(state).wf(),
        final(state).phase == Phase::Evacuate,
        final(state).iterator_state.partition_index >= old(state).iterator_state.partition_index,
        final(state).iterator_state.partition_index as int == MAX_PARTITIONS || final(time).spec_steps() > final(time).spec_limit(),
{
    loop
        invariant
            state.wf(),
            spec_counters_preserved(*old(state), *state),
            state.phase == Phase::Evacuate,
            state.iterator_state.partition_index >= old(state).iterator_state.partition_index,
        decreases MAX_PARTITIONS - state.iterator_state.partition_index,
    {
        let index = state.iterator_state.partition_index;
        if index >= MAX_PARTITIONS {
            return ;
        }
        if state.partitioned_heap.get_partition(index).to_be_evacuated() {
            evacuate_partition(state, index, time);
        }
        advance_scan_position(state);
        proof {
            assert(state.iterator_state.partition_index > index);
        }
        if time.is_over() {
            return ;
        }
    }
}

/// Advance the retained scan position past the current partition.
fn advance_scan_position(state: &mut State)
    requires
        old(state).wf(),
        old(state).phase == Phase::Evacuate || old(state).phase == Phase::Update,
        old(state).iterator_state.partition_index < MAX_PARTITIONS,
    ensures
        final(state).wf(),
        final(state).phase == old(state).phase,
        *final(state) == (State { iterator_state: final(state).iterator_state, ..*old(state) }),
        final(state).iterator_state.partition_index > old(state).iterator_state.partition_index,
{
    let next = {
        let mut iterator = PartitionedHeapIterator::load_from(
            &state.partitioned_heap,
            &state.iterator_state,
        );
        proof {
            let start = state.iterator_state.partition_index as int;
            assert(!state.partitioned_heap.partitions@[start].free);
            if iterator.spec_index() > start {
                assert(state.partitioned_heap.partitions@[start].free);
            }
            assert(iterator.spec_index() == start);
        }
        iterator.next_partition();
        let mut position = HeapIteratorState::new();
        iterator.save_to(&mut position);
        position.partition_index
    };
    state.iterator_state.partition_index = next;
}

/// Copy each payload word of a block.
fn copy_payload(payload: &Vec<usize>) -> (copy: Vec<usize>)
    ensures
        copy@ == payload@,
{
    let mut copy: Vec<usize> = Vec::new();
    let mut index: usize = 0;
    let len = payload.len();
    while index < len
        invariant
            copy@ == payload@.take(index as int),
            index <= len,
            len == payload@.len(),
        decreases len - index,
    {
        copy.push(payload[index]);
        proof {
            assert(copy@ =~= payload@.take(index as int + 1));
        }
        index = index + 1;
    }
    proof {
        assert(copy@ =~= payload@);
    }
    copy
}

/// Evacuate one partition: copy every marked object into the allocation
/// partition and install the forwarding pointer to the copy in the
/// original. Stops early if no free partition could serve a copy, where
/// the runtime system would trap with an out-of-memory error.
#[verifier::rlimit(100)]
fn evacuate_partition(state: &mut State, index: usize, time: &mut BoundedTime)
    requires
        old(state).wf(),
        old(state).phase == Phase::Evacuate,
        index < MAX_PARTITIONS,
        old(state).partitioned_heap.partitions@[index as int].evacuate,
    ensures
        spec_counters_preserved(*old(state), *final(state)),
        final(state).wf(),
        final(state).phase == Phase::Evacuate,
        final(state).iterator_state == old(state).iterator_state,
{
    let fresh_state = HeapIteratorState::new();
    proof {
        assert(state.partitioned_heap.partitions@[index as int].spec_wf(index as int));
        assert(state.partitioned_heap.spec_tiling_wf());
        lemma_partition_bounds(index as int);
    }
    let mut iterator = PartitionIterator::load_from(
        &state.partitioned_heap,
        index,
        &fresh_state,
        time,
    );
    loop
        invariant
            state.wf(),
            spec_counters_preserved(*old(state), *state),
            state.phase == Phase::Evacuate,
            state.iterator_state == old(state).iterator_state,
            iterator.wf(state.partitioned_heap),
            iterator.spec_index() == index,
            index < MAX_PARTITIONS,
            state.partitioned_heap.partitions@[index as int].evacuate,
        decreases iterator.spec_remaining(),
    {
        let ghost iterator0 = iterator;
        let current = iterator.current_object(&state.partitioned_heap);
        match current {
            None => {
                return ;
            },
            Some(address) => {
                let ghost pre_heap = state.partitioned_heap;
                proof {
                    assert(spec_tiled(
                        pre_heap.spec_blocks(),
                        iterator.spec_current(),
                        iterator.spec_end(),
                    ));
                }
                let block = state.partitioned_heap.get_block(address);
                let size = block.block_size();
                let copy = Block {
                    tag: block.tag,
                    forward: Value::null_value(),
                    marked: block.marked,
                    payload: copy_payload(&block.payload),
                };
                proof {
                    assert(spec_wf_block(copy)) by {
                        assert(copy.payload@ == pre_heap.spec_blocks()[address].payload@);
                    }
                    assert(spec_block_size_of(copy) == size);
                }
                if !state.partitioned_heap.can_allocate_normal(size) {
                    // The runtime would trap here: out of memory.
                    return ;
                }
                let target = state.partitioned_heap.allocate_normal_object(
                    &mut state.memory,
                    copy,
                );
                proof {
                    assert forall|k: int|
                        pre_heap.spec_in_dynamic_space(k) implies ((#[trigger] state.partitioned_heap.spec_blocks().contains_key(k as usize))
                        == pre_heap.spec_blocks().contains_key(k as usize) && (
                    pre_heap.spec_blocks().contains_key(k as usize)
                        ==> state.partitioned_heap.spec_blocks()[k as usize]
                        == pre_heap.spec_blocks()[k as usize])) by {
                        assert(pre_heap.spec_in_dynamic_space(k));
                    }
                    lemma_evacuation_step_iterator(pre_heap, state.partitioned_heap, iterator);
                }
                let ghost mid_heap = state.partitioned_heap;
                state.partitioned_heap.set_forward(address, target);
                proof {
                    assert(spec_wf_block(state.partitioned_heap.spec_blocks()[address])
                        == spec_wf_block(mid_heap.spec_blocks()[address]));
                    lemma_tiled_update_same_size(
                        mid_heap.spec_blocks(),
                        iterator.spec_current(),
                        iterator.spec_end(),
                        address,
                        state.partitioned_heap.spec_blocks()[address],
                    );
                    assert(state.partitioned_heap.spec_blocks()[address].marked
                        == mid_heap.spec_blocks()[address].marked);
                    assert(iterator.wf(state.partitioned_heap));
                }
                time.advance(size / WORD_SIZE);
                iterator.next_object(&state.partitioned_heap, time);
                proof {
                    assert(iterator.spec_current() > iterator0.spec_current());
                    assert(iterator.spec_end() == iterator0.spec_end());
                }
            },
        }
    }
}

/// After a copy is placed in the allocation partition, the sweep window of
/// the evacuating partition is still tiled and its current block unchanged.
proof fn lemma_evacuation_step_iterator(
    pre: PartitionedHeap,
    post: PartitionedHeap,
    iterator: PartitionIterator,
)
    requires
        pre.wf(),
        post.wf(),
        iterator.wf(pre),
        iterator.spec_current() < iterator.spec_end(),
        !pre.partitions@[iterator.spec_index()].large_content,
        forall|k: int|
            pre.spec_in_dynamic_space(k) ==> ((#[trigger] post.spec_blocks().contains_key(
                k as usize,
            )) == pre.spec_blocks().contains_key(k as usize) && (pre.spec_blocks().contains_key(
                k as usize,
            ) ==> post.spec_blocks()[k as usize] == pre.spec_blocks()[k as usize])),
        forall|i: int|
            0 <= i < MAX_PARTITIONS ==> (#[trigger] post.partitions@[i]).static_size
                == pre.partitions@[i].static_size,
        forall|i: int|
            0 <= i < MAX_PARTITIONS && i != post.allocation_index ==> (
            #[trigger] post.partitions@[i]).dynamic_size == pre.partitions@[i].dynamic_size,
        forall|i: int|
            0 <= i < MAX_PARTITIONS && (#[trigger] post.partitions@[i]).free
                ==> pre.partitions@[i].free,
        forall|i: int|
            0 <= i < MAX_PARTITIONS ==> (#[trigger] post.partitions@[i]).large_content
                == pre.partitions@[i].large_content && post.partitions@[i].evacuate
                == pre.partitions@[i].evacuate,
        pre.partitions@[iterator.spec_index()].evacuate,
        post.allocation_index as int != iterator.spec_index(),
    ensures
        iterator.wf(post),
        spec_tiled(post.spec_blocks(), iterator.spec_current(), iterator.spec_end()),
        post.spec_blocks().contains_key(iterator.current_address)
            && post.spec_blocks()[iterator.current_address]
            == pre.spec_blocks()[iterator.current_address],
{
    let i = iterator.spec_index();
    assert(pre.partitions@[i].spec_wf(i));
    lemma_partition_bounds(i);
    assert forall|a: int|
        iterator.spec_current() <= a < iterator.spec_end() implies (
    #[trigger] post.spec_blocks().contains_key(a as usize)) == pre.spec_blocks().contains_key(
        a as usize,
    ) by {
        assert(pre.spec_in_dynamic_space(a)) by {
            lemma_partition_of_address(i, a);
        }
    }
    assert forall|a: int|
        iterator.spec_current() <= a < iterator.spec_end() && pre.spec_blocks().contains_key(
            a as usize,
        ) implies (#[trigger] post.spec_blocks()[a as usize]) == pre.spec_blocks()[a
        as usize] by {
        assert(pre.spec_in_dynamic_space(a)) by {
            lemma_partition_of_address(i, a);
        }
        assert(post.spec_blocks().contains_key(a as usize));
    }
    lemma_tiled_agreement(
        pre.spec_blocks(),
        post.spec_blocks(),
        iterator.spec_current(),
        iterator.spec_end(),
    );
    assert(pre.spec_in_dynamic_space(iterator.current_address as int)) by {
        lemma_partition_of_address(i, iterator.current_address as int);
    }
}

/// Enter the update phase: select every non-free, non-evacuating partition
/// for pointer updates, rewrite the roots through the forwarding
/// resolution, and reset the partition scan.
fn start_updating(state: &mut State, roots: &mut RootSet)
    requires
        old(state).wf(),
        old(state).phase == Phase::Evacuate,
    ensures
        spec_counters_preserved(*old(state), *final(state)),
        final(state).wf(),
        final(state).phase == Phase::Update,
        forall|i: int|
            0 <= i < old(roots)@.len() ==> final(state).partitioned_heap.spec_forward_of(
                old(roots)@[i],
            ) == final(roots)@[i],
{
    state.partitioned_heap.plan_updates();
    state.phase = Phase::Update;
    let ghost planned_heap = state.partitioned_heap;
    let mut index: usize = 0;
    let count = roots.count();
    while index < count
        invariant
            state.wf(),
            spec_counters_preserved(*old(state), *state),
            state.phase == Phase::Update,
            count == roots@.len(),
            index <= count,
            forall|i: int|
                index <= i < count ==> (#[trigger] roots@[i]) == old(roots)@[i],
            forall|i: int|
                0 <= i < index ==> (#[trigger] roots@[i])
                    == state.partitioned_heap.spec_forward_of(old(roots)@[i]),
            state.partitioned_heap == planned_heap,
        decreases count - index,
    {
        let root = roots.get(index);
        let forwarded = state.partitioned_heap.forward_if_possible(root);
        roots.set(index, forwarded);
        index = index + 1;
    }
    state.iterator_state = HeapIteratorState::new();
    normalize_scan_position(state);
}

/// One update increment: rewrite the pointer fields of the live objects in
/// every partition selected for updates, until all partitions are
/// processed or the budget runs out.
fn update_increment(state: &mut State, time: &mut BoundedTime)
    requires
        old(state).wf(),
        old(state).phase == Phase::Update,
    ensures
        spec_counters_preserved(*old(state), *final(state)),
        final(state).wf(),
        final(state).phase == Phase::Update,
        final(state).iterator_state.partition_index >= old(state).iterator_state.partition_index,
        final(state).iterator_state.partition_index as int == MAX_PARTITIONS || final(time).spec_steps() > final(time).spec_limit(),
{
    loop
        invariant
            state.wf(),
            spec_counters_preserved(*old(state), *state),
            state.phase == Phase::Update,
            state.iterator_state.partition_index >= old(state).iterator_state.partition_index,
        decreases MAX_PARTITIONS - state.iterator_state.partition_index,
    {
        let index = state.iterator_state.partition_index;
        if index >= MAX_PARTITIONS {
            return ;
        }
        if state.partitioned_heap.get_partition(index).to_be_updated() {
            update_partition(state, index, time);
        }
        advance_scan_position(state);
        proof {
            assert(state.iterator_state.partition_index > index);
        }
        if time.is_over() {
            return ;
        }
    }
}

/// Rewrite the pointer fields of every marked object of one partition
/// through the forwarding resolution.
fn update_partition(state: &mut State, index: usize, time: &mut BoundedTime)
    requires
        old(state).wf(),
        old(state).phase == Phase::Update,
        index < MAX_PARTITIONS,
        !old(state).partitioned_heap.partitions@[index as int].free,
        old(state).partitioned_heap.partitions@[index as int].large_content ==> old(state).partitioned_heap.partitions@[index as int].spec_large_head() == index as int,
    ensures
        spec_counters_preserved(*old(state), *final(state)),
        final(state).wf(),
        final(state).phase == Phase::Update,
        final(state).iterator_state == old(state).iterator_state,
{
    let fresh_state = HeapIteratorState::new();
    proof {
        assert(state.partitioned_heap.partitions@[index as int].spec_wf(index as int));
        assert(state.partitioned_heap.spec_tiling_wf());
        lemma_partition_bounds(index as int);
    }
    let mut iterator = PartitionIterator::load_from(
        &state.partitioned_heap,
        index,
        &fresh_state,
        time,
    );
    loop
        invariant
            state.wf(),
            spec_counters_preserved(*old(state), *state),
            state.phase == Phase::Update,
            state.iterator_state == old(state).iterator_state,
            iterator.wf(state.partitioned_heap),
            iterator.spec_index() == index,
            index < MAX_PARTITIONS,
        decreases iterator.spec_remaining(),
    {
        let ghost iterator0 = iterator;
        let current = iterator.current_object(&state.partitioned_heap);
        match current {
            None => {
                return ;
            },
            Some(address) => {
                update_object_fields(state, address, time, Ghost(iterator));
                // The object is fully updated: clear its mark state for the
                // next GC run.
                let ghost mid_heap = state.partitioned_heap;
                state.partitioned_heap.set_mark(address, false);
                proof {
                    lemma_update_step_iterator(
                        mid_heap,
                        state.partitioned_heap,
                        iterator,
                        address,
                    );
                }
                iterator.next_object(&state.partitioned_heap, time);
                proof {
                    assert(iterator.spec_current() > iterator0.spec_current());
                    assert(iterator.spec_end() == iterator0.spec_end());
                }
            },
        }
    }
}

/// Rewrite every pointer field of one object through the forwarding
/// resolution.
fn update_object_fields(
    state: &mut State,
    address: usize,
    time: &mut BoundedTime,
    Ghost(iterator): Ghost<PartitionIterator>,
)
    requires
        old(state).wf(),
        old(state).phase == Phase::Update,
        iterator.wf(old(state).partitioned_heap),
        iterator.spec_current() < iterator.spec_end(),
        address == iterator.current_address,
    ensures
        spec_counters_preserved(*old(state), *final(state)),
        final(state).wf(),
        final(state).phase == Phase::Update,
        final(state).iterator_state == old(state).iterator_state,
        iterator.wf(final(state).partitioned_heap),
        final(state).partitioned_heap.spec_blocks()[address].payload@.len() == old(state).partitioned_heap.spec_blocks()[address].payload@.len(),
{
    proof {
        assert(state.partitioned_heap.spec_blocks().contains_key(address));
        if state.partitioned_heap.partitions@[iterator.spec_index()].large_content {
            assert(state.partitioned_heap.spec_large_run_wf(iterator.spec_index()));
        }
    }
    let block = state.partitioned_heap.get_block(address);
    if !block_is_wf(block) {
        return ;
    }
    let (fields_start, fields_end) = block.pointer_fields();
    let mut field_index: usize = fields_start;
    while field_index < fields_end
        invariant
            state.wf(),
            spec_counters_preserved(*old(state), *state),
            state.phase == Phase::Update,
            state.iterator_state == old(state).iterator_state,
            iterator.wf(state.partitioned_heap),
            iterator.spec_current() < iterator.spec_end(),
            address == iterator.current_address,
            state.partitioned_heap.spec_blocks().contains_key(address),
            spec_wf_block(state.partitioned_heap.spec_blocks()[address]),
            fields_start as int == crate::types::spec_pointer_fields(
                state.partitioned_heap.spec_blocks()[address].tag,
                state.partitioned_heap.spec_blocks()[address].payload@.len() as int,
            ).0,
            fields_end as int == crate::types::spec_pointer_fields(
                state.partitioned_heap.spec_blocks()[address].tag,
                state.partitioned_heap.spec_blocks()[address].payload@.len() as int,
            ).1,
            fields_start <= fields_end <= state.partitioned_heap.spec_blocks()[
            address].payload@.len(),
            state.partitioned_heap.spec_blocks()[address].payload@.len() == old(state).partitioned_heap.spec_blocks()[address].payload@.len(),
        decreases fields_end - field_index,
    {
        if field_index >= fields_start {
            let ghost pre_heap = state.partitioned_heap;
            let field = state.partitioned_heap.read_field(address, field_index);
            let forwarded = state.partitioned_heap.forward_if_possible(field);
            state.partitioned_heap.write_field(address, field_index, forwarded);
            proof {
                lemma_update_step_iterator(pre_heap, state.partitioned_heap, iterator, address);
            }
            time.tick();
        }
        field_index = field_index + 1;
    }
}

/// A pointer-field write inside the current block keeps the sweep window of
/// the iterated partition intact.
proof fn lemma_update_step_iterator(
    pre: PartitionedHeap,
    post: PartitionedHeap,
    iterator: PartitionIterator,
    address: usize,
)
    requires
        pre.wf(),
        post.wf(),
        iterator.wf(pre),
        iterator.spec_current() < iterator.spec_end(),
        address == iterator.current_address,
        post.partitions@ == pre.partitions@,
        pre.spec_blocks().contains_key(address),
        post.spec_blocks() == pre.spec_blocks().insert(address, post.spec_blocks()[address]),
        post.spec_blocks().contains_key(address),
        spec_wf_block(post.spec_blocks()[address]),
        spec_block_size_of(post.spec_blocks()[address]) == spec_block_size_of(
            pre.spec_blocks()[address],
        ),
    ensures
        iterator.wf(post),
{
    let i = iterator.spec_index();
    assert(pre.partitions@[i].spec_wf(i));
    lemma_partition_bounds(i);
    if !pre.partitions@[i].large_content {
        lemma_tiled_update_same_size(
            pre.spec_blocks(),
            iterator.spec_current(),
            iterator.spec_end(),
            address,
            post.spec_blocks()[address],
        );
    }
}

/// Finish the run: free the evacuated partitions, clear the per-partition
/// cycle state including the mark bitmaps, account the reclaimed space, and
/// return to the pause phase. Only called on an empty call stack.
fn complete_run(state: &mut State)
    requires
        old(state).wf(),
        old(state).phase == Phase::Update,
    ensures
        spec_counters_preserved(*old(state), *final(state)),
        final(state).wf(),
        final(state).phase == Phase::Pause,
        !final(state).partitioned_heap.evacuating,
        forall|i: int|
            0 <= i < MAX_PARTITIONS ==> !(#[trigger] final(state).partitioned_heap.partitions@[i]).evacuate && !final(state).partitioned_heap.partitions@[i].update && final(state).partitioned_heap.partitions@[i].marked_size == 0,
{
    state.partitioned_heap.complete_collection();
    state.phase = Phase::Pause;
}

/// Write barrier to be applied before every pointer store: during the mark
/// phase, the overwritten value is marked if it points into the dynamic
/// heap, which realizes the snapshot-at-the-beginning property: an object
/// reachable when marking started stays marked even if all edges to it are
/// overwritten during the mark phase.
pub fn pre_write_barrier(state: &mut State, overwritten_value: Value)
    requires
        old(state).wf(),
    ensures
        spec_counters_preserved(*old(state), *final(state)),
        final(state).wf(),
        final(state).phase == old(state).phase,
        old(state).phase == Phase::Mark && overwritten_value.spec_ptr() >= old(state).partitioned_heap.heap_base && spec_markable(
            old(state).partitioned_heap,
            overwritten_value,
        ) ==> final(state).partitioned_heap.spec_blocks()[overwritten_value.spec_ptr() as usize].marked,
        old(state).phase != Phase::Mark ==> *final(state) == *old(state),
        spec_marking_effect_only(old(state).partitioned_heap, final(state).partitioned_heap),
{
    if matches!(state.phase, Phase::Mark) {
        let base = state.partitioned_heap.base_address();
        if overwritten_value.points_to_or_beyond(base) {
            mark_value(state, overwritten_value, true);
        }
    }
}

/// The required idiom for every pointer-bearing store: apply the pre-write
/// barrier to the overwritten value, then perform the store.
pub fn write_with_barrier(state: &mut State, address: usize, field_index: usize, value: Value)
    requires
        old(state).wf(),
        old(state).partitioned_heap.spec_blocks().contains_key(address),
        spec_wf_block(old(state).partitioned_heap.spec_blocks()[address]),
        crate::types::spec_pointer_fields(
            old(state).partitioned_heap.spec_blocks()[address].tag,
            old(state).partitioned_heap.spec_blocks()[address].payload@.len() as int,
        ).0 <= field_index < crate::types::spec_pointer_fields(
            old(state).partitioned_heap.spec_blocks()[address].tag,
            old(state).partitioned_heap.spec_blocks()[address].payload@.len() as int,
        ).1,
    ensures
        final(state).wf(),
        final(state).phase == old(state).phase,
        final(state).partitioned_heap.spec_blocks().contains_key(address),
        final(state).partitioned_heap.spec_blocks()[address].payload@[field_index as int]
            == value.spec_raw(),
        // Snapshot-at-the-beginning: during the mark phase the overwritten
        // value is marked before the store, so the object it referenced
        // stays reachable for this run.
        old(state).phase == Phase::Mark && (Value {
            raw: old(state).partitioned_heap.spec_blocks()[address].payload@[field_index
                as int],
        }).spec_ptr() >= old(state).partitioned_heap.heap_base && spec_markable(
            old(state).partitioned_heap,
            Value {
                raw: old(state).partitioned_heap.spec_blocks()[address].payload@[field_index
                    as int],
            },
        ) ==> final(state).partitioned_heap.spec_blocks()[(Value {
            raw: old(state).partitioned_heap.spec_blocks()[address].payload@[field_index
                as int],
        }).spec_ptr() as usize].marked,
{
    let ghost pre = *state;
    pre_write_barrier(state, state.partitioned_heap.read_field(address, field_index));
    proof {
        assert(state.partitioned_heap.spec_blocks().contains_key(address));
        assert(state.partitioned_heap.spec_blocks()[address].tag
            == pre.partitioned_heap.spec_blocks()[address].tag);
        assert(state.partitioned_heap.spec_blocks()[address].payload@
            == pre.partitioned_heap.spec_blocks()[address].payload@);
        assert(spec_wf_block(state.partitioned_heap.spec_blocks()[address])) by {
            lemma_wf_block_from_layout(
                pre.partitioned_heap.spec_blocks()[address],
                state.partitioned_heap.spec_blocks()[address],
            );
        }
    }
    state.partitioned_heap.write_field(address, field_index, value);
    proof {
        if state.phase == Phase::Evacuate || state.phase == Phase::Update {
            lemma_scan_position_stable(
                pre.partitioned_heap,
                state.partitioned_heap,
                state.iterator_state.partition_index as int,
            );
        }
    }
}

/// Structural block well-formedness only depends on tag and payload.
proof fn lemma_wf_block_from_layout(pre: Block, post: Block)
    requires
        spec_wf_block(pre),
        post.tag == pre.tag,
        post.payload@ == pre.payload@,
    ensures
        spec_wf_block(post),
{
}

/// Allocation barrier to be applied after a new object is fully
/// initialized. During the mark and evacuation phases the new object is
/// conservatively retained for the current run; during the update phase
/// its pointer fields are rewritten through the forwarding resolution,
/// since they may have been copied from not yet updated locations.
pub fn post_allocation_barrier(state: &mut State, new_object: Value)
    requires
        old(state).wf(),
    ensures
        spec_counters_preserved(*old(state), *final(state)),
        final(state).wf(),
        final(state).phase == old(state).phase,
        // During the pause, the barrier is a no-op.
        old(state).phase == Phase::Pause ==> *final(state) == *old(state),
        // During the mark and evacuation phases, the new object is
        // conservatively marked and retained for the current run.
        old(state).phase == Phase::Mark && spec_markable(
            old(state).partitioned_heap,
            new_object,
        ) ==> final(state).partitioned_heap.spec_blocks()[new_object.spec_ptr() as usize].marked,
        old(state).phase == Phase::Evacuate && spec_live_pointer(
            old(state).partitioned_heap,
            new_object,
        ) ==> final(state).partitioned_heap.spec_blocks()[new_object.spec_ptr() as usize].marked,
        // During the update phase, every pointer field of the new object is
        // rewritten through the forwarding resolution.
        old(state).phase == Phase::Update && old(state).partitioned_heap.evacuating
            && spec_live_pointer(old(state).partitioned_heap, new_object) && spec_wf_block(
            old(state).partitioned_heap.spec_blocks()[new_object.spec_ptr() as usize],
        ) ==> {
            let block = old(state).partitioned_heap.spec_blocks()[new_object.spec_ptr()
                as usize];
            let range = crate::types::spec_pointer_fields(block.tag, block.payload@.len() as int);
            &&& final(state).partitioned_heap.spec_blocks().contains_key(
                new_object.spec_ptr() as usize,
            )
            &&& (forall|j: int|
                range.0 <= j < range.1 ==> (#[trigger] final(state).partitioned_heap.spec_blocks()[new_object.spec_ptr() as usize].payload@[j]) == old(state).partitioned_heap.spec_forward_of(
                    Value { raw: block.payload@[j] },
                ).spec_raw())
        },
{
    if matches!(state.phase, Phase::Mark) {
        mark_value(state, new_object, false);
    } else if matches!(state.phase, Phase::Evacuate) {
        mark_new_allocation(state, new_object);
    } else if matches!(state.phase, Phase::Update) {
        update_new_allocation(state, new_object);
    }
}

/// Conservatively mark a newly allocated object during the evacuation
/// phase so that its fields are rewritten in the update phase.
fn mark_new_allocation(state: &mut State, new_object: Value)
    requires
        old(state).wf(),
        old(state).phase == Phase::Evacuate,
    ensures
        spec_counters_preserved(*old(state), *final(state)),
        final(state).wf(),
        final(state).phase == Phase::Evacuate,
        spec_live_pointer(old(state).partitioned_heap, new_object) ==> final(state).partitioned_heap.spec_blocks()[new_object.spec_ptr() as usize].marked,
        spec_marking_effect_only(old(state).partitioned_heap, final(state).partitioned_heap),
        final(state).partitioned_heap.partitions@ == old(state).partitioned_heap.partitions@,
        final(state).iterator_state == old(state).iterator_state,
{
    let ghost pre = *state;
    if !state.partitioned_heap.is_live_pointer(new_object) {
        return ;
    }
    let address = new_object.get_ptr();
    if state.partitioned_heap.get_block(address).is_marked() {
        return ;
    }
    state.partitioned_heap.set_mark(address, true);
    proof {
        lemma_mark_effect(pre.partitioned_heap, state.partitioned_heap, address);
        lemma_scan_position_stable(
            pre.partitioned_heap,
            state.partitioned_heap,
            state.iterator_state.partition_index as int,
        );
    }
}

/// Rewrite the pointer fields of a newly allocated object during the
/// update phase: each one is replaced by its forwarding resolution, since
/// the fields may have been copied from locations that still hold pointers
/// to evacuated originals.
fn update_new_allocation(state: &mut State, new_object: Value)
    requires
        old(state).wf(),
        old(state).phase == Phase::Update,
    ensures
        spec_counters_preserved(*old(state), *final(state)),
        final(state).wf(),
        final(state).phase == Phase::Update,
        old(state).partitioned_heap.evacuating && spec_live_pointer(
            old(state).partitioned_heap,
            new_object,
        ) && spec_wf_block(
            old(state).partitioned_heap.spec_blocks()[new_object.spec_ptr() as usize],
        ) ==> {
            let block = old(state).partitioned_heap.spec_blocks()[new_object.spec_ptr()
                as usize];
            let range = crate::types::spec_pointer_fields(block.tag, block.payload@.len() as int);
            &&& final(state).partitioned_heap.spec_blocks().contains_key(
                new_object.spec_ptr() as usize,
            )
            &&& final(state).partitioned_heap.spec_blocks()[new_object.spec_ptr()
                as usize].payload@.len() == block.payload@.len()
            &&& (forall|j: int|
                range.0 <= j < range.1 ==> (#[trigger] final(state).partitioned_heap.spec_blocks()[new_object.spec_ptr() as usize].payload@[j])
                    == old(state).partitioned_heap.spec_forward_of(
                    Value { raw: block.payload@[j] },
                ).spec_raw())
            &&& (forall|j: int|
                0 <= j < block.payload@.len() && !(range.0 <= j < range.1) ==> (#[trigger] final(state).partitioned_heap.spec_blocks()[new_object.spec_ptr() as usize].payload@[j])
                    == block.payload@[j])
        },
{
    if !state.partitioned_heap.updates_needed() {
        return ;
    }
    if !state.partitioned_heap.is_live_pointer(new_object) {
        return ;
    }
    let address = new_object.get_ptr();
    let block = state.partitioned_heap.get_block(address);
    if !block_is_wf(block) {
        return ;
    }
    let (fields_start, fields_end) = block.pointer_fields();
    let mut field_index: usize = fields_start;
    while field_index < fields_end
        invariant
            state.wf(),
            spec_counters_preserved(*old(state), *state),
            state.phase == Phase::Update,
            state.partitioned_heap.spec_blocks().contains_key(address),
            spec_wf_block(state.partitioned_heap.spec_blocks()[address]),
            address == new_object.spec_ptr(),
            state.partitioned_heap.partitions@ == old(state).partitioned_heap.partitions@,
            old(state).partitioned_heap.spec_blocks().contains_key(address),
            spec_wf_block(old(state).partitioned_heap.spec_blocks()[address]),
            state.partitioned_heap.spec_blocks()[address].tag == old(state).partitioned_heap.spec_blocks()[address].tag,
            state.partitioned_heap.spec_blocks()[address].payload@.len() == old(state).partitioned_heap.spec_blocks()[address].payload@.len(),
            fields_start as int == crate::types::spec_pointer_fields(
                old(state).partitioned_heap.spec_blocks()[address].tag,
                old(state).partitioned_heap.spec_blocks()[address].payload@.len() as int,
            ).0,
            fields_end as int == crate::types::spec_pointer_fields(
                old(state).partitioned_heap.spec_blocks()[address].tag,
                old(state).partitioned_heap.spec_blocks()[address].payload@.len() as int,
            ).1,
            fields_start <= field_index <= fields_end <= state.partitioned_heap.spec_blocks()[
            address].payload@.len(),
            forall|k: usize|
                (#[trigger] state.partitioned_heap.spec_blocks().contains_key(k)) == old(state).partitioned_heap.spec_blocks().contains_key(k),
            forall|k: usize|
                old(state).partitioned_heap.spec_blocks().contains_key(k) ==> (#[trigger] state.partitioned_heap.spec_blocks()[k]).forward == old(state).partitioned_heap.spec_blocks()[k].forward,
            forall|j: int|
                fields_start <= j < field_index ==> (#[trigger] state.partitioned_heap.spec_blocks()[address].payload@[j]) == old(state).partitioned_heap.spec_forward_of(
                    Value { raw: old(state).partitioned_heap.spec_blocks()[address].payload@[j] },
                ).spec_raw(),
            forall|j: int|
                0 <= j < state.partitioned_heap.spec_blocks()[address].payload@.len() && !(
                fields_start <= j < field_index) ==> (#[trigger] state.partitioned_heap.spec_blocks()[address].payload@[j]) == old(state).partitioned_heap.spec_blocks()[address].payload@[j],
        decreases fields_end - field_index,
    {
        let ghost pre = *state;
        let field = state.partitioned_heap.read_field(address, field_index);
        let forwarded = state.partitioned_heap.forward_if_possible(field);
        proof {
            lemma_forward_of_stable(
                old(state).partitioned_heap,
                pre.partitioned_heap,
                field,
            );
        }
        state.partitioned_heap.write_field(address, field_index, forwarded);
        proof {
            lemma_scan_position_stable(
                pre.partitioned_heap,
                state.partitioned_heap,
                state.iterator_state.partition_index as int,
            );
        }
        field_index = field_index + 1;
    }
}

/// Forwarding resolution only depends on the partition states, the bound
/// addresses and the forwarding pointers: payload writes do not change it.
proof fn lemma_forward_of_stable(pre: PartitionedHeap, post: PartitionedHeap, value: Value)
    requires
        post.partitions@ == pre.partitions@,
        forall|k: usize|
            (#[trigger] post.spec_blocks().contains_key(k)) == pre.spec_blocks().contains_key(
                k,
            ),
        forall|k: usize|
            pre.spec_blocks().contains_key(k) ==> (#[trigger] post.spec_blocks()[k]).forward
                == pre.spec_blocks()[k].forward,
    ensures
        post.spec_forward_of(value) == pre.spec_forward_of(value),
{
    if value.spec_is_ptr() && !value.spec_is_null() && pre.spec_in_dynamic_space(
        value.spec_ptr(),
    ) && pre.spec_blocks().contains_key(value.spec_ptr() as usize) {
        assert(post.spec_blocks().contains_key(value.spec_ptr() as usize));
        assert(post.spec_blocks()[value.spec_ptr() as usize].forward
            == pre.spec_blocks()[value.spec_ptr() as usize].forward);
    } else {
        assert(!(value.spec_is_ptr() && !value.spec_is_null() && post.spec_in_dynamic_space(
            value.spec_ptr(),
        ) && post.spec_blocks().contains_key(value.spec_ptr() as usize)) || post.spec_blocks().contains_key(value.spec_ptr() as usize) == pre.spec_blocks().contains_key(value.spec_ptr() as usize));
    }
}

/// Store a value into a root location, applying the pre-write barrier to
/// the overwritten root.
pub fn set_static_variables(state: &mut State, roots: &mut RootSet, index: usize, value: Value)
    requires
        old(state).wf(),
        index < old(roots)@.len(),
    ensures
        final(state).wf(),
        final(state).phase == old(state).phase,
        final(roots)@ == old(roots)@.update(index as int, value),
{
    let overwritten = roots.get(index);
    pre_write_barrier(state, overwritten);
    roots.set(index, value);
}

/// Read an element of the static variables array anchored in the given
/// root location, resolving forwarding on the array pointer.
pub fn get_static_variable(state: &State, roots: &RootSet, root_index: usize, index: usize)
    -> (value: Value)
    requires
        state.wf(),
        root_index < roots@.len(),
    ensures
        value == spec_static_variable(*state, *roots, root_index as int, index as int),
{
    let root = roots.get(root_index);
    let array = state.partitioned_heap.forward_if_possible(root);
    if !state.partitioned_heap.is_live_pointer(array) {
        return Value::null_value();
    }
    let address = array.get_ptr();
    let block = state.partitioned_heap.get_block(address);
    if index < block.payload.len() && index + 1 < block.payload.len() {
        state.partitioned_heap.read_field(address, index + 1)
    } else {
        Value::null_value()
    }
}

/// The element at `index` of the array anchored in the given root, after
/// resolving forwarding on the array pointer; the null value when the root
/// does not lead to a live array element.
pub open spec fn spec_static_variable(
    state: State,
    roots: RootSet,
    root_index: int,
    index: int,
) -> Value {
    let array = state.partitioned_heap.spec_forward_of(roots@[root_index]);
    if array.spec_is_ptr() && !array.spec_is_null()
        && state.partitioned_heap.spec_in_dynamic_space(array.spec_ptr())
        && state.partitioned_heap.spec_blocks().contains_key(array.spec_ptr() as usize) && index
        + 1 < state.partitioned_heap.spec_blocks()[array.spec_ptr() as usize].payload@.len()
        && index < usize::MAX {
        Value {
            raw: state.partitioned_heap.spec_blocks()[array.spec_ptr() as usize].payload@[index
                + 1],
        }
    } else {
        Value { raw: crate::types::NULL_VALUE }
    }
}

/// Whether a new GC run should start: the heap has grown by more than the
/// growth threshold since the last run, decided in exact rational
/// arithmetic, and the heap spans at least one partition. Under memory
/// pressure near the end of the address space the critical threshold
/// applies.
pub fn should_start(state: &State) -> (start: bool)
    requires
        state.wf(),
    ensures
        start == spec_should_start(*state),
{
    let heap_size = state.partitioned_heap.occupied_size();
    let growth_numerator = if heap_size > CRITICAL_HEAP_LIMIT {
        CRITICAL_GROWTH_NUMERATOR
    } else {
        NORMAL_GROWTH_NUMERATOR
    };
    let current_allocations = state.total_allocations;
    let last = state.statistics.last_allocations;
    let absolute_growth = if current_allocations >= last {
        current_allocations - last
    } else {
        0
    };
    proof {
        assert forall|i: int|
            0 <= i < MAX_PARTITIONS implies (#[trigger] state.partitioned_heap.partitions@[
        i]).static_size + state.partitioned_heap.partitions@[i].dynamic_size <= PARTITION_SIZE
            by {
            assert(state.partitioned_heap.partitions@[i].spec_wf(i));
        }
        lemma_occupied_sum_bound(state.partitioned_heap.partitions@, MAX_PARTITIONS as int);
        assert((MAX_PARTITIONS as int) * (PARTITION_SIZE as int) * 100 < u64::MAX)
            by (nonlinear_arith);
        assert(heap_size * growth_numerator <= (MAX_PARTITIONS as int) * (PARTITION_SIZE as int)
            * 100) by (nonlinear_arith)
            requires
                heap_size <= (MAX_PARTITIONS as int) * (PARTITION_SIZE as int),
                0 <= growth_numerator <= 100,
        ;
    }
    if absolute_growth > u64::MAX / GROWTH_DENOMINATOR {
        // Growth so large that the threshold is necessarily crossed.
        proof {
            assert(absolute_growth * (GROWTH_DENOMINATOR as int) > heap_size * growth_numerator)
                by (nonlinear_arith)
                requires
                    absolute_growth > u64::MAX as int / 100,
                    GROWTH_DENOMINATOR == 100,
                    0 <= heap_size * growth_numerator <= (MAX_PARTITIONS as int) * (
                    PARTITION_SIZE as int) * 100,
                    (MAX_PARTITIONS as int) * (PARTITION_SIZE as int) * 100 < u64::MAX,
            ;
        }
        return heap_size >= PARTITION_SIZE as u64;
    }
    proof {
        assert(absolute_growth * GROWTH_DENOMINATOR <= u64::MAX) by (nonlinear_arith)
            requires
                absolute_growth <= u64::MAX as int / 100,
                GROWTH_DENOMINATOR == 100,
        ;
    }
    let scaled_growth = absolute_growth * GROWTH_DENOMINATOR;
    let scaled_heap = heap_size * growth_numerator;
    scaled_growth > scaled_heap && heap_size >= PARTITION_SIZE as u64
}

/// The exact start condition: the heap has grown since the last run by
/// more than the growth threshold of the heap size, compared in exact
/// rational arithmetic, and the heap spans at least one partition. Under
/// memory pressure near the end of the address space the critical
/// threshold applies.
pub open spec fn spec_should_start(state: State) -> bool {
    let heap_size = crate::partitioned_heap::spec_occupied_sum(
        state.partitioned_heap.partitions@,
        MAX_PARTITIONS as int,
    );
    let growth = if state.total_allocations >= state.statistics.last_allocations {
        state.total_allocations - state.statistics.last_allocations
    } else {
        0
    };
    let numerator = if heap_size > CRITICAL_HEAP_LIMIT {
        CRITICAL_GROWTH_NUMERATOR as int
    } else {
        NORMAL_GROWTH_NUMERATOR as int
    };
    growth * (GROWTH_DENOMINATOR as int) > heap_size * numerator && heap_size >= PARTITION_SIZE
}

/// The occupied sum over partitions that each occupy at most one partition
/// size is bounded by the address space.
proof fn lemma_occupied_sum_bound(partitions: Seq<Partition>, count: int)
    requires
        0 <= count,
        forall|i: int|
            0 <= i < count ==> (#[trigger] partitions[i]).static_size + partitions[i].dynamic_size
                <= PARTITION_SIZE,
    ensures
        0 <= crate::partitioned_heap::spec_occupied_sum(partitions, count),
        crate::partitioned_heap::spec_occupied_sum(partitions, count) <= count * (PARTITION_SIZE
            as int),
    decreases count,
{
    if count > 0 {
        lemma_occupied_sum_bound(partitions, count - 1);
        assert((count - 1) * (PARTITION_SIZE as int) + PARTITION_SIZE == count * (PARTITION_SIZE
            as int)) by (nonlinear_arith);
    }
}

/// Record the allocation level at the start of a GC run.
fn record_gc_start(state: &mut State)
    ensures
        *final(state) == (State {
            statistics: Statistics {
                last_allocations: old(state).total_allocations,
                max_live: old(state).statistics.max_live,
            },
            ..*old(state)
        }),
{
    state.statistics.last_allocations = state.total_allocations;
}

/// Record the maximum live set size at the end of a GC run: the occupied
/// heap size beyond the static base, if it exceeds the recorded maximum.
fn record_gc_stop(state: &mut State)
    requires
        old(state).wf(),
    ensures
        *final(state) == (State {
            statistics: Statistics {
                last_allocations: old(state).statistics.last_allocations,
                max_live: spec_updated_max_live(*old(state)),
            },
            ..*old(state)
        }),
{
    let heap_size = state.partitioned_heap.occupied_size();
    let static_size = state.partitioned_heap.base_address() as u64;
    if heap_size >= static_size {
        let live = heap_size - static_size;
        if live > state.statistics.max_live {
            state.statistics.max_live = live;
        }
    }
}

/// The maximum live size after a completed run: the occupied size beyond
/// the heap base, when that exceeds the recorded maximum.
pub open spec fn spec_updated_max_live(state: State) -> u64 {
    let occupied = crate::partitioned_heap::spec_occupied_sum(
        state.partitioned_heap.partitions@,
        MAX_PARTITIONS as int,
    );
    if occupied >= state.partitioned_heap.heap_base && occupied
        - state.partitioned_heap.heap_base > state.statistics.max_live {
        (occupied - state.partitioned_heap.heap_base) as u64
    } else {
        state.statistics.max_live
    }
}

/// Force one GC increment, and keep the run statistics.
pub fn incremental_gc(state: &mut State, roots: &mut RootSet)
    requires
        old(state).wf(),
    ensures
        final(state).wf(),
        final(state).allocation_count == 0,
        final(state).total_allocations == old(state).total_allocations,
        // The allocation level is recorded when a run starts.
        old(state).phase == Phase::Pause ==> final(state).statistics.last_allocations == old(state).total_allocations,
        old(state).phase != Phase::Pause ==> final(state).statistics.last_allocations == old(state).statistics.last_allocations,
        // When the run completes, the maximum live size is updated and all
        // per-partition cycle state is cleared.
        final(state).phase == Phase::Pause ==> final(state).statistics.max_live
            == spec_updated_max_live(
            State {
                statistics: Statistics {
                    last_allocations: final(state).statistics.last_allocations,
                    max_live: old(state).statistics.max_live,
                },
                ..*final(state)
            },
        ),
        final(state).phase != Phase::Pause ==> final(state).statistics.max_live == old(state).statistics.max_live,
        final(state).phase == Phase::Pause ==> forall|i: int|
            0 <= i < MAX_PARTITIONS ==> !(#[trigger] final(state).partitioned_heap.partitions@[i]).evacuate && !final(state).partitioned_heap.partitions@[i].update && final(state).partitioned_heap.partitions@[i].marked_size == 0,
        // While the phase is still marking, the heap changed by marking
        // effects only, with all roots into the dynamic heap marked at the
        // start of the run.
        final(state).phase == Phase::Mark ==> spec_mark_phase_frame(
            old(state).partitioned_heap,
            final(state).partitioned_heap,
        ),
        old(state).phase == Phase::Pause && final(state).phase == Phase::Mark ==> forall|i: int|
            0 <= i < old(roots)@.len() && (#[trigger] old(roots)@[i]).spec_ptr() >= old(state).partitioned_heap.heap_base && spec_markable(old(state).partitioned_heap, old(roots)@[i])
                ==> final(state).partitioned_heap.spec_blocks()[old(roots)@[i].spec_ptr() as usize].marked,
{
    if matches!(state.phase, Phase::Pause) {
        record_gc_start(state);
    }
    IncrementalGC::empty_call_stack_increment(state, roots);
    if matches!(state.phase, Phase::Pause) {
        record_gc_stop(state);
    }
}

/// Scheduling probe called periodically by the embedder: performs an
/// increment when a run is active or the growth threshold is crossed.
pub fn schedule_incremental_gc(state: &mut State, roots: &mut RootSet)
    requires
        old(state).wf(),
    ensures
        final(state).wf(),
        // Without an active run and below the growth threshold, the probe
        // does nothing.
        old(state).phase == Phase::Pause && !spec_should_start(*old(state)) ==> *final(state)
            == *old(state) && *final(roots) == *old(roots),
        // Otherwise one increment is performed.
        old(state).phase != Phase::Pause || spec_should_start(*old(state)) ==> final(state).allocation_count == 0 && final(state).total_allocations == old(state).total_allocations
            && (final(state).phase == Phase::Pause ==> forall|i: int|
            0 <= i < MAX_PARTITIONS ==> !(#[trigger] final(state).partitioned_heap.partitions@[i]).evacuate && !final(state).partitioned_heap.partitions@[i].update && final(state).partitioned_heap.partitions@[i].marked_size == 0),
{
    let running = !matches!(state.phase, Phase::Pause);
    if running || should_start(state) {
        incremental_gc(state, roots);
    }
}

/// The allocation partition is never selected for evacuation: the global
/// heap invariant pins that every partition flagged for evacuation differs
/// from the allocation partition, at every moment.
pub proof fn lemma_allocation_partition_not_evacuated(heap: PartitionedHeap, index: int)
    requires
        heap.wf(),
        0 <= index < MAX_PARTITIONS,
        heap.partitions@[index].evacuate,
    ensures
        index != heap.allocation_index as int,
        !heap.partitions@[heap.allocation_index as int].evacuate,
{
}

/// A reachable large object keeps its heap address across a GC cycle: the
/// large-object collection leaves every marked large object and its
/// partition run untouched, and the cycle completion does not modify the
/// block store at all, so the object stays at the start of its partition
/// run.
pub proof fn lemma_large_object_address_stable(
    before_collection: PartitionedHeap,
    after_collection: PartitionedHeap,
    after_completion: PartitionedHeap,
    head: int,
)
    requires
        before_collection.wf(),
        0 <= head < MAX_PARTITIONS,
        before_collection.partitions@[head].large_content,
        before_collection.partitions@[head].spec_large_head() == head,
        before_collection.spec_blocks()[(head * PARTITION_SIZE) as usize].marked,
        // effects of collecting large objects
        after_collection.spec_blocks() == before_collection.spec_blocks(),
        forall|i: int|
            0 <= i < MAX_PARTITIONS && (#[trigger] before_collection.partitions@[i]).large_content
                && before_collection.spec_blocks()[(before_collection.partitions@[
            i].spec_large_head() * PARTITION_SIZE) as usize].marked
                ==> after_collection.partitions@[i] == before_collection.partitions@[i],
        // effects of completing the collection
        after_completion.spec_blocks() == after_collection.spec_blocks(),
        forall|i: int|
            0 <= i < MAX_PARTITIONS ==> (#[trigger] after_completion.partitions@[i]).large_content
                == after_collection.partitions@[i].large_content,
    ensures
        after_completion.spec_blocks().contains_key((head * PARTITION_SIZE) as usize),
        after_completion.spec_blocks()[(head * PARTITION_SIZE) as usize]
            == before_collection.spec_blocks()[(head * PARTITION_SIZE) as usize],
        after_completion.partitions@[head].large_content,
{
    assert(before_collection.spec_large_run_wf(head));
    assert(after_collection.partitions@[head] == before_collection.partitions@[head]);
}

} // verus!
