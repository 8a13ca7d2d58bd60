//! Partitioned heap: bump allocation, partition retirement with tail
//! fillers, sweepability, evacuation planning and large objects.

use incremental_gc::constants::PARTITION_SIZE;
use incremental_gc::constants::WORD_SIZE;
use incremental_gc::memory::Memory;
use incremental_gc::memory::ModelMemory;
use incremental_gc::partitioned_heap::PartitionedHeap;
use incremental_gc::partitioned_heap::SURVIVAL_DENOMINATOR;
use incremental_gc::partitioned_heap::SURVIVAL_NUMERATOR;
use incremental_gc::types::TAG_BLOB;
use incremental_gc::types::TAG_FREE_SPACE;
use incremental_gc::types::TAG_ONE_WORD_FILLER;

const HEAP_BASE: usize = 32;

fn fresh_heap() -> (ModelMemory, PartitionedHeap) {
    let mut memory = ModelMemory::new();
    let heap = PartitionedHeap::new(&mut memory, HEAP_BASE);
    (memory, heap)
}

#[test]
fn new_heap_layout() {
    let (memory, heap) = fresh_heap();
    assert_eq!(heap.base_address(), HEAP_BASE);
    assert!(heap.is_allocation_partition(0));
    assert!(!heap.get_partition(0).is_free());
    assert!(heap.get_partition(1).is_free());
    assert_eq!(heap.get_partition(0).dynamic_space_start(), HEAP_BASE);
    assert_eq!(heap.get_partition(0).dynamic_size(), 0);
    assert_eq!(heap.occupied_size(), HEAP_BASE as u64);
    // Memory is committed up to the end of the allocation partition.
    assert_eq!(memory.committed(), PARTITION_SIZE as u64);
}

#[test]
fn bump_allocation_is_contiguous() {
    let (mut memory, mut heap) = fresh_heap();
    let first = heap.alloc_blob(&mut memory, 16);
    let second = heap.alloc_blob(&mut memory, 0);
    // A blob occupies a three-word header plus its rounded payload.
    assert_eq!(first.get_ptr(), HEAP_BASE);
    assert_eq!(second.get_ptr(), HEAP_BASE + 3 * WORD_SIZE + 16);
    let block = heap.get_block(first.get_ptr());
    assert_eq!(block.tag, TAG_BLOB);
    assert_eq!(block.payload[0], 16);
    // The forwarding pointer of a new block refers to the block itself.
    assert_eq!(block.forward.get_ptr(), first.get_ptr());
}

#[test]
fn partition_sweep_lands_on_dynamic_space_end() {
    // Walking the partition block by block lands exactly on the dynamic
    // space end.
    let (mut memory, mut heap) = fresh_heap();
    heap.alloc_blob(&mut memory, 16);
    heap.alloc_array(&mut memory, 5);
    heap.alloc_blob(&mut memory, 0);
    let end = heap.sweep_partition(0);
    assert_eq!(end, heap.get_partition(0).dynamic_space_end());
    assert_eq!(end, HEAP_BASE + (3 + 2) * WORD_SIZE + (2 + 1 + 5) * WORD_SIZE + 3 * WORD_SIZE);
}

#[test]
fn retirement_writes_one_word_filler() {
    // Leave exactly one word in the partition tail: the word between the
    // final blob and the partition end carries the one-word filler.
    let (mut memory, mut heap) = fresh_heap();
    let remainder = 32;
    let first = heap.alloc_blob(
        &mut memory,
        PARTITION_SIZE - HEAP_BASE - 3 * WORD_SIZE - remainder,
    );
    assert_eq!(first.get_ptr(), HEAP_BASE);
    let second = heap.alloc_blob(&mut memory, 0);
    assert_eq!(second.get_ptr(), PARTITION_SIZE - remainder);
    // One word left; the next allocation does not fit and retires the
    // partition.
    let third = heap.alloc_blob(&mut memory, 0);
    assert!(heap.is_allocation_partition(1));
    assert_eq!(third.get_ptr(), PARTITION_SIZE);
    let filler = heap.get_block(PARTITION_SIZE - WORD_SIZE);
    assert_eq!(filler.tag, TAG_ONE_WORD_FILLER);
    assert_eq!(filler.block_size(), WORD_SIZE);
}

#[test]
fn retirement_writes_free_space_block() {
    // Leave a larger tail: retiring the partition writes a free-space
    // block spanning exactly the remainder.
    let (mut memory, mut heap) = fresh_heap();
    let remainder = 64;
    heap.alloc_blob(
        &mut memory,
        PARTITION_SIZE - HEAP_BASE - 3 * WORD_SIZE - remainder,
    );
    // This one does not fit into the remaining 64 bytes.
    let next = heap.alloc_blob(&mut memory, 48);
    assert!(heap.is_allocation_partition(1));
    assert_eq!(next.get_ptr(), PARTITION_SIZE);
    let free_space = heap.get_block(PARTITION_SIZE - remainder);
    assert_eq!(free_space.tag, TAG_FREE_SPACE);
    assert_eq!(free_space.block_size(), remainder);
    assert_eq!(free_space.payload[0], remainder / WORD_SIZE - 2);
}

#[test]
fn evacuation_plan_spares_allocation_partition_and_high_survival() {
    let (mut memory, mut heap) = fresh_heap();
    // Fill partition 0 with ten blobs of 3 MiB and retire it.
    let payload = 3 * 1024 * 1024;
    let mut addresses = Vec::new();
    for _ in 0..10 {
        addresses.push(heap.alloc_blob(&mut memory, payload).get_ptr());
    }
    let in_new_partition = heap.alloc_blob(&mut memory, payload).get_ptr();
    assert!(heap.is_allocation_partition(1));
    assert_eq!(in_new_partition, PARTITION_SIZE);
    // Mark every object of partition 0: the survival rate is about 94
    // percent, above the threshold, so the partition is spared.
    for address in &addresses {
        heap.set_mark(*address, true);
        heap.record_marked_space(*address);
    }
    heap.plan_evacuations();
    assert!(!heap.get_partition(0).to_be_evacuated());
    // The allocation partition is never evacuated.
    assert!(!heap.get_partition(1).to_be_evacuated());
    heap.plan_updates();
    assert!(heap.get_partition(0).to_be_updated());
    assert!(heap.get_partition(1).to_be_updated());
    assert!(!heap.get_partition(2).to_be_updated());
    heap.complete_collection();
    assert_eq!(heap.get_partition(0).marked_size(), 0);
    assert!(!heap.get_partition(0).is_free());

    // Next cycle: only one object of partition 0 stays marked. The
    // survival rate drops to about 9 percent and the partition is
    // selected for evacuation.
    for address in &addresses[1..] {
        heap.set_mark(*address, false);
    }
    heap.record_marked_space(addresses[0]);
    let dynamic_size = heap.get_partition(0).dynamic_size();
    let marked_size = heap.get_partition(0).marked_size();
    assert_eq!(marked_size, payload + 3 * WORD_SIZE);
    heap.plan_evacuations();
    assert!(heap.get_partition(0).to_be_evacuated());
    assert!(!heap.get_partition(1).to_be_evacuated());
    let reclaimed_before = heap.reclaimed_size();
    heap.complete_collection();
    // The evacuated partition is freed and the garbage amount accounted.
    assert!(heap.get_partition(0).is_free());
    assert_eq!(
        heap.reclaimed_size(),
        reclaimed_before + (dynamic_size - marked_size) as u64
    );
}

#[test]
fn survival_rate_threshold_is_exact() {
    // The threshold is the exact fraction 17/20 of the dynamic capacity:
    // a marked size exactly at the boundary is still evacuated, one word
    // above it is spared.
    assert_eq!(SURVIVAL_NUMERATOR, 17);
    assert_eq!(SURVIVAL_DENOMINATOR, 20);
    let capacity = PARTITION_SIZE - HEAP_BASE;
    let boundary = capacity / 20 * 17;
    assert_eq!(boundary * 20, capacity * 17);

    let (mut memory, mut heap) = fresh_heap();
    let at_boundary = heap.alloc_blob(&mut memory, boundary - 3 * WORD_SIZE).get_ptr();
    heap.alloc_blob(&mut memory, PARTITION_SIZE / 2); // retires partition 0
    assert!(heap.is_allocation_partition(1));
    heap.set_mark(at_boundary, true);
    heap.record_marked_space(at_boundary);
    assert_eq!(heap.get_partition(0).marked_size(), boundary);
    heap.plan_evacuations();
    assert!(heap.get_partition(0).to_be_evacuated());

    let (mut memory, mut heap) = fresh_heap();
    let above = heap.alloc_blob(&mut memory, boundary - 3 * WORD_SIZE + WORD_SIZE).get_ptr();
    heap.alloc_blob(&mut memory, PARTITION_SIZE / 2); // retires partition 0
    heap.set_mark(above, true);
    heap.record_marked_space(above);
    assert_eq!(heap.get_partition(0).marked_size(), boundary + WORD_SIZE);
    heap.plan_evacuations();
    assert!(!heap.get_partition(0).to_be_evacuated());
}

#[test]
fn large_object_placement_and_collection() {
    // A blob larger than one partition occupies a run of completely free
    // partitions; unreachable large objects have their whole run freed,
    // and the freed partitions are reused.
    let (mut memory, mut heap) = fresh_heap();
    heap.alloc_blob(&mut memory, 32 - 3 * WORD_SIZE);
    let large = heap.alloc_blob(&mut memory, PARTITION_SIZE);
    heap.alloc_blob(&mut memory, 16 - WORD_SIZE);
    // The large object starts at a partition boundary past the allocation
    // partition.
    assert_eq!(large.get_ptr(), PARTITION_SIZE);
    assert!(heap.get_partition(1).has_large_content());
    assert!(heap.get_partition(2).has_large_content());
    assert!(!heap.get_partition(1).is_free());
    assert!(!heap.get_partition(2).is_free());
    assert!(heap.get_partition(3).is_free());
    assert_eq!(heap.get_partition(1).dynamic_size(), PARTITION_SIZE);
    assert_eq!(heap.get_partition(2).dynamic_size(), 3 * WORD_SIZE);

    // While the object is marked, collection keeps it at its address.
    heap.set_mark(large.get_ptr(), true);
    heap.record_marked_space(large.get_ptr());
    assert_eq!(heap.get_partition(1).marked_size(), PARTITION_SIZE);
    heap.collect_large_objects();
    assert!(heap.get_partition(1).has_large_content());
    assert_eq!(heap.get_block(large.get_ptr()).tag, TAG_BLOB);

    // Once unmarked, the whole partition run is freed and reused; the
    // reclaimed counter grows by exactly the object's total size.
    heap.set_mark(large.get_ptr(), false);
    let reclaimed_before = heap.reclaimed_size();
    heap.collect_large_objects();
    assert!(heap.get_partition(1).is_free());
    assert!(heap.get_partition(2).is_free());
    assert!(!heap.get_partition(1).has_large_content());
    assert_eq!(
        heap.reclaimed_size(),
        reclaimed_before + (PARTITION_SIZE + 3 * WORD_SIZE) as u64
    );
    let again = heap.alloc_blob(&mut memory, PARTITION_SIZE);
    assert_eq!(again.get_ptr(), PARTITION_SIZE);
}

#[test]
fn forwarding_is_idempotent() {
    // Resolving a value twice gives the same result as resolving it once,
    // for scalars, untracked pointers and self-forwarded blocks.
    let (mut memory, mut heap) = fresh_heap();
    let blob = heap.alloc_blob(&mut memory, 8);
    let values = [
        incremental_gc::types::Value::from_scalar(7),
        incremental_gc::types::Value::null_value(),
        incremental_gc::types::Value::from_ptr(0x123456 * 8),
        blob,
    ];
    for value in values {
        let once = heap.forward_if_possible(value);
        let twice = heap.forward_if_possible(once);
        assert_eq!(once, twice);
    }
    // A forwarded block resolves to its target, and the target to itself.
    let target = heap.alloc_blob(&mut memory, 8);
    heap.set_forward(blob.get_ptr(), target);
    let once = heap.forward_if_possible(blob);
    assert_eq!(once, target);
    assert_eq!(heap.forward_if_possible(once), target);
}
