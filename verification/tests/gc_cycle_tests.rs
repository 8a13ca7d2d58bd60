//! Whole garbage collection runs through the incremental phase engine:
//! marking from roots, evacuation with forwarding, pointer updates, the
//! write barrier snapshot and the scheduler.

use incremental_gc::constants::PARTITION_SIZE;
use incremental_gc::gc::incremental_gc;
use incremental_gc::gc::post_allocation_barrier;
use incremental_gc::gc::pre_write_barrier;
use incremental_gc::gc::schedule_incremental_gc;
use incremental_gc::gc::set_static_variables;
use incremental_gc::gc::get_static_variable;
use incremental_gc::gc::should_start;
use incremental_gc::gc::write_with_barrier;
use incremental_gc::gc::IncrementalGC;
use incremental_gc::gc::Phase;
use incremental_gc::gc::State;
use incremental_gc::memory::ModelMemory;
use incremental_gc::roots::RootSet;
use incremental_gc::types::Value;
use incremental_gc::types::TAG_ARRAY;

const HEAP_BASE: usize = 32;

fn fresh_state() -> State {
    let mut boot = ModelMemory::new();
    IncrementalGC::initial_gc_state(&mut boot, HEAP_BASE)
}

fn run_full_cycle(state: &mut State, roots: &mut RootSet) {
    incremental_gc(state, roots);
    let mut rounds = 0;
    while state.phase != Phase::Pause {
        incremental_gc(state, roots);
        rounds += 1;
        assert!(rounds < 1000);
    }
}

#[test]
fn reachable_object_survives_evacuation_with_contents() {
    // A reachable object in a high-garbage partition is moved to a new
    // address by a complete GC run; its contents are preserved and the
    // root is rewritten through the forwarding pointer.
    let mut state = fresh_state();
    let mut roots = RootSet::new(6);
    let array = state.alloc_array(1);
    write_with_barrier(&mut state, array.get_ptr(), 1, Value::from_scalar(4242));
    post_allocation_barrier(&mut state, array);
    set_static_variables(&mut state, &mut roots, 0, array);
    // A large object anchored in another root keeps its address.
    let large = state.alloc_blob(PARTITION_SIZE);
    set_static_variables(&mut state, &mut roots, 1, large);
    // Fill the rest of the partition with garbage and retire it.
    for _ in 0..10 {
        state.alloc_blob(3 * 1024 * 1024);
    }
    state.alloc_blob(3 * 1024 * 1024);
    assert!(!state.partitioned_heap.is_allocation_partition(0));
    let old_array_address = array.get_ptr();
    assert_eq!(old_array_address, HEAP_BASE);

    run_full_cycle(&mut state, &mut roots);

    // The array moved out of the evacuated partition.
    let moved = roots.get(0);
    assert!(moved.is_non_null_ptr());
    assert_ne!(moved.get_ptr(), old_array_address);
    assert!(state.partitioned_heap.get_partition(0).is_free());
    let copy = state.partitioned_heap.get_block(moved.get_ptr());
    assert_eq!(copy.tag, TAG_ARRAY);
    assert_eq!(copy.payload[0], 1);
    assert_eq!(copy.payload[1], Value::from_scalar(4242).get_raw());
    // Reading through the anchored root resolves to the same element.
    let element = get_static_variable(&state, &roots, 0, 0);
    assert_eq!(element.get_scalar(), 4242);
    // The large object keeps its heap address across the cycle.
    assert_eq!(roots.get(1).get_ptr(), large.get_ptr());
    assert!(state.partitioned_heap.has_block(large.get_ptr()));
    // The reclaimed counter accounts the freed garbage.
    assert!(state.get_reclaimed() > 30 * 1024 * 1024);
    assert!(state.get_max_live_size() > 0);
    assert!(state.get_total_allocations() > 60 * 1024 * 1024);

    // Further complete runs keep the reachable objects intact: the moved
    // array stays readable and the large object keeps its address.
    run_full_cycle(&mut state, &mut roots);
    run_full_cycle(&mut state, &mut roots);
    let element = get_static_variable(&state, &roots, 0, 0);
    assert_eq!(element.get_scalar(), 4242);
    assert_eq!(roots.get(1).get_ptr(), large.get_ptr());
}

#[test]
fn write_barrier_keeps_snapshot_reachability() {
    // Snapshot-at-the-beginning: an object reachable when marking started
    // stays alive even if the only edge to it is overwritten mid-mark.
    let mut state = fresh_state();
    let mut roots = RootSet::new(6);
    // Object A holds the only pointer to object B.
    let b = state.alloc_blob(8);
    let a = state.alloc_array(1);
    write_with_barrier(&mut state, a.get_ptr(), 1, b);
    set_static_variables(&mut state, &mut roots, 0, a);
    // A huge array stalls the mark increment before A is scanned.
    let stall = state.alloc_array(4_000_000);
    set_static_variables(&mut state, &mut roots, 1, stall);

    incremental_gc(&mut state, &mut roots);
    assert_eq!(state.phase, Phase::Mark);
    assert!(!state.partitioned_heap.get_block(b.get_ptr()).marked);

    // Overwrite the only edge to B through the write barrier: the
    // overwritten pointer is marked before it disappears.
    write_with_barrier(&mut state, a.get_ptr(), 1, Value::null_value());
    assert!(state.partitioned_heap.get_block(b.get_ptr()).marked);

    let mut rounds = 0;
    while state.phase != Phase::Pause {
        incremental_gc(&mut state, &mut roots);
        rounds += 1;
        assert!(rounds < 1000);
    }
    // B is still allocated in a non-free partition after the run.
    assert!(state.partitioned_heap.has_block(b.get_ptr()));
    let index = b.get_ptr() / PARTITION_SIZE;
    assert!(!state.partitioned_heap.get_partition(index).is_free());
}

#[test]
fn barrier_outside_mark_phase_is_inert() {
    let mut state = fresh_state();
    let blob = state.alloc_blob(8);
    assert_eq!(state.phase, Phase::Pause);
    pre_write_barrier(&mut state, blob);
    assert!(!state.partitioned_heap.get_block(blob.get_ptr()).marked);
}

#[test]
fn scheduler_starts_only_after_growth_threshold() {
    // The growth threshold is 65 percent of the heap size, and the heap
    // must span at least one partition.
    let mut state = fresh_state();
    let mut roots = RootSet::new(6);
    assert!(!should_start(&state));
    schedule_incremental_gc(&mut state, &mut roots);
    assert_eq!(state.phase, Phase::Pause);
    assert_eq!(state.get_total_allocations(), 0);
    // Grow the heap beyond one partition: all allocations since the last
    // run make the relative growth large enough.
    for _ in 0..12 {
        state.alloc_blob(3 * 1024 * 1024);
    }
    assert!(should_start(&state));
    schedule_incremental_gc(&mut state, &mut roots);
    let mut rounds = 0;
    while state.phase != Phase::Pause {
        incremental_gc(&mut state, &mut roots);
        rounds += 1;
        assert!(rounds < 1000);
    }
    // After the run, the recorded allocation level suppresses a restart.
    assert!(!should_start(&state));
}
