//! Value encoding, blocks, bounded time and the mark stack.

use incremental_gc::constants::WORD_SIZE;
use incremental_gc::mark_stack::MarkStack;
use incremental_gc::mark_stack::STACK_TABLE_CAPACITY;
use incremental_gc::time::BoundedTime;
use incremental_gc::types::Block;
use incremental_gc::types::Value;
use incremental_gc::types::NULL_VALUE;
use incremental_gc::types::TAG_BLOB;
use incremental_gc::types::TAG_FREE_SPACE;
use incremental_gc::types::TAG_ONE_WORD_FILLER;
use incremental_gc::types::TRUE_VALUE;

#[test]
fn scalar_values_round_trip() {
    let v = Value::from_scalar(12345);
    assert!(!v.is_ptr());
    assert_eq!(v.get_scalar(), 12345);
    let zero = Value::from_scalar(0);
    assert!(!zero.is_ptr());
    assert_eq!(zero.get_scalar(), 0);
}

#[test]
fn pointer_values_are_skewed() {
    // A pointer is the word-aligned address with the skew subtracted; the
    // low bit is set, so a single mask distinguishes pointers.
    let v = Value::from_ptr(0x1000);
    assert!(v.is_ptr());
    assert!(!v.is_null());
    assert_eq!(v.get_raw(), 0x1000 - 1);
    assert_eq!(v.get_ptr(), 0x1000);
    assert_eq!(v.get_raw() & 1, 1);
}

#[test]
fn reserved_values() {
    let t = Value::true_value();
    assert_eq!(t.get_raw(), TRUE_VALUE);
    assert!(!t.is_ptr());
    let null = Value::null_value();
    assert_eq!(null.get_raw(), NULL_VALUE);
    assert!(null.is_ptr());
    assert!(null.is_null());
    assert!(!null.is_non_null_ptr());
}

#[test]
fn block_sizes_cover_all_kinds() {
    // Block sizes cover all tag kinds including the fillers.
    let blob = Block {
        tag: TAG_BLOB,
        forward: Value::null_value(),
        marked: false,
        payload: vec![12, 0, 0],
    };
    // Header of three words plus two payload words.
    assert_eq!(blob.block_size(), 5 * WORD_SIZE);
    let filler = Block {
        tag: TAG_ONE_WORD_FILLER,
        forward: Value::null_value(),
        marked: false,
        payload: vec![],
    };
    assert_eq!(filler.block_size(), WORD_SIZE);
    let free_space = Block {
        tag: TAG_FREE_SPACE,
        forward: Value::null_value(),
        marked: false,
        payload: vec![6],
    };
    assert_eq!(free_space.block_size(), 8 * WORD_SIZE);
}

#[test]
fn bounded_time_ticks_and_advances() {
    let mut time = BoundedTime::new(5);
    assert!(!time.is_over());
    time.tick();
    time.tick();
    assert!(!time.is_over());
    time.advance(3);
    assert!(!time.is_over());
    time.tick();
    assert!(time.is_over());
}

#[test]
fn mark_stack_is_last_in_first_out() {
    let mut stack = MarkStack::new();
    assert!(!stack.is_allocated());
    stack.allocate();
    assert!(stack.is_allocated());
    assert!(stack.is_empty());
    stack.push(Value::from_ptr(0x100));
    stack.push(Value::from_ptr(0x200));
    stack.push(Value::from_ptr(0x300));
    assert!(!stack.is_empty());
    assert_eq!(stack.pop().get_ptr(), 0x300);
    assert_eq!(stack.pop().get_ptr(), 0x200);
    stack.push(Value::from_ptr(0x400));
    assert_eq!(stack.pop().get_ptr(), 0x400);
    assert_eq!(stack.pop().get_ptr(), 0x100);
    assert!(stack.is_empty());
    // Popping an empty stack yields the null value.
    assert!(stack.pop().is_null());
    stack.free();
    assert!(!stack.is_allocated());
}

#[test]
fn mark_stack_grows_into_new_tables() {
    // Push beyond one table capacity: the stack extends into a new table
    // and never shrinks; popping back reuses the retained table.
    let mut stack = MarkStack::new();
    stack.allocate();
    let count = STACK_TABLE_CAPACITY + 3;
    for i in 0..count {
        stack.push(Value::from_ptr((i + 1) * 8));
    }
    for i in (0..count).rev() {
        assert_eq!(stack.pop().get_ptr(), (i + 1) * 8);
    }
    assert!(stack.is_empty());
    // Regrow across the table boundary after shrinking.
    for i in 0..count {
        stack.push(Value::from_ptr((i + 1) * 16));
    }
    for i in (0..count).rev() {
        assert_eq!(stack.pop().get_ptr(), (i + 1) * 16);
    }
    stack.free();
}
