//! Mark bitmap: marking, querying and complete iteration.

use incremental_gc::constants::PARTITION_SIZE;
use incremental_gc::constants::WORD_SIZE;
use incremental_gc::mark_bitmap::MarkBitmap;
use incremental_gc::mark_bitmap::BITMAP_BITS;
use incremental_gc::mark_bitmap::BITMAP_SIZE;
use incremental_gc::types::BITMAP_ITERATION_END;

#[test]
fn bitmap_round_trip() {
    // In a partition of size 32 MiB with word size 8, marking offsets
    // {0, 264} and iterating yields [0, 264], then the end sentinel.
    assert_eq!(PARTITION_SIZE, 32 * 1024 * 1024);
    assert_eq!(WORD_SIZE, 8);
    let mut bitmap = MarkBitmap::new();
    bitmap.assign();
    assert!(!bitmap.is_marked(0));
    assert!(!bitmap.is_marked(264));
    bitmap.mark(264);
    bitmap.mark(0);
    assert!(bitmap.is_marked(0));
    assert!(bitmap.is_marked(264));
    assert!(!bitmap.is_marked(8));
    assert!(!bitmap.is_marked(256));
    assert!(!bitmap.is_marked(272));
    let mut iterator = bitmap.iterate();
    assert_eq!(iterator.current_marked_offset(), 0);
    iterator.next();
    assert_eq!(iterator.current_marked_offset(), 264);
    iterator.next();
    assert_eq!(iterator.current_marked_offset(), BITMAP_ITERATION_END);
    bitmap.release();
}

#[test]
fn bitmap_last_offset() {
    // Marking the very last word offset iterates to it and then ends.
    let last_offset = PARTITION_SIZE - WORD_SIZE;
    let mut bitmap = MarkBitmap::new();
    bitmap.assign();
    bitmap.mark(last_offset);
    let mut iterator = bitmap.iterate();
    assert_eq!(iterator.current_marked_offset(), last_offset);
    iterator.next();
    assert_eq!(iterator.current_marked_offset(), BITMAP_ITERATION_END);
    bitmap.release();
}

#[test]
fn bitmap_empty_iteration() {
    let mut bitmap = MarkBitmap::new();
    bitmap.assign();
    let iterator = bitmap.iterate();
    assert_eq!(iterator.current_marked_offset(), BITMAP_ITERATION_END);
    bitmap.release();
}

#[test]
fn bitmap_iterates_sorted_set() {
    // The iterator yields exactly the sorted sequence of marked offsets.
    let offsets = [
        8 * 63,
        8 * 64,
        8 * 1,
        8 * 1000,
        8 * 999,
        8 * 64 * 1024,
        PARTITION_SIZE - WORD_SIZE,
        8 * 127,
        0,
    ];
    let mut bitmap = MarkBitmap::new();
    bitmap.assign();
    for offset in offsets {
        bitmap.mark(offset);
    }
    let mut sorted = offsets.to_vec();
    sorted.sort();
    let mut yielded = Vec::new();
    let mut iterator = bitmap.iterate();
    while iterator.current_marked_offset() != BITMAP_ITERATION_END {
        yielded.push(iterator.current_marked_offset());
        iterator.next();
    }
    assert_eq!(yielded, sorted);
    bitmap.release();
}

#[test]
fn bitmap_sizes() {
    assert_eq!(BITMAP_BITS, PARTITION_SIZE / WORD_SIZE);
    assert_eq!(BITMAP_SIZE, PARTITION_SIZE / WORD_SIZE / 8);
    assert_eq!(BITMAP_SIZE % 8, 0);
}
