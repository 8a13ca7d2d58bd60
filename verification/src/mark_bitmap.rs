//! Mark bitmap of the incremental GC.
//!
//! A mark bitmap is associated with each non-free partition that does not
//! host large objects, for the duration of one GC run. It holds one bit per
//! word of the partition: bit `i` is set exactly when a marked object starts
//! at byte offset `i * WORD_SIZE` inside the partition. The bitmap is bound
//! to zeroed memory at mark phase start and released at the end of the run.
//!
//! Iteration reads the bitmap in 64-bit chunks: `trailing_zeros` locates the
//! next set bit inside a chunk, and `leading_zeros`, computed once per
//! chunk, lets the iterator skip the empty tail of a chunk in one step.
//! The iterator yields the marked offsets in strictly increasing order and
//! ends with the sentinel [`BITMAP_ITERATION_END`].

use vstd::prelude::*;

use vstd::std_specs::bits::axiom_u64_leading_zeros;
use vstd::std_specs::bits::axiom_u64_trailing_zeros;
use vstd::std_specs::bits::u64_leading_zeros;

use crate::constants::PARTITION_SIZE;
use crate::constants::WORD_SIZE;
use crate::types::BITMAP_ITERATION_END;

verus! {

/// Number of mark bits per partition: one per word.
pub const BITMAP_BITS: usize = PARTITION_SIZE / WORD_SIZE;

/// Number of 64-bit chunks holding the mark bits of one partition.
pub const BITMAP_CHUNKS: usize = PARTITION_SIZE / WORD_SIZE / 64;

/// Size of the bitmap memory in bytes.
pub const BITMAP_SIZE: usize = PARTITION_SIZE / WORD_SIZE / 8;

/// Bit `k` of the 64-bit chunk `w`.
pub open spec fn u64_bit(w: u64, k: int) -> bool {
    0 <= k < 64 && (w >> (k as u64)) & 1u64 == 1u64
}

/// The remainder of a chunk window after discarding the bits up to and
/// including position `shift`, computed without an overflowing shift.
pub open spec fn spec_shifted_out(word: u64, shift: u64) -> u64 {
    if shift >= 63 {
        0u64
    } else {
        word >> ((shift + 1) as u64)
    }
}

/// Partition-associated mark bitmap. It is either unassigned (outside a GC
/// run) or bound to a zeroed chunk vector covering the whole partition.
pub struct MarkBitmap {
    chunks: Vec<u64>,
}

impl MarkBitmap {
    /// The bitmap is bound to memory.
    pub closed spec fn spec_assigned(self) -> bool {
        self.chunks@.len() == BITMAP_CHUNKS
    }

    /// The mark bit for word index `bit` of the partition.
    pub closed spec fn spec_bit(self, bit: int) -> bool {
        &&& 0 <= bit < BITMAP_BITS
        &&& self.spec_assigned()
        &&& u64_bit(self.chunks@[bit / 64], bit % 64)
    }

    /// The 64-bit chunks of the bitmap memory.
    pub closed spec fn spec_chunks(self) -> Seq<u64> {
        self.chunks@
    }

    /// Create a new bitmap that is not yet bound to memory.
    pub fn new() -> (bitmap: MarkBitmap)
        ensures
            !bitmap.spec_assigned(),
    {
        MarkBitmap { chunks: Vec::new() }
    }

    /// Bind the bitmap to zeroed memory covering the partition.
    pub fn assign(&mut self)
        requires
            !old(self).spec_assigned(),
        ensures
            final(self).spec_assigned(),
            forall|bit: int| !final(self).spec_bit(bit),
    {
        let mut chunks: Vec<u64> = Vec::new();
        loop
            invariant
                chunks@.len() <= BITMAP_CHUNKS,
                forall|i: int| 0 <= i < chunks@.len() ==> chunks@[i] == 0u64,
            ensures
                chunks@.len() == BITMAP_CHUNKS,
                forall|i: int| 0 <= i < chunks@.len() ==> chunks@[i] == 0u64,
            decreases BITMAP_CHUNKS - chunks@.len(),
        {
            if chunks.len() == BITMAP_CHUNKS {
                break ;
            }
            chunks.push(0u64);
        }
        self.chunks = chunks;
        proof {
            assert forall|bit: int| !self.spec_bit(bit) by {
                if 0 <= bit < BITMAP_BITS {
                    lemma_zero_chunk_has_no_bits();
                }
            }
        }
    }

    /// Whether the bitmap is bound to memory.
    pub fn is_assigned(&self) -> (assigned: bool)
        ensures
            assigned == self.spec_assigned(),
    {
        self.chunks.len() == BITMAP_CHUNKS
    }

    /// Release the bitmap memory after the garbage collection run.
    pub fn release(&mut self)
        ensures
            !final(self).spec_assigned(),
    {
        self.chunks = Vec::new();
    }

    /// The bit index corresponding to a word-aligned partition offset.
    pub open spec fn spec_bit_of_offset(offset: int) -> int {
        offset / (WORD_SIZE as int)
    }

    /// Whether the object at the word-aligned offset in the partition is
    /// marked.
    pub fn is_marked(&self, offset_in_partition: usize) -> (marked: bool)
        requires
            self.spec_assigned(),
            offset_in_partition as int % WORD_SIZE as int == 0,
            offset_in_partition < PARTITION_SIZE,
        ensures
            marked == self.spec_bit(Self::spec_bit_of_offset(offset_in_partition as int)),
    {
        let bit: usize = offset_in_partition / WORD_SIZE;
        let chunk: u64 = self.chunks[bit / 64];
        let shift: u64 = (bit % 64) as u64;
        (chunk >> shift) & 1u64 == 1u64
    }

    /// Mark the object at the word-aligned offset in the partition.
    /// All other mark bits are unchanged.
    pub fn mark(&mut self, offset_in_partition: usize)
        requires
            old(self).spec_assigned(),
            offset_in_partition as int % WORD_SIZE as int == 0,
            offset_in_partition < PARTITION_SIZE,
        ensures
            final(self).spec_assigned(),
            final(self).spec_bit(Self::spec_bit_of_offset(offset_in_partition as int)),
            forall|b: int|
                b != Self::spec_bit_of_offset(offset_in_partition as int) ==> final(self).spec_bit(
                    b,
                ) == old(self).spec_bit(b),
    {
        let bit: usize = offset_in_partition / WORD_SIZE;
        let index: usize = bit / 64;
        let shift: u64 = (bit % 64) as u64;
        let chunk: u64 = self.chunks[index];
        let updated: u64 = chunk | (1u64 << shift);
        self.chunks.set(index, updated);
        proof {
            lemma_set_bit(chunk, shift);
            assert forall|b: int|
                b != (bit as int) implies final(self).spec_bit(b) == old(self).spec_bit(b) by {
                if 0 <= b < BITMAP_BITS && b != bit as int {
                    if b / 64 == bit as int / 64 {
                        assert(b % 64 != bit as int % 64) by (nonlinear_arith)
                            requires
                                b != bit as int,
                                b / 64 == bit as int / 64,
                        ;
                    }
                }
            }
        }
    }

    /// Obtain a fresh iterator over the marked offsets.
    pub fn iterate(&self) -> (iterator: BitmapIterator<'_>)
        requires
            self.spec_assigned(),
        ensures
            iterator.wf(),
            iterator.spec_bitmap() == *self,
            iterator.spec_current_bit() == first_marked_from(*self, 0),
    {
        let chunk: u64 = self.chunks[0];
        let leading: u64 = chunk.leading_zeros() as u64;
        let mut iterator = BitmapIterator {
            bitmap: self,
            next_bit_index: 0,
            current_word: chunk,
            leading_zeros: leading,
        };
        proof {
            axiom_u64_leading_zeros(chunk);
        }
        iterator.advance(Ghost(0), Ghost(0));
        iterator
    }
}

/// The smallest marked word index at or after `from`, or `BITMAP_BITS` if no
/// marked bit remains.
pub open spec fn first_marked_from(bitmap: MarkBitmap, from: int) -> int
    decreases BITMAP_BITS - from when from <= BITMAP_BITS
{
    if from >= BITMAP_BITS {
        BITMAP_BITS as int
    } else if bitmap.spec_bit(from) {
        from
    } else {
        first_marked_from(bitmap, from + 1)
    }
}

/// The next marked bit is the least one: it is at or after the search start,
/// it is marked unless the search is exhausted, and no bit in between is
/// marked. This makes the bitmap iteration complete: starting from zero and
/// then from one past each yielded bit, the iterator yields exactly the
/// sorted sequence of marked word offsets, then the end sentinel.
pub proof fn lemma_first_marked_properties(bitmap: MarkBitmap, from: int)
    requires
        0 <= from <= BITMAP_BITS,
    ensures
        from <= first_marked_from(bitmap, from) <= BITMAP_BITS,
        first_marked_from(bitmap, from) < BITMAP_BITS ==> bitmap.spec_bit(
            first_marked_from(bitmap, from),
        ),
        forall|k: int|
            from <= k < first_marked_from(bitmap, from) ==> !bitmap.spec_bit(k),
    decreases BITMAP_BITS - from,
{
    if from < BITMAP_BITS && !bitmap.spec_bit(from) {
        lemma_first_marked_properties(bitmap, from + 1);
    }
}

/// Searching from a stretch of unmarked bits gives the same result as
/// searching from its end.
pub proof fn lemma_first_marked_skip(bitmap: MarkBitmap, from: int, to: int)
    requires
        0 <= from <= to <= BITMAP_BITS,
        forall|k: int| from <= k < to ==> !bitmap.spec_bit(k),
    ensures
        first_marked_from(bitmap, from) == first_marked_from(bitmap, to),
    decreases to - from,
{
    if from < to {
        lemma_first_marked_skip(bitmap, from + 1, to);
    }
}

/// A marked bit preceded only by unmarked bits is the search result.
pub proof fn lemma_first_marked_hit(bitmap: MarkBitmap, from: int, hit: int)
    requires
        0 <= from <= hit < BITMAP_BITS,
        forall|k: int| from <= k < hit ==> !bitmap.spec_bit(k),
        bitmap.spec_bit(hit),
    ensures
        first_marked_from(bitmap, from) == hit,
{
    lemma_first_marked_skip(bitmap, from, hit);
}

/// Relation of an iterator chunk window to the bitmap chunk it was loaded
/// from: the window holds the bits of the chunk from position `start` on,
/// shifted down to position zero, `leading` is the number of leading zeros
/// of the whole chunk, and an empty window implies that the window start
/// plus the leading zeros lands exactly on the chunk end.
pub open spec fn chunk_window(chunk: u64, start: int, word: u64, leading: int) -> bool {
    &&& 0 <= start <= 64
    &&& forall|k: int|
        0 <= k < 64 ==> u64_bit(word, k) == (start + k < 64 && u64_bit(chunk, start + k))
    &&& leading == u64_leading_zeros(chunk)
    &&& (word == 0 ==> start + leading == 64)
}

/// Iterator over the marked offsets of one partition bitmap.
pub struct BitmapIterator<'a> {
    bitmap: &'a MarkBitmap,
    /// One past the bit of the current marked offset, or the end sentinel.
    next_bit_index: usize,
    /// Remaining bits of the current 64-bit chunk, shifted down.
    current_word: u64,
    /// Leading zeros of the current chunk, to skip its empty tail quickly.
    leading_zeros: u64,
}

impl<'a> BitmapIterator<'a> {
    /// The bitmap being iterated.
    pub closed spec fn spec_bitmap(self) -> MarkBitmap {
        *self.bitmap
    }

    /// The bit index of the current marked offset, or `BITMAP_BITS` when the
    /// iteration has ended.
    pub closed spec fn spec_current_bit(self) -> int {
        if self.next_bit_index == BITMAP_ITERATION_END {
            BITMAP_BITS as int
        } else {
            self.next_bit_index - 1
        }
    }

    /// Internal consistency between two yields: either the iteration has
    /// ended, or the predecessor of `next_bit_index` is a marked bit and the
    /// chunk window matches the loaded chunk.
    pub closed spec fn wf(self) -> bool {
        &&& self.bitmap.spec_assigned()
        &&& if self.next_bit_index == BITMAP_ITERATION_END {
            true
        } else {
            let bit = self.next_bit_index - 1;
            let chunk_index = bit / 64;
            &&& 1 <= self.next_bit_index <= BITMAP_BITS
            &&& self.bitmap.spec_bit(bit)
            &&& chunk_window(
                self.bitmap.spec_chunks()[chunk_index],
                self.next_bit_index - 64 * chunk_index,
                self.current_word,
                self.leading_zeros as int,
            )
        }
    }

    /// Whether the iteration has ended.
    pub open spec fn spec_at_end(self) -> bool {
        self.spec_current_bit() == BITMAP_BITS
    }

    /// The byte offset in the partition of the currently visited marked
    /// object, or `BITMAP_ITERATION_END` after the last one.
    pub fn current_marked_offset(&self) -> (offset: usize)
        requires
            self.wf(),
        ensures
            !self.spec_at_end() ==> offset == self.spec_current_bit() * WORD_SIZE,
            self.spec_at_end() ==> offset == BITMAP_ITERATION_END,
            !self.spec_at_end() ==> offset < PARTITION_SIZE && offset as int % WORD_SIZE as int
                == 0,
    {
        if self.next_bit_index == BITMAP_ITERATION_END {
            BITMAP_ITERATION_END
        } else {
            (self.next_bit_index - 1) * WORD_SIZE
        }
    }

    /// Advance to the next marked offset: the least marked bit after the
    /// current one, or the end of the iteration if none remains.
    pub fn next(&mut self)
        requires
            old(self).wf(),
            !old(self).spec_at_end(),
        ensures
            final(self).wf(),
            final(self).spec_bitmap() == old(self).spec_bitmap(),
            final(self).spec_current_bit() == first_marked_from(
                old(self).spec_bitmap(),
                old(self).spec_current_bit() + 1,
            ),
    {
        let ghost chunk_index = (self.next_bit_index - 1) as int / 64;
        let ghost start = self.next_bit_index - 64 * chunk_index;
        self.advance(Ghost(chunk_index), Ghost(start));
    }

    /// Search for the next set bit from `next_bit_index` on, where the ghost
    /// pair `(chunk, start)` locates the current chunk window.
    fn advance(&mut self, Ghost(chunk_index0): Ghost<int>, Ghost(start0): Ghost<int>)
        requires
            old(self).bitmap.spec_assigned(),
            old(self).next_bit_index <= BITMAP_BITS,
            0 <= chunk_index0 < BITMAP_CHUNKS,
            old(self).next_bit_index == 64 * chunk_index0 + start0,
            chunk_window(
                old(self).bitmap.spec_chunks()[chunk_index0],
                start0,
                old(self).current_word,
                old(self).leading_zeros as int,
            ),
        ensures
            final(self).wf(),
            final(self).spec_bitmap() == old(self).spec_bitmap(),
            final(self).spec_current_bit() == first_marked_from(
                *old(self).bitmap,
                old(self).next_bit_index as int,
            ),
    {
        let ghost cursor0 = self.next_bit_index as int;
        let ghost mut chunk_index = chunk_index0;
        let ghost mut start = start0;
        loop
            invariant
                self.bitmap.spec_assigned(),
                self.bitmap == old(self).bitmap,
                self.next_bit_index <= BITMAP_BITS,
                0 <= chunk_index < BITMAP_CHUNKS,
                self.next_bit_index == 64 * chunk_index + start,
                chunk_window(
                    self.bitmap.spec_chunks()[chunk_index],
                    start,
                    self.current_word,
                    self.leading_zeros as int,
                ),
                first_marked_from(*self.bitmap, cursor0) == first_marked_from(
                    *self.bitmap,
                    self.next_bit_index as int,
                ),
                cursor0 == old(self).next_bit_index,
            decreases 2 * (BITMAP_BITS - self.next_bit_index) + (if self.current_word != 0 {
                0int
            } else {
                64 - self.leading_zeros
            }),
        {
            let ghost chunk = self.bitmap.spec_chunks()[chunk_index];
            if self.current_word != 0 {
                let word: u64 = self.current_word;
                let shift: u64 = word.trailing_zeros() as u64;
                proof {
                    axiom_u64_trailing_zeros(word);
                    assert(u64_bit(word, shift as int));
                    assert(start + shift < 64 && u64_bit(chunk, start + shift));
                    assert(self.bitmap.spec_bit(self.next_bit_index as int + shift));
                    assert forall|k: int|
                        self.next_bit_index as int <= k < self.next_bit_index as int + shift
                            implies !self.bitmap.spec_bit(k) by {
                        let j = k - self.next_bit_index as int;
                        assert(0 <= j < shift);
                        assert((word >> (j as u64)) & 1u64 == 0u64);
                        assert(!u64_bit(word, j));
                    }
                    lemma_first_marked_hit(
                        *self.bitmap,
                        self.next_bit_index as int,
                        self.next_bit_index as int + shift,
                    );
                }
                // Two steps to avoid an overflowing shift when `shift == 63`.
                let remaining: u64 = if shift == 63 {
                    0
                } else {
                    word >> (shift + 1)
                };
                proof {
                    lemma_shr_bits(word, shift);
                    if remaining == 0 {
                        lemma_empty_window_end(chunk, start, word, shift, self.leading_zeros);
                    }
                }
                self.current_word = remaining;
                self.next_bit_index = self.next_bit_index + (shift as usize) + 1;
                proof {
                    let ghost start_old = start;
                    start = start + shift as int + 1;
                    assert(remaining == spec_shifted_out(word, shift));
                    assert forall|k: int|
                        0 <= k < 64 implies u64_bit(self.current_word, k) == (start + k < 64
                        && u64_bit(chunk, start + k)) by {
                        assert(u64_bit(spec_shifted_out(word, shift), k) == (shift + 1 + k < 64
                            && u64_bit(word, shift + 1 + k)));
                        if shift + 1 + k < 64 {
                            assert(u64_bit(word, shift + 1 + k) == (start_old + (shift + 1 + k)
                                < 64 && u64_bit(chunk, start_old + (shift + 1 + k))));
                        }
                    }
                    assert(chunk_window(
                        chunk,
                        start,
                        self.current_word,
                        self.leading_zeros as int,
                    ));
                    assert((self.next_bit_index - 1) as int / 64 == chunk_index)
                        by (nonlinear_arith)
                        requires
                            self.next_bit_index - 1 == 64 * chunk_index + (start - 1),
                            0 <= start - 1 < 64,
                    ;
                    assert(self.next_bit_index - 64 * chunk_index == start);
                    assert(self.spec_current_bit() == first_marked_from(*self.bitmap, cursor0));
                }
                return ;
            }
            // The rest of the chunk is empty: skip to the chunk end.
            proof {
                assert forall|k: int|
                    self.next_bit_index as int <= k < 64 * (chunk_index + 1) implies !self
                    .bitmap.spec_bit(k) by {
                    let j = k - self.next_bit_index as int;
                    assert(0 <= j < 64);
                    assert(!u64_bit(self.current_word, j)) by {
                        let ju = j as u64;
                        assert((0u64 >> ju) & 1u64 == 0u64) by (bit_vector);
                    }
                }
                lemma_first_marked_skip(
                    *self.bitmap,
                    self.next_bit_index as int,
                    64 * (chunk_index + 1),
                );
            }
            self.next_bit_index = self.next_bit_index + (self.leading_zeros as usize);
            proof {
                chunk_index = chunk_index + 1;
                start = 0;
                assert(self.next_bit_index == 64 * chunk_index);
                assert(64 * chunk_index <= 64 * BITMAP_CHUNKS) by (nonlinear_arith)
                    requires
                        chunk_index <= BITMAP_CHUNKS,
                ;
            }
            if self.next_bit_index >= BITMAP_BITS {
                proof {
                    assert(self.next_bit_index == BITMAP_BITS);
                    assert(first_marked_from(*self.bitmap, BITMAP_BITS as int)
                        == BITMAP_BITS as int);
                }
                self.next_bit_index = BITMAP_ITERATION_END;
                return ;
            }
            let loaded: u64 = self.bitmap.chunks[self.next_bit_index / 64];
            proof {
                assert(self.next_bit_index as int / 64 == chunk_index) by (nonlinear_arith)
                    requires
                        self.next_bit_index == 64 * chunk_index,
                ;
                axiom_u64_leading_zeros(loaded);
            }
            self.current_word = loaded;
            self.leading_zeros = loaded.leading_zeros() as u64;
        }
    }
}

/// Chunk zero has no bits set.
proof fn lemma_zero_chunk_has_no_bits()
    ensures
        forall|k: int| !u64_bit(0u64, k),
{
    assert forall|k: int| !u64_bit(0u64, k) by {
        if 0 <= k < 64 {
            let ku = k as u64;
            assert((0u64 >> ku) & 1u64 == 0u64) by (bit_vector);
        }
    }
}

/// Setting bit `i` sets exactly bit `i`.
proof fn lemma_set_bit(w: u64, i: u64)
    requires
        i < 64,
    ensures
        forall|j: int|
            0 <= j < 64 ==> #[trigger] u64_bit(w | (1u64 << i), j) == (j == i || u64_bit(w, j)),
{
    assert forall|j: int|
        0 <= j < 64 implies #[trigger] u64_bit(w | (1u64 << i), j) == (j == i || u64_bit(w, j)) by {
        let ju = j as u64;
        assert(((w | (1u64 << i)) >> ju) & 1u64 == (if ju == i {
            1u64
        } else {
            (w >> ju) & 1u64
        })) by (bit_vector)
            requires
                i < 64,
                ju < 64,
        ;
    }
}

/// The bits of `word >> (shift + 1)` are the bits of `word` above `shift`.
proof fn lemma_shr_bits(word: u64, shift: u64)
    requires
        shift < 64,
    ensures
        forall|k: int|
            0 <= k < 64 ==> #[trigger] u64_bit(spec_shifted_out(word, shift), k) == (shift + 1 + k
                < 64 && u64_bit(word, shift + 1 + k)),
{
    let remaining = spec_shifted_out(word, shift);
    assert forall|k: int|
        0 <= k < 64 implies #[trigger] u64_bit(remaining, k) == (shift + 1 + k < 64 && u64_bit(
        word,
        shift + 1 + k,
    )) by {
        let ku = k as u64;
        if shift == 63 {
            assert((0u64 >> ku) & 1u64 == 0u64) by (bit_vector);
        } else {
            let su = (shift + 1) as u64;
            if shift + 1 + k < 64 {
                let tu = (shift + 1 + k) as u64;
                assert(((word >> su) >> ku) & 1u64 == (word >> tu) & 1u64) by (bit_vector)
                    requires
                        su < 64,
                        ku < 64,
                        tu == su + ku,
                ;
            } else {
                assert(((word >> su) >> ku) & 1u64 == 0u64) by (bit_vector)
                    requires
                        0 < su < 64,
                        ku < 64,
                        su + ku >= 64,
                ;
            }
        }
    }
}

/// When the remaining window becomes empty right after yielding the bit at
/// window position `shift`, that bit is the highest one of the chunk, so the
/// new window start plus the chunk's leading zeros is exactly the chunk end.
proof fn lemma_empty_window_end(chunk: u64, start: int, word: u64, shift: u64, leading: u64)
    requires
        chunk_window(chunk, start, word, leading as int),
        shift < 64,
        u64_bit(word, shift as int),
        spec_shifted_out(word, shift) == 0u64,
    ensures
        start + shift + 1 + leading == 64,
{
    axiom_u64_leading_zeros(chunk);
    let top = start + shift;
    assert(u64_bit(chunk, top));
    let topu = top as u64;
    assert(chunk != 0u64) by {
        if chunk == 0u64 {
            assert((0u64 >> topu) & 1u64 == 0u64) by (bit_vector);
        }
    }
    lemma_shr_bits(word, shift);
    assert forall|m: int| top < m < 64 implies !u64_bit(chunk, m) by {
        let k = m - start - shift - 1;
        if 0 <= k < 64 {
            assert(!u64_bit(0u64, k)) by {
                let ku = k as u64;
                assert((0u64 >> ku) & 1u64 == 0u64) by (bit_vector);
            }
            assert(u64_bit(word, shift + 1 + k) == u64_bit(chunk, m) || shift + 1 + k >= 64);
            if shift + 1 + k < 64 {
                assert(!u64_bit(word, shift + 1 + k));
            } else {
                assert(start + (shift + 1 + k) >= 64);
            }
        }
    }
    let lz = u64_leading_zeros(chunk);
    assert(0 <= lz < 64);
    let hi = (63 - lz) as u64;
    assert(u64_bit(chunk, 63 - lz)) by {
        assert((chunk >> hi) & 1u64 != 0u64 ==> (chunk >> hi) & 1u64 == 1u64) by (bit_vector);
    }
    if 63 - lz > top {
        assert(!u64_bit(chunk, 63 - lz));
        assert(false);
    }
    if 63 - lz < top {
        assert(64 - lz <= top < 64);
        assert((chunk >> (top as u64)) & 1u64 == 0u64);
        assert(false);
    }
}

} // verus!
