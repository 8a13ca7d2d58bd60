//! Object model of the collector: tagged values and heap blocks.
//!
//! A value is one machine word. A scalar carries its payload shifted left by
//! one, so its lowest bit is clear. A pointer is a word-aligned heap address
//! with the skew subtracted, so its lowest bit is set. Exactly one odd bit
//! pattern is reserved for the boolean true, and one distinguished skewed
//! constant is the null pointer. Pointers can therefore always be tested
//! with a single mask plus the comparison against true.
//!
//! A heap block starts with a tag word that determines its kind, followed by
//! a forwarding pointer (except for the two fillers) and the payload words.
//! The tags of arrays are transiently overwritten with
//! `TAG_ARRAY_SLICE_MIN + index` while the mark phase scans the array
//! incrementally.

use vstd::prelude::*;

use crate::constants::WORD_SIZE;

verus! {

/// The one bit pattern reserved for the boolean true.
pub const TRUE_VALUE: usize = 1;

/// The distinguished skewed null constant: the skew of address zero.
pub const NULL_VALUE: usize = usize::MAX;

/// End-of-iteration sentinel of the mark bitmap iterator.
/// `usize::MAX` is not word-aligned and thus not a valid address offset.
pub const BITMAP_ITERATION_END: usize = usize::MAX;

pub const TAG_OBJECT: usize = 1;
pub const TAG_OBJ_IND: usize = 2;
pub const TAG_ARRAY: usize = 3;
pub const TAG_BITS64: usize = 5;
pub const TAG_MUTBOX: usize = 6;
pub const TAG_SOME: usize = 8;
pub const TAG_VARIANT: usize = 9;
pub const TAG_BLOB: usize = 10;
pub const TAG_BITS32: usize = 12;
pub const TAG_BIGINT: usize = 13;
pub const TAG_CONCAT: usize = 14;
pub const TAG_REGION: usize = 16;
pub const TAG_ONE_WORD_FILLER: usize = 17;
pub const TAG_FREE_SPACE: usize = 18;

/// Smallest tag denoting an array whose scan is in progress; a tag
/// `TAG_ARRAY_SLICE_MIN + i` means "array, resume scanning at element i".
pub const TAG_ARRAY_SLICE_MIN: usize = 32;

/// A tagged value: either a scalar or a skewed pointer.
#[derive(Clone, Copy, PartialEq, Eq, Structural, Debug)]
pub struct Value {
    pub raw: usize,
}

/// The address a skewed pointer refers to: the skew of one is added back.
/// The null constant maps back to address zero.
pub open spec fn spec_unskew(raw: usize) -> int {
    if raw == usize::MAX {
        0
    } else {
        raw + 1
    }
}

impl Value {
    pub open spec fn spec_raw(self) -> int {
        self.raw as int
    }

    /// A pointer is an odd word other than the reserved true pattern.
    pub open spec fn spec_is_ptr(self) -> bool {
        self.raw % 2 == 1 && self.raw != TRUE_VALUE
    }

    /// The address of a pointer value.
    pub open spec fn spec_ptr(self) -> int {
        spec_unskew(self.raw)
    }

    pub open spec fn spec_is_null(self) -> bool {
        self.raw == NULL_VALUE
    }

    /// A scalar's numeric payload.
    pub open spec fn spec_scalar(self) -> int {
        self.raw as int / 2
    }

    pub fn from_raw(raw: usize) -> (v: Value)
        ensures
            v.spec_raw() == raw,
    {
        Value { raw }
    }

    pub fn get_raw(&self) -> (raw: usize)
        ensures
            raw == self.spec_raw(),
    {
        self.raw
    }

    /// Skew a word-aligned, non-zero address into a pointer value.
    pub fn from_ptr(address: usize) -> (v: Value)
        requires
            address as int % WORD_SIZE as int == 0,
            address > 0,
        ensures
            v.spec_is_ptr(),
            !v.spec_is_null(),
            v.spec_ptr() == address,
            v.spec_raw() == address - 1,
    {
        Value { raw: address - 1 }
    }

    /// Embed a number as a scalar value.
    pub fn from_scalar(scalar: usize) -> (v: Value)
        requires
            scalar <= usize::MAX / 2,
        ensures
            !v.spec_is_ptr(),
            v.spec_scalar() == scalar,
    {
        Value { raw: scalar * 2 }
    }

    /// The numeric payload of a scalar.
    pub fn get_scalar(&self) -> (scalar: usize)
        requires
            !self.spec_is_ptr(),
        ensures
            scalar == self.spec_scalar(),
    {
        self.raw / 2
    }

    pub fn is_ptr(&self) -> (r: bool)
        ensures
            r == self.spec_is_ptr(),
    {
        proof {
            let raw = self.raw;
            assert((raw & 1) == raw % 2) by (bit_vector);
        }
        self.raw & 1 == 1 && self.raw != TRUE_VALUE
    }

    pub fn is_null(&self) -> (r: bool)
        ensures
            r == self.spec_is_null(),
    {
        self.raw == NULL_VALUE
    }

    pub fn is_non_null_ptr(&self) -> (r: bool)
        ensures
            r == (self.spec_is_ptr() && !self.spec_is_null()),
    {
        self.is_ptr() && self.raw != NULL_VALUE
    }

    /// The address of a non-null pointer, with the skew added back.
    pub fn get_ptr(&self) -> (address: usize)
        requires
            self.spec_is_ptr(),
            !self.spec_is_null(),
        ensures
            address == self.spec_ptr(),
            address > 0,
    {
        self.raw + 1
    }

    /// Whether this value is a non-null pointer at or beyond `address`.
    pub fn points_to_or_beyond(&self, address: usize) -> (r: bool)
        ensures
            r == (self.spec_is_ptr() && !self.spec_is_null() && self.spec_ptr() >= address),
    {
        self.is_non_null_ptr() && self.get_ptr() >= address
    }

    pub fn null_value() -> (v: Value)
        ensures
            v.spec_is_null(),
            v.spec_is_ptr(),
            v.spec_raw() == NULL_VALUE,
    {
        Value { raw: NULL_VALUE }
    }

    pub fn true_value() -> (v: Value)
        ensures
            !v.spec_is_ptr(),
            v.spec_raw() == TRUE_VALUE,
    {
        Value { raw: TRUE_VALUE }
    }
}

/// A heap block in the model: the tag word, the forwarding pointer, the
/// mark state, and the payload words. Which payload words hold pointers is
/// determined by the tag.
#[derive(Debug)]
pub struct Block {
    pub tag: usize,
    pub forward: Value,
    pub marked: bool,
    pub payload: Vec<usize>,
}

/// A tag denoting an array, including one whose scan is in progress.
pub open spec fn spec_is_array_tag(tag: usize) -> bool {
    tag == TAG_ARRAY || tag >= TAG_ARRAY_SLICE_MIN
}

/// Size in words of a block with the given tag and payload, covering all
/// block kinds including the fillers.
pub open spec fn spec_size_words(tag: usize, payload: Seq<usize>) -> int {
    if tag == TAG_ONE_WORD_FILLER {
        1
    } else if tag == TAG_FREE_SPACE {
        2 + payload[0]
    } else {
        2 + payload.len() as int
    }
}

/// Structural well-formedness of a block: the payload length is consistent
/// with the kind, and the total size is positive and representable.
pub open spec fn spec_wf_block(b: Block) -> bool {
    &&& if spec_is_array_tag(b.tag) {
        &&& b.payload.len() >= 1
        &&& b.payload.len() == 1 + b.payload[0]
    } else if b.tag == TAG_OBJECT {
        &&& b.payload.len() >= 1
        &&& b.payload.len() == 1 + b.payload[0]
    } else if b.tag == TAG_BLOB || b.tag == TAG_BIGINT {
        &&& b.payload.len() >= 1
        &&& b.payload.len() == 1 + (b.payload[0] + WORD_SIZE - 1) / (WORD_SIZE as int)
    } else if b.tag == TAG_MUTBOX || b.tag == TAG_SOME || b.tag == TAG_OBJ_IND || b.tag
        == TAG_BITS64 || b.tag == TAG_BITS32 {
        b.payload.len() == 1
    } else if b.tag == TAG_VARIANT {
        b.payload.len() == 2
    } else if b.tag == TAG_CONCAT || b.tag == TAG_REGION {
        b.payload.len() == 3
    } else if b.tag == TAG_ONE_WORD_FILLER {
        b.payload.len() == 0
    } else if b.tag == TAG_FREE_SPACE {
        b.payload.len() == 1
    } else {
        false
    }
    &&& spec_size_words(b.tag, b.payload@) * WORD_SIZE <= usize::MAX
}

/// Size of the block in bytes.
pub open spec fn spec_block_size(b: Block) -> int {
    spec_size_words(b.tag, b.payload@) * WORD_SIZE
}

/// Index of the first payload word that holds a pointer, together with the
/// index one past the last: the fields the collector has to visit.
pub open spec fn spec_pointer_fields(tag: usize, payload_len: int) -> (int, int) {
    if spec_is_array_tag(tag) || tag == TAG_OBJECT {
        (1, payload_len)
    } else if tag == TAG_MUTBOX || tag == TAG_SOME || tag == TAG_OBJ_IND {
        (0, payload_len)
    } else if tag == TAG_VARIANT {
        (1, payload_len)
    } else if tag == TAG_CONCAT {
        (1, payload_len)
    } else if tag == TAG_REGION {
        (2, payload_len)
    } else {
        (0, 0)
    }
}

impl Block {
    pub open spec fn spec_size(self) -> int {
        spec_block_size(self)
    }

    /// Total bytes occupied by this block, covering all tag kinds including
    /// the fillers; required for sweep-style partition traversal.
    pub fn block_size(&self) -> (size: usize)
        requires
            spec_wf_block(*self),
        ensures
            size == self.spec_size(),
            size >= WORD_SIZE,
            size as int % WORD_SIZE as int == 0,
    {
        if self.tag == TAG_ONE_WORD_FILLER {
            WORD_SIZE
        } else if self.tag == TAG_FREE_SPACE {
            (2 + self.payload[0]) * WORD_SIZE
        } else {
            (2 + self.payload.len()) * WORD_SIZE
        }
    }

    pub fn is_marked(&self) -> (r: bool)
        ensures
            r == self.marked,
    {
        self.marked
    }

    pub fn tag(&self) -> (t: usize)
        ensures
            t == self.tag,
    {
        self.tag
    }

    /// The payload index range holding the pointer fields to be visited.
    pub fn pointer_fields(&self) -> (range: (usize, usize))
        requires
            spec_wf_block(*self),
        ensures
            (range.0 as int, range.1 as int) == spec_pointer_fields(
                self.tag,
                self.payload@.len() as int,
            ),
            range.0 <= range.1 <= self.payload@.len(),
    {
        let len: usize = self.payload.len();
        if self.tag == TAG_ARRAY || self.tag >= TAG_ARRAY_SLICE_MIN || self.tag == TAG_OBJECT {
            (1, len)
        } else if self.tag == TAG_MUTBOX || self.tag == TAG_SOME || self.tag == TAG_OBJ_IND {
            (0, len)
        } else if self.tag == TAG_VARIANT || self.tag == TAG_CONCAT {
            (1, len)
        } else if self.tag == TAG_REGION {
            (2, len)
        } else {
            (0, 0)
        }
    }
}

} // verus!
