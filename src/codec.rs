//! Little-endian layout of block numbers inside blocks.
use vstd::prelude::*;

use vstd::bytes::{
    lemma_auto_spec_u64_to_from_le_bytes, spec_u64_from_le_bytes, spec_u64_to_le_bytes,
    u64_from_le_bytes, u64_to_le_bytes,
};

use crate::block::{Block, BLOCK_USIZE};
use crate::Size;

verus! {

/// Bytes taken by one block number.
pub const PTR_BYTES: usize = 8;

/// Block numbers that fit in one block.
pub const PTRS_PER_BLOCK: usize = 128;

/// The number stored little-endian in the eight bytes of `b` from `at`.
pub open spec fn word_at(b: Seq<u8>, at: int) -> Size {
    spec_u64_from_le_bytes(b.subrange(at, at + 8))
}

/// Entry `j` of a block of block numbers.
pub open spec fn ptr_at(b: Seq<u8>, j: int) -> Size {
    word_at(b, 8 * j)
}

/// Reads the number stored at byte `at` of `b`.
pub fn read_word(b: &Block, at: usize) -> (r: Size)
    requires
        at + 8 <= BLOCK_USIZE,
    ensures
        r == word_at(b@, at as int),
{
    let mut v: Vec<u8> = Vec::new();
    let mut k: usize = 0;
    while k < 8
        invariant
            k <= 8,
            at + 8 <= BLOCK_USIZE,
            v@ == b@.subrange(at as int, at + k),
        decreases 8 - k,
    {
        v.push(b[at + k]);
        k += 1;
        assert(v@ =~= b@.subrange(at as int, at + k));
    }
    u64_from_le_bytes(v.as_slice())
}

/// Stores `x` at byte `at` of `b`, leaving the other bytes alone.
pub fn write_word(b: &mut Block, at: usize, x: Size)
    requires
        at + 8 <= BLOCK_USIZE,
    ensures
        word_at(final(b)@, at as int) == x,
        forall|i: int|
            0 <= i < BLOCK_USIZE && !(at <= i < at + 8) ==> #[trigger] final(b)@[i] == old(b)@[i],
{
    let bytes = u64_to_le_bytes(x);
    let mut k: usize = 0;
    while k < 8
        invariant
            k <= 8,
            at + 8 <= BLOCK_USIZE,
            bytes@ == spec_u64_to_le_bytes(x),
            bytes@.len() == 8,
            forall|j: int| 0 <= j < k ==> #[trigger] b@[at + j] == bytes@[j],
            forall|i: int|
                0 <= i < BLOCK_USIZE && !(at <= i < at + 8) ==> #[trigger] b@[i] == old(b)@[i],
        decreases 8 - k,
    {
        b[at + k] = bytes[k];
        k += 1;
    }
    proof {
        lemma_auto_spec_u64_to_from_le_bytes();
        assert forall|j: int| 0 <= j < 8 implies #[trigger] b@.subrange(at as int, at + 8)[j]
            == spec_u64_to_le_bytes(x)[j] by {
            assert(b@[at + j] == bytes@[j]);
        }
        assert(b@.subrange(at as int, at + 8) =~= spec_u64_to_le_bytes(x));
    }
}

/// Writing a word leaves the words that do not overlap it alone.
pub proof fn lemma_word_untouched(old_b: Seq<u8>, new_b: Seq<u8>, at: int, other: int)
    requires
        old_b.len() == BLOCK_USIZE,
        new_b.len() == BLOCK_USIZE,
        0 <= other,
        other + 8 <= BLOCK_USIZE,
        other + 8 <= at || at + 8 <= other,
        forall|i: int|
            0 <= i < BLOCK_USIZE && !(at <= i < at + 8) ==> #[trigger] new_b[i] == old_b[i],
    ensures
        word_at(new_b, other) == word_at(old_b, other),
{
    assert(new_b.subrange(other, other + 8) =~= old_b.subrange(other, other + 8));
}

/// A block whose first `count` entries are `ptrs[from..from + count]` and
/// whose other bytes are zero.
pub fn ptr_block(ptrs: &Vec<Size>, from: usize, count: usize) -> (r: Block)
    requires
        count <= PTRS_PER_BLOCK,
        from + count <= ptrs@.len(),
    ensures
        forall|j: int| 0 <= j < count ==> #[trigger] ptr_at(r@, j) == ptrs@[from + j],
{
    let mut b: Block = [0u8; BLOCK_USIZE];
    let n = ptrs.len();
    let mut j: usize = 0;
    while j < count
        invariant
            n == ptrs@.len(),
            j <= count,
            count <= PTRS_PER_BLOCK,
            from + count <= ptrs@.len(),
            forall|i: int| 0 <= i < j ==> #[trigger] ptr_at(b@, i) == ptrs@[from + i],
        decreases count - j,
    {
        let ghost pre = b@;
        let x = ptrs[from + j];
        write_word(&mut b, PTR_BYTES * j, x);
        proof {
            assert(ptr_at(b@, j as int) == x);
            assert forall|i: int| 0 <= i < j + 1 implies #[trigger] ptr_at(b@, i) == ptrs@[from + i] by {
                if i < j {
                    assert(ptr_at(pre, i) == ptrs@[from + i]);
                    lemma_word_untouched(pre, b@, 8 * j, 8 * i);
                }
            }
        }
        j += 1;
    }
    b
}

} // verus!
