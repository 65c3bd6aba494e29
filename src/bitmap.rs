//! A dense, fixed-size vector of bits.
use vstd::prelude::*;

use crate::Size;

verus! {

type Elem = u32;

const ELEM_BITS: Size = 32;

/// Whether bit `k` of the word `e` is set.
pub open spec fn word_bit(e: u32, k: u32) -> bool {
    (e >> k) & 1u32 == 1u32
}

proof fn lemma_word_mark(e: u32, k: u32)
    requires
        k < 32,
    ensures
        forall|j: u32| j < 32 ==> #[trigger] word_bit(e | (1u32 << k), j) == (j == k || word_bit(e, j)),
{
    assert forall|j: u32| j < 32 implies #[trigger] word_bit(e | (1u32 << k), j) == (j == k || word_bit(e, j)) by {
        assert((((e | (1u32 << k)) >> j) & 1u32 == 1u32) == (j == k || ((e >> j) & 1u32 == 1u32)))
            by (bit_vector)
            requires j < 32, k < 32;
    }
}

proof fn lemma_word_reset(e: u32, k: u32)
    requires
        k < 32,
    ensures
        forall|j: u32| j < 32 ==> #[trigger] word_bit(e & !(1u32 << k), j) == (j != k && word_bit(e, j)),
{
    assert forall|j: u32| j < 32 implies #[trigger] word_bit(e & !(1u32 << k), j) == (j != k && word_bit(e, j)) by {
        assert((((e & !(1u32 << k)) >> j) & 1u32 == 1u32) == (j != k && ((e >> j) & 1u32 == 1u32)))
            by (bit_vector)
            requires j < 32, k < 32;
    }
}

proof fn lemma_word_zero()
    ensures
        forall|j: u32| j < 32 ==> !#[trigger] word_bit(0u32, j),
{
    assert forall|j: u32| j < 32 implies !#[trigger] word_bit(0u32, j) by {
        assert(((0u32 >> j) & 1u32) == 0u32) by (bit_vector);
    }
}

/// A fixed number of bits, packed 32 to a word.
pub struct Bitmap {
    count: Size,
    elems: Vec<Elem>,
}

/// Number of words needed to hold `count` bits.
fn byte_count(count: Size) -> (r: usize)
    requires
        (count as int + 31) / 32 <= usize::MAX,
    ensures
        r as int == (count as int + 31) / 32,
{
    ((count / ELEM_BITS) + if count % ELEM_BITS == 0 { 0 } else { 1 }) as usize
}

/// Index of the word that holds `bit`.
fn byte_index(bit: Size) -> (r: usize)
    requires
        bit as int / 32 <= usize::MAX,
    ensures
        r as int == bit as int / 32,
{
    (bit / ELEM_BITS) as usize
}

/// Mask that selects `bit` within its word.
fn elem_mask(bit: Size) -> (r: Elem)
    ensures
        r == 1u32 << ((bit % 32) as u32),
{
    1u32 << ((bit % ELEM_BITS) as u32)
}

impl Bitmap {
    /// The bits, in order.
    pub closed spec fn view(&self) -> Seq<bool> {
        Seq::new(self.count as nat, |i: int| word_bit(self.elems@[i / 32], (i % 32) as u32))
    }

    pub closed spec fn wf(&self) -> bool {
        &&& self.elems@.len() == (self.count as int + 31) / 32
        &&& self.elems@.len() <= usize::MAX
    }

    /// The words of a well-formed bitmap fit in memory.
    pub proof fn lemma_words(&self)
        requires
            self.wf(),
        ensures
            (self@.len() + 31) / 32 <= usize::MAX,
    {
    }

    /// A bitmap of `count` bits, all clear.
    pub fn new(count: Size) -> (r: Self)
        requires
            (count as int + 31) / 32 <= usize::MAX,
        ensures
            r.wf(),
            r@.len() == count,
            forall|i: int| 0 <= i < count ==> !#[trigger] r@[i],
    {
        let r = Bitmap { count, elems: vec![0; byte_count(count)] };
        proof {
            lemma_word_zero();
            assert forall|i: int| 0 <= i < count implies !#[trigger] r@[i] by {
                assert(r.elems@[i / 32] == 0u32);
            }
        }
        r
    }

    pub fn count(&self) -> (r: Size)
        ensures
            r == self@.len(),
    {
        self.count
    }

    /// Whether `bit` is set.
    pub fn test(&self, bit: Size) -> (r: bool)
        requires
            self.wf(),
            bit < self@.len(),
        ensures
            r == self@[bit as int],
    {
        let idx = byte_index(bit);
        let mask = elem_mask(bit);
        let e = self.elems[idx];
        let k = (bit % ELEM_BITS) as u32;
        assert((e & (1u32 << k) != 0u32) == ((e >> k) & 1u32 == 1u32)) by (bit_vector)
            requires k < 32;
        e & mask != 0
    }

    /// Sets `bit` to `value`.
    pub fn set(&mut self, bit: Size, value: bool)
        requires
            old(self).wf(),
            bit < old(self)@.len(),
        ensures
            final(self).wf(),
            final(self)@ == old(self)@.update(bit as int, value),
    {
        if value {
            self.mark(bit);
        } else {
            self.reset(bit);
        }
    }

    /// Sets `bit`.
    pub fn mark(&mut self, bit: Size)
        requires
            old(self).wf(),
            bit < old(self)@.len(),
        ensures
            final(self).wf(),
            final(self)@ == old(self)@.update(bit as int, true),
    {
        let idx = byte_index(bit);
        let mask = elem_mask(bit);
        let e = self.elems[idx];
        self.elems.set(idx, e | mask);
        proof {
            lemma_word_mark(e, (bit % 32) as u32);
            assert(self@ =~= old(self)@.update(bit as int, true));
        }
    }

    /// Clears `bit`.
    pub fn reset(&mut self, bit: Size)
        requires
            old(self).wf(),
            bit < old(self)@.len(),
        ensures
            final(self).wf(),
            final(self)@ == old(self)@.update(bit as int, false),
    {
        let idx = byte_index(bit);
        let mask = elem_mask(bit);
        let e = self.elems[idx];
        self.elems.set(idx, e & !mask);
        proof {
            lemma_word_reset(e, (bit % 32) as u32);
            assert(self@ =~= old(self)@.update(bit as int, false));
        }
    }

    /// Sets `bit` and returns true if it was clear; returns false and leaves
    /// the bitmap unchanged if it was already set.
    pub fn compare_and_flip(&mut self, bit: Size) -> (r: bool)
        requires
            old(self).wf(),
            bit < old(self)@.len(),
        ensures
            final(self).wf(),
            r == !old(self)@[bit as int],
            final(self)@ == old(self)@.update(bit as int, true),
    {
        if !self.test(bit) {
            self.mark(bit);
            true
        } else {
            proof {
                assert(self@ =~= old(self)@.update(bit as int, true));
            }
            false
        }
    }
}

} // verus!
