//! The free-space map: one bit per device block, set while the block is in use.
use vstd::prelude::*;

use crate::bitmap::Bitmap;
use crate::vfile::VFile;
use crate::Size;

verus! {

/// Block number of the root directory's inode.
pub const ROOT_INODE: Size = 0;

/// Block number of the free map's inode.
pub const FREE_MAP_INODE: Size = 1;

/// The clear positions of `s` below `n`, in increasing order.
pub open spec fn first_free(s: Seq<bool>, n: int) -> Seq<Size>
    decreases n,
{
    if n <= 0 {
        Seq::empty()
    } else if !s[n - 1] {
        first_free(s, n - 1).push((n - 1) as Size)
    } else {
        first_free(s, n - 1)
    }
}

/// What `first_free` holds: exactly the clear positions below `n`, increasing.
pub proof fn lemma_first_free(s: Seq<bool>, n: int)
    requires
        0 <= n <= s.len(),
        s.len() <= Size::MAX + 1,
    ensures
        forall|i: int, j: int|
            0 <= i < j < first_free(s, n).len() ==> first_free(s, n)[i] < first_free(s, n)[j],
        forall|i: int|
            0 <= i < first_free(s, n).len() ==> first_free(s, n)[i] < n && !s[
                #[trigger] first_free(s, n)[i] as int
            ],
        forall|b: int| 0 <= b < n && !s[b] ==> first_free(s, n).contains(b as Size),
    decreases n,
{
    if n > 0 {
        lemma_first_free(s, n - 1);
        let p = first_free(s, n - 1);
        if !s[n - 1] {
            assert(first_free(s, n) == p.push((n - 1) as Size));
            assert forall|b: int| 0 <= b < n && !s[b] implies first_free(s, n).contains(b as Size) by {
                if b < n - 1 {
                    let k = choose|k: int| 0 <= k < p.len() && p[k] == b as Size;
                    assert(first_free(s, n)[k] == b as Size);
                } else {
                    assert(first_free(s, n)[p.len() as int] == b as Size);
                }
            }
        }
    }
}

/// `first_free` grows by appending as `n` grows.
pub proof fn lemma_first_free_prefix(s: Seq<bool>, m: int, n: int)
    requires
        0 <= m <= n <= s.len(),
    ensures
        first_free(s, m).len() <= first_free(s, n).len(),
        first_free(s, n).subrange(0, first_free(s, m).len() as int) == first_free(s, m),
    decreases n - m,
{
    if m < n {
        lemma_first_free_prefix(s, m, n - 1);
        let p = first_free(s, n - 1);
        if !s[n - 1] {
            assert(first_free(s, n).subrange(0, first_free(s, m).len() as int) =~= p.subrange(
                0,
                first_free(s, m).len() as int,
            ));
        }
    } else {
        assert(first_free(s, n).subrange(0, first_free(s, n).len() as int) =~= first_free(s, n));
    }
}

/// Allocation of device blocks.
pub struct FreeMap {
    file: VFile,
    bitmap: Bitmap,
}

impl FreeMap {
    /// One bit per device block; set means in use.
    pub closed spec fn view(&self) -> Seq<bool> {
        self.bitmap@
    }

    pub closed spec fn wf(&self) -> bool {
        &&& self.bitmap.wf()
        &&& self.bitmap@.len() <= Size::MAX
    }

    /// The map covers at most as many blocks as a block number can name.
    pub proof fn lemma_bounded(&self)
        requires
            self.wf(),
        ensures
            self@.len() <= Size::MAX,
            (self@.len() + 31) / 32 <= usize::MAX,
    {
        self.bitmap.lemma_words();
    }

    /// A map of `bits` blocks in which only the two reserved inode blocks are in use.
    pub fn init(file: VFile, bits: Size) -> (r: Self)
        requires
            bits >= 2,
            (bits as int + 31) / 32 <= usize::MAX,
        ensures
            r.wf(),
            r@.len() == bits,
            forall|i: int| 0 <= i < bits ==> #[trigger] r@[i] == (i == ROOT_INODE || i == FREE_MAP_INODE),
    {
        let mut bitmap = Bitmap::new(bits);
        bitmap.mark(ROOT_INODE);
        bitmap.mark(FREE_MAP_INODE);
        FreeMap { file, bitmap }
    }

    /// Number of blocks the map covers.
    pub fn count(&self) -> (r: Size)
        ensures
            r == self@.len(),
    {
        self.bitmap.count()
    }

    /// Whether block `block` is in use.
    pub fn in_use(&self, block: Size) -> (r: bool)
        requires
            self.wf(),
            block < self@.len(),
        ensures
            r == self@[block as int],
    {
        self.bitmap.test(block)
    }

    /// Takes the `blocks` lowest free blocks, marks them in use and appends them,
    /// in increasing order, to `dst`. When fewer than `blocks` are free, nothing
    /// changes and false is returned.
    pub fn allocate(&mut self, blocks: usize, dst: &mut Vec<Size>) -> (r: bool)
        requires
            old(self).wf(),
        ensures
            final(self).wf(),
            final(self)@.len() == old(self)@.len(),
            r == (first_free(old(self)@, old(self)@.len() as int).len() >= blocks),
            r ==> final(dst)@ == old(dst)@ + first_free(old(self)@, old(self)@.len() as int).take(
                blocks as int,
            ),
            r ==> forall|i: int|
                0 <= i < old(self)@.len() ==> #[trigger] final(self)@[i] == (old(self)@[i]
                    || first_free(old(self)@, old(self)@.len() as int).take(
                    blocks as int,
                ).contains(i as Size)),
            !r ==> final(dst)@ == old(dst)@ && final(self)@ == old(self)@,
    {
        let ghost s0 = self@;
        let ghost len = s0.len() as int;
        let mut allocations: Vec<Size> = Vec::new();
        let mut idx: Size = 0;
        let mut count: usize = 0;
        let n = self.bitmap.count();
        proof {
            assert(s0.len() <= Size::MAX + 1);
            lemma_first_free(s0, len);
        }
        while count < blocks && idx < n
            invariant
                self.wf(),
                n == len,
                len == s0.len(),
                idx <= n,
                count <= blocks,
                allocations@ == first_free(s0, idx as int),
                count == allocations@.len(),
                self@.len() == len,
                forall|i: int|
                    0 <= i < len ==> #[trigger] self@[i] == (s0[i] || (i < idx && !s0[i])),
            decreases n - idx,
        {
            if self.bitmap.compare_and_flip(idx) {
                count += 1;
                allocations.push(idx);
            }
            idx += 1;
            proof {
                assert(self@.len() == len);
            }
        }
        proof {
            lemma_first_free(s0, idx as int);
            lemma_first_free_prefix(s0, idx as int, len);
        }
        if count == blocks {
            proof {
                let all = first_free(s0, len);
                assert(all.take(blocks as int) =~= allocations@);
                assert forall|i: int| 0 <= i < len implies #[trigger] self@[i] == (s0[i]
                    || all.take(blocks as int).contains(i as Size)) by {
                    if i < idx && !s0[i] {
                        assert(allocations@.contains(i as Size));
                    }
                    if all.take(blocks as int).contains(i as Size) {
                        let k = choose|k: int|
                            0 <= k < allocations@.len() && allocations@[k] == i as Size;
                        assert(!s0[allocations@[k] as int]);
                    }
                }
            }
            let mut k: usize = 0;
            while k < allocations.len()
                invariant
                    k <= allocations@.len(),
                    dst@ == old(dst)@ + allocations@.take(k as int),
                decreases allocations@.len() - k,
            {
                dst.push(allocations[k]);
                k += 1;
                proof {
                    assert(allocations@.take(k as int) =~= allocations@.take(k - 1).push(
                        allocations@[k - 1],
                    ));
                }
            }
            proof {
                assert(allocations@.take(allocations@.len() as int) =~= allocations@);
            }
            true
        } else {
            // Not enough free blocks: give back what was taken.
            proof {
                assert(idx == n);
            }
            let mut k: usize = 0;
            while k < allocations.len()
                invariant
                    self.wf(),
                    self@.len() == len,
                    len == s0.len(),
                    s0.len() <= Size::MAX + 1,
                    k <= allocations@.len(),
                    allocations@ == first_free(s0, len),
                    forall|i: int|
                        0 <= i < len ==> #[trigger] self@[i] == (s0[i] || (!s0[i]
                            && allocations@.subrange(k as int, allocations@.len() as int).contains(
                            i as Size,
                        ))),
                decreases allocations@.len() - k,
            {
                let b = allocations[k];
                proof {
                    lemma_first_free(s0, len);
                }
                self.bitmap.reset(b);
                k += 1;
                proof {
                    assert forall|i: int| 0 <= i < len implies #[trigger] self@[i] == (s0[i] || (
                    !s0[i] && allocations@.subrange(k as int, allocations@.len() as int).contains(
                        i as Size,
                    ))) by {
                        let tail = allocations@.subrange(k as int, allocations@.len() as int);
                        let prev = allocations@.subrange(k - 1, allocations@.len() as int);
                        assert(prev =~= seq![b] + tail);
                        assert(prev[0] == b);
                        if i != b as int {
                            if prev.contains(i as Size) {
                                let m = choose|m: int| 0 <= m < prev.len() && prev[m] == i as Size;
                                assert(m > 0);
                                assert(tail[m - 1] == i as Size);
                            }
                            if tail.contains(i as Size) {
                                let m = choose|m: int| 0 <= m < tail.len() && tail[m] == i as Size;
                                assert(prev[m + 1] == i as Size);
                            }
                        } else {
                            if tail.contains(i as Size) {
                                let m = choose|m: int| 0 <= m < tail.len() && tail[m] == i as Size;
                                assert(allocations@[k + m] == b);
                                assert(allocations@[k - 1] == b);
                            }
                        }
                    }
                }
            }
            proof {
                assert(self@ =~= s0);
            }
            false
        }
    }

    /// Marks block `block` free again.
    pub fn release(&mut self, block: Size)
        requires
            old(self).wf(),
            block < old(self)@.len(),
        ensures
            final(self).wf(),
            final(self)@ == old(self)@.update(block as int, false),
    {
        self.bitmap.reset(block);
    }
}


/// Blocks handed out by two successive allocations are distinct: the second
/// takes only blocks that were free after the first marked its own.
pub proof fn lemma_no_double_allocate(bits0: Seq<bool>, bits1: Seq<bool>, k1: int, k2: int)
    requires
        bits0.len() == bits1.len(),
        bits0.len() <= Size::MAX + 1,
        0 <= k1 <= first_free(bits0, bits0.len() as int).len(),
        0 <= k2 <= first_free(bits1, bits1.len() as int).len(),
        forall|i: int| 0 <= i < bits0.len() ==> #[trigger] bits1[i] == (bits0[i]
            || first_free(bits0, bits0.len() as int).take(k1).contains(i as Size)),
    ensures
        forall|b: Size|
            first_free(bits0, bits0.len() as int).take(k1).contains(b) ==> !#[trigger] first_free(
                bits1,
                bits1.len() as int,
            ).take(k2).contains(b),
{
    let f0 = first_free(bits0, bits0.len() as int);
    let f1 = first_free(bits1, bits1.len() as int);
    lemma_first_free(bits0, bits0.len() as int);
    lemma_first_free(bits1, bits1.len() as int);
    assert forall|b: Size| f0.take(k1).contains(b) implies !#[trigger] f1.take(k2).contains(b) by {
        let j = choose|j: int| 0 <= j < f0.take(k1).len() && f0.take(k1)[j] == b;
        assert(f0[j] == b);
        assert(b < bits0.len());
        assert(bits1[b as int]);
        if f1.take(k2).contains(b) {
            let m = choose|m: int| 0 <= m < f1.take(k2).len() && f1.take(k2)[m] == b;
            assert(f1[m] == b);
            assert(!bits1[f1[m] as int]);
        }
    }
}


proof fn lemma_first_free_after_take_upto(s: Seq<bool>, t: Seq<bool>, k: int, n: int)
    requires
        s.len() == t.len(),
        s.len() <= Size::MAX + 1,
        0 <= n <= s.len(),
        0 <= k <= first_free(s, s.len() as int).len(),
        forall|i: int| 0 <= i < s.len() ==> #[trigger] t[i] == (s[i]
            || first_free(s, s.len() as int).take(k).contains(i as Size)),
    ensures
        first_free(t, n) == first_free(s, n).skip(
            if k < first_free(s, n).len() { k } else { first_free(s, n).len() as int },
        ),
    decreases n,
{
    let len = s.len() as int;
    let big = first_free(s, len);
    if n == 0 {
        assert(first_free(s, 0).skip(0) =~= first_free(t, 0));
    } else {
        lemma_first_free_after_take_upto(s, t, k, n - 1);
        let p = n - 1;
        let a = first_free(s, n - 1);
        let j = a.len() as int;
        lemma_first_free_prefix(s, n, len);
        lemma_first_free(s, len);
        if !s[p] {
            assert(first_free(s, n) == a.push(p as Size));
            assert(big[j] == p as Size) by {
                assert(first_free(s, n)[j] == p as Size);
            }
            let m = big.take(k);
            assert(m.contains(p as Size) == (j < k)) by {
                if j < k {
                    assert(m[j] == p as Size);
                }
                if m.contains(p as Size) {
                    let i = choose|i: int| 0 <= i < m.len() && m[i] == p as Size;
                    if i != j {
                        if i < j {
                            assert(big[i] < big[j]);
                        } else {
                            assert(big[j] < big[i]);
                        }
                    }
                }
            }
            assert(t[p] == (j < k));
            if j < k {
                assert(first_free(t, n) == first_free(t, n - 1));
                assert(first_free(t, n) =~= first_free(s, n).skip(j + 1));
            } else {
                assert(first_free(t, n) == first_free(t, n - 1).push(p as Size));
                assert(first_free(t, n) =~= first_free(s, n).skip(k));
            }
        } else {
            assert(t[p]);
        }
    }
}

/// After the first `k` free blocks of `s` are marked, giving `t`, exactly
/// `k` fewer blocks are free.
pub proof fn lemma_first_free_after_take(s: Seq<bool>, t: Seq<bool>, k: int)
    requires
        s.len() == t.len(),
        s.len() <= Size::MAX + 1,
        0 <= k <= first_free(s, s.len() as int).len(),
        forall|i: int| 0 <= i < s.len() ==> #[trigger] t[i] == (s[i]
            || first_free(s, s.len() as int).take(k).contains(i as Size)),
    ensures
        first_free(t, t.len() as int).len() == first_free(s, s.len() as int).len() - k,
{
    lemma_first_free_after_take_upto(s, t, k, s.len() as int);
}

} // verus!
