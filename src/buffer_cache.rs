//! An adaptive replacement cache (ARC) placed in front of a block device.
//!
//! Resident blocks sit in `T1` (seen once recently) or `T2` (seen at least
//! twice); the ghost lists `B1` and `B2` remember the numbers of blocks
//! recently evicted from each, and hits on them move the target size `p` of
//! `T1`. Writes stay in the cache, marked dirty, until the block is evicted
//! or the cache is flushed.
use vstd::prelude::*;

use std::collections::{HashMap, VecDeque};

use crate::block::{Block, BlockOperations};
use crate::Size;

verus! {

broadcast use vstd::std_specs::hash::group_hash_axioms;

/// A resident block's bytes and whether they differ from the device's.
pub struct CacheBlock {
    pub data: Block,
    pub is_dirty: bool,
}

/// The list a block number is on.
#[derive(Clone, Copy, PartialEq, Eq, Debug, Structural)]
pub enum BlockLocation {
    /// Resident, seen once.
    T1,
    /// Resident, seen more than once.
    T2,
    /// Evicted from `T1`.
    B1,
    /// Evicted from `T2`.
    B2,
}

/// Sizes of the cache's lists and target, for display.
pub struct CacheStats {
    pub capacity: usize,
    pub target: usize,
    pub t1: usize,
    pub t2: usize,
    pub b1: usize,
    pub b2: usize,
    pub resident: usize,
    pub dirty: usize,
}

/// Step by which a hit on a ghost list moves the target: `own` is the length
/// of the ghost list that was hit, `other` that of the other one.
pub open spec fn adapt_step(own: nat, other: nat) -> nat {
    if own >= other {
        let q = if own == 0 { 0 } else { other / own };
        if q > 1 { q } else { 1 }
    } else {
        1
    }
}

/// Whether an eviction takes the least recent block of `T1` (else of `T2`).
pub open spec fn evicts_from_t1(t1_len: nat, t2_len: nat, p: nat) -> bool {
    t1_len > 0 && (t1_len > p || t2_len == 0)
}

/// `list` without `x`, whose other elements keep their membership.
proof fn lemma_remove_distinct(list: Seq<Size>, i: int)
    requires
        list.no_duplicates(),
        0 <= i < list.len(),
    ensures
        list.remove(i).no_duplicates(),
        forall|x: Size| #[trigger] list.remove(i).contains(x) <==> (list.contains(x) && x != list[i]),
{
    let r = list.remove(i);
    assert forall|x: Size| #[trigger] r.contains(x) <==> (list.contains(x) && x != list[i]) by {
        if r.contains(x) {
            let j = choose|j: int| 0 <= j < r.len() && r[j] == x;
            if j < i {
                assert(list[j] == x);
            } else {
                assert(list[j + 1] == x);
            }
        }
        if list.contains(x) && x != list[i] {
            let j = choose|j: int| 0 <= j < list.len() && list[j] == x;
            if j < i {
                assert(r[j] == x);
            } else {
                assert(r[j - 1] == x);
            }
        }
    }
}

/// Takes `pos` out of `list`, if it is there.
fn remove_value(list: &mut VecDeque<Size>, pos: Size)
    requires
        old(list)@.no_duplicates(),
    ensures
        final(list)@.no_duplicates(),
        forall|x: Size| #[trigger] final(list)@.contains(x) <==> (old(list)@.contains(x) && x != pos),
        final(list)@.len() == old(list)@.len() - if old(list)@.contains(pos) { 1int } else { 0 },
{
    let mut i: usize = 0;
    while i < list.len()
        invariant
            i <= list@.len(),
            list@ == old(list)@,
            old(list)@.no_duplicates(),
            forall|j: int| 0 <= j < i ==> list@[j] != pos,
        decreases list@.len() - i,
    {
        if list[i] == pos {
            proof {
                lemma_remove_distinct(list@, i as int);
            }
            list.remove(i);
            return;
        }
        i += 1;
    }
}

/// Takes the least recent entry off `list`.
fn pop_oldest(list: &mut VecDeque<Size>) -> (r: Size)
    requires
        old(list)@.no_duplicates(),
        old(list)@.len() > 0,
    ensures
        r == old(list)@[0],
        final(list)@ == old(list)@.remove(0),
        final(list)@.no_duplicates(),
        forall|x: Size| #[trigger] final(list)@.contains(x) <==> (old(list)@.contains(x) && x != r),
{
    proof {
        lemma_remove_distinct(list@, 0);
        assert(list@.subrange(1, list@.len() as int) =~= list@.remove(0));
    }
    list.pop_front().unwrap()
}

/// Step by which a ghost hit moves the target, as `adapt_step`.
fn adapt(own: usize, other: usize) -> (r: usize)
    ensures
        r == adapt_step(own as nat, other as nat),
        r <= other || r == 1,
{
    if own >= other {
        let q = if own == 0 { 0 } else { other / own };
        if q > 1 { q } else { 1 }
    } else {
        1
    }
}

/// Number of dirty entries among the blocks of `s`.
pub open spec fn dirty_in(s: Seq<Size>, store: Map<Size, CacheBlock>) -> nat
    decreases s.len(),
{
    if s.len() == 0 {
        0
    } else {
        dirty_in(s.drop_last(), store) + if store[s.last()].is_dirty { 1nat } else { 0 }
    }
}

fn count_dirty(list: &VecDeque<Size>, store: &HashMap<Size, CacheBlock>) -> (r: usize)
    requires
        forall|n: Size| #[trigger] list@.contains(n) ==> store@.contains_key(n),
    ensures
        r == dirty_in(list@, store@),
        r <= list@.len(),
{
    let mut i: usize = 0;
    let mut c: usize = 0;
    while i < list.len()
        invariant
            i <= list@.len(),
            c == dirty_in(list@.take(i as int), store@),
            c <= i,
            forall|n: Size| #[trigger] list@.contains(n) ==> store@.contains_key(n),
        decreases list@.len() - i,
    {
        let n = list[i];
        assert(list@.take(i + 1).drop_last() =~= list@.take(i as int));
        assert(list@.contains(n));
        match store.get(&n) {
            Some(b) => {
                if b.is_dirty {
                    c += 1;
                }
            },
            None => {},
        }
        i += 1;
    }
    assert(list@.take(list@.len() as int) =~= list@);
    c
}

/// A caching device in front of `D`.
pub struct ArcCacheDisk<D: BlockOperations> {
    block_device: D,
    capacity: usize,
    p: usize,
    t1: VecDeque<Size>,
    t2: VecDeque<Size>,
    b1: VecDeque<Size>,
    b2: VecDeque<Size>,
    data_store: HashMap<Size, CacheBlock>,
    page_map: HashMap<Size, BlockLocation>,
    reads: Ghost<nat>,
    writes: Ghost<nat>,
}

impl<D: BlockOperations> ArcCacheDisk<D> {
    /// The device behind the cache.
    pub closed spec fn device(&self) -> D {
        self.block_device
    }

    pub closed spec fn spec_capacity(&self) -> nat {
        self.capacity as nat
    }

    /// Target size of `T1`.
    pub closed spec fn target(&self) -> nat {
        self.p as nat
    }

    /// The block numbers on list `loc`, least recent first.
    pub closed spec fn list(&self, loc: BlockLocation) -> Seq<Size> {
        match loc {
            BlockLocation::T1 => self.t1@,
            BlockLocation::T2 => self.t2@,
            BlockLocation::B1 => self.b1@,
            BlockLocation::B2 => self.b2@,
        }
    }

    /// The resident blocks, with their bytes and dirty flags.
    pub closed spec fn store(&self) -> Map<Size, CacheBlock> {
        self.data_store@
    }

    /// Which list each tracked block number is on.
    pub closed spec fn locations(&self) -> Map<Size, BlockLocation> {
        self.page_map@
    }

    pub open spec fn on_some_list(&self, n: Size) -> bool {
        self.list(BlockLocation::T1).contains(n) || self.list(BlockLocation::T2).contains(n)
            || self.list(BlockLocation::B1).contains(n) || self.list(BlockLocation::B2).contains(n)
    }

    pub open spec fn on_resident_list(&self, n: Size) -> bool {
        self.list(BlockLocation::T1).contains(n) || self.list(BlockLocation::T2).contains(n)
    }

    /// Everything but the bounds on the lists' lengths.
    pub open spec fn consistent(&self) -> bool {
        &&& self.device().ready()
        &&& self.device().blocks().len() <= Size::MAX
        &&& 0 < self.spec_capacity()
        &&& self.target() <= self.spec_capacity()
        &&& self.spec_capacity() <= usize::MAX / 4
        &&& self.list(BlockLocation::T1).no_duplicates()
        &&& self.list(BlockLocation::T2).no_duplicates()
        &&& self.list(BlockLocation::B1).no_duplicates()
        &&& self.list(BlockLocation::B2).no_duplicates()
        &&& forall|n: Size| #[trigger]
            self.locations().contains_key(n) <==> self.on_some_list(n)
        &&& forall|n: Size| #[trigger]
            self.list(BlockLocation::T1).contains(n) ==> self.locations()[n] == BlockLocation::T1
        &&& forall|n: Size| #[trigger]
            self.list(BlockLocation::T2).contains(n) ==> self.locations()[n] == BlockLocation::T2
        &&& forall|n: Size| #[trigger]
            self.list(BlockLocation::B1).contains(n) ==> self.locations()[n] == BlockLocation::B1
        &&& forall|n: Size| #[trigger]
            self.list(BlockLocation::B2).contains(n) ==> self.locations()[n] == BlockLocation::B2
        &&& forall|n: Size| #[trigger]
            self.store().contains_key(n) <==> self.on_resident_list(n)
        &&& forall|n: Size| #[trigger]
            self.store().contains_key(n) ==> n < self.device().blocks().len() && (
            !self.store()[n].is_dirty ==> self.store()[n].data@ == self.device().blocks()[n as int])
    }

    /// Whole invariant: consistency and the bounds on the lists' lengths.
    pub open spec fn inv(&self) -> bool {
        &&& self.consistent()
        &&& self.list(BlockLocation::T1).len() + self.list(BlockLocation::T2).len()
            <= self.spec_capacity()
        &&& self.list(BlockLocation::T1).len() + self.list(BlockLocation::B1).len()
            <= self.spec_capacity()
        &&& self.list(BlockLocation::B1).len() + self.list(BlockLocation::B2).len()
            <= self.spec_capacity()
    }

    /// Whether the resident lists are full.
    pub open spec fn is_full(&self) -> bool {
        self.list(BlockLocation::T1).len() + self.list(BlockLocation::T2).len() >= self.spec_capacity()
    }

    /// The block an eviction takes when the target is `p`: the least recent
    /// of `T1` or of `T2`.
    pub open spec fn victim(&self, p: nat) -> Size {
        if evicts_from_t1(self.list(BlockLocation::T1).len(), self.list(BlockLocation::T2).len(), p) {
            self.list(BlockLocation::T1)[0]
        } else {
            self.list(BlockLocation::T2)[0]
        }
    }

    /// List `l` after an eviction with target `p`.
    pub open spec fn list_after_evict(&self, l: BlockLocation, p: nat) -> Seq<Size> {
        let from_t1 = evicts_from_t1(self.list(BlockLocation::T1).len(), self.list(BlockLocation::T2).len(), p);
        match l {
            BlockLocation::T1 => if from_t1 {
                self.list(BlockLocation::T1).remove(0)
            } else {
                self.list(BlockLocation::T1)
            },
            BlockLocation::T2 => if from_t1 {
                self.list(BlockLocation::T2)
            } else {
                self.list(BlockLocation::T2).remove(0)
            },
            _ => self.list(l),
        }
    }

    /// The device's contents after evicting `e`: its bytes are written back
    /// when dirty.
    pub open spec fn device_after_evict(&self, e: Size) -> Seq<Seq<u8>> {
        if self.store()[e].is_dirty {
            self.device().blocks().update(e as int, self.store()[e].data@)
        } else {
            self.device().blocks()
        }
    }

    /// The target after a miss on `pos`: a hit on `B1` raises it, one on `B2`
    /// lowers it, within `0 ..= capacity`.
    pub open spec fn adapted_target(&self, pos: Size) -> nat {
        if self.locations().contains_key(pos) && self.locations()[pos] == BlockLocation::B1 {
            let t = self.target() + adapt_step(
                self.list(BlockLocation::B1).len(),
                self.list(BlockLocation::B2).len(),
            );
            if t < self.spec_capacity() { t } else { self.spec_capacity() }
        } else if self.locations().contains_key(pos) && self.locations()[pos] == BlockLocation::B2 {
            let t = self.target() - adapt_step(
                self.list(BlockLocation::B2).len(),
                self.list(BlockLocation::B1).len(),
            );
            if t > 0 { t as nat } else { 0 }
        } else {
            self.target()
        }
    }

    /// A cache of `capacity` blocks in front of `disk`.
    pub fn new(disk: D, capacity: usize) -> (r: Self)
        requires
            capacity > 0,
            capacity <= usize::MAX / 4,
            disk.ready(),
            disk.blocks().len() <= Size::MAX,
        ensures
            r.inv(),
            r.device() == disk,
            r.spec_capacity() == capacity,
            r.target() == 0,
            r.blocks() == disk.blocks(),
            r.store().is_empty(),
            r.locations().is_empty(),
            r.read_calls() == 0,
            r.write_calls() == 0,
    {
        let r = ArcCacheDisk {
            block_device: disk,
            p: 0,
            capacity,
            data_store: HashMap::new(),
            t1: VecDeque::new(),
            t2: VecDeque::new(),
            b1: VecDeque::new(),
            b2: VecDeque::new(),
            page_map: HashMap::new(),
            reads: Ghost(0),
            writes: Ghost(0),
        };
        assert(r.blocks() =~= disk.blocks());
        r
    }

    /// The device behind the cache.
    pub fn device_ref(&self) -> (r: &D)
        ensures
            *r == self.device(),
    {
        &self.block_device
    }

    /// The list block `pos` is on, if any.
    pub fn location(&self, pos: Size) -> (r: Option<BlockLocation>)
        requires
            self.consistent(),
        ensures
            r == (if self.locations().contains_key(pos) {
                Some(self.locations()[pos])
            } else {
                None
            }),
    {
        match self.page_map.get(&pos) {
            Some(l) => Some(*l),
            None => None,
        }
    }

    /// Puts `pos`, which is not on `to`, at the most recent end of `to`.
    fn add_to_mru(&mut self, pos: &Size, to: BlockLocation)
        requires
            to == BlockLocation::T1 || to == BlockLocation::T2,
            old(self).list(to).no_duplicates(),
            !old(self).list(to).contains(*pos),
        ensures
            final(self).list(to).no_duplicates(),
            final(self).device() == old(self).device(),
            final(self).spec_capacity() == old(self).spec_capacity(),
            final(self).target() == old(self).target(),
            final(self).store() == old(self).store(),
            final(self).locations() == old(self).locations().insert(*pos, to),
            final(self).list(to) == old(self).list(to).push(*pos),
            forall|l: BlockLocation| l != to ==> #[trigger] final(self).list(l) == old(self).list(l),
    {
        let p = *pos;
        proof {
            let l = old(self).list(to);
            assert forall|i: int, j: int|
                0 <= i < j < l.push(p).len() implies l.push(p)[i] != l.push(p)[j] by {
                if j == l.len() {
                    assert(l.contains(l[i]));
                }
            }
        }
        if to == BlockLocation::T1 {
            self.t1.push_back(p);
        } else {
            self.t2.push_back(p);
        }
        self.page_map.insert(p, to);
    }

    /// Takes `pos` off list `from`.
    fn remove_from_list(&mut self, pos: &Size, from: BlockLocation)
        requires
            old(self).list(from).no_duplicates(),
        ensures
            final(self).device() == old(self).device(),
            final(self).spec_capacity() == old(self).spec_capacity(),
            final(self).target() == old(self).target(),
            final(self).store() == old(self).store(),
            final(self).locations() == old(self).locations(),
            final(self).list(from).no_duplicates(),
            forall|x: Size| #[trigger]
                final(self).list(from).contains(x) <==> (old(self).list(from).contains(x) && x
                    != *pos),
            final(self).list(from).len() == old(self).list(from).len() - if old(self).list(
                from,
            ).contains(*pos) {
                1int
            } else {
                0
            },
            forall|l: BlockLocation|
                l != from ==> #[trigger] final(self).list(l) == old(self).list(l),
    {
        match from {
            BlockLocation::T1 => remove_value(&mut self.t1, *pos),
            BlockLocation::T2 => remove_value(&mut self.t2, *pos),
            BlockLocation::B1 => remove_value(&mut self.b1, *pos),
            BlockLocation::B2 => remove_value(&mut self.b2, *pos),
        }
    }

    /// Moves `pos` from resident list `from` to the most recent end of `T2`.
    fn move_page(&mut self, pos: &Size, from: BlockLocation, to: BlockLocation)
        requires
            old(self).consistent(),
            old(self).list(from).contains(*pos),
            from == BlockLocation::T1 || from == BlockLocation::T2,
            to == BlockLocation::T2,
        ensures
            final(self).device() == old(self).device(),
            final(self).spec_capacity() == old(self).spec_capacity(),
            final(self).target() == old(self).target(),
            final(self).store() == old(self).store(),
            final(self).locations() == old(self).locations().insert(*pos, to),
            forall|x: Size| #[trigger]
                final(self).on_some_list(x) == old(self).on_some_list(x),
            forall|x: Size| #[trigger]
                final(self).on_resident_list(x) == (old(self).on_resident_list(x) || x == *pos),
            forall|l: BlockLocation| #[trigger] final(self).list(l).no_duplicates(),
            forall|l: BlockLocation, x: Size| #[trigger] final(self).list(l).contains(x) <==> (
                if x == *pos { l == to } else { old(self).list(l).contains(x) }),
            final(self).list(BlockLocation::B1) == old(self).list(BlockLocation::B1),
            final(self).list(BlockLocation::B2) == old(self).list(BlockLocation::B2),
            final(self).list(BlockLocation::T1).len() + final(self).list(BlockLocation::T2).len()
                == old(self).list(BlockLocation::T1).len() + old(self).list(BlockLocation::T2).len(),
            final(self).list(BlockLocation::T1).len() <= old(self).list(BlockLocation::T1).len(),
            final(self).list(to).len() > 0,
            final(self).list(to).last() == *pos,
    {
        let ghost pre = *self;
        self.remove_from_list(pos, from);
        let ghost mid = *self;
        proof {
            assert(mid.list(BlockLocation::B1) == pre.list(BlockLocation::B1));
            assert(mid.list(BlockLocation::B2) == pre.list(BlockLocation::B2));
            if from != to {
                assert(mid.list(to) == pre.list(to));
                assert(pre.locations()[*pos] == from);
                assert(!pre.list(to).contains(*pos));
            }
        }
        self.add_to_mru(pos, to);
        proof {
            assert(self.list(BlockLocation::B1) == mid.list(BlockLocation::B1));
            assert(self.list(BlockLocation::B2) == mid.list(BlockLocation::B2));
            assert(self.list(from).no_duplicates());
            assert forall|l: BlockLocation| #[trigger] self.list(l).no_duplicates() by {
                if l != from && l != to {
                    assert(self.list(l) == pre.list(l));
                }
            }
            assert forall|l: BlockLocation, x: Size| #[trigger] self.list(l).contains(x) <==> (
                if x == *pos { l == to } else { pre.list(l).contains(x) }) by {
                if l == to {
                    let q = mid.list(to);
                    if x == *pos {
                        assert(self.list(l)[q.len() as int] == x);
                    }
                    if self.list(l).contains(x) && x != *pos {
                        let k = choose|k: int| 0 <= k < self.list(l).len() && self.list(l)[k] == x;
                        assert(q[k] == x);
                    }
                    if q.contains(x) {
                        let k = choose|k: int| 0 <= k < q.len() && q[k] == x;
                        assert(self.list(l)[k] == x);
                    }
                    if from != to {
                        assert(q == pre.list(to));
                    } else {
                        assert(q.contains(x) == (pre.list(to).contains(x) && x != *pos));
                    }
                } else if l == from {
                    assert(self.list(l) == mid.list(l));
                    assert(mid.list(l).contains(x) == (pre.list(l).contains(x) && x != *pos));
                    if x == *pos {
                        assert(!self.list(l).contains(x));
                    }
                } else {
                    assert(self.list(l) == pre.list(l));
                    if x == *pos {
                        assert(pre.locations()[*pos] == from);
                        assert(!pre.list(l).contains(x));
                    }
                }
            }
            assert forall|x: Size| #[trigger] self.on_some_list(x) == pre.on_some_list(x) by {
                assert(self.list(BlockLocation::T1).contains(x) == (if x == *pos { BlockLocation::T1 == to } else { pre.list(BlockLocation::T1).contains(x) }));
                assert(self.list(BlockLocation::T2).contains(x) == (if x == *pos { BlockLocation::T2 == to } else { pre.list(BlockLocation::T2).contains(x) }));
                assert(self.list(BlockLocation::B1).contains(x) == (if x == *pos { BlockLocation::B1 == to } else { pre.list(BlockLocation::B1).contains(x) }));
                assert(self.list(BlockLocation::B2).contains(x) == (if x == *pos { BlockLocation::B2 == to } else { pre.list(BlockLocation::B2).contains(x) }));
            }
            assert forall|x: Size| #[trigger] self.on_resident_list(x) == (pre.on_resident_list(x) || x == *pos) by {
                assert(self.list(BlockLocation::T1).contains(x) == (if x == *pos { BlockLocation::T1 == to } else { pre.list(BlockLocation::T1).contains(x) }));
                assert(self.list(BlockLocation::T2).contains(x) == (if x == *pos { BlockLocation::T2 == to } else { pre.list(BlockLocation::T2).contains(x) }));
            }
        }
    }

    /// Evicts the least recent block of `T1` or `T2`, writing it back first if
    /// it is dirty, and remembers its number on the matching ghost list.
    fn evict(&mut self)
        requires
            old(self).consistent(),
            old(self).list(BlockLocation::T1).len() + old(self).list(BlockLocation::T2).len() > 0,
        ensures
            ({
                let from_t1 = evicts_from_t1(
                    old(self).list(BlockLocation::T1).len(),
                    old(self).list(BlockLocation::T2).len(),
                    old(self).target(),
                );
                let e = if from_t1 {
                    old(self).list(BlockLocation::T1)[0]
                } else {
                    old(self).list(BlockLocation::T2)[0]
                };
                &&& final(self).consistent()
                &&& final(self).blocks() == old(self).blocks()
                &&& final(self).device().blocks() == if old(self).store()[e].is_dirty {
                    old(self).device().blocks().update(e as int, old(self).store()[e].data@)
                } else {
                    old(self).device().blocks()
                }
                &&& final(self).store() == old(self).store().remove(e)
                &&& !old(self).store()[e].is_dirty ==> final(self).device() == old(self).device()
                &&& final(self).device().read_calls() == old(self).device().read_calls()
                &&& final(self).device().write_calls() == old(self).device().write_calls() + if old(self).store()[e].is_dirty { 1nat } else { 0 }
                &&& final(self).list(BlockLocation::T1) == if from_t1 {
                    old(self).list(BlockLocation::T1).remove(0)
                } else {
                    old(self).list(BlockLocation::T1)
                }
                &&& final(self).list(BlockLocation::T2) == if from_t1 {
                    old(self).list(BlockLocation::T2)
                } else {
                    old(self).list(BlockLocation::T2).remove(0)
                }
                &&& final(self).list(BlockLocation::B1) == if from_t1 {
                    old(self).list(BlockLocation::B1).push(e)
                } else {
                    old(self).list(BlockLocation::B1)
                }
                &&& final(self).list(BlockLocation::B2) == if from_t1 {
                    old(self).list(BlockLocation::B2)
                } else {
                    old(self).list(BlockLocation::B2).push(e)
                }
            }),
            final(self).spec_capacity() == old(self).spec_capacity(),
            final(self).target() == old(self).target(),
            forall|x: Size| #[trigger] final(self).on_some_list(x) == old(self).on_some_list(x),
    {
        let ghost pre = *self;
        let evict_from_t1 = self.t1.len() > 0 && (self.t1.len() > self.p || self.t2.len() == 0);
        let (evicted_pos, ghost_list_loc) = if evict_from_t1 {
            (pop_oldest(&mut self.t1), BlockLocation::B1)
        } else {
            (pop_oldest(&mut self.t2), BlockLocation::B2)
        };
        proof {
            assert(pre.list(if evict_from_t1 { BlockLocation::T1 } else { BlockLocation::T2 }).contains(evicted_pos));
            assert(pre.store().contains_key(evicted_pos));
        }
        let ghost dev0 = self.block_device.blocks();
        match self.data_store.get(&evicted_pos) {
            Some(block) => {
                if block.is_dirty {
                    self.block_device.write(&block.data, evicted_pos);
                }
            },
            None => {},
        }
        self.data_store.remove(&evicted_pos);
        self.page_map.insert(evicted_pos, ghost_list_loc);
        proof {
            let g = pre.list(ghost_list_loc);
            assert(!g.contains(evicted_pos));
            assert forall|i: int, j: int|
                0 <= i < j < g.push(evicted_pos).len() implies g.push(evicted_pos)[i] != g.push(evicted_pos)[j] by {
                if j == g.len() {
                    assert(g.contains(g[i]));
                }
            }
        }
        if evict_from_t1 {
            self.b1.push_back(evicted_pos);
        } else {
            self.b2.push_back(evicted_pos);
        }
        proof {
            let e = evicted_pos;
            assert forall|l: BlockLocation, x: Size| #[trigger] self.list(l).contains(x) <==> (
                if x == e { l == ghost_list_loc } else { pre.list(l).contains(x) }) by {
                if l == ghost_list_loc {
                    let g = pre.list(l);
                    if x == e {
                        assert(self.list(l)[g.len() as int] == x);
                    }
                    if self.list(l).contains(x) && x != e {
                        let k = choose|k: int| 0 <= k < self.list(l).len() && self.list(l)[k] == x;
                        assert(g[k] == x);
                    }
                    if g.contains(x) {
                        let k = choose|k: int| 0 <= k < g.len() && g[k] == x;
                        assert(self.list(l)[k] == x);
                    }
                }
            }
            assert forall|n: Size| #[trigger] self.locations().contains_key(n) <==> self.on_some_list(n) by {
                assert(self.list(BlockLocation::T1).contains(n) == (if n == e { BlockLocation::T1 == ghost_list_loc } else { pre.list(BlockLocation::T1).contains(n) }));
                assert(self.list(BlockLocation::T2).contains(n) == (if n == e { BlockLocation::T2 == ghost_list_loc } else { pre.list(BlockLocation::T2).contains(n) }));
                assert(self.list(BlockLocation::B1).contains(n) == (if n == e { BlockLocation::B1 == ghost_list_loc } else { pre.list(BlockLocation::B1).contains(n) }));
                assert(self.list(BlockLocation::B2).contains(n) == (if n == e { BlockLocation::B2 == ghost_list_loc } else { pre.list(BlockLocation::B2).contains(n) }));
            }
            assert forall|n: Size| #[trigger] self.store().contains_key(n) <==> self.on_resident_list(n) by {
                assert(self.list(BlockLocation::T1).contains(n) == (if n == e { BlockLocation::T1 == ghost_list_loc } else { pre.list(BlockLocation::T1).contains(n) }));
                assert(self.list(BlockLocation::T2).contains(n) == (if n == e { BlockLocation::T2 == ghost_list_loc } else { pre.list(BlockLocation::T2).contains(n) }));
            }
            assert forall|n: Size| #[trigger] self.on_some_list(n) == pre.on_some_list(n) by {
                assert(self.list(BlockLocation::T1).contains(n) == (if n == e { BlockLocation::T1 == ghost_list_loc } else { pre.list(BlockLocation::T1).contains(n) }));
                assert(self.list(BlockLocation::T2).contains(n) == (if n == e { BlockLocation::T2 == ghost_list_loc } else { pre.list(BlockLocation::T2).contains(n) }));
                assert(self.list(BlockLocation::B1).contains(n) == (if n == e { BlockLocation::B1 == ghost_list_loc } else { pre.list(BlockLocation::B1).contains(n) }));
                assert(self.list(BlockLocation::B2).contains(n) == (if n == e { BlockLocation::B2 == ghost_list_loc } else { pre.list(BlockLocation::B2).contains(n) }));
            }
            assert forall|l: BlockLocation, n: Size| #[trigger] self.list(l).contains(n) implies self.locations()[n] == l by {
                if n != e {
                    assert(pre.list(l).contains(n));
                }
            }
            assert forall|n: Size| #[trigger] self.list(BlockLocation::T1).contains(n) implies self.locations()[n] == BlockLocation::T1 by {
                assert(self.list(BlockLocation::T1).contains(n));
            }
            assert forall|n: Size| #[trigger] self.list(BlockLocation::T2).contains(n) implies self.locations()[n] == BlockLocation::T2 by {
                assert(self.list(BlockLocation::T2).contains(n));
            }
            assert forall|n: Size| #[trigger] self.list(BlockLocation::B1).contains(n) implies self.locations()[n] == BlockLocation::B1 by {
                assert(self.list(BlockLocation::B1).contains(n));
            }
            assert forall|n: Size| #[trigger] self.list(BlockLocation::B2).contains(n) implies self.locations()[n] == BlockLocation::B2 by {
                assert(self.list(BlockLocation::B2).contains(n));
            }
            assert forall|n: Size| #[trigger] self.store().contains_key(n) implies n < self.device().blocks().len() && (
                !self.store()[n].is_dirty ==> self.store()[n].data@ == self.device().blocks()[n as int]) by {
                assert(pre.store().contains_key(n));
            }
            assert(self.blocks() =~= pre.blocks());
            assert(pre.list(BlockLocation::T1).subrange(1, pre.list(BlockLocation::T1).len() as int) =~= pre.list(BlockLocation::T1).remove(0));
            assert(pre.list(BlockLocation::T2).subrange(1, pre.list(BlockLocation::T2).len() as int) =~= pre.list(BlockLocation::T2).remove(0));
        }
    }

    /// Dropping ghost `g` from ghost list `l` and from the page map keeps the
    /// cache consistent.
    proof fn lemma_drop_ghost(pre: Self, post: Self, g: Size, l: BlockLocation)
        requires
            pre.consistent(),
            l == BlockLocation::B1 || l == BlockLocation::B2,
            pre.list(l).contains(g),
            post.list(l).no_duplicates(),
            forall|x: Size| #[trigger] post.list(l).contains(x) <==> (pre.list(l).contains(x) && x != g),
            forall|l2: BlockLocation| l2 != l ==> #[trigger] post.list(l2) == pre.list(l2),
            post.locations() == pre.locations().remove(g),
            post.store() == pre.store(),
            post.device() == pre.device(),
            post.spec_capacity() == pre.spec_capacity(),
            post.target() == pre.target(),
        ensures
            post.consistent(),
            forall|x: Size| #[trigger] post.on_some_list(x) ==> pre.on_some_list(x),
            forall|x: Size| #[trigger] post.on_resident_list(x) == pre.on_resident_list(x),
    {
        assert(pre.locations()[g] == l);
        assert forall|l2: BlockLocation, x: Size| #[trigger] post.list(l2).contains(x) == (
            pre.list(l2).contains(x) && (l2 != l || x != g)) by {
            if l2 != l {
                assert(post.list(l2) == pre.list(l2));
            }
        }
        assert forall|x: Size| #[trigger] post.on_some_list(x) == (pre.on_some_list(x) && x != g) by {
            assert(post.list(BlockLocation::T1).contains(x) == (pre.list(BlockLocation::T1).contains(x) && (BlockLocation::T1 != l || x != g)));
            assert(post.list(BlockLocation::T2).contains(x) == (pre.list(BlockLocation::T2).contains(x) && (BlockLocation::T2 != l || x != g)));
            assert(post.list(BlockLocation::B1).contains(x) == (pre.list(BlockLocation::B1).contains(x) && (BlockLocation::B1 != l || x != g)));
            assert(post.list(BlockLocation::B2).contains(x) == (pre.list(BlockLocation::B2).contains(x) && (BlockLocation::B2 != l || x != g)));
        }
        assert forall|x: Size| #[trigger] post.on_resident_list(x) == pre.on_resident_list(x) by {
            assert(post.list(BlockLocation::T1).contains(x) == (pre.list(BlockLocation::T1).contains(x) && (BlockLocation::T1 != l || x != g)));
            assert(post.list(BlockLocation::T2).contains(x) == (pre.list(BlockLocation::T2).contains(x) && (BlockLocation::T2 != l || x != g)));
        }
        assert forall|l2: BlockLocation, x: Size| #[trigger] post.list(l2).contains(x) implies post.locations()[x] == l2 by {
            assert(pre.list(l2).contains(x));
        }
        assert forall|x: Size| #[trigger] post.list(BlockLocation::T1).contains(x) implies post.locations()[x] == BlockLocation::T1 by {
            assert(post.list(BlockLocation::T1).contains(x));
        }
        assert forall|x: Size| #[trigger] post.list(BlockLocation::T2).contains(x) implies post.locations()[x] == BlockLocation::T2 by {
            assert(post.list(BlockLocation::T2).contains(x));
        }
        assert forall|x: Size| #[trigger] post.list(BlockLocation::B1).contains(x) implies post.locations()[x] == BlockLocation::B1 by {
            assert(post.list(BlockLocation::B1).contains(x));
        }
        assert forall|x: Size| #[trigger] post.list(BlockLocation::B2).contains(x) implies post.locations()[x] == BlockLocation::B2 by {
            assert(post.list(BlockLocation::B2).contains(x));
        }
        assert forall|x: Size| #[trigger] post.store().contains_key(x) <==> post.on_resident_list(x) by {
            assert(post.on_resident_list(x) == pre.on_resident_list(x));
        }
    }

    /// Drops the least recent ghosts until `T1` (plus `extra` blocks about to
    /// join it) and `B1` together fit the capacity, and so do `B1` and `B2`.
    fn trim_ghosts(&mut self, extra: usize)
        requires
            old(self).consistent(),
            extra <= 1,
            old(self).list(BlockLocation::T1).len() + old(self).list(BlockLocation::T2).len() + extra
                <= old(self).spec_capacity(),
            old(self).list(BlockLocation::B1).len() <= old(self).spec_capacity() + 1,
            old(self).list(BlockLocation::B2).len() <= old(self).spec_capacity() + 1,
        ensures
            final(self).consistent(),
            final(self).device() == old(self).device(),
            final(self).store() == old(self).store(),
            final(self).spec_capacity() == old(self).spec_capacity(),
            final(self).target() == old(self).target(),
            final(self).list(BlockLocation::T1) == old(self).list(BlockLocation::T1),
            final(self).list(BlockLocation::T2) == old(self).list(BlockLocation::T2),
            final(self).list(BlockLocation::T1).len() + extra + final(self).list(BlockLocation::B1).len()
                <= final(self).spec_capacity(),
            final(self).list(BlockLocation::B1).len() + final(self).list(BlockLocation::B2).len()
                <= final(self).spec_capacity(),
            forall|x: Size| #[trigger] final(self).on_some_list(x) ==> old(self).on_some_list(x),
            forall|x: Size| #[trigger] final(self).on_resident_list(x) == old(self).on_resident_list(x),
    {
        while self.t1.len() + extra + self.b1.len() > self.capacity
            invariant
                self.consistent(),
                self.device() == old(self).device(),
                self.store() == old(self).store(),
                self.spec_capacity() == old(self).spec_capacity(),
                self.target() == old(self).target(),
                self.list(BlockLocation::T1) == old(self).list(BlockLocation::T1),
                self.list(BlockLocation::T2) == old(self).list(BlockLocation::T2),
                self.list(BlockLocation::B1).len() <= self.spec_capacity() + 1,
                self.list(BlockLocation::B2).len() <= old(self).list(BlockLocation::B2).len(),
                old(self).list(BlockLocation::B2).len() <= self.spec_capacity() + 1,
                extra <= 1,
                self.list(BlockLocation::T1).len() + extra <= self.spec_capacity(),
                forall|x: Size| #[trigger] self.on_some_list(x) ==> old(self).on_some_list(x),
                forall|x: Size| #[trigger] self.on_resident_list(x) == old(self).on_resident_list(x),
            decreases self.b1@.len(),
        {
            let ghost pre = *self;
            let g = pop_oldest(&mut self.b1);
            self.page_map.remove(&g);
            proof {
                assert(pre.list(BlockLocation::B1).contains(g));
                Self::lemma_drop_ghost(pre, *self, g, BlockLocation::B1);
            }
        }
        while self.b1.len() + self.b2.len() > self.capacity
            invariant
                self.consistent(),
                self.device() == old(self).device(),
                self.store() == old(self).store(),
                self.spec_capacity() == old(self).spec_capacity(),
                self.target() == old(self).target(),
                self.list(BlockLocation::T1) == old(self).list(BlockLocation::T1),
                self.list(BlockLocation::T2) == old(self).list(BlockLocation::T2),
                self.list(BlockLocation::T1).len() + extra + self.list(BlockLocation::B1).len()
                    <= self.spec_capacity(),
                self.list(BlockLocation::B2).len() <= self.spec_capacity() + 1,
                forall|x: Size| #[trigger] self.on_some_list(x) ==> old(self).on_some_list(x),
                forall|x: Size| #[trigger] self.on_resident_list(x) == old(self).on_resident_list(x),
            decreases self.b1@.len() + self.b2@.len(),
        {
            let ghost pre = *self;
            if self.b2.len() > 0 {
                let g = pop_oldest(&mut self.b2);
                self.page_map.remove(&g);
                proof {
                    assert(pre.list(BlockLocation::B2).contains(g));
                    Self::lemma_drop_ghost(pre, *self, g, BlockLocation::B2);
                }
            } else {
                let g = pop_oldest(&mut self.b1);
                self.page_map.remove(&g);
                proof {
                    assert(pre.list(BlockLocation::B1).contains(g));
                    Self::lemma_drop_ghost(pre, *self, g, BlockLocation::B1);
                }
            }
        }
    }

    /// Placing `pos`, which was on no list and not resident, at the most
    /// recent end of `to` with the entry `blk` keeps the cache consistent.
    proof fn lemma_install(pre: Self, post: Self, pos: Size, to: BlockLocation, blk: CacheBlock)
        requires
            pre.consistent(),
            !pre.on_some_list(pos),
            pos < pre.device().blocks().len(),
            to == BlockLocation::T1 || to == BlockLocation::T2,
            post.list(BlockLocation::T1) == if to == BlockLocation::T1 {
                pre.list(BlockLocation::T1).push(pos)
            } else {
                pre.list(BlockLocation::T1)
            },
            post.list(BlockLocation::T2) == if to == BlockLocation::T2 {
                pre.list(BlockLocation::T2).push(pos)
            } else {
                pre.list(BlockLocation::T2)
            },
            post.list(BlockLocation::B1) == pre.list(BlockLocation::B1),
            post.list(BlockLocation::B2) == pre.list(BlockLocation::B2),
            post.list(to).no_duplicates(),
            post.locations() == pre.locations().insert(pos, to),
            post.store() == pre.store().insert(pos, blk),
            !blk.is_dirty ==> blk.data@ == pre.device().blocks()[pos as int],
            post.device().ready(),
            post.device().blocks() == pre.device().blocks(),
            post.spec_capacity() == pre.spec_capacity(),
            post.target() == pre.target(),
        ensures
            post.consistent(),
            post.blocks() == pre.blocks().update(pos as int, blk.data@),
    {
        assert(!pre.store().contains_key(pos));
        assert forall|l: BlockLocation, x: Size| #[trigger] post.list(l).contains(x) == (
            pre.list(l).contains(x) || (l == to && x == pos)) by {
            if l == to {
                let q = pre.list(to);
                if x == pos {
                    assert(post.list(l)[q.len() as int] == x);
                }
                if post.list(l).contains(x) && x != pos {
                    let k = choose|k: int| 0 <= k < post.list(l).len() && post.list(l)[k] == x;
                    assert(q[k] == x);
                }
                if q.contains(x) {
                    let k = choose|k: int| 0 <= k < q.len() && q[k] == x;
                    assert(post.list(l)[k] == x);
                }
            } else {
                match l {
                    BlockLocation::T1 => {},
                    BlockLocation::T2 => {},
                    BlockLocation::B1 => {},
                    BlockLocation::B2 => {},
                }
                assert(post.list(l) == pre.list(l));
            }
        }
        assert forall|x: Size| #[trigger] post.on_some_list(x) == (pre.on_some_list(x) || x == pos) by {
            assert(post.list(BlockLocation::T1).contains(x) == (pre.list(BlockLocation::T1).contains(x) || (BlockLocation::T1 == to && x == pos)));
            assert(post.list(BlockLocation::T2).contains(x) == (pre.list(BlockLocation::T2).contains(x) || (BlockLocation::T2 == to && x == pos)));
            assert(post.list(BlockLocation::B1).contains(x) == pre.list(BlockLocation::B1).contains(x));
            assert(post.list(BlockLocation::B2).contains(x) == pre.list(BlockLocation::B2).contains(x));
        }
        assert forall|x: Size| #[trigger] post.on_resident_list(x) == (pre.on_resident_list(x) || x == pos) by {
            assert(post.list(BlockLocation::T1).contains(x) == (pre.list(BlockLocation::T1).contains(x) || (BlockLocation::T1 == to && x == pos)));
            assert(post.list(BlockLocation::T2).contains(x) == (pre.list(BlockLocation::T2).contains(x) || (BlockLocation::T2 == to && x == pos)));
        }
        assert forall|l: BlockLocation, x: Size| #[trigger] post.list(l).contains(x) implies post.locations()[x] == l by {
            if x != pos {
                assert(pre.list(l).contains(x));
            }
        }
        assert forall|x: Size| #[trigger] post.list(BlockLocation::T1).contains(x) implies post.locations()[x] == BlockLocation::T1 by {
            assert(post.list(BlockLocation::T1).contains(x));
        }
        assert forall|x: Size| #[trigger] post.list(BlockLocation::T2).contains(x) implies post.locations()[x] == BlockLocation::T2 by {
            assert(post.list(BlockLocation::T2).contains(x));
        }
        assert forall|x: Size| #[trigger] post.list(BlockLocation::B1).contains(x) implies post.locations()[x] == BlockLocation::B1 by {
            assert(post.list(BlockLocation::B1).contains(x));
        }
        assert forall|x: Size| #[trigger] post.list(BlockLocation::B2).contains(x) implies post.locations()[x] == BlockLocation::B2 by {
            assert(post.list(BlockLocation::B2).contains(x));
        }
        assert forall|x: Size| #[trigger] post.store().contains_key(x) <==> post.on_resident_list(x) by {
            assert(post.on_resident_list(x) == (pre.on_resident_list(x) || x == pos));
        }
        assert(post.blocks() =~= pre.blocks().update(pos as int, blk.data@));
    }

    /// A device operation that keeps the device's contents keeps the cache
    /// consistent.
    proof fn lemma_device_same(pre: Self, post: Self)
        requires
            pre.consistent(),
            post.device().ready(),
            post.device().blocks() == pre.device().blocks(),
            post.store() == pre.store(),
            post.locations() == pre.locations(),
            post.list(BlockLocation::T1) == pre.list(BlockLocation::T1),
            post.list(BlockLocation::T2) == pre.list(BlockLocation::T2),
            post.list(BlockLocation::B1) == pre.list(BlockLocation::B1),
            post.list(BlockLocation::B2) == pre.list(BlockLocation::B2),
            post.spec_capacity() == pre.spec_capacity(),
            post.target() == pre.target(),
        ensures
            post.consistent(),
            post.blocks() == pre.blocks(),
    {
        assert forall|x: Size| #[trigger] post.on_some_list(x) == pre.on_some_list(x) by {}
        assert forall|x: Size| #[trigger] post.on_resident_list(x) == pre.on_resident_list(x) by {}
        assert(post.blocks() =~= pre.blocks());
    }

    /// Moving resident `pos` to `T2` keeps the cache consistent.
    proof fn lemma_moved(pre: Self, post: Self, pos: Size)
        requires
            pre.consistent(),
            pre.store().contains_key(pos),
            post.device() == pre.device(),
            post.spec_capacity() == pre.spec_capacity(),
            post.target() == pre.target(),
            post.store() == pre.store(),
            post.locations() == pre.locations().insert(pos, BlockLocation::T2),
            forall|x: Size| #[trigger] post.on_some_list(x) == pre.on_some_list(x),
            forall|x: Size| #[trigger] post.on_resident_list(x) == (pre.on_resident_list(x) || x == pos),
            post.list(BlockLocation::T1).no_duplicates(),
            post.list(BlockLocation::T2).no_duplicates(),
            post.list(BlockLocation::B1).no_duplicates(),
            post.list(BlockLocation::B2).no_duplicates(),
            forall|l: BlockLocation, x: Size| #[trigger] post.list(l).contains(x) <==> (
                if x == pos { l == BlockLocation::T2 } else { pre.list(l).contains(x) }),
        ensures
            post.consistent(),
    {
        assert forall|x: Size| #[trigger] post.list(BlockLocation::T1).contains(x) implies post.locations()[x] == BlockLocation::T1 by {
            assert(post.list(BlockLocation::T1).contains(x));
        }
        assert forall|x: Size| #[trigger] post.list(BlockLocation::T2).contains(x) implies post.locations()[x] == BlockLocation::T2 by {
            assert(post.list(BlockLocation::T2).contains(x));
        }
        assert forall|x: Size| #[trigger] post.list(BlockLocation::B1).contains(x) implies post.locations()[x] == BlockLocation::B1 by {
            assert(post.list(BlockLocation::B1).contains(x));
        }
        assert forall|x: Size| #[trigger] post.list(BlockLocation::B2).contains(x) implies post.locations()[x] == BlockLocation::B2 by {
            assert(post.list(BlockLocation::B2).contains(x));
        }
        assert forall|x: Size| #[trigger] post.locations().contains_key(x) <==> post.on_some_list(x) by {
            assert(post.on_some_list(x) == pre.on_some_list(x));
        }
        assert forall|x: Size| #[trigger] post.store().contains_key(x) <==> post.on_resident_list(x) by {
            assert(post.on_resident_list(x) == (pre.on_resident_list(x) || x == pos));
        }
    }

    /// Makes room for `pos`, which is not resident: adapts the target on a
    /// ghost hit, evicts when the resident lists are full, and trims the ghost
    /// lists. Returns the list `pos` is to join: `T2` after a ghost hit,
    /// otherwise `T1`.
    fn make_room(&mut self, pos: Size, location: Option<BlockLocation>) -> (to: BlockLocation)
        requires
            old(self).inv(),
            pos < old(self).device().blocks().len(),
            location == (if old(self).locations().contains_key(pos) {
                Some(old(self).locations()[pos])
            } else {
                None
            }),
            location != Some(BlockLocation::T1),
            location != Some(BlockLocation::T2),
        ensures
            final(self).consistent(),
            final(self).blocks() == old(self).blocks(),
            final(self).spec_capacity() == old(self).spec_capacity(),
            !final(self).on_some_list(pos),
            !final(self).store().contains_key(pos),
            to == (if location is Some { BlockLocation::T2 } else { BlockLocation::T1 }),
            final(self).list(BlockLocation::T1).len() + final(self).list(BlockLocation::T2).len() + 1
                <= final(self).spec_capacity(),
            final(self).list(BlockLocation::T1).len() + (if to == BlockLocation::T1 { 1int } else { 0 })
                + final(self).list(BlockLocation::B1).len() <= final(self).spec_capacity(),
            final(self).list(BlockLocation::B1).len() + final(self).list(BlockLocation::B2).len()
                <= final(self).spec_capacity(),
            final(self).target() == old(self).adapted_target(pos),
            !old(self).is_full() ==> final(self).device() == old(self).device(),
            !old(self).is_full() ==> final(self).store() == old(self).store(),
            !old(self).is_full() ==> final(self).list(BlockLocation::T1) == old(self).list(BlockLocation::T1),
            !old(self).is_full() ==> final(self).list(BlockLocation::T2) == old(self).list(BlockLocation::T2),
            old(self).is_full() ==> ({
                let e = old(self).victim(final(self).target());
                &&& final(self).store() == old(self).store().remove(e)
                &&& final(self).device().blocks() == old(self).device_after_evict(e)
                &&& !old(self).store()[e].is_dirty ==> final(self).device() == old(self).device()
                &&& final(self).device().read_calls() == old(self).device().read_calls()
                &&& final(self).device().write_calls() == old(self).device().write_calls() + if old(self).store()[e].is_dirty { 1nat } else { 0 }
                &&& final(self).list(BlockLocation::T1) == old(self).list_after_evict(BlockLocation::T1, final(self).target())
                &&& final(self).list(BlockLocation::T2) == old(self).list_after_evict(BlockLocation::T2, final(self).target())
            }),
            final(self).target() as int == match location {
                Some(BlockLocation::B1) => {
                    let t = old(self).target() + adapt_step(
                        old(self).list(BlockLocation::B1).len(),
                        old(self).list(BlockLocation::B2).len(),
                    );
                    if t < old(self).spec_capacity() { t as int } else { old(self).spec_capacity() as int }
                },
                Some(BlockLocation::B2) => {
                    let t = old(self).target() - adapt_step(
                        old(self).list(BlockLocation::B2).len(),
                        old(self).list(BlockLocation::B1).len(),
                    );
                    if t > 0 { t } else { 0 }
                },
                _ => old(self).target() as int,
            },
    {
        let ghost pre = *self;
        let to = match location {
            Some(BlockLocation::B1) => {
                let delta = adapt(self.b1.len(), self.b2.len());
                self.page_map.remove(&pos);
                self.remove_from_list(&pos, BlockLocation::B1);
                proof {
                    assert(pre.list(BlockLocation::B1).contains(pos));
                    assert(self.list(BlockLocation::T1) == pre.list(BlockLocation::T1));
                    assert(self.list(BlockLocation::T2) == pre.list(BlockLocation::T2));
                    assert(self.list(BlockLocation::B1).len() <= pre.list(BlockLocation::B1).len());
                    assert(self.list(BlockLocation::B2).len() <= pre.list(BlockLocation::B2).len());
                    Self::lemma_drop_ghost(pre, *self, pos, BlockLocation::B1);
                }
                let t = self.p + delta;
                self.p = if t < self.capacity { t } else { self.capacity };
                BlockLocation::T2
            },
            Some(BlockLocation::B2) => {
                let delta = adapt(self.b2.len(), self.b1.len());
                self.page_map.remove(&pos);
                self.remove_from_list(&pos, BlockLocation::B2);
                proof {
                    assert(pre.list(BlockLocation::B2).contains(pos));
                    assert(self.list(BlockLocation::T1) == pre.list(BlockLocation::T1));
                    assert(self.list(BlockLocation::T2) == pre.list(BlockLocation::T2));
                    assert(self.list(BlockLocation::B1).len() <= pre.list(BlockLocation::B1).len());
                    assert(self.list(BlockLocation::B2).len() <= pre.list(BlockLocation::B2).len());
                    Self::lemma_drop_ghost(pre, *self, pos, BlockLocation::B2);
                }
                self.p = if self.p > delta { self.p - delta } else { 0 };
                BlockLocation::T2
            },
            _ => BlockLocation::T1,
        };
        let ghost mid = *self;
        proof {
            assert(mid.list(BlockLocation::T1) == pre.list(BlockLocation::T1));
            assert(mid.list(BlockLocation::T2) == pre.list(BlockLocation::T2));
        }
        if self.t1.len() + self.t2.len() >= self.capacity {
            self.evict();
        }
        let ghost mid2 = *self;
        self.trim_ghosts(if to == BlockLocation::T1 { 1 } else { 0 });
        proof {
            assert(!mid.on_some_list(pos));
            assert(!mid2.on_some_list(pos));
            assert(!self.on_resident_list(pos));
            if self.store().contains_key(pos) {
                assert(self.on_resident_list(pos));
            }
            assert(self.blocks() == pre.blocks()) by {
                assert(self.blocks() =~= mid2.blocks());
                assert(mid.blocks() =~= pre.blocks());
            }
        }
        to
    }

    /// Writes every dirty resident block back to the device and marks it clean.
    pub fn write_back(&mut self)
        requires
            old(self).inv(),
        ensures
            final(self).inv(),
            final(self).blocks() == old(self).blocks(),
            final(self).device().blocks() == old(self).blocks(),
            forall|l: BlockLocation| #[trigger] final(self).list(l) == old(self).list(l),
            final(self).target() == old(self).target(),
            final(self).spec_capacity() == old(self).spec_capacity(),
            final(self).store().dom() == old(self).store().dom(),
            forall|n: Size| #[trigger] final(self).store().contains_key(n) ==> !final(self).store()[n].is_dirty,
            final(self).device().read_calls() == old(self).device().read_calls(),
            final(self).device().write_calls() == old(self).device().write_calls() + dirty_in(
                old(self).list(BlockLocation::T1),
                old(self).store(),
            ) + dirty_in(old(self).list(BlockLocation::T2), old(self).store()),
    {
        let ghost s0 = self.store();
        let ghost w0 = self.device().write_calls();
        proof {
            assert(self.t1@.take(0) =~= Seq::<Size>::empty());
        }
        let mut i: usize = 0;
        while i < self.t1.len()
            invariant
                self.device().read_calls() == old(self).device().read_calls(),
                s0 == old(self).store(),
                w0 == old(self).device().write_calls(),
                self.device().write_calls() == w0 + dirty_in(self.t1@.take(i as int), s0),
                forall|j: int| i <= j < self.t1@.len() ==> #[trigger] self.store()[self.t1@[j]] == s0[self.t1@[j]],
                forall|j: int| 0 <= j < self.t2@.len() ==> #[trigger] self.store()[self.t2@[j]] == s0[self.t2@[j]],
                self.inv(),
                self.blocks() == old(self).blocks(),
                forall|l: BlockLocation| #[trigger] self.list(l) == old(self).list(l),
                self.target() == old(self).target(),
                self.spec_capacity() == old(self).spec_capacity(),
                self.store().dom() == old(self).store().dom(),
                i <= self.t1@.len(),
                forall|j: int| 0 <= j < i ==> !#[trigger] self.store()[self.t1@[j]].is_dirty,
            decreases self.t1@.len() - i,
        {
            let n = self.t1[i];
            proof {
                assert(self.list(BlockLocation::T1).contains(n));
                assert(self.store().contains_key(n));
            }
            let ghost before = *self;
            self.clean(n);
            proof {
                assert(before.store()[n] == s0[n]);
                assert(self.t1@.take(i + 1).drop_last() =~= self.t1@.take(i as int));
                assert forall|j: int| i + 1 <= j < self.t1@.len() implies #[trigger] self.store()[self.t1@[j]] == s0[self.t1@[j]] by {
                    assert(self.t1@[j] != n);
                    assert(self.list(BlockLocation::T1).contains(self.t1@[j]));
                    assert(before.on_resident_list(self.t1@[j]));
                    assert(before.store().contains_key(self.t1@[j]));
                    assert(before.store()[self.t1@[j]] == s0[self.t1@[j]]);
                }
                assert forall|j: int| 0 <= j < self.t2@.len() implies #[trigger] self.store()[self.t2@[j]] == s0[self.t2@[j]] by {
                    let x = self.t2@[j];
                    assert(self.list(BlockLocation::T2).contains(x));
                    assert(self.list(BlockLocation::T1).contains(n));
                    assert(self.locations()[x] == BlockLocation::T2);
                    assert(before.on_resident_list(x));
                    assert(before.store().contains_key(x));
                    assert(before.store()[x] == s0[x]);
                }
                assert forall|j: int| 0 <= j < i + 1 implies !#[trigger] self.store()[self.t1@[j]].is_dirty by {
                    if j < i {
                        assert(self.t1@[j] != n);
                        assert(self.list(BlockLocation::T1).contains(self.t1@[j]));
                        assert(before.on_resident_list(self.t1@[j]));
                        assert(before.store().contains_key(self.t1@[j]));
                    }
                }
            }
            i += 1;
        }
        proof {
            assert(self.t1@.take(self.t1@.len() as int) =~= self.t1@);
            assert(self.t2@.take(0) =~= Seq::<Size>::empty());
        }
        let mut i: usize = 0;
        while i < self.t2.len()
            invariant
                self.inv(),
                self.blocks() == old(self).blocks(),
                forall|l: BlockLocation| #[trigger] self.list(l) == old(self).list(l),
                self.target() == old(self).target(),
                self.spec_capacity() == old(self).spec_capacity(),
                self.store().dom() == old(self).store().dom(),
                i <= self.t2@.len(),
                self.device().read_calls() == old(self).device().read_calls(),
                s0 == old(self).store(),
                w0 == old(self).device().write_calls(),
                self.device().write_calls() == w0 + dirty_in(self.t1@, s0) + dirty_in(self.t2@.take(i as int), s0),
                forall|j: int| i <= j < self.t2@.len() ==> #[trigger] self.store()[self.t2@[j]] == s0[self.t2@[j]],
                forall|j: int| 0 <= j < self.t1@.len() ==> !#[trigger] self.store()[self.t1@[j]].is_dirty,
                forall|j: int| 0 <= j < i ==> !#[trigger] self.store()[self.t2@[j]].is_dirty,
            decreases self.t2@.len() - i,
        {
            let n = self.t2[i];
            proof {
                assert(self.list(BlockLocation::T2).contains(n));
                assert(self.store().contains_key(n));
            }
            let ghost before = *self;
            self.clean(n);
            proof {
                assert(before.store()[n] == s0[n]);
                assert(self.t2@.take(i + 1).drop_last() =~= self.t2@.take(i as int));
                assert forall|j: int| i + 1 <= j < self.t2@.len() implies #[trigger] self.store()[self.t2@[j]] == s0[self.t2@[j]] by {
                    assert(self.t2@[j] != n);
                    assert(self.list(BlockLocation::T2).contains(self.t2@[j]));
                    assert(before.on_resident_list(self.t2@[j]));
                    assert(before.store().contains_key(self.t2@[j]));
                    assert(before.store()[self.t2@[j]] == s0[self.t2@[j]]);
                }
                assert forall|j: int| 0 <= j < i + 1 implies !#[trigger] self.store()[self.t2@[j]].is_dirty by {
                    if j < i {
                        assert(self.t2@[j] != n);
                        assert(self.list(BlockLocation::T2).contains(self.t2@[j]));
                        assert(before.on_resident_list(self.t2@[j]));
                        assert(before.store().contains_key(self.t2@[j]));
                    }
                }
                assert forall|j: int| 0 <= j < self.t1@.len() implies !#[trigger] self.store()[self.t1@[j]].is_dirty by {
                    let x = self.t1@[j];
                    assert(self.list(BlockLocation::T1).contains(x));
                    assert(self.locations()[x] == BlockLocation::T1);
                    assert(self.locations()[n] == BlockLocation::T2);
                    assert(before.on_resident_list(x));
                    assert(before.store().contains_key(x));
                }
            }
            i += 1;
        }
        proof {
            assert(self.t2@.take(self.t2@.len() as int) =~= self.t2@);
            assert forall|n: Size| #[trigger] self.store().contains_key(n) implies !self.store()[n].is_dirty by {
                if self.t1@.contains(n) {
                    let j = choose|j: int| 0 <= j < self.t1@.len() && self.t1@[j] == n;
                    assert(!self.store()[self.t1@[j]].is_dirty);
                } else {
                    assert(self.list(BlockLocation::T2).contains(n));
                    let j = choose|j: int| 0 <= j < self.t2@.len() && self.t2@[j] == n;
                    assert(!self.store()[self.t2@[j]].is_dirty);
                }
            }
            assert(self.device().blocks() =~= self.blocks());
        }
    }

    /// Writes resident block `n` back if it is dirty and marks it clean.
    fn clean(&mut self, n: Size)
        requires
            old(self).inv(),
            old(self).store().contains_key(n),
        ensures
            final(self).inv(),
            final(self).blocks() == old(self).blocks(),
            forall|l: BlockLocation| #[trigger] final(self).list(l) == old(self).list(l),
            final(self).target() == old(self).target(),
            final(self).spec_capacity() == old(self).spec_capacity(),
            final(self).store().dom() == old(self).store().dom(),
            !final(self).store()[n].is_dirty,
            forall|k: Size| k != n && #[trigger] old(self).store().contains_key(k) ==> final(self).store()[k] == old(self).store()[k],
            final(self).device().read_calls() == old(self).device().read_calls(),
            final(self).device().write_calls() == old(self).device().write_calls() + if old(self).store()[n].is_dirty { 1nat } else { 0 },
    {
        let ghost pre = *self;
        let (data, dirty) = match self.data_store.get(&n) {
            Some(b) => (b.data, b.is_dirty),
            None => ([0u8; 1024], false),
        };
        if dirty {
            self.block_device.write(&data, n);
            self.data_store.insert(n, CacheBlock { data, is_dirty: false });
            proof {
                assert(self.store().dom() =~= pre.store().dom());
                assert forall|k: Size| #[trigger] self.store().contains_key(k) implies k < self.device().blocks().len() && (
                    !self.store()[k].is_dirty ==> self.store()[k].data@ == self.device().blocks()[k as int]) by {
                    assert(pre.store().contains_key(k));
                }
                assert forall|k: Size| #[trigger] self.store().contains_key(k) <==> self.on_resident_list(k) by {
                    assert(pre.store().contains_key(k) <==> pre.on_resident_list(k));
                }
                assert(self.blocks() =~= pre.blocks());
            }
        }
    }

    /// Sizes of the lists, the target, and the number of resident and dirty blocks.
    pub fn stats(&self) -> (r: CacheStats)
        requires
            self.inv(),
        ensures
            r.capacity == self.spec_capacity(),
            r.target == self.target(),
            r.t1 == self.list(BlockLocation::T1).len(),
            r.t2 == self.list(BlockLocation::T2).len(),
            r.b1 == self.list(BlockLocation::B1).len(),
            r.b2 == self.list(BlockLocation::B2).len(),
            r.resident == self.list(BlockLocation::T1).len() + self.list(BlockLocation::T2).len(),
            r.dirty == dirty_in(self.list(BlockLocation::T1), self.store()) + dirty_in(
                self.list(BlockLocation::T2),
                self.store(),
            ),
    {
        proof {
            assert forall|n: Size| #[trigger] self.t1@.contains(n) implies self.data_store@.contains_key(n) by {
                assert(self.list(BlockLocation::T1).contains(n));
                assert(self.on_resident_list(n));
                assert(self.store().contains_key(n));
            }
            assert forall|n: Size| #[trigger] self.t2@.contains(n) implies self.data_store@.contains_key(n) by {
                assert(self.list(BlockLocation::T2).contains(n));
                assert(self.on_resident_list(n));
                assert(self.store().contains_key(n));
            }
        }
        let d1 = count_dirty(&self.t1, &self.data_store);
        let d2 = count_dirty(&self.t2, &self.data_store);
        CacheStats {
            capacity: self.capacity,
            target: self.p,
            t1: self.t1.len(),
            t2: self.t2.len(),
            b1: self.b1.len(),
            b2: self.b2.len(),
            resident: self.t1.len() + self.t2.len(),
            dirty: d1 + d2,
        }
    }

    /// A dirty block that is evicted reaches the device with its cached bytes,
    /// in one write of that block alone: every other block of the device is
    /// left as it was.
    pub proof fn lemma_dirty_write_back(&self, pos: Size)
        requires
            self.inv(),
            self.store().contains_key(pos),
            self.store()[pos].is_dirty,
        ensures
            self.device_after_evict(pos) == self.device().blocks().update(pos as int, self.store()[pos].data@),
            self.device_after_evict(pos)[pos as int] == self.store()[pos].data@,
            forall|x: int| 0 <= x < self.device().blocks().len() && x != pos ==> #[trigger] self.device_after_evict(pos)[x]
                == self.device().blocks()[x],
    {
        assert(pos < self.device().blocks().len());
    }

    /// Every block number is on at most one of the four lists, and a block has
    /// an entry in the data store exactly when it is on `T1` or `T2`.
    pub proof fn lemma_lists_disjoint(&self, n: Size)
        requires
            self.inv(),
        ensures
            forall|a: BlockLocation, b: BlockLocation|
                self.list(a).contains(n) && self.list(b).contains(n) ==> a == b,
            self.store().contains_key(n) <==> (self.list(BlockLocation::T1).contains(n)
                || self.list(BlockLocation::T2).contains(n)),
            self.list(BlockLocation::T1).len() + self.list(BlockLocation::T2).len()
                <= self.spec_capacity(),
            self.list(BlockLocation::T1).len() + self.list(BlockLocation::T2).len()
                + self.list(BlockLocation::B1).len() + self.list(BlockLocation::B2).len()
                <= 2 * self.spec_capacity(),
    {
        assert forall|a: BlockLocation, b: BlockLocation|
            self.list(a).contains(n) && self.list(b).contains(n) implies a == b by {
            assert(self.locations()[n] == a);
        }
    }
}

impl<D: BlockOperations> BlockOperations for ArcCacheDisk<D> {
    /// Reads made on the cache itself.
    closed spec fn read_calls(&self) -> nat {
        self.reads@
    }

    /// Writes made on the cache itself.
    closed spec fn write_calls(&self) -> nat {
        self.writes@
    }

    /// What the device behind the cache holds durably.
    open spec fn durable(&self) -> Seq<Seq<u8>> {
        self.device().durable()
    }

    closed spec fn blocks(&self) -> Seq<Seq<u8>> {
        Seq::new(
            self.block_device.blocks().len(),
            |i: int|
                if self.data_store@.contains_key(i as Size) {
                    self.data_store@[i as Size].data@
                } else {
                    self.block_device.blocks()[i]
                },
        )
    }

    open spec fn ready(&self) -> bool {
        self.inv()
    }

    /// A hit promotes the block to the most recent end of `T2` and answers
    /// from the cache without touching the device. A miss adapts the target
    /// on a ghost hit, evicts when the cache is full, reads the block from
    /// the device and keeps it, clean, at the most recent end of `T2` after
    /// a ghost hit or of `T1` otherwise.
    fn read(&mut self, buf: &mut Block, pos: Size)
        ensures
            old(self).on_resident_list(pos) ==> final(self).device() == old(self).device(),
            old(self).on_resident_list(pos) ==> final(self).target() == old(self).target(),
            old(self).on_resident_list(pos) ==> final(self).list(BlockLocation::B1) == old(self).list(BlockLocation::B1),
            old(self).on_resident_list(pos) ==> final(self).list(BlockLocation::B2) == old(self).list(BlockLocation::B2),
            old(self).on_resident_list(pos) ==> final(self).list(BlockLocation::T2).len() > 0
                && final(self).list(BlockLocation::T2).last() == pos && !final(self).list(BlockLocation::T1).contains(pos),
            old(self).on_resident_list(pos) ==> forall|x: Size| x != pos ==> (#[trigger] final(self).list(BlockLocation::T1).contains(x)
                == old(self).list(BlockLocation::T1).contains(x) && final(self).list(BlockLocation::T2).contains(x)
                == old(self).list(BlockLocation::T2).contains(x)),
            old(self).on_resident_list(pos) ==> final(self).store() == old(self).store(),
            old(self).on_resident_list(pos) ==> final(buf)@ == old(self).store()[pos].data@,
            ({
                let to = if old(self).locations().contains_key(pos) { BlockLocation::T2 } else { BlockLocation::T1 };
                let other = if to == BlockLocation::T1 { BlockLocation::T2 } else { BlockLocation::T1 };
                let p = old(self).adapted_target(pos);
                let e = old(self).victim(p);
                !old(self).on_resident_list(pos) ==> {
                    &&& final(self).target() == p
                    &&& final(self).list(to) == (if old(self).is_full() {
                        old(self).list_after_evict(to, p)
                    } else {
                        old(self).list(to)
                    }).push(pos)
                    &&& final(self).list(other) == (if old(self).is_full() {
                        old(self).list_after_evict(other, p)
                    } else {
                        old(self).list(other)
                    })
                    &&& !final(self).list(BlockLocation::B1).contains(pos)
                    &&& !final(self).list(BlockLocation::B2).contains(pos)
                    &&& final(self).store().remove(pos) == (if old(self).is_full() {
                        old(self).store().remove(e)
                    } else {
                        old(self).store()
                    })
                    &&& final(self).store().contains_key(pos)
                    &&& final(self).device().blocks() == (if old(self).is_full() {
                        old(self).device_after_evict(e)
                    } else {
                        old(self).device().blocks()
                    })
                    &&& final(self).device().write_calls() == old(self).device().write_calls() + (if old(self).is_full()
                        && old(self).store()[e].is_dirty { 1nat } else { 0 })
                }
            }),
            final(self).spec_capacity() == old(self).spec_capacity(),
            !old(self).on_resident_list(pos) ==> !final(self).store()[pos].is_dirty
                && final(self).store()[pos].data@ == old(self).device().blocks()[pos as int],
            !old(self).on_resident_list(pos) ==> final(buf)@ == old(self).device().blocks()[pos as int],
            !old(self).on_resident_list(pos) ==> final(self).device().read_calls() == old(self).device().read_calls() + 1,
    {
        let ghost pre = *self;
        let ghost r0 = self.reads@;
        let ghost w0 = self.writes@;
        let location = self.location(pos);
        match location {
            Some(BlockLocation::T1) | Some(BlockLocation::T2) => {
                // Hit: promote to the most recent end of T2.
                let loc = location.unwrap();
                proof {
                    assert(self.list(loc).contains(pos));
                }
                self.move_page(&pos, loc, BlockLocation::T2);
                proof {
                    Self::lemma_moved(pre, *self, pos);
                    assert(self.blocks() =~= pre.blocks());
                }
                match self.data_store.get(&pos) {
                    Some(b) => {
                        *buf = b.data;
                    },
                    None => {},
                }
                self.reads = Ghost(r0 + 1);
                self.writes = Ghost(w0);
                return;
            },
            _ => {},
        }
        proof {
            assert(!pre.store().contains_key(pos));
        }
        let to = self.make_room(pos, location);
        let ghost mid0 = *self;
        self.block_device.read(buf, pos);
        let ghost mid = *self;
        proof {
            Self::lemma_device_same(mid0, mid);
        }
        let b = CacheBlock { data: *buf, is_dirty: false };
        self.data_store.insert(pos, b);
        proof {
            assert(!mid.list(to).contains(pos));
        }
        self.add_to_mru(&pos, to);
        proof {
            assert(self.list(BlockLocation::B1) == mid.list(BlockLocation::B1));
            assert(self.list(BlockLocation::B2) == mid.list(BlockLocation::B2));
            assert(self.list(BlockLocation::T1) == if to == BlockLocation::T1 { mid.list(BlockLocation::T1).push(pos) } else { mid.list(BlockLocation::T1) });
            assert(self.list(BlockLocation::T2) == if to == BlockLocation::T2 { mid.list(BlockLocation::T2).push(pos) } else { mid.list(BlockLocation::T2) });
            Self::lemma_install(mid, *self, pos, to, b);
            assert(mid.blocks()[pos as int] == mid.device().blocks()[pos as int]);
            assert(self.blocks() =~= pre.blocks());
        }
        self.reads = Ghost(r0 + 1);
        self.writes = Ghost(w0);
    }

    fn write(&mut self, buf: &Block, pos: Size)
        ensures
            old(self).on_resident_list(pos) ==> final(self).device() == old(self).device(),
            old(self).on_resident_list(pos) ==> final(self).target() == old(self).target(),
            old(self).on_resident_list(pos) ==> final(self).list(BlockLocation::B1) == old(self).list(BlockLocation::B1),
            old(self).on_resident_list(pos) ==> final(self).list(BlockLocation::B2) == old(self).list(BlockLocation::B2),
            old(self).on_resident_list(pos) ==> final(self).list(BlockLocation::T2).len() > 0
                && final(self).list(BlockLocation::T2).last() == pos && !final(self).list(BlockLocation::T1).contains(pos),
            old(self).on_resident_list(pos) ==> forall|x: Size| x != pos ==> (#[trigger] final(self).list(BlockLocation::T1).contains(x)
                == old(self).list(BlockLocation::T1).contains(x) && final(self).list(BlockLocation::T2).contains(x)
                == old(self).list(BlockLocation::T2).contains(x)),
            old(self).on_resident_list(pos) ==> final(self).store() == old(self).store().insert(pos, CacheBlock { data: *buf, is_dirty: true }),
            ({
                let to = if old(self).locations().contains_key(pos) { BlockLocation::T2 } else { BlockLocation::T1 };
                let other = if to == BlockLocation::T1 { BlockLocation::T2 } else { BlockLocation::T1 };
                let p = old(self).adapted_target(pos);
                let e = old(self).victim(p);
                !old(self).on_resident_list(pos) ==> {
                    &&& final(self).target() == p
                    &&& final(self).list(to) == (if old(self).is_full() {
                        old(self).list_after_evict(to, p)
                    } else {
                        old(self).list(to)
                    }).push(pos)
                    &&& final(self).list(other) == (if old(self).is_full() {
                        old(self).list_after_evict(other, p)
                    } else {
                        old(self).list(other)
                    })
                    &&& !final(self).list(BlockLocation::B1).contains(pos)
                    &&& !final(self).list(BlockLocation::B2).contains(pos)
                    &&& final(self).store().remove(pos) == (if old(self).is_full() {
                        old(self).store().remove(e)
                    } else {
                        old(self).store()
                    })
                    &&& final(self).store().contains_key(pos)
                    &&& final(self).device().blocks() == (if old(self).is_full() {
                        old(self).device_after_evict(e)
                    } else {
                        old(self).device().blocks()
                    })
                    &&& final(self).device().write_calls() == old(self).device().write_calls() + (if old(self).is_full()
                        && old(self).store()[e].is_dirty { 1nat } else { 0 })
                }
            }),
            final(self).spec_capacity() == old(self).spec_capacity(),
            !old(self).on_resident_list(pos) ==> final(self).store()[pos] == (CacheBlock { data: *buf, is_dirty: true }),
            !old(self).on_resident_list(pos) && !old(self).is_full() ==> final(self).device() == old(self).device(),
            final(self).device().read_calls() == old(self).device().read_calls(),
    {
        let ghost pre = *self;
        let ghost r0 = self.reads@;
        let ghost w0 = self.writes@;
        let location = self.location(pos);
        match location {
            Some(BlockLocation::T1) | Some(BlockLocation::T2) => {
                // Hit: overwrite in place, mark dirty, promote.
                let loc = location.unwrap();
                proof {
                    assert(self.list(loc).contains(pos));
                }
                self.data_store.insert(pos, CacheBlock { data: *buf, is_dirty: true });
                let ghost mid = *self;
                proof {
                    assert(mid.store().dom() =~= pre.store().dom());
                    assert forall|k: Size| #[trigger] mid.store().contains_key(k) implies k < mid.device().blocks().len() && (
                        !mid.store()[k].is_dirty ==> mid.store()[k].data@ == mid.device().blocks()[k as int]) by {
                        assert(pre.store().contains_key(k));
                    }
                    assert forall|k: Size| #[trigger] mid.store().contains_key(k) <==> mid.on_resident_list(k) by {
                        assert(pre.store().contains_key(k) <==> pre.on_resident_list(k));
                    }
                }
                self.move_page(&pos, loc, BlockLocation::T2);
                proof {
                    Self::lemma_moved(mid, *self, pos);
                    assert(self.blocks() =~= pre.blocks().update(pos as int, buf@));
                }
                self.reads = Ghost(r0);
                self.writes = Ghost(w0 + 1);
                return;
            },
            _ => {},
        }
        proof {
            assert(!pre.store().contains_key(pos));
        }
        let to = self.make_room(pos, location);
        let ghost mid = *self;
        let b = CacheBlock { data: *buf, is_dirty: true };
        self.data_store.insert(pos, b);
        proof {
            assert(!mid.list(to).contains(pos));
        }
        self.add_to_mru(&pos, to);
        proof {
            assert(self.list(BlockLocation::B1) == mid.list(BlockLocation::B1));
            assert(self.list(BlockLocation::B2) == mid.list(BlockLocation::B2));
            assert(self.list(BlockLocation::T1) == if to == BlockLocation::T1 { mid.list(BlockLocation::T1).push(pos) } else { mid.list(BlockLocation::T1) });
            assert(self.list(BlockLocation::T2) == if to == BlockLocation::T2 { mid.list(BlockLocation::T2).push(pos) } else { mid.list(BlockLocation::T2) });
            Self::lemma_install(mid, *self, pos, to, b);
            assert(self.blocks() =~= old(self).blocks().update(pos as int, buf@));
        }
        self.reads = Ghost(r0);
        self.writes = Ghost(w0 + 1);
    }

    fn flush(&mut self)
        ensures
            final(self).device().blocks() == old(self).blocks(),
            forall|l: BlockLocation| #[trigger] final(self).list(l) == old(self).list(l),
            final(self).target() == old(self).target(),
            final(self).store().dom() == old(self).store().dom(),
            forall|n: Size| #[trigger] final(self).store().contains_key(n) ==> !final(self).store()[n].is_dirty
                && final(self).store()[n].data@ == old(self).store()[n].data@,
            final(self).device().read_calls() == old(self).device().read_calls(),
            final(self).device().write_calls() == old(self).device().write_calls() + dirty_in(
                old(self).list(BlockLocation::T1),
                old(self).store(),
            ) + dirty_in(old(self).list(BlockLocation::T2), old(self).store()),
    {
        let ghost r0 = self.reads@;
        let ghost w0 = self.writes@;
        self.write_back();
        self.block_device.flush();
        proof {
            assert forall|k: Size| #[trigger] self.store().contains_key(k) implies k < self.device().blocks().len() && (
                !self.store()[k].is_dirty ==> self.store()[k].data@ == self.device().blocks()[k as int]) by {
            }
            assert(self.blocks() =~= old(self).blocks());
        }
        self.reads = Ghost(r0);
        self.writes = Ghost(w0);
    }
}

} // verus!
