//! The file system as a whole: the device stack, the open-inode table and
//! the free map, wired together for path and byte operations on a flat root
//! directory.
use vstd::prelude::*;

use crate::block::{Block, BlockDevice, BlockManager, BlockOperations, DeviceType};
use crate::buffer_cache::ArcCacheDisk;
use crate::directory::{
    dir_lookup, first_free_slot, listing, entry_count, padded_name, used_keys, valid_name, Dir,
};
use crate::free_map::{first_free, FreeMap, FREE_MAP_INODE, ROOT_INODE};
use crate::inode::{
    grow_need, blocks_for, check_marked, check_tree, content, holds_inode, index_count, lemma_holds_inode_unique, overwrite,
    transfer_len, tree_marked, tree_ok, InodeDisk, InodeManager, MAX_BLOCKS,
};
use crate::vfile::VFile;
use crate::{Ofs, Size};

use vstd::string::StringSliceAdditionalSpecFns;

verus! {

/// Whether a cache sits between the file system and the device.
pub enum BufferCacheStrategy {
    /// Reads and writes go straight to the device.
    NoCache,
    Arc { capacity: usize },
}

/// The device the file system works on: the raw device, or a cache in front of it.
pub enum DiskStack<D: BlockOperations> {
    Direct(D),
    Cached(ArcCacheDisk<D>),
}

impl<D: BlockOperations> BlockOperations for DiskStack<D> {
    open spec fn blocks(&self) -> Seq<Seq<u8>> {
        match self {
            DiskStack::Direct(d) => d.blocks(),
            DiskStack::Cached(c) => c.blocks(),
        }
    }

    open spec fn ready(&self) -> bool {
        match self {
            DiskStack::Direct(d) => d.ready(),
            DiskStack::Cached(c) => c.ready(),
        }
    }

    open spec fn read_calls(&self) -> nat {
        match self {
            DiskStack::Direct(d) => d.read_calls(),
            DiskStack::Cached(c) => c.read_calls(),
        }
    }

    open spec fn write_calls(&self) -> nat {
        match self {
            DiskStack::Direct(d) => d.write_calls(),
            DiskStack::Cached(c) => c.write_calls(),
        }
    }

    open spec fn durable(&self) -> Seq<Seq<u8>> {
        match self {
            DiskStack::Direct(d) => d.durable(),
            DiskStack::Cached(c) => c.durable(),
        }
    }

    fn read(&mut self, buf: &mut Block, pos: Size) {
        match self {
            DiskStack::Direct(d) => d.read(buf, pos),
            DiskStack::Cached(c) => c.read(buf, pos),
        }
    }

    fn write(&mut self, buf: &Block, pos: Size) {
        match self {
            DiskStack::Direct(d) => d.write(buf, pos),
            DiskStack::Cached(c) => c.write(buf, pos),
        }
    }

    fn flush(&mut self)
        ensures
            *final(self) matches DiskStack::Cached(c) ==> c.device().blocks() == old(self).blocks()
                && forall|n: Size| #[trigger] c.store().contains_key(n) ==> !c.store()[n].is_dirty,
            (*old(self) is Cached) == (*final(self) is Cached),
    {
        match self {
            DiskStack::Direct(d) => d.flush(),
            DiskStack::Cached(c) => c.flush(),
        }
    }
}

/// The inode record held in block `ROOT_INODE` of `disk`.
pub open spec fn root_record(disk: Seq<Seq<u8>>) -> InodeDisk {
    choose|d: InodeDisk| holds_inode(disk[ROOT_INODE as int], d)
}

/// The inode record held in block `i` of `disk`.
pub open spec fn record_at(disk: Seq<Seq<u8>>, i: Size) -> InodeDisk {
    choose|d: InodeDisk| holds_inode(disk[i as int], d)
}

/// The file whose inode is block `i` has a sound index on `disk`.
pub open spec fn file_sound(disk: Seq<Seq<u8>>, i: Size) -> bool {
    i < disk.len() && tree_ok(record_at(disk, i), disk, i)
}

proof fn lemma_record_at(disk: Seq<Seq<u8>>, i: Size, d: InodeDisk)
    requires
        holds_inode(disk[i as int], d),
    ensures
        record_at(disk, i) == d,
{
    lemma_holds_inode_unique(disk[i as int], d, record_at(disk, i));
}

/// The root directory's content on `disk`.
pub open spec fn root_bytes(disk: Seq<Seq<u8>>) -> Seq<u8> {
    content(root_record(disk), disk)
}

/// The root directory's index is sound and marked in `bits`, and its
/// length is a whole number of records.
pub open spec fn root_sound(disk: Seq<Seq<u8>>, bits: Seq<bool>) -> bool {
    &&& ROOT_INODE < disk.len()
    &&& tree_ok(root_record(disk), disk, ROOT_INODE)
    &&& tree_marked(root_record(disk), disk, ROOT_INODE, bits)
    &&& root_bytes(disk).len() % 25 == 0
}

proof fn lemma_root_record(disk: Seq<Seq<u8>>, d: InodeDisk)
    requires
        holds_inode(disk[ROOT_INODE as int], d),
    ensures
        root_record(disk) == d,
{
    lemma_holds_inode_unique(disk[ROOT_INODE as int], d, root_record(disk));
}

/// A file system: devices by role, open inodes, and the free map.
pub struct Filesys<D: BlockOperations> {
    inodes: InodeManager,
    block_devs: BlockManager<DiskStack<D>>,
    free_map: Option<FreeMap>,
}

impl<D: BlockOperations> Filesys<D> {
    pub closed spec fn has_disk(&self) -> bool {
        self.block_devs.slot(DeviceType::Disk) is Some
    }

    /// The device's contents, as the file system sees them.
    pub closed spec fn blocks(&self) -> Seq<Seq<u8>> {
        self.block_devs.slot(DeviceType::Disk)->0@
    }

    /// The free map's bits.
    pub closed spec fn free_bits(&self) -> Seq<bool> {
        self.free_map->0@
    }

    pub closed spec fn devices_ok(&self) -> bool {
        self.block_devs.wf()
    }

    /// The registered device stack.
    pub closed spec fn stack(&self) -> DiskStack<D> {
        self.block_devs.slot(DeviceType::Disk)->0.device()
    }

    /// Reads and writes counted on the registered device.
    pub closed spec fn device_reads(&self) -> nat {
        self.block_devs.slot(DeviceType::Disk)->0.reads()
    }

    pub closed spec fn device_writes(&self) -> nat {
        self.block_devs.slot(DeviceType::Disk)->0.writes()
    }

    pub closed spec fn has_free_map(&self) -> bool {
        self.free_map is Some
    }

    pub closed spec fn table(&self) -> InodeManager {
        self.inodes
    }

    /// A device is registered, the free map covers it, every open inode's
    /// block is in use, and the root directory is not held open.
    pub closed spec fn ready(&self) -> bool {
        &&& self.inodes.wf()
        &&& self.block_devs.wf()
        &&& self.has_disk()
        &&& self.free_map matches Some(fm) && fm.wf() && fm@.len() == self.blocks().len()
        &&& self.inodes.inumbers_marked(self.free_bits())
        &&& !self.inodes.has(ROOT_INODE)
        &&& self.blocks().len() >= 2
        &&& self.free_bits()[ROOT_INODE as int]
        &&& self.free_bits()[FREE_MAP_INODE as int]
    }

    /// What readiness gives callers: the free map covers the device, and
    /// the two reserved inode blocks are in use.
    pub proof fn lemma_ready(&self)
        requires
            self.ready(),
        ensures
            self.free_bits().len() == self.blocks().len(),
            self.blocks().len() >= 2,
            self.free_bits()[ROOT_INODE as int],
            self.free_bits()[FREE_MAP_INODE as int],
    {
    }

    /// A file system with no device and no free map.
    pub fn init() -> (r: Self)
        ensures
            !r.has_disk(),
            r.devices_ok(),
            !r.has_free_map(),
            r.table().wf(),
            forall|b: Size| !r.table().has(b),
    {
        Filesys { inodes: InodeManager::init(), block_devs: BlockManager::init(), free_map: None }
    }

    /// Registers `disk`, of `disk_block_count` blocks, as the file system's
    /// device, behind a cache when `cache_strategy` asks for one.
    pub fn new_disk(&mut self, disk: D, disk_block_count: Size, cache_strategy: BufferCacheStrategy)
        requires
            !old(self).has_disk(),
            disk.ready(),
            disk.blocks().len() == disk_block_count,
            cache_strategy matches BufferCacheStrategy::Arc { capacity } ==> 0 < capacity <= usize::MAX / 4,
        ensures
            final(self).has_disk(),
            final(self).devices_ok(),
            final(self).blocks() == disk.blocks(),
            final(self).table() == old(self).table(),
            final(self).has_free_map() == old(self).has_free_map(),
            final(self).device_reads() == 0,
            final(self).device_writes() == 0,
            cache_strategy is NoCache ==> final(self).stack() == DiskStack::Direct(disk),
            cache_strategy matches BufferCacheStrategy::Arc { capacity } ==> (final(self).stack() matches DiskStack::Cached(c)
                && c.device() == disk && c.spec_capacity() == capacity && c.target() == 0 && c.store().is_empty()
                && c.locations().is_empty()),
    {
        match cache_strategy {
            BufferCacheStrategy::NoCache => {
                self.block_devs.register("DISK", disk_block_count, DiskStack::Direct(disk), DeviceType::Disk);
            },
            BufferCacheStrategy::Arc { capacity } => {
                let cached = ArcCacheDisk::new(disk, capacity);
                self.block_devs.register("DISK", disk_block_count, DiskStack::Cached(cached), DeviceType::Disk);
            },
        }
    }

    /// Registers an existing device of `disk_block_count` blocks, without a
    /// cache. Its free map is not read back: `init_free_map` starts a fresh one.
    pub fn load_disk(&mut self, disk: D, disk_block_count: Size)
        requires
            !old(self).has_disk(),
            disk.ready(),
            disk.blocks().len() == disk_block_count,
        ensures
            final(self).has_disk(),
            final(self).devices_ok(),
            final(self).blocks() == disk.blocks(),
            final(self).table() == old(self).table(),
            final(self).has_free_map() == old(self).has_free_map(),
            final(self).device_reads() == 0,
            final(self).device_writes() == 0,
            final(self).stack() == DiskStack::Direct(disk),
    {
        self.block_devs.register("DISK", disk_block_count, DiskStack::Direct(disk), DeviceType::Disk);
    }

    /// Starts the free map: one bit per device block, with only the root
    /// directory's and the free map's inode blocks in use.
    pub fn init_free_map(&mut self)
        requires
            old(self).has_disk(),
            old(self).devices_ok(),
            !old(self).has_free_map(),
            old(self).table().wf(),
            forall|b: Size| !old(self).table().has(b),
            old(self).blocks().len() >= 2,
            (old(self).blocks().len() + 31) / 32 <= usize::MAX,
        ensures
            final(self).ready(),
            final(self).blocks() == old(self).blocks(),
            final(self).free_bits().len() == final(self).blocks().len(),
            forall|i: int| 0 <= i < final(self).blocks().len() ==> #[trigger] final(self).free_bits()[i] == (i == ROOT_INODE || i == FREE_MAP_INODE),
    {
        let disk = self.block_devs.get_by_role(DeviceType::Disk).unwrap();
        let block_count = disk.max_size();
        let inode = self.inodes.open_inode(FREE_MAP_INODE, disk);
        let file = VFile::open(inode);
        self.free_map = Some(FreeMap::init(file, block_count));
        proof {
            assert forall|b: Size| #[trigger] self.inodes.has(b) implies b < self.free_bits().len() && self.free_bits()[b as int] by {
                assert(b == FREE_MAP_INODE);
            }
        }
    }

    /// Opens the root directory and checks it: its index must be sound and
    /// marked in the free map, and its length a whole number of records.
    fn open_checked_root(&mut self) -> (r: Option<Dir>)
        requires
            old(self).ready(),
        ensures
            final(self).blocks() == old(self).blocks(),
            final(self).free_map == old(self).free_map,
            final(self).block_devs.wf(),
            final(self).has_disk(),
            final(self).inodes.wf(),
            final(self).inodes.inumbers_marked(final(self).free_bits()),
            forall|b: Size| b != ROOT_INODE ==> (#[trigger] final(self).inodes.has(b) == old(self).inodes.has(b)),
            forall|b: Size| b != ROOT_INODE && old(self).inodes.has(b) ==> #[trigger] final(self).inodes.entry(b) == old(self).inodes.entry(b),
            r is None ==> !final(self).inodes.has(ROOT_INODE),
            r is Some <==> root_sound(old(self).blocks(), old(self).free_bits()),
            r matches Some(dir) ==> {
                &&& dir.inumber() == ROOT_INODE
                &&& dir.ready(final(self).inodes, final(self).blocks())
                &&& final(self).inodes.entry(ROOT_INODE).opens() == 1
                &&& final(self).inodes.entry(ROOT_INODE).spec_data() == root_record(old(self).blocks())
                &&& holds_inode(old(self).blocks()[ROOT_INODE as int], root_record(old(self).blocks()))
                &&& tree_marked(root_record(old(self).blocks()), old(self).blocks(), ROOT_INODE, old(self).free_bits())
                &&& dir.bytes(final(self).inodes, final(self).blocks()) == root_bytes(old(self).blocks())
                &&& root_bytes(old(self).blocks()).len() % 25 == 0
            },
    {
        let disk = self.block_devs.get_by_role(DeviceType::Disk).unwrap();
        let dir = Dir::open_root(&mut self.inodes, disk);
        let d = self.inodes.get(ROOT_INODE).unwrap().record();
        let fm = self.free_map.as_ref().unwrap();
        proof {
            fm.lemma_bounded();
            lemma_root_record(disk@, d);
        }
        if !check_tree(&d, ROOT_INODE, disk) || !check_marked(&d, ROOT_INODE, disk, fm) || d.len % 25 != 0 {
            dir.close(&mut self.inodes);
            return None;
        }
        Some(dir)
    }

    /// Creates a file of `length` bytes named `path` in the root directory.
    /// Fails when the root directory is damaged, the name is not valid or
    /// is taken, the file is too large, or the device is too full; a failed
    /// call leaves the directory and the free map as they were.
    #[verifier::rlimit(100)]
    pub fn create_file(&mut self, path: &str, length: Size) -> (r: bool)
        requires
            old(self).ready(),
        ensures
            final(self).ready(),
            final(self).blocks().len() == old(self).blocks().len(),
            ({
                let c = root_bytes(old(self).blocks());
                let c2 = root_bytes(final(self).blocks());
                let key = padded_name(path.spec_bytes());
                &&& r ==> valid_name(path.spec_bytes()) && dir_lookup(c, key) is None
                &&& r ==> used_keys(c2) == used_keys(c).insert(key)
                &&& r ==> dir_lookup(c2, key) is Some
                &&& r ==> listing(c2, entry_count(c2)).len() == listing(c, entry_count(c)).len() + 1
                &&& !r ==> final(self).free_bits() == old(self).free_bits()
                &&& !r ==> used_keys(c2) == used_keys(c) && c2 == c
                &&& root_sound(old(self).blocks(), old(self).free_bits()) && valid_name(path.spec_bytes())
                    && dir_lookup(c, key) is None && first_free_slot(c, entry_count(c)) is Some
                    && blocks_for(length as int) <= MAX_BLOCKS
                    && first_free(old(self).free_bits(), old(self).free_bits().len() as int).len()
                        >= 1 + blocks_for(length as int) + index_count(blocks_for(length as int)) ==> r
                &&& root_sound(old(self).blocks(), old(self).free_bits()) && valid_name(path.spec_bytes())
                    && dir_lookup(c, key) is None && first_free_slot(c, entry_count(c)) is None
                    && blocks_for(length as int) <= MAX_BLOCKS
                    && first_free(old(self).free_bits(), old(self).free_bits().len() as int).len()
                        >= 1 + blocks_for(length as int) + index_count(blocks_for(length as int))
                    && (blocks_for(c.len() as int + 25) <= blocks_for(c.len() as int) || (blocks_for(c.len() as int + 25) <= MAX_BLOCKS
                        && first_free(old(self).free_bits(), old(self).free_bits().len() as int).len()
                        >= 1 + blocks_for(length as int) + index_count(blocks_for(length as int)) + grow_need(
                        c.len() as int,
                        c.len() as int + 25,
                    ))) ==> r
                &&& r ==> first_free(old(self).free_bits(), old(self).free_bits().len() as int).len()
                    >= 1 + blocks_for(length as int) + index_count(blocks_for(length as int))
                &&& r ==> root_sound(final(self).blocks(), final(self).free_bits())
                &&& r ==> {
                    let i = dir_lookup(c2, key)->0;
                    &&& dir_lookup(c2, key) is Some
                    &&& i != ROOT_INODE
                    &&& i != FREE_MAP_INODE
                    &&& i < final(self).blocks().len()
                    &&& final(self).free_bits()[i as int]
                    &&& !final(self).table().has(i)
                    &&& file_sound(final(self).blocks(), i)
                    &&& record_at(final(self).blocks(), i).len == length
                }
            }),
    {
        let ghost blocks0 = self.blocks();
        let ghost bits0 = self.free_bits();
        let dir = match self.open_checked_root() {
            Some(dir) => dir,
            None => {
                return false;
            },
        };
        let ghost d_root = root_record(blocks0);
        let disk = self.block_devs.get_by_role(DeviceType::Disk).unwrap();
        if !Dir::is_valid_name(path) {
            dir.close(&mut self.inodes);
            return false;
        }
        if dir.open_file(&self.inodes, path, disk).is_some() {
            dir.close(&mut self.inodes);
            return false;
        }
        let fm = self.free_map.as_mut().unwrap();
        proof {
            fm.lemma_bounded();
        }
        let inum = match self.inodes.create_inode(length, disk, fm) {
            Some(i) => i,
            None => {
                dir.close(&mut self.inodes);
                return false;
            },
        };
        let ghost disk1 = disk@;
        let ghost bits1 = fm@;
        let ghost inodes_c = self.inodes;
        proof {
            crate::free_map::lemma_first_free(bits0, bits0.len() as int);
            let free = crate::free_map::first_free(bits0, bits0.len() as int);
            let n = crate::inode::blocks_for(length as int);
            let need = 1 + n + crate::inode::index_count(n);
            let fresh = free.take(need);
            assert forall|x: Size| x < blocks0.len() && bits0[x as int] && x != ROOT_INODE implies #[trigger] disk1[x as int] == blocks0[x as int] by {
                if fresh.contains(x) {
                    let k = choose|k: int| 0 <= k < fresh.len() && fresh[k] == x;
                    assert(!bits0[free[k] as int]);
                }
            }
            assert(disk1[ROOT_INODE as int] == blocks0[ROOT_INODE as int]) by {
                if fresh.contains(ROOT_INODE) {
                    let k = choose|k: int| 0 <= k < fresh.len() && fresh[k] == ROOT_INODE;
                    assert(!bits0[free[k] as int]);
                }
            }
            crate::inode::lemma_tree_stable(d_root, blocks0, disk1, ROOT_INODE, bits0, bits1);
            assert(inum != ROOT_INODE);
            crate::free_map::lemma_first_free_after_take(bits0, bits1, need);
            assert(bits1[ROOT_INODE as int]);
        }
        if !dir.add(&mut self.inodes, path, inum, fm, disk) {
            proof {
                assert(self.inodes.has(inum));
                assert(self.inodes.entry(inum) == inodes_c.entry(inum));
            }
            self.inodes.release_inode(inum, fm, disk);
            dir.close(&mut self.inodes);
            proof {
                let free = crate::free_map::first_free(bits0, bits0.len() as int);
                let n = crate::inode::blocks_for(length as int);
                let need = 1 + n + crate::inode::index_count(n);
                let fresh = free.take(need);
                assert forall|i: int| 0 <= i < bits0.len() implies #[trigger] fm@[i] == bits0[i] by {
                    if fresh.contains(i as Size) {
                        let k = choose|k: int| 0 <= k < fresh.len() && fresh[k] == i as Size;
                        assert(!bits0[free[k] as int]);
                    }
                }
                assert(fm@ =~= bits0);
                lemma_root_record(disk@, d_root);
            }
            return false;
        }
        let ghost disk2 = disk@;
        let ghost bits2 = fm@;
        proof {
            lemma_root_record(disk2, self.inodes.entry(ROOT_INODE).spec_data());
            let free = crate::free_map::first_free(bits0, bits0.len() as int);
            let n = crate::inode::blocks_for(length as int);
            let need = 1 + n + crate::inode::index_count(n);
            let fresh = free.take(need);
            let d_file = inodes_c.entry(inum).spec_data();
            assert forall|x: Size| fresh.contains(x) implies #[trigger] disk2[x as int] == disk1[x as int] by {
                let k = choose|k: int| 0 <= k < fresh.len() && fresh[k] == x;
                assert(!bits0[free[k] as int]);
                assert(bits1[x as int]);
                if crate::inode::is_index_block(d_root, disk1, x) {
                    assert(crate::inode::is_index_block(d_root, blocks0, x));
                }
                if crate::inode::file_blocks(d_root, disk1).contains(x) {
                    let j = choose|j: int| 0 <= j < crate::inode::file_blocks(d_root, blocks0).len()
                        && crate::inode::file_blocks(d_root, blocks0)[j] == x;
                    assert(bits0[crate::inode::data_block(d_root, blocks0, j) as int]);
                }
            }
            assert(fresh.contains(inum)) by {
                assert(fresh[0] == inum);
            }
            lemma_record_at(disk2, inum, d_file);
            assert forall|b: Size| crate::inode::is_index_block(d_file, disk1, b) implies disk1[b as int] == disk2[b as int] by {
                assert(fresh.contains(b));
            }
            crate::inode::lemma_tree_ok_stable(d_file, disk1, disk2, inum);
            assert(bits2[inum as int]);
            assert(bits0[FREE_MAP_INODE as int]);
            assert(bits2[ROOT_INODE as int] && bits2[FREE_MAP_INODE as int]);
        }
        self.inodes.close(inum);
        dir.close(&mut self.inodes);
        true
    }


    /// Opens the file named `path` in the root directory, with its cursor at
    /// the start. Gives nothing when the root directory is damaged, the name
    /// is not valid or not found, or names a reserved inode.
    pub fn open_file(&mut self, path: &str) -> (r: Option<VFile>)
        requires
            old(self).ready(),
        ensures
            final(self).ready(),
            final(self).blocks() == old(self).blocks(),
            final(self).free_bits() == old(self).free_bits(),
            r matches Some(f) ==> {
                &&& valid_name(path.spec_bytes())
                &&& dir_lookup(root_bytes(old(self).blocks()), padded_name(path.spec_bytes())) == Some(f.spec_inumber())
                &&& f.spec_pos() == 0
                &&& final(self).table().has(f.spec_inumber())
            },
            !valid_name(path.spec_bytes()) ==> r is None,
            r is Some && !old(self).table().has(r->0.spec_inumber()) && file_sound(old(self).blocks(), r->0.spec_inumber())
                ==> r->0.ready(final(self).table(), final(self).blocks()),
            r is Some && !old(self).table().has(r->0.spec_inumber()) ==> final(self).table().has(r->0.spec_inumber())
                && final(self).table().entry(r->0.spec_inumber()).spec_data() == record_at(old(self).blocks(), r->0.spec_inumber())
                && final(self).table().entry(r->0.spec_inumber()).opens() == 1,
            r is Some && old(self).table().has(r->0.spec_inumber()) ==> final(self).table().entry(r->0.spec_inumber()).spec_data()
                == old(self).table().entry(r->0.spec_inumber()).spec_data() && final(self).table().entry(
                r->0.spec_inumber(),
            ).opens() == old(self).table().entry(r->0.spec_inumber()).opens() + 1,
            forall|b: Size| b != ROOT_INODE && (r is None || b != r->0.spec_inumber()) ==> (#[trigger] final(self).table().has(b)
                == old(self).table().has(b)),
            forall|b: Size| b != ROOT_INODE && (r is None || b != r->0.spec_inumber()) && old(self).table().has(b)
                ==> #[trigger] final(self).table().entry(b) == old(self).table().entry(b),
            ({
                let found = dir_lookup(root_bytes(old(self).blocks()), padded_name(path.spec_bytes()));
                let i = found->0;
                root_sound(old(self).blocks(), old(self).free_bits()) && valid_name(path.spec_bytes())
                    && found is Some && i != ROOT_INODE && i != FREE_MAP_INODE && i < old(self).blocks().len()
                    && (old(self).table().has(i) ==> old(self).table().entry(i).opens() < usize::MAX)
                    && (old(self).table().has(i) || old(self).free_bits()[i as int])
                    ==> r is Some && r->0.spec_inumber() == i
            }),
    {
        let dir = match self.open_checked_root() {
            Some(dir) => dir,
            None => {
                return None;
            },
        };
        let disk = self.block_devs.get_by_role(DeviceType::Disk).unwrap();
        if !Dir::is_valid_name(path) {
            dir.close(&mut self.inodes);
            return None;
        }
        let found = dir.open_file(&self.inodes, path, disk);
        dir.close(&mut self.inodes);
        match found {
            Some(inum) => {
                if inum == ROOT_INODE || inum == FREE_MAP_INODE || inum >= disk.max_size()
                    || self.inodes.opens(inum) == usize::MAX {
                    return None;
                }
                let fm = self.free_map.as_ref().unwrap();
                if !self.inodes.has_inode(inum) && !fm.in_use(inum) {
                    return None;
                }
                let ghost had = self.inodes.has(inum);
                let i = self.inodes.open_inode(inum, disk);
                proof {
                    if !had {
                        lemma_record_at(disk@, inum, self.inodes.entry(inum).spec_data());
                    }
                }
                Some(VFile::open(i))
            },
            None => None,
        }
    }

    /// Reads from `file` into `buffer` at `offset` bytes past its cursor and
    /// returns how many bytes were read; nothing is read when the file's
    /// index is damaged or the file is not open.
    pub fn file_read(&mut self, file: &mut VFile, buffer: &mut Vec<u8>, offset: Ofs) -> (r: Ofs)
        requires
            old(self).ready(),
            old(file).spec_pos() >= 0,
            offset >= 0,
            old(file).spec_pos() + offset <= Ofs::MAX,
        ensures
            final(self).ready(),
            final(self).blocks() == old(self).blocks(),
            final(self).free_bits() == old(self).free_bits(),
            final(self).table() == old(self).table(),
            final(file).spec_inumber() == old(file).spec_inumber(),
            final(file).spec_pos() == old(file).spec_pos() + r,
            final(buffer)@.len() == old(buffer)@.len(),
            r == 0 || old(file).ready(old(self).table(), old(self).blocks()),
            old(file).ready(old(self).table(), old(self).blocks()) ==> {
                &&& r == transfer_len(
                    old(self).table().entry(old(file).spec_inumber()).spec_data().len as int,
                    old(file).spec_pos() + offset,
                    old(buffer)@.len() as int,
                )
                &&& forall|i: int| 0 <= i < r ==> #[trigger] final(buffer)@[i] == old(file).bytes(old(self).table(), old(self).blocks())[old(file).spec_pos() + offset + i]
                &&& forall|i: int| r <= i < old(buffer)@.len() ==> #[trigger] final(buffer)@[i] == old(buffer)@[i]
            },
    {
        let disk = self.block_devs.get_by_role(DeviceType::Disk).unwrap();
        let inum = file.inumber();
        if !self.inodes.has_inode(inum) {
            return 0;
        }
        let d = self.inodes.get(inum).unwrap().record();
        let fm = self.free_map.as_ref().unwrap();
        proof {
            fm.lemma_bounded();
        }
        if !check_tree(&d, inum, disk) {
            return 0;
        }
        file.read(&self.inodes, buffer, offset, disk)
    }

    /// Writes `buffer` into `file` at `offset` bytes past its cursor, within
    /// the file's length, and returns how many bytes were written; nothing is
    /// written when the file's index is damaged or the file is not open.
    pub fn file_write(&mut self, file: &mut VFile, buffer: &[u8], offset: Ofs) -> (r: Ofs)
        requires
            old(self).ready(),
            old(file).spec_pos() >= 0,
            offset >= 0,
            old(file).spec_pos() + offset <= Ofs::MAX,
        ensures
            final(self).ready(),
            final(self).blocks().len() == old(self).blocks().len(),
            final(self).free_bits() == old(self).free_bits(),
            final(self).table() == old(self).table(),
            final(file).spec_inumber() == old(file).spec_inumber(),
            final(file).spec_pos() == old(file).spec_pos() + r,
            r == 0 || old(file).ready(old(self).table(), old(self).blocks()),
            !old(file).ready(old(self).table(), old(self).blocks()) ==> final(self).blocks() == old(self).blocks(),
            old(file).ready(old(self).table(), old(self).blocks()) ==> {
                &&& r == transfer_len(
                    old(self).table().entry(old(file).spec_inumber()).spec_data().len as int,
                    old(file).spec_pos() + offset,
                    buffer@.len() as int,
                )
                &&& final(file).bytes(final(self).table(), final(self).blocks()) == overwrite(
                    old(file).bytes(old(self).table(), old(self).blocks()),
                    old(file).spec_pos() + offset,
                    buffer@,
                    r as int,
                )
                &&& final(file).ready(final(self).table(), final(self).blocks())
            },
    {
        let disk = self.block_devs.get_by_role(DeviceType::Disk).unwrap();
        let inum = file.inumber();
        if !self.inodes.has_inode(inum) {
            return 0;
        }
        let d = self.inodes.get(inum).unwrap().record();
        let fm = self.free_map.as_ref().unwrap();
        proof {
            fm.lemma_bounded();
        }
        if !check_tree(&d, inum, disk) {
            return 0;
        }
        file.write(&self.inodes, buffer, offset, disk)
    }

    /// The names in the root directory. Directories are flat, so `path` is
    /// not consulted. Gives nothing when the root directory is damaged.
    pub fn list(&mut self, path: &str) -> (r: Option<Vec<String>>)
        requires
            old(self).ready(),
        ensures
            final(self).ready(),
            final(self).blocks() == old(self).blocks(),
            final(self).free_bits() == old(self).free_bits(),
            root_sound(old(self).blocks(), old(self).free_bits()) ==> r is Some,
            r matches Some(v) ==> {
                let c = root_bytes(old(self).blocks());
                &&& v@.len() == listing(c, entry_count(c)).len()
                &&& forall|i: int| 0 <= i < v@.len() ==> #[trigger] v@[i]@ == listing(c, entry_count(c))[i]
            },
    {
        let dir = match self.open_checked_root() {
            Some(dir) => dir,
            None => {
                return None;
            },
        };
        let disk = self.block_devs.get_by_role(DeviceType::Disk).unwrap();
        let names = dir.list(&self.inodes, disk);
        dir.close(&mut self.inodes);
        Some(names)
    }

    /// Writes back what the cache holds and flushes the device.
    pub fn flush(&mut self)
        requires
            old(self).ready(),
        ensures
            final(self).ready(),
            final(self).blocks() == old(self).blocks(),
            final(self).free_bits() == old(self).free_bits(),
            final(self).stack().durable() == final(self).blocks(),
    {
        let disk = self.block_devs.get_by_role(DeviceType::Disk).unwrap();
        disk.flush();
    }

    /// Whether block `block` is marked in use in the free map; nothing when
    /// the block is past the device's end.
    pub fn block_in_use(&self, block: Size) -> (r: Option<bool>)
        requires
            self.ready(),
        ensures
            r is Some <==> block < self.free_bits().len(),
            r matches Some(b) ==> b == self.free_bits()[block as int],
    {
        match &self.free_map {
            Some(fm) => {
                if block < fm.count() {
                    Some(fm.in_use(block))
                } else {
                    None
                }
            },
            None => None,
        }
    }

    /// The registered device, for its name, role and counts.
    pub fn device(&self) -> (r: Option<&BlockDevice<DiskStack<D>>>)
        ensures
            r is Some <==> self.has_disk(),
            r matches Some(d) ==> d@ == self.blocks(),
    {
        self.block_devs.get(DeviceType::Disk)
    }
}

} // verus!
