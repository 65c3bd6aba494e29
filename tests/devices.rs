use vfs::bitmap::Bitmap;
use vfs::block::{BlockDevice, BlockManager, BlockOperations, CountedBlockOperations, DeviceType, MemDisk};
use vfs::buffer_cache::{ArcCacheDisk, BlockLocation};
use vfs::free_map::FreeMap;
use vfs::inode::{InodeDisk, InodeManager};
use vfs::vfile::VFile;

fn block_of(v: u8) -> [u8; 1024] {
    let mut b = [0u8; 1024];
    for (i, x) in b.iter_mut().enumerate() {
        *x = v.wrapping_add(i as u8);
    }
    b
}

#[test]
fn bitmap_marks_and_resets() {
    let mut bm = Bitmap::new(70);
    assert_eq!(bm.count(), 70);
    assert!(!bm.test(0));
    bm.mark(33);
    assert!(bm.test(33));
    assert!(!bm.test(32));
    bm.set(69, true);
    assert!(bm.test(69));
    bm.reset(33);
    assert!(!bm.test(33));
    assert!(bm.compare_and_flip(5));
    assert!(!bm.compare_and_flip(5));
    assert!(bm.test(5));
    bm.set(5, false);
    assert!(!bm.test(5));
}

#[test]
fn free_map_takes_lowest_free_blocks() {
    let mut fm = FreeMap::init(VFile::open(1), 10);
    let mut out = vec![99u64];
    assert!(fm.allocate(3, &mut out));
    assert_eq!(out, vec![99, 2, 3, 4]);
    assert!(fm.in_use(3));
    fm.release(3);
    let mut more = Vec::new();
    assert!(fm.allocate(2, &mut more));
    assert_eq!(more, vec![3, 5]);
}

#[test]
fn free_map_shortfall_changes_nothing() {
    let mut fm = FreeMap::init(VFile::open(1), 6);
    let mut out = Vec::new();
    assert!(!fm.allocate(5, &mut out));
    assert!(out.is_empty());
    for b in 2..6 {
        assert!(!fm.in_use(b));
    }
    assert!(fm.allocate(4, &mut out));
    assert_eq!(out, vec![2, 3, 4, 5]);
}

#[test]
fn device_counts_reads_and_writes() {
    let mut mgr: BlockManager<MemDisk> = BlockManager::init();
    mgr.register("DISK", 4, MemDisk::new(4), DeviceType::Disk);
    let dev = mgr.get_by_role(DeviceType::Disk).unwrap();
    assert_eq!(dev.max_size(), 4);
    dev.write(&block_of(3), 2);
    let mut buf = [0u8; 1024];
    dev.read(&mut buf, 2);
    dev.read(&mut buf, 1);
    assert_eq!(dev.read_count(), 2);
    assert_eq!(dev.write_count(), 1);
    assert_eq!(buf, [0u8; 1024]);
    assert_eq!(dev.name(), "DISK");
    assert_eq!(dev.role(), DeviceType::Disk);
}

#[test]
fn five_blocks_through_two_slot_cache() {
    let mut cache = ArcCacheDisk::new(CountedBlockOperations::new(MemDisk::new(30)), 2);
    let mut buf = [0u8; 1024];
    for pos in 10..15u64 {
        cache.read(&mut buf, pos);
    }
    assert_eq!(cache.device_ref().read_count(), 5);
    cache.read(&mut buf, 10);
    assert_eq!(cache.device_ref().read_count(), 6);
    cache.read(&mut buf, 10);
    assert_eq!(cache.device_ref().read_count(), 6);
}

#[test]
fn ghost_hit_goes_to_frequent_list() {
    let mut cache = ArcCacheDisk::new(CountedBlockOperations::new(MemDisk::new(30)), 2);
    let mut buf = [0u8; 1024];
    for pos in [10u64, 10, 11, 12] {
        cache.read(&mut buf, pos);
    }
    assert_eq!(cache.location(10), Some(BlockLocation::T2));
    assert_eq!(cache.location(11), Some(BlockLocation::B1));
    assert_eq!(cache.location(12), Some(BlockLocation::T1));
    cache.read(&mut buf, 11);
    assert_eq!(cache.location(11), Some(BlockLocation::T2));
    assert_eq!(cache.location(10), Some(BlockLocation::B2));
    assert_eq!(cache.device_ref().read_count(), 4);
    let stats = cache.stats();
    assert_eq!(stats.t2, 1);
    assert_eq!(stats.target, 1);
    assert!(stats.t1 + stats.t2 <= 2);
}

#[test]
fn evicted_dirty_block_is_written_once() {
    let mut cache = ArcCacheDisk::new(CountedBlockOperations::new(MemDisk::new(30)), 2);
    let data = block_of(77);
    cache.write(&data, 7);
    assert_eq!(cache.device_ref().write_count(), 0);
    assert_eq!(cache.stats().dirty, 1);
    let mut buf = [0u8; 1024];
    cache.read(&mut buf, 8);
    cache.read(&mut buf, 9);
    assert_eq!(cache.device_ref().write_count(), 1);
    assert_eq!(cache.device_ref().inner().block(7), data);
    cache.read(&mut buf, 7);
    assert_eq!(buf, data);
}

#[test]
fn flush_writes_dirty_blocks_back() {
    let mut cache = ArcCacheDisk::new(CountedBlockOperations::new(MemDisk::new(8)), 4);
    cache.write(&block_of(1), 1);
    cache.write(&block_of(2), 2);
    cache.write(&block_of(3), 1);
    assert_eq!(cache.device_ref().write_count(), 0);
    cache.flush();
    assert_eq!(cache.device_ref().write_count(), 2);
    assert_eq!(cache.stats().dirty, 0);
    assert_eq!(cache.device_ref().inner().block(1), block_of(3));
    assert_eq!(cache.device_ref().inner().block(2), block_of(2));
}

#[test]
fn cached_and_direct_devices_answer_alike() {
    for capacity in [1usize, 2, 3, 5] {
        let mut direct = MemDisk::new(16);
        let mut cached = ArcCacheDisk::new(MemDisk::new(16), capacity);
        let mut seed: u32 = 7;
        for step in 0..300u32 {
            seed = seed.wrapping_mul(1103515245).wrapping_add(12345);
            let pos = ((seed >> 8) % 16) as u64;
            if (seed >> 4) % 3 == 0 {
                let b = block_of((step % 251) as u8);
                direct.write(&b, pos);
                cached.write(&b, pos);
            } else {
                let mut x = [0u8; 1024];
                let mut y = [1u8; 1024];
                direct.read(&mut x, pos);
                cached.read(&mut y, pos);
                assert_eq!(x, y);
            }
        }
    }
}

#[test]
fn inode_record_round_trip() {
    let mut d = InodeDisk::empty();
    d.direct = [5, 6, 7, 8];
    d.indirect = [9];
    d.doubly_indirect = [10];
    d.len = 123456;
    let b = d.encode();
    let e = InodeDisk::decode(&b);
    assert_eq!(e.direct, [5, 6, 7, 8]);
    assert_eq!(e.indirect, [9]);
    assert_eq!(e.doubly_indirect, [10]);
    assert_eq!(e.magic, 0x8BCEFADC);
    assert_eq!(e.len, 123456);
    assert_eq!(&b[0..8], &[5, 0, 0, 0, 0, 0, 0, 0]);
    assert_eq!(&b[48..56], &[0xDC, 0xFA, 0xCE, 0x8B, 0, 0, 0, 0]);
}

#[test]
fn block_device_wraps_cache() {
    let cache = ArcCacheDisk::new(MemDisk::new(4), 1);
    let mut mgr: BlockManager<ArcCacheDisk<MemDisk>> = BlockManager::init();
    mgr.register("DISK", 4, cache, DeviceType::Disk);
    let dev: &mut BlockDevice<ArcCacheDisk<MemDisk>> = mgr.get_by_role(DeviceType::Disk).unwrap();
    dev.write(&block_of(4), 3);
    let mut buf = [0u8; 1024];
    dev.read(&mut buf, 3);
    assert_eq!(buf, block_of(4));
    assert_eq!(dev.ops().stats().dirty, 1);
}

#[test]
fn default_inode_record_is_empty() {
    let d = InodeDisk::default();
    assert_eq!(d.len, 0);
    assert_eq!(d.magic, 0x8BCEFADC);
    assert_eq!(d.direct, [0, 0, 0, 0]);
    let e = InodeDisk::decode(&d.encode());
    assert_eq!(e.len, 0);
    assert_eq!(e.magic, 0x8BCEFADC);
}

#[test]
fn counted_device_passes_data_through() {
    let mut dev = CountedBlockOperations::new(MemDisk::new(3));
    dev.write(&block_of(9), 0);
    let mut buf = [0u8; 1024];
    dev.read(&mut buf, 0);
    assert_eq!(buf, block_of(9));
    assert_eq!(dev.read_count(), 1);
    assert_eq!(dev.write_count(), 1);
    assert_eq!(dev.inner().block_count(), 3);
}

#[test]
fn set_len_grows_through_free_map_and_shrinks_in_memory() {
    let mut mgr: BlockManager<MemDisk> = BlockManager::init();
    mgr.register("DISK", 20, MemDisk::new(20), DeviceType::Disk);
    let dev = mgr.get_by_role(DeviceType::Disk).unwrap();
    let mut fm = FreeMap::init(VFile::open(1), 20);
    let mut inodes = InodeManager::init();
    let i = inodes.create_inode(3000, dev, &mut fm).unwrap();
    assert_eq!(i, 2);
    for b in 2..6 {
        assert!(fm.in_use(b));
    }
    assert!(!fm.in_use(6));
    let writes = dev.write_count();
    assert!(inodes.set_len_of(i, 100, &mut fm, dev));
    assert_eq!(dev.write_count(), writes);
    assert_eq!(inodes.get(i).unwrap().length(), 100);
    assert!(!fm.in_use(6));
    assert!(inodes.set_len_of(i, 5000, &mut fm, dev));
    assert_eq!(inodes.get(i).unwrap().length(), 5000);
    for b in 6..11 {
        assert!(fm.in_use(b));
    }
    assert!(!fm.in_use(11));
    let reads = dev.read_count();
    inodes.open_inode(i, dev);
    assert_eq!(dev.read_count(), reads);
}
