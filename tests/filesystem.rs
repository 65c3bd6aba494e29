use vfs::block::MemDisk;
use vfs::filesys::{BufferCacheStrategy, Filesys};

const SAMPLE_DATA: &[u8] = b"Cake or pie? I can tell a lot about you by which one you pick. It may seem silly, but cake people and pie people are really different. I know which one I hope you are, but that's not for me to decide. So, what is it? Cake or pie?";

fn mounted(blocks: usize, strategy: BufferCacheStrategy) -> Filesys<MemDisk> {
    let mut fs: Filesys<MemDisk> = Filesys::init();
    fs.new_disk(MemDisk::new(blocks), blocks as u64, strategy);
    fs.init_free_map();
    fs
}

#[test]
fn cake_or_pie_through_cache() {
    let mut fs = mounted(30, BufferCacheStrategy::Arc { capacity: 8 });
    assert!(fs.open_file("a.txt").is_none());
    assert!(fs.create_file("a.txt", SAMPLE_DATA.len() as u64));
    let files = fs.list("/").expect("directory exists");
    assert!(files.contains(&String::from("a.txt")));
    let mut file = fs.open_file("a.txt").expect("file opens");
    let written = fs.file_write(&mut file, SAMPLE_DATA, 0);
    assert_eq!(written, SAMPLE_DATA.len() as i64);
    for _ in 0..3 {
        file.seek_start();
        let mut buf = vec![u8::MAX; SAMPLE_DATA.len()];
        let read = fs.file_read(&mut file, &mut buf, 0);
        assert_eq!(read, SAMPLE_DATA.len() as i64);
        assert_eq!(&buf[..], SAMPLE_DATA);
    }
}

#[test]
fn four_direct_blocks_hold_distinct_patterns() {
    let mut fs = mounted(30, BufferCacheStrategy::NoCache);
    assert!(fs.create_file("a.txt", 4096));
    let mut file = fs.open_file("a.txt").unwrap();
    let mut data = Vec::new();
    for block in 0..4u32 {
        for i in 0..1024u32 {
            data.push(((block * 37 + i * 7) % 251) as u8);
        }
    }
    assert_eq!(fs.file_write(&mut file, &data, 0), 4096);
    for block in 0..4usize {
        file.seek_start();
        file.seek((block * 1024) as i64);
        let mut buf = vec![0u8; 1024];
        assert_eq!(fs.file_read(&mut file, &mut buf, 0), 1024);
        assert_eq!(&buf[..], &data[block * 1024..(block + 1) * 1024]);
    }
}

#[test]
fn fifth_block_goes_through_indirect_block() {
    let mut fs = mounted(500, BufferCacheStrategy::NoCache);
    assert!(fs.create_file("big", 5 * 1024));
    let mut file = fs.open_file("big").unwrap();
    let data: Vec<u8> = (0..5120u32).map(|i| (i % 256) as u8).collect();
    assert_eq!(fs.file_write(&mut file, &data, 0), 5120);
    file.seek_start();
    let mut buf = vec![0u8; 5120];
    assert_eq!(fs.file_read(&mut file, &mut buf, 0), 5120);
    assert_eq!(buf, data);
}

#[test]
fn too_large_file_fails_and_frees_everything() {
    let mut fs = mounted(8, BufferCacheStrategy::NoCache);
    assert!(!fs.create_file("huge", 7 * 1024));
    assert_eq!(fs.block_in_use(0), Some(true));
    assert_eq!(fs.block_in_use(1), Some(true));
    for b in 2..8u64 {
        assert_eq!(fs.block_in_use(b), Some(false));
    }
    assert_eq!(fs.block_in_use(8), None);
    assert_eq!(fs.list("/").unwrap().len(), 0);
}

#[test]
fn three_files_listed_and_duplicate_refused() {
    let mut fs = mounted(30, BufferCacheStrategy::NoCache);
    assert!(fs.create_file("a.txt", 10));
    assert!(fs.create_file("b.txt", 10));
    assert!(fs.create_file("c.txt", 10));
    let mut names = fs.list("/").unwrap();
    names.sort();
    assert_eq!(names, vec!["a.txt".to_string(), "b.txt".to_string(), "c.txt".to_string()]);
    let in_use: Vec<Option<bool>> = (0..30u64).map(|b| fs.block_in_use(b)).collect();
    assert!(!fs.create_file("a.txt", 10));
    let mut again = fs.list("/").unwrap();
    again.sort();
    assert_eq!(again, names);
    let after: Vec<Option<bool>> = (0..30u64).map(|b| fs.block_in_use(b)).collect();
    assert_eq!(after, in_use);
}

#[test]
fn round_trip_at_several_lengths() {
    for len in [0usize, 1, 1023, 1024, 1025, 4096, 4097, 5 * 1024 + 3] {
        let mut fs = mounted(200, BufferCacheStrategy::NoCache);
        assert!(fs.create_file("a", len as u64));
        let mut file = fs.open_file("a").unwrap();
        let data: Vec<u8> = (0..len).map(|i| (i * 13 % 256) as u8).collect();
        assert_eq!(fs.file_write(&mut file, &data, 0), len as i64);
        file.seek_start();
        let mut buf = vec![0xAAu8; len];
        assert_eq!(fs.file_read(&mut file, &mut buf, 0), len as i64);
        assert_eq!(buf, data);
    }
}

#[test]
fn round_trip_through_doubly_indirect_blocks() {
    let len = 140 * 1024 + 17;
    let mut fs = mounted(400, BufferCacheStrategy::Arc { capacity: 4 });
    assert!(fs.create_file("deep", len as u64));
    let mut file = fs.open_file("deep").unwrap();
    let data: Vec<u8> = (0..len).map(|i| (i * 31 % 253) as u8).collect();
    assert_eq!(fs.file_write(&mut file, &data, 0), len as i64);
    fs.flush();
    file.seek_start();
    let mut buf = vec![0u8; len];
    assert_eq!(fs.file_read(&mut file, &mut buf, 0), len as i64);
    assert_eq!(buf, data);
}

#[test]
fn two_reads_from_the_same_place_agree() {
    let mut fs = mounted(30, BufferCacheStrategy::Arc { capacity: 2 });
    assert!(fs.create_file("a.txt", 3000));
    let mut file = fs.open_file("a.txt").unwrap();
    let data: Vec<u8> = (0..3000u32).map(|i| (i % 199) as u8).collect();
    fs.file_write(&mut file, &data, 0);
    file.seek_start();
    let mut first = vec![0u8; 1500];
    let n1 = fs.file_read(&mut file, &mut first, 700);
    file.seek_start();
    let mut second = vec![0u8; 1500];
    let n2 = fs.file_read(&mut file, &mut second, 700);
    assert_eq!(n1, 1500);
    assert_eq!(n1, n2);
    assert_eq!(first, second);
    assert_eq!(&first[..], &data[700..2200]);
}

#[test]
fn read_stops_at_end_of_file_and_moves_cursor() {
    let mut fs = mounted(30, BufferCacheStrategy::NoCache);
    assert!(fs.create_file("a.txt", 100));
    let mut file = fs.open_file("a.txt").unwrap();
    let data = vec![9u8; 100];
    assert_eq!(fs.file_write(&mut file, &data, 0), 100);
    assert_eq!(file.tell(), 100);
    file.seek_start();
    let mut buf = vec![1u8; 50];
    assert_eq!(fs.file_read(&mut file, &mut buf, 80), 20);
    assert_eq!(&buf[..20], &data[..20]);
    assert_eq!(&buf[20..], &[1u8; 30][..]);
    assert_eq!(file.tell(), 20);
    let mut past = vec![3u8; 10];
    assert_eq!(fs.file_read(&mut file, &mut past, 200), 0);
    assert_eq!(past, vec![3u8; 10]);
}

#[test]
fn writes_do_not_extend_the_file() {
    let mut fs = mounted(30, BufferCacheStrategy::NoCache);
    assert!(fs.create_file("a.txt", 10));
    let mut file = fs.open_file("a.txt").unwrap();
    assert_eq!(fs.file_write(&mut file, &[5u8; 25], 0), 10);
}

#[test]
fn invalid_names_are_refused() {
    let mut fs = mounted(30, BufferCacheStrategy::NoCache);
    assert!(!fs.create_file("", 10));
    assert!(!fs.create_file("sixteen_chars_xx", 10));
    assert!(!fs.create_file("caf\u{e9}", 10));
    assert!(fs.create_file("fifteen_chars_x", 10));
    assert!(fs.open_file("").is_none());
    assert!(fs.open_file("missing").is_none());
    assert_eq!(fs.list("/").unwrap(), vec!["fifteen_chars_x".to_string()]);
}

#[test]
fn directory_grows_past_one_block() {
    let mut fs = mounted(200, BufferCacheStrategy::Arc { capacity: 3 });
    let mut expected = Vec::new();
    for i in 0..60 {
        let name = format!("file{}", i);
        assert!(fs.create_file(&name, 1));
        expected.push(name);
    }
    let mut names = fs.list("/").unwrap();
    names.sort();
    expected.sort();
    assert_eq!(names, expected);
    let mut file = fs.open_file("file42").unwrap();
    assert_eq!(fs.file_write(&mut file, &[42u8], 0), 1);
    file.seek_start();
    let mut buf = vec![0u8; 1];
    assert_eq!(fs.file_read(&mut file, &mut buf, 0), 1);
    assert_eq!(buf, vec![42u8]);
}

#[test]
fn files_do_not_share_blocks() {
    let mut fs = mounted(100, BufferCacheStrategy::NoCache);
    assert!(fs.create_file("a", 3000));
    assert!(fs.create_file("b", 3000));
    let mut a = fs.open_file("a").unwrap();
    let mut b = fs.open_file("b").unwrap();
    assert!(!a.compare(&b));
    assert_eq!(fs.file_write(&mut a, &vec![1u8; 3000], 0), 3000);
    assert_eq!(fs.file_write(&mut b, &vec![2u8; 3000], 0), 3000);
    a.seek_start();
    let mut buf = vec![0u8; 3000];
    assert_eq!(fs.file_read(&mut a, &mut buf, 0), 3000);
    assert_eq!(buf, vec![1u8; 3000]);
}

#[test]
fn out_of_space_leaves_free_map_alone() {
    let mut fs = mounted(12, BufferCacheStrategy::NoCache);
    assert!(fs.create_file("a", 2048));
    let before: Vec<Option<bool>> = (0..12u64).map(|b| fs.block_in_use(b)).collect();
    assert!(!fs.create_file("b", 10 * 1024));
    let after: Vec<Option<bool>> = (0..12u64).map(|b| fs.block_in_use(b)).collect();
    assert_eq!(before, after);
}
