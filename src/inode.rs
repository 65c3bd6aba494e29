//! Inodes: the on-disk record, its three-tier block index, byte-level reads
//! and writes through bounce blocks, creation and growth, and the table of
//! open inodes.
use vstd::prelude::*;

use crate::block::{Block, BlockDevice, BlockOperations, BLOCK_SIZE, BLOCK_USIZE};
use crate::codec::{ptr_at, ptr_block, read_word, word_at, write_word, PTRS_PER_BLOCK, PTR_BYTES};
use crate::bitmap::Bitmap;
use crate::free_map::{first_free, FreeMap};
use crate::{Ofs, Size};

verus! {

/// Marks a block as an inode.
pub const INODE_MAGIC: Size = 0x8BCEFADC;

/// Block numbers held in the inode itself.
pub const N_DIRECT: usize = 4;

/// Indirection blocks named in the inode.
pub const N_INDIRECT: usize = 1;

/// Doubly-indirect blocks named in the inode.
pub const N_DOUBLY_INDIRECT: usize = 1;

/// Data blocks reachable without the doubly-indirect block.
pub const SINGLE_LIMIT: usize = 132;

/// Largest number of data blocks of one file.
pub const MAX_BLOCKS: usize = 16516;

/// The on-disk inode: where the data blocks are, and the length in bytes.
#[derive(Clone, Copy)]
pub struct InodeDisk {
    pub direct: [Size; N_DIRECT],
    pub indirect: [Size; N_INDIRECT],
    pub doubly_indirect: [Size; N_DOUBLY_INDIRECT],
    pub magic: Size,
    pub len: Size,
}

/// Blocks needed to hold `len` bytes.
pub open spec fn blocks_for(len: int) -> int {
    (len + 1023) / 1024
}

/// Number of second-level pointer blocks below the doubly-indirect block
/// for a file of `n` data blocks.
pub open spec fn second_level_count(n: int) -> int {
    if n > 132 {
        (n - 132 + 127) / 128
    } else {
        0
    }
}

/// Number of indirection blocks for a file of `n` data blocks.
pub open spec fn index_count(n: int) -> int {
    (if n > 4 { 1int } else { 0 }) + (if n > 132 { 1 + second_level_count(n) } else { 0 })
}

/// The block that holds data block `k` of the file, following the index
/// through the device's contents `disk`.
pub open spec fn data_block(d: InodeDisk, disk: Seq<Seq<u8>>, k: int) -> Size {
    if k < 4 {
        d.direct@[k]
    } else if k < 132 {
        ptr_at(disk[d.indirect@[0] as int], k - 4)
    } else {
        ptr_at(
            disk[ptr_at(disk[d.doubly_indirect@[0] as int], (k - 132) / 128) as int],
            (k - 132) % 128,
        )
    }
}

/// Second-level pointer block `m` below the doubly-indirect block.
pub open spec fn second_level(d: InodeDisk, disk: Seq<Seq<u8>>, m: int) -> Size {
    ptr_at(disk[d.doubly_indirect@[0] as int], m)
}

/// Whether `b` is one of the file's indirection blocks.
pub open spec fn is_index_block(d: InodeDisk, disk: Seq<Seq<u8>>, b: Size) -> bool {
    let n = blocks_for(d.len as int);
    ||| (n > 4 && b == d.indirect@[0])
    ||| (n > 132 && b == d.doubly_indirect@[0])
    ||| exists|m: int| 0 <= m < second_level_count(n) && b == #[trigger] second_level(d, disk, m)
}

/// The file's data blocks, in order.
pub open spec fn file_blocks(d: InodeDisk, disk: Seq<Seq<u8>>) -> Seq<Size> {
    Seq::new(blocks_for(d.len as int) as nat, |k: int| data_block(d, disk, k))
}

/// The file's bytes.
pub open spec fn content(d: InodeDisk, disk: Seq<Seq<u8>>) -> Seq<u8> {
    Seq::new(d.len as nat, |i: int| disk[data_block(d, disk, i / 1024) as int][i % 1024])
}

/// Blocks a file of `cur_len` bytes must take from the free map to reach
/// `new_len` bytes: new data blocks and the indirection blocks it lacks.
pub open spec fn grow_need(cur_len: int, new_len: int) -> int {
    let n = blocks_for(cur_len);
    let n2 = blocks_for(new_len);
    (n2 - n) + index_count(n2) - index_count(n)
}

/// Whether a file of `cur_len` bytes can reach `new_len` bytes when the free
/// map is `bits`.
pub open spec fn can_grow(cur_len: int, new_len: int, bits: Seq<bool>) -> bool {
    blocks_for(new_len) <= blocks_for(cur_len) || (blocks_for(new_len) <= MAX_BLOCKS
        && first_free(bits, bits.len() as int).len() >= grow_need(cur_len, new_len))
}

/// The file is small enough for the index, and every indirection block the
/// index goes through is on the device.
pub open spec fn index_in_range(d: InodeDisk, disk: Seq<Seq<u8>>) -> bool {
    let n = blocks_for(d.len as int);
    &&& n <= MAX_BLOCKS
    &&& n > 4 ==> d.indirect@[0] < disk.len()
    &&& n > 132 ==> d.doubly_indirect@[0] < disk.len()
    &&& forall|m: int| 0 <= m < second_level_count(n) ==> #[trigger] second_level(d, disk, m) < disk.len()
}

/// The file's indirection blocks are distinct from one another.
pub open spec fn index_distinct(d: InodeDisk, disk: Seq<Seq<u8>>) -> bool {
    let n = blocks_for(d.len as int);
    &&& n > 132 ==> d.indirect@[0] != d.doubly_indirect@[0]
    &&& forall|m: int|
        0 <= m < second_level_count(n) ==> #[trigger] second_level(d, disk, m) != d.indirect@[0]
            && second_level(d, disk, m) != d.doubly_indirect@[0]
    &&& forall|m1: int, m2: int|
        0 <= m1 < m2 < second_level_count(n) ==> #[trigger] second_level(d, disk, m1)
            != #[trigger] second_level(d, disk, m2)
}

/// The file's index is sound on `disk`: it is in range, its indirection
/// blocks are distinct and are not its inode block `inum`, and its data blocks
/// are distinct, on the device, and are neither `inum` nor indirection blocks.
pub open spec fn tree_ok(d: InodeDisk, disk: Seq<Seq<u8>>, inum: Size) -> bool {
    let n = blocks_for(d.len as int);
    &&& index_in_range(d, disk)
    &&& index_distinct(d, disk)
    &&& !is_index_block(d, disk, inum)
    &&& forall|k: int|
        0 <= k < n ==> {
            &&& #[trigger] data_block(d, disk, k) < disk.len()
            &&& data_block(d, disk, k) != inum
            &&& !is_index_block(d, disk, data_block(d, disk, k))
        }
    &&& forall|k1: int, k2: int|
        0 <= k1 < k2 < n ==> #[trigger] data_block(d, disk, k1) != #[trigger] data_block(d, disk, k2)
}

/// The index reads the same on two devices that agree on its indirection blocks.
pub proof fn lemma_index_stable(d: InodeDisk, disk1: Seq<Seq<u8>>, disk2: Seq<Seq<u8>>)
    requires
        index_in_range(d, disk1),
        disk1.len() == disk2.len(),
        forall|b: Size| is_index_block(d, disk1, b) ==> disk1[b as int] == disk2[b as int],
    ensures
        index_in_range(d, disk2),
        forall|k: int|
            0 <= k < blocks_for(d.len as int) ==> #[trigger] data_block(d, disk2, k) == data_block(
                d,
                disk1,
                k,
            ),
        forall|b: Size| is_index_block(d, disk2, b) == is_index_block(d, disk1, b),
        forall|m: int|
            0 <= m < second_level_count(blocks_for(d.len as int)) ==> #[trigger] second_level(
                d,
                disk2,
                m,
            ) == second_level(d, disk1, m),
{
    let n = blocks_for(d.len as int);
    if n > 4 {
        assert(is_index_block(d, disk1, d.indirect@[0]));
    }
    if n > 132 {
        assert(is_index_block(d, disk1, d.doubly_indirect@[0]));
    }
    assert forall|m: int| 0 <= m < second_level_count(n) implies #[trigger] second_level(d, disk2, m)
        == second_level(d, disk1, m) by {}
    assert forall|k: int| 0 <= k < n implies #[trigger] data_block(d, disk2, k) == data_block(
        d,
        disk1,
        k,
    ) by {
        if k >= 132 {
            let m = (k - 132) / 128;
            assert(0 <= m < second_level_count(n));
            assert(is_index_block(d, disk1, second_level(d, disk1, m)));
        }
    }
    assert forall|b: Size| is_index_block(d, disk2, b) == is_index_block(d, disk1, b) by {
        if exists|m: int| 0 <= m < second_level_count(n) && b == #[trigger] second_level(d, disk2, m) {
            let m = choose|m: int| 0 <= m < second_level_count(n) && b == #[trigger] second_level(d, disk2, m);
            assert(second_level(d, disk1, m) == b);
        }
        if exists|m: int| 0 <= m < second_level_count(n) && b == #[trigger] second_level(d, disk1, m) {
            let m = choose|m: int| 0 <= m < second_level_count(n) && b == #[trigger] second_level(d, disk1, m);
            assert(second_level(d, disk2, m) == b);
        }
    }
}

/// Block number of data block `k` of the file described by `d`.
fn block_at<D: BlockOperations>(d: &InodeDisk, k: usize, disk: &mut BlockDevice<D>) -> (r: Size)
    requires
        old(disk).wf(),
        index_in_range(*d, old(disk)@),
        k < blocks_for(d.len as int),
    ensures
        r == data_block(*d, old(disk)@, k as int),
        final(disk).wf(),
        final(disk)@ == old(disk)@,
        final(disk).writes() == old(disk).writes(),
{
    if k < N_DIRECT {
        d.direct[k]
    } else if k < SINGLE_LIMIT {
        let mut b: Block = [0u8; BLOCK_USIZE];
        disk.read(&mut b, d.indirect[0]);
        read_word(&b, PTR_BYTES * (k - N_DIRECT))
    } else {
        let j = k - SINGLE_LIMIT;
        let mut top: Block = [0u8; BLOCK_USIZE];
        disk.read(&mut top, d.doubly_indirect[0]);
        let s = read_word(&top, PTR_BYTES * (j / PTRS_PER_BLOCK));
        proof {
            let n = blocks_for(d.len as int);
            assert(0 <= j as int / 128 < second_level_count(n));
            assert(s == second_level(*d, disk@, j as int / 128));
        }
        let mut b: Block = [0u8; BLOCK_USIZE];
        disk.read(&mut b, s);
        read_word(&b, PTR_BYTES * (j % PTRS_PER_BLOCK))
    }
}

/// Block numbers of data blocks `first .. first + count` of the file.
fn block_range<D: BlockOperations>(d: &InodeDisk, first: usize, count: usize, disk: &mut BlockDevice<D>) -> (r: Vec<Size>)
    requires
        old(disk).wf(),
        index_in_range(*d, old(disk)@),
        first + count <= blocks_for(d.len as int),
    ensures
        r@ == file_blocks(*d, old(disk)@).subrange(first as int, first + count),
        final(disk).wf(),
        final(disk)@ == old(disk)@,
        final(disk).writes() == old(disk).writes(),
{
    let mut blocks: Vec<Size> = Vec::new();
    let mut i: usize = 0;
    while i < count
        invariant
            i <= count,
            first + count <= blocks_for(d.len as int),
            disk.wf(),
            disk@ == old(disk)@,
            disk.writes() == old(disk).writes(),
            index_in_range(*d, disk@),
            blocks@ == file_blocks(*d, old(disk)@).subrange(first as int, first + i),
        decreases count - i,
    {
        let b = block_at(d, first + i, disk);
        blocks.push(b);
        i += 1;
        assert(blocks@ =~= file_blocks(*d, old(disk)@).subrange(first as int, first + i));
    }
    blocks
}


/// Bytes a read or write at `offset` of a buffer of `buf_len` bytes moves in
/// a file of `len` bytes: it stops at the end of the file.
pub open spec fn transfer_len(len: int, offset: int, buf_len: int) -> int {
    if offset >= len {
        0
    } else if buf_len < len - offset {
        buf_len
    } else {
        len - offset
    }
}

/// `c` with the `n` bytes from `off` replaced by the first `n` bytes of `src`.
pub open spec fn overwrite(c: Seq<u8>, off: int, src: Seq<u8>, n: int) -> Seq<u8> {
    Seq::new(c.len(), |i: int| if off <= i < off + n { src[i - off] } else { c[i] })
}

proof fn lemma_in_block(ofs: int, t: int)
    requires
        0 <= ofs,
        0 <= t,
        ofs % 1024 + t < 1024,
    ensures
        (ofs + t) / 1024 == ofs / 1024,
        (ofs + t) % 1024 == ofs % 1024 + t,
{
    assert((ofs + t) / 1024 == ofs / 1024 && (ofs + t) % 1024 == ofs % 1024 + t) by (nonlinear_arith)
        requires
            0 <= ofs,
            0 <= t,
            ofs % 1024 + t < 1024,
    ;
}

/// Writing one block's worth of new bytes into data block `k` moves the
/// file's content from `done` to `done + chunk` overwritten bytes.
proof fn lemma_write_chunk(
    d: InodeDisk,
    disk0: Seq<Seq<u8>>,
    cur: Seq<Seq<u8>>,
    inum: Size,
    k: int,
    bo: int,
    chunk: int,
    off: int,
    done: int,
    src: Seq<u8>,
    old_block: Seq<u8>,
    new_block: Seq<u8>,
)
    requires
        tree_ok(d, disk0, inum),
        cur.len() == disk0.len(),
        forall|b: Size| is_index_block(d, disk0, b) ==> cur[b as int] == disk0[b as int],
        content(d, cur) == overwrite(content(d, disk0), off, src, done),
        0 <= off,
        0 <= done,
        0 < chunk,
        off + done == 1024 * k + bo,
        0 <= bo,
        bo + chunk <= 1024,
        off + done + chunk <= d.len,
        0 <= k < blocks_for(d.len as int),
        old_block == cur[data_block(d, disk0, k) as int],
        new_block.len() == 1024,
        forall|t: int| 0 <= t < 1024 ==> #[trigger] new_block[t] == if bo <= t < bo + chunk {
            src[done + t - bo]
        } else {
            old_block[t]
        },
    ensures
        ({
            let next = cur.update(data_block(d, disk0, k) as int, new_block);
            &&& forall|b: Size| is_index_block(d, disk0, b) ==> next[b as int] == disk0[b as int]
            &&& content(d, next) == overwrite(content(d, disk0), off, src, done + chunk)
        }),
{
    let b = data_block(d, disk0, k);
    let next = cur.update(b as int, new_block);
    assert(!is_index_block(d, disk0, b));
    assert forall|x: Size| is_index_block(d, disk0, x) implies next[x as int] == disk0[x as int] by {
        assert(x != b);
    }
    lemma_index_stable(d, disk0, cur);
    lemma_index_stable(d, disk0, next);
    let c0 = content(d, disk0);
    assert forall|i: int| 0 <= i < d.len implies #[trigger] content(d, next)[i] == overwrite(
        c0,
        off,
        src,
        done + chunk,
    )[i] by {
        let ki = i / 1024;
        assert(0 <= ki < blocks_for(d.len as int));
        assert(data_block(d, next, ki) == data_block(d, disk0, ki));
        assert(data_block(d, cur, ki) == data_block(d, disk0, ki));
        assert(content(d, cur)[i] == cur[data_block(d, disk0, ki) as int][i % 1024]);
        if ki == k {
            assert(i == 1024 * k + i % 1024);
            let t = i % 1024;
            assert(new_block[t] == if bo <= t < bo + chunk { src[done + t - bo] } else { old_block[t] });
        } else {
            assert(data_block(d, disk0, ki) != b);
            if off + done <= i < off + done + chunk {
                assert(i / 1024 == k) by (nonlinear_arith)
                    requires
                        off + done == 1024 * k + bo,
                        0 <= bo,
                        bo + chunk <= 1024,
                        off + done <= i < off + done + chunk,
                ;
            }
        }
    }
    assert(content(d, next) =~= overwrite(c0, off, src, done + chunk));
}

/// An inode in memory: the on-disk record, the block it lives in (its
/// inumber), and how many handles have it open.
pub struct Inode {
    open_count: usize,
    block: Size,
    data: InodeDisk,
}

impl Inode {
    pub closed spec fn spec_data(&self) -> InodeDisk {
        self.data
    }

    pub closed spec fn spec_inumber(&self) -> Size {
        self.block
    }

    pub closed spec fn opens(&self) -> nat {
        self.open_count as nat
    }

    /// Length of the file in bytes.
    pub fn length(&self) -> (r: Size)
        ensures
            r == self.spec_data().len,
    {
        self.data.len
    }

    /// The on-disk record.
    pub fn record(&self) -> (r: InodeDisk)
        ensures
            r == self.spec_data(),
    {
        self.data
    }

    /// The block the inode lives in, which names the file.
    pub fn inumber(&self) -> (r: Size)
        ensures
            r == self.spec_inumber(),
    {
        self.block
    }

    fn incr_open(&mut self)
        requires
            old(self).opens() < usize::MAX,
        ensures
            final(self).opens() == old(self).opens() + 1,
            final(self).spec_data() == old(self).spec_data(),
            final(self).spec_inumber() == old(self).spec_inumber(),
    {
        self.open_count += 1;
    }

    fn decr_open(&mut self)
        requires
            old(self).opens() > 0,
        ensures
            final(self).opens() == old(self).opens() - 1,
            final(self).spec_data() == old(self).spec_data(),
            final(self).spec_inumber() == old(self).spec_inumber(),
    {
        self.open_count -= 1;
    }

    fn no_refs(&self) -> (r: bool)
        ensures
            r == (self.opens() == 0),
    {
        self.open_count == 0
    }

    /// Copies the file's bytes from `offset` into `buffer`, stopping at the
    /// end of the file, and returns how many were copied. Bytes of `buffer`
    /// past those are left alone.
    pub fn read_at<D: BlockOperations>(&self, buffer: &mut Vec<u8>, offset: Ofs, disk: &mut BlockDevice<D>) -> (r: Ofs)
        requires
            old(disk).wf(),
            tree_ok(self.spec_data(), old(disk)@, self.spec_inumber()),
            offset >= 0,
        ensures
            r == transfer_len(self.spec_data().len as int, offset as int, old(buffer)@.len() as int),
            final(buffer)@.len() == old(buffer)@.len(),
            forall|i: int| 0 <= i < r ==> #[trigger] final(buffer)@[i] == content(self.spec_data(), old(disk)@)[offset + i],
            forall|i: int| r <= i < old(buffer)@.len() ==> #[trigger] final(buffer)@[i] == old(buffer)@[i],
            final(disk).wf(),
            final(disk)@ == old(disk)@,
            final(disk).writes() == old(disk).writes(),
    {
        let ghost d = self.data;
        let ghost disk0 = disk@;
        let len = self.data.len;
        let blen = buffer.len();
        let off = offset as u64;
        if off >= len {
            return 0;
        }
        let avail = len - off;
        proof {
            assert(blocks_for(len as int) <= MAX_BLOCKS);
            assert(len <= 1024 * MAX_BLOCKS);
        }
        let n: usize = if (blen as u64) < avail { blen } else { avail as usize };
        if n == 0 {
            return 0;
        }
        let first = (off / BLOCK_SIZE) as usize;
        let last = ((off + n as u64 - 1) / BLOCK_SIZE) as usize;
        proof {
            assert(last < blocks_for(len as int));
        }
        let blocks = block_range(&self.data, first, last - first + 1, disk);
        let mut done: usize = 0;
        while done < n
            invariant
                d == self.spec_data(),
                tree_ok(d, disk0, self.spec_inumber()),
                disk.wf(),
                disk@ == disk0,
                disk.writes() == old(disk).writes(),
                off == offset,
                len == d.len,
                off + n <= len,
                n <= blen,
                blen == old(buffer)@.len(),
                done <= n,
                first == off / 1024,
                last == (off + n - 1) / 1024,
                last < blocks_for(len as int),
                blocks@ == file_blocks(d, disk0).subrange(first as int, last + 1),
                buffer@.len() == blen,
                forall|i: int| 0 <= i < done ==> #[trigger] buffer@[i] == content(d, disk0)[off + i],
                forall|i: int| n <= i < blen ==> #[trigger] buffer@[i] == old(buffer)@[i],
            decreases n - done,
        {
            let ofs = off + done as u64;
            let k = (ofs / BLOCK_SIZE) as usize;
            let bo = (ofs % BLOCK_SIZE) as usize;
            let room = BLOCK_USIZE - bo;
            let chunk = if n - done < room { n - done } else { room };
            let mut bounce: Block = [0u8; BLOCK_USIZE];
            proof {
                assert(first <= k <= last) by (nonlinear_arith)
                    requires
                        first == off / 1024,
                        last == (off + n - 1) / 1024,
                        k == ofs / 1024,
                        off <= ofs <= off + n - 1,
                ;
                assert(blocks@[k - first] == data_block(d, disk0, k as int));
            }
            disk.read(&mut bounce, blocks[k - first]);
            let mut t: usize = 0;
            while t < chunk
                invariant
                    t <= chunk,
                    chunk <= n - done,
                    bo + chunk <= BLOCK_USIZE,
                    ofs == off + done,
                    k == ofs / 1024,
                    bo == ofs % 1024,
                    k < blocks_for(len as int),
                    bounce@ == disk0[data_block(d, disk0, k as int) as int],
                    off + n <= len,
                    len == d.len,
                    n <= blen,
                    buffer@.len() == blen,
                    forall|i: int| 0 <= i < done + t ==> #[trigger] buffer@[i] == content(d, disk0)[off + i],
                    forall|i: int| n <= i < blen ==> #[trigger] buffer@[i] == old(buffer)@[i],
                decreases chunk - t,
            {
                proof {
                    lemma_in_block(ofs as int, t as int);
                    assert(content(d, disk0)[off + done + t] == bounce@[bo + t]);
                }
                buffer.set(done + t, bounce[bo + t]);
                t += 1;
            }
            done += chunk;
        }
        n as Ofs
    }

    /// Writes `buffer` into the file from `offset`, stopping at the end of the
    /// file, and returns how many bytes were written. Each touched block is
    /// read, patched and written back whole.
    pub fn write_at<D: BlockOperations>(&self, buffer: &[u8], offset: Ofs, disk: &mut BlockDevice<D>) -> (r: Ofs)
        requires
            old(disk).wf(),
            tree_ok(self.spec_data(), old(disk)@, self.spec_inumber()),
            offset >= 0,
        ensures
            r == transfer_len(self.spec_data().len as int, offset as int, buffer@.len() as int),
            final(disk).wf(),
            final(disk)@.len() == old(disk)@.len(),
            tree_ok(self.spec_data(), final(disk)@, self.spec_inumber()),
            file_blocks(self.spec_data(), final(disk)@) == file_blocks(self.spec_data(), old(disk)@),
            forall|b: Size| is_index_block(self.spec_data(), final(disk)@, b) == is_index_block(self.spec_data(), old(disk)@, b),
            content(self.spec_data(), final(disk)@) == overwrite(
                content(self.spec_data(), old(disk)@),
                offset as int,
                buffer@,
                r as int,
            ),
            forall|b: Size|
                b < old(disk)@.len() && !file_blocks(self.spec_data(), old(disk)@).contains(b)
                    ==> #[trigger] final(disk)@[b as int] == old(disk)@[b as int],
    {
        let ghost d = self.data;
        let ghost disk0 = disk@;
        let ghost inum = self.block;
        let len = self.data.len;
        let blen = buffer.len();
        let off = offset as u64;
        proof {
            assert(content(d, disk0) =~= overwrite(content(d, disk0), offset as int, buffer@, 0));
            lemma_index_stable(d, disk0, disk0);
        }
        if off >= len {
            return 0;
        }
        let avail = len - off;
        proof {
            assert(blocks_for(len as int) <= MAX_BLOCKS);
            assert(len <= 1024 * MAX_BLOCKS);
        }
        let n: usize = if (blen as u64) < avail { blen } else { avail as usize };
        if n == 0 {
            return 0;
        }
        let first = (off / BLOCK_SIZE) as usize;
        let last = ((off + n as u64 - 1) / BLOCK_SIZE) as usize;
        proof {
            assert(last < blocks_for(len as int));
        }
        let blocks = block_range(&self.data, first, last - first + 1, disk);
        let mut done: usize = 0;
        while done < n
            invariant
                d == self.spec_data(),
                inum == self.spec_inumber(),
                tree_ok(d, disk0, inum),
                disk.wf(),
                disk@.len() == disk0.len(),
                forall|b: Size| is_index_block(d, disk0, b) ==> disk@[b as int] == disk0[b as int],
                forall|b: Size|
                    b < disk0.len() && !file_blocks(d, disk0).contains(b) ==> #[trigger] disk@[b as int] == disk0[b as int],
                content(d, disk@) == overwrite(content(d, disk0), off as int, buffer@, done as int),
                off == offset,
                len == d.len,
                off + n <= len,
                n <= blen,
                blen == buffer@.len(),
                done <= n,
                first == off / 1024,
                last == (off + n - 1) / 1024,
                last < blocks_for(len as int),
                blocks@ == file_blocks(d, disk0).subrange(first as int, last + 1),
            decreases n - done,
        {
            let ofs = off + done as u64;
            let k = (ofs / BLOCK_SIZE) as usize;
            let bo = (ofs % BLOCK_SIZE) as usize;
            let room = BLOCK_USIZE - bo;
            let chunk = if n - done < room { n - done } else { room };
            let mut bounce: Block = [0u8; BLOCK_USIZE];
            proof {
                assert(first <= k <= last) by (nonlinear_arith)
                    requires
                        first == off / 1024,
                        last == (off + n - 1) / 1024,
                        k == ofs / 1024,
                        off <= ofs <= off + n - 1,
                ;
                assert(blocks@[k - first] == data_block(d, disk0, k as int));
            }
            let b = blocks[k - first];
            let ghost head = disk@;
            disk.read(&mut bounce, b);
            let ghost old_block = bounce@;
            let mut t: usize = 0;
            while t < chunk
                invariant
                    t <= chunk,
                    chunk <= n - done,
                    bo + chunk <= BLOCK_USIZE,
                    done + chunk <= n,
                    n <= blen,
                    blen == buffer@.len(),
                    forall|x: int| 0 <= x < t ==> #[trigger] bounce@[bo + x] == buffer@[done + x],
                    forall|x: int|
                        0 <= x < BLOCK_USIZE && !(bo <= x < bo + t) ==> #[trigger] bounce@[x] == old_block[x],
                decreases chunk - t,
            {
                bounce[bo + t] = buffer[done + t];
                t += 1;
            }
            let ghost cur = disk@;
            disk.write(&bounce, b);
            proof {
                assert forall|x: int| 0 <= x < 1024 implies #[trigger] bounce@[x] == if bo <= x < bo + chunk {
                    buffer@[done + x - bo]
                } else {
                    old_block[x]
                } by {
                    if bo <= x < bo + chunk {
                        assert(bounce@[bo + (x - bo)] == buffer@[done + (x - bo)]);
                    }
                }
                lemma_write_chunk(
                    d, disk0, cur, inum, k as int, bo as int, chunk as int, off as int, done as int,
                    buffer@, old_block, bounce@,
                );
                assert(file_blocks(d, disk0).contains(b)) by {
                    assert(file_blocks(d, disk0)[k as int] == b);
                }
                assert forall|x: Size| x < disk0.len() && !file_blocks(d, disk0).contains(x) implies #[trigger] disk@[x as int]
                    == disk0[x as int] by {
                    assert(x != b);
                    assert(head[x as int] == disk0[x as int]);
                    assert(cur == head);
                }
            }
            done += chunk;
        }
        proof {
            lemma_index_stable(d, disk0, disk@);
            assert(file_blocks(d, disk@) =~= file_blocks(d, disk0));
            assert(index_distinct(d, disk@));
            assert forall|k1: int, k2: int| 0 <= k1 < k2 < blocks_for(d.len as int) implies
                #[trigger] data_block(d, disk@, k1) != #[trigger] data_block(d, disk@, k2) by {
                assert(data_block(d, disk0, k1) != data_block(d, disk0, k2));
            }
            assert forall|k: int| 0 <= k < blocks_for(d.len as int) implies {
                &&& #[trigger] data_block(d, disk@, k) < disk@.len()
                &&& data_block(d, disk@, k) != inum
                &&& !is_index_block(d, disk@, data_block(d, disk@, k))
            } by {
                assert(data_block(d, disk0, k) == data_block(d, disk@, k));
            }
        }
        n as Ofs
    }

    /// Sets the file's length to `len` bytes and writes the inode back. When the file needs more blocks, the new data blocks and
    /// the indirection blocks it lacks are taken from the free map in one
    /// allocation and appended to the index, whose existing indirection
    /// blocks are kept. Blocks already allocated are never given back. Fails,
    /// changing nothing, when the file would be too large or too few blocks
    /// are free. The bytes before both lengths are kept.
    #[verifier::rlimit(100)]
    pub fn set_len<D: BlockOperations>(&mut self, len: Size, free_map: &mut FreeMap, disk: &mut BlockDevice<D>) -> (r: bool)
        requires
            old(disk).wf(),
            old(free_map).wf(),
            old(free_map)@.len() == old(disk)@.len(),
            tree_ok(old(self).spec_data(), old(disk)@, old(self).spec_inumber()),
            tree_marked(old(self).spec_data(), old(disk)@, old(self).spec_inumber(), old(free_map)@),
        ensures
            final(disk).wf(),
            final(free_map).wf(),
            final(disk)@.len() == old(disk)@.len(),
            final(free_map)@.len() == old(free_map)@.len(),
            final(self).opens() == old(self).opens(),
            final(self).spec_inumber() == old(self).spec_inumber(),
            forall|i: int| 0 <= i < old(free_map)@.len() && old(free_map)@[i] ==> #[trigger] final(free_map)@[i],
            ({
                let inum = old(self).spec_inumber();
                let d = old(self).spec_data();
                let d2 = final(self).spec_data();
                let n = blocks_for(d.len as int);
                let n2 = blocks_for(len as int);
                let need = (n2 - n) + index_count(n2) - index_count(n);
                let free = first_free(old(free_map)@, old(free_map)@.len() as int);
                &&& r <==> (n2 <= n || (n2 <= MAX_BLOCKS && free.len() >= need))
                &&& !r ==> d2 == d && final(disk)@ == old(disk)@ && final(free_map)@ == old(free_map)@
                &&& r ==> d2.len == len && d2.magic == d.magic
                &&& r ==> tree_ok(d2, final(disk)@, inum)
                &&& r ==> tree_marked(d2, final(disk)@, inum, final(free_map)@)
                &&& r && n2 > n ==> inode_block(final(disk)@[inum as int], d2)
                &&& r ==> forall|i: int| 0 <= i < d.len && i < len ==> #[trigger] content(d2, final(disk)@)[i] == content(d, old(disk)@)[i]
                &&& r ==> forall|x: Size|
                    x < old(disk)@.len() && x != inum && old(free_map)@[x as int] && !is_index_block(d, old(disk)@, x)
                        ==> #[trigger] final(disk)@[x as int] == old(disk)@[x as int]
                &&& r && n2 <= n ==> final(free_map)@ == old(free_map)@
                &&& r && n2 <= n ==> final(disk)@ == old(disk)@
                &&& r && n2 <= n ==> d2.direct == d.direct && d2.indirect == d.indirect
                    && d2.doubly_indirect == d.doubly_indirect && d2.magic == d.magic
                &&& r ==> forall|k: int| 0 <= k < n && k < n2 ==> #[trigger] data_block(d2, final(disk)@, k) == data_block(d, old(disk)@, k)
                &&& r && n2 > n ==> forall|i: int| 0 <= i < old(free_map)@.len() ==> #[trigger] final(free_map)@[i] == (
                    old(free_map)@[i] || free.take(need).contains(i as Size))
                &&& r ==> forall|b: Size| is_index_block(d2, final(disk)@, b) || file_blocks(d2, final(disk)@).contains(b)
                    ==> #[trigger] is_index_block(d, old(disk)@, b) || file_blocks(d, old(disk)@).contains(b)
                        || (n2 > n && free.take(need).contains(b))
            }),
    {
        let ghost disk0 = disk@;
        let ghost bits0 = free_map@;
        let ghost free = first_free(bits0, bits0.len() as int);
        proof {
            free_map.lemma_bounded();
        }
        let inum = self.block;
        let old_d = self.data;
        let cur_len = old_d.len;
        let n = (cur_len / BLOCK_SIZE + if cur_len % BLOCK_SIZE == 0 { 0 } else { 1 }) as usize;
        let n2_64 = len / BLOCK_SIZE + if len % BLOCK_SIZE == 0 { 0 } else { 1 };
        let mut d = old_d;
        d.len = len;
        if n2_64 <= n as u64 {
            // The blocks already allocated suffice: only the length changes.
            self.data = d;
            proof {
                let fdisk = disk@;
                let n2 = n2_64 as int;
                assert forall|b: Size| is_index_block(old_d, disk0, b) implies fdisk[b as int] == disk0[b as int] by {}
                lemma_index_stable(old_d, disk0, fdisk);
                assert forall|m: int| 0 <= m < second_level_count(n2) implies #[trigger] second_level(d, fdisk, m)
                    == second_level(old_d, fdisk, m) by {}
                assert forall|k: int| 0 <= k < n2 implies #[trigger] data_block(d, fdisk, k) == data_block(old_d, disk0, k) by {
                    assert(data_block(old_d, fdisk, k) == data_block(old_d, disk0, k));
                }
                assert forall|b: Size| is_index_block(d, fdisk, b) implies is_index_block(old_d, disk0, b) by {
                    if exists|m: int| 0 <= m < second_level_count(n2) && b == #[trigger] second_level(d, fdisk, m) {
                        let m = choose|m: int| 0 <= m < second_level_count(n2) && b == #[trigger] second_level(d, fdisk, m);
                        assert(second_level(old_d, disk0, m) == b);
                    }
                }
                assert forall|k1: int, k2: int| 0 <= k1 < k2 < n2 implies #[trigger] data_block(d, fdisk, k1)
                    != #[trigger] data_block(d, fdisk, k2) by {
                    assert(data_block(old_d, disk0, k1) != data_block(old_d, disk0, k2));
                }
                assert forall|k: int| 0 <= k < n2 implies {
                    &&& #[trigger] data_block(d, fdisk, k) < fdisk.len()
                    &&& data_block(d, fdisk, k) != inum
                    &&& !is_index_block(d, fdisk, data_block(d, fdisk, k))
                } by {
                    assert(data_block(old_d, disk0, k) == data_block(d, fdisk, k));
                }
                assert forall|m1: int, m2: int| 0 <= m1 < m2 < second_level_count(n2) implies #[trigger] second_level(d, fdisk, m1)
                    != #[trigger] second_level(d, fdisk, m2) by {
                    assert(second_level(old_d, disk0, m1) != second_level(old_d, disk0, m2));
                }
                assert forall|m: int| 0 <= m < second_level_count(n2) implies #[trigger] second_level(d, fdisk, m) < fdisk.len() by {
                    assert(second_level(old_d, disk0, m) == second_level(d, fdisk, m));
                }
                assert(index_distinct(d, fdisk));
                assert(tree_ok(d, fdisk, inum));
                assert forall|k: int| 0 <= k < n2 implies #[trigger] free_map@[data_block(d, fdisk, k) as int] by {
                    assert(data_block(old_d, disk0, k) == data_block(d, fdisk, k));
                }
                assert forall|b: Size| #[trigger] is_index_block(d, fdisk, b) implies b < free_map@.len() && free_map@[b as int] by {
                    assert(is_index_block(old_d, disk0, b));
                }
                assert forall|b: Size| is_index_block(d, fdisk, b) || file_blocks(d, fdisk).contains(b) implies
                    #[trigger] is_index_block(old_d, disk0, b) || file_blocks(old_d, disk0).contains(b) by {
                    if !is_index_block(d, fdisk, b) {
                        let k = choose|k: int| 0 <= k < file_blocks(d, fdisk).len() && file_blocks(d, fdisk)[k] == b;
                        assert(data_block(d, fdisk, k) == data_block(old_d, disk0, k));
                        assert(file_blocks(old_d, disk0)[k] == b);
                    }
                }
                assert forall|ii: int| 0 <= ii < old_d.len && ii < len implies #[trigger] content(d, fdisk)[ii] == content(old_d, disk0)[ii] by {
                    let k = ii / 1024;
                    assert(data_block(d, fdisk, k) == data_block(old_d, disk0, k));
                    assert(data_block(old_d, disk0, k) != inum);
                }
            }
            return true;
        }
        if n2_64 > MAX_BLOCKS as u64 {
            return false;
        }
        let n2 = n2_64 as usize;
        let old_index = index_list(&old_d, disk);
        let cur_blocks = block_range(&old_d, 0, n, disk);
        let idx2: usize = (if n2 > N_DIRECT { 1 } else { 0 }) + (if n2 > SINGLE_LIMIT {
            1 + (n2 - SINGLE_LIMIT + 127) / PTRS_PER_BLOCK
        } else {
            0
        });
        let extra = n2 - n;
        proof {
            assert(old_index@.len() <= idx2) by {
                assert(second_level_count(n as int) <= second_level_count(n2 as int));
            }
        }
        let need = extra + (idx2 - old_index.len());
        let mut alloc: Vec<Size> = Vec::new();
        if !free_map.allocate(need, &mut alloc) {
            return false;
        }
        proof {
            assert(alloc@ =~= free.take(need as int));
            crate::free_map::lemma_first_free(bits0, bits0.len() as int);
        }
        let ghost fresh = alloc@;
        let mut data = cur_blocks;
        proof {
            assert(data@ =~= file_blocks(old_d, disk0) + fresh.subrange(0, 0));
        }
        let mut j: usize = 0;
        while j < extra
            invariant
                j <= extra,
                extra <= need,
                alloc@ == fresh,
                fresh.len() == need,
                need == extra + (idx2 - old_index@.len()),
                data@ == file_blocks(old_d, disk0) + fresh.subrange(0, j as int),
            decreases extra - j,
        {
            data.push(alloc[j]);
            j += 1;
            assert(data@ =~= file_blocks(old_d, disk0) + fresh.subrange(0, j as int));
        }
        let mut index = old_index;
        let mut j: usize = extra;
        while j < need
            invariant
                extra <= j <= need,
                alloc@ == fresh,
                fresh.len() == need,
                index@ == old_index@ + fresh.subrange(extra as int, j as int),
            decreases need - j,
        {
            index.push(alloc[j]);
            j += 1;
            assert(index@ =~= old_index@ + fresh.subrange(extra as int, j as int));
        }
        proof {
            assert forall|a: int, c: int| 0 <= a < c < fresh.len() implies fresh[a] != fresh[c] by {
                assert(free[a] < free[c]);
            }
            assert forall|a: int| 0 <= a < fresh.len() implies #[trigger] fresh[a] < disk0.len() && !bits0[fresh[a] as int] by {
                assert(free[a] == fresh[a]);
            }
            lemma_grow_layout(old_d, disk0, inum, bits0, old_index@, fresh, extra as int, data@, index@);
        }
        build_index(&mut d, &data, &index, disk);
        let ghost disk2 = disk@;
        let blk = d.encode();
        disk.write(&blk, inum);
        self.data = d;
        proof {
            let fdisk = disk@;
            assert(fdisk =~= disk2.update(inum as int, fdisk[inum as int]));
            lemma_grown(
                old_d, d, disk0, disk2, fdisk, inum, bits0, free_map@, data@, index@, old_index@, fresh,
                extra as int,
            );
            assert forall|k: int| 0 <= k < n && k < n2 implies #[trigger] data_block(d, fdisk, k) == data_block(old_d, disk0, k) by {
                assert(file_blocks(d, fdisk)[k] == data@[k]);
                assert(data@[k] == file_blocks(old_d, disk0)[k]);
            }
            assert(fdisk[inum as int] == blk@);
        }
        true
    }
}


/// `b` holds the on-disk record `d`: the four direct pointers, the indirect
/// and doubly-indirect pointers, the magic number and the length, one
/// little-endian word each from byte 0.
pub open spec fn holds_inode(b: Seq<u8>, d: InodeDisk) -> bool {
    &&& forall|i: int| 0 <= i < 4 ==> #[trigger] d.direct@[i] == word_at(b, 8 * i)
    &&& d.indirect@[0] == word_at(b, 32)
    &&& d.doubly_indirect@[0] == word_at(b, 40)
    &&& d.magic == word_at(b, 48)
    &&& d.len == word_at(b, 56)
}

/// `b` holds the record `d`, and the rest of `b` past the record's eight
/// words is zero.
pub open spec fn inode_block(b: Seq<u8>, d: InodeDisk) -> bool {
    &&& holds_inode(b, d)
    &&& forall|i: int| 64 <= i < BLOCK_USIZE ==> #[trigger] b[i] == 0
}

/// A block holds at most one inode record, so decoding a block that an
/// encoded record was written to gives that record back.
pub proof fn lemma_holds_inode_unique(b: Seq<u8>, d1: InodeDisk, d2: InodeDisk)
    requires
        holds_inode(b, d1),
        holds_inode(b, d2),
    ensures
        d1 == d2,
{
    assert(d1.direct@ =~= d2.direct@);
    assert(d1.indirect@ =~= d2.indirect@);
    assert(d1.doubly_indirect@ =~= d2.doubly_indirect@);
    assert(d1.direct =~= d2.direct);
    assert(d1.indirect =~= d2.indirect);
    assert(d1.doubly_indirect =~= d2.doubly_indirect);
}

impl Default for InodeDisk {
    /// The record of an empty file, as `InodeDisk::empty`.
    fn default() -> (r: Self)
        ensures
            r.len == 0,
            r.magic == INODE_MAGIC,
            r.direct@ == seq![0u64, 0u64, 0u64, 0u64],
            r.indirect@ == seq![0u64],
            r.doubly_indirect@ == seq![0u64],
    {
        InodeDisk::empty()
    }
}

impl InodeDisk {
    /// A record of an empty file with the magic number set.
    pub fn empty() -> (r: Self)
        ensures
            r.len == 0,
            r.magic == INODE_MAGIC,
            r.direct@ == seq![0u64, 0u64, 0u64, 0u64],
            r.indirect@ == seq![0u64],
            r.doubly_indirect@ == seq![0u64],
    {
        let r = InodeDisk {
            direct: [0; N_DIRECT],
            indirect: [0; N_INDIRECT],
            doubly_indirect: [0; N_DOUBLY_INDIRECT],
            magic: INODE_MAGIC,
            len: 0,
        };
        assert(r.direct@ =~= seq![0u64, 0u64, 0u64, 0u64]);
        assert(r.indirect@ =~= seq![0u64]);
        assert(r.doubly_indirect@ =~= seq![0u64]);
        r
    }

    /// The record laid out in a block; the rest of the block is zero.
    pub fn encode(&self) -> (r: Block)
        ensures
            inode_block(r@, *self),
    {
        let mut b: Block = [0u8; BLOCK_USIZE];
        let mut i: usize = 0;
        while i < N_DIRECT
            invariant
                i <= N_DIRECT,
                forall|j: int| 64 <= j < BLOCK_USIZE ==> #[trigger] b@[j] == 0,
                forall|j: int| 0 <= j < i ==> #[trigger] self.direct@[j] == word_at(b@, 8 * j),
            decreases N_DIRECT - i,
        {
            let ghost pre = b@;
            write_word(&mut b, PTR_BYTES * i, self.direct[i]);
            proof {
                assert forall|j: int| 0 <= j < i + 1 implies #[trigger] self.direct@[j] == word_at(b@, 8 * j) by {
                    if j < i {
                        assert(self.direct@[j] == word_at(pre, 8 * j));
                        crate::codec::lemma_word_untouched(pre, b@, 8 * i, 8 * j);
                    }
                }
            }
            i += 1;
        }
        let ghost p0 = b@;
        write_word(&mut b, 32, self.indirect[0]);
        let ghost p1 = b@;
        write_word(&mut b, 40, self.doubly_indirect[0]);
        let ghost p2 = b@;
        write_word(&mut b, 48, self.magic);
        let ghost p3 = b@;
        write_word(&mut b, 56, self.len);
        proof {
            assert forall|j: int| 0 <= j < 4 implies #[trigger] self.direct@[j] == word_at(b@, 8 * j) by {
                assert(self.direct@[j] == word_at(p0, 8 * j));
                crate::codec::lemma_word_untouched(p0, p1, 32, 8 * j);
                crate::codec::lemma_word_untouched(p1, p2, 40, 8 * j);
                crate::codec::lemma_word_untouched(p2, p3, 48, 8 * j);
                crate::codec::lemma_word_untouched(p3, b@, 56, 8 * j);
            }
            crate::codec::lemma_word_untouched(p1, p2, 40, 32);
            crate::codec::lemma_word_untouched(p2, p3, 48, 32);
            crate::codec::lemma_word_untouched(p3, b@, 56, 32);
            crate::codec::lemma_word_untouched(p2, p3, 48, 40);
            crate::codec::lemma_word_untouched(p3, b@, 56, 40);
            crate::codec::lemma_word_untouched(p3, b@, 56, 48);
            assert forall|j: int| 64 <= j < BLOCK_USIZE implies #[trigger] b@[j] == 0 by {
                assert(p0[j] == 0);
            }
        }
        b
    }

    /// The record held in a block.
    pub fn decode(b: &Block) -> (r: Self)
        ensures
            holds_inode(b@, r),
    {
        let mut r = InodeDisk::empty();
        let mut i: usize = 0;
        while i < N_DIRECT
            invariant
                i <= N_DIRECT,
                forall|j: int| 0 <= j < i ==> #[trigger] r.direct@[j] == word_at(b@, 8 * j),
            decreases N_DIRECT - i,
        {
            r.direct[i] = read_word(b, PTR_BYTES * i);
            i += 1;
        }
        r.indirect[0] = read_word(b, 32);
        r.doubly_indirect[0] = read_word(b, 40);
        r.magic = read_word(b, 48);
        r.len = read_word(b, 56);
        r
    }
}


/// Points `d` at the data blocks `data`, in order, writing the indirection
/// blocks it needs into the blocks `index`: the indirect block first, then
/// the doubly-indirect block, then the second-level blocks below it.
fn build_index<D: BlockOperations>(d: &mut InodeDisk, data: &Vec<Size>, index: &Vec<Size>, disk: &mut BlockDevice<D>)
    requires
        old(disk).wf(),
        data@.len() == blocks_for(old(d).len as int),
        data@.len() <= MAX_BLOCKS,
        index@.len() == index_count(data@.len() as int),
        (data@ + index@).no_duplicates(),
        forall|i: int| 0 <= i < data@.len() ==> #[trigger] data@[i] < old(disk)@.len(),
        forall|i: int| 0 <= i < index@.len() ==> #[trigger] index@[i] < old(disk)@.len(),
    ensures
        final(disk).wf(),
        final(disk)@.len() == old(disk)@.len(),
        final(d).len == old(d).len,
        final(d).magic == old(d).magic,
        index_in_range(*final(d), final(disk)@),
        index_distinct(*final(d), final(disk)@),
        file_blocks(*final(d), final(disk)@) == data@,
        forall|b: Size| is_index_block(*final(d), final(disk)@, b) <==> index@.contains(b),
        forall|x: Size|
            x < old(disk)@.len() && !index@.contains(x) ==> #[trigger] final(disk)@[x as int] == old(disk)@[x as int],
{
    let ghost disk0 = disk@;
    let ghost all = data@ + index@;
    let n = data.len();
    let ni = index.len();
    proof {
        assert forall|i: int| 0 <= i < ni implies #[trigger] index@[i] == all[n + i] by {}
        assert forall|i: int| 0 <= i < n implies #[trigger] data@[i] == all[i] by {}
    }
    let mut i: usize = 0;
    while i < N_DIRECT
        invariant
            i <= N_DIRECT,
            n == data@.len(),
            d.len == old(d).len,
            d.magic == old(d).magic,
            d.indirect == old(d).indirect,
            d.doubly_indirect == old(d).doubly_indirect,
            forall|j: int| 0 <= j < i && j < n ==> #[trigger] d.direct@[j] == data@[j],
        decreases N_DIRECT - i,
    {
        d.direct[i] = if i < n { data[i] } else { 0 };
        i += 1;
    }
    if n > N_DIRECT {
        let cnt = (if n < SINGLE_LIMIT { n } else { SINGLE_LIMIT }) - N_DIRECT;
        let blk = ptr_block(data, N_DIRECT, cnt);
        disk.write(&blk, index[0]);
        d.indirect[0] = index[0];
    }
    let ghost after_ind = disk@;
    if n > SINGLE_LIMIT {
        let slc = (n - SINGLE_LIMIT + 127) / PTRS_PER_BLOCK;
        proof {
            assert(slc == second_level_count(n as int));
            assert(ni == 2 + slc);
        }
        let mut m: usize = 0;
        while m < slc
            invariant
                m <= slc,
                slc == second_level_count(n as int),
                n == data@.len(),
                ni == index@.len(),
                ni == 2 + slc,
                n > SINGLE_LIMIT,
                n <= MAX_BLOCKS,
                all == data@ + index@,
                all.no_duplicates(),
                forall|i: int| 0 <= i < ni ==> #[trigger] index@[i] == all[n + i],
                forall|i: int| 0 <= i < ni ==> #[trigger] index@[i] < disk0.len(),
                disk.wf(),
                disk@.len() == disk0.len(),
                disk@[index@[0] as int] == after_ind[index@[0] as int],
                forall|x: Size| x < disk0.len() && !index@.contains(x) ==> #[trigger] disk@[x as int] == after_ind[x as int],
                forall|mm: int, j: int| 0 <= mm < m && 0 <= j < 128 && 132 + 128 * mm + j < n ==>
                    #[trigger] ptr_at(disk@[index@[2 + mm] as int], j) == data@[132 + 128 * mm + j],
            decreases slc - m,
        {
            let from = SINGLE_LIMIT + PTRS_PER_BLOCK * m;
            let cnt = if n - from < PTRS_PER_BLOCK { n - from } else { PTRS_PER_BLOCK };
            let blk = ptr_block(data, from, cnt);
            let ghost pre = disk@;
            let target = index[2 + m];
            disk.write(&blk, target);
            proof {
                assert(index@[2 + m] == all[n + 2 + m]);
                assert(index@[0] == all[n + 0]);
                assert(index@[0] != target);
                assert forall|x: Size| x < disk0.len() && !index@.contains(x) implies #[trigger] disk@[x as int] == after_ind[x as int] by {
                    assert(x != target);
                    assert(pre[x as int] == after_ind[x as int]);
                }
                assert forall|mm: int, j: int| 0 <= mm < m + 1 && 0 <= j < 128 && 132 + 128 * mm + j < n implies
                    #[trigger] ptr_at(disk@[index@[2 + mm] as int], j) == data@[132 + 128 * mm + j] by {
                    if mm < m {
                        assert(index@[2 + mm] == all[n + 2 + mm]);
                        assert(index@[2 + mm] != target);
                        assert(ptr_at(pre[index@[2 + mm] as int], j) == data@[132 + 128 * mm + j]);
                    } else {
                        assert(j < cnt);
                    }
                }
            }
            m += 1;
        }
        let top = ptr_block(index, 2, slc);
        let ghost pre = disk@;
        disk.write(&top, index[1]);
        d.doubly_indirect[0] = index[1];
        proof {
            assert(index@[1] == all[n + 1]);
            assert(index@[0] == all[n + 0]);
            assert forall|mm: int, j: int| 0 <= mm < slc && 0 <= j < 128 && 132 + 128 * mm + j < n implies
                #[trigger] ptr_at(disk@[index@[2 + mm] as int], j) == data@[132 + 128 * mm + j] by {
                assert(index@[2 + mm] == all[n + 2 + mm]);
                assert(ptr_at(pre[index@[2 + mm] as int], j) == data@[132 + 128 * mm + j]);
            }
            assert forall|x: Size| x < disk0.len() && !index@.contains(x) implies #[trigger] disk@[x as int] == after_ind[x as int] by {
                assert(pre[x as int] == after_ind[x as int]);
            }
        }
    }
    proof {
        let fd = *d;
        let fdisk = disk@;
        assert(n > 4 ==> fd.indirect@[0] == index@[0]);
        assert(n > 132 ==> fd.doubly_indirect@[0] == index@[1]);
        if n > 4 {
            assert(index@[0] == all[n + 0]);
            if n > 132 {
                assert(index@[1] == all[n + 1]);
            }
        }
        assert forall|m: int| 0 <= m < second_level_count(n as int) implies #[trigger] second_level(fd, fdisk, m)
            == index@[2 + m] by {}
        assert forall|m: int| 0 <= m < second_level_count(n as int) implies #[trigger] second_level(fd, fdisk, m)
            != fd.indirect@[0] && second_level(fd, fdisk, m) != fd.doubly_indirect@[0] by {
            assert(index@[2 + m] == all[n + 2 + m]);
            assert(index@[0] == all[n + 0]);
            assert(index@[1] == all[n + 1]);
        }
        assert forall|m1: int, m2: int| 0 <= m1 < m2 < second_level_count(n as int) implies #[trigger] second_level(fd, fdisk, m1)
            != #[trigger] second_level(fd, fdisk, m2) by {
            assert(index@[2 + m1] == all[n + 2 + m1]);
            assert(index@[2 + m2] == all[n + 2 + m2]);
        }
        assert forall|k: int| 0 <= k < n implies #[trigger] data_block(fd, fdisk, k) == data@[k] by {
            if 4 <= k < 132 {
                assert(fdisk[index@[0] as int] == after_ind[index@[0] as int]);
            } else if k >= 132 {
                let m = (k - 132) / 128;
                let j = (k - 132) % 128;
                assert(0 <= m < second_level_count(n as int));
                assert(132 + 128 * m + j == k);
            }
        }
        assert(file_blocks(fd, fdisk) =~= data@);
        assert forall|b: Size| index@.contains(b) implies is_index_block(fd, fdisk, b) by {
            let i = choose|i: int| 0 <= i < index@.len() && index@[i] == b;
            if i >= 2 {
                assert(second_level(fd, fdisk, i - 2) == b);
            }
        }
        assert forall|b: Size| is_index_block(fd, fdisk, b) implies index@.contains(b) by {
            if n > 4 && b == fd.indirect@[0] {
                assert(index@[0] == b);
            } else if n > 132 && b == fd.doubly_indirect@[0] {
                assert(index@[1] == b);
            } else {
                let m = choose|m: int| 0 <= m < second_level_count(n as int) && b == #[trigger] second_level(fd, fdisk, m);
                assert(index@[2 + m] == b);
            }
        }
        assert forall|x: Size| x < disk0.len() && !index@.contains(x) implies #[trigger] fdisk[x as int] == disk0[x as int] by {
            if n > 4 {
                assert(x != index@[0]);
            }
        }
    }
}


/// The file's indirection blocks in index order: the indirect block, the
/// doubly-indirect block, then the second-level blocks.
fn index_list<D: BlockOperations>(d: &InodeDisk, disk: &mut BlockDevice<D>) -> (r: Vec<Size>)
    requires
        old(disk).wf(),
        index_in_range(*d, old(disk)@),
    ensures
        final(disk).wf(),
        final(disk)@ == old(disk)@,
        final(disk).writes() == old(disk).writes(),
        r@.len() == index_count(blocks_for(d.len as int)),
        blocks_for(d.len as int) > 4 ==> r@[0] == d.indirect@[0],
        blocks_for(d.len as int) > 132 ==> r@[1] == d.doubly_indirect@[0],
        forall|m: int|
            0 <= m < second_level_count(blocks_for(d.len as int)) ==> #[trigger] r@[2 + m] == second_level(
                *d,
                old(disk)@,
                m,
            ),
        forall|b: Size| r@.contains(b) <==> is_index_block(*d, old(disk)@, b),
{
    let ghost disk0 = disk@;
    let len = d.len;
    let n = (len / BLOCK_SIZE + if len % BLOCK_SIZE == 0 { 0 } else { 1 }) as usize;
    let mut r: Vec<Size> = Vec::new();
    if n > N_DIRECT {
        r.push(d.indirect[0]);
    }
    if n > SINGLE_LIMIT {
        r.push(d.doubly_indirect[0]);
        let mut top: Block = [0u8; BLOCK_USIZE];
        disk.read(&mut top, d.doubly_indirect[0]);
        let slc = (n - SINGLE_LIMIT + 127) / PTRS_PER_BLOCK;
        let mut m: usize = 0;
        while m < slc
            invariant
                m <= slc,
                slc == second_level_count(n as int),
                n == blocks_for(d.len as int),
                n > SINGLE_LIMIT,
                n <= MAX_BLOCKS,
                top@ == disk0[d.doubly_indirect@[0] as int],
                r@.len() == 2 + m,
                r@[0] == d.indirect@[0],
                r@[1] == d.doubly_indirect@[0],
                forall|j: int| 0 <= j < m ==> #[trigger] r@[2 + j] == second_level(*d, disk0, j),
            decreases slc - m,
        {
            let p = read_word(&top, PTR_BYTES * m);
            r.push(p);
            m += 1;
        }
    }
    proof {
        assert forall|b: Size| r@.contains(b) <==> is_index_block(*d, disk0, b) by {
            if r@.contains(b) {
                let j = choose|j: int| 0 <= j < r@.len() && r@[j] == b;
                if j >= 2 {
                    let m = j - 2;
                    assert(r@[2 + m] == second_level(*d, disk0, m));
                }
            }
            if is_index_block(*d, disk0, b) {
                if n > 4 && b == d.indirect@[0] {
                    assert(r@[0] == b);
                } else if n > 132 && b == d.doubly_indirect@[0] {
                    assert(r@[1] == b);
                } else {
                    let m = choose|m: int| 0 <= m < second_level_count(n as int) && b == #[trigger] second_level(*d, disk0, m);
                    assert(r@[2 + m] == b);
                }
            }
        }
    }
    r
}

/// The file's inode block, data blocks and indirection blocks are all marked
/// in use in `bits`.
pub open spec fn tree_marked(d: InodeDisk, disk: Seq<Seq<u8>>, inum: Size, bits: Seq<bool>) -> bool {
    &&& inum < bits.len()
    &&& bits[inum as int]
    &&& forall|k: int|
        0 <= k < blocks_for(d.len as int) ==> #[trigger] bits[data_block(d, disk, k) as int]
    &&& forall|b: Size| #[trigger] is_index_block(d, disk, b) ==> b < bits.len() && bits[b as int]
}



/// The old data blocks, the fresh blocks and the old indirection blocks of a
/// growing file are all distinct and on the device.
proof fn lemma_grow_layout(
    old_d: InodeDisk,
    disk0: Seq<Seq<u8>>,
    inum: Size,
    bits0: Seq<bool>,
    old_index: Seq<Size>,
    fresh: Seq<Size>,
    extra: int,
    data: Seq<Size>,
    index: Seq<Size>,
)
    requires
        tree_ok(old_d, disk0, inum),
        tree_marked(old_d, disk0, inum, bits0),
        bits0.len() == disk0.len(),
        old_index.len() == index_count(blocks_for(old_d.len as int)),
        blocks_for(old_d.len as int) > 4 ==> old_index[0] == old_d.indirect@[0],
        blocks_for(old_d.len as int) > 132 ==> old_index[1] == old_d.doubly_indirect@[0],
        forall|m: int|
            0 <= m < second_level_count(blocks_for(old_d.len as int)) ==> #[trigger] old_index[2 + m]
                == second_level(old_d, disk0, m),
        forall|b: Size| old_index.contains(b) <==> is_index_block(old_d, disk0, b),
        forall|a: int| 0 <= a < fresh.len() ==> #[trigger] fresh[a] < disk0.len() && !bits0[fresh[a] as int],
        forall|a: int, c: int| 0 <= a < c < fresh.len() ==> fresh[a] != fresh[c],
        0 <= extra <= fresh.len(),
        data == file_blocks(old_d, disk0) + fresh.subrange(0, extra),
        index == old_index + fresh.subrange(extra, fresh.len() as int),
    ensures
        (data + index).no_duplicates(),
        forall|a: int| 0 <= a < data.len() ==> #[trigger] data[a] < disk0.len(),
        forall|a: int| 0 <= a < index.len() ==> #[trigger] index[a] < disk0.len(),
{
    let n = blocks_for(old_d.len as int);
    let no = old_index.len() as int;
    let n2 = n + extra;
    let all = data + index;
    assert forall|a: int, c: int| 0 <= a < c < no implies old_index[a] != old_index[c] by {
        if a >= 2 {
            assert(old_index[2 + (a - 2)] == second_level(old_d, disk0, a - 2));
        }
        if c >= 2 {
            assert(old_index[2 + (c - 2)] == second_level(old_d, disk0, c - 2));
        }
    }
    assert forall|p: int| 0 <= p < all.len() implies {
        &&& #[trigger] all[p] < disk0.len()
        &&& (p < n ==> bits0[all[p] as int] && !old_index.contains(all[p]) && all[p] == data_block(old_d, disk0, p))
        &&& (n <= p < n2 ==> !bits0[all[p] as int] && all[p] == fresh[p - n])
        &&& (n2 <= p < n2 + no ==> bits0[all[p] as int] && all[p] == old_index[p - n2])
        &&& (n2 + no <= p ==> !bits0[all[p] as int] && all[p] == fresh[extra + p - n2 - no])
    } by {
        if p < n {
            assert(all[p] == data_block(old_d, disk0, p));
            if old_index.contains(all[p]) {
                assert(is_index_block(old_d, disk0, all[p]));
            }
        } else if p < n2 {
            assert(all[p] == fresh[p - n]);
        } else if p < n2 + no {
            assert(all[p] == old_index[p - n2]);
            assert(old_index.contains(old_index[p - n2]));
            assert(is_index_block(old_d, disk0, old_index[p - n2]));
        } else {
            assert(all[p] == fresh[extra + p - n2 - no]);
        }
    }
    assert forall|a: int, c: int| 0 <= a < c < all.len() implies all[a] != all[c] by {
        if a < n && c < n {
            assert(data_block(old_d, disk0, a) != data_block(old_d, disk0, c));
        } else if a < n && n2 <= c < n2 + no {
            assert(old_index.contains(old_index[c - n2]));
        } else if n2 <= a < n2 + no && n2 <= c < n2 + no {
            assert(old_index[a - n2] != old_index[c - n2]);
        } else if n <= a < n2 && n <= c < n2 {
            assert(fresh[a - n] != fresh[c - n]);
        } else if n <= a < n2 && n2 + no <= c {
            assert(fresh[a - n] != fresh[extra + c - n2 - no]);
        } else if n2 + no <= a && n2 + no <= c {
            assert(fresh[extra + a - n2 - no] != fresh[extra + c - n2 - no]);
        }
    }
    assert forall|a: int| 0 <= a < data.len() implies #[trigger] data[a] < disk0.len() by {
        assert(all[a] == data[a]);
    }
    assert forall|a: int| 0 <= a < index.len() implies #[trigger] index[a] < disk0.len() by {
        assert(all[data.len() + a] == index[a]);
    }
}

/// After growing: the rebuilt index over `data` (the old data blocks then
/// fresh ones) and `index` (the old indirection blocks then fresh ones) is
/// sound, marked, and keeps the old bytes.
proof fn lemma_grown(
    old_d: InodeDisk,
    d: InodeDisk,
    disk0: Seq<Seq<u8>>,
    disk2: Seq<Seq<u8>>,
    fdisk: Seq<Seq<u8>>,
    inum: Size,
    bits0: Seq<bool>,
    bits1: Seq<bool>,
    data: Seq<Size>,
    index: Seq<Size>,
    old_index: Seq<Size>,
    fresh: Seq<Size>,
    extra: int,
)
    requires
        tree_ok(old_d, disk0, inum),
        tree_marked(old_d, disk0, inum, bits0),
        bits0.len() == disk0.len(),
        bits1.len() == bits0.len(),
        forall|i: int| 0 <= i < bits0.len() ==> #[trigger] bits1[i] == (bits0[i] || fresh.contains(i as Size)),
        forall|a: int| 0 <= a < fresh.len() ==> #[trigger] fresh[a] < disk0.len() && !bits0[fresh[a] as int],
        0 <= extra <= fresh.len(),
        data == file_blocks(old_d, disk0) + fresh.subrange(0, extra),
        index == old_index + fresh.subrange(extra, fresh.len() as int),
        forall|b: Size| old_index.contains(b) <==> is_index_block(old_d, disk0, b),
        (data + index).no_duplicates(),
        forall|a: int| 0 <= a < data.len() ==> #[trigger] data[a] < disk0.len(),
        d.len >= old_d.len,
        disk2.len() == disk0.len(),
        index_in_range(d, disk2),
        index_distinct(d, disk2),
        file_blocks(d, disk2) == data,
        forall|b: Size| is_index_block(d, disk2, b) <==> index.contains(b),
        forall|x: Size| x < disk0.len() && !index.contains(x) ==> #[trigger] disk2[x as int] == disk0[x as int],
        fdisk == disk2.update(inum as int, fdisk[inum as int]),
        inum < disk0.len(),
    ensures
        tree_ok(d, fdisk, inum),
        tree_marked(d, fdisk, inum, bits1),
        file_blocks(d, fdisk) == data,
        forall|i: int| 0 <= i < old_d.len ==> #[trigger] content(d, fdisk)[i] == content(old_d, disk0)[i],
        forall|x: Size|
            x < disk0.len() && x != inum && bits0[x as int] && !is_index_block(old_d, disk0, x)
                ==> #[trigger] fdisk[x as int] == disk0[x as int],
        forall|b: Size| is_index_block(d, fdisk, b) || file_blocks(d, fdisk).contains(b)
            ==> #[trigger] is_index_block(old_d, disk0, b) || file_blocks(old_d, disk0).contains(b)
                || fresh.contains(b),
{
    let n = blocks_for(old_d.len as int);
    let fb0 = file_blocks(old_d, disk0);
    assert(bits0[inum as int]);
    assert(!fresh.contains(inum)) by {
        if fresh.contains(inum) {
            let a = choose|a: int| 0 <= a < fresh.len() && fresh[a] == inum;
        }
    }
    assert(!old_index.contains(inum));
    assert(!index.contains(inum)) by {
        if index.contains(inum) {
            let a = choose|a: int| 0 <= a < index.len() && index[a] == inum;
            if a >= old_index.len() {
                assert(fresh[extra + a - old_index.len()] == inum);
            } else {
                assert(old_index[a] == inum);
            }
        }
    }
    assert forall|b: Size| is_index_block(d, disk2, b) implies fdisk[b as int] == disk2[b as int] by {
        assert(index.contains(b));
    }
    lemma_index_stable(d, disk2, fdisk);
    assert(file_blocks(d, fdisk) =~= data);
    // where each block of data and index comes from
    assert forall|k: int| 0 <= k < data.len() implies !index.contains(#[trigger] data[k]) by {
        if index.contains(data[k]) {
            let a = choose|a: int| 0 <= a < index.len() && index[a] == data[k];
            assert((data + index)[k] == (data + index)[data.len() + a]);
        }
    }
    assert forall|k: int| 0 <= k < data.len() implies #[trigger] data[k] != inum && bits1[data[k] as int] by {
        if k < n {
            assert(data[k] == data_block(old_d, disk0, k));
            assert(bits0[data_block(old_d, disk0, k) as int]);
        } else {
            assert(data[k] == fresh[k - n]);
            assert(fresh.contains(data[k]));
        }
    }
    assert forall|b: Size| #[trigger] index.contains(b) implies b < bits1.len() && bits1[b as int] by {
        let a = choose|a: int| 0 <= a < index.len() && index[a] == b;
        if a >= old_index.len() {
            assert(fresh[extra + a - old_index.len()] == b);
            assert(fresh.contains(b));
        } else {
            assert(old_index.contains(b));
            assert(is_index_block(old_d, disk0, b));
        }
    }
    // tree_ok
    assert(index_distinct(d, fdisk));
    assert forall|k: int| 0 <= k < data.len() implies {
        &&& #[trigger] data_block(d, fdisk, k) < fdisk.len()
        &&& data_block(d, fdisk, k) != inum
        &&& !is_index_block(d, fdisk, data_block(d, fdisk, k))
    } by {
        assert(file_blocks(d, fdisk)[k] == data[k]);
        assert(!index.contains(data[k]));
    }
    assert forall|k1: int, k2: int| 0 <= k1 < k2 < data.len() implies #[trigger] data_block(d, fdisk, k1)
        != #[trigger] data_block(d, fdisk, k2) by {
        assert(file_blocks(d, fdisk)[k1] == data[k1]);
        assert(file_blocks(d, fdisk)[k2] == data[k2]);
        assert((data + index)[k1] == data[k1]);
        assert((data + index)[k2] == data[k2]);
    }
    // tree_marked
    assert forall|k: int| 0 <= k < data.len() implies #[trigger] bits1[data_block(d, fdisk, k) as int] by {
        assert(file_blocks(d, fdisk)[k] == data[k]);
    }
    assert forall|b: Size| #[trigger] is_index_block(d, fdisk, b) implies b < bits1.len() && bits1[b as int] by {
        assert(index.contains(b));
    }
    // old bytes
    assert forall|i: int| 0 <= i < old_d.len implies #[trigger] content(d, fdisk)[i] == content(old_d, disk0)[i] by {
        let k = i / 1024;
        assert(0 <= k < n);
        assert(file_blocks(d, fdisk)[k] == data[k]);
        assert(data[k] == data_block(old_d, disk0, k));
        assert(!index.contains(data[k]));
        assert(data[k] != inum);
    }
    // untouched blocks
    assert forall|x: Size| x < disk0.len() && x != inum && bits0[x as int] && !is_index_block(old_d, disk0, x)
        implies #[trigger] fdisk[x as int] == disk0[x as int] by {
        if index.contains(x) {
            let a = choose|a: int| 0 <= a < index.len() && index[a] == x;
            if a >= old_index.len() {
                assert(fresh[extra + a - old_index.len()] == x);
            } else {
                assert(old_index.contains(x));
            }
        }
    }
    assert forall|b: Size| is_index_block(d, fdisk, b) || file_blocks(d, fdisk).contains(b) implies
        #[trigger] is_index_block(old_d, disk0, b) || file_blocks(old_d, disk0).contains(b) || fresh.contains(b) by {
        if is_index_block(d, fdisk, b) {
            assert(index.contains(b));
            let a = choose|a: int| 0 <= a < index.len() && index[a] == b;
            if a >= old_index.len() {
                assert(fresh[extra + a - old_index.len()] == b);
            } else {
                assert(old_index.contains(b));
            }
        } else {
            let k = choose|k: int| 0 <= k < file_blocks(d, fdisk).len() && file_blocks(d, fdisk)[k] == b;
            assert(data[k] == b);
            if k < n {
                assert(fb0[k] == b);
            } else {
                assert(fresh[k - n] == b);
            }
        }
    }
}

/// The table of open inodes.
pub struct InodeManager {
    open_list: Vec<Inode>,
}

impl InodeManager {
    pub closed spec fn wf(&self) -> bool {
        &&& forall|i: int, j: int|
            0 <= i < j < self.open_list@.len() ==> #[trigger] self.open_list@[i].block
                != #[trigger] self.open_list@[j].block
        &&& forall|i: int| 0 <= i < self.open_list@.len() ==> #[trigger] self.open_list@[i].open_count > 0
    }

    /// Writes the record of open inode `inum` to its block.
    pub fn store_inode<D: BlockOperations>(&self, inum: Size, disk: &mut BlockDevice<D>)
        requires
            self.wf(),
            self.has(inum),
            old(disk).wf(),
            inum < old(disk)@.len(),
        ensures
            final(disk).wf(),
            final(disk)@ == old(disk)@.update(inum as int, final(disk)@[inum as int]),
            inode_block(final(disk)@[inum as int], self.entry(inum).spec_data()),
    {
        let d = self.get(inum).unwrap().record();
        let blk = d.encode();
        disk.write(&blk, inum);
    }

    /// Whether inode `inum` is open.
    pub closed spec fn has(&self, inum: Size) -> bool {
        exists|i: int| 0 <= i < self.open_list@.len() && #[trigger] self.open_list@[i].block == inum
    }

    /// The open inode `inum`.
    pub closed spec fn entry(&self, inum: Size) -> Inode {
        self.open_list@[choose|i: int| 0 <= i < self.open_list@.len() && #[trigger] self.open_list@[i].block == inum]
    }

    /// Every open inode's block is marked in use in `bits`.
    pub open spec fn inumbers_marked(&self, bits: Seq<bool>) -> bool {
        forall|b: Size| #[trigger] self.has(b) ==> b < bits.len() && bits[b as int]
    }

    proof fn lemma_entry(&self, i: int)
        requires
            self.wf(),
            0 <= i < self.open_list@.len(),
        ensures
            self.has(self.open_list@[i].block),
            self.entry(self.open_list@[i].block) == self.open_list@[i],
            self.open_list@[i].spec_inumber() == self.open_list@[i].block,
    {
        let b = self.open_list@[i].block;
        let j = choose|j: int| 0 <= j < self.open_list@.len() && #[trigger] self.open_list@[j].block == b;
        if j != i {
            if i < j {
                assert(self.open_list@[i].block != self.open_list@[j].block);
            } else {
                assert(self.open_list@[j].block != self.open_list@[i].block);
            }
        }
    }

    /// An empty table.
    pub fn init() -> (r: Self)
        ensures
            r.wf(),
            forall|b: Size| !r.has(b),
    {
        InodeManager { open_list: Vec::new() }
    }

    /// Position of inode `inum` in the table.
    fn find(&self, inum: Size) -> (r: Option<usize>)
        requires
            self.wf(),
        ensures
            r is Some <==> self.has(inum),
            r matches Some(i) ==> i < self.open_list@.len() && self.open_list@[i as int].block == inum
                && self.entry(inum) == self.open_list@[i as int],
    {
        let mut i: usize = 0;
        while i < self.open_list.len()
            invariant
                self.wf(),
                i <= self.open_list@.len(),
                forall|j: int| 0 <= j < i ==> #[trigger] self.open_list@[j].block != inum,
            decreases self.open_list@.len() - i,
        {
            if self.open_list[i].block == inum {
                proof {
                    self.lemma_entry(i as int);
                }
                return Some(i);
            }
            i += 1;
        }
        None
    }

    /// The open inode `inum`, if it is open.
    pub fn get(&self, inum: Size) -> (r: Option<&Inode>)
        requires
            self.wf(),
        ensures
            r is Some <==> self.has(inum),
            r matches Some(x) ==> *x == self.entry(inum) && x.spec_inumber() == inum,
    {
        match self.find(inum) {
            Some(i) => Some(&self.open_list[i]),
            None => None,
        }
    }

    /// Opens inode `block_num`: counts one more handle if it is open,
    /// otherwise reads its record from the device and enters it with one handle.
    pub fn open_inode<D: BlockOperations>(&mut self, block_num: Size, disk: &mut BlockDevice<D>) -> (r: Size)
        requires
            old(self).wf(),
            old(disk).wf(),
            block_num < old(disk)@.len(),
            old(self).has(block_num) ==> old(self).entry(block_num).opens() < usize::MAX,
        ensures
            r == block_num,
            final(self).wf(),
            final(disk).wf(),
            final(disk)@ == old(disk)@,
            final(disk).writes() == old(disk).writes(),
            final(self).has(block_num),
            final(self).entry(block_num).spec_inumber() == block_num,
            old(self).has(block_num) ==> final(self).entry(block_num).spec_data() == old(self).entry(
                block_num,
            ).spec_data() && final(self).entry(block_num).opens() == old(self).entry(block_num).opens() + 1,
            !old(self).has(block_num) ==> holds_inode(old(disk)@[block_num as int], final(self).entry(block_num).spec_data())
                && final(self).entry(block_num).opens() == 1,
            old(self).has(block_num) ==> final(disk).reads() == old(disk).reads(),
            !old(self).has(block_num) ==> final(disk).reads() == crate::block::bumped(old(disk).reads()),
            forall|b: Size| b != block_num ==> (#[trigger] final(self).has(b) == old(self).has(b)),
            forall|b: Size| b != block_num && old(self).has(b) ==> #[trigger] final(self).entry(b) == old(self).entry(b),
    {
        let ghost pre = *self;
        match self.find(block_num) {
            Some(i) => {
                let mut inode = self.open_list.remove(i);
                inode.incr_open();
                self.open_list.insert(i, inode);
                proof {
                    assert(self.open_list@ =~= pre.open_list@.update(i as int, inode));
                    assert forall|a: int, c: int| 0 <= a < c < self.open_list@.len() implies #[trigger] self.open_list@[a].block
                        != #[trigger] self.open_list@[c].block by {
                        assert(pre.open_list@[a].block != pre.open_list@[c].block);
                    }
                    self.lemma_entry(i as int);
                    assert forall|b: Size| b != block_num implies (#[trigger] self.has(b) == pre.has(b)) by {
                        if pre.has(b) {
                            let j = choose|j: int| 0 <= j < pre.open_list@.len() && #[trigger] pre.open_list@[j].block == b;
                            assert(self.open_list@[j].block == b);
                        }
                        if self.has(b) {
                            let j = choose|j: int| 0 <= j < self.open_list@.len() && #[trigger] self.open_list@[j].block == b;
                            assert(pre.open_list@[j].block == b);
                        }
                    }
                    assert forall|b: Size| b != block_num && pre.has(b) implies #[trigger] self.entry(b) == pre.entry(b) by {
                        let j = choose|j: int| 0 <= j < pre.open_list@.len() && #[trigger] pre.open_list@[j].block == b;
                        pre.lemma_entry(j);
                        self.lemma_entry(j);
                    }
                }
            },
            None => {
                let mut block: Block = [0u8; BLOCK_USIZE];
                disk.read(&mut block, block_num);
                let data = InodeDisk::decode(&block);
                let inode = Inode { open_count: 1, block: block_num, data };
                self.open_list.push(inode);
                proof {
                    let last = pre.open_list@.len() as int;
                    assert(self.open_list@[last] == inode);
                    assert forall|i: int, j: int| 0 <= i < j < self.open_list@.len() implies #[trigger] self.open_list@[i].block
                        != #[trigger] self.open_list@[j].block by {
                        if j == last {
                            assert(pre.open_list@[i].block != block_num);
                        }
                    }
                    self.lemma_entry(last);
                    assert forall|b: Size| b != block_num implies (#[trigger] self.has(b) == pre.has(b)) by {
                        if pre.has(b) {
                            let j = choose|j: int| 0 <= j < pre.open_list@.len() && #[trigger] pre.open_list@[j].block == b;
                            assert(self.open_list@[j].block == b);
                        }
                        if self.has(b) {
                            let j = choose|j: int| 0 <= j < self.open_list@.len() && #[trigger] self.open_list@[j].block == b;
                            assert(pre.open_list@[j].block == b);
                        }
                    }
                    assert forall|b: Size| b != block_num && pre.has(b) implies #[trigger] self.entry(b) == pre.entry(b) by {
                        let j = choose|j: int| 0 <= j < pre.open_list@.len() && #[trigger] pre.open_list@[j].block == b;
                        pre.lemma_entry(j);
                        self.lemma_entry(j);
                    }
                }
            },
        }
        block_num
    }

    /// Drops one handle on inode `inum`; the last one takes it out of the
    /// table. Its record on the device is not touched.
    pub fn close(&mut self, inum: Size)
        requires
            old(self).wf(),
            old(self).has(inum),
        ensures
            final(self).wf(),
            old(self).entry(inum).opens() == 1 ==> !final(self).has(inum),
            old(self).entry(inum).opens() > 1 ==> final(self).has(inum) && final(self).entry(inum).opens()
                == old(self).entry(inum).opens() - 1 && final(self).entry(inum).spec_data() == old(self).entry(
                inum,
            ).spec_data() && final(self).entry(inum).spec_inumber() == inum,
            forall|b: Size| b != inum ==> (#[trigger] final(self).has(b) == old(self).has(b)),
            forall|b: Size| b != inum && old(self).has(b) ==> #[trigger] final(self).entry(b) == old(self).entry(b),
    {
        let ghost pre = *self;
        let i = self.find(inum).unwrap();
        let mut inode = self.open_list.remove(i);
        inode.decr_open();
        if inode.no_refs() {
            proof {
                assert forall|b: Size| b != inum implies (#[trigger] self.has(b) == pre.has(b)) by {
                    if pre.has(b) {
                        let j = choose|j: int| 0 <= j < pre.open_list@.len() && #[trigger] pre.open_list@[j].block == b;
                        assert(j != i);
                        if j < i {
                            assert(self.open_list@[j].block == b);
                        } else {
                            assert(self.open_list@[j - 1].block == b);
                        }
                    }
                    if self.has(b) {
                        let j = choose|j: int| 0 <= j < self.open_list@.len() && #[trigger] self.open_list@[j].block == b;
                        if j < i {
                            assert(pre.open_list@[j].block == b);
                        } else {
                            assert(pre.open_list@[j + 1].block == b);
                        }
                    }
                }
                if self.has(inum) {
                    let j = choose|j: int| 0 <= j < self.open_list@.len() && #[trigger] self.open_list@[j].block == inum;
                    if j < i {
                        assert(pre.open_list@[j].block == inum);
                    } else {
                        assert(pre.open_list@[j + 1].block == inum);
                    }
                }
                assert forall|i2: int, j2: int| 0 <= i2 < j2 < self.open_list@.len() implies #[trigger] self.open_list@[i2].block
                    != #[trigger] self.open_list@[j2].block by {
                    let a = if i2 < i { i2 } else { i2 + 1 };
                    let c = if j2 < i { j2 } else { j2 + 1 };
                    assert(pre.open_list@[a].block != pre.open_list@[c].block);
                }
                assert forall|b: Size| b != inum && pre.has(b) implies #[trigger] self.entry(b) == pre.entry(b) by {
                    let j = choose|j: int| 0 <= j < pre.open_list@.len() && #[trigger] pre.open_list@[j].block == b;
                    pre.lemma_entry(j);
                    if j < i {
                        self.lemma_entry(j);
                    } else {
                        self.lemma_entry(j - 1);
                    }
                }
            }
        } else {
            self.open_list.insert(i, inode);
            proof {
                assert(self.open_list@ =~= pre.open_list@.update(i as int, inode));
                self.lemma_entry(i as int);
                assert forall|b: Size| b != inum implies (#[trigger] self.has(b) == pre.has(b)) by {
                    if pre.has(b) {
                        let j = choose|j: int| 0 <= j < pre.open_list@.len() && #[trigger] pre.open_list@[j].block == b;
                        assert(self.open_list@[j].block == b);
                    }
                    if self.has(b) {
                        let j = choose|j: int| 0 <= j < self.open_list@.len() && #[trigger] self.open_list@[j].block == b;
                        assert(pre.open_list@[j].block == b);
                    }
                }
                assert forall|b: Size| b != inum && pre.has(b) implies #[trigger] self.entry(b) == pre.entry(b) by {
                    let j = choose|j: int| 0 <= j < pre.open_list@.len() && #[trigger] pre.open_list@[j].block == b;
                    pre.lemma_entry(j);
                    self.lemma_entry(j);
                }
            }
        }
    }

    /// Makes a file of `length` bytes: takes, in one allocation, the lowest
    /// free blocks for its inode, its data blocks and its indirection blocks,
    /// writes the index and the inode, and opens it with one handle. Fails,
    /// changing nothing, when the file is too large for the index or too few
    /// blocks are free.
    #[verifier::rlimit(100)]
    pub fn create_inode<D: BlockOperations>(&mut self, length: Size, disk: &mut BlockDevice<D>, free_map: &mut FreeMap) -> (r: Option<Size>)
        requires
            old(self).wf(),
            old(disk).wf(),
            old(free_map).wf(),
            old(free_map)@.len() == old(disk)@.len(),
            old(self).inumbers_marked(old(free_map)@),
        ensures
            final(self).wf(),
            final(disk).wf(),
            final(free_map).wf(),
            final(disk)@.len() == old(disk)@.len(),
            final(free_map)@.len() == old(free_map)@.len(),
            final(self).inumbers_marked(final(free_map)@),
            forall|b: Size| #[trigger] old(self).has(b) ==> final(self).has(b) && final(self).entry(b) == old(self).entry(b),
            ({
                let n = blocks_for(length as int);
                let need = 1 + n + index_count(n);
                let free = first_free(old(free_map)@, old(free_map)@.len() as int);
                &&& r is Some <==> (n <= MAX_BLOCKS && free.len() >= need)
                &&& r is None ==> final(disk)@ == old(disk)@ && final(free_map)@ == old(free_map)@
                    && forall|b: Size| #[trigger] final(self).has(b) == old(self).has(b)
                &&& r matches Some(inum) ==> {
                    let fresh = free.take(need);
                    let d = final(self).entry(inum).spec_data();
                    &&& inum == fresh[0]
                    &&& !old(self).has(inum)
                    &&& final(self).has(inum)
                    &&& forall|b: Size| b != inum ==> #[trigger] final(self).has(b) == old(self).has(b)
                    &&& final(self).entry(inum).opens() == 1
                    &&& final(self).entry(inum).spec_inumber() == inum
                    &&& d.len == length
                    &&& d.magic == INODE_MAGIC
                    &&& tree_ok(d, final(disk)@, inum)
                    &&& tree_marked(d, final(disk)@, inum, final(free_map)@)
                    &&& file_blocks(d, final(disk)@) == fresh.subrange(1, 1 + n)
                    &&& forall|b: Size| fresh.contains(b) <==> (b == inum || file_blocks(d, final(disk)@).contains(b)
                        || is_index_block(d, final(disk)@, b))
                    &&& inode_block(final(disk)@[inum as int], d)
                    &&& forall|x: Size| x < old(disk)@.len() && !fresh.contains(x) ==> #[trigger] final(disk)@[x as int] == old(disk)@[x as int]
                    &&& forall|i: int| 0 <= i < old(free_map)@.len() ==> #[trigger] final(free_map)@[i] == (old(free_map)@[i] || fresh.contains(i as Size))
                }
            }),
    {
        let ghost bits0 = free_map@;
        let ghost disk0 = disk@;
        let ghost free = first_free(bits0, bits0.len() as int);
        proof {
            free_map.lemma_bounded();
        }
        let n64 = length / BLOCK_SIZE + if length % BLOCK_SIZE == 0 { 0 } else { 1 };
        proof {
            assert(n64 == blocks_for(length as int));
        }
        if n64 > MAX_BLOCKS as u64 {
            return None;
        }
        let n = n64 as usize;
        let idx: usize = (if n > N_DIRECT { 1 } else { 0 }) + (if n > SINGLE_LIMIT {
            1 + (n - SINGLE_LIMIT + 127) / PTRS_PER_BLOCK
        } else {
            0
        });
        let need = 1 + n + idx;
        let mut alloc: Vec<Size> = Vec::new();
        if !free_map.allocate(need, &mut alloc) {
            return None;
        }
        proof {
            assert(alloc@ =~= free.take(need as int));
            crate::free_map::lemma_first_free(bits0, bits0.len() as int);
        }
        let ghost fresh = alloc@;
        let inum = alloc[0];
        let mut data: Vec<Size> = Vec::new();
        let mut i: usize = 0;
        while i < n
            invariant
                i <= n,
                alloc@ == fresh,
                fresh.len() == need,
                need == 1 + n + idx,
                data@ == fresh.subrange(1, 1 + i),
            decreases n - i,
        {
            data.push(alloc[1 + i]);
            i += 1;
            assert(data@ =~= fresh.subrange(1, 1 + i));
        }
        let mut index: Vec<Size> = Vec::new();
        let mut i: usize = 0;
        while i < idx
            invariant
                i <= idx,
                alloc@ == fresh,
                fresh.len() == need,
                need == 1 + n + idx,
                index@ == fresh.subrange(1 + n, 1 + n + i),
            decreases idx - i,
        {
            index.push(alloc[1 + n + i]);
            i += 1;
            assert(index@ =~= fresh.subrange(1 + n, 1 + n + i));
        }
        proof {
            assert(fresh.no_duplicates()) by {
                assert forall|a: int, c: int| 0 <= a < fresh.len() && 0 <= c < fresh.len() && a != c implies fresh[a] != fresh[c] by {
                    if a < c {
                        assert(free[a] < free[c]);
                    } else {
                        assert(free[c] < free[a]);
                    }
                }
            }
            assert(data@ + index@ =~= fresh.subrange(1, need as int));
            assert forall|a: int, c: int| 0 <= a < c < (data@ + index@).len() implies (data@ + index@)[a] != (data@ + index@)[c] by {
                assert((data@ + index@)[a] == fresh[a + 1]);
                assert((data@ + index@)[c] == fresh[c + 1]);
            }
            assert forall|j: int| 0 <= j < fresh.len() implies #[trigger] fresh[j] < disk0.len() && !bits0[fresh[j] as int] by {
                assert(free[j] == fresh[j]);
            }
        }
        let mut d = InodeDisk::empty();
        d.len = length;
        let ghost disk1 = disk@;
        build_index(&mut d, &data, &index, disk);
        let ghost disk2 = disk@;
        let blk = d.encode();
        disk.write(&blk, inum);
        let inode = Inode { open_count: 1, block: inum, data: d };
        let ghost pre = *self;
        self.open_list.push(inode);
        proof {
            let fdisk = disk@;
            // the inode block is none of the index blocks
            assert forall|b: Size| is_index_block(d, disk2, b) implies fdisk[b as int] == disk2[b as int] by {
                assert(index@.contains(b));
                let j = choose|j: int| 0 <= j < index@.len() && index@[j] == b;
                assert(index@[j] == fresh[1 + n + j]);
                assert(fresh[0] != fresh[1 + n + j]);
            }
            lemma_index_stable(d, disk2, fdisk);
            assert(file_blocks(d, fdisk) =~= file_blocks(d, disk2));
            assert forall|k: int| 0 <= k < n implies #[trigger] data_block(d, fdisk, k) == fresh[1 + k] by {
                assert(file_blocks(d, disk2)[k] == data@[k]);
            }
            assert forall|b: Size| #[trigger] fresh.contains(b) <==> (b == inum || file_blocks(d, fdisk).contains(b)
                || is_index_block(d, fdisk, b)) by {
                if fresh.contains(b) {
                    let j = choose|j: int| 0 <= j < fresh.len() && fresh[j] == b;
                    if 1 <= j < 1 + n {
                        assert(data_block(d, fdisk, j - 1) == fresh[j]);
                        assert(file_blocks(d, fdisk)[j - 1] == b);
                    } else if j >= 1 + n {
                        assert(index@[j - 1 - n] == b);
                        assert(index@.contains(b));
                        assert(is_index_block(d, disk2, b));
                    }
                }
                if file_blocks(d, fdisk).contains(b) {
                    let k = choose|k: int| 0 <= k < file_blocks(d, fdisk).len() && file_blocks(d, fdisk)[k] == b;
                    assert(data_block(d, fdisk, k) == fresh[1 + k]);
                    assert(fresh[1 + k] == b);
                }
                if is_index_block(d, fdisk, b) {
                    assert(is_index_block(d, disk2, b));
                    assert(index@.contains(b));
                    let j = choose|j: int| 0 <= j < index@.len() && index@[j] == b;
                    assert(fresh[1 + n + j] == b);
                }
            }
            // tree_ok
            assert(!is_index_block(d, fdisk, inum)) by {
                if is_index_block(d, fdisk, inum) {
                    assert(is_index_block(d, disk2, inum));
                    assert(index@.contains(inum));
                    let j = choose|j: int| 0 <= j < index@.len() && index@[j] == inum;
                    assert(fresh[1 + n + j] == inum);
                }
            }
            assert(index_distinct(d, fdisk));
            assert forall|k: int| 0 <= k < n implies {
                &&& #[trigger] data_block(d, fdisk, k) < fdisk.len()
                &&& data_block(d, fdisk, k) != inum
                &&& !is_index_block(d, fdisk, data_block(d, fdisk, k))
            } by {
                assert(data_block(d, fdisk, k) == fresh[1 + k]);
                assert(fresh[0] != fresh[1 + k]);
                if is_index_block(d, fdisk, fresh[1 + k]) {
                    assert(index@.contains(fresh[1 + k]));
                    let j = choose|j: int| 0 <= j < index@.len() && index@[j] == fresh[1 + k];
                    assert(fresh[1 + n + j] == fresh[1 + k]);
                }
            }
            assert forall|k1: int, k2: int| 0 <= k1 < k2 < n implies #[trigger] data_block(d, fdisk, k1)
                != #[trigger] data_block(d, fdisk, k2) by {
                assert(fresh[1 + k1] != fresh[1 + k2]);
            }
            // marks
            assert forall|i: int| 0 <= i < bits0.len() implies #[trigger] free_map@[i] == (bits0[i] || fresh.contains(i as Size)) by {}
            assert(fresh.contains(inum)) by { assert(fresh[0] == inum); }
            assert forall|k: int| 0 <= k < n implies #[trigger] free_map@[data_block(d, fdisk, k) as int] by {
                assert(fresh.contains(fresh[1 + k])) by { assert(fresh[1 + k] == fresh[1 + k]); }
                assert(free_map@[fresh[1 + k] as int] == (bits0[fresh[1 + k] as int] || fresh.contains(fresh[1 + k])));
            }
            assert forall|b: Size| #[trigger] is_index_block(d, fdisk, b) implies b < free_map@.len() && free_map@[b as int] by {
                assert(fresh.contains(b));
                let j = choose|j: int| 0 <= j < fresh.len() && fresh[j] == b;
                assert(free_map@[b as int] == (bits0[b as int] || fresh.contains(b)));
            }
            // holds_inode
            assert(fdisk[inum as int] == blk@);
            // untouched blocks
            assert forall|x: Size| x < disk0.len() && !fresh.contains(x) implies #[trigger] fdisk[x as int] == disk0[x as int] by {
                assert(x != inum);
                if index@.contains(x) {
                    let j = choose|j: int| 0 <= j < index@.len() && index@[j] == x;
                    assert(fresh[1 + n + j] == x);
                }
            }
            // table
            assert(!pre.has(inum)) by {
                if pre.has(inum) {
                    assert(bits0[inum as int]);
                    assert(!bits0[fresh[0] as int]);
                }
            }
            let last = pre.open_list@.len() as int;
            assert(self.open_list@[last] == inode);
            assert forall|a: int, c: int| 0 <= a < c < self.open_list@.len() implies #[trigger] self.open_list@[a].block
                != #[trigger] self.open_list@[c].block by {
                if c == last {
                    assert(pre.open_list@[a].block == self.open_list@[a].block);
                    pre.lemma_entry(a);
                }
            }
            self.lemma_entry(last);
            assert forall|b: Size| b != inum implies (#[trigger] self.has(b) == pre.has(b)) by {
                if pre.has(b) {
                    let j = choose|j: int| 0 <= j < pre.open_list@.len() && #[trigger] pre.open_list@[j].block == b;
                    assert(self.open_list@[j].block == b);
                }
                if self.has(b) {
                    let j = choose|j: int| 0 <= j < self.open_list@.len() && #[trigger] self.open_list@[j].block == b;
                    assert(pre.open_list@[j].block == b);
                }
            }
            assert forall|b: Size| #[trigger] pre.has(b) implies self.has(b) && self.entry(b) == pre.entry(b) by {
                let j = choose|j: int| 0 <= j < pre.open_list@.len() && #[trigger] pre.open_list@[j].block == b;
                pre.lemma_entry(j);
                assert(self.open_list@[j] == pre.open_list@[j]);
                self.lemma_entry(j);
            }
            assert forall|b: Size| #[trigger] self.has(b) implies b < free_map@.len() && free_map@[b as int] by {
                if b != inum {
                    assert(pre.has(b));
                }
            }
        }
        Some(inum)
    }

    /// Sets the length of open inode `inum` to `len` bytes, as `Inode::set_len` does.
    pub fn set_len_of<D: BlockOperations>(&mut self, inum: Size, len: Size, free_map: &mut FreeMap, disk: &mut BlockDevice<D>) -> (r: bool)
        requires
            old(self).wf(),
            old(disk).wf(),
            old(free_map).wf(),
            old(free_map)@.len() == old(disk)@.len(),
            old(self).inumbers_marked(old(free_map)@),
            old(self).has(inum),
            tree_ok(old(self).entry(inum).spec_data(), old(disk)@, inum),
            tree_marked(old(self).entry(inum).spec_data(), old(disk)@, inum, old(free_map)@),
        ensures
            final(self).wf(),
            final(disk).wf(),
            final(free_map).wf(),
            final(disk)@.len() == old(disk)@.len(),
            final(free_map)@.len() == old(free_map)@.len(),
            final(self).inumbers_marked(final(free_map)@),
            forall|b: Size| b != inum ==> #[trigger] final(self).has(b) == old(self).has(b),
            forall|b: Size| b != inum && #[trigger] old(self).has(b) ==> final(self).entry(b) == old(self).entry(b),
            final(self).has(inum),
            final(self).entry(inum).opens() == old(self).entry(inum).opens(),
            final(self).entry(inum).spec_inumber() == inum,
            ({
                let d = old(self).entry(inum).spec_data();
                let d2 = final(self).entry(inum).spec_data();
                let n = blocks_for(d.len as int);
                let n2 = blocks_for(len as int);
                let need = (n2 - n) + index_count(n2) - index_count(n);
                let free = first_free(old(free_map)@, old(free_map)@.len() as int);
                &&& r <==> (n2 <= n || (n2 <= MAX_BLOCKS && free.len() >= need))
                &&& !r ==> d2 == d && final(disk)@ == old(disk)@ && final(free_map)@ == old(free_map)@
                &&& r ==> d2.len == len && d2.magic == d.magic
                &&& r ==> tree_ok(d2, final(disk)@, inum)
                &&& r ==> tree_marked(d2, final(disk)@, inum, final(free_map)@)
                &&& r && n2 > n ==> inode_block(final(disk)@[inum as int], d2)
                &&& r ==> forall|i: int| 0 <= i < d.len && i < len ==> #[trigger] content(d2, final(disk)@)[i] == content(d, old(disk)@)[i]
                &&& r ==> forall|x: Size|
                    x < old(disk)@.len() && x != inum && old(free_map)@[x as int] && !is_index_block(d, old(disk)@, x)
                        ==> #[trigger] final(disk)@[x as int] == old(disk)@[x as int]
                &&& r && n2 <= n ==> final(free_map)@ == old(free_map)@
                &&& r && n2 <= n ==> final(disk)@ == old(disk)@
                &&& r && n2 <= n ==> d2.direct == d.direct && d2.indirect == d.indirect
                    && d2.doubly_indirect == d.doubly_indirect && d2.magic == d.magic
                &&& r ==> forall|k: int| 0 <= k < n && k < n2 ==> #[trigger] data_block(d2, final(disk)@, k) == data_block(d, old(disk)@, k)
                &&& r && n2 > n ==> forall|i: int| 0 <= i < old(free_map)@.len() ==> #[trigger] final(free_map)@[i] == (
                    old(free_map)@[i] || free.take(need).contains(i as Size))
                &&& r ==> forall|b: Size| is_index_block(d2, final(disk)@, b) || file_blocks(d2, final(disk)@).contains(b)
                    ==> #[trigger] is_index_block(d, old(disk)@, b) || file_blocks(d, old(disk)@).contains(b)
                        || (n2 > n && free.take(need).contains(b))
            }),
    {
        let ghost pre = *self;
        let i = self.find(inum).unwrap();
        let mut inode = self.open_list.remove(i);
        let r = inode.set_len(len, free_map, disk);
        self.open_list.insert(i, inode);
        proof {
            assert(self.open_list@ =~= pre.open_list@.update(i as int, inode));
            assert forall|a: int, c: int| 0 <= a < c < self.open_list@.len() implies #[trigger] self.open_list@[a].block
                != #[trigger] self.open_list@[c].block by {
                assert(pre.open_list@[a].block != pre.open_list@[c].block);
            }
            self.lemma_entry(i as int);
            assert forall|b: Size| b != inum implies (#[trigger] self.has(b) == pre.has(b)) by {
                if pre.has(b) {
                    let j = choose|j: int| 0 <= j < pre.open_list@.len() && #[trigger] pre.open_list@[j].block == b;
                    assert(self.open_list@[j].block == b);
                }
                if self.has(b) {
                    let j = choose|j: int| 0 <= j < self.open_list@.len() && #[trigger] self.open_list@[j].block == b;
                    assert(pre.open_list@[j].block == b);
                }
            }
            assert forall|b: Size| b != inum && #[trigger] pre.has(b) implies self.entry(b) == pre.entry(b) by {
                let j = choose|j: int| 0 <= j < pre.open_list@.len() && #[trigger] pre.open_list@[j].block == b;
                pre.lemma_entry(j);
                self.lemma_entry(j);
            }
            assert forall|b: Size| #[trigger] self.has(b) implies b < free_map@.len() && free_map@[b as int] by {
                if b != inum {
                    assert(pre.has(b));
                }
            }
        }
        r
    }

    /// Whether inode `inum` is open.
    pub fn has_inode(&self, inum: Size) -> (r: bool)
        requires
            self.wf(),
        ensures
            r == self.has(inum),
    {
        self.find(inum).is_some()
    }

    /// Handles open on inode `inum`; zero when it is not open.
    pub fn opens(&self, inum: Size) -> (r: usize)
        requires
            self.wf(),
        ensures
            self.has(inum) ==> r == self.entry(inum).opens(),
            !self.has(inum) ==> r == 0,
    {
        match self.find(inum) {
            Some(i) => self.open_list[i].open_count,
            None => 0,
        }
    }

    /// Undoes a creation: marks free every block of open inode `inum` (its
    /// inode block, data blocks and indirection blocks) and drops it from the
    /// table.
    pub fn release_inode<D: BlockOperations>(&mut self, inum: Size, free_map: &mut FreeMap, disk: &mut BlockDevice<D>)
        requires
            old(self).wf(),
            old(self).has(inum),
            old(disk).wf(),
            old(free_map).wf(),
            old(free_map)@.len() == old(disk)@.len(),
            inum < old(free_map)@.len(),
            tree_ok(old(self).entry(inum).spec_data(), old(disk)@, inum),
        ensures
            final(self).wf(),
            final(disk).wf(),
            final(disk)@ == old(disk)@,
            final(disk).writes() == old(disk).writes(),
            final(free_map).wf(),
            final(free_map)@.len() == old(free_map)@.len(),
            !final(self).has(inum),
            forall|b: Size| b != inum ==> (#[trigger] final(self).has(b) == old(self).has(b)),
            forall|b: Size| b != inum && old(self).has(b) ==> #[trigger] final(self).entry(b) == old(self).entry(b),
            forall|i: int| 0 <= i < old(free_map)@.len() ==> #[trigger] final(free_map)@[i] == (old(free_map)@[i] && !(
                i == inum || file_blocks(old(self).entry(inum).spec_data(), old(disk)@).contains(i as Size)
                    || is_index_block(old(self).entry(inum).spec_data(), old(disk)@, i as Size))),
    {
        let ghost bits0 = free_map@;
        let ghost disk0 = disk@;
        let i = self.find(inum).unwrap();
        let d = self.open_list[i].data;
        let len = d.len;
        let n = (len / BLOCK_SIZE + if len % BLOCK_SIZE == 0 { 0 } else { 1 }) as usize;
        let idx = index_list(&d, disk);
        let blocks = block_range(&d, 0, n, disk);
        let mut all = blocks;
        let mut j: usize = 0;
        while j < idx.len()
            invariant
                j <= idx@.len(),
                all@ == file_blocks(d, disk0) + idx@.subrange(0, j as int),
            decreases idx@.len() - j,
        {
            all.push(idx[j]);
            j += 1;
            assert(all@ =~= file_blocks(d, disk0) + idx@.subrange(0, j as int));
        }
        all.push(inum);
        proof {
            assert(file_blocks(d, disk0).subrange(0, n as int) =~= file_blocks(d, disk0));
            assert(idx@.subrange(0, idx@.len() as int) =~= idx@);
        }
        let ghost gone = all@;
        let size = disk.max_size();
        let mut j: usize = 0;
        while j < all.len()
            invariant
                j <= all@.len(),
                all@ == gone,
                gone == file_blocks(d, disk0) + idx@ + seq![inum],
                forall|b: Size| idx@.contains(b) <==> is_index_block(d, disk0, b),
                size == disk0.len(),
                free_map.wf(),
                free_map@.len() == bits0.len(),
                bits0.len() == disk0.len(),
                inum < bits0.len(),
                tree_ok(d, disk0, inum),
                forall|x: int| 0 <= x < bits0.len() ==> #[trigger] free_map@[x] == (bits0[x] && !gone.subrange(0, j as int).contains(x as Size)),
            decreases all@.len() - j,
        {
            let b = all[j];
            proof {
                let nn = file_blocks(d, disk0).len() as int;
                if j < nn {
                    assert(gone[j as int] == data_block(d, disk0, j as int));
                } else if j < nn + idx@.len() {
                    assert(idx@.contains(idx@[j - nn]));
                    assert(gone[j as int] == idx@[j - nn]);
                    let n2 = blocks_for(d.len as int);
                    let bb = idx@[j - nn];
                    if !(n2 > 4 && bb == d.indirect@[0]) && !(n2 > 132 && bb == d.doubly_indirect@[0]) {
                        let m = choose|m: int| 0 <= m < second_level_count(n2) && bb == #[trigger] second_level(d, disk0, m);
                    }
                }
            }
            let ghost prevfm = free_map@;
            free_map.release(b);
            proof {
                assert forall|x: int| 0 <= x < bits0.len() implies #[trigger] free_map@[x] == (bits0[x] && !gone.subrange(0, j + 1).contains(x as Size)) by {
                    let pre = gone.subrange(0, j as int);
                    let post = gone.subrange(0, j + 1);
                    assert(post =~= pre.push(b));
                    assert(prevfm[x] == (bits0[x] && !pre.contains(x as Size)));
                    if pre.contains(x as Size) {
                        let k = choose|k: int| 0 <= k < pre.len() && pre[k] == x as Size;
                        assert(post[k] == x as Size);
                    }
                    if post.contains(x as Size) && x as Size != b {
                        let k = choose|k: int| 0 <= k < post.len() && post[k] == x as Size;
                        assert(pre[k] == x as Size);
                    }
                    if x == b as int {
                        assert(post[j as int] == b);
                    }
                }
            }
            j += 1;
        }
        self.close_all(inum);
        proof {
            assert(gone.subrange(0, gone.len() as int) =~= gone);
            assert forall|x: int| 0 <= x < bits0.len() implies #[trigger] free_map@[x] == (bits0[x] && !(
                x == inum || file_blocks(d, disk0).contains(x as Size) || is_index_block(d, disk0, x as Size))) by {
                let fb = file_blocks(d, disk0);
                if gone.contains(x as Size) {
                    let k = choose|k: int| 0 <= k < gone.len() && gone[k] == x as Size;
                    if k < fb.len() {
                        assert(fb[k] == x as Size);
                    } else if k < fb.len() + idx@.len() {
                        assert(idx@[k - fb.len()] == x as Size);
                        assert(idx@.contains(x as Size));
                    }
                }
                if x == inum {
                    assert(gone[gone.len() - 1] == inum);
                }
                if fb.contains(x as Size) {
                    let k = choose|k: int| 0 <= k < fb.len() && fb[k] == x as Size;
                    assert(gone[k] == x as Size);
                }
                if is_index_block(d, disk0, x as Size) {
                    assert(idx@.contains(x as Size));
                    let k = choose|k: int| 0 <= k < idx@.len() && idx@[k] == x as Size;
                    assert(gone[fb.len() + k] == x as Size);
                }
            }
        }
    }

    /// Drops inode `inum` from the table whatever its count.
    fn close_all(&mut self, inum: Size)
        requires
            old(self).wf(),
            old(self).has(inum),
        ensures
            final(self).wf(),
            !final(self).has(inum),
            forall|b: Size| b != inum ==> (#[trigger] final(self).has(b) == old(self).has(b)),
            forall|b: Size| b != inum && old(self).has(b) ==> #[trigger] final(self).entry(b) == old(self).entry(b),
    {
        let ghost pre = *self;
        let i = self.find(inum).unwrap();
        self.open_list.remove(i);
        proof {
            assert forall|b: Size| b != inum implies (#[trigger] self.has(b) == pre.has(b)) by {
                if pre.has(b) {
                    let j = choose|j: int| 0 <= j < pre.open_list@.len() && #[trigger] pre.open_list@[j].block == b;
                    assert(j != i);
                    if j < i {
                        assert(self.open_list@[j].block == b);
                    } else {
                        assert(self.open_list@[j - 1].block == b);
                    }
                }
                if self.has(b) {
                    let j = choose|j: int| 0 <= j < self.open_list@.len() && #[trigger] self.open_list@[j].block == b;
                    if j < i {
                        assert(pre.open_list@[j].block == b);
                    } else {
                        assert(pre.open_list@[j + 1].block == b);
                    }
                }
            }
            if self.has(inum) {
                let j = choose|j: int| 0 <= j < self.open_list@.len() && #[trigger] self.open_list@[j].block == inum;
                if j < i {
                    assert(pre.open_list@[j].block == inum);
                } else {
                    assert(pre.open_list@[j + 1].block == inum);
                }
            }
            assert forall|i2: int, j2: int| 0 <= i2 < j2 < self.open_list@.len() implies #[trigger] self.open_list@[i2].block
                != #[trigger] self.open_list@[j2].block by {
                let a = if i2 < i { i2 } else { i2 + 1 };
                let c = if j2 < i { j2 } else { j2 + 1 };
                assert(pre.open_list@[a].block != pre.open_list@[c].block);
            }
            assert forall|b: Size| b != inum && pre.has(b) implies #[trigger] self.entry(b) == pre.entry(b) by {
                let j = choose|j: int| 0 <= j < pre.open_list@.len() && #[trigger] pre.open_list@[j].block == b;
                pre.lemma_entry(j);
                if j < i {
                    self.lemma_entry(j);
                } else {
                    self.lemma_entry(j - 1);
                }
            }
        }
    }
}


/// The data blocks, indirection blocks and inode block of a sound index are
/// all distinct and on the device.
proof fn lemma_tree_distinct(d: InodeDisk, disk: Seq<Seq<u8>>, inum: Size, blocks: Seq<Size>, idx: Seq<Size>)
    requires
        tree_ok(d, disk, inum),
        inum < disk.len(),
        blocks == file_blocks(d, disk),
        idx.len() == index_count(blocks_for(d.len as int)),
        blocks_for(d.len as int) > 4 ==> idx[0] == d.indirect@[0],
        blocks_for(d.len as int) > 132 ==> idx[1] == d.doubly_indirect@[0],
        forall|m: int| 0 <= m < second_level_count(blocks_for(d.len as int)) ==> #[trigger] idx[2 + m] == second_level(d, disk, m),
        forall|b: Size| idx.contains(b) <==> is_index_block(d, disk, b),
    ensures
        (blocks + idx + seq![inum]).no_duplicates(),
        forall|j: int| 0 <= j < (blocks + idx + seq![inum]).len() ==> #[trigger] (blocks + idx + seq![inum])[j] < disk.len(),
{
    let n = blocks.len() as int;
    let ni = idx.len() as int;
    let all = blocks + idx + seq![inum];
    assert forall|a: int, c: int| 0 <= a < c < ni implies idx[a] != idx[c] by {
        if a >= 2 {
            assert(idx[2 + (a - 2)] == second_level(d, disk, a - 2));
        }
        if c >= 2 {
            assert(idx[2 + (c - 2)] == second_level(d, disk, c - 2));
        }
    }
    assert forall|p: int| 0 <= p < all.len() implies {
        &&& #[trigger] all[p] < disk.len()
        &&& (p < n ==> all[p] == data_block(d, disk, p) && !idx.contains(all[p]) && all[p] != inum)
        &&& (n <= p < n + ni ==> all[p] == idx[p - n] && idx.contains(all[p]))
        &&& (p == n + ni ==> all[p] == inum)
    } by {
        if p < n {
            assert(all[p] == data_block(d, disk, p));
        } else if p < n + ni {
            assert(all[p] == idx[p - n]);
            assert(idx.contains(idx[p - n]));
            let b = idx[p - n];
            let nb = blocks_for(d.len as int);
            if !(nb > 4 && b == d.indirect@[0]) && !(nb > 132 && b == d.doubly_indirect@[0]) {
                let m = choose|m: int| 0 <= m < second_level_count(nb) && b == #[trigger] second_level(d, disk, m);
            }
        }
    }
    assert forall|a: int, c: int| 0 <= a < c < all.len() implies all[a] != all[c] by {
        if a < n && c < n {
            assert(data_block(d, disk, a) != data_block(d, disk, c));
        } else if n <= a < n + ni && n <= c < n + ni {
            assert(idx[a - n] != idx[c - n]);
        } else if n <= a < n + ni && c == n + ni {
            assert(!is_index_block(d, disk, inum));
        }
    }
}

/// Checks that the index of the file with record `d` and inode block `inum`
/// is sound on the device. A device whose contents do not pass holds a
/// damaged file system.
pub fn check_tree<D: BlockOperations>(d: &InodeDisk, inum: Size, disk: &mut BlockDevice<D>) -> (r: bool)
    requires
        old(disk).wf(),
        (old(disk)@.len() + 31) / 32 <= usize::MAX,
    ensures
        r == (tree_ok(*d, old(disk)@, inum) && inum < old(disk)@.len()),
        final(disk).wf(),
        final(disk)@ == old(disk)@,
        final(disk).writes() == old(disk).writes(),
{
    let ghost disk0 = disk@;
    let size = disk.max_size();
    let len = d.len;
    let n64 = len / BLOCK_SIZE + if len % BLOCK_SIZE == 0 { 0 } else { 1 };
    if n64 > MAX_BLOCKS as u64 || inum >= size {
        return false;
    }
    let n = n64 as usize;
    if n > N_DIRECT && d.indirect[0] >= size {
        return false;
    }
    if n > SINGLE_LIMIT {
        if d.doubly_indirect[0] >= size {
            return false;
        }
        let mut top: Block = [0u8; BLOCK_USIZE];
        disk.read(&mut top, d.doubly_indirect[0]);
        let slc = (n - SINGLE_LIMIT + 127) / PTRS_PER_BLOCK;
        let mut m: usize = 0;
        while m < slc
            invariant
                m <= slc,
                slc == second_level_count(n as int),
                n == blocks_for(d.len as int),
                n <= MAX_BLOCKS,
                n > SINGLE_LIMIT,
                size == disk0.len(),
                disk.wf(),
                disk@ == disk0,
                disk.writes() == old(disk).writes(),
                disk0 == old(disk)@,
                top@ == disk0[d.doubly_indirect@[0] as int],
                forall|j: int| 0 <= j < m ==> #[trigger] second_level(*d, disk0, j) < disk0.len(),
            decreases slc - m,
        {
            if read_word(&top, PTR_BYTES * m) >= size {
                proof {
                    assert(second_level(*d, disk0, m as int) >= disk0.len());
                }
                return false;
            }
            m += 1;
        }
    }
    proof {
        assert(index_in_range(*d, disk0));
    }
    let idx = index_list(d, disk);
    let blocks = block_range(d, 0, n, disk);
    proof {
        assert(blocks@ =~= file_blocks(*d, disk0));
    }
    // Every data block, indirection block and the inode block must be distinct.
    let mut seen = Bitmap::new(size);
    let mut all: Vec<Size> = Vec::new();
    let mut i: usize = 0;
    let total = n + idx.len() + 1;
    let ghost want = blocks@ + idx@ + seq![inum];
    proof {
        assert(blocks@ =~= file_blocks(*d, disk0));
    }
    while i < total
        invariant
            i <= total,
            total == want.len(),
            want == blocks@ + idx@ + seq![inum],
            n == blocks@.len(),
            seen.wf(),
            seen@.len() == size,
            size == disk0.len(),
            disk.wf(),
            disk@ == disk0,
            disk.writes() == old(disk).writes(),
            disk0 == old(disk)@,
            all@ == want.subrange(0, i as int),
            all@.no_duplicates(),
            forall|j: int| 0 <= j < i ==> #[trigger] want[j] < size,
            forall|x: int| 0 <= x < size ==> (#[trigger] seen@[x] <==> all@.contains(x as Size)),
            blocks@ == file_blocks(*d, disk0),
            idx@.len() == index_count(blocks_for(d.len as int)),
            blocks_for(d.len as int) > 4 ==> idx@[0] == d.indirect@[0],
            blocks_for(d.len as int) > 132 ==> idx@[1] == d.doubly_indirect@[0],
            forall|m: int| 0 <= m < second_level_count(blocks_for(d.len as int)) ==> #[trigger] idx@[2 + m] == second_level(*d, disk0, m),
            forall|b: Size| idx@.contains(b) <==> is_index_block(*d, disk0, b),
            inum < size,
        decreases total - i,
    {
        let b = if i < n { blocks[i] } else if i < n + idx.len() { idx[i - n] } else { inum };
        assert(b == want[i as int]);
        if b >= size || seen.test(b) {
            proof {
                if tree_ok(*d, disk0, inum) && inum < disk0.len() {
                    lemma_tree_distinct(*d, disk0, inum, blocks@, idx@);
                    let nn = n as int;
                    if i < nn {
                        assert(want[i as int] == data_block(*d, disk0, i as int));
                    } else if i < nn + idx@.len() {
                        assert(idx@.contains(idx@[i - nn]));
                    }
                    if b < size {
                        assert(all@.contains(b));
                        let k = choose|k: int| 0 <= k < all@.len() && all@[k] == b;
                        assert(want[k] == want[i as int]);
                    }
                }
            }
            return false;
        }
        seen.mark(b);
        proof {
            assert forall|a: int, c: int| 0 <= a < c < all@.push(b).len() implies all@.push(b)[a] != all@.push(b)[c] by {
                if c == all@.len() {
                    assert(all@.contains(all@[a]));
                }
            }
            assert forall|x: int| 0 <= x < size implies (#[trigger] seen@[x] <==> all@.push(b).contains(x as Size)) by {
                if all@.contains(x as Size) {
                    let k = choose|k: int| 0 <= k < all@.len() && all@[k] == x as Size;
                    assert(all@.push(b)[k] == x as Size);
                }
                if all@.push(b).contains(x as Size) && x as Size != b {
                    let k = choose|k: int| 0 <= k < all@.push(b).len() && all@.push(b)[k] == x as Size;
                    assert(all@[k] == x as Size);
                }
                if x as Size == b {
                    assert(all@.push(b)[all@.len() as int] == b);
                }
            }
        }
        all.push(b);
        i += 1;
        assert(all@ =~= want.subrange(0, i as int));
    }
    proof {
        assert(all@ =~= want);
        let ni = idx@.len() as int;
        assert forall|k: int| 0 <= k < n implies want[k] == data_block(*d, disk0, k) by {}
        assert forall|k: int| 0 <= k < ni implies #[trigger] want[n + k] == idx@[k] by {}
        assert(want[n + ni] == inum);
        // the inode block is no indirection block
        if is_index_block(*d, disk0, inum) {
            assert(idx@.contains(inum));
            let k = choose|k: int| 0 <= k < ni && idx@[k] == inum;
            assert(want[n + k] == want[n + ni]);
        }
        assert forall|k: int| 0 <= k < n implies {
            &&& #[trigger] data_block(*d, disk0, k) < disk0.len()
            &&& data_block(*d, disk0, k) != inum
            &&& !is_index_block(*d, disk0, data_block(*d, disk0, k))
        } by {
            assert(want[k] != want[n + ni]);
            if is_index_block(*d, disk0, data_block(*d, disk0, k)) {
                assert(idx@.contains(data_block(*d, disk0, k)));
                let j = choose|j: int| 0 <= j < ni && idx@[j] == data_block(*d, disk0, k);
                assert(want[k] != want[n + j]);
            }
        }
        assert forall|k1: int, k2: int| 0 <= k1 < k2 < n implies #[trigger] data_block(*d, disk0, k1)
            != #[trigger] data_block(*d, disk0, k2) by {
            assert(want[k1] != want[k2]);
        }
        if n > 132 {
            assert(want[n + 0] != want[n + 1]);
        }
        assert forall|m: int| 0 <= m < second_level_count(n as int) implies #[trigger] second_level(*d, disk0, m)
            != d.indirect@[0] && second_level(*d, disk0, m) != d.doubly_indirect@[0] by {
            assert(idx@[2 + m] == second_level(*d, disk0, m));
            assert(want[n + 2 + m] != want[n + 0]);
            assert(want[n + 2 + m] != want[n + 1]);
        }
        assert forall|m1: int, m2: int| 0 <= m1 < m2 < second_level_count(n as int) implies #[trigger] second_level(*d, disk0, m1)
            != #[trigger] second_level(*d, disk0, m2) by {
            assert(idx@[2 + m1] == second_level(*d, disk0, m1));
            assert(idx@[2 + m2] == second_level(*d, disk0, m2));
            assert(want[n + 2 + m1] != want[n + 2 + m2]);
        }
    }
    true
}

/// Checks that the inode block, data blocks and indirection blocks of a file
/// with a sound index are all marked in use in the free map.
pub fn check_marked<D: BlockOperations>(d: &InodeDisk, inum: Size, disk: &mut BlockDevice<D>, free_map: &FreeMap) -> (r: bool)
    requires
        old(disk).wf(),
        free_map.wf(),
        free_map@.len() == old(disk)@.len(),
        tree_ok(*d, old(disk)@, inum),
    ensures
        r == tree_marked(*d, old(disk)@, inum, free_map@),
        final(disk).wf(),
        final(disk)@ == old(disk)@,
        final(disk).writes() == old(disk).writes(),
{
    let ghost disk0 = disk@;
    let size = disk.max_size();
    if inum >= size || !free_map.in_use(inum) {
        return false;
    }
    let len = d.len;
    let n = (len / BLOCK_SIZE + if len % BLOCK_SIZE == 0 { 0 } else { 1 }) as usize;
    let idx = index_list(d, disk);
    let blocks = block_range(d, 0, n, disk);
    let mut i: usize = 0;
    while i < n
        invariant
            i <= n,
            n == blocks_for(d.len as int),
            blocks@ == file_blocks(*d, disk0).subrange(0, n as int),
            free_map.wf(),
            free_map@.len() == disk0.len(),
            tree_ok(*d, disk0, inum),
            disk.wf(),
            disk@ == disk0,
            disk.writes() == old(disk).writes(),
            disk0 == old(disk)@,
            inum < free_map@.len(),
            free_map@[inum as int],
            forall|k: int| 0 <= k < i ==> #[trigger] free_map@[data_block(*d, disk0, k) as int],
        decreases n - i,
    {
        if !free_map.in_use(blocks[i]) {
            proof {
                assert(blocks@[i as int] == data_block(*d, disk0, i as int));
            }
            return false;
        }
        i += 1;
    }
    let mut i: usize = 0;
    while i < idx.len()
        invariant
            i <= idx@.len(),
            free_map.wf(),
            free_map@.len() == disk0.len(),
            index_in_range(*d, disk0),
            disk.wf(),
            disk@ == disk0,
            disk.writes() == old(disk).writes(),
            disk0 == old(disk)@,
            inum < free_map@.len(),
            free_map@[inum as int],
            n == blocks_for(d.len as int),
            forall|k: int| 0 <= k < n ==> #[trigger] free_map@[data_block(*d, disk0, k) as int],
            forall|b: Size| idx@.contains(b) <==> is_index_block(*d, disk0, b),
            forall|k: int| 0 <= k < i ==> #[trigger] idx@[k] < free_map@.len() && free_map@[idx@[k] as int],
        decreases idx@.len() - i,
    {
        let b = idx[i];
        proof {
            assert(idx@.contains(b));
            let n = blocks_for(d.len as int);
            if !(n > 4 && b == d.indirect@[0]) && !(n > 132 && b == d.doubly_indirect@[0]) {
                let m = choose|m: int| 0 <= m < second_level_count(n) && b == #[trigger] second_level(*d, disk0, m);
            }
        }
        if !free_map.in_use(b) {
            proof {
                assert(is_index_block(*d, disk0, b));
            }
            return false;
        }
        i += 1;
    }
    proof {
        assert forall|b: Size| #[trigger] is_index_block(*d, disk0, b) implies b < free_map@.len() && free_map@[b as int] by {
            assert(idx@.contains(b));
            let k = choose|k: int| 0 <= k < idx@.len() && idx@[k] == b;
        }
    }
    true
}


/// A file's bytes depend only on its data and indirection blocks.
pub proof fn lemma_content_stable(d: InodeDisk, disk1: Seq<Seq<u8>>, disk2: Seq<Seq<u8>>)
    requires
        index_in_range(d, disk1),
        disk1.len() == disk2.len(),
        forall|b: Size| is_index_block(d, disk1, b) ==> disk1[b as int] == disk2[b as int],
        forall|k: int| 0 <= k < blocks_for(d.len as int) ==> disk1[#[trigger] data_block(d, disk1, k) as int]
            == disk2[data_block(d, disk1, k) as int],
    ensures
        content(d, disk2) == content(d, disk1),
        file_blocks(d, disk2) == file_blocks(d, disk1),
{
    lemma_index_stable(d, disk1, disk2);
    assert forall|i: int| 0 <= i < d.len implies #[trigger] content(d, disk2)[i] == content(d, disk1)[i] by {
        let k = i / 1024;
        assert(data_block(d, disk2, k) == data_block(d, disk1, k));
        assert(disk1[data_block(d, disk1, k) as int] == disk2[data_block(d, disk1, k) as int]);
    }
    assert(content(d, disk2) =~= content(d, disk1));
    assert(file_blocks(d, disk2) =~= file_blocks(d, disk1));
}


/// A sound, marked index stays so on a device that agrees on the file's
/// blocks, and under a free map that marks at least as much.
pub proof fn lemma_tree_stable(d: InodeDisk, disk1: Seq<Seq<u8>>, disk2: Seq<Seq<u8>>, inum: Size, bits1: Seq<bool>, bits2: Seq<bool>)
    requires
        tree_ok(d, disk1, inum),
        tree_marked(d, disk1, inum, bits1),
        disk1.len() == disk2.len(),
        bits1.len() == bits2.len(),
        bits1.len() == disk1.len(),
        forall|i: int| 0 <= i < bits1.len() && bits1[i] ==> #[trigger] bits2[i],
        forall|x: Size| x < disk1.len() && bits1[x as int] && x != inum ==> #[trigger] disk2[x as int] == disk1[x as int],
    ensures
        tree_ok(d, disk2, inum),
        tree_marked(d, disk2, inum, bits2),
        content(d, disk2) == content(d, disk1),
        file_blocks(d, disk2) == file_blocks(d, disk1),
        forall|b: Size| is_index_block(d, disk2, b) == is_index_block(d, disk1, b),
{
    assert forall|b: Size| is_index_block(d, disk1, b) implies disk1[b as int] == disk2[b as int] by {
        assert(b < bits1.len() && bits1[b as int]);
    }
    assert forall|k: int| 0 <= k < blocks_for(d.len as int) implies disk1[#[trigger] data_block(d, disk1, k) as int]
        == disk2[data_block(d, disk1, k) as int] by {
        assert(bits1[data_block(d, disk1, k) as int]);
    }
    lemma_content_stable(d, disk1, disk2);
    lemma_index_stable(d, disk1, disk2);
    assert forall|k: int| 0 <= k < blocks_for(d.len as int) implies {
        &&& #[trigger] data_block(d, disk2, k) < disk2.len()
        &&& data_block(d, disk2, k) != inum
        &&& !is_index_block(d, disk2, data_block(d, disk2, k))
    } by {
        assert(data_block(d, disk2, k) == data_block(d, disk1, k));
    }
    assert forall|k1: int, k2: int| 0 <= k1 < k2 < blocks_for(d.len as int) implies #[trigger] data_block(d, disk2, k1)
        != #[trigger] data_block(d, disk2, k2) by {
        assert(data_block(d, disk1, k1) != data_block(d, disk1, k2));
    }
    assert forall|m1: int, m2: int| 0 <= m1 < m2 < second_level_count(blocks_for(d.len as int)) implies #[trigger] second_level(d, disk2, m1)
        != #[trigger] second_level(d, disk2, m2) by {
        assert(second_level(d, disk1, m1) != second_level(d, disk1, m2));
    }
    assert forall|m: int| 0 <= m < second_level_count(blocks_for(d.len as int)) implies #[trigger] second_level(d, disk2, m)
        != d.indirect@[0] && second_level(d, disk2, m) != d.doubly_indirect@[0] by {
        assert(second_level(d, disk1, m) == second_level(d, disk2, m));
    }
    assert forall|k: int| 0 <= k < blocks_for(d.len as int) implies #[trigger] bits2[data_block(d, disk2, k) as int] by {
        assert(data_block(d, disk2, k) == data_block(d, disk1, k));
        assert(bits1[data_block(d, disk1, k) as int]);
    }
    assert forall|b: Size| #[trigger] is_index_block(d, disk2, b) implies b < bits2.len() && bits2[b as int] by {
        assert(is_index_block(d, disk1, b));
    }
}


/// A sound index stays sound on a device that agrees on its indirection blocks.
pub proof fn lemma_tree_ok_stable(d: InodeDisk, disk1: Seq<Seq<u8>>, disk2: Seq<Seq<u8>>, inum: Size)
    requires
        tree_ok(d, disk1, inum),
        disk1.len() == disk2.len(),
        forall|b: Size| is_index_block(d, disk1, b) ==> disk1[b as int] == disk2[b as int],
    ensures
        tree_ok(d, disk2, inum),
        file_blocks(d, disk2) == file_blocks(d, disk1),
{
    lemma_index_stable(d, disk1, disk2);
    assert(file_blocks(d, disk2) =~= file_blocks(d, disk1));
    assert forall|k: int| 0 <= k < blocks_for(d.len as int) implies {
        &&& #[trigger] data_block(d, disk2, k) < disk2.len()
        &&& data_block(d, disk2, k) != inum
        &&& !is_index_block(d, disk2, data_block(d, disk2, k))
    } by {
        assert(data_block(d, disk2, k) == data_block(d, disk1, k));
    }
    assert forall|k1: int, k2: int| 0 <= k1 < k2 < blocks_for(d.len as int) implies #[trigger] data_block(d, disk2, k1)
        != #[trigger] data_block(d, disk2, k2) by {
        assert(data_block(d, disk1, k1) != data_block(d, disk1, k2));
    }
    assert forall|m1: int, m2: int| 0 <= m1 < m2 < second_level_count(blocks_for(d.len as int)) implies #[trigger] second_level(d, disk2, m1)
        != #[trigger] second_level(d, disk2, m2) by {
        assert(second_level(d, disk1, m1) != second_level(d, disk1, m2));
    }
    assert forall|m: int| 0 <= m < second_level_count(blocks_for(d.len as int)) implies #[trigger] second_level(d, disk2, m)
        != d.indirect@[0] && second_level(d, disk2, m) != d.doubly_indirect@[0] by {
        assert(second_level(d, disk1, m) == second_level(d, disk2, m));
    }
}

} // verus!
