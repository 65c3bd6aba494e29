//! Positioned handles on open inodes.
use vstd::prelude::*;

use crate::block::{BlockDevice, BlockOperations};
use crate::inode::{content, overwrite, transfer_len, tree_ok, InodeManager};
use crate::{Ofs, Size};

verus! {

/// A cursor into the file whose inode lives at block `inode`.
pub struct VFile {
    pos: Ofs,
    inode: Size,
}

impl VFile {
    pub closed spec fn spec_pos(&self) -> Ofs {
        self.pos
    }

    pub closed spec fn spec_inumber(&self) -> Size {
        self.inode
    }

    /// Whether the file's inode is open in `inodes` with a sound index on `disk`.
    pub open spec fn ready(&self, inodes: InodeManager, disk: Seq<Seq<u8>>) -> bool {
        &&& inodes.wf()
        &&& inodes.has(self.spec_inumber())
        &&& tree_ok(inodes.entry(self.spec_inumber()).spec_data(), disk, self.spec_inumber())
    }

    /// The file's bytes.
    pub open spec fn bytes(&self, inodes: InodeManager, disk: Seq<Seq<u8>>) -> Seq<u8> {
        content(inodes.entry(self.spec_inumber()).spec_data(), disk)
    }

    /// A handle on inode `inode`, positioned at the start.
    pub fn open(inode: Size) -> (r: Self)
        ensures
            r.spec_pos() == 0,
            r.spec_inumber() == inode,
    {
        VFile { pos: 0, inode }
    }

    /// Gives up the handle's hold on its inode.
    pub fn close(self, inodes: &mut InodeManager)
        requires
            old(inodes).wf(),
            old(inodes).has(self.spec_inumber()),
        ensures
            final(inodes).wf(),
            forall|b: Size| b != self.spec_inumber() ==> (#[trigger] final(inodes).has(b) == old(inodes).has(b)),
            forall|b: Size| b != self.spec_inumber() && old(inodes).has(b) ==> #[trigger] final(inodes).entry(b) == old(inodes).entry(b),
    {
        inodes.close(self.inode);
    }

    /// Reads into `buffer` from `offset` bytes past the cursor and moves the
    /// cursor past what was read; returns the number of bytes read.
    pub fn read<D: BlockOperations>(&mut self, inodes: &InodeManager, buffer: &mut Vec<u8>, offset: Ofs, disk: &mut BlockDevice<D>) -> (r: Ofs)
        requires
            old(self).ready(*inodes, old(disk)@),
            old(disk).wf(),
            old(self).spec_pos() >= 0,
            offset >= 0,
            old(self).spec_pos() + offset <= Ofs::MAX,
        ensures
            r == transfer_len(
                inodes.entry(old(self).spec_inumber()).spec_data().len as int,
                old(self).spec_pos() + offset,
                old(buffer)@.len() as int,
            ),
            final(buffer)@.len() == old(buffer)@.len(),
            forall|i: int| 0 <= i < r ==> #[trigger] final(buffer)@[i] == old(self).bytes(*inodes, old(disk)@)[old(self).spec_pos() + offset + i],
            forall|i: int| r <= i < old(buffer)@.len() ==> #[trigger] final(buffer)@[i] == old(buffer)@[i],
            final(self).spec_pos() == old(self).spec_pos() + r,
            final(self).spec_inumber() == old(self).spec_inumber(),
            final(disk).wf(),
            final(disk)@ == old(disk)@,
            final(disk).writes() == old(disk).writes(),
    {
        let inode = inodes.get(self.inode).unwrap();
        let bytes_read = inode.read_at(buffer, self.pos + offset, disk);
        self.pos = self.pos + bytes_read;
        bytes_read
    }

    /// Writes `buffer` at `offset` bytes past the cursor, within the file's
    /// length, and moves the cursor past what was written; returns the number
    /// of bytes written.
    pub fn write<D: BlockOperations>(&mut self, inodes: &InodeManager, buffer: &[u8], offset: Ofs, disk: &mut BlockDevice<D>) -> (r: Ofs)
        requires
            old(self).ready(*inodes, old(disk)@),
            old(disk).wf(),
            old(self).spec_pos() >= 0,
            offset >= 0,
            old(self).spec_pos() + offset <= Ofs::MAX,
        ensures
            r == transfer_len(
                inodes.entry(old(self).spec_inumber()).spec_data().len as int,
                old(self).spec_pos() + offset,
                buffer@.len() as int,
            ),
            final(self).bytes(*inodes, final(disk)@) == overwrite(
                old(self).bytes(*inodes, old(disk)@),
                old(self).spec_pos() + offset,
                buffer@,
                r as int,
            ),
            final(self).ready(*inodes, final(disk)@),
            final(self).spec_pos() == old(self).spec_pos() + r,
            final(self).spec_inumber() == old(self).spec_inumber(),
            final(disk).wf(),
            final(disk)@.len() == old(disk)@.len(),
            forall|b: Size|
                b < old(disk)@.len() && !crate::inode::file_blocks(inodes.entry(old(self).spec_inumber()).spec_data(), old(disk)@).contains(b)
                    ==> #[trigger] final(disk)@[b as int] == old(disk)@[b as int],
    {
        let inode = inodes.get(self.inode).unwrap();
        let bytes_written = inode.write_at(buffer, self.pos + offset, disk);
        self.pos = self.pos + bytes_written;
        bytes_written
    }

    /// Length of the file in bytes.
    pub fn length(&self, inodes: &InodeManager) -> (r: Size)
        requires
            inodes.wf(),
            inodes.has(self.spec_inumber()),
        ensures
            r == inodes.entry(self.spec_inumber()).spec_data().len,
    {
        inodes.get(self.inode).unwrap().length()
    }

    /// Puts the cursor back at the start.
    pub fn seek_start(&mut self)
        ensures
            final(self).spec_pos() == 0,
            final(self).spec_inumber() == old(self).spec_inumber(),
    {
        self.pos = 0;
    }

    /// Moves the cursor by `offset` bytes.
    pub fn seek(&mut self, offset: Ofs)
        requires
            Ofs::MIN <= old(self).spec_pos() + offset <= Ofs::MAX,
        ensures
            final(self).spec_pos() == old(self).spec_pos() + offset,
            final(self).spec_inumber() == old(self).spec_inumber(),
    {
        self.pos = self.pos + offset;
    }

    /// The inode the handle is on.
    pub fn inumber(&self) -> (r: Size)
        ensures
            r == self.spec_inumber(),
    {
        self.inode
    }

    /// Where the cursor is.
    pub fn tell(&self) -> (r: Ofs)
        ensures
            r == self.spec_pos(),
    {
        self.pos
    }

    /// Whether both handles are on the same file.
    pub fn compare(&self, other: &VFile) -> (r: bool)
        ensures
            r == (self.spec_inumber() == other.spec_inumber()),
    {
        self.inode == other.inode
    }
}


/// Writing `s` at the start of a file of exactly `s.len()` bytes writes all
/// of it, and reading the file back from the start with a buffer of that
/// size reads all of it and yields `s`.
pub proof fn lemma_round_trip(c: Seq<u8>, s: Seq<u8>)
    requires
        c.len() == s.len(),
    ensures
        transfer_len(c.len() as int, 0, s.len() as int) == s.len(),
        overwrite(c, 0, s, s.len() as int) == s,
        forall|i: int| 0 <= i < s.len() ==> #[trigger] overwrite(c, 0, s, s.len() as int)[0 + i] == s[i],
{
    assert(overwrite(c, 0, s, s.len() as int) =~= s);
}

/// Two reads of the same content from the same place, into buffers of the
/// same size, read the same number of bytes and the same bytes.
pub proof fn lemma_read_idempotent(c: Seq<u8>, at: int, b1: Seq<u8>, b2: Seq<u8>, r1: int, r2: int)
    requires
        0 <= at,
        b1.len() == b2.len(),
        r1 == transfer_len(c.len() as int, at, b1.len() as int),
        r2 == transfer_len(c.len() as int, at, b2.len() as int),
        forall|i: int| 0 <= i < r1 ==> #[trigger] b1[i] == c[at + i],
        forall|i: int| 0 <= i < r2 ==> #[trigger] b2[i] == c[at + i],
    ensures
        r1 == r2,
        b1.subrange(0, r1) == b2.subrange(0, r2),
{
    assert(b1.subrange(0, r1) =~= b2.subrange(0, r2));
}

} // verus!
