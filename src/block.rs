//! Block devices: the interface every device offers, an in-memory device, a
//! counting wrapper, and the registry of devices by role.
use vstd::prelude::*;

use crate::Size;

verus! {

/// Bytes in one block.
pub const BLOCK_SIZE: Size = 1024;

/// Bytes in one block, as a `usize`.
pub const BLOCK_USIZE: usize = 1024;

/// One block of bytes, the unit of all device I/O.
pub type Block = [u8; BLOCK_USIZE];

/// A device that reads and writes whole blocks by number.
///
/// The device is modelled as the sequence of its blocks' contents: a read
/// hands back the contents of one block, a write replaces them. The model
/// also counts the reads and writes made on the device, and holds what has
/// been made durable, which a flush brings level with the contents.
pub trait BlockOperations {
    /// The contents of each block of the device, in block order.
    spec fn blocks(&self) -> Seq<Seq<u8>>;

    /// Reads made on the device so far.
    spec fn read_calls(&self) -> nat;

    /// Writes made on the device so far.
    spec fn write_calls(&self) -> nat;

    /// The contents as they stand on stable storage.
    spec fn durable(&self) -> Seq<Seq<u8>>;

    /// Whether the device is in a usable state.
    spec fn ready(&self) -> bool;

    /// Copies block `pos` into `buf`.
    fn read(&mut self, buf: &mut Block, pos: Size)
        requires
            old(self).ready(),
            pos < old(self).blocks().len(),
        ensures
            final(self).ready(),
            final(self).blocks() == old(self).blocks(),
            final(buf)@ == old(self).blocks()[pos as int],
            final(self).read_calls() == old(self).read_calls() + 1,
            final(self).write_calls() == old(self).write_calls(),
    ;

    /// Replaces block `pos` with `buf`.
    fn write(&mut self, buf: &Block, pos: Size)
        requires
            old(self).ready(),
            pos < old(self).blocks().len(),
        ensures
            final(self).ready(),
            final(self).blocks() == old(self).blocks().update(pos as int, buf@),
            final(self).write_calls() == old(self).write_calls() + 1,
            final(self).read_calls() == old(self).read_calls(),
    ;

    /// Makes what was written durable; the contents do not change.
    fn flush(&mut self)
        requires
            old(self).ready(),
        ensures
            final(self).ready(),
            final(self).blocks() == old(self).blocks(),
            final(self).durable() == final(self).blocks(),
            final(self).read_calls() == old(self).read_calls(),
            final(self).write_calls() == old(self).write_calls(),
    ;
}

/// Contents of a fresh device: `count` blocks of zeros.
pub open spec fn zero_blocks(count: nat) -> Seq<Seq<u8>> {
    Seq::new(count, |i: int| Seq::new(BLOCK_USIZE as nat, |j: int| 0u8))
}

/// A block device held in memory.
pub struct MemDisk {
    data: Vec<Block>,
    reads: Ghost<nat>,
    writes: Ghost<nat>,
}

impl MemDisk {
    /// A device of `count` zeroed blocks.
    pub fn new(count: usize) -> (r: Self)
        ensures
            r.ready(),
            r.blocks() == zero_blocks(count as nat),
            r.read_calls() == 0,
            r.write_calls() == 0,
    {
        let mut data: Vec<Block> = Vec::new();
        let mut i: usize = 0;
        while i < count
            invariant
                i <= count,
                data@.len() == i,
                forall|k: int| 0 <= k < i ==> #[trigger] data@[k]@ == Seq::new(BLOCK_USIZE as nat, |j: int| 0u8),
            decreases count - i,
        {
            let b: Block = [0u8; BLOCK_USIZE];
            assert(b@ =~= Seq::new(BLOCK_USIZE as nat, |j: int| 0u8));
            data.push(b);
            i += 1;
        }
        let r = MemDisk { data, reads: Ghost(0), writes: Ghost(0) };
        assert(r.blocks() =~= zero_blocks(count as nat));
        r
    }
}

impl MemDisk {
    /// A device holding `blocks`, in order.
    pub fn from_blocks(blocks: Vec<Block>) -> (r: Self)
        ensures
            r.ready(),
            r.read_calls() == 0,
            r.write_calls() == 0,
            r.blocks().len() == blocks@.len(),
            forall|i: int| 0 <= i < blocks@.len() ==> #[trigger] r.blocks()[i] == blocks@[i]@,
    {
        MemDisk { data: blocks, reads: Ghost(0), writes: Ghost(0) }
    }

    /// Number of blocks.
    pub fn block_count(&self) -> (r: usize)
        ensures
            r == self.blocks().len(),
    {
        self.data.len()
    }

    /// A copy of block `pos`.
    pub fn block(&self, pos: usize) -> (r: Block)
        requires
            pos < self.blocks().len(),
        ensures
            r@ == self.blocks()[pos as int],
    {
        self.data[pos]
    }
}

impl BlockOperations for MemDisk {
    closed spec fn blocks(&self) -> Seq<Seq<u8>> {
        Seq::new(self.data@.len(), |i: int| self.data@[i]@)
    }

    closed spec fn read_calls(&self) -> nat {
        self.reads@
    }

    closed spec fn write_calls(&self) -> nat {
        self.writes@
    }

    /// Memory is the device's only storage: what it holds is durable.
    closed spec fn durable(&self) -> Seq<Seq<u8>> {
        self.blocks()
    }

    open spec fn ready(&self) -> bool {
        true
    }

    fn read(&mut self, buf: &mut Block, pos: Size) {
        let n = self.data.len();
        assert(pos < n);
        *buf = self.data[pos as usize];
        self.reads = Ghost(self.reads@ + 1);
    }

    fn write(&mut self, buf: &Block, pos: Size) {
        let n = self.data.len();
        assert(pos < n);
        self.data.set(pos as usize, *buf);
        self.writes = Ghost(self.writes@ + 1);
        assert(self.blocks() =~= old(self).blocks().update(pos as int, buf@));
    }

    fn flush(&mut self) {
    }
}

/// A device that counts the reads and writes made through it.
pub struct CountedBlockOperations<T: BlockOperations> {
    inner: T,
    read_count: usize,
    write_count: usize,
}

impl<T: BlockOperations> CountedBlockOperations<T> {
    /// The wrapped device.
    pub closed spec fn device(&self) -> T {
        self.inner
    }

    pub closed spec fn reads(&self) -> nat {
        self.read_count as nat
    }

    pub closed spec fn writes(&self) -> nat {
        self.write_count as nat
    }

    /// Wraps `inner` with both counts at zero.
    pub fn new(inner: T) -> (r: Self)
        ensures
            r.device() == inner,
            r.reads() == 0,
            r.writes() == 0,
    {
        CountedBlockOperations { inner, read_count: 0, write_count: 0 }
    }

    /// Reads made so far.
    pub fn read_count(&self) -> (r: usize)
        ensures
            r == self.reads(),
    {
        self.read_count
    }

    /// Writes made so far.
    pub fn write_count(&self) -> (r: usize)
        ensures
            r == self.writes(),
    {
        self.write_count
    }

    /// The wrapped device.
    pub fn inner(&self) -> (r: &T)
        ensures
            *r == self.device(),
    {
        &self.inner
    }
}

/// A counter after one more event: it stays at the largest value once there.
pub open spec fn bumped(n: nat) -> nat {
    if n < usize::MAX {
        n + 1
    } else {
        n
    }
}

/// Adds one to a counter, staying at the largest value once it is reached.
fn bump(n: usize) -> (r: usize)
    ensures
        r == bumped(n as nat),
{
    if n < usize::MAX {
        n + 1
    } else {
        n
    }
}

impl<T: BlockOperations> BlockOperations for CountedBlockOperations<T> {
    open spec fn blocks(&self) -> Seq<Seq<u8>> {
        self.device().blocks()
    }

    open spec fn read_calls(&self) -> nat {
        self.device().read_calls()
    }

    open spec fn write_calls(&self) -> nat {
        self.device().write_calls()
    }

    open spec fn durable(&self) -> Seq<Seq<u8>> {
        self.device().durable()
    }

    open spec fn ready(&self) -> bool {
        self.device().ready()
    }

    fn read(&mut self, buf: &mut Block, pos: Size)
        ensures
            final(self).reads() == bumped(old(self).reads()),
            final(self).writes() == old(self).writes(),
    {
        self.read_count = bump(self.read_count);
        self.inner.read(buf, pos);
    }

    fn write(&mut self, buf: &Block, pos: Size)
        ensures
            final(self).writes() == bumped(old(self).writes()),
            final(self).reads() == old(self).reads(),
    {
        self.write_count = bump(self.write_count);
        self.inner.write(buf, pos);
    }

    fn flush(&mut self)
        ensures
            final(self).reads() == old(self).reads(),
            final(self).writes() == old(self).writes(),
    {
        self.inner.flush();
    }
}

/// The roles a device can be registered under.
#[derive(Clone, Copy, PartialEq, Eq, Debug, Structural)]
pub enum DeviceType {
    Disk,
    /// Marks the number of roles; no device has it.
    MaxCount,
}

/// A registered device: its name, size in blocks, role, and counts of the
/// reads and writes made through it.
pub struct BlockDevice<D: BlockOperations> {
    name: &'static str,
    size: Size,
    ops: D,
    read_count: usize,
    write_count: usize,
    role: DeviceType,
}

impl<D: BlockOperations> BlockDevice<D> {
    /// The device's contents.
    pub closed spec fn view(&self) -> Seq<Seq<u8>> {
        self.ops.blocks()
    }

    pub closed spec fn wf(&self) -> bool {
        &&& self.ops.ready()
        &&& self.ops.blocks().len() == self.size
    }

    pub closed spec fn spec_size(&self) -> Size {
        self.size
    }

    pub closed spec fn spec_name(&self) -> &'static str {
        self.name
    }

    pub closed spec fn spec_role(&self) -> DeviceType {
        self.role
    }

    pub closed spec fn reads(&self) -> nat {
        self.read_count as nat
    }

    pub closed spec fn writes(&self) -> nat {
        self.write_count as nat
    }

    /// The underlying operations.
    pub closed spec fn device(&self) -> D {
        self.ops
    }

    /// Reads block `block_num` into `buffer` and counts the read.
    pub fn read(&mut self, buffer: &mut Block, block_num: Size)
        requires
            old(self).wf(),
            block_num < old(self)@.len(),
        ensures
            final(self).wf(),
            final(self)@ == old(self)@,
            final(buffer)@ == old(self)@[block_num as int],
            final(self).spec_size() == old(self).spec_size(),
            final(self).spec_role() == old(self).spec_role(),
            final(self).writes() == old(self).writes(),
            final(self).reads() == bumped(old(self).reads()),
            final(self).device().read_calls() == old(self).device().read_calls() + 1,
            final(self).device().write_calls() == old(self).device().write_calls(),
    {
        self.ops.read(buffer, block_num);
        self.read_count = bump(self.read_count);
    }

    /// Writes `buffer` to block `block_num` and counts the write.
    pub fn write(&mut self, buffer: &Block, block_num: Size)
        requires
            old(self).wf(),
            block_num < old(self)@.len(),
        ensures
            final(self).wf(),
            final(self)@ == old(self)@.update(block_num as int, buffer@),
            final(self).spec_size() == old(self).spec_size(),
            final(self).spec_role() == old(self).spec_role(),
            final(self).reads() == old(self).reads(),
            final(self).writes() == bumped(old(self).writes()),
            final(self).device().write_calls() == old(self).device().write_calls() + 1,
            final(self).device().read_calls() == old(self).device().read_calls(),
    {
        self.ops.write(buffer, block_num);
        self.write_count = bump(self.write_count);
    }

    /// Makes what was written durable.
    pub fn flush(&mut self)
        requires
            old(self).wf(),
        ensures
            final(self).wf(),
            final(self)@ == old(self)@,
            final(self).spec_size() == old(self).spec_size(),
            final(self).spec_role() == old(self).spec_role(),
            final(self).reads() == old(self).reads(),
            final(self).writes() == old(self).writes(),
            final(self).device().durable() == final(self)@,
            final(self).device().read_calls() == old(self).device().read_calls(),
            final(self).device().write_calls() == old(self).device().write_calls(),
    {
        self.ops.flush();
    }

    /// Number of blocks on the device.
    pub fn max_size(&self) -> (r: Size)
        ensures
            r == self.spec_size(),
            self.wf() ==> r == self@.len(),
    {
        self.size
    }

    /// The name the device was registered under.
    pub fn name(&self) -> (r: &'static str)
        ensures
            r == self.spec_name(),
    {
        self.name
    }

    pub fn role(&self) -> (r: DeviceType)
        ensures
            r == self.spec_role(),
    {
        self.role
    }

    pub fn read_count(&self) -> (r: usize)
        ensures
            r == self.reads(),
    {
        self.read_count
    }

    pub fn write_count(&self) -> (r: usize)
        ensures
            r == self.writes(),
    {
        self.write_count
    }

    /// The underlying operations.
    pub fn ops(&self) -> (r: &D)
        ensures
            *r == self.device(),
    {
        &self.ops
    }
}

/// The registered devices, one slot per role.
pub struct BlockManager<D: BlockOperations> {
    disk: Option<BlockDevice<D>>,
}

impl<D: BlockOperations> BlockManager<D> {
    /// The device registered under `role`, if any.
    pub closed spec fn slot(&self, role: DeviceType) -> Option<BlockDevice<D>> {
        match role {
            DeviceType::Disk => self.disk,
            DeviceType::MaxCount => None,
        }
    }

    pub open spec fn wf(&self) -> bool {
        self.slot(DeviceType::Disk) matches Some(d) ==> d.wf()
    }

    /// A registry with no device.
    pub fn init() -> (r: Self)
        ensures
            r.wf(),
            r.slot(DeviceType::Disk) is None,
    {
        BlockManager { disk: None }
    }

    /// The device registered under `role`.
    pub fn get_by_role(&mut self, role: DeviceType) -> (r: Option<&mut BlockDevice<D>>)
        requires
            role != DeviceType::MaxCount,
        ensures
            r is Some <==> old(self).slot(role) is Some,
            r is Some ==> *r->0 == old(self).slot(role)->0 && final(self).slot(role) == Some(
                *final(r->0),
            ),
            r is None ==> *final(self) == *old(self),
    {
        self.disk.as_mut()
    }

    /// The device registered under `role`, for reading its state.
    pub fn get(&self, role: DeviceType) -> (r: Option<&BlockDevice<D>>)
        requires
            role != DeviceType::MaxCount,
        ensures
            r is Some <==> self.slot(role) is Some,
            r matches Some(d) ==> *d == self.slot(role)->0,
    {
        self.disk.as_ref()
    }

    /// Registers a device of `size` blocks under `role`, whose slot must be free.
    pub fn register(&mut self, name: &'static str, size: Size, ops: D, role: DeviceType)
        requires
            role != DeviceType::MaxCount,
            old(self).slot(role) is None,
            ops.ready(),
            ops.blocks().len() == size,
        ensures
            final(self).wf(),
            final(self).slot(role) matches Some(d) && d@ == ops.blocks() && d.spec_size() == size
                && d.spec_role() == role && d.reads() == 0 && d.writes() == 0
                && d.device() == ops && d.spec_name() == name,
    {
        self.disk = Some(
            BlockDevice { name, size, ops, read_count: 0, write_count: 0, role },
        );
    }
}

} // verus!
