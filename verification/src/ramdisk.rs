//! A block device kept in memory.

use crate::address::{PhysMemoryRegion, VA};
use crate::error::KernelError;
use vstd::prelude::*;

verus! {

/// Bytes in one block of a ramdisk.
pub const BLOCK_SIZE: usize = 4096;

/// A ramdisk: a run of memory, mapped at `base`, read and written in whole
/// blocks.
#[derive(Debug)]
pub struct RamdiskBlkDev {
    base: VA,
    num_blocks: u64,
    data: Vec<u8>,
}

impl RamdiskBlkDev {
    /// Where the ramdisk is mapped.
    pub closed spec fn spec_base(self) -> VA {
        self.base
    }

    /// Number of blocks.
    pub closed spec fn spec_num_blocks(self) -> nat {
        self.num_blocks as nat
    }

    /// What the ramdisk holds.
    pub closed spec fn contents(self) -> Seq<u8> {
        self.data@
    }

    /// The invariant of a ramdisk: it holds a whole number of blocks.
    pub open spec fn wf(self) -> bool {
        self.contents().len() == self.spec_num_blocks() * BLOCK_SIZE
    }

    /// Whether a transfer of `len` bytes from block `block_id` on stays
    /// within the ramdisk.
    pub open spec fn in_bounds(self, block_id: u64, len: nat) -> bool {
        block_id + len / (BLOCK_SIZE as nat) <= self.spec_num_blocks()
    }

    /// Makes a ramdisk of a region of memory, given how mapping the region
    /// at `base` went. A mapping that failed fails the ramdisk with the same
    /// error; a region that is not a whole number of blocks is refused.
    pub fn new(region: PhysMemoryRegion, base: VA, mapped: Result<(), KernelError>) -> (r: Result<
        RamdiskBlkDev,
        KernelError,
    >)
        ensures
            match mapped {
                Err(e) => r == Err::<RamdiskBlkDev, KernelError>(e),
                Ok(_) => if region.size % BLOCK_SIZE != 0 {
                    r == Err::<RamdiskBlkDev, KernelError>(KernelError::InvalidValue)
                } else {
                    &&& r.is_ok()
                    &&& r.unwrap().wf()
                    &&& r.unwrap().spec_base() == base
                    &&& r.unwrap().spec_num_blocks() == region.size / BLOCK_SIZE
                },
            },
    {
        match mapped {
            Err(e) => {
                return Err(e);
            },
            Ok(_) => {},
        }
        if region.size() % BLOCK_SIZE != 0 {
            return Err(KernelError::InvalidValue);
        }
        let num_blocks = (region.size() / BLOCK_SIZE) as u64;
        let mut data: Vec<u8> = Vec::new();
        let mut i: usize = 0;
        while i < region.size
            invariant
                i <= region.size,
                data@.len() == i,
            decreases region.size - i,
        {
            data.push(0);
            i = i + 1;
        }
        Ok(RamdiskBlkDev { base, num_blocks, data })
    }

    /// Where the ramdisk is mapped.
    pub fn base(&self) -> (r: VA)
        ensures
            r == self.spec_base(),
    {
        self.base
    }

    /// Number of blocks.
    pub fn num_blocks(&self) -> (r: u64)
        ensures
            r == self.spec_num_blocks(),
    {
        self.num_blocks
    }

    /// Reads whole blocks from block `block_id` on, as many as fill `buf`.
    /// A read that would pass the end of the ramdisk is refused and leaves
    /// `buf` as it is.
    pub fn read(&self, block_id: u64, buf: &mut Vec<u8>) -> (r: Result<(), KernelError>)
        requires
            self.wf(),
            old(buf)@.len() % (BLOCK_SIZE as nat) == 0,
        ensures
            r.is_ok() <==> self.in_bounds(block_id, old(buf)@.len()),
            r matches Err(e) ==> e == KernelError::OutOfBounds && final(buf)@ == old(buf)@,
            r.is_ok() ==> final(buf)@ == self.contents().subrange(
                block_id * BLOCK_SIZE,
                block_id * BLOCK_SIZE + old(buf)@.len(),
            ),
    {
        let len = buf.len();
        let num_blocks_to_read = (len / BLOCK_SIZE) as u64;
        if block_id > self.num_blocks || num_blocks_to_read > self.num_blocks - block_id {
            return Err(KernelError::OutOfBounds);
        }
        let total = self.data.len();
        proof {
            assert(total == self.num_blocks * 4096);
            assert(len == 4096 * (len / 4096));
            assert(block_id * 4096 + len <= self.num_blocks * 4096);
        }
        let offset = (block_id as usize) * BLOCK_SIZE;
        let mut i: usize = 0;
        while i < len
            invariant
                self.wf(),
                i <= len,
                len == buf@.len(),
                len % BLOCK_SIZE == 0,
                offset == block_id * BLOCK_SIZE,
                offset + len <= self.data@.len() <= usize::MAX,
                forall|j: int| 0 <= j < i ==> buf@[j] == self.data@[offset + j],
            decreases len - i,
        {
            buf[i] = self.data[offset + i];
            i = i + 1;
        }
        assert(buf@ =~= self.contents().subrange(offset as int, offset + len));
        Ok(())
    }

    /// Writes the whole blocks in `buf` from block `block_id` on. A write
    /// that would pass the end of the ramdisk is refused and changes
    /// nothing.
    pub fn write(&mut self, block_id: u64, buf: &[u8]) -> (r: Result<(), KernelError>)
        requires
            old(self).wf(),
            buf@.len() % (BLOCK_SIZE as nat) == 0,
        ensures
            final(self).wf(),
            final(self).spec_base() == old(self).spec_base(),
            final(self).spec_num_blocks() == old(self).spec_num_blocks(),
            r.is_ok() <==> old(self).in_bounds(block_id, buf@.len()),
            r matches Err(e) ==> e == KernelError::OutOfBounds && final(self).contents() == old(
                self,
            ).contents(),
            r.is_ok() ==> final(self).contents() == old(self).contents().subrange(
                0,
                block_id * BLOCK_SIZE,
            ) + buf@ + old(self).contents().subrange(
                block_id * BLOCK_SIZE + buf@.len(),
                old(self).contents().len() as int,
            ),
    {
        let len = buf.len();
        let num_blocks_to_write = (len / BLOCK_SIZE) as u64;
        if block_id > self.num_blocks || num_blocks_to_write > self.num_blocks - block_id {
            return Err(KernelError::OutOfBounds);
        }
        let total = self.data.len();
        proof {
            assert(total == self.num_blocks * 4096);
            assert(len == 4096 * (len / 4096));
            assert(block_id * 4096 + len <= self.num_blocks * 4096);
        }
        let offset = (block_id as usize) * BLOCK_SIZE;
        let mut i: usize = 0;
        while i < len
            invariant
                self.wf(),
                self.base == old(self).base,
                self.num_blocks == old(self).num_blocks,
                i <= len,
                len == buf@.len(),
                len % BLOCK_SIZE == 0,
                offset == block_id * BLOCK_SIZE,
                offset + len <= self.data@.len() <= usize::MAX,
                self.data@.len() == old(self).data@.len(),
                forall|j: int| 0 <= j < i ==> self.data@[offset + j] == buf@[j],
                forall|j: int|
                    0 <= j < self.data@.len() && !(offset <= j < offset + i) ==> self.data@[j]
                        == old(self).data@[j],
            decreases len - i,
        {
            self.data[offset + i] = buf[i];
            i = i + 1;
        }
        assert(self.contents() =~= old(self).contents().subrange(0, offset as int) + buf@ + old(
            self,
        ).contents().subrange(offset + len, old(self).contents().len() as int));
        Ok(())
    }

    /// Bytes in one block.
    pub fn block_size(&self) -> (r: usize)
        ensures
            r == BLOCK_SIZE,
    {
        BLOCK_SIZE
    }

    /// Makes what was written durable: a ramdisk has nothing to flush.
    pub fn sync(&self) -> (r: Result<(), KernelError>)
        ensures
            r.is_ok(),
    {
        Ok(())
    }
}

} // verus!
