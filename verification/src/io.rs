//! Block devices, addressed by block number and an offset into the block.
use vstd::prelude::*;

verus! {

/// A block number.
#[derive(Debug, Clone, Copy)]
pub struct Block(pub usize);

/// A byte offset into a block.
#[derive(Debug, Clone, Copy)]
pub struct Offset(pub usize);

/// A device that reads and writes in blocks of a fixed size.
pub trait BlockDevice: Sized {
    /// The error of a failed read or write.
    type Error;

    /// The size of a block in bytes.
    spec fn block_size_of(&self) -> usize;

    /// The size of a block in bytes.
    fn block_size(&self) -> (r: usize)
        ensures
            r == self.block_size_of(),
    ;

    /// The number of blocks, where the device knows it.
    fn num_blocks(&self) -> Option<usize>;

    /// Whether a read from `offset` into block `start` took the device from
    /// `before` to `after`, turned the buffer's bytes `from` into `to` and
    /// answered `r`; each device says what its reads do.
    spec fn read_done(
        before: Self,
        start: Block,
        offset: Offset,
        from: Vec<u8>,
        after: Self,
        to: Vec<u8>,
        r: Result<(), Self::Error>,
    ) -> bool;

    /// Whether a write of `bytes` from `offset` into block `start` took the
    /// device from `before` to `after` and answered `r`; each device says
    /// what its writes do.
    spec fn write_done(
        before: Self,
        start: Block,
        offset: Offset,
        bytes: &[u8],
        after: Self,
        r: Result<(), Self::Error>,
    ) -> bool;

    /// Reads `buf.len()` bytes from `offset` into block `start`.
    fn read(&mut self, start: Block, offset: Offset, buf: &mut Vec<u8>) -> (r: Result<(), Self::Error>)
        ensures
            Self::read_done(*old(self), start, offset, *old(buf), *final(self), *final(buf), r),
    ;

    /// Writes `buf` from `offset` into block `start`.
    fn write(&mut self, start: Block, offset: Offset, buf: &[u8]) -> (r: Result<(), Self::Error>)
        ensures
            Self::write_done(*old(self), start, offset, buf, *final(self), r),
    ;

    /// Reads `buf.len()` bytes from the byte position `byte_pos`: a read
    /// from the offset of that byte into the block that holds it.
    fn read_at(&mut self, byte_pos: usize, buf: &mut Vec<u8>) -> (r: Result<(), Self::Error>)
        requires
            old(self).block_size_of() > 0,
        ensures
            Self::read_done(
                *old(self),
                Block(byte_pos / old(self).block_size_of()),
                Offset(byte_pos % old(self).block_size_of()),
                *old(buf),
                *final(self),
                *final(buf),
                r,
            ),
    {
        let (block, offset) = self.block_and_offset(byte_pos);
        self.read(block, offset, buf)
    }

    /// Writes `buf` at the byte position `byte_pos`: a write from the offset
    /// of that byte into the block that holds it.
    fn write_at(&mut self, byte_pos: usize, buf: &[u8]) -> (r: Result<(), Self::Error>)
        requires
            old(self).block_size_of() > 0,
        ensures
            Self::write_done(
                *old(self),
                Block(byte_pos / old(self).block_size_of()),
                Offset(byte_pos % old(self).block_size_of()),
                buf,
                *final(self),
                r,
            ),
    {
        let (block, offset) = self.block_and_offset(byte_pos);
        self.write(block, offset, buf)
    }

    /// The block that holds the byte position `byte_pos` and the offset of
    /// the byte in it.
    fn block_and_offset(&self, byte_pos: usize) -> (r: (Block, Offset))
        requires
            self.block_size_of() > 0,
        ensures
            r.0.0 == byte_pos / self.block_size_of(),
            r.1.0 == byte_pos % self.block_size_of(),
    {
        let size = self.block_size();
        (Block(byte_pos / size), Offset(byte_pos % size))
    }
}

impl Block {
    /// The byte position of `offset` into this block of `device`.
    pub fn to_bytes<B: BlockDevice>(self, device: &B, offset: Offset) -> (r: usize)
        requires
            self.0 * device.block_size_of() + offset.0 <= usize::MAX,
        ensures
            r == self.0 * device.block_size_of() + offset.0,
    {
        let size = device.block_size();
        proof {
            assert(self.0 * size <= self.0 * device.block_size_of() + offset.0);
        }
        self.0 * size + offset.0
    }

    /// The block `rhs` blocks further on.
    pub fn add(self, rhs: Block) -> (r: Block)
        requires
            self.0 + rhs.0 <= usize::MAX,
        ensures
            r.0 == self.0 + rhs.0,
    {
        Block(self.0 + rhs.0)
    }
}

} // verus!
