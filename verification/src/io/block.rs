//! The interface between the file system and the device that carries it.

use crate::layout::BLOCK_SIZE;
use vstd::prelude::*;

verus! {

/// The number of a block, from 0 for the first block to `n - 1` for the last,
/// where `n` is the number of blocks of the device.
pub type BlockNumber = usize;

/// Why a block could not be read, written or used.
#[derive(Debug)]
pub enum BlockError {
    /// The block number is not below the number of blocks.
    OutOfRange,
    /// The buffer handed to a read is shorter than a block.
    BufferTooSmall,
    /// A block does not hold what the file system expects of it.
    InvalidData,
    /// No entry is left to allocate.
    StorageFull,
    /// The medium reported a fault; the text is its report.
    Io(String),
}

/// Every block is `BLOCK_SIZE` bytes long.
pub open spec fn well_formed(blocks: Seq<Seq<u8>>) -> bool {
    forall|k: int| 0 <= k < blocks.len() ==> (#[trigger] blocks[k]).len() == BLOCK_SIZE
}

/// What a buffer holds after `block` was read into it: the block, then what
/// the buffer held beyond the first `BLOCK_SIZE` bytes.
pub open spec fn filled(buf: Seq<u8>, block: Seq<u8>) -> Seq<u8> {
    block + buf.skip(BLOCK_SIZE as int)
}

/// The number of bytes that a write of `len` bytes puts into a block.
pub open spec fn written_len(len: int) -> int {
    if len < BLOCK_SIZE {
        len
    } else {
        BLOCK_SIZE as int
    }
}

/// What a block holds after `data` was written to it: the first `BLOCK_SIZE`
/// bytes of `data`, and, where `data` is shorter than that, the rest of the
/// block as it was.
pub open spec fn overwritten(block: Seq<u8>, data: Seq<u8>) -> Seq<u8> {
    data.take(written_len(data.len() as int)) + block.skip(written_len(data.len() as int))
}

/// Writing a whole block replaces the block.
pub proof fn lemma_overwritten_whole(block: Seq<u8>, data: Seq<u8>)
    requires
        block.len() == BLOCK_SIZE,
        data.len() == BLOCK_SIZE,
    ensures
        overwritten(block, data) == data,
{
    assert(overwritten(block, data) =~= data);
}

/// A device of fixed-size blocks.
///
/// A device is described by the blocks it holds, [`BlockStorage::blocks`].
/// Range and buffer checks are owed by every device and come before any
/// access to the medium. Past them the medium decides: a device that is
/// [`BlockStorage::reliable`] always succeeds, any other may report a fault.
pub trait BlockStorage: Sized {
    /// What the implementation needs to hold of itself between calls.
    spec fn inv(&self) -> bool;

    /// The contents of the device, block by block.
    spec fn blocks(&self) -> Seq<Seq<u8>>;

    /// Whether the medium is known never to report a fault.
    spec fn reliable(&self) -> bool;

    /// A device in good order holds whole blocks.
    proof fn lemma_blocks_well_formed(&self)
        requires
            self.inv(),
        ensures
            well_formed(self.blocks()),
    ;

    /// Reads block `blocknr` into the first `BLOCK_SIZE` bytes of `buf`.
    ///
    /// Fails with `OutOfRange` when the device has no such block, and else
    /// with `BufferTooSmall` when `buf` is shorter than a block; the buffer
    /// is then untouched. A read never changes the device.
    fn read_block(&mut self, blocknr: BlockNumber, buf: &mut [u8]) -> (res: Result<(), BlockError>)
        requires
            old(self).inv(),
        ensures
            final(self).inv(),
            final(self).blocks() == old(self).blocks(),
            final(self).reliable() == old(self).reliable(),
            final(buf)@.len() == old(buf)@.len(),
            match res {
                Ok(()) => {
                    &&& blocknr < old(self).blocks().len()
                    &&& old(buf)@.len() >= BLOCK_SIZE
                    &&& final(buf)@ == filled(old(buf)@, old(self).blocks()[blocknr as int])
                },
                Err(BlockError::OutOfRange) => {
                    &&& blocknr >= old(self).blocks().len()
                    &&& final(buf)@ == old(buf)@
                },
                Err(BlockError::BufferTooSmall) => {
                    &&& blocknr < old(self).blocks().len()
                    &&& old(buf)@.len() < BLOCK_SIZE
                    &&& final(buf)@ == old(buf)@
                },
                Err(BlockError::Io(_)) => {
                    &&& blocknr < old(self).blocks().len()
                    &&& old(buf)@.len() >= BLOCK_SIZE
                    &&& !old(self).reliable()
                },
                Err(_) => false,
            },
    ;

    /// Writes the first `BLOCK_SIZE` bytes of `buf` to the start of block
    /// `blocknr`. A shorter `buf` leaves the rest of the block as it was.
    ///
    /// Fails with `OutOfRange` when the device has no such block; the device
    /// is then unchanged. A fault of the medium leaves every other block
    /// unchanged.
    fn write_block(&mut self, blocknr: BlockNumber, buf: &mut [u8]) -> (res: Result<(), BlockError>)
        requires
            old(self).inv(),
        ensures
            final(self).inv(),
            final(self).reliable() == old(self).reliable(),
            final(self).blocks().len() == old(self).blocks().len(),
            final(buf)@ == old(buf)@,
            match res {
                Ok(()) => {
                    &&& blocknr < old(self).blocks().len()
                    &&& final(self).blocks() == old(self).blocks().update(
                        blocknr as int,
                        overwritten(old(self).blocks()[blocknr as int], old(buf)@),
                    )
                },
                Err(BlockError::OutOfRange) => {
                    &&& blocknr >= old(self).blocks().len()
                    &&& final(self).blocks() == old(self).blocks()
                },
                Err(BlockError::Io(_)) => {
                    &&& blocknr < old(self).blocks().len()
                    &&& !old(self).reliable()
                    &&& forall|k: int|
                        0 <= k < old(self).blocks().len() && k != blocknr ==> final(self).blocks()[k] == old(self).blocks()[k]
                },
                Err(_) => false,
            },
    ;

    /// Flushes outstanding writes through to durable storage. What the
    /// device holds does not change.
    fn sync_disk(&mut self) -> (res: Result<(), BlockError>)
        requires
            old(self).inv(),
        ensures
            final(self).inv(),
            final(self).reliable() == old(self).reliable(),
            final(self).blocks() == old(self).blocks(),
            match res {
                Ok(()) => true,
                Err(BlockError::Io(_)) => !old(self).reliable(),
                Err(_) => false,
            },
    ;
}

} // verus!
