//! A block device emulated on a byte image of its medium, as a file would
//! hold it: block `n` is the 4096 bytes at offset `n * 4096`.

use crate::codec;
use crate::io::block::{filled, overwritten, written_len, BlockError, BlockNumber, BlockStorage};
use crate::layout::BLOCK_SIZE;
use vstd::prelude::*;

verus! {

/// The blocks that a medium of at least `count` blocks holds.
pub open spec fn blocks_of(medium: Seq<u8>, count: nat) -> Seq<Seq<u8>> {
    Seq::new(count, |k: int| medium.subrange(k * BLOCK_SIZE, k * BLOCK_SIZE + BLOCK_SIZE))
}

/// What a medium holds after its first `count` blocks were cleared: the zero
/// bytes of those blocks, then whatever lay beyond them.
pub open spec fn cleared(medium: Seq<u8>, count: nat) -> Seq<u8> {
    if medium.len() > count * BLOCK_SIZE {
        codec::zeros(count * BLOCK_SIZE as nat) + medium.skip(count * BLOCK_SIZE as int)
    } else {
        codec::zeros(count * BLOCK_SIZE as nat)
    }
}

/// Where on the medium a read of block `blocknr` starts, for a device of
/// `block_count` blocks and a buffer of `buf_len` bytes: at
/// `blocknr * BLOCK_SIZE`. The range is checked first, then the buffer.
pub fn read_span(block_count: usize, blocknr: BlockNumber, buf_len: usize) -> (res: Result<
    usize,
    BlockError,
>)
    requires
        block_count * BLOCK_SIZE <= usize::MAX,
    ensures
        match res {
            Ok(start) => {
                &&& blocknr < block_count
                &&& buf_len >= BLOCK_SIZE
                &&& start == blocknr * BLOCK_SIZE
                &&& start + BLOCK_SIZE <= block_count * BLOCK_SIZE
            },
            Err(BlockError::OutOfRange) => blocknr >= block_count,
            Err(BlockError::BufferTooSmall) => blocknr < block_count && buf_len < BLOCK_SIZE,
            Err(_) => false,
        },
{
    if blocknr >= block_count {
        return Err(BlockError::OutOfRange);
    }
    if buf_len < BLOCK_SIZE {
        return Err(BlockError::BufferTooSmall);
    }
    Ok(blocknr * BLOCK_SIZE)
}

/// Where on the medium a write to block `blocknr` starts and how many bytes
/// it writes, for a device of `block_count` blocks and a buffer of
/// `buf_len` bytes: at `blocknr * BLOCK_SIZE`, the whole buffer but one
/// block at most.
pub fn write_span(block_count: usize, blocknr: BlockNumber, buf_len: usize) -> (res: Result<
    (usize, usize),
    BlockError,
>)
    requires
        block_count * BLOCK_SIZE <= usize::MAX,
    ensures
        match res {
            Ok((start, len)) => {
                &&& blocknr < block_count
                &&& start == blocknr * BLOCK_SIZE
                &&& len == written_len(buf_len as int)
                &&& start + BLOCK_SIZE <= block_count * BLOCK_SIZE
            },
            Err(BlockError::OutOfRange) => blocknr >= block_count,
            Err(_) => false,
        },
{
    if blocknr >= block_count {
        return Err(BlockError::OutOfRange);
    }
    let max: usize = if BLOCK_SIZE < buf_len {
        BLOCK_SIZE
    } else {
        buf_len
    };
    Ok((blocknr * BLOCK_SIZE, max))
}

/// The number of bytes that a device of `block_count` blocks takes up on
/// its medium.
pub fn medium_len(block_count: usize) -> (len: usize)
    requires
        block_count * BLOCK_SIZE <= usize::MAX,
    ensures
        len == block_count * BLOCK_SIZE,
{
    block_count * BLOCK_SIZE
}

/// Emulates block storage on the bytes of a medium. It is meant for
/// developing and testing a file system.
pub struct FileBlockEmulator {
    /// The bytes of the medium, at least `block_count` blocks of them.
    fd: Vec<u8>,
    /// The number of blocks available in the store.
    block_count: usize,
}

impl FileBlockEmulator {
    /// The bytes of the medium.
    pub closed spec fn medium(&self) -> Seq<u8> {
        self.fd@
    }

    /// The number of blocks of the device.
    pub closed spec fn block_count(&self) -> nat {
        self.block_count as nat
    }

    /// Gives the medium back to the caller. The blocks of the device are
    /// the first `block_count` blocks of it.
    pub fn into_file(self) -> (medium: Vec<u8>)
        ensures
            medium@ == self.medium(),
            blocks_of(medium@, self.block_count()) == self.blocks(),
            self.inv() ==> self.block_count() * BLOCK_SIZE <= medium@.len(),
    {
        self.fd
    }
}

impl BlockStorage for FileBlockEmulator {
    closed spec fn inv(&self) -> bool {
        self.block_count * BLOCK_SIZE <= self.fd@.len()
    }

    closed spec fn blocks(&self) -> Seq<Seq<u8>> {
        blocks_of(self.fd@, self.block_count as nat)
    }

    closed spec fn reliable(&self) -> bool {
        true
    }

    proof fn lemma_blocks_well_formed(&self) {
    }

    /// A read leaves the medium as it is.
    fn read_block(&mut self, blocknr: BlockNumber, buf: &mut [u8]) -> (res: Result<(), BlockError>)
        ensures
            final(self).medium() == old(self).medium(),
            final(self).block_count() == old(self).block_count(),
    {
        assert(self.block_count * BLOCK_SIZE <= self.fd.len());
        let start: usize = match read_span(self.block_count, blocknr, buf.len()) {
            Ok(start) => start,
            Err(e) => {
                return Err(e);
            },
        };
        let mut i: usize = 0;
        while i < BLOCK_SIZE
            invariant
                i <= BLOCK_SIZE,
                *self == *old(self),
                start == blocknr * BLOCK_SIZE,
                blocknr < self.block_count,
                self.block_count * BLOCK_SIZE <= self.fd@.len(),
                buf@.len() == old(buf)@.len(),
                buf@.len() >= BLOCK_SIZE,
                forall|j: int| 0 <= j < i ==> buf@[j] == self.fd@[start + j],
                forall|j: int| i <= j < buf@.len() ==> buf@[j] == old(buf)@[j],
            decreases BLOCK_SIZE - i,
        {
            buf[i] = self.fd[start + i];
            i += 1;
        }
        assert(buf@ =~= filled(old(buf)@, old(self).blocks()[blocknr as int]));
        Ok(())
    }

    /// A write that is refused leaves the medium as it is. No write changes
    /// the length of the medium or a byte outside the block.
    fn write_block(&mut self, blocknr: BlockNumber, buf: &mut [u8]) -> (res: Result<(), BlockError>)
        ensures
            final(self).block_count() == old(self).block_count(),
            final(self).medium().len() == old(self).medium().len(),
            res is Err ==> final(self).medium() == old(self).medium(),
            forall|j: int|
                0 <= j < old(self).medium().len() && !(blocknr * BLOCK_SIZE <= j < blocknr
                    * BLOCK_SIZE + BLOCK_SIZE) ==> final(self).medium()[j] == old(self).medium()[j],
    {
        assert(self.block_count * BLOCK_SIZE <= self.fd.len());
        let (start, max) = match write_span(self.block_count, blocknr, buf.len()) {
            Ok(span) => span,
            Err(e) => {
                return Err(e);
            },
        };
        let mut i: usize = 0;
        while i < max
            invariant
                i <= max,
                max == written_len(buf@.len() as int),
                buf@ == old(buf)@,
                start == blocknr * BLOCK_SIZE,
                blocknr < self.block_count,
                self.block_count == old(self).block_count,
                self.block_count * BLOCK_SIZE <= self.fd@.len(),
                self.fd@.len() == old(self).fd@.len(),
                forall|j: int| 0 <= j < i ==> self.fd@[start + j] == buf@[j],
                forall|j: int|
                    0 <= j < self.fd@.len() && !(start <= j < start + i) ==> self.fd@[j] == old(self).fd@[j],
            decreases max - i,
        {
            self.fd[start + i] = buf[i];
            i += 1;
        }
        proof {
            let before = old(self).blocks();
            let after = self.blocks();
            let target = overwritten(before[blocknr as int], buf@);
            assert(after[blocknr as int] =~= target);
            assert forall|k: int| 0 <= k < before.len() && k != blocknr implies after[k]
                == before[k] by {
                assert(after[k] =~= before[k]);
            }
            assert(after =~= before.update(blocknr as int, target));
        }
        Ok(())
    }

    /// The medium is in memory: there is nothing to flush.
    fn sync_disk(&mut self) -> (res: Result<(), BlockError>)
        ensures
            res is Ok,
            final(self).medium() == old(self).medium(),
            final(self).block_count() == old(self).block_count(),
    {
        Ok(())
    }
}

/// Prepares a medium for use as a block device.
pub struct FileBlockEmulatorBuilder {
    fd: Vec<u8>,
    block_count: usize,
    clear: bool,
}

impl vstd::std_specs::convert::FromSpecImpl<Vec<u8>> for FileBlockEmulatorBuilder {
    open spec fn obeys_from_spec() -> bool {
        true
    }

    closed spec fn from_spec(fd: Vec<u8>) -> Self {
        FileBlockEmulatorBuilder { fd, block_count: 0, clear: true }
    }
}

impl From<Vec<u8>> for FileBlockEmulatorBuilder {
    /// A builder for a device on the medium `fd`. The number of blocks is
    /// still to be given; the medium will be cleared unless that is switched
    /// off.
    fn from(fd: Vec<u8>) -> (builder: Self)
        ensures
            builder.medium() == fd@,
            builder.block_count() == 0,
            builder.clears(),
    {
        FileBlockEmulatorBuilder { fd, block_count: 0, clear: true }
    }
}

impl FileBlockEmulatorBuilder {
    /// The bytes of the medium that the builder was given.
    pub closed spec fn medium(&self) -> Seq<u8> {
        self.fd@
    }

    /// The number of blocks that the device will have.
    pub closed spec fn block_count(&self) -> nat {
        self.block_count as nat
    }

    /// Whether `build` clears the medium.
    pub closed spec fn clears(&self) -> bool {
        self.clear
    }

    /// Sets the number of blocks of the device.
    pub fn with_block_size(self, blocks: usize) -> (builder: Self)
        ensures
            builder.medium() == self.medium(),
            builder.block_count() == blocks,
            builder.clears() == self.clears(),
    {
        let mut builder = self;
        builder.block_count = blocks;
        builder
    }

    /// Chooses whether `build` writes zero bytes over the blocks of the
    /// device, which prepares an unformatted medium, or takes the medium as
    /// it is, which reopens a formatted one.
    pub fn clear_medium(self, clear: bool) -> (builder: Self)
        ensures
            builder.medium() == self.medium(),
            builder.block_count() == self.block_count(),
            builder.clears() == clear,
    {
        let mut builder = self;
        builder.clear = clear;
        builder
    }

    /// Makes the device. The builder takes the medium over and, when it
    /// clears, destroys what the first `block_count` blocks held.
    ///
    /// A medium that is taken as it is has to hold `block_count` blocks
    /// already; one that does not is refused with `OutOfRange`.
    pub fn build(self) -> (res: Result<FileBlockEmulator, BlockError>)
        requires
            self.block_count() > 0,
            self.block_count() * BLOCK_SIZE <= usize::MAX,
        ensures
            match res {
                Ok(dev) => {
                    &&& dev.inv()
                    &&& dev.reliable()
                    &&& dev.block_count() == self.block_count()
                    &&& dev.blocks().len() == self.block_count()
                    &&& dev.blocks() == blocks_of(dev.medium(), self.block_count())
                    &&& self.clears() ==> dev.medium() == cleared(
                        self.medium(),
                        self.block_count(),
                    )
                    &&& self.clears() ==> forall|k: int|
                        0 <= k < dev.blocks().len() ==> #[trigger] dev.blocks()[k] == codec::zeros(
                            BLOCK_SIZE as nat,
                        )
                    &&& !self.clears() ==> dev.medium() == self.medium()
                },
                Err(BlockError::OutOfRange) => !self.clears() && self.medium().len()
                    < self.block_count() * BLOCK_SIZE,
                Err(_) => false,
            },
    {
        let mut builder = self;
        if builder.clear {
            builder.zero_block();
            proof {
                assert forall|k: int| 0 <= k < self.block_count() implies blocks_of(
                    builder.fd@,
                    self.block_count(),
                )[k] == codec::zeros(BLOCK_SIZE as nat) by {
                    lemma_cleared_blocks(self.medium(), self.block_count(), k);
                }
            }
        } else if builder.fd.len() < medium_len(builder.block_count) {
            return Err(BlockError::OutOfRange);
        }
        Ok(FileBlockEmulator { fd: builder.fd, block_count: builder.block_count })
    }

    /// Writes zero bytes over the first `block_count` blocks of the medium,
    /// making it longer where it is too short for them.
    fn zero_block(&mut self)
        requires
            old(self).block_count * BLOCK_SIZE <= usize::MAX,
        ensures
            final(self).block_count == old(self).block_count,
            final(self).clear == old(self).clear,
            final(self).fd@ == cleared(old(self).fd@, old(self).block_count as nat),
    {
        let total: usize = medium_len(self.block_count);
        let mut i: usize = 0;
        while i < total
            invariant
                i <= total,
                total == self.block_count * BLOCK_SIZE,
                self.block_count == old(self).block_count,
                self.clear == old(self).clear,
                self.fd@.len() == if old(self).fd@.len() > i {
                    old(self).fd@.len()
                } else {
                    i as nat
                },
                forall|j: int| 0 <= j < i ==> self.fd@[j] == 0u8,
                forall|j: int| i <= j < self.fd@.len() ==> self.fd@[j] == old(self).fd@[j],
            decreases total - i,
        {
            if i < self.fd.len() {
                self.fd[i] = 0u8;
            } else {
                self.fd.push(0u8);
            }
            i += 1;
        }
        assert(self.fd@ =~= cleared(old(self).fd@, old(self).block_count as nat));
    }
}

/// Every block of a cleared medium is zero.
pub proof fn lemma_cleared_blocks(medium: Seq<u8>, count: nat, k: int)
    requires
        0 <= k < count,
    ensures
        blocks_of(cleared(medium, count), count)[k] == codec::zeros(BLOCK_SIZE as nat),
{
    assert(blocks_of(cleared(medium, count), count)[k] =~= codec::zeros(BLOCK_SIZE as nat));
}

} // verus!
