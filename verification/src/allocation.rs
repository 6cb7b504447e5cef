//! Allocation bitmaps and the policy that hands out free entries.
//!
//! A bitmap fills exactly one block. Bit `i` lies in byte `i / 8` at position
//! `i % 8`, least significant bit first; a set bit marks entry `i` reserved.

use crate::layout::{BITMAP_BITS, BLOCK_SIZE};
use vstd::prelude::*;

verus! {

/// Whether an entry of a bitmap is taken.
#[derive(Debug, PartialEq, Eq, Structural, Clone, Copy)]
pub enum State {
    Free,
    Used,
}

/// Bit `k` of byte `b`, counted from the least significant bit.
pub open spec fn bit_of(b: u8, k: u8) -> bool {
    (b >> k) & 1u8 == 1u8
}

/// The bits that `bytes` hold, eight per byte, least significant first.
pub open spec fn bits_of(bytes: Seq<u8>) -> Seq<bool> {
    Seq::new(8 * bytes.len(), |i: int| bit_of(bytes[i / 8], (i % 8) as u8))
}

/// The bytes `bytes` with bit `i` set, where `on` holds, or cleared.
pub open spec fn with_bit(bytes: Seq<u8>, i: int, on: bool) -> Seq<u8> {
    let b = bytes[i / 8];
    let k = (i % 8) as u8;
    bytes.update(
        i / 8,
        if on {
            b | (1u8 << k)
        } else {
            b & !(1u8 << k)
        },
    )
}

/// Changing bit `i` in the bytes changes entry `i` of the bits, and nothing
/// else.
pub proof fn lemma_with_bit(bytes: Seq<u8>, i: int, on: bool)
    requires
        0 <= i < 8 * bytes.len(),
    ensures
        with_bit(bytes, i, on).len() == bytes.len(),
        bits_of(with_bit(bytes, i, on)) == bits_of(bytes).update(i, on),
{
    let after = with_bit(bytes, i, on);
    let byte = bytes[i / 8];
    let k = (i % 8) as u8;
    assert forall|n: int| 0 <= n < 8 * bytes.len() implies bits_of(after)[n] == bits_of(
        bytes,
    ).update(i, on)[n] by {
        let j = (n % 8) as u8;
        assert(k < 8 && j < 8 ==> bit_of(byte | (1u8 << k), j) == (j == k || bit_of(byte, j)))
            by (bit_vector);
        assert(k < 8 && j < 8 ==> bit_of(byte & !(1u8 << k), j) == (j != k && bit_of(byte, j)))
            by (bit_vector);
    }
    assert(bits_of(after) =~= bits_of(bytes).update(i, on));
}

/// No bit is set in zero bytes.
pub proof fn lemma_zero_bits(n: nat)
    ensures
        bits_of(crate::codec::zeros(n)) == Seq::new(8 * n, |i: int| false),
{
    assert forall|i: int| 0 <= i < 8 * n implies !bits_of(crate::codec::zeros(n))[i] by {
        let k = (i % 8) as u8;
        assert(!bit_of(0u8, k)) by (bit_vector);
    }
    assert(bits_of(crate::codec::zeros(n)) =~= Seq::new(8 * n, |i: int| false));
}

/// Where `i` is the lowest clear bit in `from..cap`, `first_free` finds it;
/// where every bit in `from..cap` is set, it finds none.
pub proof fn lemma_first_free_unique(bits: Seq<bool>, from: int, cap: int, i: int)
    ensures
        from <= i < cap && !bits[i] && (forall|j: int| from <= j < i ==> bits[j]) ==> first_free(
            bits,
            from,
            cap,
        ) == Some(i),
        (forall|j: int| from <= j < cap ==> bits[j]) ==> first_free(bits, from, cap) is None,
{
    lemma_first_free(bits, from, cap);
}

/// The lowest index in `from..cap` whose bit is clear, if there is one.
pub open spec fn first_free(bits: Seq<bool>, from: int, cap: int) -> Option<int>
    decreases cap - from,
{
    if from >= cap {
        None
    } else if !bits[from] {
        Some(from)
    } else {
        first_free(bits, from + 1, cap)
    }
}

/// The indices in `from..cap` whose bit is clear, in rising order.
pub open spec fn free_entries(bits: Seq<bool>, from: int, cap: int) -> Seq<int>
    decreases cap - from,
{
    if from >= cap {
        Seq::empty()
    } else if !bits[from] {
        seq![from] + free_entries(bits, from + 1, cap)
    } else {
        free_entries(bits, from + 1, cap)
    }
}

/// `first_free` finds the lowest clear bit, and finds none exactly when
/// every bit is set.
pub proof fn lemma_first_free(bits: Seq<bool>, from: int, cap: int)
    ensures
        match first_free(bits, from, cap) {
            Some(i) => from <= i < cap && !bits[i] && forall|j: int| from <= j < i ==> bits[j],
            None => forall|j: int| from <= j < cap ==> bits[j],
        },
    decreases cap - from,
{
    if from < cap && bits[from] {
        lemma_first_free(bits, from + 1, cap);
    }
}

/// One block of allocation bits.
#[derive(Clone, Copy)]
pub struct Bitmap {
    bitmap: [u8; 4096],
}

impl View for Bitmap {
    type V = Seq<bool>;

    /// The 32768 bits: `self@[i]` holds when entry `i` is reserved.
    open spec fn view(&self) -> Seq<bool> {
        bits_of(self.bytes())
    }
}

impl Bitmap {
    /// The 4096 bytes of the block, which are also its image on disk.
    pub closed spec fn bytes(&self) -> Seq<u8> {
        self.bitmap@
    }

    /// The state of entry `i`.
    pub open spec fn state(&self, i: int) -> State {
        if self@[i] {
            State::Used
        } else {
            State::Free
        }
    }

    /// The bits that `parse` reads from a buffer.
    pub open spec fn decode(buf: Seq<u8>) -> Seq<bool> {
        bits_of(buf.subrange(0, BLOCK_SIZE as int))
    }

    /// A bitmap is one block long.
    pub proof fn lemma_len(&self)
        ensures
            self.bytes().len() == BLOCK_SIZE,
            self@.len() == BITMAP_BITS,
    {
    }

    /// A bitmap with every entry free.
    pub fn new() -> (bmp: Self)
        ensures
            bmp.bytes() == crate::codec::zeros(BLOCK_SIZE as nat),
            bmp@ == Seq::new(BITMAP_BITS as nat, |i: int| false),
    {
        let bmp = Self { bitmap: [0u8; 4096] };
        proof {
            assert(bmp.bytes() =~= crate::codec::zeros(BLOCK_SIZE as nat));
            lemma_zero_bits(BLOCK_SIZE as nat);
        }
        bmp
    }

    /// Reads a bitmap from the first block of `buf`.
    pub fn parse(buf: &[u8]) -> (bmp: Self)
        requires
            buf@.len() >= BLOCK_SIZE,
        ensures
            bmp.bytes() == buf@.subrange(0, BLOCK_SIZE as int),
            bmp@ == Self::decode(buf@),
    {
        let mut bitmap = [0u8; 4096];
        let mut i: usize = 0;
        while i < 4096
            invariant
                i <= 4096,
                buf@.len() >= 4096,
                forall|j: int| 0 <= j < i ==> bitmap@[j] == buf@[j],
            decreases 4096 - i,
        {
            bitmap[i] = buf[i];
            i += 1;
        }
        let bmp = Self { bitmap };
        assert(bmp.bytes() =~= buf@.subrange(0, BLOCK_SIZE as int));
        bmp
    }

    /// The block as it is written to disk.
    pub fn serialize(&self) -> (out: &[u8])
        ensures
            out@ == self.bytes(),
            out@.len() == BLOCK_SIZE,
    {
        self.bitmap.as_slice()
    }

    /// Reads entry `blocknr`.
    pub fn get(&self, blocknr: usize) -> (state: State)
        requires
            blocknr < BITMAP_BITS - 1,
        ensures
            state == self.state(blocknr as int),
    {
        let byte: u8 = self.bitmap[blocknr / 8];
        let k: u8 = (blocknr % 8) as u8;
        if (byte >> k) & 1u8 == 1u8 {
            State::Used
        } else {
            State::Free
        }
    }

    /// Marks entry `blocknr` reserved. Every other entry keeps its state.
    pub fn set_reserved(&mut self, blocknr: usize)
        requires
            blocknr < BITMAP_BITS - 1,
        ensures
            final(self).bytes() == with_bit(old(self).bytes(), blocknr as int, true),
            final(self)@ == old(self)@.update(blocknr as int, true),
            final(self).state(blocknr as int) == State::Used,
    {
        let byte: u8 = self.bitmap[blocknr / 8];
        let k: u8 = (blocknr % 8) as u8;
        let new_byte: u8 = byte | (1u8 << k);
        self.bitmap[blocknr / 8] = new_byte;
        proof {
            assert(self.bytes() =~= with_bit(old(self).bytes(), blocknr as int, true));
            lemma_with_bit(old(self).bytes(), blocknr as int, true);
        }
    }

    /// Marks entry `blocknr` free. Every other entry keeps its state.
    pub fn set_free(&mut self, blocknr: usize)
        requires
            blocknr < BITMAP_BITS - 1,
        ensures
            final(self).bytes() == with_bit(old(self).bytes(), blocknr as int, false),
            final(self)@ == old(self)@.update(blocknr as int, false),
            final(self).state(blocknr as int) == State::Free,
    {
        let byte: u8 = self.bitmap[blocknr / 8];
        let k: u8 = (blocknr % 8) as u8;
        let new_byte: u8 = byte & !(1u8 << k);
        self.bitmap[blocknr / 8] = new_byte;
        proof {
            assert(self.bytes() =~= with_bit(old(self).bytes(), blocknr as int, false));
            lemma_with_bit(old(self).bytes(), blocknr as int, false);
        }
    }

    /// Parsing what `serialize` wrote gives a bitmap with the same bits, and
    /// so the same state at every entry.
    pub proof fn lemma_round_trip(&self)
        ensures
            Self::decode(self.bytes()) == self@,
            forall|i: int| 0 <= i < BITMAP_BITS ==> Self::decode(self.bytes())[i] == self@[i],
    {
        assert(self.bytes().subrange(0, BLOCK_SIZE as int) =~= self.bytes());
    }

    /// Reserving an entry makes it `Used`, freeing it makes it `Free`. Either
    /// leaves every other entry as it was, changes nothing where the entry
    /// is in that state already, and so does the same done twice as done
    /// once.
    pub proof fn lemma_semantics(bytes: Seq<u8>, i: int, j: int, reserved: bool)
        requires
            0 <= i < 8 * bytes.len(),
            0 <= j < 8 * bytes.len(),
        ensures
            bits_of(with_bit(bytes, i, reserved))[i] == reserved,
            i != j ==> bits_of(with_bit(bytes, i, reserved))[j] == bits_of(bytes)[j],
            bits_of(bytes)[i] == reserved ==> with_bit(bytes, i, reserved) == bytes,
            with_bit(with_bit(bytes, i, reserved), i, reserved) == with_bit(bytes, i, reserved),
    {
        let once = with_bit(bytes, i, reserved);
        let byte = bytes[i / 8];
        let k = (i % 8) as u8;
        lemma_with_bit(bytes, i, reserved);
        assert(k < 8 && bit_of(byte, k) ==> byte | (1u8 << k) == byte) by (bit_vector);
        assert(k < 8 && !bit_of(byte, k) ==> byte & !(1u8 << k) == byte) by (bit_vector);
        if bits_of(bytes)[i] == reserved {
            assert(once =~= bytes);
        }
        assert(bits_of(once)[i] == reserved);
        let again = once[i / 8];
        assert(k < 8 && bit_of(again, k) ==> again | (1u8 << k) == again) by (bit_vector);
        assert(k < 8 && !bit_of(again, k) ==> again & !(1u8 << k) == again) by (bit_vector);
        assert(with_bit(once, i, reserved) =~= once);
    }
}

/// A naive allocation policy: hand out the free entries below a cap, lowest
/// first.
///
/// The allocator works on the bitmap as it was when the allocator was made.
/// Taking an entry moves the marker past it, so no entry is handed out twice;
/// the bitmap itself is never changed, and marking an entry reserved is left
/// to the caller.
pub struct NextAvailableAllocation {
    /// Where the search for the next free entry starts.
    marker: usize,
    /// Which entries are reserved.
    bitmap: Bitmap,
    /// The number of entries that exist in hardware.
    cap: usize,
}

impl NextAvailableAllocation {
    /// The cap used when none is given: `BLOCK_SIZE / 8`.
    pub const DEFAULT_CAP: usize = 512;

    #[verifier::type_invariant]
    spec fn inv(self) -> bool {
        self.marker <= self.cap && self.cap < BITMAP_BITS
    }

    /// Where the search for the next free entry starts.
    pub closed spec fn marker(&self) -> int {
        self.marker as int
    }

    /// The number of entries that can be handed out at all.
    pub closed spec fn cap(&self) -> int {
        self.cap as int
    }

    /// The bits that the allocator looks at.
    pub closed spec fn bits(&self) -> Seq<bool> {
        self.bitmap@
    }

    /// The entries that are still to be handed out, in the order in which
    /// they will be.
    pub open spec fn to_come(&self) -> Seq<int> {
        free_entries(self.bits(), self.marker(), self.cap())
    }

    /// An allocator over `bitmap` for the entries `0..cap`; without a cap,
    /// for the entries `0..512`.
    pub fn new(bitmap: Bitmap, cap: Option<usize>) -> (alloc: Self)
        requires
            cap matches Some(c) ==> c < BITMAP_BITS,
        ensures
            alloc.marker() == 0,
            alloc.bits() == bitmap@,
            alloc.cap() == match cap {
                Some(c) => c as int,
                None => Self::DEFAULT_CAP as int,
            },
            alloc.to_come() == free_entries(bitmap@, 0, alloc.cap()),
    {
        let cap = match cap {
            Some(c) => c,
            None => Self::DEFAULT_CAP,
        };
        Self { marker: 0, bitmap, cap }
    }

    /// The lowest free entry at or after the marker and below the cap, or
    /// `None` when every such entry is reserved.
    pub fn next(&mut self) -> (item: Option<usize>)
        ensures
            final(self).bits() == old(self).bits(),
            final(self).cap() == old(self).cap(),
            0 <= old(self).marker() <= final(self).marker() <= final(self).cap() < BITMAP_BITS,
            match item {
                Some(i) => {
                    &&& first_free(old(self).bits(), old(self).marker(), old(self).cap()) == Some(
                        i as int,
                    )
                    &&& !old(self).bits()[i as int]
                    &&& final(self).marker() == i + 1
                    &&& old(self).to_come() == seq![i as int] + final(self).to_come()
                },
                None => {
                    &&& first_free(old(self).bits(), old(self).marker(), old(self).cap()) is None
                    &&& old(self).to_come() == Seq::<int>::empty()
                    &&& final(self).marker() == old(self).marker()
                },
            },
    {
        proof {
            use_type_invariant(&*self);
        }
        let mut i: usize = self.marker;
        while i < self.cap
            invariant
                self.marker <= i <= self.cap,
                self.cap < BITMAP_BITS,
                *self == *old(self),
                first_free(self.bits(), self.marker(), self.cap()) == first_free(
                    self.bits(),
                    i as int,
                    self.cap(),
                ),
            decreases self.cap - i,
        {
            match self.bitmap.get(i) {
                State::Free => {
                    proof {
                        lemma_first_free(self.bits(), self.marker(), self.cap());
                        lemma_free_entries_step(self.bits(), self.marker(), self.cap());
                    }
                    self.marker = i + 1;
                    return Some(i);
                },
                State::Used => {},
            }
            i += 1;
        }
        proof {
            lemma_first_free(self.bits(), self.marker(), self.cap());
            lemma_free_entries_step(self.bits(), self.marker(), self.cap());
        }
        None
    }
}

/// The free entries from `from` on are the lowest one, where there is one,
/// and then the free entries after it.
pub proof fn lemma_free_entries_step(bits: Seq<bool>, from: int, cap: int)
    ensures
        free_entries(bits, from, cap) == match first_free(bits, from, cap) {
            Some(i) => seq![i] + free_entries(bits, i + 1, cap),
            None => Seq::<int>::empty(),
        },
    decreases cap - from,
{
    if from < cap && bits[from] {
        lemma_free_entries_step(bits, from + 1, cap);
    }
}

/// An allocator hands out no more entries than are free below its cap, and
/// none of them twice: the entries to come are free, lie at or after the
/// marker and below the cap, rise strictly, and are at most as many as
/// entries lie between the marker and the cap. Together with the contract
/// of `next`, which hands out the first of them and keeps the rest, this
/// bounds what an allocator hands out before it answers `None`.
pub proof fn lemma_progress(bits: Seq<bool>, from: int, cap: int)
    requires
        from <= cap,
    ensures
        free_entries(bits, from, cap).len() <= cap - from,
        forall|n: int|
            0 <= n < free_entries(bits, from, cap).len() ==> {
                let i = #[trigger] free_entries(bits, from, cap)[n];
                from <= i < cap && !bits[i]
            },
        forall|m: int, n: int|
            0 <= m < n < free_entries(bits, from, cap).len() ==> free_entries(bits, from, cap)[m]
                < free_entries(bits, from, cap)[n],
        forall|i: int| from <= i < cap && !bits[i] ==> free_entries(bits, from, cap).contains(i),
    decreases cap - from,
{
    let all = free_entries(bits, from, cap);
    if from < cap {
        lemma_progress(bits, from + 1, cap);
        let rest = free_entries(bits, from + 1, cap);
        if !bits[from] {
            assert(all == seq![from] + rest);
            assert forall|m: int, n: int| 0 <= m < n < all.len() implies all[m] < all[n] by {
                assert(all[n] == rest[n - 1]);
                if m > 0 {
                    assert(all[m] == rest[m - 1]);
                }
            }
            assert forall|i: int| from <= i < cap && !bits[i] implies all.contains(i) by {
                if i == from {
                    assert(all[0] == i);
                } else {
                    let n = choose|n: int| 0 <= n < rest.len() && rest[n] == i;
                    assert(all[n + 1] == i);
                }
            }
            assert forall|n: int| 0 <= n < all.len() implies {
                let i = #[trigger] all[n];
                from <= i < cap && !bits[i]
            } by {
                if n > 0 {
                    assert(all[n] == rest[n - 1]);
                }
            }
        }
    }
}

} // verus!
