//! The in-band block header and the layout constants.

use vstd::prelude::*;

verus! {

/// Number of bytes a header occupies in the segment, a multiple of the
/// alignment. The payload of a block begins this many bytes after the
/// block's header address.
pub const SIZE_OF_MEMORY_HEADER: usize = 40;

/// Every header and payload address is a multiple of this.
pub const MEMORY_ALIGNMENT: usize = 8;

/// The fixed nonzero token folded into every header's integrity word.
pub const MAGIC: usize = 0x12345678;

/// The record placed immediately before every user payload.
///
/// In the machine layout the header's own address is implicit in where the
/// header lies; the model carries it as the `addr` field.
#[derive(Clone, Copy)]
pub struct MemoryHeader {
    /// Address of this header within the segment.
    pub addr: usize,
    /// Address of the previous header in list order, or `None` at the head.
    pub prev: Option<usize>,
    /// Address of the next header in list order, or `None` at the tail.
    pub next: Option<usize>,
    /// Number of user-payload bytes the block exposes, excluding the header.
    pub size: usize,
    /// True iff the block is available for reuse.
    pub free: bool,
    /// Integrity token: the payload address XORed with `MAGIC`.
    pub magic: usize,
}

impl MemoryHeader {
    /// The address of the block's payload: the first byte after the header.
    pub open spec fn payload(self) -> int {
        self.addr + SIZE_OF_MEMORY_HEADER
    }

    /// The first address past the bytes this block accounts for.
    pub open spec fn end(self) -> int {
        self.addr + SIZE_OF_MEMORY_HEADER + self.size
    }
}

} // verus!
