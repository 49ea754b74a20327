//! The mathematical model of the allocator: the list invariant and the
//! transition functions that the executable operations are proved to follow.

use vstd::prelude::*;

use crate::block::MemoryHeader;
use crate::block::MAGIC;
use crate::block::SIZE_OF_MEMORY_HEADER;

verus! {

/// A request is rounded up to the alignment before the list is consulted,
/// so split headers and fresh blocks stay aligned.
pub open spec fn asize(size: usize) -> int {
    ((size + 7) / 8) * 8
}

/// Requests above this cannot be represented (`asize(size) + header` would
/// exceed the address space) and are refused without touching the heap.
pub open spec fn representable(size: usize) -> bool {
    size <= usize::MAX - (SIZE_OF_MEMORY_HEADER + 7)
}

/// Blocks lie in ascending address order, the first at address zero, each
/// accounting for at most the bytes up to its successor (an in-place shrink
/// may leave a gap), and the last ending at or before the break.
pub open spec fn blocks_ordered(bs: Seq<MemoryHeader>, brk: int) -> bool {
    &&& (bs.len() > 0 ==> bs[0].addr == 0)
    &&& forall|i: int| 0 <= i < bs.len() - 1 ==> #[trigger] bs[i].end() <= bs[i + 1].addr
    &&& (bs.len() > 0 ==> bs[bs.len() - 1].end() <= brk)
}

/// The stored `prev` and `next` fields agree with the neighbours' addresses.
pub open spec fn blocks_linked(bs: Seq<MemoryHeader>) -> bool {
    &&& forall|i: int| 0 <= i < bs.len() ==> (#[trigger] bs[i].prev) == (if i == 0 {
        None
    } else {
        Some(bs[i - 1].addr)
    })
    &&& forall|i: int| 0 <= i < bs.len() ==> (#[trigger] bs[i].next) == (if i == bs.len() - 1 {
        None::<usize>
    } else {
        Some(bs[i + 1].addr)
    })
}

/// Every block's magic word equals its payload address XORed with `MAGIC`.
pub open spec fn blocks_tagged(bs: Seq<MemoryHeader>) -> bool {
    forall|i: int| 0 <= i < bs.len() ==> (#[trigger] bs[i].magic) == (
    (bs[i].addr + SIZE_OF_MEMORY_HEADER) as usize) ^ MAGIC
}

/// Every header is aligned and exposes at least one payload byte.
pub open spec fn blocks_aligned(bs: Seq<MemoryHeader>) -> bool {
    forall|i: int| 0 <= i < bs.len() ==> (#[trigger] bs[i].addr) % 8 == 0 && bs[i].size >= 1
}

/// Coalescing is eager: two consecutive blocks are never both free.
pub open spec fn blocks_coalesced(bs: Seq<MemoryHeader>) -> bool {
    forall|i: int| 0 <= i < bs.len() - 1 ==> !((#[trigger] bs[i].free) && bs[i + 1].free)
}

/// The full well-formedness of an allocator state.
pub open spec fn inv(bs: Seq<MemoryHeader>, brk: int, limit: int) -> bool {
    &&& 0 <= brk <= limit <= usize::MAX
    &&& brk % 8 == 0
    &&& (bs.len() == 0 ==> brk == 0)
    &&& blocks_ordered(bs, brk)
    &&& blocks_linked(bs)
    &&& blocks_tagged(bs)
    &&& blocks_aligned(bs)
    &&& blocks_coalesced(bs)
}

/// Index of the first free block from position `i` on whose size covers
/// `need`, or `None` when the rest of the list holds no fit.
pub open spec fn first_fit_from(bs: Seq<MemoryHeader>, need: int, i: int) -> Option<int>
    decreases bs.len() - i,
{
    if i < 0 || i >= bs.len() {
        None
    } else if bs[i].free && bs[i].size >= need {
        Some(i)
    } else {
        first_fit_from(bs, need, i + 1)
    }
}

/// The first-fit policy: free blocks are considered in list order.
pub open spec fn first_fit(bs: Seq<MemoryHeader>, need: int) -> Option<int> {
    first_fit_from(bs, need, 0)
}

/// Index of the block whose payload begins at `ptr`, searching from `i`.
pub open spec fn find_from(bs: Seq<MemoryHeader>, ptr: usize, i: int) -> Option<int>
    decreases bs.len() - i,
{
    if i < 0 || i >= bs.len() {
        None
    } else if bs[i].payload() == ptr {
        Some(i)
    } else {
        find_from(bs, ptr, i + 1)
    }
}

/// Index of the block whose payload begins at `ptr`, if any.
pub open spec fn find_payload(bs: Seq<MemoryHeader>, ptr: usize) -> Option<int> {
    find_from(bs, ptr, 0)
}

/// `mem` with the `n` bytes from `start` overwritten by zeroes.
pub open spec fn zero_range(mem: Seq<u8>, start: int, n: int) -> Seq<u8> {
    Seq::new(mem.len(), |j: int| if start <= j < start + n { 0u8 } else { mem[j] })
}

/// `mem` with the `n` bytes from `src` copied over the `n` bytes at `dst`.
pub open spec fn copy_range(mem: Seq<u8>, src: int, dst: int, n: int) -> Seq<u8> {
    Seq::new(mem.len(), |j: int| if dst <= j < dst + n { mem[src + (j - dst)] } else { mem[j] })
}

/// A free block is split when it can spare a trailing free block with at
/// least one payload byte beyond that block's own header.
pub open spec fn split_needed(bsize: usize, need: int) -> bool {
    bsize > need + SIZE_OF_MEMORY_HEADER + 1
}

/// The header carved out of block `i` when it is split for a rounded
/// request of `need` bytes.
pub open spec fn split_remainder(b: MemoryHeader, need: int) -> MemoryHeader {
    MemoryHeader {
        addr: (b.addr + SIZE_OF_MEMORY_HEADER + need) as usize,
        prev: Some(b.addr),
        next: b.next,
        size: (b.size - need - SIZE_OF_MEMORY_HEADER) as usize,
        free: true,
        magic: ((b.addr + 2 * SIZE_OF_MEMORY_HEADER + need) as usize) ^ MAGIC,
    }
}

/// The list after the free block at `i` is taken for a rounded request of
/// `need` bytes: the block is marked used, and split when there is room.
pub open spec fn fit_blocks(bs: Seq<MemoryHeader>, i: int, need: int) -> Seq<MemoryHeader> {
    let curr = bs[i];
    if split_needed(curr.size, need) {
        let rem = split_remainder(curr, need);
        let taken = MemoryHeader {
            next: Some(rem.addr),
            size: need as usize,
            free: false,
            ..curr
        };
        let grown = bs.update(i, taken).insert(i + 1, rem);
        if i + 2 < grown.len() {
            grown.update(i + 2, MemoryHeader { prev: Some(rem.addr), ..grown[i + 2] })
        } else {
            grown
        }
    } else {
        bs.update(i, MemoryHeader { free: false, ..curr })
    }
}

/// The header of a fresh block appended at the break.
pub open spec fn ext_block(bs: Seq<MemoryHeader>, brk: int, need: int) -> MemoryHeader {
    MemoryHeader {
        addr: brk as usize,
        prev: if bs.len() == 0 {
            None
        } else {
            Some(bs[bs.len() - 1].addr)
        },
        next: None,
        size: need as usize,
        free: false,
        magic: ((brk + SIZE_OF_MEMORY_HEADER) as usize) ^ MAGIC,
    }
}

/// The list after the segment is extended for a rounded request of `need`
/// bytes: a used block is appended and linked behind the old tail.
pub open spec fn ext_blocks(bs: Seq<MemoryHeader>, brk: int, need: int) -> Seq<MemoryHeader> {
    let nb = ext_block(bs, brk, need);
    if bs.len() == 0 {
        seq![nb]
    } else {
        bs.update(bs.len() - 1, MemoryHeader { next: Some(nb.addr), ..bs[bs.len() - 1] }).push(nb)
    }
}

/// One `allocate` step: the new list, the new segment contents, and the
/// returned address (`0` for null).
pub open spec fn alloc_step(bs: Seq<MemoryHeader>, mem: Seq<u8>, limit: int, size: usize) -> (
    Seq<MemoryHeader>,
    Seq<u8>,
    usize,
) {
    if size == 0 || !representable(size) {
        (bs, mem, 0)
    } else {
        let need = asize(size);
        match first_fit(bs, need) {
            Some(i) => {
                let payload = bs[i].payload();
                (fit_blocks(bs, i, need), zero_range(mem, payload, need), payload as usize)
            },
            None => {
                if mem.len() + SIZE_OF_MEMORY_HEADER + need <= limit {
                    (
                        ext_blocks(bs, mem.len() as int, need),
                        mem + Seq::new((SIZE_OF_MEMORY_HEADER + need) as nat, |j: int| 0u8),
                        (mem.len() + SIZE_OF_MEMORY_HEADER) as usize,
                    )
                } else {
                    (bs, mem, 0)
                }
            },
        }
    }
}

/// The single free block that replaces the freed block `i` and its free
/// immediate neighbours (at most one on each side, coalescing being eager).
/// The absorbed headers' bytes are accounted to the merged block's size;
/// the magic word of the surviving header is not rewritten.
pub open spec fn merged_block(bs: Seq<MemoryHeader>, i: int) -> MemoryHeader {
    let lo = merge_lo(bs, i);
    let hi = merge_hi(bs, i);
    MemoryHeader {
        addr: bs[lo].addr,
        prev: bs[lo].prev,
        next: bs[hi].next,
        size: (bs[i].size + (if lo < i {
            bs[lo].size + SIZE_OF_MEMORY_HEADER
        } else {
            0
        }) + (if hi > i {
            bs[hi].size + SIZE_OF_MEMORY_HEADER
        } else {
            0
        })) as usize,
        free: true,
        magic: bs[lo].magic,
    }
}

/// Index of the first block of the run that block `i` coalesces with: its
/// predecessor when that is free, else `i` itself.
pub open spec fn merge_lo(bs: Seq<MemoryHeader>, i: int) -> int {
    if i > 0 && bs[i - 1].free {
        i - 1
    } else {
        i
    }
}

/// Index of the last block of the run that block `i` coalesces with: its
/// successor when that is free, else `i` itself.
pub open spec fn merge_hi(bs: Seq<MemoryHeader>, i: int) -> int {
    if i + 1 < bs.len() && bs[i + 1].free {
        i + 1
    } else {
        i
    }
}

/// The list after block `i` is freed: the run from `merge_lo` to `merge_hi`
/// collapses into one free block, and the survivor's successor learns its
/// new predecessor.
pub open spec fn merge_at(bs: Seq<MemoryHeader>, i: int) -> Seq<MemoryHeader> {
    let lo = merge_lo(bs, i);
    let d = merge_hi(bs, i) - lo;
    let m = merged_block(bs, i);
    Seq::new(
        (bs.len() - d) as nat,
        |k: int|
            if k < lo {
                bs[k]
            } else if k == lo {
                m
            } else if k == lo + 1 {
                MemoryHeader { prev: Some(m.addr), ..bs[k + d] }
            } else {
                bs[k + d]
            },
    )
}

/// One `release` step on the list. Null pointers, pointers beyond the
/// break, and pointers at which no live payload begins leave the list
/// untouched; otherwise the block is freed and coalesced eagerly.
pub open spec fn release_blocks(bs: Seq<MemoryHeader>, brk: int, ptr: usize) -> Seq<
    MemoryHeader,
> {
    if ptr == 0 || ptr > brk {
        bs
    } else {
        match find_payload(bs, ptr) {
            None => bs,
            Some(i) => merge_at(bs, i),
        }
    }
}

/// One `resize` step: the new list, the new segment contents, and the
/// returned address (`0` for null).
pub open spec fn realloc_step(
    bs: Seq<MemoryHeader>,
    mem: Seq<u8>,
    limit: int,
    ptr: usize,
    size: usize,
) -> (Seq<MemoryHeader>, Seq<u8>, usize) {
    if ptr == 0 && size == 0 {
        (bs, mem, 0)
    } else if ptr == 0 {
        alloc_step(bs, mem, limit, size)
    } else if size == 0 {
        (release_blocks(bs, mem.len() as int, ptr), mem, 0)
    } else {
        match find_payload(bs, ptr) {
            None => (bs, mem, 0),
            Some(i) => {
                if size <= bs[i].size {
                    (bs.update(i, MemoryHeader { size: size, ..bs[i] }), mem, ptr)
                } else {
                    let stepped = alloc_step(bs, mem, limit, size);
                    if stepped.2 == 0 {
                        stepped
                    } else {
                        (
                            stepped.0,
                            copy_range(stepped.1, ptr as int, stepped.2 as int, bs[i].size as int),
                            stepped.2,
                        )
                    }
                }
            },
        }
    }
}

/// In an ordered list, every earlier block ends at or before a later block
/// begins.
pub proof fn lemma_blocks_sorted(bs: Seq<MemoryHeader>, brk: int, i: int, j: int)
    requires
        blocks_ordered(bs, brk),
        0 <= i < j < bs.len(),
    ensures
        bs[i].end() <= bs[j].addr,
    decreases j - i,
{
    if i + 1 < j {
        lemma_blocks_sorted(bs, brk, i + 1, j);
        assert(bs[i].end() <= bs[i + 1].addr);
        assert(bs[i + 1].addr < bs[i + 1].end());
    }
}

/// Every block lies wholly below the break.
pub proof fn lemma_blocks_below_brk(bs: Seq<MemoryHeader>, brk: int, i: int)
    requires
        blocks_ordered(bs, brk),
        0 <= i < bs.len(),
    ensures
        bs[i].end() <= brk,
    decreases bs.len() - i,
{
    if i + 1 < bs.len() {
        lemma_blocks_below_brk(bs, brk, i + 1);
        assert(bs[i].end() <= bs[i + 1].addr);
    }
}

/// Every block's span, with its header, stays below the break.
pub proof fn lemma_all_below_brk(bs: Seq<MemoryHeader>, brk: int)
    requires
        blocks_ordered(bs, brk),
    ensures
        forall|k: int|
            0 <= k < bs.len() ==> (#[trigger] bs[k].addr) + SIZE_OF_MEMORY_HEADER + bs[k].size
                <= brk,
{
    assert forall|k: int|
        0 <= k < bs.len() implies (#[trigger] bs[k].addr) + SIZE_OF_MEMORY_HEADER + bs[k].size
        <= brk by {
        lemma_blocks_below_brk(bs, brk, k);
    }
}

/// The rounded request covers the request, overshoots by less than the
/// alignment, and is itself aligned.
pub proof fn lemma_asize(size: usize)
    ensures
        size <= asize(size) <= size + 7,
        asize(size) % 8 == 0,
        size >= 1 ==> asize(size) >= 8,
{
    let q = (size + 7) / 8;
    assert(size + 7 == 8 * q + (size + 7) % 8);
    assert(asize(size) % 8 == 0) by {
        assert((q * 8) % 8 == 0) by (nonlinear_arith);
    }
}

/// What a first-fit answer means: the index is in range, the block there
/// fits, and no earlier block from the start of the search does.
pub proof fn lemma_first_fit_from(bs: Seq<MemoryHeader>, need: int, i: int)
    requires
        0 <= i <= bs.len(),
    ensures
        match first_fit_from(bs, need, i) {
            Some(j) => i <= j < bs.len() && bs[j].free && bs[j].size >= need && forall|k: int|
                i <= k < j ==> !((#[trigger] bs[k].free) && bs[k].size >= need),
            None => forall|k: int|
                i <= k < bs.len() ==> !((#[trigger] bs[k].free) && bs[k].size >= need),
        },
    decreases bs.len() - i,
{
    if i < bs.len() && !(bs[i].free && bs[i].size >= need) {
        lemma_first_fit_from(bs, need, i + 1);
    }
}

/// A request that is already aligned rounds to itself.
pub proof fn lemma_asize_exact(size: usize)
    requires
        size % 8 == 0,
    ensures
        asize(size) == size,
{
    lemma_asize(size);
}

/// A block that fits, with nothing fitting before it, is the first fit.
pub proof fn lemma_first_fit_at(bs: Seq<MemoryHeader>, need: int, i: int)
    requires
        0 <= i < bs.len(),
        bs[i].free,
        bs[i].size >= need,
        forall|k: int| 0 <= k < i ==> !((#[trigger] bs[k].free) && bs[k].size >= need),
    ensures
        first_fit(bs, need) == Some(i),
{
    lemma_first_fit_from(bs, need, 0);
    match first_fit(bs, need) {
        Some(g) => {
            if g < i {
                assert(!(bs[g].free && bs[g].size >= need));
            } else if g > i {
                assert(!(bs[i].free && bs[i].size >= need));
            }
        },
        None => {
            assert(!(bs[i].free && bs[i].size >= need));
        },
    }
}

/// A request whose first fit is known returns that block's payload.
pub proof fn lemma_alloc_returns_fit(
    bs: Seq<MemoryHeader>,
    mem: Seq<u8>,
    limit: int,
    size: usize,
    i: int,
)
    requires
        size != 0,
        representable(size),
        0 <= i < bs.len(),
        first_fit(bs, asize(size)) == Some(i),
    ensures
        alloc_step(bs, mem, limit, size).2 == ((bs[i].addr + SIZE_OF_MEMORY_HEADER) as usize),
{
}

/// What a payload search answer means: the index is in range, the payload
/// begins at the pointer, and no earlier block's does.
pub proof fn lemma_find_from(bs: Seq<MemoryHeader>, ptr: usize, i: int)
    requires
        0 <= i <= bs.len(),
    ensures
        match find_from(bs, ptr, i) {
            Some(j) => i <= j < bs.len() && bs[j].payload() == ptr && forall|k: int|
                i <= k < j ==> (#[trigger] bs[k].payload()) != ptr,
            None => forall|k: int| i <= k < bs.len() ==> (#[trigger] bs[k].payload()) != ptr,
        },
    decreases bs.len() - i,
{
    if i < bs.len() && bs[i].payload() != ptr {
        lemma_find_from(bs, ptr, i + 1);
    }
}

/// Taking (and possibly splitting) the fitting free block preserves the
/// allocator invariant.
pub proof fn lemma_inv_fit(bs: Seq<MemoryHeader>, brk: int, limit: int, i: int, need: int)
    requires
        inv(bs, brk, limit),
        0 <= i < bs.len(),
        bs[i].free,
        bs[i].size >= need,
        8 <= need,
        need % 8 == 0,
    ensures
        inv(fit_blocks(bs, i, need), brk, limit),
{
    let bs2 = fit_blocks(bs, i, need);
    lemma_blocks_below_brk(bs, brk, i);
    let curr = bs[i];
    if split_needed(curr.size, need) {
        let rem = split_remainder(curr, need);
        assert(curr.addr + SIZE_OF_MEMORY_HEADER + need < curr.end() <= brk <= usize::MAX);
        assert(rem.addr == curr.addr + SIZE_OF_MEMORY_HEADER + need);
        assert(rem.size == curr.size - need - SIZE_OF_MEMORY_HEADER);
        assert(rem.addr % 8 == 0);
        // The neighbour after a free block is never free, so the remainder
        // introduces no adjacent pair of free blocks.
        assert(i + 1 < bs.len() ==> !bs[i + 1].free);
        assert(bs2.len() == bs.len() + 1);
        assert forall|k: int| 0 <= k < bs2.len() implies bs2[k] == (if k < i {
            bs[k]
        } else if k == i {
            MemoryHeader { next: Some(rem.addr), size: need as usize, free: false, ..curr }
        } else if k == i + 1 {
            rem
        } else if k == i + 2 {
            MemoryHeader { prev: Some(rem.addr), ..bs[k - 1] }
        } else {
            bs[k - 1]
        }) by {
        }
        assert(blocks_ordered(bs2, brk)) by {
            assert forall|k: int| 0 <= k < bs2.len() - 1 implies #[trigger] bs2[k].end() <= bs2[k
                + 1].addr by {
                if k < i - 1 || k > i + 1 {
                    let ko = if k < i {
                        k
                    } else {
                        k - 1
                    };
                    assert(bs[ko].end() <= bs[ko + 1].addr);
                }
            }
            assert(bs2[bs2.len() - 1].end() <= brk);
        }
        assert(blocks_linked(bs2));
        assert(blocks_tagged(bs2));
        assert(blocks_aligned(bs2));
        assert(blocks_coalesced(bs2));
    } else {
        assert forall|k: int| 0 <= k < bs2.len() implies bs2[k] == (if k == i {
            MemoryHeader { free: false, ..curr }
        } else {
            bs[k]
        }) by {
        }
        assert(blocks_ordered(bs2, brk));
        assert(blocks_linked(bs2));
        assert(blocks_tagged(bs2));
        assert(blocks_aligned(bs2));
        assert(blocks_coalesced(bs2));
    }
}

/// Appending a fresh used block at the break preserves the allocator
/// invariant at the extended break.
#[verifier::rlimit(50)]
pub proof fn lemma_inv_ext(bs: Seq<MemoryHeader>, brk: int, limit: int, need: int)
    requires
        inv(bs, brk, limit),
        8 <= need,
        need % 8 == 0,
        brk + SIZE_OF_MEMORY_HEADER + need <= limit,
    ensures
        inv(ext_blocks(bs, brk, need), brk + SIZE_OF_MEMORY_HEADER + need, limit),
{
    let bs2 = ext_blocks(bs, brk, need);
    let nb = ext_block(bs, brk, need);
    let brk2 = brk + SIZE_OF_MEMORY_HEADER + need;
    let n = bs.len() as int;
    if n == 0 {
        assert(bs2 =~= seq![nb]);
    } else {
        lemma_blocks_below_brk(bs, brk, n - 1);
        assert(bs2.len() == n + 1);
        assert(bs2[n] == nb);
        assert(bs2[n - 1] == (MemoryHeader { next: Some(nb.addr), ..bs[n - 1] }));
        assert(forall|k: int| 0 <= k < n - 1 ==> bs2[k] == bs[k]);
    }
    assert(blocks_ordered(bs2, brk2)) by {
        assert forall|k: int| 0 <= k < bs2.len() - 1 implies #[trigger] bs2[k].end() <= bs2[k
            + 1].addr by {
            if k < n - 1 {
                assert(bs[k].end() <= bs[k + 1].addr);
            }
        }
    }
    assert(blocks_linked(bs2)) by {
        assert forall|k: int| 0 <= k < bs2.len() implies (#[trigger] bs2[k].prev) == (if k == 0 {
            None
        } else {
            Some(bs2[k - 1].addr)
        }) && bs2[k].next == (if k == bs2.len() - 1 {
            None::<usize>
        } else {
            Some(bs2[k + 1].addr)
        }) by {
            if k < n {
                assert(bs[k].prev == (if k == 0 {
                    None
                } else {
                    Some(bs[k - 1].addr)
                }));
                assert(bs[k].next == (if k == n - 1 {
                    None::<usize>
                } else {
                    Some(bs[k + 1].addr)
                }));
            }
        }
    }
    assert(blocks_tagged(bs2)) by {
        assert forall|k: int| 0 <= k < bs2.len() implies (#[trigger] bs2[k].magic) == ((bs2[k].addr
            + SIZE_OF_MEMORY_HEADER) as usize) ^ MAGIC by {
            if k < n {
                assert(bs[k].magic == ((bs[k].addr + SIZE_OF_MEMORY_HEADER) as usize) ^ MAGIC);
            }
        }
    }
    assert(blocks_aligned(bs2)) by {
        assert forall|k: int| 0 <= k < bs2.len() implies (#[trigger] bs2[k].addr) % 8 == 0
            && bs2[k].size >= 1 by {
            if k < n {
                assert(bs[k].addr % 8 == 0 && bs[k].size >= 1);
            }
        }
    }
    assert(blocks_coalesced(bs2)) by {
        assert forall|k: int| 0 <= k < bs2.len() - 1 implies !((#[trigger] bs2[k].free) && bs2[k
            + 1].free) by {
            if k < n - 1 {
                assert(!(bs[k].free && bs[k + 1].free));
            }
        }
    }
}

/// The merged block's span stays within the span of the run it replaces,
/// and its size does not overflow.
pub proof fn lemma_merge_size(bs: Seq<MemoryHeader>, brk: int, limit: int, i: int)
    requires
        inv(bs, brk, limit),
        0 <= i < bs.len(),
    ensures
        merged_block(bs, i).size == bs[i].size + (if merge_lo(bs, i) < i {
            bs[merge_lo(bs, i)].size + SIZE_OF_MEMORY_HEADER as int
        } else {
            0
        }) + (if merge_hi(bs, i) > i {
            bs[merge_hi(bs, i)].size + SIZE_OF_MEMORY_HEADER as int
        } else {
            0
        }),
        merged_block(bs, i).end() <= bs[merge_hi(bs, i)].end(),
        bs[merge_hi(bs, i)].end() <= brk,
{
    let lo = merge_lo(bs, i);
    let hi = merge_hi(bs, i);
    let m = merged_block(bs, i);
    lemma_blocks_below_brk(bs, brk, hi);
    if lo < i {
        assert(bs[lo].end() <= bs[i].addr);
    }
    if hi > i {
        assert(bs[i].end() <= bs[hi].addr);
    }
    assert(bs[lo].addr + SIZE_OF_MEMORY_HEADER + (bs[i].size + (if lo < i {
        bs[lo].size + SIZE_OF_MEMORY_HEADER as int
    } else {
        0
    }) + (if hi > i {
        bs[hi].size + SIZE_OF_MEMORY_HEADER as int
    } else {
        0
    })) <= bs[hi].end());
}

/// The merged list keeps ascending, gap-tolerant address order.
pub proof fn lemma_merge_ordered(bs: Seq<MemoryHeader>, brk: int, limit: int, i: int)
    requires
        inv(bs, brk, limit),
        0 <= i < bs.len(),
    ensures
        blocks_ordered(merge_at(bs, i), brk),
{
    let lo = merge_lo(bs, i);
    let hi = merge_hi(bs, i);
    let d = hi - lo;
    let bs2 = merge_at(bs, i);
    let n = bs.len() as int;
    lemma_merge_size(bs, brk, limit, i);
    assert forall|k: int| 0 <= k < bs2.len() - 1 implies #[trigger] bs2[k].end() <= bs2[k
        + 1].addr by {
        if k < lo {
            assert(bs[k].end() <= bs[k + 1].addr);
        } else if k == lo {
            assert(bs[hi].end() <= bs[hi + 1].addr);
        } else {
            assert(bs[k + d].end() <= bs[k + d + 1].addr);
        }
    }
    if bs2.len() > 0 {
        lemma_blocks_below_brk(bs, brk, n - 1);
        assert(bs2[bs2.len() - 1].end() <= brk);
    }
}

/// The merged list keeps consistent `prev` and `next` links.
#[verifier::rlimit(50)]
pub proof fn lemma_merge_linked(bs: Seq<MemoryHeader>, brk: int, limit: int, i: int)
    requires
        inv(bs, brk, limit),
        0 <= i < bs.len(),
    ensures
        blocks_linked(merge_at(bs, i)),
{
    let lo = merge_lo(bs, i);
    let hi = merge_hi(bs, i);
    let d = hi - lo;
    let bs2 = merge_at(bs, i);
    let n = bs.len() as int;
    assert forall|k: int| 0 <= k < bs2.len() implies (#[trigger] bs2[k].prev) == (if k == 0 {
        None
    } else {
        Some(bs2[k - 1].addr)
    }) by {
        if k < lo {
            assert(bs[k].prev == (if k == 0 {
                None
            } else {
                Some(bs[k - 1].addr)
            }));
        } else if k == lo {
            assert(bs[lo].prev == (if lo == 0 {
                None
            } else {
                Some(bs[lo - 1].addr)
            }));
        } else if k > lo + 1 {
            assert(bs[k + d].prev == Some(bs[k + d - 1].addr));
        }
    }
    assert forall|k: int| 0 <= k < bs2.len() implies (#[trigger] bs2[k].next) == (if k == bs2.len()
        - 1 {
        None::<usize>
    } else {
        Some(bs2[k + 1].addr)
    }) by {
        if k < lo {
            assert(bs[k].next == (if k == n - 1 {
                None::<usize>
            } else {
                Some(bs[k + 1].addr)
            }));
        } else if k == lo {
            assert(bs[hi].next == (if hi == n - 1 {
                None::<usize>
            } else {
                Some(bs[hi + 1].addr)
            }));
        } else {
            assert(bs[k + d].next == (if k + d == n - 1 {
                None::<usize>
            } else {
                Some(bs[k + d + 1].addr)
            }));
        }
    }
}

/// The merged list keeps every magic word tied to its payload address.
pub proof fn lemma_merge_tagged(bs: Seq<MemoryHeader>, brk: int, limit: int, i: int)
    requires
        inv(bs, brk, limit),
        0 <= i < bs.len(),
    ensures
        blocks_tagged(merge_at(bs, i)),
{
    let lo = merge_lo(bs, i);
    let d = merge_hi(bs, i) - lo;
    let bs2 = merge_at(bs, i);
    assert forall|k: int| 0 <= k < bs2.len() implies (#[trigger] bs2[k].magic) == ((bs2[k].addr
        + SIZE_OF_MEMORY_HEADER) as usize) ^ MAGIC by {
        if k < lo {
            assert(bs[k].magic == ((bs[k].addr + SIZE_OF_MEMORY_HEADER) as usize) ^ MAGIC);
        } else if k == lo {
            assert(bs[lo].magic == ((bs[lo].addr + SIZE_OF_MEMORY_HEADER) as usize) ^ MAGIC);
        } else {
            assert(bs[k + d].magic == ((bs[k + d].addr + SIZE_OF_MEMORY_HEADER) as usize) ^ MAGIC);
        }
    }
}

/// The merged list keeps every header aligned and every size positive.
pub proof fn lemma_merge_aligned(bs: Seq<MemoryHeader>, brk: int, limit: int, i: int)
    requires
        inv(bs, brk, limit),
        0 <= i < bs.len(),
    ensures
        blocks_aligned(merge_at(bs, i)),
{
    let lo = merge_lo(bs, i);
    let d = merge_hi(bs, i) - lo;
    let bs2 = merge_at(bs, i);
    lemma_merge_size(bs, brk, limit, i);
    assert forall|k: int| 0 <= k < bs2.len() implies (#[trigger] bs2[k].addr) % 8 == 0 && bs2[k].size
        >= 1 by {
        if k < lo {
            assert(bs[k].addr % 8 == 0 && bs[k].size >= 1);
        } else if k == lo {
            assert(bs[lo].addr % 8 == 0);
            assert(bs[i].size >= 1);
        } else {
            assert(bs[k + d].addr % 8 == 0 && bs[k + d].size >= 1);
        }
    }
}

/// The merged list never holds two adjacent free blocks: the blocks at the
/// edges of the collapsed run were not free, or the run would have been
/// wider.
pub proof fn lemma_merge_coalesced(bs: Seq<MemoryHeader>, brk: int, limit: int, i: int)
    requires
        inv(bs, brk, limit),
        0 <= i < bs.len(),
    ensures
        blocks_coalesced(merge_at(bs, i)),
{
    let lo = merge_lo(bs, i);
    let hi = merge_hi(bs, i);
    let d = hi - lo;
    let bs2 = merge_at(bs, i);
    assert forall|k: int| 0 <= k < bs2.len() - 1 implies !((#[trigger] bs2[k].free) && bs2[k
        + 1].free) by {
        if k + 1 < lo {
            assert(!(bs[k].free && bs[k + 1].free));
        } else if k + 1 == lo {
            if lo < i {
                assert(!(bs[lo - 1].free && bs[lo].free));
            }
        } else if k == lo {
            if hi > i {
                assert(!(bs[hi].free && bs[hi + 1].free));
            }
        } else {
            assert(!(bs[k + d].free && bs[k + d + 1].free));
        }
    }
}

/// Shrinking a block in place preserves the allocator invariant: the block
/// merely stops accounting for some of its trailing bytes.
pub proof fn lemma_inv_shrink(bs: Seq<MemoryHeader>, brk: int, limit: int, i: int, size: usize)
    requires
        inv(bs, brk, limit),
        0 <= i < bs.len(),
        1 <= size <= bs[i].size,
    ensures
        inv(bs.update(i, MemoryHeader { size: size, ..bs[i] }), brk, limit),
{
    let bs2 = bs.update(i, MemoryHeader { size: size, ..bs[i] });
    assert(blocks_ordered(bs2, brk)) by {
        assert forall|k: int| 0 <= k < bs2.len() - 1 implies #[trigger] bs2[k].end() <= bs2[k
            + 1].addr by {
            assert(bs[k].end() <= bs[k + 1].addr);
        }
        if bs.len() > 0 {
            assert(bs[bs.len() - 1].end() <= brk);
        }
    }
    assert(blocks_linked(bs2)) by {
        assert forall|k: int| 0 <= k < bs2.len() implies (#[trigger] bs2[k].prev) == (if k == 0 {
            None
        } else {
            Some(bs2[k - 1].addr)
        }) && bs2[k].next == (if k == bs2.len() - 1 {
            None::<usize>
        } else {
            Some(bs2[k + 1].addr)
        }) by {
            assert(bs[k].prev == (if k == 0 {
                None
            } else {
                Some(bs[k - 1].addr)
            }));
            assert(bs[k].next == (if k == bs.len() - 1 {
                None::<usize>
            } else {
                Some(bs[k + 1].addr)
            }));
        }
    }
    assert(blocks_tagged(bs2)) by {
        assert forall|k: int| 0 <= k < bs2.len() implies (#[trigger] bs2[k].magic) == ((bs2[k].addr
            + SIZE_OF_MEMORY_HEADER) as usize) ^ MAGIC by {
            assert(bs[k].magic == ((bs[k].addr + SIZE_OF_MEMORY_HEADER) as usize) ^ MAGIC);
        }
    }
    assert(blocks_aligned(bs2)) by {
        assert forall|k: int| 0 <= k < bs2.len() implies (#[trigger] bs2[k].addr) % 8 == 0
            && bs2[k].size >= 1 by {
            assert(bs[k].addr % 8 == 0 && bs[k].size >= 1);
        }
    }
    assert(blocks_coalesced(bs2)) by {
        assert forall|k: int| 0 <= k < bs2.len() - 1 implies !((#[trigger] bs2[k].free) && bs2[k
            + 1].free) by {
            assert(!(bs[k].free && bs[k + 1].free));
        }
    }
}

/// Bounds on one `allocate` step: the segment never shrinks, a non-null
/// result has its whole rounded span inside the new segment, and that span
/// is either exactly some old block's payload or disjoint from every old
/// block's payload.
pub proof fn lemma_alloc_bounds(bs: Seq<MemoryHeader>, mem: Seq<u8>, limit: int, size: usize)
    requires
        inv(bs, mem.len() as int, limit),
    ensures
        alloc_step(bs, mem, limit, size).1.len() >= mem.len(),
        alloc_step(bs, mem, limit, size).2 != 0 ==> alloc_step(bs, mem, limit, size).2 + asize(
            size,
        ) <= alloc_step(bs, mem, limit, size).1.len(),
        alloc_step(bs, mem, limit, size).2 != 0 ==> size <= asize(size),
        alloc_step(bs, mem, limit, size).2 != 0 ==> forall|j: int|
            0 <= j < bs.len() ==> (alloc_step(bs, mem, limit, size).2 == bs[j].payload() || (
            #[trigger] bs[j].payload()) + bs[j].size <= alloc_step(bs, mem, limit, size).2
                || alloc_step(bs, mem, limit, size).2 + asize(size) <= bs[j].payload()),
        alloc_step(bs, mem, limit, size).2 != 0 ==> forall|j: int|
            0 <= j < bs.len() && (#[trigger] bs[j].payload()) == alloc_step(
                bs,
                mem,
                limit,
                size,
            ).2 ==> bs[j].free,
{
    let step = alloc_step(bs, mem, limit, size);
    let brk = mem.len() as int;
    if size == 0 || !representable(size) {
        return ;
    }
    let need = asize(size);
    lemma_asize(size);
    match first_fit(bs, need) {
        Some(f) => {
            lemma_first_fit_from(bs, need, 0);
            lemma_blocks_below_brk(bs, brk, f);
            assert(step.1.len() == mem.len());
            assert(step.2 == bs[f].payload());
            assert(step.2 + need <= bs[f].end());
            assert forall|j: int| 0 <= j < bs.len() implies (step.2 == bs[j].payload() || (
            #[trigger] bs[j].payload()) + bs[j].size <= step.2 || step.2 + need
                <= bs[j].payload()) by {
                if j < f {
                    lemma_blocks_sorted(bs, brk, j, f);
                } else if j > f {
                    lemma_blocks_sorted(bs, brk, f, j);
                }
            }
            assert forall|j: int|
                0 <= j < bs.len() && (#[trigger] bs[j].payload()) == step.2 implies bs[j].free by {
                if j < f {
                    lemma_blocks_sorted(bs, brk, j, f);
                    assert(bs[j].size >= 1);
                } else if j > f {
                    lemma_blocks_sorted(bs, brk, f, j);
                    assert(bs[f].size >= 1);
                }
            }
        },
        None => {
            if brk + SIZE_OF_MEMORY_HEADER + need <= limit {
                assert(step.1.len() == mem.len() + SIZE_OF_MEMORY_HEADER + need);
                assert(step.2 == brk + SIZE_OF_MEMORY_HEADER);
                lemma_all_below_brk(bs, brk);
                assert forall|j: int| 0 <= j < bs.len() implies (#[trigger] bs[j].payload())
                    + bs[j].size <= step.2 by {
                    assert(bs[j].addr + SIZE_OF_MEMORY_HEADER + bs[j].size <= brk);
                }
            }
        },
    }
}

/// One `allocate` step preserves the allocator invariant at the new break.
pub proof fn lemma_inv_alloc(bs: Seq<MemoryHeader>, mem: Seq<u8>, limit: int, size: usize)
    requires
        inv(bs, mem.len() as int, limit),
    ensures
        inv(alloc_step(bs, mem, limit, size).0, alloc_step(bs, mem, limit, size).1.len() as int, limit),
{
    if size == 0 || !representable(size) {
        return ;
    }
    let need = asize(size);
    lemma_asize(size);
    match first_fit(bs, need) {
        Some(f) => {
            lemma_first_fit_from(bs, need, 0);
            lemma_inv_fit(bs, mem.len() as int, limit, f, need);
        },
        None => {
            if mem.len() + SIZE_OF_MEMORY_HEADER + need <= limit {
                lemma_inv_ext(bs, mem.len() as int, limit, need);
            }
        },
    }
}

/// In a well-formed list a payload address pins its block down: searching
/// for block `idx`'s payload finds exactly `idx`.
pub proof fn lemma_find_payload_of(bs: Seq<MemoryHeader>, brk: int, limit: int, idx: int)
    requires
        inv(bs, brk, limit),
        0 <= idx < bs.len(),
    ensures
        find_payload(bs, ((bs[idx].addr + SIZE_OF_MEMORY_HEADER) as usize)) == Some(idx),
{
    lemma_blocks_below_brk(bs, brk, idx);
    let ptr = (bs[idx].addr + SIZE_OF_MEMORY_HEADER) as usize;
    lemma_find_from(bs, ptr, 0);
    match find_payload(bs, ptr) {
        None => {
            assert(bs[idx].payload() == ptr);
            assert(false);
        },
        Some(j) => {
            if j < idx {
                lemma_blocks_sorted(bs, brk, j, idx);
                assert(false);
            } else if j > idx {
                lemma_blocks_sorted(bs, brk, idx, j);
                assert(bs[idx].payload() == ptr);
                assert(false);
            }
        },
    }
}

/// One `allocate` step touches no byte outside the returned span: below
/// the old break everything but the new payload keeps its value, and a
/// null return leaves the segment untouched.
pub proof fn lemma_alloc_frame(bs: Seq<MemoryHeader>, mem: Seq<u8>, limit: int, size: usize)
    requires
        inv(bs, mem.len() as int, limit),
    ensures
        alloc_step(bs, mem, limit, size).2 == 0 ==> alloc_step(bs, mem, limit, size).1 == mem,
        alloc_step(bs, mem, limit, size).2 != 0 ==> forall|j: int|
            0 <= j < mem.len() && !(alloc_step(bs, mem, limit, size).2 <= j < alloc_step(
                bs,
                mem,
                limit,
                size,
            ).2 + asize(size)) ==> alloc_step(bs, mem, limit, size).1[j] == mem[j],
{
    let step = alloc_step(bs, mem, limit, size);
    if size == 0 || !representable(size) {
        return ;
    }
    let need = asize(size);
    lemma_asize(size);
    match first_fit(bs, need) {
        Some(f) => {
            assert(step.1 == zero_range(mem, bs[f].payload(), need));
        },
        None => {
            if mem.len() + SIZE_OF_MEMORY_HEADER + need <= limit {
                assert forall|j: int| 0 <= j < mem.len() implies step.1[j] == mem[j] by {}
            }
        },
    }
}

/// Freeing a live block and eagerly coalescing it with its free immediate
/// neighbours preserves the allocator invariant.
pub proof fn lemma_inv_release(bs: Seq<MemoryHeader>, brk: int, limit: int, ptr: usize)
    requires
        inv(bs, brk, limit),
    ensures
        inv(release_blocks(bs, brk, ptr), brk, limit),
{
    if ptr == 0 || ptr > brk {
        return ;
    }
    lemma_find_from(bs, ptr, 0);
    match find_payload(bs, ptr) {
        None => {},
        Some(i) => {
            lemma_merge_ordered(bs, brk, limit, i);
            lemma_merge_linked(bs, brk, limit, i);
            lemma_merge_tagged(bs, brk, limit, i);
            lemma_merge_aligned(bs, brk, limit, i);
            lemma_merge_coalesced(bs, brk, limit, i);
            assert(merge_at(bs, i).len() > 0);
        },
    }
}

} // verus!
