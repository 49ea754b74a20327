//! Laws of the allocator, proved over the model's transition functions.

use vstd::prelude::*;

use crate::block::MemoryHeader;
use crate::block::SIZE_OF_MEMORY_HEADER;
use crate::model::alloc_step;
use crate::model::asize;
use crate::model::blocks_ordered;
use crate::model::find_payload;
use crate::model::first_fit;
use crate::model::inv;
use crate::model::lemma_alloc_bounds;
use crate::model::lemma_alloc_frame;
use crate::model::lemma_asize;
use crate::model::lemma_blocks_below_brk;
use crate::model::lemma_blocks_sorted;
use crate::model::lemma_find_from;
use crate::model::lemma_find_payload_of;
use crate::model::lemma_first_fit_from;
use crate::model::lemma_inv_alloc;
use crate::model::lemma_inv_release;
use crate::model::merge_at;
use crate::model::merge_hi;
use crate::model::merge_lo;
use crate::model::merged_block;
use crate::model::realloc_step;
use crate::model::release_blocks;
use crate::model::representable;
use crate::model::split_needed;
use crate::model::split_remainder;
use crate::model::zero_range;

verus! {

/// Simultaneously live payloads never overlap: distinct blocks expose
/// disjoint payload ranges.
pub proof fn lemma_payloads_disjoint(bs: Seq<MemoryHeader>, brk: int, i: int, j: int)
    requires
        blocks_ordered(bs, brk),
        0 <= i < bs.len(),
        0 <= j < bs.len(),
        i != j,
    ensures
        bs[i].payload() + bs[i].size <= bs[j].payload() || bs[j].payload() + bs[j].size
            <= bs[i].payload(),
{
    if i < j {
        lemma_blocks_sorted(bs, brk, i, j);
    } else {
        lemma_blocks_sorted(bs, brk, j, i);
    }
}

/// Zeroing: a successful allocation hands back a payload whose first
/// `size` bytes are all zero.
pub proof fn lemma_allocate_zeroes(bs: Seq<MemoryHeader>, mem: Seq<u8>, limit: int, size: usize)
    requires
        inv(bs, mem.len() as int, limit),
    ensures
        alloc_step(bs, mem, limit, size).2 != 0 ==> forall|k: int|
            alloc_step(bs, mem, limit, size).2 <= k < alloc_step(bs, mem, limit, size).2 + size
                ==> alloc_step(bs, mem, limit, size).1[k] == 0u8,
{
    let step = alloc_step(bs, mem, limit, size);
    if size == 0 || !representable(size) {
        return ;
    }
    let need = asize(size);
    lemma_asize(size);
    match first_fit(bs, need) {
        Some(f) => {
            lemma_first_fit_from(bs, need, 0);
            lemma_blocks_below_brk(bs, mem.len() as int, f);
            assert forall|k: int| step.2 <= k < step.2 + size implies step.1[k] == 0u8 by {
                assert(step.1[k] == zero_range(mem, bs[f].payload(), need)[k]);
            }
        },
        None => {
            if mem.len() + SIZE_OF_MEMORY_HEADER + need <= limit {
                assert forall|k: int| step.2 <= k < step.2 + size implies step.1[k] == 0u8 by {
                    assert(step.1[k] == Seq::new(
                        (SIZE_OF_MEMORY_HEADER + need) as nat,
                        |j: int| 0u8,
                    )[k - mem.len()]);
                }
            }
        },
    }
}

/// Alignment: a successful allocation hands back an address that is a
/// multiple of the alignment.
pub proof fn lemma_allocate_aligned(bs: Seq<MemoryHeader>, mem: Seq<u8>, limit: int, size: usize)
    requires
        inv(bs, mem.len() as int, limit),
    ensures
        alloc_step(bs, mem, limit, size).2 % 8 == 0,
{
    let step = alloc_step(bs, mem, limit, size);
    if size == 0 || !representable(size) {
        return ;
    }
    let need = asize(size);
    match first_fit(bs, need) {
        Some(f) => {
            lemma_first_fit_from(bs, need, 0);
            lemma_blocks_below_brk(bs, mem.len() as int, f);
            assert(bs[f].addr % 8 == 0);
        },
        None => {},
    }
}

/// Identity on shrink: a block just allocated for `n` bytes, resized to
/// any `m <= n`, keeps its address, and no byte of the segment moves.
pub proof fn lemma_shrink_identity(bs: Seq<MemoryHeader>, mem: Seq<u8>, limit: int, n: usize, m: usize)
    requires
        inv(bs, mem.len() as int, limit),
        1 <= m <= n,
        alloc_step(bs, mem, limit, n).2 != 0,
    ensures
        realloc_step(
            alloc_step(bs, mem, limit, n).0,
            alloc_step(bs, mem, limit, n).1,
            limit,
            alloc_step(bs, mem, limit, n).2,
            m,
        ).2 == alloc_step(bs, mem, limit, n).2,
        realloc_step(
            alloc_step(bs, mem, limit, n).0,
            alloc_step(bs, mem, limit, n).1,
            limit,
            alloc_step(bs, mem, limit, n).2,
            m,
        ).1 == alloc_step(bs, mem, limit, n).1,
{
    let step = alloc_step(bs, mem, limit, n);
    let p = step.2;
    let need = asize(n);
    lemma_asize(n);
    lemma_inv_alloc(bs, mem, limit, n);
    assert(inv(step.0, step.1.len() as int, limit));
    assert(exists|idx: int|
        0 <= idx < step.0.len() && (#[trigger] step.0[idx].payload()) == p && step.0[idx].size
            >= n) by {
        lemma_first_fit_from(bs, need, 0);
        match first_fit(bs, need) {
            Some(f) => {
                lemma_blocks_below_brk(bs, mem.len() as int, f);
                let curr = bs[f];
                if split_needed(curr.size, need) {
                    assert(step.0[f] == (MemoryHeader {
                        next: Some(split_remainder(curr, need).addr),
                        size: need as usize,
                        free: false,
                        ..curr
                    }));
                } else {
                    assert(step.0[f] == (MemoryHeader { free: false, ..curr }));
                }
                assert(step.0[f].payload() == p && step.0[f].size >= n);
            },
            None => {
                let last = step.0.len() - 1;
                assert(step.0[last].payload() == p && step.0[last].size >= n);
            },
        }
    }
    let idx = choose|idx: int|
        0 <= idx < step.0.len() && (#[trigger] step.0[idx].payload()) == p && step.0[idx].size
            >= n;
    assert(step.0[idx].addr + SIZE_OF_MEMORY_HEADER == p);
    lemma_find_payload_of(step.0, step.1.len() as int, limit, idx);
    assert(find_payload(step.0, p) == Some(idx));
}

/// Resizing within a block's present size moves no byte and returns the
/// block's own payload address.
pub proof fn lemma_resize_within(bs: Seq<MemoryHeader>, mem: Seq<u8>, limit: int, i: int, m: usize)
    requires
        inv(bs, mem.len() as int, limit),
        0 <= i < bs.len(),
        1 <= m <= bs[i].size,
    ensures
        realloc_step(bs, mem, limit, ((bs[i].addr + SIZE_OF_MEMORY_HEADER) as usize), m).2 == (
        (bs[i].addr + SIZE_OF_MEMORY_HEADER) as usize),
        realloc_step(bs, mem, limit, ((bs[i].addr + SIZE_OF_MEMORY_HEADER) as usize), m).1 == mem,
{
    lemma_blocks_below_brk(bs, mem.len() as int, i);
    lemma_find_payload_of(bs, mem.len() as int, limit, i);
}

/// Data preservation on grow: resizing a live block beyond its present
/// size copies its whole former payload to the new address.
pub proof fn lemma_grow_preserves_data(
    bs: Seq<MemoryHeader>,
    mem: Seq<u8>,
    limit: int,
    i: int,
    m: usize,
)
    requires
        inv(bs, mem.len() as int, limit),
        0 <= i < bs.len(),
        !bs[i].free,
        m > bs[i].size,
    ensures
        realloc_step(bs, mem, limit, ((bs[i].addr + SIZE_OF_MEMORY_HEADER) as usize), m).2 != 0
            ==> realloc_step(
            bs,
            mem,
            limit,
            ((bs[i].addr + SIZE_OF_MEMORY_HEADER) as usize),
            m,
        ).1.subrange(
            realloc_step(bs, mem, limit, ((bs[i].addr + SIZE_OF_MEMORY_HEADER) as usize), m).2 as int,
            realloc_step(bs, mem, limit, ((bs[i].addr + SIZE_OF_MEMORY_HEADER) as usize), m).2
                + bs[i].size,
        ) == mem.subrange(bs[i].payload(), bs[i].end()),
{
    lemma_blocks_below_brk(bs, mem.len() as int, i);
    let ptr = (bs[i].addr + SIZE_OF_MEMORY_HEADER) as usize;
    lemma_find_payload_of(bs, mem.len() as int, limit, i);
    let stepped = alloc_step(bs, mem, limit, m);
    let q = stepped.2;
    if q != 0 {
        lemma_alloc_bounds(bs, mem, limit, m);
        lemma_alloc_frame(bs, mem, limit, m);
        lemma_asize(m);
        assert(bs[i].payload() == ptr);
        assert(ptr + bs[i].size <= q || q + asize(m) <= ptr) by {
            assert(q != bs[i].payload());
        }
        let res = realloc_step(bs, mem, limit, ptr, m);
        let sz = bs[i].size as int;
        assert forall|j: int| q <= j < q + sz implies #[trigger] res.1[j] == mem[ptr + (j
            - q)] by {
            assert(res.1[j] == stepped.1[ptr + (j - q)]);
            assert(stepped.1[ptr + (j - q)] == mem[ptr + (j - q)]);
        }
        assert(res.1.subrange(res.2 as int, res.2 + sz) =~= mem.subrange(
            bs[i].payload(),
            bs[i].end(),
        ));
    }
}

/// Magic defence: releasing a pointer at which no live payload begins —
/// one that did not come from this allocator, or whose block is gone —
/// changes nothing.
pub proof fn lemma_release_foreign(bs: Seq<MemoryHeader>, brk: int, limit: int, ptr: usize)
    requires
        inv(bs, brk, limit),
        forall|k: int| 0 <= k < bs.len() ==> (#[trigger] bs[k].payload()) != ptr,
    ensures
        release_blocks(bs, brk, ptr) == bs,
{
    lemma_find_from(bs, ptr, 0);
    match find_payload(bs, ptr) {
        None => {},
        Some(j) => {
            assert(false);
        },
    }
}

/// Null safety: releasing null is a no-op; resizing null acts as an
/// allocation (or as nothing when the size is zero too); resizing to zero
/// acts as a release and returns null.
pub proof fn lemma_null_safety(
    bs: Seq<MemoryHeader>,
    mem: Seq<u8>,
    limit: int,
    ptr: usize,
    size: usize,
)
    ensures
        release_blocks(bs, mem.len() as int, 0) == bs,
        realloc_step(bs, mem, limit, 0, 0) == (bs, mem, 0usize),
        size != 0 ==> realloc_step(bs, mem, limit, 0, size) == alloc_step(bs, mem, limit, size),
        ptr != 0 ==> realloc_step(bs, mem, limit, ptr, 0) == (
            release_blocks(bs, mem.len() as int, ptr),
            mem,
            0usize,
        ),
{
}

/// The list in which adjacent blocks `i` and `i + 1` have collapsed into
/// one free block spanning both payloads and the header between them.
pub open spec fn coalesced_pair(bs: Seq<MemoryHeader>, i: int) -> Seq<MemoryHeader> {
    let m = MemoryHeader {
        addr: bs[i].addr,
        prev: bs[i].prev,
        next: bs[i + 1].next,
        size: ((bs[i].size + SIZE_OF_MEMORY_HEADER + bs[i + 1].size) as usize),
        free: true,
        magic: bs[i].magic,
    };
    Seq::new(
        (bs.len() - 1) as nat,
        |k: int|
            if k < i {
                bs[k]
            } else if k == i {
                m
            } else if k == i + 1 {
                MemoryHeader { prev: Some(m.addr), ..bs[k + 1] }
            } else {
                bs[k + 1]
            },
    )
}

/// Releasing two adjacent live blocks in ascending address order collapses
/// them into one free block: the second release coalesces backward.
#[verifier::rlimit(100)]
pub proof fn lemma_coalesce_two_ascending(bs: Seq<MemoryHeader>, brk: int, limit: int, i: int)
    requires
        inv(bs, brk, limit),
        0 <= i,
        i + 1 < bs.len(),
        !bs[i].free,
        !bs[i + 1].free,
        i == 0 || !bs[i - 1].free,
        i + 2 == bs.len() || !bs[i + 2].free,
    ensures
        release_blocks(
            release_blocks(bs, brk, ((bs[i].addr + SIZE_OF_MEMORY_HEADER) as usize)),
            brk,
            ((bs[i + 1].addr + SIZE_OF_MEMORY_HEADER) as usize),
        ) == coalesced_pair(bs, i),
{
    let n = bs.len() as int;
    lemma_blocks_below_brk(bs, brk, i);
    lemma_blocks_below_brk(bs, brk, i + 1);
    let p1 = ((bs[i].addr + SIZE_OF_MEMORY_HEADER) as usize);
    let p2 = ((bs[i + 1].addr + SIZE_OF_MEMORY_HEADER) as usize);
    lemma_find_payload_of(bs, brk, limit, i);
    let b1 = release_blocks(bs, brk, p1);
    lemma_inv_release(bs, brk, limit, p1);
    assert(b1 == merge_at(bs, i));
    assert(merge_lo(bs, i) == i && merge_hi(bs, i) == i);
    assert(b1.len() == n);
    assert(b1[i] == merged_block(bs, i));
    assert forall|k: int| 0 <= k < n && k != i implies b1[k] == bs[k] by {
        if k == i + 1 {
            assert(bs[k].prev == Some(bs[i].addr));
        }
    }
    assert(b1[i + 1].addr + SIZE_OF_MEMORY_HEADER == p2);
    lemma_find_payload_of(b1, brk, limit, i + 1);
    let up = release_blocks(b1, brk, p2);
    assert(merge_lo(b1, i + 1) == i && merge_hi(b1, i + 1) == i + 1);
    assert(up == merge_at(b1, i + 1));
    assert(up =~= coalesced_pair(bs, i));
}

/// Releasing two adjacent live blocks in descending address order collapses
/// them into the same free block: the second release coalesces forward.
#[verifier::rlimit(100)]
pub proof fn lemma_coalesce_two_descending(bs: Seq<MemoryHeader>, brk: int, limit: int, i: int)
    requires
        inv(bs, brk, limit),
        0 <= i,
        i + 1 < bs.len(),
        !bs[i].free,
        !bs[i + 1].free,
        i == 0 || !bs[i - 1].free,
        i + 2 == bs.len() || !bs[i + 2].free,
    ensures
        release_blocks(
            release_blocks(bs, brk, ((bs[i + 1].addr + SIZE_OF_MEMORY_HEADER) as usize)),
            brk,
            ((bs[i].addr + SIZE_OF_MEMORY_HEADER) as usize),
        ) == coalesced_pair(bs, i),
{
    let n = bs.len() as int;
    lemma_blocks_below_brk(bs, brk, i);
    lemma_blocks_below_brk(bs, brk, i + 1);
    let p1 = ((bs[i].addr + SIZE_OF_MEMORY_HEADER) as usize);
    let p2 = ((bs[i + 1].addr + SIZE_OF_MEMORY_HEADER) as usize);
    lemma_find_payload_of(bs, brk, limit, i + 1);
    let c1 = release_blocks(bs, brk, p2);
    lemma_inv_release(bs, brk, limit, p2);
    assert(c1 == merge_at(bs, i + 1));
    assert(merge_lo(bs, i + 1) == i + 1 && merge_hi(bs, i + 1) == i + 1);
    assert(c1.len() == n);
    assert(c1[i + 1] == merged_block(bs, i + 1));
    assert forall|k: int| 0 <= k < n && k != i + 1 implies c1[k] == bs[k] by {
        if k == i + 2 {
            assert(bs[k].prev == Some(bs[i + 1].addr));
        }
    }
    assert(c1[i].addr + SIZE_OF_MEMORY_HEADER == p1);
    lemma_find_payload_of(c1, brk, limit, i);
    let down = release_blocks(c1, brk, p1);
    assert(merge_lo(c1, i) == i && merge_hi(c1, i) == i + 1);
    assert(down == merge_at(c1, i));
    assert(down =~= coalesced_pair(bs, i));
}

/// Coalescing: releasing two adjacent live blocks, in either order, leaves
/// the same list, holding one free block at the first block's address that
/// spans both payloads and the header between them. (The blocks at the
/// run's edges must not already be free, or the run would widen further.)
pub proof fn lemma_coalesce_two(bs: Seq<MemoryHeader>, brk: int, limit: int, i: int)
    requires
        inv(bs, brk, limit),
        0 <= i,
        i + 1 < bs.len(),
        !bs[i].free,
        !bs[i + 1].free,
        i == 0 || !bs[i - 1].free,
        i + 2 == bs.len() || !bs[i + 2].free,
    ensures
        ({
            let p1 = ((bs[i].addr + SIZE_OF_MEMORY_HEADER) as usize);
            let p2 = ((bs[i + 1].addr + SIZE_OF_MEMORY_HEADER) as usize);
            let up = release_blocks(release_blocks(bs, brk, p1), brk, p2);
            let down = release_blocks(release_blocks(bs, brk, p2), brk, p1);
            up == down && up == coalesced_pair(bs, i) && up[i] == (MemoryHeader {
                addr: bs[i].addr,
                prev: bs[i].prev,
                next: bs[i + 1].next,
                size: ((bs[i].size + SIZE_OF_MEMORY_HEADER + bs[i + 1].size) as usize),
                free: true,
                magic: bs[i].magic,
            })
        }),
{
    lemma_coalesce_two_ascending(bs, brk, limit, i);
    lemma_coalesce_two_descending(bs, brk, limit, i);
}

/// Coalescing pays off: after the two adjacent releases, a request for the
/// combined span — both sizes plus the header between them — is satisfied
/// at the first released block's own address, provided the sizes are
/// aligned and no free block earlier in the list fits the request.
#[verifier::rlimit(100)]
pub proof fn lemma_coalesced_region_reused(
    bs: Seq<MemoryHeader>,
    mem: Seq<u8>,
    limit: int,
    i: int,
)
    requires
        inv(bs, mem.len() as int, limit),
        0 <= i,
        i + 1 < bs.len(),
        !bs[i].free,
        !bs[i + 1].free,
        i == 0 || !bs[i - 1].free,
        i + 2 == bs.len() || !bs[i + 2].free,
        (bs[i].size + SIZE_OF_MEMORY_HEADER + bs[i + 1].size) % 8 == 0,
        forall|k: int|
            0 <= k < i ==> !((#[trigger] bs[k].free) && bs[k].size >= bs[i].size
                + SIZE_OF_MEMORY_HEADER + bs[i + 1].size),
    ensures
        ({
            let p1 = ((bs[i].addr + SIZE_OF_MEMORY_HEADER) as usize);
            let p2 = ((bs[i + 1].addr + SIZE_OF_MEMORY_HEADER) as usize);
            let total = ((bs[i].size + SIZE_OF_MEMORY_HEADER + bs[i + 1].size) as usize);
            let b2 = release_blocks(
                release_blocks(bs, mem.len() as int, p1),
                mem.len() as int,
                p2,
            );
            alloc_step(b2, mem, limit, total).2 == p1
        }),
{
    let brk = mem.len() as int;
    lemma_coalesce_two_ascending(bs, brk, limit, i);
    let total = ((bs[i].size + SIZE_OF_MEMORY_HEADER + bs[i + 1].size) as usize);
    let b2 = coalesced_pair(bs, i);
    // Both headers fit below the break alongside the combined span, so the
    // request is representable and the sum is not truncated.
    lemma_blocks_below_brk(bs, brk, i + 1);
    assert(bs[i].end() <= bs[i + 1].addr);
    assert(total == bs[i].size + SIZE_OF_MEMORY_HEADER + bs[i + 1].size);
    assert(representable(total));
    assert(b2[i].free && b2[i].size == total);
    assert forall|k: int| 0 <= k < i implies !((#[trigger] b2[k].free) && b2[k].size
        >= total as int) by {
        assert(b2[k] == bs[k]);
    }
    lemma_exact_refit(b2, mem, limit, i, total);
}

/// A free block of exactly an aligned request's size, with nothing fitting
/// before it, satisfies that request at its own payload address.
pub proof fn lemma_exact_refit(bs: Seq<MemoryHeader>, mem: Seq<u8>, limit: int, i: int, total: usize)
    requires
        0 <= i < bs.len(),
        bs[i].free,
        bs[i].size == total,
        total != 0,
        total % 8 == 0,
        representable(total),
        forall|k: int| 0 <= k < i ==> !((#[trigger] bs[k].free) && bs[k].size >= total as int),
    ensures
        alloc_step(bs, mem, limit, total).2 == ((bs[i].addr + SIZE_OF_MEMORY_HEADER) as usize),
{
    crate::model::lemma_asize_exact(total);
    crate::model::lemma_first_fit_at(bs, total as int, i);
    crate::model::lemma_alloc_returns_fit(bs, mem, limit, total, i);
}

/// Reuse: after an allocation and a release of the returned block, with no
/// operation between, an equal request yields the same address again. The
/// one proviso: the released block's predecessor must not be free — a free
/// predecessor absorbs the block and moves the reclaimed region's start.
#[verifier::rlimit(100)]
pub proof fn lemma_reuse(bs: Seq<MemoryHeader>, mem: Seq<u8>, limit: int, n: usize)
    requires
        inv(bs, mem.len() as int, limit),
        alloc_step(bs, mem, limit, n).2 != 0,
        ({
            let s1 = alloc_step(bs, mem, limit, n);
            match find_payload(s1.0, s1.2) {
                Some(j) => j == 0 || !s1.0[j - 1].free,
                None => false,
            }
        }),
    ensures
        ({
            let s1 = alloc_step(bs, mem, limit, n);
            let b2 = release_blocks(s1.0, s1.1.len() as int, s1.2);
            alloc_step(b2, s1.1, limit, n).2 == s1.2
        }),
{
    let s1 = alloc_step(bs, mem, limit, n);
    let p = s1.2;
    let need = asize(n);
    let brk0 = mem.len() as int;
    let brk1 = s1.1.len() as int;
    lemma_asize(n);
    lemma_inv_alloc(bs, mem, limit, n);
    lemma_first_fit_from(bs, need, 0);
    // The index of the returned block, and what stands before it.
    let j = find_payload(s1.0, p).unwrap();
    lemma_find_from(s1.0, p, 0);
    assert(s1.0[j].payload() == p);
    assert(!s1.0[j].free && s1.0[j].size >= need && forall|k: int|
        0 <= k < j ==> !((#[trigger] s1.0[k].free) && s1.0[k].size >= need)) by {
        match first_fit(bs, need) {
            Some(f) => {
                lemma_blocks_below_brk(bs, brk0, f);
                lemma_find_payload_of(s1.0, brk1, limit, f);
                assert(j == f);
                assert(forall|k: int| 0 <= k < j ==> s1.0[k] == bs[k]);
            },
            None => {
                let last = s1.0.len() - 1;
                lemma_blocks_below_brk(s1.0, brk1, last);
                lemma_find_payload_of(s1.0, brk1, limit, last);
                assert(j == last);
                assert(forall|k: int|
                    0 <= k < j ==> (#[trigger] s1.0[k].free) == bs[k].free && s1.0[k].size
                        == bs[k].size);
            },
        }
    }
    // Release the block: it is freed in place, absorbing at most a free
    // successor, so the merged block keeps the same payload address.
    let b2 = release_blocks(s1.0, brk1, p);
    lemma_inv_release(s1.0, brk1, limit, p);
    lemma_blocks_below_brk(s1.0, brk1, j);
    assert(p != 0 && p <= brk1);
    assert(b2 == merge_at(s1.0, j));
    let lo = merge_lo(s1.0, j);
    let hi = merge_hi(s1.0, j);
    assert(lo == j);
    let m = merged_block(s1.0, j);
    assert(b2[j] == m);
    crate::model::lemma_merge_size(s1.0, brk1, limit, j);
    assert(m.payload() == p && m.free && m.size >= need);
    assert(forall|k: int| 0 <= k < j ==> b2[k] == s1.0[k]);
    // A fresh request of the same size takes exactly that block.
    lemma_first_fit_from(b2, need, 0);
    match first_fit(b2, need) {
        Some(g) => {
            if g < j {
                assert(b2[g].free && b2[g].size >= need);
                assert(false);
            } else if g > j {
                assert(!(b2[j].free && b2[j].size >= need));
                assert(false);
            }
            assert(alloc_step(b2, s1.1, limit, n).2 == b2[j].payload());
        },
        None => {
            assert(!(b2[j].free && b2[j].size >= need));
            assert(false);
        },
    }
}

} // verus!
