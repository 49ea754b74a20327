//! The allocator handle and the three verified entry points.

use vstd::prelude::*;

use crate::block::MemoryHeader;
use crate::block::MAGIC;
use crate::block::SIZE_OF_MEMORY_HEADER;
use crate::laws::lemma_allocate_aligned;
use crate::laws::lemma_allocate_zeroes;
use crate::model::alloc_step;
use crate::model::asize;
use crate::model::ext_blocks;
use crate::model::first_fit;
use crate::model::first_fit_from;
use crate::model::fit_blocks;
use crate::model::inv;
use crate::model::lemma_asize;
use crate::model::lemma_blocks_below_brk;
use crate::model::lemma_inv_ext;
use crate::model::lemma_inv_fit;
use crate::model::find_from;
use crate::model::find_payload;
use crate::model::lemma_all_below_brk;
use crate::model::lemma_inv_release;
use crate::model::lemma_merge_size;
use crate::model::merge_at;
use crate::model::merge_hi;
use crate::model::merge_lo;
use crate::model::merged_block;
use crate::model::copy_range;
use crate::model::lemma_alloc_bounds;
use crate::model::lemma_inv_shrink;
use crate::model::realloc_step;
use crate::model::release_blocks;
use crate::model::representable;
use crate::model::zero_range;

verus! {

/// The allocator: one contiguous, singly-growing data segment, partitioned
/// into header-prefixed blocks. The segment's length is the current break;
/// `limit` is the most the break may ever reach (the model of the operating
/// system refusing to extend the data segment further).
pub struct Allocator {
    segment: Vec<u8>,
    headers: Vec<MemoryHeader>,
    limit: usize,
}

impl Allocator {
    /// The block list, in ascending address order.
    pub closed spec fn blocks(self) -> Seq<MemoryHeader> {
        self.headers@
    }

    /// The bytes of the data segment, from address zero to the break.
    pub closed spec fn bytes(self) -> Seq<u8> {
        self.segment@
    }

    /// The current break: the first address past the segment.
    pub open spec fn brk(self) -> int {
        self.bytes().len() as int
    }

    /// The address the break may never exceed.
    pub closed spec fn brk_limit(self) -> int {
        self.limit as int
    }

    /// The allocator's invariant, established by the constructors and
    /// preserved by every operation.
    pub open spec fn wf(self) -> bool {
        inv(self.blocks(), self.brk(), self.brk_limit())
    }

    /// A fresh allocator whose break may grow up to `limit` bytes.
    pub fn with_limit(limit: usize) -> (a: Allocator)
        ensures
            a.wf(),
            a.blocks() == Seq::<MemoryHeader>::empty(),
            a.bytes() == Seq::<u8>::empty(),
            a.brk_limit() == limit,
    {
        Allocator { segment: Vec::new(), headers: Vec::new(), limit }
    }

    /// A fresh allocator with no practical bound on the break.
    pub fn new() -> (a: Allocator)
        ensures
            a.wf(),
            a.blocks() == Seq::<MemoryHeader>::empty(),
            a.bytes() == Seq::<u8>::empty(),
            a.brk_limit() == usize::MAX,
    {
        Allocator::with_limit(usize::MAX)
    }

    /// The present break, as the operating system primitive would report it
    /// for an extension request of zero bytes.
    pub fn current_break(&self) -> (b: usize)
        ensures
            b == self.brk(),
    {
        self.segment.len()
    }

    /// Read the byte at address `addr` of the segment.
    pub fn read_byte(&self, addr: usize) -> (v: u8)
        requires
            addr < self.brk(),
        ensures
            v == self.bytes()[addr as int],
    {
        self.segment[addr]
    }

    /// Write the byte at address `addr` of the segment.
    pub fn write_byte(&mut self, addr: usize, v: u8)
        requires
            old(self).wf(),
            addr < old(self).brk(),
        ensures
            final(self).wf(),
            final(self).brk_limit() == old(self).brk_limit(),
            final(self).blocks() == old(self).blocks(),
            final(self).bytes() == old(self).bytes().update(addr as int, v),
    {
        self.segment[addr] = v;
    }

    /// Allocate `size` bytes: an aligned address of at least `size` zeroed
    /// bytes of exclusive capacity, found first-fit among the free blocks
    /// or carved from a fresh extension of the segment; `0` (null) for a
    /// zero-sized request or when the segment cannot grow far enough.
    #[verifier::loop_isolation(false)]
    pub fn mm_malloc(&mut self, size: usize) -> (r: usize)
        requires
            old(self).wf(),
        ensures
            final(self).wf(),
            final(self).brk_limit() == old(self).brk_limit(),
            final(self).blocks() == alloc_step(
                old(self).blocks(),
                old(self).bytes(),
                old(self).brk_limit(),
                size,
            ).0,
            final(self).bytes() == alloc_step(
                old(self).blocks(),
                old(self).bytes(),
                old(self).brk_limit(),
                size,
            ).1,
            r == alloc_step(old(self).blocks(), old(self).bytes(), old(self).brk_limit(), size).2,
            r % 8 == 0,
            r != 0 ==> forall|k: int| r <= k < r + size ==> final(self).bytes()[k] == 0u8,
    {
        proof {
            lemma_allocate_zeroes(self.headers@, self.segment@, self.brk_limit(), size);
            lemma_allocate_aligned(self.headers@, self.segment@, self.brk_limit(), size);
        }
        if size == 0 {
            return 0;
        }
        if size > usize::MAX - (SIZE_OF_MEMORY_HEADER + 7) {
            proof {
                assert(!representable(size));
            }
            return 0;
        }
        let need = (size + 7) / 8 * 8;
        proof {
            lemma_asize(size);
            assert(need == asize(size));
        }
        let ghost bs = self.headers@;
        let ghost mem0 = self.segment@;
        // First-fit walk over the block list.
        let n = self.headers.len();
        let mut i: usize = 0;
        while i < n && !(self.headers[i].free && self.headers[i].size >= need)
            invariant
                i <= n,
                first_fit_from(bs, need as int, 0) == first_fit_from(bs, need as int, i as int),
            decreases n - i,
        {
            proof {
                assert(first_fit_from(bs, need as int, i as int) == first_fit_from(
                    bs,
                    need as int,
                    i as int + 1,
                ));
            }
            i = i + 1;
        }
        if i < n {
            // Take the first fitting free block.
            proof {
                assert(first_fit(bs, need as int) == Some(i as int));
                lemma_blocks_below_brk(bs, self.brk(), i as int);
            }
            let curr = self.headers[i];
            let payload = curr.addr + SIZE_OF_MEMORY_HEADER;
            if curr.size > need + SIZE_OF_MEMORY_HEADER + 1 {
                // Room to carve off a trailing free block: split.
                let rem_addr = payload + need;
                let rem = MemoryHeader {
                    addr: rem_addr,
                    prev: Some(curr.addr),
                    next: curr.next,
                    size: curr.size - (need + SIZE_OF_MEMORY_HEADER),
                    free: true,
                    magic: (rem_addr + SIZE_OF_MEMORY_HEADER) ^ MAGIC,
                };
                let mut taken = curr;
                taken.size = need;
                taken.free = false;
                taken.next = Some(rem_addr);
                self.headers[i] = taken;
                self.headers.insert(i + 1, rem);
                if i + 1 < n {
                    let mut after = self.headers[i + 2];
                    after.prev = Some(rem_addr);
                    self.headers[i + 2] = after;
                }
            } else {
                // A perfect or near fit is not split.
                let mut taken = curr;
                taken.free = false;
                self.headers[i] = taken;
            }
            proof {
                assert(self.headers@ =~= fit_blocks(bs, i as int, need as int));
                lemma_inv_fit(bs, self.brk(), self.brk_limit(), i as int, need as int);
            }
            // Zero the payload.
            let mut j: usize = 0;
            while j < need
                invariant
                    j <= need,
                    payload + need <= self.segment.len(),
                    self.headers@ == fit_blocks(bs, i as int, need as int),
                    self.limit == old(self).limit,
                    self.segment@.len() == mem0.len(),
                    forall|k: int|
                        0 <= k < mem0.len() && !(payload <= k < payload + j)
                            ==> self.segment@[k] == mem0[k],
                    forall|k: int| payload <= k < payload + j ==> self.segment@[k] == 0u8,
                decreases need - j,
            {
                self.segment[payload + j] = 0u8;
                j = j + 1;
            }
            proof {
                assert(self.segment@ =~= zero_range(mem0, payload as int, need as int));
            }
            payload
        } else {
            // No fit: extend the segment by a header plus the request.
            proof {
                assert(first_fit(bs, need as int) == None::<int>);
            }
            let brk = self.segment.len();
            let delta = SIZE_OF_MEMORY_HEADER + need;
            if delta > self.limit - brk {
                // The operating system will not move the break that far.
                return 0;
            }
            let mut nb = MemoryHeader {
                addr: brk,
                prev: None,
                next: None,
                size: need,
                free: false,
                magic: (brk + SIZE_OF_MEMORY_HEADER) ^ MAGIC,
            };
            if n > 0 {
                let mut last = self.headers[n - 1];
                nb.prev = Some(last.addr);
                last.next = Some(brk);
                self.headers[n - 1] = last;
            }
            self.headers.push(nb);
            proof {
                assert(self.headers@ =~= ext_blocks(bs, brk as int, need as int));
                lemma_inv_ext(bs, brk as int, self.brk_limit(), need as int);
            }
            let mut j: usize = 0;
            while j < delta
                invariant
                    j <= delta,
                    self.headers@ == ext_blocks(bs, brk as int, need as int),
                    self.limit == old(self).limit,
                    self.segment@ == mem0 + Seq::new(j as nat, |q: int| 0u8),
                decreases delta - j,
            {
                self.segment.push(0u8);
                proof {
                    assert(self.segment@ =~= mem0 + Seq::new((j + 1) as nat, |q: int| 0u8));
                }
                j = j + 1;
            }
            proof {
                assert(self.segment@ =~= mem0 + Seq::new(
                    (SIZE_OF_MEMORY_HEADER + need as int) as nat,
                    |q: int| 0u8,
                ));
            }
            brk + SIZE_OF_MEMORY_HEADER
        }
    }

    /// Release the block whose payload begins at `ptr`, coalescing it
    /// eagerly with free neighbours on both sides. A null pointer, a
    /// pointer beyond the break, and a pointer whose apparent header fails
    /// the magic check are silent no-ops, so a double free or a pointer
    /// that did not come from this allocator does no harm.
    #[verifier::loop_isolation(false)]
    #[verifier::rlimit(100)]
    pub fn mm_free(&mut self, ptr: usize)
        requires
            old(self).wf(),
        ensures
            final(self).wf(),
            final(self).brk_limit() == old(self).brk_limit(),
            final(self).bytes() == old(self).bytes(),
            final(self).blocks() == release_blocks(old(self).blocks(), old(self).brk(), ptr),
    {
        let ghost bs = self.headers@;
        let ghost brk = self.brk();
        proof {
            lemma_all_below_brk(bs, brk);
            lemma_inv_release(bs, brk, self.brk_limit(), ptr);
        }
        if ptr == 0 {
            return ;
        }
        if ptr > self.segment.len() {
            return ;
        }
        // Find the header whose payload would begin at `ptr`.
        let n = self.headers.len();
        let mut i: usize = 0;
        while i < n && self.headers[i].addr + SIZE_OF_MEMORY_HEADER != ptr
            invariant
                i <= n,
                find_from(bs, ptr, 0) == find_from(bs, ptr, i as int),
            decreases n - i,
        {
            proof {
                assert(find_from(bs, ptr, i as int) == find_from(bs, ptr, i as int + 1));
            }
            i = i + 1;
        }
        if i == n {
            proof {
                assert(find_payload(bs, ptr) == None::<int>);
            }
            return ;
        }
        proof {
            assert(find_payload(bs, ptr) == Some(i as int));
        }
        // The integrity check: the header must carry its payload address
        // XORed with the magic constant.
        let expected = ptr ^ MAGIC;
        if self.headers[i].magic != expected {
            proof {
                assert(bs[i as int].magic == ((bs[i as int].addr
                    + SIZE_OF_MEMORY_HEADER) as usize) ^ MAGIC);
                assert(false);
            }
            return ;
        }
        self.coalesce_at(i);
    }

    /// Resize the block whose payload begins at `ptr` to `size` bytes. A
    /// null pointer acts as `mm_malloc(size)` (or returns null when `size`
    /// is zero too); a zero size acts as `mm_free(ptr)` and returns null. A
    /// request within the block's present size shrinks it in place and
    /// returns `ptr` itself; a larger request allocates a fresh block,
    /// copies the old payload over, and returns the new address, leaving
    /// the old block in place. A pointer at which no live payload begins
    /// returns null with nothing changed.
    #[verifier::loop_isolation(false)]
    pub fn mm_realloc(&mut self, ptr: usize, size: usize) -> (r: usize)
        requires
            old(self).wf(),
        ensures
            final(self).wf(),
            final(self).brk_limit() == old(self).brk_limit(),
            final(self).blocks() == realloc_step(
                old(self).blocks(),
                old(self).bytes(),
                old(self).brk_limit(),
                ptr,
                size,
            ).0,
            final(self).bytes() == realloc_step(
                old(self).blocks(),
                old(self).bytes(),
                old(self).brk_limit(),
                ptr,
                size,
            ).1,
            r == realloc_step(
                old(self).blocks(),
                old(self).bytes(),
                old(self).brk_limit(),
                ptr,
                size,
            ).2,
    {
        if ptr == 0 && size == 0 {
            return 0;
        }
        if ptr == 0 {
            return self.mm_malloc(size);
        }
        if size == 0 {
            self.mm_free(ptr);
            return 0;
        }
        let ghost bs = self.headers@;
        let ghost mem0 = self.segment@;
        proof {
            lemma_all_below_brk(bs, self.brk());
        }
        // Find the header whose payload begins at `ptr`.
        let n = self.headers.len();
        let mut i: usize = 0;
        while i < n && self.headers[i].addr + SIZE_OF_MEMORY_HEADER != ptr
            invariant
                i <= n,
                find_from(bs, ptr, 0) == find_from(bs, ptr, i as int),
            decreases n - i,
        {
            proof {
                assert(find_from(bs, ptr, i as int) == find_from(bs, ptr, i as int + 1));
            }
            i = i + 1;
        }
        if i == n {
            proof {
                assert(find_payload(bs, ptr) == None::<int>);
            }
            return 0;
        }
        proof {
            assert(find_payload(bs, ptr) == Some(i as int));
        }
        let curr = self.headers[i];
        let former = curr.size;
        if size <= former {
            // Shrink in place: only the header's size changes.
            let mut h = curr;
            h.size = size;
            self.headers[i] = h;
            proof {
                assert(self.headers@ =~= bs.update(
                    i as int,
                    MemoryHeader { size: size, ..bs[i as int] },
                ));
                lemma_inv_shrink(bs, self.brk(), self.brk_limit(), i as int, size);
            }
            ptr
        } else {
            // Grow: allocate a fresh block and copy the old payload over.
            // The old block stays in place.
            proof {
                lemma_alloc_bounds(bs, mem0, self.brk_limit(), size);
            }
            let q = self.mm_malloc(size);
            if q == 0 {
                return 0;
            }
            let ghost mem1 = self.segment@;
            let ghost bs1 = self.headers@;
            proof {
                lemma_asize(size);
                assert(ptr + former == bs[i as int].end());
            }
            let mut k: usize = 0;
            while k < former
                invariant
                    k <= former,
                    former < size <= asize(size),
                    q != 0,
                    q + asize(size) <= mem1.len(),
                    ptr + former <= mem1.len(),
                    q == ptr || ptr + former <= q || q + asize(size) <= ptr,
                    self.headers@ == bs1,
                    self.limit == old(self).limit,
                    self.segment@.len() == mem1.len(),
                    forall|j: int|
                        0 <= j < mem1.len() && !(q <= j < q + k) ==> self.segment@[j] == mem1[j],
                    forall|j: int| q <= j < q + k ==> self.segment@[j] == mem1[ptr + (j - q)],
                decreases former - k,
            {
                let v = self.segment[ptr + k];
                proof {
                    assert(!(q <= ptr + k < q + k));
                }
                self.segment[q + k] = v;
                k = k + 1;
            }
            proof {
                assert(self.segment@ =~= copy_range(mem1, ptr as int, q as int, former as int));
            }
            q
        }
    }

    /// Free the block at index `i` and collapse it with its free immediate
    /// neighbours into one block, repairing the surviving links.
    #[verifier::loop_isolation(false)]
    #[verifier::rlimit(100)]
    fn coalesce_at(&mut self, i: usize)
        requires
            old(self).wf(),
            i < old(self).blocks().len(),
        ensures
            final(self).brk_limit() == old(self).brk_limit(),
            final(self).bytes() == old(self).bytes(),
            final(self).blocks() == merge_at(old(self).blocks(), i as int),
    {
        let ghost bs = self.headers@;
        let ghost brk = self.brk();
        let n = self.headers.len();
        proof {
            lemma_all_below_brk(bs, brk);
            lemma_merge_size(bs, brk, self.brk_limit(), i as int);
        }
        // Mark the block free.
        let mut h = self.headers[i];
        h.free = true;
        self.headers[i] = h;
        // Coalesce forward: absorb a free successor, then repair the
        // absorbed block's successor's back link.
        if i + 1 < n && self.headers[i + 1].free {
            let nxt = self.headers[i + 1];
            let mut h = self.headers[i];
            h.size = h.size + (nxt.size + SIZE_OF_MEMORY_HEADER);
            h.next = nxt.next;
            self.headers[i] = h;
            self.headers.remove(i + 1);
            if i + 1 < self.headers.len() {
                let mut after = self.headers[i + 1];
                after.prev = Some(h.addr);
                self.headers[i + 1] = after;
            }
        }
        // Coalesce backward: a free predecessor absorbs the block, and the
        // successor's back link is repaired the same way.
        if i > 0 && self.headers[i - 1].free {
            let cur = self.headers[i];
            let mut p = self.headers[i - 1];
            p.size = p.size + (cur.size + SIZE_OF_MEMORY_HEADER);
            p.next = cur.next;
            self.headers[i - 1] = p;
            self.headers.remove(i);
            if i < self.headers.len() {
                let mut after = self.headers[i];
                after.prev = Some(p.addr);
                self.headers[i] = after;
            }
        }
        proof {
            let gi = i as int;
            let lo = merge_lo(bs, gi);
            let hi = merge_hi(bs, gi);
            let d = hi - lo;
            let m = merged_block(bs, gi);
            let bs2 = merge_at(bs, gi);
            assert(self.headers@.len() == bs2.len());
            assert forall|k: int| 0 <= k < bs2.len() implies self.headers@[k] == bs2[k] by {
                if k == lo {
                    assert(self.headers@[k] == m);
                } else if k == lo + 1 {
                    assert(bs[k + d].prev == Some(bs[k + d - 1].addr));
                    assert(self.headers@[k] == (MemoryHeader { prev: Some(m.addr), ..bs[k + d] }));
                } else if k > lo + 1 {
                    assert(self.headers@[k] == bs[k + d]);
                }
            }
            assert(self.headers@ =~= bs2);
        }
    }
}

} // verus!
