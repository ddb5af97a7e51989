//! Bump allocation: serve requests by advancing one pointer through the
//! window; reclaim everything at once when the last live allocation is
//! freed.
use crate::allocator::{
    eff_size, is_align, lemma_align_pos, lemma_align_up, range_disjoint, ranges_disjoint,
    lemma_ranges_disjoint_remove, spec_align_up,
};
use vstd::prelude::*;

verus! {

/// Bump allocator over the window `[heap_start, heap_end)`. `next` is the
/// lowest address not yet handed out; `allocations` counts live blocks. The
/// ghost `live` sequence records each live block's `(address, size)`.
pub struct BumpAllocator {
    pub heap_start: u64,
    pub heap_end: u64,
    pub next: u64,
    pub allocations: u64,
    pub live: Ghost<Seq<(u64, u64)>>,
}

/// State transition of the bump pointer and counter on deallocation: the
/// counter drops, and when it reaches zero the pointer snaps back to the
/// window start, whichever block was freed.
pub open spec fn bump_dealloc_step(next: u64, start: u64, count: u64) -> (u64, u64)
    recommends
        count >= 1,
{
    if count == 1 {
        (start, 0u64)
    } else {
        (next, (count - 1) as u64)
    }
}

/// `bump_dealloc_step` applied `k` times.
pub open spec fn bump_dealloc_iter(next: u64, start: u64, count: u64, k: nat) -> (u64, u64)
    decreases k,
{
    if k == 0 {
        (next, count)
    } else {
        let s = bump_dealloc_step(next, start, count);
        bump_dealloc_iter(s.0, start, s.1, (k - 1) as nat)
    }
}

impl BumpAllocator {
    pub open spec fn wf(self) -> bool {
        &&& self.heap_start <= self.next <= self.heap_end
        &&& self.allocations == self.live@.len()
        &&& self.allocations <= self.next - self.heap_start
        &&& forall|i: int|
            0 <= i < self.live@.len() ==> {
                &&& self.heap_start <= (#[trigger] self.live@[i]).0
                &&& self.live@[i].0 + self.live@[i].1 <= self.next
                &&& self.live@[i].1 >= 1
            }
        &&& ranges_disjoint(self.live@)
    }

    /// The live blocks, as `(address, size)` ranges.
    pub open spec fn live_ranges(self) -> Seq<(u64, u64)> {
        self.live@
    }

    /// A request fits when the bump pointer, rounded up to the alignment,
    /// leaves room for the effective size before the window end.
    pub open spec fn fits(self, size: u64, align: u64) -> bool {
        spec_align_up(self.next as int, align as int) + eff_size(size) <= self.heap_end
    }

    /// An empty allocator over an empty window.
    pub fn new() -> (r: Self)
        ensures
            r.wf(),
            r.allocations == 0,
            r.heap_start == 0 && r.heap_end == 0,
    {
        BumpAllocator {
            heap_start: 0,
            heap_end: 0,
            next: 0,
            allocations: 0,
            live: Ghost(Seq::empty()),
        }
    }

    /// Initializes the allocator over the window `[heap_start,
    /// heap_start + heap_size)`, with nothing allocated.
    pub fn init(&mut self, heap_start: u64, heap_size: u64)
        requires
            heap_start + heap_size <= u64::MAX,
        ensures
            final(self).wf(),
            final(self).heap_start == heap_start,
            final(self).heap_end == heap_start + heap_size,
            final(self).next == heap_start,
            final(self).allocations == 0,
            final(self).live@ == Seq::<(u64, u64)>::empty(),
    {
        self.heap_start = heap_start;
        self.heap_end = heap_start + heap_size;
        self.next = heap_start;
        self.allocations = 0;
        proof {
            self.live@ = Seq::empty();
        }
    }

    /// Rounds the bump pointer up to `align` and, if the effective size still
    /// fits before the window end, advances it past the new block.
    pub fn allocate(&mut self, size: u64, align: u64) -> (r: Option<u64>)
        requires
            old(self).wf(),
            is_align(align),
        ensures
            final(self).wf(),
            final(self).heap_start == old(self).heap_start,
            final(self).heap_end == old(self).heap_end,
            r is Some <==> old(self).fits(size, align),
            r is None ==> *final(self) == *old(self),
            r matches Some(p) ==> {
                &&& p == spec_align_up(old(self).next as int, align as int)
                &&& p % align == 0
                &&& old(self).heap_start <= p
                &&& p + eff_size(size) <= old(self).heap_end
                &&& old(self).next <= p
                &&& final(self).next == p + eff_size(size)
                &&& final(self).allocations == old(self).allocations + 1
                &&& final(self).live@ == old(self).live@.push((p, eff_size(size)))
            },
            size > old(self).heap_end - old(self).heap_start ==> r is None,
    {
        proof {
            lemma_align_pos(align);
            lemma_align_up(self.next as int, align as int);
        }
        let rem = self.next % align;
        let pad = if rem == 0 { 0u64 } else { align - rem };
        if pad > self.heap_end - self.next {
            return None;
        }
        let alloc_start = self.next + pad;
        let size1 = if size == 0 { 1u64 } else { size };
        if size1 > self.heap_end - alloc_start {
            return None;
        }
        let ghost pre = *self;
        self.next = alloc_start + size1;
        self.allocations = self.allocations + 1;
        proof {
            self.live@ = self.live@.push((alloc_start, size1));
            assert forall|i: int, j: int| 0 <= i < j < self.live@.len() implies range_disjoint(
                #[trigger] self.live@[i],
                #[trigger] self.live@[j],
            ) by {
                if j == self.live@.len() - 1 {
                    assert(pre.live@[i].0 + pre.live@[i].1 <= pre.next);
                }
            }
        }
        Some(alloc_start)
    }

    /// Frees one live block: the counter drops, and when it reaches zero the
    /// bump pointer returns to the window start, reclaiming the whole region.
    pub fn deallocate(&mut self, ptr: u64, size: u64, align: u64)
        requires
            old(self).wf(),
            old(self).live@.contains((ptr, eff_size(size))),
        ensures
            final(self).wf(),
            final(self).heap_start == old(self).heap_start,
            final(self).heap_end == old(self).heap_end,
            final(self).allocations == old(self).allocations - 1,
            (final(self).next, final(self).allocations) == bump_dealloc_step(
                old(self).next,
                old(self).heap_start,
                old(self).allocations,
            ),
            old(self).allocations == 1 ==> final(self).next == old(self).heap_start,
            old(self).allocations > 1 ==> final(self).next == old(self).next,
            exists|i: int|
                0 <= i < old(self).live@.len() && old(self).live@[i] == (ptr, eff_size(size))
                    && final(self).live@ == old(self).live@.remove(i),
    {
        self.allocations = self.allocations - 1;
        if self.allocations == 0 {
            self.next = self.heap_start;
        }
        proof {
            let i = choose|i: int|
                0 <= i < self.live@.len() && self.live@[i] == (ptr, eff_size(size));
            lemma_ranges_disjoint_remove(self.live@, i);
            self.live@ = self.live@.remove(i);
        }
    }
}

/// Law: no two live allocations of a well-formed bump allocator overlap, and
/// each lies inside the window below the bump pointer.
pub proof fn lemma_bump_live_disjoint(a: BumpAllocator)
    requires
        a.wf(),
    ensures
        ranges_disjoint(a.live_ranges()),
        forall|i: int|
            0 <= i < a.live_ranges().len() ==> {
                &&& a.heap_start <= (#[trigger] a.live_ranges()[i]).0
                &&& a.live_ranges()[i].0 + a.live_ranges()[i].1 <= a.next
            },
{
}

/// Law: allocating any number of blocks and then freeing all of them, in any
/// order, returns the bump pointer exactly to the window start. Each free
/// performs `bump_dealloc_step`, which ignores the freed address, so `k`
/// frees from a state with `k` live allocations always end at the start.
pub proof fn lemma_bump_drain_resets(next: u64, start: u64, count: u64, k: nat)
    requires
        count == k,
        k >= 1,
    ensures
        bump_dealloc_iter(next, start, count, k) == (start, 0u64),
    decreases k,
{
    if k == 1 {
        assert(bump_dealloc_step(next, start, count) == (start, 0u64));
        assert(bump_dealloc_iter(start, start, 0u64, 0) == (start, 0u64));
    } else {
        assert(bump_dealloc_step(next, start, count) == (next, (count - 1) as u64));
        lemma_bump_drain_resets(next, start, (count - 1) as u64, (k - 1) as nat);
    }
}

} // verus!
