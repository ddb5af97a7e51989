//! Linked-list allocation: a list of free regions, first-fit search,
//! splitting of oversized regions, freed blocks pushed back onto the list
//! front. No coalescing of neighbouring free regions — fragmentation
//! accumulates by design of this baseline strategy.
//!
//! In the kernel the list nodes live inside the free blocks themselves
//! (16 bytes of `{size, next}`, 8-byte aligned), so every region the list
//! holds must be at least node-sized and node-aligned, and every request is
//! widened to those minima. Here the regions are tracked as `(address,
//! size)` pairs; the byte arena itself is only ever named by address.
use crate::allocator::{
    is_align, lemma_align_divides, lemma_align_pos, lemma_align_up, lemma_aligned_chain,
    lemma_mod_zero_sum, lemma_ranges_disjoint_remove, range_disjoint, ranges_disjoint,
    spec_align_up,
};
use vstd::arithmetic::power2::{lemma2_to64, pow2};
use vstd::prelude::*;

verus! {

/// Size in bytes of a free-list node header.
pub const NODE_SIZE: u64 = 16;

/// Alignment in bytes of a free-list node header.
pub const NODE_ALIGN: u64 = 8;

/// The alignment actually used for a request: at least the node alignment.
pub open spec fn ll_align(align: int) -> int {
    if align < 8 {
        8
    } else {
        align
    }
}

/// The size actually carved for a request: padded to the effective
/// alignment, and at least one node header, so the block can hold a node
/// again when it is freed.
pub open spec fn ll_size(size: int, align: int) -> int {
    let padded = spec_align_up(size, ll_align(align));
    if padded < 16 {
        16
    } else {
        padded
    }
}

/// Where an allocation from region `r` would start.
pub open spec fn region_alloc_start(r: (u64, u64), aalign: int) -> int {
    spec_align_up(r.0 as int, aalign)
}

/// A region serves an (adjusted) request if, after aligning its start, the
/// remaining space covers the request.
pub open spec fn region_fit(r: (u64, u64), asize: int, aalign: int) -> bool {
    let pad = region_alloc_start(r, aalign) - r.0;
    pad + asize <= r.1
}

/// First-fit search: the index of the first region that serves the request,
/// and the address the allocation would get.
pub open spec fn find_fit(rs: Seq<(u64, u64)>, asize: int, aalign: int) -> Option<(int, int)>
    decreases rs.len(),
{
    if rs.len() == 0 {
        None
    } else if region_fit(rs[0], asize, aalign) {
        Some((0int, region_alloc_start(rs[0], aalign)))
    } else {
        match find_fit(rs.drop_first(), asize, aalign) {
            Option::None => None,
            Option::Some((k, s)) => Some((k + 1, s)),
        }
    }
}

/// A fit at `k`, with no fit before it, is what first-fit finds.
pub proof fn lemma_find_fit_at(rs: Seq<(u64, u64)>, asize: int, aalign: int, k: int)
    requires
        0 <= k < rs.len(),
        region_fit(rs[k], asize, aalign),
        forall|j: int| 0 <= j < k ==> !region_fit(#[trigger] rs[j], asize, aalign),
    ensures
        find_fit(rs, asize, aalign) == Some((k, region_alloc_start(rs[k], aalign))),
    decreases k,
{
    if k > 0 {
        assert(!region_fit(rs[0], asize, aalign));
        let t = rs.drop_first();
        assert forall|j: int| 0 <= j < k - 1 implies !region_fit(#[trigger] t[j], asize, aalign) by {
            assert(t[j] == rs[j + 1]);
        }
        assert(t[k - 1] == rs[k]);
        lemma_find_fit_at(t, asize, aalign, k - 1);
    }
}

/// If no region serves the request, first-fit finds nothing.
pub proof fn lemma_find_fit_none(rs: Seq<(u64, u64)>, asize: int, aalign: int)
    requires
        forall|j: int| 0 <= j < rs.len() ==> !region_fit(#[trigger] rs[j], asize, aalign),
    ensures
        find_fit(rs, asize, aalign) is None,
    decreases rs.len(),
{
    if rs.len() > 0 {
        let t = rs.drop_first();
        assert forall|j: int| 0 <= j < t.len() implies !region_fit(#[trigger] t[j], asize, aalign) by {
            assert(t[j] == rs[j + 1]);
        }
        lemma_find_fit_none(t, asize, aalign);
    }
}

/// A range inside `b` is disjoint from whatever `b` is disjoint from.
pub proof fn lemma_subrange_disjoint(a: (u64, u64), b: (u64, u64), c: (u64, u64))
    requires
        b.0 <= a.0,
        a.0 + a.1 <= b.0 + b.1,
        range_disjoint(b, c),
    ensures
        range_disjoint(a, c),
{
}

/// Linked-list allocator over the window `[heap_start, heap_end)`.
/// `free_regions` is the free list in list order (head first); the ghost
/// `live` sequence records each live block's `(address, carved size)`.
pub struct LinkedListAllocator {
    pub heap_start: u64,
    pub heap_end: u64,
    pub free_regions: Vec<(u64, u64)>,
    pub live: Ghost<Seq<(u64, u64)>>,
}

impl LinkedListAllocator {
    /// A region the list may hold: inside the window, node-aligned, at
    /// least node-sized, of node-aligned size.
    pub open spec fn region_wf(self, r: (u64, u64)) -> bool {
        &&& self.heap_start <= r.0
        &&& r.0 + r.1 <= self.heap_end
        &&& r.1 >= 16
        &&& r.0 % 8 == 0
        &&& r.1 % 8 == 0
    }

    pub open spec fn wf(self) -> bool {
        &&& self.heap_start <= self.heap_end
        &&& forall|i: int|
            0 <= i < self.free_regions@.len() ==> self.region_wf(#[trigger] self.free_regions@[i])
        &&& forall|i: int| 0 <= i < self.live@.len() ==> self.region_wf(#[trigger] self.live@[i])
        &&& ranges_disjoint(self.free_regions@)
        &&& ranges_disjoint(self.live@)
        &&& forall|i: int, j: int|
            0 <= i < self.free_regions@.len() && 0 <= j < self.live@.len() ==> range_disjoint(
                #[trigger] self.free_regions@[i],
                #[trigger] self.live@[j],
            )
    }

    /// The live blocks, as `(address, size)` ranges.
    pub open spec fn live_ranges(self) -> Seq<(u64, u64)> {
        self.live@
    }

    /// An empty allocator over an empty window.
    pub fn new() -> (r: Self)
        ensures
            r.wf(),
            r.free_regions@.len() == 0,
            r.live@.len() == 0,
            r.heap_start == 0 && r.heap_end == 0,
    {
        LinkedListAllocator {
            heap_start: 0,
            heap_end: 0,
            free_regions: Vec::new(),
            live: Ghost(Seq::empty()),
        }
    }

    /// Initializes the allocator over the window `[heap_start,
    /// heap_start + heap_size)`: one free region covering the whole window.
    pub fn init(&mut self, heap_start: u64, heap_size: u64)
        requires
            heap_start + heap_size <= u64::MAX,
            heap_start % 8 == 0,
            heap_size % 8 == 0,
            heap_size >= 16,
        ensures
            final(self).wf(),
            final(self).heap_start == heap_start,
            final(self).heap_end == heap_start + heap_size,
            final(self).free_regions@ == seq![(heap_start, heap_size)],
            final(self).live@ == Seq::<(u64, u64)>::empty(),
    {
        let mut free_regions: Vec<(u64, u64)> = Vec::new();
        free_regions.push((heap_start, heap_size));
        self.heap_start = heap_start;
        self.heap_end = heap_start + heap_size;
        self.free_regions = free_regions;
        proof {
            self.live@ = Seq::empty();
        }
    }

    /// First-fit allocation: scans the list in order and takes the first
    /// region whose space, after the alignment adjustment, covers the
    /// request. A leftover tail large enough for a future node is split off
    /// and reinserted at the list front; a smaller leftover is wasted with
    /// the block, as is the part of the region skipped for alignment.
    pub fn allocate(&mut self, size: u64, align: u64) -> (r: Option<u64>)
        requires
            old(self).wf(),
            is_align(align),
        ensures
            final(self).wf(),
            final(self).heap_start == old(self).heap_start,
            final(self).heap_end == old(self).heap_end,
            r is Some <==> find_fit(
                old(self).free_regions@,
                ll_size(size as int, align as int),
                ll_align(align as int),
            ) is Some,
            r is None ==> *final(self) == *old(self),
            r matches Some(p) ==> {
                let asize = ll_size(size as int, align as int);
                let aalign = ll_align(align as int);
                &&& find_fit(old(self).free_regions@, asize, aalign) matches Some((k, s)) && {
                    &&& p == s
                    &&& 0 <= k < old(self).free_regions@.len()
                    &&& {
                        let excess = old(self).free_regions@[k].1 - (p
                            - old(self).free_regions@[k].0) - asize;
                        final(self).free_regions@ == if excess >= 16 {
                            old(self).free_regions@.remove(k).insert(
                                0,
                                ((p + asize) as u64, excess as u64),
                            )
                        } else {
                            old(self).free_regions@.remove(k)
                        }
                    }
                }
                &&& p % align == 0
                &&& old(self).heap_start <= p
                &&& p + asize <= old(self).heap_end
                &&& final(self).live@ == old(self).live@.push((p, asize as u64))
            },
            size > old(self).heap_end - old(self).heap_start ==> r is None,
    {
        proof {
            lemma_align_pos(align);
            lemma2_to64();
        }
        let a = if align < 8 { 8u64 } else { align };
        let window = self.heap_end - self.heap_start;
        let ghost aalign = ll_align(align as int);
        let ghost asize = ll_size(size as int, align as int);
        assert(a == aalign);
        let s_rem = size % a;
        let s_pad = if s_rem == 0 { 0u64 } else { a - s_rem };
        if size > window || s_pad > u64::MAX - size {
            // The adjusted size exceeds the window (or even the address
            // space): no region inside the window can serve it.
            proof {
                assert(asize > self.heap_end - self.heap_start);
                assert forall|j: int| 0 <= j < self.free_regions@.len() implies !region_fit(
                    #[trigger] self.free_regions@[j],
                    asize,
                    aalign,
                ) by {
                    let rg = self.free_regions@[j];
                    lemma_align_up(rg.0 as int, aalign);
                }
                lemma_find_fit_none(self.free_regions@, asize, aalign);
            }
            return None;
        }
        let padded = size + s_pad;
        let bsize = if padded < 16 { 16u64 } else { padded };
        assert(bsize == asize);
        proof {
            if align < 8 {
                assert(pow2(3) == 8) by {
                    lemma2_to64();
                }
            }
        }
        let mut k: usize = 0;
        while k < self.free_regions.len()
            invariant
                *self == *old(self),
                self.wf(),
                is_align(align),
                is_align(a),
                align >= 1,
                a >= 8,
                align <= a,
                a == aalign,
                aalign == ll_align(align as int),
                asize == ll_size(size as int, align as int),
                bsize == asize,
                asize >= 16,
                k <= self.free_regions@.len(),
                forall|j: int|
                    0 <= j < k ==> !region_fit(#[trigger] self.free_regions@[j], asize, aalign),
            decreases self.free_regions@.len() - k,
        {
            let rg = self.free_regions[k];
            let rem = rg.0 % a;
            let pad = if rem == 0 { 0u64 } else { a - rem };
            proof {
                assert(pad == region_alloc_start(rg, aalign) - rg.0);
            }
            if pad <= rg.1 && bsize <= rg.1 - pad {
                let excess = rg.1 - pad - bsize;
                let alloc_start = rg.0 + pad;
                proof {
                    lemma_find_fit_at(self.free_regions@, asize, aalign, k as int);
                    lemma_align_up(rg.0 as int, aalign);
                    // The result is aligned for the caller: it is
                    // `aalign`-aligned and `align` divides `aalign`.
                    lemma_align_divides(align, a);
                    lemma_aligned_chain(alloc_start as int, a as int, align as int);
                    // Both pieces of the carved region keep node
                    // alignment: the node alignment divides `aalign`.
                    assert(is_align(8u64)) by {
                        assert(pow2(3) == 8) by {
                            lemma2_to64();
                        }
                    }
                    lemma_align_divides(8u64, a);
                    lemma_aligned_chain(alloc_start as int, a as int, 8);
                    lemma_align_up(size as int, aalign);
                    if spec_align_up(size as int, aalign) >= 16 {
                        assert(asize == spec_align_up(size as int, aalign));
                        assert(asize % (a as int) == 0);
                        lemma_aligned_chain(asize, a as int, 8);
                    } else {
                        assert(asize == 16);
                    }
                    lemma_mod_zero_sum(alloc_start as int, rg.0 as int, 8);
                    lemma_mod_zero_sum(rg.1 as int, (pad + bsize) as int, 8);
                    assert((pad + bsize) % 8 == 0) by {
                        lemma_mod_zero_sum(pad as int, bsize as int, 8);
                    }
                }
                let ghost pre = *self;
                self.free_regions.remove(k);
                if excess >= 16 {
                    // the tail can hold a node of its own: reinsert it
                    self.free_regions.insert(0, (alloc_start + bsize, excess));
                }
                // a smaller tail cannot hold a node and is wasted with the
                // block, as is the alignment gap at the front
                proof {
                    self.live@ = self.live@.push((alloc_start, bsize));
                    lemma_ll_alloc_wf(pre, *self, k as int, alloc_start, bsize, excess);
                }
                return Some(alloc_start);
            }
            k = k + 1;
        }
        proof {
            lemma_find_fit_none(self.free_regions@, asize, aalign);
        }
        None
    }

    /// Frees one live block by pushing it, as a free region, onto the list
    /// front. Neighbouring free regions are not merged.
    pub fn deallocate(&mut self, ptr: u64, size: u64, align: u64)
        requires
            old(self).wf(),
            is_align(align),
            exists|i: int|
                0 <= i < old(self).live@.len() && (#[trigger] old(self).live@[i]).0 == ptr
                    && old(self).live@[i].1 == ll_size(size as int, align as int),
        ensures
            final(self).wf(),
            final(self).heap_start == old(self).heap_start,
            final(self).heap_end == old(self).heap_end,
            final(self).free_regions@ == old(self).free_regions@.insert(
                0,
                (ptr, ll_size(size as int, align as int) as u64),
            ),
            exists|i: int|
                0 <= i < old(self).live@.len() && (#[trigger] old(self).live@[i]) == (
                ptr,
                ll_size(size as int, align as int) as u64,
                ) && final(self).live@ == old(self).live@.remove(i),
    {
        proof {
            lemma_align_pos(align);
        }
        let a = if align < 8 { 8u64 } else { align };
        let ghost wit = choose|i: int|
            0 <= i < self.live@.len() && (#[trigger] self.live@[i]).0 == ptr && self.live@[i].1
                == ll_size(size as int, align as int);
        let s_rem = size % a;
        let s_pad = if s_rem == 0 { 0u64 } else { a - s_rem };
        assert(s_pad <= u64::MAX - size) by {
            assert(self.live@[wit].1 == ll_size(size as int, align as int));
        }
        let padded = size + s_pad;
        let bsize = if padded < 16 { 16u64 } else { padded };
        assert(bsize == ll_size(size as int, align as int));
        let ghost pre = *self;
        self.free_regions.insert(0, (ptr, bsize));
        proof {
            lemma_ranges_disjoint_remove(self.live@, wit);
            self.live@ = self.live@.remove(wit);
            lemma_ll_dealloc_wf(pre, *self, wit, ptr, bsize);
        }
    }
}

/// Well-formedness is preserved by carving `(p, asize)` out of free region
/// `k`, reinserting the tail `(p + asize, excess)` when it can hold a node
/// (a smaller tail is wasted, leaving the tracked ranges).
proof fn lemma_ll_alloc_wf(
    pre: LinkedListAllocator,
    post: LinkedListAllocator,
    k: int,
    p: u64,
    asize: u64,
    excess: u64,
)
    requires
        pre.wf(),
        0 <= k < pre.free_regions@.len(),
        post.heap_start == pre.heap_start,
        post.heap_end == pre.heap_end,
        pre.free_regions@[k].0 <= p,
        p + asize + excess == pre.free_regions@[k].0 + pre.free_regions@[k].1,
        asize >= 16,
        asize % 8 == 0,
        p % 8 == 0,
        excess % 8 == 0,
        post.live@ == pre.live@.push((p, asize)),
        post.free_regions@ == if excess >= 16 {
            pre.free_regions@.remove(k).insert(0, ((p + asize) as u64, excess))
        } else {
            pre.free_regions@.remove(k)
        },
    ensures
        post.wf(),
{
    let old_region = pre.free_regions@[k];
    let x = (p, asize);
    let y = ((p + asize) as u64, excess);
    let removed = pre.free_regions@.remove(k);
    lemma_ranges_disjoint_remove(pre.free_regions@, k);
    // Every remaining free region and every old live block is disjoint from
    // the carved region, hence from both its pieces.
    assert forall|i: int| 0 <= i < removed.len() implies range_disjoint(
        old_region,
        #[trigger] removed[i],
    ) by {
        let i0 = if i < k {
            i
        } else {
            i + 1
        };
        assert(removed[i] == pre.free_regions@[i0]);
    }
    assert(forall|i: int|
        0 <= i < pre.live@.len() ==> range_disjoint(old_region, #[trigger] pre.live@[i]));
    assert forall|i: int, j: int| 0 <= i < j < post.live@.len() implies range_disjoint(
        #[trigger] post.live@[i],
        #[trigger] post.live@[j],
    ) by {
        if j == post.live@.len() - 1 {
            lemma_subrange_disjoint(x, old_region, pre.live@[i]);
        }
    }
    assert forall|i: int, j: int|
        0 <= i < post.free_regions@.len() && 0 <= j < post.live@.len() implies range_disjoint(
        #[trigger] post.free_regions@[i],
        #[trigger] post.live@[j],
    ) by {
        let fr = post.free_regions@[i];
        let lv = post.live@[j];
        if excess >= 16 && i == 0 {
            // the reinserted tail, against old live blocks or the new block
            if j == post.live@.len() - 1 {
                assert(range_disjoint(y, x));
            } else {
                lemma_subrange_disjoint(y, old_region, pre.live@[j]);
            }
        } else {
            let i1 = if excess >= 16 {
                i - 1
            } else {
                i
            };
            assert(fr == removed[i1]);
            if j == post.live@.len() - 1 {
                lemma_subrange_disjoint(x, old_region, fr);
                assert(range_disjoint(fr, x));
            } else {
                let i0 = if i1 < k {
                    i1
                } else {
                    i1 + 1
                };
                assert(fr == pre.free_regions@[i0]);
            }
        }
    }
    assert forall|i: int, j: int| 0 <= i < j < post.free_regions@.len() implies range_disjoint(
        #[trigger] post.free_regions@[i],
        #[trigger] post.free_regions@[j],
    ) by {
        if excess >= 16 {
            if i == 0 {
                lemma_subrange_disjoint(y, old_region, removed[j - 1]);
            } else {
                assert(post.free_regions@[i] == removed[i - 1]);
                assert(post.free_regions@[j] == removed[j - 1]);
            }
        } else {
            assert(post.free_regions@[i] == removed[i]);
            assert(post.free_regions@[j] == removed[j]);
        }
    }
    assert forall|i: int| 0 <= i < post.free_regions@.len() implies post.region_wf(
        #[trigger] post.free_regions@[i],
    ) by {
        if excess >= 16 && i == 0 {
            assert(post.free_regions@[0] == y);
        } else {
            let i1 = if excess >= 16 {
                i - 1
            } else {
                i
            };
            let i0 = if i1 < k {
                i1
            } else {
                i1 + 1
            };
            assert(post.free_regions@[i] == pre.free_regions@[i0]);
        }
    }
    assert forall|i: int| 0 <= i < post.live@.len() implies post.region_wf(
        #[trigger] post.live@[i],
    ) by {
        if i < pre.live@.len() {
            assert(post.live@[i] == pre.live@[i]);
        }
    }
}

/// Well-formedness is preserved by moving live block `wit` onto the free
/// list front.
proof fn lemma_ll_dealloc_wf(
    pre: LinkedListAllocator,
    post: LinkedListAllocator,
    wit: int,
    ptr: u64,
    bsize: u64,
)
    requires
        pre.wf(),
        0 <= wit < pre.live@.len(),
        pre.live@[wit] == (ptr, bsize),
        post.heap_start == pre.heap_start,
        post.heap_end == pre.heap_end,
        post.free_regions@ == pre.free_regions@.insert(0, (ptr, bsize)),
        post.live@ == pre.live@.remove(wit),
    ensures
        post.wf(),
{
    let x = (ptr, bsize);
    lemma_ranges_disjoint_remove(pre.live@, wit);
    assert forall|i: int, j: int| 0 <= i < j < post.free_regions@.len() implies range_disjoint(
        #[trigger] post.free_regions@[i],
        #[trigger] post.free_regions@[j],
    ) by {
        if i == 0 {
            assert(post.free_regions@[j] == pre.free_regions@[j - 1]);
            assert(range_disjoint(pre.free_regions@[j - 1], pre.live@[wit]));
        } else {
            assert(post.free_regions@[i] == pre.free_regions@[i - 1]);
            assert(post.free_regions@[j] == pre.free_regions@[j - 1]);
        }
    }
    assert forall|i: int, j: int|
        0 <= i < post.free_regions@.len() && 0 <= j < post.live@.len() implies range_disjoint(
        #[trigger] post.free_regions@[i],
        #[trigger] post.live@[j],
    ) by {
        let j0 = if j < wit {
            j
        } else {
            j + 1
        };
        assert(post.live@[j] == pre.live@[j0]);
        if i == 0 {
            assert(range_disjoint(pre.live@[wit], pre.live@[j0]));
        } else {
            assert(post.free_regions@[i] == pre.free_regions@[i - 1]);
        }
    }
    assert forall|i: int| 0 <= i < post.free_regions@.len() implies post.region_wf(
        #[trigger] post.free_regions@[i],
    ) by {
        if i > 0 {
            assert(post.free_regions@[i] == pre.free_regions@[i - 1]);
        }
    }
    assert forall|i: int| 0 <= i < post.live@.len() implies post.region_wf(
        #[trigger] post.live@[i],
    ) by {
        let i0 = if i < wit {
            i
        } else {
            i + 1
        };
        assert(post.live@[i] == pre.live@[i0]);
    }
}

/// Law: no two live allocations of a well-formed linked-list allocator
/// overlap, nor does any overlap a free region.
pub proof fn lemma_ll_live_disjoint(a: LinkedListAllocator)
    requires
        a.wf(),
    ensures
        ranges_disjoint(a.live_ranges()),
        forall|i: int, j: int|
            0 <= i < a.free_regions@.len() && 0 <= j < a.live_ranges().len() ==> range_disjoint(
                #[trigger] a.free_regions@[i],
                #[trigger] a.live_ranges()[j],
            ),
{
}

/// Law: freeing a block and then allocating the same size and alignment
/// with no traffic in between returns the identical address. Deallocation
/// puts `(p, carved size)` at the list front, and the very next first-fit
/// search accepts that head region exactly, with no padding and no excess.
pub proof fn lemma_ll_free_then_alloc(rs: Seq<(u64, u64)>, p: u64, size: u64, align: u64)
    requires
        is_align(align),
        p as int % ll_align(align as int) == 0,
        ll_size(size as int, align as int) <= u64::MAX,
    ensures
        find_fit(
            rs.insert(0, (p, ll_size(size as int, align as int) as u64)),
            ll_size(size as int, align as int),
            ll_align(align as int),
        ) == Some((0int, p as int)),
{
    lemma_align_pos(align);
    let aalign = ll_align(align as int);
    let asize = ll_size(size as int, align as int);
    let head = (p, asize as u64);
    lemma_align_up(size as int, aalign);
    assert(region_alloc_start(head, aalign) == p);
    assert(region_fit(head, asize, aalign));
}

} // verus!
