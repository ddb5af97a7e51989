//! Fixed-size-block allocation: a ladder of power-of-two size classes
//! (8 … 2048 bytes), each owning a free list of class-sized, class-aligned
//! blocks, over a bump fallback that carves fresh class-sized blocks when a
//! list is empty and serves any request larger than the top class directly.
//! Freed class blocks go back onto their class list, never to the fallback:
//! bounded per-class fragmentation in exchange for O(1) steady-state
//! allocation.
use crate::allocator::bump::BumpAllocator;
use crate::allocator::{
    eff_size, is_align, lemma_align_divides, lemma_aligned_chain, lemma_contains_after_push,
    lemma_contains_after_remove, range_disjoint, ranges_disjoint, spec_align_up,
};
use vstd::arithmetic::power2::{lemma2_to64, pow2};
use vstd::prelude::*;
use vstd::std_specs::vec::vec_index_mut;

verus! {

/// Number of size classes.
pub const CLASS_COUNT: usize = 9;

/// Block size of class `c`: 8, 16, …, 2048.
pub open spec fn class_size(c: int) -> int {
    if c == 0 {
        8
    } else if c == 1 {
        16
    } else if c == 2 {
        32
    } else if c == 3 {
        64
    } else if c == 4 {
        128
    } else if c == 5 {
        256
    } else if c == 6 {
        512
    } else if c == 7 {
        1024
    } else {
        2048
    }
}

/// The class serving a request: the smallest class at least `max(size,
/// align)` — a power-of-two class satisfies any alignment up to its size.
/// `None` for requests above the top class, which bypass the ladder.
pub open spec fn spec_class_of(size: int, align: int) -> Option<int> {
    let need = if size > align {
        size
    } else {
        align
    };
    if need <= 8 {
        Some(0int)
    } else if need <= 16 {
        Some(1int)
    } else if need <= 32 {
        Some(2int)
    } else if need <= 64 {
        Some(3int)
    } else if need <= 128 {
        Some(4int)
    } else if need <= 256 {
        Some(5int)
    } else if need <= 512 {
        Some(6int)
    } else if need <= 1024 {
        Some(7int)
    } else if need <= 2048 {
        Some(8int)
    } else {
        None
    }
}

/// The byte range a live request occupies: its whole class block, or, above
/// the top class, the effective size carved from the fallback.
pub open spec fn fsb_range(rec: (u64, u64, u64)) -> (u64, u64) {
    match spec_class_of(rec.1 as int, rec.2 as int) {
        Option::Some(c) => (rec.0, class_size(c) as u64),
        Option::None => (rec.0, eff_size(rec.1)),
    }
}

/// Class sizes are powers of two.
pub proof fn lemma_class_size_align(c: int)
    requires
        0 <= c < 9,
    ensures
        is_align(class_size(c) as u64),
        class_size(c) >= 8,
{
    lemma2_to64();
    assert(pow2((c + 3) as nat) == class_size(c));
}

/// Blocks in class lists, per `blocks_count`, summed over classes below `c`.
pub open spec fn blocks_count(lists: Seq<Vec<u64>>, c: int) -> int
    decreases c,
{
    if c <= 0 {
        0
    } else {
        blocks_count(lists, c - 1) + lists[c - 1]@.len()
    }
}

/// Changing only class `c` changes the total by that list's length change.
proof fn lemma_blocks_count_update(l1: Seq<Vec<u64>>, l2: Seq<Vec<u64>>, c: int, upto: int)
    requires
        l1.len() == l2.len(),
        0 <= c < l1.len(),
        forall|d: int| 0 <= d < l1.len() && d != c ==> (#[trigger] l2[d])@ == l1[d]@,
        0 <= upto <= l1.len(),
    ensures
        upto <= c ==> blocks_count(l2, upto) == blocks_count(l1, upto),
        c < upto ==> blocks_count(l2, upto) == blocks_count(l1, upto) + l2[c]@.len() - l1[c]@.len(),
    decreases upto,
{
    if upto > 0 {
        lemma_blocks_count_update(l1, l2, c, upto - 1);
    }
}

/// Every class list is empty when the total is zero.
proof fn lemma_blocks_count_zero(lists: Seq<Vec<u64>>, upto: int)
    requires
        0 <= upto <= lists.len(),
        forall|d: int| 0 <= d < lists.len() ==> (#[trigger] lists[d])@.len() >= 0,
        blocks_count(lists, upto) == 0,
    ensures
        forall|d: int| 0 <= d < upto ==> (#[trigger] lists[d])@.len() == 0,
    decreases upto,
{
    if upto > 0 {
        assert(blocks_count(lists, upto - 1) >= 0) by {
            lemma_blocks_count_nonneg(lists, upto - 1);
        }
        lemma_blocks_count_zero(lists, upto - 1);
    }
}

proof fn lemma_blocks_count_nonneg(lists: Seq<Vec<u64>>, upto: int)
    requires
        0 <= upto <= lists.len(),
    ensures
        blocks_count(lists, upto) >= 0,
    decreases upto,
{
    if upto > 0 {
        lemma_blocks_count_nonneg(lists, upto - 1);
    }
}

/// Fixed-size-block allocator: one free list per class, a bump fallback,
/// and a ghost record of the live requests `(address, size, align)`.
pub struct FixedSizeBlockAllocator {
    pub lists: Vec<Vec<u64>>,
    pub fallback: BumpAllocator,
    pub live: Ghost<Seq<(u64, u64, u64)>>,
}

impl FixedSizeBlockAllocator {
    pub open spec fn heap_start(self) -> u64 {
        self.fallback.heap_start
    }

    pub open spec fn heap_end(self) -> u64 {
        self.fallback.heap_end
    }

    /// The byte ranges of the live requests.
    pub open spec fn live_block_ranges(self) -> Seq<(u64, u64)> {
        self.live@.map_values(|rec: (u64, u64, u64)| fsb_range(rec))
    }

    pub open spec fn wf(self) -> bool {
        &&& self.fallback.wf()
        &&& self.lists@.len() == 9
        &&& forall|c: int, k: int|
            0 <= c < 9 && 0 <= k < self.lists@[c]@.len() ==> {
                let b = #[trigger] self.lists@[c]@[k];
                &&& b % (class_size(c) as u64) == 0
                &&& self.fallback.heap_start <= b
                &&& b + class_size(c) <= self.fallback.next
            }
        &&& forall|c: int, k: int, d: int, m: int|
            #![trigger self.lists@[c]@[k], self.lists@[d]@[m]]
            0 <= c < 9 && 0 <= k < self.lists@[c]@.len() && 0 <= d < 9 && 0 <= m
                < self.lists@[d]@.len() && (c != d || k != m) ==> range_disjoint(
                (self.lists@[c]@[k], class_size(c) as u64),
                (self.lists@[d]@[m], class_size(d) as u64),
            )
        &&& forall|j: int|
            0 <= j < self.live@.len() ==> {
                let rg = fsb_range(#[trigger] self.live@[j]);
                &&& self.fallback.heap_start <= rg.0
                &&& rg.0 + rg.1 <= self.fallback.next
                &&& rg.1 >= 1
                &&& (spec_class_of(self.live@[j].1 as int, self.live@[j].2 as int) matches Some(c)
                    ==> rg.0 % (class_size(c) as u64) == 0)
                &&& (spec_class_of(self.live@[j].1 as int, self.live@[j].2 as int) is None
                    ==> self.fallback.live@.contains((self.live@[j].0, eff_size(self.live@[j].1))))
            }
        &&& forall|i: int, j: int|
            0 <= i < j < self.live@.len() ==> range_disjoint(
                fsb_range(#[trigger] self.live@[i]),
                fsb_range(#[trigger] self.live@[j]),
            )
        &&& forall|c: int, k: int, j: int|
            #![trigger self.lists@[c]@[k], self.live@[j]]
            0 <= c < 9 && 0 <= k < self.lists@[c]@.len() && 0 <= j < self.live@.len()
                ==> range_disjoint(
                (self.lists@[c]@[k], class_size(c) as u64),
                fsb_range(self.live@[j]),
            )
        &&& self.fallback.allocations >= blocks_count(self.lists@, 9) + self.live@.len()
    }

    /// An allocator over the window `[heap_start, heap_start + heap_size)`
    /// with every class list empty and the fallback covering the window.
    pub fn new(heap_start: u64, heap_size: u64) -> (r: Self)
        requires
            heap_start + heap_size <= u64::MAX,
        ensures
            r.wf(),
            r.heap_start() == heap_start,
            r.heap_end() == heap_start + heap_size,
            r.fallback.next == heap_start,
            r.live@ == Seq::<(u64, u64, u64)>::empty(),
            forall|c: int| 0 <= c < 9 ==> (#[trigger] r.lists@[c])@.len() == 0,
    {
        let mut lists: Vec<Vec<u64>> = Vec::new();
        let mut c: usize = 0;
        while c < CLASS_COUNT
            invariant
                c == lists@.len(),
                c <= 9,
                forall|d: int| 0 <= d < c ==> (#[trigger] lists@[d])@.len() == 0,
            decreases 9 - c,
        {
            lists.push(Vec::new());
            c = c + 1;
        }
        let mut fallback = BumpAllocator::new();
        fallback.init(heap_start, heap_size);
        let r = FixedSizeBlockAllocator { lists, fallback, live: Ghost(Seq::empty()) };
        proof {
            lemma_blocks_count_zero_init(r.lists@, 9);
        }
        r
    }

    /// Serves a request: pop from the class's free list; if the list is
    /// empty, carve one class-sized, class-aligned block from the fallback;
    /// above the top class, pass the request to the fallback as it is.
    pub fn allocate(&mut self, size: u64, align: u64) -> (r: Option<u64>)
        requires
            old(self).wf(),
            is_align(align),
        ensures
            final(self).wf(),
            final(self).heap_start() == old(self).heap_start(),
            final(self).heap_end() == old(self).heap_end(),
            r matches Some(p) ==> {
                &&& p % align == 0
                &&& old(self).heap_start() <= p
                &&& p + eff_size(size) <= old(self).heap_end()
                &&& final(self).live@ == old(self).live@.push((p, size, align))
            },
            r is None ==> *final(self) == *old(self),
            // Warm class list: serve from the list top, fallback untouched.
            (spec_class_of(size as int, align as int) matches Some(c) && old(self).lists@[c]@.len()
                > 0) ==> {
                let c = spec_class_of(size as int, align as int)->Some_0;
                &&& r == Some(old(self).lists@[c]@.last())
                &&& final(self).fallback == old(self).fallback
                &&& final(self).lists@[c]@ == old(self).lists@[c]@.drop_last()
                &&& forall|d: int|
                    0 <= d < 9 && d != c ==> (#[trigger] final(self).lists@[d])@ == old(
                        self,
                    ).lists@[d]@
            },
            // Empty class list: one class-sized block is carved from the
            // fallback, the lists stay as they were.
            (spec_class_of(size as int, align as int) matches Some(c) && old(self).lists@[c]@.len()
                == 0) ==> {
                let c = spec_class_of(size as int, align as int)->Some_0;
                &&& (r is Some <==> old(self).fallback.fits(
                    class_size(c) as u64,
                    class_size(c) as u64,
                ))
                &&& forall|d: int|
                    0 <= d < 9 ==> (#[trigger] final(self).lists@[d])@ == old(self).lists@[d]@
                &&& (r matches Some(p) ==> {
                    &&& p == spec_align_up(old(self).fallback.next as int, class_size(c))
                    &&& old(self).fallback.next <= p
                    &&& final(self).fallback.next == p + class_size(c)
                    &&& final(self).fallback.allocations == old(self).fallback.allocations + 1
                    &&& final(self).fallback.live@ == old(self).fallback.live@.push(
                        (p, class_size(c) as u64),
                    )
                })
            },
            // Above the top class: the fallback serves the request directly.
            spec_class_of(size as int, align as int) is None ==> {
                &&& (r is Some <==> old(self).fallback.fits(size, align))
                &&& forall|d: int|
                    0 <= d < 9 ==> (#[trigger] final(self).lists@[d])@ == old(self).lists@[d]@
                &&& (r matches Some(p) ==> {
                    &&& p == spec_align_up(old(self).fallback.next as int, align as int)
                    &&& old(self).fallback.next <= p
                    &&& final(self).fallback.next == p + eff_size(size)
                    &&& final(self).fallback.allocations == old(self).fallback.allocations + 1
                    &&& final(self).fallback.live@ == old(self).fallback.live@.push(
                        (p, eff_size(size)),
                    )
                })
            },
            size > old(self).heap_end() - old(self).heap_start() ==> r is None,
    {
        proof {
            crate::allocator::lemma_align_pos(align);
        }
        let c_opt = class_index(size, align);
        match c_opt {
            Option::Some(c) => {
                let ghost pre = *self;
                let list_len = self.lists[c].len();
                if list_len > 0 {
                    let lref = vec_index_mut(&mut self.lists, c);
                    let p = match lref.pop() {
                        Option::Some(p) => p,
                        Option::None => {
                            proof {
                                assert(false);
                            }
                            return None;
                        },
                    };
                    proof {
                        self.live@ = self.live@.push((p, size, align));
                        lemma_fsb_pop_wf(pre, *self, c as int, p, size, align);
                        lemma_class_size_align(c as int);
                        lemma_align_divides(align, class_size(c as int) as u64);
                        lemma_aligned_chain(p as int, class_size(c as int), align as int);
                    }
                    Some(p)
                } else {
                    let bs = block_size(c);
                    proof {
                        lemma_class_size_align(c as int);
                    }
                    let ghost prefb = self.fallback;
                    let res = self.fallback.allocate(bs, bs);
                    match res {
                        Option::Some(p) => {
                            proof {
                                self.live@ = self.live@.push((p, size, align));
                                lemma_fsb_carve_wf(pre, *self, c as int, p, size, align);
                                lemma_align_divides(align, class_size(c as int) as u64);
                                lemma_aligned_chain(p as int, class_size(c as int), align as int);
                            }
                            Some(p)
                        },
                        Option::None => None,
                    }
                }
            },
            Option::None => {
                let ghost pre = *self;
                let res = self.fallback.allocate(size, align);
                match res {
                    Option::Some(p) => {
                        proof {
                            self.live@ = self.live@.push((p, size, align));
                            lemma_fsb_oversize_wf(pre, *self, p, size, align);
                        }
                        Some(p)
                    },
                    Option::None => None,
                }
            },
        }
    }

    /// Returns a block freed with the identical size and alignment it was
    /// allocated with: class blocks go back onto their class's list, never
    /// to the fallback; oversize blocks are returned to the fallback.
    pub fn deallocate(&mut self, ptr: u64, size: u64, align: u64)
        requires
            old(self).wf(),
            old(self).live@.contains((ptr, size, align)),
        ensures
            final(self).wf(),
            final(self).heap_start() == old(self).heap_start(),
            final(self).heap_end() == old(self).heap_end(),
            exists|i: int|
                0 <= i < old(self).live@.len() && (#[trigger] old(self).live@[i]) == (
                ptr,
                size,
                align,
                ) && final(self).live@ == old(self).live@.remove(i),
            spec_class_of(size as int, align as int) matches Some(c) ==> {
                &&& final(self).fallback == old(self).fallback
                &&& final(self).lists@[c]@ == old(self).lists@[c]@.push(ptr)
                &&& forall|d: int|
                    0 <= d < 9 && d != c ==> (#[trigger] final(self).lists@[d])@ == old(
                        self,
                    ).lists@[d]@
            },
            spec_class_of(size as int, align as int) is None ==> {
                &&& final(self).fallback.allocations == old(self).fallback.allocations - 1
                &&& forall|d: int|
                    0 <= d < 9 ==> (#[trigger] final(self).lists@[d])@ == old(self).lists@[d]@
            },
    {
        let ghost wit = choose|i: int|
            0 <= i < self.live@.len() && (#[trigger] self.live@[i]) == (ptr, size, align);
        let c_opt = class_index(size, align);
        match c_opt {
            Option::Some(c) => {
                let ghost pre = *self;
                let lref = vec_index_mut(&mut self.lists, c);
                lref.push(ptr);
                proof {
                    self.live@ = self.live@.remove(wit);
                    lemma_fsb_push_wf(pre, *self, c as int, wit, ptr, size, align);
                }
            },
            Option::None => {
                let ghost pre = *self;
                proof {
                    assert(pre.fallback.live@.contains((ptr, eff_size(size))));
                }
                self.fallback.deallocate(ptr, size, align);
                proof {
                    self.live@ = self.live@.remove(wit);
                    lemma_fsb_free_oversize_wf(pre, *self, wit, ptr, size, align);
                }
            },
        }
    }
}

/// Block size of class `c`.
pub fn block_size(c: usize) -> (s: u64)
    requires
        c < 9,
    ensures
        s == class_size(c as int),
{
    if c == 0 {
        8
    } else if c == 1 {
        16
    } else if c == 2 {
        32
    } else if c == 3 {
        64
    } else if c == 4 {
        128
    } else if c == 5 {
        256
    } else if c == 6 {
        512
    } else if c == 7 {
        1024
    } else {
        2048
    }
}

/// The class serving a request, or `None` above the top class.
pub fn class_index(size: u64, align: u64) -> (r: Option<usize>)
    ensures
        r matches Some(c) ==> c < 9 && Some(c as int) == spec_class_of(size as int, align as int),
        r is None <==> spec_class_of(size as int, align as int) is None,
{
    let need = if size > align {
        size
    } else {
        align
    };
    if need <= 8 {
        Some(0)
    } else if need <= 16 {
        Some(1)
    } else if need <= 32 {
        Some(2)
    } else if need <= 64 {
        Some(3)
    } else if need <= 128 {
        Some(4)
    } else if need <= 256 {
        Some(5)
    } else if need <= 512 {
        Some(6)
    } else if need <= 1024 {
        Some(7)
    } else if need <= 2048 {
        Some(8)
    } else {
        None
    }
}

proof fn lemma_blocks_count_zero_init(lists: Seq<Vec<u64>>, upto: int)
    requires
        0 <= upto <= lists.len(),
        forall|d: int| 0 <= d < lists.len() ==> (#[trigger] lists[d])@.len() == 0,
    ensures
        blocks_count(lists, upto) == 0,
    decreases upto,
{
    if upto > 0 {
        lemma_blocks_count_zero_init(lists, upto - 1);
    }
}

/// Popping a block from a warm class list preserves well-formedness: the
/// block's range moves unchanged from the list to the live records.
proof fn lemma_fsb_pop_wf(
    pre: FixedSizeBlockAllocator,
    post: FixedSizeBlockAllocator,
    c: int,
    p: u64,
    size: u64,
    align: u64,
)
    requires
        pre.wf(),
        0 <= c < 9,
        spec_class_of(size as int, align as int) == Some(c),
        pre.lists@[c]@.len() > 0,
        p == pre.lists@[c]@.last(),
        post.fallback == pre.fallback,
        post.lists@ == pre.lists@.update(c, post.lists@[c]),
        post.lists@[c]@ == pre.lists@[c]@.drop_last(),
        post.live@ == pre.live@.push((p, size, align)),
    ensures
        post.wf(),
{
    let kk = pre.lists@[c]@.len() - 1;
    assert(fsb_range((p, size, align)) == (p, class_size(c) as u64));
    assert forall|d: int, m: int|
        0 <= d < 9 && 0 <= m < post.lists@[d]@.len() implies post.lists@[d]@[m]
        == pre.lists@[d]@[m] by {}
    lemma_blocks_count_update(pre.lists@, post.lists@, c, 9);
    assert(blocks_count(post.lists@, 9) == blocks_count(pre.lists@, 9) - 1);
    assert forall|j: int| 0 <= j < post.live@.len() implies {
        let rg = fsb_range(#[trigger] post.live@[j]);
        &&& post.fallback.heap_start <= rg.0
        &&& rg.0 + rg.1 <= post.fallback.next
        &&& rg.1 >= 1
        &&& (spec_class_of(post.live@[j].1 as int, post.live@[j].2 as int) matches Some(cc)
            ==> rg.0 % (class_size(cc) as u64) == 0)
        &&& (spec_class_of(post.live@[j].1 as int, post.live@[j].2 as int) is None
            ==> post.fallback.live@.contains((post.live@[j].0, eff_size(post.live@[j].1))))
    } by {
        if j < pre.live@.len() {
            assert(post.live@[j] == pre.live@[j]);
        } else {
            assert(post.live@[j] == (p, size, align));
            assert(pre.lists@[c]@[kk] == p);
        }
    }
    assert forall|i: int, j: int| 0 <= i < j < post.live@.len() implies range_disjoint(
        fsb_range(#[trigger] post.live@[i]),
        fsb_range(#[trigger] post.live@[j]),
    ) by {
        if j == post.live@.len() - 1 {
            assert(pre.live@[i] == post.live@[i]);
            assert(pre.lists@[c]@[kk] == p);
        }
    }
    assert forall|d: int, m: int, j: int|
        #![trigger post.lists@[d]@[m], post.live@[j]]
        0 <= d < 9 && 0 <= m < post.lists@[d]@.len() && 0 <= j < post.live@.len()
        implies range_disjoint(
        (post.lists@[d]@[m], class_size(d) as u64),
        fsb_range(post.live@[j]),
    ) by {
        assert(post.lists@[d]@[m] == pre.lists@[d]@[m]);
        if j == post.live@.len() - 1 {
            assert(pre.lists@[c]@[kk] == p);
            assert(d != c || m != kk);
        } else {
            assert(post.live@[j] == pre.live@[j]);
        }
    }
}

/// Carving a fresh class block from the fallback preserves
/// well-formedness: the new block lies above everything already carved.
proof fn lemma_fsb_carve_wf(
    pre: FixedSizeBlockAllocator,
    post: FixedSizeBlockAllocator,
    c: int,
    p: u64,
    size: u64,
    align: u64,
)
    requires
        pre.wf(),
        0 <= c < 9,
        spec_class_of(size as int, align as int) == Some(c),
        post.lists@ == pre.lists@,
        post.live@ == pre.live@.push((p, size, align)),
        post.fallback.wf(),
        post.fallback.heap_start == pre.fallback.heap_start,
        post.fallback.heap_end == pre.fallback.heap_end,
        pre.fallback.next <= p,
        p % (class_size(c) as u64) == 0,
        pre.fallback.heap_start <= p,
        post.fallback.next == p + class_size(c),
        post.fallback.allocations == pre.fallback.allocations + 1,
        post.fallback.live@ == pre.fallback.live@.push((p, class_size(c) as u64)),
    ensures
        post.wf(),
{
    assert(fsb_range((p, size, align)) == (p, class_size(c) as u64));
    lemma_blocks_count_nonneg(pre.lists@, 9);
    assert forall|j: int| 0 <= j < post.live@.len() implies {
        let rg = fsb_range(#[trigger] post.live@[j]);
        &&& post.fallback.heap_start <= rg.0
        &&& rg.0 + rg.1 <= post.fallback.next
        &&& rg.1 >= 1
        &&& (spec_class_of(post.live@[j].1 as int, post.live@[j].2 as int) matches Some(cc)
            ==> rg.0 % (class_size(cc) as u64) == 0)
        &&& (spec_class_of(post.live@[j].1 as int, post.live@[j].2 as int) is None
            ==> post.fallback.live@.contains((post.live@[j].0, eff_size(post.live@[j].1))))
    } by {
        if j < pre.live@.len() {
            assert(post.live@[j] == pre.live@[j]);
            if spec_class_of(pre.live@[j].1 as int, pre.live@[j].2 as int) is None {
                lemma_contains_after_push(
                    pre.fallback.live@,
                    (p, class_size(c) as u64),
                    (pre.live@[j].0, eff_size(pre.live@[j].1)),
                );
            }
        }
    }
    assert forall|i: int, j: int| 0 <= i < j < post.live@.len() implies range_disjoint(
        fsb_range(#[trigger] post.live@[i]),
        fsb_range(#[trigger] post.live@[j]),
    ) by {
        if j == post.live@.len() - 1 {
            assert(post.live@[i] == pre.live@[i]);
        }
    }
    assert forall|d: int, m: int, j: int|
        #![trigger post.lists@[d]@[m], post.live@[j]]
        0 <= d < 9 && 0 <= m < post.lists@[d]@.len() && 0 <= j < post.live@.len()
        implies range_disjoint(
        (post.lists@[d]@[m], class_size(d) as u64),
        fsb_range(post.live@[j]),
    ) by {
        if j == post.live@.len() - 1 {
            assert(pre.lists@[d]@[m] + class_size(d) <= pre.fallback.next);
        } else {
            assert(post.live@[j] == pre.live@[j]);
        }
    }
}

/// Serving an oversize request straight from the fallback preserves
/// well-formedness.
proof fn lemma_fsb_oversize_wf(
    pre: FixedSizeBlockAllocator,
    post: FixedSizeBlockAllocator,
    p: u64,
    size: u64,
    align: u64,
)
    requires
        pre.wf(),
        spec_class_of(size as int, align as int) is None,
        post.lists@ == pre.lists@,
        post.live@ == pre.live@.push((p, size, align)),
        post.fallback.wf(),
        post.fallback.heap_start == pre.fallback.heap_start,
        post.fallback.heap_end == pre.fallback.heap_end,
        pre.fallback.next <= p,
        pre.fallback.heap_start <= p,
        post.fallback.next == p + eff_size(size),
        post.fallback.allocations == pre.fallback.allocations + 1,
        post.fallback.live@ == pre.fallback.live@.push((p, eff_size(size))),
    ensures
        post.wf(),
{
    assert(fsb_range((p, size, align)) == (p, eff_size(size)));
    lemma_blocks_count_nonneg(pre.lists@, 9);
    assert forall|j: int| 0 <= j < post.live@.len() implies {
        let rg = fsb_range(#[trigger] post.live@[j]);
        &&& post.fallback.heap_start <= rg.0
        &&& rg.0 + rg.1 <= post.fallback.next
        &&& rg.1 >= 1
        &&& (spec_class_of(post.live@[j].1 as int, post.live@[j].2 as int) matches Some(cc)
            ==> rg.0 % (class_size(cc) as u64) == 0)
        &&& (spec_class_of(post.live@[j].1 as int, post.live@[j].2 as int) is None
            ==> post.fallback.live@.contains((post.live@[j].0, eff_size(post.live@[j].1))))
    } by {
        if j < pre.live@.len() {
            assert(post.live@[j] == pre.live@[j]);
            if spec_class_of(pre.live@[j].1 as int, pre.live@[j].2 as int) is None {
                lemma_contains_after_push(
                    pre.fallback.live@,
                    (p, eff_size(size)),
                    (pre.live@[j].0, eff_size(pre.live@[j].1)),
                );
            }
        } else {
            assert(post.live@[j] == (p, size, align));
            let n = post.fallback.live@.len() - 1;
            assert(post.fallback.live@[n] == (p, eff_size(size)));
        }
    }
    assert forall|i: int, j: int| 0 <= i < j < post.live@.len() implies range_disjoint(
        fsb_range(#[trigger] post.live@[i]),
        fsb_range(#[trigger] post.live@[j]),
    ) by {
        if j == post.live@.len() - 1 {
            assert(post.live@[i] == pre.live@[i]);
        }
    }
    assert forall|d: int, m: int, j: int|
        #![trigger post.lists@[d]@[m], post.live@[j]]
        0 <= d < 9 && 0 <= m < post.lists@[d]@.len() && 0 <= j < post.live@.len()
        implies range_disjoint(
        (post.lists@[d]@[m], class_size(d) as u64),
        fsb_range(post.live@[j]),
    ) by {
        if j == post.live@.len() - 1 {
            assert(pre.lists@[d]@[m] + class_size(d) <= pre.fallback.next);
        } else {
            assert(post.live@[j] == pre.live@[j]);
        }
    }
}

/// Pushing a freed class block onto its class list preserves
/// well-formedness: the block's range moves unchanged from the live records
/// to the list.
proof fn lemma_fsb_push_wf(
    pre: FixedSizeBlockAllocator,
    post: FixedSizeBlockAllocator,
    c: int,
    wit: int,
    ptr: u64,
    size: u64,
    align: u64,
)
    requires
        pre.wf(),
        0 <= c < 9,
        spec_class_of(size as int, align as int) == Some(c),
        0 <= wit < pre.live@.len(),
        pre.live@[wit] == (ptr, size, align),
        post.fallback == pre.fallback,
        post.lists@ == pre.lists@.update(c, post.lists@[c]),
        post.lists@[c]@ == pre.lists@[c]@.push(ptr),
        post.live@ == pre.live@.remove(wit),
    ensures
        post.wf(),
{
    let kk = post.lists@[c]@.len() - 1;
    assert(fsb_range(pre.live@[wit]) == (ptr, class_size(c) as u64));
    lemma_blocks_count_update(pre.lists@, post.lists@, c, 9);
    assert forall|d: int, m: int|
        0 <= d < 9 && 0 <= m < post.lists@[d]@.len() && (d != c || m != kk)
        implies post.lists@[d]@[m] == pre.lists@[d]@[m] by {}
    assert forall|j: int| 0 <= j < post.live@.len() implies post.live@[j] == pre.live@[if j < wit {
        j
    } else {
        j + 1
    }] by {}
    assert forall|d: int, m: int|
        0 <= d < 9 && 0 <= m < post.lists@[d]@.len() implies {
        let b = #[trigger] post.lists@[d]@[m];
        &&& b % (class_size(d) as u64) == 0
        &&& post.fallback.heap_start <= b
        &&& b + class_size(d) <= post.fallback.next
    } by {
        if d == c && m == kk {
            assert(post.lists@[d]@[m] == ptr);
        }
    }
    assert forall|d: int, m: int, e: int, n: int|
        #![trigger post.lists@[d]@[m], post.lists@[e]@[n]]
        0 <= d < 9 && 0 <= m < post.lists@[d]@.len() && 0 <= e < 9 && 0 <= n
            < post.lists@[e]@.len() && (d != e || m != n) implies range_disjoint(
        (post.lists@[d]@[m], class_size(d) as u64),
        (post.lists@[e]@[n], class_size(e) as u64),
    ) by {
        if d == c && m == kk {
            assert(range_disjoint(
                (pre.lists@[e]@[n], class_size(e) as u64),
                fsb_range(pre.live@[wit]),
            ));
        } else if e == c && n == kk {
            assert(range_disjoint(
                (pre.lists@[d]@[m], class_size(d) as u64),
                fsb_range(pre.live@[wit]),
            ));
        }
    }
    assert forall|i: int, j: int| 0 <= i < j < post.live@.len() implies range_disjoint(
        fsb_range(#[trigger] post.live@[i]),
        fsb_range(#[trigger] post.live@[j]),
    ) by {
        let i0 = if i < wit {
            i
        } else {
            i + 1
        };
        let j0 = if j < wit {
            j
        } else {
            j + 1
        };
        assert(post.live@[i] == pre.live@[i0] && post.live@[j] == pre.live@[j0]);
    }
    assert forall|d: int, m: int, j: int|
        #![trigger post.lists@[d]@[m], post.live@[j]]
        0 <= d < 9 && 0 <= m < post.lists@[d]@.len() && 0 <= j < post.live@.len()
        implies range_disjoint(
        (post.lists@[d]@[m], class_size(d) as u64),
        fsb_range(post.live@[j]),
    ) by {
        let j0 = if j < wit {
            j
        } else {
            j + 1
        };
        assert(post.live@[j] == pre.live@[j0]);
        if d == c && m == kk {
            assert(range_disjoint(fsb_range(pre.live@[wit]), fsb_range(pre.live@[j0])));
        }
    }
}

/// Returning an oversize block to the fallback preserves well-formedness.
proof fn lemma_fsb_free_oversize_wf(
    pre: FixedSizeBlockAllocator,
    post: FixedSizeBlockAllocator,
    wit: int,
    ptr: u64,
    size: u64,
    align: u64,
)
    requires
        pre.wf(),
        spec_class_of(size as int, align as int) is None,
        0 <= wit < pre.live@.len(),
        pre.live@[wit] == (ptr, size, align),
        post.lists@ == pre.lists@,
        post.live@ == pre.live@.remove(wit),
        post.fallback.wf(),
        post.fallback.heap_start == pre.fallback.heap_start,
        post.fallback.heap_end == pre.fallback.heap_end,
        post.fallback.allocations == pre.fallback.allocations - 1,
        pre.fallback.allocations > 1 ==> post.fallback.next == pre.fallback.next,
        exists|i: int|
            0 <= i < pre.fallback.live@.len() && pre.fallback.live@[i] == (ptr, eff_size(size))
                && post.fallback.live@ == pre.fallback.live@.remove(i),
    ensures
        post.wf(),
{
    lemma_blocks_count_nonneg(pre.lists@, 9);
    let bi = choose|i: int|
        0 <= i < pre.fallback.live@.len() && pre.fallback.live@[i] == (ptr, eff_size(size))
            && post.fallback.live@ == pre.fallback.live@.remove(i);
    if pre.fallback.allocations == 1 {
        // The last fallback allocation is gone: no class block and no other
        // live request can exist, so the reset bump pointer bounds nothing.
        assert(blocks_count(pre.lists@, 9) == 0);
        lemma_blocks_count_zero(pre.lists@, 9);
        assert(pre.live@.len() == 1);
    } else {
        assert(post.fallback.next == pre.fallback.next);
    }
    assert forall|j: int| 0 <= j < post.live@.len() implies {
        let rg = fsb_range(#[trigger] post.live@[j]);
        &&& post.fallback.heap_start <= rg.0
        &&& rg.0 + rg.1 <= post.fallback.next
        &&& rg.1 >= 1
        &&& (spec_class_of(post.live@[j].1 as int, post.live@[j].2 as int) matches Some(cc)
            ==> rg.0 % (class_size(cc) as u64) == 0)
        &&& (spec_class_of(post.live@[j].1 as int, post.live@[j].2 as int) is None
            ==> post.fallback.live@.contains((post.live@[j].0, eff_size(post.live@[j].1))))
    } by {
        let j0 = if j < wit {
            j
        } else {
            j + 1
        };
        assert(post.live@[j] == pre.live@[j0]);
        if spec_class_of(pre.live@[j0].1 as int, pre.live@[j0].2 as int) is None {
            // Its fallback record is distinct from the removed one, because
            // the two live ranges are disjoint and non-empty.
            assert(range_disjoint(fsb_range(pre.live@[j0]), fsb_range(pre.live@[wit])));
            assert(pre.live@[j0].0 != ptr);
            lemma_contains_after_remove(
                pre.fallback.live@,
                bi,
                (pre.live@[j0].0, eff_size(pre.live@[j0].1)),
            );
        }
    }
    assert forall|i: int, j: int| 0 <= i < j < post.live@.len() implies range_disjoint(
        fsb_range(#[trigger] post.live@[i]),
        fsb_range(#[trigger] post.live@[j]),
    ) by {
        let i0 = if i < wit {
            i
        } else {
            i + 1
        };
        let j0 = if j < wit {
            j
        } else {
            j + 1
        };
        assert(post.live@[i] == pre.live@[i0] && post.live@[j] == pre.live@[j0]);
    }
    assert forall|d: int, m: int, j: int|
        #![trigger post.lists@[d]@[m], post.live@[j]]
        0 <= d < 9 && 0 <= m < post.lists@[d]@.len() && 0 <= j < post.live@.len()
        implies range_disjoint(
        (post.lists@[d]@[m], class_size(d) as u64),
        fsb_range(post.live@[j]),
    ) by {
        let j0 = if j < wit {
            j
        } else {
            j + 1
        };
        assert(post.live@[j] == pre.live@[j0]);
    }
}

/// Law: the byte ranges of the live requests of a well-formed
/// fixed-size-block allocator never overlap, nor does any overlap a block
/// waiting on a class free list.
pub proof fn lemma_fsb_live_disjoint(a: FixedSizeBlockAllocator)
    requires
        a.wf(),
    ensures
        ranges_disjoint(a.live_block_ranges()),
        forall|c: int, k: int, j: int|
            #![trigger a.lists@[c]@[k], a.live_block_ranges()[j]]
            0 <= c < 9 && 0 <= k < a.lists@[c]@.len() && 0 <= j < a.live_block_ranges().len()
                ==> range_disjoint(
                (a.lists@[c]@[k], class_size(c) as u64),
                a.live_block_ranges()[j],
            ),
{
    assert forall|i: int, j: int| 0 <= i < j < a.live_block_ranges().len() implies range_disjoint(
        #[trigger] a.live_block_ranges()[i],
        #[trigger] a.live_block_ranges()[j],
    ) by {
        assert(a.live_block_ranges()[i] == fsb_range(a.live@[i]));
        assert(a.live_block_ranges()[j] == fsb_range(a.live@[j]));
    }
    assert forall|c: int, k: int, j: int|
        #![trigger a.lists@[c]@[k], a.live_block_ranges()[j]]
        0 <= c < 9 && 0 <= k < a.lists@[c]@.len() && 0 <= j < a.live_block_ranges().len()
        implies range_disjoint(
        (a.lists@[c]@[k], class_size(c) as u64),
        a.live_block_ranges()[j],
    ) by {
        assert(a.live_block_ranges()[j] == fsb_range(a.live@[j]));
    }
}

/// Law: once a class's list is warmed, an allocate/deallocate cycle of that
/// class consumes nothing from the fallback and returns the lists to
/// exactly the state they started in: the steady state of repeated
/// same-size traffic. The hypotheses are the contracts of `allocate` on a
/// warm list and of `deallocate` for a class block.
pub proof fn lemma_fsb_steady_state(
    s0: FixedSizeBlockAllocator,
    s1: FixedSizeBlockAllocator,
    s2: FixedSizeBlockAllocator,
    p: u64,
    size: u64,
    align: u64,
    c: int,
)
    requires
        spec_class_of(size as int, align as int) == Some(c),
        0 <= c < 9,
        s0.lists@.len() == 9,
        s1.lists@.len() == 9,
        s2.lists@.len() == 9,
        s0.lists@[c]@.len() > 0,
        // after allocate(size, align), which returned p from the warm list:
        p == s0.lists@[c]@.last(),
        s1.fallback == s0.fallback,
        s1.lists@[c]@ == s0.lists@[c]@.drop_last(),
        forall|d: int| 0 <= d < 9 && d != c ==> (#[trigger] s1.lists@[d])@ == s0.lists@[d]@,
        // after deallocate(p, size, align):
        s2.fallback == s1.fallback,
        s2.lists@[c]@ == s1.lists@[c]@.push(p),
        forall|d: int| 0 <= d < 9 && d != c ==> (#[trigger] s2.lists@[d])@ == s1.lists@[d]@,
    ensures
        s2.fallback == s0.fallback,
        forall|d: int| 0 <= d < 9 ==> (#[trigger] s2.lists@[d])@ == s0.lists@[d]@,
{
    assert(s2.lists@[c]@ =~= s0.lists@[c]@);
    assert forall|d: int| 0 <= d < 9 implies (#[trigger] s2.lists@[d])@ == s0.lists@[d]@ by {
        if d != c {
            assert(s2.lists@[d]@ == s1.lists@[d]@);
        }
    }
}

} // verus!
