//! The dynamic-heap allocator: a fixed virtual window, mapped page by page at
//! boot, served by one of three strategies (bump, linked-list,
//! fixed-size-block) behind a common allocate/deallocate interface.
//!
//! Addresses and sizes are plain `u64` byte values; every strategy keeps a
//! ghost record of its live allocations, and well-formedness states that no
//! two live byte ranges overlap.
use vstd::arithmetic::div_mod::{lemma_fundamental_div_mod, lemma_mod_multiples_basic, lemma_small_mod};
use vstd::arithmetic::power2::{
    lemma_pow2_adds, lemma_pow2_pos, lemma_pow2_strictly_increases, pow2,
};
use vstd::prelude::*;

pub mod bump;
pub mod fixed_size_block;
pub mod linked_list;

verus! {

/// Start of the heap's virtual window.
pub const HEAP_START: u64 = 0x4444_4444_0000;

/// Size of the heap's virtual window in bytes.
pub const HEAP_SIZE: u64 = 100 * 1024;

/// An alignment is a power of two.
pub open spec fn is_align(a: u64) -> bool {
    exists|k: nat| k < 64 && pow2(k) == a
}

/// Every power of two is at least 1.
pub proof fn lemma_align_pos(a: u64)
    requires
        is_align(a),
    ensures
        a >= 1,
{
    let k = choose|k: nat| k < 64 && pow2(k) == a;
    lemma_pow2_pos(k);
}

/// A smaller power of two divides a larger one.
pub proof fn lemma_align_divides(a: u64, b: u64)
    requires
        is_align(a),
        is_align(b),
        a <= b,
    ensures
        b % a == 0,
{
    let i = choose|k: nat| k < 64 && pow2(k) == a;
    let j = choose|k: nat| k < 64 && pow2(k) == b;
    lemma_pow2_pos(i);
    lemma_pow2_pos(j);
    if j < i {
        lemma_pow2_strictly_increases(j, i);
    }
    let d = (j - i) as nat;
    lemma_pow2_adds(i, d);
    assert(b == pow2(i) * pow2(d));
    assert(b as int == (pow2(d) as int) * (a as int)) by (nonlinear_arith)
        requires
            b == pow2(i) * pow2(d),
            a == pow2(i),
    ;
    lemma_mod_multiples_basic(pow2(d) as int, a as int);
}

/// A multiple of `a` is a multiple of every divisor `b` of `a`.
pub proof fn lemma_aligned_chain(p: int, a: int, b: int)
    requires
        a >= 1,
        b >= 1,
        p >= 0,
        p % a == 0,
        a % b == 0,
    ensures
        p % b == 0,
{
    lemma_fundamental_div_mod(p, a);
    lemma_fundamental_div_mod(a, b);
    assert(p == ((a / b) * (p / a)) * b) by (nonlinear_arith)
        requires
            p == a * (p / a),
            a == b * (a / b),
    ;
    lemma_mod_multiples_basic((a / b) * (p / a), b);
}

/// Sums and differences of multiples of `m` are multiples of `m`.
pub proof fn lemma_mod_zero_sum(x: int, y: int, m: int)
    requires
        m >= 1,
        x >= 0,
        y >= 0,
        x % m == 0,
        y % m == 0,
    ensures
        (x + y) % m == 0,
        x >= y ==> (x - y) % m == 0,
{
    lemma_fundamental_div_mod(x, m);
    lemma_fundamental_div_mod(y, m);
    assert(x + y == (x / m + y / m) * m) by (nonlinear_arith)
        requires
            x == m * (x / m),
            y == m * (y / m),
    ;
    lemma_mod_multiples_basic(x / m + y / m, m);
    if x >= y {
        assert(x - y == (x / m - y / m) * m) by (nonlinear_arith)
            requires
                x == m * (x / m),
                y == m * (y / m),
        ;
        lemma_mod_multiples_basic(x / m - y / m, m);
    }
}

/// `addr` rounded up to the next multiple of `align`.
pub open spec fn spec_align_up(addr: int, align: int) -> int
    recommends
        align >= 1,
{
    if addr % align == 0 {
        addr
    } else {
        addr + (align - addr % align)
    }
}

/// Rounding up lands on a multiple of `align`, at most `align - 1` past `addr`.
pub proof fn lemma_align_up(addr: int, align: int)
    requires
        align >= 1,
        addr >= 0,
    ensures
        spec_align_up(addr, align) % align == 0,
        addr <= spec_align_up(addr, align) < addr + align,
{
    let r = addr % align;
    if r != 0 {
        let q = addr / align;
        lemma_fundamental_div_mod(addr, align);
        assert(addr + (align - r) == (q + 1) * align) by (nonlinear_arith)
            requires
                addr == align * q + r,
        ;
        lemma_mod_multiples_basic(q + 1, align);
    }
}

/// Rounding up lands on the least multiple of `align` at or above `addr`.
pub proof fn lemma_align_up_least(addr: int, align: int, f: int)
    requires
        align >= 1,
        addr >= 0,
        f % align == 0,
        f >= addr,
    ensures
        f >= spec_align_up(addr, align),
{
    lemma_align_up(addr, align);
    let u = spec_align_up(addr, align);
    if f < u {
        // two distinct multiples of `align` lie at least `align` apart,
        // yet `u` is less than `align` past `addr <= f`
        lemma_mod_zero_sum(u, f, align);
        lemma_small_mod((u - f) as nat, align as nat);
    }
}

/// Align the given address `addr` upwards to alignment `align`.
pub fn align_up(addr: u64, align: u64) -> (r: u64)
    requires
        align >= 1,
        addr + align - 1 <= u64::MAX,
    ensures
        r == spec_align_up(addr as int, align as int),
        r % align == 0,
        addr <= r < addr + align,
{
    proof {
        lemma_align_up(addr as int, align as int);
    }
    let rem = addr % align;
    if rem == 0 {
        addr
    } else {
        addr + (align - rem)
    }
}

/// Effective size of a request: a zero-size request is served as a
/// minimum-size block of one byte, so every allocation owns a non-empty
/// range.
pub open spec fn eff_size(size: u64) -> u64 {
    if size == 0 {
        1u64
    } else {
        size
    }
}

/// Two byte ranges `(start, size)` do not overlap.
pub open spec fn range_disjoint(a: (u64, u64), b: (u64, u64)) -> bool {
    a.0 + a.1 <= b.0 || b.0 + b.1 <= a.0
}

/// No two of the byte ranges in `s` overlap.
pub open spec fn ranges_disjoint(s: Seq<(u64, u64)>) -> bool {
    forall|i: int, j: int|
        0 <= i < j < s.len() ==> range_disjoint(#[trigger] s[i], #[trigger] s[j])
}

/// Removing an element keeps the remaining ranges disjoint.
pub proof fn lemma_ranges_disjoint_remove(s: Seq<(u64, u64)>, k: int)
    requires
        ranges_disjoint(s),
        0 <= k < s.len(),
    ensures
        ranges_disjoint(s.remove(k)),
{
    let t = s.remove(k);
    assert forall|i: int, j: int| 0 <= i < j < t.len() implies range_disjoint(
        #[trigger] t[i],
        #[trigger] t[j],
    ) by {
        let i0 = if i < k { i } else { i + 1 };
        let j0 = if j < k { j } else { j + 1 };
        assert(t[i] == s[i0] && t[j] == s[j0]);
    }
}

/// An element stays present when another is appended.
pub proof fn lemma_contains_after_push<T>(s: Seq<T>, v: T, x: T)
    requires
        s.contains(x),
    ensures
        s.push(v).contains(x),
{
    let m = choose|m: int| 0 <= m < s.len() && s[m] == x;
    assert(s.push(v)[m] == x);
}

/// An element other than the one removed is still present afterwards.
pub proof fn lemma_contains_after_remove<T>(s: Seq<T>, k: int, x: T)
    requires
        0 <= k < s.len(),
        s.contains(x),
        x != s[k],
    ensures
        s.remove(k).contains(x),
{
    let m = choose|m: int| 0 <= m < s.len() && s[m] == x;
    if m < k {
        assert(s.remove(k)[m] == x);
    } else {
        assert(s.remove(k)[m - 1] == x);
    }
}

/// The allocator that serves nothing: every request fails, and since it
/// never hands a pointer out, nothing may ever be returned to it.
pub struct Dummy;

impl Dummy {
    /// The set of pointers this allocator has issued: none.
    pub open spec fn issued(self, ptr: u64) -> bool {
        false
    }

    /// Always fails, whatever the request.
    pub fn allocate(&self, size: u64, align: u64) -> (r: Option<u64>)
        ensures
            r is None,
    {
        None
    }

    /// Never callable: no pointer originates from this allocator.
    pub fn deallocate(&self, ptr: u64, size: u64, align: u64)
        requires
            self.issued(ptr),
    {
    }
}

/// Number of pages in the heap window.
pub const HEAP_PAGE_COUNT: u64 = 25;

/// Startup configuration: which allocation strategy serves the heap.
#[derive(Debug, Clone, Copy, PartialEq, Eq)]
pub enum StrategyKind {
    Bump,
    LinkedList,
    FixedSizeBlock,
}

/// The active strategy instance.
pub enum Strategy {
    Bump(bump::BumpAllocator),
    LinkedList(linked_list::LinkedListAllocator),
    FixedSizeBlock(fixed_size_block::FixedSizeBlockAllocator),
}

/// The kernel-wide heap: one explicitly owned strategy instance behind the
/// common allocate/deallocate interface. The kernel binary wraps it in its
/// global lock and keeps interrupts disabled while holding that lock, so
/// that a handler that allocates cannot deadlock against an interrupted
/// holder.
pub struct KernelHeap {
    pub strategy: Strategy,
}

impl KernelHeap {
    pub open spec fn kind(self) -> StrategyKind {
        match self.strategy {
            Strategy::Bump(_) => StrategyKind::Bump,
            Strategy::LinkedList(_) => StrategyKind::LinkedList,
            Strategy::FixedSizeBlock(_) => StrategyKind::FixedSizeBlock,
        }
    }

    pub open spec fn wf(self) -> bool {
        match self.strategy {
            Strategy::Bump(a) => a.wf(),
            Strategy::LinkedList(a) => a.wf(),
            Strategy::FixedSizeBlock(a) => a.wf(),
        }
    }

    pub open spec fn heap_start(self) -> u64 {
        match self.strategy {
            Strategy::Bump(a) => a.heap_start,
            Strategy::LinkedList(a) => a.heap_start,
            Strategy::FixedSizeBlock(a) => a.heap_start(),
        }
    }

    pub open spec fn heap_end(self) -> u64 {
        match self.strategy {
            Strategy::Bump(a) => a.heap_end,
            Strategy::LinkedList(a) => a.heap_end,
            Strategy::FixedSizeBlock(a) => a.heap_end(),
        }
    }

    /// Number of live allocations.
    pub open spec fn live_count(self) -> int {
        match self.strategy {
            Strategy::Bump(a) => a.live@.len() as int,
            Strategy::LinkedList(a) => a.live@.len() as int,
            Strategy::FixedSizeBlock(a) => a.live@.len() as int,
        }
    }

    /// The byte ranges of the live allocations of the active strategy.
    pub open spec fn live_ranges(self) -> Seq<(u64, u64)> {
        match self.strategy {
            Strategy::Bump(a) => a.live_ranges(),
            Strategy::LinkedList(a) => a.live_ranges(),
            Strategy::FixedSizeBlock(a) => a.live_block_ranges(),
        }
    }

    /// Whether the active strategy can serve the request from its current
    /// state.
    pub open spec fn can_serve(self, size: u64, align: u64) -> bool {
        match self.strategy {
            Strategy::Bump(a) => a.fits(size, align),
            Strategy::LinkedList(a) => linked_list::find_fit(
                a.free_regions@,
                linked_list::ll_size(size as int, align as int),
                linked_list::ll_align(align as int),
            ) is Some,
            Strategy::FixedSizeBlock(a) => match fixed_size_block::spec_class_of(
                size as int,
                align as int,
            ) {
                Option::Some(c) => a.lists@[c]@.len() > 0 || a.fallback.fits(
                    fixed_size_block::class_size(c) as u64,
                    fixed_size_block::class_size(c) as u64,
                ),
                Option::None => a.fallback.fits(size, align),
            },
        }
    }

    /// `ptr` is a live allocation made with exactly this size and alignment.
    pub open spec fn owns(self, ptr: u64, size: u64, align: u64) -> bool {
        match self.strategy {
            Strategy::Bump(a) => a.live@.contains((ptr, eff_size(size))),
            Strategy::LinkedList(a) => exists|i: int|
                0 <= i < a.live@.len() && (#[trigger] a.live@[i]).0 == ptr && a.live@[i].1
                    == linked_list::ll_size(size as int, align as int),
            Strategy::FixedSizeBlock(a) => a.live@.contains((ptr, size, align)),
        }
    }

    /// Serves an allocation: lock, delegate, unlock — the lock living in
    /// the kernel binary. Fails exactly when the active strategy cannot
    /// serve the request; a returned pointer is aligned and lies inside the
    /// heap window.
    pub fn allocate(&mut self, size: u64, align: u64) -> (r: Option<u64>)
        requires
            old(self).wf(),
            is_align(align),
        ensures
            final(self).wf(),
            final(self).kind() == old(self).kind(),
            final(self).heap_start() == old(self).heap_start(),
            final(self).heap_end() == old(self).heap_end(),
            r is Some <==> old(self).can_serve(size, align),
            r is None ==> *final(self) == *old(self),
            r matches Some(p) ==> {
                &&& p % align == 0
                &&& old(self).heap_start() <= p
                &&& p + eff_size(size) <= old(self).heap_end()
                &&& final(self).live_count() == old(self).live_count() + 1
                &&& final(self).owns(p, size, align)
            },
            forall|q: u64, s2: u64, a2: u64|
                old(self).owns(q, s2, a2) ==> #[trigger] final(self).owns(q, s2, a2),
            size > old(self).heap_end() - old(self).heap_start() ==> r is None,
    {
        let ghost pre = *self;
        let r = match &mut self.strategy {
            Strategy::Bump(a) => a.allocate(size, align),
            Strategy::LinkedList(a) => a.allocate(size, align),
            Strategy::FixedSizeBlock(a) => a.allocate(size, align),
        };
        proof {
            if r is Some {
                lemma_heap_owns_after_push(pre, *self, r->Some_0, size, align);
            }
        }
        r
    }

    /// Returns an allocation made with the identical size and alignment.
    pub fn deallocate(&mut self, ptr: u64, size: u64, align: u64)
        requires
            old(self).wf(),
            is_align(align),
            old(self).owns(ptr, size, align),
        ensures
            final(self).wf(),
            final(self).kind() == old(self).kind(),
            final(self).heap_start() == old(self).heap_start(),
            final(self).heap_end() == old(self).heap_end(),
            final(self).live_count() == old(self).live_count() - 1,
            forall|q: u64, s2: u64, a2: u64|
                old(self).owns(q, s2, a2) && q != ptr ==> #[trigger] final(self).owns(q, s2, a2),
    {
        let ghost pre = *self;
        match &mut self.strategy {
            Strategy::Bump(a) => a.deallocate(ptr, size, align),
            Strategy::LinkedList(a) => a.deallocate(ptr, size, align),
            Strategy::FixedSizeBlock(a) => a.deallocate(ptr, size, align),
        }
        proof {
            lemma_heap_owns_after_remove(pre, *self, ptr, size, align);
        }
    }
}

/// After an allocation pushed one live record, the new block is owned and
/// every block owned before still is.
proof fn lemma_heap_owns_after_push(
    pre: KernelHeap,
    post: KernelHeap,
    p: u64,
    size: u64,
    align: u64,
)
    requires
        match (pre.strategy, post.strategy) {
            (Strategy::Bump(a), Strategy::Bump(b)) => b.live@ == a.live@.push(
                (p, eff_size(size)),
            ),
            (Strategy::LinkedList(a), Strategy::LinkedList(b)) => b.live@ == a.live@.push(
                (p, linked_list::ll_size(size as int, align as int) as u64),
            ) && linked_list::ll_size(size as int, align as int) <= u64::MAX,
            (Strategy::FixedSizeBlock(a), Strategy::FixedSizeBlock(b)) => b.live@ == a.live@.push(
                (p, size, align),
            ),
            _ => false,
        },
    ensures
        post.owns(p, size, align),
        forall|q: u64, s2: u64, a2: u64|
            pre.owns(q, s2, a2) ==> #[trigger] post.owns(q, s2, a2),
{
    match (pre.strategy, post.strategy) {
        (Strategy::Bump(a), Strategy::Bump(b)) => {
            assert(b.live@[b.live@.len() - 1] == (p, eff_size(size)));
            assert forall|q: u64, s2: u64, a2: u64| pre.owns(q, s2, a2) implies #[trigger] post.owns(
                q,
                s2,
                a2,
            ) by {
                lemma_contains_after_push(a.live@, (p, eff_size(size)), (q, eff_size(s2)));
            }
        },
        (Strategy::LinkedList(a), Strategy::LinkedList(b)) => {
            assert(b.live@[b.live@.len() - 1] == (
                p,
                linked_list::ll_size(size as int, align as int) as u64,
            ));
            assert forall|q: u64, s2: u64, a2: u64| pre.owns(q, s2, a2) implies #[trigger] post.owns(
                q,
                s2,
                a2,
            ) by {
                let j = choose|j: int|
                    0 <= j < a.live@.len() && (#[trigger] a.live@[j]).0 == q && a.live@[j].1
                        == linked_list::ll_size(s2 as int, a2 as int);
                assert(b.live@[j] == a.live@[j]);
            }
        },
        (Strategy::FixedSizeBlock(a), Strategy::FixedSizeBlock(b)) => {
            assert(b.live@[b.live@.len() - 1] == (p, size, align));
            assert forall|q: u64, s2: u64, a2: u64| pre.owns(q, s2, a2) implies #[trigger] post.owns(
                q,
                s2,
                a2,
            ) by {
                lemma_contains_after_push(a.live@, (p, size, align), (q, s2, a2));
            }
        },
        _ => {},
    }
}

/// After a deallocation removed one live record, every other block owned
/// before still is.
proof fn lemma_heap_owns_after_remove(
    pre: KernelHeap,
    post: KernelHeap,
    ptr: u64,
    size: u64,
    align: u64,
)
    requires
        match (pre.strategy, post.strategy) {
            (Strategy::Bump(a), Strategy::Bump(b)) => exists|i: int|
                0 <= i < a.live@.len() && (#[trigger] a.live@[i]) == (ptr, eff_size(size))
                    && b.live@ == a.live@.remove(i),
            (Strategy::LinkedList(a), Strategy::LinkedList(b)) => exists|i: int|
                0 <= i < a.live@.len() && (#[trigger] a.live@[i]) == (
                ptr,
                linked_list::ll_size(size as int, align as int) as u64,
                ) && b.live@ == a.live@.remove(i),
            (Strategy::FixedSizeBlock(a), Strategy::FixedSizeBlock(b)) => exists|i: int|
                0 <= i < a.live@.len() && (#[trigger] a.live@[i]) == (ptr, size, align) && b.live@
                    == a.live@.remove(i),
            _ => false,
        },
    ensures
        forall|q: u64, s2: u64, a2: u64|
            pre.owns(q, s2, a2) && q != ptr ==> #[trigger] post.owns(q, s2, a2),
{
    match (pre.strategy, post.strategy) {
        (Strategy::Bump(a), Strategy::Bump(b)) => {
            let i = choose|i: int|
                0 <= i < a.live@.len() && (#[trigger] a.live@[i]) == (ptr, eff_size(size))
                    && b.live@ == a.live@.remove(i);
            assert forall|q: u64, s2: u64, a2: u64|
                pre.owns(q, s2, a2) && q != ptr implies #[trigger] post.owns(q, s2, a2) by {
                lemma_contains_after_remove(a.live@, i, (q, eff_size(s2)));
            }
        },
        (Strategy::LinkedList(a), Strategy::LinkedList(b)) => {
            let i = choose|i: int|
                0 <= i < a.live@.len() && (#[trigger] a.live@[i]) == (
                ptr,
                linked_list::ll_size(size as int, align as int) as u64,
                ) && b.live@ == a.live@.remove(i);
            assert forall|q: u64, s2: u64, a2: u64|
                pre.owns(q, s2, a2) && q != ptr implies #[trigger] post.owns(q, s2, a2) by {
                let j = choose|j: int|
                    0 <= j < a.live@.len() && (#[trigger] a.live@[j]).0 == q && a.live@[j].1
                        == linked_list::ll_size(s2 as int, a2 as int);
                if j < i {
                    assert(b.live@[j] == a.live@[j]);
                } else {
                    assert(b.live@[j - 1] == a.live@[j]);
                }
            }
        },
        (Strategy::FixedSizeBlock(a), Strategy::FixedSizeBlock(b)) => {
            let i = choose|i: int|
                0 <= i < a.live@.len() && (#[trigger] a.live@[i]) == (ptr, size, align) && b.live@
                    == a.live@.remove(i);
            assert forall|q: u64, s2: u64, a2: u64|
                pre.owns(q, s2, a2) && q != ptr implies #[trigger] post.owns(q, s2, a2) by {
                lemma_contains_after_remove(a.live@, i, (q, s2, a2));
            }
        },
        _ => {},
    }
}

/// Law: no two live allocations of a well-formed heap overlap, whichever
/// strategy is active and however allocations and frees were interleaved:
/// each strategy's well-formedness carries the disjointness of its live
/// ranges, and every operation preserves well-formedness.
pub proof fn lemma_heap_live_disjoint(h: KernelHeap)
    requires
        h.wf(),
    ensures
        ranges_disjoint(h.live_ranges()),
{
    match h.strategy {
        Strategy::Bump(a) => bump::lemma_bump_live_disjoint(a),
        Strategy::LinkedList(a) => linked_list::lemma_ll_live_disjoint(a),
        Strategy::FixedSizeBlock(a) => fixed_size_block::lemma_fsb_live_disjoint(a),
    }
}

/// Base address of page `i` of the heap window.
pub open spec fn heap_page(i: int) -> u64 {
    (HEAP_START + i * crate::memory::PAGE_SIZE) as u64
}

/// The path indices `(a, b, c, d)` are those of heap-window page `i`.
pub open spec fn is_heap_page_path(a: int, b: int, c: int, d: int, i: int) -> bool {
    &&& a == crate::memory::l4_index(heap_page(i))
    &&& b == crate::memory::l3_index(heap_page(i))
    &&& c == crate::memory::l2_index(heap_page(i))
    &&& d == crate::memory::l1_index(heap_page(i))
}

/// The last-level entry the mapper holds for heap-window page `i`.
pub open spec fn heap_page_entry(m: crate::memory::OffsetMapper, i: int) -> Option<
    crate::memory::PageTableEntry,
> {
    m.path_entry(
        crate::memory::l4_index(heap_page(i)),
        crate::memory::l3_index(heap_page(i)),
        crate::memory::l2_index(heap_page(i)),
        crate::memory::l1_index(heap_page(i)),
    )
}

/// Maps every page of the heap window — present and writable, each backed
/// by a distinct freshly allocated frame — and initializes the chosen
/// strategy, in its freshly reset state, over the raw byte range. Must run
/// exactly once, before any dynamic allocation; it aborts on the first
/// mapping error, and an already-mapped page in the window is an error,
/// never treated as pre-existing capacity. Translations outside the window
/// are never touched. Beyond the frames for the window's pages, only the
/// page tables missing on entry are allocated — all window pages share one
/// walk above the last level.
pub fn init_heap(
    mapper: &mut crate::memory::OffsetMapper,
    frame_allocator: &mut crate::memory::BootInfoFrameAllocator,
    kind: StrategyKind,
) -> (r: Result<KernelHeap, crate::memory::MapError>)
    requires
        old(mapper).wf(),
        old(frame_allocator).wf(),
    ensures
        final(mapper).wf(),
        final(frame_allocator).wf(),
        final(frame_allocator).frames@ == old(frame_allocator).frames@,
        final(frame_allocator).regions@ == old(frame_allocator).regions@,
        old(frame_allocator).next <= final(frame_allocator).next,
        forall|a: int, b: int, c: int, d: int|
            (forall|i: int| 0 <= i < HEAP_PAGE_COUNT ==> !is_heap_page_path(a, b, c, d, i))
                ==> #[trigger] final(mapper).path_entry(a, b, c, d) == old(mapper).path_entry(
                a,
                b,
                c,
                d,
            ),
        r matches Ok(h) ==> {
            &&& h.wf()
            &&& h.kind() == kind
            &&& h.heap_start() == HEAP_START
            &&& h.heap_end() == HEAP_START + HEAP_SIZE
            &&& h.live_count() == 0
            &&& forall|i: int|
                0 <= i < HEAP_PAGE_COUNT ==> final(mapper).page_mapped(#[trigger] heap_page(i))
            &&& forall|i: int|
                0 <= i < HEAP_PAGE_COUNT ==> ((#[trigger] heap_page_entry(
                    *final(mapper),
                    i,
                )) matches Some(e) && e.present && e.writable)
            &&& forall|i: int, j: int|
                0 <= i < j < HEAP_PAGE_COUNT ==> (#[trigger] heap_page_entry(
                    *final(mapper),
                    i,
                ))->Some_0.target != (#[trigger] heap_page_entry(*final(mapper), j))->Some_0.target
            &&& forall|i: int|
                0 <= i < HEAP_PAGE_COUNT ==> exists|m: int|
                    0 <= m < final(frame_allocator).next && final(frame_allocator).frames@[m] == (
                    #[trigger] heap_page_entry(*final(mapper), i))->Some_0.target
            &&& final(frame_allocator).remaining() == old(frame_allocator).remaining()
                - HEAP_PAGE_COUNT - old(mapper).missing_tables(heap_page(0))
            &&& (kind == StrategyKind::Bump ==> (h.strategy matches Strategy::Bump(a) && a.next
                == HEAP_START && a.allocations == 0 && a.live@ == Seq::<(u64, u64)>::empty()))
            &&& (kind == StrategyKind::LinkedList ==> (h.strategy matches Strategy::LinkedList(a)
                && a.free_regions@ == seq![(HEAP_START, HEAP_SIZE)] && a.live@ == Seq::<
                (u64, u64),
            >::empty()))
            &&& (kind == StrategyKind::FixedSizeBlock ==> (h.strategy
                matches Strategy::FixedSizeBlock(a) && a.fallback.next == HEAP_START
                && a.fallback.allocations == 0 && a.live@ == Seq::<(u64, u64, u64)>::empty()
                && (forall|c: int| 0 <= c < 9 ==> (#[trigger] a.lists@[c])@.len() == 0)))
        },
        r == Err::<KernelHeap, crate::memory::MapError>(
            crate::memory::MapError::FrameAllocationFailed,
        ) ==> old(frame_allocator).remaining() < HEAP_PAGE_COUNT + old(mapper).missing_tables(
            heap_page(0),
        ),
        r == Err::<KernelHeap, crate::memory::MapError>(
            crate::memory::MapError::PageAlreadyMapped,
        ) ==> exists|i: int|
            0 <= i < HEAP_PAGE_COUNT && old(mapper).page_mapped(#[trigger] heap_page(i)),
        ((exists|i: int|
            0 <= i < HEAP_PAGE_COUNT && old(mapper).page_mapped(#[trigger] heap_page(i))) && old(
            frame_allocator,
        ).remaining() >= HEAP_PAGE_COUNT + old(mapper).missing_tables(heap_page(0))) ==> r
            == Err::<KernelHeap, crate::memory::MapError>(
            crate::memory::MapError::PageAlreadyMapped,
        ),
        ((forall|i: int|
            0 <= i < HEAP_PAGE_COUNT ==> !old(mapper).page_mapped(#[trigger] heap_page(i))) && old(
            frame_allocator,
        ).remaining() >= HEAP_PAGE_COUNT + old(mapper).missing_tables(heap_page(0))) ==> r is Ok,
{
    let ghost missing0 = old(mapper).missing_tables(heap_page(0));
    let mut i: u64 = 0;
    while i < HEAP_PAGE_COUNT
        invariant
            0 <= i <= HEAP_PAGE_COUNT,
            mapper.wf(),
            frame_allocator.wf(),
            frame_allocator.frames@ == old(frame_allocator).frames@,
            frame_allocator.regions@ == old(frame_allocator).regions@,
            old(frame_allocator).next <= frame_allocator.next,
            missing0 == old(mapper).missing_tables(heap_page(0)),
            i == 0 ==> *mapper == *old(mapper) && *frame_allocator == *old(frame_allocator),
            i >= 1 ==> frame_allocator.remaining() == old(frame_allocator).remaining() - i
                - missing0,
            forall|j: int|
                0 <= j < i ==> ((#[trigger] heap_page_entry(*mapper, j)) matches Some(e)
                    && e.present && e.writable),
            forall|j1: int, j2: int|
                0 <= j1 < j2 < i ==> (#[trigger] heap_page_entry(*mapper, j1))->Some_0.target != (
                #[trigger] heap_page_entry(*mapper, j2))->Some_0.target,
            forall|j: int|
                0 <= j < i ==> exists|m: int|
                    0 <= m < frame_allocator.next && frame_allocator.frames@[m] == (
                    #[trigger] heap_page_entry(*mapper, j))->Some_0.target,
            forall|j: int|
                i <= j < HEAP_PAGE_COUNT ==> mapper.page_mapped(#[trigger] heap_page(j)) == old(
                    mapper,
                ).page_mapped(heap_page(j)),
            forall|j: int| 0 <= j < i ==> !old(mapper).page_mapped(#[trigger] heap_page(j)),
            forall|a: int, b: int, c: int, d: int|
                (forall|j: int| 0 <= j < i ==> !is_heap_page_path(a, b, c, d, j))
                    ==> #[trigger] mapper.path_entry(a, b, c, d) == old(mapper).path_entry(
                    a,
                    b,
                    c,
                    d,
                ),
        decreases HEAP_PAGE_COUNT - i,
    {
        let ghost pre_mapper = *mapper;
        let ghost pre_fa = *frame_allocator;
        let page = HEAP_START + i * crate::memory::PAGE_SIZE;
        proof {
            crate::memory::lemma_index_bounds(page);
            if i >= 1 {
                // page 0 is mapped, and every window page shares its walk
                // above the last level, so no table is missing any more
                lemma_heap_pages_share_upper(i as int);
                assert(heap_page_entry(*mapper, 0) matches Some(e) && e.present);
                assert(pre_mapper.missing_tables(heap_page(i as int)) == 0);
            } else {
                assert(pre_mapper.missing_tables(heap_page(0)) == missing0);
            }
        }
        let frame = match frame_allocator.allocate_frame() {
            Option::Some(f) => f,
            Option::None => {
                proof {
                    if i >= 1 {
                        assert(old(frame_allocator).remaining() == i + missing0);
                    }
                }
                return Err(crate::memory::MapError::FrameAllocationFailed);
            },
        };
        let ghost frame_index = pre_fa.next as int;
        match mapper.map(page, frame, true, frame_allocator) {
            Result::Ok(()) => {},
            Result::Err(e) => {
                proof {
                    if e == crate::memory::MapError::PageAlreadyMapped {
                        assert(pre_mapper.page_mapped(page));
                        assert(old(mapper).page_mapped(heap_page(i as int)));
                    } else {
                        // out of frames for intermediate tables: only
                        // possible on the very first page, where the bound
                        // on the initial frame count follows
                        assert(e == crate::memory::MapError::FrameAllocationFailed);
                        if i >= 1 {
                            assert(pre_mapper.missing_tables(page) == 0);
                            assert(false);
                        }
                        assert(old(frame_allocator).remaining() < 1 + missing0);
                    }
                }
                return Err(e);
            },
        }
        proof {
            let ii = i as int;
            assert forall|j: int| 0 <= j < HEAP_PAGE_COUNT && j != ii implies mapper.page_mapped(
                (#[trigger] heap_page(j)),
            ) == pre_mapper.page_mapped(heap_page(j)) && heap_page_entry(*mapper, j)
                == heap_page_entry(pre_mapper, j) by {
                lemma_heap_pages_distinct(ii, j);
                crate::memory::lemma_index_bounds(heap_page(j));
            }
            assert(heap_page_entry(*mapper, ii) == Some(
                crate::memory::PageTableEntry { present: true, writable: true, target: frame },
            ));
            // the data frame is fresh: it sits at the old cursor, below
            // every index the cursor will reach
            assert(frame_allocator.frames@[frame_index] == frame);
            assert forall|j1: int, j2: int| 0 <= j1 < j2 < ii + 1 implies (
            #[trigger] heap_page_entry(*mapper, j1))->Some_0.target != (#[trigger] heap_page_entry(
                *mapper,
                j2,
            ))->Some_0.target by {
                if j2 == ii {
                    let m1 = choose|m: int|
                        0 <= m < pre_fa.next && pre_fa.frames@[m] == heap_page_entry(
                            pre_mapper,
                            j1,
                        )->Some_0.target;
                    assert(frame_allocator.frames@[m1] < frame_allocator.frames@[frame_index]);
                }
            }
            assert forall|a: int, b: int, c: int, d: int|
                (forall|j: int| 0 <= j < ii + 1 ==> !is_heap_page_path(a, b, c, d, j))
                    implies #[trigger] mapper.path_entry(a, b, c, d) == old(mapper).path_entry(
                a,
                b,
                c,
                d,
            ) by {
                assert(!is_heap_page_path(a, b, c, d, ii));
                assert(pre_mapper.path_entry(a, b, c, d) == old(mapper).path_entry(a, b, c, d));
            }
        }
        i = i + 1;
    }
    proof {
        assert(forall|j: int|
            0 <= j < HEAP_PAGE_COUNT ==> ((#[trigger] heap_page_entry(*mapper, j)) matches Some(e)
                && e.present && e.writable));
        assert forall|j: int| 0 <= j < HEAP_PAGE_COUNT implies mapper.page_mapped(
            #[trigger] heap_page(j),
        ) by {
            assert(heap_page_entry(*mapper, j) is Some);
        }
        assert(frame_allocator.remaining() == old(frame_allocator).remaining() - HEAP_PAGE_COUNT
            - missing0);
        assert(forall|j1: int, j2: int|
            0 <= j1 < j2 < HEAP_PAGE_COUNT ==> (#[trigger] heap_page_entry(
                *mapper,
                j1,
            ))->Some_0.target != (#[trigger] heap_page_entry(*mapper, j2))->Some_0.target);
        assert(forall|j: int|
            0 <= j < HEAP_PAGE_COUNT ==> exists|m: int|
                0 <= m < frame_allocator.next && frame_allocator.frames@[m] == (
                #[trigger] heap_page_entry(*mapper, j))->Some_0.target);
    }
    let heap = match kind {
        StrategyKind::Bump => {
            let mut a = bump::BumpAllocator::new();
            a.init(HEAP_START, HEAP_SIZE);
            KernelHeap { strategy: Strategy::Bump(a) }
        },
        StrategyKind::LinkedList => {
            let mut a = linked_list::LinkedListAllocator::new();
            a.init(HEAP_START, HEAP_SIZE);
            KernelHeap { strategy: Strategy::LinkedList(a) }
        },
        StrategyKind::FixedSizeBlock => {
            let a = fixed_size_block::FixedSizeBlockAllocator::new(HEAP_START, HEAP_SIZE);
            KernelHeap { strategy: Strategy::FixedSizeBlock(a) }
        },
    };
    Ok(heap)
}

/// Two different pages of the heap window decompose to different last-level
/// indices: the window spans 25 pages inside one last-level table.
proof fn lemma_heap_pages_distinct(i: int, j: int)
    requires
        0 <= i < HEAP_PAGE_COUNT,
        0 <= j < HEAP_PAGE_COUNT,
        i != j,
    ensures
        crate::memory::l1_index(heap_page(i)) != crate::memory::l1_index(heap_page(j)),
{
    let iu = i as u64;
    let ju = j as u64;
    assert(iu < 25 ==> ((vstd::prelude::add(0x4444_4444_0000u64, vstd::prelude::mul(iu, 4096)))
        >> 12) & 0x1ff == vstd::prelude::add(64, iu)) by (bit_vector);
    assert(ju < 25 ==> ((vstd::prelude::add(0x4444_4444_0000u64, vstd::prelude::mul(ju, 4096)))
        >> 12) & 0x1ff == vstd::prelude::add(64, ju)) by (bit_vector);
}

/// All pages of the heap window share their walk above the last level: the
/// window lies inside one last-level table.
proof fn lemma_heap_pages_share_upper(i: int)
    requires
        0 <= i < HEAP_PAGE_COUNT,
    ensures
        crate::memory::l4_index(heap_page(i)) == crate::memory::l4_index(heap_page(0)),
        crate::memory::l3_index(heap_page(i)) == crate::memory::l3_index(heap_page(0)),
        crate::memory::l2_index(heap_page(i)) == crate::memory::l2_index(heap_page(0)),
{
    let iu = i as u64;
    assert(iu < 25 ==> ((vstd::prelude::add(0x4444_4444_0000u64, vstd::prelude::mul(iu, 4096)))
        >> 39) & 0x1ff == ((0x4444_4444_0000u64) >> 39) & 0x1ff) by (bit_vector);
    assert(iu < 25 ==> ((vstd::prelude::add(0x4444_4444_0000u64, vstd::prelude::mul(iu, 4096)))
        >> 30) & 0x1ff == ((0x4444_4444_0000u64) >> 30) & 0x1ff) by (bit_vector);
    assert(iu < 25 ==> ((vstd::prelude::add(0x4444_4444_0000u64, vstd::prelude::mul(iu, 4096)))
        >> 21) & 0x1ff == ((0x4444_4444_0000u64) >> 21) & 0x1ff) by (bit_vector);
}

} // verus!


