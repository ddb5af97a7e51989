//! Physical-frame bookkeeping and virtual-to-physical mapping over a model
//! of the 4-level page-table hierarchy.
//!
//! The boot collaborator supplies an immutable memory map; the frame source
//! hands out 4 KiB frames from its usable regions through a monotonic
//! cursor. Page tables are held as owned data: each level is an arena of
//! tables, and an entry either is absent or names a table of the next level
//! (or, at the last level, a physical frame). Writing the tables into
//! physical memory through the boot offset is the kernel binary's job.
use crate::allocator::{align_up, lemma_align_up_least, lemma_contains_after_push, lemma_mod_zero_sum, spec_align_up};
use vstd::arithmetic::div_mod::lemma_small_mod;
use vstd::std_specs::vec::vec_index_mut;
use vstd::prelude::*;

verus! {

broadcast use vstd::std_specs::vec::axiom_spec_len;

/// Size of a physical frame and of a virtual page, in bytes.
pub const PAGE_SIZE: u64 = 4096;

/// A boot-supplied span `[start, end)` of physical memory, tagged usable or
/// reserved.
#[derive(Clone, Copy)]
pub struct MemoryRegion {
    pub start: u64,
    pub end: u64,
    pub usable: bool,
}

/// `f` is a frame lying entirely inside a usable region among the first
/// `k` of `regions`.
pub open spec fn frame_in_usable_below(regions: Seq<MemoryRegion>, f: u64, k: int) -> bool {
    exists|r: int|
        0 <= r < k && r < regions.len() && (#[trigger] regions[r]).usable && regions[r].start <= f
            && f + PAGE_SIZE <= regions[r].end
}

/// `f` is a frame lying entirely inside a usable region of `regions`.
pub open spec fn frame_in_usable(regions: Seq<MemoryRegion>, f: u64) -> bool {
    frame_in_usable_below(regions, f, regions.len() as int)
}

/// Frame source over the boot memory map: the usable frames, in increasing
/// address order, handed out by a forward cursor. Frames are never
/// reclaimed.
pub struct BootInfoFrameAllocator {
    pub frames: Vec<u64>,
    pub next: usize,
    pub regions: Ghost<Seq<MemoryRegion>>,
}

impl BootInfoFrameAllocator {
    pub open spec fn wf(self) -> bool {
        &&& self.next <= self.frames@.len()
        &&& forall|i: int| 0 <= i < self.frames@.len() ==> (#[trigger] self.frames@[i]) % PAGE_SIZE == 0
        &&& forall|i: int, j: int|
            0 <= i < j < self.frames@.len() ==> (#[trigger] self.frames@[i]) < (#[trigger] self.frames@[j])
        &&& forall|i: int|
            0 <= i < self.frames@.len() ==> frame_in_usable(self.regions@, #[trigger] self.frames@[i])
    }

    /// Number of frames not yet handed out.
    pub open spec fn remaining(self) -> int {
        self.frames@.len() - self.next
    }

    /// Builds the frame source from the boot memory map: exactly the 4 KiB
    /// frames that lie entirely inside a usable region, in address order.
    /// Requires the map to be ordered and non-overlapping, as the boot
    /// collaborator supplies it.
    pub fn init(memory_map: &Vec<MemoryRegion>) -> (r: Self)
        requires
            forall|i: int, j: int|
                0 <= i < j < memory_map@.len()
                    ==> (#[trigger] memory_map@[i]).end <= (#[trigger] memory_map@[j]).start,
            forall|i: int| 0 <= i < memory_map@.len() ==> (#[trigger] memory_map@[i]).start <= memory_map@[i].end,
        ensures
            r.wf(),
            r.next == 0,
            r.regions@ == memory_map@,
            forall|f: u64|
                f % PAGE_SIZE == 0 && frame_in_usable(memory_map@, f) ==> #[trigger] r.frames@.contains(f),
    {
        let mut frames: Vec<u64> = Vec::new();
        let mut k: usize = 0;
        while k < memory_map.len()
            invariant
                k <= memory_map@.len(),
                forall|i: int, j: int|
                    0 <= i < j < memory_map@.len()
                        ==> (#[trigger] memory_map@[i]).end <= (#[trigger] memory_map@[j]).start,
                forall|i: int|
                    0 <= i < memory_map@.len() ==> (#[trigger] memory_map@[i]).start <= memory_map@[i].end,
                forall|i: int| 0 <= i < frames@.len() ==> (#[trigger] frames@[i]) % PAGE_SIZE == 0,
                forall|i: int, j: int|
                    0 <= i < j < frames@.len() ==> (#[trigger] frames@[i]) < (#[trigger] frames@[j]),
                forall|i: int|
                    0 <= i < frames@.len() ==> frame_in_usable(memory_map@, #[trigger] frames@[i]),
                forall|i: int|
                    0 <= i < frames@.len()
                        ==> (#[trigger] frames@[i]) + PAGE_SIZE <= memory_map@[k - 1].end,
                frames@.len() > 0 ==> k >= 1,
                forall|f: u64|
                    f % PAGE_SIZE == 0 && frame_in_usable_below(memory_map@, f, k as int)
                        ==> #[trigger] frames@.contains(f),
            decreases memory_map@.len() - k,
        {
            let region = memory_map[k];
            if region.usable && region.end >= PAGE_SIZE && region.start <= region.end - PAGE_SIZE {
                let last = region.end - PAGE_SIZE;
                let first = align_up(region.start, PAGE_SIZE);
                let mut f = first;
                while f <= last
                    invariant
                        region == memory_map@[k as int],
                        k < memory_map@.len(),
                        region.usable,
                        last == region.end - PAGE_SIZE,
                        region.end >= PAGE_SIZE,
                        f % PAGE_SIZE == 0,
                        first % PAGE_SIZE == 0,
                        region.start <= first <= f,
                        first == spec_align_up(region.start as int, PAGE_SIZE as int),
                        forall|i: int| 0 <= i < frames@.len() ==> (#[trigger] frames@[i]) % PAGE_SIZE == 0,
                        forall|i: int, j: int|
                            0 <= i < j < frames@.len() ==> (#[trigger] frames@[i]) < (#[trigger] frames@[j]),
                        forall|i: int|
                            0 <= i < frames@.len() ==> frame_in_usable(memory_map@, #[trigger] frames@[i]),
                        forall|i: int| 0 <= i < frames@.len() ==> (#[trigger] frames@[i]) < f,
                        forall|i: int|
                            0 <= i < frames@.len()
                                ==> (#[trigger] frames@[i]) + PAGE_SIZE <= region.end,
                        forall|f2: u64|
                            f2 % PAGE_SIZE == 0 && frame_in_usable_below(memory_map@, f2, k as int)
                                ==> #[trigger] frames@.contains(f2),
                        forall|f2: u64|
                            f2 % PAGE_SIZE == 0 && first <= f2 < f ==> #[trigger] frames@.contains(
                                f2,
                            ),
                    decreases last + PAGE_SIZE - f,
                {
                    let ghost pref = frames@;
                    let ghost fcur = f;
                    frames.push(f);
                    f = f + PAGE_SIZE;
                    proof {
                        assert(frames@[frames@.len() - 1] == fcur);
                        assert forall|g: u64| pref.contains(g) implies frames@.contains(g) by {
                            lemma_contains_after_push(pref, fcur, g);
                        }
                        assert forall|f2: u64|
                            f2 % PAGE_SIZE == 0 && frame_in_usable_below(
                                memory_map@,
                                f2,
                                k as int,
                            ) implies #[trigger] frames@.contains(f2) by {
                            assert(pref.contains(f2));
                            lemma_contains_after_push(pref, fcur, f2);
                        }
                        assert forall|f2: u64|
                            f2 % PAGE_SIZE == 0 && first <= f2 < f implies #[trigger] frames@.contains(f2) by {
                            if f2 < fcur {
                                assert(pref.contains(f2));
                            } else {
                                // the only frame-aligned address in
                                // [fcur, fcur + PAGE_SIZE) is fcur itself
                                lemma_mod_zero_sum(f2 as int, fcur as int, PAGE_SIZE as int);
                                lemma_small_mod((f2 - fcur) as nat, PAGE_SIZE as nat);
                                assert(f2 == fcur);
                            }
                        }
                    }
                }
                proof {
                    assert forall|f2: u64|
                        f2 % PAGE_SIZE == 0 && frame_in_usable_below(memory_map@, f2, k as int + 1)
                            implies #[trigger] frames@.contains(f2) by {
                        let rr = choose|r: int|
                            0 <= r < k as int + 1 && r < memory_map@.len() && (#[trigger] memory_map@[r]).usable
                                && memory_map@[r].start <= f2 && f2 + PAGE_SIZE <= memory_map@[r].end;
                        if rr < k as int {
                            assert(frame_in_usable_below(memory_map@, f2, k as int));
                        } else {
                            // inside region `k` itself: frame-aligned and at
                            // or above the start, so at or above `first`
                            lemma_align_up_least(region.start as int, PAGE_SIZE as int, f2 as int);
                        }
                    }
                }
            } else {
                proof {
                    assert forall|f2: u64|
                        f2 % PAGE_SIZE == 0 && frame_in_usable_below(memory_map@, f2, k as int + 1)
                            implies #[trigger] frames@.contains(f2) by {
                        let rr = choose|r: int|
                            0 <= r < k as int + 1 && r < memory_map@.len() && (#[trigger] memory_map@[r]).usable
                                && memory_map@[r].start <= f2 && f2 + PAGE_SIZE <= memory_map@[r].end;
                        if rr < k as int {
                            assert(frame_in_usable_below(memory_map@, f2, k as int));
                        }
                        // a skipped region holds no whole frame, so `rr`
                        // cannot be region `k`
                    }
                }
            }
            k = k + 1;
        }
        BootInfoFrameAllocator { frames, next: 0, regions: Ghost(memory_map@) }
    }

    /// Number of frames not yet handed out.
    pub fn remaining_frames(&self) -> (n: usize)
        requires
            self.wf(),
        ensures
            n == self.remaining(),
    {
        self.frames.len() - self.next
    }

    /// Hands out the next unused frame, or nothing once the usable regions
    /// are exhausted.
    pub fn allocate_frame(&mut self) -> (r: Option<u64>)
        requires
            old(self).wf(),
        ensures
            final(self).wf(),
            final(self).frames@ == old(self).frames@,
            final(self).regions@ == old(self).regions@,
            r is Some <==> old(self).remaining() > 0,
            r is None ==> *final(self) == *old(self),
            r matches Some(f) ==> {
                &&& f == old(self).frames@[old(self).next as int]
                &&& f % PAGE_SIZE == 0
                &&& frame_in_usable(old(self).regions@, f)
                &&& final(self).next == old(self).next + 1
                &&& final(self).remaining() == old(self).remaining() - 1
            },
    {
        if self.next < self.frames.len() {
            let f = self.frames[self.next];
            self.next = self.next + 1;
            Some(f)
        } else {
            None
        }
    }
}

/// Errors of the mapping path: physical memory ran out while allocating a
/// page-table frame, or the page already has a translation (remapping is a
/// caller bug and is surfaced, never silently ignored).
#[derive(Debug, Clone, Copy, PartialEq, Eq)]
pub enum MapError {
    FrameAllocationFailed,
    PageAlreadyMapped,
}

/// One slot of a page table: absent, or naming the next level's table (the
/// physical frame of the mapped page, at the last level) with its
/// permission flags.
#[derive(Debug, Clone, Copy)]
pub struct PageTableEntry {
    pub present: bool,
    pub writable: bool,
    pub target: u64,
}

/// One page table: 512 entries.
#[derive(Debug, Clone)]
pub struct PageTable {
    pub entries: Vec<PageTableEntry>,
}

pub open spec fn table_wf(t: PageTable) -> bool {
    t.entries@.len() == 512
}

/// Index of `va` within the top-level table.
pub open spec fn l4_index(va: u64) -> int {
    ((va >> 39) & 0x1ff) as int
}

pub open spec fn l3_index(va: u64) -> int {
    ((va >> 30) & 0x1ff) as int
}

pub open spec fn l2_index(va: u64) -> int {
    ((va >> 21) & 0x1ff) as int
}

pub open spec fn l1_index(va: u64) -> int {
    ((va >> 12) & 0x1ff) as int
}

/// Byte offset of `va` within its page.
pub open spec fn page_offset(va: u64) -> int {
    (va & 0xfff) as int
}

/// Each page-table index is one of 512 slots; the offset lies in the page.
pub proof fn lemma_index_bounds(va: u64)
    ensures
        0 <= l4_index(va) < 512,
        0 <= l3_index(va) < 512,
        0 <= l2_index(va) < 512,
        0 <= l1_index(va) < 512,
        0 <= page_offset(va) < 4096,
{
    assert(((va >> 39) & 0x1ff) < 512) by (bit_vector);
    assert(((va >> 30) & 0x1ff) < 512) by (bit_vector);
    assert(((va >> 21) & 0x1ff) < 512) by (bit_vector);
    assert(((va >> 12) & 0x1ff) < 512) by (bit_vector);
    assert((va & 0xfff) < 4096) by (bit_vector);
}

/// View over the active 4-level page-table hierarchy, held as owned data:
/// `l4` is the top-level table; `l3`, `l2`, `l1` are arenas of tables of
/// the lower levels, and a present entry's `target` is an index into the
/// next arena — at the last level, the mapped frame's base address. The
/// physical offset is where the kernel binary maps all physical memory to
/// reach the tables themselves.
pub struct OffsetMapper {
    pub phys_offset: u64,
    pub l4: PageTable,
    pub l3: Vec<PageTable>,
    pub l2: Vec<PageTable>,
    pub l1: Vec<PageTable>,
}

impl OffsetMapper {
    pub open spec fn wf(self) -> bool {
        &&& table_wf(self.l4)
        &&& forall|t: int| 0 <= t < self.l3@.len() ==> table_wf(#[trigger] self.l3@[t])
        &&& forall|t: int| 0 <= t < self.l2@.len() ==> table_wf(#[trigger] self.l2@[t])
        &&& forall|t: int| 0 <= t < self.l1@.len() ==> table_wf(#[trigger] self.l1@[t])
        &&& forall|i: int|
            0 <= i < 512 && (#[trigger] self.l4.entries@[i]).present ==> self.l4.entries@[i].target
                < self.l3@.len()
        &&& forall|t: int, i: int|
            0 <= t < self.l3@.len() && 0 <= i < 512 && (#[trigger] self.l3@[t].entries@[i]).present
                ==> self.l3@[t].entries@[i].target < self.l2@.len()
        &&& forall|t: int, i: int|
            0 <= t < self.l2@.len() && 0 <= i < 512 && (#[trigger] self.l2@[t].entries@[i]).present
                ==> self.l2@[t].entries@[i].target < self.l1@.len()
        &&& forall|t: int, i: int|
            0 <= t < self.l1@.len() && 0 <= i < 512 && (#[trigger] self.l1@[t].entries@[i]).present
                ==> self.l1@[t].entries@[i].target % PAGE_SIZE == 0
        &&& forall|i: int, j: int|
            0 <= i < 512 && 0 <= j < 512 && i != j && (#[trigger] self.l4.entries@[i]).present && (
            #[trigger] self.l4.entries@[j]).present ==> self.l4.entries@[i].target
                != self.l4.entries@[j].target
        &&& forall|t: int, i: int, u: int, j: int|
            #![trigger self.l3@[t].entries@[i], self.l3@[u].entries@[j]]
            0 <= t < self.l3@.len() && 0 <= i < 512 && 0 <= u < self.l3@.len() && 0 <= j < 512 && (t
                != u || i != j) && self.l3@[t].entries@[i].present && self.l3@[u].entries@[j].present
                ==> self.l3@[t].entries@[i].target != self.l3@[u].entries@[j].target
        &&& forall|t: int, i: int, u: int, j: int|
            #![trigger self.l2@[t].entries@[i], self.l2@[u].entries@[j]]
            0 <= t < self.l2@.len() && 0 <= i < 512 && 0 <= u < self.l2@.len() && 0 <= j < 512 && (t
                != u || i != j) && self.l2@[t].entries@[i].present && self.l2@[u].entries@[j].present
                ==> self.l2@[t].entries@[i].target != self.l2@[u].entries@[j].target
    }

    /// The last level of the walk: the entry itself, if present.
    pub open spec fn walk1(self, u1: int, i1: int) -> Option<PageTableEntry> {
        let e1 = self.l1@[u1].entries@[i1];
        if !e1.present {
            None
        } else {
            Some(e1)
        }
    }

    /// The walk from a mid-level table `u2` down.
    pub open spec fn walk2(self, u2: int, i2: int, i1: int) -> Option<PageTableEntry> {
        let e2 = self.l2@[u2].entries@[i2];
        if !e2.present {
            None
        } else {
            self.walk1(e2.target as int, i1)
        }
    }

    /// The walk from a level-3 table `u3` down.
    pub open spec fn walk3(self, u3: int, i3: int, i2: int, i1: int) -> Option<PageTableEntry> {
        let e3 = self.l3@[u3].entries@[i3];
        if !e3.present {
            None
        } else {
            self.walk2(e3.target as int, i2, i1)
        }
    }

    /// The entry the 4-level walk reaches for these indices, if every level
    /// on the way is present.
    pub open spec fn path_entry(self, i4: int, i3: int, i2: int, i1: int) -> Option<
        PageTableEntry,
    > {
        if !(0 <= i4 < 512 && 0 <= i3 < 512 && 0 <= i2 < 512 && 0 <= i1 < 512) {
            None
        } else {
            let e4 = self.l4.entries@[i4];
            if !e4.present {
                None
            } else {
                self.walk3(e4.target as int, i3, i2, i1)
            }
        }
    }

    /// `va` has a translation: the walk reaches a present last-level entry.
    pub open spec fn page_mapped(self, va: u64) -> bool {
        self.path_entry(l4_index(va), l3_index(va), l2_index(va), l1_index(va)) is Some
    }

    /// The physical address `va` translates to, or nothing if any level of
    /// the walk is absent.
    pub open spec fn spec_translate(self, va: u64) -> Option<u64> {
        match self.path_entry(l4_index(va), l3_index(va), l2_index(va), l1_index(va)) {
            Option::Some(e) => Some((e.target + page_offset(va)) as u64),
            Option::None => None,
        }
    }

    /// Walks the hierarchy for `addr`: the mapped frame plus the page
    /// offset, or nothing as soon as any level has no entry — never a
    /// fabricated partial address.
    pub fn translate(&self, addr: u64) -> (r: Option<u64>)
        requires
            self.wf(),
        ensures
            r == self.spec_translate(addr),
    {
        proof {
            lemma_index_bounds(addr);
        }
        let i4 = ((addr >> 39) & 0x1ff) as usize;
        let i3 = ((addr >> 30) & 0x1ff) as usize;
        let i2 = ((addr >> 21) & 0x1ff) as usize;
        let i1 = ((addr >> 12) & 0x1ff) as usize;
        let e4 = self.l4.entries[i4];
        if !e4.present {
            return None;
        }
        proof {
            assert(e4.target < self.l3.len());
        }
        let e3 = self.l3[e4.target as usize].entries[i3];
        if !e3.present {
            return None;
        }
        proof {
            assert(e3.target < self.l2.len());
        }
        let e2 = self.l2[e3.target as usize].entries[i2];
        if !e2.present {
            return None;
        }
        proof {
            assert(e2.target < self.l1.len());
        }
        let e1 = self.l1[e2.target as usize].entries[i1];
        if !e1.present {
            return None;
        }
        proof {
            assert(e1.target % PAGE_SIZE == 0);
            let t = e1.target;
            assert(t % 4096 == 0 ==> t <= 18446744073709547520u64) by (bit_vector);
        }
        Some(e1.target + (addr & 0xfff))
    }
}

impl OffsetMapper {
    /// How many intermediate page-table frames a mapping of `page` must
    /// allocate: one for each level of the walk that has no entry yet.
    pub open spec fn missing_tables(self, page: u64) -> int {
        let e4 = self.l4.entries@[l4_index(page)];
        if !e4.present {
            3
        } else {
            let e3 = self.l3@[e4.target as int].entries@[l3_index(page)];
            if !e3.present {
                2
            } else {
                let e2 = self.l2@[e3.target as int].entries@[l2_index(page)];
                if !e2.present {
                    1
                } else {
                    0
                }
            }
        }
    }

    /// Installs the translation `page -> frame`, allocating any missing
    /// intermediate page-table frames from the frame source. The caller must
    /// flush the translation cache for the page before relying on the
    /// mapping. Mapping an already-mapped page is an error; so is running
    /// out of frames for intermediate tables, checked before anything is
    /// changed, so a failed call leaves both the tables and the frame
    /// source untouched.
    pub fn map(
        &mut self,
        page: u64,
        frame: u64,
        writable: bool,
        frame_allocator: &mut BootInfoFrameAllocator,
    ) -> (r: Result<(), MapError>)
        requires
            old(self).wf(),
            old(frame_allocator).wf(),
            frame % PAGE_SIZE == 0,
        ensures
            final(self).wf(),
            final(frame_allocator).wf(),
            final(self).phys_offset == old(self).phys_offset,
            final(frame_allocator).frames@ == old(frame_allocator).frames@,
            final(frame_allocator).regions@ == old(frame_allocator).regions@,
            old(frame_allocator).next <= final(frame_allocator).next,
            final(frame_allocator).remaining() >= old(frame_allocator).remaining() - 3,
            r == Err::<(), MapError>(MapError::PageAlreadyMapped) <==> old(self).page_mapped(page),
            r is Err ==> *final(self) == *old(self) && *final(frame_allocator) == *old(
                frame_allocator,
            ),
            r == Err::<(), MapError>(MapError::FrameAllocationFailed) <==> !old(self).page_mapped(
                page,
            ) && old(frame_allocator).remaining() < old(self).missing_tables(page),
            !old(self).page_mapped(page) && old(frame_allocator).remaining() >= old(
                self,
            ).missing_tables(page) ==> r is Ok,
            r is Ok ==> final(frame_allocator).remaining() == old(frame_allocator).remaining()
                - old(self).missing_tables(page),
            r is Ok ==> final(self).path_entry(
                l4_index(page),
                l3_index(page),
                l2_index(page),
                l1_index(page),
            ) == Some(PageTableEntry { present: true, writable, target: frame }),
            r is Ok ==> forall|a: int, b: int, c: int, d: int|
                !(a == l4_index(page) && b == l3_index(page) && c == l2_index(page) && d
                    == l1_index(page)) ==> #[trigger] final(self).path_entry(a, b, c, d) == old(
                    self,
                ).path_entry(a, b, c, d),
    {
        proof {
            lemma_index_bounds(page);
        }
        let i4 = ((page >> 39) & 0x1ff) as usize;
        let i3 = ((page >> 30) & 0x1ff) as usize;
        let i2 = ((page >> 21) & 0x1ff) as usize;
        let i1 = ((page >> 12) & 0x1ff) as usize;
        let ghost m0 = *self;

        // Probe the existing walk.
        let e4 = self.l4.entries[i4];
        let have3 = e4.present;
        let t3probe: usize = if e4.present {
            proof {
                assert(e4.target < self.l3.len());
            }
            e4.target as usize
        } else {
            0
        };
        let mut have2 = false;
        let mut t2probe: usize = 0;
        if have3 {
            let e3 = self.l3[t3probe].entries[i3];
            if e3.present {
                proof {
                    assert(e3.target < self.l2.len());
                }
                have2 = true;
                t2probe = e3.target as usize;
            }
        }
        let mut have1 = false;
        let mut t1probe: usize = 0;
        if have2 {
            let e2 = self.l2[t2probe].entries[i2];
            if e2.present {
                proof {
                    assert(e2.target < self.l1.len());
                }
                have1 = true;
                t1probe = e2.target as usize;
            }
        }
        if have1 {
            let e1 = self.l1[t1probe].entries[i1];
            if e1.present {
                proof {
                    assert(old(self).page_mapped(page));
                }
                return Err(MapError::PageAlreadyMapped);
            }
        }
        proof {
            assert(!old(self).page_mapped(page));
        }
        let needed: usize = if !have3 {
            3
        } else if !have2 {
            2
        } else if !have1 {
            1
        } else {
            0
        };
        proof {
            assert(needed as int == old(self).missing_tables(page));
        }
        if frame_allocator.remaining_frames() < needed {
            return Err(MapError::FrameAllocationFailed);
        }

        // Create whatever levels are missing, top down. Each fresh table
        // consumes one physical frame; its arena index is new, so nothing
        // else can reach it.
        let t3: usize = if have3 {
            t3probe
        } else {
            match frame_allocator.allocate_frame() {
                Option::Some(_f) => {},
                Option::None => {
                    proof {
                        assert(false);
                    }
                    return Err(MapError::FrameAllocationFailed);
                },
            }
            let idx = self.l3.len();
            self.l3.push(empty_table());
            let er = vec_index_mut(&mut self.l4.entries, i4);
            *er = PageTableEntry { present: true, writable: true, target: idx as u64 };
            idx
        };
        let t2: usize = if have2 {
            t2probe
        } else {
            match frame_allocator.allocate_frame() {
                Option::Some(_f) => {},
                Option::None => {
                    proof {
                        assert(false);
                    }
                    return Err(MapError::FrameAllocationFailed);
                },
            }
            let idx = self.l2.len();
            self.l2.push(empty_table());
            let tr = vec_index_mut(&mut self.l3, t3);
            let er = vec_index_mut(&mut tr.entries, i3);
            *er = PageTableEntry { present: true, writable: true, target: idx as u64 };
            idx
        };
        let t1: usize = if have1 {
            t1probe
        } else {
            match frame_allocator.allocate_frame() {
                Option::Some(_f) => {},
                Option::None => {
                    proof {
                        assert(false);
                    }
                    return Err(MapError::FrameAllocationFailed);
                },
            }
            let idx = self.l1.len();
            self.l1.push(empty_table());
            let tr = vec_index_mut(&mut self.l2, t2);
            let er = vec_index_mut(&mut tr.entries, i2);
            *er = PageTableEntry { present: true, writable: true, target: idx as u64 };
            idx
        };
        let tr = vec_index_mut(&mut self.l1, t1);
        let er = vec_index_mut(&mut tr.entries, i1);
        *er = PageTableEntry { present: true, writable, target: frame };
        proof {
            // Stage, clause by clause, the description of the new state
            // that the installation lemma takes as its hypothesis.
            let a4i = l4_index(page);
            let a3i = l3_index(page);
            let a2i = l2_index(page);
            let a1i = l1_index(page);
            let mf = *self;
            assert(m0.l3.len() == m0.l3@.len());
            assert(m0.l2.len() == m0.l2@.len());
            assert(m0.l1.len() == m0.l1@.len());
            assert(have3 ==> m0.l4.entries@[a4i].present && t3 == m0.l4.entries@[a4i].target);
            assert(!have3 ==> !m0.l4.entries@[a4i].present && t3 == m0.l3@.len());
            assert(have2 ==> m0.l3@[t3 as int].entries@[a3i].present && t2 == m0.l3@[t3 as int].entries@[a3i].target);
            assert(!have2 ==> t2 == m0.l2@.len());
            assert(have1 ==> m0.l2@[t2 as int].entries@[a2i].present && t1 == m0.l2@[t2 as int].entries@[a2i].target);
            assert(!have1 ==> t1 == m0.l1@.len());
            assert(forall|i: int| 0 <= i < 512 && i != a4i ==> mf.l4.entries@[i] == m0.l4.entries@[i]);
            assert(mf.l4.entries@[a4i] == if have3 { m0.l4.entries@[a4i] } else { parent_entry(t3 as int) });
            assert(mf.l3@.len() == m0.l3@.len() + if have3 { 0int } else { 1int });
            assert(forall|t: int| 0 <= t < m0.l3@.len() && t != t3 as int ==> (#[trigger] mf.l3@[t]).entries@ == m0.l3@[t].entries@);
            assert(mf.l3@[t3 as int].entries@.len() == 512);
            assert(forall|j: int| 0 <= j < 512 && j != a3i ==> ((have3 ==> (#[trigger] mf.l3@[t3 as int].entries@[j]) == m0.l3@[t3 as int].entries@[j]) && (!have3 ==> !(#[trigger] mf.l3@[t3 as int].entries@[j]).present)));
            assert(mf.l3@[t3 as int].entries@[a3i] == if have2 { m0.l3@[t3 as int].entries@[a3i] } else { parent_entry(t2 as int) });
            assert(mf.l2@.len() == m0.l2@.len() + if have2 { 0int } else { 1int });
            assert(forall|t: int| 0 <= t < m0.l2@.len() && t != t2 as int ==> (#[trigger] mf.l2@[t]).entries@ == m0.l2@[t].entries@);
            assert(mf.l2@[t2 as int].entries@.len() == 512);
            assert(forall|j: int| 0 <= j < 512 && j != a2i ==> ((have2 ==> (#[trigger] mf.l2@[t2 as int].entries@[j]) == m0.l2@[t2 as int].entries@[j]) && (!have2 ==> !(#[trigger] mf.l2@[t2 as int].entries@[j]).present)));
            assert(mf.l2@[t2 as int].entries@[a2i] == if have1 { m0.l2@[t2 as int].entries@[a2i] } else { parent_entry(t1 as int) });
            assert(mf.l1@.len() == m0.l1@.len() + if have1 { 0int } else { 1int });
            assert(forall|t: int| 0 <= t < m0.l1@.len() && t != t1 as int ==> (#[trigger] mf.l1@[t]).entries@ == m0.l1@[t].entries@);
            assert(mf.l1@[t1 as int].entries@.len() == 512);
            assert(forall|j: int| 0 <= j < 512 && j != a1i ==> ((have1 ==> (#[trigger] mf.l1@[t1 as int].entries@[j]) == m0.l1@[t1 as int].entries@[j]) && (!have1 ==> !(#[trigger] mf.l1@[t1 as int].entries@[j]).present)));
            assert(mf.l1@[t1 as int].entries@[a1i] == PageTableEntry { present: true, writable, target: frame });
            lemma_map_install(
                m0,
                *self,
                l4_index(page),
                l3_index(page),
                l2_index(page),
                l1_index(page),
                t3 as int,
                t2 as int,
                t1 as int,
                have3,
                have2,
                have1,
                frame,
                writable,
            );
        }
        Ok(())
    }
}

/// The entry written into a parent table when a missing level is created.
pub open spec fn parent_entry(t: int) -> PageTableEntry {
    PageTableEntry { present: true, writable: true, target: t as u64 }
}

/// After installing a mapping at `(a4, a3, a2, a1)` — reusing present
/// levels, appending fresh tables for absent ones, and writing the final
/// entry — the mapper is well-formed again, the new walk reaches the new
/// entry, and every other walk is exactly what it was.
proof fn lemma_map_install(
    m0: OffsetMapper,
    mf: OffsetMapper,
    a4: int,
    a3: int,
    a2: int,
    a1: int,
    t3: int,
    t2: int,
    t1: int,
    have3: bool,
    have2: bool,
    have1: bool,
    frame: u64,
    writable: bool,
)
    requires
        map_install_pre(m0, mf, a4, a3, a2, a1, t3, t2, t1, have3, have2, have1, frame, writable),
    ensures
        mf.wf(),
        mf.path_entry(a4, a3, a2, a1) == Some(
            PageTableEntry { present: true, writable, target: frame },
        ),
        forall|a: int, b: int, c: int, d: int|
            !(a == a4 && b == a3 && c == a2 && d == a1) ==> #[trigger] mf.path_entry(a, b, c, d)
                == m0.path_entry(a, b, c, d),
{
    assert(0 <= t3 < mf.l3@.len());
    assert(0 <= t2 < mf.l2@.len());
    assert(0 <= t1 < mf.l1@.len());
    // Well-formedness, level by level.
    assert forall|t: int| 0 <= t < mf.l3@.len() implies table_wf(#[trigger] mf.l3@[t]) by {
        if t != t3 {
            assert(mf.l3@[t].entries@ == m0.l3@[t].entries@);
        }
    }
    assert forall|t: int| 0 <= t < mf.l2@.len() implies table_wf(#[trigger] mf.l2@[t]) by {
        if t != t2 {
            assert(mf.l2@[t].entries@ == m0.l2@[t].entries@);
        }
    }
    assert forall|t: int| 0 <= t < mf.l1@.len() implies table_wf(#[trigger] mf.l1@[t]) by {
        if t != t1 {
            assert(mf.l1@[t].entries@ == m0.l1@[t].entries@);
        }
    }
    assert forall|i: int|
        0 <= i < 512 && (#[trigger] mf.l4.entries@[i]).present implies mf.l4.entries@[i].target
        < mf.l3@.len() by {
        if i != a4 {
            assert(mf.l4.entries@[i] == m0.l4.entries@[i]);
        }
    }
    assert forall|t: int, i: int|
        0 <= t < mf.l3@.len() && 0 <= i < 512 && (#[trigger] mf.l3@[t].entries@[i]).present
        implies mf.l3@[t].entries@[i].target < mf.l2@.len() by {
        if t != t3 {
            assert(mf.l3@[t].entries@ == m0.l3@[t].entries@);
        }
    }
    assert forall|t: int, i: int|
        0 <= t < mf.l2@.len() && 0 <= i < 512 && (#[trigger] mf.l2@[t].entries@[i]).present
        implies mf.l2@[t].entries@[i].target < mf.l1@.len() by {
        if t != t2 {
            assert(mf.l2@[t].entries@ == m0.l2@[t].entries@);
        }
    }
    assert forall|t: int, i: int|
        0 <= t < mf.l1@.len() && 0 <= i < 512 && (#[trigger] mf.l1@[t].entries@[i]).present
        implies mf.l1@[t].entries@[i].target % PAGE_SIZE == 0 by {
        if t != t1 {
            assert(mf.l1@[t].entries@ == m0.l1@[t].entries@);
        }
    }
    assert forall|i: int, j: int|
        0 <= i < 512 && 0 <= j < 512 && i != j && (#[trigger] mf.l4.entries@[i]).present && (
    #[trigger] mf.l4.entries@[j]).present implies mf.l4.entries@[i].target
        != mf.l4.entries@[j].target by {
        if i != a4 && j != a4 {
            assert(mf.l4.entries@[i] == m0.l4.entries@[i]);
            assert(mf.l4.entries@[j] == m0.l4.entries@[j]);
        } else if i == a4 {
            assert(mf.l4.entries@[j] == m0.l4.entries@[j]);
            if !have3 {
                assert(m0.l4.entries@[j].target < m0.l3@.len());
            }
        } else {
            assert(mf.l4.entries@[i] == m0.l4.entries@[i]);
            if !have3 {
                assert(m0.l4.entries@[i].target < m0.l3@.len());
            }
        }
    }
    assert forall|t: int, i: int, u: int, j: int|
        #![trigger mf.l3@[t].entries@[i], mf.l3@[u].entries@[j]]
        0 <= t < mf.l3@.len() && 0 <= i < 512 && 0 <= u < mf.l3@.len() && 0 <= j < 512 && (t != u
            || i != j) && mf.l3@[t].entries@[i].present && mf.l3@[u].entries@[j].present
        implies mf.l3@[t].entries@[i].target != mf.l3@[u].entries@[j].target by {
        lemma_l3_entry_origin(m0, mf, a4, a3, a2, a1, t3, t2, t1, have3, have2, have1, frame, writable, t, i);
        lemma_l3_entry_origin(m0, mf, a4, a3, a2, a1, t3, t2, t1, have3, have2, have1, frame, writable, u, j);
    }
    assert forall|t: int, i: int, u: int, j: int|
        #![trigger mf.l2@[t].entries@[i], mf.l2@[u].entries@[j]]
        0 <= t < mf.l2@.len() && 0 <= i < 512 && 0 <= u < mf.l2@.len() && 0 <= j < 512 && (t != u
            || i != j) && mf.l2@[t].entries@[i].present && mf.l2@[u].entries@[j].present
        implies mf.l2@[t].entries@[i].target != mf.l2@[u].entries@[j].target by {
        lemma_l2_entry_origin(m0, mf, a4, a3, a2, a1, t3, t2, t1, have3, have2, have1, frame, writable, t, i);
        lemma_l2_entry_origin(m0, mf, a4, a3, a2, a1, t3, t2, t1, have3, have2, have1, frame, writable, u, j);
    }
    assert(mf.wf());
    // The new walk reaches the new entry.
    assert(mf.l4.entries@[a4].present && mf.l4.entries@[a4].target == t3);
    assert(mf.l3@[t3].entries@[a3].present && mf.l3@[t3].entries@[a3].target == t2);
    assert(mf.l2@[t2].entries@[a2].present && mf.l2@[t2].entries@[a2].target == t1);
    assert(mf.path_entry(a4, a3, a2, a1) == Some(
        PageTableEntry { present: true, writable, target: frame },
    ));
    // Every other walk is untouched.
    assert forall|a: int, b: int, c: int, d: int|
        !(a == a4 && b == a3 && c == a2 && d == a1) implies #[trigger] mf.path_entry(a, b, c, d)
        == m0.path_entry(a, b, c, d) by {
        if 0 <= a < 512 && 0 <= b < 512 && 0 <= c < 512 && 0 <= d < 512 {
            lemma_walk_preserved(m0, mf, a4, a3, a2, a1, t3, t2, t1, have3, have2, have1, frame, writable, a, b, c, d);
        }
    }
}

/// Any present level-3 entry of the new state is either an old entry of an
/// old table, or the one entry just written.
proof fn lemma_l3_entry_origin(
    m0: OffsetMapper,
    mf: OffsetMapper,
    a4: int,
    a3: int,
    a2: int,
    a1: int,
    t3: int,
    t2: int,
    t1: int,
    have3: bool,
    have2: bool,
    have1: bool,
    frame: u64,
    writable: bool,
    t: int,
    i: int,
)
    requires
        map_install_pre(m0, mf, a4, a3, a2, a1, t3, t2, t1, have3, have2, have1, frame, writable),
        0 <= t < mf.l3@.len(),
        0 <= i < 512,
        mf.l3@[t].entries@[i].present,
    ensures
        (t == t3 && i == a3 && !have2 && mf.l3@[t].entries@[i] == parent_entry(t2)) || (t
            < m0.l3@.len() && mf.l3@[t].entries@[i] == m0.l3@[t].entries@[i]
            && m0.l3@[t].entries@[i].present),
{
    if t == t3 {
        if i == a3 {
            if have2 {
                assert(mf.l3@[t3].entries@[a3] == m0.l3@[t3].entries@[a3]);
            }
        } else {
            if !have3 {
                assert(!mf.l3@[t3].entries@[i].present);
            }
        }
    } else {
        if t < m0.l3@.len() {
            assert(mf.l3@[t].entries@ == m0.l3@[t].entries@);
        } else {
            assert(false);
        }
    }
}

/// Any present level-2 entry of the new state is either an old entry of an
/// old table, or the one entry just written.
proof fn lemma_l2_entry_origin(
    m0: OffsetMapper,
    mf: OffsetMapper,
    a4: int,
    a3: int,
    a2: int,
    a1: int,
    t3: int,
    t2: int,
    t1: int,
    have3: bool,
    have2: bool,
    have1: bool,
    frame: u64,
    writable: bool,
    t: int,
    i: int,
)
    requires
        map_install_pre(m0, mf, a4, a3, a2, a1, t3, t2, t1, have3, have2, have1, frame, writable),
        0 <= t < mf.l2@.len(),
        0 <= i < 512,
        mf.l2@[t].entries@[i].present,
    ensures
        (t == t2 && i == a2 && !have1 && mf.l2@[t].entries@[i] == parent_entry(t1)) || (t
            < m0.l2@.len() && mf.l2@[t].entries@[i] == m0.l2@[t].entries@[i]
            && m0.l2@[t].entries@[i].present),
{
    if t == t2 {
        if i == a2 {
            if have1 {
                assert(mf.l2@[t2].entries@[a2] == m0.l2@[t2].entries@[a2]);
            }
        } else {
            if !have2 {
                assert(!mf.l2@[t2].entries@[i].present);
            }
        }
    } else {
        if t < m0.l2@.len() {
            assert(mf.l2@[t].entries@ == m0.l2@[t].entries@);
        } else {
            assert(false);
        }
    }
}

/// A walk over any index tuple other than the one being installed ends as
/// it did before: either through untouched tables with the old outcome, or
/// into the freshly created chain, whose only present entries lead to the
/// installed tuple, so it dies absent exactly as it did before.
proof fn lemma_walk_preserved(
    m0: OffsetMapper,
    mf: OffsetMapper,
    a4: int,
    a3: int,
    a2: int,
    a1: int,
    t3: int,
    t2: int,
    t1: int,
    have3: bool,
    have2: bool,
    have1: bool,
    frame: u64,
    writable: bool,
    a: int,
    b: int,
    c: int,
    d: int,
)
    requires
        map_install_pre(m0, mf, a4, a3, a2, a1, t3, t2, t1, have3, have2, have1, frame, writable),
        0 <= a < 512 && 0 <= b < 512 && 0 <= c < 512 && 0 <= d < 512,
        !(a == a4 && b == a3 && c == a2 && d == a1),
    ensures
        mf.path_entry(a, b, c, d) == m0.path_entry(a, b, c, d),
{
    if a != a4 {
        assert(mf.l4.entries@[a] == m0.l4.entries@[a]);
        if m0.l4.entries@[a].present {
            let u3 = m0.l4.entries@[a].target as int;
            assert(u3 < m0.l3@.len());
            assert(u3 != t3) by {
                if have3 {
                    assert(m0.l4.entries@[a4].present);
                }
            }
            lemma_walk3_preserved(m0, mf, a4, a3, a2, a1, t3, t2, t1, have3, have2, have1, frame, writable, u3, b, c, d, false);
        }
    } else {
        if !have3 {
            assert(m0.path_entry(a, b, c, d) is None);
            assert(mf.l4.entries@[a4] == parent_entry(t3));
            lemma_fresh_walk3(m0, mf, a4, a3, a2, a1, t3, t2, t1, have3, have2, have1, frame, writable, b, c, d);
        } else {
            assert(mf.l4.entries@[a4] == m0.l4.entries@[a4]);
            lemma_walk3_preserved(m0, mf, a4, a3, a2, a1, t3, t2, t1, have3, have2, have1, frame, writable, t3, b, c, d, true);
        }
    }
}

/// A walk into the freshly created level-3 table finds nothing, except at
/// the installed tuple itself: fresh tables are empty but for the one chain
/// written into them.
proof fn lemma_fresh_walk3(
    m0: OffsetMapper,
    mf: OffsetMapper,
    a4: int,
    a3: int,
    a2: int,
    a1: int,
    t3: int,
    t2: int,
    t1: int,
    have3: bool,
    have2: bool,
    have1: bool,
    frame: u64,
    writable: bool,
    b: int,
    c: int,
    d: int,
)
    requires
        map_install_pre(m0, mf, a4, a3, a2, a1, t3, t2, t1, have3, have2, have1, frame, writable),
        0 <= b < 512 && 0 <= c < 512 && 0 <= d < 512,
        !have3,
        !(b == a3 && c == a2 && d == a1),
    ensures
        mf.walk3(t3, b, c, d) is None,
{
    if b != a3 {
        assert(!mf.l3@[t3].entries@[b].present);
    } else {
        assert(mf.l3@[t3].entries@[a3] == parent_entry(t2));
        if c != a2 {
            assert(!mf.l2@[t2].entries@[c].present);
        } else {
            assert(mf.l2@[t2].entries@[a2] == parent_entry(t1));
            assert(d != a1);
            assert(!mf.l1@[t1].entries@[d].present);
        }
    }
}

/// The walk from a level-3 table that existed before is unchanged: off the
/// installed chain it reads only untouched entries, and where it enters the
/// fresh part of the chain it finds, as before, nothing.
proof fn lemma_walk3_preserved(
    m0: OffsetMapper,
    mf: OffsetMapper,
    a4: int,
    a3: int,
    a2: int,
    a1: int,
    t3: int,
    t2: int,
    t1: int,
    have3: bool,
    have2: bool,
    have1: bool,
    frame: u64,
    writable: bool,
    u3: int,
    b: int,
    c: int,
    d: int,
    on3: bool,
)
    requires
        map_install_pre(m0, mf, a4, a3, a2, a1, t3, t2, t1, have3, have2, have1, frame, writable),
        0 <= b < 512 && 0 <= c < 512 && 0 <= d < 512,
        0 <= u3 < m0.l3@.len(),
        on3 ==> have3 && u3 == t3 && !(b == a3 && c == a2 && d == a1),
        !on3 ==> u3 != t3,
    ensures
        mf.walk3(u3, b, c, d) == m0.walk3(u3, b, c, d),
{
    let eb = m0.l3@[u3].entries@[b];
    if !on3 {
        assert(mf.l3@[u3].entries@ == m0.l3@[u3].entries@);
    } else if b != a3 {
        assert(mf.l3@[u3].entries@[b] == m0.l3@[u3].entries@[b]);
    }
    if on3 && b == a3 && !have2 {
        // the old walk dies here; the new one runs into the fresh chain and
        // dies below, because the tuple is not the installed one
        assert(!eb.present);
        assert(mf.l3@[t3].entries@[a3] == parent_entry(t2));
        if c != a2 {
            assert(!mf.l2@[t2].entries@[c].present);
        } else {
            assert(mf.l2@[t2].entries@[a2] == parent_entry(t1));
            assert(d != a1);
            assert(!mf.l1@[t1].entries@[d].present);
        }
        assert(mf.walk3(u3, b, c, d) is None);
        return ;
    }
    if on3 && b == a3 && have2 {
        assert(mf.l3@[u3].entries@[b] == m0.l3@[u3].entries@[b]);
    }
    assert(mf.l3@[u3].entries@[b] == eb);
    if eb.present {
        let u2 = eb.target as int;
        assert(u2 < m0.l2@.len());
        let on2 = on3 && b == a3;
        if on2 {
            assert(have2 && u2 == t2);
        } else {
            assert(u2 != t2) by {
                if have2 {
                    assert(m0.l3@[t3].entries@[a3].present);
                    assert(u3 != t3 || b != a3);
                }
            }
        }
        lemma_walk2_preserved(m0, mf, a4, a3, a2, a1, t3, t2, t1, have3, have2, have1, frame, writable, u2, c, d, on2);
    }
}

/// The walk from a mid-level table that existed before is unchanged, by the
/// same argument one level down.
proof fn lemma_walk2_preserved(
    m0: OffsetMapper,
    mf: OffsetMapper,
    a4: int,
    a3: int,
    a2: int,
    a1: int,
    t3: int,
    t2: int,
    t1: int,
    have3: bool,
    have2: bool,
    have1: bool,
    frame: u64,
    writable: bool,
    u2: int,
    c: int,
    d: int,
    on2: bool,
)
    requires
        map_install_pre(m0, mf, a4, a3, a2, a1, t3, t2, t1, have3, have2, have1, frame, writable),
        0 <= c < 512 && 0 <= d < 512,
        0 <= u2 < m0.l2@.len(),
        on2 ==> have2 && u2 == t2 && !(c == a2 && d == a1),
        !on2 ==> u2 != t2,
    ensures
        mf.walk2(u2, c, d) == m0.walk2(u2, c, d),
{
    let ec = m0.l2@[u2].entries@[c];
    if !on2 {
        assert(mf.l2@[u2].entries@ == m0.l2@[u2].entries@);
    } else if c != a2 {
        assert(mf.l2@[u2].entries@[c] == m0.l2@[u2].entries@[c]);
    }
    if on2 && c == a2 && !have1 {
        assert(!ec.present);
        assert(mf.l2@[t2].entries@[a2] == parent_entry(t1));
        assert(d != a1);
        assert(!mf.l1@[t1].entries@[d].present);
        assert(mf.walk2(u2, c, d) is None);
        return ;
    }
    if on2 && c == a2 && have1 {
        assert(mf.l2@[u2].entries@[c] == m0.l2@[u2].entries@[c]);
    }
    assert(mf.l2@[u2].entries@[c] == ec);
    if ec.present {
        let u1 = ec.target as int;
        assert(u1 < m0.l1@.len());
        let on1 = on2 && c == a2;
        if on1 {
            assert(have1 && u1 == t1);
            assert(d != a1);
            assert(mf.l1@[u1].entries@[d] == m0.l1@[u1].entries@[d]);
        } else {
            assert(u1 != t1) by {
                if have1 {
                    assert(m0.l2@[t2].entries@[a2].present);
                    assert(u2 != t2 || c != a2);
                }
            }
            assert(mf.l1@[u1].entries@ == m0.l1@[u1].entries@);
        }
    }
}

/// The hypotheses of `lemma_map_install`, shared by its helper lemmas.
pub open spec fn map_install_pre(
    m0: OffsetMapper,
    mf: OffsetMapper,
    a4: int,
    a3: int,
    a2: int,
    a1: int,
    t3: int,
    t2: int,
    t1: int,
    have3: bool,
    have2: bool,
    have1: bool,
    frame: u64,
    writable: bool,
) -> bool {
    &&& m0.wf()
    &&& m0.l3@.len() <= u64::MAX
    &&& m0.l2@.len() <= u64::MAX
    &&& m0.l1@.len() <= u64::MAX
    &&& 0 <= a4 < 512 && 0 <= a3 < 512 && 0 <= a2 < 512 && 0 <= a1 < 512
    &&& (have2 ==> have3)
    &&& (have1 ==> have2)
    &&& frame % PAGE_SIZE == 0
    &&& (have3 ==> m0.l4.entries@[a4].present && t3 == m0.l4.entries@[a4].target)
    &&& (!have3 ==> !m0.l4.entries@[a4].present && t3 == m0.l3@.len())
    &&& (have2 ==> m0.l3@[t3].entries@[a3].present && t2 == m0.l3@[t3].entries@[a3].target)
    &&& (!have2 ==> t2 == m0.l2@.len())
    &&& (have3 && !have2 ==> !m0.l3@[t3].entries@[a3].present)
    &&& (have1 ==> m0.l2@[t2].entries@[a2].present && t1 == m0.l2@[t2].entries@[a2].target)
    &&& (!have1 ==> t1 == m0.l1@.len())
    &&& (have2 && !have1 ==> !m0.l2@[t2].entries@[a2].present)
    &&& (have1 ==> !m0.l1@[t1].entries@[a1].present)
    &&& mf.phys_offset == m0.phys_offset
    &&& mf.l4.entries@.len() == 512
    &&& forall|i: int| 0 <= i < 512 && i != a4 ==> mf.l4.entries@[i] == m0.l4.entries@[i]
    &&& mf.l4.entries@[a4] == if have3 {
        m0.l4.entries@[a4]
    } else {
        parent_entry(t3)
    }
    &&& mf.l3@.len() == m0.l3@.len() + if have3 {
        0int
    } else {
        1int
    }
    &&& forall|t: int|
        0 <= t < m0.l3@.len() && t != t3 ==> (#[trigger] mf.l3@[t]).entries@ == m0.l3@[t].entries@
    &&& mf.l3@[t3].entries@.len() == 512
    &&& forall|j: int|
        0 <= j < 512 && j != a3 ==> {
            &&& (have3 ==> (#[trigger] mf.l3@[t3].entries@[j]) == m0.l3@[t3].entries@[j])
            &&& (!have3 ==> !(#[trigger] mf.l3@[t3].entries@[j]).present)
        }
    &&& mf.l3@[t3].entries@[a3] == if have2 {
        m0.l3@[t3].entries@[a3]
    } else {
        parent_entry(t2)
    }
    &&& mf.l2@.len() == m0.l2@.len() + if have2 {
        0int
    } else {
        1int
    }
    &&& forall|t: int|
        0 <= t < m0.l2@.len() && t != t2 ==> (#[trigger] mf.l2@[t]).entries@ == m0.l2@[t].entries@
    &&& mf.l2@[t2].entries@.len() == 512
    &&& forall|j: int|
        0 <= j < 512 && j != a2 ==> {
            &&& (have2 ==> (#[trigger] mf.l2@[t2].entries@[j]) == m0.l2@[t2].entries@[j])
            &&& (!have2 ==> !(#[trigger] mf.l2@[t2].entries@[j]).present)
        }
    &&& mf.l2@[t2].entries@[a2] == if have1 {
        m0.l2@[t2].entries@[a2]
    } else {
        parent_entry(t1)
    }
    &&& mf.l1@.len() == m0.l1@.len() + if have1 {
        0int
    } else {
        1int
    }
    &&& forall|t: int|
        0 <= t < m0.l1@.len() && t != t1 ==> (#[trigger] mf.l1@[t]).entries@ == m0.l1@[t].entries@
    &&& mf.l1@[t1].entries@.len() == 512
    &&& forall|j: int|
        0 <= j < 512 && j != a1 ==> {
            &&& (have1 ==> (#[trigger] mf.l1@[t1].entries@[j]) == m0.l1@[t1].entries@[j])
            &&& (!have1 ==> !(#[trigger] mf.l1@[t1].entries@[j]).present)
        }
    &&& mf.l1@[t1].entries@[a1] == PageTableEntry { present: true, writable, target: frame }
}

/// A table with every entry absent.
fn empty_table() -> (t: PageTable)
    ensures
        table_wf(t),
        forall|i: int| 0 <= i < 512 ==> !(#[trigger] t.entries@[i]).present,
{
    let mut entries: Vec<PageTableEntry> = Vec::new();
    let mut k: usize = 0;
    while k < 512
        invariant
            k == entries@.len(),
            k <= 512,
            forall|i: int| 0 <= i < k ==> !(#[trigger] entries@[i]).present,
        decreases 512 - k,
    {
        entries.push(PageTableEntry { present: false, writable: false, target: 0 });
        k = k + 1;
    }
    PageTable { entries }
}

/// Builds the view over the page-table hierarchy reached through the given
/// physical-memory offset, with no translations installed yet.
pub fn init(physical_memory_offset: u64) -> (m: OffsetMapper)
    ensures
        m.wf(),
        m.phys_offset == physical_memory_offset,
        forall|va: u64| !m.page_mapped(va),
        forall|va: u64| m.spec_translate(va) is None,
{
    OffsetMapper {
        phys_offset: physical_memory_offset,
        l4: empty_table(),
        l3: Vec::new(),
        l2: Vec::new(),
        l1: Vec::new(),
    }
}

/// Law: a translation is only ever produced by a complete walk — an
/// address whose walk misses an entry at any level is unmapped, and a
/// translated address is exactly the reached frame plus the page offset.
pub proof fn lemma_translate_unmapped(m: OffsetMapper, va: u64)
    ensures
        m.spec_translate(va) is Some <==> m.page_mapped(va),
        m.page_mapped(va) ==> m.spec_translate(va) == Some(
            (m.path_entry(l4_index(va), l3_index(va), l2_index(va), l1_index(va))->Some_0.target
                + page_offset(va)) as u64,
        ),
{
}

} // verus!
