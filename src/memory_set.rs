//! Address spaces: logical areas over one page table, and the trampoline.

use crate::address::{
    ceil_spec, floor_spec, vpn_valid, PhysPageNum, SimpleRange, VPNRange, VirtAddr, VirtPageNum,
};
use crate::config::{MEMORY_END, PAGE_SIZE, TRAMPOLINE, TRAP_CONTEXT, USER_STACK_SIZE};
use crate::elf::{
    elf_entry_point, elf_ph_count, entry_point, load_segments, load_segments_upto, ph_table_ok, ElfSegment,
    PF_R, PF_W, PF_X,
};
use crate::frame_allocator::{
    frame_alloc, frame_dealloc, FrameTracker, StackFrameAllocator, PPN_LIMIT,
};
use crate::page_table::{leaf_path, lemma_pte_bits, pte_bits, PTEFlags, PageTable, PageTableEntry, PTE_V};
use vstd::prelude::*;

verus! {

/// How the pages of an area find their frames.
#[derive(Clone, Copy, Debug, PartialEq, Eq, Structural)]
pub enum MapType {
    /// Each page is the frame with the same number.
    Identical,
    /// Each page gets a frame of its own from the allocator.
    Framed,
}

/// Access rights of an area: the R, W, X and U bits of a page table entry.
#[derive(Clone, Copy, Debug, PartialEq, Eq, Structural)]
pub struct MapPermission {
    pub bits: u8,
}

pub const PERM_R: u8 = 2;

pub const PERM_W: u8 = 4;

pub const PERM_X: u8 = 8;

pub const PERM_U: u8 = 16;

impl MapPermission {
    /// Keeps the R, W, X and U bits of `bits`.
    pub fn from_bits_truncate(bits: u8) -> (r: Self)
        ensures
            r.bits == bits & 0x1e,
    {
        MapPermission { bits: bits & 0x1e }
    }

    pub fn union(self, other: Self) -> (r: Self)
        ensures
            r.bits == self.bits | other.bits,
    {
        MapPermission { bits: self.bits | other.bits }
    }
}

/// The entry that maps a page to `ppn` with the rights `perm`.
pub open spec fn leaf_entry(ppn: u64, perm: u8) -> PageTableEntry {
    PageTableEntry { bits: pte_bits(ppn, perm | PTE_V) }
}

/// The page numbers of the frames `fs[lo..]`.
pub open spec fn frames_from(fs: Seq<FrameTracker>, lo: int) -> Set<int> {
    Set::new(|p: int| exists|i: int| lo <= i < fs.len() && fs[i].ppn.0 == p)
}

/// How many groups of 512 pages, each under one leaf table, the pages
/// `[start, end)` meet.
pub open spec fn leaf_groups(start: int, end: int) -> int {
    if end <= start {
        0
    } else {
        (end - 1) / 512 - start / 512 + 1
    }
}

/// How many free frames mapping a framed area over `[start, end)` may take.
pub open spec fn framed_frames_needed(start: int, end: int) -> int {
    (end - start) + 2 * leaf_groups(start, end)
}

/// Pages in the same group of 512 have their leaf entries in the same table.
proof fn lemma_same_group(a: u64, b: u64)
    requires
        a / 512 == b / 512,
    ensures
        leaf_path(a) == leaf_path(b),
{
    vstd::arithmetic::div_mod::lemma_div_denominator(a as int, 512, 512);
    vstd::arithmetic::div_mod::lemma_div_denominator(b as int, 512, 512);
    assert(leaf_path(a) =~= leaf_path(b));
}

/// Two areas share no page.
pub open spec fn areas_disjoint(a: MapArea, b: MapArea) -> bool {
    forall|v: int| !(#[trigger] a.contains(v) && #[trigger] b.contains(v))
}

/// A contiguous range of pages with one map type and one set of rights.
/// A framed area holds the frame of page `start + i` at `data_frames[i]`,
/// and that frame's bytes at `pages[4096 * i ..]`.
pub struct MapArea {
    vpn_range: VPNRange,
    data_frames: Vec<FrameTracker>,
    pages: Vec<u8>,
    map_type: MapType,
    map_perm: MapPermission,
}

impl MapArea {
    pub closed spec fn start(&self) -> int {
        self.vpn_range.start_spec()
    }

    pub closed spec fn end(&self) -> int {
        self.vpn_range.end_spec()
    }

    pub closed spec fn map_type_spec(&self) -> MapType {
        self.map_type
    }

    pub closed spec fn perm_spec(&self) -> u8 {
        self.map_perm.bits
    }

    pub closed spec fn frames_spec(&self) -> Seq<FrameTracker> {
        self.data_frames@
    }

    pub closed spec fn bytes_spec(&self) -> Seq<u8> {
        self.pages@
    }

    pub open spec fn contains(&self, v: int) -> bool {
        self.start() <= v < self.end()
    }

    /// The frame of page `v` of the area.
    pub open spec fn ppn_of(&self, v: int) -> u64 {
        match self.map_type_spec() {
            MapType::Identical => v as u64,
            MapType::Framed => self.frames_spec()[v - self.start()].ppn.0,
        }
    }

    pub open spec fn pte_of(&self, v: int) -> PageTableEntry {
        leaf_entry(self.ppn_of(v), self.perm_spec())
    }

    /// The frames that the area owns.
    pub open spec fn owned(&self) -> Set<int> {
        Set::new(|p: int| exists|i: int| 0 <= i < self.frames_spec().len() && self.frames_spec()[i].ppn.0 == p)
    }

    /// The pages of the area are valid SV39 pages; an identical area stays
    /// below the largest frame number.
    pub open spec fn range_ok(&self) -> bool {
        &&& self.start() <= self.end()
        &&& forall|v: int| self.contains(v) ==> vpn_valid(v)
        &&& self.map_type_spec() == MapType::Identical ==> self.end() <= PPN_LIMIT
        &&& self.perm_spec() & 0xe1 == 0
    }

    /// Every page has its frame and zero-filled or copied bytes.
    pub open spec fn wf(&self) -> bool {
        &&& self.range_ok()
        &&& self.map_type_spec() == MapType::Framed ==> {
            &&& self.frames_spec().len() == self.end() - self.start()
            &&& self.bytes_spec().len() == PAGE_SIZE * (self.end() - self.start())
        }
        &&& self.map_type_spec() == MapType::Identical ==> self.frames_spec().len() == 0
            && self.bytes_spec().len() == 0
        &&& forall|i: int, j: int|
            0 <= i < j < self.frames_spec().len() ==> #[trigger] self.frames_spec()[i].ppn != #[trigger] self.frames_spec()[j].ppn
        &&& forall|i: int| 0 <= i < self.frames_spec().len() ==> #[trigger] self.frames_spec()[i].ppn.0 < PPN_LIMIT
    }

    /// A framed area over exactly the pages `[start, end)`.
    pub open spec fn matches(&self, start: int, end: int) -> bool {
        self.start() == start && self.end() == end && self.map_type_spec() == MapType::Framed
    }

    /// The entries that the area puts in a page table.
    pub open spec fn entries(&self) -> Map<u64, PageTableEntry> {
        Map::new(|v: u64| self.contains(v as int), |v: u64| self.pte_of(v as int))
    }

    /// The area over the pages that hold `[start_va, end_va)`, not mapped yet.
    pub fn new(start_va: VirtAddr, end_va: VirtAddr, map_type: MapType, map_perm: MapPermission) -> (r: Self)
        requires
            start_va.0 <= end_va.0,
        ensures
            r.start() == floor_spec(start_va.0 as int),
            r.end() == ceil_spec(end_va.0 as int),
            r.start() <= r.end(),
            r.map_type_spec() == map_type,
            r.perm_spec() == map_perm.bits,
            r.frames_spec().len() == 0,
            r.bytes_spec().len() == 0,
    {
        let start_vpn = start_va.floor();
        let end_vpn = end_va.ceil();
        proof {
            assert(floor_spec(start_va.0 as int) <= ceil_spec(end_va.0 as int)) by (nonlinear_arith)
                requires start_va.0 <= end_va.0;
        }
        MapArea {
            vpn_range: SimpleRange::new(start_vpn, end_vpn),
            data_frames: Vec::new(),
            pages: Vec::new(),
            map_type,
            map_perm,
        }
    }

    pub fn vpn_range(&self) -> (r: VPNRange)
        ensures
            r.start_spec() == self.start(),
            r.end_spec() == self.end(),
    {
        self.vpn_range
    }

    pub fn map_type(&self) -> (r: MapType)
        ensures
            r == self.map_type_spec(),
    {
        self.map_type
    }

    pub fn map_perm(&self) -> (r: MapPermission)
        ensures
            r.bits == self.perm_spec(),
    {
        self.map_perm
    }

    /// How many free frames mapping the area may take: its own frames, and
    /// up to two page table nodes for each leaf table that it touches.
    pub open spec fn frames_needed(&self) -> int {
        self.own_frames() * (self.end() - self.start()) + 2 * leaf_groups(self.start(), self.end())
    }

    /// Frames that the area takes for each of its pages.
    pub open spec fn own_frames(&self) -> int {
        match self.map_type_spec() {
            MapType::Identical => 0,
            MapType::Framed => 1,
        }
    }

    /// `frames_needed`, computed.
    pub fn frames_needed_count(&self) -> (r: u64)
        requires
            self.range_ok(),
        ensures
            r == self.frames_needed(),
    {
        let start = self.vpn_range.get_start().0;
        let end = self.vpn_range.get_end().0;
        let groups: u64 = if end <= start { 0 } else { (end - 1) / 512 - start / 512 + 1 };
        proof {
            if end > start {
                assert(self.contains(end - 1));
                assert(vpn_valid(end - 1));
                assert((end - 1) / 512 >= start / 512) by (nonlinear_arith)
                    requires end - 1 >= start;
                assert((end - 1) / 512 <= end) by (nonlinear_arith)
                    requires end >= 1;
            }
        }
        match self.map_type {
            MapType::Identical => 2 * groups,
            MapType::Framed => (end - start) + 2 * groups,
        }
    }

    /// The entries of the pages `[start, upto)` of the area.
    pub open spec fn entries_below(&self, upto: int) -> Map<u64, PageTableEntry> {
        Map::new(|v: u64| self.start() <= v < upto, |v: u64| self.pte_of(v as int))
    }

    /// Maps page `vpn`, the next one of the area, into `page_table`.
    fn map_one(&mut self, page_table: &mut PageTable, allocator: &mut StackFrameAllocator, vpn: VirtPageNum)
        requires
            old(self).range_ok(),
            old(self).start() <= vpn.0 < old(self).end(),
            old(self).map_type_spec() == MapType::Framed ==> old(self).frames_spec().len() == vpn.0 - old(self).start()
                && old(self).bytes_spec().len() == PAGE_SIZE * (vpn.0 - old(self).start()),
            old(self).map_type_spec() == MapType::Identical ==> old(self).frames_spec().len() == 0
                && old(self).bytes_spec().len() == 0,
            forall|i: int, j: int|
                0 <= i < j < old(self).frames_spec().len() ==> #[trigger] old(self).frames_spec()[i].ppn != #[trigger] old(self).frames_spec()[j].ppn,
            forall|i: int| 0 <= i < old(self).frames_spec().len() ==> #[trigger] old(self).frames_spec()[i].ppn.0 < PPN_LIMIT,
            forall|i: int| 0 <= i < old(self).bytes_spec().len() ==> old(self).bytes_spec()[i] == 0,
            old(page_table).wf(),
            old(allocator).wf(),
            !old(page_table).view().contains_key(vpn.0),
            old(page_table).owned().subset_of(old(allocator).allocated()),
            old(self).owned().subset_of(old(allocator).allocated()),
            old(self).owned().disjoint(old(page_table).owned()),
            old(allocator).free_spec() >= old(self).own_frames() + (if old(page_table).has_path(leaf_path(vpn.0)) { 0int } else { 2 }),
        ensures
            final(self).range_ok(),
            final(self).start() == old(self).start(),
            final(self).end() == old(self).end(),
            final(self).map_type_spec() == old(self).map_type_spec(),
            final(self).perm_spec() == old(self).perm_spec(),
            final(self).map_type_spec() == MapType::Framed ==> final(self).frames_spec().len() == vpn.0 + 1 - old(self).start()
                && final(self).bytes_spec().len() == PAGE_SIZE * (vpn.0 + 1 - old(self).start())
                && final(self).frames_spec().subrange(0, old(self).frames_spec().len() as int) == old(self).frames_spec(),
            final(self).map_type_spec() == MapType::Identical ==> final(self).frames_spec().len() == 0
                && final(self).bytes_spec().len() == 0,
            forall|i: int, j: int|
                0 <= i < j < final(self).frames_spec().len() ==> #[trigger] final(self).frames_spec()[i].ppn != #[trigger] final(self).frames_spec()[j].ppn,
            forall|i: int| 0 <= i < final(self).frames_spec().len() ==> #[trigger] final(self).frames_spec()[i].ppn.0 < PPN_LIMIT,
            forall|i: int| 0 <= i < final(self).bytes_spec().len() ==> final(self).bytes_spec()[i] == 0,
            final(page_table).wf(),
            final(allocator).wf(),
            final(allocator).end_spec() == old(allocator).end_spec(),
            final(page_table).root_spec() == old(page_table).root_spec(),
            final(page_table).view() == old(page_table).view().insert(vpn.0, final(self).pte_of(vpn.0 as int)),
            old(page_table).owned().subset_of(final(page_table).owned()),
            old(self).owned().subset_of(final(self).owned()),
            final(page_table).owned().subset_of(final(allocator).allocated()),
            final(self).owned().subset_of(final(allocator).allocated()),
            final(self).owned().disjoint(final(page_table).owned()),
            final(allocator).allocated() == old(allocator).allocated() + (final(page_table).owned() - old(page_table).owned())
                + (final(self).owned() - old(self).owned()),
            ((final(page_table).owned() - old(page_table).owned()) + (final(self).owned() - old(self).owned())).disjoint(
                old(allocator).allocated(),
            ),
            final(allocator).free_spec() >= old(allocator).free_spec() - old(self).own_frames() - (if old(page_table).has_path(leaf_path(vpn.0)) { 0int } else { 2 }),
            final(page_table).has_path(leaf_path(vpn.0)),
            forall|p: Seq<int>| old(page_table).has_path(p) ==> final(page_table).has_path(p),
            forall|v: int| old(self).start() <= v < vpn.0 ==> final(self).pte_of(v) == old(self).pte_of(v),
    {
        let ghost a0 = *allocator;
        let ghost t0 = *page_table;
        let ghost s0 = *self;
        let ppn: PhysPageNum;
        match self.map_type {
            MapType::Identical => {
                ppn = PhysPageNum(vpn.0);
            },
            MapType::Framed => {
                let frame = match frame_alloc(allocator) {
                    Some(f) => f,
                    None => {
                        proof { assert(false); }
                        return;
                    },
                };
                ppn = frame.ppn;
                proof {
                    assert forall|i: int| 0 <= i < self.data_frames@.len() implies #[trigger] self.data_frames@[i].ppn != ppn by {
                        assert(s0.owned().contains(self.data_frames@[i].ppn.0 as int));
                    }
                    assert(!t0.owned().contains(ppn.0 as int));
                }
                self.data_frames.push(frame);
                let mut k: usize = 0;
                let ghost b0 = self.pages@;
                while k < 4096
                    invariant
                        k <= 4096,
                        self.pages@.len() == b0.len() + k,
                        forall|i: int| 0 <= i < self.pages@.len() ==> self.pages@[i] == 0,
                        forall|i: int| 0 <= i < b0.len() ==> b0[i] == 0,
                        self.vpn_range == s0.vpn_range,
                        self.map_type == s0.map_type,
                        self.map_perm == s0.map_perm,
                        self.data_frames@ == s0.data_frames@.push(frame),
                    decreases 4096 - k,
                {
                    self.pages.push(0u8);
                    k = k + 1;
                }
                proof {
                    assert(self.data_frames@.subrange(0, s0.data_frames@.len() as int) =~= s0.data_frames@);
                    assert(self.owned() =~= s0.owned().insert(ppn.0 as int)) by {
                        assert forall|x: int| self.owned().contains(x) == s0.owned().insert(ppn.0 as int).contains(x) by {
                            if self.owned().contains(x) {
                                let w = choose|w: int| 0 <= w < self.frames_spec().len() && self.frames_spec()[w].ppn.0 == x;
                                if w < s0.frames_spec().len() {
                                    assert(s0.frames_spec()[w].ppn.0 == x);
                                }
                            }
                            if s0.owned().contains(x) {
                                let w = choose|w: int| 0 <= w < s0.frames_spec().len() && s0.frames_spec()[w].ppn.0 == x;
                                assert(self.frames_spec()[w].ppn.0 == x);
                            }
                            if x == ppn.0 as int {
                                assert(self.frames_spec()[s0.frames_spec().len() as int].ppn.0 == x);
                            }
                        }
                    }
                    assert(PAGE_SIZE * (vpn.0 + 1 - s0.start()) == PAGE_SIZE * (vpn.0 - s0.start()) + 4096) by (nonlinear_arith);
                }
            },
        }
        let ghost a1 = *allocator;
        proof {
            assert(self.ppn_of(vpn.0 as int) == ppn.0);
            assert forall|v: int| s0.start() <= v < vpn.0 implies self.pte_of(v) == s0.pte_of(v) by {
                if self.map_type == MapType::Framed {
                    assert(self.frames_spec()[v - self.start()] == s0.frames_spec()[v - s0.start()]);
                }
            }
            assert(page_table.owned().subset_of(allocator.allocated()));
        }
        let ok = page_table.map(allocator, vpn, ppn, PTEFlags::from_bits(self.map_perm.bits));
        proof {
            assert(ok);
            assert(self.owned().disjoint(page_table.owned())) by {
                assert forall|x: int| self.owned().contains(x) implies !page_table.owned().contains(x) by {
                    assert(a1.allocated().contains(x));
                    if page_table.owned().contains(x) && !t0.owned().contains(x) {
                        assert((page_table.owned() - t0.owned()).contains(x));
                    }
                }
            }
            assert(allocator.allocated() =~= a0.allocated() + (page_table.owned() - t0.owned()) + (self.owned() - s0.owned()));
            assert(((page_table.owned() - t0.owned()) + (self.owned() - s0.owned())).disjoint(a0.allocated()));
        }
    }

    /// Maps every page of a fresh area into `page_table`. The caller has
    /// checked that the pages are unmapped and that enough frames are free.
    pub fn map(&mut self, page_table: &mut PageTable, allocator: &mut StackFrameAllocator)
        requires
            old(self).range_ok(),
            old(self).frames_spec().len() == 0,
            old(self).bytes_spec().len() == 0,
            old(page_table).wf(),
            old(allocator).wf(),
            forall|v: u64| old(self).contains(v as int) ==> !old(page_table).view().contains_key(v),
            old(page_table).owned().subset_of(old(allocator).allocated()),
            old(allocator).free_spec() >= old(self).frames_needed(),
        ensures
            final(self).wf(),
            final(self).start() == old(self).start(),
            final(self).end() == old(self).end(),
            final(self).map_type_spec() == old(self).map_type_spec(),
            final(self).perm_spec() == old(self).perm_spec(),
            forall|i: int| 0 <= i < final(self).bytes_spec().len() ==> final(self).bytes_spec()[i] == 0,
            final(page_table).wf(),
            final(allocator).wf(),
            final(allocator).end_spec() == old(allocator).end_spec(),
            final(page_table).root_spec() == old(page_table).root_spec(),
            final(page_table).view() == old(page_table).view().union_prefer_right(final(self).entries()),
            old(page_table).owned().subset_of(final(page_table).owned()),
            final(page_table).owned().subset_of(final(allocator).allocated()),
            final(self).owned().subset_of(final(allocator).allocated()),
            final(self).owned().disjoint(final(page_table).owned()),
            final(allocator).allocated() == old(allocator).allocated() + (final(page_table).owned() - old(page_table).owned())
                + final(self).owned(),
            ((final(page_table).owned() - old(page_table).owned()) + final(self).owned()).disjoint(old(allocator).allocated()),
            final(allocator).free_spec() >= old(allocator).free_spec() - old(self).frames_needed(),
    {
        let ghost a0 = *allocator;
        let ghost t0 = *page_table;
        let ghost s0 = *self;
        let mut it = self.vpn_range.iter();
        proof {
            assert(self.owned() =~= Set::<int>::empty());
            assert(self.entries_below(self.start()) =~= Map::<u64, PageTableEntry>::empty());
            assert(t0.view().union_prefer_right(Map::<u64, PageTableEntry>::empty()) =~= t0.view());
            assert(allocator.allocated() =~= a0.allocated() + (page_table.owned() - t0.owned()) + self.owned());
        }
        loop
            invariant
                it.end_spec() == s0.end(),
                s0.start() <= it.current_spec() <= s0.end(),
                self.range_ok(),
                self.start() == s0.start(),
                self.end() == s0.end(),
                self.map_type_spec() == s0.map_type_spec(),
                self.perm_spec() == s0.perm_spec(),
                self.map_type_spec() == MapType::Framed ==> self.frames_spec().len() == it.current_spec() - self.start()
                    && self.bytes_spec().len() == PAGE_SIZE * (it.current_spec() - self.start()),
                self.map_type_spec() == MapType::Identical ==> self.frames_spec().len() == 0
                    && self.bytes_spec().len() == 0,
                forall|i: int, j: int|
                    0 <= i < j < self.frames_spec().len() ==> #[trigger] self.frames_spec()[i].ppn != #[trigger] self.frames_spec()[j].ppn,
                forall|i: int| 0 <= i < self.frames_spec().len() ==> #[trigger] self.frames_spec()[i].ppn.0 < PPN_LIMIT,
                forall|i: int| 0 <= i < self.bytes_spec().len() ==> self.bytes_spec()[i] == 0,
                page_table.wf(),
                allocator.wf(),
                allocator.end_spec() == a0.end_spec(),
                page_table.root_spec() == t0.root_spec(),
                forall|v: u64| s0.contains(v as int) ==> !t0.view().contains_key(v),
                page_table.view() == t0.view().union_prefer_right(self.entries_below(it.current_spec())),
                t0.owned().subset_of(page_table.owned()),
                page_table.owned().subset_of(allocator.allocated()),
                self.owned().subset_of(allocator.allocated()),
                self.owned().disjoint(page_table.owned()),
                allocator.allocated() == a0.allocated() + (page_table.owned() - t0.owned()) + self.owned(),
                ((page_table.owned() - t0.owned()) + self.owned()).disjoint(a0.allocated()),
                allocator.free_spec() >= a0.free_spec() - s0.own_frames() * (it.current_spec() - s0.start()) - 2 * leaf_groups(s0.start(), it.current_spec()),
                a0.free_spec() >= s0.frames_needed(),
                it.current_spec() > s0.start() ==> page_table.has_path(leaf_path((it.current_spec() - 1) as u64)),
            ensures
                it.current_spec() == s0.end(),
            decreases s0.end() - it.current_spec(),
        {
            let ghost cur = it.current_spec();
            let next = it.next();
            let vpn = match next {
                Some(v) => v,
                None => break,
            };
            let ghost a1 = *allocator;
            let ghost t1 = *page_table;
            let ghost s1 = *self;
            proof {
                assert(s0.contains(vpn.0 as int));
                assert(!page_table.view().contains_key(vpn.0)) by {
                    assert(!t0.view().contains_key(vpn.0));
                    assert(!self.entries_below(cur).contains_key(vpn.0));
                }
                let same = cur > s0.start() && (cur - 1) / 512 == cur / 512;
                if same {
                    lemma_same_group((cur - 1) as u64, vpn.0);
                }
                let cost = if page_table.has_path(leaf_path(vpn.0)) { 0int } else { 2 };
                assert(leaf_groups(s0.start(), cur + 1) == leaf_groups(s0.start(), cur) + (if same { 0int } else { 1 }));
                assert(!same ==> cost <= 2);
                assert(same ==> cost == 0);
                assert(leaf_groups(s0.start(), s0.end()) >= leaf_groups(s0.start(), cur + 1));
                assert(s0.own_frames() * (s0.end() - s0.start()) - s0.own_frames() * (cur - s0.start()) >= s0.own_frames()) by (nonlinear_arith)
                    requires cur < s0.end(), s0.start() <= cur, 0 <= s0.own_frames() <= 1;
                assert(allocator.free_spec() >= s0.own_frames() + cost);
            }
            self.map_one(page_table, allocator, vpn);
            proof {
                assert(self.entries_below(cur + 1) =~= s1.entries_below(cur).insert(vpn.0, self.pte_of(vpn.0 as int)));
                assert(page_table.view() =~= t0.view().union_prefer_right(self.entries_below(cur + 1)));
                assert(allocator.allocated() =~= a0.allocated() + (page_table.owned() - t0.owned()) + self.owned());
                assert forall|x: int| ((page_table.owned() - t0.owned()) + self.owned()).contains(x) implies !a0.allocated().contains(x) by {
                    if (page_table.owned() - t1.owned()).contains(x) || (self.owned() - s1.owned()).contains(x) {
                        assert(!a1.allocated().contains(x));
                    } else {
                        assert(((t1.owned() - t0.owned()) + s1.owned()).contains(x));
                    }
                }
                assert(s0.own_frames() * (cur + 1 - s0.start()) == s0.own_frames() * (cur - s0.start()) + s0.own_frames()) by (nonlinear_arith);
                let same = cur > s0.start() && (cur - 1) / 512 == cur / 512;
                assert(leaf_groups(s0.start(), cur + 1) == leaf_groups(s0.start(), cur) + (if same { 0int } else { 1 }));
            }
        }
        proof {
            assert(self.entries_below(self.end()) =~= self.entries());
        }
    }

    /// Copies `data` into a framed area, `offset` bytes after its start; the
    /// rest of the area keeps its bytes.
    pub fn copy_data(&mut self, data: &[u8], offset: usize)
        requires
            old(self).wf(),
            old(self).map_type_spec() == MapType::Framed,
            offset + data@.len() <= old(self).bytes_spec().len(),
        ensures
            final(self).wf(),
            final(self).start() == old(self).start(),
            final(self).end() == old(self).end(),
            final(self).map_type_spec() == old(self).map_type_spec(),
            final(self).perm_spec() == old(self).perm_spec(),
            final(self).frames_spec() == old(self).frames_spec(),
            final(self).bytes_spec() == old(self).bytes_spec().subrange(0, offset as int) + data@ + old(
                self,
            ).bytes_spec().subrange(offset + data@.len(), old(self).bytes_spec().len() as int),
    {
        let ghost s0 = *self;
        let len = data.len();
        let _n = self.pages.len();
        let mut start: usize = 0;
        while start < len
            invariant
                start <= len,
                len == data@.len(),
                offset + len <= s0.pages@.len(),
                s0.pages@.len() <= usize::MAX,
                self.vpn_range == s0.vpn_range,
                self.map_type == s0.map_type,
                self.map_perm == s0.map_perm,
                self.data_frames@ == s0.data_frames@,
                self.pages@.len() == s0.pages@.len(),
                forall|j: int| 0 <= j < start ==> self.pages@[offset + j] == data@[j],
                forall|j: int| 0 <= j < self.pages@.len() && !(offset <= j < offset + start) ==> self.pages@[j] == s0.pages@[j],
            decreases len - start,
        {
            self.pages.set(offset + start, data[start]);
            start = start + 1;
        }
        proof {
            assert(self.pages@ =~= s0.pages@.subrange(0, offset as int) + data@ + s0.pages@.subrange(offset + len, s0.pages@.len() as int));
        }
    }

    /// Clears the entries of all pages of the area from `page_table`.
    pub fn unmap(&self, page_table: &mut PageTable)
        requires
            self.wf(),
            old(page_table).wf(),
            forall|v: u64| self.contains(v as int) ==> old(page_table).view().contains_key(v),
        ensures
            final(page_table).wf(),
            final(page_table).root_spec() == old(page_table).root_spec(),
            final(page_table).owned() == old(page_table).owned(),
            final(page_table).view() == old(page_table).view().remove_keys(self.entries().dom()),
    {
        let ghost t0 = *page_table;
        let mut it = self.vpn_range.iter();
        loop
            invariant
                self.wf(),
                it.end_spec() == self.end(),
                self.start() <= it.current_spec() <= self.end(),
                page_table.wf(),
                page_table.root_spec() == t0.root_spec(),
                page_table.owned() == t0.owned(),
                forall|v: u64| self.contains(v as int) ==> t0.view().contains_key(v),
                page_table.view() == t0.view().remove_keys(Set::new(|v: u64| self.start() <= v < it.current_spec())),
            ensures
                it.current_spec() == self.end(),
            decreases self.end() - it.current_spec(),
        {
            let ghost cur = it.current_spec();
            let vpn = match it.next() {
                Some(v) => v,
                None => break,
            };
            proof {
                assert(self.contains(vpn.0 as int));
                assert(page_table.view().contains_key(vpn.0));
            }
            page_table.unmap(vpn);
            proof {
                assert(page_table.view() =~= t0.view().remove_keys(Set::new(|v: u64| self.start() <= v < cur + 1)));
            }
        }
        proof {
            assert(Set::new(|v: u64| self.start() <= v < self.end()) =~= self.entries().dom());
        }
    }

    /// Gives the frames of the area back to the allocator.
    pub fn release(self, allocator: &mut StackFrameAllocator)
        requires
            self.wf(),
            old(allocator).wf(),
            self.owned().subset_of(old(allocator).allocated()),
        ensures
            final(allocator).wf(),
            final(allocator).end_spec() == old(allocator).end_spec(),
            final(allocator).allocated() == old(allocator).allocated() - self.owned(),
    {
        let ghost a0 = *allocator;
        let ghost owned = self.owned();
        let ghost fs = self.data_frames@;
        let mut frames = self.data_frames;
        proof {
            assert(owned =~= frames_from(fs, 0));
            assert(frames_from(fs, fs.len() as int) =~= Set::empty());
            assert(allocator.allocated() =~= a0.allocated() - frames_from(fs, fs.len() as int));
        }
        while frames.len() > 0
            invariant
                allocator.wf(),
                allocator.end_spec() == a0.end_spec(),
                frames@ == fs.subrange(0, frames@.len() as int),
                frames@.len() <= fs.len(),
                forall|i: int, j: int| 0 <= i < j < fs.len() ==> #[trigger] fs[i].ppn != #[trigger] fs[j].ppn,
                owned == frames_from(fs, 0),
                owned.subset_of(a0.allocated()),
                allocator.allocated() == a0.allocated() - frames_from(fs, frames@.len() as int),
            decreases frames@.len(),
        {
            let ghost n = frames@.len() as int;
            let f = frames.pop().unwrap();
            proof {
                assert(fs[n - 1] == f);
                assert(frames_from(fs, 0).contains(f.ppn.0 as int)) by {
                    assert(fs[n - 1].ppn.0 == f.ppn.0);
                }
                assert(a0.allocated().contains(f.ppn.0 as int));
                assert(allocator.allocated().contains(f.ppn.0 as int)) by {
                    if frames_from(fs, n).contains(f.ppn.0 as int) {
                        let w = choose|w: int| n <= w < fs.len() && fs[w].ppn.0 == f.ppn.0;
                        assert(fs[w].ppn != fs[n - 1].ppn);
                    }
                }
            }
            frame_dealloc(allocator, f);
            proof {
                assert(frames@ =~= fs.subrange(0, n - 1));
                assert(allocator.allocated() =~= a0.allocated() - frames_from(fs, n - 1)) by {
                    assert forall|x: int| #[trigger] frames_from(fs, n - 1).contains(x)
                        == (frames_from(fs, n).contains(x) || x == f.ppn.0 as int) by {
                        if x == f.ppn.0 as int {
                            assert(fs[n - 1].ppn.0 == x);
                        }
                    }
                }
            }
        }
        proof {
            assert(allocator.allocated() =~= a0.allocated() - owned);
        }
    }
}

/// Where the linker put the kernel's sections and the trampoline code.
#[derive(Clone, Copy, Debug)]
pub struct KernelLayout {
    pub stext: u64,
    pub etext: u64,
    pub srodata: u64,
    pub erodata: u64,
    pub sdata: u64,
    pub edata: u64,
    pub sbss_with_stack: u64,
    pub ebss: u64,
    pub ekernel: u64,
    pub strampoline: u64,
}

impl KernelLayout {
    /// The sections follow each other in memory, each starting on a page
    /// boundary, below the end of memory; the trampoline is a page of
    /// `.text`.
    pub open spec fn ok(&self) -> bool {
        &&& self.stext <= self.etext <= self.srodata <= self.erodata <= self.sdata <= self.edata
            <= self.sbss_with_stack <= self.ebss <= self.ekernel <= MEMORY_END
        &&& self.stext % 4096 == 0
        &&& self.srodata % 4096 == 0
        &&& self.sdata % 4096 == 0
        &&& self.sbss_with_stack % 4096 == 0
        &&& self.ekernel % 4096 == 0
        &&& self.stext <= self.strampoline < self.etext
        &&& self.strampoline % 4096 == 0
    }

    /// Frames that building the kernel's address space may take.
    pub open spec fn frames_needed(&self) -> int {
        3 + 2 * (leaf_groups(floor_spec(self.stext as int), ceil_spec(self.etext as int))
            + leaf_groups(floor_spec(self.srodata as int), ceil_spec(self.erodata as int))
            + leaf_groups(floor_spec(self.sdata as int), ceil_spec(self.edata as int))
            + leaf_groups(floor_spec(self.sbss_with_stack as int), ceil_spec(self.ebss as int))
            + leaf_groups(floor_spec(self.ekernel as int), ceil_spec(MEMORY_END as int)))
    }

    /// Area `i` of `m` maps the pages of `[start, end)` to themselves with
    /// the rights `perm`.
    pub open spec fn section_mapped(&self, m: MemorySet, i: int, start: u64, end: u64, perm: u8) -> bool {
        let a = m.areas_spec()[i];
        &&& a.start() == floor_spec(start as int)
        &&& a.end() == ceil_spec(end as int)
        &&& a.map_type_spec() == MapType::Identical
        &&& a.perm_spec() == perm
    }

    pub proof fn lemma_sections_ordered(&self)
        requires
            self.ok(),
        ensures
            ceil_spec(self.etext as int) <= floor_spec(self.srodata as int),
            ceil_spec(self.erodata as int) <= floor_spec(self.sdata as int),
            ceil_spec(self.edata as int) <= floor_spec(self.sbss_with_stack as int),
            ceil_spec(self.ebss as int) <= floor_spec(self.ekernel as int),
            self.strampoline / 4096 < PPN_LIMIT,
    {
        lemma_ceil_below(self.etext as int, self.srodata as int);
        lemma_ceil_below(self.erodata as int, self.sdata as int);
        lemma_ceil_below(self.edata as int, self.sbss_with_stack as int);
        lemma_ceil_below(self.ebss as int, self.ekernel as int);
    }
}

proof fn lemma_ceil_below(a: int, b: int)
    requires
        0 <= a <= b,
        b % 4096 == 0,
    ensures
        ceil_spec(a) <= floor_spec(b),
{
    assert((a + 4095) / 4096 <= b / 4096) by (nonlinear_arith)
        requires
            0 <= a <= b,
            b % 4096 == 0,
    ;
}

/// `m` is the user address space of the segments `segs` of `data`, `sp`
/// the top of its user stack, `e` its entry point.
pub open spec fn user_space_built(
    m: MemorySet,
    sp: u64,
    e: u64,
    data: Seq<u8>,
    segs: Seq<ElfSegment>,
    entry: u64,
    trampoline: u64,
) -> bool {
    let n = segs.len() as int;
    let top = top_vpn(segs, n);
    &&& m.wf()
    &&& m.trampoline_spec() == trampoline
    &&& m.areas_spec().len() == n + 2
    &&& forall|k: int| 0 <= k < n ==> area_for_segment(#[trigger] m.areas_spec()[k], data, segs[k])
    &&& m.areas_spec()[n].start() == top + 1
    &&& m.areas_spec()[n].end() == top + 3
    &&& m.areas_spec()[n].map_type_spec() == MapType::Framed
    &&& m.areas_spec()[n].perm_spec() == PERM_R | PERM_W | PERM_U
    &&& m.areas_spec()[n + 1].start() == TRAMPOLINE_VPN - 1
    &&& m.areas_spec()[n + 1].end() == TRAMPOLINE_VPN
    &&& m.areas_spec()[n + 1].map_type_spec() == MapType::Framed
    &&& m.areas_spec()[n + 1].perm_spec() == PERM_R | PERM_W
    &&& sp == (top + 1) * 4096 + USER_STACK_SIZE
    &&& e == entry
}

/// The highest address that a user segment may reach; the guard page and
/// the user stack above it stay in the lower half of the SV39 space.
pub const USER_SPACE_END: u64 = 0x3f_ffff_d000;

/// The rights of a segment's area: `U`, and R, W, X after its flags.
pub open spec fn segment_perm(flags: u32) -> u8 {
    PERM_U | (if flags & PF_R != 0 { PERM_R } else { 0u8 }) | (if flags & PF_W != 0 { PERM_W } else { 0u8 }) | (
    if flags & PF_X != 0 { PERM_X } else { 0u8 })
}

pub fn segment_perm_of(flags: u32) -> (r: u8)
    ensures
        r == segment_perm(flags),
        r & 0xe1 == 0,
{
    let r: u8 = PERM_U;
    let r: u8 = if flags & PF_R != 0 { r | PERM_R } else { r | 0u8 };
    let r: u8 = if flags & PF_W != 0 { r | PERM_W } else { r | 0u8 };
    let r: u8 = if flags & PF_X != 0 { r | PERM_X } else { r | 0u8 };
    proof {
        let a: u8 = if flags & PF_R != 0 { PERM_R } else { 0u8 };
        let b: u8 = if flags & PF_W != 0 { PERM_W } else { 0u8 };
        let c: u8 = if flags & PF_X != 0 { PERM_X } else { 0u8 };
        assert((a == 0 || a == 2) && (b == 0 || b == 4) && (c == 0 || c == 8) ==> (16u8 | a | b | c) & 0xe1 == 0) by (bit_vector);
    }
    r
}

/// The first page past a segment.
pub open spec fn seg_end_vpn(s: ElfSegment) -> int {
    ceil_spec(s.vaddr + s.mem_size)
}

pub fn area_end_vpn(s: ElfSegment) -> (r: u64)
    requires
        s.vaddr + s.mem_size <= USER_SPACE_END,
    ensures
        r == seg_end_vpn(s),
{
    VirtAddr(s.vaddr + s.mem_size).ceil().0
}

/// A segment holds its file bytes, lies in the user part of the address
/// space, and its bytes lie in the image.
pub open spec fn segment_ok(data_len: int, s: ElfSegment) -> bool {
    &&& s.file_size <= s.mem_size
    &&& s.vaddr + s.mem_size <= USER_SPACE_END
    &&& s.offset + s.file_size <= data_len
}

pub open spec fn segments_disjoint(a: ElfSegment, b: ElfSegment) -> bool {
    seg_end_vpn(a) <= a.vaddr / 4096 || seg_end_vpn(b) <= a.vaddr / 4096 || seg_end_vpn(a) <= b.vaddr / 4096
}

/// Every segment is good and no two share a page.
pub open spec fn segments_ok(data_len: int, segs: Seq<ElfSegment>) -> bool {
    &&& forall|k: int| 0 <= k < segs.len() ==> segment_ok(data_len, #[trigger] segs[k])
    &&& forall|j: int, k: int| 0 <= j < k < segs.len() ==> segments_disjoint(#[trigger] segs[j], #[trigger] segs[k])
}

/// The area of `a` holds the segment `s` of the image `data`.
pub open spec fn area_for_segment(a: MapArea, data: Seq<u8>, s: ElfSegment) -> bool {
    &&& a.start() == s.vaddr / 4096
    &&& a.end() == seg_end_vpn(s)
    &&& a.map_type_spec() == MapType::Framed
    &&& a.perm_spec() == segment_perm(s.flags)
    &&& a.bytes_spec() == Seq::new((s.vaddr % 4096) as nat, |i: int| 0u8) + data.subrange(
        s.offset as int,
        s.offset + s.file_size,
    ) + Seq::new(
        (PAGE_SIZE * (a.end() - a.start()) - s.vaddr % 4096 - s.file_size) as nat,
        |i: int| 0u8,
    )
}

/// The highest page end among the first `n` segments.
pub open spec fn top_vpn(segs: Seq<ElfSegment>, n: int) -> int
    decreases n,
{
    if n <= 0 {
        0
    } else {
        let t = top_vpn(segs, n - 1);
        if seg_end_vpn(segs[n - 1]) > t {
            seg_end_vpn(segs[n - 1])
        } else {
            t
        }
    }
}

proof fn lemma_top_vpn_step(segs: Seq<ElfSegment>, n: int)
    requires
        0 <= n,
    ensures
        top_vpn(segs, n + 1) == (if seg_end_vpn(segs[n]) > top_vpn(segs, n) { seg_end_vpn(segs[n]) } else { top_vpn(segs, n) }),
{
}

proof fn lemma_top_vpn_bounds(segs: Seq<ElfSegment>, n: int, j: int)
    requires
        0 <= j < n,
    ensures
        seg_end_vpn(segs[j]) <= top_vpn(segs, n),
    decreases n,
{
    if j < n - 1 {
        lemma_top_vpn_bounds(segs, n - 1, j);
    }
}

pub open spec fn segment_frames_needed(s: ElfSegment) -> int {
    framed_frames_needed(s.vaddr as int / 4096, seg_end_vpn(s))
}

/// Frames that the areas of the first `n` segments may take.
pub open spec fn segs_needed(segs: Seq<ElfSegment>, n: int) -> int
    decreases n,
{
    if n <= 0 {
        0
    } else {
        segs_needed(segs, n - 1) + segment_frames_needed(segs[n - 1])
    }
}

/// Frames that building a user address space from `segs` may take: the
/// root table and the trampoline, the segments, the user stack and the
/// trap context page.
pub open spec fn segments_frames_needed(segs: Seq<ElfSegment>) -> int {
    3 + segs_needed(segs, segs.len() as int) + 8 + 3
}

pub proof fn lemma_segs_needed_mono(segs: Seq<ElfSegment>, a: int, b: int)
    requires
        0 <= a <= b,
    ensures
        segs_needed(segs, a) <= segs_needed(segs, b),
    decreases b - a,
{
    if a < b {
        lemma_segs_needed_mono(segs, a, b - 1);
    }
}

proof fn lemma_segment_fits_pages(s: ElfSegment)
    requires
        s.file_size <= s.mem_size,
    ensures
        s.vaddr % 4096 + s.file_size <= 4096 * (seg_end_vpn(s) - s.vaddr / 4096),
{
    let v = s.vaddr as int;
    let m = s.mem_size as int;
    assert(v % 4096 + m <= 4096 * ((v + m + 4095) / 4096 - v / 4096)) by (nonlinear_arith)
        requires v >= 0, m >= 0;
}

/// The page number of the trampoline: the top page of the address space.
pub const TRAMPOLINE_VPN: u64 = 0xf_ffff_ffff_ffff;

/// An address space: areas over one page table, and the trampoline page
/// mapped at the top with `R|X`.
pub struct MemorySet {
    page_table: PageTable,
    areas: Vec<MapArea>,
    trampoline: PhysPageNum,
}

impl MemorySet {
    pub closed spec fn pt(&self) -> PageTable {
        self.page_table
    }

    /// The valid leaf entry of each mapped page.
    pub open spec fn view(&self) -> Map<u64, PageTableEntry> {
        self.pt().view()
    }

    pub closed spec fn areas_spec(&self) -> Seq<MapArea> {
        self.areas@
    }

    pub closed spec fn trampoline_spec(&self) -> u64 {
        self.trampoline.0
    }

    /// Some area holds page `v`.
    pub open spec fn in_area(&self, v: int) -> bool {
        exists|i: int| 0 <= i < self.areas_spec().len() && #[trigger] self.areas_spec()[i].contains(v)
    }

    /// The frames that the address space owns: its page table nodes and
    /// the frames of its framed areas.
    pub open spec fn owned(&self) -> Set<int> {
        Set::new(
            |p: int|
                self.pt().owned().contains(p) || exists|i: int|
                    0 <= i < self.areas_spec().len() && #[trigger] self.areas_spec()[i].owned().contains(p),
        )
    }

    pub open spec fn wf(&self) -> bool {
        let areas = self.areas_spec();
        let view = self.view();
        &&& self.pt().wf()
        &&& self.trampoline_spec() < PPN_LIMIT
        &&& forall|i: int| 0 <= i < areas.len() ==> (#[trigger] areas[i]).wf()
        &&& forall|i: int, j: int| 0 <= i < j < areas.len() ==> areas_disjoint(#[trigger] areas[i], #[trigger] areas[j])
        &&& forall|i: int| 0 <= i < areas.len() ==> !(#[trigger] areas[i]).contains(TRAMPOLINE_VPN as int)
        &&& view.contains_key(TRAMPOLINE_VPN)
        &&& view[TRAMPOLINE_VPN] == leaf_entry(self.trampoline_spec(), PERM_R | PERM_X)
        &&& forall|i: int, v: u64|
            0 <= i < areas.len() && #[trigger] areas[i].contains(v as int) ==> view.contains_key(v) && view[v]
                == areas[i].pte_of(v as int)
        &&& forall|v: u64| #[trigger] view.contains_key(v) ==> v == TRAMPOLINE_VPN || self.in_area(v as int)
        &&& forall|i: int, j: int|
            0 <= i < j < areas.len() ==> (#[trigger] areas[i]).owned().disjoint((#[trigger] areas[j]).owned())
        &&& forall|i: int| 0 <= i < areas.len() ==> (#[trigger] areas[i]).owned().disjoint(self.pt().owned())
    }

    /// The `satp` value of the address space.
    pub open spec fn token_view(&self) -> u64 {
        self.pt().token_view()
    }

    /// An address space that holds only the trampoline, mapped to the frame
    /// `trampoline`. `None` when fewer than three frames are free.
    pub fn new_bare(allocator: &mut StackFrameAllocator, trampoline: PhysPageNum) -> (r: Option<Self>)
        requires
            old(allocator).wf(),
            trampoline.0 < PPN_LIMIT,
        ensures
            final(allocator).wf(),
            final(allocator).end_spec() == old(allocator).end_spec(),
            r is None <==> old(allocator).free_spec() < 3,
            r is None ==> final(allocator).allocated() == old(allocator).allocated(),
            r is Some ==> {
                let m = r->Some_0;
                &&& m.wf()
                &&& m.areas_spec().len() == 0
                &&& m.trampoline_spec() == trampoline.0
                &&& m.view() == map![TRAMPOLINE_VPN => leaf_entry(trampoline.0, PERM_R | PERM_X)]
                &&& m.owned().subset_of(final(allocator).allocated())
                &&& final(allocator).allocated() == old(allocator).allocated() + m.owned()
                &&& m.owned().disjoint(old(allocator).allocated())
                &&& final(allocator).free_spec() >= old(allocator).free_spec() - 3
            },
    {
        if allocator.free_count() < 3 {
            return None;
        }
        let ghost a0 = *allocator;
        let mut page_table = match PageTable::new(allocator) {
            Some(t) => t,
            None => {
                proof { assert(false); }
                return None;
            },
        };
        let ghost t0 = page_table;
        proof {
            assert(page_table.owned().subset_of(allocator.allocated()));
            assert(vpn_valid(TRAMPOLINE_VPN as int));
        }
        let ok = page_table.map(allocator, VirtPageNum(TRAMPOLINE_VPN), trampoline, PTEFlags::from_bits(PERM_R | PERM_X));
        let m = MemorySet { page_table, areas: Vec::new(), trampoline };
        proof {
            assert(ok);
            assert(m.view() =~= map![TRAMPOLINE_VPN => leaf_entry(trampoline.0, PERM_R | PERM_X)]);
            assert(m.owned() =~= page_table.owned());
            assert(allocator.allocated() =~= a0.allocated() + m.owned());
            assert forall|v: u64| #[trigger] m.view().contains_key(v) implies v == TRAMPOLINE_VPN || m.in_area(v as int) by {}
        }
        Some(m)
    }

    /// The valid leaf entry of `vpn`, if the page is mapped.
    pub fn translate(&self, vpn: VirtPageNum) -> (r: Option<PageTableEntry>)
        requires
            self.wf(),
        ensures
            r is Some <==> self.view().contains_key(vpn.0),
            r is Some ==> r->Some_0 == self.view()[vpn.0],
    {
        self.page_table.translate(vpn)
    }

    /// The `satp` value that selects this address space.
    pub fn token(&self) -> (r: u64)
        ensures
            r == self.token_view(),
    {
        self.page_table.token()
    }

    /// Whether none of the pages `[start, end)` is mapped.
    pub fn is_range_unmapped(&self, start: VirtPageNum, end: VirtPageNum) -> (r: bool)
        requires
            self.wf(),
        ensures
            r == (forall|v: u64| start.0 <= v < end.0 ==> !self.view().contains_key(v)),
    {
        let mut v = start.0;
        if end.0 <= start.0 {
            return true;
        }
        while v < end.0
            invariant
                self.wf(),
                start.0 <= v <= end.0,
                forall|x: u64| start.0 <= x < v ==> !self.view().contains_key(x),
            decreases end.0 - v,
        {
            if self.page_table.translate(VirtPageNum(v)).is_some() {
                return false;
            }
            v = v + 1;
        }
        true
    }

    /// `area` shares no page with the areas of the address space nor with
    /// the trampoline.
    pub open spec fn fits(&self, area: MapArea) -> bool {
        &&& !area.contains(TRAMPOLINE_VPN as int)
        &&& forall|i: int| 0 <= i < self.areas_spec().len() ==> areas_disjoint(#[trigger] self.areas_spec()[i], area)
    }

    /// A framed area covers exactly the pages `[start, end)`.
    pub open spec fn has_framed_area(&self, start: int, end: int) -> bool {
        exists|i: int| 0 <= i < self.areas_spec().len() && #[trigger] self.areas_spec()[i].matches(start, end)
    }

    /// The address space after `push` added an area that maps like `area`.
    pub open spec fn pushed(&self, old_set: Self, start: int, end: int, map_type: MapType, perm: u8) -> bool {
        let n = old_set.areas_spec().len();
        let last = self.areas_spec()[n as int];
        &&& self.areas_spec().len() == n + 1
        &&& self.areas_spec().subrange(0, n as int) == old_set.areas_spec()
        &&& last.start() == start
        &&& last.end() == end
        &&& last.map_type_spec() == map_type
        &&& last.perm_spec() == perm
        &&& self.view() == old_set.view().union_prefer_right(last.entries())
        &&& self.trampoline_spec() == old_set.trampoline_spec()
        &&& self.token_view() == old_set.token_view()
    }

    /// Maps `map_area`, copies `data` into it `offset` bytes after its start,
    /// and adds it to the address space. Returns false, changing nothing,
    /// when fewer frames are free than the area may need.
    fn push(&mut self, allocator: &mut StackFrameAllocator, map_area: MapArea, data: Option<&[u8]>, offset: u64) -> (r: bool)
        requires
            old(self).wf(),
            old(allocator).wf(),
            old(self).owned().subset_of(old(allocator).allocated()),
            map_area.range_ok(),
            map_area.frames_spec().len() == 0,
            map_area.bytes_spec().len() == 0,
            old(self).fits(map_area),
            data is Some ==> map_area.map_type_spec() == MapType::Framed && offset + data->Some_0@.len() <= PAGE_SIZE * (
            map_area.end() - map_area.start()),
        ensures
            final(self).wf(),
            final(allocator).wf(),
            final(allocator).end_spec() == old(allocator).end_spec(),
            final(self).owned().subset_of(final(allocator).allocated()),
            r == (old(allocator).free_spec() >= map_area.frames_needed()),
            !r ==> *final(self) == *old(self) && final(allocator).allocated() == old(allocator).allocated(),
            r ==> final(self).pushed(*old(self), map_area.start(), map_area.end(), map_area.map_type_spec(), map_area.perm_spec()),
            r ==> ({
                let last = final(self).areas_spec()[old(self).areas_spec().len() as int];
                &&& data is Some ==> last.bytes_spec() == Seq::new(offset as nat, |i: int| 0u8) + data->Some_0@ + Seq::new(
                    (PAGE_SIZE * (map_area.end() - map_area.start()) - offset - data->Some_0@.len()) as nat,
                    |i: int| 0u8,
                )
                &&& data is None ==> forall|i: int| 0 <= i < last.bytes_spec().len() ==> last.bytes_spec()[i] == 0
            }),
            final(allocator).allocated() == old(allocator).allocated() + (final(self).owned() - old(self).owned()),
            (final(self).owned() - old(self).owned()).disjoint(old(allocator).allocated()),
            old(self).owned().subset_of(final(self).owned()),
            final(allocator).free_spec() >= old(allocator).free_spec() - map_area.frames_needed(),
    {
        let needed = map_area.frames_needed_count();
        let free = allocator.free_count();
        proof {
            assert(self.pt().owned().subset_of(self.owned()));
        }
        if free < needed {
            return false;
        }
        let ghost s0 = *self;
        let ghost a0 = *allocator;
        let ghost orig = map_area;
        let mut map_area = map_area;
        proof {
            assert forall|v: u64| map_area.contains(v as int) implies !self.page_table.view().contains_key(v) by {
                if self.page_table.view().contains_key(v) {
                    if v != TRAMPOLINE_VPN {
                        let i = choose|i: int| 0 <= i < self.areas_spec().len() && #[trigger] self.areas_spec()[i].contains(v as int);
                        assert(areas_disjoint(self.areas_spec()[i], map_area));
                    }
                }
            }
        }
        map_area.map(&mut self.page_table, allocator);
        let ghost mapped = map_area;
        if let Some(d) = data {
            proof {
                assert(PAGE_SIZE * (map_area.end() - map_area.start()) == map_area.bytes_spec().len());
            }
            let _n = map_area.pages.len();
            proof {
                assert(offset as usize as int == offset);
            }
            map_area.copy_data(d, offset as usize);
        }
        let ghost last = map_area;
        self.areas.push(map_area);
        proof {
            assert(last.entries() =~= mapped.entries());
            assert(self.view() == s0.view().union_prefer_right(last.entries()));
            let n = s0.areas_spec().len() as int;
            let t0 = s0.pt();
            let t1 = self.pt();
            assert(self.areas_spec() == s0.areas_spec().push(last));
            assert(self.areas_spec().subrange(0, n) =~= s0.areas_spec());
            if let Some(d) = data {
                let b = mapped.bytes_spec();
                assert(b.subrange(0, offset as int) =~= Seq::new(offset as nat, |i: int| 0u8));
                assert(b.subrange(offset + d@.len(), b.len() as int) =~= Seq::new(
                    (PAGE_SIZE * (map_area.end() - map_area.start()) - offset - d@.len()) as nat,
                    |i: int| 0u8,
                ));
                assert(last.bytes_spec() =~= Seq::new(offset as nat, |i: int| 0u8) + d@ + Seq::new(
                    (PAGE_SIZE * (map_area.end() - map_area.start()) - offset - d@.len()) as nat,
                    |i: int| 0u8,
                ));
            }
            // new frames are fresh: none of them belongs to the old areas
            assert forall|i: int| 0 <= i < n implies (#[trigger] s0.areas_spec()[i]).owned().subset_of(s0.owned()) by {
                assert forall|x: int| s0.areas_spec()[i].owned().contains(x) implies s0.owned().contains(x) by {}
            }
            let newp = t1.owned() - t0.owned();
            assert forall|x: int| (newp + last.owned()).contains(x) implies !s0.owned().contains(x) by {
                assert(!a0.allocated().contains(x));
            }
            // areas
            assert forall|i: int| 0 <= i < n + 1 implies (#[trigger] self.areas_spec()[i]).wf() by {
                if i < n { assert(self.areas_spec()[i] == s0.areas_spec()[i]); }
            }
            assert forall|i: int, j: int|
                0 <= i < j < n + 1 implies areas_disjoint(#[trigger] self.areas_spec()[i], #[trigger] self.areas_spec()[j]) by {
                if j == n {
                    assert(areas_disjoint(s0.areas_spec()[i], orig));
                    assert forall|v: int| !(#[trigger] self.areas_spec()[i].contains(v) && #[trigger] self.areas_spec()[j].contains(v)) by {
                        assert(!(s0.areas_spec()[i].contains(v) && orig.contains(v)));
                    }
                } else {
                    assert(self.areas_spec()[i] == s0.areas_spec()[i]);
                    assert(self.areas_spec()[j] == s0.areas_spec()[j]);
                }
            }
            assert forall|i: int| 0 <= i < n + 1 implies !(#[trigger] self.areas_spec()[i]).contains(TRAMPOLINE_VPN as int) by {
                if i < n { assert(self.areas_spec()[i] == s0.areas_spec()[i]); }
            }
            assert(self.view().contains_key(TRAMPOLINE_VPN));
            assert forall|i: int, v: u64|
                0 <= i < n + 1 && #[trigger] self.areas_spec()[i].contains(v as int) implies self.view().contains_key(v)
                && self.view()[v] == self.areas_spec()[i].pte_of(v as int) by {
                if i < n {
                    assert(self.areas_spec()[i] == s0.areas_spec()[i]);
                    assert(s0.areas_spec()[i].contains(v as int));
                    assert(!last.contains(v as int)) by {
                        assert(areas_disjoint(s0.areas_spec()[i], orig));
                        assert(!(s0.areas_spec()[i].contains(v as int) && orig.contains(v as int)));
                    }
                }
            }
            assert forall|v: u64| #[trigger] self.view().contains_key(v) implies v == TRAMPOLINE_VPN || self.in_area(v as int) by {
                if last.contains(v as int) {
                    assert(self.areas_spec()[n].contains(v as int));
                } else {
                    assert(s0.view().contains_key(v));
                    if v != TRAMPOLINE_VPN {
                        let i = choose|i: int| 0 <= i < n && #[trigger] s0.areas_spec()[i].contains(v as int);
                        assert(self.areas_spec()[i].contains(v as int));
                    }
                }
            }
            assert forall|i: int, j: int|
                0 <= i < j < n + 1 implies (#[trigger] self.areas_spec()[i]).owned().disjoint((#[trigger] self.areas_spec()[j]).owned()) by {
                assert(self.areas_spec()[i] == s0.areas_spec()[i]);
                if j == n {
                    assert forall|x: int| s0.areas_spec()[i].owned().contains(x) implies !last.owned().contains(x) by {
                        assert(s0.owned().contains(x));
                    }
                } else {
                    assert(self.areas_spec()[j] == s0.areas_spec()[j]);
                }
            }
            assert forall|i: int| 0 <= i < n + 1 implies (#[trigger] self.areas_spec()[i]).owned().disjoint(self.pt().owned()) by {
                if i < n {
                    assert(self.areas_spec()[i] == s0.areas_spec()[i]);
                    assert forall|x: int| s0.areas_spec()[i].owned().contains(x) implies !t1.owned().contains(x) by {
                        assert(s0.owned().contains(x));
                        assert(!t0.owned().contains(x));
                        if t1.owned().contains(x) {
                            assert(newp.contains(x));
                        }
                    }
                }
            }
            assert(self.wf());
            assert(self.owned() =~= s0.owned() + newp + last.owned()) by {
                assert forall|x: int| self.owned().contains(x) == (s0.owned() + newp + last.owned()).contains(x) by {
                    if self.owned().contains(x) && !t1.owned().contains(x) {
                        let i = choose|i: int| 0 <= i < n + 1 && #[trigger] self.areas_spec()[i].owned().contains(x);
                        if i < n {
                            assert(s0.areas_spec()[i].owned().contains(x));
                        }
                    }
                    if s0.owned().contains(x) && !t0.owned().contains(x) {
                        let i = choose|i: int| 0 <= i < n && #[trigger] s0.areas_spec()[i].owned().contains(x);
                        assert(self.areas_spec()[i].owned().contains(x));
                    }
                    if last.owned().contains(x) {
                        assert(self.areas_spec()[n].owned().contains(x));
                    }
                }
            }
            assert(self.owned() - s0.owned() =~= newp + last.owned());
            assert(s0.owned().subset_of(self.owned()));
            assert(allocator.allocated() =~= a0.allocated() + (self.owned() - s0.owned()));
        }
        true
    }

    /// A range of pages none of which is mapped shares no page with an area
    /// nor with the trampoline.
    proof fn lemma_unmapped_range_fits(&self, area: MapArea)
        requires
            self.wf(),
            area.range_ok(),
            forall|v: u64| area.start() <= v < area.end() ==> !self.view().contains_key(v),
        ensures
            self.fits(area),
    {
        if area.contains(TRAMPOLINE_VPN as int) {
            assert(!self.view().contains_key(TRAMPOLINE_VPN));
        }
        assert forall|i: int| 0 <= i < self.areas_spec().len() implies areas_disjoint(#[trigger] self.areas_spec()[i], area) by {
            let a = self.areas_spec()[i];
            assert forall|v: int| !(#[trigger] a.contains(v) && #[trigger] area.contains(v)) by {
                if a.contains(v) && area.contains(v) {
                    assert(vpn_valid(v));
                    assert(self.view().contains_key(v as u64));
                }
            }
        }
    }

    /// Adds a framed area over the pages that hold `[start_va, end_va)`,
    /// with no initial data. The pages must be free; returns false, changing
    /// nothing, when fewer frames are free than the area may need.
    pub fn insert_framed_area(
        &mut self,
        allocator: &mut StackFrameAllocator,
        start_va: VirtAddr,
        end_va: VirtAddr,
        permission: MapPermission,
    ) -> (r: bool)
        requires
            old(self).wf(),
            old(allocator).wf(),
            old(self).owned().subset_of(old(allocator).allocated()),
            start_va.0 <= end_va.0,
            permission.bits & 0xe1 == 0,
            forall|v: int| floor_spec(start_va.0 as int) <= v < ceil_spec(end_va.0 as int) ==> vpn_valid(v),
            forall|v: u64| floor_spec(start_va.0 as int) <= v < ceil_spec(end_va.0 as int) ==> !old(self).view().contains_key(v),
        ensures
            final(self).wf(),
            final(allocator).wf(),
            final(allocator).end_spec() == old(allocator).end_spec(),
            final(self).owned().subset_of(final(allocator).allocated()),
            r == (old(allocator).free_spec() >= framed_frames_needed(floor_spec(start_va.0 as int), ceil_spec(end_va.0 as int))),
            !r ==> *final(self) == *old(self) && final(allocator).allocated() == old(allocator).allocated(),
            r ==> final(self).pushed(
                *old(self),
                floor_spec(start_va.0 as int),
                ceil_spec(end_va.0 as int),
                MapType::Framed,
                permission.bits,
            ),
            final(allocator).allocated() == old(allocator).allocated() + (final(self).owned() - old(self).owned()),
            (final(self).owned() - old(self).owned()).disjoint(old(allocator).allocated()),
            old(self).owned().subset_of(final(self).owned()),
            final(allocator).free_spec() >= old(allocator).free_spec() - framed_frames_needed(floor_spec(start_va.0 as int), ceil_spec(end_va.0 as int)),
    {
        let area = MapArea::new(start_va, end_va, MapType::Framed, permission);
        proof {
            self.lemma_unmapped_range_fits(area);
        }
        self.push(allocator, area, None, 0)
    }

    /// The index of the framed area over exactly the pages `[start, end)`.
    fn find_framed_area(&self, start: VirtPageNum, end: VirtPageNum) -> (r: Option<usize>)
        ensures
            r is Some ==> r->Some_0 < self.areas_spec().len() && self.areas_spec()[r->Some_0 as int].matches(start.0 as int, end.0 as int),
            r is None <==> !self.has_framed_area(start.0 as int, end.0 as int),
    {
        let mut i: usize = 0;
        while i < self.areas.len()
            invariant
                i <= self.areas@.len(),
                forall|j: int| 0 <= j < i ==> !(#[trigger] self.areas@[j]).matches(start.0 as int, end.0 as int),
            decreases self.areas@.len() - i,
        {
            let a = &self.areas[i];
            if a.vpn_range.get_start().0 == start.0 && a.vpn_range.get_end().0 == end.0 && a.map_type == MapType::Framed {
                proof {
                    assert(self.areas_spec()[i as int].matches(start.0 as int, end.0 as int));
                }
                return Some(i);
            }
            i = i + 1;
        }
        None
    }

    /// Removes every area, giving their frames back: what stays is the page
    /// table with the trampoline alone.
    pub fn release_areas(&mut self, allocator: &mut StackFrameAllocator)
        requires
            old(self).wf(),
            old(allocator).wf(),
            old(self).owned().subset_of(old(allocator).allocated()),
        ensures
            final(self).wf(),
            final(allocator).wf(),
            final(allocator).end_spec() == old(allocator).end_spec(),
            final(self).owned().subset_of(final(allocator).allocated()),
            final(self).areas_spec().len() == 0,
            final(self).view() == map![TRAMPOLINE_VPN => leaf_entry(old(self).trampoline_spec(), PERM_R | PERM_X)],
            final(self).token_view() == old(self).token_view(),
            final(self).trampoline_spec() == old(self).trampoline_spec(),
            final(self).owned().subset_of(old(self).owned()),
            final(allocator).allocated() == old(allocator).allocated() - (old(self).owned() - final(self).owned()),
    {
        let ghost s0 = *self;
        let ghost a0 = *allocator;
        while self.areas.len() > 0
            invariant
                self.wf(),
                allocator.wf(),
                allocator.end_spec() == a0.end_spec(),
                self.owned().subset_of(allocator.allocated()),
                self.token_view() == s0.token_view(),
                self.trampoline_spec() == s0.trampoline_spec(),
                self.owned().subset_of(s0.owned()),
                allocator.allocated() == a0.allocated() - (s0.owned() - self.owned()),
            decreases self.areas@.len(),
        {
            let ghost s1 = *self;
            let ghost a1 = *allocator;
            let last = self.areas.len() - 1;
            self.remove_area_at(allocator, last);
            proof {
                assert(allocator.allocated() =~= a0.allocated() - (s0.owned() - self.owned()));
            }
        }
        proof {
            assert forall|v: u64| #[trigger] self.view().contains_key(v) implies v == TRAMPOLINE_VPN by {
                if v != TRAMPOLINE_VPN {
                    assert(self.in_area(v as int));
                }
            }
            assert(self.view() =~= map![TRAMPOLINE_VPN => leaf_entry(s0.trampoline_spec(), PERM_R | PERM_X)]);
        }
    }

    /// Removes area `i`: its pages are unmapped and its frames go back to
    /// the allocator.
    fn remove_area_at(&mut self, allocator: &mut StackFrameAllocator, i: usize)
        requires
            old(self).wf(),
            old(allocator).wf(),
            old(self).owned().subset_of(old(allocator).allocated()),
            i < old(self).areas_spec().len(),
        ensures
            final(self).wf(),
            final(allocator).wf(),
            final(allocator).end_spec() == old(allocator).end_spec(),
            final(self).owned().subset_of(final(allocator).allocated()),
            final(self).areas_spec() == old(self).areas_spec().remove(i as int),
            final(self).view() == old(self).view().remove_keys(old(self).areas_spec()[i as int].entries().dom()),
            final(self).token_view() == old(self).token_view(),
            final(self).trampoline_spec() == old(self).trampoline_spec(),
            final(self).owned().subset_of(old(self).owned()),
            final(allocator).allocated() == old(allocator).allocated() - (old(self).owned() - final(self).owned()),
            old(self).owned() - final(self).owned() == old(self).areas_spec()[i as int].owned(),
    {
        let ghost s0 = *self;
        let ghost a0 = *allocator;
        let area = self.areas.remove(i);
        proof {
            assert(area == s0.areas_spec()[i as int]);
            assert forall|v: u64| area.contains(v as int) implies self.page_table.view().contains_key(v) by {
                assert(s0.areas_spec()[i as int].contains(v as int));
            }
            assert forall|x: int| area.owned().contains(x) implies s0.owned().contains(x) by {
                assert(s0.areas_spec()[i as int].owned().contains(x));
            }
        }
        area.unmap(&mut self.page_table);
        area.release(allocator);
        proof {
            let n = s0.areas_spec().len() as int;
            let idx = i as int;
            let removed = area.entries().dom();
            assert(self.areas_spec() == s0.areas_spec().remove(idx));
            assert forall|j: int| 0 <= j < n - 1 implies #[trigger] self.areas_spec()[j] == s0.areas_spec()[if j < idx { j } else { j + 1 }] by {}
            assert forall|j: int| 0 <= j < n - 1 implies (#[trigger] self.areas_spec()[j]).wf() by {
                assert(self.areas_spec()[j] == s0.areas_spec()[if j < idx { j } else { j + 1 }]);
            }
            assert forall|j: int, k: int|
                0 <= j < k < n - 1 implies areas_disjoint(#[trigger] self.areas_spec()[j], #[trigger] self.areas_spec()[k]) by {
                let jj = if j < idx { j } else { j + 1 };
                let kk = if k < idx { k } else { k + 1 };
                assert(self.areas_spec()[j] == s0.areas_spec()[jj]);
                assert(self.areas_spec()[k] == s0.areas_spec()[kk]);
                assert(areas_disjoint(s0.areas_spec()[jj], s0.areas_spec()[kk]));
            }
            assert forall|j: int| 0 <= j < n - 1 implies !(#[trigger] self.areas_spec()[j]).contains(TRAMPOLINE_VPN as int) by {
                assert(self.areas_spec()[j] == s0.areas_spec()[if j < idx { j } else { j + 1 }]);
            }
            assert(!area.contains(TRAMPOLINE_VPN as int));
            assert(self.view().contains_key(TRAMPOLINE_VPN));
            assert forall|j: int, v: u64|
                0 <= j < n - 1 && #[trigger] self.areas_spec()[j].contains(v as int) implies self.view().contains_key(v)
                && self.view()[v] == self.areas_spec()[j].pte_of(v as int) by {
                let jj = if j < idx { j } else { j + 1 };
                assert(self.areas_spec()[j] == s0.areas_spec()[jj]);
                assert(s0.areas_spec()[jj].contains(v as int));
                assert(!area.contains(v as int)) by {
                    if jj < idx {
                        assert(areas_disjoint(s0.areas_spec()[jj], s0.areas_spec()[idx]));
                        assert(!(s0.areas_spec()[jj].contains(v as int) && s0.areas_spec()[idx].contains(v as int)));
                    } else {
                        assert(areas_disjoint(s0.areas_spec()[idx], s0.areas_spec()[jj]));
                        assert(!(s0.areas_spec()[idx].contains(v as int) && s0.areas_spec()[jj].contains(v as int)));
                    }
                }
                assert(!removed.contains(v));
            }
            assert forall|v: u64| #[trigger] self.view().contains_key(v) implies v == TRAMPOLINE_VPN || self.in_area(v as int) by {
                assert(s0.view().contains_key(v));
                assert(!removed.contains(v));
                if v != TRAMPOLINE_VPN {
                    let j = choose|j: int| 0 <= j < n && #[trigger] s0.areas_spec()[j].contains(v as int);
                    assert(j != idx);
                    let jj = if j < idx { j } else { j - 1 };
                    assert(self.areas_spec()[jj] == s0.areas_spec()[j]);
                    assert(self.areas_spec()[jj].contains(v as int));
                }
            }
            assert forall|j: int, k: int|
                0 <= j < k < n - 1 implies (#[trigger] self.areas_spec()[j]).owned().disjoint((#[trigger] self.areas_spec()[k]).owned()) by {
                let jj = if j < idx { j } else { j + 1 };
                let kk = if k < idx { k } else { k + 1 };
                assert(self.areas_spec()[j] == s0.areas_spec()[jj]);
                assert(self.areas_spec()[k] == s0.areas_spec()[kk]);
            }
            assert forall|j: int| 0 <= j < n - 1 implies (#[trigger] self.areas_spec()[j]).owned().disjoint(self.pt().owned()) by {
                assert(self.areas_spec()[j] == s0.areas_spec()[if j < idx { j } else { j + 1 }]);
            }
            assert(self.wf());
            assert(s0.owned() - self.owned() =~= area.owned()) by {
                assert forall|x: int| (s0.owned() - self.owned()).contains(x) == area.owned().contains(x) by {
                    if area.owned().contains(x) {
                        assert(s0.areas_spec()[idx].owned().contains(x));
                        assert(!self.pt().owned().contains(x));
                        if self.owned().contains(x) {
                            let j = choose|j: int| 0 <= j < n - 1 && #[trigger] self.areas_spec()[j].owned().contains(x);
                            let jj = if j < idx { j } else { j + 1 };
                            assert(self.areas_spec()[j] == s0.areas_spec()[jj]);
                            if jj < idx {
                                assert(s0.areas_spec()[jj].owned().disjoint(s0.areas_spec()[idx].owned()));
                            } else {
                                assert(s0.areas_spec()[idx].owned().disjoint(s0.areas_spec()[jj].owned()));
                            }
                        }
                    }
                    if s0.owned().contains(x) && !area.owned().contains(x) && !s0.pt().owned().contains(x) {
                        let j = choose|j: int| 0 <= j < n && #[trigger] s0.areas_spec()[j].owned().contains(x);
                        assert(j != idx);
                        let jj = if j < idx { j } else { j - 1 };
                        assert(self.areas_spec()[jj] == s0.areas_spec()[j]);
                        assert(self.areas_spec()[jj].owned().contains(x));
                    }
                }
            }
            assert forall|x: int| self.owned().contains(x) implies s0.owned().contains(x) by {
                if !self.pt().owned().contains(x) {
                    let j = choose|j: int| 0 <= j < n - 1 && #[trigger] self.areas_spec()[j].owned().contains(x);
                    let jj = if j < idx { j } else { j + 1 };
                    assert(self.areas_spec()[j] == s0.areas_spec()[jj]);
                    assert(s0.areas_spec()[jj].owned().contains(x));
                }
            }
            assert(allocator.allocated() =~= a0.allocated() - (s0.owned() - self.owned()));
        }
    }

    /// Removes the framed area that covers exactly the pages of
    /// `[start_va, end_va)`: its pages are unmapped and its frames go back to
    /// the allocator. Returns false, changing nothing, when there is no such
    /// area.
    pub fn remove_framed_area(
        &mut self,
        allocator: &mut StackFrameAllocator,
        start_va: VirtAddr,
        end_va: VirtAddr,
    ) -> (r: bool)
        requires
            old(self).wf(),
            old(allocator).wf(),
            old(self).owned().subset_of(old(allocator).allocated()),
            start_va.0 <= end_va.0,
        ensures
            final(self).wf(),
            final(allocator).wf(),
            final(allocator).end_spec() == old(allocator).end_spec(),
            final(self).owned().subset_of(final(allocator).allocated()),
            r == old(self).has_framed_area(floor_spec(start_va.0 as int), ceil_spec(end_va.0 as int)),
            !r ==> *final(self) == *old(self) && final(allocator).allocated() == old(allocator).allocated(),
            r ==> final(self).view() == old(self).view().remove_keys(
                Set::new(|v: u64| floor_spec(start_va.0 as int) <= v < ceil_spec(end_va.0 as int)),
            ),
            r ==> exists|i: int|
                0 <= i < old(self).areas_spec().len() && #[trigger] old(self).areas_spec()[i].matches(
                    floor_spec(start_va.0 as int),
                    ceil_spec(end_va.0 as int),
                ) && final(self).areas_spec() == old(self).areas_spec().remove(i) && final(allocator).allocated()
                    == old(allocator).allocated() - old(self).areas_spec()[i].owned(),
            final(self).token_view() == old(self).token_view(),
            final(self).trampoline_spec() == old(self).trampoline_spec(),
            final(self).owned().subset_of(old(self).owned()),
            final(allocator).allocated() == old(allocator).allocated() - (old(self).owned() - final(self).owned()),
    {
        let start_vpn = start_va.floor();
        let end_vpn = end_va.ceil();
        let i = match self.find_framed_area(start_vpn, end_vpn) {
            Some(i) => i,
            None => return false,
        };
        let ghost s0 = *self;
        self.remove_area_at(allocator, i);
        proof {
            let area = s0.areas_spec()[i as int];
            assert(area.matches(start_vpn.0 as int, end_vpn.0 as int));
            assert(area.entries().dom() =~= Set::new(|v: u64| floor_spec(start_va.0 as int) <= v < ceil_spec(end_va.0 as int)));
            assert(s0.has_framed_area(floor_spec(start_va.0 as int), ceil_spec(end_va.0 as int)));
        }
        true
    }

    /// Adds the identical area of a kernel section `[start, end)`, which
    /// lies above all areas of the address space.
    fn push_section(&mut self, allocator: &mut StackFrameAllocator, start: u64, end: u64, perm: u8) -> (r: bool)
        requires
            old(self).wf(),
            old(allocator).wf(),
            old(self).owned().subset_of(old(allocator).allocated()),
            start <= end <= MEMORY_END,
            perm & 0xe1 == 0,
            forall|i: int| 0 <= i < old(self).areas_spec().len() ==> (#[trigger] old(self).areas_spec()[i]).end() <= floor_spec(start as int),
        ensures
            final(self).wf(),
            final(allocator).wf(),
            final(allocator).end_spec() == old(allocator).end_spec(),
            final(self).owned().subset_of(final(allocator).allocated()),
            r == (old(allocator).free_spec() >= 2 * leaf_groups(floor_spec(start as int), ceil_spec(end as int))),
            r ==> final(self).pushed(*old(self), floor_spec(start as int), ceil_spec(end as int), MapType::Identical, perm),
            r ==> forall|i: int| 0 <= i < final(self).areas_spec().len() ==> (#[trigger] final(self).areas_spec()[i]).end() <= ceil_spec(end as int),
            final(allocator).allocated() == old(allocator).allocated() + (final(self).owned() - old(self).owned()),
            (final(self).owned() - old(self).owned()).disjoint(old(allocator).allocated()),
            old(self).owned().subset_of(final(self).owned()),
            final(allocator).free_spec() >= old(allocator).free_spec() - 2 * leaf_groups(floor_spec(start as int), ceil_spec(end as int)),
    {
        let area = MapArea::new(VirtAddr(start), VirtAddr(end), MapType::Identical, MapPermission { bits: perm });
        proof {
            assert(ceil_spec(end as int) <= 0x80800);
            assert forall|v: int| area.contains(v) implies vpn_valid(v) by {}
            assert(!area.contains(TRAMPOLINE_VPN as int));
            assert forall|i: int| 0 <= i < self.areas_spec().len() implies areas_disjoint(#[trigger] self.areas_spec()[i], area) by {
                assert forall|v: int| !(#[trigger] self.areas_spec()[i].contains(v) && #[trigger] area.contains(v)) by {}
            }
            assert(area.frames_needed() == 2 * leaf_groups(floor_spec(start as int), ceil_spec(end as int)));
        }
        let r = self.push(allocator, area, None, 0);
        proof {
            if r {
                let n = old(self).areas_spec().len() as int;
                assert forall|i: int| 0 <= i < self.areas_spec().len() implies (#[trigger] self.areas_spec()[i]).end() <= ceil_spec(end as int) by {
                    if i < n {
                        assert(self.areas_spec().subrange(0, n)[i] == self.areas_spec()[i]);
                        assert(old(self).areas_spec()[i].end() <= floor_spec(start as int));
                        assert(floor_spec(start as int) <= ceil_spec(end as int)) by (nonlinear_arith)
                            requires start <= end;
                    }
                }
            }
        }
        r
    }

    /// The kernel's address space: the trampoline, and identical maps of
    /// `.text` (R|X), `.rodata` (R), `.data` (R|W), `.bss` (R|W) and the
    /// physical memory after the kernel image (R|W). `None` when the frames
    /// run out.
    pub fn new_kernel(allocator: &mut StackFrameAllocator, layout: &KernelLayout) -> (r: Option<Self>)
        requires
            old(allocator).wf(),
            layout.ok(),
        ensures
            final(allocator).wf(),
            final(allocator).end_spec() == old(allocator).end_spec(),
            old(allocator).free_spec() >= layout.frames_needed() ==> r is Some,
            r is Some ==> final(allocator).free_spec() >= old(allocator).free_spec() - layout.frames_needed(),
            r is Some ==> {
                let m = r->Some_0;
                &&& m.wf()
                &&& m.trampoline_spec() == layout.strampoline / 4096
                &&& m.owned().subset_of(final(allocator).allocated())
                &&& final(allocator).allocated() == old(allocator).allocated() + m.owned()
                &&& m.owned().disjoint(old(allocator).allocated())
                &&& m.areas_spec().len() == 5
                &&& layout.section_mapped(m, 0, layout.stext, layout.etext, PERM_R | PERM_X)
                &&& layout.section_mapped(m, 1, layout.srodata, layout.erodata, PERM_R)
                &&& layout.section_mapped(m, 2, layout.sdata, layout.edata, PERM_R | PERM_W)
                &&& layout.section_mapped(m, 3, layout.sbss_with_stack, layout.ebss, PERM_R | PERM_W)
                &&& layout.section_mapped(m, 4, layout.ekernel, MEMORY_END, PERM_R | PERM_W)
            },
    {
        let ghost a0 = *allocator;
        let mut m = match Self::new_bare(allocator, PhysPageNum(layout.strampoline / PAGE_SIZE)) {
            Some(m) => m,
            None => return None,
        };
        let ghost m0 = m;
        proof {
            assert((PERM_R | PERM_X) & 0xe1 == 0 && PERM_R & 0xe1 == 0 && (PERM_R | PERM_W) & 0xe1 == 0) by (bit_vector);
            layout.lemma_sections_ordered();
        }
        if !m.push_section(allocator, layout.stext, layout.etext, PERM_R | PERM_X) {
            return None;
        }
        let ghost m1 = m;
        if !m.push_section(allocator, layout.srodata, layout.erodata, PERM_R) {
            return None;
        }
        let ghost m2 = m;
        if !m.push_section(allocator, layout.sdata, layout.edata, PERM_R | PERM_W) {
            return None;
        }
        let ghost m3 = m;
        if !m.push_section(allocator, layout.sbss_with_stack, layout.ebss, PERM_R | PERM_W) {
            return None;
        }
        let ghost m4 = m;
        if !m.push_section(allocator, layout.ekernel, MEMORY_END, PERM_R | PERM_W) {
            return None;
        }
        proof {
            lemma_pushed_keeps_areas(m1, m2);
            lemma_pushed_keeps_areas(m2, m3);
            lemma_pushed_keeps_areas(m3, m4);
            lemma_pushed_keeps_areas(m4, m);
            assert(m0.owned().subset_of(m.owned()));
            assert(allocator.allocated() =~= a0.allocated() + m.owned());
            assert(m.owned().disjoint(a0.allocated()));
        }
        Some(m)
    }

    /// A user address space built from the LOAD segments `segs` of the image
    /// `data`: the trampoline, one framed area per segment holding the
    /// segment's bytes from the image and zeros after them, a guard page,
    /// a user stack (R|W|U), and the trap context page just below the
    /// trampoline (R|W). Returns it with the top of the user stack and
    /// `entry`. `None` when a segment is bad or overlaps another one, or
    /// when the frames run out.
    pub fn from_segments(
        allocator: &mut StackFrameAllocator,
        data: &[u8],
        segs: &Vec<ElfSegment>,
        entry: u64,
        trampoline: PhysPageNum,
    ) -> (r: Option<(Self, u64, u64)>)
        requires
            old(allocator).wf(),
            trampoline.0 < PPN_LIMIT,
        ensures
            final(allocator).wf(),
            final(allocator).end_spec() == old(allocator).end_spec(),
            r is Some ==> final(allocator).free_spec() >= old(allocator).free_spec() - segments_frames_needed(segs@),
            old(allocator).allocated().subset_of(final(allocator).allocated()),
            segments_ok(data@.len() as int, segs@) && old(allocator).free_spec() >= segments_frames_needed(segs@) ==> r is Some,
            r is Some ==> {
                let (m, sp, e) = r->Some_0;
                &&& user_space_built(m, sp, e, data@, segs@, entry, trampoline.0)
                &&& m.owned().subset_of(final(allocator).allocated())
                &&& final(allocator).allocated() == old(allocator).allocated() + m.owned()
                &&& m.owned().disjoint(old(allocator).allocated())
            },
    {
        let ghost a0 = *allocator;
        proof {
            lemma_segs_needed_mono(segs@, 0, segs@.len() as int);
        }
        let mut m = match Self::new_bare(allocator, trampoline) {
            Some(m) => m,
            None => return None,
        };
        let ghost m0 = m;
        let mut max_end: u64 = 0;
        let mut k: usize = 0;
        while k < segs.len()
            invariant
                k <= segs@.len(),
                a0 == *old(allocator),
                m.wf(),
                allocator.wf(),
                allocator.end_spec() == a0.end_spec(),
                m.trampoline_spec() == trampoline.0,
                m.owned().subset_of(allocator.allocated()),
                allocator.allocated() == a0.allocated() + m.owned(),
                m.owned().disjoint(a0.allocated()),
                m.areas_spec().len() == k,
                forall|j: int| 0 <= j < k ==> area_for_segment(#[trigger] m.areas_spec()[j], data@, segs@[j]),
                max_end == top_vpn(segs@, k as int),
                max_end <= 0x400_0000 - 3,
                allocator.free_spec() >= a0.free_spec() - 3 - segs_needed(segs@, k as int),
            decreases segs@.len() - k,
        {
            let seg = segs[k];
            proof {
                lemma_top_vpn_step(segs@, k as int);
            }
            if seg.file_size > seg.mem_size || seg.mem_size > USER_SPACE_END
                || seg.vaddr > USER_SPACE_END - seg.mem_size || seg.offset > data.len() as u64
                || seg.file_size > data.len() as u64 - seg.offset {
                proof {
                    assert(!segment_ok(data@.len() as int, seg));
                }
                return None;
            }
            let start_va = VirtAddr(seg.vaddr);
            let end_va = VirtAddr(seg.vaddr + seg.mem_size);
            let perm = segment_perm_of(seg.flags);
            let area = MapArea::new(start_va, end_va, MapType::Framed, MapPermission { bits: perm });
            let ghost mk = m;
            proof {
                assert(area.end() <= 0x400_0000 - 3) by {
                    assert(ceil_spec(seg.vaddr + seg.mem_size) <= ceil_spec(USER_SPACE_END as int)) by (nonlinear_arith)
                        requires seg.vaddr + seg.mem_size <= USER_SPACE_END;
                }
                assert forall|v: int| area.contains(v) implies vpn_valid(v) by {}
            }
            if !m.is_range_unmapped(area.vpn_range.get_start(), area.vpn_range.get_end()) {
                proof {
                    if segments_ok(data@.len() as int, segs@) {
                        let v = choose|v: u64| area.start() <= v < area.end() && m.view().contains_key(v);
                        assert(v != TRAMPOLINE_VPN);
                        let j = choose|j: int| 0 <= j < m.areas_spec().len() && #[trigger] m.areas_spec()[j].contains(v as int);
                        assert(area_for_segment(m.areas_spec()[j], data@, segs@[j]));
                        assert(segments_disjoint(segs@[j], segs@[k as int]));
                        assert(false);
                    }
                }
                return None;
            }
            proof {
                m.lemma_unmapped_range_fits(area);
                assert(seg.vaddr % 4096 + data@.subrange(seg.offset as int, (seg.offset + seg.file_size) as int).len() <= PAGE_SIZE * (area.end() - area.start())) by {
                    lemma_segment_fits_pages(seg);
                }
                assert(area.frames_needed() == segment_frames_needed(seg));
            }
            let bytes = vstd::slice::slice_subrange(data, seg.offset as usize, (seg.offset + seg.file_size) as usize);
            let ghost ab = *allocator;
            if !m.push(allocator, area, Some(bytes), seg.vaddr % PAGE_SIZE) {
                proof {
                    assert(ab.free_spec() < segment_frames_needed(seg));
                    if segments_ok(data@.len() as int, segs@) {
                        lemma_segs_needed_mono(segs@, k as int + 1, segs@.len() as int);
                    }
                }
                return None;
            }
            proof {
                let n = k as int;
                assert(m.areas_spec().subrange(0, n) == mk.areas_spec());
                assert forall|j: int| 0 <= j < n + 1 implies area_for_segment(#[trigger] m.areas_spec()[j], data@, segs@[j]) by {
                    if j < n {
                        assert(m.areas_spec().subrange(0, n)[j] == m.areas_spec()[j]);
                    }
                }
                assert(allocator.allocated() =~= a0.allocated() + m.owned());
            }
            if area_end_vpn(seg) > max_end {
                max_end = area_end_vpn(seg);
            }
            k = k + 1;
        }
        // a guard page, then the user stack
        let user_stack_bottom = (max_end + 1) * PAGE_SIZE;
        let user_stack_top = user_stack_bottom + USER_STACK_SIZE;
        proof {
            assert(floor_spec(user_stack_bottom as int) == max_end + 1);
            assert(ceil_spec(user_stack_top as int) == max_end + 3);
            assert((PERM_R | PERM_W | PERM_U) & 0xe1 == 0 && (PERM_R | PERM_W) & 0xe1 == 0) by (bit_vector);
        }
        if !m.is_range_unmapped(VirtPageNum(max_end + 1), VirtPageNum(max_end + 3)) {
            proof {
                let v = choose|v: u64| max_end + 1 <= v < max_end + 3 && m.view().contains_key(v);
                let j = choose|j: int| 0 <= j < m.areas_spec().len() && #[trigger] m.areas_spec()[j].contains(v as int);
                assert(area_for_segment(m.areas_spec()[j], data@, segs@[j]));
                lemma_top_vpn_bounds(segs@, segs@.len() as int, j);
            }
            return None;
        }
        let ghost ms = m;
        let ghost as_ = *allocator;
        if !m.insert_framed_area(allocator, VirtAddr(user_stack_bottom), VirtAddr(user_stack_top), MapPermission { bits: PERM_R | PERM_W | PERM_U }) {
            proof {
                lemma_segs_needed_mono(segs@, segs@.len() as int, segs@.len() as int);
            }
            return None;
        }
        let ghost mt = m;
        // the trap context page
        proof {
            assert(floor_spec(TRAP_CONTEXT as int) == TRAMPOLINE_VPN - 1);
            assert(ceil_spec(TRAMPOLINE as int) == TRAMPOLINE_VPN);
        }
        if !m.is_range_unmapped(VirtPageNum(TRAMPOLINE_VPN - 1), VirtPageNum(TRAMPOLINE_VPN)) {
            proof {
                let v = choose|v: u64| TRAMPOLINE_VPN - 1 <= v < TRAMPOLINE_VPN && m.view().contains_key(v);
                let j = choose|j: int| 0 <= j < m.areas_spec().len() && #[trigger] m.areas_spec()[j].contains(v as int);
                let n = segs@.len() as int;
                if j < n {
                    assert(m.areas_spec().subrange(0, n)[j] == m.areas_spec()[j]);
                    assert(area_for_segment(m.areas_spec()[j], data@, segs@[j]));
                    lemma_top_vpn_bounds(segs@, n, j);
                }
            }
            return None;
        }
        if !m.insert_framed_area(allocator, VirtAddr(TRAP_CONTEXT), VirtAddr(TRAMPOLINE), MapPermission { bits: PERM_R | PERM_W }) {
            return None;
        }
        proof {
            let n = segs@.len() as int;
            assert(m.areas_spec().subrange(0, n + 1) == mt.areas_spec());
            assert(mt.areas_spec().subrange(0, n) == ms.areas_spec());
            assert forall|j: int| 0 <= j < n implies area_for_segment(#[trigger] m.areas_spec()[j], data@, segs@[j]) by {
                assert(m.areas_spec().subrange(0, n + 1)[j] == m.areas_spec()[j]);
                assert(mt.areas_spec().subrange(0, n)[j] == mt.areas_spec()[j]);
            }
            assert(m.areas_spec().subrange(0, n + 1)[n] == m.areas_spec()[n]);
            assert(allocator.allocated() =~= a0.allocated() + m.owned());
        }
        Some((m, user_stack_top, entry))
    }

    /// The user address space of the ELF image `elf_data`, with the top of
    /// its user stack and its entry point; see `from_segments`. An image
    /// without the ELF magic number is a kernel bug. `None` when the image
    /// is not a 64-bit ELF file with its program headers inside it, or as
    /// `from_segments` says.
    pub fn from_elf(allocator: &mut StackFrameAllocator, elf_data: &[u8], trampoline: PhysPageNum) -> (r: Option<(Self, u64, u64)>)
        requires
            old(allocator).wf(),
            crate::elf::elf_magic_ok(elf_data@),
            trampoline.0 < PPN_LIMIT,
        ensures
            final(allocator).wf(),
            final(allocator).end_spec() == old(allocator).end_spec(),
            r is Some ==> final(allocator).free_spec() >= old(allocator).free_spec() - segments_frames_needed(
                load_segments_upto(elf_data@, elf_ph_count(elf_data@) as int),
            ),
            old(allocator).allocated().subset_of(final(allocator).allocated()),
            ({
                let segs = load_segments_upto(elf_data@, elf_ph_count(elf_data@) as int);
                &&& ph_table_ok(elf_data@) && segments_ok(elf_data@.len() as int, segs)
                    && old(allocator).free_spec() >= segments_frames_needed(segs) ==> r is Some
                &&& r is Some ==> {
                    let (m, sp, e) = r->Some_0;
                    &&& ph_table_ok(elf_data@)
                    &&& user_space_built(m, sp, e, elf_data@, segs, elf_entry_point(elf_data@), trampoline.0)
                    &&& m.owned().subset_of(final(allocator).allocated())
                    &&& final(allocator).allocated() == old(allocator).allocated() + m.owned()
                    &&& m.owned().disjoint(old(allocator).allocated())
                }
            }),
    {
        let segs = match load_segments(elf_data) {
            Some(s) => s,
            None => return None,
        };
        let entry = match entry_point(elf_data) {
            Some(e) => e,
            None => return None,
        };
        Self::from_segments(allocator, elf_data, &segs, entry, trampoline)
    }

    /// Area `i` is a framed area that user mode may access and that holds
    /// page `v`.
    pub open spec fn user_area_at(&self, i: int, v: int) -> bool {
        &&& 0 <= i < self.areas_spec().len()
        &&& self.areas_spec()[i].contains(v)
        &&& self.areas_spec()[i].map_type_spec() == MapType::Framed
        &&& self.areas_spec()[i].perm_spec() & PERM_U == PERM_U
    }

    /// The byte at user address `a`, when a framed user area holds it.
    pub open spec fn user_byte(&self, a: int) -> Option<u8> {
        let v = a / 4096;
        if exists|i: int| self.user_area_at(i, v) {
            let i = choose|i: int| self.user_area_at(i, v);
            let area = self.areas_spec()[i];
            Some(area.bytes_spec()[(v - area.start()) * 4096 + a % 4096])
        } else {
            None
        }
    }

    proof fn lemma_user_area_unique(&self, i: int, j: int, v: int)
        requires
            self.wf(),
            self.user_area_at(i, v),
            self.user_area_at(j, v),
        ensures
            i == j,
    {
        if i < j {
            assert(areas_disjoint(self.areas_spec()[i], self.areas_spec()[j]));
            assert(!(self.areas_spec()[i].contains(v) && self.areas_spec()[j].contains(v)));
        } else if j < i {
            assert(areas_disjoint(self.areas_spec()[j], self.areas_spec()[i]));
            assert(!(self.areas_spec()[j].contains(v) && self.areas_spec()[i].contains(v)));
        }
    }

    proof fn lemma_byte_index(area: MapArea, v: int, off: int)
        requires
            area.wf(),
            area.map_type_spec() == MapType::Framed,
            area.contains(v),
            0 <= off < 4096,
        ensures
            0 <= (v - area.start()) * 4096 + off < area.bytes_spec().len(),
    {
        assert(0 <= (v - area.start()) * 4096 + off < 4096 * (area.end() - area.start())) by (nonlinear_arith)
            requires area.start() <= v < area.end(), 0 <= off < 4096;
    }

    /// Writing byte `off` of page `v` in the framed user area `i` changes
    /// that byte alone.
    proof fn lemma_user_byte_after_set(before: Self, after: Self, i: int, v: int, off: int, value: u8)
        requires
            before.wf(),
            after.wf(),
            before.user_area_at(i, v),
            0 <= off < 4096,
            after.areas_spec().len() == before.areas_spec().len(),
            forall|x: int| 0 <= x < before.areas_spec().len() && x != i ==> #[trigger] after.areas_spec()[x] == before.areas_spec()[x],
            after.areas_spec()[i].start() == before.areas_spec()[i].start(),
            after.areas_spec()[i].end() == before.areas_spec()[i].end(),
            after.areas_spec()[i].map_type_spec() == before.areas_spec()[i].map_type_spec(),
            after.areas_spec()[i].perm_spec() == before.areas_spec()[i].perm_spec(),
            after.areas_spec()[i].bytes_spec() == before.areas_spec()[i].bytes_spec().update(
                (v - before.areas_spec()[i].start()) * 4096 + off,
                value,
            ),
        ensures
            forall|b: int| #[trigger] after.user_byte(b) == (if b / 4096 == v && b % 4096 == off { Some(value) } else { before.user_byte(b) }),
    {
        assert forall|b: int| #[trigger] after.user_byte(b) == (if b / 4096 == v && b % 4096 == off { Some(value) } else { before.user_byte(b) }) by {
            let w = b / 4096;
            assert forall|x: int| after.user_area_at(x, w) == before.user_area_at(x, w) by {
                if x != i && 0 <= x < before.areas_spec().len() {
                    assert(after.areas_spec()[x] == before.areas_spec()[x]);
                }
            }
            if exists|x: int| before.user_area_at(x, w) {
                let x = choose|x: int| before.user_area_at(x, w);
                let x2 = choose|x2: int| after.user_area_at(x2, w);
                assert(after.user_area_at(x, w));
                before.lemma_user_area_unique(x, x2, w);
                let start = before.areas_spec()[i].start();
                let bi = (w - before.areas_spec()[x].start()) * 4096 + b % 4096;
                let k = (v - start) * 4096 + off;
                assert(0 <= b % 4096 < 4096) by (nonlinear_arith);
                if x == i {
                    Self::lemma_byte_index(before.areas_spec()[i], w, b % 4096);
                    if w == v && b % 4096 == off {
                        assert(bi == k);
                    } else {
                        assert(bi != k) by {
                            if bi == k {
                                assert(w == v && b % 4096 == off) by (nonlinear_arith)
                                    requires (w - start) * 4096 + b % 4096 == (v - start) * 4096 + off,
                                        0 <= b % 4096 < 4096, 0 <= off < 4096;
                            }
                        }
                    }
                } else {
                    if w == v {
                        before.lemma_user_area_unique(x, i, w);
                    }
                }
            } else {
                if w == v {
                    assert(before.user_area_at(i, w));
                }
            }
        }
    }

    /// The framed user area that holds page `v`.
    fn find_user_area(&self, v: u64) -> (r: Option<usize>)
        requires
            self.wf(),
        ensures
            r is Some ==> self.user_area_at(r->Some_0 as int, v as int),
            r is None ==> !exists|i: int| self.user_area_at(i, v as int),
    {
        let mut i: usize = 0;
        while i < self.areas.len()
            invariant
                i <= self.areas@.len(),
                forall|j: int| 0 <= j < i ==> !self.user_area_at(j, v as int),
            decreases self.areas@.len() - i,
        {
            let a = &self.areas[i];
            if a.vpn_range.get_start().0 <= v && v < a.vpn_range.get_end().0 && a.map_type == MapType::Framed
                && a.map_perm.bits & PERM_U == PERM_U {
                return Some(i);
            }
            i = i + 1;
        }
        None
    }

    /// The bytes at user addresses `[va, va + len)`; `None` when one of them
    /// is not in a framed user area.
    pub fn read_user_bytes(&self, va: u64, len: u64) -> (r: Option<Vec<u8>>)
        requires
            self.wf(),
        ensures
            r is Some <==> va + len <= u64::MAX && forall|j: int| 0 <= j < len ==> (#[trigger] self.user_byte(va + j)) is Some,
            r is Some ==> r->Some_0@.len() == len && forall|j: int| 0 <= j < len ==> Some(#[trigger] r->Some_0@[j]) == self.user_byte(va + j),
    {
        if len > u64::MAX - va {
            return None;
        }
        let mut out: Vec<u8> = Vec::new();
        let mut j: u64 = 0;
        while j < len
            invariant
                j <= len,
                va + len <= u64::MAX,
                self.wf(),
                out@.len() == j,
                forall|k: int| 0 <= k < j ==> Some(#[trigger] out@[k]) == self.user_byte(va + k),
                forall|k: int| 0 <= k < j ==> (#[trigger] self.user_byte(va + k)) is Some,
            decreases len - j,
        {
            let a = va + j;
            let v = a / PAGE_SIZE;
            let off = a % PAGE_SIZE;
            match self.find_user_area(v) {
                Some(i) => {
                    let area = &self.areas[i];
                    proof {
                        Self::lemma_byte_index(*area, v as int, off as int);
                        assert(self.areas_spec()[i as int].wf());
                        let c = choose|c: int| self.user_area_at(c, v as int);
                        self.lemma_user_area_unique(c, i as int, v as int);
                    }
                    let _plen = area.pages.len();
                    let idx = ((v - area.vpn_range.get_start().0) * PAGE_SIZE + off) as usize;
                    out.push(area.pages[idx]);
                    proof {
                        let c = choose|c: int| self.user_area_at(c, v as int);
                        assert(c == i as int);
                        assert(self.user_byte(va + j) == Some(self.areas_spec()[c].bytes_spec()[(v - self.areas_spec()[c].start()) * 4096 + (va + j) % 4096]));
                        assert(idx as int == (v - self.areas_spec()[c].start()) * 4096 + (va + j) % 4096);
                        assert(out@[j as int] == self.areas_spec()[c].bytes_spec()[idx as int]);
                        assert(Some(out@[j as int]) == self.user_byte(va + j));
                    }
                },
                None => {
                    proof {
                        assert(self.user_byte(va + j) is None);
                    }
                    return None;
                },
            }
            j = j + 1;
        }
        Some(out)
    }

    /// Writes `data` at user addresses `va..`: all of it when every byte
    /// lands in a framed user area, else nothing.
    pub fn write_user_bytes(&mut self, va: u64, data: &[u8]) -> (r: bool)
        requires
            old(self).wf(),
        ensures
            final(self).wf(),
            final(self).view() == old(self).view(),
            final(self).owned() == old(self).owned(),
            final(self).token_view() == old(self).token_view(),
            final(self).trampoline_spec() == old(self).trampoline_spec(),
            r <==> va + data@.len() <= u64::MAX && forall|j: int| 0 <= j < data@.len() ==> (#[trigger] old(self).user_byte(va + j)) is Some,
            !r ==> *final(self) == *old(self),
            r ==> forall|j: int| 0 <= j < data@.len() ==> #[trigger] final(self).user_byte(va + j) == Some(data@[j]),
            r ==> forall|a: int| !(va <= a < va + data@.len()) ==> #[trigger] final(self).user_byte(a) == old(self).user_byte(a),
    {
        let len = data.len() as u64;
        match self.read_user_bytes(va, len) {
            Some(_) => {},
            None => return false,
        }
        let ghost s0 = *self;
        let mut j: u64 = 0;
        while j < len
            invariant
                j <= len,
                len == data@.len(),
                va + len <= u64::MAX,
                self.wf(),
                self.view() == s0.view(),
                self.owned() == s0.owned(),
                self.token_view() == s0.token_view(),
                self.trampoline_spec() == s0.trampoline_spec(),
                self.areas_spec().len() == s0.areas_spec().len(),
                forall|i: int| 0 <= i < s0.areas_spec().len() ==> (#[trigger] self.areas_spec()[i]).start() == s0.areas_spec()[i].start()
                    && self.areas_spec()[i].end() == s0.areas_spec()[i].end()
                    && self.areas_spec()[i].map_type_spec() == s0.areas_spec()[i].map_type_spec()
                    && self.areas_spec()[i].perm_spec() == s0.areas_spec()[i].perm_spec(),
                forall|k: int| 0 <= k < len ==> (#[trigger] s0.user_byte(va + k)) is Some,
                forall|k: int| 0 <= k < j ==> #[trigger] self.user_byte(va + k) == Some(data@[k]),
                forall|a: int| !(va <= a < va + j) ==> #[trigger] self.user_byte(a) == s0.user_byte(a),
            decreases len - j,
        {
            let a = va + j;
            let v = a / PAGE_SIZE;
            let off = a % PAGE_SIZE;
            proof {
                assert(s0.user_byte(va + j) is Some);
                let c = choose|c: int| s0.user_area_at(c, v as int);
                assert(self.user_area_at(c, v as int));
            }
            let i = match self.find_user_area(v) {
                Some(i) => i,
                None => {
                    proof { assert(false); }
                    return false;
                },
            };
            let ghost before = *self;
            let start = self.areas[i].vpn_range.get_start().0;
            proof {
                assert(self.areas_spec()[i as int].wf());
                Self::lemma_byte_index(self.areas_spec()[i as int], v as int, off as int);
            }
            let _plen = self.areas[i].pages.len();
            let idx = ((v - start) * PAGE_SIZE + off) as usize;
            self.areas[i].pages.set(idx, data[j as usize]);
            proof {
                let ii = i as int;
                let n = self.areas_spec().len();
                assert forall|x: int| 0 <= x < n && x != ii implies #[trigger] self.areas_spec()[x] == before.areas_spec()[x] by {}
                assert(self.areas_spec()[ii].entries() =~= before.areas_spec()[ii].entries());
                assert(self.areas_spec()[ii].owned() =~= before.areas_spec()[ii].owned());
                assert forall|x: int| 0 <= x < n implies (#[trigger] self.areas_spec()[x]).wf() by {
                    assert(before.areas_spec()[x].wf());
                }
                assert forall|x: int, w: int| 0 <= x < n implies #[trigger] self.areas_spec()[x].contains(w) == before.areas_spec()[x].contains(w) by {}
                assert forall|x: int, y: int| 0 <= x < y < n implies areas_disjoint(#[trigger] self.areas_spec()[x], #[trigger] self.areas_spec()[y]) by {
                    assert(areas_disjoint(before.areas_spec()[x], before.areas_spec()[y]));
                    assert forall|w: int| !(#[trigger] self.areas_spec()[x].contains(w) && #[trigger] self.areas_spec()[y].contains(w)) by {
                        assert(!(before.areas_spec()[x].contains(w) && before.areas_spec()[y].contains(w)));
                    }
                }
                assert forall|x: int, w: u64| 0 <= x < n && #[trigger] self.areas_spec()[x].contains(w as int) implies self.view().contains_key(w)
                    && self.view()[w] == self.areas_spec()[x].pte_of(w as int) by {
                    assert(before.areas_spec()[x].contains(w as int));
                }
                assert forall|w: u64| #[trigger] self.view().contains_key(w) implies w == TRAMPOLINE_VPN || self.in_area(w as int) by {
                    assert(before.view().contains_key(w));
                    if w != TRAMPOLINE_VPN {
                        let x = choose|x: int| 0 <= x < n && #[trigger] before.areas_spec()[x].contains(w as int);
                        assert(self.areas_spec()[x].contains(w as int));
                    }
                }
                assert forall|x: int, y: int| 0 <= x < y < n implies (#[trigger] self.areas_spec()[x]).owned().disjoint((#[trigger] self.areas_spec()[y]).owned()) by {
                    assert(before.areas_spec()[x].owned().disjoint(before.areas_spec()[y].owned()));
                }
                assert forall|x: int| 0 <= x < n implies (#[trigger] self.areas_spec()[x]).owned().disjoint(self.pt().owned()) by {
                    assert(before.areas_spec()[x].owned().disjoint(before.pt().owned()));
                }
                assert(self.wf());
                assert(self.owned() =~= before.owned()) by {
                    assert forall|p: int| self.owned().contains(p) == before.owned().contains(p) by {
                        if self.owned().contains(p) && !self.pt().owned().contains(p) {
                            let x = choose|x: int| 0 <= x < n && #[trigger] self.areas_spec()[x].owned().contains(p);
                            assert(before.areas_spec()[x].owned().contains(p));
                        }
                        if before.owned().contains(p) && !before.pt().owned().contains(p) {
                            let x = choose|x: int| 0 <= x < n && #[trigger] before.areas_spec()[x].owned().contains(p);
                            assert(self.areas_spec()[x].owned().contains(p));
                        }
                    }
                }
                // bytes
                assert(self.areas_spec()[ii].bytes_spec() == before.areas_spec()[ii].bytes_spec().update(idx as int, data@[j as int]));
                Self::lemma_user_byte_after_set(before, *self, ii, v as int, off as int, data@[j as int]);
                assert forall|b: int| #[trigger] self.user_byte(b) == (if b == va + j { Some(data@[j as int]) } else { before.user_byte(b) }) by {
                    assert(self.user_byte(b) == (if b / 4096 == v && b % 4096 == off { Some(data@[j as int]) } else { before.user_byte(b) }));
                    if b / 4096 == v && b % 4096 == off {
                        assert(b == (b / 4096) * 4096 + b % 4096) by (nonlinear_arith);
                        assert(a == v * 4096 + off) by (nonlinear_arith) requires v == a / 4096, off == a % 4096;
                    }
                    if b == va + j {
                        assert(b / 4096 == v && b % 4096 == off);
                    }
                }
            }
            j = j + 1;
        }
        true
    }
}

/// The bytes of the user buffer `[ptr, ptr + len)` of the address space
/// `m`, page after page; `None` when some of them are not in its framed
/// user areas.
pub fn translated_byte_buffer(m: &MemorySet, ptr: u64, len: u64) -> (r: Option<Vec<u8>>)
    requires
        m.wf(),
    ensures
        r is Some <==> ptr + len <= u64::MAX && forall|j: int| 0 <= j < len ==> (#[trigger] m.user_byte(ptr + j)) is Some,
        r is Some ==> r->Some_0@.len() == len && forall|j: int| 0 <= j < len ==> Some(#[trigger] r->Some_0@[j]) == m.user_byte(ptr + j),
{
    m.read_user_bytes(ptr, len)
}

/// Pushing an area keeps the areas before it.
proof fn lemma_pushed_keeps_areas(before: MemorySet, after: MemorySet)
    requires
        after.areas_spec().len() == before.areas_spec().len() + 1,
        after.areas_spec().subrange(0, before.areas_spec().len() as int) == before.areas_spec(),
    ensures
        forall|k: int| 0 <= k < before.areas_spec().len() ==> #[trigger] after.areas_spec()[k] == before.areas_spec()[k],
{
    assert forall|k: int| 0 <= k < before.areas_spec().len() implies #[trigger] after.areas_spec()[k] == before.areas_spec()[k] by {
        assert(after.areas_spec().subrange(0, before.areas_spec().len() as int)[k] == after.areas_spec()[k]);
    }
}

/// Every page of an area of an address space translates to a valid leaf
/// with the area's rights; its frame is the page itself in an identical
/// area, and the frame the area holds for it in a framed area.
pub proof fn lemma_area_translation(m: MemorySet, i: int, v: u64)
    requires
        m.wf(),
        0 <= i < m.areas_spec().len(),
        m.areas_spec()[i].contains(v as int),
    ensures
        m.view().contains_key(v),
        m.view()[v].valid_spec(),
        m.view()[v].flags_spec() == m.areas_spec()[i].perm_spec() | PTE_V,
        m.areas_spec()[i].map_type_spec() == MapType::Identical ==> m.view()[v].ppn_spec() == v,
        m.areas_spec()[i].map_type_spec() == MapType::Framed ==> m.view()[v].ppn_spec()
            == m.areas_spec()[i].frames_spec()[v - m.areas_spec()[i].start()].ppn.0,
{
    let a = m.areas_spec()[i];
    assert(a.wf());
    if a.map_type_spec() == MapType::Framed {
        let k = v - a.start();
        assert(a.frames_spec()[k].ppn.0 < PPN_LIMIT);
    }
    lemma_pte_bits(a.ppn_of(v as int), a.perm_spec() | PTE_V);
}

/// In every address space the trampoline page translates to the
/// trampoline frame with `R|X`.
pub proof fn lemma_trampoline_mapped(m: MemorySet)
    requires
        m.wf(),
    ensures
        m.view().contains_key(TRAMPOLINE_VPN),
        m.view()[TRAMPOLINE_VPN].valid_spec(),
        m.view()[TRAMPOLINE_VPN].ppn_spec() == m.trampoline_spec(),
        m.view()[TRAMPOLINE_VPN].flags_spec() == PERM_R | PERM_X | PTE_V,
{
    lemma_pte_bits(m.trampoline_spec(), PERM_R | PERM_X | PTE_V);
}

} // verus!
