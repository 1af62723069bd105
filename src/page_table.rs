//! SV39 page tables: entries, flags and the three-level tree of frames.

use crate::address::{vpn_index, vpn_valid, lemma_vpn_index_injective, PhysPageNum, VirtPageNum};
use crate::frame_allocator::{frame_alloc, FrameTracker, StackFrameAllocator, PPN_LIMIT};
use vstd::prelude::*;

verus! {

/// The flag bits of a page table entry.
#[derive(Clone, Copy, Debug, PartialEq, Eq, Structural)]
pub struct PTEFlags {
    pub bits: u8,
}

pub const PTE_V: u8 = 1;

pub const PTE_R: u8 = 2;

pub const PTE_W: u8 = 4;

pub const PTE_X: u8 = 8;

pub const PTE_U: u8 = 16;

pub const PTE_G: u8 = 32;

pub const PTE_A: u8 = 64;

pub const PTE_D: u8 = 128;

impl PTEFlags {
    pub fn from_bits(bits: u8) -> (r: Self)
        ensures
            r.bits == bits,
    {
        PTEFlags { bits }
    }

    pub fn empty() -> (r: Self)
        ensures
            r.bits == 0,
    {
        PTEFlags { bits: 0 }
    }

    pub fn union(self, other: Self) -> (r: Self)
        ensures
            r.bits == self.bits | other.bits,
    {
        PTEFlags { bits: self.bits | other.bits }
    }

    pub fn contains(self, other: Self) -> (r: bool)
        ensures
            r == (self.bits & other.bits == other.bits),
    {
        self.bits & other.bits == other.bits
    }
}

/// A 64-bit page table entry: the page number in bits 10..54, the flags in
/// bits 0..8.
#[derive(Clone, Copy, Debug, PartialEq, Eq, Structural)]
pub struct PageTableEntry {
    pub bits: u64,
}

pub open spec fn pte_bits(ppn: u64, flags: u8) -> u64 {
    (ppn << 10u64) | (flags as u64)
}

impl PageTableEntry {
    pub open spec fn ppn_spec(&self) -> u64 {
        (self.bits >> 10u64) & 0xfff_ffff_ffffu64
    }

    pub open spec fn flags_spec(&self) -> u8 {
        (self.bits & 0xffu64) as u8
    }

    pub open spec fn valid_spec(&self) -> bool {
        self.bits & 1u64 == 1u64
    }

    /// An entry made of a page number and flags.
    pub fn new(ppn: PhysPageNum, flags: PTEFlags) -> (r: Self)
        requires
            ppn.0 < PPN_LIMIT,
        ensures
            r.bits == pte_bits(ppn.0, flags.bits),
            r.ppn_spec() == ppn.0,
            r.flags_spec() == flags.bits,
            r.valid_spec() == (flags.bits & 1 == 1),
    {
        let p = ppn.0;
        let f = flags.bits as u64;
        assert(p < 0x1000_0000_0000u64 && f < 256u64 ==> ((p << 10u64) | f) >> 10u64 & 0xfff_ffff_ffffu64 == p
            && ((p << 10u64) | f) & 0xffu64 == f && (((p << 10u64) | f) & 1u64 == f & 1u64)) by (bit_vector);
        let fb = flags.bits;
        assert((f & 1u64 == 1u64) == (fb & 1u8 == 1u8)) by (bit_vector)
            requires
                f == fb as u64,
        ;
        PageTableEntry { bits: (ppn.0 << 10) | (flags.bits as u64) }
    }

    pub fn empty() -> (r: Self)
        ensures
            r.bits == 0,
            !r.valid_spec(),
    {
        assert(0u64 & 1u64 == 0u64) by (bit_vector);
        PageTableEntry { bits: 0 }
    }

    pub fn ppn(&self) -> (r: PhysPageNum)
        ensures
            r.0 == self.ppn_spec(),
    {
        PhysPageNum((self.bits >> 10) & 0xfff_ffff_ffff)
    }

    pub fn flags(&self) -> (r: PTEFlags)
        ensures
            r.bits == self.flags_spec(),
    {
        PTEFlags { bits: (self.bits & 0xff) as u8 }
    }

    pub fn is_valid(&self) -> (r: bool)
        ensures
            r == self.valid_spec(),
    {
        self.bits & 1 == 1
    }

    pub fn is_readable(&self) -> (r: bool)
        ensures
            r == (self.flags_spec() & PTE_R == PTE_R),
    {
        self.flags().contains(PTEFlags { bits: PTE_R })
    }

    pub fn is_writable(&self) -> (r: bool)
        ensures
            r == (self.flags_spec() & PTE_W == PTE_W),
    {
        self.flags().contains(PTEFlags { bits: PTE_W })
    }

    pub fn is_executable(&self) -> (r: bool)
        ensures
            r == (self.flags_spec() & PTE_X == PTE_X),
    {
        self.flags().contains(PTEFlags { bits: PTE_X })
    }
}

/// An entry made of a page number and flags gives them back.
pub proof fn lemma_pte_bits(ppn: u64, flags: u8)
    requires
        ppn < PPN_LIMIT,
    ensures
        (PageTableEntry { bits: pte_bits(ppn, flags) }).ppn_spec() == ppn,
        (PageTableEntry { bits: pte_bits(ppn, flags) }).flags_spec() == flags,
        (PageTableEntry { bits: pte_bits(ppn, flags) }).valid_spec() == (flags & 1 == 1),
        (PageTableEntry { bits: pte_bits(ppn, flags | PTE_V) }).valid_spec(),
{
    let f = flags as u64;
    assert(ppn < 0x1000_0000_0000u64 && f < 256u64 ==> ((ppn << 10u64) | f) >> 10u64 & 0xfff_ffff_ffffu64 == ppn
        && ((ppn << 10u64) | f) & 0xffu64 == f && (((ppn << 10u64) | f) & 1u64 == f & 1u64)) by (bit_vector);
    assert((f & 1u64 == 1u64) == (flags & 1u8 == 1u8)) by (bit_vector)
        requires
            f == flags as u64,
    ;
    let g = (flags | 1u8) as u64;
    assert(((ppn << 10u64) | g) & 1u64 == g & 1u64) by (bit_vector);
    assert(g & 1u64 == 1u64) by (bit_vector)
        requires
            g == (flags | 1u8) as u64,
    ;
}

/// The path of table indices from the root down to the table that holds
/// the leaf entry of a page.
pub open spec fn leaf_path(vpn: u64) -> Seq<int> {
    seq![vpn_index(vpn as int, 0), vpn_index(vpn as int, 1)]
}

/// The `satp` value of a table: SV39 mode in the top four bits, the root
/// page number at the bottom.
pub open spec fn token_spec(root: u64) -> u64 {
    (8u64 << 60u64) | root
}

/// A three-level page table over the frames it owns. Node `k` is held in
/// frame `frames[k]`; its 512 entries are `entries[512 * k ..]`.
pub struct PageTable {
    root_ppn: PhysPageNum,
    frames: Vec<FrameTracker>,
    entries: Vec<PageTableEntry>,
    /// The table indices that lead from the root to each node.
    paths: Ghost<Seq<Seq<int>>>,
}

impl PageTable {
    pub closed spec fn node_count(&self) -> int {
        self.frames@.len() as int
    }

    pub closed spec fn entry(&self, k: int, i: int) -> PageTableEntry {
        self.entries@[k * 512 + i]
    }

    pub closed spec fn has_path(&self, p: Seq<int>) -> bool {
        exists|k: int| 0 <= k < self.node_count() && self.paths@[k] == p
    }

    pub closed spec fn node_of(&self, p: Seq<int>) -> int {
        choose|k: int| 0 <= k < self.node_count() && self.paths@[k] == p
    }

    pub closed spec fn root_spec(&self) -> u64 {
        self.root_ppn.0
    }

    /// The frames that this table owns.
    pub closed spec fn owned(&self) -> Set<int> {
        Set::new(|p: int| exists|k: int| 0 <= k < self.node_count() && self.frames@[k].ppn.0 == p)
    }

    pub closed spec fn wf(&self) -> bool {
        let n = self.node_count();
        &&& n >= 1
        &&& self.paths@.len() == n
        &&& self.entries@.len() == 512 * n
        &&& self.entries@.len() <= usize::MAX
        &&& self.frames@[0].ppn == self.root_ppn
        &&& self.paths@[0] == Seq::<int>::empty()
        &&& forall|k: int| 0 <= k < n ==> #[trigger] self.paths@[k].len() <= 2
        &&& forall|k: int, j: int|
            0 <= k < n && 0 <= j < self.paths@[k].len() ==> 0 <= #[trigger] self.paths@[k][j] < 512
        &&& forall|k1: int, k2: int|
            0 <= k1 < n && 0 <= k2 < n && k1 != k2 ==> #[trigger] self.paths@[k1] != #[trigger] self.paths@[k2]
        &&& forall|k1: int, k2: int|
            0 <= k1 < n && 0 <= k2 < n && k1 != k2 ==> #[trigger] self.frames@[k1].ppn != #[trigger] self.frames@[k2].ppn
        &&& forall|k: int| 0 <= k < n ==> #[trigger] self.frames@[k].ppn.0 < PPN_LIMIT
        &&& forall|k: int| 0 < k < n ==> self.has_path(#[trigger] self.paths@[k].drop_last())
        &&& forall|k: int, i: int|
            0 <= k < n && 0 <= i < 512 && self.paths@[k].len() < 2 ==> {
                &&& (#[trigger] self.entry(k, i)).valid_spec() == self.has_path(self.paths@[k].push(i))
                &&& self.entry(k, i).valid_spec() ==> self.frames@[self.node_of(self.paths@[k].push(i))].ppn.0
                    == self.entry(k, i).ppn_spec()
            }
    }

    /// The leaf entry of a page, when the tables on its path exist.
    pub closed spec fn walk(&self, vpn: u64) -> Option<PageTableEntry> {
        let p = leaf_path(vpn);
        if self.has_path(p) {
            Some(self.entry(self.node_of(p), vpn_index(vpn as int, 2)))
        } else {
            None
        }
    }

    /// The valid leaf entry of each mapped page.
    pub open spec fn view(&self) -> Map<u64, PageTableEntry> {
        Map::new(
            |v: u64| vpn_valid(v as int) && self.walk(v) is Some && self.walk(v)->Some_0.valid_spec(),
            |v: u64| self.walk(v)->Some_0,
        )
    }

    pub open spec fn token_view(&self) -> u64 {
        token_spec(self.root_spec())
    }
}

proof fn lemma_slot(k: int, i: int, n: int)
    requires
        0 <= k < n,
        0 <= i < 512,
    ensures
        0 <= k * 512 + i < 512 * n,
        k * 512 + i >= k * 512,
{
    assert(k * 512 + i < 512 * n) by (nonlinear_arith)
        requires
            0 <= k < n,
            0 <= i < 512,
    ;
    assert(k * 512 >= 0) by (nonlinear_arith)
        requires
            0 <= k,
    ;
}

impl PageTable {
    proof fn lemma_node_of(&self, k: int)
        requires
            self.wf(),
            0 <= k < self.node_count(),
        ensures
            self.has_path(self.paths@[k]),
            self.node_of(self.paths@[k]) == k,
    {
        let p = self.paths@[k];
        assert(self.has_path(p));
        let j = self.node_of(p);
        if j != k {
            assert(self.paths@[j] != self.paths@[k]);
        }
    }

    /// An empty table: one zeroed root frame.
    pub fn new(allocator: &mut StackFrameAllocator) -> (r: Option<Self>)
        requires
            old(allocator).wf(),
        ensures
            final(allocator).wf(),
            final(allocator).end_spec() == old(allocator).end_spec(),
            r is None <==> old(allocator).free_spec() == 0,
            r is None ==> final(allocator).current_spec() == old(allocator).current_spec()
                && final(allocator).recycled_spec() == old(allocator).recycled_spec(),
            r is Some ==> {
                let t = r->Some_0;
                &&& t.wf()
                &&& t.view() == Map::<u64, PageTableEntry>::empty()
                &&& t.owned().disjoint(old(allocator).allocated())
                &&& final(allocator).allocated() == old(allocator).allocated() + t.owned()
                &&& t.owned().len() == 1
                &&& t.owned().finite()
                &&& final(allocator).free_spec() == old(allocator).free_spec() - 1
            },
    {
        let frame = match frame_alloc(allocator) {
            Some(f) => f,
            None => return None,
        };
        let root_ppn = frame.ppn;
        let mut frames: Vec<FrameTracker> = Vec::new();
        frames.push(frame);
        let mut entries: Vec<PageTableEntry> = Vec::new();
        let mut i: usize = 0;
        while i < 512
            invariant
                i <= 512,
                entries@.len() == i,
                forall|j: int| 0 <= j < i ==> entries@[j].bits == 0,
            decreases 512 - i,
        {
            entries.push(PageTableEntry::empty());
            i = i + 1;
        }
        let ghost paths = seq![Seq::<int>::empty()];
        let t = PageTable { root_ppn, frames, entries, paths: Ghost(paths) };
        proof {
            assert(0u64 & 1u64 == 0u64) by (bit_vector);
            assert forall|k: int, i: int|
                0 <= k < t.node_count() && 0 <= i < 512 && t.paths@[k].len() < 2 implies {
                    &&& (#[trigger] t.entry(k, i)).valid_spec() == t.has_path(t.paths@[k].push(i))
                    &&& t.entry(k, i).valid_spec() ==> t.frames@[t.node_of(t.paths@[k].push(i))].ppn.0
                        == t.entry(k, i).ppn_spec()
                } by {
                assert(k == 0);
                assert(t.entry(k, i).bits == 0);
                if t.has_path(t.paths@[k].push(i)) {
                    let w = choose|w: int| 0 <= w < t.node_count() && t.paths@[w] == t.paths@[k].push(i);
                    assert(w == 0);
                    assert(t.paths@[0].len() == 0);
                }
            }
            assert(t.wf());
            assert forall|v: u64| !(#[trigger] t.view().contains_key(v)) by {
                let p = leaf_path(v);
                if t.has_path(p) {
                    let w = choose|w: int| 0 <= w < t.node_count() && t.paths@[w] == p;
                    assert(w == 0);
                    assert(p.len() == 2);
                }
            }
            assert(t.view() =~= Map::<u64, PageTableEntry>::empty());
            assert(t.owned() =~= set![root_ppn.0 as int]);
            assert(final(allocator).allocated() =~= old(allocator).allocated() + t.owned());
        }
        Some(t)
    }

    /// The node held in the frame with page number `ppn`.
    fn find_node(&self, ppn: PhysPageNum) -> (r: Option<usize>)
        requires
            self.wf(),
        ensures
            r is Some ==> r->Some_0 < self.node_count() && self.frames@[r->Some_0 as int].ppn == ppn,
            r is None ==> forall|k: int| 0 <= k < self.node_count() ==> self.frames@[k].ppn != ppn,
    {
        let mut k: usize = 0;
        while k < self.frames.len()
            invariant
                k <= self.frames@.len(),
                forall|j: int| 0 <= j < k ==> self.frames@[j].ppn != ppn,
            decreases self.frames@.len() - k,
        {
            if self.frames[k].ppn.0 == ppn.0 {
                return Some(k);
            }
            k = k + 1;
        }
        None
    }

    /// Follows the valid entry `i` of node `k` to its child node.
    fn child(&self, k: usize, i: u64) -> (r: usize)
        requires
            self.wf(),
            k < self.node_count(),
            i < 512,
            self.paths@[k as int].len() < 2,
            self.entry(k as int, i as int).valid_spec(),
        ensures
            r < self.node_count(),
            self.has_path(self.paths@[k as int].push(i as int)),
            r == self.node_of(self.paths@[k as int].push(i as int)),
            self.paths@[r as int] == self.paths@[k as int].push(i as int),
    {
        let ghost p = self.paths@[k as int].push(i as int);
        proof {
            lemma_slot(k as int, i as int, self.node_count());
            assert(self.entry(k as int, i as int) == self.entries@[k * 512 + i]);
        }
        let e = self.entries[k * 512 + i as usize];
        match self.find_node(e.ppn()) {
            Some(c) => {
                proof {
                    let w = self.node_of(p);
                    if c as int != w {
                        assert(self.frames@[c as int].ppn != self.frames@[w].ppn);
                    }
                }
                c
            },
            None => {
                proof {
                    let w = self.node_of(p);
                    assert(self.frames@[w].ppn.0 == e.ppn_spec());
                    assert(false);
                }
                0
            },
        }
    }

    /// The position in `entries` of the leaf entry of `vpn`, when the tables
    /// on its path exist.
    fn find_pte(&self, vpn: VirtPageNum) -> (r: Option<usize>)
        requires
            self.wf(),
        ensures
            r is Some <==> self.has_path(leaf_path(vpn.0)),
            r is Some ==> r->Some_0 == self.node_of(leaf_path(vpn.0)) * 512 + vpn_index(vpn.0 as int, 2)
                && r->Some_0 < self.entries@.len(),
    {
        let idx = vpn.indexes();
        let ghost p = leaf_path(vpn.0);
        proof {
            assert(self.paths@[0].push(idx[0] as int) =~= seq![vpn_index(vpn.0 as int, 0)]);
            assert(p.drop_last() =~= seq![vpn_index(vpn.0 as int, 0)]);
            assert(p.drop_last().drop_last() =~= Seq::<int>::empty());
        }
        proof {
            assert(self.entry(0, idx[0] as int) == self.entries@[idx[0] as int]);
        }
        if !self.entries[idx[0] as usize].is_valid() {
            proof {
                if self.has_path(p) {
                    let w = self.node_of(p);
                    assert(w != 0);
                    assert(self.has_path(self.paths@[w].drop_last()));
                }
            }
            return None;
        }
        let k1 = self.child(0, idx[0]);
        proof {
            assert(self.paths@[k1 as int].push(idx[1] as int) =~= p);
            assert(self.paths@[k1 as int].len() == 1);
            lemma_slot(k1 as int, idx[1] as int, self.node_count());
            assert(self.entry(k1 as int, idx[1] as int) == self.entries@[k1 * 512 + idx[1]]);
        }
        if !self.entries[k1 * 512 + idx[1] as usize].is_valid() {
            return None;
        }
        let k2 = self.child(k1, idx[1]);
        proof {
            lemma_slot(k2 as int, idx[2] as int, self.node_count());
        }
        Some(k2 * 512 + idx[2] as usize)
    }

    /// Links a fresh zeroed node below the invalid entry `i` of node `k`.
    fn add_node(&mut self, allocator: &mut StackFrameAllocator, k: usize, i: u64) -> (r: Option<usize>)
        requires
            old(self).wf(),
            old(allocator).wf(),
            old(self).owned().subset_of(old(allocator).allocated()),
            k < old(self).node_count(),
            i < 512,
            old(self).paths@[k as int].len() < 2,
            !old(self).entry(k as int, i as int).valid_spec(),
        ensures
            final(self).wf(),
            final(allocator).wf(),
            final(allocator).end_spec() == old(allocator).end_spec(),
            final(self).view() == old(self).view(),
            final(self).root_spec() == old(self).root_spec(),
            final(self).owned().subset_of(final(allocator).allocated()),
            old(self).owned().subset_of(final(self).owned()),
            final(allocator).allocated() == old(allocator).allocated() + (final(self).owned() - old(self).owned()),
            (final(self).owned() - old(self).owned()).disjoint(old(allocator).allocated()),
            r is None <==> old(allocator).free_spec() == 0,
            r is None ==> final(allocator).free_spec() == old(allocator).free_spec(),
            r is Some ==> final(allocator).free_spec() == old(allocator).free_spec() - 1,
            r is Some ==> {
                &&& r->Some_0 < final(self).node_count()
                &&& final(self).paths@[r->Some_0 as int] == old(self).paths@[k as int].push(i as int)
                &&& final(self).has_path(old(self).paths@[k as int].push(i as int))
            },
            forall|p: Seq<int>| old(self).has_path(p) ==> final(self).has_path(p) && final(self).node_of(p) == old(self).node_of(p),
            forall|j: int| 0 <= j < old(self).node_count() ==> final(self).paths@[j] == old(self).paths@[j],
            forall|j: int, m: int| 0 <= j < old(self).node_count() && 0 <= m < 512 && (j != k || m != i) ==> final(self).entry(j, m) == old(self).entry(j, m),
    {
        let ghost old_t = *self;
        let frame = match frame_alloc(allocator) {
            Some(f) => f,
            None => {
                proof {
                    assert(self.owned() - old(self).owned() =~= Set::empty());
                    assert(final(allocator).allocated() =~= old(allocator).allocated()) by {
                        assert forall|x: int| #[trigger] allocator.is_allocated(x) == old(allocator).is_allocated(x) by {}
                    }
                }
                return None;
            },
        };
        let q = frame.ppn;
        let n = self.frames.len();
        proof {
            lemma_slot(k as int, i as int, n as int);
            assert(!old(allocator).is_allocated(q.0 as int));
            assert forall|j: int| 0 <= j < n implies #[trigger] self.frames@[j].ppn != q by {
                assert(self.owned().contains(self.frames@[j].ppn.0 as int));
            }
        }
        self.frames.push(frame);
        let ghost frames_after = self.frames@;
        let mut m: usize = 0;
        while m < 512
            invariant
                m <= 512,
                self.frames@ == frames_after,
                self.paths == old_t.paths,
                self.root_ppn == old_t.root_ppn,
                n == old_t.frames@.len(),
                self.entries@.len() == 512 * n + m,
                forall|j: int| 0 <= j < 512 * n ==> self.entries@[j] == old_t.entries@[j],
                forall|j: int| 512 * n <= j < 512 * n + m ==> self.entries@[j].bits == 0,
                old_t.entries@.len() == 512 * n,
                old_t.entries@.len() <= usize::MAX,
            decreases 512 - m,
        {
            self.entries.push(PageTableEntry::empty());
            m = m + 1;
        }
        assert(self.frames@.len() == n + 1);
        let ghost newp = self.paths@[k as int].push(i as int);
        self.paths = Ghost(self.paths@.push(newp));
        let e = PageTableEntry::new(q, PTEFlags { bits: PTE_V });
        self.entries.set(k * 512 + i as usize, e);
        let _len = self.entries.len();
        proof {
            assert(PTE_V & 1 == 1) by (bit_vector);
            let t = *self;
            let nn = n as int + 1;
            assert(t.node_count() == nn);
            // entries of old nodes
            assert forall|j: int, m: int| 0 <= j < n && 0 <= m < 512 && (j != k || m != i) implies t.entry(j, m) == old_t.entry(j, m) by {
                lemma_slot(j, m, n as int);
                if j * 512 + m == k * 512 + i {
                    assert(j == k && m == i) by (nonlinear_arith)
                        requires j * 512 + m == k * 512 + i, 0 <= m < 512, 0 <= i < 512;
                }
            }
            assert forall|m: int| 0 <= m < 512 implies #[trigger] t.entry(n as int, m).bits == 0 by {
                lemma_slot(n as int, m, nn);
                assert(n * 512 + m >= 512 * n) by (nonlinear_arith)
                    requires
                        0 <= m,
                ;
            }
            assert(t.entry(k as int, i as int) == e);
            // paths
            assert(old_t.wf());
            assert(old_t.entry(k as int, i as int).valid_spec() == old_t.has_path(newp));
            assert(!old_t.has_path(newp));
            assert forall|p: Seq<int>| old_t.has_path(p) implies t.has_path(p) && t.node_of(p) == old_t.node_of(p) by {
                let w = old_t.node_of(p);
                assert(t.paths@[w] == p);
                let w2 = t.node_of(p);
                if w2 != w {
                    if w2 == n as int {
                        assert(old_t.has_path(newp));
                    } else {
                        assert(old_t.paths@[w2] != old_t.paths@[w]);
                    }
                }
            }
            assert forall|p: Seq<int>| t.has_path(p) == (old_t.has_path(p) || p == newp) by {
                if t.has_path(p) {
                    let w = choose|w: int| 0 <= w < t.node_count() && t.paths@[w] == p;
                    if w < n {
                        assert(old_t.paths@[w] == p);
                    }
                }
                if p == newp {
                    assert(t.paths@[n as int] == newp);
                }
            }
            assert(t.has_path(newp));
            assert(t.node_of(newp) == n) by {
                let w = t.node_of(newp);
                if w != n {
                    assert(old_t.paths@[w] == newp);
                }
            }
            // no node below the new one yet
            assert forall|m: int| 0 <= m < 512 implies !t.has_path(#[trigger] newp.push(m)) by {
                if old_t.has_path(newp.push(m)) {
                    let w = old_t.node_of(newp.push(m));
                    assert(old_t.paths@[w] == newp.push(m));
                    assert(old_t.paths@[0].len() == 0);
                    assert(w != 0);
                    assert(old_t.paths@[w].drop_last() =~= newp);
                }
                assert(newp.push(m) != newp);
            }
            assert forall|k1: int, k2: int|
                0 <= k1 < nn && 0 <= k2 < nn && k1 != k2 implies #[trigger] t.paths@[k1] != #[trigger] t.paths@[k2] by {
                if k1 == n {
                    assert(old_t.paths@[k2] != newp);
                } else if k2 == n {
                    assert(old_t.paths@[k1] != newp);
                }
            }
            assert forall|k1: int, k2: int|
                0 <= k1 < nn && 0 <= k2 < nn && k1 != k2 implies #[trigger] t.frames@[k1].ppn != #[trigger] t.frames@[k2].ppn by {
                if k1 == n {
                    assert(old_t.frames@[k2].ppn != q);
                } else if k2 == n {
                    assert(old_t.frames@[k1].ppn != q);
                } else {
                    assert(old_t.frames@[k1].ppn != old_t.frames@[k2].ppn);
                }
            }
            assert forall|j: int| 0 < j < nn implies t.has_path(#[trigger] t.paths@[j].drop_last()) by {
                if j == n {
                    assert(newp.drop_last() =~= old_t.paths@[k as int]);
                    assert(old_t.has_path(old_t.paths@[k as int]));
                } else {
                    assert(old_t.has_path(old_t.paths@[j].drop_last()));
                }
            }
            assert forall|j: int, m: int|
                0 <= j < nn && 0 <= m < 512 && t.paths@[j].len() < 2 implies {
                    &&& (#[trigger] t.entry(j, m)).valid_spec() == t.has_path(t.paths@[j].push(m))
                    &&& t.entry(j, m).valid_spec() ==> t.frames@[t.node_of(t.paths@[j].push(m))].ppn.0
                        == t.entry(j, m).ppn_spec()
                } by {
                if j == n {
                    assert(t.paths@[j] == newp);
                    assert(0u64 & 1u64 == 0u64) by (bit_vector);
                } else if j == k && m == i {
                    assert(t.paths@[j].push(m) == newp);
                } else {
                    assert(t.paths@[j] == old_t.paths@[j]);
                    assert(old_t.entry(j, m).valid_spec() == old_t.has_path(old_t.paths@[j].push(m)));
                    if old_t.paths@[j].push(m) == newp {
                        assert(old_t.paths@[j] =~= old_t.paths@[k as int]) by {
                            assert(old_t.paths@[j] =~= old_t.paths@[j].push(m).drop_last());
                            assert(old_t.paths@[k as int] =~= newp.drop_last());
                        }
                        assert(old_t.paths@[j].push(m).last() == m);
                        assert(newp.last() == i);
                        if j != k {
                            assert(old_t.paths@[j] != old_t.paths@[k as int]);
                        }
                        assert(false);
                    }
                    if old_t.entry(j, m).valid_spec() {
                        let c = old_t.node_of(old_t.paths@[j].push(m));
                        assert(t.frames@[c] == old_t.frames@[c]);
                    }
                }
            }
            assert(t.frames@[0].ppn == t.root_ppn);
            assert(t.paths@[0] == Seq::<int>::empty());
            assert forall|j: int| 0 <= j < nn implies #[trigger] t.paths@[j].len() <= 2 by {
                if j < n { assert(old_t.paths@[j].len() <= 2); }
            }
            assert forall|j: int, x: int|
                0 <= j < nn && 0 <= x < t.paths@[j].len() implies 0 <= #[trigger] t.paths@[j][x] < 512 by {
                if j < n {
                    assert(old_t.paths@[j][x] == t.paths@[j][x]);
                } else if x < newp.len() - 1 {
                    assert(newp[x] == old_t.paths@[k as int][x]);
                }
            }
            assert forall|j: int| 0 <= j < nn implies #[trigger] t.frames@[j].ppn.0 < PPN_LIMIT by {
                if j < n { assert(old_t.frames@[j].ppn.0 < PPN_LIMIT); }
            }
            assert(t.entries@.len() == 512 * nn);
            assert(t.entries@.len() <= usize::MAX);
            assert(nn >= 1);
            assert(t.paths@.len() == nn);
            assert(t.wf());
            // the mapping does not change
            assert forall|v: u64| #[trigger] t.walk(v) == old_t.walk(v) || (leaf_path(v) == newp && t.walk(v)
                == Some(t.entry(n as int, vpn_index(v as int, 2)))) by {
                let p = leaf_path(v);
                if old_t.has_path(p) {
                    let w = old_t.node_of(p);
                    assert(old_t.paths@[w].len() == 2);
                    assert(w != k as int);
                    assert(0 <= vpn_index(v as int, 2) < 512);
                    assert(t.entry(w, vpn_index(v as int, 2)) == old_t.entry(w, vpn_index(v as int, 2)));
                }
            }
            assert forall|v: u64| #[trigger] t.view().contains_key(v) == old_t.view().contains_key(v)
                && (t.view().contains_key(v) ==> t.view()[v] == old_t.view()[v]) by {
                assert(t.walk(v) == old_t.walk(v) || (leaf_path(v) == newp && t.walk(v)
                == Some(t.entry(n as int, vpn_index(v as int, 2)))));
                if t.walk(v) != old_t.walk(v) {
                    assert(0 <= vpn_index(v as int, 2) < 512);
                    assert(t.entry(n as int, vpn_index(v as int, 2)).bits == 0);
                    assert(0u64 & 1u64 == 0u64) by (bit_vector);
                    assert(!old_t.has_path(newp));
                }
            }
            assert(t.view() =~= old_t.view());
            assert(t.owned() =~= old_t.owned().insert(q.0 as int)) by {
                assert forall|x: int| t.owned().contains(x) == old_t.owned().insert(q.0 as int).contains(x) by {
                    if t.owned().contains(x) {
                        let w = choose|w: int| 0 <= w < t.node_count() && t.frames@[w].ppn.0 == x;
                        if w < n {
                            assert(old_t.frames@[w].ppn.0 == x);
                        }
                    }
                    if old_t.owned().contains(x) {
                        let w = choose|w: int| 0 <= w < old_t.node_count() && old_t.frames@[w].ppn.0 == x;
                        assert(t.frames@[w].ppn.0 == x);
                    }
                    if x == q.0 as int {
                        assert(t.frames@[n as int].ppn.0 == x);
                    }
                }
            }
            assert(t.owned() - old_t.owned() =~= set![q.0 as int]);
            assert(final(allocator).allocated() =~= old(allocator).allocated() + (t.owned() - old_t.owned()));
        }
        Some(n)
    }

    /// Writing the leaf entry of `vpn` changes the mapping of `vpn` alone.
    proof fn lemma_set_leaf(old_t: Self, t: Self, vpn: u64, e: PageTableEntry)
        requires
            old_t.wf(),
            vpn_valid(vpn as int),
            old_t.has_path(leaf_path(vpn)),
            t.frames@ == old_t.frames@,
            t.paths == old_t.paths,
            t.root_ppn == old_t.root_ppn,
            t.entries@ == old_t.entries@.update(
                old_t.node_of(leaf_path(vpn)) * 512 + vpn_index(vpn as int, 2),
                e,
            ),
            t.entries@.len() <= usize::MAX,
        ensures
            t.wf(),
            t.owned() == old_t.owned(),
            forall|p: Seq<int>| t.has_path(p) == old_t.has_path(p),
            e.valid_spec() ==> t.view() == old_t.view().insert(vpn, e),
            !e.valid_spec() ==> t.view() == old_t.view().remove(vpn),
    {
        let lp = leaf_path(vpn);
        let w = old_t.node_of(lp);
        let l0 = vpn_index(vpn as int, 2);
        let n = old_t.node_count();
        assert(0 <= l0 < 512);
        lemma_slot(w, l0, n);
        assert(old_t.paths@[w] == lp);
        assert forall|j: int, m: int| 0 <= j < n && 0 <= m < 512 && (j != w || m != l0) implies t.entry(j, m)
            == old_t.entry(j, m) by {
            lemma_slot(j, m, n);
            if j * 512 + m == w * 512 + l0 {
                assert(j == w && m == l0) by (nonlinear_arith)
                    requires
                        j * 512 + m == w * 512 + l0,
                        0 <= m < 512,
                        0 <= l0 < 512,
                ;
            }
        }
        assert(t.entry(w, l0) == e);
        assert forall|p: Seq<int>| t.has_path(p) == old_t.has_path(p) && t.node_of(p) == old_t.node_of(p) by {}
        assert forall|j: int, m: int|
            0 <= j < n && 0 <= m < 512 && t.paths@[j].len() < 2 implies {
                &&& (#[trigger] t.entry(j, m)).valid_spec() == t.has_path(t.paths@[j].push(m))
                &&& t.entry(j, m).valid_spec() ==> t.frames@[t.node_of(t.paths@[j].push(m))].ppn.0
                    == t.entry(j, m).ppn_spec()
            } by {
            assert(j != w);
            assert(old_t.entry(j, m).valid_spec() == old_t.has_path(old_t.paths@[j].push(m)));
        }
        assert forall|j: int| 0 < j < n implies t.has_path(#[trigger] t.paths@[j].drop_last()) by {
            assert(old_t.has_path(old_t.paths@[j].drop_last()));
        }
        assert(t.wf());
        assert(t.owned() =~= old_t.owned());
        assert forall|v: u64| v != vpn && vpn_valid(v as int) implies #[trigger] t.walk(v) == old_t.walk(v) by {
            let p = leaf_path(v);
            if old_t.has_path(p) {
                let x = old_t.node_of(p);
                let m = vpn_index(v as int, 2);
                assert(0 <= m < 512);
                if x == w && m == l0 {
                    assert(old_t.paths@[x] == p);
                    assert(p[0] == lp[0] && p[1] == lp[1]);
                    lemma_vpn_index_injective(v, vpn);
                }
            }
        }
        if e.valid_spec() {
            assert(t.view() =~= old_t.view().insert(vpn, e));
        } else {
            assert(t.view() =~= old_t.view().remove(vpn));
        }
    }

    /// The position of the leaf entry of `vpn`, creating the tables on its
    /// path as needed.
    fn find_pte_or_create(&mut self, allocator: &mut StackFrameAllocator, vpn: VirtPageNum) -> (r: Option<usize>)
        requires
            old(self).wf(),
            old(allocator).wf(),
            old(self).owned().subset_of(old(allocator).allocated()),
        ensures
            final(self).wf(),
            final(allocator).wf(),
            final(allocator).end_spec() == old(allocator).end_spec(),
            final(self).view() == old(self).view(),
            final(self).root_spec() == old(self).root_spec(),
            final(self).owned().subset_of(final(allocator).allocated()),
            old(self).owned().subset_of(final(self).owned()),
            final(allocator).allocated() == old(allocator).allocated() + (final(self).owned() - old(self).owned()),
            (final(self).owned() - old(self).owned()).disjoint(old(allocator).allocated()),
            final(allocator).free_spec() >= old(allocator).free_spec() - 2,
            old(self).has_path(leaf_path(vpn.0)) ==> final(allocator).free_spec() == old(allocator).free_spec(),
            old(allocator).free_spec() >= 2 ==> r is Some,
            old(self).has_path(leaf_path(vpn.0)) ==> r is Some,
            forall|p: Seq<int>| old(self).has_path(p) ==> final(self).has_path(p),
            r is Some ==> {
                &&& final(self).has_path(leaf_path(vpn.0))
                &&& r->Some_0 == final(self).node_of(leaf_path(vpn.0)) * 512 + vpn_index(vpn.0 as int, 2)
                &&& r->Some_0 < final(self).entries@.len()
            },
    {
        let idx = vpn.indexes();
        let ghost t0 = *self;
        let ghost a0 = *allocator;
        let ghost top_path = seq![vpn_index(vpn.0 as int, 0)];
        proof {
            assert(self.paths@[0].push(idx[0] as int) =~= top_path);
            assert(self.entry(0, idx[0] as int) == self.entries@[idx[0] as int]);
            if self.has_path(leaf_path(vpn.0)) {
                let w = self.node_of(leaf_path(vpn.0));
                assert(self.paths@[w] == leaf_path(vpn.0));
                assert(self.paths@[0].len() == 0);
                assert(w != 0);
                assert(self.paths@[w].drop_last() =~= top_path);
                assert(self.has_path(top_path));
            }
        }
        let k1 = if !self.entries[idx[0] as usize].is_valid() {
            match self.add_node(allocator, 0, idx[0]) {
                Some(c) => c,
                None => return None,
            }
        } else {
            self.child(0, idx[0])
        };
        let ghost t1 = *self;
        let ghost a1 = *allocator;
        proof {
            assert(self.paths@[k1 as int] == top_path);
            assert(self.paths@[k1 as int].push(idx[1] as int) =~= leaf_path(vpn.0));
            lemma_slot(k1 as int, idx[1] as int, self.node_count());
            assert(self.entry(k1 as int, idx[1] as int) == self.entries@[k1 * 512 + idx[1]]);
        }
        let k2 = if !self.entries[k1 * 512 + idx[1] as usize].is_valid() {
            match self.add_node(allocator, k1, idx[1]) {
                Some(c) => c,
                None => {
                    proof {
                        assert(self.owned() - t0.owned() =~= (t1.owned() - t0.owned()));
                        assert(allocator.allocated() =~= a0.allocated() + (self.owned() - t0.owned()));
                    }
                    return None;
                },
            }
        } else {
            self.child(k1, idx[1])
        };
        proof {
            lemma_slot(k2 as int, idx[2] as int, self.node_count());
            self.lemma_node_of(k2 as int);
            assert(self.owned() - t0.owned() =~= (self.owned() - t1.owned()) + (t1.owned() - t0.owned()));
            assert(allocator.allocated() =~= a0.allocated() + (self.owned() - t0.owned()));
        }
        Some(k2 * 512 + idx[2] as usize)
    }

    /// Maps `vpn` to `ppn` with `flags` and the valid bit. Mapping a page
    /// that is mapped already is a kernel bug.
    pub fn map(&mut self, allocator: &mut StackFrameAllocator, vpn: VirtPageNum, ppn: PhysPageNum, flags: PTEFlags) -> (r: bool)
        requires
            old(self).wf(),
            old(allocator).wf(),
            old(self).owned().subset_of(old(allocator).allocated()),
            vpn_valid(vpn.0 as int),
            !old(self).view().contains_key(vpn.0),
            ppn.0 < PPN_LIMIT,
        ensures
            final(self).wf(),
            final(allocator).wf(),
            final(allocator).end_spec() == old(allocator).end_spec(),
            final(self).root_spec() == old(self).root_spec(),
            final(self).owned().subset_of(final(allocator).allocated()),
            old(self).owned().subset_of(final(self).owned()),
            final(allocator).allocated() == old(allocator).allocated() + (final(self).owned() - old(self).owned()),
            (final(self).owned() - old(self).owned()).disjoint(old(allocator).allocated()),
            final(allocator).free_spec() >= old(allocator).free_spec() - 2,
            old(allocator).free_spec() >= 2 ==> r,
            old(self).has_path(leaf_path(vpn.0)) ==> r && final(allocator).free_spec() == old(allocator).free_spec(),
            forall|p: Seq<int>| old(self).has_path(p) ==> final(self).has_path(p),
            r ==> final(self).has_path(leaf_path(vpn.0)),
            r ==> final(self).view() == old(self).view().insert(
                vpn.0,
                PageTableEntry { bits: pte_bits(ppn.0, flags.bits | PTE_V) },
            ),
            !r ==> final(self).view() == old(self).view(),
    {
        let slot = match self.find_pte_or_create(allocator, vpn) {
            Some(s) => s,
            None => return false,
        };
        let ghost t1 = *self;
        let e = PageTableEntry::new(ppn, flags.union(PTEFlags { bits: PTE_V }));
        self.entries.set(slot, e);
        let _len = self.entries.len();
        proof {
            let fb = flags.bits;
            assert((fb | 1u8) & 1u8 == 1u8) by (bit_vector);
            Self::lemma_set_leaf(t1, *self, vpn.0, e);
        }
        true
    }

    /// Clears the leaf entry of `vpn`. Unmapping a page that is not mapped
    /// is a kernel bug.
    pub fn unmap(&mut self, vpn: VirtPageNum)
        requires
            old(self).wf(),
            old(self).view().contains_key(vpn.0),
        ensures
            final(self).wf(),
            final(self).root_spec() == old(self).root_spec(),
            final(self).owned() == old(self).owned(),
            final(self).view() == old(self).view().remove(vpn.0),
    {
        let slot = match self.find_pte(vpn) {
            Some(s) => s,
            None => {
                proof {
                    assert(false);
                }
                return;
            },
        };
        let ghost t1 = *self;
        let e = PageTableEntry::empty();
        self.entries.set(slot, e);
        let _len = self.entries.len();
        proof {
            Self::lemma_set_leaf(t1, *self, vpn.0, e);
        }
    }

    /// The valid leaf entry of `vpn`, if the page is mapped.
    pub fn translate(&self, vpn: VirtPageNum) -> (r: Option<PageTableEntry>)
        requires
            self.wf(),
        ensures
            r is Some <==> self.view().contains_key(vpn.0),
            r is Some ==> r->Some_0 == self.view()[vpn.0],
    {
        let v = vpn.0;
        if !(v < 0x400_0000 || (0xf_ffff_fc00_0000 <= v && v < 0x10_0000_0000_0000)) {
            return None;
        }
        match self.find_pte(vpn) {
            Some(slot) => {
                let e = self.entries[slot];
                if e.is_valid() {
                    Some(e)
                } else {
                    None
                }
            },
            None => None,
        }
    }

    /// The `satp` value that selects this table.
    pub fn token(&self) -> (r: u64)
        ensures
            r == self.token_view(),
    {
        (8u64 << 60) | self.root_ppn.0
    }

    pub fn root_ppn(&self) -> (r: PhysPageNum)
        ensures
            r.0 == self.root_spec(),
    {
        self.root_ppn
    }
}

/// Mapping a page and then unmapping it leaves it unmapped, and leaves the
/// table's mapping as it was before. `t1` is `t0` after `map(vpn, ..)`,
/// `t2` is `t1` after `unmap(vpn)`.
pub proof fn lemma_map_then_unmap(t0: PageTable, t1: PageTable, t2: PageTable, vpn: u64, e: PageTableEntry)
    requires
        !t0.view().contains_key(vpn),
        t1.view() == t0.view().insert(vpn, e),
        t2.view() == t1.view().remove(vpn),
    ensures
        !t2.view().contains_key(vpn),
        t2.view() == t0.view(),
{
    assert(t2.view() =~= t0.view());
}

} // verus!