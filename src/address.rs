//! Physical and virtual addresses and page numbers, and ranges of pages.

use crate::config::{PAGE_SIZE, PAGE_SIZE_BITS};
use vstd::prelude::*;

verus! {

/// Physical address.
#[derive(Clone, Copy, Debug, PartialEq, Eq, Structural)]
pub struct PhysAddr(pub u64);

/// Virtual address.
#[derive(Clone, Copy, Debug, PartialEq, Eq, Structural)]
pub struct VirtAddr(pub u64);

/// Physical page number.
#[derive(Clone, Copy, Debug, PartialEq, Eq, Structural)]
pub struct PhysPageNum(pub u64);

/// Virtual page number.
#[derive(Clone, Copy, Debug, PartialEq, Eq, Structural)]
pub struct VirtPageNum(pub u64);

/// Page number of an address, rounded down.
pub open spec fn floor_spec(a: int) -> int {
    a / PAGE_SIZE as int
}

/// Page number of an address, rounded up.
pub open spec fn ceil_spec(a: int) -> int {
    (a + PAGE_SIZE - 1) / PAGE_SIZE as int
}

/// A virtual page number whose address is the sign extension of its bit 38:
/// the lower half of the SV39 space, or its upper half at the top of the
/// 64-bit space.
pub open spec fn vpn_valid(v: int) -> bool {
    (0 <= v < 0x400_0000) || (0xf_ffff_fc00_0000 <= v < 0x10_0000_0000_0000)
}

/// The three 9-bit indices of a page number, root level first.
pub open spec fn vpn_index(v: int, level: int) -> int {
    if level == 0 {
        (v / 0x4_0000) % 512
    } else if level == 1 {
        (v / 512) % 512
    } else {
        v % 512
    }
}

impl VirtAddr {
    pub fn floor(&self) -> (r: VirtPageNum)
        ensures
            r.0 == floor_spec(self.0 as int),
    {
        VirtPageNum(self.0 / PAGE_SIZE)
    }

    /// Rounds up; the top page of the address space does not overflow.
    pub fn ceil(&self) -> (r: VirtPageNum)
        ensures
            r.0 == ceil_spec(self.0 as int),
    {
        if self.0 == 0 {
            VirtPageNum(0)
        } else {
            VirtPageNum((self.0 - 1) / PAGE_SIZE + 1)
        }
    }

    pub fn page_offset(&self) -> (r: u64)
        ensures
            r == self.0 as int % PAGE_SIZE as int,
    {
        let a = self.0;
        assert(a & 0xfff == a % 0x1000) by (bit_vector);
        a & (PAGE_SIZE - 1)
    }

    pub fn is_aligned(&self) -> (r: bool)
        ensures
            r == (self.0 as int % PAGE_SIZE as int == 0),
    {
        self.page_offset() == 0
    }

    /// The first address of a page.
    pub fn from_vpn(vpn: VirtPageNum) -> (r: VirtAddr)
        requires
            vpn.0 * PAGE_SIZE <= u64::MAX,
        ensures
            r.0 == vpn.0 * PAGE_SIZE,
    {
        let v = vpn.0;
        assert(v * 0x1000 <= u64::MAX ==> v << 12 == v * 0x1000) by (bit_vector);
        VirtAddr(vpn.0 << PAGE_SIZE_BITS)
    }
}

impl PhysAddr {
    pub fn floor(&self) -> (r: PhysPageNum)
        ensures
            r.0 == floor_spec(self.0 as int),
    {
        PhysPageNum(self.0 / PAGE_SIZE)
    }

    pub fn ceil(&self) -> (r: PhysPageNum)
        ensures
            r.0 == ceil_spec(self.0 as int),
    {
        if self.0 == 0 {
            PhysPageNum(0)
        } else {
            PhysPageNum((self.0 - 1) / PAGE_SIZE + 1)
        }
    }

    pub fn page_offset(&self) -> (r: u64)
        ensures
            r == self.0 as int % PAGE_SIZE as int,
    {
        let a = self.0;
        assert(a & 0xfff == a % 0x1000) by (bit_vector);
        a & (PAGE_SIZE - 1)
    }

    pub fn is_aligned(&self) -> (r: bool)
        ensures
            r == (self.0 as int % PAGE_SIZE as int == 0),
    {
        self.page_offset() == 0
    }
}

impl VirtPageNum {
    /// The indices into the three levels of the page table, root first.
    pub fn indexes(&self) -> (r: [u64; 3])
        ensures
            r@.len() == 3,
            forall|i: int| 0 <= i < 3 ==> r@[i] == vpn_index(self.0 as int, i) && r@[i] < 512,
    {
        let v = self.0;
        assert(v & 0x1ff == v % 512) by (bit_vector);
        assert((v >> 9) & 0x1ff == (v / 512) % 512) by (bit_vector);
        assert((v >> 18) & 0x1ff == (v / 0x4_0000) % 512) by (bit_vector);
        let mut idx = [0u64; 3];
        idx[2] = v & 0x1ff;
        idx[1] = (v >> 9) & 0x1ff;
        idx[0] = (v >> 18) & 0x1ff;
        assert(v & 0x1ff < 512 && (v >> 9) & 0x1ff < 512 && (v >> 18) & 0x1ff < 512) by (bit_vector);
        assert(idx@[0] == vpn_index(v as int, 0));
        assert(idx@[1] == vpn_index(v as int, 1));
        assert(idx@[2] == vpn_index(v as int, 2));
        idx
    }
}

/// Distinct valid page numbers have distinct page table indices.
pub proof fn lemma_vpn_index_injective(a: u64, b: u64)
    requires
        vpn_valid(a as int),
        vpn_valid(b as int),
        vpn_index(a as int, 0) == vpn_index(b as int, 0),
        vpn_index(a as int, 1) == vpn_index(b as int, 1),
        vpn_index(a as int, 2) == vpn_index(b as int, 2),
    ensures
        a == b,
{
    assert(a & 0x1ff == a % 512 && b & 0x1ff == b % 512) by (bit_vector);
    assert((a >> 9) & 0x1ff == (a / 512) % 512 && (b >> 9) & 0x1ff == (b / 512) % 512)
        by (bit_vector);
    assert((a >> 18) & 0x1ff == (a / 0x4_0000) % 512 && (b >> 18) & 0x1ff == (b / 0x4_0000)
        % 512) by (bit_vector);
    assert(((a < 0x400_0000) || (0xf_ffff_fc00_0000 <= a && a < 0x10_0000_0000_0000)) && ((b
        < 0x400_0000) || (0xf_ffff_fc00_0000 <= b && b < 0x10_0000_0000_0000)) && a & 0x1ff == b
        & 0x1ff && (a >> 9) & 0x1ff == (b >> 9) & 0x1ff && (a >> 18) & 0x1ff == (b >> 18) & 0x1ff
        ==> a == b) by (bit_vector);
}

/// A value that can be advanced to its successor.
pub trait StepByOne: Sized {
    spec fn can_step(&self) -> bool;

    spec fn stepped(&self) -> Self;

    fn step(&mut self)
        requires
            old(self).can_step(),
        ensures
            *final(self) == old(self).stepped(),
    ;
}

impl StepByOne for VirtPageNum {
    open spec fn can_step(&self) -> bool {
        self.0 < u64::MAX
    }

    open spec fn stepped(&self) -> Self {
        VirtPageNum((self.0 + 1) as u64)
    }

    fn step(&mut self) {
        self.0 = self.0 + 1;
    }
}

/// A half-open range of virtual page numbers `[l, r)`.
#[derive(Clone, Copy, Debug)]
pub struct SimpleRange {
    pub l: VirtPageNum,
    pub r: VirtPageNum,
}

pub type VPNRange = SimpleRange;

impl SimpleRange {
    pub open spec fn start_spec(&self) -> int {
        self.l.0 as int
    }

    pub open spec fn end_spec(&self) -> int {
        self.r.0 as int
    }

    pub open spec fn wf(&self) -> bool {
        self.l.0 <= self.r.0
    }

    pub open spec fn contains_spec(&self, v: int) -> bool {
        self.l.0 <= v < self.r.0
    }

    pub fn new(start: VirtPageNum, end: VirtPageNum) -> (r: Self)
        requires
            start.0 <= end.0,
        ensures
            r.start_spec() == start.0,
            r.end_spec() == end.0,
            r.wf(),
    {
        SimpleRange { l: start, r: end }
    }

    pub fn get_start(&self) -> (r: VirtPageNum)
        ensures
            r.0 == self.start_spec(),
    {
        self.l
    }

    pub fn get_end(&self) -> (r: VirtPageNum)
        ensures
            r.0 == self.end_spec(),
    {
        self.r
    }

    pub fn len(&self) -> (r: u64)
        requires
            self.wf(),
        ensures
            r == self.end_spec() - self.start_spec(),
    {
        self.r.0 - self.l.0
    }

    pub fn iter(&self) -> (r: SimpleRangeIterator)
        requires
            self.wf(),
        ensures
            r.current_spec() == self.start_spec(),
            r.end_spec() == self.end_spec(),
    {
        SimpleRangeIterator::new(self.l, self.r)
    }
}

/// Walks a range of page numbers upwards.
pub struct SimpleRangeIterator {
    pub current: VirtPageNum,
    pub end: VirtPageNum,
}

impl SimpleRangeIterator {
    pub open spec fn current_spec(&self) -> int {
        self.current.0 as int
    }

    pub open spec fn end_spec(&self) -> int {
        self.end.0 as int
    }

    pub fn new(l: VirtPageNum, r: VirtPageNum) -> (it: Self)
        ensures
            it.current_spec() == l.0,
            it.end_spec() == r.0,
    {
        SimpleRangeIterator { current: l, end: r }
    }

    /// The next page of the range, if any is left.
    pub fn next(&mut self) -> (r: Option<VirtPageNum>)
        requires
            old(self).current_spec() <= old(self).end_spec(),
        ensures
            final(self).end_spec() == old(self).end_spec(),
            old(self).current_spec() == old(self).end_spec() ==> r is None && final(self).current_spec()
                == old(self).current_spec(),
            old(self).current_spec() < old(self).end_spec() ==> r == Some(old(self).current)
                && final(self).current_spec() == old(self).current_spec() + 1,
    {
        if self.current.0 == self.end.0 {
            None
        } else {
            let t = self.current;
            self.current.step();
            Some(t)
        }
    }
}

} // verus!
