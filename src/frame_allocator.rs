//! Stack-style allocation of physical page frames.

use crate::address::{PhysAddr, PhysPageNum};
use crate::config::MEMORY_END;
use vstd::prelude::*;

verus! {

/// The largest page number that a page table entry can hold, plus one.
pub const PPN_LIMIT: u64 = 0x1000_0000_0000;

/// A scoped handle that owns exactly one physical frame.
#[derive(Debug)]
pub struct FrameTracker {
    pub ppn: PhysPageNum,
}

impl FrameTracker {
    pub fn new(ppn: PhysPageNum) -> (r: Self)
        ensures
            r.ppn == ppn,
    {
        FrameTracker { ppn }
    }
}

/// Hands out the never-used frames of `[current, end)` and reuses returned
/// frames in last-in, first-out order.
pub struct StackFrameAllocator {
    current: u64,
    end: u64,
    recycled: Vec<u64>,
}

impl StackFrameAllocator {
    pub closed spec fn current_spec(&self) -> int {
        self.current as int
    }

    pub closed spec fn end_spec(&self) -> int {
        self.end as int
    }

    /// The returned frames, the most recent last.
    pub closed spec fn recycled_spec(&self) -> Seq<u64> {
        self.recycled@
    }

    pub open spec fn wf(&self) -> bool {
        &&& self.current_spec() <= self.end_spec() <= PPN_LIMIT
        &&& forall|i: int|
            0 <= i < self.recycled_spec().len() ==> self.recycled_spec()[i] < self.current_spec()
        &&& self.recycled_spec().no_duplicates()
    }

    /// The frames that are out: handed out once and not returned since.
    pub open spec fn is_allocated(&self, ppn: int) -> bool {
        0 <= ppn < self.current_spec() && !self.recycled_spec().contains(ppn as u64)
    }

    pub open spec fn allocated(&self) -> Set<int> {
        Set::new(|p: int| self.is_allocated(p))
    }

    /// The frame that the next allocation hands out.
    pub open spec fn next_spec(&self) -> Option<u64> {
        if self.recycled_spec().len() > 0 {
            Some(self.recycled_spec().last())
        } else if self.current_spec() < self.end_spec() {
            Some(self.current_spec() as u64)
        } else {
            None
        }
    }

    pub open spec fn free_spec(&self) -> int {
        self.recycled_spec().len() + (self.end_spec() - self.current_spec())
    }

    pub fn new() -> (r: Self)
        ensures
            r.wf(),
            r.current_spec() == 0,
            r.end_spec() == 0,
            r.recycled_spec() == Seq::<u64>::empty(),
    {
        StackFrameAllocator { current: 0, end: 0, recycled: Vec::new() }
    }

    /// Makes `[l, r)` the frames never handed out.
    pub fn init(&mut self, l: PhysPageNum, r: PhysPageNum)
        requires
            l.0 <= r.0 <= PPN_LIMIT,
        ensures
            final(self).wf(),
            final(self).current_spec() == l.0,
            final(self).end_spec() == r.0,
            final(self).recycled_spec() == Seq::<u64>::empty(),
    {
        self.current = l.0;
        self.end = r.0;
        self.recycled = Vec::new();
    }

    /// How many frames can still be handed out.
    pub fn free_count(&self) -> (r: u64)
        requires
            self.wf(),
        ensures
            r == self.free_spec(),
    {
        proof {
            self.lemma_recycled_bounded();
        }
        self.recycled.len() as u64 + (self.end - self.current)
    }

    proof fn lemma_recycled_bounded(&self)
        requires
            self.wf(),
        ensures
            self.recycled_spec().len() <= self.current_spec(),
    {
        let s = self.recycled@;
        let f = |p: u64| p as int;
        let ints = s.to_set().map(f);
        let range = vstd::set_lib::set_int_range(0, self.current as int);
        s.unique_seq_to_set();
        vstd::set_lib::lemma_int_range(0, self.current as int);
        assert(vstd::relations::injective_on(f, s.to_set()));
        vstd::set_lib::lemma_map_size(s.to_set(), ints, f);
        assert forall|x: int| ints.contains(x) implies range.contains(x) by {
            let p = choose|p: u64| s.to_set().contains(p) && f(p) == x;
            assert(s.contains(p));
        }
        vstd::set_lib::lemma_len_subset(ints, range);
    }

    /// Pops the most recently returned frame, else hands out `current`.
    pub fn allocate(&mut self) -> (r: Option<PhysPageNum>)
        requires
            old(self).wf(),
        ensures
            final(self).wf(),
            final(self).end_spec() == old(self).end_spec(),
            old(self).recycled_spec().len() > 0 ==> {
                &&& r == Some(PhysPageNum(old(self).recycled_spec().last()))
                &&& final(self).recycled_spec() == old(self).recycled_spec().drop_last()
                &&& final(self).current_spec() == old(self).current_spec()
            },
            old(self).recycled_spec().len() == 0 && old(self).current_spec() == old(
                self,
            ).end_spec() ==> r is None && final(self).current_spec() == old(self).current_spec()
                && final(self).recycled_spec() == old(self).recycled_spec(),
            old(self).recycled_spec().len() == 0 && old(self).current_spec() < old(self).end_spec()
                ==> {
                &&& r == Some(PhysPageNum(old(self).current_spec() as u64))
                &&& final(self).recycled_spec() == old(self).recycled_spec()
                &&& final(self).current_spec() == old(self).current_spec() + 1
            },
            r is Some ==> {
                &&& !old(self).is_allocated(r->Some_0.0 as int)
                &&& final(self).allocated() == old(self).allocated().insert(r->Some_0.0 as int)
                &&& final(self).free_spec() == old(self).free_spec() - 1
                &&& r->Some_0.0 < PPN_LIMIT
            },
            r is None <==> old(self).free_spec() == 0,
            r is Some <==> old(self).next_spec() is Some,
            r is Some ==> r->Some_0.0 == old(self).next_spec()->Some_0,
    {
        if let Some(ppn) = self.recycled.pop() {
            proof {
                let s = old(self).recycled@;
                assert(s =~= self.recycled@.push(ppn));
                assert(s.contains(ppn));
                assert forall|i: int, j: int|
                    0 <= i < j < self.recycled@.len() implies self.recycled@[i]
                    != self.recycled@[j] by {
                    assert(s[i] == self.recycled@[i] && s[j] == self.recycled@[j]);
                }
                assert(!self.recycled@.contains(ppn)) by {
                    if self.recycled@.contains(ppn) {
                        let k = choose|k: int| 0 <= k < self.recycled@.len() && self.recycled@[k] == ppn;
                        assert(s[k] == s[s.len() - 1]);
                    }
                }
                assert forall|p: int| #[trigger] self.is_allocated(p) <==> old(self).allocated().insert(ppn as int).contains(p) by {
                    if 0 <= p < self.current && p != ppn as int {
                        assert(s.contains(p as u64) <==> self.recycled@.contains(p as u64)) by {
                            if s.contains(p as u64) {
                                let k = choose|k: int| 0 <= k < s.len() && s[k] == p as u64;
                                assert(k != s.len() - 1);
                                assert(self.recycled@[k] == p as u64);
                            }
                            if self.recycled@.contains(p as u64) {
                                let k = choose|k: int| 0 <= k < self.recycled@.len() && self.recycled@[k] == p as u64;
                                assert(s[k] == p as u64);
                            }
                        }
                    }
                }
                assert(self.allocated() =~= old(self).allocated().insert(ppn as int));
            }
            Some(PhysPageNum(ppn))
        } else if self.current == self.end {
            None
        } else {
            self.current = self.current + 1;
            proof {
                assert(self.allocated() =~= old(self).allocated().insert(old(self).current as int));
            }
            Some(PhysPageNum(self.current - 1))
        }
    }

    /// Takes a frame back; returning a frame that is not out is a kernel bug.
    pub fn deallocate(&mut self, ppn: PhysPageNum)
        requires
            old(self).wf(),
            old(self).is_allocated(ppn.0 as int),
        ensures
            final(self).wf(),
            final(self).current_spec() == old(self).current_spec(),
            final(self).end_spec() == old(self).end_spec(),
            final(self).recycled_spec() == old(self).recycled_spec().push(ppn.0),
            final(self).allocated() == old(self).allocated().remove(ppn.0 as int),
            final(self).free_spec() == old(self).free_spec() + 1,
    {
        self.recycled.push(ppn.0);
        proof {
            let s = old(self).recycled@;
            assert(self.recycled@ =~= s.push(ppn.0));
            assert forall|i: int, j: int|
                0 <= i < j < self.recycled@.len() implies self.recycled@[i]
                != self.recycled@[j] by {
                if j == s.len() {
                    assert(s.contains(self.recycled@[i]));
                }
            }
            assert forall|p: int| #[trigger] self.is_allocated(p) <==> old(self).allocated().remove(ppn.0 as int).contains(p) by {
                if 0 <= p < self.current {
                    assert(self.recycled@.contains(p as u64) <==> (s.contains(p as u64) || p as u64 == ppn.0)) by {
                        if self.recycled@.contains(p as u64) {
                            let k = choose|k: int| 0 <= k < self.recycled@.len() && self.recycled@[k] == p as u64;
                            if k < s.len() { assert(s[k] == p as u64); }
                        }
                        if s.contains(p as u64) {
                            let k = choose|k: int| 0 <= k < s.len() && s[k] == p as u64;
                            assert(self.recycled@[k] == p as u64);
                        }
                        if p as u64 == ppn.0 {
                            assert(self.recycled@[s.len() as int] == ppn.0);
                        }
                    }
                }
            }
            assert(self.allocated() =~= old(self).allocated().remove(ppn.0 as int));
        }
    }
}

/// A frame handed back is the one handed out next, and taking it out again
/// leaves the allocator as it was before the frame came back: frames are
/// reused last in, first out. `b` is `a` after `deallocate(p)`.
pub proof fn lemma_dealloc_then_alloc(a: StackFrameAllocator, b: StackFrameAllocator, p: u64)
    requires
        a.wf(),
        a.is_allocated(p as int),
        b.current_spec() == a.current_spec(),
        b.end_spec() == a.end_spec(),
        b.recycled_spec() == a.recycled_spec().push(p),
    ensures
        b.next_spec() == Some(p),
        b.recycled_spec().drop_last() == a.recycled_spec(),
{
    assert(b.recycled_spec().drop_last() =~= a.recycled_spec());
}

/// The frames between the end of the kernel image and the end of memory.
pub fn init_frame_allocator(allocator: &mut StackFrameAllocator, ekernel: u64)
    requires
        ekernel <= MEMORY_END,
    ensures
        final(allocator).wf(),
        final(allocator).current_spec() == crate::address::ceil_spec(ekernel as int),
        final(allocator).end_spec() == crate::address::floor_spec(MEMORY_END as int),
        final(allocator).recycled_spec() == Seq::<u64>::empty(),
{
    let l = PhysAddr(ekernel).ceil();
    let r = PhysAddr(MEMORY_END).floor();
    allocator.init(l, r);
}

/// Allocates a frame and wraps it in its handle.
pub fn frame_alloc(allocator: &mut StackFrameAllocator) -> (r: Option<FrameTracker>)
    requires
        old(allocator).wf(),
    ensures
        final(allocator).wf(),
        final(allocator).end_spec() == old(allocator).end_spec(),
        r is None <==> old(allocator).free_spec() == 0,
        r is None ==> final(allocator).current_spec() == old(allocator).current_spec()
            && final(allocator).recycled_spec() == old(allocator).recycled_spec(),
        r is Some ==> {
            &&& !old(allocator).is_allocated(r->Some_0.ppn.0 as int)
            &&& final(allocator).allocated() == old(allocator).allocated().insert(r->Some_0.ppn.0 as int)
            &&& final(allocator).free_spec() == old(allocator).free_spec() - 1
            &&& r->Some_0.ppn.0 < PPN_LIMIT
        },
{
    match allocator.allocate() {
        Some(ppn) => Some(FrameTracker::new(ppn)),
        None => None,
    }
}

/// Gives a frame back to the allocator; the handle is consumed.
pub fn frame_dealloc(allocator: &mut StackFrameAllocator, frame: FrameTracker)
    requires
        old(allocator).wf(),
        old(allocator).is_allocated(frame.ppn.0 as int),
    ensures
        final(allocator).wf(),
        final(allocator).end_spec() == old(allocator).end_spec(),
        final(allocator).allocated() == old(allocator).allocated().remove(frame.ppn.0 as int),
        final(allocator).free_spec() == old(allocator).free_spec() + 1,
{
    allocator.deallocate(frame.ppn);
}

} // verus!
