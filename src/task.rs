//! Task contexts, the context switch, task control blocks and the
//! round-robin task manager.

use crate::address::{floor_spec, PhysPageNum, VirtAddr, VirtPageNum};
use crate::config::{kernel_stack_position, kernel_stack_spec, MAX_APP_NUM, MAX_SYSCALL_NUM};
use crate::frame_allocator::StackFrameAllocator;
use crate::memory_set::{MapPermission, MemorySet, PERM_R, PERM_W};
use crate::trap::TrapContext;
use vstd::prelude::*;

verus! {

/// The registers that survive a context switch: `ra`, `sp` and `s0..s11`.
#[derive(Clone, Copy, Debug)]
pub struct TaskContext {
    pub ra: u64,
    pub sp: u64,
    pub s: [u64; 12],
}

impl TaskContext {
    /// All registers zero.
    pub fn init() -> (r: Self)
        ensures
            r.ra == 0,
            r.sp == 0,
            r.s@ == Seq::new(12, |i: int| 0u64),
    {
        let r = TaskContext { ra: 0, sp: 0, s: [0u64; 12] };
        proof {
            assert(r.s@ =~= Seq::new(12, |i: int| 0u64));
        }
        r
    }

    /// A context that returns into `restore` on the kernel stack `kstack_ptr`.
    pub fn goto_restore(kstack_ptr: u64, restore: u64) -> (r: Self)
        ensures
            r.ra == restore,
            r.sp == kstack_ptr,
            r.s@ == Seq::new(12, |i: int| 0u64),
    {
        let r = TaskContext { ra: restore, sp: kstack_ptr, s: [0u64; 12] };
        proof {
            assert(r.s@ =~= Seq::new(12, |i: int| 0u64));
        }
        r
    }

    /// A context that returns into `trap_return` on the kernel stack whose
    /// top is `kstack_ptr`: a task's first switch goes straight to user mode.
    pub fn goto_trap_return(kstack_ptr: u64, trap_return: u64) -> (r: Self)
        ensures
            r.ra == trap_return,
            r.sp == kstack_ptr,
            r.s@ == Seq::new(12, |i: int| 0u64),
    {
        let r = TaskContext { ra: trap_return, sp: kstack_ptr, s: [0u64; 12] };
        proof {
            assert(r.s@ =~= Seq::new(12, |i: int| 0u64));
        }
        r
    }
}

/// Saves the hart's switched registers `regs` into `current`, then loads
/// them from `next`: `__switch` returns into the next task.
pub fn __switch(current: &mut TaskContext, next: &TaskContext, regs: &mut TaskContext)
    ensures
        *final(current) == *old(regs),
        *final(regs) == *next,
{
    *current = *regs;
    *regs = *next;
}

/// Switching away from a task saves the registers it had, and switching back
/// to its saved context gives them back: `a1` is the slot `a` after
/// `__switch(a, _, regs)`; `regs1` are the registers after
/// `__switch(_, a1, _)`.
pub proof fn lemma_switch_round_trip(regs: TaskContext, a1: TaskContext, regs1: TaskContext)
    requires
        a1 == regs,
        regs1 == a1,
    ensures
        regs1 == regs,
{
}

/// The life cycle of a task.
#[derive(Clone, Copy, Debug, PartialEq, Eq, Structural)]
pub enum TaskStatus {
    UnInit,
    Ready,
    Running,
    Exited,
}

/// The index of the first `Ready` task among `cur + k`, `cur + k + 1`,
/// ..., `cur + n` (taken modulo `n`).
pub open spec fn next_ready_from(st: Seq<TaskStatus>, cur: int, k: int) -> Option<int>
    decreases st.len() + 1 - k,
{
    if k > st.len() || st.len() == 0 || k < 1 {
        None
    } else if st[(cur + k) % (st.len() as int)] == TaskStatus::Ready {
        Some((cur + k) % (st.len() as int))
    } else {
        next_ready_from(st, cur, k + 1)
    }
}

/// The task that round-robin scheduling picks after `cur`: the first
/// `Ready` one after it, wrapping around, `cur` itself last.
pub open spec fn find_next_spec(st: Seq<TaskStatus>, cur: int) -> Option<int> {
    next_ready_from(st, cur, 1)
}

/// `m` rounds of scheduling from `cur` with the statuses fixed.
pub open spec fn schedule_iter(st: Seq<TaskStatus>, cur: int, m: nat) -> int
    decreases m,
{
    if m == 0 {
        cur
    } else {
        schedule_step(st, schedule_iter(st, cur, (m - 1) as nat))
    }
}

/// One round of scheduling from `c`.
pub open spec fn schedule_step(st: Seq<TaskStatus>, c: int) -> int {
    match find_next_spec(st, c) {
        Some(j) => j,
        None => c,
    }
}

proof fn lemma_iter_shift(st: Seq<TaskStatus>, c: int, m: nat)
    ensures
        schedule_iter(st, c, m + 1) == schedule_iter(st, schedule_step(st, c), m),
    decreases m,
{
    let s1 = schedule_step(st, c);
    if m == 0 {
        assert(schedule_iter(st, c, 1) == schedule_step(st, schedule_iter(st, c, 0)));
    } else {
        lemma_iter_shift(st, c, (m - 1) as nat);
        assert(schedule_iter(st, c, m + 1) == schedule_step(st, schedule_iter(st, c, m)));
        assert(schedule_iter(st, s1, m) == schedule_step(st, schedule_iter(st, s1, (m - 1) as nat)));
    }
}

/// A search from offset `k` that would reach the `Ready` task at offset `t`
/// stops at an offset between the two.
proof fn lemma_search_stops(st: Seq<TaskStatus>, c: int, k: int, t: int) -> (kk: int)
    requires
        st.len() > 0,
        0 <= c,
        1 <= k <= t <= st.len(),
        st[(c + t) % (st.len() as int)] == TaskStatus::Ready,
    ensures
        k <= kk <= t,
        next_ready_from(st, c, k) == Some((c + kk) % (st.len() as int)),
    decreases t - k,
{
    if st[(c + k) % (st.len() as int)] == TaskStatus::Ready {
        k
    } else {
        lemma_search_stops(st, c, k + 1, t)
    }
}

proof fn lemma_reach(st: Seq<TaskStatus>, c: int, t: int)
    requires
        st.len() > 0,
        0 <= c < st.len(),
        1 <= t <= st.len(),
        st[(c + t) % (st.len() as int)] == TaskStatus::Ready,
    ensures
        exists|m: nat| 1 <= m <= t && #[trigger] schedule_iter(st, c, m) == (c + t) % (st.len() as int),
    decreases t,
{
    let n = st.len() as int;
    let k = lemma_search_stops(st, c, 1, t);
    let c2 = (c + k) % n;
    assert(schedule_step(st, c) == c2);
    assert(schedule_iter(st, c, 1) == c2) by {
        lemma_iter_shift(st, c, 0);
    }
    if k == t {
        assert(schedule_iter(st, c, 1) == (c + t) % n);
    } else {
        let t2 = t - k;
        vstd::arithmetic::div_mod::lemma_mod_bound(c + k, n);
        assert((c2 + t2) % n == (c + t) % n) by {
            vstd::arithmetic::div_mod::lemma_add_mod_noop(c + k, t2, n);
            vstd::arithmetic::div_mod::lemma_mod_bound(t2, n);
            if t2 < n {
                vstd::arithmetic::div_mod::lemma_small_mod(t2 as nat, n as nat);
            }
            vstd::arithmetic::div_mod::lemma_add_mod_noop_right(c2, t2, n);
            vstd::arithmetic::div_mod::lemma_mod_twice(c + k, n);
        }
        lemma_reach(st, c2, t2);
        let m2 = choose|m2: nat| 1 <= m2 <= t2 && #[trigger] schedule_iter(st, c2, m2) == (c2 + t2) % n;
        lemma_iter_shift(st, c, m2);
        assert(schedule_iter(st, c, m2 + 1) == (c + t) % n);
    }
}

/// Round-robin scheduling from `cur`, with the statuses fixed, reaches
/// every `Ready` task within `n` rounds, `n` the number of tasks: with
/// every task `Ready`, each one is visited once every `n` rounds.
pub proof fn lemma_round_robin_fair(st: Seq<TaskStatus>, cur: int, j: int)
    requires
        st.len() > 0,
        0 <= cur < st.len(),
        0 <= j < st.len(),
        st[j] == TaskStatus::Ready,
    ensures
        exists|m: nat| 1 <= m <= st.len() && #[trigger] schedule_iter(st, cur, m) == j,
{
    let n = st.len() as int;
    let t: int = if j > cur { j - cur } else { j - cur + n };
    if j > cur {
        vstd::arithmetic::div_mod::lemma_small_mod(j as nat, n as nat);
    } else {
        vstd::arithmetic::div_mod::lemma_mod_add_multiples_vanish(j, n);
        vstd::arithmetic::div_mod::lemma_small_mod(j as nat, n as nat);
    }
    assert((cur + t) % n == j);
    lemma_reach(st, cur, t);
}

/// The page number of a task's trap context page.
pub const TRAP_CONTEXT_VPN: u64 = 0xf_ffff_ffff_fffe;

/// The highest address of the user part of an address space, plus one.
pub const USER_SPACE_TOP: u64 = 0x40_0000_0000;

/// None of the pages of the kernel stack of application `app_id` is mapped
/// in `kernel_space`.
pub open spec fn kernel_stack_free(kernel_space: MemorySet, app_id: int) -> bool {
    let (bottom, top) = kernel_stack_spec(app_id);
    forall|v: u64| floor_spec(bottom) <= v < crate::address::ceil_spec(top) ==> !kernel_space.view().contains_key(v)
}

/// Frames that loading an application may take: its address space and its
/// kernel stack.
pub open spec fn task_frames_needed(elf_data: Seq<u8>) -> int {
    crate::memory_set::segments_frames_needed(crate::elf::load_segments_upto(elf_data, crate::elf::elf_ph_count(elf_data) as int)) + 6
}

/// The image can be loaded: its program headers are in it, and its LOAD
/// segments are good and do not overlap.
pub open spec fn image_ok(elf_data: Seq<u8>) -> bool {
    &&& crate::elf::ph_table_ok(elf_data)
    &&& crate::memory_set::segments_ok(
        elf_data.len() as int,
        crate::elf::load_segments_upto(elf_data, crate::elf::elf_ph_count(elf_data) as int),
    )
}

/// Everything the kernel keeps about one task.
pub struct TaskControlBlock {
    pub task_status: TaskStatus,
    pub task_cx: TaskContext,
    /// How often the task made each system call.
    pub syscall_times: Vec<u32>,
    pub is_first_run: bool,
    /// When the task first ran, and when it exited, in microseconds.
    pub begin_time: u64,
    pub end_time: u64,
    pub memory_set: MemorySet,
    /// The frame that holds the task's trap context.
    pub trap_cx_ppn: PhysPageNum,
    /// The top of the user stack: the bytes from 0 up to it are the task's.
    pub base_size: u64,
    /// The task's trap context, as it stands in its frame.
    pub trap_cx: TrapContext,
}

impl TaskControlBlock {
    pub open spec fn wf(&self) -> bool {
        &&& self.memory_set.wf()
        &&& self.syscall_times@.len() == MAX_SYSCALL_NUM
    }

    /// The `satp` value of the task's address space.
    pub fn user_token(&self) -> (r: u64)
        ensures
            r == self.memory_set.token_view(),
    {
        self.memory_set.token()
    }

    /// The task's trap context.
    pub fn trap_cx(&self) -> (r: TrapContext)
        ensures
            r == self.trap_cx,
    {
        self.trap_cx
    }

    /// A task for the ELF image `elf_data`, the `app_id`-th application:
    /// its address space, its kernel stack inserted into `kernel_space`, a
    /// task context that enters `trap_return` on that stack, and a trap
    /// context that starts user mode at the entry point. `None` when the
    /// image cannot be loaded, the kernel stack's pages are taken, or the
    /// frames run out.
    pub fn new(
        allocator: &mut StackFrameAllocator,
        kernel_space: &mut MemorySet,
        elf_data: &[u8],
        app_id: usize,
        trampoline: PhysPageNum,
        trap_handler: u64,
        trap_return: u64,
        sstatus: u64,
    ) -> (r: Option<Self>)
        requires
            old(allocator).wf(),
            old(kernel_space).wf(),
            old(kernel_space).owned().subset_of(old(allocator).allocated()),
            crate::elf::elf_magic_ok(elf_data@),
            app_id < MAX_APP_NUM,
            trampoline.0 < crate::frame_allocator::PPN_LIMIT,
        ensures
            final(allocator).wf(),
            final(kernel_space).wf(),
            final(kernel_space).owned().subset_of(final(allocator).allocated()),
            old(kernel_space).owned().subset_of(final(kernel_space).owned()),
            old(allocator).allocated().subset_of(final(allocator).allocated()),
            (final(kernel_space).owned() - old(kernel_space).owned()).disjoint(old(allocator).allocated()),
            image_ok(elf_data@) && kernel_stack_free(*old(kernel_space), app_id as int) && old(allocator).free_spec()
                >= task_frames_needed(elf_data@) ==> r is Some,
            r is Some ==> final(allocator).free_spec() >= old(allocator).free_spec() - task_frames_needed(elf_data@),
            r is Some ==> final(allocator).allocated() == old(allocator).allocated() + (final(kernel_space).owned()
                - old(kernel_space).owned()) + r->Some_0.memory_set.owned(),
            r is Some ==> {
                let t = r->Some_0;
                let (bottom, top) = kernel_stack_spec(app_id as int);
                &&& t.wf()
                &&& t.task_status == TaskStatus::Ready
                &&& t.is_first_run
                &&& t.syscall_times@ == Seq::new(MAX_SYSCALL_NUM as nat, |i: int| 0u32)
                &&& t.task_cx.ra == trap_return
                &&& t.task_cx.sp == top
                &&& t.task_cx.s@ == Seq::new(12, |i: int| 0u64)
                &&& t.trap_cx.x@ == Seq::new(32, |i: int| if i == 2 { t.base_size } else { 0u64 })
                &&& t.trap_cx.sstatus == sstatus & !crate::trap::SSTATUS_SPP
                &&& crate::memory_set::user_space_built(
                    t.memory_set,
                    t.base_size,
                    t.trap_cx.sepc,
                    elf_data@,
                    crate::elf::load_segments_upto(elf_data@, crate::elf::elf_ph_count(elf_data@) as int),
                    crate::elf::elf_entry_point(elf_data@),
                    trampoline.0,
                )
                &&& t.memory_set.view().contains_key(TRAP_CONTEXT_VPN)
                &&& t.trap_cx_ppn.0 == t.memory_set.view()[TRAP_CONTEXT_VPN].ppn_spec()
                &&& t.trap_cx.sepc == crate::elf::elf_entry_point(elf_data@)
                &&& t.trap_cx.x@[2] == t.base_size
                &&& t.trap_cx.kernel_satp == final(kernel_space).token_view()
                &&& t.trap_cx.kernel_sp == top
                &&& t.trap_cx.trap_handler == trap_handler
                &&& t.memory_set.owned().subset_of(final(allocator).allocated())
                &&& t.memory_set.owned().disjoint(old(allocator).allocated())
                &&& t.memory_set.owned().disjoint(final(kernel_space).owned())
                &&& final(kernel_space).pushed(*old(kernel_space), floor_spec(bottom), crate::address::ceil_spec(top), crate::memory_set::MapType::Framed, PERM_R | PERM_W)
            },
    {
        let ghost a0 = *allocator;
        let ghost k0 = *kernel_space;
        let (memory_set, user_sp, entry_point) = match MemorySet::from_elf(allocator, elf_data, trampoline) {
            Some(t) => t,
            None => return None,
        };
        let ghost a1 = *allocator;
        proof {
            let segs = crate::elf::load_segments_upto(elf_data@, crate::elf::elf_ph_count(elf_data@) as int);
            let n = segs.len() as int;
            crate::memory_set::lemma_area_translation(memory_set, n + 1, TRAP_CONTEXT_VPN);
        }
        let trap_cx_ppn = match memory_set.translate(VirtPageNum(TRAP_CONTEXT_VPN)) {
            Some(pte) => pte.ppn(),
            None => return None,
        };
        let (kernel_stack_bottom, kernel_stack_top) = kernel_stack_position(app_id);
        let start = VirtAddr(kernel_stack_bottom).floor();
        let end = VirtAddr(kernel_stack_top).ceil();
        if !kernel_space.is_range_unmapped(start, end) {
            return None;
        }
        proof {
            assert((app_id as int) * 0x3000 <= 15 * 0x3000) by (nonlinear_arith)
                requires app_id < 16;
            assert((PERM_R | PERM_W) & 0xe1 == 0) by (bit_vector);
            assert forall|v: int| start.0 <= v < end.0 implies crate::address::vpn_valid(v) by {}
            let b = start.0 as int;
            assert(end.0 == b + 2);
            assert((b + 1) / 512 - b / 512 <= 1) by (nonlinear_arith)
                requires b >= 0;
            assert(crate::memory_set::framed_frames_needed(b, b + 2) <= 6);
        }
        let ghost k1 = *kernel_space;
        if !kernel_space.insert_framed_area(
            allocator,
            VirtAddr(kernel_stack_bottom),
            VirtAddr(kernel_stack_top),
            MapPermission { bits: PERM_R | PERM_W },
        ) {
            return None;
        }
        let task_cx = TaskContext::goto_trap_return(kernel_stack_top, trap_return);
        let trap_cx = TrapContext::app_init_context(
            entry_point,
            user_sp,
            sstatus,
            kernel_space.token(),
            kernel_stack_top,
            trap_handler,
        );
        let mut syscall_times: Vec<u32> = Vec::new();
        let mut i: usize = 0;
        while i < MAX_SYSCALL_NUM
            invariant
                i <= MAX_SYSCALL_NUM,
                syscall_times@ == Seq::new(i as nat, |j: int| 0u32),
            decreases MAX_SYSCALL_NUM - i,
        {
            syscall_times.push(0);
            i = i + 1;
            proof {
                assert(syscall_times@ =~= Seq::new(i as nat, |j: int| 0u32));
            }
        }
        let t = TaskControlBlock {
            task_status: TaskStatus::Ready,
            task_cx,
            syscall_times,
            is_first_run: true,
            begin_time: 0,
            end_time: 0,
            memory_set,
            trap_cx_ppn,
            base_size: user_sp,
            trap_cx,
        };
        proof {
            assert(t.memory_set.owned().disjoint(kernel_space.owned())) by {
                assert forall|x: int| t.memory_set.owned().contains(x) implies !kernel_space.owned().contains(x) by {
                    assert(a1.allocated().contains(x));
                    if kernel_space.owned().contains(x) && !k1.owned().contains(x) {
                        assert((kernel_space.owned() - k1.owned()).contains(x));
                    }
                    if k1.owned().contains(x) {
                        assert(a0.allocated().contains(x));
                    }
                }
            }
            assert(allocator.allocated() =~= a0.allocated() + (kernel_space.owned() - k0.owned()) + t.memory_set.owned());
        }
        Some(t)
    }

    /// Whether `mmap(va, size, mark)` succeeds: `va` is page aligned, `mark`
    /// has some of its three low bits set and no other, the range lies in
    /// the user part of the address space, none of its pages is mapped, and
    /// enough frames are free.
    pub open spec fn mmap_ok(&self, free: int, va: u64, size: u64, mark: u64) -> bool {
        &&& va % 4096 == 0
        &&& mark & !7u64 == 0 && mark & 7u64 != 0
        &&& va + size <= USER_SPACE_TOP
        &&& forall|v: u64| floor_spec(va as int) <= v < crate::address::ceil_spec(va + size) ==> !self.memory_set.view().contains_key(v)
        &&& free >= crate::memory_set::framed_frames_needed(floor_spec(va as int), crate::address::ceil_spec(va + size))
    }

    /// Maps fresh frames at `[va, va + size)` with the rights `mark`: bit 0
    /// read, bit 1 write, bit 2 execute; user access always. Returns 0, or
    /// -1 with nothing changed.
    pub fn mmap(&mut self, allocator: &mut StackFrameAllocator, va: u64, size: u64, mark: u64) -> (r: i64)
        requires
            old(self).wf(),
            old(allocator).wf(),
            old(self).memory_set.owned().subset_of(old(allocator).allocated()),
        ensures
            final(self).wf(),
            final(allocator).wf(),
            final(allocator).end_spec() == old(allocator).end_spec(),
            final(self).memory_set.owned().subset_of(final(allocator).allocated()),
            final(allocator).allocated() == old(allocator).allocated() + (final(self).memory_set.owned() - old(self).memory_set.owned()),
            (final(self).memory_set.owned() - old(self).memory_set.owned()).disjoint(old(allocator).allocated()),
            r == 0 || r == -1,
            r == 0 <==> old(self).mmap_ok(old(allocator).free_spec(), va, size, mark),
            r == -1 ==> final(self).memory_set == old(self).memory_set,
            r == 0 ==> final(self).memory_set.pushed(
                old(self).memory_set,
                floor_spec(va as int),
                crate::address::ceil_spec(va + size),
                crate::memory_set::MapType::Framed,
                ((mark << 1u64) | 16u64) as u8,
            ),
            final(self).task_status == old(self).task_status,
            final(self).task_cx == old(self).task_cx,
            final(self).syscall_times == old(self).syscall_times,
            final(self).trap_cx == old(self).trap_cx,
            final(self).trap_cx_ppn == old(self).trap_cx_ppn,
            final(self).is_first_run == old(self).is_first_run,
            final(self).begin_time == old(self).begin_time,
            final(self).end_time == old(self).end_time,
    {
        let start_va = VirtAddr(va);
        if !start_va.is_aligned() {
            return -1;
        }
        if (mark & !0x7) != 0 || (mark & 0x7) == 0 {
            return -1;
        }
        if size > USER_SPACE_TOP || va > USER_SPACE_TOP - size {
            return -1;
        }
        let end_va = VirtAddr(va + size);
        let start = start_va.floor();
        let end = end_va.ceil();
        if !self.memory_set.is_range_unmapped(start, end) {
            return -1;
        }
        let perm = MapPermission { bits: ((mark << 1) | 16) as u8 };
        proof {
            assert(mark < 8 ==> ((((mark << 1u64) | 16u64) as u8) & 0xe1u8 == 0u8)) by (bit_vector);
            assert(mark & !7u64 == 0 ==> mark < 8) by (bit_vector);
            assert(crate::address::ceil_spec(va + size) <= 0x400_0000) by (nonlinear_arith)
                requires va + size <= USER_SPACE_TOP;
            assert forall|v: int| floor_spec(va as int) <= v < crate::address::ceil_spec(va + size) implies crate::address::vpn_valid(v) by {}
        }
        if !self.memory_set.insert_framed_area(allocator, start_va, end_va, perm) {
            return -1;
        }
        0
    }

    /// Removes the area that `mmap(va, size, _)` made: returns 0 when a
    /// framed area covers exactly the pages of `[va, va + size)`, -1, with
    /// nothing changed, when `va` is not page aligned or there is no such
    /// area.
    pub fn munmap(&mut self, allocator: &mut StackFrameAllocator, va: u64, size: u64) -> (r: i64)
        requires
            old(self).wf(),
            old(allocator).wf(),
            old(self).memory_set.owned().subset_of(old(allocator).allocated()),
        ensures
            final(self).wf(),
            final(allocator).wf(),
            final(allocator).end_spec() == old(allocator).end_spec(),
            final(self).memory_set.owned().subset_of(final(allocator).allocated()),
            final(self).memory_set.owned().subset_of(old(self).memory_set.owned()),
            final(allocator).allocated() == old(allocator).allocated() - (old(self).memory_set.owned() - final(self).memory_set.owned()),
            r == 0 || r == -1,
            r == 0 <==> va % 4096 == 0 && va + size <= u64::MAX && old(self).memory_set.has_framed_area(
                floor_spec(va as int),
                crate::address::ceil_spec(va + size),
            ),
            r == -1 ==> final(self).memory_set == old(self).memory_set,
            r == 0 ==> final(self).memory_set.view() == old(self).memory_set.view().remove_keys(
                Set::new(|v: u64| floor_spec(va as int) <= v < crate::address::ceil_spec(va + size)),
            ),
            final(self).memory_set.token_view() == old(self).memory_set.token_view(),
            final(self).task_status == old(self).task_status,
            final(self).task_cx == old(self).task_cx,
            final(self).syscall_times == old(self).syscall_times,
            final(self).trap_cx == old(self).trap_cx,
            final(self).trap_cx_ppn == old(self).trap_cx_ppn,
            final(self).is_first_run == old(self).is_first_run,
            final(self).begin_time == old(self).begin_time,
            final(self).end_time == old(self).end_time,
    {
        let start_va = VirtAddr(va);
        if !start_va.is_aligned() {
            return -1;
        }
        if size > u64::MAX - va {
            return -1;
        }
        let end_va = VirtAddr(va + size);
        if self.memory_set.remove_framed_area(allocator, start_va, end_va) {
            0
        } else {
            proof {
                assert(allocator.allocated() =~= old(allocator).allocated() - (old(self).memory_set.owned() - self.memory_set.owned()));
            }
            -1
        }
    }
}

/// The tasks, and which of them runs.
pub struct TaskManager {
    num_apps: usize,
    tasks: Vec<TaskControlBlock>,
    current_task: usize,
}

impl TaskManager {
    pub closed spec fn tasks_spec(&self) -> Seq<TaskControlBlock> {
        self.tasks@
    }

    pub closed spec fn current_spec(&self) -> int {
        self.current_task as int
    }

    pub open spec fn statuses(&self) -> Seq<TaskStatus> {
        Seq::new(self.tasks_spec().len(), |i: int| self.tasks_spec()[i].task_status)
    }

    pub closed spec fn wf(&self) -> bool {
        &&& self.num_apps == self.tasks@.len()
        &&& self.num_apps <= MAX_APP_NUM
        &&& (self.num_apps > 0 ==> self.current_task < self.num_apps)
        &&& forall|i: int| 0 <= i < self.tasks@.len() ==> (#[trigger] self.tasks@[i]).wf()
    }

    /// The frames of the tasks' address spaces are all out of `allocator`,
    /// and no two tasks share one.
    pub open spec fn frames_ok(&self, allocator: StackFrameAllocator) -> bool {
        &&& forall|i: int|
            0 <= i < self.tasks_spec().len() ==> (#[trigger] self.tasks_spec()[i]).memory_set.owned().subset_of(
                allocator.allocated(),
            )
        &&& forall|i: int, j: int|
            0 <= i < j < self.tasks_spec().len() ==> (#[trigger] self.tasks_spec()[i]).memory_set.owned().disjoint(
                (#[trigger] self.tasks_spec()[j]).memory_set.owned(),
            )
    }

    pub proof fn lemma_wf(&self)
        requires
            self.wf(),
        ensures
            self.tasks_spec().len() <= MAX_APP_NUM,
            self.tasks_spec().len() > 0 ==> 0 <= self.current_spec() < self.tasks_spec().len(),
            forall|i: int| 0 <= i < self.tasks_spec().len() ==> (#[trigger] self.tasks_spec()[i]).wf(),
    {
    }

    /// Every frame that a task owns in `self` it owned in `before`, or it
    /// was handed out between `a0` and `a1`.
    pub open spec fn frames_from_before(&self, before: Self, a0: StackFrameAllocator, a1: StackFrameAllocator) -> bool {
        forall|i: int| 0 <= i < self.tasks_spec().len() ==> (#[trigger] self.tasks_spec()[i]).memory_set.owned().subset_of(
            before.tasks_spec()[i].memory_set.owned() + (a1.allocated() - a0.allocated()))
    }

    /// The frames that went back to the allocator between `a0` and `a1`
    /// were the current task's in `before`.
    pub open spec fn freed_own_frames(&self, before: Self, a0: StackFrameAllocator, a1: StackFrameAllocator) -> bool {
        (a0.allocated() - a1.allocated()).subset_of(before.tasks_spec()[before.current_spec()].memory_set.owned())
    }

    /// What `mmap(va, size, mark)` returning `r` did: on 0 the current task's
    /// address space gained the framed area, on -1 it is unchanged; the
    /// other tasks' address spaces are unchanged.
    pub open spec fn mmap_done(&self, before: Self, r: i64, va: u64, size: u64, mark: u64) -> bool {
        let c = before.current_spec();
        &&& r == 0 ==> self.tasks_spec()[c].memory_set.pushed(
            before.tasks_spec()[c].memory_set,
            floor_spec(va as int),
            crate::address::ceil_spec(va + size),
            crate::memory_set::MapType::Framed,
            ((mark << 1u64) | 16u64) as u8,
        )
        &&& r == -1 ==> self.tasks_spec()[c].memory_set == before.tasks_spec()[c].memory_set
        &&& forall|i: int| 0 <= i < self.tasks_spec().len() && i != c
            ==> (#[trigger] self.tasks_spec()[i]).memory_set == before.tasks_spec()[i].memory_set
    }

    /// What `munmap(va, size)` returning `r` did: on 0 the pages of the
    /// range left the current task's address space, on -1 it is unchanged;
    /// the other tasks' address spaces are unchanged.
    pub open spec fn munmap_done(&self, before: Self, r: i64, va: u64, size: u64) -> bool {
        let c = before.current_spec();
        &&& r == 0 ==> self.tasks_spec()[c].memory_set.view() == before.tasks_spec()[c].memory_set.view().remove_keys(
            Set::new(|v: u64| floor_spec(va as int) <= v < crate::address::ceil_spec(va + size)),
        )
        &&& r == -1 ==> self.tasks_spec()[c].memory_set == before.tasks_spec()[c].memory_set
        &&& forall|i: int| 0 <= i < self.tasks_spec().len() && i != c
            ==> (#[trigger] self.tasks_spec()[i]).memory_set == before.tasks_spec()[i].memory_set
    }

    /// `mmap_done` and `munmap_done` speak of the address spaces alone.
    pub proof fn lemma_done_kept(&self, other: Self, before: Self, r: i64, va: u64, size: u64, mark: u64)
        requires
            other.tasks_spec().len() == self.tasks_spec().len(),
            forall|i: int| 0 <= i < self.tasks_spec().len() ==> (#[trigger] other.tasks_spec()[i]).memory_set
                == self.tasks_spec()[i].memory_set,
            0 <= before.current_spec() < self.tasks_spec().len(),
        ensures
            self.mmap_done(before, r, va, size, mark) ==> other.mmap_done(before, r, va, size, mark),
            self.munmap_done(before, r, va, size) ==> other.munmap_done(before, r, va, size),
    {
        let c = before.current_spec();
        assert(other.tasks_spec()[c].memory_set == self.tasks_spec()[c].memory_set);
    }

    /// A manager of `tasks`, the first one current.
    pub fn new(tasks: Vec<TaskControlBlock>) -> (r: Self)
        requires
            tasks@.len() <= MAX_APP_NUM,
            forall|i: int| 0 <= i < tasks@.len() ==> (#[trigger] tasks@[i]).wf(),
        ensures
            r.wf(),
            r.tasks_spec() == tasks@,
            r.current_spec() == 0,
    {
        TaskManager { num_apps: tasks.len(), tasks, current_task: 0 }
    }

    pub fn num_apps(&self) -> (r: usize)
        requires
            self.wf(),
        ensures
            r == self.tasks_spec().len(),
    {
        self.num_apps
    }

    pub fn current_task(&self) -> (r: usize)
        ensures
            r == self.current_spec(),
    {
        self.current_task
    }

    /// The next task to run: the first `Ready` one after the current one,
    /// wrapping around.
    pub fn find_next_task(&self) -> (r: Option<usize>)
        requires
            self.wf(),
        ensures
            r is Some <==> find_next_spec(self.statuses(), self.current_spec()) is Some,
            r is Some ==> r->Some_0 == find_next_spec(self.statuses(), self.current_spec())->Some_0,
            r is Some ==> r->Some_0 < self.tasks_spec().len(),
    {
        let n = self.num_apps;
        let cur = self.current_task;
        if n == 0 {
            return None;
        }
        let ghost st = self.statuses();
        let mut k: usize = 1;
        while k <= n
            invariant
                1 <= k <= n + 1,
                n == st.len(),
                n <= MAX_APP_NUM,
                cur < n,
                cur == self.current_spec(),
                st == self.statuses(),
                self.tasks@.len() == n,
                next_ready_from(st, cur as int, 1) == next_ready_from(st, cur as int, k as int),
            decreases n + 1 - k,
        {
            let id = (cur + k) % n;
            if self.tasks[id].task_status == TaskStatus::Ready {
                proof {
                    assert(st[(cur + k) % (n as int)] == TaskStatus::Ready);
                    assert(id as int == (cur + k) % (n as int));
                    assert(next_ready_from(st, cur as int, k as int) == Some(id as int));
                }
                return Some(id);
            }
            proof {
                assert(st[(cur + k) % (n as int)] != TaskStatus::Ready);
            }
            k = k + 1;
        }
        None
    }

    /// Marks the current task `Ready`.
    pub fn mark_current_suspended(&mut self)
        requires
            old(self).wf(),
            old(self).tasks_spec().len() > 0,
        ensures
            final(self).wf(),
            final(self).current_spec() == old(self).current_spec(),
            final(self).tasks_spec().len() == old(self).tasks_spec().len(),
            final(self).statuses() == old(self).statuses().update(old(self).current_spec(), TaskStatus::Ready),
            forall|i: int| 0 <= i < final(self).tasks_spec().len() ==> (#[trigger] final(self).tasks_spec()[i]).memory_set
                == old(self).tasks_spec()[i].memory_set,
            forall|i: int| 0 <= i < final(self).tasks_spec().len() ==> (#[trigger] final(self).tasks_spec()[i]).trap_cx
                == old(self).tasks_spec()[i].trap_cx,
            forall|i: int| 0 <= i < final(self).tasks_spec().len() ==> (#[trigger] final(self).tasks_spec()[i]).end_time
                == old(self).tasks_spec()[i].end_time,
    {
        let cur = self.current_task;
        self.tasks[cur].task_status = TaskStatus::Ready;
        proof {
            assert(self.statuses() =~= old(self).statuses().update(old(self).current_spec(), TaskStatus::Ready));
        }
    }

    /// Marks the current task `Exited` at time `now`.
    pub fn mark_current_exited(&mut self, now: u64)
        requires
            old(self).wf(),
            old(self).tasks_spec().len() > 0,
        ensures
            final(self).wf(),
            final(self).current_spec() == old(self).current_spec(),
            final(self).tasks_spec().len() == old(self).tasks_spec().len(),
            final(self).statuses() == old(self).statuses().update(old(self).current_spec(), TaskStatus::Exited),
            final(self).tasks_spec()[old(self).current_spec()].end_time == now,
            forall|i: int| 0 <= i < final(self).tasks_spec().len() ==> (#[trigger] final(self).tasks_spec()[i]).memory_set
                == old(self).tasks_spec()[i].memory_set,
            forall|i: int| 0 <= i < final(self).tasks_spec().len() ==> (#[trigger] final(self).tasks_spec()[i]).trap_cx
                == old(self).tasks_spec()[i].trap_cx,
    {
        let cur = self.current_task;
        self.tasks[cur].task_status = TaskStatus::Exited;
        self.tasks[cur].end_time = now;
        proof {
            assert(self.statuses() =~= old(self).statuses().update(old(self).current_spec(), TaskStatus::Exited));
        }
    }

    /// Picks the next task and makes it current and `Running`, stamping its
    /// first run at `now`. Returns the previous and the next task, whose
    /// contexts `__switch` swaps. Having no `Ready` task is a kernel bug.
    pub fn run_next_task(&mut self, now: u64) -> (r: (usize, usize))
        requires
            old(self).wf(),
            find_next_spec(old(self).statuses(), old(self).current_spec()) is Some,
        ensures
            final(self).wf(),
            final(self).tasks_spec().len() == old(self).tasks_spec().len(),
            r.0 == old(self).current_spec(),
            r.1 == find_next_spec(old(self).statuses(), old(self).current_spec())->Some_0,
            final(self).current_spec() == r.1,
            final(self).statuses() == old(self).statuses().update(r.1 as int, TaskStatus::Running),
            old(self).tasks_spec()[r.1 as int].is_first_run ==> final(self).tasks_spec()[r.1 as int].begin_time == now
                && !final(self).tasks_spec()[r.1 as int].is_first_run,
            forall|i: int| 0 <= i < final(self).tasks_spec().len() ==> (#[trigger] final(self).tasks_spec()[i]).memory_set
                == old(self).tasks_spec()[i].memory_set,
            forall|i: int| 0 <= i < final(self).tasks_spec().len() ==> (#[trigger] final(self).tasks_spec()[i]).trap_cx
                == old(self).tasks_spec()[i].trap_cx,
            forall|i: int| 0 <= i < final(self).tasks_spec().len() ==> (#[trigger] final(self).tasks_spec()[i]).end_time
                == old(self).tasks_spec()[i].end_time,
    {
        match self.find_next_task() {
            Some(next) => {
                let prev = self.current_task;
                self.tasks[next].task_status = TaskStatus::Running;
                self.current_task = next;
                if self.tasks[next].is_first_run {
                    self.tasks[next].begin_time = now;
                    self.tasks[next].is_first_run = false;
                }
                proof {
                    assert(self.statuses() =~= old(self).statuses().update(next as int, TaskStatus::Running));
                }
                (prev, next)
            },
            None => {
                proof {
                    assert(false);
                }
                (0, 0)
            },
        }
    }

    /// Makes task 0 current and `Running`, stamping its first run at `now`;
    /// returns the context to switch to. Having no task is a kernel bug.
    pub fn run_first_task(&mut self, now: u64) -> (r: TaskContext)
        requires
            old(self).wf(),
            old(self).tasks_spec().len() > 0,
        ensures
            final(self).wf(),
            final(self).tasks_spec().len() == old(self).tasks_spec().len(),
            final(self).current_spec() == 0,
            final(self).statuses() == old(self).statuses().update(0, TaskStatus::Running),
            r == old(self).tasks_spec()[0].task_cx,
            final(self).tasks_spec()[0].begin_time == now,
            !final(self).tasks_spec()[0].is_first_run,
            forall|i: int| 0 <= i < final(self).tasks_spec().len() ==> (#[trigger] final(self).tasks_spec()[i]).memory_set
                == old(self).tasks_spec()[i].memory_set,
            forall|i: int| 0 <= i < final(self).tasks_spec().len() ==> (#[trigger] final(self).tasks_spec()[i]).trap_cx
                == old(self).tasks_spec()[i].trap_cx,
    {
        self.tasks[0].task_status = TaskStatus::Running;
        self.tasks[0].begin_time = now;
        self.tasks[0].is_first_run = false;
        self.current_task = 0;
        proof {
            assert(self.statuses() =~= old(self).statuses().update(0, TaskStatus::Running));
        }
        self.tasks[0].task_cx
    }

    /// Suspends the current task and picks the next one; see `run_next_task`.
    pub fn suspend_current_and_run_next(&mut self, now: u64) -> (r: (usize, usize))
        requires
            old(self).wf(),
            old(self).tasks_spec().len() > 0,
        ensures
            final(self).wf(),
            ({
                let st = old(self).statuses().update(old(self).current_spec(), TaskStatus::Ready);
                &&& r.0 == old(self).current_spec()
                &&& r.1 == find_next_spec(st, old(self).current_spec())->Some_0
                &&& final(self).current_spec() == r.1
                &&& final(self).statuses() == st.update(r.1 as int, TaskStatus::Running)
            }),
            final(self).tasks_spec().len() == old(self).tasks_spec().len(),
            forall|i: int| 0 <= i < final(self).tasks_spec().len() ==> (#[trigger] final(self).tasks_spec()[i]).memory_set
                == old(self).tasks_spec()[i].memory_set,
            forall|i: int| 0 <= i < final(self).tasks_spec().len() ==> (#[trigger] final(self).tasks_spec()[i]).trap_cx
                == old(self).tasks_spec()[i].trap_cx,
            forall|i: int| 0 <= i < final(self).tasks_spec().len() ==> (#[trigger] final(self).tasks_spec()[i]).end_time
                == old(self).tasks_spec()[i].end_time,
    {
        self.mark_current_suspended();
        proof {
            let st = self.statuses();
            let n = st.len() as int;
            let cur = self.current_spec();
            vstd::arithmetic::div_mod::lemma_mod_add_multiples_vanish(cur, n);
            vstd::arithmetic::div_mod::lemma_small_mod(cur as nat, n as nat);
            assert(st[(cur + n) % n] == TaskStatus::Ready);
            lemma_next_ready_finds(st, cur, 1, n);
        }
        self.run_next_task(now)
    }

    /// Ends the current task at `now` and gives the frames of its areas back.
    pub fn exit_current(&mut self, allocator: &mut StackFrameAllocator, now: u64)
        requires
            old(self).wf(),
            old(allocator).wf(),
            old(self).frames_ok(*old(allocator)),
            old(self).tasks_spec().len() > 0,
        ensures
            final(self).wf(),
            final(allocator).wf(),
            final(allocator).end_spec() == old(allocator).end_spec(),
            final(self).frames_ok(*final(allocator)),
            final(self).frames_from_before(*old(self), *old(allocator), *final(allocator)),
            final(self).freed_own_frames(*old(self), *old(allocator), *final(allocator)),
            final(allocator).allocated().subset_of(old(allocator).allocated()),
            final(self).current_spec() == old(self).current_spec(),
            final(self).statuses() == old(self).statuses().update(old(self).current_spec(), TaskStatus::Exited),
            final(self).tasks_spec().len() == old(self).tasks_spec().len(),
            final(self).tasks_spec()[old(self).current_spec()].end_time == now,
            final(self).tasks_spec()[old(self).current_spec()].memory_set.areas_spec().len() == 0,
            forall|i: int| 0 <= i < final(self).tasks_spec().len() && i != old(self).current_spec()
                ==> (#[trigger] final(self).tasks_spec()[i]).memory_set == old(self).tasks_spec()[i].memory_set,
            forall|i: int| 0 <= i < final(self).tasks_spec().len() ==> (#[trigger] final(self).tasks_spec()[i]).trap_cx
                == old(self).tasks_spec()[i].trap_cx,
    {
        self.mark_current_exited(now);
        let cur = self.current_task;
        let ghost t0 = self.tasks@;
        let ghost a0 = *allocator;
        proof {
            assert(t0[cur as int].wf());
            assert(t0[cur as int].memory_set == old(self).tasks_spec()[cur as int].memory_set);
        }
        self.tasks[cur].memory_set.release_areas(allocator);
        proof {
            let c = cur as int;
            let n = t0.len() as int;
            assert forall|i: int| 0 <= i < n && i != c implies #[trigger] self.tasks@[i] == t0[i] by {}
            assert forall|i: int| 0 <= i < n implies (#[trigger] self.tasks@[i]).wf() by {
                if i != c { assert(t0[i].wf()); }
            }
            assert forall|i: int| 0 <= i < n implies (#[trigger] self.tasks_spec()[i]).memory_set.owned().subset_of(allocator.allocated()) by {
                if i != c {
                    assert(old(self).tasks_spec()[i].memory_set.owned().subset_of(a0.allocated()));
                    if i < c {
                        assert(old(self).tasks_spec()[i].memory_set.owned().disjoint(old(self).tasks_spec()[c].memory_set.owned()));
                    } else {
                        assert(old(self).tasks_spec()[c].memory_set.owned().disjoint(old(self).tasks_spec()[i].memory_set.owned()));
                    }
                }
            }
            assert forall|i: int, j: int| 0 <= i < j < n implies (#[trigger] self.tasks_spec()[i]).memory_set.owned().disjoint((#[trigger] self.tasks_spec()[j]).memory_set.owned()) by {
                assert(old(self).tasks_spec()[i].memory_set.owned().disjoint(old(self).tasks_spec()[j].memory_set.owned()));
            }
            assert(self.statuses() =~= old(self).statuses().update(old(self).current_spec(), TaskStatus::Exited));
        }
    }

    /// Ends the current task at `now`, gives the frames of its areas back,
    /// and picks the next task. Having no task left to run is a kernel bug.
    pub fn exit_current_and_run_next(&mut self, allocator: &mut StackFrameAllocator, now: u64) -> (r: (usize, usize))
        requires
            old(self).wf(),
            old(allocator).wf(),
            old(self).frames_ok(*old(allocator)),
            old(self).tasks_spec().len() > 0,
            find_next_spec(old(self).statuses().update(old(self).current_spec(), TaskStatus::Exited), old(self).current_spec()) is Some,
        ensures
            final(self).wf(),
            final(allocator).wf(),
            final(self).frames_ok(*final(allocator)),
            ({
                let st = old(self).statuses().update(old(self).current_spec(), TaskStatus::Exited);
                &&& r.0 == old(self).current_spec()
                &&& r.1 == find_next_spec(st, old(self).current_spec())->Some_0
                &&& final(self).current_spec() == r.1
                &&& final(self).statuses() == st.update(r.1 as int, TaskStatus::Running)
            }),
            final(self).tasks_spec()[old(self).current_spec()].end_time == now,
            final(self).tasks_spec()[old(self).current_spec()].memory_set.areas_spec().len() == 0,
            final(self).tasks_spec().len() == old(self).tasks_spec().len(),
    {
        self.exit_current(allocator, now);
        self.run_next_task(now)
    }

    pub fn get_task_status(&self, task_id: usize) -> (r: TaskStatus)
        requires
            self.wf(),
            task_id < self.tasks_spec().len(),
        ensures
            r == self.statuses()[task_id as int],
    {
        self.tasks[task_id].task_status
    }

    pub fn get_curr_task_status(&self) -> (r: TaskStatus)
        requires
            self.wf(),
            self.tasks_spec().len() > 0,
        ensures
            r == self.statuses()[self.current_spec()],
    {
        self.tasks[self.current_task].task_status
    }

    /// How often the current task made each system call.
    pub fn get_curr_task_syscall_times(&self) -> (r: Vec<u32>)
        requires
            self.wf(),
            self.tasks_spec().len() > 0,
        ensures
            r@ == self.tasks_spec()[self.current_spec()].syscall_times@,
    {
        self.tasks[self.current_task].syscall_times.clone()
    }

    /// Counts one more call of `syscall_id` by the current task; the count
    /// stays at its largest value.
    pub fn record_curr_task_syscall_times(&mut self, syscall_id: usize)
        requires
            old(self).wf(),
            old(self).tasks_spec().len() > 0,
            syscall_id < MAX_SYSCALL_NUM,
        ensures
            final(self).wf(),
            final(self).current_spec() == old(self).current_spec(),
            final(self).statuses() == old(self).statuses(),
            final(self).tasks_spec().len() == old(self).tasks_spec().len(),
            ({
                let c = old(self).tasks_spec()[old(self).current_spec()].syscall_times@[syscall_id as int];
                final(self).tasks_spec()[old(self).current_spec()].syscall_times@ == old(self).tasks_spec()[old(
                    self,
                ).current_spec()].syscall_times@.update(syscall_id as int, if c < u32::MAX { (c + 1) as u32 } else { c })
            }),
            final(self).tasks_spec()[old(self).current_spec()].begin_time == old(self).tasks_spec()[old(self).current_spec()].begin_time,
            final(self).tasks_spec()[old(self).current_spec()].end_time == old(self).tasks_spec()[old(self).current_spec()].end_time,
            forall|i: int| 0 <= i < final(self).tasks_spec().len() ==> (#[trigger] final(self).tasks_spec()[i]).memory_set
                == old(self).tasks_spec()[i].memory_set,
    {
        let cur = self.current_task;
        let c = self.tasks[cur].syscall_times[syscall_id];
        let c1 = if c < u32::MAX { c + 1 } else { c };
        self.tasks[cur].syscall_times.set(syscall_id, c1);
        proof {
            assert(self.statuses() =~= old(self).statuses());
        }
    }

    /// Microseconds since the current task first ran: up to its exit when
    /// it has exited, else up to `now`.
    pub fn get_curr_task_running_time(&self, now: u64) -> (r: u64)
        requires
            self.wf(),
            self.tasks_spec().len() > 0,
        ensures
            ({
                let t = self.tasks_spec()[self.current_spec()];
                let until = if t.task_status == TaskStatus::Exited { t.end_time } else { now };
                r == if until >= t.begin_time { (until - t.begin_time) as u64 } else { 0 }
            }),
    {
        let t = &self.tasks[self.current_task];
        let until = if t.task_status == TaskStatus::Exited { t.end_time } else { now };
        until.saturating_sub(t.begin_time)
    }

    /// The `satp` value of the current task's address space.
    pub fn current_user_token(&self) -> (r: u64)
        requires
            self.wf(),
            self.tasks_spec().len() > 0,
        ensures
            r == self.tasks_spec()[self.current_spec()].memory_set.token_view(),
    {
        self.tasks[self.current_task].user_token()
    }

    /// The current task's trap context.
    pub fn current_trap_cx(&self) -> (r: TrapContext)
        requires
            self.wf(),
            self.tasks_spec().len() > 0,
        ensures
            r == self.tasks_spec()[self.current_spec()].trap_cx,
    {
        self.tasks[self.current_task].trap_cx
    }

    /// Replaces the current task's trap context.
    pub fn set_current_trap_cx(&mut self, cx: TrapContext)
        requires
            old(self).wf(),
            old(self).tasks_spec().len() > 0,
        ensures
            final(self).wf(),
            final(self).current_spec() == old(self).current_spec(),
            final(self).statuses() == old(self).statuses(),
            final(self).tasks_spec().len() == old(self).tasks_spec().len(),
            final(self).tasks_spec()[old(self).current_spec()].trap_cx == cx,
            forall|i: int| 0 <= i < final(self).tasks_spec().len() ==> (#[trigger] final(self).tasks_spec()[i]).memory_set
                == old(self).tasks_spec()[i].memory_set,
    {
        let cur = self.current_task;
        self.tasks[cur].trap_cx = cx;
        proof {
            assert(self.statuses() =~= old(self).statuses());
        }
    }

    /// Switches the hart from task `prev` to task `next`: saves `regs` into
    /// `prev`'s context and loads `next`'s.
    pub fn switch(&mut self, prev: usize, next: usize, regs: &mut TaskContext)
        requires
            old(self).wf(),
            prev < old(self).tasks_spec().len(),
            next < old(self).tasks_spec().len(),
        ensures
            final(self).wf(),
            final(self).current_spec() == old(self).current_spec(),
            final(self).statuses() == old(self).statuses(),
            final(self).tasks_spec().len() == old(self).tasks_spec().len(),
            final(self).tasks_spec()[prev as int].task_cx == *old(regs),
            *final(regs) == old(self).tasks_spec()[next as int].task_cx,
            forall|i: int| 0 <= i < final(self).tasks_spec().len() ==> (#[trigger] final(self).tasks_spec()[i]).memory_set
                == old(self).tasks_spec()[i].memory_set,
    {
        let next_cx = self.tasks[next].task_cx;
        __switch(&mut self.tasks[prev].task_cx, &next_cx, regs);
        proof {
            assert(self.statuses() =~= old(self).statuses());
        }
    }

    /// `mmap` on the current task's address space.
    pub fn mmap(&mut self, allocator: &mut StackFrameAllocator, va: u64, size: u64, mark: u64) -> (r: i64)
        requires
            old(self).wf(),
            old(allocator).wf(),
            old(self).frames_ok(*old(allocator)),
            old(self).tasks_spec().len() > 0,
        ensures
            forall|i: int| 0 <= i < final(self).tasks_spec().len() ==> (#[trigger] final(self).tasks_spec()[i]).syscall_times
                == old(self).tasks_spec()[i].syscall_times,
            final(self).mmap_done(*old(self), r, va, size, mark),
            final(self).freed_own_frames(*old(self), *old(allocator), *final(allocator)),
            final(self).frames_from_before(*old(self), *old(allocator), *final(allocator)),
            final(self).wf(),
            final(allocator).wf(),
            final(self).frames_ok(*final(allocator)),
            final(self).current_spec() == old(self).current_spec(),
            final(self).statuses() == old(self).statuses(),
            final(self).tasks_spec().len() == old(self).tasks_spec().len(),
            r == 0 || r == -1,
            r == 0 <==> old(self).tasks_spec()[old(self).current_spec()].mmap_ok(old(allocator).free_spec(), va, size, mark),
            r == 0 ==> final(self).tasks_spec()[old(self).current_spec()].memory_set.pushed(
                old(self).tasks_spec()[old(self).current_spec()].memory_set,
                floor_spec(va as int),
                crate::address::ceil_spec(va + size),
                crate::memory_set::MapType::Framed,
                ((mark << 1u64) | 16u64) as u8,
            ),
            forall|i: int| 0 <= i < final(self).tasks_spec().len() && i != old(self).current_spec()
                ==> (#[trigger] final(self).tasks_spec()[i]).memory_set == old(self).tasks_spec()[i].memory_set,
    {
        let cur = self.current_task;
        let ghost a0 = *allocator;
        let ghost t0 = self.tasks@;
        proof {
            assert(t0[cur as int].wf());
        }
        let r = self.tasks[cur].mmap(allocator, va, size, mark);
        proof {
            let c = cur as int;
            let n = t0.len() as int;
            assert forall|i: int| 0 <= i < n && i != c implies #[trigger] self.tasks@[i] == t0[i] by {}
            assert forall|i: int| 0 <= i < n implies (#[trigger] self.tasks@[i]).wf() by {
                if i != c { assert(t0[i].wf()); }
            }
            assert forall|i: int| 0 <= i < n implies (#[trigger] self.tasks_spec()[i]).memory_set.owned().subset_of(allocator.allocated()) by {
                if i != c { assert(t0[i].memory_set.owned().subset_of(a0.allocated())); }
            }
            assert forall|i: int, j: int| 0 <= i < j < n implies (#[trigger] self.tasks_spec()[i]).memory_set.owned().disjoint((#[trigger] self.tasks_spec()[j]).memory_set.owned()) by {
                assert(t0[i].memory_set.owned().disjoint(t0[j].memory_set.owned()));
                if i == c {
                    assert forall|x: int| self.tasks_spec()[i].memory_set.owned().contains(x) implies !t0[j].memory_set.owned().contains(x) by {
                        if !t0[c].memory_set.owned().contains(x) {
                            assert(!a0.allocated().contains(x));
                        }
                    }
                } else if j == c {
                    assert forall|x: int| self.tasks_spec()[j].memory_set.owned().contains(x) implies !t0[i].memory_set.owned().contains(x) by {
                        if !t0[c].memory_set.owned().contains(x) {
                            assert(!a0.allocated().contains(x));
                        }
                    }
                }
            }
            assert(self.statuses() =~= old(self).statuses());
        }
        r
    }

    /// `munmap` on the current task's address space.
    pub fn munmap(&mut self, allocator: &mut StackFrameAllocator, va: u64, size: u64) -> (r: i64)
        requires
            old(self).wf(),
            old(allocator).wf(),
            old(self).frames_ok(*old(allocator)),
            old(self).tasks_spec().len() > 0,
        ensures
            forall|i: int| 0 <= i < final(self).tasks_spec().len() ==> (#[trigger] final(self).tasks_spec()[i]).syscall_times
                == old(self).tasks_spec()[i].syscall_times,
            final(self).munmap_done(*old(self), r, va, size),
            final(self).freed_own_frames(*old(self), *old(allocator), *final(allocator)),
            final(self).frames_from_before(*old(self), *old(allocator), *final(allocator)),
            final(self).wf(),
            final(allocator).wf(),
            final(self).frames_ok(*final(allocator)),
            final(self).current_spec() == old(self).current_spec(),
            final(self).statuses() == old(self).statuses(),
            final(self).tasks_spec().len() == old(self).tasks_spec().len(),
            r == 0 || r == -1,
            r == 0 <==> va % 4096 == 0 && va + size <= u64::MAX
                && old(self).tasks_spec()[old(self).current_spec()].memory_set.has_framed_area(
                floor_spec(va as int),
                crate::address::ceil_spec(va + size),
            ),
            r == 0 ==> final(self).tasks_spec()[old(self).current_spec()].memory_set.view() == old(
                self,
            ).tasks_spec()[old(self).current_spec()].memory_set.view().remove_keys(
                Set::new(|v: u64| floor_spec(va as int) <= v < crate::address::ceil_spec(va + size)),
            ),
            forall|i: int| 0 <= i < final(self).tasks_spec().len() && i != old(self).current_spec()
                ==> (#[trigger] final(self).tasks_spec()[i]).memory_set == old(self).tasks_spec()[i].memory_set,
    {
        let cur = self.current_task;
        let ghost a0 = *allocator;
        let ghost t0 = self.tasks@;
        proof {
            assert(t0[cur as int].wf());
        }
        let r = self.tasks[cur].munmap(allocator, va, size);
        proof {
            let c = cur as int;
            let n = t0.len() as int;
            assert forall|i: int| 0 <= i < n && i != c implies #[trigger] self.tasks@[i] == t0[i] by {}
            assert forall|i: int| 0 <= i < n implies (#[trigger] self.tasks@[i]).wf() by {
                if i != c { assert(t0[i].wf()); }
            }
            assert forall|i: int| 0 <= i < n implies (#[trigger] self.tasks_spec()[i]).memory_set.owned().subset_of(allocator.allocated()) by {
                if i != c {
                    assert(t0[i].memory_set.owned().subset_of(a0.allocated()));
                    if i < c {
                        assert(t0[i].memory_set.owned().disjoint(t0[c].memory_set.owned()));
                    } else {
                        assert(t0[c].memory_set.owned().disjoint(t0[i].memory_set.owned()));
                    }
                }
            }
            assert forall|i: int, j: int| 0 <= i < j < n implies (#[trigger] self.tasks_spec()[i]).memory_set.owned().disjoint((#[trigger] self.tasks_spec()[j]).memory_set.owned()) by {
                assert(t0[i].memory_set.owned().disjoint(t0[j].memory_set.owned()));
            }
            assert(self.statuses() =~= old(self).statuses());
        }
        r
    }

    /// The bytes at user addresses `[va, va + len)` of the current task.
    pub fn read_current_user_bytes(&self, va: u64, len: u64) -> (r: Option<Vec<u8>>)
        requires
            self.wf(),
            self.tasks_spec().len() > 0,
        ensures
            ({
                let m = self.tasks_spec()[self.current_spec()].memory_set;
                &&& r is Some <==> va + len <= u64::MAX && forall|j: int| 0 <= j < len ==> (#[trigger] m.user_byte(va + j)) is Some
                &&& r is Some ==> r->Some_0@.len() == len && forall|j: int| 0 <= j < len ==> Some(#[trigger] r->Some_0@[j]) == m.user_byte(va + j)
            }),
    {
        proof {
            assert(self.tasks_spec()[self.current_spec()].wf());
        }
        self.tasks[self.current_task].memory_set.read_user_bytes(va, len)
    }

    /// Writes `data` at user addresses `va..` of the current task: all of it,
    /// or nothing when a byte falls outside its framed user areas.
    pub fn write_current_user_bytes(&mut self, va: u64, data: &[u8]) -> (r: bool)
        requires
            old(self).wf(),
            old(self).tasks_spec().len() > 0,
        ensures
            final(self).wf(),
            final(self).current_spec() == old(self).current_spec(),
            final(self).statuses() == old(self).statuses(),
            final(self).tasks_spec().len() == old(self).tasks_spec().len(),
            ({
                let m0 = old(self).tasks_spec()[old(self).current_spec()].memory_set;
                let m1 = final(self).tasks_spec()[old(self).current_spec()].memory_set;
                &&& r <==> va + data@.len() <= u64::MAX && forall|j: int| 0 <= j < data@.len() ==> (#[trigger] m0.user_byte(va + j)) is Some
                &&& r ==> forall|j: int| 0 <= j < data@.len() ==> #[trigger] m1.user_byte(va + j) == Some(data@[j])
                &&& m1.view() == m0.view()
                &&& m1.owned() == m0.owned()
            }),
            forall|i: int| 0 <= i < final(self).tasks_spec().len() ==> (#[trigger] final(self).tasks_spec()[i]).memory_set.owned()
                == old(self).tasks_spec()[i].memory_set.owned(),
            forall|i: int| 0 <= i < final(self).tasks_spec().len() && i != old(self).current_spec()
                ==> (#[trigger] final(self).tasks_spec()[i]) == old(self).tasks_spec()[i],
            ({
                let t0 = old(self).tasks_spec()[old(self).current_spec()];
                let t1 = final(self).tasks_spec()[old(self).current_spec()];
                &&& t1.task_status == t0.task_status && t1.task_cx == t0.task_cx && t1.trap_cx == t0.trap_cx
                &&& t1.syscall_times == t0.syscall_times && t1.begin_time == t0.begin_time && t1.end_time == t0.end_time
            }),
    {
        let cur = self.current_task;
        let ghost t0 = self.tasks@;
        proof {
            assert(t0[cur as int].wf());
        }
        let r = self.tasks[cur].memory_set.write_user_bytes(va, data);
        proof {
            let n = t0.len() as int;
            assert forall|i: int| 0 <= i < n && i != cur implies #[trigger] self.tasks@[i] == t0[i] by {}
            assert forall|i: int| 0 <= i < n implies (#[trigger] self.tasks@[i]).wf() by {
                if i != cur { assert(t0[i].wf()); }
            }
            assert(self.statuses() =~= old(self).statuses());
        }
        r
    }
}

/// The task that a search finds is `Ready`.
pub proof fn lemma_next_is_ready(st: Seq<TaskStatus>, cur: int, k: int)
    requires
        next_ready_from(st, cur, k) is Some,
        0 <= cur,
    ensures
        0 <= next_ready_from(st, cur, k)->Some_0 < st.len(),
        st[next_ready_from(st, cur, k)->Some_0] == TaskStatus::Ready,
    decreases st.len() + 1 - k,
{
    let n = st.len() as int;
    if k > n || n == 0 || k < 1 {
    } else if st[(cur + k) % n] == TaskStatus::Ready {
        vstd::arithmetic::div_mod::lemma_mod_bound(cur + k, n);
    } else {
        lemma_next_is_ready(st, cur, k + 1);
    }
}

/// A search that reaches a `Ready` task finds one.
proof fn lemma_next_ready_finds(st: Seq<TaskStatus>, cur: int, k: int, target: int)
    requires
        st.len() > 0,
        1 <= k <= target <= st.len(),
        0 <= cur,
        st[(cur + target) % (st.len() as int)] == TaskStatus::Ready,
    ensures
        next_ready_from(st, cur, k) is Some,
    decreases target - k,
{
    if st[(cur + k) % (st.len() as int)] != TaskStatus::Ready {
        lemma_next_ready_finds(st, cur, k + 1, target);
    }
}

} // verus!
