//! The kernel's shared state, its start, and what it does on each trap.

use crate::address::PhysPageNum;
use crate::config::MAX_APP_NUM;
use crate::frame_allocator::{init_frame_allocator, StackFrameAllocator};
use crate::address::{ceil_spec, floor_spec};
use crate::config::{kernel_stack_spec, MEMORY_END};
use crate::memory_set::{KernelLayout, MemorySet, TRAMPOLINE_VPN};
use crate::syscall::{
    is_syscall_handled, syscall, syscall_handled, SyscallOutcome, FD_STDOUT, SYSCALL_EXIT, SYSCALL_MMAP, SYSCALL_MUNMAP,
    SYSCALL_READ, SYSCALL_SET_PRIORITY, SYSCALL_WRITE, SYSCALL_YIELD,
};
use crate::task::{find_next_spec, lemma_next_is_ready, image_ok, kernel_stack_free, task_frames_needed, TaskControlBlock, TaskManager, TaskStatus};
use crate::timer::{get_time_micro, set_next_trigger};
use crate::trap::{set_return_value, trap_handler, TrapAction, TrapCause, TrapContext};
use vstd::prelude::*;

verus! {

/// The frame allocator, the kernel's address space and the tasks.
pub struct Kernel {
    pub allocator: StackFrameAllocator,
    pub kernel_space: MemorySet,
    pub task_manager: TaskManager,
}

/// Something the kernel reports about a trap.
#[derive(Clone, Copy, Debug, PartialEq, Eq, Structural)]
pub enum TrapEvent {
    Nothing,
    /// The current task called `exit` with `code`.
    Exited { code: i32 },
    /// The current task faulted on a memory access.
    PageFault { addr: u64, pc: u64 },
    /// The current task ran an instruction it may not.
    IllegalInstruction { addr: u64 },
    /// A trap or system call that the kernel cannot handle.
    Unhandled,
}

/// What the kernel asks of the hart after a trap: print `output`, program
/// the timer for `next_timer`, then switch from task `.0` to task `.1`,
/// return to the current task, or stop when `halt`.
#[derive(Debug)]
pub struct TrapOutcome {
    pub output: Vec<u8>,
    pub event: TrapEvent,
    pub next_timer: Option<u64>,
    pub switch_to: Option<(usize, usize)>,
    pub halt: bool,
}

/// Task `t` was loaded from the image `data`.
pub open spec fn task_built_from(t: TaskControlBlock, data: Seq<u8>, trampoline: u64) -> bool {
    crate::memory_set::user_space_built(
        t.memory_set,
        t.base_size,
        t.trap_cx.sepc,
        data,
        crate::elf::load_segments_upto(data, crate::elf::elf_ph_count(data) as int),
        crate::elf::elf_entry_point(data),
        trampoline,
    )
}

/// Frames that loading the first `n` applications may take.
pub open spec fn apps_frames_needed(apps: Seq<Vec<u8>>, n: int) -> int
    decreases n,
{
    if n <= 0 {
        0
    } else {
        apps_frames_needed(apps, n - 1) + task_frames_needed(apps[n - 1]@)
    }
}

proof fn lemma_apps_needed_nonneg(apps: Seq<Vec<u8>>, n: int)
    ensures
        apps_frames_needed(apps, n) >= 0,
    decreases n,
{
    if n > 0 {
        lemma_apps_needed_nonneg(apps, n - 1);
        lemma_apps_needed_step(apps, n - 1, n);
    }
}

proof fn lemma_apps_needed_step(apps: Seq<Vec<u8>>, i: int, n: int)
    requires
        0 <= i < n,
    ensures
        apps_frames_needed(apps, n) - apps_frames_needed(apps, i) >= task_frames_needed(apps[i]@),
        task_frames_needed(apps[i]@) >= 6,
    decreases n - i,
{
    let segs = crate::elf::load_segments_upto(apps[i]@, crate::elf::elf_ph_count(apps[i]@) as int);
    crate::memory_set::lemma_segs_needed_mono(segs, 0, segs.len() as int);
    if i < n - 1 {
        lemma_apps_needed_step(apps, i, n - 1);
        let segs2 = crate::elf::load_segments_upto(apps[n - 1]@, crate::elf::elf_ph_count(apps[n - 1]@) as int);
        crate::memory_set::lemma_segs_needed_mono(segs2, 0, segs2.len() as int);
    }
}

/// The kernel stack of application `i` lies above the kernel image and
/// below the trampoline, and apart from the stacks of the applications
/// before it: in a kernel space made of the five sections and those stacks,
/// its pages are free.
proof fn self_stack_free(ks: MemorySet, i: int)
    requires
        ks.wf(),
        0 <= i < MAX_APP_NUM,
        ks.areas_spec().len() == 5 + i,
        forall|k: int| 0 <= k < 5 ==> (#[trigger] ks.areas_spec()[k]).end() <= 0x80800,
        forall|j: int| 0 <= j < i ==> (#[trigger] ks.areas_spec()[5 + j]).start() == floor_spec(kernel_stack_spec(j).0)
            && ks.areas_spec()[5 + j].end() == ceil_spec(kernel_stack_spec(j).1),
    ensures
        kernel_stack_free(ks, i),
{
    let (bottom, top) = kernel_stack_spec(i);
    assert(floor_spec(bottom) == TRAMPOLINE_VPN - 3 * i - 2) by {
        assert(bottom == 0xffff_ffff_ffff_f000 - i * 0x3000 - 0x2000);
        assert((0xffff_ffff_ffff_f000 - i * 0x3000 - 0x2000) / 4096 == 0xf_ffff_ffff_ffff - 3 * i - 2) by (nonlinear_arith)
            requires 0 <= i < 16;
    }
    assert(ceil_spec(top) == TRAMPOLINE_VPN - 3 * i) by {
        assert(top == 0xffff_ffff_ffff_f000 - i * 0x3000);
        assert((0xffff_ffff_ffff_f000 - i * 0x3000 + 4095) / 4096 == 0xf_ffff_ffff_ffff - 3 * i) by (nonlinear_arith)
            requires 0 <= i < 16;
    }
    assert forall|v: u64| floor_spec(bottom) <= v < ceil_spec(top) implies !ks.view().contains_key(v) by {
        if ks.view().contains_key(v) {
            assert(v != TRAMPOLINE_VPN);
            let k = choose|k: int| 0 <= k < ks.areas_spec().len() && #[trigger] ks.areas_spec()[k].contains(v as int);
            if k >= 5 {
                let j = k - 5;
                assert(ks.areas_spec()[5 + j].contains(v as int));
                let (bj, tj) = kernel_stack_spec(j);
                assert(floor_spec(bj) == TRAMPOLINE_VPN - 3 * j - 2) by {
                    assert((0xffff_ffff_ffff_f000 - j * 0x3000 - 0x2000) / 4096 == 0xf_ffff_ffff_ffff - 3 * j - 2) by (nonlinear_arith)
                        requires 0 <= j < 16;
                }
            }
        }
    }
}

impl Kernel {
    pub open spec fn wf(&self) -> bool {
        &&& self.allocator.wf()
        &&& self.kernel_space.wf()
        &&& self.kernel_space.owned().subset_of(self.allocator.allocated())
        &&& self.task_manager.wf()
        &&& self.task_manager.frames_ok(self.allocator)
        &&& forall|i: int|
            0 <= i < self.task_manager.tasks_spec().len() ==> (#[trigger] self.task_manager.tasks_spec()[i]).memory_set.owned().disjoint(
                self.kernel_space.owned(),
            )
    }

    /// Starts the kernel: the frames from the end of the kernel image to
    /// the end of memory, the kernel's address space, and one `Ready` task
    /// for each application image, the first one current. `None` when an
    /// image cannot be loaded or the frames run out.
    pub fn new(
        layout: &KernelLayout,
        apps: &Vec<Vec<u8>>,
        trap_handler_va: u64,
        trap_return_va: u64,
        sstatus: u64,
    ) -> (r: Option<Self>)
        requires
            layout.ok(),
            forall|i: int| 0 <= i < apps@.len() ==> crate::elf::elf_magic_ok((#[trigger] apps@[i])@),
        ensures
            r is Some ==> {
                let k = r->Some_0;
                &&& k.wf()
                &&& k.task_manager.tasks_spec().len() == apps@.len()
                &&& k.task_manager.current_spec() == 0
                &&& forall|i: int| 0 <= i < apps@.len() ==> (#[trigger] k.task_manager.statuses()[i]) == TaskStatus::Ready
                &&& forall|i: int| 0 <= i < apps@.len() ==> task_built_from(
                    #[trigger] k.task_manager.tasks_spec()[i],
                    apps@[i]@,
                    layout.strampoline / 4096,
                )
            },
            apps@.len() > MAX_APP_NUM ==> r is None,
            apps@.len() <= MAX_APP_NUM && (forall|i: int| 0 <= i < apps@.len() ==> image_ok((#[trigger] apps@[i])@))
                && floor_spec(MEMORY_END as int) - ceil_spec(layout.ekernel as int) >= layout.frames_needed()
                + apps_frames_needed(apps@, apps@.len() as int) ==> r is Some,
    {
        if apps.len() > MAX_APP_NUM {
            return None;
        }
        let mut allocator = StackFrameAllocator::new();
        init_frame_allocator(&mut allocator, layout.ekernel);
        proof {
            lemma_apps_needed_nonneg(apps@, apps@.len() as int);
            assert(allocator.free_spec() == floor_spec(MEMORY_END as int) - ceil_spec(layout.ekernel as int));
        }
        let mut kernel_space = match MemorySet::new_kernel(&mut allocator, layout) {
            Some(m) => m,
            None => return None,
        };
        let trampoline = PhysPageNum(layout.strampoline / 4096);
        let ghost ok = (forall|i: int| 0 <= i < apps@.len() ==> image_ok((#[trigger] apps@[i])@))
            && floor_spec(MEMORY_END as int) - ceil_spec(layout.ekernel as int) >= layout.frames_needed()
            + apps_frames_needed(apps@, apps@.len() as int);
        let ghost n = apps@.len() as int;
        proof {
            assert(kernel_space.areas_spec().len() == 5);
            layout.lemma_sections_ordered();
            assert forall|k: int| 0 <= k < 5 implies (#[trigger] kernel_space.areas_spec()[k]).end() <= 0x80800 by {}
        }
        let mut tasks: Vec<TaskControlBlock> = Vec::new();
        let mut i: usize = 0;
        while i < apps.len()
            invariant
                i <= apps@.len() <= MAX_APP_NUM,
                tasks@.len() == i,
                trampoline.0 < crate::frame_allocator::PPN_LIMIT,
                allocator.wf(),
                kernel_space.wf(),
                kernel_space.owned().subset_of(allocator.allocated()),
                forall|j: int| 0 <= j < i ==> (#[trigger] tasks@[j]).wf() && tasks@[j].task_status == TaskStatus::Ready,
                forall|j: int| 0 <= j < i ==> task_built_from(#[trigger] tasks@[j], apps@[j]@, trampoline.0),
                forall|j: int| 0 <= j < i ==> (#[trigger] tasks@[j]).memory_set.owned().subset_of(allocator.allocated()),
                forall|j: int| 0 <= j < i ==> (#[trigger] tasks@[j]).memory_set.owned().disjoint(kernel_space.owned()),
                forall|j: int, k: int| 0 <= j < k < i ==> (#[trigger] tasks@[j]).memory_set.owned().disjoint((#[trigger] tasks@[k]).memory_set.owned()),
                n == apps@.len(),
                forall|j: int| 0 <= j < apps@.len() ==> crate::elf::elf_magic_ok((#[trigger] apps@[j])@),
                ok == ((forall|i: int| 0 <= i < apps@.len() ==> image_ok((#[trigger] apps@[i])@))
                    && floor_spec(MEMORY_END as int) - ceil_spec(layout.ekernel as int) >= layout.frames_needed()
                    + apps_frames_needed(apps@, apps@.len() as int)),
                kernel_space.areas_spec().len() == 5 + i,
                forall|k: int| 0 <= k < 5 ==> (#[trigger] kernel_space.areas_spec()[k]).end() <= 0x80800,
                forall|j: int| 0 <= j < i ==> (#[trigger] kernel_space.areas_spec()[5 + j]).start() == floor_spec(kernel_stack_spec(j).0)
                    && kernel_space.areas_spec()[5 + j].end() == ceil_spec(kernel_stack_spec(j).1),
                ok ==> allocator.free_spec() >= apps_frames_needed(apps@, n) - apps_frames_needed(apps@, i as int),
                ok ==> forall|j: int| 0 <= j < n ==> image_ok((#[trigger] apps@[j])@),
            decreases apps@.len() - i,
        {
            let ghost a0 = allocator;
            let ghost k0 = kernel_space;
            proof {
                if ok {
                    lemma_apps_needed_step(apps@, i as int, n);
                    self_stack_free(k0, i as int);
                    assert(image_ok(apps@[i as int]@));
                    assert(allocator.free_spec() >= task_frames_needed(apps@[i as int]@));
                }
            }
            let t = match TaskControlBlock::new(
                &mut allocator,
                &mut kernel_space,
                apps[i].as_slice(),
                i,
                trampoline,
                trap_handler_va,
                trap_return_va,
                sstatus,
            ) {
                Some(t) => t,
                None => return None,
            };
            let ghost old_tasks = tasks@;
            tasks.push(t);
            proof {
                assert(kernel_space.areas_spec().subrange(0, 5 + i as int) == k0.areas_spec());
                assert forall|k: int| 0 <= k < 5 implies (#[trigger] kernel_space.areas_spec()[k]).end() <= 0x80800 by {
                    assert(kernel_space.areas_spec().subrange(0, 5 + i as int)[k] == kernel_space.areas_spec()[k]);
                }
                assert forall|j: int| 0 <= j < i + 1 implies (#[trigger] kernel_space.areas_spec()[5 + j]).start() == floor_spec(kernel_stack_spec(j).0)
                    && kernel_space.areas_spec()[5 + j].end() == ceil_spec(kernel_stack_spec(j).1) by {
                    if j < i {
                        assert(kernel_space.areas_spec().subrange(0, 5 + i as int)[5 + j] == kernel_space.areas_spec()[5 + j]);
                    }
                }
                if ok {
                    lemma_apps_needed_step(apps@, i as int, n);
                    assert(apps_frames_needed(apps@, i + 1) == apps_frames_needed(apps@, i as int) + task_frames_needed(apps@[i as int]@));
                }
                assert forall|j: int| 0 <= j < i + 1 implies (#[trigger] tasks@[j]).memory_set.owned().subset_of(allocator.allocated()) by {
                    if j < i {
                        assert(old_tasks[j].memory_set.owned().subset_of(a0.allocated()));
                    }
                }
                assert forall|j: int| 0 <= j < i + 1 implies (#[trigger] tasks@[j]).memory_set.owned().disjoint(kernel_space.owned()) by {
                    if j < i {
                        let o = old_tasks[j].memory_set.owned();
                        assert(o.disjoint(k0.owned()));
                        assert forall|x: int| o.contains(x) implies !kernel_space.owned().contains(x) by {
                            assert(a0.allocated().contains(x));
                            if kernel_space.owned().contains(x) {
                                assert((kernel_space.owned() - k0.owned()).contains(x));
                            }
                        }
                    }
                }
                assert forall|j: int, k: int| 0 <= j < k < i + 1 implies (#[trigger] tasks@[j]).memory_set.owned().disjoint((#[trigger] tasks@[k]).memory_set.owned()) by {
                    if k == i {
                        let o = old_tasks[j].memory_set.owned();
                        assert forall|x: int| o.contains(x) implies !t.memory_set.owned().contains(x) by {
                            assert(a0.allocated().contains(x));
                        }
                    } else {
                        assert(old_tasks[j].memory_set.owned().disjoint(old_tasks[k].memory_set.owned()));
                    }
                }
                assert forall|j: int| 0 <= j < i + 1 implies task_built_from(#[trigger] tasks@[j], apps@[j]@, trampoline.0) by {
                    if j < i {
                        assert(old_tasks[j] == tasks@[j]);
                    }
                }
                assert forall|j: int| 0 <= j < i + 1 implies (#[trigger] tasks@[j]).wf() && tasks@[j].task_status == TaskStatus::Ready by {
                    if j < i {
                        assert(old_tasks[j] == tasks@[j]);
                    }
                }
            }
            i = i + 1;
        }
        let task_manager = TaskManager::new(tasks);
        let k = Kernel { allocator, kernel_space, task_manager };
        proof {
            assert(k.task_manager.frames_ok(k.allocator));
            assert forall|i: int| 0 <= i < apps@.len() implies (#[trigger] k.task_manager.statuses()[i]) == TaskStatus::Ready by {}
        }
        Some(k)
    }

    /// Ends the current task at `now_us`, gives its frames back, and picks
    /// the next one; the kernel stops when none is left.
    fn exit_current(&mut self, now_us: u64, event: TrapEvent) -> (r: TrapOutcome)
        requires
            old(self).wf(),
            old(self).task_manager.tasks_spec().len() > 0,
        ensures
            final(self).wf(),
            final(self).task_manager.tasks_spec().len() == old(self).task_manager.tasks_spec().len(),
            r.event == event,
            r.next_timer is None,
            r.output@.len() == 0,
            final(self).task_manager.statuses()[old(self).task_manager.current_spec()] == TaskStatus::Exited,
            final(self).task_manager.tasks_spec()[old(self).task_manager.current_spec()].end_time == now_us,
            final(self).task_manager.tasks_spec()[old(self).task_manager.current_spec()].trap_cx
                == old(self).task_manager.tasks_spec()[old(self).task_manager.current_spec()].trap_cx,
            ({
                let tm = old(self).task_manager;
                let st = tm.statuses().update(tm.current_spec(), TaskStatus::Exited);
                &&& r.halt <==> find_next_spec(st, tm.current_spec()) is None
                &&& r.switch_to is Some <==> !r.halt
                &&& r.switch_to is Some ==> r.switch_to->Some_0 == (tm.current_spec() as usize, find_next_spec(st, tm.current_spec())->Some_0 as usize)
                    && final(self).task_manager.current_spec() == r.switch_to->Some_0.1
                    && final(self).task_manager.statuses() == st.update(r.switch_to->Some_0.1 as int, TaskStatus::Running)
            }),
    {
        proof {
            self.task_manager.lemma_wf();
        }
        let ghost t0 = self.task_manager;
        let ghost a0 = self.allocator;
        self.task_manager.exit_current(&mut self.allocator, now_us);
        proof {
            let c = t0.current_spec();
            let tm = self.task_manager;
            assert forall|i: int| 0 <= i < tm.tasks_spec().len() implies (#[trigger] tm.tasks_spec()[i]).memory_set.owned().disjoint(
                self.kernel_space.owned(),
            ) by {
                assert(t0.tasks_spec()[i].memory_set.owned().disjoint(self.kernel_space.owned()));
            }
            assert forall|x: int| self.kernel_space.owned().contains(x) implies self.allocator.allocated().contains(x) by {
                assert(a0.allocated().contains(x));
                if !self.allocator.allocated().contains(x) {
                    assert((a0.allocated() - self.allocator.allocated()).contains(x));
                    assert(t0.tasks_spec()[c].memory_set.owned().disjoint(self.kernel_space.owned()));
                }
            }
        }
        match self.task_manager.find_next_task() {
            Some(_) => {
                let ghost t1 = self.task_manager;
                let p = self.task_manager.run_next_task(now_us);
                proof {
                    self.lemma_tasks_frames_kept(t1);
                    t1.lemma_wf();
                    lemma_next_is_ready(t1.statuses(), t1.current_spec(), 1);
                }
                TrapOutcome { output: Vec::new(), event, next_timer: None, switch_to: Some(p), halt: false }
            },
            None => TrapOutcome { output: Vec::new(), event, next_timer: None, switch_to: None, halt: true },
        }
    }

    /// The frame invariants hold after a step of the task manager that
    /// kept every task's address space.
    proof fn lemma_tasks_frames_kept(&self, t0: TaskManager)
        requires
            t0.frames_ok(self.allocator),
            self.task_manager.tasks_spec().len() == t0.tasks_spec().len(),
            forall|i: int| 0 <= i < t0.tasks_spec().len() ==> (#[trigger] t0.tasks_spec()[i]).memory_set.owned().disjoint(
                self.kernel_space.owned(),
            ),
            forall|i: int| 0 <= i < self.task_manager.tasks_spec().len() ==> (#[trigger] self.task_manager.tasks_spec()[i]).memory_set.owned()
                == t0.tasks_spec()[i].memory_set.owned(),
        ensures
            self.task_manager.frames_ok(self.allocator),
            forall|i: int| 0 <= i < self.task_manager.tasks_spec().len() ==> (#[trigger] self.task_manager.tasks_spec()[i]).memory_set.owned().disjoint(
                self.kernel_space.owned(),
            ),
    {
        let tm = self.task_manager;
        let n = tm.tasks_spec().len() as int;
        assert forall|i: int| 0 <= i < n implies (#[trigger] tm.tasks_spec()[i]).memory_set.owned().subset_of(self.allocator.allocated()) by {
            assert(t0.tasks_spec()[i].memory_set.owned().subset_of(self.allocator.allocated()));
        }
        assert forall|i: int, j: int| 0 <= i < j < n implies (#[trigger] tm.tasks_spec()[i]).memory_set.owned().disjoint(
            (#[trigger] tm.tasks_spec()[j]).memory_set.owned(),
        ) by {
            assert(t0.tasks_spec()[i].memory_set.owned().disjoint(t0.tasks_spec()[j].memory_set.owned()));
        }
        assert forall|i: int| 0 <= i < n implies (#[trigger] tm.tasks_spec()[i]).memory_set.owned().disjoint(self.kernel_space.owned()) by {
            assert(t0.tasks_spec()[i].memory_set.owned().disjoint(self.kernel_space.owned()));
        }
    }

    /// The kernel's answer to a trap from the current task, taken at
    /// `mtime` reading `now_ticks`: a system call steps `sepc` over the
    /// `ecall`, runs, and its result goes to `x10`; `exit`, faults and
    /// illegal instructions end the task; `yield` and timer ticks suspend
    /// it; the next `Ready` task is picked round robin. The kernel stops
    /// when no task is left to run, and on a trap or call it cannot handle.
    pub fn handle_trap(&mut self, cause: TrapCause, stval: u64, now_ticks: u64) -> (r: TrapOutcome)
        requires
            old(self).wf(),
            old(self).task_manager.tasks_spec().len() > 0,
        ensures
            final(self).wf(),
            final(self).task_manager.tasks_spec().len() == old(self).task_manager.tasks_spec().len(),
            r.switch_to is Some ==> !r.halt,
            cause == TrapCause::Other ==> r.halt && r.event == TrapEvent::Unhandled,
            cause == TrapCause::SupervisorTimer ==> ({
                let tm = old(self).task_manager;
                let st = tm.statuses().update(tm.current_spec(), TaskStatus::Ready);
                &&& !r.halt
                &&& r.next_timer == Some(now_ticks.wrapping_add(125_000))
                &&& r.switch_to == Some((tm.current_spec() as usize, find_next_spec(st, tm.current_spec())->Some_0 as usize))
                &&& final(self).task_manager.statuses() == st.update(r.switch_to->Some_0.1 as int, TaskStatus::Running)
            }),
            (cause == TrapCause::StoreFault || cause == TrapCause::StorePageFault || cause == TrapCause::LoadPageFault
                || cause == TrapCause::IllegalInstruction) ==> ({
                let tm = old(self).task_manager;
                let c = tm.current_spec();
                let st = tm.statuses().update(c, TaskStatus::Exited);
                &&& r.halt <==> find_next_spec(st, c) is None
                &&& !r.halt ==> r.switch_to == Some((c as usize, find_next_spec(st, c)->Some_0 as usize))
                    && final(self).task_manager.statuses() == st.update(r.switch_to->Some_0.1 as int, TaskStatus::Running)
                &&& final(self).task_manager.statuses()[c] == TaskStatus::Exited
                &&& final(self).task_manager.tasks_spec()[c].end_time == now_ticks / 12
                &&& cause == TrapCause::IllegalInstruction ==> r.event == (TrapEvent::IllegalInstruction { addr: stval })
                &&& cause != TrapCause::IllegalInstruction ==> r.event == (TrapEvent::PageFault {
                    addr: stval,
                    pc: tm.tasks_spec()[c].trap_cx.sepc,
                })
            }),
            cause == TrapCause::UserEnvCall ==> ({
                let tm = old(self).task_manager;
                let c = tm.current_spec();
                let cx = tm.tasks_spec()[c].trap_cx;
                let x = cx.x@;
                let cx1 = final(self).task_manager.tasks_spec()[c].trap_cx;
                let m = tm.tasks_spec()[c].memory_set;
                &&& !syscall_handled(x[17], x[10]) ==> r.halt && r.event == TrapEvent::Unhandled
                &&& syscall_handled(x[17], x[10]) ==> cx1.sepc == cx.sepc.wrapping_add(4)
                    && cx1.sstatus == cx.sstatus
                    && (forall|k: int| 0 <= k < 32 && k != 10 ==> cx1.x@[k] == x[k])
                &&& x[17] == SYSCALL_EXIT ==> r.event == (TrapEvent::Exited { code: x[10] as i32 })
                    && final(self).task_manager.statuses()[c] == TaskStatus::Exited
                    && final(self).task_manager.tasks_spec()[c].end_time == now_ticks / 12
                    && (r.halt <==> find_next_spec(tm.statuses().update(c, TaskStatus::Exited), c) is None)
                &&& x[17] == SYSCALL_YIELD ==> ({
                    let st = tm.statuses().update(c, TaskStatus::Ready);
                    &&& !r.halt
                    &&& cx1.x@[10] == 0
                    &&& r.switch_to == Some((c as usize, find_next_spec(st, c)->Some_0 as usize))
                    &&& final(self).task_manager.statuses() == st.update(r.switch_to->Some_0.1 as int, TaskStatus::Running)
                })
                &&& (x[17] == SYSCALL_WRITE && x[10] == FD_STDOUT) ==> ({
                    let (va, len) = (x[11], x[12]);
                    &&& !r.halt && r.switch_to is None
                    &&& if va + len <= u64::MAX && forall|j: int| 0 <= j < len ==> (#[trigger] m.user_byte(va + j)) is Some {
                        &&& cx1.x@[10] == len
                        &&& r.output@.len() == len
                        &&& forall|j: int| 0 <= j < len ==> Some(#[trigger] r.output@[j]) == m.user_byte(va + j)
                    } else {
                        cx1.x@[10] == -1i64 as u64 && r.output@.len() == 0
                    }
                })
                &&& x[17] == SYSCALL_MMAP ==> !r.halt && r.switch_to is None
                    && cx1.x@[10] == (if tm.tasks_spec()[c].mmap_ok(old(self).allocator.free_spec(), x[10], x[11], x[12]) { 0i64 } else { -1i64 }) as u64
                    && final(self).task_manager.mmap_done(tm, cx1.x@[10] as i64, x[10], x[11], x[12])
                &&& x[17] == SYSCALL_MUNMAP ==> !r.halt && r.switch_to is None
                    && cx1.x@[10] == (if x[10] % 4096 == 0 && x[10] + x[11] <= u64::MAX && m.has_framed_area(
                        floor_spec(x[10] as int),
                        ceil_spec(x[10] + x[11]),
                    ) { 0i64 } else { -1i64 }) as u64
                    && final(self).task_manager.munmap_done(tm, cx1.x@[10] as i64, x[10], x[11])
                &&& (x[17] == SYSCALL_READ || x[17] == SYSCALL_SET_PRIORITY) ==> !r.halt && r.switch_to is None
                    && cx1.x@[10] == -1i64 as u64
            }),
    {
        proof {
            self.task_manager.lemma_wf();
        }
        let now_us = get_time_micro(now_ticks);
        let mut cx = self.task_manager.current_trap_cx();
        let action = trap_handler(&mut cx, cause, stval);
        match action {
            TrapAction::Syscall { id, a0, a1, a2 } => {
                if !is_syscall_handled(id, a0) {
                    return TrapOutcome { output: Vec::new(), event: TrapEvent::Unhandled, next_timer: None, switch_to: None, halt: true };
                }
                let ghost t1 = self.task_manager;
                let ghost alloc1 = self.allocator;
                let out = syscall(&mut self.task_manager, &mut self.allocator, id, [a0, a1, a2], now_us);
                proof {
                    assert forall|i: int| 0 <= i < self.task_manager.tasks_spec().len() implies (#[trigger] self.task_manager.tasks_spec()[i]).memory_set.owned().disjoint(
                        self.kernel_space.owned(),
                    ) by {
                        assert(t1.tasks_spec()[i].memory_set.owned().disjoint(self.kernel_space.owned()));
                        assert(self.kernel_space.owned().subset_of(alloc1.allocated()));
                    }
                    let c = t1.current_spec();
                    assert(t1.tasks_spec()[c].memory_set.owned().disjoint(self.kernel_space.owned()));
                    assert(self.kernel_space.owned().subset_of(self.allocator.allocated())) by {
                        assert forall|x: int| self.kernel_space.owned().contains(x) implies self.allocator.allocated().contains(x) by {
                            assert(alloc1.allocated().contains(x));
                            if !self.allocator.allocated().contains(x) {
                                assert((alloc1.allocated() - self.allocator.allocated()).contains(x));
                            }
                        }
                    }
                }
                match out {
                    SyscallOutcome::Return(v) => {
                        set_return_value(&mut cx, v);
                        let ghost t2 = self.task_manager;
                        self.store_trap_cx(cx);
                        proof {
                            assert((v as u64) as i64 == v) by (bit_vector);
                            t2.lemma_wf();
                            t1.lemma_wf();
                            t2.lemma_done_kept(self.task_manager, t1, v, a0, a1, a2);
                        }
                        TrapOutcome { output: Vec::new(), event: TrapEvent::Nothing, next_timer: None, switch_to: None, halt: false }
                    },
                    SyscallOutcome::Print { bytes, value } => {
                        set_return_value(&mut cx, value);
                        proof {
                            assert((a2 as i64) as u64 == a2) by (bit_vector);
                        }
                        self.store_trap_cx(cx);
                        TrapOutcome { output: bytes, event: TrapEvent::Nothing, next_timer: None, switch_to: None, halt: false }
                    },
                    SyscallOutcome::Exit { code } => {
                        self.store_trap_cx(cx);
                        self.exit_current(now_us, TrapEvent::Exited { code })
                    },
                    SyscallOutcome::Yield => {
                        set_return_value(&mut cx, 0);
                        self.store_trap_cx(cx);
                        self.suspend_current(now_us, None)
                    },
                }
            },
            TrapAction::PageFault { addr, pc } => {
                self.exit_current(now_us, TrapEvent::PageFault { addr, pc })
            },
            TrapAction::IllegalInstruction { addr } => {
                self.exit_current(now_us, TrapEvent::IllegalInstruction { addr })
            },
            TrapAction::Tick => {
                let next = set_next_trigger(now_ticks);
                self.suspend_current(now_us, Some(next))
            },
            TrapAction::Fatal => {
                TrapOutcome { output: Vec::new(), event: TrapEvent::Unhandled, next_timer: None, switch_to: None, halt: true }
            },
        }
    }

    /// Stores the current task's trap context.
    fn store_trap_cx(&mut self, cx: TrapContext)
        requires
            old(self).wf(),
            old(self).task_manager.tasks_spec().len() > 0,
        ensures
            final(self).wf(),
            final(self).allocator == old(self).allocator,
            final(self).task_manager.tasks_spec().len() == old(self).task_manager.tasks_spec().len(),
            final(self).task_manager.current_spec() == old(self).task_manager.current_spec(),
            final(self).task_manager.statuses() == old(self).task_manager.statuses(),
            final(self).task_manager.tasks_spec()[old(self).task_manager.current_spec()].trap_cx == cx,
            forall|i: int| 0 <= i < final(self).task_manager.tasks_spec().len() ==> (#[trigger] final(self).task_manager.tasks_spec()[i]).memory_set
                == old(self).task_manager.tasks_spec()[i].memory_set,
    {
        let ghost t0 = self.task_manager;
        self.task_manager.set_current_trap_cx(cx);
        proof {
            self.lemma_tasks_frames_kept(t0);
        }
    }

    /// Suspends the current task and picks the next one.
    fn suspend_current(&mut self, now_us: u64, next_timer: Option<u64>) -> (r: TrapOutcome)
        requires
            old(self).wf(),
            old(self).task_manager.tasks_spec().len() > 0,
        ensures
            final(self).wf(),
            final(self).task_manager.tasks_spec().len() == old(self).task_manager.tasks_spec().len(),
            r.event == TrapEvent::Nothing,
            r.next_timer == next_timer,
            !r.halt,
            final(self).task_manager.tasks_spec()[old(self).task_manager.current_spec()].trap_cx
                == old(self).task_manager.tasks_spec()[old(self).task_manager.current_spec()].trap_cx,
            ({
                let tm = old(self).task_manager;
                let st = tm.statuses().update(tm.current_spec(), TaskStatus::Ready);
                &&& r.switch_to == Some((tm.current_spec() as usize, find_next_spec(st, tm.current_spec())->Some_0 as usize))
                &&& final(self).task_manager.current_spec() == r.switch_to->Some_0.1
                &&& final(self).task_manager.statuses() == st.update(r.switch_to->Some_0.1 as int, TaskStatus::Running)
            }),
    {
        proof {
            self.task_manager.lemma_wf();
        }
        let ghost t0 = self.task_manager;
        let next = self.task_manager.suspend_current_and_run_next(now_us);
        proof {
            let c = t0.current_spec();
            assert(self.task_manager.tasks_spec()[c].trap_cx == t0.tasks_spec()[c].trap_cx);
        }
        proof {
            self.lemma_tasks_frames_kept(t0);
        }
        proof {
            self.task_manager.lemma_wf();
        }
        TrapOutcome { output: Vec::new(), event: TrapEvent::Nothing, next_timer, switch_to: Some(next), halt: false }
    }
}

} // verus!
