//! The system call dispatcher.

use crate::config::MAX_SYSCALL_NUM;
use crate::frame_allocator::StackFrameAllocator;
use crate::task::{TaskManager, TaskStatus};
use crate::timer::{get_time_val, TimeVal};
use vstd::bytes::{spec_u32_to_le_bytes, spec_u64_to_le_bytes, u32_to_le_bytes, u64_to_le_bytes};
use vstd::prelude::*;

verus! {

pub const SYSCALL_READ: u64 = 63;

pub const SYSCALL_WRITE: u64 = 64;

pub const SYSCALL_EXIT: u64 = 93;

pub const SYSCALL_YIELD: u64 = 124;

pub const SYSCALL_SET_PRIORITY: u64 = 140;

pub const SYSCALL_GET_TIME: u64 = 169;

pub const SYSCALL_MUNMAP: u64 = 215;

pub const SYSCALL_MMAP: u64 = 222;

pub const SYSCALL_TASK_INFO: u64 = 410;

/// The file descriptor of the console.
pub const FD_STDOUT: u64 = 1;

/// What a task learns of itself through `task_info`: its status, how often
/// it made each system call, and for how many milliseconds it has run.
#[derive(Debug)]
pub struct TaskInfo {
    pub status: TaskStatus,
    pub syscall_times: Vec<u32>,
    pub time: u64,
}

/// The number user code reads for a status.
pub open spec fn status_code(s: TaskStatus) -> u32 {
    match s {
        TaskStatus::UnInit => 0,
        TaskStatus::Ready => 1,
        TaskStatus::Running => 2,
        TaskStatus::Exited => 3,
    }
}

/// The counters as consecutive little-endian words.
pub open spec fn counters_bytes(s: Seq<u32>) -> Seq<u8>
    decreases s.len(),
{
    if s.len() == 0 {
        Seq::empty()
    } else {
        counters_bytes(s.drop_last()) + spec_u32_to_le_bytes(s.last())
    }
}

/// The layout of a `TaskInfo` in user memory: the status as a word, the
/// counters, four bytes of padding, the time.
pub open spec fn task_info_bytes(info: TaskInfo) -> Seq<u8> {
    spec_u32_to_le_bytes(status_code(info.status)) + counters_bytes(info.syscall_times@) + seq![0u8, 0u8, 0u8, 0u8]
        + spec_u64_to_le_bytes(info.time)
}

impl TaskInfo {
    pub fn new() -> (r: Self)
        ensures
            r.status == TaskStatus::UnInit,
            r.syscall_times@ == Seq::new(MAX_SYSCALL_NUM as nat, |i: int| 0u32),
            r.time == 0,
    {
        let mut syscall_times: Vec<u32> = Vec::new();
        let mut i: usize = 0;
        while i < MAX_SYSCALL_NUM
            invariant
                i <= MAX_SYSCALL_NUM,
                syscall_times@ == Seq::new(i as nat, |j: int| 0u32),
            decreases MAX_SYSCALL_NUM - i,
        {
            syscall_times.push(0);
            i = i + 1;
            proof {
                assert(syscall_times@ =~= Seq::new(i as nat, |j: int| 0u32));
            }
        }
        TaskInfo { status: TaskStatus::UnInit, syscall_times, time: 0 }
    }

    pub fn as_bytes(&self) -> (r: Vec<u8>)
        ensures
            r@ == task_info_bytes(*self),
    {
        let code: u32 = match self.status {
            TaskStatus::UnInit => 0,
            TaskStatus::Ready => 1,
            TaskStatus::Running => 2,
            TaskStatus::Exited => 3,
        };
        let mut r = u32_to_le_bytes(code);
        let ghost head = r@;
        let mut i: usize = 0;
        while i < self.syscall_times.len()
            invariant
                i <= self.syscall_times@.len(),
                r@ == head + counters_bytes(self.syscall_times@.subrange(0, i as int)),
            decreases self.syscall_times@.len() - i,
        {
            let mut w = u32_to_le_bytes(self.syscall_times[i]);
            let ghost before = r@;
            r.append(&mut w);
            proof {
                let s = self.syscall_times@.subrange(0, i + 1);
                assert(s.drop_last() =~= self.syscall_times@.subrange(0, i as int));
                assert(r@ =~= head + counters_bytes(s));
            }
            i = i + 1;
        }
        proof {
            assert(self.syscall_times@.subrange(0, self.syscall_times@.len() as int) =~= self.syscall_times@);
        }
        r.push(0);
        r.push(0);
        r.push(0);
        r.push(0);
        let mut t = u64_to_le_bytes(self.time);
        r.append(&mut t);
        proof {
            assert(r@ =~= task_info_bytes(*self));
        }
        r
    }
}

/// What the kernel does for a system call once its handler has run.
#[derive(Debug)]
pub enum SyscallOutcome {
    /// Return `value` to the task in `x10`.
    Return(i64),
    /// Put `bytes` on the console, then return `value`.
    Print { bytes: Vec<u8>, value: i64 },
    /// End the current task with `code` and run the next one.
    Exit { code: i32 },
    /// Suspend the current task and run the next one; it then gets 0.
    Yield,
}

/// The frame invariant of the tasks survives a change to one task that
/// keeps the frames of every task.
proof fn lemma_frames_kept(t0: TaskManager, t1: TaskManager, a: StackFrameAllocator)
    requires
        t0.frames_ok(a),
        t1.tasks_spec().len() == t0.tasks_spec().len(),
        forall|i: int| 0 <= i < t1.tasks_spec().len() ==> (#[trigger] t1.tasks_spec()[i]).memory_set.owned()
            == t0.tasks_spec()[i].memory_set.owned(),
    ensures
        t1.frames_ok(a),
{
    let n = t1.tasks_spec().len() as int;
    assert forall|i: int| 0 <= i < n implies (#[trigger] t1.tasks_spec()[i]).memory_set.owned().subset_of(a.allocated()) by {
        assert(t0.tasks_spec()[i].memory_set.owned().subset_of(a.allocated()));
    }
    assert forall|i: int, j: int| 0 <= i < j < n implies (#[trigger] t1.tasks_spec()[i]).memory_set.owned().disjoint(
        (#[trigger] t1.tasks_spec()[j]).memory_set.owned(),
    ) by {
        assert(t0.tasks_spec()[i].memory_set.owned().disjoint(t0.tasks_spec()[j].memory_set.owned()));
    }
}

/// `write`: the bytes of the current task at `[buf, buf + len)` go to the
/// console, and the call returns `len`; -1 when some of them are not in
/// the task's user memory. Writing to another file than the console is a
/// kernel bug.
pub fn sys_write(tm: &TaskManager, fd: u64, buf: u64, len: u64) -> (r: SyscallOutcome)
    requires
        tm.wf(),
        tm.tasks_spec().len() > 0,
        fd == FD_STDOUT,
    ensures
        ({
            let m = tm.tasks_spec()[tm.current_spec()].memory_set;
            if buf + len <= u64::MAX && forall|j: int| 0 <= j < len ==> (#[trigger] m.user_byte(buf + j)) is Some {
                &&& r is Print
                &&& r->Print_value == len as i64
                &&& r->Print_bytes@.len() == len
                &&& forall|j: int| 0 <= j < len ==> Some(#[trigger] r->Print_bytes@[j]) == m.user_byte(buf + j)
            } else {
                r == SyscallOutcome::Return(-1i64)
            }
        }),
{
    match tm.read_current_user_bytes(buf, len) {
        Some(bytes) => SyscallOutcome::Print { bytes, value: len as i64 },
        None => SyscallOutcome::Return(-1),
    }
}

/// `exit`: the current task ends with `exit_code`.
pub fn sys_exit(exit_code: i32) -> (r: SyscallOutcome)
    ensures
        r == (SyscallOutcome::Exit { code: exit_code }),
{
    SyscallOutcome::Exit { code: exit_code }
}

/// `yield`: the current task gives up the hart.
pub fn sys_yield() -> (r: SyscallOutcome)
    ensures
        r == SyscallOutcome::Yield,
{
    SyscallOutcome::Yield
}

/// `set_priority`: not supported.
pub fn sys_set_priority(_prio: i64) -> (r: i64)
    ensures
        r == -1,
{
    -1
}

/// `get_time`: writes the time `now_us` as a `TimeVal` at `ts` in the
/// current task's memory; 0, or -1 with nothing written when the 16 bytes
/// are not all in its user memory.
pub fn sys_get_time(tm: &mut TaskManager, ts: u64, now_us: u64) -> (r: i64)
    requires
        old(tm).wf(),
        old(tm).tasks_spec().len() > 0,
    ensures
        forall|i: int| 0 <= i < final(tm).tasks_spec().len() && i != old(tm).current_spec()
            ==> (#[trigger] final(tm).tasks_spec()[i]) == old(tm).tasks_spec()[i],
        ({
            let t0 = old(tm).tasks_spec()[old(tm).current_spec()];
            let t1 = final(tm).tasks_spec()[old(tm).current_spec()];
            &&& t1.task_status == t0.task_status && t1.task_cx == t0.task_cx && t1.trap_cx == t0.trap_cx
            &&& t1.syscall_times == t0.syscall_times && t1.begin_time == t0.begin_time && t1.end_time == t0.end_time
            &&& t1.memory_set.view() == t0.memory_set.view()
        }),
        final(tm).wf(),
        final(tm).current_spec() == old(tm).current_spec(),
        final(tm).statuses() == old(tm).statuses(),
        final(tm).tasks_spec().len() == old(tm).tasks_spec().len(),
        forall|i: int| 0 <= i < final(tm).tasks_spec().len() ==> (#[trigger] final(tm).tasks_spec()[i]).memory_set.owned()
            == old(tm).tasks_spec()[i].memory_set.owned(),
        ({
            let m0 = old(tm).tasks_spec()[old(tm).current_spec()].memory_set;
            let m1 = final(tm).tasks_spec()[old(tm).current_spec()].memory_set;
            let t = TimeVal { sec: now_us / 1_000_000, usec: now_us % 1_000_000 };
            let bytes = spec_u64_to_le_bytes(t.sec) + spec_u64_to_le_bytes(t.usec);
            let ok = ts + 16 <= u64::MAX && forall|j: int| 0 <= j < 16 ==> (#[trigger] m0.user_byte(ts + j)) is Some;
            &&& r == (if ok { 0i64 } else { -1i64 })
            &&& ok ==> forall|j: int| 0 <= j < 16 ==> #[trigger] m1.user_byte(ts + j) == Some(bytes[j])
        }),
{
    let t = get_time_val(now_us);
    let bytes = t.as_bytes();
    let ok = tm.write_current_user_bytes(ts, bytes.as_slice());
    if ok {
        0
    } else {
        -1
    }
}

/// `mmap` on the current task; see `TaskControlBlock::mmap`.
pub fn sys_mmap(tm: &mut TaskManager, allocator: &mut StackFrameAllocator, start: u64, len: u64, port: u64) -> (r: i64)
    requires
        old(tm).wf(),
        old(allocator).wf(),
        old(tm).frames_ok(*old(allocator)),
        old(tm).tasks_spec().len() > 0,
    ensures
        forall|i: int| 0 <= i < final(tm).tasks_spec().len() ==> (#[trigger] final(tm).tasks_spec()[i]).syscall_times
            == old(tm).tasks_spec()[i].syscall_times,
        final(tm).freed_own_frames(*old(tm), *old(allocator), *final(allocator)),
        final(tm).frames_from_before(*old(tm), *old(allocator), *final(allocator)),
        final(tm).wf(),
        final(allocator).wf(),
        final(tm).frames_ok(*final(allocator)),
        final(tm).current_spec() == old(tm).current_spec(),
        final(tm).statuses() == old(tm).statuses(),
        final(tm).tasks_spec().len() == old(tm).tasks_spec().len(),
        r == (if old(tm).tasks_spec()[old(tm).current_spec()].mmap_ok(old(allocator).free_spec(), start, len, port) { 0i64 } else { -1i64 }),
        final(tm).mmap_done(*old(tm), r, start, len, port),
{
    tm.mmap(allocator, start, len, port)
}

/// `munmap` on the current task; see `TaskControlBlock::munmap`.
pub fn sys_munmap(tm: &mut TaskManager, allocator: &mut StackFrameAllocator, start: u64, len: u64) -> (r: i64)
    requires
        old(tm).wf(),
        old(allocator).wf(),
        old(tm).frames_ok(*old(allocator)),
        old(tm).tasks_spec().len() > 0,
    ensures
        forall|i: int| 0 <= i < final(tm).tasks_spec().len() ==> (#[trigger] final(tm).tasks_spec()[i]).syscall_times
            == old(tm).tasks_spec()[i].syscall_times,
        final(tm).freed_own_frames(*old(tm), *old(allocator), *final(allocator)),
        final(tm).frames_from_before(*old(tm), *old(allocator), *final(allocator)),
        final(tm).wf(),
        final(allocator).wf(),
        final(tm).frames_ok(*final(allocator)),
        final(tm).current_spec() == old(tm).current_spec(),
        final(tm).statuses() == old(tm).statuses(),
        final(tm).tasks_spec().len() == old(tm).tasks_spec().len(),
        r == (if start % 4096 == 0 && start + len <= u64::MAX && old(tm).tasks_spec()[old(tm).current_spec()].memory_set.has_framed_area(
            crate::address::floor_spec(start as int),
            crate::address::ceil_spec(start + len),
        ) { 0i64 } else { -1i64 }),
        final(tm).munmap_done(*old(tm), r, start, len),
{
    tm.munmap(allocator, start, len)
}

/// `task_info`: writes the current task's status, call counts and running
/// time in milliseconds at `ti`; 0, or -1 with nothing written when the
/// bytes are not all in its user memory.
pub fn sys_task_info(tm: &mut TaskManager, ti: u64, now_us: u64) -> (r: i64)
    requires
        old(tm).wf(),
        old(tm).tasks_spec().len() > 0,
    ensures
        forall|i: int| 0 <= i < final(tm).tasks_spec().len() && i != old(tm).current_spec()
            ==> (#[trigger] final(tm).tasks_spec()[i]) == old(tm).tasks_spec()[i],
        ({
            let t0 = old(tm).tasks_spec()[old(tm).current_spec()];
            let t1 = final(tm).tasks_spec()[old(tm).current_spec()];
            &&& t1.task_status == t0.task_status && t1.task_cx == t0.task_cx && t1.trap_cx == t0.trap_cx
            &&& t1.syscall_times == t0.syscall_times && t1.begin_time == t0.begin_time && t1.end_time == t0.end_time
            &&& t1.memory_set.view() == t0.memory_set.view()
        }),
        final(tm).wf(),
        final(tm).current_spec() == old(tm).current_spec(),
        final(tm).statuses() == old(tm).statuses(),
        final(tm).tasks_spec().len() == old(tm).tasks_spec().len(),
        forall|i: int| 0 <= i < final(tm).tasks_spec().len() ==> (#[trigger] final(tm).tasks_spec()[i]).memory_set.owned()
            == old(tm).tasks_spec()[i].memory_set.owned(),
        ({
            let c = old(tm).current_spec();
            let t = old(tm).tasks_spec()[c];
            let info = TaskInfo {
                status: t.task_status,
                syscall_times: t.syscall_times,
                time: task_running_ms(t, now_us),
            };
            let bytes = task_info_bytes(info);
            let m0 = t.memory_set;
            let m1 = final(tm).tasks_spec()[c].memory_set;
            let ok = ti + bytes.len() <= u64::MAX && forall|j: int| 0 <= j < bytes.len() ==> (#[trigger] m0.user_byte(ti + j)) is Some;
            &&& r == (if ok { 0i64 } else { -1i64 })
            &&& ok ==> forall|j: int| 0 <= j < bytes.len() ==> #[trigger] m1.user_byte(ti + j) == Some(bytes[j])
        }),
{
    let info = TaskInfo {
        status: tm.get_curr_task_status(),
        syscall_times: tm.get_curr_task_syscall_times(),
        time: tm.get_curr_task_running_time(now_us) / 1000,
    };
    let bytes = info.as_bytes();
    proof {
        let t = old(tm).tasks_spec()[old(tm).current_spec()];
        let spec_info = TaskInfo { status: t.task_status, syscall_times: t.syscall_times, time: task_running_ms(t, now_us) };
        old(tm).lemma_wf();
        assert(info.syscall_times@ == spec_info.syscall_times@);
        assert(old(tm).statuses()[old(tm).current_spec()] == t.task_status);
        assert(info.status == spec_info.status);
        assert(info.time == spec_info.time);
        assert(task_info_bytes(info) == task_info_bytes(spec_info));
    }
    let ok = tm.write_current_user_bytes(ti, bytes.as_slice());
    if ok {
        0
    } else {
        -1
    }
}

/// Milliseconds that a task has run by `now_us`.
pub open spec fn task_running_ms(t: crate::task::TaskControlBlock, now_us: u64) -> u64 {
    let until = if t.task_status == TaskStatus::Exited { t.end_time } else { now_us };
    (if until >= t.begin_time { (until - t.begin_time) as u64 } else { 0u64 }) / 1000
}

/// The kernel handles system call `id` with first argument `a0`: a call it
/// knows, and for `write` the console.
pub open spec fn syscall_handled(id: u64, a0: u64) -> bool {
    &&& id == SYSCALL_READ || id == SYSCALL_WRITE || id == SYSCALL_EXIT || id == SYSCALL_YIELD || id
        == SYSCALL_SET_PRIORITY || id == SYSCALL_GET_TIME || id == SYSCALL_MUNMAP || id == SYSCALL_MMAP || id
        == SYSCALL_TASK_INFO
    &&& id == SYSCALL_WRITE ==> a0 == FD_STDOUT
}

pub fn is_syscall_handled(id: u64, a0: u64) -> (r: bool)
    ensures
        r == syscall_handled(id, a0),
{
    (id == SYSCALL_READ || id == SYSCALL_WRITE || id == SYSCALL_EXIT || id == SYSCALL_YIELD || id
        == SYSCALL_SET_PRIORITY || id == SYSCALL_GET_TIME || id == SYSCALL_MUNMAP || id == SYSCALL_MMAP || id
        == SYSCALL_TASK_INFO) && (id != SYSCALL_WRITE || a0 == FD_STDOUT)
}

/// Carries out system call `syscall_id` with `args` for the current task,
/// `now_us` microseconds after boot, and counts it. An unknown call, or a
/// write to another file than the console, is a kernel bug.
pub fn syscall(
    tm: &mut TaskManager,
    allocator: &mut StackFrameAllocator,
    syscall_id: u64,
    args: [u64; 3],
    now_us: u64,
) -> (r: SyscallOutcome)
    requires
        old(tm).wf(),
        old(allocator).wf(),
        old(tm).frames_ok(*old(allocator)),
        old(tm).tasks_spec().len() > 0,
        syscall_handled(syscall_id, args@[0]),
    ensures
        final(tm).freed_own_frames(*old(tm), *old(allocator), *final(allocator)),
        final(tm).frames_from_before(*old(tm), *old(allocator), *final(allocator)),
        final(tm).wf(),
        final(allocator).wf(),
        final(tm).frames_ok(*final(allocator)),
        final(tm).current_spec() == old(tm).current_spec(),
        final(tm).statuses() == old(tm).statuses(),
        final(tm).tasks_spec().len() == old(tm).tasks_spec().len(),
        ({
            let c = old(tm).current_spec();
            let n = old(tm).tasks_spec()[c].syscall_times@[syscall_id as int];
            syscall_id < MAX_SYSCALL_NUM ==> final(tm).tasks_spec()[c].syscall_times@ == old(
                tm,
            ).tasks_spec()[c].syscall_times@.update(syscall_id as int, if n < u32::MAX { (n + 1) as u32 } else { n })
        }),
        syscall_id == SYSCALL_TASK_INFO ==> ({
            let c = old(tm).current_spec();
            let t = old(tm).tasks_spec()[c];
            let info = TaskInfo {
                status: t.task_status,
                syscall_times: final(tm).tasks_spec()[c].syscall_times,
                time: task_running_ms(t, now_us),
            };
            let bytes = task_info_bytes(info);
            let m1 = final(tm).tasks_spec()[c].memory_set;
            let ok = args@[0] + bytes.len() <= u64::MAX && forall|j: int| 0 <= j < bytes.len() ==> (#[trigger] t.memory_set.user_byte(args@[0] + j)) is Some;
            &&& r == SyscallOutcome::Return(if ok { 0i64 } else { -1i64 })
            &&& ok ==> forall|j: int| 0 <= j < bytes.len() ==> #[trigger] m1.user_byte(args@[0] + j) == Some(bytes[j])
        }),
        syscall_id == SYSCALL_EXIT ==> r == (SyscallOutcome::Exit { code: args@[0] as i32 }),
        syscall_id == SYSCALL_YIELD ==> r == SyscallOutcome::Yield,
        syscall_id == SYSCALL_READ || syscall_id == SYSCALL_SET_PRIORITY ==> r == SyscallOutcome::Return(-1i64),
        syscall_id == SYSCALL_WRITE ==> ({
            let m = old(tm).tasks_spec()[old(tm).current_spec()].memory_set;
            let (va, len) = (args@[1], args@[2]);
            if va + len <= u64::MAX && forall|j: int| 0 <= j < len ==> (#[trigger] m.user_byte(va + j)) is Some {
                &&& r is Print
                &&& r->Print_value == len as i64
                &&& r->Print_bytes@.len() == len
                &&& forall|j: int| 0 <= j < len ==> Some(#[trigger] r->Print_bytes@[j]) == m.user_byte(va + j)
            } else {
                r == SyscallOutcome::Return(-1i64)
            }
        }),
        syscall_id == SYSCALL_MMAP ==> r == SyscallOutcome::Return(
            if old(tm).tasks_spec()[old(tm).current_spec()].mmap_ok(old(allocator).free_spec(), args@[0], args@[1], args@[2]) { 0i64 } else { -1i64 },
        ),
        syscall_id == SYSCALL_MUNMAP ==> r == SyscallOutcome::Return(
            if args@[0] % 4096 == 0 && args@[0] + args@[1] <= u64::MAX && old(tm).tasks_spec()[old(tm).current_spec()].memory_set.has_framed_area(
                crate::address::floor_spec(args@[0] as int),
                crate::address::ceil_spec(args@[0] + args@[1]),
            ) { 0i64 } else { -1i64 },
        ),
        syscall_id == SYSCALL_MMAP ==> final(tm).mmap_done(*old(tm), r->Return_0, args@[0], args@[1], args@[2]),
        syscall_id == SYSCALL_MUNMAP ==> final(tm).munmap_done(*old(tm), r->Return_0, args@[0], args@[1]),
        syscall_id == SYSCALL_GET_TIME ==> ({
            let m0 = old(tm).tasks_spec()[old(tm).current_spec()].memory_set;
            let m1 = final(tm).tasks_spec()[old(tm).current_spec()].memory_set;
            let t = TimeVal { sec: now_us / 1_000_000, usec: now_us % 1_000_000 };
            let bytes = spec_u64_to_le_bytes(t.sec) + spec_u64_to_le_bytes(t.usec);
            let ok = args@[0] + 16 <= u64::MAX && forall|j: int| 0 <= j < 16 ==> (#[trigger] m0.user_byte(args@[0] + j)) is Some;
            &&& r == SyscallOutcome::Return(if ok { 0i64 } else { -1i64 })
            &&& ok ==> forall|j: int| 0 <= j < 16 ==> #[trigger] m1.user_byte(args@[0] + j) == Some(bytes[j])
        }),
{
    if syscall_id < MAX_SYSCALL_NUM as u64 {
        tm.record_curr_task_syscall_times(syscall_id as usize);
    }
    let ghost t1 = *tm;
    proof {
        old(tm).lemma_wf();
        let c = old(tm).current_spec();
        assert(t1.tasks_spec()[c].memory_set == old(tm).tasks_spec()[c].memory_set);
        lemma_frames_kept(*old(tm), t1, *allocator);
    }
    if syscall_id == SYSCALL_WRITE {
        sys_write(tm, args[0], args[1], args[2])
    } else if syscall_id == SYSCALL_EXIT {
        sys_exit(args[0] as i32)
    } else if syscall_id == SYSCALL_YIELD {
        sys_yield()
    } else if syscall_id == SYSCALL_GET_TIME {
        let r = sys_get_time(tm, args[0], now_us);
        proof {
            lemma_frames_kept(t1, *tm, *allocator);
        }
        SyscallOutcome::Return(r)
    } else if syscall_id == SYSCALL_MUNMAP {
        SyscallOutcome::Return(sys_munmap(tm, allocator, args[0], args[1]))
    } else if syscall_id == SYSCALL_MMAP {
        SyscallOutcome::Return(sys_mmap(tm, allocator, args[0], args[1], args[2]))
    } else if syscall_id == SYSCALL_SET_PRIORITY {
        SyscallOutcome::Return(sys_set_priority(args[0] as i64))
    } else if syscall_id == SYSCALL_READ {
        SyscallOutcome::Return(-1)
    } else {
        let r = sys_task_info(tm, args[0], now_us);
        proof {
            lemma_frames_kept(t1, *tm, *allocator);
            let c = old(tm).current_spec();
            assert(t1.statuses()[c] == old(tm).statuses()[c]);
            assert(task_running_ms(t1.tasks_spec()[c], now_us) == task_running_ms(old(tm).tasks_spec()[c], now_us));
        }
        SyscallOutcome::Return(r)
    }
}

} // verus!
