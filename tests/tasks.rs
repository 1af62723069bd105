use rcore_os::address::{PhysPageNum, VirtPageNum};
use rcore_os::elf::{entry_point, is_elf64, load_segments};
use rcore_os::frame_allocator::{init_frame_allocator, StackFrameAllocator};
use rcore_os::kernel::{Kernel, TrapEvent};
use rcore_os::memory_set::{KernelLayout, MemorySet, TRAMPOLINE_VPN};
use rcore_os::page_table::{PTE_R, PTE_U, PTE_V, PTE_W, PTE_X};
use rcore_os::sync::UnSafeCell;
use rcore_os::syscall::{sys_set_priority, syscall, SyscallOutcome, TaskInfo};
use rcore_os::task::{TaskContext, TaskControlBlock, TaskManager, TaskStatus, __switch, TRAP_CONTEXT_VPN};
use rcore_os::timer::{get_time_micro, get_time_val, set_next_trigger, TimeVal};
use rcore_os::trap::{trap_handler, TrapAction, TrapCause, TrapContext};

/// A 64-bit ELF image with one LOAD segment per entry of `segs`:
/// (virtual address, flags, file bytes, size in memory).
fn elf(segs: &[(u64, u32, Vec<u8>, u64)], entry: u64) -> Vec<u8> {
    let n = segs.len();
    let mut out = vec![0u8; 64 + 56 * n];
    out[0..4].copy_from_slice(&[0x7f, b'E', b'L', b'F']);
    out[4] = 2;
    out[5] = 1;
    out[6] = 1;
    out[16..18].copy_from_slice(&2u16.to_le_bytes());
    out[18..20].copy_from_slice(&0xf3u16.to_le_bytes());
    out[20..24].copy_from_slice(&1u32.to_le_bytes());
    out[24..32].copy_from_slice(&entry.to_le_bytes());
    out[32..40].copy_from_slice(&64u64.to_le_bytes());
    out[52..54].copy_from_slice(&64u16.to_le_bytes());
    out[54..56].copy_from_slice(&56u16.to_le_bytes());
    out[56..58].copy_from_slice(&(n as u16).to_le_bytes());
    let mut offset = (64 + 56 * n) as u64;
    for (i, (vaddr, flags, bytes, memsz)) in segs.iter().enumerate() {
        let ph = 64 + 56 * i;
        out[ph..ph + 4].copy_from_slice(&1u32.to_le_bytes());
        out[ph + 4..ph + 8].copy_from_slice(&flags.to_le_bytes());
        out[ph + 8..ph + 16].copy_from_slice(&offset.to_le_bytes());
        out[ph + 16..ph + 24].copy_from_slice(&vaddr.to_le_bytes());
        out[ph + 24..ph + 32].copy_from_slice(&vaddr.to_le_bytes());
        out[ph + 32..ph + 40].copy_from_slice(&(bytes.len() as u64).to_le_bytes());
        out[ph + 40..ph + 48].copy_from_slice(&memsz.to_le_bytes());
        out[ph + 48..ph + 56].copy_from_slice(&0x1000u64.to_le_bytes());
        offset += bytes.len() as u64;
    }
    for (_, _, bytes, _) in segs {
        out.extend_from_slice(bytes);
    }
    out
}

/// Code at 0x10000 (R|X), and "hello" at 0x11000 (R|W) followed by zeros.
fn app() -> Vec<u8> {
    elf(
        &[(0x10000, 5, vec![0x13, 0, 0, 0], 0x1000), (0x11000, 6, b"hello".to_vec(), 0x2000)],
        0x10000,
    )
}

fn layout() -> KernelLayout {
    KernelLayout {
        stext: 0x8020_0000,
        etext: 0x8020_5123,
        srodata: 0x8020_6000,
        erodata: 0x8020_7800,
        sdata: 0x8020_8000,
        edata: 0x8020_9010,
        sbss_with_stack: 0x8020_a000,
        ebss: 0x8021_f000,
        ekernel: 0x8022_0000,
        strampoline: 0x8020_4000,
    }
}

fn kernel(apps: usize) -> Kernel {
    let images: Vec<Vec<u8>> = (0..apps).map(|_| app()).collect();
    let mut k = Kernel::new(&layout(), &images, 0x8020_1000, 0x8020_2000, 0x122).unwrap();
    let cx = k.task_manager.run_first_task(0);
    assert_eq!(cx.ra, 0x8020_2000);
    k
}

/// Makes the current task ask for system call `id` with `args`.
fn ecall(k: &mut Kernel, id: u64, args: [u64; 3]) {
    let mut cx = k.task_manager.current_trap_cx();
    cx.x[17] = id;
    cx.x[10] = args[0];
    cx.x[11] = args[1];
    cx.x[12] = args[2];
    k.task_manager.set_current_trap_cx(cx);
}

fn result(k: &Kernel) -> i64 {
    k.task_manager.current_trap_cx().x[10] as i64
}

#[test]
fn elf_segments_are_read() {
    let image = app();
    assert!(is_elf64(&image));
    assert_eq!(entry_point(&image), Some(0x10000));
    let segs = load_segments(&image).unwrap();
    assert_eq!(segs.len(), 2);
    assert_eq!(segs[1].vaddr, 0x11000);
    assert_eq!(segs[1].file_size, 5);
    assert_eq!(segs[1].mem_size, 0x2000);
    assert_eq!(segs[1].flags, 6);
    assert!(load_segments(&image[..40]).is_none());
    assert!(load_segments(b"not an elf image at all, not at all, not at all, really not at all").is_none());
}

#[test]
fn user_space_from_elf() {
    let mut a = StackFrameAllocator::new();
    init_frame_allocator(&mut a, 0x8022_0000);
    let (m, sp, entry) = MemorySet::from_elf(&mut a, &app(), PhysPageNum(0x80204)).unwrap();
    assert_eq!(entry, 0x10000);
    // segments end at page 0x13; a guard page, then two stack pages
    assert_eq!(sp, 0x16000);
    let code = m.translate(VirtPageNum(0x10)).unwrap();
    assert_eq!(code.flags().bits, PTE_R | PTE_X | PTE_U | PTE_V);
    let data = m.translate(VirtPageNum(0x12)).unwrap();
    assert_eq!(data.flags().bits, PTE_R | PTE_W | PTE_U | PTE_V);
    assert!(m.translate(VirtPageNum(0x13)).is_none());
    assert!(m.translate(VirtPageNum(0x14)).is_some());
    assert!(m.translate(VirtPageNum(0x15)).is_some());
    assert!(m.translate(VirtPageNum(0x16)).is_none());
    let tc = m.translate(VirtPageNum(TRAP_CONTEXT_VPN)).unwrap();
    assert_eq!(tc.flags().bits, PTE_R | PTE_W | PTE_V);
    assert_eq!(m.translate(VirtPageNum(TRAMPOLINE_VPN)).unwrap().ppn().0, 0x80204);
    assert_eq!(m.read_user_bytes(0x11000, 6).unwrap(), b"hello\0".to_vec());
    assert_eq!(m.read_user_bytes(0x10000, 4).unwrap(), vec![0x13, 0, 0, 0]);
}

#[test]
fn overlapping_segments_are_refused() {
    let mut a = StackFrameAllocator::new();
    init_frame_allocator(&mut a, 0x8022_0000);
    let image = elf(&[(0x10000, 5, vec![1], 0x2000), (0x11000, 6, vec![2], 0x1000)], 0x10000);
    assert!(MemorySet::from_elf(&mut a, &image, PhysPageNum(0x80204)).is_none());
}

#[test]
fn task_control_block_starts_ready() {
    let l = layout();
    let mut a = StackFrameAllocator::new();
    init_frame_allocator(&mut a, l.ekernel);
    let mut ks = MemorySet::new_kernel(&mut a, &l).unwrap();
    let t = TaskControlBlock::new(&mut a, &mut ks, &app(), 1, PhysPageNum(0x80204), 0x8020_1000, 0x8020_2000, 0x122).unwrap();
    assert_eq!(t.task_status, TaskStatus::Ready);
    assert_eq!(t.task_cx.ra, 0x8020_2000);
    assert_eq!(t.task_cx.sp, 0xffff_ffff_ffff_c000);
    let cx = t.trap_cx();
    assert_eq!(cx.sepc, 0x10000);
    assert_eq!(cx.x[2], 0x16000);
    assert_eq!(cx.sstatus, 0x22);
    assert_eq!(cx.kernel_sp, 0xffff_ffff_ffff_c000);
    assert_eq!(cx.kernel_satp, ks.token());
    assert_eq!(cx.trap_handler, 0x8020_1000);
    assert_eq!(t.user_token(), t.memory_set.token());
    assert!(ks.translate(VirtPageNum(0xf_ffff_ffff_fffa)).is_some());
    assert!(ks.translate(VirtPageNum(0xf_ffff_ffff_fffb)).is_some());
    assert!(ks.translate(VirtPageNum(0xf_ffff_ffff_fffc)).is_none());
    assert!(ks.translate(VirtPageNum(0xf_ffff_ffff_fff9)).is_none());
}

#[test]
fn mmap_round_trip() {
    let mut k = kernel(1);
    ecall(&mut k, 222, [0x1000_0000, 0x2000, 0b011]);
    k.handle_trap(TrapCause::UserEnvCall, 0, 0);
    assert_eq!(result(&k), 0);
    ecall(&mut k, 215, [0x1000_0000, 0x2000, 0]);
    k.handle_trap(TrapCause::UserEnvCall, 0, 0);
    assert_eq!(result(&k), 0);
    ecall(&mut k, 222, [0x1000_0000, 0x2000, 0b011]);
    k.handle_trap(TrapCause::UserEnvCall, 0, 0);
    assert_eq!(result(&k), 0);
    ecall(&mut k, 222, [0x1000_0001, 0x1000, 0b011]);
    k.handle_trap(TrapCause::UserEnvCall, 0, 0);
    assert_eq!(result(&k), -1);
    ecall(&mut k, 222, [0x2000_0000, 0x1000, 0]);
    k.handle_trap(TrapCause::UserEnvCall, 0, 0);
    assert_eq!(result(&k), -1);
    ecall(&mut k, 222, [0x1000_1000, 0x2000, 0b001]);
    k.handle_trap(TrapCause::UserEnvCall, 0, 0);
    assert_eq!(result(&k), -1);
    ecall(&mut k, 222, [0x2000_0000, 0x1000, 0b1001]);
    k.handle_trap(TrapCause::UserEnvCall, 0, 0);
    assert_eq!(result(&k), -1);
}

#[test]
fn mmap_gives_user_memory_with_the_asked_rights() {
    let mut k = kernel(1);
    let mut a = std::mem::replace(&mut k.allocator, StackFrameAllocator::new());
    assert_eq!(k.task_manager.mmap(&mut a, 0x1000_0000, 0x1000, 0b101), 0);
    let v = k.task_manager.read_current_user_bytes(0x1000_0000, 2).unwrap();
    assert_eq!(v, vec![0, 0]);
    assert_eq!(k.task_manager.munmap(&mut a, 0x1000_0000, 0x1000), 0);
    assert_eq!(k.task_manager.munmap(&mut a, 0x1000_0000, 0x1000), -1);
    assert!(k.task_manager.read_current_user_bytes(0x1000_0000, 2).is_none());
}

#[test]
fn boot_single_task_exits() {
    let mut k = kernel(1);
    ecall(&mut k, 93, [0, 0, 0]);
    let out = k.handle_trap(TrapCause::UserEnvCall, 0, 0);
    assert_eq!(out.event, TrapEvent::Exited { code: 0 });
    assert!(out.halt);
    assert!(k.task_manager.read_current_user_bytes(0x11000, 1).is_none());
    assert!(out.switch_to.is_none());
    assert_eq!(k.task_manager.get_task_status(0), TaskStatus::Exited);
}

#[test]
fn write_prints_user_bytes() {
    let mut k = kernel(1);
    ecall(&mut k, 64, [1, 0x11000, 5]);
    let out = k.handle_trap(TrapCause::UserEnvCall, 0, 0);
    assert_eq!(out.output, b"hello".to_vec());
    assert!(!out.halt);
    assert_eq!(result(&k), 5);
    ecall(&mut k, 64, [1, 0x5000_0000, 5]);
    let out = k.handle_trap(TrapCause::UserEnvCall, 0, 0);
    assert!(out.output.is_empty());
    assert_eq!(result(&k), -1);
    ecall(&mut k, 64, [2, 0x11000, 5]);
    let out = k.handle_trap(TrapCause::UserEnvCall, 0, 0);
    assert!(out.halt);
    assert_eq!(out.event, TrapEvent::Unhandled);
}

#[test]
fn exit_gives_the_task_frames_back() {
    let mut k = kernel(2);
    let before = k.allocator.free_count();
    ecall(&mut k, 93, [3, 0, 0]);
    let out = k.handle_trap(TrapCause::UserEnvCall, 0, 0);
    assert_eq!(out.event, TrapEvent::Exited { code: 3 });
    // a code page, two data pages, two stack pages, the trap context page
    assert_eq!(k.allocator.free_count(), before + 6);
}

#[test]
fn round_robin_yield() {
    let mut k = kernel(2);
    let mut starts = vec![k.task_manager.current_task()];
    for _ in 0..6 {
        ecall(&mut k, 124, [0, 0, 0]);
        let out = k.handle_trap(TrapCause::UserEnvCall, 0, 0);
        let (prev, next) = out.switch_to.unwrap();
        assert_eq!(prev, *starts.last().unwrap());
        starts.push(next);
        assert_eq!(result(&k), 0);
    }
    assert_eq!(starts, vec![0, 1, 0, 1, 0, 1, 0]);
    ecall(&mut k, 93, [0, 0, 0]);
    let out = k.handle_trap(TrapCause::UserEnvCall, 0, 0);
    assert_eq!(out.switch_to, Some((0, 1)));
    ecall(&mut k, 93, [0, 0, 0]);
    let out = k.handle_trap(TrapCause::UserEnvCall, 0, 0);
    assert!(out.halt);
}

#[test]
fn timer_ticks_alternate_tasks() {
    let mut k = kernel(2);
    let out = k.handle_trap(TrapCause::SupervisorTimer, 0, 1_000_000);
    assert_eq!(out.next_timer, Some(1_125_000));
    assert_eq!(out.switch_to, Some((0, 1)));
    let out = k.handle_trap(TrapCause::SupervisorTimer, 0, 1_125_000);
    assert_eq!(out.switch_to, Some((1, 0)));
    assert_eq!(k.task_manager.get_task_status(0), TaskStatus::Running);
    assert_eq!(k.task_manager.get_task_status(1), TaskStatus::Ready);
}

#[test]
fn illegal_instruction_ends_the_task() {
    let mut k = kernel(2);
    let out = k.handle_trap(TrapCause::IllegalInstruction, 0x1234, 0);
    assert_eq!(out.event, TrapEvent::IllegalInstruction { addr: 0x1234 });
    assert_eq!(out.switch_to, Some((0, 1)));
    assert_eq!(k.task_manager.get_task_status(0), TaskStatus::Exited);
    assert_eq!(k.task_manager.get_task_status(1), TaskStatus::Running);
}

#[test]
fn page_fault_ends_the_task() {
    let mut k = kernel(1);
    let out = k.handle_trap(TrapCause::StorePageFault, 0xdead_beef, 0);
    assert_eq!(out.event, TrapEvent::PageFault { addr: 0xdead_beef, pc: 0x10000 });
    assert!(out.halt);
    assert_eq!(k.task_manager.get_task_status(0), TaskStatus::Exited);
}

#[test]
fn unknown_trap_stops_the_kernel() {
    let mut k = kernel(1);
    let out = k.handle_trap(TrapCause::Other, 0, 0);
    assert!(out.halt);
    assert_eq!(out.event, TrapEvent::Unhandled);
    ecall(&mut k, 999, [0, 0, 0]);
    let out = k.handle_trap(TrapCause::UserEnvCall, 0, 0);
    assert!(out.halt);
}

#[test]
fn get_time_is_monotonic() {
    let mut k = kernel(1);
    let buf = 0x16000 - 32;
    ecall(&mut k, 169, [buf, 0, 0]);
    k.handle_trap(TrapCause::UserEnvCall, 0, 12 * 1_500_000);
    assert_eq!(result(&k), 0);
    let first = k.task_manager.read_current_user_bytes(buf, 16).unwrap();
    let s1 = u64::from_le_bytes(first[0..8].try_into().unwrap());
    let u1 = u64::from_le_bytes(first[8..16].try_into().unwrap());
    assert_eq!((s1, u1), (1, 500_000));
    ecall(&mut k, 169, [buf, 0, 0]);
    k.handle_trap(TrapCause::UserEnvCall, 0, 12 * 2_000_001);
    let second = k.task_manager.read_current_user_bytes(buf, 16).unwrap();
    let s2 = u64::from_le_bytes(second[0..8].try_into().unwrap());
    let u2 = u64::from_le_bytes(second[8..16].try_into().unwrap());
    assert!((s2, u2) >= (s1, u1));
    assert_eq!((s2, u2), (2, 1));
    ecall(&mut k, 169, [0x5000_0000, 0, 0]);
    k.handle_trap(TrapCause::UserEnvCall, 0, 0);
    assert_eq!(result(&k), -1);
}

#[test]
fn task_info_reports_status_and_calls() {
    let mut k = kernel(1);
    let buf = 0x16000 - 2016;
    ecall(&mut k, 124 + 0, [0, 0, 0]);
    k.handle_trap(TrapCause::UserEnvCall, 0, 0);
    ecall(&mut k, 410, [buf, 0, 0]);
    k.handle_trap(TrapCause::UserEnvCall, 0, 12 * 5000);
    assert_eq!(result(&k), 0);
    let b = k.task_manager.read_current_user_bytes(buf, 2016).unwrap();
    assert_eq!(u32::from_le_bytes(b[0..4].try_into().unwrap()), 2);
    let at = |id: usize| u32::from_le_bytes(b[4 + 4 * id..8 + 4 * id].try_into().unwrap());
    assert_eq!(at(124), 1);
    assert_eq!(at(410), 1);
    assert_eq!(at(64), 0);
    assert_eq!(u64::from_le_bytes(b[2008..2016].try_into().unwrap()), 5);
}

#[test]
fn set_priority_and_read_are_refused() {
    let mut k = kernel(1);
    assert_eq!(sys_set_priority(3), -1);
    let mut a = std::mem::replace(&mut k.allocator, StackFrameAllocator::new());
    match syscall(&mut k.task_manager, &mut a, 63, [0, 0, 0], 0) {
        SyscallOutcome::Return(v) => assert_eq!(v, -1),
        other => panic!("unexpected {:?}", other),
    }
    match syscall(&mut k.task_manager, &mut a, 140, [0, 0, 0], 0) {
        SyscallOutcome::Return(v) => assert_eq!(v, -1),
        other => panic!("unexpected {:?}", other),
    }
}

#[test]
fn switch_round_trip() {
    let mut regs = TaskContext { ra: 1, sp: 2, s: [3; 12] };
    let mut a = TaskContext::init();
    let mut b = TaskContext::goto_trap_return(0x9000, 0x42);
    __switch(&mut a, &b, &mut regs);
    assert_eq!(regs.ra, 0x42);
    assert_eq!(regs.sp, 0x9000);
    let saved = a;
    __switch(&mut b, &saved, &mut regs);
    assert_eq!(regs.ra, 1);
    assert_eq!(regs.sp, 2);
    assert_eq!(regs.s, [3; 12]);
    let r = TaskContext::goto_restore(7, 8);
    assert_eq!((r.ra, r.sp, r.s), (8, 7, [0; 12]));
}

#[test]
fn find_next_visits_every_ready_task() {
    let mut k = kernel(3);
    let mut seen = vec![];
    for _ in 0..3 {
        let (_, next) = k.task_manager.suspend_current_and_run_next(0);
        seen.push(next);
    }
    assert_eq!(seen, vec![1, 2, 0]);
    k.task_manager.mark_current_exited(5);
    assert_eq!(k.task_manager.find_next_task(), Some(1));
    assert_eq!(k.task_manager.get_curr_task_status(), TaskStatus::Exited);
}

#[test]
fn find_next_with_no_ready_task() {
    let mut k = kernel(1);
    k.task_manager.mark_current_exited(3);
    assert_eq!(k.task_manager.find_next_task(), None);
}

#[test]
fn running_time_and_call_counts() {
    let mut k = kernel(1);
    assert_eq!(k.task_manager.get_curr_task_running_time(2500), 2500);
    k.task_manager.record_curr_task_syscall_times(64);
    k.task_manager.record_curr_task_syscall_times(64);
    assert_eq!(k.task_manager.get_curr_task_syscall_times()[64], 2);
    k.task_manager.mark_current_exited(4000);
    assert_eq!(k.task_manager.get_curr_task_running_time(9000), 4000);
    assert_eq!(k.task_manager.num_apps(), 1);
}

#[test]
fn trap_handler_decodes_a_system_call() {
    let mut cx = TrapContext::app_init_context(0x1000, 0x8000, 0x100, 1, 2, 3);
    assert_eq!(cx.sstatus, 0);
    assert_eq!(cx.x[2], 0x8000);
    cx.x[17] = 64;
    cx.x[10] = 1;
    cx.x[11] = 0x2000;
    cx.x[12] = 3;
    let a = trap_handler(&mut cx, TrapCause::UserEnvCall, 0);
    assert_eq!(a, TrapAction::Syscall { id: 64, a0: 1, a1: 0x2000, a2: 3 });
    assert_eq!(cx.sepc, 0x1004);
    let a = trap_handler(&mut cx, TrapCause::LoadPageFault, 0xbad);
    assert_eq!(a, TrapAction::PageFault { addr: 0xbad, pc: 0x1004 });
    assert_eq!(cx.sepc, 0x1004);
    assert_eq!(trap_handler(&mut cx, TrapCause::SupervisorTimer, 0), TrapAction::Tick);
    cx.set_sp(5);
    assert_eq!(cx.x[2], 5);
}

#[test]
fn restore_address_in_the_trampoline() {
    assert_eq!(rcore_os::trap::restore_va(0xffff_ffff_ffff_f000, 0x8020_4000, 0x8020_4060), 0xffff_ffff_ffff_f060);
}

#[test]
fn time_values() {
    assert_eq!(get_time_micro(12_000_000), 1_000_000);
    let t = get_time_val(3_000_042);
    assert_eq!((t.sec, t.usec), (3, 42));
    let a = TimeVal { sec: 1, usec: 700_000 };
    let b = TimeVal { sec: 2, usec: 600_000 };
    let s = a.add(b);
    assert_eq!((s.sec, s.usec), (4, 300_000));
    let d = b.sub(a);
    assert_eq!((d.sec, d.usec), (0, 900_000));
    let z = a.sub(b);
    assert_eq!((z.sec, z.usec), (0, 0));
    let e = TimeVal { sec: 5, usec: 10 }.sub(TimeVal { sec: 5, usec: 4 });
    assert_eq!((e.sec, e.usec), (0, 6));
    assert_eq!(TimeVal { sec: 1, usec: 2 }.as_bytes(), vec![1, 0, 0, 0, 0, 0, 0, 0, 2, 0, 0, 0, 0, 0, 0, 0]);
    assert_eq!(TimeVal::new(), TimeVal { sec: 0, usec: 0 });
    assert_eq!(set_next_trigger(1000), 126_000);
}

#[test]
fn task_info_layout() {
    let info = TaskInfo::new();
    assert_eq!(info.status, TaskStatus::UnInit);
    assert_eq!(info.syscall_times.len(), 500);
    let b = info.as_bytes();
    assert_eq!(b.len(), 2016);
    assert!(b.iter().all(|x| *x == 0));
}

#[test]
fn exclusive_access_holds_the_borrow() {
    let mut c = UnSafeCell::new(5u32);
    assert!(!c.is_held());
    c.exclusive_access();
    assert!(c.is_held());
    assert_eq!(*c.get(), 5);
    c.set(6);
    c.release();
    assert!(!c.is_held());
    c.exclusive_access();
    assert_eq!(*c.get(), 6);
}

#[test]
fn empty_task_manager_has_nothing_to_run() {
    let tm = TaskManager::new(Vec::new());
    assert_eq!(tm.num_apps(), 0);
    assert!(tm.find_next_task().is_none());
}

#[test]
fn elf_fields_are_read_little_endian() {
    let image = elf(&[(0x10000, 5, vec![7; 3], 0x1800)], 0x10123);
    assert_eq!(entry_point(&image), Some(0x10123));
    let segs = load_segments(&image).unwrap();
    assert_eq!((segs[0].vaddr, segs[0].mem_size, segs[0].file_size, segs[0].offset, segs[0].flags), (0x10000, 0x1800, 3, 120, 5));
    let misaligned: Vec<u8> = std::iter::once(0u8).chain(image.iter().copied()).collect();
    assert_eq!(load_segments(&misaligned[1..]).unwrap()[0].vaddr, 0x10000);
    assert!(rcore_os::elf::has_elf_magic(&image));
    assert!(!rcore_os::elf::has_elf_magic(b"\x7fEL"));
}

#[test]
fn unaligned_segment_is_copied_at_its_offset() {
    let mut a = StackFrameAllocator::new();
    init_frame_allocator(&mut a, 0x8022_0000);
    let image = elf(&[(0x10ff8, 6, b"0123456789abcdef".to_vec(), 0x20)], 0x10ff8);
    let (m, sp, entry) = MemorySet::from_elf(&mut a, &image, PhysPageNum(0x80204)).unwrap();
    assert_eq!(entry, 0x10ff8);
    assert_eq!(sp, 0x15000);
    assert_eq!(m.read_user_bytes(0x10ff0, 8).unwrap(), vec![0; 8]);
    assert_eq!(m.read_user_bytes(0x10ff8, 16).unwrap(), b"0123456789abcdef".to_vec());
    assert_eq!(m.read_user_bytes(0x11008, 8).unwrap(), vec![0; 8]);
}
