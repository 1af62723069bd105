//! Trap contexts and the decisions of the trap handler.

use vstd::prelude::*;

verus! {

/// The bit of `sstatus` that holds the privilege level a trap came from.
pub const SSTATUS_SPP: u64 = 0x100;

/// The registers of a user task saved on a trap, and what the trap entry
/// needs to reach the kernel: its `satp`, the task's kernel stack top and
/// the handler's address.
#[derive(Clone, Copy, Debug)]
pub struct TrapContext {
    pub x: [u64; 32],
    pub sstatus: u64,
    pub sepc: u64,
    pub kernel_satp: u64,
    pub kernel_sp: u64,
    pub trap_handler: u64,
}

impl TrapContext {
    /// Sets the stack pointer, `x2`.
    pub fn set_sp(&mut self, sp: u64)
        ensures
            final(self).x@ == old(self).x@.update(2, sp),
            final(self).sstatus == old(self).sstatus,
            final(self).sepc == old(self).sepc,
            final(self).kernel_satp == old(self).kernel_satp,
            final(self).kernel_sp == old(self).kernel_sp,
            final(self).trap_handler == old(self).trap_handler,
    {
        self.x[2] = sp;
    }

    /// The context that a task first enters user mode with: all registers
    /// zero but the stack pointer, `sepc` at the entry point, and the
    /// previous privilege in `sstatus` set to user.
    pub fn app_init_context(
        entry: u64,
        sp: u64,
        sstatus: u64,
        kernel_satp: u64,
        kernel_sp: u64,
        trap_handler: u64,
    ) -> (r: Self)
        ensures
            r.x@ == Seq::new(32, |i: int| if i == 2 { sp } else { 0u64 }),
            r.sstatus == sstatus & !SSTATUS_SPP,
            r.sepc == entry,
            r.kernel_satp == kernel_satp,
            r.kernel_sp == kernel_sp,
            r.trap_handler == trap_handler,
    {
        let mut cx = TrapContext {
            x: [0u64; 32],
            sstatus: sstatus & !SSTATUS_SPP,
            sepc: entry,
            kernel_satp,
            kernel_sp,
            trap_handler,
        };
        cx.set_sp(sp);
        proof {
            assert(cx.x@ =~= Seq::new(32, |i: int| if i == 2 { sp } else { 0u64 }));
        }
        cx
    }
}

/// Why the hart trapped into the kernel.
#[derive(Clone, Copy, Debug, PartialEq, Eq, Structural)]
pub enum TrapCause {
    UserEnvCall,
    StoreFault,
    StorePageFault,
    LoadPageFault,
    IllegalInstruction,
    SupervisorTimer,
    Other,
}

/// What the kernel does about a trap once the system call, if any, has
/// been carried out.
#[derive(Clone, Copy, Debug, PartialEq, Eq, Structural)]
pub enum TrapAction {
    /// Run the system call `id` with the arguments `a0..a2`; its result
    /// goes to `x10`.
    Syscall { id: u64, a0: u64, a1: u64, a2: u64 },
    /// The task faulted on a memory access at `addr`: end it.
    PageFault { addr: u64, pc: u64 },
    /// The task ran an instruction it may not: end it.
    IllegalInstruction { addr: u64 },
    /// A timer tick: program the next one and switch tasks.
    Tick,
    /// A trap the kernel cannot handle: stop.
    Fatal,
}

/// The handler's decision for a trap from user mode: a system call steps
/// `sepc` over the `ecall` and takes its id from `x17` and its arguments
/// from `x10..x12`.
pub fn trap_handler(cx: &mut TrapContext, cause: TrapCause, stval: u64) -> (r: TrapAction)
    ensures
        cause == TrapCause::UserEnvCall ==> final(cx).sepc == old(cx).sepc.wrapping_add(4) && r
            == (TrapAction::Syscall { id: old(cx).x@[17], a0: old(cx).x@[10], a1: old(cx).x@[11], a2: old(cx).x@[12] }),
        cause != TrapCause::UserEnvCall ==> final(cx).sepc == old(cx).sepc,
        final(cx).x == old(cx).x,
        final(cx).sstatus == old(cx).sstatus,
        (cause == TrapCause::StoreFault || cause == TrapCause::StorePageFault || cause == TrapCause::LoadPageFault)
            ==> r == (TrapAction::PageFault { addr: stval, pc: old(cx).sepc }),
        cause == TrapCause::IllegalInstruction ==> r == (TrapAction::IllegalInstruction { addr: stval }),
        cause == TrapCause::SupervisorTimer ==> r == TrapAction::Tick,
        cause == TrapCause::Other ==> r == TrapAction::Fatal,
{
    match cause {
        TrapCause::UserEnvCall => {
            cx.sepc = cx.sepc.wrapping_add(4);
            TrapAction::Syscall { id: cx.x[17], a0: cx.x[10], a1: cx.x[11], a2: cx.x[12] }
        },
        TrapCause::StoreFault | TrapCause::StorePageFault | TrapCause::LoadPageFault => {
            TrapAction::PageFault { addr: stval, pc: cx.sepc }
        },
        TrapCause::IllegalInstruction => TrapAction::IllegalInstruction { addr: stval },
        TrapCause::SupervisorTimer => TrapAction::Tick,
        TrapCause::Other => TrapAction::Fatal,
    }
}

/// Stores a system call's result in `x10`.
pub fn set_return_value(cx: &mut TrapContext, value: i64)
    ensures
        final(cx).x@ == old(cx).x@.update(10, value as u64),
        final(cx).sepc == old(cx).sepc,
        final(cx).sstatus == old(cx).sstatus,
{
    cx.x[10] = value as u64;
}

/// The address of `__restore` in the trampoline page: the trampoline is
/// mapped at `trampoline`, and `__restore` lies `restore - alltraps` bytes
/// after `__alltraps`, the start of the page.
pub fn restore_va(trampoline: u64, alltraps: u64, restore: u64) -> (r: u64)
    requires
        alltraps <= restore,
        restore - alltraps < 4096,
        trampoline + 4096 <= u64::MAX + 1,
    ensures
        r == trampoline + (restore - alltraps),
{
    trampoline + (restore - alltraps)
}

} // verus!
