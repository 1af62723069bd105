//! Fixed sizes and addresses of the kernel.

use vstd::prelude::*;

verus! {

pub const USER_STACK_SIZE: u64 = 0x2000;

pub const KERNEL_STACK_SIZE: u64 = 0x2000;

pub const MEMORY_END: u64 = 0x8080_0000;

pub const APP_BASE_ADDRESS: u64 = 0x8040_0000;

pub const PAGE_SIZE: u64 = 0x1000;

pub const PAGE_SIZE_BITS: u64 = 12;

pub const MAX_SYSCALL_NUM: usize = 500;

pub const MAX_APP_NUM: usize = 16;

/// The highest virtual page, shared by every address space.
pub const TRAMPOLINE: u64 = 0xffff_ffff_ffff_f000;

/// The page just below the trampoline, where a task's trap context lives.
pub const TRAP_CONTEXT: u64 = 0xffff_ffff_ffff_e000;

pub const CLOCK_FREQ: u64 = 12_500_000;

pub const TICKS_PER_SEC: u64 = 100;

pub const MICRO_PER_SEC: u64 = 1_000_000;

/// Bottom and top of the kernel stack of an application: stacks grow down
/// from just below the trampoline, one guard page between two of them.
pub open spec fn kernel_stack_spec(app_id: int) -> (int, int) {
    let top = TRAMPOLINE - app_id * (KERNEL_STACK_SIZE + PAGE_SIZE);
    (top - KERNEL_STACK_SIZE, top)
}

pub fn kernel_stack_position(app_id: usize) -> (r: (u64, u64))
    requires
        app_id < MAX_APP_NUM,
    ensures
        r.0 == kernel_stack_spec(app_id as int).0,
        r.1 == kernel_stack_spec(app_id as int).1,
        r.1 - r.0 == KERNEL_STACK_SIZE,
{
    assert((app_id as u64) * 0x3000 <= 16 * 0x3000) by (nonlinear_arith)
        requires app_id < 16;
    let top = TRAMPOLINE - (app_id as u64) * (KERNEL_STACK_SIZE + PAGE_SIZE);
    let bottom = top - KERNEL_STACK_SIZE;
    (bottom, top)
}

} // verus!
