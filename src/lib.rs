//! A small SV39 multitasking kernel: physical frames, page tables, address
//! spaces, tasks, traps and system calls, all verified.
//!
//! Machine words are `u64`. A frame's contents live with its owner: a page
//! table keeps the entries of its nodes, a framed area the bytes of its
//! pages. Every piece of hardware work, writing `satp`, jumping to user
//! mode, programming the timer, printing, is left to the caller, which the
//! kernel's functions tell what to do.

use vstd::prelude::*;

pub mod address;
pub mod config;
pub mod elf;
pub mod frame_allocator;
pub mod kernel;
pub mod memory_set;
pub mod page_table;
pub mod sync;
pub mod syscall;
pub mod task;
pub mod timer;
pub mod trap;

