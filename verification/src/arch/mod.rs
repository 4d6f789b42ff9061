//! Architecture data: the register frame of a system call and the segment
//! selectors of the descriptor table.

use vstd::prelude::*;

verus! {

/// The registers a system call leaves on the stack, lowest address first.
pub struct SyscallStack {
    pub fs: u64,
    pub r11: u64,
    pub r10: u64,
    pub r9: u64,
    pub r8: u64,
    pub rsi: u64,
    pub rdi: u64,
    pub rdx: u64,
    pub rcx: u64,
    pub rip: u64,
    pub cs: u64,
    pub rflags: u64,
}

/// Selectors of the kernel code segment and of the task-state segment in the
/// global descriptor table.
pub struct Selectors {
    pub code_selector: u16,
    pub tss_selector: u16,
}

} // verus!
