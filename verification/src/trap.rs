//! The register frame that an interrupt, exception or system call saves.

use vstd::prelude::*;

verus! {

/// The saved registers of an interrupted context.
#[derive(Clone, Copy, Debug, PartialEq, Eq, Structural)]
pub struct TrapFrame {
    /// RAX: system call number and return value.
    pub rax: u64,
    /// RBX.
    pub rbx: u64,
    /// RCX: user return address on `syscall` entry.
    pub rcx: u64,
    /// RDX: third system call argument.
    pub rdx: u64,
    /// RSI: second system call argument.
    pub rsi: u64,
    /// RDI: first system call argument.
    pub rdi: u64,
    /// RBP.
    pub rbp: u64,
    /// R8: fifth system call argument.
    pub r8: u64,
    /// R9: sixth system call argument.
    pub r9: u64,
    /// R10: fourth system call argument.
    pub r10: u64,
    /// R11: user flags on `syscall` entry.
    pub r11: u64,
    /// R12.
    pub r12: u64,
    /// R13.
    pub r13: u64,
    /// R14.
    pub r14: u64,
    /// R15.
    pub r15: u64,
    /// Instruction pointer to return to.
    pub rip: u64,
    /// Code segment selector.
    pub cs: u64,
    /// Flags register.
    pub rflags: u64,
    /// Stack pointer.
    pub rsp: u64,
    /// Stack segment selector.
    pub ss: u64,
}

impl TrapFrame {
    /// A frame with every register zero.
    pub fn zeroed() -> (f: TrapFrame)
        ensures
            f == (TrapFrame { rax: 0, rbx: 0, rcx: 0, rdx: 0, rsi: 0, rdi: 0, rbp: 0, r8: 0, r9: 0, r10: 0,
                r11: 0, r12: 0, r13: 0, r14: 0, r15: 0, rip: 0, cs: 0, rflags: 0, rsp: 0, ss: 0 }),
    {
        TrapFrame { rax: 0, rbx: 0, rcx: 0, rdx: 0, rsi: 0, rdi: 0, rbp: 0, r8: 0, r9: 0, r10: 0,
            r11: 0, r12: 0, r13: 0, r14: 0, r15: 0, rip: 0, cs: 0, rflags: 0, rsp: 0, ss: 0 }
    }
}

} // verus!
