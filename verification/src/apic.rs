//! The local APIC's numbers, and the one question a trap frame answers.
use vstd::prelude::*;

verus! {

/// The architected local-APIC base, and its message window.
pub const LOCAL_APIC: u64 = 0xfee0_0000;
/// The timer's vector.
pub const TIMER_VECTOR: u8 = 32;
/// The spurious-interrupt vector.
pub const SPURIOUS_VECTOR: u8 = 255;

/// The frame an interrupt stub builds: the general registers, then what
/// `iretq` will read.
#[derive(Clone, Copy)]
pub struct TrapFrame {
    pub rax: u64,
    pub rbx: u64,
    pub rcx: u64,
    pub rdx: u64,
    pub rsi: u64,
    pub rdi: u64,
    pub rbp: u64,
    pub r8: u64,
    pub r9: u64,
    pub r10: u64,
    pub r11: u64,
    pub r12: u64,
    pub r13: u64,
    pub r14: u64,
    pub r15: u64,
    pub rip: u64,
    pub cs: u64,
    pub rflags: u64,
    pub rsp: u64,
    pub ss: u64,
}

impl TrapFrame {
    /// A frame of zeros: what an unused process slot holds.
    pub fn zero() -> (f: TrapFrame)
        ensures
            f.cs == 0 && f.rip == 0 && f.rsp == 0 && f.rflags == 0 && f.ss == 0,
    {
        TrapFrame {
            rax: 0,
            rbx: 0,
            rcx: 0,
            rdx: 0,
            rsi: 0,
            rdi: 0,
            rbp: 0,
            r8: 0,
            r9: 0,
            r10: 0,
            r11: 0,
            r12: 0,
            r13: 0,
            r14: 0,
            r15: 0,
            rip: 0,
            cs: 0,
            rflags: 0,
            rsp: 0,
            ss: 0,
        }
    }

    /// Whether the interrupt was taken in a process rather than in the
    /// nucleus: the privilege level of the interrupted code segment.
    pub fn interrupted_a_process(&self) -> (b: bool)
        ensures
            b == (self.cs & 3 == 3),
    {
        self.cs & 3 == 3
    }
}

} // verus!
