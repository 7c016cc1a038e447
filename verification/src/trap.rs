//! What the hardware saves and reports on a trap: the registers of the
//! interrupted code and the cause.
use vstd::prelude::*;
use crate::manager::MemoryManager;
use crate::paging::entry::{in_kernel_half, sign_extend, PageTableEntry, VirtualAddress};
use crate::manager::fault_bits;

verus! {

/// The general purpose registers, as the trap entry code saves them.
#[derive(Clone, Copy, Default)]
pub struct GeneralRegisters {
    pub ra: usize,
    pub sp: usize,
    pub gp: usize,
    pub tp: usize,
    pub t0: usize,
    pub t1: usize,
    pub t2: usize,
    pub s0: usize,
    pub s1: usize,
    pub a0: usize,
    pub a1: usize,
    pub a2: usize,
    pub a3: usize,
    pub a4: usize,
    pub a5: usize,
    pub a6: usize,
    pub a7: usize,
    pub s2: usize,
    pub s3: usize,
    pub s4: usize,
    pub s5: usize,
    pub s6: usize,
    pub s7: usize,
    pub s8: usize,
    pub s9: usize,
    pub s10: usize,
    pub s11: usize,
    pub t3: usize,
    pub t4: usize,
    pub t5: usize,
    pub t6: usize,
}

impl GeneralRegisters {
    /// The stack pointer.
    pub fn sp(&self) -> (r: usize)
        ensures
            r == self.sp,
    {
        self.sp
    }
}

/// The floating point registers `f0` to `f31`, as raw bits, and the
/// control and status register.
#[derive(Debug, Clone, Copy, Default)]
pub struct FloatingPointRegisters {
    pub registers: [usize; 32],
    pub fscr: usize,
}

/// What the trap entry code saves: the interrupted program counter and the
/// general registers.
#[derive(Clone, Copy, Default)]
pub struct TrapFrame {
    pub sepc: usize,
    pub registers: GeneralRegisters,
}

impl core::ops::Deref for TrapFrame {
    type Target = GeneralRegisters;

    fn deref(&self) -> (r: &GeneralRegisters)
        ensures
            *r == self.registers,
    {
        &self.registers
    }
}

/// The top bit of a cause, set for interrupts.
pub const INTERRUPT_BIT: u64 = 0x8000_0000_0000_0000;

/// The causes of a trap.
#[derive(Debug, Copy, Clone, PartialEq, Eq, Structural)]
pub enum Trap {
    UserSoftwareInterrupt,
    SupervisorSoftwareInterrupt,
    MachineSoftwareInterrupt,
    UserTimerInterrupt,
    SupervisorTimerInterrupt,
    MachineTimerInterrupt,
    UserExternalInterrupt,
    SupervisorExternalInterrupt,
    MachineExternalInterrupt,
    InstructionAddressMisaligned,
    InstructionAccessFault,
    IllegalInstruction,
    Breakpoint,
    LoadAddressMisaligned,
    LoadAccessFault,
    StoreAddressMisaligned,
    StoreAccessFault,
    UserModeEnvironmentCall,
    SupervisorModeEnvironmentCall,
    MachineModeEnvironmentCall,
    InstructionPageFault,
    LoadPageFault,
    StorePageFault,
    Reserved,
}

impl Trap {
    /// The cause register's value for this trap; `Reserved` stands for all
    /// other values and reads as all ones.
    pub open spec fn cause(self) -> u64 {
        match self {
            Trap::UserSoftwareInterrupt => 0x8000_0000_0000_0000,
            Trap::SupervisorSoftwareInterrupt => 0x8000_0000_0000_0001,
            Trap::MachineSoftwareInterrupt => 0x8000_0000_0000_0003,
            Trap::UserTimerInterrupt => 0x8000_0000_0000_0004,
            Trap::SupervisorTimerInterrupt => 0x8000_0000_0000_0005,
            Trap::MachineTimerInterrupt => 0x8000_0000_0000_0007,
            Trap::UserExternalInterrupt => 0x8000_0000_0000_0008,
            Trap::SupervisorExternalInterrupt => 0x8000_0000_0000_0009,
            Trap::MachineExternalInterrupt => 0x8000_0000_0000_000B,
            Trap::InstructionAddressMisaligned => 0,
            Trap::InstructionAccessFault => 1,
            Trap::IllegalInstruction => 2,
            Trap::Breakpoint => 3,
            Trap::LoadAddressMisaligned => 4,
            Trap::LoadAccessFault => 5,
            Trap::StoreAddressMisaligned => 6,
            Trap::StoreAccessFault => 7,
            Trap::UserModeEnvironmentCall => 8,
            Trap::SupervisorModeEnvironmentCall => 9,
            Trap::MachineModeEnvironmentCall => 11,
            Trap::InstructionPageFault => 12,
            Trap::LoadPageFault => 13,
            Trap::StorePageFault => 15,
            Trap::Reserved => u64::MAX,
        }
    }

    /// The cause register's value for this trap.
    pub fn value(self) -> (r: u64)
        ensures
            r == self.cause(),
    {
        match self {
            Trap::UserSoftwareInterrupt => 0x8000_0000_0000_0000,
            Trap::SupervisorSoftwareInterrupt => 0x8000_0000_0000_0001,
            Trap::MachineSoftwareInterrupt => 0x8000_0000_0000_0003,
            Trap::UserTimerInterrupt => 0x8000_0000_0000_0004,
            Trap::SupervisorTimerInterrupt => 0x8000_0000_0000_0005,
            Trap::MachineTimerInterrupt => 0x8000_0000_0000_0007,
            Trap::UserExternalInterrupt => 0x8000_0000_0000_0008,
            Trap::SupervisorExternalInterrupt => 0x8000_0000_0000_0009,
            Trap::MachineExternalInterrupt => 0x8000_0000_0000_000B,
            Trap::InstructionAddressMisaligned => 0,
            Trap::InstructionAccessFault => 1,
            Trap::IllegalInstruction => 2,
            Trap::Breakpoint => 3,
            Trap::LoadAddressMisaligned => 4,
            Trap::LoadAccessFault => 5,
            Trap::StoreAddressMisaligned => 6,
            Trap::StoreAccessFault => 7,
            Trap::UserModeEnvironmentCall => 8,
            Trap::SupervisorModeEnvironmentCall => 9,
            Trap::MachineModeEnvironmentCall => 11,
            Trap::InstructionPageFault => 12,
            Trap::LoadPageFault => 13,
            Trap::StorePageFault => 15,
            Trap::Reserved => u64::MAX,
        }
    }

    /// The trap a cause register value reports: the one whose cause it is,
    /// `Reserved` when none is.
    pub fn from_cause(cause: u64) -> (r: Trap)
        ensures
            r != Trap::Reserved ==> r.cause() == cause,
            r == Trap::Reserved <==> (forall|t: Trap| t != Trap::Reserved ==> #[trigger] t.cause() != cause),
    {
        let r = match cause {
            0x8000_0000_0000_0000 => Trap::UserSoftwareInterrupt,
            0x8000_0000_0000_0001 => Trap::SupervisorSoftwareInterrupt,
            0x8000_0000_0000_0003 => Trap::MachineSoftwareInterrupt,
            0x8000_0000_0000_0004 => Trap::UserTimerInterrupt,
            0x8000_0000_0000_0005 => Trap::SupervisorTimerInterrupt,
            0x8000_0000_0000_0007 => Trap::MachineTimerInterrupt,
            0x8000_0000_0000_0008 => Trap::UserExternalInterrupt,
            0x8000_0000_0000_0009 => Trap::SupervisorExternalInterrupt,
            0x8000_0000_0000_000B => Trap::MachineExternalInterrupt,
            0 => Trap::InstructionAddressMisaligned,
            1 => Trap::InstructionAccessFault,
            2 => Trap::IllegalInstruction,
            3 => Trap::Breakpoint,
            4 => Trap::LoadAddressMisaligned,
            5 => Trap::LoadAccessFault,
            6 => Trap::StoreAddressMisaligned,
            7 => Trap::StoreAccessFault,
            8 => Trap::UserModeEnvironmentCall,
            9 => Trap::SupervisorModeEnvironmentCall,
            11 => Trap::MachineModeEnvironmentCall,
            12 => Trap::InstructionPageFault,
            13 => Trap::LoadPageFault,
            15 => Trap::StorePageFault,
            _ => Trap::Reserved,
        };
        proof {
            if r != Trap::Reserved {
                assert(r.cause() == cause);
            }
            if r == Trap::Reserved {
                assert forall|t: Trap| t != Trap::Reserved implies #[trigger] t.cause() != cause by {
                    match t {
                        Trap::UserSoftwareInterrupt => {},
                        Trap::SupervisorSoftwareInterrupt => {},
                        Trap::MachineSoftwareInterrupt => {},
                        Trap::UserTimerInterrupt => {},
                        Trap::SupervisorTimerInterrupt => {},
                        Trap::MachineTimerInterrupt => {},
                        Trap::UserExternalInterrupt => {},
                        Trap::SupervisorExternalInterrupt => {},
                        Trap::MachineExternalInterrupt => {},
                        Trap::InstructionAddressMisaligned => {},
                        Trap::InstructionAccessFault => {},
                        Trap::IllegalInstruction => {},
                        Trap::Breakpoint => {},
                        Trap::LoadAddressMisaligned => {},
                        Trap::LoadAccessFault => {},
                        Trap::StoreAddressMisaligned => {},
                        Trap::StoreAccessFault => {},
                        Trap::UserModeEnvironmentCall => {},
                        Trap::SupervisorModeEnvironmentCall => {},
                        Trap::MachineModeEnvironmentCall => {},
                        Trap::InstructionPageFault => {},
                        Trap::LoadPageFault => {},
                        Trap::StorePageFault => {},
                        Trap::Reserved => {},
                    }
                }
            }
        }
        r
    }
}

/// What the kernel does about a trap.
#[derive(Debug, Clone, Copy, PartialEq, Eq, Structural)]
pub enum TrapAction {
    /// The timer fired: the current task goes back to ready and another is
    /// scheduled.
    Reschedule,
    /// A user system call: handle it, then step past the call or block.
    Syscall,
    /// An external interrupt: claim it and run its handler.
    ExternalInterrupt,
    /// A page fault while the kernel ran: a bug in the kernel.
    KernelFault,
    /// A page fault in user code: resolve it or end the task.
    UserFault,
    /// Any other trap, which the kernel does not handle.
    Unhandled,
}

/// What the kernel does about a trap of `kind` taken at a program counter
/// in the kernel half or not.
pub open spec fn action_for(kind: Trap, pc_in_kernel: bool) -> TrapAction {
    match kind {
        Trap::SupervisorTimerInterrupt => TrapAction::Reschedule,
        Trap::UserModeEnvironmentCall => TrapAction::Syscall,
        Trap::SupervisorExternalInterrupt => TrapAction::ExternalInterrupt,
        Trap::LoadPageFault | Trap::StorePageFault | Trap::InstructionPageFault => if pc_in_kernel {
            TrapAction::KernelFault
        } else {
            TrapAction::UserFault
        },
        _ => TrapAction::Unhandled,
    }
}

/// Different traps have different causes, and a cause marks an interrupt
/// exactly when its top bit is set.
pub proof fn lemma_causes_distinct(a: Trap, b: Trap)
    requires
        a != Trap::Reserved,
        b != Trap::Reserved,
    ensures
        a != b ==> a.cause() != b.cause(),
        a.cause() >= 0x8000_0000_0000_0000 <==> (a is UserSoftwareInterrupt || a is SupervisorSoftwareInterrupt
            || a is MachineSoftwareInterrupt || a is UserTimerInterrupt || a is SupervisorTimerInterrupt
            || a is MachineTimerInterrupt || a is UserExternalInterrupt || a is SupervisorExternalInterrupt
            || a is MachineExternalInterrupt),
{
}

/// What the kernel does, by the cause register's value: the supervisor
/// timer interrupt (cause 5 with the top bit set) reschedules, an
/// environment call from user mode (cause 8) is a system call, the
/// supervisor external interrupt (cause 9 with the top bit set) goes to
/// its handler, an instruction, load or store page fault (causes 12, 13
/// and 15) is a fault of the kernel when the program counter is in the
/// kernel half and of the task otherwise, and any other trap is not
/// handled.
pub proof fn lemma_trap_actions(kind: Trap, pc_in_kernel: bool)
    requires
        kind != Trap::Reserved,
    ensures
        action_for(kind, pc_in_kernel) == TrapAction::Reschedule <==> kind.cause() == 0x8000_0000_0000_0005,
        action_for(kind, pc_in_kernel) == TrapAction::Syscall <==> kind.cause() == 8,
        action_for(kind, pc_in_kernel) == TrapAction::ExternalInterrupt <==> kind.cause() == 0x8000_0000_0000_0009,
        action_for(kind, pc_in_kernel) == TrapAction::KernelFault <==> pc_in_kernel && (kind.cause() == 12
            || kind.cause() == 13 || kind.cause() == 15),
        action_for(kind, pc_in_kernel) == TrapAction::UserFault <==> !pc_in_kernel && (kind.cause() == 12
            || kind.cause() == 13 || kind.cause() == 15),
{
}

/// Decides what the kernel does about a trap of `kind` taken at a program
/// counter in the kernel half (`pc_in_kernel`) or not.
pub fn trap_action(kind: Trap, pc_in_kernel: bool) -> (r: TrapAction)
    ensures
        r == action_for(kind, pc_in_kernel),
{
    match kind {
        Trap::SupervisorTimerInterrupt => TrapAction::Reschedule,
        Trap::UserModeEnvironmentCall => TrapAction::Syscall,
        Trap::SupervisorExternalInterrupt => TrapAction::ExternalInterrupt,
        Trap::LoadPageFault | Trap::StorePageFault | Trap::InstructionPageFault => if pc_in_kernel {
            TrapAction::KernelFault
        } else {
            TrapAction::UserFault
        },
        _ => TrapAction::Unhandled,
    }
}

/// What the trap entry code does once the handler has decided.
#[derive(Debug, Clone, Copy, PartialEq, Eq, Structural)]
pub enum Handled {
    /// Schedule another task; the current one is ready.
    Reschedule,
    /// Run the system call handler on the saved registers.
    Syscall,
    /// Claim the external interrupt and run its handler.
    ExternalInterrupt,
    /// The page fault was resolved: flush the page's translation and return
    /// to the task.
    Resumed,
    /// The task faulted on memory it may not use; it dies.
    KillTask,
    /// The kernel faulted, or took a trap it does not handle.
    KernelBug,
}

/// What the handler does about a trap of `kind` taken at `sepc` with the
/// fault address `stval`, in a task whose memory is `m`.
pub open spec fn handled_for(m: MemoryManager, kind: Trap, sepc: u64, stval: u64) -> Handled {
    match action_for(kind, in_kernel_half(sign_extend(sepc))) {
        TrapAction::Reschedule => Handled::Reschedule,
        TrapAction::Syscall => Handled::Syscall,
        TrapAction::ExternalInterrupt => Handled::ExternalInterrupt,
        TrapAction::KernelFault | TrapAction::Unhandled => Handled::KernelBug,
        TrapAction::UserFault => if !(m.walk(sign_extend(stval)) is Broken) && m.fault_ok(kind, sign_extend(stval)) {
            Handled::Resumed
        } else {
            Handled::KillTask
        },
    }
}

/// Handles a trap of `kind` taken at `sepc` with the fault address `stval`
/// in the task whose memory is `memory`: the timer reschedules, a system
/// call and an external interrupt go to their handlers, a page fault in
/// the kernel is a bug, and a page fault in user code is resolved by
/// marking the page accessed (and dirty for a store) when the region is
/// taken, not a guard page, and mapped with the flag the access needs;
/// otherwise the task dies. Only a resolved fault changes the memory.
pub fn trap_handler(memory: &mut MemoryManager, kind: Trap, sepc: u64, stval: u64) -> (r: Handled)
    requires
        old(memory).wf(),
    ensures
        final(memory).wf(),
        r == handled_for(*old(memory), kind, sepc, stval),
        final(memory).map_entries() == old(memory).map_entries(),
        r is Resumed ==> {
            let slot = old(memory).walk(sign_extend(stval))->Leaf_0;
            let e = old(memory).table_view()[slot];
            final(memory).table_view() == old(memory).table_view().update(
                slot,
                PageTableEntry::with_fields(e.ppn_field(), e.rsw_field(), e.flag_byte() | fault_bits(kind)),
            )
        },
        !(r is Resumed) ==> final(memory).table_view() == old(memory).table_view(),
{
    let pc_in_kernel = VirtualAddress::new(sepc).is_kernel_region();
    match trap_action(kind, pc_in_kernel) {
        TrapAction::Reschedule => Handled::Reschedule,
        TrapAction::Syscall => Handled::Syscall,
        TrapAction::ExternalInterrupt => Handled::ExternalInterrupt,
        TrapAction::KernelFault | TrapAction::Unhandled => Handled::KernelBug,
        TrapAction::UserFault => {
            let fault = VirtualAddress::new(stval);
            if memory.walks_cleanly(fault) && memory.resolve_page_fault(kind, fault) {
                Handled::Resumed
            } else {
                Handled::KillTask
            }
        },
    }
}

} // verus!
