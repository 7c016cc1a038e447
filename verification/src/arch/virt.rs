//! The QEMU `virt` board's test device, which ends the machine when a word
//! is written to it: the low 16 bits say how, the next 16 the exit code.
use vstd::prelude::*;

verus! {

/// The address of the test device.
pub const VIRT_TEST: u64 = 0x10_0000;

/// How to leave the machine.
#[derive(Debug, Clone, Copy, PartialEq, Eq, Structural)]
pub enum ExitStatus {
    Pass,
    Reset,
    Fail(u16),
}

impl ExitStatus {
    /// The code in the low 16 bits of the word.
    pub open spec fn magic_of(self) -> u64 {
        match self {
            ExitStatus::Pass => 0x5555,
            ExitStatus::Reset => 0x7777,
            ExitStatus::Fail(_) => 0x3333,
        }
    }

    /// The exit code: that of a failure, else 0.
    pub open spec fn code(self) -> u64 {
        match self {
            ExitStatus::Fail(n) => n as u64,
            _ => 0,
        }
    }

    /// The word for this status.
    pub open spec fn word(self) -> u64 {
        (self.magic_of() + self.code() * 0x1_0000) as u64
    }

    /// The code in the low 16 bits of the word.
    pub fn magic(self) -> (r: u64)
        ensures
            r == self.magic_of(),
    {
        match self {
            ExitStatus::Pass => 0x5555,
            ExitStatus::Reset => 0x7777,
            ExitStatus::Fail(_) => 0x3333,
        }
    }

    /// The word for this status: the code shifted up by 16 over the magic.
    pub fn to_u64(self) -> (r: u64)
        ensures
            r == self.word(),
    {
        let ret_code: u64 = match self {
            ExitStatus::Pass | ExitStatus::Reset => 0,
            ExitStatus::Fail(n) => n as u64,
        };
        let m = self.magic();
        proof {
            crate::bits::lemma_exit_word(m, ret_code);
        }
        m | (ret_code << 16u64)
    }
}

/// The word to write to the test device at `VIRT_TEST` to leave the machine
/// with `exit_status`.
pub fn exit(exit_status: ExitStatus) -> (r: u64)
    ensures
        r == exit_status.word(),
{
    exit_status.to_u64()
}

} // verus!
