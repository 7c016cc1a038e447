//! How the kernel leaves the machine.
use vstd::prelude::*;

pub mod virt;

verus! {

/// Why the kernel exits: normally, or on an error whose message the caller
/// prints.
#[derive(Debug, Clone, Copy, PartialEq, Eq, Structural)]
pub enum ExitStatus {
    Success,
    Error,
}

/// The status the `virt` board's test device is told for `status`: a pass,
/// or a failure with code 1.
pub open spec fn virt_status(status: ExitStatus) -> virt::ExitStatus {
    match status {
        ExitStatus::Success => virt::ExitStatus::Pass,
        ExitStatus::Error => virt::ExitStatus::Fail(1),
    }
}

/// The word the test device of the `virt` board must be written to leave
/// the machine with `status`.
pub fn exit(status: ExitStatus) -> (r: u64)
    ensures
        r == virt_status(status).word(),
{
    let exit_status = match status {
        ExitStatus::Success => virt::ExitStatus::Pass,
        ExitStatus::Error => virt::ExitStatus::Fail(1),
    };
    virt::exit(exit_status)
}

} // verus!
