//! Reasons for which a workload is turned down.

use vstd::prelude::*;

verus! {

/// Why a workload cannot be simulated.
#[derive(Clone, Copy, Debug, PartialEq, Eq, Structural)]
pub enum WorkloadError {
    /// A process declares no CPU burst at all.
    NoCpuBursts,
    /// A process declares a CPU burst of length zero.
    ZeroLengthBurst,
    /// The number of I/O waits of a process is not one less than the number
    /// of its CPU bursts.
    IoWaitMismatch,
    /// The time quantum is zero.
    ZeroQuantum,
    /// A duration, multiplied by the time unit, does not fit in 32 bits.
    DurationOverflow,
    /// A moment of the simulated run lies beyond what 64 bits hold.
    TimeOverflow,
}

impl WorkloadError {
    /// The error in words.
    pub open spec fn text(self) -> Seq<char> {
        match self {
            WorkloadError::NoCpuBursts => "a process has no CPU burst"@,
            WorkloadError::ZeroLengthBurst => "a process has a CPU burst of length zero"@,
            WorkloadError::IoWaitMismatch => "a process has not one I/O wait fewer than CPU bursts"@,
            WorkloadError::ZeroQuantum => "the time quantum is zero"@,
            WorkloadError::DurationOverflow => "a duration does not fit in 32 bits"@,
            WorkloadError::TimeOverflow => "the simulated time does not fit in 64 bits"@,
        }
    }

    /// The error in words.
    pub fn message(&self) -> (s: String)
        ensures
            s@ == self.text(),
    {
        match self {
            WorkloadError::NoCpuBursts => "a process has no CPU burst".to_string(),
            WorkloadError::ZeroLengthBurst => "a process has a CPU burst of length zero".to_string(),
            WorkloadError::IoWaitMismatch => "a process has not one I/O wait fewer than CPU bursts".to_string(),
            WorkloadError::ZeroQuantum => "the time quantum is zero".to_string(),
            WorkloadError::DurationOverflow => "a duration does not fit in 32 bits".to_string(),
            WorkloadError::TimeOverflow => "the simulated time does not fit in 64 bits".to_string(),
        }
    }
}

} // verus!
