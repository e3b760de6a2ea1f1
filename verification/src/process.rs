//! Processes: what a caller declares of one, and the record that the
//! scheduler keeps of it.

use vstd::prelude::*;
use crate::error::WorkloadError;
use crate::model::{total, ProcessDef, ProcessModel, StateModel};

verus! {

/// The lengths in `v` as unbounded integers.
pub open spec fn durations(v: Seq<u32>) -> Seq<nat> {
    Seq::new(v.len(), |k: int| v[k] as nat)
}

/// The reason for which a process definition is turned down, or `None` for
/// one that is accepted. A definition with several faults is turned down for
/// the first in this order: no CPU burst, a CPU burst of length zero, a
/// number of I/O waits other than the number of CPU bursts less one.
pub open spec fn rejection(def: ProcessDef) -> Option<WorkloadError> {
    if def.cpu_bursts.len() == 0 {
        Some(WorkloadError::NoCpuBursts)
    } else if exists|k: int| 0 <= k < def.cpu_bursts.len() && def.cpu_bursts[k] == 0 {
        Some(WorkloadError::ZeroLengthBurst)
    } else if def.io_waits.len() + 1 != def.cpu_bursts.len() {
        Some(WorkloadError::IoWaitMismatch)
    } else {
        None
    }
}

/// One process as a caller declares it: when it arrives, how long each of
/// its CPU bursts is, and how long the I/O wait between each two.
#[derive(Clone, Debug)]
pub struct ProcessEntry {
    pub arrival: u32,
    pub cpu_durations: Vec<u32>,
    pub io_durations: Vec<u32>,
}

impl View for ProcessEntry {
    type V = ProcessDef;

    open spec fn view(&self) -> ProcessDef {
        ProcessDef {
            arrival: self.arrival as nat,
            cpu_bursts: durations(self.cpu_durations@),
            io_waits: durations(self.io_durations@),
        }
    }
}

/// The lengths in `v`, each multiplied by `unit`.
pub open spec fn scaled(v: Seq<nat>, unit: nat) -> Seq<nat> {
    Seq::new(v.len(), |k: int| v[k] * unit)
}

/// Every length in `v`, multiplied by `unit`, fits in 32 bits.
pub open spec fn scales(v: Seq<nat>, unit: nat) -> bool {
    forall|k: int| 0 <= k < v.len() ==> (#[trigger] v[k]) * unit <= u32::MAX
}

impl ProcessDef {
    /// The definition with every burst and every wait multiplied by `unit`.
    /// The arrival time stays as it is.
    pub open spec fn scaled(self, unit: nat) -> ProcessDef {
        ProcessDef {
            arrival: self.arrival,
            cpu_bursts: scaled(self.cpu_bursts, unit),
            io_waits: scaled(self.io_waits, unit),
        }
    }

    /// Every burst and every wait, multiplied by `unit`, fits in 32 bits.
    pub open spec fn scales(self, unit: nat) -> bool {
        scales(self.cpu_bursts, unit) && scales(self.io_waits, unit)
    }
}

/// The lengths in `v`, each multiplied by `unit`; `None` if one of the
/// products does not fit in 32 bits.
pub fn scale_durations(v: &Vec<u32>, unit: u32) -> (r: Option<Vec<u32>>)
    ensures
        match r {
            Some(w) => scales(durations(v@), unit as nat) && durations(w@) == scaled(
                durations(v@),
                unit as nat,
            ),
            None => !scales(durations(v@), unit as nat),
        },
{
    let mut w: Vec<u32> = Vec::new();
    let mut k: usize = 0;
    while k < v.len()
        invariant
            k <= v.len(),
            w.len() == k,
            forall|j: int|
                0 <= j < k ==> (#[trigger] durations(v@)[j]) * (unit as nat) <= u32::MAX,
            forall|j: int|
                0 <= j < k ==> (#[trigger] w[j]) as nat == durations(v@)[j] * (unit as nat),
        decreases v.len() - k,
    {
        let ghost before = w@;
        match v[k].checked_mul(unit) {
            Some(x) => {
                w.push(x);
                proof {
                    assert(durations(v@)[k as int] == v[k as int] as nat);
                    assert(x as nat == durations(v@)[k as int] * (unit as nat));
                    assert forall|j: int| 0 <= j < k + 1 implies (#[trigger] w[j]) as nat
                        == durations(v@)[j] * (unit as nat) by {
                        if j < k {
                            assert(w[j] == before[j]);
                        }
                    }
                }
            },
            None => {
                assert(durations(v@)[k as int] == v[k as int] as nat);
                assert(durations(v@)[k as int] * (unit as nat) > u32::MAX);
                return None;
            },
        }
        k = k + 1;
    }
    proof {
        assert forall|j: int| 0 <= j < w.len() implies durations(w@)[j] == scaled(
            durations(v@),
            unit as nat,
        )[j] by {
            assert(w[j] as nat == durations(v@)[j] * (unit as nat));
        }
        assert(durations(w@) =~= scaled(durations(v@), unit as nat));
    }
    Some(w)
}

/// The definitions in `entries` with every burst and every wait multiplied
/// by `unit`, for workloads that are written down in units of that length;
/// `DurationOverflow` if one of the products does not fit in 32 bits.
pub fn scale_entries(entries: &Vec<ProcessEntry>, unit: u32) -> (r: Result<
    Vec<ProcessEntry>,
    WorkloadError,
>)
    ensures
        match r {
            Ok(v) => {
                &&& v.len() == entries.len()
                &&& forall|i: int|
                    0 <= i < entries.len() ==> (#[trigger] entries[i])@.scales(unit as nat)
                &&& forall|i: int|
                    0 <= i < entries.len() ==> (#[trigger] v[i])@ == entries[i]@.scaled(unit as nat)
            },
            Err(e) => {
                &&& e == WorkloadError::DurationOverflow
                &&& exists|i: int|
                    0 <= i < entries.len() && !(#[trigger] entries[i])@.scales(unit as nat)
            },
        },
{
    let mut v: Vec<ProcessEntry> = Vec::new();
    let mut i: usize = 0;
    while i < entries.len()
        invariant
            i <= entries.len(),
            v.len() == i,
            forall|j: int| 0 <= j < i ==> (#[trigger] entries[j])@.scales(unit as nat),
            forall|j: int| 0 <= j < i ==> (#[trigger] v[j])@ == entries[j]@.scaled(unit as nat),
        decreases entries.len() - i,
    {
        let entry = &entries[i];
        let cpu = match scale_durations(&entry.cpu_durations, unit) {
            Some(w) => w,
            None => {
                assert(!entries[i as int]@.scales(unit as nat));
                return Err(WorkloadError::DurationOverflow);
            },
        };
        let io = match scale_durations(&entry.io_durations, unit) {
            Some(w) => w,
            None => {
                assert(!entries[i as int]@.scales(unit as nat));
                return Err(WorkloadError::DurationOverflow);
            },
        };
        let ghost before = v@;
        v.push(ProcessEntry { arrival: entry.arrival, cpu_durations: cpu, io_durations: io });
        proof {
            assert(v[i as int]@ == entries[i as int]@.scaled(unit as nat));
            assert forall|j: int| 0 <= j < i + 1 implies (#[trigger] v[j])@
                == entries[j]@.scaled(unit as nat) by {
                if j < i {
                    assert(v[j] == before[j]);
                }
            }
        }
        i = i + 1;
    }
    Ok(v)
}

/// Where a process stands. A process is in exactly one of these states at
/// any moment.
#[derive(Clone, Copy, Debug, PartialEq, Eq, Structural)]
pub enum ProcessState {
    /// Its arrival time has not come, or nobody has looked since.
    NotArrived,
    /// In the ready queue.
    Ready,
    /// On the CPU.
    Running,
    /// Out of the queue until its I/O wait is over.
    BlockedOnIo { until: u64 },
    /// All bursts done.
    Finished,
}

impl View for ProcessState {
    type V = StateModel;

    open spec fn view(&self) -> StateModel {
        match self {
            ProcessState::NotArrived => StateModel::NotArrived,
            ProcessState::Ready => StateModel::Ready,
            ProcessState::Running => StateModel::Running,
            ProcessState::BlockedOnIo { until } => StateModel::Blocked { until: *until as nat },
            ProcessState::Finished => StateModel::Finished,
        }
    }
}

/// The moment `t` as an unbounded integer, if there is one.
pub open spec fn moment(t: Option<u64>) -> Option<nat> {
    match t {
        Some(t) => Some(t as nat),
        None => None,
    }
}

/// The record of one process: what was declared of it, and how far it has
/// come.
#[derive(Clone, Debug)]
pub struct Process {
    pub(crate) id: usize,
    pub(crate) arrival: u32,
    pub(crate) cpu_durations: Vec<u32>,
    pub(crate) io_durations: Vec<u32>,
    pub(crate) cpu_index: usize,
    pub(crate) remaining_burst_time: u32,
    pub(crate) state: ProcessState,
    pub(crate) first_time_cpu: Option<u64>,
    pub(crate) finish_time: Option<u64>,
    pub(crate) waiting_time: u64,
    pub(crate) turn_around_time: u64,
}

impl View for Process {
    type V = ProcessModel;

    open(crate) spec fn view(&self) -> ProcessModel {
        ProcessModel {
            id: self.id as int,
            arrival: self.arrival as nat,
            cpu_bursts: durations(self.cpu_durations@),
            io_waits: durations(self.io_durations@),
            burst_index: self.cpu_index as nat,
            remaining: self.remaining_burst_time as nat,
            state: self.state@,
            first_run: moment(self.first_time_cpu),
            completion: moment(self.finish_time),
            waiting_time: self.waiting_time as nat,
            turnaround_time: self.turn_around_time as nat,
        }
    }
}

/// Sum of the lengths in `v`.
pub fn total_duration(v: &Vec<u32>) -> (sum: u128)
    ensures
        sum == total(durations(v@)),
{
    let mut sum: u128 = 0;
    let mut k: usize = 0;
    while k < v.len()
        invariant
            k <= v.len(),
            sum == crate::model::sum_to(durations(v@), k as nat),
            sum <= k * u32::MAX,
        decreases v.len() - k,
    {
        sum = sum + v[k] as u128;
        k = k + 1;
    }
    sum
}

impl Process {
    /// The record of a process that has not run yet, if the definition is
    /// valid; the reason for which it is not, otherwise.
    pub fn new(id: usize, arrival: u32, cpu: Vec<u32>, io: Vec<u32>) -> (r: Result<
        Process,
        WorkloadError,
    >)
        ensures
            ({
                let def = ProcessDef {
                    arrival: arrival as nat,
                    cpu_bursts: durations(cpu@),
                    io_waits: durations(io@),
                };
                match r {
                    Ok(p) => rejection(def) is None && p@ == ProcessModel::fresh(id as int, def),
                    Err(e) => rejection(def) == Some(e),
                }
            }),
    {
        if cpu.len() == 0 {
            return Err(WorkloadError::NoCpuBursts);
        }
        let mut k: usize = 0;
        while k < cpu.len()
            invariant
                k <= cpu.len(),
                forall|j: int| 0 <= j < k ==> cpu[j] > 0,
            decreases cpu.len() - k,
        {
            if cpu[k] == 0 {
                assert(durations(cpu@)[k as int] == 0);
                return Err(WorkloadError::ZeroLengthBurst);
            }
            k = k + 1;
        }
        assert forall|j: int| 0 <= j < durations(cpu@).len() implies durations(cpu@)[j] != 0 by {
            assert(cpu[j] > 0);
        }
        if io.len() != cpu.len() - 1 {
            return Err(WorkloadError::IoWaitMismatch);
        }
        let remaining: u32 = cpu[0];
        Ok(
            Process {
                id,
                arrival,
                cpu_durations: cpu,
                cpu_index: 0,
                io_durations: io,
                remaining_burst_time: remaining,
                state: ProcessState::NotArrived,
                first_time_cpu: None,
                finish_time: None,
                waiting_time: 0,
                turn_around_time: 0,
            },
        )
    }

    /// The identifier of the process.
    pub fn id(&self) -> (id: usize)
        ensures
            id == self@.id,
    {
        self.id
    }

    /// The moment at which the process arrives.
    pub fn arrival(&self) -> (t: u32)
        ensures
            t == self@.arrival,
    {
        self.arrival
    }

    /// The lengths of the CPU bursts of the process, in order.
    pub fn cpu_durations(&self) -> (v: &Vec<u32>)
        ensures
            durations(v@) == self@.cpu_bursts,
    {
        &self.cpu_durations
    }

    /// The lengths of the I/O waits between the CPU bursts, in order.
    pub fn io_durations(&self) -> (v: &Vec<u32>)
        ensures
            durations(v@) == self@.io_waits,
    {
        &self.io_durations
    }

    /// The number of CPU bursts that the process has completed.
    pub fn cpu_index(&self) -> (k: usize)
        ensures
            k == self@.burst_index,
    {
        self.cpu_index
    }

    /// What is left of the CPU burst that the process is in.
    pub fn remaining_burst_time(&self) -> (t: u32)
        ensures
            t == self@.remaining,
    {
        self.remaining_burst_time
    }

    /// Where the process stands.
    pub fn state(&self) -> (state: ProcessState)
        ensures
            state@ == self@.state,
    {
        self.state
    }

    /// The moment at which the process was first handed the CPU.
    pub fn first_time_cpu(&self) -> (t: Option<u64>)
        ensures
            moment(t) == self@.first_run,
    {
        self.first_time_cpu
    }

    /// The moment at which the process finished.
    pub fn finish_time(&self) -> (t: Option<u64>)
        ensures
            moment(t) == self@.completion,
    {
        self.finish_time
    }

    /// The time from the arrival of the process to its completion that it
    /// spent neither on the CPU nor in an I/O wait; zero until it has
    /// finished.
    pub fn waiting_time(&self) -> (t: u64)
        ensures
            t == self@.waiting_time,
    {
        self.waiting_time
    }

    /// The time from the arrival of the process to its completion; zero
    /// until it has finished.
    pub fn turn_around_time(&self) -> (t: u64)
        ensures
            t == self@.turnaround_time,
    {
        self.turn_around_time
    }

    /// All bursts of the process are done.
    pub fn is_finished(&self) -> (b: bool)
        ensures
            b == (self@.state is Finished),
    {
        match self.state {
            ProcessState::Finished => true,
            _ => false,
        }
    }

    /// The process is not in the ready queue yet, or out of it for an I/O
    /// wait.
    pub(crate) fn is_waiting(&self) -> (b: bool)
        ensures
            b == self@.is_waiting(),
    {
        match self.state {
            ProcessState::NotArrived => true,
            ProcessState::BlockedOnIo { .. } => true,
            _ => false,
        }
    }

    /// The moment at which the process, if it is waiting, becomes ready.
    pub(crate) fn ready_at(&self) -> (t: u64)
        ensures
            t == self@.ready_at(),
    {
        match self.state {
            ProcessState::BlockedOnIo { until } => until,
            _ => self.arrival as u64,
        }
    }

    /// The process is waiting, and its moment has come.
    pub(crate) fn is_due(&self, clock: u64) -> (b: bool)
        ensures
            b == self@.is_due(clock as nat),
    {
        self.is_waiting() && self.ready_at() <= clock
    }

    /// Zero for a process in an I/O wait, one for any other.
    pub(crate) fn rank(&self) -> (r: u8)
        ensures
            r == self@.rank(),
    {
        match self.state {
            ProcessState::BlockedOnIo { .. } => 0,
            _ => 1,
        }
    }

    /// The process joins the ready queue.
    pub(crate) fn make_ready(&mut self)
        ensures
            final(self)@ == old(self)@.readied(),
    {
        self.state = ProcessState::Ready;
    }

    /// The process is handed the CPU at `clock`.
    pub(crate) fn start_running(&mut self, clock: u64)
        ensures
            final(self)@ == old(self)@.dispatched(clock as nat),
    {
        self.state = ProcessState::Running;
        if self.first_time_cpu.is_none() {
            self.first_time_cpu = Some(clock);
        }
    }

    /// The process has run for `d`, and the clock shows `now`.
    pub(crate) fn finish_slice(&mut self, d: u32, now: u64)
        requires
            old(self).cpu_index < old(self).cpu_durations.len(),
            old(self).io_durations.len() + 1 == old(self).cpu_durations.len(),
            d <= old(self).remaining_burst_time,
            d == old(self).remaining_burst_time && old(self).cpu_index + 1 < old(
                self,
            ).cpu_durations.len() ==> now + old(self).io_durations[old(self).cpu_index as int]
                <= u64::MAX,
            d == old(self).remaining_burst_time && old(self).cpu_index + 1 == old(
                self,
            ).cpu_durations.len() ==> old(self).arrival + total(durations(old(self).cpu_durations@))
                + total(durations(old(self).io_durations@)) <= now,
        ensures
            final(self)@ == old(self)@.after_slice(d as nat, now as nat),
    {
        if d < self.remaining_burst_time {
            self.remaining_burst_time = self.remaining_burst_time - d;
            self.state = ProcessState::Ready;
        } else if self.cpu_index + 1 < self.cpu_durations.len() {
            let wait: u32 = self.io_durations[self.cpu_index];
            self.cpu_index = self.cpu_index + 1;
            self.remaining_burst_time = self.cpu_durations[self.cpu_index];
            self.state = ProcessState::BlockedOnIo { until: now + wait as u64 };
        } else {
            let busy: u128 = total_duration(&self.cpu_durations) + total_duration(
                &self.io_durations,
            );
            let turnaround: u64 = now - self.arrival as u64;
            self.cpu_index = self.cpu_index + 1;
            self.remaining_burst_time = 0;
            self.state = ProcessState::Finished;
            self.finish_time = Some(now);
            self.turn_around_time = turnaround;
            self.waiting_time = (turnaround as u128 - busy) as u64;
        }
    }
}

} // verus!
