//! The scheduler as a mathematical machine.
//!
//! Everything here is specification: unbounded integers, sequences, and
//! functions from one machine state to the next. The executable scheduler is
//! proved to compute exactly what these functions say.
//!
//! A process is named by its position in the process table; that position is
//! its identifier. Time starts at zero.

use vstd::prelude::*;

verus! {

/// Sum of the first `k` entries of `s`.
pub open spec fn sum_to(s: Seq<nat>, k: nat) -> nat
    decreases k,
{
    if k == 0 {
        0
    } else {
        sum_to(s, (k - 1) as nat) + s[k - 1]
    }
}

/// Sum of all entries of `s`.
pub open spec fn total(s: Seq<nat>) -> nat {
    sum_to(s, s.len())
}

/// Length of the slice that a process with `remaining` time left in its burst
/// receives: the rest of the burst, but no more than one quantum.
pub open spec fn slice_len(remaining: nat, quantum: nat) -> nat {
    if remaining <= quantum {
        remaining
    } else {
        quantum
    }
}

/// What a caller declares of one process.
pub struct ProcessDef {
    pub arrival: nat,
    pub cpu_bursts: Seq<nat>,
    pub io_waits: Seq<nat>,
}

impl ProcessDef {
    /// At least one CPU burst, none of length zero, and one I/O wait between
    /// each two consecutive bursts.
    pub open spec fn valid(self) -> bool {
        &&& self.cpu_bursts.len() >= 1
        &&& forall|k: int| 0 <= k < self.cpu_bursts.len() ==> self.cpu_bursts[k] > 0
        &&& self.io_waits.len() + 1 == self.cpu_bursts.len()
    }
}

/// Where a process stands at a scheduling point.
pub enum StateModel {
    NotArrived,
    Ready,
    Running,
    Blocked { until: nat },
    Finished,
}

/// One row of the process table.
pub struct ProcessModel {
    pub id: int,
    pub arrival: nat,
    pub cpu_bursts: Seq<nat>,
    pub io_waits: Seq<nat>,
    pub burst_index: nat,
    pub remaining: nat,
    pub state: StateModel,
    pub first_run: Option<nat>,
    pub completion: Option<nat>,
    pub waiting_time: nat,
    pub turnaround_time: nat,
}

impl ProcessModel {
    /// The row of a process that has not been looked at yet.
    pub open spec fn fresh(id: int, def: ProcessDef) -> ProcessModel {
        ProcessModel {
            id,
            arrival: def.arrival,
            cpu_bursts: def.cpu_bursts,
            io_waits: def.io_waits,
            burst_index: 0,
            remaining: def.cpu_bursts[0],
            state: StateModel::NotArrived,
            first_run: None,
            completion: None,
            waiting_time: 0,
            turnaround_time: 0,
        }
    }

    /// What was declared of the process.
    pub open spec fn def(self) -> ProcessDef {
        ProcessDef { arrival: self.arrival, cpu_bursts: self.cpu_bursts, io_waits: self.io_waits }
    }

    /// Not in the ready queue yet, or out of it for an I/O wait.
    pub open spec fn is_waiting(self) -> bool {
        self.state is NotArrived || self.state is Blocked
    }

    /// The moment at which a waiting process becomes ready.
    pub open spec fn ready_at(self) -> nat {
        match self.state {
            StateModel::Blocked { until } => until,
            _ => self.arrival,
        }
    }

    /// The moment at which the I/O wait of a blocked process is over; zero
    /// for a process that is not blocked.
    pub open spec fn wait_end(self) -> nat {
        match self.state {
            StateModel::Blocked { until } => until,
            _ => 0,
        }
    }

    /// Waiting, and its moment has come.
    pub open spec fn is_due(self, clock: nat) -> bool {
        self.is_waiting() && self.ready_at() <= clock
    }

    /// Among processes that become ready at the same moment, those that
    /// complete an I/O wait (rank 0) enter the queue before those that
    /// arrive (rank 1).
    pub open spec fn rank(self) -> int {
        if self.state is Blocked {
            0
        } else {
            1
        }
    }

    /// The row once the process has joined the ready queue.
    pub open spec fn readied(self) -> ProcessModel {
        ProcessModel { state: StateModel::Ready, ..self }
    }

    /// The row once the process has been handed the CPU at `clock`.
    pub open spec fn dispatched(self, clock: nat) -> ProcessModel {
        ProcessModel {
            state: StateModel::Running,
            first_run: if self.first_run is None {
                Some(clock)
            } else {
                self.first_run
            },
            ..self
        }
    }

    /// The row once the process has run for `d` and the clock shows `now`:
    /// back in the queue if the burst is not over, blocked on the next I/O
    /// wait if more bursts follow, finished otherwise.
    pub open spec fn after_slice(self, d: nat, now: nat) -> ProcessModel {
        if d < self.remaining {
            ProcessModel { remaining: (self.remaining - d) as nat, state: StateModel::Ready, ..self }
        } else if self.burst_index + 1 < self.cpu_bursts.len() {
            ProcessModel {
                burst_index: self.burst_index + 1,
                remaining: self.cpu_bursts[self.burst_index as int + 1],
                state: StateModel::Blocked { until: now + self.io_waits[self.burst_index as int] },
                ..self
            }
        } else {
            ProcessModel {
                burst_index: self.burst_index + 1,
                remaining: 0,
                state: StateModel::Finished,
                completion: Some(now),
                turnaround_time: (now - self.arrival) as nat,
                waiting_time: (now - self.arrival - total(self.cpu_bursts) - total(
                    self.io_waits,
                )) as nat,
                ..self
            }
        }
    }

    /// CPU time received so far.
    pub open spec fn consumed(self) -> nat {
        if self.burst_index < self.cpu_bursts.len() {
            (sum_to(self.cpu_bursts, self.burst_index) + self.cpu_bursts[self.burst_index as int]
                - self.remaining) as nat
        } else {
            total(self.cpu_bursts)
        }
    }

    /// Length of the I/O waits begun so far.
    pub open spec fn waited(self) -> nat {
        if self.burst_index <= self.io_waits.len() {
            sum_to(self.io_waits, self.burst_index)
        } else {
            total(self.io_waits)
        }
    }

    /// CPU time still owed to the process.
    pub open spec fn work_left(self) -> nat {
        (total(self.cpu_bursts) - self.consumed()) as nat
    }

    /// No moment earlier than this can find the process where it stands now.
    pub open spec fn earliest(self) -> nat {
        self.arrival + self.consumed() + self.waited()
    }

    /// What holds of row `ix` at every scheduling point at which the clock
    /// shows `clock`.
    pub open spec fn sound(self, ix: int, clock: nat) -> bool {
        &&& self.id == ix
        &&& self.def().valid()
        &&& self.burst_index <= self.cpu_bursts.len()
        &&& (self.state is Finished <==> self.burst_index == self.cpu_bursts.len())
        &&& (self.burst_index < self.cpu_bursts.len() ==> 0 < self.remaining
            <= self.cpu_bursts[self.burst_index as int])
        &&& (self.first_run matches Some(t) ==> self.arrival <= t <= clock)
        &&& (self.first_run is None ==> self.consumed() == 0)
        &&& match self.state {
            StateModel::NotArrived => self.burst_index == 0 && self.remaining
                == self.cpu_bursts[0] && self.first_run is None,
            StateModel::Ready => self.earliest() <= clock,
            StateModel::Running => false,
            StateModel::Blocked { until } => self.earliest() <= until && self.remaining
                == self.cpu_bursts[self.burst_index as int],
            StateModel::Finished => {
                &&& self.remaining == 0
                &&& self.completion matches Some(c)
                &&& self.earliest() <= c <= clock
                &&& (self.first_run matches Some(t) ==> t <= c)
                &&& self.turnaround_time == c - self.arrival
                &&& self.waiting_time == c - self.arrival - total(self.cpu_bursts) - total(
                    self.io_waits,
                )
            },
        }
        &&& (!(self.state is Finished) ==> self.completion is None && self.waiting_time == 0
            && self.turnaround_time == 0)
    }
}

/// A span of simulated time: a process on the CPU (`process` is its
/// identifier), or a context switch (`process` is `None`).
pub struct IntervalModel {
    pub start: nat,
    pub end: nat,
    pub process: Option<int>,
}

/// Time that `pid` spent on the CPU according to the timeline.
pub open spec fn executed(timeline: Seq<IntervalModel>, pid: int) -> nat
    decreases timeline.len(),
{
    if timeline.len() == 0 {
        0
    } else {
        let last = timeline.last();
        executed(timeline.drop_last(), pid) + if last.process == Some(pid) {
            (last.end - last.start) as nat
        } else {
            0
        }
    }
}

/// No interval ends before it starts, and none starts before an earlier one
/// has ended.
pub open spec fn chronological(timeline: Seq<IntervalModel>) -> bool {
    &&& forall|k: int| 0 <= k < timeline.len() ==> (#[trigger] timeline[k]).start <= timeline[k].end
    &&& forall|a: int, b: int|
        0 <= a < b < timeline.len() ==> (#[trigger] timeline[a]).end <= (#[trigger] timeline[b]).start
}

/// Each interval starts at the moment at which the one before it ended.
pub open spec fn contiguous(timeline: Seq<IntervalModel>) -> bool {
    forall|a: int, b: int|
        0 <= a && b == a + 1 && b < timeline.len() ==> (#[trigger] timeline[a]).end == (
        #[trigger] timeline[b]).start
}

/// `i` enters the ready queue before `j`: it became ready earlier; or at the
/// same moment, from an I/O wait while `j` arrives; or at the same moment and
/// in the same way, with the smaller identifier.
pub open spec fn admitted_before(procs: Seq<ProcessModel>, i: int, j: int) -> bool {
    let a = procs[i];
    let b = procs[j];
    a.ready_at() < b.ready_at() || (a.ready_at() == b.ready_at() && (a.rank() < b.rank() || (
    a.rank() == b.rank() && i < j)))
}

/// `order` lists exactly the processes that are due at `clock`, each before
/// all those that enter the queue after it.
pub open spec fn is_admission_order(procs: Seq<ProcessModel>, clock: nat, order: Seq<int>) -> bool {
    &&& forall|k: int|
        0 <= k < order.len() ==> 0 <= #[trigger] order[k] < procs.len() && procs[order[k]].is_due(
            clock,
        )
    &&& forall|i: int|
        0 <= i < procs.len() && (#[trigger] procs[i]).is_due(clock) ==> order.contains(i)
    &&& forall|a: int, b: int|
        0 <= a < b < order.len() ==> admitted_before(procs, #[trigger] order[a], #[trigger] order[b])
}

/// The processes that are due at `clock`, in the order in which they enter
/// the ready queue.
pub open spec fn admission_order(procs: Seq<ProcessModel>, clock: nat) -> Seq<int> {
    choose|order: Seq<int>| is_admission_order(procs, clock, order)
}

/// `t` is the earliest moment at which a waiting process becomes ready.
pub open spec fn is_next_event(procs: Seq<ProcessModel>, t: nat) -> bool {
    &&& exists|i: int|
        0 <= i < procs.len() && (#[trigger] procs[i]).is_waiting() && procs[i].ready_at() == t
    &&& forall|i: int|
        0 <= i < procs.len() && (#[trigger] procs[i]).is_waiting() ==> t <= procs[i].ready_at()
}

/// The earliest moment at which a waiting process becomes ready.
pub open spec fn next_event(procs: Seq<ProcessModel>) -> nat {
    choose|t: nat| is_next_event(procs, t)
}

/// CPU time still owed to the first `k` processes together.
pub open spec fn work_to(procs: Seq<ProcessModel>, k: nat) -> nat
    decreases k,
{
    if k == 0 {
        0
    } else {
        work_to(procs, (k - 1) as nat) + procs[k - 1].work_left()
    }
}

/// Sum of the waiting times of the first `k` processes.
pub open spec fn waiting_to(procs: Seq<ProcessModel>, k: nat) -> nat
    decreases k,
{
    if k == 0 {
        0
    } else {
        waiting_to(procs, (k - 1) as nat) + procs[k - 1].waiting_time
    }
}

/// Sum of the turnaround times of the first `k` processes.
pub open spec fn turnaround_to(procs: Seq<ProcessModel>, k: nat) -> nat
    decreases k,
{
    if k == 0 {
        0
    } else {
        turnaround_to(procs, (k - 1) as nat) + procs[k - 1].turnaround_time
    }
}

/// What a finished run hands back.
pub struct ResultModel {
    pub processes: Seq<ProcessModel>,
    pub total_time: nat,
    pub total_waiting_time: nat,
    pub total_turnaround_time: nat,
    pub timeline: Seq<IntervalModel>,
}

impl ResultModel {
    /// Every process has finished. It was first dispatched no earlier than it
    /// arrived, and finished no earlier than that and no later than the run
    /// ended. Its turnaround time is the time from its arrival to its
    /// completion, and its waiting time is what is left of that once its CPU
    /// bursts and I/O waits are taken off, which is not negative.
    pub open spec fn processes_accounted(self) -> bool {
        forall|i: int|
            0 <= i < self.processes.len() ==> {
                &&& (#[trigger] self.processes[i]).state is Finished
                &&& self.processes[i].id == i
                &&& self.processes[i].def().valid()
                &&& self.processes[i].first_run matches Some(first)
                &&& self.processes[i].completion matches Some(completion)
                &&& self.processes[i].arrival <= first <= completion <= self.total_time
                &&& self.processes[i].turnaround_time == completion - self.processes[i].arrival
                &&& self.processes[i].waiting_time == completion - self.processes[i].arrival
                    - total(self.processes[i].cpu_bursts) - total(self.processes[i].io_waits)
                &&& completion - self.processes[i].arrival - total(self.processes[i].cpu_bursts)
                    - total(self.processes[i].io_waits) >= 0
            }
    }

    /// The intervals during which a process runs add up to its CPU bursts.
    pub open spec fn bursts_accounted(self) -> bool {
        forall|i: int|
            0 <= i < self.processes.len() ==> #[trigger] executed(self.timeline, i) == total(
                self.processes[i].cpu_bursts,
            )
    }

    /// The timeline runs forward and ends where the run ends. An interval
    /// during which a process runs names a process of the table and is not
    /// empty.
    pub open spec fn timeline_ordered(self) -> bool {
        &&& chronological(self.timeline)
        &&& (self.timeline.len() > 0 ==> self.timeline.last().end == self.total_time)
        &&& forall|k: int|
            0 <= k < self.timeline.len() ==> ((#[trigger] self.timeline[k]).process matches Some(
                pid,
            ) ==> 0 <= pid < self.processes.len() && self.timeline[k].start < self.timeline[k].end)
    }
}

/// The state of the scheduler at a scheduling point.
pub struct Machine {
    pub procs: Seq<ProcessModel>,
    pub quantum: nat,
    pub switch_cost: nat,
    pub clock: nat,
    pub ready: Seq<int>,
    pub timeline: Seq<IntervalModel>,
}

impl Machine {
    /// The machine before anything has happened, with the clock at `clock`.
    pub open spec fn start_at(
        defs: Seq<ProcessDef>,
        quantum: nat,
        switch_cost: nat,
        clock: nat,
    ) -> Machine {
        Machine {
            procs: Seq::new(defs.len(), |i: int| ProcessModel::fresh(i, defs[i])),
            quantum,
            switch_cost,
            clock,
            ready: Seq::empty(),
            timeline: Seq::empty(),
        }
    }

    /// The machine before anything has happened, with the clock at zero.
    pub open spec fn start(defs: Seq<ProcessDef>, quantum: nat, switch_cost: nat) -> Machine {
        Machine::start_at(defs, quantum, switch_cost, 0)
    }

    /// The two machines work on the same declared processes, with the same
    /// quantum and the same cost of a context switch.
    pub open spec fn same_workload(self, other: Machine) -> bool {
        &&& self.quantum == other.quantum
        &&& self.switch_cost == other.switch_cost
        &&& self.procs.len() == other.procs.len()
        &&& forall|i: int|
            0 <= i < self.procs.len() ==> (#[trigger] other.procs[i]).def() == self.procs[i].def()
    }

    /// Every process has finished all of its bursts.
    pub open spec fn done(self) -> bool {
        forall|i: int| 0 <= i < self.procs.len() ==> (#[trigger] self.procs[i]).state is Finished
    }

    /// Every process that is due joins the tail of the ready queue.
    pub open spec fn gather(self) -> Machine {
        Machine {
            procs: Seq::new(
                self.procs.len(),
                |i: int|
                    if self.procs[i].is_due(self.clock) {
                        self.procs[i].readied()
                    } else {
                        self.procs[i]
                    },
            ),
            ready: self.ready + admission_order(self.procs, self.clock),
            ..self
        }
    }

    /// With nothing to run, the clock jumps to the next moment at which a
    /// process becomes ready, and that process joins the queue.
    pub open spec fn await_work(self) -> Machine {
        if self.ready.len() == 0 {
            Machine { clock: next_event(self.procs), ..self }.gather()
        } else {
            self
        }
    }

    /// The head of the ready queue is handed the CPU.
    pub open spec fn dispatch(self) -> Machine {
        let i = self.ready[0];
        Machine {
            procs: self.procs.update(i, self.procs[i].dispatched(self.clock)),
            ready: self.ready.drop_first(),
            ..self
        }
    }

    /// The slice that `i` is about to run ends the whole simulation.
    pub open spec fn is_last_slice(self, i: int) -> bool {
        &&& self.procs[i].remaining <= self.quantum
        &&& self.procs[i].burst_index + 1 == self.procs[i].cpu_bursts.len()
        &&& forall|j: int|
            0 <= j < self.procs.len() && j != i ==> (#[trigger] self.procs[j]).state is Finished
    }

    /// Process `i` runs its slice. Unless this ends the simulation, a context
    /// switch follows. The process then returns to the queue, blocks, or
    /// finishes, at the moment that the clock shows after the switch.
    pub open spec fn execute(self, i: int) -> Machine {
        let p = self.procs[i];
        let d = slice_len(p.remaining, self.quantum);
        let end = self.clock + d;
        let ran = IntervalModel { start: self.clock, end, process: Some(i) };
        let now = if self.is_last_slice(i) {
            end
        } else {
            end + self.switch_cost
        };
        let q = p.after_slice(d, now);
        Machine {
            procs: self.procs.update(i, q),
            clock: now,
            ready: if q.state is Ready {
                self.ready.push(i)
            } else {
                self.ready
            },
            timeline: if self.is_last_slice(i) {
                self.timeline.push(ran)
            } else {
                self.timeline.push(ran).push(IntervalModel { start: end, end: now, process: None })
            },
            ..self
        }
    }

    /// The machine as it stands when the next process is about to be
    /// dispatched.
    pub open spec fn prepare(self) -> Machine {
        self.gather().await_work()
    }

    /// One round of the main loop.
    pub open spec fn step(self) -> Machine {
        if self.done() {
            self
        } else {
            let s = self.prepare();
            s.dispatch().execute(s.ready[0])
        }
    }

    /// `n` rounds of the main loop.
    pub open spec fn steps(self, n: nat) -> Machine
        decreases n,
    {
        if n == 0 {
            self
        } else {
            self.steps((n - 1) as nat).step()
        }
    }

    /// The machine once every process has finished.
    pub open spec fn finished(self) -> Machine {
        self.steps(choose|n: nat| #[trigger] self.steps(n).done())
    }

    /// Every moment that the machine holds can be written in 64 bits.
    pub open spec fn fits(self) -> bool {
        &&& self.clock <= u64::MAX
        &&& forall|i: int|
            0 <= i < self.procs.len() ==> (#[trigger] self.procs[i]).wait_end() <= u64::MAX
    }

    /// Some round of the run from here computes a moment beyond 64 bits.
    pub open spec fn overflows(self) -> bool {
        exists|n: nat| !(#[trigger] self.steps(n)).fits()
    }

    /// The processor has nothing to run at the start of this round, although
    /// it has run something before and work is left.
    pub open spec fn stalls(self) -> bool {
        &&& !self.done()
        &&& self.timeline.len() > 0
        &&& self.gather().ready.len() == 0
    }

    /// Some round of the run from here finds the processor with nothing to
    /// run after it has run something.
    pub open spec fn idles_midway(self) -> bool {
        exists|n: nat| (#[trigger] self.steps(n)).stalls()
    }

    /// CPU time still owed to all processes together.
    pub open spec fn work_left(self) -> nat {
        work_to(self.procs, self.procs.len())
    }

    /// What the machine hands back once it has finished.
    pub open spec fn outcome(self) -> ResultModel {
        ResultModel {
            processes: self.procs,
            total_time: self.clock,
            total_waiting_time: waiting_to(self.procs, self.procs.len()),
            total_turnaround_time: turnaround_to(self.procs, self.procs.len()),
            timeline: self.timeline,
        }
    }

    /// The timeline reaches up to the clock: nothing has happened since the
    /// last interval was recorded.
    pub open spec fn settled(self) -> bool {
        self.timeline.len() > 0 ==> self.timeline.last().end == self.clock
    }

    /// What holds whenever the machine is looked at.
    pub open spec fn inv(self) -> bool {
        &&& self.quantum > 0
        &&& forall|i: int|
            0 <= i < self.procs.len() ==> (#[trigger] self.procs[i]).sound(i, self.clock)
        &&& forall|k: int|
            0 <= k < self.ready.len() ==> 0 <= #[trigger] self.ready[k] < self.procs.len()
                && self.procs[self.ready[k]].state is Ready
        &&& self.ready.no_duplicates()
        &&& forall|i: int|
            0 <= i < self.procs.len() && (#[trigger] self.procs[i]).state is Ready
                ==> self.ready.contains(i)
        &&& chronological(self.timeline)
        &&& forall|k: int|
            0 <= k < self.timeline.len() ==> (#[trigger] self.timeline[k]).end <= self.clock
        &&& forall|k: int|
            0 <= k < self.timeline.len() ==> ((#[trigger] self.timeline[k]).process matches Some(
                pid,
            ) ==> 0 <= pid < self.procs.len() && self.timeline[k].start < self.timeline[k].end)
        &&& forall|i: int|
            0 <= i < self.procs.len() ==> #[trigger] executed(self.timeline, i)
                == self.procs[i].consumed()
    }
}

} // verus!
