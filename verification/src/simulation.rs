//! A whole run: from the declared workload to the result.

use vstd::prelude::*;
use crate::error::WorkloadError;
use crate::laws::{law_overflow_is_late_end, lemma_outcome};
use crate::lemmas::{lemma_finished_is, lemma_idles_midway_iff};
use crate::model::{
    contiguous, turnaround_to, waiting_to, IntervalModel, Machine, ProcessDef, ResultModel,
};
use crate::process::{Process, ProcessEntry};
use crate::scheduler::{definitions, table, workload_rejection, Scheduler};
use crate::timeline::{intervals, IntervalKind, TimelineInterval};

verus! {

/// What a run hands back: the final record of each process, the moment at
/// which the run ended, the sums of the waiting and turnaround times, and the
/// timeline.
///
/// The average waiting time is `total_waiting_time` divided by the number of
/// processes, and the average turnaround time likewise.
#[derive(Debug)]
pub struct SimulationResult {
    pub processes: Vec<Process>,
    pub total_time: u64,
    pub total_waiting_time: u128,
    pub total_turnaround_time: u128,
    pub timeline: Vec<TimelineInterval>,
}

impl View for SimulationResult {
    type V = ResultModel;

    open spec fn view(&self) -> ResultModel {
        ResultModel {
            processes: table(self.processes@),
            total_time: self.total_time as nat,
            total_waiting_time: self.total_waiting_time as nat,
            total_turnaround_time: self.total_turnaround_time as nat,
            timeline: intervals(self.timeline@),
        }
    }
}

/// The identifiers of the processes that the timeline shows on the CPU, in
/// the order in which they were dispatched.
pub open spec fn dispatches(timeline: Seq<IntervalModel>) -> Seq<int>
    decreases timeline.len(),
{
    if timeline.len() == 0 {
        Seq::empty()
    } else {
        match timeline.last().process {
            Some(pid) => dispatches(timeline.drop_last()).push(pid),
            None => dispatches(timeline.drop_last()),
        }
    }
}

impl SimulationResult {
    /// The identifiers of the processes in the order in which they were
    /// handed the CPU, one entry for each slice.
    pub fn dispatch_order(&self) -> (order: Vec<usize>)
        ensures
            Seq::new(order.len() as nat, |k: int| order[k] as int) == dispatches(self@.timeline),
    {
        let ghost tl = self@.timeline;
        let mut order: Vec<usize> = Vec::new();
        let mut k: usize = 0;
        while k < self.timeline.len()
            invariant
                tl == self@.timeline,
                k <= self.timeline.len(),
                Seq::new(order.len() as nat, |j: int| order[j] as int) == dispatches(
                    tl.take(k as int),
                ),
            decreases self.timeline.len() - k,
        {
            let ghost before = Seq::new(order.len() as nat, |j: int| order[j] as int);
            proof {
                assert(tl.take(k + 1).drop_last() =~= tl.take(k as int));
                assert(tl.take(k + 1).last() == self.timeline[k as int]@);
            }
            match self.timeline[k].kind {
                IntervalKind::Execution { process } => {
                    order.push(process);
                    assert(Seq::new(order.len() as nat, |j: int| order[j] as int) =~= before.push(
                        process as int,
                    ));
                },
                IntervalKind::ContextSwitch => {},
            }
            k = k + 1;
        }
        assert(tl.take(k as int) =~= tl);
        order
    }
}

/// What simulating a workload comes to: the reason for which the workload is
/// turned down, or else `TimeOverflow` if the run ends beyond 64 bits, or
/// else what the finished machine hands back.
pub open spec fn simulation(defs: Seq<ProcessDef>, quantum: nat, switch_cost: nat) -> Result<
    ResultModel,
    WorkloadError,
> {
    let start = Machine::start(defs, quantum, switch_cost);
    match workload_rejection(defs, quantum) {
        Some(e) => Err(e),
        None => if start.finished().clock > u64::MAX {
            Err(WorkloadError::TimeOverflow)
        } else {
            Ok(start.finished().outcome())
        },
    }
}

/// A result as the model sees it.
pub open spec fn result_view(r: Result<SimulationResult, WorkloadError>) -> Result<
    ResultModel,
    WorkloadError,
> {
    match r {
        Ok(res) => Ok(res@),
        Err(e) => Err(e),
    }
}

impl Scheduler {
    /// Runs the main loop until every process has finished, and hands back
    /// the result; `TimeOverflow` if the run ends beyond 64 bits.
    ///
    /// The timeline must reach up to the clock, as it does when the
    /// scheduler is made and after every round that succeeded.
    pub fn run(self) -> (r: Result<SimulationResult, WorkloadError>)
        requires
            self.wf(),
            self@.settled(),
        ensures
            match r {
                Ok(res) => {
                    &&& self@.finished().clock <= u64::MAX
                    &&& res@ == self@.finished().outcome()
                    &&& res@.processes.len() == self@.procs.len()
                    &&& forall|i: int|
                        0 <= i < res@.processes.len() ==> (#[trigger] res@.processes[i]).def()
                            == self@.procs[i].def()
                    &&& res@.processes_accounted()
                    &&& res@.bursts_accounted()
                    &&& res@.timeline_ordered()
                    &&& contiguous(res@.timeline) <==> contiguous(self@.timeline)
                        && !self@.idles_midway()
                },
                Err(e) => e == WorkloadError::TimeOverflow && self@.finished().clock > u64::MAX,
            },
    {
        let ghost start = self@;
        let ghost mut n: nat = 0;
        let mut engine = self;
        while !engine.is_finished()
            invariant
                engine.wf(),
                engine@.settled(),
                start == self@,
                start.inv(),
                start.settled(),
                engine@ == start.steps(n),
                start.same_workload(engine@),
                contiguous(engine@.timeline) <==> contiguous(start.timeline) && forall|m: nat|
                    m < n ==> !(#[trigger] start.steps(m)).stalls(),
            decreases engine@.work_left(),
        {
            let ghost before = engine@;
            match engine.step() {
                Ok(_) => {
                    proof {
                        assert(start.steps(n + 1) == start.steps(n).step());
                        if before.stalls() {
                            assert(start.steps(n).stalls());
                        }
                        n = n + 1;
                    }
                },
                Err(e) => {
                    proof {
                        assert(start.steps(n + 1) == start.steps(n).step());
                        assert(!start.steps(n + 1).fits());
                        law_overflow_is_late_end(start);
                    }
                    return Err(e);
                },
            }
        }
        proof {
            lemma_finished_is(start, n);
            lemma_idles_midway_iff(start, n);
        }
        let count: usize = engine.processes.len();
        let mut total_waiting_time: u128 = 0;
        let mut total_turnaround_time: u128 = 0;
        let mut i: usize = 0;
        while i < count
            invariant
                count == engine.processes.len(),
                i <= count,
                total_waiting_time == waiting_to(engine@.procs, i as nat),
                total_turnaround_time == turnaround_to(engine@.procs, i as nat),
                total_waiting_time <= i * u64::MAX,
                total_turnaround_time <= i * u64::MAX,
            decreases count - i,
        {
            assert(engine@.procs[i as int] == engine.processes[i as int]@);
            let p = &engine.processes[i];
            total_waiting_time = total_waiting_time + p.waiting_time as u128;
            total_turnaround_time = total_turnaround_time + p.turn_around_time as u128;
            i = i + 1;
        }
        let ghost last = engine@;
        let res = SimulationResult {
            processes: engine.processes,
            total_time: engine.clock,
            total_waiting_time,
            total_turnaround_time,
            timeline: engine.timeline,
        };
        proof {
            assert(res@ == last.outcome());
            lemma_outcome(last);
        }
        Ok(res)
    }
}

/// Simulates round-robin scheduling of the processes that `entries`
/// declares, with the given time quantum and the given cost of a context
/// switch, from the first arrival until the last process has finished.
pub fn round_robin(entries: &Vec<ProcessEntry>, quantum: u32, switch_cost: u32) -> (r: Result<
    SimulationResult,
    WorkloadError,
>)
    ensures
        result_view(r) == simulation(definitions(entries@), quantum as nat, switch_cost as nat),
        r matches Ok(res) ==> {
            &&& res@.processes.len() == entries.len()
            &&& forall|i: int|
                0 <= i < entries.len() ==> (#[trigger] res@.processes[i]).def() == entries[i]@
            &&& res@.processes_accounted()
            &&& res@.bursts_accounted()
            &&& res@.timeline_ordered()
            &&& contiguous(res@.timeline) <==> !Machine::start(
                definitions(entries@),
                quantum as nat,
                switch_cost as nat,
            ).idles_midway()
        },
{
    match Scheduler::new(entries, quantum, switch_cost) {
        Err(e) => Err(e),
        Ok(engine) => {
            engine.run()
        },
    }
}

} // verus!
