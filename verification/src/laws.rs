//! What holds of every run of the machine, whatever the workload.

use vstd::prelude::*;
use crate::error::WorkloadError;
use crate::lemmas::{
    lemma_admission_order_exists, lemma_consumed_bounded, lemma_finished_is, lemma_gather,
    lemma_idles_midway_iff, lemma_jump, lemma_next_event_exists, lemma_run_head,
    lemma_run_head_timeline, lemma_sum_to_monotone,
};
use crate::model::{
    admission_order, contiguous, executed, is_next_event, next_event, sum_to, total, Machine,
    ProcessDef, ResultModel,
};
use crate::process::rejection;
use crate::scheduler::{first_rejection, workload_rejection};
use crate::simulation::{result_view, simulation, SimulationResult};

verus! {

/// A quantum that is not zero, and process definitions that are all valid.
pub open spec fn valid_workload(defs: Seq<ProcessDef>, quantum: nat) -> bool {
    &&& quantum > 0
    &&& forall|i: int| 0 <= i < defs.len() ==> (#[trigger] defs[i]).valid()
}

/// A process definition is turned down exactly if it is not valid: if it has
/// no CPU burst, a CPU burst of length zero, or a number of I/O waits other
/// than the number of its CPU bursts less one; more I/O waits than that in
/// particular.
pub proof fn law_invalid_process_is_rejected(def: ProcessDef)
    ensures
        rejection(def) is None <==> def.valid(),
        def.io_waits.len() >= def.cpu_bursts.len() ==> rejection(def) is Some,
        (exists|k: int| 0 <= k < def.cpu_bursts.len() && def.cpu_bursts[k] == 0) ==> rejection(
            def,
        ) is Some,
{
}

/// Unless every definition from `from` on is valid, the first that is not is
/// turned down, for one of the three reasons for which a definition is.
pub proof fn lemma_first_rejection(defs: Seq<ProcessDef>, from: nat)
    ensures
        first_rejection(defs, from) is None <==> forall|i: int|
            from <= i < defs.len() ==> (#[trigger] defs[i]).valid(),
        first_rejection(defs, from) matches Some(e) ==> e == WorkloadError::NoCpuBursts || e
            == WorkloadError::ZeroLengthBurst || e == WorkloadError::IoWaitMismatch,
    decreases defs.len() - from,
{
    if from < defs.len() {
        lemma_first_rejection(defs, from + 1);
        if rejection(defs[from as int]) is None {
            assert forall|i: int| from <= i < defs.len() && (forall|j: int|
                from + 1 <= j < defs.len() ==> (#[trigger] defs[j]).valid()) implies (
            #[trigger] defs[i]).valid() by {}
        } else {
            assert(!defs[from as int].valid());
        }
    }
}

/// A workload is turned down before anything is simulated exactly if the
/// quantum is zero or a process definition is not valid: if a process has no
/// CPU burst, a CPU burst of length zero, or a number of I/O waits other than
/// the number of its CPU bursts less one. The simulation then comes to the
/// error that says so, and to nothing else.
pub proof fn law_invalid_workload_is_rejected(
    defs: Seq<ProcessDef>,
    quantum: nat,
    switch_cost: nat,
)
    ensures
        workload_rejection(defs, quantum) is None <==> valid_workload(defs, quantum),
        workload_rejection(defs, quantum) matches Some(e) ==> simulation(
            defs,
            quantum,
            switch_cost,
        ) == Err::<ResultModel, WorkloadError>(e) && e != WorkloadError::TimeOverflow && e
            != WorkloadError::DurationOverflow,
        !valid_workload(defs, quantum) ==> simulation(defs, quantum, switch_cost) is Err,
{
    lemma_first_rejection(defs, 0);
}

/// Two runs of the simulation on the same workload come to the same result.
pub proof fn law_same_workload_same_result(
    defs: Seq<ProcessDef>,
    quantum: nat,
    switch_cost: nat,
    first: Result<SimulationResult, WorkloadError>,
    second: Result<SimulationResult, WorkloadError>,
)
    requires
        result_view(first) == simulation(defs, quantum, switch_cost),
        result_view(second) == simulation(defs, quantum, switch_cost),
    ensures
        result_view(first) == result_view(second),
        first matches Ok(a) ==> second matches Ok(b) && a@ == b@,
        first matches Err(e) ==> second == Err::<SimulationResult, WorkloadError>(e),
{
}

/// The machine is in order before anything has happened, wherever the clock
/// starts.
pub proof fn lemma_start(defs: Seq<ProcessDef>, quantum: nat, switch_cost: nat, clock: nat)
    requires
        valid_workload(defs, quantum),
    ensures
        Machine::start_at(defs, quantum, switch_cost, clock).inv(),
        Machine::start_at(defs, quantum, switch_cost, clock).settled(),
{
    let s = Machine::start_at(defs, quantum, switch_cost, clock);
    assert forall|i: int| 0 <= i < s.procs.len() implies (#[trigger] s.procs[i]).sound(i, clock) by {
        assert(defs[i].valid());
        assert(sum_to(defs[i].cpu_bursts, 0) == 0);
    }
    assert forall|i: int| 0 <= i < s.procs.len() implies #[trigger] executed(s.timeline, i)
        == s.procs[i].consumed() by {
        assert(sum_to(defs[i].cpu_bursts, 0) == 0);
    }
}

/// Where work is left, the machine finds a process to dispatch: those that
/// are due join the queue, and if the queue is empty then, the clock moves
/// to the earliest moment at which a process arrives or completes its I/O
/// wait, which lies ahead, and that process joins the queue. Nothing else
/// changes.
pub proof fn law_idle_clock_jumps_to_next_event(s: Machine)
    requires
        s.inv(),
        !s.done(),
    ensures
        s.prepare().inv(),
        s.prepare().ready.len() > 0,
        s.prepare().work_left() == s.work_left(),
        s.same_workload(s.prepare()),
        s.prepare().timeline == s.timeline,
        s.gather().ready.len() > 0 ==> s.prepare().clock == s.clock,
        s.gather().ready.len() == 0 ==> s.prepare().clock > s.clock && is_next_event(
            s.procs,
            s.prepare().clock,
        ),
{
    let n = s.procs.len();
    lemma_admission_order_exists(s.procs, s.clock);
    lemma_gather(s, admission_order(s.procs, s.clock));
    let g = s.gather();
    if g.ready.len() == 0 {
        let w = choose|w: int| 0 <= w < n && !((#[trigger] g.procs[w]).state is Finished);
        assert(g.procs[w].sound(w, g.clock));
        if g.procs[w].state is Ready {
            assert(g.ready.contains(w));
        }
        assert(g.procs[w].is_waiting());
        lemma_next_event_exists(g.procs);
        let t = next_event(g.procs);
        let at = choose|i: int|
            0 <= i < n && (#[trigger] g.procs[i]).is_waiting() && g.procs[i].ready_at() == t;
        assert(!g.procs[at].is_due(g.clock));
        lemma_jump(g, t);
        let j = Machine { clock: t, ..g };
        lemma_admission_order_exists(j.procs, t);
        lemma_gather(j, admission_order(j.procs, t));
        let p = j.gather();
        assert(p == s.prepare());
        assert(j.procs[at].is_due(t));
        assert(p.procs[at] == j.procs[at].readied());
        assert(p.ready.contains(at));
        assert(is_next_event(s.procs, t)) by {
            assert forall|i: int| 0 <= i < n implies ((#[trigger] s.procs[i]).is_waiting()
                ==> g.procs[i] == s.procs[i]) && (g.procs[i].is_waiting() ==> g.procs[i]
                == s.procs[i]) by {
                assert(!g.procs[i].is_due(s.clock));
            }
            assert(s.procs[at].is_waiting() && s.procs[at].ready_at() == t);
            assert forall|i: int| 0 <= i < n && (#[trigger] s.procs[i]).is_waiting() implies t
                <= s.procs[i].ready_at() by {
                assert(g.procs[i].is_waiting());
            }
        }
        assert(s.same_workload(p)) by {
            assert forall|i: int| 0 <= i < n implies (#[trigger] p.procs[i]).def()
                == s.procs[i].def() by {
                assert(g.procs[i].def() == s.procs[i].def());
                assert(p.procs[i].def() == j.procs[i].def());
            }
        }
    }
}

/// One round of the main loop keeps the machine in order and brings the
/// timeline up to the clock. Where work is left, it takes a positive amount
/// from it. The timeline is without gaps after the round if and only if it
/// was so before and the processor did not stall.
pub proof fn lemma_step(s: Machine)
    requires
        s.inv(),
        s.settled(),
    ensures
        s.step().inv(),
        s.step().settled(),
        s.same_workload(s.step()),
        !s.done() ==> s.step().work_left() < s.work_left(),
        contiguous(s.step().timeline) <==> contiguous(s.timeline) && !s.stalls(),
{
    if !s.done() {
        law_idle_clock_jumps_to_next_event(s);
        let p = s.prepare();
        lemma_run_head(p);
        lemma_run_head_timeline(p);
        let r = s.step();
        assert(s.same_workload(r)) by {
            assert forall|i: int| 0 <= i < s.procs.len() implies (#[trigger] r.procs[i]).def()
                == s.procs[i].def() by {
                assert(p.procs[i].def() == s.procs[i].def());
            }
        }
    }
}

/// Any number of rounds keeps the machine in order. The timeline is without
/// gaps after them if and only if it was so before and the processor stalled
/// in none of them.
pub proof fn lemma_steps(s: Machine, n: nat)
    requires
        s.inv(),
        s.settled(),
    ensures
        s.steps(n).inv(),
        s.steps(n).settled(),
        s.same_workload(s.steps(n)),
        contiguous(s.steps(n).timeline) <==> contiguous(s.timeline) && forall|m: nat|
            m < n ==> !(#[trigger] s.steps(m)).stalls(),
    decreases n,
{
    if n > 0 {
        let before = s.steps((n - 1) as nat);
        lemma_steps(s, (n - 1) as nat);
        lemma_step(before);
        assert(s.same_workload(s.steps(n))) by {
            assert forall|i: int| 0 <= i < s.procs.len() implies (#[trigger] s.steps(
                n,
            ).procs[i]).def() == s.procs[i].def() by {
                assert(before.procs[i].def() == s.procs[i].def());
            }
        }
        if forall|m: nat| m < n ==> !(#[trigger] s.steps(m)).stalls() {
            assert forall|m: nat| m < n - 1 implies !(#[trigger] s.steps(m)).stalls() by {}
        }
    }
}

/// The first round can be taken first: `n + 1` rounds are one round and `n`
/// more.
pub proof fn lemma_steps_front(s: Machine, n: nat)
    ensures
        s.steps(n + 1) == s.step().steps(n),
    decreases n,
{
    assert(s.steps(n + 1) == s.steps(n).step());
    if n == 0 {
        assert(s.steps(0) == s);
        assert(s.step().steps(0) == s.step());
    } else {
        lemma_steps_front(s, (n - 1) as nat);
        assert(s.step().steps(n) == s.step().steps((n - 1) as nat).step());
    }
}

/// Every run comes to an end: after some number of rounds every process has
/// finished.
pub proof fn law_run_terminates(s: Machine)
    requires
        s.inv(),
        s.settled(),
    ensures
        exists|n: nat| (#[trigger] s.steps(n)).done(),
        s.finished().done(),
        s.finished().inv(),
        s.finished().settled(),
        s.same_workload(s.finished()),
    decreases s.work_left(),
{
    if s.done() {
        assert(s.steps(0).done());
    } else {
        lemma_step(s);
        law_run_terminates(s.step());
        let n = choose|n: nat| (#[trigger] s.step().steps(n)).done();
        lemma_steps_front(s, n);
        assert(s.steps(n + 1).done());
    }
    let n = choose|n: nat| (#[trigger] s.steps(n)).done();
    lemma_finished_is(s, n);
    lemma_steps(s, n);
}

/// What a machine that is in order and has finished hands back accounts for
/// every process and every burst, and its timeline runs forward.
pub proof fn lemma_outcome(s: Machine)
    requires
        s.inv(),
        s.settled(),
        s.done(),
    ensures
        s.outcome().processes_accounted(),
        s.outcome().bursts_accounted(),
        s.outcome().timeline_ordered(),
{
    let r = s.outcome();
    assert forall|i: int| 0 <= i < s.procs.len() implies (#[trigger] s.procs[i]).state is Finished
        && s.procs[i].consumed() == total(s.procs[i].cpu_bursts) && s.procs[i].waited() == total(
        s.procs[i].io_waits,
    ) && s.procs[i].first_run is Some by {
        assert(s.procs[i].sound(i, s.clock));
        lemma_consumed_bounded(s.procs[i]);
        assert(sum_to(s.procs[i].cpu_bursts, 1) > 0) by {
            assert(sum_to(s.procs[i].cpu_bursts, 0) == 0);
        }
        lemma_sum_to_monotone(s.procs[i].cpu_bursts, 1, s.procs[i].cpu_bursts.len());
    }
    assert(r.processes_accounted());
    assert(r.bursts_accounted()) by {
        assert forall|i: int| 0 <= i < r.processes.len() implies #[trigger] executed(r.timeline, i)
            == total(r.processes[i].cpu_bursts) by {
            assert(executed(s.timeline, i) == s.procs[i].consumed());
        }
    }
}

/// In the result of the run of a valid workload, every process has finished,
/// and no earlier than it arrived. Its turnaround time is the time from its
/// arrival to its completion. Its waiting time is what is left of that once
/// its CPU bursts and I/O waits are taken off, and is not negative. The
/// records are those of the processes that were declared, in their order.
pub proof fn law_every_process_accounted(defs: Seq<ProcessDef>, quantum: nat, switch_cost: nat)
    requires
        valid_workload(defs, quantum),
    ensures
        ({
            let r = Machine::start(defs, quantum, switch_cost).finished().outcome();
            &&& r.processes_accounted()
            &&& r.processes.len() == defs.len()
            &&& forall|i: int| 0 <= i < defs.len() ==> (#[trigger] r.processes[i]).def() == defs[i]
        }),
{
    let s = Machine::start(defs, quantum, switch_cost);
    lemma_start(defs, quantum, switch_cost, 0);
    law_run_terminates(s);
    lemma_outcome(s.finished());
    assert forall|i: int| 0 <= i < defs.len() implies (#[trigger] s.finished().procs[i]).def()
        == defs[i] by {
        assert(s.procs[i].def() == defs[i]);
    }
}

/// In the result of the run of a valid workload, the intervals of the
/// timeline during which a process runs add up to the CPU bursts that were
/// declared for it.
pub proof fn law_execution_adds_up_to_bursts(defs: Seq<ProcessDef>, quantum: nat, switch_cost: nat)
    requires
        valid_workload(defs, quantum),
    ensures
        Machine::start(defs, quantum, switch_cost).finished().outcome().bursts_accounted(),
        forall|i: int|
            0 <= i < defs.len() ==> #[trigger] executed(
                Machine::start(defs, quantum, switch_cost).finished().outcome().timeline,
                i,
            ) == total(defs[i].cpu_bursts),
{
    let s = Machine::start(defs, quantum, switch_cost);
    lemma_start(defs, quantum, switch_cost, 0);
    law_run_terminates(s);
    lemma_outcome(s.finished());
    let r = s.finished().outcome();
    assert forall|i: int| 0 <= i < defs.len() implies #[trigger] executed(r.timeline, i) == total(
        defs[i].cpu_bursts,
    ) by {
        assert(s.procs[i].def() == defs[i]);
        assert(s.finished().procs[i].def() == s.procs[i].def());
        assert(executed(r.timeline, i) == total(r.processes[i].cpu_bursts));
    }
}

/// In the result of the run of a valid workload, the timeline runs forward:
/// no interval ends before it starts, none starts before the one before it
/// has ended, and the last ends where the run ends. An interval during which
/// a process runs is not empty.
pub proof fn law_timeline_runs_forward(defs: Seq<ProcessDef>, quantum: nat, switch_cost: nat)
    requires
        valid_workload(defs, quantum),
    ensures
        Machine::start(defs, quantum, switch_cost).finished().outcome().timeline_ordered(),
{
    let s = Machine::start(defs, quantum, switch_cost);
    lemma_start(defs, quantum, switch_cost, 0);
    law_run_terminates(s);
    lemma_outcome(s.finished());
}

/// The timeline of a run is without gaps if and only if the processor never
/// stalls in it: never finds itself with nothing to run after it has run
/// something and while work is left.
pub proof fn lemma_gaps_are_stalls(defs: Seq<ProcessDef>, quantum: nat, switch_cost: nat)
    requires
        valid_workload(defs, quantum),
    ensures
        contiguous(Machine::start(defs, quantum, switch_cost).finished().outcome().timeline)
            <==> !Machine::start(defs, quantum, switch_cost).idles_midway(),
{
    let s = Machine::start(defs, quantum, switch_cost);
    lemma_start(defs, quantum, switch_cost, 0);
    law_run_terminates(s);
    let n = choose|n: nat| (#[trigger] s.steps(n)).done();
    lemma_finished_is(s, n);
    lemma_steps(s, n);
    lemma_idles_midway_iff(s, n);
}

/// In the result of the run of a valid workload in which the processor
/// never stalls, the timeline is without gaps: each interval starts at the
/// moment at which the one before it ended.
pub proof fn law_timeline_without_gaps(defs: Seq<ProcessDef>, quantum: nat, switch_cost: nat)
    requires
        valid_workload(defs, quantum),
        !Machine::start(defs, quantum, switch_cost).idles_midway(),
    ensures
        contiguous(Machine::start(defs, quantum, switch_cost).finished().outcome().timeline),
{
    lemma_gaps_are_stalls(defs, quantum, switch_cost);
}

/// In the result of the run of a valid workload in which the processor
/// stalls, the timeline has a gap: the time for which nothing was there to
/// run is in no interval.
pub proof fn law_timeline_gap_where_stalled(defs: Seq<ProcessDef>, quantum: nat, switch_cost: nat)
    requires
        valid_workload(defs, quantum),
        Machine::start(defs, quantum, switch_cost).idles_midway(),
    ensures
        !contiguous(Machine::start(defs, quantum, switch_cost).finished().outcome().timeline),
{
    lemma_gaps_are_stalls(defs, quantum, switch_cost);
}

/// `a` rounds and then `b` more are `a + b` rounds.
pub proof fn lemma_steps_add(s: Machine, a: nat, b: nat)
    ensures
        s.steps(a).steps(b) == s.steps(a + b),
    decreases b,
{
    if b > 0 {
        lemma_steps_add(s, a, (b - 1) as nat);
        assert(s.steps(a + b) == s.steps((a + b - 1) as nat).step());
    }
}

/// One round does not turn the clock back, and a process that is in an I/O
/// wait before it is either in that wait after it, or the wait is over by
/// then.
pub proof fn lemma_step_passes_waits(s: Machine)
    requires
        s.inv(),
        s.settled(),
    ensures
        s.clock <= s.step().clock,
        forall|i: int|
            0 <= i < s.procs.len() && (#[trigger] s.procs[i]).state is Blocked ==> {
                ||| s.step().procs[i].state == s.procs[i].state
                ||| s.procs[i].wait_end() <= s.step().clock
            },
{
    if !s.done() {
        let n = s.procs.len();
        law_idle_clock_jumps_to_next_event(s);
        lemma_admission_order_exists(s.procs, s.clock);
        lemma_gather(s, admission_order(s.procs, s.clock));
        let g = s.gather();
        let p = s.prepare();
        let h = p.ready[0];
        let r = s.step();
        assert(p.procs[h].state is Ready);
        assert(p.clock <= r.clock);
        assert forall|i: int| 0 <= i < n && (#[trigger] s.procs[i]).state is Blocked implies {
            ||| r.procs[i].state == s.procs[i].state
            ||| s.procs[i].wait_end() <= r.clock
        } by {
            if g.procs[i].state == s.procs[i].state {
                if p.procs[i].state == s.procs[i].state {
                    assert(i != h);
                    assert(r.procs[i] == p.procs[i]);
                } else {
                    assert(g.ready.len() == 0);
                    let j = Machine { clock: next_event(g.procs), ..g };
                    assert(p == j.gather());
                    assert(j.procs[i].is_due(j.clock));
                }
            } else {
                assert(s.procs[i].is_due(s.clock));
            }
        }
    }
}

/// No number of rounds turns the clock back, and a process that is in an
/// I/O wait before them is either in that wait after them, or the wait is
/// over by then.
pub proof fn lemma_steps_pass_waits(s: Machine, k: nat)
    requires
        s.inv(),
        s.settled(),
    ensures
        s.clock <= s.steps(k).clock,
        forall|i: int|
            0 <= i < s.procs.len() && (#[trigger] s.procs[i]).state is Blocked ==> {
                ||| s.steps(k).procs[i].state == s.procs[i].state
                ||| s.procs[i].wait_end() <= s.steps(k).clock
            },
    decreases k,
{
    if k > 0 {
        let before = s.steps((k - 1) as nat);
        lemma_steps_pass_waits(s, (k - 1) as nat);
        lemma_steps(s, (k - 1) as nat);
        lemma_step_passes_waits(before);
        assert forall|i: int|
            0 <= i < s.procs.len() && (#[trigger] s.procs[i]).state is Blocked implies {
            ||| s.steps(k).procs[i].state == s.procs[i].state
            ||| s.procs[i].wait_end() <= s.steps(k).clock
        } by {
            if before.procs[i].state == s.procs[i].state {
                assert(before.procs[i].state is Blocked);
            }
        }
    }
}

/// A run computes a moment beyond 64 bits if and only if it ends beyond 64
/// bits: no moment of a run lies after its end.
pub proof fn law_overflow_is_late_end(s: Machine)
    requires
        s.inv(),
        s.settled(),
    ensures
        s.overflows() <==> s.finished().clock > u64::MAX,
{
    law_run_terminates(s);
    let n = choose|n: nat| (#[trigger] s.steps(n)).done();
    lemma_finished_is(s, n);
    let f = s.finished();
    if f.clock > u64::MAX {
        assert(!s.steps(n).fits());
    }
    if s.overflows() {
        let m = choose|m: nat| !(#[trigger] s.steps(m)).fits();
        let at = s.steps(m);
        lemma_steps(s, m);
        if m <= n {
            lemma_steps_add(s, m, (n - m) as nat);
            lemma_steps_pass_waits(at, (n - m) as nat);
            assert(at.steps((n - m) as nat) == f);
        } else {
            crate::lemmas::lemma_steps_stay(s, n, m);
        }
        if at.clock <= u64::MAX {
            let i = choose|i: int|
                0 <= i < at.procs.len() && (#[trigger] at.procs[i]).wait_end() > u64::MAX;
            assert(f.procs[i].state is Finished);
        }
    }
}

} // verus!
