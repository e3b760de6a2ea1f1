//! The scheduler: the executable machine, proved to move as the model says.

use std::collections::VecDeque;
use vstd::prelude::*;
use crate::error::WorkloadError;
use crate::laws::{lemma_first_rejection, lemma_start};
use crate::lemmas::{
    lemma_after_slice_sound, lemma_gather, lemma_jump, lemma_next_event_is, lemma_run_head,
    lemma_run_head_timeline,
};
use crate::model::{
    admitted_before, contiguous, is_admission_order, is_next_event, slice_len, Machine,
    ProcessDef, ProcessModel,
};
use crate::process::{rejection, Process, ProcessEntry, ProcessState};
use crate::timeline::{intervals, IntervalKind, TimelineInterval};

verus! {

/// The definitions in `entries` as the model sees them.
pub open spec fn definitions(entries: Seq<ProcessEntry>) -> Seq<ProcessDef> {
    Seq::new(entries.len(), |i: int| entries[i]@)
}

/// The records in `processes` as the model sees them.
pub open spec fn table(processes: Seq<Process>) -> Seq<ProcessModel> {
    Seq::new(processes.len(), |i: int| processes[i]@)
}

/// The identifiers in `queue` as unbounded integers.
pub open spec fn positions(queue: Seq<usize>) -> Seq<int> {
    Seq::new(queue.len(), |k: int| queue[k] as int)
}

/// The reason for which the first definition from position `from` on that
/// is not valid is turned down, or `None` if all of them are valid.
pub open spec fn first_rejection(defs: Seq<ProcessDef>, from: nat) -> Option<WorkloadError>
    decreases defs.len() - from,
{
    if from >= defs.len() {
        None
    } else if rejection(defs[from as int]) is Some {
        rejection(defs[from as int])
    } else {
        first_rejection(defs, from + 1)
    }
}

/// The reason for which a workload is turned down before anything is
/// simulated, or `None` for one that is accepted. A quantum of zero is
/// reported first, then the first process definition that is not valid.
pub open spec fn workload_rejection(defs: Seq<ProcessDef>, quantum: nat) -> Option<WorkloadError> {
    if quantum == 0 {
        Some(WorkloadError::ZeroQuantum)
    } else {
        first_rejection(defs, 0)
    }
}

/// The state of one simulation: the clock, the process table, the ready
/// queue, and the timeline so far.
pub struct Scheduler {
    pub(crate) processes: Vec<Process>,
    pub(crate) quantum: u32,
    pub(crate) switch_cost: u32,
    pub(crate) clock: u64,
    pub(crate) ready: VecDeque<usize>,
    pub(crate) timeline: Vec<TimelineInterval>,
}

impl View for Scheduler {
    type V = Machine;

    open(crate) spec fn view(&self) -> Machine {
        Machine {
            procs: table(self.processes@),
            quantum: self.quantum as nat,
            switch_cost: self.switch_cost as nat,
            clock: self.clock as nat,
            ready: positions(self.ready@),
            timeline: intervals(self.timeline@),
        }
    }
}

impl Scheduler {
    /// The scheduler is in order: it is so when it is made, and every round
    /// leaves it so.
    pub open spec fn wf(&self) -> bool {
        self@.inv()
    }

    /// A scheduler for the processes that `entries` declares, with the clock
    /// at zero, if the workload is accepted; the reason for which it is not,
    /// otherwise. The identifier of a process is its position in `entries`.
    pub fn new(entries: &Vec<ProcessEntry>, quantum: u32, switch_cost: u32) -> (r: Result<
        Scheduler,
        WorkloadError,
    >)
        ensures
            match r {
                Ok(s) => {
                    &&& workload_rejection(definitions(entries@), quantum as nat) is None
                    &&& s@ == Machine::start(
                        definitions(entries@),
                        quantum as nat,
                        switch_cost as nat,
                    )
                    &&& s.wf()
                    &&& s@.settled()
                },
                Err(e) => workload_rejection(definitions(entries@), quantum as nat) == Some(e),
            },
    {
        Scheduler::starting_at(entries, quantum, switch_cost, 0)
    }

    /// A scheduler as `new` makes it, but with the clock at `clock`: for a
    /// machine that has been up for that long when the workload is handed to
    /// it. A process whose arrival time is earlier than that is due at once.
    pub fn starting_at(
        entries: &Vec<ProcessEntry>,
        quantum: u32,
        switch_cost: u32,
        clock: u64,
    ) -> (r: Result<Scheduler, WorkloadError>)
        ensures
            match r {
                Ok(s) => {
                    &&& workload_rejection(definitions(entries@), quantum as nat) is None
                    &&& s@ == Machine::start_at(
                        definitions(entries@),
                        quantum as nat,
                        switch_cost as nat,
                        clock as nat,
                    )
                    &&& s.wf()
                    &&& s@.settled()
                },
                Err(e) => workload_rejection(definitions(entries@), quantum as nat) == Some(e),
            },
    {
        if quantum == 0 {
            return Err(WorkloadError::ZeroQuantum);
        }
        let ghost defs = definitions(entries@);
        let mut processes: Vec<Process> = Vec::new();
        let mut i: usize = 0;
        while i < entries.len()
            invariant
                i <= entries.len(),
                processes.len() == i,
                quantum > 0,
                defs == definitions(entries@),
                first_rejection(defs, 0) == first_rejection(defs, i as nat),
                forall|j: int|
                    0 <= j < i ==> rejection(defs[j]) is None && (#[trigger] processes[j])@
                        == ProcessModel::fresh(j, defs[j]),
            decreases entries.len() - i,
        {
            let entry = &entries[i];
            match Process::new(
                i,
                entry.arrival,
                entry.cpu_durations.clone(),
                entry.io_durations.clone(),
            ) {
                Ok(p) => {
                    assert(defs[i as int] == entry@);
                    processes.push(p);
                },
                Err(e) => {
                    assert(defs[i as int] == entry@);
                    assert(first_rejection(defs, i as nat) == Some(e));
                    return Err(e);
                },
            }
            i = i + 1;
        }
        let s = Scheduler {
            processes,
            quantum,
            switch_cost,
            clock,
            ready: VecDeque::new(),
            timeline: Vec::new(),
        };
        proof {
            let start = Machine::start_at(defs, quantum as nat, switch_cost as nat, clock as nat);
            assert(s@.procs =~= start.procs);
            assert(s@.ready =~= start.ready);
            assert(s@.timeline =~= start.timeline);
            lemma_first_rejection(defs, 0);
            lemma_start(defs, quantum as nat, switch_cost as nat, clock as nat);
        }
        Ok(s)
    }

    /// The moment that the clock shows.
    pub fn clock(&self) -> (t: u64)
        ensures
            t == self@.clock,
    {
        self.clock
    }

    /// The longest time for which a process holds the CPU at a stretch.
    pub fn quantum(&self) -> (q: u32)
        ensures
            q == self@.quantum,
    {
        self.quantum
    }

    /// The time that a context switch takes.
    pub fn switch_cost(&self) -> (c: u32)
        ensures
            c == self@.switch_cost,
    {
        self.switch_cost
    }

    /// The process table.
    pub fn processes(&self) -> (v: &Vec<Process>)
        ensures
            table(v@) == self@.procs,
    {
        &self.processes
    }

    /// The ready queue, head first.
    pub fn ready_queue(&self) -> (q: &VecDeque<usize>)
        ensures
            positions(q@) == self@.ready,
    {
        &self.ready
    }

    /// The timeline so far.
    pub fn timeline(&self) -> (v: &Vec<TimelineInterval>)
        ensures
            intervals(v@) == self@.timeline,
    {
        &self.timeline
    }

    /// Every process has finished.
    pub fn is_finished(&self) -> (b: bool)
        ensures
            b == self@.done(),
    {
        let mut i: usize = 0;
        while i < self.processes.len()
            invariant
                i <= self.processes.len(),
                forall|j: int| 0 <= j < i ==> (#[trigger] self@.procs[j]).state is Finished,
            decreases self.processes.len() - i,
        {
            if !self.processes[i].is_finished() {
                assert(!(self@.procs[i as int].state is Finished));
                return false;
            }
            i = i + 1;
        }
        true
    }

    /// Process `i` enters the ready queue before process `j`.
    fn enters_before(&self, i: usize, j: usize) -> (b: bool)
        requires
            i < self.processes.len(),
            j < self.processes.len(),
        ensures
            b == admitted_before(self@.procs, i as int, j as int),
    {
        let a = &self.processes[i];
        let c = &self.processes[j];
        let ta: u64 = a.ready_at();
        let tc: u64 = c.ready_at();
        ta < tc || (ta == tc && (a.rank() < c.rank() || (a.rank() == c.rank() && i < j)))
    }

    /// The processes that are due, in the order in which they enter the
    /// ready queue.
    fn due_order(&self) -> (due: Vec<usize>)
        ensures
            is_admission_order(self@.procs, self@.clock, positions(due@)),
    {
        let n: usize = self.processes.len();
        let mut due: Vec<usize> = Vec::new();
        let mut i: usize = 0;
        while i < n
            invariant
                n == self.processes.len(),
                i <= n,
                forall|k: int|
                    0 <= k < due.len() ==> (#[trigger] due[k]) < i && self@.procs[due[k] as int].is_due(
                        self@.clock,
                    ),
                forall|j: int|
                    0 <= j < i && (#[trigger] self@.procs[j]).is_due(self@.clock) ==> due@.contains(
                        j as usize,
                    ),
                forall|a: int, b: int|
                    0 <= a < b < due.len() ==> admitted_before(
                        self@.procs,
                        (#[trigger] due[a]) as int,
                        (#[trigger] due[b]) as int,
                    ),
            decreases n - i,
        {
            if self.processes[i].is_due(self.clock) {
                let mut pos: usize = due.len();
                while pos > 0 && self.enters_before(i, due[pos - 1])
                    invariant
                        n == self.processes.len(),
                        i < n,
                        pos <= due.len(),
                        forall|k: int| 0 <= k < due.len() ==> (#[trigger] due[k]) < i,
                        forall|k: int|
                            pos <= k < due.len() ==> admitted_before(
                                self@.procs,
                                i as int,
                                (#[trigger] due[k]) as int,
                            ),
                    decreases pos,
                {
                    pos = pos - 1;
                }
                let ghost before = due@;
                due.insert(pos, i);
                proof {
                    let procs = self@.procs;
                    assert(due@ == before.insert(pos as int, i));
                    assert forall|a: int, b: int| 0 <= a < b < due.len() implies admitted_before(
                        procs,
                        (#[trigger] due[a]) as int,
                        (#[trigger] due[b]) as int,
                    ) by {
                        let x = if a < pos {
                            before[a]
                        } else if a == pos {
                            i
                        } else {
                            before[a - 1]
                        };
                        let y = if b < pos {
                            before[b]
                        } else if b == pos {
                            i
                        } else {
                            before[b - 1]
                        };
                        assert(due[a] == x);
                        assert(due[b] == y);
                        if b == pos {
                            assert(!admitted_before(procs, i as int, before[pos - 1] as int));
                            assert(before[pos - 1] < i);
                            if a < pos - 1 {
                                assert(admitted_before(
                                    procs,
                                    before[a] as int,
                                    before[pos - 1] as int,
                                ));
                            }
                        }
                    }
                    assert forall|j: int|
                        0 <= j < i + 1 && (#[trigger] procs[j]).is_due(self@.clock) implies due@.contains(
                        j as usize,
                    ) by {
                        if j == i {
                            assert(due[pos as int] == i);
                        } else {
                            assert(before.contains(j as usize));
                            let k = choose|k: int| 0 <= k < before.len() && before[k] == j as usize;
                            if k < pos {
                                assert(due[k] == j as usize);
                            } else {
                                assert(due[k + 1] == j as usize);
                            }
                        }
                    }
                    assert forall|k: int| 0 <= k < due.len() implies (#[trigger] due[k]) < i + 1
                        && procs[due[k] as int].is_due(self@.clock) by {
                        if k < pos {
                            assert(due[k] == before[k]);
                        } else if k > pos {
                            assert(due[k] == before[k - 1]);
                        }
                    }
                }
            }
            i = i + 1;
        }
        proof {
            let order = positions(due@);
            assert forall|j: int|
                0 <= j < self@.procs.len() && (#[trigger] self@.procs[j]).is_due(
                    self@.clock,
                ) implies order.contains(j) by {
                assert(due@.contains(j as usize));
                let k = choose|k: int| 0 <= k < due.len() && due[k] == j as usize;
                assert(order[k] == j);
            }
            assert forall|a: int, b: int| 0 <= a < b < order.len() implies admitted_before(
                self@.procs,
                #[trigger] order[a],
                #[trigger] order[b],
            ) by {
                assert(admitted_before(self@.procs, due[a] as int, due[b] as int));
            }
        }
        due
    }

    /// Every process that is due joins the tail of the ready queue.
    pub(crate) fn gather(&mut self)
        requires
            old(self)@.inv(),
        ensures
            final(self)@ == old(self)@.gather(),
            final(self)@.inv(),
            final(self)@.work_left() == old(self)@.work_left(),
            final(self)@.done() == old(self)@.done(),
            old(self)@.same_workload(final(self)@),
            forall|i: int|
                0 <= i < final(self)@.procs.len() ==> !(#[trigger] final(self)@.procs[i]).is_due(
                    final(self)@.clock,
                ),
    {
        let due = self.due_order();
        let ghost s = self@;
        let ghost order = positions(due@);
        let mut k: usize = 0;
        while k < due.len()
            invariant
                k <= due.len(),
                order == positions(due@),
                is_admission_order(s.procs, s.clock, order),
                self@.quantum == s.quantum,
                self@.switch_cost == s.switch_cost,
                self@.clock == s.clock,
                self@.timeline == s.timeline,
                self@.procs.len() == s.procs.len(),
                forall|j: int|
                    0 <= j < s.procs.len() ==> #[trigger] self@.procs[j] == if order.subrange(
                        0,
                        k as int,
                    ).contains(j) {
                        s.procs[j].readied()
                    } else {
                        s.procs[j]
                    },
                self@.ready == s.ready + order.subrange(0, k as int),
            decreases due.len() - k,
        {
            let i: usize = due[k];
            let ghost before = self@;
            assert(order[k as int] == i);
            self.processes[i].make_ready();
            self.ready.push_back(i);
            proof {
                let seen = order.subrange(0, k as int);
                let seen_next = order.subrange(0, k + 1);
                assert(seen_next =~= seen.push(i as int));
                assert(self@.ready =~= before.ready.push(i as int));
                assert(self@.ready =~= s.ready + seen_next);
                assert(self@.procs[i as int] == before.procs[i as int].readied());
                assert(self@.timeline =~= s.timeline);
                assert forall|j: int| 0 <= j < s.procs.len() implies #[trigger] self@.procs[j]
                    == if seen_next.contains(j) {
                    s.procs[j].readied()
                } else {
                    s.procs[j]
                } by {
                    if j == i {
                        assert(seen_next[k as int] == i);
                    } else {
                        assert(self@.procs[j] == before.procs[j]);
                        if seen.contains(j) {
                            let m = choose|m: int| 0 <= m < seen.len() && seen[m] == j;
                            assert(seen_next[m] == j);
                        }
                        if seen_next.contains(j) {
                            let m = choose|m: int| 0 <= m < seen_next.len() && seen_next[m] == j;
                            assert(seen[m] == j);
                        }
                    }
                }
            }
            k = k + 1;
        }
        proof {
            lemma_gather(s, order);
            assert(order.subrange(0, k as int) =~= order);
            assert forall|j: int| 0 <= j < s.procs.len() implies #[trigger] self@.procs[j]
                == s.gather().procs[j] by {
                if order.contains(j) {
                    let m = choose|m: int| 0 <= m < order.len() && order[m] == j;
                    assert(s.procs[order[m]].is_due(s.clock));
                }
            }
            assert(self@.procs =~= s.gather().procs);
        }
    }

    /// With nothing to run, the clock jumps to the next moment at which a
    /// process becomes ready, and that process joins the queue.
    pub(crate) fn await_work(&mut self)
        requires
            old(self)@.inv(),
            !old(self)@.done(),
            old(self)@.ready.len() == 0,
            forall|i: int|
                0 <= i < old(self)@.procs.len() ==> !(#[trigger] old(self)@.procs[i]).is_due(
                    old(self)@.clock,
                ),
        ensures
            final(self)@ == old(self)@.await_work(),
            final(self)@.inv(),
            final(self)@.work_left() == old(self)@.work_left(),
            final(self)@.ready.len() > 0,
            final(self)@.clock > old(self)@.clock,
            final(self)@.timeline == old(self)@.timeline,
            old(self)@.same_workload(final(self)@),
    {
        let ghost s = self@;
        let n: usize = self.processes.len();
        let mut next: Option<u64> = None;
        let mut i: usize = 0;
        let ghost mut at: int = 0;
        while i < n
            invariant
                n == self.processes.len(),
                i <= n,
                s == self@,
                next is None ==> forall|j: int| 0 <= j < i ==> !(#[trigger] s.procs[j]).is_waiting(),
                next matches Some(t) ==> {
                    &&& 0 <= at < i
                    &&& s.procs[at].is_waiting()
                    &&& s.procs[at].ready_at() == t
                    &&& forall|j: int|
                        0 <= j < i && (#[trigger] s.procs[j]).is_waiting() ==> t <= s.procs[j].ready_at()
                },
            decreases n - i,
        {
            if self.processes[i].is_waiting() {
                let t: u64 = self.processes[i].ready_at();
                let earlier: bool = match next {
                    Some(best) => t < best,
                    None => true,
                };
                if earlier {
                    next = Some(t);
                    proof {
                        at = i as int;
                    }
                }
            }
            i = i + 1;
        }
        proof {
            let w = choose|w: int|
                0 <= w < s.procs.len() && !((#[trigger] s.procs[w]).state is Finished);
            assert(s.procs[w].sound(w, s.clock));
            if s.procs[w].state is Ready {
                assert(s.ready.contains(w));
            }
            assert(s.procs[w].is_waiting());
        }
        match next {
            Some(t) => {
                proof {
                    assert(is_next_event(s.procs, t as nat));
                    lemma_next_event_is(s.procs, t as nat);
                    assert(!s.procs[at].is_due(s.clock));
                    lemma_jump(s, t as nat);
                }
                self.clock = t;
                assert(self@ == Machine { clock: t as nat, ..s });
                self.gather();
                proof {
                    let j = Machine { clock: t as nat, ..s };
                    assert(j.procs[at].is_due(j.clock));
                    assert(self@.procs[at] == j.procs[at].readied());
                    assert(self@.ready.contains(at));
                }
            },
            None => {},
        }
    }

    /// Every process but `i` has finished.
    fn others_finished(&self, i: usize) -> (b: bool)
        ensures
            b == forall|j: int|
                0 <= j < self@.procs.len() && j != i ==> (#[trigger] self@.procs[j]).state is Finished,
    {
        let mut j: usize = 0;
        while j < self.processes.len()
            invariant
                j <= self.processes.len(),
                forall|k: int| 0 <= k < j && k != i ==> (#[trigger] self@.procs[k]).state is Finished,
            decreases self.processes.len() - j,
        {
            if j != i && !self.processes[j].is_finished() {
                assert(!(self@.procs[j as int].state is Finished));
                return false;
            }
            j = j + 1;
        }
        true
    }

    /// The slice that the head of the queue, `i`, is about to run: its
    /// length, the moment at which it ends, the moment that the clock shows
    /// once the process is off the CPU, and whether the simulation ends with
    /// it. `None` if one of these moments, or the end of the I/O wait that
    /// follows the slice, lies beyond 64 bits.
    fn measure_slice(&self, i: usize) -> (r: Option<(u32, u64, u64, bool)>)
        requires
            self@.inv(),
            self@.ready.len() > 0,
            i == self@.ready[0],
        ensures
            ({
                let m = self@.dispatch();
                let after = m.execute(i as int);
                match r {
                    None => !after.fits(),
                    Some((d, end, now, last)) => {
                        &&& after.fits()
                        &&& d == slice_len(self@.procs[i as int].remaining, self@.quantum)
                        &&& end == self@.clock + d
                        &&& now == after.clock
                        &&& last == m.is_last_slice(i as int)
                    },
                }
            }),
    {
        let ghost s = self@;
        let ghost m = s.dispatch();
        let ghost after = m.execute(i as int);
        proof {
            assert(s.procs[i as int].sound(i as int, s.clock));
            assert(m.procs[i as int] == s.procs[i as int].dispatched(s.clock));
            assert forall|j: int| 0 <= j < s.procs.len() && j != i implies m.procs[j]
                == s.procs[j] && after.procs[j] == s.procs[j] by {}
        }
        let p = &self.processes[i];
        assert(p.cpu_index < p.cpu_durations.len()) by {
            assert(s.procs[s.ready[0]].state is Ready);
            assert(p@ == s.procs[i as int]);
        }
        let d: u32 = if p.remaining_burst_time <= self.quantum {
            p.remaining_burst_time
        } else {
            self.quantum
        };
        let others: bool = self.others_finished(i);
        let last: bool = d == p.remaining_burst_time && p.cpu_index + 1 == p.cpu_durations.len()
            && others;
        assert(last == m.is_last_slice(i as int)) by {
            if m.is_last_slice(i as int) {
                assert forall|j: int| 0 <= j < s.procs.len() && j != i implies (
                #[trigger] s.procs[j]).state is Finished by {
                    assert(m.procs[j].state is Finished);
                }
            }
            if last {
                assert forall|j: int| 0 <= j < m.procs.len() && j != i implies (
                #[trigger] m.procs[j]).state is Finished by {
                    assert(s.procs[j].state is Finished);
                }
            }
        }
        let end: u64 = match self.clock.checked_add(d as u64) {
            Some(t) => t,
            None => {
                return None;
            },
        };
        let now: u64 = if last {
            end
        } else {
            match end.checked_add(self.switch_cost as u64) {
                Some(t) => t,
                None => {
                    return None;
                },
            }
        };
        if d == p.remaining_burst_time && p.cpu_index + 1 < p.cpu_durations.len() {
            let wait: u32 = p.io_durations[p.cpu_index];
            if now.checked_add(wait as u64).is_none() {
                assert(after.procs[i as int].state is Blocked);
                return None;
            }
        }
        proof {
            assert forall|j: int| 0 <= j < after.procs.len() implies (
            #[trigger] after.procs[j]).wait_end() <= u64::MAX by {
                if j != i {
                    assert(after.procs[j] == self.processes[j]@);
                }
            }
        }
        Some((d, end, now, last))
    }

    /// The head of the ready queue is handed the CPU.
    fn dispatch(&mut self) -> (i: usize)
        requires
            old(self)@.inv(),
            old(self)@.ready.len() > 0,
        ensures
            final(self)@ == old(self)@.dispatch(),
            i == old(self)@.ready[0],
    {
        let ghost s = self@;
        let i: usize = self.ready.pop_front().unwrap();
        assert(s.ready[0] == i);
        self.processes[i].start_running(self.clock);
        proof {
            assert(self@.ready =~= s.ready.drop_first());
            assert(self@.procs =~= s.dispatch().procs);
        }
        i
    }

    /// Process `i`, which holds the CPU, runs the slice that was measured
    /// for it.
    fn execute(&mut self, i: usize, d: u32, end: u64, now: u64, last: bool, Ghost(s): Ghost<Machine>)
        requires
            s.inv(),
            s.ready.len() > 0,
            i == s.ready[0],
            old(self)@ == s.dispatch(),
            s.dispatch().execute(i as int).fits(),
            d == slice_len(s.procs[i as int].remaining, s.quantum),
            end == s.clock + d,
            now == s.dispatch().execute(i as int).clock,
            last == s.dispatch().is_last_slice(i as int),
        ensures
            final(self)@ == s.dispatch().execute(i as int),
    {
        let ghost m = s.dispatch();
        let ghost after = m.execute(i as int);
        proof {
            assert(0 <= s.ready[0] < s.procs.len());
            assert(s.procs[s.ready[0]].state is Ready);
            assert(self@.procs.len() == s.procs.len());
            assert(self@.procs[i as int] == m.procs[i as int]);
            assert(s.procs[i as int].sound(i as int, s.clock));
            assert(m.procs[i as int] == s.procs[i as int].dispatched(s.clock));
            lemma_after_slice_sound(
                s.procs[i as int],
                i as int,
                s.clock,
                s.clock,
                s.quantum,
                now as nat,
            );
            assert(after.procs[i as int] == m.procs[i as int].after_slice(d as nat, now as nat));
            assert(after.procs[i as int].sound(i as int, now as nat));
        }
        self.timeline.push(
            TimelineInterval { start: self.clock, end, kind: IntervalKind::Execution { process: i } },
        );
        if !last {
            self.timeline.push(
                TimelineInterval { start: end, end: now, kind: IntervalKind::ContextSwitch },
            );
        }
        self.clock = now;
        self.processes[i].finish_slice(d, now);
        let back: bool = match self.processes[i].state {
            ProcessState::Ready => true,
            _ => false,
        };
        if back {
            self.ready.push_back(i);
        }
        proof {
            assert(self@.procs =~= after.procs);
            assert(self@.ready =~= after.ready);
            assert(self@.timeline =~= after.timeline);
        }
    }

    /// Every moment that the scheduler holds is written in 64 bits.
    pub proof fn lemma_fits(&self)
        ensures
            self@.fits(),
    {
        assert forall|i: int| 0 <= i < self@.procs.len() implies (
        #[trigger] self@.procs[i]).wait_end() <= u64::MAX by {
            assert(self@.procs[i] == self.processes[i]@);
        }
    }

    /// One round of the main loop: the processes that are due join the ready
    /// queue, the clock jumps ahead if there is nothing to run, and the head
    /// of the queue runs one slice. If a moment of the round lies beyond 64
    /// bits, only the first two of these happen, and the error says so.
    ///
    /// Work must be left: see `is_finished`.
    pub fn step(&mut self) -> (r: Result<(), WorkloadError>)
        requires
            old(self).wf(),
            !old(self)@.done(),
        ensures
            final(self).wf(),
            old(self)@.same_workload(final(self)@),
            match r {
                Ok(_) => {
                    &&& old(self)@.step().fits()
                    &&& final(self)@ == old(self)@.step()
                    &&& final(self)@.settled()
                    &&& final(self)@.work_left() < old(self)@.work_left()
                    &&& old(self)@.settled() ==> (contiguous(final(self)@.timeline) <==> contiguous(
                        old(self)@.timeline,
                    ) && !old(self)@.stalls())
                },
                Err(e) => {
                    &&& e == WorkloadError::TimeOverflow
                    &&& !old(self)@.step().fits()
                    &&& final(self)@ == old(self)@.prepare()
                },
            },
    {
        let ghost s0 = self@;
        self.gather();
        if self.ready.len() == 0 {
            self.await_work();
        }
        let ghost s1 = self@;
        assert(s1 == s0.prepare());
        let i: usize = self.ready[0];
        assert(i == s1.ready[0]);
        match self.measure_slice(i) {
            None => Err(WorkloadError::TimeOverflow),
            Some((d, end, now, last)) => {
                let j: usize = self.dispatch();
                self.execute(j, d, end, now, last, Ghost(s1));
                proof {
                    lemma_run_head(s1);
                    lemma_run_head_timeline(s1);
                    self.lemma_fits();
                }
                Ok(())
            },
        }
    }
}

} // verus!
