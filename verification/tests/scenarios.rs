use round_robin::error::WorkloadError;
use round_robin::process::{ProcessEntry, ProcessState};
use round_robin::simulation::{round_robin, SimulationResult};
use round_robin::timeline::{IntervalKind, TimelineInterval};

fn entry(arrival: u32, cpu: &[u32], io: &[u32]) -> ProcessEntry {
    ProcessEntry { arrival, cpu_durations: cpu.to_vec(), io_durations: io.to_vec() }
}

fn run(start: u64, end: u64, process: usize) -> TimelineInterval {
    TimelineInterval { start, end, kind: IntervalKind::Execution { process } }
}

fn switch(start: u64, end: u64) -> TimelineInterval {
    TimelineInterval { start, end, kind: IntervalKind::ContextSwitch }
}

fn simulate(entries: &[ProcessEntry], quantum: u32, switch_cost: u32) -> SimulationResult {
    round_robin(&entries.to_vec(), quantum, switch_cost).unwrap()
}

#[test]
fn single_process_single_burst() {
    let res = simulate(&[entry(0, &[300], &[])], 100, 10);
    assert_eq!(
        res.timeline,
        vec![run(0, 100, 0), switch(100, 110), run(110, 210, 0), switch(210, 220), run(220, 320, 0)]
    );
    assert_eq!(res.total_time, 320);
    let p = &res.processes[0];
    assert_eq!(p.id(), 0);
    assert_eq!(p.first_time_cpu(), Some(0));
    assert_eq!(p.finish_time(), Some(320));
    assert_eq!(p.turn_around_time(), 320);
    // Two context switches lie between arrival and completion.
    assert_eq!(p.waiting_time(), 20);
    assert_eq!(p.state(), ProcessState::Finished);
    assert!(p.is_finished());
    assert_eq!(p.cpu_index(), 1);
    assert_eq!(p.remaining_burst_time(), 0);
}

#[test]
fn single_process_without_switch_cost_never_waits() {
    let res = simulate(&[entry(0, &[300], &[])], 100, 0);
    assert_eq!(res.total_time, 300);
    assert_eq!(res.processes[0].finish_time(), Some(300));
    assert_eq!(res.processes[0].turn_around_time(), 300);
    assert_eq!(res.processes[0].waiting_time(), 0);
}

#[test]
fn no_switch_after_the_last_slice() {
    let res = simulate(&[entry(0, &[100], &[])], 100, 10);
    assert_eq!(res.timeline, vec![run(0, 100, 0)]);
    assert_eq!(res.total_time, 100);
}

#[test]
fn two_processes_alternate() {
    let res = simulate(&[entry(0, &[250], &[]), entry(0, &[250], &[])], 100, 0);
    let runs: Vec<TimelineInterval> = res
        .timeline
        .iter()
        .copied()
        .filter(|iv| iv.kind != IntervalKind::ContextSwitch)
        .collect();
    assert_eq!(
        runs,
        vec![
            run(0, 100, 0),
            run(100, 200, 1),
            run(200, 300, 0),
            run(300, 400, 1),
            run(400, 450, 0),
            run(450, 500, 1)
        ]
    );
    assert_eq!(res.total_time, 500);
    assert_eq!(res.processes[0].finish_time(), Some(450));
    assert_eq!(res.processes[1].finish_time(), Some(500));
    assert_eq!(res.total_turnaround_time, 950);
    let average = res.total_turnaround_time as f64 / res.processes.len() as f64;
    assert_eq!(average, 475.0);
    assert_eq!(res.total_waiting_time, 450);
}

#[test]
fn a_switch_of_no_length_is_recorded() {
    let res = simulate(&[entry(0, &[150], &[])], 100, 0);
    assert_eq!(res.timeline, vec![run(0, 100, 0), switch(100, 100), run(100, 150, 0)]);
}

#[test]
fn clock_jumps_to_the_end_of_a_pending_wait() {
    let res = simulate(&[entry(0, &[100, 100], &[500])], 100, 10);
    assert_eq!(res.timeline, vec![run(0, 100, 0), switch(100, 110), run(610, 710, 0)]);
    assert!(res.timeline.iter().all(|iv| iv.kind == IntervalKind::ContextSwitch || iv.start < iv.end));
    assert_eq!(res.total_time, 710);
    assert_eq!(res.processes[0].finish_time(), Some(710));
    assert_eq!(res.processes[0].turn_around_time(), 710);
    assert_eq!(res.processes[0].waiting_time(), 10);
}

#[test]
fn clock_jumps_to_the_first_arrival() {
    let res = simulate(&[entry(70, &[30], &[]), entry(40, &[30], &[])], 100, 5);
    assert_eq!(res.timeline, vec![run(40, 70, 1), switch(70, 75), run(75, 105, 0)]);
    assert_eq!(res.processes[1].first_time_cpu(), Some(40));
    assert_eq!(res.processes[1].finish_time(), Some(75));
    assert_eq!(res.processes[1].waiting_time(), 5);
    assert_eq!(res.processes[0].first_time_cpu(), Some(75));
    assert_eq!(res.processes[0].finish_time(), Some(105));
    assert_eq!(res.processes[0].waiting_time(), 5);
}

#[test]
fn clock_jumps_to_the_earlier_of_arrival_and_wait() {
    // The first process blocks until 150, the second arrives at 120: the
    // clock goes to 120.
    let res = simulate(&[entry(0, &[50, 50], &[100]), entry(120, &[10], &[])], 100, 0);
    assert_eq!(
        res.timeline,
        vec![run(0, 50, 0), switch(50, 50), run(120, 130, 1), switch(130, 130), run(150, 200, 0)]
    );
}

#[test]
fn io_completion_enters_before_simultaneous_arrival() {
    let res = simulate(&[entry(200, &[100], &[]), entry(0, &[100, 100], &[100])], 100, 0);
    assert_eq!(
        res.timeline,
        vec![run(0, 100, 1), switch(100, 100), run(200, 300, 1), switch(300, 300), run(300, 400, 0)]
    );
    assert_eq!(res.processes[1].finish_time(), Some(300));
    assert_eq!(res.processes[0].finish_time(), Some(400));
}

#[test]
fn simultaneous_arrivals_enter_by_identifier() {
    let res = simulate(&[entry(10, &[50], &[]), entry(0, &[50], &[]), entry(0, &[50], &[])], 100, 0);
    let order: Vec<IntervalKind> = res
        .timeline
        .iter()
        .map(|iv| iv.kind)
        .filter(|k| *k != IntervalKind::ContextSwitch)
        .collect();
    assert_eq!(
        order,
        vec![
            IntervalKind::Execution { process: 1 },
            IntervalKind::Execution { process: 2 },
            IntervalKind::Execution { process: 0 }
        ]
    );
}

#[test]
fn arrivals_enter_in_order_of_arrival() {
    let res =
        simulate(&[entry(30, &[10], &[]), entry(20, &[10], &[]), entry(0, &[100], &[])], 100, 0);
    assert_eq!(
        res.timeline,
        vec![run(0, 100, 2), switch(100, 100), run(100, 110, 1), switch(110, 110), run(110, 120, 0)]
    );
}

#[test]
fn earlier_io_completion_enters_before_later_arrival() {
    // At 300 both the second process (I/O over at 250) and the third
    // (arrived at 260) are due.
    let res = simulate(
        &[entry(0, &[300], &[]), entry(0, &[50, 10], &[200]), entry(260, &[10], &[])],
        300,
        0,
    );
    assert_eq!(
        res.timeline,
        vec![
            run(0, 300, 0),
            switch(300, 300),
            run(300, 350, 1),
            switch(350, 350),
            run(350, 360, 2),
            switch(360, 360),
            run(550, 560, 1)
        ]
    );
}

#[test]
fn earlier_arrival_enters_before_later_io_completion() {
    // The second process runs 0..50 and blocks until 250; the third arrives
    // at 240. The first holds the CPU from 50 to 350, so both are due
    // together, the third ahead of the second.
    let res = simulate(
        &[entry(10, &[300], &[]), entry(0, &[50, 10], &[200]), entry(240, &[10], &[])],
        300,
        0,
    );
    assert_eq!(
        res.timeline,
        vec![
            run(0, 50, 1),
            switch(50, 50),
            run(50, 350, 0),
            switch(350, 350),
            run(350, 360, 2),
            switch(360, 360),
            run(360, 370, 1)
        ]
    );
}

#[test]
fn preempted_process_stays_ahead_of_arrivals_during_its_slice() {
    let res = simulate(&[entry(0, &[200], &[]), entry(50, &[100], &[])], 100, 0);
    assert_eq!(
        res.timeline,
        vec![run(0, 100, 0), switch(100, 100), run(100, 200, 0), switch(200, 200), run(200, 300, 1)]
    );
    assert_eq!(res.processes[0].finish_time(), Some(200));
    assert_eq!(res.processes[1].finish_time(), Some(300));
    assert_eq!(res.processes[1].first_time_cpu(), Some(200));
}

#[test]
fn wait_of_no_length_sends_the_process_to_the_tail() {
    let res = simulate(&[entry(0, &[10, 10], &[0]), entry(0, &[10], &[])], 100, 0);
    assert_eq!(
        res.timeline,
        vec![run(0, 10, 0), switch(10, 10), run(10, 20, 1), switch(20, 20), run(20, 30, 0)]
    );
}

#[test]
fn mixed_workload() {
    let res = simulate(&[entry(0, &[250, 100], &[50]), entry(0, &[150], &[])], 100, 10);
    assert_eq!(
        res.timeline,
        vec![
            run(0, 100, 0),
            switch(100, 110),
            run(110, 210, 1),
            switch(210, 220),
            run(220, 320, 0),
            switch(320, 330),
            run(330, 380, 1),
            switch(380, 390),
            run(390, 440, 0),
            switch(440, 450),
            run(500, 600, 0)
        ]
    );
    assert_eq!(res.total_time, 600);
    let first = &res.processes[0];
    let second = &res.processes[1];
    assert_eq!(first.first_time_cpu(), Some(0));
    assert_eq!(first.finish_time(), Some(600));
    assert_eq!(first.turn_around_time(), 600);
    assert_eq!(first.waiting_time(), 200);
    assert_eq!(second.first_time_cpu(), Some(110));
    assert_eq!(second.finish_time(), Some(390));
    assert_eq!(second.turn_around_time(), 390);
    assert_eq!(second.waiting_time(), 240);
    assert_eq!(res.total_waiting_time, 440);
    assert_eq!(res.total_turnaround_time, 990);
    assert_eq!(res.total_waiting_time as f64 / 2.0, 220.0);
    assert_eq!(res.total_turnaround_time as f64 / 2.0, 495.0);
}

#[test]
fn completion_counts_the_switch_that_follows() {
    // The first process leaves the CPU at 100; the switch to the second ends
    // at 110.
    let res = simulate(&[entry(0, &[100], &[]), entry(0, &[100], &[])], 100, 10);
    assert_eq!(res.processes[0].finish_time(), Some(110));
    assert_eq!(res.processes[1].finish_time(), Some(210));
    assert_eq!(res.total_time, 210);
}

#[test]
fn wait_starts_after_the_switch() {
    let res = simulate(&[entry(0, &[100, 100], &[40]), entry(0, &[300], &[])], 300, 10);
    // The first process blocks at 110 until 150; the second holds the CPU
    // from 110 to 410.
    assert_eq!(
        res.timeline,
        vec![run(0, 100, 0), switch(100, 110), run(110, 410, 1), switch(410, 420), run(420, 520, 0)]
    );
    assert_eq!(res.processes[0].waiting_time(), 520 - 200 - 40);
}

#[test]
fn empty_workload() {
    let res = simulate(&[], 100, 10);
    assert!(res.processes.is_empty());
    assert!(res.timeline.is_empty());
    assert_eq!(res.total_time, 0);
    assert_eq!(res.total_waiting_time, 0);
    assert_eq!(res.total_turnaround_time, 0);
}

#[test]
fn rejects_zero_quantum() {
    let r = round_robin(&vec![entry(0, &[100], &[])], 0, 10);
    assert_eq!(r.err(), Some(WorkloadError::ZeroQuantum));
    let r = round_robin(&vec![entry(0, &[], &[])], 0, 10);
    assert_eq!(r.err(), Some(WorkloadError::ZeroQuantum));
}

#[test]
fn rejects_too_many_io_waits() {
    let r = round_robin(&vec![entry(0, &[100, 100], &[10, 10])], 100, 10);
    assert_eq!(r.err(), Some(WorkloadError::IoWaitMismatch));
}

#[test]
fn rejects_too_few_io_waits() {
    let r = round_robin(&vec![entry(0, &[100, 100], &[])], 100, 10);
    assert_eq!(r.err(), Some(WorkloadError::IoWaitMismatch));
}

#[test]
fn rejects_burst_of_no_length() {
    let r = round_robin(&vec![entry(0, &[100, 0], &[10])], 100, 10);
    assert_eq!(r.err(), Some(WorkloadError::ZeroLengthBurst));
}

#[test]
fn rejects_process_without_bursts() {
    let r = round_robin(&vec![entry(0, &[], &[])], 100, 10);
    assert_eq!(r.err(), Some(WorkloadError::NoCpuBursts));
}

#[test]
fn reports_the_first_process_that_is_not_valid() {
    let r = round_robin(
        &vec![entry(0, &[100], &[]), entry(0, &[0], &[]), entry(0, &[], &[])],
        100,
        10,
    );
    assert_eq!(r.err(), Some(WorkloadError::ZeroLengthBurst));
    let r = round_robin(&vec![entry(0, &[], &[]), entry(0, &[0], &[])], 100, 10);
    assert_eq!(r.err(), Some(WorkloadError::NoCpuBursts));
}
