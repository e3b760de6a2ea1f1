use round_robin::error::WorkloadError;
use round_robin::process::{ProcessEntry, ProcessState};
use round_robin::scheduler::Scheduler;
use round_robin::timeline::{IntervalKind, TimelineInterval};

fn entry(arrival: u32, cpu: &[u32], io: &[u32]) -> ProcessEntry {
    ProcessEntry { arrival, cpu_durations: cpu.to_vec(), io_durations: io.to_vec() }
}

#[test]
fn new_scheduler_starts_at_zero() {
    let s = Scheduler::new(&vec![entry(5, &[10], &[]), entry(0, &[20, 30], &[4])], 100, 10).unwrap();
    assert_eq!(s.clock(), 0);
    assert_eq!(s.quantum(), 100);
    assert_eq!(s.switch_cost(), 10);
    assert!(s.ready_queue().is_empty());
    assert!(s.timeline().is_empty());
    assert_eq!(s.processes().len(), 2);
    assert_eq!(s.processes()[0].id(), 0);
    assert_eq!(s.processes()[1].id(), 1);
    assert_eq!(s.processes()[1].arrival(), 0);
    assert_eq!(s.processes()[1].remaining_burst_time(), 20);
    assert_eq!(s.processes()[0].state(), ProcessState::NotArrived);
    assert!(!s.is_finished());
}

#[test]
fn new_scheduler_rejects_what_is_not_valid() {
    assert_eq!(
        Scheduler::new(&vec![entry(0, &[10], &[])], 0, 0).err(),
        Some(WorkloadError::ZeroQuantum)
    );
    assert_eq!(
        Scheduler::new(&vec![entry(0, &[10], &[1])], 1, 0).err(),
        Some(WorkloadError::IoWaitMismatch)
    );
    assert_eq!(
        Scheduler::new(&vec![entry(0, &[10], &[]), entry(0, &[], &[])], 1, 0).err(),
        Some(WorkloadError::NoCpuBursts)
    );
    assert_eq!(
        Scheduler::new(&vec![entry(0, &[10, 0], &[3])], 1, 0).err(),
        Some(WorkloadError::ZeroLengthBurst)
    );
}

#[test]
fn scheduler_without_processes_is_finished() {
    let s = Scheduler::new(&vec![], 1, 0).unwrap();
    assert!(s.is_finished());
    let res = s.run().unwrap();
    assert_eq!(res.total_time, 0);
}

#[test]
fn step_runs_one_slice() {
    let mut s = Scheduler::new(&vec![entry(0, &[250], &[]), entry(0, &[50], &[])], 100, 10).unwrap();
    assert_eq!(s.step(), Ok(()));
    assert_eq!(s.clock(), 110);
    assert_eq!(s.ready_queue().iter().copied().collect::<Vec<usize>>(), vec![1, 0]);
    assert_eq!(s.processes()[0].state(), ProcessState::Ready);
    assert_eq!(s.processes()[0].remaining_burst_time(), 150);
    assert_eq!(s.processes()[0].first_time_cpu(), Some(0));
    assert_eq!(s.processes()[1].state(), ProcessState::Ready);
    assert_eq!(s.processes()[1].first_time_cpu(), None);
    assert_eq!(
        s.timeline(),
        &vec![
            TimelineInterval { start: 0, end: 100, kind: IntervalKind::Execution { process: 0 } },
            TimelineInterval { start: 100, end: 110, kind: IntervalKind::ContextSwitch }
        ]
    );
    assert_eq!(s.step(), Ok(()));
    assert_eq!(s.clock(), 170);
    assert_eq!(s.processes()[1].state(), ProcessState::Finished);
    assert_eq!(s.processes()[1].finish_time(), Some(170));
    assert_eq!(s.ready_queue().iter().copied().collect::<Vec<usize>>(), vec![0]);
    assert!(!s.is_finished());
}

#[test]
fn step_blocks_a_process_for_its_wait() {
    let mut s = Scheduler::new(&vec![entry(0, &[100, 100], &[500])], 100, 10).unwrap();
    assert_eq!(s.step(), Ok(()));
    assert_eq!(s.clock(), 110);
    assert_eq!(s.processes()[0].state(), ProcessState::BlockedOnIo { until: 610 });
    assert_eq!(s.processes()[0].cpu_index(), 1);
    assert_eq!(s.processes()[0].remaining_burst_time(), 100);
    assert!(s.ready_queue().is_empty());
    assert_eq!(s.timeline().len(), 2);
    assert_eq!(s.step(), Ok(()));
    assert_eq!(s.clock(), 710);
    assert_eq!(s.timeline().len(), 3);
    assert_eq!(
        s.timeline()[2],
        TimelineInterval { start: 610, end: 710, kind: IntervalKind::Execution { process: 0 } }
    );
    assert!(s.is_finished());
}

#[test]
fn run_after_steps_gives_the_same_as_run_alone() {
    let entries = vec![entry(0, &[250, 100], &[50]), entry(0, &[150], &[])];
    let whole = Scheduler::new(&entries, 100, 10).unwrap().run().unwrap();
    let mut s = Scheduler::new(&entries, 100, 10).unwrap();
    assert_eq!(s.step(), Ok(()));
    assert_eq!(s.step(), Ok(()));
    let rest = s.run().unwrap();
    assert_eq!(whole.timeline, rest.timeline);
    assert_eq!(whole.total_time, rest.total_time);
    assert_eq!(whole.total_waiting_time, rest.total_waiting_time);
}

#[test]
fn starting_at_takes_in_all_that_have_arrived_in_order_of_arrival() {
    let entries = vec![entry(30, &[10], &[]), entry(10, &[10], &[]), entry(20, &[10], &[])];
    let mut s = Scheduler::starting_at(&entries, 100, 0, 100).unwrap();
    assert_eq!(s.clock(), 100);
    assert_eq!(s.step(), Ok(()));
    assert_eq!(s.clock(), 110);
    assert_eq!(s.processes()[1].first_time_cpu(), Some(100));
    assert_eq!(s.processes()[1].finish_time(), Some(110));
    assert_eq!(s.ready_queue().iter().copied().collect::<Vec<usize>>(), vec![2, 0]);
    let res = s.run().unwrap();
    assert_eq!(res.dispatch_order(), vec![1, 2, 0]);
    assert_eq!(res.total_time, 130);
    assert_eq!(res.processes[0].turn_around_time(), 100);
    assert_eq!(res.processes[0].waiting_time(), 90);
}

#[test]
fn starting_at_rejects_what_new_rejects() {
    assert_eq!(
        Scheduler::starting_at(&vec![entry(0, &[10], &[])], 0, 0, 5).err(),
        Some(WorkloadError::ZeroQuantum)
    );
    assert_eq!(
        Scheduler::starting_at(&vec![entry(0, &[0], &[])], 1, 0, 5).err(),
        Some(WorkloadError::ZeroLengthBurst)
    );
}

#[test]
fn run_that_ends_at_the_last_moment_succeeds() {
    let s = Scheduler::starting_at(&vec![entry(0, &[100], &[])], 100, 10, u64::MAX - 100).unwrap();
    let res = s.run().unwrap();
    assert_eq!(res.total_time, u64::MAX);
    assert_eq!(res.processes[0].finish_time(), Some(u64::MAX));
    assert_eq!(res.processes[0].turn_around_time(), u64::MAX);
    assert_eq!(res.processes[0].waiting_time(), u64::MAX - 100);

    let entries = vec![entry(0, &[100], &[]), entry(0, &[100], &[])];
    let s = Scheduler::starting_at(&entries, 100, 10, u64::MAX - 210).unwrap();
    let res = s.run().unwrap();
    assert_eq!(res.total_time, u64::MAX);
}

#[test]
fn run_that_ends_after_the_last_moment_overflows() {
    let s = Scheduler::starting_at(&vec![entry(0, &[100], &[])], 100, 10, u64::MAX - 99).unwrap();
    assert_eq!(s.run().err(), Some(WorkloadError::TimeOverflow));

    // The second slice would end five units late.
    let entries = vec![entry(0, &[100], &[]), entry(0, &[100], &[])];
    let s = Scheduler::starting_at(&entries, 100, 10, u64::MAX - 205).unwrap();
    assert_eq!(s.run().err(), Some(WorkloadError::TimeOverflow));

    // The switch after the first slice would end late.
    let s = Scheduler::starting_at(&entries, 100, 10, u64::MAX - 105).unwrap();
    assert_eq!(s.run().err(), Some(WorkloadError::TimeOverflow));
}

#[test]
fn wait_that_ends_after_the_last_moment_overflows() {
    let s =
        Scheduler::starting_at(&vec![entry(0, &[10, 10], &[100])], 100, 0, u64::MAX - 50).unwrap();
    assert_eq!(s.run().err(), Some(WorkloadError::TimeOverflow));
}

#[test]
fn step_that_overflows_only_takes_in_what_is_due() {
    let mut s =
        Scheduler::starting_at(&vec![entry(0, &[100], &[])], 100, 10, u64::MAX - 50).unwrap();
    assert_eq!(s.step(), Err(WorkloadError::TimeOverflow));
    assert_eq!(s.clock(), u64::MAX - 50);
    assert_eq!(s.ready_queue().iter().copied().collect::<Vec<usize>>(), vec![0]);
    assert_eq!(s.processes()[0].state(), ProcessState::Ready);
    assert_eq!(s.processes()[0].first_time_cpu(), None);
    assert!(s.timeline().is_empty());
    assert_eq!(s.step(), Err(WorkloadError::TimeOverflow));
}
