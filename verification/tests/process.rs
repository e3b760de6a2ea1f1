use round_robin::error::WorkloadError;
use round_robin::process::{
    scale_durations, scale_entries, total_duration, Process, ProcessEntry, ProcessState,
};

#[test]
fn new_process_has_not_run() {
    let p = Process::new(3, 40, vec![100, 200], vec![50]).unwrap();
    assert_eq!(p.id(), 3);
    assert_eq!(p.arrival(), 40);
    assert_eq!(p.cpu_durations(), &vec![100, 200]);
    assert_eq!(p.io_durations(), &vec![50]);
    assert_eq!(p.cpu_index(), 0);
    assert_eq!(p.remaining_burst_time(), 100);
    assert_eq!(p.state(), ProcessState::NotArrived);
    assert_eq!(p.first_time_cpu(), None);
    assert_eq!(p.finish_time(), None);
    assert_eq!(p.waiting_time(), 0);
    assert_eq!(p.turn_around_time(), 0);
    assert!(!p.is_finished());
}

#[test]
fn new_process_without_bursts_is_rejected() {
    assert_eq!(Process::new(0, 0, vec![], vec![]).err(), Some(WorkloadError::NoCpuBursts));
    assert_eq!(Process::new(0, 0, vec![], vec![5]).err(), Some(WorkloadError::NoCpuBursts));
}

#[test]
fn new_process_with_burst_of_no_length_is_rejected() {
    assert_eq!(Process::new(0, 0, vec![0], vec![]).err(), Some(WorkloadError::ZeroLengthBurst));
    assert_eq!(
        Process::new(0, 0, vec![10, 0, 10], vec![1, 1]).err(),
        Some(WorkloadError::ZeroLengthBurst)
    );
    assert_eq!(
        Process::new(0, 0, vec![10, 0], vec![1, 1, 1]).err(),
        Some(WorkloadError::ZeroLengthBurst)
    );
}

#[test]
fn new_process_with_wrong_number_of_waits_is_rejected() {
    assert_eq!(Process::new(0, 0, vec![10], vec![1]).err(), Some(WorkloadError::IoWaitMismatch));
    assert_eq!(
        Process::new(0, 0, vec![10, 10], vec![]).err(),
        Some(WorkloadError::IoWaitMismatch)
    );
    assert_eq!(
        Process::new(0, 0, vec![10, 10], vec![1, 2]).err(),
        Some(WorkloadError::IoWaitMismatch)
    );
}

#[test]
fn new_process_accepts_wait_of_no_length() {
    assert!(Process::new(0, 0, vec![10, 10], vec![0]).is_ok());
}

#[test]
fn total_duration_adds_up() {
    assert_eq!(total_duration(&vec![]), 0);
    assert_eq!(total_duration(&vec![1, 2, 3]), 6);
    assert_eq!(total_duration(&vec![u32::MAX, u32::MAX]), 2 * (u32::MAX as u128));
}

#[test]
fn scale_durations_multiplies_each() {
    assert_eq!(scale_durations(&vec![1, 2, 3], 100), Some(vec![100, 200, 300]));
    assert_eq!(scale_durations(&vec![], 100), Some(vec![]));
    assert_eq!(scale_durations(&vec![5, 0], 0), Some(vec![0, 0]));
    assert_eq!(scale_durations(&vec![42_949_672], 100), Some(vec![4_294_967_200]));
}

#[test]
fn scale_durations_reports_overflow() {
    assert_eq!(scale_durations(&vec![1, 42_949_673], 100), None);
    assert_eq!(scale_durations(&vec![u32::MAX], 2), None);
}

#[test]
fn scale_entries_leaves_arrival_alone() {
    let entries = vec![
        ProcessEntry { arrival: 7, cpu_durations: vec![3, 1], io_durations: vec![2] },
        ProcessEntry { arrival: 0, cpu_durations: vec![4], io_durations: vec![] },
    ];
    let scaled = scale_entries(&entries, 100).unwrap();
    assert_eq!(scaled.len(), 2);
    assert_eq!(scaled[0].arrival, 7);
    assert_eq!(scaled[0].cpu_durations, vec![300, 100]);
    assert_eq!(scaled[0].io_durations, vec![200]);
    assert_eq!(scaled[1].arrival, 0);
    assert_eq!(scaled[1].cpu_durations, vec![400]);
    assert_eq!(scaled[1].io_durations, Vec::<u32>::new());
}

#[test]
fn scale_entries_reports_overflow() {
    let entries = vec![
        ProcessEntry { arrival: 0, cpu_durations: vec![1], io_durations: vec![] },
        ProcessEntry { arrival: 0, cpu_durations: vec![1, 1], io_durations: vec![u32::MAX] },
    ];
    assert_eq!(scale_entries(&entries, 2).err(), Some(WorkloadError::DurationOverflow));
}
