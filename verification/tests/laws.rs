use round_robin::process::ProcessEntry;
use round_robin::simulation::round_robin;
use round_robin::timeline::IntervalKind;

fn workloads() -> Vec<(Vec<ProcessEntry>, u32, u32)> {
    let e = |arrival: u32, cpu: &[u32], io: &[u32]| ProcessEntry {
        arrival,
        cpu_durations: cpu.to_vec(),
        io_durations: io.to_vec(),
    };
    vec![
        (vec![e(0, &[300], &[])], 100, 10),
        (vec![e(0, &[250], &[]), e(0, &[250], &[])], 100, 0),
        (vec![e(0, &[250, 100], &[50]), e(0, &[150], &[])], 100, 10),
        (vec![e(5, &[1, 2, 3], &[7, 0]), e(3, &[9], &[]), e(3, &[4, 4], &[1])], 2, 1),
        (vec![e(1000, &[10], &[]), e(0, &[10, 10, 10], &[500, 500])], 7, 3),
        (vec![e(0, &[100, 100], &[500])], 100, 10),
        (vec![], 1, 0),
    ]
}

#[test]
fn completion_is_not_before_arrival_and_waiting_is_what_is_left() {
    for (entries, quantum, switch_cost) in workloads() {
        let res = round_robin(&entries, quantum, switch_cost).unwrap();
        assert_eq!(res.processes.len(), entries.len());
        for (p, e) in res.processes.iter().zip(entries.iter()) {
            let finish = p.finish_time().unwrap();
            let first = p.first_time_cpu().unwrap();
            assert!(finish >= p.arrival() as u64);
            assert!(first >= p.arrival() as u64);
            assert!(first <= finish);
            assert!(finish <= res.total_time);
            let cpu: u64 = e.cpu_durations.iter().map(|d| *d as u64).sum();
            let io: u64 = e.io_durations.iter().map(|d| *d as u64).sum();
            assert_eq!(p.turn_around_time(), finish - p.arrival() as u64);
            assert_eq!(p.waiting_time() + cpu + io, p.turn_around_time());
        }
    }
}

#[test]
fn execution_intervals_add_up_to_the_bursts() {
    for (entries, quantum, switch_cost) in workloads() {
        let res = round_robin(&entries, quantum, switch_cost).unwrap();
        for (i, e) in entries.iter().enumerate() {
            let ran: u64 = res
                .timeline
                .iter()
                .filter(|iv| iv.kind == IntervalKind::Execution { process: i })
                .map(|iv| iv.end - iv.start)
                .sum();
            let cpu: u64 = e.cpu_durations.iter().map(|d| *d as u64).sum();
            assert_eq!(ran, cpu);
        }
    }
}

#[test]
fn no_slice_is_longer_than_the_quantum() {
    for (entries, quantum, switch_cost) in workloads() {
        let res = round_robin(&entries, quantum, switch_cost).unwrap();
        for iv in res.timeline.iter() {
            match iv.kind {
                IntervalKind::Execution { .. } => {
                    assert!(iv.start < iv.end);
                    assert!(iv.end - iv.start <= quantum as u64);
                },
                IntervalKind::ContextSwitch => {
                    assert_eq!(iv.end - iv.start, switch_cost as u64);
                },
            }
        }
    }
}

#[test]
fn timeline_runs_forward() {
    for (entries, quantum, switch_cost) in workloads() {
        let res = round_robin(&entries, quantum, switch_cost).unwrap();
        for pair in res.timeline.windows(2) {
            assert!(pair[0].start <= pair[0].end);
            assert!(pair[0].end <= pair[1].start);
        }
        if let Some(last) = res.timeline.last() {
            assert_eq!(last.end, res.total_time);
        }
    }
}

#[test]
fn timeline_has_no_gap_while_work_is_at_hand() {
    let e = |arrival: u32, cpu: &[u32], io: &[u32]| ProcessEntry {
        arrival,
        cpu_durations: cpu.to_vec(),
        io_durations: io.to_vec(),
    };
    let busy = vec![
        (vec![e(0, &[300], &[])], 100, 10),
        (vec![e(0, &[250], &[]), e(0, &[250], &[])], 100, 0),
        (vec![e(0, &[100, 100], &[50]), e(0, &[400], &[])], 100, 10),
        (vec![e(40, &[30], &[])], 100, 5),
    ];
    for (entries, quantum, switch_cost) in busy {
        let res = round_robin(&entries, quantum, switch_cost).unwrap();
        for pair in res.timeline.windows(2) {
            assert_eq!(pair[0].end, pair[1].start);
        }
    }
}

#[test]
fn timeline_has_a_gap_where_the_processor_idles() {
    let entries = vec![ProcessEntry {
        arrival: 0,
        cpu_durations: vec![100, 100],
        io_durations: vec![500],
    }];
    let res = round_robin(&entries, 100, 10).unwrap();
    assert!(res.timeline.windows(2).any(|pair| pair[0].end < pair[1].start));
}

#[test]
fn same_workload_same_result() {
    for (entries, quantum, switch_cost) in workloads() {
        let a = round_robin(&entries, quantum, switch_cost).unwrap();
        let b = round_robin(&entries, quantum, switch_cost).unwrap();
        assert_eq!(a.timeline, b.timeline);
        assert_eq!(a.total_time, b.total_time);
        assert_eq!(a.total_waiting_time, b.total_waiting_time);
        assert_eq!(a.total_turnaround_time, b.total_turnaround_time);
        assert_eq!(a.processes.len(), b.processes.len());
        for (p, q) in a.processes.iter().zip(b.processes.iter()) {
            assert_eq!(p.id(), q.id());
            assert_eq!(p.arrival(), q.arrival());
            assert_eq!(p.cpu_durations(), q.cpu_durations());
            assert_eq!(p.io_durations(), q.io_durations());
            assert_eq!(p.first_time_cpu(), q.first_time_cpu());
            assert_eq!(p.finish_time(), q.finish_time());
            assert_eq!(p.waiting_time(), q.waiting_time());
            assert_eq!(p.turn_around_time(), q.turn_around_time());
            assert_eq!(p.state(), q.state());
        }
    }
}

#[test]
fn totals_are_the_sums_over_the_processes() {
    for (entries, quantum, switch_cost) in workloads() {
        let res = round_robin(&entries, quantum, switch_cost).unwrap();
        let waiting: u128 = res.processes.iter().map(|p| p.waiting_time() as u128).sum();
        let turnaround: u128 = res.processes.iter().map(|p| p.turn_around_time() as u128).sum();
        assert_eq!(res.total_waiting_time, waiting);
        assert_eq!(res.total_turnaround_time, turnaround);
    }
}
