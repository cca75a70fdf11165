use cpu_sched::event::{Event, Tier};
use cpu_sched::policies::{
    simulate_fcfs, simulate_mlfq, simulate_priority, simulate_round_robin, simulate_sjf, SchedError,
};
use cpu_sched::process::{get_sample_processes, Process};

fn start(time: u64, pid: usize, run: u32, remaining: u32, tier: Tier) -> Event {
    Event::Start { time, pid, run, remaining, tier }
}

fn fin(time: u64, pid: usize) -> Event {
    Event::Finished { time, pid }
}

fn pre(time: u64, pid: usize, remaining: u32, tier: Tier) -> Event {
    Event::Preempted { time, pid, remaining, tier }
}

fn whole(time: u64, pid: usize, burst: u32) -> Vec<Event> {
    vec![start(time, pid, burst, burst, Tier::Ready), fin(time + burst as u64, pid)]
}

fn four() -> Vec<Process> {
    vec![
        Process::new(1, 0, 5, 2),
        Process::new(2, 1, 3, 1),
        Process::new(3, 2, 8, 3),
        Process::new(4, 3, 6, 2),
    ]
}

fn slices_of(evs: &[Event], pid: usize) -> u64 {
    evs.iter()
        .map(|e| match e {
            Event::Start { pid: p, run, .. } if *p == pid => *run as u64,
            _ => 0,
        })
        .sum()
}

fn time_of(e: &Event) -> u64 {
    e.timestamp()
}

#[test]
fn new_process_has_all_work_left() {
    let p = Process::new(7, 3, 9, 1);
    assert_eq!(p.pid, 7);
    assert_eq!(p.arrival_time, 3);
    assert_eq!(p.burst_time, 9);
    assert_eq!(p.remaining_time, 9);
    assert_eq!(p.priority, 1);
}

#[test]
fn sample_set_is_the_four_processes() {
    let s = get_sample_processes();
    assert_eq!(s, four());
}

#[test]
fn fcfs_four_processes() {
    let r = simulate_fcfs(&four()).unwrap();
    let mut want = whole(0, 1, 5);
    want.extend(whole(5, 2, 3));
    want.extend(whole(8, 3, 8));
    want.extend(whole(16, 4, 6));
    assert_eq!(r, want);
}

#[test]
fn fcfs_sorts_by_arrival_and_idles() {
    let ps = vec![Process::new(1, 10, 2, 0), Process::new(2, 3, 4, 0), Process::new(3, 3, 1, 0)];
    let r = simulate_fcfs(&ps).unwrap();
    let mut want = vec![Event::Idle { time: 0, length: 3 }];
    want.extend(whole(3, 2, 4));
    want.extend(whole(7, 3, 1));
    want.push(Event::Idle { time: 8, length: 2 });
    want.extend(whole(10, 1, 2));
    assert_eq!(r, want);
}

#[test]
fn fcfs_same_log_for_order_keeping_permutation() {
    let a = vec![Process::new(1, 0, 5, 0), Process::new(2, 1, 3, 0), Process::new(3, 1, 4, 0)];
    let b = vec![Process::new(2, 1, 3, 0), Process::new(1, 0, 5, 0), Process::new(3, 1, 4, 0)];
    assert_eq!(simulate_fcfs(&a).unwrap(), simulate_fcfs(&b).unwrap());
}

#[test]
fn sjf_four_processes() {
    let r = simulate_sjf(&four()).unwrap();
    let mut want = whole(0, 1, 5);
    want.extend(whole(5, 2, 3));
    want.extend(whole(8, 4, 6));
    want.extend(whole(14, 3, 8));
    assert_eq!(r, want);
}

#[test]
fn sjf_single_late_process_idles_first() {
    let r = simulate_sjf(&vec![Process::new(1, 5, 3, 0)]).unwrap();
    assert_eq!(
        r,
        vec![Event::Idle { time: 0, length: 5 }, start(5, 1, 3, 3, Tier::Ready), fin(8, 1)]
    );
}

#[test]
fn sjf_ties_keep_list_order() {
    let ps = vec![Process::new(5, 0, 4, 0), Process::new(6, 0, 2, 0), Process::new(7, 0, 2, 0)];
    let r = simulate_sjf(&ps).unwrap();
    let mut want = whole(0, 6, 2);
    want.extend(whole(2, 7, 2));
    want.extend(whole(4, 5, 4));
    assert_eq!(r, want);
}

#[test]
fn sjf_does_not_preempt_for_shorter_arrival() {
    let ps = vec![Process::new(1, 0, 10, 0), Process::new(2, 1, 1, 0)];
    let r = simulate_sjf(&ps).unwrap();
    let mut want = whole(0, 1, 10);
    want.extend(whole(10, 2, 1));
    assert_eq!(r, want);
}

#[test]
fn priority_four_processes() {
    let r = simulate_priority(&four()).unwrap();
    let mut want = whole(0, 1, 5);
    want.extend(whole(5, 2, 3));
    want.extend(whole(8, 4, 6));
    want.extend(whole(14, 3, 8));
    assert_eq!(r, want);
}

#[test]
fn priority_picks_smallest_value() {
    let ps = vec![Process::new(1, 0, 2, 9), Process::new(2, 0, 7, 1), Process::new(3, 0, 1, 5)];
    let r = simulate_priority(&ps).unwrap();
    let mut want = whole(0, 2, 7);
    want.extend(whole(7, 3, 1));
    want.extend(whole(8, 1, 2));
    assert_eq!(r, want);
}

#[test]
fn round_robin_quantum_two() {
    let r = simulate_round_robin(&four(), 2).unwrap();
    let t = Tier::Ready;
    let want = vec![
        start(0, 1, 2, 5, t),
        pre(2, 1, 3, t),
        start(2, 1, 2, 3, t),
        pre(4, 1, 1, t),
        start(4, 2, 2, 3, t),
        pre(6, 2, 1, t),
        start(6, 3, 2, 8, t),
        pre(8, 3, 6, t),
        start(8, 1, 1, 1, t),
        fin(9, 1),
        start(9, 4, 2, 6, t),
        pre(11, 4, 4, t),
        start(11, 2, 1, 1, t),
        fin(12, 2),
        start(12, 3, 2, 6, t),
        pre(14, 3, 4, t),
        start(14, 4, 2, 4, t),
        pre(16, 4, 2, t),
        start(16, 3, 2, 4, t),
        pre(18, 3, 2, t),
        start(18, 4, 2, 2, t),
        fin(20, 4),
        start(20, 3, 2, 2, t),
        fin(22, 3),
    ];
    assert_eq!(r, want);
}

#[test]
fn round_robin_slices_sum_to_burst_and_fit_quantum() {
    let ps = four();
    let r = simulate_round_robin(&ps, 3).unwrap();
    for p in &ps {
        assert_eq!(slices_of(&r, p.pid), p.burst_time as u64);
    }
    for e in &r {
        if let Event::Start { run, .. } = e {
            assert!(*run <= 3);
        }
    }
}

#[test]
fn mlfq_single_long_process_is_demoted() {
    let r = simulate_mlfq(&vec![Process::new(1, 0, 10, 0)], 4, 2).unwrap();
    let want = vec![
        start(0, 1, 4, 10, Tier::High),
        pre(4, 1, 6, Tier::Low),
        start(4, 1, 2, 6, Tier::Low),
        pre(6, 1, 4, Tier::Low),
        start(6, 1, 2, 4, Tier::Low),
        pre(8, 1, 2, Tier::Low),
        start(8, 1, 2, 2, Tier::Low),
        fin(10, 1),
    ];
    assert_eq!(r, want);
}

#[test]
fn mlfq_four_processes() {
    let r = simulate_mlfq(&four(), 4, 2).unwrap();
    let (h, l) = (Tier::High, Tier::Low);
    let want = vec![
        start(0, 1, 4, 5, h),
        pre(4, 1, 1, l),
        start(4, 2, 3, 3, h),
        fin(7, 2),
        start(7, 3, 4, 8, h),
        pre(11, 3, 4, l),
        start(11, 4, 4, 6, h),
        pre(15, 4, 2, l),
        start(15, 1, 1, 1, l),
        fin(16, 1),
        start(16, 3, 2, 4, l),
        pre(18, 3, 2, l),
        start(18, 4, 2, 2, l),
        fin(20, 4),
        start(20, 3, 2, 2, l),
        fin(22, 3),
    ];
    assert_eq!(r, want);
}

#[test]
fn mlfq_demoted_process_never_runs_high_again() {
    let r = simulate_mlfq(&four(), 3, 1).unwrap();
    let mut demoted: Vec<usize> = Vec::new();
    for e in &r {
        match e {
            Event::Preempted { pid, .. } => demoted.push(*pid),
            Event::Start { pid, tier, .. } if demoted.contains(pid) => assert_eq!(*tier, Tier::Low),
            _ => {}
        }
    }
    assert!(!demoted.is_empty());
}

#[test]
fn logs_are_ordered_and_end_after_all_work() {
    let ps = vec![Process::new(1, 4, 3, 2), Process::new(2, 0, 2, 1), Process::new(3, 20, 1, 0)];
    let logs = vec![
        simulate_fcfs(&ps).unwrap(),
        simulate_sjf(&ps).unwrap(),
        simulate_priority(&ps).unwrap(),
        simulate_round_robin(&ps, 2).unwrap(),
        simulate_mlfq(&ps, 2, 1).unwrap(),
    ];
    for log in &logs {
        for w in log.windows(2) {
            assert!(time_of(&w[0]) <= time_of(&w[1]));
        }
        let last = time_of(log.last().unwrap());
        assert_eq!(last, 21);
        for p in &ps {
            assert!(last >= p.arrival_time as u64 + p.burst_time as u64);
            assert_eq!(slices_of(log, p.pid), p.burst_time as u64);
        }
    }
}

#[test]
fn timestamp_reads_each_kind() {
    assert_eq!(Event::Idle { time: 3, length: 2 }.timestamp(), 3);
    assert_eq!(start(4, 1, 2, 2, Tier::Low).timestamp(), 4);
    assert_eq!(pre(6, 1, 1, Tier::Ready).timestamp(), 6);
    assert_eq!(fin(9, 2).timestamp(), 9);
}

#[test]
fn empty_list_gives_empty_log() {
    let ps: Vec<Process> = Vec::new();
    assert_eq!(simulate_fcfs(&ps).unwrap(), vec![]);
    assert_eq!(simulate_sjf(&ps).unwrap(), vec![]);
    assert_eq!(simulate_priority(&ps).unwrap(), vec![]);
    assert_eq!(simulate_round_robin(&ps, 1).unwrap(), vec![]);
    assert_eq!(simulate_mlfq(&ps, 1, 1).unwrap(), vec![]);
}

#[test]
fn zero_quantum_is_invalid_configuration() {
    assert_eq!(simulate_round_robin(&four(), 0), Err(SchedError::InvalidConfiguration));
    assert_eq!(simulate_mlfq(&four(), 0, 2), Err(SchedError::InvalidConfiguration));
    assert_eq!(simulate_mlfq(&four(), 4, 0), Err(SchedError::InvalidConfiguration));
    let bad = vec![Process::new(1, 0, 0, 0)];
    assert_eq!(simulate_round_robin(&bad, 0), Err(SchedError::InvalidConfiguration));
}

#[test]
fn zero_burst_is_malformed() {
    let bad = vec![Process::new(1, 0, 3, 0), Process::new(2, 0, 0, 0)];
    assert_eq!(simulate_fcfs(&bad), Err(SchedError::MalformedProcess));
    assert_eq!(simulate_sjf(&bad), Err(SchedError::MalformedProcess));
    assert_eq!(simulate_priority(&bad), Err(SchedError::MalformedProcess));
    assert_eq!(simulate_round_robin(&bad, 2), Err(SchedError::MalformedProcess));
    assert_eq!(simulate_mlfq(&bad, 4, 2), Err(SchedError::MalformedProcess));
}

#[test]
fn repeated_or_zero_pid_is_malformed() {
    let dup = vec![Process::new(1, 0, 3, 0), Process::new(1, 2, 4, 0)];
    assert_eq!(simulate_sjf(&dup), Err(SchedError::MalformedProcess));
    let zero = vec![Process::new(0, 0, 3, 0)];
    assert_eq!(simulate_fcfs(&zero), Err(SchedError::MalformedProcess));
}
