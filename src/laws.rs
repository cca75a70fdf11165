use vstd::prelude::*;
use crate::event::{Event, Tier};
use crate::nonpreemptive::{
    all_done, bursts, lemma_clock_bound, lemma_np_init, lemma_np_step, np_iter, np_log, np_pick, np_start,
    np_step, np_wf, ordered,
};
use crate::preemptive::{
    QueueState, arrive, lemma_arrive, lemma_q_dispatch, lemma_q_ready, q_dispatch, q_front, q_init, q_iter, q_log,
    q_ready, q_step, q_wf, queues_wf,
};
use crate::order::{arrival_sorted, arrivals_at, lemma_classes_determine, lemma_sorted_classes, lemma_sorted_len,
    lemma_sorted_members, lemma_sorted_valid};
use crate::process::{Process, bursts_positive, u32_max, valid_processes};
use crate::progress::{
    finishes, has_finish, lemma_progress_idle, preempts, lemma_progress_init, lemma_progress_slice, no_start_after_finish,
    progress_ok, ran,
};
use crate::select::{Rule, earliest, lemma_best, lemma_earliest, ready};

verus! {

/// What holds of every complete log: timestamps never decrease, each
/// process gets exactly its burst in slices and its completion is logged, no
/// process is dispatched after its completion, and the log ends no earlier
/// than any process's arrival plus its burst.
pub open spec fn sound_log(ps: Seq<Process>, evs: Seq<Event>) -> bool {
    &&& ordered(evs)
    &&& forall|i: int| 0 <= i < ps.len() ==> #[trigger] ran(evs, ps[i].pid) == ps[i].burst_time
    &&& forall|i: int| 0 <= i < ps.len() ==> #[trigger] has_finish(evs, ps[i].pid)
    &&& no_start_after_finish(evs)
    &&& forall|i: int| 0 <= i < ps.len() ==> evs.last().at() >= #[trigger] ps[i].arrival_time + ps[i].burst_time
}

proof fn lemma_sound_from_state(ps: Seq<Process>, time: u64, rem: Seq<u32>, evs: Seq<Event>)
    requires
        progress_ok(ps, time, rem, evs),
        ordered(evs),
        all_done(rem),
    ensures
        sound_log(ps, evs),
{
    assert forall|i: int| 0 <= i < ps.len() implies evs.last().at() >= #[trigger] ps[i].arrival_time
        + ps[i].burst_time by {
        assert(rem[i] == 0);
        assert(has_finish(evs, ps[i].pid));
        let m = choose|m: int| 0 <= m < evs.len() && #[trigger] finishes(evs[m], ps[i].pid);
        assert(evs[m].at() <= evs[evs.len() - 1].at());
    }
}

/// Every state reached by a non-preemptive policy is well formed and agrees
/// with its log.
proof fn lemma_np_iter(ps: Seq<Process>, rule: Rule, k: nat)
    requires
        valid_processes(ps),
        ps.len() <= u32_max(),
    ensures
        np_wf(ps, np_iter(ps, rule, k)),
        progress_ok(ps, np_iter(ps, rule, k).time, np_iter(ps, rule, k).rem, np_iter(ps, rule, k).events),
    decreases k,
{
    if k == 0 {
        lemma_np_init(ps);
        assert(bursts(ps) =~= Seq::new(ps.len(), |i: int| ps[i].burst_time));
        lemma_progress_init(ps, bursts(ps));
    } else {
        lemma_np_iter(ps, rule, (k - 1) as nat);
        let s = np_iter(ps, rule, (k - 1) as nat);
        if earliest(ps, s.rem) >= 0 {
            assert(crate::process::bursts_positive(ps)) by {
                assert forall|j: int| 0 <= j < ps.len() implies #[trigger] ps[j].burst_time > 0 by {
                    assert(crate::process::process_ok(ps[j]));
                }
            }
            lemma_np_step(ps, rule, s);
            lemma_clock_bound(ps);
            let t = np_start(ps, rule, s);
            let i = np_pick(ps, rule, s);
            let b = ps[i].burst_time;
            let ev1 = if t == s.time {
                s.events
            } else {
                s.events.push(Event::Idle { time: s.time, length: (t - s.time) as u64 })
            };
            if t != s.time {
                lemma_progress_idle(ps, s.time, s.rem, s.events, t, (t - s.time) as u64);
            }
            assert(s.rem[i] == b);
            lemma_progress_slice(ps, t, s.rem, ev1, t, i, b, Tier::Ready, Tier::Ready);
            let s2 = np_step(ps, rule, s);
            let f = (t + b) as u64;
            assert(s2.events =~= ev1.push(
                Event::Start { time: t, pid: ps[i].pid, run: b, remaining: b, tier: Tier::Ready },
            ).push(Event::Finished { time: f, pid: ps[i].pid }));
        }
    }
}

/// Every complete log of a non-preemptive policy (first-come-first-served,
/// shortest-job-first, priority) is sound: ordered timestamps, slices that add
/// up to each burst, a completion for every process and no dispatch after it,
/// and an end no earlier than any arrival plus burst.
pub proof fn law_nonpreemptive_sound(ps: Seq<Process>, rule: Rule, evs: Seq<Event>)
    requires
        valid_processes(ps),
        ps.len() <= u32_max(),
        np_log(ps, rule, evs),
    ensures
        sound_log(ps, evs),
{
    let k = choose|k: nat| crate::nonpreemptive::np_finished(ps, rule, k) && evs == #[trigger] np_iter(ps, rule, k).events;
    lemma_np_iter(ps, rule, k);
    let s = np_iter(ps, rule, k);
    lemma_sound_from_state(ps, s.time, s.rem, s.events);
}

/// Shortest-job-first: at every dispatch, the process chosen is ready and no
/// ready process has a smaller burst; among equal bursts it is the first in
/// the list.
pub proof fn law_sjf_picks_shortest(ps: Seq<Process>, k: nat)
    requires
        valid_processes(ps),
        ps.len() <= u32_max(),
        earliest(ps, np_iter(ps, Rule::Burst, k).rem) >= 0,
    ensures
        ({
            let s = np_iter(ps, Rule::Burst, k);
            let t = np_start(ps, Rule::Burst, s);
            let i = np_pick(ps, Rule::Burst, s);
            &&& 0 <= i < ps.len()
            &&& ready(ps, s.rem, t as int, i)
            &&& forall|j: int| 0 <= j < ps.len() && #[trigger] ready(ps, s.rem, t as int, j)
                ==> ps[i].burst_time <= ps[j].burst_time
            &&& forall|j: int| 0 <= j < i && #[trigger] ready(ps, s.rem, t as int, j)
                ==> ps[i].burst_time < ps[j].burst_time
        }),
{
    let s = np_iter(ps, Rule::Burst, k);
    lemma_np_iter(ps, Rule::Burst, k);
    assert(crate::process::bursts_positive(ps)) by {
        assert forall|j: int| 0 <= j < ps.len() implies #[trigger] ps[j].burst_time > 0 by {
            assert(crate::process::process_ok(ps[j]));
        }
    }
    lemma_np_step(ps, Rule::Burst, s);
    lemma_best(ps, s.rem, np_start(ps, Rule::Burst, s) as int, Rule::Burst, ps.len() as int);
}

/// `e` dispatches `pid` from the high queue.
pub open spec fn starts_high(e: Event, pid: usize) -> bool {
    e matches Event::Start { pid: p, tier: Tier::High, .. } && p == pid
}

/// Every slice in the log fits its queue's quantum: `lq` for the low queue,
/// `hq` otherwise.
pub open spec fn slices_fit(evs: Seq<Event>, hq: u32, lq: u32) -> bool {
    forall|m: int| 0 <= m < evs.len() ==> (#[trigger] evs[m] matches Event::Start { run, tier, .. } ==> run <= (
    if tier == Tier::Low {
        lq
    } else {
        hq
    }))
}

/// No process is dispatched from the high queue after it has been
/// interrupted once.
pub open spec fn never_promoted(evs: Seq<Event>) -> bool {
    forall|a: int, b: int, p: usize|
        0 <= a < b < evs.len() && #[trigger] preempts(evs[a], p) ==> !#[trigger] starts_high(evs[b], p)
}

pub open spec fn has_preempt(evs: Seq<Event>, pid: usize) -> bool {
    exists|m: int| 0 <= m < evs.len() && #[trigger] preempts(evs[m], pid)
}

/// What holds of every state of a queue-based policy.
pub open spec fn q_inv(ps: Seq<Process>, hq: u32, lq: u32, demote: bool, s: QueueState) -> bool {
    &&& q_wf(ps, s)
    &&& progress_ok(ps, s.time, s.rem, s.events)
    &&& forall|i: int| 0 <= i < ps.len() && #[trigger] s.admitted[i] ==> ps[i].arrival_time <= s.time
    &&& !demote ==> s.low.len() == 0
    &&& slices_fit(s.events, hq, lq)
    &&& demote ==> never_promoted(s.events)
    &&& demote ==> forall|i: int| 0 <= i < ps.len() && #[trigger] has_preempt(s.events, ps[i].pid)
        ==> s.admitted[i] && !s.high.contains(i as usize)
}

proof fn lemma_valid_positive(ps: Seq<Process>)
    requires
        valid_processes(ps),
    ensures
        bursts_positive(ps),
{
    assert forall|j: int| 0 <= j < ps.len() implies #[trigger] ps[j].burst_time > 0 by {
        assert(crate::process::process_ok(ps[j]));
    }
}

proof fn lemma_q_ready_inv(ps: Seq<Process>, hq: u32, lq: u32, demote: bool, s: QueueState)
    requires
        valid_processes(ps),
        ps.len() <= u32_max(),
        q_inv(ps, hq, lq, demote, s),
        earliest(ps, s.rem) >= 0,
    ensures
        q_inv(ps, hq, lq, demote, q_ready(ps, s)),
{
    lemma_valid_positive(ps);
    lemma_q_ready(ps, s);
    lemma_earliest(ps, s.rem);
    crate::select::lemma_total_bound(s.rem);
    lemma_arrive(ps, s, s.time);
    let s1 = arrive(ps, s, s.time);
    let s3 = q_ready(ps, s);
    let (s2, ok) = if s1.high.len() == 0 && s1.low.len() == 0 {
        let t = ps[earliest(ps, s.rem)].arrival_time as u64;
        lemma_arrive(ps, s1, t);
        (arrive(ps, s1, t), true)
    } else {
        (s1, false)
    };
    assert forall|i: int| 0 <= i < ps.len() && #[trigger] s3.admitted[i] implies ps[i].arrival_time <= s3.time by {
        if !s1.admitted[i] {
        } else if !s.admitted[i] {
        }
    }
    if ok {
        lemma_progress_idle(ps, s.time, s.rem, s.events, s3.time, (s3.time - s.time) as u64);
        let e = Event::Idle { time: s.time, length: (s3.time - s.time) as u64 };
        assert(s3.events == s.events.push(e));
        assert forall|m: int| 0 <= m < s3.events.len() implies (#[trigger] s3.events[m] matches Event::Start {
            run,
            tier,
            ..
        } ==> run <= (if tier == Tier::Low {
            lq
        } else {
            hq
        })) by {
            if m < s.events.len() {
                assert(s3.events[m] == s.events[m]);
            }
        }
        if demote {
            assert forall|a: int, b: int, p: usize| 0 <= a < b < s3.events.len() && #[trigger] preempts(
                s3.events[a],
                p,
            ) implies !#[trigger] starts_high(s3.events[b], p) by {
                assert(s3.events[a] == s.events[a]);
                if b < s.events.len() {
                    assert(s3.events[b] == s.events[b]);
                }
            }
        }
    }
    if demote {
        assert forall|i: int| 0 <= i < ps.len() && #[trigger] has_preempt(s3.events, ps[i].pid) implies s3.admitted[i]
            && !s3.high.contains(i as usize) by {
            assert(has_preempt(s.events, ps[i].pid)) by {
                let m = choose|m: int| 0 <= m < s3.events.len() && #[trigger] preempts(s3.events[m], ps[i].pid);
                if m < s.events.len() {
                    assert(s3.events[m] == s.events[m]);
                }
            }
            assert(s1.admitted[i]);
            assert(s1.high.len() >= s.high.len());
            if s1.high.contains(i as usize) {
                let m = choose|m: int| 0 <= m < s1.high.len() && s1.high[m] == i as usize;
                if m < s.high.len() {
                    assert(s.high[m] == i as usize);
                }
            }
            if s3.high.contains(i as usize) {
                let m = choose|m: int| 0 <= m < s3.high.len() && s3.high[m] == i as usize;
                if m < s1.high.len() {
                    assert(s1.high[m] == i as usize);
                }
            }
        }
    }
}

proof fn lemma_q_dispatch_inv(ps: Seq<Process>, hq: u32, lq: u32, demote: bool, s: QueueState)
    requires
        valid_processes(ps),
        ps.len() <= u32_max(),
        q_inv(ps, hq, lq, demote, s),
        s.high.len() > 0 || s.low.len() > 0,
        hq > 0,
        lq > 0,
    ensures
        q_inv(ps, hq, lq, demote, q_dispatch(ps, hq, lq, demote, s)),
{
    lemma_valid_positive(ps);
    lemma_q_dispatch(ps, hq, lq, demote, s);
    lemma_clock_bound(ps);
    let i = q_front(s);
    let from_high = s.high.len() > 0;
    assert(s.admitted[i as int]) by {
        if from_high {
            assert(s.high[0] == i);
        } else {
            assert(s.low[0] == i);
        }
    }
    let q = if from_high { hq } else { lq };
    let tier = if !demote { Tier::Ready } else if from_high { Tier::High } else { Tier::Low };
    let back = if demote { Tier::Low } else { Tier::Ready };
    let r = s.rem[i as int];
    let run = if r > q { q } else { r };
    lemma_progress_slice(ps, s.time, s.rem, s.events, s.time, i as int, run, tier, back);
    let s2 = q_dispatch(ps, hq, lq, demote, s);
    let left = (r - run) as u32;
    let pid = ps[i as int].pid;
    let st = Event::Start { time: s.time, pid, run, remaining: r, tier };
    assert(s2.events.len() == s.events.len() + 2);
    assert(s2.events[s.events.len() as int] == st);
    assert forall|m: int| 0 <= m < s2.events.len() implies (#[trigger] s2.events[m] matches Event::Start {
        run,
        tier,
        ..
    } ==> run <= (if tier == Tier::Low {
        lq
    } else {
        hq
    })) by {
        if m < s.events.len() {
            assert(s2.events[m] == s.events[m]);
        }
    }
    if demote {
        assert forall|a: int, b: int, p: usize| 0 <= a < b < s2.events.len() && #[trigger] preempts(s2.events[a], p)
            implies !#[trigger] starts_high(s2.events[b], p) by {
            if b < s.events.len() {
                assert(s2.events[a] == s.events[a]);
                assert(s2.events[b] == s.events[b]);
            } else if b == s.events.len() {
                assert(s2.events[a] == s.events[a]);
                if p == pid && from_high {
                    assert(has_preempt(s.events, ps[i as int].pid));
                    assert(s.high[0] == i);
                }
            }
        }
        assert forall|j: int| 0 <= j < ps.len() && #[trigger] has_preempt(s2.events, ps[j].pid) implies s2.admitted[j]
            && !s2.high.contains(j as usize) by {
            let m = choose|m: int| 0 <= m < s2.events.len() && #[trigger] preempts(s2.events[m], ps[j].pid);
            if m < s.events.len() {
                assert(s2.events[m] == s.events[m]);
                assert(has_preempt(s.events, ps[j].pid));
            } else if m == s.events.len() {
            } else {
                assert(ps[j].pid == pid);
                assert(j == i as int);
            }
            if s2.high.contains(j as usize) {
                let x = choose|x: int| 0 <= x < s2.high.len() && s2.high[x] == j as usize;
                if from_high {
                    assert(s.high[x + 1] == j as usize);
                    if j == i as int {
                        assert(s.high[0] == i);
                    }
                } else {
                    assert(s.high[x] == j as usize);
                }
            }
        }
    }
}

/// Every state reached by a queue-based policy satisfies `q_inv`.
proof fn lemma_q_iter(ps: Seq<Process>, hq: u32, lq: u32, demote: bool, k: nat)
    requires
        valid_processes(ps),
        ps.len() <= u32_max(),
        hq > 0,
        lq > 0,
    ensures
        q_inv(ps, hq, lq, demote, q_iter(ps, hq, lq, demote, k)),
    decreases k,
{
    lemma_valid_positive(ps);
    if k == 0 {
        let s0 = q_init(ps);
        crate::select::lemma_total_bound(bursts(ps));
        assert(queues_wf(ps, s0.rem, s0.admitted, s0.high, s0.low));
        assert(bursts(ps) =~= Seq::new(ps.len(), |i: int| ps[i].burst_time));
        lemma_progress_init(ps, bursts(ps));
    } else {
        lemma_q_iter(ps, hq, lq, demote, (k - 1) as nat);
        let s = q_iter(ps, hq, lq, demote, (k - 1) as nat);
        if earliest(ps, s.rem) >= 0 {
            lemma_q_ready_inv(ps, hq, lq, demote, s);
            lemma_q_ready(ps, s);
            lemma_q_dispatch_inv(ps, hq, lq, demote, q_ready(ps, s));
        }
    }
}

/// Every complete log of round robin or of the feedback queue is sound:
/// ordered timestamps, slices that add up to each burst, a completion for
/// every process and no dispatch after it, and an end no earlier than any
/// arrival plus burst.
pub proof fn law_queues_sound(processes: Seq<Process>, hq: u32, lq: u32, demote: bool, evs: Seq<Event>)
    requires
        valid_processes(processes),
        processes.len() <= u32_max(),
        hq > 0,
        lq > 0,
        q_log(arrival_sorted(processes), hq, lq, demote, evs),
    ensures
        sound_log(processes, evs),
{
    let ps = arrival_sorted(processes);
    lemma_sorted_valid(processes);
    lemma_sorted_len(processes);
    let k = choose|k: nat| crate::preemptive::q_finished(ps, hq, lq, demote, k) && evs == #[trigger] q_iter(
        ps,
        hq,
        lq,
        demote,
        k,
    ).events;
    lemma_q_iter(ps, hq, lq, demote, k);
    let s = q_iter(ps, hq, lq, demote, k);
    lemma_sound_from_state(ps, s.time, s.rem, s.events);
    lemma_sound_unsorted(processes, evs);
}

/// Round robin never keeps a process running longer than the quantum in one
/// slice.
pub proof fn law_round_robin_quantum(processes: Seq<Process>, quantum: u32, evs: Seq<Event>)
    requires
        valid_processes(processes),
        processes.len() <= u32_max(),
        quantum > 0,
        q_log(arrival_sorted(processes), quantum, quantum, false, evs),
    ensures
        forall|m: int| 0 <= m < evs.len() ==> (#[trigger] evs[m] matches Event::Start { run, .. } ==> run <= quantum),
{
    let ps = arrival_sorted(processes);
    lemma_sorted_valid(processes);
    lemma_sorted_len(processes);
    let k = choose|k: nat| crate::preemptive::q_finished(ps, quantum, quantum, false, k) && evs == #[trigger] q_iter(
        ps,
        quantum,
        quantum,
        false,
        k,
    ).events;
    lemma_q_iter(ps, quantum, quantum, false, k);
    assert forall|m: int| 0 <= m < evs.len() implies (#[trigger] evs[m] matches Event::Start { run, .. } ==> run
        <= quantum) by {
        assert(slices_fit(evs, quantum, quantum));
    }
}

/// The feedback queue: slices from the high queue fit `quantum_high`, slices
/// from the low queue fit `quantum_low`, and once a process has been demoted
/// it is never again dispatched from the high queue.
pub proof fn law_mlfq_no_promotion(processes: Seq<Process>, quantum_high: u32, quantum_low: u32, evs: Seq<Event>)
    requires
        valid_processes(processes),
        processes.len() <= u32_max(),
        quantum_high > 0,
        quantum_low > 0,
        q_log(arrival_sorted(processes), quantum_high, quantum_low, true, evs),
    ensures
        slices_fit(evs, quantum_high, quantum_low),
        never_promoted(evs),
{
    let ps = arrival_sorted(processes);
    lemma_sorted_valid(processes);
    lemma_sorted_len(processes);
    let k = choose|k: nat| crate::preemptive::q_finished(ps, quantum_high, quantum_low, true, k) && evs
        == #[trigger] q_iter(ps, quantum_high, quantum_low, true, k).events;
    lemma_q_iter(ps, quantum_high, quantum_low, true, k);
}

/// Soundness carries over from the sorted list to the list it was sorted from.
proof fn lemma_sound_unsorted(processes: Seq<Process>, evs: Seq<Event>)
    requires
        sound_log(arrival_sorted(processes), evs),
    ensures
        sound_log(processes, evs),
{
    let ps = arrival_sorted(processes);
    lemma_sorted_members(processes);
    assert forall|i: int| 0 <= i < processes.len() implies #[trigger] ran(evs, processes[i].pid)
        == processes[i].burst_time && has_finish(evs, processes[i].pid) && evs.last().at() >= processes[i].arrival_time
        + processes[i].burst_time by {
        let j = choose|j: int| 0 <= j < processes.len() && ps[j] == #[trigger] processes[i];
        assert(ran(evs, ps[j].pid) == ps[j].burst_time);
        assert(has_finish(evs, ps[j].pid));
        assert(evs.last().at() >= ps[j].arrival_time + ps[j].burst_time);
    }
}

/// Once every process is done, further dispatches change nothing.
proof fn lemma_np_stays(ps: Seq<Process>, rule: Rule, k: nat, d: nat)
    requires
        valid_processes(ps),
        ps.len() <= u32_max(),
        all_done(np_iter(ps, rule, k).rem),
    ensures
        np_iter(ps, rule, k + d) == np_iter(ps, rule, k),
    decreases d,
{
    if d > 0 {
        lemma_np_stays(ps, rule, k, (d - 1) as nat);
        lemma_np_iter(ps, rule, k);
        let s = np_iter(ps, rule, k);
        lemma_earliest(ps, s.rem);
        assert(np_iter(ps, rule, k + d) == np_step(ps, rule, np_iter(ps, rule, (k + d - 1) as nat)));
    }
}

/// A non-preemptive policy has exactly one complete log for a given input.
pub proof fn lemma_np_log_unique(ps: Seq<Process>, rule: Rule, e1: Seq<Event>, e2: Seq<Event>)
    requires
        valid_processes(ps),
        ps.len() <= u32_max(),
        np_log(ps, rule, e1),
        np_log(ps, rule, e2),
    ensures
        e1 == e2,
{
    let k1 = choose|k: nat| crate::nonpreemptive::np_finished(ps, rule, k) && e1 == #[trigger] np_iter(ps, rule, k).events;
    let k2 = choose|k: nat| crate::nonpreemptive::np_finished(ps, rule, k) && e2 == #[trigger] np_iter(ps, rule, k).events;
    if k1 <= k2 {
        lemma_np_stays(ps, rule, k1, (k2 - k1) as nat);
    } else {
        lemma_np_stays(ps, rule, k2, (k1 - k2) as nat);
    }
}

/// First-come-first-served is sound on every valid list: ordered timestamps,
/// slices that add up to each burst, a completion for every process and no
/// dispatch after it, and an end no earlier than any arrival plus burst.
pub proof fn law_fcfs_sound(processes: Seq<Process>, evs: Seq<Event>)
    requires
        valid_processes(processes),
        processes.len() <= u32_max(),
        np_log(arrival_sorted(processes), Rule::Arrival, evs),
    ensures
        sound_log(processes, evs),
{
    lemma_sorted_valid(processes);
    lemma_sorted_len(processes);
    law_nonpreemptive_sound(arrival_sorted(processes), Rule::Arrival, evs);
    lemma_sound_unsorted(processes, evs);
}

/// First-come-first-served depends on arrival times alone: two lists that
/// hold, for every arrival time, the same processes in the same relative
/// order (one a reordering of the other that keeps ties in place) give the
/// same log.
pub proof fn law_fcfs_order_keeping(ps1: Seq<Process>, ps2: Seq<Process>, e1: Seq<Event>, e2: Seq<Event>)
    requires
        valid_processes(ps1),
        ps1.len() <= u32_max(),
        forall|a: u32| #[trigger] arrivals_at(ps1, a) == arrivals_at(ps2, a),
        np_log(arrival_sorted(ps1), Rule::Arrival, e1),
        np_log(arrival_sorted(ps2), Rule::Arrival, e2),
    ensures
        e1 == e2,
{
    lemma_sorted_classes(ps1);
    lemma_sorted_classes(ps2);
    assert forall|a: u32| #[trigger] arrivals_at(arrival_sorted(ps1), a) == arrivals_at(arrival_sorted(ps2), a) by {
        assert(arrivals_at(arrival_sorted(ps1), a) == arrivals_at(ps1, a));
        assert(arrivals_at(arrival_sorted(ps2), a) == arrivals_at(ps2, a));
    }
    lemma_classes_determine(arrival_sorted(ps1), arrival_sorted(ps2));
    lemma_sorted_valid(ps1);
    lemma_sorted_len(ps1);
    lemma_np_log_unique(arrival_sorted(ps1), Rule::Arrival, e1, e2);
}

/// Once every process is done, further iterations change nothing.
proof fn lemma_q_stays(ps: Seq<Process>, hq: u32, lq: u32, demote: bool, k: nat, d: nat)
    requires
        valid_processes(ps),
        ps.len() <= u32_max(),
        hq > 0,
        lq > 0,
        all_done(q_iter(ps, hq, lq, demote, k).rem),
    ensures
        q_iter(ps, hq, lq, demote, k + d) == q_iter(ps, hq, lq, demote, k),
    decreases d,
{
    if d > 0 {
        lemma_q_stays(ps, hq, lq, demote, k, (d - 1) as nat);
        lemma_q_iter(ps, hq, lq, demote, k);
        let s = q_iter(ps, hq, lq, demote, k);
        lemma_earliest(ps, s.rem);
        assert(q_iter(ps, hq, lq, demote, k + d) == q_step(ps, hq, lq, demote, q_iter(ps, hq, lq, demote, (k + d - 1) as nat)));
    }
}

/// A queue-based policy has exactly one complete log for a given input.
pub proof fn lemma_q_log_unique(ps: Seq<Process>, hq: u32, lq: u32, demote: bool, e1: Seq<Event>, e2: Seq<Event>)
    requires
        valid_processes(ps),
        ps.len() <= u32_max(),
        hq > 0,
        lq > 0,
        q_log(ps, hq, lq, demote, e1),
        q_log(ps, hq, lq, demote, e2),
    ensures
        e1 == e2,
{
    let k1 = choose|k: nat| crate::preemptive::q_finished(ps, hq, lq, demote, k) && e1 == #[trigger] q_iter(ps, hq, lq, demote, k).events;
    let k2 = choose|k: nat| crate::preemptive::q_finished(ps, hq, lq, demote, k) && e2 == #[trigger] q_iter(ps, hq, lq, demote, k).events;
    if k1 <= k2 {
        lemma_q_stays(ps, hq, lq, demote, k1, (k2 - k1) as nat);
    } else {
        lemma_q_stays(ps, hq, lq, demote, k2, (k1 - k2) as nat);
    }
}

} // verus!
