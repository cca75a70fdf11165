use vstd::prelude::*;
use crate::event::{Event, Tier};
use crate::process::{Process, bursts_positive, u32_max};
use crate::select::{Rule, best, earliest, ready, select, total, lemma_best, lemma_earliest,
    lemma_total_bound, lemma_total_update, lemma_total_ge};

verus! {

/// The state of a simulation between dispatches: the clock, the work left
/// for each process (by list index), and the log so far.
pub ghost struct RunState {
    pub time: u64,
    pub rem: Seq<u32>,
    pub events: Seq<Event>,
}

/// The burst of each process, by list index.
pub open spec fn bursts(ps: Seq<Process>) -> Seq<u32> {
    Seq::new(ps.len(), |i: int| ps[i].burst_time)
}

/// No process has work left.
pub open spec fn all_done(rem: Seq<u32>) -> bool {
    forall|i: int| 0 <= i < rem.len() ==> rem[i] == 0
}

/// Timestamps never decrease along a log.
pub open spec fn ordered(evs: Seq<Event>) -> bool {
    forall|i: int, j: int| 0 <= i <= j < evs.len() ==> #[trigger] evs[i].at() <= #[trigger] evs[j].at()
}

/// The bound on the clock that holds for every reachable state; it fits in a
/// `u64` for any list of at most `u32::MAX` processes.
pub open spec fn clock_bound(ps: Seq<Process>) -> int {
    u32_max() + total(bursts(ps))
}

pub open spec fn np_init(ps: Seq<Process>) -> RunState {
    RunState { time: 0, rem: bursts(ps), events: Seq::empty() }
}

/// The time at which the next dispatch happens: now if a process is ready,
/// else the arrival of the earliest unfinished process.
pub open spec fn np_start(ps: Seq<Process>, rule: Rule, s: RunState) -> u64 {
    if best(ps, s.rem, s.time as int, rule, ps.len() as int) >= 0 {
        s.time
    } else {
        ps[earliest(ps, s.rem)].arrival_time as u64
    }
}

/// The index of the process dispatched next.
pub open spec fn np_pick(ps: Seq<Process>, rule: Rule, s: RunState) -> int {
    best(ps, s.rem, np_start(ps, rule, s) as int, rule, ps.len() as int)
}

/// One dispatch of a non-preemptive policy: idle up to the next arrival if no
/// process is ready, then run the ready process of least key to completion.
pub open spec fn np_step(ps: Seq<Process>, rule: Rule, s: RunState) -> RunState {
    if earliest(ps, s.rem) < 0 {
        s
    } else {
        let t = np_start(ps, rule, s);
        let idle = if t == s.time {
            Seq::empty()
        } else {
            seq![Event::Idle { time: s.time, length: (t - s.time) as u64 }]
        };
        let i = np_pick(ps, rule, s);
        let p = ps[i];
        let f = (t + p.burst_time) as u64;
        RunState {
            time: f,
            rem: s.rem.update(i, 0),
            events: s.events + idle + seq![
                Event::Start { time: t, pid: p.pid, run: p.burst_time, remaining: p.burst_time, tier: Tier::Ready },
                Event::Finished { time: f, pid: p.pid },
            ],
        }
    }
}

/// The state after `k` dispatches.
pub open spec fn np_iter(ps: Seq<Process>, rule: Rule, k: nat) -> RunState
    decreases k,
{
    if k == 0 {
        np_init(ps)
    } else {
        np_step(ps, rule, np_iter(ps, rule, (k - 1) as nat))
    }
}

/// Every process is done after `k` dispatches.
pub open spec fn np_finished(ps: Seq<Process>, rule: Rule, k: nat) -> bool {
    all_done(np_iter(ps, rule, k).rem)
}

/// `evs` is the log of a complete run: the log of a state reached after some
/// number of dispatches in which every process is done. Every later state is
/// the same, so the log is unique.
pub open spec fn np_log(ps: Seq<Process>, rule: Rule, evs: Seq<Event>) -> bool {
    exists|k: nat| np_finished(ps, rule, k) && evs == #[trigger] np_iter(ps, rule, k).events
}

pub open spec fn np_wf(ps: Seq<Process>, s: RunState) -> bool {
    &&& s.rem.len() == ps.len()
    &&& forall|i: int| 0 <= i < ps.len() ==> s.rem[i] == 0 || s.rem[i] == ps[i].burst_time
    &&& total(s.rem) <= total(bursts(ps))
    &&& s.time + total(s.rem) <= clock_bound(ps)
    &&& ordered(s.events)
    &&& forall|i: int| 0 <= i < s.events.len() ==> #[trigger] s.events[i].at() <= s.time
}

pub proof fn lemma_clock_bound(ps: Seq<Process>)
    requires
        ps.len() <= u32_max(),
    ensures
        clock_bound(ps) <= u64::MAX,
{
    lemma_total_bound(bursts(ps));
    let n = ps.len() as int;
    assert(n * u32_max() <= u32_max() * u32_max()) by (nonlinear_arith)
        requires n <= u32_max();
}

pub proof fn lemma_np_init(ps: Seq<Process>)
    ensures
        np_wf(ps, np_init(ps)),
{
    lemma_total_bound(bursts(ps));
}

/// A dispatch keeps the state well formed, lowers the work left and appends
/// events no earlier than the clock.
pub proof fn lemma_np_step(ps: Seq<Process>, rule: Rule, s: RunState)
    requires
        bursts_positive(ps),
        ps.len() <= u32_max(),
        np_wf(ps, s),
        earliest(ps, s.rem) >= 0,
    ensures
        ({
            let t = np_start(ps, rule, s);
            let i = np_pick(ps, rule, s);
            let s2 = np_step(ps, rule, s);
            &&& 0 <= i < ps.len()
            &&& ready(ps, s.rem, t as int, i)
            &&& s.time <= t
            &&& t + ps[i].burst_time <= clock_bound(ps)
            &&& t < s.time ==> false
            &&& t != s.time ==> best(ps, s.rem, s.time as int, rule, ps.len() as int) < 0
            &&& np_wf(ps, s2)
            &&& total(s2.rem) < total(s.rem)
        }),
{
    let n = ps.len() as int;
    lemma_earliest(ps, s.rem);
    lemma_best(ps, s.rem, s.time as int, rule, n);
    lemma_clock_bound(ps);
    lemma_total_bound(s.rem);
    let e = earliest(ps, s.rem);
    let t = np_start(ps, rule, s);
    if best(ps, s.rem, s.time as int, rule, n) < 0 {
        assert(!ready(ps, s.rem, s.time as int, e));
        assert(ready(ps, s.rem, t as int, e));
    }
    lemma_best(ps, s.rem, t as int, rule, n);
    let i = np_pick(ps, rule, s);
    assert(ps[i].burst_time > 0);
    lemma_total_update(s.rem, i, 0);
    lemma_total_ge(s.rem, i);
    let s2 = np_step(ps, rule, s);
    assert(s2.time as int == t + ps[i].burst_time);
    assert forall|a: int| 0 <= a < s2.events.len() implies #[trigger] s2.events[a].at() <= s2.time by {
        if a < s.events.len() {
            assert(s2.events[a] == s.events[a]);
        }
    }
    assert forall|a: int, b: int| 0 <= a <= b < s2.events.len() implies #[trigger] s2.events[a].at()
        <= #[trigger] s2.events[b].at() by {
        if b < s.events.len() {
            assert(s2.events[a] == s.events[a]);
            assert(s2.events[b] == s.events[b]);
        } else if a < s.events.len() {
            assert(s2.events[a] == s.events[a]);
        }
    }
}

/// Runs a non-preemptive policy to completion: at each dispatch the ready
/// process of least key under `rule` (lowest index on ties) runs its whole
/// burst; when nothing is ready the clock jumps to the next arrival and the
/// gap is logged as one idle interval.
pub fn run_nonpreemptive(ps: &Vec<Process>, rule: Rule) -> (r: Vec<Event>)
    requires
        bursts_positive(ps@),
        ps.len() <= u32_max(),
    ensures
        np_log(ps@, rule, r@),
{
    let n = ps.len();
    let mut rem: Vec<u32> = Vec::new();
    let mut j: usize = 0;
    while j < n
        invariant
            n == ps.len(),
            j <= n,
            rem@ == bursts(ps@).subrange(0, j as int),
        decreases n - j,
    {
        rem.push(ps[j].burst_time);
        assert(rem@ =~= bursts(ps@).subrange(0, j + 1));
        j += 1;
    }
    assert(rem@ =~= bursts(ps@));
    let mut time: u64 = 0;
    let mut events: Vec<Event> = Vec::new();
    let ghost mut k: nat = 0;
    proof {
        lemma_np_init(ps@);
    }
    loop
        invariant
            n == ps.len(),
            bursts_positive(ps@),
            n <= u32_max(),
            np_iter(ps@, rule, k) == (RunState { time, rem: rem@, events: events@ }),
            np_wf(ps@, np_iter(ps@, rule, k)),
        ensures
            np_iter(ps@, rule, k) == (RunState { time, rem: rem@, events: events@ }),
            all_done(rem@),
        decreases total(rem@),
    {
        let ghost s = np_iter(ps@, rule, k);
        let e = select(ps, &rem, 0xffff_ffff, Rule::Arrival);
        if e.is_none() {
            proof {
                lemma_earliest(ps@, rem@);
            }
            break;
        }
        let e = e.unwrap();
        proof {
            lemma_np_step(ps@, rule, s);
            lemma_clock_bound(ps@);
        }
        let t: u64 = if select(ps, &rem, time, rule).is_some() {
            time
        } else {
            let a = ps[e].arrival_time as u64;
            events.push(Event::Idle { time, length: a - time });
            a
        };
        assert(t == np_start(ps@, rule, s));
        let i = select(ps, &rem, t, rule).unwrap();
        assert(i == np_pick(ps@, rule, s));
        let p = ps[i];
        let f = t + p.burst_time as u64;
        events.push(Event::Start { time: t, pid: p.pid, run: p.burst_time, remaining: p.burst_time, tier: Tier::Ready });
        events.push(Event::Finished { time: f, pid: p.pid });
        rem.set(i, 0);
        time = f;
        proof {
            let s2 = np_step(ps@, rule, s);
            assert(events@ =~= s2.events);
            assert(rem@ =~= s2.rem);
            lemma_total_bound(rem@);
            k = k + 1;
        }
    }
    proof {
        assert(np_finished(ps@, rule, k));
    }
    events
}

} // verus!
