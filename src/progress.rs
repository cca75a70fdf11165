use vstd::prelude::*;
use crate::event::{Event, Tier};
use crate::process::{Process, valid_processes};

verus! {

/// `e` dispatches process `pid`.
pub open spec fn starts(e: Event, pid: usize) -> bool {
    e matches Event::Start { pid: p, .. } && p == pid
}

/// `e` records the completion of process `pid`.
pub open spec fn finishes(e: Event, pid: usize) -> bool {
    e matches Event::Finished { pid: p, .. } && p == pid
}

/// `e` records an interruption of process `pid`.
pub open spec fn preempts(e: Event, pid: usize) -> bool {
    e matches Event::Preempted { pid: p, .. } && p == pid
}

/// The CPU time granted to `pid` over a log: the sum of its slices.
pub open spec fn ran(evs: Seq<Event>, pid: usize) -> int
    decreases evs.len(),
{
    if evs.len() == 0 {
        0
    } else {
        ran(evs.drop_last(), pid) + match evs.last() {
            Event::Start { pid: p, run, .. } => if p == pid { run as int } else { 0 },
            _ => 0,
        }
    }
}

/// The log records the completion of `pid`.
pub open spec fn has_finish(evs: Seq<Event>, pid: usize) -> bool {
    exists|m: int| 0 <= m < evs.len() && #[trigger] finishes(evs[m], pid)
}

/// No process is dispatched after its completion is logged.
pub open spec fn no_start_after_finish(evs: Seq<Event>) -> bool {
    forall|a: int, b: int, p: usize|
        0 <= a < b < evs.len() && #[trigger] finishes(evs[a], p) ==> !#[trigger] starts(evs[b], p)
}

/// What a log says of each process agrees with the work it has left: its
/// slices add up to the work done, its completion is logged exactly when no
/// work is left and no earlier than its arrival plus its burst, and the clock
/// stands at least at its arrival plus the work done once it has run.
pub open spec fn progress_ok(ps: Seq<Process>, time: u64, rem: Seq<u32>, evs: Seq<Event>) -> bool {
    &&& rem.len() == ps.len()
    &&& forall|i: int| 0 <= i < ps.len() ==> #[trigger] ran(evs, ps[i].pid) == ps[i].burst_time - rem[i]
    &&& forall|i: int| 0 <= i < ps.len() ==> (rem[i] == 0 <==> #[trigger] has_finish(evs, ps[i].pid))
    &&& forall|i: int| 0 <= i < ps.len() && #[trigger] rem[i] < ps[i].burst_time ==> ps[i].arrival_time
        + ps[i].burst_time - rem[i] <= time
    &&& forall|m: int, i: int| 0 <= m < evs.len() && 0 <= i < ps.len() && #[trigger] finishes(evs[m], ps[i].pid)
        ==> evs[m].at() >= ps[i].arrival_time + ps[i].burst_time
    &&& no_start_after_finish(evs)
}

pub proof fn lemma_ran_push(evs: Seq<Event>, e: Event, pid: usize)
    ensures
        ran(evs.push(e), pid) == ran(evs, pid) + (if starts(e, pid) {
            match e {
                Event::Start { run, .. } => run as int,
                _ => 0,
            }
        } else {
            0
        }),
{
    assert(evs.push(e).drop_last() =~= evs);
}

pub proof fn lemma_progress_init(ps: Seq<Process>, rem: Seq<u32>)
    requires
        valid_processes(ps),
        rem == Seq::new(ps.len(), |i: int| ps[i].burst_time),
    ensures
        progress_ok(ps, 0, rem, Seq::empty()),
{
    assert forall|i: int| 0 <= i < ps.len() implies (rem[i] == 0 <==> #[trigger] has_finish(
        Seq::<Event>::empty(),
        ps[i].pid,
    )) by {
        assert(crate::process::process_ok(ps[i]));
    }
}

/// Idle intervals change nothing that `progress_ok` speaks of but the clock.
pub proof fn lemma_progress_idle(ps: Seq<Process>, time: u64, rem: Seq<u32>, evs: Seq<Event>, t: u64, len: u64)
    requires
        progress_ok(ps, time, rem, evs),
        time <= t,
    ensures
        progress_ok(ps, t, rem, evs.push(Event::Idle { time, length: len })),
{
    let e2 = evs.push(Event::Idle { time, length: len });
    assert forall|i: int| 0 <= i < ps.len() implies #[trigger] ran(e2, ps[i].pid) == ps[i].burst_time - rem[i] by {
        lemma_ran_push(evs, Event::Idle { time, length: len }, ps[i].pid);
    }
    assert forall|i: int| 0 <= i < ps.len() implies (rem[i] == 0 <==> #[trigger] has_finish(e2, ps[i].pid)) by {
        if has_finish(e2, ps[i].pid) {
            let m = choose|m: int| 0 <= m < e2.len() && #[trigger] finishes(e2[m], ps[i].pid);
            assert(m < evs.len());
            assert(finishes(evs[m], ps[i].pid));
        }
        if has_finish(evs, ps[i].pid) {
            let m = choose|m: int| 0 <= m < evs.len() && #[trigger] finishes(evs[m], ps[i].pid);
            assert(finishes(e2[m], ps[i].pid));
        }
    }
    assert forall|m: int, i: int| 0 <= m < e2.len() && 0 <= i < ps.len() && #[trigger] finishes(e2[m], ps[i].pid)
        implies e2[m].at() >= ps[i].arrival_time + ps[i].burst_time by {
        assert(m < evs.len());
        assert(e2[m] == evs[m]);
    }
    assert forall|a: int, b: int, p: usize| 0 <= a < b < e2.len() && #[trigger] finishes(e2[a], p) implies !#[trigger] starts(
        e2[b],
        p,
    ) by {
        assert(e2[a] == evs[a]);
        if b < evs.len() {
            assert(e2[b] == evs[b]);
        }
    }
}

/// A slice of `run` units of process `i`, started at `t` and logged as a start
/// followed by a completion or an interruption.
pub proof fn lemma_progress_slice(
    ps: Seq<Process>,
    time: u64,
    rem: Seq<u32>,
    evs: Seq<Event>,
    t: u64,
    i: int,
    run: u32,
    tier: Tier,
    back: Tier,
)
    requires
        valid_processes(ps),
        progress_ok(ps, time, rem, evs),
        time <= t,
        0 <= i < ps.len(),
        0 < run <= rem[i],
        ps[i].arrival_time <= t,
        t + run <= u64::MAX,
    ensures
        ({
            let f = (t + run) as u64;
            let left = (rem[i] - run) as u32;
            let pid = ps[i].pid;
            let last = if left == 0 {
                Event::Finished { time: f, pid }
            } else {
                Event::Preempted { time: f, pid, remaining: left, tier: back }
            };
            progress_ok(
                ps,
                f,
                rem.update(i, left),
                evs.push(Event::Start { time: t, pid, run, remaining: rem[i], tier }).push(last),
            )
        }),
{
    let f = (t + run) as u64;
    let left = (rem[i] - run) as u32;
    let pid = ps[i].pid;
    let st = Event::Start { time: t, pid, run, remaining: rem[i], tier };
    let last = if left == 0 {
        Event::Finished { time: f, pid }
    } else {
        Event::Preempted { time: f, pid, remaining: left, tier: back }
    };
    let e1 = evs.push(st);
    let e2 = e1.push(last);
    let rem2 = rem.update(i, left);
    assert forall|j: int| 0 <= j < ps.len() implies #[trigger] ran(e2, ps[j].pid) == ps[j].burst_time - rem2[j] by {
        lemma_ran_push(evs, st, ps[j].pid);
        lemma_ran_push(e1, last, ps[j].pid);
        if j != i {
            assert(ps[j].pid != ps[i].pid);
        }
    }
    // an unfinished process has no logged completion
    assert(!has_finish(evs, pid));
    assert forall|j: int| 0 <= j < ps.len() implies (rem2[j] == 0 <==> #[trigger] has_finish(e2, ps[j].pid)) by {
        if has_finish(e2, ps[j].pid) {
            let m = choose|m: int| 0 <= m < e2.len() && #[trigger] finishes(e2[m], ps[j].pid);
            if m < evs.len() {
                assert(e2[m] == evs[m]);
                assert(has_finish(evs, ps[j].pid));
            } else if m == evs.len() {
                assert(e2[m] == st);
            } else {
                assert(e2[m] == last);
                assert(left == 0 && j == i) by {
                    if j != i {
                        assert(ps[j].pid != ps[i].pid);
                    }
                }
            }
        }
        if has_finish(evs, ps[j].pid) {
            let m = choose|m: int| 0 <= m < evs.len() && #[trigger] finishes(evs[m], ps[j].pid);
            assert(e2[m] == evs[m]);
            assert(finishes(e2[m], ps[j].pid));
        }
        if j == i && left == 0 {
            assert(finishes(e2[evs.len() + 1int], ps[j].pid));
        }
    }
    assert forall|j: int| 0 <= j < ps.len() && #[trigger] rem2[j] < ps[j].burst_time implies ps[j].arrival_time
        + ps[j].burst_time - rem2[j] <= f by {}
    assert forall|m: int, j: int| 0 <= m < e2.len() && 0 <= j < ps.len() && #[trigger] finishes(e2[m], ps[j].pid)
        implies e2[m].at() >= ps[j].arrival_time + ps[j].burst_time by {
        if m < evs.len() {
            assert(e2[m] == evs[m]);
        } else if m == evs.len() {
            assert(e2[m] == st);
        } else {
            assert(e2[m] == last);
            if j != i {
                assert(ps[j].pid != ps[i].pid);
            }
        }
    }
    assert forall|a: int, b: int, p: usize| 0 <= a < b < e2.len() && #[trigger] finishes(e2[a], p) implies !#[trigger] starts(
        e2[b],
        p,
    ) by {
        if b < evs.len() {
            assert(e2[a] == evs[a]);
            assert(e2[b] == evs[b]);
        } else if b == evs.len() {
            assert(e2[a] == evs[a]);
            assert(e2[b] == st);
            if p == pid {
                assert(has_finish(evs, pid));
            }
        } else {
            assert(e2[b] == last);
        }
    }
}

} // verus!
