use vstd::prelude::*;
use crate::event::{Event, Tier};
use crate::nonpreemptive::{all_done, bursts, clock_bound, lemma_clock_bound, ordered};
use crate::process::{Process, bursts_positive, u32_max};
use crate::select::{Rule, earliest, lemma_earliest, lemma_total_bound, lemma_total_ge,
    lemma_total_update, select, total};

verus! {

/// The state of a queue-based simulation between dispatches. `admitted`
/// marks the processes that have entered a queue at some point; `high` and
/// `low` hold list indices in FIFO order (a one-level policy uses `high` alone).
pub ghost struct QueueState {
    pub time: u64,
    pub rem: Seq<u32>,
    pub admitted: Seq<bool>,
    pub high: Seq<usize>,
    pub low: Seq<usize>,
    pub events: Seq<Event>,
}

/// Admission over the first `k` list entries at time `t`: each arrived
/// process that never entered a queue is appended to `h`, in list order.
pub open spec fn admit_upto(ps: Seq<Process>, t: int, a: Seq<bool>, h: Seq<usize>, k: int) -> (Seq<bool>, Seq<usize>)
    decreases k,
{
    if k <= 0 {
        (a, h)
    } else {
        let (a1, h1) = admit_upto(ps, t, a, h, k - 1);
        if !a1[k - 1] && ps[k - 1].arrival_time <= t {
            (a1.update(k - 1, true), h1.push((k - 1) as usize))
        } else {
            (a1, h1)
        }
    }
}

/// The state after admission at time `t`.
pub open spec fn arrive(ps: Seq<Process>, s: QueueState, t: u64) -> QueueState {
    let (a, h) = admit_upto(ps, t as int, s.admitted, s.high, ps.len() as int);
    QueueState { time: t, admitted: a, high: h, ..s }
}

/// The queue state after admission, idling up to the next arrival and
/// admitting again when both queues are empty.
pub open spec fn q_ready(ps: Seq<Process>, s: QueueState) -> QueueState {
    let s1 = arrive(ps, s, s.time);
    if s1.high.len() == 0 && s1.low.len() == 0 {
        let t = ps[earliest(ps, s.rem)].arrival_time as u64;
        let s2 = arrive(ps, s1, t);
        QueueState { events: s2.events.push(Event::Idle { time: s.time, length: (t - s.time) as u64 }), ..s2 }
    } else {
        s1
    }
}

/// One slice: the front of the high queue runs for up to `hq` units, or, when
/// it is empty, the front of the low queue for up to `lq` units. An unfinished
/// process goes to the back of the low queue when `demote` holds, else to the
/// back of the high queue.
pub open spec fn q_dispatch(ps: Seq<Process>, hq: u32, lq: u32, demote: bool, s: QueueState) -> QueueState {
    let from_high = s.high.len() > 0;
    let i = if from_high { s.high[0] } else { s.low[0] };
    let q = if from_high { hq } else { lq };
    let tier = if !demote { Tier::Ready } else if from_high { Tier::High } else { Tier::Low };
    let r = s.rem[i as int];
    let run = if r > q { q } else { r };
    let left = (r - run) as u32;
    let f = (s.time + run) as u64;
    let pid = ps[i as int].pid;
    let high1 = if from_high { s.high.drop_first() } else { s.high };
    let low1 = if from_high { s.low } else { s.low.drop_first() };
    let start = Event::Start { time: s.time, pid, run, remaining: r, tier };
    let rest = QueueState { time: f, rem: s.rem.update(i as int, left), ..s };
    if left == 0 {
        QueueState { high: high1, low: low1, events: s.events.push(start).push(Event::Finished { time: f, pid }), ..rest }
    } else if demote {
        QueueState {
            high: high1,
            low: low1.push(i),
            events: s.events.push(start).push(Event::Preempted { time: f, pid, remaining: left, tier: Tier::Low }),
            ..rest
        }
    } else {
        QueueState {
            high: high1.push(i),
            low: low1,
            events: s.events.push(start).push(Event::Preempted { time: f, pid, remaining: left, tier: Tier::Ready }),
            ..rest
        }
    }
}

/// One iteration of a queue-based policy; a finished state stays as it is.
pub open spec fn q_step(ps: Seq<Process>, hq: u32, lq: u32, demote: bool, s: QueueState) -> QueueState {
    if earliest(ps, s.rem) < 0 {
        s
    } else {
        q_dispatch(ps, hq, lq, demote, q_ready(ps, s))
    }
}

pub open spec fn q_init(ps: Seq<Process>) -> QueueState {
    QueueState {
        time: 0,
        rem: bursts(ps),
        admitted: Seq::new(ps.len(), |i: int| false),
        high: Seq::empty(),
        low: Seq::empty(),
        events: Seq::empty(),
    }
}

/// The state after `k` iterations.
pub open spec fn q_iter(ps: Seq<Process>, hq: u32, lq: u32, demote: bool, k: nat) -> QueueState
    decreases k,
{
    if k == 0 {
        q_init(ps)
    } else {
        q_step(ps, hq, lq, demote, q_iter(ps, hq, lq, demote, (k - 1) as nat))
    }
}

/// Every process is done after `k` iterations.
pub open spec fn q_finished(ps: Seq<Process>, hq: u32, lq: u32, demote: bool, k: nat) -> bool {
    all_done(q_iter(ps, hq, lq, demote, k).rem)
}

/// `evs` is the log of a complete run: the log of a state reached after some
/// number of iterations in which every process is done. Every later state is
/// the same, so the log is unique.
pub open spec fn q_log(ps: Seq<Process>, hq: u32, lq: u32, demote: bool, evs: Seq<Event>) -> bool {
    exists|k: nat| q_finished(ps, hq, lq, demote, k) && evs == #[trigger] q_iter(ps, hq, lq, demote, k).events
}

/// Queue entries are valid indices, admitted, with work left, and no index
/// is queued twice.
pub open spec fn queue_ok(ps: Seq<Process>, rem: Seq<u32>, a: Seq<bool>, q: Seq<usize>) -> bool {
    forall|m: int| 0 <= m < q.len() ==> #[trigger] q[m] < ps.len() && a[q[m] as int] && rem[q[m] as int] > 0
}

pub open spec fn distinct(h: Seq<usize>, l: Seq<usize>) -> bool {
    &&& forall|x: int, y: int| 0 <= x < y < h.len() ==> #[trigger] h[x] != #[trigger] h[y]
    &&& forall|x: int, y: int| 0 <= x < y < l.len() ==> #[trigger] l[x] != #[trigger] l[y]
    &&& forall|x: int, y: int| 0 <= x < h.len() && 0 <= y < l.len() ==> #[trigger] h[x] != #[trigger] l[y]
}

/// The bookkeeping of queues and admission, independent of the clock.
pub open spec fn queues_wf(ps: Seq<Process>, rem: Seq<u32>, a: Seq<bool>, h: Seq<usize>, l: Seq<usize>) -> bool {
    &&& rem.len() == ps.len()
    &&& a.len() == ps.len()
    &&& forall|i: int| 0 <= i < ps.len() ==> #[trigger] rem[i] <= ps[i].burst_time
    &&& forall|i: int| 0 <= i < ps.len() && !#[trigger] a[i] ==> rem[i] == ps[i].burst_time
    &&& queue_ok(ps, rem, a, h)
    &&& queue_ok(ps, rem, a, l)
    &&& forall|i: int| 0 <= i < ps.len() && #[trigger] a[i] && rem[i] > 0 ==> h.contains(i as usize) || l.contains(i as usize)
    &&& distinct(h, l)
}

pub open spec fn q_wf(ps: Seq<Process>, s: QueueState) -> bool {
    &&& queues_wf(ps, s.rem, s.admitted, s.high, s.low)
    &&& total(s.rem) <= total(bursts(ps))
    &&& s.time + total(s.rem) <= clock_bound(ps)
    &&& ordered(s.events)
    &&& forall|i: int| 0 <= i < s.events.len() ==> #[trigger] s.events[i].at() <= s.time
}

pub proof fn lemma_admit_upto(ps: Seq<Process>, rem: Seq<u32>, t: int, a: Seq<bool>, h: Seq<usize>, l: Seq<usize>, k: int)
    requires
        bursts_positive(ps),
        ps.len() <= usize::MAX,
        0 <= k <= ps.len(),
        queues_wf(ps, rem, a, h, l),
    ensures
        ({
            let (a2, h2) = admit_upto(ps, t, a, h, k);
            &&& queues_wf(ps, rem, a2, h2, l)
            &&& forall|j: int| 0 <= j < k && ps[j].arrival_time <= t ==> #[trigger] a2[j]
            &&& forall|j: int| k <= j < ps.len() ==> #[trigger] a2[j] == a[j]
            &&& h.len() == 0 ==> forall|m: int| 0 <= m < h2.len() ==> ps[#[trigger] h2[m] as int].arrival_time <= t
            &&& forall|j: int| 0 <= j < ps.len() && #[trigger] a2[j] && !a[j] ==> ps[j].arrival_time <= t
            &&& h.len() <= h2.len()
            &&& forall|m: int| 0 <= m < h.len() ==> #[trigger] h2[m] == h[m]
            &&& forall|m: int| h.len() <= m < h2.len() ==> !a[#[trigger] h2[m] as int]
        }),
    decreases k,
{
    if k > 0 {
        lemma_admit_upto(ps, rem, t, a, h, l, k - 1);
        let (a1, h1) = admit_upto(ps, t, a, h, k - 1);
        let x = k - 1;
        if !a1[x] && ps[x].arrival_time <= t {
            let a2 = a1.update(x, true);
            let h2 = h1.push(x as usize);
            assert(ps[x].burst_time > 0);
            assert forall|m: int| 0 <= m < h1.len() implies h1[m] != x as usize by {
                assert(a1[h1[m] as int]);
            }
            assert forall|m: int| 0 <= m < l.len() implies l[m] != x as usize by {
                assert(a1[l[m] as int]);
            }
            assert forall|i: int| 0 <= i < ps.len() && #[trigger] a2[i] && rem[i] > 0 implies h2.contains(i as usize)
                || l.contains(i as usize) by {
                if i == x {
                    assert(h2[h1.len() as int] == x as usize);
                } else {
                    assert(a1[i]);
                    if h1.contains(i as usize) {
                        let m = choose|m: int| 0 <= m < h1.len() && h1[m] == i as usize;
                        assert(h2[m] == i as usize);
                    }
                }
            }
            assert(queue_ok(ps, rem, a2, h2));
            assert(queue_ok(ps, rem, a2, l));
            assert(distinct(h2, l));
        }
    }
}

pub proof fn lemma_arrive(ps: Seq<Process>, s: QueueState, t: u64)
    requires
        bursts_positive(ps),
        ps.len() <= usize::MAX,
        q_wf(ps, s),
        s.time <= t,
        t + total(s.rem) <= clock_bound(ps),
    ensures
        ({
            let s2 = arrive(ps, s, t);
            &&& q_wf(ps, s2)
            &&& s2.rem == s.rem && s2.low == s.low && s2.events == s.events
            &&& forall|j: int| 0 <= j < ps.len() && ps[j].arrival_time <= t ==> #[trigger] s2.admitted[j]
            &&& s.high.len() == 0 ==> forall|m: int| 0 <= m < s2.high.len() ==> ps[#[trigger] s2.high[m] as int].arrival_time <= t
            &&& forall|j: int| 0 <= j < ps.len() && #[trigger] s2.admitted[j] && !s.admitted[j] ==> ps[j].arrival_time <= t
            &&& s.high.len() <= s2.high.len()
            &&& forall|m: int| 0 <= m < s.high.len() ==> #[trigger] s2.high[m] == s.high[m]
            &&& forall|m: int| s.high.len() <= m < s2.high.len() ==> !s.admitted[#[trigger] s2.high[m] as int]
        }),
{
    lemma_admit_upto(ps, s.rem, t as int, s.admitted, s.high, s.low, ps.len() as int);
}

/// Admission and idling leave a well-formed state with a process to dispatch.
pub proof fn lemma_q_ready(ps: Seq<Process>, s: QueueState)
    requires
        bursts_positive(ps),
        ps.len() <= u32_max(),
        q_wf(ps, s),
        earliest(ps, s.rem) >= 0,
    ensures
        ({
            let s2 = q_ready(ps, s);
            &&& q_wf(ps, s2)
            &&& s2.rem == s.rem
            &&& s2.high.len() > 0 || s2.low.len() > 0
            &&& s.time <= s2.time
        }),
{
    lemma_earliest(ps, s.rem);
    lemma_total_bound(s.rem);
    let e = earliest(ps, s.rem);
    lemma_arrive(ps, s, s.time);
    let s1 = arrive(ps, s, s.time);
    if s1.high.len() == 0 && s1.low.len() == 0 {
        let t = ps[e].arrival_time as u64;
        // every unfinished process is unqueued, hence not yet admitted, hence not yet arrived
        if s1.admitted[e] {
            assert(s1.high.contains(e as usize) || s1.low.contains(e as usize));
        }
        assert(s.time < t);
        lemma_arrive(ps, s1, t);
        let s2 = arrive(ps, s1, t);
        assert(s2.admitted[e]);
        assert(s2.high.contains(e as usize) || s2.low.contains(e as usize));
        let s3 = q_ready(ps, s);
        assert forall|i: int| 0 <= i < s3.events.len() implies #[trigger] s3.events[i].at() <= s3.time by {
            if i < s2.events.len() {
                assert(s3.events[i] == s2.events[i]);
            }
        }
        assert forall|x: int, y: int| 0 <= x <= y < s3.events.len() implies #[trigger] s3.events[x].at()
            <= #[trigger] s3.events[y].at() by {
            if y < s2.events.len() {
                assert(s3.events[x] == s2.events[x]);
                assert(s3.events[y] == s2.events[y]);
            } else if x < s2.events.len() {
                assert(s3.events[x] == s2.events[x]);
            }
        }
    }
}

/// The process at the front of the queue that dispatches next.
pub open spec fn q_front(s: QueueState) -> usize {
    if s.high.len() > 0 { s.high[0] } else { s.low[0] }
}

/// A slice keeps the state well formed and lowers the work left.
pub proof fn lemma_q_dispatch(ps: Seq<Process>, hq: u32, lq: u32, demote: bool, s: QueueState)
    requires
        bursts_positive(ps),
        ps.len() <= u32_max(),
        q_wf(ps, s),
        s.high.len() > 0 || s.low.len() > 0,
        hq > 0,
        lq > 0,
    ensures
        ({
            let i = q_front(s);
            let s2 = q_dispatch(ps, hq, lq, demote, s);
            &&& i < ps.len()
            &&& s.rem[i as int] > 0
            &&& s.time + s.rem[i as int] <= clock_bound(ps)
            &&& q_wf(ps, s2)
            &&& total(s2.rem) < total(s.rem)
        }),
{
    let i = q_front(s);
    let from_high = s.high.len() > 0;
    assert(i < ps.len() && s.admitted[i as int] && s.rem[i as int] > 0) by {
        if from_high {
            assert(s.high[0] == i);
        } else {
            assert(s.low[0] == i);
        }
    }
    let q = if from_high { hq } else { lq };
    let r = s.rem[i as int];
    let run = if r > q { q } else { r };
    let left = (r - run) as u32;
    lemma_total_update(s.rem, i as int, left);
    lemma_total_ge(s.rem, i as int);
    lemma_total_bound(s.rem);
    lemma_clock_bound(ps);
    let rem2 = s.rem.update(i as int, left);
    let high1 = if from_high { s.high.drop_first() } else { s.high };
    let low1 = if from_high { s.low } else { s.low.drop_first() };
    assert forall|m: int| 0 <= m < high1.len() implies #[trigger] high1[m] != i by {
        if from_high {
            assert(high1[m] == s.high[m + 1]);
        } else {
            assert(s.low[0] == i);
        }
    }
    assert forall|m: int| 0 <= m < low1.len() implies #[trigger] low1[m] != i by {
        if from_high {
            assert(s.high[0] == i);
        } else {
            assert(low1[m] == s.low[m + 1]);
        }
    }
    assert(queue_ok(ps, rem2, s.admitted, high1));
    assert(queue_ok(ps, rem2, s.admitted, low1));
    assert(distinct(high1, low1));
    assert forall|j: int| 0 <= j < ps.len() && j != i && #[trigger] s.admitted[j] && rem2[j] > 0 implies high1.contains(
        j as usize) || low1.contains(j as usize) by {
        assert(s.rem[j] > 0);
        if s.high.contains(j as usize) {
            let m = choose|m: int| 0 <= m < s.high.len() && s.high[m] == j as usize;
            if from_high {
                assert(m != 0);
                assert(high1[m - 1] == j as usize);
            } else {
                assert(high1[m] == j as usize);
            }
        } else {
            let m = choose|m: int| 0 <= m < s.low.len() && s.low[m] == j as usize;
            if from_high {
                assert(low1[m] == j as usize);
            } else {
                assert(m != 0);
                assert(low1[m - 1] == j as usize);
            }
        }
    }
    let s2 = q_dispatch(ps, hq, lq, demote, s);
    assert(s2.time as int == s.time + run);
    if left == 0 {
        assert(queues_wf(ps, s2.rem, s2.admitted, s2.high, s2.low));
    } else if demote {
        let low2 = low1.push(i);
        assert(low2[low1.len() as int] == i);
        assert forall|j: int| 0 <= j < ps.len() && #[trigger] s.admitted[j] && rem2[j] > 0 implies high1.contains(
            j as usize) || low2.contains(j as usize) by {
            if j == i {
                assert(low2[low1.len() as int] == j as usize);
            } else {
                if low1.contains(j as usize) {
                    let m = choose|m: int| 0 <= m < low1.len() && low1[m] == j as usize;
                    assert(low2[m] == j as usize);
                }
            }
        }
        assert(queue_ok(ps, rem2, s.admitted, low2));
        assert(distinct(high1, low2));
        assert(queues_wf(ps, s2.rem, s2.admitted, s2.high, s2.low));
    } else {
        let high2 = high1.push(i);
        assert forall|j: int| 0 <= j < ps.len() && #[trigger] s.admitted[j] && rem2[j] > 0 implies high2.contains(
            j as usize) || low1.contains(j as usize) by {
            if j == i {
                assert(high2[high1.len() as int] == j as usize);
            } else {
                if high1.contains(j as usize) {
                    let m = choose|m: int| 0 <= m < high1.len() && high1[m] == j as usize;
                    assert(high2[m] == j as usize);
                }
            }
        }
        assert(queue_ok(ps, rem2, s.admitted, high2));
        assert(distinct(high2, low1));
        assert(queues_wf(ps, s2.rem, s2.admitted, s2.high, s2.low));
    }
    assert forall|a: int| 0 <= a < s2.events.len() implies #[trigger] s2.events[a].at() <= s2.time by {
        if a < s.events.len() {
            assert(s2.events[a] == s.events[a]);
        }
    }
    assert forall|a: int, b: int| 0 <= a <= b < s2.events.len() implies #[trigger] s2.events[a].at()
        <= #[trigger] s2.events[b].at() by {
        if b < s.events.len() {
            assert(s2.events[a] == s.events[a]);
            assert(s2.events[b] == s.events[b]);
        } else if a < s.events.len() {
            assert(s2.events[a] == s.events[a]);
        }
    }
}

/// Appends to `high`, in list order, every process that has arrived by `t`
/// and never entered a queue.
fn enqueue_arrivals(ps: &Vec<Process>, t: u64, admitted: &mut Vec<bool>, high: &mut Vec<usize>)
    requires
        old(admitted).len() == ps.len(),
    ensures
        (final(admitted)@, final(high)@) == admit_upto(ps@, t as int, old(admitted)@, old(high)@, ps.len() as int),
        final(admitted).len() == ps.len(),
{
    let n = ps.len();
    let mut j: usize = 0;
    while j < n
        invariant
            n == ps.len(),
            j <= n,
            admitted.len() == n,
            (admitted@, high@) == admit_upto(ps@, t as int, old(admitted)@, old(high)@, j as int),
        decreases n - j,
    {
        if !admitted[j] && ps[j].arrival_time as u64 <= t {
            admitted.set(j, true);
            high.push(j);
        }
        j += 1;
    }
}

/// Runs a queue-based policy to completion. Each iteration first admits the
/// arrived processes to the back of the high queue (in list order); when both
/// queues are empty the clock jumps to the next arrival, logged as one idle
/// interval. Then the front of the high queue runs for up to `hq` units, or,
/// if the high queue is empty, the front of the low queue for up to `lq`
/// units. An unfinished process goes to the back of the low queue when
/// `demote` holds, else to the back of the high queue.
pub fn run_queues(ps: &Vec<Process>, hq: u32, lq: u32, demote: bool) -> (r: Vec<Event>)
    requires
        bursts_positive(ps@),
        ps.len() <= u32_max(),
        hq > 0,
        lq > 0,
    ensures
        q_log(ps@, hq, lq, demote, r@),
{
    let n = ps.len();
    let mut rem: Vec<u32> = Vec::new();
    let mut admitted: Vec<bool> = Vec::new();
    let mut j: usize = 0;
    while j < n
        invariant
            n == ps.len(),
            j <= n,
            rem@ == bursts(ps@).subrange(0, j as int),
            admitted@ == Seq::new(j as nat, |i: int| false),
        decreases n - j,
    {
        rem.push(ps[j].burst_time);
        admitted.push(false);
        assert(rem@ =~= bursts(ps@).subrange(0, j + 1));
        assert(admitted@ =~= Seq::new((j + 1) as nat, |i: int| false));
        j += 1;
    }
    assert(rem@ =~= bursts(ps@));
    let mut high: Vec<usize> = Vec::new();
    let mut low: Vec<usize> = Vec::new();
    let mut time: u64 = 0;
    let mut events: Vec<Event> = Vec::new();
    let ghost mut k: nat = 0;
    proof {
        lemma_total_bound(bursts(ps@));
        let s0 = q_init(ps@);
        assert(s0 == (QueueState { time, rem: rem@, admitted: admitted@, high: high@, low: low@, events: events@ }));
        assert(queues_wf(ps@, s0.rem, s0.admitted, s0.high, s0.low));
    }
    loop
        invariant
            n == ps.len(),
            bursts_positive(ps@),
            n <= u32_max(),
            hq > 0,
            lq > 0,
            q_iter(ps@, hq, lq, demote, k) == (QueueState {
                time,
                rem: rem@,
                admitted: admitted@,
                high: high@,
                low: low@,
                events: events@,
            }),
            q_wf(ps@, q_iter(ps@, hq, lq, demote, k)),
        ensures
            q_iter(ps@, hq, lq, demote, k).events == events@,
            all_done(rem@),
            q_iter(ps@, hq, lq, demote, k).rem == rem@,
        decreases total(rem@),
    {
        let ghost s = q_iter(ps@, hq, lq, demote, k);
        if select(ps, &rem, 0xffff_ffff, Rule::Arrival).is_none() {
            proof {
                lemma_earliest(ps@, rem@);
            }
            break;
        }
        proof {
            lemma_q_ready(ps@, s);
        }
        let ghost s2 = q_ready(ps@, s);
        let start = time;
        enqueue_arrivals(ps, time, &mut admitted, &mut high);
        if high.len() == 0 && low.len() == 0 {
            let e = select(ps, &rem, 0xffff_ffff, Rule::Arrival).unwrap();
            let a = ps[e].arrival_time as u64;
            enqueue_arrivals(ps, a, &mut admitted, &mut high);
            events.push(Event::Idle { time: start, length: a - start });
            time = a;
        }
        assert(s2 == (QueueState {
            time,
            rem: rem@,
            admitted: admitted@,
            high: high@,
            low: low@,
            events: events@,
        }));
        proof {
            lemma_q_dispatch(ps@, hq, lq, demote, s2);
            lemma_clock_bound(ps@);
        }
        let from_high = high.len() > 0;
        let i = if from_high {
            high.remove(0)
        } else {
            low.remove(0)
        };
        let q = if from_high { hq } else { lq };
        let tier = if !demote {
            Tier::Ready
        } else if from_high {
            Tier::High
        } else {
            Tier::Low
        };
        let r = rem[i];
        let run = if r > q { q } else { r };
        let left = r - run;
        let f = time + run as u64;
        let pid = ps[i].pid;
        events.push(Event::Start { time, pid, run, remaining: r, tier });
        rem.set(i, left);
        if left == 0 {
            events.push(Event::Finished { time: f, pid });
        } else if demote {
            low.push(i);
            events.push(Event::Preempted { time: f, pid, remaining: left, tier: Tier::Low });
        } else {
            high.push(i);
            events.push(Event::Preempted { time: f, pid, remaining: left, tier: Tier::Ready });
        }
        time = f;
        proof {
            let s3 = q_dispatch(ps@, hq, lq, demote, s2);
            assert(s2.high.drop_first() =~= s2.high.remove(0));
            assert(s2.low.drop_first() =~= s2.low.remove(0));
            assert(events@ =~= s3.events);
            assert(rem@ =~= s3.rem);
            assert(high@ =~= s3.high);
            assert(low@ =~= s3.low);
            lemma_total_bound(rem@);
            k = k + 1;
        }
    }
    proof {
        assert(q_finished(ps@, hq, lq, demote, k));
    }
    events
}

} // verus!
