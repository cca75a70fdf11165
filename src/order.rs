use vstd::prelude::*;
use crate::process::{Process, bursts_positive, valid_processes};

verus! {

/// The first index at or after `j` whose arrival is later than `a`.
pub open spec fn first_after(s: Seq<Process>, a: u32, j: int) -> int
    decreases s.len() - j,
{
    if j >= s.len() {
        s.len() as int
    } else if s[j].arrival_time > a {
        j
    } else {
        first_after(s, a, j + 1)
    }
}

/// Inserts `p` after every element that arrives no later than it.
pub open spec fn insert_by_arrival(s: Seq<Process>, p: Process) -> Seq<Process> {
    s.insert(first_after(s, p.arrival_time, 0), p)
}

/// The processes in ascending order of arrival, keeping the list order among
/// equal arrival times (a stable sort).
pub open spec fn arrival_sorted(s: Seq<Process>) -> Seq<Process>
    decreases s.len(),
{
    if s.len() == 0 {
        s
    } else {
        insert_by_arrival(arrival_sorted(s.drop_last()), s.last())
    }
}

proof fn lemma_first_after_range(s: Seq<Process>, a: u32, j: int)
    requires
        0 <= j <= s.len(),
    ensures
        j <= first_after(s, a, j) <= s.len(),
    decreases s.len() - j,
{
    if j < s.len() && s[j].arrival_time <= a {
        lemma_first_after_range(s, a, j + 1);
    }
}

pub proof fn lemma_sorted_len(s: Seq<Process>)
    ensures
        arrival_sorted(s).len() == s.len(),
    decreases s.len(),
{
    if s.len() > 0 {
        lemma_sorted_len(s.drop_last());
        lemma_first_after_range(arrival_sorted(s.drop_last()), s.last().arrival_time, 0);
    }
}

/// A copy of the list sorted by arrival time, stable among equal arrivals.
pub fn sort_by_arrival(ps: &Vec<Process>) -> (r: Vec<Process>)
    ensures
        r@ == arrival_sorted(ps@),
{
    let n = ps.len();
    let mut out: Vec<Process> = Vec::new();
    let mut i: usize = 0;
    while i < n
        invariant
            n == ps.len(),
            i <= n,
            out@ == arrival_sorted(ps@.subrange(0, i as int)),
        decreases n - i,
    {
        let p = ps[i];
        proof {
            lemma_sorted_len(ps@.subrange(0, i as int));
        }
        let mut j: usize = 0;
        while j < out.len() && out[j].arrival_time <= p.arrival_time
            invariant
                j <= out.len(),
                first_after(out@, p.arrival_time, 0) == first_after(out@, p.arrival_time, j as int),
            decreases out.len() - j,
        {
            j += 1;
        }
        out.insert(j, p);
        assert(ps@.subrange(0, i + 1).drop_last() =~= ps@.subrange(0, i as int));
        i += 1;
    }
    assert(ps@.subrange(0, n as int) =~= ps@);
    out
}

/// Sorting keeps every burst positive.
pub proof fn lemma_sorted_positive(s: Seq<Process>)
    requires
        bursts_positive(s),
    ensures
        bursts_positive(arrival_sorted(s)),
    decreases s.len(),
{
    if s.len() > 0 {
        let s0 = s.drop_last();
        assert(bursts_positive(s0)) by {
            assert forall|i: int| 0 <= i < s0.len() implies #[trigger] s0[i].burst_time > 0 by {
                assert(s0[i] == s[i]);
            }
        }
        lemma_sorted_positive(s0);
        let t = arrival_sorted(s0);
        lemma_first_after_range(t, s.last().arrival_time, 0);
        let pos = first_after(t, s.last().arrival_time, 0);
        let u = t.insert(pos, s.last());
        assert forall|i: int| 0 <= i < u.len() implies #[trigger] u[i].burst_time > 0 by {
            if i < pos {
                assert(u[i] == t[i]);
            } else if i > pos {
                assert(u[i] == t[i - 1]);
            }
        }
    }
}

/// Arrival times never decrease along `s`.
pub open spec fn by_arrival(s: Seq<Process>) -> bool {
    forall|i: int, j: int| 0 <= i <= j < s.len() ==> #[trigger] s[i].arrival_time <= #[trigger] s[j].arrival_time
}

/// The processes of `s` that arrive at `a`, in list order.
pub open spec fn arrivals_at(s: Seq<Process>, a: u32) -> Seq<Process>
    decreases s.len(),
{
    if s.len() == 0 {
        s
    } else if s.last().arrival_time == a {
        arrivals_at(s.drop_last(), a).push(s.last())
    } else {
        arrivals_at(s.drop_last(), a)
    }
}

proof fn lemma_first_after_props(s: Seq<Process>, a: u32, j: int)
    requires
        0 <= j <= s.len(),
    ensures
        forall|x: int| j <= x < first_after(s, a, j) ==> s[x].arrival_time <= a,
        first_after(s, a, j) < s.len() ==> s[first_after(s, a, j)].arrival_time > a,
    decreases s.len() - j,
{
    if j < s.len() && s[j].arrival_time <= a {
        lemma_first_after_props(s, a, j + 1);
    }
}

proof fn lemma_arrivals_at_concat(x: Seq<Process>, y: Seq<Process>, a: u32)
    ensures
        arrivals_at(x + y, a) == arrivals_at(x, a) + arrivals_at(y, a),
    decreases y.len(),
{
    if y.len() == 0 {
        assert(x + y =~= x);
        assert(arrivals_at(x, a) + arrivals_at(y, a) =~= arrivals_at(x, a));
    } else {
        assert((x + y).drop_last() =~= x + y.drop_last());
        lemma_arrivals_at_concat(x, y.drop_last(), a);
        if y.last().arrival_time == a {
            assert(arrivals_at(x, a) + arrivals_at(y.drop_last(), a).push(y.last()) =~= (arrivals_at(x, a)
                + arrivals_at(y.drop_last(), a)).push(y.last()));
        }
    }
}

proof fn lemma_arrivals_at_none(y: Seq<Process>, a: u32)
    requires
        forall|x: int| 0 <= x < y.len() ==> #[trigger] y[x].arrival_time != a,
    ensures
        arrivals_at(y, a) == Seq::<Process>::empty(),
    decreases y.len(),
{
    if y.len() > 0 {
        lemma_arrivals_at_none(y.drop_last(), a);
    }
}

proof fn lemma_arrivals_at_nonempty(s: Seq<Process>, a: u32)
    ensures
        arrivals_at(s, a).len() > 0 <==> exists|x: int| 0 <= x < s.len() && #[trigger] s[x].arrival_time == a,
    decreases s.len(),
{
    if s.len() > 0 {
        lemma_arrivals_at_nonempty(s.drop_last(), a);
        if exists|x: int| 0 <= x < s.len() && #[trigger] s[x].arrival_time == a {
            let x = choose|x: int| 0 <= x < s.len() && #[trigger] s[x].arrival_time == a;
            if x < s.len() - 1 {
                assert(s.drop_last()[x].arrival_time == a);
            }
        }
        if exists|x: int| 0 <= x < s.len() - 1 && #[trigger] s.drop_last()[x].arrival_time == a {
            let x = choose|x: int| 0 <= x < s.len() - 1 && #[trigger] s.drop_last()[x].arrival_time == a;
            assert(s[x].arrival_time == a);
        }
    }
}

/// Sorting keeps the arrival classes and yields a list ordered by arrival.
pub proof fn lemma_sorted_classes(s: Seq<Process>)
    ensures
        by_arrival(arrival_sorted(s)),
        forall|a: u32| #[trigger] arrivals_at(arrival_sorted(s), a) == arrivals_at(s, a),
    decreases s.len(),
{
    if s.len() > 0 {
        let s0 = s.drop_last();
        let p = s.last();
        lemma_sorted_classes(s0);
        let t = arrival_sorted(s0);
        let pos = first_after(t, p.arrival_time, 0);
        lemma_first_after_range(t, p.arrival_time, 0);
        lemma_first_after_props(t, p.arrival_time, 0);
        let x = t.subrange(0, pos);
        let y = t.subrange(pos, t.len() as int);
        let u = t.insert(pos, p);
        assert(t =~= x + y);
        assert(u =~= x + seq![p] + y);
        assert forall|j: int| 0 <= j < y.len() implies #[trigger] y[j].arrival_time > p.arrival_time by {
            assert(t[pos].arrival_time <= t[pos + j].arrival_time);
        }
        assert forall|i: int, j: int| 0 <= i <= j < u.len() implies #[trigger] u[i].arrival_time
            <= #[trigger] u[j].arrival_time by {
            if j < pos {
            } else if j == pos {
            } else if i < pos {
                assert(u[j] == y[j - pos - 1]);
            } else if i == pos {
                assert(u[j] == y[j - pos - 1]);
            } else {
                assert(t[i - 1].arrival_time <= t[j - 1].arrival_time);
            }
        }
        assert forall|a: u32| #[trigger] arrivals_at(u, a) == arrivals_at(s, a) by {
            lemma_arrivals_at_concat(x + seq![p], y, a);
            lemma_arrivals_at_concat(x, seq![p], a);
            lemma_arrivals_at_concat(x, y, a);
            let e = Seq::<Process>::empty();
            assert(seq![p].drop_last() =~= e);
            assert(arrivals_at(e, a) == e);
            assert(seq![p].last() == p);
            if a == p.arrival_time {
                lemma_arrivals_at_none(y, a);
                assert(arrivals_at(seq![p], a) =~= seq![p]);
                assert(arrivals_at(s, a) == arrivals_at(s0, a).push(p));
                assert(arrivals_at(x, a) + seq![p] + Seq::<Process>::empty() =~= (arrivals_at(x, a)
                    + Seq::<Process>::empty()).push(p));
            } else {
                assert(arrivals_at(seq![p], a) =~= Seq::<Process>::empty());
                assert(arrivals_at(x, a) + Seq::<Process>::empty() =~= arrivals_at(x, a));
            }
        }
    }
}

/// Two lists ordered by arrival with the same arrival classes are equal.
pub proof fn lemma_classes_determine(t1: Seq<Process>, t2: Seq<Process>)
    requires
        by_arrival(t1),
        by_arrival(t2),
        forall|a: u32| #[trigger] arrivals_at(t1, a) == arrivals_at(t2, a),
    ensures
        t1 == t2,
    decreases t1.len() + t2.len(),
{
    if t1.len() == 0 && t2.len() == 0 {
        assert(t1 =~= t2);
    } else if t1.len() == 0 {
        let a = t2.last().arrival_time;
        assert(arrivals_at(t2, a).len() > 0);
        lemma_arrivals_at_nonempty(t1, a);
    } else if t2.len() == 0 {
        let a = t1.last().arrival_time;
        assert(arrivals_at(t1, a).len() > 0);
        lemma_arrivals_at_nonempty(t2, a);
    } else {
        let a1 = t1.last().arrival_time;
        let a2 = t2.last().arrival_time;
        lemma_arrivals_at_nonempty(t1, a2);
        lemma_arrivals_at_nonempty(t2, a1);
        assert(arrivals_at(t1, a1).len() > 0);
        assert(arrivals_at(t2, a2).len() > 0);
        let x2 = choose|x: int| 0 <= x < t1.len() && #[trigger] t1[x].arrival_time == a2;
        let x1 = choose|x: int| 0 <= x < t2.len() && #[trigger] t2[x].arrival_time == a1;
        assert(t1[x2].arrival_time <= t1[t1.len() - 1].arrival_time);
        assert(t2[x1].arrival_time <= t2[t2.len() - 1].arrival_time);
        assert(a1 == a2);
        assert(t1.last() == arrivals_at(t1, a1).last());
        assert(t2.last() == arrivals_at(t2, a1).last());
        let d1 = t1.drop_last();
        let d2 = t2.drop_last();
        assert forall|a: u32| #[trigger] arrivals_at(d1, a) == arrivals_at(d2, a) by {
            assert(arrivals_at(t1, a) == arrivals_at(t2, a));
            if a == a1 {
                assert(arrivals_at(d1, a) =~= arrivals_at(t1, a).drop_last());
                assert(arrivals_at(d2, a) =~= arrivals_at(t2, a).drop_last());
            }
        }
        lemma_classes_determine(d1, d2);
        assert(t1 =~= d1.push(t1.last()));
        assert(t2 =~= d2.push(t2.last()));
    }
}

/// Each element of the sorted list comes from the input, and each element of
/// the input is in the sorted list.
pub proof fn lemma_sorted_members(s: Seq<Process>)
    ensures
        arrival_sorted(s).len() == s.len(),
        forall|j: int| 0 <= j < s.len() ==> exists|i: int| 0 <= i < s.len() && #[trigger] arrival_sorted(s)[j] == s[i],
        forall|i: int| 0 <= i < s.len() ==> exists|j: int| 0 <= j < s.len() && arrival_sorted(s)[j] == #[trigger] s[i],
    decreases s.len(),
{
    lemma_sorted_len(s);
    if s.len() > 0 {
        let s0 = s.drop_last();
        let p = s.last();
        lemma_sorted_members(s0);
        let t = arrival_sorted(s0);
        let pos = first_after(t, p.arrival_time, 0);
        lemma_first_after_range(t, p.arrival_time, 0);
        let u = t.insert(pos, p);
        assert forall|j: int| 0 <= j < s.len() implies exists|i: int| 0 <= i < s.len() && #[trigger] u[j] == s[i] by {
            if j < pos {
                let i = choose|i: int| 0 <= i < s0.len() && #[trigger] t[j] == s0[i];
                assert(u[j] == s[i]);
            } else if j == pos {
                assert(u[j] == s[s.len() - 1]);
            } else {
                let i = choose|i: int| 0 <= i < s0.len() && #[trigger] t[j - 1] == s0[i];
                assert(u[j] == s[i]);
            }
        }
        assert forall|i: int| 0 <= i < s.len() implies exists|j: int| 0 <= j < s.len() && u[j] == #[trigger] s[i] by {
            if i == s.len() - 1 {
                assert(u[pos] == s[i]);
            } else {
                assert(s0[i] == s[i]);
                let j = choose|j: int| 0 <= j < s0.len() && t[j] == #[trigger] s0[i];
                if j < pos {
                    assert(u[j] == s[i]);
                } else {
                    assert(u[j + 1] == s[i]);
                }
            }
        }
    }
}

proof fn lemma_prefix_distinct(s: Seq<Process>)
    requires
        s.len() > 0,
        pids_distinct(s),
    ensures
        pids_distinct(s.drop_last()),
        forall|i: int| 0 <= i < s.len() - 1 ==> #[trigger] s.drop_last()[i].pid != s.last().pid,
{
    let s0 = s.drop_last();
    assert forall|i: int, j: int| 0 <= i < s0.len() && 0 <= j < s0.len() && i != j implies #[trigger] s0[i].pid
        != #[trigger] s0[j].pid by {
        assert(s0[i] == s[i] && s0[j] == s[j]);
    }
    assert forall|i: int| 0 <= i < s.len() - 1 implies #[trigger] s0[i].pid != s.last().pid by {
        assert(s0[i] == s[i]);
    }
}

proof fn lemma_sorted_avoids(s: Seq<Process>, pid: usize)
    requires
        forall|i: int| 0 <= i < s.len() ==> #[trigger] s[i].pid != pid,
    ensures
        forall|j: int| 0 <= j < arrival_sorted(s).len() ==> #[trigger] arrival_sorted(s)[j].pid != pid,
{
    lemma_sorted_members(s);
    assert forall|j: int| 0 <= j < arrival_sorted(s).len() implies #[trigger] arrival_sorted(s)[j].pid != pid by {
        let i = choose|i: int| 0 <= i < s.len() && #[trigger] arrival_sorted(s)[j] == s[i];
    }
}

/// Sorting keeps pids unique.
proof fn lemma_sorted_distinct(s: Seq<Process>)
    requires
        pids_distinct(s),
    ensures
        pids_distinct(arrival_sorted(s)),
    decreases s.len(),
{
    if s.len() > 0 {
        let s0 = s.drop_last();
        let p = s.last();
        lemma_prefix_distinct(s);
        lemma_sorted_distinct(s0);
        lemma_sorted_avoids(s0, p.pid);
        let t = arrival_sorted(s0);
        lemma_first_after_range(t, p.arrival_time, 0);
        lemma_insert_distinct(t, first_after(t, p.arrival_time, 0), p);
    }
}

/// Sorting keeps every process well formed and every pid unique.
pub proof fn lemma_sorted_valid(s: Seq<Process>)
    requires
        valid_processes(s),
    ensures
        valid_processes(arrival_sorted(s)),
{
    lemma_sorted_members(s);
    let u = arrival_sorted(s);
    assert forall|i: int| 0 <= i < u.len() implies #[trigger] crate::process::process_ok(u[i]) by {
        let k = choose|k: int| 0 <= k < s.len() && #[trigger] u[i] == s[k];
    }
    assert(pids_distinct(s));
    lemma_sorted_distinct(s);
    assert(pids_distinct(u));
}

pub open spec fn pids_distinct(t: Seq<Process>) -> bool {
    forall|i: int, j: int| 0 <= i < t.len() && 0 <= j < t.len() && i != j ==> #[trigger] t[i].pid != #[trigger] t[j].pid
}

proof fn lemma_insert_distinct(t: Seq<Process>, pos: int, p: Process)
    requires
        0 <= pos <= t.len(),
        pids_distinct(t),
        forall|j: int| 0 <= j < t.len() ==> #[trigger] t[j].pid != p.pid,
    ensures
        pids_distinct(t.insert(pos, p)),
{
    let u = t.insert(pos, p);
    assert forall|i: int, j: int| 0 <= i < u.len() && 0 <= j < u.len() && i != j implies #[trigger] u[i].pid
        != #[trigger] u[j].pid by {
        let ti = if i < pos { i } else { i - 1 };
        let tj = if j < pos { j } else { j - 1 };
        if i != pos && j != pos {
            assert(u[i] == t[ti] && u[j] == t[tj]);
        } else if i == pos {
            assert(u[j] == t[tj]);
        } else {
            assert(u[i] == t[ti]);
        }
    }
}

} // verus!
