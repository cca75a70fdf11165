use vstd::prelude::*;
use crate::process::{Process, u32_max};

verus! {

/// The key by which a non-preemptive policy chooses among ready processes.
#[derive(Clone, Copy, Debug, PartialEq, Eq, Structural)]
pub enum Rule {
    /// Earliest arrival first.
    Arrival,
    /// Shortest burst first.
    Burst,
    /// Smallest priority value first.
    Priority,
}

pub open spec fn key(p: Process, rule: Rule) -> u32 {
    match rule {
        Rule::Arrival => p.arrival_time,
        Rule::Burst => p.burst_time,
        Rule::Priority => p.priority,
    }
}

/// Process `i` has arrived by time `t` and has work left.
pub open spec fn ready(ps: Seq<Process>, rem: Seq<u32>, t: int, i: int) -> bool {
    ps[i].arrival_time <= t && rem[i] > 0
}

/// Among the ready processes of index below `k`, the one with the smallest
/// key, the lowest index among equal keys; -1 when none is ready.
pub open spec fn best(ps: Seq<Process>, rem: Seq<u32>, t: int, rule: Rule, k: int) -> int
    decreases k,
{
    if k <= 0 {
        -1
    } else {
        let b = best(ps, rem, t, rule, k - 1);
        if ready(ps, rem, t, k - 1) && (b < 0 || key(ps[k - 1], rule) < key(ps[b], rule)) {
            k - 1
        } else {
            b
        }
    }
}

/// The unfinished process that arrives first (lowest index on ties); -1 when
/// every process is done.
pub open spec fn earliest(ps: Seq<Process>, rem: Seq<u32>) -> int {
    best(ps, rem, u32_max(), Rule::Arrival, ps.len() as int)
}

/// `best` is ready, has the least key over the ready set and the lowest index
/// among those with that key; it is -1 exactly when nothing is ready.
pub proof fn lemma_best(ps: Seq<Process>, rem: Seq<u32>, t: int, rule: Rule, k: int)
    requires
        0 <= k <= ps.len(),
        rem.len() == ps.len(),
    ensures
        ({
            let b = best(ps, rem, t, rule, k);
            &&& -1 <= b < k
            &&& b < 0 <==> forall|j: int| 0 <= j < k ==> !#[trigger] ready(ps, rem, t, j)
            &&& b >= 0 ==> ready(ps, rem, t, b)
            &&& b >= 0 ==> forall|j: int|
                0 <= j < k && #[trigger] ready(ps, rem, t, j) ==> key(ps[b], rule) <= key(ps[j], rule)
            &&& b >= 0 ==> forall|j: int|
                0 <= j < b && #[trigger] ready(ps, rem, t, j) ==> key(ps[b], rule) < key(ps[j], rule)
        }),
    decreases k,
{
    if k > 0 {
        lemma_best(ps, rem, t, rule, k - 1);
    }
}

/// Every unfinished process arrives no earlier than `earliest`.
pub proof fn lemma_earliest(ps: Seq<Process>, rem: Seq<u32>)
    requires
        rem.len() == ps.len(),
    ensures
        ({
            let e = earliest(ps, rem);
            &&& -1 <= e < ps.len()
            &&& e < 0 <==> forall|j: int| 0 <= j < ps.len() ==> rem[j] == 0
            &&& e >= 0 ==> rem[e] > 0
            &&& e >= 0 ==> forall|j: int|
                0 <= j < ps.len() && rem[j] > 0 ==> ps[e].arrival_time <= ps[j].arrival_time
        }),
{
    lemma_best(ps, rem, u32_max(), Rule::Arrival, ps.len() as int);
    let e = earliest(ps, rem);
    assert forall|j: int| 0 <= j < ps.len() implies (rem[j] > 0 <==> #[trigger] ready(ps, rem, u32_max(), j)) by {}
    if e < 0 {
        assert forall|j: int| 0 <= j < ps.len() implies rem[j] == 0 by {
            assert(!ready(ps, rem, u32_max(), j));
        }
    } else {
        assert forall|j: int| 0 <= j < ps.len() && rem[j] > 0 implies ps[e].arrival_time <= ps[j].arrival_time by {
            assert(ready(ps, rem, u32_max(), j));
        }
    }
}

/// The selector: the ready process of least key at time `t`, if any.
pub fn select(ps: &Vec<Process>, rem: &Vec<u32>, t: u64, rule: Rule) -> (r: Option<usize>)
    requires
        rem.len() == ps.len(),
    ensures
        r is None <==> best(ps@, rem@, t as int, rule, ps.len() as int) < 0,
        r matches Some(i) ==> i < ps.len(),
        r matches Some(i) ==> i == best(ps@, rem@, t as int, rule, ps.len() as int),
        r matches Some(i) ==> ready(ps@, rem@, t as int, i as int),
        r matches Some(i) ==> forall|j: int|
            0 <= j < ps.len() && #[trigger] ready(ps@, rem@, t as int, j)
                ==> key(ps@[i as int], rule) <= key(ps@[j], rule),
        r is None ==> forall|j: int| 0 <= j < ps.len() ==> !#[trigger] ready(ps@, rem@, t as int, j),
{
    let n = ps.len();
    let mut b: Option<usize> = None;
    let mut bk: u32 = 0;
    let mut i: usize = 0;
    while i < n
        invariant
            n == ps.len(),
            rem.len() == n,
            i <= n,
            b is None <==> best(ps@, rem@, t as int, rule, i as int) < 0,
            b matches Some(x) ==> x == best(ps@, rem@, t as int, rule, i as int) && bk == key(ps@[x as int], rule),
        decreases n - i,
    {
        proof {
            lemma_best(ps@, rem@, t as int, rule, i as int);
        }
        let p = ps[i];
        let k = match rule {
            Rule::Arrival => p.arrival_time,
            Rule::Burst => p.burst_time,
            Rule::Priority => p.priority,
        };
        if p.arrival_time as u64 <= t && rem[i] > 0 {
            match b {
                None => {
                    b = Some(i);
                    bk = k;
                },
                Some(_) => {
                    if k < bk {
                        b = Some(i);
                        bk = k;
                    }
                },
            }
        }
        i += 1;
    }
    proof {
        lemma_best(ps@, rem@, t as int, rule, n as int);
    }
    b
}

/// The sum of a sequence of counters.
pub open spec fn total(s: Seq<u32>) -> int
    decreases s.len(),
{
    if s.len() == 0 {
        0
    } else {
        total(s.drop_last()) + s.last()
    }
}

pub proof fn lemma_total_bound(s: Seq<u32>)
    ensures
        0 <= total(s) <= s.len() * u32_max(),
    decreases s.len(),
{
    if s.len() > 0 {
        lemma_total_bound(s.drop_last());
    }
}

pub proof fn lemma_total_update(s: Seq<u32>, i: int, v: u32)
    requires
        0 <= i < s.len(),
    ensures
        total(s.update(i, v)) == total(s) - s[i] + v,
    decreases s.len(),
{
    if i < s.len() - 1 {
        lemma_total_update(s.drop_last(), i, v);
        assert(s.update(i, v).drop_last() =~= s.drop_last().update(i, v));
    } else {
        assert(s.update(i, v).drop_last() =~= s.drop_last());
    }
}

/// Each counter is at most the sum.
pub proof fn lemma_total_ge(s: Seq<u32>, i: int)
    requires
        0 <= i < s.len(),
    ensures
        s[i] <= total(s),
    decreases s.len(),
{
    lemma_total_bound(s);
    if i < s.len() - 1 {
        lemma_total_ge(s.drop_last(), i);
        lemma_total_bound(s.drop_last());
    } else {
        lemma_total_bound(s.drop_last());
    }
}

} // verus!
