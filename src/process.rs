use vstd::prelude::*;

verus! {

/// The largest value of a `u32`, as a mathematical integer.
pub open spec fn u32_max() -> int {
    0xffff_ffff
}

/// A process: identity, arrival, total CPU demand and priority
/// (a lower value is a higher priority).
#[derive(Clone, Copy, Debug, PartialEq, Eq, Structural)]
pub struct Process {
    /// Identifier, positive and unique within a run.
    pub pid: usize,
    /// The process cannot run before this time.
    pub arrival_time: u32,
    /// Total CPU time needed, positive.
    pub burst_time: u32,
    /// Work left as the caller holds it; a simulation keeps its own counters
    /// and starts every process from its full burst.
    pub remaining_time: u32,
    /// Lower value means higher priority.
    pub priority: u32,
}

impl Process {
    /// A fresh process, with all of its work still to do.
    pub fn new(pid: usize, arrival: u32, burst: u32, priority: u32) -> (r: Self)
        ensures
            r == (Process {
                pid,
                arrival_time: arrival,
                burst_time: burst,
                remaining_time: burst,
                priority,
            }),
    {
        Process { pid, arrival_time: arrival, burst_time: burst, remaining_time: burst, priority }
    }
}

/// A single process is well formed: a positive pid and a positive burst.
pub open spec fn process_ok(p: Process) -> bool {
    p.pid > 0 && p.burst_time > 0
}

/// Every process has a positive burst.
pub open spec fn bursts_positive(ps: Seq<Process>) -> bool {
    forall|i: int| 0 <= i < ps.len() ==> #[trigger] ps[i].burst_time > 0
}

/// Every process is well formed and no two share a pid.
pub open spec fn valid_processes(ps: Seq<Process>) -> bool {
    &&& forall|i: int| 0 <= i < ps.len() ==> #[trigger] process_ok(ps[i])
    &&& forall|i: int, j: int|
        0 <= i < ps.len() && 0 <= j < ps.len() && i != j ==> #[trigger] ps[i].pid != #[trigger] ps[j].pid
}

/// Checks the process list: every pid positive and unique, every burst positive.
pub fn processes_are_valid(ps: &Vec<Process>) -> (r: bool)
    ensures
        r == valid_processes(ps@),
        r ==> bursts_positive(ps@),
{
    let n = ps.len();
    let mut i: usize = 0;
    while i < n
        invariant
            n == ps.len(),
            i <= n,
            forall|a: int| 0 <= a < i ==> #[trigger] process_ok(ps@[a]),
            forall|a: int, b: int|
                0 <= a < i && 0 <= b < n && a != b ==> #[trigger] ps@[a].pid != #[trigger] ps@[b].pid,
        decreases n - i,
    {
        if ps[i].pid == 0 || ps[i].burst_time == 0 {
            assert(!process_ok(ps@[i as int]));
            return false;
        }
        let mut j: usize = 0;
        while j < n
            invariant
                n == ps.len(),
                i < n,
                j <= n,
                forall|b: int| 0 <= b < j && b != i ==> ps@[i as int].pid != #[trigger] ps@[b].pid,
            decreases n - j,
        {
            if j != i && ps[j].pid == ps[i].pid {
                assert(ps@[i as int].pid == ps@[j as int].pid);
                return false;
            }
            j += 1;
        }
        assert forall|a: int, b: int|
            0 <= a < i + 1 && 0 <= b < n && a != b implies #[trigger] ps@[a].pid != #[trigger] ps@[b].pid by {
            if a == i {
                assert(ps@[i as int].pid != ps@[b].pid);
            }
        }
        i += 1;
    }
    assert forall|a: int| 0 <= a < n implies #[trigger] ps@[a].burst_time > 0 by {
        assert(process_ok(ps@[a]));
    }
    true
}

/// The fixed sample set used by the interactive simulator.
pub fn get_sample_processes() -> (r: Vec<Process>)
    ensures
        r@ == seq![
            Process::new_spec(1, 0, 5, 2),
            Process::new_spec(2, 1, 3, 1),
            Process::new_spec(3, 2, 8, 3),
            Process::new_spec(4, 3, 6, 2),
        ],
{
    vec![
        Process::new(1, 0, 5, 2),
        Process::new(2, 1, 3, 1),
        Process::new(3, 2, 8, 3),
        Process::new(4, 3, 6, 2),
    ]
}

impl Process {
    /// The process that `new` builds, as a value.
    pub open spec fn new_spec(pid: usize, arrival: u32, burst: u32, priority: u32) -> Process {
        Process { pid, arrival_time: arrival, burst_time: burst, remaining_time: burst, priority }
    }
}

} // verus!
