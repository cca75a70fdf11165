use vstd::prelude::*;
use crate::event::Event;
use crate::nonpreemptive::{np_log, run_nonpreemptive};
use crate::order::{arrival_sorted, lemma_sorted_len, lemma_sorted_positive, sort_by_arrival};
use crate::preemptive::{q_log, run_queues};
use crate::process::{Process, processes_are_valid, u32_max, valid_processes};
use crate::select::Rule;

verus! {

/// Why a simulation was refused before it started.
#[derive(Clone, Copy, Debug, PartialEq, Eq, Structural)]
pub enum SchedError {
    /// A quantum is zero.
    InvalidConfiguration,
    /// A process has a zero burst or a zero pid, or two processes share a pid.
    MalformedProcess,
}

/// First-come-first-served: processes run to completion in ascending order of
/// arrival, list order among equal arrivals, with the clock jumping over idle
/// gaps.
pub fn simulate_fcfs(processes: &Vec<Process>) -> (r: Result<Vec<Event>, SchedError>)
    requires
        processes.len() <= u32_max(),
    ensures
        r is Err <==> !valid_processes(processes@),
        r matches Err(e) ==> e == SchedError::MalformedProcess,
        r matches Ok(evs) ==> np_log(arrival_sorted(processes@), Rule::Arrival, evs@),
{
    if !processes_are_valid(processes) {
        return Err(SchedError::MalformedProcess);
    }
    let sorted = sort_by_arrival(processes);
    proof {
        lemma_sorted_len(processes@);
        lemma_sorted_positive(processes@);
    }
    Ok(run_nonpreemptive(&sorted, Rule::Arrival))
}

/// Non-preemptive shortest-job-first: at each dispatch the ready process with
/// the smallest burst (list order on ties) runs to completion.
pub fn simulate_sjf(processes: &Vec<Process>) -> (r: Result<Vec<Event>, SchedError>)
    requires
        processes.len() <= u32_max(),
    ensures
        r is Err <==> !valid_processes(processes@),
        r matches Err(e) ==> e == SchedError::MalformedProcess,
        r matches Ok(evs) ==> np_log(processes@, Rule::Burst, evs@),
{
    if !processes_are_valid(processes) {
        return Err(SchedError::MalformedProcess);
    }
    Ok(run_nonpreemptive(processes, Rule::Burst))
}

/// Non-preemptive priority scheduling: at each dispatch the ready process with
/// the smallest priority value (list order on ties) runs to completion.
pub fn simulate_priority(processes: &Vec<Process>) -> (r: Result<Vec<Event>, SchedError>)
    requires
        processes.len() <= u32_max(),
    ensures
        r is Err <==> !valid_processes(processes@),
        r matches Err(e) ==> e == SchedError::MalformedProcess,
        r matches Ok(evs) ==> np_log(processes@, Rule::Priority, evs@),
{
    if !processes_are_valid(processes) {
        return Err(SchedError::MalformedProcess);
    }
    Ok(run_nonpreemptive(processes, Rule::Priority))
}

/// Round robin with a fixed quantum over the processes in arrival order; a
/// preempted process goes to the back of the queue, behind the processes
/// admitted at the start of its slice.
pub fn simulate_round_robin(processes: &Vec<Process>, quantum: u32) -> (r: Result<Vec<Event>, SchedError>)
    requires
        processes.len() <= u32_max(),
    ensures
        r matches Err(e) ==> e == (if quantum == 0 {
            SchedError::InvalidConfiguration
        } else {
            SchedError::MalformedProcess
        }),
        r is Err <==> quantum == 0 || !valid_processes(processes@),
        r matches Ok(evs) ==> q_log(arrival_sorted(processes@), quantum, quantum, false, evs@),
{
    if quantum == 0 {
        return Err(SchedError::InvalidConfiguration);
    }
    if !processes_are_valid(processes) {
        return Err(SchedError::MalformedProcess);
    }
    let sorted = sort_by_arrival(processes);
    proof {
        lemma_sorted_len(processes@);
        lemma_sorted_positive(processes@);
    }
    Ok(run_queues(&sorted, quantum, quantum, false))
}

/// Two-level feedback queue over the processes in arrival order: arrivals
/// enter the high queue and run for up to `quantum_high`; a process that does
/// not finish in its slice is demoted to the back of the low queue for good,
/// where it runs for up to `quantum_low` whenever the high queue is empty.
pub fn simulate_mlfq(processes: &Vec<Process>, quantum_high: u32, quantum_low: u32) -> (r: Result<
    Vec<Event>,
    SchedError,
>)
    requires
        processes.len() <= u32_max(),
    ensures
        r matches Err(e) ==> e == (if quantum_high == 0 || quantum_low == 0 {
            SchedError::InvalidConfiguration
        } else {
            SchedError::MalformedProcess
        }),
        r is Err <==> quantum_high == 0 || quantum_low == 0 || !valid_processes(processes@),
        r matches Ok(evs) ==> q_log(arrival_sorted(processes@), quantum_high, quantum_low, true, evs@),
{
    if quantum_high == 0 || quantum_low == 0 {
        return Err(SchedError::InvalidConfiguration);
    }
    if !processes_are_valid(processes) {
        return Err(SchedError::MalformedProcess);
    }
    let sorted = sort_by_arrival(processes);
    proof {
        lemma_sorted_len(processes@);
        lemma_sorted_positive(processes@);
    }
    Ok(run_queues(&sorted, quantum_high, quantum_low, true))
}

} // verus!
