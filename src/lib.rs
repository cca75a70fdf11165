//! Deterministic simulation of CPU scheduling policies over a fixed set of
//! processes: first-come-first-served, shortest-job-first, priority, round
//! robin and a two-level feedback queue. Each policy turns a list of
//! processes into a timestamped log of scheduling events.

pub mod process;
pub mod event;
pub mod select;
pub mod order;
pub mod nonpreemptive;
pub mod preemptive;
pub mod policies;
pub mod progress;
pub mod laws;
