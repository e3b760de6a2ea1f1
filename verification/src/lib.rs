//! Round-robin CPU scheduling of processes that alternate between CPU bursts
//! and I/O waits, simulated on a clock of its own.
//!
//! A workload is a list of process definitions, a time quantum and the cost
//! of a context switch. [`simulation::round_robin`] runs it to the end and
//! hands back the record of each process, the timeline of what held the CPU,
//! and the sums from which the average waiting and turnaround times follow.
//! [`scheduler::Scheduler`] is the same machine, one round at a time.
//!
//! The rules of a round, in order:
//!
//! - Admission. Every waiting process whose moment has come joins the tail
//!   of the ready queue: a process that has arrived, or one whose I/O wait is
//!   over. They join in the order of their moments; of two with the same
//!   moment, one that comes from an I/O wait goes before one that arrives; of
//!   two that are alike in this too, the one with the smaller identifier goes
//!   first.
//! - Idling. If the queue is empty then, the clock jumps to the earliest
//!   moment at which a process becomes ready, and those that are due then are
//!   admitted. The timeline records nothing for the time that is jumped over.
//! - Execution. The head of the queue runs for the rest of its burst or one
//!   quantum, whichever is shorter.
//! - Context switch. Unless this slice was the last of the whole run, a
//!   context switch follows. It is recorded even if it has no length.
//! - Settling. At the moment after the switch, a process whose burst is not
//!   over returns to the tail of the queue, ahead of any process that became
//!   ready while it ran; one whose burst is over starts its next I/O wait, or
//!   has finished.
//!
//! The turnaround time of a process is the time from its arrival to its
//! completion. Its waiting time is what is left of that once its CPU bursts
//! and its I/O waits are taken off: the time it spent in the ready queue or
//! in a context switch.
//!
//! [`model`] states all of this as mathematics, [`laws`] proves what follows
//! from it, and the executable code is proved to compute what the model says.

pub mod chart;
pub mod error;
pub mod laws;
pub mod lemmas;
pub mod model;
pub mod process;
pub mod scheduler;
pub mod simulation;
pub mod timeline;
