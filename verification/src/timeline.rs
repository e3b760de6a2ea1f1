//! The timeline: what occupied the CPU, span by span.

use vstd::prelude::*;
use crate::model::IntervalModel;

verus! {

/// What occupies the CPU during an interval.
#[derive(Clone, Copy, Debug, PartialEq, Eq, Structural)]
pub enum IntervalKind {
    /// The process with this identifier runs.
    Execution { process: usize },
    /// The CPU changes hands and runs no process.
    ContextSwitch,
}

/// A span of simulated time, from `start` to `end`.
#[derive(Clone, Copy, Debug, PartialEq, Eq, Structural)]
pub struct TimelineInterval {
    pub start: u64,
    pub end: u64,
    pub kind: IntervalKind,
}

impl View for TimelineInterval {
    type V = IntervalModel;

    open spec fn view(&self) -> IntervalModel {
        IntervalModel {
            start: self.start as nat,
            end: self.end as nat,
            process: match self.kind {
                IntervalKind::Execution { process } => Some(process as int),
                IntervalKind::ContextSwitch => None,
            },
        }
    }
}

/// The intervals of `v` as the model sees them.
pub open spec fn intervals(v: Seq<TimelineInterval>) -> Seq<IntervalModel> {
    Seq::new(v.len(), |k: int| v[k]@)
}

} // verus!
