//! Deadline-aware task scheduling.
//!
//! The library places duration-bound, deadline-bound tasks on a time line so
//! that every deadline is met whenever the placement strategy can manage it.
//! Two strategies are offered: importance-first, which pulls important tasks
//! toward the present, and urgency-first, which keeps the deadline-driven
//! order while compacting everything toward the present.
//!
//! Time points and time spans are plain `i64` millisecond counts, so the
//! whole engine is arithmetic over integers; callers that work with calendar
//! dates convert at the boundary.
use vstd::prelude::*;

pub mod laws;
pub mod schedule_tree;
pub mod scheduling;

pub use schedule_tree::Entry;
pub use schedule_tree::ScheduleTree;
pub use scheduling::Schedule;
pub use scheduling::ScheduledTask;

verus! {

/// Safety delay in milliseconds: no task may start sooner than one minute
/// after the instant handed to [`Schedule::schedule`], guarding against the
/// race between computing a schedule and acting on it.
pub const SCHEDULE_DELAY: i64 = 60_000;

/// Every time point the engine handles lies in `[-TIME_LIMIT, TIME_LIMIT]`
/// and every duration in `[0, TIME_LIMIT]` (2^60 ms, about 36 million years),
/// which keeps all interval arithmetic far away from `i64` overflow.
pub const TIME_LIMIT: i64 = 0x1000_0000_0000_0000;

/// A task to be placed: identity, text, absolute deadline, how long it takes,
/// and an importance rank (higher means more important).
#[derive(Debug, PartialEq, Eq)]
pub struct Task {
    pub id: u64,
    pub content: String,
    pub deadline: i64,
    pub duration: i64,
    pub importance: i64,
}

impl Clone for Task {
    fn clone(&self) -> (r: Self)
        ensures
            r == *self,
    {
        Task {
            id: self.id,
            content: self.content.clone(),
            deadline: self.deadline,
            duration: self.duration,
            importance: self.importance,
        }
    }
}

/// Which placement policy [`Schedule::schedule`] follows.
#[derive(Clone, Copy, Debug, PartialEq, Eq, Structural)]
pub enum SchedulingStrategy {
    /// Favour important tasks for early slots once all deadlines are safe.
    Importance,
    /// Keep the deadline-driven order and compact toward the present.
    Urgency,
}

/// Why a task set could not be scheduled.
#[derive(Debug)]
pub enum Error {
    /// The task's deadline cannot be honoured; the flag is `true` when the
    /// deadline already lies at or before the (delayed) start instant.
    DeadlineMissed(Task, bool),
    /// No gap before the task's deadline is wide enough, given the other
    /// commitments.
    NotEnoughTime(Task),
    /// An internal invariant was violated. The scheduling entry point is
    /// proved never to return this variant.
    Internal(String),
}

/// Bounds under which a task can be handled without integer overflow.
pub open spec fn valid_task(t: Task) -> bool {
    &&& 0 <= t.duration <= TIME_LIMIT
    &&& -TIME_LIMIT <= t.deadline <= TIME_LIMIT
}

} // verus!
