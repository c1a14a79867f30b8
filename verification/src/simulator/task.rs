//! What the simulation needs from the event queue before it can go on.

use crate::cuda_call::ResponseId;
use crate::event_queue::{EventId, QueueStep};
use vstd::prelude::*;

verus! {

/// What is done once the queue has been run up to a time.
#[derive(Debug, PartialEq, Eq)]
pub enum Next {
    /// A rank joins a communicator that is being formed.
    InitRank { host: ResponseId, device: i32, rank: i32, nranks: i32, id: [u8; 128] },
    /// A rank takes part in the split of a communicator.
    CommSplit { host: ResponseId, rank: i32, id: [u8; 128], color: i32, key: i32 },
    /// A thread waits for an event.
    EventSync { host: ResponseId, event: EventId },
    /// A thread polls an event.
    EventQuery { host: ResponseId, event: EventId },
    /// A thread polls a stream, which is its last event.
    StreamQuery { host: ResponseId, last_event: Option<EventId> },
}

/// What a simulation is at.
#[derive(Debug, PartialEq, Eq)]
pub enum Task {
    /// Nothing: the next call can be handled.
    Idle,
    /// Runs the queue up to a time, and asks for the time of the next step.
    Peek { until: i64, next: Next },
    /// Runs the queue up to a time, and has the next step taken.
    Advance { until: i64, next: Next },
    /// Asks whether an event has completed.
    Ask { event: EventId, host: ResponseId, curr_time: i64, blocking: bool },
    /// Runs the queue up to an event.
    RunTo { event: EventId },
}

/// What is asked of the queue.
#[derive(Clone, Copy, Debug, PartialEq, Eq, Structural)]
pub enum Request {
    /// Nothing: the next call can be handled.
    Done,
    /// The time of the next step.
    PeekNextTime,
    /// To take the next step.
    Execute,
    /// When an event completed.
    Query(EventId),
}

/// What the queue answers.
#[derive(Clone, Copy, Debug, PartialEq, Eq, Structural)]
pub enum Answer {
    /// The time of the next step, if there is one.
    NextTime(Option<i64>),
    /// The step that was taken.
    Step(QueueStep),
    /// When the event completed, if it did.
    Completed(Option<i64>),
}

impl Task {
    /// What is asked of the queue.
    pub open spec fn asks(self) -> Request {
        match self {
            Task::Idle => Request::Done,
            Task::Peek { .. } => Request::PeekNextTime,
            Task::Advance { .. } => Request::Execute,
            Task::Ask { event, .. } => Request::Query(event),
            Task::RunTo { .. } => Request::Execute,
        }
    }

    /// What is asked of the queue.
    pub fn request(&self) -> (r: Request)
        ensures
            r == self.asks(),
    {
        match self {
            Task::Idle => Request::Done,
            Task::Peek { .. } => Request::PeekNextTime,
            Task::Advance { .. } => Request::Execute,
            Task::Ask { event, .. } => Request::Query(*event),
            Task::RunTo { .. } => Request::Execute,
        }
    }
}

impl Request {
    /// Whether an answer is of the kind that is asked for.
    pub open spec fn takes(self, answer: Answer) -> bool {
        match self {
            Request::Done => false,
            Request::PeekNextTime => answer is NextTime,
            Request::Execute => answer is Step,
            Request::Query(_) => answer is Completed,
        }
    }
}

} // verus!
