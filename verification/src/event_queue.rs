//! The operations that build the event graph of a simulation.
//!
//! The graph itself is run elsewhere, over the network model. What is decided
//! here is which events it holds, in which order they are added, and what each
//! of them waits for. An event is named by the position of the operation that
//! adds it.

use crate::cuda_call::{CudaCall, HostId};
use crate::torch_call::TorchCall;
use vstd::prelude::*;

verus! {

/// The name of an event: the position of the operation that adds it.
pub type EventId = usize;

/// The process on whose GPU a computation runs.
#[derive(Debug, PartialEq, Eq, Hash)]
pub struct NodeId(pub HostId);

/// The call that a computation stands for.
#[derive(Debug, PartialEq, Eq, Hash)]
pub enum ComputeMeta {
    Torch(TorchCall),
    Cuda(CudaCall),
}

/// The call that a transfer stands for.
pub type CommMeta = CudaCall;

/// A transfer of some bytes from one machine to another.
#[derive(Debug, PartialEq, Eq, Hash)]
pub struct Flow {
    pub bytes: usize,
    pub src: String,
    pub dst: String,
}

/// What an event does while it lasts. An event without one is a point in time.
#[derive(Debug, PartialEq, Eq, Hash)]
pub enum Action {
    /// A computation of some microseconds.
    Computation(NodeId, i64, ComputeMeta),
    /// A transfer, which lasts as long as the network model says.
    Communication(Flow, CommMeta),
}

/// One operation on the event graph.
#[derive(Debug, PartialEq, Eq, Hash)]
pub enum QueueOp {
    /// Adds an event that starts at `time` at the earliest, after the events it
    /// depends on. A dependency on `None` holds the event back until it is removed.
    Add { depends_on: Vec<Option<EventId>>, action: Option<Action>, time: i64 },
    /// Lets an event wait for one more event.
    AddDependency { event: EventId, on: Option<EventId> },
    /// Removes the dependency on `None` of an event.
    RemoveNoneDependency { event: EventId },
}

/// What a [`QueueOp`] stands for.
#[verifier::ext_equal]
pub enum OpView {
    Add { depends_on: Seq<Option<EventId>>, action: Option<Action>, time: i64 },
    AddDependency { event: EventId, on: Option<EventId> },
    RemoveNoneDependency { event: EventId },
}

impl View for QueueOp {
    type V = OpView;

    open spec fn view(&self) -> OpView {
        match *self {
            QueueOp::Add { depends_on, action, time } => OpView::Add {
                depends_on: depends_on@,
                action,
                time,
            },
            QueueOp::AddDependency { event, on } => OpView::AddDependency { event, on },
            QueueOp::RemoveNoneDependency { event } => OpView::RemoveNoneDependency { event },
        }
    }
}

/// The addition of an event that only marks a point in time.
pub open spec fn point(depends_on: Seq<Option<EventId>>, time: i64) -> OpView {
    OpView::Add { depends_on, action: None, time }
}

/// One step of the run of an event graph.
#[derive(Clone, Copy, Debug, PartialEq, Eq, Structural)]
pub enum QueueStep {
    /// There is nothing left to run.
    EmptyQueue,
    /// An event has started at a time.
    EventStarted(EventId, i64),
    /// An event has ended at a time.
    EventEnded(EventId, i64),
    /// A point has been reached at a time.
    ReachedPoint(EventId, i64),
}

/// The operations issued so far.
pub struct EventQueue {
    ops: Vec<QueueOp>,
}

impl View for EventQueue {
    type V = Seq<OpView>;

    closed spec fn view(&self) -> Seq<OpView> {
        self.ops@.map_values(|op: QueueOp| op@)
    }
}

impl EventQueue {
    /// A queue with no operation.
    pub fn new() -> (q: EventQueue)
        ensures
            q@ == Seq::<OpView>::empty(),
    {
        let q = EventQueue { ops: Vec::new() };
        assert(q@ =~= Seq::<OpView>::empty());
        q
    }

    /// The number of operations.
    pub fn len(&self) -> (n: usize)
        ensures
            n == self@.len(),
    {
        self.ops.len()
    }

    /// One operation.
    pub fn op(&self, i: usize) -> (op: &QueueOp)
        requires
            i < self@.len(),
        ensures
            op@ == self@[i as int],
    {
        &self.ops[i]
    }

    /// Adds an event and names it.
    pub fn add_action_or_point(
        &mut self,
        depends_on: Vec<Option<EventId>>,
        action: Option<Action>,
        time: i64,
    ) -> (id: EventId)
        ensures
            id == old(self)@.len(),
            final(self)@ == old(self)@.push(
                OpView::Add { depends_on: depends_on@, action, time },
            ),
    {
        let ghost before = self@;
        let id = self.ops.len();
        self.ops.push(QueueOp::Add { depends_on, action, time });
        assert(self@ =~= before.push(OpView::Add { depends_on: depends_on@, action, time }));
        id
    }

    /// Lets an event wait for one more event.
    pub fn add_dependency(&mut self, event: EventId, on: Option<EventId>)
        ensures
            final(self)@ == old(self)@.push(OpView::AddDependency { event, on }),
    {
        let ghost before = self@;
        self.ops.push(QueueOp::AddDependency { event, on });
        assert(self@ =~= before.push(OpView::AddDependency { event, on }));
    }

    /// Lets an event go that a dependency on `None` held back.
    pub fn remove_none_dependency(&mut self, event: EventId)
        ensures
            final(self)@ == old(self)@.push(OpView::RemoveNoneDependency { event }),
    {
        let ghost before = self@;
        self.ops.push(QueueOp::RemoveNoneDependency { event });
        assert(self@ =~= before.push(OpView::RemoveNoneDependency { event }));
    }
}

} // verus!
