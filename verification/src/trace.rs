//! Trace events that the runtime hands to a `TraceSink` while it works.
use vstd::prelude::*;

use crate::ids::{ActionId, MindId, ProgramId, SignalId, TaskId};
use crate::program::HostCall;
use crate::runtime::{Outcome, StepReport, WaitReason};

verus! {

/// One observable step of the runtime.
#[derive(Clone, Copy, Debug, PartialEq, Eq)]
pub enum TraceEvent {
    TickStarted { clock: u64 },
    TickCompleted { report: StepReport },
    SignalQueued { signal: SignalId },
    TaskSpawned { task: TaskId, program_id: ProgramId, parent: Option<TaskId>, scope_root: TaskId },
    TaskWaiting { task: TaskId, reason: WaitReason },
    TaskWoken { task: TaskId, reason: WaitReason },
    ActionEmitted { task: TaskId, action: ActionId },
    CallEmitted { task: TaskId, call: HostCall },
    TaskMindChanged { task: TaskId, from: MindId, to: MindId },
    TaskFinished { task: TaskId, outcome: Outcome },
}

/// `later` holds the events of `earlier`, in the same places, and possibly more after them.
pub open spec fn extends(earlier: Seq<TraceEvent>, later: Seq<TraceEvent>) -> bool {
    &&& earlier.len() <= later.len()
    &&& forall|i: int| 0 <= i < earlier.len() ==> #[trigger] later[i] == earlier[i]
}

/// Receives trace events; implemented by users of the runtime.
pub trait TraceSink {
    /// The events received so far, oldest first. A sink verified with this crate defines it;
    /// the default (nothing recorded) is there for sinks written outside Verus, of which the
    /// trace clauses of the runtime's contracts say nothing checked.
    open spec fn received(&self) -> Seq<TraceEvent> {
        Seq::empty()
    }

    fn on_event(&mut self, event: TraceEvent)
        ensures
            final(self).received() == old(self).received().push(event),
    ;
}


/// A sink that drops every event (used by the untraced entry points); what it received is
/// kept as ghost state only.
pub struct NoopTraceSink {
    received: Ghost<Seq<TraceEvent>>,
}

impl NoopTraceSink {
    pub fn new() -> (sink: Self)
        ensures
            sink.received() == Seq::<TraceEvent>::empty(),
    {
        NoopTraceSink { received: Ghost(Seq::empty()) }
    }
}

impl TraceSink for NoopTraceSink {
    closed spec fn received(&self) -> Seq<TraceEvent> {
        self.received@
    }

    fn on_event(&mut self, event: TraceEvent) {
        self.received = Ghost(self.received@.push(event));
    }
}

} // verus!
