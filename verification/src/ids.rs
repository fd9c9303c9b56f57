use vstd::prelude::*;

verus! {

/// Identifies a host-side action emitted by `Op::Action`.
#[derive(Clone, Copy, Debug, PartialEq, Eq, Structural, Hash, PartialOrd, Ord, Default)]
pub struct ActionId(pub u16);

/// Identifies a host call emitted by `Op::Call`.
#[derive(Clone, Copy, Debug, PartialEq, Eq, Structural, Hash, PartialOrd, Ord, Default)]
pub struct HostCallId(pub u16);

/// Identifies a "mind": the host decides which minds may currently run tasks.
#[derive(Clone, Copy, Debug, PartialEq, Eq, Structural, Hash, PartialOrd, Ord, Default)]
pub struct MindId(pub u16);

/// Identifies a host predicate queried through `Host::query_ready`.
#[derive(Clone, Copy, Debug, PartialEq, Eq, Structural, Hash, PartialOrd, Ord, Default)]
pub struct PredicateId(pub u16);

/// Identifies a program in a catalog.
#[derive(Clone, Copy, Debug, PartialEq, Eq, Structural, Hash, PartialOrd, Ord, Default)]
pub struct ProgramId(pub u16);

/// Identifies a host signal.
#[derive(Clone, Copy, Debug, PartialEq, Eq, Structural, Hash, PartialOrd, Ord, Default)]
pub struct SignalId(pub u16);

/// Identifies a task; ids are handed out in increasing order starting at 1.
#[derive(Clone, Copy, Debug, PartialEq, Eq, Structural, Hash, PartialOrd, Ord, Default)]
pub struct TaskId(pub u32);

} // verus!
