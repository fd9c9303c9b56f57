pub mod authoring;
pub mod bundle;
pub mod cancellation;
pub mod debug;
pub mod determinism;
pub mod history;
pub mod ids;
pub mod inspect;
pub mod program;
pub mod runtime;
pub mod scope;
pub mod schedule;
pub mod showcase;
pub mod snapshot;
pub mod trace;

pub use authoring::{
    CompileError, OpDocument, OwnedProgramCatalog, ProgramCatalogDocument, ProgramDocument,
};
pub use debug::TraceLog;
pub use ids::{ActionId, HostCallId, MindId, PredicateId, ProgramId, SignalId, TaskId};
pub use program::{BuildError, HostCall, Op, OwnedProgram, Program, ProgramBuilder, ProgramCatalog};
pub use runtime::{Host, HostRequest, Outcome, Runtime, RuntimeError, StepReport, TaskRecord, WaitReason};
pub use snapshot::RuntimeSnapshot;
pub use trace::{TraceEvent, TraceSink};
