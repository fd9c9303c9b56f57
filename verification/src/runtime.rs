//! The fixed-capacity deterministic scheduler.
use vstd::prelude::*;

use crate::cancellation::{
    cancels_exactly, cancels_within, child_target, lemma_cancels_nothing, lemma_cancels_subtree,
    lemma_cancels_trans, lemma_cancels_update, lemma_cancels_within_step, lemma_not_running_spared,
    no_target, pair_target, task_target,
};
use crate::schedule::{
    events_of, host_part, lemma_events_parts, lemma_parts_add, lemma_wake_log_parts, op_log,
    trace_part, wake_log, Effect,
    acted, action_count, asked_seq, busy_rounds, lemma_busy_rounds_extend,
    lemma_executed_ignores_answer, lemma_op_action_count, lemma_ran_on_extend, lemma_round_skip,
    lemma_round_visit, lemma_run_visit_done, lemma_tick_done, lemma_tick_failed, op_requests, ran_on,
    round_upto, run_ends, run_visit, tick_run, took_steps, unit_result, wake_answers, wake_requests,
    wake_visit, woken_state,
};
use crate::ids::{ActionId, MindId, PredicateId, ProgramId, SignalId, TaskId};
use crate::program::{find_program, lemma_find_program_from, HostCall, Op, Program, ProgramCatalog};
use crate::snapshot::{
    free_indicator, free_slot_count, is_running, keeps_history, lemma_slot_sum_positive,
    lemma_slot_sum_update, lex_lt, load, op_len, slot_running, task_weight, wait_refs_after, weight_fn,
    RuntimeSnapshot,
};
use crate::trace::{extends, NoopTraceSink, TraceEvent, TraceSink};

verus! {

/// How a task ended (or that it has not).
#[derive(Clone, Copy, Debug, PartialEq, Eq, Structural)]
pub enum Outcome {
    Running,
    Succeeded,
    Failed,
    Cancelled,
}

/// What a running task waits for before its next op runs.
#[derive(Clone, Copy, Debug, Default, PartialEq, Eq, Structural)]
pub enum WaitReason {
    #[default]
    Ready,
    Ticks { until_tick: u64 },
    Signal(SignalId),
    Predicate(PredicateId),
    SignalOrTicks { signal: SignalId, until_tick: u64 },
    RaceOrTicks { left: TaskId, right: TaskId, until_tick: u64 },
    Timeout { child: TaskId, until_tick: u64 },
    RepeatUntilPredicate { predicate: PredicateId, resume_at_tick: u64 },
    ChildrenAll,
    ChildrenAny,
    Race { left: TaskId, right: TaskId },
}

/// The plain-data state of one task.
#[derive(Clone, Copy, Debug, PartialEq, Eq)]
pub struct TaskRecord {
    pub id: TaskId,
    pub program_id: ProgramId,
    pub mind_id: MindId,
    pub ip: usize,
    pub parent: Option<TaskId>,
    pub scope_root: TaskId,
    pub outcome: Outcome,
    pub wait: WaitReason,
}

/// Summary of one tick.
#[derive(Clone, Copy, Debug, Default, PartialEq, Eq)]
pub struct StepReport {
    pub clock: u64,
    pub actions_emitted: usize,
    pub progress_made: bool,
}

#[derive(Clone, Copy, Debug, PartialEq, Eq)]
pub enum RuntimeError {
    ProgramNotFound(ProgramId),
    CapacityExceeded,
    SignalQueueFull,
}

/// What the runtime asks of the host, in the order it asks: to carry out an action or a
/// call of a task, or to say whether a mind is active or a predicate holds.
#[derive(Clone, Copy, Debug, PartialEq, Eq)]
pub enum HostRequest {
    Action(TaskId, ActionId),
    Call(TaskId, HostCall),
    MindActive(MindId),
    PredicateReady(PredicateId),
}

/// The host: receives actions and calls, answers which minds are active and which
/// predicates hold. Implemented by users of the runtime. Its spec functions are the
/// record of what it was asked and what it answered.
pub trait Host {
    /// The requests the host has received, oldest first. A host verified with this crate
    /// defines it; the default (nothing recorded) is there for hosts written outside Verus,
    /// which meet the method contracts below only by assumption, so that the host clauses of
    /// the runtime's contracts say nothing checked of them.
    open spec fn requests(&self) -> Seq<HostRequest> {
        Seq::empty()
    }

    /// The answers the host has given (to `is_mind_active` and `query_ready`), oldest first
    /// (see `requests` on the default).
    open spec fn answers(&self) -> Seq<bool> {
        Seq::empty()
    }

    /// A property of the host that each of its methods keeps (by default none is claimed).
    open spec fn inv(&self) -> bool {
        true
    }

    /// What stays fixed while the runtime calls the host (by default nothing is claimed).
    open spec fn setting(&self) -> Seq<int> {
        Seq::empty()
    }

    fn on_action(&mut self, task: TaskId, action: ActionId)
        ensures
            final(self).requests() == old(self).requests().push(HostRequest::Action(task, action)),
            final(self).answers() == old(self).answers(),
            old(self).inv() ==> final(self).inv(),
            final(self).setting() == old(self).setting(),
    ;

    fn on_call(&mut self, task: TaskId, call: HostCall)
        ensures
            final(self).requests() == old(self).requests().push(HostRequest::Call(task, call)),
            final(self).answers() == old(self).answers(),
            old(self).inv() ==> final(self).inv(),
            final(self).setting() == old(self).setting(),
    ;

    fn is_mind_active(&mut self, mind: MindId) -> (active: bool)
        ensures
            final(self).requests() == old(self).requests().push(HostRequest::MindActive(mind)),
            final(self).answers() == old(self).answers().push(active),
            old(self).inv() ==> final(self).inv(),
            final(self).setting() == old(self).setting(),
    ;

    fn query_ready(&mut self, predicate: PredicateId) -> (ready: bool)
        ensures
            final(self).requests() == old(self).requests().push(HostRequest::PredicateReady(predicate)),
            final(self).answers() == old(self).answers().push(ready),
            old(self).inv() ==> final(self).inv(),
            final(self).setting() == old(self).setting(),
    ;
}

/// The mind that root tasks start on.
pub open spec fn spec_root_mind() -> MindId {
    MindId(1)
}

pub fn root_mind() -> (m: MindId)
    ensures
        m == spec_root_mind(),
{
    MindId(1)
}

// ---------------------------------------------------------------------------------------------
// Queries over task slots (spec level).

pub open spec fn holds_task(t: Option<TaskRecord>, id: TaskId) -> bool {
    t matches Some(r) && r.id == id
}

/// `k` is the first slot holding the task `id`.
pub open spec fn is_slot_of(tasks: Seq<Option<TaskRecord>>, id: TaskId, k: int) -> bool {
    &&& 0 <= k < tasks.len()
    &&& holds_task(tasks[k], id)
    &&& forall|j: int| 0 <= j < k ==> !holds_task(#[trigger] tasks[j], id)
}

pub open spec fn has_task(tasks: Seq<Option<TaskRecord>>, id: TaskId) -> bool {
    exists|k: int| 0 <= k < tasks.len() && holds_task(#[trigger] tasks[k], id)
}

/// `k` is the first empty slot.
pub open spec fn is_first_free(tasks: Seq<Option<TaskRecord>>, k: int) -> bool {
    &&& 0 <= k < tasks.len()
    &&& tasks[k] is None
    &&& forall|j: int| 0 <= j < k ==> #[trigger] tasks[j] is Some
}

pub open spec fn has_free(tasks: Seq<Option<TaskRecord>>) -> bool {
    exists|k: int| 0 <= k < tasks.len() && #[trigger] tasks[k] is None
}

/// The task `id` is present and running.
pub open spec fn task_running(tasks: Seq<Option<TaskRecord>>, id: TaskId) -> bool {
    exists|k: int| is_slot_of(tasks, id, k) && slot_running(tasks[k])
}

pub open spec fn is_child_of(t: Option<TaskRecord>, parent: TaskId) -> bool {
    t matches Some(r) && r.parent == Some(parent)
}

pub open spec fn has_running_child(tasks: Seq<Option<TaskRecord>>, parent: TaskId) -> bool {
    exists|k: int|
        0 <= k < tasks.len() && is_child_of(#[trigger] tasks[k], parent) && slot_running(tasks[k])
}

pub open spec fn has_finished_child(tasks: Seq<Option<TaskRecord>>, parent: TaskId) -> bool {
    exists|k: int|
        0 <= k < tasks.len() && is_child_of(#[trigger] tasks[k], parent) && !slot_running(
            tasks[k],
        )
}

pub open spec fn signal_queued(pending: Seq<Option<SignalId>>, signal: SignalId) -> bool {
    exists|k: int| 0 <= k < pending.len() && pending[k] == Some(signal)
}

/// `deadline` is `clock + ticks`, saturating.
pub open spec fn deadline(clock: u64, ticks: u32) -> u64 {
    if clock + ticks > u64::MAX {
        u64::MAX
    } else {
        (clock + ticks) as u64
    }
}

/// Whether a task's wait is over, when that does not depend on the host (`None` for a
/// predicate wait, which the host decides).
pub open spec fn wait_over<const N: usize, const S: usize>(
    s: RuntimeSnapshot<N, S>,
    t: TaskRecord,
) -> Option<bool> {
    match t.wait {
        WaitReason::Ready => Some(false),
        WaitReason::Ticks { until_tick } => Some(s.clock >= until_tick),
        WaitReason::Signal(signal) => Some(signal_queued(s.pending_signals@, signal)),
        WaitReason::Predicate(_) => None,
        WaitReason::SignalOrTicks { signal, until_tick } => Some(
            signal_queued(s.pending_signals@, signal) || s.clock >= until_tick,
        ),
        WaitReason::RaceOrTicks { left, right, until_tick } => Some(
            !task_running(s.tasks@, left) || !task_running(s.tasks@, right) || s.clock
                >= until_tick,
        ),
        WaitReason::Timeout { child, until_tick } => Some(
            !task_running(s.tasks@, child) || s.clock >= until_tick,
        ),
        WaitReason::RepeatUntilPredicate { resume_at_tick, .. } => Some(
            s.clock >= resume_at_tick && !has_running_child(s.tasks@, t.id),
        ),
        WaitReason::ChildrenAll => Some(!has_running_child(s.tasks@, t.id)),
        WaitReason::ChildrenAny => Some(
            !has_running_child(s.tasks@, t.id) || has_finished_child(s.tasks@, t.id),
        ),
        WaitReason::Race { left, right } => Some(
            !task_running(s.tasks@, left) || !task_running(s.tasks@, right),
        ),
    }
}

/// No running task's wait is over, as far as the host does not decide it.
pub open spec fn quiescent<const N: usize, const S: usize>(s: RuntimeSnapshot<N, S>) -> bool {
    forall|k: int|
        0 <= k < N && slot_running(#[trigger] s.tasks@[k]) ==> wait_over(s, s.tasks@[k].unwrap())
            != Some(true)
}

/// What holds after a tick, whatever the host answered: the clock advanced by one
/// (saturating) and the report names it; every task keeps its slot and identity and a
/// finished task is never touched again; ids only grow; the signal queue is empty after
/// a successful tick; a tick that made no progress changed no task; a successful tick
/// runs until no task's wait is over (judged with the signals queued for it, and apart
/// from predicate waits, which the host decides); a tick fails only with
/// `ProgramNotFound` or `CapacityExceeded`.
pub open spec fn tick_relation<const N: usize, const S: usize>(
    old_s: RuntimeSnapshot<N, S>,
    new_s: RuntimeSnapshot<N, S>,
    r: Result<StepReport, RuntimeError>,
) -> bool {
    &&& new_s.wf()
    &&& new_s.clock == old_s.clock.saturating_add(1)
    &&& keeps_history(old_s.tasks@, new_s.tasks@)
    &&& old_s.next_task_id <= new_s.next_task_id
    &&& (r matches Err(e) ==> e != RuntimeError::SignalQueueFull)
    &&& (r matches Ok(report) ==> {
        &&& report.clock == new_s.clock
        &&& forall|k: int| 0 <= k < S ==> #[trigger] new_s.pending_signals@[k] is None
        &&& (!report.progress_made ==> new_s.tasks == old_s.tasks && new_s.next_task_id
            == old_s.next_task_id)
        &&& quiescent(RuntimeSnapshot { pending_signals: old_s.pending_signals, ..new_s })
    })
}

/// What queueing a signal does: it takes the first empty entry of the signal queue;
/// when there is none the call fails with `SignalQueueFull` and changes nothing.
pub open spec fn queue_relation<const N: usize, const S: usize>(
    old_s: RuntimeSnapshot<N, S>,
    new_s: RuntimeSnapshot<N, S>,
    signal: SignalId,
    r: Result<(), RuntimeError>,
) -> bool {
    &&& new_s.wf()
    &&& new_s.tasks == old_s.tasks
    &&& new_s.clock == old_s.clock
    &&& new_s.next_task_id == old_s.next_task_id
    &&& (r is Ok <==> exists|k: int| 0 <= k < S && #[trigger] old_s.pending_signals@[k] is None)
    &&& (r is Ok ==> exists|k: int|
        0 <= k < S && old_s.pending_signals@[k] is None && (forall|j: int|
            0 <= j < k ==> #[trigger] old_s.pending_signals@[j] is Some) && new_s.pending_signals@
            == old_s.pending_signals@.update(k, Some(signal)))
    &&& (r is Err ==> r == Err::<(), RuntimeError>(RuntimeError::SignalQueueFull) && new_s == old_s)
}

/// `task`, moved one op further.
pub open spec fn next_op(task: TaskRecord) -> TaskRecord {
    TaskRecord { ip: (task.ip + 1) as usize, ..task }
}

/// `new_s` is `old_s` with `task` stored in `slot`, nothing else changed.
pub open spec fn stored_state<const N: usize, const S: usize>(
    old_s: RuntimeSnapshot<N, S>,
    new_s: RuntimeSnapshot<N, S>,
    slot: int,
    task: TaskRecord,
) -> bool {
    &&& new_s.tasks@ == old_s.tasks@.update(slot, Some(task))
    &&& new_s.next_task_id == old_s.next_task_id
    &&& new_s.clock == old_s.clock
    &&& new_s.pending_signals == old_s.pending_signals
}

/// The record of a child that `task` spawns with the id `id`.
pub open spec fn child_record(task: TaskRecord, id: TaskId, program: ProgramId) -> TaskRecord {
    spawned_record(id, program, task.mind_id, Some(task.id), Some(task.scope_root))
}

/// The id the next spawned task gets.
pub open spec fn next_id<const N: usize, const S: usize>(s: RuntimeSnapshot<N, S>, n: int) -> TaskId {
    TaskId((s.next_task_id + n) as u32)
}

/// `new_s` is `old_s` with `task` stored in `slot` and a child of it running `program`
/// spawned with the next id in the first free slot.
pub open spec fn stored_with_child<const N: usize, const S: usize>(
    old_s: RuntimeSnapshot<N, S>,
    new_s: RuntimeSnapshot<N, S>,
    slot: int,
    task: TaskRecord,
    program: ProgramId,
) -> bool {
    &&& new_s.next_task_id == old_s.next_task_id + 1
    &&& new_s.clock == old_s.clock
    &&& new_s.pending_signals == old_s.pending_signals
    &&& exists|k: int|
        is_first_free(old_s.tasks@, k) && new_s.tasks@ == old_s.tasks@.update(slot, Some(task)).update(
            k,
            Some(child_record(task, next_id(old_s, 1), program)),
        )
}

/// Why spawning `program` fails in `s`, if it does: the program is missing, or no slot
/// is free.
pub open spec fn spawn_failure<const N: usize, const S: usize>(
    s: RuntimeSnapshot<N, S>,
    programs: Seq<Program>,
    program: ProgramId,
) -> Option<RuntimeError> {
    if find_program(programs, program) is None {
        Some(RuntimeError::ProgramNotFound(program))
    } else if !has_free(s.tasks@) {
        Some(RuntimeError::CapacityExceeded)
    } else {
        None
    }
}

/// Why starting a race of `left` and `right` fails in `s`, if it does: fewer than two free
/// slots, then a missing left program, then a missing right program.
pub open spec fn race_failure<const N: usize, const S: usize>(
    s: RuntimeSnapshot<N, S>,
    programs: Seq<Program>,
    left: ProgramId,
    right: ProgramId,
) -> Option<RuntimeError> {
    if free_slot_count(s.tasks@) < 2 {
        Some(RuntimeError::CapacityExceeded)
    } else if find_program(programs, left) is None {
        Some(RuntimeError::ProgramNotFound(left))
    } else if find_program(programs, right) is None {
        Some(RuntimeError::ProgramNotFound(right))
    } else {
        None
    }
}

/// `new_s` is `old_s` with `task` stored in `slot` and two children of it spawned, running
/// `left` then `right`, with the next two ids, each in the first slot then free.
pub open spec fn stored_with_children<const N: usize, const S: usize>(
    old_s: RuntimeSnapshot<N, S>,
    new_s: RuntimeSnapshot<N, S>,
    slot: int,
    task: TaskRecord,
    left: ProgramId,
    right: ProgramId,
) -> bool {
    let left_record = child_record(task, next_id(old_s, 1), left);
    let right_record = child_record(task, next_id(old_s, 2), right);
    &&& new_s.next_task_id == old_s.next_task_id + 2
    &&& new_s.clock == old_s.clock
    &&& new_s.pending_signals == old_s.pending_signals
    &&& exists|k1: int, k2: int|
        is_first_free(old_s.tasks@, k1) && is_first_free(old_s.tasks@.update(k1, Some(left_record)), k2)
            && new_s.tasks@ == old_s.tasks@.update(slot, Some(task)).update(k1, Some(left_record)).update(
            k2,
            Some(right_record),
        )
}

/// The wait of a task racing the children with the next two ids.
pub open spec fn race_wait<const N: usize, const S: usize>(
    s: RuntimeSnapshot<N, S>,
    until_tick: Option<u64>,
) -> WaitReason {
    match until_tick {
        Some(until_tick) => WaitReason::RaceOrTicks {
            left: next_id(s, 1),
            right: next_id(s, 2),
            until_tick,
        },
        None => WaitReason::Race { left: next_id(s, 1), right: next_id(s, 2) },
    }
}

/// The task in `slot` moved past its op and parked on `wait`.
pub open spec fn parked_as<const N: usize, const S: usize>(
    old_s: RuntimeSnapshot<N, S>,
    new_s: RuntimeSnapshot<N, S>,
    slot: int,
    task: TaskRecord,
    wait: WaitReason,
    r: Result<bool, RuntimeError>,
) -> bool {
    r == Ok::<bool, RuntimeError>(false) && stored_state(
        old_s,
        new_s,
        slot,
        TaskRecord { wait, ..next_op(task) },
    )
}

/// The task in `slot` moved past its op and goes on at once.
pub open spec fn moved_on<const N: usize, const S: usize>(
    old_s: RuntimeSnapshot<N, S>,
    new_s: RuntimeSnapshot<N, S>,
    slot: int,
    task: TaskRecord,
    r: Result<bool, RuntimeError>,
) -> bool {
    r == Ok::<bool, RuntimeError>(true) && stored_state(old_s, new_s, slot, next_op(task))
}

/// The task `task` in `slot` finished with `outcome`; none of its children runs any more,
/// and every other change is the cancellation of a running task.
pub open spec fn finished_state<const N: usize, const S: usize>(
    old_s: RuntimeSnapshot<N, S>,
    new_s: RuntimeSnapshot<N, S>,
    slot: int,
    task: TaskRecord,
    outcome: Outcome,
) -> bool {
    &&& new_s.tasks@[slot] == Some(TaskRecord { outcome, wait: WaitReason::Ready, ..task })
    &&& !has_running_child(new_s.tasks@, task.id)
    &&& cancels_exactly(
        old_s.tasks@.update(slot, Some(TaskRecord { outcome, wait: WaitReason::Ready, ..task })),
        new_s.tasks@,
        child_target(task.id),
    )
    &&& new_s.next_task_id == old_s.next_task_id
    &&& new_s.clock == old_s.clock
    &&& new_s.pending_signals == old_s.pending_signals
}

/// A timeout op with deadline `until_tick`: past the deadline it is skipped; otherwise the
/// timed child is spawned and the task waits for it or the deadline. When the child cannot
/// be spawned, the task is left moved past the op.
pub open spec fn timeout_executed<const N: usize, const S: usize>(
    old_s: RuntimeSnapshot<N, S>,
    new_s: RuntimeSnapshot<N, S>,
    programs: Seq<Program>,
    slot: int,
    task: TaskRecord,
    until_tick: u64,
    program: ProgramId,
    r: Result<bool, RuntimeError>,
) -> bool {
    if old_s.clock >= until_tick {
        moved_on(old_s, new_s, slot, task, r)
    } else {
        match spawn_failure(old_s, programs, program) {
            Some(e) => r == Err::<bool, RuntimeError>(e) && stored_state(old_s, new_s, slot, next_op(task)),
            None => r == Ok::<bool, RuntimeError>(false) && stored_with_child(
                old_s,
                new_s,
                slot,
                TaskRecord {
                    wait: WaitReason::Timeout { child: next_id(old_s, 1), until_tick },
                    ..next_op(task)
                },
                program,
            ),
        }
    }
}

/// A race op: both racers are spawned and the task waits for the first to finish (or for
/// `until_tick`, when there is one). Without two free slots nothing changes; when a racer's
/// program is missing, the task is left moved past the op, with the left racer spawned
/// when only the right one is missing.
pub open spec fn race_executed<const N: usize, const S: usize>(
    old_s: RuntimeSnapshot<N, S>,
    new_s: RuntimeSnapshot<N, S>,
    programs: Seq<Program>,
    slot: int,
    task: TaskRecord,
    left: ProgramId,
    right: ProgramId,
    until_tick: Option<u64>,
    r: Result<bool, RuntimeError>,
) -> bool {
    match race_failure(old_s, programs, left, right) {
        Some(e) => r == Err::<bool, RuntimeError>(e) && if e == RuntimeError::CapacityExceeded {
            new_s == old_s
        } else if find_program(programs, left) is None {
            stored_state(old_s, new_s, slot, next_op(task))
        } else {
            stored_with_child(old_s, new_s, slot, next_op(task), left)
        },
        None => r == Ok::<bool, RuntimeError>(false) && stored_with_children(
            old_s,
            new_s,
            slot,
            TaskRecord { wait: race_wait(old_s, until_tick), ..next_op(task) },
            left,
            right,
        ),
    }
}

/// A spawning op: the child is spawned and the task is stored as `stored_task`. When the
/// child cannot be spawned, the task is left as `on_error` says (unchanged for `None`).
pub open spec fn spawn_executed<const N: usize, const S: usize>(
    old_s: RuntimeSnapshot<N, S>,
    new_s: RuntimeSnapshot<N, S>,
    programs: Seq<Program>,
    slot: int,
    stored_task: TaskRecord,
    program: ProgramId,
    go_on: bool,
    on_error: Option<TaskRecord>,
    r: Result<bool, RuntimeError>,
) -> bool {
    match spawn_failure(old_s, programs, program) {
        Some(e) => r == Err::<bool, RuntimeError>(e) && match on_error {
            Some(t) => stored_state(old_s, new_s, slot, t),
            None => new_s == old_s,
        },
        None => r == Ok::<bool, RuntimeError>(go_on) && stored_with_child(
            old_s,
            new_s,
            slot,
            stored_task,
            program,
        ),
    }
}

/// A branch op that chose `chosen`: that child is spawned and the task waits for it.
pub open spec fn branch_executed<const N: usize, const S: usize>(
    old_s: RuntimeSnapshot<N, S>,
    new_s: RuntimeSnapshot<N, S>,
    programs: Seq<Program>,
    slot: int,
    task: TaskRecord,
    chosen: ProgramId,
    r: Result<bool, RuntimeError>,
) -> bool {
    spawn_executed(
        old_s,
        new_s,
        programs,
        slot,
        TaskRecord { wait: WaitReason::ChildrenAll, ..next_op(task) },
        chosen,
        false,
        Some(next_op(task)),
        r,
    )
}

/// Whether executing `op` asks the host a question: whether the predicate of a branch or
/// a repeat holds.
pub open spec fn asks_host(op: Op) -> bool {
    op is BranchPredicate || op is RepeatUntilPredicate
}

/// The event of spawning a child of `task` with the `n`-th next id, running `program`.
pub open spec fn spawned_event<const N: usize, const S: usize>(
    s: RuntimeSnapshot<N, S>,
    n: int,
    program: ProgramId,
    task: TaskRecord,
) -> TraceEvent {
    TraceEvent::TaskSpawned {
        task: next_id(s, n),
        program_id: program,
        parent: Some(task.id),
        scope_root: task.scope_root,
    }
}

/// The events of starting a timeout of `task` on a child running `program`: the child's
/// spawn and the wait, when it starts (`ok`); nothing otherwise.
pub open spec fn timeout_events<const N: usize, const S: usize>(
    s: RuntimeSnapshot<N, S>,
    task: TaskRecord,
    program: ProgramId,
    until_tick: u64,
    ok: bool,
) -> Seq<TraceEvent> {
    if ok {
        seq![
            spawned_event(s, 1, program, task),
            TraceEvent::TaskWaiting {
                task: task.id,
                reason: WaitReason::Timeout { child: next_id(s, 1), until_tick },
            },
        ]
    } else {
        Seq::empty()
    }
}

/// The events of starting a race of `task` between children running `left` and `right`:
/// both spawns and the wait when it starts (`ok`); when it fails, the left spawn if it
/// happened (two slots free and the left program found).
pub open spec fn race_events<const N: usize, const S: usize>(
    s: RuntimeSnapshot<N, S>,
    programs: Seq<Program>,
    task: TaskRecord,
    left: ProgramId,
    right: ProgramId,
    until_tick: Option<u64>,
    ok: bool,
) -> Seq<TraceEvent> {
    let wait = match until_tick {
        Some(u) => WaitReason::RaceOrTicks { left: next_id(s, 1), right: next_id(s, 2), until_tick: u },
        None => WaitReason::Race { left: next_id(s, 1), right: next_id(s, 2) },
    };
    if ok {
        seq![
            spawned_event(s, 1, left, task),
            spawned_event(s, 2, right, task),
            TraceEvent::TaskWaiting { task: task.id, reason: wait },
        ]
    } else if free_slot_count(s.tasks@) >= 2 && find_program(programs, left) is Some {
        seq![spawned_event(s, 1, left, task)]
    } else {
        Seq::empty()
    }
}

/// The events of finishing the task in `slot` (whose record is `task`) with `outcome`: its
/// `TaskFinished`, then the cancellation of its running children.
pub open spec fn finish_events<const N: usize, const S: usize>(
    s: RuntimeSnapshot<N, S>,
    slot: int,
    task: TaskRecord,
    outcome: Outcome,
) -> Seq<TraceEvent> {
    seq![TraceEvent::TaskFinished { task: task.id, outcome }] + cancel_children_run(
        s.tasks@.update(slot, Some(TaskRecord { outcome, wait: WaitReason::Ready, ..task })),
        task.id,
        0,
        N as nat,
    ).1
}

/// The events executing `op` (see `executed`) traces, with result `r`.
pub open spec fn op_events<const N: usize, const S: usize>(
    op: Op,
    slot: int,
    task: TaskRecord,
    s: RuntimeSnapshot<N, S>,
    programs: Seq<Program>,
    answer: bool,
    r: Result<bool, RuntimeError>,
) -> Seq<TraceEvent> {
    let id = task.id;
    let ok = r is Ok;
    match op {
        Op::Action(action) => seq![TraceEvent::ActionEmitted { task: id, action }],
        Op::Call(call) => seq![TraceEvent::CallEmitted { task: id, call }],
        Op::ChangeMind(mind) => seq![TraceEvent::TaskMindChanged { task: id, from: task.mind_id, to: mind }],
        Op::RepeatUntilPredicate(predicate, program) => if answer || !ok {
            Seq::empty()
        } else {
            seq![
                spawned_event(s, 1, program, task),
                TraceEvent::TaskWaiting {
                    task: id,
                    reason: WaitReason::RepeatUntilPredicate {
                        predicate,
                        resume_at_tick: s.clock.saturating_add(1),
                    },
                },
            ]
        },
        Op::WaitUntilTick(until_tick) => seq![
            TraceEvent::TaskWaiting { task: id, reason: WaitReason::Ticks { until_tick } },
        ],
        Op::WaitSignalUntilTick(signal, until_tick) => seq![
            TraceEvent::TaskWaiting { task: id, reason: WaitReason::SignalOrTicks { signal, until_tick } },
        ],
        Op::TimeoutUntilTick(until_tick, program) => if s.clock >= until_tick {
            Seq::empty()
        } else {
            timeout_events(s, task, program, until_tick, ok)
        },
        Op::RaceChildrenUntilTick(left, right, until_tick) => if s.clock >= until_tick {
            Seq::empty()
        } else {
            race_events(s, programs, task, left, right, Some(until_tick), ok)
        },
        Op::RaceChildrenOrTicks(left, right, ticks) => {
            let until_tick = s.clock.saturating_add(ticks as u64);
            if s.clock >= until_tick {
                Seq::empty()
            } else {
                race_events(s, programs, task, left, right, Some(until_tick), ok)
            }
        },
        Op::TimeoutTicks(ticks, program) => {
            let until_tick = s.clock.saturating_add(ticks as u64);
            if s.clock >= until_tick {
                Seq::empty()
            } else {
                timeout_events(s, task, program, until_tick, ok)
            }
        },
        Op::WaitSignalOrTicks(signal, ticks) => seq![
            TraceEvent::TaskWaiting {
                task: id,
                reason: WaitReason::SignalOrTicks { signal, until_tick: s.clock.saturating_add(ticks as u64) },
            },
        ],
        Op::WaitTicks(ticks) => seq![
            TraceEvent::TaskWaiting {
                task: id,
                reason: WaitReason::Ticks { until_tick: s.clock.saturating_add(ticks as u64) },
            },
        ],
        Op::WaitSignal(signal) => seq![TraceEvent::TaskWaiting { task: id, reason: WaitReason::Signal(signal) }],
        Op::WaitPredicate(predicate) => seq![
            TraceEvent::TaskWaiting { task: id, reason: WaitReason::Predicate(predicate) },
        ],
        Op::Spawn(program) => if ok {
            seq![spawned_event(s, 1, program, task)]
        } else {
            Seq::empty()
        },
        Op::BranchPredicate(_, if_true, if_false) => if ok {
            seq![
                spawned_event(s, 1, if answer { if_true } else { if_false }, task),
                TraceEvent::TaskWaiting { task: id, reason: WaitReason::ChildrenAll },
            ]
        } else {
            Seq::empty()
        },
        Op::JoinChildren => if has_running_child(s.tasks@, id) {
            seq![TraceEvent::TaskWaiting { task: id, reason: WaitReason::ChildrenAll }]
        } else {
            Seq::empty()
        },
        Op::JoinAnyChildren => if has_running_child(s.tasks@, id) {
            seq![TraceEvent::TaskWaiting { task: id, reason: WaitReason::ChildrenAny }]
        } else {
            Seq::empty()
        },
        Op::Race2(left, right) => race_events(s, programs, task, left, right, None, ok),
        Op::Succeed => finish_events(s, slot, task, Outcome::Succeeded),
        Op::Fail => finish_events(s, slot, task, Outcome::Failed),
    }
}

/// What executing `op`, the current op of the running, ready task `task` in `slot`, does,
/// when the host answers `answer` to the question the op asks (see `asks_host`; other ops
/// ignore it). `Ok(true)`: the task goes on at once; `Ok(false)`: it waits, changed mind
/// or finished.
pub open spec fn executed<const N: usize, const S: usize>(
    op: Op,
    slot: int,
    task: TaskRecord,
    old_s: RuntimeSnapshot<N, S>,
    new_s: RuntimeSnapshot<N, S>,
    programs: Seq<Program>,
    r: Result<bool, RuntimeError>,
    answer: bool,
) -> bool {
    match op {
        Op::Action(_) => moved_on(old_s, new_s, slot, task, r),
        Op::Call(_) => moved_on(old_s, new_s, slot, task, r),
        Op::ChangeMind(mind) => r == Ok::<bool, RuntimeError>(false) && stored_state(
            old_s,
            new_s,
            slot,
            TaskRecord { mind_id: mind, ..next_op(task) },
        ),
        Op::WaitUntilTick(until_tick) => parked_as(
            old_s,
            new_s,
            slot,
            task,
            WaitReason::Ticks { until_tick },
            r,
        ),
        Op::WaitSignalUntilTick(signal, until_tick) => parked_as(
            old_s,
            new_s,
            slot,
            task,
            WaitReason::SignalOrTicks { signal, until_tick },
            r,
        ),
        Op::WaitSignalOrTicks(signal, ticks) => parked_as(
            old_s,
            new_s,
            slot,
            task,
            WaitReason::SignalOrTicks { signal, until_tick: deadline(old_s.clock, ticks) },
            r,
        ),
        Op::WaitTicks(ticks) => parked_as(
            old_s,
            new_s,
            slot,
            task,
            WaitReason::Ticks { until_tick: deadline(old_s.clock, ticks) },
            r,
        ),
        Op::WaitSignal(signal) => parked_as(old_s, new_s, slot, task, WaitReason::Signal(signal), r),
        Op::WaitPredicate(predicate) => parked_as(
            old_s,
            new_s,
            slot,
            task,
            WaitReason::Predicate(predicate),
            r,
        ),
        Op::JoinChildren => if has_running_child(old_s.tasks@, task.id) {
            parked_as(old_s, new_s, slot, task, WaitReason::ChildrenAll, r)
        } else {
            moved_on(old_s, new_s, slot, task, r)
        },
        Op::JoinAnyChildren => if has_running_child(old_s.tasks@, task.id) {
            parked_as(old_s, new_s, slot, task, WaitReason::ChildrenAny, r)
        } else {
            moved_on(old_s, new_s, slot, task, r)
        },
        Op::Succeed => r == Ok::<bool, RuntimeError>(false) && finished_state(
            old_s,
            new_s,
            slot,
            task,
            Outcome::Succeeded,
        ),
        Op::Fail => r == Ok::<bool, RuntimeError>(false) && finished_state(
            old_s,
            new_s,
            slot,
            task,
            Outcome::Failed,
        ),
        Op::Spawn(program) => spawn_executed(
            old_s,
            new_s,
            programs,
            slot,
            next_op(task),
            program,
            true,
            Some(next_op(task)),
            r,
        ),
        Op::BranchPredicate(_, if_true, if_false) => branch_executed(
            old_s,
            new_s,
            programs,
            slot,
            task,
            if answer {
                if_true
            } else {
                if_false
            },
            r,
        ),
        Op::RepeatUntilPredicate(predicate, program) => if answer {
            moved_on(old_s, new_s, slot, task, r)
        } else {
            spawn_executed(
            old_s,
            new_s,
            programs,
            slot,
            TaskRecord {
                wait: WaitReason::RepeatUntilPredicate {
                    predicate,
                    resume_at_tick: old_s.clock.saturating_add(1),
                },
                ..task
            },
            program,
            false,
            None,
            r,
        )
        },
        Op::TimeoutUntilTick(until_tick, program) => timeout_executed(
            old_s,
            new_s,
            programs,
            slot,
            task,
            until_tick,
            program,
            r,
        ),
        Op::TimeoutTicks(ticks, program) => timeout_executed(
            old_s,
            new_s,
            programs,
            slot,
            task,
            deadline(old_s.clock, ticks),
            program,
            r,
        ),
        Op::RaceChildrenUntilTick(left, right, until_tick) => if old_s.clock >= until_tick {
            moved_on(old_s, new_s, slot, task, r)
        } else {
            race_executed(old_s, new_s, programs, slot, task, left, right, Some(until_tick), r)
        },
        Op::RaceChildrenOrTicks(left, right, ticks) => if old_s.clock >= deadline(
            old_s.clock,
            ticks,
        ) {
            moved_on(old_s, new_s, slot, task, r)
        } else {
            race_executed(
                old_s,
                new_s,
                programs,
                slot,
                task,
                left,
                right,
                Some(deadline(old_s.clock, ticks)),
                r,
            )
        },
        Op::Race2(left, right) => race_executed(
            old_s,
            new_s,
            programs,
            slot,
            task,
            left,
            right,
            None,
            r,
        ),
    }
}

/// What the end of `t`'s wait cancels in `s`: the other side of a decided race, both sides
/// of a race past its deadline, the timed child past its deadline, the other children once
/// a child of a join-any has finished; nothing otherwise.
pub open spec fn wake_target<const N: usize, const S: usize>(
    s: RuntimeSnapshot<N, S>,
    t: TaskRecord,
) -> spec_fn(TaskRecord) -> bool {
    match t.wait {
        WaitReason::Race { left, right } => if !task_running(s.tasks@, left) {
            task_target(right)
        } else if !task_running(s.tasks@, right) {
            task_target(left)
        } else {
            no_target()
        },
        WaitReason::RaceOrTicks { left, right, until_tick } => if !task_running(s.tasks@, left) {
            task_target(right)
        } else if !task_running(s.tasks@, right) {
            task_target(left)
        } else if s.clock >= until_tick {
            pair_target(left, right)
        } else {
            no_target()
        },
        WaitReason::Timeout { child, until_tick } => if task_running(s.tasks@, child) && s.clock
            >= until_tick {
            task_target(child)
        } else {
            no_target()
        },
        WaitReason::ChildrenAny => if has_running_child(s.tasks@, t.id) && has_finished_child(
            s.tasks@,
            t.id,
        ) {
            child_target(t.id)
        } else {
            no_target()
        },
        _ => no_target(),
    }
}

/// The op at which `task` stands (meaningful when its program exists and `ip` is in range).
pub open spec fn current_op(programs: Seq<Program>, task: TaskRecord) -> Op {
    programs[find_program(programs, task.program_id).unwrap()].ops@[task.ip as int]
}

/// The running task in `slot` of `a` takes one step to `b`: its wait ends (as far as the
/// host does not decide otherwise), cancelling what the wait no longer needs; or, ready,
/// it executes its current op (see `executed`); or, past its last op, it succeeds.
pub open spec fn task_step_at<const N: usize, const S: usize>(
    a: RuntimeSnapshot<N, S>,
    b: RuntimeSnapshot<N, S>,
    programs: Seq<Program>,
    slot: int,
) -> bool {
    let task = a.tasks@[slot].unwrap();
    let woken = TaskRecord { wait: WaitReason::Ready, ..task };
    ||| {
        &&& !(task.wait is Ready)
        &&& wait_over(a, task) != Some(false)
        &&& b.tasks@[slot] == Some(woken)
        &&& cancels_exactly(a.tasks@.update(slot, Some(woken)), b.tasks@, wake_target(a, task))
        &&& b.next_task_id == a.next_task_id
        &&& b.clock == a.clock
        &&& b.pending_signals == a.pending_signals
    }
    ||| {
        &&& task.wait is Ready
        &&& (task.ip as nat) < op_len(programs, task.program_id)
        &&& exists|go_on: bool, answer: bool|
            #[trigger] executed(
                current_op(programs, task),
                slot,
                task,
                a,
                b,
                programs,
                Ok::<bool, RuntimeError>(go_on),
                answer,
            )
    }
    ||| {
        &&& task.wait is Ready
        &&& (task.ip as nat) >= op_len(programs, task.program_id)
        &&& finished_state(a, b, slot, task, Outcome::Succeeded)
    }
}

/// The step of the task in `slot` of `s` executes an `Action` op.
pub open spec fn acts_at<const N: usize, const S: usize>(
    s: RuntimeSnapshot<N, S>,
    programs: Seq<Program>,
    slot: int,
) -> bool {
    let task = s.tasks@[slot].unwrap();
    &&& task.wait is Ready
    &&& (task.ip as nat) < op_len(programs, task.program_id)
    &&& current_op(programs, task) is Action
}

/// Actions counted by the step of the task in `slot` of `s`: one for an `Action` op.
pub open spec fn actions_of_step<const N: usize, const S: usize>(
    s: RuntimeSnapshot<N, S>,
    programs: Seq<Program>,
    slot: int,
) -> nat {
    if acts_at(s, programs, slot) {
        1
    } else {
        0
    }
}

/// `b` follows from `a` by `n` task steps, `actions` of which execute an `Action` op.
pub open spec fn reaches<const N: usize, const S: usize>(
    a: RuntimeSnapshot<N, S>,
    b: RuntimeSnapshot<N, S>,
    programs: Seq<Program>,
    n: nat,
    actions: nat,
) -> bool
    decreases n,
{
    if n == 0 {
        a == b && actions == 0
    } else {
        exists|mid: RuntimeSnapshot<N, S>, slot: int|
            0 <= slot < N && slot_running(a.tasks@[slot]) && #[trigger] task_step_at(a, mid, programs, slot)
                && actions_of_step(a, programs, slot) <= actions && reaches(
                mid,
                b,
                programs,
                (n - 1) as nat,
                (actions - actions_of_step(a, programs, slot)) as nat,
            )
    }
}

pub proof fn lemma_reaches_step<const N: usize, const S: usize>(
    a: RuntimeSnapshot<N, S>,
    b: RuntimeSnapshot<N, S>,
    programs: Seq<Program>,
    slot: int,
)
    requires
        0 <= slot < N,
        slot_running(a.tasks@[slot]),
        task_step_at(a, b, programs, slot),
    ensures
        reaches(a, b, programs, 1, actions_of_step(a, programs, slot)),
{
    assert(reaches(b, b, programs, (1 - 1) as nat, 0));
}

pub proof fn lemma_reaches_trans<const N: usize, const S: usize>(
    a: RuntimeSnapshot<N, S>,
    b: RuntimeSnapshot<N, S>,
    c: RuntimeSnapshot<N, S>,
    programs: Seq<Program>,
    n: nat,
    m: nat,
    x: nat,
    y: nat,
)
    requires
        reaches(a, b, programs, n, x),
        reaches(b, c, programs, m, y),
    ensures
        reaches(a, c, programs, n + m, x + y),
    decreases n,
{
    if n == 0 {
        assert(a == b);
    } else {
        let (mid, slot) = choose|mid: RuntimeSnapshot<N, S>, slot: int|
            0 <= slot < N && slot_running(a.tasks@[slot]) && #[trigger] task_step_at(a, mid, programs, slot)
                && actions_of_step(a, programs, slot) <= x && reaches(
                mid,
                b,
                programs,
                (n - 1) as nat,
                (x - actions_of_step(a, programs, slot)) as nat,
            );
        let k = actions_of_step(a, programs, slot);
        lemma_reaches_trans(mid, b, c, programs, (n - 1) as nat, m, (x - k) as nat, y);
        assert(((n - 1) as nat + m) as nat == ((n + m) - 1) as nat);
        assert(((x - k) as nat + y) as nat == ((x + y) - k) as nat);
        assert(task_step_at(a, mid, programs, slot) && reaches(
            mid,
            c,
            programs,
            ((n + m) - 1) as nat,
            ((x + y) - k) as nat,
        ));
    }
}

/// `x + n`, held at `usize::MAX`.
pub open spec fn add_capped(x: usize, n: nat) -> usize {
    if x + n > usize::MAX {
        usize::MAX
    } else {
        (x + n) as usize
    }
}

/// The host's requests, the trace and the actions requested after one more visit of a
/// round: its wake-up check, then the run of its task (`x`).
pub proof fn lemma_visit_logs<const N: usize, const S: usize>(
    before: RuntimeSnapshot<N, S>,
    slot: int,
    woke: bool,
    acts_b: Seq<Effect>,
    acts_r: Seq<Effect>,
    x: Seq<Effect>,
    req0: Seq<HostRequest>,
    before_req: Seq<HostRequest>,
    mid_req: Seq<HostRequest>,
    req: Seq<HostRequest>,
    tr0: Seq<TraceEvent>,
    before_tr: Seq<TraceEvent>,
    mid_tr: Seq<TraceEvent>,
    tr: Seq<TraceEvent>,
)
    requires
        before_req == req0 + host_part(acts_b + acts_r),
        mid_req == before_req + crate::schedule::wake_requests(before, slot),
        req == mid_req + host_part(x),
        before_tr == tr0 + trace_part(acts_b + acts_r),
        woke ==> mid_tr == before_tr + wake_run(before, before.tasks@[slot].unwrap()).1.push(
            TraceEvent::TaskWoken {
                task: before.tasks@[slot].unwrap().id,
                reason: before.tasks@[slot].unwrap().wait,
            },
        ),
        !woke ==> mid_tr == before_tr,
        tr == mid_tr + trace_part(x),
    ensures
        action_count(acts_b + (acts_r + (wake_log(before, slot, woke) + x))) == action_count(acts_b + acts_r)
            + action_count(x),
        req == req0 + host_part(acts_b + (acts_r + (wake_log(before, slot, woke) + x))),
        tr == tr0 + trace_part(acts_b + (acts_r + (wake_log(before, slot, woke) + x))),
{
    let wl = wake_log(before, slot, woke);
    lemma_wake_log_parts(before, slot, woke);
    if !woke {
        assert(mid_tr =~= before_tr + trace_part(wl));
    }
    lemma_parts_add(acts_b + acts_r, wl + x);
    lemma_parts_add(wl, x);
    assert(acts_b + acts_r + (wl + x) =~= acts_b + (acts_r + (wl + x)));
    assert(req =~= req0 + host_part(acts_b + (acts_r + (wl + x))));
    assert(tr =~= tr0 + trace_part(acts_b + (acts_r + (wl + x))));
}

/// `log` is `base`, then `a`, then `b`.
#[verifier::opaque]
pub open spec fn logged<A>(log: Seq<A>, base: Seq<A>, a: Seq<A>, b: Seq<A>) -> bool {
    log == base + a + b
}

/// A log is itself followed by nothing.
pub proof fn lemma_logged_start<A>(log: Seq<A>)
    ensures
        logged(log, log, Seq::empty(), Seq::empty()),
{
    reveal(logged);
    assert(log =~= log + Seq::<A>::empty() + Seq::<A>::empty());
}

/// A log that goes on by `w` and then `u`.
pub proof fn lemma_logged_visit<A>(log: Seq<A>, w: Seq<A>, u: Seq<A>, base: Seq<A>, a: Seq<A>, b: Seq<A>)
    requires
        logged(log, base, a, b),
    ensures
        logged(log + w + u, base, a, b + (w + u)),
{
    reveal(logged);
    assert(log + w + u =~= base + a + (b + (w + u)));
}

/// The second part of a log joins the first.
pub proof fn lemma_logged_round<A>(log: Seq<A>, base: Seq<A>, a: Seq<A>, b: Seq<A>)
    requires
        logged(log, base, a, b),
    ensures
        logged(log, base, a + b, Seq::empty()),
{
    reveal(logged);
    assert(base + a + b =~= base + (a + b) + Seq::<A>::empty());
}

/// A log is its base followed by both parts.
pub proof fn lemma_logged_whole<A>(log: Seq<A>, base: Seq<A>, a: Seq<A>, b: Seq<A>)
    requires
        logged(log, base, a, b),
    ensures
        log == base + (a + b),
{
    reveal(logged);
    assert(base + a + b =~= base + (a + b));
}

/// The host's requests and the trace after the op `op` of a run: its question, if it asks
/// one, then what it hands over, and the events it traces.
pub proof fn lemma_logs_after_op<const N: usize, const S: usize>(
    req0: Seq<HostRequest>,
    tr0: Seq<TraceEvent>,
    mind_ask: Seq<Effect>,
    told: Seq<Effect>,
    op: Op,
    slot: int,
    task: TaskRecord,
    s: RuntimeSnapshot<N, S>,
    programs: Seq<Program>,
    answer: bool,
    r: Result<bool, RuntimeError>,
    req: Seq<HostRequest>,
    tr: Seq<TraceEvent>,
)
    requires
        req == req0 + host_part(mind_ask + told) + (if asks_host(op) {
            op_requests(op, task)
        } else {
            Seq::<HostRequest>::empty()
        }) + (if asks_host(op) {
            Seq::<HostRequest>::empty()
        } else {
            op_requests(op, task)
        }),
        tr == tr0 + trace_part(mind_ask + told) + op_events(op, slot, task, s, programs, answer, r),
    ensures
        req == req0 + host_part(mind_ask + told + op_log(op, slot, task, s, programs, answer, r)),
        tr == tr0 + trace_part(mind_ask + told + op_log(op, slot, task, s, programs, answer, r)),
        action_count(mind_ask + told + op_log(op, slot, task, s, programs, answer, r)) == action_count(
            mind_ask + told,
        ) + acted(op),
{
    let log = op_log(op, slot, task, s, programs, answer, r);
    crate::schedule::lemma_op_action_count(op, slot, task, s, programs, answer, r);
    lemma_parts_add(mind_ask + told, log);
    assert(req =~= req0 + host_part(mind_ask + told + log));
    assert(tr =~= tr0 + trace_part(mind_ask + told + log));
}

pub proof fn lemma_add_capped(x: usize, a: nat, b: nat)
    ensures
        add_capped(add_capped(x, a), b) == add_capped(x, a + b),
        add_capped(x, 0) == x,
{
}

/// `n` task steps, `actions` of which execute an `Action` op, lead from `old_s` with its
/// clock advanced to `new_s` with the signals of `old_s`: what the steps of a tick from
/// `old_s` to `new_s` do.
pub open spec fn tick_steps<const N: usize, const S: usize>(
    old_s: RuntimeSnapshot<N, S>,
    new_s: RuntimeSnapshot<N, S>,
    programs: Seq<Program>,
    n: nat,
    actions: nat,
) -> bool {
    reaches(
        RuntimeSnapshot { clock: old_s.clock.saturating_add(1), ..old_s },
        RuntimeSnapshot { pending_signals: old_s.pending_signals, ..new_s },
        programs,
        n,
        actions,
    )
}

/// The record of a freshly spawned task.
pub open spec fn spawned_record(
    id: TaskId,
    program_id: ProgramId,
    mind: MindId,
    parent: Option<TaskId>,
    scope_root: Option<TaskId>,
) -> TaskRecord {
    TaskRecord {
        id,
        program_id,
        mind_id: mind,
        ip: 0,
        parent,
        scope_root: match scope_root {
            Some(r) => r,
            None => id,
        },
        outcome: Outcome::Running,
        wait: WaitReason::Ready,
    }
}

/// The runtime: a program catalog and the snapshot it executes.
pub struct Runtime<'a, const MAX_TASKS: usize, const MAX_PENDING_SIGNALS: usize> {
    programs: ProgramCatalog<'a>,
    snapshot: RuntimeSnapshot<MAX_TASKS, MAX_PENDING_SIGNALS>,
}

impl<'a, const MAX_TASKS: usize, const MAX_PENDING_SIGNALS: usize> Runtime<
    'a,
    MAX_TASKS,
    MAX_PENDING_SIGNALS,
> {
    /// The state the runtime executes.
    pub closed spec fn state(&self) -> RuntimeSnapshot<MAX_TASKS, MAX_PENDING_SIGNALS> {
        self.snapshot
    }

    /// The catalog the runtime executes from.
    pub closed spec fn catalog(&self) -> ProgramCatalog<'a> {
        self.programs
    }

    pub open spec fn programs_seq(&self) -> Seq<Program<'a>> {
        self.catalog().program_seq()
    }

    pub open spec fn wf(&self) -> bool {
        self.state().wf()
    }

    pub fn new(programs: ProgramCatalog<'a>) -> (runtime: Self)
        requires
            MAX_TASKS <= u32::MAX,
        ensures
            runtime.wf(),
            runtime.catalog() == programs,
            runtime.state() == RuntimeSnapshot::<MAX_TASKS, MAX_PENDING_SIGNALS>::spec_empty(),
    {
        let snapshot = RuntimeSnapshot::empty();
        proof {
            crate::snapshot::lemma_slot_sum_all_free(snapshot.tasks@);
        }
        Runtime { programs, snapshot }
    }

    pub fn from_snapshot(
        programs: ProgramCatalog<'a>,
        snapshot: RuntimeSnapshot<MAX_TASKS, MAX_PENDING_SIGNALS>,
    ) -> (runtime: Self)
        requires
            snapshot.wf(),
        ensures
            runtime.wf(),
            runtime.catalog() == programs,
            runtime.state() == snapshot,
    {
        Runtime { programs, snapshot }
    }

    pub fn snapshot(&self) -> (snapshot: RuntimeSnapshot<MAX_TASKS, MAX_PENDING_SIGNALS>)
        ensures
            snapshot == self.state(),
    {
        self.snapshot
    }

    pub fn clock(&self) -> (clock: u64)
        ensures
            clock == self.state().clock,
    {
        self.snapshot.clock
    }

    /// The record of the first slot holding task `task_id`.
    pub fn task(&self, task_id: TaskId) -> (r: Option<TaskRecord>)
        ensures
            match r {
                Some(t) => exists|k: int|
                    is_slot_of(self.state().tasks@, task_id, k) && self.state().tasks@[k] == Some(
                        t,
                    ),
                None => !has_task(self.state().tasks@, task_id),
            },
    {
        match self.find_task_slot(task_id) {
            Some(slot) => {
                let r = self.snapshot.tasks[slot];
                assert(is_slot_of(self.state().tasks@, task_id, slot as int)
                    && self.state().tasks@[slot as int] == r);
                r
            },
            None => None,
        }
    }

    pub fn tasks(&self) -> (tasks: [Option<TaskRecord>; MAX_TASKS])
        ensures
            tasks == self.state().tasks,
    {
        self.snapshot.tasks
    }

    fn find_task_slot(&self, task_id: TaskId) -> (r: Option<usize>)
        ensures
            match r {
                Some(k) => is_slot_of(self.snapshot.tasks@, task_id, k as int),
                None => !has_task(self.snapshot.tasks@, task_id),
            },
    {
        let mut index: usize = 0;
        while index < MAX_TASKS
            invariant
                index <= MAX_TASKS,
                forall|j: int|
                    0 <= j < index ==> !holds_task(#[trigger] self.snapshot.tasks@[j], task_id),
            decreases MAX_TASKS - index,
        {
            if let Some(task) = self.snapshot.tasks[index] {
                if task.id == task_id {
                    return Some(index);
                }
            }
            index = index + 1;
        }
        None
    }

    fn find_free_slot(&self) -> (r: Option<usize>)
        ensures
            match r {
                Some(k) => is_first_free(self.snapshot.tasks@, k as int),
                None => !has_free(self.snapshot.tasks@),
            },
    {
        let mut index: usize = 0;
        while index < MAX_TASKS
            invariant
                index <= MAX_TASKS,
                forall|j: int| 0 <= j < index ==> #[trigger] self.snapshot.tasks@[j] is Some,
            decreases MAX_TASKS - index,
        {
            if self.snapshot.tasks[index].is_none() {
                return Some(index);
            }
            index = index + 1;
        }
        None
    }

    /// Number of empty slots.
    fn available_slots(&self) -> (count: usize)
        ensures
            count == free_slot_count(self.snapshot.tasks@),
    {
        let mut count: usize = 0;
        let mut index: usize = 0;
        while index < MAX_TASKS
            invariant
                index <= MAX_TASKS,
                count == free_slot_count(self.snapshot.tasks@.take(index as int)),
                count <= index,
            decreases MAX_TASKS - index,
        {
            proof {
                crate::snapshot::lemma_free_prefix_step(self.snapshot.tasks@, index as int);
            }
            if self.snapshot.tasks[index].is_none() {
                count = count + 1;
            }
            index = index + 1;
        }
        proof {
            assert(self.snapshot.tasks@.take(MAX_TASKS as int) =~= self.snapshot.tasks@);
        }
        count
    }

    fn has_running_children(&self, parent_id: TaskId) -> (r: bool)
        ensures
            r == has_running_child(self.snapshot.tasks@, parent_id),
    {
        let mut index: usize = 0;
        while index < MAX_TASKS
            invariant
                index <= MAX_TASKS,
                forall|j: int|
                    0 <= j < index ==> !(is_child_of(#[trigger] self.snapshot.tasks@[j], parent_id)
                        && slot_running(self.snapshot.tasks@[j])),
            decreases MAX_TASKS - index,
        {
            if let Some(task) = self.snapshot.tasks[index] {
                if let Some(p) = task.parent {
                    if p == parent_id && task.outcome == Outcome::Running {
                        return true;
                    }
                }
            }
            index = index + 1;
        }
        false
    }

    fn has_finished_children(&self, parent_id: TaskId) -> (r: bool)
        ensures
            r == has_finished_child(self.snapshot.tasks@, parent_id),
    {
        let mut index: usize = 0;
        while index < MAX_TASKS
            invariant
                index <= MAX_TASKS,
                forall|j: int|
                    0 <= j < index ==> !(is_child_of(#[trigger] self.snapshot.tasks@[j], parent_id)
                        && !slot_running(self.snapshot.tasks@[j])),
            decreases MAX_TASKS - index,
        {
            if let Some(task) = self.snapshot.tasks[index] {
                if let Some(p) = task.parent {
                    if p == parent_id && task.outcome != Outcome::Running {
                        return true;
                    }
                }
            }
            index = index + 1;
        }
        false
    }

    fn signal_pending(&self, signal: SignalId) -> (r: bool)
        ensures
            r == signal_queued(self.snapshot.pending_signals@, signal),
    {
        let mut index: usize = 0;
        while index < MAX_PENDING_SIGNALS
            invariant
                index <= MAX_PENDING_SIGNALS,
                forall|j: int|
                    0 <= j < index ==> #[trigger] self.snapshot.pending_signals@[j] != Some(signal),
            decreases MAX_PENDING_SIGNALS - index,
        {
            if let Some(queued) = self.snapshot.pending_signals[index] {
                if queued == signal {
                    return true;
                }
            }
            index = index + 1;
        }
        false
    }

    /// The outcome of task `task_id`; a task that is not present counts as cancelled.
    fn task_outcome(&self, task_id: TaskId) -> (outcome: Outcome)
        ensures
            (outcome == Outcome::Running) == task_running(self.snapshot.tasks@, task_id),
    {
        match self.find_task_slot(task_id) {
            Some(slot) => match self.snapshot.tasks[slot] {
                Some(task) => task.outcome,
                None => Outcome::Cancelled,
            },
            None => Outcome::Cancelled,
        }
    }

    /// Spawns a task running `program_id` in the first free slot.
    fn spawn_task<T: TraceSink>(
        &mut self,
        program_id: ProgramId,
        parent: Option<TaskId>,
        scope_root: Option<TaskId>,
        mind: MindId,
        trace: &mut T,
    ) -> (r: Result<TaskId, RuntimeError>)
        requires
            old(self).snapshot.wf(),
            parent matches Some(p) ==> p.0 <= old(self).snapshot.next_task_id,
        ensures
            extends(old(trace).received(), final(trace).received()),
            final(self).programs == old(self).programs,
            find_program(old(self).programs.program_seq(), program_id) is None ==> r == Err::<
                TaskId,
                RuntimeError,
            >(RuntimeError::ProgramNotFound(program_id)) && final(self).snapshot == old(self).snapshot,
            find_program(old(self).programs.program_seq(), program_id) is Some && !has_free(
                old(self).snapshot.tasks@,
            ) ==> r == Err::<TaskId, RuntimeError>(RuntimeError::CapacityExceeded) && final(self).snapshot == old(self).snapshot,
            find_program(old(self).programs.program_seq(), program_id) is Some && has_free(
                old(self).snapshot.tasks@,
            ) ==> r is Ok,
            r matches Ok(id) ==> final(trace).received() == old(trace).received().push(
                (TraceEvent::TaskSpawned {
                    task: id,
                    program_id,
                    parent,
                    scope_root: match scope_root {
                        Some(root) => root,
                        None => id,
                    },
                }),
            ),
            r is Err ==> final(trace).received() == old(trace).received(),
            r matches Ok(id) ==> {
                &&& id.0 == old(self).snapshot.next_task_id + 1
                &&& final(self).snapshot.next_task_id == id.0
                &&& final(self).snapshot.clock == old(self).snapshot.clock
                &&& final(self).snapshot.pending_signals == old(self).snapshot.pending_signals
                &&& exists|k: int|
                    is_first_free(old(self).snapshot.tasks@, k) && final(self).snapshot.tasks@
                        == old(self).snapshot.tasks@.update(
                        k,
                        Some(spawned_record(id, program_id, mind, parent, scope_root)),
                    )
                &&& old(self).snapshot.evolves_to(
                    final(self).snapshot,
                    old(self).programs.program_seq(),
                )
                &&& lex_lt(
                    final(self).snapshot.measure(old(self).programs.program_seq()),
                    old(self).snapshot.measure(old(self).programs.program_seq()),
                )
                &&& free_slot_count(final(self).snapshot.tasks@) + 1 == free_slot_count(
                    old(self).snapshot.tasks@,
                )
            },
    {
        if self.programs.get(program_id).is_none() {
            return Err(RuntimeError::ProgramNotFound(program_id));
        }
        let slot = match self.find_free_slot() {
            Some(slot) => slot,
            None => {
                return Err(RuntimeError::CapacityExceeded);
            },
        };
        let ghost before = self.snapshot;
        proof {
            lemma_slot_sum_positive(self.snapshot.tasks@, slot as int, free_indicator());
        }
        let id = TaskId(self.snapshot.next_task_id + 1);
        let root = match scope_root {
            Some(root) => root,
            None => id,
        };
        let record = TaskRecord {
            id,
            program_id,
            mind_id: mind,
            ip: 0,
            parent,
            scope_root: root,
            outcome: Outcome::Running,
            wait: WaitReason::Ready,
        };
        self.snapshot.next_task_id = id.0;
        self.snapshot.tasks[slot] = Some(record);
        proof {
            lemma_spawn_record(before, self.snapshot, slot as int, record, self.programs.program_seq());
        }
        trace.on_event(
            TraceEvent::TaskSpawned { task: id, program_id, parent, scope_root: root },
        );
        Ok(id)
    }

    /// Cancels every running child of `parent_id` (and, through them, their subtrees).
    fn cancel_children<T: TraceSink>(&mut self, parent_id: TaskId, trace: &mut T)
        requires
            old(self).snapshot.wf(),
        ensures
            extends(old(trace).received(), final(trace).received()),
            final(self).programs == old(self).programs,
            old(self).snapshot.evolves_to(final(self).snapshot, old(self).programs.program_seq()),
            final(self).snapshot.next_task_id == old(self).snapshot.next_task_id,
            same_occupancy(old(self).snapshot.tasks@, final(self).snapshot.tasks@),
            only_cancels(old(self).snapshot.tasks@, final(self).snapshot.tasks@),
            unchanged_below(old(self).snapshot.tasks@, final(self).snapshot.tasks@, parent_id.0 + 1),
            !has_running_child(final(self).snapshot.tasks@, parent_id),
            !has_running_child(old(self).snapshot.tasks@, parent_id) ==> final(self).snapshot == old(self).snapshot,
            cancels_exactly(old(self).snapshot.tasks@, final(self).snapshot.tasks@, child_target(parent_id)),
            final(self).snapshot.tasks@ == cancel_children_run(old(self).snapshot.tasks@, parent_id, 0, MAX_TASKS as nat).0,
            final(trace).received() == old(trace).received() + cancel_children_run(
                old(self).snapshot.tasks@,
                parent_id,
                0,
                MAX_TASKS as nat,
            ).1,
        decreases u32::MAX - parent_id.0, 1nat,
    {
        let ghost start = self.snapshot;
        let mut index: usize = 0;
        proof {
            assert(trace.received().skip(old(trace).received().len() as int) =~= Seq::<TraceEvent>::empty());
        }
        while index < MAX_TASKS
            invariant
                index <= MAX_TASKS,
                extends(old(trace).received(), trace.received()),
                self.snapshot.tasks@.len() == MAX_TASKS,
                cancel_children_run(start.tasks@, parent_id, 0, MAX_TASKS as nat).0 == cancel_children_run(
                    self.snapshot.tasks@,
                    parent_id,
                    index as nat,
                    MAX_TASKS as nat,
                ).0,
                cancel_children_run(start.tasks@, parent_id, 0, MAX_TASKS as nat).1 == trace.received().skip(
                    old(trace).received().len() as int,
                ) + cancel_children_run(self.snapshot.tasks@, parent_id, index as nat, MAX_TASKS as nat).1,
                self.snapshot.wf(),
                self.programs == old(self).programs,
                start == old(self).snapshot,
                start.evolves_to(self.snapshot, self.programs.program_seq()),
                self.snapshot.next_task_id == start.next_task_id,
                same_occupancy(start.tasks@, self.snapshot.tasks@),
                only_cancels(start.tasks@, self.snapshot.tasks@),
                unchanged_below(start.tasks@, self.snapshot.tasks@, parent_id.0 + 1),
                forall|j: int|
                    0 <= j < index ==> !(is_child_of(#[trigger] self.snapshot.tasks@[j], parent_id)
                        && slot_running(self.snapshot.tasks@[j])),
                !has_running_child(start.tasks@, parent_id) ==> self.snapshot == start,
                cancels_within(start.tasks@, self.snapshot.tasks@, child_target(parent_id)),
            decreases MAX_TASKS - index,
        {
            let ghost mid = self.snapshot;
            let ghost seen = trace.received();
            if let Some(child) = self.snapshot.tasks[index] {
                if child.parent == Some(parent_id) {
                    proof {
                        assert(mid.tasks@[index as int] is Some);
                        assert(child.id.0 > parent_id.0);
                    }
                    self.cancel_if_running(child.id, trace);
                    proof {
                        let first = cancel_task_run(mid.tasks@, child.id);
                        assert(trace.received().skip(old(trace).received().len() as int) =~= seen.skip(
                            old(trace).received().len() as int,
                        ) + first.1);
                        assert(cancel_children_run(mid.tasks@, parent_id, index as nat, MAX_TASKS as nat).1
                            == first.1 + cancel_children_run(self.snapshot.tasks@, parent_id, (index + 1) as nat, MAX_TASKS as nat).1);
                        mid.lemma_evolves_trans(self.snapshot, self.snapshot, self.programs.program_seq());
                        start.lemma_evolves_trans(mid, self.snapshot, self.programs.program_seq());
                        lemma_same_occupancy_trans(start.tasks@, mid.tasks@, self.snapshot.tasks@);
                        lemma_only_cancels_trans(start.tasks@, mid.tasks@, self.snapshot.tasks@);
                        lemma_unchanged_below_trans(start.tasks@, mid.tasks@, self.snapshot.tasks@, parent_id.0 + 1);
                        lemma_unchanged_below_weaken(mid.tasks@, self.snapshot.tasks@, child.id.0 as int, parent_id.0 + 1);
                        assert(is_slot_of(mid.tasks@, child.id, index as int));
                        assert(!task_running(self.snapshot.tasks@, child.id));
                        lemma_slot_of_kept(mid.tasks@, self.snapshot.tasks@, child.id, index as int);
                        assert forall|j: int|
                            0 <= j < index + 1 implies !(is_child_of(#[trigger] self.snapshot.tasks@[j], parent_id)
                                && slot_running(self.snapshot.tasks@[j])) by {
                            if j < index {
                                assert(mid.tasks@[j] is Some ==> self.snapshot.tasks@[j] is Some);
                                if is_child_of(mid.tasks@[j], parent_id) && !slot_running(mid.tasks@[j]) {
                                    assert(self.snapshot.tasks@[j] == mid.tasks@[j]);
                                }
                            }
                        }
                        if !has_running_child(start.tasks@, parent_id) {
                            assert(slot_running(start.tasks@[index as int]) == slot_running(mid.tasks@[index as int]));
                            assert(!task_running(mid.tasks@, child.id));
                        }
                        assert forall|i: int|
                            0 <= i < mid.tasks@.len() && slot_running(#[trigger] mid.tasks@[i]) && task_target(
                                child.id,
                            )(mid.tasks@[i].unwrap()) implies child_target(parent_id)(mid.tasks@[i].unwrap()) by {
                            if i != index {
                                assert(mid.tasks@[index as int] is Some);
                            }
                        }
                        lemma_cancels_within_step(
                            start.tasks@,
                            mid.tasks@,
                            self.snapshot.tasks@,
                            child_target(parent_id),
                            task_target(child.id),
                        );
                    }
                }
            }
            index = index + 1;
        }
        proof {
            assert(trace.received() =~= old(trace).received() + trace.received().skip(old(trace).received().len() as int));
            assert forall|i: int|
                0 <= i < self.snapshot.tasks@.len() && slot_running(#[trigger] self.snapshot.tasks@[i])
                    implies !child_target(parent_id)(self.snapshot.tasks@[i].unwrap()) by {
                assert(!(is_child_of(self.snapshot.tasks@[i], parent_id) && slot_running(self.snapshot.tasks@[i])));
            }
        }
    }

    /// When the task `task_id` does not run, cancelling it changes nothing.
    proof fn lemma_nothing_cancelled(&self, task_id: TaskId)
        requires
            self.snapshot.wf(),
            !task_running(self.snapshot.tasks@, task_id),
        ensures
            cancels_exactly(self.snapshot.tasks@, self.snapshot.tasks@, task_target(task_id)),
    {
        crate::cancellation::lemma_wf_ids_ordered(self.snapshot);
        lemma_not_running_spared(self.snapshot.tasks@, task_id);
        lemma_cancels_nothing(self.snapshot.tasks@, task_target(task_id));
    }

    /// Cancels task `task_id` if it is running: first its running children (depth first,
    /// in slot order), then the task itself.
    fn cancel_if_running<T: TraceSink>(&mut self, task_id: TaskId, trace: &mut T)
        requires
            old(self).snapshot.wf(),
        ensures
            extends(old(trace).received(), final(trace).received()),
            final(self).programs == old(self).programs,
            old(self).snapshot.evolves_to(final(self).snapshot, old(self).programs.program_seq()),
            final(self).snapshot.next_task_id == old(self).snapshot.next_task_id,
            same_occupancy(old(self).snapshot.tasks@, final(self).snapshot.tasks@),
            only_cancels(old(self).snapshot.tasks@, final(self).snapshot.tasks@),
            unchanged_below(old(self).snapshot.tasks@, final(self).snapshot.tasks@, task_id.0 as int),
            !task_running(final(self).snapshot.tasks@, task_id),
            !task_running(old(self).snapshot.tasks@, task_id) ==> final(self).snapshot == old(self).snapshot,
            task_running(old(self).snapshot.tasks@, task_id) ==> lex_lt(
                final(self).snapshot.measure(old(self).programs.program_seq()),
                old(self).snapshot.measure(old(self).programs.program_seq()),
            ),
            cancels_exactly(old(self).snapshot.tasks@, final(self).snapshot.tasks@, task_target(task_id)),
            final(self).snapshot.tasks@ == cancel_task_run(old(self).snapshot.tasks@, task_id).0,
            final(trace).received() == old(trace).received() + cancel_task_run(old(self).snapshot.tasks@, task_id).1,
        decreases u32::MAX - task_id.0, 2nat,
    {
        let slot = match self.find_task_slot(task_id) {
            Some(slot) => slot,
            None => {
                proof {
                    self.lemma_nothing_cancelled(task_id);
                }
                return;
            },
        };
        let task = match self.snapshot.tasks[slot] {
            Some(task) => task,
            None => {
                proof {
                    self.lemma_nothing_cancelled(task_id);
                }
                return;
            },
        };
        if task.outcome != Outcome::Running {
            proof {
                lemma_not_running_at_slot(self.snapshot.tasks@, task_id, slot as int);
                self.lemma_nothing_cancelled(task_id);
            }
            return;
        }
        let ghost start = self.snapshot;
        proof {
            assert(task_running(start.tasks@, task_id));
        }
        let ghost before_kids = trace.received();
        self.cancel_children(task_id, trace);
        let ghost mid = self.snapshot;
        proof {
            assert(unchanged_below(start.tasks@, mid.tasks@, task_id.0 + 1));
            assert(mid.tasks@[slot as int] == start.tasks@[slot as int]);
        }
        let mut cancelled = task;
        cancelled.outcome = Outcome::Cancelled;
        cancelled.wait = WaitReason::Ready;
        self.snapshot.tasks[slot] = Some(cancelled);
        proof {
            lemma_replace_running(mid, self.snapshot, slot as int, cancelled, self.programs.program_seq());
            start.lemma_evolves_trans(mid, self.snapshot, self.programs.program_seq());
            lemma_same_occupancy_trans(start.tasks@, mid.tasks@, self.snapshot.tasks@);
            assert(only_cancels(mid.tasks@, self.snapshot.tasks@)) by {
                assert(cancelled == cancelled_record(mid.tasks@[slot as int].unwrap()));
            }
            lemma_only_cancels_trans(start.tasks@, mid.tasks@, self.snapshot.tasks@);
            assert(is_slot_of(self.snapshot.tasks@, task_id, slot as int));
            lemma_not_running_at_slot(self.snapshot.tasks@, task_id, slot as int);
            assert(self.snapshot.tasks@ == mid.tasks@.update(
                slot as int,
                Some(cancelled_record(mid.tasks@[slot as int].unwrap())),
            ));
            crate::cancellation::lemma_wf_ids_ordered(start);
            lemma_cancels_subtree(start.tasks@, mid.tasks@, self.snapshot.tasks@, slot as int, task_id);
        }
        trace.on_event(TraceEvent::TaskFinished { task: task_id, outcome: Outcome::Cancelled });
        proof {
            let k = choose|k: int| is_slot_of(start.tasks@, task_id, k);
            lemma_slot_of_unique(start.tasks@, task_id, k, slot as int);
            assert(trace.received() =~= old(trace).received() + cancel_task_run(start.tasks@, task_id).1);
        }
    }

    /// Marks the running task in `slot` finished with `outcome`, then cancels its running
    /// children.
    fn finish_task<T: TraceSink>(&mut self, slot: usize, outcome: Outcome, trace: &mut T)
        requires
            old(self).snapshot.wf(),
            slot < MAX_TASKS,
            slot_running(old(self).snapshot.tasks@[slot as int]),
            outcome != Outcome::Running,
        ensures
            extends(old(trace).received(), final(trace).received()),
            final(self).programs == old(self).programs,
            old(self).snapshot.evolves_to(final(self).snapshot, old(self).programs.program_seq()),
            lex_lt(
                final(self).snapshot.measure(old(self).programs.program_seq()),
                old(self).snapshot.measure(old(self).programs.program_seq()),
            ),
            final(self).snapshot.next_task_id == old(self).snapshot.next_task_id,
            same_occupancy(old(self).snapshot.tasks@, final(self).snapshot.tasks@),
            final(self).snapshot.tasks@[slot as int] == Some(
                TaskRecord {
                    outcome,
                    wait: WaitReason::Ready,
                    ..old(self).snapshot.tasks@[slot as int].unwrap()
                },
            ),
            !has_running_child(
                final(self).snapshot.tasks@,
                old(self).snapshot.tasks@[slot as int].unwrap().id,
            ),
            cancels_exactly(
                old(self).snapshot.tasks@.update(
                    slot as int,
                    Some(
                        TaskRecord {
                            outcome,
                            wait: WaitReason::Ready,
                            ..old(self).snapshot.tasks@[slot as int].unwrap()
                        },
                    ),
                ),
                final(self).snapshot.tasks@,
                child_target(old(self).snapshot.tasks@[slot as int].unwrap().id),
            ),
            final(trace).received() == old(trace).received().push(
                TraceEvent::TaskFinished { task: old(self).snapshot.tasks@[slot as int].unwrap().id, outcome },
            ) + cancel_children_run(
                old(self).snapshot.tasks@.update(
                    slot as int,
                    Some(
                        TaskRecord {
                            outcome,
                            wait: WaitReason::Ready,
                            ..old(self).snapshot.tasks@[slot as int].unwrap()
                        },
                    ),
                ),
                old(self).snapshot.tasks@[slot as int].unwrap().id,
                0,
                MAX_TASKS as nat,
            ).1,
    {
        let ghost start = self.snapshot;
        let mut task = match self.snapshot.tasks[slot] {
            Some(task) => task,
            None => {
                return;
            },
        };
        task.outcome = outcome;
        task.wait = WaitReason::Ready;
        self.snapshot.tasks[slot] = Some(task);
        let ghost mid = self.snapshot;
        proof {
            lemma_replace_running(start, mid, slot as int, task, self.programs.program_seq());
        }
        trace.on_event(TraceEvent::TaskFinished { task: task.id, outcome });
        self.cancel_children(task.id, trace);
        proof {
            assert(mid.tasks@ == start.tasks@.update(slot as int, Some(task)));
            start.lemma_evolves_trans(mid, self.snapshot, self.programs.program_seq());
            lemma_same_occupancy_trans(start.tasks@, mid.tasks@, self.snapshot.tasks@);
        }
    }

    /// Resolves the wait of the task in `slot` when it is over; a race or deadline that
    /// resolves cancels the tasks it no longer needs.
    #[verifier::rlimit(60)]
    #[verifier::spinoff_prover]
    fn wake_task_if_ready<H: Host, T: TraceSink>(
        &mut self,
        slot: usize,
        host: &mut H,
        trace: &mut T,
    ) -> (woke: bool)
        requires
            old(self).snapshot.wf(),
            slot < MAX_TASKS,
        ensures
            old(host).inv() ==> final(host).inv(),
            final(host).setting() == old(host).setting(),
            extends(old(trace).received(), final(trace).received()),
            final(self).programs == old(self).programs,
            old(self).snapshot.evolves_to(final(self).snapshot, old(self).programs.program_seq()),
            final(self).snapshot.next_task_id == old(self).snapshot.next_task_id,
            woke ==> lex_lt(
                final(self).snapshot.measure(old(self).programs.program_seq()),
                old(self).snapshot.measure(old(self).programs.program_seq()),
            ),
            woke ==> final(self).snapshot.tasks@[slot as int] == Some(
                TaskRecord {
                    wait: WaitReason::Ready,
                    ..old(self).snapshot.tasks@[slot as int].unwrap()
                },
            ),
            woke ==> cancels_exactly(
                old(self).snapshot.tasks@.update(
                    slot as int,
                    Some(
                        TaskRecord {
                            wait: WaitReason::Ready,
                            ..old(self).snapshot.tasks@[slot as int].unwrap()
                        },
                    ),
                ),
                final(self).snapshot.tasks@,
                wake_target(old(self).snapshot, old(self).snapshot.tasks@[slot as int].unwrap()),
            ),
            !woke ==> final(self).snapshot == old(self).snapshot,
            woke ==> task_step_at(
                old(self).snapshot,
                final(self).snapshot,
                old(self).programs.program_seq(),
                slot as int,
            ),
            !slot_running(old(self).snapshot.tasks@[slot as int]) ==> !woke,
            slot_running(old(self).snapshot.tasks@[slot as int]) ==> (wait_over(
                old(self).snapshot,
                old(self).snapshot.tasks@[slot as int].unwrap(),
            ) matches Some(over) ==> woke == over),
            wake_visit(
                old(self).snapshot,
                final(self).snapshot,
                slot as int,
                wake_answers(old(self).snapshot, slot as int, woke),
                woke,
            ),
            final(host).answers() == old(host).answers() + wake_answers(old(self).snapshot, slot as int, woke),
            !woke ==> final(trace).received() == old(trace).received(),
            woke ==> final(trace).received() == old(trace).received() + wake_run(
                old(self).snapshot,
                old(self).snapshot.tasks@[slot as int].unwrap(),
            ).1.push(
                TraceEvent::TaskWoken {
                    task: old(self).snapshot.tasks@[slot as int].unwrap().id,
                    reason: old(self).snapshot.tasks@[slot as int].unwrap().wait,
                },
            ),
            final(host).requests() == old(host).requests() + wake_requests(old(self).snapshot, slot as int),
    {
        let ghost start = self.snapshot;
        let mut task = match self.snapshot.tasks[slot] {
            Some(task) => task,
            None => {
                return false;
            },
        };
        if task.outcome != Outcome::Running {
            return false;
        }
        proof {
            assert(wait_refs_after(task.wait, task.id.0));
            lemma_cancels_nothing(start.tasks@, no_target());
        }
        let ready = match task.wait {
            WaitReason::Ready => false,
            WaitReason::Ticks { until_tick } => self.snapshot.clock >= until_tick,
            WaitReason::Signal(signal) => self.signal_pending(signal),
            WaitReason::Predicate(predicate) => host.query_ready(predicate),
            WaitReason::SignalOrTicks { signal, until_tick } => {
                self.signal_pending(signal) || self.snapshot.clock >= until_tick
            },
            WaitReason::RaceOrTicks { left, right, until_tick } => {
                if self.task_outcome(left) != Outcome::Running {
                    self.cancel_if_running(right, trace);
                    true
                } else if self.task_outcome(right) != Outcome::Running {
                    self.cancel_if_running(left, trace);
                    true
                } else if self.snapshot.clock >= until_tick {
                    self.cancel_if_running(left, trace);
                    let ghost mid = self.snapshot;
                    self.cancel_if_running(right, trace);
                    proof {
                        start.lemma_evolves_trans(mid, self.snapshot, self.programs.program_seq());
                        lemma_unchanged_below_trans(start.tasks@, mid.tasks@, self.snapshot.tasks@, task.id.0 + 1);
                        lemma_only_cancels_trans(start.tasks@, mid.tasks@, self.snapshot.tasks@);
                        lemma_cancels_trans(
                            start.tasks@,
                            mid.tasks@,
                            self.snapshot.tasks@,
                            task_target(left),
                            task_target(right),
                            pair_target(left, right),
                        );
                    }
                    true
                } else {
                    false
                }
            },
            WaitReason::Timeout { child, until_tick } => {
                if self.task_outcome(child) != Outcome::Running {
                    true
                } else if self.snapshot.clock >= until_tick {
                    self.cancel_if_running(child, trace);
                    true
                } else {
                    false
                }
            },
            WaitReason::RepeatUntilPredicate { predicate, resume_at_tick } => {
                self.snapshot.clock >= resume_at_tick && !self.has_running_children(task.id)
            },
            WaitReason::ChildrenAll => !self.has_running_children(task.id),
            WaitReason::ChildrenAny => {
                if !self.has_running_children(task.id) {
                    true
                } else if self.has_finished_children(task.id) {
                    self.cancel_children(task.id, trace);
                    true
                } else {
                    false
                }
            },
            WaitReason::Race { left, right } => {
                if self.task_outcome(left) != Outcome::Running {
                    self.cancel_if_running(right, trace);
                    true
                } else if self.task_outcome(right) != Outcome::Running {
                    self.cancel_if_running(left, trace);
                    true
                } else {
                    false
                }
            },
        };
        proof {
            if ready {
                assert(trace.received() =~= old(trace).received() + wake_run(start, task).1);
            } else {
                assert(trace.received() =~= old(trace).received());
            }
            if task.wait is Predicate {
                assert(host.answers() =~= old(host).answers() + seq![ready]);
                assert(host.requests() =~= old(host).requests() + wake_requests(start, slot as int));
            } else {
                assert(host.answers() =~= old(host).answers() + Seq::<bool>::empty());
                assert(host.requests() =~= old(host).requests() + Seq::<HostRequest>::empty());
            }
        }
        if !ready {
            return false;
        }
        let ghost mid = self.snapshot;
        proof {
            assert(cancels_exactly(start.tasks@, mid.tasks@, wake_target(start, task)));
            assert(unchanged_below(start.tasks@, mid.tasks@, task.id.0 + 1));
            assert(mid.tasks@[slot as int] == start.tasks@[slot as int]);
            if mid == start {
                assert(only_cancels(start.tasks@, mid.tasks@));
            }
            assert(only_cancels(start.tasks@, mid.tasks@));
        }
        let reason = task.wait;
        task.wait = WaitReason::Ready;
        self.snapshot.tasks[slot] = Some(task);
        proof {
            lemma_replace_running(mid, self.snapshot, slot as int, task, self.programs.program_seq());
            start.lemma_evolves_trans(mid, self.snapshot, self.programs.program_seq());
        }
        proof {
            let woken = TaskRecord { wait: WaitReason::Ready, ..start.tasks@[slot as int].unwrap() };
            assert(task == woken);
            assert(start.tasks@[slot as int].unwrap().parent is Some ==> start.tasks@[slot as int].unwrap().parent.unwrap().0
                < task.id.0);
            assert(!wake_target(start, start.tasks@[slot as int].unwrap())(woken));
            lemma_cancels_update(start.tasks@, mid.tasks@, wake_target(start, start.tasks@[slot as int].unwrap()), slot as int, woken);
            assert(self.snapshot.tasks@ == mid.tasks@.update(slot as int, Some(woken)));
            assert forall|i: int| 0 <= i < start.tasks@.len() implies #[trigger] self.snapshot.tasks@[i]
                == start.tasks@.update(slot as int, Some(woken))[i] || (slot_running(
                start.tasks@.update(slot as int, Some(woken))[i],
            ) && self.snapshot.tasks@[i] == Some(
                cancelled_record(start.tasks@.update(slot as int, Some(woken))[i].unwrap()),
            )) by {
                if i != slot {
                    assert(mid.tasks@[i] == start.tasks@[i] || (slot_running(start.tasks@[i])
                        && mid.tasks@[i] == Some(cancelled_record(start.tasks@[i].unwrap()))));
                }
            }
        }
        trace.on_event(TraceEvent::TaskWoken { task: task.id, reason });
        true
    }

    /// Replaces the record of the running task in `slot` by `task` (same identity).
    fn store_task(&mut self, slot: usize, task: TaskRecord)
        requires
            old(self).snapshot.wf(),
            slot < MAX_TASKS,
            slot_running(old(self).snapshot.tasks@[slot as int]),
            task.id == old(self).snapshot.tasks@[slot as int].unwrap().id,
            task.program_id == old(self).snapshot.tasks@[slot as int].unwrap().program_id,
            task.parent == old(self).snapshot.tasks@[slot as int].unwrap().parent,
            task.scope_root == old(self).snapshot.tasks@[slot as int].unwrap().scope_root,
            is_running(task),
            wait_refs_after(task.wait, task.id.0),
        ensures
            final(self).programs == old(self).programs,
            final(self).snapshot.tasks@ == old(self).snapshot.tasks@.update(slot as int, Some(task)),
            final(self).snapshot.next_task_id == old(self).snapshot.next_task_id,
            final(self).snapshot.clock == old(self).snapshot.clock,
            final(self).snapshot.pending_signals == old(self).snapshot.pending_signals,
            final(self).snapshot.wf(),
            keeps_history(old(self).snapshot.tasks@, final(self).snapshot.tasks@),
            free_slot_count(final(self).snapshot.tasks@) == free_slot_count(old(self).snapshot.tasks@),
            task_weight(Some(task), old(self).programs.program_seq()) < task_weight(
                old(self).snapshot.tasks@[slot as int],
                old(self).programs.program_seq(),
            ) ==> old(self).snapshot.evolves_to(final(self).snapshot, old(self).programs.program_seq())
                && lex_lt(
                final(self).snapshot.measure(old(self).programs.program_seq()),
                old(self).snapshot.measure(old(self).programs.program_seq()),
            ),
    {
        let ghost before = self.snapshot;
        self.snapshot.tasks[slot] = Some(task);
        proof {
            lemma_replace_running(before, self.snapshot, slot as int, task, self.programs.program_seq());
        }
    }

    proof fn lemma_no_steps(&self, report: StepReport)
        ensures
            reaches(self.snapshot, self.snapshot, self.programs.program_seq(), 0, 0),
            report.actions_emitted == add_capped(report.actions_emitted, 0),
    {
        lemma_add_capped(report.actions_emitted, 0, 0);
    }

    /// A visit that does not run the task changes nothing.
    proof fn lemma_no_visit(
        &self,
        slot: usize,
        report: StepReport,
        answers: Seq<bool>,
        requests: Seq<Effect>,
        res: Result<bool, RuntimeError>,
    )
        requires
            res == Ok::<bool, RuntimeError>(false),
            slot < MAX_TASKS,
            !(slot_running(self.snapshot.tasks@[slot as int]) && self.snapshot.tasks@[slot as int].unwrap().wait is Ready)
                && answers.len() == 0 && requests.len() == 0 || (slot_running(self.snapshot.tasks@[slot as int])
                && self.snapshot.tasks@[slot as int].unwrap().wait is Ready && answers == seq![false] && requests
                == seq![Effect::Request(HostRequest::MindActive(self.snapshot.tasks@[slot as int].unwrap().mind_id))]),
        ensures
            run_visit(
                self.snapshot,
                self.snapshot,
                self.programs.program_seq(),
                slot as int,
                answers,
                requests,
                took_steps(res),
                unit_result(res),
            ),
            action_count(requests) == 0,
            host_part(requests) == if requests.len() == 0 {
                Seq::<HostRequest>::empty()
            } else {
                seq![HostRequest::MindActive(self.snapshot.tasks@[slot as int].unwrap().mind_id)]
            },
            trace_part(requests) == Seq::<TraceEvent>::empty(),
            report.actions_emitted == add_capped(report.actions_emitted, action_count(requests)),
            reaches(self.snapshot, self.snapshot, self.programs.program_seq(), 0, action_count(requests)),
    {
        lemma_add_capped(report.actions_emitted, 0, 0);
        reveal_with_fuel(action_count, 2);
        reveal_with_fuel(host_part, 2);
        reveal_with_fuel(trace_part, 2);
        if requests.len() == 1 {
            assert(requests.drop_last() =~= Seq::<Effect>::empty());
            assert(host_part(requests) =~= seq![HostRequest::MindActive(self.snapshot.tasks@[slot as int].unwrap().mind_id)]);
        }
    }

    /// The step of `op` from `a` that did not let the task go on ends its run.
    proof fn lemma_last_step(
        &self,
        a: RuntimeSnapshot<MAX_TASKS, MAX_PENDING_SIGNALS>,
        slot: int,
        op: Op,
        answer: bool,
        r: Result<bool, RuntimeError>,
    )
        requires
            0 <= slot < MAX_TASKS,
            a.tasks@[slot] is Some,
            (a.tasks@[slot].unwrap().ip as nat) < op_len(self.programs.program_seq(), a.tasks@[slot].unwrap().program_id),
            op == current_op(self.programs.program_seq(), a.tasks@[slot].unwrap()),
            executed(op, slot, a.tasks@[slot].unwrap(), a, self.snapshot, self.programs.program_seq(), r, answer),
            r != Ok::<bool, RuntimeError>(true),
            self.snapshot.wf(),
        ensures
            run_ends(
                a,
                self.snapshot,
                self.programs.program_seq(),
                slot,
                asked_seq(op, answer),
                op_log(op, slot, a.tasks@[slot].unwrap(), a, self.programs.program_seq(), answer, r),
                unit_result(r),
            ),
    {
        let extra = asked_seq(op, answer);
        if !asks_host(op) {
            lemma_executed_ignores_answer(
                op,
                slot,
                a.tasks@[slot].unwrap(),
                a,
                self.snapshot,
                self.programs.program_seq(),
                r,
                answer,
                extra[0],
            );
        }
        if !asks_host(op) {
            crate::schedule::lemma_op_log_ignores_answer(
                op,
                slot,
                a.tasks@[slot].unwrap(),
                a,
                self.programs.program_seq(),
                answer,
                extra[0],
                r,
            );
        }
        assert(executed(op, slot, a.tasks@[slot].unwrap(), a, self.snapshot, self.programs.program_seq(), r, extra[0]));
    }

    /// Runs the task in `slot` while it is running, ready and on an active mind, until it
    /// waits, changes mind or finishes.
    #[verifier::rlimit(60)]
    #[verifier::spinoff_prover]
    fn run_task<H: Host, T: TraceSink>(
        &mut self,
        slot: usize,
        host: &mut H,
        report: &mut StepReport,
        trace: &mut T,
    ) -> (r: Result<bool, RuntimeError>)
        requires
            old(self).snapshot.wf(),
            slot < MAX_TASKS,
        ensures
            old(host).inv() ==> final(host).inv(),
            final(host).setting() == old(host).setting(),
            extends(old(trace).received(), final(trace).received()),
            final(self).programs == old(self).programs,
            old(self).snapshot.evolves_to(final(self).snapshot, old(self).programs.program_seq()),
            r == Ok::<bool, RuntimeError>(true) ==> lex_lt(
                final(self).snapshot.measure(old(self).programs.program_seq()),
                old(self).snapshot.measure(old(self).programs.program_seq()),
            ),
            r == Ok::<bool, RuntimeError>(false) ==> final(self).snapshot == old(self).snapshot,
            r matches Err(e) ==> e != RuntimeError::SignalQueueFull,
            final(report).clock == old(report).clock,
            final(report).progress_made == old(report).progress_made,
            !(slot_running(old(self).snapshot.tasks@[slot as int]) && old(
                self,
            ).snapshot.tasks@[slot as int].unwrap().wait is Ready) ==> r == Ok::<
                bool,
                RuntimeError,
            >(false),
            exists|answers: Seq<bool>, requests: Seq<Effect>|
                #[trigger] run_visit(
                    old(self).snapshot,
                    final(self).snapshot,
                    old(self).programs.program_seq(),
                    slot as int,
                    answers,
                    requests,
                    took_steps(r),
                    unit_result(r),
                ) && final(host).answers() == old(host).answers() + answers && final(host).requests()
                    == old(host).requests() + host_part(requests) && final(trace).received() == old(
                    trace,
                ).received() + trace_part(requests) && (r is Ok ==> final(report).actions_emitted
                    == add_capped(old(report).actions_emitted, action_count(requests)) && exists|n: nat|
                    #[trigger] reaches(
                        old(self).snapshot,
                        final(self).snapshot,
                        old(self).programs.program_seq(),
                        n,
                        action_count(requests),
                    ) && (took_steps(r) <==> n > 0)),
    {
        let task0 = match self.snapshot.tasks[slot] {
            Some(task) => task,
            None => {
                proof {
                    self.lemma_no_steps(*report);
                    self.lemma_no_visit(slot, *report, Seq::empty(), Seq::empty(), Ok(false));
                    assert(host.answers() =~= old(host).answers() + Seq::<bool>::empty());
                    assert(host.requests() =~= old(host).requests() + Seq::<HostRequest>::empty());
                    assert(trace.received() =~= old(trace).received() + Seq::<TraceEvent>::empty());
                }
                return Ok(false);
            },
        };
        if task0.outcome != Outcome::Running {
            proof {
                self.lemma_no_steps(*report);
                self.lemma_no_visit(slot, *report, Seq::empty(), Seq::empty(), Ok(false));
                assert(host.answers() =~= old(host).answers() + Seq::<bool>::empty());
                assert(host.requests() =~= old(host).requests() + Seq::<HostRequest>::empty());
                assert(trace.received() =~= old(trace).received() + Seq::<TraceEvent>::empty());
            }
            return Ok(false);
        }
        match task0.wait {
            WaitReason::Ready => {},
            _ => {
                proof {
                    self.lemma_no_steps(*report);
                    self.lemma_no_visit(slot, *report, Seq::empty(), Seq::empty(), Ok(false));
                    assert(host.answers() =~= old(host).answers() + Seq::<bool>::empty());
                    assert(host.requests() =~= old(host).requests() + Seq::<HostRequest>::empty());
                    assert(trace.received() =~= old(trace).received() + Seq::<TraceEvent>::empty());
                }
                return Ok(false);
            },
        }
        let active = host.is_mind_active(task0.mind_id);
        let ghost mind_ask = seq![Effect::Request(HostRequest::MindActive(task0.mind_id))];
        proof {
            reveal_with_fuel(host_part, 2);
            reveal_with_fuel(trace_part, 2);
            reveal_with_fuel(action_count, 2);
            assert(mind_ask.drop_last() =~= Seq::<Effect>::empty());
            assert(host_part(mind_ask) =~= seq![HostRequest::MindActive(task0.mind_id)]);
            assert(trace_part(mind_ask) =~= Seq::<TraceEvent>::empty());
            assert(action_count(mind_ask) == 0);
            assert(host.requests() =~= old(host).requests() + host_part(mind_ask));
            assert(trace.received() =~= old(trace).received() + trace_part(mind_ask));
        }
        if !active {
            proof {
                self.lemma_no_steps(*report);
                self.lemma_no_visit(slot, *report, seq![false], mind_ask, Ok(false));
                assert(host.answers() =~= old(host).answers() + seq![false]);
            }
            return Ok(false);
        }
        let program = match self.programs.get(task0.program_id) {
            Some(program) => program,
            None => {
                proof {
                    assert(host.answers() =~= old(host).answers() + seq![true]);
                    assert(run_visit(
                        self.snapshot,
                        self.snapshot,
                        self.programs.program_seq(),
                        slot as int,
                        seq![true],
                        mind_ask,
                        took_steps(Err(RuntimeError::ProgramNotFound(task0.program_id))),
                        unit_result(Err(RuntimeError::ProgramNotFound(task0.program_id))),
                    ));
                }
                return Err(RuntimeError::ProgramNotFound(task0.program_id));
            },
        };
        let ops = program.ops;
        let ghost start = self.snapshot;
        let ghost progs = self.programs.program_seq();
        proof {
            lemma_find_program_from(progs, task0.program_id, 0);
        }
        let mut progress = false;
        let ghost mut steps: nat = 0;
        let ghost mut actions: nat = 0;
        let ghost report_start = report.actions_emitted;
        let ghost mut asks: Seq<bool> = Seq::empty();
        let ghost mut told: Seq<Effect> = Seq::empty();
        proof {
            assert(reaches(start, self.snapshot, progs, 0, 0));
            assert(ran_on(start, self.snapshot, progs, slot as int, asks, 0, told));
            lemma_add_capped(report_start, 0, 0);
            assert(host.answers() =~= old(host).answers() + seq![true] + asks);
            assert(mind_ask + told =~= mind_ask);
        }
        loop
            invariant
                self.snapshot.wf(),
                self.programs == old(self).programs,
                progs == self.programs.program_seq(),
                start == old(self).snapshot,
                extends(old(trace).received(), trace.received()),
                old(host).inv() ==> host.inv(),
                host.setting() == old(host).setting(),
                reaches(start, self.snapshot, progs, steps, actions),
                ran_on(start, self.snapshot, progs, slot as int, asks, steps, told),
                actions == action_count(mind_ask + told),
                host.answers() == old(host).answers() + seq![true] + asks,
                host.requests() == old(host).requests() + host_part(mind_ask + told),
                trace.received() == old(trace).received() + trace_part(mind_ask + told),
                mind_ask == seq![Effect::Request(HostRequest::MindActive(start.tasks@[slot as int].unwrap().mind_id))],
                start.tasks@[slot as int].unwrap().program_id == task0.program_id,
                report_start == old(report).actions_emitted,
                report.actions_emitted == add_capped(report_start, actions),
                progress <==> steps > 0,
                find_program(progs, task0.program_id) is Some,
                0 <= find_program(progs, task0.program_id).unwrap() < progs.len(),
                ops@ == progs[find_program(progs, task0.program_id).unwrap()].ops@,
                start.evolves_to(self.snapshot, progs),
                progress ==> lex_lt(self.snapshot.measure(progs), start.measure(progs)),
                !progress ==> self.snapshot == start,
                slot < MAX_TASKS,
                slot_running(self.snapshot.tasks@[slot as int]),
                self.snapshot.tasks@[slot as int].unwrap().wait is Ready,
                self.snapshot.tasks@[slot as int].unwrap().id == task0.id,
                self.snapshot.tasks@[slot as int].unwrap().program_id == task0.program_id,
                self.snapshot.tasks@[slot as int].unwrap().parent == task0.parent,
                self.snapshot.tasks@[slot as int].unwrap().scope_root == task0.scope_root,
                self.snapshot.tasks@[slot as int].unwrap().mind_id == task0.mind_id,
                op_len(progs, task0.program_id) == ops@.len(),
                slot_running(start.tasks@[slot as int]),
                start.tasks@[slot as int].unwrap().wait is Ready,
                report.clock == old(report).clock,
                report.progress_made == old(report).progress_made,
            decreases ops@.len() - self.snapshot.tasks@[slot as int].unwrap().ip,
        {
            let mut task = match self.snapshot.tasks[slot] {
                Some(task) => task,
                None => {
                    return Ok(progress);
                },
            };
            if task.ip >= ops.len() {
                let ghost current = self.snapshot;
                let ghost tr_before = trace.received();
                self.finish_task(slot, Outcome::Succeeded, trace);
                proof {
                    start.lemma_evolves_trans(current, self.snapshot, progs);
                    assert(task_step_at(current, self.snapshot, progs, slot as int));
                    lemma_reaches_step(current, self.snapshot, progs, slot as int);
                    assert(actions_of_step(current, progs, slot as int) == 0);
                    lemma_reaches_trans(start, current, self.snapshot, progs, steps, 1, actions, 0);
                    assert(reaches(start, self.snapshot, progs, steps + 1, actions));
                    let fin = events_of(finish_events(current, slot as int, current.tasks@[slot as int].unwrap(), Outcome::Succeeded));
                    assert(run_ends(current, self.snapshot, progs, slot as int, Seq::empty(), fin, Ok(())));
                    lemma_run_visit_done(start, current, self.snapshot, progs, slot as int, asks, steps, told, Seq::empty(), fin, Ok(()), Ok(true));
                    lemma_events_parts(finish_events(current, slot as int, current.tasks@[slot as int].unwrap(), Outcome::Succeeded));
                    lemma_parts_add(mind_ask + told, fin);
                    assert(old(host).answers() + seq![true] + asks =~= old(host).answers() + (seq![true] + asks + Seq::<bool>::empty()));
                    assert(trace.received() =~= tr_before + finish_events(current, slot as int, current.tasks@[slot as int].unwrap(), Outcome::Succeeded));
                    assert(host.requests() =~= old(host).requests() + host_part(mind_ask + told + fin));
                    assert(trace.received() =~= old(trace).received() + trace_part(mind_ask + told + fin));
                }
                return Ok(true);
            }
            let ghost before = self.snapshot;
            let op = ops[task.ip];
            let ghost ans_before = host.answers();
            let ghost req_before = host.requests();
            let ghost tr_before = trace.received();
            let answer = match op {
                Op::BranchPredicate(predicate, _, _) => host.query_ready(predicate),
                Op::RepeatUntilPredicate(predicate, _) => host.query_ready(predicate),
                _ => false,
            };
            proof {
                assert(host.answers() =~= ans_before + asked_seq(op, answer));
                assert(host.requests() =~= req_before + if asks_host(op) {
                    op_requests(op, task)
                } else {
                    Seq::<HostRequest>::empty()
                });
            }
            let r = self.exec_op(slot, task, op, answer, host, report, trace);
            let ghost log = op_log(op, slot as int, task, before, progs, answer, r);
            proof {
                lemma_logs_after_op(
                    old(host).requests(),
                    old(trace).received(),
                    mind_ask,
                    told,
                    op,
                    slot as int,
                    task,
                    before,
                    progs,
                    answer,
                    r,
                    host.requests(),
                    trace.received(),
                );
                assert(host.answers() =~= old(host).answers() + seq![true] + (asks + asked_seq(op, answer)));
                assert(host.answers() =~= old(host).answers() + (seq![true] + asks + asked_seq(op, answer)));
                assert(mind_ask + told + log =~= mind_ask + (told + log));
            }
            let proceed = match r {
                Ok(proceed) => proceed,
                Err(e) => {
                    proof {
                        start.lemma_evolves_trans(before, self.snapshot, progs);
                        assert(current_op(progs, task) == op);
                        self.lemma_last_step(before, slot as int, op, answer, Err(e));
                        lemma_run_visit_done(
                            start,
                            before,
                            self.snapshot,
                            progs,
                            slot as int,
                            asks,
                            steps,
                            told,
                            asked_seq(op, answer),
                            log,
                            Err(e),
                            Err(e),
                        );
                    }
                    return Err(e);
                },
            };
            proof {
                start.lemma_evolves_trans(before, self.snapshot, progs);
                assert(current_op(progs, task) == op);
                assert(task_step_at(before, self.snapshot, progs, slot as int));
                lemma_reaches_step(before, self.snapshot, progs, slot as int);
                let k = actions_of_step(before, progs, slot as int);
                assert(k == if op is Action { 1nat } else { 0nat });
                lemma_reaches_trans(start, before, self.snapshot, progs, steps, 1, actions, k);
                lemma_add_capped(report_start, actions, k);
                if proceed {
                    lemma_ran_on_extend(start, before, self.snapshot, progs, slot as int, asks, steps, told, answer);
                } else {
                    self.lemma_last_step(before, slot as int, op, answer, Ok(false));
                    lemma_run_visit_done(
                        start,
                        before,
                        self.snapshot,
                        progs,
                        slot as int,
                        asks,
                        steps,
                        told,
                        asked_seq(op, answer),
                        log,
                        Ok(()),
                        Ok(true),
                    );
                }
                asks = asks + asked_seq(op, answer);
                told = told + log;
                steps = steps + 1;
                actions = actions + k;
            }
            if !proceed {
                return Ok(true);
            }
            progress = true;
        }
    }

    /// Executes `op`, the current op of the running, ready task in `slot` (whose record
    /// is `task`). `Ok(true)`: the task moved past an op that lets it go on at once;
    /// `Ok(false)`: it waits, changed mind, or finished.
    #[verifier::rlimit(60)]
    #[verifier::spinoff_prover]
    fn exec_op<H: Host, T: TraceSink>(
        &mut self,
        slot: usize,
        task: TaskRecord,
        op: Op,
        answer: bool,
        host: &mut H,
        report: &mut StepReport,
        trace: &mut T,
    ) -> (r: Result<bool, RuntimeError>)
        requires
            old(self).snapshot.wf(),
            slot < MAX_TASKS,
            old(self).snapshot.tasks@[slot as int] == Some(task),
            is_running(task),
            task.wait is Ready,
            (task.ip as nat) < op_len(old(self).programs.program_seq(), task.program_id),
            task.ip < usize::MAX,
        ensures
            old(host).inv() ==> final(host).inv(),
            final(host).setting() == old(host).setting(),
            extends(old(trace).received(), final(trace).received()),
            final(self).programs == old(self).programs,
            old(self).snapshot.evolves_to(final(self).snapshot, old(self).programs.program_seq()),
            r is Ok ==> lex_lt(
                final(self).snapshot.measure(old(self).programs.program_seq()),
                old(self).snapshot.measure(old(self).programs.program_seq()),
            ),
            r matches Err(e) ==> e != RuntimeError::SignalQueueFull,
            r == Ok::<bool, RuntimeError>(true) ==> final(self).snapshot.tasks@[slot as int] == Some(
                TaskRecord { ip: (task.ip + 1) as usize, ..task },
            ),
            executed(
                op,
                slot as int,
                task,
                old(self).snapshot,
                final(self).snapshot,
                old(self).programs.program_seq(),
                r,
                answer,
            ),
            final(report).clock == old(report).clock,
            final(report).progress_made == old(report).progress_made,
            final(report).actions_emitted == add_capped(
                old(report).actions_emitted,
                if op is Action {
                    1nat
                } else {
                    0nat
                },
            ),
            final(host).answers() == old(host).answers(),
            final(host).requests() == old(host).requests() + if asks_host(op) {
                Seq::empty()
            } else {
                op_requests(op, task)
            },
            final(trace).received() == old(trace).received() + op_events(
                op,
                slot as int,
                task,
                old(self).snapshot,
                old(self).programs.program_seq(),
                answer,
                r,
            ),
    {
        let ghost start = self.snapshot;
        let ghost before = self.snapshot;
        let ghost progs = self.programs.program_seq();
        let ghost old_task = task;
        let mut task = task;
        proof {
            start.lemma_evolves_refl(progs);
        }
        match op {
            Op::Action(action) => {
                host.on_action(task.id, action);
                trace.on_event(TraceEvent::ActionEmitted { task: task.id, action });
                report.actions_emitted = report.actions_emitted.saturating_add(1);
                task.ip = task.ip + 1;
                self.store_task(slot, task);
                proof {
                    start.lemma_evolves_trans(before, self.snapshot, progs);
                }
                return Ok(true);
            },
            Op::Call(call) => {
                host.on_call(task.id, call);
                trace.on_event(TraceEvent::CallEmitted { task: task.id, call });
                task.ip = task.ip + 1;
                self.store_task(slot, task);
                proof {
                    start.lemma_evolves_trans(before, self.snapshot, progs);
                }
                return Ok(true);
            },
            Op::ChangeMind(mind) => {
                let from = task.mind_id;
                task.mind_id = mind;
                task.ip = task.ip + 1;
                self.store_task(slot, task);
                proof {
                    start.lemma_evolves_trans(before, self.snapshot, progs);
                }
                trace.on_event(TraceEvent::TaskMindChanged { task: task.id, from, to: mind });
                return Ok(false);
            },
            Op::RepeatUntilPredicate(predicate, program_id) => {
                if answer {
                    task.ip = task.ip + 1;
                    self.store_task(slot, task);
                    proof {
                        start.lemma_evolves_trans(before, self.snapshot, progs);
                    }
                    return Ok(true);
                } else {
                    match self.spawn_task(
                        program_id,
                        Some(task.id),
                        Some(task.scope_root),
                        task.mind_id,
                        trace,
                    ) {
                        Ok(_) => {},
                        Err(e) => {
                            return Err(e);
                        },
                    }
                    let ghost spawned = self.snapshot;
                    task.wait = WaitReason::RepeatUntilPredicate {
                        predicate,
                        resume_at_tick: self.snapshot.clock.saturating_add(1),
                    };
                    self.store_task(slot, task);
                    proof {
                        lemma_chain_after_spawn(before, spawned, self.snapshot, progs);
                        start.lemma_evolves_trans(before, self.snapshot, progs);
                        let k = choose|k: int|
                            is_first_free(start.tasks@, k) && spawned.tasks@ == start.tasks@.update(
                                k,
                                Some(spawned_record(next_id(start, 1), program_id, task.mind_id, Some(task.id), Some(task.scope_root))),
                            );
                        assert(k != slot);
                        assert(self.snapshot.tasks@ =~= start.tasks@.update(slot as int, Some(task)).update(
                            k,
                            Some(child_record(task, next_id(start, 1), program_id)),
                        ));
                        assert(spawn_executed(start, self.snapshot, progs, slot as int, task, program_id, false, None, Ok::<bool, RuntimeError>(false)));
                    }
                    trace.on_event(TraceEvent::TaskWaiting { task: task.id, reason: task.wait });
                    return Ok(false);
                }
            },
            Op::WaitUntilTick(until_tick) => {
                task.ip = task.ip + 1;
                task.wait = WaitReason::Ticks { until_tick };
                let r = self.park(slot, task, trace);
                proof {
                    start.lemma_evolves_trans(before, self.snapshot, progs);
                }
                return match r {
                    Ok(()) => Ok(false),
                    Err(e) => Err(e),
                };
            },
            Op::WaitSignalUntilTick(signal, until_tick) => {
                task.ip = task.ip + 1;
                task.wait = WaitReason::SignalOrTicks { signal, until_tick };
                let r = self.park(slot, task, trace);
                proof {
                    start.lemma_evolves_trans(before, self.snapshot, progs);
                }
                return match r {
                    Ok(()) => Ok(false),
                    Err(e) => Err(e),
                };
            },
            Op::TimeoutUntilTick(until_tick, program_id) => {
                task.ip = task.ip + 1;
                if self.snapshot.clock >= until_tick {
                    self.store_task(slot, task);
                    proof {
                        start.lemma_evolves_trans(before, self.snapshot, progs);
                    }
                    return Ok(true);
                } else {
                    let r = self.start_timeout(slot, task, program_id, until_tick, trace);
                    proof {
                        start.lemma_evolves_trans(before, self.snapshot, progs);
                    }
                    return match r {
                    Ok(()) => Ok(false),
                    Err(e) => Err(e),
                };
                }
            },
            Op::RaceChildrenUntilTick(left, right, until_tick) => {
                if self.snapshot.clock >= until_tick {
                    task.ip = task.ip + 1;
                    self.store_task(slot, task);
                    proof {
                        start.lemma_evolves_trans(before, self.snapshot, progs);
                    }
                    return Ok(true);
                } else {
                    let r = self.start_race(slot, task, left, right, Some(until_tick), trace);
                    proof {
                        start.lemma_evolves_trans(before, self.snapshot, progs);
                    }
                    return match r {
                    Ok(()) => Ok(false),
                    Err(e) => Err(e),
                };
                }
            },
            Op::RaceChildrenOrTicks(left, right, ticks) => {
                let until_tick = self.snapshot.clock.saturating_add(ticks as u64);
                if self.snapshot.clock >= until_tick {
                    task.ip = task.ip + 1;
                    self.store_task(slot, task);
                    proof {
                        start.lemma_evolves_trans(before, self.snapshot, progs);
                    }
                    return Ok(true);
                } else {
                    let r = self.start_race(slot, task, left, right, Some(until_tick), trace);
                    proof {
                        start.lemma_evolves_trans(before, self.snapshot, progs);
                    }
                    return match r {
                    Ok(()) => Ok(false),
                    Err(e) => Err(e),
                };
                }
            },
            Op::TimeoutTicks(ticks, program_id) => {
                let until_tick = self.snapshot.clock.saturating_add(ticks as u64);
                task.ip = task.ip + 1;
                if self.snapshot.clock >= until_tick {
                    self.store_task(slot, task);
                    proof {
                        start.lemma_evolves_trans(before, self.snapshot, progs);
                    }
                    return Ok(true);
                } else {
                    let r = self.start_timeout(slot, task, program_id, until_tick, trace);
                    proof {
                        start.lemma_evolves_trans(before, self.snapshot, progs);
                    }
                    return match r {
                    Ok(()) => Ok(false),
                    Err(e) => Err(e),
                };
                }
            },
            Op::WaitSignalOrTicks(signal, ticks) => {
                task.ip = task.ip + 1;
                task.wait = WaitReason::SignalOrTicks {
                    signal,
                    until_tick: self.snapshot.clock.saturating_add(ticks as u64),
                };
                let r = self.park(slot, task, trace);
                proof {
                    start.lemma_evolves_trans(before, self.snapshot, progs);
                }
                return match r {
                    Ok(()) => Ok(false),
                    Err(e) => Err(e),
                };
            },
            Op::WaitTicks(ticks) => {
                task.ip = task.ip + 1;
                task.wait = WaitReason::Ticks {
                    until_tick: self.snapshot.clock.saturating_add(ticks as u64),
                };
                let r = self.park(slot, task, trace);
                proof {
                    start.lemma_evolves_trans(before, self.snapshot, progs);
                }
                return match r {
                    Ok(()) => Ok(false),
                    Err(e) => Err(e),
                };
            },
            Op::WaitSignal(signal) => {
                task.ip = task.ip + 1;
                task.wait = WaitReason::Signal(signal);
                let r = self.park(slot, task, trace);
                proof {
                    start.lemma_evolves_trans(before, self.snapshot, progs);
                }
                return match r {
                    Ok(()) => Ok(false),
                    Err(e) => Err(e),
                };
            },
            Op::WaitPredicate(predicate) => {
                task.ip = task.ip + 1;
                task.wait = WaitReason::Predicate(predicate);
                let r = self.park(slot, task, trace);
                proof {
                    start.lemma_evolves_trans(before, self.snapshot, progs);
                }
                return match r {
                    Ok(()) => Ok(false),
                    Err(e) => Err(e),
                };
            },
            Op::Spawn(program_id) => {
                task.ip = task.ip + 1;
                self.store_task(slot, task);
                let ghost stored = self.snapshot;
                proof {
                    start.lemma_evolves_trans(before, stored, progs);
                    lemma_store_keeps_free(start.tasks@, slot as int, task);
                }
                match self.spawn_task(
                    program_id,
                    Some(task.id),
                    Some(task.scope_root),
                    task.mind_id,
                    trace,
                ) {
                    Ok(_) => {},
                    Err(e) => {
                        return Err(e);
                    },
                }
                proof {
                    start.lemma_evolves_trans(stored, self.snapshot, progs);
                    let k = choose|k: int|
                        is_first_free(stored.tasks@, k) && self.snapshot.tasks@ == stored.tasks@.update(
                            k,
                            Some(spawned_record(next_id(start, 1), program_id, task.mind_id, Some(task.id), Some(task.scope_root))),
                        );
                    assert(self.snapshot.tasks@ =~= start.tasks@.update(slot as int, Some(task)).update(
                        k,
                        Some(child_record(task, next_id(start, 1), program_id)),
                    ));
                }
                return Ok(true);
            },
            Op::BranchPredicate(predicate, if_true, if_false) => {
                let chosen = if answer {
                    if_true
                } else {
                    if_false
                };
                task.ip = task.ip + 1;
                self.store_task(slot, task);
                let ghost stored = self.snapshot;
                proof {
                    start.lemma_evolves_trans(before, stored, progs);
                    lemma_store_keeps_free(start.tasks@, slot as int, task);
                }
                match self.spawn_task(
                    chosen,
                    Some(task.id),
                    Some(task.scope_root),
                    task.mind_id,
                    trace,
                ) {
                    Ok(_) => {},
                    Err(e) => {
                        proof {
                            assert(branch_executed(start, self.snapshot, progs, slot as int, old_task, chosen, Err::<bool, RuntimeError>(e)));
                        }
                        return Err(e);
                    },
                }
                let ghost spawned = self.snapshot;
                task.wait = WaitReason::ChildrenAll;
                self.store_task(slot, task);
                proof {
                    lemma_chain_after_spawn(stored, spawned, self.snapshot, progs);
                    start.lemma_evolves_trans(stored, self.snapshot, progs);
                    let k = choose|k: int|
                        is_first_free(stored.tasks@, k) && spawned.tasks@ == stored.tasks@.update(
                            k,
                            Some(spawned_record(next_id(start, 1), chosen, task.mind_id, Some(task.id), Some(task.scope_root))),
                        );
                    assert(k != slot);
                    assert(self.snapshot.tasks@ =~= start.tasks@.update(slot as int, Some(task)).update(
                        k,
                        Some(child_record(task, next_id(start, 1), chosen)),
                    ));
                    assert(branch_executed(start, self.snapshot, progs, slot as int, old_task, chosen, Ok::<bool, RuntimeError>(false)));
                }
                trace.on_event(TraceEvent::TaskWaiting { task: task.id, reason: task.wait });
                return Ok(false);
            },
            Op::JoinChildren => {
                task.ip = task.ip + 1;
                if self.has_running_children(task.id) {
                    task.wait = WaitReason::ChildrenAll;
                    let r = self.park(slot, task, trace);
                proof {
                    start.lemma_evolves_trans(before, self.snapshot, progs);
                }
                return match r {
                    Ok(()) => Ok(false),
                    Err(e) => Err(e),
                };
                }
                self.store_task(slot, task);
                proof {
                    start.lemma_evolves_trans(before, self.snapshot, progs);
                }
                return Ok(true);
            },
            Op::JoinAnyChildren => {
                task.ip = task.ip + 1;
                if self.has_running_children(task.id) {
                    task.wait = WaitReason::ChildrenAny;
                    let r = self.park(slot, task, trace);
                proof {
                    start.lemma_evolves_trans(before, self.snapshot, progs);
                }
                return match r {
                    Ok(()) => Ok(false),
                    Err(e) => Err(e),
                };
                }
                self.store_task(slot, task);
                proof {
                    start.lemma_evolves_trans(before, self.snapshot, progs);
                }
                return Ok(true);
            },
            Op::Race2(left, right) => {
                let r = self.start_race(slot, task, left, right, None, trace);
                    proof {
                        start.lemma_evolves_trans(before, self.snapshot, progs);
                    }
                    return match r {
                    Ok(()) => Ok(false),
                    Err(e) => Err(e),
                };
            },
            Op::Succeed => {
                self.finish_task(slot, Outcome::Succeeded, trace);
                proof {
                    start.lemma_evolves_trans(before, self.snapshot, progs);
                }
                return Ok(false);
            },
            Op::Fail => {
                self.finish_task(slot, Outcome::Failed, trace);
                proof {
                    start.lemma_evolves_trans(before, self.snapshot, progs);
                }
                return Ok(false);
            },
        }
    }

    /// Shared preconditions of the helpers that advance the running, ready task in `slot`
    /// past its current op: `task` is its record with `ip` moved one op further.
    spec fn advanced(&self, slot: usize, task: TaskRecord) -> bool {
        let old_task = self.snapshot.tasks@[slot as int].unwrap();
        &&& self.snapshot.wf()
        &&& slot < MAX_TASKS
        &&& slot_running(self.snapshot.tasks@[slot as int])
        &&& old_task.wait is Ready
        &&& task.id == old_task.id
        &&& task.program_id == old_task.program_id
        &&& task.parent == old_task.parent
        &&& task.scope_root == old_task.scope_root
        &&& is_running(task)
        &&& (old_task.ip as nat) < op_len(self.programs.program_seq(), old_task.program_id)
        &&& task.ip == old_task.ip + 1
    }

    /// Stores `task` (advanced past a wait op) and reports the wait.
    fn park<T: TraceSink>(&mut self, slot: usize, task: TaskRecord, trace: &mut T) -> (r: Result<
        (),
        RuntimeError,
    >)
        requires
            old(self).advanced(slot, task),
            !(task.wait is Ready),
            wait_refs_after(task.wait, task.id.0),
        ensures
            extends(old(trace).received(), final(trace).received()),
            final(trace).received() == old(trace).received().push(
                TraceEvent::TaskWaiting { task: task.id, reason: task.wait },
            ),
            final(self).programs == old(self).programs,
            r is Ok,
            stored_state(old(self).snapshot, final(self).snapshot, slot as int, task),
            old(self).snapshot.evolves_to(final(self).snapshot, old(self).programs.program_seq()),
            lex_lt(
                final(self).snapshot.measure(old(self).programs.program_seq()),
                old(self).snapshot.measure(old(self).programs.program_seq()),
            ),
    {
        self.store_task(slot, task);
        trace.on_event(TraceEvent::TaskWaiting { task: task.id, reason: task.wait });
        Ok(())
    }

    /// Moves `task` past a timeout op, spawns the timed child and waits for it or the deadline.
    fn start_timeout<T: TraceSink>(
        &mut self,
        slot: usize,
        task: TaskRecord,
        program_id: ProgramId,
        until_tick: u64,
        trace: &mut T,
    ) -> (r: Result<(), RuntimeError>)
        requires
            old(self).advanced(slot, task),
            task.wait is Ready,
        ensures
            extends(old(trace).received(), final(trace).received()),
            final(trace).received() == old(trace).received() + timeout_events(
                old(self).snapshot,
                task,
                program_id,
                until_tick,
                r is Ok,
            ),
            final(self).programs == old(self).programs,
            r matches Err(e) ==> e != RuntimeError::SignalQueueFull,
            match spawn_failure(old(self).snapshot, old(self).programs.program_seq(), program_id) {
                Some(e) => r == Err::<(), RuntimeError>(e) && stored_state(
                    old(self).snapshot,
                    final(self).snapshot,
                    slot as int,
                    task,
                ),
                None => r is Ok && stored_with_child(
                    old(self).snapshot,
                    final(self).snapshot,
                    slot as int,
                    TaskRecord {
                        wait: WaitReason::Timeout { child: next_id(old(self).snapshot, 1), until_tick },
                        ..task
                    },
                    program_id,
                ),
            },
            old(self).snapshot.evolves_to(final(self).snapshot, old(self).programs.program_seq()),
            r is Ok ==> lex_lt(
                final(self).snapshot.measure(old(self).programs.program_seq()),
                old(self).snapshot.measure(old(self).programs.program_seq()),
            ),
    {
        let ghost progs = self.programs.program_seq();
        let ghost start = self.snapshot;
        let mut task = task;
        self.store_task(slot, task);
        let ghost stored = self.snapshot;
        proof {
            lemma_store_keeps_free(start.tasks@, slot as int, task);
        }
        let child = match self.spawn_task(
            program_id,
            Some(task.id),
            Some(task.scope_root),
            task.mind_id,
            trace,
        ) {
            Ok(child) => child,
            Err(e) => {
                return Err(e);
            },
        };
        let ghost spawned = self.snapshot;
        task.wait = WaitReason::Timeout { child, until_tick };
        self.store_task(slot, task);
        proof {
            lemma_chain_after_spawn(stored, spawned, self.snapshot, progs);
            start.lemma_evolves_trans(stored, self.snapshot, progs);
            let k = choose|k: int|
                is_first_free(stored.tasks@, k) && spawned.tasks@ == stored.tasks@.update(
                    k,
                    Some(spawned_record(child, program_id, task.mind_id, Some(task.id), Some(task.scope_root))),
                );
            assert(k != slot);
            assert(self.snapshot.tasks@ =~= start.tasks@.update(slot as int, Some(task)).update(
                k,
                Some(child_record(task, next_id(start, 1), program_id)),
            ));
        }
        trace.on_event(TraceEvent::TaskWaiting { task: task.id, reason: task.wait });
        Ok(())
    }

    /// Spawns both racers (when two slots are free), moves the task past its race op and
    /// waits for the first racer to finish, or for `until_tick` when there is one.
    fn start_race<T: TraceSink>(
        &mut self,
        slot: usize,
        task: TaskRecord,
        left_program: ProgramId,
        right_program: ProgramId,
        until_tick: Option<u64>,
        trace: &mut T,
    ) -> (r: Result<(), RuntimeError>)
        requires
            old(self).snapshot.wf(),
            slot < MAX_TASKS,
            task.ip < usize::MAX,
            old(self).snapshot.tasks@[slot as int] == Some(task),
            is_running(task),
            task.wait is Ready,
            (task.ip as nat) < op_len(old(self).programs.program_seq(), task.program_id),
        ensures
            extends(old(trace).received(), final(trace).received()),
            final(trace).received() == old(trace).received() + race_events(
                old(self).snapshot,
                old(self).programs.program_seq(),
                task,
                left_program,
                right_program,
                until_tick,
                r is Ok,
            ),
            final(self).programs == old(self).programs,
            r matches Err(e) ==> e != RuntimeError::SignalQueueFull,
            free_slot_count(old(self).snapshot.tasks@) < 2 ==> r == Err::<(), RuntimeError>(
                RuntimeError::CapacityExceeded,
            ) && final(self).snapshot == old(self).snapshot,
            match race_failure(
                old(self).snapshot,
                old(self).programs.program_seq(),
                left_program,
                right_program,
            ) {
                Some(e) => r == Err::<(), RuntimeError>(e) && if e == RuntimeError::CapacityExceeded {
                    final(self).snapshot == old(self).snapshot
                } else if find_program(old(self).programs.program_seq(), left_program) is None {
                    stored_state(old(self).snapshot, final(self).snapshot, slot as int, next_op(task))
                } else {
                    stored_with_child(
                        old(self).snapshot,
                        final(self).snapshot,
                        slot as int,
                        next_op(task),
                        left_program,
                    )
                },
                None => r is Ok && stored_with_children(
                    old(self).snapshot,
                    final(self).snapshot,
                    slot as int,
                    TaskRecord {
                        wait: race_wait(old(self).snapshot, until_tick),
                        ..next_op(task)
                    },
                    left_program,
                    right_program,
                ),
            },
            old(self).snapshot.evolves_to(final(self).snapshot, old(self).programs.program_seq()),
            r is Ok ==> lex_lt(
                final(self).snapshot.measure(old(self).programs.program_seq()),
                old(self).snapshot.measure(old(self).programs.program_seq()),
            ),
    {
        let ghost progs = self.programs.program_seq();
        let ghost start = self.snapshot;
        if self.available_slots() < 2 {
            return Err(RuntimeError::CapacityExceeded);
        }
        let mut task = task;
        task.ip = task.ip + 1;
        self.store_task(slot, task);
        let ghost stored = self.snapshot;
        proof {
            lemma_store_keeps_free(start.tasks@, slot as int, task);
            lemma_free_count_has_free(stored.tasks@);
        }
        let left = match self.spawn_task(
            left_program,
            Some(task.id),
            Some(task.scope_root),
            task.mind_id,
            trace,
        ) {
            Ok(left) => left,
            Err(e) => {
                return Err(e);
            },
        };
        let ghost first = self.snapshot;
        let ghost k1 = choose|k: int|
            is_first_free(stored.tasks@, k) && first.tasks@ == stored.tasks@.update(
                k,
                Some(spawned_record(left, left_program, task.mind_id, Some(task.id), Some(task.scope_root))),
            );
        proof {
            lemma_free_count_has_free(first.tasks@);
            assert(k1 != slot);
            assert(first.tasks@ =~= start.tasks@.update(k1, Some(child_record(task, next_id(start, 1), left_program))).update(slot as int, Some(task)));
            lemma_store_keeps_free(
                start.tasks@.update(k1, Some(child_record(task, next_id(start, 1), left_program))),
                slot as int,
                task,
            );
        }
        let right = match self.spawn_task(
            right_program,
            Some(task.id),
            Some(task.scope_root),
            task.mind_id,
            trace,
        ) {
            Ok(right) => right,
            Err(e) => {
                proof {
                    start.lemma_evolves_trans(stored, first, progs);
                    assert(is_first_free(start.tasks@, k1));
                    assert(first.tasks@ =~= start.tasks@.update(slot as int, Some(task)).update(
                        k1,
                        Some(child_record(task, next_id(start, 1), left_program)),
                    ));
                }
                return Err(e);
            },
        };
        let ghost spawned = self.snapshot;
        proof {
            stored.lemma_evolves_trans(first, spawned, progs);
        }
        task.wait = match until_tick {
            Some(until_tick) => WaitReason::RaceOrTicks { left, right, until_tick },
            None => WaitReason::Race { left, right },
        };
        self.store_task(slot, task);
        proof {
            lemma_chain_after_spawn(stored, spawned, self.snapshot, progs);
            start.lemma_evolves_trans(stored, self.snapshot, progs);
            let k2 = choose|k: int|
                is_first_free(first.tasks@, k) && spawned.tasks@ == first.tasks@.update(
                    k,
                    Some(spawned_record(right, right_program, task.mind_id, Some(task.id), Some(task.scope_root))),
                );
            assert(k2 != slot);
            assert(self.snapshot.tasks@ =~= start.tasks@.update(slot as int, Some(task)).update(
                k1,
                Some(child_record(task, next_id(start, 1), left_program)),
            ).update(k2, Some(child_record(task, next_id(start, 2), right_program))));
        }
        trace.on_event(TraceEvent::TaskWaiting { task: task.id, reason: task.wait });
        Ok(())
    }

    /// The occupied slots, ordered by task id (smallest first), then `None`s.
    fn ordered_slots(&self) -> (ordered: [Option<usize>; MAX_TASKS])
        requires
            self.snapshot.wf(),
        ensures
            run_order(self.snapshot.tasks@, ordered@),
    {
        let ghost tasks = self.snapshot.tasks@;
        let mut ordered: [Option<usize>; MAX_TASKS] = [None; MAX_TASKS];
        let mut len: usize = 0;
        let mut slot: usize = 0;
        proof {
            broadcast use vstd::array::group_array_axioms;
        }
        while slot < MAX_TASKS
            invariant
                tasks == self.snapshot.tasks@,
                len <= slot <= MAX_TASKS,
                ordered@.len() == MAX_TASKS,
                forall|i: int| 0 <= i < len ==> #[trigger] ordered@[i] is Some,
                forall|i: int| len <= i < MAX_TASKS ==> #[trigger] ordered@[i] is None,
                forall|i: int|
                    0 <= i < len ==> #[trigger] ordered@[i].unwrap() < slot && tasks[ordered@[i].unwrap() as int] is Some,
                forall|i: int, j: int|
                    0 <= i < j < len ==> #[trigger] ordered@[i].unwrap() < #[trigger] ordered@[j].unwrap(),
                forall|s: int|
                    0 <= s < slot && #[trigger] tasks[s] is Some ==> exists|i: int|
                        0 <= i < len && ordered@[i] == Some(s as usize),
            decreases MAX_TASKS - slot,
        {
            if self.snapshot.tasks[slot].is_some() {
                let ghost prev = ordered@;
                ordered[len] = Some(slot);
                proof {
                    assert forall|s: int| 0 <= s < slot + 1 && #[trigger] tasks[s] is Some implies exists|i: int|
                        0 <= i < len + 1 && ordered@[i] == Some(s as usize) by {
                        if s == slot {
                            assert(ordered@[len as int] == Some(s as usize));
                        } else {
                            let i = choose|i: int| 0 <= i < len && prev[i] == Some(s as usize);
                            assert(ordered@[i] == prev[i]);
                        }
                    }
                }
                len = len + 1;
            }
            slot = slot + 1;
        }
        proof {
            assert forall|a: int, b: int|
                0 <= a < len && 0 <= b < len && a != b implies #[trigger] ordered@[a] != #[trigger] ordered@[b] by {
                if a < b {
                    assert(ordered@[a].unwrap() < ordered@[b].unwrap());
                } else {
                    assert(ordered@[b].unwrap() < ordered@[a].unwrap());
                }
            }
        }
        let mut i: usize = 0;
        while i < len
            invariant
                tasks == self.snapshot.tasks@,
                self.snapshot.wf(),
                i <= len <= MAX_TASKS,
                ordered@.len() == MAX_TASKS,
                forall|k: int| 0 <= k < len ==> #[trigger] ordered@[k] is Some,
                forall|k: int| len <= k < MAX_TASKS ==> #[trigger] ordered@[k] is None,
                forall|k: int|
                    0 <= k < len ==> #[trigger] ordered@[k].unwrap() < MAX_TASKS && tasks[ordered@[k].unwrap() as int] is Some,
                forall|a: int, b: int|
                    0 <= a < len && 0 <= b < len && a != b ==> #[trigger] ordered@[a] != #[trigger] ordered@[b],
                forall|s: int|
                    0 <= s < MAX_TASKS && #[trigger] tasks[s] is Some ==> exists|k: int|
                        0 <= k < len && ordered@[k] == Some(s as usize),
                forall|a: int, b: int|
                    0 <= a < i && a < b < len ==> slot_id(tasks, #[trigger] ordered@[a]) < slot_id(tasks, #[trigger] ordered@[b]),
            decreases len - i,
        {
            let mut best: usize = i;
            let mut j: usize = i + 1;
            while j < len
                invariant
                    i < len <= MAX_TASKS,
                    i <= best < j <= len,
                    tasks == self.snapshot.tasks@,
                    forall|k: int| 0 <= k < len ==> #[trigger] ordered@[k] is Some,
                    forall|k: int|
                        0 <= k < len ==> #[trigger] ordered@[k].unwrap() < MAX_TASKS && tasks[ordered@[k].unwrap() as int] is Some,
                    forall|k: int|
                        i <= k < j ==> slot_id(tasks, ordered@[best as int]) <= slot_id(tasks, #[trigger] ordered@[k]),
                decreases len - j,
            {
                if self.id_at(ordered[j]) < self.id_at(ordered[best]) {
                    best = j;
                }
                j = j + 1;
            }
            let ghost before = ordered@;
            let tmp = ordered[i];
            ordered[i] = ordered[best];
            ordered[best] = tmp;
            proof {
                lemma_swap_keeps_order(self.snapshot, before, ordered@, i as int, best as int, len as int);
            }
            i = i + 1;
        }
        proof {
            assert(filled_prefix(ordered@, len as int));
        }
        ordered
    }

    /// The id of the task in an occupied slot.
    fn id_at(&self, slot: Option<usize>) -> (id: u32)
        requires
            slot matches Some(s) && s < MAX_TASKS && self.snapshot.tasks@[s as int] is Some,
        ensures
            id == slot_id(self.snapshot.tasks@, slot),
    {
        match slot {
            Some(s) => match self.snapshot.tasks[s] {
                Some(task) => task.id.0,
                None => 0,
            },
            None => 0,
        }
    }

    pub fn spawn(&mut self, program_id: ProgramId) -> (r: Result<TaskId, RuntimeError>)
        requires
            old(self).wf(),
        ensures
            Self::spawned_root(*old(self), *final(self), program_id, r),
    {
        let mut trace = NoopTraceSink::new();
        self.spawn_traced(program_id, &mut trace)
    }

    /// What spawning a root task does: fails with `ProgramNotFound` when the catalog lacks
    /// the program and with `CapacityExceeded` when no slot is free (changing nothing);
    /// otherwise the first free slot gets a running, ready task with the next id, no parent,
    /// itself as scope root, and the root mind.
    pub open spec fn spawned_root(
        old_rt: Self,
        new_rt: Self,
        program_id: ProgramId,
        r: Result<TaskId, RuntimeError>,
    ) -> bool {
        let old_s = old_rt.state();
        let new_s = new_rt.state();
        &&& new_rt.wf()
        &&& new_rt.catalog() == old_rt.catalog()
        &&& (find_program(old_rt.programs_seq(), program_id) is None ==> r == Err::<
            TaskId,
            RuntimeError,
        >(RuntimeError::ProgramNotFound(program_id)) && new_s == old_s)
        &&& (find_program(old_rt.programs_seq(), program_id) is Some && !has_free(old_s.tasks@)
            ==> r == Err::<TaskId, RuntimeError>(RuntimeError::CapacityExceeded) && new_s == old_s)
        &&& (find_program(old_rt.programs_seq(), program_id) is Some && has_free(old_s.tasks@)
            ==> r is Ok)
        &&& (r matches Ok(id) ==> {
            &&& id.0 == old_s.next_task_id + 1
            &&& new_s.next_task_id == id.0
            &&& new_s.clock == old_s.clock
            &&& new_s.pending_signals == old_s.pending_signals
            &&& exists|k: int|
                is_first_free(old_s.tasks@, k) && new_s.tasks@ == old_s.tasks@.update(
                    k,
                    Some(spawned_record(id, program_id, spec_root_mind(), None, None)),
                )
        })
    }

    /// Reading back a spawned task: after `spawn` returns `id`, the first slot holding `id`
    /// (the one `task(id)` reads) holds the fresh record, and every read of `id` gives it.
    pub proof fn lemma_spawned_task_reads_back(
        old_rt: Self,
        new_rt: Self,
        program_id: ProgramId,
        id: TaskId,
    )
        requires
            old_rt.wf(),
            Self::spawned_root(old_rt, new_rt, program_id, Ok(id)),
        ensures
            exists|k: int|
                is_slot_of(new_rt.state().tasks@, id, k) && new_rt.state().tasks@[k] == Some(
                    spawned_record(id, program_id, spec_root_mind(), None, None),
                ),
            forall|k: int, t: TaskRecord|
                is_slot_of(new_rt.state().tasks@, id, k) && new_rt.state().tasks@[k] == Some(t)
                    ==> t == spawned_record(id, program_id, spec_root_mind(), None, None),
    {
        let old_s = old_rt.state();
        let new_s = new_rt.state();
        let rec = spawned_record(id, program_id, spec_root_mind(), None, None);
        let k = choose|k: int|
            is_first_free(old_s.tasks@, k) && new_s.tasks@ == old_s.tasks@.update(k, Some(rec));
        assert forall|j: int| 0 <= j < k implies !holds_task(#[trigger] new_s.tasks@[j], id) by {
            assert(new_s.tasks@[j] == old_s.tasks@[j]);
            assert(old_s.tasks@[j] is Some);
            assert(old_s.tasks@[j].unwrap().id.0 <= old_s.next_task_id);
        }
        assert(is_slot_of(new_s.tasks@, id, k));
        assert forall|k2: int, t: TaskRecord|
            is_slot_of(new_s.tasks@, id, k2) && new_s.tasks@[k2] == Some(t) implies t == rec by {
            lemma_slot_of_unique(new_s.tasks@, id, k, k2);
        }
    }

    pub fn spawn_traced<T: TraceSink>(&mut self, program_id: ProgramId, trace: &mut T) -> (r:
        Result<TaskId, RuntimeError>)
        requires
            old(self).wf(),
        ensures
            Self::spawned_root(*old(self), *final(self), program_id, r),
            r matches Ok(id) ==> final(trace).received() == old(trace).received().push(
                (TraceEvent::TaskSpawned { task: id, program_id, parent: None, scope_root: id }),
            ),
            r is Err ==> final(trace).received() == old(trace).received(),
    {
        self.spawn_task(program_id, None, None, root_mind(), trace)
    }

    pub fn emit_signal(&mut self, signal: SignalId) -> (r: Result<(), RuntimeError>)
        requires
            old(self).wf(),
        ensures
            Self::queued_signal(*old(self), *final(self), signal, r),
    {
        let mut trace = NoopTraceSink::new();
        self.emit_signal_traced(signal, &mut trace)
    }

    /// What queueing a signal does (see `queue_relation`); the catalog is kept.
    pub open spec fn queued_signal(
        old_rt: Self,
        new_rt: Self,
        signal: SignalId,
        r: Result<(), RuntimeError>,
    ) -> bool {
        &&& new_rt.wf()
        &&& new_rt.catalog() == old_rt.catalog()
        &&& queue_relation(old_rt.state(), new_rt.state(), signal, r)
    }

    pub fn emit_signal_traced<T: TraceSink>(&mut self, signal: SignalId, trace: &mut T) -> (r:
        Result<(), RuntimeError>)
        requires
            old(self).wf(),
        ensures
            Self::queued_signal(*old(self), *final(self), signal, r),
            r is Ok ==> final(trace).received() == old(trace).received().push(
                TraceEvent::SignalQueued { signal },
            ),
            r is Err ==> final(trace).received() == old(trace).received(),
    {
        let mut index: usize = 0;
        while index < MAX_PENDING_SIGNALS
            invariant
                index <= MAX_PENDING_SIGNALS,
                old(self).wf(),
                trace.received() == old(trace).received(),
                self.snapshot == old(self).snapshot,
                self.programs == old(self).programs,
                forall|j: int| 0 <= j < index ==> #[trigger] self.snapshot.pending_signals@[j] is Some,
            decreases MAX_PENDING_SIGNALS - index,
        {
            if self.snapshot.pending_signals[index].is_none() {
                let ghost prev = self.snapshot.pending_signals@;
                self.snapshot.pending_signals[index] = Some(signal);
                proof {
                    assert(prev[index as int] is None);
                    assert(self.snapshot.pending_signals@ == prev.update(index as int, Some(signal)));
                    assert(exists|k: int|
                        0 <= k < MAX_PENDING_SIGNALS && #[trigger] old(self).state().pending_signals@[k] is None);
                    assert(exists|k: int|
                        0 <= k < MAX_PENDING_SIGNALS && old(self).state().pending_signals@[k] is None && (forall|j: int|
                            0 <= j < k ==> #[trigger] old(self).state().pending_signals@[j] is Some)
                            && self.state().pending_signals@ == old(self).state().pending_signals@.update(k, Some(signal))) by {
                        assert(old(self).state().pending_signals@[index as int] is None);
                    }
                }
                trace.on_event(TraceEvent::SignalQueued { signal });
                return Ok(());
            }
            index = index + 1;
        }
        Err(RuntimeError::SignalQueueFull)
    }

    pub fn tick<H: Host>(&mut self, host: &mut H) -> (r: Result<StepReport, RuntimeError>)
        requires
            old(self).wf(),
        ensures
            old(host).inv() ==> final(host).inv(),
            final(host).setting() == old(host).setting(),
            exists|answers: Seq<bool>, log: Seq<Effect>|
                #[trigger] Self::ticked(*old(self), *final(self), answers, log, r)
                    && final(host).answers() == old(host).answers() + answers && final(host).requests()
                    == old(host).requests() + host_part(log),
    {
        let mut trace = NoopTraceSink::new();
        self.tick_traced(host, &mut trace)
    }

    /// What holds after a tick (see `tick_relation`), and the catalog is kept. The tick ran
    /// as `tick_run` says, the host answering `answers` to the questions among the requests
    /// of `log`, what the tick did outside the state, in order (the requests it made of the
    /// host and the events it traced): rounds over the tasks by id, each woken and
    /// run until it blocks (see the `schedule` module). Besides, a successful tick changes
    /// the tasks only by task steps (see `task_step_at`): from the state with the advanced
    /// clock, steps lead to the final state (before its signals were consumed), executing
    /// as many actions as were requested.
    pub open spec fn ticked(
        old_rt: Self,
        new_rt: Self,
        answers: Seq<bool>,
        requests: Seq<Effect>,
        r: Result<StepReport, RuntimeError>,
    ) -> bool {
        &&& new_rt.wf()
        &&& new_rt.catalog() == old_rt.catalog()
        &&& tick_relation(old_rt.state(), new_rt.state(), r)
        &&& tick_run(old_rt.state(), new_rt.state(), old_rt.programs_seq(), answers, requests, r)
        &&& (r matches Ok(report) ==> exists|n: nat|
            #[trigger] tick_steps(old_rt.state(), new_rt.state(), old_rt.programs_seq(), n, action_count(requests))
                && (report.progress_made <==> n > 0))
    }

    #[verifier::rlimit(100)]
    #[verifier::spinoff_prover]
    pub fn tick_traced<H: Host, T: TraceSink>(&mut self, host: &mut H, trace: &mut T) -> (r:
        Result<StepReport, RuntimeError>)
        requires
            old(self).wf(),
        ensures
            old(host).inv() ==> final(host).inv(),
            final(host).setting() == old(host).setting(),
            exists|answers: Seq<bool>, log: Seq<Effect>|
                #[trigger] Self::ticked(*old(self), *final(self), answers, log, r)
                    && final(host).answers() == old(host).answers() + answers && final(host).requests()
                    == old(host).requests() + host_part(log) && final(trace).received() == match r {
                    Ok(report) => old(trace).received().push(
                        TraceEvent::TickStarted { clock: old(self).state().clock.saturating_add(1) },
                    ) + trace_part(log).push(TraceEvent::TickCompleted { report }),
                    Err(_) => old(trace).received().push(
                        TraceEvent::TickStarted { clock: old(self).state().clock.saturating_add(1) },
                    ) + trace_part(log),
                },
            extends(
                old(trace).received().push(
                    TraceEvent::TickStarted { clock: old(self).state().clock.saturating_add(1) },
                ),
                final(trace).received(),
            ),
            r matches Ok(report) ==> final(trace).received().last() == (TraceEvent::TickCompleted {
                report,
            }),
    {
        self.snapshot.clock = self.snapshot.clock.saturating_add(1);
        let mut report = StepReport {
            clock: self.snapshot.clock,
            actions_emitted: 0,
            progress_made: false,
        };
        trace.on_event(TraceEvent::TickStarted { clock: self.snapshot.clock });
        let ghost started = trace.received();
        let ghost tick_start = self.snapshot;
        let ghost progs = self.programs.program_seq();
        let ghost mut steps: nat = 0;
        let ghost mut actions: nat = 0;
        let ghost mut k: nat = 0;
        let ghost mut ans_b: Seq<bool> = Seq::empty();
        let ghost mut acts_b: Seq<Effect> = Seq::empty();
        let ghost mut last_start = tick_start;
        let ghost mut last_order: Seq<Option<usize>> = Seq::empty();
        let ghost mut ans_last: Seq<bool> = Seq::empty();
        let ghost mut acts_last: Seq<Effect> = Seq::empty();
        let ghost ans0 = host.answers();
        let ghost req0 = host.requests();
        proof {
            assert(reaches(tick_start, self.snapshot, progs, 0, 0));
            assert(busy_rounds(tick_start, self.snapshot, progs, 0, ans_b, acts_b));
            lemma_add_capped(0, 0, 0);
            lemma_logged_start(ans0);
            assert(req0 =~= req0 + host_part(acts_b));
            assert(started =~= started + trace_part(acts_b));
        }
        loop
            invariant_except_break
                actions == action_count(acts_b),
                logged(host.answers(), ans0, ans_b, Seq::empty()),
                host.requests() == req0 + host_part(acts_b),
                trace.received() == started + trace_part(acts_b),
            invariant
                extends(started, trace.received()),
                old(host).inv() ==> host.inv(),
                host.setting() == old(host).setting(),
                started == old(trace).received().push(
                    TraceEvent::TickStarted { clock: old(self).snapshot.clock.saturating_add(1) },
                ),
                ans0 == old(host).answers(),
                req0 == old(host).requests(),
                reaches(tick_start, self.snapshot, progs, steps, actions),
                busy_rounds(tick_start, self.snapshot, progs, k, ans_b, acts_b),
                report.progress_made <==> k > 0,
                tick_start.pending_signals == old(self).snapshot.pending_signals,
                report.actions_emitted == add_capped(0, actions),
                report.progress_made <==> steps > 0,
                self.snapshot.wf(),
                self.programs == old(self).programs,
                progs == self.programs.program_seq(),
                tick_start.clock == old(self).snapshot.clock.saturating_add(1),
                tick_start.tasks == old(self).snapshot.tasks,
                tick_start.next_task_id == old(self).snapshot.next_task_id,
                tick_start.evolves_to(self.snapshot, progs),
                report.clock == self.snapshot.clock,
                !report.progress_made ==> self.snapshot == tick_start,
            ensures
                quiescent(self.snapshot),
                busy_rounds(tick_start, last_start, progs, k, ans_b, acts_b),
                run_order(last_start.tasks@, last_order),
                round_upto(last_start, self.snapshot, progs, last_order, MAX_TASKS as nat, ans_last, acts_last),
                self.snapshot == last_start,
                actions == action_count(acts_b + acts_last),
                logged(host.answers(), ans0, ans_b, ans_last),
                host.requests() == req0 + host_part(acts_b + acts_last),
                trace.received() == started + trace_part(acts_b + acts_last),
                report.progress_made <==> k > 0,
            decreases free_slot_count(self.snapshot.tasks@), load(self.snapshot.tasks@, progs),
        {
            let ordered = self.ordered_slots();
            let ghost round_start = self.snapshot;
            let ghost progress_before = report.progress_made;
            let mut round_progress = false;
            let mut cursor: usize = 0;
            let ghost mut ans_r: Seq<bool> = Seq::empty();
            let ghost mut acts_r: Seq<Effect> = Seq::empty();
            proof {
                assert(round_upto(round_start, self.snapshot, progs, ordered@, 0, ans_r, acts_r));
                assert(acts_b + acts_r =~= acts_b);

            }
            while cursor < MAX_TASKS
                invariant
                    reaches(tick_start, self.snapshot, progs, steps, actions),
                    busy_rounds(tick_start, round_start, progs, k, ans_b, acts_b),
                    round_upto(round_start, self.snapshot, progs, ordered@, cursor as nat, ans_r, acts_r),
                    actions == action_count(acts_b + acts_r),
                    logged(host.answers(), ans0, ans_b, ans_r),
                    host.requests() == req0 + host_part(acts_b + acts_r),
                    trace.received() == started + trace_part(acts_b + acts_r),
                    extends(started, trace.received()),
                old(host).inv() ==> host.inv(),
                host.setting() == old(host).setting(),
                started == old(trace).received().push(
                    TraceEvent::TickStarted { clock: old(self).snapshot.clock.saturating_add(1) },
                ),
                    ans0 == old(host).answers(),
                    req0 == old(host).requests(),
                    report.progress_made <==> k > 0,
                    tick_start.pending_signals == old(self).snapshot.pending_signals,
                    report.actions_emitted == add_capped(0, actions),
                    progress_before || round_progress <==> steps > 0,
                    cursor <= MAX_TASKS,
                    self.snapshot.wf(),
                    self.programs == old(self).programs,
                    progs == self.programs.program_seq(),
                    run_order(round_start.tasks@, ordered@),
                    round_start.evolves_to(self.snapshot, progs),
                    round_progress ==> lex_lt(self.snapshot.measure(progs), round_start.measure(progs)),
                    !round_progress ==> self.snapshot == round_start,
                    report.clock == self.snapshot.clock,
                    report.progress_made == progress_before,
                    tick_start.evolves_to(round_start, progs),
                    !progress_before ==> round_start == tick_start,
                    tick_start.clock == old(self).snapshot.clock.saturating_add(1),
                    tick_start.tasks == old(self).snapshot.tasks,
                    tick_start.next_task_id == old(self).snapshot.next_task_id,
                    !round_progress ==> forall|c: int|
                        0 <= c < cursor && #[trigger] ordered@[c] is Some && slot_running(
                            round_start.tasks@[ordered@[c].unwrap() as int],
                        ) ==> wait_over(
                            round_start,
                            round_start.tasks@[ordered@[c].unwrap() as int].unwrap(),
                        ) != Some(true),
                decreases MAX_TASKS - cursor,
            {
                if let Some(slot) = ordered[cursor] {
                    let ghost before = self.snapshot;
                    let ghost before_ans = ans_r;
                    proof {
                        assert(ordered@[cursor as int] is Some);
                    }
                    let ghost before_ans = host.answers();
                    let ghost before_req = host.requests();
                    let ghost before_tr = trace.received();
                    let woke = self.wake_task_if_ready(slot, host, trace);
                    let ghost mid = self.snapshot;
                    proof {
                        round_start.lemma_evolves_trans(before, mid, progs);
                        if woke {
                            assert(task_step_at(before, mid, progs, slot as int));
                            lemma_reaches_step(before, mid, progs, slot as int);
                            assert(actions_of_step(before, progs, slot as int) == 0);
                            lemma_reaches_trans(tick_start, before, mid, progs, steps, 1, actions, 0);
                            steps = steps + 1;
                        }
                    }
                    if woke {
                        round_progress = true;
                    }
                    let ghost mid_report = report.actions_emitted;
                    let ghost mid_ans = host.answers();
                    let ghost mid_req = host.requests();
                    let ghost mid_tr = trace.received();
                    let res = self.run_task(slot, host, &mut report, trace);
                    let ghost (u, x) = choose|u: Seq<bool>, x: Seq<Effect>|
                        #[trigger] run_visit(mid, self.snapshot, progs, slot as int, u, x, took_steps(res), unit_result(res))
                            && host.answers() == mid_ans + u && host.requests() == mid_req + host_part(x)
                            && trace.received() == mid_tr + trace_part(x) && (res is Ok
                            ==> report.actions_emitted == add_capped(mid_report, action_count(x)) && exists|n: nat|
                            #[trigger] reaches(mid, self.snapshot, progs, n, action_count(x)) && (took_steps(res)
                            <==> n > 0));
                    proof {
                        lemma_round_visit(
                            round_start,
                            before,
                            mid,
                            self.snapshot,
                            progs,
                            ordered@,
                            cursor as nat,
                            ans_r,
                            acts_r,
                            slot,
                            woke,
                            u,
                            x,
                            took_steps(res),
                            unit_result(res),
                        );
                        let wa = wake_answers(before, slot as int, woke);
                        let wr = wake_log(before, slot as int, woke);
                        lemma_visit_logs(
                            before,
                            slot as int,
                            woke,
                            acts_b,
                            acts_r,
                            x,
                            req0,
                            before_req,
                            mid_req,
                            host.requests(),
                            started,
                            before_tr,
                            mid_tr,
                            trace.received(),
                        );
                        lemma_logged_visit(before_ans, wa, u, ans0, ans_b, ans_r);
                        ans_r = ans_r + (wa + u);
                        acts_r = acts_r + (wr + x);
                    }
                    match res {
                        Ok(ran) => {
                            proof {
                                round_start.lemma_evolves_trans(mid, self.snapshot, progs);
                                let n = choose|n: nat|
                                    #[trigger] reaches(mid, self.snapshot, progs, n, action_count(x)) && (took_steps(res)
                                        <==> n > 0);
                                lemma_reaches_trans(tick_start, mid, self.snapshot, progs, steps, n, actions, action_count(x));
                                lemma_add_capped(0, actions, action_count(x));
                                steps = steps + n;
                                actions = actions + action_count(x);
                            }
                            if ran {
                                round_progress = true;
                            }
                        },
                        Err(e) => {
                            proof {
                                round_start.lemma_evolves_trans(mid, self.snapshot, progs);
                                tick_start.lemma_evolves_trans(round_start, self.snapshot, progs);
                                assert(tick_start =~= RuntimeSnapshot {
                                    clock: old(self).snapshot.clock.saturating_add(1),
                                    ..old(self).snapshot
                                });
                                lemma_tick_failed(
                                    old(self).snapshot,
                                    round_start,
                                    self.snapshot,
                                    progs,
                                    k,
                                    ans_b,
                                    acts_b,
                                    ordered@,
                                    ans_r,
                                    acts_r,
                                    e,
                                );
                                assert(tick_run(old(self).state(), self.state(), old(self).programs_seq(), ans_b + ans_r, acts_b + acts_r, Err(e)));
                                lemma_logged_whole(host.answers(), ans0, ans_b, ans_r);
                                assert(Self::ticked(*old(self), *self, ans_b + ans_r, acts_b + acts_r, Err(e)));
                            }
                            return Err(e);
                        },
                    }
                } else {
                    proof {
                        lemma_round_skip(round_start, self.snapshot, progs, ordered@, cursor as nat, ans_r, acts_r);
                    }
                }
                cursor = cursor + 1;
            }
            proof {
                tick_start.lemma_evolves_trans(round_start, self.snapshot, progs);
            }
            if !round_progress {
                proof {
                    last_start = round_start;
                    last_order = ordered@;
                    ans_last = ans_r;
                    acts_last = acts_r;

                    assert forall|k: int|
                        0 <= k < MAX_TASKS && slot_running(
                            #[trigger] self.snapshot.tasks@[k],
                        ) implies wait_over(self.snapshot, self.snapshot.tasks@[k].unwrap())
                        != Some(true) by {
                        assert(round_start.tasks@[k] is Some);
                        let c = choose|c: int|
                            0 <= c < ordered@.len() && ordered@[c] == Some(k as usize);
                        assert(ordered@[c] is Some);
                    }
                }
                break;
            }
            proof {
                assert(self.snapshot != round_start);
                lemma_busy_rounds_extend(tick_start, round_start, self.snapshot, progs, k, ans_b, acts_b, ordered@, ans_r, acts_r);
                lemma_logged_round(host.answers(), ans0, ans_b, ans_r);
                assert(acts_b + acts_r + Seq::<Effect>::empty() =~= acts_b + acts_r);
                k = k + 1;
                ans_b = ans_b + ans_r;
                acts_b = acts_b + acts_r;
            }
            report.progress_made = true;
        }
        let ghost settled = self.snapshot;
        let mut index: usize = 0;
        while index < MAX_PENDING_SIGNALS
            invariant
                index <= MAX_PENDING_SIGNALS,
                self.snapshot.tasks == settled.tasks,
                self.snapshot.clock == settled.clock,
                self.snapshot.next_task_id == settled.next_task_id,
                self.programs == old(self).programs,
                forall|j: int| 0 <= j < index ==> #[trigger] self.snapshot.pending_signals@[j] is None,
            decreases MAX_PENDING_SIGNALS - index,
        {
            self.snapshot.pending_signals[index] = None;
            index = index + 1;
        }
        proof {
            assert(self.snapshot.tasks =~= settled.tasks);
            assert(tick_start =~= RuntimeSnapshot { clock: old(self).snapshot.clock.saturating_add(1), ..old(self).snapshot });
            assert(settled =~= RuntimeSnapshot { pending_signals: old(self).snapshot.pending_signals, ..self.snapshot });
            assert(tick_steps(old(self).state(), self.state(), old(self).programs_seq(), steps, actions));
            lemma_tick_done(
                old(self).snapshot,
                last_start,
                self.snapshot,
                progs,
                k,
                ans_b,
                acts_b,
                last_order,
                ans_last,
                acts_last,
            );
            assert(report == StepReport {
                clock: self.snapshot.clock,
                actions_emitted: add_capped(0, action_count(acts_b + acts_last)),
                progress_made: k > 0,
            });
            assert(tick_run(old(self).state(), self.state(), old(self).programs_seq(), ans_b + ans_last, acts_b + acts_last, Ok(report)));
            lemma_logged_whole(host.answers(), ans0, ans_b, ans_last);

            assert(Self::ticked(*old(self), *self, ans_b + ans_last, acts_b + acts_last, Ok(report)));
        }
        trace.on_event(TraceEvent::TickCompleted { report });
        Ok(report)
    }

}

// ---------------------------------------------------------------------------------------------
// Frame conditions and the lemmas behind the runtime's proofs.

/// The same slots are occupied.
/// The cancellations a wake-up of `task` makes in `s` once its wait is over, with the
/// events they trace: a race's task still running (both, in order, when a deadline
/// passed), a timed-out child, or the running children of a task waiting on any child
/// when one has finished; no other wait cancels anything.
pub open spec fn wake_run<const N: usize, const S: usize>(s: RuntimeSnapshot<N, S>, task: TaskRecord) -> (Seq<
    Option<TaskRecord>,
>, Seq<TraceEvent>) {
    let tasks = s.tasks@;
    match task.wait {
        WaitReason::RaceOrTicks { left, right, until_tick } => if !task_running(tasks, left) {
            cancel_task_run(tasks, right)
        } else if !task_running(tasks, right) {
            cancel_task_run(tasks, left)
        } else if s.clock >= until_tick {
            let first = cancel_task_run(tasks, left);
            let second = cancel_task_run(first.0, right);
            (second.0, first.1 + second.1)
        } else {
            (tasks, Seq::empty())
        },
        WaitReason::Timeout { child, until_tick } => if task_running(tasks, child) && s.clock
            >= until_tick {
            cancel_task_run(tasks, child)
        } else {
            (tasks, Seq::empty())
        },
        WaitReason::ChildrenAny => if has_running_child(tasks, task.id) && has_finished_child(
            tasks,
            task.id,
        ) {
            cancel_children_run(tasks, task.id, 0, tasks.len())
        } else {
            (tasks, Seq::empty())
        },
        WaitReason::Race { left, right } => if !task_running(tasks, left) {
            cancel_task_run(tasks, right)
        } else if !task_running(tasks, right) {
            cancel_task_run(tasks, left)
        } else {
            (tasks, Seq::empty())
        },
        _ => (tasks, Seq::empty()),
    }
}

/// Cancelling the task `id` in `tasks`, with the events it traces: when it runs, first its
/// running children are cancelled (see `cancel_children_run`), then it is marked
/// cancelled and `TaskFinished { id, Cancelled }` is traced; otherwise nothing happens.
pub open spec fn cancel_task_run(tasks: Seq<Option<TaskRecord>>, id: TaskId) -> (Seq<
    Option<TaskRecord>,
>, Seq<TraceEvent>)
    decreases u32::MAX - id.0, 2nat, 0nat,
{
    if !task_running(tasks, id) {
        (tasks, Seq::empty())
    } else {
        let slot = choose|k: int| is_slot_of(tasks, id, k);
        let kids = cancel_children_run(tasks, id, 0, tasks.len());
        (
            kids.0.update(slot, Some(cancelled_record(tasks[slot].unwrap()))),
            kids.1.push(TraceEvent::TaskFinished { task: id, outcome: Outcome::Cancelled }),
        )
    }
}

/// Cancelling, slot by slot from `index` up to `n`, each task whose parent is `parent` (see
/// `cancel_task_run`), with the events traced, in that order.
pub open spec fn cancel_children_run(
    tasks: Seq<Option<TaskRecord>>,
    parent: TaskId,
    index: nat,
    n: nat,
) -> (Seq<Option<TaskRecord>>, Seq<TraceEvent>)
    decreases u32::MAX - parent.0, 1nat, n - index,
{
    if index >= n || index >= tasks.len() {
        (tasks, Seq::empty())
    } else {
        match tasks[index as int] {
            Some(child) => if child.parent == Some(parent) && child.id.0 > parent.0 {
                let first = cancel_task_run(tasks, child.id);
                let rest = cancel_children_run(first.0, parent, index + 1, n);
                (rest.0, first.1 + rest.1)
            } else {
                cancel_children_run(tasks, parent, index + 1, n)
            },
            None => cancel_children_run(tasks, parent, index + 1, n),
        }
    }
}

/// `t`, cancelled: its outcome is `Cancelled` and it waits on nothing.
pub open spec fn cancelled_record(t: TaskRecord) -> TaskRecord {
    TaskRecord { outcome: Outcome::Cancelled, wait: WaitReason::Ready, ..t }
}

/// Every slot of `b` is the slot of `a`, or a task running in `a`, now cancelled.
pub open spec fn only_cancels(a: Seq<Option<TaskRecord>>, b: Seq<Option<TaskRecord>>) -> bool {
    &&& a.len() == b.len()
    &&& forall|i: int|
        0 <= i < a.len() ==> #[trigger] b[i] == a[i] || (slot_running(a[i]) && b[i] == Some(
            cancelled_record(a[i].unwrap()),
        ))
}

pub proof fn lemma_only_cancels_trans(
    a: Seq<Option<TaskRecord>>,
    b: Seq<Option<TaskRecord>>,
    c: Seq<Option<TaskRecord>>,
)
    requires
        only_cancels(a, b),
        only_cancels(b, c),
    ensures
        only_cancels(a, c),
{
    assert forall|i: int| 0 <= i < a.len() implies #[trigger] c[i] == a[i] || (slot_running(a[i])
        && c[i] == Some(cancelled_record(a[i].unwrap()))) by {
        assert(b[i] == a[i] || (slot_running(a[i]) && b[i] == Some(cancelled_record(a[i].unwrap()))));
        assert(c[i] == b[i] || (slot_running(b[i]) && c[i] == Some(cancelled_record(b[i].unwrap()))));
    }
}

pub open spec fn same_occupancy(a: Seq<Option<TaskRecord>>, b: Seq<Option<TaskRecord>>) -> bool {
    &&& a.len() == b.len()
    &&& forall|i: int| 0 <= i < a.len() ==> (#[trigger] a[i] is None <==> b[i] is None)
}

pub open spec fn id_below(t: Option<TaskRecord>, bound: int) -> bool {
    t matches Some(r) && r.id.0 < bound
}

/// Tasks whose id is below `bound` are untouched.
pub open spec fn unchanged_below(a: Seq<Option<TaskRecord>>, b: Seq<Option<TaskRecord>>, bound: int) -> bool {
    forall|i: int| 0 <= i < a.len() && id_below(#[trigger] a[i], bound) ==> b[i] == a[i]
}

pub proof fn lemma_same_occupancy_trans(
    a: Seq<Option<TaskRecord>>,
    b: Seq<Option<TaskRecord>>,
    c: Seq<Option<TaskRecord>>,
)
    requires
        same_occupancy(a, b),
        same_occupancy(b, c),
    ensures
        same_occupancy(a, c),
{
    assert forall|i: int| 0 <= i < a.len() implies (#[trigger] a[i] is None <==> c[i] is None) by {
        assert(a[i] is None <==> b[i] is None);
        assert(b[i] is None <==> c[i] is None);
    }
}

pub proof fn lemma_unchanged_below_trans(
    a: Seq<Option<TaskRecord>>,
    b: Seq<Option<TaskRecord>>,
    c: Seq<Option<TaskRecord>>,
    bound: int,
)
    requires
        a.len() == b.len(),
        unchanged_below(a, b, bound),
        unchanged_below(b, c, bound),
    ensures
        unchanged_below(a, c, bound),
{
    assert forall|i: int| 0 <= i < a.len() && id_below(#[trigger] a[i], bound) implies c[i] == a[i] by {
        assert(b[i] == a[i]);
        assert(id_below(b[i], bound));
    }
}

pub proof fn lemma_unchanged_below_weaken(
    a: Seq<Option<TaskRecord>>,
    b: Seq<Option<TaskRecord>>,
    hi: int,
    lo: int,
)
    requires
        lo <= hi,
        unchanged_below(a, b, hi),
    ensures
        unchanged_below(a, b, lo),
{
    assert forall|i: int| 0 <= i < a.len() && id_below(#[trigger] a[i], lo) implies b[i] == a[i] by {
        assert(id_below(a[i], hi));
    }
}

/// Storing into an occupied slot leaves the free slots as they were.
pub proof fn lemma_store_keeps_free(tasks: Seq<Option<TaskRecord>>, slot: int, x: TaskRecord)
    requires
        0 <= slot < tasks.len(),
        tasks[slot] is Some,
    ensures
        forall|k: int| #[trigger] is_first_free(tasks.update(slot, Some(x)), k) == is_first_free(tasks, k),
        has_free(tasks.update(slot, Some(x))) == has_free(tasks),
{
    let t = tasks.update(slot, Some(x));
    assert forall|k: int| #[trigger] is_first_free(t, k) == is_first_free(tasks, k) by {
        if 0 <= k < tasks.len() {
            assert forall|j: int| 0 <= j < k implies (#[trigger] t[j] is Some) == (tasks[j] is Some) by {
                if j == slot {
                    assert(t[j] is Some);
                }
            }
            if is_first_free(t, k) {
                assert forall|j: int| 0 <= j < k implies #[trigger] tasks[j] is Some by {
                    assert(t[j] is Some);
                }
            }
            if is_first_free(tasks, k) {
                assert forall|j: int| 0 <= j < k implies #[trigger] t[j] is Some by {
                    assert(tasks[j] is Some);
                }
            }
        }
    }
    if has_free(tasks) {
        let k = choose|k: int| 0 <= k < tasks.len() && #[trigger] tasks[k] is None;
        assert(t[k] is None);
    }
    if has_free(t) {
        let k = choose|k: int| 0 <= k < t.len() && #[trigger] t[k] is None;
        assert(tasks[k] is None);
    }
}

/// A positive number of free slots means some slot is free.
pub proof fn lemma_free_count_has_free(tasks: Seq<Option<TaskRecord>>)
    requires
        free_slot_count(tasks) > 0,
    ensures
        has_free(tasks),
    decreases tasks.len(),
{
    if tasks.len() > 0 {
        if tasks.last() is None {
            assert(tasks[tasks.len() - 1] is None);
        } else {
            lemma_free_count_has_free(tasks.drop_last());
            let k = choose|k: int| 0 <= k < tasks.drop_last().len() && #[trigger] tasks.drop_last()[k] is None;
            assert(tasks[k] is None);
        }
    }
}

pub proof fn lemma_slot_of_unique(tasks: Seq<Option<TaskRecord>>, id: TaskId, k1: int, k2: int)
    requires
        is_slot_of(tasks, id, k1),
        is_slot_of(tasks, id, k2),
    ensures
        k1 == k2,
{
    if k1 < k2 {
        assert(!holds_task(tasks[k1], id));
    } else if k2 < k1 {
        assert(!holds_task(tasks[k2], id));
    }
}

pub proof fn lemma_slot_of_kept(
    a: Seq<Option<TaskRecord>>,
    b: Seq<Option<TaskRecord>>,
    id: TaskId,
    k: int,
)
    requires
        keeps_history(a, b),
        same_occupancy(a, b),
        is_slot_of(a, id, k),
    ensures
        is_slot_of(b, id, k),
{
    assert(a[k] is Some);
    assert forall|j: int| 0 <= j < k implies !holds_task(#[trigger] b[j], id) by {
        assert(!holds_task(a[j], id));
        if a[j] is Some {
            assert(b[j].unwrap().id == a[j].unwrap().id);
        } else {
            assert(b[j] is None);
        }
    }
}

pub proof fn lemma_not_running_at_slot(tasks: Seq<Option<TaskRecord>>, id: TaskId, slot: int)
    requires
        is_slot_of(tasks, id, slot),
        !slot_running(tasks[slot]),
    ensures
        !task_running(tasks, id),
{
    assert forall|k: int| is_slot_of(tasks, id, k) implies !slot_running(tasks[k]) by {
        lemma_slot_of_unique(tasks, id, k, slot);
    }
}

/// Replacing a running task's record by one with the same identity.
pub proof fn lemma_replace_running<const N: usize, const S: usize>(
    s: RuntimeSnapshot<N, S>,
    s2: RuntimeSnapshot<N, S>,
    slot: int,
    t: TaskRecord,
    programs: Seq<Program>,
)
    requires
        s.wf(),
        0 <= slot < N,
        slot_running(s.tasks@[slot]),
        t.id == s.tasks@[slot].unwrap().id,
        t.program_id == s.tasks@[slot].unwrap().program_id,
        t.parent == s.tasks@[slot].unwrap().parent,
        t.scope_root == s.tasks@[slot].unwrap().scope_root,
        wait_refs_after(t.wait, t.id.0),
        s2.tasks@ == s.tasks@.update(slot, Some(t)),
        s2.next_task_id == s.next_task_id,
        s2.clock == s.clock,
        s2.pending_signals == s.pending_signals,
    ensures
        s2.wf(),
        keeps_history(s.tasks@, s2.tasks@),
        same_occupancy(s.tasks@, s2.tasks@),
        unchanged_below(s.tasks@, s2.tasks@, t.id.0 as int),
        free_slot_count(s2.tasks@) == free_slot_count(s.tasks@),
        load(s2.tasks@, programs) + task_weight(s.tasks@[slot], programs) == load(s.tasks@, programs)
            + task_weight(Some(t), programs),
        task_weight(Some(t), programs) < task_weight(s.tasks@[slot], programs) ==> s.evolves_to(
            s2,
            programs,
        ) && lex_lt(s2.measure(programs), s.measure(programs)),
{
    let a = s.tasks@;
    let b = s2.tasks@;
    lemma_slot_sum_update(a, slot, Some(t), free_indicator());
    lemma_slot_sum_update(a, slot, Some(t), weight_fn(programs));
    assert forall|i: int| 0 <= i < N && #[trigger] b[i] is Some implies 1 <= b[i].unwrap().id.0
        <= s2.next_task_id by {
        assert(a[i] is Some);
    }
    assert forall|i: int, j: int|
        0 <= i < N && 0 <= j < N && i != j && #[trigger] b[i] is Some && #[trigger] b[j] is Some
            implies b[i].unwrap().id != b[j].unwrap().id by {
        assert(a[i] is Some && a[j] is Some);
        assert(a[i].unwrap().id != a[j].unwrap().id);
    }
    assert forall|i: int|
        0 <= i < N && #[trigger] b[i] is Some && b[i].unwrap().parent is Some implies b[i].unwrap().parent.unwrap().0
            < b[i].unwrap().id.0 by {
        assert(a[i] is Some);
    }
    assert forall|i: int| 0 <= i < N && #[trigger] b[i] is Some implies wait_refs_after(
        b[i].unwrap().wait,
        b[i].unwrap().id.0,
    ) by {
        assert(a[i] is Some);
    }
    assert(keeps_history(a, b));
    assert(same_occupancy(a, b));
    assert forall|i: int| 0 <= i < a.len() && id_below(#[trigger] a[i], t.id.0 as int) implies b[i]
        == a[i] by {
        if i == slot {
            assert(!id_below(a[i], t.id.0 as int));
        }
    }
}

/// Filling the first free slot with a fresh task.
pub proof fn lemma_spawn_record<const N: usize, const S: usize>(
    s: RuntimeSnapshot<N, S>,
    s2: RuntimeSnapshot<N, S>,
    k: int,
    t: TaskRecord,
    programs: Seq<Program>,
)
    requires
        s.wf(),
        0 <= k < N,
        s.tasks@[k] is None,
        t.id.0 == s.next_task_id + 1,
        t.parent matches Some(p) ==> p.0 <= s.next_task_id,
        t.outcome == Outcome::Running,
        t.wait == WaitReason::Ready,
        s2.tasks@ == s.tasks@.update(k, Some(t)),
        s2.next_task_id == t.id.0,
        s2.clock == s.clock,
        s2.pending_signals == s.pending_signals,
    ensures
        s2.wf(),
        s.evolves_to(s2, programs),
        lex_lt(s2.measure(programs), s.measure(programs)),
        free_slot_count(s2.tasks@) + 1 == free_slot_count(s.tasks@),
{
    let a = s.tasks@;
    let b = s2.tasks@;
    lemma_slot_sum_update(a, k, Some(t), free_indicator());
    lemma_slot_sum_update(a, k, Some(t), weight_fn(programs));
    assert forall|i: int| 0 <= i < N && #[trigger] b[i] is Some implies 1 <= b[i].unwrap().id.0
        <= s2.next_task_id by {
        if i != k {
            assert(a[i] is Some);
        }
    }
    assert forall|i: int, j: int|
        0 <= i < N && 0 <= j < N && i != j && #[trigger] b[i] is Some && #[trigger] b[j] is Some
            implies b[i].unwrap().id != b[j].unwrap().id by {
        if i != k && j != k {
            assert(a[i] is Some && a[j] is Some);
        } else if i == k {
            assert(a[j] is Some);
        } else {
            assert(a[i] is Some);
        }
    }
    assert forall|i: int|
        0 <= i < N && #[trigger] b[i] is Some && b[i].unwrap().parent is Some implies b[i].unwrap().parent.unwrap().0
            < b[i].unwrap().id.0 by {
        if i != k {
            assert(a[i] is Some);
        }
    }
    assert forall|i: int| 0 <= i < N && #[trigger] b[i] is Some implies wait_refs_after(
        b[i].unwrap().wait,
        b[i].unwrap().id.0,
    ) by {
        if i != k {
            assert(a[i] is Some);
        }
    }
    assert(keeps_history(a, b));
}

/// Spawning lowered the free-slot count; a later record update keeps it.
pub proof fn lemma_chain_after_spawn<const N: usize, const S: usize>(
    s: RuntimeSnapshot<N, S>,
    mid: RuntimeSnapshot<N, S>,
    fin: RuntimeSnapshot<N, S>,
    programs: Seq<Program>,
)
    requires
        s.evolves_to(mid, programs),
        free_slot_count(mid.tasks@) < free_slot_count(s.tasks@),
        fin.wf(),
        keeps_history(mid.tasks@, fin.tasks@),
        free_slot_count(fin.tasks@) == free_slot_count(mid.tasks@),
        fin.clock == mid.clock,
        fin.pending_signals == mid.pending_signals,
        fin.next_task_id == mid.next_task_id,
    ensures
        s.evolves_to(fin, programs),
        lex_lt(fin.measure(programs), s.measure(programs)),
{
    crate::snapshot::lemma_keeps_history_trans(s.tasks@, mid.tasks@, fin.tasks@);
}

/// Exactly the first `n` entries are filled.
pub open spec fn filled_prefix(ordered: Seq<Option<usize>>, n: int) -> bool {
    &&& 0 <= n <= ordered.len()
    &&& forall|k: int| 0 <= k < n ==> #[trigger] ordered[k] is Some
    &&& forall|k: int| n <= k < ordered.len() ==> #[trigger] ordered[k] is None
}

/// The id of the task in the occupied slot `o`.
pub open spec fn slot_id(tasks: Seq<Option<TaskRecord>>, o: Option<usize>) -> int {
    tasks[o.unwrap() as int].unwrap().id.0 as int
}

/// `ordered` lists every occupied slot once, by increasing task id, followed by `None`s:
/// the order in which a round visits the tasks.
pub open spec fn run_order(tasks: Seq<Option<TaskRecord>>, ordered: Seq<Option<usize>>) -> bool {
    &&& ordered.len() == tasks.len()
    &&& exists|n: int| #[trigger] filled_prefix(ordered, n)
    &&& forall|k: int|
        0 <= k < ordered.len() && #[trigger] ordered[k] is Some ==> ordered[k].unwrap() < tasks.len()
            && tasks[ordered[k].unwrap() as int] is Some
    &&& forall|a: int, b: int|
        0 <= a < b < ordered.len() && #[trigger] ordered[a] is Some && #[trigger] ordered[b] is Some
            ==> slot_id(tasks, ordered[a]) < slot_id(tasks, ordered[b])
    &&& forall|s: int|
        0 <= s < tasks.len() && #[trigger] tasks[s] is Some ==> exists|k: int|
            0 <= k < ordered.len() && ordered[k] == Some(s as usize)
}

/// One selection-sort step: swapping the minimum of `[i, len)` into position `i`.
pub proof fn lemma_swap_keeps_order<const N: usize, const S: usize>(
    s: RuntimeSnapshot<N, S>,
    before: Seq<Option<usize>>,
    after: Seq<Option<usize>>,
    i: int,
    best: int,
    len: int,
)
    requires
        s.wf(),
        0 <= i <= best < len <= N,
        before.len() == N,
        after == before.update(i, before[best]).update(best, before[i]),
        forall|k: int| 0 <= k < len ==> #[trigger] before[k] is Some,
        forall|k: int| len <= k < N ==> #[trigger] before[k] is None,
        forall|k: int|
            0 <= k < len ==> #[trigger] before[k].unwrap() < N && s.tasks@[before[k].unwrap() as int] is Some,
        forall|a: int, b: int| 0 <= a < len && 0 <= b < len && a != b ==> #[trigger] before[a] != #[trigger] before[b],
        forall|x: int|
            0 <= x < N && #[trigger] s.tasks@[x] is Some ==> exists|k: int| 0 <= k < len && before[k] == Some(x as usize),
        forall|a: int, b: int|
            0 <= a < i && a < b < len ==> slot_id(s.tasks@, #[trigger] before[a]) < slot_id(s.tasks@, #[trigger] before[b]),
        forall|k: int| i <= k < len ==> slot_id(s.tasks@, before[best]) <= slot_id(s.tasks@, #[trigger] before[k]),
    ensures
        after.len() == N,
        forall|k: int| 0 <= k < len ==> #[trigger] after[k] is Some,
        forall|k: int| len <= k < N ==> #[trigger] after[k] is None,
        forall|k: int|
            0 <= k < len ==> #[trigger] after[k].unwrap() < N && s.tasks@[after[k].unwrap() as int] is Some,
        forall|a: int, b: int| 0 <= a < len && 0 <= b < len && a != b ==> #[trigger] after[a] != #[trigger] after[b],
        forall|x: int|
            0 <= x < N && #[trigger] s.tasks@[x] is Some ==> exists|k: int| 0 <= k < len && after[k] == Some(x as usize),
        forall|a: int, b: int|
            0 <= a < i + 1 && a < b < len ==> slot_id(s.tasks@, #[trigger] after[a]) < slot_id(s.tasks@, #[trigger] after[b]),
{
    let tasks = s.tasks@;
    assert forall|a: int, b: int| 0 <= a < len && 0 <= b < len && a != b implies #[trigger] after[a] != #[trigger] after[b] by {
        let pa = if a == i { best } else if a == best { i } else { a };
        let pb = if b == i { best } else if b == best { i } else { b };
        assert(after[a] == before[pa]);
        assert(after[b] == before[pb]);
    }
    assert forall|x: int|
        0 <= x < N && #[trigger] tasks[x] is Some implies exists|k: int| 0 <= k < len && after[k] == Some(x as usize) by {
        let k = choose|k: int| 0 <= k < len && before[k] == Some(x as usize);
        if k == i {
            assert(after[best] == Some(x as usize));
        } else if k == best {
            assert(after[i] == Some(x as usize));
        } else {
            assert(after[k] == Some(x as usize));
        }
    }
    assert forall|a: int, b: int|
        0 <= a < i + 1 && a < b < len implies slot_id(tasks, #[trigger] after[a]) < slot_id(tasks, #[trigger] after[b]) by {
        let pb = if b == i { best } else if b == best { i } else { b };
        assert(after[b] == before[pb]);
        if a < i {
            assert(after[a] == before[a]);
            if pb == i {
                assert(slot_id(tasks, before[a]) < slot_id(tasks, before[best]));
            }
        } else {
            assert(after[a] == before[best]);
            assert(pb != best);
            assert(before[pb] != before[best]);
            let sb = before[pb].unwrap() as int;
            let sbest = before[best].unwrap() as int;
            assert(sb != sbest);
            assert(tasks[sb] is Some && tasks[sbest] is Some);
            assert(tasks[sb].unwrap().id != tasks[sbest].unwrap().id);
            assert(slot_id(tasks, before[best]) <= slot_id(tasks, before[pb]));
        }
    }
}

} // verus!
