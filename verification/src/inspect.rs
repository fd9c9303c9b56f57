//! Inspection of stored snapshots against a catalog: normalization (empty slots dropped,
//! tasks ordered by id), validation of the references between tasks, and short labels.
use vstd::prelude::*;
use vstd::string::{StrSliceExecFns, StringExecFns};

use crate::authoring::{
    doc_ids, op_references, CompileError, OpDocument, OwnedProgramCatalog, ProgramCatalogDocument,
    ProgramDocument,
};
use crate::debug::{decimal, push_decimal};
use crate::ids::{ProgramId, SignalId, TaskId};
use crate::runtime::{Outcome, TaskRecord, WaitReason};

verus! {

broadcast use vstd::seq_lib::group_to_multiset_ensures;

/// A snapshot as a document holds it: slots and queue entries may be empty, and there is
/// no bound on their number.
#[derive(Clone, Debug, PartialEq, Eq)]
pub struct SnapshotDocument {
    pub clock: u64,
    pub next_task_id: u32,
    pub tasks: Vec<Option<TaskRecord>>,
    pub pending_signals: Vec<Option<SignalId>>,
}

/// A snapshot document with the empty entries dropped and the tasks ordered by id.
#[derive(Clone, Debug, PartialEq, Eq)]
pub struct NormalizedSnapshot {
    pub clock: u64,
    pub next_task_id: u32,
    pub tasks: Vec<TaskRecord>,
    pub pending_signals: Vec<SignalId>,
}

/// Why a snapshot does not fit a catalog.
#[derive(Clone, Copy, Debug, PartialEq, Eq, Structural)]
pub enum SnapshotError {
    UnknownProgram { task: TaskId, program: ProgramId },
    DuplicateTask(TaskId),
    MissingParent { task: TaskId, parent: TaskId },
    MissingScopeRoot { task: TaskId, scope_root: TaskId },
    MissingWaitTask { task: TaskId, target: TaskId },
}

/// The present entries of `s`, in order.
pub open spec fn present<T>(s: Seq<Option<T>>) -> Seq<T>
    decreases s.len(),
{
    if s.len() == 0 {
        Seq::empty()
    } else {
        match s.last() {
            Some(x) => present(s.drop_last()).push(x),
            None => present(s.drop_last()),
        }
    }
}

/// Where a stable insertion puts `t` into `s`: after the last task whose id is not larger.
pub open spec fn insert_pos(s: Seq<TaskRecord>, t: TaskRecord) -> int
    decreases s.len(),
{
    if s.len() == 0 || s.last().id.0 <= t.id.0 {
        s.len() as int
    } else {
        insert_pos(s.drop_last(), t)
    }
}

/// `s` ordered by task id, tasks with equal ids kept in their order.
pub open spec fn sort_by_id(s: Seq<TaskRecord>) -> Seq<TaskRecord>
    decreases s.len(),
{
    if s.len() == 0 {
        Seq::empty()
    } else {
        let r = sort_by_id(s.drop_last());
        r.insert(insert_pos(r, s.last()), s.last())
    }
}

pub open spec fn sorted_by_id(s: Seq<TaskRecord>) -> bool {
    forall|i: int, j: int| 0 <= i < j < s.len() ==> (#[trigger] s[i]).id.0 <= (#[trigger] s[j]).id.0
}

/// `n` is the normal form of `doc`: the present tasks ordered by id, the present
/// signals in queue order.
pub open spec fn normal_form_of(doc: SnapshotDocument, n: NormalizedSnapshot) -> bool {
    &&& n.clock == doc.clock
    &&& n.next_task_id == doc.next_task_id
    &&& n.tasks@ == sort_by_id(present(doc.tasks@))
    &&& n.pending_signals@ == present(doc.pending_signals@)
}

/// The ids of `tasks`, in order.
pub open spec fn task_ids(tasks: Seq<TaskRecord>) -> Seq<TaskId> {
    tasks.map_values(|t: TaskRecord| t.id)
}

/// The ids of the programs of `catalog`, in order.
pub open spec fn catalog_ids(catalog: OwnedProgramCatalog) -> Seq<ProgramId> {
    catalog.program_list().map_values(|p: crate::program::OwnedProgram| p.program_id())
}

/// The first task, from `i` on, that runs a program missing from `valid` or repeats an
/// earlier id.
pub open spec fn registry_error(tasks: Seq<TaskRecord>, valid: Seq<ProgramId>, i: int) -> Option<
    SnapshotError,
>
    decreases tasks.len() - i,
{
    if i < 0 || i >= tasks.len() {
        None
    } else if !valid.contains(tasks[i].program_id) {
        Some(SnapshotError::UnknownProgram { task: tasks[i].id, program: tasks[i].program_id })
    } else if task_ids(tasks).take(i).contains(tasks[i].id) {
        Some(SnapshotError::DuplicateTask(tasks[i].id))
    } else {
        registry_error(tasks, valid, i + 1)
    }
}

/// The first task a wait names that is not in `ids` (left before right).
pub open spec fn wait_target_error(t: TaskRecord, ids: Seq<TaskId>) -> Option<SnapshotError> {
    match t.wait {
        WaitReason::Race { left, right } => if !ids.contains(left) {
            Some(SnapshotError::MissingWaitTask { task: t.id, target: left })
        } else if !ids.contains(right) {
            Some(SnapshotError::MissingWaitTask { task: t.id, target: right })
        } else {
            None
        },
        WaitReason::RaceOrTicks { left, right, .. } => if !ids.contains(left) {
            Some(SnapshotError::MissingWaitTask { task: t.id, target: left })
        } else if !ids.contains(right) {
            Some(SnapshotError::MissingWaitTask { task: t.id, target: right })
        } else {
            None
        },
        WaitReason::Timeout { child, .. } => if !ids.contains(child) {
            Some(SnapshotError::MissingWaitTask { task: t.id, target: child })
        } else {
            None
        },
        _ => None,
    }
}

/// The first dangling link of one task: its parent, its scope root, then its wait.
pub open spec fn task_link_error(t: TaskRecord, ids: Seq<TaskId>) -> Option<SnapshotError> {
    match t.parent {
        Some(parent) if !ids.contains(parent) => Some(
            SnapshotError::MissingParent { task: t.id, parent },
        ),
        _ => if !ids.contains(t.scope_root) {
            Some(SnapshotError::MissingScopeRoot { task: t.id, scope_root: t.scope_root })
        } else {
            wait_target_error(t, ids)
        },
    }
}

/// The first task, from `i` on, with a dangling link.
pub open spec fn link_error(tasks: Seq<TaskRecord>, ids: Seq<TaskId>, i: int) -> Option<
    SnapshotError,
>
    decreases tasks.len() - i,
{
    if i < 0 || i >= tasks.len() {
        None
    } else {
        match task_link_error(tasks[i], ids) {
            Some(e) => Some(e),
            None => link_error(tasks, ids, i + 1),
        }
    }
}

/// Why `tasks` do not fit a catalog with the programs `valid`: first an unknown program or
/// a repeated id, in task order; then a dangling link, in task order.
pub open spec fn snapshot_error(valid: Seq<ProgramId>, tasks: Seq<TaskRecord>) -> Option<
    SnapshotError,
> {
    match registry_error(tasks, valid, 0) {
        Some(e) => Some(e),
        None => link_error(tasks, task_ids(tasks), 0),
    }
}

fn present_tasks(slots: &Vec<Option<TaskRecord>>) -> (tasks: Vec<TaskRecord>)
    ensures
        tasks@ == present(slots@),
{
    let mut tasks: Vec<TaskRecord> = Vec::new();
    let mut index: usize = 0;
    while index < slots.len()
        invariant
            index <= slots@.len(),
            tasks@ == present(slots@.take(index as int)),
        decreases slots@.len() - index,
    {
        proof {
            assert(slots@.take(index + 1).drop_last() =~= slots@.take(index as int));
        }
        if let Some(task) = slots[index] {
            tasks.push(task);
        }
        index = index + 1;
    }
    proof {
        assert(slots@.take(slots@.len() as int) =~= slots@);
    }
    tasks
}

fn present_signals(entries: &Vec<Option<SignalId>>) -> (signals: Vec<SignalId>)
    ensures
        signals@ == present(entries@),
{
    let mut signals: Vec<SignalId> = Vec::new();
    let mut index: usize = 0;
    while index < entries.len()
        invariant
            index <= entries@.len(),
            signals@ == present(entries@.take(index as int)),
        decreases entries@.len() - index,
    {
        proof {
            assert(entries@.take(index + 1).drop_last() =~= entries@.take(index as int));
        }
        if let Some(signal) = entries[index] {
            signals.push(signal);
        }
        index = index + 1;
    }
    proof {
        assert(entries@.take(entries@.len() as int) =~= entries@);
    }
    signals
}

/// Inserts `t` after the last task whose id is not larger.
fn insert_by_id(sorted: &mut Vec<TaskRecord>, t: TaskRecord)
    ensures
        final(sorted)@ == old(sorted)@.insert(insert_pos(old(sorted)@, t), t),
{
    let mut p: usize = sorted.len();
    proof {
        assert(sorted@.take(p as int) =~= sorted@);
    }
    while p > 0 && sorted[p - 1].id.0 > t.id.0
        invariant
            p <= sorted@.len(),
            sorted@ == old(sorted)@,
            insert_pos(sorted@, t) == insert_pos(sorted@.take(p as int), t),
        decreases p,
    {
        proof {
            assert(sorted@.take(p as int).drop_last() =~= sorted@.take(p - 1));
        }
        p = p - 1;
    }
    proof {
        assert(insert_pos(sorted@, t) == p);
    }
    sorted.insert(p, t);
}

/// Drops the empty entries of a snapshot document and orders its tasks by id (a stable
/// order: tasks with equal ids keep their document order).
pub fn normalize_snapshot(doc: &SnapshotDocument) -> (n: NormalizedSnapshot)
    ensures
        normal_form_of(*doc, n),
{
    let tasks = present_tasks(&doc.tasks);
    let mut sorted: Vec<TaskRecord> = Vec::new();
    let mut index: usize = 0;
    while index < tasks.len()
        invariant
            index <= tasks@.len(),
            sorted@ == sort_by_id(tasks@.take(index as int)),
        decreases tasks@.len() - index,
    {
        proof {
            assert(tasks@.take(index + 1).drop_last() =~= tasks@.take(index as int));
        }
        insert_by_id(&mut sorted, tasks[index]);
        index = index + 1;
    }
    proof {
        assert(tasks@.take(tasks@.len() as int) =~= tasks@);
    }
    NormalizedSnapshot {
        clock: doc.clock,
        next_task_id: doc.next_task_id,
        tasks: sorted,
        pending_signals: present_signals(&doc.pending_signals),
    }
}

fn catalog_has(catalog: &OwnedProgramCatalog, id: ProgramId) -> (found: bool)
    ensures
        found == catalog_ids(*catalog).contains(id),
{
    let programs = catalog.programs();
    let mut index: usize = 0;
    while index < programs.len()
        invariant
            index <= programs@.len(),
            programs@ == catalog.program_list(),
            forall|j: int| 0 <= j < index ==> catalog_ids(*catalog)[j] != id,
        decreases programs@.len() - index,
    {
        if programs[index].id() == id {
            assert(catalog_ids(*catalog)[index as int] == id);
            return true;
        }
        index = index + 1;
    }
    false
}

/// Whether one of the first `upto` tasks has the id `id`.
fn has_task_id(tasks: &Vec<TaskRecord>, upto: usize, id: TaskId) -> (found: bool)
    requires
        upto <= tasks@.len(),
    ensures
        found == task_ids(tasks@).take(upto as int).contains(id),
{
    let mut index: usize = 0;
    while index < upto
        invariant
            index <= upto <= tasks@.len(),
            forall|j: int| 0 <= j < index ==> task_ids(tasks@).take(upto as int)[j] != id,
        decreases upto - index,
    {
        if tasks[index].id == id {
            assert(task_ids(tasks@).take(upto as int)[index as int] == id);
            return true;
        }
        index = index + 1;
    }
    false
}

fn validate_wait_references(t: &TaskRecord, tasks: &Vec<TaskRecord>) -> (r: Option<SnapshotError>)
    ensures
        r == wait_target_error(*t, task_ids(tasks@)),
{
    proof {
        assert(task_ids(tasks@).take(tasks@.len() as int) =~= task_ids(tasks@));
    }
    match t.wait {
        WaitReason::Race { left, right } | WaitReason::RaceOrTicks { left, right, .. } => {
            if !has_task_id(tasks, tasks.len(), left) {
                return Some(SnapshotError::MissingWaitTask { task: t.id, target: left });
            }
            if !has_task_id(tasks, tasks.len(), right) {
                return Some(SnapshotError::MissingWaitTask { task: t.id, target: right });
            }
            None
        },
        WaitReason::Timeout { child, .. } => {
            if !has_task_id(tasks, tasks.len(), child) {
                return Some(SnapshotError::MissingWaitTask { task: t.id, target: child });
            }
            None
        },
        _ => None,
    }
}

/// Checks that every task of `snapshot` runs a program of `catalog`, that no id repeats,
/// and that every parent, scope root and waited-on task is present (see `snapshot_error`).
pub fn validate_snapshot_against_catalog(
    catalog: &OwnedProgramCatalog,
    snapshot: &NormalizedSnapshot,
) -> (r: Result<(), SnapshotError>)
    ensures
        r == match snapshot_error(catalog_ids(*catalog), snapshot.tasks@) {
            Some(e) => Err::<(), SnapshotError>(e),
            None => Ok(()),
        },
{
    let tasks = &snapshot.tasks;
    let ghost valid = catalog_ids(*catalog);
    let mut index: usize = 0;
    while index < tasks.len()
        invariant
            index <= tasks@.len(),
            tasks@ == snapshot.tasks@,
            valid == catalog_ids(*catalog),
            registry_error(tasks@, valid, 0) == registry_error(tasks@, valid, index as int),
        decreases tasks@.len() - index,
    {
        let task = &tasks[index];
        if !catalog_has(catalog, task.program_id) {
            return Err(SnapshotError::UnknownProgram { task: task.id, program: task.program_id });
        }
        if has_task_id(tasks, index, task.id) {
            return Err(SnapshotError::DuplicateTask(task.id));
        }
        index = index + 1;
    }
    proof {
        assert(task_ids(tasks@).take(tasks@.len() as int) =~= task_ids(tasks@));
    }
    let mut index: usize = 0;
    while index < tasks.len()
        invariant
            index <= tasks@.len(),
            tasks@ == snapshot.tasks@,
            valid == catalog_ids(*catalog),
            registry_error(tasks@, valid, 0) is None,
            task_ids(tasks@).take(tasks@.len() as int) == task_ids(tasks@),
            link_error(tasks@, task_ids(tasks@), 0) == link_error(
                tasks@,
                task_ids(tasks@),
                index as int,
            ),
        decreases tasks@.len() - index,
    {
        let task = &tasks[index];
        if let Some(parent) = task.parent {
            if !has_task_id(tasks, tasks.len(), parent) {
                return Err(SnapshotError::MissingParent { task: task.id, parent });
            }
        }
        if !has_task_id(tasks, tasks.len(), task.scope_root) {
            return Err(SnapshotError::MissingScopeRoot { task: task.id, scope_root: task.scope_root });
        }
        if let Some(e) = validate_wait_references(task, tasks) {
            return Err(e);
        }
        index = index + 1;
    }
    Ok(())
}

/// The name of an op's kind.
pub open spec fn op_kind_text(op: OpDocument) -> Seq<char> {
    match op {
        OpDocument::Action { .. } => "action"@,
        OpDocument::Call { .. } => "call"@,
        OpDocument::ChangeMind { .. } => "change_mind"@,
        OpDocument::RepeatUntilPredicate { .. } => "repeat_until_predicate"@,
        OpDocument::WaitUntilTick { .. } => "wait_until_tick"@,
        OpDocument::WaitSignalUntilTick { .. } => "wait_signal_until_tick"@,
        OpDocument::TimeoutUntilTick { .. } => "timeout_until_tick"@,
        OpDocument::RaceChildrenUntilTick { .. } => "race_children_until_tick"@,
        OpDocument::RaceChildrenOrTicks { .. } => "race_children_or_ticks"@,
        OpDocument::TimeoutTicks { .. } => "timeout_ticks"@,
        OpDocument::WaitSignalOrTicks { .. } => "wait_signal_or_ticks"@,
        OpDocument::WaitTicks { .. } => "wait_ticks"@,
        OpDocument::WaitSignal { .. } => "wait_signal"@,
        OpDocument::WaitPredicate { .. } => "wait_predicate"@,
        OpDocument::Spawn { .. } => "spawn"@,
        OpDocument::RepeatCount { .. } => "repeat_count"@,
        OpDocument::SyncChildren { .. } => "sync_children"@,
        OpDocument::BranchPredicate { .. } => "branch_predicate"@,
        OpDocument::JoinChildren => "join_children"@,
        OpDocument::JoinAnyChildren => "join_any_children"@,
        OpDocument::RaceChildren { .. } => "race_children"@,
        OpDocument::Race2 { .. } => "race2"@,
        OpDocument::Succeed => "succeed"@,
        OpDocument::Fail => "fail"@,
    }
}

/// The name of an op's kind (see `op_kind_text`).
pub fn op_kind(op: &OpDocument) -> (kind: &'static str)
    ensures
        kind@ == op_kind_text(*op),
{
    match op {
        OpDocument::Action { .. } => "action",
        OpDocument::Call { .. } => "call",
        OpDocument::ChangeMind { .. } => "change_mind",
        OpDocument::RepeatUntilPredicate { .. } => "repeat_until_predicate",
        OpDocument::WaitUntilTick { .. } => "wait_until_tick",
        OpDocument::WaitSignalUntilTick { .. } => "wait_signal_until_tick",
        OpDocument::TimeoutUntilTick { .. } => "timeout_until_tick",
        OpDocument::RaceChildrenUntilTick { .. } => "race_children_until_tick",
        OpDocument::RaceChildrenOrTicks { .. } => "race_children_or_ticks",
        OpDocument::TimeoutTicks { .. } => "timeout_ticks",
        OpDocument::WaitSignalOrTicks { .. } => "wait_signal_or_ticks",
        OpDocument::WaitTicks { .. } => "wait_ticks",
        OpDocument::WaitSignal { .. } => "wait_signal",
        OpDocument::WaitPredicate { .. } => "wait_predicate",
        OpDocument::Spawn { .. } => "spawn",
        OpDocument::RepeatCount { .. } => "repeat_count",
        OpDocument::SyncChildren { .. } => "sync_children",
        OpDocument::BranchPredicate { .. } => "branch_predicate",
        OpDocument::JoinChildren => "join_children",
        OpDocument::JoinAnyChildren => "join_any_children",
        OpDocument::RaceChildren { .. } => "race_children",
        OpDocument::Race2 { .. } => "race2",
        OpDocument::Succeed => "succeed",
        OpDocument::Fail => "fail",
    }
}

/// The name of a wait's kind.
pub open spec fn wait_kind_text(wait: WaitReason) -> Seq<char> {
    match wait {
        WaitReason::Ready => "ready"@,
        WaitReason::Ticks { .. } => "ticks"@,
        WaitReason::Signal(..) => "signal"@,
        WaitReason::Predicate(..) => "predicate"@,
        WaitReason::SignalOrTicks { .. } => "signal_or_ticks"@,
        WaitReason::RaceOrTicks { .. } => "race_or_ticks"@,
        WaitReason::Timeout { .. } => "timeout"@,
        WaitReason::RepeatUntilPredicate { .. } => "repeat_until_predicate"@,
        WaitReason::ChildrenAll => "children_all"@,
        WaitReason::ChildrenAny => "children_any"@,
        WaitReason::Race { .. } => "race"@,
    }
}

/// The name of a wait's kind (see `wait_kind_text`).
pub fn wait_kind(wait: WaitReason) -> (kind: &'static str)
    ensures
        kind@ == wait_kind_text(wait),
{
    match wait {
        WaitReason::Ready => "ready",
        WaitReason::Ticks { .. } => "ticks",
        WaitReason::Signal(..) => "signal",
        WaitReason::Predicate(..) => "predicate",
        WaitReason::SignalOrTicks { .. } => "signal_or_ticks",
        WaitReason::RaceOrTicks { .. } => "race_or_ticks",
        WaitReason::Timeout { .. } => "timeout",
        WaitReason::RepeatUntilPredicate { .. } => "repeat_until_predicate",
        WaitReason::ChildrenAll => "children_all",
        WaitReason::ChildrenAny => "children_any",
        WaitReason::Race { .. } => "race",
    }
}

/// The name of an outcome.
pub open spec fn outcome_kind_text(outcome: Outcome) -> Seq<char> {
    match outcome {
        Outcome::Running => "running"@,
        Outcome::Succeeded => "succeeded"@,
        Outcome::Failed => "failed"@,
        Outcome::Cancelled => "cancelled"@,
    }
}

/// The name of an outcome (see `outcome_kind_text`).
pub fn outcome_kind(outcome: Outcome) -> (kind: &'static str)
    ensures
        kind@ == outcome_kind_text(outcome),
{
    match outcome {
        Outcome::Running => "running",
        Outcome::Succeeded => "succeeded",
        Outcome::Failed => "failed",
        Outcome::Cancelled => "cancelled",
    }
}

/// The message of a compile error.
pub open spec fn compile_error_text(error: CompileError) -> Seq<char> {
    match error {
        CompileError::EmptyCatalog => "catalog is empty"@,
        CompileError::EmptyProgram { program_id } => "program "@ + decimal(program_id.0 as nat)
            + " has no ops"@,
        CompileError::DuplicateProgramId(program_id) => "duplicate program id "@ + decimal(
            program_id.0 as nat,
        ),
        CompileError::UnknownProgramReference { owner, target } => "program "@ + decimal(
            owner.0 as nat,
        ) + " references missing program "@ + decimal(target.0 as nat),
    }
}

/// The message of a compile error (see `compile_error_text`).
pub fn compile_error_label(error: CompileError) -> (label: String)
    ensures
        label@ == compile_error_text(error),
{
    match error {
        CompileError::EmptyCatalog => String::from_str("catalog is empty"),
        CompileError::EmptyProgram { program_id } => {
            let mut out = String::from_str("program ");
            push_decimal(&mut out, program_id.0 as u64);
            out.append(" has no ops");
            out
        },
        CompileError::DuplicateProgramId(program_id) => {
            let mut out = String::from_str("duplicate program id ");
            push_decimal(&mut out, program_id.0 as u64);
            out
        },
        CompileError::UnknownProgramReference { owner, target } => {
            let mut out = String::from_str("program ");
            push_decimal(&mut out, owner.0 as u64);
            out.append(" references missing program ");
            push_decimal(&mut out, target.0 as u64);
            out
        },
    }
}

/// The message of a snapshot error.
pub open spec fn snapshot_error_text(error: SnapshotError) -> Seq<char> {
    match error {
        SnapshotError::UnknownProgram { task, program } => "task "@ + decimal(task.0 as nat)
            + " references unknown program "@ + decimal(program.0 as nat),
        SnapshotError::DuplicateTask(task) => "duplicate task id "@ + decimal(task.0 as nat),
        SnapshotError::MissingParent { task, parent } => "task "@ + decimal(task.0 as nat)
            + " references missing parent task "@ + decimal(parent.0 as nat),
        SnapshotError::MissingScopeRoot { task, scope_root } => "task "@ + decimal(task.0 as nat)
            + " references missing scope root task "@ + decimal(scope_root.0 as nat),
        SnapshotError::MissingWaitTask { task, target } => "task "@ + decimal(task.0 as nat)
            + " wait references missing task "@ + decimal(target.0 as nat),
    }
}

impl SnapshotError {
    /// The message of this error (see `snapshot_error_text`).
    pub fn message(&self) -> (text: String)
        ensures
            text@ == snapshot_error_text(*self),
    {
        match *self {
            SnapshotError::UnknownProgram { task, program } => {
                let mut out = String::from_str("task ");
                push_decimal(&mut out, task.0 as u64);
                out.append(" references unknown program ");
                push_decimal(&mut out, program.0 as u64);
                out
            },
            SnapshotError::DuplicateTask(task) => {
                let mut out = String::from_str("duplicate task id ");
                push_decimal(&mut out, task.0 as u64);
                out
            },
            SnapshotError::MissingParent { task, parent } => {
                let mut out = String::from_str("task ");
                push_decimal(&mut out, task.0 as u64);
                out.append(" references missing parent task ");
                push_decimal(&mut out, parent.0 as u64);
                out
            },
            SnapshotError::MissingScopeRoot { task, scope_root } => {
                let mut out = String::from_str("task ");
                push_decimal(&mut out, task.0 as u64);
                out.append(" references missing scope root task ");
                push_decimal(&mut out, scope_root.0 as u64);
                out
            },
            SnapshotError::MissingWaitTask { task, target } => {
                let mut out = String::from_str("task ");
                push_decimal(&mut out, task.0 as u64);
                out.append(" wait references missing task ");
                push_decimal(&mut out, target.0 as u64);
                out
            },
        }
    }
}

pub open spec fn strictly_sorted(s: Seq<u16>) -> bool {
    forall|i: int, j: int| 0 <= i < j < s.len() ==> (#[trigger] s[i]) < (#[trigger] s[j])
}

/// `v` lists the values of `vals`, each once, in increasing order.
pub open spec fn sorted_set_of(v: Seq<u16>, vals: Seq<u16>) -> bool {
    strictly_sorted(v) && v.to_set() == vals.to_set()
}

proof fn lemma_insert_to_set(s: Seq<u16>, p: int, x: u16)
    requires
        0 <= p <= s.len(),
    ensures
        s.insert(p, x).to_set() == s.to_set().insert(x),
{
    let t = s.insert(p, x);
    assert forall|y: u16| t.contains(y) implies s.to_set().insert(x).contains(y) by {
        let i = choose|i: int| 0 <= i < t.len() && t[i] == y;
        if i < p {
            assert(s[i] == y);
        } else if i > p {
            assert(s[i - 1] == y);
        }
    }
    assert forall|y: u16| s.to_set().insert(x).contains(y) implies t.contains(y) by {
        if y == x {
            assert(t[p] == x);
        } else {
            let i = choose|i: int| 0 <= i < s.len() && s[i] == y;
            if i < p {
                assert(t[i] == y);
            } else {
                assert(t[i + 1] == y);
            }
        }
    }
    assert(t.to_set() =~= s.to_set().insert(x));
}

proof fn lemma_concat_to_set(a: Seq<u16>, b: Seq<u16>)
    ensures
        (a + b).to_set() == a.to_set().union(b.to_set()),
{
    let c = a + b;
    assert forall|y: u16| c.contains(y) implies a.to_set().union(b.to_set()).contains(y) by {
        let i = choose|i: int| 0 <= i < c.len() && c[i] == y;
        if i < a.len() {
            assert(a[i] == y);
        } else {
            assert(b[i - a.len()] == y);
        }
    }
    assert forall|y: u16| a.to_set().union(b.to_set()).contains(y) implies c.contains(y) by {
        if a.contains(y) {
            let i = choose|i: int| 0 <= i < a.len() && a[i] == y;
            assert(c[i] == y);
        } else {
            let i = choose|i: int| 0 <= i < b.len() && b[i] == y;
            assert(c[a.len() + i] == y);
        }
    }
    assert(c.to_set() =~= a.to_set().union(b.to_set()));
}

/// Adds `x` to a strictly increasing list, unless it is there.
fn insert_sorted_unique(v: &mut Vec<u16>, x: u16)
    requires
        strictly_sorted(old(v)@),
    ensures
        strictly_sorted(final(v)@),
        final(v)@.to_set() == old(v)@.to_set().insert(x),
{
    let mut p: usize = 0;
    while p < v.len() && v[p] < x
        invariant
            p <= v@.len(),
            v@ == old(v)@,
            strictly_sorted(v@),
            forall|j: int| 0 <= j < p ==> #[trigger] v@[j] < x,
        decreases v@.len() - p,
    {
        p = p + 1;
    }
    if p < v.len() && v[p] == x {
        proof {
            assert(v@.to_set().contains(x));
            assert(v@.to_set().insert(x) =~= v@.to_set());
        }
        return;
    }
    proof {
        lemma_insert_to_set(v@, p as int, x);
    }
    let ghost before = v@;
    v.insert(p, x);
    proof {
        assert forall|i: int, j: int| 0 <= i < j < v@.len() implies (#[trigger] v@[i]) < (
        #[trigger] v@[j]) by {
            if j < p {
                assert(v@[i] == before[i] && v@[j] == before[j]);
            } else if j == p {
                assert(v@[i] == before[i]);
            } else if i < p {
                assert(v@[i] == before[i] && v@[j] == before[j - 1]);
                assert(before[p as int] > x);
                assert(before[j - 1] >= before[p as int]);
            } else if i == p {
                assert(v@[j] == before[j - 1]);
                assert(before[p as int] > x);
                assert(before[j - 1] >= before[p as int]);
            } else {
                assert(v@[i] == before[i - 1] && v@[j] == before[j - 1]);
            }
        }
    }
}

/// Adds every value of `xs` to a strictly increasing list.
fn insert_all_sorted_unique(v: &mut Vec<u16>, xs: &Vec<u16>)
    requires
        strictly_sorted(old(v)@),
    ensures
        strictly_sorted(final(v)@),
        final(v)@.to_set() == old(v)@.to_set().union(xs@.to_set()),
{
    let mut index: usize = 0;
    while index < xs.len()
        invariant
            index <= xs@.len(),
            strictly_sorted(v@),
            v@.to_set() == old(v)@.to_set().union(xs@.take(index as int).to_set()),
        decreases xs@.len() - index,
    {
        let ghost prev = v@;
        insert_sorted_unique(v, xs[index]);
        proof {
            assert(xs@.take(index + 1) =~= xs@.take(index as int).push(xs@[index as int]));
            xs@.take(index as int).lemma_push_to_set_commute(xs@[index as int]);
            assert(v@.to_set() =~= old(v)@.to_set().union(xs@.take(index + 1).to_set()));
        }
        index = index + 1;
    }
    proof {
        assert(xs@.take(xs@.len() as int) =~= xs@);
    }
}

/// Which ids of an op a summary collects.
#[derive(Clone, Copy, Debug, PartialEq, Eq, Structural)]
pub enum IdField {
    Program,
    Signal,
    Predicate,
    Mind,
    HostCall,
}

/// The ids of one kind that an op names, in field order.
pub open spec fn op_id_values(op: OpDocument, field: IdField) -> Seq<u16> {
    match field {
        IdField::Program => op_references(op).map_values(|p: ProgramId| p.0),
        IdField::Signal => match op {
            OpDocument::WaitSignalUntilTick { signal, .. } => seq![signal.0],
            OpDocument::WaitSignalOrTicks { signal, .. } => seq![signal.0],
            OpDocument::WaitSignal { signal } => seq![signal.0],
            _ => Seq::empty(),
        },
        IdField::Predicate => match op {
            OpDocument::RepeatUntilPredicate { predicate, .. } => seq![predicate.0],
            OpDocument::WaitPredicate { predicate } => seq![predicate.0],
            OpDocument::BranchPredicate { predicate, .. } => seq![predicate.0],
            _ => Seq::empty(),
        },
        IdField::Mind => match op {
            OpDocument::ChangeMind { mind } => seq![mind.0],
            _ => Seq::empty(),
        },
        IdField::HostCall => match op {
            OpDocument::Call { call, .. } => seq![call.0],
            _ => Seq::empty(),
        },
    }
}

/// The ids of one kind that `ops` name, in order.
pub open spec fn ops_id_values(ops: Seq<OpDocument>, field: IdField) -> Seq<u16>
    decreases ops.len(),
{
    if ops.len() == 0 {
        Seq::empty()
    } else {
        ops_id_values(ops.drop_last(), field) + op_id_values(ops.last(), field)
    }
}

/// Every op of every program, in order.
pub open spec fn doc_ops(programs: Seq<ProgramDocument>) -> Seq<OpDocument>
    decreases programs.len(),
{
    if programs.len() == 0 {
        Seq::empty()
    } else {
        doc_ops(programs.drop_last()) + programs.last().ops@
    }
}

/// The position of an op's kind in `OpDocument`'s list of variants.
pub open spec fn op_kind_index(op: OpDocument) -> nat {
    match op {
        OpDocument::Action { .. } => 0,
        OpDocument::Call { .. } => 1,
        OpDocument::ChangeMind { .. } => 2,
        OpDocument::RepeatUntilPredicate { .. } => 3,
        OpDocument::WaitUntilTick { .. } => 4,
        OpDocument::WaitSignalUntilTick { .. } => 5,
        OpDocument::TimeoutUntilTick { .. } => 6,
        OpDocument::RaceChildrenUntilTick { .. } => 7,
        OpDocument::RaceChildrenOrTicks { .. } => 8,
        OpDocument::TimeoutTicks { .. } => 9,
        OpDocument::WaitSignalOrTicks { .. } => 10,
        OpDocument::WaitTicks { .. } => 11,
        OpDocument::WaitSignal { .. } => 12,
        OpDocument::WaitPredicate { .. } => 13,
        OpDocument::Spawn { .. } => 14,
        OpDocument::RepeatCount { .. } => 15,
        OpDocument::SyncChildren { .. } => 16,
        OpDocument::BranchPredicate { .. } => 17,
        OpDocument::JoinChildren => 18,
        OpDocument::JoinAnyChildren => 19,
        OpDocument::RaceChildren { .. } => 20,
        OpDocument::Race2 { .. } => 21,
        OpDocument::Succeed => 22,
        OpDocument::Fail => 23,
    }
}

/// The number of op kinds.
pub const OP_KIND_COUNT: usize = 24;

/// How many of `ops` are of the kind with index `k`.
pub open spec fn kind_count(ops: Seq<OpDocument>, k: nat) -> nat
    decreases ops.len(),
{
    if ops.len() == 0 {
        0
    } else {
        kind_count(ops.drop_last(), k) + if op_kind_index(ops.last()) == k {
            1nat
        } else {
            0nat
        }
    }
}

proof fn lemma_kind_count_bound(ops: Seq<OpDocument>, k: nat)
    ensures
        kind_count(ops, k) <= ops.len(),
    decreases ops.len(),
{
    if ops.len() > 0 {
        lemma_kind_count_bound(ops.drop_last(), k);
    }
}

/// What the catalog summary holds.
#[derive(Clone, Debug, PartialEq, Eq)]
pub struct CatalogSummary {
    pub program_count: usize,
    pub program_ids: Vec<u16>,
    pub referenced_program_ids: Vec<u16>,
    /// How many ops there are of each kind, by the kind's index (see `op_kind_name`).
    pub op_counts: Vec<usize>,
    pub signal_ids: Vec<u16>,
    pub predicate_ids: Vec<u16>,
    pub mind_ids: Vec<u16>,
    pub host_call_ids: Vec<u16>,
}

/// `s` summarizes the catalog document `programs`: its program ids in order, and, over
/// all ops, each kind of id named (once each, increasing) and the number of ops per kind.
pub open spec fn summarizes_catalog(programs: Seq<ProgramDocument>, s: CatalogSummary) -> bool {
    let ops = doc_ops(programs);
    &&& s.program_count == programs.len()
    &&& s.program_ids@ == doc_ids(programs).map_values(|p: ProgramId| p.0)
    &&& sorted_set_of(s.referenced_program_ids@, ops_id_values(ops, IdField::Program))
    &&& sorted_set_of(s.signal_ids@, ops_id_values(ops, IdField::Signal))
    &&& sorted_set_of(s.predicate_ids@, ops_id_values(ops, IdField::Predicate))
    &&& sorted_set_of(s.mind_ids@, ops_id_values(ops, IdField::Mind))
    &&& sorted_set_of(s.host_call_ids@, ops_id_values(ops, IdField::HostCall))
    &&& s.op_counts@.len() == OP_KIND_COUNT
    &&& forall|k: int| 0 <= k < OP_KIND_COUNT ==> #[trigger] s.op_counts@[k] == kind_count(ops, k as nat)
}

/// The ids of one kind that `op` names (see `op_id_values`).
pub fn op_ids(op: &OpDocument, field: IdField) -> (ids: Vec<u16>)
    ensures
        ids@ == op_id_values(*op, field),
{
    let mut ids: Vec<u16> = Vec::new();
    match field {
        IdField::Program => match *op {
            OpDocument::Spawn { program }
            | OpDocument::RepeatUntilPredicate { program, .. }
            | OpDocument::TimeoutUntilTick { program, .. }
            | OpDocument::TimeoutTicks { program, .. }
            | OpDocument::RepeatCount { program, .. } => {
                ids.push(program.0);
            },
            OpDocument::RaceChildrenUntilTick { left, right, .. }
            | OpDocument::RaceChildrenOrTicks { left, right, .. }
            | OpDocument::SyncChildren { left, right }
            | OpDocument::RaceChildren { left, right }
            | OpDocument::Race2 { left, right } => {
                ids.push(left.0);
                ids.push(right.0);
            },
            OpDocument::BranchPredicate { if_true, if_false, .. } => {
                ids.push(if_true.0);
                ids.push(if_false.0);
            },
            _ => {},
        },
        IdField::Signal => match *op {
            OpDocument::WaitSignalUntilTick { signal, .. }
            | OpDocument::WaitSignalOrTicks { signal, .. }
            | OpDocument::WaitSignal { signal } => {
                ids.push(signal.0);
            },
            _ => {},
        },
        IdField::Predicate => match *op {
            OpDocument::RepeatUntilPredicate { predicate, .. }
            | OpDocument::WaitPredicate { predicate }
            | OpDocument::BranchPredicate { predicate, .. } => {
                ids.push(predicate.0);
            },
            _ => {},
        },
        IdField::Mind => match *op {
            OpDocument::ChangeMind { mind } => {
                ids.push(mind.0);
            },
            _ => {},
        },
        IdField::HostCall => match *op {
            OpDocument::Call { call, .. } => {
                ids.push(call.0);
            },
            _ => {},
        },
    }
    proof {
        assert(ids@ =~= op_id_values(*op, field));
    }
    ids
}

/// The index of an op's kind (see `op_kind_index`).
pub fn op_kind_number(op: &OpDocument) -> (k: usize)
    ensures
        k == op_kind_index(*op),
        k < OP_KIND_COUNT,
{
    match op {
        OpDocument::Action { .. } => 0,
        OpDocument::Call { .. } => 1,
        OpDocument::ChangeMind { .. } => 2,
        OpDocument::RepeatUntilPredicate { .. } => 3,
        OpDocument::WaitUntilTick { .. } => 4,
        OpDocument::WaitSignalUntilTick { .. } => 5,
        OpDocument::TimeoutUntilTick { .. } => 6,
        OpDocument::RaceChildrenUntilTick { .. } => 7,
        OpDocument::RaceChildrenOrTicks { .. } => 8,
        OpDocument::TimeoutTicks { .. } => 9,
        OpDocument::WaitSignalOrTicks { .. } => 10,
        OpDocument::WaitTicks { .. } => 11,
        OpDocument::WaitSignal { .. } => 12,
        OpDocument::WaitPredicate { .. } => 13,
        OpDocument::Spawn { .. } => 14,
        OpDocument::RepeatCount { .. } => 15,
        OpDocument::SyncChildren { .. } => 16,
        OpDocument::BranchPredicate { .. } => 17,
        OpDocument::JoinChildren => 18,
        OpDocument::JoinAnyChildren => 19,
        OpDocument::RaceChildren { .. } => 20,
        OpDocument::Race2 { .. } => 21,
        OpDocument::Succeed => 22,
        OpDocument::Fail => 23,
    }
}

/// The name of the op kind with index `k` (the `op_kind_text` of the ops of that kind).
pub fn op_kind_name(k: usize) -> (name: &'static str)
    requires
        k < OP_KIND_COUNT,
    ensures
        forall|op: OpDocument| op_kind_index(op) == k ==> name@ == #[trigger] op_kind_text(op),
{
    let representative = match k {
        0 => OpDocument::Action { action: crate::ids::ActionId(0) },
        1 => OpDocument::Call { call: crate::ids::HostCallId(0), arg0: 0, arg1: 0, arg2: 0, arg3: 0 },
        2 => OpDocument::ChangeMind { mind: crate::ids::MindId(0) },
        3 => OpDocument::RepeatUntilPredicate {
            predicate: crate::ids::PredicateId(0),
            program: ProgramId(0),
        },
        4 => OpDocument::WaitUntilTick { until_tick: 0 },
        5 => OpDocument::WaitSignalUntilTick { signal: SignalId(0), until_tick: 0 },
        6 => OpDocument::TimeoutUntilTick { until_tick: 0, program: ProgramId(0) },
        7 => OpDocument::RaceChildrenUntilTick {
            left: ProgramId(0),
            right: ProgramId(0),
            until_tick: 0,
        },
        8 => OpDocument::RaceChildrenOrTicks { left: ProgramId(0), right: ProgramId(0), ticks: 0 },
        9 => OpDocument::TimeoutTicks { ticks: 0, program: ProgramId(0) },
        10 => OpDocument::WaitSignalOrTicks { signal: SignalId(0), ticks: 0 },
        11 => OpDocument::WaitTicks { ticks: 0 },
        12 => OpDocument::WaitSignal { signal: SignalId(0) },
        13 => OpDocument::WaitPredicate { predicate: crate::ids::PredicateId(0) },
        14 => OpDocument::Spawn { program: ProgramId(0) },
        15 => OpDocument::RepeatCount { count: 0, program: ProgramId(0) },
        16 => OpDocument::SyncChildren { left: ProgramId(0), right: ProgramId(0) },
        17 => OpDocument::BranchPredicate {
            predicate: crate::ids::PredicateId(0),
            if_true: ProgramId(0),
            if_false: ProgramId(0),
        },
        18 => OpDocument::JoinChildren,
        19 => OpDocument::JoinAnyChildren,
        20 => OpDocument::RaceChildren { left: ProgramId(0), right: ProgramId(0) },
        21 => OpDocument::Race2 { left: ProgramId(0), right: ProgramId(0) },
        22 => OpDocument::Succeed,
        _ => OpDocument::Fail,
    };
    op_kind(&representative)
}

/// Summarizes a catalog document (see `summarizes_catalog`).
pub fn build_catalog_summary(document: &ProgramCatalogDocument) -> (summary: CatalogSummary)
    requires
        doc_ops(document.programs@).len() <= usize::MAX,
    ensures
        summarizes_catalog(document.programs@, summary),
{
    let programs = &document.programs;
    let mut program_ids: Vec<u16> = Vec::new();
    let mut referenced: Vec<u16> = Vec::new();
    let mut signals: Vec<u16> = Vec::new();
    let mut predicates: Vec<u16> = Vec::new();
    let mut minds: Vec<u16> = Vec::new();
    let mut calls: Vec<u16> = Vec::new();
    let mut counts: Vec<usize> = Vec::new();
    while counts.len() < OP_KIND_COUNT
        invariant
            counts@.len() <= OP_KIND_COUNT,
            forall|k: int| 0 <= k < counts@.len() ==> #[trigger] counts@[k] == 0,
        decreases OP_KIND_COUNT - counts@.len(),
    {
        counts.push(0);
    }
    let ghost all = doc_ops(programs@);
    let ghost mut seen: Seq<OpDocument> = Seq::empty();
    let mut i: usize = 0;
    while i < programs.len()
        invariant
            i <= programs@.len(),
            programs@ == document.programs@,
            all == doc_ops(programs@),
            all.len() <= usize::MAX,
            seen == doc_ops(programs@.take(i as int)),
            seen.len() <= all.len(),
            program_ids@ == doc_ids(programs@.take(i as int)).map_values(|p: ProgramId| p.0),
            sorted_set_of(referenced@, ops_id_values(seen, IdField::Program)),
            sorted_set_of(signals@, ops_id_values(seen, IdField::Signal)),
            sorted_set_of(predicates@, ops_id_values(seen, IdField::Predicate)),
            sorted_set_of(minds@, ops_id_values(seen, IdField::Mind)),
            sorted_set_of(calls@, ops_id_values(seen, IdField::HostCall)),
            counts@.len() == OP_KIND_COUNT,
            forall|k: int| 0 <= k < OP_KIND_COUNT ==> #[trigger] counts@[k] == kind_count(seen, k as nat),
        decreases programs@.len() - i,
    {
        let program = &programs[i];
        let ghost outer = seen;
        proof {
            assert(programs@.take(i + 1).drop_last() =~= programs@.take(i as int));
            lemma_doc_ops_prefix(programs@, i as int);
        }
        let mut j: usize = 0;
        while j < program.ops.len()
            invariant
                i < programs@.len(),
                program == programs@[i as int],
                all == doc_ops(programs@),
                all.len() <= usize::MAX,
                outer == doc_ops(programs@.take(i as int)),
                doc_ops(programs@.take(i + 1)) == outer + program.ops@,
                doc_ops(programs@.take(i + 1)).len() <= all.len(),
                j <= program.ops@.len(),
                seen == outer + program.ops@.take(j as int),
                sorted_set_of(referenced@, ops_id_values(seen, IdField::Program)),
                sorted_set_of(signals@, ops_id_values(seen, IdField::Signal)),
                sorted_set_of(predicates@, ops_id_values(seen, IdField::Predicate)),
                sorted_set_of(minds@, ops_id_values(seen, IdField::Mind)),
                sorted_set_of(calls@, ops_id_values(seen, IdField::HostCall)),
                counts@.len() == OP_KIND_COUNT,
                forall|k: int|
                    0 <= k < OP_KIND_COUNT ==> #[trigger] counts@[k] == kind_count(seen, k as nat),
            decreases program.ops@.len() - j,
        {
            let op = &program.ops[j];
            let ghost before = seen;
            proof {
                seen = seen.push(*op);
                assert(outer + program.ops@.take(j + 1) =~= seen);
                assert(seen.drop_last() =~= before);
                assert(seen.len() <= all.len());
            }
            let ids = op_ids(op, IdField::Program);
            insert_all_sorted_unique(&mut referenced, &ids);
            let ids = op_ids(op, IdField::Signal);
            insert_all_sorted_unique(&mut signals, &ids);
            let ids = op_ids(op, IdField::Predicate);
            insert_all_sorted_unique(&mut predicates, &ids);
            let ids = op_ids(op, IdField::Mind);
            insert_all_sorted_unique(&mut minds, &ids);
            let ids = op_ids(op, IdField::HostCall);
            insert_all_sorted_unique(&mut calls, &ids);
            proof {
                lemma_concat_to_set(ops_id_values(before, IdField::Program), op_id_values(*op, IdField::Program));
                lemma_concat_to_set(ops_id_values(before, IdField::Signal), op_id_values(*op, IdField::Signal));
                lemma_concat_to_set(ops_id_values(before, IdField::Predicate), op_id_values(*op, IdField::Predicate));
                lemma_concat_to_set(ops_id_values(before, IdField::Mind), op_id_values(*op, IdField::Mind));
                lemma_concat_to_set(ops_id_values(before, IdField::HostCall), op_id_values(*op, IdField::HostCall));
            }
            let k = op_kind_number(op);
            proof {
                lemma_kind_count_bound(seen, k as nat);
            }
            let c = counts[k];
            counts.set(k, c + 1);
            j = j + 1;
        }
        proof {
            assert(program.ops@.take(program.ops@.len() as int) =~= program.ops@);
            assert(doc_ids(programs@.take(i + 1)).map_values(|p: ProgramId| p.0) =~= doc_ids(
                programs@.take(i as int),
            ).map_values(|p: ProgramId| p.0).push(program.id.0));
        }
        program_ids.push(program.id.0);
        i = i + 1;
    }
    proof {
        assert(programs@.take(programs@.len() as int) =~= programs@);
    }
    CatalogSummary {
        program_count: programs.len(),
        program_ids,
        referenced_program_ids: referenced,
        op_counts: counts,
        signal_ids: signals,
        predicate_ids: predicates,
        mind_ids: minds,
        host_call_ids: calls,
    }
}

proof fn lemma_doc_ops_prefix(programs: Seq<ProgramDocument>, i: int)
    requires
        0 <= i < programs.len(),
    ensures
        doc_ops(programs.take(i + 1)) == doc_ops(programs.take(i)) + programs[i].ops@,
        doc_ops(programs.take(i + 1)).len() <= doc_ops(programs).len(),
    decreases programs.len() - i,
{
    assert(programs.take(i + 1).drop_last() =~= programs.take(i));
    if i + 1 < programs.len() {
        lemma_doc_ops_prefix(programs, i + 1);
    } else {
        assert(programs.take(i + 1) =~= programs);
    }
}

/// The position of a wait's kind in `WaitReason`'s list of variants.
pub open spec fn wait_kind_index(wait: WaitReason) -> nat {
    match wait {
        WaitReason::Ready => 0,
        WaitReason::Ticks { .. } => 1,
        WaitReason::Signal(..) => 2,
        WaitReason::Predicate(..) => 3,
        WaitReason::SignalOrTicks { .. } => 4,
        WaitReason::RaceOrTicks { .. } => 5,
        WaitReason::Timeout { .. } => 6,
        WaitReason::RepeatUntilPredicate { .. } => 7,
        WaitReason::ChildrenAll => 8,
        WaitReason::ChildrenAny => 9,
        WaitReason::Race { .. } => 10,
    }
}

/// The number of wait kinds.
pub const WAIT_KIND_COUNT: usize = 11;

/// The position of an outcome in `Outcome`'s list of variants.
pub open spec fn outcome_index(outcome: Outcome) -> nat {
    match outcome {
        Outcome::Running => 0,
        Outcome::Succeeded => 1,
        Outcome::Failed => 2,
        Outcome::Cancelled => 3,
    }
}

/// The number of outcomes.
pub const OUTCOME_COUNT: usize = 4;

/// How many of `tasks` wait with the kind of index `k`.
pub open spec fn wait_kind_count(tasks: Seq<TaskRecord>, k: nat) -> nat
    decreases tasks.len(),
{
    if tasks.len() == 0 {
        0
    } else {
        wait_kind_count(tasks.drop_last(), k) + if wait_kind_index(tasks.last().wait) == k {
            1nat
        } else {
            0nat
        }
    }
}

/// How many of `tasks` have the outcome of index `k`.
pub open spec fn outcome_count(tasks: Seq<TaskRecord>, k: nat) -> nat
    decreases tasks.len(),
{
    if tasks.len() == 0 {
        0
    } else {
        outcome_count(tasks.drop_last(), k) + if outcome_index(tasks.last().outcome) == k {
            1nat
        } else {
            0nat
        }
    }
}

/// How many of `tasks` have no parent.
pub open spec fn root_count(tasks: Seq<TaskRecord>) -> nat
    decreases tasks.len(),
{
    if tasks.len() == 0 {
        0
    } else {
        root_count(tasks.drop_last()) + if tasks.last().parent is None {
            1nat
        } else {
            0nat
        }
    }
}

proof fn lemma_task_counts_bound(tasks: Seq<TaskRecord>, k: nat)
    ensures
        wait_kind_count(tasks, k) <= tasks.len(),
        outcome_count(tasks, k) <= tasks.len(),
        root_count(tasks) <= tasks.len(),
    decreases tasks.len(),
{
    if tasks.len() > 0 {
        lemma_task_counts_bound(tasks.drop_last(), k);
    }
}

/// Counts and id sets over a list of tasks.
#[derive(Clone, Debug, PartialEq, Eq)]
pub struct TaskOverview {
    pub task_count: usize,
    pub root_task_count: usize,
    pub program_ids: Vec<u16>,
    pub mind_ids: Vec<u16>,
    /// How many tasks wait with each kind, by the kind's index (see `wait_kind_name`).
    pub wait_counts: Vec<usize>,
    /// How many tasks have each outcome, by the outcome's index (see `outcome_name`).
    pub outcome_counts: Vec<usize>,
}

/// `o` describes `tasks`: their number, the number without a parent, the program and mind
/// ids they use (once each, increasing), and their number per wait kind and per outcome.
pub open spec fn overview_of(tasks: Seq<TaskRecord>, o: TaskOverview) -> bool {
    &&& o.task_count == tasks.len()
    &&& o.root_task_count == root_count(tasks)
    &&& sorted_set_of(o.program_ids@, tasks.map_values(|t: TaskRecord| t.program_id.0))
    &&& sorted_set_of(o.mind_ids@, tasks.map_values(|t: TaskRecord| t.mind_id.0))
    &&& o.wait_counts@.len() == WAIT_KIND_COUNT
    &&& forall|k: int|
        0 <= k < WAIT_KIND_COUNT ==> #[trigger] o.wait_counts@[k] == wait_kind_count(tasks, k as nat)
    &&& o.outcome_counts@.len() == OUTCOME_COUNT
    &&& forall|k: int|
        0 <= k < OUTCOME_COUNT ==> #[trigger] o.outcome_counts@[k] == outcome_count(tasks, k as nat)
}

fn zeros(n: usize) -> (v: Vec<usize>)
    ensures
        v@.len() == n,
        forall|k: int| 0 <= k < n ==> #[trigger] v@[k] == 0,
{
    let mut v: Vec<usize> = Vec::new();
    while v.len() < n
        invariant
            v@.len() <= n,
            forall|k: int| 0 <= k < v@.len() ==> #[trigger] v@[k] == 0,
        decreases n - v@.len(),
    {
        v.push(0);
    }
    v
}

/// The index of a wait's kind (see `wait_kind_index`).
pub fn wait_kind_number(wait: WaitReason) -> (k: usize)
    ensures
        k == wait_kind_index(wait),
        k < WAIT_KIND_COUNT,
{
    match wait {
        WaitReason::Ready => 0,
        WaitReason::Ticks { .. } => 1,
        WaitReason::Signal(..) => 2,
        WaitReason::Predicate(..) => 3,
        WaitReason::SignalOrTicks { .. } => 4,
        WaitReason::RaceOrTicks { .. } => 5,
        WaitReason::Timeout { .. } => 6,
        WaitReason::RepeatUntilPredicate { .. } => 7,
        WaitReason::ChildrenAll => 8,
        WaitReason::ChildrenAny => 9,
        WaitReason::Race { .. } => 10,
    }
}

/// The name of the wait kind with index `k` (the `wait_kind_text` of the waits of that kind).
pub fn wait_kind_name(k: usize) -> (name: &'static str)
    requires
        k < WAIT_KIND_COUNT,
    ensures
        forall|w: WaitReason| wait_kind_index(w) == k ==> name@ == #[trigger] wait_kind_text(w),
{
    let representative = match k {
        0 => WaitReason::Ready,
        1 => WaitReason::Ticks { until_tick: 0 },
        2 => WaitReason::Signal(SignalId(0)),
        3 => WaitReason::Predicate(crate::ids::PredicateId(0)),
        4 => WaitReason::SignalOrTicks { signal: SignalId(0), until_tick: 0 },
        5 => WaitReason::RaceOrTicks { left: TaskId(0), right: TaskId(0), until_tick: 0 },
        6 => WaitReason::Timeout { child: TaskId(0), until_tick: 0 },
        7 => WaitReason::RepeatUntilPredicate {
            predicate: crate::ids::PredicateId(0),
            resume_at_tick: 0,
        },
        8 => WaitReason::ChildrenAll,
        9 => WaitReason::ChildrenAny,
        _ => WaitReason::Race { left: TaskId(0), right: TaskId(0) },
    };
    wait_kind(representative)
}

/// The index of an outcome (see `outcome_index`).
pub fn outcome_number(outcome: Outcome) -> (k: usize)
    ensures
        k == outcome_index(outcome),
        k < OUTCOME_COUNT,
{
    match outcome {
        Outcome::Running => 0,
        Outcome::Succeeded => 1,
        Outcome::Failed => 2,
        Outcome::Cancelled => 3,
    }
}

/// The name of the outcome with index `k` (its `outcome_kind_text`).
pub fn outcome_name(k: usize) -> (name: &'static str)
    requires
        k < OUTCOME_COUNT,
    ensures
        forall|o: Outcome| outcome_index(o) == k ==> name@ == #[trigger] outcome_kind_text(o),
{
    let representative = match k {
        0 => Outcome::Running,
        1 => Outcome::Succeeded,
        2 => Outcome::Failed,
        _ => Outcome::Cancelled,
    };
    outcome_kind(representative)
}

/// The ids of the tasks without a parent, in order.
pub open spec fn root_ids(tasks: Seq<TaskRecord>) -> Seq<u32>
    decreases tasks.len(),
{
    if tasks.len() == 0 {
        Seq::empty()
    } else if tasks.last().parent is None {
        root_ids(tasks.drop_last()).push(tasks.last().id.0)
    } else {
        root_ids(tasks.drop_last())
    }
}

/// The ids of the tasks without a parent, in task order.
pub fn root_task_ids(tasks: &Vec<TaskRecord>) -> (ids: Vec<u32>)
    ensures
        ids@ == root_ids(tasks@),
{
    let mut ids: Vec<u32> = Vec::new();
    let mut index: usize = 0;
    while index < tasks.len()
        invariant
            index <= tasks@.len(),
            ids@ == root_ids(tasks@.take(index as int)),
        decreases tasks@.len() - index,
    {
        proof {
            assert(tasks@.take(index + 1).drop_last() =~= tasks@.take(index as int));
        }
        if tasks[index].parent.is_none() {
            ids.push(tasks[index].id.0);
        }
        index = index + 1;
    }
    proof {
        assert(tasks@.take(tasks@.len() as int) =~= tasks@);
    }
    ids
}

/// Counts and id sets over `tasks` (see `overview_of`).
pub fn summarize_tasks(tasks: &Vec<TaskRecord>) -> (o: TaskOverview)
    ensures
        overview_of(tasks@, o),
{
    let mut roots: usize = 0;
    let mut program_ids: Vec<u16> = Vec::new();
    let mut mind_ids: Vec<u16> = Vec::new();
    let mut wait_counts = zeros(WAIT_KIND_COUNT);
    let mut outcome_counts = zeros(OUTCOME_COUNT);
    let mut index: usize = 0;
    proof {
        assert(tasks@.take(0).map_values(|t: TaskRecord| t.program_id.0) =~= program_ids@);
        assert(tasks@.take(0).map_values(|t: TaskRecord| t.mind_id.0) =~= mind_ids@);
    }
    while index < tasks.len()
        invariant
            index <= tasks@.len(),
            roots == root_count(tasks@.take(index as int)),
            sorted_set_of(
                program_ids@,
                tasks@.take(index as int).map_values(|t: TaskRecord| t.program_id.0),
            ),
            sorted_set_of(mind_ids@, tasks@.take(index as int).map_values(|t: TaskRecord| t.mind_id.0)),
            wait_counts@.len() == WAIT_KIND_COUNT,
            forall|k: int|
                0 <= k < WAIT_KIND_COUNT ==> #[trigger] wait_counts@[k] == wait_kind_count(
                    tasks@.take(index as int),
                    k as nat,
                ),
            outcome_counts@.len() == OUTCOME_COUNT,
            forall|k: int|
                0 <= k < OUTCOME_COUNT ==> #[trigger] outcome_counts@[k] == outcome_count(
                    tasks@.take(index as int),
                    k as nat,
                ),
        decreases tasks@.len() - index,
    {
        let task = tasks[index];
        let ghost prefix = tasks@.take(index as int);
        let ghost next = tasks@.take(index + 1);
        proof {
            assert(next.drop_last() =~= prefix);
            assert(next.map_values(|t: TaskRecord| t.program_id.0) =~= prefix.map_values(
                |t: TaskRecord| t.program_id.0,
            ).push(task.program_id.0));
            assert(next.map_values(|t: TaskRecord| t.mind_id.0) =~= prefix.map_values(
                |t: TaskRecord| t.mind_id.0,
            ).push(task.mind_id.0));
            prefix.map_values(|t: TaskRecord| t.program_id.0).lemma_push_to_set_commute(
                task.program_id.0,
            );
            prefix.map_values(|t: TaskRecord| t.mind_id.0).lemma_push_to_set_commute(task.mind_id.0);
            lemma_task_counts_bound(prefix, 0);
        }
        if task.parent.is_none() {
            roots = roots + 1;
        }
        insert_sorted_unique(&mut program_ids, task.program_id.0);
        insert_sorted_unique(&mut mind_ids, task.mind_id.0);
        let k = wait_kind_number(task.wait);
        proof {
            lemma_task_counts_bound(prefix, k as nat);
        }
        let c = wait_counts[k];
        wait_counts.set(k, c + 1);
        let k = outcome_number(task.outcome);
        proof {
            lemma_task_counts_bound(prefix, k as nat);
        }
        let c = outcome_counts[k];
        outcome_counts.set(k, c + 1);
        index = index + 1;
    }
    proof {
        assert(tasks@.take(tasks@.len() as int) =~= tasks@);
    }
    TaskOverview {
        task_count: tasks.len(),
        root_task_count: roots,
        program_ids,
        mind_ids,
        wait_counts,
        outcome_counts,
    }
}

/// What the snapshot summary holds.
#[derive(Clone, Debug, PartialEq, Eq)]
pub struct SnapshotSummary {
    pub clock: u64,
    pub next_task_id: u32,
    pub tasks: TaskOverview,
    pub pending_signals: Vec<u16>,
}

/// `s` summarizes the snapshot document `doc`: its clock and id counter, an overview of
/// its present tasks, and its present signals in queue order.
pub open spec fn summarizes_snapshot(doc: SnapshotDocument, s: SnapshotSummary) -> bool {
    &&& s.clock == doc.clock
    &&& s.next_task_id == doc.next_task_id
    &&& overview_of(present(doc.tasks@), s.tasks)
    &&& s.pending_signals@ == present(doc.pending_signals@).map_values(|x: SignalId| x.0)
}

/// Summarizes a snapshot document (see `summarizes_snapshot`).
pub fn build_snapshot_summary(doc: &SnapshotDocument) -> (s: SnapshotSummary)
    ensures
        summarizes_snapshot(*doc, s),
{
    let tasks = present_tasks(&doc.tasks);
    let signals = present_signals(&doc.pending_signals);
    let mut pending: Vec<u16> = Vec::new();
    let mut index: usize = 0;
    while index < signals.len()
        invariant
            index <= signals@.len(),
            pending@ == signals@.take(index as int).map_values(|x: SignalId| x.0),
        decreases signals@.len() - index,
    {
        proof {
            assert(signals@.take(index + 1).map_values(|x: SignalId| x.0) =~= signals@.take(
                index as int,
            ).map_values(|x: SignalId| x.0).push(signals@[index as int].0));
        }
        pending.push(signals[index].0);
        index = index + 1;
    }
    proof {
        assert(signals@.take(signals@.len() as int) =~= signals@);
    }
    SnapshotSummary {
        clock: doc.clock,
        next_task_id: doc.next_task_id,
        tasks: summarize_tasks(&tasks),
        pending_signals: pending,
    }
}

/// Whether `c` has the Unicode `White_Space` property, by which `str::trim` strips: the
/// code points U+0009 to U+000D, U+0020, U+0085, U+00A0, U+1680, U+2000 to U+200A, U+2028,
/// U+2029, U+202F, U+205F and U+3000.
pub open spec fn is_white_space(c: char) -> bool {
    let u = c as u32;
    ||| 0x9 <= u <= 0xD
    ||| u == 0x20
    ||| u == 0x85
    ||| u == 0xA0
    ||| u == 0x1680
    ||| 0x2000 <= u <= 0x200A
    ||| u == 0x2028
    ||| u == 0x2029
    ||| u == 0x202F
    ||| u == 0x205F
    ||| u == 0x3000
}

/// Whether `c` is white space (see `is_white_space`).
pub fn char_is_whitespace(c: char) -> (b: bool)
    ensures
        b == is_white_space(c),
{
    let u = c as u32;
    (0x9 <= u && u <= 0xD) || u == 0x20 || u == 0x85 || u == 0xA0 || u == 0x1680 || (0x2000 <= u && u
        <= 0x200A) || u == 0x2028 || u == 0x2029 || u == 0x202F || u == 0x205F || u == 0x3000
}

/// A text is blank when it has only white space (it trims to nothing).
pub open spec fn is_blank_text(s: Seq<char>) -> bool {
    forall|i: int| 0 <= i < s.len() ==> is_white_space(#[trigger] s[i])
}

/// Whether `s` has only white space (see `is_blank_text`).
pub fn is_blank(s: &str) -> (blank: bool)
    ensures
        blank == is_blank_text(s@),
{
    let len = s.unicode_len();
    let mut index: usize = 0;
    while index < len
        invariant
            index <= len,
            len == s@.len(),
            forall|i: int| 0 <= i < index ==> is_white_space(#[trigger] s@[i]),
        decreases len - index,
    {
        let c = s.get_char(index);
        if !char_is_whitespace(c) {
            return false;
        }
        index = index + 1;
    }
    true
}

/// Why an asset bundle manifest is refused before its files are read.
#[derive(Clone, Debug, PartialEq, Eq)]
pub enum ManifestError {
    UnsupportedVersion(u32),
    BlankSnapshotId,
    DuplicateSnapshotId(String),
}

/// The manifest version this library reads.
pub const MANIFEST_VERSION: u32 = 1;

/// Accepts only the manifest version this library reads.
pub fn check_manifest_version(version: u32) -> (r: Result<(), ManifestError>)
    ensures
        version == MANIFEST_VERSION <==> r is Ok,
        r is Err ==> r == Err::<(), ManifestError>(ManifestError::UnsupportedVersion(version)),
{
    if version != MANIFEST_VERSION {
        return Err(ManifestError::UnsupportedVersion(version));
    }
    Ok(())
}

/// Checks the id of snapshot entry `index`: it must not be blank, nor repeat the id of
/// an earlier entry.
pub fn check_snapshot_entry_id(ids: &Vec<String>, index: usize) -> (r: Result<(), ManifestError>)
    requires
        index < ids@.len(),
    ensures
        is_blank_text(ids@[index as int]@) ==> r == Err::<(), ManifestError>(
            ManifestError::BlankSnapshotId,
        ),
        !is_blank_text(ids@[index as int]@) && (exists|j: int|
            0 <= j < index && (#[trigger] ids@[j])@ == ids@[index as int]@) ==> (r matches Err(
            ManifestError::DuplicateSnapshotId(id),
        ) && id@ == ids@[index as int]@),
        !is_blank_text(ids@[index as int]@) && (forall|j: int|
            0 <= j < index ==> (#[trigger] ids@[j])@ != ids@[index as int]@) ==> r is Ok,
{
    let id = &ids[index];
    if is_blank(id.as_str()) {
        return Err(ManifestError::BlankSnapshotId);
    }
    let mut j: usize = 0;
    while j < index
        invariant
            j <= index < ids@.len(),
            *id == ids@[index as int],
            !is_blank_text(ids@[index as int]@),
            forall|k: int| 0 <= k < j ==> (#[trigger] ids@[k])@ != ids@[index as int]@,
        decreases index - j,
    {
        if ids[j] == *id {
            return Err(ManifestError::DuplicateSnapshotId(id.clone()));
        }
        j = j + 1;
    }
    Ok(())
}

/// The message of a manifest error.
pub open spec fn manifest_error_text(error: ManifestError) -> Seq<char> {
    match error {
        ManifestError::UnsupportedVersion(version) => "asset bundle manifest version "@ + decimal(
            version as nat,
        ) + " is unsupported; expected 1"@,
        ManifestError::BlankSnapshotId => "asset bundle manifest snapshot id must not be empty"@,
        ManifestError::DuplicateSnapshotId(id) => "asset bundle manifest duplicate snapshot id "@
            + id@,
    }
}

impl ManifestError {
    /// The message of this error (see `manifest_error_text`).
    pub fn message(&self) -> (text: String)
        ensures
            text@ == manifest_error_text(*self),
    {
        match self {
            ManifestError::UnsupportedVersion(version) => {
                let mut out = String::from_str("asset bundle manifest version ");
                push_decimal(&mut out, *version as u64);
                out.append(" is unsupported; expected 1");
                out
            },
            ManifestError::BlankSnapshotId => String::from_str(
                "asset bundle manifest snapshot id must not be empty",
            ),
            ManifestError::DuplicateSnapshotId(id) => {
                let mut out = String::from_str("asset bundle manifest duplicate snapshot id ");
                out.append(id.as_str());
                out
            },
        }
    }
}

/// Where a stable insertion puts `d` into `s`: after the last program whose id is not
/// larger.
pub open spec fn doc_insert_pos(s: Seq<ProgramDocument>, d: ProgramDocument) -> int
    decreases s.len(),
{
    if s.len() == 0 || s.last().id.0 <= d.id.0 {
        s.len() as int
    } else {
        doc_insert_pos(s.drop_last(), d)
    }
}

/// `s` ordered by program id, programs with equal ids kept in their order.
pub open spec fn sort_docs_by_id(s: Seq<ProgramDocument>) -> Seq<ProgramDocument>
    decreases s.len(),
{
    if s.len() == 0 {
        Seq::empty()
    } else {
        let r = sort_docs_by_id(s.drop_last());
        r.insert(doc_insert_pos(r, s.last()), s.last())
    }
}

/// Orders the programs of a catalog document by id (stably: programs with equal ids keep
/// their order).
pub fn normalize_catalog_document(document: ProgramCatalogDocument) -> (normalized:
    ProgramCatalogDocument)
    ensures
        normalized.programs@ == sort_docs_by_id(document.programs@),
{
    let ghost original = document.programs@;
    let mut rest = document.programs;
    let mut sorted: Vec<ProgramDocument> = Vec::new();
    let ghost mut taken: int = 0;
    while rest.len() > 0
        invariant
            0 <= taken <= original.len(),
            rest@ == original.skip(taken),
            sorted@ == sort_docs_by_id(original.take(taken)),
        decreases rest@.len(),
    {
        let d = rest.remove(0);
        proof {
            assert(d == original[taken]);
            assert(original.take(taken + 1).drop_last() =~= original.take(taken));
            assert(rest@ =~= original.skip(taken + 1));
        }
        let mut p: usize = sorted.len();
        proof {
            assert(sorted@.take(p as int) =~= sorted@);
        }
        while p > 0 && sorted[p - 1].id.0 > d.id.0
            invariant
                p <= sorted@.len(),
                sorted@ == sort_docs_by_id(original.take(taken)),
                doc_insert_pos(sorted@, d) == doc_insert_pos(sorted@.take(p as int), d),
            decreases p,
        {
            proof {
                assert(sorted@.take(p as int).drop_last() =~= sorted@.take(p - 1));
            }
            p = p - 1;
        }
        proof {
            assert(doc_insert_pos(sorted@, d) == p);
        }
        sorted.insert(p, d);
        proof {
            taken = taken + 1;
        }
    }
    proof {
        assert(original.take(taken) =~= original);
    }
    ProgramCatalogDocument { programs: sorted }
}

/// The tasks a wait names.
pub open spec fn wait_targets(wait: WaitReason) -> Seq<TaskId> {
    match wait {
        WaitReason::Race { left, right } => seq![left, right],
        WaitReason::RaceOrTicks { left, right, .. } => seq![left, right],
        WaitReason::Timeout { child, .. } => seq![child],
        _ => Seq::empty(),
    }
}

proof fn lemma_registry_error_none_from(tasks: Seq<TaskRecord>, valid: Seq<ProgramId>, i0: int, i: int)
    requires
        0 <= i0 <= i,
        registry_error(tasks, valid, i0) is None,
    ensures
        registry_error(tasks, valid, i) is None,
    decreases i - i0,
{
    if i0 < i && i0 < tasks.len() {
        lemma_registry_error_none_from(tasks, valid, i0 + 1, i);
    }
}

proof fn lemma_link_error_none_from(tasks: Seq<TaskRecord>, ids: Seq<TaskId>, i0: int, i: int)
    requires
        0 <= i0 <= i,
        link_error(tasks, ids, i0) is None,
    ensures
        link_error(tasks, ids, i) is None,
    decreases i - i0,
{
    if i0 < i && i0 < tasks.len() {
        lemma_link_error_none_from(tasks, ids, i0 + 1, i);
    }
}

/// A snapshot that validates against a catalog with the programs `valid` runs only
/// programs of the catalog, has distinct task ids, and every parent, scope root and
/// waited-on task it names is one of its tasks.
pub proof fn lemma_validated_snapshot_is_closed(valid: Seq<ProgramId>, tasks: Seq<TaskRecord>, i: int)
    requires
        snapshot_error(valid, tasks) is None,
        0 <= i < tasks.len(),
    ensures
        valid.contains(tasks[i].program_id),
        forall|j: int| 0 <= j < tasks.len() && j != i ==> (#[trigger] tasks[j]).id != tasks[i].id,
        tasks[i].parent is Some ==> task_ids(tasks).contains(tasks[i].parent.unwrap()),
        task_ids(tasks).contains(tasks[i].scope_root),
        forall|k: int|
            0 <= k < wait_targets(tasks[i].wait).len() ==> task_ids(tasks).contains(
                #[trigger] wait_targets(tasks[i].wait)[k],
            ),
{
    lemma_registry_error_none_from(tasks, valid, 0, i);
    lemma_link_error_none_from(tasks, task_ids(tasks), 0, i);
    assert forall|j: int| 0 <= j < tasks.len() && j != i implies (#[trigger] tasks[j]).id
        != tasks[i].id by {
        if j < i {
            assert(task_ids(tasks).take(i)[j] == tasks[j].id);
        } else {
            lemma_registry_error_none_from(tasks, valid, 0, j);
            assert(task_ids(tasks).take(j)[i] == tasks[i].id);
        }
    }
}

proof fn lemma_insert_pos_bounds(s: Seq<TaskRecord>, t: TaskRecord)
    ensures
        0 <= insert_pos(s, t) <= s.len(),
        forall|j: int| insert_pos(s, t) <= j < s.len() ==> (#[trigger] s[j]).id.0 > t.id.0,
        insert_pos(s, t) > 0 ==> s[insert_pos(s, t) - 1].id.0 <= t.id.0,
    decreases s.len(),
{
    if s.len() == 0 || s.last().id.0 <= t.id.0 {
    } else {
        lemma_insert_pos_bounds(s.drop_last(), t);
        assert forall|j: int| insert_pos(s, t) <= j < s.len() implies (#[trigger] s[j]).id.0
            > t.id.0 by {
            if j < s.len() - 1 {
                assert(s[j] == s.drop_last()[j]);
            }
        }
    }
}

/// Stable insertion sort by id keeps the tasks and orders them.
pub proof fn lemma_sort_by_id(s: Seq<TaskRecord>)
    ensures
        sorted_by_id(sort_by_id(s)),
        sort_by_id(s).to_multiset() == s.to_multiset(),
        sort_by_id(s).len() == s.len(),
    decreases s.len(),
{
    if s.len() > 0 {
        let r = sort_by_id(s.drop_last());
        let t = s.last();
        lemma_sort_by_id(s.drop_last());
        lemma_insert_pos_bounds(r, t);
        let p = insert_pos(r, t);
        let out = r.insert(p, t);
        assert forall|i: int, j: int| 0 <= i < j < out.len() implies (#[trigger] out[i]).id.0
            <= (#[trigger] out[j]).id.0 by {
            if j < p {
                assert(out[i] == r[i] && out[j] == r[j]);
            } else if j == p {
                assert(out[i] == r[i]);
                assert(r[i].id.0 <= r[p - 1].id.0 || i == p - 1);
            } else if i < p {
                assert(out[i] == r[i] && out[j] == r[j - 1]);
                assert(r[j - 1].id.0 > t.id.0);
                assert(r[i].id.0 <= r[j - 1].id.0);
            } else if i == p {
                assert(out[j] == r[j - 1]);
            } else {
                assert(out[i] == r[i - 1] && out[j] == r[j - 1]);
            }
        }
        vstd::seq_lib::to_multiset_insert(r, p, t);
        assert(s.drop_last().push(t) =~= s);
    }
}

/// The tasks without a parent.
pub open spec fn parentless(tasks: Seq<TaskRecord>) -> Seq<TaskRecord> {
    tasks.filter(|t: TaskRecord| t.parent is None)
}

/// A task overview counts as roots exactly the tasks without a parent, whatever their
/// outcome or wait; the other tasks are exactly those with a parent.
pub proof fn lemma_overview_roots_are_parentless(tasks: Seq<TaskRecord>, o: TaskOverview)
    requires
        overview_of(tasks, o),
    ensures
        o.root_task_count == parentless(tasks).len(),
        o.task_count - o.root_task_count == tasks.filter(|t: TaskRecord| t.parent is Some).len(),
    decreases tasks.len(),
{
    lemma_root_count_parentless(tasks);
}

proof fn lemma_root_count_parentless(tasks: Seq<TaskRecord>)
    ensures
        root_count(tasks) == parentless(tasks).len(),
        tasks.len() - root_count(tasks) == tasks.filter(|t: TaskRecord| t.parent is Some).len(),
    decreases tasks.len(),
{
    reveal(Seq::filter);
    if tasks.len() > 0 {
        lemma_root_count_parentless(tasks.drop_last());
    }
}

/// The programs of `s` whose id is `x`, in order.
pub open spec fn docs_with_id(s: Seq<ProgramDocument>, x: u16) -> Seq<ProgramDocument> {
    s.filter(|e: ProgramDocument| e.id.0 == x)
}

/// The programs of `s` are in non-decreasing id order.
pub open spec fn docs_ordered(s: Seq<ProgramDocument>) -> bool {
    forall|i: int, j: int| 0 <= i < j < s.len() ==> (#[trigger] s[i]).id.0 <= (#[trigger] s[j]).id.0
}

/// Normalizing a catalog document sorts stably by id: the programs come in non-decreasing
/// id order, and for every id the programs with that id are exactly those of the input,
/// in their input order (so the output is a rearrangement of the input, nothing lost,
/// added or reordered among equal ids).
pub proof fn lemma_normalized_catalog_is_stable_sort(input: Seq<ProgramDocument>)
    ensures
        docs_ordered(sort_docs_by_id(input)),
        sort_docs_by_id(input).len() == input.len(),
        forall|x: u16| #[trigger] docs_with_id(sort_docs_by_id(input), x) == docs_with_id(input, x),
    decreases input.len(),
{
    if input.len() > 0 {
        let rest = input.drop_last();
        let d = input.last();
        let r = sort_docs_by_id(rest);
        lemma_normalized_catalog_is_stable_sort(rest);
        let p = doc_insert_pos(r, d);
        lemma_doc_insert_pos(r, d);
        let out = r.insert(p, d);
        assert forall|i: int, j: int| 0 <= i < j < out.len() implies (#[trigger] out[i]).id.0 <= (
        #[trigger] out[j]).id.0 by {
            if j < p {
            } else if j == p {
                if i < p {
                    assert(r[i].id.0 <= r[p - 1].id.0);
                }
            } else if i < p {
                assert(out[j] == r[j - 1]);
                assert(r[j - 1].id.0 > d.id.0);
            } else if i == p {
                assert(out[j] == r[j - 1]);
            } else {
                assert(out[i] == r[i - 1] && out[j] == r[j - 1]);
            }
        }
        assert(input =~= rest + seq![d]);
        assert forall|x: u16| #[trigger] docs_with_id(out, x) == docs_with_id(input, x) by {
            lemma_docs_with_id_insert(r, d, x);
            Seq::filter_distributes_over_add(rest, seq![d], |e: ProgramDocument| e.id.0 == x);
            lemma_docs_with_id_single(d, x);
        }
    }
}

/// Where `doc_insert_pos` puts `d`: after a program whose id is not larger, before only
/// programs with larger ids.
proof fn lemma_doc_insert_pos(s: Seq<ProgramDocument>, d: ProgramDocument)
    ensures
        0 <= doc_insert_pos(s, d) <= s.len(),
        doc_insert_pos(s, d) > 0 ==> s[doc_insert_pos(s, d) - 1].id.0 <= d.id.0,
        forall|k: int| doc_insert_pos(s, d) <= k < s.len() ==> (#[trigger] s[k]).id.0 > d.id.0,
    decreases s.len(),
{
    if s.len() > 0 && s.last().id.0 > d.id.0 {
        lemma_doc_insert_pos(s.drop_last(), d);
        assert forall|k: int| doc_insert_pos(s, d) <= k < s.len() implies (#[trigger] s[k]).id.0 > d.id.0 by {
            if k < s.len() - 1 {
                assert(s.drop_last()[k] == s[k]);
            }
        }
    }
}

proof fn lemma_docs_with_id_single(d: ProgramDocument, x: u16)
    ensures
        docs_with_id(seq![d], x) == if d.id.0 == x {
            seq![d]
        } else {
            Seq::<ProgramDocument>::empty()
        },
{
    reveal_with_fuel(Seq::filter, 2);
    assert(seq![d].drop_last() =~= Seq::<ProgramDocument>::empty());
}

proof fn lemma_docs_with_id_none(s: Seq<ProgramDocument>, x: u16)
    requires
        forall|k: int| 0 <= k < s.len() ==> (#[trigger] s[k]).id.0 != x,
    ensures
        docs_with_id(s, x) == Seq::<ProgramDocument>::empty(),
    decreases s.len(),
{
    reveal(Seq::filter);
    if s.len() > 0 {
        lemma_docs_with_id_none(s.drop_last(), x);
    }
}

/// Inserting `d` where `doc_insert_pos` puts it adds `d` at the end of the programs with its
/// id and changes no other id's programs.
proof fn lemma_docs_with_id_insert(r: Seq<ProgramDocument>, d: ProgramDocument, x: u16)
    ensures
        docs_with_id(r.insert(doc_insert_pos(r, d), d), x) == if d.id.0 == x {
            docs_with_id(r, x).push(d)
        } else {
            docs_with_id(r, x)
        },
{
    let p = doc_insert_pos(r, d);
    lemma_doc_insert_pos(r, d);
    let pred = |e: ProgramDocument| e.id.0 == x;
    let a = r.take(p);
    let b = r.skip(p);
    assert(r.insert(p, d) =~= a + seq![d] + b);
    assert(r =~= a + b);
    Seq::filter_distributes_over_add(a + seq![d], b, pred);
    Seq::filter_distributes_over_add(a, seq![d], pred);
    Seq::filter_distributes_over_add(a, b, pred);
    lemma_docs_with_id_single(d, x);
    if d.id.0 == x {
        assert forall|k: int| 0 <= k < b.len() implies (#[trigger] b[k]).id.0 != x by {
            assert(b[k] == r[p + k]);
        }
        lemma_docs_with_id_none(b, x);
        assert(docs_with_id(r, x) =~= docs_with_id(a, x));
        assert(docs_with_id(r.insert(p, d), x) =~= docs_with_id(a, x).push(d));
    } else {
        assert(docs_with_id(r.insert(p, d), x) =~= docs_with_id(a, x) + docs_with_id(b, x));
    }
}

/// The op has a field of kind `field` holding the id `v`.
pub open spec fn names_id(op: OpDocument, field: IdField, v: u16) -> bool {
    match field {
        IdField::Predicate => {
            ||| (op matches OpDocument::RepeatUntilPredicate { predicate, .. } && predicate.0 == v)
            ||| (op matches OpDocument::WaitPredicate { predicate } && predicate.0 == v)
            ||| (op matches OpDocument::BranchPredicate { predicate, .. } && predicate.0 == v)
        },
        IdField::Signal => {
            ||| (op matches OpDocument::WaitSignalUntilTick { signal, .. } && signal.0 == v)
            ||| (op matches OpDocument::WaitSignalOrTicks { signal, .. } && signal.0 == v)
            ||| (op matches OpDocument::WaitSignal { signal } && signal.0 == v)
        },
        IdField::Mind => op matches OpDocument::ChangeMind { mind } && mind.0 == v,
        IdField::HostCall => op matches OpDocument::Call { call, .. } && call.0 == v,
        IdField::Program => {
            ||| (op matches OpDocument::Spawn { program } && program.0 == v)
            ||| (op matches OpDocument::RepeatUntilPredicate { program, .. } && program.0 == v)
            ||| (op matches OpDocument::TimeoutUntilTick { program, .. } && program.0 == v)
            ||| (op matches OpDocument::TimeoutTicks { program, .. } && program.0 == v)
            ||| (op matches OpDocument::RepeatCount { program, .. } && program.0 == v)
            ||| (op matches OpDocument::RaceChildrenUntilTick { left, right, .. } && (left.0 == v
                || right.0 == v))
            ||| (op matches OpDocument::RaceChildrenOrTicks { left, right, .. } && (left.0 == v
                || right.0 == v))
            ||| (op matches OpDocument::SyncChildren { left, right } && (left.0 == v || right.0 == v))
            ||| (op matches OpDocument::RaceChildren { left, right } && (left.0 == v || right.0 == v))
            ||| (op matches OpDocument::Race2 { left, right } && (left.0 == v || right.0 == v))
            ||| (op matches OpDocument::BranchPredicate { if_true, if_false, .. } && (if_true.0 == v
                || if_false.0 == v))
        },
    }
}

/// The ids of kind `field` that a catalog summary lists.
pub open spec fn summary_ids(s: CatalogSummary, field: IdField) -> Seq<u16> {
    match field {
        IdField::Program => s.referenced_program_ids@,
        IdField::Signal => s.signal_ids@,
        IdField::Predicate => s.predicate_ids@,
        IdField::Mind => s.mind_ids@,
        IdField::HostCall => s.host_call_ids@,
    }
}

/// A catalog summary lists, for each kind of id (referenced programs, signals, predicates,
/// minds, host calls), exactly the ids that some field of some op of some program of the
/// catalog holds, each once and in increasing order.
pub proof fn lemma_summary_lists_named_ids(programs: Seq<ProgramDocument>, s: CatalogSummary, field: IdField)
    requires
        summarizes_catalog(programs, s),
    ensures
        strictly_sorted(summary_ids(s, field)),
        forall|v: u16|
            #[trigger] summary_ids(s, field).contains(v) <==> exists|i: int, j: int|
                0 <= i < programs.len() && 0 <= j < programs[i].ops@.len() && names_id(
                    #[trigger] programs[i].ops@[j],
                    field,
                    v,
                ),
{
    let ops = doc_ops(programs);
    let vals = ops_id_values(ops, field);
    assert(summary_ids(s, field).to_set() == vals.to_set());
    assert forall|v: u16| #[trigger] summary_ids(s, field).contains(v) <==> exists|i: int, j: int|
        0 <= i < programs.len() && 0 <= j < programs[i].ops@.len() && names_id(
            #[trigger] programs[i].ops@[j],
            field,
            v,
        ) by {
        assert(summary_ids(s, field).contains(v) <==> summary_ids(s, field).to_set().contains(v));
        assert(vals.contains(v) <==> vals.to_set().contains(v));
        lemma_ops_id_values_contains(ops, field, v);
        if vals.contains(v) {
            let k = choose|k: int| 0 <= k < ops.len() && names_id(#[trigger] ops[k], field, v);
            let (i, j) = lemma_doc_ops_index(programs, k);
            assert(names_id(programs[i].ops@[j], field, v));
        }
        if exists|i: int, j: int|
            0 <= i < programs.len() && 0 <= j < programs[i].ops@.len() && names_id(
                #[trigger] programs[i].ops@[j],
                field,
                v,
            ) {
            let (i, j) = choose|i: int, j: int|
                0 <= i < programs.len() && 0 <= j < programs[i].ops@.len() && names_id(
                    #[trigger] programs[i].ops@[j],
                    field,
                    v,
                );
            let k = lemma_doc_ops_position(programs, i, j);
            assert(names_id(ops[k], field, v));
        }
    }
}

/// The ids one op contributes are those its fields hold.
proof fn lemma_op_id_values_named(op: OpDocument, field: IdField, v: u16)
    ensures
        op_id_values(op, field).contains(v) <==> names_id(op, field, v),
{
    if field is Program {
        let refs = op_references(op);
        assert(op_id_values(op, field) =~= refs.map_values(|p: ProgramId| p.0));
        if op_id_values(op, field).contains(v) {
            let k = choose|k: int| 0 <= k < op_id_values(op, field).len() && op_id_values(op, field)[k] == v;
            assert(refs[k].0 == v);
        }
        if names_id(op, field, v) {
            match op {
                OpDocument::RaceChildrenUntilTick { left, right, .. }
                | OpDocument::RaceChildrenOrTicks { left, right, .. }
                | OpDocument::SyncChildren { left, right }
                | OpDocument::RaceChildren { left, right }
                | OpDocument::Race2 { left, right } => {
                    if left.0 == v {
                        assert(op_id_values(op, field)[0] == v);
                    } else {
                        assert(op_id_values(op, field)[1] == v);
                    }
                },
                OpDocument::BranchPredicate { if_true, if_false, .. } => {
                    if if_true.0 == v {
                        assert(op_id_values(op, field)[0] == v);
                    } else {
                        assert(op_id_values(op, field)[1] == v);
                    }
                },
                _ => {
                    assert(op_id_values(op, field)[0] == v);
                },
            }
        }
    } else {
        if names_id(op, field, v) {
            assert(op_id_values(op, field)[0] == v);
        }
    }
}

/// An id is among those of a list of ops exactly when some op holds it.
proof fn lemma_ops_id_values_contains(ops: Seq<OpDocument>, field: IdField, v: u16)
    ensures
        ops_id_values(ops, field).contains(v) <==> exists|k: int| 0 <= k < ops.len() && names_id(#[trigger] ops[k], field, v),
    decreases ops.len(),
{
    if ops.len() > 0 {
        let init = ops.drop_last();
        lemma_ops_id_values_contains(init, field, v);
        lemma_op_id_values_named(ops.last(), field, v);
        let a = ops_id_values(init, field);
        let b = op_id_values(ops.last(), field);
        if (a + b).contains(v) {
            let m = choose|m: int| 0 <= m < (a + b).len() && (a + b)[m] == v;
            if m < a.len() {
                assert(a[m] == v);
                let k = choose|k: int| 0 <= k < init.len() && names_id(#[trigger] init[k], field, v);
                assert(ops[k] == init[k]);
            } else {
                assert(b[m - a.len()] == v);
                assert(names_id(ops[ops.len() - 1], field, v));
            }
        }
        if exists|k: int| 0 <= k < ops.len() && names_id(#[trigger] ops[k], field, v) {
            let k = choose|k: int| 0 <= k < ops.len() && names_id(#[trigger] ops[k], field, v);
            if k < ops.len() - 1 {
                assert(init[k] == ops[k]);
                let m = choose|m: int| 0 <= m < a.len() && a[m] == v;
                assert((a + b)[m] == v);
            } else {
                let m = choose|m: int| 0 <= m < b.len() && b[m] == v;
                assert((a + b)[a.len() + m] == v);
            }
        }
    }
}

/// Where an op of the flattened list comes from.
proof fn lemma_doc_ops_index(programs: Seq<ProgramDocument>, k: int) -> (ij: (int, int))
    requires
        0 <= k < doc_ops(programs).len(),
    ensures
        0 <= ij.0 < programs.len(),
        0 <= ij.1 < programs[ij.0].ops@.len(),
        doc_ops(programs)[k] == programs[ij.0].ops@[ij.1],
    decreases programs.len(),
{
    let init = programs.drop_last();
    let a = doc_ops(init);
    if k < a.len() {
        let (i, j) = lemma_doc_ops_index(init, k);
        assert(programs[i] == init[i]);
        (i, j)
    } else {
        (programs.len() - 1, k - a.len())
    }
}

/// Where an op of a program lands in the flattened list.
proof fn lemma_doc_ops_position(programs: Seq<ProgramDocument>, i: int, j: int) -> (k: int)
    requires
        0 <= i < programs.len(),
        0 <= j < programs[i].ops@.len(),
    ensures
        0 <= k < doc_ops(programs).len(),
        doc_ops(programs)[k] == programs[i].ops@[j],
    decreases programs.len(),
{
    let init = programs.drop_last();
    let a = doc_ops(init);
    if i < programs.len() - 1 {
        assert(programs[i] == init[i]);
        lemma_doc_ops_position(init, i, j)
    } else {
        a.len() + j
    }
}

/// A trace line writes an outcome as the word a summary labels it with, capitalized: the
/// same length, the same letters after the first, and the first letter in upper case.
pub proof fn lemma_trace_outcome_word_is_capitalized_label(outcome: Outcome)
    ensures
        crate::debug::outcome_text(outcome).len() == outcome_kind_text(outcome).len(),
        outcome_kind_text(outcome).len() > 0,
        forall|k: int|
            1 <= k < outcome_kind_text(outcome).len() ==> crate::debug::outcome_text(outcome)[k]
                == #[trigger] outcome_kind_text(outcome)[k],
        crate::debug::outcome_text(outcome)[0] as int == outcome_kind_text(outcome)[0] as int - 32,
{
    reveal_strlit("Running");
    reveal_strlit("Succeeded");
    reveal_strlit("Failed");
    reveal_strlit("Cancelled");
    reveal_strlit("running");
    reveal_strlit("succeeded");
    reveal_strlit("failed");
    reveal_strlit("cancelled");
}

/// A task overview counts each outcome at its own position: distinct outcomes have
/// distinct positions, and the count at an outcome's position is the number of tasks
/// with that outcome.
pub proof fn lemma_overview_counts_each_outcome(tasks: Seq<TaskRecord>, o: TaskOverview, outcome: Outcome)
    requires
        overview_of(tasks, o),
    ensures
        outcome_index(outcome) < OUTCOME_COUNT,
        forall|other: Outcome| #[trigger] outcome_index(other) == outcome_index(outcome) ==> other == outcome,
        o.outcome_counts@[outcome_index(outcome) as int] == tasks.filter(|t: TaskRecord| t.outcome == outcome).len(),
{
    lemma_outcome_count_filter(tasks, outcome);
}

proof fn lemma_outcome_count_filter(tasks: Seq<TaskRecord>, outcome: Outcome)
    ensures
        outcome_count(tasks, outcome_index(outcome)) == tasks.filter(|t: TaskRecord| t.outcome == outcome).len(),
    decreases tasks.len(),
{
    reveal(Seq::filter);
    if tasks.len() > 0 {
        lemma_outcome_count_filter(tasks.drop_last(), outcome);
    }
}

/// A trace line writes a wait as the label a summary gives its kind, followed by nothing
/// (for a wait without fields) or by `:` and its fields.
pub proof fn lemma_trace_wait_text_starts_with_kind_label(wait: WaitReason)
    ensures
        crate::debug::wait_text(wait).len() >= wait_kind_text(wait).len(),
        crate::debug::wait_text(wait).take(wait_kind_text(wait).len() as int) == wait_kind_text(wait),
        crate::debug::wait_text(wait).len() == wait_kind_text(wait).len() || crate::debug::wait_text(
            wait,
        )[wait_kind_text(wait).len() as int] == ':',
        (wait is Ready || wait is ChildrenAll || wait is ChildrenAny) <==> crate::debug::wait_text(wait).len()
            == wait_kind_text(wait).len(),
{
    reveal_strlit("ready");
    reveal_strlit("ticks");
    reveal_strlit("ticks:");
    reveal_strlit("signal");
    reveal_strlit("signal:");
    reveal_strlit("predicate");
    reveal_strlit("predicate:");
    reveal_strlit("signal_or_ticks");
    reveal_strlit("signal_or_ticks:");
    reveal_strlit("race_or_ticks");
    reveal_strlit("race_or_ticks:");
    reveal_strlit("timeout");
    reveal_strlit("timeout:");
    reveal_strlit("repeat_until_predicate");
    reveal_strlit("repeat_until_predicate:");
    reveal_strlit("children_all");
    reveal_strlit("children_any");
    reveal_strlit("race");
    reveal_strlit("race:");
    let t = crate::debug::wait_text(wait);
    let k = wait_kind_text(wait);
    match wait {
        WaitReason::Ready | WaitReason::ChildrenAll | WaitReason::ChildrenAny => {
            assert(t.take(k.len() as int) =~= k);
        },
        _ => {
            lemma_wait_text_head(wait);
        },
    }
}

proof fn lemma_wait_text_head(wait: WaitReason)
    requires
        !(wait is Ready || wait is ChildrenAll || wait is ChildrenAny),
    ensures
        crate::debug::wait_text(wait).len() > wait_kind_text(wait).len(),
        crate::debug::wait_text(wait).take(wait_kind_text(wait).len() as int) == wait_kind_text(wait),
        crate::debug::wait_text(wait)[wait_kind_text(wait).len() as int] == ':',
{
    reveal_strlit("ticks");
    reveal_strlit("ticks:");
    reveal_strlit("signal");
    reveal_strlit("signal:");
    reveal_strlit("predicate");
    reveal_strlit("predicate:");
    reveal_strlit("signal_or_ticks");
    reveal_strlit("signal_or_ticks:");
    reveal_strlit("race_or_ticks");
    reveal_strlit("race_or_ticks:");
    reveal_strlit("timeout");
    reveal_strlit("timeout:");
    reveal_strlit("repeat_until_predicate");
    reveal_strlit("repeat_until_predicate:");
    reveal_strlit("race");
    reveal_strlit("race:");
    let t = crate::debug::wait_text(wait);
    let k = wait_kind_text(wait);
    let head = k + seq![':'];
    let rest = t.skip(head.len() as int);
    assert(t =~= head + rest) by {
        match wait {
            WaitReason::Ticks { until_tick } => {
                assert("ticks:"@ =~= head);
            },
            WaitReason::Signal(signal) => {
                assert("signal:"@ =~= head);
            },
            WaitReason::Predicate(predicate) => {
                assert("predicate:"@ =~= head);
            },
            WaitReason::SignalOrTicks { .. } => {
                assert("signal_or_ticks:"@ =~= head);
            },
            WaitReason::RaceOrTicks { .. } => {
                assert("race_or_ticks:"@ =~= head);
            },
            WaitReason::Timeout { .. } => {
                assert("timeout:"@ =~= head);
            },
            WaitReason::RepeatUntilPredicate { .. } => {
                assert("repeat_until_predicate:"@ =~= head);
            },
            WaitReason::Race { .. } => {
                assert("race:"@ =~= head);
            },
            _ => {},
        }
    }
    crate::debug::lemma_decimal_reads_back(0);
    assert(t.take(k.len() as int) =~= k);
}

} // verus!
