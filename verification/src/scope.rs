//! Structured concurrency: a task never outlives the scope it was spawned in. While a task
//! runs, its parent, if still present, runs too; every step of a tick keeps that so.
use vstd::prelude::*;

use crate::cancellation::cancels_within;
use crate::ids::TaskId;
use crate::program::{Op, Program};
use crate::runtime::{
    cancelled_record, current_op, executed, finished_state, has_running_child, has_task,
    holds_task, is_child_of, is_first_free, is_slot_of, next_op,
    race_executed, stored_state, stored_with_child, stored_with_children,
    task_running, timeout_executed, wake_target, Outcome, Runtime, RuntimeError, StepReport,
    TaskRecord, WaitReason,
};
use crate::schedule::{
    asked, busy_rounds, op_log, ran_on, round_failed, round_upto, run_ends, run_visit, tick_run,
    visit, wake_answers, wake_log, wake_visit, woken_state, Effect,
};
use crate::snapshot::{is_running, slot_running, RuntimeSnapshot};

verus! {

/// Structured concurrency: a running task whose parent is still present has a running
/// parent (a task never outlives the scope it was spawned in).
pub open spec fn parents_run(tasks: Seq<Option<TaskRecord>>) -> bool {
    parents_run_except(tasks, None)
}

/// `parents_run`, not asked of the children of `except`.
pub open spec fn parents_run_except(tasks: Seq<Option<TaskRecord>>, except: Option<TaskId>) -> bool {
    forall|i: int|
        #![trigger tasks[i]]
        0 <= i < tasks.len() && slot_running(tasks[i]) && tasks[i].unwrap().parent is Some && except
            != tasks[i].unwrap().parent && has_task(tasks, tasks[i].unwrap().parent.unwrap())
            ==> task_running(tasks, tasks[i].unwrap().parent.unwrap())
}

/// Storing, in the slot of a running task, a running record with the same id and parent
/// keeps parents running.
pub proof fn lemma_store_keeps_parents(tasks: Seq<Option<TaskRecord>>, slot: int, t: TaskRecord)
    requires
        0 <= slot < tasks.len(),
        slot_running(tasks[slot]),
        t.id == tasks[slot].unwrap().id,
        t.parent == tasks[slot].unwrap().parent,
        is_running(t),
        parents_run(tasks),
    ensures
        parents_run(tasks.update(slot, Some(t))),
{
    let b = tasks.update(slot, Some(t));
    assert forall|i: int|
        #![trigger b[i]]
        0 <= i < b.len() && slot_running(b[i]) && b[i].unwrap().parent is Some && None::<TaskId>
            != b[i].unwrap().parent && has_task(b, b[i].unwrap().parent.unwrap()) implies task_running(
        b,
        b[i].unwrap().parent.unwrap(),
    ) by {
        let p = b[i].unwrap().parent.unwrap();
        let kh = choose|k: int| 0 <= k < b.len() && holds_task(#[trigger] b[k], p);
        assert(holds_task(tasks[kh], p));
        assert(slot_running(tasks[i]) && tasks[i].unwrap().parent == Some(p));
        let k = choose|k: int| is_slot_of(tasks, p, k) && slot_running(tasks[k]);
        assert forall|j: int| 0 <= j < k implies !holds_task(#[trigger] b[j], p) by {
            assert(!holds_task(tasks[j], p));
        }
        assert(is_slot_of(b, p, k));
    }
}

/// Adding, in a free slot, a running task with a fresh id whose parent (if any) runs keeps
/// parents running.
pub proof fn lemma_add_keeps_parents(tasks: Seq<Option<TaskRecord>>, k: int, c: TaskRecord)
    requires
        0 <= k < tasks.len(),
        tasks[k] is None,
        is_running(c),
        forall|j: int| 0 <= j < tasks.len() ==> !holds_task(#[trigger] tasks[j], c.id),
        c.parent is Some ==> task_running(tasks, c.parent.unwrap()),
        parents_run(tasks),
    ensures
        parents_run(tasks.update(k, Some(c))),
{
    let b = tasks.update(k, Some(c));
    assert forall|i: int|
        #![trigger b[i]]
        0 <= i < b.len() && slot_running(b[i]) && b[i].unwrap().parent is Some && None::<TaskId>
            != b[i].unwrap().parent && has_task(b, b[i].unwrap().parent.unwrap()) implies task_running(
        b,
        b[i].unwrap().parent.unwrap(),
    ) by {
        let p = b[i].unwrap().parent.unwrap();
        if p == c.id {
            assert forall|j: int| 0 <= j < k implies !holds_task(#[trigger] b[j], p) by {
                assert(!holds_task(tasks[j], c.id));
            }
            assert(is_slot_of(b, p, k));
        } else {
            if i != k {
                let kh = choose|j: int| 0 <= j < b.len() && holds_task(#[trigger] b[j], p);
                assert(holds_task(tasks[kh], p));
                assert(slot_running(tasks[i]));
            }
            let m = choose|m: int| is_slot_of(tasks, p, m) && slot_running(tasks[m]);
            assert(m != k);
            assert forall|j: int| 0 <= j < m implies !holds_task(#[trigger] b[j], p) by {
                assert(!holds_task(tasks[j], p));
            }
            assert(is_slot_of(b, p, m));
        }
    }
}

/// A cancellation (see `cancels_within`) keeps parents running, apart from the children of
/// `except`.
pub proof fn lemma_cancels_keep_parents(
    a: Seq<Option<TaskRecord>>,
    b: Seq<Option<TaskRecord>>,
    target: spec_fn(TaskRecord) -> bool,
    except: Option<TaskId>,
)
    requires
        cancels_within(a, b, target),
        parents_run_except(a, except),
    ensures
        parents_run_except(b, except),
{
    assert forall|i: int|
        #![trigger b[i]]
        0 <= i < b.len() && slot_running(b[i]) && b[i].unwrap().parent is Some && except
            != b[i].unwrap().parent && has_task(b, b[i].unwrap().parent.unwrap()) implies task_running(
        b,
        b[i].unwrap().parent.unwrap(),
    ) by {
        let p = b[i].unwrap().parent.unwrap();
        assert(b[i] == a[i] || (slot_running(a[i]) && b[i] == Some(cancelled_record(a[i].unwrap()))));
        assert(b[i] == a[i]);
        let kh = choose|j: int| 0 <= j < b.len() && holds_task(#[trigger] b[j], p);
        assert(b[kh] == a[kh] || (slot_running(a[kh]) && b[kh] == Some(cancelled_record(a[kh].unwrap()))));
        assert(holds_task(a[kh], p));
        let m = choose|m: int| is_slot_of(a, p, m) && slot_running(a[m]);
        assert forall|j: int| 0 <= j < m implies !holds_task(#[trigger] b[j], p) by {
            assert(b[j] == a[j] || (slot_running(a[j]) && b[j] == Some(cancelled_record(a[j].unwrap()))));
            assert(!holds_task(a[j], p));
        }
        assert(b[m] == a[m] || (slot_running(a[m]) && b[m] == Some(cancelled_record(a[m].unwrap()))));
        assert(holds_task(b[m], p));
        assert(is_slot_of(b, p, m));
        if b[m] != a[m] {
            assert(holds_task(a[m], p));
            assert(crate::cancellation::changed_task(a, b, p));
            assert(crate::cancellation::parent_changed(b[i].unwrap(), a, b));
        }
    }
}

/// Finishing the task in a slot (same id, no longer running) keeps parents running for
/// every task but its children.
pub proof fn lemma_finish_keeps_parents<const N: usize, const S: usize>(
    s: RuntimeSnapshot<N, S>,
    slot: int,
    t: TaskRecord,
)
    requires
        s.wf(),
        0 <= slot < N,
        slot_running(s.tasks@[slot]),
        t.id == s.tasks@[slot].unwrap().id,
        !is_running(t),
        parents_run(s.tasks@),
    ensures
        parents_run_except(s.tasks@.update(slot, Some(t)), Some(t.id)),
{
    let a = s.tasks@;
    let b = a.update(slot, Some(t));
    assert forall|i: int|
        #![trigger b[i]]
        0 <= i < b.len() && slot_running(b[i]) && b[i].unwrap().parent is Some && Some(t.id)
            != b[i].unwrap().parent && has_task(b, b[i].unwrap().parent.unwrap()) implies task_running(
        b,
        b[i].unwrap().parent.unwrap(),
    ) by {
        let p = b[i].unwrap().parent.unwrap();
        let kh = choose|j: int| 0 <= j < b.len() && holds_task(#[trigger] b[j], p);
        assert(holds_task(a[kh], p));
        assert(i != slot);
        assert(slot_running(a[i]));
        let m = choose|m: int| is_slot_of(a, p, m) && slot_running(a[m]);
        assert(m != slot);
        assert forall|j: int| 0 <= j < m implies !holds_task(#[trigger] b[j], p) by {
            assert(!holds_task(a[j], p));
        }
        assert(is_slot_of(b, p, m));
    }
}

/// Parents run once no running task hangs from the one exception.
pub proof fn lemma_parents_run_without_children(tasks: Seq<Option<TaskRecord>>, id: TaskId)
    requires
        parents_run_except(tasks, Some(id)),
        !has_running_child(tasks, id),
    ensures
        parents_run(tasks),
{
    assert forall|i: int|
        #![trigger tasks[i]]
        0 <= i < tasks.len() && slot_running(tasks[i]) && tasks[i].unwrap().parent is Some && None::<
            TaskId,
        > != tasks[i].unwrap().parent && has_task(tasks, tasks[i].unwrap().parent.unwrap()) implies task_running(
        tasks,
        tasks[i].unwrap().parent.unwrap(),
    ) by {
        if tasks[i].unwrap().parent == Some(id) {
            assert(is_child_of(tasks[i], id));
        }
    }
}

/// The task in a running slot is running when no earlier slot holds its id.
proof fn lemma_running_at(tasks: Seq<Option<TaskRecord>>, slot: int)
    requires
        0 <= slot < tasks.len(),
        slot_running(tasks[slot]),
        forall|j: int|
            0 <= j < slot && #[trigger] tasks[j] is Some ==> tasks[j].unwrap().id != tasks[slot].unwrap().id,
    ensures
        task_running(tasks, tasks[slot].unwrap().id),
{
    let id = tasks[slot].unwrap().id;
    assert forall|j: int| 0 <= j < slot implies !holds_task(#[trigger] tasks[j], id) by {
        if tasks[j] is Some {
            assert(tasks[j].unwrap().id != id);
        }
    }
    assert(is_slot_of(tasks, id, slot));
}

/// Storing a running record with the same id and parent in the slot of the running task
/// keeps parents running.
proof fn lemma_stored_keeps_parents<const N: usize, const S: usize>(
    a: RuntimeSnapshot<N, S>,
    b: RuntimeSnapshot<N, S>,
    slot: int,
    t: TaskRecord,
)
    requires
        0 <= slot < N,
        slot_running(a.tasks@[slot]),
        t.id == a.tasks@[slot].unwrap().id,
        t.parent == a.tasks@[slot].unwrap().parent,
        is_running(t),
        stored_state(a, b, slot, t),
        parents_run(a.tasks@),
    ensures
        parents_run(b.tasks@),
        slot_running(b.tasks@[slot]),
{
    lemma_store_keeps_parents(a.tasks@, slot, t);
}

/// Storing the running task's new record and spawning a child of it keeps parents
/// running.
proof fn lemma_child_keeps_parents<const N: usize, const S: usize>(
    a: RuntimeSnapshot<N, S>,
    b: RuntimeSnapshot<N, S>,
    slot: int,
    t: TaskRecord,
    program: crate::ids::ProgramId,
)
    requires
        b.wf(),
        0 <= slot < N,
        slot_running(a.tasks@[slot]),
        t.id == a.tasks@[slot].unwrap().id,
        t.parent == a.tasks@[slot].unwrap().parent,
        is_running(t),
        stored_with_child(a, b, slot, t, program),
        parents_run(a.tasks@),
    ensures
        parents_run(b.tasks@),
        slot_running(b.tasks@[slot]),
{
    let k = choose|k: int|
        is_first_free(a.tasks@, k) && b.tasks@ == a.tasks@.update(slot, Some(t)).update(
            k,
            Some(crate::runtime::child_record(t, crate::runtime::next_id(a, 1), program)),
        );
    let c = crate::runtime::child_record(t, crate::runtime::next_id(a, 1), program);
    let t1 = a.tasks@.update(slot, Some(t));
    lemma_store_keeps_parents(a.tasks@, slot, t);
    assert(k != slot);
    assert(b.tasks@[k] == Some(c));
    assert(b.tasks@[slot] == Some(t));
    assert forall|j: int| 0 <= j < t1.len() implies !holds_task(#[trigger] t1[j], c.id) by {
        if j != k && t1[j] is Some {
            assert(b.tasks@[j] == t1[j]);
            assert(b.tasks@[j].unwrap().id != b.tasks@[k].unwrap().id);
        }
    }
    assert forall|j: int| 0 <= j < slot && #[trigger] t1[j] is Some implies t1[j].unwrap().id
        != t1[slot].unwrap().id by {
        assert(b.tasks@[j] == t1[j]);
        assert(b.tasks@[j].unwrap().id != b.tasks@[slot].unwrap().id);
    }
    lemma_running_at(t1, slot);
    lemma_add_keeps_parents(t1, k, c);
}

/// Storing the running task's new record and spawning two children of it keeps parents
/// running.
proof fn lemma_children_keep_parents<const N: usize, const S: usize>(
    a: RuntimeSnapshot<N, S>,
    b: RuntimeSnapshot<N, S>,
    slot: int,
    t: TaskRecord,
    left: crate::ids::ProgramId,
    right: crate::ids::ProgramId,
)
    requires
        b.wf(),
        0 <= slot < N,
        slot_running(a.tasks@[slot]),
        t.id == a.tasks@[slot].unwrap().id,
        t.parent == a.tasks@[slot].unwrap().parent,
        is_running(t),
        stored_with_children(a, b, slot, t, left, right),
        parents_run(a.tasks@),
    ensures
        parents_run(b.tasks@),
{
    let lr = crate::runtime::child_record(t, crate::runtime::next_id(a, 1), left);
    let rr = crate::runtime::child_record(t, crate::runtime::next_id(a, 2), right);
    let (k1, k2) = choose|k1: int, k2: int|
        is_first_free(a.tasks@, k1) && is_first_free(a.tasks@.update(k1, Some(lr)), k2)
            && b.tasks@ == a.tasks@.update(slot, Some(t)).update(k1, Some(lr)).update(k2, Some(rr));
    let t1 = a.tasks@.update(slot, Some(t));
    let t2 = t1.update(k1, Some(lr));
    lemma_store_keeps_parents(a.tasks@, slot, t);
    assert(k1 != slot);
    assert(k2 != slot && k2 != k1);
    assert(b.tasks@[k1] == Some(lr));
    assert(b.tasks@[k2] == Some(rr));
    assert(b.tasks@[slot] == Some(t));
    assert forall|j: int| 0 <= j < t1.len() implies !holds_task(#[trigger] t1[j], lr.id) by {
        if j != k1 && j != k2 && t1[j] is Some {
            assert(b.tasks@[j] == t1[j]);
            assert(b.tasks@[j].unwrap().id != b.tasks@[k1].unwrap().id);
        }
        if j == k2 {
            assert(a.tasks@.update(k1, Some(lr))[k2] is None);
        }
    }
    assert forall|j: int| 0 <= j < slot && #[trigger] t1[j] is Some implies t1[j].unwrap().id
        != t1[slot].unwrap().id by {
        if j == k2 {
            assert(a.tasks@.update(k1, Some(lr))[k2] is None);
        } else {
            assert(b.tasks@[j] == t1[j]);
            assert(b.tasks@[j].unwrap().id != b.tasks@[slot].unwrap().id);
        }
    }
    lemma_running_at(t1, slot);
    lemma_add_keeps_parents(t1, k1, lr);
    assert forall|j: int| 0 <= j < t2.len() implies !holds_task(#[trigger] t2[j], rr.id) by {
        if j != k2 && t2[j] is Some {
            assert(b.tasks@[j] == t2[j]);
            assert(b.tasks@[j].unwrap().id != b.tasks@[k2].unwrap().id);
        }
    }
    assert forall|j: int| 0 <= j < slot && #[trigger] t2[j] is Some implies t2[j].unwrap().id
        != t2[slot].unwrap().id by {
        assert(b.tasks@[j] == t2[j]);
        assert(b.tasks@[j].unwrap().id != b.tasks@[slot].unwrap().id);
    }
    lemma_running_at(t2, slot);
    lemma_add_keeps_parents(t2, k2, rr);
}

/// Finishing the running task in `slot` (with its children cancelled) keeps parents
/// running.
proof fn lemma_finished_keeps_parents<const N: usize, const S: usize>(
    a: RuntimeSnapshot<N, S>,
    b: RuntimeSnapshot<N, S>,
    slot: int,
    task: TaskRecord,
    outcome: Outcome,
)
    requires
        a.wf(),
        0 <= slot < N,
        slot_running(a.tasks@[slot]),
        task == a.tasks@[slot].unwrap(),
        outcome != Outcome::Running,
        finished_state(a, b, slot, task, outcome),
        parents_run(a.tasks@),
    ensures
        parents_run(b.tasks@),
{
    let t = TaskRecord { outcome, wait: WaitReason::Ready, ..task };
    lemma_finish_keeps_parents(a, slot, t);
    lemma_cancels_keep_parents(
        a.tasks@.update(slot, Some(t)),
        b.tasks@,
        crate::cancellation::child_target(task.id),
        Some(task.id),
    );
    lemma_parents_run_without_children(b.tasks@, task.id);
}

/// Waking the running task in `slot` (with what its wait no longer needs cancelled) keeps
/// parents running.
proof fn lemma_woken_keeps_parents<const N: usize, const S: usize>(
    a: RuntimeSnapshot<N, S>,
    b: RuntimeSnapshot<N, S>,
    slot: int,
)
    requires
        0 <= slot < N,
        slot_running(a.tasks@[slot]),
        woken_state(a, b, slot),
        parents_run(a.tasks@),
    ensures
        parents_run(b.tasks@),
{
    let task = a.tasks@[slot].unwrap();
    let woken = TaskRecord { wait: WaitReason::Ready, ..task };
    lemma_store_keeps_parents(a.tasks@, slot, woken);
    lemma_cancels_keep_parents(a.tasks@.update(slot, Some(woken)), b.tasks@, wake_target(a, task), None);
}

/// Executing an op of the running task in `slot` keeps parents running; when the task may
/// go on at once, its slot still runs.
proof fn lemma_executed_keeps_parents<const N: usize, const S: usize>(
    op: Op,
    slot: int,
    task: TaskRecord,
    a: RuntimeSnapshot<N, S>,
    b: RuntimeSnapshot<N, S>,
    programs: Seq<Program>,
    r: Result<bool, RuntimeError>,
    answer: bool,
)
    requires
        a.wf(),
        b.wf(),
        0 <= slot < N,
        slot_running(a.tasks@[slot]),
        task == a.tasks@[slot].unwrap(),
        executed(op, slot, task, a, b, programs, r, answer),
        parents_run(a.tasks@),
    ensures
        parents_run(b.tasks@),
        r == Ok::<bool, RuntimeError>(true) ==> slot_running(b.tasks@[slot]),
{
    let nt = next_op(task);
    match op {
        Op::ChangeMind(mind) => {
            lemma_stored_keeps_parents(a, b, slot, TaskRecord { mind_id: mind, ..nt });
        },
        Op::Succeed => {
            lemma_finished_keeps_parents(a, b, slot, task, Outcome::Succeeded);
        },
        Op::Fail => {
            lemma_finished_keeps_parents(a, b, slot, task, Outcome::Failed);
        },
        Op::Spawn(program) => {
            if r is Ok {
                lemma_child_keeps_parents(a, b, slot, nt, program);
            } else {
                lemma_stored_keeps_parents(a, b, slot, nt);
            }
        },
        Op::BranchPredicate(_, if_true, if_false) => {
            let chosen = if answer { if_true } else { if_false };
            if r is Ok {
                lemma_child_keeps_parents(a, b, slot, TaskRecord { wait: WaitReason::ChildrenAll, ..nt }, chosen);
            } else {
                lemma_stored_keeps_parents(a, b, slot, nt);
            }
        },
        Op::RepeatUntilPredicate(predicate, program) => {
            if answer {
                lemma_stored_keeps_parents(a, b, slot, nt);
            } else if r is Ok {
                lemma_child_keeps_parents(
                    a,
                    b,
                    slot,
                    TaskRecord {
                        wait: WaitReason::RepeatUntilPredicate {
                            predicate,
                            resume_at_tick: a.clock.saturating_add(1),
                        },
                        ..task
                    },
                    program,
                );
            }
        },
        Op::TimeoutUntilTick(until_tick, program) => {
            lemma_timeout_keeps_parents(a, b, programs, slot, task, until_tick, program, r);
        },
        Op::TimeoutTicks(ticks, program) => {
            lemma_timeout_keeps_parents(
                a,
                b,
                programs,
                slot,
                task,
                crate::runtime::deadline(a.clock, ticks),
                program,
                r,
            );
        },
        Op::RaceChildrenUntilTick(left, right, until_tick) => {
            if a.clock >= until_tick {
                lemma_stored_keeps_parents(a, b, slot, nt);
            } else {
                lemma_race_keeps_parents(a, b, programs, slot, task, left, right, Some(until_tick), r);
            }
        },
        Op::RaceChildrenOrTicks(left, right, ticks) => {
            let d = crate::runtime::deadline(a.clock, ticks);
            if a.clock >= d {
                lemma_stored_keeps_parents(a, b, slot, nt);
            } else {
                lemma_race_keeps_parents(a, b, programs, slot, task, left, right, Some(d), r);
            }
        },
        Op::Race2(left, right) => {
            lemma_race_keeps_parents(a, b, programs, slot, task, left, right, None, r);
        },
        Op::WaitUntilTick(until_tick) => {
            lemma_stored_keeps_parents(a, b, slot, TaskRecord { wait: WaitReason::Ticks { until_tick }, ..nt });
        },
        Op::WaitSignalUntilTick(signal, until_tick) => {
            lemma_stored_keeps_parents(
                a,
                b,
                slot,
                TaskRecord { wait: WaitReason::SignalOrTicks { signal, until_tick }, ..nt },
            );
        },
        Op::WaitSignalOrTicks(signal, ticks) => {
            lemma_stored_keeps_parents(
                a,
                b,
                slot,
                TaskRecord {
                    wait: WaitReason::SignalOrTicks { signal, until_tick: crate::runtime::deadline(a.clock, ticks) },
                    ..nt
                },
            );
        },
        Op::WaitTicks(ticks) => {
            lemma_stored_keeps_parents(
                a,
                b,
                slot,
                TaskRecord { wait: WaitReason::Ticks { until_tick: crate::runtime::deadline(a.clock, ticks) }, ..nt },
            );
        },
        Op::WaitSignal(signal) => {
            lemma_stored_keeps_parents(a, b, slot, TaskRecord { wait: WaitReason::Signal(signal), ..nt });
        },
        Op::WaitPredicate(predicate) => {
            lemma_stored_keeps_parents(a, b, slot, TaskRecord { wait: WaitReason::Predicate(predicate), ..nt });
        },
        Op::JoinChildren => {
            if has_running_child(a.tasks@, task.id) {
                lemma_stored_keeps_parents(a, b, slot, TaskRecord { wait: WaitReason::ChildrenAll, ..nt });
            } else {
                lemma_stored_keeps_parents(a, b, slot, nt);
            }
        },
        Op::JoinAnyChildren => {
            if has_running_child(a.tasks@, task.id) {
                lemma_stored_keeps_parents(a, b, slot, TaskRecord { wait: WaitReason::ChildrenAny, ..nt });
            } else {
                lemma_stored_keeps_parents(a, b, slot, nt);
            }
        },
        _ => {
            lemma_stored_keeps_parents(a, b, slot, nt);
        },
    }
}

/// A timeout op keeps parents running.
proof fn lemma_timeout_keeps_parents<const N: usize, const S: usize>(
    a: RuntimeSnapshot<N, S>,
    b: RuntimeSnapshot<N, S>,
    programs: Seq<Program>,
    slot: int,
    task: TaskRecord,
    until_tick: u64,
    program: crate::ids::ProgramId,
    r: Result<bool, RuntimeError>,
)
    requires
        b.wf(),
        0 <= slot < N,
        slot_running(a.tasks@[slot]),
        task == a.tasks@[slot].unwrap(),
        timeout_executed(a, b, programs, slot, task, until_tick, program, r),
        parents_run(a.tasks@),
    ensures
        parents_run(b.tasks@),
        r == Ok::<bool, RuntimeError>(true) ==> slot_running(b.tasks@[slot]),
{
    let nt = next_op(task);
    if a.clock >= until_tick {
        lemma_stored_keeps_parents(a, b, slot, nt);
    } else if r is Ok {
        lemma_child_keeps_parents(
            a,
            b,
            slot,
            TaskRecord { wait: WaitReason::Timeout { child: crate::runtime::next_id(a, 1), until_tick }, ..nt },
            program,
        );
    } else {
        lemma_stored_keeps_parents(a, b, slot, nt);
    }
}

/// A race op keeps parents running.
proof fn lemma_race_keeps_parents<const N: usize, const S: usize>(
    a: RuntimeSnapshot<N, S>,
    b: RuntimeSnapshot<N, S>,
    programs: Seq<Program>,
    slot: int,
    task: TaskRecord,
    left: crate::ids::ProgramId,
    right: crate::ids::ProgramId,
    until_tick: Option<u64>,
    r: Result<bool, RuntimeError>,
)
    requires
        b.wf(),
        0 <= slot < N,
        slot_running(a.tasks@[slot]),
        task == a.tasks@[slot].unwrap(),
        race_executed(a, b, programs, slot, task, left, right, until_tick, r),
        parents_run(a.tasks@),
    ensures
        parents_run(b.tasks@),
        r == Ok::<bool, RuntimeError>(true) ==> slot_running(b.tasks@[slot]),
{
    let nt = next_op(task);
    match crate::runtime::race_failure(a, programs, left, right) {
        Some(e) => {
            if e == RuntimeError::CapacityExceeded {
            } else if crate::program::find_program(programs, left) is None {
                lemma_stored_keeps_parents(a, b, slot, nt);
            } else {
                lemma_child_keeps_parents(a, b, slot, nt, left);
            }
        },
        None => {
            lemma_children_keep_parents(
                a,
                b,
                slot,
                TaskRecord { wait: crate::runtime::race_wait(a, until_tick), ..nt },
                left,
                right,
            );
        },
    }
}

/// A run of ops that each let the task go on keeps parents running and the state
/// well-formed, and leaves the task's slot running.
proof fn lemma_ran_on_keeps_parents<const N: usize, const S: usize>(
    a: RuntimeSnapshot<N, S>,
    b: RuntimeSnapshot<N, S>,
    programs: Seq<Program>,
    slot: int,
    answers: Seq<bool>,
    n: nat,
    requests: Seq<Effect>,
)
    requires
        a.wf(),
        0 <= slot < N,
        slot_running(a.tasks@[slot]),
        ran_on(a, b, programs, slot, answers, n, requests),
        parents_run(a.tasks@),
    ensures
        b.wf(),
        slot_running(b.tasks@[slot]),
        parents_run(b.tasks@),
    decreases n,
{
    if n > 0 {
        let task = a.tasks@[slot].unwrap();
        let op = current_op(programs, task);
        let q = op_log(op, slot, task, a, programs, answers[0], Ok::<bool, RuntimeError>(true));
        let mid = choose|mid: RuntimeSnapshot<N, S>|
            #[trigger] executed(op, slot, task, a, mid, programs, Ok::<bool, RuntimeError>(true), answers[0])
                && mid.wf() && ran_on(
                mid,
                b,
                programs,
                slot,
                answers.skip(asked(op) as int),
                (n - 1) as nat,
                requests.skip(q.len() as int),
            );
        lemma_executed_keeps_parents(op, slot, task, a, mid, programs, Ok::<bool, RuntimeError>(true), answers[0]);
        lemma_ran_on_keeps_parents(
            mid,
            b,
            programs,
            slot,
            answers.skip(asked(op) as int),
            (n - 1) as nat,
            requests.skip(q.len() as int),
        );
    }
}

/// The last step of a run keeps parents running.
proof fn lemma_run_ends_keeps_parents<const N: usize, const S: usize>(
    a: RuntimeSnapshot<N, S>,
    b: RuntimeSnapshot<N, S>,
    programs: Seq<Program>,
    slot: int,
    answers: Seq<bool>,
    requests: Seq<Effect>,
    r: Result<(), RuntimeError>,
)
    requires
        a.wf(),
        0 <= slot < N,
        slot_running(a.tasks@[slot]),
        run_ends(a, b, programs, slot, answers, requests, r),
        parents_run(a.tasks@),
    ensures
        b.wf(),
        parents_run(b.tasks@),
{
    let task = a.tasks@[slot].unwrap();
    if (task.ip as nat) >= crate::snapshot::op_len(programs, task.program_id) {
        lemma_finished_keeps_parents(a, b, slot, task, Outcome::Succeeded);
    } else {
        let op = current_op(programs, task);
        let res = choose|res: Result<bool, RuntimeError>|
            #[trigger] executed(op, slot, task, a, b, programs, res, answers[0]) && requests == op_log(
                op,
                slot,
                task,
                a,
                programs,
                answers[0],
                res,
            ) && match res {
                Ok(go_on) => !go_on && r == Ok::<(), RuntimeError>(()),
                Err(e) => r == Err::<(), RuntimeError>(e),
            };
        lemma_executed_keeps_parents(op, slot, task, a, b, programs, res, answers[0]);
    }
}

/// The run of a task when a round reaches it keeps parents running.
proof fn lemma_run_visit_keeps_parents<const N: usize, const S: usize>(
    a: RuntimeSnapshot<N, S>,
    b: RuntimeSnapshot<N, S>,
    programs: Seq<Program>,
    slot: int,
    answers: Seq<bool>,
    requests: Seq<Effect>,
    ran: bool,
    r: Result<(), RuntimeError>,
)
    requires
        a.wf(),
        0 <= slot < N,
        run_visit(a, b, programs, slot, answers, requests, ran, r),
        parents_run(a.tasks@),
    ensures
        b.wf(),
        parents_run(b.tasks@),
{
    let t = a.tasks@[slot];
    if slot_running(t) && t.unwrap().wait is Ready && answers[0] && crate::program::find_program(
        programs,
        t.unwrap().program_id,
    ) is Some {
        let (m, n, a1, q1) = choose|m: RuntimeSnapshot<N, S>, n: nat, a1: Seq<bool>, q1: Seq<Effect>|
            #[trigger] ran_on(a, m, programs, slot, a1, n, q1) && a1.len() <= answers.len() - 1
                && answers.skip(1).take(a1.len() as int) == a1 && q1.len() <= requests.len() - 1
                && requests.skip(1).take(q1.len() as int) == q1 && run_ends(
                m,
                b,
                programs,
                slot,
                answers.skip(1 + a1.len() as int),
                requests.skip(1 + q1.len() as int),
                r,
            );
        lemma_ran_on_keeps_parents(a, m, programs, slot, a1, n, q1);
        lemma_run_ends_keeps_parents(
            m,
            b,
            programs,
            slot,
            answers.skip(1 + a1.len() as int),
            requests.skip(1 + q1.len() as int),
            r,
        );
    }
}

/// One visit of a round (wake-up check, then run) keeps parents running.
proof fn lemma_visit_keeps_parents<const N: usize, const S: usize>(
    a: RuntimeSnapshot<N, S>,
    b: RuntimeSnapshot<N, S>,
    programs: Seq<Program>,
    slot: int,
    answers: Seq<bool>,
    requests: Seq<Effect>,
    r: Result<(), RuntimeError>,
)
    requires
        a.wf(),
        0 <= slot < N,
        visit(a, b, programs, slot, answers, requests, r),
        parents_run(a.tasks@),
    ensures
        b.wf(),
        parents_run(b.tasks@),
{
    reveal(visit);
    let (m, woke) = choose|m: RuntimeSnapshot<N, S>, woke: bool|
        #[trigger] wake_visit(a, m, slot, wake_answers(a, slot, woke), woke) && wake_answers(
            a,
            slot,
            woke,
        ).len() <= answers.len() && answers.take(wake_answers(a, slot, woke).len() as int)
            == wake_answers(a, slot, woke) && wake_log(a, slot, woke).len() <= requests.len() && requests.take(
            wake_log(a, slot, woke).len() as int,
        ) == wake_log(a, slot, woke) && exists|ran: bool|
            #[trigger] run_visit(
                m,
                b,
                programs,
                slot,
                answers.skip(wake_answers(a, slot, woke).len() as int),
                requests.skip(wake_log(a, slot, woke).len() as int),
                ran,
                r,
            );
    let t = a.tasks@[slot];
    if slot_running(t) && !(t.unwrap().wait is Ready) && woke {
        lemma_woken_keeps_parents(a, m, slot);
    }
    let ran = choose|ran: bool|
        #[trigger] run_visit(
            m,
            b,
            programs,
            slot,
            answers.skip(wake_answers(a, slot, woke).len() as int),
            requests.skip(wake_log(a, slot, woke).len() as int),
            ran,
            r,
        );
    lemma_run_visit_keeps_parents(
        m,
        b,
        programs,
        slot,
        answers.skip(wake_answers(a, slot, woke).len() as int),
        requests.skip(wake_log(a, slot, woke).len() as int),
        ran,
        r,
    );
}

/// Visiting the first `c` positions of a round keeps parents running.
proof fn lemma_round_upto_keeps_parents<const N: usize, const S: usize>(
    a: RuntimeSnapshot<N, S>,
    b: RuntimeSnapshot<N, S>,
    programs: Seq<Program>,
    order: Seq<Option<usize>>,
    c: nat,
    answers: Seq<bool>,
    requests: Seq<Effect>,
)
    requires
        a.wf(),
        c <= order.len(),
        forall|k: int| 0 <= k < order.len() && #[trigger] order[k] is Some ==> order[k].unwrap() < N,
        round_upto(a, b, programs, order, c, answers, requests),
        parents_run(a.tasks@),
    ensures
        b.wf(),
        parents_run(b.tasks@),
    decreases c,
{
    if c > 0 {
        if order[c - 1] is None {
            lemma_round_upto_keeps_parents(a, b, programs, order, (c - 1) as nat, answers, requests);
        } else {
            let (m, j, i, r2, slot) = choose|
                m: RuntimeSnapshot<N, S>,
                j: nat,
                i: nat,
                r2: Result<(), RuntimeError>,
                slot: usize,
            |
                #[trigger] visit(m, b, programs, slot as int, answers.skip(j as int), requests.skip(i as int), r2)
                    && order[c - 1] == Some(slot) && r2 is Ok && j <= answers.len() && i <= requests.len()
                    && round_upto(
                    a,
                    m,
                    programs,
                    order,
                    (c - 1) as nat,
                    answers.take(j as int),
                    requests.take(i as int),
                );
            lemma_round_upto_keeps_parents(
                a,
                m,
                programs,
                order,
                (c - 1) as nat,
                answers.take(j as int),
                requests.take(i as int),
            );
            assert(order[c - 1] is Some);
            lemma_visit_keeps_parents(m, b, programs, slot as int, answers.skip(j as int), requests.skip(i as int), r2);
        }
    }
}

/// `k` rounds keep parents running.
proof fn lemma_busy_rounds_keep_parents<const N: usize, const S: usize>(
    a: RuntimeSnapshot<N, S>,
    b: RuntimeSnapshot<N, S>,
    programs: Seq<Program>,
    k: nat,
    answers: Seq<bool>,
    requests: Seq<Effect>,
)
    requires
        a.wf(),
        busy_rounds(a, b, programs, k, answers, requests),
        parents_run(a.tasks@),
    ensures
        b.wf(),
        parents_run(b.tasks@),
    decreases k,
{
    if k > 0 {
        let (m, j, i, order) = choose|m: RuntimeSnapshot<N, S>, j: nat, i: nat, order: Seq<Option<usize>>|
            #[trigger] round_upto(m, b, programs, order, N as nat, answers.skip(j as int), requests.skip(i as int))
                && crate::runtime::run_order(m.tasks@, order) && b != m && j <= answers.len() && i
                <= requests.len() && busy_rounds(
                a,
                m,
                programs,
                (k - 1) as nat,
                answers.take(j as int),
                requests.take(i as int),
            );
        lemma_busy_rounds_keep_parents(a, m, programs, (k - 1) as nat, answers.take(j as int), requests.take(i as int));
        lemma_round_upto_keeps_parents(m, b, programs, order, N as nat, answers.skip(j as int), requests.skip(i as int));
    }
}

/// Structured concurrency holds across a tick: if, before the tick, every running task
/// whose parent is present has a running parent, the same holds after it, whether the tick
/// succeeds or fails, whatever the host answers.
pub proof fn lemma_tick_keeps_parents<const N: usize, const S: usize>(
    old_s: RuntimeSnapshot<N, S>,
    new_s: RuntimeSnapshot<N, S>,
    programs: Seq<Program>,
    answers: Seq<bool>,
    requests: Seq<Effect>,
    r: Result<StepReport, RuntimeError>,
)
    requires
        old_s.wf(),
        tick_run(old_s, new_s, programs, answers, requests, r),
        parents_run(old_s.tasks@),
    ensures
        parents_run(new_s.tasks@),
{
    let start = RuntimeSnapshot { clock: old_s.clock.saturating_add(1), ..old_s };
    let (k, m, j, i) = choose|k: nat, m: RuntimeSnapshot<N, S>, j: nat, i: nat|
        #[trigger] busy_rounds(start, m, programs, k, answers.take(j as int), requests.take(i as int))
            && j <= answers.len() && i <= requests.len() && exists|order: Seq<Option<usize>>|
            #[trigger] crate::runtime::run_order(m.tasks@, order) && match r {
                Ok(report) => round_upto(m, m, programs, order, N as nat, answers.skip(j as int), requests.skip(i as int))
                    && RuntimeSnapshot { pending_signals: old_s.pending_signals, ..new_s } == m
                    && (forall|x: int| 0 <= x < S ==> #[trigger] new_s.pending_signals@[x] is None)
                    && report == StepReport {
                    clock: new_s.clock,
                    actions_emitted: crate::runtime::add_capped(0, crate::schedule::action_count(requests)),
                    progress_made: k > 0,
                },
                Err(e) => round_failed(m, new_s, programs, order, answers.skip(j as int), requests.skip(i as int), e),
            };
    assert(start.tasks@ == old_s.tasks@);
    lemma_busy_rounds_keep_parents(start, m, programs, k, answers.take(j as int), requests.take(i as int));
    match r {
        Ok(_) => {
            assert(new_s.tasks@ == m.tasks@);
        },
        Err(e) => {
            let order = choose|order: Seq<Option<usize>>|
                #[trigger] crate::runtime::run_order(m.tasks@, order) && round_failed(
                    m,
                    new_s,
                    programs,
                    order,
                    answers.skip(j as int),
                    requests.skip(i as int),
                    e,
                );
            let aa = answers.skip(j as int);
            let qq = requests.skip(i as int);
            let (c, m2, j2, i2) = choose|c: nat, m2: RuntimeSnapshot<N, S>, j2: nat, i2: nat|
                #[trigger] round_upto(m, m2, programs, order, c, aa.take(j2 as int), qq.take(i2 as int))
                    && c < order.len() && j2 <= aa.len() && i2 <= qq.len() && order[c as int] is Some
                    && visit(
                    m2,
                    new_s,
                    programs,
                    order[c as int].unwrap() as int,
                    aa.skip(j2 as int),
                    qq.skip(i2 as int),
                    Err(e),
                );
            lemma_round_upto_keeps_parents(m, m2, programs, order, c, aa.take(j2 as int), qq.take(i2 as int));
            lemma_visit_keeps_parents(
                m2,
                new_s,
                programs,
                order[c as int].unwrap() as int,
                aa.skip(j2 as int),
                qq.skip(i2 as int),
                Err(e),
            );
        },
    }
}

/// Structured concurrency holds across a tick of the runtime (see
/// `lemma_tick_keeps_parents`): a running task whose parent is still present has a running
/// parent after the tick if it was so before.
pub proof fn lemma_runtime_tick_keeps_parents<'a, const N: usize, const S: usize>(
    old_rt: Runtime<'a, N, S>,
    new_rt: Runtime<'a, N, S>,
    answers: Seq<bool>,
    requests: Seq<Effect>,
    r: Result<StepReport, RuntimeError>,
)
    requires
        old_rt.wf(),
        Runtime::ticked(old_rt, new_rt, answers, requests, r),
        parents_run(old_rt.state().tasks@),
    ensures
        parents_run(new_rt.state().tasks@),
{
    lemma_tick_keeps_parents(old_rt.state(), new_rt.state(), old_rt.programs_seq(), answers, requests, r);
}

/// Spawning a root task keeps structured concurrency: the new task has no parent, and no
/// other task changes.
pub proof fn lemma_spawn_keeps_parents<'a, const N: usize, const S: usize>(
    old_rt: Runtime<'a, N, S>,
    new_rt: Runtime<'a, N, S>,
    program_id: crate::ids::ProgramId,
    r: Result<TaskId, RuntimeError>,
)
    requires
        old_rt.wf(),
        Runtime::spawned_root(old_rt, new_rt, program_id, r),
        parents_run(old_rt.state().tasks@),
    ensures
        parents_run(new_rt.state().tasks@),
{
    let old_s = old_rt.state();
    let new_s = new_rt.state();
    if let Ok(id) = r {
        let rec = crate::runtime::spawned_record(id, program_id, crate::runtime::spec_root_mind(), None, None);
        let k = choose|k: int|
            is_first_free(old_s.tasks@, k) && new_s.tasks@ == old_s.tasks@.update(k, Some(rec));
        assert forall|j: int| 0 <= j < old_s.tasks@.len() implies !holds_task(#[trigger] old_s.tasks@[j], rec.id) by {
            if old_s.tasks@[j] is Some {
                assert(old_s.tasks@[j].unwrap().id.0 <= old_s.next_task_id);
            }
        }
        lemma_add_keeps_parents(old_s.tasks@, k, rec);
    }
}

/// Queueing a signal keeps structured concurrency: no task changes.
pub proof fn lemma_signal_keeps_parents<'a, const N: usize, const S: usize>(
    old_rt: Runtime<'a, N, S>,
    new_rt: Runtime<'a, N, S>,
    signal: crate::ids::SignalId,
    r: Result<(), RuntimeError>,
)
    requires
        Runtime::queued_signal(old_rt, new_rt, signal, r),
        parents_run(old_rt.state().tasks@),
    ensures
        parents_run(new_rt.state().tasks@),
{
    assert(new_rt.state().tasks@ == old_rt.state().tasks@);
}

} // verus!
